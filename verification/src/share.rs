//! Additively shared values with a MAC in each direction.
//!
//! Each of two peers holds a share of a secret, authenticated to the other
//! peer. The secret is the sum of the two shares.

use crate::bit_adder::BitShare;
use crate::f40b::F40b;
use crate::field::{minus, FiniteField, FiniteRing, PrimeRing};
use crate::homcom::{MacProver, MacVerifier};
use crate::mpc_homcom::{PeerFieldMacs, PeerRole};
use crate::prime_fields::F2;
use crate::ring::{
    embed, lemma_embed, lemma_opposite_plus, lemma_opposite_zero, lemma_plus_swap,
    lemma_times_opposite, lemma_times_zero, lemma_zero_plus,
};
use vstd::prelude::*;

verus! {

/// What a peer holds of a shared value: its own share, the MAC on it, and the
/// key to the other peer's share.
pub struct ShareView {
    pub value: int,
    pub mac: int,
    pub key: int,
}

/// One peer's part of a shared value.
#[derive(Clone, Copy)]
pub struct AuthenticatedShare<FE: FiniteField> {
    pub local: MacProver<FE>,
    pub remote: MacVerifier<FE>,
}

impl<FE: FiniteField> View for AuthenticatedShare<FE> {
    type V = ShareView;

    open spec fn view(&self) -> ShareView {
        ShareView {
            value: self.local.value.val(),
            mac: self.local.mac.val(),
            key: self.remote.mac.val(),
        }
    }
}

impl<FE: FiniteField> AuthenticatedShare<FE> {
    /// A share from its two directions.
    pub fn new(local: MacProver<FE>, remote: MacVerifier<FE>) -> (r: Self)
        ensures
            r.local == local,
            r.remote == remote,
            r@ == (ShareView {
                value: local.value.val(),
                mac: local.mac.val(),
                key: remote.mac.val(),
            }),
    {
        AuthenticatedShare { local, remote }
    }

    /// The components of a share are canonical representatives.
    pub proof fn lemma_canonical(&self)
        ensures
            canonical::<FE>(self@),
    {
        self.local.value.law_val();
        self.local.mac.law_val();
        self.remote.mac.law_val();
    }
}

/// Whether all components are canonical representatives.
pub open spec fn canonical<FE: FiniteField>(s: ShareView) -> bool {
    &&& 0 <= s.value < FE::PrimeField::order()
    &&& 0 <= s.mac < FE::order()
    &&& 0 <= s.key < FE::order()
}

/// The share of zero that every peer holds by agreement.
pub open spec fn zero_share() -> ShareView {
    ShareView { value: 0, mac: 0, key: 0 }
}

/// The share of a sum.
pub open spec fn share_sum<FE: FiniteField>(s: ShareView, t: ShareView) -> ShareView {
    ShareView {
        value: FE::PrimeField::plus(s.value, t.value),
        mac: FE::plus(s.mac, t.mac),
        key: FE::plus(s.key, t.key),
    }
}

/// The share of the additive inverse.
pub open spec fn share_opposite<FE: FiniteField>(s: ShareView) -> ShareView {
    ShareView {
        value: FE::PrimeField::opposite(s.value),
        mac: FE::opposite(s.mac),
        key: FE::opposite(s.key),
    }
}

/// The share of the product with the public constant `c`.
pub open spec fn share_multiple<FE: FiniteField>(c: int, s: ShareView) -> ShareView {
    ShareView {
        value: FE::PrimeField::times(c, s.value),
        mac: FE::times(embed::<FE>(c), s.mac),
        key: FE::times(embed::<FE>(c), s.key),
    }
}

/// The share of the sum with the public constant `c`, as the peer in `role`
/// with the global key `delta` computes it: the first peer adds the constant to
/// its share, the second one corrects its key.
pub open spec fn share_shifted<FE: FiniteField>(
    role: PeerRole,
    delta: int,
    s: ShareView,
    c: int,
) -> ShareView {
    if role is First {
        ShareView { value: FE::PrimeField::plus(s.value, c), mac: s.mac, key: s.key }
    } else {
        ShareView {
            value: s.value,
            mac: s.mac,
            key: minus::<FE>(s.key, FE::times(embed::<FE>(c), delta)),
        }
    }
}

/// Whether `s` and `t` are the two parts of one shared value, where the peer
/// that holds `s` has the global key `ds` and the one that holds `t` has `dt`.
pub open spec fn paired<FE: FiniteField>(s: ShareView, t: ShareView, ds: int, dt: int) -> bool {
    &&& canonical::<FE>(s)
    &&& canonical::<FE>(t)
    &&& s.mac == FE::plus(FE::times(dt, embed::<FE>(s.value)), t.key)
    &&& t.mac == FE::plus(FE::times(ds, embed::<FE>(t.value)), s.key)
}

/// The shared value.
pub open spec fn secret<FE: FiniteField>(s: ShareView, t: ShareView) -> int {
    FE::PrimeField::plus(s.value, t.value)
}

/// One direction of a sum: `delta * (v + w) + (k + l)` is the sum of the MACs.
proof fn lemma_mac_sum<FE: FiniteField>(delta: int, v: int, w: int, k: int, l: int)
    requires
        0 <= v < FE::PrimeField::order(),
        0 <= w < FE::PrimeField::order(),
    ensures
        FE::plus(FE::times(delta, embed::<FE>(FE::PrimeField::plus(v, w))), FE::plus(k, l))
            == FE::plus(
            FE::plus(FE::times(delta, embed::<FE>(v)), k),
            FE::plus(FE::times(delta, embed::<FE>(w)), l),
        ),
{
    lemma_embed::<FE>(v, w);
    FE::law_distributive(delta, embed::<FE>(v), embed::<FE>(w));
    lemma_plus_swap::<FE>(
        FE::times(delta, embed::<FE>(v)),
        FE::times(delta, embed::<FE>(w)),
        k,
        l,
    );
}

/// The agreed shares of zero share zero.
pub proof fn law_zero_share<FE: FiniteField>(ds: int, dt: int)
    ensures
        paired::<FE>(zero_share(), zero_share(), ds, dt),
        secret::<FE>(zero_share(), zero_share()) == 0,
{
    FE::law_order();
    FE::PrimeField::law_order();
    lemma_embed::<FE>(0, 0);
    lemma_times_zero::<FE>(ds);
    lemma_times_zero::<FE>(dt);
    lemma_zero_plus::<FE>(0);
    lemma_zero_plus::<FE::PrimeField>(0);
}

/// Sums of shared values are shared values, of the sum.
pub proof fn law_share_sum<FE: FiniteField>(
    s1: ShareView,
    t1: ShareView,
    s2: ShareView,
    t2: ShareView,
    ds: int,
    dt: int,
)
    requires
        paired::<FE>(s1, t1, ds, dt),
        paired::<FE>(s2, t2, ds, dt),
    ensures
        paired::<FE>(share_sum::<FE>(s1, s2), share_sum::<FE>(t1, t2), ds, dt),
        secret::<FE>(share_sum::<FE>(s1, s2), share_sum::<FE>(t1, t2)) == FE::PrimeField::plus(
            secret::<FE>(s1, t1),
            secret::<FE>(s2, t2),
        ),
{
    FE::PrimeField::law_closed(s1.value, s2.value);
    FE::PrimeField::law_closed(t1.value, t2.value);
    FE::law_closed(s1.mac, s2.mac);
    FE::law_closed(t1.mac, t2.mac);
    FE::law_closed(s1.key, s2.key);
    FE::law_closed(t1.key, t2.key);
    lemma_mac_sum::<FE>(dt, s1.value, s2.value, t1.key, t2.key);
    lemma_mac_sum::<FE>(ds, t1.value, t2.value, s1.key, s2.key);
    lemma_plus_swap::<FE::PrimeField>(s1.value, s2.value, t1.value, t2.value);
}

/// Opposites of shared values are shared values, of the opposite.
pub proof fn law_share_opposite<FE: FiniteField>(s: ShareView, t: ShareView, ds: int, dt: int)
    requires
        paired::<FE>(s, t, ds, dt),
    ensures
        paired::<FE>(share_opposite::<FE>(s), share_opposite::<FE>(t), ds, dt),
        secret::<FE>(share_opposite::<FE>(s), share_opposite::<FE>(t)) == FE::PrimeField::opposite(
            secret::<FE>(s, t),
        ),
{
    FE::PrimeField::law_closed(s.value, 0);
    FE::PrimeField::law_closed(t.value, 0);
    FE::law_closed(s.mac, 0);
    FE::law_closed(t.mac, 0);
    FE::law_closed(s.key, 0);
    FE::law_closed(t.key, 0);
    lemma_embed::<FE>(s.value, t.value);
    lemma_embed::<FE>(t.value, s.value);
    lemma_times_opposite::<FE>(dt, embed::<FE>(s.value));
    lemma_times_opposite::<FE>(ds, embed::<FE>(t.value));
    lemma_opposite_plus::<FE>(FE::times(dt, embed::<FE>(s.value)), t.key);
    lemma_opposite_plus::<FE>(FE::times(ds, embed::<FE>(t.value)), s.key);
    lemma_opposite_plus::<FE::PrimeField>(s.value, t.value);
}

/// One direction of a multiple: `delta * (c * v) + c * k` is `c` times the MAC.
proof fn lemma_mac_multiple<FE: FiniteField>(delta: int, c: int, v: int, k: int)
    requires
        0 <= v < FE::PrimeField::order(),
        0 <= c < FE::PrimeField::order(),
    ensures
        FE::plus(
            FE::times(delta, embed::<FE>(FE::PrimeField::times(c, v))),
            FE::times(embed::<FE>(c), k),
        ) == FE::times(embed::<FE>(c), FE::plus(FE::times(delta, embed::<FE>(v)), k)),
{
    let (ec, ev) = (embed::<FE>(c), embed::<FE>(v));
    lemma_embed::<FE>(c, v);
    FE::law_distributive(ec, FE::times(delta, ev), k);
    FE::law_times_assoc(ec, delta, ev);
    FE::law_times_comm(ec, delta);
    FE::law_times_assoc(delta, ec, ev);
}

/// Multiples of shared values are shared values, of the multiple.
pub proof fn law_share_multiple<FE: FiniteField>(
    c: int,
    s: ShareView,
    t: ShareView,
    ds: int,
    dt: int,
)
    requires
        0 <= c < FE::PrimeField::order(),
        paired::<FE>(s, t, ds, dt),
    ensures
        paired::<FE>(share_multiple::<FE>(c, s), share_multiple::<FE>(c, t), ds, dt),
        secret::<FE>(share_multiple::<FE>(c, s), share_multiple::<FE>(c, t))
            == FE::PrimeField::times(c, secret::<FE>(s, t)),
{
    FE::PrimeField::law_closed(c, s.value);
    FE::PrimeField::law_closed(c, t.value);
    FE::law_closed(embed::<FE>(c), s.mac);
    FE::law_closed(embed::<FE>(c), t.mac);
    FE::law_closed(embed::<FE>(c), s.key);
    FE::law_closed(embed::<FE>(c), t.key);
    lemma_mac_multiple::<FE>(dt, c, s.value, t.key);
    lemma_mac_multiple::<FE>(ds, c, t.value, s.key);
    FE::PrimeField::law_distributive(c, s.value, t.value);
}

/// Adding a public constant keeps the MACs valid and shifts the secret.
pub proof fn law_share_shifted<FE: FiniteField>(
    role: PeerRole,
    s: ShareView,
    t: ShareView,
    ds: int,
    dt: int,
    c: int,
)
    requires
        0 <= c < FE::PrimeField::order(),
        paired::<FE>(s, t, ds, dt),
    ensures
        paired::<FE>(
            share_shifted::<FE>(role, ds, s, c),
            share_shifted::<FE>(role.other(), dt, t, c),
            ds,
            dt,
        ),
        secret::<FE>(
            share_shifted::<FE>(role, ds, s, c),
            share_shifted::<FE>(role.other(), dt, t, c),
        ) == FE::PrimeField::plus(secret::<FE>(s, t), c),
{
    if role is First {
        lemma_shift_one_side::<FE>(s, t, dt, c);
    } else {
        lemma_shift_one_side::<FE>(t, s, ds, c);
        FE::PrimeField::law_plus_assoc(s.value, t.value, c);
    }
}

/// The constant is added on the side of `s` and the key corrected on that of
/// `t`.
proof fn lemma_shift_one_side<FE: FiniteField>(s: ShareView, t: ShareView, dt: int, c: int)
    requires
        0 <= c < FE::PrimeField::order(),
        canonical::<FE>(s),
        canonical::<FE>(t),
        s.mac == FE::plus(FE::times(dt, embed::<FE>(s.value)), t.key),
    ensures
        0 <= FE::PrimeField::plus(s.value, c) < FE::PrimeField::order(),
        0 <= minus::<FE>(t.key, FE::times(embed::<FE>(c), dt)) < FE::order(),
        s.mac == FE::plus(
            FE::times(dt, embed::<FE>(FE::PrimeField::plus(s.value, c))),
            minus::<FE>(t.key, FE::times(embed::<FE>(c), dt)),
        ),
        FE::PrimeField::plus(FE::PrimeField::plus(s.value, c), t.value) == FE::PrimeField::plus(
            FE::PrimeField::plus(s.value, t.value),
            c,
        ),
{
    let (es, ec) = (embed::<FE>(s.value), embed::<FE>(c));
    let m = FE::times(ec, dt);
    FE::PrimeField::law_closed(s.value, c);
    FE::law_closed(t.key, FE::opposite(m));
    lemma_embed::<FE>(s.value, c);
    FE::law_distributive(dt, es, ec);
    FE::law_times_comm(dt, ec);
    lemma_plus_swap::<FE>(FE::times(dt, es), m, t.key, FE::opposite(m));
    FE::law_plus_opposite(m);
    lemma_zero_plus::<FE>(s.mac);
    FE::PrimeField::law_plus_assoc(s.value, c, t.value);
    FE::PrimeField::law_plus_comm(c, t.value);
    FE::PrimeField::law_plus_assoc(s.value, t.value, c);
}

/// The agreed part of the bit zero holds nothing, and that of an exclusive or is the
/// sum of the two parts.
pub proof fn law_bit_parts(a: ShareView, b: ShareView)
    ensures
        AuthenticatedShare::<F40b>::zero_view() == (ShareView { value: 0, mac: 0, key: 0 }),
        AuthenticatedShare::<F40b>::sum_view(a, b) == (ShareView {
            value: F2::plus(a.value, b.value),
            mac: F40b::plus(a.mac, b.mac),
            key: F40b::plus(a.key, b.key),
        }),
{
}

impl BitShare for AuthenticatedShare<F40b> {
    open spec fn zero_view() -> ShareView {
        zero_share()
    }

    open spec fn sum_view(a: ShareView, b: ShareView) -> ShareView {
        share_sum::<F40b>(a, b)
    }

    open spec fn matching(s: ShareView, t: ShareView, ks: int, kt: int) -> bool {
        paired::<F40b>(s, t, ks, kt)
    }

    open spec fn shared_bit(s: ShareView, t: ShareView) -> bool {
        secret::<F40b>(s, t) == 1
    }

    proof fn law_zero_bit(ks: int, kt: int) {
        law_zero_share::<F40b>(ks, kt);
    }

    proof fn law_sum_bit(
        s1: ShareView,
        t1: ShareView,
        s2: ShareView,
        t2: ShareView,
        ks: int,
        kt: int,
    ) {
        law_share_sum::<F40b>(s1, t1, s2, t2, ks, kt);
        F2::law_closed(s1.value, t1.value);
        F2::law_closed(s2.value, t2.value);
    }

    fn zero_bit() -> (r: Self) {
        AuthenticatedShare::new(
            MacProver::new(F2::zero(), F40b::zero()),
            MacVerifier::new(F40b::zero()),
        )
    }

    fn xor(self, other: Self) -> (r: Self) {
        AuthenticatedShare::new(
            MacProver::new(
                self.local.value.add(other.local.value),
                self.local.mac.add(other.local.mac),
            ),
            MacVerifier::new(self.remote.mac.add(other.remote.mac)),
        )
    }
}

impl<FE: FiniteField> PeerFieldMacs<FE> {
    /// The agreed share of zero.
    pub fn zero_share(&self) -> (r: AuthenticatedShare<FE>)
        ensures
            r@ == zero_share(),
            r@.value == 0 && r@.mac == 0 && r@.key == 0,
    {
        AuthenticatedShare::new(
            MacProver::new(FE::PrimeField::zero(), FE::zero()),
            MacVerifier::new(FE::zero()),
        )
    }

    /// The share of a sum.
    pub fn add_shares(&self, lhs: AuthenticatedShare<FE>, rhs: AuthenticatedShare<FE>) -> (r:
        AuthenticatedShare<FE>)
        ensures
            r@ == share_sum::<FE>(lhs@, rhs@),
            r@.value == FE::PrimeField::plus(lhs@.value, rhs@.value),
            r@.mac == FE::plus(lhs@.mac, rhs@.mac),
            r@.key == FE::plus(lhs@.key, rhs@.key),
    {
        let local = self.local().add(lhs.local, rhs.local);
        let remote = self.remote().add(lhs.remote, rhs.remote);
        AuthenticatedShare::new(local, remote)
    }

    /// The share of the additive inverse.
    pub fn negate_share(&self, share: AuthenticatedShare<FE>) -> (r: AuthenticatedShare<FE>)
        ensures
            r@ == share_opposite::<FE>(share@),
            r@.value == FE::PrimeField::opposite(share@.value),
            r@.mac == FE::opposite(share@.mac),
            r@.key == FE::opposite(share@.key),
    {
        let local = self.local().neg(share.local);
        let remote = self.remote().neg(share.remote);
        AuthenticatedShare::new(local, remote)
    }

    /// The share of the sum with a public constant.
    pub fn add_const(
        &self,
        role: PeerRole,
        share: AuthenticatedShare<FE>,
        cst: FE::PrimeField,
    ) -> (r: AuthenticatedShare<FE>)
        ensures
            r@ == share_shifted::<FE>(role, self.delta().val(), share@, cst.val()),
            r@.mac == share@.mac,
            role is First ==> r@.value == FE::PrimeField::plus(share@.value, cst.val()) && r@.key
                == share@.key,
            role is Second ==> r@.value == share@.value && r@.key == minus::<FE>(
                share@.key,
                FE::times(embed::<FE>(cst.val()), self.delta().val()),
            ),
    {
        if cst.equals(FE::PrimeField::zero()) {
            proof {
                FE::PrimeField::law_order();
                share.lemma_canonical();
                lemma_zero_plus::<FE::PrimeField>(share@.value);
                lemma_embed::<FE>(0, 0);
                lemma_times_zero::<FE>(self.delta().val());
                lemma_opposite_zero::<FE>();
                lemma_zero_plus::<FE>(share@.key);
            }
            share
        } else if role.is_first() {
            let local = self.local().affine_add_cst(cst, share.local);
            AuthenticatedShare::new(local, share.remote)
        } else {
            let remote = self.remote().affine_add_cst(cst, share.remote);
            AuthenticatedShare::new(share.local, remote)
        }
    }

    /// The share of the product with a public constant.
    pub fn scale_share(&self, cst: FE::PrimeField, share: AuthenticatedShare<FE>) -> (r:
        AuthenticatedShare<FE>)
        ensures
            r@ == share_multiple::<FE>(cst.val(), share@),
            r@.value == FE::PrimeField::times(cst.val(), share@.value),
            r@.mac == FE::times(embed::<FE>(cst.val()), share@.mac),
            r@.key == FE::times(embed::<FE>(cst.val()), share@.key),
    {
        let local = self.local().affine_mult_cst(cst, share.local);
        let remote = self.remote().affine_mult_cst(cst, share.remote);
        AuthenticatedShare::new(local, remote)
    }
}

} // verus!
