//! What two peers hold after combining their private edaBits.

use crate::bit_adder::{
    adder_run, adder_start, law_adder_start, law_addition, row_matching, shared_bits,
    summands_match, AdderView,
};
use crate::bits::{number, truths};
use crate::f40b::F40b;
use crate::field::{minus, nat_of_bits, FiniteField, FiniteRing, PrimeFiniteField, PrimeRing};
use crate::mpc_conv::EdabitView;
use crate::mpc_edabits_common::{
    combined, combined_value, corrected_share, edabit_rows, unmasked_share,
};
use crate::mpc_homcom::PeerRole;
use crate::multiplication::{law_all_products, lemma_secret_bit, TripleSetting, TripleView};
use crate::prime_fields::F2;
use crate::ring::{
    embed, lemma_embed, lemma_minus_plus, lemma_minus_zero, lemma_opposite_zero, lemma_plus_minus,
    lemma_times_zero, lemma_zero_plus,
};
use crate::share::{
    canonical, law_share_multiple, law_share_opposite, law_share_shifted, law_share_sum, paired,
    secret, share_multiple, share_opposite, share_sum, AuthenticatedShare, ShareView,
};
use vstd::arithmetic::div_mod::{
    lemma_add_mod_noop, lemma_fundamental_div_mod_converse, lemma_mod_bound, lemma_mul_mod_noop,
    lemma_small_mod, lemma_sub_mod_noop,
};
use vstd::arithmetic::power2::{lemma_pow2_pos, lemma_pow2_unfold, pow2};
use vstd::prelude::*;

verus! {

/// The global keys of two peers, for bits and for values.
pub struct Keys {
    pub s_bit: int,
    pub t_bit: int,
    pub s_value: int,
    pub t_value: int,
}

impl Keys {
    /// The keys as the other peer lists them.
    pub open spec fn exchanged(self) -> Keys {
        Keys {
            s_bit: self.t_bit,
            t_bit: self.s_bit,
            s_value: self.t_value,
            t_value: self.s_value,
        }
    }
}

/// Whether two peers hold the two parts of an edaBit.
pub open spec fn edabit_paired<FE: FiniteField>(s: EdabitView, t: EdabitView, keys: Keys) -> bool {
    &&& row_matching::<AuthenticatedShare<F40b>>(s.bits, t.bits, keys.s_bit, keys.t_bit)
    &&& paired::<FE>(s.value, t.value, keys.s_value, keys.t_value)
}

/// The number that the shared bits of an edaBit denote.
pub open spec fn shared_number(s: EdabitView, t: EdabitView) -> nat {
    nat_of_bits(shared_bits::<AuthenticatedShare<F40b>>(s.bits, t.bits))
}

/// Whether the shared value of an edaBit is what its shared bits denote.
pub open spec fn edabit_consistent<FE: FiniteField>(s: EdabitView, t: EdabitView) -> bool {
    secret::<FE>(s.value, t.value) == shared_number(s, t) as int % FE::PrimeField::order()
}

/// Whether two peers hold the two parts of a bit and of the same bit in `FE`.
pub open spec fn dabit_paired<FE: FiniteField>(
    bit: (ShareView, ShareView),
    value: (ShareView, ShareView),
    keys: Keys,
) -> bool {
    &&& paired::<F40b>(bit.0, bit.1, keys.s_bit, keys.t_bit)
    &&& paired::<FE>(value.0, value.1, keys.s_value, keys.t_value)
    &&& secret::<FE>(value.0, value.1) == secret::<F40b>(bit.0, bit.1)
}

/// A value that one peer splits: when both peers authenticate their shares, they
/// hold the two parts of it.
pub proof fn law_split_value<FE: FiniteField>(
    value: int,
    s: ShareView,
    t: ShareView,
    ds: int,
    dt: int,
)
    requires
        0 <= value < FE::PrimeField::order(),
        canonical::<FE>(s),
        canonical::<FE>(t),
        t.value == minus::<FE::PrimeField>(value, s.value),
        s.mac == FE::plus(FE::times(dt, embed::<FE>(s.value)), t.key),
        t.mac == FE::plus(FE::times(ds, embed::<FE>(t.value)), s.key),
    ensures
        paired::<FE>(s, t, ds, dt),
        secret::<FE>(s, t) == value,
{
    lemma_plus_minus::<FE::PrimeField>(value, s.value);
}

/// A value that its owner keeps in clear: it is shared with a share of zero, of
/// which neither the MAC nor the key needs to be exchanged.
pub proof fn law_owner_zero<FE: FiniteField>(value: int, mac: int, key: int, ds: int, dt: int)
    requires
        0 <= value < FE::PrimeField::order(),
        0 <= mac < FE::order(),
        0 <= key < FE::order(),
        mac == FE::plus(FE::times(dt, embed::<FE>(value)), key),
    ensures
        paired::<FE>(
            ShareView { value, mac, key: 0 },
            ShareView { value: 0, mac: 0, key },
            ds,
            dt,
        ),
        secret::<FE>(ShareView { value, mac, key: 0 }, ShareView { value: 0, mac: 0, key })
            == value,
{
    FE::law_order();
    lemma_embed::<FE>(0, 0);
    lemma_times_zero::<FE>(ds);
    lemma_zero_plus::<FE>(0);
    lemma_zero_plus::<FE::PrimeField>(value);
}

/// Conversion by a daBit: when both peers open the mask to what they share, they
/// end up with valid shares in `FE` of the bit.
pub proof fn law_unmasked_share<FE: FiniteField>(
    role: PeerRole,
    keys: Keys,
    bs: ShareView,
    bt: ShareView,
    dabit: (ShareView, ShareView),
    value: (ShareView, ShareView),
)
    requires
        paired::<F40b>(bs, bt, keys.s_bit, keys.t_bit),
        dabit_paired::<FE>(dabit, value, keys),
    ensures
        ({
            let mask = secret::<F40b>(
                share_sum::<F40b>(bs, dabit.0),
                share_sum::<F40b>(bt, dabit.1),
            );
            let cs = unmasked_share::<FE>(role, keys.s_value, value.0, mask);
            let ct = unmasked_share::<FE>(role.other(), keys.t_value, value.1, mask);
            &&& paired::<FE>(cs, ct, keys.s_value, keys.t_value)
            &&& secret::<FE>(cs, ct) == secret::<F40b>(bs, bt)
        }),
{
    let b = secret::<F40b>(bs, bt);
    let r = secret::<F40b>(dabit.0, dabit.1);
    lemma_secret_bit(bs, bt);
    lemma_secret_bit(dabit.0, dabit.1);
    law_share_sum::<F40b>(bs, bt, dabit.0, dabit.1, keys.s_bit, keys.t_bit);
    FE::PrimeField::law_order();
    law_share_opposite::<FE>(value.0, value.1, keys.s_value, keys.t_value);
    law_share_shifted::<FE>(
        role,
        share_opposite::<FE>(value.0),
        share_opposite::<FE>(value.1),
        keys.s_value,
        keys.t_value,
        1,
    );
    lemma_opposite_zero::<FE::PrimeField>();
    lemma_zero_plus::<FE::PrimeField>(1);
    FE::PrimeField::law_plus_opposite(1);
    FE::PrimeField::law_plus_comm(1, FE::PrimeField::opposite(1));
}

/// Removing from a sum the multiple of `2^m` that a carry stands for.
pub proof fn lemma_overflow<F: PrimeRing>(x: nat, y: nat, z: nat, c: int, power: nat)
    requires
        c == 0 || c == 1,
        x + y == z + c * power,
    ensures
        F::plus(
            F::plus(x as int % F::order(), y as int % F::order()),
            F::times(F::opposite(power as int % F::order()), c),
        ) == z as int % F::order(),
{
    let p = F::order();
    F::law_order();
    let (a, b) = (x as int % p, y as int % p);
    let q = power as int % p;
    F::law_modular(a, b);
    F::law_modular(q, 0);
    F::law_modular(F::opposite(q), c);
    F::law_modular(F::plus(a, b), F::times(F::opposite(q), c));
    lemma_add_mod_noop(x as int, y as int, p);
    lemma_sub_mod_noop(0, power as int, p);
    lemma_small_mod(0, p as nat);
    assert(0 - q == -q);
    assert((-q) % p == (-(power as int)) % p);
    lemma_mul_mod_noop(-(power as int), c, p);
    lemma_small_mod(c as nat, p as nat);
    assert(((-(power as int)) % p * c) % p == (-(power as int) * c) % p);
    lemma_add_mod_noop((x + y) as int, -(power as int) * c, p);
    assert(x + y + (-(power as int) * c) == z) by (nonlinear_arith)
        requires
            x + y == z + c * power,
    ;
}

/// The number that bits denote fits in as many bits.
pub proof fn lemma_number_bound(bits: Seq<bool>)
    ensures
        nat_of_bits(bits) < pow2(bits.len()),
    decreases bits.len(),
{
    lemma_pow2_pos(bits.len());
    if bits.len() > 0 {
        lemma_number_bound(bits.skip(1));
        lemma_pow2_unfold(bits.len());
    }
}

/// One combination of private edaBits by two peers, of which `s` is the first
/// peer and `t` the second.
///
/// The first peer holds `firsts.0[i]` of the first peer's edaBit and
/// `seconds.0[i]` of the second peer's; the second peer holds `firsts.1[i]` and
/// `seconds.1[i]`.
pub struct Combination {
    pub firsts: (Seq<EdabitView>, Seq<EdabitView>),
    pub seconds: (Seq<EdabitView>, Seq<EdabitView>),
    pub triples: (Seq<TripleView>, Seq<TripleView>),
    pub dabit_bits: (Seq<ShareView>, Seq<ShareView>),
    pub dabit_values: (Seq<ShareView>, Seq<ShareView>),
    pub keys: Keys,
}

impl Combination {
    /// The first peer's addition before its first round.
    pub open spec fn adder_s(self) -> AdderView<ShareView> {
        adder_start::<AuthenticatedShare<F40b>>(
            edabit_rows(self.firsts.0),
            edabit_rows(self.seconds.0),
        )
    }

    /// The second peer's addition before its first round.
    pub open spec fn adder_t(self) -> AdderView<ShareView> {
        adder_start::<AuthenticatedShare<F40b>>(
            edabit_rows(self.firsts.1),
            edabit_rows(self.seconds.1),
        )
    }

    /// The two peers with their triples.
    pub open spec fn setting(self) -> TripleSetting {
        TripleSetting {
            triples: self.triples,
            role: PeerRole::First,
            ds: self.keys.s_bit,
            dt: self.keys.t_bit,
        }
    }

    /// Both additions after their last round, all masks opened to what the
    /// peers share.
    pub open spec fn added(self, m: nat) -> (AdderView<ShareView>, AdderView<ShareView>) {
        let (ps, pt) = self.setting().all_products(self.adder_s(), self.adder_t(), m);
        (
            adder_run::<AuthenticatedShare<F40b>>(self.adder_s(), ps),
            adder_run::<AuthenticatedShare<F40b>>(self.adder_t(), pt),
        )
    }

    /// The opened mask of carry `i`.
    pub open spec fn mask(self, m: nat, i: int) -> int {
        secret::<F40b>(
            share_sum::<F40b>(self.added(m).0.carry[i], self.dabit_bits.0[i]),
            share_sum::<F40b>(self.added(m).1.carry[i], self.dabit_bits.1[i]),
        )
    }

    /// What the first peer ends up with.
    pub open spec fn result_s<FE: FiniteField>(self, m: nat, i: int) -> EdabitView {
        EdabitView {
            bits: self.added(m).0.sums[i],
            value: combined_value::<FE>(
                PeerRole::First,
                self.keys.s_value,
                self.firsts.0[i].value,
                self.seconds.0[i].value,
                self.dabit_values.0[i],
                self.mask(m, i),
                m,
            ),
        }
    }

    /// What the second peer ends up with.
    pub open spec fn result_t<FE: FiniteField>(self, m: nat, i: int) -> EdabitView {
        EdabitView {
            bits: self.added(m).1.sums[i],
            value: combined_value::<FE>(
                PeerRole::Second,
                self.keys.t_value,
                self.seconds.1[i].value,
                self.firsts.1[i].value,
                self.dabit_values.1[i],
                self.mask(m, i),
                m,
            ),
        }
    }

    /// What both peers end up with.
    pub open spec fn results<FE: PrimeFiniteField>(self, m: nat) -> (
        Seq<EdabitView>,
        Seq<EdabitView>,
    ) {
        let masks = Seq::new(self.firsts.0.len(), |i: int| self.mask(m, i));
        (
            combined::<FE>(
                PeerRole::First,
                self.keys.s_value,
                self.firsts.0,
                self.seconds.0,
                self.added(m).0.sums,
                self.dabit_values.0,
                masks,
            ),
            combined::<FE>(
                PeerRole::Second,
                self.keys.t_value,
                self.seconds.1,
                self.firsts.1,
                self.added(m).1.sums,
                self.dabit_values.1,
                masks,
            ),
        )
    }

    /// Whether the peers hold private edaBits of `m` bits at `i`, and the
    /// triples and daBits to combine them.
    pub open spec fn supplied<FE: FiniteField>(self, m: nat, i: int) -> bool {
        &&& summands_match::<AuthenticatedShare<F40b>>(
            (edabit_rows(self.firsts.0), edabit_rows(self.firsts.1)),
            (edabit_rows(self.seconds.0), edabit_rows(self.seconds.1)),
            self.keys.s_bit,
            self.keys.t_bit,
        )
        &&& self.setting().provides((self.firsts.0.len() * m) as int)
        &&& 0 <= i < self.firsts.0.len()
        &&& self.firsts.0[0].bits.len() == m
        &&& self.firsts.0[i].bits.len() == m
        &&& self.seconds.0[i].bits.len() == m
        &&& edabit_paired::<FE>(self.firsts.0[i], self.firsts.1[i], self.keys)
        &&& edabit_paired::<FE>(self.seconds.0[i], self.seconds.1[i], self.keys)
        &&& i < self.dabit_bits.0.len()
        &&& i < self.dabit_bits.1.len()
        &&& i < self.dabit_values.0.len()
        &&& i < self.dabit_values.1.len()
        &&& dabit_paired::<FE>(
            (self.dabit_bits.0[i], self.dabit_bits.1[i]),
            (self.dabit_values.0[i], self.dabit_values.1[i]),
            self.keys,
        )
    }

    /// Whether, besides, the values of the private edaBits are what their bits
    /// denote.
    pub open spec fn ready<FE: FiniteField>(self, m: nat, i: int) -> bool {
        &&& self.supplied::<FE>(m, i)
        &&& edabit_consistent::<FE>(self.firsts.0[i], self.firsts.1[i])
        &&& edabit_consistent::<FE>(self.seconds.0[i], self.seconds.1[i])
    }
}

/// By how much the shared value of an edaBit is off what its bits denote.
pub open spec fn deviation<FE: FiniteField>(s: EdabitView, t: EdabitView) -> int {
    minus::<FE::PrimeField>(
        secret::<FE>(s.value, t.value),
        shared_number(s, t) as int % FE::PrimeField::order(),
    )
}

/// A value is off by zero where it is what the bits denote, and nowhere else.
pub proof fn lemma_deviation<FE: FiniteField>(s: EdabitView, t: EdabitView)
    ensures
        edabit_consistent::<FE>(s, t) <==> deviation::<FE>(s, t) == 0,
{
    FE::PrimeField::law_order();
    FE::PrimeField::law_closed(s.value.value, t.value.value);
    lemma_mod_bound(shared_number(s, t) as int, FE::PrimeField::order());
    lemma_minus_zero::<FE::PrimeField>(
        secret::<FE>(s.value, t.value),
        shared_number(s, t) as int % FE::PrimeField::order(),
    );
}

/// Combining private edaBits that may be off: the bits denote the sums modulo
/// `2^m`, and the value is off by as much as the two private values together.
pub proof fn law_combination_deviation<FE: PrimeFiniteField>(c: Combination, m: nat, i: int)
    requires
        c.supplied::<FE>(m, i),
    ensures
        c.result_s::<FE>(m, i).bits.len() == m,
        edabit_paired::<FE>(c.result_s::<FE>(m, i), c.result_t::<FE>(m, i), c.keys),
        deviation::<FE>(c.result_s::<FE>(m, i), c.result_t::<FE>(m, i)) == FE::plus(
            deviation::<FE>(c.firsts.0[i], c.firsts.1[i]),
            deviation::<FE>(c.seconds.0[i], c.seconds.1[i]),
        ),
        shared_number(c.result_s::<FE>(m, i), c.result_t::<FE>(m, i)) == (shared_number(
            c.firsts.0[i],
            c.firsts.1[i],
        ) + shared_number(c.seconds.0[i], c.seconds.1[i])) % pow2(m),
{
    let keys = c.keys;
    let (p0, p1) = (edabit_rows(c.firsts.0), edabit_rows(c.firsts.1));
    let (q0, q1) = (edabit_rows(c.seconds.0), edabit_rows(c.seconds.1));
    assert(c.adder_s().bit_size() == m);
    law_adder_start::<AuthenticatedShare<F40b>>((p0, p1), (q0, q1), keys.s_bit, keys.t_bit);
    law_all_products(c.setting(), c.adder_s(), c.adder_t(), m);
    let products = c.setting().all_products(c.adder_s(), c.adder_t(), m);
    law_addition::<AuthenticatedShare<F40b>>(
        (p0, p1),
        (q0, q1),
        products,
        keys.s_bit,
        keys.t_bit,
        i,
    );
    let (u, v) = c.added(m);
    let (cs, ct) = (u.carry[i], v.carry[i]);
    let carry = secret::<F40b>(cs, ct);
    lemma_secret_bit(cs, ct);
    let dabit = (c.dabit_bits.0[i], c.dabit_bits.1[i]);
    let dabit_value = (c.dabit_values.0[i], c.dabit_values.1[i]);
    law_unmasked_share::<FE>(PeerRole::First, keys, cs, ct, dabit, dabit_value);
    let mask = c.mask(m, i);
    let fs = unmasked_share::<FE>(PeerRole::First, keys.s_value, dabit_value.0, mask);
    let ft = unmasked_share::<FE>(PeerRole::Second, keys.t_value, dabit_value.1, mask);
    let (xs, xt) = (c.firsts.0[i].value, c.firsts.1[i].value);
    let (ys, yt) = (c.seconds.0[i].value, c.seconds.1[i].value);
    law_share_sum::<FE>(xs, xt, ys, yt, keys.s_value, keys.t_value);
    assert(share_sum::<FE>(yt, xt) == share_sum::<FE>(xt, yt)) by {
        FE::law_plus_comm(xt.value, yt.value);
        FE::law_plus_comm(xt.mac, yt.mac);
        FE::law_plus_comm(xt.key, yt.key);
    }
    let p = pow2(m);
    FE::law_order();
    let scale = FE::opposite(p as int % FE::order());
    FE::law_closed(p as int % FE::order(), 0);
    law_share_multiple::<FE>(scale, fs, ft, keys.s_value, keys.t_value);
    law_share_sum::<FE>(
        share_sum::<FE>(xs, ys),
        share_sum::<FE>(xt, yt),
        share_multiple::<FE>(scale, fs),
        share_multiple::<FE>(scale, ft),
        keys.s_value,
        keys.t_value,
    );
    let x = shared_number(c.firsts.0[i], c.firsts.1[i]);
    let y = shared_number(c.seconds.0[i], c.seconds.1[i]);
    let z = nat_of_bits(shared_bits::<AuthenticatedShare<F40b>>(u.sums[i], v.sums[i]));
    assert(shared_bits::<AuthenticatedShare<F40b>>(p0[i], p1[i]).take(m as int) =~= shared_bits::<
        AuthenticatedShare<F40b>,
    >(c.firsts.0[i].bits, c.firsts.1[i].bits));
    assert(shared_bits::<AuthenticatedShare<F40b>>(q0[i], q1[i]).take(m as int) =~= shared_bits::<
        AuthenticatedShare<F40b>,
    >(c.seconds.0[i].bits, c.seconds.1[i].bits));
    assert(carry * p == (if carry == 1 {
        p
    } else {
        0
    })) by (nonlinear_arith)
        requires
            carry == 0 || carry == 1,
    ;
    assert(x + y == z + carry * p);
    lemma_overflow::<FE>(x, y, z, carry, p);
    lemma_number_bound(shared_bits::<AuthenticatedShare<F40b>>(u.sums[i], v.sums[i]));
    lemma_fundamental_div_mod_converse((x + y) as int, p as int, carry, z as int);
    lemma_off_sum::<FE>(
        secret::<FE>(xs, xt),
        secret::<FE>(ys, yt),
        x as int % FE::order(),
        y as int % FE::order(),
        FE::times(scale, carry),
        z as int % FE::order(),
    );
}

/// `(a + b) + t - z` is `(a - x) + (b - y)` where `(x + y) + t == z`.
pub proof fn lemma_off_sum<F: FiniteRing>(a: int, b: int, x: int, y: int, t: int, z: int)
    requires
        F::plus(F::plus(x, y), t) == z,
    ensures
        minus::<F>(F::plus(F::plus(a, b), t), z) == F::plus(minus::<F>(a, x), minus::<F>(b, y)),
{
    lemma_minus_plus::<F>(F::plus(a, b), t, F::plus(x, y), t);
    lemma_minus_plus::<F>(a, b, x, y);
    F::law_plus_opposite(t);
    F::law_closed(minus::<F>(a, x), minus::<F>(b, y));
    lemma_zero_plus::<F>(F::plus(minus::<F>(a, x), minus::<F>(b, y)));
}

/// Combining private edaBits: when the peers add the bits of the second peer's
/// edaBits to those of the first peer's, and open every mask to what they share,
/// they end up with valid shares of edaBits whose bits denote the sums modulo
/// `2^m`, and whose values are what the bits denote.
pub proof fn law_combination<FE: PrimeFiniteField>(c: Combination, m: nat, i: int)
    requires
        c.ready::<FE>(m, i),
    ensures
        c.result_s::<FE>(m, i).bits.len() == m,
        edabit_paired::<FE>(c.result_s::<FE>(m, i), c.result_t::<FE>(m, i), c.keys),
        edabit_consistent::<FE>(c.result_s::<FE>(m, i), c.result_t::<FE>(m, i)),
        shared_number(c.result_s::<FE>(m, i), c.result_t::<FE>(m, i)) == (shared_number(
            c.firsts.0[i],
            c.firsts.1[i],
        ) + shared_number(c.seconds.0[i], c.seconds.1[i])) % pow2(m),
{
    law_combination_deviation::<FE>(c, m, i);
    lemma_deviation::<FE>(c.firsts.0[i], c.firsts.1[i]);
    lemma_deviation::<FE>(c.seconds.0[i], c.seconds.1[i]);
    lemma_deviation::<FE>(c.result_s::<FE>(m, i), c.result_t::<FE>(m, i));
    FE::law_order();
    lemma_zero_plus::<FE>(0);
}

/// The check of a pair of a bucket: the opened sum of two edaBits of one owner
/// is consistent exactly where what the two are off by cancels out. Both peers
/// add the values of a pair in the same order, which makes no difference.
pub proof fn law_bucket_check<FE: PrimeFiniteField>(c: Combination, m: nat, i: int)
    requires
        c.supplied::<FE>(m, i),
    ensures
        c.result_s::<FE>(m, i).value == corrected_share::<FE>(
            share_sum::<FE>(c.firsts.0[i].value, c.seconds.0[i].value),
            unmasked_share::<FE>(
                PeerRole::First,
                c.keys.s_value,
                c.dabit_values.0[i],
                c.mask(m, i),
            ),
            m,
        ),
        c.result_t::<FE>(m, i).value == corrected_share::<FE>(
            share_sum::<FE>(c.firsts.1[i].value, c.seconds.1[i].value),
            unmasked_share::<FE>(
                PeerRole::Second,
                c.keys.t_value,
                c.dabit_values.1[i],
                c.mask(m, i),
            ),
            m,
        ),
        edabit_consistent::<FE>(c.result_s::<FE>(m, i), c.result_t::<FE>(m, i)) <==> FE::plus(
            deviation::<FE>(c.firsts.0[i], c.firsts.1[i]),
            deviation::<FE>(c.seconds.0[i], c.seconds.1[i]),
        ) == 0,
{
    law_combination_deviation::<FE>(c, m, i);
    lemma_deviation::<FE>(c.result_s::<FE>(m, i), c.result_t::<FE>(m, i));
    let (x, y) = (c.firsts.1[i].value, c.seconds.1[i].value);
    FE::law_plus_comm(x.value, y.value);
    FE::law_plus_comm(x.mac, y.mac);
    FE::law_plus_comm(x.key, y.key);
}

/// Bits are determined by their number and the number that they denote.
pub proof fn lemma_bits_determined(a: Seq<bool>, b: Seq<bool>)
    requires
        a.len() == b.len(),
        nat_of_bits(a) == nat_of_bits(b),
    ensures
        a == b,
    decreases a.len(),
{
    if a.len() > 0 {
        lemma_bits_determined(a.skip(1), b.skip(1));
        assert(a[0] == b[0]);
        assert forall|i: int| 0 <= i < a.len() implies a[i] == b[i] by {
            if i > 0 {
                assert(a.skip(1)[i - 1] == b.skip(1)[i - 1]);
            }
        }
    }
    assert(a =~= b);
}

/// What a combination opens to depends on the private numbers alone: not on how
/// they were shared, nor on the triples, daBits and keys that were used.
pub proof fn law_combination_opens_to_sum<FE: PrimeFiniteField>(
    c: Combination,
    d: Combination,
    m: nat,
    i: int,
)
    requires
        c.ready::<FE>(m, i),
        d.ready::<FE>(m, i),
        shared_number(c.firsts.0[i], c.firsts.1[i]) == shared_number(d.firsts.0[i], d.firsts.1[i]),
        shared_number(c.seconds.0[i], c.seconds.1[i]) == shared_number(
            d.seconds.0[i],
            d.seconds.1[i],
        ),
    ensures
        shared_bits::<AuthenticatedShare<F40b>>(
            c.result_s::<FE>(m, i).bits,
            c.result_t::<FE>(m, i).bits,
        ) == shared_bits::<AuthenticatedShare<F40b>>(
            d.result_s::<FE>(m, i).bits,
            d.result_t::<FE>(m, i).bits,
        ),
        secret::<FE>(c.result_s::<FE>(m, i).value, c.result_t::<FE>(m, i).value) == secret::<FE>(
            d.result_s::<FE>(m, i).value,
            d.result_t::<FE>(m, i).value,
        ),
{
    law_combination::<FE>(c, m, i);
    law_combination::<FE>(d, m, i);
    lemma_bits_determined(
        shared_bits::<AuthenticatedShare<F40b>>(
            c.result_s::<FE>(m, i).bits,
            c.result_t::<FE>(m, i).bits,
        ),
        shared_bits::<AuthenticatedShare<F40b>>(
            d.result_s::<FE>(m, i).bits,
            d.result_t::<FE>(m, i).bits,
        ),
    );
}

/// The opened bits of an edaBit denote the number that its shared bits do.
pub proof fn lemma_opened_number(s: EdabitView, t: EdabitView, bits: Seq<F2>)
    requires
        bits.len() == s.bits.len(),
        forall|j: int|
            0 <= j < bits.len() ==> (#[trigger] bits[j]).val() == F2::plus(
                s.bits[j].value,
                t.bits[j].value,
            ),
    ensures
        number(bits) == shared_number(s, t),
{
    assert forall|j: int| 0 <= j < bits.len() implies #[trigger] truths(bits)[j] == shared_bits::<
        AuthenticatedShare<F40b>,
    >(s.bits, t.bits)[j] by {
        assert(bits[j].val() == secret::<F40b>(s.bits[j], t.bits[j]));
    }
    assert(truths(bits) =~= shared_bits::<AuthenticatedShare<F40b>>(s.bits, t.bits));
}

/// What a consistent edaBit opens to: the opened value is what the opened bits
/// denote.
pub proof fn law_opened_edabit<FE: PrimeFiniteField>(
    s: EdabitView,
    t: EdabitView,
    bits: Seq<F2>,
    value: int,
)
    requires
        edabit_consistent::<FE>(s, t),
        bits.len() == s.bits.len(),
        forall|j: int|
            0 <= j < bits.len() ==> (#[trigger] bits[j]).val() == F2::plus(
                s.bits[j].value,
                t.bits[j].value,
            ),
        value == FE::plus(s.value.value, t.value.value),
    ensures
        value == number(bits) as int % FE::order(),
{
    lemma_opened_number(s, t, bits);
}

/// Whether an edaBit opens to the sum of two numbers of `m` bits: the bits are
/// those of the sum modulo `2^m`, and the value is the sum less `2^m` where it is
/// not smaller.
pub open spec fn opens_to_sum<FE: PrimeFiniteField>(
    a: nat,
    b: nat,
    m: nat,
    bits: Seq<F2>,
    value: int,
) -> bool {
    &&& number(bits) == (a + b) % pow2(m)
    &&& value == number(bits) as int % FE::order()
    &&& value == (a + b - (if a + b >= pow2(m) {
        pow2(m) as int
    } else {
        0
    })) % FE::order()
}

/// Combining all private edaBits of two peers: both end up with as many global
/// edaBits as either has private ones, and these are valid, consistent, and open to
/// the sums of the private numbers.
pub proof fn law_global_edabits<FE: PrimeFiniteField>(
    c: Combination,
    m: nat,
    opened_bits: Seq<Seq<F2>>,
    opened_values: Seq<int>,
)
    requires
        forall|i: int| 0 <= i < c.firsts.0.len() ==> #[trigger] c.ready::<FE>(m, i),
        c.firsts.1.len() == c.firsts.0.len(),
        c.seconds.0.len() == c.firsts.0.len(),
        c.seconds.1.len() == c.firsts.0.len(),
        opened_bits.len() == c.firsts.0.len(),
        opened_values.len() == c.firsts.0.len(),
        forall|i: int|
            0 <= i < opened_bits.len() ==> {
                &&& (#[trigger] opened_bits[i]).len() == m
                &&& forall|j: int|
                    0 <= j < m ==> (#[trigger] opened_bits[i][j]).val() == F2::plus(
                        c.results::<FE>(m).0[i].bits[j].value,
                        c.results::<FE>(m).1[i].bits[j].value,
                    )
                &&& opened_values[i] == FE::plus(
                    c.results::<FE>(m).0[i].value.value,
                    c.results::<FE>(m).1[i].value.value,
                )
            },
    ensures
        c.results::<FE>(m).0.len() == c.firsts.0.len(),
        c.results::<FE>(m).1.len() == c.firsts.0.len(),
        forall|i: int|
            0 <= i < c.firsts.0.len() ==> {
                &&& edabit_paired::<FE>(
                    #[trigger] c.results::<FE>(m).0[i],
                    c.results::<FE>(m).1[i],
                    c.keys,
                )
                &&& edabit_consistent::<FE>(c.results::<FE>(m).0[i], c.results::<FE>(m).1[i])
            },
        forall|i: int|
            0 <= i < c.firsts.0.len() ==> opens_to_sum::<FE>(
                shared_number(c.firsts.0[i], c.firsts.1[i]),
                shared_number(c.seconds.0[i], c.seconds.1[i]),
                m,
                #[trigger] opened_bits[i],
                opened_values[i],
            ),
{
    assert forall|i: int| 0 <= i < c.firsts.0.len() implies {
        &&& edabit_paired::<FE>(
            #[trigger] c.results::<FE>(m).0[i],
            c.results::<FE>(m).1[i],
            c.keys,
        )
        &&& edabit_consistent::<FE>(c.results::<FE>(m).0[i], c.results::<FE>(m).1[i])
        &&& opens_to_sum::<FE>(
            shared_number(c.firsts.0[i], c.firsts.1[i]),
            shared_number(c.seconds.0[i], c.seconds.1[i]),
            m,
            opened_bits[i],
            opened_values[i],
        )
    } by {
        assert(c.ready::<FE>(m, i));
        assert(c.ready::<FE>(m, 0));
        let a = shared_number(c.firsts.0[i], c.firsts.1[i]);
        let b = shared_number(c.seconds.0[i], c.seconds.1[i]);
        let (s, t) = (c.result_s::<FE>(m, i), c.result_t::<FE>(m, i));
        law_combination::<FE>(c, m, i);
        assert(c.seconds.1[0].bits.len() == m) by {
            assert(edabit_paired::<FE>(c.seconds.0[0], c.seconds.1[0], c.keys));
        }
        assert(c.results::<FE>(m).0[i] == s);
        assert(c.results::<FE>(m).1[i] == t);
        lemma_opened_number(s, t, opened_bits[i]);
        law_opened_edabit::<FE>(s, t, opened_bits[i], opened_values[i]);
        lemma_number_bound(
            shared_bits::<AuthenticatedShare<F40b>>(c.firsts.0[i].bits, c.firsts.1[i].bits),
        );
        lemma_number_bound(
            shared_bits::<AuthenticatedShare<F40b>>(c.seconds.0[i].bits, c.seconds.1[i].bits),
        );
        lemma_pow2_pos(m);
        if a + b >= pow2(m) {
            lemma_fundamental_div_mod_converse(
                (a + b) as int,
                pow2(m) as int,
                1,
                a + b - pow2(m),
            );
        } else {
            lemma_small_mod(a + b, pow2(m));
        }
    }
    assert forall|i: int| 0 <= i < c.firsts.0.len() implies opens_to_sum::<FE>(
        shared_number(c.firsts.0[i], c.firsts.1[i]),
        shared_number(c.seconds.0[i], c.seconds.1[i]),
        m,
        #[trigger] opened_bits[i],
        opened_values[i],
    ) by {
        assert(edabit_consistent::<FE>(c.results::<FE>(m).0[i], c.results::<FE>(m).1[i]));
    }
}

} // verus!
