//! Products of shared bits, by multiplication triples.

use crate::bit_adder::{
    adder_run, adders_agree, all_products_match, law_adder_run, left_factor, lemma_factors_match,
    product_matches, products_match, right_factor, seq_views, AdderView,
};
use crate::bits::least;
use crate::f40b::F40b;
use crate::field::{FiniteField, FiniteRing, PrimeRing};
use crate::mpc_homcom::{PeerFieldMacs, PeerRole};
use crate::prime_fields::F2;
use crate::ring::{lemma_embed, lemma_one_times, lemma_times_zero, lemma_zero_plus};
use crate::share::{
    canonical, law_share_multiple, law_share_shifted, law_share_sum, paired, secret, share_multiple,
    share_shifted, share_sum, AuthenticatedShare, ShareView,
};
use vstd::prelude::*;

verus! {

/// What a peer holds of a multiplication triple.
pub struct TripleView {
    pub a: ShareView,
    pub b: ShareView,
    pub c: ShareView,
}

/// One peer's part of three shared bits, the third of which is the product of
/// the first two.
#[derive(Clone, Copy)]
pub struct SharedBitTriple {
    pub a: AuthenticatedShare<F40b>,
    pub b: AuthenticatedShare<F40b>,
    pub c: AuthenticatedShare<F40b>,
}

impl View for SharedBitTriple {
    type V = TripleView;

    open spec fn view(&self) -> TripleView {
        TripleView { a: self.a@, b: self.b@, c: self.c@ }
    }
}

/// Whether two peers hold the two parts of a triple.
pub open spec fn triple_paired(s: TripleView, t: TripleView, ds: int, dt: int) -> bool {
    &&& paired::<F40b>(s.a, t.a, ds, dt)
    &&& paired::<F40b>(s.b, t.b, ds, dt)
    &&& paired::<F40b>(s.c, t.c, ds, dt)
    &&& secret::<F40b>(s.c, t.c) == F2::times(
        secret::<F40b>(s.a, t.a),
        secret::<F40b>(s.b, t.b),
    )
}

/// The share of the product of two shared bits that were opened as `d` and `e`
/// after the bits `a` and `b` of the triple had been added to them:
/// `c + d * b + e * a + d * e`.
pub open spec fn product_share(
    role: PeerRole,
    delta: int,
    t: TripleView,
    d: int,
    e: int,
) -> ShareView {
    share_shifted::<F40b>(
        role,
        delta,
        share_sum::<F40b>(
            share_sum::<F40b>(t.c, share_multiple::<F40b>(d, t.b)),
            share_multiple::<F40b>(e, t.a),
        ),
        F2::times(d, e),
    )
}

/// Adding a multiple by a bit is adding or not.
proof fn lemma_bit_multiple<FE: FiniteField>(s: ShareView, t: ShareView)
    requires
        canonical::<FE>(s),
        canonical::<FE>(t),
    ensures
        share_multiple::<FE>(1, s) == s,
        share_sum::<FE>(t, share_multiple::<FE>(0, s)) == t,
{
    FE::PrimeField::law_order();
    lemma_embed::<FE>(0, 0);
    lemma_one_times::<FE>(s.mac);
    lemma_one_times::<FE>(s.key);
    lemma_one_times::<FE::PrimeField>(s.value);
    lemma_times_zero::<FE>(s.mac);
    lemma_times_zero::<FE>(s.key);
    lemma_times_zero::<FE::PrimeField>(s.value);
    lemma_zero_plus::<FE>(t.mac);
    lemma_zero_plus::<FE>(t.key);
    lemma_zero_plus::<FE::PrimeField>(t.value);
}

/// The bits that the peers open to multiply: each factor plus the matching bit
/// of a triple.
pub fn multiplication_masks(
    macs: &PeerFieldMacs<F40b>,
    lhs: &[AuthenticatedShare<F40b>],
    rhs: &[AuthenticatedShare<F40b>],
    triples: &[SharedBitTriple],
) -> (r: (Vec<AuthenticatedShare<F40b>>, Vec<AuthenticatedShare<F40b>>))
    ensures
        r.0@.len() == least(lhs@.len() as int, triples@.len() as int),
        r.1@.len() == least(rhs@.len() as int, triples@.len() as int),
        forall|i: int|
            0 <= i < r.0@.len() ==> (#[trigger] r.0@[i])@ == share_sum::<F40b>(
                lhs@[i]@,
                triples@[i]@.a,
            ),
        forall|i: int|
            0 <= i < r.1@.len() ==> (#[trigger] r.1@[i])@ == share_sum::<F40b>(
                rhs@[i]@,
                triples@[i]@.b,
            ),
{
    let mut d_masks: Vec<AuthenticatedShare<F40b>> = Vec::new();
    let mut i: usize = 0;
    while i < lhs.len() && i < triples.len()
        invariant
            i <= lhs.len(),
            i <= triples.len(),
            d_masks@.len() == i,
            forall|j: int|
                0 <= j < i ==> (#[trigger] d_masks@[j])@ == share_sum::<F40b>(
                    lhs@[j]@,
                    triples@[j]@.a,
                ),
        decreases lhs.len() - i,
    {
        d_masks.push(macs.add_shares(lhs[i], triples[i].a));
        i = i + 1;
    }
    let mut e_masks: Vec<AuthenticatedShare<F40b>> = Vec::new();
    let mut k: usize = 0;
    while k < rhs.len() && k < triples.len()
        invariant
            k <= rhs.len(),
            k <= triples.len(),
            e_masks@.len() == k,
            forall|j: int|
                0 <= j < k ==> (#[trigger] e_masks@[j])@ == share_sum::<F40b>(
                    rhs@[j]@,
                    triples@[j]@.b,
                ),
        decreases rhs.len() - k,
    {
        e_masks.push(macs.add_shares(rhs[k], triples[k].b));
        k = k + 1;
    }
    (d_masks, e_masks)
}

/// The shares of the products, from the opened masks.
pub fn multiply_shared_bits(
    macs: &PeerFieldMacs<F40b>,
    role: PeerRole,
    triples: &[SharedBitTriple],
    d_values: &[F2],
    e_values: &[F2],
) -> (r: Vec<AuthenticatedShare<F40b>>)
    ensures
        r@.len() == least(
            triples@.len() as int,
            least(d_values@.len() as int, e_values@.len() as int),
        ),
        forall|i: int| 0 <= i < r@.len() ==> (#[trigger] r@[i])@ == product_share(
            role,
            macs.delta().val(),
            triples@[i]@,
            d_values@[i].val(),
            e_values@[i].val(),
        ),
        forall|i: int|
            0 <= i < r@.len() ==> (#[trigger] r@[i])@ == share_shifted::<F40b>(
                role,
                macs.delta().val(),
                share_sum::<F40b>(
                    share_sum::<F40b>(
                        triples@[i].c@,
                        share_multiple::<F40b>(d_values@[i].val(), triples@[i].b@),
                    ),
                    share_multiple::<F40b>(e_values@[i].val(), triples@[i].a@),
                ),
                F2::times(d_values@[i].val(), e_values@[i].val()),
            ),
{
    let mut out: Vec<AuthenticatedShare<F40b>> = Vec::new();
    let mut i: usize = 0;
    while i < triples.len() && i < d_values.len() && i < e_values.len()
        invariant
            i <= triples.len(),
            i <= d_values.len(),
            i <= e_values.len(),
            out@.len() == i,
            forall|j: int| 0 <= j < i ==> (#[trigger] out@[j])@ == product_share(
                role,
                macs.delta().val(),
                triples@[j]@,
                d_values@[j].val(),
                e_values@[j].val(),
            ),
        decreases triples.len() - i,
    {
        let triple = triples[i];
        let d = d_values[i];
        let e = e_values[i];
        let mut product = triple.c;
        proof {
            triple.a.lemma_canonical();
            triple.b.lemma_canonical();
            triple.c.lemma_canonical();
            lemma_bit_multiple::<F40b>(triple.b@, triple.c@);
        }
        if d.equals(F2::one()) {
            product = macs.add_shares(product, triple.b);
        }
        proof {
            product.lemma_canonical();
            lemma_bit_multiple::<F40b>(triple.a@, product@);
        }
        if e.equals(F2::one()) {
            product = macs.add_shares(product, triple.a);
        }
        let both = d.mul(e);
        out.push(macs.add_const(role, product, both));
        i = i + 1;
    }
    out
}

/// Triples from the shares of their three bits.
pub open spec fn triple_rows(
    a: Seq<ShareView>,
    b: Seq<ShareView>,
    c: Seq<ShareView>,
) -> Seq<TripleView> {
    Seq::new(
        least(a.len() as int, least(b.len() as int, c.len() as int)) as nat,
        |i: int| TripleView { a: a[i], b: b[i], c: c[i] },
    )
}

/// Triples from the shares of their three bits.
pub fn assemble_triples(
    a: &[AuthenticatedShare<F40b>],
    b: &[AuthenticatedShare<F40b>],
    c: &[AuthenticatedShare<F40b>],
) -> (r: Vec<SharedBitTriple>)
    ensures
        r@.len() == least(a@.len() as int, least(b@.len() as int, c@.len() as int)),
        forall|i: int|
            0 <= i < r@.len() ==> #[trigger] r@[i] == (SharedBitTriple {
                a: a@[i],
                b: b@[i],
                c: c@[i],
            }),
        seq_views(r@) == triple_rows(seq_views(a@), seq_views(b@), seq_views(c@)),
{
    let mut out: Vec<SharedBitTriple> = Vec::new();
    let mut i: usize = 0;
    while i < a.len() && i < b.len() && i < c.len()
        invariant
            i <= a.len(),
            i <= b.len(),
            i <= c.len(),
            out@.len() == i,
            forall|j: int|
                0 <= j < i ==> #[trigger] out@[j] == (SharedBitTriple {
                    a: a@[j],
                    b: b@[j],
                    c: c@[j],
                }),
        decreases a.len() - i,
    {
        out.push(SharedBitTriple { a: a[i], b: b[i], c: c[i] });
        i = i + 1;
    }
    assert(seq_views(out@) =~= triple_rows(seq_views(a@), seq_views(b@), seq_views(c@)));
    out
}

/// A bit is zero or one.
pub proof fn lemma_secret_bit(s: ShareView, t: ShareView)
    ensures
        secret::<F40b>(s, t) == 0 || secret::<F40b>(s, t) == 1,
        F2::order() == 2,
{
    F2::law_closed(s.value, t.value);
}

/// `a * b + (x + a) * b + (y + b) * a + (x + a) * (y + b)` is `x * y`, in bits.
pub proof fn lemma_masked_product(x: int, y: int, a: int, b: int)
    requires
        x == 0 || x == 1,
        y == 0 || y == 1,
        a == 0 || a == 1,
        b == 0 || b == 1,
    ensures
        ({
            let d = F2::plus(x, a);
            let e = F2::plus(y, b);
            F2::plus(
                F2::plus(F2::plus(F2::times(a, b), F2::times(d, b)), F2::times(e, a)),
                F2::times(d, e),
            ) == F2::times(x, y)
        }),
{
    let d = F2::plus(x, a);
    let e = F2::plus(y, b);
    assert(d == 0 || d == 1);
    assert(e == 0 || e == 1);
    assert(0 * b == 0 && 1 * b == b && 0 * a == 0 && 1 * a == a && 0 * y == 0 && 1 * y == y && 0 * e
        == 0 && 1 * e == e);
    if x == 0 && a == 0 {
    } else if x == 0 {
    } else if a == 0 {
    } else {
    }
}

/// Multiplication by a triple: when both peers open the masks to what they
/// share, they end up with valid shares of the product.
pub proof fn law_product_share(
    role: PeerRole,
    ds: int,
    dt: int,
    xs: ShareView,
    xt: ShareView,
    ys: ShareView,
    yt: ShareView,
    s: TripleView,
    t: TripleView,
)
    requires
        paired::<F40b>(xs, xt, ds, dt),
        paired::<F40b>(ys, yt, ds, dt),
        triple_paired(s, t, ds, dt),
    ensures
        ({
            let d = secret::<F40b>(share_sum::<F40b>(xs, s.a), share_sum::<F40b>(xt, t.a));
            let e = secret::<F40b>(share_sum::<F40b>(ys, s.b), share_sum::<F40b>(yt, t.b));
            let ps = product_share(role, ds, s, d, e);
            let pt = product_share(role.other(), dt, t, d, e);
            &&& paired::<F40b>(ps, pt, ds, dt)
            &&& secret::<F40b>(ps, pt) == F2::times(
                secret::<F40b>(xs, xt),
                secret::<F40b>(ys, yt),
            )
        }),
{
    let x = secret::<F40b>(xs, xt);
    let y = secret::<F40b>(ys, yt);
    let a = secret::<F40b>(s.a, t.a);
    let b = secret::<F40b>(s.b, t.b);
    lemma_secret_bit(xs, xt);
    lemma_secret_bit(ys, yt);
    lemma_secret_bit(s.a, t.a);
    lemma_secret_bit(s.b, t.b);
    law_share_sum::<F40b>(xs, xt, s.a, t.a, ds, dt);
    law_share_sum::<F40b>(ys, yt, s.b, t.b, ds, dt);
    let d = F2::plus(x, a);
    let e = F2::plus(y, b);
    F2::law_closed(x, a);
    F2::law_closed(y, b);
    F2::law_closed(d, e);
    let (bs, bt) = (share_multiple::<F40b>(d, s.b), share_multiple::<F40b>(d, t.b));
    law_share_multiple::<F40b>(d, s.b, t.b, ds, dt);
    law_share_sum::<F40b>(s.c, t.c, bs, bt, ds, dt);
    let (ms, mt) = (share_sum::<F40b>(s.c, bs), share_sum::<F40b>(t.c, bt));
    let (as_, at) = (share_multiple::<F40b>(e, s.a), share_multiple::<F40b>(e, t.a));
    law_share_multiple::<F40b>(e, s.a, t.a, ds, dt);
    law_share_sum::<F40b>(ms, mt, as_, at, ds, dt);
    law_share_shifted::<F40b>(
        role,
        share_sum::<F40b>(ms, as_),
        share_sum::<F40b>(mt, at),
        ds,
        dt,
        F2::times(d, e),
    );
    lemma_masked_product(x, y, a, b);
}

/// The items that a round of an addition of `num` rows uses.
pub fn round_items<T: Copy>(items: &[T], round: usize, num: usize) -> (r: Vec<T>)
    requires
        round * num + num <= items@.len(),
    ensures
        r@ == items@.subrange(round * num, round * num + num),
{
    let available: usize = items.len();
    assert(0 <= round * num <= available) by (nonlinear_arith)
        requires
            round * num + num <= available,
            0 <= round,
            0 <= num,
    ;
    let first: usize = round * num;
    let mut r: Vec<T> = Vec::new();
    let mut i: usize = 0;
    while i < num
        invariant
            i <= num,
            first + num <= available,
            available == items@.len(),
            r@ == items@.subrange(first as int, first + i),
        decreases num - i,
    {
        assert(items@.subrange(first as int, first + i + 1) =~= items@.subrange(
            first as int,
            first + i,
        ).push(items@[first + i]));
        r.push(items[first + i]);
        i = i + 1;
    }
    r
}

/// The triple that a row uses in the current round of an addition.
pub open spec fn row_triple(
    a: AdderView<ShareView>,
    triples: Seq<TripleView>,
    row: int,
) -> TripleView {
    triples[a.round * a.num() + row]
}

/// Each round uses the next triples, one for each row in the order of the rows.
pub proof fn law_row_triple(a: AdderView<ShareView>, triples: Seq<TripleView>, row: int)
    requires
        0 <= a.round < a.bit_size(),
        0 <= row < a.num(),
        a.num() * a.bit_size() <= triples.len(),
    ensures
        0 <= a.round * a.num(),
        a.round * a.num() + a.num() <= triples.len(),
        row_triple(a, triples, row) == triples.skip(a.round * a.num())[row],
{
    lemma_round_fits(a.round, a.num(), a.bit_size(), a.num());
}

/// No triple is used twice: where all triples differ, so do those of different
/// rounds, and those of different rows.
pub proof fn law_triples_used_once(
    a: AdderView<ShareView>,
    b: AdderView<ShareView>,
    triples: Seq<TripleView>,
    p: int,
    q: int,
)
    requires
        a.num() == b.num(),
        a.bit_size() == b.bit_size(),
        0 <= a.round < a.bit_size(),
        0 <= b.round < b.bit_size(),
        0 <= p < a.num(),
        0 <= q < a.num(),
        a.num() * a.bit_size() <= triples.len(),
        triples.no_duplicates(),
        row_triple(a, triples, p) == row_triple(b, triples, q),
    ensures
        a.round == b.round,
        p == q,
{
    let (x, y, n) = (a.round, b.round, a.num());
    lemma_round_fits(x, n, a.bit_size(), p + 1);
    lemma_round_fits(y, n, a.bit_size(), q + 1);
    assert(x * n + p == y * n + q);
    assert(x == y) by (nonlinear_arith)
        requires
            x * n + p == y * n + q,
            0 <= p < n,
            0 <= q < n,
    ;
}

/// The share that is opened to mask the left factor of a row.
pub open spec fn left_mask(
    a: AdderView<ShareView>,
    triples: Seq<TripleView>,
    row: int,
) -> ShareView {
    share_sum::<F40b>(
        left_factor::<AuthenticatedShare<F40b>>(a, row),
        row_triple(a, triples, row).a,
    )
}

/// The share that is opened to mask the right factor of a row.
pub open spec fn right_mask(
    a: AdderView<ShareView>,
    triples: Seq<TripleView>,
    row: int,
) -> ShareView {
    share_sum::<F40b>(
        right_factor::<AuthenticatedShare<F40b>>(a, row),
        row_triple(a, triples, row).b,
    )
}

/// The products of the current round, from the opened masks.
pub open spec fn round_products(
    a: AdderView<ShareView>,
    triples: Seq<TripleView>,
    role: PeerRole,
    delta: int,
    d: Seq<int>,
    e: Seq<int>,
) -> Seq<ShareView> {
    Seq::new(
        a.lhs.len(),
        |row: int| product_share(role, delta, row_triple(a, triples, row), d[row], e[row]),
    )
}

/// The triples of a round stand within all the triples.
pub proof fn lemma_round_fits(round: int, num: int, bit_size: int, row: int)
    requires
        0 <= round < bit_size,
        0 <= row <= num,
    ensures
        0 <= round * num,
        round * num + row <= num * bit_size,
{
    assert(0 <= round * num) by (nonlinear_arith)
        requires
            0 <= round,
            0 <= num,
    ;
    assert(round * num + num <= num * bit_size) by (nonlinear_arith)
        requires
            round + 1 <= bit_size,
            0 <= num,
    ;
}

/// Two peers with their triples, `s` in the role `role`.
pub struct TripleSetting {
    pub triples: (Seq<TripleView>, Seq<TripleView>),
    pub role: PeerRole,
    pub ds: int,
    pub dt: int,
}

impl TripleSetting {
    /// Whether the peers hold the two parts of at least `n` triples.
    pub open spec fn provides(self, n: int) -> bool {
        &&& self.triples.0.len() >= n
        &&& self.triples.1.len() >= n
        &&& forall|i: int|
            0 <= i < n ==> triple_paired(
                #[trigger] self.triples.0[i],
                self.triples.1[i],
                self.ds,
                self.dt,
            )
    }

    /// What the masks of the left factors open to.
    pub open spec fn opened_left(self, s: AdderView<ShareView>, t: AdderView<ShareView>) -> Seq<
        int,
    > {
        Seq::new(
            s.lhs.len(),
            |row: int|
                secret::<F40b>(
                    left_mask(s, self.triples.0, row),
                    left_mask(t, self.triples.1, row),
                ),
        )
    }

    /// What the masks of the right factors open to.
    pub open spec fn opened_right(self, s: AdderView<ShareView>, t: AdderView<ShareView>) -> Seq<
        int,
    > {
        Seq::new(
            s.lhs.len(),
            |row: int|
                secret::<F40b>(
                    right_mask(s, self.triples.0, row),
                    right_mask(t, self.triples.1, row),
                ),
        )
    }

    /// The products of a round on both peers, the masks opened to what the
    /// peers share.
    pub open spec fn joint_products(self, s: AdderView<ShareView>, t: AdderView<ShareView>) -> (
        Seq<ShareView>,
        Seq<ShareView>,
    ) {
        let d = self.opened_left(s, t);
        let e = self.opened_right(s, t);
        (
            round_products(s, self.triples.0, self.role, self.ds, d, e),
            round_products(t, self.triples.1, self.role.other(), self.dt, d, e),
        )
    }

    /// The products of the first `rounds` rounds on both peers.
    pub open spec fn all_products(
        self,
        s: AdderView<ShareView>,
        t: AdderView<ShareView>,
        rounds: nat,
    ) -> (Seq<Seq<ShareView>>, Seq<Seq<ShareView>>)
        decreases rounds,
    {
        if rounds == 0 {
            (Seq::empty(), Seq::empty())
        } else {
            let (ps, pt) = self.all_products(s, t, (rounds - 1) as nat);
            let (qs, qt) = self.joint_products(
                adder_run::<AuthenticatedShare<F40b>>(s, ps),
                adder_run::<AuthenticatedShare<F40b>>(t, pt),
            );
            (ps.push(qs), pt.push(qt))
        }
    }
}

/// A round of an addition by triples: when both peers open the masks to what
/// they share, they end up with valid shares of the products.
pub proof fn law_round_products(
    w: TripleSetting,
    s: AdderView<ShareView>,
    t: AdderView<ShareView>,
)
    requires
        adders_agree::<AuthenticatedShare<F40b>>(s, t, w.ds, w.dt),
        s.round < s.bit_size(),
        w.provides(s.num() * s.bit_size()),
    ensures
        ({
            let (ps, pt) = w.joint_products(s, t);
            products_match::<AuthenticatedShare<F40b>>(s, t, ps, pt, w.ds, w.dt)
        }),
{
    let (ps, pt) = w.joint_products(s, t);
    assert forall|row: int| 0 <= row < s.num() implies #[trigger] product_matches::<
        AuthenticatedShare<F40b>,
    >(s, t, ps, pt, w.ds, w.dt, row) by {
        let n = s.num();
        lemma_round_fits(s.round, n, s.bit_size(), row + 1);
        lemma_round_fits(s.round, n, s.bit_size(), 0);
        lemma_factors_match::<AuthenticatedShare<F40b>>(s, t, w.ds, w.dt, row);
        let (xs, xt) = (
            left_factor::<AuthenticatedShare<F40b>>(s, row),
            left_factor::<AuthenticatedShare<F40b>>(t, row),
        );
        let (ys, yt) = (
            right_factor::<AuthenticatedShare<F40b>>(s, row),
            right_factor::<AuthenticatedShare<F40b>>(t, row),
        );
        assert(triple_paired(
            w.triples.0[s.round * n + row],
            w.triples.1[s.round * n + row],
            w.ds,
            w.dt,
        ));
        law_product_share(
            w.role,
            w.ds,
            w.dt,
            xs,
            xt,
            ys,
            yt,
            row_triple(s, w.triples.0, row),
            row_triple(t, w.triples.1, row),
        );
        let x = secret::<F40b>(xs, xt);
        let y = secret::<F40b>(ys, yt);
        lemma_secret_bit(xs, xt);
        lemma_secret_bit(ys, yt);
        assert(F2::times(x, y) == 1 <==> (x == 1 && y == 1)) by {
            assert(0 * y == 0 && 1 * y == y);
        }
    }
}

/// An addition by triples has valid shares of all the products it needs.
pub proof fn law_all_products(
    w: TripleSetting,
    s: AdderView<ShareView>,
    t: AdderView<ShareView>,
    rounds: nat,
)
    requires
        adders_agree::<AuthenticatedShare<F40b>>(s, t, w.ds, w.dt),
        s.round + rounds <= s.bit_size(),
        w.provides(s.num() * s.bit_size()),
    ensures
        ({
            let (ps, pt) = w.all_products(s, t, rounds);
            &&& ps.len() == rounds
            &&& all_products_match::<AuthenticatedShare<F40b>>(s, t, ps, pt, w.ds, w.dt)
        }),
    decreases rounds,
{
    if rounds > 0 {
        law_all_products(w, s, t, (rounds - 1) as nat);
        let (ps, pt) = w.all_products(s, t, (rounds - 1) as nat);
        law_adder_run::<AuthenticatedShare<F40b>>(s, t, ps, pt, w.ds, w.dt);
        let u = adder_run::<AuthenticatedShare<F40b>>(s, ps);
        let v = adder_run::<AuthenticatedShare<F40b>>(t, pt);
        law_round_products(w, u, v);
        let (qs, qt) = w.joint_products(u, v);
        assert(ps.push(qs).drop_last() =~= ps);
        assert(pt.push(qt).drop_last() =~= pt);
    }
}

} // verus!
