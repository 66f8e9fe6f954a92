//! Ripple-carry addition of shared bits, one round of multiplications per bit.
//!
//! How the bits are shared is left open: see [`BitShare`].

use crate::field::nat_of_bits;
use crate::mpc_conv::copy_vec;
use crate::ring::lemma_nat_of_bits_push;
use vstd::arithmetic::power2::{lemma_pow2_unfold, pow2};
use vstd::prelude::*;

verus! {

/// One peer's part of a bit that two peers share.
pub trait BitShare: Sized + Copy + View {
    /// The part of the bit zero that every peer holds by agreement.
    spec fn zero_view() -> Self::V;

    /// The part of the exclusive or of two bits.
    spec fn sum_view(a: Self::V, b: Self::V) -> Self::V;

    /// Whether two peers, with the keys `ks` and `kt`, hold the two parts of a
    /// bit.
    spec fn matching(s: Self::V, t: Self::V, ks: int, kt: int) -> bool;

    /// The bit that two peers hold the parts of.
    spec fn shared_bit(s: Self::V, t: Self::V) -> bool;

    /// The agreed parts are the two parts of the bit zero.
    proof fn law_zero_bit(ks: int, kt: int)
        ensures
            Self::matching(Self::zero_view(), Self::zero_view(), ks, kt),
            !Self::shared_bit(Self::zero_view(), Self::zero_view()),
    ;

    /// Sums of parts are the two parts of the exclusive or.
    proof fn law_sum_bit(
        s1: Self::V,
        t1: Self::V,
        s2: Self::V,
        t2: Self::V,
        ks: int,
        kt: int,
    )
        requires
            Self::matching(s1, t1, ks, kt),
            Self::matching(s2, t2, ks, kt),
        ensures
            Self::matching(Self::sum_view(s1, s2), Self::sum_view(t1, t2), ks, kt),
            Self::shared_bit(Self::sum_view(s1, s2), Self::sum_view(t1, t2)) == (
            Self::shared_bit(s1, t1) != Self::shared_bit(s2, t2)),
    ;

    /// The agreed part of the bit zero.
    fn zero_bit() -> (r: Self)
        ensures
            r@ == Self::zero_view(),
    ;

    /// The part of the exclusive or of two bits.
    fn xor(self, other: Self) -> (r: Self)
        ensures
            r@ == Self::sum_view(self@, other@),
    ;
}

/// The views of a sequence.
pub open spec fn seq_views<T: View>(items: Seq<T>) -> Seq<T::V> {
    Seq::new(items.len(), |i: int| items[i]@)
}

/// The views of a sequence of vectors.
pub open spec fn row_seq_views<T: View>(rows: Seq<Vec<T>>) -> Seq<Seq<T::V>> {
    Seq::new(rows.len(), |i: int| seq_views(rows[i]@))
}

/// Views are there in the order of the items, in one row and in several.
pub proof fn law_views<T: View>(items: Seq<T>, rows: Seq<Vec<T>>)
    ensures
        seq_views(items).len() == items.len(),
        forall|i: int| 0 <= i < items.len() ==> #[trigger] seq_views(items)[i] == items[i]@,
        row_seq_views(rows).len() == rows.len(),
        forall|i: int| 0 <= i < rows.len() ==> (#[trigger] row_seq_views(rows)[i]).len()
            == rows[i]@.len(),
        forall|i: int, j: int|
            0 <= i < rows.len() && 0 <= j < rows[i]@.len() ==> #[trigger] row_seq_views(rows)[i][j]
                == rows[i]@[j]@,
{
}

/// The state of an addition.
pub struct AdderView<V> {
    /// The bits of the left summands, row by row.
    pub lhs: Seq<Seq<V>>,
    /// The bits of the right summands, row by row.
    pub rhs: Seq<Seq<V>>,
    /// The bits of the sums so far.
    pub sums: Seq<Seq<V>>,
    /// The carries into the next bit.
    pub carry: Seq<V>,
    /// How many bits have been added.
    pub round: int,
}

impl<V> AdderView<V> {
    /// How many sums are computed.
    pub open spec fn num(self) -> int {
        self.lhs.len() as int
    }

    /// How many bits are added, in every row.
    pub open spec fn bit_size(self) -> int {
        if self.lhs.len() == 0 {
            0
        } else {
            self.lhs[0].len() as int
        }
    }

    /// Whether there are enough summands and bits.
    pub open spec fn well_formed(self) -> bool {
        &&& self.rhs.len() >= self.num()
        &&& forall|row: int|
            0 <= row < self.num() ==> (#[trigger] self.lhs[row]).len() >= self.bit_size()
        &&& forall|row: int|
            0 <= row < self.num() ==> (#[trigger] self.rhs[row]).len() >= self.bit_size()
        &&& self.sums.len() == self.num()
        &&& forall|row: int|
            0 <= row < self.num() ==> (#[trigger] self.sums[row]).len() == self.round
        &&& self.carry.len() == self.num()
        &&& 0 <= self.round <= self.bit_size()
    }
}

/// The left factor of the current round: the left bit plus the carry.
pub open spec fn left_factor<S: BitShare>(a: AdderView<S::V>, row: int) -> S::V {
    S::sum_view(a.lhs[row][a.round], a.carry[row])
}

/// The right factor of the current round: the right bit plus the carry.
pub open spec fn right_factor<S: BitShare>(a: AdderView<S::V>, row: int) -> S::V {
    S::sum_view(a.rhs[row][a.round], a.carry[row])
}

/// The state after a round in which the factors were multiplied.
pub open spec fn adder_step<S: BitShare>(
    a: AdderView<S::V>,
    products: Seq<S::V>,
) -> AdderView<S::V> {
    AdderView {
        sums: Seq::new(
            a.lhs.len(),
            |row: int|
                a.sums[row].push(S::sum_view(left_factor::<S>(a, row), a.rhs[row][a.round])),
        ),
        carry: Seq::new(a.lhs.len(), |row: int| S::sum_view(a.carry[row], products[row])),
        round: a.round + 1,
        ..a
    }
}

/// The state of an addition before its first round.
pub open spec fn adder_start<S: BitShare>(lhs: Seq<Seq<S::V>>, rhs: Seq<Seq<S::V>>) -> AdderView<
    S::V,
> {
    AdderView {
        lhs,
        rhs,
        sums: Seq::new(lhs.len(), |row: int| Seq::empty()),
        carry: Seq::new(lhs.len(), |row: int| S::zero_view()),
        round: 0,
    }
}

/// An addition in progress.
pub struct BitAdder<S: BitShare> {
    lhs: Vec<Vec<S>>,
    rhs: Vec<Vec<S>>,
    sums: Vec<Vec<S>>,
    carry: Vec<S>,
    round: usize,
}

impl<S: BitShare> View for BitAdder<S> {
    type V = AdderView<S::V>;

    closed spec fn view(&self) -> AdderView<S::V> {
        AdderView {
            lhs: row_seq_views(self.lhs@),
            rhs: row_seq_views(self.rhs@),
            sums: row_seq_views(self.sums@),
            carry: seq_views(self.carry@),
            round: self.round as int,
        }
    }
}

impl<S: BitShare> BitAdder<S> {
    #[verifier::type_invariant]
    closed spec fn inv(&self) -> bool {
        self@.well_formed()
    }

    /// Starts adding the bits of `rhs` to those of `lhs`, as many in each row
    /// as the first left summand has.
    pub fn start(lhs: Vec<Vec<S>>, rhs: Vec<Vec<S>>) -> (r: Self)
        requires
            adder_start::<S>(row_seq_views(lhs@), row_seq_views(rhs@)).well_formed(),
        ensures
            r@ == adder_start::<S>(row_seq_views(lhs@), row_seq_views(rhs@)),
            r@.well_formed(),
    {
        let mut sums: Vec<Vec<S>> = Vec::new();
        let mut carry: Vec<S> = Vec::new();
        let num: usize = lhs.len();
        let mut row: usize = 0;
        while row < num
            invariant
                row <= num,
                sums@.len() == row,
                carry@.len() == row,
                forall|i: int| 0 <= i < row ==> (#[trigger] sums@[i])@.len() == 0,
                forall|i: int| 0 <= i < row ==> (#[trigger] carry@[i])@ == S::zero_view(),
            decreases num - row,
        {
            sums.push(Vec::new());
            carry.push(S::zero_bit());
            row = row + 1;
        }
        proof {
            let start = adder_start::<S>(row_seq_views(lhs@), row_seq_views(rhs@));
            assert forall|i: int| 0 <= i < row implies #[trigger] row_seq_views(sums@)[i]
                == start.sums[i] by {
                assert(seq_views(sums@[i]@) =~= Seq::empty());
            }
            assert(row_seq_views(sums@) =~= start.sums);
            assert(seq_views(carry@) =~= start.carry);
        }
        BitAdder { lhs, rhs, sums, carry, round: 0 }
    }

    /// How many bits are added, in every row.
    pub fn bit_size(&self) -> (r: usize)
        ensures
            r == self@.bit_size(),
    {
        if self.lhs.len() == 0 {
            0
        } else {
            assert(self@.lhs[0] == seq_views(self.lhs@[0]@));
            self.lhs[0].len()
        }
    }

    /// How many sums are computed.
    pub fn num(&self) -> (r: usize)
        ensures
            r == self@.num(),
    {
        self.lhs.len()
    }

    /// How many bits have been added.
    pub fn round(&self) -> (r: usize)
        ensures
            r == self@.round,
            self@.well_formed(),
    {
        proof {
            use_type_invariant(self);
        }
        self.round
    }

    /// Whether all bits have been added.
    pub fn is_done(&self) -> (r: bool)
        ensures
            r == (self@.round == self@.bit_size()),
            self@.well_formed(),
    {
        proof {
            use_type_invariant(self);
        }
        self.round == self.bit_size()
    }

    /// The factors that are to be multiplied in the current round.
    pub fn factors(&self) -> (r: (Vec<S>, Vec<S>))
        requires
            self@.round < self@.bit_size(),
        ensures
            self@.well_formed(),
            r.0@.len() == self@.num(),
            r.1@.len() == self@.num(),
            forall|row: int|
                0 <= row < self@.num() ==> (#[trigger] r.0@[row])@ == left_factor::<S>(self@, row),
            forall|row: int|
                0 <= row < self@.num() ==> (#[trigger] r.1@[row])@ == right_factor::<S>(self@, row),
            forall|row: int|
                0 <= row < self@.num() ==> (#[trigger] r.0@[row])@ == S::sum_view(
                    self@.lhs[row][self@.round],
                    self@.carry[row],
                ),
            forall|row: int|
                0 <= row < self@.num() ==> (#[trigger] r.1@[row])@ == S::sum_view(
                    self@.rhs[row][self@.round],
                    self@.carry[row],
                ),
    {
        proof {
            use_type_invariant(self);
        }
        let num: usize = self.lhs.len();
        let round: usize = self.round;
        let mut left: Vec<S> = Vec::new();
        let mut right: Vec<S> = Vec::new();
        let mut row: usize = 0;
        while row < num
            invariant
                self@.well_formed(),
                round == self.round,
                num == self.lhs@.len(),
                num == self@.num(),
                round < self@.bit_size(),
                row <= num,
                left@.len() == row,
                right@.len() == row,
                forall|i: int|
                    0 <= i < row ==> (#[trigger] left@[i])@ == left_factor::<S>(self@, i),
                forall|i: int|
                    0 <= i < row ==> (#[trigger] right@[i])@ == right_factor::<S>(self@, i),
            decreases num - row,
        {
            proof {
                let r = row as int;
                assert(self@.lhs[r] == seq_views(self.lhs@[r]@));
                assert(self@.rhs[r] == seq_views(self.rhs@[r]@));
                assert(self@.lhs[r].len() >= self@.bit_size());
                assert(self@.rhs[r].len() >= self@.bit_size());
                assert(self@.carry[r] == self.carry@[r]@);
            }
            left.push(self.lhs[row][round].xor(self.carry[row]));
            right.push(self.rhs[row][round].xor(self.carry[row]));
            row = row + 1;
        }
        (left, right)
    }

    /// Completes the current round with the products of its factors.
    pub fn absorb(self, products: &[S]) -> (r: Self)
        requires
            self@.round < self@.bit_size(),
            products@.len() == self@.num(),
        ensures
            r@ == adder_step::<S>(self@, seq_views(products@)),
            r@.well_formed(),
            r@.lhs == self@.lhs,
            r@.rhs == self@.rhs,
            r@.round == self@.round + 1,
            forall|row: int|
                0 <= row < self@.num() ==> #[trigger] r@.sums[row] == self@.sums[row].push(
                    S::sum_view(
                        S::sum_view(self@.lhs[row][self@.round], self@.carry[row]),
                        self@.rhs[row][self@.round],
                    ),
                ),
            forall|row: int|
                0 <= row < self@.num() ==> #[trigger] r@.carry[row] == S::sum_view(
                    self@.carry[row],
                    products@[row]@,
                ),
    {
        let (left, _right) = self.factors();
        let bit_size: usize = self.bit_size();
        let ghost before = self@;
        let ghost after = adder_step::<S>(self@, seq_views(products@));
        let num: usize = self.lhs.len();
        let round: usize = self.round;
        let mut sums: Vec<Vec<S>> = Vec::new();
        let mut carry: Vec<S> = Vec::new();
        let mut row: usize = 0;
        while row < num
            invariant
                self@ == before,
                before.well_formed(),
                after == adder_step::<S>(before, seq_views(products@)),
                round == self.round,
                num == self.lhs@.len(),
                num == before.num(),
                round < bit_size,
                bit_size == before.bit_size(),
                row <= num,
                left@.len() == num,
                products@.len() == num,
                forall|i: int|
                    0 <= i < num ==> (#[trigger] left@[i])@ == left_factor::<S>(before, i),
                sums@.len() == row,
                carry@.len() == row,
                forall|i: int| 0 <= i < row ==> seq_views((#[trigger] sums@[i])@) == after.sums[i],
                forall|i: int| 0 <= i < row ==> (#[trigger] carry@[i])@ == after.carry[i],
            decreases num - row,
        {
            proof {
                let r = row as int;
                assert(before.rhs[r] == seq_views(self.rhs@[r]@));
                assert(before.rhs[r].len() >= before.bit_size());
                assert(before.carry[r] == self.carry@[r]@);
                assert(before.sums[r] == seq_views(self.sums@[r]@));
            }
            let sum = left[row].xor(self.rhs[row][round]);
            let mut bits: Vec<S> = copy_vec(&self.sums[row]);
            bits.push(sum);
            assert(seq_views(bits@) =~= before.sums[row as int].push(sum@));
            sums.push(bits);
            carry.push(self.carry[row].xor(products[row]));
            row = row + 1;
        }
        proof {
            assert(row_seq_views(sums@) =~= after.sums);
            assert(seq_views(carry@) =~= after.carry);
            lemma_step_well_formed(before, after);
        }
        let BitAdder { lhs, rhs, .. } = self;
        BitAdder { lhs, rhs, sums, carry, round: round + 1 }
    }

    /// The bits of the sums and the last carries.
    pub fn finish(self) -> (r: (Vec<Vec<S>>, Vec<S>))
        ensures
            row_seq_views(r.0@) == self@.sums,
            seq_views(r.1@) == self@.carry,
    {
        (self.sums, self.carry)
    }
}

proof fn lemma_step_well_formed<V>(s: AdderView<V>, u: AdderView<V>)
    requires
        s.well_formed(),
        s.round < s.bit_size(),
        u.lhs == s.lhs,
        u.rhs == s.rhs,
        u.round == s.round + 1,
        u.sums.len() == s.num(),
        u.carry.len() == s.num(),
        forall|row: int|
            0 <= row < s.num() ==> (#[trigger] u.sums[row]).len() == s.sums[row].len() + 1,
    ensures
        u.well_formed(),
{
    assert forall|row: int| 0 <= row < u.num() implies (#[trigger] u.sums[row]).len()
        == u.round by {
        assert(s.sums[row].len() == s.round);
    }
    assert forall|row: int| 0 <= row < u.num() implies (#[trigger] u.lhs[row]).len()
        >= u.bit_size() by {
        assert(s.lhs[row].len() >= s.bit_size());
    }
    assert forall|row: int| 0 <= row < u.num() implies (#[trigger] u.rhs[row]).len()
        >= u.bit_size() by {
        assert(s.rhs[row].len() >= s.bit_size());
    }
}

/// The bits that two peers share.
pub open spec fn shared_bits<S: BitShare>(s: Seq<S::V>, t: Seq<S::V>) -> Seq<bool> {
    Seq::new(s.len(), |i: int| S::shared_bit(s[i], t[i]))
}

/// Whether two peers hold the two parts of each of a sequence of bits.
pub open spec fn row_matching<S: BitShare>(
    s: Seq<S::V>,
    t: Seq<S::V>,
    ks: int,
    kt: int,
) -> bool {
    &&& s.len() == t.len()
    &&& forall|i: int| 0 <= i < s.len() ==> S::matching(#[trigger] s[i], t[i], ks, kt)
}

/// Whether two peers hold the same summands in a row, and the sum of their
/// lowest bits.
pub open spec fn row_agrees<S: BitShare>(
    s: AdderView<S::V>,
    t: AdderView<S::V>,
    ks: int,
    kt: int,
    row: int,
) -> bool {
    &&& row_matching::<S>(s.lhs[row], t.lhs[row], ks, kt)
    &&& row_matching::<S>(s.rhs[row], t.rhs[row], ks, kt)
    &&& row_matching::<S>(s.sums[row], t.sums[row], ks, kt)
    &&& S::matching(s.carry[row], t.carry[row], ks, kt)
    &&& nat_of_bits(shared_bits::<S>(s.lhs[row], t.lhs[row]).take(s.round)) + nat_of_bits(
        shared_bits::<S>(s.rhs[row], t.rhs[row]).take(s.round),
    ) == nat_of_bits(shared_bits::<S>(s.sums[row], t.sums[row])) + (if S::shared_bit(
        s.carry[row],
        t.carry[row],
    ) {
        pow2(s.round as nat)
    } else {
        0
    })
}

/// Whether two peers add the same numbers, and are at the same point of it with
/// the right partial sums.
pub open spec fn adders_agree<S: BitShare>(
    s: AdderView<S::V>,
    t: AdderView<S::V>,
    ks: int,
    kt: int,
) -> bool {
    &&& s.well_formed()
    &&& t.well_formed()
    &&& s.num() == t.num()
    &&& s.bit_size() == t.bit_size()
    &&& s.round == t.round
    &&& forall|row: int| 0 <= row < s.num() ==> #[trigger] row_agrees::<S>(s, t, ks, kt, row)
}

/// Whether two peers hold the two parts of the products of the factors of the
/// current round.
pub open spec fn products_match<S: BitShare>(
    s: AdderView<S::V>,
    t: AdderView<S::V>,
    ps: Seq<S::V>,
    pt: Seq<S::V>,
    ks: int,
    kt: int,
) -> bool {
    forall|row: int|
        0 <= row < s.num() ==> #[trigger] product_matches::<S>(s, t, ps, pt, ks, kt, row)
}

/// Whether two peers hold the two parts of the product of the factors of a row.
pub open spec fn product_matches<S: BitShare>(
    s: AdderView<S::V>,
    t: AdderView<S::V>,
    ps: Seq<S::V>,
    pt: Seq<S::V>,
    ks: int,
    kt: int,
    row: int,
) -> bool {
    &&& S::matching(ps[row], pt[row], ks, kt)
    &&& S::shared_bit(ps[row], pt[row]) == (S::shared_bit(
        left_factor::<S>(s, row),
        left_factor::<S>(t, row),
    ) && S::shared_bit(right_factor::<S>(s, row), right_factor::<S>(t, row)))
}

/// The factors of a round are valid shares.
pub proof fn lemma_factors_match<S: BitShare>(
    s: AdderView<S::V>,
    t: AdderView<S::V>,
    ks: int,
    kt: int,
    row: int,
)
    requires
        adders_agree::<S>(s, t, ks, kt),
        0 <= row < s.num(),
        s.round < s.bit_size(),
    ensures
        S::matching(left_factor::<S>(s, row), left_factor::<S>(t, row), ks, kt),
        S::matching(right_factor::<S>(s, row), right_factor::<S>(t, row), ks, kt),
{
    let k = s.round;
    assert(row_agrees::<S>(s, t, ks, kt, row));
    assert(s.lhs[row].len() >= s.bit_size());
    assert(s.rhs[row].len() >= s.bit_size());
    assert(S::matching(s.lhs[row][k], t.lhs[row][k], ks, kt));
    assert(S::matching(s.rhs[row][k], t.rhs[row][k], ks, kt));
    S::law_sum_bit(s.lhs[row][k], t.lhs[row][k], s.carry[row], t.carry[row], ks, kt);
    S::law_sum_bit(s.rhs[row][k], t.rhs[row][k], s.carry[row], t.carry[row], ks, kt);
}

/// One row of a round.
proof fn lemma_row_step<S: BitShare>(
    s: AdderView<S::V>,
    t: AdderView<S::V>,
    ps: Seq<S::V>,
    pt: Seq<S::V>,
    ks: int,
    kt: int,
    row: int,
)
    requires
        adders_agree::<S>(s, t, ks, kt),
        0 <= row < s.num(),
        s.round < s.bit_size(),
        products_match::<S>(s, t, ps, pt, ks, kt),
    ensures
        row_agrees::<S>(adder_step::<S>(s, ps), adder_step::<S>(t, pt), ks, kt, row),
{
    let (u, v) = (adder_step::<S>(s, ps), adder_step::<S>(t, pt));
    let k = s.round;
    assert(row_agrees::<S>(s, t, ks, kt, row));
    assert(product_matches::<S>(s, t, ps, pt, ks, kt, row));
    assert(s.lhs[row].len() >= s.bit_size());
    assert(s.rhs[row].len() >= s.bit_size());
    let (xs, xt) = (s.lhs[row][k], t.lhs[row][k]);
    let (ys, yt) = (s.rhs[row][k], t.rhs[row][k]);
    let (cs, ct) = (s.carry[row], t.carry[row]);
    assert(S::matching(xs, xt, ks, kt));
    assert(S::matching(ys, yt, ks, kt));
    let x = S::shared_bit(xs, xt);
    let y = S::shared_bit(ys, yt);
    let c = S::shared_bit(cs, ct);
    S::law_sum_bit(xs, xt, cs, ct, ks, kt);
    S::law_sum_bit(ys, yt, cs, ct, ks, kt);
    let (ls, lt) = (left_factor::<S>(s, row), left_factor::<S>(t, row));
    S::law_sum_bit(ls, lt, ys, yt, ks, kt);
    S::law_sum_bit(cs, ct, ps[row], pt[row], ks, kt);
    let (zs, zt) = (S::sum_view(ls, ys), S::sum_view(lt, yt));
    let z = S::shared_bit(zs, zt);
    let q = S::shared_bit(u.carry[row], v.carry[row]);
    assert(u.sums[row] == s.sums[row].push(zs));
    assert(v.sums[row] == t.sums[row].push(zt));
    assert(s.sums[row].len() == k);
    assert(t.sums[row].len() == k);
    assert forall|i: int| 0 <= i < u.sums[row].len() implies S::matching(
        #[trigger] u.sums[row][i],
        v.sums[row][i],
        ks,
        kt,
    ) by {
        if i < k {
            assert(S::matching(s.sums[row][i], t.sums[row][i], ks, kt));
        }
    }
    let lhs = shared_bits::<S>(s.lhs[row], t.lhs[row]);
    let rhs = shared_bits::<S>(s.rhs[row], t.rhs[row]);
    let sum = shared_bits::<S>(s.sums[row], t.sums[row]);
    assert(lhs.take(k + 1) =~= lhs.take(k).push(x));
    assert(rhs.take(k + 1) =~= rhs.take(k).push(y));
    assert(shared_bits::<S>(u.sums[row], v.sums[row]) =~= sum.push(z));
    lemma_nat_of_bits_push(lhs.take(k), x);
    lemma_nat_of_bits_push(rhs.take(k), y);
    lemma_nat_of_bits_push(sum, z);
    lemma_pow2_unfold((k + 1) as nat);
    assert(z == (x != y) != c);
    assert(q == (c != ((x != c) && (y != c))));
}

/// One round of an addition keeps the two peers in agreement.
pub proof fn law_adder_step<S: BitShare>(
    s: AdderView<S::V>,
    t: AdderView<S::V>,
    ps: Seq<S::V>,
    pt: Seq<S::V>,
    ks: int,
    kt: int,
)
    requires
        adders_agree::<S>(s, t, ks, kt),
        s.round < s.bit_size(),
        products_match::<S>(s, t, ps, pt, ks, kt),
    ensures
        adders_agree::<S>(adder_step::<S>(s, ps), adder_step::<S>(t, pt), ks, kt),
{
    let (u, v) = (adder_step::<S>(s, ps), adder_step::<S>(t, pt));
    assert forall|row: int| 0 <= row < u.num() implies #[trigger] row_agrees::<S>(
        u,
        v,
        ks,
        kt,
        row,
    ) by {
        lemma_row_step::<S>(s, t, ps, pt, ks, kt, row);
    }
    lemma_step_well_formed(s, u);
    lemma_step_well_formed(t, v);
}

/// Whether two peers hold the two parts of the summands of an addition.
pub open spec fn summands_match<S: BitShare>(
    lhs: (Seq<Seq<S::V>>, Seq<Seq<S::V>>),
    rhs: (Seq<Seq<S::V>>, Seq<Seq<S::V>>),
    ks: int,
    kt: int,
) -> bool {
    let s = adder_start::<S>(lhs.0, rhs.0);
    let t = adder_start::<S>(lhs.1, rhs.1);
    &&& s.well_formed()
    &&& t.well_formed()
    &&& s.num() == t.num()
    &&& s.bit_size() == t.bit_size()
    &&& forall|row: int|
        0 <= row < s.num() ==> row_matching::<S>(#[trigger] lhs.0[row], lhs.1[row], ks, kt)
    &&& forall|row: int|
        0 <= row < s.num() ==> row_matching::<S>(#[trigger] rhs.0[row], rhs.1[row], ks, kt)
}

/// The two peers agree before the first round.
pub proof fn law_adder_start<S: BitShare>(
    lhs: (Seq<Seq<S::V>>, Seq<Seq<S::V>>),
    rhs: (Seq<Seq<S::V>>, Seq<Seq<S::V>>),
    ks: int,
    kt: int,
)
    requires
        summands_match::<S>(lhs, rhs, ks, kt),
    ensures
        adders_agree::<S>(
            adder_start::<S>(lhs.0, rhs.0),
            adder_start::<S>(lhs.1, rhs.1),
            ks,
            kt,
        ),
{
    let s = adder_start::<S>(lhs.0, rhs.0);
    let t = adder_start::<S>(lhs.1, rhs.1);
    S::law_zero_bit(ks, kt);
    assert forall|row: int| 0 <= row < s.num() implies #[trigger] row_agrees::<S>(
        s,
        t,
        ks,
        kt,
        row,
    ) by {
        assert(row_matching::<S>(s.lhs[row], t.lhs[row], ks, kt));
        assert(row_matching::<S>(s.rhs[row], t.rhs[row], ks, kt));
        assert(shared_bits::<S>(s.lhs[row], t.lhs[row]).take(0) =~= Seq::empty());
        assert(shared_bits::<S>(s.rhs[row], t.rhs[row]).take(0) =~= Seq::empty());
        assert(shared_bits::<S>(s.sums[row], t.sums[row]) =~= Seq::empty());
    }
}

/// The state after the rounds whose products are given.
pub open spec fn adder_run<S: BitShare>(
    a: AdderView<S::V>,
    products: Seq<Seq<S::V>>,
) -> AdderView<S::V>
    decreases products.len(),
{
    if products.len() == 0 {
        a
    } else {
        adder_step::<S>(adder_run::<S>(a, products.drop_last()), products.last())
    }
}

/// Whether in every round the two peers hold the two parts of the products of
/// the factors of that round.
pub open spec fn all_products_match<S: BitShare>(
    s: AdderView<S::V>,
    t: AdderView<S::V>,
    ps: Seq<Seq<S::V>>,
    pt: Seq<Seq<S::V>>,
    ks: int,
    kt: int,
) -> bool
    decreases ps.len(),
{
    &&& ps.len() == pt.len()
    &&& ps.len() > 0 ==> {
        &&& all_products_match::<S>(s, t, ps.drop_last(), pt.drop_last(), ks, kt)
        &&& products_match::<S>(
            adder_run::<S>(s, ps.drop_last()),
            adder_run::<S>(t, pt.drop_last()),
            ps.last(),
            pt.last(),
            ks,
            kt,
        )
    }
}

/// After any number of rounds the two peers agree.
pub proof fn law_adder_run<S: BitShare>(
    s: AdderView<S::V>,
    t: AdderView<S::V>,
    ps: Seq<Seq<S::V>>,
    pt: Seq<Seq<S::V>>,
    ks: int,
    kt: int,
)
    requires
        adders_agree::<S>(s, t, ks, kt),
        s.round + ps.len() <= s.bit_size(),
        all_products_match::<S>(s, t, ps, pt, ks, kt),
    ensures
        adders_agree::<S>(adder_run::<S>(s, ps), adder_run::<S>(t, pt), ks, kt),
        adder_run::<S>(s, ps).round == s.round + ps.len(),
        adder_run::<S>(s, ps).lhs == s.lhs,
        adder_run::<S>(s, ps).rhs == s.rhs,
        adder_run::<S>(t, pt).lhs == t.lhs,
        adder_run::<S>(t, pt).rhs == t.rhs,
    decreases ps.len(),
{
    if ps.len() > 0 {
        law_adder_run::<S>(s, t, ps.drop_last(), pt.drop_last(), ks, kt);
        law_adder_step::<S>(
            adder_run::<S>(s, ps.drop_last()),
            adder_run::<S>(t, pt.drop_last()),
            ps.last(),
            pt.last(),
            ks,
            kt,
        );
    }
}

/// A complete addition: in every row the peers hold valid shares of the bits of
/// the sum and of the carry out of the highest bit.
pub proof fn law_addition<S: BitShare>(
    lhs: (Seq<Seq<S::V>>, Seq<Seq<S::V>>),
    rhs: (Seq<Seq<S::V>>, Seq<Seq<S::V>>),
    products: (Seq<Seq<S::V>>, Seq<Seq<S::V>>),
    ks: int,
    kt: int,
    row: int,
)
    requires
        summands_match::<S>(lhs, rhs, ks, kt),
        0 <= row < lhs.0.len(),
        products.0.len() == lhs.0[0].len(),
        all_products_match::<S>(
            adder_start::<S>(lhs.0, rhs.0),
            adder_start::<S>(lhs.1, rhs.1),
            products.0,
            products.1,
            ks,
            kt,
        ),
    ensures
        ({
            let u = adder_run::<S>(adder_start::<S>(lhs.0, rhs.0), products.0);
            let v = adder_run::<S>(adder_start::<S>(lhs.1, rhs.1), products.1);
            let m = lhs.0[0].len();
            &&& u.sums.len() == lhs.0.len()
            &&& v.sums.len() == lhs.0.len()
            &&& u.carry.len() == lhs.0.len()
            &&& v.carry.len() == lhs.0.len()
            &&& u.sums[row].len() == m
            &&& row_matching::<S>(u.sums[row], v.sums[row], ks, kt)
            &&& S::matching(u.carry[row], v.carry[row], ks, kt)
            &&& nat_of_bits(shared_bits::<S>(lhs.0[row], lhs.1[row]).take(m as int)) + nat_of_bits(
                shared_bits::<S>(rhs.0[row], rhs.1[row]).take(m as int),
            ) == nat_of_bits(shared_bits::<S>(u.sums[row], v.sums[row])) + (if S::shared_bit(
                u.carry[row],
                v.carry[row],
            ) {
                pow2(m)
            } else {
                0
            })
        }),
{
    let s = adder_start::<S>(lhs.0, rhs.0);
    let t = adder_start::<S>(lhs.1, rhs.1);
    law_adder_start::<S>(lhs, rhs, ks, kt);
    law_adder_run::<S>(s, t, products.0, products.1, ks, kt);
    let u = adder_run::<S>(s, products.0);
    let v = adder_run::<S>(t, products.1);
    assert(row_agrees::<S>(u, v, ks, kt, row));
    assert(u.sums[row].len() == u.round);
}

} // verus!
