//! Bit vectors and the numbers that they denote.

use crate::field::{nat_of_bits, FiniteField, FiniteRing, PrimeRing};
use crate::prime_fields::F2;
use vstd::arithmetic::div_mod::{lemma_add_mod_noop, lemma_small_mod};
use vstd::arithmetic::power2::{lemma2_to64, lemma_pow2_unfold, pow2};
use vstd::prelude::*;

verus! {

/// The bits as truth values.
pub open spec fn truths(bits: Seq<F2>) -> Seq<bool> {
    Seq::new(bits.len(), |i: int| bits[i].bit)
}

/// The number that bits denote, least significant bit first.
pub open spec fn number(bits: Seq<F2>) -> nat {
    nat_of_bits(truths(bits))
}

/// The contents of a sequence of vectors.
pub open spec fn rows<T>(vectors: Seq<Vec<T>>) -> Seq<Seq<T>> {
    Seq::new(vectors.len(), |i: int| vectors[i]@)
}

/// The lesser of two numbers.
pub open spec fn least(a: int, b: int) -> int {
    if a <= b {
        a
    } else {
        b
    }
}

/// The sequence cut into pieces of `size` elements, the last one perhaps
/// shorter.
pub open spec fn chunked<T>(s: Seq<T>, size: int) -> Seq<Seq<T>>
    decreases s.len(),
{
    if s.len() == 0 || size <= 0 {
        Seq::empty()
    } else {
        let n = least(size, s.len() as int);
        seq![s.take(n)] + chunked(s.skip(n), size)
    }
}

/// A bit as an element of the prime field of `FE`.
pub fn f2_to_fe<FE: FiniteField>(bit: F2) -> (r: FE::PrimeField)
    ensures
        r.val() == bit.val(),
{
    if bit.equals(F2::zero()) {
        FE::PrimeField::zero()
    } else {
        FE::PrimeField::one()
    }
}

/// Doubling a residue and adding a number.
proof fn lemma_horner(n: nat, b: nat, p: int)
    requires
        p >= 2,
        b < p,
    ensures
        ((n as int % p + n as int % p) % p + b) % p == (b + 2 * n) as int % p,
{
    lemma_add_mod_noop(n as int, n as int, p);
    lemma_add_mod_noop(2 * n as int, b as int, p);
    lemma_small_mod(b, p as nat);
}

/// The number that bits denote, in the prime field of `FE`.
pub fn convert_bits_to_field<FE: FiniteField>(bits: &[F2]) -> (r: FE::PrimeField)
    ensures
        r.val() == number(bits@) as int % FE::PrimeField::order(),
{
    let mut out = FE::PrimeField::zero();
    let mut i: usize = bits.len();
    proof {
        FE::PrimeField::law_order();
        assert(truths(bits@).skip(i as int) =~= Seq::empty());
        lemma_small_mod(0, FE::PrimeField::order() as nat);
    }
    while i > 0
        invariant
            i <= bits.len(),
            FE::PrimeField::order() >= 2,
            out.val() == nat_of_bits(truths(bits@).skip(i as int)) as int
                % FE::PrimeField::order(),
        decreases i,
    {
        i = i - 1;
        proof {
            let rest = truths(bits@).skip(i as int);
            assert(rest.skip(1) =~= truths(bits@).skip(i as int + 1));
            let n = nat_of_bits(rest.skip(1));
            let p = FE::PrimeField::order();
            let b: nat = if rest[0] {
                1
            } else {
                0
            };
            FE::PrimeField::law_modular(n as int % p, n as int % p);
            FE::PrimeField::law_modular((n as int % p + n as int % p) % p, b as int);
            lemma_horner(n, b, p);
        }
        out = out.add(out);
        out = out.add(f2_to_fe::<FE>(bits[i]));
    }
    assert(truths(bits@).skip(0) =~= truths(bits@));
    out
}

/// Two to the power of `power`, in the prime field of `FE`.
pub fn power_two<FE: FiniteField>(power: usize) -> (r: FE::PrimeField)
    ensures
        r.val() == pow2(power as nat) as int % FE::PrimeField::order(),
{
    let mut out = FE::PrimeField::one();
    let mut i: usize = 0;
    proof {
        FE::PrimeField::law_order();
        lemma2_to64();
        lemma_small_mod(1, FE::PrimeField::order() as nat);
    }
    while i < power
        invariant
            i <= power,
            FE::PrimeField::order() >= 2,
            out.val() == pow2(i as nat) as int % FE::PrimeField::order(),
        decreases power - i,
    {
        proof {
            let p = FE::PrimeField::order();
            let n = pow2(i as nat) as int;
            FE::PrimeField::law_modular(n % p, n % p);
            lemma_add_mod_noop(n, n, p);
            lemma_pow2_unfold((i + 1) as nat);
        }
        out = out.add(out);
        i = i + 1;
    }
    out
}

/// All the elements, one vector after the other.
pub fn flatten_rows<T: Copy>(vectors: &[Vec<T>]) -> (r: Vec<T>)
    ensures
        r@ == rows(vectors@).flatten(),
{
    let mut out: Vec<T> = Vec::new();
    let mut i: usize = 0;
    while i < vectors.len()
        invariant
            i <= vectors.len(),
            out@ == rows(vectors@).take(i as int).flatten(),
        decreases vectors.len() - i,
    {
        let ghost before = out@;
        let row = &vectors[i];
        let mut j: usize = 0;
        while j < row.len()
            invariant
                j <= row.len(),
                out@ == before + row@.take(j as int),
            decreases row.len() - j,
        {
            assert(row@.take(j as int + 1) =~= row@.take(j as int).push(row@[j as int]));
            out.push(row[j]);
            assert(out@ =~= before + row@.take(j as int + 1));
            j = j + 1;
        }
        proof {
            let all = rows(vectors@);
            assert(row@.take(j as int) =~= row@);
            assert(all.take(i as int + 1) =~= all.take(i as int).push(row@));
            all.take(i as int).lemma_flatten_push(row@);
        }
        i = i + 1;
    }
    assert(rows(vectors@).take(i as int) =~= rows(vectors@));
    out
}

/// All the bits, one vector after the other.
pub fn flatten_bits(bit_vectors: &[Vec<F2>]) -> (r: Vec<F2>)
    ensures
        r@ == rows(bit_vectors@).flatten(),
{
    flatten_rows(bit_vectors)
}

/// The elements from `first` on, cut into vectors of `size`, the last one perhaps
/// shorter.
pub fn split_rows<T: Copy>(items: &[T], first: usize, size: usize) -> (r: Vec<Vec<T>>)
    requires
        size > 0,
        first <= items@.len(),
    ensures
        rows(r@) == chunked(items@.skip(first as int), size as int),
        forall|i: int, j: int|
            0 <= i < r@.len() && 0 <= j < r@[i]@.len() ==> {
                &&& 0 <= first + i * size + j < items@.len()
                &&& #[trigger] r@[i]@[j] == items@[first + i * size + j]
            },
        forall|i: int|
            0 <= i < r@.len() ==> (#[trigger] r@[i])@.len() == least(
                size as int,
                items@.len() - first - i * size,
            ),
        items@.len() - first <= r@.len() * size,
{
    let mut out: Vec<Vec<T>> = Vec::new();
    let ghost all = items@.skip(first as int);
    let mut start: usize = first;
    assert(rows(out@) + chunked(all, size as int) =~= chunked(all, size as int));
    while start < items.len()
        invariant
            size > 0,
            start <= items.len(),
            rows(out@) + chunked(items@.skip(start as int), size as int) == chunked(
                all,
                size as int,
            ),
        decreases items.len() - start,
    {
        let left: usize = items.len() - start;
        let n: usize = if size <= left {
            size
        } else {
            left
        };
        let ghost rest = items@.skip(start as int);
        let mut chunk: Vec<T> = Vec::new();
        let mut j: usize = 0;
        while j < n
            invariant
                j <= n,
                n <= items.len() - start,
                rest == items@.skip(start as int),
                chunk@ == rest.take(j as int),
            decreases n - j,
        {
            assert(rest.take(j as int + 1) =~= rest.take(j as int).push(rest[j as int]));
            chunk.push(items[start + j]);
            j = j + 1;
        }
        proof {
            assert(rest.skip(n as int) =~= items@.skip(start + n));
            let tail = chunked(items@.skip(start + n), size as int);
            assert(chunked(rest, size as int) == seq![rest.take(n as int)] + tail);
            assert(rows(out@.push(chunk)) =~= rows(out@).push(rest.take(n as int)));
            assert(rows(out@).push(rest.take(n as int)) + tail =~= rows(out@) + (seq![
                rest.take(n as int),
            ] + tail));
        }
        out.push(chunk);
        start = start + n;
    }
    proof {
        let last = chunked(items@.skip(start as int), size as int);
        assert(last =~= Seq::empty());
        assert(rows(out@) =~= rows(out@) + last);
        lemma_split(items@, first as int, size as int, out@);
    }
    out
}

/// Where the elements of vectors come from that hold the pieces of a sequence.
proof fn lemma_split<T>(items: Seq<T>, first: int, size: int, out: Seq<Vec<T>>)
    requires
        size > 0,
        0 <= first <= items.len(),
        rows(out) == chunked(items.skip(first), size),
    ensures
        forall|i: int, j: int|
            0 <= i < out.len() && 0 <= j < out[i]@.len() ==> {
                &&& 0 <= first + i * size + j < items.len()
                &&& #[trigger] out[i]@[j] == items[first + i * size + j]
            },
        forall|i: int|
            0 <= i < out.len() ==> (#[trigger] out[i])@.len() == least(
                size,
                items.len() - first - i * size,
            ),
        items.len() - first <= out.len() * size,
{
    let all = items.skip(first);
    assert(rows(out).len() == out.len());
    law_pieces(all, size, out.len() as int);
    assert forall|i: int| 0 <= i < out.len() implies (#[trigger] out[i])@.len() == least(
        size,
        items.len() - first - i * size,
    ) by {
        law_pieces(all, size, i);
        assert(rows(out)[i] == out[i]@);
    }
    assert forall|i: int, j: int| 0 <= i < out.len() && 0 <= j < out[i]@.len() implies {
        &&& 0 <= first + i * size + j < items.len()
        &&& #[trigger] out[i]@[j] == items[first + i * size + j]
    } by {
        law_pieces(all, size, i);
        assert(rows(out)[i] == out[i]@);
        assert(i * size >= 0) by (nonlinear_arith)
            requires
                i >= 0,
                size > 0,
        ;
    }
}

/// The bits cut into vectors of `chunk_size`, the last one perhaps shorter.
pub fn split_bits(flat: &[F2], chunk_size: usize) -> (r: Vec<Vec<F2>>)
    requires
        chunk_size > 0,
    ensures
        rows(r@) == chunked(flat@, chunk_size as int),
        forall|i: int, j: int|
            0 <= i < r@.len() && 0 <= j < r@[i]@.len() ==> {
                &&& 0 <= i * chunk_size + j < flat@.len()
                &&& #[trigger] r@[i]@[j] == flat@[i * chunk_size + j]
            },
        forall|i: int|
            0 <= i < r@.len() ==> (#[trigger] r@[i])@.len() == least(
                chunk_size as int,
                flat@.len() - i * chunk_size,
            ),
        flat@.len() <= r@.len() * chunk_size,
{
    let r = split_rows(flat, 0, chunk_size);
    assert(flat@.skip(0) =~= flat@);
    r
}

/// Putting the pieces of a sequence one after the other gives it back.
pub proof fn law_flatten_of_split<T>(flat: Seq<T>, size: int)
    requires
        size > 0,
    ensures
        chunked(flat, size).flatten() == flat,
    decreases flat.len(),
{
    if flat.len() > 0 {
        let n = least(size, flat.len() as int);
        let tail = chunked(flat.skip(n), size);
        law_flatten_of_split(flat.skip(n), size);
        assert((seq![flat.take(n)] + tail).drop_first() =~= tail);
        assert(flat.take(n) + flat.skip(n) =~= flat);
    }
}

/// Vectors of one size are recovered from all their elements.
pub proof fn law_split_of_flatten<T>(pieces: Seq<Seq<T>>, size: int)
    requires
        size > 0,
        forall|i: int| 0 <= i < pieces.len() ==> #[trigger] pieces[i].len() == size,
    ensures
        chunked(pieces.flatten(), size) == pieces,
    decreases pieces.len(),
{
    if pieces.len() > 0 {
        let rest = pieces.drop_first();
        assert forall|i: int| 0 <= i < rest.len() implies #[trigger] rest[i].len() == size by {
            assert(rest[i] == pieces[i + 1]);
        }
        law_split_of_flatten(rest, size);
        assert(pieces[0].len() == size);
        let flat = pieces.flatten();
        assert(flat.take(size) =~= pieces[0]);
        assert(flat.skip(size) =~= rest.flatten());
        assert(seq![pieces[0]] + rest =~= pieces);
    } else {
        assert(chunked(pieces.flatten(), size) =~= pieces);
    }
}

/// There is a piece from every place on that is a multiple of `size`, and it holds
/// the elements from there on, `size` of them as far as there are so many.
pub proof fn law_pieces<T>(s: Seq<T>, size: int, i: int)
    requires
        size > 0,
        0 <= i,
    ensures
        i < chunked(s, size).len() <==> i * size < s.len(),
        i * size < s.len() && s.len() <= i * size + size ==> chunked(s, size)[i] == s.skip(
            i * size,
        ),
        i * size + size <= s.len() ==> chunked(s, size)[i] == s.subrange(
            i * size,
            i * size + size,
        ),
    decreases s.len(),
{
    assert(i * size >= 0) by (nonlinear_arith)
        requires
            i >= 0,
            size > 0,
    ;
    if s.len() > 0 {
        let n = least(size, s.len() as int);
        let rest = s.skip(n);
        if i == 0 {
            assert(i * size == 0) by (nonlinear_arith)
                requires
                    i == 0,
            ;
            assert(s.take(n) =~= s.subrange(0, n));
            assert(s.skip(0) =~= s && (n == s.len() ==> s.take(n) =~= s));
        } else {
            let j = i - 1;
            assert(i * size == j * size + size && j * size >= 0) by (nonlinear_arith)
                requires
                    i == j + 1,
                    j >= 0,
                    size > 0,
            ;
            law_pieces(rest, size, j);
            assert(chunked(s, size).len() == 1 + chunked(rest, size).len());
            if i * size < s.len() {
                assert(chunked(s, size)[i] == chunked(rest, size)[j]);
                assert(rest.skip(j * size) =~= s.skip(i * size));
                if i * size + size <= s.len() {
                    assert(rest.subrange(j * size, j * size + size) =~= s.subrange(
                        i * size,
                        i * size + size,
                    ));
                }
            }
        }
    }
}

/// The number of no bits is zero, and that of some is the first bit and twice the
/// number of the others.
pub proof fn law_number(bits: Seq<F2>)
    ensures
        bits.len() == 0 ==> number(bits) == 0,
        bits.len() > 0 ==> number(bits) == bits[0].val() + 2 * number(bits.skip(1)),
{
    if bits.len() > 0 {
        assert(truths(bits).skip(1) =~= truths(bits.skip(1)));
    }
}

/// The contents of vectors are there in the order of the vectors.
pub proof fn law_rows<T>(vectors: Seq<Vec<T>>)
    ensures
        rows(vectors).len() == vectors.len(),
        forall|i: int|
            0 <= i < vectors.len() ==> #[trigger] rows(vectors)[i] == vectors[i]@,
{
}

/// A sequence of `n` times `size` elements is cut into `n` full pieces.
pub proof fn lemma_chunked_exact<T>(s: Seq<T>, size: int, n: nat)
    requires
        size > 0,
        s.len() == n * size,
    ensures
        chunked(s, size).len() == n,
        forall|i: int|
            0 <= i < n ==> #[trigger] chunked(s, size)[i] == s.subrange(i * size, i * size + size)
                && chunked(s, size)[i].len() == size,
    decreases n,
{
    if n == 0 {
        assert(n * size == 0) by (nonlinear_arith)
            requires
                n == 0,
        ;
    } else {
        let k = (n - 1) as nat;
        assert(n * size == k * size + size) by (nonlinear_arith)
            requires
                n == k + 1,
        ;
        assert(k * size >= 0) by (nonlinear_arith)
            requires
                k >= 0,
                size > 0,
        ;
        let rest = s.skip(size);
        lemma_chunked_exact(rest, size, k);
        let all = chunked(s, size);
        assert(all == seq![s.take(size)] + chunked(rest, size));
        assert forall|i: int| 0 <= i < n implies #[trigger] all[i] == s.subrange(
            i * size,
            i * size + size,
        ) && all[i].len() == size by {
            if i == 0 {
                assert(i * size == 0) by (nonlinear_arith)
                    requires
                        i == 0,
                ;
                assert(s.take(size) =~= s.subrange(0, size));
            } else {
                let j = i - 1;
                assert(i * size == j * size + size) by (nonlinear_arith)
                    requires
                        i == j + 1,
                ;
                assert(0 <= j * size && j * size + size <= k * size) by (nonlinear_arith)
                    requires
                        0 <= j,
                        j + 1 <= k,
                        size > 0,
                ;
                assert(all[i] == chunked(rest, size)[j]);
                assert(rest.subrange(j * size, j * size + size) =~= s.subrange(
                    i * size,
                    i * size + size,
                ));
            }
        }
    }
}

/// Where element `j` of piece `i` stands once pieces of one size are put one
/// after the other.
pub proof fn lemma_flatten_index<T>(pieces: Seq<Seq<T>>, size: int, i: int, j: int)
    requires
        forall|k: int| 0 <= k < pieces.len() ==> #[trigger] pieces[k].len() == size,
        0 <= i < pieces.len(),
        0 <= j < size,
    ensures
        pieces.flatten().len() == pieces.len() * size,
        0 <= i * size + j < pieces.flatten().len(),
        pieces.flatten()[i * size + j] == pieces[i][j],
    decreases pieces.len(),
{
    let rest = pieces.drop_first();
    assert forall|k: int| 0 <= k < rest.len() implies #[trigger] rest[k].len() == size by {
        assert(rest[k] == pieces[k + 1]);
    }
    assert(pieces[0].len() == size);
    if rest.len() == 0 {
        assert(rest.flatten() =~= Seq::empty());
        assert(pieces.len() * size == size) by (nonlinear_arith)
            requires
                pieces.len() == 1,
        ;
        assert(i * size == 0) by (nonlinear_arith)
            requires
                i == 0,
        ;
    } else {
        let k = if i > 0 {
            i - 1
        } else {
            0
        };
        lemma_flatten_index(rest, size, k, j);
        assert(pieces.len() * size == rest.len() * size + size) by (nonlinear_arith)
            requires
                pieces.len() == rest.len() + 1,
        ;
        if i > 0 {
            assert(i * size == k * size + size) by (nonlinear_arith)
                requires
                    i == k + 1,
            ;
        } else {
            assert(i * size == 0) by (nonlinear_arith)
                requires
                    i == 0,
            ;
            assert(pieces.len() * size >= size) by (nonlinear_arith)
                requires
                    pieces.len() >= 1,
                    size >= 0,
            ;
        }
    }
}

} // verus!
