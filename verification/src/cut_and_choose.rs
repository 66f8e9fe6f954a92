//! Cut-and-choose: shuffling, opening a cut, and bucketing the rest.

use crate::bit_adder::{row_seq_views, seq_views};
use crate::bits::{
    chunked, convert_bits_to_field, law_pieces, least, lemma_chunked_exact, lemma_flatten_index,
    number, rows, split_bits,
};
use crate::errors::EdabitsError;
use crate::field::{FiniteField, FiniteRing, PrimeRing};
use crate::mpc_conv::Replicate;
use crate::prime_fields::F2;
use rand::Rng;
use vstd::prelude::*;

verus! {

/// The sequence with two elements exchanged.
pub open spec fn swapped<T>(s: Seq<T>, a: int, b: int) -> Seq<T> {
    s.update(a, s[b]).update(b, s[a])
}

/// Calls `swap` of std's slices on the elements of a vector, which exchanges two
/// of them.
#[verifier::external_body]
fn swap_elements<T>(v: &mut Vec<T>, a: usize, b: usize)
    requires
        a < old(v)@.len(),
        b < old(v)@.len(),
    ensures
        final(v)@ == swapped(old(v)@, a as int, b as int),
{
    v.swap(a, b)
}

/// The sequence after the first `k` exchanges of a shuffle: going down from the
/// last element, each is exchanged with the drawn one before it.
pub open spec fn shuffle_steps<T>(s: Seq<T>, draws: Seq<usize>, k: nat) -> Seq<T>
    decreases k,
{
    if k == 0 {
        s
    } else {
        swapped(shuffle_steps(s, draws, (k - 1) as nat), draws[k - 1] as int, s.len() - k)
    }
}

/// The shuffled sequence.
pub open spec fn shuffled<T>(s: Seq<T>, draws: Seq<usize>) -> Seq<T> {
    shuffle_steps(
        s,
        draws,
        if s.len() == 0 {
            0
        } else {
            (s.len() - 1) as nat
        },
    )
}

/// Whether there is a draw for every element but the first, each of an element
/// before it; the draw for the last element comes first.
pub open spec fn draws_fit(len: int, draws: Seq<usize>) -> bool {
    &&& len <= draws.len() + 1
    &&& forall|k: int| 0 <= k < len - 1 ==> #[trigger] draws[k] < len - 1 - k
}

/// The random number generator of `rand` that positions are drawn with.
#[verifier::external_type_specification]
#[verifier::external_body]
pub struct ExRandomGenerator(rand::rngs::StdRng);

/// Calls `gen_range` of `rand` on the numbers below `bound`: the result is one
/// of them. Which one is not said, as it depends on the generator's state.
#[verifier::external_body]
fn draw_below(rng: &mut rand::rngs::StdRng, bound: usize) -> (r: usize)
    requires
        bound > 0,
    ensures
        r < bound,
{
    rng.gen_range(0..bound)
}

/// Whether a number below `bound` that is drawn from the generator can be `r`, the
/// generator being before and after as the reference has it.
pub closed spec fn gives(rng: &mut rand::rngs::StdRng, bound: usize, r: usize) -> bool {
    call_ensures(draw_below, (rng, bound), r)
}

/// What a generator gives is what `draw_below` returns.
proof fn law_gives(rng: &mut rand::rngs::StdRng, bound: usize, r: usize)
    ensures
        gives(rng, bound, r) <==> call_ensures(draw_below, (rng, bound), r),
{
}

/// Draws a number below `bound` by the given function.
fn draw_with<D: Fn(&mut rand::rngs::StdRng, usize) -> usize>(
    draw: D,
    rng: &mut rand::rngs::StdRng,
    bound: usize,
) -> (r: usize)
    requires
        forall|g: &mut rand::rngs::StdRng| call_requires(draw, (g, bound)),
    ensures
        exists|g: &mut rand::rngs::StdRng|
            *g == *old(rng) && *final(g) == *final(rng) && #[trigger] call_ensures(
                draw,
                (g, bound),
                r,
            ),
{
    draw(rng, bound)
}

/// Draws one number below `bound`, and nothing else.
fn draw_one(rng: &mut rand::rngs::StdRng, bound: usize) -> (r: usize)
    requires
        bound > 0,
    ensures
        r < bound,
        exists|g: &mut rand::rngs::StdRng|
            *g == *old(rng) && *final(g) == *final(rng) && #[trigger] gives(g, bound, r),
{
    let ghost before = *rng;
    let r: usize = draw_with(draw_below, rng, bound);
    proof {
        assert(exists|g: &mut rand::rngs::StdRng|
            *g == before && *final(g) == *rng && #[trigger] gives(g, bound, r)) by {
            let g = choose|g: &mut rand::rngs::StdRng|
                *g == before && *final(g) == *rng && #[trigger] call_ensures(
                    draw_below,
                    (g, bound),
                    r,
                );
            assert(gives(g, bound, r));
        }
    }
    r
}

/// Draws the positions by which `len` elements are shuffled. Nothing is drawn for
/// fewer than two. Otherwise the generator goes through `len` states, and in going
/// from one to the next it gives one position, the first of them below `len - 1`
/// and each further one below one less.
pub fn draw_positions(rng: &mut rand::rngs::StdRng, len: usize) -> (r: Vec<usize>)
    ensures
        r@.len() == (if len == 0 {
            0
        } else {
            len - 1
        }),
        draws_fit(len as int, r@),
        len < 2 ==> *final(rng) == *old(rng),
        len >= 2 ==> exists|states: Seq<rand::rngs::StdRng>|
            {
                &&& #[trigger] states.len() == len
                &&& states[0] == *old(rng)
                &&& states[len - 1] == *final(rng)
                &&& forall|k: int|
                    0 <= k < len - 1 ==> {
                        &&& #[trigger] r@[k] < len - 1 - k
                        &&& exists|g: &mut rand::rngs::StdRng, bound: usize|
                            {
                                &&& bound == len - 1 - k
                                &&& *g == states[k]
                                &&& *final(g) == states[k + 1]
                                &&& #[trigger] gives(g, bound, r@[k])
                            }
                    }
            },
{
    let mut draws: Vec<usize> = Vec::new();
    if len < 2 {
        return draws;
    }
    let ghost mut states: Seq<rand::rngs::StdRng> = seq![*rng];
    let mut i: usize = len - 1;
    while i > 0
        invariant
            i <= len - 1,
            1 <= len,
            draws@.len() == len - 1 - i,
            forall|k: int| 0 <= k < draws@.len() ==> #[trigger] draws@[k] < len - 1 - k,
            states.len() == len - i,
            states[0] == *old(rng),
            states[len - 1 - i] == *rng,
            forall|k: int|
                0 <= k < draws@.len() ==> {
                    &&& #[trigger] draws@[k] < len - 1 - k
                    &&& exists|g: &mut rand::rngs::StdRng, bound: usize|
                        {
                            &&& bound == len - 1 - k
                            &&& *g == states[k]
                            &&& *final(g) == states[k + 1]
                            &&& #[trigger] gives(g, bound, draws@[k])
                        }
                },
        decreases i,
    {
        let ghost before = states;
        let ghost earlier = draws@;
        let drawn: usize = draw_one(rng, i);
        draws.push(drawn);
        proof {
            states = states.push(*rng);
            assert forall|k: int|
                0 <= k < draws@.len() implies {
                    &&& #[trigger] draws@[k] < len - 1 - k
                    &&& exists|g: &mut rand::rngs::StdRng, bound: usize|
                        {
                            &&& bound == len - 1 - k
                            &&& *g == states[k]
                            &&& *final(g) == states[k + 1]
                            &&& #[trigger] gives(g, bound, draws@[k])
                        }
                } by {
                assert(states[k] == before[k]);
                if k < earlier.len() {
                    assert(earlier[k] == draws@[k]);
                    assert(states[k + 1] == before[k + 1]);
                } else {
                    let g = choose|g: &mut rand::rngs::StdRng|
                        *g == before[k] && *final(g) == *rng && #[trigger] gives(g, i, drawn);
                    assert(gives(g, i, draws@[k]));
                }
            }
        }
        i = i - 1;
    }
    draws
}

/// Shuffles a vector by positions that it draws, as `draw_positions` does.
pub fn generate_permutation<T>(rng: &mut rand::rngs::StdRng, v: &mut Vec<T>)
    ensures
        exists|draws: Seq<usize>|
            draws_fit(old(v)@.len() as int, draws) && final(v)@ == #[trigger] shuffled(
                old(v)@,
                draws,
            ),
        final(v)@.len() == old(v)@.len(),
        final(v)@.to_multiset() == old(v)@.to_multiset(),
        old(v)@.len() >= 2 && old(v)@.no_duplicates() ==> forall|i: int|
            0 <= i < old(v)@.len() ==> #[trigger] final(v)@[i] != old(v)@[i],
        old(v)@.len() < 2 ==> final(v)@ == old(v)@ && *final(rng) == *old(rng),
        old(v)@.len() >= 2 ==> exists|draws: Seq<usize>, states: Seq<rand::rngs::StdRng>|
            {
                &&& final(v)@ == #[trigger] shuffled(old(v)@, draws)
                &&& draws_fit(old(v)@.len() as int, draws)
                &&& #[trigger] states.len() == old(v)@.len()
                &&& states[0] == *old(rng)
                &&& states[old(v)@.len() - 1] == *final(rng)
                &&& forall|k: int|
                    0 <= k < old(v)@.len() - 1 ==> {
                        &&& #[trigger] draws[k] < old(v)@.len() - 1 - k
                        &&& exists|g: &mut rand::rngs::StdRng, bound: usize|
                            {
                                &&& bound == old(v)@.len() - 1 - k
                                &&& *g == states[k]
                                &&& *final(g) == states[k + 1]
                                &&& #[trigger] gives(g, bound, draws[k])
                            }
                    }
            },
{
    let draws = draw_positions(rng, v.len());
    let ghost before = v@;
    permute_by_draws(draws.as_slice(), v);
    proof {
        law_shuffle_keeps_elements(before, draws@);
        assert(v@ == shuffled(before, draws@));
        if before.len() >= 2 && before.no_duplicates() {
            law_shuffle_moves_all(before, draws@);
        }
    }
}

/// Shuffles a vector by the drawn positions.
pub fn permute_by_draws<T>(draws: &[usize], v: &mut Vec<T>)
    requires
        draws_fit(old(v)@.len() as int, draws@),
    ensures
        final(v)@ == shuffled(old(v)@, draws@),
{
    if v.len() == 0 {
        return ;
    }
    let ghost before = v@;
    let len: usize = v.len();
    let mut k: usize = 0;
    proof {
        lemma_shuffle_len(before, draws@, 0);
    }
    while k < len - 1
        invariant
            k <= len - 1,
            1 <= len,
            len == before.len(),
            v@.len() == len,
            draws_fit(len as int, draws@),
            v@ == shuffle_steps(before, draws@, k as nat),
        decreases len - k,
    {
        let i: usize = len - 1 - k;
        let idx: usize = draws[k];
        assert(draws@[k as int] < len - 1 - k);
        swap_elements(v, idx, i);
        k = k + 1;
    }
}

proof fn lemma_shuffle_len<T>(s: Seq<T>, draws: Seq<usize>, k: nat)
    requires
        draws_fit(s.len() as int, draws),
        k < s.len() || k == 0,
    ensures
        shuffle_steps(s, draws, k).len() == s.len(),
    decreases k,
{
    if k > 0 {
        lemma_shuffle_len(s, draws, (k - 1) as nat);
        assert(draws[k - 1] < s.len() - 1 - (k - 1));
    }
}

proof fn lemma_swapped_multiset<T>(s: Seq<T>, a: int, b: int)
    requires
        0 <= a < s.len(),
        0 <= b < s.len(),
    ensures
        swapped(s, a, b).to_multiset() =~= s.to_multiset(),
{
    vstd::seq_lib::to_multiset_update(s, a, s[b]);
    vstd::seq_lib::to_multiset_update(s.update(a, s[b]), b, s[a]);
    broadcast use vstd::seq_lib::group_to_multiset_ensures;
    if a == b {
        assert(swapped(s, a, b) =~= s);
    } else {
        assert(s.update(a, s[b])[b] == s[b]);
        assert(s.to_multiset().count(s[a]) > 0);
    }
}

proof fn lemma_shuffle_steps_multiset<T>(s: Seq<T>, draws: Seq<usize>, k: nat)
    requires
        draws_fit(s.len() as int, draws),
        k < s.len() || k == 0,
    ensures
        shuffle_steps(s, draws, k).to_multiset() =~= s.to_multiset(),
    decreases k,
{
    if k > 0 {
        lemma_shuffle_steps_multiset(s, draws, (k - 1) as nat);
        lemma_shuffle_len(s, draws, (k - 1) as nat);
        assert(draws[k - 1] < s.len() - 1 - (k - 1));
        lemma_swapped_multiset(
            shuffle_steps(s, draws, (k - 1) as nat),
            draws[k - 1] as int,
            s.len() - k,
        );
    }
}

/// Shuffling keeps the elements.
pub proof fn law_shuffle_keeps_elements<T>(s: Seq<T>, draws: Seq<usize>)
    requires
        draws_fit(s.len() as int, draws),
    ensures
        shuffled(s, draws).len() == s.len(),
        shuffled(s, draws).to_multiset() == s.to_multiset(),
{
    let k: nat = if s.len() == 0 {
        0
    } else {
        (s.len() - 1) as nat
    };
    lemma_shuffle_len(s, draws, k);
    lemma_shuffle_steps_multiset(s, draws, k);
}

proof fn lemma_shuffle_steps_property<T>(
    s: Seq<T>,
    p: spec_fn(T) -> bool,
    draws: Seq<usize>,
    k: nat,
)
    requires
        draws_fit(s.len() as int, draws),
        k < s.len() || k == 0,
        forall|i: int| 0 <= i < s.len() ==> p(#[trigger] s[i]),
    ensures
        shuffle_steps(s, draws, k).len() == s.len(),
        forall|i: int| 0 <= i < s.len() ==> p(#[trigger] shuffle_steps(s, draws, k)[i]),
    decreases k,
{
    lemma_shuffle_len(s, draws, k);
    if k > 0 {
        let j = (k - 1) as nat;
        lemma_shuffle_steps_property(s, p, draws, j);
        assert(draws[k - 1] < s.len() - 1 - (k - 1));
        let before = shuffle_steps(s, draws, j);
        let (a, b) = (draws[k - 1] as int, s.len() - k);
        assert(p(before[a]) && p(before[b]));
        assert forall|i: int| 0 <= i < s.len() implies p(
            #[trigger] shuffle_steps(s, draws, k)[i],
        ) by {
            assert(p(before[i]));
        }
    }
}

/// What holds of every element still does when they are shuffled.
pub proof fn law_shuffle_keeps_property<T>(s: Seq<T>, p: spec_fn(T) -> bool, draws: Seq<usize>)
    requires
        draws_fit(s.len() as int, draws),
        forall|i: int| 0 <= i < s.len() ==> p(#[trigger] s[i]),
    ensures
        forall|i: int| 0 <= i < s.len() ==> p(#[trigger] shuffled(s, draws)[i]),
{
    let k: nat = if s.len() == 0 {
        0
    } else {
        (s.len() - 1) as nat
    };
    lemma_shuffle_steps_property(s, p, draws, k);
}

proof fn lemma_shuffle_steps_map<T, U>(s: Seq<T>, f: spec_fn(T) -> U, draws: Seq<usize>, k: nat)
    requires
        draws_fit(s.len() as int, draws),
        k < s.len() || k == 0,
    ensures
        shuffle_steps(s.map_values(f), draws, k) =~= shuffle_steps(s, draws, k).map_values(f),
    decreases k,
{
    if k > 0 {
        let j = (k - 1) as nat;
        lemma_shuffle_steps_map(s, f, draws, j);
        lemma_shuffle_len(s, draws, j);
        lemma_shuffle_len(s.map_values(f), draws, j);
        assert(draws[k - 1] < s.len() - 1 - (k - 1));
        let (p, q) = (shuffle_steps(s, draws, j), shuffle_steps(s.map_values(f), draws, j));
        assert(swapped(q, draws[k - 1] as int, s.len() - k) =~= swapped(
            p,
            draws[k - 1] as int,
            s.len() - k,
        ).map_values(f));
    }
}

/// Sequences that correspond element by element still do so when they are
/// shuffled by the same draws.
pub proof fn law_shuffle_corresponds<T, U>(s: Seq<T>, f: spec_fn(T) -> U, draws: Seq<usize>)
    requires
        draws_fit(s.len() as int, draws),
    ensures
        shuffled(s.map_values(f), draws) == shuffled(s, draws).map_values(f),
{
    let k: nat = if s.len() == 0 {
        0
    } else {
        (s.len() - 1) as nat
    };
    lemma_shuffle_steps_map(s, f, draws, k);
}

proof fn lemma_shuffle_steps_rest<T>(s: Seq<T>, draws: Seq<usize>, k: nat)
    requires
        draws_fit(s.len() as int, draws),
        1 <= k < s.len(),
    ensures
        ({
            let rest = s.update(draws[0] as int, s.last()).drop_last();
            &&& shuffle_steps(s, draws, k).last() == s[draws[0] as int]
            &&& shuffle_steps(s, draws, k).drop_last() == shuffle_steps(
                rest,
                draws.skip(1),
                (k - 1) as nat,
            )
        }),
    decreases k,
{
    let rest = s.update(draws[0] as int, s.last()).drop_last();
    let after = draws.skip(1);
    assert(draws[0] < s.len() - 1);
    assert forall|j: int| 0 <= j < rest.len() - 1 implies #[trigger] after[j] < rest.len() - 1
        - j by {
        assert(after[j] == draws[j + 1]);
    }
    lemma_shuffle_len(s, draws, k);
    if k == 1 {
        assert(shuffle_steps(s, draws, 0) == s);
        assert(shuffle_steps(s, draws, k).drop_last() =~= rest);
    } else {
        let j = (k - 1) as nat;
        let (p, q) = (shuffle_steps(s, draws, j), shuffle_steps(rest, after, (j - 1) as nat));
        lemma_shuffle_steps_rest(s, draws, j);
        lemma_shuffle_len(s, draws, j);
        lemma_shuffle_len(rest, after, (j - 1) as nat);
        assert(draws[k - 1] < s.len() - k);
        assert(after[k - 2] == draws[k - 1]);
        assert forall|i: int| 0 <= i < q.len() implies p[i] == q[i] by {
            assert(p.drop_last()[i] == q[i]);
        }
        assert(shuffle_steps(s, draws, k).drop_last() =~= shuffle_steps(rest, after, j));
    }
}

/// The element that is drawn first ends up in the last place, the last one takes
/// its place, and all but the last place are shuffled by the other draws.
pub proof fn law_shuffle_draws<T>(s: Seq<T>, draws: Seq<usize>)
    requires
        draws_fit(s.len() as int, draws),
    ensures
        s.len() < 2 ==> shuffled(s, draws) == s,
        s.len() >= 2 ==> {
            &&& draws[0] < s.len() - 1
            &&& shuffled(s, draws).last() == s[draws[0] as int]
            &&& shuffled(s, draws).drop_last() == shuffled(
                s.update(draws[0] as int, s.last()).drop_last(),
                draws.skip(1),
            )
        },
{
    if s.len() >= 2 {
        assert(draws[0] < s.len() - 1 - 0);
        lemma_shuffle_steps_rest(s, draws, (s.len() - 1) as nat);
    }
}

/// Sequences of different elements that are shuffled alike were drawn for alike:
/// every draw tells in the result.
pub proof fn law_shuffle_tells_draws<T>(s: Seq<T>, draws: Seq<usize>, others: Seq<usize>)
    requires
        s.no_duplicates(),
        draws_fit(s.len() as int, draws),
        draws_fit(s.len() as int, others),
        shuffled(s, draws) == shuffled(s, others),
    ensures
        forall|k: int| 0 <= k < s.len() - 1 ==> #[trigger] draws[k] == others[k],
    decreases s.len(),
{
    law_shuffle_draws(s, draws);
    law_shuffle_draws(s, others);
    if s.len() >= 2 {
        assert(draws[0] == others[0]);
        let rest = s.update(draws[0] as int, s.last()).drop_last();
        let (a, b) = (draws.skip(1), others.skip(1));
        assert forall|j: int| 0 <= j < rest.len() - 1 implies #[trigger] a[j] < rest.len() - 1
            - j by {
            assert(a[j] == draws[j + 1]);
        }
        assert forall|j: int| 0 <= j < rest.len() - 1 implies #[trigger] b[j] < rest.len() - 1
            - j by {
            assert(b[j] == others[j + 1]);
        }
        law_shuffle_tells_draws(rest, a, b);
        assert forall|k: int| 0 <= k < s.len() - 1 implies #[trigger] draws[k] == others[k] by {
            if k > 0 {
                assert(a[k - 1] == b[k - 1]);
            }
        }
    }
}

/// Which position each element of a shuffled sequence comes from.
pub open spec fn source_positions(len: nat, draws: Seq<usize>) -> Seq<int> {
    shuffled(Seq::new(len, |i: int| i), draws)
}

/// Shuffling by the same draws takes the elements from the same positions,
/// whatever the elements are.
pub proof fn law_shuffle_positions<T>(s: Seq<T>, draws: Seq<usize>)
    requires
        draws_fit(s.len() as int, draws),
    ensures
        source_positions(s.len(), draws).len() == s.len(),
        shuffled(s, draws).len() == s.len(),
        forall|i: int|
            0 <= i < s.len() ==> 0 <= #[trigger] source_positions(s.len(), draws)[i] < s.len(),
        forall|i: int|
            0 <= i < s.len() ==> #[trigger] shuffled(s, draws)[i] == s[source_positions(
                s.len(),
                draws,
            )[i]],
{
    let positions = Seq::new(s.len(), |i: int| i);
    let element = |i: int| s[i];
    law_shuffle_keeps_elements(positions, draws);
    law_shuffle_keeps_elements(s, draws);
    let inside = |i: int| 0 <= i < s.len();
    law_shuffle_keeps_property(positions, inside, draws);
    law_shuffle_corresponds(positions, element, draws);
    assert(positions.map_values(element) =~= s);
    assert forall|i: int| 0 <= i < s.len() implies 0 <= #[trigger] source_positions(
        s.len(),
        draws,
    )[i] < s.len() by {
        assert(inside(shuffled(positions, draws)[i]));
    }
}

proof fn lemma_shuffle_steps_distinct<T>(s: Seq<T>, draws: Seq<usize>, k: nat)
    requires
        draws_fit(s.len() as int, draws),
        k < s.len() || k == 0,
        s.no_duplicates(),
    ensures
        shuffle_steps(s, draws, k).no_duplicates(),
    decreases k,
{
    if k > 0 {
        lemma_shuffle_steps_distinct(s, draws, (k - 1) as nat);
        lemma_shuffle_len(s, draws, (k - 1) as nat);
        assert(draws[k - 1] < s.len() - 1 - (k - 1));
    }
}

/// No two elements of a shuffled sequence come from the same position, and from
/// every position comes one.
pub proof fn law_shuffle_positions_distinct(len: nat, draws: Seq<usize>)
    requires
        draws_fit(len as int, draws),
    ensures
        source_positions(len, draws).no_duplicates(),
        forall|p: int| 0 <= p < len ==> source_positions(len, draws).contains(p),
{
    let positions = Seq::new(len, |i: int| i);
    let k: nat = if len == 0 {
        0
    } else {
        (len - 1) as nat
    };
    lemma_shuffle_steps_distinct(positions, draws, k);
    law_shuffle_keeps_elements(positions, draws);
    broadcast use vstd::seq_lib::group_to_multiset_ensures;

    assert forall|p: int| 0 <= p < len implies source_positions(len, draws).contains(p) by {
        assert(positions[p] == p);
        assert(positions.contains(p));
        assert(positions.to_multiset().count(p) > 0);
    }
}

/// Where one is after going `t` times from a position to the one that `q` holds
/// there.
pub open spec fn follow(q: Seq<int>, i: int, t: nat) -> int
    decreases t,
{
    if t == 0 {
        i
    } else {
        follow(q, q[i], (t - 1) as nat)
    }
}

proof fn lemma_follow_concat(q: Seq<int>, i: int, s: nat, t: nat)
    ensures
        follow(q, i, s + t) == follow(q, follow(q, i, s), t),
    decreases s,
{
    if s > 0 {
        lemma_follow_concat(q, q[i], (s - 1) as nat, t);
        assert((s + t - 1) as nat == (s - 1) as nat + t);
    }
}

/// Whether `t` steps lead from `x` to `y`, each of them from a position that is
/// at least `m`.
spec fn leads(q: Seq<int>, m: int, x: int, y: int, t: nat) -> bool
    decreases t,
{
    if t == 0 {
        x == y
    } else {
        m <= x < q.len() && leads(q, m, q[x], y, (t - 1) as nat)
    }
}

spec fn leads_to(q: Seq<int>, m: int, x: int, y: int) -> bool {
    exists|t: nat| leads(q, m, x, y, t)
}

proof fn lemma_leads_steps(q: Seq<int>, p: Seq<int>, m: int, n: int, x: int, y: int, t: nat)
    requires
        leads(q, m, x, y, t),
        n <= m,
        q.len() == p.len(),
        forall|i: int| m <= i < q.len() ==> #[trigger] p[i] == q[i],
    ensures
        leads(p, n, x, y, t),
        follow(q, x, t) == y,
    decreases t,
{
    if t > 0 {
        assert(p[x] == q[x]);
        lemma_leads_steps(q, p, m, n, q[x], y, (t - 1) as nat);
    }
}

proof fn lemma_leads_to_transfer(q: Seq<int>, p: Seq<int>, m: int, n: int, x: int, y: int)
    requires
        leads_to(q, m, x, y),
        n <= m,
        q.len() == p.len(),
        forall|i: int| m <= i < q.len() ==> #[trigger] p[i] == q[i],
    ensures
        leads_to(p, n, x, y),
{
    let t = choose|t: nat| leads(q, m, x, y, t);
    lemma_leads_steps(q, p, m, n, x, y, t);
}

proof fn lemma_leads_concat(q: Seq<int>, m: int, x: int, y: int, z: int, s: nat, t: nat)
    requires
        leads(q, m, x, y, s),
        leads(q, m, y, z, t),
    ensures
        leads(q, m, x, z, s + t),
    decreases s,
{
    if s > 0 {
        lemma_leads_concat(q, m, q[x], y, z, (s - 1) as nat, t);
        assert((s + t - 1) as nat == (s - 1) as nat + t);
    }
}

proof fn lemma_leads_to_concat(q: Seq<int>, m: int, x: int, y: int, z: int)
    requires
        leads_to(q, m, x, y),
        leads_to(q, m, y, z),
    ensures
        leads_to(q, m, x, z),
{
    let s = choose|t: nat| leads(q, m, x, y, t);
    let t = choose|t: nat| leads(q, m, y, z, t);
    lemma_leads_concat(q, m, x, y, z, s, t);
}

/// Whether a path leads from `i` to a position below `m`.
spec fn comes_down(q: Seq<int>, m: int, i: int) -> bool {
    exists|c: int| 0 <= c < m && #[trigger] leads_to(q, m, i, c)
}

/// Whether a path leads to `i` from a position below `m`.
spec fn is_reached(q: Seq<int>, m: int, i: int) -> bool {
    exists|c: int| 0 <= c < m && leads_to(q, m, #[trigger] q[c], i)
}

/// Whether the positions from `m` on lie on paths between the positions below
/// `m`, each of which ends where it began.
spec fn paths_close(q: Seq<int>, m: int) -> bool {
    &&& 1 <= m <= q.len()
    &&& forall|c: int| 0 <= c < m ==> leads_to(q, m, #[trigger] q[c], c)
    &&& forall|i: int| m <= i < q.len() ==> #[trigger] comes_down(q, m, i)
    &&& forall|i: int| m <= i < q.len() ==> #[trigger] is_reached(q, m, i)
}

proof fn lemma_paths_close_step(q: Seq<int>, m: int, a: int)
    requires
        paths_close(q, m),
        0 <= a < m - 1,
    ensures
        paths_close(swapped(q, a, m - 1), m - 1),
{
    let b = m - 1;
    let p = swapped(q, a, b);
    assert(leads_to(q, m, q[a], a));
    assert(leads_to(q, m, q[b], b));
    lemma_leads_to_transfer(q, p, m, b, q[a], a);
    lemma_leads_to_transfer(q, p, m, b, q[b], b);
    assert(leads_to(p, b, b, q[a])) by {
        assert(leads(p, b, p[b], q[a], 0));
        assert(leads(p, b, b, q[a], 1));
    }
    lemma_leads_to_concat(p, b, b, q[a], a);
    lemma_leads_to_concat(p, b, q[b], b, a);
    assert forall|c: int| 0 <= c < b implies leads_to(p, b, #[trigger] p[c], c) by {
        if c != a {
            assert(leads_to(q, m, q[c], c));
            lemma_leads_to_transfer(q, p, m, b, q[c], c);
        }
    }
    assert forall|i: int| b <= i < p.len() implies #[trigger] comes_down(p, b, i) by {
        if i == b {
            assert(leads_to(p, b, i, a));
        } else {
            assert(comes_down(q, m, i));
            let c = choose|c: int| 0 <= c < m && #[trigger] leads_to(q, m, i, c);
            lemma_leads_to_transfer(q, p, m, b, i, c);
            if c == b {
                lemma_leads_to_concat(p, b, i, b, a);
                assert(leads_to(p, b, i, a));
            } else {
                assert(leads_to(p, b, i, c));
            }
        }
    }
    assert forall|i: int| b <= i < p.len() implies #[trigger] is_reached(p, b, i) by {
        if i == b {
            assert(leads_to(p, b, p[a], i));
        } else {
            assert(is_reached(q, m, i));
            let c = choose|c: int| 0 <= c < m && leads_to(q, m, #[trigger] q[c], i);
            lemma_leads_to_transfer(q, p, m, b, q[c], i);
            if c == b {
                assert(leads_to(p, b, p[a], i));
            } else if c == a {
                lemma_leads_to_concat(p, b, b, q[a], i);
                lemma_leads_to_concat(p, b, q[b], b, i);
                assert(leads_to(p, b, p[a], i));
            } else {
                assert(leads_to(p, b, p[c], i));
            }
        }
    }
}

proof fn lemma_paths_close(len: nat, draws: Seq<usize>, k: nat)
    requires
        draws_fit(len as int, draws),
        k < len,
    ensures
        paths_close(shuffle_steps(Seq::new(len, |i: int| i), draws, k), len - k),
        shuffle_steps(Seq::new(len, |i: int| i), draws, k).len() == len,
    decreases k,
{
    let start = Seq::new(len, |i: int| i);
    lemma_shuffle_len(start, draws, k);
    if k == 0 {
        assert forall|c: int| 0 <= c < len implies leads_to(
            start,
            len as int,
            #[trigger] start[c],
            c,
        ) by {
            assert(leads(start, len as int, start[c], c, 0));
        }
    } else {
        let j = (k - 1) as nat;
        lemma_paths_close(len, draws, j);
        assert(draws[k - 1] < len - 1 - (k - 1));
        lemma_paths_close_step(shuffle_steps(start, draws, j), len - j, draws[k - 1] as int);
    }
}

/// A shuffle is one cycle over all positions: going from a position to the one
/// that its element comes from leads from any position to any other.
pub proof fn law_shuffle_is_one_cycle(len: nat, draws: Seq<usize>, i: int, j: int)
    requires
        draws_fit(len as int, draws),
        0 <= i < len,
        0 <= j < len,
    ensures
        exists|t: nat| #[trigger] follow(source_positions(len, draws), i, t) == j,
{
    let q = source_positions(len, draws);
    lemma_paths_close(len, draws, (len - 1) as nat);
    assert(paths_close(q, 1));
    let s: nat = if i == 0 {
        0
    } else {
        choose|t: nat| leads(q, 1, i, 0, t)
    };
    assert(follow(q, i, s) == 0) by {
        if i != 0 {
            assert(comes_down(q, 1, i));
            assert(leads_to(q, 1, i, 0));
            lemma_leads_steps(q, q, 1, 1, i, 0, s);
        }
    }
    let t: nat = if j == 0 {
        0
    } else {
        1 + choose|t: nat| leads(q, 1, q[0], j, t)
    };
    assert(follow(q, 0, t) == j) by {
        if j != 0 {
            assert(is_reached(q, 1, j));
            assert(leads_to(q, 1, q[0], j));
            lemma_leads_steps(q, q, 1, 1, q[0], j, (t - 1) as nat);
        }
    }
    lemma_follow_concat(q, i, s, t);
}

proof fn lemma_follow_fixed(q: Seq<int>, i: int, t: nat)
    requires
        q[i] == i,
    ensures
        follow(q, i, t) == i,
    decreases t,
{
    if t > 0 {
        lemma_follow_fixed(q, i, (t - 1) as nat);
    }
}

/// From two elements on, none of them keeps its place when they are shuffled.
pub proof fn law_shuffle_moves_all<T>(s: Seq<T>, draws: Seq<usize>)
    requires
        draws_fit(s.len() as int, draws),
        s.no_duplicates(),
        s.len() >= 2,
    ensures
        forall|i: int| 0 <= i < s.len() ==> #[trigger] shuffled(s, draws)[i] != s[i],
{
    let q = source_positions(s.len(), draws);
    law_shuffle_positions(s, draws);
    assert forall|i: int| 0 <= i < s.len() implies #[trigger] shuffled(s, draws)[i] != s[i] by {
        let other: int = if i == 0 {
            1
        } else {
            0
        };
        law_shuffle_is_one_cycle(s.len(), draws, i, other);
        let t = choose|t: nat| #[trigger] follow(q, i, t) == other;
        if q[i] == i {
            lemma_follow_fixed(q, i, t);
        }
    }
}

/// The seed that two peers draw together.
pub fn joint_block(local: u128, remote: u128) -> (r: u128)
    ensures
        r == local ^ remote,
{
    local ^ remote
}

/// Both peers get the same seed.
pub proof fn law_joint_block(a: u128, b: u128)
    ensures
        a ^ b == b ^ a,
{
    assert(a ^ b == b ^ a) by (bit_vector);
}

/// How many private edaBits are sampled to get `num` checked ones.
pub fn random_edabits_needed(num: usize, num_bucket: usize, num_cut: usize) -> (r: usize)
    requires
        num * num_bucket + num_cut <= usize::MAX,
    ensures
        r == num * num_bucket + num_cut,
{
    assert(0 <= num * num_bucket) by (nonlinear_arith)
        requires
            0 <= num,
            0 <= num_bucket,
    ;
    num * num_bucket + num_cut
}

/// How many private triples are sampled to get `num` checked edaBits.
pub fn random_triples_needed(
    num: usize,
    num_bucket: usize,
    num_cut: usize,
    bit_size: usize,
) -> (r: usize)
    requires
        num_bucket >= 1,
        num * (num_bucket - 1) <= usize::MAX,
        num * (num_bucket - 1) * bit_size + num_cut * bit_size <= usize::MAX,
    ensures
        r == num * (num_bucket - 1) * bit_size + num_cut * bit_size,
{
    assert(0 <= num * (num_bucket - 1)) by (nonlinear_arith)
        requires
            0 <= num,
            1 <= num_bucket,
    ;
    let pairs: usize = num * (num_bucket - 1);
    assert(0 <= pairs * bit_size && 0 <= num_cut * bit_size) by (nonlinear_arith)
        requires
            0 <= pairs,
            0 <= bit_size,
            0 <= num_cut,
    ;
    pairs * bit_size + num_cut * bit_size
}

/// Whether bits, cut into groups, denote the values.
pub open spec fn groups_denote<FE: FiniteField>(
    bits: Seq<F2>,
    values: Seq<FE::PrimeField>,
    bit_size: int,
) -> bool {
    forall|i: int|
        0 <= i < least(chunked(bits, bit_size).len() as int, values.len() as int)
            ==> #[trigger] values[i].val() == number(chunked(bits, bit_size)[i]) as int
            % FE::PrimeField::order()
}

/// Bits denote the values exactly if those from every multiple of `bit_size` on are
/// the binary digits of the value of that number, `bit_size` of them as far as there
/// are so many.
pub proof fn law_groups_denote<FE: FiniteField>(
    bits: Seq<F2>,
    values: Seq<FE::PrimeField>,
    bit_size: int,
)
    requires
        bit_size > 0,
    ensures
        groups_denote::<FE>(bits, values, bit_size) <==> forall|i: int|
            0 <= i < values.len() && i * bit_size < bits.len() ==> #[trigger] values[i].val()
                == number(
                bits.subrange(
                    i * bit_size,
                    if i * bit_size + bit_size <= bits.len() {
                        i * bit_size + bit_size
                    } else {
                        bits.len() as int
                    },
                ),
            ) as int % FE::PrimeField::order(),
{
    assert forall|i: int| 0 <= i < values.len() implies {
        let end = if i * bit_size + bit_size <= bits.len() {
            i * bit_size + bit_size
        } else {
            bits.len() as int
        };
        &&& #[trigger] values[i].val() == values[i].val()
        &&& i < chunked(bits, bit_size).len() <==> i * bit_size < bits.len()
        &&& i * bit_size < bits.len() ==> chunked(bits, bit_size)[i] == bits.subrange(
            i * bit_size,
            end,
        )
    } by {
        law_pieces(bits, bit_size, i);
        assert(i * bit_size >= 0) by (nonlinear_arith)
            requires
                i >= 0,
                bit_size > 0,
        ;
        if i * bit_size < bits.len() {
            assert(bits.skip(i * bit_size) =~= bits.subrange(i * bit_size, bits.len() as int));
        }
    }
}

/// Whether the opened bits, in groups of `bit_size`, denote the opened values.
fn check_groups<FE: FiniteField>(
    opened_bits: &[F2],
    opened_values: &[FE::PrimeField],
    bit_size: usize,
) -> (r: bool)
    requires
        bit_size > 0,
    ensures
        r == groups_denote::<FE>(opened_bits@, opened_values@, bit_size as int),
{
    let groups = split_bits(opened_bits, bit_size);
    let mut i: usize = 0;
    while i < groups.len() && i < opened_values.len()
        invariant
            i <= groups.len(),
            i <= opened_values.len(),
            rows(groups@) == chunked(opened_bits@, bit_size as int),
            forall|j: int|
                0 <= j < i ==> #[trigger] opened_values@[j].val() == number(rows(groups@)[j]) as int
                    % FE::PrimeField::order(),
        decreases groups.len() - i,
    {
        let value = convert_bits_to_field::<FE>(groups[i].as_slice());
        assert(rows(groups@)[i as int] == groups@[i as int]@);
        if !value.equals(opened_values[i]) {
            assert(opened_values@[i as int].val() != number(rows(groups@)[i as int]) as int
                % FE::PrimeField::order());
            return false;
        }
        i = i + 1;
    }
    assert(rows(groups@).len() == groups@.len());
    true
}

/// Checks that opened edaBits are consistent.
pub fn check_opened_edabits<FE: FiniteField>(
    opened_bits: &[F2],
    opened_values: &[FE::PrimeField],
    bit_size: usize,
) -> (r: Result<(), EdabitsError>)
    requires
        bit_size > 0,
    ensures
        r == (if groups_denote::<FE>(opened_bits@, opened_values@, bit_size as int) {
            Ok::<(), EdabitsError>(())
        } else {
            Err(EdabitsError::InconsistentEdabit)
        }),
        r is Ok ==> forall|i: int|
            0 <= i < opened_values@.len() && i * bit_size + bit_size <= opened_bits@.len()
                ==> #[trigger] opened_values@[i].val() == number(
                opened_bits@.subrange(i * bit_size, i * bit_size + bit_size),
            ) as int % FE::PrimeField::order(),
{
    proof {
        law_groups_denote::<FE>(opened_bits@, opened_values@, bit_size as int);
    }
    if check_groups::<FE>(opened_bits, opened_values, bit_size) {
        Ok(())
    } else {
        Err(EdabitsError::InconsistentEdabit)
    }
}

/// Checks that the opened sums of the pairs of all buckets are consistent.
pub fn check_opened_buckets<FE: FiniteField>(
    opened_bits: &[F2],
    opened_values: &[FE::PrimeField],
    bit_size: usize,
) -> (r: Result<(), EdabitsError>)
    requires
        bit_size > 0,
    ensures
        r == (if groups_denote::<FE>(opened_bits@, opened_values@, bit_size as int) {
            Ok::<(), EdabitsError>(())
        } else {
            Err(EdabitsError::InconsistentBucket)
        }),
        r is Ok ==> forall|i: int|
            0 <= i < opened_values@.len() && i * bit_size + bit_size <= opened_bits@.len()
                ==> #[trigger] opened_values@[i].val() == number(
                opened_bits@.subrange(i * bit_size, i * bit_size + bit_size),
            ) as int % FE::PrimeField::order(),
{
    proof {
        law_groups_denote::<FE>(opened_bits@, opened_values@, bit_size as int);
    }
    if check_groups::<FE>(opened_bits, opened_values, bit_size) {
        Ok(())
    } else {
        Err(EdabitsError::InconsistentBucket)
    }
}

/// The product of two bits is one exactly if both of them are.
pub proof fn law_bit_product(a: F2, b: F2)
    ensures
        F2::times(a.val(), b.val()) == a.val() * b.val(),
        F2::times(a.val(), b.val()) == 1 <==> a.val() == 1 && b.val() == 1,
{
}

/// Whether each of the first `n` bits of `c` is the product of those of `a` and
/// `b`.
pub open spec fn bits_multiply(a: Seq<F2>, b: Seq<F2>, c: Seq<F2>, n: int) -> bool {
    forall|i: int|
        0 <= i < n ==> #[trigger] c[i].val() == F2::times(a[i].val(), b[i].val())
}

/// Checks that opened triples are products.
pub fn check_opened_triples(a: &[F2], b: &[F2], c: &[F2]) -> (r: Result<(), EdabitsError>)
    ensures
        r == (if bits_multiply(
            a@,
            b@,
            c@,
            least(a@.len() as int, least(b@.len() as int, c@.len() as int)),
        ) {
            Ok::<(), EdabitsError>(())
        } else {
            Err(EdabitsError::InconsistentTriple)
        }),
        r is Ok <==> forall|i: int|
            0 <= i < a@.len() && i < b@.len() && i < c@.len() ==> #[trigger] c@[i].val()
                == a@[i].val() * b@[i].val(),
{
    proof {
        assert forall|x: F2, y: F2| #[trigger] F2::times(x.val(), y.val()) == x.val()
            * y.val() by {
            law_bit_product(x, y);
        }
    }
    let mut i: usize = 0;
    while i < a.len() && i < b.len() && i < c.len()
        invariant
            i <= a.len(),
            i <= b.len(),
            i <= c.len(),
            bits_multiply(a@, b@, c@, i as int),
        decreases a.len() - i,
    {
        if !a[i].mul(b[i]).equals(c[i]) {
            assert(c@[i as int].val() != F2::times(a@[i as int].val(), b@[i as int].val()));
            return Err(EdabitsError::InconsistentTriple);
        }
        i = i + 1;
    }
    Ok(())
}

/// A shared triple with its secret, which its owner knows.
#[derive(Clone, Copy)]
pub struct PrivateBitTriple<T> {
    pub clear_a: F2,
    pub clear_b: F2,
    pub clear_c: F2,
    pub shared: T,
}

/// Whether the first `num` triples are products.
pub open spec fn triples_multiply<T>(triples: Seq<PrivateBitTriple<T>>, num: int) -> bool {
    forall|i: int|
        0 <= i < num ==> #[trigger] triples[i].clear_c.val() == F2::times(
            triples[i].clear_a.val(),
            triples[i].clear_b.val(),
        )
}

/// Checks that the first `num` triples of this peer are products.
pub fn check_private_triples<T: Copy>(triples: &[PrivateBitTriple<T>], num: usize) -> (r: Result<
    (),
    EdabitsError,
>)
    requires
        num <= triples@.len(),
    ensures
        r == (if triples_multiply(triples@, num as int) {
            Ok::<(), EdabitsError>(())
        } else {
            Err(EdabitsError::IncorrectTriple)
        }),
        r is Ok <==> forall|i: int|
            0 <= i < num ==> #[trigger] triples@[i].clear_c.val() == triples@[i].clear_a.val()
                * triples@[i].clear_b.val(),
{
    proof {
        assert forall|x: F2, y: F2| #[trigger] F2::times(x.val(), y.val()) == x.val()
            * y.val() by {
            law_bit_product(x, y);
        }
    }
    let mut i: usize = 0;
    while i < num
        invariant
            i <= num,
            num <= triples@.len(),
            triples_multiply(triples@, i as int),
        decreases num - i,
    {
        let (a, b, c) = (triples[i].clear_a, triples[i].clear_b, triples[i].clear_c);
        if !a.mul(b).equals(c) {
            assert(triples@[i as int].clear_c.val() != F2::times(
                triples@[i as int].clear_a.val(),
                triples@[i as int].clear_b.val(),
            ));
            return Err(EdabitsError::IncorrectTriple);
        }
        i = i + 1;
    }
    Ok(())
}

/// This peer's own triples, from their clear bits and the shares of them.
pub fn assemble_private_triples<T: Copy>(clear: (&[F2], &[F2], &[F2]), shared: &[T]) -> (r: Vec<
    PrivateBitTriple<T>,
>)
    requires
        clear.0@.len() == shared@.len(),
        clear.1@.len() == shared@.len(),
        clear.2@.len() == shared@.len(),
    ensures
        r@.len() == shared@.len(),
        forall|i: int|
            0 <= i < r@.len() ==> #[trigger] r@[i] == (PrivateBitTriple {
                clear_a: clear.0@[i],
                clear_b: clear.1@[i],
                clear_c: clear.2@[i],
                shared: shared@[i],
            }),
{
    let (a, b, c) = clear;
    let mut out: Vec<PrivateBitTriple<T>> = Vec::new();
    let mut i: usize = 0;
    while i < shared.len()
        invariant
            i <= shared.len(),
            a@.len() == shared@.len(),
            b@.len() == shared@.len(),
            c@.len() == shared@.len(),
            out@.len() == i,
            forall|j: int|
                0 <= j < i ==> #[trigger] out@[j] == (PrivateBitTriple {
                    clear_a: a@[j],
                    clear_b: b@[j],
                    clear_c: c@[j],
                    shared: shared@[j],
                }),
        decreases shared.len() - i,
    {
        out.push(
            PrivateBitTriple { clear_a: a[i], clear_b: b[i], clear_c: c[i], shared: shared[i] },
        );
        i = i + 1;
    }
    out
}

/// The shares of private triples.
pub fn shared_triples<T: Copy>(triples: &[PrivateBitTriple<T>]) -> (r: Vec<T>)
    ensures
        r@ == Seq::new(triples@.len(), |i: int| triples@[i].shared),
{
    let mut out: Vec<T> = Vec::new();
    let mut i: usize = 0;
    while i < triples.len()
        invariant
            i <= triples.len(),
            out@.len() == i,
            forall|j: int| 0 <= j < i ==> #[trigger] out@[j] == triples@[j].shared,
        decreases triples.len() - i,
    {
        out.push(triples[i].shared);
        i = i + 1;
    }
    assert(out@ =~= Seq::new(triples@.len(), |i: int| triples@[i].shared));
    out
}

/// Items from `first` on, in buckets of `size`, the last one perhaps shorter.
pub fn bucket_items<T: Replicate>(items: &[T], first: usize, size: usize) -> (r: Vec<Vec<T>>)
    requires
        size > 0,
        first <= items@.len(),
    ensures
        row_seq_views(r@) == chunked(seq_views(items@).skip(first as int), size as int),
{
    let mut out: Vec<Vec<T>> = Vec::new();
    let ghost all = seq_views(items@).skip(first as int);
    let mut start: usize = first;
    assert(row_seq_views(out@) + chunked(all, size as int) =~= chunked(all, size as int));
    while start < items.len()
        invariant
            size > 0,
            start <= items.len(),
            row_seq_views(out@) + chunked(seq_views(items@).skip(start as int), size as int)
                == chunked(all, size as int),
        decreases items.len() - start,
    {
        let left: usize = items.len() - start;
        let n: usize = if size <= left {
            size
        } else {
            left
        };
        let ghost rest = seq_views(items@).skip(start as int);
        let mut bucket: Vec<T> = Vec::new();
        let mut j: usize = 0;
        while j < n
            invariant
                j <= n,
                n <= items.len() - start,
                rest == seq_views(items@).skip(start as int),
                seq_views(bucket@) == rest.take(j as int),
                bucket@.len() == j,
            decreases n - j,
        {
            let item = items[start + j].replicate();
            assert(seq_views(bucket@.push(item)) =~= seq_views(bucket@).push(item@));
            assert(rest.take(j as int + 1) =~= rest.take(j as int).push(rest[j as int]));
            bucket.push(item);
            j = j + 1;
        }
        proof {
            assert(rest.skip(n as int) =~= seq_views(items@).skip(start + n));
            let tail = chunked(seq_views(items@).skip(start + n), size as int);
            assert(chunked(rest, size as int) == seq![rest.take(n as int)] + tail);
            assert(row_seq_views(out@.push(bucket)) =~= row_seq_views(out@).push(
                rest.take(n as int),
            ));
            assert(row_seq_views(out@).push(rest.take(n as int)) + tail =~= row_seq_views(out@) + (
            seq![rest.take(n as int)] + tail));
        }
        out.push(bucket);
        start = start + n;
    }
    proof {
        let last = chunked(seq_views(items@).skip(start as int), size as int);
        assert(last =~= Seq::empty());
        assert(row_seq_views(out@) =~= row_seq_views(out@) + last);
    }
    out
}

/// The first element of every bucket.
pub open spec fn heads<V>(buckets: Seq<Seq<V>>) -> Seq<V> {
    Seq::new(buckets.len(), |i: int| buckets[i][0])
}

/// The first item of every bucket of items from `first` on.
pub fn bucket_heads<T: Replicate>(items: &[T], first: usize, size: usize) -> (r: Vec<T>)
    requires
        size > 0,
        first <= items@.len(),
    ensures
        seq_views(r@) == heads(chunked(seq_views(items@).skip(first as int), size as int)),
{
    let buckets = bucket_items(items, first, size);
    let ghost all = chunked(seq_views(items@).skip(first as int), size as int);
    let mut out: Vec<T> = Vec::new();
    let mut i: usize = 0;
    while i < buckets.len()
        invariant
            i <= buckets.len(),
            row_seq_views(buckets@) == all,
            all == chunked(seq_views(items@).skip(first as int), size as int),
            size > 0,
            out@.len() == i,
            forall|j: int| 0 <= j < i ==> (#[trigger] out@[j])@ == all[j][0],
        decreases buckets.len() - i,
    {
        proof {
            assert(row_seq_views(buckets@)[i as int] == seq_views(buckets@[i as int]@));
            lemma_buckets_not_empty(
                seq_views(items@).skip(first as int),
                size as int,
                i as int,
            );
        }
        out.push(buckets[i][0].replicate());
        i = i + 1;
    }
    assert(row_seq_views(buckets@).len() == buckets@.len());
    assert(seq_views(out@) =~= heads(all));
    out
}

/// No bucket is empty.
proof fn lemma_buckets_not_empty<V>(s: Seq<V>, size: int, i: int)
    requires
        size > 0,
        0 <= i < chunked(s, size).len(),
    ensures
        chunked(s, size)[i].len() > 0,
    decreases s.len(),
{
    if s.len() > 0 {
        let n = least(size, s.len() as int);
        if i > 0 {
            lemma_buckets_not_empty(s.skip(n), size, i - 1);
        }
    }
}

/// The pairs of one bucket: its first item with each of the others.
pub open spec fn bucket_pair_row<V>(bucket: Seq<V>, bucket_size: int) -> Seq<(V, V)> {
    Seq::new((bucket_size - 1) as nat, |p: int| (bucket[0], bucket[p + 1]))
}

/// The pairs of all buckets.
pub open spec fn bucket_pairs_of<V>(buckets: Seq<Seq<V>>) -> Seq<(V, V)> {
    Seq::new(
        buckets.len(),
        |b: int| bucket_pair_row(buckets[b], buckets[0].len() as int),
    ).flatten()
}

/// The first item of every bucket beside each of the others, for all buckets.
pub fn bucket_pairs<T: Replicate>(buckets: &[Vec<T>]) -> (r: (Vec<T>, Vec<T>))
    requires
        buckets@.len() > 0 ==> buckets@[0]@.len() > 0,
        forall|b: int|
            0 <= b < buckets@.len() ==> (#[trigger] buckets@[b])@.len() >= buckets@[0]@.len(),
    ensures
        r.0@.len() == bucket_pairs_of(row_seq_views(buckets@)).len(),
        r.1@.len() == bucket_pairs_of(row_seq_views(buckets@)).len(),
        forall|i: int|
            0 <= i < r.0@.len() ==> (#[trigger] r.0@[i])@ == bucket_pairs_of(
                row_seq_views(buckets@),
            )[i].0,
        forall|i: int|
            0 <= i < r.1@.len() ==> (#[trigger] r.1@[i])@ == bucket_pairs_of(
                row_seq_views(buckets@),
            )[i].1,
{
    let mut lhs: Vec<T> = Vec::new();
    let mut rhs: Vec<T> = Vec::new();
    if buckets.len() == 0 {
        assert(bucket_pairs_of(row_seq_views(buckets@)) =~= Seq::empty());
        return (lhs, rhs);
    }
    let bucket_size: usize = buckets[0].len();
    let ghost views = row_seq_views(buckets@);
    let ghost pair_rows = Seq::new(
        views.len(),
        |b: int| bucket_pair_row(views[b], views[0].len() as int),
    );
    let mut b: usize = 0;
    while b < buckets.len()
        invariant
            b <= buckets.len(),
            bucket_size > 0,
            bucket_size == buckets@[0]@.len(),
            buckets@.len() > 0,
            views == row_seq_views(buckets@),
            pair_rows == Seq::new(
                views.len(),
                |b: int| bucket_pair_row(views[b], views[0].len() as int),
            ),
            forall|k: int|
                0 <= k < buckets@.len() ==> (#[trigger] buckets@[k])@.len() >= bucket_size,
            lhs@.len() == pair_rows.take(b as int).flatten().len(),
            rhs@.len() == lhs@.len(),
            forall|i: int|
                0 <= i < lhs@.len() ==> (#[trigger] lhs@[i])@ == pair_rows.take(
                    b as int,
                ).flatten()[i].0,
            forall|i: int|
                0 <= i < rhs@.len() ==> (#[trigger] rhs@[i])@ == pair_rows.take(
                    b as int,
                ).flatten()[i].1,
        decreases buckets.len() - b,
    {
        let ghost before = pair_rows.take(b as int).flatten();
        let ghost row = bucket_pair_row(views[b as int], views[0].len() as int);
        let bucket = &buckets[b];
        assert(views[b as int] == seq_views(bucket@));
        assert(views[0] == seq_views(buckets@[0]@));
        let mut p: usize = 1;
        while p < bucket_size
            invariant
                1 <= p <= bucket_size,
                bucket_size <= bucket@.len(),
                row == bucket_pair_row(seq_views(bucket@), bucket_size as int),
                lhs@.len() == before.len() + p - 1,
                rhs@.len() == lhs@.len(),
                forall|i: int|
                    0 <= i < lhs@.len() ==> (#[trigger] lhs@[i])@ == (before + row)[i].0,
                forall|i: int|
                    0 <= i < rhs@.len() ==> (#[trigger] rhs@[i])@ == (before + row)[i].1,
            decreases bucket_size - p,
        {
            assert((before + row)[lhs@.len() as int] == row[p - 1]);
            lhs.push(bucket[0].replicate());
            rhs.push(bucket[p].replicate());
            p = p + 1;
        }
        proof {
            assert(pair_rows.take(b as int + 1) =~= pair_rows.take(b as int).push(row));
            pair_rows.take(b as int).lemma_flatten_push(row);
        }
        b = b + 1;
    }
    assert(pair_rows.take(b as int) =~= pair_rows);
    (lhs, rhs)
}

/// How a batch of edaBits is checked.
#[derive(Clone, Copy, Debug, PartialEq, Eq, Structural)]
pub struct CutParameters {
    /// How many bits the edaBits have.
    pub bit_size: usize,
    /// How many edaBits are kept.
    pub num: usize,
    /// How many edaBits a bucket holds, of which one is kept.
    pub num_bucket: usize,
    /// How many edaBits are opened.
    pub num_cut: usize,
}

impl CutParameters {
    /// Whether there are as many edaBits and triples as the check takes.
    pub open spec fn fit(self, num_edabits: int, num_triples: int) -> bool {
        &&& self.bit_size >= 1
        &&& self.num_bucket >= 2
        &&& num_edabits == self.num * self.num_bucket + self.num_cut
        &&& num_triples == self.num * (self.num_bucket - 1) * self.bit_size + self.num_cut
            * self.bit_size
    }
}

/// The parameters fit edaBits and triples of which the cut can be taken.
pub proof fn lemma_cut_fits(params: CutParameters, num_edabits: int, num_triples: int)
    requires
        params.fit(num_edabits, num_triples),
    ensures
        params.num_cut <= num_edabits,
        0 <= params.num_cut * params.bit_size <= num_triples,
{
    let (n, m) = (params.num as int, params.bit_size as int);
    let (b, c) = (params.num_bucket as int, params.num_cut as int);
    assert(n * b >= 0 && n * (b - 1) * m >= 0 && c * m >= 0) by (nonlinear_arith)
        requires
            n >= 0,
            m >= 1,
            b >= 2,
            c >= 0,
    ;
}

/// Shuffled edaBits and triples of which a cut is opened. On the owner's side
/// they are the private ones, on the other side the shared ones.
pub struct Cut<E, T> {
    edabits: Vec<E>,
    triples: Vec<T>,
    params: CutParameters,
}

/// What the opened cut shows: the first thing that is wrong with it.
pub open spec fn cut_verdict<FE: FiniteField>(
    bits: Seq<F2>,
    values: Seq<FE::PrimeField>,
    triples: (Seq<F2>, Seq<F2>, Seq<F2>),
    bit_size: int,
) -> Result<(), EdabitsError> {
    if !groups_denote::<FE>(bits, values, bit_size) {
        Err(EdabitsError::InconsistentEdabit)
    } else if !bits_multiply(
        triples.0,
        triples.1,
        triples.2,
        least(
            triples.0.len() as int,
            least(triples.1.len() as int, triples.2.len() as int),
        ),
    ) {
        Err(EdabitsError::InconsistentTriple)
    } else {
        Ok(())
    }
}

/// The opened cut shows nothing wrong exactly if the bits of every opened edaBit
/// are the binary digits of its value and every opened triple is a product. If not,
/// the edaBits come first.
pub proof fn law_cut_verdict<FE: FiniteField>(
    bits: Seq<F2>,
    values: Seq<FE::PrimeField>,
    triples: (Seq<F2>, Seq<F2>, Seq<F2>),
    bit_size: int,
    num: nat,
)
    requires
        bit_size > 0,
        values.len() == num,
        bits.len() == num * bit_size,
    ensures
        ({
            let verdict = cut_verdict::<FE>(bits, values, triples, bit_size);
            let consistent = forall|i: int|
                0 <= i < num ==> #[trigger] values[i].val() == number(
                    bits.subrange(i * bit_size, i * bit_size + bit_size),
                ) as int % FE::PrimeField::order();
            let products = forall|i: int|
                0 <= i < triples.0.len() && i < triples.1.len() && i < triples.2.len()
                    ==> #[trigger] triples.2[i].val() == triples.0[i].val() * triples.1[i].val();
            &&& verdict is Ok <==> consistent && products
            &&& verdict == Err::<(), EdabitsError>(EdabitsError::InconsistentEdabit)
                <==> !consistent
            &&& verdict == Err::<(), EdabitsError>(EdabitsError::InconsistentTriple)
                <==> consistent && !products
        }),
{
    law_groups_denote::<FE>(bits, values, bit_size);
    assert forall|x: F2, y: F2| #[trigger] F2::times(x.val(), y.val()) == x.val() * y.val() by {
        law_bit_product(x, y);
    }
    assert forall|i: int| 0 <= i < num implies {
        &&& #[trigger] values[i].val() == values[i].val()
        &&& i * bit_size < bits.len()
        &&& i * bit_size + bit_size <= bits.len()
    } by {
        assert(i * bit_size + bit_size <= num * bit_size) by (nonlinear_arith)
            requires
                i + 1 <= num,
                bit_size > 0,
        ;
    }
}

impl<E, T> Cut<E, T> {
    /// The shuffled edaBits.
    pub closed spec fn edabits_spec(&self) -> Seq<E> {
        self.edabits@
    }

    /// The shuffled triples.
    pub closed spec fn triples_spec(&self) -> Seq<T> {
        self.triples@
    }

    /// How the batch is checked.
    pub closed spec fn params_spec(&self) -> CutParameters {
        self.params
    }

    #[verifier::type_invariant]
    closed spec fn inv(&self) -> bool {
        self.params.fit(self.edabits@.len() as int, self.triples@.len() as int)
    }

    /// Shuffles edaBits and triples by the drawn positions.
    pub fn shuffle(
        edabits: Vec<E>,
        triples: Vec<T>,
        edabit_draws: &[usize],
        triple_draws: &[usize],
        params: CutParameters,
    ) -> (r: Self)
        requires
            params.fit(edabits@.len() as int, triples@.len() as int),
            draws_fit(edabits@.len() as int, edabit_draws@),
            draws_fit(triples@.len() as int, triple_draws@),
        ensures
            r.edabits_spec() == shuffled(edabits@, edabit_draws@),
            r.triples_spec() == shuffled(triples@, triple_draws@),
            r.params_spec() == params,
    {
        let mut edabits: Vec<E> = edabits;
        let mut triples: Vec<T> = triples;
        proof {
            law_shuffle_keeps_elements(edabits@, edabit_draws@);
            law_shuffle_keeps_elements(triples@, triple_draws@);
        }
        permute_by_draws(edabit_draws, &mut edabits);
        permute_by_draws(triple_draws, &mut triples);
        Cut { edabits, triples, params }
    }

    /// The shuffled edaBits.
    pub fn edabits(&self) -> (r: &Vec<E>)
        ensures
            r@ == self.edabits_spec(),
    {
        &self.edabits
    }

    /// The shuffled triples, as many as the check takes.
    pub fn triples(&self) -> (r: &Vec<T>)
        ensures
            r@ == self.triples_spec(),
            self.params_spec().fit(
                self.edabits_spec().len() as int,
                self.triples_spec().len() as int,
            ),
    {
        proof {
            use_type_invariant(self);
        }
        &self.triples
    }

    /// Passes the batch on where the opened cut shows nothing wrong.
    pub fn check<FE: FiniteField>(
        self,
        bits: &[F2],
        values: &[FE::PrimeField],
        triples: (&[F2], &[F2], &[F2]),
    ) -> (r: Result<CheckedCut<E, T>, EdabitsError>)
        ensures
            match cut_verdict::<FE>(
                bits@,
                values@,
                (triples.0@, triples.1@, triples.2@),
                self.params_spec().bit_size as int,
            ) {
                Ok(_) => r is Ok && r->Ok_0.cut_spec() == self,
                Err(error) => r is Err && r->Err_0 == error,
            },
            r is Ok ==> forall|i: int|
                0 <= i < triples.0@.len() && i < triples.1@.len() && i < triples.2@.len()
                    ==> #[trigger] triples.2@[i].val() == triples.0@[i].val()
                    * triples.1@[i].val(),
            r is Ok ==> forall|i: int|
                0 <= i < values@.len() && i * self.params_spec().bit_size
                    + self.params_spec().bit_size <= bits@.len() ==> #[trigger] values@[i].val()
                    == number(
                    bits@.subrange(
                        i * self.params_spec().bit_size,
                        i * self.params_spec().bit_size + self.params_spec().bit_size,
                    ),
                ) as int % FE::PrimeField::order(),
    {
        proof {
            use_type_invariant(&self);
        }
        match check_opened_edabits::<FE>(bits, values, self.params.bit_size) {
            Ok(_) => {},
            Err(error) => {
                return Err(error);
            },
        }
        match check_opened_triples(triples.0, triples.1, triples.2) {
            Ok(_) => {},
            Err(error) => {
                return Err(error);
            },
        }
        Ok(CheckedCut { cut: self })
    }
}

impl<E, T: Copy> Cut<E, PrivateBitTriple<T>> {
    /// Passes this peer's own batch on where the opened cut shows nothing wrong,
    /// and the triples in it are products as this peer knows them.
    pub fn check_own<FE: FiniteField>(
        self,
        bits: &[F2],
        values: &[FE::PrimeField],
        triples: (&[F2], &[F2], &[F2]),
    ) -> (r: Result<CheckedCut<E, PrivateBitTriple<T>>, EdabitsError>)
        ensures
            match cut_verdict::<FE>(
                bits@,
                values@,
                (triples.0@, triples.1@, triples.2@),
                self.params_spec().bit_size as int,
            ) {
                Ok(_) => if triples_multiply(
                    self.triples_spec(),
                    self.params_spec().num_cut * self.params_spec().bit_size,
                ) {
                    r is Ok && r->Ok_0.cut_spec() == self
                } else {
                    r is Err && r->Err_0 == EdabitsError::IncorrectTriple
                },
                Err(error) => r is Err && r->Err_0 == error,
            },
            r is Ok ==> forall|i: int|
                0 <= i < triples.0@.len() && i < triples.1@.len() && i < triples.2@.len()
                    ==> #[trigger] triples.2@[i].val() == triples.0@[i].val()
                    * triples.1@[i].val(),
            r is Ok ==> forall|i: int|
                0 <= i < values@.len() && i * self.params_spec().bit_size
                    + self.params_spec().bit_size <= bits@.len() ==> #[trigger] values@[i].val()
                    == number(
                    bits@.subrange(
                        i * self.params_spec().bit_size,
                        i * self.params_spec().bit_size + self.params_spec().bit_size,
                    ),
                ) as int % FE::PrimeField::order(),
            r is Ok ==> forall|i: int|
                0 <= i < self.params_spec().num_cut * self.params_spec().bit_size ==> {
                    let triple = #[trigger] self.triples_spec()[i];
                    triple.clear_c.val() == triple.clear_a.val() * triple.clear_b.val()
                },
    {
        proof {
            use_type_invariant(&self);
            lemma_cut_fits(self.params, self.edabits@.len() as int, self.triples@.len() as int);
        }
        let available: usize = self.triples.len();
        let num: usize = self.params.num_cut * self.params.bit_size;
        let own = check_private_triples(self.triples.as_slice(), num);
        let checked = self.check::<FE>(bits, values, triples);
        match checked {
            Ok(cut) => match own {
                Ok(_) => Ok(cut),
                Err(error) => Err(error),
            },
            Err(error) => Err(error),
        }
    }
}

/// A batch of which the cut has been opened and found to be right.
pub struct CheckedCut<E, T> {
    cut: Cut<E, T>,
}

impl<E, T> CheckedCut<E, T> {
    /// The batch.
    pub closed spec fn cut_spec(&self) -> Cut<E, T> {
        self.cut
    }
}

impl<E: Replicate, T> CheckedCut<E, T> {
    /// The batch, whose buckets are to be checked.
    pub fn cut(&self) -> (r: &Cut<E, T>)
        ensures
            *r == self.cut_spec(),
    {
        &self.cut
    }

    /// Keeps the first edaBit of every bucket, where the opened sums of the pairs
    /// are consistent.
    pub fn finish<FE: FiniteField>(self, bits: &[F2], values: &[FE::PrimeField]) -> (r: Result<
        Vec<E>,
        EdabitsError,
    >)
        ensures
            ({
                let params = self.cut_spec().params_spec();
                if groups_denote::<FE>(bits@, values@, params.bit_size as int) {
                    &&& r is Ok
                    &&& r->Ok_0@.len() == params.num
                    &&& seq_views(r->Ok_0@) == heads(
                        chunked(
                            seq_views(self.cut_spec().edabits_spec()).skip(params.num_cut as int),
                            params.num_bucket as int,
                        ),
                    )
                } else {
                    r is Err && r->Err_0 == EdabitsError::InconsistentBucket
                }
            }),
            r is Ok ==> forall|i: int|
                0 <= i < values@.len() && i * self.cut_spec().params_spec().bit_size
                    + self.cut_spec().params_spec().bit_size <= bits@.len()
                    ==> #[trigger] values@[i].val() == number(
                    bits@.subrange(
                        i * self.cut_spec().params_spec().bit_size,
                        i * self.cut_spec().params_spec().bit_size
                            + self.cut_spec().params_spec().bit_size,
                    ),
                ) as int % FE::PrimeField::order(),
            r is Ok ==> forall|i: int|
                0 <= i < self.cut_spec().params_spec().num ==> (#[trigger] r->Ok_0@[i])@
                    == self.cut_spec().edabits_spec()[self.cut_spec().params_spec().num_cut + i
                    * self.cut_spec().params_spec().num_bucket]@,
    {
        let cut = self.cut;
        let params = cut.params;
        proof {
            use_type_invariant(&cut);
            lemma_cut_fits(params, cut.edabits@.len() as int, cut.triples@.len() as int);
            law_bucket_counts(
                seq_views(cut.edabits@),
                cut.triples@,
                params.num as nat,
                params.num_bucket as nat,
                params.num_cut as nat,
                params.bit_size as nat,
            );
        }
        match check_opened_buckets::<FE>(bits, values, params.bit_size) {
            Ok(_) => {},
            Err(error) => {
                return Err(error);
            },
        }
        let kept = bucket_heads(cut.edabits.as_slice(), params.num_cut, params.num_bucket);
        proof {
            assert(seq_views(kept@).len() == kept@.len());
            assert forall|i: int| 0 <= i < kept@.len() implies {
                &&& 0 <= params.num_cut + i * params.num_bucket < cut.edabits@.len()
                &&& (#[trigger] kept@[i])@ == cut.edabits@[params.num_cut + i
                    * params.num_bucket]@
            } by {
                law_kept_items(
                    seq_views(cut.edabits@),
                    params.num as nat,
                    params.num_bucket as nat,
                    params.num_cut as nat,
                    i,
                );
                assert(seq_views(kept@)[i] == kept@[i]@);
            }
        }
        Ok(kept)
    }
}

/// The pairs of buckets of one size, one after the other.
pub proof fn lemma_bucket_pairs<V>(buckets: Seq<Seq<V>>, size: int, i: int)
    requires
        size >= 2,
        buckets.len() > 0,
        forall|b: int| 0 <= b < buckets.len() ==> (#[trigger] buckets[b]).len() == size,
        0 <= i < bucket_pairs_of(buckets).len(),
    ensures
        bucket_pairs_of(buckets).len() == buckets.len() * (size - 1),
        0 <= i / (size - 1) < buckets.len(),
        0 <= i % (size - 1) < size - 1,
        bucket_pairs_of(buckets)[i] == (
            buckets[i / (size - 1)][0],
            buckets[i / (size - 1)][i % (size - 1) + 1],
        ),
{
    assert(buckets[0].len() == size);
    let all = Seq::new(
        buckets.len(),
        |b: int| bucket_pair_row(buckets[b], buckets[0].len() as int),
    );
    assert forall|k: int| 0 <= k < all.len() implies #[trigger] all[k].len() == size - 1 by {}
    lemma_flatten_index(all, size - 1, 0, 0);
    let (b, p) = (i / (size - 1), i % (size - 1));
    vstd::arithmetic::div_mod::lemma_fundamental_div_mod(i, size - 1);
    vstd::arithmetic::div_mod::lemma_mod_bound(i, size - 1);
    vstd::arithmetic::div_mod::lemma_div_pos_is_pos(i, size - 1);
    assert(b < buckets.len()) by (nonlinear_arith)
        requires
            i == (size - 1) * b + p,
            0 <= p,
            i < buckets.len() * (size - 1),
            size >= 2,
    ;
    assert((size - 1) * b == b * (size - 1)) by (nonlinear_arith);
    lemma_flatten_index(all, size - 1, b, p);
}

/// Each item after the first of each bucket is paired with the first item of its
/// bucket, up to the size of the first bucket, and there are no other pairs.
pub proof fn law_bucket_pairs<V>(buckets: Seq<Seq<V>>, b: int, p: int)
    requires
        0 <= b < buckets.len(),
        1 <= p < buckets[0].len(),
    ensures
        ({
            let others = buckets[0].len() - 1;
            &&& bucket_pairs_of(buckets).len() == buckets.len() * others
            &&& 0 <= b * others + p - 1 < bucket_pairs_of(buckets).len()
            &&& bucket_pairs_of(buckets)[b * others + p - 1] == (buckets[b][0], buckets[b][p])
        }),
{
    let all = Seq::new(
        buckets.len(),
        |k: int| bucket_pair_row(buckets[k], buckets[0].len() as int),
    );
    let others = buckets[0].len() - 1;
    assert forall|k: int| 0 <= k < all.len() implies #[trigger] all[k].len() == others by {}
    lemma_flatten_index(all, others, b, p - 1);
}

/// How many pairs buckets of one size have.
pub proof fn lemma_bucket_pairs_len<V>(buckets: Seq<Seq<V>>, size: int)
    requires
        size >= 2,
        forall|b: int| 0 <= b < buckets.len() ==> (#[trigger] buckets[b]).len() == size,
    ensures
        bucket_pairs_of(buckets).len() == buckets.len() * (size - 1),
{
    let all = Seq::new(
        buckets.len(),
        |b: int| bucket_pair_row(buckets[b], buckets[0].len() as int),
    );
    if buckets.len() > 0 {
        assert(buckets[0].len() == size);
        assert forall|k: int| 0 <= k < all.len() implies #[trigger] all[k].len() == size - 1 by {}
        lemma_flatten_index(all, size - 1, 0, 0);
    } else {
        assert(all =~= Seq::empty());
    }
}

/// Cutting a sequence into pieces does not depend on what its elements are.
proof fn lemma_chunked_map<T, U>(s: Seq<T>, f: spec_fn(T) -> U, size: int)
    ensures
        chunked(s.map_values(f), size).len() == chunked(s, size).len(),
        forall|i: int|
            0 <= i < chunked(s, size).len() ==> #[trigger] chunked(s.map_values(f), size)[i]
                == chunked(s, size)[i].map_values(f),
    decreases s.len(),
{
    if s.len() > 0 && size > 0 {
        let n = least(size, s.len() as int);
        lemma_chunked_map(s.skip(n), f, size);
        assert(s.map_values(f).skip(n) =~= s.skip(n).map_values(f));
        assert(s.map_values(f).take(n) =~= s.take(n).map_values(f));
        let (p, q) = (chunked(s, size), chunked(s.map_values(f), size));
        assert(p == seq![s.take(n)] + chunked(s.skip(n), size));
        assert(q == seq![s.map_values(f).take(n)] + chunked(s.map_values(f).skip(n), size));
        assert forall|i: int| 0 <= i < p.len() implies #[trigger] q[i] == p[i].map_values(f) by {
            if i > 0 {
                assert(p[i] == chunked(s.skip(n), size)[i - 1]);
                assert(q[i] == chunked(s.skip(n).map_values(f), size)[i - 1]);
            }
        }
    }
}

/// What the two peers keep corresponds: where the other peer holds `f` of each
/// item of the owner, and both shuffle by the same draws, the other peer keeps
/// `f` of each item that the owner keeps.
pub proof fn law_kept_correspond<T, U>(
    s: Seq<T>,
    f: spec_fn(T) -> U,
    draws: Seq<usize>,
    num_cut: int,
    num_bucket: int,
)
    requires
        draws_fit(s.len() as int, draws),
        0 <= num_cut <= s.len(),
        num_bucket > 0,
    ensures
        heads(chunked(shuffled(s.map_values(f), draws).skip(num_cut), num_bucket)) == heads(
            chunked(shuffled(s, draws).skip(num_cut), num_bucket),
        ).map_values(f),
{
    law_shuffle_corresponds(s, f, draws);
    law_shuffle_keeps_elements(s, draws);
    let left = shuffled(s, draws).skip(num_cut);
    assert(shuffled(s.map_values(f), draws).skip(num_cut) =~= left.map_values(f));
    lemma_chunked_map(left, f, num_bucket);
    let (p, q) = (chunked(left, num_bucket), chunked(left.map_values(f), num_bucket));
    assert forall|i: int| 0 <= i < p.len() implies heads(q)[i] == heads(p).map_values(f)[i] by {
        lemma_buckets_not_empty(left, num_bucket, i);
        assert(q[i] == p[i].map_values(f));
    }
    assert(heads(q) =~= heads(p).map_values(f));
}

/// What is kept of full buckets: every `num_bucket`th of the items after the cut.
pub proof fn law_kept_items<V>(items: Seq<V>, num: nat, num_bucket: nat, num_cut: nat, i: int)
    requires
        num_bucket >= 1,
        items.len() == num * num_bucket + num_cut,
        0 <= i < num,
    ensures
        heads(chunked(items.skip(num_cut as int), num_bucket as int)).len() == num,
        0 <= num_cut + i * num_bucket < items.len(),
        heads(chunked(items.skip(num_cut as int), num_bucket as int))[i] == items[num_cut + i
            * num_bucket],
{
    lemma_chunked_exact(items.skip(num_cut as int), num_bucket as int, num);
    assert(0 <= i * num_bucket && i * num_bucket + num_bucket <= num * num_bucket)
        by (nonlinear_arith)
        requires
            0 <= i,
            i + 1 <= num,
            num_bucket >= 1,
    ;
    let pieces = chunked(items.skip(num_cut as int), num_bucket as int);
    assert(pieces[i] == items.skip(num_cut as int).subrange(
        i * num_bucket,
        i * num_bucket + num_bucket,
    ));
}

/// Where what is kept of full buckets comes from: from positions that differ from
/// each other and from those of the items that were opened in the cut.
pub proof fn law_kept_positions<T>(
    s: Seq<T>,
    draws: Seq<usize>,
    num: nat,
    num_bucket: nat,
    num_cut: nat,
    i: int,
)
    requires
        draws_fit(s.len() as int, draws),
        num_bucket >= 1,
        s.len() == num * num_bucket + num_cut,
        0 <= i < num,
    ensures
        ({
            let q = source_positions(s.len(), draws);
            let kept = heads(chunked(shuffled(s, draws).skip(num_cut as int), num_bucket as int));
            let p = q[num_cut + i * num_bucket];
            &&& kept.len() == num
            &&& 0 <= p < s.len()
            &&& kept[i] == s[p]
            &&& forall|j: int|
                0 <= j < num_cut ==> shuffled(s, draws)[j] == s[#[trigger] q[j]] && q[j] != p
            &&& forall|k: int|
                0 <= k < num && k != i ==> q[num_cut + #[trigger] (k * num_bucket)] != p
        }),
{
    let q = source_positions(s.len(), draws);
    let p = q[num_cut + i * num_bucket];
    law_shuffle_positions(s, draws);
    law_shuffle_positions_distinct(s.len(), draws);
    law_kept_items(shuffled(s, draws), num, num_bucket, num_cut, i);
    assert(i * num_bucket >= 0) by (nonlinear_arith)
        requires
            i >= 0,
            num_bucket >= 1,
    ;
    assert forall|k: int| 0 <= k < num && k != i implies q[num_cut + #[trigger] (k * num_bucket)]
        != p by {
        law_kept_items(shuffled(s, draws), num, num_bucket, num_cut, k);
        assert(k * num_bucket != i * num_bucket) by (nonlinear_arith)
            requires
                k != i,
                num_bucket >= 1,
        ;
    }
    assert forall|j: int| 0 <= j < num_cut implies shuffled(s, draws)[j] == s[#[trigger] q[j]]
        && q[j] != p by {
        assert(j < num_cut + i * num_bucket);
    }
}

/// When as many items are sampled as are needed for `num` buckets, there are
/// `num` full buckets of them, and enough triples for all pairs.
pub proof fn law_bucket_counts<V, W>(
    edabits: Seq<V>,
    triples: Seq<W>,
    num: nat,
    num_bucket: nat,
    num_cut: nat,
    bit_size: nat,
)
    requires
        num_bucket >= 2,
        bit_size >= 1,
        edabits.len() == num * num_bucket + num_cut,
        triples.len() == num * (num_bucket - 1) * bit_size + num_cut * bit_size,
    ensures
        ({
            let buckets = chunked(edabits.skip(num_cut as int), num_bucket as int);
            let triple_buckets = chunked(
                triples.skip((num_cut * bit_size) as int),
                (num_bucket - 1) * bit_size,
            );
            &&& buckets.len() == num
            &&& heads(buckets).len() == num
            &&& forall|b: int| 0 <= b < num ==> (#[trigger] buckets[b]).len() == num_bucket
            &&& triple_buckets.len() == num
            &&& forall|b: int|
                0 <= b < num ==> (#[trigger] triple_buckets[b]).len() == (num_bucket - 1)
                    * bit_size
        }),
{
    assert(num * num_bucket >= 0) by (nonlinear_arith)
        requires
            num >= 0,
            num_bucket >= 0,
    ;
    lemma_chunked_exact(edabits.skip(num_cut as int), num_bucket as int, num);
    let size = (num_bucket - 1) * bit_size;
    assert(size > 0 && num * (num_bucket - 1) * bit_size == num * size && num * size >= 0
        && num_cut * bit_size >= 0) by (nonlinear_arith)
        requires
            size == (num_bucket - 1) * bit_size,
            num_bucket >= 2,
            bit_size >= 1,
            num >= 0,
            num_cut >= 0,
    ;
    lemma_chunked_exact(triples.skip((num_cut * bit_size) as int), size, num);
}

} // verus!
