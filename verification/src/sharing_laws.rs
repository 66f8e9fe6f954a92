//! What two peers hold of batches that one of them has dealt, and what they open.

use crate::bit_adder::shared_bits;
use crate::bits::{lemma_flatten_index, number, rows, truths};
use crate::combination_laws::{
    dabit_paired, edabit_consistent, edabit_paired, law_split_value, Keys,
};
use crate::f40b::F40b;
use crate::field::{FiniteField, FiniteRing, PrimeFiniteField};
use crate::homcom::{MacProver, MacVerifier};
use crate::mpc_conv::{LocalEdabit, PrivateEdabit, PrivateEdabitState, SharedEdabit};
use crate::mpc_edabits::{
    dealt, edabits_cleared, edabits_received, edabits_shared, edabits_split, law_dealt, MacsAndKeys,
    PrivateInputSharingPolicy, SplitEdabits,
};
use crate::mpc_edabits_common::{assembled, complementary, opened_batch, sent_values};
use crate::multiplication::{triple_paired, triple_rows};
use crate::prime_fields::F2;
use crate::ring::{embed, lemma_plus_minus};
use crate::share::{paired, secret, AuthenticatedShare, ShareView};
use vstd::prelude::*;

verus! {

/// Whether two peers hold the two parts of each of a batch of values.
pub open spec fn batch_paired<FE: FiniteField>(
    s: Seq<ShareView>,
    t: Seq<ShareView>,
    ds: int,
    dt: int,
) -> bool {
    &&& s.len() == t.len()
    &&& forall|i: int| 0 <= i < s.len() ==> paired::<FE>(#[trigger] s[i], t[i], ds, dt)
}

/// Opening a batch: both peers get the same values, which are those that they
/// share, and the MAC that each of them sends with a value fits the other's key.
pub proof fn law_batch_opens<FE: FiniteField>(
    s: Seq<ShareView>,
    t: Seq<ShareView>,
    ds: int,
    dt: int,
)
    requires
        batch_paired::<FE>(s, t, ds, dt),
    ensures
        opened_batch::<FE>(s, sent_values(t)) == opened_batch::<FE>(t, sent_values(s)),
        opened_batch::<FE>(s, sent_values(t)).len() == s.len(),
        forall|i: int|
            0 <= i < s.len() ==> #[trigger] opened_batch::<FE>(s, sent_values(t))[i]
                == secret::<FE>(s[i], t[i]),
        forall|i: int|
            0 <= i < s.len() ==> (#[trigger] s[i]).mac == FE::plus(
                FE::times(dt, embed::<FE>(s[i].value)),
                t[i].key,
            ),
        forall|i: int|
            0 <= i < s.len() ==> (#[trigger] t[i]).mac == FE::plus(
                FE::times(ds, embed::<FE>(t[i].value)),
                s[i].key,
            ),
{
    let (p, q) = (opened_batch::<FE>(s, sent_values(t)), opened_batch::<FE>(t, sent_values(s)));
    assert forall|i: int| 0 <= i < s.len() implies p[i] == q[i] by {
        FE::PrimeField::law_plus_comm(s[i].value, t[i].value);
    }
    assert(p =~= q);
    assert forall|i: int| 0 <= i < s.len() implies (#[trigger] t[i]).mac == FE::plus(
        FE::times(ds, embed::<FE>(t[i].value)),
        s[i].key,
    ) by {
        assert(paired::<FE>(s[i], t[i], ds, dt));
    }
}

/// The correlations by which the shares of a batch are authenticated: the MACs of
/// the owner and of the other peer, and the keys that fit them.
pub struct Correlations {
    pub owner_macs: Seq<int>,
    pub owner_keys: Seq<int>,
    pub other_macs: Seq<int>,
    pub other_keys: Seq<int>,
}

impl Correlations {
    /// Whether there are as many as there are values, all canonical, and each MAC
    /// on a value fits its key.
    pub open spec fn fit<FE: FiniteField>(
        self,
        owner: Seq<int>,
        other: Seq<int>,
        ds: int,
        dt: int,
    ) -> bool {
        &&& self.owner_macs.len() == owner.len()
        &&& self.owner_keys.len() == owner.len()
        &&& self.other_macs.len() == owner.len()
        &&& self.other_keys.len() == owner.len()
        &&& other.len() == owner.len()
        &&& forall|i: int|
            0 <= i < owner.len() ==> 0 <= #[trigger] self.owner_keys[i] < FE::order() && 0
                <= self.other_keys[i] < FE::order()
        &&& forall|i: int|
            0 <= i < owner.len() ==> #[trigger] self.owner_macs[i] == FE::plus(
                FE::times(dt, embed::<FE>(owner[i])),
                self.other_keys[i],
            )
        &&& forall|i: int|
            0 <= i < owner.len() ==> #[trigger] self.other_macs[i] == FE::plus(
                FE::times(ds, embed::<FE>(other[i])),
                self.owner_keys[i],
            )
    }

    /// The owner's shares.
    pub open spec fn owner_shares(self, kept: Seq<int>) -> Seq<ShareView> {
        assembled(kept, self.owner_macs, self.owner_keys)
    }

    /// The other peer's shares of `values`.
    pub open spec fn other_shares<F: FiniteRing>(self, values: Seq<int>, kept: Seq<int>) -> Seq<
        ShareView,
    > {
        assembled(complementary::<F>(values, kept), self.other_macs, self.other_keys)
    }
}

/// Whether the owner of `values` keeps the shares `kept`, and both peers have the
/// correlations to authenticate theirs.
pub open spec fn batch_dealt<FE: FiniteField>(
    values: Seq<int>,
    kept: Seq<int>,
    c: Correlations,
    ds: int,
    dt: int,
) -> bool {
    &&& kept.len() == values.len()
    &&& forall|i: int| 0 <= i < values.len() ==> 0 <= #[trigger] values[i] < FE::PrimeField::order()
    &&& forall|i: int| 0 <= i < kept.len() ==> 0 <= #[trigger] kept[i] < FE::PrimeField::order()
    &&& c.fit::<FE>(kept, complementary::<FE::PrimeField>(values, kept), ds, dt)
}

/// Dealing a batch: the peers end up with valid shares of the owner's values.
pub proof fn law_batch_dealt<FE: FiniteField>(
    values: Seq<int>,
    kept: Seq<int>,
    c: Correlations,
    ds: int,
    dt: int,
)
    requires
        batch_dealt::<FE>(values, kept, c, ds, dt),
    ensures
        ({
            let s = c.owner_shares(kept);
            let t = c.other_shares::<FE::PrimeField>(values, kept);
            &&& s.len() == values.len()
            &&& batch_paired::<FE>(s, t, ds, dt)
            &&& forall|i: int|
                0 <= i < values.len() ==> secret::<FE>(#[trigger] s[i], t[i]) == values[i]
        }),
{
    let s = c.owner_shares(kept);
    let other = complementary::<FE::PrimeField>(values, kept);
    let t = c.other_shares::<FE::PrimeField>(values, kept);
    assert forall|i: int| 0 <= i < values.len() implies paired::<FE>(#[trigger] s[i], t[i], ds, dt)
        && secret::<FE>(s[i], t[i]) == values[i] by {
        FE::law_closed(FE::times(dt, embed::<FE>(kept[i])), c.other_keys[i]);
        FE::law_closed(FE::times(ds, embed::<FE>(other[i])), c.owner_keys[i]);
        FE::PrimeField::law_closed(values[i], FE::PrimeField::opposite(kept[i]));
        assert(0 <= values[i] < FE::PrimeField::order());
        assert(0 <= kept[i] < FE::PrimeField::order());
        assert(0 <= c.owner_keys[i] < FE::order());
        assert(c.owner_macs[i] == s[i].mac);
        assert(c.other_macs[i] == t[i].mac);
        law_split_value::<FE>(values[i], s[i], t[i], ds, dt);
    }
}

/// The values of the first, second and third bits of proved triples.
pub open spec fn proved_bits(
    triples: Seq<(MacProver<F40b>, MacProver<F40b>, MacProver<F40b>)>,
) -> (Seq<int>, Seq<int>, Seq<int>) {
    (
        Seq::new(triples.len(), |i: int| triples[i].0.value.val()),
        Seq::new(triples.len(), |i: int| triples[i].1.value.val()),
        Seq::new(triples.len(), |i: int| triples[i].2.value.val()),
    )
}

/// Triples that their owner has proved and dealt: where in each the third bit is
/// the product of the others, the peers end up with valid triples.
pub proof fn law_checked_triples(
    triples: Seq<(MacProver<F40b>, MacProver<F40b>, MacProver<F40b>)>,
    kept: (Seq<int>, Seq<int>, Seq<int>),
    c: (Correlations, Correlations, Correlations),
    ds: int,
    dt: int,
)
    requires
        batch_dealt::<F40b>(proved_bits(triples).0, kept.0, c.0, ds, dt),
        batch_dealt::<F40b>(proved_bits(triples).1, kept.1, c.1, ds, dt),
        batch_dealt::<F40b>(proved_bits(triples).2, kept.2, c.2, ds, dt),
        forall|i: int|
            0 <= i < triples.len() ==> (#[trigger] triples[i]).2.value.val() == F2::times(
                triples[i].0.value.val(),
                triples[i].1.value.val(),
            ),
    ensures
        ({
            let (a, b, p) = proved_bits(triples);
            let s = triple_rows(
                c.0.owner_shares(kept.0),
                c.1.owner_shares(kept.1),
                c.2.owner_shares(kept.2),
            );
            let t = triple_rows(
                c.0.other_shares::<F2>(a, kept.0),
                c.1.other_shares::<F2>(b, kept.1),
                c.2.other_shares::<F2>(p, kept.2),
            );
            &&& s.len() == triples.len()
            &&& t.len() == triples.len()
            &&& forall|i: int|
                0 <= i < triples.len() ==> triple_paired(#[trigger] s[i], t[i], ds, dt)
        }),
{
    let (a, b, p) = proved_bits(triples);
    law_batch_dealt::<F40b>(a, kept.0, c.0, ds, dt);
    law_batch_dealt::<F40b>(b, kept.1, c.1, ds, dt);
    law_batch_dealt::<F40b>(p, kept.2, c.2, ds, dt);
    let s = triple_rows(
        c.0.owner_shares(kept.0),
        c.1.owner_shares(kept.1),
        c.2.owner_shares(kept.2),
    );
    let t = triple_rows(
        c.0.other_shares::<F2>(a, kept.0),
        c.1.other_shares::<F2>(b, kept.1),
        c.2.other_shares::<F2>(p, kept.2),
    );
    assert forall|i: int| 0 <= i < triples.len() implies triple_paired(
        #[trigger] s[i],
        t[i],
        ds,
        dt,
    ) by {
        assert(s[i].a == c.0.owner_shares(kept.0)[i]);
        assert(s[i].b == c.1.owner_shares(kept.1)[i]);
        assert(s[i].c == c.2.owner_shares(kept.2)[i]);
        assert(triples[i].2.value.val() == p[i]);
    }
}

/// DaBits that their owner has proved and dealt: where each holds one bit in both
/// fields, the peers end up with valid daBits.
pub proof fn law_checked_dabits<FE: FiniteField>(
    bits: Seq<int>,
    kept: (Seq<int>, Seq<int>),
    c: (Correlations, Correlations),
    keys: Keys,
)
    requires
        batch_dealt::<F40b>(bits, kept.0, c.0, keys.s_bit, keys.t_bit),
        batch_dealt::<FE>(bits, kept.1, c.1, keys.s_value, keys.t_value),
    ensures
        ({
            let (bs, bt) = (c.0.owner_shares(kept.0), c.0.other_shares::<F2>(bits, kept.0));
            let (vs, vt) = (
                c.1.owner_shares(kept.1),
                c.1.other_shares::<FE::PrimeField>(bits, kept.1),
            );
            &&& bs.len() == bits.len()
            &&& vs.len() == bits.len()
            &&& forall|i: int|
                0 <= i < bits.len() ==> dabit_paired::<FE>(
                    (#[trigger] bs[i], bt[i]),
                    (vs[i], vt[i]),
                    keys,
                )
        }),
{
    law_batch_dealt::<F40b>(bits, kept.0, c.0, keys.s_bit, keys.t_bit);
    law_batch_dealt::<FE>(bits, kept.1, c.1, keys.s_value, keys.t_value);
    let (bs, bt) = (c.0.owner_shares(kept.0), c.0.other_shares::<F2>(bits, kept.0));
    let (vs, vt) = (c.1.owner_shares(kept.1), c.1.other_shares::<FE::PrimeField>(bits, kept.1));
    assert forall|i: int| 0 <= i < bits.len() implies dabit_paired::<FE>(
        (#[trigger] bs[i], bt[i]),
        (vs[i], vt[i]),
        keys,
    ) by {
        assert(paired::<FE>(vs[i], vt[i], keys.s_value, keys.t_value));
        assert(secret::<FE>(vs[i], vt[i]) == bits[i]);
    }
}

/// Whether the MACs on values under the global key `delta` fit the keys.
pub open spec fn macs_fit<FE: FiniteField>(
    values: Seq<FE::PrimeField>,
    macs: Seq<FE>,
    keys: Seq<MacVerifier<FE>>,
    delta: int,
) -> bool {
    &&& macs.len() == values.len()
    &&& keys.len() == values.len()
    &&& forall|k: int|
        0 <= k < values.len() ==> (#[trigger] macs[k]).val() == FE::plus(
            FE::times(delta, embed::<FE>(values[k].val())),
            keys[k].mac.val(),
        )
}

/// One direction of sampling: the owner splits the clear values of the edaBits
/// that it has proved, sends the other peer its parts, and both peers authenticate
/// theirs.
pub struct PrivateSharing<FE: PrimeFiniteField> {
    pub policy: PrivateInputSharingPolicy,
    pub proofs: Seq<LocalEdabit<FE>>,
    pub clear_bits: Seq<Vec<F2>>,
    pub clear_values: Seq<FE>,
    pub split: SplitEdabits<FE>,
    pub owner: MacsAndKeys<FE>,
    pub other: MacsAndKeys<FE>,
    pub sent_bits: Seq<F2>,
    pub sent_values: Seq<FE>,
}

impl<FE: PrimeFiniteField> PrivateSharing<FE> {
    /// Whether both peers follow the protocol for `num` edaBits of `bit_size` bits,
    /// where `keys.s_bit` and `keys.s_value` are those of the owner.
    pub open spec fn followed(self, bit_size: int, num: int, keys: Keys) -> bool {
        &&& bit_size > 0
        &&& self.proofs.len() == num
        &&& forall|i: int| 0 <= i < num ==> (#[trigger] self.proofs[i]).bits@.len() == bit_size
        &&& edabits_cleared(self.clear_bits, self.clear_values, self.proofs)
        &&& edabits_split(self.split, self.clear_bits, self.clear_values, self.policy)
        &&& macs_fit::<F40b>(
            rows(self.split.local_bits@).flatten(),
            self.owner.bit_macs,
            self.other.bit_keys,
            keys.t_bit,
        )
        &&& macs_fit::<FE>(
            self.split.local_values@,
            self.owner.value_macs,
            self.other.value_keys,
            keys.t_value,
        )
        &&& self.policy is RandomAdditive ==> {
            &&& self.sent_bits == rows(self.split.remote_bits@).flatten()
            &&& self.sent_values == self.split.remote_values@
            &&& macs_fit::<F40b>(
                self.sent_bits,
                self.other.bit_macs,
                self.owner.bit_keys,
                keys.s_bit,
            )
            &&& macs_fit::<FE>(
                self.sent_values,
                self.other.value_macs,
                self.owner.value_keys,
                keys.s_value,
            )
        }
    }

    /// Whether `r` is what the owner gets.
    pub open spec fn owned(self, r: Seq<PrivateEdabit<FE>>) -> bool {
        edabits_shared(
            r,
            self.clear_bits,
            self.clear_values,
            self.policy,
            self.split,
            self.owner,
        )
    }

    /// Whether `r` is what the other peer gets.
    pub open spec fn received(self, r: Seq<SharedEdabit<FE>>, bit_size: int, num: int) -> bool {
        edabits_received(
            r,
            bit_size,
            num,
            self.policy,
            self.sent_bits,
            self.sent_values,
            self.other,
        )
    }
}

/// Whether `own` are edaBits of which the other peer holds `other`, which the
/// owner has proved as `proofs`: row by row the two parts belong together, and
/// hold what was proved.
pub open spec fn halves_match<FE: PrimeFiniteField>(
    own: Seq<PrivateEdabit<FE>>,
    other: Seq<SharedEdabit<FE>>,
    proofs: Seq<LocalEdabit<FE>>,
    bit_size: int,
    num: int,
    keys: Keys,
) -> bool {
    &&& own.len() == num
    &&& other.len() == num
    &&& proofs.len() == num
    &&& forall|i: int|
        0 <= i < num ==> {
            &&& (#[trigger] own[i]).clear_bits@.len() == bit_size
            &&& own[i].shared.bits@.len() == bit_size
            &&& other[i].bits@.len() == bit_size
            &&& proofs[i].bits@.len() == bit_size
            &&& forall|j: int|
                0 <= j < bit_size ==> #[trigger] own[i].clear_bits@[j]
                    == proofs[i].bits@[j].value
            &&& own[i].clear_value == proofs[i].value.value
            &&& edabit_paired::<FE>(own[i].shared@, other[i]@, keys)
            &&& shared_bits::<AuthenticatedShare<F40b>>(own[i].shared@.bits, other[i]@.bits)
                == truths(own[i].clear_bits@)
            &&& secret::<FE>(own[i].shared@.value, other[i]@.value) == own[i].clear_value.val()
            &&& own[i].clear_value.val() == number(own[i].clear_bits@) as int % FE::order()
                ==> edabit_consistent::<FE>(own[i].shared@, other[i]@)
        }
}

/// One row of a sharing.
proof fn lemma_row_shared<FE: PrimeFiniteField>(
    w: PrivateSharing<FE>,
    own: Seq<PrivateEdabit<FE>>,
    other: Seq<SharedEdabit<FE>>,
    bit_size: int,
    num: int,
    keys: Keys,
    i: int,
)
    requires
        w.followed(bit_size, num, keys),
        w.owned(own),
        w.received(other, bit_size, num),
        0 <= i < num,
    ensures
        edabit_paired::<FE>(own[i].shared@, other[i]@, keys),
        shared_bits::<AuthenticatedShare<F40b>>(own[i].shared@.bits, other[i]@.bits) == truths(
            own[i].clear_bits@,
        ),
        secret::<FE>(own[i].shared@.value, other[i]@.value) == own[i].clear_value.val(),
{
    let m = bit_size;
    assert(w.clear_bits[0]@.len() == m && w.clear_bits[i]@.len() == m) by {
        assert(w.proofs[0].bits@.len() == m && w.proofs[i].bits@.len() == m);
    }
    assert(own[i].clear_bits@ == w.clear_bits[i]@);
    let (s, t) = (own[i].shared@, other[i]@);
    let local = rows(w.split.local_bits@);
    let remote = rows(w.split.remote_bits@);
    assert forall|k: int| 0 <= k < num implies #[trigger] local[k].len() == m by {
        assert(w.proofs[k].bits@.len() == m);
        assert(w.clear_bits[k]@.len() == m);
        assert(w.split.local_bits@[k]@.len() == m);
    }
    assert forall|k: int| 0 <= k < num implies #[trigger] remote[k].len() == m by {
        assert(local[k].len() == m);
        assert(w.clear_bits[k]@.len() == m);
        assert(w.split.local_bits@[k]@.len() == m);
    }
    assert forall|j: int| 0 <= j < m implies dealt::<F40b>(
        w.policy,
        w.clear_bits[i]@[j].val(),
        #[trigger] s.bits[j],
        t.bits[j],
        keys.s_bit,
        keys.t_bit,
    ) by {
        lemma_flatten_index(local, m, i, j);
        assert(own[i].shared.bits@[j]@ == s.bits[j]);
        assert(other[i].bits@[j]@ == t.bits[j]);
        own[i].shared.bits@[j].lemma_canonical();
        other[i].bits@[j].lemma_canonical();
        w.clear_bits[i]@[j].law_val();
        assert(w.split.local_bits@[i]@[j] == local[i][j]);
        assert(w.owner.bit_macs[i * m + j].val() == s.bits[j].mac);
        if w.policy is RandomAdditive {
            assert(w.split.local_bits@[i]@.len() == m);
            lemma_flatten_index(remote, m, i, j);
            assert(w.split.remote_bits@[i]@[j] == remote[i][j]);
            assert(w.other.bit_macs[i * m + j].val() == t.bits[j].mac);
        } else {
            assert(w.split.local_bits@[i]@ == w.clear_bits[i]@);
        }
    }
    assert(dealt::<FE>(
        w.policy,
        w.clear_values[i].val(),
        s.value,
        t.value,
        keys.s_value,
        keys.t_value,
    )) by {
        own[i].shared.value.lemma_canonical();
        other[i].value.lemma_canonical();
        w.clear_values[i].law_val();
        assert(w.split.local_bits@[i]@.len() == m);
        assert(w.owner.value_macs[i].val() == s.value.mac);
        if w.policy is RandomAdditive {
            assert(w.other.value_macs[i].val() == t.value.mac);
        }
    }
    let clear = truths(w.clear_bits[i]@);
    assert forall|j: int| 0 <= j < m implies paired::<F40b>(
        #[trigger] s.bits[j],
        t.bits[j],
        keys.s_bit,
        keys.t_bit,
    ) && (secret::<F40b>(s.bits[j], t.bits[j]) == 1) == clear[j] by {
        law_dealt::<F40b>(
            w.policy,
            w.clear_bits[i]@[j].val(),
            s.bits[j],
            t.bits[j],
            keys.s_bit,
            keys.t_bit,
        );
    }
    law_dealt::<FE>(
        w.policy,
        w.clear_values[i].val(),
        s.value,
        t.value,
        keys.s_value,
        keys.t_value,
    );
    assert(shared_bits::<AuthenticatedShare<F40b>>(s.bits, t.bits) =~= clear);
}

proof fn lemma_halves_match<FE: PrimeFiniteField>(
    w: PrivateSharing<FE>,
    own: Seq<PrivateEdabit<FE>>,
    other: Seq<SharedEdabit<FE>>,
    bit_size: int,
    num: int,
    keys: Keys,
)
    requires
        w.followed(bit_size, num, keys),
        w.owned(own),
        w.received(other, bit_size, num),
    ensures
        halves_match::<FE>(own, other, w.proofs, bit_size, num, keys),
{
    assert forall|i: int| 0 <= i < num implies {
        &&& (#[trigger] own[i]).clear_bits@.len() == bit_size
        &&& own[i].shared.bits@.len() == bit_size
        &&& other[i].bits@.len() == bit_size
        &&& w.proofs[i].bits@.len() == bit_size
        &&& forall|j: int|
            0 <= j < bit_size ==> #[trigger] own[i].clear_bits@[j] == w.proofs[i].bits@[j].value
        &&& own[i].clear_value == w.proofs[i].value.value
        &&& edabit_paired::<FE>(own[i].shared@, other[i]@, keys)
        &&& shared_bits::<AuthenticatedShare<F40b>>(own[i].shared@.bits, other[i]@.bits) == truths(
            own[i].clear_bits@,
        )
        &&& secret::<FE>(own[i].shared@.value, other[i]@.value) == own[i].clear_value.val()
        &&& own[i].clear_value.val() == number(own[i].clear_bits@) as int % FE::order()
            ==> edabit_consistent::<FE>(own[i].shared@, other[i]@)
    } by {
        lemma_row_shared(w, own, other, bit_size, num, keys, i);
        assert(w.proofs[0].bits@.len() == bit_size && w.proofs[i].bits@.len() == bit_size);
        assert(w.clear_bits[0]@.len() == bit_size && w.clear_bits[i]@.len() == bit_size);
        assert(w.clear_values[i] == w.proofs[i].value.value);
        assert(own[i].clear_bits@ == w.clear_bits[i]@);
    }
}

/// Splitting clear edaBits: in each bit and in each value the two parts add up to
/// what is clear, and where the owner keeps the clear edaBits the other part is
/// zero.
pub proof fn law_split_edabits<FE: PrimeFiniteField>(
    split: SplitEdabits<FE>,
    clear_bits: Seq<Vec<F2>>,
    clear_values: Seq<FE>,
    policy: PrivateInputSharingPolicy,
    i: int,
)
    requires
        edabits_split(split, clear_bits, clear_values, policy),
        0 <= i < clear_bits.len(),
        clear_bits[i]@.len() == clear_bits[0]@.len(),
    ensures
        split.local_bits@.len() == clear_bits.len(),
        split.remote_bits@.len() == clear_bits.len(),
        split.local_values@.len() == clear_bits.len(),
        split.remote_values@.len() == clear_bits.len(),
        split.local_bits@[i]@.len() == clear_bits[i]@.len(),
        split.remote_bits@[i]@.len() == clear_bits[i]@.len(),
        forall|j: int|
            0 <= j < clear_bits[i]@.len() ==> {
                &&& F2::plus(
                    (#[trigger] split.local_bits@[i]@[j]).val(),
                    split.remote_bits@[i]@[j].val(),
                ) == clear_bits[i]@[j].val()
                &&& policy is OwnerZero ==> split.remote_bits@[i]@[j].val() == 0
            },
        FE::plus(split.local_values@[i].val(), split.remote_values@[i].val())
            == clear_values[i].val(),
        policy is OwnerZero ==> split.remote_values@[i].val() == 0,
{
    assert(split.local_bits@[i]@.len() == clear_bits[i]@.len());
    assert forall|j: int| 0 <= j < clear_bits[i]@.len() implies {
        &&& F2::plus(
            (#[trigger] split.local_bits@[i]@[j]).val(),
            split.remote_bits@[i]@[j].val(),
        ) == clear_bits[i]@[j].val()
        &&& policy is OwnerZero ==> split.remote_bits@[i]@[j].val() == 0
    } by {
        let (a, b) = (split.local_bits@[i]@[j].val(), clear_bits[i]@[j].val());
        clear_bits[i]@[j].law_val();
        split.local_bits@[i]@[j].law_val();
        assert(split.remote_bits@[i]@[j].val() == split.remote_bits@[i]@[j].val());
        lemma_plus_minus::<F2>(b, a);
        F2::law_plus_zero(b);
    }
    let (a, b) = (split.local_values@[i].val(), clear_values[i].val());
    clear_values[i].law_val();
    lemma_plus_minus::<FE>(b, a);
    FE::law_plus_zero(b);
}

/// Where the parts of the owner's shares come from: the values from its part of the
/// split, the MACs from those on all its bits one after the other, and the keys from
/// the other peer, or zero where the other peer's parts are.
pub proof fn law_owned_parts<FE: PrimeFiniteField>(
    r: Seq<PrivateEdabit<FE>>,
    clear: (Seq<Vec<F2>>, Seq<FE>),
    policy: PrivateInputSharingPolicy,
    split: SplitEdabits<FE>,
    a: MacsAndKeys<FE>,
    i: int,
    j: int,
)
    requires
        edabits_shared(r, clear.0, clear.1, policy, split, a),
        0 <= i < r.len(),
        0 <= j < clear.0[0]@.len(),
    ensures
        r.len() == clear.0.len(),
        r[i].clear_bits@ == clear.0[i]@,
        r[i].clear_value == clear.1[i],
        r[i].shared.bits@[j]@.value == split.local_bits@[i]@[j].val(),
        r[i].shared.bits@[j]@.mac == a.bit_macs[i * clear.0[0]@.len() + j].val(),
        policy is RandomAdditive ==> r[i].shared.bits@[j]@.key == a.bit_keys[i
            * clear.0[0]@.len() + j].mac.val(),
        policy is OwnerZero ==> r[i].shared.bits@[j]@.key == 0,
        r[i].shared.value@.value == split.local_values@[i].val(),
        r[i].shared.value@.mac == a.value_macs[i].val(),
        policy is RandomAdditive ==> r[i].shared.value@.key == a.value_keys[i].mac.val(),
        policy is OwnerZero ==> r[i].shared.value@.key == 0,
{
    assert(r[i].shared.bits@[j]@.value == split.local_bits@[i]@[j].val());
}

/// Where the parts of the other peer's shares come from: the keys from those to all
/// the owner's bits one after the other, and the values and MACs from what it was
/// sent, or zero where its parts are.
pub proof fn law_received_parts<FE: PrimeFiniteField>(
    r: Seq<SharedEdabit<FE>>,
    bit_size: int,
    num: int,
    policy: PrivateInputSharingPolicy,
    sent: (Seq<F2>, Seq<FE>),
    a: MacsAndKeys<FE>,
    i: int,
    j: int,
)
    requires
        edabits_received(r, bit_size, num, policy, sent.0, sent.1, a),
        0 <= i < num,
        0 <= j < bit_size,
    ensures
        r.len() == num,
        r[i].bits@.len() == bit_size,
        r[i].bits@[j]@.key == a.bit_keys[i * bit_size + j].mac.val(),
        r[i].value@.key == a.value_keys[i].mac.val(),
        policy is RandomAdditive ==> {
            &&& r[i].bits@[j]@.value == sent.0[i * bit_size + j].val()
            &&& r[i].bits@[j]@.mac == a.bit_macs[i * bit_size + j].val()
            &&& r[i].value@.value == sent.1[i].val()
            &&& r[i].value@.mac == a.value_macs[i].val()
        },
        policy is OwnerZero ==> {
            &&& r[i].bits@[j]@.value == 0 && r[i].bits@[j]@.mac == 0
            &&& r[i].value@.value == 0 && r[i].value@.mac == 0
        },
{
    assert(r[i].bits@[j]@.key == a.bit_keys[i * bit_size + j].mac.val());
}

/// Sampling by both peers: what a peer receives is row by row the other part of
/// what the other peer owns, in both directions, and holds what was proved. `s` is
/// one peer's state, `t` the other's.
pub proof fn law_sampled_states<FE: PrimeFiniteField>(
    of_s: PrivateSharing<FE>,
    of_t: PrivateSharing<FE>,
    s: PrivateEdabitState<FE>,
    t: PrivateEdabitState<FE>,
    bit_size: int,
    num: int,
    keys: Keys,
)
    requires
        of_s.followed(bit_size, num, keys),
        of_t.followed(bit_size, num, keys.exchanged()),
        of_s.owned(s.private_edabits@),
        of_s.received(t.peer_private_edabits@, bit_size, num),
        of_t.owned(t.private_edabits@),
        of_t.received(s.peer_private_edabits@, bit_size, num),
        s.private_proof_edabits@ == of_s.proofs,
        t.private_proof_edabits@ == of_t.proofs,
    ensures
        halves_match::<FE>(
            s.private_edabits@,
            t.peer_private_edabits@,
            s.private_proof_edabits@,
            bit_size,
            num,
            keys,
        ),
        halves_match::<FE>(
            t.private_edabits@,
            s.peer_private_edabits@,
            t.private_proof_edabits@,
            bit_size,
            num,
            keys.exchanged(),
        ),
{
    lemma_halves_match(
        of_s,
        s.private_edabits@,
        t.peer_private_edabits@,
        bit_size,
        num,
        keys,
    );
    lemma_halves_match(
        of_t,
        t.private_edabits@,
        s.peer_private_edabits@,
        bit_size,
        num,
        keys.exchanged(),
    );
}

} // verus!
