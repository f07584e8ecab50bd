use vstd::prelude::*;

use crate::rng::{xorshift_step, Rand};
use vstd::multiset::Multiset;

verus! {

/// Record counts as mathematical counts.
pub open spec fn nat_counts(s: Seq<usize>) -> Seq<nat> {
    s.map_values(|p: usize| p as nat)
}

/// Total of a sequence of counts.
pub open spec fn sum_of(counts: Seq<nat>) -> nat
    decreases counts.len(),
{
    if counts.len() == 0 {
        0
    } else {
        counts[0] + sum_of(counts.drop_first())
    }
}

/// Remaining record count of each partition.
pub open spec fn pops_of(parts: Seq<Seq<Seq<u8>>>) -> Seq<nat> {
    parts.map_values(|p: Seq<Seq<u8>>| p.len())
}

/// Inverse-CDF selection over integer weights: the least index whose
/// cumulative count exceeds the draw `u`. Selecting with a uniform
/// `u < sum_of(counts)` picks index `i` with probability
/// `counts[i] / sum_of(counts)`; an index with count zero is never picked.
pub open spec fn pick_spec(counts: Seq<nat>, u: nat) -> int
    recommends
        u < sum_of(counts),
    decreases counts.len(),
{
    if counts.len() == 0 {
        0
    } else if u < counts[0] {
        0
    } else {
        1 + pick_spec(counts.drop_first(), (u - counts[0]) as nat)
    }
}

/// Law: a selection below the total always lands on an index whose count
/// is positive; an empty partition is never selected.
pub proof fn lemma_pick_spec_props(counts: Seq<nat>, u: nat)
    requires
        u < sum_of(counts),
    ensures
        0 <= pick_spec(counts, u) < counts.len(),
        counts[pick_spec(counts, u)] > 0,
    decreases counts.len(),
{
    if counts.len() == 0 {
    } else if u < counts[0] {
    } else {
        lemma_pick_spec_props(counts.drop_first(), (u - counts[0]) as nat);
    }
}

/// Updating one count moves the total by the difference.
pub proof fn lemma_sum_update(counts: Seq<nat>, i: int, v: nat)
    requires
        0 <= i < counts.len(),
    ensures
        sum_of(counts.update(i, v)) == sum_of(counts) - counts[i] + v,
    decreases counts.len(),
{
    if i == 0 {
        assert(counts.update(0, v).drop_first() =~= counts.drop_first());
    } else {
        assert(counts.update(i, v).drop_first() =~= counts.drop_first().update(i - 1, v));
        lemma_sum_update(counts.drop_first(), i - 1, v);
    }
}

/// A one-longer prefix adds the next count to the prefix total.
pub proof fn lemma_sum_take_step(counts: Seq<nat>, i: int)
    requires
        0 <= i < counts.len(),
    ensures
        sum_of(counts.take(i + 1)) == sum_of(counts.take(i)) + counts[i],
    decreases i,
{
    if i == 0 {
        assert(counts.take(1).drop_first() =~= Seq::<nat>::empty());
        assert(counts.take(0) =~= Seq::<nat>::empty());
    } else {
        assert(counts.take(i + 1).drop_first() =~= counts.drop_first().take(i));
        assert(counts.take(i).drop_first() =~= counts.drop_first().take(i - 1));
        lemma_sum_take_step(counts.drop_first(), i - 1);
    }
}

/// A prefix total never exceeds the whole total.
pub proof fn lemma_sum_take_le(counts: Seq<nat>, i: int)
    requires
        0 <= i <= counts.len(),
    ensures
        sum_of(counts.take(i)) <= sum_of(counts),
    decreases counts.len() - i,
{
    if i == counts.len() {
        assert(counts.take(i) =~= counts);
    } else {
        lemma_sum_take_step(counts, i);
        lemma_sum_take_le(counts, i + 1);
    }
}

/// Adds up record counts.
pub fn sum_counts(populations: &Vec<usize>) -> (t: usize)
    requires
        sum_of(nat_counts(populations@)) <= usize::MAX,
    ensures
        t == sum_of(nat_counts(populations@)),
{
    let ghost cs = nat_counts(populations@);
    let mut t: usize = 0;
    let mut i: usize = 0;
    proof {
        assert(cs.take(0) =~= Seq::<nat>::empty());
    }
    while i < populations.len()
        invariant
            i <= populations@.len(),
            cs == nat_counts(populations@),
            sum_of(cs) <= usize::MAX,
            t == sum_of(cs.take(i as int)),
        decreases populations@.len() - i,
    {
        proof {
            lemma_sum_take_step(cs, i as int);
            lemma_sum_take_le(cs, i as int + 1);
        }
        t = t + populations[i];
        i = i + 1;
    }
    proof {
        assert(cs.take(populations@.len() as int) =~= cs);
    }
    t
}

/// Picks the partition the draw `u` lands on: the least index whose
/// cumulative population exceeds `u`, exactly `pick_spec`.
pub fn pick_index(populations: &Vec<usize>, u: usize) -> (idx: usize)
    requires
        (u as nat) < sum_of(nat_counts(populations@)),
    ensures
        idx as int == pick_spec(nat_counts(populations@), u as nat),
        idx < populations@.len(),
        populations@[idx as int] > 0,
{
    let ghost cs = nat_counts(populations@);
    let n = populations.len();
    let mut k: usize = 0;
    let mut rem: usize = u;
    proof {
        assert(cs.skip(0) =~= cs);
    }
    loop
        invariant
            k <= n,
            n == populations@.len(),
            cs == nat_counts(populations@),
            (rem as nat) < sum_of(cs.skip(k as int)),
            pick_spec(cs, u as nat) == k + pick_spec(cs.skip(k as int), rem as nat),
        decreases populations@.len() - k,
    {
        proof {
            if k == populations@.len() {
                assert(cs.skip(k as int) =~= Seq::<nat>::empty());
                assert(sum_of(cs.skip(k as int)) == 0);
                assert(false);
            }
        }
        let p = populations[k];
        proof {
            assert(cs.skip(k as int)[0] == cs[k as int]);
        }
        if rem < p {
            return k;
        }
        proof {
            assert(cs.skip(k as int).drop_first() =~= cs.skip(k as int + 1));
            assert(sum_of(cs.skip(k as int)) == cs[k as int] + sum_of(cs.skip(k as int + 1)));
            assert(pick_spec(cs.skip(k as int), rem as nat) == 1 + pick_spec(
                cs.skip(k as int + 1),
                (rem - p) as nat,
            ));
        }
        rem = rem - p;
        k = k + 1;
    }
}

/// All the records of all the partitions, with multiplicity.
pub open spec fn multiset_union(parts: Seq<Seq<Seq<u8>>>) -> Multiset<Seq<u8>>
    decreases parts.len(),
{
    if parts.len() == 0 {
        Multiset::empty()
    } else {
        parts[0].to_multiset().add(multiset_union(parts.drop_first()))
    }
}

/// When every partition is drained the union holds nothing.
pub proof fn lemma_union_empty(parts: Seq<Seq<Seq<u8>>>)
    requires
        sum_of(pops_of(parts)) == 0,
    ensures
        multiset_union(parts) == Multiset::<Seq<u8>>::empty(),
    decreases parts.len(),
{
    broadcast use vstd::seq_lib::group_to_multiset_ensures;
    broadcast use vstd::multiset::group_multiset_axioms;

    if parts.len() == 0 {
    } else {
        assert(pops_of(parts)[0] == parts[0].len());
        assert(pops_of(parts).drop_first() =~= pops_of(parts.drop_first()));
        lemma_union_empty(parts.drop_first());
        assert(parts[0].to_multiset().len() == 0);
        assert(multiset_union(parts) =~= Multiset::<Seq<u8>>::empty());
    }
}

/// Taking the front record of partition `i` takes exactly one copy of that
/// record out of the union.
pub proof fn lemma_union_pick(parts: Seq<Seq<Seq<u8>>>, i: int)
    requires
        0 <= i < parts.len(),
        parts[i].len() > 0,
    ensures
        multiset_union(parts) == multiset_union(
            parts.update(i, parts[i].drop_first()),
        ).insert(parts[i][0]),
    decreases parts.len(),
{
    broadcast use vstd::seq_lib::group_to_multiset_ensures;
    broadcast use vstd::multiset::group_multiset_axioms;

    if i == 0 {
        let p = parts[0];
        assert(p.remove(0) =~= p.drop_first());
        assert(p.drop_first().to_multiset() == p.to_multiset().remove(p[0]));
        assert(p.contains(p[0]));
        assert(parts.update(0, p.drop_first()).drop_first() =~= parts.drop_first());
        assert(p.to_multiset() =~= p.drop_first().to_multiset().insert(p[0]));
        assert(multiset_union(parts) =~= multiset_union(
            parts.update(0, p.drop_first()),
        ).insert(p[0]));
    } else {
        assert(parts.update(i, parts[i].drop_first()).drop_first() =~= parts.drop_first().update(
            i - 1,
            parts.drop_first()[i - 1].drop_first(),
        ));
        lemma_union_pick(parts.drop_first(), i - 1);
        assert(multiset_union(parts) =~= multiset_union(
            parts.update(i, parts[i].drop_first()),
        ).insert(parts[i][0]));
    }
}

/// The weighted merge: while records remain, draw below the remaining
/// total, pick the partition the draw lands on, and move its front record
/// to the output. Returns the merged records and the generator state after
/// all the draws.
pub open spec fn merge_rec(parts: Seq<Seq<Seq<u8>>>, st: u64) -> (Seq<Seq<u8>>, u64)
    decreases sum_of(pops_of(parts)),
    via merge_rec_decreases
{
    if sum_of(pops_of(parts)) == 0 {
        (Seq::<Seq<u8>>::empty(), st)
    } else {
        let st2 = xorshift_step(st);
        let u = st2 as nat % sum_of(pops_of(parts));
        let i = pick_spec(pops_of(parts), u);
        let rest = merge_rec(parts.update(i, parts[i].drop_first()), st2);
        (seq![parts[i][0]] + rest.0, rest.1)
    }
}

#[via_fn]
proof fn merge_rec_decreases(parts: Seq<Seq<Seq<u8>>>, st: u64) {
    let counts = pops_of(parts);
    let total = sum_of(counts);
    if total != 0 {
        let st2 = xorshift_step(st);
        let u = st2 as nat % total;
        lemma_pick_spec_props(counts, u);
        let i = pick_spec(counts, u);
        lemma_sum_update(counts, i, (counts[i] - 1) as nat);
        assert(pops_of(parts.update(i, parts[i].drop_first())) =~= counts.update(
            i,
            (counts[i] - 1) as nat,
        ));
    }
}

/// Law (conservation): the merged stream holds exactly the records of the
/// partitions: one output record per input record, and the multiset of
/// output records equals the union of the partitions' records.
pub proof fn lemma_merge_rec_conserves(parts: Seq<Seq<Seq<u8>>>, st: u64)
    ensures
        merge_rec(parts, st).0.len() == sum_of(pops_of(parts)),
        merge_rec(parts, st).0.to_multiset() == multiset_union(parts),
    decreases sum_of(pops_of(parts)),
{
    broadcast use vstd::seq_lib::group_to_multiset_ensures;
    broadcast use vstd::multiset::group_multiset_axioms;

    let counts = pops_of(parts);
    let total = sum_of(counts);
    if total == 0 {
        lemma_union_empty(parts);
        assert(merge_rec(parts, st).0.to_multiset() =~= Multiset::<Seq<u8>>::empty());
    } else {
        let st2 = xorshift_step(st);
        let u = st2 as nat % total;
        lemma_pick_spec_props(counts, u);
        let i = pick_spec(counts, u);
        let parts2 = parts.update(i, parts[i].drop_first());
        lemma_sum_update(counts, i, (counts[i] - 1) as nat);
        assert(pops_of(parts2) =~= counts.update(i, (counts[i] - 1) as nat));
        lemma_merge_rec_conserves(parts2, st2);
        lemma_union_pick(parts, i);
        let rec = parts[i][0];
        let rest = merge_rec(parts2, st2);
        vstd::seq_lib::lemma_multiset_commutative(seq![rec], rest.0);
        assert(seq![rec] =~= Seq::<Seq<u8>>::empty().push(rec));
        assert(Seq::<Seq<u8>>::empty().to_multiset() =~= Multiset::<Seq<u8>>::empty());
        assert(seq![rec].to_multiset() =~= Multiset::<Seq<u8>>::empty().insert(rec));
        assert((seq![rec] + rest.0).to_multiset() =~= rest.0.to_multiset().insert(rec));
        assert(merge_rec(parts, st).0.to_multiset() =~= multiset_union(parts));
    }
}

/// The partition the next record is drawn from, given the populations
/// and the generator state: one xorshift draw reduced below the total,
/// then the inverse-CDF pick.
pub open spec fn merge_draw(counts: Seq<nat>, st: u64) -> int
    recommends
        sum_of(counts) > 0,
{
    pick_spec(counts, (xorshift_step(st) as nat) % sum_of(counts))
}

/// Merge-phase state for a caller that drains real partition files
/// itself: the per-partition populations, their total, and the
/// generator. The caller asks which partition the next record comes
/// from, reads one record from that file, and repeats until drained.
pub struct MergeState {
    populations: Vec<usize>,
    total: usize,
    rng: Rand,
}

impl MergeState {
    /// The remaining record count of each partition.
    pub closed spec fn pops(&self) -> Seq<nat> {
        nat_counts(self.populations@)
    }

    /// Records still to be drawn, over all partitions.
    pub closed spec fn total_spec(&self) -> nat {
        self.total as nat
    }

    /// The generator state.
    pub closed spec fn rng_state(&self) -> u64 {
        self.rng.state()
    }

    /// The counter invariant: the tracked total is the sum of the
    /// populations.
    pub open spec fn wf(&self) -> bool {
        self.total_spec() == sum_of(self.pops())
    }

    /// Starts a merge over partitions with the given populations, the
    /// generator seeded explicitly.
    pub fn new(populations: Vec<usize>, seed: u64) -> (r: MergeState)
        requires
            sum_of(nat_counts(populations@)) <= usize::MAX,
        ensures
            r.wf(),
            r.pops() == nat_counts(populations@),
            r.total_spec() == sum_of(nat_counts(populations@)),
            r.rng_state() == seed,
    {
        let total = sum_counts(&populations);
        MergeState { populations, total, rng: Rand::new(seed) }
    }

    /// How many records remain to be drawn.
    pub fn remaining(&self) -> (t: usize)
        ensures
            t == self.total_spec(),
    {
        self.total
    }

    /// Draws the partition the next output record comes from and counts
    /// it off: exactly `merge_draw`, so the drawn partition always holds
    /// a record. `None` exactly when every partition is drained.
    pub fn next_source(&mut self) -> (r: Option<usize>)
        requires
            old(self).wf(),
        ensures
            final(self).wf(),
            r is None <==> old(self).total_spec() == 0,
            old(self).total_spec() == 0 ==> final(self).pops() == old(self).pops()
                && final(self).rng_state() == old(self).rng_state(),
            old(self).total_spec() > 0 ==> {
                &&& r == Some(merge_draw(old(self).pops(), old(self).rng_state()) as usize)
                &&& 0 <= merge_draw(old(self).pops(), old(self).rng_state())
                    < old(self).pops().len()
                &&& old(self).pops()[merge_draw(old(self).pops(), old(self).rng_state())] > 0
                &&& final(self).pops() == old(self).pops().update(
                    merge_draw(old(self).pops(), old(self).rng_state()),
                    (old(self).pops()[merge_draw(old(self).pops(), old(self).rng_state())]
                        - 1) as nat,
                )
                &&& final(self).total_spec() == old(self).total_spec() - 1
                &&& final(self).rng_state() == xorshift_step(old(self).rng_state())
            },
    {
        if self.total == 0 {
            return None;
        }
        let ghost old_pops = nat_counts(self.populations@);
        let u = self.rng.rand_below(self.total as u64) as usize;
        let idx = pick_index(&self.populations, u);
        let p = self.populations[idx];
        self.populations.set(idx, p - 1);
        self.total = self.total - 1;
        proof {
            assert(u as nat == (xorshift_step(old(self).rng_state()) as nat) % sum_of(old_pops));
            assert(idx as int == merge_draw(old_pops, old(self).rng_state()));
            assert(nat_counts(self.populations@) =~= old_pops.update(
                idx as int,
                (old_pops[idx as int] - 1) as nat,
            ));
            lemma_sum_update(old_pops, idx as int, (old_pops[idx as int] - 1) as nat);
        }
        Some(idx)
    }
}

/// The not-yet-consumed tail of every partition.
pub open spec fn remaining_of(parts: Seq<Seq<Seq<u8>>>, cursors: Seq<usize>) -> Seq<Seq<Seq<u8>>>
    recommends
        cursors.len() == parts.len(),
{
    Seq::new(parts.len(), |i: int| parts[i].skip(cursors[i] as int))
}

/// Merges the partitions into one record stream, drawing from the given
/// generator; the result and the final generator state are exactly
/// `merge_rec` of the partitions and the starting state. Every record of
/// every partition appears exactly once in the result.
pub fn merge_partitions(parts: &Vec<Vec<Vec<u8>>>, rng: &mut Rand) -> (out: Vec<Vec<u8>>)
    requires
        sum_of(pops_of(parts.deep_view())) <= usize::MAX,
    ensures
        out.deep_view() == merge_rec(parts.deep_view(), old(rng).state()).0,
        final(rng).state() == merge_rec(parts.deep_view(), old(rng).state()).1,
        out.deep_view().to_multiset() == multiset_union(parts.deep_view()),
        out.deep_view().len() == sum_of(pops_of(parts.deep_view())),
{
    let ghost pdv = parts.deep_view();
    let ghost s0 = rng.state();
    proof {
        lemma_merge_rec_conserves(pdv, s0);
    }
    let k = parts.len();
    let mut cursors: Vec<usize> = Vec::new();
    let mut pops: Vec<usize> = Vec::new();
    let mut i: usize = 0;
    while i < k
        invariant
            i <= k,
            k == parts@.len(),
            pdv == parts.deep_view(),
            cursors@.len() == i,
            pops@.len() == i,
            forall|j: int| 0 <= j < i ==> cursors@[j] == 0,
            forall|j: int| 0 <= j < i ==> pops@[j] as nat == pdv[j].len(),
        decreases k - i,
    {
        cursors.push(0);
        pops.push(parts[i].len());
        i = i + 1;
    }
    proof {
        assert(nat_counts(pops@) =~= pops_of(remaining_of(pdv, cursors@)));
        assert(remaining_of(pdv, cursors@) =~~= pdv);
        assert(nat_counts(pops@) =~= pops_of(pdv));
    }
    let mut total: usize = sum_counts(&pops);
    let mut out: Vec<Vec<u8>> = Vec::new();
    while total > 0
        invariant
            k == parts@.len(),
            pdv == parts.deep_view(),
            cursors@.len() == k,
            pops@.len() == k,
            forall|j: int|
                0 <= j < k ==> #[trigger] cursors@[j] as int <= pdv[j].len(),
            forall|j: int|
                0 <= j < k ==> #[trigger] pops@[j] as int == pdv[j].len() - cursors@[j],
            total == sum_of(pops_of(remaining_of(pdv, cursors@))),
            nat_counts(pops@) == pops_of(remaining_of(pdv, cursors@)),
            out.deep_view() + merge_rec(remaining_of(pdv, cursors@), rng.state()).0 == merge_rec(
                pdv,
                s0,
            ).0,
            merge_rec(remaining_of(pdv, cursors@), rng.state()).1 == merge_rec(pdv, s0).1,
        decreases total,
    {
        let ghost rem_before = remaining_of(pdv, cursors@);
        let ghost st_before = rng.state();
        let ghost out_before = out.deep_view();
        let u64v = rng.rand_below(total as u64);
        let u = u64v as usize;
        proof {
            assert(u as nat == xorshift_step(st_before) as nat % sum_of(pops_of(rem_before)));
            lemma_pick_spec_props(nat_counts(pops@), u as nat);
        }
        let idx = pick_index(&pops, u);
        let cur = cursors[idx];
        let plen = parts[idx].len();
        proof {
            assert(nat_counts(pops@)[idx as int] > 0);
            assert(pops_of(rem_before)[idx as int] > 0);
            assert(rem_before[idx as int].len() > 0);
            assert(rem_before[idx as int] == pdv[idx as int].skip(cur as int));
            assert(plen as int == pdv[idx as int].len());
            assert(cur < plen);
        }
        let rec = vstd::slice::slice_to_vec(parts[idx][cur].as_slice());
        out.push(rec);
        cursors.set(idx, cur + 1);
        let p = pops[idx];
        pops.set(idx, p - 1);
        total = total - 1;
        proof {
            let st2 = rng.state();
            let rem_after = remaining_of(pdv, cursors@);
            assert(rem_before[idx as int].drop_first() =~= rem_after[idx as int]);
            assert(rem_after =~~= rem_before.update(
                idx as int,
                rem_before[idx as int].drop_first(),
            ));
            assert(nat_counts(pops@) =~= pops_of(rem_after));
            lemma_sum_update(
                pops_of(rem_before),
                idx as int,
                (pops_of(rem_before)[idx as int] - 1) as nat,
            );
            assert(pops_of(rem_after) =~= pops_of(rem_before).update(
                idx as int,
                (pops_of(rem_before)[idx as int] - 1) as nat,
            ));
            assert(rec@ == rem_before[idx as int][0]);
            assert(merge_rec(rem_before, st_before).0 == seq![rem_before[idx as int][0]]
                + merge_rec(rem_after, st2).0);
            assert(out.deep_view() =~~= out_before.push(rec@));
            assert(out_before.push(rec@) =~= out_before + seq![rec@]);
            assert((out_before + seq![rec@]) + merge_rec(rem_after, st2).0 =~= out_before + (
            seq![rec@] + merge_rec(rem_after, st2).0));
        }
    }
    proof {
        assert(merge_rec(remaining_of(pdv, cursors@), rng.state()).0 =~= Seq::<Seq<u8>>::empty());
        assert(out.deep_view() + Seq::<Seq<u8>>::empty() =~= out.deep_view());
    }
    out
}

} // verus!
