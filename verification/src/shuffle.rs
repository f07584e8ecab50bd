use vstd::prelude::*;

use crate::rng::{xorshift_step, Rand};

verus! {

/// The sequence with the entries at `i` and `j` exchanged.
pub open spec fn swap_seq<A>(s: Seq<A>, i: int, j: int) -> Seq<A>
    recommends
        0 <= i < s.len(),
        0 <= j < s.len(),
{
    s.update(i, s[j]).update(j, s[i])
}

/// The Fisher-Yates pass from position `i` downward: each step draws a
/// position `j` in `[0, i]` from the generator and exchanges the entries
/// at `i` and `j`. Returns the permuted sequence and the generator state
/// after the draws.
pub open spec fn fy_rec<A>(s: Seq<A>, st: u64, i: nat) -> (Seq<A>, u64)
    recommends
        i < s.len() || i == 0,
    decreases i,
{
    if i == 0 {
        (s, st)
    } else {
        let st2 = xorshift_step(st);
        let j = (st2 as nat % (i + 1)) as int;
        fy_rec(swap_seq(s, i as int, j), st2, (i - 1) as nat)
    }
}

/// A whole Fisher-Yates shuffle of `s`, seeded with state `st`.
pub open spec fn fy_shuffle<A>(s: Seq<A>, st: u64) -> (Seq<A>, u64) {
    fy_rec(s, st, if s.len() == 0 { 0 } else { (s.len() - 1) as nat })
}

/// Law: a Fisher-Yates pass only rearranges: it keeps the length and the
/// multiset of entries of the sequence.
pub proof fn lemma_fy_rec_multiset<A>(s: Seq<A>, st: u64, i: nat)
    requires
        i < s.len() || i == 0,
    ensures
        fy_rec(s, st, i).0.len() == s.len(),
        fy_rec(s, st, i).0.to_multiset() == s.to_multiset(),
    decreases i,
{
    broadcast use vstd::seq_lib::group_to_multiset_ensures;
    broadcast use vstd::multiset::group_multiset_axioms;

    if i == 0 {
    } else {
        let st2 = xorshift_step(st);
        let j = (st2 as nat % (i + 1)) as int;
        let s2 = swap_seq(s, i as int, j);
        assert(s.contains(s[i as int]));
        assert(s.update(i as int, s[j]).contains(s.update(i as int, s[j])[j]));
        assert(s2.to_multiset() =~= s.to_multiset());
        lemma_fy_rec_multiset(s2, st2, (i - 1) as nat);
    }
}

/// Law: a whole Fisher-Yates shuffle keeps the length and the multiset of
/// entries.
pub proof fn lemma_fy_shuffle_multiset<A>(s: Seq<A>, st: u64)
    ensures
        fy_shuffle(s, st).0.len() == s.len(),
        fy_shuffle(s, st).0.to_multiset() == s.to_multiset(),
{
    if s.len() == 0 {
        lemma_fy_rec_multiset(s, st, 0);
    } else {
        lemma_fy_rec_multiset(s, st, (s.len() - 1) as nat);
    }
}

/// Exchanges the records at positions `i` and `j`.
pub(crate) fn swap_records(recs: &mut Vec<Vec<u8>>, i: usize, j: usize)
    requires
        i < old(recs)@.len(),
        j < old(recs)@.len(),
    ensures
        final(recs)@ == old(recs)@.update(i as int, old(recs)@[j as int]).update(
            j as int,
            old(recs)@[i as int],
        ),
{
    let ghost orig = recs@;
    if i == j {
        proof {
            assert(orig.update(i as int, orig[j as int]).update(j as int, orig[i as int])
                =~= orig);
        }
        return ;
    }
    let (lo, hi) = if i < j {
        (i, j)
    } else {
        (j, i)
    };
    let a = recs.remove(hi);
    let b = recs.remove(lo);
    recs.insert(lo, a);
    recs.insert(hi, b);
    proof {
        assert(recs@ =~= orig.update(i as int, orig[j as int]).update(j as int, orig[i as int]));
    }
}

/// Shuffles the records in place with a Fisher-Yates pass driven by the
/// given generator; the result and the final generator state are exactly
/// `fy_shuffle` of the old records and state. The records are only
/// rearranged: their multiset is unchanged.
pub fn fisher_yates(recs: &mut Vec<Vec<u8>>, rng: &mut Rand)
    ensures
        final(recs)@.len() == old(recs)@.len(),
        final(recs).deep_view() == fy_shuffle(old(recs).deep_view(), old(rng).state()).0,
        final(rng).state() == fy_shuffle(old(recs).deep_view(), old(rng).state()).1,
        final(recs).deep_view().to_multiset() == old(recs).deep_view().to_multiset(),
{
    let ghost orig = recs.deep_view();
    let ghost s0 = rng.state();
    proof {
        lemma_fy_shuffle_multiset(orig, s0);
    }
    let len = recs.len();
    if len == 0 {
        return ;
    }
    let mut i: usize = len - 1;
    while i > 0
        invariant
            i < len,
            recs@.len() == len,
            orig.len() == len,
            len >= 1,
            fy_rec(recs.deep_view(), rng.state(), i as nat) == fy_rec(
                orig,
                s0,
                (len - 1) as nat,
            ),
        decreases i,
    {
        let ghost before = recs.deep_view();
        let ghost st_before = rng.state();
        let j64 = rng.rand_below((i + 1) as u64);
        proof {
            assert(j64 <= i as u64);
        }
        let j = j64 as usize;
        swap_records(recs, i, j);
        proof {
            assert(recs.deep_view() =~~= swap_seq(before, i as int, j as int));
            assert(j as nat == (xorshift_step(st_before) as nat % (i as nat + 1)));
        }
        i = i - 1;
    }
    proof {
        assert(fy_rec(recs.deep_view(), rng.state(), 0) == fy_rec(orig, s0, (len - 1) as nat));
        assert(recs.deep_view() == fy_shuffle(orig, s0).0);
    }
}

} // verus!
