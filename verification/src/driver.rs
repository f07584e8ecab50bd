use vstd::prelude::*;

use crate::error::ShuffleError;
use crate::layout::{
    buffer_size, buffer_size_spec, partition_count, partition_count_spec, MIN_PARTITIONS,
};
use crate::merge::{
    lemma_merge_rec_conserves, merge_partitions, merge_rec, multiset_union, pick_spec, pops_of,
    sum_of,
};
use crate::records::{
    concat_records, lemma_records_of_lens, lemma_records_of_split, records_of,
    split_whole_records,
};
use crate::rng::Rand;
use crate::shuffle::{fisher_yates, fy_rec, fy_shuffle, lemma_fy_shuffle_multiset};
use vstd::multiset::Multiset;

verus! {

/// The input cut into successive chunks of at most `chunk_bound` bytes;
/// the last chunk holds whatever is left.
pub open spec fn chunks_of(bytes: Seq<u8>, chunk_bound: nat) -> Seq<Seq<u8>>
    recommends
        chunk_bound > 0,
    decreases bytes.len() when chunk_bound > 0
{
    if bytes.len() == 0 {
        Seq::<Seq<u8>>::empty()
    } else if bytes.len() <= chunk_bound {
        seq![bytes]
    } else {
        seq![bytes.take(chunk_bound as int)] + chunks_of(bytes.skip(chunk_bound as int), chunk_bound)
    }
}

/// The partition phase over the chunks: each chunk's records are shuffled
/// by a Fisher-Yates pass, with the generator state threaded from chunk
/// to chunk. Returns the partitions and the final generator state.
pub open spec fn partition_rec(chunks: Seq<Seq<u8>>, record_size: nat, st: u64) -> (
    Seq<Seq<Seq<u8>>>,
    u64,
)
    decreases chunks.len(),
{
    if chunks.len() == 0 {
        (Seq::<Seq<Seq<u8>>>::empty(), st)
    } else {
        let fy = fy_shuffle(records_of(chunks[0], record_size), st);
        let rest = partition_rec(chunks.drop_first(), record_size, fy.1);
        (seq![fy.0] + rest.0, rest.1)
    }
}

/// The record stream the whole shuffle emits for the given input, record
/// size, memory budget and the two generator seeds.
pub open spec fn shuffle_spec(
    bytes: Seq<u8>,
    record_size: nat,
    mem_budget: nat,
    part_seed: u64,
    merge_seed: u64,
) -> Seq<Seq<u8>>
    recommends
        record_size > 0,
        mem_budget > 0,
{
    let k = partition_count_spec(bytes.len(), mem_budget);
    let b = buffer_size_spec(bytes.len(), k, record_size);
    merge_rec(partition_rec(chunks_of(bytes, b), record_size, part_seed).0, merge_seed).0
}

/// Law (conservation through the partition phase): the partitions built
/// from the chunks hold exactly the records of the input, and their
/// populations add up to the input's record count.
pub proof fn lemma_partition_conserves(bytes: Seq<u8>, chunk_bound: nat, record_size: nat, st: u64)
    requires
        record_size > 0,
        chunk_bound > 0,
        chunk_bound % record_size == 0,
        bytes.len() % record_size == 0,
    ensures
        multiset_union(partition_rec(chunks_of(bytes, chunk_bound), record_size, st).0)
            == records_of(bytes, record_size).to_multiset(),
        sum_of(pops_of(partition_rec(chunks_of(bytes, chunk_bound), record_size, st).0))
            == records_of(bytes, record_size).len(),
    decreases bytes.len(),
{
    broadcast use vstd::seq_lib::group_to_multiset_ensures;
    broadcast use vstd::multiset::group_multiset_axioms;

    let chunks = chunks_of(bytes, chunk_bound);
    if bytes.len() == 0 {
        assert(records_of(bytes, record_size) =~= Seq::<Seq<u8>>::empty());
        assert(records_of(bytes, record_size).to_multiset() =~= Multiset::<Seq<u8>>::empty());
    } else if bytes.len() <= chunk_bound {
        let fy = fy_shuffle(records_of(bytes, record_size), st);
        lemma_fy_shuffle_multiset(records_of(bytes, record_size), st);
        assert(chunks == seq![bytes]);
        assert(chunks[0] == bytes);
        assert(chunks.drop_first() =~= Seq::<Seq<u8>>::empty());
        let p = partition_rec(chunks, record_size, st);
        assert(partition_rec(Seq::<Seq<u8>>::empty(), record_size, fy.1).0
            == Seq::<Seq<Seq<u8>>>::empty());
        assert(p.0 =~= seq![fy.0]);
        assert(p.0[0] == fy.0);
        assert(p.0.drop_first() =~= Seq::<Seq<Seq<u8>>>::empty());
        assert(multiset_union(Seq::<Seq<Seq<u8>>>::empty()) == Multiset::<Seq<u8>>::empty());
        assert(fy.0.to_multiset().add(Multiset::<Seq<u8>>::empty()) =~= fy.0.to_multiset());
        assert(multiset_union(p.0) =~= fy.0.to_multiset());
        assert(pops_of(p.0).drop_first() =~= Seq::<nat>::empty());
        assert(sum_of(Seq::<nat>::empty()) == 0);
        assert(sum_of(pops_of(p.0)) == fy.0.len());
    } else {
        let head = bytes.take(chunk_bound as int);
        let tail = bytes.skip(chunk_bound as int);
        vstd::arithmetic::div_mod::lemma_fundamental_div_mod(
            bytes.len() as int,
            record_size as int,
        );
        vstd::arithmetic::div_mod::lemma_fundamental_div_mod(
            chunk_bound as int,
            record_size as int,
        );
        let q1 = bytes.len() as int / record_size as int;
        let q2 = chunk_bound as int / record_size as int;
        vstd::arithmetic::div_mod::lemma_mod_multiples_basic(q1 - q2, record_size as int);
        assert(tail.len() as int == (q1 - q2) * record_size as int) by (nonlinear_arith)
            requires
                bytes.len() as int == record_size as int * q1,
                chunk_bound as int == record_size as int * q2,
                tail.len() as int == bytes.len() - chunk_bound,
        ;
        assert(tail.len() % record_size == 0);
        lemma_partition_conserves(tail, chunk_bound, record_size, fy_shuffle(
            records_of(head, record_size),
            st,
        ).1);
        let fy = fy_shuffle(records_of(head, record_size), st);
        lemma_fy_shuffle_multiset(records_of(head, record_size), st);
        assert(chunks[0] == head);
        assert(chunks.drop_first() =~= chunks_of(tail, chunk_bound));
        let p = partition_rec(chunks, record_size, st);
        let rest = partition_rec(chunks_of(tail, chunk_bound), record_size, fy.1);
        assert(p.0 == seq![fy.0] + rest.0);
        assert(p.0[0] == fy.0);
        assert(p.0.drop_first() =~= rest.0);
        assert(multiset_union(p.0) == fy.0.to_multiset().add(multiset_union(rest.0)));
        lemma_records_of_split(bytes, record_size, chunk_bound as int);
        vstd::seq_lib::lemma_multiset_commutative(
            records_of(head, record_size),
            records_of(tail, record_size),
        );
        assert(multiset_union(p.0) =~= records_of(bytes, record_size).to_multiset());
        assert(pops_of(p.0)[0] == fy.0.len());
        assert(pops_of(p.0).drop_first() =~= pops_of(rest.0));
        assert(sum_of(pops_of(p.0)) == fy.0.len() + sum_of(pops_of(rest.0)));
    }
}

/// An input no larger than `k` chunk bounds is cut into at most `k`
/// chunks.
pub proof fn lemma_chunks_bounded(bytes: Seq<u8>, chunk_bound: nat, k: nat)
    requires
        chunk_bound > 0,
        bytes.len() <= k * chunk_bound,
    ensures
        chunks_of(bytes, chunk_bound).len() <= k,
    decreases bytes.len(),
{
    if bytes.len() == 0 {
    } else if bytes.len() <= chunk_bound {
        assert(k >= 1) by (nonlinear_arith)
            requires
                bytes.len() >= 1,
                bytes.len() <= k * chunk_bound,
                chunk_bound >= 1,
        ;
    } else {
        assert(k >= 2 && bytes.len() - chunk_bound <= (k - 1) * chunk_bound)
            by (nonlinear_arith)
            requires
                bytes.len() > chunk_bound,
                bytes.len() <= k * chunk_bound,
                chunk_bound >= 1,
        ;
        lemma_chunks_bounded(bytes.skip(chunk_bound as int), chunk_bound, (k - 1) as nat);
    }
}

/// Law (bounded file count): the driver's chunk bound is sized so that
/// the input is cut into at most `partition_count_spec(..)` chunks: one
/// read per temporary file suffices, and no extra partition ever appears.
pub proof fn lemma_partition_file_count(bytes: Seq<u8>, record_size: nat, mem_budget: nat)
    requires
        record_size > 0,
        mem_budget > 0,
    ensures
        chunks_of(
            bytes,
            buffer_size_spec(
                bytes.len(),
                partition_count_spec(bytes.len(), mem_budget),
                record_size,
            ),
        ).len() <= partition_count_spec(bytes.len(), mem_budget),
{
    let k = partition_count_spec(bytes.len(), mem_budget);
    let b = buffer_size_spec(bytes.len(), k, record_size);
    crate::layout::lemma_buffer_covers(bytes.len(), k, record_size);
    lemma_chunks_bounded(bytes, b, k);
}

/// Law (conservation): for any whole-record input, the shuffled stream
/// holds exactly one record per input record, and the multiset of its
/// records equals the multiset of the input's records: none lost, none
/// duplicated, none altered, whatever the seeds.
pub proof fn lemma_shuffle_conserves(
    bytes: Seq<u8>,
    record_size: nat,
    mem_budget: nat,
    part_seed: u64,
    merge_seed: u64,
)
    requires
        record_size > 0,
        mem_budget > 0,
        bytes.len() % record_size == 0,
    ensures
        shuffle_spec(bytes, record_size, mem_budget, part_seed, merge_seed).len() == bytes.len()
            / record_size,
        shuffle_spec(bytes, record_size, mem_budget, part_seed, merge_seed).to_multiset()
            == records_of(bytes, record_size).to_multiset(),
{
    let k = partition_count_spec(bytes.len(), mem_budget);
    let b = buffer_size_spec(bytes.len(), k, record_size);
    let c = bytes.len() / k / record_size;
    vstd::arithmetic::div_mod::lemma_mod_multiples_basic(c as int + 1, record_size as int);
    assert(b as int == (c as int + 1) * record_size as int && b >= record_size)
        by (nonlinear_arith)
        requires
            b == c * record_size + record_size,
            c >= 0,
            record_size >= 1,
    ;
    assert(b % record_size == 0);
    lemma_partition_conserves(bytes, b, record_size, part_seed);
    lemma_merge_rec_conserves(
        partition_rec(chunks_of(bytes, b), record_size, part_seed).0,
        merge_seed,
    );
}

/// Law (exact fit): an input of exactly one record is emitted unchanged:
/// the shuffled stream of a single record is that record alone.
pub proof fn lemma_single_record(
    bytes: Seq<u8>,
    record_size: nat,
    mem_budget: nat,
    part_seed: u64,
    merge_seed: u64,
)
    requires
        record_size > 0,
        mem_budget > 0,
        bytes.len() == record_size,
    ensures
        shuffle_spec(bytes, record_size, mem_budget, part_seed, merge_seed) == seq![bytes],
{
    broadcast use vstd::seq_lib::group_to_multiset_ensures;

    let k = partition_count_spec(bytes.len(), mem_budget);
    let b = buffer_size_spec(bytes.len(), k, record_size);
    assert(k >= MIN_PARTITIONS);
    vstd::arithmetic::div_mod::lemma_div_is_ordered_by_denominator(record_size as int, 2, k as int);
    vstd::arithmetic::div_mod::lemma_fundamental_div_mod(record_size as int, 2);
    assert(record_size as int / 2 < record_size as int) by (nonlinear_arith)
        requires
            record_size as int == 2 * (record_size as int / 2) + (record_size as int % 2),
            0 <= record_size as int % 2,
            (record_size as int % 2) < 2,
            record_size >= 1,
    ;
    assert(bytes.len() / k < record_size);
    vstd::arithmetic::div_mod::lemma_basic_div(bytes.len() as int / k as int, record_size as int);
    assert(bytes.len() / k / record_size == 0);
    assert(b == record_size);
    let chunks = chunks_of(bytes, b);
    assert(chunks == seq![bytes]);
    assert(chunks[0] == bytes);
    assert(chunks.drop_first() =~= Seq::<Seq<u8>>::empty());
    let recs = records_of(bytes, record_size);
    assert(recs.len() == 1);
    assert(recs[0] =~= bytes);
    assert(recs =~= seq![bytes]);
    let fy = fy_shuffle(recs, part_seed);
    assert(fy == fy_rec(recs, part_seed, 0));
    assert(fy.0 == recs && fy.1 == part_seed);
    let p = partition_rec(chunks, record_size, part_seed);
    assert(partition_rec(Seq::<Seq<u8>>::empty(), record_size, fy.1).0
        == Seq::<Seq<Seq<u8>>>::empty());
    assert(p.0 =~= seq![recs]);
    let counts = pops_of(p.0);
    assert(counts[0] == 1);
    assert(counts.drop_first() =~= Seq::<nat>::empty());
    assert(sum_of(Seq::<nat>::empty()) == 0);
    assert(sum_of(counts) == 1);
    let st2 = crate::rng::xorshift_step(merge_seed);
    let u = st2 as nat % sum_of(counts);
    assert(u == 0);
    assert(pick_spec(counts, 0) == 0);
    let after = p.0.update(0, p.0[0].drop_first());
    assert(after[0] =~= Seq::<Seq<u8>>::empty());
    assert(pops_of(after)[0] == 0);
    assert(pops_of(after).drop_first() =~= Seq::<nat>::empty());
    assert(sum_of(pops_of(after)) == 0);
    assert(merge_rec(after, st2).0 == Seq::<Seq<u8>>::empty());
    assert(merge_rec(p.0, merge_seed).0 == seq![p.0[0][0]] + Seq::<Seq<u8>>::empty());
    assert(p.0[0][0] == bytes);
    assert(seq![bytes] + Seq::<Seq<u8>>::empty() =~= seq![bytes]);
    assert(shuffle_spec(bytes, record_size, mem_budget, part_seed, merge_seed) == seq![bytes]);
}

/// Shuffles a whole in-memory byte range of records under the given
/// memory budget, drawing the partition-phase and merge-phase randomness
/// from two explicitly seeded generators.
///
/// An input that is not a whole number of records is a `FormatError` and
/// nothing is produced. Otherwise the output is exactly the record stream
/// `shuffle_spec` names — so a rerun with the same input, budget and
/// seeds yields byte-identical output — it is as long as the input, and
/// it holds exactly the input's records: none lost, none duplicated,
/// none altered.
pub fn shuffle_bytes(
    input: &Vec<u8>,
    record_size: usize,
    mem_budget: usize,
    part_seed: u64,
    merge_seed: u64,
) -> (r: Result<Vec<u8>, ShuffleError>)
    requires
        record_size > 0,
        mem_budget > 0,
        input@.len() + record_size <= usize::MAX,
    ensures
        input@.len() % record_size as nat == 0 <==> r is Ok,
        input@.len() % record_size as nat != 0 ==> r == Err::<Vec<u8>, ShuffleError>(
            ShuffleError::FormatError,
        ),
        r matches Ok(out) ==> out@.len() == input@.len(),
        r matches Ok(out) ==> records_of(out@, record_size as nat) == shuffle_spec(
            input@,
            record_size as nat,
            mem_budget as nat,
            part_seed,
            merge_seed,
        ),
        r matches Ok(out) ==> records_of(out@, record_size as nat).to_multiset() == records_of(
            input@,
            record_size as nat,
        ).to_multiset(),
{
    let ilen = input.len();
    if ilen % record_size != 0 {
        return Err(ShuffleError::FormatError);
    }
    let k = partition_count(ilen, mem_budget);
    let b = buffer_size(ilen, k, record_size);
    let ghost rnat = record_size as nat;
    let ghost bnat = b as nat;
    let ghost target = partition_rec(chunks_of(input@, bnat), rnat, part_seed);
    let mut prng = Rand::new(part_seed);
    let mut parts: Vec<Vec<Vec<u8>>> = Vec::new();
    let mut pos: usize = 0;
    proof {
        assert(input@.skip(0) =~= input@);
        assert(parts.deep_view() =~= Seq::<Seq<Seq<u8>>>::empty());
        assert(Seq::<Seq<Seq<u8>>>::empty() + target.0 =~= target.0);
    }
    while pos < ilen
        invariant
            pos <= ilen,
            ilen == input@.len(),
            record_size > 0,
            b >= record_size,
            b % record_size == 0,
            ilen as int % record_size as int == 0,
            pos as int % record_size as int == 0,
            rnat == record_size as nat,
            bnat == b as nat,
            target == partition_rec(chunks_of(input@, bnat), rnat, part_seed),
            parts.deep_view() + partition_rec(
                chunks_of(input@.skip(pos as int), bnat),
                rnat,
                prng.state(),
            ).0 == target.0,
            partition_rec(chunks_of(input@.skip(pos as int), bnat), rnat, prng.state()).1
                == target.1,
        decreases ilen - pos,
    {
        let ghost old_parts = parts.deep_view();
        let ghost old_rem = input@.skip(pos as int);
        let ghost st_before = prng.state();
        let n_rem = ilen - pos;
        let csize = if n_rem < b {
            n_rem
        } else {
            b
        };
        proof {
            vstd::arithmetic::div_mod::lemma_fundamental_div_mod(ilen as int, record_size as int);
            vstd::arithmetic::div_mod::lemma_fundamental_div_mod(pos as int, record_size as int);
            let q1 = ilen as int / record_size as int;
            let q2 = pos as int / record_size as int;
            vstd::arithmetic::div_mod::lemma_mod_multiples_basic(q1 - q2, record_size as int);
            assert(n_rem as int == (q1 - q2) * record_size as int) by (nonlinear_arith)
                requires
                    ilen as int == record_size as int * q1,
                    pos as int == record_size as int * q2,
                    n_rem as int == ilen - pos,
            ;
            assert(n_rem as int % record_size as int == 0);
        }
        let chunk = vstd::slice::slice_to_vec(
            vstd::slice::slice_subrange(input.as_slice(), pos, pos + csize),
        );
        proof {
            assert(chunk@ =~= old_rem.take(csize as int));
            if n_rem <= b {
                assert(chunk@ =~= old_rem);
            }
            assert(chunk@.len() % record_size as nat == 0);
        }
        let mut recs = split_whole_records(&chunk, record_size);
        fisher_yates(&mut recs, &mut prng);
        parts.push(recs);
        let ghost old_pos = pos as int;
        pos = pos + csize;
        proof {
            vstd::arithmetic::div_mod::lemma_add_mod_noop(
                old_pos,
                csize as int,
                record_size as int,
            );
            assert(pos as int % record_size as int == 0);
            let new_rem = input@.skip(pos as int);
            assert(new_rem =~= old_rem.skip(csize as int));
            let cs = chunks_of(old_rem, bnat);
            if old_rem.len() <= bnat {
                assert(cs == seq![old_rem]);
                assert(cs[0] == old_rem);
                assert(cs.drop_first() =~= Seq::<Seq<u8>>::empty());
                assert(new_rem =~= Seq::<u8>::empty());
                assert(chunks_of(new_rem, bnat) =~= Seq::<Seq<u8>>::empty());
            } else {
                assert(cs[0] == old_rem.take(bnat as int));
                assert(cs.drop_first() =~= chunks_of(old_rem.skip(bnat as int), bnat));
            }
            let fy = fy_shuffle(records_of(cs[0], rnat), st_before);
            assert(recs.deep_view() == fy.0);
            assert(prng.state() == fy.1);
            assert(partition_rec(cs, rnat, st_before).0 == seq![fy.0] + partition_rec(
                chunks_of(new_rem, bnat),
                rnat,
                fy.1,
            ).0);
            assert(parts.deep_view() =~~= old_parts.push(recs.deep_view()));
            assert(old_parts.push(recs.deep_view()) =~= old_parts + seq![fy.0]);
            assert((old_parts + seq![fy.0]) + partition_rec(
                chunks_of(new_rem, bnat),
                rnat,
                prng.state(),
            ).0 =~= old_parts + (seq![fy.0] + partition_rec(
                chunks_of(new_rem, bnat),
                rnat,
                prng.state(),
            ).0));
        }
    }
    proof {
        assert(input@.skip(ilen as int) =~= Seq::<u8>::empty());
        assert(chunks_of(input@.skip(ilen as int), bnat) =~= Seq::<Seq<u8>>::empty());
        assert(parts.deep_view() + Seq::<Seq<Seq<u8>>>::empty() =~= parts.deep_view());
        assert(parts.deep_view() == target.0);
        lemma_partition_conserves(input@, bnat, rnat, part_seed);
        vstd::arithmetic::div_mod::lemma_fundamental_div_mod(ilen as int, record_size as int);
        assert(records_of(input@, rnat).len() == ilen as int / record_size as int);
        assert(sum_of(pops_of(parts.deep_view())) <= usize::MAX);
    }
    let mut mrng = Rand::new(merge_seed);
    let out_recs = merge_partitions(&parts, &mut mrng);
    proof {
        broadcast use vstd::seq_lib::group_to_multiset_ensures;

        lemma_records_of_lens(input@, rnat);
        let odv = out_recs.deep_view();
        assert(odv.to_multiset() == records_of(input@, rnat).to_multiset());
        assert forall|i: int| 0 <= i < out_recs@.len() implies (#[trigger] out_recs@[i])@.len()
            == record_size by {
            assert(odv[i] == out_recs@[i]@);
            assert(odv.contains(odv[i]));
            assert(odv.to_multiset().count(odv[i]) > 0);
            assert(records_of(input@, rnat).to_multiset().count(odv[i]) > 0);
            assert(records_of(input@, rnat).contains(odv[i]));
        }
        assert(odv.len() == records_of(input@, rnat).len());
        assert(out_recs@.len() * record_size as int <= usize::MAX) by (nonlinear_arith)
            requires
                out_recs@.len() == ilen as int / record_size as int,
                ilen as int == record_size as int * (ilen as int / record_size as int),
                ilen <= usize::MAX,
                record_size >= 1,
        ;
    }
    let out = concat_records(&out_recs, record_size);
    proof {
        assert(out@.len() == input@.len()) by (nonlinear_arith)
            requires
                out@.len() == out_recs@.len() * record_size as int,
                out_recs@.len() == ilen as int / record_size as int,
                ilen as int == record_size as int * (ilen as int / record_size as int),
                ilen == input@.len(),
        ;
    }
    Ok(out)
}

/// What a caller hands the shuffler: where to read, where to write, how
/// much memory the buffers may use, and where the temporary partition
/// files may live.
pub struct ShuffleOptions {
    pub input: String,
    pub output: String,
    pub mem_used: usize,
    pub tmp_dir: String,
}

impl ShuffleOptions {
    /// Number of temporary partition files for an input of `input_size`
    /// bytes.
    pub fn num_partitions(&self, input_size: usize) -> (k: usize)
        requires
            self.mem_used > 0,
        ensures
            k == partition_count_spec(input_size as nat, self.mem_used as nat),
            k >= MIN_PARTITIONS,
    {
        partition_count(input_size, self.mem_used)
    }

    /// Byte size of the read buffer each partition's chunk is read into:
    /// a whole number of records bounding the chunk.
    pub fn actual_buffer_size(&self, input_size: usize, record_size: usize) -> (b: usize)
        requires
            self.mem_used > 0,
            record_size > 0,
            input_size + record_size <= usize::MAX,
        ensures
            b == buffer_size_spec(
                input_size as nat,
                partition_count_spec(input_size as nat, self.mem_used as nat),
                record_size as nat,
            ),
            b % record_size == 0,
            b >= record_size,
    {
        let k = partition_count(input_size, self.mem_used);
        buffer_size(input_size, k, record_size)
    }
}

} // verus!

