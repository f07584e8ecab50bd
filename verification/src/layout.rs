use vstd::prelude::*;

use crate::error::ShuffleError;

verus! {

/// Fewest partitions any input is cut into, however small it is; guards
/// against a degenerate single-partition pass over a file larger than
/// the memory budget.
pub const MIN_PARTITIONS: usize = 2;

/// `n / d` rounded upward.
pub open spec fn ceil_div(n: nat, d: nat) -> nat
    recommends
        d > 0,
{
    if n % d == 0 {
        n / d
    } else {
        n / d + 1
    }
}

/// Number of partitions for an input of `input_size` bytes under a memory
/// budget of `mem_budget` bytes: enough that each partition's chunk fits
/// the budget, and never below `MIN_PARTITIONS`.
pub open spec fn partition_count_spec(input_size: nat, mem_budget: nat) -> nat
    recommends
        mem_budget > 0,
{
    if ceil_div(input_size, mem_budget) > MIN_PARTITIONS as nat {
        ceil_div(input_size, mem_budget)
    } else {
        MIN_PARTITIONS as nat
    }
}

/// Upper bound, in bytes, on one partition's chunk of the input: a whole
/// number of records, large enough that `partitions` sequential chunks
/// cover the input.
pub open spec fn buffer_size_spec(input_size: nat, partitions: nat, record_size: nat) -> nat
    recommends
        partitions > 0,
        record_size > 0,
{
    (input_size / partitions / record_size) * record_size + record_size
}

/// Record count of a byte range: `input_size / record_size` when the range
/// is a whole number of records, a `FormatError` otherwise.
pub fn num_records(input_size: usize, record_size: usize) -> (r: Result<usize, ShuffleError>)
    requires
        record_size > 0,
    ensures
        input_size % record_size == 0 ==> r == Ok::<usize, ShuffleError>(input_size / record_size),
        input_size % record_size != 0 ==> r == Err::<usize, ShuffleError>(
            ShuffleError::FormatError,
        ),
{
    if input_size % record_size == 0 {
        Ok(input_size / record_size)
    } else {
        Err(ShuffleError::FormatError)
    }
}

/// The partition count `partition_count_spec` as executable code.
pub fn partition_count(input_size: usize, mem_budget: usize) -> (k: usize)
    requires
        mem_budget > 0,
    ensures
        k == partition_count_spec(input_size as nat, mem_budget as nat),
        k >= MIN_PARTITIONS,
{
    let q = input_size / mem_budget;
    let c: usize = if input_size % mem_budget == 0 {
        q
    } else {
        proof {
            vstd::arithmetic::div_mod::lemma_fundamental_div_mod(
                input_size as int,
                mem_budget as int,
            );
            assert(q + 1 <= usize::MAX) by (nonlinear_arith)
                requires
                    input_size as int == mem_budget as int * (q as int) + (
                    input_size as int % mem_budget as int),
                    input_size % mem_budget > 0,
                    input_size <= usize::MAX,
                    mem_budget >= 1,
                    q == input_size as int / mem_budget as int,
                    q >= 0,
            ;
        }
        q + 1
    };
    if c > MIN_PARTITIONS {
        c
    } else {
        MIN_PARTITIONS
    }
}

/// The chunk bound `buffer_size_spec` as executable code.
pub fn buffer_size(input_size: usize, partitions: usize, record_size: usize) -> (b: usize)
    requires
        partitions > 0,
        record_size > 0,
        input_size + record_size <= usize::MAX,
    ensures
        b == buffer_size_spec(input_size as nat, partitions as nat, record_size as nat),
        b % record_size == 0,
        b >= record_size,
{
    let per = input_size / partitions;
    let c = per / record_size;
    proof {
        vstd::arithmetic::div_mod::lemma_div_is_ordered_by_denominator(
            input_size as int,
            1,
            partitions as int,
        );
        vstd::arithmetic::div_mod::lemma_fundamental_div_mod(per as int, record_size as int);
        assert(c * record_size <= per) by (nonlinear_arith)
            requires
                per as int == record_size as int * (c as int) + (per as int % record_size as int),
                per % record_size >= 0,
                c >= 0,
                record_size >= 1,
        ;
        vstd::arithmetic::div_mod::lemma_mod_multiples_basic(
            c as int + 1,
            record_size as int,
        );
        assert((c as int + 1) * record_size as int == c as int * record_size as int
            + record_size as int) by (nonlinear_arith);
    }
    c * record_size + record_size
}

/// Law: the partition count scales with the input size. Any input strictly
/// larger than `k - 1` budgets and no larger than `k` budgets is cut into
/// exactly `k` partitions, once `k` is at least the enforced minimum.
pub proof fn lemma_partition_count_scaling(input_size: nat, mem_budget: nat, k: nat)
    requires
        mem_budget > 0,
        k >= MIN_PARTITIONS,
        (k - 1) * mem_budget < input_size,
        input_size <= k * mem_budget,
    ensures
        partition_count_spec(input_size, mem_budget) == k,
{
    let q = input_size / mem_budget;
    let r = input_size % mem_budget;
    vstd::arithmetic::div_mod::lemma_fundamental_div_mod(input_size as int, mem_budget as int);
    if r == 0 {
        assert(q == k) by (nonlinear_arith)
            requires
                input_size as int == mem_budget as int * (q as int),
                (k - 1) * mem_budget < input_size,
                input_size <= k * mem_budget,
                mem_budget >= 1,
                q >= 0,
                k >= 1,
        ;
    } else {
        assert(q == k - 1) by (nonlinear_arith)
            requires
                input_size as int == mem_budget as int * (q as int) + (r as int),
                0 < r,
                r < mem_budget,
                (k - 1) * mem_budget < input_size,
                input_size <= k * mem_budget,
                mem_budget >= 1,
                q >= 0,
                k >= 1,
        ;
    }
}

/// Law: `k` chunks of the computed buffer size cover the whole input, so
/// `k` sequential reads of at most `buffer_size_spec(..)` bytes each
/// exhaust it.
pub proof fn lemma_buffer_covers(input_size: nat, k: nat, record_size: nat)
    requires
        k > 0,
        record_size > 0,
    ensures
        input_size < k * buffer_size_spec(input_size, k, record_size),
{
    let per = input_size / k;
    let c = per / record_size;
    let b = buffer_size_spec(input_size, k, record_size);
    vstd::arithmetic::div_mod::lemma_fundamental_div_mod(input_size as int, k as int);
    vstd::arithmetic::div_mod::lemma_fundamental_div_mod(per as int, record_size as int);
    assert(input_size < k * b) by (nonlinear_arith)
        requires
            b == c * record_size + record_size,
            input_size as int == k as int * (per as int) + (input_size as int % k as int),
            0 <= input_size as int % k as int,
            (input_size as int % k as int) < k as int,
            per as int == record_size as int * (c as int) + (per as int % record_size as int),
            0 <= per as int % record_size as int,
            (per as int % record_size as int) < record_size as int,
            k >= 1,
            record_size >= 1,
            c >= 0,
            per >= 0,
    ;
}

} // verus!
