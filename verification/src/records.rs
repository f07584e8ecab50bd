use vstd::prelude::*;

use crate::error::ShuffleError;

verus! {

/// The records of a byte range, read as consecutive blocks of
/// `record_size` bytes; a trailing remainder shorter than a record is not
/// a record.
pub open spec fn records_of(bytes: Seq<u8>, record_size: nat) -> Seq<Seq<u8>>
    recommends
        record_size > 0,
{
    Seq::new(
        bytes.len() / record_size,
        |i: int| bytes.subrange(i * record_size as int, (i + 1) * record_size as int),
    )
}

/// Every record of a byte range is `record_size` bytes long.
pub proof fn lemma_records_of_lens(bytes: Seq<u8>, record_size: nat)
    requires
        record_size > 0,
    ensures
        forall|i: int|
            0 <= i < records_of(bytes, record_size).len() ==> (#[trigger] records_of(
                bytes,
                record_size,
            )[i]).len() == record_size,
{
    let n = bytes.len() / record_size;
    vstd::arithmetic::div_mod::lemma_fundamental_div_mod(
        bytes.len() as int,
        record_size as int,
    );
    assert forall|i: int| 0 <= i < n implies (#[trigger] records_of(bytes, record_size)[i]).len()
        == record_size by {
        assert((i + 1) * record_size as int <= bytes.len() && (i + 1) * record_size as int == i
            * record_size as int + record_size as int && 0 <= i * record_size as int)
            by (nonlinear_arith)
            requires
                0 <= i,
                i < n,
                n == bytes.len() as int / record_size as int,
                bytes.len() as int == record_size as int * n + (
                bytes.len() as int % record_size as int),
                0 <= bytes.len() as int % record_size as int,
                record_size >= 1,
        ;
    }
}

/// Reading records commutes with cutting the bytes at a record boundary:
/// the records of the whole range are the records of the first `mid`
/// bytes followed by the records of the rest.
pub proof fn lemma_records_of_split(bytes: Seq<u8>, record_size: nat, mid: int)
    requires
        record_size > 0,
        0 <= mid <= bytes.len(),
        mid % record_size as int == 0,
    ensures
        records_of(bytes, record_size) == records_of(bytes.take(mid), record_size) + records_of(
            bytes.skip(mid),
            record_size,
        ),
{
    let r = record_size as int;
    let mr = mid / r;
    let rest = bytes.len() - mid;
    vstd::arithmetic::div_mod::lemma_fundamental_div_mod(bytes.len() as int, r);
    vstd::arithmetic::div_mod::lemma_fundamental_div_mod(mid, r);
    vstd::arithmetic::div_mod::lemma_fundamental_div_mod(rest as int, r);
    let q = bytes.len() as int / r;
    let qr = rest / r;
    assert(q == mr + qr) by (nonlinear_arith)
        requires
            bytes.len() as int == r * q + (bytes.len() as int % r),
            0 <= bytes.len() as int % r,
            (bytes.len() as int % r) < r,
            mid == r * mr,
            rest == bytes.len() - mid,
            rest == r * qr + (rest % r),
            0 <= rest % r,
            (rest % r) < r,
            r >= 1,
    ;
    let lhs = records_of(bytes, record_size);
    let rhs = records_of(bytes.take(mid), record_size) + records_of(bytes.skip(mid), record_size);
    assert(bytes.take(mid).len() / record_size == mr);
    assert(bytes.skip(mid).len() / record_size == qr);
    assert(lhs.len() == rhs.len());
    assert forall|i: int| 0 <= i < q implies lhs[i] == rhs[i] by {
        if i < mr {
            assert((i + 1) * r <= mid && (i + 1) * r == i * r + r && 0 <= i * r)
                by (nonlinear_arith)
                requires
                    0 <= i,
                    i < mr,
                    mid == r * mr,
                    r >= 1,
            ;
            assert(lhs[i] =~= rhs[i]);
        } else {
            let j = i - mr;
            assert(rhs[i] == records_of(bytes.skip(mid), record_size)[j]);
            assert(j * r == i * r - mid && (j + 1) * r == (i + 1) * r - mid && 0 <= j * r && (i + 1)
                * r <= bytes.len() && (i + 1) * r == i * r + r && (j + 1) * r == j * r + r)
                by (nonlinear_arith)
                requires
                    mr <= i,
                    i < q,
                    j == i - mr,
                    mid == r * mr,
                    q == mr + qr,
                    rest == bytes.len() - mid,
                    rest == r * qr + (rest % r),
                    0 <= rest % r,
                    r >= 1,
            ;
            assert(lhs[i] =~= rhs[i]);
        }
    }
    assert(lhs =~= rhs);
}

/// Two byte ranges of the same whole-record length with the same records
/// are the same bytes: the record view loses nothing. So a contract that
/// fixes a stream's length and its records fixes the stream itself, and
/// two runs bound to the same record view emit byte-identical output.
pub proof fn lemma_records_determine_bytes(a: Seq<u8>, b: Seq<u8>, record_size: nat)
    requires
        record_size > 0,
        a.len() == b.len(),
        a.len() % record_size == 0,
        records_of(a, record_size) == records_of(b, record_size),
    ensures
        a == b,
{
    let r = record_size as int;
    vstd::arithmetic::div_mod::lemma_fundamental_div_mod(a.len() as int, r);
    let n = a.len() as int / r;
    assert forall|k: int| 0 <= k < a.len() implies a[k] == b[k] by {
        let i = k / r;
        vstd::arithmetic::div_mod::lemma_fundamental_div_mod(k, r);
        assert(0 <= i && i < n && i * r <= k && k < (i + 1) * r && (i + 1) * r <= a.len())
            by (nonlinear_arith)
            requires
                k == r * i + (k % r),
                0 <= k % r,
                (k % r) < r,
                0 <= k,
                k < a.len(),
                a.len() as int == r * n,
                r >= 1,
        ;
        assert(records_of(a, record_size)[i][k - i * r] == a[k]);
        assert(records_of(b, record_size)[i][k - i * r] == b[k]);
    }
    assert(a =~= b);
}

/// Cuts a whole number of records into one `Vec` per record.
pub fn split_whole_records(bytes: &Vec<u8>, record_size: usize) -> (recs: Vec<Vec<u8>>)
    requires
        record_size > 0,
        bytes@.len() % record_size as nat == 0,
    ensures
        recs.deep_view() == records_of(bytes@, record_size as nat),
        recs@.len() == bytes@.len() / record_size as nat,
{
    let n = bytes.len() / record_size;
    proof {
        vstd::arithmetic::div_mod::lemma_fundamental_div_mod(
            bytes@.len() as int,
            record_size as int,
        );
    }
    let mut recs: Vec<Vec<u8>> = Vec::new();
    let mut i: usize = 0;
    while i < n
        invariant
            i <= n,
            n == bytes@.len() / record_size as nat,
            record_size > 0,
            bytes@.len() <= usize::MAX,
            bytes@.len() == record_size as int * n,
            recs@.len() == i,
            forall|j: int|
                0 <= j < i ==> (#[trigger] recs@[j])@ == bytes@.subrange(
                    j * record_size as int,
                    (j + 1) * record_size as int,
                ),
        decreases n - i,
    {
        proof {
            assert(i * record_size as int + record_size as int <= bytes@.len() && 0 <= i
                * record_size as int && (i as int + 1) * record_size as int == i
                * record_size as int + record_size as int) by (nonlinear_arith)
                requires
                    0 <= i,
                    i < n,
                    bytes@.len() == record_size as int * n,
                    record_size >= 1,
            ;
            assert(i * record_size as int <= usize::MAX);
        }
        let start = i * record_size;
        let rec = vstd::slice::slice_to_vec(
            vstd::slice::slice_subrange(bytes.as_slice(), start, start + record_size),
        );
        recs.push(rec);
        i = i + 1;
    }
    proof {
        assert(recs.deep_view() =~~= records_of(bytes@, record_size as nat));
    }
    recs
}

/// Cuts a byte range into its records; a range that is not a whole number
/// of records is a `FormatError`.
pub fn split_records(bytes: &Vec<u8>, record_size: usize) -> (r: Result<Vec<Vec<u8>>, ShuffleError>)
    requires
        record_size > 0,
    ensures
        bytes@.len() % record_size as nat == 0 <==> r is Ok,
        r matches Ok(recs) ==> recs.deep_view() == records_of(bytes@, record_size as nat),
        r matches Err(e) ==> e == ShuffleError::FormatError,
{
    if bytes.len() % record_size == 0 {
        Ok(split_whole_records(bytes, record_size))
    } else {
        Err(ShuffleError::FormatError)
    }
}

/// Joins records back into one byte range; the records of the result are
/// exactly the given records.
pub fn concat_records(recs: &Vec<Vec<u8>>, record_size: usize) -> (out: Vec<u8>)
    requires
        record_size > 0,
        forall|i: int| 0 <= i < recs@.len() ==> (#[trigger] recs@[i])@.len() == record_size,
        recs@.len() * record_size as int <= usize::MAX,
    ensures
        out@.len() == recs@.len() * record_size as int,
        records_of(out@, record_size as nat) == recs.deep_view(),
{
    let n = recs.len();
    let mut out: Vec<u8> = Vec::new();
    let mut i: usize = 0;
    while i < n
        invariant
            i <= n,
            n == recs@.len(),
            record_size > 0,
            recs@.len() * record_size as int <= usize::MAX,
            forall|j: int| 0 <= j < recs@.len() ==> (#[trigger] recs@[j])@.len() == record_size,
            out@.len() == i * record_size as int,
            forall|j: int|
                0 <= j < i ==> out@.subrange(j * record_size as int, (j + 1) * record_size as int)
                    == (#[trigger] recs@[j])@,
        decreases n - i,
    {
        proof {
            assert((i as int + 1) * record_size as int == i * record_size as int
                + record_size as int && (i as int + 1) * record_size as int <= n
                * record_size as int) by (nonlinear_arith)
                requires
                    0 <= i,
                    i < n,
                    record_size >= 1,
            ;
        }
        let ghost prev = out@;
        out.extend_from_slice(recs[i].as_slice());
        proof {
            assert forall|j: int|
                0 <= j < i + 1 implies out@.subrange(
                j * record_size as int,
                (j + 1) * record_size as int,
            ) == (#[trigger] recs@[j])@ by {
                assert(0 <= j * record_size as int && (j + 1) * record_size as int <= (i as int + 1)
                    * record_size as int && (j + 1) * record_size as int == j * record_size as int
                    + record_size as int) by (nonlinear_arith)
                    requires
                        0 <= j,
                        j <= i as int,
                        record_size >= 1,
                ;
                if j < i {
                    assert((j + 1) * record_size as int <= i * record_size as int)
                        by (nonlinear_arith)
                        requires
                            j + 1 <= i as int,
                            record_size >= 1,
                    ;
                    assert(out@.subrange(j * record_size as int, (j + 1) * record_size as int)
                        =~= prev.subrange(j * record_size as int, (j + 1) * record_size as int));
                } else {
                    assert(out@.subrange(j * record_size as int, (j + 1) * record_size as int)
                        =~= recs@[j]@);
                }
            }
        }
        i = i + 1;
    }
    proof {
        assert(out@.len() == record_size as int * (n as int)) by (nonlinear_arith)
            requires
                out@.len() == (n as int) * record_size as int,
        ;
        vstd::arithmetic::div_mod::lemma_div_multiples_vanish(n as int, record_size as int);
        assert(out@.len() / record_size as nat == n);
        assert(records_of(out@, record_size as nat) =~~= recs.deep_view());
    }
    out
}

} // verus!
