//! What the reader of a list of extended records makes of one that was written,
//! whole or cut short.

use super::las_write::{evlr_bytes, evlr_reads_back, fits_field, fixed_field};
use crate::bytes::{bytes64, le16, le64, le64_reads_bytes64};
use crate::las::{declared_len, record_at, record_fits, record_header, records_from, Record};
use vstd::prelude::*;

verus! {

/// Whether a record survives being written with a 64-bit length.
pub open spec fn survives(v: Record) -> bool {
    &&& v.extended
    &&& fits_field(v.user_id, 16)
    &&& fits_field(v.description, 32)
    &&& v.data.len() <= u64::MAX
}

/// The bytes of one record.
pub open spec fn put(v: Record) -> Seq<u8> {
    evlr_bytes(v.user_id, v.record_id, v.description, v.data)
}

/// The bytes of some records, one after the other.
pub open spec fn put_all(list: Seq<Record>) -> Seq<u8>
    decreases list.len(),
{
    if list.len() == 0 {
        Seq::empty()
    } else {
        put(list[0]) + put_all(list.skip(1))
    }
}

/// How many of the first records lie wholly within so many bytes.
pub open spec fn within(list: Seq<Record>, len: int) -> nat
    decreases list.len(),
{
    if list.len() == 0 || len < put(list[0]).len() {
        0
    } else {
        1 + within(list.skip(1), len - put(list[0]).len())
    }
}

proof fn lemma_moved(a: Seq<u8>, b: Seq<u8>, at: int)
    requires
        0 <= at,
    ensures
        record_fits(a + b, a.len() + at, true) == record_fits(b, at, true),
        record_fits(b, at, true) ==> record_at(a + b, a.len() + at, true) == record_at(b, at, true)
            && declared_len(a + b, a.len() + at, true) == declared_len(b, at, true),
{
    let all = a + b;
    let n = a.len() as int;
    if at + 60 <= b.len() {
        assert forall|i: int| 0 <= i < b.len() - at implies #[trigger] all[n + at + i] == b[at
            + i] by {}
        assert(le64(all, n + at + 20) == le64(b, at + 20)) by {
            assert(all[n + at + 20] == b[at + 20] && all[n + at + 21] == b[at + 21] && all[n + at
                + 22] == b[at + 22] && all[n + at + 23] == b[at + 23] && all[n + at + 24] == b[at
                + 24] && all[n + at + 25] == b[at + 25] && all[n + at + 26] == b[at + 26] && all[n
                + at + 27] == b[at + 27]);
        }
        assert(le16(all, n + at + 18) == le16(b, at + 18)) by {
            assert(all[n + at + 18] == b[at + 18] && all[n + at + 19] == b[at + 19]);
        }
        let len = le64(b, at + 20);
        if at + 60 + len <= b.len() {
            assert(all.subrange(n + at + 2, n + at + 18) =~= b.subrange(at + 2, at + 18));
            assert(all.subrange(n + at + 28, n + at + 60) =~= b.subrange(at + 28, at + 60));
            assert(all.subrange(n + at + 60, n + at + 60 + len) =~= b.subrange(
                at + 60,
                at + 60 + len,
            ));
        }
    }
}

proof fn lemma_list_moved(a: Seq<u8>, b: Seq<u8>, at: int, count: nat)
    requires
        0 <= at,
    ensures
        records_from(a + b, a.len() + at, count, true) == records_from(b, at, count, true),
    decreases count,
{
    if count > 0 {
        lemma_moved(a, b, at);
        if record_fits(b, at, true) {
            let next = at + record_header(true) + declared_len(b, at, true);
            lemma_list_moved(a, b, next, (count - 1) as nat);
        }
    }
}

proof fn lemma_put_len(v: Record)
    ensures
        put(v).len() == 60 + v.data.len(),
        put(v).subrange(20, 28) == bytes64(v.data.len() as int),
{
    assert(fixed_field(v.user_id, 16).len() == 16);
    assert(fixed_field(v.description, 32).len() == 32);
    assert(put(v).subrange(20, 28) =~= bytes64(v.data.len() as int));
}

/// A record that is cut short does not fit.
proof fn lemma_cut_short(v: Record, b: Seq<u8>)
    requires
        survives(v),
        b.len() < put(v).len(),
        b == put(v).take(b.len() as int),
    ensures
        !record_fits(b, 0, true),
{
    lemma_put_len(v);
    if b.len() >= 60 {
        le64_reads_bytes64(v.data.len() as int);
        assert(b.subrange(20, 28) =~= put(v).subrange(20, 28));
        assert(le64(b, 20) == le64(b.subrange(20, 28), 0));
    }
}

/// A list of extended records reads back, whole or cut short: the records that
/// lie wholly within the bytes come back as they were, in order, and it is said
/// whether they are all of them.
#[verifier::spinoff_prover]
#[verifier::rlimit(40)]
pub proof fn evlrs_read_back(list: Seq<Record>, len: int)
    requires
        forall|i: int| 0 <= i < list.len() ==> survives(#[trigger] list[i]),
        0 <= len <= put_all(list).len(),
    ensures
        within(list, len) <= list.len(),
        records_from(put_all(list).take(len), 0, list.len(), true) == (
            list.take(within(list, len) as int),
            within(list, len) == list.len(),
        ),
        len == put_all(list).len() ==> within(list, len) == list.len(),
    decreases list.len(),
{
    let b = put_all(list).take(len);
    if list.len() == 0 {
        assert(list.take(0) =~= Seq::<Record>::empty());
    } else {
        let v = list[0];
        let rest = list.skip(1);
        let head = put(v);
        let all = put_all(rest);
        assert(survives(v));
        assert forall|i: int| 0 <= i < rest.len() implies survives(#[trigger] rest[i]) by {
            assert(rest[i] == list[i + 1]);
        }
        if len < head.len() {
            assert(b =~= head.take(len));
            lemma_cut_short(v, b);
            assert(list.take(0) =~= Seq::<Record>::empty());
        } else {
            let left = len - head.len();
            let tail = all.take(left);
            assert(b =~= head + tail);
            evlrs_read_back(rest, left);
            evlr_reads_back(v.user_id, v.record_id, v.description, v.data, tail);
            lemma_put_len(v);
            assert(record_at(b, 0, true) == v);
            assert(declared_len(b, 0, true) == v.data.len()) by {
                le64_reads_bytes64(v.data.len() as int);
                assert(b.subrange(20, 28) =~= head.subrange(20, 28));
                assert(le64(b, 20) == le64(b.subrange(20, 28), 0));
            }
            lemma_list_moved(head, tail, 0, rest.len());
            assert(records_from(b, 0, list.len(), true).0 == seq![v] + rest.take(
                within(rest, left) as int,
            ));
            assert(seq![v] + rest.take(within(rest, left) as int) =~= list.take(
                within(list, len) as int,
            ));
        }
    }
}

} // verus!
