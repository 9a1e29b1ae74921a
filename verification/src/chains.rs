//! The layout of a file hash table with a separate entries file: a table of `size` slots,
//! eight bytes each, holding the offset of the first record of each bucket (`-1` for an
//! empty bucket); and an entries file of records, each linking to the next record of its
//! bucket's chain.
use vstd::prelude::*;
use crate::codec::{be_value_i64, be_value_u64, be_value_u32, be_bytes_u64, be_bytes_i64, lemma_u64_roundtrip, lemma_i64_roundtrip, lemma_u32_roundtrip};
use crate::record::{link_bytes, valid_bytes};
use crate::memfile::{rest_of, write_at};
use crate::record::{Record, RecordView};
use crate::serialize::{Serializable, SerializeError};

verus! {

/// The length of a record in the entries file.
pub open spec fn rec_len<T: Serializable>() -> int {
    (T::encoded_len() + 20) as int
}

/// The offset that table slot `h` holds.
pub open spec fn head(tb: Seq<u8>, h: int) -> i64 {
    be_value_i64(tb.skip(8 * h))
}

/// What reading a record at offset `off` of the entries gives.
pub open spec fn rec_at<T: Serializable>(eb: Seq<u8>, off: int) -> (Result<RecordView<T::V>, SerializeError>, nat) {
    Record::<T>::spec_deserialize(rest_of(eb, off))
}

/// The record read at offset `off` (meaningful where the read succeeds).
pub open spec fn rv<T: Serializable>(eb: Seq<u8>, off: int) -> RecordView<T::V> {
    rec_at::<T>(eb, off).0->Ok_0
}

/// The value of a record that reads back can be written again.
pub proof fn lemma_rec_writable<T: Serializable>(eb: Seq<u8>, off: int)
    requires
        rec_at::<T>(eb, off).0 is Ok,
    ensures
        T::writable(rv::<T>(eb, off).val),
{
    Record::<T>::lemma_read_writable(rest_of(eb, off));
}

/// Whether `c` is the chain of bucket `h`: the offsets of the records reached from the
/// table slot by following the links, each a valid record of a key of the bucket at an
/// offset that is a multiple of the record length, the last one linking to `-1`.
pub open spec fn chain_ok<T: Serializable>(tb: Seq<u8>, eb: Seq<u8>, size: int, h: int, c: Seq<int>) -> bool {
    &&& (c.len() == 0 <==> head(tb, h) == -1)
    &&& c.len() > 0 ==> head(tb, h) == c[0]
    &&& c.no_duplicates()
    &&& forall|i: int|
        #![trigger c[i]]
        0 <= i < c.len() ==> {
            &&& 0 <= c[i]
            &&& c[i] % rec_len::<T>() == 0
            &&& c[i] + rec_len::<T>() <= eb.len()
            &&& rec_at::<T>(eb, c[i]).0 is Ok
            &&& rv::<T>(eb, c[i]).valid
            &&& rv::<T>(eb, c[i]).key % (size as u64) == h
            &&& i + 1 < c.len() ==> rv::<T>(eb, c[i]).next == c[i + 1]
            &&& i + 1 == c.len() ==> rv::<T>(eb, c[i]).next == -1
        }
}

/// Whether `cs` holds the chains of all buckets of a well-formed table.
pub open spec fn chains_ok<T: Serializable>(tb: Seq<u8>, eb: Seq<u8>, size: int, cs: Seq<Seq<int>>) -> bool {
    &&& 0 < size
    &&& size <= u64::MAX
    &&& 8 * size <= tb.len()
    &&& tb.len() <= i64::MAX
    &&& eb.len() <= i64::MAX
    &&& (eb.len() as int) % rec_len::<T>() == 0
    &&& cs.len() == size
    &&& forall|h: int| #![trigger cs[h]] 0 <= h < size ==> chain_ok::<T>(tb, eb, size, h, cs[h])
}

/// Whether the two files hold a well-formed table of `size` buckets.
pub open spec fn table_wf<T: Serializable>(tb: Seq<u8>, eb: Seq<u8>, size: int) -> bool {
    exists|cs: Seq<Seq<int>>| chains_ok::<T>(tb, eb, size, cs)
}

/// The chains of a well-formed table.
pub open spec fn chains<T: Serializable>(tb: Seq<u8>, eb: Seq<u8>, size: int) -> Seq<Seq<int>> {
    choose|cs: Seq<Seq<int>>| chains_ok::<T>(tb, eb, size, cs)
}

/// The keys and values of bucket `h`, in the order of its chain.
pub open spec fn bucket<T: Serializable>(tb: Seq<u8>, eb: Seq<u8>, size: int, h: int) -> Seq<(u64, T::V)> {
    chains::<T>(tb, eb, size)[h].map_values(|off: int| (rv::<T>(eb, off).key, rv::<T>(eb, off).val))
}

/// The value that reading back the record of a value with view `v` gives.
pub open spec fn stored<T: Serializable>(v: T::V) -> Result<T::V, SerializeError> {
    T::spec_deserialize(T::spec_serialize(v)).0
}

/// The offset where a new record goes: the first record, at a multiple of the record
/// length from `off` on, that is not in use, or the error of the first read that fails.
pub open spec fn free_slot<T: Serializable>(eb: Seq<u8>, off: int) -> Result<int, SerializeError>
    decreases eb.len() - off,
{
    match rec_at::<T>(eb, off).0 {
        Err(e) => Err(e),
        Ok(r) => if !r.valid {
            Ok(off)
        } else if 0 <= off && off + rec_len::<T>() <= eb.len() && rec_len::<T>() > 0 {
            free_slot::<T>(eb, off + rec_len::<T>())
        } else {
            Err(SerializeError::Io(crate::memfile::IoError::UnexpectedEof))
        },
    }
}

/// Two chain lists that both describe the same files are the same.
pub proof fn lemma_chains_unique<T: Serializable>(tb: Seq<u8>, eb: Seq<u8>, size: int, cs1: Seq<Seq<int>>, cs2: Seq<Seq<int>>)
    requires
        chains_ok::<T>(tb, eb, size, cs1),
        chains_ok::<T>(tb, eb, size, cs2),
    ensures
        cs1 == cs2,
{
    assert forall|h: int| 0 <= h < size implies cs1[h] == cs2[h] by {
        lemma_chain_unique::<T>(tb, eb, size, h, cs1[h], cs2[h]);
    }
    assert(cs1 =~= cs2);
}

proof fn lemma_chain_unique<T: Serializable>(tb: Seq<u8>, eb: Seq<u8>, size: int, h: int, c1: Seq<int>, c2: Seq<int>)
    requires
        chain_ok::<T>(tb, eb, size, h, c1),
        chain_ok::<T>(tb, eb, size, h, c2),
    ensures
        c1 == c2,
{
    if c1.len() > 0 {
        let n = if c1.len() < c2.len() { c1.len() } else { c2.len() };
        assert forall|i: int| 0 <= i < n implies c1[i] == c2[i] by {
            lemma_chain_prefix::<T>(tb, eb, size, h, c1, c2, i);
        }
        if c1.len() < c2.len() {
            let k = c1.len() - 1;
            assert(c1[k] == c2[k]);
            assert(rv::<T>(eb, c2[k]).next == c2[k + 1]);
            assert(false);
        } else if c2.len() < c1.len() {
            let k = c2.len() - 1;
            assert(c1[k] == c2[k]);
            assert(rv::<T>(eb, c1[k]).next == c1[k + 1]);
            assert(false);
        }
        assert(c1 =~= c2);
    }
}

proof fn lemma_chain_prefix<T: Serializable>(tb: Seq<u8>, eb: Seq<u8>, size: int, h: int, c1: Seq<int>, c2: Seq<int>, i: int)
    requires
        chain_ok::<T>(tb, eb, size, h, c1),
        chain_ok::<T>(tb, eb, size, h, c2),
        0 <= i < c1.len(),
        i < c2.len(),
    ensures
        c1[i] == c2[i],
    decreases i,
{
    if i > 0 {
        lemma_chain_prefix::<T>(tb, eb, size, h, c1, c2, i - 1);
        assert(rv::<T>(eb, c1[i - 1]).next == c1[i]);
        assert(rv::<T>(eb, c2[i - 1]).next == c2[i]);
    }
}

/// A well-formed table has its chains.
pub proof fn lemma_chains_of_wf<T: Serializable>(tb: Seq<u8>, eb: Seq<u8>, size: int, cs: Seq<Seq<int>>)
    requires
        chains_ok::<T>(tb, eb, size, cs),
    ensures
        table_wf::<T>(tb, eb, size),
        chains::<T>(tb, eb, size) == cs,
{
    let c = chains::<T>(tb, eb, size);
    lemma_chains_unique::<T>(tb, eb, size, c, cs);
}

/// A record whose bytes are all unchanged reads the same.
pub proof fn lemma_rec_unchanged<T: Serializable>(eb: Seq<u8>, eb2: Seq<u8>, off: int)
    requires
        0 <= off,
        off + rec_len::<T>() <= eb.len(),
        off + rec_len::<T>() <= eb2.len(),
        forall|i: int| off <= i < off + rec_len::<T>() ==> eb[i] == eb2[i],
    ensures
        rec_at::<T>(eb, off) == rec_at::<T>(eb2, off),
{
    let l = rec_len::<T>();
    assert(rest_of(eb, off).take(l) =~= rest_of(eb2, off).take(l)) by {
        assert forall|i: int| 0 <= i < l implies rest_of(eb, off).take(l)[i] == rest_of(eb2, off).take(l)[i] by {
            assert(eb[off + i] == eb2[off + i]);
        }
    }
    Record::<T>::lemma_deserialize_prefix(rest_of(eb, off), rest_of(eb2, off));
}

/// The record written at `off` reads back with the value that its value's bytes read
/// back as, where they read back.
pub proof fn lemma_rec_written<T: Serializable>(eb: Seq<u8>, off: int, r: RecordView<T::V>)
    requires
        0 <= off,
        stored::<T>(r.val) is Ok,
    ensures
        rec_at::<T>(write_at(eb, off, Record::<T>::spec_serialize(r)), off) == (Ok::<RecordView<T::V>, SerializeError>(
            RecordView { val: stored::<T>(r.val)->Ok_0, ..r },
        ), rec_len::<T>() as nat),
        write_at(eb, off, Record::<T>::spec_serialize(r)).len() >= off + rec_len::<T>(),
{
    let bytes = Record::<T>::spec_serialize(r);
    Record::<T>::lemma_serialize_len(r);
    let eb2 = write_at(eb, off, bytes);
    let l = rec_len::<T>();
    assert(rest_of(eb2, off).take(l) =~= bytes);
    assert(bytes.take(l) =~= bytes);
    Record::<T>::lemma_deserialize_prefix(rest_of(eb2, off), bytes);
    lemma_record_roundtrip::<T>(r);
}

/// A record reads back with its value read back from the value's bytes, where they read
/// back.
pub proof fn lemma_record_roundtrip<T: Serializable>(r: RecordView<T::V>)
    requires
        stored::<T>(r.val) is Ok,
    ensures
        Record::<T>::spec_deserialize(Record::<T>::spec_serialize(r)) == (Ok::<RecordView<T::V>, SerializeError>(
            RecordView { val: stored::<T>(r.val)->Ok_0, ..r },
        ), rec_len::<T>() as nat),
{
    let tb = T::spec_serialize(r.val);
    T::lemma_serialize_len(r.val);
    T::lemma_deserialize_consumed(tb);
    let lk = link_bytes(r.key, r.next, r.valid);
    let all = tb + lk;
    assert(all.take(T::encoded_len() as int) =~= tb.take(T::encoded_len() as int));
    assert(tb.take(T::encoded_len() as int) =~= tb);
    T::lemma_deserialize_prefix(all, tb);
    assert(all.skip(T::encoded_len() as int) =~= lk);
    lemma_u64_roundtrip(r.key);
    lemma_i64_roundtrip(r.next);
    lemma_u32_roundtrip(1);
    lemma_u32_roundtrip(0);
    assert(lk.skip(8) =~= be_bytes_i64(r.next) + valid_bytes(r.valid));
    assert(lk.skip(16) =~= valid_bytes(r.valid));
    assert(be_value_u64(lk) == be_value_u64(be_bytes_u64(r.key)));
    assert(be_value_i64(lk.skip(8)) == be_value_i64(be_bytes_i64(r.next)));
    assert(be_value_u32(lk.skip(16)) == be_value_u32(valid_bytes(r.valid)));
}

/// A record whose value reads back as written reads back as written, whatever bytes follow
/// it, and the read takes exactly the record's bytes.
pub proof fn lemma_record_reads_back<T: Serializable>(r: RecordView<T::V>, rest: Seq<u8>)
    requires
        stored::<T>(r.val) == Ok::<T::V, SerializeError>(r.val),
    ensures
        Record::<T>::spec_deserialize(Record::<T>::spec_serialize(r) + rest) == (Ok::<RecordView<T::V>, SerializeError>(r), Record::<T>::encoded_len()),
{
    lemma_record_roundtrip::<T>(r);
    let a = Record::<T>::spec_serialize(r) + rest;
    let b = Record::<T>::spec_serialize(r);
    Record::<T>::lemma_serialize_len(r);
    let l = Record::<T>::encoded_len() as int;
    assert(a.take(l) =~= b.take(l));
    Record::<T>::lemma_deserialize_prefix(a, b);
    assert(RecordView { val: r.val, ..r } == r);
}

/// A free slot lies at a multiple of the record length from where the search started,
/// within the file, and holds a record that reads but is not in use.
pub proof fn lemma_free_slot<T: Serializable>(eb: Seq<u8>, off: int)
    requires
        0 <= off,
    ensures
        free_slot::<T>(eb, off) matches Ok(o) ==> {
            &&& off <= o
            &&& (o - off) % rec_len::<T>() == 0
            &&& o + rec_len::<T>() <= eb.len()
            &&& rec_at::<T>(eb, o).0 is Ok
            &&& !rv::<T>(eb, o).valid
            &&& rec_at::<T>(eb, o).1 == rec_len::<T>()
        },
    decreases eb.len() - off,
{
    Record::<T>::lemma_deserialize_consumed(rest_of(eb, off));
    match rec_at::<T>(eb, off).0 {
        Err(e) => {},
        Ok(r) => {
            if !r.valid {
                assert(rest_of(eb, off).len() >= rec_len::<T>());
            } else if 0 <= off && off + rec_len::<T>() <= eb.len() && rec_len::<T>() > 0 {
                lemma_free_slot::<T>(eb, off + rec_len::<T>());
                if let Ok(o) = free_slot::<T>(eb, off + rec_len::<T>()) {
                    assert((o - off) == (o - (off + rec_len::<T>())) + rec_len::<T>());
                    assert((o - off) % rec_len::<T>() == 0) by {
                        vstd::arithmetic::div_mod::lemma_mod_add_multiples_vanish(o - (off + rec_len::<T>()), rec_len::<T>());
                    }
                }
            }
        },
    }
}

/// The keys and values of the records at the offsets of `c`, in order.
pub open spec fn bucket_map<T: Serializable>(eb: Seq<u8>, c: Seq<int>) -> Seq<(u64, T::V)> {
    c.map_values(|off: int| (rv::<T>(eb, off).key, rv::<T>(eb, off).val))
}

/// Two different multiples of the record length are a record length apart.
pub proof fn lemma_aligned_disjoint(a: int, b: int, r: int)
    requires
        0 <= a,
        0 <= b,
        r > 0,
        a % r == 0,
        b % r == 0,
        a != b,
    ensures
        a + r <= b || b + r <= a,
{
    vstd::arithmetic::div_mod::lemma_fundamental_div_mod(a, r);
    vstd::arithmetic::div_mod::lemma_fundamental_div_mod(b, r);
    let qa = a / r;
    let qb = b / r;
    assert(a == r * qa);
    assert(b == r * qb);
    assert(a + r <= b || b + r <= a) by (nonlinear_arith)
        requires
            a == r * qa,
            b == r * qb,
            a != b,
            r > 0,
    ;
}

/// A record outside the window of a record-sized write reads as before.
pub proof fn lemma_window_kept<T: Serializable>(eb: Seq<u8>, pos: int, bytes: Seq<u8>, x: int)
    requires
        0 <= pos,
        0 <= x,
        bytes.len() == rec_len::<T>(),
        x + rec_len::<T>() <= eb.len(),
        x + rec_len::<T>() <= pos || pos + rec_len::<T>() <= x,
    ensures
        rec_at::<T>(write_at(eb, pos, bytes), x) == rec_at::<T>(eb, x),
{
    let eb2 = write_at(eb, pos, bytes);
    assert forall|i: int| x <= i < x + rec_len::<T>() implies eb[i] == eb2[i] by {
        crate::memfile::lemma_write_keeps_others(eb, pos, bytes, i);
    }
    crate::memfile::lemma_write_keeps_others(eb, pos, bytes, x);
    lemma_rec_unchanged::<T>(eb, eb2, x);
}

/// A value read from a record reads back from its own bytes.
pub proof fn lemma_rv_stored<T: Serializable>(eb: Seq<u8>, off: int)
    requires
        rec_at::<T>(eb, off).0 is Ok,
    ensures
        stored::<T>(rv::<T>(eb, off).val) == Ok::<T::V, SerializeError>(rv::<T>(eb, off).val),
{
    T::lemma_reencode(rest_of(eb, off));
}

/// The facts of a chain record, for use where the quantifier does not fire by itself.
pub proof fn lemma_chain_elem<T: Serializable>(tb: Seq<u8>, eb: Seq<u8>, size: int, cs: Seq<Seq<int>>, h: int, i: int)
    requires
        chains_ok::<T>(tb, eb, size, cs),
        0 <= h < size,
        0 <= i < cs[h].len(),
    ensures
        0 <= cs[h][i],
        cs[h][i] % rec_len::<T>() == 0,
        cs[h][i] + rec_len::<T>() <= eb.len(),
        rec_at::<T>(eb, cs[h][i]).0 is Ok,
        rv::<T>(eb, cs[h][i]).valid,
        rv::<T>(eb, cs[h][i]).key % (size as u64) == h,
{
    assert(chain_ok::<T>(tb, eb, size, h, cs[h]));
}

/// Records of different buckets are different records.
pub proof fn lemma_chains_disjoint<T: Serializable>(tb: Seq<u8>, eb: Seq<u8>, size: int, cs: Seq<Seq<int>>, h1: int, i1: int, h2: int, i2: int)
    requires
        chains_ok::<T>(tb, eb, size, cs),
        0 <= h1 < size,
        0 <= h2 < size,
        0 <= i1 < cs[h1].len(),
        0 <= i2 < cs[h2].len(),
        h1 != h2 || i1 != i2,
    ensures
        cs[h1][i1] != cs[h2][i2],
        cs[h1][i1] + rec_len::<T>() <= cs[h2][i2] || cs[h2][i2] + rec_len::<T>() <= cs[h1][i1],
{
    lemma_chain_elem::<T>(tb, eb, size, cs, h1, i1);
    lemma_chain_elem::<T>(tb, eb, size, cs, h2, i2);
    if h1 == h2 {
        assert(chain_ok::<T>(tb, eb, size, h1, cs[h1]));
    }
    lemma_aligned_disjoint(cs[h1][i1], cs[h2][i2], rec_len::<T>());
}

/// The entries after a record is appended at the end and linked from the last record of
/// bucket `h`.
pub open spec fn appended_entries<T: Serializable>(eb: Seq<u8>, tail: int, newr: RecordView<T::V>) -> Seq<u8> {
    let l0 = eb.len() as int;
    let eb1 = write_at(eb, l0, Record::<T>::spec_serialize(newr));
    write_at(eb1, tail, Record::<T>::spec_serialize(RecordView { next: l0 as i64, ..rv::<T>(eb, tail) }))
}

/// A record kept in place by writes elsewhere reads the same.
proof fn lemma_two_writes_keep<T: Serializable>(eb: Seq<u8>, p1: int, b1: Seq<u8>, p2: int, b2: Seq<u8>, x: int)
    requires
        0 <= p1,
        0 <= p2,
        0 <= x,
        b1.len() == rec_len::<T>(),
        b2.len() == rec_len::<T>(),
        x + rec_len::<T>() <= eb.len(),
        x + rec_len::<T>() <= p1 || p1 + rec_len::<T>() <= x,
        x + rec_len::<T>() <= p2 || p2 + rec_len::<T>() <= x,
    ensures
        rec_at::<T>(write_at(write_at(eb, p1, b1), p2, b2), x) == rec_at::<T>(eb, x),
{
    lemma_window_kept::<T>(eb, p1, b1, x);
    crate::memfile::lemma_write_keeps_others(eb, p1, b1, x);
    lemma_window_kept::<T>(write_at(eb, p1, b1), p2, b2, x);
}

/// The records after an append: the new one at the end, the old last one of the bucket
/// linking to it, every other chain record as before.
proof fn lemma_append_facts<T: Serializable>(tb: Seq<u8>, eb: Seq<u8>, size: int, cs: Seq<Seq<int>>, h: int, newr: RecordView<T::V>)
    requires
        chains_ok::<T>(tb, eb, size, cs),
        0 <= h < size,
        cs[h].len() > 0,
        stored::<T>(newr.val) is Ok,
    ensures
        ({
            let l0 = eb.len() as int;
            let tail = cs[h].last();
            let eb2 = appended_entries::<T>(eb, tail, newr);
            &&& eb2.len() == l0 + rec_len::<T>()
            &&& rec_at::<T>(eb2, l0).0 == Ok::<RecordView<T::V>, SerializeError>(
                RecordView { val: stored::<T>(newr.val)->Ok_0, ..newr },
            )
            &&& rec_at::<T>(eb2, tail).0 == Ok::<RecordView<T::V>, SerializeError>(
                RecordView { next: l0 as i64, ..rv::<T>(eb, tail) },
            )
            &&& forall|h2: int, i: int|
                0 <= h2 < size && 0 <= i < cs[h2].len() && cs[h2][i] != tail ==> #[trigger] rec_at::<T>(
                    eb2,
                    cs[h2][i],
                ) == rec_at::<T>(eb, cs[h2][i])
        }),
{
    let r = rec_len::<T>();
    let c = cs[h];
    let n = c.len() as int;
    let tail = c[n - 1];
    let l0 = eb.len() as int;
    lemma_chain_elem::<T>(tb, eb, size, cs, h, n - 1);
    let tr = rv::<T>(eb, tail);
    let tr2 = RecordView { next: l0 as i64, ..tr };
    lemma_rv_stored::<T>(eb, tail);
    Record::<T>::lemma_serialize_len(newr);
    Record::<T>::lemma_serialize_len(tr2);
    let b1 = Record::<T>::spec_serialize(newr);
    let b2 = Record::<T>::spec_serialize(tr2);
    let eb1 = write_at(eb, l0, b1);
    let eb2 = write_at(eb1, tail, b2);
    crate::memfile::lemma_write_at_end(eb, b1);
    lemma_rec_written::<T>(eb, l0, newr);
    assert(eb1.len() == l0 + r);
    lemma_window_kept::<T>(eb1, tail, b2, l0);
    lemma_rec_written::<T>(eb1, tail, tr2);
    crate::memfile::lemma_write_keeps_others(eb1, tail, b2, l0);
    assert forall|h2: int, i: int|
        0 <= h2 < size && 0 <= i < cs[h2].len() && cs[h2][i] != tail implies #[trigger] rec_at::<T>(eb2, cs[h2][i])
        == rec_at::<T>(eb, cs[h2][i]) by {
        lemma_chain_elem::<T>(tb, eb, size, cs, h2, i);
        if h2 != h || i != n - 1 {
            lemma_chains_disjoint::<T>(tb, eb, size, cs, h2, i, h, n - 1);
        }
        lemma_two_writes_keep::<T>(eb, l0, b1, tail, b2, cs[h2][i]);
    }
}

/// Appending a record to the chain of a non-empty bucket `h` (writing it at the end of
/// the entries and linking it from the bucket's last record) keeps the table well-formed
/// and adds its key and read-back value at the end of the bucket.
pub proof fn lemma_append_to_chain<T: Serializable>(tb: Seq<u8>, eb: Seq<u8>, size: int, cs: Seq<Seq<int>>, h: int, newr: RecordView<T::V>)
    requires
        chains_ok::<T>(tb, eb, size, cs),
        0 <= h < size,
        cs[h].len() > 0,
        newr.valid,
        newr.next == -1,
        newr.key % (size as u64) == h,
        stored::<T>(newr.val) is Ok,
        eb.len() + rec_len::<T>() <= i64::MAX,
    ensures
        ({
            let l0 = eb.len() as int;
            let eb2 = appended_entries::<T>(eb, cs[h].last(), newr);
            let cs2 = cs.update(h, cs[h].push(l0));
            &&& chains_ok::<T>(tb, eb2, size, cs2)
            &&& forall|h2: int|
                0 <= h2 < size ==> #[trigger] bucket_map::<T>(eb2, cs2[h2]) == if h2 == h {
                    bucket_map::<T>(eb, cs[h]).push((newr.key, stored::<T>(newr.val)->Ok_0))
                } else {
                    bucket_map::<T>(eb, cs[h2])
                }
        }),
{
    let r = rec_len::<T>();
    let c = cs[h];
    let n = c.len() as int;
    let tail = c[n - 1];
    let l0 = eb.len() as int;
    lemma_chain_elem::<T>(tb, eb, size, cs, h, n - 1);
    lemma_rv_stored::<T>(eb, tail);
    lemma_append_facts::<T>(tb, eb, size, cs, h, newr);
    let eb2 = appended_entries::<T>(eb, tail, newr);
    let cs2 = cs.update(h, c.push(l0));
    assert forall|h2: int| 0 <= h2 < size implies #[trigger] chain_ok::<T>(tb, eb2, size, h2, cs2[h2]) by {
        assert(chain_ok::<T>(tb, eb, size, h2, cs[h2]));
        if h2 == h {
            let c2 = c.push(l0);
            assert forall|i: int| 0 <= i < c2.len() implies {
                &&& 0 <= #[trigger] c2[i]
                &&& c2[i] % r == 0
                &&& c2[i] + r <= eb2.len()
                &&& rec_at::<T>(eb2, c2[i]).0 is Ok
                &&& rv::<T>(eb2, c2[i]).valid
                &&& rv::<T>(eb2, c2[i]).key % (size as u64) == h2
                &&& i + 1 < c2.len() ==> rv::<T>(eb2, c2[i]).next == c2[i + 1]
                &&& i + 1 == c2.len() ==> rv::<T>(eb2, c2[i]).next == -1
            } by {
                if i < n - 1 {
                    lemma_chain_elem::<T>(tb, eb, size, cs, h, i);
                    assert(c[i] != tail);
                    assert(rec_at::<T>(eb2, cs[h][i]) == rec_at::<T>(eb, cs[h][i]));
                } else if i == n - 1 {
                } else {
                    assert(c2[i] == l0);
                    assert(l0 % r == 0);
                }
            }
            assert forall|i: int, j: int| 0 <= i < j < c2.len() implies c2[i] != c2[j] by {
                if j == n {
                    lemma_chain_elem::<T>(tb, eb, size, cs, h, i);
                }
            }
        } else {
            let c2 = cs[h2];
            assert(cs2[h2] == c2);
            assert forall|i: int| 0 <= i < c2.len() implies {
                &&& 0 <= #[trigger] c2[i]
                &&& c2[i] % r == 0
                &&& c2[i] + r <= eb2.len()
                &&& rec_at::<T>(eb2, c2[i]).0 is Ok
                &&& rv::<T>(eb2, c2[i]).valid
                &&& rv::<T>(eb2, c2[i]).key % (size as u64) == h2
                &&& i + 1 < c2.len() ==> rv::<T>(eb2, c2[i]).next == c2[i + 1]
                &&& i + 1 == c2.len() ==> rv::<T>(eb2, c2[i]).next == -1
            } by {
                lemma_chains_disjoint::<T>(tb, eb, size, cs, h2, i, h, n - 1);
                assert(rec_at::<T>(eb2, cs[h2][i]) == rec_at::<T>(eb, cs[h2][i]));
            }
        }
    }
    assert((eb2.len() as int) % r == 0) by {
        vstd::arithmetic::div_mod::lemma_mod_add_multiples_vanish(l0, r);
    }
    assert(chains_ok::<T>(tb, eb2, size, cs2));
    assert forall|h2: int| 0 <= h2 < size implies #[trigger] bucket_map::<T>(eb2, cs2[h2]) == if h2 == h {
        bucket_map::<T>(eb, cs[h]).push((newr.key, stored::<T>(newr.val)->Ok_0))
    } else {
        bucket_map::<T>(eb, cs[h2])
    } by {
        if h2 == h {
            assert forall|i: int| 0 <= i < n implies #[trigger] bucket_map::<T>(eb2, cs2[h])[i] == bucket_map::<T>(eb, c)[i] by {
                if i < n - 1 {
                    assert(c[i] != tail) by {
                        assert(chain_ok::<T>(tb, eb, size, h, c));
                    }
                    assert(rec_at::<T>(eb2, cs[h][i]) == rec_at::<T>(eb, cs[h][i]));
                }
            }
            assert(bucket_map::<T>(eb2, cs2[h]) =~= bucket_map::<T>(eb, cs[h]).push(
                (newr.key, stored::<T>(newr.val)->Ok_0),
            ));
        } else {
            assert forall|i: int| 0 <= i < cs[h2].len() implies #[trigger] bucket_map::<T>(eb2, cs2[h2])[i]
                == bucket_map::<T>(eb, cs[h2])[i] by {
                lemma_chains_disjoint::<T>(tb, eb, size, cs, h2, i, h, n - 1);
                assert(rec_at::<T>(eb2, cs[h2][i]) == rec_at::<T>(eb, cs[h2][i]));
            }
            assert(bucket_map::<T>(eb2, cs2[h2]) =~= bucket_map::<T>(eb, cs[h2]));
        }
    }
}

/// Writing eight bytes into slot `h` sets that slot and leaves the others.
pub proof fn lemma_head_after_write(tb: Seq<u8>, h: int, bytes: Seq<u8>, h2: int)
    requires
        0 <= h,
        0 <= h2,
        8 * h + 8 <= tb.len(),
        8 * h2 + 8 <= tb.len(),
        bytes.len() == 8,
    ensures
        write_at(tb, 8 * h, bytes).len() == tb.len(),
        h2 != h ==> head(write_at(tb, 8 * h, bytes), h2) == head(tb, h2),
        h2 == h ==> head(write_at(tb, 8 * h, bytes), h2) == be_value_i64(bytes),
{
    let tb2 = write_at(tb, 8 * h, bytes);
    let s1 = tb2.skip(8 * h2);
    let s2 = tb.skip(8 * h2);
    if h2 != h {
        assert forall|k: int| 0 <= k < 8 implies s1[k] == s2[k] by {
            crate::memfile::lemma_write_keeps_others(tb, 8 * h, bytes, 8 * h2 + k);
        }
        assert(s1[0] == s2[0] && s1[1] == s2[1] && s1[2] == s2[2] && s1[3] == s2[3] && s1[4] == s2[4]
            && s1[5] == s2[5] && s1[6] == s2[6] && s1[7] == s2[7]);
    } else {
        assert forall|k: int| 0 <= k < 8 implies s1[k] == bytes[k] by {}
        assert(s1[0] == bytes[0] && s1[1] == bytes[1] && s1[2] == bytes[2] && s1[3] == bytes[3] && s1[4]
            == bytes[4] && s1[5] == bytes[5] && s1[6] == bytes[6] && s1[7] == bytes[7]);
    }
}

/// The offset where `insert` puts the first record of an empty bucket.
pub open spec fn new_slot<T: Serializable>(eb: Seq<u8>) -> int {
    match free_slot::<T>(eb, 0) {
        Ok(o) => o,
        Err(_) => eb.len() as int,
    }
}

/// The offset `o` of a free slot or of the end is a record offset of no chain.
proof fn lemma_new_slot<T: Serializable>(tb: Seq<u8>, eb: Seq<u8>, size: int, cs: Seq<Seq<int>>)
    requires
        chains_ok::<T>(tb, eb, size, cs),
    ensures
        ({
            let o = new_slot::<T>(eb);
            &&& 0 <= o
            &&& o % rec_len::<T>() == 0
            &&& o + rec_len::<T>() <= eb.len() || o == eb.len()
            &&& forall|h2: int, i: int|
                0 <= h2 < size && 0 <= i < cs[h2].len() ==> #[trigger] cs[h2][i] + rec_len::<T>() <= o || o
                    + rec_len::<T>() <= cs[h2][i]
        }),
{
    let o = new_slot::<T>(eb);
    let r = rec_len::<T>();
    lemma_free_slot::<T>(eb, 0);
    assert forall|h2: int, i: int| 0 <= h2 < size && 0 <= i < cs[h2].len() implies #[trigger] cs[h2][i] + r <= o
        || o + r <= cs[h2][i] by {
        lemma_chain_elem::<T>(tb, eb, size, cs, h2, i);
        if free_slot::<T>(eb, 0) is Ok {
            assert(cs[h2][i] != o);
            lemma_aligned_disjoint(cs[h2][i], o, r);
        }
    }
}

/// The records after the first record of an empty bucket is written: the new one reads
/// back, every chain record as before.
proof fn lemma_start_facts<T: Serializable>(tb: Seq<u8>, eb: Seq<u8>, size: int, cs: Seq<Seq<int>>, h: int, newr: RecordView<T::V>)
    requires
        chains_ok::<T>(tb, eb, size, cs),
        0 <= h < size,
        stored::<T>(newr.val) is Ok,
    ensures
        ({
            let o = new_slot::<T>(eb);
            let eb2 = write_at(eb, o, Record::<T>::spec_serialize(newr));
            &&& 0 <= o
            &&& o % rec_len::<T>() == 0
            &&& o + rec_len::<T>() <= eb2.len()
            &&& (eb2.len() as int) % rec_len::<T>() == 0
            &&& eb2.len() <= eb.len() + rec_len::<T>()
            &&& rec_at::<T>(eb2, o).0 == Ok::<RecordView<T::V>, SerializeError>(
                RecordView { val: stored::<T>(newr.val)->Ok_0, ..newr },
            )
            &&& forall|h2: int, i: int|
                0 <= h2 < size && 0 <= i < cs[h2].len() ==> #[trigger] rec_at::<T>(eb2, cs[h2][i])
                    == rec_at::<T>(eb, cs[h2][i])
        }),
{
    let r = rec_len::<T>();
    let o = new_slot::<T>(eb);
    lemma_new_slot::<T>(tb, eb, size, cs);
    let b1 = Record::<T>::spec_serialize(newr);
    Record::<T>::lemma_serialize_len(newr);
    let eb2 = write_at(eb, o, b1);
    lemma_rec_written::<T>(eb, o, newr);
    crate::memfile::lemma_write_len(eb, o, b1);
    assert forall|h2: int, i: int| 0 <= h2 < size && 0 <= i < cs[h2].len() implies #[trigger] rec_at::<T>(eb2, cs[h2][i])
        == rec_at::<T>(eb, cs[h2][i]) by {
        lemma_chain_elem::<T>(tb, eb, size, cs, h2, i);
        lemma_window_kept::<T>(eb, o, b1, cs[h2][i]);
    }
    if o + r > eb.len() {
        assert((eb2.len() as int) % r == 0) by {
            vstd::arithmetic::div_mod::lemma_mod_add_multiples_vanish(eb.len() as int, r);
        }
    }
}

/// Writing the first record of an empty bucket `h` where `insert` puts it, and setting the
/// bucket's head to it, keeps the table well-formed and gives the bucket that one key
/// and read-back value.
pub proof fn lemma_start_chain<T: Serializable>(tb: Seq<u8>, eb: Seq<u8>, size: int, cs: Seq<Seq<int>>, h: int, newr: RecordView<T::V>)
    requires
        chains_ok::<T>(tb, eb, size, cs),
        0 <= h < size,
        cs[h].len() == 0,
        newr.valid,
        newr.next == -1,
        newr.key % (size as u64) == h,
        stored::<T>(newr.val) is Ok,
        eb.len() + rec_len::<T>() <= i64::MAX,
    ensures
        ({
            let o = new_slot::<T>(eb);
            let eb2 = write_at(eb, o, Record::<T>::spec_serialize(newr));
            let tb2 = write_at(tb, 8 * h, be_bytes_u64(o as u64));
            let cs2 = cs.update(h, seq![o]);
            &&& chains_ok::<T>(tb2, eb2, size, cs2)
            &&& forall|h2: int|
                0 <= h2 < size ==> #[trigger] bucket_map::<T>(eb2, cs2[h2]) == if h2 == h {
                    seq![(newr.key, stored::<T>(newr.val)->Ok_0)]
                } else {
                    bucket_map::<T>(eb, cs[h2])
                }
        }),
{
    let r = rec_len::<T>();
    let o = new_slot::<T>(eb);
    lemma_start_facts::<T>(tb, eb, size, cs, h, newr);
    let eb2 = write_at(eb, o, Record::<T>::spec_serialize(newr));
    let tb2 = write_at(tb, 8 * h, be_bytes_u64(o as u64));
    let cs2 = cs.update(h, seq![o]);
    lemma_u64_roundtrip(o as u64);
    assert(((o as u64) as i64) == o);
    assert forall|h2: int| 0 <= h2 < size implies #[trigger] chain_ok::<T>(tb2, eb2, size, h2, cs2[h2]) by {
        assert(chain_ok::<T>(tb, eb, size, h2, cs[h2]));
        lemma_head_after_write(tb, h, be_bytes_u64(o as u64), h2);
        if h2 != h {
            let c2 = cs[h2];
            assert forall|i: int| 0 <= i < c2.len() implies {
                &&& 0 <= #[trigger] c2[i]
                &&& c2[i] % r == 0
                &&& c2[i] + r <= eb2.len()
                &&& rec_at::<T>(eb2, c2[i]).0 is Ok
                &&& rv::<T>(eb2, c2[i]).valid
                &&& rv::<T>(eb2, c2[i]).key % (size as u64) == h2
                &&& i + 1 < c2.len() ==> rv::<T>(eb2, c2[i]).next == c2[i + 1]
                &&& i + 1 == c2.len() ==> rv::<T>(eb2, c2[i]).next == -1
            } by {
                lemma_chain_elem::<T>(tb, eb, size, cs, h2, i);
                assert(rec_at::<T>(eb2, cs[h2][i]) == rec_at::<T>(eb, cs[h2][i]));
            }
        }
    }
    lemma_head_after_write(tb, h, be_bytes_u64(o as u64), 0);
    assert(chains_ok::<T>(tb2, eb2, size, cs2));
    assert forall|h2: int| 0 <= h2 < size implies #[trigger] bucket_map::<T>(eb2, cs2[h2]) == if h2 == h {
        seq![(newr.key, stored::<T>(newr.val)->Ok_0)]
    } else {
        bucket_map::<T>(eb, cs[h2])
    } by {
        if h2 == h {
            assert(bucket_map::<T>(eb2, cs2[h2]) =~= seq![(newr.key, stored::<T>(newr.val)->Ok_0)]);
        } else {
            assert forall|i: int| 0 <= i < cs[h2].len() implies #[trigger] bucket_map::<T>(eb2, cs2[h2])[i]
                == bucket_map::<T>(eb, cs[h2])[i] by {
                assert(rec_at::<T>(eb2, cs[h2][i]) == rec_at::<T>(eb, cs[h2][i]));
            }
            assert(bucket_map::<T>(eb2, cs2[h2]) =~= bucket_map::<T>(eb, cs[h2]));
        }
    }
}

/// The entries after the first record of bucket `h` is marked as not in use.
pub open spec fn head_deleted_entries<T: Serializable>(eb: Seq<u8>, off: int) -> Seq<u8> {
    write_at(eb, off, Record::<T>::spec_serialize(RecordView { valid: false, next: -1i64, ..rv::<T>(eb, off) }))
}

/// Marking the first record of bucket `h` as not in use and emptying the bucket's head
/// keeps the table well-formed, empties the bucket, and changes no other bucket.
pub proof fn lemma_delete_head<T: Serializable>(tb: Seq<u8>, eb: Seq<u8>, size: int, cs: Seq<Seq<int>>, h: int)
    requires
        chains_ok::<T>(tb, eb, size, cs),
        0 <= h < size,
        cs[h].len() > 0,
    ensures
        ({
            let eb2 = head_deleted_entries::<T>(eb, cs[h][0]);
            let tb2 = write_at(tb, 8 * h, be_bytes_i64(-1i64));
            let cs2 = cs.update(h, Seq::<int>::empty());
            &&& chains_ok::<T>(tb2, eb2, size, cs2)
            &&& forall|h2: int|
                0 <= h2 < size ==> #[trigger] bucket_map::<T>(eb2, cs2[h2]) == if h2 == h {
                    Seq::<(u64, T::V)>::empty()
                } else {
                    bucket_map::<T>(eb, cs[h2])
                }
        }),
{
    let r = rec_len::<T>();
    let c = cs[h];
    let off = c[0];
    lemma_chain_elem::<T>(tb, eb, size, cs, h, 0);
    let b1 = Record::<T>::spec_serialize(RecordView { valid: false, next: -1i64, ..rv::<T>(eb, off) });
    Record::<T>::lemma_serialize_len(RecordView { valid: false, next: -1i64, ..rv::<T>(eb, off) });
    let eb2 = write_at(eb, off, b1);
    let tb2 = write_at(tb, 8 * h, be_bytes_i64(-1i64));
    let cs2 = cs.update(h, Seq::<int>::empty());
    crate::memfile::lemma_write_len(eb, off, b1);
    lemma_i64_roundtrip(-1i64);
    assert forall|h2: int, i: int| 0 <= h2 < size && h2 != h && 0 <= i < cs[h2].len() implies #[trigger] rec_at::<T>(eb2, cs[h2][i])
        == rec_at::<T>(eb, cs[h2][i]) by {
        lemma_chain_elem::<T>(tb, eb, size, cs, h2, i);
        lemma_chains_disjoint::<T>(tb, eb, size, cs, h2, i, h, 0);
        lemma_window_kept::<T>(eb, off, b1, cs[h2][i]);
    }
    assert forall|h2: int| 0 <= h2 < size implies #[trigger] chain_ok::<T>(tb2, eb2, size, h2, cs2[h2]) by {
        assert(chain_ok::<T>(tb, eb, size, h2, cs[h2]));
        lemma_head_after_write(tb, h, be_bytes_i64(-1i64), h2);
        if h2 != h {
            let c2 = cs[h2];
            assert forall|i: int| 0 <= i < c2.len() implies {
                &&& 0 <= #[trigger] c2[i]
                &&& c2[i] % r == 0
                &&& c2[i] + r <= eb2.len()
                &&& rec_at::<T>(eb2, c2[i]).0 is Ok
                &&& rv::<T>(eb2, c2[i]).valid
                &&& rv::<T>(eb2, c2[i]).key % (size as u64) == h2
                &&& i + 1 < c2.len() ==> rv::<T>(eb2, c2[i]).next == c2[i + 1]
                &&& i + 1 == c2.len() ==> rv::<T>(eb2, c2[i]).next == -1
            } by {
                lemma_chain_elem::<T>(tb, eb, size, cs, h2, i);
                assert(rec_at::<T>(eb2, cs[h2][i]) == rec_at::<T>(eb, cs[h2][i]));
            }
        }
    }
    lemma_head_after_write(tb, h, be_bytes_i64(-1i64), 0);
    assert(chains_ok::<T>(tb2, eb2, size, cs2));
    assert forall|h2: int| 0 <= h2 < size implies #[trigger] bucket_map::<T>(eb2, cs2[h2]) == if h2 == h {
        Seq::<(u64, T::V)>::empty()
    } else {
        bucket_map::<T>(eb, cs[h2])
    } by {
        if h2 == h {
            assert(bucket_map::<T>(eb2, cs2[h2]) =~= Seq::<(u64, T::V)>::empty());
        } else {
            assert forall|i: int| 0 <= i < cs[h2].len() implies #[trigger] bucket_map::<T>(eb2, cs2[h2])[i]
                == bucket_map::<T>(eb, cs[h2])[i] by {
                assert(rec_at::<T>(eb2, cs[h2][i]) == rec_at::<T>(eb, cs[h2][i]));
            }
            assert(bucket_map::<T>(eb2, cs2[h2]) =~= bucket_map::<T>(eb, cs[h2]));
        }
    }
}

/// The entries after record `j > 0` of bucket `h` is marked as not in use and the record
/// before it is linked to the one after it.
#[verifier::opaque]
pub open spec fn unlinked_entries<T: Serializable>(eb: Seq<u8>, c: Seq<int>, j: int) -> Seq<u8> {
    let rj = rv::<T>(eb, c[j]);
    let eb1 = write_at(eb, c[j], Record::<T>::spec_serialize(RecordView { valid: false, next: -1i64, ..rj }));
    write_at(eb1, c[j - 1], Record::<T>::spec_serialize(RecordView { next: rj.next, ..rv::<T>(eb, c[j - 1]) }))
}

/// The records after unlinking record `j > 0` of bucket `h`.
proof fn lemma_unlink_facts<T: Serializable>(tb: Seq<u8>, eb: Seq<u8>, size: int, cs: Seq<Seq<int>>, h: int, j: int)
    requires
        chains_ok::<T>(tb, eb, size, cs),
        0 <= h < size,
        0 < j < cs[h].len(),
    ensures
        ({
            let c = cs[h];
            let eb2 = unlinked_entries::<T>(eb, c, j);
            &&& eb2.len() == eb.len()
            &&& rec_at::<T>(eb2, c[j - 1]).0 == Ok::<RecordView<T::V>, SerializeError>(
                RecordView { next: rv::<T>(eb, c[j]).next, ..rv::<T>(eb, c[j - 1]) },
            )
            &&& forall|h2: int, i: int|
                0 <= h2 < size && 0 <= i < cs[h2].len() && cs[h2][i] != c[j] && cs[h2][i] != c[j - 1] ==> #[trigger] rec_at::<T>(
                    eb2,
                    cs[h2][i],
                ) == rec_at::<T>(eb, cs[h2][i])
        }),
{
    let r = rec_len::<T>();
    let c = cs[h];
    lemma_chain_elem::<T>(tb, eb, size, cs, h, j);
    lemma_chain_elem::<T>(tb, eb, size, cs, h, j - 1);
    lemma_chains_disjoint::<T>(tb, eb, size, cs, h, j, h, j - 1);
    reveal(unlinked_entries);
    let rj = rv::<T>(eb, c[j]);
    let rp = rv::<T>(eb, c[j - 1]);
    let w1 = RecordView { valid: false, next: -1i64, ..rj };
    let w2 = RecordView { next: rj.next, ..rp };
    Record::<T>::lemma_serialize_len(w1);
    Record::<T>::lemma_serialize_len(w2);
    let b1 = Record::<T>::spec_serialize(w1);
    let b2 = Record::<T>::spec_serialize(w2);
    let eb1 = write_at(eb, c[j], b1);
    let eb2 = write_at(eb1, c[j - 1], b2);
    crate::memfile::lemma_write_len(eb, c[j], b1);
    crate::memfile::lemma_write_len(eb1, c[j - 1], b2);
    lemma_rv_stored::<T>(eb, c[j - 1]);
    lemma_rec_written::<T>(eb1, c[j - 1], w2);
    assert forall|h2: int, i: int|
        0 <= h2 < size && 0 <= i < cs[h2].len() && cs[h2][i] != c[j] && cs[h2][i] != c[j - 1] implies #[trigger] rec_at::<T>(
            eb2,
            cs[h2][i],
        ) == rec_at::<T>(eb, cs[h2][i]) by {
        lemma_chain_elem::<T>(tb, eb, size, cs, h2, i);
        lemma_aligned_disjoint(cs[h2][i], c[j], r);
        lemma_aligned_disjoint(cs[h2][i], c[j - 1], r);
        lemma_two_writes_keep::<T>(eb, c[j], b1, c[j - 1], b2, cs[h2][i]);
    }
}

/// The facts of element `i` of bucket `h`'s chain after unlinking record `j`.
#[verifier::spinoff_prover]
#[verifier::rlimit(50)]
proof fn lemma_unlink_own_elem<T: Serializable>(tb: Seq<u8>, eb: Seq<u8>, size: int, cs: Seq<Seq<int>>, h: int, j: int, i: int)
    requires
        chains_ok::<T>(tb, eb, size, cs),
        0 <= h < size,
        0 < j < cs[h].len(),
        0 <= i < cs[h].len() - 1,
    ensures
        ({
            let eb2 = unlinked_entries::<T>(eb, cs[h], j);
            let c2 = cs[h].remove(j);
            let r = rec_len::<T>();
            &&& 0 <= c2[i]
            &&& c2[i] % r == 0
            &&& c2[i] + r <= eb2.len()
            &&& rec_at::<T>(eb2, c2[i]).0 is Ok
            &&& rv::<T>(eb2, c2[i]).valid
            &&& rv::<T>(eb2, c2[i]).key % (size as u64) == h
            &&& i + 1 < c2.len() ==> rv::<T>(eb2, c2[i]).next == c2[i + 1]
            &&& i + 1 == c2.len() ==> rv::<T>(eb2, c2[i]).next == -1
        }),
{
    let c = cs[h];
    lemma_unlink_facts::<T>(tb, eb, size, cs, h, j);
    let eb2 = unlinked_entries::<T>(eb, c, j);
    let c2 = c.remove(j);
    assert(chain_ok::<T>(tb, eb, size, h, c));
    if i < j - 1 {
        lemma_chain_elem::<T>(tb, eb, size, cs, h, i);
        assert(c2[i] == c[i]);
        assert(c[i] != c[j] && c[i] != c[j - 1]);
        assert(rec_at::<T>(eb2, cs[h][i]) == rec_at::<T>(eb, cs[h][i]));
        assert(c2[i + 1] == c[i + 1]);
    } else if i == j - 1 {
        lemma_chain_elem::<T>(tb, eb, size, cs, h, i);
        lemma_chain_elem::<T>(tb, eb, size, cs, h, j);
        assert(c2[i] == c[j - 1]);
        if i + 1 < c2.len() {
            assert(c2[i + 1] == c[j + 1]);
        }
    } else {
        lemma_chain_elem::<T>(tb, eb, size, cs, h, i + 1);
        assert(c2[i] == c[i + 1]);
        assert(c[i + 1] != c[j] && c[i + 1] != c[j - 1]);
        assert(rec_at::<T>(eb2, cs[h][i + 1]) == rec_at::<T>(eb, cs[h][i + 1]));
        if i + 1 < c2.len() {
            assert(c2[i + 1] == c[i + 2]);
        }
    }
}

/// After unlinking, the chain of bucket `h` without record `j` is a chain.
proof fn lemma_unlink_own_chain<T: Serializable>(tb: Seq<u8>, eb: Seq<u8>, size: int, cs: Seq<Seq<int>>, h: int, j: int)
    requires
        chains_ok::<T>(tb, eb, size, cs),
        0 <= h < size,
        0 < j < cs[h].len(),
    ensures
        chain_ok::<T>(tb, unlinked_entries::<T>(eb, cs[h], j), size, h, cs[h].remove(j)),
{
    let r = rec_len::<T>();
    let c = cs[h];
    let eb2 = unlinked_entries::<T>(eb, c, j);
    let c2 = c.remove(j);
    assert(chain_ok::<T>(tb, eb, size, h, c));
    assert forall|i: int| 0 <= i < c2.len() implies {
        &&& 0 <= #[trigger] c2[i]
        &&& c2[i] % r == 0
        &&& c2[i] + r <= eb2.len()
        &&& rec_at::<T>(eb2, c2[i]).0 is Ok
        &&& rv::<T>(eb2, c2[i]).valid
        &&& rv::<T>(eb2, c2[i]).key % (size as u64) == h
        &&& i + 1 < c2.len() ==> rv::<T>(eb2, c2[i]).next == c2[i + 1]
        &&& i + 1 == c2.len() ==> rv::<T>(eb2, c2[i]).next == -1
    } by {
        lemma_unlink_own_elem::<T>(tb, eb, size, cs, h, j, i);
    }
    assert(c2.len() > 0);
    lemma_remove_no_dup(c, j);
    assert(c2[0] == c[0]);
}

proof fn lemma_remove_no_dup(c: Seq<int>, j: int)
    requires
        c.no_duplicates(),
        0 <= j < c.len(),
    ensures
        c.remove(j).no_duplicates(),
{
    let c2 = c.remove(j);
    assert forall|a: int, b: int| 0 <= a < c2.len() && 0 <= b < c2.len() && a != b implies c2[a] != c2[b] by {
        let a1 = if a < j { a } else { a + 1 };
        let b1 = if b < j { b } else { b + 1 };
        assert(c2[a] == c[a1] && c2[b] == c[b1]);
    }
}

/// After unlinking in bucket `h`, the chain of another bucket is unchanged.
proof fn lemma_unlink_other_chain<T: Serializable>(tb: Seq<u8>, eb: Seq<u8>, size: int, cs: Seq<Seq<int>>, h: int, j: int, h2: int)
    requires
        chains_ok::<T>(tb, eb, size, cs),
        0 <= h < size,
        0 < j < cs[h].len(),
        0 <= h2 < size,
        h2 != h,
    ensures
        chain_ok::<T>(tb, unlinked_entries::<T>(eb, cs[h], j), size, h2, cs[h2]),
        bucket_map::<T>(unlinked_entries::<T>(eb, cs[h], j), cs[h2]) == bucket_map::<T>(eb, cs[h2]),
{
    let r = rec_len::<T>();
    lemma_unlink_facts::<T>(tb, eb, size, cs, h, j);
    let eb2 = unlinked_entries::<T>(eb, cs[h], j);
    let d = cs[h2];
    assert(chain_ok::<T>(tb, eb, size, h2, d));
    assert forall|i: int| 0 <= i < d.len() implies #[trigger] rec_at::<T>(eb2, d[i]) == rec_at::<T>(eb, d[i]) by {
        lemma_chains_disjoint::<T>(tb, eb, size, cs, h2, i, h, j);
        lemma_chains_disjoint::<T>(tb, eb, size, cs, h2, i, h, j - 1);
    }
    assert forall|i: int| 0 <= i < d.len() implies {
        &&& 0 <= #[trigger] d[i]
        &&& d[i] % r == 0
        &&& d[i] + r <= eb2.len()
        &&& rec_at::<T>(eb2, d[i]).0 is Ok
        &&& rv::<T>(eb2, d[i]).valid
        &&& rv::<T>(eb2, d[i]).key % (size as u64) == h2
        &&& i + 1 < d.len() ==> rv::<T>(eb2, d[i]).next == d[i + 1]
        &&& i + 1 == d.len() ==> rv::<T>(eb2, d[i]).next == -1
    } by {
        lemma_chain_elem::<T>(tb, eb, size, cs, h2, i);
        assert(rec_at::<T>(eb2, d[i]) == rec_at::<T>(eb, d[i]));
    }
    assert forall|i: int| 0 <= i < d.len() implies #[trigger] bucket_map::<T>(eb2, d)[i] == bucket_map::<T>(eb, d)[i] by {
        assert(rec_at::<T>(eb2, d[i]) == rec_at::<T>(eb, d[i]));
    }
    assert(bucket_map::<T>(eb2, d) =~= bucket_map::<T>(eb, d));
}

/// After unlinking, bucket `h` lacks the key and value of record `j`.
proof fn lemma_unlink_own_bucket<T: Serializable>(tb: Seq<u8>, eb: Seq<u8>, size: int, cs: Seq<Seq<int>>, h: int, j: int)
    requires
        chains_ok::<T>(tb, eb, size, cs),
        0 <= h < size,
        0 < j < cs[h].len(),
    ensures
        bucket_map::<T>(unlinked_entries::<T>(eb, cs[h], j), cs[h].remove(j)) == bucket_map::<T>(eb, cs[h]).remove(j),
{
    let c = cs[h];
    let n = c.len() as int;
    lemma_unlink_facts::<T>(tb, eb, size, cs, h, j);
    let eb2 = unlinked_entries::<T>(eb, c, j);
    let c2 = c.remove(j);
    assert(chain_ok::<T>(tb, eb, size, h, c));
    assert forall|i: int| 0 <= i < n - 1 implies #[trigger] bucket_map::<T>(eb2, c2)[i] == bucket_map::<T>(eb, c).remove(j)[i] by {
        if i < j - 1 {
            assert(c[i] != c[j] && c[i] != c[j - 1]);
            assert(rec_at::<T>(eb2, cs[h][i]) == rec_at::<T>(eb, cs[h][i]));
        } else if i >= j {
            assert(c[i + 1] != c[j] && c[i + 1] != c[j - 1]);
            assert(rec_at::<T>(eb2, cs[h][i + 1]) == rec_at::<T>(eb, cs[h][i + 1]));
        } else {
            lemma_chain_elem::<T>(tb, eb, size, cs, h, j - 1);
            lemma_rv_stored::<T>(eb, c[j - 1]);
        }
    }
    assert(bucket_map::<T>(eb2, c2) =~= bucket_map::<T>(eb, c).remove(j));
}

/// Unlinking record `j > 0` of bucket `h` keeps the table well-formed, removes the record's
/// key and value from the bucket, and changes no other bucket.
pub proof fn lemma_unlink<T: Serializable>(tb: Seq<u8>, eb: Seq<u8>, size: int, cs: Seq<Seq<int>>, h: int, j: int)
    requires
        chains_ok::<T>(tb, eb, size, cs),
        0 <= h < size,
        0 < j < cs[h].len(),
    ensures
        ({
            let eb2 = unlinked_entries::<T>(eb, cs[h], j);
            let cs2 = cs.update(h, cs[h].remove(j));
            &&& chains_ok::<T>(tb, eb2, size, cs2)
            &&& forall|h2: int|
                0 <= h2 < size ==> #[trigger] bucket_map::<T>(eb2, cs2[h2]) == if h2 == h {
                    bucket_map::<T>(eb, cs[h]).remove(j)
                } else {
                    bucket_map::<T>(eb, cs[h2])
                }
        }),
{
    let eb2 = unlinked_entries::<T>(eb, cs[h], j);
    let cs2 = cs.update(h, cs[h].remove(j));
    lemma_unlink_facts::<T>(tb, eb, size, cs, h, j);
    assert forall|h2: int| 0 <= h2 < size implies #[trigger] chain_ok::<T>(tb, eb2, size, h2, cs2[h2]) by {
        if h2 == h {
            lemma_unlink_own_chain::<T>(tb, eb, size, cs, h, j);
        } else {
            lemma_unlink_other_chain::<T>(tb, eb, size, cs, h, j, h2);
        }
    }
    assert(chains_ok::<T>(tb, eb2, size, cs2));
    assert forall|h2: int| 0 <= h2 < size implies #[trigger] bucket_map::<T>(eb2, cs2[h2]) == if h2 == h {
        bucket_map::<T>(eb, cs[h]).remove(j)
    } else {
        bucket_map::<T>(eb, cs[h2])
    } by {
        if h2 == h {
            lemma_unlink_own_bucket::<T>(tb, eb, size, cs, h, j);
        } else {
            lemma_unlink_other_chain::<T>(tb, eb, size, cs, h, j, h2);
        }
    }
}


/// Where following a chain of the entries file stops when looking for a key.
pub enum KeyWalk<V> {
    /// At the record of the key: the offset of the record the walk came from (the record's
    /// own offset where it is the first one read), the record's offset and the record.
    Found(int, int, RecordView<V>),
    /// At a record that links to `-1` without holding the key: its offset and the record.
    End(int, RecordView<V>),
    /// At a seek or a read that failed, with its error.
    Failed(SerializeError),
}

/// What reading the eight-byte head of bucket `h` from the table file gives.
pub open spec fn head_read(tb: Seq<u8>, h: int) -> Result<i64, SerializeError> {
    if 8 * h + 8 <= tb.len() {
        Ok(head(tb, h))
    } else {
        Err(SerializeError::Io(crate::memfile::IoError::UnexpectedEof))
    }
}

/// Following the links from the record `rec` read at `off` (reached from `prev`) until a
/// record of `key` or a record that links to `-1`, with at most `fuel` further reads;
/// nothing where the fuel runs out.
pub open spec fn key_walk<T: Serializable>(eb: Seq<u8>, prev: int, off: int, rec: RecordView<T::V>, key: u64, fuel: nat) -> Option<KeyWalk<T::V>>
    decreases fuel,
{
    if rec.key == key {
        Some(KeyWalk::Found(prev, off, rec))
    } else if rec.next == -1 {
        Some(KeyWalk::End(off, rec))
    } else if fuel == 0 {
        None
    } else if rec.next < 0 {
        Some(KeyWalk::Failed(SerializeError::Io(crate::memfile::IoError::InvalidInput)))
    } else {
        match rec_at::<T>(eb, rec.next as int).0 {
            Err(e) => Some(KeyWalk::Failed(e)),
            Ok(r2) => key_walk::<T>(eb, off, rec.next as int, r2, key, (fuel - 1) as nat),
        }
    }
}

/// The walk for `key` from the record at offset `hd`, the head of a bucket.
pub open spec fn walk_from<T: Serializable>(eb: Seq<u8>, hd: i64, key: u64, fuel: nat) -> Option<KeyWalk<T::V>> {
    if hd < 0 {
        Some(KeyWalk::Failed(SerializeError::Io(crate::memfile::IoError::InvalidInput)))
    } else {
        match rec_at::<T>(eb, hd as int).0 {
            Err(e) => Some(KeyWalk::Failed(e)),
            Ok(r) => key_walk::<T>(eb, hd as int, hd as int, r, key, fuel),
        }
    }
}

/// Whether the walk for `key` from the head `hd` stops (it does not where the links
/// run in a circle without the key).
pub open spec fn key_walk_ends<T: Serializable>(eb: Seq<u8>, hd: i64, key: u64) -> bool {
    exists|f: nat| #[trigger] walk_from::<T>(eb, hd, key, f) is Some
}

/// Where the walk for `key` from the head `hd` stops (meaningful where it stops).
pub open spec fn key_walk_result<T: Serializable>(eb: Seq<u8>, hd: i64, key: u64) -> KeyWalk<T::V> {
    walk_from::<T>(eb, hd, key, choose|f: nat| #[trigger] walk_from::<T>(eb, hd, key, f) is Some)->Some_0
}

/// A record that reads lies inside the file.
pub proof fn lemma_read_bounds<T: Serializable>(eb: Seq<u8>, off: int)
    requires
        rec_at::<T>(eb, off).0 is Ok,
    ensures
        0 <= off,
        off + rec_len::<T>() <= eb.len(),
        rec_at::<T>(eb, off).1 == rec_len::<T>(),
{
    Record::<T>::lemma_deserialize_consumed(rest_of(eb, off));
}

/// More fuel does not change a walk that stops.
pub proof fn lemma_key_walk_fuel<T: Serializable>(eb: Seq<u8>, prev: int, off: int, rec: RecordView<T::V>, key: u64, f1: nat, f2: nat)
    requires
        f1 <= f2,
        key_walk::<T>(eb, prev, off, rec, key, f1) is Some,
    ensures
        key_walk::<T>(eb, prev, off, rec, key, f2) == key_walk::<T>(eb, prev, off, rec, key, f1),
    decreases f1,
{
    if rec.key != key && rec.next != -1 && rec.next >= 0 {
        if let Ok(r2) = rec_at::<T>(eb, rec.next as int).0 {
            lemma_key_walk_fuel::<T>(eb, off, rec.next as int, r2, key, (f1 - 1) as nat, (f2 - 1) as nat);
        }
    }
}

/// A walk from a head that stops with fuel `f` stops where `key_walk_result` says.
pub proof fn lemma_walk_from_result<T: Serializable>(eb: Seq<u8>, hd: i64, key: u64, f: nat)
    requires
        walk_from::<T>(eb, hd, key, f) is Some,
    ensures
        key_walk_ends::<T>(eb, hd, key),
        walk_from::<T>(eb, hd, key, f) == Some(key_walk_result::<T>(eb, hd, key)),
{
    let g = choose|g: nat| #[trigger] walk_from::<T>(eb, hd, key, g) is Some;
    assert(walk_from::<T>(eb, hd, key, g) is Some);
    if hd >= 0 {
        if let Ok(r) = rec_at::<T>(eb, hd as int).0 {
            if f <= g {
                lemma_key_walk_fuel::<T>(eb, hd as int, hd as int, r, key, f, g);
            } else {
                lemma_key_walk_fuel::<T>(eb, hd as int, hd as int, r, key, g, f);
            }
        }
    }
}

/// Where a walk stops at a record, that record is the one read at its offset, and the
/// record it came from reads too.
pub proof fn lemma_key_walk_reads<T: Serializable>(eb: Seq<u8>, prev: int, off: int, rec: RecordView<T::V>, key: u64, f: nat)
    requires
        rec_at::<T>(eb, off).0 == Ok::<RecordView<T::V>, SerializeError>(rec),
        rec_at::<T>(eb, prev).0 is Ok,
    ensures
        key_walk::<T>(eb, prev, off, rec, key, f) matches Some(KeyWalk::Found(p, o, r)) ==> {
            &&& rec_at::<T>(eb, o).0 == Ok::<RecordView<T::V>, SerializeError>(r)
            &&& rec_at::<T>(eb, p).0 is Ok
            &&& r.key == key
        },
        key_walk::<T>(eb, prev, off, rec, key, f) matches Some(KeyWalk::End(o, r)) ==> {
            &&& rec_at::<T>(eb, o).0 == Ok::<RecordView<T::V>, SerializeError>(r)
            &&& r.key != key
            &&& r.next == -1
        },
    decreases f,
{
    if rec.key != key && rec.next != -1 && f > 0 && rec.next >= 0 {
        if let Ok(r2) = rec_at::<T>(eb, rec.next as int).0 {
            lemma_key_walk_reads::<T>(eb, off, rec.next as int, r2, key, (f - 1) as nat);
        }
    }
}

/// Where the walk from a head stops at a record, as `lemma_key_walk_reads` says.
pub proof fn lemma_walk_from_reads<T: Serializable>(eb: Seq<u8>, hd: i64, key: u64)
    requires
        key_walk_ends::<T>(eb, hd, key),
    ensures
        key_walk_result::<T>(eb, hd, key) matches KeyWalk::Found(p, o, r) ==> {
            &&& rec_at::<T>(eb, o).0 == Ok::<RecordView<T::V>, SerializeError>(r)
            &&& rec_at::<T>(eb, p).0 is Ok
            &&& r.key == key
        },
        key_walk_result::<T>(eb, hd, key) matches KeyWalk::End(o, r) ==> {
            &&& rec_at::<T>(eb, o).0 == Ok::<RecordView<T::V>, SerializeError>(r)
            &&& r.key != key
            &&& r.next == -1
        },
{
    let f = choose|f: nat| #[trigger] walk_from::<T>(eb, hd, key, f) is Some;
    assert(walk_from::<T>(eb, hd, key, f) is Some);
    if hd >= 0 {
        if let Ok(r) = rec_at::<T>(eb, hd as int).0 {
            lemma_key_walk_reads::<T>(eb, hd as int, hd as int, r, key, f);
        }
    }
}

/// Where the walk of bucket `h` of a well-formed table stops, starting at its record `j`
/// (reached from `prev`): at the first record of `key` from `j` on, reached from the record
/// before it, or at the last record of the chain.
pub open spec fn chain_walk<T: Serializable>(eb: Seq<u8>, c: Seq<int>, key: u64, j: int, prev: int) -> KeyWalk<T::V> {
    let b = bucket_map::<T>(eb, c);
    let k = crate::hash_table::find_key(b, key, j);
    if k < b.len() {
        KeyWalk::Found(if k == j { prev } else { c[k - 1] }, c[k], rv::<T>(eb, c[k]))
    } else {
        KeyWalk::End(c.last(), rv::<T>(eb, c.last()))
    }
}

/// In a well-formed table the walk follows the chain of the bucket.
pub proof fn lemma_walk_chain<T: Serializable>(tb: Seq<u8>, eb: Seq<u8>, size: int, cs: Seq<Seq<int>>, h: int, key: u64, j: int, prev: int, f: nat)
    requires
        chains_ok::<T>(tb, eb, size, cs),
        0 <= h < size,
        0 <= j < cs[h].len(),
        f >= cs[h].len() - j,
    ensures
        key_walk::<T>(eb, prev, cs[h][j], rv::<T>(eb, cs[h][j]), key, f) == Some(chain_walk::<T>(eb, cs[h], key, j, prev)),
    decreases cs[h].len() - j,
{
    let c = cs[h];
    let b = bucket_map::<T>(eb, c);
    assert(chain_ok::<T>(tb, eb, size, h, c));
    lemma_chain_elem::<T>(tb, eb, size, cs, h, j);
    let r = rv::<T>(eb, c[j]);
    assert(b[j] == (r.key, r.val));
    if r.key == key {
        assert(crate::hash_table::find_key(b, key, j) == j);
    } else if r.next == -1 {
        assert(j + 1 == c.len());
        assert(crate::hash_table::find_key(b, key, j + 1) == b.len());
        assert(crate::hash_table::find_key(b, key, j) == b.len());
    } else {
        assert(j + 1 < c.len());
        lemma_chain_elem::<T>(tb, eb, size, cs, h, j + 1);
        lemma_walk_chain::<T>(tb, eb, size, cs, h, key, j + 1, c[j], (f - 1) as nat);
        assert(crate::hash_table::find_key(b, key, j) == crate::hash_table::find_key(b, key, j + 1));
        crate::hash_table::lemma_find_key(b, key, j + 1);
    }
}

} // verus!
