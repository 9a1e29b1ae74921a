//! A hash table kept in two files: a table of bucket heads and a file of records chained
//! per bucket.
use vstd::prelude::*;
use crate::codec::{be_bytes_i64, be_bytes_u64, be_value_i64};
use crate::memfile::{MemFile, SeekFrom, IoError, rest_of, write_at};
use crate::record::{Record, RecordView};
use crate::serialize::{Serializable, SerializeError};
use crate::chains::{rec_len, head, rec_at, rv, chain_ok, chains_ok, table_wf, chains, bucket, stored, free_slot, bucket_map, new_slot, appended_entries, lemma_chains_of_wf, lemma_append_to_chain, lemma_start_chain, lemma_free_slot, lemma_chain_elem, head_deleted_entries, unlinked_entries, lemma_delete_head, lemma_unlink, lemma_chains_disjoint, lemma_window_kept, lemma_rec_writable, KeyWalk, head_read, key_walk, walk_from, key_walk_ends, key_walk_result, chain_walk, lemma_read_bounds, lemma_walk_from_result, lemma_walk_from_reads, lemma_walk_chain};

verus! {

/// A hash table of values of type `T` under `u64` keys, kept in a table file of `size`
/// bucket heads and an entries file of records.
pub struct FileHashTable<T> {
    table: MemFile,
    entries: MemFile,
    size: usize,
    _marker: core::marker::PhantomData<T>,
}

/// The first index at or after `i` of an entry of `b` under `key`, or the length of `b`.
pub open spec fn find_key<V>(b: Seq<(u64, V)>, key: u64, i: int) -> int
    decreases b.len() - i,
{
    if i < 0 || i >= b.len() {
        b.len() as int
    } else if b[i].0 == key {
        i
    } else {
        find_key(b, key, i + 1)
    }
}

/// The first index of an entry under `key` lies between `i` and the length, and the
/// entries before it from `i` on are under other keys.
pub proof fn lemma_find_key<V>(b: Seq<(u64, V)>, key: u64, i: int)
    requires
        0 <= i <= b.len(),
    ensures
        i <= find_key(b, key, i) <= b.len(),
        find_key(b, key, i) < b.len() ==> b[find_key(b, key, i)].0 == key,
        forall|j: int| i <= j < find_key(b, key, i) ==> b[j].0 != key,
    decreases b.len() - i,
{
    if i < b.len() && b[i].0 != key {
        lemma_find_key(b, key, i + 1);
    }
}

/// Eight bytes of `0xff`: the slot of an empty bucket.
pub open spec fn empty_slots(n: nat) -> Seq<u8> {
    Seq::new(8 * n, |i: int| 0xffu8)
}

impl<T: Serializable> FileHashTable<T> {
    /// The contents of the table file.
    pub closed spec fn table_bytes(&self) -> Seq<u8> {
        self.table.bytes()
    }

    /// The contents of the entries file.
    pub closed spec fn entries_bytes(&self) -> Seq<u8> {
        self.entries.bytes()
    }

    /// The number of buckets.
    pub closed spec fn spec_size(&self) -> int {
        self.size as int
    }

    /// The two files hold a well-formed table.
    pub open spec fn wf(&self) -> bool {
        table_wf::<T>(self.table_bytes(), self.entries_bytes(), self.spec_size())
    }

    /// The bucket of `key`.
    pub open spec fn hash(&self, key: u64) -> int {
        (key % (self.spec_size() as u64)) as int
    }

    /// The keys and values of bucket `h`, in the order of its chain.
    pub open spec fn bucket_of(&self, h: int) -> Seq<(u64, T::V)> {
        bucket::<T>(self.table_bytes(), self.entries_bytes(), self.spec_size(), h)
    }

    /// The offsets of the records of bucket `h`, in chain order.
    pub open spec fn chain_of(&self, h: int) -> Seq<int> {
        chains::<T>(self.table_bytes(), self.entries_bytes(), self.spec_size())[h]
    }

    /// Whether some record of `key`'s bucket holds `key`.
    pub open spec fn contains(&self, key: u64) -> bool {
        find_key(self.bucket_of(self.hash(key)), key, 0) < self.bucket_of(self.hash(key)).len()
    }

    /// The value of the first record of `key` in its bucket's chain.
    pub open spec fn lookup(&self, key: u64) -> T::V {
        self.bucket_of(self.hash(key))[find_key(self.bucket_of(self.hash(key)), key, 0)].1
    }

    /// What reading the head of `key`'s bucket from the table file gives.
    pub open spec fn head_of(&self, key: u64) -> Result<i64, SerializeError> {
        head_read(self.table_bytes(), self.hash(key))
    }

    /// Whether the walk for `key` along the chain from the record at `hd` stops.
    pub open spec fn walk_ends(&self, hd: i64, key: u64) -> bool {
        key_walk_ends::<T>(self.entries_bytes(), hd, key)
    }

    /// Where the walk for `key` along the chain from the record at `hd` stops.
    pub open spec fn walk(&self, hd: i64, key: u64) -> KeyWalk<T::V> {
        key_walk_result::<T>(self.entries_bytes(), hd, key)
    }

    /// A table over the two files as they are.
    pub fn open(table: MemFile, entries: MemFile, size: usize) -> (r: FileHashTable<T>)
        ensures
            r.table_bytes() == table.bytes(),
            r.entries_bytes() == entries.bytes(),
            r.spec_size() == size,
    {
        FileHashTable { table, entries, size, _marker: core::marker::PhantomData }
    }

    /// A new table: `size` empty bucket heads are written at the cursor of the table file.
    pub fn new(table: MemFile, entries: MemFile, size: usize) -> (r: FileHashTable<T>)
        requires
            table.cursor() + 8 * size <= usize::MAX,
        ensures
            r.table_bytes() == if size == 0 {
                table.bytes()
            } else {
                write_at(table.bytes(), table.cursor() as int, empty_slots(size as nat))
            },
            r.entries_bytes() == entries.bytes(),
            r.spec_size() == size,
            // over a table file written from its start, the table is well-formed and empty
            table.cursor() == 0 && 0 < size && table.bytes().len() <= i64::MAX && 8 * size <= i64::MAX
                && entries.bytes().len() <= i64::MAX && (entries.bytes().len() as int) % rec_len::<T>() == 0
                ==> r.wf() && forall|h: int| 0 <= h < size ==> #[trigger] r.bucket_of(h) == Seq::<(u64, T::V)>::empty(),
    {
        let mut table = table;
        let ghost t0 = table.bytes();
        let ghost c0 = table.cursor() as int;
        proof {
            lemma_empty_slot();
        }
        let mut i: usize = 0;
        while i < size
            invariant
                i <= size,
                0 <= c0,
                c0 + 8 * size <= usize::MAX,
                table.cursor() == c0 + 8 * i,
                i > 0 ==> table.bytes() == write_at(t0, c0, empty_slots(i as nat)),
                i == 0 ==> table.bytes() == t0,
                be_bytes_i64(-1i64) == empty_slots(1),
            decreases size - i,
        {
            table.write_i64(-1);
            proof {
                if i > 0 {
                    crate::memfile::lemma_write_concat(t0, c0, empty_slots(i as nat), empty_slots(1));
                    assert(empty_slots(i as nat) + empty_slots(1) =~= empty_slots((i + 1) as nat));
                } else {
                    assert(empty_slots(1) =~= empty_slots((i + 1) as nat));
                }
            }
            i += 1;
        }
        proof {
            if c0 == 0 && 0 < size && t0.len() <= i64::MAX && 8 * size <= i64::MAX && entries.bytes().len() <= i64::MAX
                && (entries.bytes().len() as int) % rec_len::<T>() == 0 {
                lemma_new_table_empty::<T>(t0, entries.bytes(), size as int);
            }
        }
        FileHashTable::<T>::open(table, entries, size)
    }

    /// The contents of the two files, taking the table apart.
    pub fn into_files(self) -> (r: (MemFile, MemFile))
        ensures
            r.0.bytes() == self.table_bytes(),
            r.1.bytes() == self.entries_bytes(),
    {
        (self.table, self.entries)
    }
}

/// Empty heads written over the start of a table file make a well-formed table of empty
/// buckets.
proof fn lemma_new_table_empty<T: Serializable>(t0: Seq<u8>, eb: Seq<u8>, size: int)
    requires
        0 < size,
        t0.len() <= i64::MAX,
        8 * size <= i64::MAX,
        eb.len() <= i64::MAX,
        (eb.len() as int) % rec_len::<T>() == 0,
    ensures
        ({
            let tb = write_at(t0, 0, empty_slots(size as nat));
            let cs = Seq::new(size as nat, |h: int| Seq::<int>::empty());
            &&& chains_ok::<T>(tb, eb, size, cs)
            &&& table_wf::<T>(tb, eb, size)
            &&& forall|h: int| 0 <= h < size ==> #[trigger] bucket::<T>(tb, eb, size, h) == Seq::<(u64, T::V)>::empty()
        }),
{
    let tb = write_at(t0, 0, empty_slots(size as nat));
    let cs = Seq::new(size as nat, |h: int| Seq::<int>::empty());
    crate::memfile::lemma_write_len(t0, 0, empty_slots(size as nat));
    lemma_empty_slot();
    assert forall|h: int| 0 <= h < size implies #[trigger] chain_ok::<T>(tb, eb, size, h, cs[h]) by {
        let s1 = tb.skip(8 * h);
        let e = empty_slots(1);
        assert forall|k: int| 0 <= k < 8 implies s1[k] == e[k] by {
            assert(tb[8 * h + k] == empty_slots(size as nat)[8 * h + k]);
        }
        assert(s1[0] == e[0] && s1[1] == e[1] && s1[2] == e[2] && s1[3] == e[3] && s1[4] == e[4] && s1[5]
            == e[5] && s1[6] == e[6] && s1[7] == e[7]);
        assert(head(tb, h) == be_value_i64(e));
    }
    assert(chains_ok::<T>(tb, eb, size, cs));
    lemma_chains_of_wf::<T>(tb, eb, size, cs);
    assert forall|h: int| 0 <= h < size implies #[trigger] bucket::<T>(tb, eb, size, h) == Seq::<(u64, T::V)>::empty() by {
        assert(bucket::<T>(tb, eb, size, h) =~= Seq::<(u64, T::V)>::empty());
    }
}

proof fn lemma_empty_slot()
    ensures
        be_bytes_i64(-1i64) == empty_slots(1),
        be_value_i64(empty_slots(1)) == -1,
{
    let m: i64 = -1i64;
    assert(((m as u64) >> 56u64) as u8 == 0xff && ((m as u64) >> 48u64) as u8 == 0xff && ((m as u64)
        >> 40u64) as u8 == 0xff && ((m as u64) >> 32u64) as u8 == 0xff && ((m as u64) >> 24u64) as u8
        == 0xff && ((m as u64) >> 16u64) as u8 == 0xff && ((m as u64) >> 8u64) as u8 == 0xff && (m
        as u64) as u8 == 0xff) by (bit_vector)
        requires
            m == -1i64,
    ;
    assert(be_bytes_i64(-1i64) =~= empty_slots(1));
    let f: u8 = 0xff;
    assert((((f as u64) << 56u64) | ((f as u64) << 48u64) | ((f as u64) << 40u64) | ((f as u64)
        << 32u64) | ((f as u64) << 24u64) | ((f as u64) << 16u64) | ((f as u64) << 8u64) | (f
        as u64)) as i64 == -1i64) by (bit_vector)
        requires
            f == 0xffu8,
    ;
}

impl<T: Serializable> FileHashTable<T> {
    /// Reads the head of bucket `h` from the table file.
    fn read_head(&mut self, h: u64) -> (r: Result<i64, SerializeError>)
        requires
            8 * h + 8 <= i64::MAX,
        ensures
            final(self).table_bytes() == old(self).table_bytes(),
            final(self).entries_bytes() == old(self).entries_bytes(),
            final(self).spec_size() == old(self).spec_size(),
            r == head_read(old(self).table_bytes(), h as int),
    {
        // each slot holds an eight-byte offset
        let pos = h * 8;
        match self.table.seek(SeekFrom::Start(pos)) {
            Ok(_) => {},
            Err(e) => {
                return Err(SerializeError::Io(e));
            },
        }
        match self.table.read_i64() {
            Ok(v) => {
                assert(rest_of(self.table.bytes(), 8 * h as int) == self.table.bytes().skip(8 * h as int));
                Ok(v)
            },
            Err(e) => Err(SerializeError::Io(e)),
        }
    }

    /// Reads the head of `key`'s bucket: the offset of its first record, `-1` for an empty
    /// bucket.
    pub fn bucket_head(&mut self, key: u64) -> (r: Result<i64, SerializeError>)
        requires
            0 < old(self).spec_size(),
            8 * old(self).spec_size() <= i64::MAX,
        ensures
            final(self).table_bytes() == old(self).table_bytes(),
            final(self).entries_bytes() == old(self).entries_bytes(),
            final(self).spec_size() == old(self).spec_size(),
            r == old(self).head_of(key),
    {
        let hash = key % (self.size as u64);
        self.read_head(hash)
    }

    /// Reads the record at offset `off` of the entries file.
    fn read_record_at(&mut self, off: i64) -> (r: Result<Record<T>, SerializeError>)
        ensures
            final(self).table_bytes() == old(self).table_bytes(),
            final(self).entries_bytes() == old(self).entries_bytes(),
            final(self).spec_size() == old(self).spec_size(),
            off < 0 ==> r == Err::<Record<T>, SerializeError>(SerializeError::Io(IoError::InvalidInput)),
            off >= 0 ==> crate::serialize::outcome_matches(r, rec_at::<T>(old(self).entries_bytes(), off as int).0),
            off >= 0 ==> final(self).entries.cursor() == off + rec_at::<T>(old(self).entries_bytes(), off as int).1,
    {
        proof {
            assert(off < 0 ==> (off as u64) > 0x7fff_ffff_ffff_ffffu64) by (bit_vector);
            assert(off >= 0 ==> (off as u64) == off) by (bit_vector);
        }
        match self.entries.seek(SeekFrom::Start(off as u64)) {
            Ok(_) => {},
            Err(e) => {
                return Err(SerializeError::Io(e));
            },
        }
        Record::<T>::deserialize(&mut self.entries)
    }

    /// Looks for the first record of the entries file that is not in use, reading the
    /// records one after another from the start; on success the cursor stands after it.
    fn search_for_empty(&mut self) -> (r: Result<u64, SerializeError>)
        requires
            old(self).entries_bytes().len() <= i64::MAX,
        ensures
            final(self).table_bytes() == old(self).table_bytes(),
            final(self).entries_bytes() == old(self).entries_bytes(),
            final(self).spec_size() == old(self).spec_size(),
            match free_slot::<T>(old(self).entries_bytes(), 0) {
                Ok(o) => r == Ok::<u64, SerializeError>(o as u64) && final(self).entries.cursor() == o + rec_len::<T>(),
                Err(e) => r == Err::<u64, SerializeError>(e),
            },
    {
        let ghost eb = self.entries.bytes();
        let mut offset = match self.entries.seek(SeekFrom::Start(0)) {
            Ok(p) => p,
            Err(e) => {
                return Err(SerializeError::Io(e));
            },
        };
        proof {
            Record::<T>::lemma_deserialize_consumed(rest_of(eb, 0));
        }
        let mut record = match Record::<T>::deserialize(&mut self.entries) {
            Ok(r) => r,
            Err(e) => {
                return Err(e);
            },
        };
        while record.valid
            invariant
                self.entries.bytes() == eb,
                eb == old(self).entries_bytes(),
                self.table_bytes() == old(self).table_bytes(),
                self.spec_size() == old(self).spec_size(),
                eb.len() <= i64::MAX,
                offset + rec_len::<T>() <= eb.len(),
                rec_at::<T>(eb, offset as int).0 is Ok,
                record@ == rv::<T>(eb, offset as int),
                self.entries.cursor() == offset + rec_len::<T>(),
                free_slot::<T>(eb, 0) == free_slot::<T>(eb, offset as int),
            decreases eb.len() - offset,
        {
            proof {
                assert(free_slot::<T>(eb, offset as int) == free_slot::<T>(eb, offset + rec_len::<T>()));
            }
            offset = match self.entries.seek(SeekFrom::Current(0)) {
                Ok(p) => p,
                Err(e) => {
                    return Err(SerializeError::Io(e));
                },
            };
            proof {
                Record::<T>::lemma_deserialize_consumed(rest_of(eb, offset as int));
            }
            record = match Record::<T>::deserialize(&mut self.entries) {
                Ok(r) => r,
                Err(e) => {
                    return Err(e);
                },
            };
        }
        Ok(offset)
    }

    /// Follows the chain from the record at `hd` until a record of `key` or a record that
    /// links to `-1`, and returns the offset of the record before the last one read (the
    /// last one's own offset where it is the first), the offset of the last one and the
    /// last record.
    fn walk_chain(&mut self, hd: i64, key: u64) -> (r: Result<(u64, u64, Record<T>), SerializeError>)
        requires
            key_walk_ends::<T>(old(self).entries_bytes(), hd, key),
        ensures
            final(self).table_bytes() == old(self).table_bytes(),
            final(self).entries_bytes() == old(self).entries_bytes(),
            final(self).spec_size() == old(self).spec_size(),
            match key_walk_result::<T>(old(self).entries_bytes(), hd, key) {
                KeyWalk::Found(p, o, rec) => r matches Ok((p2, o2, rec2)) && p2 == p && o2 == o && rec2@ == rec
                    && rec2.key == key,
                KeyWalk::End(o, rec) => r matches Ok((_p2, o2, rec2)) && o2 == o && rec2@ == rec && rec2.key != key,
                KeyWalk::Failed(e) => r == Err::<(u64, u64, Record<T>), SerializeError>(e),
            },
    {
        let ghost eb = self.entries_bytes();
        let ghost res = key_walk_result::<T>(eb, hd, key);
        let ghost f0 = choose|f: nat| #[trigger] walk_from::<T>(eb, hd, key, f) is Some;
        proof {
            lemma_walk_from_result::<T>(eb, hd, key, f0);
            lemma_walk_from_reads::<T>(eb, hd, key);
        }
        let mut record = match self.read_record_at(hd) {
            Ok(rec) => rec,
            Err(e) => {
                return Err(e);
            },
        };
        proof {
            assert(hd >= 0 ==> (hd as u64) == hd) by (bit_vector);
        }
        let mut cur: u64 = hd as u64;
        let mut prev: u64 = cur;
        let ghost mut f: nat = f0;
        while record.next != -1 && record.key != key
            invariant
                self.table_bytes() == old(self).table_bytes(),
                self.entries_bytes() == eb,
                eb == old(self).entries_bytes(),
                self.spec_size() == old(self).spec_size(),
                res == key_walk_result::<T>(eb, hd, key),
                key_walk::<T>(eb, prev as int, cur as int, record@, key, f) == Some(res),
            decreases f,
        {
            let nx = record.next;
            let next_rec = match self.read_record_at(nx) {
                Ok(rec) => rec,
                Err(e) => {
                    return Err(e);
                },
            };
            proof {
                assert(nx >= 0 ==> (nx as u64) == nx) by (bit_vector);
            }
            prev = cur;
            cur = nx as u64;
            record = next_rec;
            proof {
                f = (f - 1) as nat;
            }
        }
        Ok((prev, cur, record))
    }

    /// The value stored under `key`: the first record of the chain of `key`'s bucket that
    /// holds `key`. (Where the bucket's head is `-1`, or the chain ends at `-1` before a
    /// record of `key`, the search panics, and where the links run in a circle without
    /// `key` it does not end: `requires` rules these out.)
    pub fn search(&mut self, key: u64) -> (r: Result<T, SerializeError>)
        requires
            0 < old(self).spec_size(),
            8 * old(self).spec_size() <= i64::MAX,
            old(self).head_of(key) matches Ok(hd) ==> hd != -1 && old(self).walk_ends(hd, key) && !(old(
                self,
            ).walk(hd, key) is End),
        ensures
            final(self).table_bytes() == old(self).table_bytes(),
            final(self).entries_bytes() == old(self).entries_bytes(),
            final(self).spec_size() == old(self).spec_size(),
            match old(self).head_of(key) {
                Err(e) => r == Err::<T, SerializeError>(e),
                Ok(hd) => match old(self).walk(hd, key) {
                    KeyWalk::Found(_p, _o, rec) => r matches Ok(v) && v@ == rec.val,
                    KeyWalk::Failed(e) => r == Err::<T, SerializeError>(e),
                    KeyWalk::End(_o, _rec) => false,
                },
            },
            // in a well-formed table, the value of the key's first record in its bucket
            old(self).wf() && old(self).contains(key) ==> (r matches Ok(v) && v@ == old(self).lookup(key)),
    {
        proof {
            if self.wf() {
                lemma_wf_walk_bytes::<T>(self.table_bytes(), self.entries_bytes(), self.spec_size(), key);
                lemma_find_key(self.bucket_of(self.hash(key)), key, 0);
            }
        }
        let hash = key % (self.size as u64);
        let maybe_offset = match self.read_head(hash) {
            Ok(v) => v,
            Err(e) => {
                return Err(e);
            },
        };
        if maybe_offset == -1 {
            proof {
                assert(false);
            }
            return Err(SerializeError::Io(IoError::InvalidInput));
        }
        match self.walk_chain(maybe_offset, key) {
            Ok((_prev, _cur, rec)) => {
                if rec.key != key {
                    proof {
                        assert(false);
                    }
                    return Err(SerializeError::Io(IoError::InvalidInput));
                }
                Ok(rec.val)
            },
            Err(e) => Err(e),
        }
    }

    /// Writes the first record of the empty bucket `hash`: at the first record not in use,
    /// or at the end, with the bucket's head pointing to it.
    fn insert_new_chain(&mut self, hash: u64, key: u64, val: T) -> (r: Result<(), SerializeError>)
        requires
            8 * hash + 8 <= i64::MAX,
            8 * hash + 8 <= old(self).table_bytes().len(),
            T::writable(val@),
            old(self).entries_bytes().len() + 2 * rec_len::<T>() <= i64::MAX,
            old(self).entries_bytes().len() + 2 * rec_len::<T>() <= usize::MAX,
        ensures
            r is Ok,
            final(self).spec_size() == old(self).spec_size(),
            ({
                let tb = old(self).table_bytes();
                let eb = old(self).entries_bytes();
                let newr = RecordView { val: val@, key, next: -1i64, valid: true };
                &&& final(self).entries_bytes() == write_at(eb, new_slot::<T>(eb), Record::<T>::spec_serialize(newr))
                &&& final(self).table_bytes() == write_at(tb, 8 * hash, be_bytes_u64(new_slot::<T>(eb) as u64))
            }),
    {
        let ghost eb = self.entries_bytes();
        proof {
            lemma_free_slot::<T>(eb, 0);
            self.table.lemma_bounds();
        }
        let pos = hash * 8;
        let written_at = match self.search_for_empty() {
            Ok(val) => match self.entries.seek(SeekFrom::Start(val)) {
                Ok(p) => p,
                Err(e) => {
                    return Err(SerializeError::Io(e));
                },
            },
            Err(_) => match self.entries.seek(SeekFrom::End(0)) {
                Ok(p) => p,
                Err(e) => {
                    return Err(SerializeError::Io(e));
                },
            },
        };
        let record = Record::from_t(val, key);
        let _ = record.serialize(&mut self.entries);
        match self.table.seek(SeekFrom::Start(pos)) {
            Ok(_) => {},
            Err(e) => {
                return Err(SerializeError::Io(e));
            },
        }
        self.table.write_u64(written_at);
        Ok(())
    }

    /// Writes a new record of `key` and links `record`, the last record of a chain, read
    /// at `entry_offset`, to it.
    fn insert_after(&mut self, entry_offset: u64, record: Record<T>, key: u64, val: T) -> (r: Result<(), SerializeError>)
        requires
            rec_at::<T>(old(self).entries_bytes(), entry_offset as int).0 == Ok::<RecordView<T::V>, SerializeError>(record@),
            T::writable(val@),
            old(self).entries_bytes().len() + 2 * rec_len::<T>() <= i64::MAX,
            old(self).entries_bytes().len() + 2 * rec_len::<T>() <= usize::MAX,
        ensures
            r is Ok,
            final(self).spec_size() == old(self).spec_size(),
            final(self).table_bytes() == old(self).table_bytes(),
            ({
                let eb = old(self).entries_bytes();
                let newr = RecordView { val: val@, key, next: -1i64, valid: true };
                final(self).entries_bytes() == match free_slot::<T>(eb, 0) {
                    Ok(o) => write_at(
                        write_at(eb, o + rec_len::<T>(), Record::<T>::spec_serialize(newr)),
                        entry_offset as int,
                        Record::<T>::spec_serialize(RecordView { next: o as i64, ..record@ }),
                    ),
                    Err(_) => appended_entries::<T>(eb, entry_offset as int, newr),
                }
            }),
    {
        let ghost eb = self.entries_bytes();
        let mut record = record;
        proof {
            lemma_free_slot::<T>(eb, 0);
            lemma_read_bounds::<T>(eb, entry_offset as int);
            lemma_rec_writable::<T>(eb, entry_offset as int);
        }
        let written_at = match self.search_for_empty() {
            Ok(val) => val,
            Err(_) => match self.entries.seek(SeekFrom::End(0)) {
                Ok(p) => p,
                Err(e) => {
                    return Err(SerializeError::Io(e));
                },
            },
        };
        let new_record = Record::from_t(val, key);
        let _ = new_record.serialize(&mut self.entries);
        record.next = written_at as i64;
        match self.entries.seek(SeekFrom::Start(entry_offset)) {
            Ok(_) => {},
            Err(e) => {
                return Err(SerializeError::Io(e));
            },
        }
        let _ = record.serialize(&mut self.entries);
        Ok(())
    }

    /// Inserts `val` under `key`. Nothing changes where the walk along the chain of `key`'s
    /// bucket meets a record of `key`. Into an empty bucket (head `-1`), the record goes into
    /// the first record of the entries file that is not in use (or at the end) and the
    /// bucket's head points to it. Into a non-empty bucket, the record goes at the end of the
    /// entries file where every record is in use, and is linked from the chain's last record;
    /// where some record is not in use, the last record is linked to that one, and the new
    /// record is written just after it. (Where the links run in a circle without `key`, the
    /// insertion does not end: `requires` rules that out.)
    pub fn insert(&mut self, key: u64, val: T) -> (r: Result<(), SerializeError>)
        requires
            0 < old(self).spec_size(),
            8 * old(self).spec_size() <= i64::MAX,
            old(self).head_of(key) matches Ok(hd) ==> (hd != -1 ==> old(self).walk_ends(hd, key)),
            old(self).head_of(key) matches Ok(hd) ==> (hd == -1 || old(self).walk(hd, key) is End ==> T::writable(
                val@,
            )),
            old(self).entries_bytes().len() + 2 * rec_len::<T>() <= i64::MAX,
            old(self).entries_bytes().len() + 2 * rec_len::<T>() <= usize::MAX,
        ensures
            final(self).spec_size() == old(self).spec_size(),
            ({
                let h = old(self).hash(key);
                let tb = old(self).table_bytes();
                let eb = old(self).entries_bytes();
                let newr = RecordView { val: val@, key, next: -1i64, valid: true };
                match old(self).head_of(key) {
                    Err(e) => r == Err::<(), SerializeError>(e) && final(self).table_bytes() == tb
                        && final(self).entries_bytes() == eb,
                    Ok(hd) => if hd == -1 {
                        &&& r is Ok
                        &&& final(self).entries_bytes() == write_at(eb, new_slot::<T>(eb), Record::<T>::spec_serialize(newr))
                        &&& final(self).table_bytes() == write_at(tb, 8 * h, be_bytes_u64(new_slot::<T>(eb) as u64))
                    } else {
                        match old(self).walk(hd, key) {
                            KeyWalk::Found(_p, _o, _rec) => r is Ok && final(self).table_bytes() == tb
                                && final(self).entries_bytes() == eb,
                            KeyWalk::Failed(e) => r == Err::<(), SerializeError>(e) && final(self).table_bytes() == tb
                                && final(self).entries_bytes() == eb,
                            KeyWalk::End(last_off, last) => {
                                &&& r is Ok
                                &&& final(self).table_bytes() == tb
                                &&& final(self).entries_bytes() == match free_slot::<T>(eb, 0) {
                                    Ok(o) => write_at(
                                        write_at(eb, o + rec_len::<T>(), Record::<T>::spec_serialize(newr)),
                                        last_off,
                                        Record::<T>::spec_serialize(RecordView { next: o as i64, ..last }),
                                    ),
                                    Err(_) => appended_entries::<T>(eb, last_off, newr),
                                }
                            },
                        }
                    },
                }
            }),
            // in a well-formed table a key already there changes nothing
            old(self).wf() && old(self).contains(key) ==> final(self).table_bytes() == old(self).table_bytes()
                && final(self).entries_bytes() == old(self).entries_bytes(),
            // where the new record goes where the chain reaches it, a well-formed table stays
            // well-formed, the bucket gains the key and the value that reads back from its
            // record, and no other bucket changes
            old(self).wf() && !old(self).contains(key) && stored::<T>(val@) is Ok && (old(self).chain_of(
                old(self).hash(key),
            ).len() == 0 || free_slot::<T>(old(self).entries_bytes(), 0) is Err) ==> {
                &&& final(self).wf()
                &&& final(self).bucket_of(old(self).hash(key)) == old(self).bucket_of(old(self).hash(key)).push(
                    (key, stored::<T>(val@)->Ok_0),
                )
                &&& forall|h2: int|
                    0 <= h2 < old(self).spec_size() && h2 != old(self).hash(key) ==> #[trigger] final(self).bucket_of(h2)
                        == old(self).bucket_of(h2)
            },
    {
        let ghost tb = self.table_bytes();
        let ghost eb = self.entries_bytes();
        let ghost size = self.spec_size();
        let ghost wf = self.wf();
        let ghost cs = chains::<T>(tb, eb, size);
        let hash = key % (self.size as u64);
        let ghost c = cs[hash as int];
        let ghost b = self.bucket_of(hash as int);
        let ghost newr = RecordView { val: val@, key, next: -1i64, valid: true };
        proof {
            if wf {
                lemma_wf_walk_bytes::<T>(tb, eb, size, key);
                assert(chain_ok::<T>(tb, eb, size, hash as int, c));
                assert(b == bucket_map::<T>(eb, c));
                lemma_find_key(b, key, 0);
            }
        }
        let maybe_offset = match self.read_head(hash) {
            Ok(v) => v,
            Err(e) => {
                return Err(e);
            },
        };
        if maybe_offset == -1 {
            let res = self.insert_new_chain(hash, key, val);
            proof {
                if wf && !old(self).contains(key) && stored::<T>(newr.val) is Ok {
                    lemma_start_chain::<T>(tb, eb, size, cs, hash as int, newr);
                    let x = (key, stored::<T>(newr.val)->Ok_0);
                    let cs2 = cs.update(hash as int, seq![new_slot::<T>(eb)]);
                    assert(bucket_map::<T>(eb, cs[hash as int]).push(x) =~= seq![x]);
                    assert forall|h2: int| 0 <= h2 < size implies #[trigger] bucket_map::<T>(self.entries_bytes(), cs2[h2]) == if h2 == hash {
                        bucket_map::<T>(eb, cs[hash as int]).push(x)
                    } else {
                        bucket_map::<T>(eb, cs[h2])
                    } by {
                        assert(bucket_map::<T>(self.entries_bytes(), cs2[h2]) == if h2 == hash {
                            seq![x]
                        } else {
                            bucket_map::<T>(eb, cs[h2])
                        });
                    }
                    lemma_insert_view::<T>(tb, eb, size, cs, hash as int, cs2, self.table_bytes(), self.entries_bytes(), key, newr.val);
                }
            }
            res
        } else {
            let (_prev, entry_offset, record) = match self.walk_chain(maybe_offset, key) {
                Ok(x) => x,
                Err(e) => {
                    return Err(e);
                },
            };
            proof {
                lemma_walk_from_reads::<T>(eb, maybe_offset, key);
            }
            if record.key == key {
                return Ok(());
            }
            let res = self.insert_after(entry_offset, record, key, val);
            proof {
                if wf && stored::<T>(newr.val) is Ok && free_slot::<T>(eb, 0) is Err && !old(self).contains(key) {
                    lemma_append_to_chain::<T>(tb, eb, size, cs, hash as int, newr);
                    lemma_insert_view::<T>(tb, eb, size, cs, hash as int, cs.update(hash as int, c.push(eb.len() as int)),
                        self.table_bytes(), self.entries_bytes(), key, newr.val);
                }
            }
            res
        }
    }

    /// Marks `record`, the first record of a bucket read at `cur`, as not in use with no
    /// successor, and writes `-1` into the bucket's head at `pos` of the table file.
    fn clear_first(&mut self, pos: u64, cur: u64, record: Record<T>) -> (r: Result<(), SerializeError>)
        requires
            rec_at::<T>(old(self).entries_bytes(), cur as int).0 == Ok::<RecordView<T::V>, SerializeError>(record@),
            pos + 8 <= old(self).table_bytes().len(),
            pos + 8 <= i64::MAX,
            old(self).entries_bytes().len() <= i64::MAX,
        ensures
            r is Ok,
            final(self).spec_size() == old(self).spec_size(),
            final(self).entries_bytes() == write_at(
                old(self).entries_bytes(),
                cur as int,
                Record::<T>::spec_serialize(RecordView { valid: false, next: -1i64, ..record@ }),
            ),
            final(self).table_bytes() == write_at(old(self).table_bytes(), pos as int, be_bytes_i64(-1i64)),
    {
        let mut record = record;
        proof {
            lemma_read_bounds::<T>(self.entries_bytes(), cur as int);
            lemma_rec_writable::<T>(self.entries_bytes(), cur as int);
            self.entries.lemma_bounds();
            self.table.lemma_bounds();
        }
        match self.entries.seek(SeekFrom::Start(cur)) {
            Ok(_) => {},
            Err(e) => {
                return Err(SerializeError::Io(e));
            },
        }
        record.valid = false;
        record.next = -1;
        let _ = record.serialize(&mut self.entries);
        match self.table.seek(SeekFrom::Start(pos)) {
            Ok(_) => {},
            Err(e) => {
                return Err(SerializeError::Io(e));
            },
        }
        self.table.write_i64(-1);
        Ok(())
    }

    /// Marks `record`, read at `cur`, as not in use with no successor; then reads the record
    /// at `prev` again and links it to the record that followed `record`.
    fn unlink(&mut self, prev: u64, cur: u64, record: Record<T>) -> (r: Result<(), SerializeError>)
        requires
            rec_at::<T>(old(self).entries_bytes(), cur as int).0 == Ok::<RecordView<T::V>, SerializeError>(record@),
            rec_at::<T>(old(self).entries_bytes(), prev as int).0 is Ok,
            old(self).entries_bytes().len() <= i64::MAX,
        ensures
            final(self).spec_size() == old(self).spec_size(),
            final(self).table_bytes() == old(self).table_bytes(),
            ({
                let eb1 = write_at(
                    old(self).entries_bytes(),
                    cur as int,
                    Record::<T>::spec_serialize(RecordView { valid: false, next: -1i64, ..record@ }),
                );
                match rec_at::<T>(eb1, prev as int).0 {
                    Err(e) => r == Err::<(), SerializeError>(e) && final(self).entries_bytes() == eb1,
                    Ok(p) => r is Ok && final(self).entries_bytes() == write_at(
                        eb1,
                        prev as int,
                        Record::<T>::spec_serialize(RecordView { next: record.next, ..p }),
                    ),
                }
            }),
    {
        let mut record = record;
        let ghost eb = self.entries_bytes();
        proof {
            lemma_read_bounds::<T>(eb, cur as int);
            lemma_read_bounds::<T>(eb, prev as int);
            lemma_rec_writable::<T>(eb, cur as int);
            self.entries.lemma_bounds();
        }
        match self.entries.seek(SeekFrom::Start(cur)) {
            Ok(_) => {},
            Err(e) => {
                return Err(SerializeError::Io(e));
            },
        }
        record.valid = false;
        let next = record.next;
        record.next = -1;
        let _ = record.serialize(&mut self.entries);
        proof {
            crate::record::Record::<T>::lemma_serialize_len(record@);
            crate::memfile::lemma_write_len(eb, cur as int, Record::<T>::spec_serialize(record@));
            self.entries.lemma_bounds();
        }
        match self.entries.seek(SeekFrom::Start(prev)) {
            Ok(_) => {},
            Err(e) => {
                return Err(SerializeError::Io(e));
            },
        }
        let ghost rest_prev = self.entries.rest();
        let mut record = match Record::<T>::deserialize(&mut self.entries) {
            Ok(rec) => rec,
            Err(e) => {
                return Err(e);
            },
        };
        proof {
            Record::<T>::lemma_read_writable(rest_prev);
        }
        match self.entries.seek(SeekFrom::Start(prev)) {
            Ok(_) => {},
            Err(e) => {
                return Err(SerializeError::Io(e));
            },
        }
        record.next = next;
        let _ = record.serialize(&mut self.entries);
        Ok(())
    }
    /// Deletes the record of `key`, the first record of `key` that the walk along the chain of
    /// its bucket meets. The record is marked as not in use and its link set to `-1`. Where it
    /// is the first record read, the bucket's head is emptied (the records after it leave the
    /// bucket with it); else the record the walk came from is read again and linked to the
    /// one after the deleted record. Where the walk reaches a record that links to `-1`
    /// without meeting `key`, it asks for offset `-1`, which the seek refuses. (Where the
    /// bucket's head is `-1` the deletion panics, and where the links run in a circle without
    /// `key` it does not end: `requires` rules these out.)
    pub fn delete(&mut self, key: u64) -> (r: Result<(), SerializeError>)
        requires
            0 < old(self).spec_size(),
            8 * old(self).spec_size() <= i64::MAX,
            old(self).head_of(key) matches Ok(hd) ==> hd != -1 && old(self).walk_ends(hd, key),
            old(self).entries_bytes().len() <= i64::MAX,
        ensures
            final(self).spec_size() == old(self).spec_size(),
            ({
                let h = old(self).hash(key);
                let tb = old(self).table_bytes();
                let eb = old(self).entries_bytes();
                match old(self).head_of(key) {
                    Err(e) => r == Err::<(), SerializeError>(e) && final(self).table_bytes() == tb
                        && final(self).entries_bytes() == eb,
                    Ok(hd) => match old(self).walk(hd, key) {
                        KeyWalk::Failed(e) => r == Err::<(), SerializeError>(e) && final(self).table_bytes() == tb
                            && final(self).entries_bytes() == eb,
                        KeyWalk::End(_o, _rec) => r == Err::<(), SerializeError>(SerializeError::Io(IoError::InvalidInput))
                            && final(self).table_bytes() == tb && final(self).entries_bytes() == eb,
                        KeyWalk::Found(prev, cur, rec) => {
                            let eb1 = write_at(eb, cur, Record::<T>::spec_serialize(RecordView { valid: false, next: -1i64, ..rec }));
                            if prev == cur {
                                &&& r is Ok
                                &&& final(self).entries_bytes() == eb1
                                &&& final(self).table_bytes() == write_at(tb, 8 * h, be_bytes_i64(-1i64))
                            } else {
                                &&& final(self).table_bytes() == tb
                                &&& match rec_at::<T>(eb1, prev).0 {
                                    Err(e) => r == Err::<(), SerializeError>(e) && final(self).entries_bytes() == eb1,
                                    Ok(p) => r is Ok && final(self).entries_bytes() == write_at(
                                        eb1,
                                        prev,
                                        Record::<T>::spec_serialize(RecordView { next: rec.next, ..p }),
                                    ),
                                }
                            }
                        },
                    },
                }
            }),
            // a deletion that finds its key in a well-formed table keeps it well-formed and
            // changes no other bucket; the bucket loses the key (and, from its head, the whole
            // chain)
            old(self).wf() && old(self).contains(key) ==> {
                let h = old(self).hash(key);
                let b = old(self).bucket_of(h);
                let j = find_key(b, key, 0);
                &&& final(self).wf()
                &&& final(self).bucket_of(h) == if j == 0 {
                    Seq::<(u64, T::V)>::empty()
                } else {
                    b.remove(j)
                }
                &&& forall|h2: int|
                    0 <= h2 < old(self).spec_size() && h2 != h ==> #[trigger] final(self).bucket_of(h2) == old(self).bucket_of(h2)
            },
    {
        let ghost tb = self.table_bytes();
        let ghost eb = self.entries_bytes();
        let ghost size = self.spec_size();
        let ghost wf = self.wf();
        let ghost cs = chains::<T>(tb, eb, size);
        let hash = key % (self.size as u64);
        let ghost c = cs[hash as int];
        let ghost b = bucket_map::<T>(eb, c);
        let ghost j = find_key(b, key, 0);
        proof {
            if wf {
                lemma_wf_walk_bytes::<T>(tb, eb, size, key);
                assert(chain_ok::<T>(tb, eb, size, hash as int, c));
                lemma_find_key(b, key, 0);
            }
            self.table.lemma_bounds();
            self.entries.lemma_bounds();
        }
        let pos = hash * 8;
        let maybe_offset = match self.read_head(hash) {
            Ok(v) => v,
            Err(e) => {
                return Err(e);
            },
        };
        if maybe_offset == -1 {
            proof {
                assert(false);
            }
            return Err(SerializeError::Io(IoError::InvalidInput));
        }
        let (prev_offset, cur_offset, record) = match self.walk_chain(maybe_offset, key) {
            Ok(x) => x,
            Err(e) => {
                return Err(e);
            },
        };
        if record.key != key {
            // past the last record the walk asks for offset -1, which the seek refuses
            return Err(SerializeError::Io(IoError::InvalidInput));
        }
        proof {
            lemma_walk_from_reads::<T>(eb, maybe_offset, key);
            lemma_read_bounds::<T>(eb, cur_offset as int);
            lemma_read_bounds::<T>(eb, prev_offset as int);
            lemma_rec_writable::<T>(eb, cur_offset as int);
            if wf && j < b.len() {
                lemma_chain_elem::<T>(tb, eb, size, cs, hash as int, j);
                if j > 0 {
                    lemma_chain_elem::<T>(tb, eb, size, cs, hash as int, j - 1);
                    lemma_chains_disjoint::<T>(tb, eb, size, cs, hash as int, j, hash as int, j - 1);
                }
            }
        }
        if prev_offset == cur_offset {
            // jumped from the hash table to the buckets.
            let res = self.clear_first(pos, cur_offset, record);
            proof {
                if wf && j < b.len() {
                    assert(j == 0);
                    lemma_delete_head::<T>(tb, eb, size, cs, hash as int);
                    let cs2 = cs.update(hash as int, Seq::<int>::empty());
                    lemma_chains_of_wf::<T>(self.table_bytes(), self.entries_bytes(), size, cs2);
                    assert forall|h2: int| 0 <= h2 < size && h2 != hash implies #[trigger] self.bucket_of(h2) == bucket::<T>(tb, eb, size, h2) by {
                        assert(bucket_map::<T>(self.entries_bytes(), cs2[h2]) == bucket_map::<T>(eb, cs[h2]));
                    }
                    assert(bucket_map::<T>(self.entries_bytes(), cs2[hash as int]) == Seq::<(u64, T::V)>::empty());
                }
            }
            res
        } else {
            let ghost rj = record@;
            let res = self.unlink(prev_offset, cur_offset, record);
            proof {
                if wf && j < b.len() {
                    assert(j > 0);
                    let cleared = Record::<T>::spec_serialize(RecordView { valid: false, next: -1i64, ..rj });
                    crate::record::Record::<T>::lemma_serialize_len(RecordView { valid: false, next: -1i64, ..rj });
                    lemma_window_kept::<T>(eb, c[j], cleared, c[j - 1]);
                    reveal(unlinked_entries);
                    assert(self.entries_bytes() == unlinked_entries::<T>(eb, c, j));
                    lemma_unlink::<T>(tb, eb, size, cs, hash as int, j);
                    let cs2 = cs.update(hash as int, c.remove(j));
                    lemma_chains_of_wf::<T>(self.table_bytes(), self.entries_bytes(), size, cs2);
                    assert forall|h2: int| 0 <= h2 < size && h2 != hash implies #[trigger] self.bucket_of(h2) == bucket::<T>(tb, eb, size, h2) by {
                        assert(bucket_map::<T>(self.entries_bytes(), cs2[h2]) == bucket_map::<T>(eb, cs[h2]));
                    }
                    assert(bucket_map::<T>(self.entries_bytes(), cs2[hash as int]) == b.remove(j));
                }
            }
            res
        }
    }
}

/// In a well-formed table, the head of a key's bucket reads; it is `-1` exactly where the
/// bucket's chain is empty; and the walk for the key from a head that is not `-1` stops
/// where the chain says: at the first record of the key, or at the chain's last record.
proof fn lemma_wf_walk_bytes<T: Serializable>(tb: Seq<u8>, eb: Seq<u8>, size: int, key: u64)
    requires
        table_wf::<T>(tb, eb, size),
    ensures
        ({
            let h = (key % (size as u64)) as int;
            let c = chains::<T>(tb, eb, size)[h];
            &&& 0 < size
            &&& 8 * size <= i64::MAX
            &&& 0 <= h < size
            &&& head_read(tb, h) == Ok::<i64, SerializeError>(head(tb, h))
            &&& (head(tb, h) == -1 <==> c.len() == 0)
            &&& head(tb, h) != -1 ==> key_walk_ends::<T>(eb, head(tb, h), key) && key_walk_result::<T>(eb, head(tb, h), key)
                == chain_walk::<T>(eb, c, key, 0, c[0])
        }),
{
    let cs = chains::<T>(tb, eb, size);
    assert(chains_ok::<T>(tb, eb, size, cs));
    let h = (key % (size as u64)) as int;
    let c = cs[h];
    assert(chain_ok::<T>(tb, eb, size, h, c));
    if c.len() > 0 {
        lemma_chain_elem::<T>(tb, eb, size, cs, h, 0);
        let hd = head(tb, h);
        assert(hd as int == c[0]);
        lemma_walk_chain::<T>(tb, eb, size, cs, h, key, 0, c[0], c.len());
        assert(walk_from::<T>(eb, hd, key, c.len()) == Some(chain_walk::<T>(eb, c, key, 0, c[0])));
        lemma_walk_from_result::<T>(eb, hd, key, c.len());
    }
}

/// In a well-formed table the walk for a key follows the chain of its bucket: from a head
/// that is not `-1` it stops at the first record of the key, with that record's value the
/// key's value, or, where the bucket does not hold the key, at the chain's last record.
pub proof fn lemma_walk_follows_chain<T: Serializable>(t: &FileHashTable<T>, key: u64)
    requires
        t.wf(),
    ensures
        t.head_of(key) == Ok::<i64, SerializeError>(head(t.table_bytes(), t.hash(key))),
        head(t.table_bytes(), t.hash(key)) == -1 <==> t.chain_of(t.hash(key)).len() == 0,
        ({
            let hd = head(t.table_bytes(), t.hash(key));
            let c = t.chain_of(t.hash(key));
            &&& hd != -1 ==> t.walk_ends(hd, key)
            &&& hd != -1 && t.contains(key) ==> (t.walk(hd, key) matches KeyWalk::Found(_p, _o, rec) && rec.val
                == t.lookup(key) && rec.key == key)
            &&& hd != -1 && !t.contains(key) ==> t.walk(hd, key) == KeyWalk::End(c.last(), rv::<T>(t.entries_bytes(), c.last()))
        }),
{
    lemma_wf_walk_bytes::<T>(t.table_bytes(), t.entries_bytes(), t.spec_size(), key);
    let h = t.hash(key);
    let b = t.bucket_of(h);
    lemma_find_key(b, key, 0);
}
/// The table after an insert whose new chains `cs2` are well-formed: its buckets are those
/// that the chains give.
proof fn lemma_insert_view<T: Serializable>(
    tb: Seq<u8>,
    eb: Seq<u8>,
    size: int,
    cs: Seq<Seq<int>>,
    h: int,
    cs2: Seq<Seq<int>>,
    tb2: Seq<u8>,
    eb2: Seq<u8>,
    key: u64,
    v: T::V,
)
    requires
        chains_ok::<T>(tb, eb, size, cs),
        chains_ok::<T>(tb2, eb2, size, cs2),
        0 <= h < size,
        forall|h2: int|
            0 <= h2 < size ==> #[trigger] bucket_map::<T>(eb2, cs2[h2]) == if h2 == h {
                bucket_map::<T>(eb, cs[h]).push((key, stored::<T>(v)->Ok_0))
            } else {
                bucket_map::<T>(eb, cs[h2])
            },
    ensures
        table_wf::<T>(tb2, eb2, size),
        bucket::<T>(tb2, eb2, size, h) == bucket::<T>(tb, eb, size, h).push((key, stored::<T>(v)->Ok_0)),
        forall|h2: int| 0 <= h2 < size && h2 != h ==> #[trigger] bucket::<T>(tb2, eb2, size, h2) == bucket::<T>(tb, eb, size, h2),
{
    lemma_chains_of_wf::<T>(tb, eb, size, cs);
    lemma_chains_of_wf::<T>(tb2, eb2, size, cs2);
    assert(bucket_map::<T>(eb2, cs2[h]) == bucket_map::<T>(eb, cs[h]).push((key, stored::<T>(v)->Ok_0)));
    assert forall|h2: int| 0 <= h2 < size && h2 != h implies #[trigger] bucket::<T>(tb2, eb2, size, h2) == bucket::<T>(tb, eb, size, h2) by {
        assert(bucket_map::<T>(eb2, cs2[h2]) == bucket_map::<T>(eb, cs[h2]));
    }
}

/// A search after an insert finds what the insert stored: where the key was absent and the
/// insert added it with value `v` at the end of its bucket, changing no other bucket, the key
/// is found with value `v`, and every key found before is found with its old value.
pub proof fn lemma_lookup_after_insert<T: Serializable>(t1: &FileHashTable<T>, t2: &FileHashTable<T>, key: u64, v: T::V)
    requires
        t1.wf(),
        t2.wf(),
        t1.spec_size() == t2.spec_size(),
        !t1.contains(key),
        t2.bucket_of(t1.hash(key)) == t1.bucket_of(t1.hash(key)).push((key, v)),
        forall|h2: int| 0 <= h2 < t1.spec_size() && h2 != t1.hash(key) ==> #[trigger] t2.bucket_of(h2) == t1.bucket_of(h2),
    ensures
        t2.contains(key),
        t2.lookup(key) == v,
        forall|k: u64| #[trigger] t1.contains(k) ==> t2.contains(k) && t2.lookup(k) == t1.lookup(k),
{
    let h = t1.hash(key);
    let b1 = t1.bucket_of(h);
    let b2 = t2.bucket_of(h);
    lemma_find_key(b1, key, 0);
    lemma_find_key_push(b1, key, (key, v));
    assert forall|k: u64| #[trigger] t1.contains(k) implies t2.contains(k) && t2.lookup(k) == t1.lookup(k) by {
        let hk = t1.hash(k);
        lemma_find_key(t1.bucket_of(hk), k, 0);
        if hk == h {
            lemma_find_key_push(b1, k, (key, v));
        }
    }
}

/// The first entry under a key of a sequence with one more entry at the end: the same as
/// before where the key was there, else the new entry's index where it holds the key.
proof fn lemma_find_key_push<V>(b: Seq<(u64, V)>, key: u64, x: (u64, V))
    ensures
        find_key(b, key, 0) < b.len() ==> find_key(b.push(x), key, 0) == find_key(b, key, 0),
        find_key(b, key, 0) == b.len() && x.0 == key ==> find_key(b.push(x), key, 0) == b.len(),
{
    lemma_find_key(b, key, 0);
    lemma_find_key(b.push(x), key, 0);
    let i = find_key(b, key, 0);
    let i2 = find_key(b.push(x), key, 0);
    if i < b.len() {
        if i2 < i {
            assert(b.push(x)[i2] == b[i2]);
        }
        if i2 > i {
            assert(b.push(x)[i] == b[i]);
        }
    } else if x.0 == key {
        assert(b.push(x)[b.len() as int] == x);
        if i2 < b.len() {
            assert(b.push(x)[i2] == b[i2]);
        }
    }
}

/// After a deletion that found its key once in its bucket, the key is not found any more,
/// and the keys of the other buckets are found with their old values.
pub proof fn lemma_absent_after_delete<T: Serializable>(t1: &FileHashTable<T>, t2: &FileHashTable<T>, key: u64)
    requires
        t1.wf(),
        t2.wf(),
        t1.spec_size() == t2.spec_size(),
        t1.contains(key),
        forall|i: int|
            0 <= i < t1.bucket_of(t1.hash(key)).len() && i != find_key(t1.bucket_of(t1.hash(key)), key, 0)
                ==> #[trigger] t1.bucket_of(t1.hash(key))[i].0 != key,
        t2.bucket_of(t1.hash(key)) == if find_key(t1.bucket_of(t1.hash(key)), key, 0) == 0 {
            Seq::<(u64, T::V)>::empty()
        } else {
            t1.bucket_of(t1.hash(key)).remove(find_key(t1.bucket_of(t1.hash(key)), key, 0))
        },
        forall|h2: int| 0 <= h2 < t1.spec_size() && h2 != t1.hash(key) ==> #[trigger] t2.bucket_of(h2) == t1.bucket_of(h2),
    ensures
        !t2.contains(key),
        forall|k: u64| #[trigger] t1.contains(k) && t1.hash(k) != t1.hash(key) ==> t2.contains(k) && t2.lookup(k)
            == t1.lookup(k),
{
    let h = t1.hash(key);
    let b1 = t1.bucket_of(h);
    let b2 = t2.bucket_of(h);
    let j = find_key(b1, key, 0);
    lemma_find_key(b1, key, 0);
    lemma_find_key(b2, key, 0);
    let i2 = find_key(b2, key, 0);
    if i2 < b2.len() {
        if j > 0 {
            let i1 = if i2 < j { i2 } else { i2 + 1 };
            assert(b2[i2] == b1[i1]);
        }
        assert(false);
    }
}

} // verus!
