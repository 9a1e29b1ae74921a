//! A hash table kept in one file: bucket `h` holds its first record in the slot at
//! `h` times the declared record size; records that collide go to the first record of the
//! file not in use (or at its end) and are chained from the last record of the bucket.
use vstd::prelude::*;
use crate::memfile::{MemFile, SeekFrom, IoError, rest_of, write_at};
use crate::record::{Record, RecordView};
use crate::serialize::{Serializable, SerializeError, PackedSize};
use crate::chains::{rec_len, rec_at, rv, stored, lemma_rec_written, lemma_rec_writable, lemma_read_bounds, lemma_window_kept, lemma_rv_stored};

verus! {

/// A hash table of values of type `T` under `u64` keys, kept in one file of `size` slots
/// of the declared record size.
pub struct InnerLinkingFileHashTable<T> {
    table: MemFile,
    size: usize,
    _marker: core::marker::PhantomData<T>,
}

/// Where the search for a free record goes on after a record in use that ended at `off`:
/// the first record not in use, or the end of the file where a read fails.
pub open spec fn inner_free_from<T: Serializable>(bytes: Seq<u8>, off: int) -> int
    decreases bytes.len() - off,
{
    match rec_at::<T>(bytes, off).0 {
        Err(_) => bytes.len() as int,
        Ok(r) => if !r.valid {
            off
        } else if 0 <= off && off + rec_len::<T>() <= bytes.len() {
            inner_free_from::<T>(bytes, off + rec_len::<T>())
        } else {
            bytes.len() as int
        },
    }
}

/// The offset of the first record of the file not in use, reading records one after
/// another from the start (the end of the file where a later read fails), or the error of
/// the first read.
pub open spec fn inner_free<T: Serializable>(bytes: Seq<u8>) -> Result<int, SerializeError> {
    match rec_at::<T>(bytes, 0).0 {
        Err(e) => Err(e),
        Ok(r) => if !r.valid {
            Ok(0)
        } else {
            Ok(inner_free_from::<T>(bytes, rec_len::<T>()))
        },
    }
}

/// Following the links from the record `rec` read at `off`, with at most `fuel` steps:
/// the offset and contents of the last record of the chain, or the error of the first
/// seek or read that fails; nothing where the fuel runs out.
pub open spec fn walk<T: Serializable>(bytes: Seq<u8>, off: int, rec: RecordView<T::V>, fuel: nat) -> Option<
    Result<(int, RecordView<T::V>), SerializeError>,
>
    decreases fuel,
{
    if rec.next == -1 {
        Some(Ok((off, rec)))
    } else if fuel == 0 {
        None
    } else if rec.next < 0 {
        Some(Err(SerializeError::Io(IoError::InvalidInput)))
    } else {
        match rec_at::<T>(bytes, rec.next as int).0 {
            Err(e) => Some(Err(e)),
            Ok(r2) => walk::<T>(bytes, rec.next as int, r2, (fuel - 1) as nat),
        }
    }
}

/// `n` zero bytes.
pub open spec fn zeros(n: int) -> Seq<u8> {
    Seq::new(n as nat, |i: int| 0u8)
}

/// Whether following the links from `rec` ends.
pub open spec fn walk_ends<T: Serializable>(bytes: Seq<u8>, off: int, rec: RecordView<T::V>) -> bool {
    exists|f: nat| #[trigger] walk::<T>(bytes, off, rec, f) is Some
}

/// Where following the links from `rec` ends (meaningful where it ends).
pub open spec fn walk_end<T: Serializable>(bytes: Seq<u8>, off: int, rec: RecordView<T::V>) -> Result<(int, RecordView<T::V>), SerializeError> {
    walk::<T>(bytes, off, rec, choose|f: nat| #[trigger] walk::<T>(bytes, off, rec, f) is Some)->Some_0
}

/// A walk that starts from a record read at `off` ends at a record read at the offset it
/// gives.
proof fn lemma_walk_result<T: Serializable>(bytes: Seq<u8>, off: int, rec: RecordView<T::V>, f: nat)
    requires
        rec_at::<T>(bytes, off).0 == Ok::<RecordView<T::V>, SerializeError>(rec),
        walk::<T>(bytes, off, rec, f) matches Some(Ok(_)),
    ensures
        walk::<T>(bytes, off, rec, f) matches Some(Ok((lo, last))) && rec_at::<T>(bytes, lo).0
            == Ok::<RecordView<T::V>, SerializeError>(last),
    decreases f,
{
    if rec.next != -1 && f > 0 && rec.next >= 0 {
        if let Ok(r2) = rec_at::<T>(bytes, rec.next as int).0 {
            lemma_walk_result::<T>(bytes, rec.next as int, r2, (f - 1) as nat);
        }
    }
}

/// Whether `path` holds the offsets of the chain from the record at `pos`: it starts at
/// `pos`, every record on it reads, each links to the next one, and the last links to `-1`.
pub open spec fn chain_path<T: Serializable>(bytes: Seq<u8>, pos: int, path: Seq<int>) -> bool {
    &&& path.len() > 0
    &&& path[0] == pos
    &&& forall|i: int| 0 <= i < path.len() ==> #[trigger] rec_at::<T>(bytes, path[i]).0 is Ok
    &&& forall|i: int| 0 <= i < path.len() - 1 ==> #[trigger] rv::<T>(bytes, path[i]).next == path[i + 1]
    &&& rv::<T>(bytes, path.last()).next == -1
}

/// A walk that stops without an error stops at the end of a chain from where it started.
proof fn lemma_walk_path<T: Serializable>(bytes: Seq<u8>, off: int, rec: RecordView<T::V>, f: nat) -> (path: Seq<int>)
    requires
        rec_at::<T>(bytes, off).0 == Ok::<RecordView<T::V>, SerializeError>(rec),
        walk::<T>(bytes, off, rec, f) matches Some(Ok(_)),
    ensures
        walk::<T>(bytes, off, rec, f) matches Some(Ok((lo, last))) && chain_path::<T>(bytes, off, path) && path.last()
            == lo && rec_at::<T>(bytes, lo).0 == Ok::<RecordView<T::V>, SerializeError>(last),
    decreases f,
{
    if rec.next == -1 {
        seq![off]
    } else {
        let nx = rec.next as int;
        let r2 = rec_at::<T>(bytes, nx).0->Ok_0;
        let sub = lemma_walk_path::<T>(bytes, nx, r2, (f - 1) as nat);
        let path = seq![off] + sub;
        assert forall|i: int| 0 <= i < path.len() implies #[trigger] rec_at::<T>(bytes, path[i]).0 is Ok by {
            if i > 0 {
                assert(path[i] == sub[i - 1]);
            }
        }
        assert forall|i: int| 0 <= i < path.len() - 1 implies #[trigger] rv::<T>(bytes, path[i]).next == path[i + 1] by {
            if i > 0 {
                assert(path[i] == sub[i - 1] && path[i + 1] == sub[i]);
            }
        }
        assert(path.last() == sub.last());
        path
    }
}

/// Following the links from the record at `pos` stops, where no read fails, at the last
/// record of the chain from `pos`: the records read on the way each link to the next one,
/// and the record it stops at is the first that links to `-1`.
pub proof fn lemma_walk_end_is_chain_end<T: Serializable>(bytes: Seq<u8>, pos: int, e: RecordView<T::V>)
    requires
        rec_at::<T>(bytes, pos).0 == Ok::<RecordView<T::V>, SerializeError>(e),
        walk_ends::<T>(bytes, pos, e),
    ensures
        walk_end::<T>(bytes, pos, e) matches Ok((lo, last)) ==> exists|path: Seq<int>|
            #[trigger] chain_path::<T>(bytes, pos, path) && path.last() == lo && last == rv::<T>(bytes, lo),
{
    let f = choose|f: nat| #[trigger] walk::<T>(bytes, pos, e, f) is Some;
    assert(walk::<T>(bytes, pos, e, f) is Some);
    if walk::<T>(bytes, pos, e, f) matches Some(Ok(_)) {
        let path = lemma_walk_path::<T>(bytes, pos, e, f);
        assert(chain_path::<T>(bytes, pos, path));
    }
}

/// The bytes after the record `newr` is written at `o` and the last record of the chain
/// `path` is linked to it.
pub open spec fn linked_after<T: Serializable>(b: Seq<u8>, path: Seq<int>, o: int, newr: RecordView<T::V>) -> Seq<u8> {
    write_at(
        write_at(b, o, Record::<T>::spec_serialize(newr)),
        path.last(),
        Record::<T>::spec_serialize(RecordView { next: o as i64, ..rv::<T>(b, path.last()) }),
    )
}

/// A record that overlaps neither the new record nor the relinked one reads as before.
proof fn lemma_linked_keeps<T: Serializable>(b: Seq<u8>, path: Seq<int>, o: int, newr: RecordView<T::V>, x: int)
    requires
        path.len() > 0,
        rec_at::<T>(b, path.last()).0 is Ok,
        rec_at::<T>(b, x).0 is Ok,
        0 <= o,
        x + rec_len::<T>() <= o || o + rec_len::<T>() <= x,
        x + rec_len::<T>() <= path.last() || path.last() + rec_len::<T>() <= x,
    ensures
        rec_at::<T>(linked_after::<T>(b, path, o, newr), x) == rec_at::<T>(b, x),
{
    let lo = path.last();
    let lr = RecordView { next: o as i64, ..rv::<T>(b, lo) };
    let b1 = write_at(b, o, Record::<T>::spec_serialize(newr));
    lemma_read_bounds::<T>(b, x);
    lemma_read_bounds::<T>(b, lo);
    Record::<T>::lemma_serialize_len(newr);
    Record::<T>::lemma_serialize_len(lr);
    crate::memfile::lemma_write_len(b, o, Record::<T>::spec_serialize(newr));
    lemma_window_kept::<T>(b, o, Record::<T>::spec_serialize(newr), x);
    lemma_window_kept::<T>(b1, lo, Record::<T>::spec_serialize(lr), x);
}

/// After the write and the relink, the new record and the relinked one read as written.
proof fn lemma_linked_ends<T: Serializable>(b: Seq<u8>, path: Seq<int>, o: int, newr: RecordView<T::V>)
    requires
        path.len() > 0,
        rec_at::<T>(b, path.last()).0 is Ok,
        0 <= o <= i64::MAX,
        stored::<T>(newr.val) is Ok,
        path.last() + rec_len::<T>() <= o || o + rec_len::<T>() <= path.last(),
    ensures
        rec_at::<T>(linked_after::<T>(b, path, o, newr), path.last()).0 == Ok::<RecordView<T::V>, SerializeError>(
            RecordView { next: o as i64, ..rv::<T>(b, path.last()) },
        ),
        rec_at::<T>(linked_after::<T>(b, path, o, newr), o).0 == Ok::<RecordView<T::V>, SerializeError>(
            RecordView { val: stored::<T>(newr.val)->Ok_0, ..newr },
        ),
{
    let lo = path.last();
    let lr = RecordView { next: o as i64, ..rv::<T>(b, lo) };
    let b1 = write_at(b, o, Record::<T>::spec_serialize(newr));
    lemma_read_bounds::<T>(b, lo);
    lemma_rv_stored::<T>(b, lo);
    Record::<T>::lemma_serialize_len(newr);
    Record::<T>::lemma_serialize_len(lr);
    lemma_rec_written::<T>(b, o, newr);
    crate::memfile::lemma_write_len(b, o, Record::<T>::spec_serialize(newr));
    lemma_window_kept::<T>(b, o, Record::<T>::spec_serialize(newr), lo);
    lemma_rec_written::<T>(b1, lo, lr);
    assert(RecordView { val: stored::<T>(lr.val)->Ok_0, ..lr } == lr);
    lemma_window_kept::<T>(b1, lo, Record::<T>::spec_serialize(lr), o);
}

/// Whether the record at `o` overlaps no record of the chain `path`, and no record of the
/// chain overlaps its last one.
pub open spec fn apart_from_chain<T: Serializable>(path: Seq<int>, o: int) -> bool {
    &&& forall|i: int| 0 <= i < path.len() ==> #[trigger] path[i] + rec_len::<T>() <= o || o + rec_len::<T>() <= path[i]
    &&& forall|i: int|
        0 <= i < path.len() - 1 ==> #[trigger] path[i] + rec_len::<T>() <= path.last() || path.last() + rec_len::<T>()
            <= path[i]
}

/// Writing a new record where it overlaps no record of the chain from a slot, and linking
/// the chain's last record to it, makes the chain from the slot the old chain with the new
/// record at its end: every record of the chain keeps its key and value and stays on the
/// chain, and the new record, with its key, is reached last.
pub proof fn lemma_insert_extends_chain<T: Serializable>(b: Seq<u8>, pos: int, path: Seq<int>, o: int, newr: RecordView<T::V>)
    requires
        chain_path::<T>(b, pos, path),
        0 <= o <= i64::MAX,
        newr.next == -1,
        stored::<T>(newr.val) is Ok,
        forall|i: int| 0 <= i < path.len() ==> #[trigger] path[i] + rec_len::<T>() <= o || o + rec_len::<T>() <= path[i],
        forall|i: int|
            0 <= i < path.len() - 1 ==> #[trigger] path[i] + rec_len::<T>() <= path.last() || path.last() + rec_len::<T>()
                <= path[i],
    ensures
        chain_path::<T>(linked_after::<T>(b, path, o, newr), pos, path.push(o)),
        forall|i: int|
            0 <= i < path.len() ==> {
                let r2 = #[trigger] rv::<T>(linked_after::<T>(b, path, o, newr), path[i]);
                &&& r2.key == rv::<T>(b, path[i]).key
                &&& r2.val == rv::<T>(b, path[i]).val
                &&& r2.valid == rv::<T>(b, path[i]).valid
            },
        rv::<T>(linked_after::<T>(b, path, o, newr), o) == (RecordView { val: stored::<T>(newr.val)->Ok_0, ..newr }),
{
    let n = path.len() as int;
    let b2 = linked_after::<T>(b, path, o, newr);
    assert(rec_at::<T>(b, path[n - 1]).0 is Ok);
    assert(path[n - 1] + rec_len::<T>() <= o || o + rec_len::<T>() <= path[n - 1]);
    lemma_linked_ends::<T>(b, path, o, newr);
    assert forall|i: int| 0 <= i < n - 1 implies rec_at::<T>(b2, path[i]) == rec_at::<T>(b, path[i]) by {
        assert(rec_at::<T>(b, path[i]).0 is Ok);
        lemma_linked_keeps::<T>(b, path, o, newr, path[i]);
    }
    let p2 = path.push(o);
    assert forall|i: int| 0 <= i < p2.len() implies #[trigger] rec_at::<T>(b2, p2[i]).0 is Ok by {
        if i < n - 1 {
            assert(rec_at::<T>(b, path[i]).0 is Ok);
        }
    }
    assert forall|i: int| 0 <= i < p2.len() - 1 implies #[trigger] rv::<T>(b2, p2[i]).next == p2[i + 1] by {
        if i < n - 1 {
            assert(rv::<T>(b, path[i]).next == path[i + 1]);
        }
    }
}

impl<T: Serializable + PackedSize> InnerLinkingFileHashTable<T> {
    /// The contents of the file.
    pub closed spec fn bytes(&self) -> Seq<u8> {
        self.table.bytes()
    }

    /// The number of slots.
    pub closed spec fn spec_size(&self) -> int {
        self.size as int
    }

    /// The declared size of a record: the slot width.
    pub open spec fn slot_len() -> int {
        Record::<T>::spec_packed_size() as int
    }

    /// A table over the file as it is.
    pub fn open(table: MemFile, size: usize) -> (r: InnerLinkingFileHashTable<T>)
        ensures
            r.bytes() == table.bytes(),
            r.spec_size() == size,
    {
        InnerLinkingFileHashTable { table, size, _marker: core::marker::PhantomData }
    }

    /// The contents of the file, taking the table apart.
    pub fn into_file(self) -> (r: MemFile)
        ensures
            r.bytes() == self.bytes(),
    {
        self.table
    }

    /// A new table: `size` slots of zero bytes are written at the cursor of the file.
    pub fn new(table: MemFile, size: usize) -> (r: InnerLinkingFileHashTable<T>)
        requires
            Self::slot_len() <= usize::MAX,
            table.cursor() + size * Self::slot_len() <= usize::MAX,
        ensures
            r.spec_size() == size,
            r.bytes() == if size == 0 {
                table.bytes()
            } else {
                write_at(table.bytes(), table.cursor() as int, Seq::new((size * Self::slot_len()) as nat, |i: int| 0u8))
            },
    {
        let mut table = table;
        let ghost t0 = table.bytes();
        let ghost c0 = table.cursor() as int;
        let plen = Record::<T>::packed_size();
        let dummy: Vec<u8> = vec![0u8; plen];
        let mut i: usize = 0;
        while i < size
            invariant
                i <= size,
                0 <= c0,
                plen == Self::slot_len(),
                dummy@ == zeros(plen as int),
                c0 + size * plen <= usize::MAX,
                table.cursor() == c0 + i * plen,
                i > 0 ==> table.bytes() == write_at(t0, c0, zeros(i * plen)),
                i == 0 ==> table.bytes() == t0,
            decreases size - i,
        {
            proof {
                let ii = i as int;
                let ss = size as int;
                let pp = plen as int;
                assert((ii + 1) * pp <= ss * pp && (ii + 1) * pp == ii * pp + pp) by (nonlinear_arith)
                    requires
                        ii < ss,
                        0 <= pp,
                ;
            }
            table.write_all(dummy.as_slice());
            proof {
                if i > 0 {
                    crate::memfile::lemma_write_concat(t0, c0, zeros(i * plen), zeros(plen as int));
                }
                assert(zeros(i * plen) + zeros(plen as int) =~= zeros((i + 1) * plen));
                if i == 0 {
                    assert(zeros(plen as int) =~= zeros((i + 1) * plen));
                }
            }
            i += 1;
        }
        InnerLinkingFileHashTable::<T>::open(table, size)
    }

    /// Looks for the first record of the file that is not in use, reading records one after
    /// another from the start; where a read after the first fails, the answer is the end of
    /// the file.
    fn search_for_empty(&mut self) -> (r: Result<u64, SerializeError>)
        requires
            old(self).bytes().len() <= i64::MAX,
        ensures
            final(self).bytes() == old(self).bytes(),
            final(self).spec_size() == old(self).spec_size(),
            match inner_free::<T>(old(self).bytes()) {
                Ok(o) => r == Ok::<u64, SerializeError>(o as u64),
                Err(e) => r == Err::<u64, SerializeError>(e),
            },
    {
        let ghost b = self.table.bytes();
        let mut offset = match self.table.seek(SeekFrom::Start(0)) {
            Ok(p) => p,
            Err(e) => {
                return Err(SerializeError::Io(e));
            },
        };
        proof {
            Record::<T>::lemma_deserialize_consumed(rest_of(b, 0));
        }
        let mut record = match Record::<T>::deserialize(&mut self.table) {
            Ok(v) => v,
            Err(e) => {
                return Err(e);
            },
        };
        if record.valid {
            proof {
                assert(inner_free::<T>(b) == Ok::<int, SerializeError>(inner_free_from::<T>(b, rec_len::<T>())));
            }
        }
        while record.valid
            invariant
                self.table.bytes() == b,
                b == old(self).bytes(),
                self.spec_size() == old(self).spec_size(),
                b.len() <= i64::MAX,
                offset + rec_len::<T>() <= b.len(),
                rec_at::<T>(b, offset as int).0 is Ok,
                record@ == rv::<T>(b, offset as int),
                self.table.cursor() == offset + rec_len::<T>(),
                record.valid ==> inner_free::<T>(b) == Ok::<int, SerializeError>(inner_free_from::<T>(b, offset + rec_len::<T>())),
                !record.valid ==> inner_free::<T>(b) == Ok::<int, SerializeError>(offset as int),
            decreases b.len() - offset,
        {
            offset = match self.table.seek(SeekFrom::Current(0)) {
                Ok(p) => p,
                Err(e) => {
                    return Err(SerializeError::Io(e));
                },
            };
            proof {
                Record::<T>::lemma_deserialize_consumed(rest_of(b, offset as int));
            }
            record = match Record::<T>::deserialize(&mut self.table) {
                Ok(v) => v,
                Err(_) => {
                    let end = match self.table.seek(SeekFrom::End(0)) {
                        Ok(p) => p,
                        Err(e) => {
                            return Err(SerializeError::Io(e));
                        },
                    };
                    return Ok(end);
                },
            };
            proof {
                if record.valid {
                    assert(inner_free_from::<T>(b, offset as int) == inner_free_from::<T>(b, offset + rec_len::<T>()));
                }
            }
        }
        Ok(offset)
    }

    /// Reads the record at offset `off` (a negative one is refused by the seek).
    fn read_record_at(&mut self, off: i64) -> (r: Result<Record<T>, SerializeError>)
        ensures
            final(self).bytes() == old(self).bytes(),
            final(self).spec_size() == old(self).spec_size(),
            off < 0 ==> r == Err::<Record<T>, SerializeError>(SerializeError::Io(IoError::InvalidInput)),
            off >= 0 ==> crate::serialize::outcome_matches(r, rec_at::<T>(old(self).bytes(), off as int).0),
    {
        proof {
            assert(off < 0 ==> (off as u64) > 0x7fff_ffff_ffff_ffffu64) by (bit_vector);
            assert(off >= 0 ==> (off as u64) == off) by (bit_vector);
        }
        match self.table.seek(SeekFrom::Start(off as u64)) {
            Ok(_) => {},
            Err(e) => {
                return Err(SerializeError::Io(e));
            },
        }
        Record::<T>::deserialize(&mut self.table)
    }

    /// Follows the links from `entry`, read at `pos`, to the last record of the chain, and
    /// returns its offset and contents.
    fn walk_chain(&mut self, pos: u64, first: Record<T>) -> (r: Result<(u64, Record<T>), SerializeError>)
        requires
            0 <= pos <= i64::MAX,
            walk_ends::<T>(old(self).bytes(), pos as int, first@),
        ensures
            final(self).bytes() == old(self).bytes(),
            final(self).spec_size() == old(self).spec_size(),
            match walk_end::<T>(old(self).bytes(), pos as int, first@) {
                Ok((o, last)) => r matches Ok((o2, rec)) && o2 == o && rec@ == last,
                Err(e) => r == Err::<(u64, Record<T>), SerializeError>(e),
            },
    {
        let ghost b = self.table.bytes();
        let ghost e0 = first@;
        let ghost f0 = choose|f: nat| #[trigger] walk::<T>(b, pos as int, e0, f) is Some;
        let ghost mut f: nat = f0;
        let mut entry = first;
        let mut prev_offset: u64 = pos;
        while entry.next != -1
            invariant
                self.table.bytes() == b,
                b == old(self).bytes(),
                self.spec_size() == old(self).spec_size(),
                walk::<T>(b, prev_offset as int, entry@, f) is Some,
                walk::<T>(b, prev_offset as int, entry@, f) == walk::<T>(b, pos as int, e0, f0),
                walk_end::<T>(b, pos as int, e0) == walk::<T>(b, pos as int, e0, f0)->Some_0,
                e0 == first@,
                prev_offset <= i64::MAX,
            decreases f,
        {
            let ghost g = f;
            let ghost w = walk::<T>(b, prev_offset as int, entry@, f);
            proof {
                assert(f > 0);
            }
            if entry.next < 0 {
                proof {
                    assert(w == Some(Err::<(int, RecordView<T::V>), SerializeError>(SerializeError::Io(IoError::InvalidInput))));
                }
                return Err(SerializeError::Io(IoError::InvalidInput));
            }
            prev_offset = match self.table.seek(SeekFrom::Start(entry.next as u64)) {
                Ok(p) => p,
                Err(e) => {
                    return Err(SerializeError::Io(e));
                },
            };
            entry = match Record::<T>::deserialize(&mut self.table) {
                Ok(v) => v,
                Err(e) => {
                    proof {
                        assert(w == Some(Err::<(int, RecordView<T::V>), SerializeError>(e)));
                    }
                    return Err(e);
                },
            };
            proof {
                f = (g - 1) as nat;
            }
        }
        Ok((prev_offset, entry))
    }

    /// The offset of the slot of `key`.
    pub open spec fn slot_of(&self, key: u64) -> int {
        (key % (self.spec_size() as u64)) * Self::slot_len()
    }

    /// Inserts `val` under `key`. Where the record in the key's slot is not in use, the new
    /// record goes into the slot. Else the links are followed from the slot to the last
    /// record of the chain, the new record goes into the first record of the file not in use
    /// (or at the end), and the last record is linked to it. A read or seek that fails
    /// ends the insert with its error.
    pub fn insert(&mut self, key: u64, val: T) -> (r: Result<(), SerializeError>)
        requires
            old(self).spec_size() > 0,
            Self::slot_len() <= usize::MAX,
            old(self).spec_size() * Self::slot_len() <= i64::MAX,
            old(self).bytes().len() + rec_len::<T>() <= i64::MAX,
            old(self).bytes().len() + rec_len::<T>() <= usize::MAX,
            rec_at::<T>(old(self).bytes(), old(self).slot_of(key)).0 is Ok ==> T::writable(val@),
            rec_at::<T>(old(self).bytes(), old(self).slot_of(key)).0 is Ok && rv::<T>(
                old(self).bytes(),
                old(self).slot_of(key),
            ).valid ==> walk_ends::<T>(
                old(self).bytes(),
                old(self).slot_of(key),
                rv::<T>(old(self).bytes(), old(self).slot_of(key)),
            ),
        ensures
            final(self).spec_size() == old(self).spec_size(),
            ({
                let b = old(self).bytes();
                let pos = old(self).slot_of(key);
                let newr = RecordView { val: val@, key, next: -1i64, valid: true };
                match rec_at::<T>(b, pos).0 {
                    Err(e) => r == Err::<(), SerializeError>(e) && final(self).bytes() == b,
                    Ok(e) => if !e.valid {
                        r is Ok && final(self).bytes() == write_at(b, pos, Record::<T>::spec_serialize(newr))
                    } else {
                        match walk_end::<T>(b, pos, e) {
                            Err(e2) => r == Err::<(), SerializeError>(e2) && final(self).bytes() == b,
                            // the record relinked is the last record of the chain from the slot
                            Ok((lo, last)) => (exists|path: Seq<int>|
                                #[trigger] chain_path::<T>(b, pos, path) && path.last() == lo && last == rv::<T>(b, lo))
                                && match inner_free::<T>(b) {
                                Err(e3) => r == Err::<(), SerializeError>(e3) && final(self).bytes() == b,
                                Ok(o) => r is Ok && final(self).bytes() == write_at(
                                    write_at(b, o, Record::<T>::spec_serialize(newr)),
                                    lo,
                                    Record::<T>::spec_serialize(RecordView { next: o as i64, ..last }),
                                ),
                            },
                        }
                    },
                }
            }),
            // inserting into a slot in use, where the new record overlaps no record of the chain
            // from the slot, leaves that chain with the new record at its end
            ({
                let b = old(self).bytes();
                let pos = old(self).slot_of(key);
                let o = inner_free::<T>(b)->Ok_0;
                rec_at::<T>(b, pos).0 is Ok && rv::<T>(b, pos).valid && r is Ok && stored::<T>(val@) is Ok
                    ==> exists|path: Seq<int>|
                    #[trigger] chain_path::<T>(b, pos, path) && (apart_from_chain::<T>(path, o) ==> chain_path::<T>(
                        final(self).bytes(),
                        pos,
                        path.push(o),
                    ) && rv::<T>(final(self).bytes(), o).key == key)
            }),
            // a record put into a slot not in use reads back from it
            rec_at::<T>(old(self).bytes(), old(self).slot_of(key)).0 is Ok && !rv::<T>(old(self).bytes(), old(self).slot_of(key)).valid
                && stored::<T>(val@) is Ok ==> rec_at::<T>(final(self).bytes(), old(self).slot_of(key)).0 == Ok::<RecordView<T::V>, SerializeError>(
                RecordView { val: stored::<T>(val@)->Ok_0, key, next: -1i64, valid: true },
            ),
    {
        let ghost b = self.table.bytes();
        let ghost newr = RecordView { val: val@, key, next: -1i64, valid: true };
        proof {
            self.table.lemma_bounds();
            let kk = (key % (self.size as u64)) as int;
            let ss = self.size as int;
            let pp = Self::slot_len();
            assert(kk * pp <= ss * pp) by (nonlinear_arith)
                requires
                    0 <= kk < ss,
                    0 <= pp,
            ;
        }
        let hash = key % (self.size as u64);
        let pos = hash * Record::<T>::packed_size() as u64;
        let _ = self.table.seek(SeekFrom::Start(pos));
        let mut entry = match Record::<T>::deserialize(&mut self.table) {
            Ok(v) => v,
            Err(e) => {
                return Err(e);
            },
        };
        if !entry.valid {
            let _ = self.table.seek(SeekFrom::Start(pos));
            proof {
                Record::<T>::lemma_deserialize_consumed(rest_of(b, pos as int));
            }
            let entry = Record::from_t(val, key);
            let _ = entry.serialize(&mut self.table);
            proof {
                if stored::<T>(val@) is Ok {
                    lemma_rec_written::<T>(b, pos as int, entry@);
                }
            }
        } else {
            let (prev_offset, last) = match self.walk_chain(pos, entry) {
                Ok(x) => x,
                Err(e) => {
                    return Err(e);
                },
            };
            let mut entry = last;
            proof {
                let e0 = rv::<T>(b, pos as int);
                lemma_walk_end_is_chain_end::<T>(b, pos as int, e0);
                let f0 = choose|f: nat| #[trigger] walk::<T>(b, pos as int, e0, f) is Some;
                lemma_walk_result::<T>(b, pos as int, e0, f0);
                Record::<T>::lemma_deserialize_consumed(rest_of(b, prev_offset as int));
            }
            let write_at_off = match self.search_for_empty() {
                Ok(o) => o,
                Err(e) => {
                    return Err(e);
                },
            };
            proof {
                lemma_inner_free_bound::<T>(b);
            }
            match self.table.seek(SeekFrom::Start(write_at_off)) {
                Ok(_) => {},
                Err(e) => {
                    return Err(SerializeError::Io(e));
                },
            }
            let _ = Record::from_t(val, key).serialize(&mut self.table);
            match self.table.seek(SeekFrom::Start(prev_offset)) {
                Ok(_) => {},
                Err(e) => {
                    return Err(SerializeError::Io(e));
                },
            }
            entry.next = write_at_off as i64;
            proof {
                lemma_rec_writable::<T>(b, prev_offset as int);
            }
            let _ = entry.serialize(&mut self.table);
            proof {
                let pos_i = pos as int;
                let o = write_at_off as int;
                if stored::<T>(newr.val) is Ok {
                    let path = choose|path: Seq<int>|
                        #[trigger] chain_path::<T>(b, pos_i, path) && path.last() == prev_offset as int && last@ == rv::<T>(b, prev_offset as int);
                    assert(chain_path::<T>(b, pos_i, path));
                    if apart_from_chain::<T>(path, o) {
                        lemma_insert_extends_chain::<T>(b, pos_i, path, o, newr);
                        assert(self.table.bytes() == linked_after::<T>(b, path, o, newr));
                    }
                }
            }
        }
        Ok(())
    }
}

/// A free record found by the search lies within the file or at its end.
proof fn lemma_inner_free_bound<T: Serializable>(b: Seq<u8>)
    ensures
        inner_free::<T>(b) matches Ok(o) ==> 0 <= o <= b.len(),
{
    Record::<T>::lemma_deserialize_consumed(rest_of(b, 0));
    if inner_free::<T>(b) is Ok && rec_at::<T>(b, 0).0 is Ok && rv::<T>(b, 0).valid {
        lemma_inner_free_from_bound::<T>(b, rec_len::<T>());
    }
}

proof fn lemma_inner_free_from_bound<T: Serializable>(b: Seq<u8>, off: int)
    requires
        0 <= off,
    ensures
        0 <= inner_free_from::<T>(b, off) <= b.len(),
    decreases b.len() - off,
{
    Record::<T>::lemma_deserialize_consumed(rest_of(b, off));
    if let Ok(r) = rec_at::<T>(b, off).0 {
        if r.valid && off + rec_len::<T>() <= b.len() {
            lemma_inner_free_from_bound::<T>(b, off + rec_len::<T>());
        }
    }
}

} // verus!
