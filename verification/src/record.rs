//! The record that the hash tables store: a value, its key, the offset of the next
//! record of its chain and a validity flag.
use vstd::prelude::*;
use crate::codec::{be_bytes_u32, be_bytes_u64, be_bytes_i64, be_value_u32, be_value_u64, be_value_i64, lemma_u64_roundtrip, lemma_i64_roundtrip, lemma_u32_roundtrip};
use crate::memfile::{MemFile, IoError, lemma_rest_advance, lemma_write_concat};
use crate::serialize::{Serializable, SerializeError, PackedSize};

verus! {

/// A stored value with its key, the file offset of the next record of its chain (`-1` for
/// none) and whether the slot is in use.
pub struct Record<T> {
    pub val: T,
    pub key: u64,
    pub next: i64,
    pub valid: bool,
}

impl<T> Record<T> {
    /// A record in use for `val` under `key`, with no successor.
    pub fn from_t(val: T, key: u64) -> (r: Record<T>)
        ensures
            r == (Record { val, key, next: -1i64, valid: true }),
    {
        Record { val, key, next: -1, valid: true }
    }
}

/// What a record holds, with its value taken by its view.
pub struct RecordView<V> {
    pub val: V,
    pub key: u64,
    pub next: i64,
    pub valid: bool,
}

impl<T: View> View for Record<T> {
    type V = RecordView<T::V>;

    open spec fn view(&self) -> RecordView<T::V> {
        RecordView { val: self.val@, key: self.key, next: self.next, valid: self.valid }
    }
}

/// The four bytes that stand for the validity flag.
pub open spec fn valid_bytes(valid: bool) -> Seq<u8> {
    be_bytes_u32(if valid { 1u32 } else { 0u32 })
}

/// The bytes after a record's value: key, next offset and validity flag.
pub open spec fn link_bytes(key: u64, next: i64, valid: bool) -> Seq<u8> {
    be_bytes_u64(key) + be_bytes_i64(next) + valid_bytes(valid)
}

impl<T: Serializable> Serializable for Record<T> {
    open spec fn spec_serialize(v: RecordView<T::V>) -> Seq<u8> {
        T::spec_serialize(v.val) + link_bytes(v.key, v.next, v.valid)
    }

    open spec fn spec_deserialize(input: Seq<u8>) -> (Result<RecordView<T::V>, SerializeError>, nat) {
        let (tr, n) = T::spec_deserialize(input);
        match tr {
            Err(e) => (Err(e), n),
            Ok(val) => {
                let after = input.skip(n as int);
                if after.len() < 20 {
                    (Err(SerializeError::Io(IoError::UnexpectedEof)), input.len())
                } else {
                    (
                        Ok(
                            RecordView {
                                val,
                                key: be_value_u64(after),
                                next: be_value_i64(after.skip(8)),
                                valid: be_value_u32(after.skip(16)) != 0,
                            },
                        ),
                        n + 20,
                    )
                }
            },
        }
    }

    open spec fn encoded_len() -> nat {
        T::encoded_len() + 20
    }

    open spec fn writable(v: RecordView<T::V>) -> bool {
        T::writable(v.val)
    }

    proof fn lemma_read_writable(input: Seq<u8>) {
        T::lemma_read_writable(input);
    }

    proof fn lemma_encoded_len_positive() {
    }

    proof fn lemma_serialize_len(v: RecordView<T::V>) {
        T::lemma_serialize_len(v.val);
    }

    proof fn lemma_deserialize_consumed(input: Seq<u8>) {
        T::lemma_deserialize_consumed(input);
    }

    proof fn lemma_deserialize_prefix(a: Seq<u8>, b: Seq<u8>) {
        let l = T::encoded_len() as int;
        assert(a.take(l) == a.take(l + 20).take(l));
        assert(b.take(l) == b.take(l + 20).take(l));
        T::lemma_deserialize_prefix(a, b);
        T::lemma_deserialize_consumed(a);
        let (tr, n) = T::spec_deserialize(a);
        if tr is Ok {
            assert forall|i: int| 0 <= i < 20 implies a.skip(n as int)[i] == b.skip(n as int)[i] by {
                assert(a.take(l + 20)[l + i] == b.take(l + 20)[l + i]);
            }
            assert(a.skip(n as int).skip(8)[0] == b.skip(n as int).skip(8)[0]);
        }
        assert(Self::spec_deserialize(a) =~= Self::spec_deserialize(b));
    }

    proof fn lemma_reencode(input: Seq<u8>) {
        let v = Self::spec_deserialize(input).0->Ok_0;
        T::lemma_reencode(input);
        T::lemma_deserialize_consumed(input);
        let tb = T::spec_serialize(v.val);
        T::lemma_serialize_len(v.val);
        let lk = link_bytes(v.key, v.next, v.valid);
        let all = tb + lk;
        assert(all.take(T::encoded_len() as int) =~= tb.take(T::encoded_len() as int));
        assert(tb.take(T::encoded_len() as int) =~= tb);
        T::lemma_deserialize_prefix(all, tb);
        assert(all.skip(T::encoded_len() as int) =~= lk);
        lemma_u64_roundtrip(v.key);
        lemma_i64_roundtrip(v.next);
        lemma_u32_roundtrip(1);
        lemma_u32_roundtrip(0);
        assert(lk.skip(8) =~= be_bytes_i64(v.next) + valid_bytes(v.valid));
        assert(lk.skip(16) =~= valid_bytes(v.valid));
        assert(be_value_u64(lk) == be_value_u64(be_bytes_u64(v.key)));
        assert(be_value_i64(lk.skip(8)) == be_value_i64(be_bytes_i64(v.next)));
        assert(be_value_u32(lk.skip(16)) == be_value_u32(valid_bytes(v.valid)));
    }

    fn serialize(&self, file: &mut MemFile) -> (r: Result<(), SerializeError>) {
        let ghost start = file.cursor() as int;
        let ghost d0 = file.bytes();
        proof {
            T::lemma_serialize_len(self.val@);
        }
        let _ = self.val.serialize(file);
        file.write_u64(self.key);
        file.write_i64(self.next);
        let write: u32 = if self.valid == false {
            0
        } else {
            1
        };
        file.write_u32(write);
        proof {
            let vb = T::spec_serialize(self.val@);
            let l = vb.len() as int;
            lemma_write_concat(d0, start, vb, be_bytes_u64(self.key));
            lemma_write_concat(d0, start, vb + be_bytes_u64(self.key), be_bytes_i64(self.next));
            lemma_write_concat(
                d0,
                start,
                vb + be_bytes_u64(self.key) + be_bytes_i64(self.next),
                valid_bytes(self.valid),
            );
            assert(vb + be_bytes_u64(self.key) + be_bytes_i64(self.next) + valid_bytes(self.valid)
                =~= Self::spec_serialize(self@));
        }
        Ok(())
    }

    fn deserialize(file: &mut MemFile) -> (r: Result<Self, SerializeError>) {
        let ghost input = file.rest();
        let ghost start = file.cursor() as int;
        proof {
            T::lemma_deserialize_consumed(input);
        }
        let val = match T::deserialize(file) {
            Ok(v) => v,
            Err(e) => {
                return Err(e);
            },
        };
        let ghost n = T::spec_deserialize(input).1;
        proof {
            lemma_rest_advance(file.bytes(), start, n as int);
        }
        let ghost after = input.skip(n as int);
        let key = match file.read_u64() {
            Ok(k) => k,
            Err(e) => {
                return Err(SerializeError::Io(e));
            },
        };
        proof {
            lemma_rest_advance(file.bytes(), start + n, 8);
        }
        let next = match file.read_i64() {
            Ok(k) => k,
            Err(e) => {
                return Err(SerializeError::Io(e));
            },
        };
        proof {
            lemma_rest_advance(file.bytes(), start + n + 8, 8);
            assert(after.skip(8).skip(8) =~= after.skip(16));
        }
        let intval = match file.read_u32() {
            Ok(k) => k,
            Err(e) => {
                return Err(SerializeError::Io(e));
            },
        };
        let valid: bool;
        if intval == 0 {
            valid = false;
        } else {
            valid = true;
        }
        Ok(Record { val, key, next, valid })
    }
}

impl<T: PackedSize> PackedSize for Record<T> {
    open spec fn spec_packed_size() -> nat {
        T::spec_packed_size() + 64 + 64 + 1
    }

    fn packed_size() -> (r: usize) {
        proof {
            broadcast use vstd::layout::layout_of_primitives;
        }
        T::packed_size() + 64 + 64 + core::mem::size_of::<bool>()
    }
}

} // verus!
