//! Values that are stored in files as fixed-width records.
use vstd::prelude::*;
use crate::memfile::{MemFile, IoError, write_at};

verus! {

/// Why reading or writing a record failed.
#[derive(Debug, Clone, Copy, PartialEq, Eq, Structural)]
pub enum SerializeError {
    /// The file ended, or a seek was refused.
    Io(IoError),
    /// A text field did not hold UTF-8.
    Utf8,
    /// A date field did not hold a date.
    Chrono,
}

impl From<IoError> for SerializeError {
    fn from(err: IoError) -> (r: SerializeError) {
        SerializeError::Io(err)
    }
}

impl vstd::std_specs::convert::FromSpecImpl<IoError> for SerializeError {
    open spec fn obeys_from_spec() -> bool {
        true
    }

    open spec fn from_spec(err: IoError) -> SerializeError {
        SerializeError::Io(err)
    }
}

/// Whether an outcome of `deserialize` agrees with the outcome that the specification gives:
/// the same error, or a value whose view is the value given.
pub open spec fn outcome_matches<T: View>(r: Result<T, SerializeError>, s: Result<T::V, SerializeError>) -> bool {
    match (r, s) {
        (Ok(v), Ok(w)) => v@ == w,
        (Err(e1), Err(e2)) => e1 == e2,
        _ => false,
    }
}

/// A type whose values are written to files as records of a fixed length and read back.
pub trait Serializable: Sized + View {
    /// The bytes that `serialize` writes for a value with view `v`.
    spec fn spec_serialize(v: Self::V) -> Seq<u8>;

    /// What `deserialize` makes of the bytes after the cursor: the value read or the error,
    /// and how many bytes it moves the cursor by.
    spec fn spec_deserialize(input: Seq<u8>) -> (Result<Self::V, SerializeError>, nat);

    /// The length of a record.
    spec fn encoded_len() -> nat;

    /// A record takes at least one byte.
    proof fn lemma_encoded_len_positive()
        ensures
            Self::encoded_len() > 0,
    ;

    /// Every record has the same length.
    proof fn lemma_serialize_len(v: Self::V)
        ensures
            Self::spec_serialize(v).len() == Self::encoded_len(),
    ;

    /// Reading moves the cursor by at most the record length and at most to the end, and
    /// by exactly the record length when it succeeds.
    proof fn lemma_deserialize_consumed(input: Seq<u8>)
        ensures
            Self::spec_deserialize(input).1 <= input.len(),
            Self::spec_deserialize(input).1 <= Self::encoded_len(),
            Self::spec_deserialize(input).0 is Ok ==> Self::spec_deserialize(input).1
                == Self::encoded_len(),
    ;

    /// Reading looks at no more than one record's length of bytes.
    proof fn lemma_deserialize_prefix(a: Seq<u8>, b: Seq<u8>)
        requires
            a.len() >= Self::encoded_len(),
            b.len() >= Self::encoded_len(),
            a.take(Self::encoded_len() as int) == b.take(Self::encoded_len() as int),
        ensures
            Self::spec_deserialize(a) == Self::spec_deserialize(b),
    ;

    /// A value read from a record is written as a record that reads back as the same value.
    proof fn lemma_reencode(input: Seq<u8>)
        requires
            Self::spec_deserialize(input).0 is Ok,
        ensures
            Self::spec_deserialize(Self::spec_serialize(Self::spec_deserialize(input).0->Ok_0))
                == (Ok::<Self::V, SerializeError>(Self::spec_deserialize(input).0->Ok_0), Self::encoded_len()),
    ;

    /// Whether a value with view `v` can be written at all.
    spec fn writable(v: Self::V) -> bool;

    /// A value read from a record can be written.
    proof fn lemma_read_writable(input: Seq<u8>)
        requires
            Self::spec_deserialize(input).0 is Ok,
        ensures
            Self::writable(Self::spec_deserialize(input).0->Ok_0),
    ;

    /// Writes this value as a record at the cursor of `file`.
    fn serialize(&self, file: &mut MemFile) -> (r: Result<(), SerializeError>)
        requires
            old(file).cursor() + Self::encoded_len() <= usize::MAX,
            Self::writable(self@),
        ensures
            r is Ok,
            final(file).bytes() == write_at(
                old(file).bytes(),
                old(file).cursor() as int,
                Self::spec_serialize(self@),
            ),
            final(file).cursor() == old(file).cursor() + Self::encoded_len(),
    ;

    /// Reads a record at the cursor of `file`.
    fn deserialize(file: &mut MemFile) -> (r: Result<Self, SerializeError>)
        ensures
            final(file).bytes() == old(file).bytes(),
            outcome_matches(r, Self::spec_deserialize(old(file).rest()).0),
            final(file).cursor() == old(file).cursor() + Self::spec_deserialize(old(file).rest()).1,
    ;
}

/// A type that declares how many bytes its records take in a file.
pub trait PackedSize {
    /// The declared record size.
    spec fn spec_packed_size() -> nat;

    /// The declared record size.
    fn packed_size() -> (r: usize)
        requires
            Self::spec_packed_size() <= usize::MAX,
        ensures
            r == Self::spec_packed_size(),
    ;
}

/// The values that reading records one after another from `input` yields: a failed read is
/// skipped, and reading stops where a read no longer moves the cursor.
pub open spec fn scan<T: Serializable>(input: Seq<u8>) -> Seq<T::V>
    decreases input.len(),
{
    let (r, n) = T::spec_deserialize(input);
    if n == 0 || n > input.len() {
        Seq::empty()
    } else {
        match r {
            Ok(v) => seq![v] + scan::<T>(input.skip(n as int)),
            Err(_) => scan::<T>(input.skip(n as int)),
        }
    }
}

/// The values read from `input` before the first failed read.
pub open spec fn records_of<T: Serializable>(input: Seq<u8>) -> Seq<T::V>
    decreases input.len(),
{
    let (r, n) = T::spec_deserialize(input);
    match r {
        Ok(v) => if n == 0 || n > input.len() {
            seq![v]
        } else {
            seq![v] + records_of::<T>(input.skip(n as int))
        },
        Err(_) => Seq::empty(),
    }
}

/// The bytes of the records of `vs`, one after another.
pub open spec fn serialized_seq<T: Serializable>(vs: Seq<T::V>) -> Seq<u8>
    decreases vs.len(),
{
    if vs.len() == 0 {
        Seq::empty()
    } else {
        serialized_seq::<T>(vs.drop_last()) + T::spec_serialize(vs.last())
    }
}

/// A type whose values are ordered by an unsigned key.
pub trait SortKey: View {
    /// The key of a value with view `v`.
    spec fn key_of(v: Self::V) -> u64;

    /// The key of this value.
    fn sort_key(&self) -> (k: u64)
        ensures
            k == Self::key_of(self@),
    ;
}

/// One read from `input`: where it moves the cursor, the values left to scan are those
/// after it, behind the value read if it succeeded; where it does not, it failed and
/// nothing is left to scan.
pub proof fn lemma_scan_step<T: Serializable>(input: Seq<u8>)
    ensures
        ({
            let (r, n) = T::spec_deserialize(input);
            &&& n <= input.len()
            &&& n == 0 ==> r is Err && scan::<T>(input) == Seq::<T::V>::empty()
            &&& n > 0 ==> scan::<T>(input) == (match r {
                Ok(v) => seq![v],
                Err(_) => Seq::<T::V>::empty(),
            }) + scan::<T>(input.skip(n as int))
        }),
{
    T::lemma_deserialize_consumed(input);
    T::lemma_encoded_len_positive();
    let (r, n) = T::spec_deserialize(input);
    if n > 0 {
        match r {
            Ok(v) => {},
            Err(_) => {
                assert(Seq::<T::V>::empty() + scan::<T>(input.skip(n as int)) =~= scan::<T>(input.skip(n as int)));
            },
        }
    }
}

/// Where at least one record can be read from `input`, the first read succeeds, moves the
/// cursor by a record's length, and leaves the rest of the records.
pub proof fn lemma_records_step<T: Serializable>(input: Seq<u8>)
    requires
        records_of::<T>(input).len() > 0,
    ensures
        T::spec_deserialize(input).0 is Ok,
        T::spec_deserialize(input).1 == T::encoded_len(),
        0 < T::encoded_len() <= input.len(),
        records_of::<T>(input.skip(T::encoded_len() as int)).len() == records_of::<T>(input).len() - 1,
        T::spec_deserialize(input).0 == Ok::<T::V, SerializeError>(records_of::<T>(input)[0]),
{
    T::lemma_deserialize_consumed(input);
    T::lemma_encoded_len_positive();
}

} // verus!
