//! Fixed-width text fields: a name is stored as its UTF-8 bytes, cut or padded with zero
//! bytes to the width of the field, and read back up to the first zero byte.
use vstd::prelude::*;
use vstd::utf8::{valid_utf8, decode_utf8, encode_utf8};
use vstd::string::StringSliceAdditionalSpecFns;
use crate::memfile::{MemFile, IoError, write_at};
use crate::serialize::SerializeError;

verus! {

/// The bytes of a field of `width` bytes holding the text `name`.
pub open spec fn name_field(name: Seq<char>, width: nat) -> Seq<u8> {
    let b = encode_utf8(name);
    let k: nat = if b.len() > width {
        width
    } else {
        b.len()
    };
    b.take(k as int) + Seq::new((width - k) as nat, |i: int| 0u8)
}

/// The index of the first zero byte of `b` at or after `i`, or the length of `b`.
pub open spec fn first_zero_from(b: Seq<u8>, i: int) -> int
    decreases b.len() - i,
{
    if i < 0 || i >= b.len() {
        b.len() as int
    } else if b[i] == 0 {
        i
    } else {
        first_zero_from(b, i + 1)
    }
}

/// The text that a field holds: its bytes up to the first zero byte, read as UTF-8.
pub open spec fn decode_name(field: Seq<u8>) -> Result<Seq<char>, SerializeError> {
    let p = field.take(first_zero_from(field, 0));
    if valid_utf8(p) {
        Ok(decode_utf8(p))
    } else {
        Err(SerializeError::Utf8)
    }
}

/// `String::from_utf8`: the text whose UTF-8 encoding `bytes` is, or nothing where `bytes`
/// is not UTF-8.
#[verifier::external_body]
fn string_from_utf8(bytes: Vec<u8>) -> (r: Option<String>)
    ensures
        r is Some <==> valid_utf8(bytes@),
        r matches Some(s) ==> s@ == decode_utf8(bytes@),
{
    match String::from_utf8(bytes) {
        Ok(s) => Some(s),
        Err(_) => None,
    }
}

proof fn lemma_first_zero_bounds(b: Seq<u8>, i: int)
    requires
        0 <= i <= b.len(),
    ensures
        i <= first_zero_from(b, i) <= b.len(),
        first_zero_from(b, i) < b.len() ==> b[first_zero_from(b, i)] == 0,
        forall|j: int| i <= j < first_zero_from(b, i) ==> b[j] != 0,
    decreases b.len() - i,
{
    if i < b.len() && b[i] != 0 {
        lemma_first_zero_bounds(b, i + 1);
    }
}

/// Writes `name` as a field of `width` bytes at the cursor: its first `width` UTF-8
/// bytes, then zero bytes up to the width.
pub fn write_name(file: &mut MemFile, name: &String, width: usize)
    requires
        old(file).cursor() + width <= usize::MAX,
    ensures
        final(file).bytes() == write_at(old(file).bytes(), old(file).cursor() as int, name_field(name@, width as nat)),
        final(file).cursor() == old(file).cursor() + width,
{
    let bytes = name.as_str().as_bytes();
    let boundary = if bytes.len() > width {
        width
    } else {
        bytes.len()
    };
    let diff = width - boundary;
    let mut field: Vec<u8> = Vec::with_capacity(width);
    let mut i: usize = 0;
    while i < boundary
        invariant
            boundary <= bytes@.len(),
            i <= boundary,
            field@ == bytes@.take(i as int),
        decreases boundary - i,
    {
        field.push(bytes[i]);
        i += 1;
        assert(field@ =~= bytes@.take(i as int));
    }
    let mut j: usize = 0;
    while j < diff
        invariant
            j <= diff,
            field@ == bytes@.take(boundary as int) + Seq::new(j as nat, |k: int| 0u8),
        decreases diff - j,
    {
        field.push(0u8);
        j += 1;
        assert(field@ =~= bytes@.take(boundary as int) + Seq::new(j as nat, |k: int| 0u8));
    }
    assert(field@ =~= name_field(name@, width as nat));
    file.write_all(field.as_slice());
}

/// Reads a field of `width` bytes at the cursor and the text it holds.
pub fn read_name(file: &mut MemFile, width: usize) -> (r: Result<String, SerializeError>)
    ensures
        final(file).bytes() == old(file).bytes(),
        width <= old(file).rest().len() ==> final(file).cursor() == old(file).cursor() + width
            && match (r, decode_name(old(file).rest().take(width as int))) {
            (Ok(s), Ok(t)) => s@ == t,
            (Err(e1), Err(e2)) => e1 == e2,
            _ => false,
        },
        width > old(file).rest().len() ==> r == Err::<String, SerializeError>(SerializeError::Io(IoError::UnexpectedEof))
            && final(file).cursor() == old(file).cursor() + old(file).rest().len(),
{
    let nome = match file.read_exact(width) {
        Ok(b) => b,
        Err(e) => {
            return Err(SerializeError::Io(e));
        },
    };
    let mut nul_pos: usize = 0;
    proof {
        lemma_first_zero_bounds(nome@, 0);
    }
    while nul_pos < nome.len() && nome[nul_pos] != 0u8
        invariant
            nul_pos <= nome@.len(),
            first_zero_from(nome@, nul_pos as int) == first_zero_from(nome@, 0),
        decreases nome@.len() - nul_pos,
    {
        nul_pos += 1;
    }
    let mut prefix: Vec<u8> = Vec::with_capacity(nul_pos);
    let mut i: usize = 0;
    while i < nul_pos
        invariant
            nul_pos <= nome@.len(),
            i <= nul_pos,
            prefix@ == nome@.take(i as int),
        decreases nul_pos - i,
    {
        prefix.push(nome[i]);
        i += 1;
        assert(prefix@ =~= nome@.take(i as int));
    }
    match string_from_utf8(prefix) {
        Some(s) => Ok(s),
        None => Err(SerializeError::Utf8),
    }
}

/// A name that fits its field and holds no zero byte is read back as written.
pub proof fn lemma_name_roundtrip(name: Seq<char>, width: nat)
    requires
        encode_utf8(name).len() <= width,
        forall|i: int| 0 <= i < encode_utf8(name).len() ==> encode_utf8(name)[i] != 0,
    ensures
        name_field(name, width).len() == width,
        decode_name(name_field(name, width)) == Ok::<Seq<char>, SerializeError>(name),
{
    let b = encode_utf8(name);
    let f = name_field(name, width);
    assert(b.take(b.len() as int) =~= b);
    lemma_first_zero_bounds(f, 0);
    let z = first_zero_from(f, 0);
    assert(z == b.len()) by {
        if z < b.len() {
            assert(f[z] == b[z]);
        }
        if z > b.len() {
            assert(f[b.len() as int] == 0);
        }
    }
    assert(f.take(z) =~= b);
    vstd::utf8::encode_utf8_valid_utf8(name);
    vstd::utf8::encode_utf8_decode_utf8(name);
}

/// The field written for a name has the width of the field.
pub proof fn lemma_name_field_len(name: Seq<char>, width: nat)
    ensures
        name_field(name, width).len() == width,
{
}

/// A text read from a field fits the field and holds no zero byte.
pub proof fn lemma_decoded_name_fits(field: Seq<u8>, width: nat)
    requires
        field.len() == width,
        decode_name(field) is Ok,
    ensures
        encode_utf8(decode_name(field)->Ok_0).len() <= width,
        forall|i: int|
            0 <= i < encode_utf8(decode_name(field)->Ok_0).len() ==> encode_utf8(
                decode_name(field)->Ok_0,
            )[i] != 0,
{
    lemma_first_zero_bounds(field, 0);
    let p = field.take(first_zero_from(field, 0));
    vstd::utf8::decode_utf8_encode_utf8(p);
}

} // verus!
