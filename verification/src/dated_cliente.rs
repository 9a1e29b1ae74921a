//! Clients with a date of birth, the records that the n-way merge reads.
use vstd::prelude::*;
use crate::codec::{be_bytes_u32, be_bytes_i64};
use crate::memfile::{MemFile, IoError, lemma_rest_advance, lemma_write_concat};
use crate::serialize::{Serializable, SerializeError, SortKey};
use crate::text::{name_field, decode_name, write_name, read_name};
use crate::tournament::Duplicate;

verus! {

/// A client: its code, its name (stored in 50 bytes of UTF-8) and its date of birth, as
/// the number of seconds since the Unix epoch that the record stores.
#[derive(Debug)]
pub struct Cliente {
    pub codigo: u32,
    pub nome: String,
    pub data_nascimento: i64,
}

/// What a client holds, its name taken as text.
pub struct ClienteView {
    pub codigo: u32,
    pub nome: Seq<char>,
    pub data_nascimento: i64,
}

impl View for Cliente {
    type V = ClienteView;

    open spec fn view(&self) -> ClienteView {
        ClienteView { codigo: self.codigo, nome: self.nome@, data_nascimento: self.data_nascimento }
    }
}

/// The width of the name field.
pub const DATED_NAME_LEN: usize = 50;

/// `chrono::NaiveDate::parse_from_str(&secs.to_string(), "%s")`, reduced to whether it
/// gave a date. It never does: the format `%s` only fills the timestamp field of chrono's
/// parse state, and building a `NaiveDate` from that state looks at the year, month, day,
/// week and ordinal fields alone, so it fails with "not enough" whatever `secs` is.
#[verifier::external_body]
fn date_from_timestamp_text(secs: i64) -> (r: bool)
    ensures
        !r,
{
    chrono::NaiveDate::parse_from_str(&secs.to_string(), "%s").is_ok()
}

impl Serializable for Cliente {
    open spec fn spec_serialize(v: ClienteView) -> Seq<u8> {
        be_bytes_u32(v.codigo) + name_field(v.nome, 50) + be_bytes_i64(v.data_nascimento)
    }

    /// A complete record with a readable name is refused as a date: the date is read back
    /// through chrono, which takes no date from a timestamp alone.
    open spec fn spec_deserialize(input: Seq<u8>) -> (Result<ClienteView, SerializeError>, nat) {
        if input.len() < 54 {
            (Err(SerializeError::Io(IoError::UnexpectedEof)), input.len())
        } else {
            match decode_name(input.subrange(4, 54)) {
                Err(e) => (Err(e), 54),
                Ok(nome) => if input.len() < 62 {
                    (Err(SerializeError::Io(IoError::UnexpectedEof)), input.len())
                } else {
                    (Err(SerializeError::Chrono), 62)
                },
            }
        }
    }

    open spec fn encoded_len() -> nat {
        62
    }

    /// No client can be written: its date is written as chrono's `"%s"` formatting of a
    /// `NaiveDate`, which has no time of day to take a timestamp from, so the formatting
    /// fails and the record is never written.
    open spec fn writable(v: ClienteView) -> bool {
        false
    }

    proof fn lemma_read_writable(input: Seq<u8>) {
    }

    proof fn lemma_encoded_len_positive() {
    }

    proof fn lemma_serialize_len(v: ClienteView) {
        crate::codec::lemma_i64_roundtrip(v.data_nascimento);
    }

    proof fn lemma_deserialize_consumed(input: Seq<u8>) {
    }

    proof fn lemma_deserialize_prefix(a: Seq<u8>, b: Seq<u8>) {
        assert(a.subrange(4, 54) =~= a.take(62).subrange(4, 54));
        assert(b.subrange(4, 54) =~= b.take(62).subrange(4, 54));
    }

    proof fn lemma_reencode(input: Seq<u8>) {
    }

    fn serialize(&self, file: &mut MemFile) -> (r: Result<(), SerializeError>) {
        let ghost start = file.cursor() as int;
        let ghost d0 = file.bytes();
        file.write_u32(self.codigo);
        write_name(file, &self.nome, DATED_NAME_LEN);
        file.write_i64(self.data_nascimento);
        proof {
            let a = be_bytes_u32(self.codigo);
            let n = name_field(self.nome@, 50);
            lemma_write_concat(d0, start, a, n);
            lemma_write_concat(d0, start, a + n, be_bytes_i64(self.data_nascimento));
        }
        Ok(())
    }

    fn deserialize(file: &mut MemFile) -> (r: Result<Cliente, SerializeError>) {
        let ghost input = file.rest();
        let ghost start = file.cursor() as int;
        let codigo = match file.read_u32() {
            Ok(c) => c,
            Err(e) => {
                return Err(SerializeError::Io(e));
            },
        };
        proof {
            lemma_rest_advance(file.bytes(), start, 4);
            if input.len() >= 54 {
                assert(input.skip(4).take(50) =~= input.subrange(4, 54));
            }
        }
        let nome = match read_name(file, DATED_NAME_LEN) {
            Ok(s) => s,
            Err(e) => {
                return Err(e);
            },
        };
        proof {
            lemma_rest_advance(file.bytes(), start + 4, 50);
            assert(input.skip(4).skip(50) =~= input.skip(54));
        }
        let data_nascimento = match file.read_i64() {
            Ok(d) => d,
            Err(e) => {
                return Err(SerializeError::Io(e));
            },
        };
        if !date_from_timestamp_text(data_nascimento) {
            return Err(SerializeError::Chrono);
        }
        Ok(Cliente { codigo, nome, data_nascimento })
    }
}

/// Clients are ordered by their code.
impl SortKey for Cliente {
    open spec fn key_of(v: ClienteView) -> u64 {
        v.codigo as u64
    }

    fn sort_key(&self) -> (k: u64)
        ensures
            k == self.codigo as u64,
    {
        self.codigo as u64
    }
}

/// Clients compare by key exactly as they compare by code: one's key is at most another's
/// exactly where its code is at most the other's.
pub proof fn lemma_key_order_is_code_order(a: ClienteView, b: ClienteView)
    ensures
        Cliente::key_of(a) <= Cliente::key_of(b) <==> a.codigo <= b.codigo,
        Cliente::key_of(a) == Cliente::key_of(b) <==> a.codigo == b.codigo,
{
}

/// A sequence of clients is ordered by key exactly where it is ordered by code.
pub proof fn lemma_sorted_by_key_is_by_code(s: Seq<ClienteView>)
    ensures
        crate::replacement_sort::sorted_by_key::<Cliente>(s) <==> forall|i: int, j: int|
            0 <= i <= j < s.len() ==> #[trigger] s[i].codigo <= #[trigger] s[j].codigo,
{
}

impl Duplicate for Cliente {
    fn duplicate(&self) -> (r: Self) {
        Cliente { codigo: self.codigo, nome: self.nome.clone(), data_nascimento: self.data_nascimento }
    }
}

} // verus!
