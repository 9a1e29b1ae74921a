//! Clients, the values that the hash tables store.
use vstd::prelude::*;
use crate::codec::{be_bytes_u32, be_value_u32, lemma_u32_roundtrip};
use crate::memfile::{MemFile, IoError, lemma_rest_advance, lemma_write_concat};
use crate::tournament::Duplicate;
use crate::serialize::{Serializable, SerializeError, PackedSize, SortKey};
use crate::text::{name_field, decode_name, write_name, read_name, lemma_name_roundtrip, lemma_decoded_name_fits};
use vstd::utf8::encode_utf8;

verus! {

/// A client: its code and its name (stored in 100 bytes of UTF-8).
#[derive(Debug, Clone)]
pub struct Cliente {
    pub codigo: u32,
    pub nome: String,
}

/// What a client holds, its name taken as text.
pub struct ClienteView {
    pub codigo: u32,
    pub nome: Seq<char>,
}

impl View for Cliente {
    type V = ClienteView;

    open spec fn view(&self) -> ClienteView {
        ClienteView { codigo: self.codigo, nome: self.nome@ }
    }
}

/// The width of the name field.
pub const CLIENTE_NAME_LEN: usize = 100;

impl PackedSize for Cliente {
    open spec fn spec_packed_size() -> nat {
        32 + 100
    }

    fn packed_size() -> (r: usize) {
        return 32 + 100;
    }
}

impl Serializable for Cliente {
    open spec fn spec_serialize(v: ClienteView) -> Seq<u8> {
        be_bytes_u32(v.codigo) + name_field(v.nome, 100)
    }

    open spec fn spec_deserialize(input: Seq<u8>) -> (Result<ClienteView, SerializeError>, nat) {
        if input.len() < 104 {
            (Err(SerializeError::Io(IoError::UnexpectedEof)), input.len())
        } else {
            match decode_name(input.subrange(4, 104)) {
                Err(e) => (Err(e), 104),
                Ok(nome) => (Ok(ClienteView { codigo: be_value_u32(input), nome }), 104),
            }
        }
    }

    open spec fn encoded_len() -> nat {
        104
    }

    open spec fn writable(v: Self::V) -> bool {
        true
    }

    proof fn lemma_read_writable(input: Seq<u8>) {
    }

    proof fn lemma_encoded_len_positive() {
    }

    proof fn lemma_serialize_len(v: ClienteView) {
    }

    proof fn lemma_deserialize_consumed(input: Seq<u8>) {
    }

    proof fn lemma_deserialize_prefix(a: Seq<u8>, b: Seq<u8>) {
        assert(a.subrange(4, 104) =~= a.take(104).subrange(4, 104));
        assert(b.subrange(4, 104) =~= b.take(104).subrange(4, 104));
        assert forall|i: int| 0 <= i < 104 implies a[i] == b[i] by {
            assert(a.take(104)[i] == b.take(104)[i]);
        }
    }

    proof fn lemma_reencode(input: Seq<u8>) {
        let v = Self::spec_deserialize(input).0->Ok_0;
        lemma_decoded_name_fits(input.subrange(4, 104), 100);
        lemma_cliente_roundtrip(v, Seq::empty());
        assert(Self::spec_serialize(v) + Seq::<u8>::empty() =~= Self::spec_serialize(v));
    }

    fn serialize(&self, file: &mut MemFile) -> (r: Result<(), SerializeError>) {
        let ghost start = file.cursor() as int;
        let ghost d0 = file.bytes();
        file.write_u32(self.codigo);
        write_name(file, &self.nome, CLIENTE_NAME_LEN);
        proof {
            lemma_write_concat(d0, start, be_bytes_u32(self.codigo), name_field(self.nome@, 100));
        }
        Ok(())
    }

    fn deserialize(file: &mut MemFile) -> (r: Result<Cliente, SerializeError>) {
        let ghost input = file.rest();
        let ghost start = file.cursor() as int;
        let codigo = match file.read_u32() {
            Ok(c) => c,
            Err(e) => {
                return Err(SerializeError::Io(e));
            },
        };
        proof {
            lemma_rest_advance(file.bytes(), start, 4);
            if input.len() >= 104 {
                assert(input.skip(4).take(100) =~= input.subrange(4, 104));
            }
        }
        let nome = match read_name(file, CLIENTE_NAME_LEN) {
            Ok(s) => s,
            Err(e) => {
                return Err(e);
            },
        };
        Ok(Cliente { codigo, nome })
    }
}

/// A client whose name fits its 100 bytes and holds no zero byte is read back as written,
/// whatever follows its record.
pub proof fn lemma_cliente_roundtrip(v: ClienteView, rest: Seq<u8>)
    requires
        encode_utf8(v.nome).len() <= 100,
        forall|i: int| 0 <= i < encode_utf8(v.nome).len() ==> encode_utf8(v.nome)[i] != 0,
    ensures
        Cliente::spec_deserialize(Cliente::spec_serialize(v) + rest) == (
        Ok::<ClienteView, SerializeError>(v), 104nat),
{
    let b = Cliente::spec_serialize(v) + rest;
    lemma_name_roundtrip(v.nome, 100);
    lemma_u32_roundtrip(v.codigo);
    assert(b.subrange(4, 104) =~= name_field(v.nome, 100));
    assert(be_value_u32(b) == be_value_u32(be_bytes_u32(v.codigo)));
}

/// Clients are ordered by their code.
impl SortKey for Cliente {
    open spec fn key_of(v: ClienteView) -> u64 {
        v.codigo as u64
    }

    fn sort_key(&self) -> (k: u64)
        ensures
            k == self.codigo as u64,
    {
        self.codigo as u64
    }
}

/// Clients compare by key exactly as they compare by code: one's key is at most another's
/// exactly where its code is at most the other's.
pub proof fn lemma_key_order_is_code_order(a: ClienteView, b: ClienteView)
    ensures
        Cliente::key_of(a) <= Cliente::key_of(b) <==> a.codigo <= b.codigo,
        Cliente::key_of(a) == Cliente::key_of(b) <==> a.codigo == b.codigo,
{
}

/// A sequence of clients is ordered by key exactly where it is ordered by code.
pub proof fn lemma_sorted_by_key_is_by_code(s: Seq<ClienteView>)
    ensures
        crate::replacement_sort::sorted_by_key::<Cliente>(s) <==> forall|i: int, j: int|
            0 <= i <= j < s.len() ==> #[trigger] s[i].codigo <= #[trigger] s[j].codigo,
{
}

impl Duplicate for Cliente {
    fn duplicate(&self) -> (r: Self) {
        Cliente { codigo: self.codigo, nome: self.nome.clone() }
    }
}

} // verus!
