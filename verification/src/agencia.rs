//! Bank branches, the records that replacement selection sorts.
use vstd::prelude::*;
use crate::codec::{be_bytes_u32, be_value_u32, lemma_u32_roundtrip};
use crate::memfile::{MemFile, IoError, lemma_rest_advance, lemma_write_concat};
use crate::tournament::Duplicate;
use crate::serialize::{Serializable, SerializeError, SortKey};
use crate::text::{name_field, decode_name, write_name, read_name, lemma_name_roundtrip, lemma_decoded_name_fits};
use vstd::utf8::encode_utf8;

verus! {

/// A branch: its code, its name (stored in 50 bytes of UTF-8) and its manager's code.
#[derive(Debug)]
pub struct Agencia {
    pub codigo: u32,
    pub nome: String,
    pub codigo_gerente: u32,
}

/// What a branch holds, its name taken as text.
pub struct AgenciaView {
    pub codigo: u32,
    pub nome: Seq<char>,
    pub codigo_gerente: u32,
}

impl View for Agencia {
    type V = AgenciaView;

    open spec fn view(&self) -> AgenciaView {
        AgenciaView { codigo: self.codigo, nome: self.nome@, codigo_gerente: self.codigo_gerente }
    }
}

/// The width of the name field.
pub const AGENCIA_NAME_LEN: usize = 50;

impl Serializable for Agencia {
    open spec fn spec_serialize(v: AgenciaView) -> Seq<u8> {
        be_bytes_u32(v.codigo) + name_field(v.nome, 50) + be_bytes_u32(v.codigo_gerente)
    }

    open spec fn spec_deserialize(input: Seq<u8>) -> (Result<AgenciaView, SerializeError>, nat) {
        if input.len() < 54 {
            (Err(SerializeError::Io(IoError::UnexpectedEof)), input.len())
        } else {
            match decode_name(input.subrange(4, 54)) {
                Err(e) => (Err(e), 54),
                Ok(nome) => if input.len() < 58 {
                    (Err(SerializeError::Io(IoError::UnexpectedEof)), input.len())
                } else {
                    (
                        Ok(
                            AgenciaView {
                                codigo: be_value_u32(input),
                                nome,
                                codigo_gerente: be_value_u32(input.skip(54)),
                            },
                        ),
                        58,
                    )
                },
            }
        }
    }

    open spec fn encoded_len() -> nat {
        58
    }

    open spec fn writable(v: Self::V) -> bool {
        true
    }

    proof fn lemma_read_writable(input: Seq<u8>) {
    }

    proof fn lemma_encoded_len_positive() {
    }

    proof fn lemma_serialize_len(v: AgenciaView) {
    }

    proof fn lemma_deserialize_consumed(input: Seq<u8>) {
    }

    proof fn lemma_deserialize_prefix(a: Seq<u8>, b: Seq<u8>) {
        assert(a.subrange(4, 54) =~= a.take(58).subrange(4, 54));
        assert(b.subrange(4, 54) =~= b.take(58).subrange(4, 54));
        assert forall|i: int| 0 <= i < 58 implies a[i] == b[i] by {
            assert(a.take(58)[i] == b.take(58)[i]);
        }
        assert(a.skip(54)[0] == b.skip(54)[0]);
        assert(a.skip(54)[1] == b.skip(54)[1]);
        assert(a.skip(54)[2] == b.skip(54)[2]);
        assert(a.skip(54)[3] == b.skip(54)[3]);
    }

    proof fn lemma_reencode(input: Seq<u8>) {
        let v = Self::spec_deserialize(input).0->Ok_0;
        lemma_decoded_name_fits(input.subrange(4, 54), 50);
        lemma_agencia_roundtrip(v, Seq::empty());
        assert(Self::spec_serialize(v) + Seq::<u8>::empty() =~= Self::spec_serialize(v));
    }

    fn serialize(&self, file: &mut MemFile) -> (r: Result<(), SerializeError>) {
        let ghost start = file.cursor() as int;
        let ghost d0 = file.bytes();
        file.write_u32(self.codigo);
        write_name(file, &self.nome, AGENCIA_NAME_LEN);
        file.write_u32(self.codigo_gerente);
        proof {
            let a = be_bytes_u32(self.codigo);
            let n = name_field(self.nome@, 50);
            lemma_write_concat(d0, start, a, n);
            lemma_write_concat(d0, start, a + n, be_bytes_u32(self.codigo_gerente));
        }
        Ok(())
    }

    fn deserialize(file: &mut MemFile) -> (r: Result<Agencia, SerializeError>) {
        let ghost input = file.rest();
        let ghost start = file.cursor() as int;
        let codigo = match file.read_u32() {
            Ok(c) => c,
            Err(e) => {
                return Err(SerializeError::Io(e));
            },
        };
        proof {
            lemma_rest_advance(file.bytes(), start, 4);
            if input.len() >= 54 {
                assert(input.skip(4).take(50) =~= input.subrange(4, 54));
            }
        }
        let nome = match read_name(file, AGENCIA_NAME_LEN) {
            Ok(s) => s,
            Err(e) => {
                return Err(e);
            },
        };
        proof {
            lemma_rest_advance(file.bytes(), start + 4, 50);
            assert(input.skip(4).skip(50) =~= input.skip(54));
        }
        let codigo_gerente = match file.read_u32() {
            Ok(c) => c,
            Err(e) => {
                return Err(SerializeError::Io(e));
            },
        };
        Ok(Agencia { codigo, nome, codigo_gerente })
    }
}

/// A branch whose name fits its 50 bytes and holds no zero byte is read back as written,
/// whatever follows its record.
pub proof fn lemma_agencia_roundtrip(v: AgenciaView, rest: Seq<u8>)
    requires
        encode_utf8(v.nome).len() <= 50,
        forall|i: int| 0 <= i < encode_utf8(v.nome).len() ==> encode_utf8(v.nome)[i] != 0,
    ensures
        Agencia::spec_deserialize(Agencia::spec_serialize(v) + rest) == (
        Ok::<AgenciaView, SerializeError>(v), 58nat),
{
    let b = Agencia::spec_serialize(v) + rest;
    lemma_name_roundtrip(v.nome, 50);
    lemma_u32_roundtrip(v.codigo);
    lemma_u32_roundtrip(v.codigo_gerente);
    assert(b.subrange(4, 54) =~= name_field(v.nome, 50));
    assert(be_value_u32(b) == be_value_u32(be_bytes_u32(v.codigo)));
    assert(be_value_u32(b.skip(54)) == be_value_u32(be_bytes_u32(v.codigo_gerente)));
}

/// Branches are ordered by their code.
impl SortKey for Agencia {
    open spec fn key_of(v: AgenciaView) -> u64 {
        v.codigo as u64
    }

    fn sort_key(&self) -> (k: u64)
        ensures
            k == self.codigo as u64,
    {
        self.codigo as u64
    }
}

/// Branches compare by key exactly as they compare by code: one's key is at most another's
/// exactly where its code is at most the other's.
pub proof fn lemma_key_order_is_code_order(a: AgenciaView, b: AgenciaView)
    ensures
        Agencia::key_of(a) <= Agencia::key_of(b) <==> a.codigo <= b.codigo,
        Agencia::key_of(a) == Agencia::key_of(b) <==> a.codigo == b.codigo,
{
}

/// A run of branches is ordered by key exactly where it is ordered by code.
pub proof fn lemma_sorted_by_key_is_by_code(s: Seq<AgenciaView>)
    ensures
        crate::replacement_sort::sorted_by_key::<Agencia>(s) <==> forall|i: int, j: int|
            0 <= i <= j < s.len() ==> #[trigger] s[i].codigo <= #[trigger] s[j].codigo,
{
}

impl Duplicate for Agencia {
    fn duplicate(&self) -> (r: Self) {
        Agencia { codigo: self.codigo, nome: self.nome.clone(), codigo_gerente: self.codigo_gerente }
    }
}

} // verus!
