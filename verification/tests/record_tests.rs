use std::cmp::Ordering;

use fileorg::agencia::Agencia;
use fileorg::cliente::Cliente;
use fileorg::dated_cliente;
use fileorg::memfile::{IoError, MemFile, SeekFrom};
use fileorg::record::Record;
use fileorg::serialize::{PackedSize, Serializable, SerializeError, SortKey};

fn agencia(codigo: u32, nome: &str, gerente: u32) -> Agencia {
    Agencia { codigo, nome: nome.to_string(), codigo_gerente: gerente }
}

#[test]
fn agencia_record_layout() {
    let mut f = MemFile::new();
    agencia(0x0a0b0c0d, "Centro", 3).serialize(&mut f).unwrap();
    let b = f.into_bytes();
    assert_eq!(b.len(), 58);
    assert_eq!(&b[0..4], &[0x0a, 0x0b, 0x0c, 0x0d]);
    assert_eq!(&b[4..10], b"Centro");
    assert!(b[10..54].iter().all(|&x| x == 0));
    assert_eq!(&b[54..58], &[0, 0, 0, 3]);
}

#[test]
fn agencia_roundtrip() {
    let mut f = MemFile::new();
    agencia(12, "Jardim América", 99).serialize(&mut f).unwrap();
    agencia(13, "Sé", 100).serialize(&mut f).unwrap();
    f.seek(SeekFrom::Start(0)).unwrap();
    let a = Agencia::deserialize(&mut f).unwrap();
    assert_eq!((a.codigo, a.nome.as_str(), a.codigo_gerente), (12, "Jardim América", 99));
    let b = Agencia::deserialize(&mut f).unwrap();
    assert_eq!((b.codigo, b.nome.as_str(), b.codigo_gerente), (13, "Sé", 100));
    assert!(matches!(
        Agencia::deserialize(&mut f),
        Err(SerializeError::Io(IoError::UnexpectedEof))
    ));
}

#[test]
fn agencia_truncated_record_is_eof() {
    let mut f = MemFile::new();
    agencia(1, "x", 2).serialize(&mut f).unwrap();
    let mut bytes = f.into_bytes();
    bytes.truncate(56);
    let mut g = MemFile::from_bytes(bytes);
    assert!(matches!(
        Agencia::deserialize(&mut g),
        Err(SerializeError::Io(IoError::UnexpectedEof))
    ));
    assert_eq!(g.position(), 56);
}

#[test]
fn agencia_sort_key_is_codigo() {
    assert_eq!(agencia(42, "a", 1).sort_key(), 42);
}

#[test]
fn cliente_record_layout_and_roundtrip() {
    let mut f = MemFile::new();
    Cliente { codigo: 5, nome: "Clay Town".to_string() }.serialize(&mut f).unwrap();
    assert_eq!(f.len(), 104);
    f.seek(SeekFrom::Start(0)).unwrap();
    let c = Cliente::deserialize(&mut f).unwrap();
    assert_eq!(c.codigo, 5);
    assert_eq!(c.nome, "Clay Town");
}

#[test]
fn cliente_packed_size() {
    assert_eq!(Cliente::packed_size(), 132);
    assert_eq!(Record::<Cliente>::packed_size(), 132 + 64 + 64 + std::mem::size_of::<bool>());
}

#[test]
fn record_from_t() {
    let r = Record::from_t(7u32, 9);
    assert_eq!(r.val, 7);
    assert_eq!(r.key, 9);
    assert_eq!(r.next, -1);
    assert!(r.valid);
}

#[test]
fn record_roundtrip() {
    let mut f = MemFile::new();
    let mut r = Record::from_t(Cliente { codigo: 3, nome: "Motocicleberson".to_string() }, 3);
    r.next = 248;
    r.serialize(&mut f).unwrap();
    let bytes = f.as_bytes().clone();
    assert_eq!(bytes.len(), 124);
    assert_eq!(&bytes[104..112], &[0, 0, 0, 0, 0, 0, 0, 3]);
    assert_eq!(&bytes[112..120], &[0, 0, 0, 0, 0, 0, 0, 248]);
    assert_eq!(&bytes[120..124], &[0, 0, 0, 1]);
    f.seek(SeekFrom::Start(0)).unwrap();
    let back = Record::<Cliente>::deserialize(&mut f).unwrap();
    assert_eq!(back.val.codigo, 3);
    assert_eq!(back.val.nome, "Motocicleberson");
    assert_eq!((back.key, back.next, back.valid), (3, 248, true));
}

#[test]
fn zeroed_record_reads_as_not_in_use() {
    let mut f = MemFile::from_bytes(vec![0; 124]);
    let r = Record::<Cliente>::deserialize(&mut f).unwrap();
    assert!(!r.valid);
    assert_eq!(r.val.nome, "");
    assert_eq!((r.key, r.next), (0, 0));
}

fn dated_record(codigo: u32, nome: &str, secs: i64) -> Vec<u8> {
    let mut b = codigo.to_be_bytes().to_vec();
    let mut name = nome.as_bytes().to_vec();
    name.resize(50, 0);
    b.extend(name);
    b.extend(secs.to_be_bytes());
    b
}

#[test]
fn dated_cliente_date_is_refused_by_chrono() {
    let mut f = MemFile::from_bytes(dated_record(1, "aaa", 0));
    assert!(matches!(
        dated_cliente::Cliente::deserialize(&mut f),
        Err(SerializeError::Chrono)
    ));
    assert_eq!(f.position(), 62);
    let mut g = MemFile::from_bytes(dated_record(2, "bbb", -86_400));
    assert!(matches!(
        dated_cliente::Cliente::deserialize(&mut g),
        Err(SerializeError::Chrono)
    ));
}

#[test]
fn dated_cliente_short_record_is_eof() {
    let mut b = dated_record(1, "aaa", 0);
    b.truncate(60);
    let mut f = MemFile::from_bytes(b);
    assert!(matches!(
        dated_cliente::Cliente::deserialize(&mut f),
        Err(SerializeError::Io(IoError::UnexpectedEof))
    ));
    assert_eq!(f.position(), 60);
}

#[test]
fn dated_cliente_bad_name_is_utf8_error() {
    let mut bytes = vec![0u8; 62];
    bytes[4] = 0xc3;
    let mut f = MemFile::from_bytes(bytes);
    assert!(matches!(
        dated_cliente::Cliente::deserialize(&mut f),
        Err(SerializeError::Utf8)
    ));
    assert_eq!(f.position(), 54);
}

#[test]
fn agencias_compare_by_code_alone() {
    assert!(agencia(3, "a", 1) == agencia(3, "b", 2));
    assert!(agencia(3, "a", 1) != agencia(4, "a", 1));
    assert!(agencia(2, "z", 9) < agencia(3, "a", 0));
    assert_eq!(agencia(5, "a", 1).partial_cmp(&agencia(4, "b", 2)), Some(Ordering::Greater));
    assert_eq!(agencia(5, "a", 1).partial_cmp(&agencia(5, "b", 2)), Some(Ordering::Equal));
}

#[test]
fn clientes_compare_by_code_alone() {
    assert!(Cliente { codigo: 1, nome: "x".to_string() } == Cliente { codigo: 1, nome: "y".to_string() });
    assert!(Cliente { codigo: 1, nome: "x".to_string() } < Cliente { codigo: 2, nome: "a".to_string() });
    let a = dated_cliente::Cliente { codigo: 9, nome: "a".to_string(), data_nascimento: 5 };
    let b = dated_cliente::Cliente { codigo: 7, nome: "a".to_string(), data_nascimento: 5 };
    assert!(b < a);
    assert!(a != b);
}
