use fileorg::cliente::Cliente;
use fileorg::hash_table::FileHashTable;
use fileorg::inner_link::InnerLinkingFileHashTable;
use fileorg::memfile::{IoError, MemFile, SeekFrom};
use fileorg::record::Record;
use fileorg::serialize::{Serializable, SerializeError};

fn cliente(codigo: u32, nome: &str) -> Cliente {
    Cliente { codigo, nome: nome.to_string() }
}

fn record_bytes(c: Cliente, key: u64, next: i64, valid: bool) -> Vec<u8> {
    let mut f = MemFile::new();
    let mut r = Record::from_t(c, key);
    r.next = next;
    r.valid = valid;
    r.serialize(&mut f).unwrap();
    f.into_bytes()
}

fn read_record(bytes: &[u8], at: usize) -> Record<Cliente> {
    let mut f = MemFile::from_bytes(bytes.to_vec());
    f.seek(SeekFrom::Start(at as u64)).unwrap();
    Record::<Cliente>::deserialize(&mut f).unwrap()
}

fn slot(table: &[u8], h: usize) -> i64 {
    let mut b = [0u8; 8];
    b.copy_from_slice(&table[8 * h..8 * h + 8]);
    i64::from_be_bytes(b)
}

fn new_table() -> FileHashTable<Cliente> {
    FileHashTable::<Cliente>::new(MemFile::new(), MemFile::new(), 7)
}

#[test]
fn new_table_has_empty_buckets() {
    let (table, entries) = new_table().into_files();
    assert_eq!(table.as_bytes().len(), 56);
    for h in 0..7 {
        assert_eq!(slot(table.as_bytes(), h), -1);
    }
    assert_eq!(entries.len(), 0);
}

#[test]
fn insert_delete_search_scenario() {
    let mut table = new_table();
    let c = cliente(0, "Motocicleberson");
    table.insert(c.codigo as u64, c).unwrap();
    let c = cliente(1, "Clay Town");
    table.insert(c.codigo as u64, c.clone()).unwrap();
    table.delete(c.codigo as u64).unwrap();
    let moto = table.search(0).unwrap();
    assert_eq!(moto.nome, "Motocicleberson");
    assert_eq!(moto.codigo, 0);

    let (t, e) = table.into_files();
    assert_eq!(slot(t.as_bytes(), 0), 0);
    assert_eq!(slot(t.as_bytes(), 1), -1);
    let mut expected = record_bytes(cliente(0, "Motocicleberson"), 0, -1, true);
    expected.extend(record_bytes(cliente(1, "Clay Town"), 1, -1, false));
    assert_eq!(e.as_bytes(), &expected);
}

#[test]
fn search_follows_the_chain() {
    let mut table = new_table();
    table.insert(1, cliente(1, "um")).unwrap();
    table.insert(8, cliente(8, "oito")).unwrap();
    table.insert(15, cliente(15, "quinze")).unwrap();
    assert_eq!(table.search(15).unwrap().nome, "quinze");
    assert_eq!(table.search(8).unwrap().nome, "oito");
    assert_eq!(table.search(1).unwrap().nome, "um");
    let (t, e) = table.into_files();
    assert_eq!(slot(t.as_bytes(), 1), 0);
    assert_eq!(read_record(e.as_bytes(), 0).next, 124);
    assert_eq!(read_record(e.as_bytes(), 124).next, 248);
    assert_eq!(read_record(e.as_bytes(), 248).next, -1);
}

#[test]
fn insert_of_present_key_changes_nothing() {
    let mut table = new_table();
    table.insert(3, cliente(3, "três")).unwrap();
    let (t0, e0) = {
        let (t, e) = table.into_files();
        (t.into_bytes(), e.into_bytes())
    };
    let mut table = FileHashTable::<Cliente>::open(MemFile::from_bytes(t0.clone()), MemFile::from_bytes(e0.clone()), 7);
    table.insert(3, cliente(99, "outro")).unwrap();
    let (t, e) = table.into_files();
    assert_eq!(t.as_bytes(), &t0);
    assert_eq!(e.as_bytes(), &e0);
}

#[test]
fn delete_from_middle_of_chain_unlinks() {
    let mut table = new_table();
    table.insert(1, cliente(1, "um")).unwrap();
    table.insert(8, cliente(8, "oito")).unwrap();
    table.insert(15, cliente(15, "quinze")).unwrap();
    table.delete(8).unwrap();
    assert_eq!(table.search(15).unwrap().codigo, 15);
    let (_, e) = table.into_files();
    assert_eq!(read_record(e.as_bytes(), 0).next, 248);
    let gone = read_record(e.as_bytes(), 124);
    assert!(!gone.valid);
    assert_eq!(gone.next, -1);
}

#[test]
fn delete_of_chain_head_empties_the_bucket() {
    let mut table = new_table();
    table.insert(1, cliente(1, "um")).unwrap();
    table.insert(8, cliente(8, "oito")).unwrap();
    table.delete(1).unwrap();
    let (t, e) = table.into_files();
    assert_eq!(slot(t.as_bytes(), 1), -1);
    assert!(!read_record(e.as_bytes(), 0).valid);
    assert!(read_record(e.as_bytes(), 124).valid);
}

#[test]
fn delete_of_absent_key_is_invalid_input() {
    let mut table = new_table();
    table.insert(1, cliente(1, "um")).unwrap();
    assert_eq!(table.delete(8), Err(SerializeError::Io(IoError::InvalidInput)));
    assert_eq!(table.search(1).unwrap().codigo, 1);
}

#[test]
fn insert_into_empty_bucket_reuses_a_freed_record() {
    let mut table = new_table();
    table.insert(1, cliente(1, "um")).unwrap();
    table.insert(2, cliente(2, "dois")).unwrap();
    table.delete(1).unwrap();
    table.insert(3, cliente(3, "três")).unwrap();
    assert_eq!(table.search(3).unwrap().nome, "três");
    let (t, e) = table.into_files();
    assert_eq!(slot(t.as_bytes(), 3), 0);
    assert_eq!(e.as_bytes().len(), 248);
}

#[test]
fn insert_into_chain_with_freed_record_writes_after_it() {
    let mut table = new_table();
    table.insert(1, cliente(1, "um")).unwrap();
    table.insert(2, cliente(2, "dois")).unwrap();
    table.insert(3, cliente(3, "três")).unwrap();
    table.delete(2).unwrap();
    table.insert(8, cliente(8, "oito")).unwrap();
    let (_, e) = table.into_files();
    assert_eq!(read_record(e.as_bytes(), 0).next, 124);
    let written = read_record(e.as_bytes(), 248);
    assert_eq!(written.key, 8);
    assert_eq!(written.val.nome, "oito");
    assert!(!read_record(e.as_bytes(), 124).valid);
}

#[test]
fn inner_table_starts_zeroed() {
    let table = InnerLinkingFileHashTable::<Cliente>::new(MemFile::new(), 7);
    let slot_len = 132 + 64 + 64 + std::mem::size_of::<bool>();
    let bytes = table.into_file().into_bytes();
    assert_eq!(bytes.len(), 7 * slot_len);
    assert!(bytes.iter().all(|&b| b == 0));
}

#[test]
fn inner_insert_scenario() {
    let mut table = InnerLinkingFileHashTable::<Cliente>::new(MemFile::new(), 7);
    let c = cliente(0, "AAAAAA");
    table.insert(c.codigo as u64, c).unwrap();
    let bytes = table.into_file().into_bytes();
    let slot_len = 132 + 64 + 64 + std::mem::size_of::<bool>();
    assert_eq!(bytes.len(), 7 * slot_len);
    let expected = record_bytes(cliente(0, "AAAAAA"), 0, -1, true);
    assert_eq!(&bytes[0..124], &expected[..]);
    assert!(bytes[124..].iter().all(|&b| b == 0));
}

#[test]
fn inner_insert_into_used_slot_links_next_free_record() {
    let mut table = InnerLinkingFileHashTable::<Cliente>::new(MemFile::new(), 7);
    table.insert(0, cliente(0, "zero")).unwrap();
    table.insert(7, cliente(7, "sete")).unwrap();
    let bytes = table.into_file().into_bytes();
    let head = read_record(&bytes, 0);
    assert_eq!(head.key, 0);
    assert_eq!(head.next, 124);
    let second = read_record(&bytes, 124);
    assert_eq!((second.key, second.next, second.valid), (7, -1, true));
    assert_eq!(second.val.nome, "sete");
}

#[test]
fn inner_insert_into_other_slot() {
    let mut table = InnerLinkingFileHashTable::<Cliente>::new(MemFile::new(), 7);
    table.insert(2, cliente(2, "dois")).unwrap();
    let bytes = table.into_file().into_bytes();
    let slot_len = 132 + 64 + 64 + std::mem::size_of::<bool>();
    let r = read_record(&bytes, 2 * slot_len);
    assert_eq!((r.key, r.valid), (2, true));
    assert!(bytes[..2 * slot_len].iter().all(|&b| b == 0));
}

#[test]
fn table_with_a_chain_through_a_freed_record_still_answers() {
    let mut table = new_table();
    table.insert(0, cliente(0, "a")).unwrap();
    table.insert(1, cliente(1, "b")).unwrap();
    table.delete(1).unwrap();
    table.insert(7, cliente(7, "c")).unwrap();
    let found = table.search(0).unwrap();
    assert_eq!(found.nome, "a");
    table.delete(0).unwrap();
    let (t, e) = table.into_files();
    assert_eq!(slot(t.as_bytes(), 0), -1);
    let first = read_record(e.as_bytes(), 0);
    assert!(!first.valid);
    assert_eq!(first.next, -1);
}

#[test]
fn short_table_file_is_an_unexpected_eof() {
    let mut table = FileHashTable::<Cliente>::open(MemFile::from_bytes(vec![0xff; 12]), MemFile::new(), 7);
    assert_eq!(table.search(3).err(), Some(SerializeError::Io(IoError::UnexpectedEof)));
    assert_eq!(table.insert(3, cliente(3, "x")), Err(SerializeError::Io(IoError::UnexpectedEof)));
    assert_eq!(table.delete(3), Err(SerializeError::Io(IoError::UnexpectedEof)));
}

#[test]
fn walk_follows_links_that_are_not_aligned() {
    let len = record_bytes(cliente(0, "x"), 0, -1, true).len();
    let mut entries = vec![0u8; 3];
    entries.extend(record_bytes(cliente(8, "far"), 8, -1, true));
    entries.extend(record_bytes(cliente(1, "head"), 1, 3, true));
    let mut slots = vec![0xffu8; 56];
    slots[8..16].copy_from_slice(&((3 + len) as i64).to_be_bytes());
    let mut table = FileHashTable::<Cliente>::open(MemFile::from_bytes(slots), MemFile::from_bytes(entries), 7);
    assert_eq!(table.search(8).unwrap().nome, "far");
    assert_eq!(table.search(1).unwrap().nome, "head");
}
