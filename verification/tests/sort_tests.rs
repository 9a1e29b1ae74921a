use fileorg::agencia::Agencia;
use fileorg::memfile::{MemFile, SeekFrom};
use fileorg::replacement_sort::{find, get_new, replacement, unfreeze_vec, FreezeWrapper};
use fileorg::serialize::Serializable;

fn agencia(codigo: u32) -> Agencia {
    Agencia { codigo, nome: format!("Agência {}", codigo), codigo_gerente: codigo + 1000 }
}

fn file_of(codes: &[u32]) -> MemFile {
    let mut f = MemFile::new();
    for &c in codes {
        agencia(c).serialize(&mut f).unwrap();
    }
    f.reopen()
}

fn codes_in(f: &MemFile) -> Vec<u32> {
    let mut g = f.reopen();
    let mut out = Vec::new();
    while let Ok(a) = Agencia::deserialize(&mut g) {
        assert_eq!(a.nome, format!("Agência {}", a.codigo));
        assert_eq!(a.codigo_gerente, a.codigo + 1000);
        out.push(a.codigo);
    }
    out
}

fn slot_code(w: &FreezeWrapper<Agencia>) -> Option<u32> {
    match w {
        FreezeWrapper::Active(a) => Some(a.codigo),
        _ => None,
    }
}

#[test]
fn find_picks_first_smallest_active() {
    let v = vec![
        FreezeWrapper::Active(agencia(5)),
        FreezeWrapper::Frozen(Some(agencia(1))),
        FreezeWrapper::Active(agencia(3)),
        FreezeWrapper::Inactive,
        FreezeWrapper::Active(agencia(3)),
    ];
    assert_eq!(find(&v), 2);
}

#[test]
fn find_skips_leading_empty_slots() {
    let v = vec![
        FreezeWrapper::Inactive,
        FreezeWrapper::Frozen(Some(agencia(1))),
        FreezeWrapper::Active(agencia(9)),
        FreezeWrapper::Inactive,
    ];
    assert_eq!(find(&v), 2);
}

#[test]
fn find_without_active_slot_is_last() {
    let v: Vec<FreezeWrapper<Agencia>> = vec![
        FreezeWrapper::Frozen(Some(agencia(1))),
        FreezeWrapper::Inactive,
        FreezeWrapper::Frozen(Some(agencia(2))),
    ];
    assert_eq!(find(&v), 2);
    let empty: Vec<FreezeWrapper<Agencia>> = Vec::new();
    assert_eq!(find(&empty), 0);
}

#[test]
fn get_new_sorts_the_next_record() {
    let mut f = file_of(&[7, 3]);
    match get_new(&mut f, &agencia(5)) {
        FreezeWrapper::Active(a) => assert_eq!(a.codigo, 7),
        _ => panic!("expected an active slot"),
    }
    match get_new(&mut f, &agencia(5)) {
        FreezeWrapper::Frozen(Some(a)) => assert_eq!(a.codigo, 3),
        _ => panic!("expected a frozen slot"),
    }
    assert!(matches!(get_new(&mut f, &agencia(5)), FreezeWrapper::Inactive));
}

#[test]
fn get_new_equal_key_stays_active() {
    let mut f = file_of(&[5]);
    assert!(matches!(get_new(&mut f, &agencia(5)), FreezeWrapper::Active(_)));
}

#[test]
fn unfreeze_vec_activates_waiting_records() {
    let mut v = vec![
        FreezeWrapper::Frozen(Some(agencia(4))),
        FreezeWrapper::Inactive,
        FreezeWrapper::Active(agencia(8)),
        FreezeWrapper::Frozen(Some(agencia(2))),
    ];
    unfreeze_vec(&mut v);
    assert_eq!(v.len(), 4);
    assert_eq!(slot_code(&v[0]), Some(4));
    assert!(matches!(v[1], FreezeWrapper::Inactive));
    assert_eq!(slot_code(&v[2]), Some(8));
    assert_eq!(slot_code(&v[3]), Some(2));
}

#[test]
fn replacement_two_runs() {
    let mut input = file_of(&[10, 20, 30, 40, 50, 60, 70, 1, 2, 3, 4, 5, 6, 7]);
    let before = input.as_bytes().clone();
    let buckets = replacement::<Agencia>(&mut input).unwrap();
    assert_eq!(buckets.len(), 2);
    assert_eq!(codes_in(&buckets[0]), vec![10, 20, 30, 40, 50, 60, 70]);
    assert_eq!(codes_in(&buckets[1]), vec![1, 2, 3, 4, 5, 6, 7]);
    assert_eq!(input.as_bytes(), &before);
}

#[test]
fn replacement_drops_records_waiting_when_last_slot_empties() {
    let mut input = file_of(&[50, 20, 70, 10, 90, 30, 60, 40, 80, 5, 15]);
    let buckets = replacement::<Agencia>(&mut input).unwrap();
    assert_eq!(buckets.len(), 1);
    assert_eq!(codes_in(&buckets[0]), vec![10, 20, 30, 40, 50, 60, 70, 80, 90]);
}

#[test]
fn replacement_of_exactly_seven_records() {
    let mut input = file_of(&[7, 6, 5, 4, 3, 2, 1]);
    let buckets = replacement::<Agencia>(&mut input).unwrap();
    assert_eq!(buckets.len(), 1);
    assert_eq!(codes_in(&buckets[0]), vec![1, 2, 3, 4, 5, 6, 7]);
}

#[test]
fn replacement_starts_at_the_cursor() {
    let mut input = file_of(&[100, 9, 8, 7, 6, 5, 4, 3]);
    input.seek(SeekFrom::Start(58)).unwrap();
    let buckets = replacement::<Agencia>(&mut input).unwrap();
    assert_eq!(buckets.len(), 1);
    assert_eq!(codes_in(&buckets[0]), vec![3, 4, 5, 6, 7, 8, 9]);
}

#[test]
fn sort_records_is_stable_by_key() {
    let v = vec![
        Agencia { codigo: 3, nome: "a".to_string(), codigo_gerente: 1 },
        Agencia { codigo: 1, nome: "b".to_string(), codigo_gerente: 2 },
        Agencia { codigo: 3, nome: "c".to_string(), codigo_gerente: 3 },
        Agencia { codigo: 2, nome: "d".to_string(), codigo_gerente: 4 },
    ];
    let s = fileorg::buckets::sort_records(v);
    let got: Vec<(u32, &str)> = s.iter().map(|a| (a.codigo, a.nome.as_str())).collect();
    assert_eq!(got, vec![(1, "b"), (2, "d"), (3, "a"), (3, "c")]);
}

#[test]
fn write_buckets_cuts_from_the_end() {
    let records: Vec<Agencia> = [9, 8, 7, 6, 5, 4, 3].iter().map(|&c| agencia(c)).collect();
    let buckets = fileorg::buckets::write_buckets(records, 3);
    assert_eq!(buckets.len(), 2);
    assert_eq!(codes_in(&buckets[0]), vec![3, 4, 5]);
    assert_eq!(codes_in(&buckets[1]), vec![6, 7, 8]);
    assert_eq!(buckets[0].len(), 3 * 58);
}

#[test]
fn write_buckets_with_too_few_records_writes_none() {
    let records: Vec<Agencia> = [1, 2].iter().map(|&c| agencia(c)).collect();
    assert!(fileorg::buckets::write_buckets(records, 400).is_empty());
}
