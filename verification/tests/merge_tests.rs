use fileorg::agencia::Agencia;
use fileorg::dated_cliente;
use fileorg::memfile::{IoError, MemFile};
use fileorg::nway_merge::{merge_files, nway_merge};
use fileorg::serialize::{Serializable, SerializeError};
use fileorg::tournament::{replace_root, Node, NodeZipper, Side, TWrapper};

fn agencia(codigo: u32) -> Agencia {
    Agencia { codigo, nome: format!("ag{}", codigo), codigo_gerente: 2 * codigo }
}

fn file_of(codes: &[u32]) -> MemFile {
    let mut f = MemFile::new();
    for &c in codes {
        agencia(c).serialize(&mut f).unwrap();
    }
    f.reopen()
}

fn codes_in(f: &MemFile) -> Vec<u32> {
    let mut g = f.reopen();
    let mut out = Vec::new();
    while let Ok(a) = Agencia::deserialize(&mut g) {
        assert_eq!(a.nome, format!("ag{}", a.codigo));
        assert_eq!(a.codigo_gerente, 2 * a.codigo);
        out.push(a.codigo);
    }
    out
}

fn wrapped(codes: &[u32]) -> Vec<TWrapper<Agencia>> {
    codes
        .iter()
        .enumerate()
        .map(|(i, &c)| TWrapper { wrap: agencia(c), file_idx: i })
        .collect()
}

fn leaves(n: &Node<TWrapper<Agencia>>, out: &mut Vec<(u32, usize)>) {
    match (&n.left, &n.right) {
        (Some(l), Some(r)) => {
            leaves(l, out);
            leaves(r, out);
        }
        _ => out.push((n.val.wrap.codigo, n.val.file_idx)),
    }
}

#[test]
fn construct_pairs_from_the_end() {
    let root = Node::construct(wrapped(&[40, 10, 30, 20, 50]));
    assert_eq!(root.val.wrap.codigo, 10);
    assert_eq!(root.val.file_idx, 1);
    let mut l = Vec::new();
    leaves(&root, &mut l);
    assert_eq!(l, vec![(10, 1), (30, 2), (40, 0), (20, 3), (50, 4)]);
}

#[test]
fn construct_single_value_is_a_leaf() {
    let root = Node::construct(wrapped(&[7]));
    assert!(root.left.is_none() && root.right.is_none());
    assert_eq!(root.val.wrap.codigo, 7);
}

#[test]
fn choose_winner_prefers_right_on_tie() {
    let l = Node::new_leaf(TWrapper { wrap: agencia(5), file_idx: 0 });
    let r = Node::new_leaf(TWrapper { wrap: agencia(5), file_idx: 1 });
    let n = Node::choose_winner(l, r);
    assert_eq!(n.val.file_idx, 1);
    let l = Node::new_leaf(TWrapper { wrap: agencia(4), file_idx: 0 });
    let r = Node::new_leaf(TWrapper { wrap: agencia(5), file_idx: 1 });
    assert_eq!(Node::choose_winner(l, r).val.file_idx, 0);
}

#[test]
fn replace_root_with_new_value_replays_matches() {
    let root = Node::construct(wrapped(&[40, 10, 30, 20]));
    let root = replace_root(root, Some(agencia(35))).unwrap();
    assert_eq!(root.val.wrap.codigo, 20);
    assert_eq!(root.val.file_idx, 3);
    let mut l = Vec::new();
    leaves(&root, &mut l);
    assert_eq!(l, vec![(30, 2), (20, 3), (40, 0), (35, 1)]);
}

#[test]
fn replace_root_without_value_drops_the_leaf() {
    let root = Node::construct(wrapped(&[40, 10, 30]));
    let root = replace_root(root, None).unwrap();
    assert_eq!(root.val.wrap.codigo, 30);
    let mut l = Vec::new();
    leaves(&root, &mut l);
    assert_eq!(l.len(), 2);
    assert!(l.contains(&(40, 0)) && l.contains(&(30, 2)));
    let root = replace_root(root, None).unwrap();
    assert_eq!(root.val.wrap.codigo, 40);
    assert!(root.left.is_none() && root.right.is_none());
    assert!(replace_root(root, None).is_none());
}

#[test]
fn merge_files_merges_sorted_files() {
    let tail = vec![file_of(&[1, 4, 9]), file_of(&[2, 3, 10, 11]), file_of(&[5])];
    let out = merge_files::<Agencia>(tail).unwrap();
    assert_eq!(out.position(), 0);
    assert_eq!(codes_in(&out), vec![1, 2, 3, 4, 5, 9, 10, 11]);
    assert_eq!(out.len(), 8 * 58);
}

#[test]
fn merge_files_of_unsorted_files_keeps_every_record() {
    let tail = vec![file_of(&[9, 1]), file_of(&[5, 7, 3])];
    let out = merge_files::<Agencia>(tail).unwrap();
    assert_eq!(codes_in(&out), vec![5, 7, 3, 9, 1]);
}

#[test]
fn merge_files_with_empty_file_fails() {
    let tail = vec![file_of(&[1]), MemFile::new(), file_of(&[2])];
    assert!(matches!(
        merge_files::<Agencia>(tail),
        Err(SerializeError::Io(IoError::UnexpectedEof))
    ));
}

#[test]
fn merge_files_stops_a_file_at_a_bad_record() {
    let mut bad = file_of(&[6, 8]).into_bytes();
    bad.extend(vec![0xffu8; 4]);
    bad.extend(vec![0xffu8; 54]);
    let tail = vec![MemFile::from_bytes(bad), file_of(&[7])];
    let out = merge_files::<Agencia>(tail).unwrap();
    assert_eq!(codes_in(&out), vec![6, 7, 8]);
}

#[test]
fn nway_merge_three_at_a_time() {
    let files = vec![
        file_of(&[1, 10]),
        file_of(&[2, 20]),
        file_of(&[3, 30]),
        file_of(&[4, 40]),
        file_of(&[5, 50]),
    ];
    let outs = nway_merge::<Agencia>(files, 3).unwrap();
    assert_eq!(outs.len(), 4);
    assert_eq!(codes_in(&outs[0]), vec![4, 5, 40, 50]);
    assert_eq!(codes_in(&outs[1]), vec![3, 4, 5, 30, 40, 50]);
    assert_eq!(codes_in(&outs[2]), vec![2, 3, 4, 5, 20, 30, 40, 50]);
    assert_eq!(codes_in(&outs[3]), vec![1, 2, 3, 4, 5, 10, 20, 30, 40, 50]);
}

#[test]
fn nway_merge_wide_merges_in_one_round() {
    let files = vec![file_of(&[3]), file_of(&[1]), file_of(&[2])];
    let outs = nway_merge::<Agencia>(files, 12).unwrap();
    assert_eq!(outs.len(), 1);
    assert_eq!(codes_in(&outs[0]), vec![1, 2, 3]);
}

#[test]
fn nway_merge_of_one_file_does_nothing() {
    let outs = nway_merge::<Agencia>(vec![file_of(&[3, 1])], 3).unwrap();
    assert!(outs.is_empty());
    let outs = nway_merge::<Agencia>(Vec::new(), 0).unwrap();
    assert!(outs.is_empty());
}

#[test]
fn nway_merge_reports_first_empty_file_of_the_failing_round() {
    let files = vec![file_of(&[1]), MemFile::new(), file_of(&[2]), file_of(&[3])];
    assert!(matches!(
        nway_merge::<Agencia>(files, 3),
        Err(SerializeError::Io(IoError::UnexpectedEof))
    ));
}

fn dated_file(codigo: u32, nome: &str) -> MemFile {
    let mut b = codigo.to_be_bytes().to_vec();
    let mut name = nome.as_bytes().to_vec();
    name.resize(50, 0);
    b.extend(name);
    b.extend(0i64.to_be_bytes());
    MemFile::from_bytes(b)
}

#[test]
fn nway_merge_of_dated_clients_fails_on_the_date() {
    let files = vec![dated_file(2, "aaa"), dated_file(1, "bbb")];
    assert!(matches!(
        nway_merge::<dated_cliente::Cliente>(files, 12),
        Err(SerializeError::Chrono)
    ));
}

#[test]
fn wrapped_values_compare_as_their_values() {
    let a = TWrapper { wrap: agencia(3), file_idx: 0 };
    let b = TWrapper { wrap: agencia(3), file_idx: 5 };
    let c = TWrapper { wrap: agencia(4), file_idx: 0 };
    assert!(a == b);
    assert!(a < c);
    assert!(!(c < b));
}

#[test]
fn io_errors_convert_to_serialize_errors() {
    assert_eq!(SerializeError::from(IoError::InvalidInput), SerializeError::Io(IoError::InvalidInput));
}

fn is_leaf(n: &Node<TWrapper<Agencia>>, code: u32, idx: usize) -> bool {
    n.left.is_none() && n.right.is_none() && n.val.wrap.codigo == code && n.val.file_idx == idx
}

#[test]
fn construct_three_values_shape() {
    let root = Node::construct(wrapped(&[3, 1, 2]));
    assert_eq!(root.val.wrap.codigo, 1);
    let l = root.left.as_ref().unwrap();
    assert_eq!(l.val.wrap.codigo, 1);
    assert!(is_leaf(l.left.as_ref().unwrap(), 1, 1));
    assert!(is_leaf(l.right.as_ref().unwrap(), 2, 2));
    assert!(is_leaf(root.right.as_ref().unwrap(), 3, 0));
}

#[test]
fn replace_root_on_tie_replaces_right_leaf() {
    let root = Node::construct(wrapped(&[5, 5]));
    assert_eq!(root.val.file_idx, 1);
    let r = replace_root(root, Some(agencia(7))).unwrap();
    assert_eq!((r.val.wrap.codigo, r.val.file_idx), (5, 0));
    assert!(is_leaf(r.left.as_ref().unwrap(), 5, 0));
    assert!(is_leaf(r.right.as_ref().unwrap(), 7, 1));
}

#[test]
fn replace_root_without_value_promotes_sibling() {
    let root = Node::construct(wrapped(&[1, 2, 3]));
    let r = replace_root(root, None).unwrap();
    assert_eq!((r.val.wrap.codigo, r.val.file_idx), (2, 1));
    assert!(is_leaf(r.left.as_ref().unwrap(), 2, 1));
    assert!(is_leaf(r.right.as_ref().unwrap(), 3, 2));
}

#[test]
fn zipper_moves_then_finish_give_the_tree_back() {
    let root = Node::construct(wrapped(&[3, 1, 2]));
    let z = NodeZipper { node: root, parent: None, side: Side::Left };
    let z = z.child(Side::Left).child(Side::Right).parent().parent().child(Side::Right);
    assert!(is_leaf(&z.node, 3, 0));
    let t = z.finish();
    assert_eq!(t.val.wrap.codigo, 1);
    let l = t.left.as_ref().unwrap();
    assert!(is_leaf(l.left.as_ref().unwrap(), 1, 1));
    assert!(is_leaf(l.right.as_ref().unwrap(), 2, 2));
    assert!(is_leaf(t.right.as_ref().unwrap(), 3, 0));
}

#[test]
fn merge_of_equal_keys_takes_the_later_file_first() {
    let mut a = MemFile::new();
    Agencia { codigo: 5, nome: "first".to_string(), codigo_gerente: 0 }.serialize(&mut a).unwrap();
    let mut b = MemFile::new();
    Agencia { codigo: 5, nome: "second".to_string(), codigo_gerente: 0 }.serialize(&mut b).unwrap();
    Agencia { codigo: 6, nome: "third".to_string(), codigo_gerente: 0 }.serialize(&mut b).unwrap();
    let out = merge_files::<Agencia>(vec![a.reopen(), b.reopen()]).unwrap();
    let mut g = out.reopen();
    let names: Vec<String> = (0..3).map(|_| Agencia::deserialize(&mut g).unwrap().nome).collect();
    assert_eq!(names, vec!["second", "first", "third"]);
}
