//! N-way merging: the records of several files merged into one file with a tournament
//! tree, a few files at a time, until one file is left.
use vstd::prelude::*;
use vstd::multiset::Multiset;
use crate::memfile::{MemFile, rest_of, lemma_write_at_end, lemma_rest_advance};
use crate::serialize::{Serializable, SerializeError, SortKey, records_of, serialized_seq, lemma_records_step};
use crate::replacement_sort::lemma_serialized_push;
use crate::replacement_sort::sorted_by_key;
use crate::tournament::{Duplicate, TWrapper, Node, tree_ok, leaves, idx_distinct, pos_of_idx, replace_root, lemma_root_is_min, TreeView, tree_view, build_tree, tv_leaves, tv_winner, set_leaf, remove_leaf, leaf_count, lemma_tree_view_facts};

verus! {

/// The records that can be read from a file, from its cursor up to the first failed read.
pub open spec fn file_records<T: Serializable>(f: MemFile) -> Seq<T::V> {
    records_of::<T>(f.rest())
}

/// The error of a read from a file that has no record left to read.
pub open spec fn read_error<T: Serializable>(f: MemFile) -> Option<SerializeError> {
    if file_records::<T>(f).len() > 0 {
        None
    } else {
        Some(T::spec_deserialize(f.rest()).0->Err_0)
    }
}

/// The error of the first file of `fs`, from index `i` on, that has no record.
pub open spec fn first_error_from<T: Serializable>(fs: Seq<MemFile>, i: int) -> Option<SerializeError>
    decreases fs.len() - i,
{
    if i < 0 || i >= fs.len() {
        None
    } else {
        match read_error::<T>(fs[i]) {
            Some(e) => Some(e),
            None => first_error_from::<T>(fs, i + 1),
        }
    }
}

/// The error of the first file of `fs` that has no record.
pub open spec fn first_error<T: Serializable>(fs: Seq<MemFile>) -> Option<SerializeError> {
    first_error_from::<T>(fs, 0)
}

/// All the values of the sequences of `s`, counted with multiplicity.
pub open spec fn seqs_ms<V>(s: Seq<Seq<V>>) -> Multiset<V>
    decreases s.len(),
{
    if s.len() == 0 {
        Multiset::empty()
    } else {
        seqs_ms(s.drop_last()).add(s.last().to_multiset())
    }
}

/// The records of each file of `fs`.
pub open spec fn records_of_files<T: Serializable>(fs: Seq<MemFile>) -> Seq<Seq<T::V>> {
    fs.map_values(|f: MemFile| file_records::<T>(f))
}

/// The records of all the files of `fs`, counted with multiplicity.
pub open spec fn union_ms<T: Serializable>(fs: Seq<MemFile>) -> Multiset<T::V> {
    seqs_ms(records_of_files::<T>(fs))
}

/// No sequence of `s` starts with a value of smaller key than `v`.
pub open spec fn smallest_head<T: SortKey>(s: Seq<Seq<T::V>>, v: T::V) -> bool {
    forall|j: int| 0 <= j < s.len() && s[j].len() > 0 ==> T::key_of(v) <= T::key_of(#[trigger] s[j][0])
}

/// `out` is what writing, one value at a time, a first value of smallest key among the
/// sequences makes of `recs`, leaving `rem`: each value written was the first of one of the
/// sequences, and none of them started with a value of smaller key.
pub open spec fn greedy_steps<T: SortKey>(out: Seq<T::V>, recs: Seq<Seq<T::V>>, rem: Seq<Seq<T::V>>) -> bool
    decreases out.len(),
{
    if out.len() == 0 {
        rem == recs
    } else {
        exists|i: int|
            0 <= i < rem.len() && #[trigger] smallest_head::<T>(rem.update(i, seq![out.last()] + rem[i]), out.last())
                && greedy_steps::<T>(out.drop_last(), recs, rem.update(i, seq![out.last()] + rem[i]))
    }
}

/// `out` merges the sequences of `recs` to their ends, each value written being a first
/// value of smallest key among what was left of them.
pub open spec fn greedy_merge<T: SortKey>(out: Seq<T::V>, recs: Seq<Seq<T::V>>) -> bool {
    greedy_steps::<T>(out, recs, Seq::new(recs.len(), |i: int| Seq::<T::V>::empty()))
}

/// The records that the tournament over the tree of heads `t` writes, where `rem[i]` holds
/// the records of file `i` from its head in `t` on: the winner of the tree is written, and
/// its leaf takes the next record of its file, or, where that file has no more, leaves the
/// tree (the last leaf ends the tournament); at most `fuel` records.
pub open spec fn tournament_out<T: SortKey>(t: TreeView<(T::V, usize)>, rem: Seq<Seq<T::V>>, fuel: nat) -> Seq<T::V>
    decreases fuel,
{
    if fuel == 0 {
        Seq::empty()
    } else {
        let w = tv_winner::<TWrapper<T>>(t);
        let p = pos_of_idx(tv_leaves(t), w.1);
        let d = rem[w.1 as int].drop_first();
        let rem2 = rem.update(w.1 as int, d);
        if d.len() > 0 {
            seq![w.0] + tournament_out::<T>(set_leaf(t, p, (d[0], w.1)), rem2, (fuel - 1) as nat)
        } else if leaf_count(t) > 1 {
            seq![w.0] + tournament_out::<T>(remove_leaf(t, p), rem2, (fuel - 1) as nat)
        } else {
            seq![w.0]
        }
    }
}

/// The merge of the sequences of `recs` by a tournament: the tree built from their first
/// values, each tagged with the index of its sequence, in order.
pub open spec fn tournament_merge<T: SortKey>(recs: Seq<Seq<T::V>>) -> Seq<T::V> {
    tournament_out::<T>(
        build_tree(Seq::new(recs.len(), |i: int| TreeView::Leaf((recs[i][0], i as usize)))),
        recs,
        seqs_ms(recs).len(),
    )
}

/// The records of every file of `fs` are ordered by key.
pub open spec fn all_sorted<T: Serializable + SortKey>(fs: Seq<MemFile>) -> bool {
    forall|i: int| 0 <= i < fs.len() ==> sorted_by_key::<T>(#[trigger] file_records::<T>(fs[i]))
}

/// The sum of the lengths of the files of `fs`.
pub open spec fn total_len(fs: Seq<MemFile>) -> nat
    decreases fs.len(),
{
    if fs.len() == 0 {
        0
    } else {
        total_len(fs.drop_last()) + fs.last().bytes().len()
    }
}

/// A value that is written as a record that reads back as the same value.
pub open spec fn readable<T: Serializable>(v: T::V) -> bool {
    T::spec_deserialize(T::spec_serialize(v)) == (Ok::<T::V, SerializeError>(v), T::encoded_len())
}

proof fn lemma_seqs_ms_update<V>(s: Seq<Seq<V>>, i: int, x: Seq<V>)
    requires
        0 <= i < s.len(),
    ensures
        seqs_ms(s.update(i, x)).add(s[i].to_multiset()) == seqs_ms(s).add(x.to_multiset()),
    decreases s.len(),
{
    broadcast use vstd::multiset::group_multiset_axioms;

    let u = s.update(i, x);
    if i == s.len() - 1 {
        assert(u.drop_last() =~= s.drop_last());
        assert(seqs_ms(u).add(s[i].to_multiset()) =~= seqs_ms(s).add(x.to_multiset()));
    } else {
        lemma_seqs_ms_update(s.drop_last(), i, x);
        assert(u.drop_last() =~= s.drop_last().update(i, x));
        assert(u.last() == s.last());
        assert(s.drop_last()[i] == s[i]);
        let a = seqs_ms(u.drop_last());
        let b = seqs_ms(s.drop_last());
        let c = s.last().to_multiset();
        assert(a.add(s[i].to_multiset()) == b.add(x.to_multiset()));
        assert(seqs_ms(u) == a.add(c));
        assert(seqs_ms(s) == b.add(c));
        assert forall|v: V| #[trigger] seqs_ms(u).add(s[i].to_multiset()).count(v) == seqs_ms(s).add(x.to_multiset()).count(v) by {
            assert(a.add(s[i].to_multiset()).count(v) == b.add(x.to_multiset()).count(v));
        }
        assert(seqs_ms(u).add(s[i].to_multiset()) =~= seqs_ms(s).add(x.to_multiset()));
    }
}

proof fn lemma_seqs_ms_len<V>(s: Seq<Seq<V>>, i: int)
    requires
        0 <= i < s.len(),
    ensures
        seqs_ms(s).len() >= s[i].len(),
    decreases s.len(),
{
    broadcast use vstd::multiset::group_multiset_axioms;
    broadcast use vstd::seq_lib::group_to_multiset_ensures;

    if i < s.len() - 1 {
        lemma_seqs_ms_len(s.drop_last(), i);
    }
}

proof fn lemma_seqs_ms_all_empty<V>(s: Seq<Seq<V>>)
    requires
        forall|i: int| 0 <= i < s.len() ==> (#[trigger] s[i]).len() == 0,
    ensures
        seqs_ms(s) == Multiset::<V>::empty(),
    decreases s.len(),
{
    broadcast use vstd::multiset::group_multiset_axioms;
    broadcast use vstd::seq_lib::group_to_multiset_ensures;

    if s.len() > 0 {
        lemma_seqs_ms_all_empty(s.drop_last());
        assert(s.last().len() == 0);
        vstd::multiset::lemma_multiset_empty_len(s.last().to_multiset());
        assert(seqs_ms(s) =~= Multiset::<V>::empty());
    }
}

/// Reading the records of a file takes one record's length of bytes per record.
proof fn lemma_records_len<T: Serializable>(input: Seq<u8>)
    ensures
        records_of::<T>(input).len() * T::encoded_len() <= input.len(),
    decreases input.len(),
{
    T::lemma_deserialize_consumed(input);
    T::lemma_encoded_len_positive();
    let l = T::encoded_len() as int;
    if records_of::<T>(input).len() > 0 {
        lemma_records_step::<T>(input);
        lemma_records_len::<T>(input.skip(l));
        let m = records_of::<T>(input.skip(l)).len() as int;
        assert((m + 1) * l == m * l + l) by (nonlinear_arith);
    }
}

/// Every record read from a file reads back as itself once written.
proof fn lemma_records_readable<T: Serializable>(input: Seq<u8>)
    ensures
        forall|i: int| 0 <= i < records_of::<T>(input).len() ==> readable::<T>(#[trigger] records_of::<T>(input)[i]),
    decreases input.len(),
{
    T::lemma_deserialize_consumed(input);
    T::lemma_encoded_len_positive();
    let l = T::encoded_len() as int;
    if records_of::<T>(input).len() > 0 {
        lemma_records_step::<T>(input);
        lemma_records_readable::<T>(input.skip(l));
        T::lemma_reencode(input);
        let r = records_of::<T>(input);
        assert(r == seq![r[0]] + records_of::<T>(input.skip(l)));
        assert forall|i: int| 0 <= i < r.len() implies readable::<T>(#[trigger] r[i]) by {
            if i > 0 {
                assert(r[i] == records_of::<T>(input.skip(l))[i - 1]);
            }
        }
    }
}

proof fn lemma_serialized_front<T: Serializable>(v: T::V, vs: Seq<T::V>)
    ensures
        serialized_seq::<T>(seq![v] + vs) == T::spec_serialize(v) + serialized_seq::<T>(vs),
    decreases vs.len(),
{
    if vs.len() == 0 {
        assert(seq![v] + vs =~= seq![v]);
        assert(seq![v].drop_last() =~= Seq::<T::V>::empty());
        assert(serialized_seq::<T>(Seq::<T::V>::empty()) == Seq::<u8>::empty());
        assert(serialized_seq::<T>(vs) == Seq::<u8>::empty());
        assert(serialized_seq::<T>(seq![v]) == serialized_seq::<T>(Seq::<T::V>::empty()) + T::spec_serialize(v));
        assert(T::spec_serialize(v) + Seq::<u8>::empty() =~= T::spec_serialize(v));
        assert(Seq::<u8>::empty() + T::spec_serialize(v) =~= T::spec_serialize(v));
    } else {
        lemma_serialized_front::<T>(v, vs.drop_last());
        assert((seq![v] + vs).drop_last() =~= seq![v] + vs.drop_last());
        assert((seq![v] + vs).last() == vs.last());
        assert(T::spec_serialize(v) + serialized_seq::<T>(vs.drop_last()) + T::spec_serialize(vs.last())
            =~= T::spec_serialize(v) + (serialized_seq::<T>(vs.drop_last()) + T::spec_serialize(vs.last())));
    }
}

/// Records written one after another read back as the same records.
pub proof fn lemma_serialized_records<T: Serializable>(vs: Seq<T::V>)
    requires
        forall|i: int| 0 <= i < vs.len() ==> readable::<T>(#[trigger] vs[i]),
    ensures
        records_of::<T>(serialized_seq::<T>(vs)) == vs,
        serialized_seq::<T>(vs).len() == vs.len() * T::encoded_len(),
    decreases vs.len(),
{
    T::lemma_encoded_len_positive();
    let l = T::encoded_len() as int;
    if vs.len() == 0 {
        T::lemma_deserialize_consumed(Seq::<u8>::empty());
        assert(records_of::<T>(Seq::<u8>::empty()) =~= Seq::<T::V>::empty());
    } else {
        let v = vs[0];
        let rest = vs.drop_first();
        assert(vs =~= seq![v] + rest);
        assert(readable::<T>(v));
        assert forall|i: int| 0 <= i < rest.len() implies readable::<T>(#[trigger] rest[i]) by {
            assert(rest[i] == vs[i + 1]);
        }
        lemma_serialized_records::<T>(rest);
        lemma_serialized_front::<T>(v, rest);
        T::lemma_serialize_len(v);
        let b = T::spec_serialize(v) + serialized_seq::<T>(rest);
        assert(b.take(l) =~= T::spec_serialize(v));
        assert(T::spec_serialize(v).take(l) =~= T::spec_serialize(v));
        T::lemma_deserialize_prefix(b, T::spec_serialize(v));
        assert(b.skip(l) =~= serialized_seq::<T>(rest));
        assert(records_of::<T>(b) == seq![v] + records_of::<T>(b.skip(l)));
        assert((rest.len() + 1) * l == rest.len() * l + l) by (nonlinear_arith);
    }
}

/// The leaves of the tree are the first records of the files not yet read to the end,
/// one leaf per such file: a leaf from file `i` holds the first record of `rem[i]`, the
/// records of file `i` not yet written out.
pub open spec fn heads_match<V>(lv: Seq<(V, usize)>, rem: Seq<Seq<V>>) -> bool {
    &&& idx_distinct(lv)
    &&& forall|j: int|
        0 <= j < lv.len() ==> (#[trigger] lv[j]).1 < rem.len() && rem[lv[j].1 as int].len() > 0
            && rem[lv[j].1 as int][0] == lv[j].0
    &&& forall|i: int|
        0 <= i < rem.len() && (#[trigger] rem[i]).len() > 0 ==> exists|j: int| 0 <= j < lv.len() && lv[j].1 == i
}

proof fn lemma_heads_replace<V>(lv: Seq<(V, usize)>, rem: Seq<Seq<V>>, p: int, x: V)
    requires
        heads_match(lv, rem),
        0 <= p < lv.len(),
        rem[lv[p].1 as int].len() > 1,
        rem[lv[p].1 as int][1] == x,
    ensures
        heads_match(
            lv.update(p, (x, lv[p].1)),
            rem.update(lv[p].1 as int, rem[lv[p].1 as int].drop_first()),
        ),
{
    let kk = lv[p].1 as int;
    let lv2 = lv.update(p, (x, lv[p].1));
    let rem2 = rem.update(kk, rem[kk].drop_first());
    assert forall|j: int| 0 <= j < lv2.len() implies (#[trigger] lv2[j]).1 < rem2.len() && rem2[lv2[j].1 as int].len() > 0
        && rem2[lv2[j].1 as int][0] == lv2[j].0 by {
        if j != p {
            assert(lv[j].1 != lv[p].1);
        }
    }
    assert forall|i: int| 0 <= i < rem2.len() && (#[trigger] rem2[i]).len() > 0 implies exists|j: int|
        0 <= j < lv2.len() && lv2[j].1 == i by {
        if i == kk {
            assert(lv2[p].1 == i);
        } else {
            assert(rem[i].len() > 0);
            let j = choose|j: int| 0 <= j < lv.len() && lv[j].1 == i;
            assert(lv2[j].1 == i);
        }
    }
    assert forall|a: int, b: int| 0 <= a < lv2.len() && 0 <= b < lv2.len() && a != b implies #[trigger] lv2[a].1 != #[trigger] lv2[b].1 by {
        assert(lv[a].1 != lv[b].1);
    }
}

proof fn lemma_heads_remove<V>(lv: Seq<(V, usize)>, rem: Seq<Seq<V>>, p: int)
    requires
        heads_match(lv, rem),
        0 <= p < lv.len(),
        rem[lv[p].1 as int].len() == 1,
    ensures
        heads_match(lv.remove(p), rem.update(lv[p].1 as int, rem[lv[p].1 as int].drop_first())),
        lv.len() == 1 ==> forall|i: int| 0 <= i < rem.len() ==> (#[trigger] rem.update(lv[p].1 as int, rem[lv[p].1 as int].drop_first())[i]).len() == 0,
{
    let kk = lv[p].1 as int;
    let lv2 = lv.remove(p);
    let rem2 = rem.update(kk, rem[kk].drop_first());
    assert forall|j: int| 0 <= j < lv2.len() implies (#[trigger] lv2[j]).1 < rem2.len() && rem2[lv2[j].1 as int].len() > 0
        && rem2[lv2[j].1 as int][0] == lv2[j].0 by {
        if j < p {
            assert(lv2[j] == lv[j]);
            assert(lv[j].1 != lv[p].1);
        } else {
            assert(lv2[j] == lv[j + 1]);
            assert(lv[j + 1].1 != lv[p].1);
        }
    }
    assert forall|i: int| 0 <= i < rem2.len() && (#[trigger] rem2[i]).len() > 0 implies exists|j: int|
        0 <= j < lv2.len() && lv2[j].1 == i by {
        assert(i != kk);
        assert(rem[i].len() > 0);
        let j = choose|j: int| 0 <= j < lv.len() && lv[j].1 == i;
        assert(j != p);
        if j < p {
            assert(lv2[j].1 == i);
        } else {
            assert(lv2[j - 1].1 == i);
        }
    }
    assert forall|a: int, b: int| 0 <= a < lv2.len() && 0 <= b < lv2.len() && a != b implies #[trigger] lv2[a].1 != #[trigger] lv2[b].1 by {
        let a1 = if a < p { a } else { a + 1 };
        let b1 = if b < p { b } else { b + 1 };
        assert(lv2[a] == lv[a1] && lv2[b] == lv[b1]);
        assert(lv[a1].1 != lv[b1].1);
    }
    if lv.len() == 1 {
        assert forall|i: int| 0 <= i < rem.len() implies (#[trigger] rem2[i]).len() == 0 by {
            if i != kk && rem[i].len() > 0 {
                let j = choose|j: int| 0 <= j < lv.len() && lv[j].1 == i;
                assert(j == 0 && p == 0);
            }
        }
    }
}

/// Where the tree's leaves are, in some order, the first records of the files, one from each,
/// they match the heads of the files.
proof fn lemma_heads_initial<V>(lv: Seq<(V, usize)>, w: Seq<(V, usize)>, rem: Seq<Seq<V>>)
    requires
        lv.to_multiset() == w.to_multiset(),
        w.len() == rem.len(),
        forall|i: int| 0 <= i < w.len() ==> (#[trigger] w[i]).1 == i && rem[i].len() > 0 && rem[i][0] == w[i].0,
    ensures
        heads_match(lv, rem),
{
    broadcast use vstd::seq_lib::group_to_multiset_ensures;
    broadcast use vstd::multiset::group_multiset_axioms;

    assert forall|j: int| 0 <= j < lv.len() implies exists|i: int| 0 <= i < w.len() && w[i] == #[trigger] lv[j] by {
        assert(lv.contains(lv[j]));
        assert(w.to_multiset().count(lv[j]) > 0);
        assert(w.contains(lv[j]));
    }
    assert forall|j: int| 0 <= j < lv.len() implies (#[trigger] lv[j]).1 < rem.len() && rem[lv[j].1 as int].len() > 0
        && rem[lv[j].1 as int][0] == lv[j].0 by {
        let i = choose|i: int| 0 <= i < w.len() && w[i] == lv[j];
        assert(w[i].1 == i);
    }
    assert forall|i: int| 0 <= i < rem.len() && (#[trigger] rem[i]).len() > 0 implies exists|j: int|
        0 <= j < lv.len() && lv[j].1 == i by {
        assert(w.contains(w[i]));
        assert(lv.to_multiset().count(w[i]) > 0);
        assert(lv.contains(w[i]));
        let j = choose|j: int| 0 <= j < lv.len() && lv[j] == w[i];
        assert(lv[j].1 == i);
    }
    assert forall|a: int, b: int| 0 <= a < lv.len() && 0 <= b < lv.len() && a != b implies #[trigger] lv[a].1 != #[trigger] lv[b].1 by {
        if lv[a].1 == lv[b].1 {
            let ia = choose|i: int| 0 <= i < w.len() && w[i] == lv[a];
            let ib = choose|i: int| 0 <= i < w.len() && w[i] == lv[b];
            assert(w[ia].1 == ia && w[ib].1 == ib);
            assert(ia == ib);
            let x = lv[a];
            assert(lv.remove(a).contains(x)) by {
                if b < a {
                    assert(lv.remove(a)[b] == x);
                } else {
                    assert(lv.remove(a)[b - 1] == x);
                }
            }
            assert(lv.remove(a).to_multiset() == lv.to_multiset().remove(x));
            assert(lv.remove(a).to_multiset().count(x) > 0);
            assert(lv.to_multiset().count(x) >= 2);
            assert(!w.remove(ia).contains(x)) by {
                if w.remove(ia).contains(x) {
                    let q = choose|q: int| 0 <= q < w.remove(ia).len() && w.remove(ia)[q] == x;
                    if q < ia {
                        assert(w[q] == x);
                        assert(w[q].1 == q);
                    } else {
                        assert(w[q + 1] == x);
                        assert(w[q + 1].1 == q + 1);
                    }
                }
            }
            assert(w.remove(ia).to_multiset() == w.to_multiset().remove(x));
            assert(w.to_multiset().count(x) <= 1);
        }
    }
}

proof fn lemma_union_bound<T: Serializable>(fs: Seq<MemFile>)
    ensures
        union_ms::<T>(fs).len() * T::encoded_len() <= total_len(fs),
    decreases fs.len(),
{
    broadcast use vstd::multiset::group_multiset_axioms;
    broadcast use vstd::seq_lib::group_to_multiset_ensures;

    let recs = records_of_files::<T>(fs);
    if fs.len() == 0 {
        assert(recs.len() == 0);
    } else {
        lemma_union_bound::<T>(fs.drop_last());
        assert(records_of_files::<T>(fs.drop_last()) =~= recs.drop_last());
        let f = fs.last();
        lemma_records_len::<T>(f.rest());
        assert(recs.last() == file_records::<T>(f));
        let a = union_ms::<T>(fs.drop_last()).len() as int;
        let b = file_records::<T>(f).len() as int;
        let l = T::encoded_len() as int;
        assert(union_ms::<T>(fs).len() == a + b);
        assert((a + b) * l == a * l + b * l) by (nonlinear_arith);
        assert(f.rest().len() <= f.bytes().len());
    }
}

/// Merges the records of the files of `tail` into one new file, with its cursor at the
/// start: the first record of each file goes into a tournament tree, and the smallest
/// record is written out and replaced by the next record of its file until every file is
/// read to its end. A file with no record to start with fails the merge with the error of
/// that first read.
pub fn merge_files<T: Serializable + SortKey + Duplicate>(tail: Vec<MemFile>) -> (r: Result<MemFile, SerializeError>)
    requires
        tail@.len() > 0,
        total_len(tail@) <= usize::MAX,
    ensures
        match first_error::<T>(tail@) {
            Some(e) => r == Err::<MemFile, SerializeError>(e),
            None => r matches Ok(out) && out.cursor() == 0 && out.bytes() == serialized_seq::<T>(
                file_records::<T>(out),
            ) && greedy_merge::<T>(file_records::<T>(out), records_of_files::<T>(tail@))
                && file_records::<T>(out) == tournament_merge::<T>(records_of_files::<T>(tail@))
                && file_records::<T>(out).to_multiset() == union_ms::<T>(tail@) && (all_sorted::<T>(tail@)
                ==> sorted_by_key::<T>(file_records::<T>(out))),
        },
{
    broadcast use vstd::multiset::group_multiset_axioms;
    broadcast use vstd::seq_lib::group_to_multiset_ensures;

    let ghost tail0 = tail@;
    let ghost recs = records_of_files::<T>(tail0);
    let ghost k = tail0.len();
    let ghost l = T::encoded_len();
    let ghost sorted_in = all_sorted::<T>(tail0);
    proof {
        T::lemma_encoded_len_positive();
        lemma_union_bound::<T>(tail0);
        assert forall|i: int, j: int| 0 <= i < k && 0 <= j < recs[i].len() implies readable::<T>(#[trigger] recs[i][j]) by {
            lemma_records_readable::<T>(tail0[i].rest());
        }
    }
    let mut output = MemFile::new();
    let mut files = tail;
    let mut wrappers: Vec<TWrapper<T>> = Vec::with_capacity(files.len());
    let mut idx: usize = 0;
    proof {
        assert forall|i: int| 0 <= i < k implies #[trigger] recs[i] == file_records::<T>(tail0[i]) by {}
    }
    while idx < files.len()
        invariant
            files@.len() == k,
            tail0.len() == k,
            tail@ == tail0,
            recs.len() == k,
            l == T::encoded_len(),
            forall|i: int| 0 <= i < k ==> #[trigger] recs[i] == file_records::<T>(tail0[i]),
            idx <= k,
            wrappers@.len() == idx,
            forall|i: int|
                0 <= i < idx ==> (#[trigger] wrappers@[i]).file_idx == i && recs[i].len() > 0 && wrappers@[i].wrap@
                    == recs[i][0] && file_records::<T>(files@[i]) == recs[i].drop_first(),
            forall|i: int| idx <= i < k ==> #[trigger] files@[i] == tail0[i],
            first_error::<T>(tail0) == first_error_from::<T>(tail0, idx as int),
            output.bytes() == Seq::<u8>::empty(),
            output.cursor() == 0,
        decreases k - idx,
    {
        let ghost f0 = files@[idx as int];
        proof {
            assert(f0 == tail0[idx as int]);
            assert(recs[idx as int] == file_records::<T>(f0));
            T::lemma_deserialize_consumed(f0.rest());
            if recs[idx as int].len() > 0 {
                lemma_records_step::<T>(f0.rest());
                f0.lemma_bounds();
                lemma_rest_advance(f0.bytes(), f0.cursor() as int, l as int);
            }
        }
        let val = match T::deserialize(&mut files[idx]) {
            Ok(v) => v,
            Err(e) => {
                proof {
                    assert(T::spec_deserialize(f0.rest()).0 == Err::<T::V, SerializeError>(e));
                    assert(records_of::<T>(f0.rest()) == Seq::<T::V>::empty());
                    assert(read_error::<T>(f0) == Some(e));
                    assert(tail0[idx as int] == f0);
                    assert(read_error::<T>(tail0[idx as int]) == Some(e));
                    reveal_with_fuel(first_error_from, 2);
                    assert(first_error_from::<T>(tail0, idx as int) == Some(e));
                    assert(first_error::<T>(tail0) == Some(e));
                }
                return Err(e);
            },
        };
        proof {
            assert(records_of::<T>(f0.rest()) == seq![val@] + records_of::<T>(f0.rest().skip(l as int)));
            assert(recs[idx as int].drop_first() =~= records_of::<T>(f0.rest().skip(l as int)));
        }
        wrappers.push(TWrapper { wrap: val, file_idx: idx });
        idx += 1;
    }
    let ghost ws = wrappers@;
    let ghost w = wrappers@.map_values(|v: TWrapper<T>| v@);
    proof {
        assert forall|i: int| 0 <= i < k implies (#[trigger] w[i]).1 == i && recs[i].len() > 0 && recs[i][0] == w[i].0 by {
            assert(ws[i].file_idx == i);
        }
        assert forall|i: int| 0 <= i < k && (#[trigger] recs[i]).len() > 0 implies file_records::<T>(files@[i]) == recs[i].drop_first() by {
            assert(ws[i].file_idx == i);
        }
    }
    let mut winner = Node::construct(wrappers);
    let ghost mut out: Seq<T::V> = Seq::empty();
    let ghost mut rem: Seq<Seq<T::V>> = recs;
    let ghost ntot = seqs_ms(recs).len();
    let ghost tv0 = build_tree(Seq::new(recs.len(), |i: int| TreeView::Leaf((recs[i][0], i as usize))));
    proof {
        assert(ws.map_values(|v: TWrapper<T>| TreeView::<(T::V, usize)>::Leaf(v@)) =~= Seq::new(
            recs.len(),
            |i: int| TreeView::Leaf((recs[i][0], i as usize)),
        )) by {
            assert forall|i: int| 0 <= i < k implies ws[i]@ == (recs[i][0], i as usize) by {
                assert(w[i] == ws[i]@);
            }
        }
        assert(tree_view::<TWrapper<T>>(winner) == tv0);
        assert(out + tournament_out::<T>(tv0, rem, ntot) =~= tournament_out::<T>(tv0, recs, ntot));
        assert(first_error::<T>(tail0) is None);
        lemma_heads_initial(leaves::<TWrapper<T>>(winner), w, rem);
        assert(out.to_multiset().add(seqs_ms(rem)) =~= seqs_ms(recs)) by {
            vstd::multiset::lemma_multiset_empty_len(out.to_multiset());
        }
        assert(output.bytes() == serialized_seq::<T>(out));
        assert(greedy_steps::<T>(out, recs, rem));
    }
    loop
        invariant_except_break
            tree_ok::<TWrapper<T>>(winner),
            heads_match(leaves::<TWrapper<T>>(winner), rem),
            sorted_in && out.len() > 0 ==> forall|j: int| 0 <= j < leaves::<TWrapper<T>>(winner).len()
                ==> T::key_of(out.last()) <= T::key_of(#[trigger] leaves::<TWrapper<T>>(winner)[j].0),
            out + tournament_out::<T>(tree_view::<TWrapper<T>>(winner), rem, (ntot - out.len()) as nat)
                == tournament_out::<T>(tv0, recs, ntot),
        invariant
            ntot == seqs_ms(recs).len(),
            files@.len() == k,
            rem.len() == k,
            forall|i: int| 0 <= i < k && (#[trigger] rem[i]).len() > 0 ==> file_records::<T>(files@[i]) == rem[i].drop_first(),
            out.to_multiset().add(seqs_ms(rem)) == seqs_ms(recs),
            seqs_ms(recs) == union_ms::<T>(tail0),
            union_ms::<T>(tail0).len() * l <= usize::MAX,
            l == T::encoded_len(),
            l > 0,
            output.bytes() == serialized_seq::<T>(out),
            output.cursor() == output.bytes().len(),
            sorted_in ==> sorted_by_key::<T>(out),
            sorted_in ==> forall|i: int| 0 <= i < k ==> sorted_by_key::<T>(#[trigger] rem[i]),
            forall|i: int| 0 <= i < out.len() ==> readable::<T>(#[trigger] out[i]),
            forall|i: int, j: int| 0 <= i < k && 0 <= j < rem[i].len() ==> readable::<T>(#[trigger] rem[i][j]),
            greedy_steps::<T>(out, recs, rem),
            recs.len() == k,
        ensures
            forall|i: int| 0 <= i < k ==> (#[trigger] rem[i]).len() == 0,
            out == tournament_out::<T>(tv0, recs, ntot),
        decreases union_ms::<T>(tail0).len() - out.len(),
    {
        let ghost lv = leaves::<TWrapper<T>>(winner);
        let ghost top = winner.val@;
        let ghost kk = winner.val.file_idx as int;
        let ghost p = pos_of_idx(lv, winner.val.file_idx);
        let ghost tv = tree_view::<TWrapper<T>>(winner);
        let ghost f: nat = (ntot - out.len()) as nat;
        proof {
            lemma_tree_view_facts::<TWrapper<T>>(winner);
            crate::tournament::lemma_view_count(winner);
            lemma_root_is_min::<TWrapper<T>>(winner);
            let j = choose|j: int| 0 <= j < lv.len() && lv[j] == top;
            assert(lv[j].1 == kk);
            assert(p == j) by {
                assert(0 <= p < lv.len() && lv[p].1 == kk);
                if p != j {
                    assert(lv[p].1 != lv[j].1);
                }
            }
            assert(rem[kk].len() > 0 && rem[kk][0] == top.0);
            lemma_seqs_ms_len(rem, kk);
            vstd::multiset::lemma_multiset_empty_len(seqs_ms(rem));
            vstd::seq_lib::to_multiset_len(out);
            assert(out.len() + seqs_ms(rem).len() == seqs_ms(recs).len());
            vstd::arithmetic::mul::lemma_mul_inequality(out.len() + 1int, union_ms::<T>(tail0).len() as int, l as int);
            vstd::arithmetic::mul::lemma_mul_is_distributive_add_other_way(l as int, out.len() as int, 1);
            lemma_serialized_push::<T>(out, top.0);
            T::lemma_serialize_len(top.0);
            assert(readable::<T>(rem[kk][0]));
            T::lemma_read_writable(T::spec_serialize(top.0));
            lemma_write_at_end(output.bytes(), T::spec_serialize(top.0));
        }
        winner.val.wrap.serialize(&mut output)?;
        let ghost f0 = files@[kk];
        let ghost d = rem[kk].drop_first();
        proof {
            T::lemma_deserialize_consumed(f0.rest());
            if d.len() > 0 {
                lemma_records_step::<T>(f0.rest());
                f0.lemma_bounds();
                lemma_rest_advance(f0.bytes(), f0.cursor() as int, l as int);
            }
        }
        let insert = match T::deserialize(&mut files[winner.val.file_idx]) {
            Ok(val) => Some(val),
            _ => None,
        };
        let ghost rem2 = rem.update(kk, d);
        proof {
            if d.len() > 0 {
                assert(records_of::<T>(f0.rest()) == seq![insert->Some_0@] + records_of::<T>(f0.rest().skip(l as int)));
                assert(d.drop_first() =~= records_of::<T>(f0.rest().skip(l as int)));
                assert(insert is Some && insert->Some_0@ == rem[kk][1]);
            } else {
                assert(insert is None);
            }
            assert(rem[kk] =~= seq![top.0] + d);
            vstd::seq_lib::lemma_multiset_commutative(seq![top.0], d);
            lemma_seqs_ms_update(rem, kk, d);
            let m0 = out.to_multiset();
            vstd::seq_lib::to_multiset_build(out, top.0);
            assert(out.push(top.0).to_multiset() == m0.insert(top.0));
            assert(seq![top.0].to_multiset() =~= Multiset::<T::V>::empty().insert(top.0)) by {
                assert(seq![top.0] =~= Seq::<T::V>::empty().push(top.0));
                vstd::seq_lib::to_multiset_build(Seq::<T::V>::empty(), top.0);
                vstd::seq_lib::to_multiset_len(Seq::<T::V>::empty());
                vstd::multiset::lemma_multiset_empty_len(Seq::<T::V>::empty().to_multiset());
            }
            let a = seqs_ms(rem);
            let b = seqs_ms(rem2);
            let dm = d.to_multiset();
            let one = Multiset::<T::V>::empty().insert(top.0);
            assert(rem[kk].to_multiset() == one.add(dm));
            assert(b.add(one.add(dm)) == a.add(dm));
            assert(m0.add(a) == seqs_ms(recs));
            assert forall|v: T::V| #[trigger] m0.insert(top.0).add(b).count(v) == seqs_ms(recs).count(v) by {
                assert(b.add(one.add(dm)).count(v) == a.add(dm).count(v));
                assert(m0.add(a).count(v) == seqs_ms(recs).count(v));
            }
            assert(out.push(top.0).to_multiset().add(seqs_ms(rem2)) =~= seqs_ms(recs));
            if sorted_in {
                assert forall|a: int, b: int| 0 <= a <= b < out.push(top.0).len() implies T::key_of(out.push(top.0)[a]) <= T::key_of(out.push(top.0)[b]) by {
                    if b == out.len() && a < b {
                        assert(T::key_of(out.last()) <= T::key_of(lv[p].0));
                    }
                }
                assert(sorted_by_key::<T>(d)) by {
                    assert forall|a: int, b: int| 0 <= a <= b < d.len() implies T::key_of(d[a]) <= T::key_of(d[b]) by {
                        assert(d[a] == rem[kk][a + 1] && d[b] == rem[kk][b + 1]);
                    }
                }
            }
            assert forall|i: int, j: int| 0 <= i < k && 0 <= j < rem2[i].len() implies readable::<T>(#[trigger] rem2[i][j]) by {
                if i == kk {
                    assert(rem2[i][j] == rem[kk][j + 1]);
                }
            }
            assert(readable::<T>(rem[kk][0]));
        }
        let replaced = replace_root(winner, insert);
        let ghost rem_old = rem;
        let ghost out_old = out;
        proof {
            assert(f >= 1);
            assert(insert is Some ==> insert->Some_0@ == d[0]);
        }
        proof {
            assert(rem2.update(kk, seq![top.0] + rem2[kk]) =~= rem);
            assert(smallest_head::<T>(rem, top.0)) by {
                assert forall|j: int| 0 <= j < rem.len() && rem[j].len() > 0 implies T::key_of(top.0) <= T::key_of(#[trigger] rem[j][0]) by {
                    let q = choose|q: int| 0 <= q < lv.len() && lv[q].1 == j;
                    assert(TWrapper::<T>::key_of(top) <= TWrapper::<T>::key_of(lv[q]));
                }
            }
            assert(out.push(top.0).drop_last() =~= out);
            assert(out.push(top.0).last() == top.0);
            assert(smallest_head::<T>(rem2.update(kk, seq![out.push(top.0).last()] + rem2[kk]), out.push(top.0).last()));
            assert(greedy_steps::<T>(out.push(top.0), recs, rem2));
            out = out.push(top.0);
            rem = rem2;
            assert(rem_old[kk].drop_first() == d);
            assert(rem_old.update(kk, d) == rem2);
        }
        match replaced {
            Some(val) => {
                proof {
                    if d.len() > 0 {
                        lemma_heads_replace(lv, rem_old, p, d[0]);
                        assert(leaves::<TWrapper<T>>(val) == lv.update(p, (d[0], kk as usize)));
                        assert(tree_view::<TWrapper<T>>(val) == set_leaf(tv, p, (d[0], kk as usize)));
                    } else {
                        lemma_heads_remove(lv, rem_old, p);
                        assert(leaves::<TWrapper<T>>(val) == lv.remove(p));
                        assert(tree_view::<TWrapper<T>>(val) == remove_leaf(tv, p));
                    }
                    assert(tournament_out::<T>(tv, rem_old, f) == seq![top.0] + tournament_out::<T>(
                        tree_view::<TWrapper<T>>(val),
                        rem,
                        (f - 1) as nat,
                    ));
                    assert((ntot - out.len()) as nat == (f - 1) as nat);
                    assert(out + tournament_out::<T>(tree_view::<TWrapper<T>>(val), rem, (f - 1) as nat) =~= out_old
                        + (seq![top.0] + tournament_out::<T>(tree_view::<TWrapper<T>>(val), rem, (f - 1) as nat)));
                    if sorted_in {
                        let nl = leaves::<TWrapper<T>>(val);
                        assert forall|j: int| 0 <= j < nl.len() implies T::key_of(out.last()) <= T::key_of(#[trigger] nl[j].0) by {
                            assert(out.last() == top.0);
                            if d.len() > 0 {
                                if j == p {
                                    assert(nl[j].0 == rem_old[kk][1]);
                                    assert(sorted_by_key::<T>(rem_old[kk]));
                                } else {
                                    assert(nl[j] == lv[j]);
                                    assert(TWrapper::<T>::key_of(top) <= TWrapper::<T>::key_of(lv[j]));
                                }
                            } else {
                                if j < p {
                                    assert(nl[j] == lv[j]);
                                    assert(TWrapper::<T>::key_of(top) <= TWrapper::<T>::key_of(lv[j]));
                                } else {
                                    assert(nl[j] == lv[j + 1]);
                                    assert(TWrapper::<T>::key_of(top) <= TWrapper::<T>::key_of(lv[j + 1]));
                                }
                            }
                        }
                    }
                }
                winner = val;
            },
            None => {
                proof {
                    lemma_heads_remove(lv, rem_old, p);
                    assert(tournament_out::<T>(tv, rem_old, f) == seq![top.0]);
                    assert(out =~= out_old + seq![top.0]);
                }
                break;
            },
        }
    }
    proof {
        lemma_seqs_ms_all_empty(rem);
        assert forall|i: int| 0 <= i < rem.len() implies #[trigger] rem[i] == Seq::<T::V>::empty() by {
            assert(rem[i] =~= Seq::<T::V>::empty());
        }
        assert(rem =~= Seq::new(recs.len(), |i: int| Seq::<T::V>::empty()));
        assert(greedy_merge::<T>(out, recs));
        assert(out.to_multiset() =~= union_ms::<T>(tail0));
        lemma_serialized_records::<T>(out);
        assert(rest_of(output.bytes(), 0) =~= output.bytes());
    }
    let merged = MemFile::from_bytes(output.into_bytes());
    proof {
        assert(merged.rest() == merged.bytes());
        assert(file_records::<T>(merged) == out);
        assert(first_error::<T>(tail@) is None);
        if all_sorted::<T>(tail@) {
            assert(sorted_in);
            assert(sorted_by_key::<T>(out));
        }
    }
    Ok(merged)
}

/// The error of each file of `fs`, where it has no record.
pub open spec fn read_errors<T: Serializable>(fs: Seq<MemFile>) -> Seq<Option<SerializeError>> {
    fs.map_values(|f: MemFile| read_error::<T>(f))
}

/// The first error of `s`.
pub open spec fn first_some(s: Seq<Option<SerializeError>>) -> Option<SerializeError>
    decreases s.len(),
{
    if s.len() == 0 {
        None
    } else {
        match s[0] {
            Some(e) => Some(e),
            None => first_some(s.drop_first()),
        }
    }
}

/// How many files each round merges: `m`, or all that are left where fewer are.
pub open spec fn round_width(len: nat, m: nat) -> nat {
    if len < m {
        len
    } else {
        m
    }
}

/// The error that a merge stops on, for files whose reads fail as `errs` says: each round
/// takes the last `m` files (all of them where fewer are left) and fails on the first of
/// them that has no record; else the merged file, which has records, takes their place,
/// until one file is left.
pub open spec fn rounds_error(errs: Seq<Option<SerializeError>>, m: nat) -> Option<SerializeError>
    decreases errs.len(),
{
    if errs.len() <= 1 || m < 2 {
        None
    } else {
        let w = round_width(errs.len(), m);
        match first_some(errs.skip(errs.len() - w)) {
            Some(e) => Some(e),
            None => rounds_error(errs.take(errs.len() - w).push(None), m),
        }
    }
}

/// How many rounds a merge of `len` files, `m` at a time, takes.
pub open spec fn rounds_count(len: nat, m: nat) -> nat
    decreases len,
{
    if len <= 1 || m < 2 {
        0
    } else {
        1 + rounds_count((len - round_width(len, m) + 1) as nat, m)
    }
}

/// How many files are left after `r + 1` rounds of a merge of `len` files, `m` at a time.
pub open spec fn pending_after(len: nat, m: nat, r: nat) -> nat
    decreases r,
{
    let next = (len - round_width(len, m) + 1) as nat;
    if r == 0 {
        next
    } else {
        pending_after(next, m, (r - 1) as nat)
    }
}

/// The records of the files that round `r` of a merge of `files`, `m` files a round, reads:
/// the files of `files` that it takes, followed, after the first round, by the file that the
/// round before wrote, `outs[r - 1]`.
pub open spec fn round_inputs<T: Serializable>(files: Seq<MemFile>, outs: Seq<MemFile>, m: nat, r: int) -> Seq<Seq<T::V>> {
    let len = files.len();
    if r == 0 {
        records_of_files::<T>(files.skip(pending_after(len, m, 0) - 1))
    } else {
        records_of_files::<T>(
            files.subrange(pending_after(len, m, r as nat) - 1, pending_after(len, m, (r - 1) as nat) - 1),
        ).push(file_records::<T>(outs[r - 1]))
    }
}

proof fn lemma_pending_after_step(len: nat, m: nat, r: nat)
    ensures
        pending_after(len, m, r + 1) == (pending_after(len, m, r) - round_width(pending_after(len, m, r), m)
            + 1) as nat,
    decreases r,
{
    let next = (len - round_width(len, m) + 1) as nat;
    if r > 0 {
        lemma_pending_after_step(next, m, (r - 1) as nat);
        assert(pending_after(len, m, r + 1) == pending_after(next, m, r));
        assert(pending_after(len, m, r) == pending_after(next, m, (r - 1) as nat));
    } else {
        assert(pending_after(len, m, 1) == pending_after(next, m, 0));
    }
}

/// Where the files left are the first files of `files` and a merged file holding the
/// records of all the others, the last files left from index `len` on hold the records of
/// the files of `files` from `len` on.
proof fn lemma_merged_suffix<T: Serializable>(files: Seq<MemFile>, p0: Seq<MemFile>, len: int)
    requires
        0 <= len,
        len + 2 <= p0.len(),
        p0.len() - 1 <= files.len(),
        p0.take(p0.len() - 1) == files.take(p0.len() - 1),
        file_records::<T>(p0.last()).to_multiset() == union_ms::<T>(files.skip(p0.len() - 1)),
    ensures
        union_ms::<T>(p0.skip(len)) == union_ms::<T>(files.skip(len)),
        p0.take(len) == files.take(len),
{
    let pp = p0.len();
    let prev = p0.last();
    let mid = files.subrange(len, pp - 1);
    assert forall|i: int| 0 <= i < pp - 1 implies p0[i] == files[i] by {
        assert(p0[i] == p0.take(pp - 1)[i]);
        assert(files.take(pp - 1)[i] == files[i]);
    }
    assert(p0.skip(len) =~= mid + seq![prev]);
    lemma_union_concat::<T>(mid, seq![prev]);
    lemma_union_single::<T>(prev);
    lemma_union_concat::<T>(mid, files.skip(pp - 1));
    assert(mid + files.skip(pp - 1) =~= files.skip(len));
    assert(p0.take(len) =~= files.take(len));
}

proof fn lemma_first_error_from<T: Serializable>(fs: Seq<MemFile>, i: int)
    requires
        0 <= i <= fs.len(),
    ensures
        first_error_from::<T>(fs, i) == first_some(read_errors::<T>(fs).skip(i)),
    decreases fs.len() - i,
{
    let e = read_errors::<T>(fs);
    if i < fs.len() {
        lemma_first_error_from::<T>(fs, i + 1);
        assert(e.skip(i).drop_first() =~= e.skip(i + 1));
        assert(e.skip(i)[0] == read_error::<T>(fs[i]));
    } else {
        assert(e.skip(i).len() == 0);
    }
}

proof fn lemma_union_concat<T: Serializable>(a: Seq<MemFile>, b: Seq<MemFile>)
    ensures
        union_ms::<T>(a + b) == union_ms::<T>(a).add(union_ms::<T>(b)),
    decreases b.len(),
{
    broadcast use vstd::multiset::group_multiset_axioms;

    if b.len() == 0 {
        assert(a + b =~= a);
        assert(records_of_files::<T>(b).len() == 0);
        assert(union_ms::<T>(a).add(union_ms::<T>(b)) =~= union_ms::<T>(a));
    } else {
        lemma_union_concat::<T>(a, b.drop_last());
        assert((a + b).drop_last() =~= a + b.drop_last());
        assert(records_of_files::<T>(a + b).drop_last() =~= records_of_files::<T>(a + b.drop_last()));
        assert(records_of_files::<T>(b).drop_last() =~= records_of_files::<T>(b.drop_last()));
        assert(records_of_files::<T>(a + b).last() == records_of_files::<T>(b).last());
        assert(union_ms::<T>(a + b) =~= union_ms::<T>(a).add(union_ms::<T>(b)));
    }
}

proof fn lemma_total_len_concat(a: Seq<MemFile>, b: Seq<MemFile>)
    ensures
        total_len(a + b) == total_len(a) + total_len(b),
    decreases b.len(),
{
    if b.len() == 0 {
        assert(a + b =~= a);
    } else {
        lemma_total_len_concat(a, b.drop_last());
        assert((a + b).drop_last() =~= a + b.drop_last());
    }
}

proof fn lemma_union_single<T: Serializable>(f: MemFile)
    ensures
        union_ms::<T>(seq![f]) == file_records::<T>(f).to_multiset(),
{
    broadcast use vstd::multiset::group_multiset_axioms;

    let s = records_of_files::<T>(seq![f]);
    assert(s.drop_last() =~= Seq::<Seq<T::V>>::empty());
    assert(seqs_ms(s.drop_last()) == Multiset::<T::V>::empty());
    assert(union_ms::<T>(seq![f]) =~= file_records::<T>(f).to_multiset());
}

proof fn lemma_first_some_none(s: Seq<Option<SerializeError>>)
    requires
        first_some(s) is None,
    ensures
        forall|i: int| 0 <= i < s.len() ==> (#[trigger] s[i]) is None,
    decreases s.len(),
{
    if s.len() > 0 {
        lemma_first_some_none(s.drop_first());
        assert forall|i: int| 0 <= i < s.len() implies (#[trigger] s[i]) is None by {
            if i > 0 {
                assert(s[i] == s.drop_first()[i - 1]);
            }
        }
    }
}

/// Merges `files` into one, `n - 1` files a round: each round merges the last `n - 1` files
/// (all of them where fewer are left) into a new file that takes their place at the end.
/// The files that the rounds write are returned in order, the last one holding every record.
#[verifier::rlimit(40)]
pub fn nway_merge<T: Serializable + SortKey + Duplicate>(files: Vec<MemFile>, n: usize) -> (r: Result<Vec<MemFile>, SerializeError>)
    requires
        n >= 3 || files@.len() <= 1,
        total_len(files@) <= usize::MAX,
    ensures
        match rounds_error(read_errors::<T>(files@), (n - 1) as nat) {
            Some(e) => r == Err::<Vec<MemFile>, SerializeError>(e),
            None => r matches Ok(outs) && outs@.len() == rounds_count(files@.len(), (n - 1) as nat) && (forall|i: int|
                0 <= i < outs@.len() ==> {
                    &&& (#[trigger] outs@[i]).cursor() == 0
                    &&& outs@[i].bytes() == serialized_seq::<T>(file_records::<T>(outs@[i]))
                    &&& all_sorted::<T>(files@) ==> sorted_by_key::<T>(file_records::<T>(outs@[i]))
                }) && (forall|i: int|
                0 <= i < outs@.len() ==> greedy_merge::<T>(
                    file_records::<T>(#[trigger] outs@[i]),
                    round_inputs::<T>(files@, outs@, (n - 1) as nat, i),
                )) && (forall|i: int|
                0 <= i < outs@.len() ==> file_records::<T>(#[trigger] outs@[i]) == tournament_merge::<T>(
                    round_inputs::<T>(files@, outs@, (n - 1) as nat, i),
                )) && (forall|i: int|
                0 <= i < outs@.len() ==> file_records::<T>(#[trigger] outs@[i]).to_multiset() == union_ms::<T>(
                    files@.skip(pending_after(files@.len(), (n - 1) as nat, i as nat) - 1),
                )) && (outs@.len() > 0 ==> file_records::<T>(outs@.last()).to_multiset() == union_ms::<T>(files@)),
        },
{
    broadcast use vstd::multiset::group_multiset_axioms;

    let ghost m: nat = (n - 1) as nat;
    let mut pending = files;
    let mut outputs: Vec<MemFile> = Vec::new();
    while pending.len() > 1
        invariant
            n >= 3 || pending@.len() <= 1,
            m == (n - 1) as nat,
            rounds_error(read_errors::<T>(files@), m) == rounds_error(read_errors::<T>(pending@), m),
            outputs@.len() + rounds_count(pending@.len(), m) == rounds_count(files@.len(), m),
            union_ms::<T>(pending@) == union_ms::<T>(files@),
            all_sorted::<T>(files@) ==> all_sorted::<T>(pending@),
            total_len(pending@) <= total_len(files@),
            total_len(files@) <= usize::MAX,
            outputs@.len() > 0 ==> pending@.len() > 0 && outputs@.last().bytes() == pending@.last().bytes()
                && outputs@.last().cursor() == 0 && pending@.last().cursor() == 0
                && outputs@.last().bytes() == serialized_seq::<T>(file_records::<T>(outputs@.last())),
            outputs@.len() == 0 ==> pending@ == files@,
            forall|i: int|
                0 <= i < outputs@.len() ==> {
                    &&& (#[trigger] outputs@[i]).cursor() == 0
                    &&& outputs@[i].bytes() == serialized_seq::<T>(file_records::<T>(outputs@[i]))
                    &&& all_sorted::<T>(files@) ==> sorted_by_key::<T>(file_records::<T>(outputs@[i]))
                },
            pending@.len() <= files@.len(),
            outputs@.len() > 0 ==> pending@.len() == pending_after(files@.len(), m, (outputs@.len() - 1) as nat),
            outputs@.len() > 0 ==> pending@.take(pending@.len() - 1) == files@.take(pending@.len() - 1),
            forall|i: int|
                0 <= i < outputs@.len() ==> file_records::<T>(#[trigger] outputs@[i]).to_multiset() == union_ms::<T>(
                    files@.skip(pending_after(files@.len(), m, i as nat) - 1),
                ),
            forall|i: int|
                0 <= i < outputs@.len() ==> greedy_merge::<T>(
                    file_records::<T>(#[trigger] outputs@[i]),
                    round_inputs::<T>(files@, outputs@, m, i),
                ),
            forall|i: int|
                0 <= i < outputs@.len() ==> file_records::<T>(#[trigger] outputs@[i]) == tournament_merge::<T>(
                    round_inputs::<T>(files@, outputs@, m, i),
                ),
        decreases pending@.len(),
    {
        let ghost p0 = pending@;
        let len = pending.len().saturating_sub(n - 1);
        let tail = pending.split_off(len);
        let ghost head = pending@;
        proof {
            assert(p0 =~= head + tail@);
            lemma_total_len_concat(head, tail@);
            lemma_union_concat::<T>(head, tail@);
            lemma_first_error_from::<T>(tail@, 0);
            assert(read_errors::<T>(tail@).skip(0) =~= read_errors::<T>(tail@));
            assert(read_errors::<T>(p0).skip(len as int) =~= read_errors::<T>(tail@));
            assert(read_errors::<T>(p0).take(len as int) =~= read_errors::<T>(head));
            assert(round_width(p0.len(), m) == p0.len() - len);
        }
        let output = match merge_files::<T>(tail) {
            Ok(o) => o,
            Err(e) => {
                proof {
                    assert(first_some(read_errors::<T>(p0).skip(len as int)) == Some(e));
                    assert(m >= 2);
                    assert(rounds_error(read_errors::<T>(p0), m) == Some(e));
                }
                return Err(e);
            },
        };
        pending.push(output.reopen());
        proof {
            let t = tail@;
            let merged = pending@.last();
            assert(pending@ =~= head + seq![merged]);
            assert(first_some(read_errors::<T>(t)) is None);
            lemma_first_some_none(read_errors::<T>(t));
            assert(read_errors::<T>(t)[0] == read_error::<T>(t[0]));
            assert(file_records::<T>(t[0]).len() > 0);
            lemma_seqs_ms_len(records_of_files::<T>(t), 0);
            let recs = file_records::<T>(output);
            assert(merged.rest() == output.rest());
            vstd::seq_lib::to_multiset_len(recs);
            assert(recs.len() > 0);
            assert(read_error::<T>(merged) is None);
            lemma_union_single::<T>(merged);
            lemma_union_concat::<T>(head, seq![merged]);
            assert(read_errors::<T>(pending@) =~= read_errors::<T>(head).push(None));
            lemma_total_len_concat(head, seq![merged]);
            assert(total_len(seq![merged]) == merged.bytes().len()) by {
                assert(seq![merged].drop_last() =~= Seq::<MemFile>::empty());
                assert(total_len(Seq::<MemFile>::empty()) == 0);
            }
            lemma_union_bound::<T>(t);
            lemma_serialized_push::<T>(recs, recs[0]);
            if all_sorted::<T>(files@) {
                assert forall|i: int| 0 <= i < t.len() implies sorted_by_key::<T>(#[trigger] file_records::<T>(t[i])) by {
                    assert(t[i] == p0[len + i]);
                }
                assert forall|i: int| 0 <= i < pending@.len() implies sorted_by_key::<T>(#[trigger] file_records::<T>(pending@[i])) by {
                    if i < head.len() {
                        assert(pending@[i] == p0[i]);
                    }
                }
            }
        }
        proof {
            let o = outputs@.len();
            let fl = files@.len();
            let pp = p0.len();
            let t = tail@;
            if o == 0 {
                assert(p0 == files@);
                assert(t =~= files@.skip(len as int));
                assert(pending_after(fl, m, 0) == len + 1);
            } else {
                lemma_pending_after_step(fl, m, (o - 1) as nat);
                assert(pending_after(fl, m, o as nat) == len + 1);
                let prev = p0.last();
                assert(outputs@[o - 1] == outputs@.last());
                assert(prev.rest() == outputs@.last().rest());
                assert(file_records::<T>(prev).to_multiset() == union_ms::<T>(files@.skip(pp - 1)));
                assert(t =~= p0.skip(len as int));
                lemma_merged_suffix::<T>(files@, p0, len as int);
            }
            assert(pending@.take(pending@.len() - 1) =~= head);
            assert(head =~= p0.take(len as int));
            if o == 0 {
                assert(head =~= files@.take(len as int));
            }
            let outs2 = outputs@.push(output);
            assert forall|i: int| 0 <= i < o implies #[trigger] round_inputs::<T>(files@, outs2, m, i) == round_inputs::<T>(
                files@,
                outputs@,
                m,
                i,
            ) by {
                if i > 0 {
                    assert(outs2[i - 1] == outputs@[i - 1]);
                }
            }
            if o == 0 {
                assert(records_of_files::<T>(t) == round_inputs::<T>(files@, outs2, m, 0));
            } else {
                let prev = p0.last();
                let mid = files@.subrange(len as int, pp - 1);
                assert(t =~= mid + seq![prev]) by {
                    assert forall|i: int| 0 <= i < pp - 1 implies p0[i] == files@[i] by {
                        assert(p0[i] == p0.take(pp - 1)[i]);
                        assert(files@.take(pp - 1)[i] == files@[i]);
                    }
                }
                assert(outs2[o - 1] == outputs@.last());
                assert(file_records::<T>(prev) == file_records::<T>(outs2[o - 1]));
                assert(pending_after(fl, m, (o - 1) as nat) == pp);
                assert(records_of_files::<T>(t) =~= round_inputs::<T>(files@, outs2, m, o as int));
            }
        }
        outputs.push(output);
    }
    proof {
        if outputs@.len() > 0 {
            assert(pending@.len() == 1);
            assert(pending@ =~= seq![pending@.last()]);
            lemma_union_single::<T>(pending@.last());
            if all_sorted::<T>(files@) {
                assert(sorted_by_key::<T>(file_records::<T>(pending@[0])));
            }
        }
    }
    Ok(outputs)
}

} // verus!
