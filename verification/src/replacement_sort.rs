//! Replacement selection: cutting a file of records into sorted runs with a small buffer.
use vstd::prelude::*;
use vstd::multiset::Multiset;
use crate::memfile::{MemFile, lemma_rest_advance, lemma_write_at_end};
use crate::serialize::{Serializable, SerializeError, SortKey, serialized_seq, scan, records_of, lemma_scan_step, lemma_records_step};

verus! {

/// A slot of the selection buffer: empty for good, holding a record that may still go
/// into the current run, or holding one that has to wait for the next run.
pub enum FreezeWrapper<T> {
    Inactive,
    Active(T),
    Frozen(Option<T>),
}

/// The key of the record of an active slot.
pub open spec fn active_key<T: SortKey>(w: FreezeWrapper<T>) -> u64 {
    match w {
        FreezeWrapper::Active(v) => T::key_of(v@),
        _ => 0,
    }
}

/// Whether some slot among the first `n` is active.
pub open spec fn has_active_before<T>(s: Seq<FreezeWrapper<T>>, n: int) -> bool {
    exists|j: int| 0 <= j < n && j < s.len() && #[trigger] s[j] is Active
}

/// Slot `idx` holds the first smallest active record among the first `n` slots.
pub open spec fn first_min_active<T: SortKey>(s: Seq<FreezeWrapper<T>>, idx: int, n: int) -> bool {
    &&& 0 <= idx < n
    &&& s[idx] is Active
    &&& forall|j: int|
        0 <= j < n && #[trigger] s[j] is Active ==> active_key(s[idx]) <= active_key(s[j]) && (j
            < idx ==> active_key(s[idx]) < active_key(s[j]))
}

/// The slot to take the next record from: the first active slot with the smallest key, or,
/// where no slot is active, the last slot.
pub fn find<T: SortKey>(vec: &Vec<FreezeWrapper<T>>) -> (r: usize)
    ensures
        vec@.len() == 0 ==> r == 0,
        has_active_before(vec@, vec@.len() as int) ==> first_min_active(vec@, r as int, vec@.len() as int),
        vec@.len() > 0 && !has_active_before(vec@, vec@.len() as int) ==> r == vec@.len() - 1,
{
    let mut idx: usize = 0;
    let mut i: usize = 0;
    while i < vec.len()
        invariant
            i <= vec@.len(),
            i == 0 ==> idx == 0,
            has_active_before(vec@, i as int) ==> first_min_active(vec@, idx as int, i as int),
            i > 0 && !has_active_before(vec@, i as int) ==> idx == i - 1 && !(vec@[idx as int] is Active),
        decreases vec@.len() - i,
    {
        let entry = &vec[i];
        let current = &vec[idx];
        match current {
            FreezeWrapper::Inactive => {
                idx = i;
            },
            FreezeWrapper::Frozen(_) => {
                idx = i;
            },
            FreezeWrapper::Active(y) => match entry {
                FreezeWrapper::Inactive => {},
                FreezeWrapper::Frozen(_) => {},
                FreezeWrapper::Active(z) => {
                    if z.sort_key() < y.sort_key() {
                        idx = i;
                    } else {
                    }
                },
            },
        }
        proof {
            if has_active_before(vec@, i + 1) {
                if !has_active_before(vec@, i as int) {
                    assert(vec@[i as int] is Active);
                    assert forall|j: int| 0 <= j < i + 1 && #[trigger] vec@[j] is Active implies j == i by {
                        if j < i {
                            assert(has_active_before(vec@, i as int));
                        }
                    }
                }
            }
        }
        i += 1;
    }
    idx
}

/// Reads the next record: a slot that is empty for good where the read fails, one that
/// waits for the next run where the record is smaller than `min`, an active one else.
pub fn get_new<T: Serializable + SortKey>(input: &mut MemFile, min: &T) -> (r: FreezeWrapper<T>)
    ensures
        final(input).bytes() == old(input).bytes(),
        final(input).cursor() == old(input).cursor() + T::spec_deserialize(old(input).rest()).1,
        match T::spec_deserialize(old(input).rest()).0 {
            Err(_) => r is Inactive,
            Ok(v) => if T::key_of(v) < T::key_of(min@) {
                r matches FreezeWrapper::Frozen(Some(x)) && x@ == v
            } else {
                r matches FreezeWrapper::Active(x) && x@ == v
            },
        },
{
    let new_element = T::deserialize(input);
    let new_element = match new_element {
        Ok(x) => x,
        Err(_) => {
            return FreezeWrapper::Inactive;
        },
    };
    if new_element.sort_key() < min.sort_key() {
        FreezeWrapper::Frozen(Some(new_element))
    } else {
        FreezeWrapper::Active(new_element)
    }
}

/// The record a slot holds, if any, can be written.
pub open spec fn slot_writable<T: Serializable>(w: FreezeWrapper<T>) -> bool {
    match w {
        FreezeWrapper::Active(x) => T::writable(x@),
        FreezeWrapper::Frozen(Some(x)) => T::writable(x@),
        _ => true,
    }
}

/// The slot after the start of a new run: a waiting record becomes active.
pub open spec fn unfrozen<T>(w: FreezeWrapper<T>) -> FreezeWrapper<T> {
    match w {
        FreezeWrapper::Frozen(Some(v)) => FreezeWrapper::Active(v),
        _ => w,
    }
}

/// Starts a new run: every waiting record becomes active.
pub fn unfreeze_vec<T>(vec: &mut Vec<FreezeWrapper<T>>)
    requires
        forall|i: int| 0 <= i < old(vec)@.len() ==> !(#[trigger] old(vec)@[i] matches FreezeWrapper::Frozen(None)),
    ensures
        final(vec)@.len() == old(vec)@.len(),
        forall|i: int| 0 <= i < old(vec)@.len() ==> #[trigger] final(vec)@[i] == unfrozen(old(vec)@[i]),
{
    let mut i: usize = 0;
    while i < vec.len()
        invariant
            i <= vec@.len(),
            vec@.len() == old(vec)@.len(),
            forall|j: int| 0 <= j < i ==> #[trigger] vec@[j] == unfrozen(old(vec)@[j]),
            forall|j: int| i <= j < vec@.len() ==> #[trigger] vec@[j] == old(vec)@[j],
            forall|j: int| 0 <= j < old(vec)@.len() ==> !(#[trigger] old(vec)@[j] matches FreezeWrapper::Frozen(None)),
        decreases vec@.len() - i,
    {
        if let FreezeWrapper::Frozen(_) = &vec[i] {
            let element = vec.remove(i);
            let new_element = match element {
                FreezeWrapper::Frozen(Some(val)) => FreezeWrapper::Active(val),
                other => other,
            };
            vec.insert(i, new_element);
        }
        i += 1;
    }
}


/// The multiset of the records that a slot holds.
pub open spec fn slot_ms<T: View>(w: FreezeWrapper<T>) -> Multiset<T::V> {
    match w {
        FreezeWrapper::Active(v) => Multiset::singleton(v@),
        FreezeWrapper::Frozen(Some(v)) => Multiset::singleton(v@),
        _ => Multiset::empty(),
    }
}

/// The multiset of the records that the buffer holds.
pub open spec fn buffer_ms<T: View>(s: Seq<FreezeWrapper<T>>) -> Multiset<T::V>
    decreases s.len(),
{
    if s.len() == 0 {
        Multiset::empty()
    } else {
        buffer_ms(s.drop_last()).add(slot_ms(s.last()))
    }
}

/// The weight of the slots used to bound the work left: a slot that is not empty for good
/// counts 8, and one that waits counts 1 more.
pub open spec fn slot_weight<T>(w: FreezeWrapper<T>) -> nat {
    match w {
        FreezeWrapper::Inactive => 0,
        FreezeWrapper::Active(_) => 8,
        FreezeWrapper::Frozen(_) => 9,
    }
}

pub open spec fn buffer_weight<T>(s: Seq<FreezeWrapper<T>>) -> nat
    decreases s.len(),
{
    if s.len() == 0 {
        0
    } else {
        buffer_weight(s.drop_last()) + slot_weight(s.last())
    }
}

/// What a slot holds, its record taken by its view.
pub open spec fn slot_view<T: View>(w: FreezeWrapper<T>) -> FreezeWrapper<T::V> {
    match w {
        FreezeWrapper::Inactive => FreezeWrapper::Inactive,
        FreezeWrapper::Active(x) => FreezeWrapper::Active(x@),
        FreezeWrapper::Frozen(o) => FreezeWrapper::Frozen(
            match o {
                Some(x) => Some(x@),
                None => None,
            },
        ),
    }
}

/// What the slots of a buffer hold.
pub open spec fn slot_views<T: View>(s: Seq<FreezeWrapper<T>>) -> Seq<FreezeWrapper<T::V>> {
    s.map_values(|w: FreezeWrapper<T>| slot_view(w))
}

/// The key of the record of an active slot, from its view.
pub open spec fn view_key<T: SortKey>(w: FreezeWrapper<T::V>) -> u64 {
    match w {
        FreezeWrapper::Active(v) => T::key_of(v),
        _ => 0,
    }
}

/// Slot `idx` holds the first smallest active record of `s`.
pub open spec fn first_min_view<T: SortKey>(s: Seq<FreezeWrapper<T::V>>, idx: int) -> bool {
    &&& 0 <= idx < s.len()
    &&& s[idx] is Active
    &&& forall|j: int|
        0 <= j < s.len() && (#[trigger] s[j]) is Active ==> view_key::<T>(s[idx]) <= view_key::<T>(s[j]) && (j
            < idx ==> view_key::<T>(s[idx]) < view_key::<T>(s[j]))
}

/// The slot that the next record is taken from: the first active slot with the smallest
/// key, or the last slot where none is active.
pub open spec fn find_idx<T: SortKey>(s: Seq<FreezeWrapper<T::V>>) -> int {
    if exists|j: int| 0 <= j < s.len() && (#[trigger] s[j]) is Active {
        choose|i: int| first_min_view::<T>(s, i)
    } else {
        s.len() - 1
    }
}

/// The slot that takes the place of the record with view `min`, after a read from `rest`.
pub open spec fn refill<T: Serializable + SortKey>(rest: Seq<u8>, min: T::V) -> FreezeWrapper<T::V> {
    match T::spec_deserialize(rest).0 {
        Err(_) => FreezeWrapper::Inactive,
        Ok(x) => if T::key_of(x) < T::key_of(min) {
            FreezeWrapper::Frozen(Some(x))
        } else {
            FreezeWrapper::Active(x)
        },
    }
}

/// Every waiting record of `s` becomes active.
pub open spec fn unfreeze_all<V>(s: Seq<FreezeWrapper<V>>) -> Seq<FreezeWrapper<V>> {
    s.map_values(|w: FreezeWrapper<V>| unfrozen(w))
}

/// Replacing one slot changes the weight by the difference of the two slots' weights.
pub proof fn lemma_weight_update<V>(s: Seq<FreezeWrapper<V>>, i: int, x: FreezeWrapper<V>)
    requires
        0 <= i < s.len(),
    ensures
        buffer_weight(s.update(i, x)) + slot_weight(s[i]) == buffer_weight(s) + slot_weight(x),
    decreases s.len(),
{
    let u = s.update(i, x);
    if i == s.len() - 1 {
        assert(u.drop_last() =~= s.drop_last());
    } else {
        lemma_weight_update(s.drop_last(), i, x);
        assert(u.drop_last() =~= s.drop_last().update(i, x));
    }
}

/// Waking the waiting records of a buffer that has one lowers its weight.
pub proof fn lemma_unfreeze_weight<V>(s: Seq<FreezeWrapper<V>>, i: int)
    requires
        0 <= i < s.len(),
        s[i] matches FreezeWrapper::Frozen(Some(_)),
    ensures
        buffer_weight(unfreeze_all(s)) < buffer_weight(s),
    decreases s.len(),
{
    let t = unfreeze_all(s);
    assert(t.drop_last() =~= unfreeze_all(s.drop_last()));
    if i < s.len() - 1 {
        lemma_unfreeze_weight(s.drop_last(), i);
    } else {
        lemma_unfreeze_weight_no_more(s.drop_last());
    }
}

/// Waking the waiting records never raises the weight.
pub proof fn lemma_unfreeze_weight_no_more<V>(s: Seq<FreezeWrapper<V>>)
    ensures
        buffer_weight(unfreeze_all(s)) <= buffer_weight(s),
    decreases s.len(),
{
    if s.len() > 0 {
        let t = unfreeze_all(s);
        assert(t.drop_last() =~= unfreeze_all(s.drop_last()));
        lemma_unfreeze_weight_no_more(s.drop_last());
    }
}

/// The slot that `find` returns is the slot of `find_idx`.
proof fn lemma_find_idx<T: SortKey>(s: Seq<FreezeWrapper<T>>, r: int)
    requires
        s.len() > 0,
        0 <= r < s.len(),
        has_active_before(s, s.len() as int) ==> first_min_active(s, r, s.len() as int),
        !has_active_before(s, s.len() as int) ==> r == s.len() - 1,
    ensures
        find_idx::<T>(slot_views(s)) == r,
{
    let vs = slot_views(s);
    assert forall|j: int| 0 <= j < s.len() implies ((#[trigger] vs[j]) is Active <==> s[j] is Active) && view_key::<T>(vs[j])
        == active_key(s[j]) by {
        assert(vs[j] == slot_view(s[j]));
    }
    if has_active_before(s, s.len() as int) {
        let j0 = choose|j: int| 0 <= j < s.len() && j < s.len() && #[trigger] s[j] is Active;
        assert(vs[j0] is Active);
        assert(first_min_view::<T>(vs, r));
        let i = choose|i: int| first_min_view::<T>(vs, i);
        assert(first_min_view::<T>(vs, i));
        if i < r {
            assert(view_key::<T>(vs[r]) < view_key::<T>(vs[i]));
        } else if r < i {
            assert(view_key::<T>(vs[i]) < view_key::<T>(vs[r]));
        }
    } else {
        assert forall|j: int| 0 <= j < vs.len() implies !((#[trigger] vs[j]) is Active) by {
            if vs[j] is Active {
                assert(s[j] is Active);
            }
        }
    }
}

proof fn lemma_views_update<T: View>(s: Seq<FreezeWrapper<T>>, i: int, w: FreezeWrapper<T>)
    requires
        0 <= i < s.len(),
    ensures
        slot_views(s.update(i, w)) == slot_views(s).update(i, slot_view(w)),
{
    assert(slot_views(s.update(i, w)) =~= slot_views(s).update(i, slot_view(w)));
}

proof fn lemma_views_unfreeze<T: View>(s: Seq<FreezeWrapper<T>>, t: Seq<FreezeWrapper<T>>)
    requires
        s.len() == t.len(),
        forall|j: int| 0 <= j < s.len() ==> #[trigger] t[j] == unfrozen(s[j]),
    ensures
        slot_views(t) == unfreeze_all(slot_views(s)),
{
    assert forall|j: int| 0 <= j < s.len() implies #[trigger] slot_views(t)[j] == unfreeze_all(slot_views(s))[j] by {
        assert(t[j] == unfrozen(s[j]));
    }
    assert(slot_views(t) =~= unfreeze_all(slot_views(s)));
}

/// The runs that replacement selection writes from the state `slots`, `rest`, `runs`,
/// `cur`: the records left to read, the runs written and the run being written. Each step
/// takes the slot of `find_idx`: an active record goes to the current run and the next
/// record read takes its slot; a waiting one ends the run and wakes every waiting record;
/// an empty one ends the sort.
pub open spec fn simulate<T: Serializable + SortKey>(
    slots: Seq<FreezeWrapper<T::V>>,
    rest: Seq<u8>,
    runs: Seq<Seq<T::V>>,
    cur: Seq<T::V>,
) -> Seq<Seq<T::V>>
    decreases rest.len() * 64 + buffer_weight(slots),
{
    let idx = find_idx::<T>(slots);
    if 0 <= idx < slots.len() {
        match slots[idx] {
            FreezeWrapper::Active(v) => {
                let n = T::spec_deserialize(rest).1;
                proof {
                    T::lemma_deserialize_consumed(rest);
                    T::lemma_encoded_len_positive();
                    lemma_weight_update(slots, idx, refill::<T>(rest, v));
                }
                simulate::<T>(slots.update(idx, refill::<T>(rest, v)), rest.skip(n as int), runs, cur.push(v))
            },
            FreezeWrapper::Frozen(Some(_)) => {
                proof {
                    lemma_unfreeze_weight(slots, idx);
                }
                simulate::<T>(unfreeze_all(slots), rest, runs.push(cur), Seq::empty())
            },
            _ => runs.push(cur),
        }
    } else {
        runs.push(cur)
    }
}

/// The runs that replacement selection writes for the records of `input`: the buffer
/// starts with the first seven records, all active.
pub open spec fn replacement_runs<T: Serializable + SortKey>(input: Seq<u8>) -> Seq<Seq<T::V>> {
    simulate::<T>(
        records_of::<T>(input).take(7).map_values(|v: T::V| FreezeWrapper::Active(v)),
        input.skip(7 * T::encoded_len() as int),
        Seq::empty(),
        Seq::empty(),
    )
}

/// Every run is ordered by key.
pub open spec fn sorted_by_key<T: SortKey>(s: Seq<T::V>) -> bool {
    forall|i: int, j: int| 0 <= i <= j < s.len() ==> T::key_of(s[i]) <= T::key_of(s[j])
}

/// The buckets hold the runs: each the records of its run, one after another; every run is
/// ordered by key and holds at least one record.
pub open spec fn buckets_hold_runs<T: Serializable + SortKey>(buckets: Seq<MemFile>, runs: Seq<Seq<T::V>>) -> bool {
    &&& buckets.len() == runs.len()
    &&& forall|i: int| 0 <= i < runs.len() ==> {
        &&& #[trigger] buckets[i].bytes() == serialized_seq::<T>(runs[i])
        &&& sorted_by_key::<T>(runs[i])
        &&& runs[i].len() > 0
    }
}

/// The buckets hold runs ordered by key, made of records read from `input`, none more
/// often than it was read.
pub open spec fn sorted_runs_of<T: Serializable + SortKey>(buckets: Seq<MemFile>, input: Seq<u8>) -> bool {
    exists|runs: Seq<Seq<T::V>>|
        #![trigger buckets_hold_runs::<T>(buckets, runs)]
        buckets_hold_runs::<T>(buckets, runs) && runs.flatten().to_multiset().subset_of(
            scan::<T>(input).to_multiset(),
        )
}

proof fn lemma_buffer_update<T: View>(s: Seq<FreezeWrapper<T>>, i: int, x: FreezeWrapper<T>)
    requires
        0 <= i < s.len(),
    ensures
        buffer_ms(s.update(i, x)).add(slot_ms(s[i])) == buffer_ms(s).add(slot_ms(x)),
        buffer_weight(s.update(i, x)) + slot_weight(s[i]) == buffer_weight(s) + slot_weight(x),
    decreases s.len(),
{
    broadcast use vstd::multiset::group_multiset_axioms;

    let u = s.update(i, x);
    if i == s.len() - 1 {
        assert(u.drop_last() =~= s.drop_last());
        assert(buffer_ms(u).add(slot_ms(s[i])) =~= buffer_ms(s).add(slot_ms(x)));
    } else {
        lemma_buffer_update(s.drop_last(), i, x);
        assert(u.drop_last() =~= s.drop_last().update(i, x));
        assert(u.last() == s.last());
        assert(s.drop_last()[i] == s[i]);
        assert(buffer_ms(u) == buffer_ms(u.drop_last()).add(slot_ms(u.last())));
        assert(buffer_ms(s) == buffer_ms(s.drop_last()).add(slot_ms(s.last())));
        let a = buffer_ms(u.drop_last());
        let b = buffer_ms(s.drop_last());
        assert(a.add(slot_ms(s[i])) == b.add(slot_ms(x)));
        assert forall|v: T::V| #[trigger] buffer_ms(u).add(slot_ms(s[i])).count(v) == buffer_ms(s).add(
            slot_ms(x),
        ).count(v) by {
            assert(a.add(slot_ms(s[i])).count(v) == b.add(slot_ms(x)).count(v));
        }
        assert(buffer_ms(u).add(slot_ms(s[i])) =~= buffer_ms(s).add(slot_ms(x)));
    }
}

proof fn lemma_buffer_has<T: View>(s: Seq<FreezeWrapper<T>>, i: int)
    requires
        0 <= i < s.len(),
    ensures
        buffer_ms(s).len() >= slot_ms(s[i]).len(),
        buffer_weight(s) >= slot_weight(s[i]),
        buffer_weight(s) <= 9 * s.len(),
    decreases s.len(),
{
    lemma_weight_bound(s);
    if i < s.len() - 1 {
        lemma_buffer_has(s.drop_last(), i);
    }
}

proof fn lemma_weight_bound<T: View>(s: Seq<FreezeWrapper<T>>)
    ensures
        buffer_weight(s) <= 9 * s.len(),
    decreases s.len(),
{
    if s.len() > 0 {
        lemma_weight_bound(s.drop_last());
    }
}

proof fn lemma_push_ms<V>(log: Seq<V>, x: V)
    ensures
        log.push(x).to_multiset() == log.to_multiset().add(Multiset::singleton(x)),
{
    broadcast use vstd::multiset::group_multiset_axioms;
    broadcast use vstd::seq_lib::group_to_multiset_ensures;

    assert(log.push(x).to_multiset() =~= log.to_multiset().insert(x));
    assert(log.to_multiset().insert(x) =~= log.to_multiset().add(Multiset::singleton(x)));
}

proof fn lemma_unfreeze_buffer<T: View>(s: Seq<FreezeWrapper<T>>, t: Seq<FreezeWrapper<T>>, i: int)
    requires
        s.len() == t.len(),
        forall|j: int| 0 <= j < s.len() ==> !(#[trigger] s[j] matches FreezeWrapper::Frozen(None)),
        forall|j: int| 0 <= j < s.len() ==> #[trigger] t[j] == unfrozen(s[j]),
        0 <= i < s.len(),
        s[i] is Frozen,
    ensures
        buffer_ms(t) == buffer_ms(s),
        buffer_weight(t) < buffer_weight(s),
    decreases s.len(),
{
    if s.len() > 1 {
        if i < s.len() - 1 {
            lemma_unfreeze_buffer(s.drop_last(), t.drop_last(), i);
        } else {
            lemma_unfreeze_weight_le(s.drop_last(), t.drop_last());
        }
    } else {
        lemma_unfreeze_weight_le(s.drop_last(), t.drop_last());
    }
}

proof fn lemma_unfreeze_weight_le<T: View>(s: Seq<FreezeWrapper<T>>, t: Seq<FreezeWrapper<T>>)
    requires
        s.len() == t.len(),
        forall|j: int| 0 <= j < s.len() ==> !(#[trigger] s[j] matches FreezeWrapper::Frozen(None)),
        forall|j: int| 0 <= j < s.len() ==> #[trigger] t[j] == unfrozen(s[j]),
    ensures
        buffer_ms(t) == buffer_ms(s),
        buffer_weight(t) <= buffer_weight(s),
    decreases s.len(),
{
    if s.len() > 0 {
        lemma_unfreeze_weight_le(s.drop_last(), t.drop_last());
    }
}

proof fn lemma_write_step_ms<V>(
    written: Seq<V>,
    buf_old: Multiset<V>,
    buf_new: Multiset<V>,
    v: V,
    sw: Multiset<V>,
    log: Seq<V>,
    log2: Seq<V>,
)
    requires
        written.to_multiset().add(buf_old) == log.to_multiset(),
        buf_new.add(Multiset::singleton(v)) == buf_old.add(sw),
        log2.to_multiset() == log.to_multiset().add(sw),
    ensures
        written.push(v).to_multiset().add(buf_new) == log2.to_multiset(),
{
    broadcast use vstd::multiset::group_multiset_axioms;

    lemma_push_ms(written, v);
    let wm = written.to_multiset();
    assert forall|x: V| #[trigger] written.push(v).to_multiset().add(buf_new).count(x)
        == log2.to_multiset().count(x) by {
        assert(buf_new.add(Multiset::singleton(v)).count(x) == buf_old.add(sw).count(x));
        assert(wm.add(Multiset::singleton(v)).count(x) == wm.count(x) + Multiset::singleton(v).count(x));
        assert(written.push(v).to_multiset().add(buf_new).count(x) == wm.add(Multiset::singleton(v)).add(
            buf_new,
        ).count(x));
        assert(wm.add(Multiset::singleton(v)).add(buf_new).count(x) == wm.count(x) + Multiset::singleton(
            v,
        ).count(x) + buf_new.count(x));
        assert(buf_new.add(Multiset::singleton(v)).count(x) == buf_new.count(x) + Multiset::singleton(
            v,
        ).count(x));
        assert(buf_old.add(sw).count(x) == buf_old.count(x) + sw.count(x));
        assert(log.to_multiset().add(sw).count(x) == log.to_multiset().count(x) + sw.count(x));
        assert(wm.add(buf_old).count(x) == wm.count(x) + buf_old.count(x));
        assert(written.to_multiset().add(buf_old).count(x) == log.to_multiset().count(x));
    }
    assert(written.push(v).to_multiset().add(buf_new) =~= log2.to_multiset());
}

proof fn lemma_prefix_subset<V>(written: Seq<V>, buf: Multiset<V>, log: Seq<V>, rest: Seq<V>)
    requires
        written.to_multiset().add(buf) == log.to_multiset(),
    ensures
        written.to_multiset().subset_of((log + rest).to_multiset()),
{
    broadcast use vstd::multiset::group_multiset_axioms;

    vstd::seq_lib::lemma_multiset_commutative(log, rest);
    assert forall|x: V| #[trigger] written.to_multiset().count(x) <= (log + rest).to_multiset().count(x) by {
        assert(written.to_multiset().add(buf).count(x) == log.to_multiset().count(x));
    }
}

proof fn lemma_ms_len<V>(written: Seq<V>, buf: Multiset<V>, log: Seq<V>)
    requires
        written.to_multiset().add(buf) == log.to_multiset(),
    ensures
        written.len() + buf.len() == log.len(),
{
    broadcast use vstd::multiset::group_multiset_axioms;
    broadcast use vstd::seq_lib::group_to_multiset_ensures;

    assert(written.to_multiset().len() == written.len());
    assert(log.to_multiset().len() == log.len());
}

pub proof fn lemma_serialized_push<T: Serializable>(vs: Seq<T::V>, v: T::V)
    ensures
        serialized_seq::<T>(vs.push(v)) == serialized_seq::<T>(vs) + T::spec_serialize(v),
        serialized_seq::<T>(vs).len() == vs.len() * T::encoded_len(),
    decreases vs.len(),
{
    assert(vs.push(v).drop_last() =~= vs);
    if vs.len() == 0 {
        assert(vs.len() * T::encoded_len() == 0) by (nonlinear_arith)
            requires vs.len() == 0;
    }
    if vs.len() > 0 {
        lemma_serialized_push::<T>(vs.drop_last(), vs.last());
        T::lemma_serialize_len(vs.last());
        assert(vs.drop_last().push(vs.last()) =~= vs);
        assert(serialized_seq::<T>(vs).len() == serialized_seq::<T>(vs.drop_last()).len() + T::encoded_len());
        let n = vs.len() as int;
        let ll = T::encoded_len() as int;
        assert(n * ll == (n - 1) * ll + ll) by (nonlinear_arith);
        vstd::arithmetic::mul::lemma_mul_is_distributive_add_other_way(
            T::encoded_len() as int,
            (vs.len() - 1) as int,
            1,
        );
    }
}

/// Cuts the records of `input` into runs with a buffer of seven slots: the buffer's
/// smallest active record goes to the current run and the next record read takes its
/// slot, waiting for the next run where it is smaller; a run ends when every record left
/// waits, and the sort ends when the last slot is empty for good. Each run goes into a file
/// of its own.
pub fn replacement<T: Serializable + SortKey>(input: &mut MemFile) -> (r: Result<Vec<MemFile>, SerializeError>)
    requires
        records_of::<T>(old(input).rest()).len() >= 7,
    ensures
        final(input).bytes() == old(input).bytes(),
        r matches Ok(buckets) && buckets@.len() == replacement_runs::<T>(old(input).rest()).len() && (forall|i: int|
            0 <= i < buckets@.len() ==> (#[trigger] buckets@[i]).bytes() == serialized_seq::<T>(
                replacement_runs::<T>(old(input).rest())[i],
            )),
        // every run is ordered by key and holds at least one record, and no record is written
        // more often than it was read
        r matches Ok(buckets) && sorted_runs_of::<T>(buckets@, old(input).rest()),
{
    broadcast use vstd::seq_lib::group_to_multiset_ensures;
    broadcast use vstd::multiset::group_multiset_axioms;

    let ghost rest0 = input.rest();
    let ghost c0 = input.cursor();
    let ghost bytes0 = input.bytes();
    let ghost l = T::encoded_len();
    let ghost rs = records_of::<T>(rest0);
    let ghost target = replacement_runs::<T>(rest0);
    proof {
        input.lemma_bounds();
        T::lemma_encoded_len_positive();
        assert(rs.skip(0) =~= rs);
        assert(rest0.skip(0) =~= rest0);
        assert(slot_views(Seq::<FreezeWrapper<T>>::empty()) =~= rs.take(0).map_values(|v: T::V| FreezeWrapper::Active(v)));
    }
    let mut vec: Vec<FreezeWrapper<T>> = Vec::with_capacity(9);
    let ghost mut log: Seq<T::V> = Seq::empty();
    let mut k: usize = 0;
    while k < 7
        invariant
            k <= 7,
            input.bytes() == bytes0,
            bytes0.len() <= usize::MAX,
            l == T::encoded_len(),
            l > 0,
            vec@.len() == k,
            forall|j: int| 0 <= j < k ==> #[trigger] vec@[j] is Active,
            buffer_ms(vec@) == log.to_multiset(),
            buffer_weight(vec@) == 8 * k,
            forall|j: int| 0 <= j < vec@.len() ==> slot_writable::<T>(#[trigger] vec@[j]),
            log + scan::<T>(input.rest()) == scan::<T>(rest0),
            records_of::<T>(input.rest()).len() >= 7 - k,
            c0 + log.len() * l == input.cursor(),
            input.cursor() <= bytes0.len(),
            log.len() == k,
            rs == records_of::<T>(rest0),
            rs.len() >= 7,
            slot_views(vec@) == rs.take(k as int).map_values(|v: T::V| FreezeWrapper::Active(v)),
            records_of::<T>(input.rest()) == rs.skip(k as int),
            input.rest() == rest0.skip(k * l),
            k * l <= rest0.len(),
        decreases 7 - k,
    {
        proof {
            lemma_records_step::<T>(input.rest());
            lemma_scan_step::<T>(input.rest());
            lemma_rest_advance(input.bytes(), input.cursor() as int, l as int);
        }
        let ghost before = input.rest();
        let ghost old_vec = vec@;
        let v = T::deserialize(input).unwrap();
        let ghost vv = v@;
        proof {
            T::lemma_read_writable(before);
        }
        vec.push(FreezeWrapper::Active(v));
        proof {
            assert(vec@.drop_last() =~= old_vec);
            lemma_push_ms(log, vv);
            log = log.push(vv);
            assert(log + scan::<T>(input.rest()) =~= scan::<T>(rest0)) by {
                assert(scan::<T>(before) == seq![vv] + scan::<T>(before.skip(l as int)));
            }
            vstd::arithmetic::mul::lemma_mul_is_distributive_add_other_way(l as int, (log.len() - 1) as int, 1);
            assert(records_of::<T>(before) == seq![vv] + records_of::<T>(before.skip(l as int)));
            assert(input.rest() == before.skip(l as int));
            assert(records_of::<T>(input.rest()) =~= rs.skip(k + 1)) by {
                assert(rs.skip(k + 1) =~= rs.skip(k as int).drop_first());
                assert((seq![vv] + records_of::<T>(before.skip(l as int))).drop_first() =~= records_of::<T>(before.skip(l as int)));
            }
            assert(vv == rs[k as int]) by {
                assert(rs.skip(k as int)[0] == rs[k as int]);
            }
            let kl: int = k * l;
            assert((k + 1) * l == kl + l) by (nonlinear_arith)
                requires
                    kl == k * l,
            ;
            assert(before == rest0.skip(kl));
            assert(before.len() == rest0.len() - kl);
            assert(kl + l <= rest0.len());
            assert(before.skip(l as int) =~= rest0.skip(kl + l));
            assert(input.rest() == rest0.skip((k + 1) * l));
            let sv = slot_views(vec@);
            let want = rs.take(k + 1).map_values(|v: T::V| FreezeWrapper::Active(v));
            assert forall|j: int| 0 <= j < k + 1 implies #[trigger] sv[j] == want[j] by {
                assert(sv[j] == slot_view(vec@[j]));
                if j < k {
                    assert(vec@[j] == old_vec[j]);
                    assert(slot_views(old_vec)[j] == slot_view(old_vec[j]));
                    assert(slot_views(old_vec)[j] == rs.take(k as int).map_values(|v: T::V| FreezeWrapper::Active(v))[j]);
                }
            }
            assert(sv =~= want);
        }
        k += 1;
    }
    let mut buckets: Vec<MemFile> = Vec::new();
    let ghost mut runs: Seq<Seq<T::V>> = Seq::empty();
    let mut done = false;
    proof {
        assert(vec@[0] is Active);
        assert(has_active_before(vec@, 7));
        assert(runs.flatten() =~= Seq::<T::V>::empty());
        assert(runs.flatten().to_multiset().add(buffer_ms(vec@)) =~= log.to_multiset());
        assert(simulate::<T>(slot_views(vec@), input.rest(), runs, Seq::empty()) == target);
    }
    while !done
        invariant
            input.bytes() == bytes0,
            bytes0.len() <= usize::MAX,
            l == T::encoded_len(),
            l > 0,
            vec@.len() == 7,
            forall|j: int| 0 <= j < 7 ==> !(#[trigger] vec@[j] matches FreezeWrapper::Frozen(None)),
            log + scan::<T>(input.rest()) == scan::<T>(rest0),
            c0 + log.len() * l <= input.cursor(),
            input.cursor() <= bytes0.len(),
            runs.flatten().to_multiset().add(buffer_ms(vec@)) == log.to_multiset(),
            buckets_hold_runs::<T>(buckets@, runs),
            !done ==> has_active_before(vec@, 7),
            forall|j: int| 0 <= j < vec@.len() ==> slot_writable::<T>(#[trigger] vec@[j]),
            !done ==> simulate::<T>(slot_views(vec@), input.rest(), runs, Seq::empty()) == target,
            done ==> runs == target,
        decreases (input.rest().len() * 64 + buffer_weight(vec@)) * 2 + (if done {
            0int
        } else {
            1int
        }),
    {
        let mut bucket = MemFile::new();
        let ghost mut cur: Seq<T::V> = Seq::empty();
        let ghost m0 = input.rest().len() * 64 + buffer_weight(vec@);
        proof {
            assert(runs.flatten() + cur =~= runs.flatten());
        }
        loop
            invariant_except_break
                cur.len() > 0 ==> forall|j: int| 0 <= j < 7 && #[trigger] vec@[j] is Active
                    ==> T::key_of(cur.last()) <= active_key(vec@[j]),
                cur.len() > 0 || has_active_before(vec@, 7),
                !done,
                simulate::<T>(slot_views(vec@), input.rest(), runs, cur) == target,
            invariant
                input.bytes() == bytes0,
                bytes0.len() <= usize::MAX,
                l == T::encoded_len(),
                l > 0,
                vec@.len() == 7,
                forall|j: int| 0 <= j < 7 ==> !(#[trigger] vec@[j] matches FreezeWrapper::Frozen(None)),
                log + scan::<T>(input.rest()) == scan::<T>(rest0),
                c0 + log.len() * l <= input.cursor(),
                input.cursor() <= bytes0.len(),
                (runs.flatten() + cur).to_multiset().add(buffer_ms(vec@)) == log.to_multiset(),
                buckets_hold_runs::<T>(buckets@, runs),
                bucket.bytes() == serialized_seq::<T>(cur),
                bucket.cursor() == bucket.bytes().len(),
                sorted_by_key::<T>(cur),
                input.rest().len() * 64 + buffer_weight(vec@) <= m0,
                forall|j: int| 0 <= j < vec@.len() ==> slot_writable::<T>(#[trigger] vec@[j]),
            ensures
                cur.len() > 0,
                done || (input.rest().len() * 64 + buffer_weight(vec@) < m0 && has_active_before(vec@, 7)),
                done ==> runs.push(cur) == target,
                !done ==> simulate::<T>(slot_views(vec@), input.rest(), runs.push(cur), Seq::empty()) == target,
            decreases input.rest().len() * 64 + buffer_weight(vec@),
        {
            let min_idx = find(&vec);
            let ghost vs = vec@;
            let ghost rest_before = input.rest();
            proof {
                lemma_find_idx::<T>(vs, min_idx as int);
                assert(slot_views(vs)[min_idx as int] == slot_view(vs[min_idx as int]));
            }
            let new_val = match &vec[min_idx] {
                FreezeWrapper::Active(val) => {
                    proof {
                        lemma_serialized_push::<T>(cur, val@);
                        lemma_buffer_has(vs, min_idx as int);
                        lemma_ms_len(runs.flatten() + cur, buffer_ms(vs), log);
                        assert(slot_ms(vs[min_idx as int]).len() == 1);
                        vstd::arithmetic::mul::lemma_mul_inequality(
                            cur.len() + 1int,
                            log.len() as int,
                            l as int,
                        );
                        vstd::arithmetic::mul::lemma_mul_is_distributive_add_other_way(l as int, cur.len() as int, 1);
                        lemma_write_at_end(bucket.bytes(), T::spec_serialize(val@));
                    }
                    proof {
                        assert(slot_writable::<T>(vs[min_idx as int]));
                    }
                    let _ = val.serialize(&mut bucket);
                    proof {
                        lemma_serialized_push::<T>(cur, val@);
                        T::lemma_serialize_len(val@);
                    }
                    Some(get_new(input, val))
                },
                FreezeWrapper::Frozen(_) => { None },
                FreezeWrapper::Inactive => {
                    done = true;
                    proof {
                        assert(slot_views(vs)[min_idx as int] == FreezeWrapper::<T::V>::Inactive);
                    }
                    break ;
                },
            };
            match new_val {
                Some(val) => {
                    let ghost v = vs[min_idx as int]->Active_0@;
                    let ghost w = val;
                    let ghost (rr, n) = T::spec_deserialize(rest_before);
                    vec.push(val);
                    vec.swap_remove(min_idx);
                    proof {
                        assert(vec@ =~= vs.update(min_idx as int, w));
                        lemma_buffer_update(vs, min_idx as int, w);
                        lemma_scan_step::<T>(rest_before);
                        lemma_rest_advance(bytes0, (input.cursor() - n) as int, n as int);
                        T::lemma_deserialize_consumed(rest_before);
                        let log2 = match rr {
                            Ok(x) => log.push(x),
                            Err(_) => log,
                        };
                        assert(log2.to_multiset() == log.to_multiset().add(slot_ms(w))) by {
                            match rr {
                                Ok(x) => {
                                    lemma_push_ms(log, x);
                                },
                                Err(_) => {
                                    assert(log.to_multiset() =~= log.to_multiset().add(Multiset::<T::V>::empty()));
                                },
                            }
                        }
                        lemma_write_step_ms(
                            runs.flatten() + cur,
                            buffer_ms(vs),
                            buffer_ms(vec@),
                            v,
                            slot_ms(w),
                            log,
                            log2,
                        );
                        assert((runs.flatten() + cur).push(v) =~= runs.flatten() + cur.push(v));
                        if n > 0 {
                            assert(log2 + scan::<T>(input.rest()) =~= scan::<T>(rest0)) by {
                                match rr {
                                    Ok(x) => {
                                        assert(scan::<T>(rest_before) == seq![x] + scan::<T>(rest_before.skip(n as int)));
                                    },
                                    Err(_) => {
                                        assert(scan::<T>(rest_before) == Seq::<T::V>::empty() + scan::<T>(rest_before.skip(n as int)));
                                    },
                                }
                            }
                        } else {
                            assert(log2 + scan::<T>(input.rest()) =~= scan::<T>(rest0));
                        }
                        if rr is Ok {
                            vstd::arithmetic::mul::lemma_mul_is_distributive_add_other_way(l as int, log.len() as int, 1);
                        }
                        log = log2;
                        let old_cur = cur;
                        cur = cur.push(v);
                        assert forall|i: int, j: int| 0 <= i <= j < cur.len() implies T::key_of(cur[i]) <= T::key_of(cur[j]) by {
                            if j == cur.len() - 1 && i < j {
                                assert(vs[min_idx as int] is Active);
                                assert(T::key_of(old_cur.last()) <= active_key(vs[min_idx as int]));
                                assert(T::key_of(cur[i]) <= T::key_of(old_cur.last()));
                            }
                        }
                        assert forall|j: int| 0 <= j < 7 && #[trigger] vec@[j] is Active implies T::key_of(cur.last()) <= active_key(vec@[j]) by {
                            if j != min_idx {
                                assert(vs[j] is Active);
                            }
                        }
                        lemma_buffer_has(vs, min_idx as int);
                        lemma_views_update(vs, min_idx as int, w);
                        if rr is Ok {
                            T::lemma_read_writable(rest_before);
                        }
                        assert(slot_writable::<T>(w));
                        assert(slot_view(w) == refill::<T>(rest_before, v));
                        assert(slot_views(vs)[min_idx as int] == FreezeWrapper::<T::V>::Active(v));
                        assert(rest_before.skip(n as int) == input.rest());
                    }
                },
                None => {
                    unfreeze_vec(&mut vec);
                    proof {
                        lemma_unfreeze_buffer(vs, vec@, min_idx as int);
                        lemma_views_unfreeze(vs, vec@);
                        assert forall|j: int| 0 <= j < vec@.len() implies slot_writable::<T>(#[trigger] vec@[j]) by {
                            assert(slot_writable::<T>(vs[j]));
                        }
                        assert(vs[min_idx as int] matches FreezeWrapper::Frozen(Some(_)));
                        assert(vec@[min_idx as int] is Active);
                        assert(has_active_before(vec@, 7));
                    }
                    break ;
                },
            }
        }
        proof {
            runs.lemma_flatten_push(cur);
            runs = runs.push(cur);
        }
        buckets.push(bucket);
        proof {
            assert forall|i: int| 0 <= i < runs.len() implies {
                &&& #[trigger] buckets@[i].bytes() == serialized_seq::<T>(runs[i])
                &&& sorted_by_key::<T>(runs[i])
                &&& runs[i].len() > 0
            } by {
            }
        }
    }
    proof {
        assert(runs == target);
        lemma_prefix_subset(runs.flatten(), buffer_ms(vec@), log, scan::<T>(input.rest()));
        assert(log + scan::<T>(input.rest()) == scan::<T>(rest0));
        assert(buckets_hold_runs::<T>(buckets@, runs) && runs.flatten().to_multiset().subset_of(
            scan::<T>(rest0).to_multiset(),
        ));
        assert(sorted_runs_of::<T>(buckets@, rest0));
    }
    Ok(buckets)
}

} // verus!
