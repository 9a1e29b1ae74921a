//! Cutting a list of records into sorted buckets of a fixed size, each written to a file
//! of its own.
use vstd::prelude::*;
use crate::memfile::{MemFile, lemma_write_at_end};
use crate::serialize::{Serializable, SortKey, serialized_seq};
use crate::replacement_sort::{sorted_by_key, lemma_serialized_push};

verus! {

/// The views of the values of `v`.
pub open spec fn views<T: View>(v: Seq<T>) -> Seq<T::V> {
    v.map_values(|x: T| x@)
}

/// Whether a value has key `k`.
pub open spec fn key_is<T: SortKey>(k: u64) -> spec_fn(T::V) -> bool {
    |v: T::V| T::key_of(v) == k
}

/// The values of `s` whose key is `k`, in their order in `s`.
pub open spec fn with_key<T: SortKey>(s: Seq<T::V>, k: u64) -> Seq<T::V> {
    s.filter(key_is::<T>(k))
}

proof fn lemma_filter_push<A>(s: Seq<A>, a: A, pred: spec_fn(A) -> bool)
    ensures
        s.push(a).filter(pred) == if pred(a) {
            s.filter(pred).push(a)
        } else {
            s.filter(pred)
        },
{
    reveal(Seq::filter);
    assert(s.push(a).drop_last() =~= s);
}

proof fn lemma_filter_none<A>(s: Seq<A>, pred: spec_fn(A) -> bool)
    requires
        forall|i: int| 0 <= i < s.len() ==> !pred(#[trigger] s[i]),
    ensures
        s.filter(pred) == Seq::<A>::empty(),
    decreases s.len(),
{
    reveal(Seq::filter);
    if s.len() > 0 {
        lemma_filter_none(s.drop_last(), pred);
    }
}

/// Putting `x` in at `p`, after every value whose key is not larger and before every value
/// whose key is larger, adds `x` at the end of the values of its key and changes no other key's.
proof fn lemma_with_key_insert<T: SortKey>(s: Seq<T::V>, p: int, x: T::V, k: u64)
    requires
        0 <= p <= s.len(),
        forall|i: int| 0 <= i < p ==> T::key_of(#[trigger] s[i]) <= T::key_of(x),
        forall|i: int| p <= i < s.len() ==> T::key_of(x) < T::key_of(#[trigger] s[i]),
    ensures
        with_key::<T>(s.insert(p, x), k) == if T::key_of(x) == k {
            with_key::<T>(s, k).push(x)
        } else {
            with_key::<T>(s, k)
        },
{
    let pred = key_is::<T>(k);
    let a = s.take(p);
    let b = s.skip(p);
    assert(s =~= a + b);
    assert(s.insert(p, x) =~= a.push(x) + b);
    Seq::filter_distributes_over_add(a, b, pred);
    Seq::filter_distributes_over_add(a.push(x), b, pred);
    lemma_filter_push(a, x, pred);
    assert(with_key::<T>(s, k) == a.filter(pred) + b.filter(pred));
    assert(with_key::<T>(s.insert(p, x), k) == a.push(x).filter(pred) + b.filter(pred));
    if T::key_of(x) == k {
        lemma_filter_none(b, pred);
        assert(a.filter(pred) + Seq::<T::V>::empty() =~= a.filter(pred));
        assert(a.filter(pred).push(x) + Seq::<T::V>::empty() =~= a.filter(pred).push(x));
    } else {
        assert(a.push(x).filter(pred) == a.filter(pred));
    }
}

proof fn lemma_views_insert<T: View>(s: Seq<T>, p: int, x: T)
    requires
        0 <= p <= s.len(),
    ensures
        views(s.insert(p, x)) == views(s).insert(p, x@),
{
    assert(views(s.insert(p, x)) =~= views(s).insert(p, x@));
}

proof fn lemma_views_remove<T: View>(s: Seq<T>, p: int)
    requires
        0 <= p < s.len(),
    ensures
        views(s.remove(p)) == views(s).remove(p),
        views(s)[p] == s[p]@,
{
    assert(views(s.remove(p)) =~= views(s).remove(p));
}

/// Sorts `v` by key: each value, in turn, goes in after the values already placed whose key
/// is not larger, so values of equal key keep their order.
pub fn sort_records<T: SortKey>(v: Vec<T>) -> (r: Vec<T>)
    ensures
        views(r@).to_multiset() == views(v@).to_multiset(),
        sorted_by_key::<T>(views(r@)),
        forall|k: u64| #[trigger] with_key::<T>(views(r@), k) == with_key::<T>(views(v@), k),
        r@.len() == v@.len(),
{
    broadcast use vstd::seq_lib::group_to_multiset_ensures;
    broadcast use vstd::multiset::group_multiset_axioms;

    let ghost total = views(v@).to_multiset();
    let ghost all = views(v@);
    let mut rest = v;
    let mut sorted: Vec<T> = Vec::with_capacity(rest.len());
    let ghost n = rest@.len();
    proof {
        vstd::multiset::lemma_multiset_empty_len(views(sorted@).to_multiset());
        assert(views(sorted@).to_multiset().add(views(rest@).to_multiset()) =~= total);
        assert(views(rest@) =~= all.skip(0));
        assert forall|k: u64| #[trigger] with_key::<T>(views(sorted@), k) == with_key::<T>(all.take(0), k) by {
            assert(views(sorted@) =~= all.take(0));
        }
    }
    while rest.len() > 0
        invariant
            views(sorted@).to_multiset().add(views(rest@).to_multiset()) == total,
            sorted_by_key::<T>(views(sorted@)),
            sorted@.len() + rest@.len() == n,
            n == all.len(),
            views(rest@) == all.skip(sorted@.len() as int),
            forall|k: u64| #[trigger] with_key::<T>(views(sorted@), k) == with_key::<T>(all.take(sorted@.len() as int), k),
        decreases rest@.len(),
    {
        let ghost r0 = rest@;
        let x = rest.remove(0);
        let k = x.sort_key();
        let mut p: usize = 0;
        while p < sorted.len() && sorted[p].sort_key() <= k
            invariant
                p <= sorted@.len(),
                forall|i: int| 0 <= i < p ==> T::key_of(#[trigger] views(sorted@)[i]) <= k,
                sorted_by_key::<T>(views(sorted@)),
                k == T::key_of(x@),
            decreases sorted@.len() - p,
        {
            p += 1;
        }
        let ghost s0 = sorted@;
        sorted.insert(p, x);
        proof {
            let vs = views(s0);
            lemma_views_insert(s0, p as int, x);
            lemma_views_remove(r0, 0);
            assert forall|i: int| p <= i < vs.len() implies k < T::key_of(#[trigger] vs[i]) by {
                if p < vs.len() {
                    assert(k < T::key_of(vs[p as int]));
                }
            }
            let vn = vs.insert(p as int, x@);
            assert forall|a: int, b: int| 0 <= a <= b < vn.len() implies T::key_of(vn[a]) <= T::key_of(vn[b]) by {
                if a < p && b < p {
                } else if a < p && b == p {
                } else if a < p {
                    assert(vn[b] == vs[b - 1]);
                } else if a == p && b > p {
                    assert(vn[b] == vs[b - 1]);
                } else if a > p {
                    assert(vn[a] == vs[a - 1] && vn[b] == vs[b - 1]);
                }
            }
            vstd::seq_lib::to_multiset_insert(vs, p as int, x@);
            vstd::seq_lib::to_multiset_remove(views(r0), 0);
            assert(vn.to_multiset() == vs.to_multiset().insert(x@));
            assert(views(r0).remove(0).to_multiset() == views(r0).to_multiset().remove(x@));
            assert(views(sorted@) == vn);
            assert(views(rest@) == views(r0).remove(0));
            let a = vs.to_multiset();
            let b = views(r0).to_multiset();
            assert(views(r0)[0] == x@);
            assert(views(r0).contains(x@));
            vstd::seq_lib::to_multiset_contains(views(r0), x@);
            assert(b.count(x@) > 0);
            assert(a.add(b) == total);
            assert forall|y: T::V| #[trigger] a.insert(x@).add(b.remove(x@)).count(y) == a.add(b).count(y) by {
                if y == x@ {
                } else {
                }
            }
            assert(views(sorted@).to_multiset().add(views(rest@).to_multiset()) =~= total);
            let i = s0.len() as int;
            assert(x@ == all[i]) by {
                assert(views(r0)[0] == all.skip(i)[0]);
            }
            assert(views(rest@) =~= all.skip(i + 1));
            assert(all.take(i + 1) =~= all.take(i).push(x@));
            assert forall|kk: u64| #[trigger] with_key::<T>(views(sorted@), kk) == with_key::<T>(all.take(i + 1), kk) by {
                lemma_with_key_insert::<T>(vs, p as int, x@, kk);
                lemma_filter_push(all.take(i), x@, key_is::<T>(kk));
                assert(with_key::<T>(vs, kk) == with_key::<T>(all.take(i), kk));
            }
        }
    }
    proof {
        vstd::multiset::lemma_multiset_empty_len(views(rest@).to_multiset());
        assert(views(sorted@).to_multiset() =~= total);
        assert(all.take(n as int) =~= all);
    }
    sorted
}

/// The file holds the records of the values `chunk` sorted by key, values of equal key in
/// their order in `chunk`.
pub open spec fn bucket_holds<T: Serializable + SortKey>(f: MemFile, chunk: Seq<T::V>) -> bool {
    exists|run: Seq<T::V>|
        #![trigger serialized_seq::<T>(run)]
        f.bytes() == serialized_seq::<T>(run) && run.to_multiset() == chunk.to_multiset() && sorted_by_key::<T>(run)
            && forall|k: u64| #[trigger] with_key::<T>(run, k) == with_key::<T>(chunk, k)
}

/// The `i`-th chunk of `size` values taken from the end of `s`.
pub open spec fn chunk_from_end<V>(s: Seq<V>, size: nat, i: nat) -> Seq<V> {
    s.subrange(s.len() - (i + 1) * size, s.len() - i * size)
}

/// Cuts `records` into buckets of `bucket_size` records, taken from the end, each sorted by
/// key and written to a file of its own; records left over, fewer than a bucket, are not
/// written.
pub fn write_buckets<T: Serializable + SortKey>(records: Vec<T>, bucket_size: usize) -> (r: Vec<MemFile>)
    requires
        bucket_size > 0,
        bucket_size * T::encoded_len() <= usize::MAX,
        forall|i: int| 0 <= i < records@.len() ==> T::writable(#[trigger] records@[i]@),
    ensures
        r@.len() == records@.len() / (bucket_size as nat),
        forall|i: int|
            0 <= i < r@.len() ==> bucket_holds::<T>(
                #[trigger] r@[i],
                chunk_from_end(views(records@), bucket_size as nat, i as nat),
            ),
{
    let ghost all = views(records@);
    let ghost size = bucket_size as nat;
    let ghost l = T::encoded_len();
    let mut records = records;
    let count = records.len() / bucket_size;
    let mut buckets: Vec<MemFile> = Vec::new();
    let mut i: usize = 0;
    proof {
        T::lemma_encoded_len_positive();
        vstd::arithmetic::div_mod::lemma_fundamental_div_mod(records@.len() as int, bucket_size as int);
        assert(count * bucket_size <= records@.len()) by (nonlinear_arith)
            requires
                count == records@.len() as int / (bucket_size as int),
                bucket_size > 0,
        ;
    }
    while i < count
        invariant
            i <= count,
            count * bucket_size <= all.len(),
            count == all.len() / size,
            size == bucket_size,
            bucket_size > 0,
            l == T::encoded_len(),
            bucket_size * l <= usize::MAX,
            buckets@.len() == i,
            records@.len() + i * bucket_size == all.len(),
            views(records@) == all.take(records@.len() as int),
            forall|q: int| 0 <= q < records@.len() ==> T::writable(#[trigger] records@[q]@),
            forall|j: int| 0 <= j < i ==> bucket_holds::<T>(#[trigger] buckets@[j], chunk_from_end(all, size, j as nat)),
        decreases count - i,
    {
        proof {
            assert((i + 1) * bucket_size <= count * bucket_size) by (nonlinear_arith)
                requires
                    i < count,
            ;
            assert((i + 1) * bucket_size == i * bucket_size + bucket_size) by (nonlinear_arith);
        }
        let len = records.len().saturating_sub(bucket_size);
        let ghost before = records@;
        let tail = records.split_off(len);
        let ghost tail0 = tail@;
        let tail = sort_records(tail);
        proof {
            assert forall|q: int| 0 <= q < tail@.len() implies T::writable(#[trigger] tail@[q]@) by {
                let x = tail@[q]@;
                assert(views(tail@)[q] == x);
                vstd::seq_lib::to_multiset_contains(views(tail@), x);
                vstd::seq_lib::to_multiset_contains(views(tail0), x);
                assert(views(tail@).contains(x));
                let q0 = choose|q0: int| 0 <= q0 < views(tail0).len() && views(tail0)[q0] == x;
                assert(tail0[q0] == before[len + q0]);
            }
        }
        let mut bucket = MemFile::new();
        let mut j: usize = 0;
        let ghost mut run: Seq<T::V> = Seq::empty();
        while j < tail.len()
            invariant
                j <= tail@.len(),
                tail@.len() == bucket_size,
                bucket_size * l <= usize::MAX,
                l == T::encoded_len(),
                run == views(tail@).take(j as int),
                bucket.bytes() == serialized_seq::<T>(run),
                bucket.cursor() == bucket.bytes().len(),
                forall|q: int| 0 <= q < tail@.len() ==> T::writable(#[trigger] tail@[q]@),
            decreases tail@.len() - j,
        {
            proof {
                lemma_serialized_push::<T>(run, tail@[j as int]@);
                T::lemma_serialize_len(tail@[j as int]@);
                lemma_write_at_end(bucket.bytes(), T::spec_serialize(tail@[j as int]@));
                vstd::arithmetic::mul::lemma_mul_inequality(j + 1int, bucket_size as int, l as int);
                vstd::arithmetic::mul::lemma_mul_is_distributive_add_other_way(l as int, j as int, 1);
            }
            let _ = tail[j].serialize(&mut bucket);
            proof {
                assert(run.push(tail@[j as int]@) =~= views(tail@).take(j + 1));
                run = run.push(tail@[j as int]@);
            }
            j += 1;
        }
        proof {
            assert(run =~= views(tail@));
            let c = chunk_from_end(all, size, i as nat);
            assert(c =~= views(before).subrange(len as int, before.len() as int)) by {
                assert(len == before.len() - bucket_size);
                assert(all.len() - (i + 1) * size == len) by (nonlinear_arith)
                    requires
                        before.len() + i * bucket_size == all.len(),
                        len == before.len() - bucket_size,
                        size == bucket_size,
                ;
                assert(all.len() - i * size == before.len()) by (nonlinear_arith)
                    requires
                        before.len() + i * bucket_size == all.len(),
                        size == bucket_size,
                ;
            }
            assert(views(before.subrange(len as int, before.len() as int)) =~= views(before).subrange(len as int, before.len() as int));
            assert(bucket_holds::<T>(bucket, c));
            assert(views(records@) =~= all.take(records@.len() as int));
        }
        buckets.push(bucket);
        i += 1;
    }
    buckets
}

} // verus!
