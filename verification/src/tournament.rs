//! Tournament trees: the smallest of several values, kept up to date while values are
//! replaced or drop out. Each leaf holds a value and every inner node a copy of the
//! smaller of its two children's values (the right one on a tie).
use vstd::prelude::*;
use vstd::multiset::Multiset;
use crate::serialize::SortKey;

verus! {

/// A value that can be copied into a new value with the same view.
pub trait Duplicate: View + Sized {
    fn duplicate(&self) -> (r: Self)
        ensures
            r@ == self@,
    ;
}

/// A value together with the index of the file it was read from.
pub struct TWrapper<T> {
    pub wrap: T,
    pub file_idx: usize,
}

impl<T: View> View for TWrapper<T> {
    type V = (T::V, usize);

    open spec fn view(&self) -> (T::V, usize) {
        (self.wrap@, self.file_idx)
    }
}

/// A wrapped value is ordered by the value it wraps.
impl<T: SortKey> SortKey for TWrapper<T> {
    open spec fn key_of(v: (T::V, usize)) -> u64 {
        T::key_of(v.0)
    }

    fn sort_key(&self) -> (k: u64) {
        self.wrap.sort_key()
    }
}

impl<T: Duplicate> Duplicate for TWrapper<T> {
    fn duplicate(&self) -> (r: Self) {
        TWrapper { wrap: self.wrap.duplicate(), file_idx: self.file_idx }
    }
}

/// A node of a tournament tree.
pub struct Node<T> {
    pub val: T,
    pub left: Option<Box<Node<T>>>,
    pub right: Option<Box<Node<T>>>,
}

/// The value that wins a match: the left one where its key is smaller, the right one else.
pub open spec fn winner_of<T: SortKey>(l: T::V, r: T::V) -> T::V {
    if T::key_of(l) < T::key_of(r) {
        l
    } else {
        r
    }
}

/// The values of the leaves of the tree at `n`, from left to right.
pub open spec fn leaves<T: View>(n: Node<T>) -> Seq<T::V>
    decreases n,
{
    match n.left {
        Some(l) => match n.right {
            Some(r) => leaves(*l) + leaves(*r),
            None => leaves(*l),
        },
        None => match n.right {
            Some(r) => leaves(*r),
            None => seq![n.val@],
        },
    }
}

/// The values of the leaves of an optional subtree.
pub open spec fn opt_leaves<T: View>(o: Option<Box<Node<T>>>) -> Seq<T::V> {
    match o {
        Some(b) => leaves(*b),
        None => Seq::empty(),
    }
}

/// A tournament tree: every inner node has two children and holds the winner of their
/// values.
pub open spec fn tree_ok<T: SortKey>(n: Node<T>) -> bool
    decreases n,
{
    match n.left {
        Some(l) => match n.right {
            Some(r) => tree_ok::<T>(*l) && tree_ok::<T>(*r) && n.val@ == winner_of::<T>(l.val@, r.val@),
            None => false,
        },
        None => n.right is None,
    }
}

/// The tree of values that a node stands for, without the copies of the winners: a leaf's
/// value, or the trees of its two children.
pub enum TreeView<V> {
    Leaf(V),
    Inner(Box<TreeView<V>>, Box<TreeView<V>>),
}

/// The tree of values of the tree at `n`.
pub open spec fn tree_view<T: View>(n: Node<T>) -> TreeView<T::V>
    decreases n,
{
    match n.left {
        Some(l) => match n.right {
            Some(r) => TreeView::Inner(Box::new(tree_view(*l)), Box::new(tree_view(*r))),
            None => tree_view(*l),
        },
        None => match n.right {
            Some(r) => tree_view(*r),
            None => TreeView::Leaf(n.val@),
        },
    }
}

/// The trees of values of `nodes`.
pub open spec fn views_of<T: View>(nodes: Seq<Node<T>>) -> Seq<TreeView<T::V>> {
    nodes.map_values(|n: Node<T>| tree_view(n))
}

/// One level of pairing: the last two trees go under one node, then the two before them,
/// and so on; a tree left over at the front moves up alone. The new level lists the new
/// nodes in the order they are made.
pub open spec fn pair_level<V>(s: Seq<TreeView<V>>) -> Seq<TreeView<V>>
    decreases s.len(),
{
    if s.len() <= 1 {
        s
    } else {
        seq![TreeView::Inner(Box::new(s[s.len() - 2]), Box::new(s[s.len() - 1]))] + pair_level(
            s.take(s.len() - 2),
        )
    }
}

/// One level of pairing halves the number of trees, rounding up.
pub proof fn lemma_pair_level_len<V>(s: Seq<TreeView<V>>)
    ensures
        pair_level(s).len() == (s.len() + 1) / 2,
    decreases s.len(),
{
    if s.len() > 1 {
        lemma_pair_level_len(s.take(s.len() - 2));
    }
}

/// The tree that pairing level after level builds over the trees `s`, up to one root.
pub open spec fn build_tree<V>(s: Seq<TreeView<V>>) -> TreeView<V>
    decreases s.len(),
{
    if s.len() <= 1 {
        s[0]
    } else {
        proof {
            lemma_pair_level_len(s);
        }
        build_tree(pair_level(s))
    }
}

/// In a tournament tree the root holds the value of one of the leaves, and no leaf has a
/// smaller key.
pub proof fn lemma_root_is_min<T: SortKey>(n: Node<T>)
    requires
        tree_ok::<T>(n),
    ensures
        leaves::<T>(n).len() >= 1,
        leaves::<T>(n).contains(n.val@),
        forall|i: int| 0 <= i < leaves::<T>(n).len() ==> T::key_of(n.val@) <= #[trigger] T::key_of(leaves::<T>(n)[i]),
    decreases n,
{
    match n.left {
        Some(l) => match n.right {
            Some(r) => {
                lemma_root_is_min::<T>(*l);
                lemma_root_is_min::<T>(*r);
                let a = leaves::<T>(*l);
                let b = leaves::<T>(*r);
                assert(leaves::<T>(n) == a + b);
                if n.val@ == l.val@ {
                    let j = choose|j: int| 0 <= j < a.len() && a[j] == l.val@;
                    assert((a + b)[j] == n.val@);
                } else {
                    let j = choose|j: int| 0 <= j < b.len() && b[j] == r.val@;
                    assert((a + b)[a.len() + j] == n.val@);
                }
                assert forall|i: int| 0 <= i < leaves::<T>(n).len() implies T::key_of(n.val@) <= #[trigger] T::key_of(leaves::<T>(n)[i]) by {
                    if i < a.len() {
                        assert((a + b)[i] == a[i]);
                    } else {
                        assert((a + b)[i] == b[i - a.len()]);
                    }
                }
            },
            None => {},
        },
        None => {
            assert(leaves::<T>(n)[0] == n.val@);
        },
    }
}

/// The values of the leaves of all the trees of `nodes`, counted with multiplicity.
pub open spec fn forest_ms<T: View>(nodes: Seq<Node<T>>) -> Multiset<T::V>
    decreases nodes.len(),
{
    if nodes.len() == 0 {
        Multiset::empty()
    } else {
        forest_ms(nodes.drop_last()).add(leaves(nodes.last()).to_multiset())
    }
}

/// Every tree of `nodes` is a tournament tree.
pub open spec fn all_trees_ok<T: SortKey>(nodes: Seq<Node<T>>) -> bool {
    forall|i: int| 0 <= i < nodes.len() ==> tree_ok::<T>(#[trigger] nodes[i])
}

proof fn lemma_seq1_ms<V>(x: V)
    ensures
        seq![x].to_multiset() == Multiset::<V>::empty().insert(x),
{
    broadcast use vstd::seq_lib::group_to_multiset_ensures;

    let e = Seq::<V>::empty();
    vstd::multiset::lemma_multiset_empty_len(e.to_multiset());
    assert(seq![x] =~= e.push(x));
}

proof fn lemma_forest_push<T: View>(nodes: Seq<Node<T>>, n: Node<T>)
    ensures
        forest_ms(nodes.push(n)) == forest_ms(nodes).add(leaves(n).to_multiset()),
{
    assert(nodes.push(n).drop_last() =~= nodes);
}

proof fn lemma_forest_single<T: View>(nodes: Seq<Node<T>>)
    requires
        nodes.len() == 1,
    ensures
        forest_ms(nodes) == leaves(nodes[0]).to_multiset(),
{
    broadcast use vstd::multiset::group_multiset_axioms;

    assert(nodes.drop_last() =~= Seq::<Node<T>>::empty());
    assert(forest_ms(nodes.drop_last()) == Multiset::<T::V>::empty());
    assert(nodes.last() == nodes[0]);
    assert(forest_ms(nodes) =~= leaves(nodes[0]).to_multiset());
}

impl<T> Node<T> {
    /// A tree of one leaf.
    pub fn new_leaf(val: T) -> (r: Node<T>)
        ensures
            r.val == val,
            r.left is None,
            r.right is None,
    {
        Node { val, left: None, right: None }
    }
}

impl<T: SortKey + Duplicate> Node<T> {
    /// The tree whose children are `left` and `right` and whose root holds a copy of the
    /// winner of their roots.
    pub fn choose_winner(left: Node<T>, right: Node<T>) -> (r: Node<T>)
        ensures
            r.val@ == winner_of::<T>(left.val@, right.val@),
            r.left == Some(Box::new(left)),
            r.right == Some(Box::new(right)),
    {
        if left.val.sort_key() < right.val.sort_key() {
            Node { val: left.val.duplicate(), left: Some(Box::new(left)), right: Some(Box::new(right)) }
        } else {
            Node { val: right.val.duplicate(), left: Some(Box::new(left)), right: Some(Box::new(right)) }
        }
    }
}

impl<T: SortKey + Duplicate> Node<T> {
    /// Builds a tournament tree over `values`: their leaves are paired from the end, each
    /// pair under a node holding its winner, a node left over moves up alone, and so on
    /// up to one root.
    pub fn construct(values: Vec<T>) -> (r: Node<T>)
        requires
            values@.len() > 0,
        ensures
            tree_ok::<T>(r),
            tree_view::<T>(r) == build_tree(values@.map_values(|v: T| TreeView::<T::V>::Leaf(v@))),
            leaves::<T>(r).to_multiset() == values@.map_values(|v: T| v@).to_multiset(),
    {
        broadcast use vstd::multiset::group_multiset_axioms;
        broadcast use vstd::seq_lib::group_to_multiset_ensures;

        let ghost total = values@.map_values(|v: T| v@).to_multiset();
        let ghost n0 = values@.len();
        let ghost values0 = values@;
        let ghost lv0 = values@.map_values(|v: T| TreeView::<T::V>::Leaf(v@));
        let mut values = values;
        let mut reversed: Vec<Node<T>> = Vec::new();
        proof {
            assert(forest_ms::<T>(reversed@).add(values@.map_values(|v: T| v@).to_multiset()) =~= total);
        }
        while values.len() > 0
            invariant
                all_trees_ok::<T>(reversed@),
                forest_ms::<T>(reversed@).add(values@.map_values(|v: T| v@).to_multiset()) == total,
                reversed@.len() + values@.len() == n0,
                n0 == values0.len(),
                values@ == values0.take(values@.len() as int),
                forall|j: int| 0 <= j < reversed@.len() ==> tree_view::<T>(#[trigger] reversed@[j]) == TreeView::<T::V>::Leaf(values0[n0 - 1 - j]@),
            decreases values@.len(),
        {
            let ghost before = values@;
            let x = values.pop().unwrap();
            let ghost leaf = Node::<T> { val: x, left: None, right: None };
            proof {
                assert(before.map_values(|v: T| v@) =~= values@.map_values(|v: T| v@).push(x@));
                lemma_forest_push(reversed@, leaf);
                assert(leaves::<T>(leaf) =~= seq![x@]);
                assert(seq![x@] =~= Seq::<T::V>::empty().push(x@));
                let a = forest_ms::<T>(reversed@);
                let m = values@.map_values(|v: T| v@).to_multiset();
                let lx = leaves::<T>(leaf).to_multiset();
                lemma_seq1_ms(x@);
                assert(lx =~= Multiset::<T::V>::empty().insert(x@));
                let ms = values@.map_values(|v: T| v@);
                vstd::seq_lib::to_multiset_build(ms, x@);
                assert(before.map_values(|v: T| v@).to_multiset() =~= m.insert(x@));
                assert(a.add(m.insert(x@)) == total);
                assert(forest_ms::<T>(reversed@.push(leaf)) == a.add(lx));
                assert(a.add(lx).add(m) =~= a.add(m.insert(x@)));
                assert(x == values0[values@.len() as int]);
                assert(values@ =~= values0.take(values@.len() as int));
            }
            reversed.push(Node::new_leaf(x));
        }
        let mut iteration: Vec<Node<T>> = Vec::new();
        proof {
            assert(values@.map_values(|v: T| v@) =~= Seq::<T::V>::empty());
            assert(forest_ms::<T>(iteration@).add(forest_ms::<T>(reversed@)) =~= total);
        }
        while reversed.len() > 0
            invariant
                all_trees_ok::<T>(reversed@),
                all_trees_ok::<T>(iteration@),
                forest_ms::<T>(iteration@).add(forest_ms::<T>(reversed@)) == total,
                reversed@.len() + iteration@.len() == n0,
                n0 == values0.len(),
                forall|j: int| 0 <= j < reversed@.len() ==> tree_view::<T>(#[trigger] reversed@[j]) == TreeView::<T::V>::Leaf(values0[n0 - 1 - j]@),
                forall|j: int| 0 <= j < iteration@.len() ==> tree_view::<T>(#[trigger] iteration@[j]) == TreeView::<T::V>::Leaf(values0[j]@),
            decreases reversed@.len(),
        {
            let ghost before = reversed@;
            let n = reversed.pop().unwrap();
            proof {
                assert(before.drop_last() =~= reversed@);
                assert(n == before[before.len() - 1]);
                lemma_forest_push(iteration@, n);
                assert(forest_ms::<T>(iteration@.push(n)).add(forest_ms::<T>(reversed@)) =~= total);
            }
            iteration.push(n);
        }
        let mut next_iteration: Vec<Node<T>> = Vec::with_capacity(iteration.len() / 2);
        proof {
            assert(forest_ms::<T>(iteration@) =~= total);
            assert(views_of(iteration@) =~= lv0);
        }
        while iteration.len() > 1
            invariant
                all_trees_ok::<T>(iteration@),
                forest_ms::<T>(iteration@) == total,
                iteration@.len() >= 1,
                next_iteration@.len() == 0,
                build_tree(views_of(iteration@)) == build_tree(lv0),
            decreases iteration@.len(),
        {
            let ghost len0 = iteration@.len();
            let ghost level0 = views_of(iteration@);
            proof {
                assert(views_of(next_iteration@) + pair_level(views_of(iteration@)) =~= pair_level(level0));
            }
            proof {
                assert(forest_ms::<T>(iteration@).add(forest_ms::<T>(next_iteration@)) =~= total);
            }
            while !iteration.is_empty()
                invariant
                    all_trees_ok::<T>(iteration@),
                    all_trees_ok::<T>(next_iteration@),
                    forest_ms::<T>(iteration@).add(forest_ms::<T>(next_iteration@)) == total,
                    len0 >= 2,
                    iteration@.len() <= len0,
                    iteration@.len() > 0 ==> len0 - iteration@.len() == 2 * next_iteration@.len(),
                    iteration@.len() == 0 ==> 2 * next_iteration@.len() <= len0 + 1 && next_iteration@.len() >= 1,
                    views_of(next_iteration@) + pair_level(views_of(iteration@)) == pair_level(level0),
                decreases iteration@.len(),
            {
                let ghost s0 = iteration@;
                let right = iteration.pop().unwrap();
                let ghost s1 = iteration@;
                let maybe_left = iteration.pop();
                let parent = match maybe_left {
                    Some(left) => Node::choose_winner(left, right),
                    None => right,
                };
                proof {
                    assert(s0.drop_last() =~= s1);
                    let v0 = views_of(s0);
                    if s1.len() > 0 {
                        assert(views_of(iteration@) =~= v0.take(v0.len() - 2));
                        assert(v0[v0.len() - 2] == tree_view(s1.last()));
                        assert(v0[v0.len() - 1] == tree_view(right));
                        assert(tree_view(parent) == TreeView::Inner(Box::new(v0[v0.len() - 2]), Box::new(v0[v0.len() - 1])));
                        assert(views_of(next_iteration@.push(parent)) + pair_level(views_of(iteration@)) =~= views_of(next_iteration@) + pair_level(v0));
                    } else {
                        assert(v0 =~= seq![tree_view(right)]);
                        assert(views_of(iteration@) =~= Seq::<TreeView<T::V>>::empty());
                        assert(views_of(next_iteration@.push(parent)) + pair_level(views_of(iteration@)) =~= views_of(next_iteration@) + pair_level(v0));
                    }
                    assert(tree_ok::<T>(parent)) by {
                        if s1.len() > 0 {
                            assert(tree_ok::<T>(s1[s1.len() - 1]));
                        }
                    }
                    lemma_forest_push(next_iteration@, parent);
                    let nx = forest_ms::<T>(next_iteration@);
                    let lr = leaves::<T>(right).to_multiset();
                    assert(forest_ms::<T>(s0) == forest_ms::<T>(s1).add(lr));
                    if s1.len() > 0 {
                        let left = s1.last();
                        assert(s1.drop_last() =~= iteration@);
                        assert(leaves::<T>(parent) == leaves::<T>(left) + leaves::<T>(right));
                        vstd::seq_lib::lemma_multiset_commutative(leaves::<T>(left), leaves::<T>(right));
                        let ll = leaves::<T>(left).to_multiset();
                        assert(forest_ms::<T>(s1) == forest_ms::<T>(iteration@).add(ll));
                        assert(forest_ms::<T>(iteration@).add(nx.add(ll.add(lr))) =~= forest_ms::<T>(s0).add(nx));
                    } else {
                        assert(iteration@ =~= s1);
                        assert(forest_ms::<T>(iteration@).add(nx.add(lr)) =~= forest_ms::<T>(s0).add(nx));
                    }
                    assert(forest_ms::<T>(iteration@).add(forest_ms::<T>(next_iteration@.push(parent))) =~= total);
                }
                next_iteration.push(parent);
            }
            proof {
                assert(pair_level(views_of(iteration@)) =~= Seq::<TreeView<T::V>>::empty());
                assert(views_of(next_iteration@) + Seq::<TreeView<T::V>>::empty() =~= views_of(next_iteration@));
                assert(build_tree(level0) == build_tree(pair_level(level0)));
            }
            iteration = next_iteration;
            next_iteration = Vec::with_capacity(iteration.len() / 2);
        }
        proof {
            lemma_forest_single(iteration@);
            assert(tree_ok::<T>(iteration@[0]));
            assert(build_tree(views_of(iteration@)) == views_of(iteration@)[0]);
        }
        iteration.pop().unwrap()
    }
}

/// Which child of its parent a node is.
#[derive(Debug, Clone, Copy, PartialEq, Eq, Structural)]
pub enum Side {
    Left,
    Right,
}

/// A position in a tree: the subtree at that position, and the path back to the root, each
/// step holding its node with the child that the path went through taken out.
pub struct NodeZipper<T> {
    pub node: Node<T>,
    pub parent: Option<Box<NodeZipper<T>>>,
    pub side: Side,
}

/// `p` with `child` put back on `side`.
pub open spec fn attach<T>(p: Node<T>, child: Node<T>, side: Side) -> Node<T> {
    match side {
        Side::Left => Node { val: p.val, left: Some(Box::new(child)), right: p.right },
        Side::Right => Node { val: p.val, left: p.left, right: Some(Box::new(child)) },
    }
}

/// `n` with its child on `side` taken out.
pub open spec fn detach<T>(n: Node<T>, side: Side) -> Node<T> {
    match side {
        Side::Left => Node { val: n.val, left: None, right: n.right },
        Side::Right => Node { val: n.val, left: n.left, right: None },
    }
}

/// The child of `n` on `side`, where there is one.
pub open spec fn child_on<T>(n: Node<T>, side: Side) -> Option<Box<Node<T>>> {
    match side {
        Side::Left => n.left,
        Side::Right => n.right,
    }
}

/// The tree that the path `ctx` leads to, with `node` put back at its end, on `side`.
pub open spec fn plug_into<T>(ctx: Option<Box<NodeZipper<T>>>, node: Node<T>, side: Side) -> Node<T>
    decreases ctx,
{
    match ctx {
        None => node,
        Some(p) => plug_into(p.parent, attach(p.node, node, side), p.side),
    }
}

/// The number of steps of the path `ctx`.
pub open spec fn ctx_depth<T>(ctx: Option<Box<NodeZipper<T>>>) -> nat
    decreases ctx,
{
    match ctx {
        None => 0,
        Some(p) => 1 + ctx_depth(p.parent),
    }
}

/// The leaves that lie left of the end of the path `ctx`, reached on `side`.
pub open spec fn ctx_before<T: View>(ctx: Option<Box<NodeZipper<T>>>, side: Side) -> Seq<T::V>
    decreases ctx,
{
    match ctx {
        None => Seq::empty(),
        Some(p) => ctx_before(p.parent, p.side) + (match side {
            Side::Left => Seq::empty(),
            Side::Right => opt_leaves(p.node.left),
        }),
    }
}

/// The leaves that lie right of the end of the path `ctx`, reached on `side`.
pub open spec fn ctx_after<T: View>(ctx: Option<Box<NodeZipper<T>>>, side: Side) -> Seq<T::V>
    decreases ctx,
{
    match ctx {
        None => Seq::empty(),
        Some(p) => (match side {
            Side::Left => opt_leaves(p.node.right),
            Side::Right => Seq::empty(),
        }) + ctx_after(p.parent, p.side),
    }
}

/// Every step of the path `ctx` keeps, beside the child it went through, a sibling that
/// is a tournament tree.
pub open spec fn ctx_ok<T: SortKey>(ctx: Option<Box<NodeZipper<T>>>, side: Side) -> bool
    decreases ctx,
{
    match ctx {
        None => true,
        Some(p) => (match side {
            Side::Left => p.node.right matches Some(r) && tree_ok::<T>(*r),
            Side::Right => p.node.left matches Some(l) && tree_ok::<T>(*l),
        }) && ctx_ok(p.parent, p.side),
    }
}

/// The height of a tree.
pub open spec fn height<T>(n: Node<T>) -> nat
    decreases n,
{
    let hl: nat = match n.left {
        Some(l) => height(*l),
        None => 0,
    };
    let hr: nat = match n.right {
        Some(r) => height(*r),
        None => 0,
    };
    1 + if hl < hr {
        hr
    } else {
        hl
    }
}

/// A move of a position in a tree: down to a child, or up to the parent.
pub enum ZipMove {
    Down(Side),
    Up,
}

/// The position below `z` on `side`.
pub open spec fn zip_down<T>(z: NodeZipper<T>, side: Side) -> NodeZipper<T> {
    NodeZipper {
        node: *child_on(z.node, side)->Some_0,
        parent: Some(Box::new(NodeZipper { node: detach(z.node, side), parent: z.parent, side: z.side })),
        side,
    }
}

/// The position above `z`.
pub open spec fn zip_up<T>(z: NodeZipper<T>) -> NodeZipper<T> {
    NodeZipper { node: attach(z.parent->Some_0.node, z.node, z.side), parent: z.parent->Some_0.parent, side: z.parent->Some_0.side }
}

/// The position that the moves `moves` lead to from `z`, where each of them can be made.
pub open spec fn zip_moves<T>(z: NodeZipper<T>, moves: Seq<ZipMove>) -> Option<NodeZipper<T>>
    decreases moves.len(),
{
    if moves.len() == 0 {
        Some(z)
    } else {
        match moves[0] {
            ZipMove::Down(side) => if child_on(z.node, side) is Some {
                zip_moves(zip_down(z, side), moves.drop_first())
            } else {
                None
            },
            ZipMove::Up => if z.parent is Some {
                zip_moves(zip_up(z), moves.drop_first())
            } else {
                None
            },
        }
    }
}

proof fn lemma_zip_down_plug<T>(z: NodeZipper<T>, side: Side)
    requires
        child_on(z.node, side) is Some,
    ensures
        zip_down(z, side).plug() == z.plug(),
{
    assert(attach(detach(z.node, side), *child_on(z.node, side)->Some_0, side) == z.node);
}

/// However a position moves down and up from the root of a tree, putting the tree back
/// together gives the tree it started from.
pub proof fn lemma_zip_moves_keep_tree<T>(z: NodeZipper<T>, moves: Seq<ZipMove>)
    ensures
        zip_moves(z, moves) matches Some(w) ==> w.plug() == z.plug(),
    decreases moves.len(),
{
    if moves.len() > 0 {
        match moves[0] {
            ZipMove::Down(side) => if child_on(z.node, side) is Some {
                lemma_zip_down_plug(z, side);
                lemma_zip_moves_keep_tree(zip_down(z, side), moves.drop_first());
            },
            ZipMove::Up => if z.parent is Some {
                lemma_zip_moves_keep_tree(zip_up(z), moves.drop_first());
            },
        }
    }
}

/// Starting at the root of a tree `t`, whatever moves down to a child and up to the parent
/// are made, putting the position back together (what `finish` returns) gives `t` unchanged.
pub proof fn lemma_finish_from_root<T>(t: Node<T>, side: Side, moves: Seq<ZipMove>)
    ensures
        zip_moves(NodeZipper { node: t, parent: None, side }, moves) matches Some(w) ==> w.plug() == t,
{
    lemma_zip_moves_keep_tree(NodeZipper { node: t, parent: None, side }, moves);
}

impl<T> NodeZipper<T> {
    /// The whole tree, with the subtree put back in its place.
    pub open spec fn plug(self) -> Node<T> {
        plug_into(self.parent, self.node, self.side)
    }

    /// Moves down to the child on `side`.
    pub fn child(self, side: Side) -> (r: NodeZipper<T>)
        requires
            child_on(self.node, side) is Some,
        ensures
            r.node == *child_on(self.node, side)->Some_0,
            r.parent == Some(Box::new(NodeZipper { node: detach(self.node, side), parent: self.parent, side: self.side })),
            r.side == side,
            r.plug() == self.plug(),
            r == zip_down(self, side),
    {
        let mut this = self;
        let ghost n0 = this.node;
        let child = match side {
            Side::Left => *this.node.left.take().unwrap(),
            Side::Right => *this.node.right.take().unwrap(),
        };
        proof {
            assert(this.node == detach(n0, side));
            assert(attach(detach(n0, side), child, side) == n0);
        }
        NodeZipper { node: child, parent: Some(Box::new(this)), side }
    }

    /// Moves up one step, putting the subtree back into its parent.
    pub fn parent(self) -> (r: NodeZipper<T>)
        requires
            self.parent is Some,
        ensures
            r.node == attach(self.parent->Some_0.node, self.node, self.side),
            r.parent == self.parent->Some_0.parent,
            r.side == self.parent->Some_0.side,
            r.plug() == self.plug(),
            r == zip_up(self),
    {
        let NodeZipper { node, parent, side } = self;
        let NodeZipper { node: mut parent_node, parent: parent_parent, side: parent_side } = *parent.unwrap();
        match side {
            Side::Left => parent_node.left = Some(Box::new(node)),
            Side::Right => parent_node.right = Some(Box::new(node)),
        }
        NodeZipper { node: parent_node, parent: parent_parent, side: parent_side }
    }

    /// Moves up to the root and returns the whole tree.
    pub fn finish(self) -> (r: Node<T>)
        ensures
            r == self.plug(),
    {
        let ghost whole = self.plug();
        let mut this = self;
        while this.parent.is_some()
            invariant
                this.plug() == whole,
            decreases ctx_depth(this.parent),
        {
            this = this.parent();
        }
        this.node
    }
}

/// No two values of `s` come from the same file.
pub open spec fn idx_distinct<V>(s: Seq<(V, usize)>) -> bool {
    forall|i: int, j: int| 0 <= i < s.len() && 0 <= j < s.len() && i != j ==> #[trigger] s[i].1 != #[trigger] s[j].1
}

/// The position in `s` of a value from file `k`.
pub open spec fn pos_of_idx<V>(s: Seq<(V, usize)>, k: usize) -> int {
    choose|p: int| 0 <= p < s.len() && s[p].1 == k
}

/// Every tree has at least one leaf.
pub proof fn lemma_leaves_nonempty<T: View>(n: Node<T>)
    ensures
        leaves(n).len() >= 1,
    decreases n,
{
    match n.left {
        Some(l) => {
            lemma_leaves_nonempty(*l);
            match n.right {
                Some(r) => lemma_leaves_nonempty(*r),
                None => {},
            }
        },
        None => match n.right {
            Some(r) => lemma_leaves_nonempty(*r),
            None => {},
        },
    }
}

proof fn lemma_attach_leaves<T: View>(pn: Node<T>, n: Node<T>, side: Side)
    ensures
        leaves(attach(pn, n, side)) == (match side {
            Side::Left => leaves(n) + opt_leaves(pn.right),
            Side::Right => opt_leaves(pn.left) + leaves(n),
        }),
{
    match side {
        Side::Left => {
            assert(leaves(n) + Seq::<T::V>::empty() =~= leaves(n));
        },
        Side::Right => {
            assert(Seq::<T::V>::empty() + leaves(n) =~= leaves(n));
        },
    }
}

/// Moving one step up the path does not change which leaves lie left and right.
proof fn lemma_up_leaves<T: View>(p: NodeZipper<T>, node: Node<T>, side: Side)
    ensures
        ctx_before(Some(Box::new(p)), side) + leaves(node) + ctx_after(Some(Box::new(p)), side)
            == ctx_before(p.parent, p.side) + leaves(attach(p.node, node, side)) + ctx_after(p.parent, p.side),
{
    lemma_attach_leaves(p.node, node, side);
    let b = ctx_before(p.parent, p.side);
    let a = ctx_after(p.parent, p.side);
    match side {
        Side::Left => {
            assert(b + Seq::<T::V>::empty() + leaves(node) + (opt_leaves(p.node.right) + a) =~= b + (leaves(node) + opt_leaves(p.node.right)) + a);
        },
        Side::Right => {
            assert(b + opt_leaves(p.node.left) + leaves(node) + (Seq::<T::V>::empty() + a) =~= b + (opt_leaves(p.node.left) + leaves(node)) + a);
        },
    }
}

/// The leaves of a whole tree: those left of the position, those of the subtree there,
/// and those right of it.
pub proof fn lemma_plug_leaves<T: View>(ctx: Option<Box<NodeZipper<T>>>, node: Node<T>, side: Side)
    ensures
        leaves(plug_into(ctx, node, side)) == ctx_before(ctx, side) + leaves(node) + ctx_after(ctx, side),
    decreases ctx,
{
    match ctx {
        None => {
            assert(Seq::<T::V>::empty() + leaves(node) + Seq::<T::V>::empty() =~= leaves(node));
        },
        Some(p) => {
            lemma_plug_leaves(p.parent, attach(p.node, node, side), p.side);
            lemma_up_leaves(*p, node, side);
        },
    }
}

proof fn lemma_distinct_split<V>(a: Seq<(V, usize)>, b: Seq<(V, usize)>)
    requires
        idx_distinct(a + b),
    ensures
        idx_distinct(a),
        idx_distinct(b),
        forall|i: int, j: int| 0 <= i < a.len() && 0 <= j < b.len() ==> #[trigger] a[i].1 != #[trigger] b[j].1,
{
    assert forall|i: int, j: int| 0 <= i < a.len() && 0 <= j < a.len() && i != j implies #[trigger] a[i].1 != #[trigger] a[j].1 by {
        assert((a + b)[i] == a[i] && (a + b)[j] == a[j]);
    }
    assert forall|i: int, j: int| 0 <= i < b.len() && 0 <= j < b.len() && i != j implies #[trigger] b[i].1 != #[trigger] b[j].1 by {
        assert((a + b)[a.len() + i] == b[i] && (a + b)[a.len() + j] == b[j]);
    }
    assert forall|i: int, j: int| 0 <= i < a.len() && 0 <= j < b.len() implies #[trigger] a[i].1 != #[trigger] b[j].1 by {
        assert((a + b)[i] == a[i] && (a + b)[a.len() + j] == b[j]);
    }
}

/// Recomputes the value of an inner node from its two children.
fn update_node<T: SortKey + Duplicate>(node: &mut Node<T>)
    requires
        old(node).left is Some,
        old(node).right is Some,
    ensures
        final(node).left == old(node).left,
        final(node).right == old(node).right,
        final(node).val@ == winner_of::<T>(old(node).left->Some_0.val@, old(node).right->Some_0.val@),
{
    if node.left.as_ref().unwrap().val.sort_key() < node.right.as_ref().unwrap().val.sort_key() {
        node.val = node.left.as_ref().unwrap().val.duplicate();
    } else {
        node.val = node.right.as_ref().unwrap().val.duplicate();
    }
}

/// The number of leaves of a tree of values.
pub open spec fn leaf_count<V>(t: TreeView<V>) -> nat
    decreases t,
{
    match t {
        TreeView::Leaf(_) => 1,
        TreeView::Inner(l, r) => leaf_count(*l) + leaf_count(*r),
    }
}

/// The values of the leaves of the tree of values `t`, from left to right.
pub open spec fn tv_leaves<V>(t: TreeView<V>) -> Seq<V>
    decreases t,
{
    match t {
        TreeView::Leaf(v) => seq![v],
        TreeView::Inner(l, r) => tv_leaves(*l) + tv_leaves(*r),
    }
}

/// The value that wins the tournament over the tree of values `t`: each match between two
/// subtrees goes as `winner_of` says.
pub open spec fn tv_winner<T: SortKey>(t: TreeView<T::V>) -> T::V
    decreases t,
{
    match t {
        TreeView::Leaf(v) => v,
        TreeView::Inner(l, r) => winner_of::<T>(tv_winner::<T>(*l), tv_winner::<T>(*r)),
    }
}

/// A tournament tree's leaves and winner are those of its tree of values.
pub proof fn lemma_tree_view_facts<T: SortKey>(n: Node<T>)
    requires
        tree_ok::<T>(n),
    ensures
        tv_leaves(tree_view(n)) == leaves(n),
        tv_winner::<T>(tree_view(n)) == n.val@,
    decreases n,
{
    match n.left {
        Some(l) => match n.right {
            Some(r) => {
                lemma_tree_view_facts::<T>(*l);
                lemma_tree_view_facts::<T>(*r);
            },
            None => {},
        },
        None => {},
    }
}

/// The tree of values `t` with its leaf at position `p`, counted from the left, holding `x`.
pub open spec fn set_leaf<V>(t: TreeView<V>, p: int, x: V) -> TreeView<V>
    decreases t,
{
    match t {
        TreeView::Leaf(_) => TreeView::Leaf(x),
        TreeView::Inner(l, r) => if p < leaf_count(*l) {
            TreeView::Inner(Box::new(set_leaf(*l, p, x)), r)
        } else {
            TreeView::Inner(l, Box::new(set_leaf(*r, p - leaf_count(*l), x)))
        },
    }
}

/// The tree of values `t` without its leaf at position `p`: the leaf's sibling takes the
/// place of their parent.
pub open spec fn remove_leaf<V>(t: TreeView<V>, p: int) -> TreeView<V>
    decreases t,
{
    match t {
        TreeView::Leaf(_) => t,
        TreeView::Inner(l, r) => if p < leaf_count(*l) {
            if *l is Leaf {
                *r
            } else {
                TreeView::Inner(Box::new(remove_leaf(*l, p)), r)
            }
        } else {
            if *r is Leaf {
                *l
            } else {
                TreeView::Inner(l, Box::new(remove_leaf(*r, p - leaf_count(*l))))
            }
        },
    }
}

pub proof fn lemma_view_count<T: View>(n: Node<T>)
    ensures
        leaf_count(tree_view(n)) == leaves(n).len(),
    decreases n,
{
    match n.left {
        Some(l) => {
            lemma_view_count(*l);
            match n.right {
                Some(r) => lemma_view_count(*r),
                None => {},
            }
        },
        None => match n.right {
            Some(r) => lemma_view_count(*r),
            None => {},
        },
    }
}

/// Subtrees with the same tree of values give whole trees with the same tree of values.
proof fn lemma_plug_view<T: View>(ctx: Option<Box<NodeZipper<T>>>, a: Node<T>, b: Node<T>, side: Side)
    requires
        tree_view(a) == tree_view(b),
    ensures
        tree_view(plug_into(ctx, a, side)) == tree_view(plug_into(ctx, b, side)),
    decreases ctx,
{
    match ctx {
        None => {},
        Some(p) => {
            assert(tree_view(attach(p.node, a, side)) == tree_view(attach(p.node, b, side)));
            lemma_plug_view(p.parent, attach(p.node, a, side), attach(p.node, b, side), p.side);
        },
    }
}

/// Changing the leaf at position `q` of the subtree at the end of a path changes the leaf at
/// the same place of the whole tree.
proof fn lemma_plug_set_leaf<T: SortKey>(ctx: Option<Box<NodeZipper<T>>>, side: Side, a: Node<T>, b: Node<T>, q: int, x: T::V)
    requires
        ctx_ok::<T>(ctx, side),
        0 <= q < leaf_count(tree_view(a)),
        tree_view(b) == set_leaf(tree_view(a), q, x),
    ensures
        tree_view(plug_into(ctx, b, side)) == set_leaf(tree_view(plug_into(ctx, a, side)), ctx_before(ctx, side).len() + q, x),
    decreases ctx,
{
    match ctx {
        None => {},
        Some(p) => {
            let na = attach(p.node, a, side);
            let nb = attach(p.node, b, side);
            match side {
                Side::Left => {
                    lemma_view_count(*p.node.right->Some_0);
                    assert(tree_view(nb) == set_leaf(tree_view(na), q, x));
                    lemma_plug_set_leaf(p.parent, p.side, na, nb, q, x);
                },
                Side::Right => {
                    let sib = *p.node.left->Some_0;
                    lemma_view_count(sib);
                    let c = leaf_count(tree_view(sib)) as int;
                    assert(tree_view(nb) == set_leaf(tree_view(na), c + q, x));
                    lemma_plug_set_leaf(p.parent, p.side, na, nb, c + q, x);
                    assert(ctx_before(ctx, side).len() == ctx_before(p.parent, p.side).len() + c);
                },
            }
        },
    }
}

/// Taking the leaf at position `q` out of a subtree that is not a leaf takes the leaf at
/// the same place out of the whole tree.
proof fn lemma_plug_remove_leaf<T: SortKey>(ctx: Option<Box<NodeZipper<T>>>, side: Side, a: Node<T>, b: Node<T>, q: int)
    requires
        ctx_ok::<T>(ctx, side),
        tree_view(a) is Inner,
        0 <= q < leaf_count(tree_view(a)),
        tree_view(b) == remove_leaf(tree_view(a), q),
    ensures
        tree_view(plug_into(ctx, b, side)) == remove_leaf(tree_view(plug_into(ctx, a, side)), ctx_before(ctx, side).len() + q),
    decreases ctx,
{
    match ctx {
        None => {},
        Some(p) => {
            let na = attach(p.node, a, side);
            let nb = attach(p.node, b, side);
            match side {
                Side::Left => {
                    lemma_view_count(*p.node.right->Some_0);
                    assert(tree_view(nb) == remove_leaf(tree_view(na), q));
                    lemma_plug_remove_leaf(p.parent, p.side, na, nb, q);
                },
                Side::Right => {
                    let sib = *p.node.left->Some_0;
                    lemma_view_count(sib);
                    let c = leaf_count(tree_view(sib)) as int;
                    assert(tree_view(nb) == remove_leaf(tree_view(na), c + q));
                    lemma_plug_remove_leaf(p.parent, p.side, na, nb, c + q);
                    assert(ctx_before(ctx, side).len() == ctx_before(p.parent, p.side).len() + c);
                },
            }
        },
    }
}

/// One step up the path, with the node above recomputed, keeps a tournament tree at the
/// position and the leaves of the whole.
proof fn lemma_up_step<T: SortKey>(z: NodeZipper<T>, up: Node<T>)
    requires
        z.parent is Some,
        tree_ok::<T>(z.node),
        ctx_ok::<T>(z.parent, z.side),
        up.left == attach(z.parent->Some_0.node, z.node, z.side).left,
        up.right == attach(z.parent->Some_0.node, z.node, z.side).right,
        up.val@ == winner_of::<T>(up.left->Some_0.val@, up.right->Some_0.val@),
    ensures
        up.left is Some && up.right is Some,
        tree_ok::<T>(up),
        ctx_ok::<T>(z.parent->Some_0.parent, z.parent->Some_0.side),
        ctx_before(z.parent, z.side) + leaves(z.node) + ctx_after(z.parent, z.side)
            == ctx_before(z.parent->Some_0.parent, z.parent->Some_0.side) + leaves(up)
            + ctx_after(z.parent->Some_0.parent, z.parent->Some_0.side),
{
    let p = *z.parent->Some_0;
    lemma_up_leaves(p, z.node, z.side);
    assert(Some(Box::new(p)) == z.parent);
    assert(leaves(up) == leaves(attach(p.node, z.node, z.side)));
}

/// Replaces the value at the root's leaf, the leaf of the file whose value is the
/// smallest, by `new_val`, and plays the matches on its path again. With no new value the
/// leaf leaves the tree, its sibling taking its parent's place; a tree of that one leaf
/// is gone.
pub fn replace_root<T: SortKey + Duplicate>(root: Node<TWrapper<T>>, new_val: Option<T>) -> (r: Option<Node<TWrapper<T>>>)
    requires
        tree_ok::<TWrapper<T>>(root),
        idx_distinct(leaves::<TWrapper<T>>(root)),
    ensures
        ({
            let s = leaves::<TWrapper<T>>(root);
            let k = root.val.file_idx;
            let p = pos_of_idx(s, k);
            &&& 0 <= p < s.len()
            &&& s[p] == root.val@
            &&& match new_val {
                Some(v) => r matches Some(t) && tree_ok::<TWrapper<T>>(t)
                    && leaves::<TWrapper<T>>(t) == s.update(p, (v@, k))
                    && tree_view::<TWrapper<T>>(t) == set_leaf(tree_view::<TWrapper<T>>(root), p, (v@, k)),
                None => if s.len() == 1 {
                    r is None
                } else {
                    r matches Some(t) && tree_ok::<TWrapper<T>>(t) && leaves::<TWrapper<T>>(t) == s.remove(p)
                        && tree_view::<TWrapper<T>>(t) == remove_leaf(tree_view::<TWrapper<T>>(root), p)
                },
            }
        }),
{
    let ghost root0 = root;
    let ghost s = leaves::<TWrapper<T>>(root);
    let ghost k = root.val.file_idx;
    let ghost w0 = root.val@;
    let mut zipper = NodeZipper { node: root, parent: None, side: Side::Left };
    let mut is_leaf = false;
    proof {
        lemma_plug_leaves(zipper.parent, zipper.node, zipper.side);
    }
    while !is_leaf
        invariant
            zipper.plug() == root0,
            tree_ok::<TWrapper<T>>(zipper.node),
            ctx_ok::<TWrapper<T>>(zipper.parent, zipper.side),
            zipper.node.val@ == w0,
            w0.1 == k,
            idx_distinct(leaves::<TWrapper<T>>(zipper.node)),
            is_leaf ==> zipper.node.left is None && zipper.node.right is None,
        decreases 2 * height(zipper.node) + (if is_leaf {
            0int
        } else {
            1int
        }),
    {
        let ghost n = zipper.node;
        proof {
            if n.left is Some && n.right is Some {
                let l = *n.left->Some_0;
                let r = *n.right->Some_0;
                lemma_root_is_min::<TWrapper<T>>(l);
                lemma_root_is_min::<TWrapper<T>>(r);
                lemma_distinct_split(leaves::<TWrapper<T>>(l), leaves::<TWrapper<T>>(r));
                let il = choose|i: int| 0 <= i < leaves::<TWrapper<T>>(l).len() && leaves::<TWrapper<T>>(l)[i] == l.val@;
                let ir = choose|i: int| 0 <= i < leaves::<TWrapper<T>>(r).len() && leaves::<TWrapper<T>>(r)[i] == r.val@;
                assert(leaves::<TWrapper<T>>(l)[il].1 != leaves::<TWrapper<T>>(r)[ir].1);
                assert(l.val@.1 != r.val@.1);
            }
        }
        let next = match &zipper.node.left {
            Some(branch) => if branch.val.file_idx == zipper.node.val.file_idx {
                Some(Side::Left)
            } else {
                None
            },
            None => None,
        };
        match next {
            Some(side) => {
                zipper = zipper.child(side);
            },
            None => {
                let next = match &zipper.node.right {
                    Some(branch) => if branch.val.file_idx == zipper.node.val.file_idx {
                        Some(Side::Right)
                    } else {
                        None
                    },
                    None => None,
                };
                match next {
                    Some(side) => {
                        zipper = zipper.child(side);
                    },
                    None => {
                        is_leaf = true;
                    },
                }
            },
        }
    }
    let ghost pre = ctx_before(zipper.parent, zipper.side);
    let ghost post = ctx_after(zipper.parent, zipper.side);
    proof {
        lemma_plug_leaves(zipper.parent, zipper.node, zipper.side);
        assert(leaves::<TWrapper<T>>(zipper.node) == seq![w0]);
        assert(s == pre + seq![w0] + post);
        assert(s[pre.len() as int] == w0);
        assert(pos_of_idx(s, k) == pre.len()) by {
            let q = pos_of_idx(s, k);
            assert(0 <= q < s.len() && s[q].1 == k);
            if q != pre.len() {
                assert(s[q].1 != s[pre.len() as int].1);
            }
        }
    }
    match new_val {
        Some(val) => {
            let ghost leaf0 = zipper.node;
            zipper.node.val.wrap = val;
            let ghost target = pre + seq![zipper.node.val@] + post;
            let ghost vtarget = set_leaf(tree_view::<TWrapper<T>>(root0), pre.len() as int, zipper.node.val@);
            proof {
                assert(leaves::<TWrapper<T>>(zipper.node) == seq![zipper.node.val@]);
                assert(target =~= s.update(pre.len() as int, zipper.node.val@));
                lemma_plug_set_leaf(zipper.parent, zipper.side, leaf0, zipper.node, 0, zipper.node.val@);
            }
            while zipper.parent.is_some()
                invariant
                    tree_view::<TWrapper<T>>(zipper.plug()) == vtarget,
                    tree_ok::<TWrapper<T>>(zipper.node),
                    ctx_ok::<TWrapper<T>>(zipper.parent, zipper.side),
                    ctx_before(zipper.parent, zipper.side) + leaves::<TWrapper<T>>(zipper.node)
                        + ctx_after(zipper.parent, zipper.side) == target,
                decreases ctx_depth(zipper.parent),
            {
                let ghost z = zipper;
                zipper = zipper.parent();
                let ghost before_up = zipper.node;
                update_node(&mut zipper.node);
                proof {
                    lemma_up_step(z, zipper.node);
                    lemma_plug_view(zipper.parent, before_up, zipper.node, zipper.side);
                }
            }
            proof {
                assert(ctx_before(zipper.parent, zipper.side) == Seq::<(T::V, usize)>::empty());
                assert(ctx_after(zipper.parent, zipper.side) == Seq::<(T::V, usize)>::empty());
                assert(leaves::<TWrapper<T>>(zipper.node) =~= target);
            }
        },
        None => {
            if zipper.parent.is_none() {
                proof {
                    assert(s =~= seq![w0]);
                }
                return None;
            }
            let ghost target = pre + post;
            let ghost vtarget = remove_leaf(tree_view::<TWrapper<T>>(root0), pre.len() as int);
            proof {
                assert(target =~= s.remove(pre.len() as int));
                let pz = *zipper.parent->Some_0;
                assert(Some(Box::new(pz)) == zipper.parent);
                match zipper.side {
                    Side::Left => {
                        lemma_leaves_nonempty(*pz.node.right->Some_0);
                        assert(post == opt_leaves(pz.node.right) + ctx_after(pz.parent, pz.side));
                    },
                    Side::Right => {
                        lemma_leaves_nonempty(*pz.node.left->Some_0);
                        assert(pre == ctx_before(pz.parent, pz.side) + opt_leaves(pz.node.left));
                    },
                }
                assert(s.len() > 1);
            }
            loop
                invariant_except_break
                    zipper.parent is Some,
                    leaves::<TWrapper<T>>(zipper.node) == seq![w0],
                    ctx_before(zipper.parent, zipper.side) == pre,
                    ctx_after(zipper.parent, zipper.side) == post,
                    zipper.plug() == root0,
                    zipper.node.left is None && zipper.node.right is None,
                invariant
                    ctx_ok::<TWrapper<T>>(zipper.parent, zipper.side),
                    target == pre + post,
                    vtarget == remove_leaf(tree_view::<TWrapper<T>>(root0), pre.len() as int),
                ensures
                    tree_view::<TWrapper<T>>(zipper.plug()) == vtarget,
                    tree_ok::<TWrapper<T>>(zipper.node),
                    ctx_ok::<TWrapper<T>>(zipper.parent, zipper.side),
                    ctx_before(zipper.parent, zipper.side) + leaves::<TWrapper<T>>(zipper.node)
                        + ctx_after(zipper.parent, zipper.side) == target,
                decreases ctx_depth(zipper.parent),
            {
                let side = zipper.side;
                let ghost z = zipper;
                let ghost pz = *z.parent->Some_0;
                zipper = zipper.parent();
                proof {
                    assert(Some(Box::new(pz)) == z.parent);
                }
                match side {
                    Side::Left => match zipper.node.right.take() {
                        Some(val) => {
                            zipper.node = *val;
                            proof {
                                let b = ctx_before(pz.parent, pz.side);
                                let a = ctx_after(pz.parent, pz.side);
                                let big = attach(pz.node, z.node, side);
                                assert(z.plug() == plug_into(pz.parent, big, pz.side));
                                lemma_view_count(zipper.node);
                                assert(pz.node.right is Some);
                                assert(zipper.node == *pz.node.right->Some_0);
                                assert(tree_view::<TWrapper<T>>(z.node) == TreeView::Leaf(z.node.val@));
                                assert(tree_view::<TWrapper<T>>(big) == TreeView::Inner(
                                    Box::new(tree_view::<TWrapper<T>>(z.node)),
                                    Box::new(tree_view::<TWrapper<T>>(zipper.node)),
                                ));
                                assert(leaf_count(tree_view::<TWrapper<T>>(z.node)) == 1);
                                assert(tree_view::<TWrapper<T>>(zipper.node) == remove_leaf(tree_view::<TWrapper<T>>(big), 0));
                                lemma_plug_remove_leaf(pz.parent, pz.side, big, zipper.node, 0);
                                assert(pre == b + Seq::<(T::V, usize)>::empty());
                                assert(post == leaves::<TWrapper<T>>(zipper.node) + a);
                                assert(target =~= b + leaves::<TWrapper<T>>(zipper.node) + a);
                            }
                            break;
                        },
                        None => {},
                    },
                    Side::Right => match zipper.node.left.take() {
                        Some(val) => {
                            zipper.node = *val;
                            proof {
                                let b = ctx_before(pz.parent, pz.side);
                                let a = ctx_after(pz.parent, pz.side);
                                let big = attach(pz.node, z.node, side);
                                assert(z.plug() == plug_into(pz.parent, big, pz.side));
                                lemma_view_count(zipper.node);
                                let c = leaf_count(tree_view::<TWrapper<T>>(zipper.node)) as int;
                                assert(pz.node.left is Some);
                                assert(zipper.node == *pz.node.left->Some_0);
                                assert(tree_view::<TWrapper<T>>(z.node) == TreeView::Leaf(z.node.val@));
                                assert(tree_view::<TWrapper<T>>(big) == TreeView::Inner(
                                    Box::new(tree_view::<TWrapper<T>>(zipper.node)),
                                    Box::new(tree_view::<TWrapper<T>>(z.node)),
                                ));
                                assert(leaf_count(tree_view::<TWrapper<T>>(z.node)) == 1);
                                assert(tree_view::<TWrapper<T>>(zipper.node) == remove_leaf(tree_view::<TWrapper<T>>(big), c));
                                lemma_plug_remove_leaf(pz.parent, pz.side, big, zipper.node, c);
                                assert(pre == b + leaves::<TWrapper<T>>(zipper.node));
                                assert(post == Seq::<(T::V, usize)>::empty() + a);
                                assert(target =~= b + leaves::<TWrapper<T>>(zipper.node) + a);
                            }
                            break;
                        },
                        None => {},
                    },
                }
            }
            while zipper.parent.is_some()
                invariant
                    tree_view::<TWrapper<T>>(zipper.plug()) == vtarget,
                    tree_ok::<TWrapper<T>>(zipper.node),
                    ctx_ok::<TWrapper<T>>(zipper.parent, zipper.side),
                    ctx_before(zipper.parent, zipper.side) + leaves::<TWrapper<T>>(zipper.node)
                        + ctx_after(zipper.parent, zipper.side) == target,
                decreases ctx_depth(zipper.parent),
            {
                let ghost z = zipper;
                zipper = zipper.parent();
                let ghost before_up = zipper.node;
                update_node(&mut zipper.node);
                proof {
                    lemma_up_step(z, zipper.node);
                    lemma_plug_view(zipper.parent, before_up, zipper.node, zipper.side);
                }
            }
            proof {
                assert(ctx_before(zipper.parent, zipper.side) == Seq::<(T::V, usize)>::empty());
                assert(ctx_after(zipper.parent, zipper.side) == Seq::<(T::V, usize)>::empty());
                assert(leaves::<TWrapper<T>>(zipper.node) =~= target);
            }
        },
    }
    Some(zipper.finish())
}

} // verus!
