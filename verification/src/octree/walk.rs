use vstd::prelude::*;
use super::arena::{Arena, ArenaBlockIndice, ArenaNode, ArenaNodeIndice};
use super::arena_realloc::{rank, slot, lemma_rank};
use super::direction::Direction;
use super::voxel::Voxel;
use crate::util::bits::{bit8, ones8, lemma_zero_iff_no_bits, lemma_count8_bound};

verus! {

/// The child of node `l` on octant `d`, if it has one.
pub open spec fn child_at(a: &Arena, l: ArenaNodeIndice, d: Direction) -> Option<ArenaNodeIndice> {
    a.node(l).child_spec(d.bits() as int)
}

/// The node that the path `p` leads to from `root`, if every step of it
/// has a child to go to.
pub open spec fn walk(a: &Arena, root: ArenaNodeIndice, p: Seq<Direction>) -> Option<ArenaNodeIndice>
    decreases p.len(),
{
    if p.len() == 0 {
        Some(root)
    } else {
        match walk(a, root, p.drop_last()) {
            Some(m) => child_at(a, m, p.last()),
            None => None,
        }
    }
}

/// The voxel that the path `p` reads: the octant of its last step in the
/// node its other steps lead to; where the path runs out of children
/// early, the octant of the first step that has no child.
pub open spec fn sample_spec(a: &Arena, root: ArenaNodeIndice, p: Seq<Direction>) -> Voxel
    decreases p.len(),
{
    if p.len() == 0 {
        Voxel::empty()
    } else {
        match walk(a, root, p.drop_last()) {
            Some(m) => a.node(m).data@[p.last().bits() as int],
            None => sample_spec(a, root, p.drop_last()),
        }
    }
}

/// `s` is a proper prefix of `t`: `t` runs on below where `s` ends.
pub open spec fn strictly_below(s: Seq<Direction>, t: Seq<Direction>) -> bool {
    s.len() < t.len() && t.subrange(0, s.len() as int) == s
}

pub open spec fn has_kids(a: &Arena, n: ArenaNodeIndice) -> bool {
    a.node(n).leaf_mask != 0
}

/// The nodes that `root` leads to form a tree in the arena: each lies in a
/// block in use, so do its children, no two nodes share a block of
/// children, and no node's children share the root's block.
pub open spec fn tree_wf(a: &Arena, root: ArenaNodeIndice) -> bool {
    &&& a.wf()
    &&& a.valid(root)
    &&& forall|t: Seq<Direction>| #[trigger] walk(a, root, t) is Some ==> {
        let n = walk(a, root, t).unwrap();
        &&& a.valid(n)
        &&& has_kids(a, n) ==> a.allocated(a.node(n).child_block())
        &&& has_kids(a, n) ==> a.node(n).child_block() != root.block
    }
    &&& forall|t1: Seq<Direction>, t2: Seq<Direction>|
        #[trigger] walk(a, root, t1) is Some && #[trigger] walk(a, root, t2) is Some && t1 != t2
        && has_kids(a, walk(a, root, t1).unwrap()) && has_kids(a, walk(a, root, t2).unwrap())
        ==> a.node(walk(a, root, t1).unwrap()).child_block() != a.node(walk(a, root, t2).unwrap()).child_block()
}

pub proof fn lemma_seq_push_drop(t: Seq<Direction>, d: Direction)
    ensures
        t.push(d).drop_last() == t,
        t.push(d).last() == d,
{
    assert(t.push(d).drop_last() =~= t);
}

/// A child lies in its parent's block of children, at the rank of its octant.
pub proof fn lemma_child_at(a: &Arena, m: ArenaNodeIndice, d: Direction)
    requires
        child_at(a, m, d) is Some,
    ensures
        bit8(a.node(m).leaf_mask, d.bits() as int),
        has_kids(a, m),
        child_at(a, m, d).unwrap() == slot(a.node(m).child_block(), a.node(m).leaf_mask, d.bits() as int),
        child_at(a, m, d).unwrap().block == a.node(m).child_block(),
        child_at(a, m, d).unwrap().index < a.node(m).child_block().block_size,
{
    let mk = a.node(m).leaf_mask;
    Direction::lemma_of_index_bits(d);
    lemma_zero_iff_no_bits(mk);
    assert(bit8(mk, d.bits() as int));
    lemma_rank(mk, d.bits() as int, d.bits() as int);
    lemma_count8_bound(mk, 0, 8);
}

/// Two different paths never lead to the same node.
pub proof fn lemma_walk_unique(a: &Arena, root: ArenaNodeIndice, t1: Seq<Direction>, t2: Seq<Direction>)
    requires
        tree_wf(a, root),
        walk(a, root, t1) is Some,
        walk(a, root, t2) is Some,
        t1 != t2,
    ensures
        walk(a, root, t1).unwrap() != walk(a, root, t2).unwrap(),
{
    if t1.len() == 0 && t2.len() == 0 {
        assert(t1 =~= t2);
    } else if t1.len() == 0 || t2.len() == 0 {
        let (u, v) = if t1.len() == 0 { (t2, t1) } else { (t1, t2) };
        let pre = u.drop_last();
        let m = walk(a, root, pre).unwrap();
        lemma_child_at(a, m, u.last());
        assert(walk(a, root, pre) is Some);
        assert(a.node(m).child_block() != root.block);
    } else {
        let p1 = t1.drop_last();
        let p2 = t2.drop_last();
        let m1 = walk(a, root, p1).unwrap();
        let m2 = walk(a, root, p2).unwrap();
        lemma_child_at(a, m1, t1.last());
        lemma_child_at(a, m2, t2.last());
        if p1 != p2 {
            assert(walk(a, root, p1) is Some && walk(a, root, p2) is Some);
        } else {
            if t1.last() == t2.last() {
                assert(t1 =~= p1.push(t1.last()));
                assert(t2 =~= p2.push(t2.last()));
            }
            let mk = a.node(m1).leaf_mask;
            let d1 = t1.last().bits() as int;
            let d2 = t2.last().bits() as int;
            Direction::lemma_of_index_bits(t1.last());
            Direction::lemma_of_index_bits(t2.last());
            lemma_rank(mk, d1, d2);
            lemma_rank(mk, d2, d1);
            lemma_count8_bound(mk, 0, 8);
        }
    }
}

/// The node at the end of a path of a well-formed tree lies in the
/// children's block of node `x` only if the path is one step below `x`.
pub proof fn lemma_parent_block(a: &Arena, root: ArenaNodeIndice, t: Seq<Direction>, x: Seq<Direction>)
    requires
        tree_wf(a, root),
        walk(a, root, t) is Some,
        walk(a, root, x) is Some,
        has_kids(a, walk(a, root, x).unwrap()),
        walk(a, root, t).unwrap().block == a.node(walk(a, root, x).unwrap()).child_block(),
    ensures
        t.len() > 0,
        t.drop_last() == x,
{
    let cbx = a.node(walk(a, root, x).unwrap()).child_block();
    if t.len() == 0 {
        assert(walk(a, root, x) is Some);
        assert(cbx != root.block);
    } else {
        let pre = t.drop_last();
        let m = walk(a, root, pre).unwrap();
        lemma_child_at(a, m, t.last());
        if pre != x {
            assert(walk(a, root, pre) is Some && walk(a, root, x) is Some);
        }
    }
}

/// Once a path runs out of children, so does every longer path through it.
pub proof fn lemma_walk_none_extends(a: &Arena, root: ArenaNodeIndice, u: Seq<Direction>, r: Seq<Direction>)
    requires
        walk(a, root, u) is None,
    ensures
        walk(a, root, u + r) is None,
    decreases r.len(),
{
    if r.len() > 0 {
        lemma_walk_none_extends(a, root, u, r.drop_last());
        assert((u + r).drop_last() =~= u + r.drop_last());
    } else {
        assert(u + r =~= u);
    }
}

/// A walk that reaches its end passes through each of its prefixes.
pub proof fn lemma_walk_prefix(a: &Arena, root: ArenaNodeIndice, t: Seq<Direction>, k: int)
    requires
        walk(a, root, t) is Some,
        0 <= k <= t.len(),
    ensures
        walk(a, root, t.subrange(0, k)) is Some,
    decreases t.len() - k,
{
    if k < t.len() {
        lemma_walk_prefix(a, root, t.drop_last(), k);
        assert(t.drop_last().subrange(0, k) =~= t.subrange(0, k));
    } else {
        assert(t.subrange(0, k) =~= t);
    }
}

/// A path that is one step longer than `s`, through octant `d`, and then
/// continues with `r`.
pub proof fn lemma_split_below(s: Seq<Direction>, t: Seq<Direction>)
    requires
        strictly_below(s, t),
    ensures
        t == s.push(t[s.len() as int]) + t.subrange(s.len() as int + 1, t.len() as int),
{
    assert(t =~= s.push(t[s.len() as int]) + t.subrange(s.len() as int + 1, t.len() as int));
}

/// The sample stops at the first step that has no child.
pub proof fn lemma_sample_stop(a: &Arena, root: ArenaNodeIndice, p: Seq<Direction>, k: int)
    requires
        0 <= k < p.len(),
        walk(a, root, p.subrange(0, k)) is Some,
        k + 1 < p.len() ==> walk(a, root, p.subrange(0, k + 1)) is None,
    ensures
        sample_spec(a, root, p) == a.node(walk(a, root, p.subrange(0, k)).unwrap()).data@[p[k].bits() as int],
    decreases p.len(),
{
    if k + 1 == p.len() {
        assert(p.drop_last() =~= p.subrange(0, k));
    } else {
        let q = p.drop_last();
        assert(q.subrange(0, k) =~= p.subrange(0, k));
        assert(q.subrange(0, k + 1) =~= p.subrange(0, k + 1));
        if k + 1 < q.len() {
            lemma_walk_none_extends(a, root, p.subrange(0, k + 1), p.subrange(k + 1, q.len() as int));
            assert(p.subrange(0, k + 1) + p.subrange(k + 1, q.len() as int) =~= q);
        } else {
            assert(q =~= p.subrange(0, k + 1));
        }
        lemma_sample_stop(a, root, q, k);
    }
}

/// Walks and samples that do not run below `s` are untouched by a realloc
/// of the node that `s` leads to.
pub proof fn lemma_realloc_above(a: &Arena, a2: &Arena, root: ArenaNodeIndice, s: Seq<Direction>, ls: ArenaNodeIndice, fm: u8, t: Seq<Direction>)
    requires
        tree_wf(a, root),
        walk(a, root, s) == Some(ls),
        Arena::realloc_effect(a, a2, ls, fm),
        !strictly_below(s, t),
    ensures
        walk(a2, root, t) == walk(a, root, t),
        t.len() > 0 && !strictly_below(s, t.drop_last()) ==> sample_spec(a2, root, t) == sample_spec(a, root, t),
    decreases t.len(),
{
    if t.len() > 0 {
        let pre = t.drop_last();
        if strictly_below(s, pre) {
            assert(t.subrange(0, s.len() as int) =~= pre.subrange(0, s.len() as int));
        }
        lemma_realloc_above(a, a2, root, s, ls, fm, pre);
        if walk(a, root, pre) is Some {
            let m = walk(a, root, pre).unwrap();
            if pre == s {
                assert(t.subrange(0, s.len() as int) =~= s);
                assert(m == ls);
                assert(a2.node(m).data == a.node(m).data);
            } else {
                lemma_walk_unique(a, root, pre, s);
                a.lemma_wf();
                assert(a.placed(m));
                assert(a2.node(m) == a.node(m));
            }
        }
        if !strictly_below(s, pre) && walk(a, root, pre) is None {
            if pre.len() > 0 && strictly_below(s, pre.drop_last()) {
                assert(pre.subrange(0, s.len() as int) =~= pre.drop_last().subrange(0, s.len() as int));
            }
        }
    }
}

/// The child of the node that a realloc rewrote, reached by the new mask:
/// where its walks go, and what the nodes there hold.
pub proof fn lemma_realloc_child(a: &Arena, a2: &Arena, root: ArenaNodeIndice, s: Seq<Direction>, ls: ArenaNodeIndice, fm: u8, d: Direction, r: Seq<Direction>)
    requires
        tree_wf(a, root),
        walk(a, root, s) == Some(ls),
        Arena::realloc_effect(a, a2, ls, fm),
    ensures
        ({
            let t = s.push(d) + r;
            let db = d.bits() as int;
            let om = a.node(ls).leaf_mask;
            let nb = a.next_alloc(ones8(fm) as int);
            &&& !bit8(fm, db) ==> walk(a2, root, t) is None
            &&& bit8(fm, db) && !bit8(om, db) && r.len() == 0 ==> walk(a2, root, t) == Some(slot(nb, fm, db))
                && a2.node(slot(nb, fm, db)) == ArenaNode::empty()
            &&& bit8(fm, db) && !bit8(om, db) && r.len() > 0 ==> walk(a2, root, t) is None
            &&& bit8(fm, db) && bit8(om, db) ==> (walk(a2, root, t) is Some <==> walk(a, root, t) is Some)
            &&& bit8(fm, db) && bit8(om, db) && walk(a, root, t) is Some ==>
                a2.node(walk(a2, root, t).unwrap()) == a.node(walk(a, root, t).unwrap())
                && (r.len() == 0 ==> walk(a2, root, t) == Some(slot(nb, fm, db)))
                && (r.len() > 0 ==> walk(a2, root, t) == walk(a, root, t))
        }),
    decreases r.len(),
{
    let t = s.push(d) + r;
    let db = d.bits() as int;
    let on = a.node(ls);
    let om = on.leaf_mask;
    let nb = a.next_alloc(ones8(fm) as int);
    Direction::lemma_of_index_bits(d);
    lemma_realloc_above(a, a2, root, s, ls, fm, s);
    if fm == 0 {
        lemma_zero_iff_no_bits(fm);
    }
    if r.len() == 0 {
        assert(t =~= s.push(d));
        lemma_seq_push_drop(s, d);
        assert(walk(a2, root, t) == child_at(a2, ls, d));
        if bit8(fm, db) {
            lemma_count8_bound(fm, 0, 8);
            assert(a2.node(ls).child_block() == nb);
            if bit8(om, db) {
                assert(walk(a, root, t) == child_at(a, ls, d));
                lemma_child_at(a, ls, d);
            }
        }
    } else {
        lemma_realloc_child(a, a2, root, s, ls, fm, d, r.drop_last());
        let tp = s.push(d) + r.drop_last();
        assert(t.drop_last() =~= tp);
        assert(t.last() == r.last());
        if bit8(fm, db) && bit8(om, db) && walk(a, root, tp) is Some && walk(a, root, t) is Some {
            let n = walk(a, root, t).unwrap();
            assert(t != s) by {
                assert(t.len() != s.len());
            }
            lemma_walk_unique(a, root, t, s);
            a.lemma_wf();
            assert(a.placed(n));
            assert(a2.node(n) == a.node(n));
        }
        if bit8(fm, db) && !bit8(om, db) && r.len() == 1 {
            assert(r.drop_last().len() == 0);
            assert(a2.node(slot(nb, fm, db)).leaf_mask == 0);
            lemma_zero_iff_no_bits(0u8);
        }
    }
}

/// What the samples below the rewritten node read after a realloc.
pub proof fn lemma_realloc_child_sample(a: &Arena, a2: &Arena, root: ArenaNodeIndice, s: Seq<Direction>, ls: ArenaNodeIndice, fm: u8, d: Direction, r: Seq<Direction>)
    requires
        tree_wf(a, root),
        walk(a, root, s) == Some(ls),
        Arena::realloc_effect(a, a2, ls, fm),
        r.len() > 0,
    ensures
        ({
            let t = s.push(d) + r;
            let db = d.bits() as int;
            let om = a.node(ls).leaf_mask;
            &&& !bit8(fm, db) ==> sample_spec(a2, root, t) == a.node(ls).data@[db]
            &&& bit8(fm, db) && !bit8(om, db) ==> sample_spec(a2, root, t) == Voxel::empty()
            &&& bit8(fm, db) && bit8(om, db) ==> sample_spec(a2, root, t) == sample_spec(a, root, t)
        }),
    decreases r.len(),
{
    let t = s.push(d) + r;
    let db = d.bits() as int;
    let om = a.node(ls).leaf_mask;
    let tp = s.push(d) + r.drop_last();
    assert(t.drop_last() =~= tp);
    assert(t.last() == r.last());
    lemma_realloc_child(a, a2, root, s, ls, fm, d, r.drop_last());
    if r.len() == 1 {
        assert(tp =~= s.push(d));
        lemma_seq_push_drop(s, d);
        lemma_realloc_above(a, a2, root, s, ls, fm, s);
        if !bit8(fm, db) {
            assert(walk(a2, root, tp) is None);
            assert(sample_spec(a2, root, tp) == a2.node(ls).data@[db]);
        }
    } else {
        lemma_realloc_child_sample(a, a2, root, s, ls, fm, d, r.drop_last());
    }
}

/// A realloc of a node of a well-formed tree leaves a well-formed tree.
pub proof fn lemma_realloc_tree(a: &Arena, a2: &Arena, root: ArenaNodeIndice, s: Seq<Direction>, ls: ArenaNodeIndice, fm: u8)
    requires
        tree_wf(a, root),
        walk(a, root, s) == Some(ls),
        Arena::realloc_effect(a, a2, ls, fm),
        a2.wf(),
    ensures
        tree_wf(a2, root),
{
    let on = a.node(ls);
    let om = on.leaf_mask;
    let ob = on.child_block();
    let nb = a.next_alloc(ones8(fm) as int);
    a.lemma_wf();
    lemma_count8_bound(fm, 0, 8);
    if om != 0 {
        assert(walk(a, root, s) is Some);
        assert(ob != root.block);
    }
    assert(a2.valid(root));
    assert forall|t: Seq<Direction>| #[trigger] walk(a2, root, t) is Some implies {
        let n = walk(a2, root, t).unwrap();
        &&& a2.valid(n)
        &&& has_kids(a2, n) ==> a2.allocated(a2.node(n).child_block())
        &&& has_kids(a2, n) ==> a2.node(n).child_block() != root.block
    } by {
        lemma_realloc_corr(a, a2, root, s, ls, fm, t);
    }
    assert forall|t1: Seq<Direction>, t2: Seq<Direction>|
        #[trigger] walk(a2, root, t1) is Some && #[trigger] walk(a2, root, t2) is Some && t1 != t2
        && has_kids(a2, walk(a2, root, t1).unwrap()) && has_kids(a2, walk(a2, root, t2).unwrap())
        implies a2.node(walk(a2, root, t1).unwrap()).child_block() != a2.node(walk(a2, root, t2).unwrap()).child_block() by {
        lemma_realloc_corr(a, a2, root, s, ls, fm, t1);
        lemma_realloc_corr(a, a2, root, s, ls, fm, t2);
        let n1 = walk(a2, root, t1).unwrap();
        let n2 = walk(a2, root, t2).unwrap();
        if t1 == s {
            assert(a2.node(n1).child_block() == nb);
            assert(a.allocated(a2.node(n2).child_block()));
        } else if t2 == s {
            assert(a2.node(n2).child_block() == nb);
            assert(a.allocated(a2.node(n1).child_block()));
        } else {
            assert(walk(a, root, t1) is Some && walk(a, root, t2) is Some);
        }
    }
}

/// Each node of the tree after a realloc: the rewritten node itself, a node
/// with the same content as the one the same path led to before, or a new
/// empty child; and it lies in a block in use.
pub proof fn lemma_realloc_corr(a: &Arena, a2: &Arena, root: ArenaNodeIndice, s: Seq<Direction>, ls: ArenaNodeIndice, fm: u8, t: Seq<Direction>)
    requires
        tree_wf(a, root),
        walk(a, root, s) == Some(ls),
        Arena::realloc_effect(a, a2, ls, fm),
        a2.wf(),
        walk(a2, root, t) is Some,
    ensures
        ({
            let n = walk(a2, root, t).unwrap();
            let nb = a.next_alloc(ones8(fm) as int);
            &&& a2.valid(n)
            &&& t == s ==> n == ls
            &&& t == s && has_kids(a2, n) ==> a2.node(n).child_block() == nb && fm != 0
            &&& t != s ==> (a2.node(n) == ArenaNode::empty()
                || (walk(a, root, t) is Some && a2.node(n) == a.node(walk(a, root, t).unwrap())))
            &&& has_kids(a2, n) ==> a2.allocated(a2.node(n).child_block()) && a2.node(n).child_block() != root.block
            &&& has_kids(a2, n) && t != s ==> walk(a, root, t) is Some && has_kids(a, walk(a, root, t).unwrap())
                && a.allocated(a2.node(n).child_block())
                && a2.node(n).child_block() == a.node(walk(a, root, t).unwrap()).child_block()
        }),
{
    let on = a.node(ls);
    let om = on.leaf_mask;
    let ob = on.child_block();
    let nb = a.next_alloc(ones8(fm) as int);
    let n = walk(a2, root, t).unwrap();
    a.lemma_wf();
    lemma_count8_bound(fm, 0, 8);
    lemma_zero_iff_no_bits(0u8);
    if om != 0 {
        assert(walk(a, root, s) is Some);
        assert(ob != root.block);
    }
    if !strictly_below(s, t) {
        lemma_realloc_above(a, a2, root, s, ls, fm, t);
        assert(walk(a, root, t) is Some);
        if t == s {
            assert(n == ls);
            if om != 0 {
                if ls.block == ob {
                    lemma_parent_block(a, root, s, s);
                }
            }
        } else {
            lemma_walk_unique(a, root, t, s);
            assert(a.placed(n));
            assert(a2.node(n) == a.node(n));
            if om != 0 && n.block == ob {
                lemma_parent_block(a, root, t, s);
                assert(t.subrange(0, s.len() as int) =~= t.drop_last());
            }
            if has_kids(a, n) && om != 0 {
                assert(walk(a, root, t) is Some && walk(a, root, s) is Some);
            }
        }
    } else {
        lemma_split_below(s, t);
        let d = t[s.len() as int];
        let r = t.subrange(s.len() as int + 1, t.len() as int);
        lemma_realloc_child(a, a2, root, s, ls, fm, d, r);
        let db = d.bits() as int;
        Direction::lemma_of_index_bits(d);
        assert(t != s);
        if bit8(fm, db) {
            lemma_rank(fm, db, db);
            a2.lemma_placed(slot(nb, fm, db));
        }
        if bit8(fm, db) && bit8(om, db) {
            let n0 = walk(a, root, t).unwrap();
            if r.len() > 0 {
                lemma_walk_unique(a, root, t, s);
                assert(a.placed(n0));
                if om != 0 && n0.block == ob {
                    lemma_parent_block(a, root, t, s);
                }
            }
            if has_kids(a, n0) {
                lemma_walk_unique(a, root, t, s);
                if om != 0 {
                    assert(walk(a, root, t) is Some && walk(a, root, s) is Some);
                }
            }
        }
    }
}

/// Changing what a node's octants hold, and nothing else, leaves every walk
/// and the tree's shape as they were.
pub proof fn lemma_data_change(a: &Arena, a2: &Arena, root: ArenaNodeIndice, x: ArenaNodeIndice, t: Seq<Direction>)
    requires
        a.valid(x),
        a2.same_shape(a),
        a.wf(),
        a2.node(x).leaf_mask == a.node(x).leaf_mask,
        a2.node(x).children_index_segment == a.node(x).children_index_segment,
        a2.node(x).children_index_indice == a.node(x).children_index_indice,
        forall|l: ArenaNodeIndice| a.placed(l) && l != x ==> #[trigger] a2.node(l) == a.node(l),
        tree_wf(a, root),
    ensures
        walk(a2, root, t) == walk(a, root, t),
    decreases t.len(),
{
    a.lemma_wf();
    if t.len() > 0 {
        lemma_data_change(a, a2, root, x, t.drop_last());
        if walk(a, root, t.drop_last()) is Some {
            let m = walk(a, root, t.drop_last()).unwrap();
            assert(a.placed(m));
            assert(a2.node(m).child_spec(t.last().bits() as int) == a.node(m).child_spec(t.last().bits() as int));
        }
    }
}

pub proof fn lemma_data_change_tree(a: &Arena, a2: &Arena, root: ArenaNodeIndice, x: ArenaNodeIndice)
    requires
        a.valid(x),
        a2.same_shape(a),
        a.wf(),
        a2.node(x).leaf_mask == a.node(x).leaf_mask,
        a2.node(x).children_index_segment == a.node(x).children_index_segment,
        a2.node(x).children_index_indice == a.node(x).children_index_indice,
        forall|l: ArenaNodeIndice| a.placed(l) && l != x ==> #[trigger] a2.node(l) == a.node(l),
        tree_wf(a, root),
    ensures
        tree_wf(a2, root),
        forall|t: Seq<Direction>| #[trigger] walk(a2, root, t) == walk(a, root, t),
{
    a2.lemma_same_shape(a);
    a.lemma_wf();
    assert forall|t: Seq<Direction>| #[trigger] walk(a2, root, t) == walk(a, root, t) by {
        lemma_data_change(a, a2, root, x, t);
    }
    assert forall|t: Seq<Direction>| #[trigger] walk(a2, root, t) is Some implies {
        let n = walk(a2, root, t).unwrap();
        &&& a2.valid(n)
        &&& has_kids(a2, n) ==> a2.allocated(a2.node(n).child_block())
        &&& has_kids(a2, n) ==> a2.node(n).child_block() != root.block
    } by {
        assert(walk(a, root, t) is Some);
        let n = walk(a, root, t).unwrap();
        assert(a.placed(n));
    }
    assert forall|t1: Seq<Direction>, t2: Seq<Direction>|
        #[trigger] walk(a2, root, t1) is Some && #[trigger] walk(a2, root, t2) is Some && t1 != t2
        && has_kids(a2, walk(a2, root, t1).unwrap()) && has_kids(a2, walk(a2, root, t2).unwrap())
        implies a2.node(walk(a2, root, t1).unwrap()).child_block() != a2.node(walk(a2, root, t2).unwrap()).child_block() by {
        assert(walk(a, root, t1) is Some && walk(a, root, t2) is Some);
        assert(a.placed(walk(a, root, t1).unwrap()));
        assert(a.placed(walk(a, root, t2).unwrap()));
    }
}

/// A node with no children is the end of every walk through it.
pub proof fn lemma_walk_from_leaf_root(a: &Arena, root: ArenaNodeIndice, t: Seq<Direction>)
    requires
        a.node(root).leaf_mask == 0,
        t.len() > 0,
    ensures
        walk(a, root, t) is None,
    decreases t.len(),
{
    lemma_zero_iff_no_bits(0u8);
    if t.len() == 1 {
        assert(t.drop_last().len() == 0);
    } else {
        lemma_walk_from_leaf_root(a, root, t.drop_last());
    }
}

/// No node of the tree lies deeper than twenty steps below the root, so
/// every path to a voxel fits in an `IndexPath`.
pub open spec fn depth_ok(a: &Arena, root: ArenaNodeIndice) -> bool {
    forall|t: Seq<Direction>| t.len() == 21 ==> #[trigger] walk(a, root, t) is None
}

/// A path longer than twenty steps leads to no node.
pub proof fn lemma_depth_ok_long(a: &Arena, root: ArenaNodeIndice, t: Seq<Direction>)
    requires
        depth_ok(a, root),
        t.len() >= 21,
    ensures
        walk(a, root, t) is None,
{
    let u = t.subrange(0, 21);
    assert(walk(a, root, u) is None);
    lemma_walk_none_extends(a, root, u, t.subrange(21, t.len() as int));
    assert(u + t.subrange(21, t.len() as int) =~= t);
}

/// A realloc keeps the depth bound when it creates new children only on a
/// node less than twenty steps deep.
pub proof fn lemma_realloc_depth(a: &Arena, a2: &Arena, root: ArenaNodeIndice, s: Seq<Direction>, ls: ArenaNodeIndice, fm: u8)
    requires
        tree_wf(a, root),
        depth_ok(a, root),
        walk(a, root, s) == Some(ls),
        Arena::realloc_effect(a, a2, ls, fm),
        s.len() < 20 || forall|d: int| 0 <= d < 8 && #[trigger] bit8(fm, d) ==> bit8(a.node(ls).leaf_mask, d),
    ensures
        depth_ok(a2, root),
{
    assert forall|t: Seq<Direction>| t.len() == 21 implies #[trigger] walk(a2, root, t) is None by {
        if !strictly_below(s, t) {
            lemma_realloc_above(a, a2, root, s, ls, fm, t);
        } else {
            lemma_split_below(s, t);
            let d = t[s.len() as int];
            let r = t.subrange(s.len() as int + 1, t.len() as int);
            lemma_realloc_child(a, a2, root, s, ls, fm, d, r);
            Direction::lemma_of_index_bits(d);
        }
    }
}

/// The leaves below octant `d` and the octants after it of node `n`, which
/// path `prefix` leads to, in the order of a depth-first walk: for each
/// octant, its child's leaves if it has a child, else the octant itself as
/// its path, its voxel and its node. `fuel` bounds the depth walked.
pub open spec fn leaf_seq(a: &Arena, n: ArenaNodeIndice, prefix: Seq<Direction>, d: int, fuel: nat) -> Seq<(Seq<Direction>, Voxel, ArenaNodeIndice)>
    decreases fuel, 8 - d,
{
    if d < 0 || d >= 8 || fuel == 0 {
        Seq::empty()
    } else {
        let dir = Direction::of_index(d);
        let rest = leaf_seq(a, n, prefix, d + 1, fuel);
        match a.node(n).child_spec(d) {
            Some(c) => leaf_seq(a, c, prefix.push(dir), 0, (fuel - 1) as nat) + rest,
            None => seq![(prefix.push(dir), a.node(n).data@[d], n)] + rest,
        }
    }
}

/// The number of steps a depth-first walk takes from octant `d` of node
/// `n` to the end of that node: one per octant, one per child entered, and
/// one to leave the node.
pub open spec fn leaf_steps(a: &Arena, n: ArenaNodeIndice, d: int, fuel: nat) -> nat
    decreases fuel, 8 - d,
{
    if d < 0 || fuel == 0 {
        0
    } else if d >= 8 {
        1
    } else {
        let rest = leaf_steps(a, n, d + 1, fuel);
        match a.node(n).child_spec(d) {
            Some(c) => 1 + leaf_steps(a, c, 0, (fuel - 1) as nat) + rest,
            None => 1 + rest,
        }
    }
}

/// Each leaf of the walk is the voxel that sampling its path reads, held
/// by the node its path without the last step leads to.
pub proof fn lemma_leaf_seq_reads(a: &Arena, root: ArenaNodeIndice, n: ArenaNodeIndice, prefix: Seq<Direction>, d: int, fuel: nat)
    requires
        walk(a, root, prefix) == Some(n),
        0 <= d,
    ensures
        forall|i: int| 0 <= i < leaf_seq(a, n, prefix, d, fuel).len() ==> {
            let x = #[trigger] leaf_seq(a, n, prefix, d, fuel)[i];
            &&& x.0.len() > 0
            &&& x.0.len() <= prefix.len() + fuel
            &&& walk(a, root, x.0.drop_last()) == Some(x.2)
            &&& sample_spec(a, root, x.0) == x.1
        },
    decreases fuel, 8 - d,
{
    if d < 8 && fuel > 0 {
        let dir = Direction::of_index(d);
        Direction::lemma_bits_of_index(d);
        lemma_seq_push_drop(prefix, dir);
        lemma_leaf_seq_reads(a, root, n, prefix, d + 1, fuel);
        let rest = leaf_seq(a, n, prefix, d + 1, fuel);
        match a.node(n).child_spec(d) {
            Some(c) => {
                assert(walk(a, root, prefix.push(dir)) == Some(c));
                lemma_leaf_seq_reads(a, root, c, prefix.push(dir), 0, (fuel - 1) as nat);
                let first = leaf_seq(a, c, prefix.push(dir), 0, (fuel - 1) as nat);
                assert forall|i: int| 0 <= i < leaf_seq(a, n, prefix, d, fuel).len() implies {
                    let x = #[trigger] leaf_seq(a, n, prefix, d, fuel)[i];
                    &&& x.0.len() > 0
                    &&& x.0.len() <= prefix.len() + fuel
                    &&& walk(a, root, x.0.drop_last()) == Some(x.2)
                    &&& sample_spec(a, root, x.0) == x.1
                } by {
                    if i < first.len() {
                        assert(leaf_seq(a, n, prefix, d, fuel)[i] == first[i]);
                    } else {
                        assert(leaf_seq(a, n, prefix, d, fuel)[i] == rest[i - first.len()]);
                    }
                }
            },
            None => {
                let head = seq![(prefix.push(dir), a.node(n).data@[d], n)];
                assert forall|i: int| 0 <= i < leaf_seq(a, n, prefix, d, fuel).len() implies {
                    let x = #[trigger] leaf_seq(a, n, prefix, d, fuel)[i];
                    &&& x.0.len() > 0
                    &&& x.0.len() <= prefix.len() + fuel
                    &&& walk(a, root, x.0.drop_last()) == Some(x.2)
                    &&& sample_spec(a, root, x.0) == x.1
                } by {
                    if i == 0 {
                        assert(leaf_seq(a, n, prefix, d, fuel)[i] == head[0]);
                    } else {
                        assert(leaf_seq(a, n, prefix, d, fuel)[i] == rest[i - 1]);
                    }
                }
            },
        }
    }
}

/// Writing voxel `v` into octant `d` of node `x`, which `s` leads to, and
/// changing nothing else, changes the sample of path `s + d`, and of every
/// path below it when `x` has no child there, to `v`; no other sample.
pub proof fn lemma_sample_data_change(a: &Arena, a2: &Arena, root: ArenaNodeIndice, x: ArenaNodeIndice, s: Seq<Direction>, d: Direction, v: Voxel, q: Seq<Direction>)
    requires
        tree_wf(a, root),
        walk(a, root, s) == Some(x),
        forall|t: Seq<Direction>| #[trigger] walk(a2, root, t) == walk(a, root, t),
        forall|l: ArenaNodeIndice| a.placed(l) && l != x ==> #[trigger] a2.node(l) == a.node(l),
        a2.node(x).data@ == a.node(x).data@.update(d.bits() as int, v),
    ensures
        sample_spec(a2, root, q) == (if q == s.push(d) || (strictly_below(s.push(d), q) && walk(a, root, s.push(d)) is None) {
            v
        } else {
            sample_spec(a, root, q)
        }),
    decreases q.len(),
{
    let sd = s.push(d);
    Direction::lemma_of_index_bits(d);
    lemma_seq_push_drop(s, d);
    a.lemma_wf();
    if q.len() > 0 {
        let pre = q.drop_last();
        match walk(a, root, pre) {
            Some(m) => {
                if m == x {
                    if pre != s {
                        lemma_walk_unique(a, root, pre, s);
                    }
                    assert(pre == s);
                    if q.last() == d {
                        assert(q =~= sd);
                    } else {
                        assert(q != sd);
                        Direction::lemma_of_index_bits(q.last());
                        if q.last().bits() == d.bits() {
                            assert(Direction::of_index(q.last().bits() as int) == Direction::of_index(d.bits() as int));
                        }
                    }
                } else {
                    assert(a.placed(m));
                    if q == sd {
                        assert(pre == s);
                    }
                    if strictly_below(sd, q) && walk(a, root, sd) is None {
                        assert(strictly_below(sd, pre) || pre == sd) by {
                            assert(pre.subrange(0, sd.len() as int) =~= q.subrange(0, sd.len() as int));
                            if pre.len() == sd.len() {
                                assert(pre =~= sd);
                            }
                        }
                        if pre == sd {
                        } else {
                            lemma_walk_prefix(a, root, pre, sd.len() as int);
                        }
                    }
                }
            },
            None => {
                lemma_sample_data_change(a, a2, root, x, s, d, v, pre);
                if q == sd {
                    assert(pre == s);
                }
                if strictly_below(sd, q) {
                    assert(pre.subrange(0, sd.len() as int) =~= q.subrange(0, sd.len() as int));
                    if pre.len() == sd.len() {
                        assert(pre =~= sd);
                    }
                }
                if pre == sd {
                    assert(strictly_below(sd, q)) by {
                        assert(q.subrange(0, sd.len() as int) =~= pre);
                    }
                }
                if strictly_below(sd, pre) {
                    assert(q.subrange(0, sd.len() as int) =~= pre.subrange(0, sd.len() as int));
                }
            },
        }
    }
}

/// What the node at path `t` holds, where indices into the arena do not
/// matter: its children mask and its octants' voxels, if a node is there.
pub open spec fn shape(a: &Arena, root: ArenaNodeIndice, t: Seq<Direction>) -> Option<(u8, [Voxel; 8])> {
    match walk(a, root, t) {
        Some(x) => Some((a.node(x).leaf_mask, a.node(x).data)),
        None => None,
    }
}

/// A node with children stands at path `t`.
pub open spec fn split_at(a: &Arena, root: ArenaNodeIndice, t: Seq<Direction>) -> bool {
    match walk(a, root, t) {
        Some(x) => a.node(x).leaf_mask != 0,
        None => false,
    }
}

/// How many of the first `m` prefixes of `p` (lengths 0 to `m - 1`) lead
/// to a node with children.
pub open spec fn path_splits(a: &Arena, root: ArenaNodeIndice, p: Seq<Direction>, m: int) -> int
    decreases m,
{
    if m <= 0 {
        0
    } else {
        path_splits(a, root, p, m - 1) + (if split_at(a, root, p.subrange(0, m - 1)) { 1int } else { 0int })
    }
}

/// Where the prefixes of `p` lead to nodes with children in two arenas
/// alike, but for the one of length `j`, the counts differ by that one.
pub proof fn lemma_path_splits_change(a: &Arena, a2: &Arena, root: ArenaNodeIndice, p: Seq<Direction>, m: int, j: int)
    requires
        forall|k: int| 0 <= k < m && k != j ==> #[trigger] split_at(a2, root, p.subrange(0, k)) == split_at(a, root, p.subrange(0, k)),
    ensures
        path_splits(a2, root, p, m) - path_splits(a, root, p, m) == (if 0 <= j < m {
            (if split_at(a2, root, p.subrange(0, j)) { 1int } else { 0int }) - (if split_at(a, root, p.subrange(0, j)) { 1int } else { 0int })
        } else { 0int }),
    decreases m,
{
    if m > 0 {
        lemma_path_splits_change(a, a2, root, p, m - 1, j);
    }
}

/// A change of the octant data of node `x` alone keeps the shape of every
/// other node, and which nodes have children.
pub proof fn lemma_shape_data_change(a: &Arena, a2: &Arena, root: ArenaNodeIndice, x: ArenaNodeIndice, t: Seq<Direction>)
    requires
        a.valid(x),
        a2.same_shape(a),
        a.wf(),
        a2.node(x).leaf_mask == a.node(x).leaf_mask,
        a2.node(x).children_index_segment == a.node(x).children_index_segment,
        a2.node(x).children_index_indice == a.node(x).children_index_indice,
        forall|l: ArenaNodeIndice| a.placed(l) && l != x ==> #[trigger] a2.node(l) == a.node(l),
        tree_wf(a, root),
    ensures
        walk(a2, root, t) == walk(a, root, t),
        walk(a, root, t) != Some(x) ==> shape(a2, root, t) == shape(a, root, t),
        split_at(a2, root, t) == split_at(a, root, t),
{
    lemma_data_change(a, a2, root, x, t);
    if walk(a, root, t) is Some {
        let m = walk(a, root, t).unwrap();
        a.lemma_placed(m);
    }
}

/// What a realloc of the node `ls` at path `s` to mask `fm` does to the
/// shape of the node at path `t`.
pub proof fn lemma_realloc_shape(a: &Arena, a2: &Arena, root: ArenaNodeIndice, s: Seq<Direction>, ls: ArenaNodeIndice, fm: u8, t: Seq<Direction>)
    requires
        tree_wf(a, root),
        walk(a, root, s) == Some(ls),
        Arena::realloc_effect(a, a2, ls, fm),
    ensures
        !strictly_below(s, t) && t != s ==> shape(a2, root, t) == shape(a, root, t),
        t == s ==> walk(a2, root, t) == Some(ls) && a2.node(ls).leaf_mask == fm && a2.node(ls).data == a.node(ls).data,
        strictly_below(s, t) ==> ({
            let e = t[s.len() as int].bits() as int;
            let om = a.node(ls).leaf_mask;
            &&& bit8(fm, e) && bit8(om, e) ==> shape(a2, root, t) == shape(a, root, t)
            &&& !bit8(fm, e) ==> walk(a2, root, t) is None
            &&& !bit8(om, e) ==> walk(a, root, t) is None
            &&& bit8(fm, e) && !bit8(om, e) && t.len() == s.len() + 1 ==> shape(a2, root, t) == Some((0u8, ArenaNode::empty().data))
            &&& bit8(fm, e) && !bit8(om, e) && t.len() > s.len() + 1 ==> walk(a2, root, t) is None
        }),
{
    lemma_realloc_above(a, a2, root, s, ls, fm, s);
    if !strictly_below(s, t) && t != s {
        lemma_realloc_above(a, a2, root, s, ls, fm, t);
        if walk(a, root, t) is Some {
            let m = walk(a, root, t).unwrap();
            lemma_walk_unique(a, root, t, s);
            a.lemma_wf();
            a.lemma_placed(m);
            assert(a2.node(m) == a.node(m));
        }
    }
    if strictly_below(s, t) {
        let d = t[s.len() as int];
        let r = t.subrange(s.len() as int + 1, t.len() as int);
        assert(t =~= s.push(d) + r);
        lemma_realloc_child(a, a2, root, s, ls, fm, d, r);
        let om = a.node(ls).leaf_mask;
        let e = d.bits() as int;
        if !bit8(om, e) {
            assert(child_at(a, ls, d) is None) by {
                if child_at(a, ls, d) is Some {
                    lemma_child_at(a, ls, d);
                }
            }
            lemma_seq_push_drop(s, d);
            assert(walk(a, root, s.push(d)) is None);
            lemma_walk_none_extends(a, root, s.push(d), r);
        }
        if bit8(fm, e) && !bit8(om, e) && t.len() == s.len() + 1 {
            assert(r.len() == 0);
            assert(ArenaNode::empty().leaf_mask == 0);
        }
    }
}

} // verus!
