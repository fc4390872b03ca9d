//! Paths into a tree: the places of a node's ancestors and of the node
//! itself among the children of their parents, from the root down.

use vstd::prelude::*;
use crate::tree::NodeView;

verus! {

/// Whether `path` leads from `t` down to a node: each of its numbers is the
/// place of a child in the node that the numbers before it lead to.
pub open spec fn is_path(t: NodeView, path: Seq<int>) -> bool
    decreases path.len(),
{
    path.len() == 0 || {
        &&& is_path(t, path.drop_last())
        &&& 0 <= path.last() < node_at(t, path.drop_last()).children.len()
    }
}

/// The node that `path` leads to from `t`; `t` itself for the empty path.
pub open spec fn node_at(t: NodeView, path: Seq<int>) -> NodeView
    decreases path.len(),
{
    if path.len() == 0 {
        t
    } else {
        node_at(t, path.drop_last()).children[path.last()]
    }
}

/// `path` below the child at place `i`.
pub open spec fn below(i: int, path: Seq<int>) -> Seq<int> {
    seq![i] + path
}

/// The paths to all nodes of `t`: a node before its children, the children
/// in their order, each with all that is below it.
pub open spec fn preorder(t: NodeView) -> Seq<Seq<int>>
    decreases t,
{
    seq![Seq::empty()] + preorder_below(t.children)
}

/// The paths, from their common parent, to all nodes of the trees `ts`.
pub open spec fn preorder_below(ts: Seq<NodeView>) -> Seq<Seq<int>>
    decreases ts,
{
    if ts.len() == 0 {
        Seq::empty()
    } else {
        preorder_below(ts.drop_last()) + preorder(ts.last()).map_values(
            |path: Seq<int>| below(ts.len() - 1, path),
        )
    }
}

/// A path that starts at a child is a path from that child on, and leads to
/// the same node.
pub proof fn lemma_path_below(t: NodeView, i: int, path: Seq<int>)
    ensures
        is_path(t, below(i, path)) <==> 0 <= i < t.children.len() && is_path(t.children[i], path),
        node_at(t, below(i, path)) == node_at(t.children[i], path),
    decreases path.len(),
{
    if path.len() == 0 {
        assert(below(i, path).drop_last() == Seq::<int>::empty());
        assert(is_path(t, Seq::empty()));
        assert(node_at(t, Seq::empty()) == t);
    } else {
        lemma_path_below(t, i, path.drop_last());
        assert(below(i, path).drop_last() == below(i, path.drop_last()));
    }
}

/// What `preorder_below` lists: the paths of each of the trees, below the
/// place of that tree.
pub proof fn lemma_preorder_below(ts: Seq<NodeView>, path: Seq<int>)
    ensures
        preorder_below(ts).contains(path) <==> exists|i: int, rest: Seq<int>|
            0 <= i < ts.len() && path == #[trigger] below(i, rest) && preorder(ts[i]).contains(
                rest,
            ),
    decreases ts.len(),
{
    if ts.len() > 0 {
        let first = preorder_below(ts.drop_last());
        let last = preorder(ts.last()).map_values(|rest: Seq<int>| below(ts.len() - 1, rest));
        lemma_preorder_below(ts.drop_last(), path);
        if exists|i: int, rest: Seq<int>|
            0 <= i < ts.len() && path == #[trigger] below(i, rest) && preorder(ts[i]).contains(
                rest,
            ) {
            let (i, rest) = choose|i: int, rest: Seq<int>|
                0 <= i < ts.len() && path == #[trigger] below(i, rest) && preorder(ts[i]).contains(
                    rest,
                );
            if i < ts.len() - 1 {
                let k = choose|k: int| 0 <= k < first.len() && first[k] == path;
                assert((first + last)[k] == path);
            } else {
                let k = choose|k: int|
                    0 <= k < preorder(ts.last()).len() && preorder(ts.last())[k] == rest;
                assert((first + last)[first.len() + k] == path);
            }
        }
    }
}

/// `preorder` lists the paths of a tree and nothing else.
pub proof fn lemma_preorder_lists_paths(t: NodeView, path: Seq<int>)
    ensures
        preorder(t).contains(path) <==> is_path(t, path),
    decreases t, path.len(),
{
    let head = seq![Seq::<int>::empty()];
    let tail = preorder_below(t.children);
    lemma_preorder_below(t.children, path);
    if path.len() == 0 {
        assert((head + tail)[0] == path);
    } else {
        let i = path[0];
        let rest = path.drop_first();
        assert(path =~= below(i, rest));
        lemma_path_below(t, i, rest);
        if 0 <= i < t.children.len() {
            lemma_preorder_lists_paths(t.children[i], rest);
        }
        if preorder(t).contains(path) {
            let (j, other) = choose|j: int, other: Seq<int>|
                0 <= j < t.children.len() && path == #[trigger] below(j, other) && preorder(
                    t.children[j],
                ).contains(other);
            assert(below(j, other).drop_first() =~= other);
        }
        if is_path(t, path) {
            let k = choose|k: int| 0 <= k < tail.len() && tail[k] == path;
            assert((head + tail)[k + 1] == path);
        }
    }
}

/// `preorder_below` lists no path twice.
pub proof fn lemma_preorder_below_once(ts: Seq<NodeView>)
    ensures
        preorder_below(ts).no_duplicates(),
    decreases ts,
{
    if ts.len() > 0 {
        let first = preorder_below(ts.drop_last());
        let paths = preorder(ts.last());
        let last = paths.map_values(|rest: Seq<int>| below(ts.len() - 1, rest));
        lemma_preorder_below_once(ts.drop_last());
        lemma_preorder_once(ts.last());
        assert forall|k: int, l: int| 0 <= k < last.len() && 0 <= l < last.len() && k != l implies last[k]
            != last[l] by {
            assert(below(ts.len() - 1, paths[k]).drop_first() =~= paths[k]);
            assert(below(ts.len() - 1, paths[l]).drop_first() =~= paths[l]);
        }
        assert forall|k: int, l: int| 0 <= k < first.len() && 0 <= l < last.len() implies first[k]
            != last[l] by {
            lemma_preorder_below(ts.drop_last(), first[k]);
            assert(last[l][0] == ts.len() - 1);
        }
        vstd::seq_lib::lemma_no_dup_in_concat(first, last);
    }
}

/// `preorder` lists no path twice.
pub proof fn lemma_preorder_once(t: NodeView)
    ensures
        preorder(t).no_duplicates(),
    decreases t,
{
    let head = seq![Seq::<int>::empty()];
    let tail = preorder_below(t.children);
    lemma_preorder_below_once(t.children);
    assert forall|k: int, l: int| 0 <= k < head.len() && 0 <= l < tail.len() implies head[k]
        != tail[l] by {
        lemma_preorder_below(t.children, tail[l]);
    }
    vstd::seq_lib::lemma_no_dup_in_concat(head, tail);
}

} // verus!
