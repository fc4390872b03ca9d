//! The hierarchy as text: one line for each node, parents before children,
//! each level two spaces further in.

use vstd::prelude::*;
use vstd::string::StringExecFns;
use crate::paths::below;
use crate::paths::lemma_path_below;
use crate::paths::node_at;
use crate::paths::preorder;
use crate::paths::preorder_below;
use crate::record::RecordView;
use crate::text::append_decimal;
use crate::text::decimal;
use crate::tree::height;
use crate::tree::lemma_tallest;
use crate::tree::NodeView;
use crate::tree::ProcessTreeNode;

verus! {

/// The space that stands before a line at `depth`: two blanks for each level.
pub open spec fn indentation(depth: nat) -> Seq<char>
    decreases depth,
{
    if depth == 0 {
        Seq::empty()
    } else {
        indentation((depth - 1) as nat) + "  "@
    }
}

/// The line that shows `record` at `depth`, with its line feed.
pub open spec fn line(record: RecordView, depth: nat) -> Seq<char> {
    indentation(depth) + "- "@ + record.name + " #"@ + decimal(record.pid as int) + "\n"@
}

/// The text of the tree `t` whose root stands at `depth`: its own line, then
/// each of its children in order, one level deeper.
pub open spec fn rendered(t: NodeView, depth: nat) -> Seq<char>
    decreases t,
{
    line(t.record, depth) + rendered_all(t.children, depth + 1)
}

/// The texts of the trees `ts`, all at `depth`, one after another.
pub open spec fn rendered_all(ts: Seq<NodeView>, depth: nat) -> Seq<char>
    decreases ts,
{
    if ts.len() == 0 {
        Seq::empty()
    } else {
        rendered_all(ts.drop_last(), depth) + rendered(ts.last(), depth)
    }
}

/// The lines of the nodes that `paths` lead to from `t`, in the order of
/// `paths`, where the root of `t` stands at `depth`: each node's line is
/// indented by its own depth.
pub open spec fn lines_at(t: NodeView, paths: Seq<Seq<int>>, depth: nat) -> Seq<char>
    decreases paths.len(),
{
    if paths.len() == 0 {
        Seq::empty()
    } else {
        lines_at(t, paths.drop_last(), depth) + line(
            node_at(t, paths.last()).record,
            depth + paths.last().len(),
        )
    }
}

/// The lines at two lists of paths, one list after the other.
proof fn lemma_lines_at_both(t: NodeView, first: Seq<Seq<int>>, rest: Seq<Seq<int>>, depth: nat)
    ensures
        lines_at(t, first + rest, depth) == lines_at(t, first, depth) + lines_at(t, rest, depth),
    decreases rest.len(),
{
    if rest.len() > 0 {
        lemma_lines_at_both(t, first, rest.drop_last(), depth);
        assert((first + rest).drop_last() == first + rest.drop_last());
    }
}

/// The lines at paths that all start at the child at place `i` are the lines
/// that the rest of each path gives in that child, one level deeper.
proof fn lemma_lines_at_below(t: NodeView, i: int, paths: Seq<Seq<int>>, depth: nat)
    ensures
        lines_at(t, paths.map_values(|path: Seq<int>| below(i, path)), depth) == lines_at(
            t.children[i],
            paths,
            depth + 1,
        ),
    decreases paths.len(),
{
    let longer = paths.map_values(|path: Seq<int>| below(i, path));
    if paths.len() > 0 {
        lemma_lines_at_below(t, i, paths.drop_last(), depth);
        lemma_path_below(t, i, paths.last());
        assert(longer.drop_last() == paths.drop_last().map_values(
            |path: Seq<int>| below(i, path),
        ));
    }
}

/// The texts of the first `k` children of `t` are the lines of all nodes
/// below them, in pre-order.
proof fn lemma_children_rendered_in_preorder(t: NodeView, k: int, depth: nat)
    requires
        0 <= k <= t.children.len(),
    ensures
        rendered_all(t.children.take(k), depth + 1) == lines_at(
            t,
            preorder_below(t.children.take(k)),
            depth,
        ),
    decreases t, k,
{
    if k > 0 {
        let ts = t.children.take(k);
        assert(ts.drop_last() == t.children.take(k - 1));
        lemma_children_rendered_in_preorder(t, k - 1, depth);
        lemma_rendered_in_preorder(t.children[k - 1], depth + 1);
        lemma_lines_at_below(t, k - 1, preorder(t.children[k - 1]), depth);
        lemma_lines_at_both(
            t,
            preorder_below(ts.drop_last()),
            preorder(ts.last()).map_values(|path: Seq<int>| below(ts.len() - 1, path)),
            depth,
        );
    }
}

/// The text of a tree is the lines of its nodes in pre-order, one line for
/// each node, indented by two blanks for each level that the node stands
/// below the root of the tree.
pub proof fn lemma_rendered_in_preorder(t: NodeView, depth: nat)
    ensures
        rendered(t, depth) == lines_at(t, preorder(t), depth),
    decreases t, t.children.len() + 1,
{
    let head = seq![Seq::<int>::empty()];
    lemma_children_rendered_in_preorder(t, t.children.len() as int, depth);
    assert(t.children.take(t.children.len() as int) == t.children);
    lemma_lines_at_both(t, head, preorder_below(t.children), depth);
    assert(lines_at(t, head, depth) == line(t.record, depth)) by {
        assert(lines_at(t, head.drop_last(), depth) == Seq::<char>::empty());
    }
}

/// Appends to `out` the text of the tree below `node`, whose own line is
/// indented by `indent_level` levels: parents before children, children in
/// the order in which the node holds them.
pub fn print_node(node: &ProcessTreeNode, indent_level: usize, out: &mut String)
    requires
        indent_level + height(node@) <= usize::MAX,
    ensures
        final(out)@ == old(out)@ + rendered(node@, indent_level as nat),
    decreases node,
{
    let mut level: usize = 0;
    while level < indent_level
        invariant
            level <= indent_level,
            out@ == old(out)@ + indentation(level as nat),
        decreases indent_level - level,
    {
        out.append("  ");
        level += 1;
    }
    out.append("- ");
    out.append(node.record.name.as_str());
    out.append(" #");
    append_decimal(out, node.record.pid);
    out.append("\n");
    let mut i: usize = 0;
    while i < node.children.len()
        invariant
            i <= node.children.len(),
            indent_level + height(node@) <= usize::MAX,
            out@ == old(out)@ + line(node@.record, indent_level as nat) + rendered_all(
                node@.children.take(i as int),
                (indent_level + 1) as nat,
            ),
        decreases node.children.len() - i,
    {
        proof {
            lemma_tallest(node@.children, i as int);
            assert(node@.children.take(i + 1).drop_last() == node@.children.take(i as int));
        }
        print_node(&node.children[i], indent_level + 1, out);
        i += 1;
    }
    assert(node@.children.take(i as int) == node@.children);
}

} // verus!
