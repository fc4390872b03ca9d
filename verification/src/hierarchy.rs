//! What holds of every tree that unfolds from the indexes of a list of
//! records: which records stand in it, where, and how often.

use vstd::prelude::*;
use crate::index::child_index;
use crate::index::child_pids;
use crate::index::descent_within;
use crate::index::last_position;
use crate::index::lemma_children;
use crate::index::lemma_descent_bound;
use crate::index::lemma_last_position;
use crate::index::lemma_reaches_once;
use crate::index::pid_index;
use crate::index::reaches;
use crate::paths::is_path;
use crate::paths::node_at;
use crate::record::RecordView;
use crate::tree::height;
use crate::tree::is_tree_of;
use crate::tree::lemma_tallest_within;
use crate::tree::NodeView;
use crate::tree::unfolds;

verus! {

/// The node at the end of a path is itself the tree of what is below it, it
/// is as many parent ids away from the root as the path is long, and below
/// the root it carries the record of the pid index that names the node above
/// it as its parent.
pub proof fn lemma_walk(records: Seq<RecordView>, t: NodeView, path: Seq<int>)
    requires
        is_tree_of(t, records),
        is_path(t, path),
    ensures
        unfolds(node_at(t, path), pid_index(records), child_index(records, t.record.pid)),
        reaches(records, t.record.pid, node_at(t, path).record.pid, path.len()),
        path.len() > 0 ==> {
            let node = node_at(t, path);
            let above = node_at(t, path.drop_last());
            &&& pid_index(records).contains_key(node.record.pid)
            &&& node.record == pid_index(records)[node.record.pid]
            &&& node.record.ppid == above.record.pid
            &&& node.record.pid == child_pids(records, t.record.pid, above.record.pid)[path.last()]
        },
    decreases path.len(),
{
    if path.len() > 0 {
        let above = node_at(t, path.drop_last());
        lemma_walk(records, t, path.drop_last());
        lemma_children(records, t.record.pid, above.record.pid);
    }
}

/// A pid that is `steps` parent ids away from the root has a node `steps`
/// levels below it.
pub proof fn lemma_path_to(records: Seq<RecordView>, t: NodeView, pid: i32, steps: nat) -> (path:
    Seq<int>)
    requires
        is_tree_of(t, records),
        reaches(records, t.record.pid, pid, steps),
    ensures
        is_path(t, path),
        path.len() == steps,
        node_at(t, path).record.pid == pid,
    decreases steps,
{
    if steps == 0 {
        Seq::empty()
    } else {
        let parent = pid_index(records)[pid].ppid;
        let up = lemma_path_to(records, t, parent, (steps - 1) as nat);
        lemma_walk(records, t, up);
        lemma_children(records, t.record.pid, parent);
        let kids = child_pids(records, t.record.pid, parent);
        let k = choose|k: int| 0 <= k < kids.len() && kids[k] == pid;
        let path = up.push(k);
        assert(path.drop_last() == up);
        path
    }
}

/// No pid stands in the tree twice: two paths to one pid are one path.
pub proof fn lemma_pid_stands_once(records: Seq<RecordView>, t: NodeView, a: Seq<int>, b: Seq<int>)
    requires
        is_tree_of(t, records),
        is_path(t, a),
        is_path(t, b),
        node_at(t, a).record.pid == node_at(t, b).record.pid,
    ensures
        a == b,
    decreases a.len(),
{
    lemma_walk(records, t, a);
    lemma_walk(records, t, b);
    lemma_reaches_once(records, t.record.pid, node_at(t, a).record.pid, a.len(), b.len());
    if a.len() > 0 {
        lemma_pid_stands_once(records, t, a.drop_last(), b.drop_last());
        lemma_walk(records, t, a.drop_last());
        lemma_children(records, t.record.pid, node_at(t, a.drop_last()).record.pid);
        assert(b =~= b.drop_last().push(b.last()));
    }
}

/// The tree is complete and holds nothing twice: a pid whose parent ids lead
/// to the root in `steps` steps stands in the tree `steps` levels below the
/// root, with the record that the pid index keeps for it, and nowhere else.
pub proof fn lemma_connected_record_stands_once(
    records: Seq<RecordView>,
    t: NodeView,
    pid: i32,
    steps: nat,
)
    requires
        is_tree_of(t, records),
        reaches(records, t.record.pid, pid, steps),
        steps > 0,
    ensures
        exists|path: Seq<int>|
            {
                &&& #[trigger] is_path(t, path)
                &&& path.len() == steps
                &&& node_at(t, path).record == pid_index(records)[pid]
                &&& forall|other: Seq<int>|
                    #[trigger] is_path(t, other) && node_at(t, other).record.pid == pid ==> other
                        == path
            },
{
    let path = lemma_path_to(records, t, pid, steps);
    lemma_walk(records, t, path);
    assert forall|other: Seq<int>|
        #[trigger] is_path(t, other) && node_at(t, other).record.pid == pid implies other
        == path by {
        lemma_pid_stands_once(records, t, other, path);
    }
}

/// Orphans are left out: a record whose parent id is neither the root's pid
/// nor the pid of any record stands nowhere below the root.
pub proof fn lemma_orphan_is_absent(records: Seq<RecordView>, t: NodeView, orphan: RecordView)
    requires
        is_tree_of(t, records),
        orphan.ppid != t.record.pid,
        !pid_index(records).contains_key(orphan.ppid),
    ensures
        forall|path: Seq<int>|
            #[trigger] is_path(t, path) && path.len() > 0 ==> node_at(t, path).record != orphan,
{
    assert forall|path: Seq<int>| #[trigger] is_path(t, path) && path.len() > 0 implies node_at(
        t,
        path,
    ).record != orphan by {
        lemma_walk(records, t, path);
        lemma_walk(records, t, path.drop_last());
    }
}

/// Of two records with one pid the later one stands in the tree: below the
/// root every node carries the record that was seen last with its pid.
pub proof fn lemma_node_is_last_seen(records: Seq<RecordView>, t: NodeView, path: Seq<int>)
    requires
        is_tree_of(t, records),
        is_path(t, path),
        path.len() > 0,
    ensures
        0 <= last_position(records, node_at(t, path).record.pid) < records.len(),
        node_at(t, path).record == records[last_position(records, node_at(t, path).record.pid)],
{
    lemma_walk(records, t, path);
    lemma_last_position(records, node_at(t, path).record.pid);
}

/// A tree that unfolds from indexes is no higher than their descents are long.
pub proof fn lemma_height_within(
    t: NodeView,
    records: Map<i32, RecordView>,
    lists: Map<i32, Seq<i32>>,
    depth: nat,
)
    requires
        unfolds(t, records, lists),
        descent_within(records, lists, t.record.pid, depth),
    ensures
        height(t) <= depth,
    decreases depth,
{
    if t.children.len() > 0 {
        assert forall|i: int| 0 <= i < t.children.len() implies height(#[trigger] t.children[i])
            <= depth - 1 by {
            lemma_height_within(t.children[i], records, lists, (depth - 1) as nat);
        }
        lemma_tallest_within(t.children, (depth - 1) as nat);
    }
}

/// The tree of a list of records has no more levels below its root than the
/// list has records.
pub proof fn lemma_height_bound(records: Seq<RecordView>, t: NodeView)
    requires
        is_tree_of(t, records),
    ensures
        height(t) <= records.len(),
{
    lemma_descent_bound(records, t.record.pid, t.record.pid, 0);
    lemma_height_within(
        t,
        pid_index(records),
        child_index(records, t.record.pid),
        records.len(),
    );
}

/// Unfolding gives one tree only: two trees with one record at the root that
/// both unfold from the same indexes are the same tree.
pub proof fn lemma_unfolds_one_tree(
    a: NodeView,
    b: NodeView,
    records: Map<i32, RecordView>,
    lists: Map<i32, Seq<i32>>,
)
    requires
        unfolds(a, records, lists),
        unfolds(b, records, lists),
        a.record == b.record,
    ensures
        a == b,
    decreases a,
{
    assert forall|i: int| 0 <= i < a.children.len() implies a.children[i] == b.children[i] by {
        lemma_unfolds_one_tree(a.children[i], b.children[i], records, lists);
    }
    assert(a.children =~= b.children);
}

} // verus!
