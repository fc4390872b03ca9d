//! The process hierarchy as an owned tree, and how it is built from a flat
//! list of records: two indexes are filled in passes over the list, then the
//! tree is unfolded from them, from the root down.

use std::collections::HashMap;
use std::collections::hash_map::Entry;
use vstd::prelude::*;
use crate::hierarchy::lemma_height_bound;
use crate::index::child_index;
use crate::index::child_index_among;
use crate::index::children_of;
use crate::index::descent_ends;
use crate::index::descent_height;
use crate::index::is_listed;
use crate::index::last_position;
use crate::index::lemma_child_descent;
use crate::index::lemma_child_index_step;
use crate::index::lemma_descent_bound;
use crate::index::lemma_last_position;
use crate::index::lemma_pid_index_push;
use crate::index::pid_index;
use crate::record::ProcessRecord;
use crate::record::RecordView;

verus! {

/// The mathematical value of a [`ProcessTreeNode`]: a record's value, and
/// below it the values of the children in order.
pub struct NodeView {
    pub record: RecordView,
    pub children: Seq<NodeView>,
}

/// One process in the hierarchy, with the processes that name it as their
/// parent below it.
#[derive(Debug)]
pub struct ProcessTreeNode {
    pub record: ProcessRecord,
    pub children: Vec<ProcessTreeNode>,
}

/// The value of `node`: the value of its record, and the values of its
/// children in the order in which it holds them.
pub open spec fn node_view(node: ProcessTreeNode) -> NodeView
    decreases node,
{
    NodeView {
        record: node.record@,
        children: Seq::new(
            node.children@.len(),
            |i: int|
                if 0 <= i < node.children@.len() {
                    node_view(node.children@[i])
                } else {
                    arbitrary()
                },
        ),
    }
}

impl View for ProcessTreeNode {
    type V = NodeView;

    open spec fn view(&self) -> NodeView {
        node_view(*self)
    }
}

/// The hierarchy of one scan, below a root that stands above every process.
#[derive(Debug)]
pub struct ProcessTree {
    pub root: ProcessTreeNode,
}

impl View for ProcessTree {
    type V = NodeView;

    open spec fn view(&self) -> NodeView {
        self.root@
    }
}

/// The pid of the root that a [`ProcessTree`] is built under.
pub const ROOT_PID: i32 = 0;

/// The record of the root that a [`ProcessTree`] is built under.
pub open spec fn root_record() -> RecordView {
    RecordView { name: "/"@, pid: ROOT_PID, ppid: -1i32 }
}

/// The number of levels below `t`.
pub open spec fn height(t: NodeView) -> nat
    decreases t,
{
    if t.children.len() == 0 {
        0
    } else {
        1 + tallest(t.children)
    }
}

/// The height of the highest of `ts`; 0 for none.
pub open spec fn tallest(ts: Seq<NodeView>) -> nat
    decreases ts,
{
    if ts.len() == 0 {
        0
    } else if height(ts.last()) >= tallest(ts.drop_last()) {
        height(ts.last())
    } else {
        tallest(ts.drop_last())
    }
}

/// None of `ts` is higher than the highest of them.
pub proof fn lemma_tallest(ts: Seq<NodeView>, i: int)
    requires
        0 <= i < ts.len(),
    ensures
        height(ts[i]) <= tallest(ts),
    decreases ts.len(),
{
    if i < ts.len() - 1 {
        lemma_tallest(ts.drop_last(), i);
    }
}

/// All of `ts` that are no higher than `bound` have a highest that is no
/// higher either.
pub proof fn lemma_tallest_within(ts: Seq<NodeView>, bound: nat)
    requires
        forall|i: int| 0 <= i < ts.len() ==> height(#[trigger] ts[i]) <= bound,
    ensures
        tallest(ts) <= bound,
    decreases ts.len(),
{
    if ts.len() > 0 {
        assert(forall|i: int|
            0 <= i < ts.drop_last().len() ==> height(#[trigger] ts.drop_last()[i]) <= bound);
        lemma_tallest_within(ts.drop_last(), bound);
    }
}

impl Clone for ProcessTreeNode {
    fn clone(&self) -> (copy: Self)
        ensures
            copy@ == self@,
        decreases self,
    {
        let mut children: Vec<ProcessTreeNode> = Vec::new();
        let mut i: usize = 0;
        while i < self.children.len()
            invariant
                i <= self.children.len(),
                children.len() == i,
                forall|j: int| 0 <= j < i ==> children@[j]@ == self.children@[j]@,
            decreases self.children.len() - i,
        {
            children.push(self.children[i].clone());
            i += 1;
        }
        let copy = ProcessTreeNode { record: self.record.clone(), children };
        assert(copy@.children =~= self@.children);
        copy
    }
}

impl Clone for ProcessTree {
    fn clone(&self) -> (copy: Self)
        ensures
            copy@ == self@,
    {
        ProcessTree { root: self.root.clone() }
    }
}

impl ProcessTreeNode {
    /// A node for `record` that has no children yet.
    pub fn new(record: &ProcessRecord) -> (node: ProcessTreeNode)
        ensures
            node@.record == record@,
            node@.children == Seq::<NodeView>::empty(),
    {
        ProcessTreeNode { record: record.clone(), children: Vec::new() }
    }
}

/// A pid index as a map of values: each pid with the value of its record.
pub open spec fn records_of(pid_map: Map<i32, &ProcessRecord>) -> Map<i32, RecordView> {
    pid_map.map_values(|r: &ProcessRecord| r@)
}

/// A child index as a map of values: each pid with the pids of its children.
pub open spec fn lists_of(ppid_map: Map<i32, Vec<i32>>) -> Map<i32, Seq<i32>> {
    ppid_map.map_values(|v: Vec<i32>| v@)
}

/// Whether the tree `t` is what the two indexes give below its record: `t`
/// has one child for each pid that `lists` names under the pid of `t`, in
/// that order, the child carries the record that `records` holds for that
/// pid, and the same holds of the child in turn.
pub open spec fn unfolds(
    t: NodeView,
    records: Map<i32, RecordView>,
    lists: Map<i32, Seq<i32>>,
) -> bool
    decreases t,
{
    let kids = children_of(lists, t.record.pid);
    &&& t.children.len() == kids.len()
    &&& forall|i: int|
        0 <= i < kids.len() ==> {
            &&& (#[trigger] t.children[i]).record == records[kids[i]]
            &&& unfolds(t.children[i], records, lists)
        }
}

/// Whether `t` is the tree of `records` below its own root: it unfolds from
/// the two indexes of `records`, where a record with the pid of the root of
/// `t` is nobody's child.
pub open spec fn is_tree_of(t: NodeView, records: Seq<RecordView>) -> bool {
    unfolds(t, pid_index(records), child_index(records, t.record.pid))
}

/// Whether `after` is `before` with the subtrees of its children appended:
/// the record and the children that were there are kept, and what was added
/// is what unfolds from the two indexes below that record.
pub open spec fn grown_from(
    after: NodeView,
    before: NodeView,
    records: Map<i32, RecordView>,
    lists: Map<i32, Seq<i32>>,
) -> bool {
    &&& after.record == before.record
    &&& before.children.is_prefix_of(after.children)
    &&& unfolds(
        NodeView { record: before.record, children: after.children.skip(before.children.len() as int) },
        records,
        lists,
    )
}

/// A node that had no children and has grown is the tree that unfolds below
/// its record.
pub proof fn lemma_grown_leaf_unfolds(
    after: NodeView,
    before: NodeView,
    records: Map<i32, RecordView>,
    lists: Map<i32, Seq<i32>>,
)
    requires
        grown_from(after, before, records, lists),
        before.children.len() == 0,
    ensures
        unfolds(after, records, lists),
{
    assert(after.children.skip(0) == after.children);
}

/// Appends to `node` the subtrees of its children: for each pid that
/// `ppid_map` lists under the pid of `node`, in that order, a node with the
/// record that `pid_map` holds for it, filled in the same way.
pub fn populate_node_helper(
    node: &mut ProcessTreeNode,
    pid_map: &HashMap<i32, &ProcessRecord>,
    ppid_map: &HashMap<i32, Vec<i32>>,
)
    requires
        descent_ends(records_of(pid_map@), lists_of(ppid_map@), old(node).record.pid),
    ensures
        grown_from(final(node)@, old(node)@, records_of(pid_map@), lists_of(ppid_map@)),
    decreases descent_height(records_of(pid_map@), lists_of(ppid_map@), old(node).record.pid),
{
    let ghost records = records_of(pid_map@);
    let ghost lists = lists_of(ppid_map@);
    let ghost before = node@;
    let pid = node.record.pid;
    match ppid_map.get(&pid) {
        Some(children) => {
            let mut i: usize = 0;
            while i < children.len()
                invariant
                    i <= children.len(),
                    records == records_of(pid_map@),
                    lists == lists_of(ppid_map@),
                    descent_ends(records, lists, pid),
                    pid == old(node).record.pid,
                    children@ == children_of(lists, pid),
                    node@.record == before.record,
                    node@.children.len() == before.children.len() + i,
                    before.children.is_prefix_of(node@.children),
                    forall|j: int|
                        0 <= j < i ==> {
                            &&& (#[trigger] node@.children[before.children.len() + j]).record
                                == records[children@[j]]
                            &&& unfolds(node@.children[before.children.len() + j], records, lists)
                        },
                decreases children.len() - i,
            {
                proof {
                    lemma_child_descent(records, lists, pid, i as int);
                }
                let record = pid_map.get(&children[i]).unwrap();
                let mut child = ProcessTreeNode::new(record);
                let ghost leaf = child@;
                populate_node_helper(&mut child, pid_map, ppid_map);
                let ghost grown = node@;
                node.children.push(child);
                proof {
                    lemma_grown_leaf_unfolds(child@, leaf, records, lists);
                    assert(node@.children == grown.children.push(child@));
                }
                i += 1;
            }
        },
        None => {},
    }
    proof {
        let added = node@.children.skip(before.children.len() as int);
        assert(forall|j: int|
            0 <= j < added.len() ==> #[trigger] added[j] == node@.children[before.children.len()
                + j]);
    }
}

/// Whether `last_seen` holds, for each pid that occurs among `records`, the
/// position of the last record that carries it.
spec fn holds_last_positions(last_seen: Map<i32, usize>, records: Seq<RecordView>) -> bool {
    forall|pid: i32|
        {
            &&& #[trigger] last_seen.contains_key(pid) <==> last_position(records, pid) >= 0
            &&& last_seen.contains_key(pid) ==> last_seen[pid] == last_position(records, pid)
        }
}

/// Appends to `node` the subtrees of its children among `records`. Of two
/// records with one pid the later one counts, and a record that carries
/// `node`'s own pid is no child of anybody.
pub fn populate_node(node: &mut ProcessTreeNode, records: &Vec<ProcessRecord>)
    ensures
        grown_from(
            final(node)@,
            old(node)@,
            pid_index(records.deep_view()),
            child_index(records.deep_view(), old(node).record.pid),
        ),
{
    let ghost recs = records.deep_view();
    let root = node.record.pid;
    // First pass: for each pid the record that is seen last with it, and
    // where that record stands.
    let mut pid_map: HashMap<i32, &ProcessRecord> = HashMap::new();
    let mut last_seen: HashMap<i32, usize> = HashMap::new();
    let mut i: usize = 0;
    while i < records.len()
        invariant
            i <= records.len(),
            recs == records.deep_view(),
            records_of(pid_map@) == pid_index(recs.take(i as int)),
            holds_last_positions(last_seen@, recs.take(i as int)),
        decreases records.len() - i,
    {
        let record = &records[i];
        pid_map.insert(record.pid, record);
        last_seen.insert(record.pid, i);
        proof {
            assert(recs.take(i + 1) == recs.take(i as int).push(record@));
            assert(recs.take(i + 1).drop_last() == recs.take(i as int));
            lemma_pid_index_push(recs.take(i as int), record@);
        }
        i += 1;
    }
    assert(recs.take(i as int) == recs);
    // Second pass: each record that the first pass kept goes into the list of
    // its parent, so that no pid is listed twice.
    let mut ppid_map: HashMap<i32, Vec<i32>> = HashMap::new();
    let mut i: usize = 0;
    while i < records.len()
        invariant
            i <= records.len(),
            recs == records.deep_view(),
            root == node.record.pid,
            records_of(pid_map@) == pid_index(recs),
            holds_last_positions(last_seen@, recs),
            lists_of(ppid_map@) == child_index_among(recs, root, i as int),
        decreases records.len() - i,
    {
        let record = &records[i];
        let listed = record.pid != root && match last_seen.get(&record.pid) {
            Some(last) => *last == i,
            None => false,
        };
        proof {
            lemma_last_position(recs, record.pid);
            assert(listed == is_listed(recs, root, i as int));
        }
        let ghost lists = lists_of(ppid_map@);
        if listed {
            match ppid_map.entry(record.ppid) {
                Entry::Vacant(entry) => {
                    entry.insert(vec![record.pid]);
                },
                Entry::Occupied(mut entry) => {
                    entry.get_mut().push(record.pid);
                },
            }
            assert(ppid_map@[record.ppid]@ =~= children_of(lists, record.ppid).push(record.pid));
            assert(lists_of(ppid_map@) =~= lists.insert(
                record.ppid,
                children_of(lists, record.ppid).push(record.pid),
            ));
        }
        proof {
            lemma_child_index_step(recs, root, i as int);
        }
        i += 1;
    }
    proof {
        lemma_descent_bound(recs, root, root, 0);
    }
    populate_node_helper(node, &pid_map, &ppid_map);
}

/// Builds the hierarchy of `records` below the root.
pub fn build_process_tree(records: &Vec<ProcessRecord>) -> (tree: ProcessTree)
    ensures
        tree@.record == root_record(),
        is_tree_of(tree@, records.deep_view()),
        height(tree@) <= records.len(),
{
    let mut tree = ProcessTree {
        root: ProcessTreeNode::new(&ProcessRecord { name: "/".to_owned(), pid: ROOT_PID, ppid: -1 }),
    };
    let ghost leaf = tree@;
    populate_node(&mut tree.root, records);
    proof {
        lemma_grown_leaf_unfolds(
            tree@,
            leaf,
            pid_index(records.deep_view()),
            child_index(records.deep_view(), ROOT_PID),
        );
        lemma_height_bound(records.deep_view(), tree@);
    }
    tree
}

} // verus!
