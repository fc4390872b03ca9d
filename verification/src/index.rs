//! The two indexes that turn a flat list of records into a hierarchy: each
//! pid's record, and each pid's children.

use vstd::prelude::*;
use crate::record::RecordView;

verus! {

/// The position of the last of `records` that carries `pid`; -1 where none does.
pub open spec fn last_position(records: Seq<RecordView>, pid: i32) -> int
    decreases records.len(),
{
    if records.len() == 0 {
        -1
    } else if records.last().pid == pid {
        records.len() - 1
    } else {
        last_position(records.drop_last(), pid)
    }
}

/// The pid index: each pid that occurs among `records`, with the record that
/// was seen last with it.
pub open spec fn pid_index(records: Seq<RecordView>) -> Map<i32, RecordView> {
    Map::new(
        |pid: i32| last_position(records, pid) >= 0,
        |pid: i32| records[last_position(records, pid)],
    )
}

/// Whether the record at position `i` is the one that the pid index keeps.
pub open spec fn is_last_seen(records: Seq<RecordView>, i: int) -> bool {
    0 <= i < records.len() && last_position(records, records[i].pid) == i
}

/// Whether the record at position `i` is listed as somebody's child: it is the
/// last seen with its pid, and its pid is not `root`, the pid of the node that
/// the hierarchy is built under. That node stands for this pid already; a
/// record that carried it again could only hang below itself.
pub open spec fn is_listed(records: Seq<RecordView>, root: i32, i: int) -> bool {
    is_last_seen(records, i) && records[i].pid != root
}

/// The positions among the first `n` records of those listed as children of
/// `parent`, in ascending order.
pub open spec fn child_positions(records: Seq<RecordView>, root: i32, parent: i32, n: int) -> Seq<
    int,
>
    decreases n,
{
    if n <= 0 {
        Seq::empty()
    } else {
        let before = child_positions(records, root, parent, n - 1);
        if is_listed(records, root, n - 1) && records[n - 1].ppid == parent {
            before.push(n - 1)
        } else {
            before
        }
    }
}

/// The pids of the children of `parent` that stand among the first `n` records.
pub open spec fn child_pids_among(records: Seq<RecordView>, root: i32, parent: i32, n: int) -> Seq<
    i32,
> {
    child_positions(records, root, parent, n).map_values(|i: int| records[i].pid)
}

/// The pids of the children of `parent`, in the order in which their records
/// stand in `records`.
pub open spec fn child_pids(records: Seq<RecordView>, root: i32, parent: i32) -> Seq<i32> {
    child_pids_among(records, root, parent, records.len() as int)
}

/// The child index as far as the first `n` records fill it.
pub open spec fn child_index_among(records: Seq<RecordView>, root: i32, n: int) -> Map<
    i32,
    Seq<i32>,
> {
    Map::new(
        |parent: i32| child_pids_among(records, root, parent, n).len() > 0,
        |parent: i32| child_pids_among(records, root, parent, n),
    )
}

/// The child index: each pid that has children, with their pids in order.
pub open spec fn child_index(records: Seq<RecordView>, root: i32) -> Map<i32, Seq<i32>> {
    child_index_among(records, root, records.len() as int)
}

/// The children that `lists` gives for `pid`: none where `pid` has no entry.
pub open spec fn children_of(lists: Map<i32, Seq<i32>>, pid: i32) -> Seq<i32> {
    if lists.contains_key(pid) {
        lists[pid]
    } else {
        Seq::empty()
    }
}

/// Whether every descent from `pid`, going from a pid to the pid of the
/// record of one of its children, finds a record for each child that it
/// comes to and takes no more than `depth` steps.
pub open spec fn descent_within(
    records: Map<i32, RecordView>,
    lists: Map<i32, Seq<i32>>,
    pid: i32,
    depth: nat,
) -> bool
    decreases depth,
{
    let kids = children_of(lists, pid);
    if depth == 0 {
        kids.len() == 0
    } else {
        forall|i: int|
            0 <= i < kids.len() ==> {
                &&& records.contains_key(#[trigger] kids[i])
                &&& descent_within(records, lists, records[kids[i]].pid, (depth - 1) as nat)
            }
    }
}

/// Whether every descent from `pid` comes to an end: the indexes hold a
/// record for each pid that can be reached from `pid`, and no cycle that can
/// be reached from it.
pub open spec fn descent_ends(
    records: Map<i32, RecordView>,
    lists: Map<i32, Seq<i32>>,
    pid: i32,
) -> bool {
    exists|depth: nat| descent_within(records, lists, pid, depth)
}

/// The length of the longest descent from `pid`, where every descent ends.
pub open spec fn descent_height(
    records: Map<i32, RecordView>,
    lists: Map<i32, Seq<i32>>,
    pid: i32,
) -> nat {
    choose|depth: nat|
        descent_within(records, lists, pid, depth) && forall|less: nat|
            less < depth ==> !descent_within(records, lists, pid, less)
}

/// Whether following parent ids from `pid` through the pid index arrives at
/// `root` after exactly `steps` records, none of which carries `root`'s pid.
pub open spec fn reaches(records: Seq<RecordView>, root: i32, pid: i32, steps: nat) -> bool
    decreases steps,
{
    if steps == 0 {
        pid == root
    } else {
        &&& pid != root
        &&& pid_index(records).contains_key(pid)
        &&& reaches(records, root, pid_index(records)[pid].ppid, (steps - 1) as nat)
    }
}

/// The pids of the first `steps` records on the way from `pid` up its parent ids.
spec fn ancestry(records: Seq<RecordView>, pid: i32, steps: nat) -> Set<i32>
    decreases steps,
{
    if steps == 0 {
        Set::empty()
    } else {
        ancestry(records, pid_index(records)[pid].ppid, (steps - 1) as nat).insert(pid)
    }
}

/// Where `pid` is seen last: no later record carries it, and if no record
/// carries it the position is -1.
pub proof fn lemma_last_position(records: Seq<RecordView>, pid: i32)
    ensures
        -1 <= last_position(records, pid) < records.len(),
        last_position(records, pid) >= 0 ==> records[last_position(records, pid)].pid == pid,
        forall|j: int|
            last_position(records, pid) < j < records.len() ==> (#[trigger] records[j]).pid != pid,
    decreases records.len(),
{
    if records.len() > 0 && records.last().pid != pid {
        let before = records.drop_last();
        lemma_last_position(before, pid);
        assert forall|j: int| last_position(records, pid) < j < records.len() implies (
        #[trigger] records[j]).pid != pid by {
            if j < before.len() {
                assert(records[j] == before[j]);
            }
        }
    }
}

/// A further record takes the place that its pid had in the pid index, or a
/// new one: the later record wins.
pub proof fn lemma_pid_index_push(records: Seq<RecordView>, next: RecordView)
    ensures
        pid_index(records.push(next)) == pid_index(records).insert(next.pid, next),
{
    let longer = records.push(next);
    assert(longer.drop_last() == records);
    assert forall|pid: i32| pid_index(longer).contains_key(pid) implies #[trigger] pid_index(
        longer,
    )[pid] == pid_index(records).insert(next.pid, next)[pid] by {
        lemma_last_position(records, pid);
    }
}

/// A further record that is listed goes to the end of the list of its parent;
/// one that is not listed leaves the child index as it is.
pub proof fn lemma_child_index_step(records: Seq<RecordView>, root: i32, n: int)
    requires
        0 <= n < records.len(),
    ensures
        child_index_among(records, root, n + 1) == if is_listed(records, root, n) {
            child_index_among(records, root, n).insert(
                records[n].ppid,
                children_of(child_index_among(records, root, n), records[n].ppid).push(
                    records[n].pid,
                ),
            )
        } else {
            child_index_among(records, root, n)
        },
{
    let before = child_index_among(records, root, n);
    let after = child_index_among(records, root, n + 1);
    assert forall|parent: i32|
        #![trigger child_pids_among(records, root, parent, n + 1)]
        child_pids_among(records, root, parent, n + 1) == if is_listed(records, root, n)
            && records[n].ppid == parent {
            child_pids_among(records, root, parent, n).push(records[n].pid)
        } else {
            child_pids_among(records, root, parent, n)
        } by {
        assert(child_positions(records, root, parent, n + 1 - 1) == child_positions(
            records,
            root,
            parent,
            n,
        ));
    }
    if is_listed(records, root, n) {
        let parent = records[n].ppid;
        assert(children_of(before, parent) =~= child_pids_among(records, root, parent, n));
        assert(after =~= before.insert(
            parent,
            children_of(before, parent).push(records[n].pid),
        ));
    } else {
        assert(after =~= before);
    }
}

/// What the positions of the children of `parent` are: exactly the listed
/// positions below `n` whose record names `parent`, each once, ascending.
pub proof fn lemma_child_positions(records: Seq<RecordView>, root: i32, parent: i32, n: int)
    requires
        n <= records.len(),
    ensures
        forall|k: int|
            #![trigger child_positions(records, root, parent, n)[k]]
            0 <= k < child_positions(records, root, parent, n).len() ==> {
                let i = child_positions(records, root, parent, n)[k];
                &&& 0 <= i < n
                &&& is_listed(records, root, i)
                &&& records[i].ppid == parent
            },
        forall|k: int, l: int|
            #![trigger child_positions(records, root, parent, n)[k], child_positions(records, root, parent, n)[l]]
            0 <= k < l < child_positions(records, root, parent, n).len() ==> child_positions(
                records,
                root,
                parent,
                n,
            )[k] < child_positions(records, root, parent, n)[l],
        forall|i: int|
            0 <= i < n && #[trigger] is_listed(records, root, i) && records[i].ppid == parent
                ==> child_positions(records, root, parent, n).contains(i),
    decreases n,
{
    if n > 0 {
        lemma_child_positions(records, root, parent, n - 1);
        let before = child_positions(records, root, parent, n - 1);
        let all = child_positions(records, root, parent, n);
        assert forall|i: int|
            0 <= i < n && #[trigger] is_listed(records, root, i) && records[i].ppid
                == parent implies all.contains(i) by {
            if i < n - 1 {
                let k = choose|k: int| 0 <= k < before.len() && before[k] == i;
                assert(all[k] == i);
            } else {
                assert(all[all.len() - 1] == i);
            }
        }
    }
}

/// Among bounds on the descents from `pid` there is a least one.
proof fn lemma_least_depth(
    records: Map<i32, RecordView>,
    lists: Map<i32, Seq<i32>>,
    pid: i32,
    bound: nat,
)
    requires
        descent_within(records, lists, pid, bound),
    ensures
        exists|least: nat|
            descent_within(records, lists, pid, least) && forall|less: nat|
                less < least ==> !descent_within(records, lists, pid, less),
    decreases bound,
{
    if exists|less: nat| less < bound && descent_within(records, lists, pid, less) {
        let less = choose|less: nat| less < bound && descent_within(records, lists, pid, less);
        lemma_least_depth(records, lists, pid, less);
    }
}

/// `descent_height` is the least bound on the descents from `pid`.
pub proof fn lemma_descent_height(
    records: Map<i32, RecordView>,
    lists: Map<i32, Seq<i32>>,
    pid: i32,
)
    requires
        descent_ends(records, lists, pid),
    ensures
        descent_within(records, lists, pid, descent_height(records, lists, pid)),
        forall|less: nat|
            less < descent_height(records, lists, pid) ==> !descent_within(
                records,
                lists,
                pid,
                less,
            ),
{
    let bound = choose|depth: nat| descent_within(records, lists, pid, depth);
    lemma_least_depth(records, lists, pid, bound);
}

/// Below a pid whose descents end, those of each child end too, and sooner.
pub proof fn lemma_child_descent(
    records: Map<i32, RecordView>,
    lists: Map<i32, Seq<i32>>,
    pid: i32,
    i: int,
)
    requires
        descent_ends(records, lists, pid),
        0 <= i < children_of(lists, pid).len(),
    ensures
        records.contains_key(children_of(lists, pid)[i]),
        descent_ends(records, lists, records[children_of(lists, pid)[i]].pid),
        descent_height(records, lists, records[children_of(lists, pid)[i]].pid) < descent_height(
            records,
            lists,
            pid,
        ),
{
    lemma_descent_height(records, lists, pid);
    let height = descent_height(records, lists, pid);
    let child = records[children_of(lists, pid)[i]].pid;
    assert(descent_within(records, lists, child, (height - 1) as nat));
    lemma_descent_height(records, lists, child);
}

/// What the child index holds for `parent`: the pids, each once, of the
/// records that are kept in the pid index, name `parent` as their parent and
/// do not carry `root`'s pid.
pub proof fn lemma_children(records: Seq<RecordView>, root: i32, parent: i32)
    ensures
        children_of(child_index(records, root), parent) == child_pids(records, root, parent),
        forall|k: int|
            #![trigger child_pids(records, root, parent)[k]]
            0 <= k < child_pids(records, root, parent).len() ==> {
                let child = child_pids(records, root, parent)[k];
                &&& child != root
                &&& pid_index(records).contains_key(child)
                &&& pid_index(records)[child].pid == child
                &&& pid_index(records)[child].ppid == parent
            },
        forall|k: int, l: int|
            #![trigger child_pids(records, root, parent)[k], child_pids(records, root, parent)[l]]
            0 <= k < l < child_pids(records, root, parent).len() ==> child_pids(
                records,
                root,
                parent,
            )[k] != child_pids(records, root, parent)[l],
        forall|child: i32|
            child != root && pid_index(records).contains_key(child) && (
            #[trigger] pid_index(records)[child]).ppid == parent ==> child_pids(
                records,
                root,
                parent,
            ).contains(child),
{
    let n = records.len() as int;
    let positions = child_positions(records, root, parent, n);
    let kids = child_pids(records, root, parent);
    lemma_child_positions(records, root, parent, n);
    assert forall|child: i32|
        child != root && pid_index(records).contains_key(child) && (#[trigger] pid_index(
            records,
        )[child]).ppid == parent implies kids.contains(child) by {
        let i = last_position(records, child);
        lemma_last_position(records, child);
        assert(is_listed(records, root, i));
        let k = choose|k: int| 0 <= k < positions.len() && positions[k] == i;
        assert(kids[k] == child);
    }
}

/// From one pid the way up to `root` has one length only.
pub proof fn lemma_reaches_once(records: Seq<RecordView>, root: i32, pid: i32, a: nat, b: nat)
    requires
        reaches(records, root, pid, a),
        reaches(records, root, pid, b),
    ensures
        a == b,
    decreases a,
{
    if a > 0 {
        lemma_reaches_once(
            records,
            root,
            pid_index(records)[pid].ppid,
            (a - 1) as nat,
            (b - 1) as nat,
        );
    }
}

/// The way up from `pid` to `root` passes `steps` different pids, all of them
/// in the pid index.
proof fn lemma_ancestry(records: Seq<RecordView>, root: i32, pid: i32, steps: nat)
    requires
        reaches(records, root, pid, steps),
    ensures
        ancestry(records, pid, steps).finite(),
        ancestry(records, pid, steps).len() == steps,
        ancestry(records, pid, steps).subset_of(pid_index(records).dom()),
        forall|other: i32|
            ancestry(records, pid, steps).contains(other) ==> exists|m: nat|
                1 <= m <= steps && reaches(records, root, other, m),
    decreases steps,
{
    if steps > 0 {
        let parent = pid_index(records)[pid].ppid;
        let above = ancestry(records, parent, (steps - 1) as nat);
        lemma_ancestry(records, root, parent, (steps - 1) as nat);
        if above.contains(pid) {
            let m = choose|m: nat| 1 <= m <= steps - 1 && reaches(records, root, pid, m);
            lemma_reaches_once(records, root, pid, m, steps);
        }
        assert forall|other: i32| above.insert(pid).contains(other) implies exists|m: nat|
            1 <= m <= steps && reaches(records, root, other, m) by {
            if other == pid {
                assert(reaches(records, root, other, steps));
            } else {
                let m = choose|m: nat| 1 <= m <= steps - 1 && reaches(records, root, other, m);
                assert(reaches(records, root, other, m));
            }
        }
    }
}

/// No way up to `root` is longer than the list of records.
pub proof fn lemma_reaches_bound(records: Seq<RecordView>, root: i32, pid: i32, steps: nat)
    requires
        reaches(records, root, pid, steps),
    ensures
        steps <= records.len(),
{
    let pids = records.map_values(|r: RecordView| r.pid);
    lemma_ancestry(records, root, pid, steps);
    assert forall|other: i32| pid_index(records).dom().contains(other) implies pids.to_set().contains(
        other,
    ) by {
        lemma_last_position(records, other);
        assert(pids[last_position(records, other)] == other);
    }
    vstd::seq_lib::seq_to_set_is_finite(pids);
    pids.lemma_cardinality_of_set();
    vstd::set_lib::lemma_len_subset(ancestry(records, pid, steps), pids.to_set());
}

/// Below a pid that is `steps` records away from `root`, no descent through
/// the indexes of `records` is longer than the records that are left.
pub proof fn lemma_descent_bound(records: Seq<RecordView>, root: i32, pid: i32, steps: nat)
    requires
        reaches(records, root, pid, steps),
    ensures
        steps <= records.len(),
        descent_within(
            pid_index(records),
            child_index(records, root),
            pid,
            (records.len() - steps) as nat,
        ),
    decreases records.len() - steps,
{
    lemma_reaches_bound(records, root, pid, steps);
    lemma_children(records, root, pid);
    let kids = children_of(child_index(records, root), pid);
    assert(forall|i: int|
        0 <= i < kids.len() ==> reaches(
            records,
            root,
            pid_index(records)[#[trigger] kids[i]].pid,
            steps + 1,
        ));
    if steps == records.len() {
        if kids.len() > 0 {
            lemma_reaches_bound(records, root, pid_index(records)[kids[0]].pid, steps + 1);
        }
    } else {
        assert forall|i: int| 0 <= i < kids.len() implies descent_within(
            pid_index(records),
            child_index(records, root),
            pid_index(records)[#[trigger] kids[i]].pid,
            (records.len() - steps - 1) as nat,
        ) by {
            lemma_descent_bound(records, root, pid_index(records)[kids[i]].pid, steps + 1);
        }
    }
}

} // verus!
