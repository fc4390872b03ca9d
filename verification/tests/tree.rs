use std::collections::HashMap;

use pstree::record::ProcessRecord;
use pstree::tree::build_process_tree;
use pstree::tree::populate_node;
use pstree::tree::populate_node_helper;
use pstree::tree::ProcessTree;
use pstree::tree::ProcessTreeNode;
use pstree::tree::ROOT_PID;

fn record(name: &str, pid: i32, ppid: i32) -> ProcessRecord {
    ProcessRecord { name: name.to_string(), pid, ppid }
}

/// The tree as nested text: `name#pid(child child ..)`.
fn shape(node: &ProcessTreeNode) -> String {
    let mut text = format!("{}#{}", node.record.name, node.record.pid);
    if !node.children.is_empty() {
        let below: Vec<String> = node.children.iter().map(shape).collect();
        text = format!("{}({})", text, below.join(" "));
    }
    text
}

fn shape_of(records: &Vec<ProcessRecord>) -> String {
    shape(&build_process_tree(records).root)
}

#[test]
fn new_node_holds_a_copy_of_the_record_and_no_children() {
    let cat = record("cat", 51, 50);
    let node = ProcessTreeNode::new(&cat);
    assert_eq!(node.record.name, "cat");
    assert_eq!(node.record.pid, 51);
    assert_eq!(node.record.ppid, 50);
    assert!(node.children.is_empty());
    assert_eq!(cat.name, "cat");
}

#[test]
fn root_is_above_init() {
    let tree = build_process_tree(&Vec::new());
    assert_eq!(tree.root.record.name, "/");
    assert_eq!(tree.root.record.pid, 0);
    assert_eq!(tree.root.record.ppid, -1);
    assert!(tree.root.children.is_empty());
    assert_eq!(ROOT_PID, 0);
}

#[test]
fn builds_a_chain_of_three() {
    let records = vec![record("init", 1, 0), record("sh", 50, 1), record("cat", 51, 50)];
    assert_eq!(shape_of(&records), "/#0(init#1(sh#50(cat#51)))");
}

#[test]
fn builds_the_same_tree_from_any_order_of_a_chain() {
    let records = vec![record("cat", 51, 50), record("init", 1, 0), record("sh", 50, 1)];
    assert_eq!(shape_of(&records), "/#0(init#1(sh#50(cat#51)))");
}

#[test]
fn children_stand_in_the_order_of_the_records() {
    let records = vec![
        record("init", 1, 0),
        record("c", 30, 1),
        record("a", 10, 1),
        record("b", 20, 1),
        record("kthreadd", 2, 0),
        record("a1", 11, 10),
        record("c1", 31, 30),
        record("a2", 12, 10),
    ];
    assert_eq!(
        shape_of(&records),
        "/#0(init#1(c#30(c1#31) a#10(a1#11 a2#12) b#20) kthreadd#2)"
    );
}

#[test]
fn an_orphan_adds_nothing() {
    let records = vec![record("orphan", 99, 12345)];
    assert_eq!(shape_of(&records), "/#0");
    let records = vec![record("init", 1, 0), record("orphan", 99, 12345), record("sh", 50, 1)];
    assert_eq!(shape_of(&records), "/#0(init#1(sh#50))");
}

#[test]
fn what_hangs_below_an_orphan_is_left_out_too() {
    let records = vec![
        record("init", 1, 0),
        record("orphan", 99, 12345),
        record("child", 100, 99),
        record("grandchild", 101, 100),
    ];
    assert_eq!(shape_of(&records), "/#0(init#1)");
}

#[test]
fn of_two_records_with_one_pid_the_later_one_stands_in_the_tree() {
    let records = vec![record("init", 1, 0), record("old", 5, 1), record("new", 5, 1)];
    assert_eq!(shape_of(&records), "/#0(init#1(new#5))");
}

#[test]
fn a_pid_seen_twice_stands_below_its_later_parent_only() {
    let records = vec![
        record("init", 1, 0),
        record("other", 2, 0),
        record("old", 5, 1),
        record("new", 5, 2),
    ];
    assert_eq!(shape_of(&records), "/#0(init#1 other#2(new#5))");
}

#[test]
fn a_pid_seen_twice_takes_the_place_of_its_later_record() {
    let records = vec![
        record("init", 1, 0),
        record("old", 5, 1),
        record("six", 6, 1),
        record("new", 5, 1),
        record("below", 7, 5),
    ];
    assert_eq!(shape_of(&records), "/#0(init#1(six#6 new#5(below#7)))");
}

#[test]
fn a_pid_whose_later_record_is_an_orphan_is_left_out() {
    let records = vec![record("init", 1, 0), record("old", 5, 1), record("new", 5, 777)];
    assert_eq!(shape_of(&records), "/#0(init#1)");
}

#[test]
fn a_record_with_the_pid_of_the_root_is_left_out() {
    let records = vec![record("zero", 0, 0), record("init", 1, 0)];
    assert_eq!(shape_of(&records), "/#0(init#1)");
    let records = vec![record("init", 1, 0), record("zero", 0, 1), record("sh", 50, 1)];
    assert_eq!(shape_of(&records), "/#0(init#1(sh#50))");
}

#[test]
fn a_ring_of_parents_is_never_reached() {
    let records = vec![
        record("init", 1, 0),
        record("a", 5, 6),
        record("b", 6, 5),
        record("self", 9, 9),
    ];
    assert_eq!(shape_of(&records), "/#0(init#1)");
}

#[test]
fn a_record_that_names_the_parent_of_the_root_is_left_out() {
    let records = vec![record("beside", 3, -1), record("init", 1, 0)];
    assert_eq!(shape_of(&records), "/#0(init#1)");
}

#[test]
fn builds_a_deep_chain() {
    let depth = 2000;
    let mut records = Vec::new();
    for pid in 1..=depth {
        records.push(record("p", pid, pid - 1));
    }
    let tree = build_process_tree(&records);
    let mut node = &tree.root;
    let mut levels = 0;
    while !node.children.is_empty() {
        assert_eq!(node.children.len(), 1);
        node = &node.children[0];
        levels += 1;
        assert_eq!(node.record.pid, levels);
    }
    assert_eq!(levels, depth);
}

#[test]
fn builds_a_wide_tree() {
    let mut records = vec![record("init", 1, 0)];
    for pid in 2..5000 {
        records.push(record("w", pid, 1));
    }
    let tree = build_process_tree(&records);
    assert_eq!(tree.root.children.len(), 1);
    let init = &tree.root.children[0];
    assert_eq!(init.children.len(), 4998);
    for (i, child) in init.children.iter().enumerate() {
        assert_eq!(child.record.pid, i as i32 + 2);
        assert!(child.children.is_empty());
    }
}

#[test]
fn populate_node_fills_any_node() {
    let records = vec![
        record("init", 1, 0),
        record("sh", 50, 1),
        record("cat", 51, 50),
        record("ls", 52, 50),
    ];
    let mut node = ProcessTreeNode::new(&record("sh", 50, 1));
    populate_node(&mut node, &records);
    assert_eq!(shape(&node), "sh#50(cat#51 ls#52)");
}

#[test]
fn populate_node_leaves_out_records_with_the_pid_of_the_node() {
    let records = vec![record("sh", 50, 51), record("cat", 51, 50), record("ls", 52, 51)];
    let mut node = ProcessTreeNode::new(&record("top", 50, 1));
    populate_node(&mut node, &records);
    assert_eq!(shape(&node), "top#50(cat#51(ls#52))");
}

#[test]
fn populate_node_appends_to_the_children_that_are_there() {
    let records = vec![record("cat", 51, 50)];
    let mut node = ProcessTreeNode::new(&record("sh", 50, 1));
    node.children.push(ProcessTreeNode::new(&record("kept", 7, 50)));
    populate_node(&mut node, &records);
    assert_eq!(shape(&node), "sh#50(kept#7 cat#51)");
}

#[test]
fn populate_node_without_records_changes_nothing() {
    let mut node = ProcessTreeNode::new(&record("sh", 50, 1));
    populate_node(&mut node, &Vec::new());
    assert_eq!(shape(&node), "sh#50");
}

#[test]
fn populate_node_helper_unfolds_the_two_indexes() {
    let init = record("init", 1, 0);
    let sh = record("sh", 50, 1);
    let cat = record("cat", 51, 50);
    let mut pid_map: HashMap<i32, &ProcessRecord> = HashMap::new();
    pid_map.insert(1, &init);
    pid_map.insert(50, &sh);
    pid_map.insert(51, &cat);
    let mut ppid_map: HashMap<i32, Vec<i32>> = HashMap::new();
    ppid_map.insert(0, vec![1]);
    ppid_map.insert(1, vec![50]);
    ppid_map.insert(50, vec![51]);
    let mut root = ProcessTreeNode::new(&record("/", 0, -1));
    populate_node_helper(&mut root, &pid_map, &ppid_map);
    assert_eq!(shape(&root), "/#0(init#1(sh#50(cat#51)))");
}

#[test]
fn populate_node_helper_goes_by_the_pid_of_the_record_it_finds() {
    let init = record("init", 1, 0);
    let sh = record("sh", 50, 1);
    let mut pid_map: HashMap<i32, &ProcessRecord> = HashMap::new();
    pid_map.insert(7, &init);
    pid_map.insert(50, &sh);
    let mut ppid_map: HashMap<i32, Vec<i32>> = HashMap::new();
    ppid_map.insert(0, vec![7, 7]);
    ppid_map.insert(1, vec![50]);
    ppid_map.insert(7, vec![50, 50, 50]);
    let mut root = ProcessTreeNode::new(&record("/", 0, -1));
    populate_node_helper(&mut root, &pid_map, &ppid_map);
    assert_eq!(shape(&root), "/#0(init#1(sh#50) init#1(sh#50))");
}

#[test]
fn populate_node_helper_without_an_entry_adds_nothing() {
    let pid_map: HashMap<i32, &ProcessRecord> = HashMap::new();
    let ppid_map: HashMap<i32, Vec<i32>> = HashMap::new();
    let mut node = ProcessTreeNode::new(&record("sh", 50, 1));
    populate_node_helper(&mut node, &pid_map, &ppid_map);
    assert_eq!(shape(&node), "sh#50");
}

#[test]
fn a_copy_of_a_tree_is_the_same_tree() {
    let records = vec![record("init", 1, 0), record("sh", 50, 1), record("cat", 51, 1)];
    let tree = build_process_tree(&records);
    let copy: ProcessTree = tree.clone();
    assert_eq!(shape(&copy.root), shape(&tree.root));
    assert_eq!(shape(&copy.root), "/#0(init#1(sh#50 cat#51))");
    let node = tree.root.children[0].clone();
    assert_eq!(shape(&node), "init#1(sh#50 cat#51)");
    let one = tree.root.children[0].record.clone();
    assert_eq!((one.name.as_str(), one.pid, one.ppid), ("init", 1, 0));
}

/// A list of records made up from `seed`, with pids that come again, parent
/// ids that lead nowhere and rings of parents.
fn made_up_records(seed: u64, count: usize) -> Vec<ProcessRecord> {
    let mut state = seed;
    let mut next = move |bound: u64| {
        state = state.wrapping_mul(6364136223846793005).wrapping_add(1442695040888963407);
        (state >> 33) % bound
    };
    let mut records = Vec::new();
    for i in 0..count {
        let pid = next(40) as i32;
        let ppid = next(45) as i32 - 2;
        records.push(record(&format!("p{}", i), pid, ppid));
    }
    records
}

/// The pid, the name and the depth of every node below `node`.
fn nodes_below(node: &ProcessTreeNode, depth: usize, found: &mut Vec<(i32, String, usize)>) {
    for child in node.children.iter() {
        found.push((child.record.pid, child.record.name.clone(), depth + 1));
        nodes_below(child, depth + 1, found);
    }
}

/// The pid, the name and the length of the way up to pid 0 of every record
/// that is the last with its pid and whose parent ids lead to pid 0.
fn connected(records: &Vec<ProcessRecord>) -> Vec<(i32, String, usize)> {
    let mut last: HashMap<i32, &ProcessRecord> = HashMap::new();
    for record in records.iter() {
        last.insert(record.pid, record);
    }
    let mut found = Vec::new();
    for (pid, record) in last.iter() {
        let mut at = *pid;
        let mut steps = 0;
        while at != 0 && steps <= records.len() {
            match last.get(&at) {
                Some(above) => {
                    at = above.ppid;
                    steps += 1;
                }
                None => break,
            }
        }
        if at == 0 && *pid != 0 {
            found.push((*pid, record.name.clone(), steps));
        }
    }
    found
}

#[test]
fn every_connected_record_stands_once_at_the_depth_of_its_way_up() {
    for seed in 0..200 {
        let records = made_up_records(seed, 60);
        let tree = build_process_tree(&records);
        let mut found = Vec::new();
        nodes_below(&tree.root, 0, &mut found);
        let mut expected = connected(&records);
        found.sort();
        expected.sort();
        assert_eq!(found, expected, "seed {}", seed);
    }
}

#[test]
fn no_pid_stands_twice() {
    for seed in 200..300 {
        let records = made_up_records(seed, 80);
        let tree = build_process_tree(&records);
        let mut found = Vec::new();
        nodes_below(&tree.root, 0, &mut found);
        let mut pids: Vec<i32> = found.iter().map(|node| node.0).collect();
        pids.sort();
        let count = pids.len();
        pids.dedup();
        assert_eq!(pids.len(), count, "seed {}", seed);
        assert!(!pids.contains(&0));
    }
}

#[test]
fn every_node_names_the_node_above_it_as_its_parent() {
    fn holds(node: &ProcessTreeNode) -> bool {
        node.children.iter().all(|child| child.record.ppid == node.record.pid && holds(child))
    }
    for seed in 300..400 {
        let records = made_up_records(seed, 50);
        assert!(holds(&build_process_tree(&records).root), "seed {}", seed);
    }
}

#[test]
fn the_tree_is_no_higher_than_there_are_records() {
    fn levels(node: &ProcessTreeNode) -> usize {
        node.children.iter().map(|child| 1 + levels(child)).max().unwrap_or(0)
    }
    for seed in 400..450 {
        let records = made_up_records(seed, 30);
        assert!(levels(&build_process_tree(&records).root) <= records.len());
    }
    let chain = vec![record("a", 1, 0), record("b", 2, 1), record("c", 3, 2)];
    assert_eq!(levels(&build_process_tree(&chain).root), 3);
}

#[test]
fn populate_node_helper_never_looks_at_what_it_cannot_reach() {
    let init = record("init", 1, 0);
    let mut pid_map: HashMap<i32, &ProcessRecord> = HashMap::new();
    pid_map.insert(1, &init);
    let mut ppid_map: HashMap<i32, Vec<i32>> = HashMap::new();
    ppid_map.insert(0, vec![1]);
    ppid_map.insert(99, vec![12345]);
    ppid_map.insert(5, vec![5]);
    let mut root = ProcessTreeNode::new(&record("/", 0, -1));
    populate_node_helper(&mut root, &pid_map, &ppid_map);
    assert_eq!(shape(&root), "/#0(init#1)");
}
