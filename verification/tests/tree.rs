use bytehound::event::{AllocBody, DataId, Event, HeaderBody};
use bytehound::loaded::Data;
use bytehound::loader::Loader;
use bytehound::tree::{source_key_of, Tree, NO_PARENT};
use bytehound::tree_printer::dump_tree;
use bytehound::{AllocationId, CodePointer, Frame, SourceKey, StringId, Timestamp};

fn at(usecs: u64) -> Timestamp {
    Timestamp::from_usecs(usecs)
}

fn allocation(data: &Data, index: usize) -> bytehound::Allocation {
    data.allocations[index].clone()
}

fn header() -> HeaderBody {
    HeaderBody {
        id: DataId::new(1, 2),
        initial_timestamp: Timestamp::from_usecs(0),
        timestamp: Timestamp::from_usecs(0),
        wall_clock_secs: 0,
        wall_clock_nsecs: 0,
        pid: 1,
        cmdline: b"./tree".to_vec(),
        executable: b"/tmp/tree".to_vec(),
        arch: "x86_64".to_string(),
        flags: 0,
        pointer_size: 8,
    }
}

fn body(pointer: u64, size: u64, backtrace: u64) -> AllocBody {
    AllocBody { pointer, size, backtrace, thread: 1, flags: 0, extra_usable_space: 0, preceding_free_space: 0 }
}

fn data() -> Data {
    let events = vec![
        // Innermost frame first; the two backtraces share their two outer frames.
        Event::Backtrace { id: 1, addresses: vec![0x11, 0x21, 0x31] },
        Event::Backtrace { id: 2, addresses: vec![0x41, 0x21, 0x31] },
        Event::Alloc { timestamp: at(10), allocation: body(0x1000, 10, 1) },
        Event::Alloc { timestamp: at(20), allocation: body(0x2000, 20, 2) },
        Event::Alloc { timestamp: at(30), allocation: body(0x3000, 40, 1) },
        Event::Free { timestamp: at(40), pointer: 0x3000, backtrace: 1, thread: 1 },
        Event::Alloc { timestamp: at(50), allocation: body(0x4000, 5, 1) },
    ];
    let mut loader = Loader::new(header());
    for event in events {
        assert!(loader.can_process(&event));
        loader.process(event);
    }
    assert!(loader.can_finalize());
    loader.finalize()
}

#[test]
fn the_raw_tree_counts_live_allocations_under_their_frames() {
    let data = data();
    let tree = data.raw_tree();
    assert_eq!(tree.nodes.len(), 5);
    assert_eq!(tree.currently_allocated(), 35);
    assert_eq!(tree.currently_allocated_count(), 3);

    let root = tree.get_node(0);
    assert!(root.is_root());
    assert!(root.value().is_none());
    assert_eq!(root.total_first_timestamp, at(10));
    assert_eq!(root.total_last_timestamp, at(50));
    assert_eq!(root.children, vec![(CodePointer(0x30), 1)]);

    let outer = tree.get_node(1);
    assert_eq!((outer.total_size, outer.total_count, outer.self_size), (35, 3, 0));
    assert_eq!(data.frames[*outer.value().unwrap()].address, CodePointer(0x30));
    let middle = tree.get_node(2);
    assert_eq!(middle.parent, 1);
    assert_eq!(middle.children, vec![(CodePointer(0x10), 3), (CodePointer(0x40), 4)]);

    let first = tree.get_node(3);
    assert_eq!((first.total_size, first.total_count), (15, 2));
    assert_eq!((first.self_size, first.self_count), (15, 2));
    assert_eq!(first.self_allocations, vec![AllocationId::new(0), AllocationId::new(3)]);
    assert_eq!(first.total_first_timestamp, at(10));
    assert_eq!(first.total_last_timestamp, at(50));

    let second = tree.get_node(4);
    assert_eq!((second.total_size, second.self_size), (20, 20));
    assert_eq!(second.self_allocations, vec![AllocationId::new(1)]);
    assert_eq!(data.frames[*second.value().unwrap()].address, CodePointer(0x40));
    assert_eq!(tree.allocations.get(&0x4000), Some(&(3, 1)));

    // A node's totals are those of its own allocations and of its children.
    for id in 0..tree.nodes.len() as u64 {
        let node = tree.get_node(id);
        let children: u64 = node.children.iter().map(|&(_, child)| tree.get_node(child).total_size).sum();
        assert_eq!(node.total_size, node.self_size + children);
    }
}

#[test]
fn a_tree_adds_only_the_missing_nodes() {
    let data = data();
    let mut tree: Tree<usize, usize> = Tree::new();
    assert_eq!(tree.get_node(0).parent, NO_PARENT);
    assert_eq!(tree.currently_allocated(), 0);

    tree.add_allocation(&allocation(&data, 0), AllocationId::new(0), &vec![(7, 70), (8, 80)]);
    assert_eq!(tree.nodes.len(), 3);
    tree.add_allocation(&allocation(&data, 1), AllocationId::new(1), &vec![(7, 71)]);
    assert_eq!(tree.nodes.len(), 3);
    // The value of a node is that of the backtrace that added it.
    assert_eq!(tree.get_node(1).value(), Some(&70));
    assert_eq!((tree.get_node(1).total_size, tree.get_node(1).self_size), (30, 20));
    assert_eq!(tree.get_node(2).total_size, 10);

    tree.add_allocation(&allocation(&data, 2), AllocationId::new(2), &vec![]);
    assert_eq!(tree.nodes.len(), 3);
    assert_eq!(tree.currently_allocated(), 70);
    assert_eq!(tree.currently_allocated_count(), 3);
    assert_eq!(tree.get_node(0).self_size, 40);
    assert_eq!(tree.get_node(0).self_allocations, vec![AllocationId::new(2)]);
    assert_eq!(tree.get_node(0).total_first_timestamp, at(10));
    assert_eq!(tree.get_node(0).total_last_timestamp, at(30));
    // Each node's totals are its own allocations' and its children's.
    for node in tree.nodes.iter() {
        let size: u64 = node.children.iter().map(|&(_, child)| tree.nodes[child as usize].total_size).sum();
        let count: u64 = node.children.iter().map(|&(_, child)| tree.nodes[child as usize].total_count).sum();
        assert_eq!(node.total_size, node.self_size + size);
        assert_eq!(node.total_count, node.self_count + count);
    }
}

#[test]
fn the_tree_by_source_counts_the_picked_allocations() {
    let data = data();
    // Nothing but the addresses of these frames is known.
    let tree = data.tree_by_source(|_, allocation| allocation.size >= 20);
    assert_eq!(tree.currently_allocated(), 60);
    assert_eq!(tree.currently_allocated_count(), 2);
    assert_eq!(tree.nodes.len(), 5);
    assert_eq!(tree.get_node(0).children, vec![(SourceKey::Address(CodePointer(0x30)), 1)]);
    assert_eq!(
        tree.get_node(2).children,
        vec![(SourceKey::Address(CodePointer(0x40)), 3), (SourceKey::Address(CodePointer(0x10)), 4)]
    );
    assert_eq!(tree.get_node(3).self_allocations, vec![AllocationId::new(1)]);
    assert_eq!(tree.get_node(4).self_allocations, vec![AllocationId::new(2)]);
    assert_eq!((tree.get_node(4).total_size, tree.get_node(4).total_first_timestamp), (40, at(30)));

    let same = data.source_tree(&vec![false, true, true, false]);
    assert_eq!(same.nodes.len(), 5);
    assert_eq!(same.currently_allocated(), 60);
}

#[test]
fn frames_are_keyed_by_what_is_known_of_their_place() {
    let mut frame = Frame::new_unknown(CodePointer(0x77));
    assert_eq!(source_key_of(&frame), SourceKey::Address(CodePointer(0x77)));
    frame.raw_function = Some(StringId(3));
    assert_eq!(source_key_of(&frame), SourceKey::Function(StringId(3)));
    frame.function = Some(StringId(4));
    assert_eq!(source_key_of(&frame), SourceKey::Function(StringId(4)));
    frame.source = Some(StringId(5));
    assert_eq!(source_key_of(&frame), SourceKey::Function(StringId(4)));
    frame.line = Some(12);
    assert_eq!(source_key_of(&frame), SourceKey::Location(StringId(5), 12));
}

#[test]
fn a_tree_prints_as_a_table_of_its_counted_nodes() {
    let data = data();
    let tree = data.raw_tree();
    let rows = dump_tree(&tree, Timestamp::from_usecs(0), |&frame| format!("{:#x}", data.frames[frame].address.0));
    let expected: Vec<Vec<&str>> = vec![
        vec!["SIZE", "COUNT", "FIRST", "LAST", "SOURCE"],
        vec!["     35", "3", "00s", "00s", "\u{2592}"],
        vec!["     35", "3", "00s", "00s", "\u{2514}0x30"],
        vec!["     35", "3", "00s", "00s", " \u{2514}0x20"],
        vec!["     15", "2", "00s", "00s", "  \u{251c}0x10"],
        vec!["     20", "1", "00s", "00s", "  \u{2514}0x40"],
    ];
    let expected: Vec<Vec<String>> =
        expected.iter().map(|row| row.iter().map(|cell| cell.to_string()).collect()).collect();
    assert_eq!(rows, expected);
}

#[test]
fn nodes_that_count_nothing_are_not_printed() {
    let tree: Tree<usize, usize> = Tree::new();
    let rows = dump_tree(&tree, Timestamp::from_usecs(0), |value| value.to_string());
    assert_eq!(rows.len(), 1);
    assert_eq!(rows[0][0], "SIZE");
}
