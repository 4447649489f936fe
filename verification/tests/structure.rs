use append_tree::offset_tree::{
    load, split_threshold, DecodingError, EncodingError, Node, NodeRef, OffsetTree,
};
use append_tree::storage_backend::{DiskNode, NodeType};
use append_tree::StorageBackend;
use rand::{Rng, SeedableRng, XorShiftRng};
use std::cell::Cell;
use std::collections::HashMap;

/// A store of hand-made records that counts the reads it serves.
struct CountingStore {
    map: HashMap<u64, DiskNode<usize>>,
    next: u64,
    reads: Cell<usize>,
}

impl CountingStore {
    fn new() -> CountingStore {
        CountingStore { map: HashMap::new(), next: 0, reads: Cell::new(0) }
    }

    fn put(&mut self, key: u64, node_type: NodeType, keys: Vec<usize>, children: Vec<u64>) {
        self.map.insert(key, DiskNode { node_type, keys, children });
    }
}

fn record_copy(node: &DiskNode<usize>) -> DiskNode<usize> {
    DiskNode { node_type: node.node_type, keys: node.keys.clone(), children: node.children.clone() }
}

impl StorageBackend<usize> for CountingStore {
    fn load(&self, key: u64) -> Result<DiskNode<usize>, DecodingError> {
        self.reads.set(self.reads.get() + 1);
        match self.map.get(&key) {
            Some(node) => Ok(record_copy(node)),
            None => Err(DecodingError::Corrupt(format!("no record at {}", key))),
        }
    }

    fn store(&mut self, value: &DiskNode<usize>) -> Result<u64, EncodingError> {
        while self.map.contains_key(&self.next) {
            self.next += 1;
        }
        let key = self.next;
        self.map.insert(key, record_copy(value));
        Ok(key)
    }
}

/// Three leaves under a root, at offsets 10, 11, 12 and 20.
fn small_store() -> CountingStore {
    let mut store = CountingStore::new();
    store.put(10, NodeType::Leaf, vec![1, 2, 3], vec![101, 102, 103]);
    store.put(11, NodeType::Leaf, vec![5, 6, 7], vec![105, 106, 107]);
    store.put(12, NodeType::Leaf, vec![9, 10, 11], vec![109, 110, 111]);
    store.put(20, NodeType::Root, vec![3, 7], vec![10, 11, 12]);
    store
}

struct Seen {
    nodes: usize,
    leaf_depths: Vec<usize>,
    entries: usize,
    largest: usize,
}

/// Walks the nodes in memory and checks the shape of each.
fn walk(
    link: &NodeRef<usize>,
    depth: usize,
    lo: Option<usize>,
    hi: Option<usize>,
    seen: &mut Seen,
) {
    let node = match link {
        NodeRef::Loaded(node) => node,
        NodeRef::Unloaded(_) => return,
    };
    seen.nodes += 1;
    let keys = node.keys();
    let children = node.children();
    for pair in keys.windows(2) {
        assert!(pair[0] < pair[1]);
    }
    if depth > 0 {
        assert!(children.len() >= 2);
    }
    if children.len() > seen.largest {
        seen.largest = children.len();
    }
    match node.node_type() {
        NodeType::Leaf => {
            assert_eq!(children.len(), keys.len());
            for k in keys {
                assert!(lo.map_or(true, |l| l < *k));
                assert!(hi.map_or(true, |h| *k <= h));
            }
            for child in children {
                assert!(matches!(child, NodeRef::Unloaded(_)));
            }
            seen.leaf_depths.push(depth);
            seen.entries += keys.len();
        }
        kind => {
            assert_eq!(kind == NodeType::Root, depth == 0);
            assert_eq!(children.len(), keys.len() + 1);
            for k in keys {
                assert!(lo.map_or(true, |l| l < *k));
                assert!(hi.map_or(true, |h| *k < h));
            }
            for (i, child) in children.iter().enumerate() {
                let child_lo = if i == 0 { lo } else { Some(keys[i - 1]) };
                let child_hi = if i < keys.len() { Some(keys[i]) } else { hi };
                if let NodeRef::Loaded(inner) = child {
                    if !node.is_modified() {
                        assert!(!inner.is_modified());
                    }
                }
                walk(child, depth + 1, child_lo, child_hi, seen);
            }
        }
    }
}

fn survey(tree: &OffsetTree<usize>) -> Seen {
    let mut seen = Seen { nodes: 0, leaf_depths: Vec::new(), entries: 0, largest: 0 };
    walk(tree.root_reference(), 0, None, None, &mut seen);
    seen
}

#[test]
fn test_split_threshold_is_half_rounded_up() {
    assert_eq!(split_threshold(0), 0);
    assert_eq!(split_threshold(1), 1);
    assert_eq!(split_threshold(2), 1);
    assert_eq!(split_threshold(7), 4);
    assert_eq!(split_threshold(8), 4);
    assert_eq!(split_threshold(9), 5);
    assert_eq!(split_threshold(u64::MAX) as u128, (1u128 << 63).min(usize::MAX as u128));
}

#[test]
fn test_shape_holds_after_every_insertion() {
    for order in [7u64, 8, 9, 12] {
        let threshold = split_threshold(order);
        let mut rng = XorShiftRng::from_seed([3, 5, 7, 9]);
        let mut keys: Vec<usize> = (0..700).collect();
        rng.shuffle(&mut keys);
        let mut tree: OffsetTree<usize> = OffsetTree::empty(order);
        let store = CountingStore::new();
        for (done, k) in keys.iter().enumerate() {
            tree.insert(&store, k, *k as u64 + 1).unwrap();
            let seen = survey(&tree);
            assert_eq!(seen.entries, done + 1);
            assert!(seen.largest <= threshold);
            assert!(seen.largest <= threshold + 1);
            assert!(seen.leaf_depths.iter().all(|d| *d == seen.leaf_depths[0]));
        }
        assert_eq!(store.reads.get(), 0);
    }
}

#[test]
fn test_first_split_of_a_leaf_root() {
    let mut tree: OffsetTree<usize> = OffsetTree::empty(7);
    let store = CountingStore::new();
    for k in [10usize, 20, 30, 40] {
        tree.insert(&store, &k, k as u64).unwrap();
    }
    match tree.root_reference() {
        NodeRef::Loaded(root) => {
            assert_eq!(root.node_type(), NodeType::Leaf);
            assert_eq!(root.keys(), &vec![10, 20, 30, 40]);
            assert!(root.is_modified());
        }
        NodeRef::Unloaded(_) => panic!("the root of a new tree is in memory"),
    }
    tree.insert(&store, &25, 25).unwrap();
    match tree.root_reference() {
        NodeRef::Loaded(root) => {
            assert_eq!(root.node_type(), NodeType::Root);
            assert_eq!(root.keys(), &vec![20]);
            assert_eq!(root.children().len(), 2);
            assert!(root.is_modified());
            match (&root.children()[0], &root.children()[1]) {
                (NodeRef::Loaded(left), NodeRef::Loaded(right)) => {
                    assert_eq!(left.node_type(), NodeType::Leaf);
                    assert_eq!(right.node_type(), NodeType::Leaf);
                    assert_eq!(left.keys(), &vec![10, 20]);
                    assert_eq!(right.keys(), &vec![25, 30, 40]);
                    assert!(right.is_modified());
                    assert!(matches!(left.children()[1], NodeRef::Unloaded(20)));
                    assert!(matches!(right.children()[0], NodeRef::Unloaded(25)));
                }
                _ => panic!("both halves are in memory"),
            }
        }
        NodeRef::Unloaded(_) => panic!("the new root is in memory"),
    }
}

#[test]
fn test_split_of_an_inner_node() {
    let disk = DiskNode {
        node_type: NodeType::Root,
        keys: vec![10usize, 20, 30, 40],
        children: vec![1, 2, 3, 4, 5],
    };
    let mut node = Node::from(disk);
    assert!(!node.is_modified());
    let (sep, right) = node.split_in_place();
    assert_eq!(sep, 20);
    assert_eq!(node.node_type(), NodeType::Internal);
    assert_eq!(node.keys(), &vec![10]);
    assert_eq!(node.children().len(), 2);
    assert!(matches!(node.children()[1], NodeRef::Unloaded(2)));
    assert_eq!(right.node_type(), NodeType::Internal);
    assert_eq!(right.keys(), &vec![30, 40]);
    assert_eq!(right.children().len(), 3);
    assert!(matches!(right.children()[0], NodeRef::Unloaded(3)));
    assert!(right.is_modified());
    assert!(!node.is_modified());
}

#[test]
fn test_split_of_a_leaf_keeps_the_separator() {
    let disk = DiskNode {
        node_type: NodeType::Leaf,
        keys: vec![1usize, 2, 3, 4, 5],
        children: vec![11, 12, 13, 14, 15],
    };
    let mut node = Node::from(disk);
    let (sep, right) = node.split_in_place();
    assert_eq!(sep, 2);
    assert_eq!(node.node_type(), NodeType::Leaf);
    assert_eq!(node.keys(), &vec![1, 2]);
    assert_eq!(node.children().len(), 2);
    assert_eq!(right.node_type(), NodeType::Leaf);
    assert_eq!(right.keys(), &vec![3, 4, 5]);
    assert!(matches!(right.children()[2], NodeRef::Unloaded(15)));
}

#[test]
fn test_index_of_is_the_search_position() {
    let node = Node::from(DiskNode {
        node_type: NodeType::Internal,
        keys: vec![10usize, 20, 30],
        children: vec![1, 2, 3, 4],
    });
    assert_eq!(node.index_of(&5), 0);
    assert_eq!(node.index_of(&10), 0);
    assert_eq!(node.index_of(&11), 1);
    assert_eq!(node.index_of(&20), 1);
    assert_eq!(node.index_of(&30), 2);
    assert_eq!(node.index_of(&31), 3);
    let empty: Node<usize> =
        Node::from(DiskNode { node_type: NodeType::Leaf, keys: vec![], children: vec![] });
    assert_eq!(empty.index_of(&7), 0);
}

#[test]
fn test_stored_tree_is_read_on_demand() {
    let store = small_store();
    let mut tree: OffsetTree<usize> = OffsetTree::from_root_offset(20, 7);
    assert!(matches!(tree.root_reference(), NodeRef::Unloaded(20)));
    assert_eq!(store.reads.get(), 0);
    assert_eq!(tree.offset_for(&store, &2).unwrap(), Some(102));
    assert_eq!(store.reads.get(), 2);
    assert_eq!(tree.offset_for(&store, &3).unwrap(), Some(103));
    assert_eq!(tree.offset_for(&store, &0).unwrap(), None);
    assert_eq!(store.reads.get(), 2);
    match tree.root_reference() {
        NodeRef::Loaded(root) => {
            assert!(!root.is_modified());
            assert!(matches!(root.children()[0], NodeRef::Loaded(_)));
            assert!(matches!(root.children()[1], NodeRef::Unloaded(11)));
            assert!(matches!(root.children()[2], NodeRef::Unloaded(12)));
        }
        NodeRef::Unloaded(_) => panic!("the root has been read"),
    }
    assert_eq!(tree.offset_for(&store, &4).unwrap(), None);
    assert_eq!(tree.offset_for(&store, &7).unwrap(), Some(107));
    assert_eq!(tree.offset_for(&store, &8).unwrap(), None);
    assert_eq!(tree.offset_for(&store, &11).unwrap(), Some(111));
    assert_eq!(tree.offset_for(&store, &12).unwrap(), None);
    assert_eq!(store.reads.get(), 4);
    assert!(tree.contains(&store, &9).unwrap());
    assert_eq!(store.reads.get(), 4);
    assert_eq!(survey(&tree).entries, 9);
}

#[test]
fn test_insert_into_stored_tree_marks_the_path() {
    let store = small_store();
    let mut tree: OffsetTree<usize> = OffsetTree::from_root_offset(20, 7);
    tree.insert(&store, &4, 104).unwrap();
    assert_eq!(store.reads.get(), 2);
    match tree.root_reference() {
        NodeRef::Loaded(root) => {
            assert!(root.is_modified());
            assert_eq!(root.node_type(), NodeType::Root);
            assert!(matches!(root.children()[0], NodeRef::Unloaded(10)));
            match &root.children()[1] {
                NodeRef::Loaded(leaf) => {
                    assert!(leaf.is_modified());
                    assert_eq!(leaf.keys(), &vec![4, 5, 6, 7]);
                }
                NodeRef::Unloaded(_) => panic!("the leaf has been read"),
            }
        }
        NodeRef::Unloaded(_) => panic!("the root has been read"),
    }
    tree.insert(&store, &8, 108).unwrap();
    tree.insert(&store, &12, 112).unwrap();
    tree.insert(&store, &13, 113).unwrap();
    let seen = survey(&tree);
    assert_eq!(seen.nodes, 4);
    assert_eq!(seen.entries, 4 + 3 + 3);
    for (k, v) in [(1usize, 101u64), (4, 104), (5, 105), (8, 108), (9, 109), (12, 112), (13, 113)] {
        assert_eq!(tree.offset_for(&store, &k).unwrap(), Some(v));
    }
    assert_eq!(tree.offset_for(&store, &14).unwrap(), None);
    assert_eq!(store.map.len(), 4);
    assert_eq!(store.map[&11].keys, vec![5, 6, 7]);
}

#[test]
fn test_missing_record_fails_the_call_and_nothing_else() {
    let mut store = CountingStore::new();
    store.put(10, NodeType::Leaf, vec![1, 2, 3], vec![101, 102, 103]);
    store.put(30, NodeType::Root, vec![3], vec![10, 999]);
    let mut tree: OffsetTree<usize> = OffsetTree::from_root_offset(30, 7);
    assert_eq!(tree.offset_for(&store, &1).unwrap(), Some(101));
    match tree.offset_for(&store, &5) {
        Err(DecodingError::Corrupt(text)) => assert_eq!(text, "no record at 999"),
        _ => panic!("the read of the missing record fails the lookup"),
    }
    assert!(tree.contains(&store, &5).is_err());
    match tree.insert(&store, &5, 105) {
        Err(DecodingError::Corrupt(text)) => assert_eq!(text, "no record at 999"),
        _ => panic!("the read of the missing record fails the insertion"),
    }
    assert_eq!(tree.offset_for(&store, &1).unwrap(), Some(101));
    tree.insert(&store, &2, 202).unwrap();
    assert_eq!(tree.offset_for(&store, &2).unwrap(), Some(202));
    assert!(tree.offset_for(&store, &5).is_err());
    store.put(999, NodeType::Leaf, vec![5, 6], vec![105, 106]);
    assert_eq!(tree.offset_for(&store, &5).unwrap(), Some(105));

    let mut lost: OffsetTree<usize> = OffsetTree::from_root_offset(77, 7);
    assert!(lost.offset_for(&store, &1).is_err());
    assert!(lost.insert(&store, &1, 1).is_err());
    assert!(matches!(lost.root_reference(), NodeRef::Unloaded(77)));
}

#[test]
fn test_reference_is_read_once() {
    let store = small_store();
    let mut link: NodeRef<usize> = NodeRef::from_offset(10);
    assert_eq!(link.offset(), 10);
    link.load(&store).unwrap();
    assert_eq!(store.reads.get(), 1);
    link.load(&store).unwrap();
    {
        let node = link.get(&store).unwrap();
        assert_eq!(node.keys(), &vec![1, 2, 3]);
        assert!(!node.is_modified());
    }
    {
        let node = link.get_mut(&store).unwrap();
        assert!(node.is_modified());
    }
    assert_eq!(store.reads.get(), 1);
    let boxed = link.into_box(&store).unwrap();
    assert_eq!(boxed.node_type(), NodeType::Leaf);
    assert!(boxed.is_modified());
    assert_eq!(store.reads.get(), 1);

    let mut absent: NodeRef<usize> = NodeRef::from_offset(5);
    assert!(absent.load(&store).is_err());
    assert!(matches!(absent, NodeRef::Unloaded(5)));
    assert!(absent.get(&store).is_err());
    assert!(absent.get_mut(&store).is_err());
    assert!(matches!(absent, NodeRef::Unloaded(5)));
    assert!(absent.into_box(&store).is_err());

    let fresh = NodeRef::from_boxed_node(Box::new(load(&store, 11).unwrap()));
    match fresh.into_box(&store) {
        Ok(node) => assert_eq!(node.keys(), &vec![5, 6, 7]),
        Err(_) => panic!("a node in memory needs no read"),
    }
    assert_eq!(DiskNode::load(&store, 12).unwrap().children, vec![109, 110, 111]);
}

#[test]
fn test_install_hands_on_the_outcome() {
    let store = small_store();
    let mut link: NodeRef<usize> = NodeRef::from_offset(10);
    let failure = DecodingError::Corrupt(String::from("torn record"));
    match link.install(Err(failure)) {
        Err(DecodingError::Corrupt(text)) => assert_eq!(text, "torn record"),
        _ => panic!("a failed read is handed on"),
    }
    assert!(matches!(link, NodeRef::Unloaded(10)));
    link.install(load(&store, 11)).unwrap();
    match &link {
        NodeRef::Loaded(node) => assert_eq!(node.keys(), &vec![5, 6, 7]),
        NodeRef::Unloaded(_) => panic!("the node that was read is held"),
    }
}

#[test]
fn test_store_hands_out_keys_that_read_back() {
    let mut store = small_store();
    let record =
        DiskNode { node_type: NodeType::Leaf, keys: vec![40usize, 41], children: vec![1, 2] };
    let key = store.store(&record).unwrap();
    let back = store.load(key).unwrap();
    assert_eq!(back.keys, vec![40, 41]);
    assert_eq!(back.node_type, NodeType::Leaf);
    let other = store.store(&record).unwrap();
    assert!(other != key || store.map.len() == 5);
    let mut rng = XorShiftRng::from_seed([2, 4, 6, 8]);
    let probe: u64 = rng.gen();
    if !store.map.contains_key(&probe) {
        assert!(store.load(probe).is_err());
    }
}

/// A store whose device has failed: nothing can be read or written.
struct BrokenStore;

impl StorageBackend<usize> for BrokenStore {
    fn load(&self, _key: u64) -> Result<DiskNode<usize>, DecodingError> {
        let cause = std::io::Error::new(std::io::ErrorKind::UnexpectedEof, "short read");
        Err(DecodingError::IoError(cause))
    }

    fn store(&mut self, value: &DiskNode<usize>) -> Result<u64, EncodingError> {
        if value.keys.is_empty() {
            Err(EncodingError::Unknown(String::from("nothing to write")))
        } else {
            let cause = std::io::Error::new(std::io::ErrorKind::WriteZero, "disk full");
            Err(EncodingError::IoError(cause))
        }
    }
}

#[test]
fn test_io_failure_is_handed_on_unchanged() {
    let store = BrokenStore;
    let mut tree: OffsetTree<usize> = OffsetTree::from_root_offset(0, 7);
    match tree.offset_for(&store, &1) {
        Err(DecodingError::IoError(e)) => {
            assert_eq!(e.kind(), std::io::ErrorKind::UnexpectedEof);
            assert_eq!(e.to_string(), "short read");
        }
        _ => panic!("the failed read fails the lookup"),
    }
    match tree.contains(&store, &1) {
        Err(DecodingError::IoError(e)) => assert_eq!(e.kind(), std::io::ErrorKind::UnexpectedEof),
        _ => panic!("the failed read fails the lookup"),
    }
    match tree.insert(&store, &1, 1) {
        Err(DecodingError::IoError(e)) => assert_eq!(e.kind(), std::io::ErrorKind::UnexpectedEof),
        _ => panic!("the failed read fails the insertion"),
    }
    assert!(matches!(tree.root_reference(), NodeRef::Unloaded(0)));
    assert!(matches!(DiskNode::load(&store, 3), Err(DecodingError::IoError(_))));
    assert!(matches!(load(&store, 3), Err(DecodingError::IoError(_))));

    let mut built: OffsetTree<usize> = OffsetTree::empty(7);
    for k in 0usize..100 {
        built.insert(&store, &k, k as u64).unwrap();
    }
    for k in 0usize..100 {
        assert_eq!(built.offset_for(&store, &k).unwrap(), Some(k as u64));
    }
}

#[test]
fn test_write_failures_carry_their_cause() {
    let mut store = BrokenStore;
    let empty = DiskNode { node_type: NodeType::Leaf, keys: Vec::<usize>::new(), children: vec![] };
    match store.store(&empty) {
        Err(EncodingError::Unknown(text)) => assert_eq!(text, "nothing to write"),
        _ => panic!("the write fails"),
    }
    let full = DiskNode { node_type: NodeType::Leaf, keys: vec![1usize], children: vec![1] };
    match store.store(&full) {
        Err(EncodingError::IoError(e)) => assert_eq!(e.kind(), std::io::ErrorKind::WriteZero),
        _ => panic!("the write fails"),
    }
    assert_eq!(format!("{:?}", DecodingError::Corrupt(String::from("x"))), "Corrupt(\"x\")");
    assert!(format!("{:?}", EncodingError::Unknown(String::from("y"))).starts_with("Unknown"));
}

#[test]
fn test_every_node_on_the_way_is_marked() {
    let store = small_store();
    let mut tree: OffsetTree<usize> = OffsetTree::from_root_offset(20, 7);
    assert_eq!(tree.offset_for(&store, &1).unwrap(), Some(101));
    assert_eq!(tree.offset_for(&store, &9).unwrap(), Some(109));
    tree.insert(&store, &10, 1010).unwrap();
    match tree.root_reference() {
        NodeRef::Loaded(root) => {
            assert!(root.is_modified());
            match (&root.children()[0], &root.children()[1], &root.children()[2]) {
                (NodeRef::Loaded(first), NodeRef::Unloaded(11), NodeRef::Loaded(last)) => {
                    assert!(!first.is_modified());
                    assert!(last.is_modified());
                    assert!(matches!(last.children()[1], NodeRef::Unloaded(1010)));
                }
                _ => panic!("the first and last leaves are in memory, the middle one is not"),
            }
        }
        NodeRef::Unloaded(_) => panic!("the root has been read"),
    }
    assert_eq!(tree.offset_for(&store, &10).unwrap(), Some(1010));
}

/// The keys and link counts of every node in memory, in order from the root.
fn shapes(link: &NodeRef<usize>, out: &mut Vec<(Vec<usize>, usize)>) {
    match link {
        NodeRef::Loaded(node) => {
            out.push((node.keys().clone(), node.children().len()));
            if node.node_type() != NodeType::Leaf {
                for child in node.children() {
                    shapes(child, out);
                }
            }
        }
        NodeRef::Unloaded(offset) => out.push((Vec::new(), *offset as usize)),
    }
}

fn shapes_of(tree: &OffsetTree<usize>) -> Vec<(Vec<usize>, usize)> {
    let mut out = Vec::new();
    shapes(tree.root_reference(), &mut out);
    out
}

#[test]
fn test_overwrite_changes_no_node() {
    let store = CountingStore::new();
    let mut tree: OffsetTree<usize> = OffsetTree::empty(7);
    for k in 0usize..200 {
        tree.insert(&store, &(k * 2), k as u64).unwrap();
    }
    let before = shapes_of(&tree);
    for k in 0usize..200 {
        tree.insert(&store, &(k * 2), 5000 + k as u64).unwrap();
        assert_eq!(shapes_of(&tree), before);
    }
    for k in 0usize..200 {
        assert_eq!(tree.offset_for(&store, &(k * 2)).unwrap(), Some(5000 + k as u64));
    }
    assert_eq!(shapes_of(&tree), before);
    assert_eq!(survey(&tree).entries, 200);
}

#[test]
fn test_failed_insert_changes_no_node() {
    let mut store = CountingStore::new();
    store.put(10, NodeType::Leaf, vec![1, 2, 3], vec![101, 102, 103]);
    store.put(30, NodeType::Root, vec![3], vec![10, 999]);
    let mut tree: OffsetTree<usize> = OffsetTree::from_root_offset(30, 7);
    assert_eq!(tree.offset_for(&store, &1).unwrap(), Some(101));
    let before = shapes_of(&tree);
    assert!(tree.insert(&store, &8, 108).is_err());
    assert_eq!(shapes_of(&tree), before);
    assert!(tree.offset_for(&store, &8).is_err());
    assert_eq!(shapes_of(&tree), before);
}

#[test]
fn test_split_comes_when_the_count_exceeds_the_threshold() {
    let store = CountingStore::new();
    let mut tree: OffsetTree<usize> = OffsetTree::empty(9);
    for k in 1usize..=5 {
        tree.insert(&store, &k, k as u64 * 10).unwrap();
    }
    assert_eq!(shapes_of(&tree), vec![(vec![1, 2, 3, 4, 5], 5)]);
    tree.insert(&store, &6, 60).unwrap();
    assert_eq!(
        shapes_of(&tree),
        vec![(vec![3], 2), (vec![1, 2, 3], 3), (vec![4, 5, 6], 3)]
    );

    let mut small: OffsetTree<usize> = OffsetTree::empty(7);
    for k in 1usize..=5 {
        small.insert(&store, &k, k as u64).unwrap();
    }
    assert_eq!(shapes_of(&small), vec![(vec![2], 2), (vec![1, 2], 2), (vec![3, 4, 5], 3)]);
}

#[test]
fn test_inner_node_takes_the_halves_of_a_split_child() {
    let store = CountingStore::new();
    let mut tree: OffsetTree<usize> = OffsetTree::empty(7);
    for k in [10usize, 20, 30, 40, 110, 120, 100] {
        tree.insert(&store, &k, k as u64).unwrap();
    }
    assert_eq!(
        shapes_of(&tree),
        vec![(vec![20, 40], 3), (vec![10, 20], 2), (vec![30, 40], 2), (vec![100, 110, 120], 3)]
    );
    let mut next: OffsetTree<usize> = OffsetTree::empty(7);
    for k in [10usize, 20, 30, 40, 25] {
        next.insert(&store, &k, k as u64).unwrap();
    }
    for k in [50usize, 60] {
        next.insert(&store, &k, k as u64).unwrap();
    }
    assert_eq!(
        shapes_of(&next),
        vec![(vec![20, 30], 3), (vec![10, 20], 2), (vec![25, 30], 2), (vec![40, 50, 60], 3)]
    );
}

#[test]
fn test_record_with_wrong_field_count_is_corrupt() {
    let short_leaf =
        DiskNode { node_type: NodeType::Leaf, keys: vec![1usize, 2, 3], children: vec![10, 20] };
    assert!(matches!(Node::checked(short_leaf), Err(DecodingError::Corrupt(_))));
    let long_leaf =
        DiskNode { node_type: NodeType::Leaf, keys: vec![1usize], children: vec![10, 20] };
    assert!(matches!(Node::checked(long_leaf), Err(DecodingError::Corrupt(_))));
    let inner_like_leaf =
        DiskNode { node_type: NodeType::Internal, keys: vec![1usize, 2], children: vec![10, 20] };
    assert!(matches!(Node::checked(inner_like_leaf), Err(DecodingError::Corrupt(_))));
    let bare_root =
        DiskNode { node_type: NodeType::Root, keys: Vec::<usize>::new(), children: vec![] };
    assert!(matches!(Node::checked(bare_root), Err(DecodingError::Corrupt(_))));
    let leaf =
        DiskNode { node_type: NodeType::Leaf, keys: vec![1usize, 2], children: vec![10, 20] };
    match Node::checked(leaf) {
        Ok(node) => {
            assert_eq!(node.keys(), &vec![1, 2]);
            assert!(!node.is_modified());
        }
        Err(_) => panic!("a leaf with one link per key is a node"),
    }
    let inner =
        DiskNode { node_type: NodeType::Internal, keys: vec![5usize], children: vec![10, 20] };
    assert!(Node::checked(inner).is_ok());
    let empty_leaf =
        DiskNode { node_type: NodeType::Leaf, keys: Vec::<usize>::new(), children: vec![] };
    assert!(Node::checked(empty_leaf).is_ok());
}

#[test]
fn test_corrupt_record_fails_the_read_and_the_call() {
    let mut store = CountingStore::new();
    store.put(10, NodeType::Leaf, vec![1, 2, 3], vec![101, 102, 103]);
    store.put(11, NodeType::Leaf, vec![5, 6, 7], vec![105, 106]);
    store.put(20, NodeType::Root, vec![3], vec![10, 11]);
    assert!(matches!(load(&store, 11), Err(DecodingError::Corrupt(_))));
    assert!(load(&store, 10).is_ok());
    let mut link: NodeRef<usize> = NodeRef::from_offset(11);
    assert!(matches!(link.load(&store), Err(DecodingError::Corrupt(_))));
    assert!(matches!(link, NodeRef::Unloaded(11)));

    let mut tree: OffsetTree<usize> = OffsetTree::from_root_offset(20, 7);
    assert_eq!(tree.offset_for(&store, &2).unwrap(), Some(102));
    let before = shapes_of(&tree);
    assert!(matches!(tree.offset_for(&store, &5), Err(DecodingError::Corrupt(_))));
    assert!(matches!(tree.contains(&store, &5), Err(DecodingError::Corrupt(_))));
    assert!(matches!(tree.insert(&store, &5, 1), Err(DecodingError::Corrupt(_))));
    assert_eq!(shapes_of(&tree), before);
    assert_eq!(tree.offset_for(&store, &2).unwrap(), Some(102));
}

/// For every node in memory, in order from the root, whether it is marked.
fn flags(link: &NodeRef<usize>, out: &mut Vec<Option<bool>>) {
    match link {
        NodeRef::Loaded(node) => {
            out.push(Some(node.is_modified()));
            if node.node_type() != NodeType::Leaf {
                for child in node.children() {
                    flags(child, out);
                }
            }
        }
        NodeRef::Unloaded(_) => out.push(None),
    }
}

fn flags_of(tree: &OffsetTree<usize>) -> Vec<Option<bool>> {
    let mut out = Vec::new();
    flags(tree.root_reference(), &mut out);
    out
}

#[test]
fn test_lookup_marks_nothing_and_reads_only_the_way() {
    let store = small_store();
    let mut tree: OffsetTree<usize> = OffsetTree::from_root_offset(20, 7);
    assert_eq!(flags_of(&tree), vec![None]);
    assert_eq!(tree.offset_for(&store, &6).unwrap(), Some(106));
    assert_eq!(flags_of(&tree), vec![Some(false), None, Some(false), None]);
    tree.insert(&store, &10, 1010).unwrap();
    assert_eq!(flags_of(&tree), vec![Some(true), None, Some(false), Some(true)]);
    assert_eq!(tree.offset_for(&store, &1).unwrap(), Some(101));
    assert!(tree.contains(&store, &10).unwrap());
    assert_eq!(flags_of(&tree), vec![Some(true), Some(false), Some(false), Some(true)]);
}

#[test]
fn test_failed_insert_marks_only_what_it_visited() {
    let mut store = CountingStore::new();
    store.put(10, NodeType::Leaf, vec![1, 2, 3], vec![101, 102, 103]);
    store.put(30, NodeType::Root, vec![3], vec![10, 999]);
    let mut tree: OffsetTree<usize> = OffsetTree::from_root_offset(30, 7);
    assert_eq!(tree.offset_for(&store, &1).unwrap(), Some(101));
    assert_eq!(flags_of(&tree), vec![Some(false), Some(false), None]);
    assert!(tree.insert(&store, &8, 108).is_err());
    assert_eq!(flags_of(&tree), vec![Some(true), Some(false), None]);

    let mut lost: OffsetTree<usize> = OffsetTree::from_root_offset(77, 7);
    assert!(lost.insert(&store, &1, 1).is_err());
    assert_eq!(flags_of(&lost), vec![None]);
}

#[test]
fn test_split_marks_the_way_and_the_new_nodes() {
    let store = small_store();
    let mut tree: OffsetTree<usize> = OffsetTree::from_root_offset(20, 7);
    assert_eq!(tree.offset_for(&store, &1).unwrap(), Some(101));
    for k in [12usize, 13] {
        tree.insert(&store, &k, k as u64).unwrap();
    }
    assert_eq!(
        shapes_of(&tree),
        vec![
            (vec![3, 7, 10], 4),
            (vec![1, 2, 3], 3),
            (vec![], 11),
            (vec![9, 10], 2),
            (vec![11, 12, 13], 3)
        ]
    );
    assert_eq!(
        flags_of(&tree),
        vec![Some(true), Some(false), None, Some(true), Some(true)]
    );
}
