use append_tree::offset_tree::{DecodingError, EncodingError, OffsetTree};
use append_tree::storage_backend::DiskNode;
use append_tree::StorageBackend;
use rand::{Rng, SeedableRng, XorShiftRng};
use std::collections::HashMap;

struct MemoryBackend {
    map: HashMap<u64, DiskNode<usize>>,
    count: u64,
}

impl MemoryBackend {
    fn new() -> MemoryBackend {
        MemoryBackend { map: HashMap::new(), count: 0 }
    }
}

fn copy_of(node: &DiskNode<usize>) -> DiskNode<usize> {
    DiskNode { node_type: node.node_type, keys: node.keys.clone(), children: node.children.clone() }
}

impl StorageBackend<usize> for MemoryBackend {
    fn load(&self, key: u64) -> Result<DiskNode<usize>, DecodingError> {
        match self.map.get(&key) {
            Some(node) => Ok(copy_of(node)),
            None => Err(DecodingError::Corrupt(format!("no record at {}", key))),
        }
    }

    fn store(&mut self, value: &DiskNode<usize>) -> Result<u64, EncodingError> {
        let key = self.count;
        // We should never end up inserting a duplicate key.
        assert!(self.map.insert(key, copy_of(value)).is_none());
        self.count += 1;
        Ok(key)
    }
}

#[test]
fn test_insertion_nocommit() {
    let mut rng = XorShiftRng::from_seed([1, 1, 1, 1]);
    let count = 10000;
    let order = 7;
    let mut points = (0..count).zip(rng.gen_iter().take(count)).collect::<Vec<_>>();
    rng.shuffle(&mut points);
    let mut tree = OffsetTree::empty(order);
    let backend = MemoryBackend::new();
    for &(ref k, ref v) in points.iter() {
        tree.insert(&backend, k, *v).unwrap();
    }
    for &(ref k, ref v) in points.iter() {
        let got = tree.offset_for(&backend, k).unwrap().unwrap();
        assert_eq!(got, *v);
    }
}

#[test]
fn test_shuffled_scenario_misses_absent_key() {
    let mut rng = XorShiftRng::from_seed([1, 1, 1, 1]);
    let count: usize = 10000;
    let mut points = (0..count).zip(rng.gen_iter::<u64>().take(count)).collect::<Vec<_>>();
    rng.shuffle(&mut points);
    let mut tree = OffsetTree::empty(7);
    let backend = MemoryBackend::new();
    for &(ref k, ref v) in points.iter() {
        tree.insert(&backend, k, *v).unwrap();
    }
    for &(ref k, ref v) in points.iter() {
        assert_eq!(tree.offset_for(&backend, k).unwrap(), Some(*v));
        assert!(tree.contains(&backend, k).unwrap());
    }
    assert_eq!(tree.offset_for(&backend, &10000).unwrap(), None);
    assert!(!tree.contains(&backend, &10000).unwrap());
}

#[test]
fn test_lookup_in_empty_tree() {
    let mut tree: OffsetTree<usize> = OffsetTree::empty(7);
    let backend = MemoryBackend::new();
    for k in [0usize, 1, 3, 4096, usize::MAX] {
        assert_eq!(tree.offset_for(&backend, &k).unwrap(), None);
        assert!(!tree.contains(&backend, &k).unwrap());
    }
}

#[test]
fn test_overwrite_replaces_value() {
    let mut tree: OffsetTree<usize> = OffsetTree::empty(7);
    let backend = MemoryBackend::new();
    tree.insert(&backend, &5, 100).unwrap();
    tree.insert(&backend, &5, 200).unwrap();
    assert_eq!(tree.offset_for(&backend, &5).unwrap(), Some(200));
    for k in 0usize..40 {
        tree.insert(&backend, &k, k as u64).unwrap();
    }
    for k in 0usize..40 {
        tree.insert(&backend, &k, 1000 + k as u64).unwrap();
    }
    for k in 0usize..40 {
        assert_eq!(tree.offset_for(&backend, &k).unwrap(), Some(1000 + k as u64));
    }
    assert_eq!(tree.offset_for(&backend, &40).unwrap(), None);
}

#[test]
fn test_round_trip_for_several_orders() {
    for order in [7u64, 8, 9, 16, 101, u64::MAX] {
        for descending in [false, true] {
            let mut tree: OffsetTree<usize> = OffsetTree::empty(order);
            let backend = MemoryBackend::new();
            let n = 500usize;
            for i in 0..n {
                let k = if descending { (n - 1 - i) * 3 } else { i * 3 };
                tree.insert(&backend, &k, (k as u64) * 7 + 1).unwrap();
            }
            for i in 0..n {
                assert_eq!(tree.offset_for(&backend, &(i * 3)).unwrap(), Some((i as u64) * 21 + 1));
                assert_eq!(tree.offset_for(&backend, &(i * 3 + 1)).unwrap(), None);
                assert_eq!(tree.offset_for(&backend, &(i * 3 + 2)).unwrap(), None);
            }
        }
    }
}

#[test]
fn test_insert_agrees_with_a_map() {
    let mut rng = XorShiftRng::from_seed([7, 11, 13, 17]);
    let mut tree: OffsetTree<usize> = OffsetTree::empty(7);
    let mut model: HashMap<usize, u64> = HashMap::new();
    let backend = MemoryBackend::new();
    for _ in 0..5000 {
        let k = (rng.gen::<u32>() % 600) as usize;
        let v: u64 = rng.gen();
        tree.insert(&backend, &k, v).unwrap();
        model.insert(k, v);
    }
    for k in 0usize..600 {
        assert_eq!(tree.offset_for(&backend, &k).unwrap(), model.get(&k).copied());
        assert_eq!(tree.contains(&backend, &k).unwrap(), model.contains_key(&k));
    }
}
