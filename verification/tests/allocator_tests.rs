use flash_jump::allocator::allocate;
use flash_jump::jump_map::JumpMap;

// The pool pops fresh labels from the end of the alphabet, so the first
// fresh labels are 'm', then 'n', then 'b', ...

#[test]
fn test_allocate_fresh_labels() {
    let previous = JumpMap::new();
    let matched = vec![0usize, 2usize];
    let result = allocate(&previous, &matched);
    assert_eq!(result.len(), 2);
    assert_eq!(result.get('m'), Some(0));
    assert_eq!(result.get('n'), Some(2));
}

#[test]
fn test_allocate_reuses_label_of_surviving_id() {
    let previous = JumpMap::new();
    let first = allocate(&previous, &vec![0usize, 2usize]);
    // id 2 held 'n'; after the edit only id 2 matches and keeps 'n'
    let second = allocate(&first, &vec![2usize]);
    assert_eq!(second.len(), 1);
    assert_eq!(second.get('n'), Some(2));
    assert_eq!(second.get('m'), None);
}

#[test]
fn test_allocate_empty_matches_gives_empty_map() {
    let previous = JumpMap::new();
    let result = allocate(&previous, &Vec::new());
    assert_eq!(result.len(), 0);
    assert!(result.is_empty());
}

#[test]
fn test_allocate_degrades_to_empty_over_alphabet() {
    let previous = JumpMap::new();
    let matched: Vec<usize> = (0..26).collect();
    let result = allocate(&previous, &matched);
    assert_eq!(result.len(), 0);
    // one less fits, and every id gets a label
    let matched: Vec<usize> = (0..25).collect();
    let result = allocate(&previous, &matched);
    assert_eq!(result.len(), 25);
}

#[test]
fn test_allocate_is_injective() {
    let previous = JumpMap::new();
    let first = allocate(&previous, &vec![4usize, 7usize, 1usize]);
    let second = allocate(&first, &vec![7usize, 9usize, 4usize, 3usize]);
    let pairs = second.pairs();
    for (i, (c1, id1)) in pairs.iter().enumerate() {
        for (c2, id2) in pairs.iter().skip(i + 1) {
            assert_ne!(c1, c2);
            assert_ne!(id1, id2);
        }
    }
}

#[test]
fn test_allocate_idempotent() {
    let previous = JumpMap::new();
    let first = allocate(&previous, &vec![4usize, 7usize, 1usize]);
    let matched = vec![7usize, 9usize, 4usize, 3usize];
    let once = allocate(&first, &matched);
    let twice = allocate(&once, &matched);
    let mut a = once.pairs();
    let mut b = twice.pairs();
    a.sort();
    b.sort();
    assert_eq!(a, b);
}

#[test]
fn test_allocate_reuse_wins_over_fresh_pop() {
    // id 5 held 'm', the very label the first fresh pop would take. The
    // fresh id 9 pops 'm' first, and the later reuse by id 5 wins it back:
    // the map stays injective and id 5 keeps its label.
    let previous = allocate(&JumpMap::new(), &vec![5usize]);
    assert_eq!(previous.get('m'), Some(5));
    let result = allocate(&previous, &vec![9usize, 5usize]);
    assert_eq!(result.get('m'), Some(5));
    assert_eq!(result.len(), 1);
}
