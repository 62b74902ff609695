use flash_jump::keys::{JUMP_KEYS, jump_keys, pop_char};

#[test]
fn test_pop_char() {
    let mut key_list = JUMP_KEYS.to_vec();
    let to_remove = Some('a');
    let result = pop_char(&mut key_list, to_remove);
    assert_eq!(result, 'a');
    let mut expected_key_list = JUMP_KEYS.to_vec();
    expected_key_list.retain(|k| *k != 'a');
    assert_eq!(key_list, expected_key_list);
    pop_char(&mut key_list, None);
    assert_eq!(key_list.len(), expected_key_list.len() - 1);
}

#[test]
fn test_pop_char_none_takes_last() {
    let mut key_list = vec!['a', 'b', 'c'];
    let result = pop_char(&mut key_list, None);
    assert_eq!(result, 'c');
    assert_eq!(key_list, vec!['a', 'b']);
}

#[test]
fn test_pop_char_absent_is_noop() {
    let mut key_list = vec!['a', 'b', 'c'];
    let result = pop_char(&mut key_list, Some('z'));
    assert_eq!(result, 'z');
    assert_eq!(key_list, vec!['a', 'b', 'c']);
}

#[test]
fn test_jump_keys_full_pool() {
    let pool = jump_keys();
    assert_eq!(pool.len(), 25);
    assert_eq!(pool, JUMP_KEYS.to_vec());
    // every letter is distinct, and the reserved letter is absent
    for (i, a) in pool.iter().enumerate() {
        for b in pool.iter().skip(i + 1) {
            assert_ne!(a, b);
        }
    }
    assert!(!pool.contains(&'y'));
}
