use engine::skiplist::{SkipList, SkipListKV, SkipListNode};
use engine::skiplist_error::SkipListError;

#[test]
fn test_new_skiplistkv() {
    let skiplist_kv = SkipListKV::new(6, 7);
    assert_eq!(skiplist_kv.key, 6);
    assert_eq!(skiplist_kv.value, 7);
}

#[test]
fn test_new_skiplist_node() {
    let skiplist_node = SkipListNode::new(5, 6, 7);
    let key = SkipListNode::get_key(&skiplist_node);
    let value = SkipListNode::get_value(&skiplist_node);
    assert_eq!(key, &6);
    assert_eq!(value, &7);
}

#[test]
fn test_new_skiplist() -> Result<(), SkipListError> {
    let skiplist: SkipList<i32, i32> = SkipList::new(5, -1, -1);
    let head = skiplist.head();
    let key = SkipListNode::get_key(head);
    let value = SkipListNode::get_value(head);
    assert_eq!(key, &-1);
    assert_eq!(value, &-1);
    assert_eq!(skiplist.max_level(), 5);
    Ok(())
}

#[test]
fn test_insert_and_search() -> Result<(), SkipListError> {
    let mut skiplist: SkipList<i32, i32> = SkipList::new(5, -1, -1);
    skiplist.insert(6, 7);
    assert_eq!(skiplist.search(6), Some(7));
    assert_eq!(skiplist.search(7), None);
    Ok(())
}

#[test]
fn skiplist_insert_overwrites_and_keeps_order() {
    let mut skiplist: SkipList<i32, i32> = SkipList::new(5, -1, -1);
    for k in [5, 1, 9, 3, 7, 1, 9] {
        skiplist.insert(k, k * 10);
    }
    skiplist.insert(3, 33);
    assert_eq!(skiplist.search(3), Some(33));
    assert_eq!(skiplist.search(1), Some(10));
    assert_eq!(skiplist.search(4), None);
    let mut it = skiplist.iter();
    let mut seen = Vec::new();
    while let Some(kv) = it.next() {
        seen.push((kv.key, kv.value));
    }
    assert_eq!(seen, vec![(1, 10), (3, 33), (5, 50), (7, 70), (9, 90)]);
}

#[test]
fn skiplist_many_byte_keys() {
    let mut skiplist: SkipList<Vec<u8>, Vec<u8>> = SkipList::new(5, vec![b'0'], vec![b'0']);
    for i in (0..500).rev() {
        skiplist.insert(format!("{:04}", i).into_bytes(), format!("v{}", i).into_bytes());
    }
    for i in 0..500 {
        assert_eq!(
            skiplist.search(format!("{:04}", i).into_bytes()),
            Some(format!("v{}", i).into_bytes())
        );
    }
    assert_eq!(skiplist.search(b"0500".to_vec()), None);
    assert_eq!(skiplist.search(Vec::new()), None);
}

#[test]
fn skiplist_random_level_in_range() {
    let skiplist: SkipList<i32, i32> = SkipList::new(5, -1, -1);
    for _ in 0..200 {
        let level = skiplist.random_level();
        assert!(level >= 1 && level <= 5);
    }
}

#[test]
fn render_draws_levels_from_the_top() {
    let mut skiplist: SkipList<i32, i32> = SkipList::new(5, -1, -1);
    skiplist.insert(2, 20);
    skiplist.insert(1, 10);
    let texts = vec![b"1".to_vec(), b"2".to_vec()];
    let drawing = String::from_utf8(skiplist.render(&texts)).unwrap();
    let lines: Vec<&str> = drawing.split('\n').collect();
    assert_eq!(lines.len(), 7);
    assert_eq!(lines[0], "--- SkipList (Height: 5) ---");
    assert!(lines[1].starts_with("Level  4: Head"));
    assert_eq!(lines[5], "Level  0: Head -> [1] -> [2] -> Nil");
    assert_eq!(lines[6], "-----------------------------");
    for line in &lines[1..6] {
        assert!(line.ends_with(" -> Nil"));
        assert!(line.contains("[1]") || line.contains("[-]"));
    }
}

#[test]
fn render_empty_list() {
    let skiplist: SkipList<i32, i32> = SkipList::new(12, -1, -1);
    let drawing = String::from_utf8(skiplist.render(&Vec::new())).unwrap();
    assert!(drawing.starts_with("--- SkipList (Height: 12) ---\nLevel 11: Head -> Nil\n"));
    assert!(drawing.ends_with("Level  0: Head -> Nil\n-----------------------------"));
}
