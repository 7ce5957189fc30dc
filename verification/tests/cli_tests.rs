use engine::cli::{cli_step, CliAction};
use engine::skiplist::SkipList;

fn new_list() -> SkipList<Vec<u8>, Vec<u8>> {
    SkipList::new(5, vec![b'0'], vec![b'0'])
}

#[test]
fn cli_set_then_get() {
    let mut list = new_list();
    let step = cli_step(&mut list, b"set name ada");
    assert!(!step.too_many_words);
    assert!(matches!(step.action, CliAction::Stored));
    let step = cli_step(&mut list, b"get name");
    assert!(matches!(step.action, CliAction::Found(ref v) if v == b"ada"));
    let step = cli_step(&mut list, b"get other");
    assert!(matches!(step.action, CliAction::NotFound));
}

#[test]
fn cli_quit_unknown_and_missing_words() {
    let mut list = new_list();
    assert!(matches!(cli_step(&mut list, b"\\q").action, CliAction::Quit));
    assert!(matches!(cli_step(&mut list, b"put a b").action, CliAction::Unknown));
    assert!(matches!(cli_step(&mut list, b"set a").action, CliAction::MissingWord));
    assert!(matches!(cli_step(&mut list, b"get").action, CliAction::MissingWord));
    assert_eq!(list.search(b"a".to_vec()), None);
}

#[test]
fn cli_extra_words_are_reported_and_double_spaces_split() {
    let mut list = new_list();
    let step = cli_step(&mut list, b"set k v extra");
    assert!(step.too_many_words);
    assert!(matches!(step.action, CliAction::Stored));
    assert_eq!(list.search(b"k".to_vec()), Some(b"v".to_vec()));
    // Two spaces make an empty word: the key is empty and the value is "k".
    let step = cli_step(&mut list, b"set  k");
    assert!(matches!(step.action, CliAction::Stored));
    assert_eq!(list.search(Vec::new()), Some(b"k".to_vec()));
}

#[test]
fn skiplist_new_head_has_empty_links() {
    let list: SkipList<i32, i32> = SkipList::new(5, -1, -1);
    let head = list.head();
    assert_eq!(head.level, 5);
    assert_eq!(head.forward, vec![None; 6]);
}
