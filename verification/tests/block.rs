use blockdag::block::{is_ascending, Block, BlockContent};
use blockdag::digest::hash_bytes;
use blockdag::order::str_precedes;
use blockdag::text::str_eq;

fn empty_content() -> BlockContent {
    BlockContent { encrypted: vec![], plain: None, signature: None }
}

fn names(list: &[&str]) -> Vec<String> {
    list.iter().map(|s| s.to_string()).collect()
}

#[test]
fn new_block_keeps_content_and_time() {
    let content = BlockContent {
        encrypted: vec!["QUJD".to_string()],
        plain: Some("aGk".to_string()),
        signature: None,
    };
    let block = Block::new(content, vec![], 77);
    assert_eq!(block.content().encrypted, vec!["QUJD".to_string()]);
    assert_eq!(block.content().plain, Some("aGk".to_string()));
    assert_eq!(block.content().signature, None);
    assert!(block.parents().is_empty());
    assert_eq!(block.timestamp(), 77);
}

#[test]
fn new_block_sorts_its_parents() {
    let a = "1".repeat(64);
    let b = "9".repeat(64);
    let c = "a".repeat(64);
    let d = "f".repeat(64);
    let block = Block::new(empty_content(), vec![d.clone(), a.clone(), c.clone(), b.clone()], 0);
    assert_eq!(block.parents(), &vec![a, b, c, d]);
}

#[test]
fn new_block_keeps_each_parent_once() {
    let a = hash_bytes(b"a");
    let b = hash_bytes(b"b");
    let block = Block::new(
        empty_content(),
        vec![b.clone(), a.clone(), b.clone(), a.clone(), a.clone()],
        0,
    );
    let mut expected = vec![a, b];
    expected.sort();
    assert_eq!(block.parents(), &expected);
}

#[test]
fn parents_in_any_order_give_the_same_block() {
    let hashes: Vec<String> = (0u8..6).map(|i| hash_bytes(&[i])).collect();
    let forward = Block::new(empty_content(), hashes.clone(), 3);
    let mut reversed = hashes.clone();
    reversed.reverse();
    let backward = Block::new(empty_content(), reversed, 3);
    assert_eq!(forward, backward);
    let mut sorted = hashes;
    sorted.sort();
    assert_eq!(forward.parents(), &sorted);
}

#[test]
fn parents_may_be_any_text() {
    let block = Block::new(empty_content(), names(&["b", "my-tag", "", "a", "Zebra", "é", "a"]), 0);
    assert_eq!(block.parents(), &names(&["", "Zebra", "a", "b", "my-tag", "é"]));
    assert_eq!(block.into_parents(), names(&["", "Zebra", "a", "b", "my-tag", "é"]));
}

#[test]
fn parents_are_kept_as_a_sorted_set_keeps_them() {
    let given = names(&["b", "ab", "a", "", "ba", "B", "\u{7f}", "\u{80}", "\u{10000}", "\u{ffff}", "b"]);
    let block = Block::new(empty_content(), given.clone(), 0);
    let set: std::collections::BTreeSet<String> = given.into_iter().collect();
    let expected: Vec<String> = set.into_iter().collect();
    assert_eq!(block.parents(), &expected);
}

#[test]
fn block_from_parts_asks_for_ascending_parents() {
    assert!(Block::from_parts(empty_content(), names(&["a", "b"]), 1).is_some());
    assert!(Block::from_parts(empty_content(), names(&[]), 1).is_some());
    assert!(Block::from_parts(empty_content(), names(&["b", "a"]), 1).is_none());
    assert!(Block::from_parts(empty_content(), names(&["a", "a"]), 1).is_none());
    let block = Block::from_parts(empty_content(), names(&["a", "b"]), 1).unwrap();
    assert_eq!(block, Block::new(empty_content(), names(&["b", "a"]), 1));
}

#[test]
fn ascending_lists() {
    assert!(is_ascending(&names(&[])));
    assert!(is_ascending(&names(&["x"])));
    assert!(is_ascending(&names(&["a", "b", "c"])));
    assert!(!is_ascending(&names(&["a", "c", "b"])));
    assert!(!is_ascending(&names(&["a", "b", "b"])));
}

#[test]
fn payload_presence() {
    assert!(!empty_content().has_payload());
    let sealed = BlockContent { encrypted: vec!["QQ".to_string()], plain: None, signature: None };
    assert!(sealed.has_payload());
    let plain = BlockContent { encrypted: vec![], plain: Some("QQ".to_string()), signature: None };
    assert!(plain.has_payload());
    let signed = BlockContent { encrypted: vec![], plain: None, signature: Some("QQ".to_string()) };
    assert!(!signed.has_payload());
}

#[test]
fn order_of_texts() {
    assert!(str_precedes("a", "b"));
    assert!(!str_precedes("b", "a"));
    assert!(!str_precedes("a", "a"));
    assert!(str_precedes("", "a"));
    assert!(!str_precedes("a", ""));
    assert!(!str_precedes("", ""));
    assert!(str_precedes("ab", "abc"));
    assert!(!str_precedes("abc", "ab"));
    assert!(str_precedes("0f", "a0"));
    assert!(str_precedes("Z", "a"));
    assert!(str_precedes("z", "é"));
}

#[test]
fn order_of_texts_is_that_of_strings() {
    let words = ["", "0", "00", "09", "1", "a", "a0", "ab", "b", "f0f", "ff", "é", "ée", "\u{800}", "\u{10000}", "\u{ffff}", "~"];
    for x in words.iter() {
        for y in words.iter() {
            assert_eq!(str_precedes(x, y), x < y);
        }
    }
}

#[test]
fn equality_of_texts() {
    assert!(str_eq("", ""));
    assert!(str_eq("tag", "tag"));
    assert!(!str_eq("tag", "tap"));
    assert!(!str_eq("tag", "tags"));
    assert!(str_eq("päck", "päck"));
    assert!(!str_eq("päck", "pack"));
}
