use blockdag::error::StoreError;
use blockdag::refs::{Ref, RefTable, Tag};

fn tag(name: &str) -> Tag {
    Tag { name: name.to_string() }
}

#[test]
fn name_without_a_tag_resolves_to_itself() {
    let refs = RefTable::new();
    assert_eq!(Ref::from_str(&refs, "abc123"), Ok("abc123".to_string()));
    assert_eq!(Ref::from_str(&refs, ""), Ok("".to_string()));
    assert_eq!(Ref::from_str(&refs, "not even hex!"), Ok("not even hex!".to_string()));
}

#[test]
fn name_with_a_tag_resolves_to_what_the_tag_points_at() {
    let mut refs = RefTable::new();
    tag("release").write(&mut refs, "00ff");
    assert_eq!(Ref::from_str(&refs, "release"), Ok("00ff".to_string()));
    assert_eq!(Ref::from_str(&refs, "releases"), Ok("releases".to_string()));
    assert_eq!(Ref::from_str(&refs, "00ff"), Ok("00ff".to_string()));
}

#[test]
fn tag_written_twice_points_at_the_later_hash() {
    let mut refs = RefTable::new();
    let t = tag("t");
    t.write(&mut refs, "h1");
    assert_eq!(t.resolve(&refs), Ok("h1".to_string()));
    t.write(&mut refs, "h2");
    assert_eq!(t.resolve(&refs), Ok("h2".to_string()));
    assert_eq!(Ref::from_str(&refs, "t"), Ok("h2".to_string()));
}

#[test]
fn writing_one_tag_leaves_the_others() {
    let mut refs = RefTable::new();
    tag("a").write(&mut refs, "ha");
    tag("b").write(&mut refs, "hb");
    tag("a").write(&mut refs, "ha2");
    assert_eq!(tag("a").resolve(&refs), Ok("ha2".to_string()));
    assert_eq!(tag("b").resolve(&refs), Ok("hb".to_string()));
}

#[test]
fn tag_that_does_not_exist_is_not_found() {
    let mut refs = RefTable::new();
    assert_eq!(tag("none").resolve(&refs), Err(StoreError::NotFound));
    tag("some").write(&mut refs, "h");
    assert_eq!(tag("none").resolve(&refs), Err(StoreError::NotFound));
}

#[test]
fn reference_is_a_tag_or_a_hash() {
    let mut refs = RefTable::new();
    tag("main").write(&mut refs, "aa11");
    match Ref::parse(&refs, "main") {
        Ref::Tag(t) => assert_eq!(t.name, "main"),
        Ref::Hash(_) => panic!("a tag of that name exists"),
    }
    match Ref::parse(&refs, "aa11") {
        Ref::Hash(h) => assert_eq!(h, "aa11"),
        Ref::Tag(_) => panic!("no tag of that name exists"),
    }
    assert_eq!(Ref::parse(&refs, "main").hash(&refs), "aa11");
    assert_eq!(Ref::parse(&refs, "aa11").hash(&refs), "aa11");
    assert_eq!(Ref::Tag(tag("gone")).hash(&refs), "gone");
    assert_eq!(Ref::Hash("main".to_string()).hash(&refs), "main");
}

#[test]
fn fallback_takes_what_was_read_or_the_text_itself() {
    assert_eq!(Ref::fallback("name", Ok("hash".to_string())), "hash");
    assert_eq!(Ref::fallback("name", Err(StoreError::NotFound)), "name");
    assert_eq!(Ref::fallback("name", Err(StoreError::IoError)), "name");
}

#[test]
fn tag_may_point_at_anything() {
    let mut refs = RefTable::new();
    tag("odd").write(&mut refs, "");
    assert_eq!(Ref::from_str(&refs, "odd"), Ok("".to_string()));
}
