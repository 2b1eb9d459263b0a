use blockdag::digest::hash_bytes;

#[test]
fn hash_of_empty_input() {
    assert_eq!(
        hash_bytes(b""),
        "a7ffc6f8bf1ed76651c14756a061d662f580ff4de43b49fa82d80a4b80f8434a"
    );
}

#[test]
fn hash_of_abc() {
    assert_eq!(
        hash_bytes(b"abc"),
        "3a985da74fe225b2045c172d6bd390bd855f086e3e9d525b46bfe24511431532"
    );
}

#[test]
fn hash_is_sixty_four_lowercase_hex_digits() {
    let hash = hash_bytes(&[0xffu8, 0x00, 0xab, 0x10]);
    assert_eq!(hash.len(), 64);
    assert!(hash.chars().all(|c| c.is_ascii_digit() || ('a'..='f').contains(&c)));
}

#[test]
fn hash_differs_after_one_changed_byte() {
    let a = hash_bytes(b"block bytes");
    let b = hash_bytes(b"block bytez");
    assert_ne!(a, b);
}
