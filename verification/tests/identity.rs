use sd_models_manager::identity::{
    calculate_autov2_hash, identity_of_chunks, ContentHasher, IDENTITY_LEN,
};

#[test]
fn identity_of_empty_input() {
    assert_eq!(calculate_autov2_hash(b""), "e3b0c44298");
    assert_eq!(ContentHasher::new().finish(), "e3b0c44298");
}

#[test]
fn identity_of_known_input() {
    assert_eq!(calculate_autov2_hash(b"hello world"), "b94d27b993");
    assert_eq!(calculate_autov2_hash(b"abc"), "ba7816bf8f");
}

#[test]
fn identity_has_fixed_length_and_lowercase_hex() {
    let token = calculate_autov2_hash(&[0xffu8; 100]);
    assert_eq!(token.len(), IDENTITY_LEN);
    assert!(token.chars().all(|c| c.is_ascii_digit() || ('a'..='f').contains(&c)));
}

#[test]
fn identity_is_stable_across_repetition() {
    let data = vec![7u8; 20000];
    assert_eq!(calculate_autov2_hash(&data), calculate_autov2_hash(&data));
}

#[test]
fn identity_is_stable_across_chunking() {
    let mut hasher = ContentHasher::new();
    hasher.update(b"hello");
    hasher.update(b" ");
    hasher.update(b"world");
    assert_eq!(hasher.finish(), calculate_autov2_hash(b"hello world"));
    let chunks = vec![b"he".to_vec(), Vec::new(), b"llo world".to_vec()];
    assert_eq!(identity_of_chunks(&chunks), "b94d27b993");
    assert_eq!(identity_of_chunks(&Vec::new()), "e3b0c44298");
}

#[test]
fn identity_tells_contents_apart() {
    assert_ne!(calculate_autov2_hash(b"model a"), calculate_autov2_hash(b"model b"));
}
