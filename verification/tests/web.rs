use sit_core::web::{etag, submitted_record_links_parents};

#[test]
fn etags_are_hex_blake2b_digests() {
    assert_eq!(etag(b"testthat"), "ef9ebcc4562d63642ef13cabe77a33a6994ead7f");
    assert_eq!(etag(b""), "3345524abf6bbe1809449224b5972c41790b6cf2");
    assert_eq!(etag(b"x").len(), 40);
}

#[test]
fn submitted_records_link_unless_they_carry_links() {
    assert!(submitted_record_links_parents(&vec![]));
    assert!(submitted_record_links_parents(&vec!["text".to_string(), ".type/Commented".to_string()]));
    assert!(!submitted_record_links_parents(&vec!["text".to_string(), ".prev/ABC".to_string()]));
    assert!(submitted_record_links_parents(&vec![".prevABC".to_string()]));
}
