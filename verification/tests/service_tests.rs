use orderbook::output::CreateOrderResponse;
use orderbook::persist::worker::{get_checksum_hash, snapshot_changed, snapshot_payload, snapshot_step};
use orderbook::route::header_names_wincode;
use orderbook::text::u64_to_decimal;
use sha2::{Digest, Sha256};

fn reference_checksum(asks: &[u8], bids: &[u8], offset: i64, partition: i32) -> String {
    let mut hasher = Sha256::new();
    hasher.update((asks.len() as u64).to_le_bytes());
    hasher.update(asks);
    hasher.update((bids.len() as u64).to_le_bytes());
    hasher.update(bids);
    hasher.update(offset.to_le_bytes());
    hasher.update(partition.to_le_bytes());
    hasher.finalize().iter().map(|b| format!("{:02x}", b)).collect()
}

#[test]
fn checksum_matches_incremental_sha256() {
    let asks = vec![1u8, 2, 3];
    let bids = vec![9u8; 40];
    let c = get_checksum_hash(&asks, &bids, &-1, &-1);
    assert_eq!(c, reference_checksum(&asks, &bids, -1, -1));
    assert_eq!(c.len(), 64);
    let c2 = get_checksum_hash(&asks, &bids, &1234, &7);
    assert_eq!(c2, reference_checksum(&asks, &bids, 1234, 7));
    assert_ne!(c, c2);
}

#[test]
fn checksum_of_empty_snapshot() {
    let c = get_checksum_hash(&vec![], &vec![], &0, &0);
    assert_eq!(c, reference_checksum(&[], &[], 0, 0));
    assert!(c.chars().all(|ch| ch.is_ascii_hexdigit() && !ch.is_ascii_uppercase()));
}

#[test]
fn snapshot_stored_only_when_checksum_changes() {
    let a = "abc".to_string();
    assert!(snapshot_changed(&None, &a));
    assert!(!snapshot_changed(&Some("abc".to_string()), &a));
    assert!(snapshot_changed(&Some("abd".to_string()), &a));
}

#[test]
fn wincode_content_types() {
    assert!(header_names_wincode(Some(&b"application/octet-stream"[..])));
    assert!(header_names_wincode(Some(&b"application/x-wincode; v=1"[..])));
    assert!(!header_names_wincode(Some(&b"application/json"[..])));
    assert!(!header_names_wincode(None));
    assert!(!header_names_wincode(Some(&b""[..])));
    assert!(header_names_wincode(Some(&b"\twincode"[..])));
}

#[test]
fn wincode_needs_readable_header() {
    assert!(!header_names_wincode(Some(&b"wincode\x7f"[..])));
    assert!(!header_names_wincode(Some(&b"wincode\n"[..])));
    assert!(!header_names_wincode(Some(&[b'w', b'i', b'n', b'c', b'o', b'd', b'e', 0xc3][..])));
}

#[test]
fn decimal_formatting() {
    assert_eq!(u64_to_decimal(0), "0");
    assert_eq!(u64_to_decimal(7), "7");
    assert_eq!(u64_to_decimal(10), "10");
    assert_eq!(u64_to_decimal(1234567890), "1234567890");
    assert_eq!(u64_to_decimal(u64::MAX), u64::MAX.to_string());
}

#[test]
fn create_order_response_carries_decimal_id() {
    assert_eq!(CreateOrderResponse::for_order(42).order_id, "42");
}

#[test]
fn snapshot_payload_encodes_and_checksums() {
    let asks: Vec<[u64; 2]> = vec![[101, 2], [103, 3]];
    let bids: Vec<[u64; 2]> = vec![[99, 6]];
    let (a, b, c) = snapshot_payload(&asks, &bids, 12, 3).unwrap();
    assert_eq!(a, wincode::serialize(&asks).unwrap());
    assert_eq!(b, wincode::serialize(&bids).unwrap());
    assert_eq!(a.len(), 8 + 2 * 16);
    assert_eq!(&a[0..8], &2u64.to_le_bytes()[..]);
    assert_eq!(&a[8..16], &101u64.to_le_bytes()[..]);
    assert_eq!(c, reference_checksum(&a, &b, 12, 3));
    assert_eq!(c, get_checksum_hash(&a, &b, &12, &3));
}

#[test]
fn snapshot_payload_of_empty_depth() {
    let (a, b, c) = snapshot_payload(&vec![], &vec![], 0, 0).unwrap();
    assert_eq!(a, 0u64.to_le_bytes().to_vec());
    assert_eq!(b, 0u64.to_le_bytes().to_vec());
    assert_eq!(c, reference_checksum(&a, &b, 0, 0));
}

#[test]
fn snapshot_payload_byte_layout() {
    let asks: Vec<[u64; 2]> = vec![[101, 2], [u64::MAX, 0x0102_0304_0506_0708]];
    let (a, _, _) = snapshot_payload(&asks, &vec![], 0, 0).unwrap();
    let mut expected: Vec<u8> = 2u64.to_le_bytes().to_vec();
    for l in &asks {
        expected.extend_from_slice(&l[0].to_le_bytes());
        expected.extend_from_slice(&l[1].to_le_bytes());
    }
    assert_eq!(a, expected);
}

#[test]
fn snapshot_step_stores_only_changes() {
    let a = "abc".to_string();
    let (store, last) = snapshot_step(None, &a);
    assert!(store);
    assert_eq!(last, Some("abc".to_string()));
    let (store, last) = snapshot_step(last, &a);
    assert!(!store);
    assert_eq!(last, Some("abc".to_string()));
    let b = "abd".to_string();
    let (store, last) = snapshot_step(last, &b);
    assert!(store);
    assert_eq!(last, Some("abd".to_string()));
}
