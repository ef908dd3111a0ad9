use soundcore_lib5_core::error::BleError;
use soundcore_lib5_core::gatt::{
    characteristic_snapshot, find_characteristic, is_readable, property_names, supports_notifications,
};

#[test]
fn property_names_in_fixed_order() {
    assert_eq!(property_names(0x3e), vec!["read", "write", "writeWithoutResponse", "notify", "indicate"]);
    assert_eq!(property_names(0x1a), vec!["read", "write", "notify"]);
    assert!(property_names(0xc1).is_empty());
    assert!(is_readable(0x02));
    assert!(!is_readable(0x10));
    assert!(supports_notifications(0x20));
    assert!(!supports_notifications(0x0f));
}

#[test]
fn snapshot_records_read_outcome() {
    let read = characteristic_snapshot(1, 2, 0x02, Some(Ok(vec![0xde, 0xad, 0x01])));
    assert_eq!(read.value_hex.as_deref(), Some("dead01"));
    assert_eq!(read.error, None);
    assert_eq!(read.properties, vec!["read"]);
    let failed = characteristic_snapshot(1, 2, 0x02, Some(Err("denied".to_string())));
    assert_eq!(failed.value_hex, None);
    assert_eq!(failed.error.as_deref(), Some("denied"));
    let unread = characteristic_snapshot(3, 4, 0x10, None);
    assert_eq!((unread.service_uuid, unread.characteristic_uuid), (3, 4));
    assert_eq!(unread.value_hex, None);
    assert_eq!(unread.error, None);
}

#[test]
fn characteristic_lookup_by_service_and_uuid() {
    let keys = vec![(1u128, 2u128), (1, 3), (4, 3)];
    assert_eq!(find_characteristic(&keys, 1, 3), Ok(1));
    assert_eq!(find_characteristic(&keys, 4, 3), Ok(2));
    assert_eq!(find_characteristic(&keys, 4, 2), Err(BleError::NotFound));
}
