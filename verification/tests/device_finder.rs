use soundcore_lib5_core::error::BleError;
use soundcore_lib5_core::finder::{
    ble_device_list, bt_address_string, display_name, is_liberty_name, matching_devices, merge_unique, nonblank_name,
    paired_liberty_devices_from, resolve_liberty_peripheral, select_device, DiscoveredDevice, LibertyDeviceInfo,
    PairedEntry, SelectError,
};

fn device(id: &str, name: &str, address: &str, handle: u32) -> DiscoveredDevice<u32> {
    DiscoveredDevice {
        info: LibertyDeviceInfo {
            device_id: id.to_string(),
            name: name.to_string(),
            address: address.to_string(),
            connected: false,
        },
        peripheral: handle,
    }
}

#[test]
fn liberty_names_ignore_case() {
    assert!(is_liberty_name("soundcore Liberty 5"));
    assert!(is_liberty_name("LIBERTY"));
    assert!(!is_liberty_name("Liberté"));
    assert!(!is_liberty_name(""));
}

#[test]
fn display_name_prefers_local_then_advertised() {
    assert_eq!(display_name(Some("A".to_string()), Some("B".to_string()), "00:11"), "A");
    assert_eq!(display_name(None, Some("B".to_string()), "00:11"), "B");
    assert_eq!(display_name(None, None, "00:11"), "Bluetooth 00:11");
    assert_eq!(nonblank_name("  \t".to_string()), None);
    assert_eq!(nonblank_name(" Liberty ".to_string()), Some(" Liberty ".to_string()));
}

#[test]
fn merge_skips_known_identifiers() {
    let mut target = vec![device("a", "Liberty", "1", 1)];
    merge_unique(&mut target, vec![device("b", "Liberty", "2", 2), device("a", "x", "3", 3), device("b", "y", "4", 4)]);
    let ids: Vec<&str> = target.iter().map(|d| d.info.device_id.as_str()).collect();
    assert_eq!(ids, vec!["a", "b"]);
    assert_eq!(target[1].peripheral, 2);
    assert_eq!(target[0].peripheral, 1);
}

#[test]
fn address_text_is_upper_hex_with_colons() {
    assert_eq!(bt_address_string(0x2a10f18c5bfc), "2A:10:F1:8C:5B:FC");
    assert_eq!(bt_address_string(0), "00:00:00:00:00:00");
    assert_eq!(bt_address_string(0xffff_0102_0304_0506), "01:02:03:04:05:06");
}

#[test]
fn paired_listing_prefers_classic_and_skips_repeated_names() {
    let classic = vec![
        PairedEntry { name: "soundcore Liberty 5".to_string(), address: Some(0xdce55cd9bf90) },
        PairedEntry { name: "Keyboard".to_string(), address: Some(1) },
    ];
    let le = vec![
        PairedEntry { name: "SOUNDCORE LIBERTY 5".to_string(), address: Some(0x2a10f18c5bfc) },
        PairedEntry { name: "Liberty 4".to_string(), address: None },
        PairedEntry { name: "liberty 4".to_string(), address: Some(7) },
    ];
    let devices = paired_liberty_devices_from(&classic, &le);
    assert_eq!(devices.len(), 2);
    assert_eq!(devices[0].device_id, "classic:DC:E5:5C:D9:BF:90");
    assert_eq!(devices[0].name, "soundcore Liberty 5");
    assert_eq!(devices[0].address, "DC:E5:5C:D9:BF:90");
    assert!(!devices[0].connected);
    assert_eq!(devices[1].device_id, "le:—");
    assert_eq!(devices[1].name, "Liberty 4");
    assert_eq!(devices[1].address, "—");
    assert!(paired_liberty_devices_from(&vec![], &vec![]).is_empty());
}

#[test]
fn query_matches_id_name_or_address() {
    let devices = vec![
        device("BT-1", "soundcore Liberty 5", "AA:BB", 1),
        device("bt-2", "Liberty 4 NC", "CC:DD", 2),
    ];
    assert_eq!(matching_devices(devices.clone(), "liberty").len(), 2);
    assert_eq!(matching_devices(devices.clone(), "bt-1")[0].peripheral, 1);
    assert_eq!(matching_devices(devices.clone(), "cc:dd")[0].peripheral, 2);
    assert!(matching_devices(devices.clone(), "bt").is_empty());

    assert_eq!(select_device(devices.clone(), "4 NC").map(|d| d.peripheral), Ok(2));
    assert_eq!(select_device(devices.clone(), "LIBERTY").map(|d| d.peripheral), Err(SelectError::Ambiguous));
    assert_eq!(select_device(devices.clone(), "zzz").map(|d| d.peripheral), Err(SelectError::NoMatch));
    assert_eq!(resolve_liberty_peripheral(devices.clone(), "aa:bb").map(|d| d.peripheral), Ok(1));
    assert_eq!(
        resolve_liberty_peripheral(devices, "liberty").map(|d| d.peripheral),
        Err(BleError::NotFound)
    );
}

#[test]
fn ble_devices_are_listed_when_any_was_found() {
    assert!(ble_device_list(Vec::<DiscoveredDevice<u32>>::new()).is_none());
    let listed = ble_device_list(vec![device("a", "Liberty 5", "1", 1), device("b", "Liberty 4", "2", 2)]).unwrap();
    let ids: Vec<&str> = listed.iter().map(|d| d.device_id.as_str()).collect();
    assert_eq!(ids, vec!["a", "b"]);
}
