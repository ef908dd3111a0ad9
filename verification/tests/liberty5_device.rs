use soundcore_lib5_core::device::{
    acknowledged, anc_request, audio_mode, battery_from_frames, battery_request, decode_battery,
    decode_device_info, device_info_request, game_mode_request, require_ack, retry_action, set_eq_preset, RetryAction,
    AncMode, BatteryStatus,
};
use soundcore_lib5_core::error::{user_error, BleError};
use soundcore_lib5_core::frame::Frame;
use soundcore_lib5_core::profile::{CommandProfile, ProfileCommand};

fn frame(command: u16, payload: &[u8]) -> Frame {
    Frame { command, payload: payload.to_vec() }
}

#[test]
fn battery_decode_matches_verified_device_values() {
    let status = decode_battery(&[0x09, 0x06, 0x06]);
    assert_eq!(status.left, Some(100));
    assert_eq!(status.right, Some(70));
    assert_eq!(status.case, Some(70));
}

#[test]
fn battery_decode_handles_low_values() {
    let status = decode_battery(&[0x00, 0x01, 0x05]);
    assert_eq!(status.left, Some(10));
    assert_eq!(status.right, Some(20));
    assert_eq!(status.case, Some(60));
}

#[test]
fn battery_decode_without_percentage_for_large_values() {
    let status = decode_battery(&[24, 25, 255]);
    assert_eq!(status.left, Some(250));
    assert_eq!(status.right, None);
    assert_eq!(status.case, None);
}

#[test]
fn anc_mode_names_roundtrip() {
    for mode in [AncMode::Off, AncMode::Transparency, AncMode::On] {
        assert_eq!(AncMode::parse(mode.as_str()), Ok(mode));
    }
    assert_eq!(AncMode::On.as_str(), "On");
    assert_eq!(AncMode::parse("on"), Err(BleError::InvalidAncMode("on".to_string())));
    assert_eq!(
        user_error(&AncMode::parse("Loud").unwrap_err()),
        "Geçersiz ANC modu: Loud"
    );
}

#[test]
fn mode_byte_mapping_and_cycle() {
    assert_eq!(AncMode::from_mode_byte(0x00), Some(AncMode::On));
    assert_eq!(AncMode::from_mode_byte(0x01), Some(AncMode::Transparency));
    assert_eq!(AncMode::from_mode_byte(0x02), Some(AncMode::Off));
    assert_eq!(AncMode::from_mode_byte(0x03), None);
    assert_eq!(AncMode::Off.next_in_cycle(), AncMode::Transparency);
    assert_eq!(AncMode::Transparency.next_in_cycle(), AncMode::On);
    assert_eq!(AncMode::On.next_in_cycle(), AncMode::Off);
    assert_eq!(AncMode::Off.next_in_cycle().next_in_cycle().next_in_cycle(), AncMode::Off);
}

#[test]
fn reported_mode_defaults_to_on() {
    assert_eq!(AncMode::from_reported(&Some("Transparency".to_string())), AncMode::Transparency);
    assert_eq!(AncMode::from_reported(&Some("Off".to_string())), AncMode::Off);
    assert_eq!(AncMode::from_reported(&Some("On".to_string())), AncMode::On);
    assert_eq!(AncMode::from_reported(&None), AncMode::On);
}

#[test]
fn audio_mode_notification_is_read() {
    assert_eq!(audio_mode(&frame(0x0106, &[0x02])), Some(AncMode::Off));
    assert_eq!(audio_mode(&frame(0x0106, &[])), None);
    assert_eq!(audio_mode(&frame(0x0107, &[0x00])), None);
}

#[test]
fn device_info_from_captured_frames() {
    let mut payload = vec![0x01, 0x00, 0xff, 0x08, 0x00, 0x00];
    payload.extend_from_slice(b"04.9004.90395790BFD95CE5DC0");
    payload.resize(154, 0);
    let frames = vec![frame(0x0103, &[0x01]), frame(0x0101, &payload), frame(0x0106, &[0x01])];
    let info = decode_device_info(&frames);
    assert_eq!(info.serial.as_deref(), Some("395790BFD95CE5DC"));
    assert_eq!(info.firmware.as_deref(), Some("04.90"));
    assert_eq!(info.anc_mode.as_deref(), Some("Transparency"));

    let mut differing = payload.clone();
    differing[11..16].copy_from_slice(b"04.91");
    let info = decode_device_info(&vec![frame(0x0101, &differing)]);
    assert_eq!(info.firmware.as_deref(), Some("04.90/04.91"));
    assert_eq!(info.anc_mode, None);

    let short = decode_device_info(&vec![frame(0x0101, &payload[..31])]);
    assert_eq!(short.serial, None);
    assert_eq!(short.firmware, None);
}

#[test]
fn requests_come_from_the_profile() {
    let profile = CommandProfile::embedded().unwrap();
    assert_eq!(device_info_request(&profile), Ok((0x0101, vec![])));
    assert_eq!(anc_request(&profile, AncMode::On), Ok((0x8106, vec![0x00, 0x10, 0x00, 0x01, 0x00, 0x01])));
    assert_eq!(anc_request(&profile, AncMode::Off), Ok((0x8106, vec![0x02, 0x10, 0x00, 0x01, 0x00, 0x01])));
    assert_eq!(game_mode_request(&profile, true), Ok((0x8510, vec![0x01])));
    assert_eq!(game_mode_request(&profile, false), Ok((0x8510, vec![0x00])));
    assert_eq!(battery_request(&profile), Ok((0x0301, vec![])));

    let mut without_game = profile.clone();
    without_game.insert_command("gameMode".to_string(), ProfileCommand { command: 0x8510, payloads: vec![] });
    assert_eq!(game_mode_request(&without_game, true), Err(BleError::NotSupported));

    let mut without_anc = profile.clone();
    without_anc.commands.retain(|(kind, _)| kind != "anc");
    assert_eq!(anc_request(&without_anc, AncMode::On), Err(BleError::NotSupported));

    let mut without_info = profile.clone();
    without_info.commands.retain(|(kind, _)| kind != "deviceInfo");
    assert_eq!(device_info_request(&without_info), Err(BleError::NotSupported));

    let mut bad_hex = profile.clone();
    bad_hex.insert_command(
        "battery".to_string(),
        ProfileCommand { command: 0x0301, payloads: vec![("request".to_string(), "0".to_string())] },
    );
    assert_eq!(
        battery_request(&bad_hex),
        Err(BleError::Profile("battery/request hex çözülemedi: Odd number of digits".to_string()))
    );
}

#[test]
fn acknowledgement_needs_empty_payload_of_same_command() {
    let frames = vec![frame(0x017f, &[0x00]), frame(0x8510, &[])];
    assert!(acknowledged(&frames, 0x8510));
    assert!(!acknowledged(&frames, 0x8106));
    assert_eq!(require_ack(&frames, 0x8510, "Game Mode"), Ok(()));
    assert_eq!(
        require_ack(&frames, 0x8106, "ANC"),
        Err(BleError::Connection("ANC komutuna onay alınamadı".to_string()))
    );
    assert!(!acknowledged(&vec![frame(0x8106, &[0x00])], 0x8106));
}

#[test]
fn battery_from_first_long_enough_frame() {
    let frames = vec![frame(0x0301, &[]), frame(0x0301, &[0x09, 0x07, 0x06]), frame(0x0301, &[0x00, 0x00, 0x00])];
    assert_eq!(
        battery_from_frames(&frames, 0x0301),
        BatteryStatus { left: Some(100), right: Some(80), case: Some(70) }
    );
    assert_eq!(battery_from_frames(&vec![frame(0x0301, &[0x01])], 0x0301), BatteryStatus::default());
}

#[test]
fn eq_preset_is_locked_and_retry_is_once() {
    assert_eq!(set_eq_preset("01"), Err(BleError::NotSupported));
    assert_eq!(retry_action(1, true), RetryAction::ReopenAndResend);
    assert_eq!(retry_action(2, true), RetryAction::Return);
    assert_eq!(retry_action(1, false), RetryAction::Return);
    assert_eq!(retry_action(2, false), RetryAction::Return);
    // A run of failures: the first send is resent once, the second is returned.
    let mut sends = 1;
    while retry_action(sends, true) == RetryAction::ReopenAndResend {
        sends += 1;
    }
    assert_eq!(sends, 2);
}

#[test]
fn error_messages_match_user_texts() {
    assert_eq!(BleError::NotFound.message(), "Liberty 5 cihazı bulunamadı");
    assert_eq!(BleError::NotSupported.message(), "Bu özellik Liberty 5 profilinde doğrulanmadı");
    assert_eq!(BleError::Profile("x".to_string()).message(), "Profil hatası: x");
    assert_eq!(BleError::Bluetooth("y".to_string()).message(), "Bluetooth işlemi başarısız: y");
    assert_eq!(BleError::Windows("z".to_string()).message(), "Windows Bluetooth API hatası: z");
    assert!(BleError::Connection("c".to_string()).message().ends_with("Ayrıntı: c"));
}

#[test]
fn anc_payload_selects_the_mode_the_device_reports() {
    let profile = CommandProfile::embedded().unwrap();
    for mode in [AncMode::Off, AncMode::Transparency, AncMode::On] {
        let payload = profile.payload("anc", mode.as_str()).unwrap();
        assert_eq!(payload.len(), 6);
        assert_eq!(AncMode::from_mode_byte(payload[0]), Some(mode));
    }
}
