use soundcore_lib5_core::error::BleError;
use soundcore_lib5_core::profile::{CommandProfile, FeatureAvailability, ProfileCommand};

#[test]
fn embedded_profile_parses_verified_rfcomm_commands() {
    let profile = CommandProfile::embedded().expect("gömülü profil geçerli olmalı");
    assert_eq!(profile.device_name_pattern, "soundcore Liberty 5");
    assert_eq!(profile.control_service_uuid_text(), "0cf12d31-fac3-4553-bd80-d6832e7b3957");
    let anc = profile.command("anc").expect("anc komutu olmalı");
    assert_eq!(anc.command, 0x8106);
    assert_eq!(anc.payload_hex("On").map(String::as_str), Some("001000010001"));
    assert_eq!(anc.payload_hex("Transparency").map(String::as_str), Some("011000010001"));
    assert_eq!(anc.payload_hex("Off").map(String::as_str), Some("021000010001"));
}

#[test]
fn missing_commands_are_not_supported() {
    let profile = CommandProfile::embedded().expect("gömülü profil geçerli olmalı");
    // Commands not verified on a device are not part of the profile.
    assert!(profile.command("eqPreset").is_none());
}

#[test]
fn verified_game_mode_and_battery_payloads() {
    let profile = CommandProfile::embedded().expect("gömülü profil geçerli olmalı");
    let game = profile.command("gameMode").expect("gameMode komutu olmalı");
    assert_eq!(game.command, 0x8510);
    assert_eq!(game.payload_hex("On").map(String::as_str), Some("01"));
    assert_eq!(game.payload_hex("Off").map(String::as_str), Some("00"));
    let battery = profile.command("battery").expect("battery komutu olmalı");
    assert_eq!(battery.command, 0x0301);
    assert_eq!(battery.payload_hex("request").map(String::as_str), Some(""));
}

#[test]
fn invalid_hex_is_a_profile_error() {
    let mut profile = CommandProfile::embedded().expect("gömülü profil geçerli olmalı");
    profile.insert_command(
        "anc".to_string(),
        ProfileCommand { command: 0x8106, payloads: vec![("On".to_string(), "zz".to_string())] },
    );
    assert!(matches!(profile.payload("anc", "On"), Err(BleError::Profile(_))));
}

#[test]
fn payload_decodes_hex_of_each_option() {
    let profile = CommandProfile::embedded().unwrap();
    assert_eq!(profile.payload("anc", "On").unwrap(), vec![0x00, 0x10, 0x00, 0x01, 0x00, 0x01]);
    assert_eq!(profile.payload("anc", "Transparency").unwrap(), vec![0x01, 0x10, 0x00, 0x01, 0x00, 0x01]);
    assert_eq!(profile.payload("anc", "Off").unwrap(), vec![0x02, 0x10, 0x00, 0x01, 0x00, 0x01]);
    assert_eq!(profile.payload("gameMode", "On").unwrap(), vec![0x01]);
    assert_eq!(profile.payload("battery", "request").unwrap(), Vec::<u8>::new());
    assert_eq!(profile.payload("deviceInfo", "request").unwrap(), Vec::<u8>::new());
}

#[test]
fn payload_errors_name_what_is_missing() {
    let profile = CommandProfile::embedded().unwrap();
    assert_eq!(profile.payload("eqPreset", "On"), Err(BleError::Profile("eqPreset komutu profilde yok".to_string())));
    assert_eq!(profile.payload("anc", "Loud"), Err(BleError::Profile("anc/Loud profilde yok".to_string())));
}

#[test]
fn undecodable_payload_reports_hex_error_text() {
    let mut profile = CommandProfile::embedded().unwrap();
    profile.insert_command(
        "anc".to_string(),
        ProfileCommand {
            command: 0x8106,
            payloads: vec![("On".to_string(), "zz".to_string()), ("Off".to_string(), "123".to_string())],
        },
    );
    assert_eq!(
        profile.payload("anc", "On"),
        Err(BleError::Profile("anc/On hex çözülemedi: Invalid character 'z' at position 0".to_string()))
    );
    assert_eq!(
        profile.payload("anc", "Off"),
        Err(BleError::Profile("anc/Off hex çözülemedi: Odd number of digits".to_string()))
    );
}

#[test]
fn validate_accepts_embedded_and_reports_first_problem() {
    let profile = CommandProfile::embedded().unwrap();
    assert_eq!(profile.validate(), Ok(()));

    let mut nil = profile.clone();
    nil.control_service_uuid = 0;
    assert_eq!(nil.validate(), Err(BleError::Profile("controlServiceUuid eksik".to_string())));

    let mut zero = profile.clone();
    zero.insert_command("gameMode".to_string(), ProfileCommand { command: 0, payloads: vec![] });
    assert_eq!(zero.validate(), Err(BleError::Profile("gameMode komut kodu 0 olamaz".to_string())));

    let mut bad = profile.clone();
    bad.insert_command(
        "anc".to_string(),
        ProfileCommand { command: 0x8106, payloads: vec![("On".to_string(), "0g".to_string())] },
    );
    assert_eq!(bad.validate(), Err(BleError::Profile("anc/On geçersiz hex: 0g".to_string())));
}

#[test]
fn insert_command_replaces_only_its_kind() {
    let mut profile = CommandProfile::embedded().unwrap();
    let count = profile.commands.len();
    profile.insert_command("anc".to_string(), ProfileCommand { command: 0x1234, payloads: vec![] });
    assert_eq!(profile.commands.len(), count);
    assert_eq!(profile.command("anc").unwrap().command, 0x1234);
    assert_eq!(profile.command("gameMode").unwrap().command, 0x8510);
    profile.insert_command("eqPreset".to_string(), ProfileCommand { command: 0x8110, payloads: vec![] });
    assert_eq!(profile.commands.len(), count + 1);
    assert_eq!(profile.command("eqPreset").unwrap().command, 0x8110);
}

#[test]
fn capabilities_follow_profile_options() {
    let mut profile = CommandProfile::embedded().unwrap();
    assert_eq!(profile.capabilities(), FeatureAvailability { anc: true, game_mode: true, eq_preset: false });
    assert!(profile.eq_preset_list().is_empty());
    profile.eq_presets.push(("01".to_string(), "Bass".to_string()));
    assert_eq!(profile.capabilities().eq_preset, false);
    profile.insert_command(
        "eqPreset".to_string(),
        ProfileCommand { command: 0x8110, payloads: vec![("01".to_string(), "010101".to_string())] },
    );
    assert_eq!(profile.capabilities().eq_preset, true);
    assert_eq!(profile.eq_preset_list(), vec![("01".to_string(), "Bass".to_string())]);
    profile.insert_command("gameMode".to_string(), ProfileCommand { command: 0x8510, payloads: vec![] });
    assert_eq!(profile.capabilities().game_mode, false);
}

#[test]
fn every_option_of_a_validated_profile_decodes() {
    let profile = CommandProfile::embedded().unwrap();
    assert_eq!(profile.validate(), Ok(()));
    for (kind, command) in &profile.commands {
        for (option, _) in &command.payloads {
            assert!(profile.payload(kind, option).is_ok(), "{kind}/{option}");
        }
    }
}

#[test]
fn profile_names_are_unique_and_stay_so() {
    let mut profile = CommandProfile::embedded().unwrap();
    profile.insert_command("anc".to_string(), ProfileCommand { command: 0x8106, payloads: vec![] });
    let mut kinds: Vec<&String> = profile.commands.iter().map(|(k, _)| k).collect();
    kinds.sort();
    kinds.dedup();
    assert_eq!(kinds.len(), profile.commands.len());
}
