use graphite_studio::preferences::{compatible_mode, is_legacy_intel, preferences_size_ok, startup_mode, AccelerationMode, Preferences};

#[test]
fn reference_intel_and_startup_overrides() {
    assert!(is_legacy_intel("PCI\\VEN_8086&DEV_0102&SUBSYS_21118086&REV_09"));
    assert!(!is_legacy_intel("PCI\\VEN_8086&DEV_1912"));
    assert!(!is_legacy_intel("PCI\\VEN_1002&DEV_744C"));
    assert_eq!(
        AccelerationMode::from_args(&["--xtx".to_string(), "--intel-hd".to_string()]),
        Some(AccelerationMode::IntelHd)
    );
    for mode in AccelerationMode::all() {
        assert_eq!(compatible_mode(mode, true), AccelerationMode::IntelHd);
        assert_eq!(compatible_mode(mode, false), mode);
    }
}

#[test]
fn legacy_ids_compare_without_case() {
    assert!(is_legacy_intel("pci\\ven_8086&dev_0126"));
    assert!(!is_legacy_intel("DEV_0102"));
}

#[test]
fn last_switch_wins_and_other_arguments_are_ignored() {
    assert_eq!(AccelerationMode::from_args(&[]), None);
    assert_eq!(AccelerationMode::from_args(&["app".to_string(), "--general".to_string(), "x".to_string()]), Some(AccelerationMode::General));
    assert_eq!(AccelerationMode::from_args(&["--xtx".to_string()]), Some(AccelerationMode::Radeon7900Xtx));
}

#[test]
fn startup_prefers_arguments_then_saved_choice() {
    assert_eq!(startup_mode(None, None, false), AccelerationMode::General);
    assert_eq!(startup_mode(None, Some(AccelerationMode::Radeon7900Xtx), false), AccelerationMode::Radeon7900Xtx);
    assert_eq!(startup_mode(Some(AccelerationMode::General), Some(AccelerationMode::Radeon7900Xtx), false), AccelerationMode::General);
    assert_eq!(startup_mode(Some(AccelerationMode::General), None, true), AccelerationMode::IntelHd);
}

#[test]
fn profiles_describe_their_update_rates() {
    assert_eq!(AccelerationMode::General.updates_per_second(), 60);
    assert_eq!(AccelerationMode::Radeon7900Xtx.updates_per_second(), 120);
    assert_eq!(AccelerationMode::IntelHd.updates_per_second(), 30);
    assert_eq!(AccelerationMode::Radeon7900Xtx.label(), "AMD Radeon 7900 XTX");
    assert!(AccelerationMode::IntelHd.description().contains("up to 30 canvas updates/s"));
    assert_eq!(AccelerationMode::default(), AccelerationMode::General);
}

#[test]
fn default_preferences_keep_ten_recent_files() {
    let p = Preferences::default();
    assert_eq!(p.acceleration, AccelerationMode::General);
    assert_eq!(p.recent_files.maximum(), 10);
    assert!(preferences_size_ok(2 * 1024 * 1024));
    assert!(!preferences_size_ok(2 * 1024 * 1024 + 1));
}
