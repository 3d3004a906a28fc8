use splice_core::config::{Config, ConfigError};
use splice_core::engine::state::LayoutDoc;
use splice_core::input::InputMode;
use splice_core::input_settings::{CrossingPolicy, InputSettings, Mode, SettingsError, POINT};
use splice_core::machine::{MachineId, Stamp};
use std::sync::Arc;

#[test]
fn a_machine_starts_with_sound_defaults() {
    let config = Config::default();
    assert!(config.master_enabled);
    assert!(config.clipboard_sync);
    assert_eq!(*config.panic_chord, vec![42, 54, 1]);
    assert!(config.layout.is_none());
    assert_eq!(config.edge_dwell_ms, 0);
    assert_eq!(config.corner_dead_zone, 16);
    assert_eq!(config.validate(false), Ok(()));
}

#[test]
fn a_chord_needs_keys_that_exist() {
    let mut config = Config { panic_chord: Arc::new(vec![]), ..Config::default() };
    assert_eq!(config.validate(true), Err(ConfigError::EmptyChord));
    for (code, sound) in [(0, false), (1, true), (0x2ff, true), (0x300, false)] {
        config.panic_chord = Arc::new(vec![42, code]);
        let expected = if sound { Ok(()) } else { Err(ConfigError::ChordCode) };
        assert_eq!(config.validate(true), expected);
    }
    config.panic_chord = Arc::new(vec![1]);
    config.layout = Some(Arc::new(LayoutDoc {
        stamp: Stamp { lamport: 3, writer: MachineId("a".into()) },
        machines: vec![],
        sensitivity: vec![],
    }));
    assert_eq!(config.validate(true), Ok(()));
    assert_eq!(config.validate(false), Err(ConfigError::Layout));
}

fn settings(crossing: CrossingPolicy) -> InputSettings {
    InputSettings { destinations: vec![], focus_lock: false, crossing }
}

#[test]
fn crossing_policies_have_limits() {
    let dwell = |milliseconds| settings(CrossingPolicy::Dwell { milliseconds }).validate();
    assert_eq!(dwell(49), Err(SettingsError::Dwell));
    assert_eq!(dwell(0), Err(SettingsError::Dwell));
    assert_eq!(dwell(50), Ok(()));
    assert_eq!(dwell(5000), Ok(()));
    assert_eq!(dwell(5001), Err(SettingsError::Dwell));
    let resistance = |points: i64, decay: i64| {
        settings(CrossingPolicy::Resistance {
            points: points * POINT,
            decay_per_second: decay * POINT,
        })
        .validate()
    };
    assert_eq!(resistance(73, 24), Ok(()));
    assert_eq!(resistance(4, 0), Err(SettingsError::Resistance));
    assert_eq!(resistance(1001, 0), Err(SettingsError::Resistance));
    assert_eq!(resistance(100, -1), Err(SettingsError::Resistance));
    let mut many = settings(CrossingPolicy::Immediate);
    for n in 0..1025 {
        many.destinations.push(Mode { machine: MachineId(format!("{n}")), mode: InputMode::Raw });
    }
    assert_eq!(many.validate(), Err(SettingsError::Destinations));
}

#[test]
fn a_machine_has_the_mode_that_was_chosen_last() {
    let mut settings = InputSettings::first_run(0).unwrap();
    let linux = MachineId("linux".into());
    assert_eq!(settings.mode(&linux), InputMode::Desktop);
    settings.set_mode(linux.clone(), InputMode::Raw);
    assert_eq!(settings.mode(&linux), InputMode::Raw);
    assert_eq!(settings.mode(&MachineId("mac".into())), InputMode::Desktop);
    settings.set_mode(linux.clone(), InputMode::Desktop);
    assert_eq!(settings.mode(&linux), InputMode::Desktop);
    assert_eq!(InputSettings::first_run(100).unwrap().crossing, CrossingPolicy::Dwell {
        milliseconds: 100
    });
    assert!(InputSettings::first_run(10).is_err());
}
