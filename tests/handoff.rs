use selfstorage::handoff::{
    mode_name, parse_pid, startup_action, startup_mode, store_handoff, HandoffError, StartupAction,
    StartupMode,
};

#[test]
fn modes_are_read_by_name() {
    assert_eq!(startup_mode(None), StartupMode::Normal);
    assert_eq!(startup_mode(Some("UPDATE_ORIG".as_bytes())), StartupMode::UpdateOrig);
    assert_eq!(startup_mode(Some("KILL_EVIL_TWIN".as_bytes())), StartupMode::KillEvilTwin);
    assert_eq!(startup_mode(Some("update_orig".as_bytes())), StartupMode::Normal);
    assert_eq!(startup_mode(Some("".as_bytes())), StartupMode::Normal);
    assert_eq!(mode_name(StartupMode::UpdateOrig), b"UPDATE_ORIG".to_vec());
    assert_eq!(mode_name(StartupMode::KillEvilTwin), b"KILL_EVIL_TWIN".to_vec());
    assert!(mode_name(StartupMode::Normal).is_empty());
}

#[test]
fn pids_are_parsed_in_decimal() {
    assert_eq!(parse_pid(b"0"), Some(0));
    assert_eq!(parse_pid(b"4321"), Some(4321));
    assert_eq!(parse_pid(b"4294967295"), Some(u32::MAX));
    assert_eq!(parse_pid(b"4294967296"), None);
    assert_eq!(parse_pid(b"99999999999999999999"), None);
    assert_eq!(parse_pid(b""), None);
    assert_eq!(parse_pid(b"12a"), None);
    assert_eq!(parse_pid(b"-1"), None);
}

#[test]
fn store_starts_update_of_original() {
    let state = store_handoff(77, "/bin/app".to_string());
    assert_eq!(state.twin_pid, 77);
    assert_eq!(state.twin_path, "/bin/app");
    assert_eq!(state.mode, StartupMode::UpdateOrig);
}

#[test]
fn normal_startup_proceeds() {
    let r = startup_action(None, None, None, 5, "/bin/app".to_string());
    assert!(matches!(r, Ok(StartupAction::Proceed)));
    let r = startup_action(Some("OTHER".as_bytes()), None, None, 5, "/bin/app".to_string());
    assert!(matches!(r, Ok(StartupAction::Proceed)));
}

#[test]
fn twin_replaces_original() {
    let r = startup_action(
        Some("UPDATE_ORIG".as_bytes()),
        Some("/bin/app".to_string()),
        Some("100".as_bytes()),
        200,
        "/bin/evil_twin.exe".to_string(),
    );
    match r {
        Ok(StartupAction::ReplaceOriginal { kill_pid, original_path, next }) => {
            assert_eq!(kill_pid, 100);
            assert_eq!(original_path, "/bin/app");
            assert_eq!(next.twin_pid, 200);
            assert_eq!(next.twin_path, "/bin/evil_twin.exe");
            assert_eq!(next.mode, StartupMode::KillEvilTwin);
        }
        _ => panic!("expected the twin to replace the original"),
    }
}

#[test]
fn original_removes_twin() {
    let r = startup_action(
        Some("KILL_EVIL_TWIN".as_bytes()),
        Some("/bin/evil_twin.exe".to_string()),
        Some("200".as_bytes()),
        300,
        "/bin/app".to_string(),
    );
    match r {
        Ok(StartupAction::RemoveTwin { kill_pid, twin_path }) => {
            assert_eq!(kill_pid, 200);
            assert_eq!(twin_path, "/bin/evil_twin.exe");
        }
        _ => panic!("expected the original to remove the twin"),
    }
}

#[test]
fn handoff_errors() {
    let r = startup_action(Some("UPDATE_ORIG".as_bytes()), None, Some("1".as_bytes()), 2, "a".to_string());
    assert_eq!(r.err(), Some(HandoffError::MissingTwinPath));
    let r = startup_action(Some("KILL_EVIL_TWIN".as_bytes()), Some("p".to_string()), None, 2, "a".to_string());
    assert_eq!(r.err(), Some(HandoffError::MissingTwinPid));
    let r = startup_action(Some("UPDATE_ORIG".as_bytes()), Some("p".to_string()), Some("x1".as_bytes()), 2, "a".to_string());
    assert_eq!(r.err(), Some(HandoffError::BadTwinPid));
}
