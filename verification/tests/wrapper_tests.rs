use nalias::app::WrapperState;
use nalias::wrapper::{is_marked, may_write, wrapper_file_name, wrapper_state, wrapper_text, MARKER};

#[test]
fn wrapper_runs_the_canonical_alias() {
    assert_eq!(
        wrapper_text("Git_Status"),
        "@rem nalias-wrapper\r\n@echo off\r\n\"%~dp0..\\nalias.exe\" run git_status %*\r\n"
    );
    assert_eq!(wrapper_file_name("GS"), "gs.cmd");
}

#[test]
fn only_marked_files_are_generated() {
    assert!(is_marked(wrapper_text("gs").as_bytes()));
    assert!(is_marked(MARKER.as_bytes()));
    assert!(is_marked(b"@rem nalias-wrapper\nanything"));
    assert!(!is_marked(b"@echo off\r\necho user-owned\r\n"));
    assert!(!is_marked(b""));
    assert!(!is_marked(b"@rem nalias-wrapper extra\r\n"));
    assert!(!is_marked(b"@rem nalias-wrapper\r"));
    assert!(!may_write(true, false));
    assert!(may_write(true, true));
    assert!(may_write(false, false));
}

#[test]
fn wrapper_states() {
    let current = wrapper_text("gs");
    assert_eq!(wrapper_state(None, "gs"), WrapperState::Missing);
    assert_eq!(wrapper_state(Some(current.as_bytes()), "GS"), WrapperState::Current);
    assert_eq!(wrapper_state(Some(b"@rem nalias-wrapper\r\n"), "gs"), WrapperState::Mismatched);
}
