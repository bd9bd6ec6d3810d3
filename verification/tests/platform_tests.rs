use nalias::error::NaliasError;
use nalias::platform::{
    broadcast_environment_change, cleanup_script, decode_registry_text, defer_delete,
    registry_units_of,
    registry_byte_size, set_user_path, user_path,
};

#[test]
fn portable_backend_reports_missing_windows() {
    assert!(matches!(
        user_path(),
        Err(NaliasError::Installation(m)) if m == "user PATH integration is only available on Windows"
    ));
    assert!(matches!(set_user_path("x"), Err(NaliasError::Installation(_))));
    assert!(broadcast_environment_change().is_ok());
    assert!(matches!(
        defer_delete("a", "b"),
        Err(NaliasError::Installation(m)) if m == "deferred deletion is only available on Windows"
    ));
}

fn utf16_bytes(text: &str) -> Vec<u8> {
    text.encode_utf16().flat_map(|u| u.to_le_bytes()).collect()
}

#[test]
fn registry_text_is_decoded_up_to_nul() {
    let mut data = utf16_bytes(r"C:\A;C:\Б😀");
    data.extend_from_slice(&[0, 0, b'x', 0]);
    assert_eq!(decode_registry_text(&data).unwrap(), r"C:\A;C:\Б😀");
    assert_eq!(decode_registry_text(&[]).unwrap(), "");
    assert_eq!(decode_registry_text(&[b'a', 0, b'b']).unwrap(), "a");
    let lone = [0x00, 0xD8, b'a', 0];
    match decode_registry_text(&lone) {
        Err(NaliasError::Installation(m)) => {
            assert!(m.starts_with("the user PATH is not valid UTF-16: "), "{m}")
        }
        other => panic!("unexpected {other:?}"),
    }
}

#[test]
fn registry_sizes_fit_in_u32() {
    assert_eq!(registry_byte_size(5).unwrap(), 10);
    assert_eq!(registry_byte_size(0x7fff_ffff).unwrap(), 0xffff_fffe);
    assert!(matches!(
        registry_byte_size(0x8000_0000),
        Err(NaliasError::Installation(m)) if m == "the resulting user PATH is too large"
    ));
}

#[test]
fn cleanup_script_escapes_percent() {
    let script = cleanup_script(r"C:\100%\nalias.exe", r"C:\100%", r"C:\root");
    assert!(script.starts_with("@echo off\r\nfor /L %%N in (1,1,10) do (\r\n"));
    assert!(script.contains(r#"del /f /q "C:\100%%\nalias.exe" >nul 2>&1"#));
    assert!(script.contains(r#"rmdir "C:\100%%" >nul 2>&1"#));
    assert!(script.contains(r#"rmdir "C:\root" >nul 2>&1"#));
    assert!(script.ends_with("del /f /q \"%~f0\" >nul 2>&1\r\n"));
}

#[test]
fn registry_data_reads_back_as_written() {
    let text = "C:\\A;C:\\Б😀;%USERPROFILE%\\bin";
    let mut data = Vec::new();
    let units = registry_units_of(text);
    let expected: Vec<u16> = text.encode_utf16().chain(Some(0)).collect();
    assert_eq!(units, expected);
    assert_eq!(registry_units_of("A😀"), vec![0x41, 0xD83D, 0xDE00, 0]);
    assert_eq!(registry_units_of(""), vec![0]);
    for unit in units {
        data.extend_from_slice(&unit.to_le_bytes());
    }
    assert_eq!(decode_registry_text(&data).unwrap(), text);
}
