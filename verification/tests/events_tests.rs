use picker_hook::events::{
    classify_clsid, clsid_file_open_dialog, clsid_file_save_dialog, dll_entry_action, guid_eq,
    picker_output_paths, tray_action, CreateAction, DllAction, Guid, TrayAction, WM_COMMAND,
    WM_DESTROY, WM_TRAYICON,
};

#[test]
fn file_dialogs_are_recognised() {
    assert!(matches!(classify_clsid(&clsid_file_open_dialog()), CreateAction::OpenDialogProxy));
    assert!(matches!(classify_clsid(&clsid_file_save_dialog()), CreateAction::SaveDialogPassThrough));
    let mut other = clsid_file_open_dialog();
    other.data4[7] = 0xF6;
    assert!(matches!(classify_clsid(&other), CreateAction::PassThrough));
    let zero = Guid { data1: 0, data2: 0, data3: 0, data4: [0; 8] };
    assert!(matches!(classify_clsid(&zero), CreateAction::PassThrough));
}

#[test]
fn guid_values() {
    let open = clsid_file_open_dialog();
    assert_eq!(open.data1, 0xDC1C5A9C);
    assert_eq!(open.data4, [0xA5, 0xA1, 0x60, 0xF8, 0x2A, 0x20, 0xAE, 0xF7]);
    assert!(guid_eq(&open, &clsid_file_open_dialog()));
    assert!(!guid_eq(&open, &clsid_file_save_dialog()));
}

#[test]
fn dll_reasons() {
    assert!(matches!(dll_entry_action(1), DllAction::InstallHook));
    assert!(matches!(dll_entry_action(0), DllAction::UninstallHook));
    assert!(matches!(dll_entry_action(2), DllAction::Nothing));
    assert!(matches!(dll_entry_action(3), DllAction::Nothing));
}

#[test]
fn tray_messages() {
    assert!(matches!(tray_action(WM_TRAYICON, 0, 0x0205), TrayAction::ShowMenu));
    assert!(matches!(tray_action(WM_TRAYICON, 0, 0x1_0205), TrayAction::ShowMenu));
    assert!(matches!(tray_action(WM_TRAYICON, 0, 0x0201), TrayAction::Handled));
    assert!(matches!(tray_action(WM_TRAYICON, 0, -1), TrayAction::Handled));
    assert!(matches!(tray_action(WM_COMMAND, 1, 0), TrayAction::Quit));
    assert!(matches!(tray_action(WM_COMMAND, 0x1_0001, 0), TrayAction::Quit));
    assert!(matches!(tray_action(WM_COMMAND, 2, 0), TrayAction::Handled));
    assert!(matches!(tray_action(WM_DESTROY, 0, 0), TrayAction::Quit));
    assert!(matches!(tray_action(0x000F, 0, 0), TrayAction::Default));
}

#[test]
fn picker_answer_is_split_into_paths() {
    assert_eq!(picker_output_paths("  C:\\a.txt \r\n\r\n b\n"), vec!["C:\\a.txt", "b"]);
    assert!(picker_output_paths("").is_empty());
    assert!(picker_output_paths(" \n\t\n").is_empty());
    for p in picker_output_paths(" x \n y\t\nz") {
        assert!(!p.is_empty() && p.trim() == p);
    }
}

#[test]
fn picker_answer_bytes() {
    assert_eq!(picker_hook::events::picker_answer_paths(b"C:\\a.txt\nC:\\b.txt\n"), vec!["C:\\a.txt", "C:\\b.txt"]);
    assert_eq!(picker_hook::events::picker_answer_paths(b" x\xffy \n"), vec!["x\u{fffd}y"]);
    assert!(picker_hook::events::picker_answer_paths(b"").is_empty());
}
