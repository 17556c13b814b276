use picker_hook::dialog::{picker_needed, FOS_ALLOWMULTISELECT, FOS_PICKFOLDERS};
use picker_hook::DialogState;

fn with_types(index: u32) -> DialogState {
    let mut s = DialogState::new();
    s.file_types = vec![
        ("Text".to_string(), "*.txt;*.md".to_string()),
        ("All".to_string(), "*.*".to_string()),
    ];
    s.file_type_index = index;
    s
}

#[test]
fn new_state_is_empty() {
    let s = DialogState::new();
    assert!(s.folder.is_none() && s.default_folder.is_none());
    assert!(s.file_types.is_empty());
    assert_eq!(s.file_type_index, 0);
    assert_eq!(s.options, 0);
    assert!(s.result_path.is_none() && s.result_paths.is_empty());
    assert_eq!(s.owner_hwnd, 0);
    assert_eq!(s.active_filter(), None);
    assert_eq!(s.result(), None);
    assert_eq!(s.first_result(), None);
    assert_eq!(s.file_name_or_empty(), "");
}

#[test]
fn start_directory_priority() {
    let mut s = DialogState::new();
    assert_eq!(s.start_directory(None), "C:\\");
    assert_eq!(s.start_directory(Some("C:\\Users\\u")), "C:\\Users\\u");
    s.set_default_folder(Some("D:\\default".to_string()));
    assert_eq!(s.start_directory(Some("C:\\Users\\u")), "D:\\default");
    s.set_folder(Some("E:\\set".to_string()));
    assert_eq!(s.start_directory(Some("C:\\Users\\u")), "E:\\set");
    s.set_folder(None);
    assert_eq!(s.folder.as_deref(), Some("E:\\set"));
}

#[test]
fn active_filter_uses_one_based_index() {
    assert_eq!(with_types(0).active_filter(), Some("*.txt;*.md"));
    assert_eq!(with_types(1).active_filter(), Some("*.txt;*.md"));
    assert_eq!(with_types(2).active_filter(), Some("*.*"));
    assert_eq!(with_types(3).active_filter(), None);
}

#[test]
fn option_bits() {
    let mut s = DialogState::new();
    assert!(!s.pick_folders() && !s.multi_select());
    s.options = FOS_PICKFOLDERS | FOS_ALLOWMULTISELECT | 0x1;
    assert!(s.pick_folders() && s.multi_select());
    s.options = FOS_ALLOWMULTISELECT;
    assert!(!s.pick_folders() && s.multi_select());
}

#[test]
fn begin_show_gathers_request() {
    let mut s = with_types(2);
    s.options = FOS_PICKFOLDERS;
    let req = s.begin_show(0x1234, Some("C:\\Users\\u"));
    assert_eq!(s.owner_hwnd, 0x1234);
    assert_eq!(req.start_dir, "C:\\Users\\u");
    assert_eq!(req.filter.as_deref(), Some("*.*"));
    assert!(req.pick_folders);
    assert!(!req.multi_select);
}

#[test]
fn finish_show_records_pick() {
    let mut s = DialogState::new();
    assert!(!s.finish_show(vec![]));
    assert_eq!(s.result(), None);
    assert!(s.finish_show(vec!["C:\\a.txt".to_string(), "C:\\b.txt".to_string()]));
    assert_eq!(s.result(), Some("C:\\a.txt"));
    assert_eq!(s.first_result(), Some("C:\\a.txt"));
    assert_eq!(s.result_paths.len(), 2);
}

#[test]
fn file_name_defaults_to_empty() {
    let mut s = DialogState::new();
    s.file_name = Some("report.txt".to_string());
    assert_eq!(s.file_name_or_empty(), "report.txt");
}

#[test]
fn empty_listing_cancels() {
    assert!(!picker_needed(0));
    assert!(picker_needed(1));
}
