//! The decisions of the hook's Windows entry points: which COM class
//! creation to intercept, what the DLL does when loaded or unloaded, how the
//! tray window answers its messages, and how the picker's answer is read.
use vstd::prelude::*;
use crate::text::{spec_trimmed_lines, spec_utf8_lossy, trimmed_lines, utf8_lossy, views};

verus! {

/// A COM class or interface identifier.
#[derive(Clone, Copy)]
pub struct Guid {
    pub data1: u32,
    pub data2: u16,
    pub data3: u16,
    pub data4: [u8; 8],
}

/// Whether two identifiers are the same.
pub open spec fn same_guid(a: Guid, b: Guid) -> bool {
    &&& a.data1 == b.data1
    &&& a.data2 == b.data2
    &&& a.data3 == b.data3
    &&& a.data4@ == b.data4@
}

/// CLSID_FileOpenDialog {DC1C5A9C-E88A-4DDE-A5A1-60F82A20AEF7}.
pub open spec fn spec_clsid_file_open_dialog() -> Guid {
    Guid { data1: 0xDC1C5A9C, data2: 0xE88A, data3: 0x4DDE, data4: [0xA5, 0xA1, 0x60, 0xF8, 0x2A, 0x20, 0xAE, 0xF7] }
}

/// CLSID_FileSaveDialog {C0B4E2F3-BA21-4773-8DBA-335EC946EB8B}.
pub open spec fn spec_clsid_file_save_dialog() -> Guid {
    Guid { data1: 0xC0B4E2F3, data2: 0xBA21, data3: 0x4773, data4: [0x8D, 0xBA, 0x33, 0x5E, 0xC9, 0x46, 0xEB, 0x8B] }
}

/// CLSID_FileOpenDialog.
pub fn clsid_file_open_dialog() -> (res: Guid)
    ensures
        res == spec_clsid_file_open_dialog(),
{
    Guid { data1: 0xDC1C5A9C, data2: 0xE88A, data3: 0x4DDE, data4: [0xA5, 0xA1, 0x60, 0xF8, 0x2A, 0x20, 0xAE, 0xF7] }
}

/// CLSID_FileSaveDialog.
pub fn clsid_file_save_dialog() -> (res: Guid)
    ensures
        res == spec_clsid_file_save_dialog(),
{
    Guid { data1: 0xC0B4E2F3, data2: 0xBA21, data3: 0x4773, data4: [0x8D, 0xBA, 0x33, 0x5E, 0xC9, 0x46, 0xEB, 0x8B] }
}

/// Whether two identifiers are the same.
pub fn guid_eq(a: &Guid, b: &Guid) -> (res: bool)
    ensures
        res == same_guid(*a, *b),
{
    if a.data1 != b.data1 || a.data2 != b.data2 || a.data3 != b.data3 {
        return false;
    }
    let mut i: usize = 0;
    while i < 8
        invariant
            i <= 8,
            a.data4@.len() == 8,
            b.data4@.len() == 8,
            forall|j: int| 0 <= j < i ==> a.data4@[j] == b.data4@[j],
        decreases 8 - i,
    {
        if a.data4[i] != b.data4[i] {
            return false;
        }
        i = i + 1;
    }
    assert(a.data4@ =~= b.data4@);
    true
}

/// What the hooked `CoCreateInstance` does with a class identifier.
pub enum CreateAction {
    /// Hand out the picker's dialog proxy.
    OpenDialogProxy,
    /// A save dialog: noted, then created by the original function.
    SaveDialogPassThrough,
    /// Anything else: created by the original function.
    PassThrough,
}

/// The action for a class: the file-open dialog is replaced, the file-save
/// dialog is noticed and passed through, anything else is passed through.
pub open spec fn spec_classify_clsid(clsid: Guid) -> CreateAction {
    if same_guid(clsid, spec_clsid_file_open_dialog()) {
        CreateAction::OpenDialogProxy
    } else if same_guid(clsid, spec_clsid_file_save_dialog()) {
        CreateAction::SaveDialogPassThrough
    } else {
        CreateAction::PassThrough
    }
}

/// Decides what the hooked `CoCreateInstance` does with a class identifier.
pub fn classify_clsid(clsid: &Guid) -> (res: CreateAction)
    ensures
        res == spec_classify_clsid(*clsid),
{
    if guid_eq(clsid, &clsid_file_open_dialog()) {
        CreateAction::OpenDialogProxy
    } else if guid_eq(clsid, &clsid_file_save_dialog()) {
        CreateAction::SaveDialogPassThrough
    } else {
        CreateAction::PassThrough
    }
}

/// `DllMain` reason: the DLL was loaded into a process.
pub const DLL_PROCESS_ATTACH: u32 = 1;

/// `DllMain` reason: the DLL is being unloaded from a process.
pub const DLL_PROCESS_DETACH: u32 = 0;

/// What `DllMain` does for a reason code.
pub enum DllAction {
    InstallHook,
    UninstallHook,
    Nothing,
}

/// Decides what `DllMain` does: install the hook on process attach, remove
/// it on process detach, nothing otherwise.
pub fn dll_entry_action(reason: u32) -> (res: DllAction)
    ensures
        reason == DLL_PROCESS_ATTACH ==> res is InstallHook,
        reason == DLL_PROCESS_DETACH ==> res is UninstallHook,
        reason != DLL_PROCESS_ATTACH && reason != DLL_PROCESS_DETACH ==> res is Nothing,
{
    if reason == DLL_PROCESS_ATTACH {
        DllAction::InstallHook
    } else if reason == DLL_PROCESS_DETACH {
        DllAction::UninstallHook
    } else {
        DllAction::Nothing
    }
}

/// The tray icon's callback message.
pub const WM_TRAYICON: u32 = 0x8001;

/// The menu command that exits the injector.
pub const IDM_EXIT: u16 = 1;

/// `WM_COMMAND`.
pub const WM_COMMAND: u32 = 0x0111;

/// `WM_DESTROY`.
pub const WM_DESTROY: u32 = 0x0002;

/// `WM_RBUTTONUP`.
pub const WM_RBUTTONUP: u32 = 0x0205;

/// What the tray window does with a message.
pub enum TrayAction {
    /// Show the context menu with its Exit entry; the message is handled.
    ShowMenu,
    /// Post the quit message; the message is handled.
    Quit,
    /// Nothing more to do; the message is handled.
    Handled,
    /// Leave the message to the default window procedure.
    Default,
}

/// The tray window's answer: a right-button release on the icon shows the
/// menu; the Exit command and window destruction quit; other icon events and
/// commands are handled silently; anything else goes to the default procedure.
pub open spec fn spec_tray_action(msg: u32, wparam: usize, lparam: isize) -> TrayAction {
    if msg == WM_TRAYICON {
        if ((lparam & 0xFFFF) as u32) == WM_RBUTTONUP {
            TrayAction::ShowMenu
        } else {
            TrayAction::Handled
        }
    } else if msg == WM_COMMAND {
        if ((wparam & 0xFFFF) as u16) == IDM_EXIT {
            TrayAction::Quit
        } else {
            TrayAction::Handled
        }
    } else if msg == WM_DESTROY {
        TrayAction::Quit
    } else {
        TrayAction::Default
    }
}

/// Decides how the tray window answers a message.
pub fn tray_action(msg: u32, wparam: usize, lparam: isize) -> (res: TrayAction)
    ensures
        res == spec_tray_action(msg, wparam, lparam),
{
    if msg == WM_TRAYICON {
        let event = (lparam & 0xFFFF) as u32;
        if event == WM_RBUTTONUP {
            TrayAction::ShowMenu
        } else {
            TrayAction::Handled
        }
    } else if msg == WM_COMMAND {
        let id = (wparam & 0xFFFF) as u16;
        if id == IDM_EXIT {
            TrayAction::Quit
        } else {
            TrayAction::Handled
        }
    } else if msg == WM_DESTROY {
        TrayAction::Quit
    } else {
        TrayAction::Default
    }
}

/// The paths in the picker frontend's answer: one per line, trimmed, blank
/// lines left out.
pub fn picker_output_paths(answer: &str) -> (res: Vec<String>)
    ensures
        views(res@) == spec_trimmed_lines(answer@),
{
    trimmed_lines(answer)
}

/// The paths in the picker frontend's answer given as the raw bytes of its
/// C string, read as UTF-8 with invalid sequences replaced.
pub fn picker_answer_paths(answer: &[u8]) -> (res: Vec<String>)
    ensures
        views(res@) == spec_trimmed_lines(spec_utf8_lossy(answer@)),
{
    let text = utf8_lossy(answer);
    trimmed_lines(text.as_str())
}

/// No path read from the picker's answer is empty or starts or ends with
/// white space.
pub proof fn law_picker_paths_are_trimmed(answer: Seq<char>)
    ensures
        forall|i: int| 0 <= i < spec_trimmed_lines(answer).len() ==> {
            let p = #[trigger] spec_trimmed_lines(answer)[i];
            &&& p.len() > 0
            &&& !crate::text::is_white_space(p[0])
            &&& !crate::text::is_white_space(p.last())
        },
{
    let ls = crate::text::trims(crate::text::spec_lines(answer));
    crate::text::lemma_keep_nonempty(ls);
    assert forall|i: int| 0 <= i < spec_trimmed_lines(answer).len() implies {
        let p = #[trigger] spec_trimmed_lines(answer)[i];
        &&& p.len() > 0
        &&& !crate::text::is_white_space(p[0])
        &&& !crate::text::is_white_space(p.last())
    } by {
        let p = spec_trimmed_lines(answer)[i];
        assert(ls.contains(p));
        let j = choose|j: int| 0 <= j < ls.len() && ls[j] == p;
        crate::text::law_trim_edges(crate::text::spec_lines(answer)[j]);
    }
}

} // verus!
