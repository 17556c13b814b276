//! The state behind the file-open dialog that the hook puts in place of the
//! system one: what the application set through the dialog interface, and
//! what the user picked.
use vstd::prelude::*;

verus! {

/// Dialog option bit: pick folders instead of files.
pub const FOS_PICKFOLDERS: u32 = 0x20;

/// Dialog option bit: allow picking several items.
pub const FOS_ALLOWMULTISELECT: u32 = 0x200;

/// Internal state shared across the dialog's method calls.
pub struct DialogState {
    pub folder: Option<String>,
    pub default_folder: Option<String>,
    /// (display name, pattern such as `*.txt;*.md`)
    pub file_types: Vec<(String, String)>,
    /// 1-based index into `file_types`; 0 when never set.
    pub file_type_index: u32,
    /// The dialog option bits.
    pub options: u32,
    pub title: Option<String>,
    pub file_name: Option<String>,
    pub ok_label: Option<String>,
    pub default_extension: Option<String>,
    pub result_path: Option<String>,
    pub result_paths: Vec<String>,
    /// The owner window's handle value.
    pub owner_hwnd: usize,
}

/// The text of an optional string.
pub open spec fn opt_text(o: Option<String>) -> Option<Seq<char>> {
    match o {
        Some(s) => Some(s@),
        None => None,
    }
}

/// The text of an optional string slice.
pub open spec fn opt_str_text(o: Option<&str>) -> Option<Seq<char>> {
    match o {
        Some(s) => Some(s@),
        None => None,
    }
}

/// The directory the listing starts from: the folder set for the dialog,
/// else its default folder, else the user's profile directory, else `C:\`.
pub open spec fn spec_start_directory(s: DialogState, user_profile: Option<Seq<char>>) -> Seq<char> {
    match opt_text(s.folder) {
        Some(f) => f,
        None => match opt_text(s.default_folder) {
            Some(f) => f,
            None => match user_profile {
                Some(p) => p,
                None => "C:\\"@,
            },
        },
    }
}

/// Where the active file type sits in the list: the index is 1-based, and 0
/// means the first.
pub open spec fn active_slot(s: DialogState) -> int {
    if s.file_type_index > 0 {
        s.file_type_index - 1
    } else {
        0
    }
}

/// The pattern of the active file type, if the index names one.
pub open spec fn spec_active_filter(s: DialogState) -> Option<Seq<char>> {
    if 0 <= active_slot(s) < s.file_types@.len() {
        Some(s.file_types@[active_slot(s)].1@)
    } else {
        None
    }
}

/// What a call of `Show` needs to run the listing and the picker.
pub struct ShowRequest {
    pub start_dir: String,
    pub filter: Option<String>,
    pub pick_folders: bool,
    pub multi_select: bool,
}

/// The state after the user picked `picked` (not empty): the first path is
/// the result, and all of them are the results.
pub open spec fn spec_after_pick(s: DialogState, picked: Vec<String>) -> DialogState {
    DialogState { result_path: Some(picked@[0]), result_paths: picked, ..s }
}

/// The path that `GetResult` returns.
pub open spec fn spec_result(s: DialogState) -> Option<Seq<char>> {
    opt_text(s.result_path)
}

/// The path that `GetResults` returns: the first of the results.
pub open spec fn spec_first_result(s: DialogState) -> Option<Seq<char>> {
    if s.result_paths@.len() == 0 {
        None
    } else {
        Some(s.result_paths@[0]@)
    }
}

impl DialogState {
    /// A dialog with nothing set and nothing picked.
    pub fn new() -> (res: Self)
        ensures
            res.folder is None,
            res.default_folder is None,
            res.file_types@.len() == 0,
            res.file_type_index == 0,
            res.options == 0,
            res.title is None,
            res.file_name is None,
            res.ok_label is None,
            res.default_extension is None,
            res.result_path is None,
            res.result_paths@.len() == 0,
            res.owner_hwnd == 0,
    {
        DialogState {
            folder: None,
            default_folder: None,
            file_types: Vec::new(),
            file_type_index: 0,
            options: 0,
            title: None,
            file_name: None,
            ok_label: None,
            default_extension: None,
            result_path: None,
            result_paths: Vec::new(),
            owner_hwnd: 0,
        }
    }

    /// Resolves the starting directory for the listing.
    /// Priority: SetFolder > SetDefaultFolder > user profile > `C:\`.
    pub fn start_directory(&self, user_profile: Option<&str>) -> (res: String)
        ensures
            res@ == spec_start_directory(*self, opt_str_text(user_profile)),
    {
        if let Some(f) = &self.folder {
            return f.clone();
        }
        if let Some(f) = &self.default_folder {
            return f.clone();
        }
        match user_profile {
            Some(p) => p.to_owned(),
            None => "C:\\".to_owned(),
        }
    }

    /// The active file type's filter pattern (e.g. `*.txt;*.md`), if any.
    pub fn active_filter(&self) -> (res: Option<&str>)
        ensures
            opt_str_text(res) == spec_active_filter(*self),
    {
        if self.file_types.len() == 0 {
            return None;
        }
        let idx: usize = if self.file_type_index > 0 {
            (self.file_type_index - 1) as usize
        } else {
            0
        };
        if idx < self.file_types.len() {
            Some(self.file_types[idx].1.as_str())
        } else {
            None
        }
    }

    /// Whether the dialog picks folders.
    pub fn pick_folders(&self) -> (res: bool)
        ensures
            res == (self.options & FOS_PICKFOLDERS != 0),
    {
        self.options & FOS_PICKFOLDERS != 0
    }

    /// Whether the dialog lets the user pick several items.
    pub fn multi_select(&self) -> (res: bool)
        ensures
            res == (self.options & FOS_ALLOWMULTISELECT != 0),
    {
        self.options & FOS_ALLOWMULTISELECT != 0
    }

    /// Starts `Show`: records the owner window and gathers what the listing
    /// and the picker need.
    pub fn begin_show(&mut self, owner_hwnd: usize, user_profile: Option<&str>) -> (req: ShowRequest)
        ensures
            *final(self) == (DialogState { owner_hwnd, ..*old(self) }),
            req.start_dir@ == spec_start_directory(*old(self), opt_str_text(user_profile)),
            opt_text(req.filter) == spec_active_filter(*old(self)),
            req.pick_folders == (old(self).options & FOS_PICKFOLDERS != 0),
            req.multi_select == (old(self).options & FOS_ALLOWMULTISELECT != 0),
    {
        self.owner_hwnd = owner_hwnd;
        let start_dir = self.start_directory(user_profile);
        let filter = match self.active_filter() {
            Some(f) => Some(f.to_owned()),
            None => None,
        };
        ShowRequest {
            start_dir,
            filter,
            pick_folders: self.pick_folders(),
            multi_select: self.multi_select(),
        }
    }

    /// Ends `Show` with what the picker returned: a non-empty pick becomes
    /// the result and the call succeeds; an empty one cancels the dialog and
    /// leaves the state as it was.
    pub fn finish_show(&mut self, picked: Vec<String>) -> (ok: bool)
        ensures
            ok == (picked@.len() > 0),
            ok ==> *final(self) == spec_after_pick(*old(self), picked),
            !ok ==> *final(self) == *old(self),
    {
        if picked.len() == 0 {
            return false;
        }
        self.result_path = Some(picked[0].clone());
        self.result_paths = picked;
        true
    }

    /// Records the folder set for the dialog; a folder whose path could not
    /// be read is ignored.
    pub fn set_folder(&mut self, path: Option<String>)
        ensures
            path is Some ==> *final(self) == (DialogState { folder: path, ..*old(self) }),
            path is None ==> *final(self) == *old(self),
    {
        if let Some(p) = path {
            self.folder = Some(p);
        }
    }

    /// Records the dialog's default folder; a folder whose path could not be
    /// read is ignored.
    pub fn set_default_folder(&mut self, path: Option<String>)
        ensures
            path is Some ==> *final(self) == (DialogState { default_folder: path, ..*old(self) }),
            path is None ==> *final(self) == *old(self),
    {
        if let Some(p) = path {
            self.default_folder = Some(p);
        }
    }

    /// The path that `GetResult` reports, if the user picked one.
    pub fn result(&self) -> (res: Option<&str>)
        ensures
            opt_str_text(res) == spec_result(*self),
    {
        match &self.result_path {
            Some(p) => Some(p.as_str()),
            None => None,
        }
    }

    /// The path that `GetResults` reports: the first of the picked paths.
    pub fn first_result(&self) -> (res: Option<&str>)
        ensures
            opt_str_text(res) == spec_first_result(*self),
    {
        if self.result_paths.len() == 0 {
            None
        } else {
            Some(self.result_paths[0].as_str())
        }
    }

    /// The file name set for the dialog, or an empty name.
    pub fn file_name_or_empty(&self) -> (res: &str)
        ensures
            res@ == match opt_text(self.file_name) {
                Some(n) => n,
                None => ""@,
            },
    {
        match &self.file_name {
            Some(n) => n.as_str(),
            None => "",
        }
    }
}

/// Whether `Show` goes on to the picker after listing `listed_items` items:
/// an empty listing cancels the dialog.
pub fn picker_needed(listed_items: usize) -> (res: bool)
    ensures
        res == (listed_items > 0),
{
    listed_items > 0
}

/// After a successful pick, `GetResult` and `GetResults` report the same
/// path: the first one picked.
pub proof fn law_results_agree_after_pick(s: DialogState, picked: Vec<String>)
    requires
        picked@.len() > 0,
    ensures
        spec_result(spec_after_pick(s, picked)) == Some(picked@[0]@),
        spec_first_result(spec_after_pick(s, picked)) == Some(picked@[0]@),
{
}

/// A folder set for the dialog decides the starting directory, whatever the
/// default folder and the user's profile are.
pub proof fn law_folder_takes_priority(s: DialogState, folder: String, profile: Option<Seq<char>>)
    ensures
        spec_start_directory(DialogState { folder: Some(folder), ..s }, profile) == folder@,
{
}

/// File type index 0 (never set) selects the same filter as index 1: the
/// first file type.
pub proof fn law_index_zero_is_first(s: DialogState)
    ensures
        spec_active_filter(DialogState { file_type_index: 0, ..s }) == spec_active_filter(
            DialogState { file_type_index: 1, ..s },
        ),
{
}

} // verus!
