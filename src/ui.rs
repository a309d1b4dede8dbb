use vstd::prelude::*;
use crate::board::DeleteError;
use crate::tiles::Tile;

verus! {

/// Command-line options: the folder to scan, whether to show apparent sizes rather than
/// block usage, and whether to delete without asking.
pub struct Opt {
    pub folder: Option<String>,
    pub apparent_size: bool,
    pub disable_delete_confirmation: bool,
}

/// The two lines at the bottom of the screen: status and controls.
pub struct BottomLine<'a> {
    pub hide_delete: bool,
    pub hide_small_files_legend: bool,
    pub currently_selected: Option<&'a Tile>,
    pub last_read_path: Option<&'a String>,
}

impl<'a> BottomLine<'a> {
    pub fn new() -> (r: Self)
        ensures
            !r.hide_delete,
            !r.hide_small_files_legend,
            r.currently_selected is None,
            r.last_read_path is None,
    {
        BottomLine {
            hide_delete: false,
            hide_small_files_legend: false,
            currently_selected: None,
            last_read_path: None,
        }
    }

    pub fn hide_delete(self) -> (r: Self)
        ensures
            r.hide_delete,
            r.hide_small_files_legend == self.hide_small_files_legend,
            r.currently_selected == self.currently_selected,
            r.last_read_path == self.last_read_path,
    {
        BottomLine { hide_delete: true, ..self }
    }

    pub fn hide_small_files_legend(self, should_hide_small_files_legend: bool) -> (r: Self)
        ensures
            r.hide_delete == self.hide_delete,
            r.hide_small_files_legend == should_hide_small_files_legend,
            r.currently_selected == self.currently_selected,
            r.last_read_path == self.last_read_path,
    {
        BottomLine { hide_small_files_legend: should_hide_small_files_legend, ..self }
    }

    pub fn currently_selected(self, currently_selected: Option<&'a Tile>) -> (r: Self)
        ensures
            r.hide_delete == self.hide_delete,
            r.hide_small_files_legend == self.hide_small_files_legend,
            r.currently_selected == currently_selected,
            r.last_read_path == self.last_read_path,
    {
        BottomLine { currently_selected, ..self }
    }

    pub fn last_read_path(self, last_read_path: Option<&'a String>) -> (r: Self)
        ensures
            r.hide_delete == self.hide_delete,
            r.hide_small_files_legend == self.hide_small_files_legend,
            r.currently_selected == self.currently_selected,
            r.last_read_path == last_read_path,
    {
        BottomLine { last_read_path, ..self }
    }

    /// Room left on the status line beside the small-files legend, for a bar `width`
    /// cells wide.
    pub fn max_status_len(&self, width: u16) -> (r: u16)
        requires
            width >= 1 + (if self.hide_small_files_legend {
                0
            } else {
                SMALL_FILES_LEGEND_LEN
            }),
        ensures
            r == width - 1 - (if self.hide_small_files_legend {
                0
            } else {
                SMALL_FILES_LEGEND_LEN
            }),
    {
        let legend: u16 = if self.hide_small_files_legend {
            0
        } else {
            SMALL_FILES_LEGEND_LEN
        };
        width - legend - 1
    }
}

pub const SMALL_FILES_LEGEND: &'static str = "(x = Small files)";

pub const SMALL_FILES_LEGEND_LEN: u16 = 17;

pub const LONG_CONTROLS: &'static str = "<arrows> - move around, <ENTER> - enter folder, <ESC> - parent folder, <BACKSPACE> - delete, <+/-/0> - zoom in/out/reset, <q> - quit";

pub const SHORT_CONTROLS: &'static str = "←↓↑→/<ENTER>/<ESC>: navigate, <BACKSPACE>: del";

pub const LONG_CONTROLS_NO_DELETE: &'static str = "<arrows> - move around, <ENTER> - enter folder, <ESC> - parent folder, <+/-/0> - zoom in/out/reset, <q> - quit";

pub const SHORT_CONTROLS_NO_DELETE: &'static str = "←↓↑→/<ENTER>/<ESC>: navigate";

pub const TOO_SMALL_CONTROLS: &'static str = "(...)";

/// The controls line for `max_len` cells: the long form where it fits, else the short
/// form where it fits, else a mark that there is no room.
pub fn controls_legend(hide_delete: bool, max_len: u16) -> (r: &'static str)
    ensures
        ({
            let long = if hide_delete {
                LONG_CONTROLS_NO_DELETE
            } else {
                LONG_CONTROLS
            };
            let short = if hide_delete {
                SHORT_CONTROLS_NO_DELETE
            } else {
                SHORT_CONTROLS
            };
            &&& max_len >= long@.len() ==> r@ == long@
            &&& short@.len() <= max_len < long@.len() ==> r@ == short@
            &&& max_len < short@.len() ==> r@ == TOO_SMALL_CONTROLS@
        }),
{
    proof {
        reveal_strlit("<arrows> - move around, <ENTER> - enter folder, <ESC> - parent folder, <BACKSPACE> - delete, <+/-/0> - zoom in/out/reset, <q> - quit");
        reveal_strlit("←↓↑→/<ENTER>/<ESC>: navigate, <BACKSPACE>: del");
        reveal_strlit("<arrows> - move around, <ENTER> - enter folder, <ESC> - parent folder, <+/-/0> - zoom in/out/reset, <q> - quit");
        reveal_strlit("←↓↑→/<ENTER>/<ESC>: navigate");
    }
    let (long, long_len, short, short_len): (&'static str, u16, &'static str, u16) = if hide_delete {
        (LONG_CONTROLS_NO_DELETE, 110, SHORT_CONTROLS_NO_DELETE, 28)
    } else {
        (LONG_CONTROLS, 132, SHORT_CONTROLS, 46)
    };
    if max_len >= long_len {
        long
    } else if max_len >= short_len {
        short
    } else {
        TOO_SMALL_CONTROLS
    }
}

/// The first of the candidate lines, given by their lengths in characters, that is
/// shorter than `max_len`.
pub fn first_fitting(lengths: &Vec<usize>, max_len: usize) -> (r: Option<usize>)
    ensures
        match r {
            Some(i) => i < lengths@.len() && lengths@[i as int] < max_len && forall|j: int|
                0 <= j < i ==> lengths@[j] >= max_len,
            None => forall|j: int| 0 <= j < lengths@.len() ==> lengths@[j] >= max_len,
        },
{
    let mut i: usize = 0;
    while i < lengths.len()
        invariant
            i <= lengths@.len(),
            forall|j: int| 0 <= j < i ==> lengths@[j] >= max_len,
        decreases lengths@.len() - i,
    {
        if lengths[i] < max_len {
            return Some(i);
        }
        i += 1;
    }
    None
}

/// What the screen shows besides the map.
#[derive(Clone, Debug, PartialEq, Eq)]
pub enum UiMode {
    Loading,
    Normal,
    ScreenTooSmall,
    DeleteFile(String),
    ErrorMessage(String),
    Exiting { app_loaded: bool },
    WarningMessage(String),
}

/// The mode after the delete key: with an entry selected and the scan done, ask to
/// confirm deleting it; otherwise nothing changes.
pub fn on_delete_key(mode: UiMode, selected: Option<String>) -> (r: UiMode)
    ensures
        (mode is Normal && selected is Some) ==> r == UiMode::DeleteFile(selected->0),
        mode is Loading ==> (r matches UiMode::WarningMessage(m) && m@ == SCANNING_WARNING@),
        !(mode is Normal && selected is Some) && !(mode is Loading) ==> r == mode,
{
    match (mode, selected) {
        (UiMode::Normal, Some(name)) => UiMode::DeleteFile(name),
        (UiMode::Loading, _) => UiMode::WarningMessage(String::from_str(SCANNING_WARNING)),
        (m, _) => m,
    }
}

/// The mode after a prompt or message is dismissed: back to normal from a deletion
/// prompt or an error; from the exit prompt or a warning back to where the scan stands;
/// otherwise nothing changes.
pub fn on_cancel(mode: UiMode, app_loaded: bool) -> (r: UiMode)
    ensures
        (mode is DeleteFile || mode is ErrorMessage) ==> r == UiMode::Normal,
        (mode is Exiting || mode is WarningMessage) ==> r == (if app_loaded {
            UiMode::Normal
        } else {
            UiMode::Loading
        }),
        !(mode is DeleteFile || mode is ErrorMessage || mode is Exiting || mode is WarningMessage)
            ==> r == mode,
{
    match mode {
        UiMode::DeleteFile(_) | UiMode::ErrorMessage(_) => UiMode::Normal,
        UiMode::Exiting { .. } | UiMode::WarningMessage(_) => if app_loaded {
            UiMode::Normal
        } else {
            UiMode::Loading
        },
        m => m,
    }
}

/// The mode after asking to quit: the exit prompt, remembering whether the scan is done.
pub fn on_quit_key(app_loaded: bool) -> (r: UiMode)
    ensures
        r == (UiMode::Exiting { app_loaded }),
{
    UiMode::Exiting { app_loaded }
}

/// The smallest terminal the map is drawn on.
pub const MIN_SCREEN_WIDTH: u16 = 50;

pub const MIN_SCREEN_HEIGHT: u16 = 15;

/// The mode for a terminal of `width` by `height` cells: too small below the minimum;
/// back to where the scan stands once it is large enough again; otherwise unchanged.
pub fn on_resize(mode: UiMode, width: u16, height: u16, app_loaded: bool) -> (r: UiMode)
    ensures
        (width < MIN_SCREEN_WIDTH || height < MIN_SCREEN_HEIGHT) ==> r == UiMode::ScreenTooSmall,
        !(width < MIN_SCREEN_WIDTH || height < MIN_SCREEN_HEIGHT) && mode is ScreenTooSmall ==> r == (
        if app_loaded {
            UiMode::Normal
        } else {
            UiMode::Loading
        }),
        !(width < MIN_SCREEN_WIDTH || height < MIN_SCREEN_HEIGHT) && !(mode is ScreenTooSmall) ==> r
            == mode,
{
    if width < MIN_SCREEN_WIDTH || height < MIN_SCREEN_HEIGHT {
        UiMode::ScreenTooSmall
    } else {
        match mode {
            UiMode::ScreenTooSmall => if app_loaded {
                UiMode::Normal
            } else {
                UiMode::Loading
            },
            m => m,
        }
    }
}

/// Whether the bottom line hides the delete control and shows the last path read: while
/// scanning, and in a warning or an exit prompt raised before the scan was done.
pub fn shows_scan_progress(mode: &UiMode) -> (r: bool)
    ensures
        r == (match *mode {
            UiMode::Loading | UiMode::WarningMessage(_) => true,
            UiMode::Exiting { app_loaded } => !app_loaded,
            _ => false,
        }),
{
    match mode {
        UiMode::Loading | UiMode::WarningMessage(_) => true,
        UiMode::Exiting { app_loaded } => !*app_loaded,
        _ => false,
    }
}

/// The mode once a confirmed deletion has been attempted: normal after success, an error
/// message naming the failure otherwise.
pub fn after_deletion(result: Result<u64, DeleteError>) -> (r: UiMode)
    ensures
        result is Ok ==> r == UiMode::Normal,
        result == Err::<u64, DeleteError>(DeleteError::NothingSelected) ==> (r matches UiMode::ErrorMessage(
            m,
        ) && m@ == NOTHING_SELECTED_MESSAGE@),
        result == Err::<u64, DeleteError>(DeleteError::NotFound) ==> (r matches UiMode::ErrorMessage(m)
            && m@ == NOT_FOUND_MESSAGE@),
{
    match result {
        Ok(_) => UiMode::Normal,
        Err(DeleteError::NothingSelected) => UiMode::ErrorMessage(String::from_str(NOTHING_SELECTED_MESSAGE)),
        Err(DeleteError::NotFound) => UiMode::ErrorMessage(String::from_str(NOT_FOUND_MESSAGE)),
    }
}

pub const NOTHING_SELECTED_MESSAGE: &'static str = "Nothing is selected";

pub const NOT_FOUND_MESSAGE: &'static str = "The entry no longer exists";

pub const SCANNING_WARNING: &'static str = "Cannot delete while the scan is running";

pub const COUNTER_FULL_MESSAGE: &'static str = "Deleted from disk, but the freed-space counter is full";

/// The mode once the scan is done: normal after the loading screen, the exit prompt
/// remembers that the scan is done, and any other mode is kept.
pub fn on_scan_done(mode: UiMode) -> (r: UiMode)
    ensures
        mode is Loading ==> r == UiMode::Normal,
        mode is Exiting ==> r == (UiMode::Exiting { app_loaded: true }),
        !(mode is Loading || mode is Exiting) ==> r == mode,
{
    match mode {
        UiMode::Loading => UiMode::Normal,
        UiMode::Exiting { .. } => UiMode::Exiting { app_loaded: true },
        m => m,
    }
}

/// The marker put where the middle of a shortened text was.
pub open spec fn ellipsis() -> Seq<char> {
    seq!['[', '.', '.', ']']
}

/// `s` shortened to fit `max_len` cells: kept whole when shorter than `max_len`; cut
/// to its first `max_len - 1` characters when `max_len` is below 5; otherwise its start
/// and end around the marker `[..]`, `max_len` characters in all.
pub open spec fn truncated_middle(s: Seq<char>, max_len: int) -> Seq<char> {
    if s.len() < max_len {
        s
    } else if max_len < 5 {
        s.take(if max_len > 0 {
            max_len - 1
        } else {
            0
        })
    } else {
        let keep = max_len - 4;
        let head = keep / 2;
        let tail = keep - head;
        s.take(head) + ellipsis() + s.skip(s.len() - tail)
    }
}

/// Shortens `s` in the middle (see `truncated_middle`).
pub fn truncate_middle(s: &Vec<char>, max_len: usize) -> (r: Vec<char>)
    ensures
        r@ == truncated_middle(s@, max_len as int),
{
    let n = s.len();
    if n < max_len {
        return s.clone();
    }
    let (head, tail): (usize, usize) = if max_len < 5 {
        (if max_len > 0 {
            max_len - 1
        } else {
            0
        }, 0)
    } else {
        let keep = max_len - 4;
        (keep / 2, keep - keep / 2)
    };
    let mut r: Vec<char> = Vec::new();
    let mut i: usize = 0;
    while i < head
        invariant
            i <= head <= n,
            n == s@.len(),
            r@ =~= s@.take(i as int),
        decreases head - i,
    {
        r.push(s[i]);
        i += 1;
        proof {
            assert(r@ =~= s@.take(i as int));
        }
    }
    if max_len < 5 {
        return r;
    }
    let ghost front = r@;
    r.push('[');
    r.push('.');
    r.push('.');
    r.push(']');
    let ghost mid = r@;
    assert(mid =~= front + ellipsis());
    let mut j: usize = n - tail;
    while j < n
        invariant
            tail <= n,
            n - tail <= j <= n,
            n == s@.len(),
            r@ =~= mid + s@.subrange(n - tail, j as int),
        decreases n - j,
    {
        r.push(s[j]);
        j += 1;
        proof {
            assert(r@ =~= mid + s@.subrange(n - tail, j as int));
        }
    }
    proof {
        assert(s@.subrange(n - tail, n as int) =~= s@.skip(n - tail));
    }
    r
}

} // verus!
