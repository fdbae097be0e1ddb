use vstd::prelude::*;

verus! {

/// One item of the capture history, as it is listed.
#[derive(Debug, Clone)]
pub struct HistoryEntry {
    pub id: i64,
    /// `"text"` or `"image"`.
    pub entry_type: String,
    /// The text of a text item, or the path (older items: base64 PNG) of an
    /// image; left empty for images in listings.
    pub content: String,
    /// A base64 PNG thumbnail of an image item.
    pub thumbnail: Option<String>,
    pub created_at: String,
}

/// How many items the history keeps and lists.
pub const HISTORY_LIMIT: i64 = 10;

/// The number of items a history listing returns at most. It is always the
/// history's own limit, whatever the caller asked for.
pub fn listing_limit(requested: Option<i64>) -> (r: i64)
    ensures
        r == HISTORY_LIMIT,
{
    HISTORY_LIMIT
}

/// What switching start at login on or off does to the autostart entry file.
#[derive(Debug, Clone, Copy, PartialEq, Eq, Structural)]
pub enum AutostartAction {
    /// Write the entry file (creating its directory).
    Write,
    /// Remove the entry file.
    Remove,
    /// Leave things as they are.
    Keep,
}

pub fn autostart_action(enabled: bool, entry_exists: bool) -> (r: AutostartAction)
    ensures
        enabled ==> r == AutostartAction::Write,
        !enabled && entry_exists ==> r == AutostartAction::Remove,
        !enabled && !entry_exists ==> r == AutostartAction::Keep,
{
    if enabled {
        AutostartAction::Write
    } else if entry_exists {
        AutostartAction::Remove
    } else {
        AutostartAction::Keep
    }
}

pub open spec fn desktop_entry_text(exe: Seq<char>) -> Seq<char> {
    "[Desktop Entry]\nType=Application\nName=Aurora Screenshots\nExec="@ + exe
        + "\nHidden=false\nNoDisplay=false\nX-GNOME-Autostart-enabled=true\n"@
}

/// The autostart desktop entry that starts the program at `exe` at login.
pub fn autostart_desktop_entry(exe: &str) -> (r: String)
    ensures
        r@ == desktop_entry_text(exe@),
{
    let mut s = String::from_str("[Desktop Entry]\nType=Application\nName=Aurora Screenshots\nExec=");
    s.append(exe);
    s.append("\nHidden=false\nNoDisplay=false\nX-GNOME-Autostart-enabled=true\n");
    s
}

} // verus!
