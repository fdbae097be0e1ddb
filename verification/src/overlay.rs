use vstd::prelude::*;

use crate::capture::MonitorCapture;

verus! {

/// The label of the single overlay window on X11.
pub const OVERLAY_LABEL: &'static str = "capture-overlay";

/// The label prefix of the per-monitor overlay windows on Wayland.
pub const MONITOR_OVERLAY_PREFIX: &'static str = "capture-overlay-";

pub open spec fn digit_char(d: int) -> char {
    (48 + d) as char
}

/// The decimal digits of `n`, without leading zeros.
pub open spec fn decimal(n: nat) -> Seq<char>
    decreases n,
{
    if n < 10 {
        seq![digit_char(n as int)]
    } else {
        decimal(n / 10).push(digit_char((n % 10) as int))
    }
}

pub open spec fn is_digit(c: char) -> bool {
    '0' <= c <= '9'
}

/// The number that a string of decimal digits writes.
pub open spec fn digits_value(t: Seq<char>) -> int
    decreases t.len(),
{
    if t.len() == 0 {
        0
    } else {
        digits_value(t.drop_last()) * 10 + (t.last() as int - 48)
    }
}

/// What `str::parse::<usize>` makes of `t`: an optional `+`, then one or more
/// decimal digits that write a number no larger than `usize::MAX`.
pub open spec fn parse_usize(t: Seq<char>) -> Option<usize> {
    let d = unsigned_digits(t);
    if d.len() > 0 && all_digits(d) && digits_value(d) <= usize::MAX {
        Some(digits_value(d) as usize)
    } else {
        None
    }
}

/// `t` without a leading `+`.
pub open spec fn unsigned_digits(t: Seq<char>) -> Seq<char> {
    if t.len() > 0 && t[0] == '+' {
        t.drop_first()
    } else {
        t
    }
}

pub open spec fn all_digits(d: Seq<char>) -> bool {
    forall|i: int| 0 <= i < d.len() ==> is_digit(#[trigger] d[i])
}

pub open spec fn has_prefix(s: Seq<char>, p: Seq<char>) -> bool {
    s.len() >= p.len() && s.subrange(0, p.len() as int) == p
}

/// The label of the overlay window of monitor `i`.
pub open spec fn monitor_overlay_label(i: nat) -> Seq<char> {
    MONITOR_OVERLAY_PREFIX@ + decimal(i)
}

/// The monitor index that an overlay window label carries.
pub open spec fn label_monitor_index(label: Seq<char>) -> Option<usize> {
    if has_prefix(label, MONITOR_OVERLAY_PREFIX@) {
        parse_usize(label.subrange(MONITOR_OVERLAY_PREFIX@.len() as int, label.len() as int))
    } else {
        None
    }
}

/// Whether `s` starts with `p`.
pub fn starts_with(s: &str, p: &str) -> (b: bool)
    ensures
        b == has_prefix(s@, p@),
{
    let n = s.unicode_len();
    let m = p.unicode_len();
    if n < m {
        return false;
    }
    let mut i: usize = 0;
    while i < m
        invariant
            i <= m,
            m <= n,
            n == s@.len(),
            m == p@.len(),
            forall|k: int| 0 <= k < i ==> s@[k] == p@[k],
        decreases m - i,
    {
        if s.get_char(i) != p.get_char(i) {
            assert(s@.subrange(0, m as int)[i as int] != p@[i as int]);
            return false;
        }
        i += 1;
    }
    assert(s@.subrange(0, m as int) =~= p@);
    true
}

/// Whether `s` is exactly `p`.
pub fn same_text(s: &str, p: &str) -> (b: bool)
    ensures
        b == (s@ == p@),
{
    let b = s.unicode_len() == p.unicode_len() && starts_with(s, p);
    proof {
        if s@.len() == p@.len() && has_prefix(s@, p@) {
            assert(s@.subrange(0, p@.len() as int) =~= s@);
        }
        if s@ == p@ {
            assert(s@.subrange(0, p@.len() as int) =~= p@);
        }
    }
    b
}

fn digit_text(d: usize) -> (r: &'static str)
    requires
        d < 10,
    ensures
        r@ == seq![digit_char(d as int)],
{
    proof {
        reveal_strlit("0");
        reveal_strlit("1");
        reveal_strlit("2");
        reveal_strlit("3");
        reveal_strlit("4");
        reveal_strlit("5");
        reveal_strlit("6");
        reveal_strlit("7");
        reveal_strlit("8");
        reveal_strlit("9");
    }
    let r = match d {
        0 => "0",
        1 => "1",
        2 => "2",
        3 => "3",
        4 => "4",
        5 => "5",
        6 => "6",
        7 => "7",
        8 => "8",
        _ => "9",
    };
    assert(r@ =~= seq![digit_char(d as int)]);
    r
}

/// Appends the decimal digits of `n` to `s`.
fn append_decimal(s: &mut String, n: usize)
    ensures
        final(s)@ == old(s)@ + decimal(n as nat),
    decreases n,
{
    if n >= 10 {
        append_decimal(s, n / 10);
    }
    s.append(digit_text(n % 10));
    proof {
        if n >= 10 {
            assert(old(s)@ + decimal(n as nat / 10) + seq![digit_char((n % 10) as int)] =~= old(s)@ + decimal(
                n as nat,
            ));
        } else {
            assert(old(s)@ + seq![digit_char((n % 10) as int)] =~= old(s)@ + decimal(n as nat));
        }
    }
}

/// The label of the overlay window of monitor `i`: `capture-overlay-<i>`.
pub fn monitor_overlay_label_of(i: usize) -> (r: String)
    ensures
        r@ == monitor_overlay_label(i as nat),
{
    let mut s = String::from_str(MONITOR_OVERLAY_PREFIX);
    append_decimal(&mut s, i);
    s
}

/// Reads the decimal number in `s` from character `start` on, as
/// `str::parse::<usize>` reads it.
fn parse_usize_from(s: &str, start: usize) -> (r: Option<usize>)
    requires
        start <= s@.len(),
    ensures
        r == parse_usize(s@.subrange(start as int, s@.len() as int)),
{
    let n = s.unicode_len();
    let ghost t = s@.subrange(start as int, n as int);
    let mut i = start;
    if i < n && s.get_char(i) == '+' {
        i += 1;
    }
    let ghost d = unsigned_digits(t);
    assert(d =~= s@.subrange(i as int, n as int));
    if i == n {
        assert(d.len() == 0);
        assert(parse_usize(t) is None);
        return None;
    }
    let first = i;
    let mut value: usize = 0;
    while i < n
        invariant
            first <= i <= n,
            n == s@.len(),
            d == s@.subrange(first as int, n as int),
            d == unsigned_digits(t),
            start <= n,
            t == s@.subrange(start as int, n as int),
            forall|k: int| first <= k < i ==> is_digit(#[trigger] s@[k]),
            value == digits_value(s@.subrange(first as int, i as int)),
        decreases n - i,
    {
        let c = s.get_char(i);
        assert(s@.subrange(first as int, i + 1).drop_last() =~= s@.subrange(first as int, i as int));
        if !('0' <= c && c <= '9') {
            proof {
                assert(!is_digit(d[i - first]));
                lemma_non_digit_means_none(d, t, i - first);
            }
            return None;
        }
        let dv = (c as u32 - '0' as u32) as usize;
        proof {
            let k = (i - first + 1) as int;
            assert(d.take(k) =~= s@.subrange(first as int, i + 1));
            assert(digits_value(d.take(k)) == value * 10 + dv);
        }
        match value.checked_mul(10) {
            Some(v10) => match v10.checked_add(dv) {
                Some(v) => {
                    value = v;
                },
                None => {
                    proof {
                        lemma_overflow_means_none(d, t, (i - first + 1) as int);
                    }
                    return None;
                },
            },
            None => {
                proof {
                    lemma_overflow_means_none(d, t, (i - first + 1) as int);
                }
                return None;
            },
        }
        i += 1;
    }
    assert(s@.subrange(first as int, n as int) =~= d);
    Some(value)
}

/// Once a prefix of the digits writes a number above `usize::MAX`, nothing parses.
proof fn lemma_overflow_means_none(d: Seq<char>, t: Seq<char>, k: int)
    requires
        0 <= k <= d.len(),
        digits_value(d.take(k)) > usize::MAX,
        d == unsigned_digits(t),
    ensures
        parse_usize(t) is None,
{
    if forall|i: int| 0 <= i < d.len() ==> is_digit(#[trigger] d[i]) {
        lemma_digits_value_grows(d, k);
    } else {
        let j = choose|j: int| 0 <= j < d.len() && !is_digit(#[trigger] d[j]);
        lemma_non_digit_means_none(d, t, j);
    }
}

/// A character that is no digit after the optional sign makes parsing fail.
proof fn lemma_non_digit_means_none(d: Seq<char>, t: Seq<char>, j: int)
    requires
        0 <= j < d.len(),
        !is_digit(d[j]),
        d == unsigned_digits(t),
    ensures
        parse_usize(t) is None,
{
    assert(!all_digits(d));
}

/// The value of a digit string is at least that of any of its prefixes.
proof fn lemma_digits_value_grows(d: Seq<char>, k: int)
    requires
        0 <= k <= d.len(),
        forall|i: int| 0 <= i < d.len() ==> is_digit(#[trigger] d[i]),
    ensures
        digits_value(d.take(k)) <= digits_value(d),
        digits_value(d) >= 0,
    decreases d.len() - k,
{
    lemma_digits_value_nonneg(d);
    if k < d.len() {
        lemma_digits_value_grows(d, k + 1);
        assert(d.take(k + 1).drop_last() =~= d.take(k));
        lemma_digits_value_nonneg(d.take(k));
    } else {
        assert(d.take(k) =~= d);
    }
}

proof fn lemma_digits_value_nonneg(d: Seq<char>)
    requires
        forall|i: int| 0 <= i < d.len() ==> is_digit(#[trigger] d[i]),
    ensures
        digits_value(d) >= 0,
    decreases d.len(),
{
    if d.len() > 0 {
        lemma_digits_value_nonneg(d.drop_last());
    }
}

/// The monitor index in an overlay window label `capture-overlay-<n>`, or the
/// error for a label that carries none.
pub fn monitor_index_from_label(label: &str) -> (r: Result<usize, String>)
    ensures
        match r {
            Ok(i) => label_monitor_index(label@) == Some(i),
            Err(e) => label_monitor_index(label@) is None && e@ == "Label inválido para get_monitor_background: "@
                + label@,
        },
{
    if starts_with(label, MONITOR_OVERLAY_PREFIX) {
        let start = MONITOR_OVERLAY_PREFIX.unicode_len();
        match parse_usize_from(label, start) {
            Some(i) => return Ok(i),
            None => {},
        }
    }
    let mut e = String::from_str("Label inválido para get_monitor_background: ");
    e.append(label);
    Err(e)
}

} // verus!

verus! {

proof fn lemma_decimal_digits(n: nat)
    ensures
        decimal(n).len() > 0,
        all_digits(decimal(n)),
        digits_value(decimal(n)) == n,
    decreases n,
{
    if n < 10 {
        let d = decimal(n);
        assert(d.drop_last() =~= Seq::<char>::empty());
        assert(digit_char(n as int) as int == 48 + n);
        assert(digits_value(d.drop_last()) == 0);
        assert(digits_value(d) == digits_value(d.drop_last()) * 10 + (d.last() as int - 48));
    } else {
        lemma_decimal_digits(n / 10);
        let d = decimal(n);
        assert(d.drop_last() =~= decimal(n / 10));
        assert(digit_char((n % 10) as int) as int == 48 + n % 10);
        assert(d.last() == digit_char((n % 10) as int));
        assert(digits_value(d) == digits_value(decimal(n / 10)) * 10 + (n % 10));
        assert((n / 10) * 10 + n % 10 == n);
        assert forall|i: int| 0 <= i < d.len() implies is_digit(#[trigger] d[i]) by {
            if i < d.len() - 1 {
                assert(d[i] == decimal(n / 10)[i]);
            }
        }
    }
}

/// An overlay window made for monitor `i` carries `i` back: reading the index
/// from the label `capture-overlay-<i>` gives `i`.
pub proof fn lemma_monitor_label_round_trip(i: usize)
    ensures
        label_monitor_index(monitor_overlay_label(i as nat)) == Some(i),
{
    let p = MONITOR_OVERLAY_PREFIX@;
    let d = decimal(i as nat);
    let l = monitor_overlay_label(i as nat);
    lemma_decimal_digits(i as nat);
    assert(l.subrange(0, p.len() as int) =~= p);
    assert(l.subrange(p.len() as int, l.len() as int) =~= d);
    assert(is_digit(d[0]));
    assert(unsigned_digits(d) == d);
}

/// The captured monitor that the overlay window `label` shows, if the desktop
/// capture holds one at its index; an error when the label carries no index.
pub fn monitor_background(captures: &Option<Vec<MonitorCapture>>, label: &str) -> (r: Result<
    Option<MonitorCapture>,
    String,
>)
    ensures
        match r {
            Ok(m) => label_monitor_index(label@) matches Some(idx) && m == (match captures {
                Some(v) => if idx < v@.len() { Some(v@[idx as int]) } else { None },
                None => None,
            }),
            Err(e) => label_monitor_index(label@) is None && e@ == "Label inválido para get_monitor_background: "@
                + label@,
        },
{
    let idx = match monitor_index_from_label(label) {
        Ok(i) => i,
        Err(e) => return Err(e),
    };
    match captures {
        Some(v) => if idx < v.len() {
            Ok(Some(v[idx].clone()))
        } else {
            Ok(None)
        },
        None => Ok(None),
    }
}

} // verus!

verus! {

/// The positions, in order, of the labels in `open` that `pick` accepts.
pub open spec fn picked(open: Seq<Seq<char>>, pick: spec_fn(Seq<char>) -> bool) -> Seq<usize>
    decreases open.len(),
{
    if open.len() == 0 {
        Seq::empty()
    } else {
        let prev = picked(open.drop_last(), pick);
        if pick(open.last()) {
            prev.push((open.len() - 1) as usize)
        } else {
            prev
        }
    }
}

pub open spec fn labels_view(open: Seq<String>) -> Seq<Seq<char>> {
    open.map_values(|s: String| s@)
}

pub open spec fn is_monitor_overlay(l: Seq<char>) -> bool {
    has_prefix(l, MONITOR_OVERLAY_PREFIX@)
}

pub open spec fn is_single_overlay(l: Seq<char>) -> bool {
    l == OVERLAY_LABEL@
}

/// The positions of the open windows whose label passes `per_monitor`'s test:
/// the per-monitor overlays when it is set, else the single overlay.
fn pick_windows(open: &[String], per_monitor: bool) -> (r: Vec<usize>)
    ensures
        r@ == picked(
            labels_view(open@),
            if per_monitor { |l: Seq<char>| is_monitor_overlay(l) } else { |l: Seq<char>| is_single_overlay(l) },
        ),
{
    let ghost pick = if per_monitor { |l: Seq<char>| is_monitor_overlay(l) } else { |l: Seq<char>| is_single_overlay(l) };
    let mut r: Vec<usize> = Vec::new();
    let mut i: usize = 0;
    assert(labels_view(open@).take(0) =~= Seq::<Seq<char>>::empty());
    while i < open.len()
        invariant
            i <= open@.len(),
            pick == (if per_monitor { |l: Seq<char>| is_monitor_overlay(l) } else { |l: Seq<char>| is_single_overlay(l) }),
            r@ == picked(labels_view(open@).take(i as int), pick),
        decreases open@.len() - i,
    {
        let l = open[i].as_str();
        let ghost ls = labels_view(open@).take(i + 1);
        assert(ls.drop_last() =~= labels_view(open@).take(i as int));
        assert(ls.last() == l@);
        let hit = if per_monitor {
            starts_with(l, MONITOR_OVERLAY_PREFIX)
        } else {
            same_text(l, OVERLAY_LABEL)
        };
        if hit {
            r.push(i);
        }
        i += 1;
    }
    assert(labels_view(open@).take(open@.len() as int) =~= labels_view(open@));
    r
}

/// The open windows that hiding or closing the overlay from window `label`
/// acts on: every per-monitor overlay when `label` is one of them, else the
/// single overlay window. Given as positions in `open`.
pub fn overlay_windows_for(label: &str, open: &[String]) -> (r: Vec<usize>)
    ensures
        is_monitor_overlay(label@) ==> r@ == picked(labels_view(open@), |l: Seq<char>| is_monitor_overlay(l)),
        !is_monitor_overlay(label@) ==> r@ == picked(labels_view(open@), |l: Seq<char>| is_single_overlay(l)),
{
    let per_monitor = starts_with(label, MONITOR_OVERLAY_PREFIX);
    pick_windows(open, per_monitor)
}

/// The positions in `open` of every per-monitor overlay window.
pub fn monitor_overlay_windows(open: &[String]) -> (r: Vec<usize>)
    ensures
        r@ == picked(labels_view(open@), |l: Seq<char>| is_monitor_overlay(l)),
{
    pick_windows(open, true)
}

/// Where copying a history item takes the data from.
#[derive(Debug, Clone, Copy, PartialEq, Eq, Structural)]
pub enum CopySource {
    /// The item's content is the text to copy.
    Text,
    /// The item's content is the path of a PNG file.
    ImageFile,
    /// The item's content is a base64 PNG (items saved by older versions).
    ImageBase64,
}

pub open spec fn copy_source_spec(entry_type: Seq<char>, content: Seq<char>) -> Result<CopySource, Seq<char>> {
    if entry_type == "text"@ {
        Ok(CopySource::Text)
    } else if entry_type == "image"@ {
        if content.len() > 0 && content[0] == '/' {
            Ok(CopySource::ImageFile)
        } else {
            Ok(CopySource::ImageBase64)
        }
    } else {
        Err("Tipo de item desconocido: "@ + entry_type)
    }
}

/// Decides how a history item is copied: text as text; an image from the file
/// its content names when that is an absolute path, else from base64. Any other
/// kind of item is an error.
pub fn copy_source(entry_type: &str, content: &str) -> (r: Result<CopySource, String>)
    ensures
        match r {
            Ok(c) => copy_source_spec(entry_type@, content@) == Ok::<CopySource, Seq<char>>(c),
            Err(e) => copy_source_spec(entry_type@, content@) == Err::<CopySource, Seq<char>>(e@),
        },
{
    if same_text(entry_type, "text") {
        Ok(CopySource::Text)
    } else if same_text(entry_type, "image") {
        if content.unicode_len() > 0 && content.get_char(0) == '/' {
            Ok(CopySource::ImageFile)
        } else {
            Ok(CopySource::ImageBase64)
        }
    } else {
        let mut e = String::from_str("Tipo de item desconocido: ");
        e.append(entry_type);
        Err(e)
    }
}

/// What to do once the overlay front end has drawn the desktop.
#[derive(Debug, Clone, Copy, PartialEq, Eq, Structural)]
pub enum ReadyStep {
    /// Tell the front end that it has the input (Wayland has no input grab).
    AnnounceInput,
    /// Grab pointer and keyboard for X11 window `xid`; `remember` says the id
    /// was just found and is to be stored.
    GrabInput { xid: u32, remember: bool },
    /// No window id is known: nothing to grab.
    Nothing,
}

/// Decides the step after the overlay is shown: on Wayland announce the input;
/// on X11 grab the input for the stored window id, or else for the id the window
/// reports now.
pub fn overlay_ready_step(server: crate::capture::DisplayServer, stored: Option<u32>, fresh: Option<u32>) -> (r: ReadyStep)
    ensures
        server == crate::capture::DisplayServer::Wayland ==> r == ReadyStep::AnnounceInput,
        server == crate::capture::DisplayServer::X11 ==> r == (match stored {
            Some(x) => ReadyStep::GrabInput { xid: x, remember: false },
            None => match fresh {
                Some(x) => ReadyStep::GrabInput { xid: x, remember: true },
                None => ReadyStep::Nothing,
            },
        }),
{
    match server {
        crate::capture::DisplayServer::Wayland => ReadyStep::AnnounceInput,
        crate::capture::DisplayServer::X11 => match stored {
            Some(x) => ReadyStep::GrabInput { xid: x, remember: false },
            None => match fresh {
                Some(x) => ReadyStep::GrabInput { xid: x, remember: true },
                None => ReadyStep::Nothing,
            },
        },
    }
}

/// The X11 window id to use for a prepared overlay: the one the window reports
/// now, which is then stored, or else the stored one.
pub fn prepared_overlay_xid(fresh: Option<u32>, stored: Option<u32>) -> (r: (Option<u32>, bool))
    ensures
        r.0 == (match fresh {
            Some(x) => Some(x),
            None => stored,
        }),
        r.1 == fresh is Some,
{
    match fresh {
        Some(x) => (Some(x), true),
        None => (stored, false),
    }
}

/// How the X11 overlay is revealed once the desktop capture is done.
#[derive(Debug, Clone, Copy, PartialEq, Eq, Structural)]
pub enum RevealStep {
    /// The background is ready: the front end draws it and then asks to be shown.
    AwaitFrontEnd,
    /// No background: show the overlay now, and grab the input for `grab` if known.
    ShowNow { grab: Option<u32> },
}

pub fn reveal_step(has_background: bool, xid: Option<u32>) -> (r: RevealStep)
    ensures
        has_background ==> r == RevealStep::AwaitFrontEnd,
        !has_background ==> r == (RevealStep::ShowNow { grab: xid }),
{
    if has_background {
        RevealStep::AwaitFrontEnd
    } else {
        RevealStep::ShowNow { grab: xid }
    }
}

} // verus!
