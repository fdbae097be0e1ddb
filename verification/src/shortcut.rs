use vstd::prelude::*;

verus! {

/// The shortcut that opens the capture overlay when none has been saved.
pub const DEFAULT_CAPTURE_SHORTCUT: &'static str = "Ctrl+Shift+S";

/// One modifier key of a global shortcut.
#[derive(Debug, Clone, Copy, PartialEq, Eq, Structural)]
pub enum Modifier {
    Ctrl,
    Shift,
    Alt,
    Super,
}

/// The set of modifier keys that must be held for a shortcut.
#[derive(Debug, Clone, Copy, PartialEq, Eq, Structural)]
pub struct Modifiers {
    pub ctrl: bool,
    pub shift: bool,
    pub alt: bool,
    pub super_key: bool,
}

/// The non-modifier key of a global shortcut.
#[derive(Debug, Clone, Copy, PartialEq, Eq, Structural)]
pub enum KeyCode {
    /// An upper-case letter key, `'A'` to `'Z'`.
    Letter(char),
    /// A digit key of the main row, 0 to 9.
    Digit(u8),
    /// A function key, F1 to F12.
    Function(u8),
    Home,
    End,
    PageUp,
    PageDown,
    Insert,
    Delete,
    ArrowUp,
    ArrowDown,
    ArrowLeft,
    ArrowRight,
    Space,
    Tab,
    Enter,
    Backspace,
    Minus,
    Equal,
    BracketLeft,
    BracketRight,
    Backslash,
    Semicolon,
    Quote,
    Backquote,
    Comma,
    Period,
    Slash,
}

/// A parsed global shortcut: modifiers plus one key.
#[derive(Debug, Clone, Copy, PartialEq, Eq, Structural)]
pub struct Shortcut {
    pub mods: Modifiers,
    pub key: KeyCode,
}

impl Modifiers {
    pub open spec fn none_spec() -> Modifiers {
        Modifiers { ctrl: false, shift: false, alt: false, super_key: false }
    }

    pub open spec fn with_spec(self, m: Modifier) -> Modifiers {
        match m {
            Modifier::Ctrl => Modifiers { ctrl: true, ..self },
            Modifier::Shift => Modifiers { shift: true, ..self },
            Modifier::Alt => Modifiers { alt: true, ..self },
            Modifier::Super => Modifiers { super_key: true, ..self },
        }
    }

    /// Whether `m` is one of the modifiers in this set.
    pub open spec fn has(self, m: Modifier) -> bool {
        match m {
            Modifier::Ctrl => self.ctrl,
            Modifier::Shift => self.shift,
            Modifier::Alt => self.alt,
            Modifier::Super => self.super_key,
        }
    }

    /// The empty set of modifiers.
    pub fn none() -> (r: Modifiers)
        ensures
            r == Modifiers::none_spec(),
    {
        Modifiers { ctrl: false, shift: false, alt: false, super_key: false }
    }

    /// This set with `m` added.
    pub fn with(self, m: Modifier) -> (r: Modifiers)
        ensures
            r == self.with_spec(m),
    {
        match m {
            Modifier::Ctrl => Modifiers { ctrl: true, ..self },
            Modifier::Shift => Modifiers { shift: true, ..self },
            Modifier::Alt => Modifiers { alt: true, ..self },
            Modifier::Super => Modifiers { super_key: true, ..self },
        }
    }
}

/// The pieces of `s` between `+` signs, as `str::split('+')` yields them:
/// one more piece than there are `+` signs, empty pieces included.
pub open spec fn split_plus(s: Seq<char>) -> Seq<Seq<char>>
    decreases s.len(),
{
    if s.len() == 0 {
        seq![Seq::<char>::empty()]
    } else {
        let r = split_plus(s.drop_last());
        if s.last() == '+' {
            r.push(Seq::<char>::empty())
        } else {
            r.update(r.len() - 1, r.last().push(s.last()))
        }
    }
}

/// The modifier that a token names, if any.
pub open spec fn modifier_of(t: Seq<char>) -> Option<Modifier> {
    if t == seq!['C', 't', 'r', 'l'] {
        Some(Modifier::Ctrl)
    } else if t == seq!['S', 'h', 'i', 'f', 't'] {
        Some(Modifier::Shift)
    } else if t == seq!['A', 'l', 't'] {
        Some(Modifier::Alt)
    } else if t == seq!['S', 'u', 'p', 'e', 'r'] {
        Some(Modifier::Super)
    } else {
        None
    }
}

/// The key that a single-character token names, if any.
pub open spec fn single_char_key(c: char) -> Option<KeyCode> {
    if 'A' <= c <= 'Z' {
        Some(KeyCode::Letter(c))
    } else if '0' <= c <= '9' {
        Some(KeyCode::Digit((c as u32 - '0' as u32) as u8))
    } else if c == '-' {
        Some(KeyCode::Minus)
    } else if c == '=' {
        Some(KeyCode::Equal)
    } else if c == '[' {
        Some(KeyCode::BracketLeft)
    } else if c == ']' {
        Some(KeyCode::BracketRight)
    } else if c == '\\' {
        Some(KeyCode::Backslash)
    } else if c == ';' {
        Some(KeyCode::Semicolon)
    } else if c == '\'' {
        Some(KeyCode::Quote)
    } else if c == '`' {
        Some(KeyCode::Backquote)
    } else if c == ',' {
        Some(KeyCode::Comma)
    } else if c == '.' {
        Some(KeyCode::Period)
    } else if c == '/' {
        Some(KeyCode::Slash)
    } else {
        None
    }
}

/// The key that a multi-character word names, if any.
pub open spec fn word_key(t: Seq<char>) -> Option<KeyCode> {
    if t == seq!['H', 'o', 'm', 'e'] {
        Some(KeyCode::Home)
    } else if t == seq!['E', 'n', 'd'] {
        Some(KeyCode::End)
    } else if t == seq!['P', 'a', 'g', 'e', 'U', 'p'] {
        Some(KeyCode::PageUp)
    } else if t == seq!['P', 'a', 'g', 'e', 'D', 'o', 'w', 'n'] {
        Some(KeyCode::PageDown)
    } else if t == seq!['I', 'n', 's', 'e', 'r', 't'] {
        Some(KeyCode::Insert)
    } else if t == seq!['D', 'e', 'l', 'e', 't', 'e'] {
        Some(KeyCode::Delete)
    } else if t == seq!['U', 'p'] {
        Some(KeyCode::ArrowUp)
    } else if t == seq!['D', 'o', 'w', 'n'] {
        Some(KeyCode::ArrowDown)
    } else if t == seq!['L', 'e', 'f', 't'] {
        Some(KeyCode::ArrowLeft)
    } else if t == seq!['R', 'i', 'g', 'h', 't'] {
        Some(KeyCode::ArrowRight)
    } else if t == seq!['S', 'p', 'a', 'c', 'e'] {
        Some(KeyCode::Space)
    } else if t == seq!['T', 'a', 'b'] {
        Some(KeyCode::Tab)
    } else if t == seq!['E', 'n', 't', 'e', 'r'] {
        Some(KeyCode::Enter)
    } else if t == seq!['B', 'a', 'c', 'k', 's', 'p', 'a', 'c', 'e'] {
        Some(KeyCode::Backspace)
    } else {
        None
    }
}

/// The key that a token names, if any: a letter, digit or symbol, F1 to F12,
/// or one of the named keys.
pub open spec fn key_of(t: Seq<char>) -> Option<KeyCode> {
    if t.len() == 1 {
        single_char_key(t[0])
    } else if t.len() == 2 && t[0] == 'F' && '1' <= t[1] <= '9' {
        Some(KeyCode::Function((t[1] as u32 - '0' as u32) as u8))
    } else if t.len() == 3 && t[0] == 'F' && t[1] == '1' && '0' <= t[2] <= '2' {
        Some(KeyCode::Function((10 + (t[2] as u32 - '0' as u32)) as u8))
    } else {
        word_key(t)
    }
}

/// Reads the modifier tokens in order: the set they name, or the first token
/// that names no modifier.
pub open spec fn fold_modifiers(ts: Seq<Seq<char>>) -> Result<Modifiers, Seq<char>>
    decreases ts.len(),
{
    if ts.len() == 0 {
        Ok(Modifiers::none_spec())
    } else {
        match fold_modifiers(ts.drop_last()) {
            Err(t) => Err(t),
            Ok(m) => match modifier_of(ts.last()) {
                Some(md) => Ok(m.with_spec(md)),
                None => Err(ts.last()),
            },
        }
    }
}

pub open spec fn too_few_parts_text() -> Seq<char> {
    "El shortcut debe tener al menos un modificador y una tecla"@
}

pub open spec fn unknown_modifier_text(t: Seq<char>) -> Seq<char> {
    "Modificador desconocido: "@ + t
}

pub open spec fn unknown_key_text(t: Seq<char>) -> Seq<char> {
    "Tecla desconocida: "@ + t
}

/// What parsing `s` gives: the shortcut, or the text of the error.
pub open spec fn parse_shortcut_spec(s: Seq<char>) -> Result<Shortcut, Seq<char>> {
    let parts = split_plus(s);
    if parts.len() < 2 {
        Err(too_few_parts_text())
    } else {
        match fold_modifiers(parts.drop_last()) {
            Err(t) => Err(unknown_modifier_text(t)),
            Ok(m) => match key_of(parts.last()) {
                None => Err(unknown_key_text(parts.last())),
                Some(k) => Ok(Shortcut { mods: m, key: k }),
            },
        }
    }
}

pub open spec fn parse_result_matches(r: Result<Shortcut, String>, s: Seq<char>) -> bool {
    match r {
        Ok(sc) => parse_shortcut_spec(s) == Ok::<Shortcut, Seq<char>>(sc),
        Err(e) => parse_shortcut_spec(s) == Err::<Shortcut, Seq<char>>(e@),
    }
}

/// `sp` marks, in characters, where `part` stands in `s`.
pub open spec fn span_holds(s: Seq<char>, sp: (usize, usize), part: Seq<char>) -> bool {
    &&& sp.0 <= sp.1 <= s.len()
    &&& s.subrange(sp.0 as int, sp.1 as int) == part
}

proof fn lemma_split_plus_nonempty(s: Seq<char>)
    ensures
        split_plus(s).len() >= 1,
    decreases s.len(),
{
    if s.len() > 0 {
        lemma_split_plus_nonempty(s.drop_last());
    }
}

/// The spans `(start, end)`, in characters, of the pieces of `s` between `+` signs.
fn split_spans(s: &str) -> (spans: Vec<(usize, usize)>)
    ensures
        spans.len() == split_plus(s@).len(),
        forall|k: int| #![trigger spans@[k]]
            0 <= k < spans.len() ==> span_holds(s@, spans@[k], split_plus(s@)[k]),
{
    let n = s.unicode_len();
    let mut spans: Vec<(usize, usize)> = Vec::new();
    let mut start: usize = 0;
    let mut i: usize = 0;
    assert(s@.take(0) =~= Seq::<char>::empty());
    assert(s@.subrange(0, 0) =~= Seq::<char>::empty());
    while i < n
        invariant
            n == s@.len(),
            start <= i <= n,
            split_plus(s@.take(i as int)).len() == spans.len() + 1,
            split_plus(s@.take(i as int)).last() == s@.subrange(start as int, i as int),
            forall|k: int| #![trigger spans@[k]]
                0 <= k < spans.len() ==> spans@[k].1 <= start && span_holds(
                    s@,
                    spans@[k],
                    split_plus(s@.take(i as int))[k],
                ),
        decreases n - i,
    {
        let c = s.get_char(i);
        let ghost prev = split_plus(s@.take(i as int));
        assert(s@.take(i + 1).drop_last() =~= s@.take(i as int));
        assert(s@.take(i + 1).last() == c);
        if c == '+' {
            spans.push((start, i));
            start = i + 1;
            assert(s@.subrange(start as int, (i + 1) as int) =~= Seq::<char>::empty());
        } else {
            assert(s@.subrange(start as int, (i + 1) as int) =~= s@.subrange(start as int, i as int).push(c));
        }
        i += 1;
    }
    assert(s@.take(n as int) =~= s@);
    spans.push((start, n));
    assert(span_holds(s@, spans@[spans.len() - 1], split_plus(s@)[spans.len() - 1]));
    spans
}

/// The characters of `s` from index `a` up to `b`.
fn token_chars(s: &str, a: usize, b: usize) -> (r: Vec<char>)
    requires
        a <= b <= s@.len(),
    ensures
        r@ == s@.subrange(a as int, b as int),
{
    let mut r: Vec<char> = Vec::new();
    let mut i = a;
    while i < b
        invariant
            a <= i <= b,
            b <= s@.len(),
            r@ == s@.subrange(a as int, i as int),
        decreases b - i,
    {
        let c = s.get_char(i);
        assert(s@.subrange(a as int, i + 1) =~= s@.subrange(a as int, i as int).push(c));
        r.push(c);
        i += 1;
    }
    r
}

/// Whether the characters of `t` are exactly those of `w`.
fn chars_equal(t: &Vec<char>, w: &[char]) -> (b: bool)
    ensures
        b == (t@ == w@),
{
    if t.len() != w.len() {
        return false;
    }
    let mut i: usize = 0;
    while i < t.len()
        invariant
            i <= t.len(),
            t.len() == w.len(),
            forall|k: int| 0 <= k < i ==> t@[k] == w@[k],
        decreases t.len() - i,
    {
        if t[i] != w[i] {
            return false;
        }
        i += 1;
    }
    assert(t@ =~= w@);
    true
}

fn modifier_from_token(t: &Vec<char>) -> (r: Option<Modifier>)
    ensures
        r == modifier_of(t@),
{
    let ctrl = ['C', 't', 'r', 'l'];
    let shift = ['S', 'h', 'i', 'f', 't'];
    let alt = ['A', 'l', 't'];
    let sup = ['S', 'u', 'p', 'e', 'r'];
    assert(ctrl@ =~= seq!['C', 't', 'r', 'l']);
    assert(shift@ =~= seq!['S', 'h', 'i', 'f', 't']);
    assert(alt@ =~= seq!['A', 'l', 't']);
    assert(sup@ =~= seq!['S', 'u', 'p', 'e', 'r']);
    if chars_equal(t, &ctrl) {
        Some(Modifier::Ctrl)
    } else if chars_equal(t, &shift) {
        Some(Modifier::Shift)
    } else if chars_equal(t, &alt) {
        Some(Modifier::Alt)
    } else if chars_equal(t, &sup) {
        Some(Modifier::Super)
    } else {
        None
    }
}

fn key_from_char(c: char) -> (r: Option<KeyCode>)
    ensures
        r == single_char_key(c),
{
    if 'A' <= c && c <= 'Z' {
        Some(KeyCode::Letter(c))
    } else if '0' <= c && c <= '9' {
        Some(KeyCode::Digit((c as u32 - '0' as u32) as u8))
    } else if c == '-' {
        Some(KeyCode::Minus)
    } else if c == '=' {
        Some(KeyCode::Equal)
    } else if c == '[' {
        Some(KeyCode::BracketLeft)
    } else if c == ']' {
        Some(KeyCode::BracketRight)
    } else if c == '\\' {
        Some(KeyCode::Backslash)
    } else if c == ';' {
        Some(KeyCode::Semicolon)
    } else if c == '\'' {
        Some(KeyCode::Quote)
    } else if c == '`' {
        Some(KeyCode::Backquote)
    } else if c == ',' {
        Some(KeyCode::Comma)
    } else if c == '.' {
        Some(KeyCode::Period)
    } else if c == '/' {
        Some(KeyCode::Slash)
    } else {
        None
    }
}

fn key_from_word(t: &Vec<char>) -> (r: Option<KeyCode>)
    ensures
        r == word_key(t@),
{
    let home = ['H', 'o', 'm', 'e'];
    let end = ['E', 'n', 'd'];
    let page_up = ['P', 'a', 'g', 'e', 'U', 'p'];
    let page_down = ['P', 'a', 'g', 'e', 'D', 'o', 'w', 'n'];
    let insert = ['I', 'n', 's', 'e', 'r', 't'];
    let delete = ['D', 'e', 'l', 'e', 't', 'e'];
    let up = ['U', 'p'];
    let down = ['D', 'o', 'w', 'n'];
    let left = ['L', 'e', 'f', 't'];
    let right = ['R', 'i', 'g', 'h', 't'];
    let space = ['S', 'p', 'a', 'c', 'e'];
    let tab = ['T', 'a', 'b'];
    let enter = ['E', 'n', 't', 'e', 'r'];
    let backspace = ['B', 'a', 'c', 'k', 's', 'p', 'a', 'c', 'e'];
    assert(home@ =~= seq!['H', 'o', 'm', 'e']);
    assert(end@ =~= seq!['E', 'n', 'd']);
    assert(page_up@ =~= seq!['P', 'a', 'g', 'e', 'U', 'p']);
    assert(page_down@ =~= seq!['P', 'a', 'g', 'e', 'D', 'o', 'w', 'n']);
    assert(insert@ =~= seq!['I', 'n', 's', 'e', 'r', 't']);
    assert(delete@ =~= seq!['D', 'e', 'l', 'e', 't', 'e']);
    assert(up@ =~= seq!['U', 'p']);
    assert(down@ =~= seq!['D', 'o', 'w', 'n']);
    assert(left@ =~= seq!['L', 'e', 'f', 't']);
    assert(right@ =~= seq!['R', 'i', 'g', 'h', 't']);
    assert(space@ =~= seq!['S', 'p', 'a', 'c', 'e']);
    assert(tab@ =~= seq!['T', 'a', 'b']);
    assert(enter@ =~= seq!['E', 'n', 't', 'e', 'r']);
    assert(backspace@ =~= seq!['B', 'a', 'c', 'k', 's', 'p', 'a', 'c', 'e']);
    if chars_equal(t, &home) {
        Some(KeyCode::Home)
    } else if chars_equal(t, &end) {
        Some(KeyCode::End)
    } else if chars_equal(t, &page_up) {
        Some(KeyCode::PageUp)
    } else if chars_equal(t, &page_down) {
        Some(KeyCode::PageDown)
    } else if chars_equal(t, &insert) {
        Some(KeyCode::Insert)
    } else if chars_equal(t, &delete) {
        Some(KeyCode::Delete)
    } else if chars_equal(t, &up) {
        Some(KeyCode::ArrowUp)
    } else if chars_equal(t, &down) {
        Some(KeyCode::ArrowDown)
    } else if chars_equal(t, &left) {
        Some(KeyCode::ArrowLeft)
    } else if chars_equal(t, &right) {
        Some(KeyCode::ArrowRight)
    } else if chars_equal(t, &space) {
        Some(KeyCode::Space)
    } else if chars_equal(t, &tab) {
        Some(KeyCode::Tab)
    } else if chars_equal(t, &enter) {
        Some(KeyCode::Enter)
    } else if chars_equal(t, &backspace) {
        Some(KeyCode::Backspace)
    } else {
        None
    }
}

fn key_from_token(t: &Vec<char>) -> (r: Option<KeyCode>)
    ensures
        r == key_of(t@),
{
    if t.len() == 1 {
        key_from_char(t[0])
    } else if t.len() == 2 && t[0] == 'F' && '1' <= t[1] && t[1] <= '9' {
        Some(KeyCode::Function((t[1] as u32 - '0' as u32) as u8))
    } else if t.len() == 3 && t[0] == 'F' && t[1] == '1' && '0' <= t[2] && t[2] <= '2' {
        Some(KeyCode::Function((10 + (t[2] as u32 - '0' as u32)) as u8))
    } else {
        key_from_word(t)
    }
}

/// Parses a shortcut written as modifiers and one key joined by `+`, such as
/// `Ctrl+Shift+S`. At least one modifier is needed; the modifiers are `Ctrl`,
/// `Shift`, `Alt` and `Super`, in any order, repeats allowed. The error names the
/// first token that is no modifier, or else the key that is unknown.
pub fn parse_shortcut(s: &str) -> (r: Result<Shortcut, String>)
    ensures
        parse_result_matches(r, s@),
{
    let spans = split_spans(s);
    proof {
        lemma_split_plus_nonempty(s@);
    }
    let ghost parts = split_plus(s@);
    if spans.len() < 2 {
        return Err(String::from_str("El shortcut debe tener al menos un modificador y una tecla"));
    }
    let last = spans.len() - 1;
    let mut mods = Modifiers::none();
    let mut i: usize = 0;
    assert(parts.drop_last().take(0) =~= Seq::<Seq<char>>::empty());
    while i < last
        invariant
            last == spans.len() - 1,
            spans.len() == parts.len(),
            parts == split_plus(s@),
            i <= last,
            fold_modifiers(parts.drop_last().take(i as int)) == Ok::<Modifiers, Seq<char>>(mods),
            forall|k: int| #![trigger spans@[k]]
                0 <= k < spans.len() ==> span_holds(s@, spans@[k], parts[k]),
        decreases last - i,
    {
        let (a, b) = spans[i];
        assert(span_holds(s@, spans@[i as int], parts[i as int]));
        let tok = token_chars(s, a, b);
        let ghost ts = parts.drop_last().take(i + 1);
        assert(ts.drop_last() =~= parts.drop_last().take(i as int));
        assert(ts.last() == parts[i as int]);
        assert(tok@ == parts[i as int]);
        match modifier_from_token(&tok) {
            Some(m) => {
                mods = mods.with(m);
            },
            None => {
                proof {
                    lemma_fold_error_persists(parts.drop_last(), i as int + 1);
                    assert(parts.drop_last().take(parts.len() - 1) =~= parts.drop_last());
                }
                let mut msg = String::from_str("Modificador desconocido: ");
                msg.append(s.substring_char(a, b));
                return Err(msg);
            },
        }
        i += 1;
    }
    assert(parts.drop_last().take(last as int) =~= parts.drop_last());
    let (a, b) = spans[last];
    assert(span_holds(s@, spans@[last as int], parts[last as int]));
    let tok = token_chars(s, a, b);
    match key_from_token(&tok) {
        Some(k) => Ok(Shortcut { mods, key: k }),
        None => {
            let mut msg = String::from_str("Tecla desconocida: ");
            msg.append(s.substring_char(a, b));
            Err(msg)
        },
    }
}

/// Once reading the first `i` tokens has failed, reading more of them fails
/// on the same token.
proof fn lemma_fold_error_persists(ts: Seq<Seq<char>>, i: int)
    requires
        0 <= i <= ts.len(),
        fold_modifiers(ts.take(i)) is Err,
    ensures
        fold_modifiers(ts) == fold_modifiers(ts.take(i)),
    decreases ts.len() - i,
{
    if i < ts.len() {
        let t2 = ts.take(i + 1);
        assert(t2.drop_last() =~= ts.take(i));
        lemma_fold_error_persists(ts, i + 1);
    } else {
        assert(ts.take(i) =~= ts);
    }
}

} // verus!

verus! {

/// The modifiers that a parsed shortcut requires are exactly those its modifier
/// tokens name: their order and repetition do not matter.
pub proof fn lemma_modifiers_are_those_named(ts: Seq<Seq<char>>, m: Modifiers, md: Modifier)
    requires
        fold_modifiers(ts) == Ok::<Modifiers, Seq<char>>(m),
    ensures
        m.has(md) <==> exists|i: int| 0 <= i < ts.len() && modifier_of(#[trigger] ts[i]) == Some(md),
    decreases ts.len(),
{
    if ts.len() > 0 {
        let prev = ts.drop_last();
        match fold_modifiers(prev) {
            Ok(pm) => {
                lemma_modifiers_are_those_named(prev, pm, md);
                if m.has(md) && !pm.has(md) {
                    assert(modifier_of(ts[ts.len() - 1]) == Some(md));
                }
                if exists|i: int| 0 <= i < ts.len() && modifier_of(#[trigger] ts[i]) == Some(md) {
                    let i = choose|i: int| 0 <= i < ts.len() && modifier_of(#[trigger] ts[i]) == Some(md);
                    if i < ts.len() - 1 {
                        assert(prev[i] == ts[i]);
                    }
                }
                if pm.has(md) {
                    let i = choose|i: int| 0 <= i < prev.len() && modifier_of(#[trigger] prev[i]) == Some(md);
                    assert(ts[i] == prev[i]);
                }
            },
            Err(_) => {},
        }
    }
}

/// The token that names each key: a letter or digit by itself, `F1` to `F12`,
/// the symbol for a symbol key, and a word for each named key.
pub open spec fn key_name(k: KeyCode) -> Seq<char> {
    match k {
        KeyCode::Letter(c) => seq![c],
        KeyCode::Digit(d) => seq![(d + 48) as char],
        KeyCode::Function(n) => if n < 10 {
            seq!['F', (n + 48) as char]
        } else {
            seq!['F', '1', (n - 10 + 48) as char]
        },
        KeyCode::Home => seq!['H', 'o', 'm', 'e'],
        KeyCode::End => seq!['E', 'n', 'd'],
        KeyCode::PageUp => seq!['P', 'a', 'g', 'e', 'U', 'p'],
        KeyCode::PageDown => seq!['P', 'a', 'g', 'e', 'D', 'o', 'w', 'n'],
        KeyCode::Insert => seq!['I', 'n', 's', 'e', 'r', 't'],
        KeyCode::Delete => seq!['D', 'e', 'l', 'e', 't', 'e'],
        KeyCode::ArrowUp => seq!['U', 'p'],
        KeyCode::ArrowDown => seq!['D', 'o', 'w', 'n'],
        KeyCode::ArrowLeft => seq!['L', 'e', 'f', 't'],
        KeyCode::ArrowRight => seq!['R', 'i', 'g', 'h', 't'],
        KeyCode::Space => seq!['S', 'p', 'a', 'c', 'e'],
        KeyCode::Tab => seq!['T', 'a', 'b'],
        KeyCode::Enter => seq!['E', 'n', 't', 'e', 'r'],
        KeyCode::Backspace => seq!['B', 'a', 'c', 'k', 's', 'p', 'a', 'c', 'e'],
        KeyCode::Minus => seq!['-'],
        KeyCode::Equal => seq!['='],
        KeyCode::BracketLeft => seq!['['],
        KeyCode::BracketRight => seq![']'],
        KeyCode::Backslash => seq!['\\'],
        KeyCode::Semicolon => seq![';'],
        KeyCode::Quote => seq!['\''],
        KeyCode::Backquote => seq!['`'],
        KeyCode::Comma => seq![','],
        KeyCode::Period => seq!['.'],
        KeyCode::Slash => seq!['/'],
    }
}

/// A token names a key only under that key's own name: `Left` is the left
/// arrow, `Right` the right arrow, `F5` the fifth function key, and so on.
pub proof fn lemma_token_is_the_key_name(t: Seq<char>)
    ensures
        key_of(t) matches Some(k) ==> t == key_name(k),
{
    if let Some(k) = key_of(t) {
        if t.len() == 1 {
            assert(t =~= seq![t[0]]);
        } else if t.len() == 2 && t[0] == 'F' && '1' <= t[1] <= '9' {
            assert(t =~= seq!['F', t[1]]);
        } else if t.len() == 3 && t[0] == 'F' && t[1] == '1' && '0' <= t[2] <= '2' {
            assert(t =~= seq!['F', '1', t[2]]);
        }
    }
}

/// The key of a parsed shortcut is the one its last token names.
pub proof fn lemma_parsed_key_is_named_by_last_token(s: Seq<char>, sc: Shortcut)
    requires
        parse_shortcut_spec(s) == Ok::<Shortcut, Seq<char>>(sc),
    ensures
        split_plus(s).last() == key_name(sc.key),
{
    lemma_token_is_the_key_name(split_plus(s).last());
}

/// Every shortcut that parses holds at least one modifier.
pub proof fn lemma_parsed_shortcut_has_modifier(s: Seq<char>, sc: Shortcut)
    requires
        parse_shortcut_spec(s) == Ok::<Shortcut, Seq<char>>(sc),
    ensures
        sc.mods.ctrl || sc.mods.shift || sc.mods.alt || sc.mods.super_key,
{
    let parts = split_plus(s);
    let ts = parts.drop_last();
    let t0 = ts[0];
    let md = modifier_of(t0)->0;
    assert(ts.len() >= 1);
    lemma_first_token_is_modifier(ts, sc.mods);
    lemma_modifiers_are_those_named(ts, sc.mods, md);
    assert(sc.mods.has(md));
}

/// When the modifier tokens read without error, the first of them names a modifier.
proof fn lemma_first_token_is_modifier(ts: Seq<Seq<char>>, m: Modifiers)
    requires
        ts.len() >= 1,
        fold_modifiers(ts) == Ok::<Modifiers, Seq<char>>(m),
    ensures
        modifier_of(ts[0]) is Some,
    decreases ts.len(),
{
    if ts.len() == 1 {
        assert(ts.drop_last() =~= Seq::<Seq<char>>::empty());
    } else {
        let prev = ts.drop_last();
        let pm = fold_modifiers(prev)->Ok_0;
        lemma_first_token_is_modifier(prev, pm);
        assert(prev[0] == ts[0]);
    }
}

} // verus!

verus! {

/// What changing the capture shortcut does: the shortcut to register, and the
/// one to unregister first, if the current text parses.
#[derive(Debug, Clone, Copy, PartialEq, Eq, Structural)]
pub struct ShortcutUpdate {
    pub register: Shortcut,
    pub unregister: Option<Shortcut>,
}

pub open spec fn parsed_or_none(s: Seq<char>) -> Option<Shortcut> {
    match parse_shortcut_spec(s) {
        Ok(sc) => Some(sc),
        Err(_) => None,
    }
}

/// Plans a change of the capture shortcut from `current` to `requested`. The
/// change is refused, with the parse error, when `requested` does not parse;
/// the current shortcut is unregistered only when its text parses.
pub fn plan_shortcut_update(requested: &str, current: &str) -> (r: Result<ShortcutUpdate, String>)
    ensures
        match r {
            Ok(u) => parse_shortcut_spec(requested@) == Ok::<Shortcut, Seq<char>>(u.register)
                && u.unregister == parsed_or_none(current@),
            Err(e) => parse_shortcut_spec(requested@) == Err::<Shortcut, Seq<char>>(e@),
        },
{
    let register = match parse_shortcut(requested) {
        Ok(sc) => sc,
        Err(e) => return Err(e),
    };
    let unregister = match parse_shortcut(current) {
        Ok(sc) => Some(sc),
        Err(_) => None,
    };
    Ok(ShortcutUpdate { register, unregister })
}

/// The shortcut text to start with: the saved one, or else the default.
pub fn saved_or_default_shortcut(saved: Option<String>) -> (r: String)
    ensures
        match saved {
            Some(s) => r@ == s@,
            None => r@ == DEFAULT_CAPTURE_SHORTCUT@,
        },
{
    match saved {
        Some(s) => s,
        None => String::from_str(DEFAULT_CAPTURE_SHORTCUT),
    }
}

} // verus!
