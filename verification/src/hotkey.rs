//! Keys and shortcuts: key names and their codes, shortcut text such as "Ctrl+Shift+Space",
//! the mouse side-button settings, and the cooldown between two toggles of the panel.
use vstd::prelude::*;
use vstd::string::{StrSliceExecFns, StringExecFns};
use crate::text::{ascii_lower_char, is_ascii_text, chars_of, lowercase, to_lower};

verus! {

/// The code of a lowercase key name: "space" is 0, "a" to "z" are 1 to 26, "0" to "9" are
/// 27 to 36, "f1" to "f12" are 37 to 48; any other name has none.
pub open spec fn key_code_of(s: Seq<char>) -> Option<u8> {
    if s == "space"@ {
        Some(0u8)
    } else if s.len() == 1 && 'a' <= s[0] && s[0] <= 'z' {
        Some((s[0] as int - 'a' as int + 1) as u8)
    } else if s.len() == 1 && '0' <= s[0] && s[0] <= '9' {
        Some((s[0] as int - '0' as int + 27) as u8)
    } else if s.len() == 2 && s[0] == 'f' && '1' <= s[1] && s[1] <= '9' {
        Some((s[1] as int - '1' as int + 37) as u8)
    } else if s.len() == 3 && s[0] == 'f' && s[1] == '1' && '0' <= s[2] && s[2] <= '2' {
        Some((s[2] as int - '0' as int + 46) as u8)
    } else {
        None
    }
}

/// The code of a lowercase key name, if it names a key.
pub fn key_code_for_lowercase(lower: &str) -> (r: Option<u8>)
    ensures
        r == key_code_of(lower@),
{
    let c = chars_of(lower);
    proof {
        reveal_strlit("space");
    }
    if c.len() == 5 && c[0] == 's' && c[1] == 'p' && c[2] == 'a' && c[3] == 'c' && c[4] == 'e' {
        assert(c@ =~= "space"@);
        return Some(0);
    }
    assert(lower@ != "space"@ ==> key_code_of(lower@) == key_code_of(c@));
    if c.len() == 5 {
        assert(lower@ != "space"@) by {
            if lower@ == "space"@ {
                assert(c@[0] == 's' && c@[1] == 'p' && c@[2] == 'a' && c@[3] == 'c' && c@[4] == 'e');
            }
        }
        return None;
    }
    if c.len() == 1 {
        let x = c[0];
        if 'a' <= x && x <= 'z' {
            return Some(((x as u32) - ('a' as u32) + 1) as u8);
        }
        if '0' <= x && x <= '9' {
            return Some(((x as u32) - ('0' as u32) + 27) as u8);
        }
        return None;
    }
    if c.len() == 2 && c[0] == 'f' && '1' <= c[1] && c[1] <= '9' {
        return Some(((c[1] as u32) - ('1' as u32) + 37) as u8);
    }
    if c.len() == 3 && c[0] == 'f' && c[1] == '1' && '0' <= c[2] && c[2] <= '2' {
        return Some(((c[2] as u32) - ('0' as u32) + 46) as u8);
    }
    None
}

/// The code of a lowercase key name; 0 (the code of "space") for a name of no key.
pub fn code_for_lowercase_key(lower: &str) -> (r: u8)
    ensures
        r == match key_code_of(lower@) {
            Some(c) => c,
            None => 0u8,
        },
{
    match key_code_for_lowercase(lower) {
        Some(c) => c,
        None => 0,
    }
}

/// The code of a key name, in any case; 0 (the code of "space") for a name of no key.
pub fn key_to_code(key: &str) -> (r: u8)
    ensures
        r == match key_code_of(lowercase(key@)) {
            Some(c) => c,
            None => 0u8,
        },
        is_ascii_text(key@) ==> r == match key_code_of(key@.map_values(|c: char| ascii_lower_char(c))) {
            Some(c) => c,
            None => 0u8,
        },
{
    let lower = to_lower(key);
    code_for_lowercase_key(lower.as_str())
}

/// The pieces of `s` between the separators `sep`, as `str::split` gives them ("" gives
/// one empty piece, and a separator at either end gives an empty piece there).
pub open spec fn split_on(s: Seq<char>, sep: char) -> Seq<Seq<char>>
    decreases s.len(),
{
    if s.len() == 0 {
        seq![seq![]]
    } else {
        let before = split_on(s.drop_last(), sep);
        if s.last() == sep {
            before.push(seq![])
        } else {
            before.update(before.len() - 1, before.last().push(s.last()))
        }
    }
}

proof fn lemma_split_nonempty(s: Seq<char>, sep: char)
    ensures
        split_on(s, sep).len() >= 1,
    decreases s.len(),
{
    if s.len() > 0 {
        lemma_split_nonempty(s.drop_last(), sep);
    }
}

/// The pieces of `s` between the separators `sep`.
pub fn split_text(s: &str, sep: char) -> (r: Vec<String>)
    ensures
        r.deep_view() == split_on(s@, sep),
{
    let c = chars_of(s);
    let mut parts: Vec<String> = Vec::new();
    let mut start: usize = 0;
    let mut k: usize = 0;
    proof {
        assert(s@.take(0) =~= Seq::<char>::empty());
        assert(s@.subrange(0, 0) =~= Seq::<char>::empty());
        assert(parts.deep_view() =~= Seq::<Seq<char>>::empty());
        assert(split_on(Seq::<char>::empty(), sep) =~= seq![Seq::<char>::empty()]);
    }
    while k < c.len()
        invariant
            c@ == s@,
            start <= k <= c@.len(),
            split_on(s@.take(k as int), sep) == parts.deep_view().push(s@.subrange(start as int, k as int)),
        decreases c.len() - k,
    {
        proof {
            assert(s@.take(k + 1).drop_last() =~= s@.take(k as int));
            lemma_split_nonempty(s@.take(k as int), sep);
        }
        if c[k] == sep {
            let piece = s.substring_char(start, k);
            let ghost before = parts.deep_view();
            parts.push(String::from_str(piece));
            proof {
                assert(parts.deep_view() =~= before.push(s@.subrange(start as int, k as int)));
                assert(s@.subrange(k + 1, k + 1) =~= Seq::<char>::empty());
            }
            start = k + 1;
        } else {
            proof {
                assert(s@.subrange(start as int, k + 1) =~= s@.subrange(start as int, k as int).push(c@[k as int]));
            }
        }
        k = k + 1;
    }
    let last = s.substring_char(start, k);
    parts.push(String::from_str(last));
    proof {
        assert(s@.take(k as int) =~= s@);
    }
    parts
}

/// A global shortcut: its modifiers and the code of its key.
#[derive(Debug, Clone, Copy, PartialEq, Eq, Structural)]
pub struct Hotkey {
    pub ctrl: bool,
    pub shift: bool,
    pub alt: bool,
    /// The key's code, as `key_to_code` numbers keys.
    pub code: u8,
}

/// Why a shortcut text was refused.
#[derive(Debug, Clone, PartialEq, Eq)]
pub enum HotkeyError {
    /// Fewer than two pieces between "+".
    BadFormat,
    /// A modifier other than Ctrl, Shift or Alt, as written.
    UnsupportedModifier(String),
    /// A key that has no code, as written.
    UnsupportedKey(String),
}

impl HotkeyError {
    /// The message that describes the error.
    pub fn message(&self) -> (r: String)
        ensures
            r@ == match self {
                HotkeyError::BadFormat => "快捷键格式错误，请使用如 Ctrl+Shift+Key 格式"@,
                HotkeyError::UnsupportedModifier(p) => "不支持的修饰键: "@ + p@,
                HotkeyError::UnsupportedKey(k) => "不支持的键: "@ + k@,
            },
    {
        match self {
            HotkeyError::BadFormat => String::from_str("快捷键格式错误，请使用如 Ctrl+Shift+Key 格式"),
            HotkeyError::UnsupportedModifier(p) => {
                let mut s = String::from_str("不支持的修饰键: ");
                s.append(p.as_str());
                s
            },
            HotkeyError::UnsupportedKey(k) => {
                let mut s = String::from_str("不支持的键: ");
                s.append(k.as_str());
                s
            },
        }
    }
}

/// The modifiers `0..n` of a shortcut's pieces: Ctrl, Shift, Alt found, or the first piece
/// (as written) that is none of them in lowercase.
pub open spec fn modifiers_upto(parts: Seq<Seq<char>>, n: int) -> Result<(bool, bool, bool), Seq<char>>
    decreases n,
{
    if n <= 0 {
        Ok((false, false, false))
    } else {
        match modifiers_upto(parts, n - 1) {
            Err(p) => Err(p),
            Ok((c, s, a)) => {
                let l = lowercase(parts[n - 1]);
                if l == "ctrl"@ {
                    Ok((true, s, a))
                } else if l == "shift"@ {
                    Ok((c, true, a))
                } else if l == "alt"@ {
                    Ok((c, s, true))
                } else {
                    Err(parts[n - 1])
                }
            },
        }
    }
}

/// The shortcut that a text such as "Ctrl+Shift+Space" names: pieces between "+", all but
/// the last a modifier (Ctrl, Shift or Alt, in any case), the last a key name.
pub open spec fn hotkey_of(text: Seq<char>) -> Result<Hotkey, HotkeyError> {
    let parts = split_on(text, '+');
    if parts.len() < 2 {
        Err(HotkeyError::BadFormat)
    } else {
        match modifiers_upto(parts, parts.len() - 1) {
            Err(p) => Err(HotkeyError::UnsupportedModifier(arbitrary_string_of(p))),
            Ok((c, s, a)) => match key_code_of(lowercase(parts.last())) {
                None => Err(HotkeyError::UnsupportedKey(arbitrary_string_of(parts.last()))),
                Some(code) => Ok(Hotkey { ctrl: c, shift: s, alt: a, code }),
            },
        }
    }
}

/// A string whose text is `s`.
pub open spec fn arbitrary_string_of(s: Seq<char>) -> String {
    choose|x: String| x@ == s
}

/// Whether a parse result is `expected`, errors compared by the text they carry.
pub open spec fn same_outcome(r: Result<Hotkey, HotkeyError>, expected: Result<Hotkey, HotkeyError>) -> bool {
    match (r, expected) {
        (Ok(a), Ok(b)) => a == b,
        (Err(HotkeyError::BadFormat), Err(HotkeyError::BadFormat)) => true,
        (Err(HotkeyError::UnsupportedModifier(a)), Err(HotkeyError::UnsupportedModifier(b))) => a@
            == b@,
        (Err(HotkeyError::UnsupportedKey(a)), Err(HotkeyError::UnsupportedKey(b))) => a@ == b@,
        _ => false,
    }
}

/// Reads a shortcut text such as "Ctrl+Shift+Space".
pub fn parse_hotkey(text: &str) -> (r: Result<Hotkey, HotkeyError>)
    ensures
        same_outcome(r, hotkey_of(text@)),
{
    let parts = split_text(text, '+');
    let ghost pv = parts.deep_view();
    if parts.len() < 2 {
        return Err(HotkeyError::BadFormat);
    }
    let n = parts.len() - 1;
    let mut ctrl = false;
    let mut shift = false;
    let mut alt = false;
    let mut i: usize = 0;
    while i < n
        invariant
            n == parts@.len() - 1,
            i <= n,
            pv == parts.deep_view(),
            pv == split_on(text@, '+'),
            modifiers_upto(pv, i as int) == Ok::<(bool, bool, bool), Seq<char>>((ctrl, shift, alt)),
        decreases n - i,
    {
        proof {
            reveal_strlit("ctrl");
            reveal_strlit("shift");
            reveal_strlit("alt");
        }
        let lower = to_lower(parts[i].as_str());
        let c = chars_of(lower.as_str());
        if c.len() == 4 && c[0] == 'c' && c[1] == 't' && c[2] == 'r' && c[3] == 'l' {
            assert(c@ =~= "ctrl"@);
            ctrl = true;
        } else if c.len() == 5 && c[0] == 's' && c[1] == 'h' && c[2] == 'i' && c[3] == 'f' && c[4] == 't' {
            assert(c@ =~= "shift"@);
            shift = true;
        } else if c.len() == 3 && c[0] == 'a' && c[1] == 'l' && c[2] == 't' {
            assert(c@ =~= "alt"@);
            alt = true;
        } else {
            proof {
                if c@ == "ctrl"@ {
                    assert(c@[0] == 'c' && c@[1] == 't' && c@[2] == 'r' && c@[3] == 'l');
                }
                if c@ == "shift"@ {
                    assert(c@[0] == 's' && c@[1] == 'h' && c@[2] == 'i' && c@[3] == 'f' && c@[4] == 't');
                }
                if c@ == "alt"@ {
                    assert(c@[0] == 'a' && c@[1] == 'l' && c@[2] == 't');
                }
                assert(modifiers_upto(pv, i + 1) == Err::<(bool, bool, bool), Seq<char>>(pv[i as int]));
                lemma_modifiers_stay_err(pv, i + 1, n as int);
                assert(arbitrary_string_of(pv[i as int])@ == pv[i as int]) by {
                    assert(parts@[i as int]@ == pv[i as int]);
                }
            }
            return Err(HotkeyError::UnsupportedModifier(parts[i].clone()));
        }
        i = i + 1;
    }
    let key = &parts[n];
    let lower = to_lower(key.as_str());
    proof {
        assert(pv.last() == pv[n as int]);
        assert(arbitrary_string_of(pv[n as int])@ == pv[n as int]) by {
            assert(parts@[n as int]@ == pv[n as int]);
        }
    }
    match key_code_for_lowercase(lower.as_str()) {
        None => Err(HotkeyError::UnsupportedKey(key.clone())),
        Some(code) => Ok(Hotkey { ctrl, shift, alt, code }),
    }
}

proof fn lemma_modifiers_stay_err(parts: Seq<Seq<char>>, m: int, n: int)
    requires
        0 < m <= n,
        modifiers_upto(parts, m) is Err,
    ensures
        modifiers_upto(parts, n) == modifiers_upto(parts, m),
    decreases n - m,
{
    if m < n {
        lemma_modifiers_stay_err(parts, m, n - 1);
    }
}

/// The mouse side-button settings.
#[derive(Debug, Clone, Copy, PartialEq, Eq, Structural)]
pub struct MouseSideButtonConfig {
    pub enabled: bool,
    /// Whether side button 1 toggles the panel.
    pub xbutton1: bool,
    /// Whether side button 2 toggles the panel.
    pub xbutton2: bool,
}

/// The side-button settings once they are set.
#[derive(Debug, Clone, Copy, PartialEq, Eq, Structural)]
pub struct MouseConfigCell {
    pub config: Option<MouseSideButtonConfig>,
}

/// Sets the side-button settings, the first time only.
pub fn init_mouse_config(cell: &mut MouseConfigCell, enabled: bool, xbutton1: bool, xbutton2: bool)
    ensures
        final(cell).config == match old(cell).config {
            Some(c) => Some(c),
            None => Some(MouseSideButtonConfig { enabled, xbutton1, xbutton2 }),
        },
{
    if cell.config.is_none() {
        cell.config = Some(MouseSideButtonConfig { enabled, xbutton1, xbutton2 });
    }
}

/// Changes the side-button settings, once they are set.
pub fn update_mouse_config(cell: &mut MouseConfigCell, enabled: bool, xbutton1: bool, xbutton2: bool)
    ensures
        final(cell).config == match old(cell).config {
            Some(_) => Some(MouseSideButtonConfig { enabled, xbutton1, xbutton2 }),
            None => None::<MouseSideButtonConfig>,
        },
{
    if cell.config.is_some() {
        cell.config = Some(MouseSideButtonConfig { enabled, xbutton1, xbutton2 });
    }
}

/// Whether a side-button press (with the hook's `mouse_data`, whose high 16 bits name the
/// button) toggles the panel: the settings are set and enabled, and that button is on.
pub fn side_button_toggles(cell: &MouseConfigCell, mouse_data: u32) -> (r: bool)
    ensures
        r == match cell.config {
            Some(c) => c.enabled && ((mouse_data / 65536 == 1 && c.xbutton1) || (mouse_data / 65536
                == 2 && c.xbutton2)),
            None => false,
        },
{
    let xbutton = (mouse_data >> 16) & 0xFFFF;
    assert(xbutton == mouse_data / 65536) by (bit_vector)
        requires
            xbutton == (mouse_data >> 16) & 0xFFFF,
    ;
    match cell.config {
        Some(c) => c.enabled && ((xbutton == 1 && c.xbutton1) || (xbutton == 2 && c.xbutton2)),
        None => false,
    }
}

/// The message of a side button going down, as a low-level mouse hook receives it.
pub const WM_XBUTTONDOWN: u32 = 0x020B;

/// Whether an event of the low-level mouse hook (`ncode`, message `wparam`, `mouse_data`)
/// toggles the panel: the hook may act on it (`ncode >= 0`), it is a side button going down,
/// and the settings let that button toggle. Every event is passed on either way.
pub fn mouse_hook_toggles(cell: &MouseConfigCell, ncode: i32, wparam: u32, mouse_data: u32) -> (r: bool)
    ensures
        r == (ncode >= 0 && wparam == WM_XBUTTONDOWN && match cell.config {
            Some(c) => c.enabled && ((mouse_data / 65536 == 1 && c.xbutton1) || (mouse_data / 65536 == 2
                && c.xbutton2)),
            None => false,
        }),
{
    ncode >= 0 && wparam == WM_XBUTTONDOWN && side_button_toggles(cell, mouse_data)
}

/// The least time between two toggles of the panel, in milliseconds.
pub const TOGGLE_COOLDOWN_MS: i64 = 500;

/// When the panel was last toggled.
#[derive(Debug, Clone, Copy, PartialEq, Eq, Structural)]
pub struct ToggleGate {
    /// In milliseconds of a clock that never goes back; `None` before the first request.
    pub last_toggle_ms: Option<i64>,
}

/// The outcome of a request to toggle the panel at `now`, after the last toggle `last`
/// (`None` before any toggle): whether it goes through (the first request does, later ones
/// at least 500 ms after the last toggle), and the new last toggle.
pub open spec fn toggle_step(last: Option<i64>, now: i64) -> (bool, Option<i64>) {
    match last {
        None => (true, Some(now)),
        Some(l) => if now - l >= TOGGLE_COOLDOWN_MS {
            (true, Some(now))
        } else {
            (false, Some(l))
        },
    }
}

/// Whether a request to toggle the panel at `now_ms` goes through.
pub fn toggle_allowed(gate: &mut ToggleGate, now_ms: i64) -> (r: bool)
    requires
        old(gate).last_toggle_ms matches Some(l) ==> l <= now_ms,
    ensures
        (r, final(gate).last_toggle_ms) == toggle_step(old(gate).last_toggle_ms, now_ms),
{
    match gate.last_toggle_ms {
        None => {
            gate.last_toggle_ms = Some(now_ms);
            true
        },
        Some(last) => {
            if (now_ms as i128) - (last as i128) < TOGGLE_COOLDOWN_MS as i128 {
                return false;
            }
            gate.last_toggle_ms = Some(now_ms);
            true
        },
    }
}

/// The first request to toggle the panel goes through; after a toggle, any request less
/// than 500 ms later is refused, and one at least 500 ms later goes through.
pub proof fn law_toggle_cooldown(last: Option<i64>, now: i64, later: i64)
    requires
        toggle_step(last, now).0,
        now <= later,
    ensures
        toggle_step(None, now).0,
        later < now + TOGGLE_COOLDOWN_MS ==> !toggle_step(toggle_step(last, now).1, later).0,
        later >= now + TOGGLE_COOLDOWN_MS ==> toggle_step(toggle_step(last, now).1, later).0,
{
}

} // verus!
