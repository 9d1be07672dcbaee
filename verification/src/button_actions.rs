//! Validates button assignments and tracks injected input ownership independently of
//! Windows. The state machine never executes commands; shortcuts are one keyboard chord.
use vstd::prelude::*;
use vstd::utf8::encode_utf8;
use crate::captured_chords::{held_codes, lemma_captured_chord_reads_back};
use crate::text::{
    chars_of, same_text, starts_with_text, tail, trimmed, uppercased, string_of, trim, upper, trim_start, trim_end,
    is_ws, upper_char,
};

verus! {

/// Prefix of a custom shortcut action.
pub const CUSTOM: &'static str = "Shortcut: ";

/// Every built-in button action.
pub const BUTTON_ACTIONS: [&'static str; 11] = [
    "None",
    "Right click",
    "Erase (hold)",
    "Undo (Ctrl+Z)",
    "Redo (Ctrl+Y)",
    "Eraser (E)",
    "Brush (B)",
    "Pan (hold Space)",
    "Left click",
    "Middle click",
    "Double click",
];

pub open spec fn shortcut_error() -> Seq<char> {
    "Use a shortcut such as Ctrl+Z, Ctrl+Shift+S, Space or F5"@
}

/// The pieces of a text between `+` signs (there is always at least one).
pub open spec fn split_plus(s: Seq<char>) -> Seq<Seq<char>>
    decreases s.len(),
{
    if s.len() == 0 {
        seq![seq![]]
    } else {
        let r = split_plus(s.drop_last());
        if s.last() == '+' {
            r.push(seq![])
        } else {
            r.update(r.len() - 1, r.last().push(s.last()))
        }
    }
}

proof fn lemma_split_plus_len(s: Seq<char>)
    ensures
        split_plus(s).len() >= 1,
    decreases s.len(),
{
    if s.len() > 0 {
        lemma_split_plus_len(s.drop_last());
    }
}

/// Virtual key of a modifier name (upper case).
pub open spec fn modifier_code(name: Seq<char>) -> Option<u16> {
    if name == "CTRL"@ || name == "CONTROL"@ {
        Some(0x11)
    } else if name == "SHIFT"@ {
        Some(0x10)
    } else if name == "ALT"@ {
        Some(0x12)
    } else if name == "WIN"@ || name == "WINDOWS"@ {
        Some(0x5b)
    } else {
        None
    }
}

/// Virtual key of a named key (upper case).
pub open spec fn named_code(name: Seq<char>) -> Option<u16> {
    if name == "SPACE"@ { Some(0x20) }
    else if name == "ENTER"@ || name == "RETURN"@ { Some(0x0d) }
    else if name == "TAB"@ { Some(9) }
    else if name == "ESC"@ || name == "ESCAPE"@ { Some(0x1b) }
    else if name == "BACKSPACE"@ { Some(8) }
    else if name == "DELETE"@ || name == "DEL"@ { Some(0x2e) }
    else if name == "INSERT"@ || name == "INS"@ { Some(0x2d) }
    else if name == "HOME"@ { Some(0x24) }
    else if name == "END"@ { Some(0x23) }
    else if name == "PAGEUP"@ || name == "PGUP"@ { Some(0x21) }
    else if name == "PAGEDOWN"@ || name == "PGDN"@ { Some(0x22) }
    else if name == "LEFT"@ { Some(0x25) }
    else if name == "UP"@ { Some(0x26) }
    else if name == "RIGHT"@ { Some(0x27) }
    else if name == "DOWN"@ { Some(0x28) }
    else if name == "SEMICOLON"@ { Some(0xba) }
    else if name == "PLUS"@ { Some(0xbb) }
    else if name == "COMMA"@ { Some(0xbc) }
    else if name == "MINUS"@ { Some(0xbd) }
    else if name == "PERIOD"@ { Some(0xbe) }
    else if name == "SLASH"@ { Some(0xbf) }
    else if name == "BACKTICK"@ { Some(0xc0) }
    else if name == "LEFTBRACKET"@ { Some(0xdb) }
    else if name == "BACKSLASH"@ { Some(0xdc) }
    else if name == "RIGHTBRACKET"@ { Some(0xdd) }
    else if name == "QUOTE"@ { Some(0xde) }
    else if name == "MULTIPLY"@ { Some(0x6a) }
    else if name == "ADD"@ { Some(0x6b) }
    else if name == "SUBTRACT"@ { Some(0x6d) }
    else if name == "DECIMAL"@ { Some(0x6e) }
    else if name == "DIVIDE"@ { Some(0x6f) }
    else { None }
}

pub open spec fn is_digit(c: char) -> bool {
    '0' <= c && c <= '9'
}

pub open spec fn is_alnum(c: char) -> bool {
    is_digit(c) || ('A' <= c && c <= 'Z') || ('a' <= c && c <= 'z')
}

/// Decimal value of a digit string.
pub open spec fn decimal_value(s: Seq<char>) -> int
    decreases s.len(),
{
    if s.len() == 0 { 0 } else { decimal_value(s.drop_last()) * 10 + ((s.last() as u32) - ('0' as u32)) }
}

pub open spec fn all_digits(s: Seq<char>) -> bool {
    forall|i: int| 0 <= i < s.len() ==> is_digit(#[trigger] s[i])
}

/// Virtual key of a non-modifier key name (upper case): named keys, `NUMPAD0`..`NUMPAD9`,
/// single letters or digits, and `F1`..`F24` (the number may have leading zeros).
pub open spec fn key_code(name: Seq<char>) -> Option<u16> {
    if named_code(name) is Some {
        named_code(name)
    } else if name.len() == 7 && name.take(6) == "NUMPAD"@ && is_digit(name[6]) {
        Some((0x60 + ((name[6] as u32) - ('0' as u32))) as u16)
    } else if name.len() == 1 && is_alnum(name[0]) {
        Some(name[0] as u16)
    } else if name.len() >= 2 && name[0] == 'F' && all_digits(name.skip(1)) && 1 <= decimal_value(name.skip(1))
        <= 24 {
        Some((0x6f + decimal_value(name.skip(1))) as u16)
    } else {
        None
    }
}

/// The chord so far (modifiers in order, then the key), or `None` after an error.
pub open spec fn parse_parts(parts: Seq<Seq<char>>) -> Option<(Seq<u16>, Option<u16>)>
    decreases parts.len(),
{
    if parts.len() == 0 {
        Some((seq![], None))
    } else {
        match parse_parts(parts.drop_last()) {
            None => None,
            Some((mods, key)) => {
                let name = upper(trim(parts.last()));
                match modifier_code(name) {
                    Some(vk) => if mods.contains(vk) { None } else { Some((mods.push(vk), key)) },
                    None => match key_code(name) {
                        None => None,
                        Some(vk) => if key is Some { None } else { Some((mods, Some(vk))) },
                    },
                }
            },
        }
    }
}

/// The virtual key of a modifier: Shift, Ctrl, Alt or Windows.
pub open spec fn is_modifier_key(vk: u16) -> bool {
    vk == 0x10 || vk == 0x11 || vk == 0x12 || vk == 0x5b
}

proof fn lemma_key_code_not_modifier(name: Seq<char>)
    ensures
        key_code(name) matches Some(vk) ==> !is_modifier_key(vk),
{
    if named_code(name) is None && !(name.len() == 7 && name.take(6) == "NUMPAD"@ && is_digit(name[6])) && !(name.len()
        == 1 && is_alnum(name[0])) && name.len() >= 2 && name[0] == 'F' && all_digits(name.skip(1)) && 1
        <= decimal_value(name.skip(1)) <= 24 {
        let v = decimal_value(name.skip(1));
        assert(0x70 <= 0x6f + v <= 0x87);
    }
}

proof fn lemma_parse_parts_shape(parts: Seq<Seq<char>>)
    ensures
        parse_parts(parts) matches Some((mods, key)) ==> {
            &&& mods.len() + (if key is Some { 1int } else { 0int }) == parts.len()
            &&& forall|i: int, j: int| 0 <= i < j < mods.len() ==> mods[i] != mods[j]
            &&& forall|i: int| 0 <= i < mods.len() ==> is_modifier_key(#[trigger] mods[i])
            &&& key matches Some(k) ==> !is_modifier_key(k)
        },
    decreases parts.len(),
{
    if parts.len() > 0 {
        lemma_parse_parts_shape(parts.drop_last());
        let name = upper(trim(parts.last()));
        lemma_key_code_not_modifier(name);
        if let Some((mods, key)) = parse_parts(parts.drop_last()) {
            if let Some(vk) = modifier_code(name) {
                if !mods.contains(vk) {
                    let m2 = mods.push(vk);
                    assert forall|i: int, j: int| 0 <= i < j < m2.len() implies m2[i] != m2[j] by {
                        if j == mods.len() {
                            assert(mods[i] == m2[i]);
                        }
                    }
                }
            }
        }
    }
}

/// A shortcut is one chord: a text whose UTF-8 encoding is longer than 80 bytes is refused;
/// otherwise there is one virtual key for each `+`-separated part, the modifiers first and
/// each at most once, then exactly one key that is no modifier.
pub proof fn lemma_shortcut_shape(text: Seq<char>)
    ensures
        encode_utf8(text).len() > 80 ==> spec_shortcut(text) is None,
        spec_shortcut(text) matches Some(v) ==> {
            &&& v.len() == split_plus(text).len()
            &&& forall|i: int, j: int| 0 <= i < j < v.len() - 1 ==> v[i] != v[j]
            &&& forall|i: int| 0 <= i < v.len() - 1 ==> is_modifier_key(#[trigger] v[i])
            &&& !is_modifier_key(v.last())
        },
{
    lemma_parse_parts_shape(split_plus(text));
    if let Some(v) = spec_shortcut(text) {
        if let Some((mods, Some(key))) = parse_parts(split_plus(text)) {
            assert(v == mods.push(key));
            assert forall|i: int| 0 <= i < v.len() - 1 implies is_modifier_key(#[trigger] v[i]) by {
                assert(v[i] == mods[i]);
            }
            assert forall|i: int, j: int| 0 <= i < j < v.len() - 1 implies v[i] != v[j] by {
                assert(v[i] == mods[i]);
                assert(v[j] == mods[j]);
            }
        }
    }
}

/// The virtual keys of a chord text: distinct modifiers first, then exactly one key.
pub open spec fn spec_shortcut(text: Seq<char>) -> Option<Seq<u16>> {
    if encode_utf8(text).len() > 80 {
        None
    } else {
        match parse_parts(split_plus(text)) {
            Some((mods, Some(key))) => Some(mods.push(key)),
            _ => None,
        }
    }
}

fn modifier_of(name: &Vec<char>) -> (r: Option<u16>)
    ensures
        r == modifier_code(name@),
{
    if same_text(name, "CTRL") || same_text(name, "CONTROL") {
        Some(0x11)
    } else if same_text(name, "SHIFT") {
        Some(0x10)
    } else if same_text(name, "ALT") {
        Some(0x12)
    } else if same_text(name, "WIN") || same_text(name, "WINDOWS") {
        Some(0x5b)
    } else {
        None
    }
}

fn named_of(name: &Vec<char>) -> (r: Option<u16>)
    ensures
        r == named_code(name@),
{
    if same_text(name, "SPACE") { Some(0x20) }
    else if same_text(name, "ENTER") || same_text(name, "RETURN") { Some(0x0d) }
    else if same_text(name, "TAB") { Some(9) }
    else if same_text(name, "ESC") || same_text(name, "ESCAPE") { Some(0x1b) }
    else if same_text(name, "BACKSPACE") { Some(8) }
    else if same_text(name, "DELETE") || same_text(name, "DEL") { Some(0x2e) }
    else if same_text(name, "INSERT") || same_text(name, "INS") { Some(0x2d) }
    else if same_text(name, "HOME") { Some(0x24) }
    else if same_text(name, "END") { Some(0x23) }
    else if same_text(name, "PAGEUP") || same_text(name, "PGUP") { Some(0x21) }
    else if same_text(name, "PAGEDOWN") || same_text(name, "PGDN") { Some(0x22) }
    else if same_text(name, "LEFT") { Some(0x25) }
    else if same_text(name, "UP") { Some(0x26) }
    else if same_text(name, "RIGHT") { Some(0x27) }
    else if same_text(name, "DOWN") { Some(0x28) }
    else if same_text(name, "SEMICOLON") { Some(0xba) }
    else if same_text(name, "PLUS") { Some(0xbb) }
    else if same_text(name, "COMMA") { Some(0xbc) }
    else if same_text(name, "MINUS") { Some(0xbd) }
    else if same_text(name, "PERIOD") { Some(0xbe) }
    else if same_text(name, "SLASH") { Some(0xbf) }
    else if same_text(name, "BACKTICK") { Some(0xc0) }
    else if same_text(name, "LEFTBRACKET") { Some(0xdb) }
    else if same_text(name, "BACKSLASH") { Some(0xdc) }
    else if same_text(name, "RIGHTBRACKET") { Some(0xdd) }
    else if same_text(name, "QUOTE") { Some(0xde) }
    else if same_text(name, "MULTIPLY") { Some(0x6a) }
    else if same_text(name, "ADD") { Some(0x6b) }
    else if same_text(name, "SUBTRACT") { Some(0x6d) }
    else if same_text(name, "DECIMAL") { Some(0x6e) }
    else if same_text(name, "DIVIDE") { Some(0x6f) }
    else { None }
}

/// The number written by `s[from..]` when it is all digits, capped at 1000.
fn small_decimal(s: &Vec<char>, from: usize) -> (r: Option<u32>)
    requires
        from <= s@.len(),
    ensures
        r is Some <==> all_digits(s@.skip(from as int)),
        r matches Some(v) ==> (v == decimal_value(s@.skip(from as int)) || (v == 1000 && decimal_value(
            s@.skip(from as int),
        ) >= 1000)),
{
    let mut v: u32 = 0;
    let mut i = from;
    while i < s.len()
        invariant
            from <= i <= s@.len(),
            all_digits(s@.subrange(from as int, i as int)),
            v == decimal_value(s@.subrange(from as int, i as int)) || (v == 1000 && decimal_value(
                s@.subrange(from as int, i as int),
            ) >= 1000),
            v <= 1000,
            decimal_value(s@.subrange(from as int, i as int)) >= 0,
        decreases s@.len() - i,
    {
        let c = s[i];
        let ghost prev = s@.subrange(from as int, i as int);
        let ghost next = s@.subrange(from as int, i as int + 1);
        assert(next.drop_last() =~= prev);
        if !('0' <= c && c <= '9') {
            assert(!all_digits(s@.skip(from as int))) by {
                assert(s@.skip(from as int)[i - from] == c);
            }
            return None;
        }
        let d = (c as u32) - ('0' as u32);
        v = if v >= 100 { 1000 } else { let w = v * 10 + d; if w >= 1000 { 1000 } else { w } };
        assert(all_digits(next)) by {
            assert forall|k: int| 0 <= k < next.len() implies is_digit(#[trigger] next[k]) by {
                if k < prev.len() {
                    assert(next[k] == prev[k]);
                }
            }
        }
        i += 1;
    }
    assert(s@.subrange(from as int, s@.len() as int) =~= s@.skip(from as int));
    Some(v)
}

fn key_of(name: &Vec<char>) -> (r: Option<u16>)
    ensures
        r == key_code(name@),
{
    if let Some(vk) = named_of(name) {
        return Some(vk);
    }
    proof {
        reveal_strlit("NUMPAD");
    }
    if name.len() == 7 && starts_with_text(name, "NUMPAD") && '0' <= name[6] && name[6] <= '9' {
        return Some((0x60 + ((name[6] as u32) - ('0' as u32))) as u16);
    }
    if name.len() == 1 && (('0' <= name[0] && name[0] <= '9') || ('A' <= name[0] && name[0] <= 'Z') || ('a' <= name[0]
        && name[0] <= 'z')) {
        return Some(name[0] as u32 as u16);
    }
    if name.len() >= 2 && name[0] == 'F' {
        if let Some(n) = small_decimal(name, 1) {
            if 1 <= n && n <= 24 {
                return Some((0x6f + n) as u16);
            }
        }
    }
    None
}

/// The text split at every `+`.
fn split_on_plus(cs: &Vec<char>) -> (parts: Vec<Vec<char>>)
    ensures
        parts@.len() == split_plus(cs@).len(),
        forall|i: int| 0 <= i < parts@.len() ==> #[trigger] parts@[i]@ == split_plus(cs@)[i],
{
    let mut parts: Vec<Vec<char>> = Vec::new();
    let mut current: Vec<char> = Vec::new();
    let mut i: usize = 0;
    while i < cs.len()
        invariant
            i <= cs@.len(),
            parts@.len() + 1 == split_plus(cs@.take(i as int)).len(),
            forall|k: int| 0 <= k < parts@.len() ==> #[trigger] parts@[k]@ == split_plus(cs@.take(i as int))[k],
            current@ == split_plus(cs@.take(i as int)).last(),
        decreases cs@.len() - i,
    {
        let c = cs[i];
        proof {
            assert(cs@.take(i as int + 1).drop_last() =~= cs@.take(i as int));
            lemma_split_plus_len(cs@.take(i as int));
        }
        if c == '+' {
            let done = current;
            parts.push(done);
            current = Vec::new();
            proof {
                assert(current@ =~= seq![]);
            }
        } else {
            current.push(c);
        }
        i += 1;
    }
    proof {
        assert(cs@.take(cs@.len() as int) =~= cs@);
        lemma_split_plus_len(cs@);
    }
    parts.push(current);
    parts
}

/// Parse a named key chord into Windows virtual keys, modifiers first.
pub fn shortcut(text: &str) -> (r: Result<Vec<u16>, String>)
    ensures
        match r {
            Ok(keys) => spec_shortcut(text@) == Some(keys@),
            Err(e) => spec_shortcut(text@) is None && e@ == shortcut_error(),
        },
{
    if text.as_bytes().len() > 80 {
        return Err("Use a shortcut such as Ctrl+Z, Ctrl+Shift+S, Space or F5".to_owned());
    }
    assert(encode_utf8(text@).len() <= 80);
    let cs = chars_of(text);
    let parts = split_on_plus(&cs);
    let ghost all = split_plus(text@);
    let mut modifiers: Vec<u16> = Vec::new();
    let mut key: Option<u16> = None;
    let mut k: usize = 0;
    while k < parts.len()
        invariant
            k <= parts@.len() == all.len(),
            all == split_plus(text@),
            forall|i: int| 0 <= i < parts@.len() ==> #[trigger] parts@[i]@ == all[i],
            parse_parts(all.take(k as int)) == Some((modifiers@, key)),
            encode_utf8(text@).len() <= 80,
        decreases parts@.len() - k,
    {
        proof {
            assert(all.take(k as int + 1).drop_last() =~= all.take(k as int));
            assert(all.take(k as int + 1).last() == parts@[k as int]@);
        }
        let t = trimmed(&parts[k]);
        let name = uppercased(&t);
        if let Some(vk) = modifier_of(&name) {
            let mut seen = false;
            let mut j: usize = 0;
            while j < modifiers.len()
                invariant
                    j <= modifiers@.len(),
                    seen <==> exists|x: int| 0 <= x < j && modifiers@[x] == vk,
                decreases modifiers@.len() - j,
            {
                if modifiers[j] == vk {
                    seen = true;
                }
                j += 1;
            }
            if seen {
                proof {
                    assert(parse_parts(all.take(k as int + 1)) is None);
                    lemma_parse_stays_failed(all, k as int + 1);
                    assert(all.take(all.len() as int) =~= all);
                }
                return Err("Use a shortcut such as Ctrl+Z, Ctrl+Shift+S, Space or F5".to_owned());
            }
            modifiers.push(vk);
        } else {
            match key_of(&name) {
                None => {
                    proof {
                        lemma_parse_stays_failed(all, k as int + 1);
                        assert(all.take(all.len() as int) =~= all);
                    }
                    return Err("Use a shortcut such as Ctrl+Z, Ctrl+Shift+S, Space or F5".to_owned());
                },
                Some(vk) => {
                    if key.is_some() {
                        proof {
                            lemma_parse_stays_failed(all, k as int + 1);
                            assert(all.take(all.len() as int) =~= all);
                        }
                        return Err("Use a shortcut such as Ctrl+Z, Ctrl+Shift+S, Space or F5".to_owned());
                    }
                    key = Some(vk);
                },
            }
        }
        k += 1;
    }
    proof {
        assert(all.take(all.len() as int) =~= all);
    }
    match key {
        Some(vk) => {
            let ghost mods = modifiers@;
            modifiers.push(vk);
            proof {
                assert(parse_parts(all) == Some((mods, Some(vk))));
                assert(encode_utf8(text@).len() <= 80);
                assert(spec_shortcut(text@) == Some(mods.push(vk)));
            }
            Ok(modifiers)
        },
        None => Err("Use a shortcut such as Ctrl+Z, Ctrl+Shift+S, Space or F5".to_owned()),
    }
}

/// A failed parse stays failed whatever follows.
proof fn lemma_parse_stays_failed(parts: Seq<Seq<char>>, n: int)
    requires
        0 <= n <= parts.len(),
        parse_parts(parts.take(n)) is None,
    ensures
        parse_parts(parts) is None,
    decreases parts.len() - n,
{
    if n < parts.len() {
        assert(parts.take(n + 1).drop_last() =~= parts.take(n));
        lemma_parse_stays_failed(parts, n + 1);
    } else {
        assert(parts.take(n) =~= parts);
    }
}

/// The chord a built-in or custom shortcut action executes.
pub open spec fn spec_action_shortcut(action: Seq<char>) -> Option<Seq<char>> {
    if action == "Undo (Ctrl+Z)"@ {
        Some("Ctrl+Z"@)
    } else if action == "Redo (Ctrl+Y)"@ {
        Some("Ctrl+Y"@)
    } else if action == "Eraser (E)"@ {
        Some("E"@)
    } else if action == "Brush (B)"@ {
        Some("B"@)
    } else if action.len() >= "Shortcut: "@.len() && action.take("Shortcut: "@.len() as int) == "Shortcut: "@ {
        Some(action.skip("Shortcut: "@.len() as int))
    } else {
        None
    }
}

/// Display and execute the same chord for built-in and custom shortcut actions.
pub fn action_shortcut(action: &str) -> (r: Option<String>)
    ensures
        r matches Some(s) ==> spec_action_shortcut(action@) == Some(s@),
        r is None ==> spec_action_shortcut(action@) is None,
{
    let a = chars_of(action);
    if same_text(&a, "Undo (Ctrl+Z)") {
        Some("Ctrl+Z".to_owned())
    } else if same_text(&a, "Redo (Ctrl+Y)") {
        Some("Ctrl+Y".to_owned())
    } else if same_text(&a, "Eraser (E)") {
        Some("E".to_owned())
    } else if same_text(&a, "Brush (B)") {
        Some("B".to_owned())
    } else if starts_with_text(&a, CUSTOM) {
        let n = chars_of(CUSTOM).len();
        let rest = tail(&a, n);
        Some(string_of(&rest))
    } else {
        None
    }
}

/// A validated custom action can always fire: its chord parses.
pub proof fn lemma_valid_custom_chord_parses(a: Seq<char>)
    requires
        is_custom(a),
        spec_validate(a) is Ok,
    ensures
        chord_parses(a),
        spec_action_shortcut(a) == Some(a.skip("Shortcut: "@.len() as int)),
{
    reveal_strlit("Shortcut: ");
    reveal_strlit("Undo (Ctrl+Z)");
    reveal_strlit("Redo (Ctrl+Y)");
    reveal_strlit("Eraser (E)");
    reveal_strlit("Brush (B)");
    assert(a[0] == 'S') by {
        assert(a.take(10)[0] == "Shortcut: "@[0]);
    }
    assert(a != "Undo (Ctrl+Z)"@) by {
        if a == "Undo (Ctrl+Z)"@ {
            assert("Undo (Ctrl+Z)"@[0] == 'U');
        }
    }
    assert(a != "Redo (Ctrl+Y)"@) by {
        if a == "Redo (Ctrl+Y)"@ {
            assert("Redo (Ctrl+Y)"@[0] == 'R');
        }
    }
    assert(a != "Eraser (E)"@) by {
        if a == "Eraser (E)"@ {
            assert("Eraser (E)"@[0] == 'E');
        }
    }
    assert(a != "Brush (B)"@) by {
        if a == "Brush (B)"@ {
            assert("Brush (B)"@[0] == 'B');
        }
    }
}

/// One of the built-in button actions.
pub open spec fn is_button_action(a: Seq<char>) -> bool {
    a == "None"@ || a == "Right click"@ || a == "Erase (hold)"@ || a == "Undo (Ctrl+Z)"@ || a == "Redo (Ctrl+Y)"@
        || a == "Eraser (E)"@ || a == "Brush (B)"@ || a == "Pan (hold Space)"@ || a == "Left click"@ || a
        == "Middle click"@ || a == "Double click"@
}

pub open spec fn unsupported_action() -> Seq<char> {
    "Unsupported button action"@
}

pub open spec fn is_custom(a: Seq<char>) -> bool {
    a.len() >= "Shortcut: "@.len() && a.take("Shortcut: "@.len() as int) == "Shortcut: "@
}

/// A custom action must hold a valid chord; any other must be a built-in action.
pub open spec fn spec_validate(a: Seq<char>) -> Result<(), Seq<char>> {
    if is_custom(a) {
        if spec_shortcut(a.skip("Shortcut: "@.len() as int)) is Some { Ok(()) } else { Err(shortcut_error()) }
    } else if is_button_action(a) {
        Ok(())
    } else {
        Err(unsupported_action())
    }
}

pub fn validate(action: &str) -> (r: Result<(), String>)
    ensures
        match r {
            Ok(()) => spec_validate(action@) == Ok::<(), Seq<char>>(()),
            Err(e) => spec_validate(action@) == Err::<(), Seq<char>>(e@),
        },
{
    let a = chars_of(action);
    if starts_with_text(&a, CUSTOM) {
        let n = chars_of(CUSTOM).len();
        let rest = string_of(&tail(&a, n));
        match shortcut(rest.as_str()) {
            Ok(_) => Ok(()),
            Err(e) => Err(e),
        }
    } else if same_text(&a, "None") || same_text(&a, "Right click") || same_text(&a, "Erase (hold)") || same_text(
        &a,
        "Undo (Ctrl+Z)",
    ) || same_text(&a, "Redo (Ctrl+Y)") || same_text(&a, "Eraser (E)") || same_text(&a, "Brush (B)") || same_text(
        &a,
        "Pan (hold Space)",
    ) || same_text(&a, "Left click") || same_text(&a, "Middle click") || same_text(&a, "Double click") {
        Ok(())
    } else {
        Err("Unsupported button action".to_owned())
    }
}

pub open spec fn digit_char(d: int) -> char {
    (('0' as u32) + d) as char
}

/// Decimal text of a number below 100.
pub open spec fn decimal_text(n: int) -> Seq<char> {
    if n < 10 { seq![digit_char(n)] } else { seq![digit_char(n / 10), digit_char(n % 10)] }
}

/// The shortcut-parser name of a Windows virtual key, for the keys a shortcut may use.
pub open spec fn key_name(key: u16) -> Option<Seq<char>> {
    if (0x30 <= key <= 0x39) || (0x41 <= key <= 0x5a) { Some(seq![key as char]) }
    else if 0x70 <= key <= 0x87 { Some("F"@ + decimal_text(key - 0x6f)) }
    else if 0x60 <= key <= 0x69 { Some("Numpad"@ + decimal_text(key - 0x60)) }
    else if key == 8 { Some("Backspace"@) }
    else if key == 9 { Some("Tab"@) }
    else if key == 13 { Some("Enter"@) }
    else if key == 27 { Some("Escape"@) }
    else if key == 32 { Some("Space"@) }
    else if key == 0x21 { Some("PageUp"@) }
    else if key == 0x22 { Some("PageDown"@) }
    else if key == 0x23 { Some("End"@) }
    else if key == 0x24 { Some("Home"@) }
    else if key == 0x25 { Some("Left"@) }
    else if key == 0x26 { Some("Up"@) }
    else if key == 0x27 { Some("Right"@) }
    else if key == 0x28 { Some("Down"@) }
    else if key == 0x2d { Some("Insert"@) }
    else if key == 0x2e { Some("Delete"@) }
    else if key == 0x6a { Some("Multiply"@) }
    else if key == 0x6b { Some("Add"@) }
    else if key == 0x6d { Some("Subtract"@) }
    else if key == 0x6e { Some("Decimal"@) }
    else if key == 0x6f { Some("Divide"@) }
    else if key == 0xba { Some("Semicolon"@) }
    else if key == 0xbb { Some("Plus"@) }
    else if key == 0xbc { Some("Comma"@) }
    else if key == 0xbd { Some("Minus"@) }
    else if key == 0xbe { Some("Period"@) }
    else if key == 0xbf { Some("Slash"@) }
    else if key == 0xc0 { Some("Backtick"@) }
    else if key == 0xdb { Some("LeftBracket"@) }
    else if key == 0xdc { Some("Backslash"@) }
    else if key == 0xdd { Some("RightBracket"@) }
    else if key == 0xde { Some("Quote"@) }
    else { None }
}

pub open spec fn modifier_name(i: int) -> Seq<char> {
    if i == 0 { "Ctrl"@ } else if i == 1 { "Shift"@ } else if i == 2 { "Alt"@ } else { "Win"@ }
}

/// Names of the held modifiers among the first `n`, in the order Ctrl, Shift, Alt, Win.
pub open spec fn held_modifiers(m: Seq<bool>, n: int) -> Seq<Seq<char>>
    decreases n,
{
    if n <= 0 {
        seq![]
    } else {
        held_modifiers(m, n - 1) + if m[n - 1] { seq![modifier_name(n - 1)] } else { seq![] }
    }
}

/// Parts joined with `+`.
pub open spec fn join_plus(parts: Seq<Seq<char>>) -> Seq<char>
    decreases parts.len(),
{
    if parts.len() == 0 {
        seq![]
    } else if parts.len() == 1 {
        parts[0]
    } else {
        join_plus(parts.drop_last()).push('+') + parts.last()
    }
}

/// The chord text for a captured key with held modifiers.
pub open spec fn chord_text(key: u16, modifiers: Seq<bool>) -> Option<Seq<char>> {
    match key_name(key) {
        Some(name) => Some(join_plus(held_modifiers(modifiers, 4).push(name))),
        None => None,
    }
}

pub open spec fn unsupported_key() -> Seq<char> {
    "This key is not supported. Try another key or combination."@
}

fn push_decimal(out: &mut String, n: u16)
    requires
        n < 100,
    ensures
        final(out)@ == old(out)@ + decimal_text(n as int),
{
    if n < 10 {
        crate::text::push_char(out, ((('0' as u32) + n as u32) as u8) as char);
    } else {
        crate::text::push_char(out, ((('0' as u32) + (n / 10) as u32) as u8) as char);
        crate::text::push_char(out, ((('0' as u32) + (n % 10) as u32) as u8) as char);
    }
    assert(out@ =~= old(out)@ + decimal_text(n as int));
}

fn key_name_of(key: u16) -> (r: Option<String>)
    ensures
        r matches Some(s) ==> key_name(key) == Some(s@),
        r is None ==> key_name(key) is None,
{
    if (0x30 <= key && key <= 0x39) || (0x41 <= key && key <= 0x5a) {
        let mut s = String::new();
        crate::text::push_char(&mut s, (key as u8) as char);
        assert(s@ =~= seq![key as char]);
        return Some(s);
    }
    if 0x70 <= key && key <= 0x87 {
        let mut s = "F".to_owned();
        push_decimal(&mut s, key - 0x6f);
        return Some(s);
    }
    if 0x60 <= key && key <= 0x69 {
        let mut s = "Numpad".to_owned();
        push_decimal(&mut s, key - 0x60);
        return Some(s);
    }
    let name = if key == 8 { "Backspace" }
        else if key == 9 { "Tab" }
        else if key == 13 { "Enter" }
        else if key == 27 { "Escape" }
        else if key == 32 { "Space" }
        else if key == 0x21 { "PageUp" }
        else if key == 0x22 { "PageDown" }
        else if key == 0x23 { "End" }
        else if key == 0x24 { "Home" }
        else if key == 0x25 { "Left" }
        else if key == 0x26 { "Up" }
        else if key == 0x27 { "Right" }
        else if key == 0x28 { "Down" }
        else if key == 0x2d { "Insert" }
        else if key == 0x2e { "Delete" }
        else if key == 0x6a { "Multiply" }
        else if key == 0x6b { "Add" }
        else if key == 0x6d { "Subtract" }
        else if key == 0x6e { "Decimal" }
        else if key == 0x6f { "Divide" }
        else if key == 0xba { "Semicolon" }
        else if key == 0xbb { "Plus" }
        else if key == 0xbc { "Comma" }
        else if key == 0xbd { "Minus" }
        else if key == 0xbe { "Period" }
        else if key == 0xbf { "Slash" }
        else if key == 0xc0 { "Backtick" }
        else if key == 0xdb { "LeftBracket" }
        else if key == 0xdc { "Backslash" }
        else if key == 0xdd { "RightBracket" }
        else if key == 0xde { "Quote" }
        else { return None };
    Some(name.to_owned())
}

/// Format a captured Windows virtual key using names accepted by the shortcut parser.
/// Modifier order is stable (Ctrl, Shift, Alt, Win); names are virtual keys.
pub fn captured_shortcut(key: u16, modifiers: [bool; 4]) -> (r: Result<String, String>)
    ensures
        match r {
            Ok(s) => chord_text(key, modifiers@) == Some(s@) && spec_shortcut(s@) == Some(
                held_codes(modifiers@, 4).push(key),
            ),
            Err(e) => chord_text(key, modifiers@) is None && e@ == unsupported_key(),
        },
{
    let name = match key_name_of(key) {
        Some(n) => n,
        None => {
            return Err("This key is not supported. Try another key or combination.".to_owned());
        },
    };
    let mut chord = String::new();
    let mut parts: usize = 0;
    let ghost mut names: Seq<Seq<char>> = seq![];
    let mut i: usize = 0;
    while i < 4
        invariant
            i <= 4,
            names == held_modifiers(modifiers@, i as int),
            parts == names.len(),
            parts <= i,
            chord@ == join_plus(names),
        decreases 4 - i,
    {
        if modifiers[i] {
            let label = if i == 0 { "Ctrl" } else if i == 1 { "Shift" } else if i == 2 { "Alt" } else { "Win" };
            if parts > 0 {
                crate::text::push_char(&mut chord, '+');
            }
            crate::text::push_str(&mut chord, label);
            proof {
                let next = names.push(modifier_name(i as int));
                assert(next.drop_last() =~= names);
                if parts == 0 {
                    assert(names =~= seq![]);
                    assert(chord@ =~= join_plus(next));
                }
                names = next;
            }
            parts += 1;
        }
        proof {
            assert(held_modifiers(modifiers@, i as int + 1) =~= names);
        }
        i += 1;
    }
    if parts > 0 {
        crate::text::push_char(&mut chord, '+');
    }
    crate::text::push_str(&mut chord, name.as_str());
    proof {
        let all = names.push(name@);
        assert(all.drop_last() =~= names);
        if parts == 0 {
            assert(names =~= seq![]);
            assert(chord@ =~= join_plus(all));
        }
    }
    proof {
        lemma_captured_chord_reads_back(key, modifiers@);
    }
    match shortcut(chord.as_str()) {
        Ok(_) => Ok(chord),
        Err(e) => Err(e),
    }
}

/// One injectable input: a keyboard virtual key or a mouse button.
#[derive(Clone, Copy, Debug, Eq, PartialEq, Structural)]
pub enum InputCode {
    Key(u16),
    LeftMouse,
    MiddleMouse,
}

/// Where button bindings inject input. A sink permits testing transitions and failures
/// without injecting real input.
/// Injection requests as a sink sees them: the input, and `true` for a release.
pub type SinkEvents = Seq<(InputCode, bool)>;

pub trait InputSink {
    /// The presses (`false`) and releases (`true`) this sink was asked to inject so far,
    /// in order, whether it took them or not. A specification-only history: it exists for
    /// the verifier and is never called at run time.
    spec fn events(&self) -> SinkEvents;

    /// Whether the user already holds this input.
    fn held(&self, code: InputCode) -> bool;

    /// Inject a press (`up == false`) or a release; the request joins the sink's events.
    fn send(&mut self, code: InputCode, up: bool) -> (r: Result<(), String>)
        ensures
            final(self).events() == old(self).events().push((code, up)),
    ;
}

/// Every release among `events` is of an input held at the start (`owned`) or pressed
/// earlier among `events`: a binding releases only input it pressed itself.
pub open spec fn releases_own(owned: Seq<InputCode>, events: Seq<(InputCode, bool)>) -> bool {
    forall|i: int|
        0 <= i < events.len() && (#[trigger] events[i]).1 ==> owned.contains(events[i].0) || exists|j: int|
            0 <= j < i && events[j] == (events[i].0, false)
}

/// Every input owned at the end was owned at the start or pressed among `events`.
pub open spec fn owns_pressed(start: Seq<InputCode>, events: Seq<(InputCode, bool)>, end: Seq<InputCode>) -> bool {
    forall|c: InputCode| #[trigger] end.contains(c) ==> start.contains(c) || events.contains((c, false))
}

/// Every input owned at the start and no longer owned at the end had its release accepted
/// among `events`: a binding lets go of an input only by releasing it.
pub open spec fn releases_lost(start: Seq<InputCode>, events: Seq<(InputCode, bool)>, end: Seq<InputCode>) -> bool {
    forall|c: InputCode| #[trigger] start.contains(c) && !end.contains(c) ==> events.contains((c, true))
}

/// `events` happened from ownership `start` to ownership `end` as a binding may act.
pub open spec fn owned_step(start: Seq<InputCode>, events: Seq<(InputCode, bool)>, end: Seq<InputCode>) -> bool {
    releases_own(start, events) && owns_pressed(start, events, end) && releases_lost(start, events, end)
}

proof fn lemma_owned_step_compose(
    s: Seq<InputCode>,
    e1: Seq<(InputCode, bool)>,
    m: Seq<InputCode>,
    e2: Seq<(InputCode, bool)>,
    t: Seq<InputCode>,
)
    requires
        owned_step(s, e1, m),
        owned_step(m, e2, t),
    ensures
        owned_step(s, e1 + e2, t),
{
    let e = e1 + e2;
    assert forall|i: int| 0 <= i < e.len() && (#[trigger] e[i]).1 implies s.contains(e[i].0) || exists|j: int|
        0 <= j < i && e[j] == (e[i].0, false) by {
        if i < e1.len() {
            assert(e[i] == e1[i]);
            if !s.contains(e[i].0) {
                let j = choose|j: int| 0 <= j < i && e1[j] == (e1[i].0, false);
                assert(e[j] == e1[j]);
            }
        } else {
            let k = i - e1.len();
            assert(e[i] == e2[k]);
            assert(e2[k].1);
            if m.contains(e2[k].0) {
                if !s.contains(e2[k].0) {
                    assert(e1.contains((e2[k].0, false)));
                    let j = choose|j: int| 0 <= j < e1.len() && e1[j] == (e2[k].0, false);
                    assert(e[j] == e1[j]);
                }
            } else {
                let j = choose|j: int| 0 <= j < k && e2[j] == (e2[k].0, false);
                assert(e[j + e1.len()] == e2[j]);
            }
        }
    }
    assert forall|c: InputCode| #[trigger] s.contains(c) && !t.contains(c) implies e.contains((c, true)) by {
        if m.contains(c) {
            let j = choose|j: int| 0 <= j < e2.len() && e2[j] == (c, true);
            assert(e[j + e1.len()] == e2[j]);
        } else {
            let j = choose|j: int| 0 <= j < e1.len() && e1[j] == (c, true);
            assert(e[j] == e1[j]);
        }
    }
    assert forall|c: InputCode| #[trigger] t.contains(c) implies s.contains(c) || e.contains((c, false)) by {
        if !m.contains(c) {
            let j = choose|j: int| 0 <= j < e2.len() && e2[j] == (c, false);
            assert(e[j + e1.len()] == e2[j]);
        } else if !s.contains(c) {
            let j = choose|j: int| 0 <= j < e1.len() && e1[j] == (c, false);
            assert(e[j] == e1[j]);
        }
    }
}

pub open spec fn no_duplicates(s: Seq<InputCode>) -> bool {
    forall|i: int, j: int| 0 <= i < s.len() && 0 <= j < s.len() && i != j ==> s[i] != s[j]
}

/// The input a held button keeps pressed for its action, if any.
pub open spec fn held_input(action: Seq<char>) -> Option<InputCode> {
    if action == "Left click"@ {
        Some(InputCode::LeftMouse)
    } else if action == "Middle click"@ {
        Some(InputCode::MiddleMouse)
    } else if action == "Pan (hold Space)"@ {
        Some(InputCode::Key(0x20))
    } else {
        None
    }
}

/// The inputs the held buttons want pressed, in button order.
pub open spec fn wanted_inputs(actions: Seq<Seq<char>>, states: Seq<bool>) -> Seq<InputCode> {
    let first = if states[0] && held_input(actions[0]) is Some {
        seq![held_input(actions[0])->0]
    } else {
        seq![]
    };
    let second = if states[1] && held_input(actions[1]) is Some {
        seq![held_input(actions[1])->0]
    } else {
        seq![]
    };
    first + second
}

/// A held button is bound to a right click, which the caller turns into a barrel press.
pub open spec fn right_click(actions: Seq<Seq<char>>, states: Seq<bool>) -> bool {
    (states[0] && actions[0] == "Right click"@) || (states[1] && actions[1] == "Right click"@)
}

/// Every event of `events` is a release.
pub open spec fn only_releases(events: Seq<(InputCode, bool)>) -> bool {
    forall|q: int| 0 <= q < events.len() ==> (#[trigger] events[q]).1
}

fn held_input_of(action: &String) -> (r: Option<InputCode>)
    ensures
        r == held_input(action@),
{
    let a = chars_of(action.as_str());
    if same_text(&a, "Left click") {
        Some(InputCode::LeftMouse)
    } else if same_text(&a, "Middle click") {
        Some(InputCode::MiddleMouse)
    } else if same_text(&a, "Pan (hold Space)") {
        Some(InputCode::Key(0x20))
    } else {
        None
    }
}


/// One use of the input sink, as this binding made it: a question whether the user holds
/// an input (and the answer), or an injected press or release (and whether it was taken).
pub enum Call {
    Held { queried: InputCode, answer: bool },
    Send { code: InputCode, up: bool, outcome: Result<(), Seq<char>> },
}

pub open spec fn outcome_text(r: Result<(), String>) -> Result<(), Seq<char>> {
    match r {
        Ok(()) => Ok(()),
        Err(e) => Err(e@),
    }
}

/// The sink took every injection made from position `from` of `calls` on.
pub open spec fn sends_ok_from(calls: Seq<Call>, from: int) -> bool {
    forall|i: int| from <= i < calls.len() && (#[trigger] calls[i]) is Send ==> calls[i]->outcome is Ok
}

/// From position `from` on, the sink refused an injection with error `e`, and took every
/// injection after it.
pub open spec fn failed_last_from(calls: Seq<Call>, from: int, e: Seq<char>) -> bool {
    exists|i: int|
        from <= i < calls.len() && (#[trigger] calls[i]) is Send && calls[i]->outcome == Err::<(), Seq<char>>(e)
            && forall|j: int| i < j < calls.len() && (#[trigger] calls[j]) is Send ==> calls[j]->outcome is Ok
}

/// From position `from` on, the user was found to hold input `c`.
pub open spec fn held_from(calls: Seq<Call>, from: int, c: InputCode) -> bool {
    exists|i: int| from <= i < calls.len() && #[trigger] calls[i] == (Call::Held { queried: c, answer: true })
}

/// Event `x` is among the accepted events from position `from` of `log` on.
pub open spec fn logged(log: Seq<(InputCode, bool)>, from: int, x: (InputCode, bool)) -> bool {
    exists|i: int| from <= i < log.len() && #[trigger] log[i] == x
}

/// `b` extends `a`.
pub open spec fn extends<T>(a: Seq<T>, b: Seq<T>) -> bool {
    a.len() <= b.len() && b.take(a.len() as int) == a
}

proof fn lemma_held_grows(a: Seq<Call>, b: Seq<Call>, from: int, c: InputCode)
    requires
        0 <= from,
        extends(a, b),
        held_from(a, from, c),
    ensures
        held_from(b, from, c),
{
    let i = choose|i: int| from <= i < a.len() && #[trigger] a[i] == (Call::Held { queried: c, answer: true });
    assert(b.take(a.len() as int)[i] == b[i]);
}

proof fn lemma_logged_grows(a: Seq<(InputCode, bool)>, b: Seq<(InputCode, bool)>, from: int, x: (InputCode, bool))
    requires
        0 <= from,
        extends(a, b),
        logged(a, from, x),
    ensures
        logged(b, from, x),
{
    let i = choose|i: int| from <= i < a.len() && #[trigger] a[i] == x;
    assert(b.take(a.len() as int)[i] == b[i]);
}

proof fn lemma_extends_trans<T>(a: Seq<T>, b: Seq<T>, c: Seq<T>)
    requires
        extends(a, b),
        extends(b, c),
    ensures
        extends(a, c),
{
    assert(c.take(a.len() as int) =~= b.take(a.len() as int));
}

/// Taking every injection splits at any later point.
proof fn lemma_ok_split(a: Seq<Call>, b: Seq<Call>, from: int)
    requires
        extends(a, b),
        0 <= from <= a.len(),
    ensures
        sends_ok_from(b, from) <==> sends_ok_from(a, from) && sends_ok_from(b, a.len() as int),
{
    assert forall|i: int| from <= i < a.len() implies b[i] == a[i] by {
        assert(b.take(a.len() as int)[i] == b[i]);
    }
    if sends_ok_from(a, from) && sends_ok_from(b, a.len() as int) {
        assert forall|i: int| from <= i < b.len() && (#[trigger] b[i]) is Send implies b[i]->outcome is Ok by {
            if i < a.len() {
                assert(b[i] == a[i]);
            }
        }
    }
    if sends_ok_from(b, from) {
        assert forall|i: int| from <= i < a.len() && (#[trigger] a[i]) is Send implies a[i]->outcome is Ok by {
            assert(b[i] == a[i]);
        }
    }
}

/// A refusal stays the last one while the sink takes what follows.
proof fn lemma_failed_grows(a: Seq<Call>, b: Seq<Call>, from: int, e: Seq<char>)
    requires
        0 <= from,
        extends(a, b),
        failed_last_from(a, from, e),
        sends_ok_from(b, a.len() as int),
    ensures
        failed_last_from(b, from, e),
{
    let i = choose|i: int|
        from <= i < a.len() && (#[trigger] a[i]) is Send && a[i]->outcome == Err::<(), Seq<char>>(e) && forall|j: int|
            i < j < a.len() && (#[trigger] a[j]) is Send ==> a[j]->outcome is Ok;
    assert(b.take(a.len() as int)[i] == b[i]);
    assert forall|j: int| i < j < b.len() && (#[trigger] b[j]) is Send implies b[j]->outcome is Ok by {
        if j < a.len() {
            assert(b.take(a.len() as int)[j] == b[j]);
        }
    }
    assert(b[i] is Send && b[i]->outcome == Err::<(), Seq<char>>(e));
}

/// Facts about the whole range hold from an earlier start too.
proof fn lemma_from_earlier(b: Seq<Call>, f: int, g: int, e: Seq<char>, c: InputCode)
    requires
        0 <= f <= g,
    ensures
        failed_last_from(b, g, e) ==> failed_last_from(b, f, e),
        held_from(b, g, c) ==> held_from(b, f, c),
{
    if failed_last_from(b, g, e) {
        let i = choose|i: int|
            g <= i < b.len() && (#[trigger] b[i]) is Send && b[i]->outcome == Err::<(), Seq<char>>(e) && forall|j: int|
                i < j < b.len() && (#[trigger] b[j]) is Send ==> b[j]->outcome is Ok;
        assert(b[i] is Send);
    }
    if held_from(b, g, c) {
        let i = choose|i: int| g <= i < b.len() && #[trigger] b[i] == (Call::Held { queried: c, answer: true });
        assert(b[i] == (Call::Held { queried: c, answer: true }));
    }
}

/// A refused injection at the end of `calls` is the last refusal.
proof fn lemma_refused_last(calls: Seq<Call>, from: int, e: Seq<char>)
    requires
        0 <= from < calls.len(),
        calls.last() is Send,
        calls.last()->outcome == Err::<(), Seq<char>>(e),
    ensures
        failed_last_from(calls, from, e),
        !sends_ok_from(calls, from),
{
    let i = calls.len() - 1;
    assert(calls[i] is Send);
}

/// Pressing `code` from ownership `owned`, as the calls `t` show: nothing for input this
/// binding holds; otherwise ask the sink, and inject a press unless the user holds it.
/// `Ok(true)` when the press was taken.
pub open spec fn pressed_as(owned: Seq<InputCode>, code: InputCode, t: Seq<Call>, r: Result<bool, Seq<char>>) -> bool {
    if owned.contains(code) {
        t.len() == 0 && r == Ok::<bool, Seq<char>>(false)
    } else if t.len() == 1 {
        t[0] == (Call::Held { queried: code, answer: true }) && r == Ok::<bool, Seq<char>>(false)
    } else {
        &&& t.len() == 2
        &&& t[0] == (Call::Held { queried: code, answer: false })
        &&& t[1] is Send && t[1]->code == code && !t[1]->up
        &&& r == match t[1]->outcome {
            Ok(()) => Ok::<bool, Seq<char>>(true),
            Err(e) => Err(e),
        }
    }
}

pub open spec fn press_text(r: Result<bool, String>) -> Result<bool, Seq<char>> {
    match r {
        Ok(b) => Ok(b),
        Err(e) => Err(e@),
    }
}

pub const LEFT: InputCode = InputCode::LeftMouse;

/// Tapping `keys` from ownership `owned`, with the calls from position `c0` of `calls` and
/// the accepted events from position `s0` of `sent`: it succeeds exactly when the sink
/// took every injection, fails with the last refusal, and on success every key was held
/// already (by this binding or the user) or was pressed and released.
pub open spec fn tapped(
    owned: Seq<InputCode>,
    keys: Seq<InputCode>,
    calls: Seq<Call>,
    c0: int,
    sent: Seq<(InputCode, bool)>,
    s0: int,
    r: Result<(), Seq<char>>,
) -> bool {
    &&& (r is Ok <==> sends_ok_from(calls, c0))
    &&& (r matches Err(e) ==> failed_last_from(calls, c0, e))
    &&& (r is Ok ==> forall|k: InputCode|
        #[trigger] keys.contains(k) ==> owned.contains(k) || held_from(calls, c0, k) || (logged(sent, s0, (k, false))
            && logged(sent, s0, (k, true))))
}

/// A double click from ownership `owned`: it succeeds exactly when the sink took every
/// injection, fails with the last refusal, and on success the left button was held
/// already or two full clicks were injected.
pub open spec fn double_clicked(
    owned: Seq<InputCode>,
    calls: Seq<Call>,
    c0: int,
    sent: Seq<(InputCode, bool)>,
    s0: int,
    r: Result<(), Seq<char>>,
) -> bool {
    &&& (r is Ok <==> sends_ok_from(calls, c0))
    &&& (r matches Err(e) ==> failed_last_from(calls, c0, e))
    &&& (r is Ok ==> owned.contains(LEFT) || held_from(calls, c0, LEFT) || sent.skip(s0) == seq![
        (LEFT, false),
        (LEFT, true),
        (LEFT, false),
        (LEFT, true),
    ])
}

/// `n` full clicks of the left button: press, release, press, release, ...
pub open spec fn clicks(n: int) -> Seq<(InputCode, bool)> {
    Seq::new((2 * n) as nat, |i: int| (LEFT, i % 2 == 1))
}

/// The keys of a parsed shortcut as inputs.
pub open spec fn key_inputs(keys: Seq<u16>) -> Seq<InputCode> {
    keys.map_values(|k: u16| InputCode::Key(k))
}

/// The one-shot action of a newly pressed button: a shortcut chord is tapped (an
/// unparsable one fails before any injection), a double click is made, anything else
/// does nothing.
pub open spec fn fired(
    action: Seq<char>,
    owned: Seq<InputCode>,
    calls: Seq<Call>,
    c0: int,
    sent: Seq<(InputCode, bool)>,
    s0: int,
    r: Result<(), Seq<char>>,
) -> bool {
    match spec_action_shortcut(action) {
        Some(chord) => match spec_shortcut(chord) {
            Some(keys) => tapped(owned, key_inputs(keys), calls, c0, sent, s0, r),
            None => r == Err::<(), Seq<char>>(shortcut_error()) && calls.len() == c0 && sent.len() == s0,
        },
        None => if action == "Double click"@ {
            double_clicked(owned, calls, c0, sent, s0, r)
        } else {
            r == Ok::<(), Seq<char>>(()) && calls.len() == c0 && sent.len() == s0
        },
    }
}

/// The one-shot action of button `action` can run: it has no shortcut, or one that parses.
pub open spec fn chord_parses(action: Seq<char>) -> bool {
    spec_action_shortcut(action) matches Some(chord) ==> spec_shortcut(chord) is Some
}

/// After a successful update, the one-shot action of a newly pressed button was done:
/// each key of its chord, or the left button of its double click, was held already
/// (`owned` at the end, or found held by the user) or was pressed and released.
pub open spec fn fired_ok(action: Seq<char>, owned: Seq<InputCode>, calls: Seq<Call>, c0: int, sent: Seq<(InputCode, bool)>, s0: int) -> bool {
    match spec_action_shortcut(action) {
        Some(chord) => match spec_shortcut(chord) {
            Some(keys) => forall|k: InputCode|
                #[trigger] key_inputs(keys).contains(k) ==> owned.contains(k) || held_from(calls, c0, k) || (logged(
                    sent,
                    s0,
                    (k, false),
                ) && logged(sent, s0, (k, true))),
            None => false,
        },
        None => action == "Double click"@ ==> owned.contains(LEFT) || held_from(calls, c0, LEFT) || (logged(
            sent,
            s0,
            (LEFT, false),
        ) && logged(sent, s0, (LEFT, true))),
    }
}

/// The injection requests among the calls `c`, in order: the input and direction of each
/// injection, whatever the sink answered.
pub open spec fn requests(c: Seq<Call>) -> SinkEvents
    decreases c.len(),
{
    if c.len() == 0 {
        seq![]
    } else {
        let rest = requests(c.drop_last());
        match c.last() {
            Call::Send { code, up, .. } => rest.push((code, up)),
            Call::Held { .. } => rest,
        }
    }
}

/// The injections among the calls `c` that the sink took, in order.
pub open spec fn taken(c: Seq<Call>) -> SinkEvents
    decreases c.len(),
{
    if c.len() == 0 {
        seq![]
    } else {
        let rest = taken(c.drop_last());
        match c.last() {
            Call::Send { code, up, outcome: Ok(()) } => rest.push((code, up)),
            _ => rest,
        }
    }
}

/// The accepted injections `sent` are exactly those of the calls `calls` that the sink took.
#[verifier::opaque]
pub open spec fn sent_tied(sent: SinkEvents, calls: Seq<Call>) -> bool {
    sent == taken(calls)
}

/// The sink's history went from `before` to `after` by exactly the injections among the
/// calls from position `from` of `calls`.
pub open spec fn sink_follows(before: SinkEvents, after: SinkEvents, calls: Seq<Call>, from: int) -> bool {
    after == before + requests(calls.skip(from))
}

proof fn lemma_requests_concat(a: Seq<Call>, b: Seq<Call>)
    ensures
        requests(a + b) == requests(a) + requests(b),
    decreases b.len(),
{
    if b.len() == 0 {
        assert(a + b =~= a);
        assert(requests(a) + requests(b) =~= requests(a));
    } else {
        assert((a + b).drop_last() =~= a + b.drop_last());
        assert((a + b).last() == b.last());
        lemma_requests_concat(a, b.drop_last());
        match b.last() {
            Call::Send { code, up, .. } => {
                assert(requests(a) + requests(b.drop_last()).push((code, up)) =~= (requests(a) + requests(
                    b.drop_last(),
                )).push((code, up)));
            },
            Call::Held { .. } => {},
        }
    }
}

/// Two steps that the sink followed make one.
proof fn lemma_sink_chain(e0: SinkEvents, e1: SinkEvents, e2: SinkEvents, c0: Seq<Call>, c1: Seq<Call>, c2: Seq<Call>)
    requires
        extends(c0, c1),
        extends(c1, c2),
        sink_follows(e0, e1, c1, c0.len() as int),
        sink_follows(e1, e2, c2, c1.len() as int),
    ensures
        sink_follows(e0, e2, c2, c0.len() as int),
{
    assert(c2.skip(c0.len() as int) =~= c1.skip(c0.len() as int) + c2.skip(c1.len() as int)) by {
        assert forall|i: int| c0.len() <= i < c1.len() implies #[trigger] c2[i] == c1[i] by {
            assert(c2.take(c1.len() as int)[i] == c2[i]);
        }
    }
    lemma_requests_concat(c1.skip(c0.len() as int), c2.skip(c1.len() as int));
    assert(e2 =~= e0 + requests(c2.skip(c0.len() as int)));
}

/// No call, no request.
proof fn lemma_sink_idle(e: SinkEvents, c: Seq<Call>)
    ensures
        sink_follows(e, e, c, c.len() as int),
{
    assert(c.skip(c.len() as int) =~= Seq::<Call>::empty());
    assert(e + requests(Seq::<Call>::empty()) =~= e);
}

/// A question to the sink asks it to inject nothing.
proof fn lemma_sink_asked(e: SinkEvents, c: Seq<Call>, q: InputCode, a: bool)
    ensures
        sink_follows(e, e, c.push(Call::Held { queried: q, answer: a }), c.len() as int),
        extends(c, c.push(Call::Held { queried: q, answer: a })),
{
    let t = c.push(Call::Held { queried: q, answer: a }).skip(c.len() as int);
    assert(t =~= seq![Call::Held { queried: q, answer: a }]);
    assert(t.drop_last() =~= Seq::<Call>::empty());
    assert(requests(t) == requests(t.drop_last()));
    assert(requests(t) =~= Seq::<(InputCode, bool)>::empty());
    assert(e + requests(t) =~= e);
    assert(c.push(Call::Held { queried: q, answer: a }).take(c.len() as int) =~= c);
}

/// Releases of `codes` with nothing skipped and no stop request exactly those releases.
proof fn lemma_release_requests(codes: Seq<InputCode>, t: Seq<Call>, at: int)
    ensures
        requests(release_calls(codes, seq![], t, at, false)) == codes.map_values(|c: InputCode| (c, true)),
    decreases codes.len(),
{
    if codes.len() > 0 {
        lemma_release_requests(codes.drop_last(), t, at);
        assert(!Seq::<InputCode>::empty().contains(codes.last()));
        let prev = release_calls(codes.drop_last(), seq![], t, at, false);
        let x = Call::Send { code: codes.last(), up: true, outcome: t[at + prev.len()]->outcome };
        assert(release_calls(codes, seq![], t, at, false) == prev.push(x));
        assert(prev.push(x).drop_last() =~= prev);
        assert(requests(prev.push(x)) == requests(prev).push((codes.last(), true)));
        assert(codes.map_values(|c: InputCode| (c, true)) =~= codes.drop_last().map_values(|c: InputCode| (c, true)).push(
            (codes.last(), true),
        ));
    } else {
        assert(codes.map_values(|c: InputCode| (c, true)) =~= Seq::<(InputCode, bool)>::empty());
    }
}

/// The last of `c` is an injection the sink refused.
pub open spec fn refused_last(c: Seq<Call>) -> bool {
    c.len() > 0 && c.last() is Send && c.last()->outcome is Err
}

/// Every injection among `c` was taken.
pub open spec fn all_taken(c: Seq<Call>) -> bool {
    forall|i: int| 0 <= i < c.len() && (#[trigger] c[i]) is Send ==> c[i]->outcome is Ok
}

/// Among `c`, the sink refused a release of `code`.
pub open spec fn release_refused(c: Seq<Call>, code: InputCode) -> bool {
    exists|i: int|
        0 <= i < c.len() && (#[trigger] c[i]) is Send && c[i]->code == code && c[i]->up && c[i]->outcome is Err
}

/// The logs `t1` and `t2` hold the same calls at positions `from` up to `to`.
pub open spec fn agree(t1: Seq<Call>, t2: Seq<Call>, from: int, to: int) -> bool {
    forall|i: int| from <= i < to ==> t1[i] == t2[i]
}

/// The calls of releasing `codes` in order, skipping those in `keep`, each with the reply
/// that the log `t` holds at its position counted from `at`; with `stop`, the first
/// refusal ends them.
pub open spec fn release_calls(codes: Seq<InputCode>, keep: Seq<InputCode>, t: Seq<Call>, at: int, stop: bool) -> Seq<Call>
    decreases codes.len(),
{
    if codes.len() == 0 {
        seq![]
    } else {
        let prev = release_calls(codes.drop_last(), keep, t, at, stop);
        if (stop && refused_last(prev)) || keep.contains(codes.last()) {
            prev
        } else {
            prev.push(Call::Send { code: codes.last(), up: true, outcome: t[at + prev.len()]->outcome })
        }
    }
}

/// The calls of pressing `code` while this binding holds `held`, with the replies that `t`
/// holds from `at`: none for held input; otherwise a question whether the user holds it,
/// then, unless so, an injected press.
pub open spec fn press_call(held: Set<InputCode>, code: InputCode, t: Seq<Call>, at: int) -> Seq<Call> {
    if held.contains(code) {
        seq![]
    } else if t[at] == (Call::Held { queried: code, answer: true }) {
        seq![Call::Held { queried: code, answer: true }]
    } else {
        seq![Call::Held { queried: code, answer: false }, Call::Send { code, up: false, outcome: t[at + 1]->outcome }]
    }
}

/// The calls of pressing `codes` in order until a press is refused, with the replies that
/// `t` holds from `at`; then the inputs held, and those pressed here in order.
pub open spec fn press_calls(held: Set<InputCode>, codes: Seq<InputCode>, t: Seq<Call>, at: int) -> (
    Seq<Call>,
    Set<InputCode>,
    Seq<InputCode>,
)
    decreases codes.len(),
{
    if codes.len() == 0 {
        (seq![], held, seq![])
    } else {
        let (prev, h, p) = press_calls(held, codes.drop_last(), t, at);
        if refused_last(prev) {
            (prev, h, p)
        } else {
            let c = press_call(h, codes.last(), t, at + prev.len());
            if c.len() == 2 && c[1]->outcome is Ok {
                (prev + c, h.insert(codes.last()), p.push(codes.last()))
            } else {
                (prev + c, h, p)
            }
        }
    }
}

/// The calls of tapping `keys`: press them in order until one is refused, then release
/// the ones pressed here in reverse order, whatever the sink answers.
pub open spec fn tap_calls(held: Set<InputCode>, keys: Seq<InputCode>, t: Seq<Call>, at: int) -> Seq<Call> {
    let (pc, h, p) = press_calls(held, keys, t, at);
    pc + release_calls(p.reverse(), seq![], t, at + pc.len(), false)
}

/// Up to `n` injections of the left button, press and release in turn, until one is refused.
pub open spec fn click_calls(t: Seq<Call>, at: int, n: nat) -> Seq<Call>
    decreases n,
{
    if n == 0 {
        seq![]
    } else {
        let prev = click_calls(t, at, (n - 1) as nat);
        if refused_last(prev) {
            prev
        } else {
            prev.push(Call::Send { code: LEFT, up: (n - 1) % 2 == 1, outcome: t[at + prev.len()]->outcome })
        }
    }
}

/// The calls of a double click: none when this binding holds the left button; otherwise a
/// question whether the user holds it, then, unless so, two clicks until a refusal.
pub open spec fn double_click_calls(held: Set<InputCode>, t: Seq<Call>, at: int) -> Seq<Call> {
    if held.contains(LEFT) {
        seq![]
    } else if t[at] == (Call::Held { queried: LEFT, answer: true }) {
        seq![Call::Held { queried: LEFT, answer: true }]
    } else {
        seq![Call::Held { queried: LEFT, answer: false }] + click_calls(t, at + 1, 4)
    }
}

/// The calls of the one-shot action `action`: a tap of its chord's keys, a double click,
/// or none (also for a chord that does not parse).
#[verifier::opaque]
pub open spec fn fire_calls(action: Seq<char>, held: Set<InputCode>, t: Seq<Call>, at: int) -> Seq<Call> {
    match spec_action_shortcut(action) {
        Some(chord) => match spec_shortcut(chord) {
            Some(keys) => tap_calls(held, key_inputs(keys), t, at),
            None => seq![],
        },
        None => if action == "Double click"@ {
            double_click_calls(held, t, at)
        } else {
            seq![]
        },
    }
}

/// Button `j` went down since the previous update.
pub open spec fn newly_pressed(previous: Seq<bool>, states: Seq<bool>, j: int) -> bool {
    states[j] && !previous[j]
}

/// The calls of the one-shot actions of the newly pressed buttons among the first `upto`,
/// in button order, while this binding holds `held`; a failed action ends them.
pub open spec fn update_fires(
    actions: Seq<Seq<char>>,
    previous: Seq<bool>,
    states: Seq<bool>,
    held: Set<InputCode>,
    t: Seq<Call>,
    at: int,
    upto: int,
) -> Seq<Call> {
    let f0 = if upto >= 1 && newly_pressed(previous, states, 0) {
        fire_calls(actions[0], held, t, at)
    } else {
        seq![]
    };
    if upto >= 2 && newly_pressed(previous, states, 1) && !(newly_pressed(previous, states, 0) && !(chord_parses(
        actions[0],
    ) && all_taken(f0))) {
        f0 + fire_calls(actions[1], held, t, at + f0.len())
    } else {
        f0
    }
}

/// The inputs held after the releases of an update that were all taken: those owned
/// that a button still wants.
pub open spec fn kept_inputs(owned: Seq<InputCode>, wanted: Seq<InputCode>) -> Set<InputCode> {
    Set::new(|c: InputCode| owned.contains(c) && wanted.contains(c))
}

/// The calls of an update's holding step from ownership `owned`, with the replies that `t`
/// holds from `at`: release each owned input not in `wanted`, newest first, until a
/// refusal; then, unless one was refused, press each wanted input in order until a refusal.
/// Also the inputs held after it when nothing was refused, and whether a refusal ended it.
pub open spec fn hold_calls(owned: Seq<InputCode>, wanted: Seq<InputCode>, t: Seq<Call>, at: int) -> (
    Seq<Call>,
    Set<InputCode>,
    bool,
) {
    let ru = release_calls(owned.reverse(), wanted, t, at, true);
    if refused_last(ru) {
        (ru, Set::empty(), true)
    } else {
        let (pw, h2, p) = press_calls(kept_inputs(owned, wanted), wanted, t, at + ru.len());
        (ru + pw, h2, refused_last(pw))
    }
}

/// The calls of an update from ownership `owned`, with the replies that `t` holds from
/// `at`: the holding step; then, unless it ended in a refusal, the one-shot action of each
/// newly pressed button in button order, until one fails.
#[verifier::opaque]
pub open spec fn update_calls(
    owned: Seq<InputCode>,
    actions: Seq<Seq<char>>,
    previous: Seq<bool>,
    states: Seq<bool>,
    t: Seq<Call>,
    at: int,
) -> Seq<Call> {
    let (hc, h2, failed) = hold_calls(owned, wanted_inputs(actions, states), t, at);
    if failed {
        hc
    } else {
        hc + update_fires(actions, previous, states, h2, t, at + hc.len(), 2)
    }
}

proof fn lemma_update_fires_agree(
    actions: Seq<Seq<char>>,
    previous: Seq<bool>,
    states: Seq<bool>,
    held: Set<InputCode>,
    t1: Seq<Call>,
    t2: Seq<Call>,
    at: int,
    upto: int,
)
    requires
        agree(t1, t2, at, at + update_fires(actions, previous, states, held, t1, at, upto).len()),
    ensures
        update_fires(actions, previous, states, held, t1, at, upto) == update_fires(actions, previous, states, held, t2, at, upto),
{
    if upto >= 1 && newly_pressed(previous, states, 0) {
        lemma_fire_calls_agree(actions[0], held, t1, t2, at);
    }
    let f0 = if upto >= 1 && newly_pressed(previous, states, 0) {
        fire_calls(actions[0], held, t1, at)
    } else {
        seq![]
    };
    if upto >= 2 && newly_pressed(previous, states, 1) && !(newly_pressed(previous, states, 0) && !(chord_parses(
        actions[0],
    ) && all_taken(f0))) {
        lemma_fire_calls_agree(actions[1], held, t1, t2, at + f0.len());
    }
}

proof fn lemma_hold_calls_agree(owned: Seq<InputCode>, wanted: Seq<InputCode>, t1: Seq<Call>, t2: Seq<Call>, at: int)
    requires
        agree(t1, t2, at, at + hold_calls(owned, wanted, t1, at).0.len()),
    ensures
        hold_calls(owned, wanted, t1, at) == hold_calls(owned, wanted, t2, at),
{
    let ru = release_calls(owned.reverse(), wanted, t1, at, true);
    lemma_release_calls_agree(owned.reverse(), wanted, t1, t2, at, true);
    if !refused_last(ru) {
        lemma_press_calls_agree(kept_inputs(owned, wanted), wanted, t1, t2, at + ru.len());
    }
}

/// An update's calls, once its holding step is in the log `c1`: that step, then (unless it
/// was refused) the one-shot actions.
proof fn lemma_update_calls_split(
    owned: Seq<InputCode>,
    actions: Seq<Seq<char>>,
    previous: Seq<bool>,
    states: Seq<bool>,
    c1: Seq<Call>,
    t: Seq<Call>,
    at: int,
)
    requires
        0 <= at <= c1.len(),
        extends(c1, t),
        c1.len() == at + hold_calls(owned, wanted_inputs(actions, states), c1, at).0.len(),
    ensures
        hold_calls(owned, wanted_inputs(actions, states), t, at) == hold_calls(owned, wanted_inputs(actions, states), c1, at),
        hold_calls(owned, wanted_inputs(actions, states), c1, at).2 ==> update_calls(owned, actions, previous, states, t, at)
            == hold_calls(owned, wanted_inputs(actions, states), c1, at).0,
        !hold_calls(owned, wanted_inputs(actions, states), c1, at).2 ==> update_calls(owned, actions, previous, states, t, at)
            == hold_calls(owned, wanted_inputs(actions, states), c1, at).0 + update_fires(
            actions,
            previous,
            states,
            hold_calls(owned, wanted_inputs(actions, states), c1, at).1,
            t,
            c1.len() as int,
            2,
        ),
{
    reveal(update_calls);
    lemma_extends_agree(c1, t, at, c1.len() as int);
    lemma_hold_calls_agree(owned, wanted_inputs(actions, states), c1, t, at);
}

proof fn lemma_release_calls_agree(codes: Seq<InputCode>, keep: Seq<InputCode>, t1: Seq<Call>, t2: Seq<Call>, at: int, stop: bool)
    requires
        agree(t1, t2, at, at + release_calls(codes, keep, t1, at, stop).len()),
    ensures
        release_calls(codes, keep, t1, at, stop) == release_calls(codes, keep, t2, at, stop),
    decreases codes.len(),
{
    if codes.len() > 0 {
        lemma_release_calls_agree(codes.drop_last(), keep, t1, t2, at, stop);
    }
}

proof fn lemma_press_calls_agree(held: Set<InputCode>, codes: Seq<InputCode>, t1: Seq<Call>, t2: Seq<Call>, at: int)
    requires
        agree(t1, t2, at, at + press_calls(held, codes, t1, at).0.len()),
    ensures
        press_calls(held, codes, t1, at) == press_calls(held, codes, t2, at),
    decreases codes.len(),
{
    if codes.len() > 0 {
        let (prev, h, p) = press_calls(held, codes.drop_last(), t1, at);
        assert(press_calls(held, codes, t1, at).0.len() >= prev.len());
        lemma_press_calls_agree(held, codes.drop_last(), t1, t2, at);
        if !refused_last(prev) {
            let n = at + prev.len();
            let c = press_call(h, codes.last(), t1, n);
            if !h.contains(codes.last()) {
                assert(t1[n] == t2[n]);
                if c.len() == 2 {
                    assert(t1[n + 1] == t2[n + 1]);
                }
            }
            assert(c == press_call(h, codes.last(), t2, n));
        }
    }
}

proof fn lemma_click_calls_agree(t1: Seq<Call>, t2: Seq<Call>, at: int, n: nat)
    requires
        agree(t1, t2, at, at + click_calls(t1, at, n).len()),
    ensures
        click_calls(t1, at, n) == click_calls(t2, at, n),
    decreases n,
{
    if n > 0 {
        lemma_click_calls_agree(t1, t2, at, (n - 1) as nat);
    }
}

proof fn lemma_tap_calls_agree(held: Set<InputCode>, keys: Seq<InputCode>, t1: Seq<Call>, t2: Seq<Call>, at: int)
    requires
        agree(t1, t2, at, at + tap_calls(held, keys, t1, at).len()),
    ensures
        tap_calls(held, keys, t1, at) == tap_calls(held, keys, t2, at),
{
    let (pc, h, p) = press_calls(held, keys, t1, at);
    lemma_press_calls_agree(held, keys, t1, t2, at);
    lemma_release_calls_agree(p.reverse(), seq![], t1, t2, at + pc.len(), false);
}

proof fn lemma_fire_calls_agree(action: Seq<char>, held: Set<InputCode>, t1: Seq<Call>, t2: Seq<Call>, at: int)
    requires
        agree(t1, t2, at, at + fire_calls(action, held, t1, at).len()),
    ensures
        fire_calls(action, held, t1, at) == fire_calls(action, held, t2, at),
{
    reveal(fire_calls);
    match spec_action_shortcut(action) {
        Some(chord) => {
            if let Some(keys) = spec_shortcut(chord) {
                lemma_tap_calls_agree(held, key_inputs(keys), t1, t2, at);
            }
        },
        None => {
            if action == "Double click"@ && !held.contains(LEFT) {
                assert(t1[at] == t2[at]);
                if t1[at] != (Call::Held { queried: LEFT, answer: true }) {
                    lemma_click_calls_agree(t1, t2, at + 1, 4);
                }
            }
        },
    }
}

/// A log that extends another agrees with it wherever the other has calls.
proof fn lemma_extends_agree(a: Seq<Call>, b: Seq<Call>, from: int, to: int)
    requires
        extends(a, b),
        0 <= from,
        to <= a.len(),
    ensures
        agree(a, b, from, to),
{
    assert forall|i: int| from <= i < to implies a[i] == b[i] by {
        assert(b.take(a.len() as int)[i] == b[i]);
    }
}

/// Side-button bindings: the two assigned actions, the previous button states and the
/// inputs this binding currently holds pressed.
pub struct Bindings {
    actions: [String; 2],
    previous: [bool; 2],
    owned: Vec<InputCode>,
    sent: Ghost<Seq<(InputCode, bool)>>,
    calls: Ghost<Seq<Call>>,
}

impl Bindings {
    /// The assigned actions.
    pub closed spec fn actions(&self) -> Seq<Seq<char>> {
        seq![self.actions@[0]@, self.actions@[1]@]
    }

    /// Button states seen by the previous update.
    pub closed spec fn previous(&self) -> Seq<bool> {
        self.previous@
    }

    /// Inputs this binding holds pressed, in press order.
    pub closed spec fn owned(&self) -> Seq<InputCode> {
        self.owned@
    }

    /// The injections the sink took from this binding, in order (code, and `true` for a
    /// release): for a well-formed binding, those among `calls()` that the sink answered
    /// with `Ok` (`sent_tied`).
    pub closed spec fn sent(&self) -> Seq<(InputCode, bool)> {
        self.sent@
    }

    /// Every use of the input sink by this binding, in order: its questions with their
    /// answers, and its injection requests with the sink's replies. The requests are
    /// exactly what the sink was asked to inject (`sink_follows`).
    pub closed spec fn calls(&self) -> Seq<Call> {
        self.calls@
    }

    pub closed spec fn wf(&self) -> bool {
        no_duplicates(self.owned@) && sent_tied(self.sent@, self.calls@)
    }

    /// A well-formed binding's accepted injections are those among its calls that the sink
    /// answered with `Ok`.
    pub proof fn lemma_sent_is_taken(&self)
        requires
            self.wf(),
        ensures
            self.sent() == taken(self.calls()),
    {
        reveal(sent_tied);
    }

    pub fn new(actions: [String; 2]) -> (b: Self)
        ensures
            b.wf(),
            b.actions() == seq![actions@[0]@, actions@[1]@],
            b.previous() == seq![false, false],
            b.owned() == Seq::<InputCode>::empty(),
            b.sent() == Seq::<(InputCode, bool)>::empty(),
            b.calls() == Seq::<Call>::empty(),
    {
        let b = Self { actions, previous: [false; 2], owned: Vec::new(), sent: Ghost(Seq::empty()), calls: Ghost(Seq::empty()) };
        proof {
            reveal(sent_tied);
        }
        assert(b.previous@ =~= seq![false, false]);
        b
    }

    fn owns(&self, code: InputCode) -> (r: bool)
        ensures
            r == self.owned@.contains(code),
    {
        let mut i: usize = 0;
        while i < self.owned.len()
            invariant
                i <= self.owned@.len(),
                forall|j: int| 0 <= j < i ==> self.owned@[j] != code,
            decreases self.owned@.len() - i,
        {
            if self.owned[i] == code {
                return true;
            }
            i += 1;
        }
        false
    }


    /// Ask the sink whether the user holds `code`, noting the question and its answer.
    fn ask_held<S: InputSink>(&mut self, input: &S, code: InputCode) -> (h: bool)
        requires
            old(self).wf(),
        ensures
            final(self).wf(),
            final(self).calls() == old(self).calls().push(Call::Held { queried: code, answer: h }),
            final(self).owned() == old(self).owned(),
            final(self).sent() == old(self).sent(),
            final(self).actions() == old(self).actions(),
            final(self).previous() == old(self).previous(),
    {
        let h = input.held(code);
        proof {
            let before = self.calls@;
            self.calls@ = self.calls@.push(Call::Held { queried: code, answer: h });
            reveal(sent_tied);
            assert(self.calls@.drop_last() =~= before);
        }
        h
    }

    /// Inject a press or release, noting the injection and whether the sink took it.
    fn inject<S: InputSink>(&mut self, input: &mut S, code: InputCode, up: bool) -> (r: Result<(), String>)
        requires
            old(self).wf(),
        ensures
            final(self).wf(),
            final(self).calls() == old(self).calls().push(Call::Send { code, up, outcome: outcome_text(r) }),
            final(self).sent() == if r is Ok { old(self).sent().push((code, up)) } else { old(self).sent() },
            final(self).owned() == old(self).owned(),
            final(self).actions() == old(self).actions(),
            final(self).previous() == old(self).previous(),
            final(input).events() == old(input).events().push((code, up)),
            sink_follows(old(input).events(), final(input).events(), final(self).calls(), old(self).calls().len() as int),
    {
        let r = input.send(code, up);
        proof {
            let t = self.calls@.push(Call::Send { code, up, outcome: outcome_text(r) }).skip(self.calls@.len() as int);
            assert(t =~= seq![Call::Send { code, up, outcome: outcome_text(r) }]);
            assert(t.drop_last() =~= Seq::<Call>::empty());
            assert(requests(t) == requests(t.drop_last()).push((code, up)));
            assert(requests(t) =~= seq![(code, up)]);
            assert(input.events() =~= old(input).events() + requests(t));
            let before = self.calls@;
            self.calls@ = self.calls@.push(Call::Send { code, up, outcome: outcome_text(r) });
            if r is Ok {
                self.sent@ = self.sent@.push((code, up));
            }
            reveal(sent_tied);
            assert(self.calls@.drop_last() =~= before);
        }
        r
    }

    /// Press `code` unless this binding or the user already holds it.
    fn press<S: InputSink>(&mut self, input: &mut S, code: InputCode) -> (r: Result<bool, String>)
        requires
            old(self).wf(),
        ensures
            final(self).wf(),
            final(self).actions() == old(self).actions(),
            final(self).previous() == old(self).previous(),
            final(self).sent().len() >= old(self).sent().len(),
            final(self).sent().take(old(self).sent().len() as int) == old(self).sent(),
            owned_step(old(self).owned(), final(self).sent().skip(old(self).sent().len() as int), final(self).owned()),
            r == Ok::<bool, String>(true) ==> final(self).owned() == old(self).owned().push(code),
            !(r == Ok::<bool, String>(true)) ==> final(self).owned() == old(self).owned(),
            extends(old(self).calls(), final(self).calls()),
            pressed_as(old(self).owned(), code, final(self).calls().skip(old(self).calls().len() as int), press_text(r)),
            r == Ok::<bool, String>(true) ==> final(self).sent() == old(self).sent().push((code, false)),
            !(r == Ok::<bool, String>(true)) ==> final(self).sent() == old(self).sent(),
            final(self).calls() == old(self).calls() + press_call(
                old(self).owned().to_set(),
                code,
                final(self).calls(),
                old(self).calls().len() as int,
            ),
            r == Ok::<bool, String>(true) <==> press_call(
                old(self).owned().to_set(),
                code,
                final(self).calls(),
                old(self).calls().len() as int,
            ).len() == 2 && press_call(
                old(self).owned().to_set(),
                code,
                final(self).calls(),
                old(self).calls().len() as int,
            )[1]->outcome is Ok,
            sink_follows(old(input).events(), final(input).events(), final(self).calls(), old(self).calls().len() as int),
    {
        let ghost start = self.sent@;
        let ghost c0 = self.calls@;
        let ghost e0 = input.events();
        if self.owns(code) {
            proof {
                lemma_sink_idle(e0, c0);
                assert(self.sent@.skip(start.len() as int) =~= seq![]);
                assert(self.sent@.take(start.len() as int) =~= start);
                assert(self.calls@.skip(c0.len() as int) =~= seq![]);
                assert(self.calls@.take(c0.len() as int) =~= c0);
            }
            return Ok(false);
        }
        let h = self.ask_held(input, code);
        let ghost c1 = self.calls@;
        proof {
            lemma_sink_asked(e0, c0, code, h);
        }
        if h {
            proof {
                assert(self.sent@.skip(start.len() as int) =~= seq![]);
                assert(self.sent@.take(start.len() as int) =~= start);
                assert(self.calls@.skip(c0.len() as int) =~= seq![Call::Held { queried: code, answer: true }]);
                assert(self.calls@.take(c0.len() as int) =~= c0);
            }
            return Ok(false);
        }
        let ir = self.inject(input, code, false);
        proof {
            assert(self.calls@.take(c1.len() as int) =~= c1);
            lemma_sink_chain(e0, e0, input.events(), c0, c1, self.calls@);
        }
        match ir {
            Ok(()) => {},
            Err(e) => {
                proof {
                    assert(self.sent@.skip(start.len() as int) =~= seq![]);
                    assert(self.sent@.take(start.len() as int) =~= start);
                    assert(self.calls@.take(c0.len() as int) =~= c0);
                    let t = self.calls@.skip(c0.len() as int);
                    assert(t =~= seq![
                        Call::Held { queried: code, answer: false },
                        Call::Send { code, up: false, outcome: Err::<(), Seq<char>>(e@) },
                    ]);
                }
                return Err(e);
            },
        }
        proof {
            assert(self.calls@.take(c0.len() as int) =~= c0);
            let t = self.calls@.skip(c0.len() as int);
            assert(t =~= seq![
                Call::Held { queried: code, answer: false },
                Call::Send { code, up: false, outcome: Ok::<(), Seq<char>>(()) },
            ]);
        }
        let ghost before = self.owned@;
        self.owned.push(code);
        proof {
            let ev = self.sent@.skip(start.len() as int);
            assert(ev =~= seq![(code, false)]);
            assert(self.sent@.take(start.len() as int) =~= start);
            assert(ev[0] == (code, false));
            assert forall|c: InputCode| #[trigger] before.contains(c) && !self.owned@.contains(c) implies ev.contains((c, true)) by {
                let k = choose|k: int| 0 <= k < before.len() && before[k] == c;
                assert(self.owned@[k] == c);
            }
            assert forall|c: InputCode| #[trigger] self.owned@.contains(c) implies before.contains(c) || ev.contains((c, false)) by {
                let k = choose|k: int| 0 <= k < self.owned@.len() && self.owned@[k] == c;
                if k < before.len() {
                    assert(before[k] == c);
                }
            }
            assert forall|i: int, j: int| 0 <= i < self.owned@.len() && 0 <= j < self.owned@.len() && i != j
                implies self.owned@[i] != self.owned@[j] by {
                if i == before.len() {
                    assert(self.owned@[j] == before[j]);
                    if before[j] == code {
                        assert(before.contains(code));
                    }
                } else if j == before.len() {
                    assert(self.owned@[i] == before[i]);
                    if before[i] == code {
                        assert(before.contains(code));
                    }
                }
            }
        }
        Ok(true)
    }

    /// Release `code`, which this binding holds. A failed release stays owned for a retry.
    fn release<S: InputSink>(&mut self, input: &mut S, code: InputCode) -> (r: Result<(), String>)
        requires
            old(self).wf(),
            old(self).owned().contains(code),
        ensures
            final(self).wf(),
            final(self).actions() == old(self).actions(),
            final(self).previous() == old(self).previous(),
            final(self).sent().len() >= old(self).sent().len(),
            final(self).sent().take(old(self).sent().len() as int) == old(self).sent(),
            owned_step(old(self).owned(), final(self).sent().skip(old(self).sent().len() as int), final(self).owned()),
            r is Ok ==> (exists|k: int| 0 <= k < old(self).owned().len() && old(self).owned()[k] == code
                && final(self).owned() == old(self).owned().remove(k))
                && final(self).sent() == old(self).sent().push((code, true)),
            r is Err ==> final(self).owned() == old(self).owned() && final(self).sent() == old(self).sent(),
            final(self).calls() == old(self).calls().push(Call::Send { code, up: true, outcome: outcome_text(r) }),
            sink_follows(old(input).events(), final(input).events(), final(self).calls(), old(self).calls().len() as int),
    {
        let ghost start = self.sent@;
        match self.inject(input, code, true) {
            Ok(()) => {},
            Err(e) => {
                proof {
                    assert(self.sent@.skip(start.len() as int) =~= seq![]);
                    assert(self.sent@.take(start.len() as int) =~= start);
                }
                return Err(e);
            },
        }
        let ghost before = self.owned@;
        let mut i: usize = 0;
        while i < self.owned.len()
            invariant
                i <= self.owned@.len(),
                self.owned@ == before,
                forall|j: int| 0 <= j < i ==> before[j] != code,
            ensures
                i == before.len() || (i < before.len() && before[i as int] == code),
                forall|j: int| 0 <= j < i ==> before[j] != code,
            decreases self.owned@.len() - i,
        {
            if self.owned[i] == code {
                break;
            }
            i += 1;
        }
        assert(i < before.len() && before[i as int] == code) by {
            if i == before.len() {
                let k = choose|k: int| 0 <= k < before.len() && before[k] == code;
            }
        }
        self.owned.remove(i);
        proof {
            let ev = self.sent@.skip(start.len() as int);
            assert(ev =~= seq![(code, true)]);
            assert(self.sent@.take(start.len() as int) =~= start);
            before.remove_ensures(i as int);
            assert(self.owned@ == before.remove(i as int));
            assert(ev[0] == (code, true));
            assert forall|c: InputCode| #[trigger] before.contains(c) && !self.owned@.contains(c) implies ev.contains((c, true)) by {
                if c != code {
                    Self::lemma_remove_keeps(before, i as int, c);
                }
            }
            assert forall|c: InputCode| #[trigger] self.owned@.contains(c) implies before.contains(c) by {
                let k = choose|k: int| 0 <= k < self.owned@.len() && self.owned@[k] == c;
                if k < i {
                    assert(before[k] == c);
                } else {
                    assert(before[k + 1] == c);
                }
            }
            assert forall|x: int, y: int| 0 <= x < self.owned@.len() && 0 <= y < self.owned@.len() && x != y
                implies self.owned@[x] != self.owned@[y] by {
                let bx = if x < i { x } else { x + 1 };
                let by_ = if y < i { y } else { y + 1 };
                assert(self.owned@[x] == before[bx]);
                assert(self.owned@[y] == before[by_]);
            }
        }
        Ok(())
    }

    /// Release every owned input that is not wanted, newest first; stop at the first failure.
    fn release_unwanted<S: InputSink>(&mut self, input: &mut S, desired: &Vec<InputCode>) -> (r: Result<(), String>)
        requires
            old(self).wf(),
        ensures
            final(self).wf(),
            final(self).actions() == old(self).actions(),
            final(self).previous() == old(self).previous(),
            final(self).sent().len() >= old(self).sent().len(),
            final(self).sent().take(old(self).sent().len() as int) == old(self).sent(),
            owned_step(old(self).owned(), final(self).sent().skip(old(self).sent().len() as int), final(self).owned()),
            r is Ok ==> forall|c: InputCode| #[trigger] final(self).owned().contains(c) ==> desired@.contains(c),
            extends(old(self).calls(), final(self).calls()),
            r is Ok <==> sends_ok_from(final(self).calls(), old(self).calls().len() as int),
            r matches Err(e) ==> failed_last_from(final(self).calls(), old(self).calls().len() as int, e@),
            final(self).calls() == old(self).calls() + release_calls(
                old(self).owned().reverse(),
                desired@,
                final(self).calls(),
                old(self).calls().len() as int,
                true,
            ),
            r is Err <==> refused_last(release_calls(
                old(self).owned().reverse(),
                desired@,
                final(self).calls(),
                old(self).calls().len() as int,
                true,
            )),
            r is Ok ==> forall|c: InputCode| #[trigger] final(self).owned().contains(c) <==> old(self).owned().contains(c)
                && desired@.contains(c),
            sink_follows(old(input).events(), final(input).events(), final(self).calls(), old(self).calls().len() as int),
    {
        let ghost e0 = input.events();
        let ghost start_log = self.sent@;
        let ghost start = self.owned@;
        let ghost c0 = self.calls@;
        assert(self.calls@.take(c0.len() as int) =~= c0);
        proof {
            lemma_sink_idle(e0, c0);
        }
        let snapshot = self.owned.clone();
        assert(snapshot@ == start);
        let mut m = snapshot.len();
        proof {
            assert(self.sent@.skip(start_log.len() as int) =~= seq![]);
            assert(self.sent@.take(start_log.len() as int) =~= start_log);
        }
        while m > 0
            invariant
                m <= snapshot@.len(),
                snapshot@ == start,
                no_duplicates(start),
                self.wf(),
                self.actions() == old(self).actions(),
                self.previous() == old(self).previous(),
                self.sent@.len() >= start_log.len(),
                self.sent@.take(start_log.len() as int) == start_log,
                start_log == old(self).sent(),
                start == old(self).owned(),
                owned_step(start, self.sent@.skip(start_log.len() as int), self.owned@),
                forall|k: int| 0 <= k < m ==> self.owned@.contains(#[trigger] snapshot@[k]),
                forall|c: InputCode| #[trigger] self.owned@.contains(c) ==> desired@.contains(c) || exists|k: int|
                    0 <= k < m && snapshot@[k] == c,
                c0 == old(self).calls(),
                extends(c0, self.calls@),
                sends_ok_from(self.calls@, c0.len() as int),
                self.calls@ == c0 + release_calls(
                    start.reverse().take(start.len() - m),
                    desired@,
                    self.calls@,
                    c0.len() as int,
                    true,
                ),
                !refused_last(release_calls(start.reverse().take(start.len() - m), desired@, self.calls@, c0.len() as int, true)),
                forall|c: InputCode| #[trigger] self.owned@.contains(c) ==> start.contains(c),
                forall|c: InputCode| #[trigger] start.contains(c) && desired@.contains(c) ==> self.owned@.contains(c),
                e0 == old(input).events(),
                sink_follows(e0, input.events(), self.calls@, c0.len() as int),
            decreases m,
        {
            let ghost rev = start.reverse();
            let ghost k = start.len() - m;
            proof {
                assert(rev.take(k + 1).drop_last() =~= rev.take(k));
                assert(rev.take(k + 1).last() == snapshot@[m - 1]);
            }
            let code = snapshot[m - 1];
            let mut wanted = false;
            let mut j: usize = 0;
            while j < desired.len()
                invariant
                    j <= desired@.len(),
                    wanted <==> exists|x: int| 0 <= x < j && desired@[x] == code,
                decreases desired@.len() - j,
            {
                if desired[j] == code {
                    wanted = true;
                }
                j += 1;
            }
            if !wanted {
                let ghost log0 = self.sent@;
                let ghost own0 = self.owned@;
                let ghost calls0 = self.calls@;
                let ghost ev0 = input.events();
                let rel = self.release(input, code);
                proof {
                    lemma_released_facts(code, calls0, self.calls@, outcome_text(rel));
                    lemma_sink_chain(e0, ev0, input.events(), c0, calls0, self.calls@);
                    lemma_released_facts(code, calls0, self.calls@, outcome_text(rel));
                    assert(!desired@.contains(code)) by {
                        if desired@.contains(code) {
                            let x = choose|x: int| 0 <= x < desired@.len() && desired@[x] == code;
                        }
                    }
                    lemma_extends_agree(calls0, self.calls@, c0.len() as int, calls0.len() as int);
                    lemma_release_calls_agree(rev.take(k), desired@, calls0, self.calls@, c0.len() as int, true);
                    assert(self.calls@ =~= c0 + release_calls(rev.take(k + 1), desired@, self.calls@, c0.len() as int, true));
                    if rel is Err {
                        lemma_release_stopped(rev, desired@, self.calls@, c0.len() as int, k + 1);
                        assert(rev.take(start.len() as int) =~= rev);
                    }
                    lemma_released_facts(code, calls0, self.calls@, outcome_text(rel));
                    lemma_ok_split(calls0, self.calls@, c0.len() as int);
                    lemma_extends_trans(c0, calls0, self.calls@);
                    if rel is Err {
                        lemma_from_earlier(self.calls@, c0.len() as int, calls0.len() as int, outcome_text(rel)->Err_0, code);
                    }
                }
                match rel {
                    Ok(()) => {
                        proof {
                            lemma_step_extend(start_log, log0, self.sent@, start, own0, self.owned@);
                            let k = choose|k: int| 0 <= k < own0.len() && own0[k] == code && self.owned@ == own0.remove(k);
                            assert forall|q: int| 0 <= q < m - 1 implies self.owned@.contains(#[trigger] snapshot@[q]) by {
                                assert(snapshot@[q] != snapshot@[m - 1]);
                                Self::lemma_remove_keeps(own0, k, snapshot@[q]);
                            }
                            assert forall|c: InputCode| #[trigger] self.owned@.contains(c) implies desired@.contains(c)
                                || exists|k2: int| 0 <= k2 < m - 1 && snapshot@[k2] == c by {
                                let q = choose|q: int| 0 <= q < self.owned@.len() && self.owned@[q] == c;
                                own0.remove_ensures(k);
                                let orig = if q < k { q } else { q + 1 };
                                assert(own0[orig] == c);
                                assert(own0.contains(c));
                                if !desired@.contains(c) {
                                    let k2 = choose|k2: int| 0 <= k2 < m && snapshot@[k2] == c;
                                    if k2 == m - 1 {
                                        assert(orig != k);
                                        assert(own0[orig] == own0[k]);
                                    }
                                }
                            }
                        }
                    },
                    Err(e) => {
                        proof {
                            lemma_step_extend(start_log, log0, self.sent@, start, own0, self.owned@);
                        }
                        return Err(e);
                    },
                }
            } else {
                proof {
                    assert forall|c: InputCode| #[trigger] self.owned@.contains(c) implies desired@.contains(c)
                        || exists|k2: int| 0 <= k2 < m - 1 && snapshot@[k2] == c by {
                        if !desired@.contains(c) {
                            let k2 = choose|k2: int| 0 <= k2 < m && snapshot@[k2] == c;
                            if k2 == m - 1 {
                                let x = choose|x: int| 0 <= x < j && desired@[x] == code;
                                assert(desired@.contains(code));
                            }
                        }
                    }
                }
            }
            m -= 1;
        }
        proof {
            assert(start.reverse().take(start.len() as int) =~= start.reverse());
        }
        Ok(())
    }

    /// Press every wanted input this binding does not hold; stop at the first failure.
    fn press_wanted<S: InputSink>(&mut self, input: &mut S, desired: &Vec<InputCode>) -> (r: Result<(), String>)
        requires
            old(self).wf(),
        ensures
            final(self).wf(),
            final(self).actions() == old(self).actions(),
            final(self).previous() == old(self).previous(),
            final(self).sent().len() >= old(self).sent().len(),
            final(self).sent().take(old(self).sent().len() as int) == old(self).sent(),
            owned_step(old(self).owned(), final(self).sent().skip(old(self).sent().len() as int), final(self).owned()),
            forall|c: InputCode| #[trigger] final(self).owned().contains(c) ==> old(self).owned().contains(c)
                || desired@.contains(c),
            extends(old(self).calls(), final(self).calls()),
            r is Ok <==> sends_ok_from(final(self).calls(), old(self).calls().len() as int),
            r matches Err(e) ==> failed_last_from(final(self).calls(), old(self).calls().len() as int, e@),
            r is Ok ==> forall|c: InputCode| #[trigger] desired@.contains(c) ==> final(self).owned().contains(c)
                || held_from(final(self).calls(), old(self).calls().len() as int, c),
            final(self).calls() == old(self).calls() + press_calls(
                old(self).owned().to_set(),
                desired@,
                final(self).calls(),
                old(self).calls().len() as int,
            ).0,
            final(self).owned().to_set() == press_calls(
                old(self).owned().to_set(),
                desired@,
                final(self).calls(),
                old(self).calls().len() as int,
            ).1,
            r is Err <==> refused_last(press_calls(
                old(self).owned().to_set(),
                desired@,
                final(self).calls(),
                old(self).calls().len() as int,
            ).0),
            sink_follows(old(input).events(), final(input).events(), final(self).calls(), old(self).calls().len() as int),
    {
        let ghost e0 = input.events();
        let ghost start_log = self.sent@;
        let ghost start = self.owned@;
        let ghost c0 = self.calls@;
        assert(self.calls@.take(c0.len() as int) =~= c0);
        proof {
            lemma_sink_idle(e0, c0);
            assert(self.sent@.skip(start_log.len() as int) =~= seq![]);
            assert(self.sent@.take(start_log.len() as int) =~= start_log);
        }
        let mut i: usize = 0;
        while i < desired.len()
            invariant
                i <= desired@.len(),
                self.wf(),
                self.actions() == old(self).actions(),
                self.previous() == old(self).previous(),
                self.sent@.len() >= start_log.len(),
                self.sent@.take(start_log.len() as int) == start_log,
                start_log == old(self).sent(),
                start == old(self).owned(),
                owned_step(start, self.sent@.skip(start_log.len() as int), self.owned@),
                forall|c: InputCode| #[trigger] self.owned@.contains(c) ==> start.contains(c) || desired@.contains(c),
                c0 == old(self).calls(),
                extends(c0, self.calls@),
                sends_ok_from(self.calls@, c0.len() as int),
                forall|x: int| 0 <= x < i ==> self.owned@.contains(#[trigger] desired@[x]) || held_from(
                    self.calls@,
                    c0.len() as int,
                    desired@[x],
                ),
                self.calls@ == c0 + press_calls(start.to_set(), desired@.take(i as int), self.calls@, c0.len() as int).0,
                self.owned@.to_set() == press_calls(start.to_set(), desired@.take(i as int), self.calls@, c0.len() as int).1,
                !refused_last(press_calls(start.to_set(), desired@.take(i as int), self.calls@, c0.len() as int).0),
                e0 == old(input).events(),
                sink_follows(e0, input.events(), self.calls@, c0.len() as int),
            decreases desired@.len() - i,
        {
            let ghost log0 = self.sent@;
            let ghost own0 = self.owned@;
            let ghost calls0 = self.calls@;
            let code = desired[i];
            let ghost ev0 = input.events();
            let pr = self.press(input, code);
            proof {
                lemma_sink_chain(e0, ev0, input.events(), c0, calls0, self.calls@);
                let n0 = c0.len() as int;
                let ki = desired@.take(i as int);
                assert(desired@.take(i + 1).drop_last() =~= ki);
                assert(desired@.take(i + 1).last() == code);
                lemma_extends_agree(calls0, self.calls@, n0, calls0.len() as int);
                lemma_press_calls_agree(start.to_set(), ki, calls0, self.calls@, n0);
                let seg = press_call(own0.to_set(), code, self.calls@, calls0.len() as int);
                assert(self.calls@ =~= c0 + press_calls(start.to_set(), desired@.take(i + 1), self.calls@, n0).0);
                if pr == Ok::<bool, String>(true) {
                    assert(self.owned@.to_set() =~= own0.to_set().insert(code));
                } else {
                    assert(self.owned@.to_set() =~= own0.to_set());
                }
                if pr is Err {
                    assert(self.calls@.skip(calls0.len() as int) =~= seg);
                    assert(refused_last(press_calls(start.to_set(), desired@.take(i + 1), self.calls@, n0).0));
                    lemma_press_stopped(start.to_set(), desired@, self.calls@, n0, i + 1);
                }
                lemma_pressed_facts(own0, code, calls0, self.calls@, press_text(pr));
                lemma_ok_split(calls0, self.calls@, c0.len() as int);
                lemma_extends_trans(c0, calls0, self.calls@);
                if pr is Err {
                    lemma_from_earlier(self.calls@, c0.len() as int, calls0.len() as int, press_text(pr)->Err_0, code);
                }
                if pr is Ok {
                    assert forall|x: int| 0 <= x < i + 1 implies self.owned@.contains(#[trigger] desired@[x]) || held_from(
                        self.calls@,
                        c0.len() as int,
                        desired@[x],
                    ) by {
                        if x < i {
                            if own0.contains(desired@[x]) {
                                let q = choose|q: int| 0 <= q < own0.len() && own0[q] == desired@[x];
                                if pr == Ok::<bool, String>(true) {
                                    assert(self.owned@[q] == own0[q]);
                                }
                            } else {
                                lemma_held_grows(calls0, self.calls@, c0.len() as int, desired@[x]);
                            }
                        } else {
                            if pr == Ok::<bool, String>(true) {
                                assert(self.owned@[own0.len() as int] == code);
                            } else if !own0.contains(code) {
                                lemma_from_earlier(self.calls@, c0.len() as int, calls0.len() as int, seq![], code);
                            }
                        }
                    }
                }
                lemma_step_extend(start_log, log0, self.sent@, start, own0, self.owned@);
                assert forall|c: InputCode| #[trigger] self.owned@.contains(c) implies start.contains(c)
                    || desired@.contains(c) by {
                    if pr == Ok::<bool, String>(true) {
                        let q = choose|q: int| 0 <= q < self.owned@.len() && self.owned@[q] == c;
                        if q < own0.len() {
                            assert(own0[q] == c);
                            assert(own0.contains(c));
                        } else {
                            assert(desired@[i as int] == c);
                        }
                    }
                }
            }
            if let Err(e) = pr {
                return Err(e);
            }
            i += 1;
        }
        proof {
            assert forall|c: InputCode| #[trigger] desired@.contains(c) implies self.owned@.contains(c) || held_from(
                self.calls@,
                c0.len() as int,
                c,
            ) by {
                let x = choose|x: int| 0 <= x < desired@.len() && desired@[x] == c;
            }
        }
        proof {
            assert(desired@.take(desired@.len() as int) =~= desired@);
        }
        Ok(())
    }

    /// Two full clicks of the left button, unless it is already held.
    fn double_click<S: InputSink>(&mut self, input: &mut S) -> (r: Result<(), String>)
        requires
            old(self).wf(),
        ensures
            final(self).wf(),
            final(self).actions() == old(self).actions(),
            final(self).previous() == old(self).previous(),
            final(self).sent().len() >= old(self).sent().len(),
            final(self).sent().take(old(self).sent().len() as int) == old(self).sent(),
            owned_step(old(self).owned(), final(self).sent().skip(old(self).sent().len() as int), final(self).owned()),
            r is Ok ==> final(self).owned() == old(self).owned(),
            extends(old(self).calls(), final(self).calls()),
            double_clicked(
                old(self).owned(),
                final(self).calls(),
                old(self).calls().len() as int,
                final(self).sent(),
                old(self).sent().len() as int,
                outcome_text(r),
            ),
            final(self).calls() == old(self).calls() + double_click_calls(
                old(self).owned().to_set(),
                final(self).calls(),
                old(self).calls().len() as int,
            ),
            sink_follows(old(input).events(), final(input).events(), final(self).calls(), old(self).calls().len() as int),
    {
        let ghost e0 = input.events();
        let ghost start_log = self.sent@;
        let ghost start = self.owned@;
        let ghost c0 = self.calls@;
        proof {
            assert(self.sent@.skip(start_log.len() as int) =~= seq![]);
            assert(self.sent@.take(start_log.len() as int) =~= start_log);
            assert(self.calls@.take(c0.len() as int) =~= c0);
        }
        let code = InputCode::LeftMouse;
        // Inspect external state once: Windows may not update the async key state between
        // the two queued clicks, so rechecking could suppress the second click.
        if self.owns(code) {
            proof {
                lemma_sink_idle(e0, c0);
                assert(self.calls@ =~= c0 + seq![]);
            }
            return Ok(());
        }
        let h = self.ask_held(input, code);
        proof {
            lemma_sink_asked(e0, c0, code, h);
        }
        if h {
            proof {
                assert(self.calls@.take(c0.len() as int) =~= c0);
                assert(self.calls@[c0.len() as int] == (Call::Held { queried: code, answer: true }));
                assert(held_from(self.calls@, c0.len() as int, code));
                assert forall|i: int| c0.len() <= i < self.calls@.len() && (#[trigger] self.calls@[i]) is Send implies self.calls@[i]->outcome is Ok by {
                    assert(i == c0.len());
                }
            }
            return Ok(());
        }
        proof {
            assert(self.calls@.take(c0.len() as int) =~= c0);
            assert forall|i: int| c0.len() <= i < self.calls@.len() && (#[trigger] self.calls@[i]) is Send implies self.calls@[i]->outcome is Ok by {
                assert(i == c0.len());
            }
            assert(self.sent@ =~= start_log + clicks(0));
            assert(self.calls@ =~= c0 + seq![Call::Held { queried: LEFT, answer: false }] + click_calls(
                self.calls@,
                c0.len() as int + 1,
                0,
            ));
        }
        let mut n: usize = 0;
        while n < 2
            invariant
                n <= 2,
                self.wf(),
                self.owned@ == start,
                !start.contains(code),
                self.actions() == old(self).actions(),
                self.previous() == old(self).previous(),
                self.sent@.len() >= start_log.len(),
                self.sent@.take(start_log.len() as int) == start_log,
                start_log == old(self).sent(),
                start == old(self).owned(),
                owned_step(start, self.sent@.skip(start_log.len() as int), self.owned@),
                c0 == old(self).calls(),
                extends(c0, self.calls@),
                sends_ok_from(self.calls@, c0.len() as int),
                self.sent@ == start_log + clicks(n as int),
                code == LEFT,
                self.calls@[c0.len() as int] == (Call::Held { queried: LEFT, answer: false }),
                self.calls@ == c0 + seq![Call::Held { queried: LEFT, answer: false }] + click_calls(
                    self.calls@,
                    c0.len() as int + 1,
                    (2 * n) as nat,
                ),
                !refused_last(click_calls(self.calls@, c0.len() as int + 1, (2 * n) as nat)),
                e0 == old(input).events(),
                sink_follows(e0, input.events(), self.calls@, c0.len() as int),
            decreases 2 - n,
        {
            let ghost log0 = self.sent@;
            let ghost calls0 = self.calls@;
            let ghost ev0 = input.events();
            let pr = self.inject(input, code, false);
            proof {
                assert(self.calls@.take(calls0.len() as int) =~= calls0);
                lemma_sink_chain(e0, ev0, input.events(), c0, calls0, self.calls@);
                let k: nat = if n == 0 { 0 } else { 2 };
                assert(k == 2 * n);
                lemma_click_step(calls0, self.calls@, c0.len() as int + 1, k, outcome_text(pr));
                assert(self.calls@ =~= c0 + seq![Call::Held { queried: LEFT, answer: false }] + click_calls(
                    self.calls@,
                    c0.len() as int + 1,
                    k + 1,
                ));
                assert(self.calls@[c0.len() as int] == (Call::Held { queried: LEFT, answer: false }));
                if pr is Err {
                    lemma_click_stopped(self.calls@, c0.len() as int + 1, k + 1, 4);
                }
            }
            match pr {
                Ok(()) => {
                    proof {
                        lemma_released_ok_shape(calls0, self.calls@, code, false);
                        lemma_ok_split(calls0, self.calls@, c0.len() as int);
                        lemma_extends_trans(c0, calls0, self.calls@);
                    }
                },
                Err(e) => {
                    proof {
                        assert(self.sent@ == log0);
                        assert(self.calls@.take(calls0.len() as int) =~= calls0);
                        lemma_extends_trans(c0, calls0, self.calls@);
                        lemma_refused_last(self.calls@, c0.len() as int, e@);
                    }
                    return Err(e);
                },
            }
            let ghost log1 = self.sent@;
            self.owned.push(code);
            proof {
                let ev = log1.skip(log0.len() as int);
                assert(ev =~= seq![(code, false)]);
                assert(log1.take(log0.len() as int) =~= log0);
                assert(ev[0] == (code, false));
                assert forall|c: InputCode| #[trigger] self.owned@.contains(c) implies start.contains(c)
                    || ev.contains((c, false)) by {
                    let q = choose|q: int| 0 <= q < self.owned@.len() && self.owned@[q] == c;
                    if q < start.len() {
                        assert(start[q] == c);
                    }
                }
                assert forall|c: InputCode| #[trigger] start.contains(c) && !self.owned@.contains(c) implies ev.contains((c, true)) by {
                    let q = choose|q: int| 0 <= q < start.len() && start[q] == c;
                    assert(self.owned@[q] == c);
                }
                assert(owned_step(start, ev, self.owned@));
                lemma_step_extend(start_log, log0, log1, start, start, self.owned@);
                assert forall|x: int, y: int| 0 <= x < self.owned@.len() && 0 <= y < self.owned@.len() && x != y
                    implies self.owned@[x] != self.owned@[y] by {
                    if x == start.len() {
                        assert(self.owned@[y] == start[y]);
                        if start[y] == code {
                            assert(start.contains(code));
                        }
                    } else if y == start.len() {
                        assert(self.owned@[x] == start[x]);
                        if start[x] == code {
                            assert(start.contains(code));
                        }
                    }
                }
                assert(self.owned@.contains(code)) by {
                    assert(self.owned@[start.len() as int] == code);
                }
            }
            let ghost own1 = self.owned@;
            let ghost calls1 = self.calls@;
            let ghost ev1 = input.events();
            let rel = self.release(input, code);
            proof {
                lemma_released_facts(code, calls1, self.calls@, outcome_text(rel));
                lemma_sink_chain(e0, ev1, input.events(), c0, calls1, self.calls@);
                let k: nat = if n == 0 { 1 } else { 3 };
                assert(k == 2 * n + 1);
                lemma_click_step(calls1, self.calls@, c0.len() as int + 1, k, outcome_text(rel));
                assert(self.calls@ =~= c0 + seq![Call::Held { queried: LEFT, answer: false }] + click_calls(
                    self.calls@,
                    c0.len() as int + 1,
                    k + 1,
                ));
                assert(self.calls@[c0.len() as int] == (Call::Held { queried: LEFT, answer: false }));
                if rel is Err {
                    lemma_click_stopped(self.calls@, c0.len() as int + 1, k + 1, 4);
                }
                lemma_step_extend(start_log, log1, self.sent@, start, own1, self.owned@);
                lemma_released_facts(code, calls1, self.calls@, outcome_text(rel));
                lemma_ok_split(calls1, self.calls@, c0.len() as int);
                lemma_extends_trans(c0, calls1, self.calls@);
                if rel is Err {
                    lemma_from_earlier(self.calls@, c0.len() as int, calls1.len() as int, outcome_text(rel)->Err_0, code);
                }
            }
            if let Err(e) = rel {
                return Err(e);
            }
            proof {
                assert(log1 == log0.push((code, false)));
                assert(self.sent@ == log1.push((code, true)));
                assert(clicks(1) =~= seq![(LEFT, false), (LEFT, true)]);
                if n == 0 {
                    assert(clicks(0) =~= seq![]);
                    assert(self.sent@ =~= start_log + clicks(1));
                } else {
                    assert(clicks(2) =~= seq![(LEFT, false), (LEFT, true), (LEFT, false), (LEFT, true)]);
                    assert(self.sent@ =~= start_log + clicks(2));
                }
            }
            proof {
                let k = choose|k: int| 0 <= k < own1.len() && own1[k] == code && self.owned@ == own1.remove(k);
                assert(k == start.len()) by {
                    if k < start.len() {
                        assert(own1[k] == start[k]);
                        assert(start.contains(code));
                    }
                }
                assert(self.owned@ =~= start);
            }
            n += 1;
        }
        proof {
            assert(self.sent@.skip(start_log.len() as int) =~= clicks(2));
            assert(clicks(2) =~= seq![(LEFT, false), (LEFT, true), (LEFT, false), (LEFT, true)]);
        }
        Ok(())
    }

    /// Run the one-shot action of button `i` (a shortcut chord or a double click).
    fn fire<S: InputSink>(&mut self, input: &mut S, i: usize) -> (r: Result<(), String>)
        requires
            old(self).wf(),
            i < 2,
        ensures
            final(self).wf(),
            final(self).actions() == old(self).actions(),
            final(self).previous() == old(self).previous(),
            final(self).sent().len() >= old(self).sent().len(),
            final(self).sent().take(old(self).sent().len() as int) == old(self).sent(),
            owned_step(old(self).owned(), final(self).sent().skip(old(self).sent().len() as int), final(self).owned()),
            r is Ok ==> final(self).owned() == old(self).owned(),
            extends(old(self).calls(), final(self).calls()),
            fired(
                old(self).actions()[i as int],
                old(self).owned(),
                final(self).calls(),
                old(self).calls().len() as int,
                final(self).sent(),
                old(self).sent().len() as int,
                outcome_text(r),
            ),
            final(self).calls() == old(self).calls() + fire_calls(
                old(self).actions()[i as int],
                old(self).owned().to_set(),
                final(self).calls(),
                old(self).calls().len() as int,
            ),
            r is Ok <==> chord_parses(old(self).actions()[i as int]) && all_taken(
                final(self).calls().skip(old(self).calls().len() as int),
            ),
            sink_follows(old(input).events(), final(input).events(), final(self).calls(), old(self).calls().len() as int),
    {
        proof {
            lemma_sink_idle(input.events(), self.calls@);
        }
        proof {
            reveal(fire_calls);
        }
        let ghost start_log = self.sent@;
        let ghost c0 = self.calls@;
        proof {
            assert(self.sent@.skip(start_log.len() as int) =~= seq![]);
            assert(self.sent@.take(start_log.len() as int) =~= start_log);
            assert(self.calls@.take(c0.len() as int) =~= c0);
            assert(self.actions()[i as int] == self.actions@[i as int]@) by {
                if i == 0 {
                } else {
                }
            }
        }
        let chord = action_shortcut(self.actions[i].as_str());
        if let Some(chord) = chord {
            let keys = match shortcut(chord.as_str()) {
                Ok(k) => k,
                Err(e) => {
                    proof {
                        assert(self.calls@ =~= c0 + seq![]);
                    }
                    return Err(e);
                },
            };
            let mut codes: Vec<InputCode> = Vec::new();
            let mut k: usize = 0;
            while k < keys.len()
                invariant
                    k <= keys@.len(),
                    codes@.len() == k,
                    forall|x: int| 0 <= x < k ==> #[trigger] codes@[x] == InputCode::Key(keys@[x]),
                decreases keys@.len() - k,
            {
                codes.push(InputCode::Key(keys[k]));
                k += 1;
            }
            assert(codes@ =~= key_inputs(keys@));
            let r = self.tap(input, &codes);
            proof {
                lemma_sends_ok_taken(self.calls@, c0.len() as int);
            }
            r
        } else if same_text(&chars_of(self.actions[i].as_str()), "Double click") {
            let r = self.double_click(input);
            proof {
                lemma_sends_ok_taken(self.calls@, c0.len() as int);
            }
            r
        } else {
            proof {
                assert(self.calls@ =~= c0 + seq![]);
                assert(self.calls@.skip(c0.len() as int) =~= Seq::<Call>::empty());
            }
            Ok(())
        }
    }

    /// Apply new button states: release held inputs no button wants any more, press the
    /// wanted ones, fire the one-shot action of each newly pressed button, and report
    /// whether a held button asks for a right click.
    #[verifier::spinoff_prover]
    #[verifier::rlimit(60)]
    pub fn update<S: InputSink>(&mut self, input: &mut S, states: [bool; 2]) -> (r: Result<bool, String>)
        requires
            old(self).wf(),
        ensures
            final(self).wf(),
            final(self).actions() == old(self).actions(),
            final(self).sent().len() >= old(self).sent().len(),
            final(self).sent().take(old(self).sent().len() as int) == old(self).sent(),
            owned_step(old(self).owned(), final(self).sent().skip(old(self).sent().len() as int), final(self).owned()),
            match r {
                Ok(b) => b == right_click(old(self).actions(), states@) && final(self).previous() == states@
                    && forall|c: InputCode| #[trigger] final(self).owned().contains(c) ==> wanted_inputs(
                    old(self).actions(),
                    states@,
                ).contains(c),
                Err(_) => final(self).previous() == old(self).previous(),
            },
            extends(old(self).calls(), final(self).calls()),
            r is Ok <==> sends_ok_from(final(self).calls(), old(self).calls().len() as int) && forall|j: int|
                0 <= j < 2 && states@[j] && !old(self).previous()[j] ==> chord_parses(#[trigger] old(self).actions()[j]),
            r matches Err(e) ==> failed_last_from(final(self).calls(), old(self).calls().len() as int, e@) || (e@
                == shortcut_error() && sends_ok_from(final(self).calls(), old(self).calls().len() as int)),
            r is Ok ==> forall|c: InputCode| #[trigger] wanted_inputs(old(self).actions(), states@).contains(c)
                ==> final(self).owned().contains(c) || held_from(final(self).calls(), old(self).calls().len() as int, c),
            r is Ok ==> forall|j: int|
                0 <= j < 2 && states@[j] && !old(self).previous()[j] ==> fired_ok(
                    #[trigger] old(self).actions()[j],
                    final(self).owned(),
                    final(self).calls(),
                    old(self).calls().len() as int,
                    final(self).sent(),
                    old(self).sent().len() as int,
                ),
            final(self).calls() == old(self).calls() + update_calls(
                old(self).owned(),
                old(self).actions(),
                old(self).previous(),
                states@,
                final(self).calls(),
                old(self).calls().len() as int,
            ),
            final(input).events() == old(input).events() + requests(update_calls(
                old(self).owned(),
                old(self).actions(),
                old(self).previous(),
                states@,
                final(self).calls(),
                old(self).calls().len() as int,
            )),
    {
        let ghost start_log = self.sent@;
        let ghost start = self.owned@;
        let ghost acts = self.actions();
        let ghost prev = self.previous();
        let ghost c0 = self.calls@;
        let ghost n0 = c0.len() as int;
        let ghost s0 = start_log.len() as int;
        proof {
            assert(self.sent@.skip(start_log.len() as int) =~= seq![]);
            assert(self.sent@.take(start_log.len() as int) =~= start_log);
        }
        let mut desired: Vec<InputCode> = Vec::new();
        if states[0] {
            if let Some(c) = held_input_of(&self.actions[0]) {
                desired.push(c);
            }
        }
        if states[1] {
            if let Some(c) = held_input_of(&self.actions[1]) {
                desired.push(c);
            }
        }
        assert(desired@ =~= wanted_inputs(acts, states@));
        let ghost e0 = input.events();
        let hr = self.hold_wanted(input, &desired);
        let ghost c1 = self.calls@;
        let ghost own1 = self.owned@;
        let ghost log1 = self.sent@;
        let ghost e1 = input.events();
        proof {
            assert(c1.take(c1.len() as int) =~= c1);
            lemma_update_calls_split(start, acts, prev, states@, c1, c1, n0);
        }
        if let Err(e) = hr {
            proof {
                assert(c1 =~= c0 + update_calls(start, acts, prev, states@, c1, n0));
                assert(c1.skip(n0) =~= update_calls(start, acts, prev, states@, c1, n0));
            }
            return Err(e);
        }
        let fr = self.fire_new(input, states);
        proof {
            let t = self.calls@;
            let cl = c1.len() as int;
            lemma_step_extend(start_log, log1, self.sent@, start, own1, self.owned@);
            lemma_update_calls_split(start, acts, prev, states@, c1, t, n0);
            assert(c1 =~= c0 + c1.skip(n0));
            assert(t =~= c0 + update_calls(start, acts, prev, states@, t, n0));
            assert(t.skip(n0) =~= update_calls(start, acts, prev, states@, t, n0));
            lemma_ok_split(c1, t, n0);
            lemma_extends_trans(c0, c1, t);
            lemma_sink_chain(e0, e1, input.events(), c0, c1, t);
            if fr is Err {
                lemma_from_earlier(t, n0, cl, outcome_text(fr)->Err_0, LEFT);
            } else {
                assert forall|c: InputCode| #[trigger] wanted_inputs(acts, states@).contains(c) implies self.owned@.contains(c)
                    || held_from(t, n0, c) by {
                    if held_from(c1, n0, c) {
                        lemma_held_grows(c1, t, n0, c);
                    }
                }
                assert forall|j: int| 0 <= j < 2 && states@[j] && !prev[j] implies fired_ok(
                    #[trigger] acts[j],
                    self.owned@,
                    t,
                    n0,
                    self.sent@,
                    s0,
                ) by {
                    lemma_fired_ok_earlier(acts[j], self.owned@, t, n0, cl, self.sent@, s0, log1.len() as int);
                }
            }
        }
        if let Err(e) = fr {
            return Err(e);
        }
        self.previous = states;
        let right = (states[0] && same_text(&chars_of(self.actions[0].as_str()), "Right click")) || (states[1]
            && same_text(&chars_of(self.actions[1].as_str()), "Right click"));
        Ok(right)
    }

    /// The holding step of an update: release every owned input that is not `desired`,
    /// newest first, then press each desired input; stop at the first refusal.
    fn hold_wanted<S: InputSink>(&mut self, input: &mut S, desired: &Vec<InputCode>) -> (r: Result<(), String>)
        requires
            old(self).wf(),
        ensures
            final(self).wf(),
            final(self).actions() == old(self).actions(),
            final(self).previous() == old(self).previous(),
            final(self).sent().len() >= old(self).sent().len(),
            final(self).sent().take(old(self).sent().len() as int) == old(self).sent(),
            owned_step(old(self).owned(), final(self).sent().skip(old(self).sent().len() as int), final(self).owned()),
            extends(old(self).calls(), final(self).calls()),
            final(self).calls() == old(self).calls() + hold_calls(
                old(self).owned(),
                desired@,
                final(self).calls(),
                old(self).calls().len() as int,
            ).0,
            r is Err <==> hold_calls(old(self).owned(), desired@, final(self).calls(), old(self).calls().len() as int).2,
            r is Ok <==> sends_ok_from(final(self).calls(), old(self).calls().len() as int),
            r matches Err(e) ==> failed_last_from(final(self).calls(), old(self).calls().len() as int, e@),
            r is Ok ==> final(self).owned().to_set() == hold_calls(
                old(self).owned(),
                desired@,
                final(self).calls(),
                old(self).calls().len() as int,
            ).1,
            r is Ok ==> forall|c: InputCode| #[trigger] final(self).owned().contains(c) ==> desired@.contains(c),
            r is Ok ==> forall|c: InputCode| #[trigger] desired@.contains(c) ==> final(self).owned().contains(c)
                || held_from(final(self).calls(), old(self).calls().len() as int, c),
            sink_follows(old(input).events(), final(input).events(), final(self).calls(), old(self).calls().len() as int),
    {
        let ghost start_log = self.sent@;
        let ghost start = self.owned@;
        let ghost c0 = self.calls@;
        let ghost n0 = c0.len() as int;
        let ghost e0 = input.events();
        let ghost log0 = self.sent@;
        let ru = self.release_unwanted(input, desired);
        if let Err(e) = ru {
            return Err(e);
        }
        let ghost log1 = self.sent@;
        let ghost own1 = self.owned@;
        let ghost calls1 = self.calls@;
        let ghost e1 = input.events();
        let pw = self.press_wanted(input, desired);
        proof {
            let ruc = release_calls(start.reverse(), desired@, calls1, n0, true);
            assert(own1.to_set() =~= kept_inputs(start, desired@));
            lemma_extends_agree(calls1, self.calls@, n0, calls1.len() as int);
            lemma_release_calls_agree(start.reverse(), desired@, calls1, self.calls@, n0, true);
            lemma_step_extend(start_log, log1, self.sent@, start, own1, self.owned@);
            lemma_ok_split(calls1, self.calls@, n0);
            lemma_extends_trans(c0, calls1, self.calls@);
            lemma_sink_chain(e0, e1, input.events(), c0, calls1, self.calls@);
            assert(self.calls@ =~= c0 + hold_calls(start, desired@, self.calls@, n0).0);
            if pw is Err {
                lemma_from_earlier(self.calls@, n0, calls1.len() as int, outcome_text(pw)->Err_0, LEFT);
            } else {
                assert forall|c: InputCode| #[trigger] desired@.contains(c) implies self.owned@.contains(c) || held_from(
                    self.calls@,
                    n0,
                    c,
                ) by {
                    lemma_from_earlier(self.calls@, n0, calls1.len() as int, seq![], c);
                }
            }
        }
        pw
    }

    /// Fire the one-shot action of each newly pressed button, in button order; stop at the
    /// first that fails.
    fn fire_new<S: InputSink>(&mut self, input: &mut S, states: [bool; 2]) -> (r: Result<(), String>)
        requires
            old(self).wf(),
        ensures
            final(self).wf(),
            final(self).actions() == old(self).actions(),
            final(self).previous() == old(self).previous(),
            final(self).sent().len() >= old(self).sent().len(),
            final(self).sent().take(old(self).sent().len() as int) == old(self).sent(),
            owned_step(old(self).owned(), final(self).sent().skip(old(self).sent().len() as int), final(self).owned()),
            r is Ok ==> final(self).owned() == old(self).owned(),
            extends(old(self).calls(), final(self).calls()),
            final(self).calls() == old(self).calls() + update_fires(
                old(self).actions(),
                old(self).previous(),
                states@,
                old(self).owned().to_set(),
                final(self).calls(),
                old(self).calls().len() as int,
                2,
            ),
            r is Ok <==> sends_ok_from(final(self).calls(), old(self).calls().len() as int) && forall|j: int|
                0 <= j < 2 && states@[j] && !old(self).previous()[j] ==> chord_parses(#[trigger] old(self).actions()[j]),
            r matches Err(e) ==> failed_last_from(final(self).calls(), old(self).calls().len() as int, e@) || (e@
                == shortcut_error() && sends_ok_from(final(self).calls(), old(self).calls().len() as int)),
            r is Ok ==> forall|j: int|
                0 <= j < 2 && states@[j] && !old(self).previous()[j] ==> fired_ok(
                    #[trigger] old(self).actions()[j],
                    final(self).owned(),
                    final(self).calls(),
                    old(self).calls().len() as int,
                    final(self).sent(),
                    old(self).sent().len() as int,
                ),
            sink_follows(old(input).events(), final(input).events(), final(self).calls(), old(self).calls().len() as int),
    {
        let ghost e0 = input.events();
        let ghost start_log = self.sent@;
        let ghost start = self.owned@;
        let ghost acts = self.actions();
        let ghost prev = self.previous();
        let ghost c0 = self.calls@;
        let ghost n0 = c0.len() as int;
        let ghost s0 = start_log.len() as int;
        let ghost own2 = self.owned@;
        proof {
            assert(self.sent@.skip(start_log.len() as int) =~= seq![]);
            assert(self.sent@.take(start_log.len() as int) =~= start_log);
            assert(c0.take(n0) =~= c0);
            lemma_sink_idle(e0, c0);
            assert(self.calls@ =~= c0 + update_fires(acts, prev, states@, own2.to_set(), self.calls@, n0, 0));
        }
        let mut i: usize = 0;
        while i < 2
            invariant
                i <= 2,
                self.wf(),
                self.actions() == acts,
                self.previous() == old(self).previous(),
                self.sent@.len() >= start_log.len(),
                self.sent@.take(start_log.len() as int) == start_log,
                start_log == old(self).sent(),
                start == old(self).owned(),
                acts == old(self).actions(),
                prev == old(self).previous(),
                owned_step(start, self.sent@.skip(start_log.len() as int), self.owned@),
                c0 == old(self).calls(),
                n0 == c0.len(),
                s0 == start_log.len(),
                extends(c0, self.calls@),
                sends_ok_from(self.calls@, n0),
                self.owned@ == own2,
                own2 == start,
                forall|j: int|
                    0 <= j < i && states@[j] && !prev[j] ==> chord_parses(#[trigger] acts[j]) && fired_ok(
                        acts[j],
                        own2,
                        self.calls@,
                        n0,
                        self.sent@,
                        s0,
                    ),
                self.calls@ == c0 + update_fires(acts, prev, states@, own2.to_set(), self.calls@, n0, i as int),
                (i >= 1 && newly_pressed(prev, states@, 0)) ==> chord_parses(acts[0]) && all_taken(
                    fire_calls(acts[0], own2.to_set(), self.calls@, n0),
                ),
                e0 == old(input).events(),
                sink_follows(e0, input.events(), self.calls@, n0),
            decreases 2 - i,
        {
            if states[i] && !self.previous[i] {
                let ghost log2 = self.sent@;
                let ghost calls2 = self.calls@;
                let ghost ev2 = input.events();
                let fr = self.fire(input, i);
                proof {
                    lemma_sink_chain(e0, ev2, input.events(), c0, calls2, self.calls@);
                    lemma_step_extend(start_log, log2, self.sent@, start, own2, self.owned@);
                    lemma_extends_trans(c0, calls2, self.calls@);
                    lemma_fired_facts(acts[i as int], own2, calls2, self.calls@, n0, log2, self.sent@, s0, outcome_text(fr));
                    let h = own2.to_set();
                    lemma_extends_agree(calls2, self.calls@, n0, calls2.len() as int);
                    lemma_update_fires_agree(acts, prev, states@, h, calls2, self.calls@, n0, i as int);
                    if i == 1 && newly_pressed(prev, states@, 0) {
                        lemma_fire_calls_agree(acts[0], h, calls2, self.calls@, n0);
                    }
                    assert(self.calls@.skip(calls2.len() as int) =~= fire_calls(acts[i as int], h, self.calls@, calls2.len() as int));
                    assert(self.calls@ =~= c0 + update_fires(acts, prev, states@, h, self.calls@, n0, i + 1));
                    if fr is Err {
                        assert(update_fires(acts, prev, states@, h, self.calls@, n0, 2) == update_fires(
                            acts,
                            prev,
                            states@,
                            h,
                            self.calls@,
                            n0,
                            i + 1,
                        ));
                    }
                }
                if let Err(e) = fr {
                    proof {
                        assert(states@[i as int] && !prev[i as int]);
                        assert(!(sends_ok_from(self.calls@, n0) && chord_parses(acts[i as int])));
                    }
                    return Err(e);
                }
                proof {
                    assert forall|j: int| 0 <= j < i + 1 && states@[j] && !prev[j] implies chord_parses(#[trigger] acts[j])
                        && fired_ok(acts[j], own2, self.calls@, n0, self.sent@, s0) by {
                        if j < i {
                            lemma_fired_ok_grows(acts[j], own2, calls2, self.calls@, n0, log2, self.sent@, s0);
                        }
                    }
                }
            }
            i += 1;
        }
        Ok(())
    }

    /// Release every input this binding holds, newest first, trying each even after a
    /// failure (stop, proximity loss and errors release only input pressed here).
    pub fn release_all<S: InputSink>(&mut self, input: &mut S) -> (r: Result<(), String>)
        requires
            old(self).wf(),
        ensures
            final(self).wf(),
            final(self).actions() == old(self).actions(),
            final(self).previous() == seq![false, false],
            final(self).sent().len() >= old(self).sent().len(),
            final(self).sent().take(old(self).sent().len() as int) == old(self).sent(),
            owned_step(old(self).owned(), final(self).sent().skip(old(self).sent().len() as int), final(self).owned()),
            only_releases(final(self).sent().skip(old(self).sent().len() as int)),
            forall|c: InputCode| #[trigger] final(self).owned().contains(c) ==> old(self).owned().contains(c),
            r is Ok ==> final(self).owned().len() == 0,
            final(self).calls() == old(self).calls() + release_calls(
                old(self).owned().reverse(),
                seq![],
                final(self).calls(),
                old(self).calls().len() as int,
                false,
            ),
            r is Ok <==> all_taken(final(self).calls().skip(old(self).calls().len() as int)),
            r matches Err(e) ==> failed_last_from(final(self).calls(), old(self).calls().len() as int, e@),
            forall|c: InputCode| #[trigger] final(self).owned().contains(c) <==> release_refused(
                final(self).calls().skip(old(self).calls().len() as int),
                c,
            ),
            final(input).events() == old(input).events() + old(self).owned().reverse().map_values(
                |c: InputCode| (c, true),
            ),
    {
        let ghost e0 = input.events();
        let ghost start_log = self.sent@;
        let ghost start = self.owned@;
        let ghost c0 = self.calls@;
        let ghost n0 = c0.len() as int;
        let snapshot = self.owned.clone();
        assert(snapshot@ == start);
        let mut result: Result<(), String> = Ok(());
        let mut m = snapshot.len();
        proof {
            assert(self.sent@.skip(start_log.len() as int) =~= seq![]);
            assert(self.sent@.take(start_log.len() as int) =~= start_log);
            assert(c0.take(n0) =~= c0);
            lemma_sink_idle(e0, c0);
            assert(c0.skip(n0) =~= Seq::<Call>::empty());
            assert(start.take(start.len() as int) =~= start);
            assert(Seq::<InputCode>::empty() + start =~= start);
            assert forall|c: InputCode| #[trigger] self.owned@.contains(c) <==> Seq::<InputCode>::empty().contains(c)
                || start.take(m as int).contains(c) || release_refused(self.calls@.skip(n0), c) by {}
        }
        while m > 0
            invariant
                m <= snapshot@.len(),
                snapshot@ == start,
                no_duplicates(start),
                self.wf(),
                self.actions() == old(self).actions(),
                self.previous() == old(self).previous(),
                self.sent@.len() >= start_log.len(),
                self.sent@.take(start_log.len() as int) == start_log,
                start_log == old(self).sent(),
                start == old(self).owned(),
                owned_step(start, self.sent@.skip(start_log.len() as int), self.owned@),
                only_releases(self.sent@.skip(start_log.len() as int)),
                forall|k: int| 0 <= k < m ==> self.owned@.contains(#[trigger] snapshot@[k]),
                forall|c: InputCode| #[trigger] self.owned@.contains(c) ==> start.contains(c),
                result is Ok ==> forall|c: InputCode| #[trigger] self.owned@.contains(c) ==> exists|k: int|
                    0 <= k < m && snapshot@[k] == c,
                c0 == old(self).calls(),
                n0 == c0.len(),
                extends(c0, self.calls@),
                self.calls@.len() == n0 + (start.len() - m),
                forall|q: int|
                    0 <= q < start.len() - m ==> (#[trigger] self.calls@[n0 + q]) is Send && self.calls@[n0 + q]->code
                        == start[start.len() - 1 - q] && self.calls@[n0 + q]->up,
                forall|c: InputCode| #[trigger] self.owned@.contains(c) <==> Seq::<InputCode>::empty().contains(c)
                    || start.take(m as int).contains(c) || release_refused(self.calls@.skip(n0), c),
                result is Ok <==> sends_ok_from(self.calls@, n0),
                result matches Err(e) ==> failed_last_from(self.calls@, n0, e@),
                e0 == old(input).events(),
                sink_follows(e0, input.events(), self.calls@, n0),
            decreases m,
        {
            let code = snapshot[m - 1];
            let ghost log0 = self.sent@;
            let ghost own0 = self.owned@;
            let ghost calls0 = self.calls@;
            let ghost ev0 = input.events();
            let rel = self.release(input, code);
            proof {
                lemma_released_facts(code, calls0, self.calls@, outcome_text(rel));
                lemma_sink_chain(e0, ev0, input.events(), c0, calls0, self.calls@);
                lemma_extends_trans(c0, calls0, self.calls@);
                lemma_ok_split(calls0, self.calls@, n0);
                if rel is Ok {
                    if result is Err {
                        lemma_failed_grows(calls0, self.calls@, n0, outcome_text(result)->Err_0);
                    }
                } else {
                    lemma_from_earlier(self.calls@, n0, calls0.len() as int, outcome_text(rel)->Err_0, code);
                }
                assert forall|q: int| 0 <= q < start.len() - (m - 1) implies (#[trigger] self.calls@[n0 + q]) is Send
                    && self.calls@[n0 + q]->code == start[start.len() - 1 - q] && self.calls@[n0 + q]->up by {
                    if q < start.len() - m {
                        assert(self.calls@[n0 + q] == calls0[n0 + q]);
                    }
                }
                assert(self.calls@.skip(n0) =~= calls0.skip(n0).push(
                    Call::Send { code, up: true, outcome: outcome_text(rel) },
                ));
                assert forall|q: int| 0 <= q < calls0.skip(n0).len() implies (#[trigger] calls0.skip(n0)[q]) is Send
                    && calls0.skip(n0)[q]->code == start[start.len() - 1 - q] by {
                    assert(calls0.skip(n0)[q] == calls0[n0 + q]);
                }
                assert(Seq::<InputCode>::empty() + start =~= start);
                lemma_unwind_owned(
                    Seq::<InputCode>::empty(),
                    start,
                    m as int,
                    own0,
                    self.owned@,
                    calls0.skip(n0),
                    self.calls@.skip(n0),
                    outcome_text(rel),
                );
                lemma_step_extend(start_log, log0, self.sent@, start, own0, self.owned@);
                let ev = self.sent@.skip(start_log.len() as int);
                let ev0 = log0.skip(start_log.len() as int);
                if rel is Ok {
                    assert(ev =~= ev0.push((code, true)));
                } else {
                    assert(ev =~= ev0);
                }
                assert forall|q: int| 0 <= q < ev.len() implies (#[trigger] ev[q]).1 by {
                    if q < ev0.len() {
                        assert(ev[q] == ev0[q]);
                    }
                }
                if rel is Ok {
                    let k = choose|k: int| 0 <= k < own0.len() && own0[k] == code && self.owned@ == own0.remove(k);
                    own0.remove_ensures(k);
                    assert forall|q: int| 0 <= q < m - 1 implies self.owned@.contains(#[trigger] snapshot@[q]) by {
                        assert(snapshot@[q] != snapshot@[m - 1]);
                        Self::lemma_remove_keeps(own0, k, snapshot@[q]);
                    }
                    assert forall|c: InputCode| #[trigger] self.owned@.contains(c) implies start.contains(c) by {
                        let q = choose|q: int| 0 <= q < self.owned@.len() && self.owned@[q] == c;
                        let orig = if q < k { q } else { q + 1 };
                        assert(own0[orig] == c);
                        assert(own0.contains(c));
                    }
                    if result is Ok {
                        assert forall|c: InputCode| #[trigger] self.owned@.contains(c) implies exists|k2: int|
                            0 <= k2 < m - 1 && snapshot@[k2] == c by {
                            let q = choose|q: int| 0 <= q < self.owned@.len() && self.owned@[q] == c;
                            let orig = if q < k { q } else { q + 1 };
                            assert(own0[orig] == c);
                            assert(own0.contains(c));
                            let k2 = choose|k2: int| 0 <= k2 < m && snapshot@[k2] == c;
                            if k2 == m - 1 {
                                assert(orig != k);
                                assert(own0[orig] == own0[k]);
                            }
                        }
                    }
                }
            }
            if let Err(e) = rel {
                result = Err(e);
            }
            m -= 1;
        }
        self.previous = [false; 2];
        proof {
            assert(self.previous@ =~= seq![false, false]);
            if result is Ok {
                if self.owned@.len() > 0 {
                    assert(self.owned@.contains(self.owned@[0]));
                }
            }
        }
        proof {
            lemma_release_plain(start.reverse(), self.calls@, n0);
            assert(self.calls@.skip(n0) =~= release_calls(start.reverse(), seq![], self.calls@, n0, false));
            lemma_release_requests(start.reverse(), self.calls@, n0);
            assert(self.calls@ =~= c0 + self.calls@.skip(n0));
            lemma_sends_ok_taken(self.calls@, n0);
            assert(start.take(0) =~= Seq::<InputCode>::empty());
        }
        result
    }

    /// Ownership facts shared by every step of a binding.
    proof fn lemma_remove_keeps(s: Seq<InputCode>, k: int, c: InputCode)
        requires
            0 <= k < s.len(),
            s.contains(c),
            c != s[k],
        ensures
            s.remove(k).contains(c),
    {
        let j = choose|j: int| 0 <= j < s.len() && s[j] == c;
        s.remove_ensures(k);
        if j < k {
            assert(s.remove(k)[j] == c);
        } else {
            assert(s.remove(k)[j - 1] == c);
        }
    }

    /// Press each key in order, then release the ones pressed here in reverse order.
    /// A partial chord is always unwound; a failed release stays owned for shutdown retry.
    fn tap<S: InputSink>(&mut self, input: &mut S, keys: &Vec<InputCode>) -> (r: Result<(), String>)
        requires
            old(self).wf(),
        ensures
            final(self).wf(),
            final(self).actions() == old(self).actions(),
            final(self).previous() == old(self).previous(),
            final(self).sent().len() >= old(self).sent().len(),
            final(self).sent().take(old(self).sent().len() as int) == old(self).sent(),
            owned_step(old(self).owned(), final(self).sent().skip(old(self).sent().len() as int), final(self).owned()),
            r is Ok ==> final(self).owned() == old(self).owned(),
            extends(old(self).calls(), final(self).calls()),
            tapped(
                old(self).owned(),
                keys@,
                final(self).calls(),
                old(self).calls().len() as int,
                final(self).sent(),
                old(self).sent().len() as int,
                outcome_text(r),
            ),
            final(self).calls() == old(self).calls() + tap_calls(
                old(self).owned().to_set(),
                keys@,
                final(self).calls(),
                old(self).calls().len() as int,
            ),
            forall|c: InputCode| #[trigger] final(self).owned().contains(c) <==> old(self).owned().contains(c)
                || release_refused(final(self).calls().skip(old(self).calls().len() as int), c),
            sink_follows(old(input).events(), final(input).events(), final(self).calls(), old(self).calls().len() as int),
    {
        let ghost e0 = input.events();
        let ghost start_log = self.sent@;
        let ghost start = self.owned@;
        let ghost c0 = self.calls@;
        let ghost n0 = c0.len() as int;
        let ghost s0 = start_log.len() as int;
        let mut pressed: Vec<InputCode> = Vec::new();
        let mut result: Result<(), String> = Ok(());
        let mut i: usize = 0;
        proof {
            assert(self.sent@.skip(start_log.len() as int) =~= seq![]);
            assert(self.sent@.take(start_log.len() as int) =~= start_log);
            assert(self.calls@.take(n0) =~= c0);
            assert(keys@.take(keys@.len() as int) =~= keys@);
            lemma_sink_idle(e0, c0);
        }
        while i < keys.len()
            invariant_except_break
                result is Ok,
                self.calls@ == c0 + press_calls(start.to_set(), keys@.take(i as int), self.calls@, n0).0,
                press_calls(start.to_set(), keys@.take(i as int), self.calls@, n0).2 == pressed@,
                press_calls(start.to_set(), keys@.take(i as int), self.calls@, n0).1 == self.owned@.to_set(),
                !refused_last(press_calls(start.to_set(), keys@.take(i as int), self.calls@, n0).0),
            invariant
                i <= keys@.len(),
                self.wf(),
                self.actions() == old(self).actions(),
                self.previous() == old(self).previous(),
                self.sent@.len() >= start_log.len(),
                self.sent@.take(start_log.len() as int) == start_log,
                start_log == old(self).sent(),
                start == old(self).owned(),
                owned_step(start, self.sent@.skip(start_log.len() as int), self.owned@),
                self.owned@ == start + pressed@,
                c0 == old(self).calls(),
                n0 == c0.len(),
                s0 == start_log.len(),
                extends(c0, self.calls@),
                result is Ok <==> sends_ok_from(self.calls@, n0),
                result matches Err(e) ==> failed_last_from(self.calls@, n0, e@),
                forall|q: int| 0 <= q < pressed@.len() ==> logged(self.sent@, s0, (#[trigger] pressed@[q], false)),
                result is Ok ==> forall|x: int|
                    0 <= x < i ==> start.contains(#[trigger] keys@[x]) || held_from(self.calls@, n0, keys@[x])
                        || pressed@.contains(keys@[x]),
                keys@.take(keys@.len() as int) == keys@,
                e0 == old(input).events(),
                sink_follows(e0, input.events(), self.calls@, n0),
            ensures
                result is Ok ==> i == keys@.len(),
                self.calls@ == c0 + press_calls(start.to_set(), keys@, self.calls@, n0).0,
                press_calls(start.to_set(), keys@, self.calls@, n0).2 == pressed@,
            decreases keys@.len() - i,
        {
            let ghost log0 = self.sent@;
            let ghost own0 = self.owned@;
            let ghost calls0 = self.calls@;
            let ghost pressed0 = pressed@;
            let key = keys[i];
            let ghost ev0 = input.events();
            let pr = self.press(input, key);
            proof {
                lemma_sink_chain(e0, ev0, input.events(), c0, calls0, self.calls@);
                let ki = keys@.take(i as int);
                assert(keys@.take(i + 1).drop_last() =~= ki);
                assert(keys@.take(i + 1).last() == key);
                lemma_extends_agree(calls0, self.calls@, n0, calls0.len() as int);
                lemma_press_calls_agree(start.to_set(), ki, calls0, self.calls@, n0);
                let seg = press_call(own0.to_set(), key, self.calls@, calls0.len() as int);
                let prev = press_calls(start.to_set(), ki, self.calls@, n0);
                assert(prev == press_calls(start.to_set(), ki, calls0, n0));
                assert(!refused_last(prev.0));
                assert(prev.1 == own0.to_set());
                assert(calls0.len() == n0 + prev.0.len());
                assert(self.calls@ == calls0 + seg);
                assert(press_calls(start.to_set(), keys@.take(i + 1), self.calls@, n0).0 == prev.0 + seg);
                assert(self.calls@ =~= c0 + press_calls(start.to_set(), keys@.take(i + 1), self.calls@, n0).0);
                if pr == Ok::<bool, String>(true) {
                    lemma_push_to_set(own0, key);
                } else {
                    assert(self.owned@.to_set() =~= own0.to_set());
                }
                if pr is Err {
                    assert(self.calls@.skip(calls0.len() as int) =~= seg);
                    assert(refused_last(press_calls(start.to_set(), keys@.take(i + 1), self.calls@, n0).0));
                    lemma_press_stopped(start.to_set(), keys@, self.calls@, n0, i + 1);
                }
                lemma_pressed_facts(own0, key, calls0, self.calls@, press_text(pr));
                lemma_ok_split(calls0, self.calls@, n0);
                lemma_extends_trans(c0, calls0, self.calls@);
                lemma_step_extend(start_log, log0, self.sent@, start, own0, self.owned@);
                assert(extends(log0, self.sent@)) by {
                    if pr == Ok::<bool, String>(true) {
                        assert(self.sent@.take(log0.len() as int) =~= log0);
                    } else {
                        assert(self.sent@.take(log0.len() as int) =~= log0);
                    }
                }
                assert forall|q: int| 0 <= q < pressed0.len() implies logged(self.sent@, s0, (#[trigger] pressed0[q], false)) by {
                    lemma_logged_grows(log0, self.sent@, s0, (pressed0[q], false));
                }
            }
            match pr {
                Ok(true) => {
                    pressed.push(key);
                    proof {
                        assert(press_calls(start.to_set(), keys@.take(i + 1), self.calls@, n0).2 =~= pressed@);
                        assert(self.sent@[log0.len() as int] == (key, false));
                        assert(logged(self.sent@, s0, (key, false)));
                        assert forall|q: int| 0 <= q < pressed@.len() implies logged(self.sent@, s0, (#[trigger] pressed@[q], false)) by {
                            if q < pressed0.len() {
                                assert(pressed@[q] == pressed0[q]);
                            }
                        }
                    }
                },
                Ok(false) => {},
                Err(e) => {
                    result = Err(e);
                    proof {
                        lemma_from_earlier(self.calls@, n0, calls0.len() as int, e@, key);
                    }
                    break;
                },
            }
            proof {
                assert(self.owned@ =~= start + pressed@);
                assert forall|x: int| 0 <= x < i + 1 implies start.contains(#[trigger] keys@[x]) || held_from(self.calls@, n0, keys@[x])
                    || pressed@.contains(keys@[x]) by {
                    if x < i {
                        if held_from(calls0, n0, keys@[x]) {
                            lemma_held_grows(calls0, self.calls@, n0, keys@[x]);
                        } else if pressed0.contains(keys@[x]) {
                            let q = choose|q: int| 0 <= q < pressed0.len() && pressed0[q] == keys@[x];
                            assert(pressed@[q] == pressed0[q]);
                        }
                    } else {
                        if pr == Ok::<bool, String>(true) {
                            assert(pressed@[pressed0.len() as int] == key);
                        } else if own0.contains(key) {
                            let q = choose|q: int| 0 <= q < own0.len() && own0[q] == key;
                            if q < start.len() {
                                assert(start[q] == key);
                            } else {
                                assert(pressed@[q - start.len()] == key);
                            }
                        } else {
                            lemma_from_earlier(self.calls@, n0, calls0.len() as int, seq![], key);
                        }
                    }
                }
            }
            i += 1;
        }
        proof {
            if result is Ok {
                assert(keys@.take(keys@.len() as int) =~= keys@);
            }
        }
        let ghost mid_calls = self.calls@;
        let ghost mid = mid_calls.len() as int;
        let ghost p = pressed@;
        let ghost pc = press_calls(start.to_set(), keys@, mid_calls, n0).0;
        let mut m = pressed.len();
        proof {
            assert(mid_calls.take(mid) =~= mid_calls);
            assert(mid_calls.skip(mid) =~= Seq::<Call>::empty());
            assert(p.take(p.len() as int) =~= p);
            assert forall|c: InputCode| #[trigger] self.owned@.contains(c) implies start.contains(c) || p.take(
                p.len() as int,
            ).contains(c) || release_refused(self.calls@.skip(mid), c) by {
                let q = choose|q: int| 0 <= q < self.owned@.len() && self.owned@[q] == c;
                if q >= start.len() {
                    assert(p[q - start.len()] == c);
                } else {
                    assert(start[q] == c);
                }
            }
            assert forall|c: InputCode| start.contains(c) || p.take(p.len() as int).contains(c) || release_refused(
                self.calls@.skip(mid),
                c,
            ) implies #[trigger] self.owned@.contains(c) by {
                if start.contains(c) {
                    let q = choose|q: int| 0 <= q < start.len() && start[q] == c;
                    assert(self.owned@[q] == c);
                } else if p.contains(c) {
                    let q = choose|q: int| 0 <= q < p.len() && p[q] == c;
                    assert(self.owned@[start.len() + q] == c);
                }
            }
        }
        proof {
            assert forall|k: int| 0 <= k < m implies self.owned@.contains(#[trigger] pressed@[k]) by {
                assert(self.owned@[start.len() + k] == pressed@[k]);
            }
        }
        while m > 0
            invariant
                m <= pressed@.len(),
                self.wf(),
                self.actions() == old(self).actions(),
                self.previous() == old(self).previous(),
                self.sent@.len() >= start_log.len(),
                self.sent@.take(start_log.len() as int) == start_log,
                start_log == old(self).sent(),
                start == old(self).owned(),
                owned_step(start, self.sent@.skip(start_log.len() as int), self.owned@),
                forall|k: int| 0 <= k < m ==> self.owned@.contains(#[trigger] pressed@[k]),
                no_duplicates(start + pressed@),
                result is Ok ==> self.owned@ == start + pressed@.take(m as int),
                c0 == old(self).calls(),
                n0 == c0.len(),
                s0 == start_log.len(),
                extends(c0, self.calls@),
                result is Ok <==> sends_ok_from(self.calls@, n0),
                result matches Err(e) ==> failed_last_from(self.calls@, n0, e@),
                forall|q: int| 0 <= q < pressed@.len() ==> logged(self.sent@, s0, (#[trigger] pressed@[q], false)),
                result is Ok ==> forall|q: int| m <= q < pressed@.len() ==> logged(self.sent@, s0, (#[trigger] pressed@[q], true)),
                result is Ok ==> forall|x: int|
                    0 <= x < keys@.len() ==> start.contains(#[trigger] keys@[x]) || held_from(self.calls@, n0, keys@[x])
                        || pressed@.contains(keys@[x]),
                p == pressed@,
                mid == mid_calls.len(),
                extends(mid_calls, self.calls@),
                self.calls@.len() == mid + (p.len() - m),
                forall|q: int|
                    0 <= q < p.len() - m ==> (#[trigger] self.calls@[mid + q]) is Send && self.calls@[mid + q]->code == p[p.len()
                        - 1 - q] && self.calls@[mid + q]->up,
                forall|c: InputCode| #[trigger] self.owned@.contains(c) <==> start.contains(c) || p.take(m as int).contains(c)
                    || release_refused(self.calls@.skip(mid), c),
                e0 == old(input).events(),
                sink_follows(e0, input.events(), self.calls@, n0),
            decreases m,
        {
            let key = pressed[m - 1];
            let ghost log0 = self.sent@;
            let ghost own0 = self.owned@;
            let ghost calls0 = self.calls@;
            let ghost ev0 = input.events();
            let rel = self.release(input, key);
            proof {
                lemma_released_facts(key, calls0, self.calls@, outcome_text(rel));
                lemma_sink_chain(e0, ev0, input.events(), c0, calls0, self.calls@);
                lemma_extends_trans(mid_calls, calls0, self.calls@);
                assert forall|q: int| 0 <= q < p.len() - (m - 1) implies (#[trigger] self.calls@[mid + q]) is Send
                    && self.calls@[mid + q]->code == p[p.len() - 1 - q] && self.calls@[mid + q]->up by {
                    if q < p.len() - m {
                        assert(self.calls@[mid + q] == calls0[mid + q]);
                    }
                }
                assert(self.calls@.skip(mid) =~= calls0.skip(mid).push(
                    Call::Send { code: key, up: true, outcome: outcome_text(rel) },
                ));
                assert forall|q: int| 0 <= q < calls0.skip(mid).len() implies (#[trigger] calls0.skip(mid)[q]) is Send
                    && calls0.skip(mid)[q]->code == p[p.len() - 1 - q] by {
                    assert(calls0.skip(mid)[q] == calls0[mid + q]);
                }
                lemma_unwind_owned(start, p, m as int, own0, self.owned@, calls0.skip(mid), self.calls@.skip(mid), outcome_text(rel));
                lemma_step_extend(start_log, log0, self.sent@, start, own0, self.owned@);
                lemma_released_facts(key, calls0, self.calls@, outcome_text(rel));
                lemma_ok_split(calls0, self.calls@, n0);
                lemma_extends_trans(c0, calls0, self.calls@);
                assert(extends(log0, self.sent@)) by {
                    assert(self.sent@.take(log0.len() as int) =~= log0);
                }
                assert forall|q: int| 0 <= q < pressed@.len() implies logged(self.sent@, s0, (#[trigger] pressed@[q], false)) by {
                    lemma_logged_grows(log0, self.sent@, s0, (pressed@[q], false));
                }
                if rel is Ok {
                    if result is Ok {
                        assert(self.sent@[log0.len() as int] == (key, true));
                        assert forall|q: int| m - 1 <= q < pressed@.len() implies logged(self.sent@, s0, (#[trigger] pressed@[q], true)) by {
                            if q >= m {
                                lemma_logged_grows(log0, self.sent@, s0, (pressed@[q], true));
                            }
                        }
                        assert forall|x: int| 0 <= x < keys@.len() implies start.contains(#[trigger] keys@[x]) || held_from(self.calls@, n0, keys@[x])
                            || pressed@.contains(keys@[x]) by {
                            if held_from(calls0, n0, keys@[x]) {
                                lemma_held_grows(calls0, self.calls@, n0, keys@[x]);
                            }
                        }
                    } else {
                        lemma_failed_grows(calls0, self.calls@, n0, outcome_text(result)->Err_0);
                    }
                } else {
                    lemma_from_earlier(self.calls@, n0, calls0.len() as int, outcome_text(rel)->Err_0, key);
                }
                assert(forall|x: int, y: int| 0 <= x < y < pressed@.len() ==> pressed@[x] != pressed@[y]) by {
                    assert forall|x: int, y: int| 0 <= x < y < pressed@.len() implies pressed@[x] != pressed@[y] by {
                        assert((start + pressed@)[start.len() + x] == pressed@[x]);
                        assert((start + pressed@)[start.len() + y] == pressed@[y]);
                    }
                }
                if rel is Ok {
                    let k = choose|k: int| 0 <= k < own0.len() && own0[k] == key && self.owned@ == own0.remove(k);
                    assert forall|q: int| 0 <= q < m - 1 implies self.owned@.contains(#[trigger] pressed@[q]) by {
                        Self::lemma_remove_keeps(own0, k, pressed@[q]);
                    }
                    if result is Ok {
                        let t = start + pressed@.take(m as int);
                        assert(own0 == t);
                        assert(t[t.len() - 1] == key);
                        assert(k == t.len() - 1) by {
                            if k != t.len() - 1 {
                                assert(no_duplicates(start + pressed@));
                                assert(t[k] == (start + pressed@)[k]);
                                assert(t[t.len() - 1] == (start + pressed@)[t.len() - 1]);
                            }
                        }
                        assert(self.owned@ =~= start + pressed@.take(m as int - 1));
                    }
                }
            }
            if let Err(e) = rel {
                result = Err(e);
            }
            m -= 1;
        }
        proof {
            lemma_extends_agree(mid_calls, self.calls@, n0, mid);
            lemma_press_calls_agree(start.to_set(), keys@, mid_calls, self.calls@, n0);
            lemma_release_plain(p.reverse(), self.calls@, mid);
            assert(self.calls@.skip(mid) =~= release_calls(p.reverse(), seq![], self.calls@, mid, false));
            assert(self.calls@ =~= c0 + tap_calls(start.to_set(), keys@, self.calls@, n0));
            assert(self.calls@.skip(n0) =~= pc + self.calls@.skip(mid));
            lemma_press_calls_presses(start.to_set(), keys@, mid_calls, n0);
            assert forall|c: InputCode| #[trigger] self.owned@.contains(c) <==> start.contains(c) || release_refused(
                self.calls@.skip(n0),
                c,
            ) by {
                lemma_refused_after_presses(pc, self.calls@.skip(mid), c);
                assert(p.take(0) =~= Seq::<InputCode>::empty());
            }
            if result is Ok {
                assert(start + pressed@.take(0) =~= start);
                assert forall|k: InputCode| #[trigger] keys@.contains(k) implies start.contains(k) || held_from(self.calls@, n0, k)
                    || (logged(self.sent@, s0, (k, false)) && logged(self.sent@, s0, (k, true))) by {
                    let x = choose|x: int| 0 <= x < keys@.len() && keys@[x] == k;
                    if !start.contains(k) && !held_from(self.calls@, n0, k) {
                        assert(pressed@.contains(keys@[x]));
                        let q = choose|q: int| 0 <= q < pressed@.len() && pressed@[q] == k;
                        assert(logged(self.sent@, s0, (pressed@[q], false)));
                        assert(logged(self.sent@, s0, (pressed@[q], true)));
                    }
                }
            }
        }
        result
    }
}

/// What a press shows of the sink's answers, over the whole log.
proof fn lemma_pressed_facts(owned: Seq<InputCode>, code: InputCode, before: Seq<Call>, after: Seq<Call>, r: Result<bool, Seq<char>>)
    requires
        extends(before, after),
        pressed_as(owned, code, after.skip(before.len() as int), r),
    ensures
        r is Ok <==> sends_ok_from(after, before.len() as int),
        r matches Err(e) ==> failed_last_from(after, before.len() as int, e),
        (r == Ok::<bool, Seq<char>>(false) && !owned.contains(code)) ==> held_from(after, before.len() as int, code),
{
    let n = before.len() as int;
    let t = after.skip(n);
    assert forall|i: int| 0 <= i < t.len() implies after[n + i] == t[i] by {}
    if owned.contains(code) {
        assert(after.len() == n);
    } else if t.len() == 1 {
        assert(after[n] == t[0]);
        assert(!(after[n] is Send));
    } else {
        assert(after[n] == t[0]);
        assert(after[n + 1] == t[1]);
        if t[1]->outcome is Ok {
            assert forall|i: int| n <= i < after.len() && (#[trigger] after[i]) is Send implies after[i]->outcome is Ok by {
                assert(i == n || i == n + 1);
            }

        } else {
            lemma_refused_last(after, n, t[1]->outcome->Err_0);
        }
    }
}

/// A taken injection keeps the sink's record clean.
proof fn lemma_released_ok_shape(before: Seq<Call>, after: Seq<Call>, code: InputCode, up: bool)
    requires
        after == before.push(Call::Send { code, up, outcome: Ok::<(), Seq<char>>(()) }),
    ensures
        extends(before, after),
        sends_ok_from(after, before.len() as int),
{
    assert(after.take(before.len() as int) =~= before);
    assert forall|i: int| before.len() <= i < after.len() && (#[trigger] after[i]) is Send implies after[i]->outcome is Ok by {
        assert(i == before.len());
    }
}

/// What a release shows of the sink's answer, over the whole log.
proof fn lemma_released_facts(code: InputCode, before: Seq<Call>, after: Seq<Call>, r: Result<(), Seq<char>>)
    requires
        after == before.push(Call::Send { code, up: true, outcome: r }),
    ensures
        extends(before, after),
        r is Ok <==> sends_ok_from(after, before.len() as int),
        r matches Err(e) ==> failed_last_from(after, before.len() as int, e),
{
    assert(after.take(before.len() as int) =~= before);
    let n = before.len() as int;
    if r is Ok {
        assert forall|i: int| n <= i < after.len() && (#[trigger] after[i]) is Send implies after[i]->outcome is Ok by {
            assert(i == n);
        }
    } else {
        lemma_refused_last(after, n, r->Err_0);
    }
}

/// A step of the accepted events and ownership extends an earlier step from the same start.
proof fn lemma_step_extend(
    start_log: Seq<(InputCode, bool)>,
    mid_log: Seq<(InputCode, bool)>,
    end_log: Seq<(InputCode, bool)>,
    start: Seq<InputCode>,
    mid: Seq<InputCode>,
    end: Seq<InputCode>,
)
    requires
        mid_log.len() >= start_log.len(),
        mid_log.take(start_log.len() as int) == start_log,
        owned_step(start, mid_log.skip(start_log.len() as int), mid),
        end_log.len() >= mid_log.len(),
        end_log.take(mid_log.len() as int) == mid_log,
        owned_step(mid, end_log.skip(mid_log.len() as int), end),
    ensures
        end_log.len() >= start_log.len(),
        end_log.take(start_log.len() as int) == start_log,
        owned_step(start, end_log.skip(start_log.len() as int), end),
{
    let e1 = mid_log.skip(start_log.len() as int);
    let e2 = end_log.skip(mid_log.len() as int);
    lemma_owned_step_compose(start, e1, mid, e2, end);
    assert(end_log.skip(start_log.len() as int) =~= e1 + e2);
    assert(end_log.take(start_log.len() as int) =~= mid_log.take(start_log.len() as int));
}


/// An event seen from a later position was seen from an earlier one too.
proof fn lemma_logged_from_earlier(log: Seq<(InputCode, bool)>, f: int, g: int, x: (InputCode, bool))
    requires
        0 <= f <= g,
        logged(log, g, x),
    ensures
        logged(log, f, x),
{
    let i = choose|i: int| g <= i < log.len() && #[trigger] log[i] == x;
    assert(log[i] == x);
}

/// A done one-shot action stays done while the records grow.
proof fn lemma_fired_ok_grows(
    action: Seq<char>,
    owned: Seq<InputCode>,
    c1: Seq<Call>,
    c2: Seq<Call>,
    n0: int,
    s1: Seq<(InputCode, bool)>,
    s2: Seq<(InputCode, bool)>,
    s0: int,
)
    requires
        0 <= n0,
        0 <= s0,
        extends(c1, c2),
        extends(s1, s2),
        fired_ok(action, owned, c1, n0, s1, s0),
    ensures
        fired_ok(action, owned, c2, n0, s2, s0),
{
    match spec_action_shortcut(action) {
        Some(chord) => {
            if let Some(keys) = spec_shortcut(chord) {
                assert forall|k: InputCode| #[trigger] key_inputs(keys).contains(k) implies owned.contains(k) || held_from(
                    c2,
                    n0,
                    k,
                ) || (logged(s2, s0, (k, false)) && logged(s2, s0, (k, true))) by {
                    if held_from(c1, n0, k) {
                        lemma_held_grows(c1, c2, n0, k);
                    }
                    if logged(s1, s0, (k, false)) && logged(s1, s0, (k, true)) {
                        lemma_logged_grows(s1, s2, s0, (k, false));
                        lemma_logged_grows(s1, s2, s0, (k, true));
                    }
                }
            }
        },
        None => {
            if action == "Double click"@ {
                if held_from(c1, n0, LEFT) {
                    lemma_held_grows(c1, c2, n0, LEFT);
                }
                if logged(s1, s0, (LEFT, false)) && logged(s1, s0, (LEFT, true)) {
                    lemma_logged_grows(s1, s2, s0, (LEFT, false));
                    lemma_logged_grows(s1, s2, s0, (LEFT, true));
                }
            }
        },
    }
}

/// What a one-shot action shows, over the records from an earlier position.
proof fn lemma_fired_facts(
    action: Seq<char>,
    owned: Seq<InputCode>,
    before_calls: Seq<Call>,
    calls: Seq<Call>,
    n0: int,
    before_sent: Seq<(InputCode, bool)>,
    sent: Seq<(InputCode, bool)>,
    s0: int,
    r: Result<(), Seq<char>>,
)
    requires
        0 <= n0 <= before_calls.len(),
        0 <= s0 <= before_sent.len(),
        extends(before_calls, calls),
        extends(before_sent, sent),
        sends_ok_from(before_calls, n0),
        fired(action, owned, calls, before_calls.len() as int, sent, before_sent.len() as int, r),
    ensures
        r is Ok <==> sends_ok_from(calls, n0) && chord_parses(action),
        r matches Err(e) ==> failed_last_from(calls, n0, e) || (e == shortcut_error() && sends_ok_from(calls, n0)),
        r is Ok ==> fired_ok(action, owned, calls, n0, sent, s0),
{
    let cf = before_calls.len() as int;
    let sf = before_sent.len() as int;
    lemma_ok_split(before_calls, calls, n0);
    if r is Err {
        lemma_from_earlier(calls, n0, cf, r->Err_0, LEFT);
    }
    if calls.len() == cf {
        assert(calls =~= before_calls) by {
            assert(calls.take(cf) =~= calls);
        }
    }
    match spec_action_shortcut(action) {
        Some(chord) => {
            if let Some(keys) = spec_shortcut(chord) {
                if r is Ok {
                    assert forall|k: InputCode| #[trigger] key_inputs(keys).contains(k) implies owned.contains(k)
                        || held_from(calls, n0, k) || (logged(sent, s0, (k, false)) && logged(sent, s0, (k, true))) by {
                        lemma_from_earlier(calls, n0, cf, seq![], k);
                        if logged(sent, sf, (k, false)) && logged(sent, sf, (k, true)) {
                            lemma_logged_from_earlier(sent, s0, sf, (k, false));
                            lemma_logged_from_earlier(sent, s0, sf, (k, true));
                        }
                    }
                }
            }
        },
        None => {
            if action == "Double click"@ {
                if r is Ok {
                    lemma_from_earlier(calls, n0, cf, seq![], LEFT);
                    if !owned.contains(LEFT) && !held_from(calls, cf, LEFT) {
                        let t = sent.skip(sf);
                        assert(t.len() == 4);
                        assert(sent.len() == sf + 4);
                        assert(t[0] == sent[sf]);
                        assert(t[1] == sent[sf + 1]);
                        assert(sent[sf] == (LEFT, false));
                        assert(sent[sf + 1] == (LEFT, true));
                        assert(logged(sent, s0, (LEFT, false)));
                        assert(logged(sent, s0, (LEFT, true)));
                    }
                }
            }
        },
    }
}


/// Once a release is refused, later codes add no calls.
proof fn lemma_release_stopped(codes: Seq<InputCode>, keep: Seq<InputCode>, t: Seq<Call>, at: int, i: int)
    requires
        0 <= i <= codes.len(),
        refused_last(release_calls(codes.take(i), keep, t, at, true)),
    ensures
        release_calls(codes, keep, t, at, true) == release_calls(codes.take(i), keep, t, at, true),
    decreases codes.len(),
{
    if codes.len() > i {
        assert(codes.drop_last().take(i) =~= codes.take(i));
        lemma_release_stopped(codes.drop_last(), keep, t, at, i);
    } else {
        assert(codes.take(i) =~= codes);
    }
}

/// Once a press is refused, later codes add no calls.
proof fn lemma_press_stopped(held: Set<InputCode>, codes: Seq<InputCode>, t: Seq<Call>, at: int, i: int)
    requires
        0 <= i <= codes.len(),
        refused_last(press_calls(held, codes.take(i), t, at).0),
    ensures
        press_calls(held, codes, t, at) == press_calls(held, codes.take(i), t, at),
    decreases codes.len(),
{
    if codes.len() > i {
        assert(codes.drop_last().take(i) =~= codes.take(i));
        lemma_press_stopped(held, codes.drop_last(), t, at, i);
    } else {
        assert(codes.take(i) =~= codes);
    }
}


/// One more click injection extends the clicks so far.
proof fn lemma_click_step(before: Seq<Call>, after: Seq<Call>, at: int, k: nat, out: Result<(), Seq<char>>)
    requires
        0 <= at,
        before.len() == at + click_calls(before, at, k).len(),
        !refused_last(click_calls(before, at, k)),
        after == before.push(Call::Send { code: LEFT, up: k % 2 == 1, outcome: out }),
    ensures
        click_calls(after, at, k + 1) == click_calls(before, at, k).push(
            Call::Send { code: LEFT, up: k % 2 == 1, outcome: out },
        ),
{
    assert(after.take(before.len() as int) =~= before);
    lemma_extends_agree(before, after, at, before.len() as int);
    lemma_click_calls_agree(before, after, at, k);
    assert(after[before.len() as int] == Call::Send { code: LEFT, up: k % 2 == 1, outcome: out });
}

/// Once a click is refused, no more follow.
proof fn lemma_click_stopped(t: Seq<Call>, at: int, i: nat, n: nat)
    requires
        i <= n,
        refused_last(click_calls(t, at, i)),
    ensures
        click_calls(t, at, n) == click_calls(t, at, i),
    decreases n,
{
    if n > i {
        lemma_click_stopped(t, at, i, (n - 1) as nat);
    }
}


/// Releases of `codes` with nothing skipped and no stop: one release per code, in order.
proof fn lemma_release_plain(codes: Seq<InputCode>, t: Seq<Call>, at: int)
    ensures
        release_calls(codes, seq![], t, at, false).len() == codes.len(),
        forall|q: int|
            0 <= q < codes.len() ==> #[trigger] release_calls(codes, seq![], t, at, false)[q] == (Call::Send {
                code: codes[q],
                up: true,
                outcome: t[at + q]->outcome,
            }),
    decreases codes.len(),
{
    if codes.len() > 0 {
        lemma_release_plain(codes.drop_last(), t, at);
        assert(!Seq::<InputCode>::empty().contains(codes.last()));
    }
}

/// Pressing injects only presses.
proof fn lemma_press_calls_presses(held: Set<InputCode>, codes: Seq<InputCode>, t: Seq<Call>, at: int)
    ensures
        forall|q: int|
            0 <= q < press_calls(held, codes, t, at).0.len() && (#[trigger] press_calls(held, codes, t, at).0[q]) is Send
                ==> !press_calls(held, codes, t, at).0[q]->up,
    decreases codes.len(),
{
    if codes.len() > 0 {
        lemma_press_calls_presses(held, codes.drop_last(), t, at);
    }
}

/// Releases refused after presses are those refused among the releases.
proof fn lemma_refused_after_presses(pc: Seq<Call>, rc: Seq<Call>, c: InputCode)
    requires
        forall|q: int| 0 <= q < pc.len() && (#[trigger] pc[q]) is Send ==> !pc[q]->up,
    ensures
        release_refused(pc + rc, c) <==> release_refused(rc, c),
{
    let s = pc + rc;
    if release_refused(s, c) {
        let i = choose|i: int|
            0 <= i < s.len() && (#[trigger] s[i]) is Send && s[i]->code == c && s[i]->up && s[i]->outcome is Err;
        if i < pc.len() {
            assert(s[i] == pc[i]);
        } else {
            assert(s[i] == rc[i - pc.len()]);
        }
    }
    if release_refused(rc, c) {
        let i = choose|i: int|
            0 <= i < rc.len() && (#[trigger] rc[i]) is Send && rc[i]->code == c && rc[i]->up && rc[i]->outcome is Err;
        assert(s[i + pc.len()] == rc[i]);
    }
}

/// Unwinding the pressed inputs `p` from the newest: after releasing `p[m - 1]`, an input
/// is held exactly when it was held at the start, is still to be released, or had its
/// release refused.
proof fn lemma_unwind_owned(
    start: Seq<InputCode>,
    p: Seq<InputCode>,
    m: int,
    own0: Seq<InputCode>,
    own1: Seq<InputCode>,
    rc0: Seq<Call>,
    rc1: Seq<Call>,
    out: Result<(), Seq<char>>,
)
    requires
        1 <= m <= p.len(),
        no_duplicates(start + p),
        rc0.len() == p.len() - m,
        forall|q: int| 0 <= q < rc0.len() ==> (#[trigger] rc0[q]) is Send && rc0[q]->code == p[p.len() - 1 - q],
        rc1 == rc0.push(Call::Send { code: p[m - 1], up: true, outcome: out }),
        forall|c: InputCode| #[trigger] own0.contains(c) <==> start.contains(c) || p.take(m).contains(c) || release_refused(rc0, c),
        no_duplicates(own0),
        out is Ok ==> exists|k: int| 0 <= k < own0.len() && own0[k] == p[m - 1] && own1 == own0.remove(k),
        out is Err ==> own1 == own0,
    ensures
        forall|c: InputCode| #[trigger] own1.contains(c) <==> start.contains(c) || p.take(m - 1).contains(c)
            || release_refused(rc1, c),
{
    let key = p[m - 1];
    let sp = start + p;
    assert(sp[start.len() + m - 1] == key);
    assert(!start.contains(key)) by {
        if start.contains(key) {
            let q = choose|q: int| 0 <= q < start.len() && start[q] == key;
            assert(sp[q] == key);
        }
    }
    assert(!p.take(m - 1).contains(key)) by {
        if p.take(m - 1).contains(key) {
            let q = choose|q: int| 0 <= q < m - 1 && #[trigger] p.take(m - 1)[q] == key;
            assert(sp[start.len() + q] == key);
        }
    }
    assert(!release_refused(rc0, key)) by {
        if release_refused(rc0, key) {
            let i = choose|i: int|
                0 <= i < rc0.len() && (#[trigger] rc0[i]) is Send && rc0[i]->code == key && rc0[i]->up && rc0[i]->outcome is Err;
            assert(sp[start.len() + p.len() - 1 - i] == key);
        }
    }
    assert forall|c: InputCode| release_refused(rc1, c) <==> release_refused(rc0, c) || (c == key && out is Err) by {
        if release_refused(rc1, c) {
            let i = choose|i: int|
                0 <= i < rc1.len() && (#[trigger] rc1[i]) is Send && rc1[i]->code == c && rc1[i]->up && rc1[i]->outcome is Err;
            if i < rc0.len() {
                assert(rc1[i] == rc0[i]);
            }
        }
        if release_refused(rc0, c) {
            let i = choose|i: int|
                0 <= i < rc0.len() && (#[trigger] rc0[i]) is Send && rc0[i]->code == c && rc0[i]->up && rc0[i]->outcome is Err;
            assert(rc1[i] == rc0[i]);
        }
        if c == key && out is Err {
            assert(rc1[rc0.len() as int] is Send);
        }
    }
    assert forall|c: InputCode| p.take(m).contains(c) <==> p.take(m - 1).contains(c) || c == key by {
        if p.take(m).contains(c) {
            let q = choose|q: int| 0 <= q < m && #[trigger] p.take(m)[q] == c;
            if q < m - 1 {
                assert(p.take(m - 1)[q] == c);
            }
        }
        if p.take(m - 1).contains(c) {
            let q = choose|q: int| 0 <= q < m - 1 && #[trigger] p.take(m - 1)[q] == c;
            assert(p.take(m)[q] == c);
        }
        if c == key {
            assert(p.take(m)[m - 1] == c);
        }
    }
    if out is Ok {
        let k = choose|k: int| 0 <= k < own0.len() && own0[k] == key && own1 == own0.remove(k);
        assert forall|c: InputCode| #[trigger] own1.contains(c) <==> own0.contains(c) && c != key by {
            own0.remove_ensures(k);
            if own1.contains(c) {
                let q = choose|q: int| 0 <= q < own1.len() && own1[q] == c;
                let orig = if q < k { q } else { q + 1 };
                assert(own0[orig] == c);
                assert(orig != k);
            }
            if own0.contains(c) && c != key {
                let q = choose|q: int| 0 <= q < own0.len() && own0[q] == c;
                if q < k {
                    assert(own1[q] == c);
                } else {
                    assert(own1[q - 1] == c);
                }
            }
        }
    }
}


/// The inputs of a sequence with one more pushed.
proof fn lemma_push_to_set(s: Seq<InputCode>, x: InputCode)
    ensures
        s.push(x).to_set() == s.to_set().insert(x),
{
    assert forall|c: InputCode| s.push(x).contains(c) <==> s.contains(c) || c == x by {
        if s.push(x).contains(c) {
            let q = choose|q: int| 0 <= q < s.push(x).len() && s.push(x)[q] == c;
            if q < s.len() {
                assert(s[q] == c);
            }
        }
        if s.contains(c) {
            let q = choose|q: int| 0 <= q < s.len() && s[q] == c;
            assert(s.push(x)[q] == c);
        }
        if c == x {
            assert(s.push(x)[s.len() as int] == c);
        }
    }
    assert forall|c: InputCode| #[trigger] s.push(x).to_set().contains(c) <==> s.to_set().insert(x).contains(c) by {
        assert(s.push(x).contains(c) <==> s.contains(c) || c == x);
    }
    assert(s.push(x).to_set() =~= s.to_set().insert(x));
}


/// Taking every injection from a position on is taking every injection of the rest.
proof fn lemma_sends_ok_taken(t: Seq<Call>, at: int)
    requires
        0 <= at <= t.len(),
    ensures
        sends_ok_from(t, at) <==> all_taken(t.skip(at)),
{
    if sends_ok_from(t, at) {
        assert forall|i: int| 0 <= i < t.skip(at).len() && (#[trigger] t.skip(at)[i]) is Send implies t.skip(at)[i]->outcome is Ok by {
            assert(t.skip(at)[i] == t[at + i]);
        }
    }
    if all_taken(t.skip(at)) {
        assert forall|i: int| at <= i < t.len() && (#[trigger] t[i]) is Send implies t[i]->outcome is Ok by {
            assert(t.skip(at)[i - at] == t[i]);
        }
    }
}


/// A done one-shot action, seen from a later position, is done seen from an earlier one.
proof fn lemma_fired_ok_earlier(
    action: Seq<char>,
    owned: Seq<InputCode>,
    calls: Seq<Call>,
    n0: int,
    n1: int,
    sent: Seq<(InputCode, bool)>,
    s0: int,
    s1: int,
)
    requires
        0 <= n0 <= n1,
        0 <= s0 <= s1,
        fired_ok(action, owned, calls, n1, sent, s1),
    ensures
        fired_ok(action, owned, calls, n0, sent, s0),
{
    match spec_action_shortcut(action) {
        Some(chord) => {
            if let Some(keys) = spec_shortcut(chord) {
                assert forall|k: InputCode| #[trigger] key_inputs(keys).contains(k) implies owned.contains(k) || held_from(
                    calls,
                    n0,
                    k,
                ) || (logged(sent, s0, (k, false)) && logged(sent, s0, (k, true))) by {
                    lemma_from_earlier(calls, n0, n1, seq![], k);
                    if logged(sent, s1, (k, false)) && logged(sent, s1, (k, true)) {
                        lemma_logged_from_earlier(sent, s0, s1, (k, false));
                        lemma_logged_from_earlier(sent, s0, s1, (k, true));
                    }
                }
            }
        },
        None => {
            if action == "Double click"@ {
                lemma_from_earlier(calls, n0, n1, seq![], LEFT);
                if logged(sent, s1, (LEFT, false)) && logged(sent, s1, (LEFT, true)) {
                    lemma_logged_from_earlier(sent, s0, s1, (LEFT, false));
                    lemma_logged_from_earlier(sent, s0, s1, (LEFT, true));
                }
            }
        },
    }
}





proof fn lemma_split_none(s: Seq<char>)
    requires
        !s.contains('+'),
    ensures
        split_plus(s) == seq![s],
    decreases s.len(),
{
    if s.len() == 0 {
        assert(s =~= Seq::<char>::empty());
    } else {
        assert(!s.drop_last().contains('+')) by {
            if s.drop_last().contains('+') {
                let i = choose|i: int| 0 <= i < s.drop_last().len() && s.drop_last()[i] == '+';
                assert(s[i] == '+');
            }
        }
        lemma_split_none(s.drop_last());
        assert(s.last() != '+') by {
            assert(s[s.len() - 1] == s.last());
        }
        let r = split_plus(s.drop_last());
        assert(r.len() - 1 == 0);
        assert(r.last() == s.drop_last());
        assert(s.drop_last().push(s.last()) =~= s);
        assert(r.update(0, s.drop_last().push(s.last())) =~= seq![s]);
    }
}

proof fn lemma_split_two(a: Seq<char>, b: Seq<char>)
    requires
        !a.contains('+'),
        !b.contains('+'),
    ensures
        split_plus(a + seq!['+'] + b) == seq![a, b],
    decreases b.len(),
{
    let s = a + seq!['+'] + b;
    if b.len() == 0 {
        assert(s.drop_last() =~= a);
        lemma_split_none(a);
        assert(b =~= Seq::<char>::empty());
        assert(seq![a].push(seq![]) =~= seq![a, b]);
    } else {
        assert(s.drop_last() =~= a + seq!['+'] + b.drop_last());
        assert(!b.drop_last().contains('+')) by {
            if b.drop_last().contains('+') {
                let i = choose|i: int| 0 <= i < b.drop_last().len() && b.drop_last()[i] == '+';
                assert(b[i] == '+');
            }
        }
        lemma_split_two(a, b.drop_last());
        assert(s.last() == b.last());
        assert(b.last() != '+') by {
            assert(b[b.len() - 1] == b.last());
        }
        assert(b.drop_last().push(b.last()) =~= b);
        assert(seq![a, b.drop_last()].update(1, b.drop_last().push(b.last())) =~= seq![a, b]);
    }
}

/// A single letter or digit is a key, not a modifier.
proof fn lemma_single_key(name: Seq<char>)
    requires
        name.len() == 1,
        is_alnum(name[0]),
    ensures
        modifier_code(name) is None,
        key_code(name) == Some(name[0] as u16),
{
    reveal_strlit("SPACE");
    reveal_strlit("ENTER");
    reveal_strlit("RETURN");
    reveal_strlit("TAB");
    reveal_strlit("ESC");
    reveal_strlit("ESCAPE");
    reveal_strlit("BACKSPACE");
    reveal_strlit("DELETE");
    reveal_strlit("DEL");
    reveal_strlit("INSERT");
    reveal_strlit("INS");
    reveal_strlit("HOME");
    reveal_strlit("END");
    reveal_strlit("PAGEUP");
    reveal_strlit("PGUP");
    reveal_strlit("PAGEDOWN");
    reveal_strlit("PGDN");
    reveal_strlit("LEFT");
    reveal_strlit("UP");
    reveal_strlit("RIGHT");
    reveal_strlit("DOWN");
    reveal_strlit("SEMICOLON");
    reveal_strlit("PLUS");
    reveal_strlit("COMMA");
    reveal_strlit("MINUS");
    reveal_strlit("PERIOD");
    reveal_strlit("SLASH");
    reveal_strlit("BACKTICK");
    reveal_strlit("LEFTBRACKET");
    reveal_strlit("BACKSLASH");
    reveal_strlit("RIGHTBRACKET");
    reveal_strlit("QUOTE");
    reveal_strlit("MULTIPLY");
    reveal_strlit("ADD");
    reveal_strlit("SUBTRACT");
    reveal_strlit("DECIMAL");
    reveal_strlit("DIVIDE");
    reveal_strlit("CTRL");
    reveal_strlit("CONTROL");
    reveal_strlit("SHIFT");
    reveal_strlit("ALT");
    reveal_strlit("WIN");
    reveal_strlit("WINDOWS");
}

proof fn lemma_encode_len(cs: Seq<char>)
    ensures
        encode_utf8(cs).len() <= 4 * cs.len(),
    decreases cs.len(),
{
    if cs.len() > 0 {
        lemma_encode_len(cs.drop_first());
        vstd::utf8::char_is_scalar(cs[0]);
    }
}

/// The name of a chord part as the parser reads it, when it has no spaces and is already
/// in upper case apart from ASCII letters.
proof fn lemma_plain_name(s: Seq<char>)
    requires
        s.len() > 0,
        !is_ws(s[0]),
        !is_ws(s.last()),
    ensures
        trim(s) == s,
{
    assert(trim_start(s) == s);
    assert(trim_end(s) == s);
}

/// The shortcuts of the built-in shortcut actions parse.
pub proof fn lemma_builtin_chords_parse()
    ensures
        spec_shortcut("Ctrl+Z"@) == Some(seq![0x11u16, 0x5au16]),
        spec_shortcut("Ctrl+Y"@) == Some(seq![0x11u16, 0x59u16]),
        spec_shortcut("E"@) == Some(seq![0x45u16]),
        spec_shortcut("B"@) == Some(seq![0x42u16]),
{
    reveal_strlit("Ctrl+Z");
    reveal_strlit("Ctrl+Y");
    reveal_strlit("Ctrl");
    reveal_strlit("CTRL");
    reveal_strlit("E");
    reveal_strlit("B");
    reveal_strlit("Z");
    reveal_strlit("Y");
    let ctrl = "Ctrl"@;
    lemma_plain_name(ctrl);
    assert(upper(ctrl) =~= "CTRL"@);
    assert(!ctrl.contains('+')) by {
        if ctrl.contains('+') {
            let i = choose|i: int| 0 <= i < ctrl.len() && ctrl[i] == '+';
        }
    }
    assert forall|k: char| 'A' <= k <= 'Z' implies #[trigger] spec_shortcut(ctrl + seq!['+'] + seq![k]) == Some(seq![0x11u16, k as u16])
        && spec_shortcut(seq![k]) == Some(seq![k as u16]) by {
        lemma_chord_key(ctrl, k);
    }
    assert forall|k: char| 'A' <= k <= 'Z' implies #[trigger] spec_shortcut(seq![k]) == Some(seq![k as u16]) by {
        lemma_chord_key(ctrl, k);
    }
    assert(spec_shortcut(ctrl + seq!['+'] + seq!['Z']) == Some(seq![0x11u16, 'Z' as u16]));
    assert(spec_shortcut(ctrl + seq!['+'] + seq!['Y']) == Some(seq![0x11u16, 'Y' as u16]));
    assert(spec_shortcut(seq!['E']) == Some(seq!['E' as u16]));
    assert(spec_shortcut(seq!['B']) == Some(seq!['B' as u16]));
    assert("Ctrl+Z"@ =~= ctrl + seq!['+'] + seq!['Z']);
    assert("Ctrl+Y"@ =~= ctrl + seq!['+'] + seq!['Y']);
    assert("E"@ =~= seq!['E']);
    assert("B"@ =~= seq!['B']);
}

/// `Ctrl+K` and `K` parse for an upper-case letter `K`.
proof fn lemma_chord_key(ctrl: Seq<char>, k: char)
    requires
        ctrl == "Ctrl"@,
        'A' <= k <= 'Z',
    ensures
        spec_shortcut(ctrl + seq!['+'] + seq![k]) == Some(seq![0x11u16, k as u16]),
        spec_shortcut(seq![k]) == Some(seq![k as u16]),
{
    reveal_strlit("Ctrl");
    reveal_strlit("CTRL");
    lemma_plain_name(ctrl);
    assert(upper(ctrl) =~= "CTRL"@);
    assert(!ctrl.contains('+')) by {
        if ctrl.contains('+') {
            let i = choose|i: int| 0 <= i < ctrl.len() && ctrl[i] == '+';
        }
    }
    {
        let kk = seq![k];
        assert(!kk.contains('+')) by {
            if kk.contains('+') {
                let i = choose|i: int| 0 <= i < kk.len() && kk[i] == '+';
            }
        }
        lemma_split_two(ctrl, kk);
        lemma_split_none(kk);
        lemma_plain_name(kk);
        assert(upper(kk) =~= kk);
        lemma_single_key(kk);
        let t = ctrl + seq!['+'] + kk;
        lemma_encode_len(t);
        lemma_encode_len(kk);
        let parts = seq![ctrl, kk];
        assert(parts.drop_last() =~= seq![ctrl]);
        assert(seq![ctrl].drop_last() =~= Seq::<Seq<char>>::empty());
        assert(seq![kk].drop_last() =~= Seq::<Seq<char>>::empty());
        assert(seq![ctrl].last() == ctrl);
        assert(parts.last() == kk);
        assert(seq![kk].last() == kk);
        assert(upper(trim(ctrl)) == "CTRL"@);
        assert(upper(trim(kk)) == kk);
        assert(modifier_code("CTRL"@) == Some(0x11u16));
        assert(!Seq::<u16>::empty().contains(0x11u16));
        assert(Seq::<u16>::empty().push(0x11u16) =~= seq![0x11u16]);
        assert(parse_parts(Seq::<Seq<char>>::empty()) == Some((Seq::<u16>::empty(), None::<u16>)));
        assert(parse_parts(seq![ctrl]) == Some((seq![0x11u16], None::<u16>)));
        assert(parse_parts(parts) == Some((seq![0x11u16], Some(k as u16))));
        assert(parse_parts(seq![kk]) == Some((Seq::<u16>::empty(), Some(k as u16))));
        assert(seq![0x11u16].push(k as u16) =~= seq![0x11u16, k as u16]);
        assert(Seq::<u16>::empty().push(k as u16) =~= seq![k as u16]);
    }
}


/// Every valid action can fire: a built-in shortcut action's chord parses, and so does a
/// valid custom one.
pub proof fn lemma_valid_action_fires(a: Seq<char>)
    requires
        spec_validate(a) is Ok,
    ensures
        chord_parses(a),
{
    lemma_builtin_chords_parse();
    if is_custom(a) {
        lemma_valid_custom_chord_parses(a);
    }
}

/// With valid actions, an update in which the sink took every injection succeeds: the
/// right-hand side of `update`'s success condition holds, so by its contract the update
/// returns `Ok(b)` with `b` true exactly while a button bound to a right click is held.
pub proof fn lemma_valid_update_succeeds(
    actions: Seq<Seq<char>>,
    previous: Seq<bool>,
    states: Seq<bool>,
    calls: Seq<Call>,
    from: int,
)
    requires
        actions.len() == 2,
        spec_validate(actions[0]) is Ok,
        spec_validate(actions[1]) is Ok,
        sends_ok_from(calls, from),
    ensures
        sends_ok_from(calls, from) && forall|j: int|
            0 <= j < 2 && states[j] && !previous[j] ==> chord_parses(#[trigger] actions[j]),
{
    lemma_valid_action_fires(actions[0]);
    lemma_valid_action_fires(actions[1]);
    assert forall|j: int| 0 <= j < 2 && states[j] && !previous[j] implies chord_parses(#[trigger] actions[j]) by {
        if j == 0 {
        } else {
        }
    }
}


/// Every injection requested among `ev` is a release of one of `codes`.
pub open spec fn releases_of(ev: SinkEvents, codes: Seq<InputCode>) -> bool {
    forall|i: int| 0 <= i < ev.len() ==> (#[trigger] ev[i]).1 && codes.contains(ev[i].0)
}

proof fn lemma_release_calls_release(codes: Seq<InputCode>, keep: Seq<InputCode>, t: Seq<Call>, at: int, stop: bool)
    ensures
        releases_of(requests(release_calls(codes, keep, t, at, stop)), codes),
    decreases codes.len(),
{
    if codes.len() > 0 {
        lemma_release_calls_release(codes.drop_last(), keep, t, at, stop);
        let prev = release_calls(codes.drop_last(), keep, t, at, stop);
        let rp = requests(prev);
        assert forall|i: int| 0 <= i < rp.len() implies (#[trigger] rp[i]).1 && codes.contains(rp[i].0) by {
            let j = choose|j: int| 0 <= j < codes.drop_last().len() && codes.drop_last()[j] == rp[i].0;
            assert(codes[j] == rp[i].0);
        }
        if !((stop && refused_last(prev)) || keep.contains(codes.last())) {
            let x = Call::Send { code: codes.last(), up: true, outcome: t[at + prev.len()]->outcome };
            assert(prev.push(x).drop_last() =~= prev);
            assert(requests(prev.push(x)) == rp.push((codes.last(), true)));
            assert(codes[codes.len() - 1] == codes.last());
        }
    }
}

proof fn lemma_press_calls_press(held: Set<InputCode>, codes: Seq<InputCode>, t: Seq<Call>, at: int)
    ensures
        forall|i: int|
            0 <= i < requests(press_calls(held, codes, t, at).0).len() ==> !(#[trigger] requests(
                press_calls(held, codes, t, at).0,
            )[i]).1,
        forall|c: InputCode|
            #[trigger] press_calls(held, codes, t, at).2.contains(c) ==> requests(press_calls(held, codes, t, at).0).contains(
                (c, false),
            ),
    decreases codes.len(),
{
    if codes.len() > 0 {
        lemma_press_calls_press(held, codes.drop_last(), t, at);
        let (prev, h, p) = press_calls(held, codes.drop_last(), t, at);
        if !refused_last(prev) {
            let code = codes.last();
            let c = press_call(h, code, t, at + prev.len());
            lemma_requests_concat(prev, c);
            if c.len() == 1 {
                assert(c =~= seq![Call::Held { queried: code, answer: true }]);
                lemma_requests_question(code, true);
            } else if c.len() == 2 {
                assert(c.drop_last() =~= seq![Call::Held { queried: code, answer: false }]);
                lemma_requests_question(code, false);
                assert(requests(c) =~= seq![(code, false)]);
            } else {
                assert(requests(c) =~= Seq::<(InputCode, bool)>::empty());
            }
            let rq = requests(prev + c);
            assert(rq == requests(prev) + requests(c));
            assert forall|i: int| 0 <= i < rq.len() implies !(#[trigger] rq[i]).1 by {
                if i < requests(prev).len() {
                    assert(rq[i] == requests(prev)[i]);
                } else {
                    assert(rq[i] == requests(c)[i - requests(prev).len()]);
                }
            }
            assert forall|x: InputCode| #[trigger] press_calls(held, codes, t, at).2.contains(x) implies rq.contains((x, false)) by {
                if p.contains(x) {
                    let j = choose|j: int| 0 <= j < requests(prev).len() && requests(prev)[j] == (x, false);
                    assert(rq[j] == requests(prev)[j]);
                } else {
                    let pp = press_calls(held, codes, t, at).2;
                    let j = choose|j: int| 0 <= j < pp.len() && pp[j] == x;
                    if j < p.len() {
                        assert(pp[j] == p[j]);
                    }
                    assert(rq[requests(prev).len() as int] == (code, false));
                }
            }
        }
    }
}

/// A release in `a + b` of an input released only after its own press in `b` (or held at
/// the start) keeps a binding releasing only input it pressed.
proof fn lemma_releases_own_concat(o: Seq<InputCode>, a: SinkEvents, b: SinkEvents)
    requires
        releases_own(o, a),
        releases_own(o, b),
    ensures
        releases_own(o, a + b),
{
    let e = a + b;
    assert forall|i: int| 0 <= i < e.len() && (#[trigger] e[i]).1 implies o.contains(e[i].0) || exists|j: int|
        0 <= j < i && e[j] == (e[i].0, false) by {
        if i < a.len() {
            assert(e[i] == a[i]);
            if !o.contains(a[i].0) {
                let j = choose|j: int| 0 <= j < i && a[j] == (a[i].0, false);
                assert(e[j] == a[j]);
            }
        } else {
            let k = i - a.len();
            assert(e[i] == b[k]);
            assert(b[k].1);
            if !o.contains(b[k].0) {
                let j = choose|j: int| 0 <= j < k && b[j] == (b[k].0, false);
                assert(e[a.len() + j] == b[j]);
            }
        }
    }
}

proof fn lemma_releases_own_grow(o: Seq<InputCode>, o2: Seq<InputCode>, a: SinkEvents)
    requires
        releases_own(o, a),
        forall|c: InputCode| o.contains(c) ==> #[trigger] o2.contains(c),
    ensures
        releases_own(o2, a),
{
}

proof fn lemma_tap_calls_own(held: Set<InputCode>, keys: Seq<InputCode>, t: Seq<Call>, at: int)
    ensures
        releases_own(Seq::empty(), requests(tap_calls(held, keys, t, at))),
{
    let (pc, h, p) = press_calls(held, keys, t, at);
    let rc = release_calls(p.reverse(), seq![], t, at + pc.len(), false);
    lemma_press_calls_press(held, keys, t, at);
    lemma_release_calls_release(p.reverse(), seq![], t, at + pc.len(), false);
    lemma_requests_concat(pc, rc);
    let a = requests(pc);
    let b = requests(rc);
    let e = a + b;
    assert forall|i: int| 0 <= i < e.len() && (#[trigger] e[i]).1 implies Seq::<InputCode>::empty().contains(e[i].0)
        || exists|j: int| 0 <= j < i && e[j] == (e[i].0, false) by {
        if i < a.len() {
            assert(e[i] == a[i]);
        } else {
            let k = i - a.len();
            assert(e[i] == b[k]);
            let c = b[k].0;
            let q = choose|q: int| 0 <= q < p.reverse().len() && p.reverse()[q] == c;
            assert(p[p.len() - 1 - q] == c);
            assert(p.contains(c));
            let j = choose|j: int| 0 <= j < a.len() && a[j] == (c, false);
            assert(e[j] == a[j]);
        }
    }
}

proof fn lemma_click_calls_shape(t: Seq<Call>, at: int, n: nat)
    ensures
        click_calls(t, at, n).len() <= n,
        click_calls(t, at, n).len() < n ==> refused_last(click_calls(t, at, n)),
        requests(click_calls(t, at, n)).len() == click_calls(t, at, n).len(),
        forall|k: int| 0 <= k < requests(click_calls(t, at, n)).len() ==> #[trigger] requests(click_calls(t, at, n))[k] == (
            LEFT,
            k % 2 == 1,
        ),
    decreases n,
{
    if n > 0 {
        lemma_click_calls_shape(t, at, (n - 1) as nat);
        let prev = click_calls(t, at, (n - 1) as nat);
        if !refused_last(prev) {
            let x = Call::Send { code: LEFT, up: (n - 1) % 2 == 1, outcome: t[at + prev.len()]->outcome };
            assert(prev.push(x).drop_last() =~= prev);
            assert(requests(prev.push(x)) == requests(prev).push((LEFT, (n - 1) % 2 == 1)));
        }
    }
}

proof fn lemma_double_click_calls_own(held: Set<InputCode>, t: Seq<Call>, at: int)
    ensures
        releases_own(Seq::empty(), requests(double_click_calls(held, t, at))),
{
    if !held.contains(LEFT) && t[at] != (Call::Held { queried: LEFT, answer: true }) {
        let hq = seq![Call::Held { queried: LEFT, answer: false }];
        let cc = click_calls(t, at + 1, 4);
        lemma_click_calls_shape(t, at + 1, 4);
        lemma_requests_concat(hq, cc);
        lemma_requests_question(LEFT, false);
        let e = requests(hq + cc);
        assert(e =~= requests(cc));
        assert forall|i: int| 0 <= i < e.len() && (#[trigger] e[i]).1 implies Seq::<InputCode>::empty().contains(e[i].0)
            || exists|j: int| 0 <= j < i && e[j] == (e[i].0, false) by {
            assert(e[i] == (LEFT, i % 2 == 1));
            assert(e[i - 1] == (LEFT, (i - 1) % 2 == 1));
        }
    } else if !held.contains(LEFT) {
        lemma_requests_question(LEFT, true);
    } else {
        assert(requests(Seq::<Call>::empty()) =~= Seq::<(InputCode, bool)>::empty());
    }
}

proof fn lemma_fire_calls_own(action: Seq<char>, held: Set<InputCode>, t: Seq<Call>, at: int)
    ensures
        releases_own(Seq::empty(), requests(fire_calls(action, held, t, at))),
{
    reveal(fire_calls);
    match spec_action_shortcut(action) {
        Some(chord) => {
            if let Some(keys) = spec_shortcut(chord) {
                lemma_tap_calls_own(held, key_inputs(keys), t, at);
            }
        },
        None => {
            if action == "Double click"@ {
                lemma_double_click_calls_own(held, t, at);
            }
        },
    }
}

/// A binding releases only input it pressed itself: every release an update asks the sink
/// for is of an input the binding held when the update began, or follows a press of that
/// input the update asked for.
pub proof fn lemma_update_releases_own(
    owned: Seq<InputCode>,
    actions: Seq<Seq<char>>,
    previous: Seq<bool>,
    states: Seq<bool>,
    t: Seq<Call>,
    at: int,
)
    ensures
        releases_own(owned, requests(update_calls(owned, actions, previous, states, t, at))),
{
    reveal(update_calls);
    let wanted = wanted_inputs(actions, states);
    let ru = release_calls(owned.reverse(), wanted, t, at, true);
    lemma_release_calls_release(owned.reverse(), wanted, t, at, true);
    assert(releases_own(owned, requests(ru))) by {
        assert forall|i: int| 0 <= i < requests(ru).len() && (#[trigger] requests(ru)[i]).1 implies owned.contains(
            requests(ru)[i].0,
        ) by {
            let c = requests(ru)[i].0;
            let q = choose|q: int| 0 <= q < owned.reverse().len() && owned.reverse()[q] == c;
            assert(owned[owned.len() - 1 - q] == c);
        }
    }
    if !refused_last(ru) {
        let (pw, h2, p) = press_calls(kept_inputs(owned, wanted), wanted, t, at + ru.len());
        lemma_press_calls_press(kept_inputs(owned, wanted), wanted, t, at + ru.len());
        lemma_requests_concat(ru, pw);
        lemma_releases_own_concat(owned, requests(ru), requests(pw));
        if !refused_last(pw) {
            let hc = ru + pw;
            let at2 = at + hc.len();
            let f0 = if newly_pressed(previous, states, 0) {
                fire_calls(actions[0], h2, t, at2)
            } else {
                seq![]
            };
            lemma_fire_calls_own(actions[0], h2, t, at2);
            lemma_fire_calls_own(actions[1], h2, t, at2 + f0.len());
            assert(requests(Seq::<Call>::empty()) =~= Seq::<(InputCode, bool)>::empty());
            let uf = update_fires(actions, previous, states, h2, t, at2, 2);
            assert(releases_own(Seq::empty(), requests(uf))) by {
                if uf != f0 {
                    let f1 = fire_calls(actions[1], h2, t, at2 + f0.len());
                    lemma_requests_concat(f0, f1);
                    lemma_releases_own_concat(Seq::empty(), requests(f0), requests(f1));
                }
            }
            lemma_releases_own_grow(Seq::empty(), owned, requests(uf));
            lemma_requests_concat(hc, uf);
            lemma_releases_own_concat(owned, requests(hc), requests(uf));
        }
    }
}


/// A question alone requests nothing.
proof fn lemma_requests_question(q: InputCode, a: bool)
    ensures
        requests(seq![Call::Held { queried: q, answer: a }]) == Seq::<(InputCode, bool)>::empty(),
{
    let c = seq![Call::Held { queried: q, answer: a }];
    assert(c.drop_last() =~= Seq::<Call>::empty());
    assert(requests(c) == requests(c.drop_last()));
    assert(requests(c) =~= Seq::<(InputCode, bool)>::empty());
}


/// `a` ends with `t`.
pub open spec fn ends_with(a: Seq<char>, t: Seq<char>) -> bool {
    a.len() >= t.len() && a.skip(a.len() - t.len()) == t
}

/// A built-in action fires the chord its label names in parentheses: whenever an action
/// that is not a custom shortcut has a chord, the label ends with ` (` that chord `)`.
pub proof fn lemma_builtin_chord_is_in_label(a: Seq<char>)
    ensures
        !is_custom(a) ==> (spec_action_shortcut(a) matches Some(c) ==> ends_with(a, " ("@ + c + ")"@)),
{
    reveal_strlit(" (");
    reveal_strlit(")");
    reveal_strlit("Undo (Ctrl+Z)");
    reveal_strlit("Ctrl+Z");
    reveal_strlit("Redo (Ctrl+Y)");
    reveal_strlit("Ctrl+Y");
    reveal_strlit("Eraser (E)");
    reveal_strlit("E");
    reveal_strlit("Brush (B)");
    reveal_strlit("B");
    if !is_custom(a) {
        if let Some(c) = spec_action_shortcut(a) {
            let t = " ("@ + c + ")"@;
            assert(a.skip(a.len() - t.len()) =~= t);
        }
    }
}

/// The built-in shortcut actions fire Ctrl+Z (Undo), Ctrl+Y (Redo), E (Eraser) and B
/// (Brush), whose keys are Ctrl then Z, Ctrl then Y, E and B.
pub proof fn lemma_builtin_actions_fire()
    ensures
        spec_action_shortcut("Undo (Ctrl+Z)"@) == Some("Ctrl+Z"@),
        spec_action_shortcut("Redo (Ctrl+Y)"@) == Some("Ctrl+Y"@),
        spec_action_shortcut("Eraser (E)"@) == Some("E"@),
        spec_action_shortcut("Brush (B)"@) == Some("B"@),
        spec_shortcut("Ctrl+Z"@) == Some(seq![0x11u16, 0x5au16]),
        spec_shortcut("Ctrl+Y"@) == Some(seq![0x11u16, 0x59u16]),
        spec_shortcut("E"@) == Some(seq![0x45u16]),
        spec_shortcut("B"@) == Some(seq![0x42u16]),
{
    reveal_strlit("Undo (Ctrl+Z)");
    reveal_strlit("Redo (Ctrl+Y)");
    reveal_strlit("Eraser (E)");
    reveal_strlit("Brush (B)");
    assert("Redo (Ctrl+Y)"@ != "Undo (Ctrl+Z)"@) by {
        assert("Redo (Ctrl+Y)"@[0] != "Undo (Ctrl+Z)"@[0]);
    }
    assert("Eraser (E)"@ != "Undo (Ctrl+Z)"@) by {
        assert("Eraser (E)"@[0] != "Undo (Ctrl+Z)"@[0]);
    }
    assert("Eraser (E)"@ != "Redo (Ctrl+Y)"@);
    assert("Brush (B)"@ != "Undo (Ctrl+Z)"@) by {
        assert("Brush (B)"@[0] != "Undo (Ctrl+Z)"@[0]);
    }
    assert("Brush (B)"@ != "Redo (Ctrl+Y)"@);
    assert("Brush (B)"@ != "Eraser (E)"@) by {
        assert("Brush (B)"@[0] != "Eraser (E)"@[0]);
    }
    lemma_builtin_chords_parse();
}


/// The lengths of the key and modifier names.
proof fn lemma_name_lengths()
    ensures
        "SPACE"@.len() == 5,
        "ENTER"@.len() == 5,
        "RETURN"@.len() == 6,
        "TAB"@.len() == 3,
        "ESC"@.len() == 3,
        "ESCAPE"@.len() == 6,
        "BACKSPACE"@.len() == 9,
        "DELETE"@.len() == 6,
        "DEL"@.len() == 3,
        "INSERT"@.len() == 6,
        "INS"@.len() == 3,
        "HOME"@.len() == 4,
        "END"@.len() == 3,
        "PAGEUP"@.len() == 6,
        "PGUP"@.len() == 4,
        "PAGEDOWN"@.len() == 8,
        "PGDN"@.len() == 4,
        "LEFT"@.len() == 4,
        "UP"@.len() == 2,
        "RIGHT"@.len() == 5,
        "DOWN"@.len() == 4,
        "SEMICOLON"@.len() == 9,
        "PLUS"@.len() == 4,
        "COMMA"@.len() == 5,
        "MINUS"@.len() == 5,
        "PERIOD"@.len() == 6,
        "SLASH"@.len() == 5,
        "BACKTICK"@.len() == 8,
        "LEFTBRACKET"@.len() == 11,
        "BACKSLASH"@.len() == 9,
        "RIGHTBRACKET"@.len() == 12,
        "QUOTE"@.len() == 5,
        "MULTIPLY"@.len() == 8,
        "ADD"@.len() == 3,
        "SUBTRACT"@.len() == 8,
        "DECIMAL"@.len() == 7,
        "DIVIDE"@.len() == 6,
        "CTRL"@.len() == 4,
        "CONTROL"@.len() == 7,
        "SHIFT"@.len() == 5,
        "ALT"@.len() == 3,
        "WIN"@.len() == 3,
        "WINDOWS"@.len() == 7,
{
    reveal_strlit("SPACE");
    reveal_strlit("ENTER");
    reveal_strlit("RETURN");
    reveal_strlit("TAB");
    reveal_strlit("ESC");
    reveal_strlit("ESCAPE");
    reveal_strlit("BACKSPACE");
    reveal_strlit("DELETE");
    reveal_strlit("DEL");
    reveal_strlit("INSERT");
    reveal_strlit("INS");
    reveal_strlit("HOME");
    reveal_strlit("END");
    reveal_strlit("PAGEUP");
    reveal_strlit("PGUP");
    reveal_strlit("PAGEDOWN");
    reveal_strlit("PGDN");
    reveal_strlit("LEFT");
    reveal_strlit("UP");
    reveal_strlit("RIGHT");
    reveal_strlit("DOWN");
    reveal_strlit("SEMICOLON");
    reveal_strlit("PLUS");
    reveal_strlit("COMMA");
    reveal_strlit("MINUS");
    reveal_strlit("PERIOD");
    reveal_strlit("SLASH");
    reveal_strlit("BACKTICK");
    reveal_strlit("LEFTBRACKET");
    reveal_strlit("BACKSLASH");
    reveal_strlit("RIGHTBRACKET");
    reveal_strlit("QUOTE");
    reveal_strlit("MULTIPLY");
    reveal_strlit("ADD");
    reveal_strlit("SUBTRACT");
    reveal_strlit("DECIMAL");
    reveal_strlit("DIVIDE");
    reveal_strlit("CTRL");
    reveal_strlit("CONTROL");
    reveal_strlit("SHIFT");
    reveal_strlit("ALT");
    reveal_strlit("WIN");
    reveal_strlit("WINDOWS");
}

/// Names of one length that the key and modifier tables tell apart.
proof fn lemma_names_differ()
    ensures
        "ESC"@ != "TAB"@,
        "ESC"@ != "ALT"@,
        "ESC"@ != "WIN"@,
        "ESCAPE"@ != "RETURN"@,
        "DELETE"@ != "RETURN"@,
        "DELETE"@ != "ESCAPE"@,
        "DEL"@ != "TAB"@,
        "DEL"@ != "ESC"@,
        "DEL"@ != "ALT"@,
        "DEL"@ != "WIN"@,
        "INSERT"@ != "RETURN"@,
        "INSERT"@ != "ESCAPE"@,
        "INSERT"@ != "DELETE"@,
        "INS"@ != "TAB"@,
        "INS"@ != "ESC"@,
        "INS"@ != "DEL"@,
        "INS"@ != "ALT"@,
        "INS"@ != "WIN"@,
        "ENTER"@ != "SPACE"@,
        "ENTER"@ != "SHIFT"@,
        "PAGEUP"@ != "RETURN"@,
        "PAGEUP"@ != "ESCAPE"@,
        "PAGEUP"@ != "DELETE"@,
        "PAGEUP"@ != "INSERT"@,
        "PGUP"@ != "HOME"@,
        "PGUP"@ != "CTRL"@,
        "PGDN"@ != "HOME"@,
        "PGDN"@ != "PGUP"@,
        "PGDN"@ != "CTRL"@,
        "WIN"@ != "ALT"@,
        "WINDOWS"@ != "CONTROL"@,
{
    assert("ESC"@ != "TAB"@) by {
        reveal_strlit("ESC");
        reveal_strlit("TAB");
        assert("ESC"@[0] != "TAB"@[0]);
    }
    assert("ESC"@ != "ALT"@) by {
        reveal_strlit("ESC");
        reveal_strlit("ALT");
        assert("ESC"@[0] != "ALT"@[0]);
    }
    assert("ESC"@ != "WIN"@) by {
        reveal_strlit("ESC");
        reveal_strlit("WIN");
        assert("ESC"@[0] != "WIN"@[0]);
    }
    assert("ESCAPE"@ != "RETURN"@) by {
        reveal_strlit("ESCAPE");
        reveal_strlit("RETURN");
        assert("ESCAPE"@[0] != "RETURN"@[0]);
    }
    assert("DELETE"@ != "RETURN"@) by {
        reveal_strlit("DELETE");
        reveal_strlit("RETURN");
        assert("DELETE"@[0] != "RETURN"@[0]);
    }
    assert("DELETE"@ != "ESCAPE"@) by {
        reveal_strlit("DELETE");
        reveal_strlit("ESCAPE");
        assert("DELETE"@[0] != "ESCAPE"@[0]);
    }
    assert("DEL"@ != "TAB"@) by {
        reveal_strlit("DEL");
        reveal_strlit("TAB");
        assert("DEL"@[0] != "TAB"@[0]);
    }
    assert("DEL"@ != "ESC"@) by {
        reveal_strlit("DEL");
        reveal_strlit("ESC");
        assert("DEL"@[0] != "ESC"@[0]);
    }
    assert("DEL"@ != "ALT"@) by {
        reveal_strlit("DEL");
        reveal_strlit("ALT");
        assert("DEL"@[0] != "ALT"@[0]);
    }
    assert("DEL"@ != "WIN"@) by {
        reveal_strlit("DEL");
        reveal_strlit("WIN");
        assert("DEL"@[0] != "WIN"@[0]);
    }
    assert("INSERT"@ != "RETURN"@) by {
        reveal_strlit("INSERT");
        reveal_strlit("RETURN");
        assert("INSERT"@[0] != "RETURN"@[0]);
    }
    assert("INSERT"@ != "ESCAPE"@) by {
        reveal_strlit("INSERT");
        reveal_strlit("ESCAPE");
        assert("INSERT"@[0] != "ESCAPE"@[0]);
    }
    assert("INSERT"@ != "DELETE"@) by {
        reveal_strlit("INSERT");
        reveal_strlit("DELETE");
        assert("INSERT"@[0] != "DELETE"@[0]);
    }
    assert("INS"@ != "TAB"@) by {
        reveal_strlit("INS");
        reveal_strlit("TAB");
        assert("INS"@[0] != "TAB"@[0]);
    }
    assert("INS"@ != "ESC"@) by {
        reveal_strlit("INS");
        reveal_strlit("ESC");
        assert("INS"@[0] != "ESC"@[0]);
    }
    assert("INS"@ != "DEL"@) by {
        reveal_strlit("INS");
        reveal_strlit("DEL");
        assert("INS"@[0] != "DEL"@[0]);
    }
    assert("INS"@ != "ALT"@) by {
        reveal_strlit("INS");
        reveal_strlit("ALT");
        assert("INS"@[0] != "ALT"@[0]);
    }
    assert("INS"@ != "WIN"@) by {
        reveal_strlit("INS");
        reveal_strlit("WIN");
        assert("INS"@[0] != "WIN"@[0]);
    }
    assert("ENTER"@ != "SPACE"@) by {
        reveal_strlit("ENTER");
        reveal_strlit("SPACE");
        assert("ENTER"@[0] != "SPACE"@[0]);
    }
    assert("ENTER"@ != "SHIFT"@) by {
        reveal_strlit("ENTER");
        reveal_strlit("SHIFT");
        assert("ENTER"@[0] != "SHIFT"@[0]);
    }
    assert("PAGEUP"@ != "RETURN"@) by {
        reveal_strlit("PAGEUP");
        reveal_strlit("RETURN");
        assert("PAGEUP"@[0] != "RETURN"@[0]);
    }
    assert("PAGEUP"@ != "ESCAPE"@) by {
        reveal_strlit("PAGEUP");
        reveal_strlit("ESCAPE");
        assert("PAGEUP"@[0] != "ESCAPE"@[0]);
    }
    assert("PAGEUP"@ != "DELETE"@) by {
        reveal_strlit("PAGEUP");
        reveal_strlit("DELETE");
        assert("PAGEUP"@[0] != "DELETE"@[0]);
    }
    assert("PAGEUP"@ != "INSERT"@) by {
        reveal_strlit("PAGEUP");
        reveal_strlit("INSERT");
        assert("PAGEUP"@[0] != "INSERT"@[0]);
    }
    assert("PGUP"@ != "HOME"@) by {
        reveal_strlit("PGUP");
        reveal_strlit("HOME");
        assert("PGUP"@[0] != "HOME"@[0]);
    }
    assert("PGUP"@ != "CTRL"@) by {
        reveal_strlit("PGUP");
        reveal_strlit("CTRL");
        assert("PGUP"@[0] != "CTRL"@[0]);
    }
    assert("PGDN"@ != "HOME"@) by {
        reveal_strlit("PGDN");
        reveal_strlit("HOME");
        assert("PGDN"@[0] != "HOME"@[0]);
    }
    assert("PGDN"@ != "PGUP"@) by {
        reveal_strlit("PGDN");
        reveal_strlit("PGUP");
        assert("PGDN"@[2] != "PGUP"@[2]);
    }
    assert("PGDN"@ != "CTRL"@) by {
        reveal_strlit("PGDN");
        reveal_strlit("CTRL");
        assert("PGDN"@[0] != "CTRL"@[0]);
    }
    assert("WIN"@ != "ALT"@) by {
        reveal_strlit("WIN");
        reveal_strlit("ALT");
        assert("WIN"@[0] != "ALT"@[0]);
    }
    assert("WINDOWS"@ != "CONTROL"@) by {
        reveal_strlit("WINDOWS");
        reveal_strlit("CONTROL");
        assert("WINDOWS"@[0] != "CONTROL"@[0]);
    }
}

proof fn lemma_alias_codes()
    ensures
        modifier_code("ESC"@) is None && key_code("ESC"@) == Some(0x1bu16),
        modifier_code("ESCAPE"@) is None && key_code("ESCAPE"@) == Some(0x1bu16),
        modifier_code("DEL"@) is None && key_code("DEL"@) == Some(0x2eu16),
        modifier_code("DELETE"@) is None && key_code("DELETE"@) == Some(0x2eu16),
        modifier_code("INS"@) is None && key_code("INS"@) == Some(0x2du16),
        modifier_code("INSERT"@) is None && key_code("INSERT"@) == Some(0x2du16),
        modifier_code("RETURN"@) is None && key_code("RETURN"@) == Some(0xdu16),
        modifier_code("ENTER"@) is None && key_code("ENTER"@) == Some(0xdu16),
        modifier_code("PGUP"@) is None && key_code("PGUP"@) == Some(0x21u16),
        modifier_code("PAGEUP"@) is None && key_code("PAGEUP"@) == Some(0x21u16),
        modifier_code("PGDN"@) is None && key_code("PGDN"@) == Some(0x22u16),
        modifier_code("PAGEDOWN"@) is None && key_code("PAGEDOWN"@) == Some(0x22u16),
        modifier_code("CTRL"@) == Some(0x11u16),
        modifier_code("CONTROL"@) == Some(0x11u16),
        modifier_code("WIN"@) == Some(0x5bu16),
        modifier_code("WINDOWS"@) == Some(0x5bu16),
        modifier_code("SHIFT"@) == Some(0x10u16),
        modifier_code("ALT"@) == Some(0x12u16),
{
    lemma_name_lengths();
    lemma_names_differ();
}

/// A chord of one part that names a key (not a modifier) is that key alone.
proof fn lemma_one_part_chord(n: Seq<char>, k: u16)
    requires
        !n.contains('+'),
        encode_utf8(n).len() <= 80,
        modifier_code(upper(trim(n))) is None,
        key_code(upper(trim(n))) == Some(k),
    ensures
        spec_shortcut(n) == Some(seq![k]),
{
    lemma_split_none(n);
    let parts = seq![n];
    assert(parts.drop_last() =~= Seq::<Seq<char>>::empty());
    assert(parts.last() == n);
    assert(parse_parts(Seq::<Seq<char>>::empty()) == Some((Seq::<u16>::empty(), None::<u16>)));
    assert(parse_parts(parts) == Some((Seq::<u16>::empty(), Some(k))));
    assert(Seq::<u16>::empty().push(k) =~= seq![k]);
}

/// A modifier part, `+`, then a letter is that modifier with the letter's key.
proof fn lemma_modifier_letter_chord(a: Seq<char>, m: u16, letter: char)
    requires
        !a.contains('+'),
        encode_utf8(a + seq!['+'] + seq![letter]).len() <= 80,
        modifier_code(upper(trim(a))) == Some(m),
        'A' <= letter <= 'Z',
    ensures
        spec_shortcut(a + seq!['+'] + seq![letter]) == Some(seq![m, letter as u16]),
{
    let kk = seq![letter];
    assert(!kk.contains('+')) by {
        if kk.contains('+') {
            let i = choose|i: int| 0 <= i < kk.len() && kk[i] == '+';
        }
    }
    lemma_split_two(a, kk);
    lemma_plain_name(kk);
    assert(upper(kk) =~= kk);
    lemma_single_key(kk);
    let parts = seq![a, kk];
    assert(parts.drop_last() =~= seq![a]);
    assert(seq![a].drop_last() =~= Seq::<Seq<char>>::empty());
    assert(seq![a].last() == a);
    assert(parts.last() == kk);
    assert(upper(trim(kk)) == kk);
    assert(!Seq::<u16>::empty().contains(m));
    assert(Seq::<u16>::empty().push(m) =~= seq![m]);
    assert(parse_parts(Seq::<Seq<char>>::empty()) == Some((Seq::<u16>::empty(), None::<u16>)));
    assert(parse_parts(seq![a]) == Some((seq![m], None::<u16>)));
    assert(parse_parts(parts) == Some((seq![m], Some(letter as u16))));
    assert(seq![m].push(letter as u16) =~= seq![m, letter as u16]);
}

/// Key names and their short forms read alike, in any letter case and with surrounding
/// spaces: Esc and Escape are 0x1B, Del and Delete 0x2E, Ins and Insert 0x2D, Return and
/// Enter 0x0D, PgUp and PageUp 0x21, PgDn and PageDown 0x22.
pub proof fn lemma_key_aliases(n: Seq<char>)
    requires
        !n.contains('+'),
        encode_utf8(n).len() <= 80,
    ensures
        upper(trim(n)) == "ESC"@ || upper(trim(n)) == "ESCAPE"@ ==> spec_shortcut(n) == Some(seq![0x1bu16]),
        upper(trim(n)) == "DEL"@ || upper(trim(n)) == "DELETE"@ ==> spec_shortcut(n) == Some(seq![0x2eu16]),
        upper(trim(n)) == "INS"@ || upper(trim(n)) == "INSERT"@ ==> spec_shortcut(n) == Some(seq![0x2du16]),
        upper(trim(n)) == "RETURN"@ || upper(trim(n)) == "ENTER"@ ==> spec_shortcut(n) == Some(seq![0x0du16]),
        upper(trim(n)) == "PGUP"@ || upper(trim(n)) == "PAGEUP"@ ==> spec_shortcut(n) == Some(seq![0x21u16]),
        upper(trim(n)) == "PGDN"@ || upper(trim(n)) == "PAGEDOWN"@ ==> spec_shortcut(n) == Some(seq![0x22u16]),
{
    lemma_alias_codes();
    let name = upper(trim(n));
    if let Some(k) = key_code(name) {
        if modifier_code(name) is None {
            lemma_one_part_chord(n, k);
        }
    }
}

/// A part without spaces or `+` that names a key, written in any letter case, is that key.
proof fn lemma_named_text(t: Seq<char>, k: u16)
    requires
        0 < t.len() <= 20,
        !is_ws(t[0]),
        !is_ws(t.last()),
        !t.contains('+'),
        modifier_code(upper(t)) is None,
        key_code(upper(t)) == Some(k),
    ensures
        spec_shortcut(t) == Some(seq![k]),
{
    lemma_plain_name(t);
    lemma_encode_len(t);
    lemma_one_part_chord(t, k);
}

#[verifier::spinoff_prover]
proof fn lemma_escape_delete_texts()
    ensures
        spec_shortcut("Esc"@) == Some(seq![0x1bu16]),
        spec_shortcut("Escape"@) == Some(seq![0x1bu16]),
        spec_shortcut("Del"@) == Some(seq![0x2eu16]),
        spec_shortcut("Delete"@) == Some(seq![0x2eu16]),
{
    lemma_alias_codes();
    assert(spec_shortcut("Esc"@) == Some(seq![0x1bu16])) by {
        reveal_strlit("Esc");
        reveal_strlit("ESC");
        let t = "Esc"@;
        assert(upper(t) =~= "ESC"@);
        assert(!t.contains('+')) by {
            if t.contains('+') {
                let i = choose|i: int| 0 <= i < t.len() && t[i] == '+';
            }
        }
        lemma_named_text(t, 0x1bu16);
    }
    assert(spec_shortcut("Escape"@) == Some(seq![0x1bu16])) by {
        reveal_strlit("Escape");
        reveal_strlit("ESCAPE");
        let t = "Escape"@;
        assert(upper(t) =~= "ESCAPE"@);
        assert(!t.contains('+')) by {
            if t.contains('+') {
                let i = choose|i: int| 0 <= i < t.len() && t[i] == '+';
            }
        }
        lemma_named_text(t, 0x1bu16);
    }
    assert(spec_shortcut("Del"@) == Some(seq![0x2eu16])) by {
        reveal_strlit("Del");
        reveal_strlit("DEL");
        let t = "Del"@;
        assert(upper(t) =~= "DEL"@);
        assert(!t.contains('+')) by {
            if t.contains('+') {
                let i = choose|i: int| 0 <= i < t.len() && t[i] == '+';
            }
        }
        lemma_named_text(t, 0x2eu16);
    }
    assert(spec_shortcut("Delete"@) == Some(seq![0x2eu16])) by {
        reveal_strlit("Delete");
        reveal_strlit("DELETE");
        let t = "Delete"@;
        assert(upper(t) =~= "DELETE"@);
        assert(!t.contains('+')) by {
            if t.contains('+') {
                let i = choose|i: int| 0 <= i < t.len() && t[i] == '+';
            }
        }
        lemma_named_text(t, 0x2eu16);
    }
}

#[verifier::spinoff_prover]
proof fn lemma_insert_enter_page_texts()
    ensures
        spec_shortcut("Ins"@) == Some(seq![0x2du16]),
        spec_shortcut("Return"@) == Some(seq![0x0du16]),
        spec_shortcut("Enter"@) == Some(seq![0x0du16]),
        spec_shortcut("PgUp"@) == Some(seq![0x21u16]),
        spec_shortcut("PgDn"@) == Some(seq![0x22u16]),
{
    lemma_alias_codes();
    assert(spec_shortcut("Ins"@) == Some(seq![0x2du16])) by {
        reveal_strlit("Ins");
        reveal_strlit("INS");
        let t = "Ins"@;
        assert(upper(t) =~= "INS"@);
        assert(!t.contains('+')) by {
            if t.contains('+') {
                let i = choose|i: int| 0 <= i < t.len() && t[i] == '+';
            }
        }
        lemma_named_text(t, 0x2du16);
    }
    assert(spec_shortcut("Return"@) == Some(seq![0x0du16])) by {
        reveal_strlit("Return");
        reveal_strlit("RETURN");
        let t = "Return"@;
        assert(upper(t) =~= "RETURN"@);
        assert(!t.contains('+')) by {
            if t.contains('+') {
                let i = choose|i: int| 0 <= i < t.len() && t[i] == '+';
            }
        }
        lemma_named_text(t, 0x0du16);
    }
    assert(spec_shortcut("Enter"@) == Some(seq![0x0du16])) by {
        reveal_strlit("Enter");
        reveal_strlit("ENTER");
        let t = "Enter"@;
        assert(upper(t) =~= "ENTER"@);
        assert(!t.contains('+')) by {
            if t.contains('+') {
                let i = choose|i: int| 0 <= i < t.len() && t[i] == '+';
            }
        }
        lemma_named_text(t, 0x0du16);
    }
    assert(spec_shortcut("PgUp"@) == Some(seq![0x21u16])) by {
        reveal_strlit("PgUp");
        reveal_strlit("PGUP");
        let t = "PgUp"@;
        assert(upper(t) =~= "PGUP"@);
        assert(!t.contains('+')) by {
            if t.contains('+') {
                let i = choose|i: int| 0 <= i < t.len() && t[i] == '+';
            }
        }
        lemma_named_text(t, 0x21u16);
    }
    assert(spec_shortcut("PgDn"@) == Some(seq![0x22u16])) by {
        reveal_strlit("PgDn");
        reveal_strlit("PGDN");
        let t = "PgDn"@;
        assert(upper(t) =~= "PGDN"@);
        assert(!t.contains('+')) by {
            if t.contains('+') {
                let i = choose|i: int| 0 <= i < t.len() && t[i] == '+';
            }
        }
        lemma_named_text(t, 0x22u16);
    }
}

#[verifier::spinoff_prover]
proof fn lemma_modifier_texts()
    ensures
        spec_shortcut("Control+Z"@) == Some(seq![0x11u16, 0x5au16]),
        spec_shortcut("Windows+E"@) == Some(seq![0x5bu16, 0x45u16]),
{
    lemma_alias_codes();
    assert(spec_shortcut("Control+Z"@) == Some(seq![0x11u16, 0x5au16])) by {
        reveal_strlit("Control+Z");
        reveal_strlit("Control");
        reveal_strlit("CONTROL");
        let a = "Control"@;
        let whole = a + seq!['+'] + seq!['Z'];
        assert("Control+Z"@ =~= whole);
        lemma_plain_name(a);
        assert(upper(a) =~= "CONTROL"@);
        assert(!a.contains('+')) by {
            if a.contains('+') {
                let i = choose|i: int| 0 <= i < a.len() && a[i] == '+';
            }
        }
        lemma_encode_len(whole);
        lemma_modifier_aliases(a, 'Z');
    }
    assert(spec_shortcut("Windows+E"@) == Some(seq![0x5bu16, 0x45u16])) by {
        reveal_strlit("Windows+E");
        reveal_strlit("Windows");
        reveal_strlit("WINDOWS");
        let a = "Windows"@;
        let whole = a + seq!['+'] + seq!['E'];
        assert("Windows+E"@ =~= whole);
        lemma_plain_name(a);
        assert(upper(a) =~= "WINDOWS"@);
        assert(!a.contains('+')) by {
            if a.contains('+') {
                let i = choose|i: int| 0 <= i < a.len() && a[i] == '+';
            }
        }
        lemma_encode_len(whole);
        lemma_modifier_aliases(a, 'E');
    }
}

/// The short and long key names as a user writes them: `Esc` and `Escape` are Escape,
/// `Del` and `Delete` are Delete, `Ins` is Insert, `Return` and `Enter` are Enter, `PgUp`
/// is Page Up and `PgDn` Page Down; `Control+Z` is `Ctrl+Z` and `Windows+E` is `Win+E`.
pub proof fn lemma_alias_texts()
    ensures
        spec_shortcut("Esc"@) == Some(seq![0x1bu16]),
        spec_shortcut("Escape"@) == Some(seq![0x1bu16]),
        spec_shortcut("Del"@) == Some(seq![0x2eu16]),
        spec_shortcut("Delete"@) == Some(seq![0x2eu16]),
        spec_shortcut("Ins"@) == Some(seq![0x2du16]),
        spec_shortcut("Return"@) == Some(seq![0x0du16]),
        spec_shortcut("Enter"@) == Some(seq![0x0du16]),
        spec_shortcut("PgUp"@) == Some(seq![0x21u16]),
        spec_shortcut("PgDn"@) == Some(seq![0x22u16]),
        spec_shortcut("Control+Z"@) == Some(seq![0x11u16, 0x5au16]),
        spec_shortcut("Windows+E"@) == Some(seq![0x5bu16, 0x45u16]),
{
    lemma_escape_delete_texts();
    lemma_insert_enter_page_texts();
    lemma_modifier_texts();
}

/// Modifier names and their long forms read alike, in any letter case and with surrounding
/// spaces: Ctrl and Control are 0x11, Win and Windows 0x5B (and Shift 0x10, Alt 0x12); with
/// a letter after them, the chord is the modifier then the letter.
pub proof fn lemma_modifier_aliases(a: Seq<char>, letter: char)
    requires
        !a.contains('+'),
        encode_utf8(a + seq!['+'] + seq![letter]).len() <= 80,
        'A' <= letter <= 'Z',
    ensures
        upper(trim(a)) == "CTRL"@ || upper(trim(a)) == "CONTROL"@ ==> spec_shortcut(a + seq!['+'] + seq![letter])
            == Some(seq![0x11u16, letter as u16]),
        upper(trim(a)) == "WIN"@ || upper(trim(a)) == "WINDOWS"@ ==> spec_shortcut(a + seq!['+'] + seq![letter])
            == Some(seq![0x5bu16, letter as u16]),
        upper(trim(a)) == "SHIFT"@ ==> spec_shortcut(a + seq!['+'] + seq![letter]) == Some(seq![0x10u16, letter as u16]),
        upper(trim(a)) == "ALT"@ ==> spec_shortcut(a + seq!['+'] + seq![letter]) == Some(seq![0x12u16, letter as u16]),
{
    lemma_alias_codes();
    if let Some(m) = modifier_code(upper(trim(a))) {
        lemma_modifier_letter_chord(a, m, letter);
    }
}

} // verus!
