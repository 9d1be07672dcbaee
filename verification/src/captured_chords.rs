//! A captured chord reads back as what was captured: the text `captured_shortcut` builds
//! from a key and the held modifiers is accepted by the shortcut parser, which returns
//! the modifiers' keys in order followed by the key itself.
use vstd::prelude::*;
use crate::button_actions::{
    chord_text, held_modifiers, join_plus, all_digits, decimal_text, decimal_value, digit_char, key_code, key_name, modifier_code, modifier_name,
    named_code,
    parse_parts, spec_shortcut, split_plus,
};
use crate::text::{trim, trim_end, trim_start, upper, upper_char};

verus! {

/// The text has no `+`.
pub open spec fn plus_free(t: Seq<char>) -> bool {
    forall|i: int| 0 <= i < t.len() ==> t[i] != '+'
}

proof fn lemma_split_plus_free(t: Seq<char>)
    requires
        plus_free(t),
    ensures
        split_plus(t) == seq![t],
    decreases t.len(),
{
    if t.len() > 0 {
        let u = t.drop_last();
        assert forall|i: int| 0 <= i < u.len() implies u[i] != '+' by {
            assert(u[i] == t[i]);
        }
        lemma_split_plus_free(u);
        assert(t.last() != '+');
        assert(u.push(t.last()) =~= t);
        assert(seq![u].update(0, u.push(t.last())) =~= seq![t]);
    } else {
        assert(t =~= Seq::<char>::empty());
    }
}

proof fn lemma_split_after_plus(s: Seq<char>, t: Seq<char>)
    requires
        plus_free(t),
    ensures
        split_plus(s.push('+') + t) == split_plus(s).push(t),
    decreases t.len(),
{
    if t.len() == 0 {
        assert(s.push('+') + t =~= s.push('+'));
        assert((s.push('+')).drop_last() =~= s);
        assert(t =~= Seq::<char>::empty());
        assert(split_plus(s.push('+')) == split_plus(s).push(seq![]));
    } else {
        let u = t.drop_last();
        assert forall|i: int| 0 <= i < u.len() implies u[i] != '+' by {
            assert(u[i] == t[i]);
        }
        lemma_split_after_plus(s, u);
        let x = s.push('+') + t;
        assert(x.drop_last() =~= s.push('+') + u);
        assert(x.last() == t.last());
        assert(t.last() != '+');
        assert(u.push(t.last()) =~= t);
        let r = split_plus(s).push(u);
        assert(split_plus(x) == r.update(r.len() - 1, r.last().push(x.last())));
        assert(r.last() == u);
        assert(r.update(r.len() - 1, u.push(t.last())) =~= split_plus(s).push(t));
    }
}

/// Joining `+`-free parts with `+` and splitting the text again gives back the parts.
proof fn lemma_split_join(parts: Seq<Seq<char>>)
    requires
        parts.len() >= 1,
        forall|i: int| 0 <= i < parts.len() ==> plus_free(#[trigger] parts[i]),
    ensures
        split_plus(join_plus(parts)) == parts,
    decreases parts.len(),
{
    if parts.len() == 1 {
        lemma_split_plus_free(parts[0]);
        assert(parts =~= seq![parts[0]]);
    } else {
        let init = parts.drop_last();
        assert forall|i: int| 0 <= i < init.len() implies plus_free(#[trigger] init[i]) by {
            assert(init[i] == parts[i]);
        }
        lemma_split_join(init);
        assert(plus_free(parts[parts.len() - 1]));
        lemma_split_after_plus(join_plus(init), parts.last());
        assert(init.push(parts.last()) =~= parts);
    }
}

/// The key of modifier `i` in the order Ctrl, Shift, Alt, Win.
pub open spec fn modifier_vk(i: int) -> u16 {
    if i == 0 {
        0x11
    } else if i == 1 {
        0x10
    } else if i == 2 {
        0x12
    } else {
        0x5b
    }
}

/// The keys of the held modifiers among the first `n`, in order.
pub open spec fn held_codes(m: Seq<bool>, n: int) -> Seq<u16>
    decreases n,
{
    if n <= 0 {
        seq![]
    } else {
        held_codes(m, n - 1) + if m[n - 1] {
            seq![modifier_vk(n - 1)]
        } else {
            seq![]
        }
    }
}

/// A name as the parser reads it: trimmed and in upper case.
pub open spec fn read_name(name: Seq<char>) -> Seq<char> {
    upper(trim(name))
}

/// A name without surrounding whitespace or `+`, in ASCII.
pub open spec fn plain_name(name: Seq<char>) -> bool {
    &&& name.len() >= 1
    &&& trim(name) == name
    &&& plus_free(name)
    &&& vstd::utf8::is_ascii_chars(name)
}

proof fn lemma_plain(name: Seq<char>)
    requires
        name.len() >= 1,
        forall|i: int| 0 <= i < name.len() ==> ('0' <= #[trigger] name[i] <= '9' || 'A' <= name[i] <= 'Z' || 'a'
            <= name[i] <= 'z'),
    ensures
        plain_name(name),
{
    assert(trim_start(name) == name);
    assert(trim_end(name) == name);
}

proof fn lemma_modifier_name(i: int)
    requires
        0 <= i < 4,
    ensures
        plain_name(modifier_name(i)),
        modifier_name(i).len() <= 5,
        modifier_code(read_name(modifier_name(i))) == Some(modifier_vk(i)),
{
    reveal_strlit("Ctrl");
    reveal_strlit("Shift");
    reveal_strlit("Alt");
    reveal_strlit("Win");
    reveal_strlit("CTRL");
    reveal_strlit("CONTROL");
    reveal_strlit("SHIFT");
    reveal_strlit("ALT");
    reveal_strlit("WIN");
    reveal_strlit("WINDOWS");
    let name = modifier_name(i);
    lemma_plain(name);
    assert(read_name(name) == upper(name));
    if i == 0 {
        assert(upper(name) =~= "CTRL"@);
    } else if i == 1 {
        assert(upper(name) =~= "SHIFT"@);
        assert("SHIFT"@ != "CTRL"@ && "SHIFT"@ != "CONTROL"@);
    } else if i == 2 {
        assert(upper(name) =~= "ALT"@);
        assert("ALT"@ != "CTRL"@ && "ALT"@ != "CONTROL"@ && "ALT"@ != "SHIFT"@);
    } else {
        assert(upper(name) =~= "WIN"@);
        assert("WIN"@[0] != "ALT"@[0]);
        assert("WIN"@ != "CTRL"@ && "WIN"@ != "CONTROL"@ && "WIN"@ != "SHIFT"@ && "WIN"@ != "ALT"@);
    }
}

/// What the parser needs of a key's name: a plain name that reads as no modifier and as
/// the key itself.
pub open spec fn reads_back(key: u16) -> bool {
    &&& key_name(key) is Some
    &&& plain_name(key_name(key)->0)
    &&& key_name(key)->0.len() <= 12
    &&& modifier_code(read_name(key_name(key)->0)) is None
    &&& key_code(read_name(key_name(key)->0)) == Some(key)
}

proof fn lemma_backspace_reads_back()
    ensures
        reads_back(0x8),
{
    reveal_strlit("Backspace");
    reveal_strlit("BACKSPACE");
    reveal_strlit("CTRL");
    reveal_strlit("CONTROL");
    reveal_strlit("SHIFT");
    reveal_strlit("ALT");
    reveal_strlit("WIN");
    reveal_strlit("WINDOWS");
    reveal_strlit("SPACE");
    reveal_strlit("ENTER");
    reveal_strlit("RETURN");
    reveal_strlit("TAB");
    reveal_strlit("ESC");
    reveal_strlit("ESCAPE");
    lemma_plain("Backspace"@);
    assert(upper("Backspace"@) =~= "BACKSPACE"@);
    assert(read_name("Backspace"@) == "BACKSPACE"@);
}

proof fn lemma_tab_reads_back()
    ensures
        reads_back(0x9),
{
    reveal_strlit("Tab");
    reveal_strlit("TAB");
    reveal_strlit("CTRL");
    reveal_strlit("CONTROL");
    reveal_strlit("SHIFT");
    reveal_strlit("ALT");
    reveal_strlit("WIN");
    reveal_strlit("WINDOWS");
    reveal_strlit("SPACE");
    reveal_strlit("ENTER");
    reveal_strlit("RETURN");
    assert("TAB"@[0] != "ALT"@[0]);
    assert("TAB"@[0] != "WIN"@[0]);
    lemma_plain("Tab"@);
    assert(upper("Tab"@) =~= "TAB"@);
    assert(read_name("Tab"@) == "TAB"@);
}

proof fn lemma_enter_reads_back()
    ensures
        reads_back(0xd),
{
    reveal_strlit("Enter");
    reveal_strlit("ENTER");
    reveal_strlit("CTRL");
    reveal_strlit("CONTROL");
    reveal_strlit("SHIFT");
    reveal_strlit("ALT");
    reveal_strlit("WIN");
    reveal_strlit("WINDOWS");
    reveal_strlit("SPACE");
    assert("ENTER"@[0] != "SHIFT"@[0]);
    assert("ENTER"@[0] != "SPACE"@[0]);
    lemma_plain("Enter"@);
    assert(upper("Enter"@) =~= "ENTER"@);
    assert(read_name("Enter"@) == "ENTER"@);
}

proof fn lemma_escape_reads_back()
    ensures
        reads_back(0x1b),
{
    reveal_strlit("Escape");
    reveal_strlit("ESCAPE");
    reveal_strlit("CTRL");
    reveal_strlit("CONTROL");
    reveal_strlit("SHIFT");
    reveal_strlit("ALT");
    reveal_strlit("WIN");
    reveal_strlit("WINDOWS");
    reveal_strlit("SPACE");
    reveal_strlit("ENTER");
    reveal_strlit("RETURN");
    reveal_strlit("TAB");
    reveal_strlit("ESC");
    assert("ESCAPE"@[0] != "RETURN"@[0]);
    lemma_plain("Escape"@);
    assert(upper("Escape"@) =~= "ESCAPE"@);
    assert(read_name("Escape"@) == "ESCAPE"@);
}

proof fn lemma_space_reads_back()
    ensures
        reads_back(0x20),
{
    reveal_strlit("Space");
    reveal_strlit("SPACE");
    reveal_strlit("CTRL");
    reveal_strlit("CONTROL");
    reveal_strlit("SHIFT");
    reveal_strlit("ALT");
    reveal_strlit("WIN");
    reveal_strlit("WINDOWS");
    assert("SPACE"@[1] != "SHIFT"@[1]);
    lemma_plain("Space"@);
    assert(upper("Space"@) =~= "SPACE"@);
    assert(read_name("Space"@) == "SPACE"@);
}

proof fn lemma_page_up_reads_back()
    ensures
        reads_back(0x21),
{
    reveal_strlit("PageUp");
    reveal_strlit("PAGEUP");
    reveal_strlit("CTRL");
    reveal_strlit("CONTROL");
    reveal_strlit("SHIFT");
    reveal_strlit("ALT");
    reveal_strlit("WIN");
    reveal_strlit("WINDOWS");
    reveal_strlit("SPACE");
    reveal_strlit("ENTER");
    reveal_strlit("RETURN");
    reveal_strlit("TAB");
    reveal_strlit("ESC");
    reveal_strlit("ESCAPE");
    reveal_strlit("BACKSPACE");
    reveal_strlit("DELETE");
    reveal_strlit("DEL");
    reveal_strlit("INSERT");
    reveal_strlit("INS");
    reveal_strlit("HOME");
    reveal_strlit("END");
    assert("PAGEUP"@[0] != "RETURN"@[0]);
    assert("PAGEUP"@[0] != "ESCAPE"@[0]);
    assert("PAGEUP"@[0] != "DELETE"@[0]);
    assert("PAGEUP"@[0] != "INSERT"@[0]);
    lemma_plain("PageUp"@);
    assert(upper("PageUp"@) =~= "PAGEUP"@);
    assert(read_name("PageUp"@) == "PAGEUP"@);
}

proof fn lemma_page_down_reads_back()
    ensures
        reads_back(0x22),
{
    reveal_strlit("PageDown");
    reveal_strlit("PAGEDOWN");
    reveal_strlit("CTRL");
    reveal_strlit("CONTROL");
    reveal_strlit("SHIFT");
    reveal_strlit("ALT");
    reveal_strlit("WIN");
    reveal_strlit("WINDOWS");
    reveal_strlit("SPACE");
    reveal_strlit("ENTER");
    reveal_strlit("RETURN");
    reveal_strlit("TAB");
    reveal_strlit("ESC");
    reveal_strlit("ESCAPE");
    reveal_strlit("BACKSPACE");
    reveal_strlit("DELETE");
    reveal_strlit("DEL");
    reveal_strlit("INSERT");
    reveal_strlit("INS");
    reveal_strlit("HOME");
    reveal_strlit("END");
    reveal_strlit("PAGEUP");
    reveal_strlit("PGUP");
    lemma_plain("PageDown"@);
    assert(upper("PageDown"@) =~= "PAGEDOWN"@);
    assert(read_name("PageDown"@) == "PAGEDOWN"@);
}

proof fn lemma_end_reads_back()
    ensures
        reads_back(0x23),
{
    reveal_strlit("End");
    reveal_strlit("END");
    reveal_strlit("CTRL");
    reveal_strlit("CONTROL");
    reveal_strlit("SHIFT");
    reveal_strlit("ALT");
    reveal_strlit("WIN");
    reveal_strlit("WINDOWS");
    reveal_strlit("SPACE");
    reveal_strlit("ENTER");
    reveal_strlit("RETURN");
    reveal_strlit("TAB");
    reveal_strlit("ESC");
    reveal_strlit("ESCAPE");
    reveal_strlit("BACKSPACE");
    reveal_strlit("DELETE");
    reveal_strlit("DEL");
    reveal_strlit("INSERT");
    reveal_strlit("INS");
    reveal_strlit("HOME");
    assert("END"@[0] != "ALT"@[0]);
    assert("END"@[0] != "WIN"@[0]);
    assert("END"@[0] != "TAB"@[0]);
    assert("END"@[1] != "ESC"@[1]);
    assert("END"@[0] != "DEL"@[0]);
    assert("END"@[0] != "INS"@[0]);
    lemma_plain("End"@);
    assert(upper("End"@) =~= "END"@);
    assert(read_name("End"@) == "END"@);
}

proof fn lemma_home_reads_back()
    ensures
        reads_back(0x24),
{
    reveal_strlit("Home");
    reveal_strlit("HOME");
    reveal_strlit("CTRL");
    reveal_strlit("CONTROL");
    reveal_strlit("SHIFT");
    reveal_strlit("ALT");
    reveal_strlit("WIN");
    reveal_strlit("WINDOWS");
    reveal_strlit("SPACE");
    reveal_strlit("ENTER");
    reveal_strlit("RETURN");
    reveal_strlit("TAB");
    reveal_strlit("ESC");
    reveal_strlit("ESCAPE");
    reveal_strlit("BACKSPACE");
    reveal_strlit("DELETE");
    reveal_strlit("DEL");
    reveal_strlit("INSERT");
    reveal_strlit("INS");
    assert("HOME"@[0] != "CTRL"@[0]);
    lemma_plain("Home"@);
    assert(upper("Home"@) =~= "HOME"@);
    assert(read_name("Home"@) == "HOME"@);
}

proof fn lemma_left_reads_back()
    ensures
        reads_back(0x25),
{
    reveal_strlit("Left");
    reveal_strlit("LEFT");
    reveal_strlit("CTRL");
    reveal_strlit("CONTROL");
    reveal_strlit("SHIFT");
    reveal_strlit("ALT");
    reveal_strlit("WIN");
    reveal_strlit("WINDOWS");
    reveal_strlit("SPACE");
    reveal_strlit("ENTER");
    reveal_strlit("RETURN");
    reveal_strlit("TAB");
    reveal_strlit("ESC");
    reveal_strlit("ESCAPE");
    reveal_strlit("BACKSPACE");
    reveal_strlit("DELETE");
    reveal_strlit("DEL");
    reveal_strlit("INSERT");
    reveal_strlit("INS");
    reveal_strlit("HOME");
    reveal_strlit("END");
    reveal_strlit("PAGEUP");
    reveal_strlit("PGUP");
    reveal_strlit("PAGEDOWN");
    reveal_strlit("PGDN");
    assert("LEFT"@[0] != "CTRL"@[0]);
    assert("LEFT"@[0] != "HOME"@[0]);
    assert("LEFT"@[0] != "PGUP"@[0]);
    assert("LEFT"@[0] != "PGDN"@[0]);
    lemma_plain("Left"@);
    assert(upper("Left"@) =~= "LEFT"@);
    assert(read_name("Left"@) == "LEFT"@);
}

proof fn lemma_up_reads_back()
    ensures
        reads_back(0x26),
{
    reveal_strlit("Up");
    reveal_strlit("UP");
    reveal_strlit("CTRL");
    reveal_strlit("CONTROL");
    reveal_strlit("SHIFT");
    reveal_strlit("ALT");
    reveal_strlit("WIN");
    reveal_strlit("WINDOWS");
    reveal_strlit("SPACE");
    reveal_strlit("ENTER");
    reveal_strlit("RETURN");
    reveal_strlit("TAB");
    reveal_strlit("ESC");
    reveal_strlit("ESCAPE");
    reveal_strlit("BACKSPACE");
    reveal_strlit("DELETE");
    reveal_strlit("DEL");
    reveal_strlit("INSERT");
    reveal_strlit("INS");
    reveal_strlit("HOME");
    reveal_strlit("END");
    reveal_strlit("PAGEUP");
    reveal_strlit("PGUP");
    reveal_strlit("PAGEDOWN");
    reveal_strlit("PGDN");
    reveal_strlit("LEFT");
    lemma_plain("Up"@);
    assert(upper("Up"@) =~= "UP"@);
    assert(read_name("Up"@) == "UP"@);
}

proof fn lemma_right_reads_back()
    ensures
        reads_back(0x27),
{
    reveal_strlit("Right");
    reveal_strlit("RIGHT");
    reveal_strlit("CTRL");
    reveal_strlit("CONTROL");
    reveal_strlit("SHIFT");
    reveal_strlit("ALT");
    reveal_strlit("WIN");
    reveal_strlit("WINDOWS");
    reveal_strlit("SPACE");
    reveal_strlit("ENTER");
    reveal_strlit("RETURN");
    reveal_strlit("TAB");
    reveal_strlit("ESC");
    reveal_strlit("ESCAPE");
    reveal_strlit("BACKSPACE");
    reveal_strlit("DELETE");
    reveal_strlit("DEL");
    reveal_strlit("INSERT");
    reveal_strlit("INS");
    reveal_strlit("HOME");
    reveal_strlit("END");
    reveal_strlit("PAGEUP");
    reveal_strlit("PGUP");
    reveal_strlit("PAGEDOWN");
    reveal_strlit("PGDN");
    reveal_strlit("LEFT");
    reveal_strlit("UP");
    assert("RIGHT"@[0] != "SHIFT"@[0]);
    assert("RIGHT"@[0] != "SPACE"@[0]);
    assert("RIGHT"@[0] != "ENTER"@[0]);
    lemma_plain("Right"@);
    assert(upper("Right"@) =~= "RIGHT"@);
    assert(read_name("Right"@) == "RIGHT"@);
}

proof fn lemma_down_reads_back()
    ensures
        reads_back(0x28),
{
    reveal_strlit("Down");
    reveal_strlit("DOWN");
    reveal_strlit("CTRL");
    reveal_strlit("CONTROL");
    reveal_strlit("SHIFT");
    reveal_strlit("ALT");
    reveal_strlit("WIN");
    reveal_strlit("WINDOWS");
    reveal_strlit("SPACE");
    reveal_strlit("ENTER");
    reveal_strlit("RETURN");
    reveal_strlit("TAB");
    reveal_strlit("ESC");
    reveal_strlit("ESCAPE");
    reveal_strlit("BACKSPACE");
    reveal_strlit("DELETE");
    reveal_strlit("DEL");
    reveal_strlit("INSERT");
    reveal_strlit("INS");
    reveal_strlit("HOME");
    reveal_strlit("END");
    reveal_strlit("PAGEUP");
    reveal_strlit("PGUP");
    reveal_strlit("PAGEDOWN");
    reveal_strlit("PGDN");
    reveal_strlit("LEFT");
    reveal_strlit("UP");
    reveal_strlit("RIGHT");
    assert("DOWN"@[0] != "CTRL"@[0]);
    assert("DOWN"@[0] != "HOME"@[0]);
    assert("DOWN"@[0] != "PGUP"@[0]);
    assert("DOWN"@[0] != "PGDN"@[0]);
    assert("DOWN"@[0] != "LEFT"@[0]);
    lemma_plain("Down"@);
    assert(upper("Down"@) =~= "DOWN"@);
    assert(read_name("Down"@) == "DOWN"@);
}

proof fn lemma_insert_reads_back()
    ensures
        reads_back(0x2d),
{
    reveal_strlit("Insert");
    reveal_strlit("INSERT");
    reveal_strlit("CTRL");
    reveal_strlit("CONTROL");
    reveal_strlit("SHIFT");
    reveal_strlit("ALT");
    reveal_strlit("WIN");
    reveal_strlit("WINDOWS");
    reveal_strlit("SPACE");
    reveal_strlit("ENTER");
    reveal_strlit("RETURN");
    reveal_strlit("TAB");
    reveal_strlit("ESC");
    reveal_strlit("ESCAPE");
    reveal_strlit("BACKSPACE");
    reveal_strlit("DELETE");
    reveal_strlit("DEL");
    assert("INSERT"@[0] != "RETURN"@[0]);
    assert("INSERT"@[0] != "ESCAPE"@[0]);
    assert("INSERT"@[0] != "DELETE"@[0]);
    lemma_plain("Insert"@);
    assert(upper("Insert"@) =~= "INSERT"@);
    assert(read_name("Insert"@) == "INSERT"@);
}

proof fn lemma_delete_reads_back()
    ensures
        reads_back(0x2e),
{
    reveal_strlit("Delete");
    reveal_strlit("DELETE");
    reveal_strlit("CTRL");
    reveal_strlit("CONTROL");
    reveal_strlit("SHIFT");
    reveal_strlit("ALT");
    reveal_strlit("WIN");
    reveal_strlit("WINDOWS");
    reveal_strlit("SPACE");
    reveal_strlit("ENTER");
    reveal_strlit("RETURN");
    reveal_strlit("TAB");
    reveal_strlit("ESC");
    reveal_strlit("ESCAPE");
    reveal_strlit("BACKSPACE");
    assert("DELETE"@[0] != "RETURN"@[0]);
    assert("DELETE"@[0] != "ESCAPE"@[0]);
    lemma_plain("Delete"@);
    assert(upper("Delete"@) =~= "DELETE"@);
    assert(read_name("Delete"@) == "DELETE"@);
}

proof fn lemma_multiply_reads_back()
    ensures
        reads_back(0x6a),
{
    reveal_strlit("Multiply");
    reveal_strlit("MULTIPLY");
    reveal_strlit("CTRL");
    reveal_strlit("CONTROL");
    reveal_strlit("SHIFT");
    reveal_strlit("ALT");
    reveal_strlit("WIN");
    reveal_strlit("WINDOWS");
    reveal_strlit("SPACE");
    reveal_strlit("ENTER");
    reveal_strlit("RETURN");
    reveal_strlit("TAB");
    reveal_strlit("ESC");
    reveal_strlit("ESCAPE");
    reveal_strlit("BACKSPACE");
    reveal_strlit("DELETE");
    reveal_strlit("DEL");
    reveal_strlit("INSERT");
    reveal_strlit("INS");
    reveal_strlit("HOME");
    reveal_strlit("END");
    reveal_strlit("PAGEUP");
    reveal_strlit("PGUP");
    reveal_strlit("PAGEDOWN");
    reveal_strlit("PGDN");
    reveal_strlit("LEFT");
    reveal_strlit("UP");
    reveal_strlit("RIGHT");
    reveal_strlit("DOWN");
    reveal_strlit("SEMICOLON");
    reveal_strlit("PLUS");
    reveal_strlit("COMMA");
    reveal_strlit("MINUS");
    reveal_strlit("PERIOD");
    reveal_strlit("SLASH");
    reveal_strlit("BACKTICK");
    reveal_strlit("LEFTBRACKET");
    reveal_strlit("BACKSLASH");
    reveal_strlit("RIGHTBRACKET");
    reveal_strlit("QUOTE");
    assert("MULTIPLY"@[0] != "PAGEDOWN"@[0]);
    assert("MULTIPLY"@[0] != "BACKTICK"@[0]);
    lemma_plain("Multiply"@);
    assert(upper("Multiply"@) =~= "MULTIPLY"@);
    assert(read_name("Multiply"@) == "MULTIPLY"@);
}

proof fn lemma_add_reads_back()
    ensures
        reads_back(0x6b),
{
    reveal_strlit("Add");
    reveal_strlit("ADD");
    reveal_strlit("CTRL");
    reveal_strlit("CONTROL");
    reveal_strlit("SHIFT");
    reveal_strlit("ALT");
    reveal_strlit("WIN");
    reveal_strlit("WINDOWS");
    reveal_strlit("SPACE");
    reveal_strlit("ENTER");
    reveal_strlit("RETURN");
    reveal_strlit("TAB");
    reveal_strlit("ESC");
    reveal_strlit("ESCAPE");
    reveal_strlit("BACKSPACE");
    reveal_strlit("DELETE");
    reveal_strlit("DEL");
    reveal_strlit("INSERT");
    reveal_strlit("INS");
    reveal_strlit("HOME");
    reveal_strlit("END");
    reveal_strlit("PAGEUP");
    reveal_strlit("PGUP");
    reveal_strlit("PAGEDOWN");
    reveal_strlit("PGDN");
    reveal_strlit("LEFT");
    reveal_strlit("UP");
    reveal_strlit("RIGHT");
    reveal_strlit("DOWN");
    reveal_strlit("SEMICOLON");
    reveal_strlit("PLUS");
    reveal_strlit("COMMA");
    reveal_strlit("MINUS");
    reveal_strlit("PERIOD");
    reveal_strlit("SLASH");
    reveal_strlit("BACKTICK");
    reveal_strlit("LEFTBRACKET");
    reveal_strlit("BACKSLASH");
    reveal_strlit("RIGHTBRACKET");
    reveal_strlit("QUOTE");
    reveal_strlit("MULTIPLY");
    assert("ADD"@[1] != "ALT"@[1]);
    assert("ADD"@[0] != "WIN"@[0]);
    assert("ADD"@[0] != "TAB"@[0]);
    assert("ADD"@[0] != "ESC"@[0]);
    assert("ADD"@[0] != "DEL"@[0]);
    assert("ADD"@[0] != "INS"@[0]);
    assert("ADD"@[0] != "END"@[0]);
    lemma_plain("Add"@);
    assert(upper("Add"@) =~= "ADD"@);
    assert(read_name("Add"@) == "ADD"@);
}

proof fn lemma_subtract_reads_back()
    ensures
        reads_back(0x6d),
{
    reveal_strlit("Subtract");
    reveal_strlit("SUBTRACT");
    reveal_strlit("CTRL");
    reveal_strlit("CONTROL");
    reveal_strlit("SHIFT");
    reveal_strlit("ALT");
    reveal_strlit("WIN");
    reveal_strlit("WINDOWS");
    reveal_strlit("SPACE");
    reveal_strlit("ENTER");
    reveal_strlit("RETURN");
    reveal_strlit("TAB");
    reveal_strlit("ESC");
    reveal_strlit("ESCAPE");
    reveal_strlit("BACKSPACE");
    reveal_strlit("DELETE");
    reveal_strlit("DEL");
    reveal_strlit("INSERT");
    reveal_strlit("INS");
    reveal_strlit("HOME");
    reveal_strlit("END");
    reveal_strlit("PAGEUP");
    reveal_strlit("PGUP");
    reveal_strlit("PAGEDOWN");
    reveal_strlit("PGDN");
    reveal_strlit("LEFT");
    reveal_strlit("UP");
    reveal_strlit("RIGHT");
    reveal_strlit("DOWN");
    reveal_strlit("SEMICOLON");
    reveal_strlit("PLUS");
    reveal_strlit("COMMA");
    reveal_strlit("MINUS");
    reveal_strlit("PERIOD");
    reveal_strlit("SLASH");
    reveal_strlit("BACKTICK");
    reveal_strlit("LEFTBRACKET");
    reveal_strlit("BACKSLASH");
    reveal_strlit("RIGHTBRACKET");
    reveal_strlit("QUOTE");
    reveal_strlit("MULTIPLY");
    reveal_strlit("ADD");
    assert("SUBTRACT"@[0] != "PAGEDOWN"@[0]);
    assert("SUBTRACT"@[0] != "BACKTICK"@[0]);
    assert("SUBTRACT"@[0] != "MULTIPLY"@[0]);
    lemma_plain("Subtract"@);
    assert(upper("Subtract"@) =~= "SUBTRACT"@);
    assert(read_name("Subtract"@) == "SUBTRACT"@);
}

proof fn lemma_decimal_reads_back()
    ensures
        reads_back(0x6e),
{
    reveal_strlit("Decimal");
    reveal_strlit("DECIMAL");
    reveal_strlit("CTRL");
    reveal_strlit("CONTROL");
    reveal_strlit("SHIFT");
    reveal_strlit("ALT");
    reveal_strlit("WIN");
    reveal_strlit("WINDOWS");
    reveal_strlit("SPACE");
    reveal_strlit("ENTER");
    reveal_strlit("RETURN");
    reveal_strlit("TAB");
    reveal_strlit("ESC");
    reveal_strlit("ESCAPE");
    reveal_strlit("BACKSPACE");
    reveal_strlit("DELETE");
    reveal_strlit("DEL");
    reveal_strlit("INSERT");
    reveal_strlit("INS");
    reveal_strlit("HOME");
    reveal_strlit("END");
    reveal_strlit("PAGEUP");
    reveal_strlit("PGUP");
    reveal_strlit("PAGEDOWN");
    reveal_strlit("PGDN");
    reveal_strlit("LEFT");
    reveal_strlit("UP");
    reveal_strlit("RIGHT");
    reveal_strlit("DOWN");
    reveal_strlit("SEMICOLON");
    reveal_strlit("PLUS");
    reveal_strlit("COMMA");
    reveal_strlit("MINUS");
    reveal_strlit("PERIOD");
    reveal_strlit("SLASH");
    reveal_strlit("BACKTICK");
    reveal_strlit("LEFTBRACKET");
    reveal_strlit("BACKSLASH");
    reveal_strlit("RIGHTBRACKET");
    reveal_strlit("QUOTE");
    reveal_strlit("MULTIPLY");
    reveal_strlit("ADD");
    reveal_strlit("SUBTRACT");
    assert("DECIMAL"@[0] != "CONTROL"@[0]);
    assert("DECIMAL"@[0] != "WINDOWS"@[0]);
    lemma_plain("Decimal"@);
    assert(upper("Decimal"@) =~= "DECIMAL"@);
    assert(read_name("Decimal"@) == "DECIMAL"@);
}

proof fn lemma_divide_reads_back()
    ensures
        reads_back(0x6f),
{
    reveal_strlit("Divide");
    reveal_strlit("DIVIDE");
    reveal_strlit("CTRL");
    reveal_strlit("CONTROL");
    reveal_strlit("SHIFT");
    reveal_strlit("ALT");
    reveal_strlit("WIN");
    reveal_strlit("WINDOWS");
    reveal_strlit("SPACE");
    reveal_strlit("ENTER");
    reveal_strlit("RETURN");
    reveal_strlit("TAB");
    reveal_strlit("ESC");
    reveal_strlit("ESCAPE");
    reveal_strlit("BACKSPACE");
    reveal_strlit("DELETE");
    reveal_strlit("DEL");
    reveal_strlit("INSERT");
    reveal_strlit("INS");
    reveal_strlit("HOME");
    reveal_strlit("END");
    reveal_strlit("PAGEUP");
    reveal_strlit("PGUP");
    reveal_strlit("PAGEDOWN");
    reveal_strlit("PGDN");
    reveal_strlit("LEFT");
    reveal_strlit("UP");
    reveal_strlit("RIGHT");
    reveal_strlit("DOWN");
    reveal_strlit("SEMICOLON");
    reveal_strlit("PLUS");
    reveal_strlit("COMMA");
    reveal_strlit("MINUS");
    reveal_strlit("PERIOD");
    reveal_strlit("SLASH");
    reveal_strlit("BACKTICK");
    reveal_strlit("LEFTBRACKET");
    reveal_strlit("BACKSLASH");
    reveal_strlit("RIGHTBRACKET");
    reveal_strlit("QUOTE");
    reveal_strlit("MULTIPLY");
    reveal_strlit("ADD");
    reveal_strlit("SUBTRACT");
    reveal_strlit("DECIMAL");
    assert("DIVIDE"@[0] != "RETURN"@[0]);
    assert("DIVIDE"@[0] != "ESCAPE"@[0]);
    assert("DIVIDE"@[1] != "DELETE"@[1]);
    assert("DIVIDE"@[0] != "INSERT"@[0]);
    assert("DIVIDE"@[0] != "PAGEUP"@[0]);
    assert("DIVIDE"@[0] != "PERIOD"@[0]);
    lemma_plain("Divide"@);
    assert(upper("Divide"@) =~= "DIVIDE"@);
    assert(read_name("Divide"@) == "DIVIDE"@);
}

proof fn lemma_semicolon_reads_back()
    ensures
        reads_back(0xba),
{
    reveal_strlit("Semicolon");
    reveal_strlit("SEMICOLON");
    reveal_strlit("CTRL");
    reveal_strlit("CONTROL");
    reveal_strlit("SHIFT");
    reveal_strlit("ALT");
    reveal_strlit("WIN");
    reveal_strlit("WINDOWS");
    reveal_strlit("SPACE");
    reveal_strlit("ENTER");
    reveal_strlit("RETURN");
    reveal_strlit("TAB");
    reveal_strlit("ESC");
    reveal_strlit("ESCAPE");
    reveal_strlit("BACKSPACE");
    reveal_strlit("DELETE");
    reveal_strlit("DEL");
    reveal_strlit("INSERT");
    reveal_strlit("INS");
    reveal_strlit("HOME");
    reveal_strlit("END");
    reveal_strlit("PAGEUP");
    reveal_strlit("PGUP");
    reveal_strlit("PAGEDOWN");
    reveal_strlit("PGDN");
    reveal_strlit("LEFT");
    reveal_strlit("UP");
    reveal_strlit("RIGHT");
    reveal_strlit("DOWN");
    assert("SEMICOLON"@[0] != "BACKSPACE"@[0]);
    lemma_plain("Semicolon"@);
    assert(upper("Semicolon"@) =~= "SEMICOLON"@);
    assert(read_name("Semicolon"@) == "SEMICOLON"@);
}

proof fn lemma_plus_reads_back()
    ensures
        reads_back(0xbb),
{
    reveal_strlit("Plus");
    reveal_strlit("PLUS");
    reveal_strlit("CTRL");
    reveal_strlit("CONTROL");
    reveal_strlit("SHIFT");
    reveal_strlit("ALT");
    reveal_strlit("WIN");
    reveal_strlit("WINDOWS");
    reveal_strlit("SPACE");
    reveal_strlit("ENTER");
    reveal_strlit("RETURN");
    reveal_strlit("TAB");
    reveal_strlit("ESC");
    reveal_strlit("ESCAPE");
    reveal_strlit("BACKSPACE");
    reveal_strlit("DELETE");
    reveal_strlit("DEL");
    reveal_strlit("INSERT");
    reveal_strlit("INS");
    reveal_strlit("HOME");
    reveal_strlit("END");
    reveal_strlit("PAGEUP");
    reveal_strlit("PGUP");
    reveal_strlit("PAGEDOWN");
    reveal_strlit("PGDN");
    reveal_strlit("LEFT");
    reveal_strlit("UP");
    reveal_strlit("RIGHT");
    reveal_strlit("DOWN");
    reveal_strlit("SEMICOLON");
    assert("PLUS"@[0] != "CTRL"@[0]);
    assert("PLUS"@[0] != "HOME"@[0]);
    assert("PLUS"@[1] != "PGUP"@[1]);
    assert("PLUS"@[1] != "PGDN"@[1]);
    assert("PLUS"@[0] != "LEFT"@[0]);
    assert("PLUS"@[0] != "DOWN"@[0]);
    lemma_plain("Plus"@);
    assert(upper("Plus"@) =~= "PLUS"@);
    assert(read_name("Plus"@) == "PLUS"@);
}

proof fn lemma_comma_reads_back()
    ensures
        reads_back(0xbc),
{
    reveal_strlit("Comma");
    reveal_strlit("COMMA");
    reveal_strlit("CTRL");
    reveal_strlit("CONTROL");
    reveal_strlit("SHIFT");
    reveal_strlit("ALT");
    reveal_strlit("WIN");
    reveal_strlit("WINDOWS");
    reveal_strlit("SPACE");
    reveal_strlit("ENTER");
    reveal_strlit("RETURN");
    reveal_strlit("TAB");
    reveal_strlit("ESC");
    reveal_strlit("ESCAPE");
    reveal_strlit("BACKSPACE");
    reveal_strlit("DELETE");
    reveal_strlit("DEL");
    reveal_strlit("INSERT");
    reveal_strlit("INS");
    reveal_strlit("HOME");
    reveal_strlit("END");
    reveal_strlit("PAGEUP");
    reveal_strlit("PGUP");
    reveal_strlit("PAGEDOWN");
    reveal_strlit("PGDN");
    reveal_strlit("LEFT");
    reveal_strlit("UP");
    reveal_strlit("RIGHT");
    reveal_strlit("DOWN");
    reveal_strlit("SEMICOLON");
    reveal_strlit("PLUS");
    assert("COMMA"@[0] != "SHIFT"@[0]);
    assert("COMMA"@[0] != "SPACE"@[0]);
    assert("COMMA"@[0] != "ENTER"@[0]);
    assert("COMMA"@[0] != "RIGHT"@[0]);
    lemma_plain("Comma"@);
    assert(upper("Comma"@) =~= "COMMA"@);
    assert(read_name("Comma"@) == "COMMA"@);
}

proof fn lemma_minus_reads_back()
    ensures
        reads_back(0xbd),
{
    reveal_strlit("Minus");
    reveal_strlit("MINUS");
    reveal_strlit("CTRL");
    reveal_strlit("CONTROL");
    reveal_strlit("SHIFT");
    reveal_strlit("ALT");
    reveal_strlit("WIN");
    reveal_strlit("WINDOWS");
    reveal_strlit("SPACE");
    reveal_strlit("ENTER");
    reveal_strlit("RETURN");
    reveal_strlit("TAB");
    reveal_strlit("ESC");
    reveal_strlit("ESCAPE");
    reveal_strlit("BACKSPACE");
    reveal_strlit("DELETE");
    reveal_strlit("DEL");
    reveal_strlit("INSERT");
    reveal_strlit("INS");
    reveal_strlit("HOME");
    reveal_strlit("END");
    reveal_strlit("PAGEUP");
    reveal_strlit("PGUP");
    reveal_strlit("PAGEDOWN");
    reveal_strlit("PGDN");
    reveal_strlit("LEFT");
    reveal_strlit("UP");
    reveal_strlit("RIGHT");
    reveal_strlit("DOWN");
    reveal_strlit("SEMICOLON");
    reveal_strlit("PLUS");
    reveal_strlit("COMMA");
    assert("MINUS"@[0] != "SHIFT"@[0]);
    assert("MINUS"@[0] != "SPACE"@[0]);
    assert("MINUS"@[0] != "ENTER"@[0]);
    assert("MINUS"@[0] != "RIGHT"@[0]);
    assert("MINUS"@[0] != "COMMA"@[0]);
    lemma_plain("Minus"@);
    assert(upper("Minus"@) =~= "MINUS"@);
    assert(read_name("Minus"@) == "MINUS"@);
}

proof fn lemma_period_reads_back()
    ensures
        reads_back(0xbe),
{
    reveal_strlit("Period");
    reveal_strlit("PERIOD");
    reveal_strlit("CTRL");
    reveal_strlit("CONTROL");
    reveal_strlit("SHIFT");
    reveal_strlit("ALT");
    reveal_strlit("WIN");
    reveal_strlit("WINDOWS");
    reveal_strlit("SPACE");
    reveal_strlit("ENTER");
    reveal_strlit("RETURN");
    reveal_strlit("TAB");
    reveal_strlit("ESC");
    reveal_strlit("ESCAPE");
    reveal_strlit("BACKSPACE");
    reveal_strlit("DELETE");
    reveal_strlit("DEL");
    reveal_strlit("INSERT");
    reveal_strlit("INS");
    reveal_strlit("HOME");
    reveal_strlit("END");
    reveal_strlit("PAGEUP");
    reveal_strlit("PGUP");
    reveal_strlit("PAGEDOWN");
    reveal_strlit("PGDN");
    reveal_strlit("LEFT");
    reveal_strlit("UP");
    reveal_strlit("RIGHT");
    reveal_strlit("DOWN");
    reveal_strlit("SEMICOLON");
    reveal_strlit("PLUS");
    reveal_strlit("COMMA");
    reveal_strlit("MINUS");
    assert("PERIOD"@[0] != "RETURN"@[0]);
    assert("PERIOD"@[0] != "ESCAPE"@[0]);
    assert("PERIOD"@[0] != "DELETE"@[0]);
    assert("PERIOD"@[0] != "INSERT"@[0]);
    assert("PERIOD"@[1] != "PAGEUP"@[1]);
    lemma_plain("Period"@);
    assert(upper("Period"@) =~= "PERIOD"@);
    assert(read_name("Period"@) == "PERIOD"@);
}

proof fn lemma_slash_reads_back()
    ensures
        reads_back(0xbf),
{
    reveal_strlit("Slash");
    reveal_strlit("SLASH");
    reveal_strlit("CTRL");
    reveal_strlit("CONTROL");
    reveal_strlit("SHIFT");
    reveal_strlit("ALT");
    reveal_strlit("WIN");
    reveal_strlit("WINDOWS");
    reveal_strlit("SPACE");
    reveal_strlit("ENTER");
    reveal_strlit("RETURN");
    reveal_strlit("TAB");
    reveal_strlit("ESC");
    reveal_strlit("ESCAPE");
    reveal_strlit("BACKSPACE");
    reveal_strlit("DELETE");
    reveal_strlit("DEL");
    reveal_strlit("INSERT");
    reveal_strlit("INS");
    reveal_strlit("HOME");
    reveal_strlit("END");
    reveal_strlit("PAGEUP");
    reveal_strlit("PGUP");
    reveal_strlit("PAGEDOWN");
    reveal_strlit("PGDN");
    reveal_strlit("LEFT");
    reveal_strlit("UP");
    reveal_strlit("RIGHT");
    reveal_strlit("DOWN");
    reveal_strlit("SEMICOLON");
    reveal_strlit("PLUS");
    reveal_strlit("COMMA");
    reveal_strlit("MINUS");
    reveal_strlit("PERIOD");
    assert("SLASH"@[1] != "SHIFT"@[1]);
    assert("SLASH"@[1] != "SPACE"@[1]);
    assert("SLASH"@[0] != "ENTER"@[0]);
    assert("SLASH"@[0] != "RIGHT"@[0]);
    assert("SLASH"@[0] != "COMMA"@[0]);
    assert("SLASH"@[0] != "MINUS"@[0]);
    lemma_plain("Slash"@);
    assert(upper("Slash"@) =~= "SLASH"@);
    assert(read_name("Slash"@) == "SLASH"@);
}

proof fn lemma_backtick_reads_back()
    ensures
        reads_back(0xc0),
{
    reveal_strlit("Backtick");
    reveal_strlit("BACKTICK");
    reveal_strlit("CTRL");
    reveal_strlit("CONTROL");
    reveal_strlit("SHIFT");
    reveal_strlit("ALT");
    reveal_strlit("WIN");
    reveal_strlit("WINDOWS");
    reveal_strlit("SPACE");
    reveal_strlit("ENTER");
    reveal_strlit("RETURN");
    reveal_strlit("TAB");
    reveal_strlit("ESC");
    reveal_strlit("ESCAPE");
    reveal_strlit("BACKSPACE");
    reveal_strlit("DELETE");
    reveal_strlit("DEL");
    reveal_strlit("INSERT");
    reveal_strlit("INS");
    reveal_strlit("HOME");
    reveal_strlit("END");
    reveal_strlit("PAGEUP");
    reveal_strlit("PGUP");
    reveal_strlit("PAGEDOWN");
    reveal_strlit("PGDN");
    reveal_strlit("LEFT");
    reveal_strlit("UP");
    reveal_strlit("RIGHT");
    reveal_strlit("DOWN");
    reveal_strlit("SEMICOLON");
    reveal_strlit("PLUS");
    reveal_strlit("COMMA");
    reveal_strlit("MINUS");
    reveal_strlit("PERIOD");
    reveal_strlit("SLASH");
    assert("BACKTICK"@[0] != "PAGEDOWN"@[0]);
    lemma_plain("Backtick"@);
    assert(upper("Backtick"@) =~= "BACKTICK"@);
    assert(read_name("Backtick"@) == "BACKTICK"@);
}

proof fn lemma_left_bracket_reads_back()
    ensures
        reads_back(0xdb),
{
    reveal_strlit("LeftBracket");
    reveal_strlit("LEFTBRACKET");
    reveal_strlit("CTRL");
    reveal_strlit("CONTROL");
    reveal_strlit("SHIFT");
    reveal_strlit("ALT");
    reveal_strlit("WIN");
    reveal_strlit("WINDOWS");
    reveal_strlit("SPACE");
    reveal_strlit("ENTER");
    reveal_strlit("RETURN");
    reveal_strlit("TAB");
    reveal_strlit("ESC");
    reveal_strlit("ESCAPE");
    reveal_strlit("BACKSPACE");
    reveal_strlit("DELETE");
    reveal_strlit("DEL");
    reveal_strlit("INSERT");
    reveal_strlit("INS");
    reveal_strlit("HOME");
    reveal_strlit("END");
    reveal_strlit("PAGEUP");
    reveal_strlit("PGUP");
    reveal_strlit("PAGEDOWN");
    reveal_strlit("PGDN");
    reveal_strlit("LEFT");
    reveal_strlit("UP");
    reveal_strlit("RIGHT");
    reveal_strlit("DOWN");
    reveal_strlit("SEMICOLON");
    reveal_strlit("PLUS");
    reveal_strlit("COMMA");
    reveal_strlit("MINUS");
    reveal_strlit("PERIOD");
    reveal_strlit("SLASH");
    reveal_strlit("BACKTICK");
    lemma_plain("LeftBracket"@);
    assert(upper("LeftBracket"@) =~= "LEFTBRACKET"@);
    assert(read_name("LeftBracket"@) == "LEFTBRACKET"@);
}

proof fn lemma_backslash_reads_back()
    ensures
        reads_back(0xdc),
{
    reveal_strlit("Backslash");
    reveal_strlit("BACKSLASH");
    reveal_strlit("CTRL");
    reveal_strlit("CONTROL");
    reveal_strlit("SHIFT");
    reveal_strlit("ALT");
    reveal_strlit("WIN");
    reveal_strlit("WINDOWS");
    reveal_strlit("SPACE");
    reveal_strlit("ENTER");
    reveal_strlit("RETURN");
    reveal_strlit("TAB");
    reveal_strlit("ESC");
    reveal_strlit("ESCAPE");
    reveal_strlit("BACKSPACE");
    reveal_strlit("DELETE");
    reveal_strlit("DEL");
    reveal_strlit("INSERT");
    reveal_strlit("INS");
    reveal_strlit("HOME");
    reveal_strlit("END");
    reveal_strlit("PAGEUP");
    reveal_strlit("PGUP");
    reveal_strlit("PAGEDOWN");
    reveal_strlit("PGDN");
    reveal_strlit("LEFT");
    reveal_strlit("UP");
    reveal_strlit("RIGHT");
    reveal_strlit("DOWN");
    reveal_strlit("SEMICOLON");
    reveal_strlit("PLUS");
    reveal_strlit("COMMA");
    reveal_strlit("MINUS");
    reveal_strlit("PERIOD");
    reveal_strlit("SLASH");
    reveal_strlit("BACKTICK");
    reveal_strlit("LEFTBRACKET");
    assert("BACKSLASH"@[5] != "BACKSPACE"@[5]);
    assert("BACKSLASH"@[0] != "SEMICOLON"@[0]);
    lemma_plain("Backslash"@);
    assert(upper("Backslash"@) =~= "BACKSLASH"@);
    assert(read_name("Backslash"@) == "BACKSLASH"@);
}

proof fn lemma_right_bracket_reads_back()
    ensures
        reads_back(0xdd),
{
    reveal_strlit("RightBracket");
    reveal_strlit("RIGHTBRACKET");
    reveal_strlit("CTRL");
    reveal_strlit("CONTROL");
    reveal_strlit("SHIFT");
    reveal_strlit("ALT");
    reveal_strlit("WIN");
    reveal_strlit("WINDOWS");
    reveal_strlit("SPACE");
    reveal_strlit("ENTER");
    reveal_strlit("RETURN");
    reveal_strlit("TAB");
    reveal_strlit("ESC");
    reveal_strlit("ESCAPE");
    reveal_strlit("BACKSPACE");
    reveal_strlit("DELETE");
    reveal_strlit("DEL");
    reveal_strlit("INSERT");
    reveal_strlit("INS");
    reveal_strlit("HOME");
    reveal_strlit("END");
    reveal_strlit("PAGEUP");
    reveal_strlit("PGUP");
    reveal_strlit("PAGEDOWN");
    reveal_strlit("PGDN");
    reveal_strlit("LEFT");
    reveal_strlit("UP");
    reveal_strlit("RIGHT");
    reveal_strlit("DOWN");
    reveal_strlit("SEMICOLON");
    reveal_strlit("PLUS");
    reveal_strlit("COMMA");
    reveal_strlit("MINUS");
    reveal_strlit("PERIOD");
    reveal_strlit("SLASH");
    reveal_strlit("BACKTICK");
    reveal_strlit("LEFTBRACKET");
    reveal_strlit("BACKSLASH");
    lemma_plain("RightBracket"@);
    assert(upper("RightBracket"@) =~= "RIGHTBRACKET"@);
    assert(read_name("RightBracket"@) == "RIGHTBRACKET"@);
}

proof fn lemma_quote_reads_back()
    ensures
        reads_back(0xde),
{
    reveal_strlit("Quote");
    reveal_strlit("QUOTE");
    reveal_strlit("CTRL");
    reveal_strlit("CONTROL");
    reveal_strlit("SHIFT");
    reveal_strlit("ALT");
    reveal_strlit("WIN");
    reveal_strlit("WINDOWS");
    reveal_strlit("SPACE");
    reveal_strlit("ENTER");
    reveal_strlit("RETURN");
    reveal_strlit("TAB");
    reveal_strlit("ESC");
    reveal_strlit("ESCAPE");
    reveal_strlit("BACKSPACE");
    reveal_strlit("DELETE");
    reveal_strlit("DEL");
    reveal_strlit("INSERT");
    reveal_strlit("INS");
    reveal_strlit("HOME");
    reveal_strlit("END");
    reveal_strlit("PAGEUP");
    reveal_strlit("PGUP");
    reveal_strlit("PAGEDOWN");
    reveal_strlit("PGDN");
    reveal_strlit("LEFT");
    reveal_strlit("UP");
    reveal_strlit("RIGHT");
    reveal_strlit("DOWN");
    reveal_strlit("SEMICOLON");
    reveal_strlit("PLUS");
    reveal_strlit("COMMA");
    reveal_strlit("MINUS");
    reveal_strlit("PERIOD");
    reveal_strlit("SLASH");
    reveal_strlit("BACKTICK");
    reveal_strlit("LEFTBRACKET");
    reveal_strlit("BACKSLASH");
    reveal_strlit("RIGHTBRACKET");
    assert("QUOTE"@[0] != "SHIFT"@[0]);
    assert("QUOTE"@[0] != "SPACE"@[0]);
    assert("QUOTE"@[0] != "ENTER"@[0]);
    assert("QUOTE"@[0] != "RIGHT"@[0]);
    assert("QUOTE"@[0] != "COMMA"@[0]);
    assert("QUOTE"@[0] != "MINUS"@[0]);
    assert("QUOTE"@[0] != "SLASH"@[0]);
    lemma_plain("Quote"@);
    assert(upper("Quote"@) =~= "QUOTE"@);
    assert(read_name("Quote"@) == "QUOTE"@);
}

proof fn lemma_named_keys_read_back(key: u16)
    requires
        key_name(key) is Some,
        !(0x30 <= key <= 0x39 || 0x41 <= key <= 0x5a || 0x70 <= key <= 0x87 || 0x60 <= key <= 0x69),
    ensures
        reads_back(key),
{
    if key == 0x8 {
        lemma_backspace_reads_back();
    } else if key == 0x9 {
        lemma_tab_reads_back();
    } else if key == 0xd {
        lemma_enter_reads_back();
    } else if key == 0x1b {
        lemma_escape_reads_back();
    } else if key == 0x20 {
        lemma_space_reads_back();
    } else if key == 0x21 {
        lemma_page_up_reads_back();
    } else if key == 0x22 {
        lemma_page_down_reads_back();
    } else if key == 0x23 {
        lemma_end_reads_back();
    } else if key == 0x24 {
        lemma_home_reads_back();
    } else if key == 0x25 {
        lemma_left_reads_back();
    } else if key == 0x26 {
        lemma_up_reads_back();
    } else if key == 0x27 {
        lemma_right_reads_back();
    } else if key == 0x28 {
        lemma_down_reads_back();
    } else if key == 0x2d {
        lemma_insert_reads_back();
    } else if key == 0x2e {
        lemma_delete_reads_back();
    } else if key == 0x6a {
        lemma_multiply_reads_back();
    } else if key == 0x6b {
        lemma_add_reads_back();
    } else if key == 0x6d {
        lemma_subtract_reads_back();
    } else if key == 0x6e {
        lemma_decimal_reads_back();
    } else if key == 0x6f {
        lemma_divide_reads_back();
    } else if key == 0xba {
        lemma_semicolon_reads_back();
    } else if key == 0xbb {
        lemma_plus_reads_back();
    } else if key == 0xbc {
        lemma_comma_reads_back();
    } else if key == 0xbd {
        lemma_minus_reads_back();
    } else if key == 0xbe {
        lemma_period_reads_back();
    } else if key == 0xbf {
        lemma_slash_reads_back();
    } else if key == 0xc0 {
        lemma_backtick_reads_back();
    } else if key == 0xdb {
        lemma_left_bracket_reads_back();
    } else if key == 0xdc {
        lemma_backslash_reads_back();
    } else if key == 0xdd {
        lemma_right_bracket_reads_back();
    } else if key == 0xde {
        lemma_quote_reads_back();
    }
}

/// A one-character name, or one beginning with `F` or `N`, is neither a modifier nor a
/// named key.
proof fn lemma_unlisted(name: Seq<char>)
    requires
        name.len() == 1 || (name.len() >= 2 && (name[0] == 'F' || name[0] == 'N')),
    ensures
        modifier_code(name) is None,
        named_code(name) is None,
{
    reveal_strlit("CTRL");
    reveal_strlit("CONTROL");
    reveal_strlit("SHIFT");
    reveal_strlit("ALT");
    reveal_strlit("WIN");
    reveal_strlit("WINDOWS");
    reveal_strlit("SPACE");
    reveal_strlit("ENTER");
    reveal_strlit("RETURN");
    reveal_strlit("TAB");
    reveal_strlit("ESC");
    reveal_strlit("ESCAPE");
    reveal_strlit("BACKSPACE");
    reveal_strlit("DELETE");
    reveal_strlit("DEL");
    reveal_strlit("INSERT");
    reveal_strlit("INS");
    reveal_strlit("HOME");
    reveal_strlit("END");
    reveal_strlit("PAGEUP");
    reveal_strlit("PGUP");
    reveal_strlit("PAGEDOWN");
    reveal_strlit("PGDN");
    reveal_strlit("LEFT");
    reveal_strlit("UP");
    reveal_strlit("RIGHT");
    reveal_strlit("DOWN");
    reveal_strlit("SEMICOLON");
    reveal_strlit("PLUS");
    reveal_strlit("COMMA");
    reveal_strlit("MINUS");
    reveal_strlit("PERIOD");
    reveal_strlit("SLASH");
    reveal_strlit("BACKTICK");
    reveal_strlit("LEFTBRACKET");
    reveal_strlit("BACKSLASH");
    reveal_strlit("RIGHTBRACKET");
    reveal_strlit("QUOTE");
    reveal_strlit("MULTIPLY");
    reveal_strlit("ADD");
    reveal_strlit("SUBTRACT");
    reveal_strlit("DECIMAL");
    reveal_strlit("DIVIDE");
}

proof fn lemma_decimal_text(k: int)
    requires
        0 <= k < 100,
    ensures
        decimal_text(k).len() >= 1,
        decimal_text(k).len() <= 2,
        all_digits(decimal_text(k)),
        decimal_value(decimal_text(k)) == k,
        forall|i: int| 0 <= i < decimal_text(k).len() ==> '0' <= #[trigger] decimal_text(k)[i] <= '9',
{
    let t = decimal_text(k);
    assert(digit_char(k % 10) as u32 == 48 + k % 10);
    assert(digit_char(k / 10) as u32 == 48 + k / 10);
    assert(digit_char(k) as u32 == 48 + k);
    if k < 10 {
        assert(t.drop_last() =~= Seq::<char>::empty());
        assert(decimal_value(t) == decimal_value(t.drop_last()) * 10 + ((t.last() as u32) - ('0' as u32)));
    } else {
        let first = t.drop_last();
        assert(first =~= seq![digit_char(k / 10)]);
        assert(first.drop_last() =~= Seq::<char>::empty());
        assert(decimal_value(first) == decimal_value(first.drop_last()) * 10 + ((first.last() as u32) - ('0' as u32)));
        assert(first.last() == digit_char(k / 10));
        assert(decimal_value(first) == k / 10);
        assert(decimal_value(t) == decimal_value(first) * 10 + ((t.last() as u32) - ('0' as u32)));
    }
}

proof fn lemma_alnum_reads_back(key: u16)
    requires
        0x30 <= key <= 0x39 || 0x41 <= key <= 0x5a,
    ensures
        reads_back(key),
{
    let name = seq![key as char];
    assert(key_name(key) == Some(name));
    lemma_plain(name);
    assert(upper(name) =~= name);
    lemma_unlisted(name);
}

proof fn lemma_function_key_reads_back(key: u16)
    requires
        0x70 <= key <= 0x87,
    ensures
        reads_back(key),
{
    reveal_strlit("F");
    let k = key - 0x6f;
    let digits = decimal_text(k);
    lemma_decimal_text(k);
    let name = "F"@ + digits;
    assert(key_name(key) == Some(name));
    assert(name[0] == 'F');
    assert forall|i: int| 0 <= i < name.len() implies ('0' <= #[trigger] name[i] <= '9' || 'A' <= name[i] <= 'Z'
        || 'a' <= name[i] <= 'z') by {
        if i > 0 {
            assert(name[i] == digits[i - 1]);
        }
    }
    lemma_plain(name);
    assert(upper(name) =~= name);
    lemma_unlisted(name);
    assert(name.skip(1) =~= digits);
}

proof fn lemma_numpad_key_reads_back(key: u16)
    requires
        0x60 <= key <= 0x69,
    ensures
        reads_back(key),
{
    reveal_strlit("Numpad");
    reveal_strlit("NUMPAD");
    let d = key - 0x60;
    lemma_decimal_text(d);
    let name = "Numpad"@ + decimal_text(d);
    assert(key_name(key) == Some(name));
    assert forall|i: int| 0 <= i < name.len() implies ('0' <= #[trigger] name[i] <= '9' || 'A' <= name[i] <= 'Z'
        || 'a' <= name[i] <= 'z') by {
        if i >= 6 {
            assert(name[i] == decimal_text(d)[i - 6]);
        }
    }
    lemma_plain(name);
    let read = "NUMPAD"@ + decimal_text(d);
    assert(upper(name) =~= read);
    assert(read[0] == 'N');
    lemma_unlisted(read);
    assert(read.take(6) =~= "NUMPAD"@);
}

/// Every name `key_name` gives reads back as its key.
proof fn lemma_key_reads_back(key: u16)
    requires
        key_name(key) is Some,
    ensures
        reads_back(key),
{
    if 0x30 <= key <= 0x39 || 0x41 <= key <= 0x5a {
        lemma_alnum_reads_back(key);
    } else if 0x70 <= key <= 0x87 {
        lemma_function_key_reads_back(key);
    } else if 0x60 <= key <= 0x69 {
        lemma_numpad_key_reads_back(key);
    } else {
        lemma_named_keys_read_back(key);
    }
}

proof fn lemma_parse_modifiers(m: Seq<bool>, n: int)
    requires
        m.len() == 4,
        0 <= n <= 4,
    ensures
        parse_parts(held_modifiers(m, n)) == Some((held_codes(m, n), None::<u16>)),
        forall|c: u16| #[trigger] held_codes(m, n).contains(c) ==> exists|i: int| 0 <= i < n && c == #[trigger] modifier_vk(i),
        held_modifiers(m, n).len() <= n,
        forall|k: int| 0 <= k < held_modifiers(m, n).len() ==> plain_name(#[trigger] held_modifiers(m, n)[k]) && held_modifiers(m, n)[k].len() <= 5,
    decreases n,
{
    if n > 0 {
        lemma_parse_modifiers(m, n - 1);
        let h = held_modifiers(m, n - 1);
        let codes = held_codes(m, n - 1);
        if m[n - 1] {
            let name = modifier_name(n - 1);
            lemma_modifier_name(n - 1);
            assert(held_modifiers(m, n) =~= h.push(name));
            assert(held_codes(m, n) =~= codes.push(modifier_vk(n - 1)));
            assert(h.push(name).drop_last() =~= h);
            assert(!codes.contains(modifier_vk(n - 1))) by {
                if codes.contains(modifier_vk(n - 1)) {
                    let i = choose|i: int| 0 <= i < n - 1 && modifier_vk(n - 1) == #[trigger] modifier_vk(i);
                }
            }
            assert forall|c: u16| #[trigger] held_codes(m, n).contains(c) implies exists|i: int|
                0 <= i < n && c == modifier_vk(i) by {
                let j = choose|j: int| 0 <= j < held_codes(m, n).len() && held_codes(m, n)[j] == c;
                if j < codes.len() {
                    assert(codes[j] == c);
                    assert(codes.contains(c));
                }
            }
            assert forall|k: int| 0 <= k < held_modifiers(m, n).len() implies plain_name(
                #[trigger] held_modifiers(m, n)[k],
            ) && held_modifiers(m, n)[k].len() <= 5 by {
                if k < h.len() {
                    assert(held_modifiers(m, n)[k] == h[k]);
                }
            }
        } else {
            assert(held_modifiers(m, n) =~= h);
            assert(held_codes(m, n) =~= codes);
        }
    }
}

/// Joining ASCII parts of at most `bound` characters with `+` gives ASCII text of at
/// most `parts.len() * (bound + 1)` characters.
proof fn lemma_join_ascii(parts: Seq<Seq<char>>, bound: int)
    requires
        parts.len() >= 1,
        forall|i: int| 0 <= i < parts.len() ==> vstd::utf8::is_ascii_chars(#[trigger] parts[i]) && parts[i].len() <= bound,
    ensures
        vstd::utf8::is_ascii_chars(join_plus(parts)),
        join_plus(parts).len() <= parts.len() * (bound + 1),
    decreases parts.len(),
{
    if parts.len() > 1 {
        let init = parts.drop_last();
        assert forall|i: int| 0 <= i < init.len() implies vstd::utf8::is_ascii_chars(#[trigger] init[i]) && init[i].len()
            <= bound by {
            assert(init[i] == parts[i]);
        }
        lemma_join_ascii(init, bound);
        let j = join_plus(init).push('+') + parts.last();
        assert(vstd::utf8::is_ascii_chars(parts[parts.len() - 1]));
        assert forall|i: int| 0 <= i < j.len() implies '\0' <= #[trigger] j[i] <= '\u{7f}' by {
            if i < join_plus(init).len() {
                assert(j[i] == join_plus(init)[i]);
            } else if i > join_plus(init).len() {
                assert(j[i] == parts.last()[i - join_plus(init).len() - 1]);
            }
        }
        let n = init.len() as int;
        assert((n + 1) * (bound + 1) == n * (bound + 1) + bound + 1) by (nonlinear_arith);
    }
}

/// A captured chord reads back exactly: for any supported key and held modifiers, the
/// text `captured_shortcut` builds is accepted by the shortcut parser, which returns the
/// held modifiers in the order Ctrl, Shift, Alt, Win followed by the key.
pub proof fn lemma_captured_chord_reads_back(key: u16, modifiers: Seq<bool>)
    requires
        modifiers.len() == 4,
        key_name(key) is Some,
    ensures
        spec_shortcut(chord_text(key, modifiers)->0) == Some(held_codes(modifiers, 4).push(key)),
{
    let name = key_name(key)->0;
    lemma_key_reads_back(key);
    lemma_parse_modifiers(modifiers, 4);
    let mods = held_modifiers(modifiers, 4);
    let parts = mods.push(name);
    assert(chord_text(key, modifiers) == Some(join_plus(parts)));
    assert forall|i: int| 0 <= i < parts.len() implies plus_free(#[trigger] parts[i]) && vstd::utf8::is_ascii_chars(
        parts[i],
    ) && parts[i].len() <= 12 by {
        if i < mods.len() {
            assert(parts[i] == mods[i]);
        }
    }
    lemma_split_join(parts);
    assert(parts.drop_last() =~= mods);
    lemma_join_ascii(parts, 12);
    vstd::utf8::is_ascii_chars_encode_utf8(join_plus(parts));
}

} // verus!
