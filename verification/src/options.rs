//! Command-line options: a command followed by flags. Nothing here reads the process
//! arguments; the caller passes them (without the program name).
use vstd::prelude::*;
use crate::button_actions::{all_digits, decimal_value, is_digit};
use crate::text::{chars_of, push_str, same_text};

verus! {

#[derive(Debug)]
pub struct Options {
    pub command: String,
    pub device: Option<usize>,
    pub config: Option<String>,
    pub legacy: bool,
    pub initialize: bool,
    pub stop_event: Option<String>,
    pub device_path: Option<String>,
    pub trace: Option<String>,
}

/// The options as text values.
pub struct OptionsView {
    pub command: Seq<char>,
    pub device: Option<usize>,
    pub config: Option<Seq<char>>,
    pub legacy: bool,
    pub initialize: bool,
    pub stop_event: Option<Seq<char>>,
    pub device_path: Option<Seq<char>>,
    pub trace: Option<Seq<char>>,
}

pub open spec fn text_of(o: Option<String>) -> Option<Seq<char>> {
    match o {
        Some(s) => Some(s@),
        None => None,
    }
}

impl View for Options {
    type V = OptionsView;

    open spec fn view(&self) -> OptionsView {
        OptionsView {
            command: self.command@,
            device: self.device,
            config: text_of(self.config),
            legacy: self.legacy,
            initialize: self.initialize,
            stop_event: text_of(self.stop_event),
            device_path: text_of(self.device_path),
            trace: text_of(self.trace),
        }
    }
}

pub open spec fn is_command(c: Seq<char>) -> bool {
    c == "help"@ || c == "--help"@ || c == "-h"@ || c == "list"@ || c == "capture"@ || c == "run"@ || c
        == "demo"@ || c == "status"@ || c == "check"@ || c == "version"@ || c == "--version"@ || c == "-V"@
}

/// A decimal `usize` as std's `str::parse` reads it: an optional `+` and at least one
/// ASCII digit, with a value that fits.
pub open spec fn spec_parse_usize(s: Seq<char>) -> Option<usize> {
    let d = if s.len() > 0 && s[0] == '+' {
        s.skip(1)
    } else {
        s
    };
    if d.len() > 0 && all_digits(d) && decimal_value(d) <= usize::MAX {
        Some(decimal_value(d) as usize)
    } else {
        None
    }
}

proof fn lemma_decimal_grows(s: Seq<char>, m: int)
    requires
        0 <= m <= s.len(),
        all_digits(s),
    ensures
        decimal_value(s) >= decimal_value(s.take(m)) >= 0,
    decreases s.len(),
{
    if s.len() == 0 {
        assert(s.take(m) =~= s);
    } else {
        let t = s.drop_last();
        assert(all_digits(t)) by {
            assert forall|i: int| 0 <= i < t.len() implies is_digit(#[trigger] t[i]) by {
                assert(t[i] == s[i]);
            }
        }
        assert(is_digit(s[s.len() - 1]));
        if m == s.len() {
            assert(s.take(m) =~= s);
            lemma_decimal_grows(t, t.len() as int);
            assert(t.take(t.len() as int) =~= t);
        } else {
            lemma_decimal_grows(t, m);
            assert(t.take(m) =~= s.take(m));
        }
    }
}

/// Reads a decimal index as `str::parse::<usize>` does: an optional `+`, then ASCII digits
/// whose value fits.
fn parse_usize(s: &str) -> (r: Option<usize>)
    ensures
        r == spec_parse_usize(s@),
{
    let c = chars_of(s);
    let start: usize = if c.len() > 0 && c[0] == '+' { 1 } else { 0 };
    let ghost d = if s@.len() > 0 && s@[0] == '+' { s@.skip(1) } else { s@ };
    assert(d =~= c@.skip(start as int));
    if start >= c.len() {
        return None;
    }
    let mut i: usize = start;
    let mut v: usize = 0;
    proof {
        assert(d.take(0) =~= Seq::<char>::empty());
    }
    while i < c.len()
        invariant
            start <= i <= c@.len(),
            c@ == s@,
            d == c@.skip(start as int),
            d == (if s@.len() > 0 && s@[0] == '+' { s@.skip(1) } else { s@ }),
            all_digits(d.take(i - start)),
            v == decimal_value(d.take(i - start)),
        decreases c@.len() - i,
    {
        let ch = c[i];
        let k = i - start;
        if !('0' <= ch && ch <= '9') {
            assert(d[k as int] == ch);
            assert(!all_digits(d));
            return None;
        }
        let dig = (ch as u32 - '0' as u32) as usize;
        assert(d.take(k + 1).drop_last() =~= d.take(k as int));
        assert(d.take(k + 1).last() == ch);
        proof {
            assert(all_digits(d.take(k + 1))) by {
                assert forall|j: int| 0 <= j < k + 1 implies is_digit(#[trigger] d.take(k + 1)[j]) by {
                    if j < k {
                        assert(d.take(k + 1)[j] == d.take(k as int)[j]);
                    }
                }
            }
        }
        if v > (usize::MAX - dig) / 10 {
            proof {
                if all_digits(d) {
                    lemma_decimal_grows(d, k + 1);
                }
            }
            return None;
        }
        v = v * 10 + dig;
        i += 1;
    }
    assert(d.take(d.len() as int) =~= d);
    Some(v)
}

/// The flags from `args[i]` on, applied to `acc`.
pub open spec fn parse_flags(args: Seq<Seq<char>>, i: int, acc: OptionsView) -> Result<OptionsView, Seq<char>>
    decreases args.len() - i,
{
    if i >= args.len() {
        Ok(acc)
    } else {
        let arg = args[i];
        if arg == "--device"@ {
            if i + 1 >= args.len() {
                Err("Missing --device index"@)
            } else {
                match spec_parse_usize(args[i + 1]) {
                    Some(n) => parse_flags(args, i + 2, OptionsView { device: Some(n), ..acc }),
                    None => Err("Invalid device index"@),
                }
            }
        } else if arg == "--config"@ {
            if i + 1 >= args.len() {
                Err("Missing --config filename"@)
            } else {
                parse_flags(args, i + 2, OptionsView { config: Some(args[i + 1]), ..acc })
            }
        } else if arg == "--trace"@ {
            if i + 1 >= args.len() {
                Err("Missing trace filename"@)
            } else {
                parse_flags(args, i + 2, OptionsView { trace: Some(args[i + 1]), ..acc })
            }
        } else if arg == "--wacom11"@ {
            parse_flags(args, i + 1, OptionsView { legacy: true, ..acc })
        } else if arg == "--init"@ {
            parse_flags(args, i + 1, OptionsView { initialize: true, ..acc })
        } else if arg == "--device-path"@ {
            if i + 1 >= args.len() {
                Err("Missing HID path"@)
            } else {
                parse_flags(args, i + 2, OptionsView { device_path: Some(args[i + 1]), ..acc })
            }
        } else if arg == "--stop-event"@ {
            if i + 1 >= args.len() {
                Err("Missing event name"@)
            } else {
                parse_flags(args, i + 2, OptionsView { stop_event: Some(args[i + 1]), ..acc })
            }
        } else {
            Err("Unknown option: "@ + arg)
        }
    }
}

pub open spec fn defaults(command: Seq<char>) -> OptionsView {
    OptionsView {
        command,
        device: None,
        config: None,
        legacy: false,
        initialize: false,
        stop_event: None,
        device_path: None,
        trace: None,
    }
}

/// The options given by `args`: the command (`help` when absent), then its flags.
pub open spec fn spec_options(args: Seq<Seq<char>>) -> Result<OptionsView, Seq<char>> {
    let command = if args.len() == 0 {
        "help"@
    } else {
        args[0]
    };
    if !is_command(command) {
        Err("Unknown command: "@ + command + "; use --help"@)
    } else {
        match parse_flags(args, 1, defaults(command)) {
            Ok(o) => if o.trace is Some && o.command != "run"@ {
                Err("--trace is only supported with run"@)
            } else {
                Ok(o)
            },
            Err(e) => Err(e),
        }
    }
}

pub open spec fn texts(args: Seq<String>) -> Seq<Seq<char>> {
    args.map_values(|a: String| a@)
}

fn is_command_text(c: &String) -> (r: bool)
    ensures
        r == is_command(c@),
{
    let a = chars_of(c.as_str());
    same_text(&a, "help") || same_text(&a, "--help") || same_text(&a, "-h") || same_text(&a, "list")
        || same_text(&a, "capture") || same_text(&a, "run") || same_text(&a, "demo") || same_text(&a, "status")
        || same_text(&a, "check") || same_text(&a, "version") || same_text(&a, "--version") || same_text(
        &a,
        "-V",
    )
}

/// Read the command and its flags.
pub fn options(args: &Vec<String>) -> (r: Result<Options, String>)
    ensures
        match r {
            Ok(o) => spec_options(texts(args@)) == Ok::<OptionsView, Seq<char>>(o@),
            Err(e) => spec_options(texts(args@)) == Err::<OptionsView, Seq<char>>(e@),
        },
{
    let ghost a = texts(args@);
    let command: String = if args.len() == 0 {
        "help".to_owned()
    } else {
        args[0].clone()
    };
    proof {
        reveal_strlit("help");
    }
    assert(command@ == (if a.len() == 0 { "help"@ } else { a[0] }));
    if !is_command_text(&command) {
        let mut e = String::new();
        push_str(&mut e, "Unknown command: ");
        push_str(&mut e, command.as_str());
        push_str(&mut e, "; use --help");
        assert(e@ =~= "Unknown command: "@ + command@ + "; use --help"@);
        return Err(e);
    }
    let mut result = Options {
        command,
        device: None,
        config: None,
        legacy: false,
        initialize: false,
        stop_event: None,
        device_path: None,
        trace: None,
    };
    let mut i: usize = 1;
    assert(result@ == defaults(result.command@));
    while i < args.len()
        invariant
            1 <= i,
            a == texts(args@),
            a.len() == args@.len(),
            parse_flags(a, 1, defaults(result.command@)) == parse_flags(a, i as int, result@),
            is_command(result.command@),
            result.command@ == (if a.len() == 0 { "help"@ } else { a[0] }),
        decreases args@.len() - i,
    {
        let arg = chars_of(args[i].as_str());
        assert(arg@ == a[i as int]);
        let has_next = i + 1 < args.len();
        if same_text(&arg, "--device") {
            if !has_next {
                return Err("Missing --device index".to_owned());
            }
            match parse_usize(args[i + 1].as_str()) {
                Some(n) => {
                    result.device = Some(n);
                },
                None => {
                    return Err("Invalid device index".to_owned());
                },
            }
            i += 2;
        } else if same_text(&arg, "--config") {
            if !has_next {
                return Err("Missing --config filename".to_owned());
            }
            result.config = Some(args[i + 1].clone());
            i += 2;
        } else if same_text(&arg, "--trace") {
            if !has_next {
                return Err("Missing trace filename".to_owned());
            }
            result.trace = Some(args[i + 1].clone());
            i += 2;
        } else if same_text(&arg, "--wacom11") {
            result.legacy = true;
            i += 1;
        } else if same_text(&arg, "--init") {
            result.initialize = true;
            i += 1;
        } else if same_text(&arg, "--device-path") {
            if !has_next {
                return Err("Missing HID path".to_owned());
            }
            result.device_path = Some(args[i + 1].clone());
            i += 2;
        } else if same_text(&arg, "--stop-event") {
            if !has_next {
                return Err("Missing event name".to_owned());
            }
            result.stop_event = Some(args[i + 1].clone());
            i += 2;
        } else {
            let mut e = String::new();
            push_str(&mut e, "Unknown option: ");
            push_str(&mut e, args[i].as_str());
            assert(e@ =~= "Unknown option: "@ + a[i as int]);
            return Err(e);
        }
    }
    if result.trace.is_some() && !same_text(&chars_of(result.command.as_str()), "run") {
        return Err("--trace is only supported with run".to_owned());
    }
    Ok(result)
}


/// Every command the program documents is accepted on its own, with every flag at its
/// default: help (also `--help`, `-h`), list, capture, run, demo, status, check and
/// version (also `--version`, `-V`).
pub proof fn lemma_documented_commands(c: Seq<char>)
    requires
        c == "help"@ || c == "--help"@ || c == "-h"@
            || c == "list"@
            || c == "capture"@
            || c == "run"@
            || c == "demo"@
            || c == "status"@
            || c == "check"@
            || c == "version"@ || c == "--version"@ || c == "-V"@,
    ensures
        spec_options(seq![c]) == Ok::<OptionsView, Seq<char>>(
            OptionsView {
                command: c,
                device: None,
                config: None,
                legacy: false,
                initialize: false,
                stop_event: None,
                device_path: None,
                trace: None,
            },
        ),
{
}

/// Flags never change the command: whatever follows a documented command, an accepted
/// command line runs that command, and no arguments at all mean help.
pub proof fn lemma_command_comes_first(args: Seq<Seq<char>>)
    ensures
        args.len() == 0 ==> (spec_options(args) matches Ok(o) && o.command == "help"@),
        spec_options(args) matches Ok(o) ==> args.len() == 0 || o.command == args[0],
{
    if spec_options(args) is Ok && args.len() > 0 {
        lemma_flags_keep_command(args, 1, defaults(args[0]));
    }
}

proof fn lemma_flags_keep_command(args: Seq<Seq<char>>, i: int, acc: OptionsView)
    ensures
        parse_flags(args, i, acc) matches Ok(o) ==> o.command == acc.command,
    decreases args.len() - i,
{
    if i < args.len() {
        let arg = args[i];
        lemma_flags_keep_command(args, i + 1, OptionsView { legacy: true, ..acc });
        lemma_flags_keep_command(args, i + 1, OptionsView { initialize: true, ..acc });
        if i + 1 < args.len() {
            let v = args[i + 1];
            if let Some(n) = spec_parse_usize(v) {
                lemma_flags_keep_command(args, i + 2, OptionsView { device: Some(n), ..acc });
            }
            lemma_flags_keep_command(args, i + 2, OptionsView { config: Some(v), ..acc });
            lemma_flags_keep_command(args, i + 2, OptionsView { stop_event: Some(v), ..acc });
            lemma_flags_keep_command(args, i + 2, OptionsView { device_path: Some(v), ..acc });
            lemma_flags_keep_command(args, i + 2, OptionsView { trace: Some(v), ..acc });
        }
    }
}

} // verus!
