//! The user's library of named pressure presets. Names are checked, kept unique ignoring
//! case, and never overwritten; the library holds at most 128 presets. The pressure
//! shape of a preset is carried as it is: its check is the caller's, and its outcome is
//! passed in.
use vstd::prelude::*;
use crate::text::{chars_of, same_chars, same_text, string_of, trim, trimmed};

verus! {

/// A named pressure preset.
pub struct Preset<S> {
    pub name: String,
    pub shape: S,
}

/// The library of user presets, oldest first.
pub struct Library<S> {
    presets: Vec<Preset<S>>,
}

/// The most presets a library holds.
pub const MAX_PRESETS: usize = 128;

/// The most characters in a preset name.
pub const MAX_NAME_CHARS: usize = 64;

/// Lowercase text as Unicode maps it (std `str::to_lowercase`).
pub uninterp spec fn unicode_lowercase(s: Seq<char>) -> Seq<char>;

/// The Unicode lowercase mapping of `s` (std `str::to_lowercase`), which depends on
/// the text alone.
#[verifier::external_body]
fn to_lowercase(s: &str) -> (r: String)
    ensures
        r@ == unicode_lowercase(s@),
{
    s.to_lowercase()
}

/// A control character (general category Cc), as `char::is_control` classifies it.
pub open spec fn is_control(c: char) -> bool {
    (c as u32) <= 0x1f || (0x7f <= (c as u32) <= 0x9f)
}

/// A usable preset name (already trimmed): 1 to 64 characters, none of them control
/// characters, and neither of the built-in names in any case.
pub open spec fn valid_name(t: Seq<char>) -> bool {
    &&& 1 <= t.len() <= MAX_NAME_CHARS
    &&& forall|i: int| 0 <= i < t.len() ==> !is_control(#[trigger] t[i])
    &&& unicode_lowercase(t) != "default"@
    &&& unicode_lowercase(t) != "unsaved copy"@
}

/// The presets as names and shapes.
pub open spec fn view_of<S>(ps: Seq<Preset<S>>) -> Seq<(Seq<char>, S)> {
    ps.map_values(|p: Preset<S>| (p.name@, p.shape))
}

/// Some preset of `ps` has the name `t`, ignoring case.
pub open spec fn name_taken<S>(ps: Seq<(Seq<char>, S)>, t: Seq<char>) -> bool {
    exists|i: int| 0 <= i < ps.len() && unicode_lowercase((#[trigger] ps[i]).0) == unicode_lowercase(t)
}

/// At most 128 presets, each with a usable name, no two names equal ignoring case.
pub open spec fn well_formed<S>(ps: Seq<(Seq<char>, S)>) -> bool {
    &&& ps.len() <= MAX_PRESETS
    &&& forall|i: int| 0 <= i < ps.len() ==> valid_name(#[trigger] ps[i].0)
    &&& forall|i: int, j: int|
        0 <= i < ps.len() && 0 <= j < ps.len() && i != j ==> unicode_lowercase(#[trigger] ps[i].0)
            != unicode_lowercase(#[trigger] ps[j].0)
}

pub open spec fn name_error() -> Seq<char> {
    "Use a name of 1-64 characters other than Default or Unsaved copy."@
}

pub open spec fn full_error() -> Seq<char> {
    "Choose a new name; existing presets are never overwritten (maximum 128)."@
}

pub open spec fn missing_error() -> Seq<char> {
    "Only saved custom presets can be deleted"@
}

pub open spec fn check_text(check: Result<(), String>) -> Result<(), Seq<char>> {
    match check {
        Ok(()) => Ok(()),
        Err(e) => Err(e@),
    }
}

/// Adding `name` with a shape whose check gave `check`: the new presets, or the error.
/// The name is trimmed; a new preset goes last and nothing before it changes.
pub open spec fn added<S>(ps: Seq<(Seq<char>, S)>, name: Seq<char>, shape: S, check: Result<(), Seq<char>>) -> Result<
    Seq<(Seq<char>, S)>,
    Seq<char>,
> {
    let t = trim(name);
    if !valid_name(t) {
        Err(name_error())
    } else if ps.len() >= MAX_PRESETS || name_taken(ps, t) {
        Err(full_error())
    } else {
        match check {
            Err(e) => Err(e),
            Ok(()) => Ok(ps.push((t, shape))),
        }
    }
}

/// Some preset is named exactly `name`.
pub open spec fn has_name<S>(ps: Seq<(Seq<char>, S)>, name: Seq<char>) -> bool {
    exists|i: int| 0 <= i < ps.len() && (#[trigger] ps[i]).0 == name
}

/// Deleting the preset named exactly `name`: the presets without it, or the error.
pub open spec fn removed<S>(ps: Seq<(Seq<char>, S)>, name: Seq<char>) -> Result<Seq<(Seq<char>, S)>, Seq<char>> {
    if has_name(ps, name) {
        Ok(ps.remove(choose|i: int| 0 <= i < ps.len() && (#[trigger] ps[i]).0 == name))
    } else {
        Err(missing_error())
    }
}

impl<S> View for Library<S> {
    type V = Seq<(Seq<char>, S)>;

    closed spec fn view(&self) -> Seq<(Seq<char>, S)> {
        view_of(self.presets@)
    }
}

/// In a well-formed library, the preset named exactly `name` is the only one so named.
proof fn lemma_unique_name<S>(ps: Seq<(Seq<char>, S)>, name: Seq<char>, i: int)
    requires
        well_formed(ps),
        0 <= i < ps.len(),
        ps[i].0 == name,
    ensures
        (choose|j: int| 0 <= j < ps.len() && (#[trigger] ps[j]).0 == name) == i,
{
    let j = choose|j: int| 0 <= j < ps.len() && (#[trigger] ps[j]).0 == name;
    if j != i {
        assert(unicode_lowercase(ps[i].0) != unicode_lowercase(ps[j].0));
    }
}

impl<S> Library<S> {
    #[verifier::type_invariant]
    spec fn inv(self) -> bool {
        well_formed(view_of(self.presets@))
    }

    /// An empty library.
    pub fn new() -> (l: Self)
        ensures
            l@ == Seq::<(Seq<char>, S)>::empty(),
    {
        let l = Library { presets: Vec::new() };
        assert(view_of(l.presets@) =~= Seq::<(Seq<char>, S)>::empty());
        l
    }

    /// The presets, oldest first.
    pub fn presets(&self) -> (r: &Vec<Preset<S>>)
        ensures
            view_of(r@) == self@,
    {
        &self.presets
    }

    /// Add a preset named `name` (trimmed) with `shape`, whose check gave `check`.
    pub fn add(&mut self, name: &str, shape: S, check: Result<(), String>) -> (r: Result<(), String>)
        ensures
            well_formed(final(self)@),
            final(self)@.len() >= old(self)@.len(),
            final(self)@.take(old(self)@.len() as int) == old(self)@,
            match added(old(self)@, name@, shape, check_text(check)) {
                Ok(ps) => r is Ok && final(self)@ == ps,
                Err(e) => (r matches Err(x) && x@ == e) && final(self)@ == old(self)@,
            },
    {
        proof {
            use_type_invariant(&*self);
        }
        let ghost before = self@;
        let t = trimmed(&chars_of(name));
        let mut control = false;
        let mut k: usize = 0;
        while k < t.len()
            invariant
                k <= t@.len(),
                well_formed(before),
                self@ == before,
                control == exists|m: int| 0 <= m < k && is_control(#[trigger] t@[m]),
            decreases t@.len() - k,
        {
            let v = t[k] as u32;
            if v <= 0x1f || (0x7f <= v && v <= 0x9f) {
                control = true;
            }
            k += 1;
        }
        let trimmed_name = string_of(&t);
        let lower = chars_of(to_lowercase(trimmed_name.as_str()).as_str());
        if t.len() == 0 || t.len() > MAX_NAME_CHARS || control || same_text(&lower, "default") || same_text(
            &lower,
            "unsaved copy",
        ) {
            return Err("Use a name of 1-64 characters other than Default or Unsaved copy.".to_owned());
        }
        assert(valid_name(t@));
        if self.presets.len() >= MAX_PRESETS {
            return Err("Choose a new name; existing presets are never overwritten (maximum 128).".to_owned());
        }
        let mut i: usize = 0;
        while i < self.presets.len()
            invariant
                i <= self.presets@.len() < MAX_PRESETS,
                self@ == before,
                old(self)@ == before,
                t@ == trim(name@),
                well_formed(before),
                valid_name(t@),
                lower@ == unicode_lowercase(t@),
                forall|m: int| 0 <= m < i ==> unicode_lowercase((#[trigger] self@[m]).0) != unicode_lowercase(t@),
            decreases self.presets@.len() - i,
        {
            let other = chars_of(to_lowercase(self.presets[i].name.as_str()).as_str());
            assert(self@[i as int].0 == self.presets@[i as int].name@);
            if same_chars(&other, &lower) {
                assert(name_taken(before, t@));
                return Err("Choose a new name; existing presets are never overwritten (maximum 128).".to_owned());
            }
            i += 1;
        }
        match check {
            Err(e) => Err(e),
            Ok(()) => {
                proof {
                    lemma_push_keeps(before, t@, shape);
                }
                let mut ps: Vec<Preset<S>> = Vec::new();
                std::mem::swap(&mut ps, &mut self.presets);
                ps.push(Preset { name: trimmed_name, shape });
                assert(view_of(ps@) =~= before.push((t@, shape)));
                assert(before.push((t@, shape)).take(before.len() as int) =~= before);
                self.presets = ps;
                Ok(())
            },
        }
    }

    /// Delete the preset named exactly `name`.
    pub fn remove(&mut self, name: &str) -> (r: Result<(), String>)
        ensures
            well_formed(final(self)@),
            match removed(old(self)@, name@) {
                Ok(ps) => r is Ok && final(self)@ == ps,
                Err(e) => (r matches Err(x) && x@ == e) && final(self)@ == old(self)@,
            },
    {
        proof {
            use_type_invariant(&*self);
        }
        let ghost before = self@;
        let mut i: usize = 0;
        while i < self.presets.len()
            invariant
                i <= self.presets@.len(),
                self@ == before,
                old(self)@ == before,
                well_formed(before),
                forall|m: int| 0 <= m < i ==> (#[trigger] before[m]).0 != name@,
            decreases self.presets@.len() - i,
        {
            let here = chars_of(self.presets[i].name.as_str());
            assert(before[i as int].0 == self.presets@[i as int].name@);
            if same_text(&here, name) {
                proof {
                    lemma_unique_name(before, name@, i as int);
                    lemma_remove_keeps(before, i as int);
                }
                let mut ps: Vec<Preset<S>> = Vec::new();
                std::mem::swap(&mut ps, &mut self.presets);
                ps.remove(i);
                assert(view_of(ps@) =~= before.remove(i as int));
                self.presets = ps;
                return Ok(());
            }
            i += 1;
        }
        Err("Only saved custom presets can be deleted".to_owned())
    }
}

impl<S> Default for Library<S> {
    fn default() -> (l: Self)
        ensures
            l@ == Seq::<(Seq<char>, S)>::empty(),
    {
        Library::new()
    }
}

/// A new preset with a usable name not yet taken keeps a library with room well formed.
proof fn lemma_push_keeps<S>(ps: Seq<(Seq<char>, S)>, t: Seq<char>, shape: S)
    requires
        well_formed(ps),
        valid_name(t),
        !name_taken(ps, t),
        ps.len() < MAX_PRESETS,
    ensures
        well_formed(ps.push((t, shape))),
{
    let next = ps.push((t, shape));
    assert forall|i: int, j: int|
        0 <= i < next.len() && 0 <= j < next.len() && i != j implies unicode_lowercase(#[trigger] next[i].0)
        != unicode_lowercase(#[trigger] next[j].0) by {
        if i < ps.len() && j < ps.len() {
            assert(next[i] == ps[i] && next[j] == ps[j]);
        } else if i < ps.len() {
            assert(next[i] == ps[i]);
        } else {
            assert(next[j] == ps[j]);
        }
    }
    assert forall|i: int| 0 <= i < next.len() implies valid_name(#[trigger] next[i].0) by {
        if i < ps.len() {
            assert(next[i] == ps[i]);
        }
    }
}

/// Deleting a preset keeps a library well formed.
proof fn lemma_remove_keeps<S>(ps: Seq<(Seq<char>, S)>, k: int)
    requires
        well_formed(ps),
        0 <= k < ps.len(),
    ensures
        well_formed(ps.remove(k)),
{
    let next = ps.remove(k);
    assert forall|i: int, j: int|
        0 <= i < next.len() && 0 <= j < next.len() && i != j implies unicode_lowercase(#[trigger] next[i].0)
        != unicode_lowercase(#[trigger] next[j].0) by {
        let a = if i < k { i } else { i + 1 };
        let b = if j < k { j } else { j + 1 };
        assert(next[i] == ps[a] && next[j] == ps[b]);
    }
    assert forall|i: int| 0 <= i < next.len() implies valid_name(#[trigger] next[i].0) by {
        let a = if i < k { i } else { i + 1 };
        assert(next[i] == ps[a]);
    }
}

/// Deleting a preset just added gives back the library it was added to.
pub proof fn lemma_remove_undoes_add<S>(ps: Seq<(Seq<char>, S)>, name: Seq<char>, shape: S, check: Result<(), Seq<char>>)
    requires
        well_formed(ps),
        added(ps, name, shape, check) is Ok,
    ensures
        removed(added(ps, name, shape, check)->Ok_0, trim(name)) == Ok::<Seq<(Seq<char>, S)>, Seq<char>>(ps),
{
    let t = trim(name);
    let next = ps.push((t, shape));
    lemma_push_keeps(ps, t, shape);
    assert(next[ps.len() as int].0 == t);
    lemma_unique_name(next, t, ps.len() as int);
    assert(next.remove(ps.len() as int) =~= ps);
}

} // verus!
