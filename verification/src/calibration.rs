//! Guided raw-pressure calibration: stage prompts and the file type of dedicated
//! calibration profiles. Paths reach these functions as what their logic reads: the
//! extension of the chosen path and whether it names a file.
use vstd::prelude::*;
use crate::text::{chars_of, push_str};

verus! {

/// The extension every calibration profile carries.
pub const PROFILE_EXTENSION: &'static str = "calibration_profile";

/// The extension of a chosen path (`Path::extension`).
pub enum Extension {
    /// The path has no extension (or names no file).
    Missing,
    /// The extension is not valid Unicode.
    NotUnicode,
    /// The extension, without its dot.
    Text(String),
}

pub open spec fn ascii_lower(c: char) -> char {
    if 'A' <= c <= 'Z' {
        ((c as u32) + 32) as char
    } else {
        c
    }
}

/// Equal up to the case of ASCII letters.
pub open spec fn ascii_case_eq(a: Seq<char>, b: Seq<char>) -> bool {
    a.len() == b.len() && forall|i: int| 0 <= i < a.len() ==> ascii_lower(#[trigger] a[i]) == ascii_lower(b[i])
}

/// The code of a character with ASCII letters in lower case.
fn lower_code(c: char) -> (r: u32)
    ensures
        r == ascii_lower(c) as u32,
{
    if 'A' <= c && c <= 'Z' {
        c as u32 + 32
    } else {
        c as u32
    }
}

/// The two texts match ignoring ASCII case, as `str::eq_ignore_ascii_case` compares.
fn eq_ignore_ascii_case(a: &str, b: &str) -> (r: bool)
    ensures
        r == ascii_case_eq(a@, b@),
{
    let x = chars_of(a);
    let y = chars_of(b);
    if x.len() != y.len() {
        return false;
    }
    let mut i: usize = 0;
    while i < x.len()
        invariant
            i <= x@.len(),
            x@ == a@,
            y@ == b@,
            x@.len() == y@.len(),
            forall|j: int| 0 <= j < i ==> ascii_lower(#[trigger] a@[j]) == ascii_lower(b@[j]),
        decreases x@.len() - i,
    {
        let lx = lower_code(x[i]);
        let ly = lower_code(y[i]);
        if lx != ly {
            assert(ascii_lower(a@[i as int]) != ascii_lower(b@[i as int]));
            return false;
        }
        i += 1;
    }
    true
}

pub open spec fn profile_name_error() -> Seq<char> {
    "Use a name ending in .calibration_profile (for example, Pencil.calibration_profile)."@
}

/// The extension marks a calibration profile.
pub open spec fn is_profile_extension(extension: Extension) -> bool {
    extension matches Extension::Text(t) && ascii_case_eq(t@, PROFILE_EXTENSION@)
}

/// Enforce the separate file type even when a name is typed into the native picker.
pub fn validate_profile_path(extension: &Extension) -> (r: Result<(), String>)
    ensures
        r is Ok <==> is_profile_extension(*extension),
        r matches Err(e) ==> e@ == profile_name_error(),
{
    let ok = match extension {
        Extension::Text(t) => eq_ignore_ascii_case(t.as_str(), PROFILE_EXTENSION),
        _ => false,
    };
    if ok {
        Ok(())
    } else {
        Err("Use a name ending in .calibration_profile (for example, Pencil.calibration_profile).".to_owned())
    }
}

/// Where an export goes: `Ok(true)` appends the profile extension to a chosen name that
/// has none, `Ok(false)` keeps a name already ending in it. A path that names no file
/// cannot take an extension, and any other extension is refused.
pub fn export_path(extension: &Extension, names_file: bool) -> (r: Result<bool, String>)
    ensures
        r == Ok::<bool, String>(true) <==> extension is Missing && names_file,
        r == Ok::<bool, String>(false) <==> is_profile_extension(*extension),
        r matches Err(e) ==> e@ == profile_name_error(),
{
    match extension {
        Extension::Missing => {
            if names_file {
                Ok(true)
            } else {
                Err("Use a name ending in .calibration_profile (for example, Pencil.calibration_profile).".to_owned())
            }
        },
        _ => match validate_profile_path(extension) {
            Ok(()) => Ok(false),
            Err(e) => Err(e),
        },
    }
}

pub open spec fn stage_instruction(stage: usize) -> Seq<char> {
    if stage == 0 {
        "Light strokes: use gentle tip contact."@
    } else if stage == 1 {
        "Medium strokes: use your normal, comfortable drawing pressure."@
    } else {
        "Firm strokes: use comfortably firm pressure. Never press hard."@
    }
}

pub open spec fn recording_rules() -> Seq<char> {
    "\r\n\r\nClick OK, then draw at least two strokes inside the square, lifting between them. Recording starts with the first stroke and lasts 8 seconds. Strokes elsewhere are ignored."@
}

/// The prompt shown before recording a calibration stage.
pub fn stage_prompt(stage: usize) -> (s: String)
    ensures
        s@ == stage_instruction(stage) + recording_rules(),
{
    let mut s = String::new();
    if stage == 0 {
        push_str(&mut s, "Light strokes: use gentle tip contact.");
    } else if stage == 1 {
        push_str(&mut s, "Medium strokes: use your normal, comfortable drawing pressure.");
    } else {
        push_str(&mut s, "Firm strokes: use comfortably firm pressure. Never press hard.");
    }
    push_str(
        &mut s,
        "\r\n\r\nClick OK, then draw at least two strokes inside the square, lifting between them. Recording starts with the first stroke and lasts 8 seconds. Strokes elsewhere are ignored.",
    );
    assert(s@ =~= stage_instruction(stage) + recording_rules());
    s
}

/// How long a stage records after its first stroke begins.
pub const STAGE_MS: u64 = 8_000;
/// How long an armed stage waits for the first contact.
pub const WAIT_MS: u64 = 120_000;
/// The stage names, light to firm.
pub const STAGES: [&'static str; 3] = ["Light", "Medium", "Comfortably firm"];
/// A stroke keeps at most this many samples.
pub const STROKE_CAPACITY: usize = 8_192;

/// The values in increasing order.
pub open spec fn sorted(s: Seq<u16>) -> bool {
    forall|i: int, j: int| 0 <= i < j < s.len() ==> s[i] <= s[j]
}

/// Sorts the values in increasing order (std `slice::sort_unstable`), which std documents
/// as reordering the values into a sorted permutation of themselves.
#[verifier::external_body]
fn sort_unstable(v: &mut Vec<u16>)
    ensures
        final(v)@.to_multiset() == old(v)@.to_multiset(),
        sorted(final(v)@),
{
    v.sort_unstable();
}

/// What a finished stroke contributes: with at least 20 samples, the stroke without its
/// first and last fifth; a shorter stroke contributes nothing.
pub open spec fn stroke_body(stroke: Seq<u16>) -> Seq<u16> {
    if stroke.len() >= 20 {
        stroke.subrange((stroke.len() / 5) as int, stroke.len() - stroke.len() / 5)
    } else {
        seq![]
    }
}

/// Anchors a profile can be built from: light to firm, each in 20..=980 and at least 40
/// above the previous one.
pub open spec fn spaced(anchors: Seq<u16>) -> bool {
    &&& forall|i: int| 0 <= i < anchors.len() ==> 20 <= #[trigger] anchors[i] <= 980
    &&& forall|i: int| 0 < i < anchors.len() ==> #[trigger] anchors[i] >= anchors[i - 1] + 40
}

pub open spec fn anchors_error() -> Seq<char> {
    "Three distinct light, medium and firm pressure measurements are required."@
}

/// The anchor check a suggested pressure profile starts from: three spaced anchors.
pub fn check_anchors(anchors: &Vec<u16>) -> (r: Result<(), String>)
    ensures
        r is Ok <==> anchors@.len() == 3 && spaced(anchors@),
        r matches Err(e) ==> e@ == anchors_error(),
{
    let ok = anchors.len() == 3 && anchors[0] >= 20 && anchors[2] <= 980 && anchors[1] as u32 >= anchors[0] as u32
        + 40 && anchors[2] as u32 >= anchors[1] as u32 + 40;
    if ok {
        Ok(())
    } else {
        Err("Three distinct light, medium and firm pressure measurements are required.".to_owned())
    }
}

/// The largest calibration profile file read, in bytes.
pub const PROFILE_FILE_LIMIT: usize = 65_536;

/// A calibration profile file is read only when it fits in 64 KiB.
pub fn check_profile_size(len: usize) -> (r: Result<(), String>)
    ensures
        r is Ok <==> len <= PROFILE_FILE_LIMIT,
        r matches Err(e) ==> e@ == "Calibration profile is too large (maximum 64 KiB)."@,
{
    if len > PROFILE_FILE_LIMIT {
        Err("Calibration profile is too large (maximum 64 KiB).".to_owned())
    } else {
        Ok(())
    }
}

/// Only the first calibration profile file version is read.
pub fn check_profile_version(version: u32) -> (r: Result<(), String>)
    ensures
        r is Ok <==> version == 1,
        r matches Err(e) ==> e@ == "Unsupported calibration profile version."@,
{
    if version != 1 {
        Err("Unsupported calibration profile version.".to_owned())
    } else {
        Ok(())
    }
}

pub open spec fn no_contact_error() -> Seq<char> {
    "No pen contact received. Check the driver, then record this stage again."@
}

pub open spec fn too_few_strokes_error() -> Seq<char> {
    "Draw at least two strokes during this stage, lifting between them. Please retry."@
}

pub open spec fn unordered_error() -> Seq<char> {
    "Pressure levels were too close or out of order. Retry with distinct, comfortable pressure; do not press hard."@
}

/// `a - b`, or 0 when `b` is later.
pub open spec fn elapsed(a: u64, b: u64) -> int {
    if a >= b {
        a - b
    } else {
        0
    }
}

/// One guided calibration: the current stage, whether it is recording, when its first
/// stroke began, and the anchors (median raw pressures) of the stages recorded so far.
pub struct Session {
    pub stage: usize,
    pub active: bool,
    pub started: Option<u64>,
    armed: u64,
    stroke: Vec<u16>,
    bodies: Vec<u16>,
    strokes: usize,
    pub anchors: Vec<u16>,
}

impl Default for Session {
    fn default() -> (s: Session)
        ensures
            s.stage() == 0 && !s.active() && s.started() is None && s.anchors().len() == 0 && s.wf(),
            s.armed() == 0 && s.stroke().len() == 0 && s.bodies().len() == 0 && s.strokes() == 0,
    {
        Session {
            stage: 0,
            active: false,
            started: None,
            armed: 0,
            stroke: Vec::new(),
            bodies: Vec::new(),
            strokes: 0,
            anchors: Vec::new(),
        }
    }
}

impl Session {
    pub closed spec fn stage(&self) -> usize {
        self.stage
    }

    pub closed spec fn active(&self) -> bool {
        self.active
    }

    pub closed spec fn started(&self) -> Option<u64> {
        self.started
    }

    pub closed spec fn anchors(&self) -> Seq<u16> {
        self.anchors@
    }

    /// When the stage was armed.
    pub closed spec fn armed(&self) -> u64 {
        self.armed
    }

    /// The raw pressures of the stroke in progress.
    pub closed spec fn stroke(&self) -> Seq<u16> {
        self.stroke@
    }

    /// The trimmed bodies of this stage's finished strokes.
    pub closed spec fn bodies(&self) -> Seq<u16> {
        self.bodies@
    }

    /// How many strokes of this stage were long enough to count.
    pub closed spec fn strokes(&self) -> nat {
        self.strokes as nat
    }

    /// While recording, every counted stroke left at least 12 samples in the bodies; a
    /// stroke stays within its capacity.
    pub closed spec fn wf(&self) -> bool {
        &&& self.active ==> self.strokes * 12 <= self.bodies@.len()
        &&& self.stroke@.len() <= STROKE_CAPACITY
    }

    /// Start recording a stage at `now`.
    pub fn arm(&mut self, now: u64)
        ensures
            final(self).active(),
            final(self).started() is None,
            final(self).armed() == now,
            final(self).stroke().len() == 0 && final(self).bodies().len() == 0 && final(self).strokes() == 0,
            final(self).stage() == old(self).stage() && final(self).anchors() == old(self).anchors(),
            final(self).wf(),
    {
        self.active = true;
        self.started = None;
        self.armed = now;
        self.stroke.clear();
        self.bodies.clear();
        self.strokes = 0;
    }

    /// Stop recording; what this stage collected is dropped.
    pub fn cancel(&mut self)
        requires
            old(self).wf(),
        ensures
            !final(self).active(),
            final(self).started() is None,
            final(self).stroke().len() == 0 && final(self).bodies().len() == 0,
            final(self).strokes() == old(self).strokes() && final(self).armed() == old(self).armed(),
            final(self).stage() == old(self).stage() && final(self).anchors() == old(self).anchors(),
    {
        self.active = false;
        self.started = None;
        self.stroke.clear();
        self.bodies.clear();
    }

    /// Close the stroke in progress: a long enough one adds its trimmed body and counts.
    fn end_stroke(&mut self)
        requires
            old(self).wf(),
            old(self).active(),
        ensures
            final(self).wf(),
            final(self).stroke().len() == 0,
            final(self).bodies() == old(self).bodies() + stroke_body(old(self).stroke()),
            final(self).strokes() == old(self).strokes() + (if old(self).stroke().len() >= 20 { 1nat } else { 0nat }),
            final(self).stage() == old(self).stage() && final(self).anchors() == old(self).anchors(),
            final(self).active() == old(self).active() && final(self).started() == old(self).started(),
            final(self).armed() == old(self).armed(),
    {
        let n = self.stroke.len();
        if n >= 20 {
            let trim = n / 5;
            let ghost before = self.bodies@;
            let mut i = trim;
            while i < n - trim
                invariant
                    trim == n / 5,
                    n == self.stroke@.len(),
                    n >= 20,
                    trim <= i <= n - trim,
                    self.bodies@ == before + self.stroke@.subrange(trim as int, i as int),
                    self.stroke@ == old(self).stroke@,
                    before == old(self).bodies@,
                    self.strokes == old(self).strokes,
                    self.stage == old(self).stage,
                    self.anchors@ == old(self).anchors@,
                    self.active == old(self).active,
                    self.started == old(self).started,
                    self.armed == old(self).armed,
                    old(self).wf(),
                decreases n - trim - i,
            {
                self.bodies.push(self.stroke[i]);
                proof {
                    assert(self.stroke@.subrange(trim as int, i as int + 1) =~= self.stroke@.subrange(
                        trim as int,
                        i as int,
                    ).push(self.stroke@[i as int]));
                }
                i += 1;
            }
            assert(n - 2 * trim >= 12);
            let len = self.bodies.len();
            assert(self.strokes * 12 + 12 <= len);
            self.strokes = self.strokes + 1;
        }
        self.stroke.clear();
    }

    /// A pen sample at `now` while recording: contact with a raw pressure in 3..=1023
    /// extends the stroke (starting the stage clock), anything else ends it.
    pub fn sample(&mut self, now: u64, raw: i32, touching: bool)
        requires
            old(self).wf(),
        ensures
            final(self).wf(),
            final(self).stage() == old(self).stage() && final(self).anchors() == old(self).anchors(),
            final(self).active() == old(self).active() && final(self).armed() == old(self).armed(),
            !old(self).active() ==> final(self).started() == old(self).started() && final(self).stroke() == old(
                self,
            ).stroke() && final(self).bodies() == old(self).bodies() && final(self).strokes() == old(self).strokes(),
            old(self).active() && touching && 3 <= raw <= 1023 ==> {
                &&& final(self).started() == (if old(self).started() is Some { old(self).started() } else { Some(now) })
                &&& final(self).stroke() == (if old(self).stroke().len() < STROKE_CAPACITY {
                    old(self).stroke().push(raw as u16)
                } else {
                    old(self).stroke()
                })
                &&& final(self).bodies() == old(self).bodies() && final(self).strokes() == old(self).strokes()
            },
            old(self).active() && !(touching && 3 <= raw <= 1023) ==> {
                &&& final(self).started() == old(self).started()
                &&& final(self).stroke().len() == 0
                &&& final(self).bodies() == old(self).bodies() + stroke_body(old(self).stroke())
                &&& final(self).strokes() == old(self).strokes() + (if old(self).stroke().len() >= 20 {
                    1nat
                } else {
                    0nat
                })
            },
    {
        if !self.active {
            return;
        }
        if touching && 3 <= raw && raw <= 1023 {
            if self.started.is_none() {
                self.started = Some(now);
            }
            if self.stroke.len() < STROKE_CAPACITY {
                self.stroke.push(raw as u16);
            }
        } else {
            self.end_stroke();
        }
    }

    /// The stage's inputs are unchanged.
    pub open spec fn same_as(&self, other: &Session) -> bool {
        &&& self.stage() == other.stage() && self.active() == other.active() && self.started() == other.started()
        &&& self.anchors() == other.anchors() && self.armed() == other.armed() && self.stroke() == other.stroke()
        &&& self.bodies() == other.bodies() && self.strokes() == other.strokes()
    }

    /// An armed stage that saw no contact within `WAIT_MS` has timed out.
    pub open spec fn expired(&self, now: u64) -> bool {
        self.active() && self.started() is None && elapsed(now, self.armed()) >= WAIT_MS
    }

    /// A stage that began recording `STAGE_MS` ago is finished.
    pub open spec fn finished(&self, now: u64) -> bool {
        &&& self.active()
        &&& self.started() matches Some(start) && elapsed(now, start) >= STAGE_MS
    }

    /// The bodies a finishing stage has collected, including the stroke in progress.
    pub open spec fn collected(&self) -> Seq<u16> {
        self.bodies() + stroke_body(self.stroke())
    }

    /// The counted strokes a finishing stage has, including the stroke in progress.
    pub open spec fn counted(&self) -> nat {
        self.strokes() + if self.stroke().len() >= 20 { 1nat } else { 0nat }
    }

    /// Advance the clock to `now`. `None` while the stage waits or records. A stage that
    /// saw no contact in time is cancelled; a finished stage stops recording and, with at
    /// least two counted strokes and 100 collected samples, takes the median of what it
    /// collected as its anchor, which must lie in 20..=980 and 40 above the previous
    /// anchor. `Some(Ok(complete))` records the anchor; `complete` once the third stage is
    /// recorded (the caller then builds the suggested profile from the anchors).
    /// `Some(Err(..))` keeps the stage for a retry.
    pub fn tick(&mut self, now: u64) -> (r: Option<Result<bool, String>>)
        requires
            old(self).wf(),
            old(self).stage() < usize::MAX,
        ensures
            final(self).wf(),
            final(self).armed() == old(self).armed(),
            r is None <==> !old(self).expired(now) && !old(self).finished(now),
            r is None ==> final(self).same_as(old(self)),
            old(self).expired(now) ==> {
                &&& r matches Some(Err(e)) && e@ == no_contact_error()
                &&& !final(self).active() && final(self).started() is None
                &&& final(self).stroke().len() == 0 && final(self).bodies().len() == 0
                &&& final(self).strokes() == old(self).strokes()
                &&& final(self).stage() == old(self).stage() && final(self).anchors() == old(self).anchors()
            },
            old(self).finished(now) ==> {
                &&& !final(self).active() && final(self).started() == old(self).started()
                &&& final(self).stroke().len() == 0 && final(self).strokes() == old(self).counted()
                &&& final(self).bodies().to_multiset() == old(self).collected().to_multiset()
            },
            old(self).finished(now) && (old(self).counted() < 2 || old(self).collected().len() < 100) ==> {
                &&& r matches Some(Err(e)) && e@ == too_few_strokes_error()
                &&& final(self).stage() == old(self).stage() && final(self).anchors() == old(self).anchors()
            },
            old(self).finished(now) && old(self).counted() >= 2 && old(self).collected().len() >= 100 ==> {
                let anchor = final(self).bodies()[(old(self).collected().len() / 2) as int];
                let prior = old(self).anchors();
                &&& sorted(final(self).bodies())
                &&& if anchor < 20 || anchor > 980 || (prior.len() > 0 && anchor < prior.last() + 40) {
                    &&& r matches Some(Err(e)) && e@ == unordered_error()
                    &&& final(self).stage() == old(self).stage() && final(self).anchors() == prior
                } else {
                    &&& final(self).anchors() == prior.push(anchor)
                    &&& final(self).stage() == old(self).stage() + 1
                    &&& r == Some(Ok::<bool, String>(final(self).stage() == 3))
                }
            },
            spaced(old(self).anchors()) ==> spaced(final(self).anchors()),
    {
        if !self.active {
            return None;
        }
        match self.started {
            None => {
                let waited = if now >= self.armed { now - self.armed } else { 0 };
                if waited >= WAIT_MS {
                    self.cancel();
                    return Some(Err("No pen contact received. Check the driver, then record this stage again.".to_owned()));
                }
                return None;
            },
            Some(start) => {
                let recorded = if now >= start { now - start } else { 0 };
                if recorded < STAGE_MS {
                    return None;
                }
            },
        }
        self.end_stroke();
        self.active = false;
        if self.strokes < 2 || self.bodies.len() < 100 {
            return Some(Err("Draw at least two strokes during this stage, lifting between them. Please retry.".to_owned()));
        }
        let ghost unsorted = self.bodies@;
        sort_unstable(&mut self.bodies);
        proof {
            vstd::seq_lib::to_multiset_len(unsorted);
            vstd::seq_lib::to_multiset_len(self.bodies@);
        }
        let anchor = self.bodies[self.bodies.len() / 2];
        let out_of_order = if self.anchors.len() > 0 {
            let last = self.anchors[self.anchors.len() - 1];
            (anchor as u32) < (last as u32) + 40
        } else {
            false
        };
        if anchor < 20 || anchor > 980 || out_of_order {
            return Some(
                Err(
                    "Pressure levels were too close or out of order. Retry with distinct, comfortable pressure; do not press hard.".to_owned(),
                ),
            );
        }
        let ghost prior = self.anchors@;
        self.anchors.push(anchor);
        self.stage = self.stage + 1;
        proof {
            if spaced(prior) {
                assert forall|i: int| 0 < i < self.anchors@.len() implies #[trigger] self.anchors@[i]
                    >= self.anchors@[i - 1] + 40 by {
                    if i < prior.len() {
                        assert(self.anchors@[i] == prior[i]);
                        assert(self.anchors@[i - 1] == prior[i - 1]);
                    }
                }
            }
        }
        Some(Ok(self.stage == 3))
    }
}

} // verus!
