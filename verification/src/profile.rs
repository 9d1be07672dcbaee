//! The whole-number and named settings of a pressure profile, and the order in which a
//! profile's checks report its first problem. The real-valued settings (curve shape,
//! filter amounts, pressure nodes) are checked by the caller, which passes what it found.
use vstd::prelude::*;
use crate::button_actions::{spec_validate, validate};
use crate::protocol::Sample;
use crate::text::{chars_of, same_text};

verus! {

/// The settings of a profile that are whole numbers or names.
pub struct ProfileSettings {
    pub floor: u16,
    pub ceiling: u16,
    pub press_on: u16,
    pub press_off: u16,
    pub output_hz: u32,
    pub stale_ms: u32,
    /// Extra double-tap tolerance in primary-screen pixels; zero disables assistance.
    pub double_click_distance: u32,
    pub button1: String,
    pub button2: String,
    pub backend: String,
    /// off = drawing settings; on = manual handwriting; auto = stroke heuristic.
    pub handwriting_mode: String,
    pub handwriting_filter: String,
    pub stroke_smoothing: bool,
    pub preserve_aspect: bool,
    pub left_handed: bool,
    pub virtual_tilt: bool,
    /// Compatibility report framing, changeable live while the pen is lifted.
    pub legacy_reports: bool,
    /// Remember an explicit choice of the older controls across restarts.
    pub keep_advanced_smoothing: bool,
    /// Protect deliberate corners and sustained small curves from combined smoothing.
    pub preserve_corners: bool,
    /// The individual artistic sliders apply after the base filter.
    pub independent_line_controls: bool,
}

/// The real-valued settings that must lie in a closed range, in the order they are checked.
#[derive(Clone, Copy, Debug, PartialEq, Eq)]
pub enum RealSetting {
    MaxSmoothingDistance,
    WobbleReduction,
    StreamlineAmount,
    StreamlinePressure,
    StabilizationAmount,
    MotionFilterAmount,
    MotionFilterExpression,
    Gamma,
    Gain,
    SmoothingMs,
    Responsiveness,
    InterpolationMs,
    StrokeMinCutoff,
    StrokeBeta,
    TiltMaxDegrees,
}

/// What the caller found checking the real-valued settings.
pub struct RealChecks {
    /// `circle_smoothing` is finite and within 0..=100.
    pub circle_smoothing: bool,
    /// `pen_control` is absent, or finite and within 0..=100.
    pub pen_control: bool,
    /// The pressure nodes form a valid curve.
    pub pressure_nodes: bool,
    /// The first setting of the ranged list that is not finite or lies outside its range.
    pub out_of_range: Option<RealSetting>,
}

/// The message for a ranged setting out of its range.
pub open spec fn range_message(s: RealSetting) -> Seq<char> {
    match s {
        RealSetting::MaxSmoothingDistance => "max_smoothing_distance_mm must be finite and within 0..=5"@,
        RealSetting::WobbleReduction => "wobble_reduction must be finite and within 0..=100"@,
        RealSetting::StreamlineAmount => "streamline_amount must be finite and within 0..=100"@,
        RealSetting::StreamlinePressure => "streamline_pressure must be finite and within 0..=100"@,
        RealSetting::StabilizationAmount => "stabilization_amount must be finite and within 0..=100"@,
        RealSetting::MotionFilterAmount => "motion_filter_amount must be finite and within 0..=100"@,
        RealSetting::MotionFilterExpression => "motion_filter_expression must be finite and within 0..=100"@,
        RealSetting::Gamma => "gamma must be finite and within 0.2..=4"@,
        RealSetting::Gain => "gain must be finite and within 0.1..=3"@,
        RealSetting::SmoothingMs => "smoothing_ms must be finite and within 0..=30"@,
        RealSetting::Responsiveness => "responsiveness must be finite and within 0..=100"@,
        RealSetting::InterpolationMs => "interpolation_ms must be finite and within 0..=16"@,
        RealSetting::StrokeMinCutoff => "stroke_min_cutoff_hz must be finite and within 1..=120"@,
        RealSetting::StrokeBeta => "stroke_beta must be finite and within 0..=10"@,
        RealSetting::TiltMaxDegrees => "tilt_max_degrees must be finite and within 0..=60"@,
    }
}

fn range_message_text(s: RealSetting) -> (r: String)
    ensures
        r@ == range_message(s),
{
    match s {
        RealSetting::MaxSmoothingDistance => "max_smoothing_distance_mm must be finite and within 0..=5".to_owned(),
        RealSetting::WobbleReduction => "wobble_reduction must be finite and within 0..=100".to_owned(),
        RealSetting::StreamlineAmount => "streamline_amount must be finite and within 0..=100".to_owned(),
        RealSetting::StreamlinePressure => "streamline_pressure must be finite and within 0..=100".to_owned(),
        RealSetting::StabilizationAmount => "stabilization_amount must be finite and within 0..=100".to_owned(),
        RealSetting::MotionFilterAmount => "motion_filter_amount must be finite and within 0..=100".to_owned(),
        RealSetting::MotionFilterExpression => "motion_filter_expression must be finite and within 0..=100".to_owned(),
        RealSetting::Gamma => "gamma must be finite and within 0.2..=4".to_owned(),
        RealSetting::Gain => "gain must be finite and within 0.1..=3".to_owned(),
        RealSetting::SmoothingMs => "smoothing_ms must be finite and within 0..=30".to_owned(),
        RealSetting::Responsiveness => "responsiveness must be finite and within 0..=100".to_owned(),
        RealSetting::InterpolationMs => "interpolation_ms must be finite and within 0..=16".to_owned(),
        RealSetting::StrokeMinCutoff => "stroke_min_cutoff_hz must be finite and within 1..=120".to_owned(),
        RealSetting::StrokeBeta => "stroke_beta must be finite and within 0..=10".to_owned(),
        RealSetting::TiltMaxDegrees => "tilt_max_degrees must be finite and within 0..=60".to_owned(),
    }
}

pub open spec fn known_filter(f: Seq<char>) -> bool {
    f == "legacy"@ || f == "raw"@ || f == "minimal"@ || f == "responsive"@
}

pub open spec fn known_mode(m: Seq<char>) -> bool {
    m == "off"@ || m == "on"@ || m == "auto"@
}

pub open spec fn known_backend(b: Seq<char>) -> bool {
    b == "ink"@ || b == "hid"@
}

/// The first problem of a profile, in the order the checks run.
pub open spec fn profile_problem(s: ProfileSettings, checks: RealChecks) -> Result<(), Seq<char>> {
    if !checks.circle_smoothing {
        Err("circle_smoothing must be finite and within 0..100"@)
    } else if !checks.pen_control {
        Err("pen_control must be finite and within 0..100"@)
    } else if !known_filter(s.handwriting_filter@) {
        Err("handwriting_filter must be 'legacy', 'raw', 'minimal', or 'responsive'"@)
    } else if !checks.pressure_nodes {
        Err(
            "Pressure nodes must increase in input, never decrease in output, and retain (0,0)/(1,1) endpoints; maximum 16 nodes."@,
        )
    } else if s.double_click_distance > 40 {
        Err("double_click_distance must be 0..40 screen pixels"@)
    } else if !known_mode(s.handwriting_mode@) {
        Err("handwriting_mode must be 'off', 'on', or 'auto'"@)
    } else if !known_backend(s.backend@) {
        Err("backend must be 'ink' or 'hid'"@)
    } else if s.floor >= s.ceiling || s.ceiling > 1023 {
        Err("Require 0 <= floor < ceiling <= 1023"@)
    } else if s.press_off >= s.press_on || s.press_on > 1023 {
        Err("Require press_off < press_on <= 1023"@)
    } else if checks.out_of_range is Some {
        Err(range_message(checks.out_of_range->0))
    } else if !(60 <= s.output_hz <= 500) || !(30 <= s.stale_ms <= 1000) {
        Err("output_hz must be 60..=500; stale_ms must be 30..=1000"@)
    } else if spec_validate(s.button1@) is Err {
        spec_validate(s.button1@)
    } else {
        spec_validate(s.button2@)
    }
}

/// Erase is held while a side button assigned to it is down.
pub open spec fn erasing(states: [bool; 2], button1: Seq<char>, button2: Seq<char>) -> bool {
    (states[0] && button1 == "Erase (hold)"@) || (states[1] && button2 == "Erase (hold)"@)
}

/// The side buttons of a decoded sample as the assignments read them: which are held,
/// and the sample with erase and right-click applied. Erasing wins over a right click.
pub open spec fn assigned(s: Sample, button1: Seq<char>, button2: Seq<char>) -> ([bool; 2], Sample) {
    let states = [s.barrel && s.in_range, s.second_button && s.in_range];
    let eraser = s.eraser || erasing(states, button1, button2);
    let right = (states[0] && button1 == "Right click"@) || (states[1] && button2 == "Right click"@);
    (states, Sample { eraser, barrel: right && !eraser, ..s })
}

impl Default for ProfileSettings {
    /// The built-in profile: the whole sensor range, a straight diagonal, the right
    /// mouse button on the first side button, Windows Ink output at 250 Hz.
    fn default() -> (s: ProfileSettings)
        ensures
            s.floor == 0 && s.ceiling == 1023 && s.press_on == 3 && s.press_off == 1,
            s.output_hz == 250 && s.stale_ms == 100 && s.double_click_distance == 0,
            s.button1@ == "Right click"@ && s.button2@ == "None"@ && s.backend@ == "ink"@,
            s.handwriting_mode@ == "off"@ && s.handwriting_filter@ == "legacy"@,
            s.stroke_smoothing && s.preserve_aspect && !s.left_handed && !s.virtual_tilt && !s.legacy_reports,
            !s.keep_advanced_smoothing && s.preserve_corners && !s.independent_line_controls,
    {
        ProfileSettings {
            floor: 0,
            ceiling: 1023,
            press_on: 3,
            press_off: 1,
            output_hz: 250,
            stale_ms: 100,
            double_click_distance: 0,
            button1: "Right click".to_owned(),
            button2: "None".to_owned(),
            backend: "ink".to_owned(),
            handwriting_mode: "off".to_owned(),
            handwriting_filter: "legacy".to_owned(),
            stroke_smoothing: true,
            preserve_aspect: true,
            left_handed: false,
            virtual_tilt: false,
            legacy_reports: false,
            keep_advanced_smoothing: false,
            preserve_corners: true,
            independent_line_controls: false,
        }
    }
}

impl ProfileSettings {
    /// The simple profile: the defaults with manual handwriting and its minimal filter.
    pub fn simple_default() -> (s: ProfileSettings)
        ensures
            s.floor == 0 && s.ceiling == 1023 && s.press_on == 3 && s.press_off == 1,
            s.output_hz == 250 && s.stale_ms == 100 && s.double_click_distance == 0,
            s.button1@ == "Right click"@ && s.button2@ == "None"@ && s.backend@ == "ink"@,
            s.handwriting_mode@ == "on"@ && s.handwriting_filter@ == "minimal"@,
            s.stroke_smoothing && s.preserve_aspect && !s.left_handed && !s.virtual_tilt && !s.legacy_reports,
            !s.keep_advanced_smoothing && s.preserve_corners && !s.independent_line_controls,
    {
        ProfileSettings {
            handwriting_mode: "on".to_owned(),
            handwriting_filter: "minimal".to_owned(),
            ..ProfileSettings::default()
        }
    }

    /// Check the profile: the first problem found, in the order the checks run, with
    /// `checks` standing for the checks of the real-valued settings.
    pub fn validate(&self, checks: &RealChecks) -> (r: Result<(), String>)
        ensures
            match r {
                Ok(()) => profile_problem(*self, *checks) == Ok::<(), Seq<char>>(()),
                Err(e) => profile_problem(*self, *checks) == Err::<(), Seq<char>>(e@),
            },
    {
        if !checks.circle_smoothing {
            return Err("circle_smoothing must be finite and within 0..100".to_owned());
        }
        if !checks.pen_control {
            return Err("pen_control must be finite and within 0..100".to_owned());
        }
        let filter = chars_of(self.handwriting_filter.as_str());
        if !(same_text(&filter, "legacy") || same_text(&filter, "raw") || same_text(&filter, "minimal")
            || same_text(&filter, "responsive")) {
            return Err("handwriting_filter must be 'legacy', 'raw', 'minimal', or 'responsive'".to_owned());
        }
        if !checks.pressure_nodes {
            return Err(
                "Pressure nodes must increase in input, never decrease in output, and retain (0,0)/(1,1) endpoints; maximum 16 nodes.".to_owned(),
            );
        }
        if self.double_click_distance > 40 {
            return Err("double_click_distance must be 0..40 screen pixels".to_owned());
        }
        let mode = chars_of(self.handwriting_mode.as_str());
        if !(same_text(&mode, "off") || same_text(&mode, "on") || same_text(&mode, "auto")) {
            return Err("handwriting_mode must be 'off', 'on', or 'auto'".to_owned());
        }
        let backend = chars_of(self.backend.as_str());
        if !same_text(&backend, "ink") && !same_text(&backend, "hid") {
            return Err("backend must be 'ink' or 'hid'".to_owned());
        }
        if self.floor >= self.ceiling || self.ceiling > 1023 {
            return Err("Require 0 <= floor < ceiling <= 1023".to_owned());
        }
        if self.press_off >= self.press_on || self.press_on > 1023 {
            return Err("Require press_off < press_on <= 1023".to_owned());
        }
        if let Some(s) = checks.out_of_range {
            return Err(range_message_text(s));
        }
        if !(60 <= self.output_hz && self.output_hz <= 500) || !(30 <= self.stale_ms && self.stale_ms <= 1000) {
            return Err("output_hz must be 60..=500; stale_ms must be 30..=1000".to_owned());
        }
        match validate(self.button1.as_str()) {
            Ok(()) => {},
            Err(e) => return Err(e),
        }
        validate(self.button2.as_str())
    }

    /// A drawing preset applied over this profile: the preset's feel, with this profile's
    /// mapping, shortcuts, output and line-control choices kept.
    pub fn drawing_profile(&self, preset: ProfileSettings) -> (r: ProfileSettings)
        ensures
            r == (ProfileSettings {
                double_click_distance: self.double_click_distance,
                left_handed: self.left_handed,
                preserve_aspect: self.preserve_aspect,
                button1: r.button1,
                button2: r.button2,
                backend: r.backend,
                legacy_reports: self.legacy_reports,
                keep_advanced_smoothing: self.keep_advanced_smoothing,
                preserve_corners: self.preserve_corners,
                independent_line_controls: self.independent_line_controls,
                ..preset
            }),
            r.button1@ == self.button1@ && r.button2@ == self.button2@ && r.backend@ == self.backend@,
    {
        ProfileSettings {
            double_click_distance: self.double_click_distance,
            left_handed: self.left_handed,
            preserve_aspect: self.preserve_aspect,
            button1: self.button1.clone(),
            button2: self.button2.clone(),
            backend: self.backend.clone(),
            legacy_reports: self.legacy_reports,
            keep_advanced_smoothing: self.keep_advanced_smoothing,
            preserve_corners: self.preserve_corners,
            independent_line_controls: self.independent_line_controls,
            ..preset
        }
    }

    /// Apply the side-button assignments to a decoded sample before it reaches the pen
    /// output; also returns which side buttons are held.
    pub fn assign_buttons(&self, sample: Sample) -> (r: ([bool; 2], Sample))
        ensures
            r == assigned(sample, self.button1@, self.button2@),
            r.1.eraser ==> !r.1.barrel,
    {
        let states = [sample.barrel && sample.in_range, sample.second_button && sample.in_range];
        let eraser = sample.eraser || self.button_eraser(states);
        let first = chars_of(self.button1.as_str());
        let second = chars_of(self.button2.as_str());
        let right = (states[0] && same_text(&first, "Right click")) || (states[1] && same_text(&second, "Right click"));
        let out = Sample { eraser, barrel: right && !eraser, ..sample };
        (states, out)
    }

    /// Whether a side button held down now assigns the eraser.
    pub fn button_eraser(&self, states: [bool; 2]) -> (r: bool)
        ensures
            r == erasing(states, self.button1@, self.button2@),
    {
        let first = chars_of(self.button1.as_str());
        let second = chars_of(self.button2.as_str());
        (states[0] && same_text(&first, "Erase (hold)")) || (states[1] && same_text(&second, "Erase (hold)"))
    }
}


/// The sample with its two side switches exchanged.
pub open spec fn switches_swapped(s: Sample) -> Sample {
    Sample { barrel: s.second_button, second_button: s.barrel, ..s }
}

/// The two side buttons are alike: exchanging both the switches and their assignments
/// exchanges which buttons are held and leaves the right click and the erasing as they
/// were.
pub proof fn lemma_buttons_symmetric(s: Sample, button1: Seq<char>, button2: Seq<char>)
    ensures
        assigned(switches_swapped(s), button2, button1).0 == [assigned(s, button1, button2).0[1], assigned(
            s,
            button1,
            button2,
        ).0[0]],
        assigned(switches_swapped(s), button2, button1).1.barrel == assigned(s, button1, button2).1.barrel,
        assigned(switches_swapped(s), button2, button1).1.eraser == assigned(s, button1, button2).1.eraser,
{
    let a = assigned(s, button1, button2).0;
    let b = assigned(switches_swapped(s), button2, button1).0;
    assert(b@ =~= seq![a[1], a[0]]);
    assert(b == [a[1], a[0]]);
}

/// A side button assigned to a right click gives one while held in range, unless erasing
/// (the sample's eraser or a held button assigned to erase) takes precedence; and a right
/// click comes only from a held button assigned to it.
pub proof fn lemma_right_click_assignment(s: Sample, button1: Seq<char>, button2: Seq<char>)
    ensures
        ({
            let (states, out) = assigned(s, button1, button2);
            let held = [s.in_range && s.barrel, s.in_range && s.second_button];
            let right = [button1 == "Right click"@, button2 == "Right click"@];
            let erase = [button1 == "Erase (hold)"@, button2 == "Erase (hold)"@];
            let erasing = s.eraser || (held[0] && erase[0]) || (held[1] && erase[1]);
            &&& states == held
            &&& forall|j: int| 0 <= j < 2 && held[j] && right[j] && !erasing ==> out.barrel
            &&& out.barrel ==> exists|j: int| 0 <= j < 2 && held[j] && right[j]
            &&& out.barrel ==> !out.eraser
            &&& out.eraser == erasing
        }),
{
    let held = [s.in_range && s.barrel, s.in_range && s.second_button];
    let states = assigned(s, button1, button2).0;
    assert(states@ =~= held@);
    let out = assigned(s, button1, button2).1;
    if out.barrel {
        let right = [button1 == "Right click"@, button2 == "Right click"@];
        if held[0] && right[0] {
            assert(0 <= 0int < 2 && held[0int] && right[0int]);
        } else {
            assert(0 <= 1int < 2 && held[1int] && right[1int]);
        }
    }
}

} // verus!
