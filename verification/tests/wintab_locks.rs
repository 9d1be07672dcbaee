use ctl460_rust::wintab::locks::apply_locks;
use ctl460_rust::wintab::words::default_words;

#[test]
fn locked_size_and_sensitivity_survive_a_change() {
    let mut prior = default_words(250, 1920, 1080);
    prior[2] = 1 | 4;
    let mut requested = prior;
    requested[2] = 0;
    requested[14] = 100;
    requested[15] = 200;
    requested[23] = 1;
    requested[11] = 5000;
    let w = apply_locks(&prior, requested, [0, 0]);
    assert_eq!((w[14], w[15], w[16]), (prior[14], prior[15], prior[16]));
    assert_eq!(w[23], prior[23]);
    assert_eq!(w[2], 5);
    // The full-size input cannot move along the tablet.
    assert_eq!(w[11], 0);
}

#[test]
fn a_locked_aspect_takes_the_scaled_size_and_stays_on_the_tablet() {
    let mut prior = default_words(250, 1920, 1080);
    prior[2] = 2;
    let mut requested = prior;
    requested[14] = 1000;
    requested[11] = 10000;
    let w = apply_locks(&prior, requested, [7360, 4600]);
    assert_eq!((w[14], w[15]), (7360, 4600));
    assert_eq!(w[11], 14720 - 7360);
}

#[test]
fn margins_and_system_output_can_be_locked() {
    let mut prior = default_words(250, 1920, 1080);
    prior[0] |= 1 | 0x8000;
    prior[2] = 8 | 16;
    prior[29] = 1920;
    let mut requested = prior;
    requested[0] = 4 | 0x4000;
    requested[29] = 800;
    requested[11] = 300;
    let w = apply_locks(&prior, requested, [0, 0]);
    assert_eq!(w[0], 4 | 0x8000);
    assert_eq!(w[29], 1920);
    assert_eq!(w[11], 300);
    let mut open = prior;
    open[2] = 0;
    assert_eq!(apply_locks(&open, requested, [0, 0]), { let mut r = requested; r[2] = 0; r });
}
