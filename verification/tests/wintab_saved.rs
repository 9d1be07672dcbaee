use ctl460_rust::wintab::saved::{restore_context, save_context};
use ctl460_rust::wintab::words::default_words;

#[test]
fn a_saved_context_reads_back_and_any_damaged_byte_is_refused() {
    let words = default_words(250, 1920, 1080);
    let mask = [0xa5u8; 16];
    let data = save_context("Pen \u{1F58A}", &words, 64, &mask);
    let (name, back, capacity, m) = restore_context(&data).expect("a saved context reads back");
    assert_eq!(name, "Pen \u{1F58A}");
    assert_eq!(back, words);
    assert_eq!(capacity, 64);
    assert_eq!(m, mask);
    for k in [0usize, 7, 8, 100, 223, 239, 240, 243] {
        let mut bad = data.clone();
        bad[k] ^= 0x01;
        assert!(restore_context(&bad).is_none(), "byte {k} changed");
    }
}
