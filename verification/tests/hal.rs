use console_core::display::{Display, DISP_HEIGHT, DISP_WIDTH, FB_WORDS};
use console_core::keyboard::{Keyboard, KEY_A, KEY_Z};
use console_core::scratch::{ScratchRam, SCRATCH_WORDS};

#[test]
fn display_starts_black() {
    let d = Display::new();
    assert_eq!(d.word(0), 0);
    assert_eq!(d.word(FB_WORDS - 1), 0);
}

#[test]
fn fill_overwrites_every_word() {
    let mut d = Display::new();
    d.fill(0xABC);
    assert_eq!(d.word(0), 0xABC);
    assert_eq!(d.word(12345), 0xABC);
    assert_eq!(d.word(FB_WORDS - 1), 0xABC);
}

#[test]
fn set_pixel_corners_and_center_hit_distinct_words() {
    let mut d = Display::new();
    d.set_pixel(0, 0, 1);
    d.set_pixel(DISP_WIDTH - 1, 0, 2);
    d.set_pixel(0, DISP_HEIGHT - 1, 3);
    d.set_pixel(DISP_WIDTH - 1, DISP_HEIGHT - 1, 4);
    d.set_pixel(DISP_WIDTH / 2, DISP_HEIGHT / 2, 5);
    let idx_tl = 0;
    let idx_tr = DISP_WIDTH - 1;
    let idx_bl = (DISP_HEIGHT - 1) * DISP_WIDTH;
    let idx_br = DISP_WIDTH * DISP_HEIGHT - 1;
    let idx_ctr = DISP_WIDTH / 2 + (DISP_HEIGHT / 2) * DISP_WIDTH;
    let indices = [idx_tl, idx_tr, idx_bl, idx_br, idx_ctr];
    for (i, a) in indices.iter().enumerate() {
        for b in indices.iter().skip(i + 1) {
            assert_ne!(a, b);
        }
    }
    assert_eq!(d.word(idx_tl), 1);
    assert_eq!(d.word(idx_tr), 2);
    assert_eq!(d.word(idx_bl), 3);
    assert_eq!(d.word(idx_br), 4);
    assert_eq!(d.word(idx_ctr), 5);
}

#[test]
fn set_pixel_leaves_other_words_alone() {
    let mut d = Display::new();
    d.fill(7);
    d.set_pixel(10, 10, 0xFFF);
    assert_eq!(d.word(10 + 10 * DISP_WIDTH), 0xFFF);
    assert_eq!(d.word(11 + 10 * DISP_WIDTH), 7);
    assert_eq!(d.word(10 + 11 * DISP_WIDTH), 7);
}

#[test]
fn just_pressed_fires_once_per_press_cycle() {
    let mut kb = Keyboard::new();
    let bit_a = 1u32;
    let samples = [0u32, bit_a, bit_a, 0u32];
    let expected = [false, true, false, false];
    for (s, e) in samples.iter().zip(expected.iter()) {
        assert_eq!(kb.just_pressed(*s, 'a'), *e);
    }
}

#[test]
fn just_pressed_latches_whole_sample_across_letters() {
    let mut kb = Keyboard::new();
    let bit_b = 1u32 << 1;
    // Querying 'a' latches the full register, so the rising edge on 'b' is
    // swallowed by the next query for 'b' with the same sample.
    assert!(!kb.just_pressed(bit_b, 'a'));
    assert!(!kb.just_pressed(bit_b, 'b'));
    // After a release the edge fires again.
    assert!(!kb.just_pressed(0, 'b'));
    assert!(kb.just_pressed(bit_b, 'b'));
}

#[test]
fn is_pressed_maps_letters_case_insensitively() {
    let kb = Keyboard::new();
    let bit_z = 1u32 << 25;
    assert!(kb.is_pressed(bit_z, 'z'));
    assert!(kb.is_pressed(bit_z, 'Z'));
    assert!(!kb.is_pressed(bit_z, 'a'));
    assert!(!kb.is_pressed(bit_z, '1'));
    assert!(!kb.is_pressed(bit_z, ' '));
}

#[test]
fn letter_index_covers_the_alphabet() {
    assert_eq!(Keyboard::letter_index('a'), Some(KEY_A));
    assert_eq!(Keyboard::letter_index('A'), Some(KEY_A));
    assert_eq!(Keyboard::letter_index('z'), Some(KEY_Z));
    assert_eq!(Keyboard::letter_index('Z'), Some(KEY_Z));
    assert_eq!(Keyboard::letter_index('@'), None);
    assert_eq!(Keyboard::letter_index('['), None);
    assert_eq!(Keyboard::letter_index('0'), None);
}

#[test]
fn any_pressed_sees_any_bit() {
    let kb = Keyboard::new();
    assert!(!kb.any_pressed(0));
    assert!(kb.any_pressed(1 << 25));
    assert!(kb.any_pressed(0xFFFF_FFFF));
}

#[test]
fn scratch_ram_reads_back_writes() {
    let mut s = ScratchRam::new();
    assert_eq!(s.read(0), 0);
    assert_eq!(s.read(SCRATCH_WORDS - 1), 0);
    s.write(0, 0xDEAD_BEEF);
    s.write(SCRATCH_WORDS - 1, 42);
    assert_eq!(s.read(0), 0xDEAD_BEEF);
    assert_eq!(s.read(SCRATCH_WORDS - 1), 42);
    assert_eq!(s.read(1), 0);
}
