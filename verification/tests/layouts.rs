use nixly_launcher::layout::{approx_text_width, size_for_output, visible_rows_for};

#[test]
fn windows_take_five_eighths_of_the_screen() {
    assert_eq!(size_for_output(1920, 1080), (1200, 675));
    assert_eq!(size_for_output(2560, 1440), (1600, 900));
    assert_eq!(size_for_output(1280, 800), (800, 520));
    assert_eq!(size_for_output(800, 600), (720, 520));
}

#[test]
fn windows_fit_on_small_screens() {
    assert_eq!(size_for_output(640, 480), (592, 432));
    assert_eq!(size_for_output(48, 0), (1, 1));
    assert_eq!(size_for_output(-5, i32::MIN), (1, 1));
    assert_eq!(size_for_output(i32::MAX, 49), (1342177279, 1));
    for side in 49..3000 {
        let (w, h) = size_for_output(side, side);
        assert!(w as i32 + 48 <= side && h as i32 + 48 <= side);
        let (w2, h2) = size_for_output(side + 1, side + 1);
        assert!(w <= w2 && h <= h2);
    }
}

#[test]
fn rows_fill_the_window() {
    for height in (0..200_000u32).chain([1 << 23, (1 << 24) - 1]) {
        let list_h = height as f32 - 56.0 - 64.0;
        let rows = ((list_h / 56.0).floor() as i32).max(1) as usize;
        assert_eq!(visible_rows_for(height), rows, "{height}");
    }
    assert_eq!(visible_rows_for(720), 10);
    assert_eq!(visible_rows_for(0), 1);
}

#[test]
fn text_widths_are_estimated() {
    assert_eq!(approx_text_width(""), 0);
    assert_eq!(approx_text_width("ilI|!.,:;'"), 300);
    assert_eq!(approx_text_width("fjrt "), 200);
    assert_eq!(approx_text_width("MWmw"), 340);
    assert_eq!(approx_text_width("No matches"), 55 * 6 + 40 + 85 + 55 + 40);
}
