use nixly_launcher::render::{glyph_rgba, IconHandle, Renderer, Shelf, Upload, ATLAS_H, ATLAS_W};

fn overlap(a: IconHandle, b: IconHandle) -> bool {
    a.x < b.x + b.w && b.x < a.x + a.w && a.y < b.y + b.h && b.y < a.y + a.h
}

#[test]
fn first_pictures_stand_beside_the_white_block() {
    let mut shelf = Shelf::new();
    assert_eq!(shelf.reserve(10, 20), Some((5, 1)));
    assert_eq!(shelf, Shelf { cursor_x: 16, cursor_y: 0, row_height: 20 });
    assert_eq!(shelf.reserve(3, 4), Some((17, 1)));
    assert_eq!(shelf.reserve(1022, 7), Some((1, 23)));
    assert_eq!(shelf, Shelf { cursor_x: 1024, cursor_y: 22, row_height: 7 });
}

#[test]
fn too_large_pictures_are_refused() {
    let mut shelf = Shelf::new();
    assert_eq!(shelf.reserve(1023, 1), None);
    assert_eq!(shelf.reserve(u32::MAX, 1), None);
    assert_eq!(shelf, Shelf::new());
    assert_eq!(shelf.reserve(1, 1023), None);
    assert_eq!(shelf.reserve(1, u32::MAX), None);
    assert_eq!(shelf.reserve(1, 1022), Some((5, 1)));
}

#[test]
fn a_row_is_ended_even_where_no_place_is_found() {
    let mut shelf = Shelf { cursor_x: 1000, cursor_y: 500, row_height: 100 };
    assert_eq!(shelf.reserve(100, 600), None);
    assert_eq!(shelf, Shelf { cursor_x: 0, cursor_y: 602, row_height: 0 });
}

#[test]
fn pictures_never_overlap() {
    let mut shelf = Shelf::new();
    let mut cells = vec![IconHandle { x: 0, y: 0, w: 2, h: 2 }];
    let mut seed = 7u64;
    for _ in 0..2000 {
        seed = seed.wrapping_mul(6364136223846793005).wrapping_add(1442695040888963407);
        let (w, h) = (((seed >> 33) % 90) as u32, ((seed >> 50) % 60) as u32);
        if let Some((x, y)) = shelf.reserve(w, h) {
            let cell = IconHandle { x, y, w, h };
            assert!(x + w < ATLAS_W && y + h < ATLAS_H);
            for c in &cells {
                assert!(!overlap(*c, cell), "{c:?} {cell:?}");
            }
            cells.push(cell);
        }
    }
    assert!(cells.len() > 100);
}

#[test]
fn icons_are_put_in_once() {
    let mut r = Renderer::new();
    assert_eq!(r.get_icon("a"), None);
    let px = vec![0u8; 3 * 2 * 4];
    let handle = IconHandle { x: 5, y: 1, w: 3, h: 2 };
    assert_eq!(r.upload_icon("a", &px, 3, 2), Upload::Placed(handle));
    assert_eq!(r.upload_icon("a", &px, 9, 9), Upload::Present(handle));
    assert_eq!(r.get_icon("a"), Some(handle));
    assert_eq!(r.upload_icon("b", &px, 3, 3), Upload::Refused);
    assert_eq!(r.upload_icon("b", &vec![], u32::MAX, u32::MAX), Upload::Refused);
    assert_eq!(r.get_icon("b"), None);
}

#[test]
fn a_full_atlas_refuses_icons() {
    let mut r = Renderer::new();
    let px = vec![0u8; 400 * 400 * 4];
    let mut placed = 0;
    for i in 0..20 {
        match r.upload_icon(&format!("i{i}"), &px, 400, 400) {
            Upload::Placed(_) => placed += 1,
            Upload::Refused => {}
            Upload::Present(_) => panic!("no key was used twice"),
        }
    }
    assert_eq!(placed, 4);
}

#[test]
fn empty_glyphs_take_no_place() {
    let mut r = Renderer::new();
    assert_eq!(r.place_glyph(0, 9), None);
    assert_eq!(r.place_glyph(9, 0), None);
    assert_eq!(r.place_glyph(9, 8), Some((5, 1)));
}

#[test]
fn coverage_fills_all_channels() {
    assert_eq!(glyph_rgba(&vec![0, 7, 255]), vec![0, 0, 0, 0, 7, 7, 7, 7, 255, 255, 255, 255]);
}
