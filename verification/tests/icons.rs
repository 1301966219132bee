use std::io::Cursor;

use image::{ImageFormat, Rgba, RgbaImage};
use nixly_launcher::filepath::FilePath;
use nixly_launcher::icon::{
    default_rgba, is_flat_dir, is_svg, load_rgba, preferred_themes, premultiply, search_dirs,
    size_priority, standard_search_dirs, stem_and_ext_priority, strip_known_ext, themes_with,
    IconFile, Place, Resolver, ICON_SIZE,
};

fn path(s: &str) -> FilePath {
    FilePath::new(s)
}

fn text(p: FilePath) -> String {
    String::from_utf8(p.bytes).unwrap()
}

fn themed(p: &str, size: &str) -> IconFile {
    IconFile { path: path(p), place: Place::Themed(size.as_bytes().to_vec()) }
}

fn flat(p: &str) -> IconFile {
    IconFile { path: path(p), place: Place::Pixmap }
}

fn png(w: u32, h: u32, pixel: [u8; 4]) -> Vec<u8> {
    let img = RgbaImage::from_pixel(w, h, Rgba(pixel));
    let mut out = Cursor::new(Vec::new());
    img.write_to(&mut out, ImageFormat::Png).unwrap();
    out.into_inner()
}

#[test]
fn known_extensions_are_stripped() {
    for ext in ["png", "PNG", "jpg", "JPG", "jpeg", "svg", "xpm"] {
        assert_eq!(strip_known_ext(&format!("a.b.{ext}")), "a.b");
    }
    assert_eq!(strip_known_ext("org.gnome.Maps"), "org.gnome.Maps");
    assert_eq!(strip_known_ext("a.SVG"), "a.SVG");
    assert_eq!(strip_known_ext(".png"), "");
    assert_eq!(strip_known_ext("plain"), "plain");
}

#[test]
fn sizes_are_ranked() {
    let ranks: Vec<u32> = [
        "48x48", "64x64", "32x32", "128x128", "256x256", "scalable", "24x24", "16x16", "22x22",
    ]
    .iter()
    .map(|s| size_priority(s))
    .collect();
    assert_eq!(ranks, vec![10, 9, 8, 7, 6, 5, 4, 3, 2]);
}

#[test]
fn stems_and_types_are_read_from_paths() {
    let of = |p: &str| stem_and_ext_priority(&path(p));
    assert_eq!(of("/x/a.b.PNG"), Some(("a.b".to_string(), 30)));
    assert_eq!(of("/x/a.jpeg"), Some(("a".to_string(), 20)));
    assert_eq!(of("/x/a.JPG"), Some(("a".to_string(), 20)));
    assert_eq!(of("/x/a.svg"), Some(("a".to_string(), 15)));
    assert_eq!(of("/x/a.xpm"), None);
    assert_eq!(of("/x/.png"), None);
    assert_eq!(stem_and_ext_priority(&FilePath { bytes: b"/\xff.png".to_vec() }), None);
}

#[test]
fn best_file_is_resolved() {
    let r = Resolver::build(vec![
        themed("/t/16x16/apps/a.png", "16x16"),
        themed("/t/48x48/apps/a.svg", "48x48"),
        themed("/t/48x48/apps/a.png", "48x48"),
        themed("/u/48x48/apps/a.png", "48x48"),
        flat("/p/a.png"),
        flat("/p/b.png"),
        themed("/t/16x16/apps/b.svg", "16x16"),
        themed("/t/scalable/apps/c.svg", "scalable"),
        themed("/t/24x24/apps/c.png", "24x24"),
        flat("/p/d.txt"),
        flat("/p/f.svg"),
        themed("/t/scalable/apps/f.svg", "scalable"),
        themed("/t/16x16/apps/f.svg", "16x16"),
        IconFile { path: path("/t/x/apps/e.png"), place: Place::Themed(vec![0xff]) },
    ]);
    let get = |n: &str| r.resolve(n, false).map(text);
    assert_eq!(get("a"), Some("/t/48x48/apps/a.png".to_string()));
    assert_eq!(get("a.png"), Some("/t/48x48/apps/a.png".to_string()));
    assert_eq!(get("b"), Some("/p/b.png".to_string()));
    assert_eq!(get("c"), Some("/t/24x24/apps/c.png".to_string()));
    assert_eq!(get("f"), Some("/t/scalable/apps/f.svg".to_string()));
    assert_eq!(get("d"), None);
    assert_eq!(get("e"), None);
    assert_eq!(get(""), None);
    assert_eq!(r.resolve("/abs/x.png", true).map(text), Some("/abs/x.png".to_string()));
    assert_eq!(r.resolve("/abs/x.png", false).map(text), None);
    assert_eq!(r.resolve("b", true).map(text), Some("/p/b.png".to_string()));
}

#[test]
fn raster_files_come_before_svg_files() {
    let svg = || themed("/i/hicolor/scalable/apps/foo.svg", "scalable");
    let png = || themed("/i/hicolor/16x16/apps/foo.png", "16x16");
    for files in [vec![svg(), png()], vec![png(), svg()]] {
        let found = Resolver::build(files).resolve("foo", false).map(text);
        assert_eq!(found, Some("/i/hicolor/16x16/apps/foo.png".to_string()));
    }
    let found = Resolver::build(vec![svg()]).resolve("foo", false).map(text);
    assert_eq!(found, Some("/i/hicolor/scalable/apps/foo.svg".to_string()));
}

#[test]
fn icon_directories_follow_the_environment() {
    let all = |home: Option<&str>, data_home: Option<&str>, dirs: Option<&str>| -> Vec<String> {
        standard_search_dirs(data_home.map(path), home.map(path), dirs.map(|s| s.to_string()))
            .into_iter()
            .map(text)
            .collect()
    };
    assert_eq!(all(None, None, None).len(), 6);
    assert_eq!(all(Some("/h"), None, None)[..2], ["/h/.local/share/icons", "/h/.icons"]);
    assert_eq!(
        all(Some("/h"), Some("/d"), Some(":/x::/y"))[..6],
        ["/d/icons", "/h/.icons", "/x/icons", "/x/pixmaps", "/y/icons", "/y/pixmaps"]
    );
}

#[test]
fn search_directories_are_sorted_and_distinct() {
    let dirs = |list: &[&str]| -> Vec<FilePath> { list.iter().map(|s| path(s)).collect() };
    let found: Vec<String> = search_dirs(dirs(&["/b", "/a/x", "/a"]), dirs(&["/a/./x", "/c", "/b/"]))
        .into_iter()
        .map(text)
        .collect();
    assert_eq!(found, vec!["/a", "/a/x", "/b", "/c"]);
    let again: Vec<String> = search_dirs(dirs(&["/b", "/a/x", "/a"]), dirs(&["/c", "/b", "/c", "/a"]))
        .into_iter()
        .map(text)
        .collect();
    assert_eq!(again, found);
}

#[test]
fn flat_directories_are_named_pixmaps() {
    assert!(is_flat_dir(&path("/usr/share/pixmaps")));
    assert!(is_flat_dir(&path("/usr/share/pixmaps/")));
    assert!(!is_flat_dir(&path("/usr/share/pixmaps/x")));
    assert!(!is_flat_dir(&path("/usr/share/icons")));
}

#[test]
fn themes_in_order_of_preference() {
    assert_eq!(themes_with(None), vec!["Adwaita", "Papirus", "breeze", "hicolor"]);
    assert_eq!(
        preferred_themes(Some(b"breeze".to_vec())),
        vec!["breeze", "Adwaita", "Papirus", "hicolor"]
    );
    assert_eq!(preferred_themes(Some(vec![0x61, 0xff]))[0], "a\u{fffd}");
}

#[test]
fn colours_are_scaled_by_alpha() {
    let mut px = vec![255, 128, 3, 128, 10, 20, 30, 0, 9, 9, 9, 255, 200, 201, 202];
    premultiply(&mut px);
    assert_eq!(px, vec![128, 64, 1, 128, 0, 0, 0, 0, 9, 9, 9, 255, 200, 201, 202]);
    for p in px.chunks_exact(4) {
        assert!(p.iter().all(|c| *c <= p[3]));
    }
}

#[test]
fn default_icon_is_the_rounded_slate_square() {
    let ours = default_rgba();
    assert_eq!(ours.len(), 48 * 48 * 4);
    let size = ICON_SIZE as f32;
    let half = size * 0.5;
    let radius = size * 0.18;
    for y in 0..48u32 {
        for x in 0..48u32 {
            let dx = (x as f32 + 0.5) - half;
            let dy = (y as f32 + 0.5) - half;
            let extent = half - 1.0;
            let sx = (dx.abs() - (extent - radius)).max(0.0);
            let sy = (dy.abs() - (extent - radius)).max(0.0);
            let dist = (sx * sx + sy * sy).sqrt() - radius;
            let alpha = ((0.5 - dist).clamp(0.0, 1.0) * 255.0) as u8;
            let t = y as f32 / size;
            let a = alpha as u32;
            let expected = [
                ((110.0 + 12.0 * t) as u32 * a / 255) as u8,
                ((118.0 + 18.0 * t) as u32 * a / 255) as u8,
                ((140.0 + 28.0 * t) as u32 * a / 255) as u8,
                alpha,
            ];
            let i = ((y * 48 + x) * 4) as usize;
            assert_eq!(ours[i..i + 4], expected, "{x} {y}");
        }
    }
    assert_eq!(ours[..4], [0, 0, 0, 0]);
}

#[test]
fn pictures_become_icons() {
    let bytes = png(7, 3, [200, 100, 50, 128]);
    let (rgba, w, h) = load_rgba(&path("/x/a.PNG"), &bytes, None).unwrap();
    assert_eq!((w, h), (48, 48));
    assert_eq!(rgba.len(), 48 * 48 * 4);
    for p in rgba.chunks_exact(4) {
        assert_eq!(p, [100, 50, 25, 128]);
    }
}

#[test]
fn pictures_of_icon_size_keep_their_pixels() {
    let mut img = RgbaImage::from_pixel(48, 48, Rgba([0, 0, 0, 255]));
    img.put_pixel(5, 2, Rgba([255, 10, 20, 255]));
    let mut out = Cursor::new(Vec::new());
    img.write_to(&mut out, ImageFormat::Png).unwrap();
    let (rgba, _, _) = load_rgba(&path("a.png"), &out.into_inner(), None).unwrap();
    let i = (2 * 48 + 5) * 4;
    assert_eq!(rgba[i..i + 4], [255, 10, 20, 255]);
    assert_eq!(rgba[..4], [0, 0, 0, 255]);
}

#[test]
fn what_is_no_picture_is_no_icon() {
    assert!(load_rgba(&path("a.png"), &b"no picture".to_vec(), None).is_none());
    assert!(load_rgba(&path("a"), &png(2, 2, [1, 2, 3, 4]), None).is_none());
    assert!(load_rgba(&path("a.txt"), &png(2, 2, [1, 2, 3, 4]), None).is_none());
    assert!(load_rgba(&path("a.jpg"), &png(2, 2, [1, 2, 3, 4]), None).is_none());
    assert!(load_rgba(&FilePath { bytes: b"a.\xff".to_vec() }, &png(2, 2, [1, 2, 3, 4]), None).is_none());
}

#[test]
fn drawn_svg_is_taken_as_it_is() {
    assert!(is_svg(&path("/x/a.SVG")) && !is_svg(&path("/x/a.png")) && !is_svg(&path("svg")));
    let drawn = vec![1, 2, 3, 4];
    let bytes = png(2, 2, [1, 2, 3, 4]);
    assert_eq!(load_rgba(&path("a.svg"), &bytes, Some(drawn.clone())), Some((drawn, 48, 48)));
    assert_eq!(load_rgba(&path("a.svg"), &bytes, None), None);
}
