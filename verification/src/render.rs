//! The picture atlas: where in one texture each glyph and icon is put.

use vstd::hash_map::StringHashMap;
use vstd::prelude::*;

verus! {

/// The width of the atlas, in pixels.
pub const ATLAS_W: u32 = 1024;

/// The height of the atlas, in pixels.
pub const ATLAS_H: u32 = 1024;

/// The free space that is kept on each side of a picture, in pixels.
pub const PAD: u32 = 1;

/// A rectangle of the atlas, in pixels.
#[derive(Clone, Copy, Debug, PartialEq, Eq, Structural)]
pub struct IconHandle {
    pub x: u32,
    pub y: u32,
    pub w: u32,
    pub h: u32,
}

/// The block of white pixels from which filled rectangles are drawn.
pub open spec fn white_block() -> IconHandle {
    IconHandle { x: 0, y: 0, w: 2, h: 2 }
}

/// How far the atlas is filled: row by row from the top, each row from the left.
#[derive(Clone, Copy, Debug, PartialEq, Eq, Structural)]
pub struct Shelf {
    pub cursor_x: u32,
    pub cursor_y: u32,
    pub row_height: u32,
}

impl Shelf {
    /// What holds of a shelf at every time.
    pub open spec fn wf(self) -> bool {
        &&& self.cursor_x <= ATLAS_W
        &&& self.cursor_y + self.row_height <= ATLAS_H
        &&& self.cursor_x == 0 ==> self.row_height == 0
        &&& self.cursor_x > 0 ==> self.cursor_y + self.row_height + 2 * PAD <= ATLAS_H
    }

    /// The shelf after a row was ended where `w` pixels do not fit behind it.
    pub open spec fn row_for(self, w: int) -> Shelf {
        if self.cursor_x + w + 2 * PAD > ATLAS_W {
            Shelf {
                cursor_x: 0,
                cursor_y: (self.cursor_y + self.row_height + 2 * PAD) as u32,
                row_height: 0,
            }
        } else {
            self
        }
    }

    /// The shelf after a picture of the given size was put down, and where it was put; no
    /// place where it is too wide or too high for what is left.
    pub open spec fn put(self, w: u32, h: u32) -> (Shelf, Option<(u32, u32)>) {
        if w + 2 * PAD > ATLAS_W {
            (self, None)
        } else {
            let row = self.row_for(w as int);
            if row.cursor_y + h + 2 * PAD > ATLAS_H {
                (row, None)
            } else {
                (
                    Shelf {
                        cursor_x: (row.cursor_x + w + 2 * PAD) as u32,
                        cursor_y: row.cursor_y,
                        row_height: if h > row.row_height {
                            h
                        } else {
                            row.row_height
                        },
                    },
                    Some(((row.cursor_x + PAD) as u32, (row.cursor_y + PAD) as u32)),
                )
            }
        }
    }

    /// Whether a rectangle lies in the part that is filled, with room around it.
    pub open spec fn is_behind(self, cell: IconHandle) -> bool {
        ||| cell.y + cell.h + PAD <= self.cursor_y
        ||| {
            &&& self.cursor_y <= cell.y
            &&& cell.y + cell.h <= self.cursor_y + self.row_height + PAD
            &&& cell.x + cell.w + PAD <= self.cursor_x
        }
    }

    /// A shelf with the white block alone.
    pub fn new() -> (r: Self)
        ensures
            r.wf(),
            r == (Shelf { cursor_x: 4, cursor_y: 0, row_height: 2 }),
            r.is_behind(white_block()),
    {
        Shelf { cursor_x: 4, cursor_y: 0, row_height: 2 }
    }

    /// Takes a place for a picture of the given size; nothing where the atlas is full.
    pub fn reserve(&mut self, w: u32, h: u32) -> (r: Option<(u32, u32)>)
        requires
            old(self).wf(),
        ensures
            final(self).wf(),
            (*final(self), r) == old(self).put(w, h),
    {
        if w > ATLAS_W - 2 * PAD {
            return None;
        }
        if self.cursor_x + w + 2 * PAD > ATLAS_W {
            self.cursor_x = 0;
            self.cursor_y = self.cursor_y + self.row_height + 2 * PAD;
            self.row_height = 0;
        }
        if h > ATLAS_H || self.cursor_y + h + 2 * PAD > ATLAS_H {
            return None;
        }
        let x: u32 = self.cursor_x + PAD;
        let y: u32 = self.cursor_y + PAD;
        self.cursor_x = self.cursor_x + w + 2 * PAD;
        if h > self.row_height {
            self.row_height = h;
        }
        Some((x, y))
    }
}

/// Whether two rectangles have a pixel in common.
pub open spec fn overlap(a: IconHandle, b: IconHandle) -> bool {
    &&& a.x < b.x + b.w
    &&& b.x < a.x + a.w
    &&& a.y < b.y + b.h
    &&& b.y < a.y + a.h
}

/// A picture that is put down lies within the atlas with room around it, has no pixel in
/// common with one put down before, and is counted among those put down.
pub proof fn law_pictures_do_not_overlap(shelf: Shelf, w: u32, h: u32, earlier: IconHandle)
    requires
        shelf.wf(),
        shelf.is_behind(earlier),
        shelf.put(w, h).1 is Some,
    ensures
        ({
            let (x, y) = shelf.put(w, h).1->0;
            let cell = IconHandle { x, y, w, h };
            &&& PAD <= x && x + w + PAD <= ATLAS_W
            &&& PAD <= y && y + h + PAD <= ATLAS_H
            &&& !overlap(earlier, cell)
            &&& shelf.put(w, h).0.is_behind(cell)
        }),
{
}

/// What was put down stays put down, whether or not a further picture finds a place.
pub proof fn law_pictures_stay(shelf: Shelf, w: u32, h: u32, earlier: IconHandle)
    requires
        shelf.wf(),
        shelf.is_behind(earlier),
    ensures
        shelf.put(w, h).0.wf(),
        shelf.put(w, h).0.is_behind(earlier),
{
}

/// The pictures that can be drawn.
pub struct Renderer {
    pub shelf: Shelf,
    pub icons: StringHashMap<IconHandle>,
}

/// The model of a [`Renderer`].
#[verifier::ext_equal]
pub struct RendererModel {
    pub shelf: Shelf,
    pub icons: Map<Seq<char>, IconHandle>,
}

impl View for Renderer {
    type V = RendererModel;

    open spec fn view(&self) -> RendererModel {
        RendererModel { shelf: self.shelf, icons: self.icons@ }
    }
}

/// What holds of the pictures at every time: each lies in the filled part of the atlas, and
/// no two icons, nor an icon and the white block, have a pixel in common.
pub open spec fn is_laid_out(r: RendererModel) -> bool {
    &&& r.shelf.wf()
    &&& r.shelf.is_behind(white_block())
    &&& forall|key: Seq<char>|
        #[trigger] r.icons.dom().contains(key) ==> r.shelf.is_behind(r.icons[key]) && !overlap(
            white_block(),
            r.icons[key],
        )
    &&& forall|a: Seq<char>, b: Seq<char>|
        #[trigger] r.icons.dom().contains(a) && #[trigger] r.icons.dom().contains(b) && a != b
            ==> !overlap(r.icons[a], r.icons[b])
}

/// What putting an icon into the atlas came to.
#[derive(Clone, Copy, Debug, PartialEq, Eq, Structural)]
pub enum Upload {
    /// The icon is in the atlas already.
    Present(IconHandle),
    /// The icon has got a place, into which its pixels are to be copied.
    Placed(IconHandle),
    /// The pixels do not make a picture of that size, or the atlas is full.
    Refused,
}

/// The number of bytes of a picture.
pub open spec fn picture_len(w: u32, h: u32) -> int {
    w as int * h as int * 4
}

/// What putting an icon into the atlas comes to.
pub open spec fn uploaded(r: RendererModel, key: Seq<char>, len: int, w: u32, h: u32) -> (
    RendererModel,
    Upload,
) {
    if r.icons.dom().contains(key) {
        (r, Upload::Present(r.icons[key]))
    } else if len != picture_len(w, h) {
        (r, Upload::Refused)
    } else {
        let (shelf, place) = r.shelf.put(w, h);
        match place {
            Some(at) => {
                let handle = IconHandle { x: at.0, y: at.1, w, h };
                (
                    RendererModel { shelf, icons: r.icons.insert(key, handle) },
                    Upload::Placed(handle),
                )
            },
            None => (RendererModel { shelf, ..r }, Upload::Refused),
        }
    }
}

impl Renderer {
    /// An atlas with the white block alone.
    pub fn new() -> (r: Self)
        ensures
            is_laid_out(r@),
            r@.icons == Map::<Seq<char>, IconHandle>::empty(),
            r@.shelf == (Shelf { cursor_x: 4, cursor_y: 0, row_height: 2 }),
    {
        Renderer { shelf: Shelf::new(), icons: StringHashMap::new() }
    }

    /// Puts an icon into the atlas, unless one with its key is there. `rgba` holds the
    /// pixels, four bytes each.
    pub fn upload_icon(&mut self, key: &str, rgba: &Vec<u8>, w: u32, h: u32) -> (r: Upload)
        requires
            is_laid_out(old(self)@),
        ensures
            (final(self)@, r) == uploaded(old(self)@, key@, rgba@.len() as int, w, h),
            is_laid_out(final(self)@),
    {
        if let Some(handle) = self.icons.get(key) {
            return Upload::Present(*handle);
        }
        let ghost before = self@;
        proof {
            lemma_picture_len(w, h);
        }
        let len: u128 = w as u128 * h as u128 * 4;
        if rgba.len() as u128 != len {
            return Upload::Refused;
        }
        let place = self.shelf.reserve(w, h);
        proof {
            lemma_put_keeps_layout(before, w, h);
        }
        match place {
            Some((x, y)) => {
                let handle = IconHandle { x, y, w, h };
                let chars = crate::text::chars_of(key);
                self.icons.insert(crate::text::string_of(chars.as_slice()), handle);
                proof {
                    lemma_icon_keeps_layout(before, key@, w, h);
                }
                Upload::Placed(handle)
            },
            None => Upload::Refused,
        }
    }

    /// The place of an icon, if it is in the atlas.
    pub fn get_icon(&self, key: &str) -> (r: Option<IconHandle>)
        ensures
            r == (if self@.icons.dom().contains(key@) {
                Some(self@.icons[key@])
            } else {
                None
            }),
    {
        match self.icons.get(key) {
            Some(handle) => Some(*handle),
            None => None,
        }
    }

    /// Takes a place for a glyph of the given size; nothing for an empty glyph, or where the
    /// atlas is full.
    pub fn place_glyph(&mut self, w: u32, h: u32) -> (r: Option<(u32, u32)>)
        requires
            is_laid_out(old(self)@),
        ensures
            w == 0 || h == 0 ==> r is None && final(self)@ == old(self)@,
            w > 0 && h > 0 ==> r == old(self)@.shelf.put(w, h).1 && final(self)@ == (
            RendererModel { shelf: old(self)@.shelf.put(w, h).0, ..old(self)@ }),
            is_laid_out(final(self)@),
    {
        if w == 0 || h == 0 {
            return None;
        }
        proof {
            lemma_put_keeps_layout(self@, w, h);
        }
        self.shelf.reserve(w, h)
    }
}

proof fn lemma_picture_len(w: u32, h: u32)
    ensures
        0 <= w as int * h as int <= u64::MAX,
{
    assert(0 <= w as int * h as int <= 0xffff_ffff * 0xffff_ffff) by (nonlinear_arith)
        requires
            0 <= w <= 0xffff_ffff,
            0 <= h <= 0xffff_ffff,
    ;
}

proof fn lemma_put_keeps_layout(r: RendererModel, w: u32, h: u32)
    requires
        is_laid_out(r),
    ensures
        is_laid_out(RendererModel { shelf: r.shelf.put(w, h).0, ..r }),
{
    law_pictures_stay(r.shelf, w, h, white_block());
    assert forall|key: Seq<char>| #[trigger] r.icons.dom().contains(key) implies r.shelf.put(
        w,
        h,
    ).0.is_behind(r.icons[key]) by {
        law_pictures_stay(r.shelf, w, h, r.icons[key]);
    }
}

proof fn lemma_icon_keeps_layout(r: RendererModel, key: Seq<char>, w: u32, h: u32)
    requires
        is_laid_out(r),
        !r.icons.dom().contains(key),
        r.shelf.put(w, h).1 is Some,
    ensures
        ({
            let (x, y) = r.shelf.put(w, h).1->0;
            is_laid_out(
                RendererModel {
                    shelf: r.shelf.put(w, h).0,
                    icons: r.icons.insert(key, IconHandle { x, y, w, h }),
                },
            )
        }),
{
    let (x, y) = r.shelf.put(w, h).1->0;
    let cell = IconHandle { x, y, w, h };
    let icons = r.icons.insert(key, cell);
    let shelf = r.shelf.put(w, h).0;
    lemma_put_keeps_layout(r, w, h);
    law_pictures_do_not_overlap(r.shelf, w, h, white_block());
    assert forall|a: Seq<char>| #[trigger] icons.dom().contains(a) implies shelf.is_behind(
        icons[a],
    ) && !overlap(white_block(), icons[a]) by {
        if a != key {
            assert(r.icons.dom().contains(a));
        }
    }
    assert forall|a: Seq<char>, b: Seq<char>| #[trigger] icons.dom().contains(a)
        && #[trigger] icons.dom().contains(b) && a != b implies !overlap(icons[a], icons[b]) by {
        if a == key {
            assert(r.icons.dom().contains(b));
            law_pictures_do_not_overlap(r.shelf, w, h, r.icons[b]);
        } else if b == key {
            assert(r.icons.dom().contains(a));
            law_pictures_do_not_overlap(r.shelf, w, h, r.icons[a]);
        } else {
            assert(r.icons.dom().contains(a) && r.icons.dom().contains(b));
        }
    }
}

/// The pixels of a glyph, four bytes each, all equal to its coverage: white, scaled by it.
pub open spec fn coverage_pixels(coverage: Seq<u8>) -> Seq<u8> {
    Seq::new(4 * coverage.len(), |i: int| coverage[i / 4])
}

/// The pixels of a glyph, four bytes each.
pub fn glyph_rgba(coverage: &Vec<u8>) -> (r: Vec<u8>)
    requires
        4 * coverage@.len() <= usize::MAX,
    ensures
        r@ == coverage_pixels(coverage@),
{
    let mut out: Vec<u8> = Vec::new();
    let mut i: usize = 0;
    while i < coverage.len()
        invariant
            i <= coverage@.len(),
            out@ == coverage_pixels(coverage@).take(4 * i),
        decreases coverage.len() - i,
    {
        let c = coverage[i];
        out.push(c);
        out.push(c);
        out.push(c);
        out.push(c);
        i += 1;
        assert(out@ =~= coverage_pixels(coverage@).take(4 * i));
    }
    assert(coverage_pixels(coverage@).take(4 * i) =~= coverage_pixels(coverage@));
    out
}

/// A picture is put down in the row that is being filled, behind what is there, where it fits in
/// the width of 1024 with a pixel on each side; else at the start of a new row below. It has no
/// place if and only if it is wider than the atlas, or the atlas is not high enough for it there.
pub proof fn law_pictures_find_their_place(shelf: Shelf, w: u32, h: u32)
    requires
        shelf.wf(),
    ensures
        ({
            let (after, place) = shelf.put(w, h);
            let fits = shelf.cursor_x + w + 2 <= 1024;
            let top = if fits {
                shelf.cursor_y as int
            } else {
                shelf.cursor_y + shelf.row_height + 2
            };
            &&& place is None <==> w > 1022 || top + h + 2 > 1024
            &&& w > 1022 ==> after == shelf
            &&& place matches Some(at) ==> {
                &&& fits ==> at.0 == shelf.cursor_x + 1
                &&& !fits ==> at.0 == 1
                &&& at.1 == top + 1
                &&& after.cursor_x == at.0 + w + 1
                &&& after.cursor_y == top
                &&& after.row_height >= h
                &&& after.row_height == h || (fits && after.row_height == shelf.row_height)
                &&& fits ==> after.row_height >= shelf.row_height
            }
        }),
{
}

/// An icon that is in the atlas stays where it is. One whose pixels are not four bytes each for
/// its size is refused, and nothing changes. One that is placed has its size, is found under its
/// key from then on, and every other is where it was.
pub proof fn law_uploading(r: RendererModel, key: Seq<char>, len: int, w: u32, h: u32)
    ensures
        ({
            let (after, upload) = uploaded(r, key, len, w, h);
            let present = r.icons.dom().contains(key);
            let place = r.shelf.put(w, h).1;
            &&& present ==> after == r && upload == Upload::Present(r.icons[key])
            &&& !present && len != 4 * (w as int * h as int) ==> after == r && upload is Refused
            &&& !present && len == 4 * (w as int * h as int) ==> {
                &&& place is None ==> upload is Refused && after.icons == r.icons
                &&& place matches Some(at) ==> {
                    let handle = IconHandle { x: at.0, y: at.1, w, h };
                    &&& upload == Upload::Placed(handle)
                    &&& after.icons.dom().contains(key) && after.icons[key] == handle
                    &&& after.icons.remove(key) == r.icons
                }
                &&& after.shelf == r.shelf.put(w, h).0
            }
        }),
{
    assert(w as int * h as int * 4 == 4 * (w as int * h as int));
    let after = uploaded(r, key, len, w, h).0;
    if !r.icons.dom().contains(key) {
        assert(r.icons.remove(key) =~= r.icons);
        if after.icons.dom().contains(key) {
            assert(after.icons.remove(key) =~= r.icons);
        }
    }
}

/// Each pixel of a glyph has its coverage in all four bytes.
pub proof fn law_coverage_pixels(coverage: Seq<u8>, pixel: int, channel: int)
    requires
        0 <= pixel < coverage.len(),
        0 <= channel < 4,
    ensures
        coverage_pixels(coverage).len() == 4 * coverage.len(),
        coverage_pixels(coverage)[4 * pixel + channel] == coverage[pixel],
{
}

} // verus!
