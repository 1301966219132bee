//! How large the window is, and what fits into it.

use vstd::prelude::*;

use crate::text::chars_of;

verus! {

/// The width of a window on a screen of unknown size.
pub const FALLBACK_WIDTH: u32 = 1200;

/// The height of a window on a screen of unknown size.
pub const FALLBACK_HEIGHT: u32 = 720;

/// The least width of a window, where the screen has room for it.
pub const MIN_WIDTH: i32 = 720;

/// The least height of a window, where the screen has room for it.
pub const MIN_HEIGHT: i32 = 520;

/// The least distance between the window and each edge of the screen.
pub const SCREEN_MARGIN: i32 = 24;

/// The height of the bar with the tabs.
pub const TAB_BAR_H: u32 = 56;

/// The height of the search bar.
pub const SEARCH_H: u32 = 64;

/// The height of a row.
pub const ROW_H: u32 = 56;

/// The length of a window's side on a screen's side: five eighths of it, but no less than a
/// minimum, and no more than the margins leave.
pub open spec fn side_for(logical: int, least: int) -> int {
    let fit = if logical - 2 * SCREEN_MARGIN > 1 {
        logical - 2 * SCREEN_MARGIN
    } else {
        1
    };
    let wanted = if logical * 5 / 8 > least {
        logical * 5 / 8
    } else {
        least
    };
    if wanted < fit {
        wanted
    } else {
        fit
    }
}

fn side_length(logical: i32, least: i32) -> (r: u32)
    requires
        least > 0,
    ensures
        r == side_for(logical as int, least as int),
        1 <= r <= i32::MAX,
{
    let logical: i64 = logical as i64;
    let least: i64 = least as i64;
    let fit: i64 = if logical - 48 > 1 {
        logical - 48
    } else {
        1
    };
    let wanted: i64 = if logical > 0 && logical * 5 / 8 > least {
        logical * 5 / 8
    } else {
        least
    };
    if wanted < fit {
        wanted as u32
    } else {
        fit as u32
    }
}

/// The size of a window on a screen of the given size.
pub fn size_for_output(logical_w: i32, logical_h: i32) -> (r: (u32, u32))
    ensures
        r.0 == side_for(logical_w as int, MIN_WIDTH as int),
        r.1 == side_for(logical_h as int, MIN_HEIGHT as int),
        1 <= r.0 <= i32::MAX,
        1 <= r.1 <= i32::MAX,
{
    (side_length(logical_w, MIN_WIDTH), side_length(logical_h, MIN_HEIGHT))
}

/// A window always fits on its screen with the margins, and has its least size where the
/// screen has room for that.
pub proof fn law_window_fits(logical: int, least: int)
    requires
        logical > 2 * SCREEN_MARGIN,
        least > 0,
    ensures
        side_for(logical, least) + 2 * SCREEN_MARGIN <= logical,
        logical >= least + 2 * SCREEN_MARGIN ==> side_for(logical, least) >= least,
{
}

/// A window is never larger on a smaller screen.
pub proof fn law_window_grows_with_the_screen(a: int, b: int, least: int)
    requires
        a <= b,
    ensures
        side_for(a, least) <= side_for(b, least),
{
}

/// The number of rows in a window of the given height: those that fit below the bars, and
/// one at least.
pub open spec fn rows_for(height: int) -> int {
    let rows = (height - TAB_BAR_H - SEARCH_H) / (ROW_H as int);
    if rows < 1 {
        1
    } else {
        rows
    }
}

/// The number of rows in a window of the given height.
pub fn visible_rows_for(height: u32) -> (r: usize)
    ensures
        r == rows_for(height as int),
        r >= 1,
{
    let bars: u32 = TAB_BAR_H + SEARCH_H;
    if height < bars + ROW_H {
        return 1;
    }
    ((height - bars) / ROW_H) as usize
}

/// About how wide a character is, in hundredths of the text size.
pub open spec fn char_width(c: char) -> int {
    if c == 'i' || c == 'l' || c == 'I' || c == '|' || c == '!' || c == '.' || c == ',' || c == ':'
        || c == ';' || c == '\'' {
        30
    } else if c == 'f' || c == 'j' || c == 'r' || c == 't' || c == ' ' {
        40
    } else if c == 'M' || c == 'W' || c == 'm' || c == 'w' {
        85
    } else {
        55
    }
}

/// About how wide a text is, in hundredths of the text size.
pub open spec fn width_of(s: Seq<char>) -> int
    decreases s.len(),
{
    if s.len() == 0 {
        0
    } else {
        width_of(s.drop_last()) + char_width(s.last())
    }
}

fn width_of_char(c: char) -> (r: u64)
    ensures
        r == char_width(c),
{
    match c {
        'i' | 'l' | 'I' | '|' | '!' | '.' | ',' | ':' | ';' | '\'' => 30,
        'f' | 'j' | 'r' | 't' | ' ' => 40,
        'M' | 'W' | 'm' | 'w' => 85,
        _ => 55,
    }
}

proof fn lemma_width_bound(s: Seq<char>)
    ensures
        0 <= width_of(s) <= 85 * s.len(),
    decreases s.len(),
{
    if s.len() > 0 {
        lemma_width_bound(s.drop_last());
    }
}

/// About how wide a text is, in hundredths of the text size.
pub fn approx_text_width(s: &str) -> (r: u64)
    requires
        85 * s@.len() <= u64::MAX,
    ensures
        r == width_of(s@),
{
    let chars = chars_of(s);
    let mut sum: u64 = 0;
    let mut i: usize = 0;
    assert(chars@.take(0) =~= Seq::empty());
    while i < chars.len()
        invariant
            i <= chars@.len(),
            chars@ == s@,
            85 * s@.len() <= u64::MAX,
            sum == width_of(chars@.take(i as int)),
        decreases chars.len() - i,
    {
        assert(chars@.take(i + 1).drop_last() =~= chars@.take(i as int));
        proof {
            lemma_width_bound(chars@.take(i as int));
        }
        sum = sum + width_of_char(chars[i]);
        i += 1;
    }
    assert(chars@.take(i as int) =~= chars@);
    sum
}

/// A window's side is five eighths of the screen's, rounded down, where that is at least the
/// minimum and leaves 24 at both ends; else it is the minimum, or what the screen leaves, and
/// never less than 1.
pub proof fn law_side(logical: int, least: int)
    requires
        least > 0,
    ensures
        ({
            let side = side_for(logical, least);
            &&& logical <= 49 ==> side == 1
            &&& logical > 49 ==> 1 <= side <= logical - 48
            &&& logical > 49 && side < logical - 48 ==> side >= least && 8 * side + 8 > 5 * logical
            &&& logical > 49 ==> side <= least || 8 * side <= 5 * logical
        }),
{
}

/// The window on a screen is at least 720 wide and 520 high where the screen is 48 larger.
pub proof fn law_least_size(logical: int)
    ensures
        logical >= 768 ==> side_for(logical, MIN_WIDTH as int) >= 720,
        768 <= logical <= 1152 ==> side_for(logical, MIN_WIDTH as int) == 720,
        logical >= 568 ==> side_for(logical, MIN_HEIGHT as int) >= 520,
        568 <= logical <= 832 ==> side_for(logical, MIN_HEIGHT as int) == 520,
{
}

/// The rows fit below the bars, of 120 together, with 56 for each, and no more would; but there
/// is always one.
pub proof fn law_rows_fit(height: int)
    ensures
        rows_for(height) >= 1,
        rows_for(height) > 1 ==> 120 + 56 * rows_for(height) <= height,
        height < 120 + 56 * (rows_for(height) + 1),
{
}

/// The width of a text is the sum of the widths of its parts.
pub proof fn law_widths_add_up(a: Seq<char>, b: Seq<char>)
    ensures
        width_of(a + b) == width_of(a) + width_of(b),
    decreases b.len(),
{
    if b.len() == 0 {
        assert(a + b =~= a);
    } else {
        assert((a + b).drop_last() =~= a + b.drop_last());
        law_widths_add_up(a, b.drop_last());
    }
}

/// A narrow character is 30 hundredths of the text size wide, a slim one 40, a wide one 85, and
/// every other 55.
pub proof fn law_width_of_a_character(c: char)
    ensures
        "ilI|!.,:;'"@.contains(c) ==> width_of(seq![c]) == 30,
        "fjrt "@.contains(c) ==> width_of(seq![c]) == 40,
        "MWmw"@.contains(c) ==> width_of(seq![c]) == 85,
        !"ilI|!.,:;'"@.contains(c) && !"fjrt "@.contains(c) && !"MWmw"@.contains(c) ==> width_of(
            seq![c],
        ) == 55,
{
    reveal_strlit("ilI|!.,:;'");
    reveal_strlit("fjrt ");
    reveal_strlit("MWmw");
    let narrow = "ilI|!.,:;'"@;
    let slim = "fjrt "@;
    let wide = "MWmw"@;
    assert(seq![c].drop_last().len() == 0);
    assert(width_of(seq![c].drop_last()) == 0);
    assert(width_of(seq![c]) == char_width(c));
    assert(narrow[0] == 'i' && narrow[1] == 'l' && narrow[2] == 'I' && narrow[3] == '|');
    assert(narrow[4] == '!' && narrow[5] == '.' && narrow[6] == ',' && narrow[7] == ':');
    assert(narrow[8] == ';' && narrow[9] == '\'');
    assert(slim[0] == 'f' && slim[1] == 'j' && slim[2] == 'r' && slim[3] == 't' && slim[4] == ' ');
    assert(wide[0] == 'M' && wide[1] == 'W' && wide[2] == 'm' && wide[3] == 'w');
}

} // verus!
