use nixly_launcher::order::{bytes_before, chars_before};
use nixly_launcher::text::{
    chars_of, eq_ignore_ascii_case, find, index_of_first, index_of_last, parse_i64, split_at_char,
    string_of, to_decimal, trim,
};

fn is_listed_space(c: char) -> bool {
    let n = c as u32;
    (9..=13).contains(&n)
        || n == 32
        || n == 0x85
        || n == 0xa0
        || n == 0x1680
        || (0x2000..=0x200a).contains(&n)
        || n == 0x2028
        || n == 0x2029
        || n == 0x202f
        || n == 0x205f
        || n == 0x3000
}

#[test]
fn white_space_is_the_listed_characters() {
    for c in '\0'..=char::MAX {
        assert_eq!(trim(&[c]).is_empty(), is_listed_space(c), "{c:?}");
    }
}

#[test]
fn control_characters_are_the_listed_ones() {
    for c in '\0'..=char::MAX {
        let n = c as u32;
        assert_eq!(c.is_control(), n < 32 || (127..=159).contains(&n), "{c:?}");
    }
}

#[test]
fn trimming_takes_both_ends() {
    let s = chars_of(" \t a b\u{3000}\r");
    assert_eq!(string_of(trim(&s)), "a b");
    assert_eq!(string_of(trim(&chars_of("  "))), "");
}

#[test]
fn splitting_and_finding() {
    let pieces: Vec<String> = split_at_char(&chars_of(":a::b"), ':')
        .iter()
        .map(|p| string_of(p))
        .collect();
    assert_eq!(pieces, vec!["", "a", "", "b"]);
    assert_eq!(split_at_char(&[], ':').len(), 1);
    let hay = chars_of("abcabc");
    assert_eq!(find(&hay, &chars_of("bc"), 0), Some(1));
    assert_eq!(find(&hay, &chars_of("bc"), 2), Some(4));
    assert_eq!(find(&hay, &chars_of("cb"), 0), None);
    assert_eq!(find(&hay, &[], 6), Some(6));
    assert_eq!(index_of_first(&hay, 'b'), Some(1));
    assert_eq!(index_of_last(&hay, 'b'), Some(4));
    assert_eq!(index_of_last(&hay, 'x'), None);
}

#[test]
fn whole_numbers_are_read_as_std_reads_them() {
    for s in [
        "0", "7", "-7", "+7", "", "-", "+", "--1", "1.0", " 1", "1 ", "00012", "9223372036854775807",
        "9223372036854775808", "-9223372036854775808", "-9223372036854775809", "99999999999999999999",
        "\u{661}", "1_0", "-0",
    ] {
        assert_eq!(parse_i64(&chars_of(s)), s.parse::<i64>().ok(), "{s:?}");
    }
}

#[test]
fn numbers_are_written_in_decimal() {
    for n in [0u64, 1, 9, 10, 99, 100, 12345, u64::MAX] {
        assert_eq!(string_of(&to_decimal(n)), n.to_string());
    }
}

#[test]
fn case_counts_for_nothing_in_ascii() {
    assert!(eq_ignore_ascii_case(&chars_of("TrUe"), &chars_of("true")));
    assert!(!eq_ignore_ascii_case(&chars_of("tru"), &chars_of("true")));
    assert!(!eq_ignore_ascii_case(&chars_of("É"), &chars_of("é")));
}

#[test]
fn text_order_is_that_of_std() {
    let words = ["", "a", "ab", "b", "B", "é", "z", "\u{10000}", "\u{ffff}"];
    for a in words {
        for b in words {
            assert_eq!(chars_before(&chars_of(a), &chars_of(b)), a < b, "{a:?} {b:?}");
            assert_eq!(bytes_before(a.as_bytes(), b.as_bytes()), a < b);
        }
    }
}
