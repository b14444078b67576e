use avatar_cards::layout::wrap_text;
use avatar_cards::metrics::{AdvanceTable, GlyphAdvance, UNITS_PER_PIXEL};
use avatar_cards::text::{chars_of, split_words, string_of, whitespace};

fn width_of(table: &AdvanceTable, text: &str) -> u64 {
    text.chars().map(|ch| u64::from(table.advance(ch))).sum()
}

fn strings(lines: &[&str]) -> Vec<String> {
    lines.iter().map(|line| line.to_string()).collect()
}

#[test]
fn hello_world_fits_on_one_line() {
    let table = AdvanceTable::new(10 * UNITS_PER_PIXEL);
    let lines = wrap_text("Hello world", &table, 1000 * UNITS_PER_PIXEL);
    assert_eq!(lines, strings(&["Hello world"]));
}

#[test]
fn a_long_word_is_split_into_pieces_within_the_width() {
    let word = "Supercalifragilisticexpialidocious";
    let table = AdvanceTable::new(15 * UNITS_PER_PIXEL);
    let max_width = 50 * UNITS_PER_PIXEL;
    let lines = wrap_text(word, &table, max_width);
    assert_eq!(
        lines,
        strings(&[
            "Sup", "erc", "ali", "fra", "gil", "ist", "ice", "xpi", "ali", "doc", "iou", "s"
        ])
    );
    assert!(lines.len() > 1);
    for line in &lines {
        assert!(width_of(&table, line) <= u64::from(max_width));
    }
    assert!(width_of(&table, lines.last().unwrap()) <= u64::from(max_width));
    assert_eq!(lines.concat(), word);
}

#[test]
fn a_split_word_takes_at_least_its_width_in_lines() {
    let table = AdvanceTable::new(7);
    let lines = wrap_text("abcdefghij", &table, 20);
    assert_eq!(lines, strings(&["ab", "cd", "ef", "gh", "ij"]));
    // 70 units over lines of 20: at least four lines
    assert!(lines.len() >= 4);
}

#[test]
fn content_within_the_width_is_one_trimmed_line() {
    let table = AdvanceTable::new(3);
    let content = " \t the quick brown fox \n";
    assert!(width_of(&table, content) <= 100);
    let lines = wrap_text(content, &table, 100);
    assert_eq!(lines, strings(&["the quick brown fox"]));
    assert_eq!(lines[0], content.trim());
}

#[test]
fn runs_of_whitespace_become_single_spaces() {
    let table = AdvanceTable::new(1);
    assert_eq!(wrap_text("a \t b\u{3000}\u{a0}c\r\nd", &table, 100), strings(&["a b c d"]));
}

#[test]
fn empty_content_is_one_empty_line() {
    let table = AdvanceTable::new(10);
    assert_eq!(wrap_text("", &table, 100), strings(&[""]));
    assert_eq!(wrap_text(" \n\t ", &table, 100), strings(&[""]));
    assert_eq!(wrap_text("", &table, 0), strings(&[""]));
}

#[test]
fn a_line_breaks_where_the_next_word_no_longer_fits() {
    let table = AdvanceTable::new(10);
    assert_eq!(wrap_text("aaa bbb ccc", &table, 70), strings(&["aaa bbb", "ccc"]));
    assert_eq!(wrap_text("aaa bbb ccc", &table, 69), strings(&["aaa", "bbb", "ccc"]));
    assert_eq!(wrap_text("aaa bbb ccc", &table, 110), strings(&["aaa bbb ccc"]));
    assert_eq!(wrap_text("aaa bbb ccc", &table, 109), strings(&["aaa bbb", "ccc"]));
    assert_eq!(wrap_text("aaa bbb ccc", &table, 30), strings(&["aaa", "bbb", "ccc"]));
}

#[test]
fn the_space_counts_with_its_own_advance() {
    let mut table = AdvanceTable::new(10);
    table.set(' ', 25);
    assert_eq!(wrap_text("ab cd", &table, 65), strings(&["ab cd"]));
    assert_eq!(wrap_text("ab cd", &table, 64), strings(&["ab", "cd"]));
}

#[test]
fn a_long_word_takes_the_place_of_the_line_before_it() {
    let table = AdvanceTable::new(10);
    // "ab" is still being filled when the long word comes, and is dropped
    assert_eq!(wrap_text("ab cdefgh", &table, 30), strings(&["cde", "fgh"]));
    // a complete line stays
    assert_eq!(wrap_text("abc de fghijkl", &table, 30), strings(&["abc", "fgh", "ijk", "l"]));
    // the last piece goes on as the line that is being filled
    assert_eq!(wrap_text("cdefg x yz", &table, 40), strings(&["cdef", "g x", "yz"]));
}

#[test]
fn a_character_wider_than_the_line_stands_alone() {
    let mut table = AdvanceTable::new(10);
    table.set('W', 50);
    assert_eq!(wrap_text("W", &table, 30), strings(&["", "W"]));
    assert_eq!(wrap_text("aWb", &table, 30), strings(&["a", "W", "b"]));
}

#[test]
fn characters_without_advance_never_break_a_line() {
    let table = AdvanceTable::new(0);
    let content = "no glyph of this text has any width at all";
    assert_eq!(wrap_text(content, &table, 0), strings(&[content]));
    let mut mixed = AdvanceTable::new(10);
    mixed.set('\u{fffd}', 0);
    assert_eq!(
        wrap_text("ab\u{fffd}\u{fffd}\u{fffd} cd", &mixed, 50),
        strings(&["ab\u{fffd}\u{fffd}\u{fffd} cd"])
    );
}

#[test]
fn the_same_input_gives_the_same_lines() {
    let mut table = AdvanceTable::new(9);
    table.set('i', 4);
    table.set('m', 14);
    let content = "minimum immunity in a millennium of illumination";
    let first = wrap_text(content, &table, 120);
    let second = wrap_text(content, &table, 120);
    assert_eq!(first, second);
    assert!(first.len() > 1);

    // another table with the same advances
    let mut other = AdvanceTable::new(9);
    other.set('m', 1);
    other.set('i', 4);
    other.set('m', 14);
    assert_eq!(wrap_text(content, &other, 120), first);
}

#[test]
fn no_line_is_wider_than_the_width() {
    let mut table = AdvanceTable::new(11);
    table.set(' ', 5);
    table.set('l', 4);
    table.set('w', 16);
    let content =
        "the yellow swallow follows willows wherever lowlands allow awkwardnesswithoutspaces";
    for max_width in [16u32, 17, 40, 64, 100, 333] {
        let lines = wrap_text(content, &table, max_width);
        for line in &lines {
            assert!(width_of(&table, line) <= u64::from(max_width));
        }
    }
}

#[test]
fn table_gives_the_latest_advance_or_the_fallback() {
    let mut table = AdvanceTable::new(7);
    assert_eq!(table.advance('a'), 7);
    table.set('a', 3);
    table.set('b', 4);
    assert_eq!(table.advance('a'), 3);
    assert_eq!(table.advance('b'), 4);
    assert_eq!(table.advance('c'), 7);
    table.set('a', 5);
    assert_eq!(table.advance('a'), 5);
    assert_eq!(table.advance('b'), 4);
    assert_eq!(table.entries.len(), 3);
    assert_eq!(table.entries[0], GlyphAdvance { ch: 'a', advance: 3 });
}

#[test]
fn exceeds_compares_the_sum_of_the_advances() {
    let mut table = AdvanceTable::new(10);
    table.set('w', u32::MAX);
    let text: Vec<char> = "abc".chars().collect();
    assert!(!table.exceeds(&text, 30));
    assert!(table.exceeds(&text, 29));
    assert!(!table.exceeds(&Vec::new(), 0));
    let wide: Vec<char> = "wwww".chars().collect();
    assert!(table.exceeds(&wide, u32::MAX));
    let one: Vec<char> = "w".chars().collect();
    assert!(!table.exceeds(&one, u32::MAX));
    assert!(table.exceeds(&one, u32::MAX - 1));
}

#[test]
fn whitespace_is_what_the_standard_library_calls_whitespace() {
    for code in 0..=0x10ffffu32 {
        if let Some(ch) = char::from_u32(code) {
            assert_eq!(whitespace(ch), ch.is_whitespace());
        }
    }
}

#[test]
fn words_are_the_runs_between_whitespace() {
    for text in [
        "",
        " ",
        "one",
        " one",
        "one ",
        "one two",
        "  one \t two\nthree  ",
        "\u{2003}em\u{2003}space\u{2003}",
        "z\u{e9}ro \u{4e2d}\u{6587}",
    ] {
        let chars: Vec<char> = text.chars().collect();
        let words: Vec<String> =
            split_words(&chars).iter().map(|word| word.iter().collect()).collect();
        let want: Vec<String> = text.split_whitespace().map(|word| word.to_string()).collect();
        assert_eq!(words, want);
    }
}

#[test]
fn texts_and_characters_convert_both_ways() {
    let text = "na\u{ef}ve \u{1f600} text";
    let chars = chars_of(text);
    assert_eq!(chars, text.chars().collect::<Vec<char>>());
    assert_eq!(string_of(&chars), text);
    assert_eq!(string_of(&Vec::new()), "");
}
