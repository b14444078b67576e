//! Greedy line wrapping by measured width.
use crate::metrics::{lemma_width_of_concat, lemma_width_of_one, text_width, AdvanceTable};
use crate::text::{
    chars_of, is_blank, is_word, joined, lemma_leading_blank_adds_no_word,
    lemma_trailing_blank_adds_no_word, lemma_words_after_gap, lemma_words_hold_text,
    lemma_words_of_spaced, spaced, split_words, string_of, texts_of, words_of,
};
use vstd::arithmetic::div_mod::{lemma_div_is_ordered, lemma_div_multiples_vanish_fancy};
use vstd::prelude::*;

verus! {

/// Where the layout stands: the lines that are complete, and the line that is
/// still being filled.
pub struct Progress {
    pub emitted: Seq<Seq<char>>,
    pub line: Seq<char>,
}

/// A word that is too wide for a line, split character by character: taking
/// the next character either keeps the piece within `max_width`, or the piece
/// is complete and the character starts the next one.
pub open spec fn split_word(table: &AdvanceTable, word: Seq<char>, max_width: nat) -> Progress
    decreases word.len(),
{
    if word.len() == 0 {
        Progress { emitted: Seq::empty(), line: Seq::empty() }
    } else {
        let before = split_word(table, word.drop_last(), max_width);
        let longer = before.line.push(word.last());
        if text_width(table, longer) > max_width {
            Progress { emitted: before.emitted.push(before.line), line: seq![word.last()] }
        } else {
            Progress { emitted: before.emitted, line: longer }
        }
    }
}

/// The layout after one more word. A word wider than `max_width` is split:
/// its pieces but the last become lines, its last piece becomes the line
/// being filled, and what that line held before is dropped. Any other word
/// joins the line if the line stays within `max_width`, and else completes
/// the line and starts the next one.
pub open spec fn place_word(
    table: &AdvanceTable,
    at: Progress,
    word: Seq<char>,
    max_width: nat,
) -> Progress {
    if text_width(table, word) > max_width {
        let pieces = split_word(table, word, max_width);
        Progress { emitted: at.emitted + pieces.emitted, line: pieces.line }
    } else if text_width(table, joined(at.line, word)) > max_width {
        Progress { emitted: at.emitted.push(at.line), line: word }
    } else {
        Progress { emitted: at.emitted, line: joined(at.line, word) }
    }
}

/// The layout after all of `words`, taken from left to right.
pub open spec fn place_words(
    table: &AdvanceTable,
    words: Seq<Seq<char>>,
    max_width: nat,
) -> Progress
    decreases words.len(),
{
    if words.len() == 0 {
        Progress { emitted: Seq::empty(), line: Seq::empty() }
    } else {
        place_word(table, place_words(table, words.drop_last(), max_width), words.last(), max_width)
    }
}

/// The lines of `words`: those completed on the way, then the line that was
/// being filled at the end, empty or not.
pub open spec fn lines_of_words(table: &AdvanceTable, words: Seq<Seq<char>>, max_width: nat) -> Seq<
    Seq<char>,
> {
    let end = place_words(table, words, max_width);
    end.emitted.push(end.line)
}

/// The lines into which `content` is wrapped for lines of `max_width`.
pub open spec fn wrapped(table: &AdvanceTable, content: Seq<char>, max_width: nat) -> Seq<
    Seq<char>,
> {
    lines_of_words(table, words_of(content), max_width)
}

/// The character sequences of `lines`, in order.
pub open spec fn contents_of(lines: Seq<String>) -> Seq<Seq<char>> {
    Seq::new(lines.len(), |i: int| lines[i]@)
}

/// Splits `word` into pieces, appending the complete ones to `emitted`, and
/// returns the last piece.
fn split_long_word(
    table: &AdvanceTable,
    word: &Vec<char>,
    max_width: u32,
    emitted: &mut Vec<Vec<char>>,
) -> (line: Vec<char>)
    ensures
        texts_of(final(emitted)@) == texts_of(old(emitted)@) + split_word(
            table,
            word@,
            max_width as nat,
        ).emitted,
        line@ == split_word(table, word@, max_width as nat).line,
{
    let mut line: Vec<char> = Vec::new();
    let mut i: usize = 0;
    assert(texts_of(emitted@) =~= texts_of(old(emitted)@) + split_word(
        table,
        word@.take(0),
        max_width as nat,
    ).emitted);
    while i < word.len()
        invariant
            i <= word@.len(),
            texts_of(emitted@) == texts_of(old(emitted)@) + split_word(
                table,
                word@.take(i as int),
                max_width as nat,
            ).emitted,
            line@ == split_word(table, word@.take(i as int), max_width as nat).line,
        decreases word@.len() - i,
    {
        let ch = word[i];
        let ghost seen = word@.take(i as int);
        let ghost next = word@.take(i + 1);
        assert(next.drop_last() == seen);
        assert(next.last() == ch);
        let ghost before = texts_of(emitted@);
        let ghost pieces = split_word(table, seen, max_width as nat);
        let mut longer = line.clone();
        longer.push(ch);
        assert(longer@ == line@.push(ch));
        if table.exceeds(&longer, max_width) {
            emitted.push(line);
            assert(texts_of(emitted@) =~= before.push(pieces.line));
            assert(before.push(pieces.line) =~= texts_of(old(emitted)@) + pieces.emitted.push(
                pieces.line,
            ));
            line = Vec::new();
            line.push(ch);
            assert(line@ == seq![ch]);
        } else {
            line = longer;
        }
        i = i + 1;
    }
    assert(word@.take(word@.len() as int) == word@);
    line
}

/// The candidate line: `line` with `word` behind it.
fn join(line: &Vec<char>, word: &Vec<char>) -> (both: Vec<char>)
    ensures
        both@ == joined(line@, word@),
{
    let mut both: Vec<char> = Vec::new();
    if line.len() > 0 {
        both = line.clone();
        both.push(' ');
    }
    let ghost head = both@;
    let mut i: usize = 0;
    assert(head + word@.take(0) == head);
    while i < word.len()
        invariant
            i <= word@.len(),
            both@ == head + word@.take(i as int),
        decreases word@.len() - i,
    {
        both.push(word[i]);
        assert(word@.take(i + 1) == word@.take(i as int).push(word@[i as int]));
        assert(head + word@.take(i + 1) == (head + word@.take(i as int)).push(word@[i as int]));
        i = i + 1;
    }
    assert(word@.take(word@.len() as int) == word@);
    both
}

/// Wraps `content` into lines no wider than `max_width`, measured with
/// `table`. The result depends on nothing but the three arguments.
pub fn wrap_text(content: &str, table: &AdvanceTable, max_width: u32) -> (lines: Vec<String>)
    ensures
        contents_of(lines@) == wrapped(table, content@, max_width as nat),
{
    let chars = chars_of(content);
    let words = split_words(&chars);
    let mut emitted: Vec<Vec<char>> = Vec::new();
    let mut line: Vec<char> = Vec::new();
    let mut i: usize = 0;
    let ghost all = texts_of(words@);
    assert(all.take(0) == Seq::<Seq<char>>::empty());
    assert(texts_of(emitted@) == Seq::<Seq<char>>::empty());
    while i < words.len()
        invariant
            i <= words@.len(),
            all == texts_of(words@),
            texts_of(emitted@) == place_words(table, all.take(i as int), max_width as nat).emitted,
            line@ == place_words(table, all.take(i as int), max_width as nat).line,
        decreases words@.len() - i,
    {
        let word = &words[i];
        let ghost seen = all.take(i as int);
        let ghost next = all.take(i + 1);
        assert(next.drop_last() == seen);
        assert(next.last() == word@);
        let ghost before = texts_of(emitted@);
        if table.exceeds(word, max_width) {
            line = split_long_word(table, word, max_width, &mut emitted);
        } else {
            let candidate = join(&line, word);
            if table.exceeds(&candidate, max_width) {
                emitted.push(line);
                assert(texts_of(emitted@) =~= before.push(place_words(
                    table,
                    seen,
                    max_width as nat,
                ).line));
                line = word.clone();
            } else {
                line = candidate;
            }
        }
        i = i + 1;
    }
    assert(all.take(all.len() as int) == all);
    emitted.push(line);
    let mut lines: Vec<String> = Vec::new();
    let mut k: usize = 0;
    assert(contents_of(lines@) =~= texts_of(emitted@).take(0));
    while k < emitted.len()
        invariant
            k <= emitted@.len(),
            contents_of(lines@) == texts_of(emitted@).take(k as int),
        decreases emitted@.len() - k,
    {
        let ghost done = contents_of(lines@);
        lines.push(string_of(&emitted[k]));
        assert(contents_of(lines@) =~= done.push(emitted@[k as int]@));
        assert(texts_of(emitted@).take(k + 1) =~= texts_of(emitted@).take(k as int).push(
            emitted@[k as int]@,
        ));
        k = k + 1;
    }
    assert(texts_of(emitted@).take(emitted@.len() as int) == texts_of(emitted@));
    lines
}

/// The sum of the widths of `lines`.
pub open spec fn total_width(table: &AdvanceTable, lines: Seq<Seq<char>>) -> nat
    decreases lines.len(),
{
    if lines.len() == 0 {
        0
    } else {
        total_width(table, lines.drop_last()) + text_width(table, lines.last())
    }
}

/// The characters of `lines`, one line after the other.
pub open spec fn run_together(lines: Seq<Seq<char>>) -> Seq<char>
    decreases lines.len(),
{
    if lines.len() == 0 {
        Seq::empty()
    } else {
        run_together(lines.drop_last()) + lines.last()
    }
}

/// Whether no line of `lines` is wider than `max_width`.
pub open spec fn all_within(table: &AdvanceTable, lines: Seq<Seq<char>>, max_width: nat) -> bool {
    forall|k: int| 0 <= k < lines.len() ==> text_width(table, #[trigger] lines[k]) <= max_width
}

/// Whether no character of `text` is wider than `max_width` by itself.
pub open spec fn glyphs_fit(table: &AdvanceTable, text: Seq<char>, max_width: nat) -> bool {
    forall|i: int| 0 <= i < text.len() ==> table.advance_of(#[trigger] text[i]) <= max_width
}

/// The width of a line with a word joined to it is the width of both, and
/// that of a space where the line was not empty.
pub proof fn lemma_width_of_joined(table: &AdvanceTable, line: Seq<char>, word: Seq<char>)
    ensures
        text_width(table, joined(line, word)) == if line.len() == 0 {
            text_width(table, word)
        } else {
            text_width(table, line) + table.advance_of(' ') + text_width(table, word)
        },
{
    if line.len() > 0 {
        lemma_width_of_concat(table, line.push(' '), word);
        assert(line.push(' ').drop_last() == line);
    }
}

/// Lines that are each within `max_width` are together no wider than
/// `max_width` times their number.
pub proof fn lemma_total_of_bounded(table: &AdvanceTable, lines: Seq<Seq<char>>, max_width: nat)
    requires
        all_within(table, lines, max_width),
    ensures
        total_width(table, lines) <= lines.len() * max_width,
    decreases lines.len(),
{
    if lines.len() > 0 {
        let rest = lines.drop_last();
        assert forall|k: int| 0 <= k < rest.len() implies text_width(table, #[trigger] rest[k])
            <= max_width by {
            assert(rest[k] == lines[k]);
        }
        lemma_total_of_bounded(table, rest, max_width);
        assert(text_width(table, lines[lines.len() - 1]) <= max_width);
        assert(lines.len() * max_width == rest.len() * max_width + max_width) by (nonlinear_arith)
            requires
                lines.len() == rest.len() + 1,
        ;
    } else {
        assert(lines.len() * max_width == 0) by (nonlinear_arith)
            requires
                lines.len() == 0,
        ;
    }
}

/// Splitting a word loses nothing of its width, and where no character is
/// wider than a line by itself, no piece is wider than a line.
pub proof fn lemma_split_word(table: &AdvanceTable, word: Seq<char>, max_width: nat)
    ensures
        total_width(table, split_word(table, word, max_width).emitted) + text_width(
            table,
            split_word(table, word, max_width).line,
        ) == text_width(table, word),
        glyphs_fit(table, word, max_width) ==> all_within(
            table,
            split_word(table, word, max_width).emitted,
            max_width,
        ) && text_width(table, split_word(table, word, max_width).line) <= max_width,
    decreases word.len(),
{
    if word.len() > 0 {
        let rest = word.drop_last();
        let ch = word.last();
        let before = split_word(table, rest, max_width);
        let after = split_word(table, word, max_width);
        lemma_split_word(table, rest, max_width);
        lemma_width_of_one(table, ch);
        if text_width(table, before.line.push(ch)) > max_width {
            assert(after.emitted.drop_last() == before.emitted);
            assert(after.emitted.last() == before.line);
        } else {
            assert(before.line.push(ch).drop_last() == before.line);
        }
        if glyphs_fit(table, word, max_width) {
            assert(table.advance_of(word[word.len() - 1]) <= max_width);
            assert forall|i: int| 0 <= i < rest.len() implies table.advance_of(#[trigger] rest[i])
                <= max_width by {
                assert(rest[i] == word[i]);
            }
            assert forall|k: int| 0 <= k < after.emitted.len() implies text_width(
                table,
                #[trigger] after.emitted[k],
            ) <= max_width by {
                if k < before.emitted.len() {
                    assert(after.emitted[k] == before.emitted[k]);
                }
            }
        }
    }
}

/// Whether piece number `k` of `pieces`, which are cut from the start of
/// `word`, is as long as a line allows: with the character that follows it in
/// `word` it would be wider than `max_width`.
pub open spec fn is_full_piece(
    table: &AdvanceTable,
    word: Seq<char>,
    pieces: Seq<Seq<char>>,
    k: int,
    max_width: nat,
) -> bool {
    let end = run_together(pieces.take(k + 1)).len() as int;
    end < word.len() && text_width(table, pieces[k].push(word[end])) > max_width
}

/// The pieces of a split word, run together, are the word, and each
/// complete piece is as long as a line allows.
pub proof fn lemma_split_word_is_greedy(table: &AdvanceTable, word: Seq<char>, max_width: nat)
    ensures
        run_together(split_word(table, word, max_width).emitted) + split_word(
            table,
            word,
            max_width,
        ).line == word,
        forall|k: int|
            0 <= k < split_word(table, word, max_width).emitted.len() ==> #[trigger] is_full_piece(
                table,
                word,
                split_word(table, word, max_width).emitted,
                k,
                max_width,
            ),
    decreases word.len(),
{
    if word.len() == 0 {
        assert(run_together(Seq::<Seq<char>>::empty()) + Seq::<char>::empty() == word);
    } else {
        let rest = word.drop_last();
        let ch = word.last();
        let before = split_word(table, rest, max_width);
        let after = split_word(table, word, max_width);
        lemma_split_word_is_greedy(table, rest, max_width);
        let whole = run_together(before.emitted) + before.line;
        assert(whole == rest);
        if text_width(table, before.line.push(ch)) > max_width {
            assert(after.emitted.drop_last() == before.emitted);
            assert(after.emitted.last() == before.line);
            assert(run_together(after.emitted) == whole);
            assert(whole + seq![ch] == word);
        } else {
            assert(whole.push(ch) == word);
            assert(run_together(before.emitted) + before.line.push(ch) == whole.push(ch));
        }
        assert forall|k: int| 0 <= k < after.emitted.len() implies #[trigger] is_full_piece(
            table,
            word,
            after.emitted,
            k,
            max_width,
        ) by {
            if k < before.emitted.len() {
                assert(is_full_piece(table, rest, before.emitted, k, max_width));
                assert(after.emitted.take(k + 1) == before.emitted.take(k + 1));
                assert(after.emitted[k] == before.emitted[k]);
                let end = run_together(before.emitted.take(k + 1)).len() as int;
                assert(end < rest.len());
                assert(word[end] == rest[end]);
            } else {
                assert(after.emitted.take(k + 1) == after.emitted);
                assert(run_together(after.emitted).len() == rest.len());
                assert(word[rest.len() as int] == ch);
            }
        }
    }
}

/// Where no character of any word is wider than a line by itself, no line of
/// the layout is wider than a line.
pub proof fn lemma_lines_within_width(table: &AdvanceTable, words: Seq<Seq<char>>, max_width: nat)
    requires
        forall|i: int| 0 <= i < words.len() ==> glyphs_fit(table, #[trigger] words[i], max_width),
    ensures
        all_within(table, place_words(table, words, max_width).emitted, max_width),
        text_width(table, place_words(table, words, max_width).line) <= max_width,
        all_within(table, lines_of_words(table, words, max_width), max_width),
    decreases words.len(),
{
    let end = place_words(table, words, max_width);
    if words.len() > 0 {
        let rest = words.drop_last();
        let word = words.last();
        let at = place_words(table, rest, max_width);
        assert forall|i: int| 0 <= i < rest.len() implies glyphs_fit(
            table,
            #[trigger] rest[i],
            max_width,
        ) by {
            assert(rest[i] == words[i]);
        }
        lemma_lines_within_width(table, rest, max_width);
        assert(glyphs_fit(table, words[words.len() - 1], max_width));
        lemma_split_word(table, word, max_width);
        let pieces = split_word(table, word, max_width);
        assert forall|k: int| 0 <= k < end.emitted.len() implies text_width(
            table,
            #[trigger] end.emitted[k],
        ) <= max_width by {
            if k < at.emitted.len() {
                assert(end.emitted[k] == at.emitted[k]);
            } else if text_width(table, word) > max_width {
                assert(end.emitted[k] == pieces.emitted[k - at.emitted.len()]);
            }
        }
    }
    let lines = lines_of_words(table, words, max_width);
    assert forall|k: int| 0 <= k < lines.len() implies text_width(table, #[trigger] lines[k])
        <= max_width by {
        if k < end.emitted.len() {
            assert(lines[k] == end.emitted[k]);
        }
    }
}

/// Where no character of `content` is wider than a line by itself, no line
/// into which `content` is wrapped is wider than a line.
pub proof fn lemma_wrapped_within_width(table: &AdvanceTable, content: Seq<char>, max_width: nat)
    requires
        glyphs_fit(table, content, max_width),
    ensures
        all_within(table, wrapped(table, content, max_width), max_width),
{
    let words = words_of(content);
    lemma_words_hold_text(content);
    assert forall|i: int| 0 <= i < words.len() implies glyphs_fit(
        table,
        #[trigger] words[i],
        max_width,
    ) by {
        assert forall|j: int| 0 <= j < words[i].len() implies table.advance_of(
            #[trigger] words[i][j],
        ) <= max_width by {
            assert(content.contains(words[i][j]));
            let k = choose|k: int| 0 <= k < content.len() && content[k] == words[i][j];
            assert(table.advance_of(content[k]) <= max_width);
        }
    }
    lemma_lines_within_width(table, words, max_width);
}

/// Words that fit on one line together, single spaces between them, are laid
/// out as that one line.
pub proof fn lemma_fitting_words(table: &AdvanceTable, words: Seq<Seq<char>>, max_width: nat)
    requires
        text_width(table, spaced(words)) <= max_width,
    ensures
        place_words(table, words, max_width) == (Progress {
            emitted: Seq::empty(),
            line: spaced(words),
        }),
    decreases words.len(),
{
    if words.len() > 0 {
        let rest = words.drop_last();
        lemma_width_of_joined(table, spaced(rest), words.last());
        lemma_fitting_words(table, rest, max_width);
    }
}

/// A content that fits on one line is wrapped into exactly one line, its
/// words with single spaces between them. For a content whose words are
/// separated by single spaces, with any whitespace before and behind, that
/// line is the content without the whitespace at its ends.
pub proof fn lemma_short_content_is_one_line(
    table: &AdvanceTable,
    before: Seq<char>,
    words: Seq<Seq<char>>,
    behind: Seq<char>,
    max_width: nat,
)
    requires
        is_blank(before),
        is_blank(behind),
        forall|i: int| 0 <= i < words.len() ==> is_word(#[trigger] words[i]),
        text_width(table, before + spaced(words) + behind) <= max_width,
    ensures
        wrapped(table, before + spaced(words) + behind, max_width) == seq![spaced(words)],
{
    let text = spaced(words);
    lemma_trailing_blank_adds_no_word(before + text, behind);
    lemma_leading_blank_adds_no_word(before, text);
    lemma_words_of_spaced(words);
    lemma_width_of_concat(table, before + text, behind);
    lemma_width_of_concat(table, before, text);
    lemma_fitting_words(table, words, max_width);
    let end = place_words(table, words, max_width);
    assert(end.emitted.push(end.line) == seq![text]);
}

/// A content of one word that is wider than a line, none of its characters
/// wider than a line by itself, is wrapped into pieces that are each within
/// the line width and that together are the word. So there are at least as
/// many pieces as the word's width divided by the line width, rounded up.
pub proof fn lemma_long_word_is_split(table: &AdvanceTable, word: Seq<char>, max_width: nat)
    requires
        is_word(word),
        text_width(table, word) > max_width,
        glyphs_fit(table, word, max_width),
    ensures
        all_within(table, wrapped(table, word, max_width), max_width),
        run_together(wrapped(table, word, max_width)) == word,
        total_width(table, wrapped(table, word, max_width)) == text_width(table, word),
        wrapped(table, word, max_width).len() * max_width >= text_width(table, word),
        max_width > 0,
        wrapped(table, word, max_width).len() >= (text_width(table, word) + max_width - 1)
            / max_width as int,
        wrapped(table, word, max_width).len() >= 2,
{
    let none = Seq::<char>::empty();
    lemma_words_after_gap(none, word);
    assert(none + word == word);
    let words = words_of(word);
    assert(words == seq![word]);
    assert(words.drop_last() == Seq::<Seq<char>>::empty());
    let pieces = split_word(table, word, max_width);
    let start = place_words(table, words.drop_last(), max_width);
    assert(start.emitted == Seq::<Seq<char>>::empty());
    let end = place_words(table, words, max_width);
    assert(words.last() == word);
    assert(end.emitted =~= pieces.emitted);
    let lines = wrapped(table, word, max_width);
    assert(lines.drop_last() == pieces.emitted);
    assert(lines.last() == pieces.line);
    lemma_split_word(table, word, max_width);
    lemma_split_word_is_greedy(table, word, max_width);
    lemma_wrapped_within_width(table, word, max_width);
    lemma_total_of_bounded(table, lines, max_width);
    if lines.len() < 2 {
        assert(lines.len() * max_width <= max_width) by (nonlinear_arith)
            requires
                lines.len() <= 1,
        ;
    }
    if max_width == 0 {
        assert(lines.len() * max_width == 0) by (nonlinear_arith)
            requires
                max_width == 0,
        ;
    }
    let count = lines.len() as int;
    let limit = max_width as int;
    assert(count * limit == limit * count) by (nonlinear_arith);
    lemma_div_multiples_vanish_fancy(count, limit - 1, limit);
    lemma_div_is_ordered(text_width(table, word) + limit - 1, limit * count + (limit - 1), limit);
}

/// A content without words, empty or blank, is wrapped into one empty line.
pub proof fn lemma_blank_content_is_one_empty_line(
    table: &AdvanceTable,
    content: Seq<char>,
    max_width: nat,
)
    requires
        is_blank(content),
    ensures
        wrapped(table, content, max_width) == seq![Seq::<char>::empty()],
{
    let none = Seq::<char>::empty();
    lemma_trailing_blank_adds_no_word(none, content);
    assert(none + content == content);
    let end = place_words(table, words_of(content), max_width);
    assert(end.emitted.push(end.line) == seq![none]);
}

/// A character without advance never completes a piece of a split word: it
/// joins the piece before it, unless that piece is a single character wider
/// than a line.
pub proof fn lemma_zero_advance_joins_piece(
    table: &AdvanceTable,
    word: Seq<char>,
    ch: char,
    max_width: nat,
)
    requires
        table.advance_of(ch) == 0,
        text_width(table, split_word(table, word, max_width).line) <= max_width,
    ensures
        split_word(table, word.push(ch), max_width) == (Progress {
            emitted: split_word(table, word, max_width).emitted,
            line: split_word(table, word, max_width).line.push(ch),
        }),
{
    let longer = word.push(ch);
    assert(longer.drop_last() == word);
    let piece = split_word(table, word, max_width).line;
    assert(piece.push(ch).drop_last() == piece);
}

/// A word without width joins the line before it wherever a space still
/// fits behind that line.
pub proof fn lemma_zero_width_word_joins_line(
    table: &AdvanceTable,
    at: Progress,
    word: Seq<char>,
    max_width: nat,
)
    requires
        text_width(table, word) == 0,
        text_width(table, at.line) + table.advance_of(' ') <= max_width,
    ensures
        place_word(table, at, word, max_width) == (Progress {
            emitted: at.emitted,
            line: joined(at.line, word),
        }),
{
    lemma_width_of_joined(table, at.line, word);
}

/// Tables that give every character the same advance measure every text
/// alike.
pub proof fn lemma_same_advances_same_width(a: &AdvanceTable, b: &AdvanceTable, text: Seq<char>)
    requires
        forall|ch: char| a.advance_of(ch) == b.advance_of(ch),
    ensures
        text_width(a, text) == text_width(b, text),
    decreases text.len(),
{
    if text.len() > 0 {
        lemma_same_advances_same_width(a, b, text.drop_last());
    }
}

/// The lines depend on the measurement alone: tables that give every
/// character the same advance wrap every content into the same lines.
pub proof fn lemma_same_advances_same_lines(
    a: &AdvanceTable,
    b: &AdvanceTable,
    content: Seq<char>,
    max_width: nat,
)
    requires
        forall|ch: char| a.advance_of(ch) == b.advance_of(ch),
    ensures
        wrapped(a, content, max_width) == wrapped(b, content, max_width),
{
    lemma_same_place_words(a, b, words_of(content), max_width);
}

proof fn lemma_same_split_word(a: &AdvanceTable, b: &AdvanceTable, word: Seq<char>, max_width: nat)
    requires
        forall|ch: char| a.advance_of(ch) == b.advance_of(ch),
    ensures
        split_word(a, word, max_width) == split_word(b, word, max_width),
    decreases word.len(),
{
    if word.len() > 0 {
        lemma_same_split_word(a, b, word.drop_last(), max_width);
        let before = split_word(a, word.drop_last(), max_width);
        lemma_same_advances_same_width(a, b, before.line.push(word.last()));
    }
}

proof fn lemma_same_place_words(
    a: &AdvanceTable,
    b: &AdvanceTable,
    words: Seq<Seq<char>>,
    max_width: nat,
)
    requires
        forall|ch: char| a.advance_of(ch) == b.advance_of(ch),
    ensures
        place_words(a, words, max_width) == place_words(b, words, max_width),
    decreases words.len(),
{
    if words.len() > 0 {
        lemma_same_place_words(a, b, words.drop_last(), max_width);
        let at = place_words(a, words.drop_last(), max_width);
        lemma_same_advances_same_width(a, b, words.last());
        lemma_same_advances_same_width(a, b, joined(at.line, words.last()));
        lemma_same_split_word(a, b, words.last(), max_width);
    }
}

} // verus!
