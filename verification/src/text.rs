//! Characters, whitespace and the words of a text.
use vstd::prelude::*;
use vstd::std_specs::iter::IteratorSpec;

verus! {

/// Appending a character, as `String::push` of the standard library does.
pub assume_specification[ String::push ](text: &mut String, ch: char)
    ensures
        final(text)@ == old(text)@.push(ch),
;

/// The characters of `text`.
pub fn chars_of(text: &str) -> (chars: Vec<char>)
    ensures
        chars@ == text@,
{
    broadcast use vstd::string::axiom_spec_iter;

    let mut chars: Vec<char> = Vec::new();
    for ch in it: text.chars()
        invariant
            it.seq() == text@,
            chars@ == text@.take(it.index()),
    {
        chars.push(ch);
        assert(text@.take(it.index() + 1) == text@.take(it.index()).push(ch));
    }
    assert(text@.take(text@.len() as int) == text@);
    chars
}

/// The string made of `chars`.
pub fn string_of(chars: &Vec<char>) -> (text: String)
    ensures
        text@ == chars@,
{
    let mut text = String::new();
    let mut i: usize = 0;
    while i < chars.len()
        invariant
            i <= chars@.len(),
            text@ == chars@.take(i as int),
        decreases chars@.len() - i,
    {
        text.push(chars[i]);
        assert(chars@.take(i + 1) == chars@.take(i as int).push(chars@[i as int]));
        i = i + 1;
    }
    assert(chars@.take(chars@.len() as int) == chars@);
    text
}

/// Whether `ch` has the Unicode property White_Space, by which the
/// standard library splits a text into words.
pub open spec fn is_whitespace(ch: char) -> bool {
    let code = ch as u32;
    ||| 0x09 <= code <= 0x0D
    ||| code == 0x20
    ||| code == 0x85
    ||| code == 0xA0
    ||| code == 0x1680
    ||| 0x2000 <= code <= 0x200A
    ||| code == 0x2028
    ||| code == 0x2029
    ||| code == 0x202F
    ||| code == 0x205F
    ||| code == 0x3000
}

/// Whether `ch` is whitespace.
pub fn whitespace(ch: char) -> (white: bool)
    ensures
        white == is_whitespace(ch),
{
    let code: u32 = ch as u32;
    (0x09 <= code && code <= 0x0D) || code == 0x20 || code == 0x85 || code == 0xA0 || code
        == 0x1680 || (0x2000 <= code && code <= 0x200A) || code == 0x2028 || code == 0x2029 || code
        == 0x202F || code == 0x205F || code == 0x3000
}

/// Whether `text` ends inside a word.
pub open spec fn ends_in_word(text: Seq<char>) -> bool {
    text.len() > 0 && !is_whitespace(text.last())
}

/// The words of `text`: its longest runs of characters that are not
/// whitespace, from left to right.
pub open spec fn words_of(text: Seq<char>) -> Seq<Seq<char>>
    decreases text.len(),
{
    if text.len() == 0 {
        Seq::empty()
    } else {
        let before = words_of(text.drop_last());
        if is_whitespace(text.last()) {
            before
        } else if ends_in_word(text.drop_last()) {
            before.drop_last().push(before.last().push(text.last()))
        } else {
            before.push(seq![text.last()])
        }
    }
}

/// A text that ends inside a word has a last word.
pub proof fn lemma_last_word(text: Seq<char>)
    ensures
        ends_in_word(text) ==> words_of(text).len() > 0 && words_of(text).last().len() > 0,
    decreases text.len(),
{
    if text.len() > 0 {
        lemma_last_word(text.drop_last());
    }
}

/// The character sequences that `words` hold, in order.
pub open spec fn texts_of(words: Seq<Vec<char>>) -> Seq<Seq<char>> {
    Seq::new(words.len(), |i: int| words[i]@)
}

/// Splits `text` into its words.
pub fn split_words(text: &Vec<char>) -> (words: Vec<Vec<char>>)
    ensures
        texts_of(words@) == words_of(text@),
{
    let mut words: Vec<Vec<char>> = Vec::new();
    let mut current: Vec<char> = Vec::new();
    let mut i: usize = 0;
    assert(texts_of(words@) =~= words_of(text@.take(0)));
    while i < text.len()
        invariant
            i <= text@.len(),
            ends_in_word(text@.take(i as int)) ==> current@.len() > 0 && words_of(
                text@.take(i as int),
            ) == texts_of(words@).push(current@),
            !ends_in_word(text@.take(i as int)) ==> current@.len() == 0 && words_of(
                text@.take(i as int),
            ) == texts_of(words@),
        decreases text@.len() - i,
    {
        let ch = text[i];
        let ghost seen = text@.take(i as int);
        let ghost next = text@.take(i + 1);
        assert(next.drop_last() == seen);
        assert(next.last() == ch);
        if whitespace(ch) {
            if current.len() > 0 {
                let ghost old_words = texts_of(words@);
                words.push(current);
                assert(texts_of(words@) =~= old_words.push(current@));
                current = Vec::new();
            }
        } else {
            let ghost old_current = current@;
            current.push(ch);
            proof {
                if ends_in_word(seen) {
                    let before = texts_of(words@).push(old_current);
                    assert(before.drop_last() == texts_of(words@));
                    assert(before.last() == old_current);
                } else {
                    assert(current@ == seq![ch]);
                }
            }
        }
        i = i + 1;
    }
    assert(text@.take(text@.len() as int) == text@);
    if current.len() > 0 {
        let ghost old_words = texts_of(words@);
        words.push(current);
        assert(texts_of(words@) =~= old_words.push(current@));
    }
    words
}

/// `line` with `word` put behind it, a space between them unless `line` is
/// empty.
pub open spec fn joined(line: Seq<char>, word: Seq<char>) -> Seq<char> {
    if line.len() == 0 {
        word
    } else {
        line.push(' ') + word
    }
}

/// `words` in order, with one space between neighbours.
pub open spec fn spaced(words: Seq<Seq<char>>) -> Seq<char>
    decreases words.len(),
{
    if words.len() == 0 {
        Seq::empty()
    } else {
        joined(spaced(words.drop_last()), words.last())
    }
}

/// Whether `text` holds nothing but whitespace.
pub open spec fn is_blank(text: Seq<char>) -> bool {
    forall|i: int| 0 <= i < text.len() ==> is_whitespace(#[trigger] text[i])
}

/// Whether `text` is a word: not empty, and free of whitespace.
pub open spec fn is_word(text: Seq<char>) -> bool {
    text.len() > 0 && forall|i: int| 0 <= i < text.len() ==> !is_whitespace(#[trigger] text[i])
}

/// Whitespace at the end of a text adds no word.
pub proof fn lemma_trailing_blank_adds_no_word(text: Seq<char>, blank: Seq<char>)
    requires
        is_blank(blank),
    ensures
        words_of(text + blank) == words_of(text),
        !ends_in_word(text + blank) || blank.len() == 0,
    decreases blank.len(),
{
    if blank.len() == 0 {
        assert(text + blank == text);
    } else {
        let shorter = blank.drop_last();
        assert(is_whitespace(blank[blank.len() - 1]));
        assert forall|i: int| 0 <= i < shorter.len() implies is_whitespace(#[trigger] shorter[i]) by {
            assert(shorter[i] == blank[i]);
        }
        lemma_trailing_blank_adds_no_word(text, shorter);
        assert((text + blank).drop_last() == text + shorter);
        assert((text + blank).last() == blank.last());
    }
}

/// A word that follows a gap, or starts the text, is the next word of the
/// text.
pub proof fn lemma_words_after_gap(text: Seq<char>, word: Seq<char>)
    requires
        !ends_in_word(text),
        is_word(word),
    ensures
        words_of(text + word) == words_of(text).push(word),
    decreases word.len(),
{
    let rest = word.drop_last();
    let ch = word.last();
    assert(!is_whitespace(word[word.len() - 1]));
    assert((text + word).drop_last() == text + rest);
    assert((text + word).last() == ch);
    if rest.len() == 0 {
        assert(text + rest == text);
        assert(word == seq![ch]);
    } else {
        assert forall|i: int| 0 <= i < rest.len() implies !is_whitespace(#[trigger] rest[i]) by {
            assert(rest[i] == word[i]);
        }
        lemma_words_after_gap(text, rest);
        assert((text + rest).last() == rest.last());
        assert(!is_whitespace(rest[rest.len() - 1]));
        let before = words_of(text).push(rest);
        assert(before.drop_last() == words_of(text));
        assert(rest.push(ch) == word);
    }
}

/// Whitespace at the start of a text adds no word.
pub proof fn lemma_leading_blank_adds_no_word(blank: Seq<char>, text: Seq<char>)
    requires
        is_blank(blank),
    ensures
        words_of(blank + text) == words_of(text),
    decreases text.len(),
{
    if text.len() == 0 {
        lemma_trailing_blank_adds_no_word(text, blank);
        assert(blank + text == text + blank);
    } else {
        let rest = text.drop_last();
        lemma_leading_blank_adds_no_word(blank, rest);
        assert((blank + text).drop_last() == blank + rest);
        assert((blank + text).last() == text.last());
        if rest.len() == 0 {
            assert(blank + rest == blank);
            if blank.len() > 0 {
                assert(is_whitespace(blank[blank.len() - 1]));
            }
        } else {
            assert((blank + rest).last() == rest.last());
        }
    }
}

/// Words put together with single spaces come apart as the same words.
pub proof fn lemma_words_of_spaced(words: Seq<Seq<char>>)
    requires
        forall|i: int| 0 <= i < words.len() ==> is_word(#[trigger] words[i]),
    ensures
        words_of(spaced(words)) == words,
    decreases words.len(),
{
    if words.len() == 0 {
        assert(words == Seq::<Seq<char>>::empty());
    } else {
        let rest = words.drop_last();
        let word = words.last();
        assert forall|i: int| 0 <= i < rest.len() implies is_word(#[trigger] rest[i]) by {
            assert(rest[i] == words[i]);
        }
        lemma_words_of_spaced(rest);
        assert(is_word(words[words.len() - 1]));
        let head = spaced(rest);
        if head.len() == 0 {
            lemma_words_after_gap(head, word);
            assert(head + word == word);
        } else {
            let gap = head.push(' ');
            assert(gap.drop_last() == head);
            assert(is_whitespace(' '));
            lemma_words_after_gap(gap, word);
        }
        assert(rest.push(word) == words);
    }
}

/// Every character of a word of a text is a character of the text.
pub proof fn lemma_words_hold_text(text: Seq<char>)
    ensures
        forall|i: int, j: int|
            0 <= i < words_of(text).len() && 0 <= j < words_of(text)[i].len() ==> text.contains(
                #[trigger] words_of(text)[i][j],
            ),
    decreases text.len(),
{
    if text.len() > 0 {
        let rest = text.drop_last();
        let before = words_of(rest);
        lemma_words_hold_text(rest);
        lemma_last_word(rest);
        assert forall|i: int, j: int|
            0 <= i < words_of(text).len() && 0 <= j < words_of(text)[i].len() implies text.contains(
            #[trigger] words_of(text)[i][j],
        ) by {
            let ch = words_of(text)[i][j];
            if i < before.len() && j < before[i].len() && before[i][j] == ch {
                assert(rest.contains(before[i][j]));
                let k = choose|k: int| 0 <= k < rest.len() && rest[k] == ch;
                assert(text[k] == ch);
            } else {
                assert(ch == text.last());
                assert(text[text.len() - 1] == ch);
            }
        }
    }
}

} // verus!
