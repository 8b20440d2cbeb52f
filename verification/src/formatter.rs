//! Styling of YAML scalars: indents, block styles and the folding of long
//! strings.

use vstd::prelude::*;
use vstd::utf8::{char_is_scalar, encode_scalar, encode_utf8};
use crate::error::FormatError;
use crate::text::{
    all_words, chars_of, has_line_break, is_blank, is_gap, is_word, lemma_lines_append,
    lemma_lines_joined,
    lemma_words_add, lemma_words_are_words, lemma_words_of_gaps, lemma_words_of_joined,
    lemma_words_of_word, lines_of, push_all, repeat, repeated, split_lines, split_words,
    string_of, texts, words_of,
};
use crate::value::{Tree, YmlValue};
use crate::yaml::{render, rendering};

verus! {

/// The number of bytes that `c` takes in UTF-8.
pub open spec fn char_width(c: char) -> nat {
    encode_scalar(c as u32).len()
}

/// The number of bytes that `s` takes in UTF-8.
pub open spec fn byte_len(s: Seq<char>) -> nat {
    encode_utf8(s).len()
}

/// The encoding of a concatenation is the concatenation of the encodings.
pub proof fn lemma_encode_add(a: Seq<char>, b: Seq<char>)
    ensures
        encode_utf8(a + b) == encode_utf8(a) + encode_utf8(b),
    decreases a.len(),
{
    if a.len() == 0 {
        assert(a + b == b);
        assert(encode_utf8(a) + encode_utf8(b) == encode_utf8(b));
    } else {
        lemma_encode_add(a.drop_first(), b);
        assert((a + b).drop_first() == a.drop_first() + b);
        assert((a + b)[0] == a[0]);
        assert(encode_utf8(a + b) == encode_scalar(a[0] as u32) + (encode_utf8(a.drop_first())
            + encode_utf8(b)));
        assert(encode_utf8(a + b) == encode_utf8(a) + encode_utf8(b));
    }
}

/// The bytes of a concatenation are those of its two parts.
pub proof fn lemma_byte_len_add(a: Seq<char>, b: Seq<char>)
    ensures
        byte_len(a + b) == byte_len(a) + byte_len(b),
{
    lemma_encode_add(a, b);
}

/// A text of one character takes the bytes of that character.
pub proof fn lemma_byte_len_one(c: char)
    ensures
        byte_len(seq![c]) == char_width(c),
        1 <= char_width(c) <= 4,
{
    let one = seq![c];
    assert(one.drop_first() == Seq::<char>::empty());
    assert(encode_utf8(one) == encode_scalar(c as u32) + encode_utf8(one.drop_first()));
    assert(encode_utf8(Seq::<char>::empty()).len() == 0);
}

/// The number of bytes that `c` takes in UTF-8.
pub fn width_of(c: char) -> (n: u128)
    ensures
        n == char_width(c),
        1 <= n <= 4,
{
    proof {
        char_is_scalar(c);
    }
    let code: u32 = c as u32;
    if code < 0x80 {
        1
    } else if code < 0x800 {
        2
    } else if code < 0x10000 {
        3
    } else {
        4
    }
}

/// The number of bytes that `v` takes in UTF-8.
pub fn byte_length(v: &Vec<char>) -> (n: u128)
    ensures
        n == byte_len(v@),
        n <= 4 * v.len(),
{
    let mut n: u128 = 0;
    let mut i: usize = 0;
    while i < v.len()
        invariant
            i <= v.len(),
            n == byte_len(v@.take(i as int)),
            n <= 4 * i,
        decreases v.len() - i,
    {
        proof {
            assert(v@.take(i + 1) == v@.take(i as int) + seq![v@[i as int]]);
            lemma_byte_len_add(v@.take(i as int), seq![v@[i as int]]);
            lemma_byte_len_one(v@[i as int]);
        }
        n = n + width_of(v[i]);
        i = i + 1;
    }
    assert(v@.take(v.len() as int) == v@);
    n
}

/// Whether trailing line breaks of a block are kept.
#[derive(Debug, Clone, Copy, PartialEq, Eq, Structural)]
pub enum Chomp {
    /// Keep a single trailing line break.
    Clip,
    /// Remove every trailing line break.
    Strip,
    /// Keep every trailing line break.
    Keep,
}

impl Default for Chomp {
    fn default() -> (c: Chomp)
        ensures
            c == Chomp::Clip,
    {
        Chomp::Clip
    }
}

impl Chomp {
    /// The indicator that follows the block header.
    pub open spec fn indicator(self) -> Seq<char> {
        match self {
            Chomp::Clip => Seq::empty(),
            Chomp::Strip => seq!['-'],
            Chomp::Keep => seq!['+'],
        }
    }

    /// The indicator that follows the block header.
    pub fn to_text(&self) -> (out: String)
        ensures
            out@ == self.indicator(),
    {
        let mut out = String::new();
        match self {
            Chomp::Clip => {},
            Chomp::Strip => {
                out.push('-');
            },
            Chomp::Keep => {
                out.push('+');
            },
        }
        out
    }
}

/// The kind and the size of one level of indentation.
#[derive(Debug, Clone, Copy, PartialEq, Eq, Structural)]
pub enum Indent {
    /// This many spaces for each level.
    Space(u8),
    /// One tab for each level.
    Tab,
}

impl Default for Indent {
    fn default() -> (i: Indent)
        ensures
            i == Indent::Space(2),
    {
        Indent::Space(2)
    }
}

impl Indent {
    /// The text of one level.
    pub open spec fn unit(self) -> Seq<char> {
        match self {
            Indent::Space(count) => repeated(seq![' '], count as nat),
            Indent::Tab => seq!['\t'],
        }
    }

    /// The text of `levels` levels.
    pub open spec fn levels(self, levels: nat) -> Seq<char> {
        repeated(self.unit(), levels)
    }

    /// The characters of one level.
    pub fn unit_chars(&self) -> (out: Vec<char>)
        ensures
            out@ == self.unit(),
    {
        match self {
            Indent::Space(count) => {
                let space: Vec<char> = vec![' '];
                assert(space@ == seq![' ']);
                repeat(&space, *count as usize)
            },
            Indent::Tab => {
                let tab: Vec<char> = vec!['\t'];
                assert(tab@ == seq!['\t']);
                tab
            },
        }
    }

    /// The text of one level.
    pub fn to_text(&self) -> (out: String)
        ensures
            out@ == self.unit(),
    {
        string_of(&self.unit_chars())
    }

    /// The text of `count` levels, of none where `count` is `None`.
    pub fn make(&self, count: Option<u8>) -> (out: String)
        ensures
            out@ == self.levels(
                match count {
                    Some(n) => n as nat,
                    None => 0,
                },
            ),
    {
        let n: u8 = match count {
            Some(n) => n,
            None => 0,
        };
        string_of(&repeat(&self.unit_chars(), n as usize))
    }
}

/// How a string is written.
#[derive(Debug, Clone, Copy, PartialEq, Eq, Structural)]
pub enum Style {
    /// Choose by the content of the string.
    Guess,
    /// Block style `>`: single line breaks fold into spaces.
    Folded(Chomp),
    /// Block style `|`: line breaks stay as they are.
    Literal(Chomp),
    /// Flow style without quotes.
    Plain,
    /// Flow style within single quotes.
    Single,
    /// Flow style within double quotes.
    Double,
}

impl Default for Style {
    fn default() -> (s: Style)
        ensures
            s == Style::Guess,
    {
        Style::Guess
    }
}

/// Whether a word no longer fits on a line of `line_len` bytes: the line,
/// with a space and the word, would reach `wrap_at` bytes.
pub open spec fn folds_at(line_len: int, word: Seq<char>, wrap_at: int) -> bool {
    line_len + 1 + byte_len(word) >= wrap_at
}

/// The length, in bytes, of the last line of the words laid out after the
/// indent.
pub open spec fn line_length(words: Seq<Seq<char>>, pad: Seq<char>, wrap_at: int) -> int
    decreases words.len(),
{
    if words.len() == 0 {
        byte_len(pad) as int
    } else {
        let before = words.drop_last();
        let word = words.last();
        if before.len() == 0 || folds_at(line_length(before, pad, wrap_at), word, wrap_at) {
            (byte_len(pad) + byte_len(word)) as int
        } else {
            line_length(before, pad, wrap_at) + 1 + byte_len(word)
        }
    }
}

/// The words of one line of the value, laid out after the indent.
///
/// The first word stands first. Each further word follows a space or,
/// where the line would reach `wrap_at` bytes with the space and the word,
/// a line break and the indent. A word is never split, however long it is.
pub open spec fn laid_out(words: Seq<Seq<char>>, pad: Seq<char>, wrap_at: int) -> Seq<char>
    decreases words.len(),
{
    if words.len() == 0 {
        Seq::empty()
    } else {
        let before = words.drop_last();
        let word = words.last();
        if before.len() == 0 {
            word
        } else if folds_at(line_length(before, pad, wrap_at), word, wrap_at) {
            laid_out(before, pad, wrap_at) + seq!['\n'] + pad + word
        } else {
            laid_out(before, pad, wrap_at) + seq![' '] + word
        }
    }
}

/// The lines of the value, folded.
///
/// The first line is the indent and its words laid out, and nothing where
/// it holds no word. Each further line follows a line break and the indent.
pub open spec fn folded_lines(lines: Seq<Seq<char>>, pad: Seq<char>, wrap_at: int) -> Seq<char>
    decreases lines.len(),
{
    if lines.len() == 0 {
        Seq::empty()
    } else if lines.len() == 1 {
        if words_of(lines[0]).len() == 0 {
            Seq::empty()
        } else {
            pad + laid_out(words_of(lines[0]), pad, wrap_at)
        }
    } else {
        folded_lines(lines.drop_last(), pad, wrap_at) + seq!['\n'] + pad + laid_out(
            words_of(lines.last()),
            pad,
            wrap_at,
        )
    }
}

/// The header of a block: a space, the style's sign, the chomping indicator
/// and a line break.
pub open spec fn block_header(sign: char, chomp: Chomp) -> Seq<char> {
    seq![' ', sign] + chomp.indicator() + seq!['\n']
}

/// What follows the header of the folded block of `value`.
///
/// Each line of the value is a line of the block, indented by `depth + 1`
/// levels: a line break in the value is a line break and the indent in the
/// block. On a line the words are a space apart, however many blanks lie
/// between them in the value, and the line is broken before a word with
/// which it would reach `wrap_at` bytes. A value without a word and without
/// a line break, the empty value among them, has an empty body.
pub open spec fn folded_body(value: Seq<char>, depth: nat, indent: Indent, wrap_at: nat) -> Seq<
    char,
> {
    folded_lines(lines_of(value), indent.levels(depth + 1), wrap_at as int)
}

/// The folded block of `value`: the header `>` and the body.
pub open spec fn folded(
    value: Seq<char>,
    depth: nat,
    chomp: Chomp,
    indent: Indent,
    wrap_at: nat,
) -> Seq<char> {
    block_header('>', chomp) + folded_body(value, depth, indent, wrap_at)
}

/// An indent holds blanks only.
pub proof fn lemma_indent_is_blank(indent: Indent, levels: nat)
    ensures
        forall|i: int|
            0 <= i < indent.levels(levels).len() ==> is_blank(#[trigger] indent.levels(levels)[i]),
{
    match indent {
        Indent::Space(count) => {
            lemma_repeated_blank(seq![' '], count as nat);
        },
        Indent::Tab => {},
    }
    lemma_repeated_blank(indent.unit(), levels);
}

/// A text of blanks, written any number of times, holds blanks only.
pub proof fn lemma_repeated_blank(unit: Seq<char>, n: nat)
    requires
        forall|i: int| 0 <= i < unit.len() ==> is_blank(#[trigger] unit[i]),
    ensures
        forall|i: int|
            0 <= i < repeated(unit, n).len() ==> is_blank(#[trigger] repeated(unit, n)[i]),
    decreases n,
{
    if n > 0 {
        let head = repeated(unit, (n - 1) as nat);
        lemma_repeated_blank(unit, (n - 1) as nat);
        assert forall|i: int| 0 <= i < (head + unit).len() implies is_blank(
            #[trigger] (head + unit)[i],
        ) by {
            if i < head.len() {
                assert((head + unit)[i] == head[i]);
            } else {
                assert((head + unit)[i] == unit[i - head.len()]);
            }
        }
    }
}

/// `line_length` is the length, in bytes, of the last line of the words
/// laid out after the indent; and that line stays below `wrap_at` bytes
/// unless it holds one word alone.
pub proof fn lemma_line_length(words: Seq<Seq<char>>, pad: Seq<char>, wrap_at: int)
    requires
        forall|k: int| 0 <= k < words.len() ==> is_word(#[trigger] words[k]),
        forall|i: int| 0 <= i < pad.len() ==> is_blank(#[trigger] pad[i]),
    ensures
        byte_len(lines_of(pad + laid_out(words, pad, wrap_at)).last()) == line_length(
            words,
            pad,
            wrap_at,
        ),
        words.len() > 0 ==> line_length(words, pad, wrap_at) < wrap_at || lines_of(
            pad + laid_out(words, pad, wrap_at),
        ).last() == pad + words.last(),
    decreases words.len(),
{
    let none = Seq::<char>::empty();
    assert(lines_of(none).last() == none);
    assert forall|i: int| 0 <= i < pad.len() implies #[trigger] pad[i] != '\n' by {
        assert(is_blank(pad[i]));
    }
    if words.len() == 0 {
        lemma_lines_append(none, pad);
        assert(none + pad == pad);
        assert(pad + none == pad);
    } else {
        let before = words.drop_last();
        let word = words.last();
        assert(is_word(words[words.len() - 1]));
        let tail = pad + word;
        assert forall|i: int| 0 <= i < tail.len() implies #[trigger] tail[i] != '\n' by {
            if i < pad.len() {
                assert(tail[i] == pad[i]);
            } else {
                assert(tail[i] == word[i - pad.len()]);
                assert(!is_gap(word[i - pad.len()]));
            }
        }
        lemma_byte_len_add(pad, word);
        if before.len() == 0 {
            lemma_lines_append(none, tail);
            assert(none + tail == tail);
        } else {
            assert forall|k: int| 0 <= k < before.len() implies is_word(#[trigger] before[k]) by {
                assert(before[k] == words[k]);
            }
            lemma_line_length(before, pad, wrap_at);
            let head = pad + laid_out(before, pad, wrap_at);
            if folds_at(line_length(before, pad, wrap_at), word, wrap_at) {
                let broken = head.push('\n');
                assert(lines_of(broken).last() == none) by {
                    assert(broken.drop_last() == head);
                }
                lemma_lines_append(broken, tail);
                assert(pad + laid_out(words, pad, wrap_at) =~= broken + tail);
                assert(none + tail == tail);
            } else {
                let more = seq![' '] + word;
                assert forall|i: int| 0 <= i < more.len() implies #[trigger] more[i] != '\n' by {
                    if i > 0 {
                        assert(more[i] == word[i - 1]);
                        assert(!is_gap(word[i - 1]));
                    }
                }
                lemma_lines_append(head, more);
                assert(pad + laid_out(words, pad, wrap_at) =~= head + more);
                lemma_byte_len_add(lines_of(head).last(), more);
                lemma_byte_len_add(seq![' '], word);
                lemma_byte_len_one(' ');
                assert(char_width(' ') == 1);
            }
        }
    }
}

/// The words of a laid-out line are the words that were laid out.
pub proof fn lemma_laid_out_words(words: Seq<Seq<char>>, pad: Seq<char>, wrap_at: int)
    requires
        forall|k: int| 0 <= k < words.len() ==> is_word(#[trigger] words[k]),
        forall|i: int| 0 <= i < pad.len() ==> is_blank(#[trigger] pad[i]),
    ensures
        words_of(laid_out(words, pad, wrap_at)) == words,
    decreases words.len(),
{
    if words.len() == 0 {
        assert(words =~= Seq::<Seq<char>>::empty());
    } else {
        let before = words.drop_last();
        let word = words.last();
        assert(is_word(words[words.len() - 1]));
        lemma_words_of_word(word);
        if before.len() == 0 {
            assert(words =~= seq![word]);
        } else {
            assert forall|k: int| 0 <= k < before.len() implies is_word(#[trigger] before[k]) by {
                assert(before[k] == words[k]);
            }
            lemma_laid_out_words(before, pad, wrap_at);
            let head = laid_out(before, pad, wrap_at);
            let gap = if folds_at(line_length(before, pad, wrap_at), word, wrap_at) {
                seq!['\n'] + pad
            } else {
                seq![' ']
            };
            assert forall|i: int| 0 <= i < gap.len() implies is_gap(#[trigger] gap[i]) by {
                if folds_at(line_length(before, pad, wrap_at), word, wrap_at) && i > 0 {
                    assert(gap[i] == pad[i - 1]);
                    assert(is_blank(pad[i - 1]));
                }
            }
            assert(is_gap(gap[0]));
            assert(is_gap(gap[gap.len() - 1]));
            lemma_words_of_gaps(gap);
            lemma_words_add(head, gap);
            assert((head + gap).last() == gap[gap.len() - 1]);
            lemma_words_add(head + gap, word);
            assert(laid_out(words, pad, wrap_at) =~= head + gap + word);
            assert(words_of(head + gap + word) =~= before.push(word));
            assert(before.push(word) =~= words);
        }
    }
}

/// The words of the folded lines are the words of the lines.
pub proof fn lemma_folded_lines_words(lines: Seq<Seq<char>>, pad: Seq<char>, wrap_at: int)
    requires
        forall|i: int| 0 <= i < pad.len() ==> is_blank(#[trigger] pad[i]),
    ensures
        words_of(folded_lines(lines, pad, wrap_at)) == all_words(lines),
    decreases lines.len(),
{
    if lines.len() == 0 {
    } else {
        let line = lines.last();
        let text = laid_out(words_of(line), pad, wrap_at);
        lemma_words_are_words(line);
        lemma_laid_out_words(words_of(line), pad, wrap_at);
        assert forall|i: int| 0 <= i < pad.len() implies is_gap(#[trigger] pad[i]) by {
            assert(is_blank(pad[i]));
        }
        lemma_words_of_gaps(pad);
        if lines.len() == 1 {
            assert(all_words(lines.drop_last()) == Seq::<Seq<char>>::empty());
            assert(all_words(lines) =~= words_of(line));
            if words_of(line).len() > 0 {
                if pad.len() > 0 {
                    assert(is_gap(pad[pad.len() - 1]));
                }
                lemma_words_add(pad, text);
                assert(words_of(pad + text) =~= words_of(line));
            }
        } else {
            let head = folded_lines(lines.drop_last(), pad, wrap_at);
            let gap = seq!['\n'] + pad;
            lemma_folded_lines_words(lines.drop_last(), pad, wrap_at);
            assert forall|i: int| 0 <= i < gap.len() implies is_gap(#[trigger] gap[i]) by {
                if i > 0 {
                    assert(gap[i] == pad[i - 1]);
                    assert(is_blank(pad[i - 1]));
                }
            }
            assert(is_gap(gap[0]));
            assert(is_gap(gap[gap.len() - 1]));
            lemma_words_of_gaps(gap);
            lemma_words_add(head, gap);
            assert((head + gap).last() == gap[gap.len() - 1]);
            lemma_words_add(head + gap, text);
            assert(folded_lines(lines, pad, wrap_at) =~= head + gap + text);
            assert(words_of(folded_lines(lines, pad, wrap_at)) =~= all_words(lines));
        }
    }
}

/// Folding keeps the words: the body of the folded block holds every word
/// of the value, whole and in order, and no other word. A word is a longest
/// run of characters that are neither blanks nor line breaks, so none is
/// lost, none is split across two lines, and none is joined to another.
pub proof fn lemma_fold_keeps_words(value: Seq<char>, depth: nat, indent: Indent, wrap_at: nat)
    ensures
        words_of(folded_body(value, depth, indent, wrap_at)) == words_of(value),
{
    let pad = indent.levels(depth + 1);
    lemma_indent_is_blank(indent, depth + 1);
    lemma_folded_lines_words(lines_of(value), pad, wrap_at as int);
    lemma_words_of_joined(lines_of(value));
    lemma_lines_joined(value);
}

/// The literal block of `value`: the header `|` and the string as it is.
pub open spec fn literal(value: Seq<char>, chomp: Chomp) -> Seq<char> {
    block_header('|', chomp) + value
}

/// The style chosen for a string: literal where it holds a line break,
/// double-quoted where it holds none.
pub open spec fn guessed(value: Seq<char>) -> Style {
    if value.contains('\n') {
        Style::Literal(Chomp::Clip)
    } else {
        Style::Double
    }
}

/// The characters of a block header.
fn header_chars(sign: char, chomp: &Chomp) -> (out: Vec<char>)
    ensures
        out@ == block_header(sign, *chomp),
{
    let mut out: Vec<char> = Vec::new();
    out.push(' ');
    out.push(sign);
    match chomp {
        Chomp::Clip => {},
        Chomp::Strip => {
            out.push('-');
        },
        Chomp::Keep => {
            out.push('+');
        },
    }
    out.push('\n');
    assert(out@ =~= block_header(sign, *chomp));
    out
}

/// Lays out the words of one line of the value after the indent.
pub fn lay_out(words: &Vec<Vec<char>>, pad: &Vec<char>, wrap_at: usize) -> (out: Vec<char>)
    ensures
        out@ == laid_out(texts(words@), pad@, wrap_at as int),
{
    let mut out: Vec<char> = Vec::new();
    let pad_len: u128 = byte_length(pad);
    let limit: u128 = wrap_at as u128;
    let mut line_len: u128 = pad_len;
    let mut k: usize = 0;
    assert(texts(words@).take(0) =~= Seq::<Seq<char>>::empty());
    while k < words.len()
        invariant
            k <= words.len(),
            pad_len == byte_len(pad@),
            pad_len <= 4 * pad.len(),
            limit == wrap_at,
            out@ == laid_out(texts(words@).take(k as int), pad@, wrap_at as int),
            line_len == line_length(texts(words@).take(k as int), pad@, wrap_at as int),
            line_len <= 4 * pad.len() + 4 * out.len(),
        decreases words.len() - k,
    {
        let word: &Vec<char> = &words[k];
        let word_len: u128 = byte_length(word);
        proof {
            let now = texts(words@).take(k + 1);
            assert(now.drop_last() =~= texts(words@).take(k as int));
            assert(now.last() == word@);
            assert(out@.len() == out.len() && word@.len() == word.len() && pad@.len() == pad.len());
        }
        if k == 0 {
            push_all(&mut out, word);
            line_len = pad_len + word_len;
        } else if line_len + 1 + word_len >= limit {
            out.push('\n');
            push_all(&mut out, pad);
            push_all(&mut out, word);
            line_len = pad_len + word_len;
        } else {
            out.push(' ');
            push_all(&mut out, word);
            line_len = line_len + 1 + word_len;
        }
        k = k + 1;
    }
    assert(texts(words@).take(words.len() as int) =~= texts(words@));
    out
}

impl Style {
    /// Folds `value` into a block of style `>`: after the header, the lines
    /// of the value, indented by `depth + 1` levels, with the words of each
    /// line a space apart and the line broken before a word with which it
    /// would reach `wrap_at` bytes. Every word of the value is written,
    /// whole and in order. The empty value gives the header alone.
    pub fn fold_string(
        value: String,
        depth: usize,
        chomp: &Chomp,
        indent: &Indent,
        wrap_at: usize,
    ) -> (r: Result<String, FormatError>)
        ensures
            r matches Ok(text) && text@ == folded(
                value@,
                depth as nat,
                *chomp,
                *indent,
                wrap_at as nat,
            ),
            words_of(folded_body(value@, depth as nat, *indent, wrap_at as nat)) == words_of(value@),
    {
        let unit: Vec<char> = indent.unit_chars();
        let mut pad: Vec<char> = repeat(&unit, depth);
        push_all(&mut pad, &unit);
        let chars: Vec<char> = chars_of(value.as_str());
        let lines: Vec<Vec<char>> = split_lines(&chars);
        let mut body: Vec<char> = Vec::new();
        let mut i: usize = 0;
        assert(texts(lines@).take(0) =~= Seq::<Seq<char>>::empty());
        while i < lines.len()
            invariant
                i <= lines.len(),
                body@ == folded_lines(texts(lines@).take(i as int), pad@, wrap_at as int),
            decreases lines.len() - i,
        {
            let words: Vec<Vec<char>> = split_words(&lines[i]);
            let text: Vec<char> = lay_out(&words, &pad, wrap_at);
            proof {
                let now = texts(lines@).take(i + 1);
                assert(now.drop_last() =~= texts(lines@).take(i as int));
                assert(now.last() == lines@[i as int]@);
                if i == 0 {
                    assert(now[0] == now.last());
                }
            }
            if i > 0 {
                body.push('\n');
                push_all(&mut body, &pad);
                push_all(&mut body, &text);
            } else if words.len() > 0 {
                push_all(&mut body, &pad);
                push_all(&mut body, &text);
            }
            i = i + 1;
        }
        let mut out: Vec<char> = header_chars('>', chomp);
        push_all(&mut out, &body);
        proof {
            assert(texts(lines@).take(lines.len() as int) =~= texts(lines@));
            lemma_fold_keeps_words(value@, depth as nat, *indent, wrap_at as nat);
        }
        Ok(string_of(&out))
    }

    /// Writes `value` as a block of style `|`: the header, then the string
    /// with its line breaks as they are. Nothing is wrapped.
    pub fn literal_string(
        value: String,
        depth: usize,
        chomp: &Chomp,
        indent: &Indent,
        wrap_at: usize,
    ) -> (r: Result<String, FormatError>)
        ensures
            r matches Ok(text) && text@ == literal(value@, *chomp),
    {
        let mut out: Vec<char> = header_chars('|', chomp);
        let chars: Vec<char> = chars_of(value.as_str());
        push_all(&mut out, &chars);
        Ok(string_of(&out))
    }

    /// The style for a string when none was chosen: literal where it holds a
    /// line break, double-quoted where it holds none.
    pub fn guess_style(value: &str) -> (style: Style)
        ensures
            style == guessed(value@),
    {
        if has_line_break(value) {
            Style::Literal(Chomp::Clip)
        } else {
            Style::Double
        }
    }
}

/// The kind of item that was written.
#[derive(Debug, Clone, Copy, PartialEq, Eq, Structural)]
pub enum ItemType {
    /// A scalar.
    Scalar,
    /// An item that starts with `-`.
    _SequenceItem,
    /// The key of a mapping pair.
    _MappingKey,
    /// The value of a mapping pair.
    _MappingValue,
}

/// What the formatter wrote last.
#[derive(Debug)]
pub enum LastWriteItem {
    /// Nothing has been written yet.
    Nothing,
    /// A line break, with what stood before it.
    _NewLine(Box<LastWriteItem>),
    /// An item in flow style.
    Flow(ItemType),
    /// An item in block style.
    Block(ItemType),
    /// The end of a document.
    _EndDocument,
    /// The question mark that announces a key.
    _Question,
    /// The colon that stands before a mapping value.
    _Colon,
}

impl Default for LastWriteItem {
    fn default() -> (item: LastWriteItem)
        ensures
            item == LastWriteItem::Nothing,
    {
        LastWriteItem::Nothing
    }
}

/// The options by which a value is turned into text.
#[derive(Debug)]
pub struct YamlFormatter {
    /// The depth of the last item written, and what it was.
    pub last_write: (u8, LastWriteItem),
    /// One level of indentation.
    pub indent: Indent,
    /// How strings are written.
    pub multiline_style: Style,
    /// Whether the formatter writes into a stream.
    pub _is_stream: bool,
    /// Whether the end of the document is written after a value at depth 0.
    pub finalize_document: bool,
    /// Whether a line break is added at the end.
    pub _trailing_newline: bool,
    /// The width at which strings are folded; 120 where none is given.
    pub wrap_at: Option<usize>,
}

impl Default for YamlFormatter {
    fn default() -> (f: YamlFormatter)
        ensures
            f == (YamlFormatter {
                last_write: (0, LastWriteItem::Nothing),
                indent: Indent::Space(2),
                multiline_style: Style::Guess,
                _is_stream: false,
                finalize_document: false,
                _trailing_newline: false,
                wrap_at: None,
            }),
    {
        YamlFormatter {
            last_write: (0, LastWriteItem::Nothing),
            indent: Indent::Space(2),
            multiline_style: Style::Guess,
            _is_stream: false,
            finalize_document: false,
            _trailing_newline: false,
            wrap_at: None,
        }
    }
}

/// The depth that an optional indent stands for.
pub open spec fn depth_of(indent: Option<u8>) -> nat {
    match indent {
        Some(depth) => depth as nat,
        None => 0,
    }
}

/// What is recorded as written after a value of the given shape.
pub open spec fn written(value: Tree) -> LastWriteItem {
    if value is Text {
        LastWriteItem::Block(ItemType::Scalar)
    } else {
        LastWriteItem::Flow(ItemType::Scalar)
    }
}

impl YamlFormatter {
    /// The width at which strings are folded.
    pub open spec fn wrap_width(&self) -> nat {
        match self.wrap_at {
            Some(width) => width as nat,
            None => 120,
        }
    }

    /// The style in which the string `s` is written.
    pub open spec fn style_for(&self, s: Seq<char>) -> Style {
        if self.multiline_style is Guess {
            guessed(s)
        } else {
            self.multiline_style
        }
    }

    /// The text of the string `s` at `depth`: a folded or a literal block.
    /// The other styles are not formatted.
    pub open spec fn string_text(&self, s: Seq<char>, depth: nat) -> Result<Seq<char>, FormatError> {
        match self.style_for(s) {
            Style::Folded(chomp) => Ok(folded(s, depth, chomp, self.indent, self.wrap_width())),
            Style::Literal(chomp) => Ok(literal(s, chomp)),
            _ => Err(FormatError::UnsupportedStyle),
        }
    }

    /// The text of a scalar at `depth`: nothing for the null value, the
    /// renderer's text for a boolean or a number, a block for a string.
    pub open spec fn scalar_text(&self, value: Tree, depth: nat) -> Result<Seq<char>, FormatError> {
        match value {
            Tree::Null => Ok(Seq::empty()),
            Tree::Bool(_) | Tree::Number(_) => Ok(rendering(value)),
            Tree::Text(s) => self.string_text(s, depth),
            _ => Err(FormatError::UnsupportedValue),
        }
    }

    /// The text of a value at the given indent: the indent, the scalar, and
    /// the end of the document where that was asked for and the depth is 0.
    pub open spec fn stringified(&self, value: Tree, indent: Option<u8>) -> Result<
        Seq<char>,
        FormatError,
    > {
        let depth = depth_of(indent);
        match self.scalar_text(value, depth) {
            Err(e) => Err(e),
            Ok(body) => Ok(
                self.indent.levels(depth) + body + (if depth == 0 && self.finalize_document {
                    "...\n"@
                } else {
                    Seq::empty()
                }),
            ),
        }
    }

    /// Sets the indent.
    pub fn set_indent(&mut self, indent: Indent)
        ensures
            *final(self) == (YamlFormatter { indent, ..*old(self) }),
    {
        self.indent = indent;
    }

    /// Sets the style in which strings are written.
    pub fn set_style(&mut self, style: Style)
        ensures
            *final(self) == (YamlFormatter { multiline_style: style, ..*old(self) }),
    {
        self.multiline_style = style;
    }

    /// Turns a scalar into text at the given indent and records what was
    /// written. Sequences and mappings are refused, and so is a string in a
    /// flow style; on any error the formatter is left as it was.
    pub fn stringify(&mut self, value: YmlValue, indent: Option<u8>) -> (r: Result<
        String,
        FormatError,
    >)
        ensures
            match r {
                Ok(text) => {
                    &&& old(self).stringified(value@, indent) == Ok::<Seq<char>, FormatError>(text@)
                    &&& *final(self) == (YamlFormatter {
                        last_write: (depth_of(indent) as u8, written(value@)),
                        ..*old(self)
                    })
                },
                Err(e) => {
                    &&& old(self).stringified(value@, indent) == Err::<Seq<char>, FormatError>(e)
                    &&& *final(self) == *old(self)
                },
            },
    {
        let depth: u8 = match indent {
            Some(depth) => depth,
            None => 0,
        };
        let mut result: Vec<char> = repeat(&self.indent.unit_chars(), depth as usize);
        let item = match value {
            YmlValue::String(_) => LastWriteItem::Block(ItemType::Scalar),
            _ => LastWriteItem::Flow(ItemType::Scalar),
        };
        let body: String = match value {
            YmlValue::Null => String::new(),
            YmlValue::Bool(_) | YmlValue::Number(_) | YmlValue::Unsigned(_) => {
                render(&value)
            },
            YmlValue::String(s) => {
                match self.stringify_string(s, depth as usize) {
                    Ok(text) => text,
                    Err(e) => {
                        return Err(e);
                    },
                }
            },
            _ => {
                return Err(FormatError::UnsupportedValue);
            },
        };
        self.last_write = (depth, item);
        push_all(&mut result, &chars_of(body.as_str()));
        if depth == 0 && self.finalize_document {
            push_all(&mut result, &chars_of("...\n"));
        }
        Ok(string_of(&result))
    }

    /// Writes a string as a block in the style that was set, or guessed.
    fn stringify_string(&self, value: String, depth: usize) -> (r: Result<String, FormatError>)
        ensures
            match r {
                Ok(text) => self.string_text(value@, depth as nat) == Ok::<Seq<char>, FormatError>(
                    text@,
                ),
                Err(e) => self.string_text(value@, depth as nat) == Err::<Seq<char>, FormatError>(e),
            },
    {
        let style = match self.multiline_style {
            Style::Guess => Style::guess_style(value.as_str()),
            other => other,
        };
        let wrap_at: usize = match self.wrap_at {
            Some(width) => width,
            None => 120,
        };
        match style {
            Style::Folded(chomp) => Style::fold_string(value, depth, &chomp, &self.indent, wrap_at),
            Style::Literal(chomp) => Style::literal_string(
                value,
                depth,
                &chomp,
                &self.indent,
                wrap_at,
            ),
            _ => Err(FormatError::UnsupportedStyle),
        }
    }
}

} // verus!
