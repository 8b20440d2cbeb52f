//! Character-sequence helpers shared by the formatter and the tracker.
//!
//! Text is modelled as `Seq<char>`. The executable functions work on
//! `Vec<char>`, with conversions from and to `String` at the edges.

use vstd::prelude::*;

verus! {

/// `String::push` appends exactly the given character to the end of the
/// string and leaves the rest of it as it was.
pub assume_specification[ std::string::String::push ](s: &mut std::string::String, c: char)
    ensures
        final(s)@ == old(s)@.push(c),
;

/// The characters of `s`, in order.
pub fn chars_of(s: &str) -> (out: Vec<char>)
    ensures
        out@ == s@,
{
    let mut out: Vec<char> = Vec::new();
    for c in it: s.chars()
        invariant
            out@ == it.seq().take(it.index() as int),
            it.seq() == s@,
    {
        out.push(c);
    }
    out
}

/// A string holding exactly the characters of `v`.
pub fn string_of(v: &Vec<char>) -> (out: String)
    ensures
        out@ == v@,
{
    let mut out = String::new();
    let mut i: usize = 0;
    while i < v.len()
        invariant
            i <= v.len(),
            out@ == v@.take(i as int),
        decreases v.len() - i,
    {
        out.push(v[i]);
        i = i + 1;
    }
    out
}

/// Appends the characters of `more` to `out`.
pub fn push_all(out: &mut Vec<char>, more: &Vec<char>)
    ensures
        final(out)@ == old(out)@ + more@,
{
    let mut i: usize = 0;
    while i < more.len()
        invariant
            i <= more.len(),
            out@ == old(out)@ + more@.take(i as int),
        decreases more.len() - i,
    {
        out.push(more[i]);
        i = i + 1;
    }
}

/// The characters of `v` from position `from` up to, not including, `to`.
pub fn sub_chars(v: &Vec<char>, from: usize, to: usize) -> (out: Vec<char>)
    requires
        from <= to <= v.len(),
    ensures
        out@ == v@.subrange(from as int, to as int),
{
    let mut out: Vec<char> = Vec::new();
    let mut i: usize = from;
    while i < to
        invariant
            from <= i <= to,
            to <= v.len(),
            out@ == v@.subrange(from as int, i as int),
        decreases to - i,
    {
        out.push(v[i]);
        i = i + 1;
    }
    out
}

/// Whether `s` holds a line break.
pub fn has_line_break(s: &str) -> (found: bool)
    ensures
        found == s@.contains('\n'),
{
    let mut found = false;
    for c in it: s.chars()
        invariant
            it.seq() == s@,
            found == it.seq().take(it.index() as int).contains('\n'),
    {
        proof {
            let before = it.seq().take(it.index() as int);
            let after = it.seq().take(it.index() + 1);
            assert(after == before.push(c));
            if before.contains('\n') {
                let k = choose|k: int| 0 <= k < before.len() && before[k] == '\n';
                assert(after[k] == '\n');
            }
            if c == '\n' {
                assert(after[after.len() - 1] == '\n');
            }
        }
        if c == '\n' {
            found = true;
        }
    }
    assert(s@.take(s@.len() as int) == s@);
    found
}

/// The white-space characters: the code points that Unicode marks as
/// `White_Space`.
pub open spec fn is_space(c: char) -> bool {
    let n = c as u32;
    ||| 0x09 <= n <= 0x0d
    ||| n == 0x20
    ||| n == 0x85
    ||| n == 0xa0
    ||| n == 0x1680
    ||| 0x2000 <= n <= 0x200a
    ||| n == 0x2028
    ||| n == 0x2029
    ||| n == 0x202f
    ||| n == 0x205f
    ||| n == 0x3000
}

/// Whether `c` is white space.
pub fn char_is_space(c: char) -> (b: bool)
    ensures
        b == is_space(c),
{
    let n: u32 = c as u32;
    (0x09 <= n && n <= 0x0d) || n == 0x20 || n == 0x85 || n == 0xa0 || n == 0x1680 || (0x2000 <= n
        && n <= 0x200a) || n == 0x2028 || n == 0x2029 || n == 0x202f || n == 0x205f || n == 0x3000
}

/// The texts held by the vectors in `v`, in order.
pub open spec fn texts(v: Seq<Vec<char>>) -> Seq<Seq<char>> {
    Seq::new(v.len(), |i: int| v[i]@)
}

/// The lines of `s`: what stands before, between and after its line
/// breaks, in order. A text without a line break is one line, and so is the
/// empty text.
pub open spec fn lines_of(s: Seq<char>) -> Seq<Seq<char>>
    decreases s.len(),
{
    if s.len() == 0 {
        seq![Seq::empty()]
    } else {
        let before = lines_of(s.drop_last());
        if s.last() == '\n' {
            before.push(Seq::empty())
        } else {
            before.drop_last().push(before.last().push(s.last()))
        }
    }
}

/// The lines written one after the other with a line break between each
/// two of them.
pub open spec fn joined(lines: Seq<Seq<char>>) -> Seq<char>
    decreases lines.len(),
{
    if lines.len() == 0 {
        Seq::empty()
    } else if lines.len() == 1 {
        lines[0]
    } else {
        joined(lines.drop_last()) + seq!['\n'] + lines.last()
    }
}

/// A text is its lines with the line breaks between them.
pub proof fn lemma_lines_joined(s: Seq<char>)
    ensures
        lines_of(s).len() >= 1,
        joined(lines_of(s)) == s,
    decreases s.len(),
{
    if s.len() > 0 {
        let head = s.drop_last();
        let before = lines_of(head);
        lemma_lines_joined(head);
        let now = lines_of(s);
        if s.last() == '\n' {
            assert(now.drop_last() == before);
            assert(joined(now) == joined(before) + seq!['\n'] + Seq::<char>::empty());
            assert(joined(now) == s);
        } else {
            let line = before.last().push(s.last());
            if before.len() == 1 {
                assert(now =~= seq![line]);
                assert(joined(before) == before[0]);
                assert(joined(now) == s);
            } else {
                assert(now.drop_last() == before.drop_last());
                assert(now.last() == line);
                assert(joined(before) == joined(before.drop_last()) + seq!['\n'] + before.last());
                assert(joined(now) == joined(before.drop_last()) + seq!['\n'] + line);
                assert(joined(now) == joined(before).push(s.last()));
                assert(joined(now) == s);
            }
        }
    } else {
        assert(joined(lines_of(s)) == s);
    }
}

/// What is written after a text without a line break in it goes on the
/// last line of the text.
pub proof fn lemma_lines_append(a: Seq<char>, b: Seq<char>)
    requires
        forall|i: int| 0 <= i < b.len() ==> #[trigger] b[i] != '\n',
    ensures
        lines_of(a + b).last() == lines_of(a).last() + b,
    decreases b.len(),
{
    if b.len() == 0 {
        assert(a + b == a);
        assert(lines_of(a).last() + b == lines_of(a).last());
    } else {
        let head = b.drop_last();
        assert forall|i: int| 0 <= i < head.len() implies #[trigger] head[i] != '\n' by {
            assert(head[i] == b[i]);
        }
        lemma_lines_append(a, head);
        assert((a + b).drop_last() == a + head);
        assert((a + b).last() == b[b.len() - 1]);
        assert((lines_of(a).last() + head).push(b.last()) == lines_of(a).last() + b);
    }
}

/// The blanks: the space and the tab.
pub open spec fn is_blank(c: char) -> bool {
    c == ' ' || c == '\t'
}

/// The characters that stand between words: the blanks and the line break.
pub open spec fn is_gap(c: char) -> bool {
    is_blank(c) || c == '\n'
}

/// A word: one character or more, none of which stands between words.
pub open spec fn is_word(w: Seq<char>) -> bool {
    w.len() > 0 && forall|i: int| 0 <= i < w.len() ==> !is_gap(#[trigger] w[i])
}

/// The words of `s`, in order: the longest runs of characters that are
/// neither blanks nor line breaks.
pub open spec fn words_of(s: Seq<char>) -> Seq<Seq<char>>
    decreases s.len(),
{
    if s.len() == 0 {
        Seq::empty()
    } else {
        let before = words_of(s.drop_last());
        if is_gap(s.last()) {
            before
        } else if s.len() >= 2 && !is_gap(s[s.len() - 2]) {
            before.drop_last().push(before.last().push(s.last()))
        } else {
            before.push(seq![s.last()])
        }
    }
}

/// A text that ends in a character of a word holds a word.
pub proof fn lemma_words_open(s: Seq<char>)
    requires
        s.len() > 0,
        !is_gap(s.last()),
    ensures
        words_of(s).len() > 0,
    decreases s.len(),
{
    if s.len() >= 2 && !is_gap(s[s.len() - 2]) {
        assert(s.drop_last().last() == s[s.len() - 2]);
        lemma_words_open(s.drop_last());
    }
}

/// Each of the words of a text is a word.
pub proof fn lemma_words_are_words(s: Seq<char>)
    ensures
        forall|k: int| 0 <= k < words_of(s).len() ==> is_word(#[trigger] words_of(s)[k]),
    decreases s.len(),
{
    if s.len() > 0 {
        let head = s.drop_last();
        let before = words_of(head);
        lemma_words_are_words(head);
        if is_gap(s.last()) {
        } else if s.len() >= 2 && !is_gap(s[s.len() - 2]) {
            assert(head.last() == s[s.len() - 2]);
            lemma_words_open(head);
            let grown = before.last().push(s.last());
            assert(is_word(before.last()));
            assert forall|i: int| 0 <= i < grown.len() implies !is_gap(#[trigger] grown[i]) by {
                if i < before.last().len() {
                    assert(grown[i] == before.last()[i]);
                }
            }
            assert forall|k: int| 0 <= k < words_of(s).len() implies is_word(
                #[trigger] words_of(s)[k],
            ) by {
                if k < before.len() - 1 {
                    assert(words_of(s)[k] == before[k]);
                }
            }
        } else {
            let fresh = seq![s.last()];
            assert(is_word(fresh));
            assert forall|k: int| 0 <= k < words_of(s).len() implies is_word(
                #[trigger] words_of(s)[k],
            ) by {
                if k < before.len() {
                    assert(words_of(s)[k] == before[k]);
                }
            }
        }
    }
}

/// A text of blanks and line breaks holds no word.
pub proof fn lemma_words_of_gaps(s: Seq<char>)
    requires
        forall|i: int| 0 <= i < s.len() ==> is_gap(#[trigger] s[i]),
    ensures
        words_of(s) == Seq::<Seq<char>>::empty(),
    decreases s.len(),
{
    if s.len() > 0 {
        assert(is_gap(s[s.len() - 1]));
        assert forall|i: int| 0 <= i < s.drop_last().len() implies is_gap(
            #[trigger] s.drop_last()[i],
        ) by {
            assert(s.drop_last()[i] == s[i]);
        }
        lemma_words_of_gaps(s.drop_last());
    }
}

/// A word is the one word of itself.
pub proof fn lemma_words_of_word(w: Seq<char>)
    requires
        is_word(w),
    ensures
        words_of(w) == seq![w],
    decreases w.len(),
{
    let head = w.drop_last();
    assert(!is_gap(w[w.len() - 1]));
    if head.len() == 0 {
        assert(words_of(head) == Seq::<Seq<char>>::empty());
        assert(seq![w.last()] == w);
        assert(words_of(w) =~= seq![w]);
    } else {
        assert forall|i: int| 0 <= i < head.len() implies !is_gap(#[trigger] head[i]) by {
            assert(head[i] == w[i]);
        }
        lemma_words_of_word(head);
        assert(!is_gap(w[w.len() - 2]));
        assert(head.push(w.last()) == w);
        assert(words_of(w) =~= seq![w]);
    }
}

/// Where one text ends, or the other begins, between words, the words of
/// the two texts written together are the words of the one and then those
/// of the other.
pub proof fn lemma_words_add(a: Seq<char>, b: Seq<char>)
    requires
        a.len() == 0 || is_gap(a.last()) || b.len() == 0 || is_gap(b[0]),
    ensures
        words_of(a + b) == words_of(a) + words_of(b),
    decreases b.len(),
{
    let wa = words_of(a);
    if b.len() == 0 {
        assert(a + b == a);
        assert(wa + words_of(b) == wa);
    } else {
        let head = b.drop_last();
        let c = b.last();
        let s = a + b;
        let wh = words_of(head);
        assert(s.drop_last() == a + head);
        assert(s.last() == c);
        if head.len() > 0 {
            assert(head[0] == b[0]);
        }
        lemma_words_add(a, head);
        if is_gap(c) {
        } else if head.len() == 0 {
            if a.len() > 0 {
                assert(s[s.len() - 2] == a.last());
            }
            assert(wh == Seq::<Seq<char>>::empty());
            assert(words_of(s) =~= wa + words_of(b));
        } else {
            assert(s[s.len() - 2] == head.last());
            assert(b[b.len() - 2] == head.last());
            if !is_gap(head.last()) {
                lemma_words_open(head);
                assert((wa + wh).drop_last() =~= wa + wh.drop_last());
                assert((wa + wh).last() == wh.last());
                assert(words_of(s) =~= wa + words_of(b));
            } else {
                assert(words_of(s) =~= wa + words_of(b));
            }
        }
    }
}

/// The words of all the lines, in order.
pub open spec fn all_words(lines: Seq<Seq<char>>) -> Seq<Seq<char>>
    decreases lines.len(),
{
    if lines.len() == 0 {
        Seq::empty()
    } else {
        all_words(lines.drop_last()) + words_of(lines.last())
    }
}

/// The words of lines that are written with line breaks between them are
/// the words of the lines.
pub proof fn lemma_words_of_joined(lines: Seq<Seq<char>>)
    ensures
        words_of(joined(lines)) == all_words(lines),
    decreases lines.len(),
{
    if lines.len() == 0 {
    } else if lines.len() == 1 {
        assert(all_words(lines.drop_last()) == Seq::<Seq<char>>::empty());
        assert(all_words(lines) =~= words_of(lines[0]));
    } else {
        let head = lines.drop_last();
        let brk = seq!['\n'];
        lemma_words_of_joined(head);
        assert(is_gap(brk[0]));
        lemma_words_of_gaps(brk);
        lemma_words_add(joined(head), brk);
        assert((joined(head) + brk).last() == '\n');
        lemma_words_add(joined(head) + brk, lines.last());
        assert(words_of(joined(lines)) =~= all_words(lines));
    }
}

/// The lines of `v`.
pub fn split_lines(v: &Vec<char>) -> (out: Vec<Vec<char>>)
    ensures
        texts(out@) == lines_of(v@),
{
    let mut out: Vec<Vec<char>> = Vec::new();
    let mut line: Vec<char> = Vec::new();
    let mut i: usize = 0;
    assert(texts(out@).push(line@) =~= lines_of(v@.take(0)));
    while i < v.len()
        invariant
            i <= v.len(),
            texts(out@).push(line@) == lines_of(v@.take(i as int)),
        decreases v.len() - i,
    {
        let c = v[i];
        let ghost before = lines_of(v@.take(i as int));
        proof {
            assert(v@.take(i + 1).drop_last() == v@.take(i as int));
            assert(v@.take(i + 1).last() == c);
            assert(before.last() == line@);
            assert(before.drop_last() =~= texts(out@));
        }
        if c == '\n' {
            let ghost done = texts(out@);
            out.push(line);
            line = Vec::new();
            assert(texts(out@) =~= before);
        } else {
            line.push(c);
        }
        assert(texts(out@).push(line@) =~= lines_of(v@.take(i + 1)));
        i = i + 1;
    }
    let ghost all = texts(out@).push(line@);
    out.push(line);
    assert(v@.take(v.len() as int) == v@);
    assert(texts(out@) =~= all);
    out
}

/// The words of `v`.
pub fn split_words(v: &Vec<char>) -> (out: Vec<Vec<char>>)
    ensures
        texts(out@) == words_of(v@),
{
    let mut out: Vec<Vec<char>> = Vec::new();
    let mut word: Vec<char> = Vec::new();
    let mut i: usize = 0;
    assert(texts(out@) =~= words_of(v@.take(0)));
    while i < v.len()
        invariant
            i <= v.len(),
            word@.len() > 0 <==> i > 0 && !is_gap(v@[i - 1]),
            words_of(v@.take(i as int)) == (if word@.len() > 0 {
                texts(out@).push(word@)
            } else {
                texts(out@)
            }),
        decreases v.len() - i,
    {
        let c = v[i];
        let ghost before = words_of(v@.take(i as int));
        let ghost done = texts(out@);
        proof {
            assert(v@.take(i + 1).drop_last() == v@.take(i as int));
            assert(v@.take(i + 1).last() == c);
            if i > 0 {
                assert(v@.take(i + 1)[i - 1] == v@[i - 1]);
            }
        }
        if c == ' ' || c == '\t' || c == '\n' {
            if word.len() > 0 {
                out.push(word);
                word = Vec::new();
                assert(texts(out@) =~= before);
            }
        } else {
            let ghost held = word@;
            word.push(c);
            proof {
                let now = v@.take(i + 1);
                assert(!is_gap(now.last()));
                if held.len() > 0 {
                    assert(now.len() >= 2 && now[now.len() - 2] == v@[i - 1]);
                    assert(before.drop_last() =~= done);
                    assert(before.last() == held);
                    assert(words_of(now) == before.drop_last().push(before.last().push(c)));
                } else {
                    assert(word@ =~= seq![c]);
                    if i > 0 {
                        assert(now[now.len() - 2] == v@[i - 1]);
                    }
                    assert(words_of(now) == before.push(seq![c]));
                }
            }
            assert(texts(out@).push(word@) =~= words_of(v@.take(i + 1)));
        }
        i = i + 1;
    }
    assert(v@.take(v.len() as int) == v@);
    if word.len() > 0 {
        let ghost all = texts(out@).push(word@);
        out.push(word);
        assert(texts(out@) =~= all);
    }
    out
}

/// `s` without the white space at its end.
pub open spec fn trimmed(s: Seq<char>) -> Seq<char>
    decreases s.len(),
{
    if s.len() > 0 && is_space(s.last()) {
        trimmed(s.drop_last())
    } else {
        s
    }
}

/// Removes the white space at the end of `v`.
pub fn trim_end(v: &mut Vec<char>)
    ensures
        final(v)@ == trimmed(old(v)@),
{
    while v.len() > 0 && char_is_space(v[v.len() - 1])
        invariant
            trimmed(v@) == trimmed(old(v)@),
        decreases v.len(),
    {
        v.pop();
    }
}

/// `unit` written `n` times in a row.
pub open spec fn repeated(unit: Seq<char>, n: nat) -> Seq<char>
    decreases n,
{
    if n == 0 {
        Seq::empty()
    } else {
        repeated(unit, (n - 1) as nat) + unit
    }
}

/// `unit` written `n` times in a row.
pub fn repeat(unit: &Vec<char>, n: usize) -> (out: Vec<char>)
    ensures
        out@ == repeated(unit@, n as nat),
{
    let mut out: Vec<char> = Vec::new();
    let mut i: usize = 0;
    while i < n
        invariant
            i <= n,
            out@ == repeated(unit@, i as nat),
        decreases n - i,
    {
        push_all(&mut out, unit);
        i = i + 1;
    }
    out
}

/// Whether `needle` occurs in `hay` at position `at`.
pub open spec fn matches_at(hay: Seq<char>, needle: Seq<char>, at: int) -> bool {
    &&& 0 <= at
    &&& at + needle.len() <= hay.len()
    &&& hay.subrange(at, at + needle.len()) == needle
}

/// The first position at or after `from` where `needle` occurs in `hay`.
pub open spec fn find_from(hay: Seq<char>, needle: Seq<char>, from: int) -> Option<int>
    decreases hay.len() + 1 - from,
{
    if from < 0 || from + needle.len() > hay.len() {
        None
    } else if matches_at(hay, needle, from) {
        Some(from)
    } else {
        find_from(hay, needle, from + 1)
    }
}

/// The first position where `needle` occurs in `hay`.
pub open spec fn find(hay: Seq<char>, needle: Seq<char>) -> Option<int> {
    find_from(hay, needle, 0)
}

/// `find_from` returns a match and skips none.
pub proof fn lemma_find_from(hay: Seq<char>, needle: Seq<char>, from: int)
    requires
        0 <= from,
    ensures
        match find_from(hay, needle, from) {
            Some(at) => {
                &&& from <= at
                &&& matches_at(hay, needle, at)
                &&& forall|j: int| from <= j < at ==> !matches_at(hay, needle, j)
            },
            None => forall|j: int| from <= j ==> !matches_at(hay, needle, j),
        },
    decreases hay.len() + 1 - from,
{
    if from + needle.len() > hay.len() {
    } else if matches_at(hay, needle, from) {
    } else {
        lemma_find_from(hay, needle, from + 1);
    }
}

/// Whether `needle` occurs in `hay` at position `at`.
pub fn starts_at(hay: &Vec<char>, needle: &Vec<char>, at: usize) -> (b: bool)
    ensures
        b == matches_at(hay@, needle@, at as int),
{
    if needle.len() > hay.len() || at > hay.len() - needle.len() {
        return false;
    }
    let mut k: usize = 0;
    while k < needle.len()
        invariant
            k <= needle.len(),
            at + needle.len() <= hay.len(),
            forall|j: int| 0 <= j < k ==> hay@[at + j] == needle@[j],
        decreases needle.len() - k,
    {
        if hay[at + k] != needle[k] {
            proof {
                let window = hay@.subrange(at as int, at + needle.len());
                assert(window[k as int] == hay@[at + k]);
            }
            return false;
        }
        k = k + 1;
    }
    assert(hay@.subrange(at as int, at + needle.len()) =~= needle@);
    true
}

/// The first position where `needle` occurs in `hay`, if there is one.
pub fn find_first(hay: &Vec<char>, needle: &Vec<char>) -> (r: Option<usize>)
    ensures
        match r {
            Some(at) => find(hay@, needle@) == Some(at as int),
            None => find(hay@, needle@) is None,
        },
{
    if needle.len() > hay.len() {
        return None;
    }
    let last: usize = hay.len() - needle.len();
    let mut i: usize = 0;
    loop
        invariant
            last == hay.len() - needle.len(),
            i <= last,
            find(hay@, needle@) == find_from(hay@, needle@, i as int),
        decreases last - i,
    {
        if starts_at(hay, needle, i) {
            return Some(i);
        }
        if i == last {
            assert(find_from(hay@, needle@, i + 1) is None);
            return None;
        }
        i = i + 1;
    }
}

/// `s` with every occurrence of `from` replaced by `to`, scanning from the
/// left and never matching inside text that was already replaced. With an
/// empty `from` nothing is replaced.
pub open spec fn replaced(s: Seq<char>, from: Seq<char>, to: Seq<char>) -> Seq<char>
    decreases s.len(),
{
    if from.len() == 0 || s.len() < from.len() {
        s
    } else if matches_at(s, from, 0) {
        to + replaced(s.skip(from.len() as int), from, to)
    } else {
        seq![s[0]] + replaced(s.skip(1), from, to)
    }
}

/// `s` with every occurrence of `from` replaced by `to`.
pub fn replace(s: &Vec<char>, from: &Vec<char>, to: &Vec<char>) -> (out: Vec<char>)
    ensures
        out@ == replaced(s@, from@, to@),
{
    let mut out: Vec<char> = Vec::new();
    if from.len() == 0 {
        push_all(&mut out, s);
        assert(out@ == s@);
        return out;
    }
    let mut i: usize = 0;
    proof {
        assert(s@.skip(0) == s@);
        assert(out@ + s@ == s@);
    }
    while i < s.len()
        invariant
            i <= s.len(),
            from.len() > 0,
            replaced(s@, from@, to@) == out@ + replaced(s@.skip(i as int), from@, to@),
        decreases s.len() - i,
    {
        let ghost rest = s@.skip(i as int);
        if starts_at(s, from, i) {
            proof {
                assert(s@.subrange(i as int, i + from.len()) == rest.subrange(0, from.len() as int));
                assert(rest.skip(from.len() as int) == s@.skip(i + from.len()));
                assert(out@ + (to@ + replaced(rest.skip(from.len() as int), from@, to@)) == (out@
                    + to@) + replaced(rest.skip(from.len() as int), from@, to@));
            }
            push_all(&mut out, to);
            i = i + from.len();
        } else {
            proof {
                if rest.len() >= from.len() {
                    assert(s@.subrange(i as int, i + from.len()) == rest.subrange(
                        0,
                        from.len() as int,
                    ));
                    assert(rest.skip(1) == s@.skip(i + 1));
                    assert(out@ + (seq![rest[0]] + replaced(rest.skip(1), from@, to@)) == out@.push(
                        s@[i as int],
                    ) + replaced(rest.skip(1), from@, to@));
                } else {
                    lemma_replaced_short(rest, from@, to@);
                    lemma_replaced_short(rest.skip(1), from@, to@);
                    assert(rest.skip(1) == s@.skip(i + 1));
                    assert(out@ + rest == out@.push(s@[i as int]) + rest.skip(1));
                }
            }
            out.push(s[i]);
            i = i + 1;
        }
    }
    proof {
        assert(s@.skip(s.len() as int) == Seq::<char>::empty());
        assert(out@ + Seq::<char>::empty() == out@);
    }
    out
}

/// A text shorter than the pattern is left as it is.
pub proof fn lemma_replaced_short(s: Seq<char>, from: Seq<char>, to: Seq<char>)
    requires
        s.len() < from.len(),
    ensures
        replaced(s, from, to) == s,
{
}

} // verus!
