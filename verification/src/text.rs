//! Text as sequences of characters: reading a string and writing one.

use vstd::prelude::*;

verus! {

/// `String::push` appends one character at the end of the string and
/// leaves what was there as it was.
pub assume_specification[ String::push ](text: &mut String, c: char)
    ensures
        final(text)@ == old(text)@.push(c),
;

/// The characters of `s`, in order.
pub fn chars_of(s: &str) -> (v: Vec<char>)
    ensures
        v@ == s@,
{
    let mut v: Vec<char> = Vec::new();
    for c in it: s.chars()
        invariant
            it.seq() == s@,
            v@ == it.seq().take(it.index() as int),
    {
        v.push(c);
    }
    v
}

/// Appends the characters of `chars` to `out`, in order.
pub fn push_chars(out: &mut String, chars: &[char])
    ensures
        final(out)@ == old(out)@ + chars@,
{
    let mut i: usize = 0;
    while i < chars.len()
        invariant
            i <= chars.len(),
            out@ == old(out)@ + chars@.take(i as int),
        decreases chars.len() - i,
    {
        out.push(chars[i]);
        i += 1;
        assert(out@ =~= old(out)@ + chars@.take(i as int));
    }
    assert(chars@.take(i as int) =~= chars@);
}

/// The texts that a vector of character vectors holds.
pub open spec fn texts(v: Seq<Vec<char>>) -> Seq<Seq<char>> {
    v.map_values(|t: Vec<char>| t@)
}

/// The first place at or after `from` where `s` holds `c`; the length of
/// `s` where it holds none.
pub open spec fn find_from(s: Seq<char>, c: char, from: int) -> int
    decreases s.len() - from,
{
    if from >= s.len() {
        s.len() as int
    } else if s[from] == c {
        from
    } else {
        find_from(s, c, from + 1)
    }
}

/// What `find_from` finds lies between `from` and the end, holds `c`
/// unless it is the end, and nothing before it does.
pub proof fn lemma_find_from(s: Seq<char>, c: char, from: int)
    requires
        0 <= from <= s.len(),
    ensures
        from <= find_from(s, c, from) <= s.len(),
        find_from(s, c, from) < s.len() ==> s[find_from(s, c, from)] == c,
        forall|i: int| from <= i < find_from(s, c, from) ==> s[i] != c,
    decreases s.len() - from,
{
    if from < s.len() && s[from] != c {
        lemma_find_from(s, c, from + 1);
    }
}

/// The pieces that `sep` separates in `s` from `start` on, where nothing
/// between `start` and `at` is a separator.
pub open spec fn split_scan(s: Seq<char>, sep: char, start: int, at: int) -> Seq<Seq<char>>
    recommends
        0 <= start <= at,
    decreases s.len() - at,
{
    if at >= s.len() {
        seq![s.subrange(start, s.len() as int)]
    } else if s[at] == sep {
        seq![s.subrange(start, at)] + split_scan(s, sep, at + 1, at + 1)
    } else {
        split_scan(s, sep, start, at + 1)
    }
}

/// The pieces of `s` that `sep` separates. There is always one piece more
/// than there are separators, so a text without any is its own one piece.
pub open spec fn split(s: Seq<char>, sep: char) -> Seq<Seq<char>> {
    split_scan(s, sep, 0, 0)
}

/// A line without the carriage return that may end it.
pub open spec fn strip_cr(line: Seq<char>) -> Seq<char> {
    if line.len() > 0 && line.last() == '\r' {
        line.drop_last()
    } else {
        line
    }
}

/// The lines of `s` from `start` on, where nothing between `start` and
/// `at` is a line feed.
pub open spec fn lines_scan(s: Seq<char>, start: int, at: int) -> Seq<Seq<char>>
    recommends
        0 <= start <= at,
    decreases s.len() - at,
{
    if at >= s.len() {
        if start >= s.len() {
            seq![]
        } else {
            seq![s.subrange(start, s.len() as int)]
        }
    } else if s[at] == '\n' {
        seq![strip_cr(s.subrange(start, at))] + lines_scan(s, at + 1, at + 1)
    } else {
        lines_scan(s, start, at + 1)
    }
}

/// The lines of `s`. A line ends with a line feed, or with a carriage
/// return and a line feed, neither of which belongs to it; the last line
/// may end with the text. A carriage return with no line feed behind it
/// belongs to its line.
pub open spec fn lines(s: Seq<char>) -> Seq<Seq<char>> {
    lines_scan(s, 0, 0)
}

/// The first place at or after `from` where `s` holds `c`.
pub fn find_char(s: &[char], c: char, from: usize) -> (end: usize)
    requires
        from <= s.len(),
    ensures
        end == find_from(s@, c, from as int),
        from <= end <= s.len(),
{
    let mut i: usize = from;
    while i < s.len() && s[i] != c
        invariant
            from <= i <= s.len(),
            find_from(s@, c, from as int) == find_from(s@, c, i as int),
        decreases s.len() - i,
    {
        i += 1;
    }
    i
}

/// A copy of the characters of `s` from `from` up to `to`.
pub fn copy_range(s: &[char], from: usize, to: usize) -> (v: Vec<char>)
    requires
        from <= to <= s.len(),
    ensures
        v@ == s@.subrange(from as int, to as int),
{
    let mut v: Vec<char> = Vec::new();
    let mut i: usize = from;
    while i < to
        invariant
            from <= i <= to <= s.len(),
            v@ == s@.subrange(from as int, i as int),
        decreases to - i,
    {
        v.push(s[i]);
        i += 1;
        assert(v@ =~= s@.subrange(from as int, i as int));
    }
    v
}

/// The pieces of `s` that `sep` separates, in order.
pub fn split_on(s: &[char], sep: char) -> (pieces: Vec<Vec<char>>)
    ensures
        texts(pieces@) == split(s@, sep),
{
    let mut pieces: Vec<Vec<char>> = Vec::new();
    let mut start: usize = 0;
    let mut at: usize = 0;
    while at < s.len()
        invariant
            start <= at <= s.len(),
            split(s@, sep) == texts(pieces@) + split_scan(s@, sep, start as int, at as int),
        decreases s.len() - at,
    {
        if s[at] == sep {
            let piece: Vec<char> = copy_range(s, start, at);
            let ghost before = pieces@;
            pieces.push(piece);
            assert(texts(pieces@) =~= texts(before).push(s@.subrange(start as int, at as int)));
            assert(split(s@, sep) =~= texts(pieces@) + split_scan(s@, sep, at + 1, at + 1));
            start = at + 1;
        }
        at += 1;
    }
    let piece: Vec<char> = copy_range(s, start, at);
    let ghost before = pieces@;
    pieces.push(piece);
    assert(texts(pieces@) =~= texts(before).push(s@.subrange(start as int, at as int)));
    assert(split(s@, sep) =~= texts(pieces@));
    pieces
}

/// The lines of `s`, in order.
pub fn split_lines(s: &[char]) -> (found: Vec<Vec<char>>)
    ensures
        texts(found@) == lines(s@),
{
    let mut found: Vec<Vec<char>> = Vec::new();
    let mut start: usize = 0;
    let mut at: usize = 0;
    while at < s.len()
        invariant
            start <= at <= s.len(),
            lines(s@) == texts(found@) + lines_scan(s@, start as int, at as int),
        decreases s.len() - at,
    {
        if s[at] == '\n' {
            let stop: usize = if at > start && s[at - 1] == '\r' {
                at - 1
            } else {
                at
            };
            let line: Vec<char> = copy_range(s, start, stop);
            assert(line@ =~= strip_cr(s@.subrange(start as int, at as int)));
            let ghost before = found@;
            found.push(line);
            assert(texts(found@) =~= texts(before).push(
                strip_cr(s@.subrange(start as int, at as int)),
            ));
            assert(lines(s@) =~= texts(found@) + lines_scan(s@, at + 1, at + 1));
            start = at + 1;
        }
        at += 1;
    }
    if start < at {
        let line: Vec<char> = copy_range(s, start, at);
        let ghost before = found@;
        found.push(line);
        assert(texts(found@) =~= texts(before).push(s@.subrange(start as int, at as int)));
    }
    assert(lines(s@) =~= texts(found@));
    found
}

/// `c` is white space: one of the characters with the Unicode property
/// `White_Space`.
pub open spec fn is_space(c: char) -> bool {
    ||| '\u{9}' <= c <= '\u{d}'
    ||| c == ' '
    ||| c == '\u{85}'
    ||| c == '\u{a0}'
    ||| c == '\u{1680}'
    ||| '\u{2000}' <= c <= '\u{200a}'
    ||| c == '\u{2028}'
    ||| c == '\u{2029}'
    ||| c == '\u{202f}'
    ||| c == '\u{205f}'
    ||| c == '\u{3000}'
}

/// The word that ends before `at`, where one began at `start`.
pub open spec fn open_word(s: Seq<char>, start: int, at: int) -> Seq<Seq<char>> {
    if start < at {
        seq![s.subrange(start, at)]
    } else {
        seq![]
    }
}

/// The words of `s` from `start` on, where nothing between `start` and
/// `at` is white space.
pub open spec fn words_scan(s: Seq<char>, start: int, at: int) -> Seq<Seq<char>>
    recommends
        0 <= start <= at,
    decreases s.len() - at,
{
    if at >= s.len() {
        open_word(s, start, s.len() as int)
    } else if is_space(s[at]) {
        open_word(s, start, at) + words_scan(s, at + 1, at + 1)
    } else {
        words_scan(s, start, at + 1)
    }
}

/// The words of `s`: its longest stretches without white space, in order.
pub open spec fn words(s: Seq<char>) -> Seq<Seq<char>> {
    words_scan(s, 0, 0)
}

/// Whether `c` is white space.
pub fn is_whitespace(c: char) -> (b: bool)
    ensures
        b == is_space(c),
{
    ('\u{9}' <= c && c <= '\u{d}') || c == ' ' || c == '\u{85}' || c == '\u{a0}' || c == '\u{1680}'
        || ('\u{2000}' <= c && c <= '\u{200a}') || c == '\u{2028}' || c == '\u{2029}' || c
        == '\u{202f}' || c == '\u{205f}' || c == '\u{3000}'
}

/// The words of `s`, in order.
pub fn split_words(s: &[char]) -> (found: Vec<Vec<char>>)
    ensures
        texts(found@) == words(s@),
{
    let mut found: Vec<Vec<char>> = Vec::new();
    let mut start: usize = 0;
    let mut at: usize = 0;
    while at < s.len()
        invariant
            start <= at <= s.len(),
            words(s@) == texts(found@) + words_scan(s@, start as int, at as int),
        decreases s.len() - at,
    {
        if is_whitespace(s[at]) {
            if start < at {
                let word: Vec<char> = copy_range(s, start, at);
                let ghost before = found@;
                found.push(word);
                assert(texts(found@) =~= texts(before).push(s@.subrange(start as int, at as int)));
            }
            assert(words(s@) =~= texts(found@) + words_scan(s@, at + 1, at + 1));
            start = at + 1;
        }
        at += 1;
    }
    if start < at {
        let word: Vec<char> = copy_range(s, start, at);
        let ghost before = found@;
        found.push(word);
        assert(texts(found@) =~= texts(before).push(s@.subrange(start as int, at as int)));
    }
    assert(words(s@) =~= texts(found@));
    found
}

} // verus!
