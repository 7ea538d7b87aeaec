//! Lines of text as sequences of characters: blanks, words, and pieces cut
//! out of a line.

use vstd::prelude::*;

verus! {

/// Whether `c` is white space as Unicode defines it.
pub open spec fn is_space(c: char) -> bool {
    let u = c as u32;
    ||| 0x09 <= u <= 0x0D
    ||| u == 0x20
    ||| u == 0x85
    ||| u == 0xA0
    ||| u == 0x1680
    ||| 0x2000 <= u <= 0x200A
    ||| u == 0x2028
    ||| u == 0x2029
    ||| u == 0x202F
    ||| u == 0x205F
    ||| u == 0x3000
}

/// Whether `c` is a blank, a tab, a line feed, a form feed or a carriage
/// return.
pub open spec fn is_ascii_space(c: char) -> bool {
    let u = c as u32;
    u == 0x20 || u == 0x09 || u == 0x0A || u == 0x0C || u == 0x0D
}

pub fn is_space_char(c: char) -> (r: bool)
    ensures
        r == is_space(c),
{
    let u = c as u32;
    (0x09 <= u && u <= 0x0D) || u == 0x20 || u == 0x85 || u == 0xA0 || u == 0x1680 || (0x2000 <= u
        && u <= 0x200A) || u == 0x2028 || u == 0x2029 || u == 0x202F || u == 0x205F || u == 0x3000
}

pub fn is_ascii_space_char(c: char) -> (r: bool)
    ensures
        r == is_ascii_space(c),
{
    let u = c as u32;
    u == 0x20 || u == 0x09 || u == 0x0A || u == 0x0C || u == 0x0D
}

/// The characters of a string.
pub fn chars_of(s: &str) -> (r: Vec<char>)
    ensures
        r@ == s@,
{
    let n = s.unicode_len();
    let mut out: Vec<char> = Vec::new();
    let mut i: usize = 0;
    while i < n
        invariant
            i <= n,
            n == s@.len(),
            out@ == s@.take(i as int),
        decreases n - i,
    {
        out.push(s.get_char(i));
        i += 1;
        assert(out@ =~= s@.take(i as int));
    }
    assert(s@.take(n as int) =~= s@);
    out
}

/// The characters of `s` from `from` up to `to`, as a string.
pub fn text_of(s: &str, from: usize, to: usize) -> (r: String)
    requires
        from <= to <= s@.len(),
    ensures
        r@ == s@.subrange(from as int, to as int),
{
    s.substring_char(from, to).to_owned()
}

/// The first place from `from` up to `to` where `c` stands in `s`; `to` when
/// it stands nowhere there.
pub open spec fn index_of(s: Seq<char>, c: char, from: int, to: int) -> int
    decreases to - from,
{
    if from >= to {
        to
    } else if s[from] == c {
        from
    } else {
        index_of(s, c, from + 1, to)
    }
}

/// The first place from `from` up to `to` where white space does not stand;
/// `to` when there is only white space.
pub open spec fn trim_start(s: Seq<char>, from: int, to: int) -> int
    decreases to - from,
{
    if from < to && is_space(s[from]) {
        trim_start(s, from + 1, to)
    } else {
        from
    }
}

/// The place after the last from `from` up to `to` where white space does
/// not stand; `from` when there is only white space.
pub open spec fn trim_end(s: Seq<char>, from: int, to: int) -> int
    decreases to - from,
{
    if from < to && is_space(s[to - 1]) {
        trim_end(s, from, to - 1)
    } else {
        to
    }
}

/// The first place from `from` up to `to` where a blank of the ASCII kind
/// stands; `to` when none does.
pub open spec fn word_end(s: Seq<char>, from: int, to: int) -> int
    decreases to - from,
{
    if from < to && !is_ascii_space(s[from]) {
        word_end(s, from + 1, to)
    } else if from < to {
        from
    } else {
        to
    }
}

/// The first place from `from` up to `to` where no blank of the ASCII kind
/// stands; `to` when only such do.
pub open spec fn word_start(s: Seq<char>, from: int, to: int) -> int
    decreases to - from,
{
    if from < to && is_ascii_space(s[from]) {
        word_start(s, from + 1, to)
    } else if from < to {
        from
    } else {
        to
    }
}

/// The words of `s` from `from` up to `to`: where each begins and ends. A
/// word is a run of characters that are no blanks of the ASCII kind, as long
/// as can be.
pub open spec fn words(s: Seq<char>, from: int, to: int) -> Seq<(int, int)>
    decreases to - from,
    via words_decreases
{
    let a = word_start(s, from, to);
    if a >= to {
        Seq::empty()
    } else {
        let b = word_end(s, a, to);
        seq![(a, b)] + words(s, b, to)
    }
}

#[via_fn]
proof fn words_decreases(s: Seq<char>, from: int, to: int) {
    if from <= to {
        let a = word_start(s, from, to);
        lemma_word_start(s, from, to);
        if a < to {
            lemma_word_end(s, a, to);
        }
    }
}

/// Where a word starts lies no sooner than the search began, and no blank
/// stands there.
pub proof fn lemma_word_start(s: Seq<char>, from: int, to: int)
    requires
        from <= to,
    ensures
        from <= word_start(s, from, to) <= to,
        word_start(s, from, to) < to ==> !is_ascii_space(s[word_start(s, from, to)]),
    decreases to - from,
{
    if from < to && is_ascii_space(s[from]) {
        lemma_word_start(s, from + 1, to);
    }
}

/// Where a word ends lies after where it began, when no blank stands there.
pub proof fn lemma_word_end(s: Seq<char>, from: int, to: int)
    requires
        from <= to,
    ensures
        from <= word_end(s, from, to) <= to,
        from < to && !is_ascii_space(s[from]) ==> from < word_end(s, from, to),
    decreases to - from,
{
    if from < to && !is_ascii_space(s[from]) {
        lemma_word_end(s, from + 1, to);
    }
}

/// Where white space ends and begins lies within the piece looked at.
pub proof fn lemma_trim(s: Seq<char>, from: int, to: int)
    requires
        from <= to,
    ensures
        from <= trim_start(s, from, to) <= to,
        from <= trim_end(s, from, to) <= to,
    decreases to - from,
{
    if from < to && is_space(s[from]) {
        lemma_trim(s, from + 1, to);
    }
    if from < to && is_space(s[to - 1]) {
        lemma_trim(s, from, to - 1);
    }
}

/// Where a character is found lies within the piece looked at.
pub proof fn lemma_index_of(s: Seq<char>, c: char, from: int, to: int)
    requires
        from <= to,
    ensures
        from <= index_of(s, c, from, to) <= to,
        index_of(s, c, from, to) < to ==> s[index_of(s, c, from, to)] == c,
    decreases to - from,
{
    if from < to && s[from] != c {
        lemma_index_of(s, c, from + 1, to);
    }
}

/// The first place from `from` up to `to` where `c` stands.
pub fn find_char(s: &Vec<char>, c: char, from: usize, to: usize) -> (r: usize)
    requires
        from <= to <= s@.len(),
    ensures
        r == index_of(s@, c, from as int, to as int),
        from <= r <= to,
        r < to ==> s@[r as int] == c,
{
    let mut i: usize = from;
    while i < to
        invariant
            from <= i <= to <= s@.len(),
            index_of(s@, c, from as int, to as int) == index_of(s@, c, i as int, to as int),
        decreases to - i,
    {
        if s[i] == c {
            return i;
        }
        i += 1;
    }
    to
}

/// The piece from `from` up to `to` without the white space at its ends.
pub fn trim(s: &Vec<char>, from: usize, to: usize) -> (r: (usize, usize))
    requires
        from <= to <= s@.len(),
    ensures
        r.0 == trim_start(s@, from as int, to as int),
        r.1 == trim_end(s@, r.0 as int, to as int),
        from <= r.0 <= r.1 <= to,
{
    let mut a: usize = from;
    while a < to && is_space_char(s[a])
        invariant
            from <= a <= to <= s@.len(),
            trim_start(s@, from as int, to as int) == trim_start(s@, a as int, to as int),
        decreases to - a,
    {
        a += 1;
    }
    let mut b: usize = to;
    while a < b && is_space_char(s[b - 1])
        invariant
            a <= b <= to <= s@.len(),
            trim_end(s@, a as int, to as int) == trim_end(s@, a as int, b as int),
        decreases b - a,
    {
        b -= 1;
    }
    (a, b)
}

/// Where the first word from `from` up to `to` ends.
pub fn find_word_end(s: &Vec<char>, from: usize, to: usize) -> (r: usize)
    requires
        from <= to <= s@.len(),
    ensures
        r == word_end(s@, from as int, to as int),
        from <= r <= to,
{
    let mut i: usize = from;
    while i < to && !is_ascii_space_char(s[i])
        invariant
            from <= i <= to <= s@.len(),
            word_end(s@, from as int, to as int) == word_end(s@, i as int, to as int),
        decreases to - i,
    {
        i += 1;
    }
    i
}

/// Where the first word from `from` up to `to` starts.
pub fn find_word_start(s: &Vec<char>, from: usize, to: usize) -> (r: usize)
    requires
        from <= to <= s@.len(),
    ensures
        r == word_start(s@, from as int, to as int),
        from <= r <= to,
{
    let mut i: usize = from;
    while i < to && is_ascii_space_char(s[i])
        invariant
            from <= i <= to <= s@.len(),
            word_start(s@, from as int, to as int) == word_start(s@, i as int, to as int),
        decreases to - i,
    {
        i += 1;
    }
    i
}

/// Whether the piece of `s` from `from` up to `to` reads as `word`.
pub fn reads_as(s: &Vec<char>, from: usize, to: usize, word: &str) -> (r: bool)
    requires
        from <= to <= s@.len(),
    ensures
        r == (s@.subrange(from as int, to as int) == word@),
{
    let n = word.unicode_len();
    if to - from != n {
        return false;
    }
    let mut i: usize = 0;
    while i < n
        invariant
            i <= n,
            n == word@.len(),
            to - from == n,
            from <= to <= s@.len(),
            forall|k: int| 0 <= k < i ==> s@[from + k] == word@[k],
        decreases n - i,
    {
        if s[from + i] != word.get_char(i) {
            assert(s@.subrange(from as int, to as int)[i as int] != word@[i as int]);
            return false;
        }
        i += 1;
    }
    assert(s@.subrange(from as int, to as int) =~= word@);
    true
}

} // verus!
