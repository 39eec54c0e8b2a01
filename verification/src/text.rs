//! Character and byte sequence helpers shared by the text processing parts of
//! the library: splitting at a separator, trimming, and the character classes
//! that the formats of this library use.
use vstd::prelude::*;

verus! {

// ---------------------------------------------------------------------------
// Character classes
// ---------------------------------------------------------------------------

/// Unicode `White_Space`, the class that `char::is_whitespace` and `str::trim` use.
pub open spec fn is_white_space(c: char) -> bool {
    ||| ('\t' <= c && c <= '\r')
    ||| c == ' '
    ||| c == '\u{85}'
    ||| c == '\u{A0}'
    ||| c == '\u{1680}'
    ||| ('\u{2000}' <= c && c <= '\u{200A}')
    ||| c == '\u{2028}'
    ||| c == '\u{2029}'
    ||| c == '\u{202F}'
    ||| c == '\u{205F}'
    ||| c == '\u{3000}'
}

/// ASCII whitespace as `u8::is_ascii_whitespace` and `str::trim_ascii` know it:
/// space, tab, line feed, form feed and carriage return.
pub open spec fn is_ascii_white(c: char) -> bool {
    c == ' ' || c == '\t' || c == '\n' || c == '\u{0C}' || c == '\r'
}

/// The `\s` class of a regular expression without Unicode support:
/// `[\t\n\v\f\r ]`.
pub open spec fn is_pattern_space(c: char) -> bool {
    ('\t' <= c && c <= '\r') || c == ' '
}

/// Which set of characters a trim removes.
#[derive(Clone, Copy, PartialEq, Eq, Structural)]
pub enum Blank {
    /// Unicode white space, as `str::trim`.
    Unicode,
    /// ASCII white space, as `str::trim_ascii`.
    Ascii,
    /// The `\s` class of a pattern without Unicode support.
    Pattern,
    /// The space character alone.
    Space,
}

pub open spec fn is_blank(k: Blank, c: char) -> bool {
    match k {
        Blank::Unicode => is_white_space(c),
        Blank::Ascii => is_ascii_white(c),
        Blank::Pattern => is_pattern_space(c),
        Blank::Space => c == ' ',
    }
}

/// Whether `c` is Unicode white space.
pub fn white_space(c: char) -> (r: bool)
    ensures
        r == is_white_space(c),
{
    ('\t' <= c && c <= '\r') || c == ' ' || c == '\u{85}' || c == '\u{A0}' || c == '\u{1680}'
        || ('\u{2000}' <= c && c <= '\u{200A}') || c == '\u{2028}' || c == '\u{2029}'
        || c == '\u{202F}' || c == '\u{205F}' || c == '\u{3000}'
}

pub fn pattern_space(c: char) -> (r: bool)
    ensures
        r == is_pattern_space(c),
{
    ('\t' <= c && c <= '\r') || c == ' '
}

pub fn blank(k: Blank, c: char) -> (r: bool)
    ensures
        r == is_blank(k, c),
{
    match k {
        Blank::Unicode => white_space(c),
        Blank::Ascii => c == ' ' || c == '\t' || c == '\n' || c == '\u{0C}' || c == '\r',
        Blank::Pattern => pattern_space(c),
        Blank::Space => c == ' ',
    }
}

// ---------------------------------------------------------------------------
// Trimming
// ---------------------------------------------------------------------------

/// `s` without its leading characters of class `k`.
pub open spec fn trim_start(s: Seq<char>, k: Blank) -> Seq<char>
    decreases s.len(),
{
    if s.len() > 0 && is_blank(k, s[0]) {
        trim_start(s.drop_first(), k)
    } else {
        s
    }
}

/// `s` without its trailing characters of class `k`.
pub open spec fn trim_end(s: Seq<char>, k: Blank) -> Seq<char>
    decreases s.len(),
{
    if s.len() > 0 && is_blank(k, s.last()) {
        trim_end(s.drop_last(), k)
    } else {
        s
    }
}

/// `s` without leading and trailing characters of class `k`.
pub open spec fn trim(s: Seq<char>, k: Blank) -> Seq<char> {
    trim_end(trim_start(s, k), k)
}

proof fn lemma_trim_start_step(s: Seq<char>, lo: int, hi: int, k: Blank)
    requires
        0 <= lo < hi <= s.len(),
        is_blank(k, s[lo]),
    ensures
        trim_start(s.subrange(lo, hi), k) == trim_start(s.subrange(lo + 1, hi), k),
{
    assert(s.subrange(lo, hi).drop_first() =~= s.subrange(lo + 1, hi));
}

proof fn lemma_trim_end_step(s: Seq<char>, lo: int, hi: int, k: Blank)
    requires
        0 <= lo < hi <= s.len(),
        is_blank(k, s[hi - 1]),
    ensures
        trim_end(s.subrange(lo, hi), k) == trim_end(s.subrange(lo, hi - 1), k),
{
    assert(s.subrange(lo, hi).drop_last() =~= s.subrange(lo, hi - 1));
}

pub proof fn lemma_trim_start_len(s: Seq<char>, k: Blank)
    ensures
        trim_start(s, k).len() <= s.len(),
    decreases s.len(),
{
    if s.len() > 0 {
        lemma_trim_start_len(s.drop_first(), k);
    }
}

pub proof fn lemma_trim_end_len(s: Seq<char>, k: Blank)
    ensures
        trim_end(s, k).len() <= s.len(),
    decreases s.len(),
{
    if s.len() > 0 {
        lemma_trim_end_len(s.drop_last(), k);
    }
}

/// Trimming never makes a sequence longer.
pub proof fn lemma_trim_len(s: Seq<char>, k: Blank)
    ensures
        trim(s, k).len() <= s.len(),
{
    lemma_trim_start_len(s, k);
    lemma_trim_end_len(trim_start(s, k), k);
}

/// The characters `s[lo..hi]`, trimmed of class `k` at both ends.
pub fn trimmed(s: &[char], lo: usize, hi: usize, k: Blank) -> (r: Vec<char>)
    requires
        lo <= hi <= s@.len(),
    ensures
        r@ == trim(s@.subrange(lo as int, hi as int), k),
{
    let mut a = lo;
    while a < hi && blank(k, s[a])
        invariant
            lo <= a <= hi <= s@.len(),
            trim_start(s@.subrange(lo as int, hi as int), k) == trim_start(
                s@.subrange(a as int, hi as int),
                k,
            ),
        decreases hi - a,
    {
        proof {
            lemma_trim_start_step(s@, a as int, hi as int, k);
        }
        a += 1;
    }
    assert(trim_start(s@.subrange(a as int, hi as int), k) == s@.subrange(a as int, hi as int));
    let mut b = hi;
    while b > a && blank(k, s[b - 1])
        invariant
            lo <= a <= b <= hi <= s@.len(),
            trim(s@.subrange(lo as int, hi as int), k) == trim_end(
                s@.subrange(a as int, b as int),
                k,
            ),
        decreases b - a,
    {
        proof {
            lemma_trim_end_step(s@, a as int, b as int, k);
        }
        b -= 1;
    }
    copy_range(s, a, b)
}

/// The characters `s[lo..hi]`.
pub fn copy_range<T: Copy>(s: &[T], lo: usize, hi: usize) -> (r: Vec<T>)
    requires
        lo <= hi <= s@.len(),
    ensures
        r@ == s@.subrange(lo as int, hi as int),
{
    let mut r: Vec<T> = Vec::new();
    let mut i = lo;
    while i < hi
        invariant
            lo <= i <= hi <= s@.len(),
            r@ == s@.subrange(lo as int, i as int),
        decreases hi - i,
    {
        r.push(s[i]);
        proof {
            assert(r@ =~= s@.subrange(lo as int, i + 1));
        }
        i += 1;
    }
    r
}

// ---------------------------------------------------------------------------
// Splitting at a separator
// ---------------------------------------------------------------------------

/// Index of the first `x` in `s`, or `s.len()` where there is none.
pub open spec fn first_index<A>(s: Seq<A>, x: A) -> int
    decreases s.len(),
{
    if s.len() == 0 {
        0
    } else if s[0] == x {
        0
    } else {
        1 + first_index(s.drop_first(), x)
    }
}

pub proof fn lemma_first_index_bounds<A>(s: Seq<A>, x: A)
    ensures
        0 <= first_index(s, x) <= s.len(),
        first_index(s, x) < s.len() ==> s[first_index(s, x)] == x,
        forall|k: int| 0 <= k < first_index(s, x) ==> s[k] != x,
    decreases s.len(),
{
    if s.len() > 0 && s[0] != x {
        lemma_first_index_bounds(s.drop_first(), x);
        let i = first_index(s.drop_first(), x);
        assert forall|k: int| 0 <= k < first_index(s, x) implies s[k] != x by {
            if k > 0 {
                assert(s[k] == s.drop_first()[k - 1]);
            }
        }
    }
}

/// The first index of `x` is the one with no `x` before it.
pub proof fn lemma_first_index_is<A>(s: Seq<A>, x: A, i: int)
    requires
        0 <= i <= s.len(),
        forall|k: int| 0 <= k < i ==> s[k] != x,
        i < s.len() ==> s[i] == x,
    ensures
        first_index(s, x) == i,
    decreases s.len(),
{
    if s.len() > 0 && i > 0 {
        assert(s[0] != x);
        assert forall|k: int| 0 <= k < i - 1 implies s.drop_first()[k] != x by {
            assert(s.drop_first()[k] == s[k + 1]);
        }
        lemma_first_index_is(s.drop_first(), x, i - 1);
    }
}

/// The pieces of `s` between occurrences of `sep`, as `str::split` and
/// `<[T]>::split` give them: one more piece than there are separators.
pub open spec fn split_on<A>(s: Seq<A>, sep: A) -> Seq<Seq<A>>
    decreases s.len(),
{
    let i = first_index(s, sep);
    if i >= s.len() {
        seq![s]
    } else {
        proof {
            lemma_first_index_bounds(s, sep);
        }
        seq![s.take(i)] + split_on(s.skip(i + 1), sep)
    }
}

/// Splitting `s` where its first separator stands at `i`.
pub proof fn lemma_split_at<A>(s: Seq<A>, sep: A, i: int)
    requires
        0 <= i < s.len(),
        s[i] == sep,
        forall|k: int| 0 <= k < i ==> s[k] != sep,
    ensures
        split_on(s, sep) == seq![s.take(i)] + split_on(s.skip(i + 1), sep),
{
    lemma_first_index_is(s, sep, i);
}

/// A sequence without separator is one piece.
pub proof fn lemma_split_none<A>(s: Seq<A>, sep: A)
    requires
        forall|k: int| 0 <= k < s.len() ==> s[k] != sep,
    ensures
        split_on(s, sep) == seq![s],
{
    lemma_first_index_is(s, sep, s.len() as int);
}

/// Splits `s` at `sep`.
pub fn split_chars(s: &[char], sep: char) -> (r: Vec<Vec<char>>)
    ensures
        r@.len() == split_on(s@, sep).len(),
        forall|i: int| 0 <= i < r@.len() ==> #[trigger] r@[i]@ == split_on(s@, sep)[i],
{
    let mut r: Vec<Vec<char>> = Vec::new();
    let mut start: usize = 0;
    let mut i: usize = 0;
    let ghost done: Seq<Seq<char>> = seq![];
    proof {
        assert(s@.skip(0) =~= s@);
        assert(done + split_on(s@, sep) =~= split_on(s@, sep));
    }
    while i < s.len()
        invariant
            start <= i <= s@.len(),
            done.len() == r@.len(),
            forall|j: int| 0 <= j < r@.len() ==> #[trigger] r@[j]@ == done[j],
            split_on(s@, sep) == done + split_on(s@.skip(start as int), sep),
            forall|k: int| start <= k < i ==> s@[k] != sep,
        decreases s@.len() - i,
    {
        if s[i] == sep {
            let piece = copy_range(s, start, i);
            proof {
                let rest = s@.skip(start as int);
                lemma_split_at(rest, sep, i - start);
                assert(rest.take(i - start) =~= piece@);
                assert(rest.skip(i - start + 1) =~= s@.skip(i + 1));
                done = done.push(piece@);
                assert(split_on(s@, sep) =~= done + split_on(s@.skip(i + 1), sep));
            }
            r.push(piece);
            start = i + 1;
        }
        i += 1;
    }
    let piece = copy_range(s, start, s.len());
    proof {
        let rest = s@.skip(start as int);
        lemma_split_none(rest, sep);
        assert(rest =~= piece@);
        done = done.push(piece@);
        assert(split_on(s@, sep) =~= done);
    }
    r.push(piece);
    r
}

// ---------------------------------------------------------------------------
// Conversions between string slices, strings and characters
// ---------------------------------------------------------------------------

/// The characters of a string slice, in order.
pub fn chars_of(s: &str) -> (r: Vec<char>)
    ensures
        r@ == s@,
{
    let mut r: Vec<char> = Vec::new();
    for c in it: s.chars()
        invariant
            r@ == it.seq().take(it.index() as int),
            it.seq() == s@,
    {
        r.push(c);
    }
    r
}

/// `String::push` appends one character.
pub assume_specification[ String::push ](s: &mut String, ch: char)
    ensures
        final(s)@ == old(s)@.push(ch),
;

/// A string holding the given characters.
pub fn string_of(chars: &[char]) -> (r: String)
    ensures
        r@ == chars@,
{
    let mut r = String::new();
    let mut i: usize = 0;
    while i < chars.len()
        invariant
            i <= chars@.len(),
            r@ == chars@.take(i as int),
        decreases chars@.len() - i,
    {
        r.push(chars[i]);
        proof {
            assert(chars@.take(i + 1) =~= chars@.take(i as int).push(chars@[i as int]));
        }
        i += 1;
    }
    proof {
        assert(chars@.take(chars@.len() as int) =~= chars@);
    }
    r
}

/// The lines of a text as `str::lines` gives them: split at line feeds, where
/// a final line feed ends the last line rather than starting a new one.
/// (`str::lines` also drops a carriage return before each line feed; the trim
/// that follows here removes it anyway.)
pub open spec fn split_lines(s: Seq<char>) -> Seq<Seq<char>> {
    let parts = split_on(s, '\n');
    if parts.last().len() == 0 {
        parts.drop_last()
    } else {
        parts
    }
}

/// The lines, each trimmed of Unicode white space.
pub open spec fn trimmed_lines(s: Seq<char>) -> Seq<Seq<char>> {
    split_lines(s).map_values(|l: Seq<char>| trim(l, Blank::Unicode))
}

/// A text has at most one more line than it has characters.
pub proof fn lemma_split_count<A>(s: Seq<A>, sep: A)
    ensures
        1 <= split_on(s, sep).len() <= s.len() + 1,
    decreases s.len(),
{
    let i = first_index(s, sep);
    lemma_first_index_bounds(s, sep);
    if i < s.len() {
        lemma_split_count(s.skip(i + 1), sep);
    }
}

/// Trimming the start of `s` removes exactly its first `j` characters when
/// they are of the class and the next one is not.
pub proof fn lemma_trim_start_is(s: Seq<char>, k: Blank, j: int)
    requires
        0 <= j <= s.len(),
        forall|i: int| 0 <= i < j ==> is_blank(k, #[trigger] s[i]),
        j < s.len() ==> !is_blank(k, s[j]),
    ensures
        trim_start(s, k) == s.skip(j),
    decreases s.len(),
{
    if j == 0 {
        assert(s.skip(0) =~= s);
    } else {
        assert(is_blank(k, s[0]));
        assert forall|i: int| 0 <= i < j - 1 implies is_blank(k, #[trigger] s.drop_first()[i]) by {
            assert(s.drop_first()[i] == s[i + 1]);
        }
        lemma_trim_start_is(s.drop_first(), k, j - 1);
        assert(s.drop_first().skip(j - 1) =~= s.skip(j));
    }
}

} // verus!
