//! Formatting of assembler source text.
//!
//! Each line is cut into code text and comments, indented by the braces that
//! the code text opens and closes, and its white space is normalised.
use crate::text::{
    Blank, chars_of, copy_range, is_pattern_space, lemma_trim_len, pattern_space, split_chars,
    split_lines, split_on, string_of, trim, trim_end, trimmed, trimmed_lines,
};
use vstd::prelude::*;

verus! {

// ---------------------------------------------------------------------------
// Slices of a line
// ---------------------------------------------------------------------------

/// A piece of a source line.
#[derive(Debug)]
pub enum Slice {
    /// Code text.
    Text(Vec<char>),
    /// The start of a line comment, `//`.
    Line,
    /// The start of a block comment, `/*`.
    BlockOpen,
    /// The end of a block comment, `*/`.
    BlockClose,
    /// The text of a comment.
    Comment(Vec<char>),
}

/// What a [`Slice`] holds, as values.
pub enum SliceModel {
    Text(Seq<char>),
    Line,
    BlockOpen,
    BlockClose,
    Comment(Seq<char>),
}

impl View for Slice {
    type V = SliceModel;

    open spec fn view(&self) -> SliceModel {
        match self {
            Slice::Text(t) => SliceModel::Text(t@),
            Slice::Line => SliceModel::Line,
            Slice::BlockOpen => SliceModel::BlockOpen,
            Slice::BlockClose => SliceModel::BlockClose,
            Slice::Comment(c) => SliceModel::Comment(c@),
        }
    }
}

pub open spec fn slices_view(v: Seq<Slice>) -> Seq<SliceModel> {
    v.map_values(|s: Slice| s@)
}

/// Whether `a` stands at `k` in `s`, directly followed by `b`.
pub open spec fn pair_at(s: Seq<char>, k: int, a: char, b: char) -> bool {
    0 <= k && k + 1 < s.len() && s[k] == a && s[k + 1] == b
}

/// Index of the first place where `a` is directly followed by `b`, or
/// `s.len()` where there is none.
pub open spec fn find_pair(s: Seq<char>, a: char, b: char) -> int
    decreases s.len(),
{
    if s.len() < 2 {
        s.len() as int
    } else if s[0] == a && s[1] == b {
        0
    } else {
        1 + find_pair(s.drop_first(), a, b)
    }
}

pub proof fn lemma_find_pair_bounds(s: Seq<char>, a: char, b: char)
    ensures
        0 <= find_pair(s, a, b) <= s.len(),
        find_pair(s, a, b) < s.len() ==> find_pair(s, a, b) + 2 <= s.len() && s[find_pair(
            s,
            a,
            b,
        )] == a && s[find_pair(s, a, b) + 1] == b,
    decreases s.len(),
{
    if s.len() >= 2 && !(s[0] == a && s[1] == b) {
        lemma_find_pair_bounds(s.drop_first(), a, b);
    }
}

proof fn lemma_find_pair_is(s: Seq<char>, a: char, b: char, i: int)
    requires
        0 <= i <= s.len(),
        forall|k: int| 0 <= k < i ==> !#[trigger] pair_at(s, k, a, b),
        i < s.len() ==> i + 1 < s.len() && s[i] == a && s[i + 1] == b,
    ensures
        find_pair(s, a, b) == i,
    decreases s.len(),
{
    if s.len() >= 2 && !(s[0] == a && s[1] == b) {
        assert(i > 0);
        assert forall|k: int| 0 <= k < i - 1 implies !#[trigger] pair_at(s.drop_first(), k, a, b) by {
            assert(!pair_at(s, k + 1, a, b));
        }
        lemma_find_pair_is(s.drop_first(), a, b, i - 1);
    } else if s.len() >= 2 {
        if i > 0 {
            assert(pair_at(s, 0, a, b));
        }
    }
}

/// The slices of one line, and whether a block comment is still open after
/// it, given whether one was open before it.
pub open spec fn parse_spec(input: Seq<char>, block: bool) -> (Seq<SliceModel>, bool)
    decreases input.len(),
{
    if input.len() == 0 {
        (seq![], block)
    } else if block {
        let i = find_pair(input, '*', '/');
        if i < input.len() {
            proof {
                lemma_find_pair_bounds(input, '*', '/');
            }
            let a = trim(input.take(i), Blank::Ascii);
            let head = if a.len() > 0 {
                seq![SliceModel::Comment(a)]
            } else {
                seq![]
            };
            let rest = parse_spec(input.skip(i + 2), false);
            (head + seq![SliceModel::BlockClose] + rest.0, rest.1)
        } else {
            (seq![SliceModel::Comment(trim(input, Blank::Ascii))], true)
        }
    } else {
        let l = find_pair(input, '/', '/');
        let c = find_pair(input, '/', '*');
        if l < input.len() && l < c {
            proof {
                lemma_find_pair_bounds(input, '/', '/');
            }
            let a = trim(input.take(l), Blank::Ascii);
            let b = trim(input.skip(l + 2), Blank::Ascii);
            let head = if a.len() > 0 {
                seq![SliceModel::Text(a)]
            } else {
                seq![]
            };
            let tail = if b.len() > 0 {
                seq![SliceModel::Comment(b)]
            } else {
                seq![]
            };
            (head + seq![SliceModel::Line] + tail, false)
        } else if c < input.len() {
            proof {
                lemma_find_pair_bounds(input, '/', '*');
            }
            let a = trim(input.take(c), Blank::Ascii);
            let head = if a.len() > 0 {
                seq![SliceModel::Text(a)]
            } else {
                seq![]
            };
            let rest = parse_spec(input.skip(c + 2), true);
            (head + seq![SliceModel::BlockOpen] + rest.0, rest.1)
        } else {
            (seq![SliceModel::Text(trim(input, Blank::Ascii))], false)
        }
    }
}

/// The block-comment delimiters among `s`, in order: `true` for an opening
/// `/*`, `false` for a closing `*/`.
pub open spec fn block_delims(s: Seq<SliceModel>) -> Seq<bool>
    decreases s.len(),
{
    if s.len() == 0 {
        seq![]
    } else {
        let d = match s[0] {
            SliceModel::BlockOpen => seq![true],
            SliceModel::BlockClose => seq![false],
            _ => seq![],
        };
        d + block_delims(s.drop_first())
    }
}

/// Delimiters alternate, starting with a closing one where a block comment
/// is open and with an opening one where none is.
pub open spec fn delims_alternate(m: Seq<bool>, open: bool) -> bool
    decreases m.len(),
{
    m.len() == 0 || (m[0] == !open && delims_alternate(m.drop_first(), m[0]))
}

proof fn lemma_block_delims_concat(a: Seq<SliceModel>, b: Seq<SliceModel>)
    ensures
        block_delims(a + b) == block_delims(a) + block_delims(b),
    decreases a.len(),
{
    if a.len() == 0 {
        assert(a + b =~= b);
        assert(block_delims(a) + block_delims(b) =~= block_delims(b));
    } else {
        assert((a + b).drop_first() =~= a.drop_first() + b);
        lemma_block_delims_concat(a.drop_first(), b);
        assert((a + b)[0] == a[0]);
        let d = match a[0] {
            SliceModel::BlockOpen => seq![true],
            SliceModel::BlockClose => seq![false],
            _ => seq![],
        };
        assert(d + (block_delims(a.drop_first()) + block_delims(b)) =~= (d + block_delims(
            a.drop_first(),
        )) + block_delims(b));
    }
}

proof fn lemma_block_delims_one(x: SliceModel)
    ensures
        block_delims(seq![x]) == match x {
            SliceModel::BlockOpen => seq![true],
            SliceModel::BlockClose => seq![false],
            _ => Seq::<bool>::empty(),
        },
{
    assert(seq![x].drop_first() =~= Seq::<SliceModel>::empty());
    assert(block_delims(Seq::<SliceModel>::empty()) == Seq::<bool>::empty());
    let d = match x {
        SliceModel::BlockOpen => seq![true],
        SliceModel::BlockClose => seq![false],
        _ => Seq::<bool>::empty(),
    };
    assert(d + Seq::<bool>::empty() =~= d);
}

/// Across a line, the block-comment delimiters alternate, the first one
/// closing exactly where a block comment was open before the line; a block
/// comment is open after the line exactly where the last delimiter opens
/// one, or, with no delimiter, where one was open before it.
pub proof fn lemma_parse_block_delims(input: Seq<char>, block: bool)
    ensures
        delims_alternate(block_delims(parse_spec(input, block).0), block),
        parse_spec(input, block).1 == if block_delims(parse_spec(input, block).0).len() == 0 {
            block
        } else {
            block_delims(parse_spec(input, block).0).last()
        },
    decreases input.len(),
{
    let e = Seq::<SliceModel>::empty();
    assert(block_delims(e) == Seq::<bool>::empty());
    if input.len() == 0 {
    } else if block {
        let i = find_pair(input, '*', '/');
        lemma_find_pair_bounds(input, '*', '/');
        if i < input.len() {
            let a = trim(input.take(i), Blank::Ascii);
            let head = if a.len() > 0 {
                seq![SliceModel::Comment(a)]
            } else {
                e
            };
            lemma_block_delims_one(SliceModel::Comment(a));
            lemma_block_delims_one(SliceModel::BlockClose);
            let rest = parse_spec(input.skip(i + 2), false);
            lemma_parse_block_delims(input.skip(i + 2), false);
            lemma_block_delims_concat(head, seq![SliceModel::BlockClose]);
            lemma_block_delims_concat(head + seq![SliceModel::BlockClose], rest.0);
            let m = block_delims(rest.0);
            let all = seq![false] + m;
            assert(block_delims(head + seq![SliceModel::BlockClose] + rest.0) =~= all);
            assert(all.drop_first() =~= m);
            if m.len() > 0 {
                assert(all.last() == m.last());
            }
        } else {
            lemma_block_delims_one(SliceModel::Comment(trim(input, Blank::Ascii)));
        }
    } else {
        let l = find_pair(input, '/', '/');
        let c = find_pair(input, '/', '*');
        lemma_find_pair_bounds(input, '/', '/');
        lemma_find_pair_bounds(input, '/', '*');
        if l < input.len() && l < c {
            let a = trim(input.take(l), Blank::Ascii);
            let b = trim(input.skip(l + 2), Blank::Ascii);
            let head = if a.len() > 0 {
                seq![SliceModel::Text(a)]
            } else {
                e
            };
            let tail = if b.len() > 0 {
                seq![SliceModel::Comment(b)]
            } else {
                e
            };
            lemma_block_delims_one(SliceModel::Text(a));
            lemma_block_delims_one(SliceModel::Comment(b));
            lemma_block_delims_one(SliceModel::Line);
            lemma_block_delims_concat(head, seq![SliceModel::Line]);
            lemma_block_delims_concat(head + seq![SliceModel::Line], tail);
            assert(block_delims(head + seq![SliceModel::Line] + tail) =~= Seq::<bool>::empty());
        } else if c < input.len() {
            let a = trim(input.take(c), Blank::Ascii);
            let head = if a.len() > 0 {
                seq![SliceModel::Text(a)]
            } else {
                e
            };
            lemma_block_delims_one(SliceModel::Text(a));
            lemma_block_delims_one(SliceModel::BlockOpen);
            let rest = parse_spec(input.skip(c + 2), true);
            lemma_parse_block_delims(input.skip(c + 2), true);
            lemma_block_delims_concat(head, seq![SliceModel::BlockOpen]);
            lemma_block_delims_concat(head + seq![SliceModel::BlockOpen], rest.0);
            let m = block_delims(rest.0);
            let all = seq![true] + m;
            assert(block_delims(head + seq![SliceModel::BlockOpen] + rest.0) =~= all);
            assert(all.drop_first() =~= m);
            if m.len() > 0 {
                assert(all.last() == m.last());
            }
        } else {
            lemma_block_delims_one(SliceModel::Text(trim(input, Blank::Ascii)));
        }
    }
}

/// The first index at or after `from` where `a` is directly followed by `b`,
/// or `s.len()`.
fn find_pair_from(s: &[char], from: usize, a: char, b: char) -> (r: usize)
    requires
        from <= s@.len(),
    ensures
        r == from + find_pair(s@.skip(from as int), a, b),
{
    let n = s.len();
    let mut j = from;
    while j < n && j + 1 < n
        invariant
            from <= j <= n == s@.len(),
            forall|k: int| from <= k < j ==> !#[trigger] pair_at(s@, k, a, b),
        decreases n - j,
    {
        if s[j] == a && s[j + 1] == b {
            proof {
                let t = s@.skip(from as int);
                assert forall|k: int| 0 <= k < j - from implies !#[trigger] pair_at(t, k, a, b) by {
                    assert(!pair_at(s@, k + from, a, b));
                }
                lemma_find_pair_is(t, a, b, j - from);
            }
            return j;
        }
        j += 1;
    }
    proof {
        let t = s@.skip(from as int);
        assert forall|k: int| 0 <= k < n - from implies !#[trigger] pair_at(t, k, a, b) by {
            assert(!pair_at(s@, k + from, a, b));
        }
        lemma_find_pair_is(t, a, b, n - from);
    }
    n
}

/// Cuts a line into code text and comments.
///
/// `block_comment` tells whether a block comment is open at the start of the
/// line, and afterwards whether one is open at its end.
pub fn parse(input: &[char], block_comment: &mut bool) -> (r: Vec<Slice>)
    ensures
        slices_view(r@) == parse_spec(input@, *old(block_comment)).0,
        *final(block_comment) == parse_spec(input@, *old(block_comment)).1,
{
    let ghost b0 = *block_comment;
    let mut result: Vec<Slice> = Vec::new();
    let n = input.len();
    let mut pos: usize = 0;
    proof {
        assert(input@.skip(0) =~= input@);
        assert(slices_view(result@) + parse_spec(input@, b0).0 =~= parse_spec(input@, b0).0);
    }
    while pos < n
        invariant
            pos <= n == input@.len(),
            parse_spec(input@, b0).0 == slices_view(result@) + parse_spec(
                input@.skip(pos as int),
                *block_comment,
            ).0,
            parse_spec(input@, b0).1 == parse_spec(input@.skip(pos as int), *block_comment).1,
        decreases n - pos,
    {
        let ghost rest = input@.skip(pos as int);
        let ghost before = slices_view(result@);
        if *block_comment {
            let i = find_pair_from(input, pos, '*', '/');
            if i < n {
                proof {
                    lemma_find_pair_bounds(rest, '*', '/');
                    assert(rest.take(i - pos) =~= input@.subrange(pos as int, i as int));
                    assert(rest.skip(i - pos + 2) =~= input@.skip(i + 2));
                }
                let a = trimmed(input, pos, i, Blank::Ascii);
                if a.len() > 0 {
                    result.push(Slice::Comment(a));
                }
                result.push(Slice::BlockClose);
                proof {
                    let head = if a@.len() > 0 {
                        seq![SliceModel::Comment(a@)]
                    } else {
                        seq![]
                    };
                    assert(slices_view(result@) =~= before + head + seq![SliceModel::BlockClose]);
                }
                pos = i + 2;
                *block_comment = false;
            } else {
                let a = trimmed(input, pos, n, Blank::Ascii);
                proof {
                    assert(rest =~= input@.subrange(pos as int, n as int));
                }
                result.push(Slice::Comment(a));
                proof {
                    assert(slices_view(result@) =~= before + seq![SliceModel::Comment(a@)]);
                    assert(input@.skip(n as int) =~= seq![]);
                }
                pos = n;
            }
        } else {
            let l = find_pair_from(input, pos, '/', '/');
            let c = find_pair_from(input, pos, '/', '*');
            if l < n && l < c {
                proof {
                    lemma_find_pair_bounds(rest, '/', '/');
                    assert(rest.take(l - pos) =~= input@.subrange(pos as int, l as int));
                    assert(rest.skip(l - pos + 2) =~= input@.subrange(l + 2, n as int));
                }
                let a = trimmed(input, pos, l, Blank::Ascii);
                if a.len() > 0 {
                    result.push(Slice::Text(a));
                }
                result.push(Slice::Line);
                let b = trimmed(input, l + 2, n, Blank::Ascii);
                if b.len() > 0 {
                    result.push(Slice::Comment(b));
                }
                proof {
                    let head = if a@.len() > 0 {
                        seq![SliceModel::Text(a@)]
                    } else {
                        seq![]
                    };
                    let tail = if b@.len() > 0 {
                        seq![SliceModel::Comment(b@)]
                    } else {
                        seq![]
                    };
                    assert(slices_view(result@) =~= before + (head + seq![SliceModel::Line]
                        + tail));
                    assert(input@.skip(n as int) =~= seq![]);
                }
                pos = n;
            } else if c < n {
                proof {
                    lemma_find_pair_bounds(rest, '/', '*');
                    assert(rest.take(c - pos) =~= input@.subrange(pos as int, c as int));
                    assert(rest.skip(c - pos + 2) =~= input@.skip(c + 2));
                }
                let a = trimmed(input, pos, c, Blank::Ascii);
                if a.len() > 0 {
                    result.push(Slice::Text(a));
                }
                result.push(Slice::BlockOpen);
                proof {
                    let head = if a@.len() > 0 {
                        seq![SliceModel::Text(a@)]
                    } else {
                        seq![]
                    };
                    assert(slices_view(result@) =~= before + head + seq![SliceModel::BlockOpen]);
                }
                pos = c + 2;
                *block_comment = true;
            } else {
                let a = trimmed(input, pos, n, Blank::Ascii);
                proof {
                    assert(rest =~= input@.subrange(pos as int, n as int));
                }
                result.push(Slice::Text(a));
                proof {
                    assert(slices_view(result@) =~= before + seq![SliceModel::Text(a@)]);
                    assert(input@.skip(n as int) =~= seq![]);
                }
                pos = n;
            }
        }
    }
    result
}


// ---------------------------------------------------------------------------
// Braces
// ---------------------------------------------------------------------------

/// Opening minus closing braces in `t`.
pub open spec fn char_balance(t: Seq<char>) -> int
    decreases t.len(),
{
    if t.len() == 0 {
        0
    } else {
        char_balance(t.drop_last()) + if t.last() == '{' {
            1int
        } else if t.last() == '}' {
            -1int
        } else {
            0int
        }
    }
}

pub open spec fn slice_balance(s: SliceModel) -> int {
    match s {
        SliceModel::Text(t) => char_balance(t),
        _ => 0,
    }
}

/// Opening minus closing braces in the code text of `ps`; braces in
/// comments do not count.
pub open spec fn brace_balance(ps: Seq<SliceModel>) -> int
    decreases ps.len(),
{
    if ps.len() == 0 {
        0
    } else {
        brace_balance(ps.drop_last()) + slice_balance(ps.last())
    }
}

pub open spec fn slice_text_len(s: SliceModel) -> int {
    match s {
        SliceModel::Text(t) => t.len() as int,
        _ => 0,
    }
}

/// The number of characters of code text in `ps`.
pub open spec fn text_len(ps: Seq<SliceModel>) -> int
    decreases ps.len(),
{
    if ps.len() == 0 {
        0
    } else {
        text_len(ps.drop_last()) + slice_text_len(ps.last())
    }
}

proof fn lemma_char_balance_bound(t: Seq<char>)
    ensures
        -t.len() <= char_balance(t) <= t.len(),
    decreases t.len(),
{
    if t.len() > 0 {
        lemma_char_balance_bound(t.drop_last());
    }
}

proof fn lemma_text_len_nonneg(ps: Seq<SliceModel>)
    ensures
        0 <= text_len(ps),
    decreases ps.len(),
{
    if ps.len() > 0 {
        lemma_text_len_nonneg(ps.drop_last());
    }
}

proof fn lemma_text_len_concat(a: Seq<SliceModel>, b: Seq<SliceModel>)
    ensures
        text_len(a + b) == text_len(a) + text_len(b),
    decreases b.len(),
{
    if b.len() > 0 {
        lemma_text_len_concat(a, b.drop_last());
        assert((a + b).drop_last() =~= a + b.drop_last());
    } else {
        assert(a + b =~= a);
    }
}

proof fn lemma_text_len_single(x: SliceModel)
    ensures
        text_len(seq![x]) == slice_text_len(x),
{
    let s = seq![x];
    assert(s.drop_last() =~= Seq::<SliceModel>::empty());
    assert(s.last() == x);
    assert(text_len(s) == text_len(s.drop_last()) + slice_text_len(s.last()));
}

proof fn lemma_text_len_prefix(ps: Seq<SliceModel>, i: int)
    requires
        0 <= i <= ps.len(),
    ensures
        text_len(ps.take(i)) <= text_len(ps),
    decreases ps.len() - i,
{
    if i < ps.len() {
        lemma_text_len_prefix(ps, i + 1);
        assert(ps.take(i + 1).drop_last() =~= ps.take(i));
    } else {
        assert(ps.take(i) =~= ps);
    }
}

/// The code text of a parsed line is no longer than the line.
pub proof fn lemma_parse_text_len(input: Seq<char>, block: bool)
    ensures
        0 <= text_len(parse_spec(input, block).0) <= input.len(),
    decreases input.len(),
{
    lemma_text_len_nonneg(parse_spec(input, block).0);
    if input.len() == 0 {
    } else if block {
        let i = find_pair(input, '*', '/');
        lemma_find_pair_bounds(input, '*', '/');
        if i < input.len() {
            let a = trim(input.take(i), Blank::Ascii);
            let head = if a.len() > 0 {
                seq![SliceModel::Comment(a)]
            } else {
                seq![]
            };
            let rest = parse_spec(input.skip(i + 2), false);
            lemma_parse_text_len(input.skip(i + 2), false);
            lemma_text_len_concat(head + seq![SliceModel::BlockClose], rest.0);
            lemma_text_len_concat(head, seq![SliceModel::BlockClose]);
            lemma_text_len_single(SliceModel::BlockClose);
            if a.len() > 0 {
                lemma_text_len_single(SliceModel::Comment(a));
            }
        } else {
            lemma_text_len_single(SliceModel::Comment(trim(input, Blank::Ascii)));
        }
    } else {
        let l = find_pair(input, '/', '/');
        let c = find_pair(input, '/', '*');
        lemma_find_pair_bounds(input, '/', '/');
        lemma_find_pair_bounds(input, '/', '*');
        if l < input.len() && l < c {
            let a = trim(input.take(l), Blank::Ascii);
            let b = trim(input.skip(l + 2), Blank::Ascii);
            lemma_trim_len(input.take(l), Blank::Ascii);
            let head = if a.len() > 0 {
                seq![SliceModel::Text(a)]
            } else {
                seq![]
            };
            let tail = if b.len() > 0 {
                seq![SliceModel::Comment(b)]
            } else {
                seq![]
            };
            lemma_text_len_concat(head + seq![SliceModel::Line], tail);
            lemma_text_len_concat(head, seq![SliceModel::Line]);
            lemma_text_len_single(SliceModel::Line);
            if b.len() > 0 {
                lemma_text_len_single(SliceModel::Comment(b));
            }
            if a.len() > 0 {
                lemma_text_len_single(SliceModel::Text(a));
            }
        } else if c < input.len() {
            let a = trim(input.take(c), Blank::Ascii);
            lemma_trim_len(input.take(c), Blank::Ascii);
            let head = if a.len() > 0 {
                seq![SliceModel::Text(a)]
            } else {
                seq![]
            };
            let rest = parse_spec(input.skip(c + 2), true);
            lemma_parse_text_len(input.skip(c + 2), true);
            lemma_text_len_concat(head + seq![SliceModel::BlockOpen], rest.0);
            lemma_text_len_concat(head, seq![SliceModel::BlockOpen]);
            lemma_text_len_single(SliceModel::BlockOpen);
            if a.len() > 0 {
                lemma_text_len_single(SliceModel::Text(a));
            }
        } else {
            let t = trim(input, Blank::Ascii);
            lemma_trim_len(input, Blank::Ascii);
            lemma_text_len_single(SliceModel::Text(t));
        }
    }
}

/// Opening minus closing braces in the code text of a line.
pub fn braces(p0: &Vec<Slice>) -> (r: isize)
    requires
        text_len(slices_view(p0@)) <= isize::MAX,
    ensures
        r == brace_balance(slices_view(p0@)),
{
    let ghost v = slices_view(p0@);
    let mut sum: isize = 0;
    let mut i: usize = 0;
    while i < p0.len()
        invariant
            v == slices_view(p0@),
            i <= p0@.len(),
            text_len(v) <= isize::MAX,
            sum == brace_balance(v.take(i as int)),
            -text_len(v.take(i as int)) <= sum <= text_len(v.take(i as int)),
        decreases p0@.len() - i,
    {
        proof {
            lemma_text_len_prefix(v, i + 1);
            assert(v.take(i + 1).drop_last() =~= v.take(i as int));
            assert(v.take(i + 1).last() == v[i as int]);
        }
        match &p0[i] {
            Slice::Text(t) => {
                let ghost before = sum;
                let mut j: usize = 0;
                while j < t.len()
                    invariant
                        j <= t@.len(),
                        before + t@.len() <= isize::MAX,
                        -isize::MAX <= before - t@.len(),
                        sum == before + char_balance(t@.take(j as int)),
                    decreases t@.len() - j,
                {
                    proof {
                        assert(t@.take(j + 1).drop_last() =~= t@.take(j as int));
                        lemma_char_balance_bound(t@.take(j as int));
                    }
                    if t[j] == '{' {
                        sum = sum + 1;
                    } else if t[j] == '}' {
                        sum = sum - 1;
                    }
                    j += 1;
                }
                proof {
                    assert(t@.take(t@.len() as int) =~= t@);
                    lemma_char_balance_bound(t@);
                }
            },
            _ => {},
        }
        i += 1;
    }
    proof {
        assert(v.take(p0@.len() as int) =~= v);
    }
    sum
}


// ---------------------------------------------------------------------------
// Rendering a line
// ---------------------------------------------------------------------------

/// `s` with each run of pattern white space replaced by one space (what
/// replacing `\s+` by `" "` does); `in_run` tells whether such a run is
/// already under way before `s`.
pub open spec fn squeeze(s: Seq<char>, in_run: bool) -> Seq<char>
    decreases s.len(),
{
    if s.len() == 0 {
        seq![]
    } else if is_pattern_space(s[0]) {
        if in_run {
            squeeze(s.drop_first(), true)
        } else {
            seq![' '] + squeeze(s.drop_first(), true)
        }
    } else {
        seq![s[0]] + squeeze(s.drop_first(), false)
    }
}

/// `s` with each run of pattern white space replaced by one space.
pub open spec fn collapse_spaces(s: Seq<char>) -> Seq<char> {
    squeeze(s, false)
}

/// `s` with each pattern white space character replaced by a space (what
/// replacing `\s` by `" "` does).
pub open spec fn blank_spaces(s: Seq<char>) -> Seq<char> {
    s.map_values(|c: char|
        if is_pattern_space(c) {
            ' '
        } else {
            c
        })
}

/// A piece of code text between double quotes: outside quotes (even
/// pieces) white space runs become one space, inside quotes it stays.
pub open spec fn quote_piece(p: Seq<char>, i: int) -> Seq<char> {
    if i % 2 == 0 {
        collapse_spaces(p)
    } else {
        p
    }
}

/// The pieces of a code text joined again with double quotes.
pub open spec fn join_pieces(parts: Seq<Seq<char>>) -> Seq<char>
    decreases parts.len(),
{
    if parts.len() == 0 {
        seq![]
    } else if parts.len() == 1 {
        quote_piece(parts[0], 0)
    } else {
        join_pieces(parts.drop_last()) + seq!['"'] + quote_piece(
            parts.last(),
            parts.len() - 1,
        )
    }
}

/// How a slice is written out.
pub open spec fn render_slice(s: SliceModel) -> Seq<char> {
    match s {
        SliceModel::Text(t) => join_pieces(split_on(t, '"')) + seq![' '],
        SliceModel::Line => seq!['/', '/', ' '],
        SliceModel::BlockOpen => seq!['/', '*', ' '],
        SliceModel::BlockClose => seq!['*', '/', ' '],
        SliceModel::Comment(c) => blank_spaces(c) + seq![' '],
    }
}

pub open spec fn render_slices(ps: Seq<SliceModel>) -> Seq<char>
    decreases ps.len(),
{
    if ps.len() == 0 {
        seq![]
    } else {
        render_slices(ps.drop_last()) + render_slice(ps.last())
    }
}

pub open spec fn slice_has_colon(s: SliceModel) -> bool {
    match s {
        SliceModel::Text(t) => t.contains(':'),
        _ => false,
    }
}

/// Whether some code text of the line holds a colon (a label).
pub open spec fn has_colon(ps: Seq<SliceModel>) -> bool
    decreases ps.len(),
{
    ps.len() > 0 && (has_colon(ps.drop_last()) || slice_has_colon(ps.last()))
}

pub open spec fn spaces(n: int) -> Seq<char> {
    Seq::new(n as nat, |i: int| ' ')
}

/// One output line: the indentation, four more spaces where the line holds
/// no label, the slices, without trailing spaces, and a line feed.
pub open spec fn render_line(ps: Seq<SliceModel>, indent: int) -> Seq<char> {
    let pad = if has_colon(ps) {
        seq![]
    } else {
        spaces(4)
    };
    trim_end(spaces(4 * indent) + pad + render_slices(ps), Blank::Space) + seq!['\n']
}

// ---------------------------------------------------------------------------
// Rendering a whole text
// ---------------------------------------------------------------------------

/// The indentation of a line that balances `br` braces, after `indent`.
pub open spec fn indent_before(indent: int, br: int) -> int {
    if br < 0 {
        if indent + br < 0 {
            0
        } else {
            indent + br
        }
    } else {
        indent
    }
}

/// The indentation of the line after it.
pub open spec fn indent_after(indent: int, br: int) -> int {
    if br > 0 {
        indent_before(indent, br) + br
    } else {
        indent_before(indent, br)
    }
}

/// The output for the (trimmed) lines `ls`, given whether a block comment
/// is open before them and the indentation in force.
pub open spec fn render_lines(ls: Seq<Seq<char>>, block: bool, indent: int) -> Seq<char>
    decreases ls.len(),
{
    if ls.len() == 0 {
        seq![]
    } else {
        let (ps, b2) = parse_spec(ls[0], block);
        let br = brace_balance(ps);
        render_line(ps, indent_before(indent, br)) + render_lines(
            ls.drop_first(),
            b2,
            indent_after(indent, br),
        )
    }
}

/// The text without a leading byte order mark.
pub open spec fn strip_bom(s: Seq<char>) -> Seq<char> {
    if s.len() > 0 && s[0] == '\u{FEFF}' {
        s.drop_first()
    } else {
        s
    }
}

/// `ls` without its trailing empty lines.
pub open spec fn drop_trailing_empty(ls: Seq<Seq<char>>) -> Seq<Seq<char>>
    decreases ls.len(),
{
    if ls.len() > 0 && ls.last().len() == 0 {
        drop_trailing_empty(ls.drop_last())
    } else {
        ls
    }
}

/// The formatted form of a source text.
pub open spec fn format_spec(text: Seq<char>) -> Seq<char> {
    render_lines(drop_trailing_empty(trimmed_lines(strip_bom(text))), false, 0)
}


// ---------------------------------------------------------------------------
// Rendering, executable
// ---------------------------------------------------------------------------

/// Appends `p` with each run of pattern white space made one space.
fn push_collapsed(p: &[char], out: &mut Vec<char>)
    ensures
        final(out)@ == old(out)@ + collapse_spaces(p@),
{
    let ghost start = out@;
    let mut run = false;
    let mut i: usize = 0;
    proof {
        assert(p@.skip(0) =~= p@);
    }
    while i < p.len()
        invariant
            i <= p@.len(),
            start + collapse_spaces(p@) == out@ + squeeze(p@.skip(i as int), run),
        decreases p@.len() - i,
    {
        let ghost rest = p@.skip(i as int);
        proof {
            assert(rest[0] == p@[i as int]);
            assert(rest.drop_first() =~= p@.skip(i + 1));
        }
        let c = p[i];
        if pattern_space(c) {
            if !run {
                out.push(' ');
                proof {
                    assert(squeeze(rest, false) =~= seq![' '] + squeeze(p@.skip(i + 1), true));
                }
            }
            run = true;
        } else {
            out.push(c);
            proof {
                assert(squeeze(rest, run) =~= seq![c] + squeeze(p@.skip(i + 1), false));
            }
            run = false;
        }
        i += 1;
    }
    proof {
        assert(p@.skip(i as int) =~= Seq::<char>::empty());
        assert(out@ + Seq::<char>::empty() =~= out@);
    }
}

/// Appends `c` with each pattern white space character made a space.
fn push_blanked(c: &[char], out: &mut Vec<char>)
    ensures
        final(out)@ == old(out)@ + blank_spaces(c@),
{
    let ghost start = out@;
    let mut i: usize = 0;
    while i < c.len()
        invariant
            i <= c@.len(),
            out@ == start + blank_spaces(c@.take(i as int)),
        decreases c@.len() - i,
    {
        let x = c[i];
        if pattern_space(x) {
            out.push(' ');
        } else {
            out.push(x);
        }
        proof {
            assert(blank_spaces(c@.take(i + 1)) =~= blank_spaces(c@.take(i as int)).push(
                if is_pattern_space(x) {
                    ' '
                } else {
                    x
                },
            ));
        }
        i += 1;
    }
    proof {
        assert(c@.take(c@.len() as int) =~= c@);
    }
}

proof fn lemma_split_nonempty<A>(s: Seq<A>, sep: A)
    ensures
        split_on(s, sep).len() >= 1,
{
    crate::text::lemma_first_index_bounds(s, sep);
}

/// Appends the pieces of `t` between double quotes, re-joined.
fn push_text(t: &[char], out: &mut Vec<char>)
    ensures
        final(out)@ == old(out)@ + join_pieces(split_on(t@, '"')),
{
    let ghost start = out@;
    let ghost pv = split_on(t@, '"');
    let parts = split_chars(t, '"');
    proof {
        lemma_split_nonempty(t@, '"');
        assert(pv.take(0) =~= Seq::<Seq<char>>::empty());
        assert(out@ =~= start + join_pieces(pv.take(0)));
    }
    let mut k: usize = 0;
    while k < parts.len()
        invariant
            k <= parts@.len() == pv.len(),
            pv == split_on(t@, '"'),
            forall|i: int| 0 <= i < parts@.len() ==> #[trigger] parts@[i]@ == pv[i],
            out@ == start + join_pieces(pv.take(k as int)),
        decreases parts@.len() - k,
    {
        let ghost before = out@;
        if k > 0 {
            out.push('"');
        }
        let piece = parts[k].as_slice();
        if k % 2 == 0 {
            push_collapsed(piece, out);
        } else {
            let mut j: usize = 0;
            while j < piece.len()
                invariant
                    j <= piece@.len(),
                    out@ == (if k > 0 {
                        before + seq!['"']
                    } else {
                        before
                    }) + piece@.take(j as int),
                decreases piece@.len() - j,
            {
                out.push(piece[j]);
                proof {
                    assert(piece@.take(j + 1) =~= piece@.take(j as int).push(piece@[j as int]));
                }
                j += 1;
            }
            proof {
                assert(piece@.take(piece@.len() as int) =~= piece@);
            }
        }
        proof {
            let tk = pv.take(k + 1);
            assert(tk.last() == pv[k as int]);
            if k == 0 {
                assert(tk.len() == 1);
            } else {
                assert(tk.drop_last() =~= pv.take(k as int));
            }
            assert(out@ =~= start + join_pieces(tk));
        }
        k += 1;
    }
    proof {
        assert(pv.take(parts@.len() as int) =~= pv);
    }
}

/// Appends how `s` is written out.
fn push_slice(s: &Slice, out: &mut Vec<char>)
    ensures
        final(out)@ == old(out)@ + render_slice(s@),
{
    let ghost start = out@;
    match s {
        Slice::Text(t) => {
            push_text(t.as_slice(), out);
            out.push(' ');
            proof {
                assert(out@ =~= start + render_slice(s@));
            }
        },
        Slice::Line => {
            out.push('/');
            out.push('/');
            out.push(' ');
            proof {
                assert(out@ =~= start + render_slice(s@));
            }
        },
        Slice::BlockOpen => {
            out.push('/');
            out.push('*');
            out.push(' ');
            proof {
                assert(out@ =~= start + render_slice(s@));
            }
        },
        Slice::BlockClose => {
            out.push('*');
            out.push('/');
            out.push(' ');
            proof {
                assert(out@ =~= start + render_slice(s@));
            }
        },
        Slice::Comment(c) => {
            push_blanked(c.as_slice(), out);
            out.push(' ');
            proof {
                assert(out@ =~= start + render_slice(s@));
            }
        },
    }
}

/// Whether some code text of the line holds a colon.
fn slices_have_colon(ps: &Vec<Slice>) -> (r: bool)
    ensures
        r == has_colon(slices_view(ps@)),
{
    let ghost v = slices_view(ps@);
    let mut found = false;
    let mut i: usize = 0;
    while i < ps.len()
        invariant
            v == slices_view(ps@),
            i <= ps@.len(),
            found == has_colon(v.take(i as int)),
        decreases ps@.len() - i,
    {
        proof {
            assert(v.take(i + 1).drop_last() =~= v.take(i as int));
            assert(v.take(i + 1).last() == v[i as int]);
        }
        match &ps[i] {
            Slice::Text(t) => {
                let mut j: usize = 0;
                let mut colon = false;
                while j < t.len()
                    invariant
                        j <= t@.len(),
                        colon == t@.take(j as int).contains(':'),
                    decreases t@.len() - j,
                {
                    proof {
                        let a = t@.take(j as int);
                        let b = t@.take(j + 1);
                        assert(b =~= a.push(t@[j as int]));
                        if a.contains(':') {
                            let w = choose|w: int| 0 <= w < a.len() && a[w] == ':';
                            assert(b[w] == ':');
                        }
                        if t@[j as int] == ':' {
                            assert(b[j as int] == ':');
                        }
                        if b.contains(':') && t@[j as int] != ':' {
                            let w = choose|w: int| 0 <= w < b.len() && b[w] == ':';
                            assert(a[w] == ':');
                        }
                    }
                    if t[j] == ':' {
                        colon = true;
                    }
                    j += 1;
                }
                proof {
                    assert(t@.take(t@.len() as int) =~= t@);
                }
                if colon {
                    found = true;
                }
            },
            _ => {},
        }
        i += 1;
    }
    proof {
        assert(v.take(ps@.len() as int) =~= v);
    }
    found
}

/// Appends one formatted line.
fn push_line(ps: &Vec<Slice>, indent: isize, out: &mut Vec<char>)
    requires
        indent >= 0,
    ensures
        final(out)@ == old(out)@ + render_line(slices_view(ps@), indent as int),
{
    let ghost v = slices_view(ps@);
    let mut cur: Vec<char> = Vec::new();
    let mut j: isize = 0;
    while j < indent
        invariant
            0 <= j <= indent,
            cur@ == spaces(4 * j),
        decreases indent - j,
    {
        cur.push(' ');
        cur.push(' ');
        cur.push(' ');
        cur.push(' ');
        proof {
            assert(cur@ =~= spaces(4 * (j + 1)));
        }
        j += 1;
    }
    let colon = slices_have_colon(ps);
    if !colon {
        cur.push(' ');
        cur.push(' ');
        cur.push(' ');
        cur.push(' ');
    }
    let ghost pad = if has_colon(v) {
        Seq::<char>::empty()
    } else {
        spaces(4)
    };
    proof {
        assert(cur@ =~= spaces(4 * indent) + pad);
    }
    let ghost head = cur@;
    let mut i: usize = 0;
    while i < ps.len()
        invariant
            v == slices_view(ps@),
            i <= ps@.len(),
            cur@ == head + render_slices(v.take(i as int)),
        decreases ps@.len() - i,
    {
        push_slice(&ps[i], &mut cur);
        proof {
            assert(v.take(i + 1).drop_last() =~= v.take(i as int));
            assert(v.take(i + 1).last() == v[i as int]);
            assert(cur@ =~= head + render_slices(v.take(i + 1)));
        }
        i += 1;
    }
    proof {
        assert(v.take(ps@.len() as int) =~= v);
    }
    let ghost full = cur@;
    while cur.len() > 0 && cur[cur.len() - 1] == ' '
        invariant
            trim_end(full, Blank::Space) == trim_end(cur@, Blank::Space),
        decreases cur@.len(),
    {
        proof {
            assert(cur@.drop_last() =~= cur@.subrange(0, cur@.len() - 1));
        }
        cur.pop();
    }
    proof {
        assert(trim_end(cur@, Blank::Space) == cur@);
    }
    cur.push('\n');
    out.append(&mut cur);
}


// ---------------------------------------------------------------------------
// The whole text
// ---------------------------------------------------------------------------

/// The total length of the lines `ls`.
pub open spec fn sum_lens(ls: Seq<Seq<char>>) -> int
    decreases ls.len(),
{
    if ls.len() == 0 {
        0
    } else {
        ls[0].len() + sum_lens(ls.drop_first())
    }
}

proof fn lemma_sum_lens_nonneg(ls: Seq<Seq<char>>)
    ensures
        sum_lens(ls) >= 0,
    decreases ls.len(),
{
    if ls.len() > 0 {
        lemma_sum_lens_nonneg(ls.drop_first());
    }
}

proof fn lemma_sum_lens_split(s: Seq<char>, sep: char)
    ensures
        sum_lens(split_on(s, sep)) <= s.len(),
    decreases s.len(),
{
    let i = crate::text::first_index(s, sep);
    crate::text::lemma_first_index_bounds(s, sep);
    if i >= s.len() {
        let one = seq![s];
        assert(split_on(s, sep) == one);
        assert(one.drop_first() =~= Seq::<Seq<char>>::empty());
        assert(sum_lens(one) == one[0].len() + sum_lens(one.drop_first()));
    } else {
        let rest = split_on(s.skip(i + 1), sep);
        let all = seq![s.take(i)] + rest;
        assert(split_on(s, sep) == all);
        lemma_sum_lens_split(s.skip(i + 1), sep);
        assert(all.drop_first() =~= rest);
        assert(all[0] == s.take(i));
        assert(sum_lens(all) == all[0].len() + sum_lens(all.drop_first()));
    }
}

proof fn lemma_sum_lens_take(ls: Seq<Seq<char>>, m: int)
    requires
        0 <= m <= ls.len(),
    ensures
        sum_lens(ls.take(m)) <= sum_lens(ls),
    decreases ls.len(),
{
    lemma_sum_lens_nonneg(ls);
    if m > 0 {
        assert(ls.take(m).drop_first() =~= ls.drop_first().take(m - 1));
        lemma_sum_lens_take(ls.drop_first(), m - 1);
    } else {
        assert(ls.take(m) =~= Seq::<Seq<char>>::empty());
    }
}

proof fn lemma_sum_lens_trim(ls: Seq<Seq<char>>)
    ensures
        sum_lens(ls.map_values(|l: Seq<char>| trim(l, Blank::Unicode))) <= sum_lens(ls),
    decreases ls.len(),
{
    if ls.len() > 0 {
        let m = ls.map_values(|l: Seq<char>| trim(l, Blank::Unicode));
        assert(m.drop_first() =~= ls.drop_first().map_values(
            |l: Seq<char>| trim(l, Blank::Unicode),
        ));
        lemma_sum_lens_trim(ls.drop_first());
        lemma_trim_len(ls[0], Blank::Unicode);
    }
}

proof fn lemma_drop_trailing_empty(ls: Seq<Seq<char>>, m: int)
    requires
        0 <= m <= ls.len(),
        drop_trailing_empty(ls) == drop_trailing_empty(ls.take(m)),
        m == 0 || ls[m - 1].len() != 0,
    ensures
        drop_trailing_empty(ls) == ls.take(m),
{
}

proof fn lemma_balance_bound(ps: Seq<SliceModel>)
    ensures
        -text_len(ps) <= brace_balance(ps) <= text_len(ps),
    decreases ps.len(),
{
    if ps.len() > 0 {
        lemma_balance_bound(ps.drop_last());
        match ps.last() {
            SliceModel::Text(t) => lemma_char_balance_bound(t),
            _ => {},
        }
    }
}

/// Formats an assembler source text: every line is trimmed and indented by
/// four spaces per open brace, lines without a label get four more spaces,
/// runs of white space in code outside string literals become one space,
/// white space in comments becomes spaces, trailing spaces and trailing
/// empty lines are dropped and every line ends with a line feed.
pub fn format_source(source: &str) -> (r: String)
    requires
        source@.len() <= isize::MAX,
    ensures
        r@ == format_spec(source@),
{
    let chars = chars_of(source);
    let body = if chars.len() > 0 && chars[0] == '\u{FEFF}' {
        copy_range(chars.as_slice(), 1, chars.len())
    } else {
        copy_range(chars.as_slice(), 0, chars.len())
    };
    proof {
        assert(body@ =~= strip_bom(source@));
    }
    let ghost text = body@;
    let parts = split_chars(body.as_slice(), '\n');
    let ghost pv = split_on(text, '\n');
    proof {
        lemma_split_nonempty(text, '\n');
    }
    let nparts = parts.len();
    let nlines = if parts[nparts - 1].len() == 0 {
        nparts - 1
    } else {
        nparts
    };
    proof {
        assert(split_lines(text) =~= pv.take(nlines as int));
    }
    let ghost tl = trimmed_lines(text);
    let mut lines: Vec<Vec<char>> = Vec::new();
    let mut i: usize = 0;
    while i < nlines
        invariant
            nlines <= parts@.len() == pv.len(),
            pv == split_on(text, '\n'),
            tl == trimmed_lines(text),
            split_lines(text) == pv.take(nlines as int),
            forall|k: int| 0 <= k < parts@.len() ==> #[trigger] parts@[k]@ == pv[k],
            i <= nlines,
            lines@.len() == i,
            forall|k: int| 0 <= k < i ==> #[trigger] lines@[k]@ == tl[k],
        decreases nlines - i,
    {
        let part = parts[i].as_slice();
        let t = trimmed(part, 0, part.len(), Blank::Unicode);
        proof {
            assert(part@.subrange(0, part@.len() as int) =~= part@);
        }
        lines.push(t);
        i += 1;
    }
    let mut m: usize = nlines;
    proof {
        assert(tl.take(m as int) =~= tl);
    }
    while m > 0 && lines[m - 1].len() == 0
        invariant
            m <= nlines == lines@.len() == tl.len(),
            forall|k: int| 0 <= k < nlines ==> #[trigger] lines@[k]@ == tl[k],
            drop_trailing_empty(tl) == drop_trailing_empty(tl.take(m as int)),
        decreases m,
    {
        proof {
            assert(tl.take(m as int).drop_last() =~= tl.take(m - 1));
        }
        m -= 1;
    }
    let ghost ls = tl.take(m as int);
    proof {
        lemma_drop_trailing_empty(tl, m as int);
        lemma_sum_lens_split(text, '\n');
        lemma_sum_lens_take(pv, nlines as int);
        lemma_sum_lens_trim(pv.take(nlines as int));
        lemma_sum_lens_take(tl, m as int);
        assert(ls.skip(0) =~= ls);
        lemma_sum_lens_nonneg(ls);
    }
    let mut out: Vec<char> = Vec::new();
    let mut block = false;
    let mut indent: isize = 0;
    let mut j: usize = 0;
    while j < m
        invariant
            m <= lines@.len(),
            ls == tl.take(m as int),
            ls.len() == m,
            forall|k: int| 0 <= k < m ==> #[trigger] lines@[k]@ == ls[k],
            sum_lens(ls) <= isize::MAX,
            j <= m,
            0 <= indent,
            indent + sum_lens(ls.skip(j as int)) <= sum_lens(ls),
            render_lines(ls, false, 0) == out@ + render_lines(ls.skip(j as int), block, indent as int),
        decreases m - j,
    {
        let ghost rest = ls.skip(j as int);
        proof {
            assert(rest[0] == ls[j as int]);
            assert(rest.drop_first() =~= ls.skip(j + 1));
            lemma_sum_lens_nonneg(ls.skip(j + 1));
        }
        let line = lines[j].as_slice();
        let ghost b0 = block;
        let ps = parse(line, &mut block);
        proof {
            lemma_parse_text_len(line@, b0);
            lemma_balance_bound(slices_view(ps@));
        }
        let br = braces(&ps);
        let ind1: isize = if br < 0 {
            if indent + br < 0 {
                0
            } else {
                indent + br
            }
        } else {
            indent
        };
        push_line(&ps, ind1, &mut out);
        indent = if br > 0 {
            ind1 + br
        } else {
            ind1
        };
        j += 1;
    }
    proof {
        assert(ls.skip(m as int) =~= Seq::<Seq<char>>::empty());
        assert(out@ + Seq::<char>::empty() =~= out@);
    }
    string_of(out.as_slice())
}

/// Whether two character sequences are equal.
fn same_chars(a: &[char], b: &[char]) -> (r: bool)
    ensures
        r == (a@ == b@),
{
    if a.len() != b.len() {
        return false;
    }
    let mut i: usize = 0;
    while i < a.len()
        invariant
            i <= a@.len() == b@.len(),
            forall|k: int| 0 <= k < i ==> a@[k] == b@[k],
        decreases a@.len() - i,
    {
        if a[i] != b[i] {
            return false;
        }
        i += 1;
    }
    proof {
        assert(a@ =~= b@);
    }
    true
}

/// Whether a file with this extension is an assembler source: only
/// extension `asm` is.
pub fn is_source_extension(extension: &str) -> (r: bool)
    ensures
        r == (extension@ == "asm"@),
{
    let wanted = "asm";
    proof {
        reveal_strlit("asm");
    }
    let a = chars_of(extension);
    let b = chars_of(wanted);
    same_chars(a.as_slice(), b.as_slice())
}

/// What to write back to a source file: its formatted text where that
/// differs from it, nothing where the file is formatted already.
pub fn reformatted(source: &str) -> (r: Option<String>)
    requires
        source@.len() <= isize::MAX,
    ensures
        match r {
            None => format_spec(source@) == source@,
            Some(t) => t@ == format_spec(source@) && t@ != source@,
        },
{
    let formatted = format_source(source);
    let a = chars_of(formatted.as_str());
    let b = chars_of(source);
    if same_chars(a.as_slice(), b.as_slice()) {
        None
    } else {
        Some(formatted)
    }
}

// ---------------------------------------------------------------------------
// Laws of a line
// ---------------------------------------------------------------------------

/// Only code text makes a label: a line has a label exactly where one of
/// its code texts holds a colon; colons in comments do not count.
pub proof fn lemma_has_colon_is(ps: Seq<SliceModel>)
    ensures
        has_colon(ps) <==> exists|k: int|
            0 <= k < ps.len() && (#[trigger] ps[k] matches SliceModel::Text(t) && t.contains(':')),
    decreases ps.len(),
{
    if ps.len() > 0 {
        let q = ps.drop_last();
        lemma_has_colon_is(q);
        if has_colon(q) {
            let k = choose|k: int|
                0 <= k < q.len() && (#[trigger] q[k] matches SliceModel::Text(t) && t.contains(':'));
            assert(ps[k] == q[k]);
        }
        if slice_has_colon(ps.last()) {
            assert(ps[ps.len() - 1] == ps.last());
        }
        if exists|k: int|
            0 <= k < ps.len() && (#[trigger] ps[k] matches SliceModel::Text(t) && t.contains(':')) {
            let k = choose|k: int|
                0 <= k < ps.len() && (#[trigger] ps[k] matches SliceModel::Text(t) && t.contains(':'));
            if k < ps.len() - 1 {
                assert(q[k] == ps[k]);
            }
        }
    }
}

/// A slice that is not code text leaves the label question as it was.
pub proof fn lemma_has_colon_push(ps: Seq<SliceModel>, x: SliceModel)
    ensures
        has_colon(ps.push(x)) == (has_colon(ps) || (x matches SliceModel::Text(t) && t.contains(
            ':',
        ))),
{
    assert(ps.push(x).drop_last() =~= ps);
}

/// Braces are counted in every code text of a line, wherever it stands, and
/// nowhere else: the balance of two runs of slices is the sum of theirs.
pub proof fn lemma_brace_balance_concat(a: Seq<SliceModel>, b: Seq<SliceModel>)
    ensures
        brace_balance(a + b) == brace_balance(a) + brace_balance(b),
    decreases b.len(),
{
    if b.len() == 0 {
        assert(a + b =~= a);
    } else {
        lemma_brace_balance_concat(a, b.drop_last());
        assert((a + b).drop_last() =~= a + b.drop_last());
        assert((a + b).last() == b.last());
    }
}

/// The balance of one slice: that of its text for code text, nothing for
/// comments and comment markers.
pub proof fn lemma_brace_balance_one(x: SliceModel)
    ensures
        brace_balance(seq![x]) == match x {
            SliceModel::Text(t) => char_balance(t),
            _ => 0,
        },
{
    assert(seq![x].drop_last() =~= Seq::<SliceModel>::empty());
    assert(brace_balance(Seq::<SliceModel>::empty()) == 0);
    assert(seq![x].last() == x);
}

/// Each `{` counts one up, each `}` one down, wherever it stands.
pub proof fn lemma_char_balance_concat(a: Seq<char>, b: Seq<char>)
    ensures
        char_balance(a + b) == char_balance(a) + char_balance(b),
        char_balance(seq!['{']) == 1,
        char_balance(seq!['}']) == -1,
        forall|c: char| c != '{' && c != '}' ==> char_balance(#[trigger] seq![c]) == 0,
    decreases b.len(),
{
    assert(char_balance(Seq::<char>::empty()) == 0);
    assert(seq!['{'].drop_last() =~= Seq::<char>::empty());
    assert(seq!['{'].last() == '{');
    assert(seq!['}'].drop_last() =~= Seq::<char>::empty());
    assert(seq!['}'].last() == '}');
    assert forall|c: char| c != '{' && c != '}' implies char_balance(#[trigger] seq![c]) == 0 by {
        assert(seq![c].drop_last() =~= Seq::<char>::empty());
        assert(seq![c].last() == c);
    }
    if b.len() == 0 {
        assert(a + b =~= a);
    } else {
        lemma_char_balance_concat(a, b.drop_last());
        assert((a + b).drop_last() =~= a + b.drop_last());
        assert((a + b).last() == b.last());
    }
}

/// Outside a block comment, a `/*` before any `//` opens a block comment:
/// the line starts with the code text before it, if any, then the opening
/// marker.
pub proof fn lemma_parse_block_first(input: Seq<char>, k: int)
    requires
        pair_at(input, k, '/', '*'),
        forall|j: int| 0 <= j < k ==> !pair_at(input, j, '/', '*') && !pair_at(input, j, '/', '/'),
    ensures
        ({
            let ps = parse_spec(input, false).0;
            let a = trim(input.take(k), Blank::Ascii);
            if a.len() > 0 {
                ps.len() >= 2 && ps[0] == SliceModel::Text(a) && ps[1] == SliceModel::BlockOpen
            } else {
                ps.len() >= 1 && ps[0] == SliceModel::BlockOpen
            }
        }),
{
    assert forall|j: int| 0 <= j < k implies !#[trigger] pair_at(input, j, '/', '*') by {}
    lemma_find_pair_is(input, '/', '*', k);
    let l = find_pair(input, '/', '/');
    lemma_find_pair_bounds(input, '/', '/');
    if l < input.len() && l <= k {
        assert(pair_at(input, l, '/', '/'));
    }
    let a = trim(input.take(k), Blank::Ascii);
    let rest = parse_spec(input.skip(k + 2), true);
    let head = if a.len() > 0 {
        seq![SliceModel::Text(a)]
    } else {
        seq![]
    };
    let ps = head + seq![SliceModel::BlockOpen] + rest.0;
    assert(parse_spec(input, false).0 == ps);
    if a.len() > 0 {
        assert(ps[0] == SliceModel::Text(a));
        assert(ps[1] == SliceModel::BlockOpen);
    } else {
        assert(ps[0] == SliceModel::BlockOpen);
    }
}

/// Outside a block comment, a `//` before any `/*` makes the rest of the
/// line a comment: the code text before it, if any, the marker, then the
/// rest as one comment, if any.
pub proof fn lemma_parse_line_first(input: Seq<char>, k: int)
    requires
        pair_at(input, k, '/', '/'),
        forall|j: int| 0 <= j < k ==> !pair_at(input, j, '/', '*') && !pair_at(input, j, '/', '/'),
    ensures
        ({
            let a = trim(input.take(k), Blank::Ascii);
            let b = trim(input.skip(k + 2), Blank::Ascii);
            parse_spec(input, false) == ((if a.len() > 0 {
                seq![SliceModel::Text(a)]
            } else {
                seq![]
            }) + seq![SliceModel::Line] + (if b.len() > 0 {
                seq![SliceModel::Comment(b)]
            } else {
                seq![]
            }), false)
        }),
{
    assert forall|j: int| 0 <= j < k implies !#[trigger] pair_at(input, j, '/', '/') by {}
    lemma_find_pair_is(input, '/', '/', k);
    let c = find_pair(input, '/', '*');
    lemma_find_pair_bounds(input, '/', '*');
    if c < input.len() && c <= k {
        assert(pair_at(input, c, '/', '*'));
    }
}

proof fn lemma_squeeze_concat(a: Seq<char>, b: Seq<char>, in_run: bool)
    ensures
        squeeze(a + b, in_run) == squeeze(a, in_run) + squeeze(
            b,
            if a.len() > 0 {
                is_pattern_space(a.last())
            } else {
                in_run
            },
        ),
    decreases a.len(),
{
    if a.len() == 0 {
        assert(a + b =~= b);
        assert(squeeze(a, in_run) + squeeze(b, in_run) =~= squeeze(b, in_run));
    } else {
        let t = a.drop_first();
        lemma_squeeze_concat(t, b, is_pattern_space(a[0]));
        assert((a + b).drop_first() =~= t + b);
        assert((a + b)[0] == a[0]);
        if t.len() > 0 {
            assert(t.last() == a.last());
        } else {
            assert(a.last() == a[0]);
        }
        let head = if is_pattern_space(a[0]) {
            if in_run {
                Seq::<char>::empty()
            } else {
                seq![' ']
            }
        } else {
            seq![a[0]]
        };
        assert(squeeze(a, in_run) == head + squeeze(t, is_pattern_space(a[0])));
        assert(squeeze(a + b, in_run) == head + squeeze(t + b, is_pattern_space(a[0])));
        let r2 = if a.len() > 0 {
            is_pattern_space(a.last())
        } else {
            in_run
        };
        assert(head + (squeeze(t, is_pattern_space(a[0])) + squeeze(b, r2)) =~= (head + squeeze(
            t,
            is_pattern_space(a[0]),
        )) + squeeze(b, r2));
    }
}

proof fn lemma_squeeze_plain(s: Seq<char>, in_run: bool)
    requires
        forall|k: int| 0 <= k < s.len() ==> !is_pattern_space(#[trigger] s[k]),
    ensures
        squeeze(s, in_run) == s,
    decreases s.len(),
{
    if s.len() > 0 {
        assert(!is_pattern_space(s[0]));
        assert forall|k: int| 0 <= k < s.drop_first().len() implies !is_pattern_space(
            #[trigger] s.drop_first()[k],
        ) by {
            assert(s.drop_first()[k] == s[k + 1]);
        }
        lemma_squeeze_plain(s.drop_first(), false);
        assert(seq![s[0]] + s.drop_first() =~= s);
    }
}

proof fn lemma_squeeze_blank_run(w: Seq<char>, in_run: bool)
    requires
        w.len() > 0,
        forall|k: int| 0 <= k < w.len() ==> is_pattern_space(#[trigger] w[k]),
    ensures
        squeeze(w, in_run) == if in_run {
            Seq::<char>::empty()
        } else {
            seq![' ']
        },
    decreases w.len(),
{
    let t = w.drop_first();
    assert(is_pattern_space(w[0]));
    if t.len() > 0 {
        assert forall|k: int| 0 <= k < t.len() implies is_pattern_space(#[trigger] t[k]) by {
            assert(t[k] == w[k + 1]);
        }
        lemma_squeeze_blank_run(t, true);
    }
    if !in_run {
        assert(seq![' '] + Seq::<char>::empty() =~= seq![' ']);
    }
}

/// Code text without white space is left as it is.
pub proof fn lemma_collapse_plain(s: Seq<char>)
    requires
        forall|k: int| 0 <= k < s.len() ==> !is_pattern_space(#[trigger] s[k]),
    ensures
        collapse_spaces(s) == s,
{
    lemma_squeeze_plain(s, false);
}

/// A run of white space between two parts, each of which starts and ends
/// with something else, becomes exactly one space; the parts are normalised
/// on their own.
pub proof fn lemma_collapse_run(a: Seq<char>, w: Seq<char>, b: Seq<char>)
    requires
        w.len() > 0,
        forall|k: int| 0 <= k < w.len() ==> is_pattern_space(#[trigger] w[k]),
        a.len() > 0 ==> !is_pattern_space(a.last()),
        b.len() > 0 ==> !is_pattern_space(b[0]),
    ensures
        collapse_spaces(a + w + b) == collapse_spaces(a) + seq![' '] + collapse_spaces(b),
{
    lemma_squeeze_concat(a + w, b, false);
    lemma_squeeze_concat(a, w, false);
    lemma_squeeze_blank_run(w, false);
    assert((a + w).last() == w.last());
    if b.len() > 0 {
        assert(squeeze(b, true) == seq![b[0]] + squeeze(b.drop_first(), false));
        assert(squeeze(b, false) == seq![b[0]] + squeeze(b.drop_first(), false));
    }
}

proof fn lemma_trim_end_after(x: Seq<char>, y: Seq<char>)
    requires
        exists|k: int| 0 <= k < y.len() && y[k] != ' ',
    ensures
        trim_end(x + y, Blank::Space) == x + trim_end(y, Blank::Space),
    decreases y.len(),
{
    assert((x + y).last() == y.last());
    assert((x + y).drop_last() =~= x + y.drop_last());
    if y.last() == ' ' {
        let k = choose|k: int| 0 <= k < y.len() && y[k] != ' ';
        assert(k < y.len() - 1);
        assert(y.drop_last()[k] == y[k]);
        lemma_trim_end_after(x, y.drop_last());
    }
}

/// A line is indented by four spaces per open brace, four more where its
/// code text holds no label, and then holds its slices, without trailing
/// spaces.
pub proof fn lemma_render_line_indent(ps: Seq<SliceModel>, indent: int)
    requires
        indent >= 0,
        exists|k: int| 0 <= k < render_slices(ps).len() && render_slices(ps)[k] != ' ',
    ensures
        render_line(ps, indent) == spaces(
            4 * indent + if has_colon(ps) {
                0int
            } else {
                4int
            },
        ) + trim_end(render_slices(ps), Blank::Space) + seq!['\n'],
{
    let pad = if has_colon(ps) {
        Seq::<char>::empty()
    } else {
        spaces(4)
    };
    let n = 4 * indent + if has_colon(ps) {
        0int
    } else {
        4int
    };
    assert(spaces(4 * indent) + pad =~= spaces(n));
    lemma_trim_end_after(spaces(n), render_slices(ps));
    assert(spaces(4 * indent) + pad + render_slices(ps) =~= spaces(n) + render_slices(ps));
}

} // verus!
