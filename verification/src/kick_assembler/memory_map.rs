//! The memory map that KickAssembler prints with `-showmem`.
//!
//! Each region line `  [*]$LLLL-$HHHH NAME` is echoed with its size; gaps
//! named `FREE` are summed and shown as free memory; a region that ends with
//! `(page N)` must fit inside one aligned block of `N` bytes. The run counts
//! as successful when KickAssembler reports that it writes the symbol file.
use crate::text::split_on;
use vstd::prelude::*;
use vstd::utf8::valid_utf8;

verus! {

// ---------------------------------------------------------------------------
// Digits
// ---------------------------------------------------------------------------

pub open spec fn is_hex_byte(b: u8) -> bool {
    (('0' as u8) <= b && b <= ('9' as u8)) || (('a' as u8) <= b && b <= ('f' as u8)) || (('A' as u8) <= b && b <= ('F' as u8))
}

pub open spec fn is_dec_byte(b: u8) -> bool {
    ('0' as u8) <= b && b <= ('9' as u8)
}

pub open spec fn hex_byte_value(b: u8) -> int {
    if ('0' as u8) <= b && b <= ('9' as u8) {
        b - ('0' as u8)
    } else if ('a' as u8) <= b && b <= ('f' as u8) {
        b - ('a' as u8) + 10
    } else {
        b - ('A' as u8) + 10
    }
}

/// The value of the digits `s` in base 16 (`hex`) or 10.
pub open spec fn digits_value(s: Seq<u8>, hex: bool) -> int
    decreases s.len(),
{
    if s.len() == 0 {
        0
    } else {
        digits_value(s.drop_last(), hex) * (if hex {
            16int
        } else {
            10int
        }) + hex_byte_value(s.last())
    }
}

proof fn lemma_digits_value_grows(s: Seq<u8>, hex: bool, i: int, j: int)
    requires
        0 <= i <= j <= s.len(),
        forall|k: int| 0 <= k < s.len() ==> is_hex_byte(#[trigger] s[k]),
    ensures
        0 <= digits_value(s.take(i), hex) <= digits_value(s.take(j), hex),
    decreases j - i,
{
    if i < j {
        lemma_digits_value_grows(s, hex, i, j - 1);
        assert(s.take(j).drop_last() =~= s.take(j - 1));
        assert(is_hex_byte(s[j - 1]));
        assert(s.take(j).last() == s[j - 1]);
    } else {
        lemma_digits_value_nonneg(s.take(i), hex);
    }
}

proof fn lemma_digits_value_nonneg(s: Seq<u8>, hex: bool)
    requires
        forall|k: int| 0 <= k < s.len() ==> is_hex_byte(#[trigger] s[k]),
    ensures
        0 <= digits_value(s, hex),
    decreases s.len(),
{
    if s.len() > 0 {
        let t = s.drop_last();
        assert forall|k: int| 0 <= k < t.len() implies is_hex_byte(#[trigger] t[k]) by {
            assert(t[k] == s[k]);
        }
        lemma_digits_value_nonneg(t, hex);
        assert(is_hex_byte(s[s.len() - 1]));
    }
}

/// The decimal digits of `n`.
pub open spec fn dec_digits(n: nat) -> Seq<u8>
    decreases n,
{
    if n < 10 {
        seq![(('0' as u8) + n) as u8]
    } else {
        dec_digits(n / 10) + seq![(('0' as u8) + n % 10) as u8]
    }
}

/// `n` in decimal, right-aligned in five columns (as `{:5}` writes a `u16`).
pub open spec fn pad5(n: u16) -> Seq<u8> {
    Seq::new((5 - dec_digits(n as nat).len()) as nat, |i: int| (' ' as u8)) + dec_digits(n as nat)
}

pub open spec fn hex_char_lower(d: int) -> u8 {
    if d < 10 {
        (('0' as u8) + d) as u8
    } else {
        (('a' as u8) + d - 10) as u8
    }
}

/// `n` as four lower case hexadecimal digits (as `{:04x}` writes a `u16`).
pub open spec fn hex4(n: u16) -> Seq<u8> {
    seq![
        hex_char_lower((n / 4096) as int),
        hex_char_lower(((n / 256) % 16) as int),
        hex_char_lower(((n / 16) % 16) as int),
        hex_char_lower((n % 16) as int),
    ]
}

// ---------------------------------------------------------------------------
// The lines
// ---------------------------------------------------------------------------

/// A line of output without the carriage return of a CR LF line end.
pub open spec fn strip_cr(l: Seq<u8>) -> Seq<u8> {
    if l.len() > 0 && l.last() == ('\r' as u8) {
        l.drop_last()
    } else {
        l
    }
}

pub open spec fn all_hex(s: Seq<u8>) -> bool {
    forall|k: int| 0 <= k < s.len() ==> is_hex_byte(#[trigger] s[k])
}

pub open spec fn all_dec(s: Seq<u8>) -> bool {
    forall|k: int| 0 <= k < s.len() ==> is_dec_byte(#[trigger] s[k])
}

/// A region line `  [*]$LLLL-$HHHH NAME` (the pattern
/// `^ {2}(\*?)\$([0-9a-fA-F]{4})-\$([0-9a-fA-F]{4}) (.*)$`): whether it is
/// virtual, the two addresses as written, and the name.
pub open spec fn region_line(l: Seq<u8>) -> Option<(bool, Seq<u8>, Seq<u8>, Seq<u8>)> {
    if l.len() < 2 || l[0] != (' ' as u8) || l[1] != (' ' as u8) {
        None
    } else {
        let virt = l.len() > 2 && l[2] == ('*' as u8);
        let o: int = if virt {
            3
        } else {
            2
        };
        if l.len() < o + 12 {
            None
        } else {
            let lo = l.subrange(o + 1, o + 5);
            let hi = l.subrange(o + 7, o + 11);
            if l[o] == ('$' as u8) && all_hex(lo) && l[o + 5] == ('-' as u8) && l[o + 6] == ('$' as u8) && all_hex(hi)
                && l[o + 11] == (' ' as u8) {
                Some((virt, lo, hi, l.skip(o + 12)))
            } else {
                None
            }
        }
    }
}

/// The number of hexadecimal digits at the end of `s`.
pub open spec fn trailing_hex(s: Seq<u8>) -> int
    decreases s.len(),
{
    if s.len() > 0 && is_hex_byte(s.last()) {
        1 + trailing_hex(s.drop_last())
    } else {
        0
    }
}

pub open spec fn ends_with(s: Seq<u8>, suffix: Seq<u8>) -> bool {
    s.len() >= suffix.len() && s.skip(s.len() - suffix.len()) == suffix
}

pub open spec fn page_open() -> Seq<u8> {
    seq![('(' as u8), ('p' as u8), ('a' as u8), ('g' as u8), ('e' as u8), (' ' as u8)]
}

/// A line that ends in `(page N)`, with `N` written as `$HEX`, `0xHEX` or
/// decimal (the pattern `\(page (((\$|0x)([0-9a-fA-F]+))|(()([0-9]+)))\)$`):
/// whether `N` is hexadecimal, and its digits.
pub open spec fn page_clause(l: Seq<u8>) -> Option<(bool, Seq<u8>)> {
    if l.len() == 0 || l.last() != (')' as u8) {
        None
    } else {
        let body = l.drop_last();
        let k = trailing_hex(body);
        let pre = body.take(body.len() - k);
        let digits = body.skip(body.len() - k);
        if k == 0 {
            None
        } else if ends_with(pre, page_open() + seq![('$' as u8)]) || ends_with(
            pre,
            page_open() + seq![('0' as u8), ('x' as u8)],
        ) {
            Some((true, digits))
        } else if ends_with(pre, page_open()) && all_dec(digits) {
            Some((false, digits))
        } else {
            None
        }
    }
}

pub open spec fn writing_symbol() -> Seq<u8> {
    seq![('W' as u8), ('r' as u8), ('i' as u8), ('t' as u8), ('i' as u8), ('n' as u8), ('g' as u8), (' ' as u8), ('S' as u8), ('y' as u8), ('m' as u8), ('b' as u8), ('o' as u8), ('l' as u8)]
}

pub open spec fn free_name() -> Seq<u8> {
    seq![('F' as u8), ('R' as u8), ('E' as u8), ('E' as u8)]
}

pub open spec fn total_free_text() -> Seq<u8> {
    seq![
        ('T' as u8),
        ('o' as u8),
        ('t' as u8),
        ('a' as u8),
        ('l' as u8),
        (' ' as u8),
        ('F' as u8),
        ('r' as u8),
        ('e' as u8),
        ('e' as u8),
        (' ' as u8),
        ('m' as u8),
        ('e' as u8),
        ('m' as u8),
        ('o' as u8),
        ('r' as u8),
        ('y' as u8),
        (' ' as u8),
    ]
}

// ---------------------------------------------------------------------------
// The state of the reading
// ---------------------------------------------------------------------------

/// Why the memory map is not accepted.
#[derive(Debug)]
pub enum MapError {
    /// An arithmetic overflow stops the reading: the free memory count
    /// passes `0xFFFF`, a free gap is followed by a region that starts below
    /// the gap or at address 0, or a page clause gives page size 0.
    Overflow,
    /// The number of a page clause does not fit in 16 bits.
    PageNumberTooLarge,
    /// A page size that is not a power of two.
    InvalidPageDefinition { line: Vec<u8> },
    /// A region that crosses a page boundary.
    InvalidPageUsage { line: Vec<u8> },
    /// KickAssembler did not report writing the symbol file.
    NotIdentified,
}

/// [`MapError`] as values.
pub enum MapErrorModel {
    Overflow,
    PageNumberTooLarge,
    InvalidPageDefinition(Seq<u8>),
    InvalidPageUsage(Seq<u8>),
    NotIdentified,
}

impl View for MapError {
    type V = MapErrorModel;

    open spec fn view(&self) -> MapErrorModel {
        match self {
            MapError::Overflow => MapErrorModel::Overflow,
            MapError::PageNumberTooLarge => MapErrorModel::PageNumberTooLarge,
            MapError::InvalidPageDefinition { line } => MapErrorModel::InvalidPageDefinition(
                line@,
            ),
            MapError::InvalidPageUsage { line } => MapErrorModel::InvalidPageUsage(line@),
            MapError::NotIdentified => MapErrorModel::NotIdentified,
        }
    }
}

/// Where the reading stands: a `FREE` gap waiting for its end (its start
/// and its start as written), the free memory so far, and whether the symbol
/// file was reported.
pub struct MapModel {
    pub pending: Option<(u16, Seq<u8>)>,
    pub free: u16,
    pub ok: bool,
}

/// The line printed for a `FREE` gap from `last` (written `p`) up to `lo`.
pub open spec fn gap_line(p: Seq<u8>, last: int, lo: int) -> Seq<u8> {
    seq![(' ' as u8), (' ' as u8)] + p + seq![('-' as u8)] + hex4((lo - 1) as u16) + seq![
        (' ' as u8),
    ] + pad5((lo - last) as u16) + seq![(' ' as u8)] + free_name() + seq![('\n' as u8)]
}

/// Closing a pending `FREE` gap at a region that starts at `lo`: the line
/// printed for it and the free memory after it, or `None` where the count
/// overflows.
pub open spec fn close_gap(st: MapModel, lo: int) -> Option<(Seq<u8>, u16)> {
    match st.pending {
        None => Some((seq![], st.free)),
        Some((last, p)) => if lo < last || st.free + (lo - last) > 65535 || lo == 0 {
            None
        } else {
            Some((gap_line(p, last as int, lo), (st.free + (lo - last)) as u16))
        },
    }
}

/// The line printed for a region: the addresses as written and its size.
pub open spec fn region_text(vch: u8, lo_hex: Seq<u8>, hi_hex: Seq<u8>, name: Seq<u8>) -> Seq<u8> {
    let lo = digits_value(lo_hex, true);
    let hi = digits_value(hi_hex, true);
    seq![(' ' as u8), (' ' as u8), vch] + lo_hex + seq![('-' as u8)] + hi_hex + seq![(' ' as u8)]
        + pad5(((hi + 1 - lo) % 65536) as u16) + seq![(' ' as u8)] + name + seq![('\n' as u8)]
}

/// The check of a page clause on a region from `lo` to `hi`: `None` where the
/// line has none or the region fits its page.
pub open spec fn page_check(line: Seq<u8>, lo: int, hi: int) -> Option<MapErrorModel> {
    match page_clause(line) {
        None => None,
        Some((is_hex, digits)) => {
            let v = digits_value(digits, is_hex);
            if v > 65535 {
                Some(MapErrorModel::PageNumberTooLarge)
            } else if v == 0 {
                Some(MapErrorModel::Overflow)
            } else {
                let page = v as u16;
                let mask = !((page - 1) as u16);
                if page & mask != page {
                    Some(MapErrorModel::InvalidPageDefinition(line))
                } else if (lo as u16) & mask != (hi as u16) & mask {
                    Some(MapErrorModel::InvalidPageUsage(line))
                } else {
                    None
                }
            }
        },
    }
}

/// The output for one line and the state after it, or where the line stops
/// the reading.
#[verifier::opaque]
pub open spec fn step_spec(st: MapModel, line: Seq<u8>) -> (Seq<u8>, Result<MapModel, MapErrorModel>) {
    let nl = seq![('\n' as u8)];
    if !valid_utf8(line) {
        (line + nl, Ok(st))
    } else {
        match region_line(line) {
            None => (
                line + nl,
                Ok(
                    MapModel {
                        ok: st.ok || (line.len() >= 14 && line.take(14) == writing_symbol()),
                        ..st
                    },
                ),
            ),
            Some((virt, lo_hex, hi_hex, name)) => {
                let lo = digits_value(lo_hex, true);
                let hi = digits_value(hi_hex, true);
                match close_gap(st, lo) {
                    None => (seq![], Err(MapErrorModel::Overflow)),
                    Some((out1, free1)) => {
                        let vch: u8 = if virt {
                            ('*' as u8)
                        } else {
                            (' ' as u8)
                        };
                        let (pending2, out2) = if name == free_name() {
                            (Some((lo as u16, seq![vch] + lo_hex)), seq![])
                        } else {
                            (None, region_text(vch, lo_hex, hi_hex, name))
                        };
                        let st2 = MapModel { pending: pending2, free: free1, ok: st.ok };
                        match page_check(line, lo, hi) {
                            None => (out1 + out2, Ok(st2)),
                            Some(e) => (out1 + out2, Err(e)),
                        }
                    },
                }
            },
        }
    }
}

/// The output for the lines `ls` and how the reading ends.
pub open spec fn run_spec(ls: Seq<Seq<u8>>, st: MapModel) -> (Seq<u8>, Result<u16, MapErrorModel>)
    decreases ls.len(),
{
    if ls.len() == 0 {
        if st.ok {
            (total_free_text() + dec_digits(st.free as nat) + seq![('\n' as u8)], Ok(st.free))
        } else {
            (seq![], Err(MapErrorModel::NotIdentified))
        }
    } else {
        let (out, next) = step_spec(st, strip_cr(ls[0]));
        match next {
            Err(e) => (out, Err(e)),
            Ok(st2) => {
                let (rest, r) = run_spec(ls.drop_first(), st2);
                (out + rest, r)
            },
        }
    }
}

proof fn lemma_run_cons(l: Seq<u8>, rest: Seq<Seq<u8>>, st: MapModel)
    ensures
        run_spec(seq![l] + rest, st) == match step_spec(st, strip_cr(l)).1 {
            Err(e) => (step_spec(st, strip_cr(l)).0, Err(e)),
            Ok(st2) => (
                step_spec(st, strip_cr(l)).0 + run_spec(rest, st2).0,
                run_spec(rest, st2).1,
            ),
        },
{
    let ls = seq![l] + rest;
    assert(ls[0] == l);
    assert(ls.drop_first() =~= rest);
}

/// With a page size that is a power of two, `2^j`, a region passes the page
/// check exactly when its first and last address lie in the same page, and
/// is otherwise refused for its page usage.
pub proof fn lemma_page_check_power(line: Seq<u8>, lo: u16, hi: u16, j: u16)
    requires
        j < 16,
        page_clause(line) matches Some((h, d)) && digits_value(d, h) == (1u16 << j) as int,
    ensures
        page_check(line, lo as int, hi as int) is None <==> (lo >> j) == (hi >> j),
        page_check(line, lo as int, hi as int) is Some ==> page_check(line, lo as int, hi as int)
            == Some(MapErrorModel::InvalidPageUsage(line)),
{
    let page: u16 = 1u16 << j;
    assert(page != 0 && page & !((page - 1) as u16) == page && ((lo & !((page - 1) as u16)) == (hi
        & !((page - 1) as u16)) <==> (lo >> j) == (hi >> j))) by (bit_vector)
        requires
            j < 16,
            page == 1u16 << j,
    ;
}

/// A page size that is not a power of two is refused as a page definition,
/// whatever the region.
pub proof fn lemma_page_check_not_power(line: Seq<u8>, lo: int, hi: int)
    requires
        page_clause(line) matches Some((h, d)) && 0 < digits_value(d, h) <= 0xffff && ((
        digits_value(d, h) as u16) & ((digits_value(d, h) - 1) as u16)) != 0,
    ensures
        page_check(line, lo, hi) == Some(MapErrorModel::InvalidPageDefinition(line)),
{
    let page = match page_clause(line) {
        Some((h, d)) => digits_value(d, h) as u16,
        None => 0u16,
    };
    assert(page != 0 && page & ((page - 1) as u16) != 0 ==> page & !((page - 1) as u16) != page)
        by (bit_vector);
}

/// Closing a `FREE` gap at a region starting at `lo` adds the gap's size,
/// `lo` less the gap's start, to the free memory counted so far; without a
/// gap the count stays. It fails only where the gap would end below its
/// start or at address 0, or the count would pass `0xFFFF`.
pub proof fn lemma_close_gap_adds(st: MapModel, lo: int)
    ensures
        match st.pending {
            None => close_gap(st, lo) matches Some((o, f)) && f == st.free && o.len() == 0,
            Some((last, p)) => {
                &&& close_gap(st, lo) is Some <==> (last <= lo && lo != 0 && st.free + (lo - last)
                    <= 0xffff)
                &&& close_gap(st, lo) matches Some((o, f)) ==> f == st.free + (lo - last)
            },
        },
{
}

/// One line of the memory map adds to the free memory exactly the size of
/// the `FREE` gap that its region closes, and nothing where it closes none.
pub proof fn lemma_step_free(st: MapModel, line: Seq<u8>)
    ensures
        step_spec(st, line).1 matches Ok(st2) ==> st2.free == st.free + if valid_utf8(line) {
            match (region_line(line), st.pending) {
                (Some((v, lo_hex, hi_hex, name)), Some((last, p))) => digits_value(lo_hex, true)
                    - last,
                _ => 0int,
            }
        } else {
            0int
        },
{
    reveal(step_spec);
    if valid_utf8(line) {
        match region_line(line) {
            Some((v, lo_hex, hi_hex, name)) => {
                lemma_close_gap_adds(st, digits_value(lo_hex, true));
            },
            None => {},
        }
    }
}

/// A run of memory map lines ends, where it succeeds, with at least the
/// free memory it started with: gaps only add to the count.
pub proof fn lemma_run_free_grows(ls: Seq<Seq<u8>>, st: MapModel)
    ensures
        run_spec(ls, st).1 matches Ok(f) ==> f >= st.free,
    decreases ls.len(),
{
    if ls.len() > 0 {
        let line = strip_cr(ls[0]);
        lemma_step_free(st, line);
        match step_spec(st, line).1 {
            Ok(st2) => {
                lemma_run_free_grows(ls.drop_first(), st2);
                reveal(step_spec);
                if valid_utf8(line) {
                    match region_line(line) {
                        Some((v, lo_hex, hi_hex, name)) => {
                            lemma_close_gap_adds(st, digits_value(lo_hex, true));
                        },
                        None => {},
                    }
                }
            },
            Err(_) => {},
        }
    }
}

/// What reading the standard output of KickAssembler prints and gives.
pub open spec fn memory_map_spec(stdout: Seq<u8>) -> (Seq<u8>, Result<u16, MapErrorModel>) {
    run_spec(split_on(stdout, ('\n' as u8)), MapModel { pending: None, free: 0, ok: false })
}


// ---------------------------------------------------------------------------
// Reading, executable
// ---------------------------------------------------------------------------

/// `std::str::from_utf8` accepts a byte sequence exactly when it is
/// well-formed UTF-8; this states that its verdict is vstd's `valid_utf8`.
#[verifier::external_body]
fn is_utf8(bytes: &[u8]) -> (r: bool)
    ensures
        r == valid_utf8(bytes@),
{
    std::str::from_utf8(bytes).is_ok()
}

fn hex_byte(b: u8) -> (r: bool)
    ensures
        r == is_hex_byte(b),
{
    (('0' as u8) <= b && b <= ('9' as u8)) || (('a' as u8) <= b && b <= ('f' as u8)) || (('A' as u8) <= b && b <= ('F' as u8))
}

fn hex_value(b: u8) -> (r: u32)
    requires
        is_hex_byte(b),
    ensures
        r == hex_byte_value(b),
        r < 16,
{
    if ('0' as u8) <= b && b <= ('9' as u8) {
        (b - ('0' as u8)) as u32
    } else if ('a' as u8) <= b && b <= ('f' as u8) {
        (b - ('a' as u8) + 10) as u32
    } else {
        (b - ('A' as u8) + 10) as u32
    }
}

/// Whether `l[from..to]` are all hexadecimal digits.
fn hex_range(l: &[u8], from: usize, to: usize) -> (r: bool)
    requires
        from <= to <= l@.len(),
    ensures
        r == all_hex(l@.subrange(from as int, to as int)),
{
    let mut i = from;
    while i < to
        invariant
            from <= i <= to <= l@.len(),
            forall|k: int| from <= k < i ==> is_hex_byte(#[trigger] l@[k]),
        decreases to - i,
    {
        if !hex_byte(l[i]) {
            proof {
                assert(!is_hex_byte(l@.subrange(from as int, to as int)[i - from]));
            }
            return false;
        }
        i += 1;
    }
    proof {
        let t = l@.subrange(from as int, to as int);
        assert forall|k: int| 0 <= k < t.len() implies is_hex_byte(#[trigger] t[k]) by {
            assert(t[k] == l@[k + from]);
        }
    }
    true
}

/// The value of the digits `l[from..to]`, or `None` where it exceeds 65535.
fn digits_u16(l: &[u8], from: usize, to: usize, hex: bool) -> (r: Option<u16>)
    requires
        from <= to <= l@.len(),
        all_hex(l@.subrange(from as int, to as int)),
    ensures
        match r {
            Some(v) => v == digits_value(l@.subrange(from as int, to as int), hex),
            None => digits_value(l@.subrange(from as int, to as int), hex) > 65535,
        },
{
    let ghost d = l@.subrange(from as int, to as int);
    let base: u32 = if hex {
        16
    } else {
        10
    };
    let mut v: u32 = 0;
    let mut i = from;
    proof {
        assert(d.take(0) =~= Seq::<u8>::empty());
    }
    while i < to
        invariant
            from <= i <= to <= l@.len(),
            d == l@.subrange(from as int, to as int),
            all_hex(d),
            base == if hex {
                16u32
            } else {
                10u32
            },
            v == digits_value(d.take(i - from), hex),
            v <= 65535,
        decreases to - i,
    {
        proof {
            assert(d.take(i - from + 1).drop_last() =~= d.take(i - from));
            assert(d.take(i - from + 1).last() == l@[i as int]);
            assert(is_hex_byte(d[i - from]));
        }
        let x = hex_value(l[i]);
        let nv = v * base + x;
        if nv > 65535 {
            proof {
                lemma_digits_value_grows(d, hex, i - from + 1, d.len() as int);
                assert(d.take(d.len() as int) =~= d);
            }
            return None;
        }
        v = nv;
        i += 1;
    }
    proof {
        assert(d.take(to - from) =~= d);
    }
    Some(v as u16)
}

/// The offset of the first `$` of a region line, and whether it is virtual.
fn region(l: &[u8]) -> (r: Option<(bool, usize)>)
    ensures
        match r {
            Some((virt, o)) => o == (if virt {
                3usize
            } else {
                2usize
            }) && o + 12 <= l@.len() && region_line(l@) == Some(
                (
                    virt,
                    l@.subrange(o + 1, o + 5),
                    l@.subrange(o + 7, o + 11),
                    l@.skip(o + 12),
                ),
            ),
            None => region_line(l@) is None,
        },
{
    let n = l.len();
    if n < 2 || l[0] != (' ' as u8) || l[1] != (' ' as u8) {
        return None;
    }
    let virt = n > 2 && l[2] == ('*' as u8);
    let o: usize = if virt {
        3
    } else {
        2
    };
    if n < o + 12 {
        return None;
    }
    if l[o] == ('$' as u8) && hex_range(l, o + 1, o + 5) && l[o + 5] == ('-' as u8) && l[o + 6] == ('$' as u8)
        && hex_range(l, o + 7, o + 11) && l[o + 11] == (' ' as u8) {
        Some((virt, o))
    } else {
        None
    }
}

/// The value of the four hexadecimal digits at `l[from..from + 4]`.
fn value4(l: &[u8], from: usize) -> (r: u16)
    requires
        from + 4 <= l@.len(),
        all_hex(l@.subrange(from as int, from + 4)),
    ensures
        r == digits_value(l@.subrange(from as int, from + 4), true),
{
    let ghost d = l@.subrange(from as int, from + 4);
    proof {
        assert forall|k: int| 0 <= k < 4 implies is_hex_byte(#[trigger] l@[from + k]) by {
            assert(l@[from + k] == d[k]);
        }
        let d3 = d.drop_last();
        let d2 = d3.drop_last();
        let d1 = d2.drop_last();
        let d0 = d1.drop_last();
        assert(d0 =~= Seq::<u8>::empty());
        assert(digits_value(d0, true) == 0);
        assert(d1.last() == l@[from as int]);
        assert(d2.last() == l@[from + 1]);
        assert(d3.last() == l@[from + 2]);
        assert(d.last() == l@[from + 3]);
        assert(digits_value(d1, true) == hex_byte_value(l@[from as int]));
        assert(digits_value(d2, true) == digits_value(d1, true) * 16 + hex_byte_value(
            l@[from + 1],
        ));
        assert(digits_value(d3, true) == digits_value(d2, true) * 16 + hex_byte_value(
            l@[from + 2],
        ));
        assert(digits_value(d, true) == digits_value(d3, true) * 16 + hex_byte_value(
            l@[from + 3],
        ));
    }
    let a = hex_value(l[from]);
    let b = hex_value(l[from + 1]);
    let c = hex_value(l[from + 2]);
    let e = hex_value(l[from + 3]);
    (((a * 16 + b) * 16 + c) * 16 + e) as u16
}

proof fn lemma_trailing_hex_is(s: Seq<u8>, k: int)
    requires
        0 <= k <= s.len(),
        forall|j: int| s.len() - k <= j < s.len() ==> is_hex_byte(#[trigger] s[j]),
        k < s.len() ==> !is_hex_byte(s[s.len() - k - 1]),
    ensures
        trailing_hex(s) == k,
    decreases s.len(),
{
    if k > 0 {
        let t = s.drop_last();
        assert(is_hex_byte(s[s.len() - 1]));
        assert forall|j: int| t.len() - (k - 1) <= j < t.len() implies is_hex_byte(
            #[trigger] t[j],
        ) by {
            assert(t[j] == s[j]);
        }
        if k - 1 < t.len() {
            assert(t[t.len() - (k - 1) - 1] == s[s.len() - k - 1]);
        }
        lemma_trailing_hex_is(t, k - 1);
    }
}

/// Whether `l[..end]` ends with `suffix`.
fn ends_with_at(l: &[u8], end: usize, suffix: &[u8]) -> (r: bool)
    requires
        end <= l@.len(),
    ensures
        r == ends_with(l@.take(end as int), suffix@),
{
    let m = suffix.len();
    if end < m {
        return false;
    }
    let start = end - m;
    let mut i: usize = 0;
    while i < m
        invariant
            i <= m == suffix@.len(),
            start + m == end <= l@.len(),
            forall|k: int| 0 <= k < i ==> l@[start + k] == suffix@[k],
        decreases m - i,
    {
        if l[start + i] != suffix[i] {
            proof {
                assert(l@.take(end as int).skip(start as int)[i as int] == l@[start + i]);
            }
            return false;
        }
        i += 1;
    }
    proof {
        assert(l@.take(end as int).skip(start as int) =~= suffix@);
    }
    true
}

/// Whether `l[from..to]` are all decimal digits.
fn dec_range(l: &[u8], from: usize, to: usize) -> (r: bool)
    requires
        from <= to <= l@.len(),
    ensures
        r == all_dec(l@.subrange(from as int, to as int)),
{
    let mut i = from;
    while i < to
        invariant
            from <= i <= to <= l@.len(),
            forall|k: int| from <= k < i ==> is_dec_byte(#[trigger] l@[k]),
        decreases to - i,
    {
        if !(('0' as u8) <= l[i] && l[i] <= ('9' as u8)) {
            proof {
                assert(!is_dec_byte(l@.subrange(from as int, to as int)[i - from]));
            }
            return false;
        }
        i += 1;
    }
    proof {
        let t = l@.subrange(from as int, to as int);
        assert forall|k: int| 0 <= k < t.len() implies is_dec_byte(#[trigger] t[k]) by {
            assert(t[k] == l@[k + from]);
        }
    }
    true
}

/// The page clause of a line: whether its number is hexadecimal, and where
/// its digits stand.
fn page(l: &[u8]) -> (r: Option<(bool, usize, usize)>)
    ensures
        match r {
            Some((is_hex, from, to)) => from <= to <= l@.len() && page_clause(l@) == Some(
                (is_hex, l@.subrange(from as int, to as int)),
            ) && all_hex(l@.subrange(from as int, to as int)),
            None => page_clause(l@) is None,
        },
{
    let n = l.len();
    if n == 0 || l[n - 1] != (')' as u8) {
        return None;
    }
    let end = n - 1;
    let ghost body = l@.drop_last();
    let mut j = end;
    while j > 0 && hex_byte(l[j - 1])
        invariant
            j <= end == n - 1,
            n == l@.len(),
            forall|k: int| j <= k < end ==> is_hex_byte(#[trigger] l@[k]),
        decreases j,
    {
        j -= 1;
    }
    proof {
        assert(body =~= l@.take(end as int));
        assert forall|k: int| body.len() - (end - j) <= k < body.len() implies is_hex_byte(
            #[trigger] body[k],
        ) by {
            assert(body[k] == l@[k]);
        }
        lemma_trailing_hex_is(body, end - j);
        assert(body.take(j as int) =~= l@.take(j as int));
        assert(body.skip(j as int) =~= l@.subrange(j as int, end as int));
        let t = l@.subrange(j as int, end as int);
        assert forall|k: int| 0 <= k < t.len() implies is_hex_byte(#[trigger] t[k]) by {
            assert(t[k] == l@[j + k]);
        }
    }
    if j == end {
        return None;
    }
    let dollar: [u8; 7] = [('(' as u8), ('p' as u8), ('a' as u8), ('g' as u8), ('e' as u8), (' ' as u8), ('$' as u8)];
    let zero_x: [u8; 8] = [('(' as u8), ('p' as u8), ('a' as u8), ('g' as u8), ('e' as u8), (' ' as u8), ('0' as u8), ('x' as u8)];
    let plain: [u8; 6] = [('(' as u8), ('p' as u8), ('a' as u8), ('g' as u8), ('e' as u8), (' ' as u8)];
    proof {
        assert(dollar@ =~= page_open() + seq![('$' as u8)]);
        assert(zero_x@ =~= page_open() + seq![('0' as u8), ('x' as u8)]);
        assert(plain@ =~= page_open());
    }
    if ends_with_at(l, j, dollar.as_slice()) || ends_with_at(l, j, zero_x.as_slice()) {
        return Some((true, j, end));
    }
    if ends_with_at(l, j, plain.as_slice()) {
        if !dec_range(l, j, end) {
            return None;
        }
        return Some((false, j, end));
    }
    None
}

/// Appends the decimal digits of `v`.
fn push_dec(v: u32, out: &mut Vec<u8>)
    ensures
        final(out)@ == old(out)@ + dec_digits(v as nat),
    decreases v,
{
    if v >= 10 {
        push_dec(v / 10, out);
    }
    out.push(('0' as u8) + (v % 10) as u8);
    proof {
        assert(final(out)@ =~= old(out)@ + dec_digits(v as nat));
    }
}

proof fn lemma_dec_digits_len(n: nat)
    ensures
        n <= 65535 ==> 1 <= dec_digits(n).len() <= 5,
        n < 10 ==> dec_digits(n).len() == 1,
        10 <= n < 100 ==> dec_digits(n).len() == 2,
        100 <= n < 1000 ==> dec_digits(n).len() == 3,
        1000 <= n < 10000 ==> dec_digits(n).len() == 4,
        10000 <= n < 100000 ==> dec_digits(n).len() == 5,
    decreases n,
{
    if n >= 10 {
        lemma_dec_digits_len(n / 10);
    }
}

/// Appends `v` right-aligned in five columns.
fn push_pad5(v: u16, out: &mut Vec<u8>)
    ensures
        final(out)@ == old(out)@ + pad5(v),
{
    let ghost start = out@;
    proof {
        lemma_dec_digits_len(v as nat);
    }
    let width: usize = if v < 10 {
        1
    } else if v < 100 {
        2
    } else if v < 1000 {
        3
    } else if v < 10000 {
        4
    } else {
        5
    };
    let mut i: usize = width;
    while i < 5
        invariant
            width <= i <= 5,
            width == dec_digits(v as nat).len(),
            out@ == start + Seq::new((i - width) as nat, |q: int| (' ' as u8)),
        decreases 5 - i,
    {
        out.push(' ' as u8);
        proof {
            assert(out@ =~= start + Seq::new((i + 1 - width) as nat, |q: int| (' ' as u8)));
        }
        i += 1;
    }
    push_dec(v as u32, out);
    proof {
        assert(out@ =~= start + pad5(v));
    }
}

fn hex_lower(d: u16) -> (r: u8)
    requires
        d < 16,
    ensures
        r == hex_char_lower(d as int),
{
    if d < 10 {
        ('0' as u8) + d as u8
    } else {
        ('a' as u8) + (d - 10) as u8
    }
}

/// Appends `v` as four lower case hexadecimal digits.
fn push_hex4(v: u16, out: &mut Vec<u8>)
    ensures
        final(out)@ == old(out)@ + hex4(v),
{
    let ghost start = out@;
    out.push(hex_lower(v / 4096));
    out.push(hex_lower((v / 256) % 16));
    out.push(hex_lower((v / 16) % 16));
    out.push(hex_lower(v % 16));
    proof {
        assert(out@ =~= start + hex4(v));
    }
}

/// Appends `l[from..to]`.
fn push_range(l: &[u8], from: usize, to: usize, out: &mut Vec<u8>)
    requires
        from <= to <= l@.len(),
    ensures
        final(out)@ == old(out)@ + l@.subrange(from as int, to as int),
{
    let ghost start = out@;
    let mut i = from;
    while i < to
        invariant
            from <= i <= to <= l@.len(),
            out@ == start + l@.subrange(from as int, i as int),
        decreases to - i,
    {
        out.push(l[i]);
        proof {
            assert(out@ =~= start + l@.subrange(from as int, i + 1));
        }
        i += 1;
    }
}

/// The reading state.
struct MapState {
    pending: Option<(u16, Vec<u8>)>,
    free: u16,
    ok: bool,
}

spec fn state_model(s: MapState) -> MapModel {
    MapModel {
        pending: match s.pending {
            Some((a, p)) => Some((a, p@)),
            None => None,
        },
        free: s.free,
        ok: s.ok,
    }
}

/// Closes a pending `FREE` gap at a region that starts at `lo`; false where
/// the count overflows.
fn close_pending(st: &mut MapState, lo: u16, out: &mut Vec<u8>) -> (r: bool)
    ensures
        match close_gap(state_model(*old(st)), lo as int) {
            None => !r && final(out)@ == old(out)@,
            Some((o, f)) => r && final(out)@ == old(out)@ + o && final(st).free == f
                && final(st).pending is None && final(st).ok == old(st).ok,
        },
{
    let ghost out0 = out@;
    let pending = st.pending.take();
    match pending {
        None => true,
        Some((last, p)) => {
            if lo < last || (st.free as u32) + ((lo - last) as u32) > 65535 || lo == 0 {
                return false;
            }
            st.free = st.free + (lo - last);
            out.push(' ' as u8);
            out.push(' ' as u8);
            push_range(p.as_slice(), 0, p.len(), out);
            out.push('-' as u8);
            push_hex4(lo - 1, out);
            out.push(' ' as u8);
            push_pad5(lo - last, out);
            out.push(' ' as u8);
            out.push('F' as u8);
            out.push('R' as u8);
            out.push('E' as u8);
            out.push('E' as u8);
            out.push('\n' as u8);
            proof {
                assert(p@.subrange(0, p@.len() as int) =~= p@);
                assert(out@ =~= out0 + gap_line(p@, last as int, lo as int));
            }
            true
        },
    }
}

/// Appends the line printed for a region.
fn push_region(line: &[u8], o: usize, vch: u8, lo: u16, hi: u16, out: &mut Vec<u8>)
    requires
        o + 12 <= line@.len(),
        lo == digits_value(line@.subrange(o + 1, o + 5), true),
        hi == digits_value(line@.subrange(o + 7, o + 11), true),
    ensures
        final(out)@ == old(out)@ + region_text(
            vch,
            line@.subrange(o + 1, o + 5),
            line@.subrange(o + 7, o + 11),
            line@.skip(o + 12),
        ),
{
    let ghost out0 = out@;
    let n = line.len();
    out.push(' ' as u8);
    out.push(' ' as u8);
    out.push(vch);
    push_range(line, o + 1, o + 5, out);
    out.push('-' as u8);
    push_range(line, o + 7, o + 11, out);
    out.push(' ' as u8);
    let size = ((hi as u32 + 65537 - lo as u32) % 65536) as u16;
    push_pad5(size, out);
    out.push(' ' as u8);
    push_range(line, o + 12, n, out);
    out.push('\n' as u8);
    proof {
        assert(line@.subrange(o + 12, n as int) =~= line@.skip(o + 12));
        assert((hi as u32 + 65537 - lo as u32) % 65536 == (hi + 1 - lo) % 65536);
        assert(out@ =~= out0 + region_text(
            vch,
            line@.subrange(o + 1, o + 5),
            line@.subrange(o + 7, o + 11),
            line@.skip(o + 12),
        ));
    }
}

/// Checks the page clause of a region line.
fn check_page(line: &[u8], lo: u16, hi: u16) -> (r: Result<(), MapError>)
    ensures
        match r {
            Ok(()) => page_check(line@, lo as int, hi as int) is None,
            Err(e) => page_check(line@, lo as int, hi as int) == Some(e@),
        },
{
    match page(line) {
        None => Ok(()),
        Some((is_hex, from, to)) => {
            match digits_u16(line, from, to, is_hex) {
                None => Err(MapError::PageNumberTooLarge),
                Some(pg) => {
                    if pg == 0 {
                        return Err(MapError::Overflow);
                    }
                    let mask: u16 = !(pg - 1);
                    let n = line.len();
                    if pg & mask != pg {
                        let copy = crate::text::copy_range(line, 0, n);
                        proof {
                            assert(copy@ =~= line@);
                        }
                        return Err(MapError::InvalidPageDefinition { line: copy });
                    }
                    if lo & mask != hi & mask {
                        let copy = crate::text::copy_range(line, 0, n);
                        proof {
                            assert(copy@ =~= line@);
                        }
                        return Err(MapError::InvalidPageUsage { line: copy });
                    }
                    Ok(())
                },
            }
        },
    }
}

/// Whether `l` starts with `Writing Symbol`.
fn writes_symbols(l: &[u8]) -> (r: bool)
    ensures
        r == (l@.len() >= 14 && l@.take(14) == writing_symbol()),
{
    let marker: [u8; 14] = [
        'W' as u8,
        'r' as u8,
        'i' as u8,
        't' as u8,
        'i' as u8,
        'n' as u8,
        'g' as u8,
        ' ' as u8,
        'S' as u8,
        'y' as u8,
        'm' as u8,
        'b' as u8,
        'o' as u8,
        'l' as u8,
    ];
    proof {
        assert(marker@ =~= writing_symbol());
    }
    if l.len() < 14 {
        return false;
    }
    let r = ends_with_at(l, 14, marker.as_slice());
    proof {
        assert(l@.take(14).skip(0) =~= l@.take(14));
    }
    r
}

/// Reads one line.
fn step(st: &mut MapState, line: &[u8], out: &mut Vec<u8>) -> (r: Result<(), MapError>)
    ensures
        final(out)@ == old(out)@ + step_spec(state_model(*old(st)), line@).0,
        match r {
            Ok(()) => step_spec(state_model(*old(st)), line@).1 == Ok::<MapModel, MapErrorModel>(
                state_model(*final(st)),
            ),
            Err(e) => step_spec(state_model(*old(st)), line@).1 == Err::<MapModel, MapErrorModel>(
                e@,
            ),
        },
{
    let ghost st0 = state_model(*st);
    let ghost out0 = out@;
    proof {
        reveal(step_spec);
    }
    let n = line.len();
    if !is_utf8(line) {
        push_range(line, 0, n, out);
        out.push('\n' as u8);
        proof {
            assert(line@.subrange(0, n as int) =~= line@);
            assert(out@ =~= out0 + step_spec(st0, line@).0);
        }
        return Ok(());
    }
    match region(line) {
        None => {
            push_range(line, 0, n, out);
            out.push('\n' as u8);
            proof {
                assert(line@.subrange(0, n as int) =~= line@);
                assert(out@ =~= out0 + step_spec(st0, line@).0);
            }
            if writes_symbols(line) {
                st.ok = true;
            }
            Ok(())
        },
        Some((virt, o)) => {
            let lo = value4(line, o + 1);
            let hi = value4(line, o + 7);
            if !close_pending(st, lo, out) {
                return Err(MapError::Overflow);
            }
            let ghost out1 = out@;
            let vch: u8 = if virt {
                '*' as u8
            } else {
                ' ' as u8
            };
            let name_start = o + 12;
            let is_free = n - name_start == 4 && line[name_start] == 'F' as u8 && line[name_start
                + 1] == 'R' as u8 && line[name_start + 2] == 'E' as u8 && line[name_start + 3]
                == 'E' as u8;
            proof {
                let name = line@.skip(name_start as int);
                if is_free {
                    assert(name =~= free_name());
                } else if name == free_name() {
                    assert(name[0] == line@[name_start as int]);
                    assert(name[1] == line@[name_start + 1]);
                    assert(name[2] == line@[name_start + 2]);
                    assert(name[3] == line@[name_start + 3]);
                }
            }
            if is_free {
                let mut text: Vec<u8> = Vec::new();
                text.push(vch);
                push_range(line, o + 1, o + 5, &mut text);
                proof {
                    assert(text@ =~= seq![vch] + line@.subrange(o + 1, o + 5));
                }
                st.pending = Some((lo, text));
                proof {
                    assert(out@ =~= out1 + Seq::<u8>::empty());
                }
            } else {
                push_region(line, o, vch, lo, hi, out);
            }
            check_page(line, lo, hi)
        },
    }
}


/// What reading the memory map gives: the text to print, and the free
/// memory in total or why the output is not accepted.
pub struct MemoryMap {
    pub printed: Vec<u8>,
    pub result: Result<u16, MapError>,
}

/// Reads the line `stdout[from..to]`.
fn feed(st: &mut MapState, stdout: &[u8], from: usize, to: usize, out: &mut Vec<u8>) -> (r: Result<
    (),
    MapError,
>)
    requires
        from <= to <= stdout@.len(),
    ensures
        final(out)@ == old(out)@ + step_spec(
            state_model(*old(st)),
            strip_cr(stdout@.subrange(from as int, to as int)),
        ).0,
        match r {
            Ok(()) => step_spec(
                state_model(*old(st)),
                strip_cr(stdout@.subrange(from as int, to as int)),
            ).1 == Ok::<MapModel, MapErrorModel>(state_model(*final(st))),
            Err(e) => step_spec(
                state_model(*old(st)),
                strip_cr(stdout@.subrange(from as int, to as int)),
            ).1 == Err::<MapModel, MapErrorModel>(e@),
        },
{
    let end = if to > from && stdout[to - 1] == '\r' as u8 {
        to - 1
    } else {
        to
    };
    let line = crate::text::copy_range(stdout, from, end);
    proof {
        let l = stdout@.subrange(from as int, to as int);
        if end < to {
            assert(l.drop_last() =~= line@);
        } else {
            assert(l =~= line@);
        }
    }
    step(st, line.as_slice(), out)
}

/// Reads the standard output of a KickAssembler run: what to print, and the
/// total free memory, or why the run's output is not accepted.
pub fn read_memory_map(stdout: &[u8]) -> (m: MemoryMap)
    ensures
        m.printed@ == memory_map_spec(stdout@).0,
        match m.result {
            Ok(free) => memory_map_spec(stdout@).1 == Ok::<u16, MapErrorModel>(free),
            Err(e) => memory_map_spec(stdout@).1 == Err::<u16, MapErrorModel>(e@),
        },
{
    let ghost whole = memory_map_spec(stdout@);
    let mut st = MapState { pending: None, free: 0, ok: false };
    let mut out: Vec<u8> = Vec::new();
    let n = stdout.len();
    let mut start: usize = 0;
    let mut i: usize = 0;
    proof {
        assert(stdout@.skip(0) =~= stdout@);
        assert(whole.0 =~= out@ + run_spec(
            split_on(stdout@.skip(0), ('\n' as u8)),
            state_model(st),
        ).0);
    }
    while i < n
        invariant
            start <= i <= n == stdout@.len(),
            whole == memory_map_spec(stdout@),
            whole.0 == out@ + run_spec(
                split_on(stdout@.skip(start as int), ('\n' as u8)),
                state_model(st),
            ).0,
            whole.1 == run_spec(
                split_on(stdout@.skip(start as int), ('\n' as u8)),
                state_model(st),
            ).1,
            forall|k: int| start <= k < i ==> stdout@[k] != ('\n' as u8),
        decreases n - i,
    {
        if stdout[i] == '\n' as u8 {
            let ghost rest = stdout@.skip(start as int);
            let ghost st0 = state_model(st);
            let ghost out0 = out@;
            proof {
                crate::text::lemma_split_at(rest, ('\n' as u8), i - start);
                assert(rest.take(i - start) =~= stdout@.subrange(start as int, i as int));
                assert(rest.skip(i - start + 1) =~= stdout@.skip(i + 1));
            }
            let r = feed(&mut st, stdout, start, i, &mut out);
            match r {
                Err(e) => {
                    return MemoryMap { printed: out, result: Err(e) };
                },
                Ok(()) => {},
            }
            proof {
                lemma_run_cons(
                    stdout@.subrange(start as int, i as int),
                    split_on(stdout@.skip(i + 1), ('\n' as u8)),
                    st0,
                );
            }
            start = i + 1;
        }
        i += 1;
    }
    let ghost rest = stdout@.skip(start as int);
    proof {
        crate::text::lemma_split_none(rest, ('\n' as u8));
        assert(rest =~= stdout@.subrange(start as int, n as int));
    }
    let ghost st0 = state_model(st);
    let r = feed(&mut st, stdout, start, n, &mut out);
    match r {
        Err(e) => {
            return MemoryMap { printed: out, result: Err(e) };
        },
        Ok(()) => {},
    }
    proof {
        lemma_run_cons(stdout@.subrange(start as int, n as int), Seq::<Seq<u8>>::empty(), st0);
    }
    if st.ok {
        let ghost before = out@;
        let text: [u8; 18] = [
            'T' as u8,
            'o' as u8,
            't' as u8,
            'a' as u8,
            'l' as u8,
            ' ' as u8,
            'F' as u8,
            'r' as u8,
            'e' as u8,
            'e' as u8,
            ' ' as u8,
            'm' as u8,
            'e' as u8,
            'm' as u8,
            'o' as u8,
            'r' as u8,
            'y' as u8,
            ' ' as u8,
        ];
        push_range(text.as_slice(), 0, 18, &mut out);
        push_dec(st.free as u32, &mut out);
        out.push('\n' as u8);
        proof {
            assert(text@.subrange(0, 18) =~= total_free_text());
            assert(out@ =~= before + (total_free_text() + dec_digits(st.free as nat) + seq![
                ('\n' as u8),
            ]));
        }
        MemoryMap { printed: out, result: Ok(st.free) }
    } else {
        proof {
            assert(out@ =~= out@ + Seq::<u8>::empty());
        }
        MemoryMap { printed: out, result: Err(MapError::NotIdentified) }
    }
}

} // verus!
