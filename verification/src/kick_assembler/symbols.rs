//! The symbol file that KickAssembler writes, and lookups in it.
//!
//! A symbol file holds lines `.label NAME=$HEX`, optionally followed by `{`,
//! which opens a nested level of symbols that a line `}` closes.
use crate::text::{
    Blank, chars_of, lemma_split_count, lemma_trim_start_is, split_chars, split_lines, split_on,
    string_of, trim, trim_start, trimmed,
};
use vstd::prelude::*;

verus! {

/// Symbols of a compiled program.
///
/// Each level maps a name to an address and, for a name that opens a nested
/// level, the symbols of that level. In a well-formed value, and every value
/// that [`Symbols::parse`] returns is one, the entries of each level stand in
/// increasing order of their names and no name occurs twice in a level. The
/// field is public, so a value built by hand may break this; where a level
/// holds a name twice, [`Symbols::get`] finds the first.
pub struct Symbols {
    /// The symbols of this level, as (name, (address, nested level)).
    pub symbols: Vec<(String, (u16, Option<Symbols>))>,
}

/// What a [`Symbols`] level holds, as values.
pub struct SymTree {
    pub entries: Seq<(Seq<char>, u16, Option<SymTree>)>,
}

impl Symbols {
    /// Each level in increasing order of names, each name once.
    pub open spec fn well_formed(self) -> bool {
        tree_wf(self.tree())
    }

    /// The symbols, as values.
    pub open spec fn tree(self) -> SymTree
        decreases self,
    {
        proof {
            assert forall|i: int|
                0 <= i < self.symbols@.len() && self.symbols@[i].1.1 is Some implies decreases_to!(self => self.symbols@[i].1.1->0) by {
                assert(decreases_to!(self => self.symbols));
                assert(decreases_to!(self.symbols => self.symbols@));
                assert(decreases_to!(self.symbols@ => self.symbols@[i]));
                assert(decreases_to!(self.symbols@[i] => self.symbols@[i].1));
                assert(decreases_to!(self.symbols@[i].1 => self.symbols@[i].1.1));
                assert(decreases_to!(self.symbols@[i].1.1 => self.symbols@[i].1.1->0));
            }
        }
        SymTree {
            entries: Seq::new(
                self.symbols@.len(),
                |i: int|
                    (
                        self.symbols@[i].0@,
                        self.symbols@[i].1.0,
                        if 0 <= i < self.symbols@.len() && self.symbols@[i].1.1 is Some {
                            Some(self.symbols@[i].1.1->0.tree())
                        } else {
                            None
                        },
                    ),
            ),
        }
    }
}

pub open spec fn opt_tree(o: Option<Symbols>) -> Option<SymTree> {
    match o {
        Some(s) => Some(s.tree()),
        None => None,
    }
}

// ---------------------------------------------------------------------------
// Order of names, and insertion
// ---------------------------------------------------------------------------

/// The order of `String`: lexicographic by character.
pub open spec fn name_lt(a: Seq<char>, b: Seq<char>) -> bool
    decreases a.len(),
{
    if a.len() == 0 {
        b.len() > 0
    } else if b.len() == 0 {
        false
    } else if a[0] != b[0] {
        a[0] < b[0]
    } else {
        name_lt(a.drop_first(), b.drop_first())
    }
}

/// Two different names are ordered one way or the other.
pub proof fn lemma_name_lt_total(a: Seq<char>, b: Seq<char>)
    ensures
        a == b || name_lt(a, b) || name_lt(b, a),
        !(name_lt(a, b) && name_lt(b, a)),
        !name_lt(a, a),
    decreases a.len(),
{
    if a.len() > 0 && b.len() > 0 {
        lemma_name_lt_total(a.drop_first(), b.drop_first());
        if a[0] == b[0] && a.drop_first() == b.drop_first() {
            assert(a =~= seq![a[0]] + a.drop_first());
            assert(b =~= seq![b[0]] + b.drop_first());
        }
    } else if a.len() == 0 && b.len() == 0 {
        assert(a =~= b);
    }
    if a.len() > 0 {
        lemma_name_lt_total(a.drop_first(), a.drop_first());
    }
}

/// The order of names is transitive.
pub proof fn lemma_name_lt_trans(a: Seq<char>, b: Seq<char>, c: Seq<char>)
    requires
        name_lt(a, b),
        name_lt(b, c),
    ensures
        name_lt(a, c),
    decreases a.len(),
{
    if a.len() > 0 && b.len() > 0 && c.len() > 0 && a[0] == b[0] && b[0] == c[0] {
        lemma_name_lt_trans(a.drop_first(), b.drop_first(), c.drop_first());
    }
}

/// `es` with `name` mapped to `(addr, child)`: an entry of that name is
/// replaced in place, else a new entry goes before the first greater name.
pub open spec fn insert_entry(
    es: Seq<(Seq<char>, u16, Option<SymTree>)>,
    name: Seq<char>,
    addr: u16,
    child: Option<SymTree>,
) -> Seq<(Seq<char>, u16, Option<SymTree>)>
    decreases es.len(),
{
    if es.len() == 0 {
        seq![(name, addr, child)]
    } else if es[0].0 == name {
        seq![(name, addr, child)] + es.drop_first()
    } else if name_lt(name, es[0].0) {
        seq![(name, addr, child)] + es
    } else {
        seq![es[0]] + insert_entry(es.drop_first(), name, addr, child)
    }
}

/// Names strictly increase along `es`.
pub open spec fn sorted_names(es: Seq<(Seq<char>, u16, Option<SymTree>)>) -> bool {
    forall|i: int, j: int| 0 <= i < j < es.len() ==> name_lt(#[trigger] es[i].0, #[trigger] es[j].0)
}

proof fn lemma_insert_at(
    es: Seq<(Seq<char>, u16, Option<SymTree>)>,
    name: Seq<char>,
    addr: u16,
    child: Option<SymTree>,
    i: int,
)
    requires
        0 <= i <= es.len(),
        forall|k: int| 0 <= k < i ==> name_lt(#[trigger] es[k].0, name),
        i < es.len() ==> !name_lt(es[i].0, name),
    ensures
        i < es.len() && es[i].0 == name ==> insert_entry(es, name, addr, child) == es.take(i)
            + seq![(name, addr, child)] + es.skip(i + 1),
        !(i < es.len() && es[i].0 == name) ==> insert_entry(es, name, addr, child) == es.take(
            i,
        ) + seq![(name, addr, child)] + es.skip(i),
    decreases es.len(),
{
    if i == 0 {
        if es.len() > 0 {
            lemma_name_lt_total(es[0].0, name);
            assert(es.drop_first() =~= es.skip(1));
        }
        assert(es.take(0) + seq![(name, addr, child)] + es.skip(0) =~= seq![(name, addr, child)]
            + es);
        assert(es.take(0) + seq![(name, addr, child)] + es.skip(1) =~= seq![(name, addr, child)]
            + es.skip(1));
    } else {
        let e0 = es[0];
        assert(name_lt(e0.0, name));
        lemma_name_lt_total(e0.0, name);
        assert(e0.0 != name);
        assert(!name_lt(name, e0.0));
        let t = es.drop_first();
        assert forall|k: int| 0 <= k < i - 1 implies name_lt(#[trigger] t[k].0, name) by {
            assert(t[k] == es[k + 1]);
        }
        lemma_insert_at(t, name, addr, child, i - 1);
        assert(es.take(i) =~= seq![e0] + t.take(i - 1));
        assert(es.skip(i) =~= t.skip(i - 1));
        if i < es.len() {
            assert(es.skip(i + 1) =~= t.skip(i));
            assert(es.take(i) + seq![(name, addr, child)] + es.skip(i + 1) =~= seq![e0] + (
            t.take(i - 1) + seq![(name, addr, child)] + t.skip(i)));
        }
        assert(es.take(i) + seq![(name, addr, child)] + es.skip(i) =~= seq![e0] + (t.take(i - 1)
            + seq![(name, addr, child)] + t.skip(i - 1)));
    }
}

/// Inserting keeps the names strictly increasing.
pub proof fn lemma_insert_sorted(
    es: Seq<(Seq<char>, u16, Option<SymTree>)>,
    name: Seq<char>,
    addr: u16,
    child: Option<SymTree>,
)
    requires
        sorted_names(es),
    ensures
        sorted_names(insert_entry(es, name, addr, child)),
        forall|k: int|
            0 <= k < insert_entry(es, name, addr, child).len() ==> (#[trigger] insert_entry(
                es,
                name,
                addr,
                child,
            )[k] == (name, addr, child) || exists|j: int| 0 <= j < es.len() && es[j] == insert_entry(
                es,
                name,
                addr,
                child,
            )[k]),
    decreases es.len(),
{
    let r = insert_entry(es, name, addr, child);
    if es.len() == 0 {
    } else if es[0].0 == name {
        assert forall|i: int, j: int| 0 <= i < j < r.len() implies name_lt(
            #[trigger] r[i].0,
            #[trigger] r[j].0,
        ) by {
            assert(r[j] == es[j]);
            if i > 0 {
                assert(r[i] == es[i]);
            }
        }
        assert forall|k: int| 0 <= k < r.len() implies (#[trigger] r[k] == (name, addr, child) || exists|
            j: int,
        | 0 <= j < es.len() && es[j] == r[k]) by {
            if k > 0 {
                assert(r[k] == es[k]);
            }
        }
    } else if name_lt(name, es[0].0) {
        assert forall|i: int, j: int| 0 <= i < j < r.len() implies name_lt(
            #[trigger] r[i].0,
            #[trigger] r[j].0,
        ) by {
            assert(r[j] == es[j - 1]);
            if i > 0 {
                assert(r[i] == es[i - 1]);
            } else if j > 1 {
                assert(name_lt(es[0].0, es[j - 1].0));
                lemma_name_lt_trans(name, es[0].0, es[j - 1].0);
            }
        }
        assert forall|k: int| 0 <= k < r.len() implies (#[trigger] r[k] == (name, addr, child) || exists|
            j: int,
        | 0 <= j < es.len() && es[j] == r[k]) by {
            if k > 0 {
                assert(r[k] == es[k - 1]);
            }
        }
    } else {
        let t = es.drop_first();
        assert(sorted_names(t)) by {
            assert forall|i: int, j: int| 0 <= i < j < t.len() implies name_lt(
                #[trigger] t[i].0,
                #[trigger] t[j].0,
            ) by {
                assert(t[i] == es[i + 1]);
                assert(t[j] == es[j + 1]);
            }
        }
        lemma_insert_sorted(t, name, addr, child);
        let rt = insert_entry(t, name, addr, child);
        lemma_name_lt_total(es[0].0, name);
        assert(name_lt(es[0].0, name));
        assert forall|i: int, j: int| 0 <= i < j < r.len() implies name_lt(
            #[trigger] r[i].0,
            #[trigger] r[j].0,
        ) by {
            assert(r[j] == rt[j - 1]);
            if i > 0 {
                assert(r[i] == rt[i - 1]);
            } else {
                assert(r[0] == es[0]);
                if rt[j - 1] != (name, addr, child) {
                    let w = choose|w: int| 0 <= w < t.len() && t[w] == rt[j - 1];
                    assert(t[w] == es[w + 1]);
                }
            }
        }
        assert forall|k: int| 0 <= k < r.len() implies (#[trigger] r[k] == (name, addr, child) || exists|
            j: int,
        | 0 <= j < es.len() && es[j] == r[k]) by {
            if k > 0 {
                assert(r[k] == rt[k - 1]);
                if rt[k - 1] != (name, addr, child) {
                    let w = choose|w: int| 0 <= w < t.len() && t[w] == rt[k - 1];
                    assert(t[w] == es[w + 1]);
                }
            } else {
                assert(r[0] == es[0]);
            }
        }
    }
}

/// Every level of `t` keeps its names strictly increasing, so that no name
/// occurs twice in a level.
pub open spec fn tree_wf(t: SymTree) -> bool
    decreases t,
{
    &&& sorted_names(t.entries)
    &&& forall|i: int|
        0 <= i < t.entries.len() && t.entries[i].2 is Some ==> {
            proof {
                assert(decreases_to!(t => t.entries));
                assert(decreases_to!(t.entries => t.entries[i]));
                assert(decreases_to!(t.entries[i] => t.entries[i].2));
                assert(decreases_to!(t.entries[i].2 => t.entries[i].2->0));
            }
            tree_wf(#[trigger] t.entries[i].2->0)
        }
}

/// The entries of a level are in order and their nested levels are too.
pub open spec fn entries_ok(es: Seq<(Seq<char>, u16, Option<SymTree>)>) -> bool {
    tree_wf(SymTree { entries: es })
}

proof fn lemma_insert_ok(
    es: Seq<(Seq<char>, u16, Option<SymTree>)>,
    name: Seq<char>,
    addr: u16,
    child: Option<SymTree>,
)
    requires
        entries_ok(es),
        child matches Some(c) ==> tree_wf(c),
    ensures
        entries_ok(insert_entry(es, name, addr, child)),
{
    lemma_insert_sorted(es, name, addr, child);
    let r = insert_entry(es, name, addr, child);
    let t = SymTree { entries: r };
    assert forall|i: int| 0 <= i < r.len() && r[i].2 is Some implies tree_wf(
        #[trigger] t.entries[i].2->0,
    ) by {
        if r[i] != (name, addr, child) {
            let j = choose|j: int| 0 <= j < es.len() && es[j] == r[i];
            let old_t = SymTree { entries: es };
            assert(old_t.entries[j].2 is Some);
        }
    }
}

// ---------------------------------------------------------------------------
// Lookup
// ---------------------------------------------------------------------------

/// The value of the first entry named `key`.
pub open spec fn tree_find(es: Seq<(Seq<char>, u16, Option<SymTree>)>, key: Seq<char>) -> Option<
    (u16, Option<SymTree>),
>
    decreases es.len(),
{
    if es.len() == 0 {
        None
    } else if es[0].0 == key {
        Some((es[0].1, es[0].2))
    } else {
        tree_find(es.drop_first(), key)
    }
}

/// Follows `path` from a symbol with address `addr` and nested level `node`.
pub open spec fn resolve(addr: u16, node: Option<SymTree>, path: Seq<Seq<char>>) -> Option<u16>
    decreases path.len(),
{
    if path.len() == 0 {
        Some(addr)
    } else {
        match node {
            None => None,
            Some(t) => match tree_find(t.entries, path[0]) {
                None => None,
                Some((a, n)) => resolve(a, n, path.drop_first()),
            },
        }
    }
}

/// What [`Symbols::get`] gives for `name`: the dot-separated parts of `name`
/// looked up level by level.
pub open spec fn lookup(t: SymTree, name: Seq<char>) -> Option<u16> {
    resolve(0, Some(t), split_on(name, '.'))
}

proof fn lemma_tree_find_at(
    es: Seq<(Seq<char>, u16, Option<SymTree>)>,
    key: Seq<char>,
    i: int,
)
    requires
        0 <= i <= es.len(),
        forall|k: int| 0 <= k < i ==> #[trigger] es[k].0 != key,
        i < es.len() ==> es[i].0 == key,
    ensures
        tree_find(es, key) == if i < es.len() {
            Some((es[i].1, es[i].2))
        } else {
            None
        },
    decreases es.len(),
{
    if es.len() > 0 && i > 0 {
        assert(es[0].0 != key);
        let t = es.drop_first();
        assert forall|k: int| 0 <= k < i - 1 implies #[trigger] t[k].0 != key by {
            assert(t[k] == es[k + 1]);
        }
        lemma_tree_find_at(t, key, i - 1);
    }
}

/// A name without a dot is looked up in the top level: its address where
/// the level holds it, else nothing.
pub proof fn lemma_lookup_plain(t: SymTree, name: Seq<char>)
    requires
        !name.contains('.'),
    ensures
        lookup(t, name) == match tree_find(t.entries, name) {
            Some((a, _)) => Some(a),
            None => None::<u16>,
        },
{
    assert forall|k: int| 0 <= k < name.len() implies name[k] != '.' by {
        if name[k] == '.' {
            assert(name.contains('.'));
        }
    }
    crate::text::lemma_split_none(name, '.');
    let path = seq![name];
    assert(path.drop_first() =~= Seq::<Seq<char>>::empty());
    match tree_find(t.entries, name) {
        Some((a, n)) => {
            assert(resolve(a, n, path.drop_first()) == Some(a));
        },
        None => {},
    }
}

/// A dot descends one level: `first.rest` is `rest` looked up in the nested
/// level of `first`, and nothing where `first` is missing or opens no level.
pub proof fn lemma_lookup_dotted(t: SymTree, first: Seq<char>, rest: Seq<char>)
    requires
        !first.contains('.'),
    ensures
        lookup(t, first + seq!['.'] + rest) == match tree_find(t.entries, first) {
            Some((_, Some(c))) => lookup(c, rest),
            _ => None::<u16>,
        },
{
    let name = first + seq!['.'] + rest;
    let i = first.len() as int;
    assert forall|k: int| 0 <= k < i implies name[k] != '.' by {
        assert(name[k] == first[k]);
        if first[k] == '.' {
            assert(first.contains('.'));
        }
    }
    crate::text::lemma_split_at(name, '.', i);
    assert(name.take(i) =~= first);
    assert(name.skip(i + 1) =~= rest);
    let path = seq![first] + split_on(rest, '.');
    assert(split_on(name, '.') == path);
    assert(path[0] == first);
    assert(path.drop_first() =~= split_on(rest, '.'));
    crate::text::lemma_split_count(rest, '.');
    match tree_find(t.entries, first) {
        Some((a, n)) => {
            assert(lookup(t, name) == resolve(a, n, split_on(rest, '.')));
            match n {
                Some(c) => {
                    assert(resolve(a, Some(c), split_on(rest, '.')) == resolve(
                        0,
                        Some(c),
                        split_on(rest, '.'),
                    ));
                },
                None => {
                    assert(split_on(rest, '.').len() > 0);
                },
            }
        },
        None => {},
    }
}

/// Where `p.q` is found, so is `p`: every name along a dotted path names a
/// symbol.
pub proof fn lemma_lookup_prefix(t: SymTree, p: Seq<char>, q: Seq<char>)
    requires
        lookup(t, p + seq!['.'] + q) is Some,
    ensures
        lookup(t, p) is Some,
    decreases p.len(),
{
    let i = crate::text::first_index(p, '.');
    crate::text::lemma_first_index_bounds(p, '.');
    if i >= p.len() {
        assert(!p.contains('.'));
        lemma_lookup_dotted(t, p, q);
        lemma_lookup_plain(t, p);
    } else {
        let f = p.take(i);
        let p2 = p.skip(i + 1);
        assert(!f.contains('.')) by {
            if f.contains('.') {
                let k = choose|k: int| 0 <= k < f.len() && f[k] == '.';
                assert(p[k] == '.');
            }
        }
        assert(p =~= f + seq!['.'] + p2);
        assert(p + seq!['.'] + q =~= f + seq!['.'] + (p2 + seq!['.'] + q));
        lemma_lookup_dotted(t, f, p2 + seq!['.'] + q);
        lemma_lookup_dotted(t, f, p2);
        match tree_find(t.entries, f) {
            Some((_, Some(c))) => {
                lemma_lookup_prefix(c, p2, q);
            },
            _ => {},
        }
    }
}

/// A hexadecimal digit stands for its value: `0` to `9` for 0 to 9, `a` to
/// `f` and `A` to `F` for 10 to 15.
pub proof fn lemma_hex_value_digit(c: char)
    ensures
        '0' <= c <= '9' ==> hex_value(seq![c]) == c as int - '0' as int,
        'a' <= c <= 'f' ==> hex_value(seq![c]) == c as int - 'a' as int + 10,
        'A' <= c <= 'F' ==> hex_value(seq![c]) == c as int - 'A' as int + 10,
{
    assert(seq![c].drop_last() =~= Seq::<char>::empty());
    assert(seq![c].last() == c);
    assert(hex_value(Seq::<char>::empty()) == 0);
}

/// Positional notation: the digits `a` followed by the digits `b` stand for
/// `a` shifted up by one hexadecimal place per digit of `b`, plus `b`.
pub proof fn lemma_hex_value_concat(a: Seq<char>, b: Seq<char>)
    ensures
        hex_value(a + b) == hex_value(a) * vstd::arithmetic::power::pow(16, b.len()) + hex_value(b),
    decreases b.len(),
{
    vstd::arithmetic::power::lemma_pow0(16);
    if b.len() == 0 {
        assert(a + b =~= a);
        assert(hex_value(b) == 0);
    } else {
        let b2 = b.drop_last();
        lemma_hex_value_concat(a, b2);
        assert((a + b).drop_last() =~= a + b2);
        assert((a + b).last() == b.last());
        let p = vstd::arithmetic::power::pow(16, b2.len());
        vstd::arithmetic::power::lemma_pow_adds(16, b2.len(), 1);
        vstd::arithmetic::power::lemma_pow1(16);
        assert(b2.len() + 1 == b.len());
        let x = hex_value(a);
        assert((x * p + hex_value(b2)) * 16 == x * (p * 16) + hex_value(b2) * 16)
            by (nonlinear_arith);
    }
}

/// A symbol line: `.label `, the name, `=$`, the hexadecimal address.
pub open spec fn label_line(name: Seq<char>, hex: Seq<char>) -> Seq<char> {
    seq!['.', 'l', 'a', 'b', 'e', 'l', ' '] + name + seq!['=', '$'] + hex
}

/// Every name made of ASCII letters, digits and underscores, with an address
/// of one to four hexadecimal digits, makes a symbol line: it is read as
/// that name and address, and a file of that one line looks the name up to
/// that address.
pub proof fn lemma_label_line_read(name: Seq<char>, hex: Seq<char>)
    requires
        name.len() > 0,
        forall|k: int|
            0 <= k < name.len() ==> {
                let c = #[trigger] name[k];
                ('0' <= c && c <= '9') || ('a' <= c && c <= 'z') || ('A' <= c && c <= 'Z') || c
                    == '_'
            },
        1 <= hex.len() <= 4,
        forall|k: int|
            0 <= k < hex.len() ==> {
                let c = #[trigger] hex[k];
                ('0' <= c && c <= '9') || ('a' <= c && c <= 'f') || ('A' <= c && c <= 'F')
            },
    ensures
        parse_label(label_line(name, hex)) == Some((name, hex_value(hex) as u16, false)),
        symbols_spec(label_line(name, hex) + seq!['\n']) matches Ok(t) && lookup(t, name) == Some(
            hex_value(hex) as u16,
        ),
{
    let l = label_line(name, hex);
    let r = l.skip(7);
    assert(l.take(7) =~= label_prefix());
    assert(r =~= name + seq!['=', '$'] + hex);
    assert forall|k: int| 0 <= k < name.len() implies is_word_char(#[trigger] r[k]) by {
        assert(r[k] == name[k]);
    }
    lemma_run_len_is(r, false, name.len() as int);
    let h = r.skip(name.len() as int + 2);
    assert(h =~= hex);
    assert forall|k: int| 0 <= k < hex.len() implies is_hex_char(#[trigger] h[k]) by {}
    lemma_run_len_is(h, true, hex.len() as int);
    assert(h.take(hex.len() as int) =~= hex);
    assert(r.take(name.len() as int) =~= name);
    assert(h.skip(hex.len() as int) =~= Seq::<char>::empty());
    // The whole file.
    let text = l + seq!['\n'];
    crate::text::lemma_split_at(text, '\n', l.len() as int);
    assert(text.take(l.len() as int) =~= l);
    assert(text.skip(l.len() as int + 1) =~= Seq::<char>::empty());
    crate::text::lemma_split_none(Seq::<char>::empty(), '\n');
    let lines = split_lines(text);
    assert(lines =~= seq![l]);
    assert forall|k: int| 0 <= k < l.len() implies l[k] != '\n' by {
        if k >= 7 + name.len() + 2 {
            assert(l[k] == hex[k - 9 - name.len()]);
        } else if k >= 7 && k < 7 + name.len() {
            assert(l[k] == name[k - 7]);
        }
    }
    crate::text::lemma_trim_start_is(l, Blank::Unicode, 0);
    assert(l.skip(0) =~= l);
    assert(l.last() == hex.last());
    assert(trim(l, Blank::Unicode) == l);
    let st0 = seq![(Seq::<(Seq<char>, u16, Option<SymTree>)>::empty(), Seq::<char>::empty(), 0u16)];
    let v = hex_value(hex) as u16;
    let st1 = st0.drop_last().push((seq![(name, v, None::<SymTree>)], Seq::<char>::empty(), 0u16));
    assert(l != seq!['}']) by {
        assert(l[0] == '.');
    }
    assert(insert_entry(Seq::empty(), name, v, None) == seq![(name, v, None::<SymTree>)]);
    assert(scan_spec(lines, 0, st0) == scan_spec(lines, 1, st1));
    let t = SymTree { entries: seq![(name, v, None::<SymTree>)] };
    assert(scan_spec(lines, 1, st1) == Ok::<SymTree, SymbolsError>(t));
    assert(!name.contains('.')) by {
        if name.contains('.') {
            let k = choose|k: int| 0 <= k < name.len() && name[k] == '.';
            assert(name[k] == '.');
        }
    }
    lemma_lookup_plain(t, name);
    assert(t.entries[0].0 == name);
}

impl Symbols {
    /// Get the address of a symbol.
    ///
    /// A dot `.` can be used to access symbols in lower levels.
    pub fn get(&self, name: &str) -> (r: Option<u16>)
        ensures
            r == lookup(self.tree(), name@),
    {
        let chars = chars_of(name);
        let parts = split_chars(chars.as_slice(), '.');
        let ghost pv = split_on(name@, '.');
        let mut addr: u16 = 0;
        let mut node: Option<&Symbols> = Some(self);
        let mut i: usize = 0;
        proof {
            assert(pv.skip(0) =~= pv);
        }
        while i < parts.len()
            invariant
                parts@.len() == pv.len(),
                forall|k: int| 0 <= k < pv.len() ==> #[trigger] parts@[k]@ == pv[k],
                i <= pv.len(),
                lookup(self.tree(), name@) == resolve(
                    addr,
                    match node {
                        Some(s) => Some(s.tree()),
                        None => None,
                    },
                    pv.skip(i as int),
                ),
            decreases pv.len() - i,
        {
            let ghost rest = pv.skip(i as int);
            proof {
                assert(rest[0] == pv[i as int]);
                assert(rest.drop_first() =~= pv.skip(i + 1));
            }
            match node {
                None => {
                    return None;
                },
                Some(syms) => {
                    let key = string_of(parts[i].as_slice());
                    let ghost es = syms.tree().entries;
                    let mut j: usize = 0;
                    while j < syms.symbols.len() && !(syms.symbols[j].0 == key)
                        invariant
                            j <= syms.symbols@.len() == es.len(),
                            es == syms.tree().entries,
                            key@ == pv[i as int],
                            forall|k: int| 0 <= k < j ==> #[trigger] es[k].0 != key@,
                        decreases syms.symbols@.len() - j,
                    {
                        assert(es[j as int].0 == syms.symbols@[j as int].0@);
                        j += 1;
                    }
                    let found = j < syms.symbols.len();
                    proof {
                        if found {
                            assert(es[j as int].0 == syms.symbols@[j as int].0@);
                            lemma_tree_find_at(es, key@, j as int);
                        } else {
                            lemma_tree_find_at(es, key@, es.len() as int);
                        }
                    }
                    if !found {
                        return None;
                    }
                    addr = syms.symbols[j].1.0;
                    node = syms.symbols[j].1.1.as_ref();
                },
            }
            i += 1;
        }
        proof {
            assert(pv.skip(pv.len() as int) =~= Seq::<Seq<char>>::empty());
        }
        Some(addr)
    }
}


// ---------------------------------------------------------------------------
// The grammar of a symbol line
// ---------------------------------------------------------------------------

/// `[0-9a-zA-Z_]`
pub open spec fn is_word_char(c: char) -> bool {
    ('0' <= c && c <= '9') || ('a' <= c && c <= 'z') || ('A' <= c && c <= 'Z') || c == '_'
}

/// `[0-9a-fA-F]`
pub open spec fn is_hex_char(c: char) -> bool {
    ('0' <= c && c <= '9') || ('a' <= c && c <= 'f') || ('A' <= c && c <= 'F')
}

/// The value of a hexadecimal digit.
pub open spec fn hex_digit(c: char) -> int {
    if '0' <= c && c <= '9' {
        c as int - '0' as int
    } else if 'a' <= c && c <= 'f' {
        c as int - 'a' as int + 10
    } else {
        c as int - 'A' as int + 10
    }
}

/// The number of leading word characters (or hex digits, where `hex`) of `s`.
pub open spec fn run_len(s: Seq<char>, hex: bool) -> int
    decreases s.len(),
{
    if s.len() > 0 && (if hex {
        is_hex_char(s[0])
    } else {
        is_word_char(s[0])
    }) {
        1 + run_len(s.drop_first(), hex)
    } else {
        0
    }
}

/// The value of a string of hexadecimal digits.
pub open spec fn hex_value(s: Seq<char>) -> int
    decreases s.len(),
{
    if s.len() == 0 {
        0
    } else {
        hex_value(s.drop_last()) * 16 + hex_digit(s.last())
    }
}

pub open spec fn label_prefix() -> Seq<char> {
    seq!['.', 'l', 'a', 'b', 'e', 'l', ' ']
}

/// A symbol line `.label NAME=$HEX`, with spaces and an optional `{` after
/// it (the pattern `^\.label ([0-9a-zA-Z_]+)=\$([0-9a-fA-F]{1,4}) *([{]?)$`):
/// the name, the address and whether a nested level opens.
pub open spec fn parse_label(l: Seq<char>) -> Option<(Seq<char>, u16, bool)> {
    if l.len() < 7 || l.take(7) != label_prefix() {
        None
    } else {
        let r = l.skip(7);
        let n = run_len(r, false);
        if n == 0 || n + 2 > r.len() || r[n] != '=' || r[n + 1] != '$' {
            None
        } else {
            let h = r.skip(n + 2);
            let k = run_len(h, true);
            if k == 0 || k > 4 {
                None
            } else {
                let tail = trim_start(h.skip(k), Blank::Space);
                if tail.len() == 0 {
                    Some((r.take(n), hex_value(h.take(k)) as u16, false))
                } else if tail == seq!['{'] {
                    Some((r.take(n), hex_value(h.take(k)) as u16, true))
                } else {
                    None
                }
            }
        }
    }
}

proof fn lemma_run_len_is(s: Seq<char>, hex: bool, i: int)
    requires
        0 <= i <= s.len(),
        forall|k: int|
            0 <= k < i ==> (if hex {
                is_hex_char(#[trigger] s[k])
            } else {
                is_word_char(s[k])
            }),
        i < s.len() ==> !(if hex {
            is_hex_char(s[i])
        } else {
            is_word_char(s[i])
        }),
    ensures
        run_len(s, hex) == i,
    decreases s.len(),
{
    if i > 0 {
        let t = s.drop_first();
        assert(if hex {
            is_hex_char(s[0])
        } else {
            is_word_char(s[0])
        });
        assert forall|k: int|
            0 <= k < i - 1 implies (if hex {
                is_hex_char(#[trigger] t[k])
            } else {
                is_word_char(t[k])
            }) by {
            assert(t[k] == s[k + 1]);
        }
        lemma_run_len_is(t, hex, i - 1);
    }
}

proof fn lemma_hex_value_bound(s: Seq<char>)
    requires
        forall|k: int| 0 <= k < s.len() ==> is_hex_char(#[trigger] s[k]),
    ensures
        0 <= hex_value(s) < pow16(s.len()),
    decreases s.len(),
{
        if s.len() > 0 {
        let t = s.drop_last();
        assert forall|k: int| 0 <= k < t.len() implies is_hex_char(#[trigger] t[k]) by {
            assert(t[k] == s[k]);
        }
        lemma_hex_value_bound(t);
        assert(is_hex_char(s[s.len() - 1]));
        let p = pow16(t.len());
        assert(hex_value(s) < p * 16) by (nonlinear_arith)
            requires
                hex_value(s) == hex_value(t) * 16 + hex_digit(s.last()),
                0 <= hex_value(t) < p,
                0 <= hex_digit(s.last()) < 16,
        ;
        assert(pow16(s.len()) == 16 * p);
    }
}

fn word_char(c: char) -> (r: bool)
    ensures
        r == is_word_char(c),
{
    ('0' <= c && c <= '9') || ('a' <= c && c <= 'z') || ('A' <= c && c <= 'Z') || c == '_'
}

fn hex_char(c: char) -> (r: bool)
    ensures
        r == is_hex_char(c),
{
    ('0' <= c && c <= '9') || ('a' <= c && c <= 'f') || ('A' <= c && c <= 'F')
}

fn hex_digit_value(c: char) -> (r: u32)
    requires
        is_hex_char(c),
    ensures
        r == hex_digit(c),
        r < 16,
{
    if '0' <= c && c <= '9' {
        (c as u32) - ('0' as u32)
    } else if 'a' <= c && c <= 'f' {
        (c as u32) - ('a' as u32) + 10
    } else {
        (c as u32) - ('A' as u32) + 10
    }
}

/// `16` to the power `n`.
pub open spec fn pow16(n: nat) -> int
    decreases n,
{
    if n == 0 {
        1
    } else {
        16 * pow16((n - 1) as nat)
    }
}

proof fn lemma_pow16_increases(a: nat, b: nat)
    requires
        a <= b,
    ensures
        0 < pow16(a) <= pow16(b),
    decreases b,
{
    if b > a {
        lemma_pow16_increases(a, (b - 1) as nat);
    } else if a > 0 {
        lemma_pow16_increases((a - 1) as nat, (a - 1) as nat);
    }
}

proof fn lemma_pow16()
    ensures
        pow16(3) == 4096,
        pow16(4) == 65536,
{
        assert(pow16(0) == 1);
    assert(pow16(1) == 16);
    assert(pow16(2) == 256);
    assert(pow16(3) == 4096);
    assert(pow16(4) == 65536);
}

/// Matches a symbol line.
fn match_label(l: &[char]) -> (r: Option<(Vec<char>, u16, bool)>)
    ensures
        match r {
            Some((name, addr, opens)) => parse_label(l@) == Some((name@, addr, opens)),
            None => parse_label(l@) is None,
        },
{
    let n = l.len();
    if n < 7 || l[0] != '.' || l[1] != 'l' || l[2] != 'a' || l[3] != 'b' || l[4] != 'e' || l[5]
        != 'l' || l[6] != ' ' {
        proof {
            if n >= 7 {
                assert(l@.take(7) != label_prefix()) by {
                    let t = l@.take(7);
                    if t == label_prefix() {
                        assert(t[0] == '.' && t[1] == 'l' && t[2] == 'a' && t[3] == 'b' && t[4]
                            == 'e' && t[5] == 'l' && t[6] == ' ');
                    }
                }
            }
        }
        return None;
    }
    proof {
        assert(l@.take(7) =~= label_prefix());
    }
    let ghost r = l@.skip(7);
    let mut i: usize = 7;
    while i < n && word_char(l[i])
        invariant
            7 <= i <= n == l@.len(),
            r == l@.skip(7),
            forall|k: int| 7 <= k < i ==> is_word_char(#[trigger] l@[k]),
        decreases n - i,
    {
        i += 1;
    }
    proof {
        assert forall|k: int| 0 <= k < i - 7 implies is_word_char(#[trigger] r[k]) by {
            assert(r[k] == l@[k + 7]);
        }
        lemma_run_len_is(r, false, i - 7);
    }
    if i == 7 || n - i < 2 || l[i] != '=' || l[i + 1] != '$' {
        return None;
    }
    let ghost h = r.skip(i - 7 + 2);
    let hs = i + 2;
    let mut j: usize = hs;
    while j < n && hex_char(l[j])
        invariant
            hs <= j <= n == l@.len(),
            forall|k: int| hs <= k < j ==> is_hex_char(#[trigger] l@[k]),
        decreases n - j,
    {
        j += 1;
    }
    proof {
        assert(h =~= l@.skip(hs as int));
        assert forall|k: int| 0 <= k < j - hs implies is_hex_char(#[trigger] h[k]) by {
            assert(h[k] == l@[k + hs]);
        }
        lemma_run_len_is(h, true, j - hs);
    }
    if j == hs || j - hs > 4 {
        return None;
    }
    let mut value: u32 = 0;
    let mut q: usize = hs;
    while q < j
        invariant
            hs <= q <= j <= n == l@.len(),
            j - hs <= 4,
            h == l@.skip(hs as int),
            forall|k: int| hs <= k < j ==> is_hex_char(#[trigger] l@[k]),
            value == hex_value(h.take(q - hs)),
            value < pow16((q - hs) as nat),
        decreases j - q,
    {
        proof {
            assert(h.take(q - hs + 1).drop_last() =~= h.take(q - hs));
            assert(h.take(q - hs + 1).last() == l@[q as int]);
                        assert(pow16((q - hs) as nat) <= 4096) by {
                lemma_pow16_increases((q - hs) as nat, 3);
                lemma_pow16();
            }
            assert forall|k: int| 0 <= k < q - hs + 1 implies is_hex_char(
                #[trigger] h.take(q - hs + 1)[k],
            ) by {
                assert(h.take(q - hs + 1)[k] == l@[k + hs]);
            }
            lemma_hex_value_bound(h.take(q - hs + 1));
        }
        let d = hex_digit_value(l[q]);
        value = value * 16 + d;
        q += 1;
    }
    proof {
        assert forall|k: int| 0 <= k < j - hs implies is_hex_char(#[trigger] h.take(j - hs)[k]) by {
            assert(h.take(j - hs)[k] == l@[k + hs]);
        }
        lemma_hex_value_bound(h.take(j - hs));
        lemma_pow16_increases((j - hs) as nat, 4);
                lemma_pow16();
    }
    let mut p: usize = j;
    while p < n && l[p] == ' '
        invariant
            j <= p <= n == l@.len(),
            forall|k: int| j <= k < p ==> #[trigger] l@[k] == ' ',
        decreases n - p,
    {
        p += 1;
    }
    let ghost after = h.skip(j - hs);
    proof {
        assert(after =~= l@.skip(j as int));
        assert forall|k: int| 0 <= k < p - j implies crate::text::is_blank(
            Blank::Space,
            #[trigger] after[k],
        ) by {
            assert(after[k] == l@[k + j]);
        }
        lemma_trim_start_is(after, Blank::Space, p - j);
        assert(after.skip(p - j) =~= l@.skip(p as int));
        assert(r.take(i - 7) =~= l@.subrange(7, i as int));
    }
    let name = crate::text::copy_range(l, 7, i);
    if p == n {
        proof {
            assert(l@.skip(p as int).len() == 0);
        }
        Some((name, value as u16, false))
    } else if p + 1 == n && l[p] == '{' {
        proof {
            assert(l@.skip(p as int) =~= seq!['{']);
        }
        Some((name, value as u16, true))
    } else {
        proof {
            let t = l@.skip(p as int);
            if t == seq!['{'] {
                assert(t[0] == l@[p as int]);
            }
        }
        None
    }
}


// ---------------------------------------------------------------------------
// Reading a symbol file
// ---------------------------------------------------------------------------

/// Why a symbol file could not be read. Line numbers count as the reader
/// counts them: the first line of the file is reported as line 2.
#[derive(Debug, Clone, Copy, PartialEq, Eq, Structural)]
pub enum SymbolsError {
    /// A `}` where no level is open.
    UnexpectedClosingBrace { line: usize },
    /// A line that is neither empty, `}`, nor a symbol line.
    Unparsable { line: usize },
    /// The file ends inside a nested level.
    MissingClosingBrace,
}

/// An open level while reading: its entries so far, and the name and
/// address of the symbol that opened it.
pub type FrameModel = (Seq<(Seq<char>, u16, Option<SymTree>)>, Seq<char>, u16);

/// Reads the (untrimmed) lines from `pos` on, with the levels in `stack`
/// open (the first of them the top level).
pub open spec fn scan_spec(lines: Seq<Seq<char>>, pos: int, stack: Seq<FrameModel>) -> Result<
    SymTree,
    SymbolsError,
>
    decreases lines.len() - pos,
{
    if pos >= lines.len() || pos < 0 {
        if stack.len() == 1 {
            Ok(SymTree { entries: stack[0].0 })
        } else {
            Err(SymbolsError::MissingClosingBrace)
        }
    } else {
        let l = trim(lines[pos], Blank::Unicode);
        let no = (pos + 2) as usize;
        if l.len() == 0 {
            scan_spec(lines, pos + 1, stack)
        } else if l == seq!['}'] {
            if stack.len() <= 1 {
                Err(SymbolsError::UnexpectedClosingBrace { line: no })
            } else {
                let top = stack.last();
                let parent = stack[stack.len() - 2];
                let np = (
                    insert_entry(parent.0, top.1, top.2, Some(SymTree { entries: top.0 })),
                    parent.1,
                    parent.2,
                );
                scan_spec(lines, pos + 1, stack.drop_last().drop_last().push(np))
            }
        } else {
            match parse_label(l) {
                None => Err(SymbolsError::Unparsable { line: no }),
                Some((name, addr, opens)) => if opens {
                    scan_spec(lines, pos + 1, stack.push((seq![], name, addr)))
                } else if stack.len() == 0 {
                    Err(SymbolsError::MissingClosingBrace)
                } else {
                    let f = stack.last();
                    scan_spec(
                        lines,
                        pos + 1,
                        stack.drop_last().push((insert_entry(f.0, name, addr, None), f.1, f.2)),
                    )
                },
            }
        }
    }
}

/// What reading a symbol file gives.
pub open spec fn symbols_spec(input: Seq<char>) -> Result<SymTree, SymbolsError> {
    scan_spec(split_lines(input), 0, seq![(seq![], seq![], 0u16)])
}

pub open spec fn frames_ok(stack: Seq<FrameModel>) -> bool {
    forall|k: int| 0 <= k < stack.len() ==> entries_ok(#[trigger] stack[k].0)
}

/// Reading keeps every level in order.
proof fn lemma_scan_wf(lines: Seq<Seq<char>>, pos: int, stack: Seq<FrameModel>)
    requires
        frames_ok(stack),
    ensures
        scan_spec(lines, pos, stack) matches Ok(t) ==> tree_wf(t),
    decreases lines.len() - pos,
{
    if pos >= lines.len() || pos < 0 {
        if stack.len() == 1 {
            assert(entries_ok(stack[0].0));
        }
    } else {
        let l = trim(lines[pos], Blank::Unicode);
        if l.len() == 0 {
            lemma_scan_wf(lines, pos + 1, stack);
        } else if l == seq!['}'] {
            if stack.len() > 1 {
                let top = stack.last();
                let parent = stack[stack.len() - 2];
                assert(entries_ok(stack[stack.len() - 1].0));
                assert(entries_ok(stack[stack.len() - 2].0));
                lemma_insert_ok(parent.0, top.1, top.2, Some(SymTree { entries: top.0 }));
                let np = (
                    insert_entry(parent.0, top.1, top.2, Some(SymTree { entries: top.0 })),
                    parent.1,
                    parent.2,
                );
                let ns = stack.drop_last().drop_last().push(np);
                assert forall|k: int| 0 <= k < ns.len() implies entries_ok(#[trigger] ns[k].0) by {
                    if k < ns.len() - 1 {
                        assert(ns[k] == stack[k]);
                    }
                }
                lemma_scan_wf(lines, pos + 1, ns);
            }
        } else {
            match parse_label(l) {
                None => {},
                Some((name, addr, opens)) => {
                    if opens {
                        let ns = stack.push((seq![], name, addr));
                        assert forall|k: int| 0 <= k < ns.len() implies entries_ok(
                            #[trigger] ns[k].0,
                        ) by {
                            if k < ns.len() - 1 {
                                assert(ns[k] == stack[k]);
                            } else {
                                let e = SymTree {
                                    entries: Seq::<(Seq<char>, u16, Option<SymTree>)>::empty(),
                                };
                                assert(ns[k].0 =~= e.entries);
                            }
                        }
                        lemma_scan_wf(lines, pos + 1, ns);
                    } else if stack.len() > 0 {
                        let f = stack.last();
                        assert(entries_ok(stack[stack.len() - 1].0));
                        lemma_insert_ok(f.0, name, addr, None);
                        let ns = stack.drop_last().push(
                            (insert_entry(f.0, name, addr, None), f.1, f.2),
                        );
                        assert forall|k: int| 0 <= k < ns.len() implies entries_ok(
                            #[trigger] ns[k].0,
                        ) by {
                            if k < ns.len() - 1 {
                                assert(ns[k] == stack[k]);
                            }
                        }
                        lemma_scan_wf(lines, pos + 1, ns);
                    }
                },
            }
        }
    }
}

/// Every symbol tree read from a file keeps each level in increasing order
/// of names, each name once.
pub proof fn lemma_read_symbols_ordered(input: Seq<char>)
    ensures
        symbols_spec(input) matches Ok(t) ==> tree_wf(t),
{
    let st = seq![(Seq::<(Seq<char>, u16, Option<SymTree>)>::empty(), Seq::<char>::empty(), 0u16)];
    assert(entries_ok(st[0].0));
    assert(frames_ok(st));
    lemma_scan_wf(split_lines(input), 0, st);
}

/// An open level while reading.
struct Frame {
    keys: Vec<Vec<char>>,
    entries: Vec<(String, (u16, Option<Symbols>))>,
    name: Vec<char>,
    addr: u16,
}

spec fn frame_wf(f: Frame) -> bool {
    &&& f.keys@.len() == f.entries@.len()
    &&& forall|i: int| 0 <= i < f.keys@.len() ==> #[trigger] f.keys@[i]@ == f.entries@[i].0@
}

spec fn frame_model(f: Frame) -> FrameModel {
    (Symbols { symbols: f.entries }.tree().entries, f.name@, f.addr)
}

spec fn stack_model(st: Seq<Frame>) -> Seq<FrameModel> {
    Seq::new(st.len(), |i: int| frame_model(st[i]))
}

/// Whether `a` comes before `b` in the order of names.
fn name_less(a: &[char], b: &[char]) -> (r: bool)
    ensures
        r == name_lt(a@, b@),
{
    let mut i: usize = 0;
    proof {
        assert(a@.skip(0) =~= a@);
        assert(b@.skip(0) =~= b@);
    }
    while i < a.len() && i < b.len() && a[i] == b[i]
        invariant
            i <= a@.len(),
            i <= b@.len(),
            name_lt(a@, b@) == name_lt(a@.skip(i as int), b@.skip(i as int)),
        decreases a@.len() - i,
    {
        proof {
            assert(a@.skip(i as int).drop_first() =~= a@.skip(i + 1));
            assert(b@.skip(i as int).drop_first() =~= b@.skip(i + 1));
        }
        i += 1;
    }
    if i == a.len() {
        i < b.len()
    } else if i == b.len() {
        false
    } else {
        a[i] < b[i]
    }
}

fn chars_equal(a: &[char], b: &[char]) -> (r: bool)
    ensures
        r == (a@ == b@),
{
    if a.len() != b.len() {
        return false;
    }
    let mut i: usize = 0;
    while i < a.len()
        invariant
            i <= a@.len() == b@.len(),
            forall|k: int| 0 <= k < i ==> a@[k] == b@[k],
        decreases a@.len() - i,
    {
        if a[i] != b[i] {
            return false;
        }
        i += 1;
    }
    proof {
        assert(a@ =~= b@);
    }
    true
}

/// Enters `name` into a level, as `BTreeMap::insert` does.
fn insert_into(f: &mut Frame, name: Vec<char>, addr: u16, child: Option<Symbols>)
    requires
        frame_wf(*old(f)),
    ensures
        frame_wf(*final(f)),
        frame_model(*final(f)) == (
            insert_entry(frame_model(*old(f)).0, name@, addr, opt_tree(child)),
            old(f).name@,
            old(f).addr,
        ),
{
    let ghost es = frame_model(*f).0;
    let ghost item = (name@, addr, opt_tree(child));
    let n = f.keys.len();
    let mut j: usize = 0;
    while j < n && name_less(f.keys[j].as_slice(), name.as_slice())
        invariant
            j <= n == f.keys@.len() == f.entries@.len() == es.len(),
            frame_wf(*f),
            es == frame_model(*f).0,
            forall|k: int| 0 <= k < j ==> name_lt(#[trigger] es[k].0, name@),
        decreases n - j,
    {
        assert(es[j as int].0 == f.keys@[j as int]@);
        j += 1;
    }
    proof {
        if j < n {
            assert(es[j as int].0 == f.keys@[j as int]@);
        }
        lemma_insert_at(es, name@, addr, opt_tree(child), j as int);
    }
    let key = string_of(name.as_slice());
    if j < n && chars_equal(f.keys[j].as_slice(), name.as_slice()) {
        f.entries.set(j, (key, (addr, child)));
        proof {
            let after = frame_model(*f).0;
            assert(after =~= es.take(j as int) + seq![item] + es.skip(j + 1));
        }
    } else {
        f.keys.insert(j, name);
        f.entries.insert(j, (key, (addr, child)));
        proof {
            let after = frame_model(*f).0;
            assert(after =~= es.take(j as int) + seq![item] + es.skip(j as int));
            assert forall|i: int| 0 <= i < f.keys@.len() implies #[trigger] f.keys@[i]@
                == f.entries@[i].0@ by {
                if i > j {
                    assert(f.keys@[i] == old(f).keys@[i - 1]);
                    assert(f.entries@[i] == old(f).entries@[i - 1]);
                } else if i < j {
                    assert(f.keys@[i] == old(f).keys@[i]);
                    assert(f.entries@[i] == old(f).entries@[i]);
                }
            }
        }
    }
}

fn new_frame(name: Vec<char>, addr: u16) -> (f: Frame)
    ensures
        frame_wf(f),
        frame_model(f) == (Seq::<(Seq<char>, u16, Option<SymTree>)>::empty(), name@, addr),
{
    let f = Frame { keys: Vec::new(), entries: Vec::new(), name, addr };
    proof {
        assert(frame_model(f).0 =~= Seq::<(Seq<char>, u16, Option<SymTree>)>::empty());
    }
    f
}

impl Symbols {
    /// Reads a symbol file.
    pub fn parse(input: &str) -> (r: Result<Symbols, SymbolsError>)
        requires
            input@.len() <= isize::MAX,
        ensures
            match r {
                Ok(s) => symbols_spec(input@) == Ok::<SymTree, SymbolsError>(s.tree())
                    && s.well_formed(),
                Err(e) => symbols_spec(input@) == Err::<SymTree, SymbolsError>(e),
            },
    {
        let chars = chars_of(input);
        let parts = split_chars(chars.as_slice(), '\n');
        let ghost pv = split_on(input@, '\n');
        proof {
            lemma_split_count(input@, '\n');
        }
        let nparts = parts.len();
        let nlines = if parts[nparts - 1].len() == 0 {
            nparts - 1
        } else {
            nparts
        };
        let ghost lines = split_lines(input@);
        proof {
            assert(lines =~= pv.take(nlines as int));
        }
        let mut stack: Vec<Frame> = Vec::new();
        stack.push(new_frame(Vec::new(), 0));
        proof {
            assert(stack_model(stack@) =~= seq![(seq![], seq![], 0u16)]);
        }
        let mut pos: usize = 0;
        while pos < nlines
            invariant
                nlines <= parts@.len() == pv.len() <= input@.len() + 1,
                input@.len() <= isize::MAX,
                lines == pv.take(nlines as int),
                forall|k: int| 0 <= k < parts@.len() ==> #[trigger] parts@[k]@ == pv[k],
                pos <= nlines,
                stack@.len() >= 1,
                forall|k: int| 0 <= k < stack@.len() ==> frame_wf(#[trigger] stack@[k]),
                symbols_spec(input@) == scan_spec(lines, pos as int, stack_model(stack@)),
            decreases nlines - pos,
        {
            let ghost st = stack_model(stack@);
            let part = parts[pos].as_slice();
            let line = trimmed(part, 0, part.len(), Blank::Unicode);
            proof {
                assert(part@.subrange(0, part@.len() as int) =~= part@);
                assert(lines[pos as int] == part@);
            }
            let no = pos + 2;
            if line.len() == 0 {
            } else if line.len() == 1 && line[0] == '}' {
                proof {
                    assert(line@ =~= seq!['}']);
                }
                if stack.len() == 1 {
                    return Err(SymbolsError::UnexpectedClosingBrace { line: no });
                }
                let ghost before = stack@;
                let top = stack.pop().unwrap();
                let mut parent = stack.pop().unwrap();
                proof {
                    assert(top == before[before.len() - 1]);
                    assert(parent == before[before.len() - 2]);
                    assert(frame_wf(before[before.len() - 1]));
                    assert(frame_wf(before[before.len() - 2]));
                    assert(st.last() == frame_model(top));
                    assert(st[st.len() - 2] == frame_model(parent));
                }
                let child = Symbols { symbols: top.entries };
                insert_into(&mut parent, top.name, top.addr, Some(child));
                stack.push(parent);
                proof {
                    assert(stack_model(stack@) =~= st.drop_last().drop_last().push(
                        frame_model(parent),
                    ));
                }
            } else {
                proof {
                    if line@ == seq!['}'] {
                        assert(line@[0] == '}');
                    }
                }
                match match_label(line.as_slice()) {
                    None => {
                        return Err(SymbolsError::Unparsable { line: no });
                    },
                    Some((name, addr, opens)) => {
                        if opens {
                            stack.push(new_frame(name, addr));
                            proof {
                                assert(stack_model(stack@) =~= st.push((seq![], name@, addr)));
                            }
                        } else {
                            let ghost before = stack@;
                            let mut f = stack.pop().unwrap();
                            proof {
                                assert(f == before[before.len() - 1]);
                                assert(frame_wf(before[before.len() - 1]));
                                assert(st.last() == frame_model(f));
                            }
                            insert_into(&mut f, name, addr, None);
                            stack.push(f);
                            proof {
                                assert(stack_model(stack@) =~= st.drop_last().push(
                                    frame_model(f),
                                ));
                            }
                        }
                    },
                }
            }
            pos += 1;
        }
        if stack.len() != 1 {
            return Err(SymbolsError::MissingClosingBrace);
        }
        let top = stack.pop().unwrap();
        proof {
            lemma_read_symbols_ordered(input@);
        }
        Ok(Symbols { symbols: top.entries })
    }
}


// ---------------------------------------------------------------------------
// Order by address
// ---------------------------------------------------------------------------

/// Entry `a` of a level comes before entry `b` when listed by address:
/// lower address first, entries at the same address in their own order.
pub open spec fn before_by_address(s: Symbols, a: int, b: int) -> bool {
    s.symbols@[a].1.0 < s.symbols@[b].1.0 || (s.symbols@[a].1.0 == s.symbols@[b].1.0 && a < b)
}

/// `order` lists every entry of `s` once, by address (a stable sort).
pub open spec fn is_address_order(s: Symbols, order: Seq<usize>) -> bool {
    &&& order.len() == s.symbols@.len()
    &&& forall|i: int| 0 <= i < order.len() ==> #[trigger] order[i] < s.symbols@.len()
    &&& forall|m: usize| m < s.symbols@.len() ==> #[trigger] order.contains(m)
    &&& forall|i: int, j: int|
        0 <= i < j < order.len() ==> before_by_address(s, #[trigger] order[i] as int, #[trigger] order[j] as int)
}

impl Symbols {
    /// The entries of this level listed by address, as indices into
    /// `symbols`: lower addresses first, entries at the same address in
    /// name order. This is the order in which the symbols are shown.
    pub fn by_address(&self) -> (r: Vec<usize>)
        ensures
            is_address_order(*self, r@),
    {
        let n = self.symbols.len();
        let mut r: Vec<usize> = Vec::new();
        let mut k: usize = 0;
        while k < n
            invariant
                k <= n == self.symbols@.len(),
                r@.len() == k,
                forall|i: int| 0 <= i < r@.len() ==> #[trigger] r@[i] < k,
                forall|m: usize| m < k ==> #[trigger] r@.contains(m),
                forall|i: int, j: int|
                    0 <= i < j < r@.len() ==> before_by_address(*self, #[trigger] r@[i] as int, #[trigger] r@[j] as int),
            decreases n - k,
        {
            let a = self.symbols[k].1.0;
            let mut p: usize = 0;
            while p < r.len() && self.symbols[r[p]].1.0 <= a
                invariant
                    p <= r@.len() == k < n == self.symbols@.len(),
                    forall|i: int| 0 <= i < r@.len() ==> #[trigger] r@[i] < k,
                    forall|q: int| 0 <= q < p ==> self.symbols@[#[trigger] r@[q] as int].1.0 <= a,
                decreases r@.len() - p,
            {
                p += 1;
            }
            let ghost old_r = r@;
            proof {
                assert forall|q: int| p <= q < old_r.len() implies self.symbols@[#[trigger] old_r[q] as int].1.0 > a by {
                    if p < old_r.len() {
                        assert(self.symbols@[old_r[p as int] as int].1.0 > a);
                        if q > p {
                            assert(before_by_address(*self, old_r[p as int] as int, old_r[q] as int));
                        }
                    }
                }
            }
            r.insert(p, k);
            proof {
                assert(r@ =~= old_r.take(p as int) + seq![k] + old_r.skip(p as int));
                assert forall|i: int| 0 <= i < r@.len() implies #[trigger] r@[i] < k + 1 by {
                    if i < p {
                        assert(r@[i] == old_r[i]);
                    } else if i > p {
                        assert(r@[i] == old_r[i - 1]);
                    }
                }
                assert forall|m: usize| m < k + 1 implies #[trigger] r@.contains(m) by {
                    if m == k {
                        assert(r@[p as int] == k);
                    } else {
                        assert(old_r.contains(m));
                        let w = choose|w: int| 0 <= w < old_r.len() && old_r[w] == m;
                        if w < p {
                            assert(r@[w] == old_r[w]);
                        } else {
                            assert(r@[w + 1] == old_r[w]);
                        }
                    }
                }
                assert forall|i: int, j: int| 0 <= i < j < r@.len() implies before_by_address(
                    *self,
                    #[trigger] r@[i] as int,
                    #[trigger] r@[j] as int,
                ) by {
                    if j < p {
                        assert(r@[i] == old_r[i] && r@[j] == old_r[j]);
                    } else if j == p {
                        assert(r@[i] == old_r[i]);
                        assert(r@[j] == k);
                    } else if i == p {
                        assert(r@[j] == old_r[j - 1]);
                        assert(r@[i] == k);
                    } else if i < p {
                        assert(r@[i] == old_r[i] && r@[j] == old_r[j - 1]);
                    } else {
                        assert(r@[i] == old_r[i - 1] && r@[j] == old_r[j - 1]);
                    }
                }
            }
            k += 1;
        }
        r
    }
}

} // verus!
