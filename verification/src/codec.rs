//! The persisted text format and its round trip.
//!
//! A dataset is rendered as a structured, human-readable text: a
//! top-level array-of-tables field `data`, one `[[data]]` section per
//! collection carrying its `collection` name, and one `[[data.values]]`
//! section per entry carrying its `key` and `value`. A collection with no
//! entries carries `values = []` instead. Strings are written as basic
//! (double-quoted) strings with the usual escapes — `\"`, `\\`, `\b`,
//! `\t`, `\n`, `\f`, `\r`, and `\u00XX` for the remaining control
//! characters — so every rendered file is well-formed in the documented
//! shape.
//!
//! The parser reads that shape back: it decodes the escapes, accepts
//! literal (single-quoted) strings as well, and tolerates blank lines
//! between sections. Parsing is proved to invert rendering.

use vstd::prelude::*;
use crate::collection::BoomEntry;
use crate::collection::BoomCollection;
use crate::collection::EntryModel;
use crate::collection::CollectionModel;

verus! {

broadcast use vstd::seq_lib::group_seq_properties;

/// The text that opens a collection section, up to the quote that opens
/// its name.
pub open spec fn lit_coll() -> Seq<char> {
    "[[data]]\ncollection = "@
}

/// The text that opens an entry section, up to the quote that opens its
/// key.
pub open spec fn lit_entry() -> Seq<char> {
    "[[data.values]]\nkey = "@
}

/// The line that stands for an empty entry list.
pub open spec fn lit_vals_empty() -> Seq<char> {
    "values = []\n"@
}

/// The text between an entry's key and its value.
pub open spec fn lit_mid() -> Seq<char> {
    "\nvalue = "@
}

/// The line break that closes a quoted name, key or value line.
pub open spec fn lit_end() -> Seq<char> {
    "\n"@
}

/// The upper-case hexadecimal digit character for one digit value.
pub open spec fn hex_char(d: nat) -> char {
    if d == 0 {
        '0'
    } else if d == 1 {
        '1'
    } else if d == 2 {
        '2'
    } else if d == 3 {
        '3'
    } else if d == 4 {
        '4'
    } else if d == 5 {
        '5'
    } else if d == 6 {
        '6'
    } else if d == 7 {
        '7'
    } else if d == 8 {
        '8'
    } else if d == 9 {
        '9'
    } else if d == 10 {
        'A'
    } else if d == 11 {
        'B'
    } else if d == 12 {
        'C'
    } else if d == 13 {
        'D'
    } else if d == 14 {
        'E'
    } else {
        'F'
    }
}

/// The value of a hexadecimal digit character, either case, or `-1` for
/// any other character.
pub open spec fn hex_val(c: char) -> int {
    if c == '0' {
        0
    } else if c == '1' {
        1
    } else if c == '2' {
        2
    } else if c == '3' {
        3
    } else if c == '4' {
        4
    } else if c == '5' {
        5
    } else if c == '6' {
        6
    } else if c == '7' {
        7
    } else if c == '8' {
        8
    } else if c == '9' {
        9
    } else if c == 'a' || c == 'A' {
        10
    } else if c == 'b' || c == 'B' {
        11
    } else if c == 'c' || c == 'C' {
        12
    } else if c == 'd' || c == 'D' {
        13
    } else if c == 'e' || c == 'E' {
        14
    } else if c == 'f' || c == 'F' {
        15
    } else {
        -1
    }
}

/// Whether a character must be escaped with a `\u00XX` sequence: the
/// control characters that have no short escape of their own.
pub open spec fn needs_u_escape(c: char) -> bool {
    ((c as u32) < 0x20 || c == '\u{7f}') && c != '\u{8}' && c != '\t' && c != '\n' && c
        != '\u{c}' && c != '\r'
}

/// The escape of one character in a basic string: `"` and `\` and the
/// named control characters get their short escapes, the remaining
/// control characters a `\u00XX` escape, and every other character
/// stands for itself.
pub open spec fn esc_char(c: char) -> Seq<char> {
    if c == '"' {
        seq!['\\', '"']
    } else if c == '\\' {
        seq!['\\', '\\']
    } else if c == '\u{8}' {
        seq!['\\', 'b']
    } else if c == '\t' {
        seq!['\\', 't']
    } else if c == '\n' {
        seq!['\\', 'n']
    } else if c == '\u{c}' {
        seq!['\\', 'f']
    } else if c == '\r' {
        seq!['\\', 'r']
    } else if needs_u_escape(c) {
        seq!['\\', 'u', '0', '0', hex_char(((c as u32) / 16) as nat), hex_char(
            ((c as u32) % 16) as nat,
        )]
    } else {
        seq![c]
    }
}

/// The character a short escape stands for, if the character after the
/// backslash is one of the short escapes.
pub open spec fn unesc_char(c: char) -> Option<char> {
    if c == '"' {
        Some('"')
    } else if c == '\\' {
        Some('\\')
    } else if c == 'b' {
        Some('\u{8}')
    } else if c == 't' {
        Some('\t')
    } else if c == 'n' {
        Some('\n')
    } else if c == 'f' {
        Some('\u{c}')
    } else if c == 'r' {
        Some('\r')
    } else {
        None
    }
}

/// The escape of a string, character by character.
pub open spec fn esc(s: Seq<char>) -> Seq<char>
    decreases s.len(),
{
    if s.len() == 0 {
        Seq::empty()
    } else {
        esc_char(s[0]) + esc(s.drop_first())
    }
}

/// A quoted string: the opening quote, the escaped contents, and the
/// closing quote.
pub open spec fn qstr(s: Seq<char>) -> Seq<char> {
    seq!['"'] + esc(s).push('"')
}

/// The rendering of one entry section.
pub open spec fn ser_entry(e: EntryModel) -> Seq<char> {
    lit_entry() + qstr(e.key) + lit_mid() + qstr(e.value) + lit_end()
}

/// The rendering of a sequence of entry sections.
pub open spec fn ser_entries(es: Seq<EntryModel>) -> Seq<char>
    decreases es.len(),
{
    if es.len() == 0 {
        Seq::empty()
    } else {
        ser_entry(es[0]) + ser_entries(es.drop_first())
    }
}

/// The rendering of a collection's entry list: its sections, or the
/// empty-list line when it has none.
pub open spec fn ser_vals(es: Seq<EntryModel>) -> Seq<char> {
    if es.len() == 0 {
        lit_vals_empty()
    } else {
        ser_entries(es)
    }
}

/// The rendering of one collection section with its entry list.
pub open spec fn ser_coll(c: CollectionModel) -> Seq<char> {
    lit_coll() + qstr(c.name) + lit_end() + ser_vals(c.entries)
}

/// The rendering of a whole dataset.
pub open spec fn render(ds: Seq<CollectionModel>) -> Seq<char>
    decreases ds.len(),
{
    if ds.len() == 0 {
        Seq::empty()
    } else {
        ser_coll(ds[0]) + render(ds.drop_first())
    }
}

/// Parsing a basic string's body: the characters up to the first
/// unescaped quote, with the escapes decoded; yields the contents and
/// the remainder after the closing quote.
pub open spec fn p_str(s: Seq<char>) -> Option<(Seq<char>, Seq<char>)>
    decreases s.len(),
{
    if s.len() == 0 {
        None
    } else if s[0] == '"' {
        Some((Seq::empty(), s.drop_first()))
    } else if s[0] == '\\' {
        if s.len() < 2 {
            None
        } else if s[1] == 'u' {
            if s.len() < 6 {
                None
            } else {
                let h3 = hex_val(s[4]);
                let h4 = hex_val(s[5]);
                if s[2] != '0' || s[3] != '0' || h3 < 0 || h4 < 0 {
                    None
                } else {
                    match p_str(s.skip(6)) {
                        None => None,
                        Some((t, r)) => Some(
                            (seq![(((h3 * 16 + h4) as u32) as char)] + t, r),
                        ),
                    }
                }
            }
        } else {
            match unesc_char(s[1]) {
                None => None,
                Some(c) => match p_str(s.skip(2)) {
                    None => None,
                    Some((t, r)) => Some((seq![c] + t, r)),
                },
            }
        }
    } else {
        match p_str(s.drop_first()) {
            None => None,
            Some((t, r)) => Some((seq![s[0]] + t, r)),
        }
    }
}

/// Parsing a literal string's body: the characters up to the closing
/// single quote, taken as they stand.
pub open spec fn p_lstr(s: Seq<char>) -> Option<(Seq<char>, Seq<char>)>
    decreases s.len(),
{
    if s.len() == 0 {
        None
    } else if s[0] == '\'' {
        Some((Seq::empty(), s.drop_first()))
    } else {
        match p_lstr(s.drop_first()) {
            None => None,
            Some((t, r)) => Some((seq![s[0]] + t, r)),
        }
    }
}

/// Parsing a string in either spelling: basic (double-quoted, with
/// escapes) or literal (single-quoted, verbatim).
pub open spec fn p_qstr(s: Seq<char>) -> Option<(Seq<char>, Seq<char>)> {
    if s.len() == 0 {
        None
    } else if s[0] == '"' {
        p_str(s.drop_first())
    } else if s[0] == '\'' {
        p_lstr(s.drop_first())
    } else {
        None
    }
}

/// The text past any leading blank lines.
pub open spec fn skip_nl(s: Seq<char>) -> Seq<char>
    decreases s.len(),
{
    if s.len() > 0 && s[0] == '\n' {
        skip_nl(s.drop_first())
    } else {
        s
    }
}

/// Parsing a fixed piece of text: the remainder past it, when the input
/// starts with it.
pub open spec fn p_lit(s: Seq<char>, l: Seq<char>) -> Option<Seq<char>> {
    if l.is_prefix_of(s) {
        Some(s.skip(l.len() as int))
    } else {
        None
    }
}

/// Parsing one entry section.
pub open spec fn p_entry(s: Seq<char>) -> Option<(EntryModel, Seq<char>)> {
    match p_lit(s, lit_entry()) {
        None => None,
        Some(s1) => match p_qstr(s1) {
            None => None,
            Some((k, s2)) => match p_lit(s2, lit_mid()) {
                None => None,
                Some(s3) => match p_qstr(s3) {
                    None => None,
                    Some((v, s4)) => match p_lit(s4, lit_end()) {
                        None => None,
                        Some(s5) => Some((EntryModel { key: k, value: v }, s5)),
                    },
                },
            },
        },
    }
}

/// Parsing entry sections for as long as one opens here, past any blank
/// lines in between.
pub open spec fn p_entries(s: Seq<char>) -> Option<(Seq<EntryModel>, Seq<char>)>
    decreases s.len(),
{
    let s0 = skip_nl(s);
    if lit_entry().is_prefix_of(s0) {
        match p_entry(s0) {
            None => None,
            Some((e, r)) => if r.len() < s.len() {
                match p_entries(r) {
                    None => None,
                    Some((es, r2)) => Some((seq![e] + es, r2)),
                }
            } else {
                None
            },
        }
    } else {
        Some((Seq::empty(), s0))
    }
}

/// Parsing one collection section with its entry list.
pub open spec fn p_coll(s: Seq<char>) -> Option<(CollectionModel, Seq<char>)> {
    match p_lit(s, lit_coll()) {
        None => None,
        Some(s1) => match p_qstr(s1) {
            None => None,
            Some((n, s2)) => match p_lit(s2, lit_end()) {
                None => None,
                Some(s3) => if lit_vals_empty().is_prefix_of(skip_nl(s3)) {
                    Some(
                        (
                            CollectionModel { name: n, entries: Seq::empty() },
                            skip_nl(s3).skip(lit_vals_empty().len() as int),
                        ),
                    )
                } else {
                    match p_entries(s3) {
                        None => None,
                        Some((es, r)) => Some((CollectionModel { name: n, entries: es }, r)),
                    }
                },
            },
        },
    }
}

/// Parsing a whole dataset: collection sections until the end of the
/// text.
pub open spec fn p_doc(s: Seq<char>) -> Option<Seq<CollectionModel>>
    decreases s.len(),
{
    let s0 = skip_nl(s);
    if s0.len() == 0 {
        Some(Seq::empty())
    } else {
        match p_coll(s0) {
            None => None,
            Some((c, r)) => if r.len() < s.len() {
                match p_doc(r) {
                    None => None,
                    Some(ds) => Some(seq![c] + ds),
                }
            } else {
                None
            },
        }
    }
}

/// The concrete shapes of the format's fixed pieces of text.
proof fn lemma_lits()
    ensures
        lit_coll().len() == 22,
        lit_entry().len() == 22,
        lit_vals_empty().len() == 12,
        lit_mid().len() == 9,
        lit_end().len() == 1,
        lit_coll()[0] == '[',
        lit_entry()[0] == '[',
        lit_vals_empty()[0] == 'v',
        lit_coll()[6] == ']',
        lit_entry()[6] == '.',
{
    reveal_strlit("[[data]]\ncollection = ");
    reveal_strlit("[[data.values]]\nkey = ");
    reveal_strlit("values = []\n");
    reveal_strlit("\nvalue = ");
    reveal_strlit("\n");
}

/// Text that is empty or does not open with a blank line is untouched
/// by the blank-line skip.
proof fn lemma_skip_nl_fixed(s: Seq<char>)
    requires
        s.len() == 0 || s[0] != '\n',
    ensures
        skip_nl(s) == s,
{
}

/// Text that is empty or opens a collection section does not open an
/// entry section.
proof fn lemma_not_entry_prefix(rest: Seq<char>)
    requires
        rest.len() == 0 || lit_coll().is_prefix_of(rest),
    ensures
        !lit_entry().is_prefix_of(rest),
{
    lemma_lits();
    if rest.len() != 0 && lit_entry().is_prefix_of(rest) {
        assert(rest[6] == lit_coll()[6]);
        assert(rest[6] == lit_entry()[6]);
    }
}

/// Text that opens an entry section does not carry the empty-list line.
proof fn lemma_not_vals_empty_prefix(s: Seq<char>)
    requires
        lit_entry().is_prefix_of(s),
    ensures
        !lit_vals_empty().is_prefix_of(s),
{
    lemma_lits();
    if lit_vals_empty().is_prefix_of(s) {
        assert(s[0] == lit_entry()[0]);
        assert(s[0] == lit_vals_empty()[0]);
    }
}

/// Parsing a fixed piece of text past itself yields the rest.
proof fn lemma_p_lit(l: Seq<char>, rest: Seq<char>)
    ensures
        p_lit(l + rest, l) == Some(rest),
{
    assert(l =~= (l + rest).subrange(0, l.len() as int));
    assert((l + rest).skip(l.len() as int) =~= rest);
}

/// Parsing a basic string undoes its rendering: the contents come back
/// exactly, with the remainder untouched.
#[verifier::rlimit(100)]
proof fn lemma_p_str(x: Seq<char>, rest: Seq<char>)
    ensures
        p_str(esc(x).push('"') + rest) == Some((x, rest)),
    decreases x.len(),
{
    let s = esc(x).push('"') + rest;
    if x.len() == 0 {
        assert(esc(x) =~= Seq::<char>::empty());
        assert(s[0] == '"');
        assert(s.drop_first() =~= rest);
        assert(x =~= Seq::<char>::empty());
    } else {
        let c = x[0];
        let t = x.drop_first();
        assert(esc(x) == esc_char(c) + esc(t));
        lemma_p_str(t, rest);
        let e = esc_char(c);
        let tail = esc(t).push('"') + rest;
        assert(s =~= e + tail);
        if c == '"' || c == '\\' || c == '\u{8}' || c == '\t' || c == '\n' || c == '\u{c}'
            || c == '\r' {
            assert(s[0] == '\\');
            assert(s.len() >= 2);
            assert(s[1] == e[1]);
            assert(s[1] != 'u');
            assert(unesc_char(s[1]) == Some(c));
            assert(s.skip(2) =~= tail);
            assert(p_str(s.skip(2)) == Some((t, rest)));
            assert(seq![c] + t =~= x);
        } else if needs_u_escape(c) {
            let hi = ((c as u32) / 16) as nat;
            let lo = ((c as u32) % 16) as nat;
            assert(s[0] == '\\');
            assert(s[1] == 'u');
            assert(s.len() >= 6);
            assert(s[2] == '0');
            assert(s[3] == '0');
            assert(s[4] == hex_char(hi));
            assert(s[5] == hex_char(lo));
            assert(hex_val(hex_char(hi)) == hi);
            assert(hex_val(hex_char(lo)) == lo);
            assert(hi * 16 + lo == c as u32);
            vstd::utf8::char_u32_cast(c, c as u32);
            assert((((hex_val(s[4]) * 16 + hex_val(s[5])) as u32) as char) == c);
            assert(s.skip(6) =~= tail);
            assert(p_str(s.skip(6)) == Some((t, rest)));
            assert(seq![c] + t =~= x);
        } else {
            assert(s[0] == c);
            assert(c != '"' && c != '\\');
            assert(s.drop_first() =~= tail);
            assert(p_str(s.drop_first()) == Some((t, rest)));
            assert(seq![c] + t =~= x);
        }
    }
}

/// Parsing a quoted string undoes its rendering, through either quote
/// dispatch.
proof fn lemma_p_qstr(x: Seq<char>, rest: Seq<char>)
    ensures
        p_qstr(qstr(x) + rest) == Some((x, rest)),
{
    let s = qstr(x) + rest;
    assert(s[0] == '"');
    assert(s.drop_first() =~= esc(x).push('"') + rest);
    lemma_p_str(x, rest);
}

/// Parsing one entry section undoes its rendering, and consumes at least
/// one character.
#[verifier::rlimit(100)]
proof fn lemma_p_entry(e: EntryModel, rest: Seq<char>)
    ensures
        p_entry(ser_entry(e) + rest) == Some((e, rest)),
        (ser_entry(e) + rest).len() > rest.len(),
        lit_entry().is_prefix_of(ser_entry(e) + rest),
{
    lemma_lits();
    let s = ser_entry(e) + rest;
    let tail1 = qstr(e.key) + (lit_mid() + (qstr(e.value) + (lit_end() + rest)));
    assert(s =~= lit_entry() + tail1);
    lemma_p_lit(lit_entry(), tail1);
    assert(p_lit(s, lit_entry()) == Some(tail1));
    let tail2 = lit_mid() + (qstr(e.value) + (lit_end() + rest));
    lemma_p_qstr(e.key, tail2);
    assert(tail1 =~= qstr(e.key) + tail2);
    assert(p_qstr(tail1) == Some((e.key, tail2)));
    let tail3 = qstr(e.value) + (lit_end() + rest);
    lemma_p_lit(lit_mid(), tail3);
    assert(p_lit(tail2, lit_mid()) == Some(tail3));
    let tail4 = lit_end() + rest;
    lemma_p_qstr(e.value, tail4);
    assert(p_qstr(tail3) == Some((e.value, tail4)));
    lemma_p_lit(lit_end(), rest);
    assert(p_lit(tail4, lit_end()) == Some(rest));
    assert(p_entry(s) == Some((EntryModel { key: e.key, value: e.value }, rest)));
    assert(e == (EntryModel { key: e.key, value: e.value }));
    assert(lit_entry() =~= s.subrange(0, lit_entry().len() as int));
}

/// Parsing entry sections undoes their rendering, as long as what
/// follows neither opens an entry section nor begins with a blank line.
#[verifier::rlimit(100)]
proof fn lemma_p_entries(es: Seq<EntryModel>, rest: Seq<char>)
    requires
        rest.len() == 0 || rest[0] != '\n',
        !lit_entry().is_prefix_of(rest),
    ensures
        p_entries(ser_entries(es) + rest) == Some((es, rest)),
    decreases es.len(),
{
    lemma_lits();
    if es.len() == 0 {
        assert(ser_entries(es) + rest =~= rest);
        lemma_skip_nl_fixed(rest);
        assert(p_entries(rest) == Some((Seq::<EntryModel>::empty(), rest)));
        assert(es =~= Seq::<EntryModel>::empty());
    } else {
        let e = es[0];
        let t = es.drop_first();
        let s = ser_entries(es) + rest;
        let mid = ser_entries(t) + rest;
        assert(s =~= ser_entry(e) + mid);
        lemma_p_entry(e, mid);
        assert(s[0] == lit_entry()[0]);
        assert(s[0] != '\n');
        lemma_skip_nl_fixed(s);
        assert(p_entry(s) == Some((e, mid)));
        assert(mid.len() < s.len());
        lemma_p_entries(t, rest);
        assert(p_entries(mid) == Some((t, rest)));
        assert(seq![e] + t =~= es);
    }
}

/// Parsing one collection section undoes its rendering, as long as what
/// follows neither opens an entry section nor begins with a blank line;
/// it consumes at least one character.
#[verifier::rlimit(100)]
proof fn lemma_p_coll(c: CollectionModel, rest: Seq<char>)
    requires
        rest.len() == 0 || rest[0] != '\n',
        !lit_entry().is_prefix_of(rest),
    ensures
        p_coll(ser_coll(c) + rest) == Some((c, rest)),
        (ser_coll(c) + rest).len() > rest.len(),
        lit_coll().is_prefix_of(ser_coll(c) + rest),
{
    lemma_lits();
    let s = ser_coll(c) + rest;
    let tail1 = qstr(c.name) + (lit_end() + (ser_vals(c.entries) + rest));
    assert(s =~= lit_coll() + tail1);
    lemma_p_lit(lit_coll(), tail1);
    assert(p_lit(s, lit_coll()) == Some(tail1));
    let tail2 = lit_end() + (ser_vals(c.entries) + rest);
    lemma_p_qstr(c.name, tail2);
    assert(tail1 =~= qstr(c.name) + tail2);
    assert(p_qstr(tail1) == Some((c.name, tail2)));
    let tail3 = ser_vals(c.entries) + rest;
    lemma_p_lit(lit_end(), tail3);
    assert(p_lit(tail2, lit_end()) == Some(tail3));
    if c.entries.len() == 0 {
        assert(tail3 =~= lit_vals_empty() + rest);
        assert(tail3[0] == lit_vals_empty()[0]);
        lemma_skip_nl_fixed(tail3);
        assert(lit_vals_empty() =~= tail3.subrange(0, lit_vals_empty().len() as int));
        assert(lit_vals_empty().is_prefix_of(tail3));
        assert(tail3.skip(lit_vals_empty().len() as int) =~= rest);
        assert(c == (CollectionModel { name: c.name, entries: Seq::<EntryModel>::empty() }));
    } else {
        let mid = ser_entries(c.entries.drop_first()) + rest;
        assert(tail3 =~= ser_entry(c.entries[0]) + mid);
        lemma_p_entry(c.entries[0], mid);
        assert(tail3[0] == lit_entry()[0]);
        lemma_skip_nl_fixed(tail3);
        lemma_not_vals_empty_prefix(tail3);
        lemma_p_entries(c.entries, rest);
        assert(tail3 =~= ser_entries(c.entries) + rest);
        assert(p_entries(tail3) == Some((c.entries, rest)));
        assert(c == (CollectionModel { name: c.name, entries: c.entries }));
    }
    assert(lit_coll() =~= s.subrange(0, lit_coll().len() as int));
}

/// Law: parsing undoes rendering — a dataset written out and read back
/// is exactly the dataset that was written.
#[verifier::rlimit(100)]
pub proof fn lemma_round_trip(ds: Seq<CollectionModel>)
    ensures
        p_doc(render(ds)) == Some(ds),
    decreases ds.len(),
{
    lemma_lits();
    if ds.len() == 0 {
        assert(render(ds).len() == 0);
        assert(skip_nl(render(ds)).len() == 0);
        assert(ds =~= Seq::<CollectionModel>::empty());
    } else {
        let c = ds[0];
        let t = ds.drop_first();
        let s = render(ds);
        let rest = render(t);
        assert(s =~= ser_coll(c) + rest);
        if t.len() == 0 {
            assert(rest.len() == 0);
            lemma_not_entry_prefix(rest);
        } else {
            lemma_render_opens_coll(t);
            lemma_not_entry_prefix(rest);
        }
        lemma_p_coll(c, rest);
        assert(s[0] == lit_coll()[0]);
        lemma_skip_nl_fixed(s);
        assert(p_coll(s) == Some((c, rest)));
        assert(rest.len() < s.len());
        lemma_round_trip(t);
        assert(p_doc(rest) == Some(t));
        assert(seq![c] + t =~= ds);
    }
}

/// Law: a well-formed dataset handed out by `save` is accepted by
/// `load` and yields the very dataset that was saved — the same
/// collections, names, entries, and per-collection, per-entry order.
pub proof fn lemma_save_load(ds: Seq<CollectionModel>)
    requires
        crate::store::store_wf(ds),
    ensures
        p_doc(render(ds)) == Some(ds),
        crate::store::store_wf(p_doc(render(ds)).unwrap()),
{
    lemma_round_trip(ds);
}

/// The rendering of a non-empty dataset opens with a collection
/// section's first characters.
proof fn lemma_render_opens_coll(ds: Seq<CollectionModel>)
    requires
        ds.len() > 0,
    ensures
        lit_coll().is_prefix_of(render(ds)),
        render(ds)[0] != '\n',
{
    lemma_lits();
    let s = render(ds);
    let c = ds[0];
    let x = qstr(c.name) + (lit_end() + (ser_vals(c.entries) + render(ds.drop_first())));
    assert(s =~= lit_coll() + x);
    assert(lit_coll() =~= s.subrange(0, lit_coll().len() as int));
    assert(s[0] == lit_coll()[0]);
}

/// Relies on String::push: appends one character at the end of the
/// string.
#[verifier::external_body]
pub(crate) fn push_char(s: &mut String, c: char)
    ensures
        final(s)@ == old(s)@.push(c),
{
    s.push(c);
}

/// Escaping one appended character at a time matches escaping the whole
/// string.
proof fn lemma_esc_snoc(a: Seq<char>, c: char)
    ensures
        esc(a.push(c)) == esc(a) + esc_char(c),
    decreases a.len(),
{
    if a.len() == 0 {
        assert(a.push(c)[0] == c);
        assert(a.push(c).drop_first() =~= Seq::<char>::empty());
        assert(esc(Seq::<char>::empty()) =~= Seq::<char>::empty());
        assert(esc(a.push(c)) =~= esc_char(c));
        assert(esc(a) + esc_char(c) =~= esc_char(c));
    } else {
        assert(a.push(c)[0] == a[0]);
        assert(a.push(c).drop_first() =~= a.drop_first().push(c));
        lemma_esc_snoc(a.drop_first(), c);
        assert(esc_char(a[0]) + (esc(a.drop_first()) + esc_char(c)) =~= (esc_char(a[0]) + esc(
            a.drop_first(),
        )) + esc_char(c));
    }
}

/// Rendering one appended entry at a time matches rendering the whole
/// sequence.
proof fn lemma_ser_entries_snoc(es: Seq<EntryModel>, e: EntryModel)
    ensures
        ser_entries(es.push(e)) == ser_entries(es) + ser_entry(e),
    decreases es.len(),
{
    if es.len() == 0 {
        assert(es.push(e)[0] == e);
        assert(es.push(e).drop_first() =~= Seq::<EntryModel>::empty());
        assert(ser_entries(Seq::<EntryModel>::empty()) =~= Seq::<char>::empty());
        assert(ser_entries(es.push(e)) =~= ser_entry(e));
        assert(ser_entries(es) + ser_entry(e) =~= ser_entry(e));
    } else {
        assert(es.push(e)[0] == es[0]);
        assert(es.push(e).drop_first() =~= es.drop_first().push(e));
        lemma_ser_entries_snoc(es.drop_first(), e);
        assert(ser_entry(es[0]) + (ser_entries(es.drop_first()) + ser_entry(e)) =~= (ser_entry(
            es[0],
        ) + ser_entries(es.drop_first())) + ser_entry(e));
    }
}

/// Rendering one appended collection at a time matches rendering the
/// whole dataset.
proof fn lemma_render_snoc(ds: Seq<CollectionModel>, c: CollectionModel)
    ensures
        render(ds.push(c)) == render(ds) + ser_coll(c),
    decreases ds.len(),
{
    if ds.len() == 0 {
        assert(ds.push(c)[0] == c);
        assert(ds.push(c).drop_first() =~= Seq::<CollectionModel>::empty());
        assert(render(Seq::<CollectionModel>::empty()) =~= Seq::<char>::empty());
        assert(render(ds.push(c)) =~= ser_coll(c));
        assert(render(ds) + ser_coll(c) =~= ser_coll(c));
    } else {
        assert(ds.push(c)[0] == ds[0]);
        assert(ds.push(c).drop_first() =~= ds.drop_first().push(c));
        lemma_render_snoc(ds.drop_first(), c);
        assert(ser_coll(ds[0]) + (render(ds.drop_first()) + ser_coll(c)) =~= (ser_coll(ds[0])
            + render(ds.drop_first())) + ser_coll(c));
    }
}

/// The upper-case hexadecimal digit character of one digit value.
fn hex_x(d: usize) -> (r: char)
    requires
        d < 16,
    ensures
        r == hex_char(d as nat),
{
    if d == 0 {
        '0'
    } else if d == 1 {
        '1'
    } else if d == 2 {
        '2'
    } else if d == 3 {
        '3'
    } else if d == 4 {
        '4'
    } else if d == 5 {
        '5'
    } else if d == 6 {
        '6'
    } else if d == 7 {
        '7'
    } else if d == 8 {
        '8'
    } else if d == 9 {
        '9'
    } else if d == 10 {
        'A'
    } else if d == 11 {
        'B'
    } else if d == 12 {
        'C'
    } else if d == 13 {
        'D'
    } else if d == 14 {
        'E'
    } else {
        'F'
    }
}

/// The value of a hexadecimal digit character, either case.
fn hex_val_x(c: char) -> (r: Option<u8>)
    ensures
        match r {
            Some(v) => hex_val(c) == v && v < 16,
            None => hex_val(c) < 0,
        },
{
    if c == '0' {
        Some(0)
    } else if c == '1' {
        Some(1)
    } else if c == '2' {
        Some(2)
    } else if c == '3' {
        Some(3)
    } else if c == '4' {
        Some(4)
    } else if c == '5' {
        Some(5)
    } else if c == '6' {
        Some(6)
    } else if c == '7' {
        Some(7)
    } else if c == '8' {
        Some(8)
    } else if c == '9' {
        Some(9)
    } else if c == 'a' || c == 'A' {
        Some(10)
    } else if c == 'b' || c == 'B' {
        Some(11)
    } else if c == 'c' || c == 'C' {
        Some(12)
    } else if c == 'd' || c == 'D' {
        Some(13)
    } else if c == 'e' || c == 'E' {
        Some(14)
    } else if c == 'f' || c == 'F' {
        Some(15)
    } else {
        None
    }
}

/// The character a short escape stands for.
fn unesc_x(c: char) -> (r: Option<char>)
    ensures
        r == unesc_char(c),
{
    if c == '"' {
        Some('"')
    } else if c == '\\' {
        Some('\\')
    } else if c == 'b' {
        Some('\u{8}')
    } else if c == 't' {
        Some('\t')
    } else if c == 'n' {
        Some('\n')
    } else if c == 'f' {
        Some('\u{c}')
    } else if c == 'r' {
        Some('\r')
    } else {
        None
    }
}

/// The escaped form of a string's characters.
fn esc_x(s: &str) -> (r: String)
    ensures
        r@ == esc(s@),
{
    let n = s.unicode_len();
    let mut out = String::new();
    proof {
        assert(s@.take(0) =~= Seq::<char>::empty());
    }
    let mut i: usize = 0;
    while i < n
        invariant
            n == s@.len(),
            0 <= i <= n,
            out@ == esc(s@.take(i as int)),
        decreases n - i,
    {
        let c = s.get_char(i);
        if c == '"' || c == '\\' {
            push_char(&mut out, '\\');
            push_char(&mut out, c);
        } else if c == '\u{8}' {
            push_char(&mut out, '\\');
            push_char(&mut out, 'b');
        } else if c == '\t' {
            push_char(&mut out, '\\');
            push_char(&mut out, 't');
        } else if c == '\n' {
            push_char(&mut out, '\\');
            push_char(&mut out, 'n');
        } else if c == '\u{c}' {
            push_char(&mut out, '\\');
            push_char(&mut out, 'f');
        } else if c == '\r' {
            push_char(&mut out, '\\');
            push_char(&mut out, 'r');
        } else if (c as u32) < 0x20 || c == '\u{7f}' {
            push_char(&mut out, '\\');
            push_char(&mut out, 'u');
            push_char(&mut out, '0');
            push_char(&mut out, '0');
            let v = c as u32;
            push_char(&mut out, hex_x((v / 16) as usize));
            push_char(&mut out, hex_x((v % 16) as usize));
            proof {
                assert(needs_u_escape(c));
            }
        } else {
            push_char(&mut out, c);
        }
        proof {
            assert(s@.take(i + 1) =~= s@.take(i as int).push(s@[i as int]));
            lemma_esc_snoc(s@.take(i as int), s@[i as int]);
            assert(out@ =~= esc(s@.take(i as int)) + esc_char(s@[i as int]));
        }
        i += 1;
    }
    proof {
        assert(s@.take(n as int) =~= s@);
    }
    out
}

/// Appends the quoted form of a string: its escaped contents and the
/// closing quote.
fn qstr_append(out: &mut String, s: &str)
    ensures
        final(out)@ == old(out)@ + qstr(s@),
{
    push_char(out, '"');
    let e = esc_x(s);
    out.append(e.as_str());
    push_char(out, '"');
    proof {
        assert(((old(out)@.push('"')) + esc(s@)).push('"') =~= old(out)@ + qstr(s@));
    }
}

/// Appends the rendering of one entry section.
fn ser_entry_x(e: &BoomEntry, out: &mut String)
    ensures
        final(out)@ == old(out)@ + ser_entry(e@),
{
    out.append("[[data.values]]\nkey = ");
    qstr_append(out, e.key.as_str());
    out.append("\nvalue = ");
    qstr_append(out, e.value.as_str());
    out.append("\n");
    proof {
        assert(final(out)@ =~= old(out)@ + ser_entry(e@));
    }
}

/// Appends the rendering of one collection section with its entry list.
fn ser_coll_x(c: &BoomCollection, out: &mut String)
    ensures
        final(out)@ == old(out)@ + ser_coll(c@),
{
    out.append("[[data]]\ncollection = ");
    qstr_append(out, c.collection.as_str());
    out.append("\n");
    if c.values.len() == 0 {
        out.append("values = []\n");
        proof {
            assert(c@.entries.len() == 0);
            assert(final(out)@ =~= old(out)@ + ser_coll(c@));
        }
    } else {
        let ghost base = out@;
        let ghost es = c@.entries;
        proof {
            assert(es.take(0) =~= Seq::<EntryModel>::empty());
        }
        let mut i: usize = 0;
        while i < c.values.len()
            invariant
                0 <= i <= c.values.len(),
                es == c@.entries,
                out@ == base + ser_entries(es.take(i as int)),
            decreases c.values.len() - i,
        {
            ser_entry_x(&c.values[i], out);
            proof {
                assert(c.values[i as int]@ == es[i as int]);
                assert(es.take(i + 1) =~= es.take(i as int).push(es[i as int]));
                lemma_ser_entries_snoc(es.take(i as int), es[i as int]);
                assert((base + ser_entries(es.take(i as int))) + ser_entry(es[i as int]) =~= base
                    + ser_entries(es.take(i + 1)));
            }
            i += 1;
        }
        proof {
            assert(es.take(c.values@.len() as int) =~= es);
            assert(es.len() > 0);
            assert(out@ =~= old(out)@ + ser_coll(c@));
        }
    }
}

impl crate::store::BoomData {
    /// The rendering of the whole dataset in the persisted text format,
    /// ready to be written out in full.
    pub fn save(&self) -> (r: String)
        ensures
            r@ == render(self@),
    {
        let mut out = String::new();
        let ghost ds = self@;
        proof {
            assert(ds.take(0) =~= Seq::<CollectionModel>::empty());
        }
        let mut i: usize = 0;
        while i < self.data.len()
            invariant
                0 <= i <= self.data.len(),
                ds == self@,
                out@ == render(ds.take(i as int)),
            decreases self.data.len() - i,
        {
            ser_coll_x(&self.data[i], &mut out);
            proof {
                assert(self.data[i as int]@ == ds[i as int]);
                assert(ds.take(i + 1) =~= ds.take(i as int).push(ds[i as int]));
                lemma_render_snoc(ds.take(i as int), ds[i as int]);
                assert(render(ds.take(i as int)) + ser_coll(ds[i as int]) =~= render(
                    ds.take(i + 1),
                ));
            }
            i += 1;
        }
        proof {
            assert(ds.take(self.data@.len() as int) =~= ds);
        }
        out
    }
}

/// Matches a fixed piece of text at a position; yields the position past
/// it when the input carries it there.
fn p_lit_x(s: &str, n: usize, pos: usize, l: &str) -> (r: Option<usize>)
    requires
        n == s@.len(),
        pos <= n,
    ensures
        match r {
            Some(p2) => pos <= p2 <= n && p2 - pos == l@.len() && p_lit(
                s@.skip(pos as int),
                l@,
            ) == Some(s@.skip(p2 as int)),
            None => p_lit(s@.skip(pos as int), l@) is None,
        },
{
    let ll = l.unicode_len();
    if n - pos < ll {
        proof {
            assert(s@.skip(pos as int).len() < l@.len());
        }
        return None;
    }
    let mut j: usize = 0;
    while j < ll
        invariant
            n == s@.len(),
            ll == l@.len(),
            pos + ll <= n,
            0 <= j <= ll,
            forall|m: int| 0 <= m <= j - 1 ==> s@[pos + m] == l@[m],
        decreases ll - j,
    {
        if s.get_char(pos + j) != l.get_char(j) {
            proof {
                assert(s@.skip(pos as int)[j as int] == s@[pos + j]);
                if l@.is_prefix_of(s@.skip(pos as int)) {
                    assert(l@ == s@.skip(pos as int).subrange(0, ll as int));
                    assert(l@[j as int] == s@.skip(pos as int)[j as int]);
                }
            }
            return None;
        }
        j += 1;
    }
    proof {
        assert forall|m: int| 0 <= m < ll implies s@.skip(pos as int).subrange(0, ll as int)[m]
            == l@[m] by {
            assert(s@.skip(pos as int)[m] == s@[pos + m]);
        }
        assert(l@ =~= s@.skip(pos as int).subrange(0, ll as int));
        assert(l@.is_prefix_of(s@.skip(pos as int)));
        assert(s@.skip(pos as int).skip(ll as int) =~= s@.skip(pos as int + ll as int));
    }
    Some(pos + ll)
}

/// Parses a quoted string's body at a position: the contents with
/// escapes undone, and the position past the closing quote.
fn p_str_x(s: &str, n: usize, pos: usize) -> (r: Option<(String, usize)>)
    requires
        n == s@.len(),
        pos <= n,
    ensures
        match r {
            Some(p) => pos < p.1 <= n && p_str(s@.skip(pos as int)) == Some(
                (p.0@, s@.skip(p.1 as int)),
            ),
            None => p_str(s@.skip(pos as int)) is None,
        },
    decreases n - pos,
{
    let ghost s0 = s@.skip(pos as int);
    if pos == n {
        proof {
            assert(s0.len() == 0);
        }
        return None;
    }
    let c = s.get_char(pos);
    proof {
        assert(s0[0] == s@[pos as int]);
    }
    if c == '"' {
        proof {
            assert(s0.drop_first() =~= s@.skip(pos as int + 1));
        }
        let out = String::new();
        return Some((out, pos + 1));
    }
    if c == '\\' {
        if pos + 1 == n {
            proof {
                assert(s0.len() < 2);
            }
            return None;
        }
        let c2 = s.get_char(pos + 1);
        proof {
            assert(s0.len() >= 2);
            assert(s0[1] == s@[pos as int + 1]);
        }
        if c2 == 'u' {
            if n - pos < 6 {
                proof {
                    assert(s0.len() < 6);
                }
                return None;
            }
            let d1 = s.get_char(pos + 2);
            let d2 = s.get_char(pos + 3);
            let d3 = s.get_char(pos + 4);
            let d4 = s.get_char(pos + 5);
            proof {
                assert(s0.len() >= 6);
                assert(s0[2] == s@[pos as int + 2]);
                assert(s0[3] == s@[pos as int + 3]);
                assert(s0[4] == s@[pos as int + 4]);
                assert(s0[5] == s@[pos as int + 5]);
            }
            if d1 != '0' || d2 != '0' {
                return None;
            }
            let h3 = match hex_val_x(d3) {
                None => {
                    return None;
                },
                Some(v) => v,
            };
            let h4 = match hex_val_x(d4) {
                None => {
                    return None;
                },
                Some(v) => v,
            };
            let code: u8 = h3 * 16 + h4;
            let ch = code as char;
            proof {
                assert(code as u32 == hex_val(s0[4]) * 16 + hex_val(s0[5]));
                vstd::utf8::char_u32_cast(ch, ch as u32);
                assert(ch == (((hex_val(s0[4]) * 16 + hex_val(s0[5])) as u32) as char));
                assert(s0.skip(6) =~= s@.skip(pos as int + 6));
            }
            match p_str_x(s, n, pos + 6) {
                None => None,
                Some((t, p2)) => {
                    let mut out = String::new();
                    push_char(&mut out, ch);
                    out.append(t.as_str());
                    proof {
                        assert(out@ =~= seq![ch] + t@);
                    }
                    Some((out, p2))
                },
            }
        } else {
            let dc = match unesc_x(c2) {
                None => {
                    return None;
                },
                Some(d) => d,
            };
            proof {
                assert(s0.skip(2) =~= s@.skip(pos as int + 2));
            }
            match p_str_x(s, n, pos + 2) {
                None => None,
                Some((t, p2)) => {
                    let mut out = String::new();
                    push_char(&mut out, dc);
                    out.append(t.as_str());
                    proof {
                        assert(out@ =~= seq![dc] + t@);
                    }
                    Some((out, p2))
                },
            }
        }
    } else {
        proof {
            assert(s0.drop_first() =~= s@.skip(pos as int + 1));
        }
        match p_str_x(s, n, pos + 1) {
            None => None,
            Some((t, p2)) => {
                let mut out = String::new();
                push_char(&mut out, c);
                out.append(t.as_str());
                proof {
                    assert(out@ =~= seq![s0[0]] + t@);
                }
                Some((out, p2))
            },
        }
    }
}

/// Parses a literal string's body at a position: the characters up to
/// the closing single quote, verbatim.
fn p_lstr_x(s: &str, n: usize, pos: usize) -> (r: Option<(String, usize)>)
    requires
        n == s@.len(),
        pos <= n,
    ensures
        match r {
            Some(p) => pos < p.1 <= n && p_lstr(s@.skip(pos as int)) == Some(
                (p.0@, s@.skip(p.1 as int)),
            ),
            None => p_lstr(s@.skip(pos as int)) is None,
        },
    decreases n - pos,
{
    let ghost s0 = s@.skip(pos as int);
    if pos == n {
        proof {
            assert(s0.len() == 0);
        }
        return None;
    }
    let c = s.get_char(pos);
    proof {
        assert(s0[0] == s@[pos as int]);
    }
    if c == '\'' {
        proof {
            assert(s0.drop_first() =~= s@.skip(pos as int + 1));
        }
        let out = String::new();
        return Some((out, pos + 1));
    }
    proof {
        assert(s0.drop_first() =~= s@.skip(pos as int + 1));
    }
    match p_lstr_x(s, n, pos + 1) {
        None => None,
        Some((t, p2)) => {
            let mut out = String::new();
            push_char(&mut out, c);
            out.append(t.as_str());
            proof {
                assert(out@ =~= seq![s0[0]] + t@);
            }
            Some((out, p2))
        },
    }
}

/// Parses a string at a position in either spelling, basic or literal.
fn p_qstr_x(s: &str, n: usize, pos: usize) -> (r: Option<(String, usize)>)
    requires
        n == s@.len(),
        pos <= n,
    ensures
        match r {
            Some(p) => pos < p.1 <= n && p_qstr(s@.skip(pos as int)) == Some(
                (p.0@, s@.skip(p.1 as int)),
            ),
            None => p_qstr(s@.skip(pos as int)) is None,
        },
{
    let ghost s0 = s@.skip(pos as int);
    if pos == n {
        proof {
            assert(s0.len() == 0);
        }
        return None;
    }
    let c = s.get_char(pos);
    proof {
        assert(s0[0] == s@[pos as int]);
        assert(s0.drop_first() =~= s@.skip(pos as int + 1));
    }
    if c == '"' {
        p_str_x(s, n, pos + 1)
    } else if c == '\'' {
        p_lstr_x(s, n, pos + 1)
    } else {
        None
    }
}

/// The position past any leading blank lines.
fn skip_nl_x(s: &str, n: usize, pos: usize) -> (r: usize)
    requires
        n == s@.len(),
        pos <= n,
    ensures
        pos <= r <= n,
        s@.skip(r as int) == skip_nl(s@.skip(pos as int)),
{
    let mut p = pos;
    while p < n && s.get_char(p) == '\n'
        invariant
            n == s@.len(),
            pos <= p <= n,
            skip_nl(s@.skip(pos as int)) == skip_nl(s@.skip(p as int)),
        decreases n - p,
    {
        proof {
            assert(s@.skip(p as int)[0] == s@[p as int]);
            assert(s@.skip(p as int).drop_first() =~= s@.skip(p as int + 1));
        }
        p += 1;
    }
    proof {
        let sp = s@.skip(p as int);
        if p < n {
            assert(sp[0] == s@[p as int]);
        }
        lemma_skip_nl_fixed(sp);
    }
    p
}

/// Parses one entry section at a position.
fn p_entry_x(s: &str, n: usize, pos: usize) -> (r: Option<(BoomEntry, usize)>)
    requires
        n == s@.len(),
        pos <= n,
    ensures
        match r {
            Some(p) => pos < p.1 <= n && p_entry(s@.skip(pos as int)) == Some(
                (p.0@, s@.skip(p.1 as int)),
            ),
            None => p_entry(s@.skip(pos as int)) is None,
        },
{
    let p1 = match p_lit_x(s, n, pos, "[[data.values]]\nkey = ") {
        None => {
            return None;
        },
        Some(p) => p,
    };
    let (k, p2) = match p_qstr_x(s, n, p1) {
        None => {
            return None;
        },
        Some(kp) => kp,
    };
    let p3 = match p_lit_x(s, n, p2, "\nvalue = ") {
        None => {
            return None;
        },
        Some(p) => p,
    };
    let (v, p4) = match p_qstr_x(s, n, p3) {
        None => {
            return None;
        },
        Some(vp) => vp,
    };
    let p5 = match p_lit_x(s, n, p4, "\n") {
        None => {
            return None;
        },
        Some(p) => p,
    };
    let e = BoomEntry { key: k, value: v };
    proof {
        assert(e@ == (EntryModel { key: e.key@, value: e.value@ }));
    }
    Some((e, p5))
}

/// Parses entry sections at a position for as long as one opens there.
fn p_entries_x(s: &str, n: usize, pos: usize) -> (r: Option<(Vec<BoomEntry>, usize)>)
    requires
        n == s@.len(),
        pos <= n,
    ensures
        match r {
            Some(p) => pos <= p.1 <= n && p_entries(s@.skip(pos as int)) == Some(
                (crate::collection::entry_models(p.0@), s@.skip(p.1 as int)),
            ),
            None => p_entries(s@.skip(pos as int)) is None,
        },
    decreases n - pos,
{
    let pos0 = skip_nl_x(s, n, pos);
    let opens = p_lit_x(s, n, pos0, "[[data.values]]\nkey = ").is_some();
    if !opens {
        let out: Vec<BoomEntry> = Vec::new();
        proof {
            assert(crate::collection::entry_models(out@) =~= Seq::<EntryModel>::empty());
        }
        return Some((out, pos0));
    }
    match p_entry_x(s, n, pos0) {
        None => None,
        Some((e, p2)) => {
            proof {
                assert(s@.skip(p2 as int).len() < s@.skip(pos as int).len());
            }
            match p_entries_x(s, n, p2) {
                None => None,
                Some((es, p3)) => {
                    let ghost before = es@;
                    let mut es = es;
                    es.insert(0, e);
                    proof {
                        assert(es@ =~= seq![e] + before);
                        assert(crate::collection::entry_models(es@) =~= seq![e@]
                            + crate::collection::entry_models(before));
                    }
                    Some((es, p3))
                },
            }
        },
    }
}

/// Parses one collection section with its entry list at a position.
fn p_coll_x(s: &str, n: usize, pos: usize) -> (r: Option<(BoomCollection, usize)>)
    requires
        n == s@.len(),
        pos <= n,
    ensures
        match r {
            Some(p) => pos < p.1 <= n && p_coll(s@.skip(pos as int)) == Some(
                (p.0@, s@.skip(p.1 as int)),
            ),
            None => p_coll(s@.skip(pos as int)) is None,
        },
{
    let p1 = match p_lit_x(s, n, pos, "[[data]]\ncollection = ") {
        None => {
            return None;
        },
        Some(p) => p,
    };
    let (name, p2) = match p_qstr_x(s, n, p1) {
        None => {
            return None;
        },
        Some(np) => np,
    };
    let p3 = match p_lit_x(s, n, p2, "\n") {
        None => {
            return None;
        },
        Some(p) => p,
    };
    let p3b = skip_nl_x(s, n, p3);
    match p_lit_x(s, n, p3b, "values = []\n") {
        Some(p4) => {
            let c = BoomCollection { collection: name, values: Vec::new() };
            proof {
                assert(crate::collection::entry_models(c.values@) =~= Seq::<EntryModel>::empty());
                assert(c@ == (CollectionModel { name: c.collection@, entries: Seq::empty() }));
            }
            Some((c, p4))
        },
        None => match p_entries_x(s, n, p3) {
            None => None,
            Some((es, p4)) => {
                let c = BoomCollection { collection: name, values: es };
                Some((c, p4))
            },
        },
    }
}

/// Parses a whole dataset at a position: collection sections until the
/// end of the text.
fn p_doc_x(s: &str, n: usize, pos: usize) -> (r: Option<Vec<BoomCollection>>)
    requires
        n == s@.len(),
        pos <= n,
    ensures
        match r {
            Some(v) => p_doc(s@.skip(pos as int)) == Some(crate::store::coll_models(v@)),
            None => p_doc(s@.skip(pos as int)) is None,
        },
    decreases n - pos,
{
    let pos0 = skip_nl_x(s, n, pos);
    if pos0 == n {
        let out: Vec<BoomCollection> = Vec::new();
        proof {
            assert(s@.skip(pos0 as int).len() == 0);
            assert(crate::store::coll_models(out@) =~= Seq::<CollectionModel>::empty());
        }
        return Some(out);
    }
    match p_coll_x(s, n, pos0) {
        None => None,
        Some((c, p2)) => {
            proof {
                assert(s@.skip(p2 as int).len() < s@.skip(pos as int).len());
            }
            match p_doc_x(s, n, p2) {
                None => None,
                Some(v) => {
                    let ghost before = v@;
                    let mut v = v;
                    v.insert(0, c);
                    proof {
                        assert(v@ =~= seq![c] + before);
                        assert(crate::store::coll_models(v@) =~= seq![c@]
                            + crate::store::coll_models(before));
                    }
                    Some(v)
                },
            }
        },
    }
}

/// Whether a collection's entry keys are pairwise distinct.
fn check_coll_keys(c: &BoomCollection) -> (r: bool)
    ensures
        r == crate::collection::unique_keys(c@.entries),
{
    let ghost es = c@.entries;
    let mut a: usize = 0;
    while a < c.values.len()
        invariant
            es == c@.entries,
            0 <= a <= c.values.len(),
            forall|x: int, y: int| 0 <= x < y < a ==> es[x].key != es[y].key,
        decreases c.values.len() - a,
    {
        let mut b: usize = 0;
        while b < a
            invariant
                es == c@.entries,
                0 <= b <= a < c.values.len(),
                forall|x: int| 0 <= x < b ==> es[x].key != es[a as int].key,
            decreases a - b,
        {
            if crate::collection::str_eq(
                c.values[b].key.as_str(),
                c.values[a].key.as_str(),
            ) {
                proof {
                    assert(es[b as int].key == es[a as int].key);
                }
                return false;
            }
            b += 1;
        }
        a += 1;
    }
    true
}

impl crate::store::BoomData {
    /// Whether the dataset is well-formed: collection names pairwise
    /// distinct and every collection's keys pairwise distinct.
    pub fn check_wf(&self) -> (r: bool)
        ensures
            r == self.wf(),
    {
        let ghost ds = self@;
        let mut a: usize = 0;
        while a < self.data.len()
            invariant
                ds == self@,
                0 <= a <= self.data.len(),
                forall|x: int, y: int| 0 <= x < y < a ==> ds[x].name != ds[y].name,
                forall|x: int| 0 <= x < a ==> crate::collection::unique_keys(ds[x].entries),
            decreases self.data.len() - a,
        {
            if !check_coll_keys(&self.data[a]) {
                proof {
                    assert(!crate::collection::unique_keys(ds[a as int].entries));
                    assert(!crate::store::store_wf(ds));
                }
                return false;
            }
            let mut b: usize = 0;
            while b < a
                invariant
                    ds == self@,
                    0 <= b <= a < self.data.len(),
                    forall|x: int| 0 <= x < b ==> ds[x].name != ds[a as int].name,
                decreases a - b,
            {
                if crate::collection::str_eq(
                    self.data[b].collection.as_str(),
                    self.data[a].collection.as_str(),
                ) {
                    proof {
                        assert(ds[b as int].name == ds[a as int].name);
                    }
                    return false;
                }
                b += 1;
            }
            a += 1;
        }
        true
    }

    /// Rebuilds a dataset from the persisted text, when there is one.
    /// An absent file is the valid first-run path and yields the empty
    /// dataset; a present text that does not parse, or that parses to an
    /// ill-formed dataset, yields nothing and is for the caller to treat
    /// as fatal.
    pub fn load(text: Option<&str>) -> (r: Option<Self>)
        ensures
            match text {
                None => r matches Some(d) && d@ == Seq::<CollectionModel>::empty() && d.wf(),
                Some(t) => match r {
                    Some(d) => p_doc(t@) == Some(d@) && d.wf(),
                    None => !(p_doc(t@) matches Some(m) && crate::store::store_wf(m)),
                },
            },
    {
        match text {
            None => {
                let d = Self { data: Vec::new() };
                proof {
                    assert(d@ =~= Seq::<CollectionModel>::empty());
                }
                Some(d)
            },
            Some(t) => {
                let n = t.unicode_len();
                match p_doc_x(t, n, 0) {
                    None => {
                        proof {
                            assert(t@.skip(0) =~= t@);
                        }
                        None
                    },
                    Some(v) => {
                        proof {
                            assert(t@.skip(0) =~= t@);
                        }
                        let d = Self { data: v };
                        if d.check_wf() {
                            Some(d)
                        } else {
                            None
                        }
                    },
                }
            },
        }
    }
}

} // verus!
