//! Compiling plain-text definitions into dictionaries.
//!
//! A definition is a line `key<TAB>value1 value2 ...`. Lines that are blank
//! or whose first non-blank character is `#` are skipped; so is every line
//! that is not well formed, without failing the whole compilation.

use crate::automaton::{bytes_lt, compare_bytes, lemma_bytes_lt_total, lemma_bytes_lt_transitive};
use crate::delta::{compute_delta, decoded_row, lemma_decode_encode, row_fits, Delta, DeltaView};
use crate::dictionary::{DictView, Dictionary};
use crate::error::OpenCCError;
use crate::fst_dict::{
    dict_view_of, encoding_fits, indexed_by_order, ocb_encodes, ocb_rows, FstDict,
};
use crate::text::{chars_of, string_of};
use vstd::prelude::*;
use vstd::slice::slice_to_vec;
use vstd::utf8::{encode_utf8, encode_utf8_decode_utf8};

verus! {

/// Whether `c` has the Unicode White_Space property: tab through carriage
/// return, space, next line, no-break space, ogham space mark, the spaces
/// from en quad to hair space, line and paragraph separators, narrow
/// no-break space, medium mathematical space and ideographic space.
pub open spec fn white_space(c: char) -> bool {
    let u = c as u32;
    ||| 0x9 <= u <= 0xd
    ||| u == 0x20
    ||| u == 0x85
    ||| u == 0xa0
    ||| u == 0x1680
    ||| 0x2000 <= u <= 0x200a
    ||| u == 0x2028
    ||| u == 0x2029
    ||| u == 0x202f
    ||| u == 0x205f
    ||| u == 0x3000
}

/// Relies on `char::is_whitespace`: true exactly of the characters with
/// the Unicode White_Space property.
#[verifier::external_body]
fn is_white_space(c: char) -> (r: bool)
    ensures
        r == white_space(c),
{
    c.is_whitespace()
}

/// The pieces of `t` between occurrences of `sep`, as `str::split` gives
/// them: one more piece than there are separators.
pub open spec fn split_on(t: Seq<char>, sep: char) -> Seq<Seq<char>>
    decreases t.len(),
{
    if t.len() == 0 {
        seq![Seq::empty()]
    } else {
        let rest = split_on(t.drop_last(), sep);
        if t.last() == sep {
            rest.push(Seq::empty())
        } else {
            rest.update(rest.len() - 1, rest.last().push(t.last()))
        }
    }
}

proof fn lemma_split_on_nonempty(t: Seq<char>, sep: char)
    ensures
        split_on(t, sep).len() >= 1,
    decreases t.len(),
{
    if t.len() > 0 {
        lemma_split_on_nonempty(t.drop_last(), sep);
    }
}

/// The lines of `t`, each without its line break; a carriage return that
/// precedes a line feed is part of the break.
pub open spec fn text_lines(t: Seq<char>) -> Seq<Seq<char>> {
    let pieces = split_on(t, '\n');
    Seq::new(
        pieces.len(),
        |j: int|
            if j < pieces.len() - 1 && pieces[j].len() > 0 && pieces[j].last() == '\r' {
                pieces[j].drop_last()
            } else {
                pieces[j]
            },
    )
}

/// Whether `line` is blank or a comment: its first character that is not
/// white space is `#`, or it has none.
pub open spec fn skipped_line(line: Seq<char>) -> bool
    decreases line.len(),
{
    if line.len() == 0 {
        true
    } else if white_space(line[0]) {
        skipped_line(line.drop_first())
    } else {
        line[0] == '#'
    }
}

/// The entry that `line` defines: its key and candidate values, where the
/// line holds exactly two tab-separated fields, a non-empty key, and values
/// separated by single spaces, none of them empty.
pub open spec fn entry_of_line(line: Seq<char>) -> Option<(Seq<char>, Seq<Seq<char>>)> {
    if skipped_line(line) {
        None
    } else {
        let fields = split_on(line, '\t');
        if fields.len() != 2 {
            None
        } else {
            let key = fields[0];
            let vals = split_on(fields[1], ' ');
            if key.len() > 0 && forall|m: int| 0 <= m < vals.len() ==> (#[trigger] vals[m]).len() > 0 {
                Some((key, vals))
            } else {
                None
            }
        }
    }
}

/// The views of a sequence of character vectors.
pub open spec fn split_chars_view(v: Seq<Vec<char>>) -> Seq<Seq<char>> {
    v.map_values(|p: Vec<char>| p@)
}

/// The pieces of `t` between occurrences of `sep`.
pub fn split_chars(t: &[char], sep: char) -> (r: Vec<Vec<char>>)
    ensures
        r@.map_values(|p: Vec<char>| p@) == split_on(t@, sep),
{
    let mut r: Vec<Vec<char>> = Vec::new();
    r.push(Vec::new());
    let mut i: usize = 0;
    assert(t@.take(0) =~= Seq::<char>::empty());
    assert(r@.map_values(|p: Vec<char>| p@) =~= split_on(t@.take(0), sep));
    while i < t.len()
        invariant
            i <= t@.len(),
            r@.len() >= 1,
            r@.map_values(|p: Vec<char>| p@) == split_on(t@.take(i as int), sep),
        decreases t@.len() - i,
    {
        let c = t[i];
        let ghost before = r@.map_values(|p: Vec<char>| p@);
        assert(t@.take(i + 1).drop_last() =~= t@.take(i as int));
        assert(t@.take(i + 1).last() == c);
        if c == sep {
            r.push(Vec::new());
            assert(r@.map_values(|p: Vec<char>| p@) =~= before.push(Seq::empty()));
        } else {
            let last = r.len() - 1;
            let mut piece = r.pop().unwrap();
            piece.push(c);
            r.push(piece);
            assert(r@.map_values(|p: Vec<char>| p@) =~= before.update(before.len() - 1, before.last().push(c)));
        }
        i += 1;
    }
    assert(t@.take(t@.len() as int) =~= t@);
    r
}

/// Whether `line` is blank or a comment.
pub fn is_skipped_line(line: &[char]) -> (r: bool)
    ensures
        r == skipped_line(line@),
{
    let mut i: usize = 0;
    assert(line@.skip(0) =~= line@);
    while i < line.len()
        invariant
            i <= line@.len(),
            skipped_line(line@) == skipped_line(line@.skip(i as int)),
        decreases line@.len() - i,
    {
        if !is_white_space(line[i]) {
            return line[i] == '#';
        }
        assert(line@.skip(i as int).drop_first() =~= line@.skip(i + 1));
        i += 1;
    }
    true
}

/// The entry that `line` defines, if it is well formed.
pub fn parse_line(line: &[char]) -> (r: Option<(Vec<char>, Vec<Vec<char>>)>)
    ensures
        match (r, entry_of_line(line@)) {
            (None, None) => true,
            (Some((k, vs)), Some((key, vals))) => k@ == key && vs@.map_values(|p: Vec<char>| p@) == vals,
            _ => false,
        },
{
    if is_skipped_line(line) {
        return None;
    }
    let mut fields = split_chars(line, '\t');
    if fields.len() != 2 {
        return None;
    }
    let second = fields.pop().unwrap();
    let key = fields.pop().unwrap();
    let vals = split_chars(second.as_slice(), ' ');
    if key.len() == 0 {
        return None;
    }
    let ghost vv = vals@.map_values(|p: Vec<char>| p@);
    let ghost fs = split_on(line@, '\t');
    assert(fs[0] == key@ && fs[1] == second@);
    let mut m: usize = 0;
    while m < vals.len()
        invariant
            !skipped_line(line@),
            fs == split_on(line@, '\t'),
            fs.len() == 2,
            fs[0] == key@,
            key@.len() > 0,
            vv == split_on(fs[1], ' '),
            m <= vals@.len(),
            vv == vals@.map_values(|p: Vec<char>| p@),
            forall|j: int| 0 <= j < m ==> (#[trigger] vv[j]).len() > 0,
        decreases vals@.len() - m,
    {
        if vals[m].len() == 0 {
            assert(vv[m as int].len() == 0);
            return None;
        }
        m += 1;
    }
    Some((key, vals))
}

/// A compiled entry: the key's UTF-8 bytes, the key, and its encoded values.
pub type Entry = (Vec<u8>, Vec<char>, Vec<Delta>);

/// Whether `t` ascends strictly by key bytes, each entry's bytes being its key's UTF-8 encoding.
pub open spec fn table_ok(t: Seq<Entry>) -> bool {
    &&& forall|a: int, b: int| 0 <= a < b < t.len() ==> bytes_lt(#[trigger] t[a].0@, #[trigger] t[b].0@)
    &&& forall|a: int| 0 <= a < t.len() ==> (#[trigger] t[a]).0@ == encode_utf8(t[a].1@)
}

/// Distinct keys have distinct UTF-8 encodings.
pub proof fn lemma_encode_injective(a: Seq<char>, b: Seq<char>)
    requires
        encode_utf8(a) == encode_utf8(b),
    ensures
        a == b,
{
    encode_utf8_decode_utf8(a);
    encode_utf8_decode_utf8(b);
}

/// Puts `(bytes, key, row)` into `table` at its place in key order,
/// replacing the entry of an equal key. Returns the position it took.
fn insert_entry(table: &mut Vec<Entry>, bytes: Vec<u8>, key: Vec<char>, row: Vec<Delta>) -> (p: usize)
    requires
        table_ok(old(table)@),
        bytes@ == encode_utf8(key@),
    ensures
        table_ok(final(table)@),
        p < final(table)@.len(),
        final(table)@[p as int] == (bytes, key, row),
        ({
            let (o, f) = (old(table)@, final(table)@);
            ||| (f == o.update(p as int, (bytes, key, row)) && p < o.len() && o[p as int].1@ == key@)
            ||| (f == o.insert(p as int, (bytes, key, row)) && p <= o.len() && forall|a: int| 0 <= a < o.len() ==> (#[trigger] o[a]).1@ != key@)
        }),
{
    let ghost o = table@;
    let mut lo: usize = 0;
    let mut hi: usize = table.len();
    while lo < hi
        invariant
            table@ == o,
            table_ok(o),
            lo <= hi <= o.len(),
            forall|a: int| 0 <= a < lo ==> bytes_lt(#[trigger] o[a].0@, bytes@),
            forall|a: int| hi <= a < o.len() ==> !bytes_lt(#[trigger] o[a].0@, bytes@),
        decreases hi - lo,
    {
        let mid = lo + (hi - lo) / 2;
        let c = compare_bytes(table[mid].0.as_slice(), bytes.as_slice());
        if c < 0 {
            assert forall|a: int| 0 <= a < mid + 1 implies bytes_lt(#[trigger] o[a].0@, bytes@) by {
                if a < mid {
                    lemma_bytes_lt_transitive(o[a].0@, o[mid as int].0@, bytes@);
                }
            }
            lo = mid + 1;
        } else {
            assert forall|a: int| mid <= a < o.len() implies !bytes_lt(#[trigger] o[a].0@, bytes@) by {
                if a > mid && a < hi && bytes_lt(o[a].0@, bytes@) {
                    lemma_bytes_lt_transitive(o[mid as int].0@, o[a].0@, bytes@);
                }
            }
            hi = mid;
        }
    }
    let p = lo;
    if p < table.len() && compare_bytes(table[p].0.as_slice(), bytes.as_slice()) == 0 {
        proof {
            lemma_encode_injective(o[p as int].1@, key@);
        }
        let ghost entry = (bytes, key, row);
        table.set(p, (bytes, key, row));
        assert(table@ == o.update(p as int, entry));
        assert forall|a: int, b: int| 0 <= a < b < table@.len() implies bytes_lt(#[trigger] table@[a].0@, #[trigger] table@[b].0@) by {
            assert(a != p ==> table@[a] == o[a]);
            assert(b != p ==> table@[b] == o[b]);
        }
        p
    } else {
        let ghost entry = (bytes, key, row);
        assert forall|a: int| p <= a < o.len() implies bytes_lt(bytes@, #[trigger] o[a].0@) by {
            lemma_bytes_lt_total(o[p as int].0@, bytes@);
            if a > p {
                lemma_bytes_lt_transitive(bytes@, o[p as int].0@, o[a].0@);
            }
        }
        assert forall|a: int| 0 <= a < o.len() implies (#[trigger] o[a]).1@ != key@ by {
            lemma_bytes_lt_total(o[a].0@, bytes@);
        }
        table.insert(p, (bytes, key, row));
        assert(table@ == o.insert(p as int, entry));
        assert forall|a: int, b: int| 0 <= a < b < table@.len() implies bytes_lt(#[trigger] table@[a].0@, #[trigger] table@[b].0@) by {
            if a < p && b > p {
                assert(table@[b] == o[b - 1]);
            } else if a > p {
                assert(table@[a] == o[a - 1]);
                assert(table@[b] == o[b - 1]);
            } else if b < p {
            } else if a == p {
                assert(table@[b] == o[b - 1]);
            }
        }
        p
    }
}

/// The dictionary that the first `n` lines of `ls` define: each entry in
/// turn, a later entry replacing an earlier one of the same key.
pub open spec fn dict_upto(ls: Seq<Seq<char>>, n: int) -> DictView
    decreases n,
{
    if n <= 0 {
        Map::empty()
    } else {
        let prev = dict_upto(ls, n - 1);
        match entry_of_line(ls[n - 1]) {
            Some((k, vs)) => prev.insert(k, vs),
            None => prev,
        }
    }
}

/// The length in characters of the longest key among the first `n` lines of `ls`.
pub open spec fn max_key_upto(ls: Seq<Seq<char>>, n: int) -> nat
    decreases n,
{
    if n <= 0 {
        0
    } else {
        let prev = max_key_upto(ls, n - 1);
        match entry_of_line(ls[n - 1]) {
            Some((k, _)) => if k.len() > prev {
                k.len()
            } else {
                prev
            },
            None => prev,
        }
    }
}

/// The dictionary that the definitions in `t` describe.
pub open spec fn text_dict(t: Seq<char>) -> DictView {
    dict_upto(text_lines(t), text_lines(t).len() as int)
}

/// The length in characters of the longest key defined in `t`.
pub open spec fn text_max_key(t: Seq<char>) -> nat {
    max_key_upto(text_lines(t), text_lines(t).len() as int)
}

/// Whether `ds` encodes each of `vs` relative to `k`, in order.
pub open spec fn row_encodes(k: Seq<char>, vs: Seq<Seq<char>>, ds: Seq<Delta>) -> bool {
    &&& ds.len() == vs.len()
    &&& forall|m: int| 0 <= m < ds.len() ==> (#[trigger] ds[m]).encodes(k, vs[m])
}

/// A row that encodes values fits their key and decodes to them.
pub proof fn lemma_row_encodes_decodes(k: Seq<char>, vs: Seq<Seq<char>>, ds: Seq<Delta>)
    requires
        row_encodes(k, vs, ds),
    ensures
        row_fits(ds, k.len()),
        decoded_row(k, ds) == vs,
{
    assert forall|m: int| 0 <= m < ds.len() implies (#[trigger] ds[m]).fits(k.len()) && ds[m].decoded(k) == vs[m] by {
        lemma_decode_encode(k, vs[m], ds[m]);
    }
    assert(decoded_row(k, ds) =~= vs);
}

/// The deltas that encode each of `vals` relative to `key`.
fn encode_row(key: &Vec<char>, vals: &Vec<Vec<char>>) -> (r: Vec<Delta>)
    ensures
        row_encodes(key@, vals@.map_values(|p: Vec<char>| p@), r@),
{
    let k = string_of(key.as_slice());
    let mut r: Vec<Delta> = Vec::new();
    let mut m: usize = 0;
    while m < vals.len()
        invariant
            k@ == key@,
            m <= vals@.len(),
            r@.len() == m,
            forall|j: int| 0 <= j < m ==> (#[trigger] r@[j]).encodes(key@, vals@[j]@),
        decreases vals@.len() - m,
    {
        let v = string_of(vals[m].as_slice());
        r.push(compute_delta(k.as_str(), v.as_str()));
        m += 1;
    }
    r
}

/// The meaning of a table: each key with its values, and the longest key.
pub open spec fn table_holds(t: Seq<Entry>, dict: DictView, max: nat) -> bool {
    &&& table_ok(t)
    &&& forall|a: int| 0 <= a < t.len() ==> #[trigger] dict.contains_key(t[a].1@)
        && row_encodes(t[a].1@, dict[t[a].1@], t[a].2@)
    &&& forall|k: Seq<char>| #[trigger] dict.contains_key(k) ==> exists|a: int| 0 <= a < t.len() && t[a].1@ == k
    &&& forall|k: Seq<char>| #[trigger] dict.contains_key(k) ==> 0 < k.len() <= max
}

/// Entries of a well-ordered table with equal keys are the same entry.
proof fn lemma_table_keys_distinct(t: Seq<Entry>, a: int, b: int)
    requires
        table_ok(t),
        0 <= a < t.len(),
        0 <= b < t.len(),
        t[a].1@ == t[b].1@,
    ensures
        a == b,
{
    lemma_bytes_lt_total(t[a].0@, t[b].0@);
}

/// Putting an entry into a table keeps its meaning in step with adding the
/// entry to the dictionary.
proof fn lemma_insert_holds(o: Seq<Entry>, f: Seq<Entry>, p: int, dict: DictView, vs: Seq<Seq<char>>, max: nat)
    requires
        table_holds(o, dict, max),
        table_ok(f),
        0 <= p < f.len(),
        row_encodes(f[p].1@, vs, f[p].2@),
        0 < f[p].1@.len(),
        (f == o.update(p, f[p]) && p < o.len() && o[p].1@ == f[p].1@) || (f == o.insert(p, f[p]) && p <= o.len() && forall|a: int|
            0 <= a < o.len() ==> (#[trigger] o[a]).1@ != f[p].1@),
    ensures
        table_holds(
            f,
            dict.insert(f[p].1@, vs),
            if f[p].1@.len() > max {
                f[p].1@.len()
            } else {
                max
            },
        ),
{
    let k = f[p].1@;
    let nd = dict.insert(k, vs);
    let updated = f == o.update(p, f[p]) && p < o.len() && o[p].1@ == k;
    // the old index of each new entry other than `p`
    assert forall|a: int| 0 <= a < f.len() implies #[trigger] nd.contains_key(f[a].1@) && row_encodes(
        f[a].1@,
        nd[f[a].1@],
        f[a].2@,
    ) by {
        if a != p {
            if updated {
                assert(f[a] == o[a]);
                if f[a].1@ == k {
                    lemma_table_keys_distinct(o, a, p);
                }
                assert(dict.contains_key(o[a].1@));
            } else {
                assert(f == o.insert(p, f[p]));
                let b = if a < p {
                    a
                } else {
                    a - 1
                };
                assert(f[a] == o[b]);
                assert(o[b].1@ != k);
                assert(dict.contains_key(o[b].1@));
            }
        }
    }
    assert forall|key: Seq<char>| #[trigger] nd.contains_key(key) implies exists|a: int|
        0 <= a < f.len() && f[a].1@ == key by {
        if key != k {
            assert(dict.contains_key(key));
            let b = choose|b: int| 0 <= b < o.len() && o[b].1@ == key;
            if updated {
                assert(f[b] == o[b] || b == p);
                if b == p {
                    assert(o[p].1@ == k);
                }
                assert(f[b].1@ == key);
            } else if b < p {
                assert(f[b] == o[b]);
            } else {
                assert(f[b + 1] == o[b]);
            }
        } else {
            assert(f[p].1@ == key);
        }
    }
}

/// The entries that the definitions in `text` describe, in ascending order
/// of their keys' bytes, with the length of the longest key.
pub fn compile_entries(text: &str) -> (r: (Vec<Entry>, usize))
    ensures
        table_holds(r.0@, text_dict(text@), r.1 as nat),
        r.1 == text_max_key(text@),
{
    let chars = chars_of(text);
    let pieces = split_chars(chars.as_slice(), '\n');
    let ghost ps = split_chars_view(pieces@);
    let ghost ls = text_lines(text@);
    let mut table: Vec<Entry> = Vec::new();
    let mut max: usize = 0;
    let mut j: usize = 0;
    while j < pieces.len()
        invariant
            ps == split_on(text@, '\n'),
            ps == split_chars_view(pieces@),
            ls == text_lines(text@),
            j <= pieces@.len(),
            table_holds(table@, dict_upto(ls, j as int), max as nat),
            max == max_key_upto(ls, j as int),
        decreases pieces@.len() - j,
    {
        let piece = &pieces[j];
        let n = piece.len();
        let line = if j + 1 < pieces.len() && n > 0 && piece[n - 1] == '\r' {
            &piece.as_slice()[0..n - 1]
        } else {
            piece.as_slice()
        };
        assert(line@ == ls[j as int]) by {
            if j + 1 < pieces.len() && n > 0 && piece@[n - 1] == '\r' {
                assert(line@ =~= piece@.drop_last());
            }
        }
        let ghost dict = dict_upto(ls, j as int);
        if let Some((key, vals)) = parse_line(line) {
            let ghost vs = vals@.map_values(|p: Vec<char>| p@);
            let row = encode_row(&key, &vals);
            let ks = string_of(key.as_slice());
            let bytes = slice_to_vec(ks.as_str().as_bytes());
            let klen = key.len();
            let ghost kv = key@;
            let ghost old_t = table@;
            let p = insert_entry(&mut table, bytes, key, row);
            let ghost nd = dict.insert(kv, vs);
            assert(nd == dict_upto(ls, j + 1));
            proof {
                lemma_insert_holds(old_t, table@, p as int, dict, vs, max as nat);
            }
            if klen > max {
                max = klen;
            }
        }
        j += 1;
    }
    proof {
        assert(pieces@.len() == ls.len());
    }
    (table, max)
}

proof fn lemma_split_without_sep(t: Seq<char>, sep: char)
    requires
        forall|i: int| 0 <= i < t.len() ==> t[i] != sep,
    ensures
        split_on(t, sep) == seq![t],
    decreases t.len(),
{
    if t.len() == 0 {
        assert(t =~= Seq::<char>::empty());
    } else {
        lemma_split_without_sep(t.drop_last(), sep);
        let rest = split_on(t.drop_last(), sep);
        assert(t[t.len() - 1] != sep);
        assert(rest.last() == t.drop_last());
        assert(split_on(t, sep) == rest.update(0, rest.last().push(t.last())));
        assert(t.drop_last().push(t.last()) =~= t);
        assert(seq![t.drop_last()].update(0, t.drop_last().push(t.last())) =~= seq![t]);
    }
}

proof fn lemma_split_after_sep(x: Seq<char>, t: Seq<char>, sep: char)
    requires
        forall|i: int| 0 <= i < t.len() ==> t[i] != sep,
    ensures
        split_on(x + seq![sep] + t, sep) == split_on(x, sep).push(t),
    decreases t.len(),
{
    let w = x + seq![sep] + t;
    if t.len() == 0 {
        assert(t =~= Seq::<char>::empty());
        assert(w.drop_last() =~= x);
        assert(w.last() == sep);
    } else {
        lemma_split_after_sep(x, t.drop_last(), sep);
        assert(w.drop_last() =~= x + seq![sep] + t.drop_last());
        lemma_split_on_nonempty(x, sep);
        assert(t.drop_last().push(t.last()) =~= t);
        assert(t[t.len() - 1] != sep);
        assert(w.last() == t.last());
        assert(split_on(x, sep).push(t.drop_last()).update(split_on(x, sep).len() as int, t.drop_last().push(t.last()))
            =~= split_on(x, sep).push(t));
    }
}

/// A source of one well-formed line and one line with a single field
/// compiles to a dictionary that holds only the well-formed line's entry,
/// whose key is then the longest. The well-formed line is taken as the
/// parser sees it: without a carriage return at its end.
pub proof fn lemma_one_good_line_and_one_field(good: Seq<char>, single: Seq<char>, k: Seq<char>, vs: Seq<Seq<char>>)
    requires
        entry_of_line(good) == Some((k, vs)),
        forall|i: int| 0 <= i < good.len() ==> good[i] != '\n',
        forall|i: int| 0 <= i < single.len() ==> single[i] != '\n' && single[i] != '\t',
        good.len() > 0 && good.last() != '\r',
    ensures
        text_dict(good + seq!['\n'] + single) == map![k => vs],
        text_max_key(good + seq!['\n'] + single) == k.len(),
{
    let t = good + seq!['\n'] + single;
    lemma_split_without_sep(good, '\n');
    lemma_split_after_sep(good, single, '\n');
    let ls = text_lines(t);
    assert(ls.len() == 2);
    assert(ls[0] == good);
    lemma_split_without_sep(single, '\t');
    if !skipped_line(ls[1]) {
        assert(split_on(ls[1], '\t').len() == 1);
    }
    assert(entry_of_line(ls[1]) is None);
    assert(entry_of_line(ls[0]) == Some((k, vs)));
    assert(dict_upto(ls, 0) == Map::<Seq<char>, Seq<Seq<char>>>::empty());
    assert(dict_upto(ls, 1) =~= Map::<Seq<char>, Seq<Seq<char>>>::empty().insert(k, vs));
    assert(dict_upto(ls, 2) =~= map![k => vs]);
    assert(max_key_upto(ls, 0) == 0);
    assert(max_key_upto(ls, 1) == k.len());
}

/// Compiles the definitions in `text` into the binary form of the
/// dictionary they describe. Compilation always succeeds: malformed lines
/// are dropped. The bytes hold an automaton that numbers the keys in
/// ascending order of their UTF-8 bytes, the rows that encode their values,
/// and the longest key length; they read back to those parts wherever
/// their encoding fits the decoding limit.
pub fn compile_dictionary(text: &str) -> (r: Result<Vec<u8>, OpenCCError>)
    ensures
        r is Ok,
        r is Ok ==> exists|e: Map<Seq<u8>, u64>, rows: Seq<Seq<DeltaView>>| {
            &&& #[trigger] ocb_encodes(r->Ok_0@, e, rows, text_max_key(text@) as usize)
            &&& indexed_by_order(e, rows, text_dict(text@))
            &&& dict_view_of(e, rows, text_max_key(text@)) == text_dict(text@)
            &&& encoding_fits(rows, text_max_key(text@) as usize) ==> ocb_rows(r->Ok_0@) == Some(
                (rows, text_max_key(text@) as usize),
            )
        },
{
    match FstDict::from_text(text) {
        Err(e) => Err(e),
        Ok(d) => {
            proof {
                d.lemma_view_from_parts();
            }
            let r = d.to_ocb_bytes();
            proof {
                let (e, rows) = (d.spec_entries(), d.spec_rows());
                assert(ocb_encodes(r->Ok_0@, e, rows, text_max_key(text@) as usize));
            }
            r
        },
    }
}

} // verus!
