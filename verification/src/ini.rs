//! The sectioned `key=value` grammar: parsing, serialization, and the
//! mathematical model both are specified against.
//!
//! A document is a sequence of sections; a section is a name plus an ordered
//! list of `key=value` entries.  The concrete syntax is line based:
//! `[name]` opens a section, `key=value` adds an entry to the most recently
//! opened section, blank lines and lines starting with `;` or `#` are
//! ignored.  Everything is bytes; no character decoding is attempted.

use vstd::prelude::*;

verus! {

/// Line separator.
pub const NL: u8 = 10;
/// `[`, which opens a section header line.
pub const LBRACK: u8 = 91;
/// `]`, which closes a section header line.
pub const RBRACK: u8 = 93;
/// `=`, which separates a key from its value.
pub const EQS: u8 = 61;
/// `;`, which starts a comment line.
pub const SEMI: u8 = 59;
/// `#`, which also starts a comment line.
pub const HASH: u8 = 35;

/// The model of one `key=value` entry.
pub type EntryModel = (Seq<u8>, Seq<u8>);

/// The model of one section: its name and its ordered entries.
pub type SectionModel = (Seq<u8>, Seq<EntryModel>);

/// The model of a whole document: its sections, in order.
pub type DocModel = Seq<SectionModel>;

/// One named section of a document.
#[derive(Debug, Clone, PartialEq, Eq)]
pub struct Section {
    /// The section's name, the bytes between `[` and `]`.
    pub name: Vec<u8>,
    /// The section's entries, in order of first appearance.
    pub entries: Vec<(Vec<u8>, Vec<u8>)>,
}

/// The model of an executable entry.
pub open spec fn entry_model(e: (Vec<u8>, Vec<u8>)) -> EntryModel {
    (e.0@, e.1@)
}

/// The model of an executable entry list.
pub open spec fn entries_model(es: Seq<(Vec<u8>, Vec<u8>)>) -> Seq<EntryModel> {
    es.map_values(|e: (Vec<u8>, Vec<u8>)| entry_model(e))
}

impl View for Section {
    type V = SectionModel;

    open spec fn view(&self) -> SectionModel {
        (self.name@, entries_model(self.entries@))
    }
}

/// The model of an executable section list.
pub open spec fn doc_model(ss: Seq<Section>) -> DocModel {
    ss.map_values(|s: Section| s@)
}

// ---------------------------------------------------------------------------
// Well-formedness: exactly what a document needs so that serializing it and
// parsing the result gives it back.
// ---------------------------------------------------------------------------

/// A section name serializes onto a single header line, so it may not hold a
/// line separator.
pub open spec fn wf_name(n: Seq<u8>) -> bool {
    forall|i: int| 0 <= i < n.len() ==> n[i] != NL
}

/// A key starts its line, so besides staying on one line and holding no `=`
/// (the first `=` of the line ends the key), it may not begin like a header
/// or a comment.
pub open spec fn wf_key(k: Seq<u8>) -> bool {
    &&& forall|i: int| 0 <= i < k.len() ==> k[i] != NL && k[i] != EQS
    &&& k.len() > 0 ==> k[0] != LBRACK && k[0] != SEMI && k[0] != HASH
}

/// A value runs from the first `=` to the end of its line.
pub open spec fn wf_value(v: Seq<u8>) -> bool {
    forall|i: int| 0 <= i < v.len() ==> v[i] != NL
}

/// Entries of one section: each well formed, keys unique.
pub open spec fn wf_entries(es: Seq<EntryModel>) -> bool {
    &&& forall|i: int| 0 <= i < es.len() ==> wf_key(#[trigger] es[i].0) && wf_value(es[i].1)
    &&& forall|i: int, j: int| 0 <= i < j < es.len() ==> es[i].0 != es[j].0
}

/// One section: name and entries well formed.
pub open spec fn wf_section(s: SectionModel) -> bool {
    wf_name(s.0) && wf_entries(s.1)
}

/// A whole document: each section well formed, section names unique.
pub open spec fn wf_doc(m: DocModel) -> bool {
    &&& forall|i: int| 0 <= i < m.len() ==> wf_section(#[trigger] m[i])
    &&& forall|i: int, j: int| 0 <= i < j < m.len() ==> m[i].0 != m[j].0
}

// ---------------------------------------------------------------------------
// Searching: first occurrence of a byte, a section name, a key.
// ---------------------------------------------------------------------------

/// Index of the first occurrence of `c` in `s`, or `-1` if absent.
pub open spec fn find_byte(s: Seq<u8>, c: u8) -> int
    decreases s.len(),
{
    if s.len() == 0 {
        -1
    } else if s[0] == c {
        0
    } else if find_byte(s.drop_first(), c) < 0 {
        -1
    } else {
        find_byte(s.drop_first(), c) + 1
    }
}

/// What `find_byte` returns: the first index holding `c`, or `-1` when no
/// index does.
pub proof fn lemma_find_byte(s: Seq<u8>, c: u8)
    ensures
        find_byte(s, c) >= 0 ==> {
            &&& find_byte(s, c) < s.len()
            &&& s[find_byte(s, c)] == c
            &&& forall|j: int| 0 <= j < find_byte(s, c) ==> s[j] != c
        },
        find_byte(s, c) < 0 ==> forall|j: int| 0 <= j < s.len() ==> s[j] != c,
    decreases s.len(),
{
    if s.len() == 0 {
    } else if s[0] == c {
    } else {
        lemma_find_byte(s.drop_first(), c);
        assert forall|j: int| 0 <= j < s.len() && find_byte(s, c) < 0 implies s[j] != c by {
            if j > 0 {
                assert(s.drop_first()[j - 1] == s[j]);
            }
        }
        if find_byte(s, c) >= 0 {
            let r = find_byte(s.drop_first(), c);
            assert(s[r + 1] == s.drop_first()[r]);
            assert forall|j: int| 0 <= j < r + 1 implies s[j] != c by {
                if j > 0 {
                    assert(s.drop_first()[j - 1] == s[j]);
                }
            }
        }
    }
}

/// `find_byte` is determined by the first-occurrence description.
pub proof fn lemma_find_byte_is(s: Seq<u8>, c: u8, i: int)
    requires
        0 <= i < s.len(),
        s[i] == c,
        forall|j: int| 0 <= j < i ==> s[j] != c,
    ensures
        find_byte(s, c) == i,
    decreases s.len(),
{
    if i == 0 {
    } else {
        assert(s[0] != c);
        assert(s.drop_first()[i - 1] == s[i]);
        assert forall|j: int| 0 <= j < i - 1 implies s.drop_first()[j] != c by {
            assert(s.drop_first()[j] == s[j + 1]);
        }
        lemma_find_byte_is(s.drop_first(), c, i - 1);
    }
}

/// A sequence with no `c` at all has no first occurrence.
pub proof fn lemma_find_byte_none(s: Seq<u8>, c: u8)
    requires
        forall|j: int| 0 <= j < s.len() ==> s[j] != c,
    ensures
        find_byte(s, c) == -1,
    decreases s.len(),
{
    if s.len() > 0 {
        assert forall|j: int| 0 <= j < s.len() - 1 implies s.drop_first()[j] != c by {
            assert(s.drop_first()[j] == s[j + 1]);
        }
        lemma_find_byte_none(s.drop_first(), c);
    }
}

// ---------------------------------------------------------------------------
// Splitting the input into lines.
// ---------------------------------------------------------------------------

/// Splits `s` into lines, `cur` being the part of the current line already
/// consumed.  Every `NL` ends a line; the final line needs no `NL`.
pub open spec fn split_lines_from(s: Seq<u8>, cur: Seq<u8>) -> Seq<Seq<u8>>
    decreases s.len(),
{
    if s.len() == 0 {
        seq![cur]
    } else if s[0] == NL {
        seq![cur] + split_lines_from(s.drop_first(), seq![])
    } else {
        split_lines_from(s.drop_first(), cur.push(s[0]))
    }
}

/// The lines of `s`: `NL`-separated, the trailing fragment included (so a
/// text ending in `NL` contributes a final empty line, which parsing skips).
pub open spec fn split_lines(s: Seq<u8>) -> Seq<Seq<u8>> {
    split_lines_from(s, seq![])
}

/// Consuming one full line: if `line` holds no `NL`, the split of
/// `line + NL + rest` starting amid `cur` yields `cur + line` and then the
/// lines of `rest`.
pub proof fn lemma_split_line(line: Seq<u8>, rest: Seq<u8>, cur: Seq<u8>)
    requires
        forall|i: int| 0 <= i < line.len() ==> line[i] != NL,
    ensures
        split_lines_from(line + seq![NL] + rest, cur) == seq![cur + line] + split_lines_from(
            rest,
            seq![],
        ),
    decreases line.len(),
{
    let s = line + seq![NL] + rest;
    if line.len() == 0 {
        assert(s[0] == NL);
        assert(s.drop_first() =~= rest);
        assert(cur + line =~= cur);
    } else {
        assert(s[0] == line[0]);
        assert(s.drop_first() =~= line.drop_first() + seq![NL] + rest);
        lemma_split_line(line.drop_first(), rest, cur.push(line[0]));
        assert(cur.push(line[0]) + line.drop_first() =~= cur + line);
    }
}

/// A trailing fragment with no `NL` forms exactly one final line.
pub proof fn lemma_split_last(line: Seq<u8>, cur: Seq<u8>)
    requires
        forall|i: int| 0 <= i < line.len() ==> line[i] != NL,
    ensures
        split_lines_from(line, cur) == seq![cur + line],
    decreases line.len(),
{
    if line.len() == 0 {
        assert(cur + line =~= cur);
    } else {
        lemma_split_last(line.drop_first(), cur.push(line[0]));
        assert(cur.push(line[0]) + line.drop_first() =~= cur + line);
    }
}

/// Holds when no listed line contains a line separator.
pub open spec fn lines_no_nl(ls: Seq<Seq<u8>>) -> bool {
    forall|k: int| 0 <= k < ls.len() ==> wf_value(#[trigger] ls[k])
}

/// No line produced by splitting holds a line separator.
pub proof fn lemma_split_lines_no_nl(s: Seq<u8>, cur: Seq<u8>)
    requires
        wf_value(cur),
    ensures
        lines_no_nl(split_lines_from(s, cur)),
    decreases s.len(),
{
    let out = split_lines_from(s, cur);
    if s.len() == 0 {
        assert(out[0] == cur);
    } else if s[0] == NL {
        lemma_split_lines_no_nl(s.drop_first(), seq![]);
        let tail = split_lines_from(s.drop_first(), seq![]);
        assert forall|k: int| 0 <= k < out.len() implies wf_value(#[trigger] out[k]) by {
            if k == 0 {
                assert(out[k] == cur);
            } else {
                assert(out[k] == tail[k - 1]);
            }
        }
    } else {
        let cur2 = cur.push(s[0]);
        assert forall|i: int| 0 <= i < cur2.len() implies cur2[i] != NL by {
            if i < cur.len() {
                assert(cur2[i] == cur[i]);
            } else {
                assert(cur2[i] == s[0]);
            }
        }
        lemma_split_lines_no_nl(s.drop_first(), cur2);
        assert(out == split_lines_from(s.drop_first(), cur2));
    }
}

// ---------------------------------------------------------------------------
// Looking up sections and keys in a model.
// ---------------------------------------------------------------------------

/// Index of the first section named `name` in `m`, or `-1` if absent.
pub open spec fn sec_index(m: DocModel, name: Seq<u8>) -> int
    decreases m.len(),
{
    if m.len() == 0 {
        -1
    } else if m[0].0 == name {
        0
    } else if sec_index(m.drop_first(), name) < 0 {
        -1
    } else {
        sec_index(m.drop_first(), name) + 1
    }
}

/// Index of the first entry keyed `k` in `es`, or `-1` if absent.
pub open spec fn key_index(es: Seq<EntryModel>, k: Seq<u8>) -> int
    decreases es.len(),
{
    if es.len() == 0 {
        -1
    } else if es[0].0 == k {
        0
    } else if key_index(es.drop_first(), k) < 0 {
        -1
    } else {
        key_index(es.drop_first(), k) + 1
    }
}

/// What `sec_index` returns: the first index whose section bears `name`, or
/// `-1` when none does.
pub proof fn lemma_sec_index(m: DocModel, name: Seq<u8>)
    ensures
        sec_index(m, name) >= 0 ==> {
            &&& sec_index(m, name) < m.len()
            &&& m[sec_index(m, name)].0 == name
            &&& forall|j: int| 0 <= j < sec_index(m, name) ==> m[j].0 != name
        },
        sec_index(m, name) < 0 ==> forall|j: int| 0 <= j < m.len() ==> m[j].0 != name,
    decreases m.len(),
{
    if m.len() == 0 {
    } else if m[0].0 == name {
    } else {
        lemma_sec_index(m.drop_first(), name);
        assert(forall|j: int| 1 <= j < m.len() ==> m[j] == m.drop_first()[j - 1]);
    }
}

/// `sec_index` is determined by the first-occurrence description.
pub proof fn lemma_sec_index_is(m: DocModel, name: Seq<u8>, i: int)
    requires
        0 <= i < m.len(),
        m[i].0 == name,
        forall|j: int| 0 <= j < i ==> m[j].0 != name,
    ensures
        sec_index(m, name) == i,
    decreases m.len(),
{
    if i == 0 {
    } else {
        assert(m.drop_first()[i - 1] == m[i]);
        assert(forall|j: int| 0 <= j < i - 1 ==> m.drop_first()[j] == m[j + 1]);
        lemma_sec_index_is(m.drop_first(), name, i - 1);
    }
}

/// A model with no section named `name` has no first occurrence of it.
pub proof fn lemma_sec_index_none(m: DocModel, name: Seq<u8>)
    requires
        forall|j: int| 0 <= j < m.len() ==> m[j].0 != name,
    ensures
        sec_index(m, name) == -1,
    decreases m.len(),
{
    if m.len() > 0 {
        assert(forall|j: int| 0 <= j < m.len() - 1 ==> m.drop_first()[j] == m[j + 1]);
        lemma_sec_index_none(m.drop_first(), name);
    }
}

/// What `key_index` returns: the first index whose entry bears `k`, or `-1`
/// when none does.
pub proof fn lemma_key_index(es: Seq<EntryModel>, k: Seq<u8>)
    ensures
        key_index(es, k) >= 0 ==> {
            &&& key_index(es, k) < es.len()
            &&& es[key_index(es, k)].0 == k
            &&& forall|j: int| 0 <= j < key_index(es, k) ==> es[j].0 != k
        },
        key_index(es, k) < 0 ==> forall|j: int| 0 <= j < es.len() ==> es[j].0 != k,
    decreases es.len(),
{
    if es.len() == 0 {
    } else if es[0].0 == k {
    } else {
        lemma_key_index(es.drop_first(), k);
        assert(forall|j: int| 1 <= j < es.len() ==> es[j] == es.drop_first()[j - 1]);
    }
}

/// `key_index` is determined by the first-occurrence description.
pub proof fn lemma_key_index_is(es: Seq<EntryModel>, k: Seq<u8>, i: int)
    requires
        0 <= i < es.len(),
        es[i].0 == k,
        forall|j: int| 0 <= j < i ==> es[j].0 != k,
    ensures
        key_index(es, k) == i,
    decreases es.len(),
{
    if i == 0 {
    } else {
        assert(es.drop_first()[i - 1] == es[i]);
        assert(forall|j: int| 0 <= j < i - 1 ==> es.drop_first()[j] == es[j + 1]);
        lemma_key_index_is(es.drop_first(), k, i - 1);
    }
}

/// An entry list with no key `k` has no first occurrence of it.
pub proof fn lemma_key_index_none(es: Seq<EntryModel>, k: Seq<u8>)
    requires
        forall|j: int| 0 <= j < es.len() ==> es[j].0 != k,
    ensures
        key_index(es, k) == -1,
    decreases es.len(),
{
    if es.len() > 0 {
        assert(forall|j: int| 0 <= j < es.len() - 1 ==> es.drop_first()[j] == es[j + 1]);
        lemma_key_index_none(es.drop_first(), k);
    }
}

// ---------------------------------------------------------------------------
// The parser, as a mathematical function on lines.
// ---------------------------------------------------------------------------

/// The effect of one line on the document built so far, or `None` on a
/// syntax error.  `acc`'s last section is the one currently open.
pub open spec fn parse_line(line: Seq<u8>, acc: DocModel) -> Option<DocModel> {
    if line.len() == 0 || line[0] == SEMI || line[0] == HASH {
        Some(acc)
    } else if line[0] == LBRACK {
        if line.len() >= 2 && line[line.len() - 1] == RBRACK {
            let name = line.subrange(1, line.len() - 1);
            if sec_index(acc, name) >= 0 {
                None
            } else {
                Some(acc.push((name, seq![])))
            }
        } else {
            None
        }
    } else {
        let e = find_byte(line, EQS);
        if e < 0 {
            None
        } else if acc.len() == 0 {
            None
        } else {
            let k = line.take(e);
            let v = line.skip(e + 1);
            let open_sec = acc.last();
            if key_index(open_sec.1, k) >= 0 {
                None
            } else {
                Some(acc.update(acc.len() - 1, (open_sec.0, open_sec.1.push((k, v)))))
            }
        }
    }
}

/// Folds `parse_line` over the remaining lines, starting from `acc`.
pub open spec fn parse_lines_from(lines: Seq<Seq<u8>>, acc: DocModel) -> Option<DocModel>
    decreases lines.len(),
{
    if lines.len() == 0 {
        Some(acc)
    } else {
        match parse_line(lines[0], acc) {
            Option::None => Option::None,
            Option::Some(acc2) => parse_lines_from(lines.drop_first(), acc2),
        }
    }
}

/// The meaning of a byte string under the sectioned `key=value` grammar:
/// its document model, or `None` when it is syntactically invalid.
pub open spec fn parse_ini_spec(s: Seq<u8>) -> Option<DocModel> {
    parse_lines_from(split_lines(s), seq![])
}

// ---------------------------------------------------------------------------
// The serializer, as a mathematical function on models.
// ---------------------------------------------------------------------------

/// The line an entry serializes to: `key=value`.
pub open spec fn entry_line(e: EntryModel) -> Seq<u8> {
    e.0 + seq![EQS] + e.1
}

/// The line a section header serializes to: `[name]`.
pub open spec fn header_line(name: Seq<u8>) -> Seq<u8> {
    seq![LBRACK] + name + seq![RBRACK]
}

/// The bytes of a section's entries, one `key=value` line each.
pub open spec fn entries_bytes(es: Seq<EntryModel>) -> Seq<u8>
    decreases es.len(),
{
    if es.len() == 0 {
        seq![]
    } else {
        entry_line(es[0]) + seq![NL] + entries_bytes(es.drop_first())
    }
}

/// The bytes of one section: its header line, then its entries.
pub open spec fn section_bytes(s: SectionModel) -> Seq<u8> {
    header_line(s.0) + seq![NL] + entries_bytes(s.1)
}

/// The bytes of a whole document: its sections, in order.
pub open spec fn doc_bytes(m: DocModel) -> Seq<u8>
    decreases m.len(),
{
    if m.len() == 0 {
        seq![]
    } else {
        section_bytes(m[0]) + doc_bytes(m.drop_first())
    }
}

// ---------------------------------------------------------------------------
// Round trip: parsing a serialized document gives the document back.
// ---------------------------------------------------------------------------

/// The lines a section's entries serialize to.
pub open spec fn entries_lines(es: Seq<EntryModel>) -> Seq<Seq<u8>>
    decreases es.len(),
{
    if es.len() == 0 {
        seq![]
    } else {
        seq![entry_line(es[0])] + entries_lines(es.drop_first())
    }
}

/// The lines one section serializes to: its header, then its entries.
pub open spec fn section_lines(s: SectionModel) -> Seq<Seq<u8>> {
    seq![header_line(s.0)] + entries_lines(s.1)
}

/// The lines a whole document serializes to.
pub open spec fn doc_lines(m: DocModel) -> Seq<Seq<u8>>
    decreases m.len(),
{
    if m.len() == 0 {
        seq![]
    } else {
        section_lines(m[0]) + doc_lines(m.drop_first())
    }
}

/// Splitting the serialized entries recovers their lines.
proof fn lemma_split_entries(es: Seq<EntryModel>, rest: Seq<u8>)
    requires
        wf_entries(es),
    ensures
        split_lines_from(entries_bytes(es) + rest, seq![]) == entries_lines(es)
            + split_lines_from(rest, seq![]),
    decreases es.len(),
{
    if es.len() == 0 {
        assert(entries_bytes(es) + rest =~= rest);
        assert(entries_lines(es) + split_lines_from(rest, seq![]) =~= split_lines_from(
            rest,
            seq![],
        ));
    } else {
        let line = entry_line(es[0]);
        let tail = es.drop_first();
        assert(wf_entries(tail)) by {
            assert(forall|j: int| 0 <= j < tail.len() ==> tail[j] == es[j + 1]);
        }
        assert(forall|i: int| 0 <= i < line.len() ==> line[i] != NL) by {
            assert(wf_key(es[0].0) && wf_value(es[0].1));
        }
        assert(entries_bytes(es) + rest =~= line + seq![NL] + (entries_bytes(tail) + rest));
        lemma_split_line(line, entries_bytes(tail) + rest, seq![]);
        lemma_split_entries(tail, rest);
        assert(seq![seq![] + line] + (entries_lines(tail) + split_lines_from(rest, seq![]))
            =~= entries_lines(es) + split_lines_from(rest, seq![])) by {
            assert(seq![] + line =~= line);
        }
    }
}

/// Splitting a serialized document recovers its lines, followed by one
/// final empty line.
proof fn lemma_split_doc(m: DocModel, rest: Seq<u8>)
    requires
        wf_doc(m),
    ensures
        split_lines_from(doc_bytes(m) + rest, seq![]) == doc_lines(m) + split_lines_from(
            rest,
            seq![],
        ),
    decreases m.len(),
{
    if m.len() == 0 {
        assert(doc_bytes(m) + rest =~= rest);
        assert(doc_lines(m) + split_lines_from(rest, seq![]) =~= split_lines_from(rest, seq![]));
    } else {
        let s = m[0];
        let tail = m.drop_first();
        assert(wf_doc(tail)) by {
            assert(forall|j: int| 0 <= j < tail.len() ==> tail[j] == m[j + 1]);
        }
        let hline = header_line(s.0);
        assert(forall|i: int| 0 <= i < hline.len() ==> hline[i] != NL) by {
            assert(wf_section(s));
            assert(forall|i: int| 1 <= i < hline.len() - 1 ==> hline[i] == s.0[i - 1]);
        }
        assert(doc_bytes(m) + rest =~= hline + seq![NL] + (entries_bytes(s.1) + (doc_bytes(tail)
            + rest)));
        lemma_split_line(hline, entries_bytes(s.1) + (doc_bytes(tail) + rest), seq![]);
        assert(wf_entries(s.1));
        lemma_split_entries(s.1, doc_bytes(tail) + rest);
        lemma_split_doc(tail, rest);
        assert(seq![seq![] + hline] + (entries_lines(s.1) + (doc_lines(tail) + split_lines_from(
            rest,
            seq![],
        ))) =~= doc_lines(m) + split_lines_from(rest, seq![])) by {
            assert(seq![] + hline =~= hline);
        }
    }
}

/// A serialized header line parses as opening exactly that section.
proof fn lemma_parse_header(name: Seq<u8>, acc: DocModel)
    requires
        wf_name(name),
        forall|j: int| 0 <= j < acc.len() ==> acc[j].0 != name,
    ensures
        parse_line(header_line(name), acc) == Some(acc.push((name, Seq::<EntryModel>::empty()))),
{
    let line = header_line(name);
    assert(line.len() == name.len() + 2);
    assert(line[0] == LBRACK);
    assert(line[line.len() - 1] == RBRACK);
    assert(line.subrange(1, line.len() - 1) =~= name);
    lemma_sec_index_none(acc, name);
    assert(parse_line(line, acc) == Some(acc.push((name, seq![]))));
    assert(seq![] =~= Seq::<EntryModel>::empty());
}

/// A serialized `key=value` line parses as adding exactly that entry to the
/// open section.
proof fn lemma_parse_entry(k: Seq<u8>, v: Seq<u8>, acc: DocModel)
    requires
        wf_key(k),
        wf_value(v),
        acc.len() > 0,
        forall|j: int| 0 <= j < acc.last().1.len() ==> acc.last().1[j].0 != k,
    ensures
        parse_line(entry_line((k, v)), acc) == Some(
            acc.update(acc.len() - 1, (acc.last().0, acc.last().1.push((k, v)))),
        ),
{
    let line = entry_line((k, v));
    assert(line.len() == k.len() + 1 + v.len());
    if k.len() == 0 {
        assert(line[0] == EQS);
    } else {
        assert(line[0] == k[0]);
    }
    assert(line[k.len() as int] == EQS);
    assert(forall|j: int| 0 <= j < k.len() ==> line[j] == k[j]);
    lemma_find_byte_is(line, EQS, k.len() as int);
    assert(line.take(k.len() as int) =~= k);
    assert(line.skip(k.len() as int + 1) =~= v);
    lemma_key_index_none(acc.last().1, k);
}

/// Serialized entry lines parse as appending those entries to the open
/// section, leaving the rest of the input to parse from the grown model.
proof fn lemma_parse_entries_lines(es: Seq<EntryModel>, extra: Seq<Seq<u8>>, acc: DocModel)
    requires
        wf_entries(es),
        acc.len() > 0,
        forall|i: int, j: int| #![trigger acc.last().1[j].0, es[i].0]
            0 <= i < es.len() && 0 <= j < acc.last().1.len() ==> acc.last().1[j].0 != es[i].0,
    ensures
        parse_lines_from(entries_lines(es) + extra, acc) == parse_lines_from(
            extra,
            acc.update(acc.len() - 1, (acc.last().0, acc.last().1 + es)),
        ),
    decreases es.len(),
{
    let last = acc.last();
    if es.len() == 0 {
        assert(entries_lines(es) + extra =~= extra);
        assert(acc.update(acc.len() - 1, (last.0, last.1 + es)) =~= acc) by {
            assert(last.1 + es =~= last.1);
            assert((last.0, last.1 + es) == last);
        }
    } else {
        let e0 = es[0];
        let tail = es.drop_first();
        assert(wf_key(e0.0) && wf_value(e0.1));
        assert(forall|j: int| 0 <= j < last.1.len() ==> last.1[j].0 != e0.0);
        lemma_parse_entry(e0.0, e0.1, acc);
        let acc1 = acc.update(acc.len() - 1, (last.0, last.1.push(e0)));
        assert(parse_line(entry_line(e0), acc) == Some(acc1)) by {
            assert(((e0.0, e0.1)) == e0);
        }
        let lines = entries_lines(es) + extra;
        assert(lines.len() > 0);
        assert(lines[0] == entry_line(e0));
        assert(lines.drop_first() =~= entries_lines(tail) + extra);
        assert(wf_entries(tail)) by {
            assert(forall|j: int| 0 <= j < tail.len() ==> tail[j] == es[j + 1]);
        }
        assert(acc1.len() == acc.len());
        assert(acc1.last() == (last.0, last.1.push(e0)));
        assert(forall|i: int, j: int| #![trigger acc1.last().1[j].0, tail[i].0]
            0 <= i < tail.len() && 0 <= j < acc1.last().1.len() ==> acc1.last().1[j].0
                != tail[i].0) by {
            assert(forall|i: int| 0 <= i < tail.len() ==> tail[i] == es[i + 1]);
            assert(forall|j: int| 0 <= j < last.1.len() ==> acc1.last().1[j] == last.1[j]);
            assert(acc1.last().1[last.1.len() as int] == e0);
        }
        lemma_parse_entries_lines(tail, extra, acc1);
        assert(acc1.update(acc1.len() - 1, (acc1.last().0, acc1.last().1 + tail)) =~= acc.update(
            acc.len() - 1,
            (last.0, last.1 + es),
        )) by {
            assert(last.1.push(e0) + tail =~= last.1 + es);
        }
    }
}

/// A serialized document's lines parse as appending its sections to the
/// model built so far.
proof fn lemma_parse_doc_lines(m: DocModel, extra: Seq<Seq<u8>>, acc: DocModel)
    requires
        wf_doc(m),
        forall|i: int, j: int| #![trigger acc[j].0, m[i].0]
            0 <= i < m.len() && 0 <= j < acc.len() ==> acc[j].0 != m[i].0,
    ensures
        parse_lines_from(doc_lines(m) + extra, acc) == parse_lines_from(extra, acc + m),
    decreases m.len(),
{
    if m.len() == 0 {
        assert(doc_lines(m) + extra =~= extra);
        assert(acc + m =~= acc);
    } else {
        let s = m[0];
        let tail = m.drop_first();
        assert(wf_section(s));
        assert(forall|j: int| 0 <= j < acc.len() ==> acc[j].0 != s.0);
        lemma_parse_header(s.0, acc);
        let acc1 = acc.push((s.0, Seq::<EntryModel>::empty()));
        let lines = doc_lines(m) + extra;
        assert(lines.len() > 0);
        assert(lines[0] == header_line(s.0)) by {
            assert(doc_lines(m)[0] == section_lines(s)[0]);
        }
        assert(lines.drop_first() =~= entries_lines(s.1) + (doc_lines(tail) + extra));
        assert(acc1.len() > 0);
        assert(acc1.last() == (s.0, Seq::<EntryModel>::empty()));
        assert(forall|i: int, j: int| #![trigger acc1.last().1[j].0, s.1[i].0]
            0 <= i < s.1.len() && 0 <= j < acc1.last().1.len() ==> acc1.last().1[j].0
                != s.1[i].0);
        lemma_parse_entries_lines(s.1, doc_lines(tail) + extra, acc1);
        let acc2 = acc1.update(acc1.len() - 1, (acc1.last().0, acc1.last().1 + s.1));
        assert(acc2 =~= acc.push(s)) by {
            assert(Seq::<EntryModel>::empty() + s.1 =~= s.1);
            assert(((s.0, s.1)) == s);
        }
        assert(wf_doc(tail)) by {
            assert(forall|j: int| 0 <= j < tail.len() ==> tail[j] == m[j + 1]);
        }
        assert(forall|i: int, j: int| #![trigger acc.push(s)[j].0, tail[i].0]
            0 <= i < tail.len() && 0 <= j < acc.push(s).len() ==> acc.push(s)[j].0
                != tail[i].0) by {
            assert(forall|i: int| 0 <= i < tail.len() ==> tail[i] == m[i + 1]);
            assert(forall|j: int| 0 <= j < acc.len() ==> acc.push(s)[j] == acc[j]);
            assert(acc.push(s)[acc.len() as int] == s);
        }
        lemma_parse_doc_lines(tail, extra, acc.push(s));
        assert(acc.push(s) + tail =~= acc + m);
    }
}

/// Round trip: serializing a well-formed document and parsing the result
/// reproduces the same sections, keys and values, in the same order.
pub proof fn lemma_save_load_round_trip(m: DocModel)
    requires
        wf_doc(m),
    ensures
        parse_ini_spec(doc_bytes(m)) == Some(m),
{
    lemma_split_doc(m, seq![]);
    assert(doc_bytes(m) + seq![] =~= doc_bytes(m));
    assert(split_lines_from(seq![], seq![]) =~= seq![Seq::<u8>::empty()]) by {
        assert(seq![] =~= Seq::<u8>::empty());
    }
    let lines = doc_lines(m) + seq![Seq::<u8>::empty()];
    assert(split_lines(doc_bytes(m)) == lines);
    assert(forall|i: int, j: int| #![trigger Seq::<SectionModel>::empty()[j].0, m[i].0]
        0 <= i < m.len() && 0 <= j < Seq::<SectionModel>::empty().len()
            ==> Seq::<SectionModel>::empty()[j].0 != m[i].0);
    lemma_parse_doc_lines(m, seq![Seq::<u8>::empty()], Seq::<SectionModel>::empty());
    assert(parse_lines_from(lines, Seq::<SectionModel>::empty()) == parse_lines_from(
        seq![Seq::<u8>::empty()],
        Seq::<SectionModel>::empty() + m,
    ));
    let mm = Seq::<SectionModel>::empty() + m;
    assert(parse_lines_from(seq![Seq::<u8>::empty()], mm) == Some(mm)) by {
        let ls = seq![Seq::<u8>::empty()];
        assert(ls[0].len() == 0);
        assert(parse_line(ls[0], mm) == Some(mm));
        assert(ls.drop_first().len() == 0);
        assert(parse_lines_from(ls.drop_first(), mm) == Some(mm));
    }
    assert(mm =~= m);
    assert(parse_lines_from(split_lines(doc_bytes(m)), seq![]) == Some(m)) by {
        assert(seq![] =~= Seq::<SectionModel>::empty());
    }
}

/// An empty byte string parses as the empty document.
pub proof fn lemma_parse_empty()
    ensures
        parse_ini_spec(Seq::<u8>::empty()) == Some(Seq::<SectionModel>::empty()),
{
    let e = Seq::<u8>::empty();
    assert(split_lines(e) == seq![Seq::<u8>::empty()]) by {
        assert(seq![] =~= e);
        assert(split_lines_from(e, seq![]) == seq![e]);
    }
    let ls = seq![Seq::<u8>::empty()];
    let acc = Seq::<SectionModel>::empty();
    assert(parse_lines_from(ls, acc) == Some(acc)) by {
        assert(ls[0].len() == 0);
        assert(parse_line(ls[0], acc) == Some(acc));
        assert(ls.drop_first().len() == 0);
        assert(parse_lines_from(ls.drop_first(), acc) == Some(acc));
    }
    assert(seq![] =~= acc);
}

// ---------------------------------------------------------------------------
// Whatever parses is well formed.
// ---------------------------------------------------------------------------

/// One parsed line keeps the model well formed.
proof fn lemma_parse_line_wf(line: Seq<u8>, acc: DocModel)
    requires
        wf_doc(acc),
        wf_value(line),
        parse_line(line, acc) is Some,
    ensures
        wf_doc(parse_line(line, acc)->Some_0),
{
    let out = parse_line(line, acc)->Some_0;
    if line.len() == 0 || line[0] == SEMI || line[0] == HASH {
    } else if line[0] == LBRACK {
        let name = line.subrange(1, line.len() - 1);
        lemma_sec_index(acc, name);
        assert(forall|j: int| 0 <= j < acc.len() ==> acc[j].0 != name);
        assert(wf_name(name)) by {
            assert(forall|i: int| 0 <= i < name.len() ==> name[i] == line[i + 1]);
        }
        assert(wf_section((name, Seq::<EntryModel>::empty())));
        assert forall|i: int| 0 <= i < out.len() implies wf_section(#[trigger] out[i]) by {
            if i < acc.len() {
                assert(out[i] == acc[i]);
            } else {
                assert(out[i] == (name, Seq::<EntryModel>::empty())) by {
                    assert(seq![(name, Seq::<EntryModel>::empty())] =~= seq![(name, seq![])]);
                }
            }
        }
        assert forall|i: int, j: int| 0 <= i < j < out.len() implies out[i].0 != out[j].0 by {
            assert(out[i] == acc[i]);
            if j < acc.len() {
                assert(out[j] == acc[j]);
            } else {
                assert(out[j].0 == name);
            }
        }
    } else {
        let e = find_byte(line, EQS);
        let k = line.take(e);
        let v = line.skip(e + 1);
        let open_sec = acc.last();
        lemma_find_byte(line, EQS);
        lemma_key_index(open_sec.1, k);
        assert(wf_key(k)) by {
            assert(forall|i: int| 0 <= i < k.len() ==> k[i] == line[i]);
            if k.len() > 0 {
                assert(k[0] == line[0]);
            }
        }
        assert(wf_value(v)) by {
            assert(forall|i: int| 0 <= i < v.len() ==> v[i] == line[e + 1 + i]);
        }
        let es2 = open_sec.1.push((k, v));
        assert(wf_section(acc[acc.len() - 1]));
        assert(wf_entries(es2)) by {
            assert(forall|i: int| 0 <= i < open_sec.1.len() ==> es2[i] == open_sec.1[i]);
            assert(es2[open_sec.1.len() as int] == (k, v));
            assert(forall|j: int| 0 <= j < open_sec.1.len() ==> open_sec.1[j].0 != k);
            assert forall|i: int| 0 <= i < es2.len() implies wf_key(#[trigger] es2[i].0)
                && wf_value(es2[i].1) by {
                if i < open_sec.1.len() {
                    assert(es2[i] == open_sec.1[i]);
                }
            }
            assert forall|i: int, j: int| 0 <= i < j < es2.len() implies es2[i].0 != es2[j].0 by {
                assert(es2[i] == open_sec.1[i]);
                if j < open_sec.1.len() {
                    assert(es2[j] == open_sec.1[j]);
                }
            }
        }
        assert forall|i: int| 0 <= i < out.len() implies wf_section(#[trigger] out[i]) by {
            if i < acc.len() - 1 {
                assert(out[i] == acc[i]);
            } else {
                assert(out[i] == (open_sec.0, es2));
            }
        }
        assert forall|i: int, j: int| 0 <= i < j < out.len() implies out[i].0 != out[j].0 by {
            assert(out[i].0 == acc[i].0);
            assert(out[j].0 == acc[j].0);
        }
    }
}

/// A parsed line list yields a well-formed model.
proof fn lemma_parse_lines_wf(lines: Seq<Seq<u8>>, acc: DocModel)
    requires
        wf_doc(acc),
        lines_no_nl(lines),
        parse_lines_from(lines, acc) is Some,
    ensures
        wf_doc(parse_lines_from(lines, acc)->Some_0),
    decreases lines.len(),
{
    if lines.len() == 0 {
    } else {
        assert(wf_value(lines[0]));
        let acc2 = parse_line(lines[0], acc)->Some_0;
        lemma_parse_line_wf(lines[0], acc);
        assert(lines_no_nl(lines.drop_first())) by {
            assert(forall|k: int|
                0 <= k < lines.drop_first().len() ==> lines.drop_first()[k] == lines[k + 1]);
        }
        lemma_parse_lines_wf(lines.drop_first(), acc2);
    }
}

/// Whatever the grammar accepts is a well-formed document: names and keys
/// stay on their lines, keys hold no `=` and do not begin like headers or
/// comments, section names and keys are unique.
pub proof fn lemma_parse_wf(s: Seq<u8>)
    requires
        parse_ini_spec(s) is Some,
    ensures
        wf_doc(parse_ini_spec(s)->Some_0),
{
    lemma_split_lines_no_nl(s, seq![]);
    assert(wf_doc(seq![])) by {
        assert(seq![] =~= Seq::<SectionModel>::empty());
    }
    lemma_parse_lines_wf(split_lines(s), seq![]);
}

// ---------------------------------------------------------------------------
// Executable helpers.
// ---------------------------------------------------------------------------

/// The file is not valid under the attempted grammar.
#[derive(Clone, Copy, Debug, PartialEq, Eq, Structural)]
pub struct ParseError;

/// Byte-string equality.
pub(crate) fn bytes_eq(a: &[u8], b: &[u8]) -> (r: bool)
    ensures
        r == (a@ == b@),
{
    if a.len() != b.len() {
        return false;
    }
    let mut i: usize = 0;
    while i < a.len()
        invariant
            i <= a.len(),
            a.len() == b.len(),
            forall|j: int| 0 <= j < i ==> a@[j] == b@[j],
        decreases a.len() - i,
    {
        if a[i] != b[i] {
            return false;
        }
        i = i + 1;
    }
    proof {
        assert(a@ =~= b@);
    }
    true
}

/// Copies `s[a..b]` into a fresh byte vector.
pub(crate) fn copy_range(s: &[u8], a: usize, b: usize) -> (out: Vec<u8>)
    requires
        a <= b <= s@.len(),
    ensures
        out@ == s@.subrange(a as int, b as int),
{
    let mut out: Vec<u8> = Vec::new();
    let mut i: usize = a;
    while i < b
        invariant
            a <= i <= b <= s@.len(),
            out@ =~= s@.subrange(a as int, i as int),
        decreases b - i,
    {
        out.push(s[i]);
        proof {
            assert(out@ =~= s@.subrange(a as int, i + 1 as int));
        }
        i = i + 1;
    }
    out
}

/// First index of `c` in `s`, if any.
pub(crate) fn find_byte_at(s: &[u8], c: u8) -> (r: Option<usize>)
    ensures
        match r {
            Some(i) => find_byte(s@, c) == i,
            None => find_byte(s@, c) == -1,
        },
{
    let mut i: usize = 0;
    while i < s.len()
        invariant
            i <= s@.len(),
            forall|j: int| 0 <= j < i ==> s@[j] != c,
        decreases s@.len() - i,
    {
        if s[i] == c {
            proof {
                lemma_find_byte_is(s@, c, i as int);
            }
            return Some(i);
        }
        i = i + 1;
    }
    proof {
        lemma_find_byte_none(s@, c);
    }
    None
}

/// First index of a section named `name`, if any.
pub(crate) fn find_section(acc: &Vec<Section>, name: &[u8]) -> (r: Option<usize>)
    ensures
        match r {
            Some(i) => sec_index(doc_model(acc@), name@) == i,
            None => sec_index(doc_model(acc@), name@) == -1,
        },
{
    let ghost m = doc_model(acc@);
    let mut i: usize = 0;
    while i < acc.len()
        invariant
            i <= acc@.len(),
            m == doc_model(acc@),
            m.len() == acc@.len(),
            forall|j: int| 0 <= j < i ==> #[trigger] m[j].0 != name@,
        decreases acc@.len() - i,
    {
        assert(m[i as int] == acc@[i as int]@);
        if bytes_eq(acc[i].name.as_slice(), name) {
            proof {
                lemma_sec_index_is(m, name@, i as int);
            }
            return Some(i);
        }
        i = i + 1;
    }
    proof {
        lemma_sec_index_none(m, name@);
    }
    None
}

/// First index of an entry keyed `k`, if any.
pub(crate) fn find_key(entries: &Vec<(Vec<u8>, Vec<u8>)>, k: &[u8]) -> (r: Option<usize>)
    ensures
        match r {
            Some(i) => key_index(entries_model(entries@), k@) == i,
            None => key_index(entries_model(entries@), k@) == -1,
        },
{
    let ghost m = entries_model(entries@);
    let mut i: usize = 0;
    while i < entries.len()
        invariant
            i <= entries@.len(),
            m == entries_model(entries@),
            m.len() == entries@.len(),
            forall|j: int| 0 <= j < i ==> #[trigger] m[j].0 != k@,
        decreases entries@.len() - i,
    {
        assert(m[i as int] == entry_model(entries@[i as int]));
        if bytes_eq(entries[i].0.as_slice(), k) {
            proof {
                lemma_key_index_is(m, k@, i as int);
            }
            return Some(i);
        }
        i = i + 1;
    }
    proof {
        lemma_key_index_none(m, k@);
    }
    None
}

// ---------------------------------------------------------------------------
// The executable parser.
// ---------------------------------------------------------------------------

/// The model of an executable line list.
pub open spec fn lines_model(ls: Seq<Vec<u8>>) -> Seq<Seq<u8>> {
    ls.map_values(|l: Vec<u8>| l@)
}

/// Splits the input into its lines.
fn split_into_lines(text: &[u8]) -> (lines: Vec<Vec<u8>>)
    ensures
        lines_model(lines@) == split_lines(text@),
{
    let mut lines: Vec<Vec<u8>> = Vec::new();
    let mut cur: Vec<u8> = Vec::new();
    proof {
        assert(lines_model(lines@) =~= Seq::<Seq<u8>>::empty());
        assert(text@.skip(0) =~= text@);
        assert(cur@ =~= seq![]);
        assert(lines_model(lines@) + split_lines_from(text@.skip(0), cur@) =~= split_lines(
            text@,
        ));
    }
    let mut i: usize = 0;
    while i < text.len()
        invariant
            i <= text@.len(),
            split_lines(text@) == lines_model(lines@) + split_lines_from(
                text@.skip(i as int),
                cur@,
            ),
        decreases text@.len() - i,
    {
        let ghost rest = text@.skip(i as int);
        proof {
            assert(rest.len() > 0);
            assert(rest[0] == text@[i as int]);
            assert(rest.drop_first() =~= text@.skip(i + 1 as int));
        }
        let c = text[i];
        if c == NL {
            proof {
                assert(split_lines_from(rest, cur@) == seq![cur@] + split_lines_from(
                    rest.drop_first(),
                    seq![],
                ));
            }
            lines.push(cur);
            cur = Vec::new();
            proof {
                assert(lines_model(lines@) =~= lines_model(lines@.drop_last()).push(
                    lines@.last()@,
                ));
                assert(lines_model(lines@.drop_last()) + (seq![lines@.last()@]
                    + split_lines_from(text@.skip(i + 1 as int), cur@)) =~= lines_model(lines@)
                    + split_lines_from(text@.skip(i + 1 as int), cur@));
            }
        } else {
            proof {
                assert(split_lines_from(rest, cur@) == split_lines_from(
                    rest.drop_first(),
                    cur@.push(c),
                ));
            }
            cur.push(c);
        }
        i = i + 1;
    }
    proof {
        assert(text@.skip(text@.len() as int).len() == 0);
        assert(split_lines_from(text@.skip(i as int), cur@) == seq![cur@]);
    }
    lines.push(cur);
    proof {
        assert(lines_model(lines@) =~= lines_model(lines@.drop_last()).push(lines@.last()@));
        assert(lines_model(lines@.drop_last()) + seq![lines@.last()@] =~= lines_model(lines@));
        assert(lines_model(lines@) =~= split_lines(text@));
    }
    lines
}

/// Applies one line to the document built so far; `false` means the line is
/// not valid.
fn parse_line_step(line: &Vec<u8>, acc: &mut Vec<Section>) -> (ok: bool)
    ensures
        ok == (parse_line(line@, doc_model(old(acc)@)) is Some),
        ok ==> Some(doc_model(final(acc)@)) == parse_line(line@, doc_model(old(acc)@)),
        !ok ==> final(acc)@ == old(acc)@,
{
    let ghost m0 = doc_model(old(acc)@);
    if line.len() == 0 {
        return true;
    }
    let c0 = line[0];
    if c0 == SEMI || c0 == HASH {
        return true;
    }
    if c0 == LBRACK {
        if line.len() < 2 || line[line.len() - 1] != RBRACK {
            return false;
        }
        let name = copy_range(line.as_slice(), 1, line.len() - 1);
        proof {
            assert(name@ == line@.subrange(1, line@.len() - 1));
        }
        if find_section(acc, name.as_slice()).is_some() {
            return false;
        }
        let sec = Section { name, entries: Vec::new() };
        proof {
            assert(sec@ == (sec.name@, entries_model(sec.entries@)));
            assert(entries_model(sec.entries@) =~= Seq::<EntryModel>::empty());
        }
        acc.push(sec);
        proof {
            assert(doc_model(acc@) =~= m0.push((line@.subrange(1, line@.len() - 1), seq![])));
        }
        return true;
    }
    let e = match find_byte_at(line.as_slice(), EQS) {
        Some(e) => e,
        None => {
            return false;
        },
    };
    if acc.len() == 0 {
        return false;
    }
    proof {
        lemma_find_byte(line@, EQS);
    }
    let k = copy_range(line.as_slice(), 0, e);
    let v = copy_range(line.as_slice(), e + 1, line.len());
    proof {
        assert(k@ == line@.take(e as int));
        assert(v@ == line@.skip(e + 1 as int));
    }
    let n = acc.len() - 1;
    if find_key(&acc[n].entries, k.as_slice()).is_some() {
        proof {
            assert(doc_model(acc@).last() == acc@[n as int]@);
        }
        return false;
    }
    let mut sec = acc.pop().unwrap();
    let ghost old_sec = sec;
    sec.entries.push((k, v));
    proof {
        assert(entries_model(sec.entries@) =~= entries_model(old_sec.entries@).push(
            (line@.take(e as int), line@.skip(e + 1 as int)),
        ));
        assert(m0.last() == old_sec@);
    }
    acc.push(sec);
    proof {
        assert(doc_model(acc@) =~= m0.update(
            m0.len() - 1,
            (m0.last().0, m0.last().1.push((line@.take(e as int), line@.skip(e + 1 as int)))),
        ));
    }
    true
}

/// Parses a byte string under the sectioned `key=value` grammar.
///
/// Returns the document the grammar gives the input, or `ParseError` exactly
/// when the grammar rejects it.
pub fn parse_ini(text: &[u8]) -> (r: Result<Vec<Section>, ParseError>)
    ensures
        match r {
            Ok(secs) => parse_ini_spec(text@) == Some(doc_model(secs@)) && wf_doc(
                doc_model(secs@),
            ),
            Err(_) => parse_ini_spec(text@) is None,
        },
{
    let lines = split_into_lines(text);
    let ghost lm = lines_model(lines@);
    let mut acc: Vec<Section> = Vec::new();
    proof {
        assert(doc_model(acc@) =~= Seq::<SectionModel>::empty());
        assert(parse_lines_from(lm, seq![]) == parse_lines_from(lm.skip(0), doc_model(acc@)))
            by {
            assert(lm.skip(0) =~= lm);
            assert(seq![] =~= Seq::<SectionModel>::empty());
        }
    }
    let mut i: usize = 0;
    while i < lines.len()
        invariant
            i <= lines@.len(),
            lm == lines_model(lines@),
            lm.len() == lines@.len(),
            parse_ini_spec(text@) == parse_lines_from(lm.skip(i as int), doc_model(acc@)),
        decreases lines@.len() - i,
    {
        let ghost rest = lm.skip(i as int);
        proof {
            assert(rest.len() > 0);
            assert(rest[0] == lm[i as int]);
            assert(lm[i as int] == lines@[i as int]@);
            assert(rest.drop_first() =~= lm.skip(i + 1 as int));
        }
        let ok = parse_line_step(&lines[i], &mut acc);
        if !ok {
            return Err(ParseError);
        }
        i = i + 1;
    }
    proof {
        assert(lm.skip(i as int).len() == 0);
        lemma_parse_wf(text@);
    }
    Ok(acc)
}

// ---------------------------------------------------------------------------
// The executable serializer.
// ---------------------------------------------------------------------------

/// Appending one entry extends the serialized entries by one line.
proof fn lemma_entries_bytes_push(es: Seq<EntryModel>, e: EntryModel)
    ensures
        entries_bytes(es.push(e)) == entries_bytes(es) + entry_line(e) + seq![NL],
    decreases es.len(),
{
    if es.len() == 0 {
        let p = es.push(e);
        assert(p[0] == e);
        assert(p.drop_first().len() == 0);
        assert(entries_bytes(p.drop_first()) =~= Seq::<u8>::empty());
        assert(entries_bytes(p) == entry_line(e) + seq![NL] + entries_bytes(p.drop_first()));
        assert(entry_line(e) + seq![NL] + entries_bytes(p.drop_first()) =~= entries_bytes(es)
            + entry_line(e) + seq![NL]);
    } else {
        assert(es.push(e)[0] == es[0]);
        assert(es.push(e).drop_first() =~= es.drop_first().push(e));
        lemma_entries_bytes_push(es.drop_first(), e);
        assert(entry_line(es[0]) + seq![NL] + (entries_bytes(es.drop_first()) + entry_line(e)
            + seq![NL]) =~= entries_bytes(es) + entry_line(e) + seq![NL]);
    }
}

/// Appending one section extends the serialized document by that section.
proof fn lemma_doc_bytes_push(m: DocModel, s: SectionModel)
    ensures
        doc_bytes(m.push(s)) == doc_bytes(m) + section_bytes(s),
    decreases m.len(),
{
    if m.len() == 0 {
        let p = m.push(s);
        assert(p[0] == s);
        assert(p.drop_first().len() == 0);
        assert(doc_bytes(p.drop_first()) =~= Seq::<u8>::empty());
        assert(doc_bytes(p) == section_bytes(s) + doc_bytes(p.drop_first()));
        assert(section_bytes(s) + doc_bytes(p.drop_first()) =~= doc_bytes(m) + section_bytes(
            s,
        ));
    } else {
        assert(m.push(s)[0] == m[0]);
        assert(m.push(s).drop_first() =~= m.drop_first().push(s));
        lemma_doc_bytes_push(m.drop_first(), s);
        assert(section_bytes(m[0]) + (doc_bytes(m.drop_first()) + section_bytes(s))
            =~= doc_bytes(m) + section_bytes(s));
    }
}

/// Appends `b` to `out`.
fn push_bytes(out: &mut Vec<u8>, b: &[u8])
    ensures
        final(out)@ == old(out)@ + b@,
{
    let mut i: usize = 0;
    while i < b.len()
        invariant
            i <= b@.len(),
            out@ =~= old(out)@ + b@.take(i as int),
        decreases b@.len() - i,
    {
        out.push(b[i]);
        proof {
            assert(old(out)@ + b@.take(i as int) + seq![b@[i as int]] =~= old(out)@ + b@.take(
                i + 1 as int,
            ));
        }
        i = i + 1;
    }
    proof {
        assert(b@.take(b@.len() as int) =~= b@);
    }
}

/// Serializes a document back into the sectioned `key=value` grammar:
/// one `[name]` line per section, one `key=value` line per entry, in order.
pub fn serialize_ini(secs: &Vec<Section>) -> (out: Vec<u8>)
    ensures
        out@ == doc_bytes(doc_model(secs@)),
{
    let ghost m = doc_model(secs@);
    let mut out: Vec<u8> = Vec::new();
    proof {
        assert(m.take(0) =~= Seq::<SectionModel>::empty());
        assert(out@ =~= doc_bytes(m.take(0)));
    }
    let mut i: usize = 0;
    while i < secs.len()
        invariant
            i <= secs@.len(),
            m == doc_model(secs@),
            m.len() == secs@.len(),
            out@ == doc_bytes(m.take(i as int)),
        decreases secs@.len() - i,
    {
        let ghost s = m[i as int];
        proof {
            assert(s == secs@[i as int]@);
        }
        let sec = &secs[i];
        out.push(LBRACK);
        push_bytes(&mut out, sec.name.as_slice());
        out.push(RBRACK);
        out.push(NL);
        proof {
            assert(out@ =~= doc_bytes(m.take(i as int)) + header_line(s.0) + seq![NL]);
            assert(entries_bytes(s.1.take(0)) =~= Seq::<u8>::empty()) by {
                assert(s.1.take(0) =~= Seq::<EntryModel>::empty());
            }
            assert(out@ =~= doc_bytes(m.take(i as int)) + header_line(s.0) + seq![NL]
                + entries_bytes(s.1.take(0)));
        }
        let mut j: usize = 0;
        while j < sec.entries.len()
            invariant
                j <= sec.entries@.len(),
                s == secs@[i as int]@,
                sec == &secs@[i as int],
                s.1.len() == sec.entries@.len(),
                out@ == doc_bytes(m.take(i as int)) + header_line(s.0) + seq![NL]
                    + entries_bytes(s.1.take(j as int)),
            decreases sec.entries@.len() - j,
        {
            let ghost e = s.1[j as int];
            proof {
                assert(e == entry_model(sec.entries@[j as int]));
            }
            push_bytes(&mut out, sec.entries[j].0.as_slice());
            out.push(EQS);
            push_bytes(&mut out, sec.entries[j].1.as_slice());
            out.push(NL);
            proof {
                lemma_entries_bytes_push(s.1.take(j as int), e);
                assert(s.1.take(j as int).push(e) =~= s.1.take(j + 1 as int));
                assert(out@ =~= doc_bytes(m.take(i as int)) + header_line(s.0) + seq![NL]
                    + entries_bytes(s.1.take(j + 1 as int)));
            }
            j = j + 1;
        }
        proof {
            assert(s.1.take(s.1.len() as int) =~= s.1);
            lemma_doc_bytes_push(m.take(i as int), s);
            assert(m.take(i as int).push(s) =~= m.take(i + 1 as int));
            assert(out@ =~= doc_bytes(m.take(i + 1 as int))) by {
                assert(doc_bytes(m.take(i as int)) + header_line(s.0) + seq![NL]
                    + entries_bytes(s.1) =~= doc_bytes(m.take(i as int)) + section_bytes(s));
            }
        }
        i = i + 1;
    }
    proof {
        assert(m.take(m.len() as int) =~= m);
    }
    out
}

} // verus!
