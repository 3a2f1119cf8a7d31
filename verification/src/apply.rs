//! Merging one document into another: every `section/key=value` of the
//! patch is written into the target, creating sections and keys that are
//! missing and overwriting values that are present.  Nothing is ever
//! deleted.

use vstd::prelude::*;
use crate::ini::{
    DocModel, EntryModel, Section, copy_range, doc_model, entries_model, entry_model, find_key,
    find_section, key_index, lemma_key_index, lemma_key_index_is, lemma_key_index_none,
    lemma_sec_index, lemma_sec_index_is, lemma_sec_index_none, sec_index, wf_doc, wf_entries,
    wf_key, wf_name, wf_section, wf_value,
};

verus! {

// ---------------------------------------------------------------------------
// The merge, as a mathematical function on models.
// ---------------------------------------------------------------------------

/// The value under key `k` of the entry list, if any.
pub open spec fn lookup_entries(es: Seq<EntryModel>, k: Seq<u8>) -> Option<Seq<u8>> {
    if key_index(es, k) >= 0 {
        Some(es[key_index(es, k)].1)
    } else {
        None
    }
}

/// The value at section `name`, key `k` of the document, if any.
pub open spec fn lookup(m: DocModel, name: Seq<u8>, k: Seq<u8>) -> Option<Seq<u8>> {
    if sec_index(m, name) >= 0 {
        lookup_entries(m[sec_index(m, name)].1, k)
    } else {
        None
    }
}

/// Writes `v` under section `name`, key `k`: the section is appended if
/// missing, the key appended to its section if missing, the value
/// overwritten if present.
pub open spec fn set_kv(m: DocModel, name: Seq<u8>, k: Seq<u8>, v: Seq<u8>) -> DocModel {
    let i = sec_index(m, name);
    if i < 0 {
        m.push((name, seq![(k, v)]))
    } else {
        let es = m[i].1;
        let j = key_index(es, k);
        if j < 0 {
            m.update(i, (m[i].0, es.push((k, v))))
        } else {
            m.update(i, (m[i].0, es.update(j, (k, v))))
        }
    }
}

/// Writes every entry of `es`, in order, under section `name`.
pub open spec fn apply_entries(m: DocModel, name: Seq<u8>, es: Seq<EntryModel>) -> DocModel
    decreases es.len(),
{
    if es.len() == 0 {
        m
    } else {
        apply_entries(set_kv(m, name, es[0].0, es[0].1), name, es.drop_first())
    }
}

/// Merges the patch into the target: every section of the patch in order,
/// every entry within it in order.
pub open spec fn apply_model(m: DocModel, p: DocModel) -> DocModel
    decreases p.len(),
{
    if p.len() == 0 {
        m
    } else {
        apply_model(apply_entries(m, p[0].0, p[0].1), p.drop_first())
    }
}

/// Merges a list of patches into the target, in the order given.
pub open spec fn apply_all(m: DocModel, ps: Seq<DocModel>) -> DocModel
    decreases ps.len(),
{
    if ps.len() == 0 {
        m
    } else {
        apply_all(apply_model(m, ps[0]), ps.drop_first())
    }
}

// ---------------------------------------------------------------------------
// How one write changes the document.
// ---------------------------------------------------------------------------

/// A write is read back exactly: at the written section and key the new
/// value, everywhere else what was there before.
pub proof fn lemma_set_kv_lookup(
    m: DocModel,
    name: Seq<u8>,
    k: Seq<u8>,
    v: Seq<u8>,
    name2: Seq<u8>,
    k2: Seq<u8>,
)
    ensures
        lookup(set_kv(m, name, k, v), name2, k2) == if name2 == name && k2 == k {
            Some(v)
        } else {
            lookup(m, name2, k2)
        },
{
    let out = set_kv(m, name, k, v);
    let i = sec_index(m, name);
    lemma_sec_index(m, name);
    if i < 0 {
        // A fresh section is appended at the end.
        assert forall|j: int| 0 <= j < m.len() implies out[j] == m[j] by {}
        assert(out[m.len() as int] == (name, seq![(k, v)]));
        if sec_index(m, name2) >= 0 {
            lemma_sec_index(m, name2);
            lemma_sec_index_is(out, name2, sec_index(m, name2));
            assert(out[sec_index(out, name2)] == m[sec_index(m, name2)]);
            assert(lookup(out, name2, k2) == lookup(m, name2, k2));
        } else {
            lemma_sec_index(m, name2);
            if name2 == name {
                lemma_sec_index_is(out, name2, m.len() as int);
                assert(out[sec_index(out, name2)].1 == seq![(k, v)]);
                assert(key_index(seq![(k, v)], k2) == if k2 == k {
                    0
                } else {
                    -1
                }) by {
                    let es: Seq<EntryModel> = seq![(k, v)];
                    assert(es[0].0 == k);
                    if k2 != k {
                        assert(es.drop_first().len() == 0);
                        assert(key_index(es.drop_first(), k2) == -1);
                    }
                }
                if k2 == k {
                    assert(lookup(out, name2, k2) == Some(v));
                }
            } else {
                lemma_sec_index_none(out, name2);
                assert(lookup(out, name2, k2) == lookup(m, name2, k2));
            }
        }
    } else {
        let es = m[i].1;
        let j = key_index(es, k);
        lemma_key_index(es, k);
        let es2 = if j < 0 {
            es.push((k, v))
        } else {
            es.update(j, (k, v))
        };
        assert(out == m.update(i, (m[i].0, es2)));
        assert(out.len() == m.len());
        assert(forall|x: int| 0 <= x < m.len() ==> #[trigger] out[x].0 == m[x].0);
        assert(forall|x: int| 0 <= x < m.len() && x != i ==> #[trigger] out[x] == m[x]);
        // Section positions are unchanged.
        lemma_sec_index(m, name2);
        assert(sec_index(out, name2) == sec_index(m, name2)) by {
            if sec_index(m, name2) >= 0 {
                lemma_sec_index_is(out, name2, sec_index(m, name2));
            } else {
                lemma_sec_index_none(out, name2);
            }
        }
        if name2 != name {
            assert(lookup(out, name2, k2) == lookup(m, name2, k2));
        }
        if name2 == name {
            assert(sec_index(m, name2) == i) by {
                lemma_sec_index_is(m, name, i);
            }
            // Key positions in the rewritten section.
            lemma_key_index(es, k2);
            if k2 == k {
                if j < 0 {
                    assert(forall|x: int| 0 <= x < es.len() ==> #[trigger] es2[x] == es[x]);
                    assert(es2[es.len() as int] == (k, v));
                    lemma_key_index_is(es2, k, es.len() as int);
                    assert(lookup(out, name2, k2) == Some(v));
                } else {
                    assert(forall|x: int| 0 <= x < es.len() && x != j ==> #[trigger] es2[x]
                        == es[x]);
                    assert(es2[j] == (k, v));
                    lemma_key_index_is(es2, k, j);
                    assert(lookup(out, name2, k2) == Some(v));
                }
            } else {
                // Another key of the same section keeps its place and value.
                lemma_key_index(es2, k2);
                if key_index(es, k2) >= 0 {
                    let x = key_index(es, k2);
                    assert(es2[x] == es[x]) by {
                        if j >= 0 {
                            assert(es[j].0 == k);
                        }
                    }
                    assert(forall|y: int| 0 <= y < x ==> #[trigger] es2[y].0 != k2) by {
                        assert(forall|y: int| 0 <= y < x ==> #[trigger] es[y].0 != k2);
                        if j >= 0 {
                            assert(es[j].0 == k);
                        }
                    }
                    lemma_key_index_is(es2, k2, x);
                    assert(lookup(out, name2, k2) == lookup(m, name2, k2));
                } else {
                    assert(forall|y: int| 0 <= y < es2.len() ==> #[trigger] es2[y].0 != k2) by {
                        assert(forall|y: int| 0 <= y < es.len() ==> #[trigger] es[y].0 != k2);
                    }
                    lemma_key_index_none(es2, k2);
                    assert(lookup(out, name2, k2) == lookup(m, name2, k2));
                }
            }
        }
    }
}

/// A write keeps a document well formed.
pub proof fn lemma_set_kv_wf(m: DocModel, name: Seq<u8>, k: Seq<u8>, v: Seq<u8>)
    requires
        wf_doc(m),
        wf_name(name),
        wf_key(k),
        wf_value(v),
    ensures
        wf_doc(set_kv(m, name, k, v)),
{
    let out = set_kv(m, name, k, v);
    let i = sec_index(m, name);
    lemma_sec_index(m, name);
    if i < 0 {
        assert(wf_entries(seq![(k, v)])) by {
            let es: Seq<EntryModel> = seq![(k, v)];
            assert(es[0] == (k, v));
        }
        assert forall|x: int| 0 <= x < out.len() implies wf_section(#[trigger] out[x]) by {
            if x < m.len() {
                assert(out[x] == m[x]);
            } else {
                assert(out[x] == (name, seq![(k, v)]));
            }
        }
        assert forall|x: int, y: int| 0 <= x < y < out.len() implies out[x].0 != out[y].0 by {
            assert(out[x] == m[x]);
            if y < m.len() {
                assert(out[y] == m[y]);
            } else {
                assert(out[y].0 == name);
            }
        }
    } else {
        let es = m[i].1;
        let j = key_index(es, k);
        lemma_key_index(es, k);
        let es2 = if j < 0 {
            es.push((k, v))
        } else {
            es.update(j, (k, v))
        };
        assert(wf_section(m[i]));
        assert(wf_entries(es2)) by {
            if j < 0 {
                assert(forall|x: int| 0 <= x < es.len() ==> #[trigger] es2[x] == es[x]);
                assert(es2[es.len() as int] == (k, v));
                assert forall|x: int| 0 <= x < es2.len() implies wf_key(#[trigger] es2[x].0)
                    && wf_value(es2[x].1) by {
                    if x < es.len() {
                        assert(es2[x] == es[x]);
                    }
                }
                assert forall|x: int, y: int| 0 <= x < y < es2.len() implies es2[x].0
                    != es2[y].0 by {
                    assert(es2[x] == es[x]);
                    if y < es.len() {
                        assert(es2[y] == es[y]);
                    } else {
                        assert(es2[y].0 == k);
                    }
                }
            } else {
                assert(es[j].0 == k);
                assert(forall|x: int| 0 <= x < es.len() && x != j ==> #[trigger] es2[x] == es[x]);
                assert(es2[j] == (k, v));
                assert forall|x: int| 0 <= x < es2.len() implies wf_key(#[trigger] es2[x].0)
                    && wf_value(es2[x].1) by {
                    if x != j {
                        assert(es2[x] == es[x]);
                    }
                }
                assert forall|x: int, y: int| 0 <= x < y < es2.len() implies es2[x].0
                    != es2[y].0 by {
                    if x != j && y != j {
                        assert(es2[x] == es[x] && es2[y] == es[y]);
                    } else if x == j {
                        assert(es2[y] == es[y]);
                        assert(es[x].0 == k);
                    } else {
                        assert(es2[x] == es[x]);
                        assert(es[y].0 == k);
                    }
                }
            }
        }
        assert forall|x: int| 0 <= x < out.len() implies wf_section(#[trigger] out[x]) by {
            if x != i {
                assert(out[x] == m[x]);
            } else {
                assert(out[x] == (m[i].0, es2));
            }
        }
        assert forall|x: int, y: int| 0 <= x < y < out.len() implies out[x].0 != out[y].0 by {
            assert(out[x].0 == m[x].0);
            assert(out[y].0 == m[y].0);
        }
    }
}

// ---------------------------------------------------------------------------
// The executable merge.
// ---------------------------------------------------------------------------

/// Writes `v` under section `name`, key `k` of the document, as `set_kv`
/// describes.
pub(crate) fn set_value(secs: &mut Vec<Section>, name: &Vec<u8>, k: &Vec<u8>, v: &Vec<u8>)
    ensures
        doc_model(final(secs)@) == set_kv(doc_model(old(secs)@), name@, k@, v@),
{
    let ghost m0 = doc_model(old(secs)@);
    let kc = copy_range(k.as_slice(), 0, k.len());
    let vc = copy_range(v.as_slice(), 0, v.len());
    proof {
        assert(kc@ =~= k@);
        assert(vc@ =~= v@);
    }
    match find_section(secs, name.as_slice()) {
        Some(i) => {
            let ghost es = m0[i as int].1;
            proof {
                lemma_sec_index(m0, name@);
                assert(i < secs@.len());
                assert(m0[i as int] == secs@[i as int]@);
            }
            match find_key(&secs[i].entries, kc.as_slice()) {
                Some(j) => {
                    proof {
                        lemma_key_index(es, k@);
                        assert(j < secs@[i as int].entries@.len());
                    }
                    let mut sec = secs.remove(i);
                    let ghost sec0 = sec;
                    let mut ent = sec.entries.remove(j);
                    ent = (kc, vc);
                    sec.entries.insert(j, ent);
                    proof {
                        assert(entries_model(sec.entries@) =~~= es.update(
                            j as int,
                            (k@, v@),
                        ));
                    }
                    secs.insert(i, sec);
                    proof {
                        assert(doc_model(final(secs)@) =~~= m0.update(
                            i as int,
                            (m0[i as int].0, es.update(j as int, (k@, v@))),
                        ));
                    }
                },
                None => {
                    let mut sec = secs.remove(i);
                    sec.entries.push((kc, vc));
                    proof {
                        assert(entries_model(sec.entries@) =~~= es.push((k@, v@)));
                    }
                    secs.insert(i, sec);
                    proof {
                        assert(doc_model(final(secs)@) =~~= m0.update(
                            i as int,
                            (m0[i as int].0, es.push((k@, v@))),
                        ));
                    }
                },
            }
        },
        None => {
            let nc = copy_range(name.as_slice(), 0, name.len());
            let mut es: Vec<(Vec<u8>, Vec<u8>)> = Vec::new();
            es.push((kc, vc));
            let sec = Section { name: nc, entries: es };
            proof {
                assert(sec@ =~~= ((name@, seq![(k@, v@)])));
            }
            secs.push(sec);
            proof {
                assert(doc_model(final(secs)@) =~~= m0.push((name@, seq![(k@, v@)])));
            }
        },
    }
}

/// Merges the patch's sections into the target, section by section and
/// entry by entry, as `apply_model` describes.
pub fn apply_sections(target: &mut Vec<Section>, patch: &Vec<Section>)
    ensures
        doc_model(final(target)@) == apply_model(doc_model(old(target)@), doc_model(patch@)),
{
    let ghost m0 = doc_model(old(target)@);
    let ghost pm = doc_model(patch@);
    proof {
        assert(pm.skip(0) =~= pm);
    }
    let mut i: usize = 0;
    while i < patch.len()
        invariant
            i <= patch@.len(),
            pm == doc_model(patch@),
            pm.len() == patch@.len(),
            apply_model(m0, pm) == apply_model(doc_model(target@), pm.skip(i as int)),
        decreases patch@.len() - i,
    {
        let ghost s = pm[i as int];
        proof {
            assert(s == patch@[i as int]@);
            assert(pm.skip(i as int)[0] == s);
            assert(pm.skip(i as int).drop_first() =~= pm.skip(i + 1 as int));
        }
        let sec = &patch[i];
        let ghost mid0 = doc_model(target@);
        proof {
            assert(s.1.skip(0) =~= s.1);
        }
        let mut j: usize = 0;
        while j < sec.entries.len()
            invariant
                j <= sec.entries@.len(),
                s == patch@[i as int]@,
                sec == &patch@[i as int],
                s.1.len() == sec.entries@.len(),
                apply_entries(mid0, s.0, s.1) == apply_entries(
                    doc_model(target@),
                    s.0,
                    s.1.skip(j as int),
                ),
            decreases sec.entries@.len() - j,
        {
            let ghost e = s.1[j as int];
            proof {
                assert(e == entry_model(sec.entries@[j as int]));
                assert(s.1.skip(j as int)[0] == e);
                assert(s.1.skip(j as int).drop_first() =~= s.1.skip(j + 1 as int));
            }
            set_value(target, &sec.name, &sec.entries[j].0, &sec.entries[j].1);
            j = j + 1;
        }
        proof {
            assert(s.1.skip(s.1.len() as int).len() == 0);
            assert(apply_entries(mid0, s.0, s.1) == doc_model(target@));
            assert(apply_model(m0, pm) == apply_model(doc_model(target@), pm.skip(i + 1 as int)));
        }
        i = i + 1;
    }
    proof {
        assert(pm.skip(pm.len() as int).len() == 0);
    }
}

// ---------------------------------------------------------------------------
// Laws of the merge.
// ---------------------------------------------------------------------------

/// Whether the patch writes section `name`, key `k`.
pub open spec fn patch_sets(p: DocModel, name: Seq<u8>, k: Seq<u8>) -> bool {
    exists|i: int, j: int|
        0 <= i < p.len() && 0 <= j < p[i].1.len() && p[i].0 == name && #[trigger] p[i].1[j].0
            == k
}

/// Entries written under one section leave every other section/key alone.
proof fn lemma_apply_entries_other(
    m: DocModel,
    name: Seq<u8>,
    es: Seq<EntryModel>,
    name2: Seq<u8>,
    k2: Seq<u8>,
)
    requires
        name2 != name || forall|j: int| 0 <= j < es.len() ==> #[trigger] es[j].0 != k2,
    ensures
        lookup(apply_entries(m, name, es), name2, k2) == lookup(m, name2, k2),
    decreases es.len(),
{
    if es.len() > 0 {
        lemma_set_kv_lookup(m, name, es[0].0, es[0].1, name2, k2);
        assert(forall|j: int|
            0 <= j < es.drop_first().len() ==> #[trigger] es.drop_first()[j] == es[j + 1]);
        lemma_apply_entries_other(set_kv(m, name, es[0].0, es[0].1), name, es.drop_first(),
            name2, k2);
    }
}

/// A merge leaves every section/key the patch does not write alone.
proof fn lemma_apply_model_other(m: DocModel, p: DocModel, name: Seq<u8>, k: Seq<u8>)
    requires
        !patch_sets(p, name, k),
    ensures
        lookup(apply_model(m, p), name, k) == lookup(m, name, k),
    decreases p.len(),
{
    if p.len() > 0 {
        assert(name != p[0].0 || forall|j: int|
            0 <= j < p[0].1.len() ==> #[trigger] p[0].1[j].0 != k) by {
            if p[0].0 == name {
                assert forall|j: int| 0 <= j < p[0].1.len() implies #[trigger] p[0].1[j].0
                    != k by {
                    if p[0].1[j].0 == k {
                        assert(patch_sets(p, name, k));
                    }
                }
            }
        }
        lemma_apply_entries_other(m, p[0].0, p[0].1, name, k);
        assert(!patch_sets(p.drop_first(), name, k)) by {
            if patch_sets(p.drop_first(), name, k) {
                let (i, j): (int, int) = choose|i: int, j: int|
                    0 <= i < p.drop_first().len() && 0 <= j < p.drop_first()[i].1.len()
                        && p.drop_first()[i].0 == name && #[trigger] p.drop_first()[i].1[j].0
                        == k;
                assert(p[i + 1] == p.drop_first()[i]);
                assert(patch_sets(p, name, k));
            }
        }
        lemma_apply_model_other(apply_entries(m, p[0].0, p[0].1), p.drop_first(), name, k);
    }
}

/// Additivity: a section/key that no patch of the list writes keeps exactly
/// the value (or absence) it had in the target before the merge.
pub proof fn lemma_apply_additive(m: DocModel, ps: Seq<DocModel>, name: Seq<u8>, k: Seq<u8>)
    requires
        forall|n: int| 0 <= n < ps.len() ==> !patch_sets(#[trigger] ps[n], name, k),
    ensures
        lookup(apply_all(m, ps), name, k) == lookup(m, name, k),
    decreases ps.len(),
{
    if ps.len() > 0 {
        lemma_apply_model_other(m, ps[0], name, k);
        assert(forall|n: int|
            0 <= n < ps.drop_first().len() ==> #[trigger] ps.drop_first()[n] == ps[n + 1]);
        lemma_apply_additive(apply_model(m, ps[0]), ps.drop_first(), name, k);
    }
}

/// After writing a section's entries, each is read back exactly.
proof fn lemma_apply_entries_sets(m: DocModel, name: Seq<u8>, es: Seq<EntryModel>, j: int)
    requires
        0 <= j < es.len(),
        forall|x: int, y: int| 0 <= x < y < es.len() ==> es[x].0 != es[y].0,
    ensures
        lookup(apply_entries(m, name, es), name, es[j].0) == Some(es[j].1),
    decreases es.len(),
{
    let m1 = set_kv(m, name, es[0].0, es[0].1);
    let tail = es.drop_first();
    assert(forall|x: int| 0 <= x < tail.len() ==> #[trigger] tail[x] == es[x + 1]);
    if j == 0 {
        lemma_set_kv_lookup(m, name, es[0].0, es[0].1, name, es[0].0);
        assert(forall|x: int| 0 <= x < tail.len() ==> #[trigger] tail[x].0 != es[0].0);
        lemma_apply_entries_other(m1, name, tail, name, es[0].0);
    } else {
        assert(forall|x: int, y: int| 0 <= x < y < tail.len() ==> tail[x].0 != tail[y].0);
        lemma_apply_entries_sets(m1, name, tail, j - 1);
        assert(tail[j - 1] == es[j]);
    }
}

/// After a merge, each section/key the patch writes holds exactly the
/// patch's value: the last write wins.
pub proof fn lemma_apply_model_sets(m: DocModel, p: DocModel, i: int, j: int)
    requires
        wf_doc(p),
        0 <= i < p.len(),
        0 <= j < p[i].1.len(),
    ensures
        lookup(apply_model(m, p), p[i].0, p[i].1[j].0) == Some(p[i].1[j].1),
    decreases p.len(),
{
    let m1 = apply_entries(m, p[0].0, p[0].1);
    let tail = p.drop_first();
    assert(forall|x: int| 0 <= x < tail.len() ==> #[trigger] tail[x] == p[x + 1]);
    if i == 0 {
        assert(wf_section(p[0]));
        lemma_apply_entries_sets(m, p[0].0, p[0].1, j);
        assert(!patch_sets(tail, p[0].0, p[0].1[j].0)) by {
            if patch_sets(tail, p[0].0, p[0].1[j].0) {
                let (x, y): (int, int) = choose|x: int, y: int|
                    0 <= x < tail.len() && 0 <= y < tail[x].1.len() && tail[x].0 == p[0].0
                        && #[trigger] tail[x].1[y].0 == p[0].1[j].0;
                assert(p[x + 1].0 == p[0].0);
            }
        }
        lemma_apply_model_other(m1, tail, p[0].0, p[0].1[j].0);
    } else {
        assert(wf_doc(tail)) by {
            assert(forall|x: int| 0 <= x < tail.len() ==> wf_section(#[trigger] tail[x]));
        }
        lemma_apply_model_sets(m1, tail, i - 1, j);
        assert(tail[i - 1] == p[i]);
    }
}

/// The target already holds every value the patch would write.
pub open spec fn contains_patch(m: DocModel, p: DocModel) -> bool {
    forall|i: int, j: int|
        0 <= i < p.len() && 0 <= j < p[i].1.len() ==> lookup(m, p[i].0, #[trigger] p[i].1[j].0)
            == Some(p[i].1[j].1)
}

/// Writing a value that is already there changes nothing.
proof fn lemma_set_kv_noop(m: DocModel, name: Seq<u8>, k: Seq<u8>, v: Seq<u8>)
    requires
        lookup(m, name, k) == Some(v),
    ensures
        set_kv(m, name, k, v) == m,
{
    let i = sec_index(m, name);
    lemma_sec_index(m, name);
    let es = m[i].1;
    let j = key_index(es, k);
    lemma_key_index(es, k);
    assert(es[j] == (k, v)) by {
        assert(es[j].0 == k && es[j].1 == v);
    }
    assert(es.update(j, (k, v)) =~= es);
    assert((m[i].0, es.update(j, (k, v))) == m[i]);
    assert(m.update(i, (m[i].0, es.update(j, (k, v)))) =~= m);
}

/// Applying entries that are all already present changes nothing.
proof fn lemma_apply_entries_noop(m: DocModel, name: Seq<u8>, es: Seq<EntryModel>)
    requires
        forall|j: int| 0 <= j < es.len() ==> lookup(m, name, #[trigger] es[j].0) == Some(
            es[j].1,
        ),
    ensures
        apply_entries(m, name, es) == m,
    decreases es.len(),
{
    if es.len() > 0 {
        lemma_set_kv_noop(m, name, es[0].0, es[0].1);
        assert(forall|j: int|
            0 <= j < es.drop_first().len() ==> #[trigger] es.drop_first()[j] == es[j + 1]);
        lemma_apply_entries_noop(m, name, es.drop_first());
    }
}

/// Merging a patch the target already contains changes nothing.
proof fn lemma_apply_model_noop(m: DocModel, p: DocModel)
    requires
        contains_patch(m, p),
    ensures
        apply_model(m, p) == m,
    decreases p.len(),
{
    if p.len() > 0 {
        assert(forall|j: int|
            0 <= j < p[0].1.len() ==> lookup(m, p[0].0, #[trigger] p[0].1[j].0) == Some(
                p[0].1[j].1,
            ));
        lemma_apply_entries_noop(m, p[0].0, p[0].1);
        let tail = p.drop_first();
        assert(forall|x: int| 0 <= x < tail.len() ==> #[trigger] tail[x] == p[x + 1]);
        assert(contains_patch(m, tail)) by {
            assert forall|i: int, j: int|
                0 <= i < tail.len() && 0 <= j < tail[i].1.len() implies lookup(
                m,
                tail[i].0,
                #[trigger] tail[i].1[j].0,
            ) == Some(tail[i].1[j].1) by {
                assert(tail[i] == p[i + 1]);
            }
        }
        lemma_apply_model_noop(m, tail);
    }
}

/// Writing a section's entries keeps the target well formed.
proof fn lemma_apply_entries_wf(m: DocModel, name: Seq<u8>, es: Seq<EntryModel>)
    requires
        wf_doc(m),
        wf_name(name),
        forall|j: int| 0 <= j < es.len() ==> wf_key(#[trigger] es[j].0) && wf_value(es[j].1),
    ensures
        wf_doc(apply_entries(m, name, es)),
    decreases es.len(),
{
    if es.len() > 0 {
        lemma_set_kv_wf(m, name, es[0].0, es[0].1);
        assert(forall|j: int|
            0 <= j < es.drop_first().len() ==> #[trigger] es.drop_first()[j] == es[j + 1]);
        lemma_apply_entries_wf(set_kv(m, name, es[0].0, es[0].1), name, es.drop_first());
    }
}

/// Merging a patch of well-formed sections keeps the target well formed.
pub proof fn lemma_apply_model_wf(m: DocModel, p: DocModel)
    requires
        wf_doc(m),
        forall|i: int| 0 <= i < p.len() ==> wf_section(#[trigger] p[i]),
    ensures
        wf_doc(apply_model(m, p)),
    decreases p.len(),
{
    if p.len() > 0 {
        assert(wf_section(p[0]));
        lemma_apply_entries_wf(m, p[0].0, p[0].1);
        assert(forall|i: int|
            0 <= i < p.drop_first().len() ==> #[trigger] p.drop_first()[i] == p[i + 1]);
        lemma_apply_model_wf(apply_entries(m, p[0].0, p[0].1), p.drop_first());
    }
}

/// One write keeps every existing section's name at its place, and appends
/// at most one section.
proof fn lemma_set_kv_names(m: DocModel, name: Seq<u8>, k: Seq<u8>, v: Seq<u8>)
    ensures
        set_kv(m, name, k, v).len() >= m.len(),
        forall|x: int| 0 <= x < m.len() ==> #[trigger] set_kv(m, name, k, v)[x].0 == m[x].0,
{
    lemma_sec_index(m, name);
}

/// A merge keeps every section the target already had, under its name, in
/// its place; new sections are only appended after them.
pub proof fn lemma_apply_keeps_section_order(m: DocModel, p: DocModel)
    ensures
        apply_model(m, p).len() >= m.len(),
        forall|x: int| 0 <= x < m.len() ==> #[trigger] apply_model(m, p)[x].0 == m[x].0,
    decreases p.len(),
{
    if p.len() > 0 {
        lemma_apply_entries_names(m, p[0].0, p[0].1);
        let m1 = apply_entries(m, p[0].0, p[0].1);
        lemma_apply_keeps_section_order(m1, p.drop_first());
    }
}

/// A whole merge run keeps every section the target already had, under its
/// name, in its place.
pub proof fn lemma_apply_all_keeps_section_order(m: DocModel, ps: Seq<DocModel>)
    ensures
        apply_all(m, ps).len() >= m.len(),
        forall|x: int| 0 <= x < m.len() ==> #[trigger] apply_all(m, ps)[x].0 == m[x].0,
    decreases ps.len(),
{
    if ps.len() > 0 {
        lemma_apply_keeps_section_order(m, ps[0]);
        lemma_apply_all_keeps_section_order(apply_model(m, ps[0]), ps.drop_first());
    }
}

/// Writing one section's entries keeps every existing section's name at its
/// place.
proof fn lemma_apply_entries_names(m: DocModel, name: Seq<u8>, es: Seq<EntryModel>)
    ensures
        apply_entries(m, name, es).len() >= m.len(),
        forall|x: int| 0 <= x < m.len() ==> #[trigger] apply_entries(m, name, es)[x].0
            == m[x].0,
    decreases es.len(),
{
    if es.len() > 0 {
        lemma_set_kv_names(m, name, es[0].0, es[0].1);
        let m1 = set_kv(m, name, es[0].0, es[0].1);
        lemma_apply_entries_names(m1, name, es.drop_first());
    }
}

/// Idempotence: merging the same well-formed patch twice yields exactly the
/// document one merge yields.
pub proof fn lemma_apply_idempotent(m: DocModel, p: DocModel)
    requires
        wf_doc(p),
    ensures
        apply_model(apply_model(m, p), p) == apply_model(m, p),
{
    let m1 = apply_model(m, p);
    assert(contains_patch(m1, p)) by {
        assert forall|i: int, j: int|
            0 <= i < p.len() && 0 <= j < p[i].1.len() implies lookup(
            m1,
            p[i].0,
            #[trigger] p[i].1[j].0,
        ) == Some(p[i].1[j].1) by {
            lemma_apply_model_sets(m, p, i, j);
        }
    }
    lemma_apply_model_noop(m1, p);
}

} // verus!
