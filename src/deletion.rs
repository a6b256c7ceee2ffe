use vstd::prelude::*;

use crate::external::{
    canonical_ids, canonical_words, difference_by_document, empty_words,
    ids_strictly_sorted, sorted_by_document, words_difference, words_from_sorted, words_of, words_view,
};
use crate::index::{
    applied, deleted_set, has_fields, lemma_filter_sorted, lemma_first_doc, lemma_filter_step, indexed, is_first_doc, keeps, postings_after, postings_view,
    pruned, pruned_entry, ranked_kept, removed_words, touched, words_of_document, DocWords,
    DocumentField, DocumentFieldsCount, Index, PostingsList, RankedEntry, RankedMap,
};
use crate::types::{AttributeId, DocIndex, DocumentId, Error, Update, UpdateView};
use crate::updates::{ids_left, next_id_spec, put_spec, Updates, UpdatesResults, next_update_id};

verus! {

/// `x` is in `v`.
fn contains_id(v: &Vec<u64>, x: u64) -> (r: bool)
    ensures
        r == v@.contains(x),
{
    let mut i: usize = 0;
    while i < v.len()
        invariant
            i <= v@.len(),
            forall|j: int| 0 <= j < i ==> v@[j] != x,
        decreases v@.len() - i,
    {
        if v[i] == x {
            return true;
        }
        i += 1;
    }
    false
}

/// `x` is in `v`.
fn contains_attr(v: &Vec<AttributeId>, x: AttributeId) -> (r: bool)
    ensures
        r == v@.contains(x),
{
    let mut i: usize = 0;
    while i < v.len()
        invariant
            i <= v@.len(),
            forall|j: int| 0 <= j < i ==> v@[j] != x,
        decreases v@.len() - i,
    {
        if v[i] == x {
            return true;
        }
        i += 1;
    }
    false
}

/// Two byte strings are equal.
fn bytes_eq(a: &Vec<u8>, b: &Vec<u8>) -> (r: bool)
    ensures
        r == (a@ == b@),
{
    if a.len() != b.len() {
        return false;
    }
    let mut i: usize = 0;
    while i < a.len()
        invariant
            i <= a@.len(),
            a@.len() == b@.len(),
            forall|j: int| 0 <= j < i ==> a@[j] == b@[j],
        decreases a@.len() - i,
    {
        if a[i] != b[i] {
            return false;
        }
        i += 1;
    }
    assert(a@ =~= b@);
    true
}

/// The entries of the ranked map that survive deleting the ranked attributes
/// `attrs` of the documents `ids`.
fn remove_ranked(entries: &Vec<RankedEntry>, ids: &Vec<u64>, attrs: &Vec<AttributeId>) -> (r: Vec<
    RankedEntry,
>)
    ensures
        r@ == entries@.filter(|e: RankedEntry| ranked_kept(ids@.to_set(), attrs@.to_set(), e)),
{
    let ghost p = |e: RankedEntry| ranked_kept(ids@.to_set(), attrs@.to_set(), e);
    let mut r: Vec<RankedEntry> = Vec::new();
    let mut i: usize = 0;
    while i < entries.len()
        invariant
            i <= entries@.len(),
            p == (|e: RankedEntry| ranked_kept(ids@.to_set(), attrs@.to_set(), e)),
            r@ == entries@.take(i as int).filter(p),
        decreases entries@.len() - i,
    {
        proof {
            lemma_filter_step(entries@, i as int, p);
        }
        let e = entries[i];
        let del = contains_id(ids, e.document_id) && contains_attr(attrs, e.attribute);
        if !del {
            r.push(e);
        }
        i += 1;
    }
    assert(entries@.take(i as int) == entries@);
    r
}

/// The first entry of `s` for document `d`.
fn find_doc_words(s: &Vec<DocWords>, d: DocumentId) -> (r: Option<usize>)
    ensures
        match r {
            Some(i) => is_first_doc(s@, d, i as int),
            None => forall|j: int| 0 <= j < s@.len() ==> s@[j].document_id != d,
        },
{
    let mut i: usize = 0;
    while i < s.len()
        invariant
            i <= s@.len(),
            forall|j: int| 0 <= j < i ==> #[trigger] s@[j].document_id != d,
        decreases s@.len() - i,
    {
        if s[i].document_id == d {
            return Some(i);
        }
        i += 1;
    }
    None
}

/// Some field of document `d` is stored.
fn has_document_fields(f: &Vec<DocumentField>, d: DocumentId) -> (r: bool)
    ensures
        r == has_fields(f@, d),
{
    let mut i: usize = 0;
    while i < f.len()
        invariant
            i <= f@.len(),
            forall|j: int| 0 <= j < i ==> f@[j].document_id != d,
        decreases f@.len() - i,
    {
        if f[i].document_id == d {
            return true;
        }
        i += 1;
    }
    false
}

/// Removes every field of the documents `ids`.
fn remove_fields(f: &mut Vec<DocumentField>, ids: &Vec<u64>)
    ensures
        final(f)@ == old(f)@.filter(|e: DocumentField| !ids@.contains(e.document_id)),
{
    let ghost o = old(f)@;
    let ghost p = |e: DocumentField| !ids@.contains(e.document_id);
    let ghost mut k: int = 0;
    let mut i: usize = 0;
    while i < f.len()
        invariant
            0 <= k <= o.len(),
            p == (|e: DocumentField| !ids@.contains(e.document_id)),
            f@ == o.take(k).filter(p) + o.skip(k),
            i == o.take(k).filter(p).len(),
        decreases f@.len() - i,
    {
        let ghost a = o.take(k).filter(p);
        proof {
            lemma_filter_step(o, k, p);
            assert(o.skip(k) =~= seq![o[k]] + o.skip(k + 1));
            assert(f@[i as int] == o[k]);
        }
        if contains_id(ids, f[i].document_id) {
            f.remove(i);
            assert(f@ =~= a + o.skip(k + 1));
        } else {
            assert(f@ =~= a.push(o[k]) + o.skip(k + 1));
            i += 1;
        }
        proof {
            k = k + 1;
        }
    }
    proof {
        assert(o.skip(k).len() == 0);
        assert(o.take(k) == o);
        assert(f@ =~= o.filter(p));
    }
}

/// Removes every field count of the documents `ids`.
fn remove_fields_counts(f: &mut Vec<DocumentFieldsCount>, ids: &Vec<u64>)
    ensures
        final(f)@ == old(f)@.filter(|e: DocumentFieldsCount| !ids@.contains(e.document_id)),
{
    let ghost o = old(f)@;
    let ghost p = |e: DocumentFieldsCount| !ids@.contains(e.document_id);
    let ghost mut k: int = 0;
    let mut i: usize = 0;
    while i < f.len()
        invariant
            0 <= k <= o.len(),
            p == (|e: DocumentFieldsCount| !ids@.contains(e.document_id)),
            f@ == o.take(k).filter(p) + o.skip(k),
            i == o.take(k).filter(p).len(),
        decreases f@.len() - i,
    {
        let ghost a = o.take(k).filter(p);
        proof {
            lemma_filter_step(o, k, p);
            assert(o.skip(k) =~= seq![o[k]] + o.skip(k + 1));
            assert(f@[i as int] == o[k]);
        }
        if contains_id(ids, f[i].document_id) {
            f.remove(i);
            assert(f@ =~= a + o.skip(k + 1));
        } else {
            assert(f@ =~= a.push(o[k]) + o.skip(k + 1));
            i += 1;
        }
        proof {
            k = k + 1;
        }
    }
    proof {
        assert(o.skip(k).len() == 0);
        assert(o.take(k) == o);
        assert(f@ =~= o.filter(p));
    }
}

/// Removes the words of the documents `ids`.
fn remove_docs_words(f: &mut Vec<DocWords>, ids: &Vec<u64>)
    ensures
        final(f)@ == old(f)@.filter(|e: DocWords| !ids@.contains(e.document_id)),
{
    let ghost o = old(f)@;
    let ghost p = |e: DocWords| !ids@.contains(e.document_id);
    let ghost mut k: int = 0;
    let mut i: usize = 0;
    while i < f.len()
        invariant
            0 <= k <= o.len(),
            p == (|e: DocWords| !ids@.contains(e.document_id)),
            f@ == o.take(k).filter(p) + o.skip(k),
            i == o.take(k).filter(p).len(),
        decreases f@.len() - i,
    {
        let ghost a = o.take(k).filter(p);
        proof {
            lemma_filter_step(o, k, p);
            assert(o.skip(k) =~= seq![o[k]] + o.skip(k + 1));
            assert(f@[i as int] == o[k]);
        }
        if contains_id(ids, f[i].document_id) {
            f.remove(i);
            assert(f@ =~= a + o.skip(k + 1));
        } else {
            assert(f@ =~= a.push(o[k]) + o.skip(k + 1));
            i += 1;
        }
        proof {
            k = k + 1;
        }
    }
    proof {
        assert(o.skip(k).len() == 0);
        assert(o.take(k) == o);
        assert(f@ =~= o.filter(p));
    }
}

proof fn lemma_push_contains<A>(s: Seq<A>, x: A, a: A)
    ensures
        s.push(x).contains(a) <==> (s.contains(a) || a == x),
{
    if s.contains(a) {
        let i = choose|i: int| 0 <= i < s.len() && s[i] == a;
        assert(s.push(x)[i] == a);
    }
    if a == x {
        assert(s.push(x)[s.len() as int] == a);
    }
    if s.push(x).contains(a) {
        let i = choose|i: int| 0 <= i < s.len() + 1 && s.push(x)[i] == a;
        if i < s.len() {
            assert(s[i] == a);
        }
    }
}

/// The first entry of `words` equal to `w`.
fn find_word(words: &Vec<Vec<u8>>, w: &Vec<u8>) -> (r: Option<usize>)
    ensures
        match r {
            Some(j) => j < words@.len() && words@[j as int]@ == w@,
            None => forall|j: int| 0 <= j < words@.len() ==> #[trigger] words@[j]@ != w@,
        },
{
    let mut i: usize = 0;
    while i < words.len()
        invariant
            i <= words@.len(),
            forall|j: int| 0 <= j < i ==> #[trigger] words@[j]@ != w@,
        decreases words@.len() - i,
    {
        if bytes_eq(&words[i], w) {
            return Some(i);
        }
        i += 1;
    }
    None
}

/// For each word of the documents `ids`, the documents of `ids` in which it
/// occurs; and the documents of `ids` that have words at all.
fn collect_words(docs_words: &Vec<DocWords>, ids: &Vec<u64>) -> (r: (
    Vec<Vec<u8>>,
    Vec<Vec<u64>>,
    Vec<u64>,
))
    requires
        ids_strictly_sorted(ids@),
    ensures
        r.0@.len() == r.1@.len(),
        forall|j: int| 0 <= j < r.1@.len() ==> #[trigger] r.1@[j]@.len() > 0,
        forall|j: int, d: DocumentId|
            0 <= j < r.1@.len() ==> (#[trigger] r.1@[j]@.contains(d) <==> touched(
                docs_words@,
                ids@.to_set(),
                r.0@[j]@,
            ).contains(d)),
        forall|w: Seq<u8>|
            (forall|j: int| 0 <= j < r.0@.len() ==> #[trigger] r.0@[j]@ != w) ==> touched(
                docs_words@,
                ids@.to_set(),
                w,
            ) == Set::<DocumentId>::empty(),
        ids_strictly_sorted(r.2@),
        forall|d: DocumentId| #[trigger]
            r.2@.contains(d) <==> indexed(docs_words@, ids@.to_set()).contains(d),
{
    let ghost s = docs_words@;
    let mut acc_words: Vec<Vec<u8>> = Vec::new();
    let mut acc_ids: Vec<Vec<u64>> = Vec::new();
    let mut indexed_docs: Vec<u64> = Vec::new();
    let mut k: usize = 0;
    while k < ids.len()
        invariant
            k <= ids@.len(),
            s == docs_words@,
            ids_strictly_sorted(ids@),
            acc_words@.len() == acc_ids@.len(),
            forall|j: int| 0 <= j < acc_ids@.len() ==> #[trigger] acc_ids@[j]@.len() > 0,
            forall|j1: int, j2: int|
                0 <= j1 < j2 < acc_words@.len() ==> #[trigger] acc_words@[j1]@
                    != #[trigger] acc_words@[j2]@,
            forall|j: int, d: DocumentId|
                0 <= j < acc_ids@.len() ==> (#[trigger] acc_ids@[j]@.contains(d) <==> (
                ids@.take(k as int).contains(d) && words_of_document(s, d).contains(
                    acc_words@[j]@,
                ))),
            forall|w: Seq<u8>, d: DocumentId|
                ids@.take(k as int).contains(d) && #[trigger] words_of_document(s, d).contains(w)
                    ==> exists|j: int| 0 <= j < acc_words@.len() && #[trigger] acc_words@[j]@ == w,
            ids_strictly_sorted(indexed_docs@),
            forall|d: DocumentId| #[trigger]
                indexed_docs@.contains(d) <==> (ids@.take(k as int).contains(d)
                    && words_of_document(s, d) != Set::<Seq<u8>>::empty()),
        decreases ids@.len() - k,
    {
        let d = ids[k];
        let ws: Vec<Vec<u8>> = match find_doc_words(docs_words, d) {
            Some(i) => {
                proof {
                    lemma_first_doc(s, d, i as int);
                }
                words_of(&docs_words[i].words)
            },
            None => {
                assert(words_of_document(s, d) == Set::<Seq<u8>>::empty());
                Vec::new()
            },
        };
        assert(words_view(ws@).to_set() == words_of_document(s, d));
        let mut m: usize = 0;
        while m < ws.len()
            invariant
                m <= ws@.len(),
                k < ids@.len(),
                d == ids@[k as int],
                s == docs_words@,
                words_view(ws@).to_set() == words_of_document(s, d),
                acc_words@.len() == acc_ids@.len(),
                forall|j: int| 0 <= j < acc_ids@.len() ==> #[trigger] acc_ids@[j]@.len() > 0,
                forall|j1: int, j2: int|
                    0 <= j1 < j2 < acc_words@.len() ==> #[trigger] acc_words@[j1]@
                        != #[trigger] acc_words@[j2]@,
                forall|j: int, x: DocumentId|
                    0 <= j < acc_ids@.len() ==> (#[trigger] acc_ids@[j]@.contains(x) <==> ((
                    ids@.take(k as int).contains(x) && words_of_document(s, x).contains(
                        acc_words@[j]@,
                    )) || (x == d && words_view(ws@).take(m as int).contains(acc_words@[j]@)))),
                forall|w: Seq<u8>, x: DocumentId|
                    ids@.take(k as int).contains(x) && #[trigger] words_of_document(s, x).contains(
                        w,
                    ) ==> exists|j: int| 0 <= j < acc_words@.len() && #[trigger] acc_words@[j]@ == w,
                forall|w: Seq<u8>|
                    #[trigger] words_view(ws@).take(m as int).contains(w) ==> exists|j: int|
                        0 <= j < acc_words@.len() && #[trigger] acc_words@[j]@ == w,
            decreases ws@.len() - m,
        {
            let ghost before_words = acc_words@;
            let ghost before_ids = acc_ids@;
            let ghost wm = ws@[m as int]@;
            assert(words_view(ws@).take(m + 1) =~= words_view(ws@).take(m as int).push(wm));
            match find_word(&acc_words, &ws[m]) {
                Some(j) => {
                    let mut v = acc_ids[j].clone();
                    assert(v@ =~= acc_ids@[j as int]@);
                    v.push(d);
                    acc_ids.set(j, v);
                    assert forall|jj: int, x: DocumentId|
                        0 <= jj < acc_ids@.len() implies (#[trigger] acc_ids@[jj]@.contains(x) <==> ((
                        ids@.take(k as int).contains(x) && words_of_document(s, x).contains(
                            acc_words@[jj]@,
                        )) || (x == d && words_view(ws@).take(m + 1).contains(acc_words@[jj]@)))) by {
                        lemma_push_contains(words_view(ws@).take(m as int), wm, acc_words@[jj]@);
                        if jj != j {
                            assert(acc_words@[jj]@ != wm);
                            assert(acc_ids@[jj] == before_ids[jj]);
                        } else {
                            assert(acc_ids@[jj]@ == before_ids[jj]@.push(d));
                            lemma_push_contains(before_ids[jj]@, d, x);
                        }
                    }
                },
                None => {
                    let w = ws[m].clone();
                    assert(w@ =~= wm);
                    acc_words.push(w);
                    acc_ids.push(vec![d]);
                    proof {
                        assert(acc_ids@.last()@ =~= seq![d]);
                        assert forall|jj: int, x: DocumentId|
                            0 <= jj < acc_ids@.len() implies (#[trigger] acc_ids@[jj]@.contains(x) <==> ((
                            ids@.take(k as int).contains(x) && words_of_document(s, x).contains(
                                acc_words@[jj]@,
                            )) || (x == d && words_view(ws@).take(m + 1).contains(acc_words@[jj]@)))) by {
                            lemma_push_contains(words_view(ws@).take(m as int), wm, acc_words@[jj]@);
                            if jj == acc_ids@.len() - 1 {
                                assert(acc_words@[jj]@ == wm);
                                if ids@.take(k as int).contains(x) && words_of_document(s, x).contains(wm) {
                                    let jw = choose|jw: int| 0 <= jw < before_words.len() && #[trigger] before_words[jw]@ == wm;
                                    assert(acc_words@[jw]@ == wm);
                                }
                                if words_view(ws@).take(m as int).contains(wm) {
                                    let jw = choose|jw: int| 0 <= jw < before_words.len() && #[trigger] before_words[jw]@ == wm;
                                    assert(acc_words@[jw]@ == wm);
                                }
                            } else {
                                assert(acc_words@[jj] == before_words[jj]);
                                assert(acc_ids@[jj] == before_ids[jj]);
                                assert(acc_words@[jj]@ != wm);
                            }
                        }
                        assert forall|w2: Seq<u8>, x: DocumentId|
                            ids@.take(k as int).contains(x) && #[trigger] words_of_document(s, x).contains(
                                w2,
                            ) implies exists|j: int| 0 <= j < acc_words@.len() && #[trigger] acc_words@[j]@ == w2 by {
                            let jw = choose|jw: int| 0 <= jw < before_words.len() && #[trigger] before_words[jw]@ == w2;
                            assert(acc_words@[jw]@ == w2);
                        }
                    }
                },
            }
            proof {
                assert forall|w2: Seq<u8>|
                    #[trigger] words_view(ws@).take(m + 1).contains(w2) implies exists|j: int|
                        0 <= j < acc_words@.len() && #[trigger] acc_words@[j]@ == w2 by {
                    if w2 == wm {
                        if acc_words@.len() > before_words.len() {
                            assert(acc_words@[before_words.len() as int]@ == w2);
                        }
                    } else {
                        assert(words_view(ws@).take(m as int).contains(w2));
                        let jw = choose|jw: int| 0 <= jw < before_words.len() && #[trigger] before_words[jw]@ == w2;
                        assert(acc_words@[jw]@ == w2);
                    }
                }
            }
            m += 1;
        }
        proof {
            assert(words_view(ws@).take(m as int) == words_view(ws@));
            assert(ids@.take(k + 1) =~= ids@.take(k as int).push(d));
            assert forall|j: int, x: DocumentId|
                0 <= j < acc_ids@.len() implies (#[trigger] acc_ids@[j]@.contains(x) <==> (
                ids@.take(k + 1).contains(x) && words_of_document(s, x).contains(acc_words@[j]@)))
                by {
                lemma_push_contains(ids@.take(k as int), d, x);
                assert(words_view(ws@).to_set().contains(acc_words@[j]@) == words_view(ws@).contains(
                    acc_words@[j]@,
                ));
            }
            assert forall|w: Seq<u8>, x: DocumentId|
                ids@.take(k + 1).contains(x) && #[trigger] words_of_document(s, x).contains(w)
                    implies exists|j: int| 0 <= j < acc_words@.len() && #[trigger] acc_words@[j]@ == w by {
                lemma_push_contains(ids@.take(k as int), d, x);
                if x == d && !ids@.take(k as int).contains(x) {
                    assert(words_view(ws@).to_set().contains(w));
                    assert(words_view(ws@).take(m as int).contains(w));
                }
            }
        }
        if ws.len() > 0 {
            proof {
                assert(words_view(ws@)[0] == ws@[0]@);
                assert(words_view(ws@).to_set().contains(ws@[0]@));
                assert forall|t: int| 0 <= t < indexed_docs@.len() implies indexed_docs@[t] < d by {
                    assert(indexed_docs@.contains(indexed_docs@[t]));
                    let mm = choose|mm: int| 0 <= mm < k && ids@.take(k as int)[mm] == indexed_docs@[t];
                    assert(ids@[mm] < ids@[k as int]);
                }
            }
            let ghost before = indexed_docs@;
            indexed_docs.push(d);
            assert forall|x: DocumentId| #[trigger]
                indexed_docs@.contains(x) <==> (ids@.take(k + 1).contains(x)
                    && words_of_document(s, x) != Set::<Seq<u8>>::empty()) by {
                lemma_push_contains(before, d, x);
                lemma_push_contains(ids@.take(k as int), d, x);
            }
        } else {
            assert(words_view(ws@).to_set() =~= Set::<Seq<u8>>::empty());
            assert forall|x: DocumentId| #[trigger]
                indexed_docs@.contains(x) <==> (ids@.take(k + 1).contains(x)
                    && words_of_document(s, x) != Set::<Seq<u8>>::empty()) by {
                lemma_push_contains(ids@.take(k as int), d, x);
            }
        }
        k += 1;
    }
    proof {
        assert(ids@.take(k as int) == ids@);
        assert forall|j: int, d: DocumentId|
            0 <= j < acc_ids@.len() implies (#[trigger] acc_ids@[j]@.contains(d) <==> touched(
                docs_words@,
                ids@.to_set(),
                acc_words@[j]@,
            ).contains(d)) by {}
        assert forall|w: Seq<u8>|
            (forall|j: int| 0 <= j < acc_words@.len() ==> #[trigger] acc_words@[j]@ != w) implies touched(
                docs_words@,
                ids@.to_set(),
                w,
            ) == Set::<DocumentId>::empty() by {
            assert(touched(docs_words@, ids@.to_set(), w) =~= Set::<DocumentId>::empty());
        }
    }
    (acc_words, acc_ids, indexed_docs)
}

/// The postings lists after deleting `ids` one more step into the list.
proof fn lemma_postings_step(
    s: Seq<DocWords>,
    ids: Set<DocumentId>,
    o: Seq<(Seq<u8>, Seq<DocIndex>)>,
    k: int,
)
    requires
        0 <= k < o.len(),
    ensures
        postings_after(s, ids, o.take(k + 1)) == (if keeps(s, ids, o[k]) {
            postings_after(s, ids, o.take(k)).push(pruned_entry(s, ids, o[k]))
        } else {
            postings_after(s, ids, o.take(k))
        }),
{
    let p = |e: (Seq<u8>, Seq<DocIndex>)| keeps(s, ids, e);
    let f = |e: (Seq<u8>, Seq<DocIndex>)| pruned_entry(s, ids, e);
    lemma_filter_step(o, k, p);
    if keeps(s, ids, o[k]) {
        assert(o.take(k).filter(p).push(o[k]).map_values(f) =~= o.take(k).filter(p).map_values(
            f,
        ).push(f(o[k])));
    }
}

/// Prunes the postings list of each word of `acc_words` of the documents that
/// `acc_ids` gives for it; removes the lists that become empty and returns
/// their words.
fn prune_postings(
    postings: &mut Vec<PostingsList>,
    acc_words: &Vec<Vec<u8>>,
    acc_ids: &Vec<Vec<u64>>,
    Ghost(s): Ghost<Seq<DocWords>>,
    Ghost(ids): Ghost<Set<DocumentId>>,
) -> (removed: Vec<Vec<u8>>)
    requires
        forall|i: int|
            0 <= i < old(postings)@.len() ==> sorted_by_document(
                #[trigger] old(postings)@[i].doc_indexes@,
            ),
        acc_words@.len() == acc_ids@.len(),
        forall|j: int| 0 <= j < acc_ids@.len() ==> #[trigger] acc_ids@[j]@.len() > 0,
        forall|j: int, d: DocumentId|
            0 <= j < acc_ids@.len() ==> (#[trigger] acc_ids@[j]@.contains(d) <==> touched(
                s,
                ids,
                acc_words@[j]@,
            ).contains(d)),
        forall|w: Seq<u8>|
            (forall|j: int| 0 <= j < acc_words@.len() ==> #[trigger] acc_words@[j]@ != w)
                ==> touched(s, ids, w) == Set::<DocumentId>::empty(),
    ensures
        postings_view(final(postings)@) == postings_after(s, ids, postings_view(old(postings)@)),
        words_view(removed@).to_set() == removed_words(s, ids, postings_view(old(postings)@)),
        forall|i: int|
            0 <= i < final(postings)@.len() ==> sorted_by_document(
                #[trigger] final(postings)@[i].doc_indexes@,
            ),
{
    let ghost raw = old(postings)@;
    let ghost o = postings_view(raw);
    let mut removed: Vec<Vec<u8>> = Vec::new();
    let ghost mut k: int = 0;
    let mut i: usize = 0;
    while i < postings.len()
        invariant
            0 <= k <= raw.len(),
            o == postings_view(raw),
            i <= postings@.len(),
            postings@.subrange(i as int, postings@.len() as int) == raw.skip(k),
            postings_view(postings@.take(i as int)) == postings_after(s, ids, o.take(k)),
            words_view(removed@).to_set() == removed_words(s, ids, o.take(k)),
            forall|t: int|
                0 <= t < raw.len() ==> sorted_by_document(#[trigger] raw[t].doc_indexes@),
            forall|t: int|
                0 <= t < postings@.len() ==> sorted_by_document(
                    #[trigger] postings@[t].doc_indexes@,
                ),
            acc_words@.len() == acc_ids@.len(),
            forall|j: int| 0 <= j < acc_ids@.len() ==> #[trigger] acc_ids@[j]@.len() > 0,
            forall|j: int, d: DocumentId|
                0 <= j < acc_ids@.len() ==> (#[trigger] acc_ids@[j]@.contains(d) <==> touched(
                    s,
                    ids,
                    acc_words@[j]@,
                ).contains(d)),
            forall|w: Seq<u8>|
                (forall|j: int| 0 <= j < acc_words@.len() ==> #[trigger] acc_words@[j]@ != w)
                    ==> touched(s, ids, w) == Set::<DocumentId>::empty(),
        decreases postings@.len() - i,
    {
        let ghost cur = postings@;
        proof {
            assert(cur.subrange(i as int, cur.len() as int).len() == raw.skip(k).len());
            assert(k < raw.len());
            assert(cur.subrange(i as int, cur.len() as int)[0] == raw.skip(k)[0]);
            assert(cur[i as int] == raw[k]);
        }
        let ghost e = o[k];
        proof {
            lemma_postings_step(s, ids, o, k);
            assert(e == (cur[i as int].word@, cur[i as int].doc_indexes@));
            assert(o.take(k + 1) =~= o.take(k).push(e));
        }
        let ghost t = touched(s, ids, e.0);
        match find_word(acc_words, &postings[i].word) {
            None => {
                proof {
                    assert(t == Set::<DocumentId>::empty());
                    assert(keeps(s, ids, e));
                    assert(removed_words(s, ids, o.take(k + 1)) =~= removed_words(s, ids, o.take(k)));
                    assert(postings@.take(i + 1) =~= postings@.take(i as int).push(cur[i as int]));
                    assert(postings_view(postings@.take(i + 1)) =~= postings_view(postings@.take(i as int)).push(e));
                }
                i += 1;
            },
            Some(j) => {
                let dirty = acc_ids[j].clone();
                assert(dirty@ =~= acc_ids@[j as int]@);
                let doc_ids = canonical_ids(dirty);
                let diff = difference_by_document(&postings[i].doc_indexes, &doc_ids);
                proof {
                    assert(acc_ids@[j as int]@.contains(acc_ids@[j as int]@[0]));
                    assert(t.contains(acc_ids@[j as int]@[0]));
                    assert(t != Set::<DocumentId>::empty());
                    assert(acc_words@[j as int]@ == e.0);
                    assert forall|x: DocumentId| doc_ids@.contains(x) <==> t.contains(x) by {
                        assert(doc_ids@.to_set().contains(x) == doc_ids@.contains(x));
                        assert(dirty@.to_set().contains(x) == dirty@.contains(x));
                        assert(acc_ids@[j as int]@.contains(x) <==> t.contains(x));
                    }
                    assert((|x: DocIndex| !doc_ids@.contains(x.document_id)) =~= (|x: DocIndex|
                        !t.contains(x.document_id)));
                    assert(diff@ == pruned(e.1, t));
                    lemma_filter_sorted(e.1, |x: DocIndex| !t.contains(x.document_id));
                }
                let entry = postings.remove(i);
                if diff.len() > 0 {
                    postings.insert(i, PostingsList { word: entry.word, doc_indexes: diff });
                    proof {
                        assert(keeps(s, ids, e));
                        assert(removed_words(s, ids, o.take(k + 1)) =~= removed_words(s, ids, o.take(k)));
                        assert(postings@.take(i + 1) =~= cur.take(i as int).push(postings@[i as int]));
                        assert(postings_view(postings@.take(i + 1)) =~= postings_view(cur.take(i as int)).push(pruned_entry(s, ids, e)));
                        assert(postings@.subrange(i + 1, postings@.len() as int) =~= cur.subrange(i + 1, cur.len() as int));
                    }
                    i += 1;
                } else {
                    let ghost before = removed@;
                    removed.push(entry.word);
                    proof {
                        assert(!keeps(s, ids, e));
                        assert(words_view(removed@) =~= words_view(before).push(e.0));
                        let tk = o.take(k);
                        let tk1 = o.take(k + 1);
                        assert forall|w: Seq<u8>| #[trigger] words_view(removed@).to_set().contains(w) <==> removed_words(s, ids, o.take(k + 1)).contains(w) by {
                            lemma_push_contains(words_view(before), e.0, w);
                            if removed_words(s, ids, o.take(k + 1)).contains(w) && w != e.0 {
                                let q = choose|q: int| 0 <= q < tk1.len() && (#[trigger] tk1[q]).0 == w && !keeps(s, ids, tk1[q]);
                                assert(tk[q] == tk1[q]);
                            }
                            if w == e.0 {
                                assert(o.take(k + 1)[k] == e);
                            }
                            if removed_words(s, ids, o.take(k)).contains(w) {
                                let q = choose|q: int| 0 <= q < tk.len() && (#[trigger] tk[q]).0 == w && !keeps(s, ids, tk[q]);
                                assert(tk1[q] == tk[q]);
                            }
                        }
                        assert(words_view(removed@).to_set() =~= removed_words(s, ids, o.take(k + 1)));
                        assert(postings@.take(i as int) =~= cur.take(i as int));
                        assert(postings@.subrange(i as int, postings@.len() as int) =~= cur.subrange(i + 1, cur.len() as int));
                    }
                }
            },
        }
        proof {
            assert(raw.skip(k + 1) =~= raw.skip(k).subrange(1, raw.skip(k).len() as int));
            k = k + 1;
        }
    }
    proof {
        assert(raw.skip(k).len() == 0);
        assert(k == raw.len());
        assert(o.take(k) =~= o);
        assert(postings@.take(i as int) =~= postings@);
    }
    removed
}

/// The documents of `candidates` that have stored fields.
fn documents_with_fields(fields: &Vec<DocumentField>, candidates: &Vec<u64>) -> (r: Vec<u64>)
    requires
        ids_strictly_sorted(candidates@),
    ensures
        ids_strictly_sorted(r@),
        forall|d: DocumentId| #[trigger]
            r@.contains(d) <==> (candidates@.contains(d) && has_fields(fields@, d)),
{
    let mut r: Vec<u64> = Vec::new();
    let mut k: usize = 0;
    while k < candidates.len()
        invariant
            k <= candidates@.len(),
            ids_strictly_sorted(candidates@),
            ids_strictly_sorted(r@),
            forall|d: DocumentId| #[trigger]
                r@.contains(d) <==> (candidates@.take(k as int).contains(d) && has_fields(
                    fields@,
                    d,
                )),
        decreases candidates@.len() - k,
    {
        let d = candidates[k];
        proof {
            assert(candidates@.take(k + 1) =~= candidates@.take(k as int).push(d));
        }
        if has_document_fields(fields, d) {
            let ghost before = r@;
            proof {
                assert forall|t: int| 0 <= t < before.len() implies before[t] < d by {
                    assert(before.contains(before[t]));
                    let m = choose|m: int|
                        0 <= m < k && #[trigger] candidates@.take(k as int)[m] == before[t];
                    assert(candidates@[m] < candidates@[k as int]);
                }
            }
            r.push(d);
            assert forall|x: DocumentId| #[trigger]
                r@.contains(x) <==> (candidates@.take(k + 1).contains(x) && has_fields(
                    fields@,
                    x,
                )) by {
                lemma_push_contains(before, d, x);
                lemma_push_contains(candidates@.take(k as int), d, x);
            }
        } else {
            assert forall|x: DocumentId| #[trigger]
                r@.contains(x) <==> (candidates@.take(k + 1).contains(x) && has_fields(
                    fields@,
                    x,
                )) by {
                lemma_push_contains(candidates@.take(k as int), d, x);
            }
        }
        k += 1;
    }
    assert(candidates@.take(k as int) == candidates@);
    r
}

/// Removes every trace of the documents `deletion` from the index, in one
/// pass over its stores.
///
/// The ranked attributes of each document are dropped from the ranked map.
/// Each word of a deleted document loses that document's postings; a word
/// whose postings become empty loses its postings list and leaves the term
/// dictionary. The fields and field counts of every deleted document that has
/// words are removed; those that had fields lose their words entry and are
/// subtracted from the document count, which stops at zero.
pub fn apply_documents_deletion(index: &mut Index, deletion: Vec<DocumentId>) -> (r: Result<
    (),
    Error,
>)
    requires
        old(index).wf(),
    ensures
        old(index).schema.is_none() ==> r == Err::<(), Error>(Error::SchemaMissing) && *final(index)
            == *old(index),
        old(index).schema.is_some() ==> r.is_ok() && applied(*old(index), *final(index), deletion@.to_set()),
        final(index).wf(),
{
    let idset = canonical_ids(deletion);
    let ghost ids = idset@.to_set();
    let ghost s = index.docs_words@;
    let ghost f = index.documents_fields@;
    let ghost o = index.postings();
    let ranked_attrs = match &index.schema {
        Some(schema) => schema.ranked_attributes(),
        None => return Err(Error::SchemaMissing),
    };
    let kept = match &index.ranked_map {
        Some(m) => remove_ranked(&m.entries, &idset, &ranked_attrs),
        None => Vec::new(),
    };
    let (acc_words, acc_ids, indexed_docs) = collect_words(&index.docs_words, &idset);
    let removed = prune_postings(
        &mut index.postings_lists,
        &acc_words,
        &acc_ids,
        Ghost(index.docs_words@),
        Ghost(idset@.to_set()),
    );
    let deleted = documents_with_fields(&index.documents_fields, &indexed_docs);
    remove_fields_counts(&mut index.documents_fields_counts, &indexed_docs);
    remove_fields(&mut index.documents_fields, &indexed_docs);
    remove_docs_words(&mut index.docs_words, &deleted);
    let removed = canonical_words(removed);
    let removed_set = words_from_sorted(&removed);
    let words = match &index.words {
        Some(ws) => words_difference(ws, &removed_set),
        None => empty_words(),
    };
    index.words = Some(words);
    index.ranked_map = Some(RankedMap { entries: kept });
    let n = deleted.len() as u64;
    if n <= index.number_of_documents {
        index.number_of_documents = index.number_of_documents - n;
    } else {
        index.number_of_documents = 0;
    }
    proof {
        assert((|e: DocumentField| !indexed_docs@.contains(e.document_id)) =~= (|e: DocumentField|
            !indexed(s, ids).contains(e.document_id)));
        assert((|e: DocumentFieldsCount| !indexed_docs@.contains(e.document_id)) =~= (|
            e: DocumentFieldsCount,
        | !indexed(s, ids).contains(e.document_id)));
        assert((|e: DocWords| !deleted@.contains(e.document_id)) =~= (|e: DocWords|
            !deleted_set(s, f, ids).contains(e.document_id)));
        assert(deleted@.to_set() =~= deleted_set(s, f, ids));
        assert forall|a: int, b: int|
            0 <= a < deleted@.len() && 0 <= b < deleted@.len() && a != b implies deleted@[a]
            != deleted@[b] by {
            if a < b {
                assert(deleted@[a] < deleted@[b]);
            } else {
                assert(deleted@[b] < deleted@[a]);
            }
        }
        assert(deleted@.no_duplicates());
        deleted@.unique_seq_to_set();
        let after = *index;
        let before = *old(index);
        assert(after.schema == before.schema);
        assert(after.ranked_entries() == before.ranked_entries().filter(
            |e: RankedEntry| ranked_kept(ids, before.schema.unwrap().ranked_attrs().to_set(), e)));
        assert(after.postings() == postings_after(s, ids, before.postings()));
        assert(after.dictionary() == (if before.words.is_some() {
            before.dictionary().difference(removed_words(s, ids, before.postings()))
        } else {
            Set::<Seq<u8>>::empty()
        }));
        assert(after.documents_fields@ == f.filter(
            |e: DocumentField| !indexed(s, ids).contains(e.document_id)));
        assert(after.docs_words@ == s.filter(|e: DocWords| !deleted_set(s, f, ids).contains(e.document_id)));
        assert(ids == deletion@.to_set());
        assert(after.documents_fields_counts@ == before.documents_fields_counts@.filter(
            |e: DocumentFieldsCount| !indexed(s, ids).contains(e.document_id)));
        assert(deleted_set(s, f, ids).len() == n);
        assert(after.number_of_documents == (if deleted_set(s, f, ids).len() <= before.number_of_documents {
            before.number_of_documents - deleted_set(s, f, ids).len()
        } else {
            0
        }));
    }
    Ok(())
}

/// Accumulates the ids of documents to delete, then enqueues them as one
/// update.
pub struct DocumentsDeletion {
    pub documents: Vec<DocumentId>,
}

impl DocumentsDeletion {
    /// An empty batch.
    pub fn new() -> (r: DocumentsDeletion)
        ensures
            r.documents@ == Seq::<DocumentId>::empty(),
    {
        DocumentsDeletion { documents: Vec::new() }
    }

    /// Adds a document to the batch.
    pub fn delete_document_by_id(&mut self, document_id: DocumentId)
        ensures
            final(self).documents@ == old(self).documents@.push(document_id),
    {
        self.documents.push(document_id);
    }

    /// Adds the document whose identifier was read from its identifier
    /// attribute; fails where the document had none.
    pub fn delete_document(&mut self, document_id: Option<DocumentId>) -> (r: Result<(), Error>)
        ensures
            document_id.is_none() ==> r == Err::<(), Error>(Error::MissingDocumentId)
                && final(self).documents@ == old(self).documents@,
            document_id.is_some() ==> r.is_ok() && final(self).documents@ == old(
                self,
            ).documents@.push(document_id.unwrap()),
    {
        match document_id {
            Some(id) => {
                self.delete_document_by_id(id);
                Ok(())
            },
            None => Err(Error::MissingDocumentId),
        }
    }

    /// Adds every document of `ids`, in order.
    pub fn extend(&mut self, ids: Vec<DocumentId>)
        ensures
            final(self).documents@ == old(self).documents@ + ids@,
    {
        let ghost start = self.documents@;
        let mut i: usize = 0;
        while i < ids.len()
            invariant
                i <= ids@.len(),
                self.documents@ == start + ids@.take(i as int),
            decreases ids@.len() - i,
        {
            self.documents.push(ids[i]);
            assert(start + ids@.take(i + 1) =~= (start + ids@.take(i as int)).push(ids@[i as int]));
            i += 1;
        }
        assert(ids@.take(i as int) =~= ids@);
    }

    /// Enqueues the batch as one update under the next update id, and returns
    /// that id.
    pub fn finalize(self, updates: &mut Updates, results: &UpdatesResults) -> (r: u64)
        requires
            old(updates).wf(),
            ids_left(old(updates), results),
        ensures
            r == next_id_spec(old(updates)@, results.last_spec()),
            final(updates)@ == put_spec(
                old(updates)@,
                r,
                UpdateView::DocumentsDeletion(self.documents@),
            ),
            final(updates).wf(),
    {
        push_documents_deletion(updates, results, self.documents)
    }
}

/// Enqueues the deletion of `deletion` under the next update id, and returns
/// that id.
pub fn push_documents_deletion(
    updates: &mut Updates,
    results: &UpdatesResults,
    deletion: Vec<DocumentId>,
) -> (r: u64)
    requires
        old(updates).wf(),
        ids_left(old(updates), results),
    ensures
        r == next_id_spec(old(updates)@, results.last_spec()),
        final(updates)@ == put_spec(old(updates)@, r, UpdateView::DocumentsDeletion(deletion@)),
        final(updates).wf(),
{
    let update_id = next_update_id(updates, results);
    let update = Update::documents_deletion(deletion);
    updates.put_update(update_id, update);
    update_id
}

} // verus!
