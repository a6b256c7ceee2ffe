use vstd::prelude::*;

use crate::external::{fst_words, sorted_by_document};
use crate::types::{AttributeId, DocIndex, DocumentId, Number, Schema};

verus! {

/// The postings of one word: every occurrence of it, sorted by document.
pub struct PostingsList {
    pub word: Vec<u8>,
    pub doc_indexes: Vec<DocIndex>,
}

/// The words that occur in one document.
pub struct DocWords {
    pub document_id: DocumentId,
    pub words: fst::Set,
}

/// A stored field value of a document.
pub struct DocumentField {
    pub document_id: DocumentId,
    pub attribute: AttributeId,
    pub value: Vec<u8>,
}

/// How often an attribute occurs in a document.
#[derive(Clone, Copy, Debug, PartialEq, Eq)]
pub struct DocumentFieldsCount {
    pub document_id: DocumentId,
    pub attribute: AttributeId,
    pub count: u64,
}

/// The ranking value of a ranked attribute of a document.
#[derive(Clone, Copy, Debug, PartialEq, Eq)]
pub struct RankedEntry {
    pub document_id: DocumentId,
    pub attribute: AttributeId,
    pub value: Number,
}

/// The ranking values of all documents.
pub struct RankedMap {
    pub entries: Vec<RankedEntry>,
}

impl RankedMap {
    /// An empty ranked map.
    pub fn new() -> (r: RankedMap)
        ensures
            r.entries@ == Seq::<RankedEntry>::empty(),
    {
        RankedMap { entries: Vec::new() }
    }
}

/// Every store of an index, as one value that a write transaction edits.
pub struct Index {
    pub schema: Option<Schema>,
    pub ranked_map: Option<RankedMap>,
    /// The term dictionary: every word that has postings.
    pub words: Option<fst::Set>,
    pub postings_lists: Vec<PostingsList>,
    pub docs_words: Vec<DocWords>,
    pub documents_fields: Vec<DocumentField>,
    pub documents_fields_counts: Vec<DocumentFieldsCount>,
    pub number_of_documents: u64,
}

/// A postings list as plain values.
pub open spec fn postings_view(s: Seq<PostingsList>) -> Seq<(Seq<u8>, Seq<DocIndex>)> {
    s.map_values(|p: PostingsList| (p.word@, p.doc_indexes@))
}

impl Index {
    /// Every postings list is sorted by document.
    pub open spec fn wf(&self) -> bool {
        forall|i: int|
            0 <= i < self.postings_lists@.len() ==> sorted_by_document(
                #[trigger] self.postings_lists@[i].doc_indexes@,
            )
    }

    /// The postings lists as plain values.
    pub open spec fn postings(&self) -> Seq<(Seq<u8>, Seq<DocIndex>)> {
        postings_view(self.postings_lists@)
    }

    /// The words of the term dictionary; none where there is no dictionary.
    pub open spec fn dictionary(&self) -> Set<Seq<u8>> {
        match self.words {
            Some(w) => fst_words(w),
            None => Set::empty(),
        }
    }

    /// The ranked map's entries; none where there is no ranked map.
    pub open spec fn ranked_entries(&self) -> Seq<RankedEntry> {
        match self.ranked_map {
            Some(m) => m.entries@,
            None => Seq::empty(),
        }
    }

    /// The term dictionary holds exactly the words that have a non-empty
    /// postings list, and each word has one postings list.
    pub open spec fn dictionary_consistent(&self) -> bool {
        &&& self.words.is_some()
        &&& forall|w: Seq<u8>|
            self.dictionary().contains(w) <==> exists|i: int|
                0 <= i < self.postings().len() && #[trigger] self.postings()[i].0 == w
        &&& forall|i: int|
            0 <= i < self.postings().len() ==> #[trigger] self.postings()[i].1.len() > 0
        &&& forall|i: int, j: int|
            0 <= i < j < self.postings().len() ==> #[trigger] self.postings()[i].0
                != #[trigger] self.postings()[j].0
    }
}

/// Filtering one more element of a prefix.
pub(crate) proof fn lemma_filter_step<A>(o: Seq<A>, k: int, p: spec_fn(A) -> bool)
    requires
        0 <= k < o.len(),
    ensures
        o.take(k + 1).filter(p) == (if p(o[k]) {
            o.take(k).filter(p).push(o[k])
        } else {
            o.take(k).filter(p)
        }),
{
    reveal(Seq::filter);
    assert(o.take(k + 1).drop_last() =~= o.take(k));
}

/// Filtering keeps a list sorted by document.
pub(crate) proof fn lemma_filter_sorted(l: Seq<DocIndex>, p: spec_fn(DocIndex) -> bool)
    requires
        sorted_by_document(l),
    ensures
        sorted_by_document(l.filter(p)),
        l.len() > 0 ==> forall|i: int|
            0 <= i < l.filter(p).len() ==> #[trigger] l.filter(p)[i].document_id
                <= l.last().document_id,
    decreases l.len(),
{
    reveal(Seq::filter);
    if l.len() > 0 {
        let d = l.drop_last();
        lemma_filter_sorted(d, p);
        let f = d.filter(p);
        if d.len() > 0 {
            assert(d.last().document_id <= l.last().document_id);
        } else {
            assert(f.len() == 0);
        }
        assert forall|i: int| 0 <= i < f.len() implies #[trigger] f[i].document_id
            <= l.last().document_id by {}
    }
}

/// `i` is the first entry of `s` for document `d`.
pub open spec fn is_first_doc(s: Seq<DocWords>, d: DocumentId, i: int) -> bool {
    &&& 0 <= i < s.len()
    &&& s[i].document_id == d
    &&& forall|j: int| 0 <= j < i ==> #[trigger] s[j].document_id != d
}

/// The words of document `d`: those of its first entry, or none.
pub open spec fn words_of_document(s: Seq<DocWords>, d: DocumentId) -> Set<Seq<u8>> {
    if exists|i: int| is_first_doc(s, d, i) {
        fst_words(s[choose|i: int| is_first_doc(s, d, i)].words)
    } else {
        Set::empty()
    }
}

/// The documents of `ids` in which `w` occurs.
pub open spec fn touched(s: Seq<DocWords>, ids: Set<DocumentId>, w: Seq<u8>) -> Set<DocumentId> {
    Set::new(|d: DocumentId| ids.contains(d) && words_of_document(s, d).contains(w))
}

/// The documents of `ids` that have at least one word.
pub open spec fn indexed(s: Seq<DocWords>, ids: Set<DocumentId>) -> Set<DocumentId> {
    Set::new(|d: DocumentId| ids.contains(d) && words_of_document(s, d) != Set::<Seq<u8>>::empty())
}

/// Some field of document `d` is stored.
pub open spec fn has_fields(f: Seq<DocumentField>, d: DocumentId) -> bool {
    exists|i: int| 0 <= i < f.len() && f[i].document_id == d
}

/// The indexed documents of `ids` that have stored fields: those a deletion
/// counts as removed.
pub open spec fn deleted_set(
    s: Seq<DocWords>,
    f: Seq<DocumentField>,
    ids: Set<DocumentId>,
) -> Set<DocumentId> {
    Set::new(|d: DocumentId| indexed(s, ids).contains(d) && has_fields(f, d))
}

/// The occurrences of a postings list that belong to none of `t`.
pub open spec fn pruned(l: Seq<DocIndex>, t: Set<DocumentId>) -> Seq<DocIndex> {
    l.filter(|x: DocIndex| !t.contains(x.document_id))
}

/// A postings list is kept unless deleting `ids` touches its word and leaves
/// it empty.
pub open spec fn keeps(
    s: Seq<DocWords>,
    ids: Set<DocumentId>,
    e: (Seq<u8>, Seq<DocIndex>),
) -> bool {
    touched(s, ids, e.0) == Set::<DocumentId>::empty() || pruned(e.1, touched(s, ids, e.0)).len()
        > 0
}

/// A postings list after deleting `ids`.
pub open spec fn pruned_entry(
    s: Seq<DocWords>,
    ids: Set<DocumentId>,
    e: (Seq<u8>, Seq<DocIndex>),
) -> (Seq<u8>, Seq<DocIndex>) {
    if touched(s, ids, e.0) == Set::<DocumentId>::empty() {
        e
    } else {
        (e.0, pruned(e.1, touched(s, ids, e.0)))
    }
}

/// All postings lists after deleting `ids`.
pub open spec fn postings_after(
    s: Seq<DocWords>,
    ids: Set<DocumentId>,
    p: Seq<(Seq<u8>, Seq<DocIndex>)>,
) -> Seq<(Seq<u8>, Seq<DocIndex>)> {
    p.filter(|e: (Seq<u8>, Seq<DocIndex>)| keeps(s, ids, e)).map_values(
        |e: (Seq<u8>, Seq<DocIndex>)| pruned_entry(s, ids, e),
    )
}

/// The words whose postings list deleting `ids` empties.
pub open spec fn removed_words(
    s: Seq<DocWords>,
    ids: Set<DocumentId>,
    p: Seq<(Seq<u8>, Seq<DocIndex>)>,
) -> Set<Seq<u8>> {
    Set::new(|w: Seq<u8>| exists|i: int| 0 <= i < p.len() && p[i].0 == w && !keeps(s, ids, p[i]))
}

/// A ranked entry survives unless it is a ranked attribute of a deleted document.
pub open spec fn ranked_kept(
    ids: Set<DocumentId>,
    attrs: Set<AttributeId>,
    e: RankedEntry,
) -> bool {
    !(ids.contains(e.document_id) && attrs.contains(e.attribute))
}

/// `after` is `before` with the documents `ids` deleted: what each store
/// holds once a deletion is applied.
pub open spec fn applied(before: Index, after: Index, ids: Set<DocumentId>) -> bool {
    let s = before.docs_words@;
    let f = before.documents_fields@;
    let attrs = before.schema.unwrap().ranked_attrs().to_set();
    let deleted = deleted_set(s, f, ids);
    &&& after.schema == before.schema
    &&& after.ranked_map.is_some()
    &&& after.ranked_entries() == before.ranked_entries().filter(
        |e: RankedEntry| ranked_kept(ids, attrs, e),
    )
    &&& after.postings() == postings_after(s, ids, before.postings())
    &&& after.words.is_some()
    &&& after.dictionary() == (if before.words.is_some() {
        before.dictionary().difference(removed_words(s, ids, before.postings()))
    } else {
        Set::<Seq<u8>>::empty()
    })
    &&& after.documents_fields@ == f.filter(
        |e: DocumentField| !indexed(s, ids).contains(e.document_id),
    )
    &&& after.documents_fields_counts@ == before.documents_fields_counts@.filter(
        |e: DocumentFieldsCount| !indexed(s, ids).contains(e.document_id),
    )
    &&& after.docs_words@ == s.filter(|e: DocWords| !deleted.contains(e.document_id))
    &&& after.number_of_documents == (if deleted.len() <= before.number_of_documents {
        before.number_of_documents - deleted.len()
    } else {
        0
    })
}

/// Filtering keeps the words of a list of postings lists distinct.
proof fn lemma_filter_unique_words(
    o: Seq<(Seq<u8>, Seq<DocIndex>)>,
    p: spec_fn((Seq<u8>, Seq<DocIndex>)) -> bool,
)
    requires
        forall|i: int, j: int| 0 <= i < j < o.len() ==> #[trigger] o[i].0 != #[trigger] o[j].0,
    ensures
        forall|i: int, j: int|
            0 <= i < j < o.filter(p).len() ==> #[trigger] o.filter(p)[i].0 != #[trigger] o.filter(
                p,
            )[j].0,
    decreases o.len(),
{
    reveal(Seq::filter);
    if o.len() > 0 {
        let d = o.drop_last();
        lemma_filter_unique_words(d, p);
        let f = d.filter(p);
        assert forall|i: int| 0 <= i < f.len() implies #[trigger] f[i].0 != o.last().0 by {
            assert(f.contains(f[i]));
            d.lemma_filter_contains_rev(p, f[i]);
            let k = choose|k: int| 0 <= k < d.len() && d[k] == f[i];
            assert(o[k].0 != o[o.len() - 1].0);
        }
    }
}

/// After a deletion the term dictionary holds exactly the words that have a
/// non-empty postings list, provided it did before.
pub proof fn lemma_dictionary_consistent(before: Index, after: Index, ids: Set<DocumentId>)
    requires
        before.schema.is_some(),
        before.dictionary_consistent(),
        applied(before, after, ids),
    ensures
        after.dictionary_consistent(),
{
    let s = before.docs_words@;
    let o = before.postings();
    let p = |e: (Seq<u8>, Seq<DocIndex>)| keeps(s, ids, e);
    let g = |e: (Seq<u8>, Seq<DocIndex>)| pruned_entry(s, ids, e);
    let fl = o.filter(p);
    let a = after.postings();
    assert(a == fl.map_values(g));
    o.filter_lemma(p);
    lemma_filter_unique_words(o, p);
    assert forall|j: int| 0 <= j < a.len() implies #[trigger] a[j].0 == fl[j].0 && keeps(s, ids, fl[j])
        && exists|i: int| 0 <= i < o.len() && o[i] == fl[j] by {
        assert(p(fl[j]));
        assert(fl.contains(fl[j]));
        o.lemma_filter_contains_rev(p, fl[j]);
    }
    assert forall|j: int| 0 <= j < a.len() implies #[trigger] a[j].1.len() > 0 by {
        assert(a[j].0 == fl[j].0);
        let i = choose|i: int| 0 <= i < o.len() && o[i] == fl[j];
        assert(before.postings()[i].1.len() > 0);
        assert(a[j] == pruned_entry(s, ids, fl[j]));
    }
    assert forall|i: int, j: int| 0 <= i < j < a.len() implies #[trigger] a[i].0 != #[trigger] a[j].0 by {
        assert(fl[i].0 != fl[j].0);
    }
    let removed = removed_words(s, ids, o);
    assert forall|w: Seq<u8>| after.dictionary().contains(w) <==> exists|j: int|
        0 <= j < a.len() && #[trigger] a[j].0 == w by {
        if after.dictionary().contains(w) {
            assert(before.dictionary().contains(w) && !removed.contains(w));
            let i = choose|i: int| 0 <= i < o.len() && #[trigger] o[i].0 == w;
            assert(keeps(s, ids, o[i]));
            assert(fl.contains(o[i]));
            let j = choose|j: int| 0 <= j < fl.len() && fl[j] == o[i];
            assert(a[j].0 == w);
        }
        if exists|j: int| 0 <= j < a.len() && #[trigger] a[j].0 == w {
            let j = choose|j: int| 0 <= j < a.len() && #[trigger] a[j].0 == w;
            let i = choose|i: int| 0 <= i < o.len() && o[i] == fl[j];
            assert(o[i].0 == w);
            assert(before.dictionary().contains(w));
            if removed.contains(w) {
                let i2 = choose|i2: int| 0 <= i2 < o.len() && o[i2].0 == w && !keeps(s, ids, o[i2]);
                if i2 < i {
                    assert(o[i2].0 != o[i].0);
                } else if i < i2 {
                    assert(o[i].0 != o[i2].0);
                }
            }
        }
    }
}

/// Deleting documents that all have words and stored fields lowers the
/// document count by their number; deleting documents none of which has a
/// stored field leaves it as it was.
pub proof fn lemma_deletion_count(before: Index, after: Index, ids: Set<DocumentId>)
    requires
        before.schema.is_some(),
        applied(before, after, ids),
        ids.finite(),
    ensures
        (forall|d: DocumentId|
            #[trigger] ids.contains(d) ==> words_of_document(before.docs_words@, d) != Set::<
                Seq<u8>,
            >::empty() && has_fields(before.documents_fields@, d)) && ids.len()
            <= before.number_of_documents ==> after.number_of_documents
            == before.number_of_documents - ids.len(),
        (forall|d: DocumentId| #[trigger]
            ids.contains(d) ==> !has_fields(before.documents_fields@, d))
            ==> after.number_of_documents == before.number_of_documents,
{
    let s = before.docs_words@;
    let f = before.documents_fields@;
    if forall|d: DocumentId|
        #[trigger] ids.contains(d) ==> words_of_document(s, d) != Set::<Seq<u8>>::empty()
            && has_fields(f, d) {
        assert(deleted_set(s, f, ids) =~= ids);
    }
    if forall|d: DocumentId| #[trigger] ids.contains(d) ==> !has_fields(f, d) {
        assert(deleted_set(s, f, ids) =~= Set::<DocumentId>::empty());
    }
}

/// Filtering with a predicate that every element meets changes nothing.
proof fn lemma_filter_all<A>(s: Seq<A>, p: spec_fn(A) -> bool)
    requires
        forall|i: int| 0 <= i < s.len() ==> p(#[trigger] s[i]),
    ensures
        s.filter(p) == s,
    decreases s.len(),
{
    reveal(Seq::filter);
    if s.len() > 0 {
        lemma_filter_all(s.drop_last(), p);
        assert(s.drop_last().push(s.last()) =~= s);
    }
}

/// The words of a document are those of its first entry.
pub(crate) proof fn lemma_first_doc(s: Seq<DocWords>, d: DocumentId, i: int)
    requires
        is_first_doc(s, d, i),
    ensures
        words_of_document(s, d) == fst_words(s[i].words),
{
    let c = choose|j: int| is_first_doc(s, d, j);
    assert(is_first_doc(s, d, c));
    if c < i {
        assert(s[c].document_id != d);
    } else if i < c {
        assert(s[i].document_id != d);
    }
}

/// Document `d` has an entry in `s`.
pub open spec fn has_doc(s: Seq<DocWords>, d: DocumentId) -> bool {
    exists|i: int| 0 <= i < s.len() && s[i].document_id == d
}

/// A document that has an entry has a first one.
proof fn lemma_first_exists(t: Seq<DocWords>, d: DocumentId, i: int)
    requires
        0 <= i < t.len(),
        t[i].document_id == d,
    ensures
        exists|j: int| is_first_doc(t, d, j),
    decreases i,
{
    if exists|j: int| 0 <= j < i && t[j].document_id == d {
        let j = choose|j: int| 0 <= j < i && t[j].document_id == d;
        lemma_first_exists(t, d, j);
    } else {
        assert(is_first_doc(t, d, i));
    }
}

/// The words of a document after one more entry.
proof fn lemma_words_push(t: Seq<DocWords>, x: DocWords, d: DocumentId)
    ensures
        words_of_document(t.push(x), d) == (if has_doc(t, d) {
            words_of_document(t, d)
        } else if x.document_id == d {
            fst_words(x.words)
        } else {
            Set::<Seq<u8>>::empty()
        }),
{
    let u = t.push(x);
    if exists|i: int| 0 <= i < t.len() && t[i].document_id == d {
        let i = choose|i: int| 0 <= i < t.len() && t[i].document_id == d;
        lemma_first_exists(t, d, i);
        let j = choose|j: int| is_first_doc(t, d, j);
        assert(is_first_doc(u, d, j));
        lemma_first_doc(t, d, j);
        lemma_first_doc(u, d, j);
    } else if x.document_id == d {
        assert(is_first_doc(u, d, t.len() as int));
        lemma_first_doc(u, d, t.len() as int);
    } else {
        assert(!exists|j: int| is_first_doc(u, d, j));
    }
}

/// The words of a document after the entries of the documents `del` are
/// removed.
proof fn lemma_words_after_filter(s: Seq<DocWords>, del: Set<DocumentId>, d: DocumentId)
    ensures
        words_of_document(s.filter(|e: DocWords| !del.contains(e.document_id)), d) == (if del.contains(d) {
            Set::<Seq<u8>>::empty()
        } else {
            words_of_document(s, d)
        }),
        !del.contains(d) ==> (has_doc(s, d) <==> has_doc(
            s.filter(|e: DocWords| !del.contains(e.document_id)),
            d,
        )),
    decreases s.len(),
{
    let p = |e: DocWords| !del.contains(e.document_id);
    let fs = s.filter(p);
    s.filter_lemma(p);
    if del.contains(d) {
        assert(!exists|j: int| is_first_doc(fs, d, j)) by {
            if exists|j: int| is_first_doc(fs, d, j) {
                let j = choose|j: int| is_first_doc(fs, d, j);
                assert(p(fs[j]));
            }
        }
    } else if s.len() > 0 {
        reveal(Seq::filter);
        let t = s.drop_last();
        let x = s.last();
        let ft = t.filter(p);
        lemma_words_after_filter(t, del, d);
        assert(s =~= t.push(x));
        lemma_words_push(t, x, d);
        if p(x) {
            assert(fs == ft.push(x));
            lemma_words_push(ft, x, d);
        } else {
            assert(fs == ft);
        }
        if has_doc(s, d) {
            let i = choose|i: int| 0 <= i < s.len() && s[i].document_id == d;
            if i < t.len() {
                assert(t[i].document_id == d);
                assert(has_doc(t, d));
                assert(has_doc(ft, d));
                let j = choose|j: int| 0 <= j < ft.len() && ft[j].document_id == d;
                assert(fs[j] == ft[j]);
            } else {
                assert(x.document_id == d);
                assert(fs[fs.len() - 1] == x);
            }
            assert(has_doc(fs, d));
        }
        if has_doc(fs, d) {
            let i = choose|i: int| 0 <= i < fs.len() && fs[i].document_id == d;
            assert(fs.contains(fs[i]));
            s.lemma_filter_contains_rev(p, fs[i]);
            let k = choose|k: int| 0 <= k < s.len() && s[k] == fs[i];
            assert(s[k].document_id == d);
        }
    } else {
        reveal(Seq::filter);
        assert(fs.len() == 0);
    }
}

/// Applying the same deletion twice leaves every store as applying it once.
pub proof fn lemma_deletion_idempotent(
    first: Index,
    once: Index,
    twice: Index,
    ids: Set<DocumentId>,
)
    requires
        first.schema.is_some(),
        applied(first, once, ids),
        applied(once, twice, ids),
    ensures
        twice.postings() == once.postings(),
        twice.dictionary() == once.dictionary(),
        twice.ranked_entries() == once.ranked_entries(),
        twice.documents_fields@ == once.documents_fields@,
        twice.documents_fields_counts@ == once.documents_fields_counts@,
        twice.docs_words@ == once.docs_words@,
        twice.number_of_documents == once.number_of_documents,
{
    let s0 = first.docs_words@;
    let f0 = first.documents_fields@;
    let s1 = once.docs_words@;
    let f1 = once.documents_fields@;
    let del0 = deleted_set(s0, f0, ids);
    let pw = |e: DocWords| !del0.contains(e.document_id);
    assert(s1 == s0.filter(pw));
    assert forall|d: DocumentId| #[trigger]
        words_of_document(s1, d) == (if del0.contains(d) {
            Set::<Seq<u8>>::empty()
        } else {
            words_of_document(s0, d)
        }) by {
        lemma_words_after_filter(s0, del0, d);
    }
    assert forall|d: DocumentId| #[trigger] indexed(s1, ids).contains(d) implies indexed(
        s0,
        ids,
    ).contains(d) by {
        assert(words_of_document(s1, d) == (if del0.contains(d) {
            Set::<Seq<u8>>::empty()
        } else {
            words_of_document(s0, d)
        }));
    }
    // fields and field counts
    let pf0 = |e: DocumentField| !indexed(s0, ids).contains(e.document_id);
    let pf1 = |e: DocumentField| !indexed(s1, ids).contains(e.document_id);
    f0.filter_lemma(pf0);
    assert forall|i: int| 0 <= i < f1.len() implies pf1(#[trigger] f1[i]) by {
        assert(pf0(f1[i]));
    }
    lemma_filter_all(f1, pf1);
    let c0 = first.documents_fields_counts@;
    let c1 = once.documents_fields_counts@;
    let pc0 = |e: DocumentFieldsCount| !indexed(s0, ids).contains(e.document_id);
    let pc1 = |e: DocumentFieldsCount| !indexed(s1, ids).contains(e.document_id);
    c0.filter_lemma(pc0);
    assert forall|i: int| 0 <= i < c1.len() implies pc1(#[trigger] c1[i]) by {
        assert(pc0(c1[i]));
    }
    lemma_filter_all(c1, pc1);
    // nothing is counted the second time
    let del1 = deleted_set(s1, f1, ids);
    assert(del1 =~= Set::<DocumentId>::empty()) by {
        assert forall|d: DocumentId| !del1.contains(d) by {
            if indexed(s1, ids).contains(d) && has_fields(f1, d) {
                let i = choose|i: int| 0 <= i < f1.len() && f1[i].document_id == d;
                assert(pf0(f1[i]));
            }
        }
    }
    let pw1 = |e: DocWords| !del1.contains(e.document_id);
    lemma_filter_all(s1, pw1);
    // ranked map
    let attrs = first.schema.unwrap().ranked_attrs().to_set();
    let pr = |e: RankedEntry| ranked_kept(ids, attrs, e);
    first.ranked_entries().filter_lemma(pr);
    lemma_filter_all(once.ranked_entries(), pr);
    // postings
    let first_lists = first.postings();
    let once_lists = once.postings();
    let k0 = |e: (Seq<u8>, Seq<DocIndex>)| keeps(s0, ids, e);
    let g0 = |e: (Seq<u8>, Seq<DocIndex>)| pruned_entry(s0, ids, e);
    let k1 = |e: (Seq<u8>, Seq<DocIndex>)| keeps(s1, ids, e);
    let g1 = |e: (Seq<u8>, Seq<DocIndex>)| pruned_entry(s1, ids, e);
    let fl0 = first_lists.filter(k0);
    assert(once_lists == fl0.map_values(g0));
    first_lists.filter_lemma(k0);
    assert forall|j: int| 0 <= j < once_lists.len() implies k1(#[trigger] once_lists[j]) && g1(once_lists[j]) == once_lists[j] by {
        let e0 = fl0[j];
        assert(k0(e0));
        let w = e0.0;
        assert(once_lists[j] == g0(e0));
        assert(touched(s1, ids, w).subset_of(touched(s0, ids, w))) by {
            assert forall|d: DocumentId| touched(s1, ids, w).contains(d) implies touched(
                s0,
                ids,
                w,
            ).contains(d) by {
                assert(words_of_document(s1, d) == (if del0.contains(d) {
                    Set::<Seq<u8>>::empty()
                } else {
                    words_of_document(s0, d)
                }));
            }
        }
        if touched(s1, ids, w) != Set::<DocumentId>::empty() {
            let t0 = touched(s0, ids, w);
            let t1 = touched(s1, ids, w);
            if t0 == Set::<DocumentId>::empty() {
                assert(t1 =~= Set::<DocumentId>::empty());
            }
            let q0 = |x: DocIndex| !t0.contains(x.document_id);
            let q1 = |x: DocIndex| !t1.contains(x.document_id);
            let l = e0.1.filter(q0);
            assert(once_lists[j].1 == l);
            e0.1.filter_lemma(q0);
            assert forall|i: int| 0 <= i < l.len() implies q1(#[trigger] l[i]) by {
                assert(q0(l[i]));
            }
            lemma_filter_all(l, q1);
        }
    }
    lemma_filter_all(once_lists, k1);
    assert(twice.postings() =~= once_lists) by {
        assert(twice.postings() == once_lists.filter(k1).map_values(g1));
    }
    let removed1 = removed_words(s1, ids, once_lists);
    assert(removed1 =~= Set::<Seq<u8>>::empty()) by {
        assert forall|w: Seq<u8>| !removed1.contains(w) by {
            if removed1.contains(w) {
                let i = choose|i: int| 0 <= i < once_lists.len() && once_lists[i].0 == w && !keeps(s1, ids, once_lists[i]);
                assert(k1(once_lists[i]));
            }
        }
    }
    assert(twice.dictionary() =~= once.dictionary());
    assert(del1.len() == 0);
}

} // verus!
