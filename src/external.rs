use vstd::prelude::*;

use crate::types::DocIndex;
use sdset::SetOperation;

verus! {

/// The words held by an `fst::Set`, the succinct sorted-string set used for
/// term dictionaries.
#[verifier::external_type_specification]
#[verifier::external_body]
pub struct ExFstSet(fst::Set);

/// What an `fst::Set` holds, as a set of byte strings.
pub uninterp spec fn fst_words(s: fst::Set) -> Set<Seq<u8>>;

/// Lexicographic order on byte strings, as `Vec<u8>`'s `Ord` and fst's key
/// order both define it.
pub open spec fn bytes_le(a: Seq<u8>, b: Seq<u8>) -> bool
    decreases a.len(),
{
    if a.len() == 0 {
        true
    } else if b.len() == 0 {
        false
    } else if a[0] != b[0] {
        a[0] < b[0]
    } else {
        bytes_le(a.drop_first(), b.drop_first())
    }
}

/// The views of a list of byte strings.
pub open spec fn words_view(s: Seq<Vec<u8>>) -> Seq<Seq<u8>> {
    s.map_values(|w: Vec<u8>| w@)
}

/// The list is sorted in lexicographic order.
pub open spec fn words_sorted(s: Seq<Seq<u8>>) -> bool {
    forall|i: int, j: int| 0 <= i < j < s.len() ==> bytes_le(#[trigger] s[i], #[trigger] s[j])
}

/// The ids are strictly increasing: sorted and without duplicates.
pub open spec fn ids_strictly_sorted(s: Seq<u64>) -> bool {
    forall|i: int, j: int| 0 <= i < j < s.len() ==> #[trigger] s[i] < #[trigger] s[j]
}

/// The entries are sorted by document id (several entries may share one).
pub open spec fn sorted_by_document(s: Seq<DocIndex>) -> bool {
    forall|i: int, j: int|
        0 <= i < j < s.len() ==> #[trigger] s[i].document_id <= #[trigger] s[j].document_id
}

/// Relies on `sdset::SetBuf::from_dirty` (sort, then dedup) on document ids.
#[verifier::external_body]
pub(crate) fn canonical_ids(ids: Vec<u64>) -> (r: Vec<u64>)
    ensures
        ids_strictly_sorted(r@),
        r@.to_set() == ids@.to_set(),
{
    sdset::SetBuf::from_dirty(ids).into_vec()
}

/// Relies on `sdset::SetBuf::from_dirty` (sort, then dedup) on words.
#[verifier::external_body]
pub(crate) fn canonical_words(words: Vec<Vec<u8>>) -> (r: Vec<Vec<u8>>)
    ensures
        words_sorted(words_view(r@)),
        words_view(r@).to_set() == words_view(words@).to_set(),
{
    sdset::SetBuf::from_dirty(words).into_vec()
}

/// Relies on `sdset::duo::DifferenceByKey`: the entries of `a` whose document
/// id is not in `b`, in their order.
#[verifier::external_body]
pub(crate) fn difference_by_document(a: &Vec<DocIndex>, b: &Vec<u64>) -> (r: Vec<DocIndex>)
    requires
        sorted_by_document(a@),
        ids_strictly_sorted(b@),
    ensures
        r@ == a@.filter(|d: DocIndex| !b@.contains(d.document_id)),
{
    let a = sdset::Set::new_unchecked(a.as_slice());
    let b = sdset::Set::new_unchecked(b.as_slice());
    let op = sdset::duo::DifferenceByKey::new(a, b, |d| d.document_id, |id| *id);
    op.into_set_buf().into_vec()
}

/// Relies on `fst::Set::from_iter`, which accepts words in lexicographic order.
#[verifier::external_body]
pub(crate) fn words_from_sorted(words: &Vec<Vec<u8>>) -> (r: fst::Set)
    requires
        words_sorted(words_view(words@)),
    ensures
        fst_words(r) == words_view(words@).to_set(),
{
    fst::Set::from_iter(words.iter()).unwrap()
}

/// Relies on `fst::set::OpBuilder::difference`, streamed into a new set.
#[verifier::external_body]
pub(crate) fn words_difference(a: &fst::Set, b: &fst::Set) -> (r: fst::Set)
    ensures
        fst_words(r) == fst_words(*a).difference(fst_words(*b)),
{
    let op = fst::set::OpBuilder::new().add(a.stream()).add(b.stream()).difference();
    let mut builder = fst::SetBuilder::memory();
    builder.extend_stream(op).unwrap();
    builder.into_inner().and_then(fst::Set::from_bytes).unwrap()
}

/// Relies on `fst::Set::default`: the empty set.
#[verifier::external_body]
pub(crate) fn empty_words() -> (r: fst::Set)
    ensures
        fst_words(r) == Set::<Seq<u8>>::empty(),
{
    fst::Set::default()
}

/// Relies on `fst::set::Stream::into_bytes`: every word of the set, once each.
#[verifier::external_body]
pub(crate) fn words_of(s: &fst::Set) -> (r: Vec<Vec<u8>>)
    ensures
        words_view(r@).to_set() == fst_words(*s),
{
    s.stream().into_bytes()
}

} // verus!
