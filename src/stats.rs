use vstd::prelude::*;

use crate::index::{lemma_filter_step, DocumentFieldsCount};
use crate::types::AttributeId;

verus! {

/// How many entries of `s` are for attribute `a`: the number of documents
/// that have it.
pub open spec fn frequency(s: Seq<DocumentFieldsCount>, a: AttributeId) -> nat {
    s.filter(|e: DocumentFieldsCount| e.attribute == a).len()
}

/// For each attribute that occurs in `counts`, the number of its entries;
/// each attribute once, in order of first occurrence.
pub fn fields_frequency(counts: &Vec<DocumentFieldsCount>) -> (r: Vec<(AttributeId, usize)>)
    ensures
        forall|i: int|
            0 <= i < r@.len() ==> #[trigger] r@[i].1 == frequency(counts@, r@[i].0) && r@[i].1
                > 0,
        forall|a: AttributeId|
            #![trigger frequency(counts@, a)]
            frequency(counts@, a) > 0 ==> exists|i: int| 0 <= i < r@.len() && r@[i].0 == a,
        forall|i: int, j: int| 0 <= i < j < r@.len() ==> #[trigger] r@[i].0 != #[trigger] r@[j].0,
{
    let mut r: Vec<(AttributeId, usize)> = Vec::new();
    let mut k: usize = 0;
    while k < counts.len()
        invariant
            k <= counts@.len(),
            forall|i: int|
                0 <= i < r@.len() ==> #[trigger] r@[i].1 == frequency(counts@.take(k as int), r@[i].0)
                    && r@[i].1 > 0,
            forall|a: AttributeId|
                #![trigger frequency(counts@.take(k as int), a)]
                frequency(counts@.take(k as int), a) > 0 ==> exists|i: int|
                    0 <= i < r@.len() && r@[i].0 == a,
            forall|i: int, j: int|
                0 <= i < j < r@.len() ==> #[trigger] r@[i].0 != #[trigger] r@[j].0,
        decreases counts@.len() - k,
    {
        let a = counts[k].attribute;
        let ghost before = r@;
        proof {
            assert forall|b: AttributeId|
                #[trigger] frequency(counts@.take(k + 1), b) == frequency(counts@.take(k as int), b)
                    + (if b == a {
                    1int
                } else {
                    0int
                }) by {
                lemma_filter_step(counts@, k as int, |e: DocumentFieldsCount| e.attribute == b);
            }
            counts@.take(k as int).lemma_filter_len(|e: DocumentFieldsCount| e.attribute == a);
        }
        let mut j: usize = 0;
        while j < r.len() && r[j].0 != a
            invariant
                j <= r@.len(),
                r@ == before,
                forall|i: int| 0 <= i < j ==> #[trigger] r@[i].0 != a,
            decreases r@.len() - j,
        {
            j += 1;
        }
        if j < r.len() {
            let c = r[j].1;
            r.set(j, (a, c + 1));
        } else {
            r.push((a, 1));
        }
        proof {
            assert forall|b: AttributeId|
                #![trigger frequency(counts@.take(k + 1), b)]
                frequency(counts@.take(k + 1), b) > 0 implies exists|i: int|
                    0 <= i < r@.len() && r@[i].0 == b by {
                if b != a {
                    assert(frequency(counts@.take(k as int), b) > 0);
                    let i = choose|i: int| 0 <= i < before.len() && before[i].0 == b;
                    assert(r@[i].0 == b);
                } else if j < before.len() {
                    assert(r@[j as int].0 == b);
                } else {
                    assert(r@[before.len() as int].0 == b);
                }
            }
            assert forall|i: int| 0 <= i < r@.len() implies #[trigger] r@[i].1 == frequency(
                counts@.take(k + 1),
                r@[i].0,
            ) && r@[i].1 > 0 by {
                if i < before.len() && i != j {
                    assert(r@[i] == before[i]);
                } else if i == before.len() {
                    assert(frequency(counts@.take(k as int), a) == 0) by {
                        if frequency(counts@.take(k as int), a) > 0 {
                            let q = choose|q: int| 0 <= q < before.len() && before[q].0 == a;
                        }
                    }
                }
            }
        }
        k += 1;
    }
    assert(counts@.take(k as int) == counts@);
    r
}

} // verus!
