use meilidb_core::index::DocumentFieldsCount;
use meilidb_core::stats::fields_frequency;

fn count(document_id: u64, attribute: u16) -> DocumentFieldsCount {
    DocumentFieldsCount { document_id, attribute, count: 1 }
}

#[test]
fn frequencies_count_documents_per_attribute() {
    let counts = vec![count(1, 0), count(1, 2), count(2, 0), count(3, 0), count(3, 1)];
    assert_eq!(fields_frequency(&counts), vec![(0, 3), (2, 1), (1, 1)]);
}

#[test]
fn frequencies_of_nothing_are_empty() {
    assert!(fields_frequency(&Vec::new()).is_empty());
}
