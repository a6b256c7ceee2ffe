use meilidb_core::deletion::{apply_documents_deletion, push_documents_deletion, DocumentsDeletion};
use meilidb_core::index::{
    DocWords, DocumentField, DocumentFieldsCount, Index, PostingsList, RankedEntry, RankedMap,
};
use meilidb_core::types::{DocIndex, Error, Number, Schema, SchemaAttribute, Update};
use meilidb_core::updates::{Updates, UpdatesResults};

fn occurrence(document_id: u64) -> DocIndex {
    DocIndex { document_id, attribute: 0, word_index: 0, char_index: 0, char_length: 3 }
}

fn word_set(words: &[&str]) -> fst::Set {
    let mut sorted: Vec<&str> = words.to_vec();
    sorted.sort();
    sorted.dedup();
    fst::Set::from_iter(sorted).unwrap()
}

fn schema() -> Schema {
    Schema {
        identifier: "id".to_string(),
        attributes: vec![
            SchemaAttribute { name: "id".to_string(), attr: 0, ranked: false },
            SchemaAttribute { name: "title".to_string(), attr: 1, ranked: false },
            SchemaAttribute { name: "rank".to_string(), attr: 2, ranked: true },
        ],
    }
}

/// An index where each listed document has the given words and one stored field.
fn index_of(docs: &[(u64, &[&str])]) -> Index {
    let mut all_words: Vec<&str> = Vec::new();
    for (_, ws) in docs {
        all_words.extend(ws.iter().copied());
    }
    all_words.sort();
    all_words.dedup();
    let postings_lists = all_words
        .iter()
        .map(|w| PostingsList {
            word: w.as_bytes().to_vec(),
            doc_indexes: docs
                .iter()
                .filter(|(_, ws)| ws.contains(w))
                .map(|(d, _)| occurrence(*d))
                .collect(),
        })
        .collect();
    Index {
        schema: Some(schema()),
        ranked_map: None,
        words: Some(word_set(&all_words)),
        postings_lists,
        docs_words: docs
            .iter()
            .map(|(d, ws)| DocWords { document_id: *d, words: word_set(ws) })
            .collect(),
        documents_fields: docs
            .iter()
            .map(|(d, _)| DocumentField { document_id: *d, attribute: 1, value: b"text".to_vec() })
            .collect(),
        documents_fields_counts: docs
            .iter()
            .map(|(d, _)| DocumentFieldsCount { document_id: *d, attribute: 1, count: 1 })
            .collect(),
        number_of_documents: docs.len() as u64,
    }
}

fn postings_of(index: &Index, word: &str) -> Option<Vec<u64>> {
    index
        .postings_lists
        .iter()
        .find(|p| p.word == word.as_bytes())
        .map(|p| p.doc_indexes.iter().map(|d| d.document_id).collect())
}

fn dictionary(index: &Index) -> Vec<Vec<u8>> {
    index.words.as_ref().unwrap().stream().into_bytes()
}

type Snapshot = (
    Vec<(Vec<u8>, Vec<u64>)>,
    Vec<Vec<u8>>,
    Vec<RankedEntry>,
    Vec<u64>,
    Vec<DocumentFieldsCount>,
    Vec<u64>,
    u64,
);

fn snapshot(index: &Index) -> Snapshot {
    (
        index
            .postings_lists
            .iter()
            .map(|p| (p.word.clone(), p.doc_indexes.iter().map(|d| d.document_id).collect()))
            .collect(),
        dictionary(index),
        index.ranked_map.as_ref().map(|m| m.entries.clone()).unwrap_or_default(),
        index.documents_fields.iter().map(|f| f.document_id).collect(),
        index.documents_fields_counts.clone(),
        index.docs_words.iter().map(|d| d.document_id).collect(),
        index.number_of_documents,
    )
}

#[test]
fn deleting_one_document_keeps_the_others_postings() {
    let mut index = index_of(&[(1, &["cat"]), (2, &["cat"]), (3, &["cat"])]);
    assert_eq!(apply_documents_deletion(&mut index, vec![2]), Ok(()));
    assert_eq!(postings_of(&index, "cat"), Some(vec![1, 3]));
    assert!(index.words.as_ref().unwrap().contains("cat"));
    assert_eq!(index.number_of_documents, 2);
    assert_eq!(index.docs_words.len(), 2);
    assert_eq!(index.documents_fields.len(), 2);
}

#[test]
fn deleting_the_last_document_of_a_word_drops_the_word() {
    let mut index = index_of(&[(5, &["dog"]), (6, &["cat"])]);
    assert_eq!(apply_documents_deletion(&mut index, vec![5]), Ok(()));
    assert_eq!(postings_of(&index, "dog"), None);
    assert!(!index.words.as_ref().unwrap().contains("dog"));
    assert!(index.words.as_ref().unwrap().contains("cat"));
    assert_eq!(dictionary(&index), vec![b"cat".to_vec()]);
    assert_eq!(index.number_of_documents, 1);
}

#[test]
fn deleting_an_unknown_document_changes_no_count() {
    let mut index = index_of(&[(1, &["cat"]), (2, &["dog"])]);
    let before = snapshot(&index);
    assert_eq!(apply_documents_deletion(&mut index, vec![9]), Ok(()));
    let after = snapshot(&index);
    assert_eq!(after.0, before.0);
    assert_eq!(after.1, before.1);
    assert_eq!(after.3, before.3);
    assert_eq!(after.5, before.5);
    assert_eq!(after.6, 2);
}

#[test]
fn deleting_a_document_drops_its_ranked_values_only() {
    let mut index = index_of(&[(7, &["cat"]), (8, &["cat"])]);
    let score = Number::FloatBits(0.9f64.to_bits());
    index.ranked_map = Some(RankedMap {
        entries: vec![
            RankedEntry { document_id: 7, attribute: 2, value: score },
            RankedEntry { document_id: 8, attribute: 2, value: score },
            RankedEntry { document_id: 7, attribute: 1, value: Number::Unsigned(4) },
        ],
    });
    assert_eq!(apply_documents_deletion(&mut index, vec![7]), Ok(()));
    assert_eq!(
        index.ranked_map.unwrap().entries,
        vec![
            RankedEntry { document_id: 8, attribute: 2, value: score },
            RankedEntry { document_id: 7, attribute: 1, value: Number::Unsigned(4) },
        ]
    );
}

#[test]
fn deletion_without_schema_fails_and_changes_nothing() {
    let mut index = index_of(&[(1, &["cat"])]);
    index.schema = None;
    let before = snapshot(&index);
    assert_eq!(apply_documents_deletion(&mut index, vec![1]), Err(Error::SchemaMissing));
    assert_eq!(snapshot(&index), before);
}

#[test]
fn deleting_twice_is_deleting_once() {
    let mut once = index_of(&[(1, &["cat", "dog"]), (2, &["cat"]), (3, &["dog", "eel"])]);
    assert_eq!(apply_documents_deletion(&mut once, vec![3, 1, 3]), Ok(()));
    let after_once = snapshot(&once);
    assert_eq!(apply_documents_deletion(&mut once, vec![3, 1, 3]), Ok(()));
    assert_eq!(snapshot(&once), after_once);
    assert_eq!(after_once.6, 1);
    assert_eq!(after_once.1, vec![b"cat".to_vec()]);
}

#[test]
fn count_drops_by_the_existing_documents_deleted() {
    let mut index = index_of(&[(1, &["a"]), (2, &["b"]), (3, &["c"]), (4, &["a", "c"])]);
    assert_eq!(apply_documents_deletion(&mut index, vec![4, 2, 2, 40]), Ok(()));
    assert_eq!(index.number_of_documents, 2);
    assert_eq!(postings_of(&index, "a"), Some(vec![1]));
    assert_eq!(postings_of(&index, "b"), None);
    assert_eq!(postings_of(&index, "c"), Some(vec![3]));
    assert_eq!(dictionary(&index), vec![b"a".to_vec(), b"c".to_vec()]);
    assert_eq!(index.documents_fields_counts.len(), 2);
}

#[test]
fn every_word_left_in_the_dictionary_has_postings() {
    let mut index = index_of(&[(1, &["a", "b"]), (2, &["b", "c"]), (3, &["c"])]);
    assert_eq!(apply_documents_deletion(&mut index, vec![2, 3]), Ok(()));
    let dict = dictionary(&index);
    let mut words: Vec<Vec<u8>> = index.postings_lists.iter().map(|p| p.word.clone()).collect();
    words.sort();
    assert_eq!(dict, words);
    assert!(index.postings_lists.iter().all(|p| !p.doc_indexes.is_empty()));
}

#[test]
fn a_missing_dictionary_becomes_empty() {
    let mut index = index_of(&[(1, &["a"]), (2, &["b"])]);
    index.words = None;
    assert_eq!(apply_documents_deletion(&mut index, vec![1]), Ok(()));
    assert!(dictionary(&index).is_empty());
}

#[test]
fn a_document_with_words_but_no_fields_is_not_counted() {
    let mut index = index_of(&[(1, &["a"]), (2, &["a"])]);
    index.documents_fields.retain(|f| f.document_id != 2);
    assert_eq!(apply_documents_deletion(&mut index, vec![2]), Ok(()));
    assert_eq!(index.number_of_documents, 2);
    assert_eq!(postings_of(&index, "a"), Some(vec![1]));
    assert_eq!(index.docs_words.len(), 2);
}

#[test]
fn the_count_stops_at_zero() {
    let mut index = index_of(&[(1, &["a"]), (2, &["b"])]);
    index.number_of_documents = 1;
    assert_eq!(apply_documents_deletion(&mut index, vec![1, 2]), Ok(()));
    assert_eq!(index.number_of_documents, 0);
}

#[test]
fn queue_pops_in_id_order() {
    let mut updates = Updates::new();
    for id in [3u64, 0, 4, 1, 2] {
        updates.put_update(id, Update::documents_deletion(vec![id * 10]));
    }
    for id in 0u64..5 {
        let (got, update) = updates.pop_front().unwrap();
        assert_eq!(got, id);
        match update {
            Update::DocumentsDeletion(ids) => assert_eq!(ids, vec![id * 10]),
        }
        assert_eq!(updates.updates.len(), (4 - id) as usize);
    }
    assert!(updates.pop_front().is_none());
}

#[test]
fn queue_overwrites_an_existing_id() {
    let mut updates = Updates::new();
    updates.put_update(1, Update::documents_deletion(vec![1]));
    updates.put_update(1, Update::documents_deletion(vec![2]));
    assert_eq!(updates.updates.len(), 1);
    match updates.get(1) {
        Some(Update::DocumentsDeletion(ids)) => assert_eq!(ids, vec![2]),
        None => panic!("update 1 is missing"),
    }
    assert!(updates.get(0).is_none());
    assert_eq!(updates.last_update_id().map(|(id, _)| id), Some(1));
    updates.clear();
    assert!(updates.last_update_id().is_none());
}

#[test]
fn update_ids_never_repeat() {
    let mut updates = Updates::new();
    let mut results = UpdatesResults::new();
    let mut seen: Vec<u64> = Vec::new();
    for round in 0..6 {
        let id = push_documents_deletion(&mut updates, &results, vec![round]);
        if let Some(last) = seen.last() {
            assert!(id > *last);
        }
        seen.push(id);
        if round % 2 == 1 {
            while let Some((done, _)) = updates.pop_front() {
                results.put_update_result(done);
            }
        }
    }
    assert_eq!(seen, vec![0, 1, 2, 3, 4, 5]);
}

#[test]
fn next_id_follows_the_applied_log() {
    let mut updates = Updates::new();
    let mut results = UpdatesResults::new();
    assert_eq!(meilidb_core::updates::next_update_id(&updates, &results), 0);
    results.put_update_result(7);
    assert_eq!(meilidb_core::updates::next_update_id(&updates, &results), 8);
    updates.put_update(9, Update::documents_deletion(vec![]));
    assert_eq!(meilidb_core::updates::next_update_id(&updates, &results), 10);
}

#[test]
fn builder_enqueues_its_documents() {
    let mut updates = Updates::new();
    let results = UpdatesResults::new();
    let mut deletion = DocumentsDeletion::new();
    deletion.delete_document_by_id(4);
    assert_eq!(deletion.delete_document(None), Err(Error::MissingDocumentId));
    assert_eq!(deletion.delete_document(Some(2)), Ok(()));
    deletion.extend(vec![4, 9]);
    assert_eq!(deletion.finalize(&mut updates, &results), 0);
    match updates.get(0) {
        Some(Update::DocumentsDeletion(ids)) => assert_eq!(ids, vec![4, 2, 4, 9]),
        None => panic!("update 0 is missing"),
    }
}

#[test]
fn ranked_attributes_follow_the_schema() {
    assert_eq!(schema().ranked_attributes(), vec![2]);
}

#[test]
fn removed_words_are_sorted_before_leaving_the_dictionary() {
    let mut index = index_of(&[(1, &["ant", "bee", "cow"]), (2, &["dog"])]);
    index.postings_lists.reverse();
    assert_eq!(apply_documents_deletion(&mut index, vec![1]), Ok(()));
    assert_eq!(dictionary(&index), vec![b"dog".to_vec()]);
    assert_eq!(index.postings_lists.len(), 1);
    assert_eq!(index.number_of_documents, 1);
}
