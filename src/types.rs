use vstd::prelude::*;

verus! {

/// Identifies a document for its whole life.
pub type DocumentId = u64;

/// Identifies an attribute of the schema.
pub type AttributeId = u16;

/// One occurrence of a word in a document.
#[derive(Clone, Copy, Debug, PartialEq, Eq, PartialOrd, Ord, Hash)]
pub struct DocIndex {
    pub document_id: DocumentId,
    pub attribute: u16,
    pub word_index: u16,
    pub char_index: u16,
    pub char_length: u16,
}

/// A ranking value; a float is held by its bit pattern.
#[derive(Clone, Copy, Debug, PartialEq, Eq, Hash)]
pub enum Number {
    Unsigned(u64),
    Signed(i64),
    FloatBits(u64),
    Null,
}

/// One attribute of a schema: its id and whether it is ranked.
#[derive(Clone, Debug)]
pub struct SchemaAttribute {
    pub name: String,
    pub attr: AttributeId,
    pub ranked: bool,
}

/// The attributes of an index, in order, and the name of the one that holds
/// the document identifier.
#[derive(Clone, Debug)]
pub struct Schema {
    pub identifier: String,
    pub attributes: Vec<SchemaAttribute>,
}

/// The ids of the ranked attributes of a list, in order.
pub open spec fn ranked_of(s: Seq<SchemaAttribute>) -> Seq<AttributeId>
    decreases s.len(),
{
    if s.len() == 0 {
        Seq::empty()
    } else if s.last().ranked {
        ranked_of(s.drop_last()).push(s.last().attr)
    } else {
        ranked_of(s.drop_last())
    }
}

impl Schema {
    pub open spec fn ranked_attrs(&self) -> Seq<AttributeId> {
        ranked_of(self.attributes@)
    }

    /// The ids of the attributes flagged as ranked, in schema order.
    pub fn ranked_attributes(&self) -> (r: Vec<AttributeId>)
        ensures
            r@ == self.ranked_attrs(),
    {
        let mut r: Vec<AttributeId> = Vec::new();
        let mut i: usize = 0;
        while i < self.attributes.len()
            invariant
                i <= self.attributes@.len(),
                r@ == ranked_of(self.attributes@.take(i as int)),
            decreases self.attributes@.len() - i,
        {
            assert(self.attributes@.take(i + 1).drop_last() == self.attributes@.take(i as int));
            if self.attributes[i].ranked {
                r.push(self.attributes[i].attr);
            }
            i += 1;
        }
        assert(self.attributes@.take(i as int) == self.attributes@);
        r
    }
}

/// An entry of the update log.
#[derive(Clone, Debug)]
pub enum Update {
    DocumentsDeletion(Vec<DocumentId>),
}

/// What an update holds, as plain values.
pub enum UpdateView {
    DocumentsDeletion(Seq<DocumentId>),
}

impl View for Update {
    type V = UpdateView;

    open spec fn view(&self) -> UpdateView {
        match self {
            Update::DocumentsDeletion(ids) => UpdateView::DocumentsDeletion(ids@),
        }
    }
}

impl Update {
    /// A copy of the update.
    pub fn clone_update(&self) -> (r: Update)
        ensures
            r@ == self@,
    {
        match self {
            Update::DocumentsDeletion(ids) => {
                let c = ids.clone();
                assert(c@ =~= ids@);
                Update::DocumentsDeletion(c)
            },
        }
    }

    /// A deletion of the given documents.
    pub fn documents_deletion(documents: Vec<DocumentId>) -> (r: Update)
        ensures
            r == Update::DocumentsDeletion(documents),
    {
        Update::DocumentsDeletion(documents)
    }
}

/// The failures of the library.
#[derive(Clone, Copy, Debug, PartialEq, Eq)]
pub enum Error {
    SchemaMissing,
    MissingDocumentId,
}

} // verus!
