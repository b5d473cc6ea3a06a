//! The data model: extracted units, cached embedding entries, and ranked
//! suggestions, together with their mathematical views.

use vstd::prelude::*;

verus! {

/// Model of an extracted unit: plain character sequences.
pub ghost struct InputRowModel {
    pub name: Seq<char>,
    pub mtime: Seq<char>,
    pub section: Seq<char>,
    pub body: Seq<char>,
}

/// A unit extracted from one document: the document's name, its
/// modification time at extraction, the governing section label, and the
/// cleaned accumulated body.
#[derive(Debug)]
pub struct InputRow {
    pub name: String,
    pub mtime: String,
    pub section: String,
    pub body: String,
}

impl View for InputRow {
    type V = InputRowModel;

    open spec fn view(&self) -> InputRowModel {
        InputRowModel {
            name: self.name@,
            mtime: self.mtime@,
            section: self.section@,
            body: self.body@,
        }
    }
}

impl Clone for InputRow {
    fn clone(&self) -> (res: Self)
        ensures
            res == *self,
    {
        InputRow {
            name: self.name.clone(),
            mtime: self.mtime.clone(),
            section: self.section.clone(),
            body: self.body.clone(),
        }
    }
}

/// Model of a cached entry: plain character sequences.
pub ghost struct EmbeddingRowModel {
    pub name: Seq<char>,
    pub mtime: Seq<char>,
    pub header: Seq<char>,
    pub embedding: Seq<char>,
}

/// A persisted cache entry: a unit's identity plus its embedding vector,
/// serialized as a comma-joined list of decimal scalars.
#[derive(Debug)]
pub struct EmbeddingRow {
    pub name: String,
    pub mtime: String,
    pub header: String,
    pub embedding: String,
}

impl View for EmbeddingRow {
    type V = EmbeddingRowModel;

    open spec fn view(&self) -> EmbeddingRowModel {
        EmbeddingRowModel {
            name: self.name@,
            mtime: self.mtime@,
            header: self.header@,
            embedding: self.embedding@,
        }
    }
}

impl Clone for EmbeddingRow {
    fn clone(&self) -> (res: Self)
        ensures
            res == *self,
    {
        EmbeddingRow {
            name: self.name.clone(),
            mtime: self.mtime.clone(),
            header: self.header.clone(),
            embedding: self.embedding.clone(),
        }
    }
}

/// Model of a ranked suggestion.
pub ghost struct SuggestionsModel {
    pub name: Seq<char>,
    pub header: Seq<char>,
}

/// One ranked query result: the document and section label of a cached
/// entry.
#[derive(Debug, Clone)]
pub struct Suggestions {
    pub name: String,
    pub header: String,
}

impl View for Suggestions {
    type V = SuggestionsModel;

    open spec fn view(&self) -> SuggestionsModel {
        SuggestionsModel {
            name: self.name@,
            header: self.header@,
        }
    }
}

/// The views of the rows of `v`, in order.
pub open spec fn input_rows_view(v: Seq<InputRow>) -> Seq<InputRowModel> {
    v.map_values(|r: InputRow| r@)
}

/// The views of the rows of `v`, in order.
pub open spec fn embedding_rows_view(v: Seq<EmbeddingRow>) -> Seq<EmbeddingRowModel> {
    v.map_values(|r: EmbeddingRow| r@)
}

} // verus!
