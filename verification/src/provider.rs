//! The embedding request shape sent to a provider, and the dispatch over
//! the two supported provider response shapes.
//!
//! A provider answers either with one record per input, each wrapping its
//! vector, or with a bare list of vectors; both normalize to the same
//! ordered vector list. The transport and the response decoding live at
//! the boundary; this module holds the request data and the dispatch tag.

use vstd::prelude::*;

use crate::batcher::{bodies_of, strings_view};
use crate::rows::{input_rows_view, InputRow};
use crate::strutil::str_eq;

verus! {

/// The provider kinds whose response shapes are understood: one returning
/// per-item records wrapping each vector, one returning a bare vector
/// list.
#[derive(Debug, Clone, Copy, PartialEq, Eq, Structural)]
pub enum SupportedAPIs {
    Ollama,
    OpenAI,
}

impl SupportedAPIs {
    /// The provider kind a configuration string names, if any.
    pub fn from_name(s: &str) -> (r: Option<SupportedAPIs>)
        ensures
            s@ == "Ollama"@ ==> r == Some(SupportedAPIs::Ollama),
            s@ == "OpenAI"@ ==> r == Some(SupportedAPIs::OpenAI),
            s@ != "Ollama"@ && s@ != "OpenAI"@ ==> r is None,
    {
        proof {
            reveal_strlit("Ollama");
            reveal_strlit("OpenAI");
            assert("Ollama"@[1] != "OpenAI"@[1]);
        }
        if str_eq(s, "Ollama") {
            Some(SupportedAPIs::Ollama)
        } else if str_eq(s, "OpenAI") {
            Some(SupportedAPIs::OpenAI)
        } else {
            None
        }
    }
}

/// The texts one embedding call asks about, in order.
pub enum EmbeddingInput {
    StringArray(Vec<String>),
}

impl View for EmbeddingInput {
    type V = Seq<Seq<char>>;

    open spec fn view(&self) -> Seq<Seq<char>> {
        match self {
            EmbeddingInput::StringArray(v) => strings_view(v@),
        }
    }
}

impl EmbeddingInput {
    /// A single-item request, as a query embedding asks for.
    pub fn from_query(q: String) -> (r: Self)
        ensures
            r@ == seq![q@],
    {
        let mut v: Vec<String> = Vec::new();
        v.push(q);
        proof {
            assert(strings_view(v@) =~= seq![v@[0]@]);
        }
        EmbeddingInput::StringArray(v)
    }

    /// A request over given texts, kept in order.
    pub fn from_strings(v: Vec<String>) -> (r: Self)
        ensures
            r@ == strings_view(v@),
    {
        EmbeddingInput::StringArray(v)
    }

    /// A request over the bodies of a batch of units, kept in order.
    pub fn from_rows(rows: &Vec<InputRow>) -> (r: Self)
        ensures
            r@ == bodies_of(input_rows_view(rows@)),
    {
        let mut v: Vec<String> = Vec::new();
        let mut i: usize = 0;
        proof {
            assert(strings_view(v@) =~= bodies_of(input_rows_view(rows@)).subrange(0, 0));
        }
        while i < rows.len()
            invariant
                i <= rows@.len(),
                v@.len() == i,
                strings_view(v@) == bodies_of(input_rows_view(rows@)).subrange(0, i as int),
            decreases rows@.len() - i,
        {
            let ghost before = v@;
            v.push(rows[i].body.clone());
            proof {
                let goal = bodies_of(input_rows_view(rows@)).subrange(0, i + 1);
                assert(input_rows_view(rows@)[i as int] == rows@[i as int]@);
                assert(bodies_of(input_rows_view(rows@))[i as int] == rows@[i as int]@.body);
                assert forall|j: int| 0 <= j < i + 1 implies strings_view(v@)[j] == goal[j] by {
                    if j < i {
                        assert(v@[j] == before[j]);
                        assert(strings_view(before)[j] == before[j]@);
                    } else {
                        assert(v@[j]@ == rows@[i as int].body@);
                    }
                }
                assert(strings_view(v@) =~= goal);
            }
            i = i + 1;
        }
        proof {
            assert(bodies_of(input_rows_view(rows@)).subrange(0, rows@.len() as int) =~= bodies_of(
                input_rows_view(rows@),
            ));
        }
        EmbeddingInput::StringArray(v)
    }

    /// The number of texts in the request.
    pub fn len(&self) -> (n: usize)
        ensures
            n == self@.len(),
    {
        match self {
            EmbeddingInput::StringArray(v) => v.len(),
        }
    }
}

impl Default for EmbeddingInput {
    /// The default request: one empty text.
    fn default() -> (r: Self)
        ensures
            r@ == seq![Seq::<char>::empty()],
    {
        EmbeddingInput::from_query(String::new())
    }
}

/// One embedding request: the model to use and the texts to embed.
pub struct EmbeddingRequest {
    pub model: String,
    pub input: EmbeddingInput,
}

impl EmbeddingRequest {
    /// Builds the request a batch is sent as.
    pub fn new(model: String, input: EmbeddingInput) -> (r: Self)
        ensures
            r.model == model,
            r.input == input,
    {
        EmbeddingRequest { model, input }
    }
}

} // verus!
