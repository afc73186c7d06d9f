//! Where block operations go: the local databases for the local server, the
//! server's API otherwise, and what a search on the local server needs.
use vstd::prelude::*;
use crate::search::SupportedSearchMethod;
use crate::states::{str_equal, LOCAL_SERVER_NAME};

verus! {

/// Whether operations on the server run against the local databases.
pub fn is_local_server(server_name: &str) -> (b: bool)
    ensures
        b == (server_name@ == LOCAL_SERVER_NAME@),
{
    str_equal(server_name, LOCAL_SERVER_NAME)
}

/// A remote server's answer: blocks, with a failed request counting as none.
pub fn remote_blocks<T, E>(answer: Result<Vec<T>, E>) -> (v: Vec<T>)
    ensures
        answer matches Ok(b) ==> v@ == b@,
        answer is Err ==> v@.len() == 0,
{
    match answer {
        Ok(blocks) => blocks,
        Err(_) => Vec::new(),
    }
}

/// What a search on the local databases is given.
pub enum LocalSearch<X> {
    Keyword(String),
    Semantic(Vec<X>),
}

/// What a local search lacks.
#[derive(Clone, Copy, Debug, PartialEq, Eq, Structural)]
pub enum MissingSearchInput {
    Query,
    Vector,
}

impl MissingSearchInput {
    pub fn message(self) -> (s: &'static str)
        ensures
            self is Query ==> s@ == "Query string required for keyword search"@,
            self is Vector ==> s@ == "Query vector required for semantic search"@,
    {
        match self {
            MissingSearchInput::Query => "Query string required for keyword search",
            MissingSearchInput::Vector => "Query vector required for semantic search",
        }
    }
}

/// The input of a local search: a keyword search needs the query text, a
/// semantic search the query vector.
pub fn local_search_input<X>(method: SupportedSearchMethod, query: Option<String>, vector: Option<Vec<X>>) -> (r: Result<
    LocalSearch<X>,
    MissingSearchInput,
>)
    ensures
        method == SupportedSearchMethod::Keyword ==> match query {
            Some(q) => r matches Ok(LocalSearch::Keyword(k)) && k == q,
            None => r == Err::<LocalSearch<X>, MissingSearchInput>(MissingSearchInput::Query),
        },
        method == SupportedSearchMethod::Semantic ==> match vector {
            Some(v) => r matches Ok(LocalSearch::Semantic(w)) && w@ == v@,
            None => r == Err::<LocalSearch<X>, MissingSearchInput>(MissingSearchInput::Vector),
        },
{
    match method {
        SupportedSearchMethod::Keyword => match query {
            Some(q) => Ok(LocalSearch::Keyword(q)),
            None => Err(MissingSearchInput::Query),
        },
        SupportedSearchMethod::Semantic => match vector {
            Some(v) => Ok(LocalSearch::Semantic(v)),
            None => Err(MissingSearchInput::Vector),
        },
    }
}

} // verus!
