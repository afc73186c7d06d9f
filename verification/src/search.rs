//! The search bar's results list: which blocks a query covers, how results from
//! the servers are merged, and the status line shown while a search runs.
use vstd::prelude::*;
use vstd::string::StringSliceAdditionalSpecFns;
use vstd::utf8::*;
use crate::highlight::{is_blank, terms_from};
use crate::ranking::{rank_results, top_ranked, SearchResult};
use crate::states::{
    child_in_some_server, held_by_some_server, holder_count, holds_any, local_default, occurrences, some_server_holds_any,
    SearchScope, ServerBlocks, States,
};
use crate::text::{decimal, fill_count, fill_placeholders};

verus! {

/// How the query is matched.
#[derive(Clone, Copy, Debug, PartialEq, Eq, Structural)]
pub enum SupportedSearchMethod {
    Keyword,
    Semantic,
}

/// What the results list shows while it has no results to show.
#[derive(Clone, Copy, Debug, PartialEq, Eq, Structural)]
pub enum SearchStatus {
    Idle,
    Searching,
    Empty,
    SemanticUnavailable,
    PartialFailure,
    Matches(usize),
}

/// The language-profile key of each status's label.
pub open spec fn spec_label_key(status: SearchStatus) -> Seq<char> {
    match status {
        SearchStatus::Idle => "search_bar_placeholder"@,
        SearchStatus::Searching => "search_bar_searching"@,
        SearchStatus::Empty => "search_bar_no_matches"@,
        SearchStatus::SemanticUnavailable => "search_bar_semantic_unavailable"@,
        SearchStatus::PartialFailure => "search_bar_partial_failure"@,
        SearchStatus::Matches(_) => "search_bar_match_count"@,
    }
}

impl SearchStatus {
    /// The key under which the language profile holds the status's label.
    pub fn label_key(self) -> (k: &'static str)
        ensures
            k@ == spec_label_key(self),
    {
        match self {
            SearchStatus::Idle => "search_bar_placeholder",
            SearchStatus::Searching => "search_bar_searching",
            SearchStatus::Empty => "search_bar_no_matches",
            SearchStatus::SemanticUnavailable => "search_bar_semantic_unavailable",
            SearchStatus::PartialFailure => "search_bar_partial_failure",
            SearchStatus::Matches(_) => "search_bar_match_count",
        }
    }

    /// The label, given the profile's entry for `label_key`: the match count is put
    /// in the entry's placeholders; other entries are shown as they are.
    pub fn label(self, entry: &str) -> (s: String)
        ensures
            self matches SearchStatus::Matches(n) ==> s@ == decode_utf8(
                fill_placeholders(entry.spec_bytes(), decimal(n as nat)),
            ),
            !(self is Matches) ==> s@ == entry@,
    {
        match self {
            SearchStatus::Matches(count) => fill_count(entry, count),
            _ => String::from_str(entry),
        }
    }
}

/// The language-profile key of the text an empty results list shows: a hint on
/// how the search method matches while idle, the status label otherwise.
pub open spec fn spec_empty_message_key(status: SearchStatus, method: SupportedSearchMethod) -> Seq<char> {
    if status is Idle {
        match method {
            SupportedSearchMethod::Keyword => "search_bar_keyword_hint"@,
            SupportedSearchMethod::Semantic => "search_bar_semantic_hint"@,
        }
    } else {
        spec_label_key(status)
    }
}

/// Law: each kind of status has a label of its own (the match count shares one
/// label, whatever the count), and an idle list shows a hint of its own for each
/// search method, distinct from every status label; any other empty list shows
/// its status's label.
pub proof fn law_each_status_has_its_own_label(a: SearchStatus, b: SearchStatus, method: SupportedSearchMethod)
    ensures
        !(a is Matches && b is Matches) && a != b ==> spec_label_key(a) != spec_label_key(b),
        a is Matches && b is Matches ==> spec_label_key(a) == spec_label_key(b),
        spec_empty_message_key(SearchStatus::Idle, SupportedSearchMethod::Keyword) != spec_empty_message_key(
            SearchStatus::Idle,
            SupportedSearchMethod::Semantic,
        ),
        spec_empty_message_key(SearchStatus::Idle, method) != spec_label_key(b),
        !(a is Idle) ==> spec_empty_message_key(a, method) == spec_label_key(a),
{
    reveal_strlit("search_bar_placeholder");
    assert("search_bar_placeholder"@.len() == 22);
    reveal_strlit("search_bar_searching");
    assert("search_bar_searching"@.len() == 20);
    reveal_strlit("search_bar_no_matches");
    assert("search_bar_no_matches"@.len() == 21);
    reveal_strlit("search_bar_semantic_unavailable");
    assert("search_bar_semantic_unavailable"@.len() == 31);
    reveal_strlit("search_bar_partial_failure");
    assert("search_bar_partial_failure"@.len() == 26);
    reveal_strlit("search_bar_match_count");
    assert("search_bar_match_count"@.len() == 22);
    reveal_strlit("search_bar_keyword_hint");
    assert("search_bar_keyword_hint"@.len() == 23);
    reveal_strlit("search_bar_semantic_hint");
    assert("search_bar_semantic_hint"@.len() == 24);
    assert("search_bar_placeholder"@[11] != "search_bar_match_count"@[11]);
}

/// The key of the text an empty results list shows.
pub fn empty_message_key(status: SearchStatus, method: SupportedSearchMethod) -> (k: &'static str)
    ensures
        k@ == spec_empty_message_key(status, method),
{
    match status {
        SearchStatus::Idle => match method {
            SupportedSearchMethod::Keyword => "search_bar_keyword_hint",
            SupportedSearchMethod::Semantic => "search_bar_semantic_hint",
        },
        _ => status.label_key(),
    }
}

/// The status once a server has answered: still searching while others have not,
/// then a partial failure if any failed, no matches, or the number of results.
pub open spec fn spec_status_after(all_answered: bool, failed: bool, count: usize) -> SearchStatus {
    if !all_answered {
        SearchStatus::Searching
    } else if failed {
        SearchStatus::PartialFailure
    } else if count == 0 {
        SearchStatus::Empty
    } else {
        SearchStatus::Matches(count)
    }
}

pub fn status_after(all_answered: bool, failed: bool, count: usize) -> (s: SearchStatus)
    ensures
        s == spec_status_after(all_answered, failed, count),
{
    if !all_answered {
        SearchStatus::Searching
    } else if failed {
        SearchStatus::PartialFailure
    } else if count == 0 {
        SearchStatus::Empty
    } else {
        SearchStatus::Matches(count)
    }
}

/// Law: once every server has answered, a failed search is always shown as a
/// partial failure, whatever the number of results; "no matches" is shown only
/// when no search failed and there is no result, a number of matches only when
/// no search failed and there are results, and "searching" exactly while some
/// server has not answered.
pub proof fn law_status_never_hides_a_failure(all_answered: bool, failed: bool, count: usize)
    ensures
        all_answered && failed ==> spec_status_after(all_answered, failed, count) == SearchStatus::PartialFailure,
        spec_status_after(all_answered, failed, count) == SearchStatus::Searching <==> !all_answered,
        spec_status_after(all_answered, failed, count) == SearchStatus::Empty <==> (all_answered && !failed && count == 0),
        spec_status_after(all_answered, failed, count) is Matches ==> all_answered && !failed && count > 0
            && spec_status_after(all_answered, failed, count) == SearchStatus::Matches(count),
        spec_status_after(all_answered, failed, count) != SearchStatus::Idle,
        spec_status_after(all_answered, failed, count) != SearchStatus::SemanticUnavailable,
{
}

/// The results list of the search bar.
pub struct SearchResultsList {
    pub results: Vec<SearchResult>,
    /// Increased with every query; answers to older queries are dropped.
    pub active_query_id: usize,
    pub selected_index: Option<usize>,
    pub search_method: SupportedSearchMethod,
    pub status: SearchStatus,
    pub query: String,
}

impl SearchResultsList {
    pub fn new(search_method: SupportedSearchMethod) -> (l: SearchResultsList)
        ensures
            l.results@.len() == 0,
            l.active_query_id == 0,
            l.selected_index is None,
            l.search_method == search_method,
            l.status == SearchStatus::Idle,
            l.query@ == Seq::<char>::empty(),
    {
        SearchResultsList {
            results: Vec::new(),
            active_query_id: 0,
            selected_index: None,
            search_method,
            status: SearchStatus::Idle,
            query: String::new(),
        }
    }

    /// Merge a server's results into the list, keeping the `top_n` best.
    pub fn extend_results(&mut self, results: Vec<SearchResult>, top_n: usize)
        ensures
            top_ranked(final(self).results@, old(self).results@ + results@, top_n as nat),
            final(self).active_query_id == old(self).active_query_id,
            final(self).selected_index == old(self).selected_index,
            final(self).search_method == old(self).search_method,
            final(self).status == old(self).status,
            final(self).query == old(self).query,
    {
        let mut old_results: Vec<SearchResult> = Vec::new();
        std::mem::swap(&mut old_results, &mut self.results);
        self.results = rank_results(old_results, results, top_n);
    }

    /// Start a new query: it becomes the active one and the list is emptied. A
    /// blank query leaves the list idle and returns `None`; otherwise the new
    /// query's id is returned and the list shows no matches until a search runs.
    pub fn begin_query(&mut self, query: &str) -> (id: Option<usize>)
        requires
            old(self).active_query_id < usize::MAX,
        ensures
            final(self).query@ == query@,
            final(self).active_query_id == old(self).active_query_id + 1,
            final(self).results@.len() == 0,
            final(self).selected_index is None,
            final(self).search_method == old(self).search_method,
            terms_from(query.spec_bytes(), 0).len() == 0 ==> id is None && final(self).status == SearchStatus::Idle,
            terms_from(query.spec_bytes(), 0).len() > 0 ==> id == Some(final(self).active_query_id)
                && final(self).status == SearchStatus::Empty,
    {
        self.query = String::from_str(query);
        self.active_query_id = self.active_query_id + 1;
        self.results = Vec::new();
        self.selected_index = None;
        self.status = SearchStatus::Empty;
        if is_blank(query) {
            self.status = SearchStatus::Idle;
            return None;
        }
        Some(self.active_query_id)
    }

    /// A server search is under way for the active query.
    pub fn mark_searching(&mut self)
        ensures
            final(self).status == SearchStatus::Searching,
            final(self).results == old(self).results,
            final(self).active_query_id == old(self).active_query_id,
            final(self).selected_index == old(self).selected_index,
            final(self).search_method == old(self).search_method,
            final(self).query == old(self).query,
    {
        self.status = SearchStatus::Searching;
    }

    /// Whether `query_id` is still the active query.
    pub fn is_current(&self, query_id: usize) -> (b: bool)
        ensures
            b == (self.active_query_id == query_id),
    {
        self.active_query_id == query_id
    }

    /// The query embedding could not be made: the list says so, if the query is
    /// still the active one.
    pub fn semantic_unavailable(&mut self, query_id: usize)
        ensures
            final(self).status == (if old(self).active_query_id == query_id { SearchStatus::SemanticUnavailable } else { old(self).status }),
            final(self).results == old(self).results,
            final(self).active_query_id == old(self).active_query_id,
            final(self).selected_index == old(self).selected_index,
            final(self).search_method == old(self).search_method,
            final(self).query == old(self).query,
    {
        if self.active_query_id == query_id {
            self.status = SearchStatus::SemanticUnavailable;
        }
    }

    /// A server answered query `query_id` (`None`: its search failed). Answers to an
    /// older query are dropped and `false` is returned. Otherwise the results are
    /// merged, `failed` records a failure, and the status is updated;
    /// `all_answered` tells whether this was the last server to answer.
    pub fn apply_answer(
        &mut self,
        query_id: usize,
        answer: Option<Vec<SearchResult>>,
        all_answered: bool,
        failed: &mut bool,
        top_n: usize,
    ) -> (current: bool)
        ensures
            current == (old(self).active_query_id == query_id),
            *final(failed) == (*old(failed) || answer is None),
            !current ==> *final(self) == *old(self),
            current ==> {
                &&& top_ranked(
                    final(self).results@,
                    old(self).results@ + (match answer {
                        Some(v) => v@,
                        None => Seq::<SearchResult>::empty(),
                    }),
                    top_n as nat,
                )
                &&& final(self).status == spec_status_after(all_answered, *final(failed), final(self).results@.len() as usize)
                &&& final(self).active_query_id == old(self).active_query_id
                &&& final(self).query == old(self).query
                &&& final(self).search_method == old(self).search_method
                &&& final(self).selected_index == old(self).selected_index
            },
    {
        let results = match answer {
            Some(v) => v,
            None => {
                *failed = true;
                Vec::new()
            },
        };
        if self.active_query_id != query_id {
            return false;
        }
        proof {
            assert(results@ == (match answer {
                Some(v) => v@,
                None => Seq::<SearchResult>::empty(),
            }));
        }
        self.extend_results(results, top_n);
        let count = self.results.len();
        self.status = status_after(all_answered, *failed, count);
        true
    }

    /// Select a result (or nothing).
    pub fn set_selected_index(&mut self, ix: Option<usize>)
        ensures
            final(self).selected_index == ix,
            final(self).results == old(self).results,
            final(self).status == old(self).status,
            final(self).active_query_id == old(self).active_query_id,
            final(self).search_method == old(self).search_method,
            final(self).query == old(self).query,
    {
        self.selected_index = ix;
    }

    /// The selected result, which confirming opens.
    pub fn selected_result(&self) -> (r: Option<&SearchResult>)
        ensures
            r matches Some(x) ==> self.selected_index matches Some(i) && i < self.results@.len() && *x == self.results@[i as int],
            r is None ==> self.selected_index is None || self.selected_index.unwrap() >= self.results@.len(),
    {
        match self.selected_index {
            Some(i) => {
                if i < self.results.len() {
                    Some(&self.results[i])
                } else {
                    None
                }
            },
            None => None,
        }
    }
}

/// What a search covers: the servers (by position) and the blocks.
pub struct SearchTargets {
    pub servers: Vec<usize>,
    pub block_ids: Vec<u128>,
}

/// The blocks a scope covers, given the block open in the active pane; `None`
/// when the scope needs an open block and there is none.
pub open spec fn scope_blocks(states: States, scope: SearchScope, selected: Option<u128>, id: u128) -> Option<bool> {
    match scope {
        SearchScope::Document => match selected {
            Some(b) => Some(id == b),
            None => None,
        },
        SearchScope::Collection => match selected {
            Some(b) => Some(child_in_some_server(states.servers@, id, b)),
            None => None,
        },
        SearchScope::Userspace => Some(held_by_some_server(states.servers@, id)),
    }
}

/// The server holds a block that the scope covers.
pub open spec fn holds_scope_block(states: States, selected: Option<u128>, server: ServerBlocks) -> bool {
    exists|id: u128|
        server.blocks@.contains_key(id) && #[trigger] scope_blocks(states, states.search_scope, selected, id)
            == Some(true)
}

/// Some server takes part in a search of the scope.
pub open spec fn some_server_in_scope(states: States, selected: Option<u128>) -> bool {
    exists|s: int| 0 <= s < states.servers@.len() && #[trigger] server_in_scope(states, selected, states.servers@[s])
}

/// The server takes part in a search of the scope: every server does in the
/// user space; otherwise those that hold a covered block.
pub open spec fn server_in_scope(states: States, selected: Option<u128>, server: ServerBlocks) -> bool {
    states.search_scope == SearchScope::Userspace || holds_scope_block(states, selected, server)
}

proof fn lemma_holds_any_iff(states: States, selected: Option<u128>, ids: Seq<u128>, server: ServerBlocks)
    requires
        forall|id: u128| ids.contains(id) <==> scope_blocks(states, states.search_scope, selected, id) == Some(true),
    ensures
        holds_any(server, ids) <==> holds_scope_block(states, selected, server),
{
    if holds_any(server, ids) {
        let k = choose|k: int| 0 <= k < ids.len() && server.blocks@.contains_key(#[trigger] ids[k]);
        assert(ids.contains(ids[k]));
        assert(scope_blocks(states, states.search_scope, selected, ids[k]) == Some(true));
    }
    if holds_scope_block(states, selected, server) {
        let id = choose|id: u128|
            server.blocks@.contains_key(id) && #[trigger] scope_blocks(states, states.search_scope, selected, id) == Some(true);
        assert(ids.contains(id));
        let k = choose|k: int| 0 <= k < ids.len() && ids[k] == id;
        assert(server.blocks@.contains_key(ids[k]));
    }
}

/// The servers and blocks that a search in the current scope covers. `None` when
/// there is nothing to search: the scope needs an open block and none is open, or
/// no block or no server is covered. Document: the open block and the servers
/// holding it. Collection: the open block's children and the servers holding
/// them. Userspace: every block and every server.
pub fn resolve_search_targets(states: &States, selected: Option<u128>) -> (r: Option<SearchTargets>)
    ensures
        (states.search_scope != SearchScope::Userspace && selected is None) ==> r is None,
        r matches Some(t) ==> {
            &&& t.block_ids@.len() > 0
            &&& t.servers@.len() > 0
            &&& forall|id: u128| t.block_ids@.contains(id) <==> scope_blocks(*states, states.search_scope, selected, id) == Some(true)
            &&& forall|k: int| 0 <= k < t.servers@.len() ==> t.servers@[k] < states.servers@.len()
            &&& forall|a: int, b: int| 0 <= a < b < t.servers@.len() ==> t.servers@[a] < t.servers@[b]
            &&& some_server_in_scope(*states, selected) ==> forall|s: int| 0 <= s < states.servers@.len() ==> (t.servers@.contains(s as usize)
                <==> server_in_scope(*states, selected, #[trigger] states.servers@[s]))
            &&& !some_server_in_scope(*states, selected) ==> t.servers@ == local_default(states.servers@)
            &&& states.search_scope == SearchScope::Document ==> t.block_ids@ == seq![selected.unwrap()]
            &&& states.search_scope == SearchScope::Collection ==> forall|id: u128| #[trigger] occurrences(t.block_ids@, id)
                == holder_count(states.servers@, states.servers@.len() as int, id, selected)
            &&& states.search_scope == SearchScope::Userspace ==> forall|id: u128| #[trigger] occurrences(t.block_ids@, id)
                == holder_count(states.servers@, states.servers@.len() as int, id, None)
        },
        (r is None && !(states.search_scope != SearchScope::Userspace && selected is None)) ==> {
            ||| forall|id: u128| scope_blocks(*states, states.search_scope, selected, id) != Some(true)
            ||| !some_server_in_scope(*states, selected) && local_default(states.servers@).len() == 0
        },
{
    let scope = states.get_search_scope();
    let (servers, block_ids) = match scope {
        SearchScope::Document => match selected {
            Some(b) => {
                let mut ids: Vec<u128> = Vec::new();
                ids.push(b);
                proof {
                    assert forall|id: u128| ids@.contains(id) <==> id == b by {
                        if id == b {
                            assert(ids@[0] == b);
                        }
                    }
                }
                let servers = states.get_servers_by_block_ids(&ids);
                (servers, ids)
            },
            None => return None,
        },
        SearchScope::Collection => match selected {
            Some(b) => {
                let ids = states.find_block_children_ids(b);
                let servers = states.get_servers_by_block_ids(&ids);
                (servers, ids)
            },
            None => return None,
        },
        SearchScope::Userspace => {
            let mut servers: Vec<usize> = Vec::new();
            let mut i: usize = 0;
            while i < states.servers.len()
                invariant
                    i <= states.servers@.len(),
                    servers@ == Seq::new(i as nat, |k: int| k as usize),
                decreases states.servers@.len() - i,
            {
                servers.push(i);
                i = i + 1;
                proof {
                    assert(servers@ =~= Seq::new(i as nat, |k: int| k as usize));
                }
            }
            proof {
                assert forall|s: int| 0 <= s < states.servers@.len() implies (servers@.contains(s as usize)
                    <==> server_in_scope(*states, selected, #[trigger] states.servers@[s])) by {
                    assert(servers@[s] == s as usize);
                }
            }
            (servers, states.get_all_blocks_ids())
        },
    };
    proof {
        assert forall|id: u128| block_ids@.contains(id) <==> scope_blocks(*states, states.search_scope, selected, id) == Some(true) by {}
        if scope != SearchScope::Userspace {
            assert forall|s: int| 0 <= s < states.servers@.len() implies (holds_any(states.servers@[s], block_ids@)
                <==> server_in_scope(*states, selected, #[trigger] states.servers@[s])) by {
                lemma_holds_any_iff(*states, selected, block_ids@, states.servers@[s]);
            }
            if some_server_in_scope(*states, selected) {
                let s = choose|s: int| 0 <= s < states.servers@.len() && #[trigger] server_in_scope(*states, selected, states.servers@[s]);
                assert(holds_any(states.servers@[s], block_ids@));
                assert(some_server_holds_any(states.servers@, block_ids@));
            } else if some_server_holds_any(states.servers@, block_ids@) {
                let s = choose|s: int| 0 <= s < states.servers@.len() && #[trigger] holds_any(states.servers@[s], block_ids@);
                assert(server_in_scope(*states, selected, states.servers@[s]));
            }
        } else if !some_server_in_scope(*states, selected) {
            assert(states.servers@.len() == 0) by {
                if states.servers@.len() > 0 {
                    assert(server_in_scope(*states, selected, states.servers@[0]));
                }
            }
            assert(servers@ =~= local_default(states.servers@));
        }
    }
    if block_ids.len() == 0 || servers.len() == 0 {
        proof {
            if block_ids@.len() == 0 {
                assert forall|id: u128| scope_blocks(*states, states.search_scope, selected, id) != Some(true) by {
                    assert(!block_ids@.contains(id));
                }
            } else if some_server_in_scope(*states, selected) {
                let s = choose|s: int| 0 <= s < states.servers@.len() && #[trigger] server_in_scope(*states, selected, states.servers@[s]);
                assert(servers@.contains(s as usize));
            }
        }
        return None;
    }
    Some(SearchTargets { servers, block_ids })
}

/// The block ids held by the server, in order.
pub open spec fn held_ids(server: ServerBlocks, ids: Seq<u128>) -> Seq<u128> {
    ids.filter(|id: u128| server.blocks@.contains_key(id))
}

/// The searches to run, in order of the servers: each server with the covered
/// blocks it holds; a server that holds none is skipped.
pub open spec fn search_plan(servers: Seq<ServerBlocks>, chosen: Seq<usize>, ids: Seq<u128>) -> Seq<(usize, Seq<u128>)>
    decreases chosen.len(),
{
    if chosen.len() == 0 {
        seq![]
    } else {
        let rest = search_plan(servers, chosen.drop_last(), ids);
        let s = chosen.last();
        let own = held_ids(servers[s as int], ids);
        if own.len() == 0 {
            rest
        } else {
            rest.push((s, own))
        }
    }
}

/// The per-server searches for the covered servers and blocks.
pub fn plan_server_searches(states: &States, servers: &Vec<usize>, block_ids: &Vec<u128>) -> (plan: Vec<(usize, Vec<u128>)>)
    requires
        forall|k: int| 0 <= k < servers@.len() ==> servers@[k] < states.servers@.len(),
    ensures
        plan@.map_values(|e: (usize, Vec<u128>)| (e.0, e.1@)) == search_plan(states.servers@, servers@, block_ids@),
{
    let mut plan: Vec<(usize, Vec<u128>)> = Vec::new();
    let mut k: usize = 0;
    proof {
        assert(servers@.take(0) =~= Seq::<usize>::empty());
        assert(plan@.map_values(|e: (usize, Vec<u128>)| (e.0, e.1@)) =~= Seq::<(usize, Seq<u128>)>::empty());
    }
    while k < servers.len()
        invariant
            k <= servers@.len(),
            forall|q: int| 0 <= q < servers@.len() ==> servers@[q] < states.servers@.len(),
            plan@.map_values(|e: (usize, Vec<u128>)| (e.0, e.1@)) == search_plan(states.servers@, servers@.take(k as int), block_ids@),
        decreases servers@.len() - k,
    {
        let s = servers[k];
        let own = crate::breadcrumb::server_block_ids(&states.servers[s].blocks, block_ids);
        let ghost before = plan@.map_values(|e: (usize, Vec<u128>)| (e.0, e.1@));
        proof {
            assert(servers@.take(k + 1).drop_last() =~= servers@.take(k as int));
            assert(servers@.take(k + 1).last() == s);
        }
        if own.len() > 0 {
            let ghost o = own@;
            plan.push((s, own));
            proof {
                assert(plan@.map_values(|e: (usize, Vec<u128>)| (e.0, e.1@)) =~= before.push((s, o)));
            }
        }
        k = k + 1;
    }
    proof {
        assert(servers@.take(k as int) =~= servers@);
    }
    plan
}

} // verus!
