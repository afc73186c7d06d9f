//! The application-wide view of the servers and their blocks, the active server
//! of each window and the search scope.
use std::collections::HashMap;
use vstd::prelude::*;
use vstd::std_specs::iter::IteratorSpec;
use vstd::string::StringSliceAdditionalSpecFns;

verus! {

broadcast use vstd::std_specs::hash::group_hash_axioms;

/// The name under which the local server is known.
pub const LOCAL_SERVER_NAME: &'static str = "Local";

/// Which blocks a search covers.
#[derive(Clone, Copy, Debug, PartialEq, Eq, Structural)]
pub enum SearchScope {
    /// The block open in the active pane.
    Document,
    /// The children of the block open in the active pane.
    Collection,
    /// Every block of every server.
    Userspace,
}

/// The position of a scope in the list offered to the user.
pub open spec fn scope_position(scope: SearchScope) -> usize {
    match scope {
        SearchScope::Document => 0,
        SearchScope::Collection => 1,
        SearchScope::Userspace => 2,
    }
}

/// The scopes in the order they are offered.
pub fn search_scopes() -> (v: Vec<SearchScope>)
    ensures
        v@ == seq![SearchScope::Document, SearchScope::Collection, SearchScope::Userspace],
{
    vec![SearchScope::Document, SearchScope::Collection, SearchScope::Userspace]
}

/// The language-profile key of a scope's label.
pub open spec fn spec_scope_label_key(scope: SearchScope) -> Seq<char> {
    match scope {
        SearchScope::Document => "search_bar_scope_document"@,
        SearchScope::Collection => "search_bar_scope_collection"@,
        SearchScope::Userspace => "search_bar_scope_userspace"@,
    }
}

/// The key under which the language profile holds a scope's label.
pub fn scope_label_key(scope: SearchScope) -> (k: &'static str)
    ensures
        k@ == spec_scope_label_key(scope),
{
    match scope {
        SearchScope::Document => "search_bar_scope_document",
        SearchScope::Collection => "search_bar_scope_collection",
        SearchScope::Userspace => "search_bar_scope_userspace",
    }
}

/// What the application keeps of a block: its title and its parent.
pub struct BlockNode {
    pub title: String,
    pub parent_id: Option<u128>,
}

/// Law: a scope's position is where the scope stands in the list offered to the
/// user, and the scopes have labels of their own.
pub proof fn law_scope_position_indexes_the_list(scope: SearchScope, other: SearchScope)
    ensures
        (scope_position(scope) as int) < 3,
        seq![SearchScope::Document, SearchScope::Collection, SearchScope::Userspace][scope_position(scope) as int] == scope,
        scope != other ==> spec_scope_label_key(scope) != spec_scope_label_key(other),
{
    reveal_strlit("search_bar_scope_document");
    assert("search_bar_scope_document"@.len() == 25);
    reveal_strlit("search_bar_scope_collection");
    assert("search_bar_scope_collection"@.len() == 27);
    reveal_strlit("search_bar_scope_userspace");
    assert("search_bar_scope_userspace"@.len() == 26);
    assert("search_bar_scope_collection"@[18] != "search_bar_scope_userspace"@[18]);
}

/// A remote server as configured: where it is reached, its password, and the key
/// shared with it.
pub struct RemoteServerConfiguration {
    pub connection_string: String,
    pub password: String,
    pub shared_key: [u8; 32],
}

/// A server, how it is reached, and the blocks it holds, by id.
pub struct ServerBlocks {
    pub name: String,
    pub connection_string: String,
    pub password: String,
    pub shared_key: [u8; 32],
    pub blocks: HashMap<u128, BlockNode>,
}

/// The configured servers other than one named like the local server, in order.
pub open spec fn remote_entries(servers: Seq<(String, RemoteServerConfiguration)>) -> Seq<
    (String, RemoteServerConfiguration),
>
    decreases servers.len(),
{
    if servers.len() == 0 {
        Seq::empty()
    } else {
        let rest = remote_entries(servers.drop_last());
        if servers.last().0@ == LOCAL_SERVER_NAME@ {
            rest
        } else {
            rest.push(servers.last())
        }
    }
}

/// The registry built from the configuration: each configured server, without
/// blocks, then the local server, reached by empty strings with an all-zero key.
pub open spec fn is_registry_of(r: Seq<ServerBlocks>, servers: Seq<(String, RemoteServerConfiguration)>) -> bool {
    let remote = remote_entries(servers);
    &&& r.len() == remote.len() + 1
    &&& forall|k: int|
        0 <= k < remote.len() ==> {
            &&& (#[trigger] r[k]).name@ == remote[k].0@
            &&& r[k].connection_string@ == remote[k].1.connection_string@
            &&& r[k].password@ == remote[k].1.password@
            &&& r[k].shared_key == remote[k].1.shared_key
            &&& r[k].blocks@ == Map::<u128, BlockNode>::empty()
        }
    &&& r.last().name@ == LOCAL_SERVER_NAME@
    &&& r.last().connection_string@ == ""@
    &&& r.last().password@ == ""@
    &&& r.last().shared_key@ == Seq::new(32, |i: int| 0u8)
    &&& r.last().blocks@ == Map::<u128, BlockNode>::empty()
}

proof fn lemma_remote_entries_not_local(servers: Seq<(String, RemoteServerConfiguration)>, k: int)
    requires
        0 <= k < remote_entries(servers).len(),
    ensures
        remote_entries(servers)[k].0@ != LOCAL_SERVER_NAME@,
    decreases servers.len(),
{
    if servers.len() > 0 {
        let rest = remote_entries(servers.drop_last());
        if k < rest.len() {
            lemma_remote_entries_not_local(servers.drop_last(), k);
        }
    }
}

/// The servers of the application: the configured ones, without blocks, and the
/// local server, which is always there and replaces a configured server of the
/// same name.
pub fn build_servers(servers: Vec<(String, RemoteServerConfiguration)>) -> (r: Vec<ServerBlocks>)
    ensures
        is_registry_of(r@, servers@),
        server_position(r@, LOCAL_SERVER_NAME@) == Some(r@.len() - 1),
{
    let ghost all = servers@;
    let mut r: Vec<ServerBlocks> = Vec::new();
    let mut rest = servers;
    let ghost mut done: int = 0;
    proof {
        assert(rest@ =~= all.subrange(0, all.len() as int));
        assert(all.take(0) =~= Seq::<(String, RemoteServerConfiguration)>::empty());
    }
    while rest.len() > 0
        invariant
            0 <= done <= all.len(),
            rest@ == all.subrange(done, all.len() as int),
            r@.len() == remote_entries(all.take(done)).len(),
            forall|k: int|
                0 <= k < r@.len() ==> {
                    &&& (#[trigger] r@[k]).name@ == remote_entries(all.take(done))[k].0@
                    &&& r@[k].connection_string@ == remote_entries(all.take(done))[k].1.connection_string@
                    &&& r@[k].password@ == remote_entries(all.take(done))[k].1.password@
                    &&& r@[k].shared_key == remote_entries(all.take(done))[k].1.shared_key
                    &&& r@[k].blocks@ == Map::<u128, BlockNode>::empty()
                },
        decreases rest@.len(),
    {
        let (name, config) = rest.remove(0);
        proof {
            assert(all.take(done + 1).drop_last() =~= all.take(done));
            assert(all.take(done + 1).last() == all[done]);
        }
        if !str_equal(name.as_str(), LOCAL_SERVER_NAME) {
            r.push(
                ServerBlocks {
                    name,
                    connection_string: config.connection_string,
                    password: config.password,
                    shared_key: config.shared_key,
                    blocks: HashMap::new(),
                },
            );
        }
        proof {
            done = done + 1;
            assert(rest@ =~= all.subrange(done, all.len() as int));
        }
    }
    proof {
        assert(all.take(done) =~= all);
    }
    let ghost before = r@;
    let zero_key: [u8; 32] = [0u8; 32];
    proof {
        broadcast use vstd::array::group_array_axioms;
        assert(zero_key@ =~= Seq::new(32, |i: int| 0u8));
    }
    r.push(
        ServerBlocks {
            name: String::from_str(LOCAL_SERVER_NAME),
            connection_string: String::new(),
            password: String::new(),
            shared_key: zero_key,
            blocks: HashMap::new(),
        },
    );
    proof {
        reveal_strlit("");
        assert forall|k: int| 0 <= k < before.len() implies #[trigger] r@[k] == before[k] by {}
        let last = r@.len() - 1;
        assert forall|j: int| 0 <= j < last implies #[trigger] r@[j].name@ != LOCAL_SERVER_NAME@ by {
            lemma_remote_entries_not_local(all, j);
        }
        lemma_server_position_at(r@, LOCAL_SERVER_NAME@, last);
        assert(r@.len() == remote_entries(servers@).len() + 1);
        assert(r@.last().connection_string@ == ""@);
    }
    r
}

/// Global state: the servers, the active server of each window (by window id)
/// and the search scope.
pub struct States {
    pub servers: Vec<ServerBlocks>,
    pub active_servers: HashMap<u64, String>,
    pub search_scope: SearchScope,
}

/// The map built from id-block pairs, a later pair replacing an earlier one
/// with the same id.
pub open spec fn map_of_pairs(pairs: Seq<(u128, BlockNode)>) -> Map<u128, BlockNode>
    decreases pairs.len(),
{
    if pairs.len() == 0 {
        Map::empty()
    } else {
        map_of_pairs(pairs.drop_last()).insert(pairs.last().0, pairs.last().1)
    }
}

/// Whether two strings are equal.
pub fn str_equal(a: &str, b: &str) -> (r: bool)
    ensures
        r == (a@ == b@),
{
    let x = a.as_bytes();
    let y = b.as_bytes();
    proof {
        vstd::utf8::encode_utf8_decode_utf8(a@);
        vstd::utf8::encode_utf8_decode_utf8(b@);
        assert(x@ == vstd::utf8::encode_utf8(a@));
        assert(y@ == vstd::utf8::encode_utf8(b@));
    }
    if x.len() != y.len() {
        proof {
            if a@ == b@ {
                assert(x@ == y@);
            }
        }
        return false;
    }
    let mut i: usize = 0;
    while i < x.len()
        invariant
            x@ == vstd::utf8::encode_utf8(a@),
            y@ == vstd::utf8::encode_utf8(b@),
            vstd::utf8::decode_utf8(x@) == a@,
            vstd::utf8::decode_utf8(y@) == b@,
            x@.len() == y@.len(),
            i <= x@.len(),
            forall|k: int| 0 <= k < i ==> x@[k] == y@[k],
        decreases x@.len() - i,
    {
        if x[i] != y[i] {
            proof {
                if a@ == b@ {
                    assert(x@ == y@);
                }
            }
            return false;
        }
        i = i + 1;
    }
    assert(x@ =~= y@);
    true
}

/// The ids, in order, of the iterated pairs whose parent is `parent` (all of them
/// when `parent` is `None`).
pub open spec fn pair_ids(s: Seq<(&u128, &BlockNode)>, parent: Option<u128>) -> Seq<u128>
    decreases s.len(),
{
    if s.len() == 0 {
        Seq::empty()
    } else {
        let rest = pair_ids(s.drop_last(), parent);
        if parent is None || s.last().1.parent_id == parent {
            rest.push(*s.last().0)
        } else {
            rest
        }
    }
}

/// Some iterated pair has key `id` (and parent `parent`, when given).
pub open spec fn pair_listed(s: Seq<(&u128, &BlockNode)>, id: u128, parent: Option<u128>) -> bool {
    exists|q: int| 0 <= q < s.len() && *(#[trigger] s[q]).0 == id && (parent is None || s[q].1.parent_id == parent)
}

proof fn lemma_pair_ids(s: Seq<(&u128, &BlockNode)>, id: u128, parent: Option<u128>)
    ensures
        pair_ids(s, parent).contains(id) <==> pair_listed(s, id, parent),
    decreases s.len(),
{
    if s.len() > 0 {
        let init = s.drop_last();
        lemma_pair_ids(init, id, parent);
        let rest = pair_ids(init, parent);
        if pair_listed(init, id, parent) {
            let q = choose|q: int| 0 <= q < init.len() && *(#[trigger] init[q]).0 == id && (parent is None || init[q].1.parent_id == parent);
            assert(s[q] == init[q]);
        }
        if pair_listed(s, id, parent) {
            let q = choose|q: int| 0 <= q < s.len() && *(#[trigger] s[q]).0 == id && (parent is None || s[q].1.parent_id == parent);
            if q < init.len() {
                assert(s[q] == init[q]);
                assert(pair_listed(init, id, parent));
            }
        }
        if parent is None || s.last().1.parent_id == parent {
            if rest.push(*s.last().0).contains(id) && !rest.contains(id) {
                let w = choose|w: int| 0 <= w < rest.push(*s.last().0).len() && rest.push(*s.last().0)[w] == id;
                assert(w == rest.len());
                assert(*s[s.len() - 1].0 == id);
            }
            if rest.contains(id) {
                let w = choose|w: int| 0 <= w < rest.len() && rest[w] == id;
                assert(rest.push(*s.last().0)[w] == id);
            }
            if *s.last().0 == id {
                assert(rest.push(*s.last().0)[rest.len() as int] == id);
            }
        }
    }
}

/// How many times `x` occurs in `s`.
pub open spec fn occurrences(s: Seq<u128>, x: u128) -> nat
    decreases s.len(),
{
    if s.len() == 0 {
        0
    } else {
        occurrences(s.drop_last(), x) + if s.last() == x {
            1nat
        } else {
            0nat
        }
    }
}

/// How many of the first `n` servers hold the id (with parent `parent`, when
/// given).
pub open spec fn holder_count(servers: Seq<ServerBlocks>, n: int, id: u128, parent: Option<u128>) -> nat
    decreases n,
{
    if n <= 0 {
        0
    } else {
        holder_count(servers, n - 1, id, parent) + if servers[n - 1].blocks@.contains_key(id) && (parent is None
            || servers[n - 1].blocks@[id].parent_id == parent) {
            1nat
        } else {
            0nat
        }
    }
}

proof fn lemma_occurrences_concat(a: Seq<u128>, b: Seq<u128>, x: u128)
    ensures
        occurrences(a + b, x) == occurrences(a, x) + occurrences(b, x),
    decreases b.len(),
{
    if b.len() > 0 {
        lemma_occurrences_concat(a, b.drop_last(), x);
        assert((a + b).drop_last() =~= a + b.drop_last());
    }
}

/// With distinct keys, an id is listed at most once.
proof fn lemma_pair_ids_once(s: Seq<(&u128, &BlockNode)>, id: u128, parent: Option<u128>)
    requires
        forall|a: int, b: int| 0 <= a < b < s.len() ==> *(#[trigger] s[a]).0 != *(#[trigger] s[b]).0,
    ensures
        occurrences(pair_ids(s, parent), id) == if pair_listed(s, id, parent) {
            1nat
        } else {
            0nat
        },
    decreases s.len(),
{
    if s.len() > 0 {
        let init = s.drop_last();
        let last = s.len() - 1;
        let k = *s[last].0;
        assert forall|a: int, b: int| 0 <= a < b < init.len() implies *(#[trigger] init[a]).0 != *(#[trigger] init[b]).0 by {
            assert(init[a] == s[a] && init[b] == s[b]);
        }
        lemma_pair_ids_once(init, id, parent);
        let rest = pair_ids(init, parent);
        let kept = parent is None || s[last].1.parent_id == parent;
        // A witness in `init` is one in `s`.
        if pair_listed(init, id, parent) {
            let q = choose|q: int| 0 <= q < init.len() && *(#[trigger] init[q]).0 == id && (parent is None || init[q].1.parent_id == parent);
            assert(s[q] == init[q]);
            assert(pair_listed(s, id, parent));
            assert(k != id) by {
                assert(*s[q].0 != *s[last].0);
            }
        }
        // A witness in `s` is the last pair or one in `init`.
        if pair_listed(s, id, parent) {
            let q = choose|q: int| 0 <= q < s.len() && *(#[trigger] s[q]).0 == id && (parent is None || s[q].1.parent_id == parent);
            if q < last {
                assert(s[q] == init[q]);
                assert(pair_listed(init, id, parent));
            } else {
                assert(kept && k == id);
            }
        }
        if kept {
            assert(pair_ids(s, parent) == rest.push(k));
            assert(rest.push(k).drop_last() =~= rest);
            if k == id {
                assert(pair_listed(s, id, parent)) by {
                    assert(*s[last].0 == id);
                }
            }
        } else {
            assert(pair_ids(s, parent) == rest);
        }
    }
}

/// One of the first `n` servers holds the id (with parent `parent`, when given).
pub open spec fn child_before(servers: Seq<ServerBlocks>, n: int, id: u128, parent: Option<u128>) -> bool {
    exists|t: int|
        0 <= t < n && #[trigger] servers[t].blocks@.contains_key(id) && (parent is None
            || servers[t].blocks@[id].parent_id == parent)
}

/// The position of the first server with the given name.
pub open spec fn server_position(servers: Seq<ServerBlocks>, name: Seq<char>) -> Option<int> {
    if exists|i: int| 0 <= i < servers.len() && #[trigger] servers[i].name@ == name {
        Some(choose|i: int| 0 <= i < servers.len() && #[trigger] servers[i].name@ == name && forall|j: int|
            0 <= j < i ==> servers[j].name@ != name)
    } else {
        None
    }
}

/// Some server holds a block with this id.
pub open spec fn held_by_some_server(servers: Seq<ServerBlocks>, id: u128) -> bool {
    exists|s: int| 0 <= s < servers.len() && #[trigger] servers[s].blocks@.contains_key(id)
}

/// Some server holds a block with this id whose parent is `parent`.
pub open spec fn child_in_some_server(servers: Seq<ServerBlocks>, id: u128, parent: u128) -> bool {
    exists|s: int|
        0 <= s < servers.len() && #[trigger] servers[s].blocks@.contains_key(id)
            && servers[s].blocks@[id].parent_id == Some(parent)
}

/// The server holds one of the ids.
pub open spec fn holds_any(server: ServerBlocks, ids: Seq<u128>) -> bool {
    exists|k: int| 0 <= k < ids.len() && server.blocks@.contains_key(#[trigger] ids[k])
}

/// Some server holds one of the ids.
pub open spec fn some_server_holds_any(servers: Seq<ServerBlocks>, ids: Seq<u128>) -> bool {
    exists|s: int| 0 <= s < servers.len() && #[trigger] holds_any(servers[s], ids)
}

/// The servers asked when no server holds the blocks: the local server alone, or
/// none when there is no local server.
pub open spec fn local_default(servers: Seq<ServerBlocks>) -> Seq<usize> {
    match server_position(servers, LOCAL_SERVER_NAME@) {
        Some(p) => seq![p as usize],
        None => seq![],
    }
}

/// The first server (in order) that holds the block.
pub open spec fn first_holder(servers: Seq<ServerBlocks>, id: u128, s: int) -> bool {
    &&& 0 <= s < servers.len()
    &&& servers[s].blocks@.contains_key(id)
    &&& forall|t: int| 0 <= t < s ==> !(#[trigger] servers[t].blocks@).contains_key(id)
}

/// The name of the window's active server: the one set for it, else the local
/// server.
pub open spec fn active_server_name(states: States, window_id: u64) -> Seq<char> {
    if states.active_servers@.contains_key(window_id) {
        states.active_servers@[window_id]@
    } else {
        LOCAL_SERVER_NAME@
    }
}

/// Some listed pair has the id.
pub open spec fn lists_block(r: Seq<(u128, BlockNode)>, id: u128) -> bool {
    exists|k: int| 0 <= k < r.len() && (#[trigger] r[k]).0 == id
}

/// The pairs list the map: each key once, with its block.
pub open spec fn lists_blocks(r: Seq<(u128, BlockNode)>, m: Map<u128, BlockNode>) -> bool {
    &&& r.len() == m.dom().len()
    &&& forall|k: int| 0 <= k < r.len() ==> m.contains_key((#[trigger] r[k]).0) && m[r[k].0] == r[k].1
    &&& forall|a: int, b: int| 0 <= a < b < r.len() ==> (#[trigger] r[a]).0 != (#[trigger] r[b]).0
    &&& forall|id: u128| m.contains_key(id) ==> #[trigger] lists_block(r, id)
}

impl States {
    /// No active servers yet; searches cover the open document.
    pub fn new(servers: Vec<ServerBlocks>) -> (s: States)
        ensures
            s.servers@ == servers@,
            s.active_servers@ == Map::<u64, String>::empty(),
            s.search_scope == SearchScope::Document,
    {
        States { servers, active_servers: HashMap::new(), search_scope: SearchScope::Document }
    }

    /// Replace the servers by those built from the configuration (see
    /// `build_servers`); their blocks are gone until they are loaded again.
    pub fn update_servers(&mut self, servers: Vec<(String, RemoteServerConfiguration)>)
        ensures
            is_registry_of(final(self).servers@, servers@),
            server_position(final(self).servers@, LOCAL_SERVER_NAME@) == Some(final(self).servers@.len() - 1),
            final(self).active_servers == old(self).active_servers,
            final(self).search_scope == old(self).search_scope,
    {
        self.servers = build_servers(servers);
    }

    /// Replace the blocks of the first server with this name (nothing happens when
    /// there is none).
    pub fn hard_update_blocks(&mut self, server_name: &str, blocks: Vec<(u128, BlockNode)>)
        ensures
            final(self).active_servers == old(self).active_servers,
            final(self).search_scope == old(self).search_scope,
            final(self).servers@.len() == old(self).servers@.len(),
            match server_position(old(self).servers@, server_name@) {
                Some(p) => {
                    &&& final(self).servers@[p].name == old(self).servers@[p].name
                    &&& final(self).servers@[p].connection_string == old(self).servers@[p].connection_string
                    &&& final(self).servers@[p].password == old(self).servers@[p].password
                    &&& final(self).servers@[p].shared_key == old(self).servers@[p].shared_key
                    &&& final(self).servers@[p].blocks@ == map_of_pairs(blocks@)
                    &&& forall|t: int| 0 <= t < old(self).servers@.len() && t != p ==> #[trigger] final(self).servers@[t] == old(self).servers@[t]
                },
                None => final(self).servers@ == old(self).servers@,
            },
    {
        let mut i: usize = 0;
        while i < self.servers.len()
            invariant
                *self == *old(self),
                i <= self.servers@.len(),
                forall|j: int| 0 <= j < i ==> #[trigger] self.servers@[j].name@ != server_name@,
            decreases self.servers@.len() - i,
        {
            if str_equal(self.servers[i].name.as_str(), server_name) {
                proof {
                    lemma_server_position_at(self.servers@, server_name@, i as int);
                }
                let map = map_from_pairs(blocks);
                let mut server = self.servers.remove(i);
                server.blocks = map;
                self.servers.insert(i, server);
                return;
            }
            i = i + 1;
        }
    }

    /// The first block with this id, looking through the servers in order.
    pub fn get_block(&self, block_id: &u128) -> (r: Option<&BlockNode>)
        ensures
            r matches Some(b) ==> exists|s: int| first_holder(self.servers@, *block_id, s) && *b == #[trigger] self.servers@[s].blocks@[*block_id],
            r is None ==> !held_by_some_server(self.servers@, *block_id),
    {
        let mut i: usize = 0;
        while i < self.servers.len()
            invariant
                i <= self.servers@.len(),
                forall|t: int| 0 <= t < i ==> !(#[trigger] self.servers@[t].blocks@).contains_key(*block_id),
            decreases self.servers@.len() - i,
        {
            match self.servers[i].blocks.get(block_id) {
                Some(b) => {
                    proof {
                        assert(first_holder(self.servers@, *block_id, i as int));
                    }
                    return Some(b);
                },
                None => {},
            }
            i = i + 1;
        }
        None
    }

    /// The ids of the blocks of all servers, server by server: each id as many
    /// times as there are servers holding it, in no stated order.
    pub fn get_all_blocks_ids(&self) -> (ids: Vec<u128>)
        ensures
            forall|id: u128| ids@.contains(id) <==> held_by_some_server(self.servers@, id),
            forall|id: u128| #[trigger] occurrences(ids@, id) == holder_count(self.servers@, self.servers@.len() as int, id, None),
    {
        let ids = self.collect_ids(None);
        proof {
            assert forall|id: u128| ids@.contains(id) <==> held_by_some_server(self.servers@, id) by {
                if child_before(self.servers@, self.servers@.len() as int, id, None) {
                    let t = choose|t: int| 0 <= t < self.servers@.len() && #[trigger] self.servers@[t].blocks@.contains_key(id)
                        && (None::<u128> is None || self.servers@[t].blocks@[id].parent_id == None::<u128>);
                }
                if held_by_some_server(self.servers@, id) {
                    let t = choose|t: int| 0 <= t < self.servers@.len() && #[trigger] self.servers@[t].blocks@.contains_key(id);
                    assert(child_before(self.servers@, self.servers@.len() as int, id, None));
                }
            }
        }
        ids
    }

    /// The ids of the blocks whose parent is `block_id`, server by server: each id
    /// as many times as there are servers holding it as such a child, in no stated
    /// order.
    pub fn find_block_children_ids(&self, block_id: u128) -> (ids: Vec<u128>)
        ensures
            forall|id: u128| ids@.contains(id) <==> child_in_some_server(self.servers@, id, block_id),
            forall|id: u128| #[trigger] occurrences(ids@, id) == holder_count(self.servers@, self.servers@.len() as int, id, Some(block_id)),
    {
        let ids = self.collect_ids(Some(block_id));
        proof {
            assert forall|id: u128| ids@.contains(id) <==> child_in_some_server(self.servers@, id, block_id) by {
                if child_before(self.servers@, self.servers@.len() as int, id, Some(block_id)) {
                    let t = choose|t: int| 0 <= t < self.servers@.len() && #[trigger] self.servers@[t].blocks@.contains_key(id)
                        && (Some(block_id) is None || self.servers@[t].blocks@[id].parent_id == Some(block_id));
                }
                if child_in_some_server(self.servers@, id, block_id) {
                    let t = choose|t: int| 0 <= t < self.servers@.len() && #[trigger] self.servers@[t].blocks@.contains_key(id)
                        && self.servers@[t].blocks@[id].parent_id == Some(block_id);
                    assert(child_before(self.servers@, self.servers@.len() as int, id, Some(block_id)));
                }
            }
        }
        ids
    }

    /// The ids of the blocks with the given parent (of all blocks when `parent` is
    /// `None`), server by server.
    fn collect_ids(&self, parent: Option<u128>) -> (ids: Vec<u128>)
        ensures
            forall|id: u128| ids@.contains(id) <==> #[trigger] child_before(self.servers@, self.servers@.len() as int, id, parent),
            forall|id: u128| #[trigger] occurrences(ids@, id) == holder_count(self.servers@, self.servers@.len() as int, id, parent),
    {
        let mut ids: Vec<u128> = Vec::new();
        let mut i: usize = 0;
        while i < self.servers.len()
            invariant
                i <= self.servers@.len(),
                forall|id: u128| ids@.contains(id) <==> #[trigger] child_before(self.servers@, i as int, id, parent),
                forall|id: u128| #[trigger] occurrences(ids@, id) == holder_count(self.servers@, i as int, id, parent),
            decreases self.servers@.len() - i,
        {
            let ghost before = ids@;
            let server = &self.servers[i];
            let ghost m = server.blocks@;
            let ghost s0 = vstd::std_specs::hash::spec_hash_map_iter(&server.blocks).remaining();
            for entry in it: server.blocks.iter()
                invariant
                    m == server.blocks@,
                    *server == self.servers@[i as int],
                    it.seq() == s0,
                    s0 == vstd::std_specs::hash::spec_hash_map_iter(&server.blocks).remaining(),
                    ids@ == before + pair_ids(s0.take(it.index() as int), parent),
            {
                proof {
                    assert(entry == s0[it.index() as int]);
                    assert(s0.take(it.index() + 1).drop_last() =~= s0.take(it.index() as int));
                }
                let keep = match parent {
                    None => true,
                    Some(p) => entry.1.parent_id == Some(p),
                };
                if keep {
                    ids.push(*entry.0);
                }
            }
            proof {
                vstd::std_specs::hash::axiom_spec_hash_map_iter(&server.blocks);
                assert(s0.take(s0.len() as int) =~= s0);
                assert forall|id: u128| ids@.contains(id) <==> #[trigger] child_before(self.servers@, i + 1, id, parent) by {
                    lemma_pair_ids(s0, id, parent);
                    let own = pair_ids(s0, parent);
                    if ids@.contains(id) {
                        let w = choose|w: int| 0 <= w < ids@.len() && ids@[w] == id;
                        if w < before.len() {
                            assert(before[w] == id);
                        } else {
                            assert(own[w - before.len()] == id);
                        }
                    }
                    if before.contains(id) {
                        let w = choose|w: int| 0 <= w < before.len() && before[w] == id;
                        assert(ids@[w] == id);
                    }
                    if own.contains(id) {
                        let w = choose|w: int| 0 <= w < own.len() && own[w] == id;
                        assert(ids@[before.len() + w] == id);
                    }
                    if pair_listed(s0, id, parent) {
                        let q = choose|q: int| 0 <= q < s0.len() && *(#[trigger] s0[q]).0 == id && (parent is None || s0[q].1.parent_id == parent);
                        assert(m.contains_key(*s0[q].0));
                        assert(m[*s0[q].0] == *s0[q].1);
                        assert(child_before(self.servers@, i + 1, id, parent));
                    }
                    if child_before(self.servers@, i + 1, id, parent) {
                        let t = choose|t: int| 0 <= t < i + 1 && #[trigger] self.servers@[t].blocks@.contains_key(id)
                            && (parent is None || self.servers@[t].blocks@[id].parent_id == parent);
                        if t < i {
                            assert(child_before(self.servers@, i as int, id, parent));
                        } else {
                            assert(s0.contains((&id, &m[id])));
                            let q = choose|q: int| 0 <= q < s0.len() && s0[q] == (&id, &m[id]);
                            assert(*s0[q].0 == id && s0[q].1 == &m[id]);
                            assert(pair_listed(s0, id, parent));
                        }
                    }
                    if child_before(self.servers@, i as int, id, parent) {
                        let t = choose|t: int| 0 <= t < i && #[trigger] self.servers@[t].blocks@.contains_key(id)
                            && (parent is None || self.servers@[t].blocks@[id].parent_id == parent);
                        assert(child_before(self.servers@, i + 1, id, parent));
                    }
                }
            }
            proof {
                assert(s0.no_duplicates());
                assert forall|a: int, b: int| 0 <= a < b < s0.len() implies *(#[trigger] s0[a]).0 != *(#[trigger] s0[b]).0 by {
                    if *s0[a].0 == *s0[b].0 {
                        assert(m.contains_key(*s0[a].0) && m[*s0[a].0] == *s0[a].1);
                        assert(m.contains_key(*s0[b].0) && m[*s0[b].0] == *s0[b].1);
                        assert(s0[a] == s0[b]);
                    }
                }
                assert forall|id: u128| #[trigger] occurrences(ids@, id) == holder_count(self.servers@, i + 1, id, parent) by {
                    lemma_pair_ids_once(s0, id, parent);
                    lemma_occurrences_concat(before, pair_ids(s0, parent), id);
                    if pair_listed(s0, id, parent) {
                        let q = choose|q: int| 0 <= q < s0.len() && *(#[trigger] s0[q]).0 == id && (parent is None || s0[q].1.parent_id == parent);
                        assert(m.contains_key(*s0[q].0));
                        assert(m[*s0[q].0] == *s0[q].1);
                    } else if m.contains_key(id) && (parent is None || m[id].parent_id == parent) {
                        assert(s0.contains((&id, &m[id])));
                        let q = choose|q: int| 0 <= q < s0.len() && s0[q] == (&id, &m[id]);
                        assert(*s0[q].0 == id && s0[q].1 == &m[id]);
                        assert(pair_listed(s0, id, parent));
                    }
                }
            }
            i = i + 1;
        }
        ids
    }

    /// The positions, in order, of the servers that hold at least one of the blocks;
    /// when none does, the local server alone (nothing when there is no local
    /// server).
    pub fn get_servers_by_block_ids(&self, block_ids: &Vec<u128>) -> (r: Vec<usize>)
        ensures
            forall|a: int, b: int| 0 <= a < b < r@.len() ==> r@[a] < r@[b],
            forall|k: int| 0 <= k < r@.len() ==> r@[k] < self.servers@.len(),
            some_server_holds_any(self.servers@, block_ids@) ==> forall|s: int| 0 <= s < self.servers@.len() ==> (r@.contains(s as usize)
                <==> holds_any(#[trigger] self.servers@[s], block_ids@)),
            !some_server_holds_any(self.servers@, block_ids@) ==> r@ == local_default(self.servers@),
    {
        let mut r: Vec<usize> = Vec::new();
        let mut i: usize = 0;
        while i < self.servers.len()
            invariant
                i <= self.servers@.len(),
                forall|a: int, b: int| 0 <= a < b < r@.len() ==> r@[a] < r@[b],
                forall|k: int| 0 <= k < r@.len() ==> r@[k] < i,
                forall|s: int| 0 <= s < i ==> (r@.contains(s as usize) <==> holds_any(#[trigger] self.servers@[s], block_ids@)),
            decreases self.servers@.len() - i,
        {
            let mut found = false;
            let mut k: usize = 0;
            while k < block_ids.len() && !found
                invariant
                    i < self.servers@.len(),
                    k <= block_ids@.len(),
                    found ==> holds_any(self.servers@[i as int], block_ids@),
                    !found ==> forall|q: int| 0 <= q < k ==> !self.servers@[i as int].blocks@.contains_key(#[trigger] block_ids@[q]),
                decreases block_ids@.len() - k + if found { 0int } else { 1int },
            {
                if self.servers[i].blocks.contains_key(&block_ids[k]) {
                    found = true;
                } else {
                    k = k + 1;
                }
            }
            let ghost prev = r@;
            if found {
                r.push(i);
            }
            proof {
                assert forall|s: int| 0 <= s < i + 1 implies (r@.contains(s as usize) <==> holds_any(#[trigger] self.servers@[s], block_ids@)) by {
                    if s < i {
                        if r@.contains(s as usize) {
                            let w = choose|w: int| 0 <= w < r@.len() && r@[w] == s as usize;
                            if w < prev.len() {
                                assert(prev[w] == s as usize);
                            }
                        }
                        if prev.contains(s as usize) {
                            let w = choose|w: int| 0 <= w < prev.len() && prev[w] == s as usize;
                            assert(r@[w] == s as usize);
                        }
                    } else {
                        if found {
                            assert(r@[prev.len() as int] == i);
                        } else if r@.contains(s as usize) {
                            let w = choose|w: int| 0 <= w < r@.len() && r@[w] == s as usize;
                            assert(prev[w] < i);
                        }
                    }
                }
            }
            i = i + 1;
        }
        if r.len() == 0 {
            proof {
                if some_server_holds_any(self.servers@, block_ids@) {
                    let s = choose|s: int| 0 <= s < self.servers@.len() && #[trigger] holds_any(self.servers@[s], block_ids@);
                    assert(r@.contains(s as usize));
                }
            }
            return self.local_server_positions();
        }
        proof {
            assert(r@[0] < self.servers@.len());
            assert(holds_any(self.servers@[r@[0] as int], block_ids@));
        }
        r
    }

    /// The local server's position alone, or nothing when there is no local server.
    fn local_server_positions(&self) -> (r: Vec<usize>)
        ensures
            r@ == local_default(self.servers@),
            forall|k: int| 0 <= k < r@.len() ==> r@[k] < self.servers@.len(),
    {
        let mut i: usize = 0;
        while i < self.servers.len()
            invariant
                i <= self.servers@.len(),
                forall|j: int| 0 <= j < i ==> #[trigger] self.servers@[j].name@ != LOCAL_SERVER_NAME@,
            decreases self.servers@.len() - i,
        {
            if str_equal(self.servers[i].name.as_str(), LOCAL_SERVER_NAME) {
                proof {
                    lemma_server_position_at(self.servers@, LOCAL_SERVER_NAME@, i as int);
                }
                let mut r: Vec<usize> = Vec::new();
                r.push(i);
                return r;
            }
            i = i + 1;
        }
        proof {
            if server_position(self.servers@, LOCAL_SERVER_NAME@) is Some {
                let w = choose|w: int| 0 <= w < self.servers@.len() && #[trigger] self.servers@[w].name@ == LOCAL_SERVER_NAME@;
                assert(self.servers@[w].name@ != LOCAL_SERVER_NAME@);
            }
        }
        Vec::new()
    }

    /// The name of the first server holding the block; the local server when none
    /// does.
    pub fn server_name_of_block(&self, block_id: u128) -> (name: String)
        ensures
            forall|s: int| first_holder(self.servers@, block_id, s) ==> name@ == self.servers@[s].name@,
            !held_by_some_server(self.servers@, block_id) ==> name@ == LOCAL_SERVER_NAME@,
    {
        let mut i: usize = 0;
        while i < self.servers.len()
            invariant
                i <= self.servers@.len(),
                forall|t: int| 0 <= t < i ==> !(#[trigger] self.servers@[t].blocks@).contains_key(block_id),
            decreases self.servers@.len() - i,
        {
            if self.servers[i].blocks.contains_key(&block_id) {
                proof {
                    assert forall|s: int| first_holder(self.servers@, block_id, s) implies s == i by {
                        if s < i {
                        } else if s > i {
                            assert(!self.servers@[i as int].blocks@.contains_key(block_id));
                        }
                    }
                }
                return self.servers[i].name.clone();
            }
            i = i + 1;
        }
        String::from_str(LOCAL_SERVER_NAME)
    }

    /// The blocks, with their ids, of the first server with this name; none when
    /// no server has the name.
    pub fn get_all_blocks_by_server(&self, server_name: &str) -> (r: Vec<(u128, BlockNode)>)
        ensures
            match server_position(self.servers@, server_name@) {
                Some(p) => lists_blocks(r@, self.servers@[p].blocks@),
                None => r@.len() == 0,
            },
    {
        let mut i: usize = 0;
        while i < self.servers.len()
            invariant
                i <= self.servers@.len(),
                forall|j: int| 0 <= j < i ==> #[trigger] self.servers@[j].name@ != server_name@,
            decreases self.servers@.len() - i,
        {
            if str_equal(self.servers[i].name.as_str(), server_name) {
                proof {
                    lemma_server_position_at(self.servers@, server_name@, i as int);
                }
                return list_blocks(&self.servers[i].blocks);
            }
            i = i + 1;
        }
        Vec::new()
    }

    /// The window's active server, by name and by its position among the servers.
    pub fn get_active_server(&self, window_id: u64) -> (r: (String, usize))
        requires
            server_position(self.servers@, active_server_name(*self, window_id)) is Some,
        ensures
            r.0@ == active_server_name(*self, window_id),
            server_position(self.servers@, r.0@) == Some(r.1 as int),
    {
        let name = self.get_active_server_name(window_id);
        let mut i: usize = 0;
        while i < self.servers.len()
            invariant
                i <= self.servers@.len(),
                name@ == active_server_name(*self, window_id),
                server_position(self.servers@, name@) is Some,
                forall|j: int| 0 <= j < i ==> #[trigger] self.servers@[j].name@ != name@,
            decreases self.servers@.len() - i,
        {
            if str_equal(self.servers[i].name.as_str(), name.as_str()) {
                proof {
                    lemma_server_position_at(self.servers@, name@, i as int);
                }
                return (name, i);
            }
            i = i + 1;
        }
        proof {
            let w = choose|w: int| 0 <= w < self.servers@.len() && #[trigger] self.servers@[w].name@ == name@;
            assert(self.servers@[w].name@ != name@);
        }
        (name, 0)
    }

    /// The window's active server; the local server when it has none.
    pub fn get_active_server_name(&self, window_id: u64) -> (name: String)
        ensures
            self.active_servers@.contains_key(window_id) ==> name@ == self.active_servers@[window_id]@,
            !self.active_servers@.contains_key(window_id) ==> name@ == LOCAL_SERVER_NAME@,
    {
        match self.active_servers.get(&window_id) {
            Some(n) => n.clone(),
            None => String::from_str(LOCAL_SERVER_NAME),
        }
    }

    /// Make a server the window's active one.
    pub fn set_active_server(&mut self, window_id: u64, server_name: String)
        ensures
            final(self).active_servers@ == old(self).active_servers@.insert(window_id, server_name),
            final(self).servers == old(self).servers,
            final(self).search_scope == old(self).search_scope,
    {
        self.active_servers.insert(window_id, server_name);
    }

    pub fn set_search_scope(&mut self, search_scope: SearchScope)
        ensures
            final(self).search_scope == search_scope,
            final(self).servers == old(self).servers,
            final(self).active_servers == old(self).active_servers,
    {
        self.search_scope = search_scope;
    }

    pub fn get_search_scope(&self) -> (s: SearchScope)
        ensures
            s == self.search_scope,
    {
        self.search_scope
    }

    /// The position of the current scope in the list of scopes.
    pub fn get_search_scope_index(&self) -> (i: usize)
        ensures
            i == scope_position(self.search_scope),
    {
        let scopes = search_scopes();
        let mut selected_index: usize = 0;
        let mut i: usize = 0;
        while i < scopes.len()
            invariant
                scopes@ == seq![SearchScope::Document, SearchScope::Collection, SearchScope::Userspace],
                i <= 3,
                scope_position(self.search_scope) < i ==> selected_index == scope_position(self.search_scope),
                scope_position(self.search_scope) >= i ==> selected_index == 0,
            decreases 3 - i,
        {
            if scopes[i] == self.search_scope {
                selected_index = i;
            }
            i = i + 1;
        }
        selected_index
    }
}

/// The first server with the name is the one at `i` when no earlier one has it.
proof fn lemma_server_position_at(servers: Seq<ServerBlocks>, name: Seq<char>, i: int)
    requires
        0 <= i < servers.len(),
        servers[i].name@ == name,
        forall|j: int| 0 <= j < i ==> #[trigger] servers[j].name@ != name,
    ensures
        server_position(servers, name) == Some(i),
{
    let c = choose|c: int| 0 <= c < servers.len() && #[trigger] servers[c].name@ == name && forall|j: int|
        0 <= j < c ==> servers[j].name@ != name;
    assert(servers[i].name@ == name);
    if c < i {
        assert(servers[c].name@ != name);
    }
    if c > i {
        assert(servers[i].name@ != name);
    }
}

/// The map's entries, each with a copy of its block.
fn list_blocks(blocks: &HashMap<u128, BlockNode>) -> (r: Vec<(u128, BlockNode)>)
    ensures
        lists_blocks(r@, blocks@),
{
    let ghost m = blocks@;
    let ghost s0 = vstd::std_specs::hash::spec_hash_map_iter(blocks).remaining();
    let mut r: Vec<(u128, BlockNode)> = Vec::new();
    for entry in it: blocks.iter()
        invariant
            m == blocks@,
            it.seq() == s0,
            s0 == vstd::std_specs::hash::spec_hash_map_iter(blocks).remaining(),
            r@.len() == it.index(),
            forall|k: int| 0 <= k < r@.len() ==> #[trigger] r@[k] == (*s0[k].0, *s0[k].1),
    {
        proof {
            assert(entry == s0[it.index() as int]);
        }
        let node = BlockNode { title: entry.1.title.clone(), parent_id: entry.1.parent_id };
        r.push((*entry.0, node));
    }
    proof {
        vstd::std_specs::hash::axiom_spec_hash_map_iter(blocks);
        assert(s0.no_duplicates());
        assert forall|k: int| 0 <= k < r@.len() implies m.contains_key((#[trigger] r@[k]).0) && m[r@[k].0] == r@[k].1 by {
            assert(m.contains_key(*s0[k].0));
        }
        assert forall|a: int, b: int| 0 <= a < b < r@.len() implies (#[trigger] r@[a]).0 != (#[trigger] r@[b]).0 by {
            if r@[a].0 == r@[b].0 {
                assert(m.contains_key(*s0[a].0) && m[*s0[a].0] == *s0[a].1);
                assert(m.contains_key(*s0[b].0) && m[*s0[b].0] == *s0[b].1);
                assert(s0[a] == s0[b]);
            }
        }
        assert forall|id: u128| m.contains_key(id) implies #[trigger] lists_block(r@, id) by {
            assert(s0.contains((&id, &m[id])));
            let q = choose|q: int| 0 <= q < s0.len() && s0[q] == (&id, &m[id]);
            assert(r@[q].0 == id);
        }
    }
    r
}

/// The map of the pairs, later pairs replacing earlier ones.
fn map_from_pairs(pairs: Vec<(u128, BlockNode)>) -> (m: HashMap<u128, BlockNode>)
    ensures
        m@ == map_of_pairs(pairs@),
{
    let ghost all = pairs@;
    let mut m: HashMap<u128, BlockNode> = HashMap::new();
    let mut rest = pairs;
    let ghost mut done: int = 0;
    proof {
        assert(rest@ =~= all.subrange(0, all.len() as int));
        assert(all.take(0) =~= Seq::<(u128, BlockNode)>::empty());
    }
    while rest.len() > 0
        invariant
            0 <= done <= all.len(),
            rest@ == all.subrange(done, all.len() as int),
            m@ == map_of_pairs(all.take(done)),
        decreases rest@.len(),
    {
        let (id, node) = rest.remove(0);
        proof {
            assert(all.take(done + 1).drop_last() =~= all.take(done));
            assert(all.take(done + 1).last() == all[done]);
        }
        m.insert(id, node);
        proof {
            done = done + 1;
            assert(rest@ =~= all.subrange(done, all.len() as int));
        }
    }
    proof {
        assert(all.take(done) =~= all);
    }
    m
}

} // verus!
