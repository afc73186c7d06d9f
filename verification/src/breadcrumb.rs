//! The path shown under a search result, and the assembly of a server's raw
//! matches into results.
use std::collections::HashMap;
use vstd::prelude::*;
use crate::ranking::{RawSearchResult, SearchResult};
use crate::states::BlockNode;

verus! {

broadcast use vstd::std_specs::hash::group_hash_axioms;

/// Stands for the part of a path that is missing or would repeat itself.
pub const ELLIPSIS: &'static str = "…";

/// Placed between the titles of a path.
pub const BREADCRUMB_SEPARATOR: &'static str = " › ";

/// The titles from the block with parent `parent` upwards, following parents
/// through `m` until a block without a parent; an ellipsis ends the path at a
/// block that is missing or already `seen` (a cycle). `fuel` bounds the walk.
pub open spec fn ancestors(m: Map<u128, BlockNode>, seen: Set<u128>, parent: Option<u128>, fuel: nat) -> Seq<Seq<char>>
    decreases fuel,
{
    match parent {
        None => seq![],
        Some(id) => if seen.contains(id) || !m.contains_key(id) || fuel == 0 {
            seq![ELLIPSIS@]
        } else {
            seq![m[id].title@] + ancestors(m, seen.insert(id), m[id].parent_id, (fuel - 1) as nat)
        },
    }
}

/// The parts joined with `sep` between them.
pub open spec fn join_with(parts: Seq<Seq<char>>, sep: Seq<char>) -> Seq<char>
    decreases parts.len(),
{
    if parts.len() == 0 {
        seq![]
    } else if parts.len() == 1 {
        parts[0]
    } else {
        join_with(parts.drop_last(), sep) + sep + parts.last()
    }
}

/// The path of a block: the server, then its ancestors from the top down, then
/// the block's own title.
pub open spec fn breadcrumb_parts(
    server: Seq<char>,
    block_id: u128,
    title: Seq<char>,
    parent: Option<u128>,
    m: Map<u128, BlockNode>,
) -> Seq<Seq<char>> {
    (seq![title] + ancestors(m, set![block_id], parent, m.dom().len()) + seq![server]).reverse()
}

pub open spec fn str_views(s: Seq<&str>) -> Seq<Seq<char>> {
    s.map_values(|t: &str| t@)
}

fn contains_id(v: &Vec<u128>, x: u128) -> (r: bool)
    ensures
        r == v@.contains(x),
{
    let mut i: usize = 0;
    while i < v.len()
        invariant
            i <= v@.len(),
            forall|k: int| 0 <= k < i ==> v@[k] != x,
        decreases v@.len() - i,
    {
        if v[i] == x {
            assert(v@[i as int] == x);
            return true;
        }
        i = i + 1;
    }
    false
}

proof fn lemma_join_step(s: Seq<Seq<char>>, sep: Seq<char>, j: int)
    requires
        0 <= j < s.len(),
    ensures
        join_with(s.take(j + 1), sep) == (if j == 0 { s[0] } else { join_with(s.take(j), sep) + sep + s[j] }),
{
    assert(s.take(j + 1).drop_last() =~= s.take(j));
}

/// The parts joined with `sep`.
fn join_reversed(parts: &Vec<&str>, sep: &str) -> (out: String)
    ensures
        out@ == join_with(str_views(parts@).reverse(), sep@),
{
    let ghost rev = str_views(parts@).reverse();
    let n = parts.len();
    let mut out = String::new();
    let mut j: usize = 0;
    proof {
        assert(rev.take(0) =~= Seq::<Seq<char>>::empty());
    }
    while j < n
        invariant
            n == parts@.len(),
            rev == str_views(parts@).reverse(),
            rev.len() == n,
            j <= n,
            out@ == join_with(rev.take(j as int), sep@),
        decreases n - j,
    {
        let t = parts[n - 1 - j];
        proof {
            lemma_join_step(rev, sep@, j as int);
            assert(rev[j as int] == t@);
        }
        if j > 0 {
            out.append(sep);
        }
        out.append(t);
        j = j + 1;
    }
    proof {
        assert(rev.take(n as int) =~= rev);
    }
    out
}

/// The path shown for a block of `server`: the titles from the server down to
/// the block, joined by the separator. A parent that is missing from `blocks`, or
/// that was already passed, ends the walk with an ellipsis.
pub fn get_breadcrumb<'a>(
    server: &'a str,
    block_id: u128,
    title: &'a str,
    parent_id: Option<u128>,
    blocks: &'a HashMap<u128, BlockNode>,
) -> (crumb: String)
    ensures
        crumb@ == join_with(breadcrumb_parts(server@, block_id, title@, parent_id, blocks@), BREADCRUMB_SEPARATOR@),
{
    let ghost m = blocks@;
    let ghost full = ancestors(m, set![block_id], parent_id, m.dom().len());
    let mut titles: Vec<&'a str> = Vec::new();
    titles.push(title);
    let mut seen: Vec<u128> = Vec::new();
    seen.push(block_id);
    let mut parent = parent_id;
    let mut done = false;
    let ghost mut fuel: nat = m.dom().len();
    let ghost mut visited: Set<u128> = Set::empty();
    proof {
        assert(seen@.to_set() =~= visited.insert(block_id)) by {
            assert forall|x: u128| seen@.contains(x) <==> x == block_id by {
                if x == block_id {
                    assert(seen@[0] == x);
                }
            }
        }
        assert(str_views(titles@) =~= seq![title@]);
        assert(visited.len() == 0);
    }
    while !done
        invariant
            m == blocks@,
            m.dom().finite(),
            visited.finite(),
            visited.subset_of(m.dom()),
            fuel + visited.len() == m.dom().len(),
            seen@.to_set() == visited.insert(block_id),
            full == ancestors(m, set![block_id], parent_id, m.dom().len()),
            str_views(titles@) + (if done { Seq::<Seq<char>>::empty() } else { ancestors(m, visited.insert(block_id), parent, fuel) })
                == seq![title@] + full,
        decreases fuel + if done { 0nat } else { 1nat },
    {
        let ghost before = str_views(titles@);
        match parent {
            None => {
                done = true;
                proof {
                    assert(before + Seq::<Seq<char>>::empty() =~= before);
                }
            },
            Some(id) => {
                let repeated = contains_id(&seen, id);
                proof {
                    assert(repeated == visited.insert(block_id).contains(id)) by {
                        assert(seen@.contains(id) == seen@.to_set().contains(id));
                    }
                }
                if repeated {
                    titles.push(ELLIPSIS);
                    done = true;
                    proof {
                        assert(str_views(titles@) =~= before + seq![ELLIPSIS@]);
                    }
                } else {
                    match blocks.get(&id) {
                        None => {
                            titles.push(ELLIPSIS);
                            done = true;
                            proof {
                                assert(str_views(titles@) =~= before + seq![ELLIPSIS@]);
                            }
                        },
                        Some(node) => {
                            proof {
                                assert(m.contains_key(id));
                                assert(!visited.contains(id));
                                vstd::set_lib::lemma_len_subset(visited.insert(id), m.dom());
                                assert(fuel > 0);
                                assert(visited.insert(block_id).insert(id) =~= visited.insert(id).insert(block_id));
                            }
                            titles.push(node.title.as_str());
                            let ghost seen_before = seen@;
                            seen.push(id);
                            parent = node.parent_id;
                            proof {
                                assert(str_views(titles@) =~= before + seq![node.title@]);
                                assert(*node == m[id]);
                                let old_seen = seen_before;
                                assert(seen@.to_set() =~= visited.insert(id).insert(block_id)) by {
                                    assert forall|x: u128| seen@.contains(x) <==> visited.insert(id).insert(block_id).contains(x) by {
                                        assert(old_seen.to_set().contains(x) == old_seen.contains(x));
                                        if seen@.contains(x) {
                                            let w = choose|w: int| 0 <= w < seen@.len() && seen@[w] == x;
                                            if w < old_seen.len() {
                                                assert(old_seen[w] == x);
                                                assert(old_seen.contains(x));
                                            }
                                        }
                                        if old_seen.contains(x) {
                                            let w = choose|w: int| 0 <= w < old_seen.len() && old_seen[w] == x;
                                            assert(seen@[w] == x);
                                        }
                                        if x == id {
                                            assert(seen@[seen@.len() - 1] == x);
                                        }
                                    }
                                }
                                fuel = (fuel - 1) as nat;
                                visited = visited.insert(id);
                                assert(before + (seq![node.title@] + ancestors(m, visited.insert(block_id), parent, fuel))
                                    =~= str_views(titles@) + ancestors(m, visited.insert(block_id), parent, fuel));
                            }
                        },
                    }
                }
            },
        }
    }
    titles.push(server);
    proof {
        assert(str_views(titles@) =~= seq![title@] + full + seq![server@]);
    }
    join_reversed(&titles, BREADCRUMB_SEPARATOR)
}

/// A payload of a block: a chunk of its text.
pub struct Payload {
    pub id: u128,
    pub texts: String,
}

/// A block as a server returns it for search results.
pub struct FetchedBlock {
    pub title: String,
    pub parent_id: Option<u128>,
    pub payloads: Vec<Payload>,
}

/// The first payload with this id.
pub open spec fn first_payload(ps: Seq<Payload>, id: u128, i: int) -> bool {
    &&& 0 <= i < ps.len()
    &&& ps[i].id == id
    &&& forall|j: int| 0 <= j < i ==> (#[trigger] ps[j]).id != id
}

/// Some payload has this id.
pub open spec fn has_payload(ps: Seq<Payload>, id: u128) -> bool {
    exists|i: int| 0 <= i < ps.len() && (#[trigger] ps[i]).id == id
}

/// A raw match can be shown: its block was fetched and holds its payload.
pub open spec fn resolvable(r: RawSearchResult, fetched: Map<u128, FetchedBlock>) -> bool {
    fetched.contains_key(r.block_id) && has_payload(fetched[r.block_id].payloads@, r.payload_id)
}

/// The positions, in order, of the raw matches that can be shown.
pub open spec fn resolvable_positions(raw: Seq<RawSearchResult>, fetched: Map<u128, FetchedBlock>) -> Seq<int>
    decreases raw.len(),
{
    if raw.len() == 0 {
        seq![]
    } else if resolvable(raw.last(), fetched) {
        resolvable_positions(raw.drop_last(), fetched).push(raw.len() - 1)
    } else {
        resolvable_positions(raw.drop_last(), fetched)
    }
}

/// `res` is what the results list shows for the raw match `r` of `server`.
pub open spec fn shows(
    res: SearchResult,
    r: RawSearchResult,
    server: Seq<char>,
    fetched: Map<u128, FetchedBlock>,
    tree: Map<u128, BlockNode>,
) -> bool {
    let b = fetched[r.block_id];
    &&& res.raw == r
    &&& res.server@ == server
    &&& exists|i: int| first_payload(b.payloads@, r.payload_id, i) && res.texts@ == (#[trigger] b.payloads@[i]).texts@
    &&& res.breadcrumb@ == join_with(
        breadcrumb_parts(server, r.block_id, b.title@, b.parent_id, tree),
        BREADCRUMB_SEPARATOR@,
    )
}

/// The first payload with the given id.
fn find_payload(ps: &Vec<Payload>, id: u128) -> (r: Option<usize>)
    ensures
        r matches Some(i) ==> first_payload(ps@, id, i as int),
        r is None ==> !has_payload(ps@, id),
{
    let mut i: usize = 0;
    while i < ps.len()
        invariant
            i <= ps@.len(),
            forall|j: int| 0 <= j < i ==> (#[trigger] ps@[j]).id != id,
        decreases ps@.len() - i,
    {
        if ps[i].id == id {
            return Some(i);
        }
        i = i + 1;
    }
    None
}

/// The results of a server's raw matches, in order: each match whose block was
/// fetched and holds its payload, with the payload's text and the block's path;
/// the others are left out.
pub fn build_search_results(
    server: &str,
    raw: Vec<RawSearchResult>,
    fetched: &HashMap<u128, FetchedBlock>,
    tree: &HashMap<u128, BlockNode>,
) -> (out: Vec<SearchResult>)
    ensures
        out@.len() == resolvable_positions(raw@, fetched@).len(),
        forall|k: int| 0 <= k < out@.len() ==> shows(
            #[trigger] out@[k],
            raw@[resolvable_positions(raw@, fetched@)[k]],
            server@,
            fetched@,
            tree@,
        ),
{
    let mut out: Vec<SearchResult> = Vec::new();
    let mut i: usize = 0;
    while i < raw.len()
        invariant
            i <= raw@.len(),
            out@.len() == resolvable_positions(raw@.take(i as int), fetched@).len(),
            forall|k: int| 0 <= k < out@.len() ==> shows(
                #[trigger] out@[k],
                raw@[resolvable_positions(raw@.take(i as int), fetched@)[k]],
                server@,
                fetched@,
                tree@,
            ),
            forall|k: int| 0 <= k < resolvable_positions(raw@.take(i as int), fetched@).len()
                ==> 0 <= #[trigger] resolvable_positions(raw@.take(i as int), fetched@)[k] < i,
        decreases raw@.len() - i,
    {
        let r = raw[i];
        let ghost prev = resolvable_positions(raw@.take(i as int), fetched@);
        proof {
            assert(raw@.take(i + 1).drop_last() =~= raw@.take(i as int));
            assert(raw@.take(i + 1).last() == r);
        }
        match fetched.get(&r.block_id) {
            Some(block) => {
                match find_payload(&block.payloads, r.payload_id) {
                    Some(pi) => {
                        let crumb = get_breadcrumb(server, r.block_id, block.title.as_str(), block.parent_id, tree);
                        let texts = block.payloads[pi].texts.clone();
                        let res = SearchResult { raw: r, server: String::from_str(server), texts, breadcrumb: crumb };
                        proof {
                            assert(has_payload(block.payloads@, r.payload_id));
                            assert(shows(res, r, server@, fetched@, tree@)) by {
                                assert(first_payload(block.payloads@, r.payload_id, pi as int) && res.texts@ == block.payloads@[pi as int].texts@);
                            }
                        }
                        out.push(res);
                        proof {
                            let now = resolvable_positions(raw@.take(i + 1), fetched@);
                            assert(now == prev.push(i as int));
                            assert forall|k: int| 0 <= k < out@.len() implies shows(
                                #[trigger] out@[k],
                                raw@[now[k]],
                                server@,
                                fetched@,
                                tree@,
                            ) by {
                                if k < prev.len() {
                                    assert(now[k] == prev[k]);
                                }
                            }
                        }
                    },
                    None => {
                        proof {
                            assert(!resolvable(r, fetched@));
                        }
                    },
                }
            },
            None => {
                proof {
                    assert(!resolvable(r, fetched@));
                }
            },
        }
        i = i + 1;
    }
    proof {
        assert(raw@.take(i as int) =~= raw@);
    }
    out
}

/// The ids of the blocks of the raw matches, each once, in order of first match.
pub fn distinct_block_ids(raw: &Vec<RawSearchResult>) -> (ids: Vec<u128>)
    ensures
        ids@.no_duplicates(),
        forall|id: u128| ids@.contains(id) <==> exists|i: int| 0 <= i < raw@.len() && (#[trigger] raw@[i]).block_id == id,
{
    let mut ids: Vec<u128> = Vec::new();
    let mut i: usize = 0;
    while i < raw.len()
        invariant
            i <= raw@.len(),
            ids@.no_duplicates(),
            forall|id: u128| ids@.contains(id) <==> #[trigger] raw_block_before(raw@, i as int, id),
        decreases raw@.len() - i,
    {
        let id = raw[i].block_id;
        let ghost prev = ids@;
        if !contains_id(&ids, id) {
            ids.push(id);
        }
        proof {
            assert forall|x: u128| ids@.contains(x) <==> #[trigger] raw_block_before(raw@, i + 1, x) by {
                if ids@.contains(x) && !prev.contains(x) {
                    let w = choose|w: int| 0 <= w < ids@.len() && ids@[w] == x;
                    assert(w == prev.len());
                    assert(raw@[i as int].block_id == x);
                }
                if prev.contains(x) {
                    let w = choose|w: int| 0 <= w < prev.len() && prev[w] == x;
                    assert(ids@[w] == x);
                    assert(raw_block_before(raw@, i as int, x));
                    let q = choose|q: int| 0 <= q < i && (#[trigger] raw@[q]).block_id == x;
                }
                if raw_block_before(raw@, i + 1, x) {
                    let q = choose|q: int| 0 <= q < i + 1 && (#[trigger] raw@[q]).block_id == x;
                    if q < i {
                        assert(raw_block_before(raw@, i as int, x));
                    } else if !prev.contains(x) {
                        assert(ids@[prev.len() as int] == x);
                    }
                }
            }
        }
        i = i + 1;
    }
    proof {
        assert forall|id: u128| ids@.contains(id) <==> exists|q: int| 0 <= q < raw@.len() && (#[trigger] raw@[q]).block_id == id by {
            assert(raw_block_before(raw@, i as int, id) == exists|q: int| 0 <= q < raw@.len() && (#[trigger] raw@[q]).block_id == id);
        }
    }
    ids
}

/// One of the first `n` raw matches is of block `id`.
pub open spec fn raw_block_before(raw: Seq<RawSearchResult>, n: int, id: u128) -> bool {
    exists|q: int| 0 <= q < n && (#[trigger] raw[q]).block_id == id
}

/// The blocks among `ids`, in order, that the server holds (a server is only asked
/// about its own blocks).
pub fn server_block_ids(blocks: &HashMap<u128, BlockNode>, ids: &Vec<u128>) -> (r: Vec<u128>)
    ensures
        r@ == ids@.filter(|id: u128| blocks@.contains_key(id)),
{
    let mut r: Vec<u128> = Vec::new();
    let mut i: usize = 0;
    proof {
        reveal(Seq::filter);
        assert(ids@.take(0) =~= Seq::<u128>::empty());
    }
    while i < ids.len()
        invariant
            i <= ids@.len(),
            r@ == ids@.take(i as int).filter(|id: u128| blocks@.contains_key(id)),
        decreases ids@.len() - i,
    {
        let id = ids[i];
        proof {
            assert(ids@.take(i + 1).drop_last() =~= ids@.take(i as int));
            reveal(Seq::filter);
            assert(ids@.take(i + 1) =~= ids@.take(i as int).push(id));
        }
        if blocks.contains_key(&id) {
            r.push(id);
        }
        i = i + 1;
    }
    proof {
        assert(ids@.take(i as int) =~= ids@);
    }
    r
}

/// Law: a path starts with the server and ends with the block's own title; a
/// block without a parent sits right under its server.
pub proof fn law_breadcrumb_ends(server: Seq<char>, block_id: u128, title: Seq<char>, parent: Option<u128>, m: Map<u128, BlockNode>)
    ensures
        ({
            let parts = breadcrumb_parts(server, block_id, title, parent, m);
            &&& parts.len() >= 2
            &&& parts[0] == server
            &&& parts.last() == title
            &&& parent is None ==> parts == seq![server, title]
        }),
{
    let mid = ancestors(m, set![block_id], parent, m.dom().len());
    let fwd = seq![title] + mid + seq![server];
    let parts = fwd.reverse();
    assert(parts.len() == fwd.len());
    assert(parts[0] == fwd[fwd.len() - 1]);
    assert(parts[parts.len() - 1] == fwd[0]);
    if parent is None {
        assert(mid =~= Seq::<Seq<char>>::empty());
        assert(parts =~= seq![server, title]);
    }
}

} // verus!
