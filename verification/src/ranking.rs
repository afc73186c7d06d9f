//! Ranking of search results: best score first, then by server name, block and
//! payload, with each (server, block, payload) entry listed once.
use vstd::prelude::*;
use vstd::utf8::*;

verus! {

/// A match reported by a server. `score_bits` holds the IEEE-754 bits of the
/// `f32` score.
#[derive(Clone, Copy, Debug)]
pub struct RawSearchResult {
    pub block_id: u128,
    pub payload_id: u128,
    pub score_bits: u32,
}

/// A match together with what the results list shows of it.
pub struct SearchResult {
    pub raw: RawSearchResult,
    /// The name of the server that holds the block.
    pub server: String,
    /// The text of the matched payload.
    pub texts: String,
    /// The path of titles from the server down to the block.
    pub breadcrumb: String,
}

/// The position of a score in the IEEE-754 total order (`f32::total_cmp`), as an
/// unsigned number: negative values reversed below the positive ones.
pub open spec fn score_key(bits: u32) -> u32 {
    if bits >= 0x8000_0000 {
        (0xFFFF_FFFFu32 - bits) as u32
    } else {
        (bits + 0x8000_0000u32) as u32
    }
}

/// `f32::total_cmp` order key of a score given by its bits.
pub fn score_order_key(bits: u32) -> (k: u32)
    ensures
        k == score_key(bits),
{
    if bits >= 0x8000_0000 {
        0xFFFF_FFFFu32 - bits
    } else {
        bits + 0x8000_0000u32
    }
}

/// Lexicographic order of byte strings (the order of `str`).
pub open spec fn bytes_lt(a: Seq<u8>, b: Seq<u8>) -> bool
    decreases a.len(),
{
    if a.len() == 0 {
        b.len() > 0
    } else if b.len() == 0 {
        false
    } else if a[0] != b[0] {
        a[0] < b[0]
    } else {
        bytes_lt(a.drop_first(), b.drop_first())
    }
}

pub proof fn lemma_bytes_lt_irreflexive(a: Seq<u8>)
    ensures
        !bytes_lt(a, a),
    decreases a.len(),
{
    if a.len() > 0 {
        lemma_bytes_lt_irreflexive(a.drop_first());
    }
}

pub proof fn lemma_bytes_lt_transitive(a: Seq<u8>, b: Seq<u8>, c: Seq<u8>)
    requires
        bytes_lt(a, b),
        bytes_lt(b, c),
    ensures
        bytes_lt(a, c),
    decreases a.len(),
{
    if a.len() > 0 && b.len() > 0 && c.len() > 0 && a[0] == b[0] && b[0] == c[0] {
        lemma_bytes_lt_transitive(a.drop_first(), b.drop_first(), c.drop_first());
    }
}

pub proof fn lemma_bytes_lt_total(a: Seq<u8>, b: Seq<u8>)
    ensures
        bytes_lt(a, b) || bytes_lt(b, a) || a == b,
    decreases a.len(),
{
    if a.len() > 0 && b.len() > 0 && a[0] == b[0] {
        lemma_bytes_lt_total(a.drop_first(), b.drop_first());
        if a.drop_first() == b.drop_first() {
            assert(a =~= seq![a[0]] + a.drop_first());
            assert(b =~= seq![b[0]] + b.drop_first());
        }
    } else if a.len() == 0 && b.len() == 0 {
        assert(a =~= b);
    }
}

pub proof fn lemma_bytes_lt_asymmetric(a: Seq<u8>, b: Seq<u8>)
    requires
        bytes_lt(a, b),
    ensures
        !bytes_lt(b, a),
{
    if bytes_lt(b, a) {
        lemma_bytes_lt_transitive(a, b, a);
        lemma_bytes_lt_irreflexive(a);
    }
}

/// Whether `a` sorts before `b` (`a.len() <= b.len()` bounds the scan).
fn bytes_before(a: &[u8], b: &[u8]) -> (r: bool)
    ensures
        r == bytes_lt(a@, b@),
{
    let mut i: usize = 0;
    proof {
        assert(a@.subrange(0, a@.len() as int) =~= a@);
        assert(b@.subrange(0, b@.len() as int) =~= b@);
        assert(a@.subrange(0, 0) =~= b@.subrange(0, 0));
    }
    while i < a.len() && i < b.len() && a[i] == b[i]
        invariant
            i <= a@.len(),
            i <= b@.len(),
            a@.subrange(0, i as int) == b@.subrange(0, i as int),
            bytes_lt(a@, b@) == bytes_lt(a@.subrange(i as int, a@.len() as int), b@.subrange(i as int, b@.len() as int)),
        decreases a@.len() - i,
    {
        proof {
            let sa = a@.subrange(i as int, a@.len() as int);
            let sb = b@.subrange(i as int, b@.len() as int);
            assert(sa.drop_first() =~= a@.subrange(i + 1, a@.len() as int));
            assert(sb.drop_first() =~= b@.subrange(i + 1, b@.len() as int));
            assert(a@.subrange(0, i + 1) =~= a@.subrange(0, i as int).push(a@[i as int]));
            assert(b@.subrange(0, i + 1) =~= b@.subrange(0, i as int).push(b@[i as int]));
        }
        i = i + 1;
    }
    if i == a.len() {
        i < b.len()
    } else if i == b.len() {
        false
    } else {
        a[i] < b[i]
    }
}

/// Whether `a` sorts before `b` in the order of `str`.
pub fn str_before(a: &str, b: &str) -> (r: bool)
    ensures
        r == bytes_lt(encode_utf8(a@), encode_utf8(b@)),
{
    bytes_before(a.as_bytes(), b.as_bytes())
}

/// The bytes of a result's server name.
#[verifier::opaque]
pub open spec fn server_bytes(r: SearchResult) -> Seq<u8> {
    encode_utf8(r.server@)
}

/// Two results name the same payload of the same block on the same server.
pub open spec fn same_entry(a: SearchResult, b: SearchResult) -> bool {
    &&& server_bytes(a) == server_bytes(b)
    &&& a.raw.block_id == b.raw.block_id
    &&& a.raw.payload_id == b.raw.payload_id
}

/// `a` ranks strictly before `b`: higher score (in the total order), then server
/// name, block id and payload id ascending.
#[verifier::opaque]
pub open spec fn rank_lt(a: SearchResult, b: SearchResult) -> bool {
    let ka = score_key(a.raw.score_bits);
    let kb = score_key(b.raw.score_bits);
    ||| ka > kb
    ||| ka == kb && bytes_lt(server_bytes(a), server_bytes(b))
    ||| ka == kb && server_bytes(a) == server_bytes(b) && a.raw.block_id < b.raw.block_id
    ||| ka == kb && server_bytes(a) == server_bytes(b) && a.raw.block_id == b.raw.block_id
        && a.raw.payload_id < b.raw.payload_id
}

/// Same place in the ranking.
pub open spec fn rank_eq(a: SearchResult, b: SearchResult) -> bool {
    score_key(a.raw.score_bits) == score_key(b.raw.score_bits) && same_entry(a, b)
}

pub proof fn lemma_rank_irreflexive(a: SearchResult)
    ensures
        !rank_lt(a, a),
{
    reveal(rank_lt);
    lemma_bytes_lt_irreflexive(server_bytes(a));
}

pub proof fn lemma_rank_transitive(a: SearchResult, b: SearchResult, c: SearchResult)
    requires
        rank_lt(a, b) || rank_eq(a, b),
        rank_lt(b, c) || rank_eq(b, c),
        rank_lt(a, b) || rank_lt(b, c),
    ensures
        rank_lt(a, c),
{
    reveal(rank_lt);
    if score_key(a.raw.score_bits) == score_key(b.raw.score_bits) && score_key(b.raw.score_bits)
        == score_key(c.raw.score_bits) && bytes_lt(server_bytes(a), server_bytes(b)) && bytes_lt(
        server_bytes(b),
        server_bytes(c),
    ) {
        lemma_bytes_lt_transitive(server_bytes(a), server_bytes(b), server_bytes(c));
    }
}

pub proof fn lemma_rank_total(a: SearchResult, b: SearchResult)
    ensures
        rank_lt(a, b) || rank_lt(b, a) || rank_eq(a, b),
{
    reveal(rank_lt);
    lemma_bytes_lt_total(server_bytes(a), server_bytes(b));
}

pub proof fn lemma_rank_asymmetric(a: SearchResult, b: SearchResult)
    requires
        rank_lt(a, b),
    ensures
        !rank_lt(b, a),
        !rank_eq(a, b),
{
    reveal(rank_lt);
    if rank_lt(b, a) {
        lemma_rank_transitive(a, b, a);
        lemma_rank_irreflexive(a);
    }
    if rank_eq(a, b) {
        lemma_bytes_lt_irreflexive(server_bytes(a));
    }
}

/// Whether `a` ranks strictly before `b`.
pub fn ranks_before(a: &SearchResult, b: &SearchResult) -> (r: bool)
    ensures
        r == rank_lt(*a, *b),
{
    reveal(rank_lt);
    reveal(server_bytes);
    let ka = score_order_key(a.raw.score_bits);
    let kb = score_order_key(b.raw.score_bits);
    if ka != kb {
        return ka > kb;
    }
    let sa = a.server.as_str().as_bytes();
    let sb = b.server.as_str().as_bytes();
    if bytes_before(sa, sb) {
        return true;
    }
    if bytes_before(sb, sa) {
        proof {
            lemma_bytes_lt_asymmetric(sb@, sa@);
        }
        return false;
    }
    proof {
        lemma_bytes_lt_total(sa@, sb@);
    }
    if a.raw.block_id != b.raw.block_id {
        return a.raw.block_id < b.raw.block_id;
    }
    a.raw.payload_id < b.raw.payload_id
}

/// Whether two results name the same entry.
pub fn is_same_entry(a: &SearchResult, b: &SearchResult) -> (r: bool)
    ensures
        r == same_entry(*a, *b),
{
    reveal(server_bytes);
    if a.raw.block_id != b.raw.block_id || a.raw.payload_id != b.raw.payload_id {
        return false;
    }
    let sa = a.server.as_str().as_bytes();
    let sb = b.server.as_str().as_bytes();
    if bytes_before(sa, sb) {
        proof {
            lemma_bytes_lt_irreflexive(sa@);
        }
        return false;
    }
    if bytes_before(sb, sa) {
        proof {
            lemma_bytes_lt_irreflexive(sa@);
        }
        return false;
    }
    proof {
        lemma_bytes_lt_total(sa@, sb@);
    }
    true
}

/// Strictly ascending in rank, with no entry twice.
pub open spec fn ranked(out: Seq<SearchResult>) -> bool {
    forall|i: int, j: int|
        0 <= i < j < out.len() ==> rank_lt(#[trigger] out[i], #[trigger] out[j]) && !same_entry(
            out[i],
            out[j],
        )
}

/// `p[i]` is the best-ranked match of its entry in `p`, and the first such.
pub open spec fn best_at(p: Seq<SearchResult>, i: int) -> bool {
    &&& 0 <= i < p.len()
    &&& forall|j: int|
        0 <= j < p.len() && same_entry(#[trigger] p[j], p[i]) ==> !rank_lt(p[j], p[i]) && (j < i
            ==> rank_lt(p[i], p[j]))
}

/// `e` is `p[i]`, the best match of its entry in `p`.
pub open spec fn picks(p: Seq<SearchResult>, i: int, e: SearchResult) -> bool {
    best_at(p, i) && p[i] == e
}

/// Some match of `input` is `e`, as the best match of its entry.
pub open spec fn represented(input: Seq<SearchResult>, e: SearchResult) -> bool {
    exists|i: int| #[trigger] picks(input, i, e)
}

/// `out[k]` has the entry of `e`.
pub open spec fn entry_at(out: Seq<SearchResult>, k: int, e: SearchResult) -> bool {
    0 <= k < out.len() && same_entry(out[k], e)
}

/// The entry of `e` is listed in `out`.
pub open spec fn listed(out: Seq<SearchResult>, e: SearchResult) -> bool {
    exists|k: int| #[trigger] entry_at(out, k, e)
}

/// Each result of `out` is the best match of its entry in `input`.
pub open spec fn represents(out: Seq<SearchResult>, input: Seq<SearchResult>) -> bool {
    forall|k: int| 0 <= k < out.len() ==> #[trigger] represented(input, out[k])
}

/// Each entry of `input` is in `out`, or `out` holds `top_n` results that all rank
/// before it.
pub open spec fn complete(out: Seq<SearchResult>, input: Seq<SearchResult>, top_n: nat) -> bool {
    forall|j: int|
        #![trigger input[j]]
        0 <= j < input.len() ==> listed(out, input[j]) || (out.len() == top_n && forall|k: int|
            0 <= k < out.len() ==> rank_lt(#[trigger] out[k], input[j]))
}

/// `out` is the ranking of the entries of `input`, cut after `top_n`: ascending in
/// rank, each entry once and represented by its best (and among equals, first)
/// match, and every entry of `input` left out ranks after all that are kept.
pub open spec fn top_ranked(out: Seq<SearchResult>, input: Seq<SearchResult>, top_n: nat) -> bool {
    &&& out.len() <= top_n
    &&& ranked(out)
    &&& represents(out, input)
    &&& complete(out, input, top_n)
}

/// `idx[k]` is the index in `p` of the match that `out[k]` is.
spec fn chosen_at(out: Seq<SearchResult>, p: Seq<SearchResult>, idx: Seq<int>) -> bool {
    &&& idx.len() == out.len()
    &&& forall|k: int| 0 <= k < out.len() ==> #[trigger] picks(p, idx[k], out[k])
}

/// `pos[j]` is the index in `out` of the entry of `p[j]`.
spec fn covers_at(out: Seq<SearchResult>, p: Seq<SearchResult>, pos: Seq<int>) -> bool {
    &&& pos.len() == p.len()
    &&& forall|j: int|
        0 <= j < p.len() ==> 0 <= #[trigger] pos[j] < out.len() && same_entry(out[pos[j]], p[j])
}

proof fn lemma_best_at_extend(p: Seq<SearchResult>, x: SearchResult, i: int)
    requires
        best_at(p, i),
        !same_entry(x, p[i]) || !rank_lt(x, p[i]),
    ensures
        best_at(p.push(x), i),
        0 <= i < p.len(),
        p.push(x)[i] == p[i],
{
    let q = p.push(x);
    assert forall|j: int| 0 <= j < q.len() && same_entry(#[trigger] q[j], q[i]) implies !rank_lt(
        q[j],
        q[i],
    ) && (j < i ==> rank_lt(q[i], q[j])) by {
        if j < p.len() {
            assert(q[j] == p[j]);
        }
    }
}

/// Removing the listed result of `x`'s entry, which ranks after `x`.
proof fn lemma_remove_replaced(
    before: Seq<SearchResult>,
    k: int,
    x: SearchResult,
    p: Seq<SearchResult>,
    idx: Seq<int>,
    pos: Seq<int>,
) -> (r: (Seq<int>, Seq<int>))
    requires
        ranked(before),
        chosen_at(before, p, idx),
        covers_at(before, p, pos),
        0 <= k < before.len(),
        same_entry(before[k], x),
        rank_lt(x, before[k]),
    ensures
        ranked(before.remove(k)),
        forall|m: int| 0 <= m < before.remove(k).len() ==> !same_entry(#[trigger] before.remove(k)[m], x),
        chosen_at(before.remove(k), p, r.0),
        r.1.len() == p.len(),
        forall|j: int| 0 <= j < p.len() && !same_entry(#[trigger] p[j], x) ==> 0 <= r.1[j] < before.remove(k).len()
            && same_entry(before.remove(k)[r.1[j]], p[j]),
        forall|j: int| 0 <= j < p.len() && same_entry(#[trigger] p[j], x) ==> rank_lt(x, p[j]),
{
    let after = before.remove(k);
    let e = before[k];
    let idx2 = idx.remove(k);
    let pos2 = Seq::new(p.len(), |j: int| if pos[j] > k { pos[j] - 1 } else { pos[j] });
    assert forall|m: int| 0 <= m < after.len() implies !same_entry(#[trigger] after[m], x) by {
        let m2 = if m < k { m } else { m + 1 };
        assert(after[m] == before[m2]);
        if m2 < k {
            assert(!same_entry(before[m2], before[k]));
        } else {
            assert(!same_entry(before[k], before[m2]));
        }
    }
    assert forall|a: int, b: int| 0 <= a < b < after.len() implies rank_lt(
        #[trigger] after[a],
        #[trigger] after[b],
    ) && !same_entry(after[a], after[b]) by {
        let a2 = if a < k { a } else { a + 1 };
        let b2 = if b < k { b } else { b + 1 };
        assert(after[a] == before[a2] && after[b] == before[b2]);
    }
    let i = idx[k];
    assert(picks(p, i, before[k]));
    assert forall|j: int| 0 <= j < p.len() && same_entry(#[trigger] p[j], x) implies rank_lt(
        x,
        p[j],
    ) by {
        assert(same_entry(p[j], p[i]));
        assert(!rank_lt(p[j], e));
        lemma_rank_total(e, p[j]);
        lemma_rank_transitive(x, e, p[j]);
    }
    assert forall|kk: int| 0 <= kk < after.len() implies #[trigger] picks(p, idx2[kk], after[kk]) by {
        let k2 = if kk < k { kk } else { kk + 1 };
        assert(after[kk] == before[k2]);
        assert(picks(p, idx[k2], before[k2]));
    }
    assert forall|j: int| 0 <= j < p.len() && !same_entry(#[trigger] p[j], x) implies 0 <= pos2[j] < after.len()
        && same_entry(after[pos2[j]], p[j]) by {
        let k0 = pos[j];
        assert(0 <= k0 < before.len() && same_entry(before[k0], p[j]));
        assert(k0 != k);
        let k1 = if k0 < k { k0 } else { k0 - 1 };
        assert(after[k1] == before[k0]);
    }
    (idx2, pos2)
}

/// A match that ranks no better than the listed one of its entry changes nothing.
proof fn lemma_keep_listed(out: Seq<SearchResult>, k: int, x: SearchResult, p: Seq<SearchResult>, idx: Seq<int>, pos: Seq<int>)
    requires
        ranked(out),
        chosen_at(out, p, idx),
        covers_at(out, p, pos),
        0 <= k < out.len(),
        same_entry(out[k], x),
        !rank_lt(x, out[k]),
    ensures
        chosen_at(out, p.push(x), idx),
        covers_at(out, p.push(x), pos.push(k)),
{
    let q = p.push(x);
    let pos2 = pos.push(k);
    assert forall|kk: int| 0 <= kk < out.len() implies #[trigger] picks(q, idx[kk], out[kk]) by {
        let i2 = idx[kk];
        assert(picks(p, i2, out[kk]));
        if kk != k {
            if kk < k {
                assert(!same_entry(out[kk], out[k]));
            } else {
                assert(!same_entry(out[k], out[kk]));
            }
        }
        lemma_best_at_extend(p, x, i2);
    }
    assert forall|j: int| 0 <= j < q.len() implies 0 <= #[trigger] pos2[j] < out.len() && same_entry(
        out[pos2[j]],
        q[j],
    ) by {
        if j < p.len() {
            assert(q[j] == p[j]);
            assert(pos2[j] == pos[j]);
        }
    }
}

/// Insert `x`, whose entry is not in `out` and each of whose earlier matches in `p`
/// ranks after it, at its place in the ranking.
fn insert_new_entry(
    out: &mut Vec<SearchResult>,
    x: SearchResult,
    Ghost(p): Ghost<Seq<SearchResult>>,
    Ghost(idx): Ghost<Seq<int>>,
    Ghost(pos): Ghost<Seq<int>>,
) -> (r: Ghost<(Seq<int>, Seq<int>)>)
    requires
        ranked(old(out)@),
        forall|m: int| 0 <= m < old(out)@.len() ==> !same_entry(#[trigger] old(out)@[m], x),
        chosen_at(old(out)@, p, idx),
        pos.len() == p.len(),
        forall|j: int| 0 <= j < p.len() && !same_entry(#[trigger] p[j], x) ==> 0 <= pos[j] < old(out)@.len()
            && same_entry(old(out)@[pos[j]], p[j]),
        forall|j: int| 0 <= j < p.len() && same_entry(#[trigger] p[j], x) ==> rank_lt(x, p[j]),
    ensures
        ranked(final(out)@),
        chosen_at(final(out)@, p.push(x), r@.0),
        covers_at(final(out)@, p.push(x), r@.1),
{
    let ghost q = p.push(x);
    let ghost before = out@;
    let mut ins: usize = 0;
    while ins < out.len() && !ranks_before(&x, &out[ins])
        invariant
            out@ == before,
            ins <= before.len(),
            forall|m: int| 0 <= m < ins ==> !rank_lt(x, #[trigger] before[m]),
        decreases before.len() - ins,
    {
        ins = ins + 1;
    }
    proof {
        assert forall|m: int| 0 <= m < ins implies rank_lt(#[trigger] before[m], x) by {
            lemma_rank_total(before[m], x);
        }
        assert forall|m: int| ins <= m < before.len() implies rank_lt(x, #[trigger] before[m]) by {
            if m > ins {
                assert(rank_lt(before[ins as int], before[m]));
                lemma_rank_transitive(x, before[ins as int], before[m]);
            }
        }
    }
    out.insert(ins, x);
    let ghost idx2 = idx.insert(ins as int, p.len() as int);
    let ghost pos2 = Seq::new(q.len(), |j: int|
        if j == p.len() || same_entry(p[j], x) { ins as int } else if pos[j] >= ins { pos[j] + 1 } else { pos[j] });
    proof {
        let after = out@;
        assert(after[ins as int] == x);
        assert forall|a: int, b: int| 0 <= a < b < after.len() implies rank_lt(
            #[trigger] after[a],
            #[trigger] after[b],
        ) && !same_entry(after[a], after[b]) by {
            if a != ins && b != ins {
                let a2 = if a < ins { a } else { a - 1 };
                let b2 = if b < ins { b } else { b - 1 };
                assert(after[a] == before[a2] && after[b] == before[b2]);
            } else if a == ins {
                assert(after[b] == before[b - 1]);
            } else {
                assert(after[a] == before[a]);
            }
        }
        assert(q[p.len() as int] == x);
        assert(best_at(q, p.len() as int)) by {
            assert forall|j: int| 0 <= j < q.len() && same_entry(#[trigger] q[j], q[p.len() as int]) implies !rank_lt(
                q[j],
                q[p.len() as int],
            ) && (j < p.len() ==> rank_lt(q[p.len() as int], q[j])) by {
                if j < p.len() {
                    assert(q[j] == p[j]);
                    lemma_rank_asymmetric(x, p[j]);
                } else {
                    lemma_rank_irreflexive(x);
                }
            }
        }
        assert forall|kk: int| 0 <= kk < after.len() implies #[trigger] picks(q, idx2[kk], after[kk]) by {
            if kk == ins {
                assert(idx2[kk] == p.len());
            } else {
                let k2 = if kk < ins { kk } else { kk - 1 };
                assert(after[kk] == before[k2]);
                assert(idx2[kk] == idx[k2]);
                assert(picks(p, idx[k2], before[k2]));
                lemma_best_at_extend(p, x, idx[k2]);
            }
        }
        assert forall|j: int| 0 <= j < q.len() implies 0 <= #[trigger] pos2[j] < after.len() && same_entry(
            after[pos2[j]],
            q[j],
        ) by {
            if j < p.len() {
                assert(q[j] == p[j]);
                if !same_entry(p[j], x) {
                    let k0 = pos[j];
                    let k1 = if k0 < ins { k0 } else { k0 + 1 };
                    assert(pos2[j] == k1);
                    assert(after[k1] == before[k0]);
                }
            }
        }
    }
    Ghost((idx2, pos2))
}

/// Add `x` to a ranking of `p`, giving a ranking of `p` followed by `x`.
fn insert_ranked(
    out: &mut Vec<SearchResult>,
    x: SearchResult,
    Ghost(p): Ghost<Seq<SearchResult>>,
    Ghost(idx): Ghost<Seq<int>>,
    Ghost(pos): Ghost<Seq<int>>,
) -> (r: Ghost<(Seq<int>, Seq<int>)>)
    requires
        ranked(old(out)@),
        chosen_at(old(out)@, p, idx),
        covers_at(old(out)@, p, pos),
    ensures
        ranked(final(out)@),
        chosen_at(final(out)@, p.push(x), r@.0),
        covers_at(final(out)@, p.push(x), r@.1),
{
    let mut k: usize = 0;
    while k < out.len() && !is_same_entry(&out[k], &x)
        invariant
            k <= out@.len(),
            forall|m: int| 0 <= m < k ==> !same_entry(#[trigger] out@[m], x),
        decreases out@.len() - k,
    {
        k = k + 1;
    }
    if k < out.len() {
        if ranks_before(&x, &out[k]) {
            let ghost w = lemma_remove_replaced(out@, k as int, x, p, idx, pos);
            let _ = out.remove(k);
            insert_new_entry(out, x, Ghost(p), Ghost(w.0), Ghost(w.1))
        } else {
            proof {
                lemma_keep_listed(out@, k as int, x, p, idx, pos);
            }
            Ghost((idx, pos.push(k as int)))
        }
    } else {
        proof {
            assert forall|j: int| 0 <= j < p.len() implies !same_entry(#[trigger] p[j], x) by {
                let kk = pos[j];
                if same_entry(p[j], x) {
                    assert(same_entry(out@[kk], x));
                }
            }
        }
        insert_new_entry(out, x, Ghost(p), Ghost(idx), Ghost(pos))
    }
}

/// Cutting a ranking of all entries after `top_n` gives the top-ranked ones.
proof fn lemma_cut_ranking(
    full: Seq<SearchResult>,
    input: Seq<SearchResult>,
    top_n: nat,
    n: int,
    idx: Seq<int>,
    pos: Seq<int>,
)
    requires
        ranked(full),
        chosen_at(full, input, idx),
        covers_at(full, input, pos),
        n == (if full.len() <= top_n { full.len() as int } else { top_n as int }),
    ensures
        top_ranked(full.take(n), input, top_n),
{
    let out = full.take(n);
    assert forall|a: int, b: int| 0 <= a < b < out.len() implies rank_lt(
        #[trigger] out[a],
        #[trigger] out[b],
    ) && !same_entry(out[a], out[b]) by {
        assert(out[a] == full[a] && out[b] == full[b]);
    }
    assert forall|k: int| 0 <= k < out.len() implies #[trigger] represented(input, out[k]) by {
        assert(out[k] == full[k]);
        assert(picks(input, idx[k], out[k]));
    }
    assert forall|j: int| #![trigger input[j]] 0 <= j < input.len() implies listed(out, input[j])
        || (out.len() == top_n && forall|k: int| 0 <= k < out.len() ==> rank_lt(#[trigger] out[k], input[j])) by {
        let k0 = pos[j];
        assert(0 <= k0 < full.len() && same_entry(full[k0], input[j]));
        if k0 < out.len() {
            assert(out[k0] == full[k0]);
            assert(entry_at(out, k0, input[j]));
        } else {
            let i0 = idx[k0];
            assert(picks(input, i0, full[k0]));
            assert(!rank_lt(input[j], full[k0])) by {
                assert(same_entry(input[j], input[i0]));
            }
            lemma_rank_total(full[k0], input[j]);
            assert forall|k: int| 0 <= k < out.len() implies rank_lt(#[trigger] out[k], input[j]) by {
                assert(out[k] == full[k]);
                assert(rank_lt(full[k], full[k0]));
                lemma_rank_transitive(full[k], full[k0], input[j]);
            }
        }
    }
    assert(represents(out, input));
    assert(complete(out, input, top_n));
}

/// The ranking of `results` followed by `new_results`, cut after `top_n`: sorted by
/// score (best first, in the IEEE total order), then server name, block id and
/// payload id; each (server, block, payload) entry kept once, as its first
/// best-ranked match.
pub fn rank_results(results: Vec<SearchResult>, new_results: Vec<SearchResult>, top_n: usize) -> (out: Vec<SearchResult>)
    ensures
        top_ranked(out@, results@ + new_results@, top_n as nat),
{
    let ghost input = results@ + new_results@;
    let mut pending = results;
    let mut more = new_results;
    pending.append(&mut more);
    let mut out: Vec<SearchResult> = Vec::new();
    let ghost mut done: int = 0;
    let ghost mut idx: Seq<int> = Seq::empty();
    let ghost mut pos: Seq<int> = Seq::empty();
    proof {
        assert(pending@ =~= input.subrange(0, input.len() as int));
        assert(input.take(0) =~= Seq::<SearchResult>::empty());
    }
    while pending.len() > 0
        invariant
            0 <= done <= input.len(),
            pending@ == input.subrange(done, input.len() as int),
            ranked(out@),
            chosen_at(out@, input.take(done), idx),
            covers_at(out@, input.take(done), pos),
        decreases pending@.len(),
    {
        let x = pending.remove(0);
        proof {
            assert(x == input[done]);
            assert(input.take(done).push(x) =~= input.take(done + 1));
        }
        let w = insert_ranked(&mut out, x, Ghost(input.take(done)), Ghost(idx), Ghost(pos));
        proof {
            idx = w@.0;
            pos = w@.1;
            done = done + 1;
            assert(pending@ =~= input.subrange(done, input.len() as int));
        }
    }
    proof {
        assert(input.take(done) =~= input);
    }
    let ghost full = out@;
    let ghost n: int = if full.len() <= top_n { full.len() as int } else { top_n as int };
    if out.len() > top_n {
        out.truncate(top_n);
    }
    proof {
        assert(out@ =~= full.take(n));
        lemma_cut_ranking(full, input, top_n as nat, n, idx, pos);
    }
    out
}

/// `out` lists `input[idx[0]], input[idx[1]], ...`, distinct positions, from the
/// best score down, matches with equal scores in their order in `input`.
pub open spec fn score_sorted_at(out: Seq<RawSearchResult>, input: Seq<RawSearchResult>, idx: Seq<int>) -> bool {
    &&& idx.len() == out.len()
    &&& forall|k: int| 0 <= k < out.len() ==> 0 <= #[trigger] idx[k] < input.len() && out[k] == input[idx[k]]
    &&& forall|a: int, b: int|
        0 <= a < b < out.len() ==> #[trigger] idx[a] != #[trigger] idx[b] && (score_key(out[a].score_bits) > score_key(
            out[b].score_bits,
        ) || (score_key(out[a].score_bits) == score_key(out[b].score_bits) && idx[a] < idx[b]))
}

/// `full` is `input` stably sorted by score, best first.
pub open spec fn stably_sorted_by_score(full: Seq<RawSearchResult>, input: Seq<RawSearchResult>) -> bool {
    exists|idx: Seq<int>| full.len() == input.len() && #[trigger] score_sorted_at(full, input, idx)
}

/// `out` is the `top_n` best of `input` by score (`sort_by` on the scores,
/// descending, then `truncate`).
pub open spec fn top_by_score_of(out: Seq<RawSearchResult>, input: Seq<RawSearchResult>, top_n: nat) -> bool {
    exists|full: Seq<RawSearchResult>| #[trigger] stably_sorted_by_score(full, input) && out == (if full.len() <= top_n {
        full
    } else {
        full.take(top_n as int)
    })
}

/// A server's matches sorted by score, best first (ties keep their order), cut
/// after `top_n`.
#[verifier::spinoff_prover]
#[verifier::rlimit(30)]
pub fn top_by_score(results: Vec<RawSearchResult>, top_n: usize) -> (out: Vec<RawSearchResult>)
    ensures
        top_by_score_of(out@, results@, top_n as nat),
{
    let ghost input = results@;
    let mut out: Vec<RawSearchResult> = Vec::new();
    let ghost mut idx: Seq<int> = Seq::empty();
    let mut i: usize = 0;
    while i < results.len()
        invariant
            input == results@,
            i <= input.len(),
            out@.len() == i,
            score_sorted_at(out@, input, idx),
            forall|k: int| 0 <= k < idx.len() ==> #[trigger] idx[k] < i,
        decreases input.len() - i,
    {
        let x = results[i];
        let kx = score_order_key(x.score_bits);
        let mut p: usize = 0;
        while p < out.len() && score_order_key(out[p].score_bits) >= kx
            invariant
                p <= out@.len(),
                kx == score_key(x.score_bits),
                forall|m: int| 0 <= m < p ==> score_key(#[trigger] out@[m].score_bits) >= kx,
            decreases out@.len() - p,
        {
            p = p + 1;
        }
        let ghost before = out@;
        let ghost old_idx = idx;
        out.insert(p, x);
        proof {
            idx = old_idx.insert(p as int, i as int);
            assert(x == input[i as int]);
            assert forall|k: int| 0 <= k < out@.len() implies 0 <= #[trigger] idx[k] < input.len() && out@[k] == input[idx[k]] by {
                if k < p {
                    assert(out@[k] == before[k] && idx[k] == old_idx[k]);
                } else if k > p {
                    assert(out@[k] == before[k - 1] && idx[k] == old_idx[k - 1]);
                }
            }
            assert forall|a: int, b: int| 0 <= a < b < out@.len() implies #[trigger] idx[a] != #[trigger] idx[b] && (score_key(out@[a].score_bits) > score_key(
                out@[b].score_bits,
            ) || (score_key(out@[a].score_bits) == score_key(out@[b].score_bits) && idx[a] < idx[b])) by {
                if a != p && b != p {
                    let a2 = if a < p { a } else { a - 1 };
                    let b2 = if b < p { b } else { b - 1 };
                    assert(out@[a] == before[a2] && idx[a] == old_idx[a2]);
                    assert(out@[b] == before[b2] && idx[b] == old_idx[b2]);
                } else if a == p {
                    assert(out@[b] == before[b - 1] && idx[b] == old_idx[b - 1]);
                    assert(p < before.len());
                    assert(score_key(before[p as int].score_bits) < kx);
                    if b - 1 > p {
                        assert(old_idx[p as int] != old_idx[b - 1]);
                        assert(score_key(before[p as int].score_bits) >= score_key(before[b - 1].score_bits));
                    }
                } else {
                    assert(out@[a] == before[a] && idx[a] == old_idx[a]);
                }
            }
            assert forall|k: int| 0 <= k < idx.len() implies #[trigger] idx[k] < i + 1 by {
                if k < p {
                    assert(idx[k] == old_idx[k]);
                } else if k > p {
                    assert(idx[k] == old_idx[k - 1]);
                }
            }
            assert(idx.len() == out@.len());
            assert(score_sorted_at(out@, input, idx));
        }
        i = i + 1;
    }
    let ghost full = out@;
    let ghost n: int = if full.len() <= top_n { full.len() as int } else { top_n as int };
    if out.len() > top_n {
        out.truncate(top_n);
    }
    proof {
        assert(stably_sorted_by_score(full, input));
        if full.len() <= top_n {
            assert(out@ == full);
        } else {
            assert(out@ =~= full.take(top_n as int));
        }
    }
    out
}

/// The block ids of the matches, in order (a server is then asked for these
/// blocks).
pub fn block_ids_of(results: &Vec<RawSearchResult>) -> (ids: Vec<u128>)
    ensures
        ids@ == results@.map_values(|r: RawSearchResult| r.block_id),
{
    let mut ids: Vec<u128> = Vec::new();
    let mut i: usize = 0;
    while i < results.len()
        invariant
            i <= results@.len(),
            ids@ == results@.take(i as int).map_values(|r: RawSearchResult| r.block_id),
        decreases results@.len() - i,
    {
        ids.push(results[i].block_id);
        i = i + 1;
        proof {
            assert(ids@ =~= results@.take(i as int).map_values(|r: RawSearchResult| r.block_id));
        }
    }
    proof {
        assert(results@.take(i as int) =~= results@);
    }
    ids
}

proof fn lemma_ranked_no_duplicates(s: Seq<SearchResult>)
    requires
        ranked(s),
    ensures
        s.no_duplicates(),
{
    assert forall|a: int, b: int| 0 <= a < s.len() && 0 <= b < s.len() && a != b implies s[a] != s[b] by {
        if a < b {
            assert(rank_lt(s[a], s[b]));
            lemma_rank_irreflexive(s[a]);
        } else {
            assert(rank_lt(s[b], s[a]));
            lemma_rank_irreflexive(s[b]);
        }
    }
}

/// Two rankings holding the same results are the same sequence.
proof fn lemma_ranked_same_elements(a: Seq<SearchResult>, b: Seq<SearchResult>)
    requires
        ranked(a),
        ranked(b),
        forall|x: SearchResult| a.contains(x) <==> b.contains(x),
    ensures
        a == b,
    decreases a.len(),
{
    if a.len() == 0 {
        if b.len() > 0 {
            assert(b.contains(b[0]));
        }
        assert(b.len() == 0);
        assert(a =~= b);
    } else {
        assert(a.contains(a[0]));
        assert(b.len() > 0);
        assert(b.contains(b[0]));
        // The first elements are both the least element of the common set.
        if a[0] != b[0] {
            let ia = choose|i: int| 0 <= i < b.len() && b[i] == a[0];
            let ib = choose|i: int| 0 <= i < a.len() && a[i] == b[0];
            assert(ia > 0 && ib > 0);
            assert(rank_lt(b[0], b[ia]));
            assert(rank_lt(a[0], a[ib]));
            lemma_rank_asymmetric(b[0], a[0]);
        }
        let ta = a.drop_first();
        let tb = b.drop_first();
        assert(ranked(ta)) by {
            assert forall|i: int, j: int| 0 <= i < j < ta.len() implies rank_lt(#[trigger] ta[i], #[trigger] ta[j]) && !same_entry(ta[i], ta[j]) by {
                assert(ta[i] == a[i + 1] && ta[j] == a[j + 1]);
            }
        }
        assert(ranked(tb)) by {
            assert forall|i: int, j: int| 0 <= i < j < tb.len() implies rank_lt(#[trigger] tb[i], #[trigger] tb[j]) && !same_entry(tb[i], tb[j]) by {
                assert(tb[i] == b[i + 1] && tb[j] == b[j + 1]);
            }
        }
        lemma_ranked_no_duplicates(a);
        lemma_ranked_no_duplicates(b);
        assert forall|x: SearchResult| ta.contains(x) <==> tb.contains(x) by {
            if ta.contains(x) {
                let i = choose|i: int| 0 <= i < ta.len() && ta[i] == x;
                assert(a[i + 1] == x);
                assert(a.contains(x));
                assert(x != a[0]);
                let k = choose|k: int| 0 <= k < b.len() && b[k] == x;
                assert(k != 0);
                assert(tb[k - 1] == x);
            }
            if tb.contains(x) {
                let i = choose|i: int| 0 <= i < tb.len() && tb[i] == x;
                assert(b[i + 1] == x);
                assert(b.contains(x));
                assert(x != b[0]);
                let k = choose|k: int| 0 <= k < a.len() && a[k] == x;
                assert(k != 0);
                assert(ta[k - 1] == x);
            }
        }
        lemma_ranked_same_elements(ta, tb);
        assert(a =~= seq![a[0]] + ta);
        assert(b =~= seq![b[0]] + tb);
    }
}

/// Law: ranking again a list that is already a ranking, with no new results, gives
/// the same list: merging an empty answer leaves the results list unchanged.
pub proof fn law_rerank_keeps_ranking(out: Seq<SearchResult>, input: Seq<SearchResult>, top_n: nat, again: Seq<SearchResult>)
    requires
        top_ranked(out, input, top_n),
        top_ranked(again, out + Seq::<SearchResult>::empty(), top_n),
    ensures
        again == out,
{
    assert(out + Seq::<SearchResult>::empty() =~= out);
    lemma_ranked_no_duplicates(out);
    lemma_ranked_no_duplicates(again);
    // Each result of `again` is a result of `out`.
    assert forall|k: int| 0 <= k < again.len() implies out.contains(#[trigger] again[k]) by {
        assert(represented(out, again[k]));
        let i = choose|i: int| #[trigger] picks(out, i, again[k]);
        assert(out[i] == again[k]);
    }
    // Each result of `out` is a result of `again`.
    assert forall|j: int| 0 <= j < out.len() implies again.contains(#[trigger] out[j]) by {
        if listed(again, out[j]) {
            let k = choose|k: int| #[trigger] entry_at(again, k, out[j]);
            assert(out.contains(again[k]));
            let i = choose|i: int| 0 <= i < out.len() && out[i] == again[k];
            if i != j {
                if i < j {
                    assert(!same_entry(out[i], out[j]));
                } else {
                    assert(!same_entry(out[j], out[i]));
                }
            }
        } else {
            assert(again.len() == top_n);
            assert forall|k: int| 0 <= k < again.len() implies #[trigger] again[k] != out[j] by {
                assert(rank_lt(again[k], out[j]));
                lemma_rank_irreflexive(again[k]);
            }
            assert(again.to_set().subset_of(out.to_set().remove(out[j]))) by {
                assert forall|x: SearchResult| again.to_set().contains(x) implies out.to_set().remove(out[j]).contains(x) by {
                    assert(again.contains(x));
                    let k = choose|k: int| 0 <= k < again.len() && again[k] == x;
                    assert(out.contains(again[k]));
                }
            }
            again.unique_seq_to_set();
            out.unique_seq_to_set();
            assert(out.to_set().contains(out[j]));
            vstd::set_lib::lemma_len_subset(again.to_set(), out.to_set().remove(out[j]));
            assert(false);
        }
    }
    assert forall|x: SearchResult| again.contains(x) <==> out.contains(x) by {
        if again.contains(x) {
            let k = choose|k: int| 0 <= k < again.len() && again[k] == x;
            assert(out.contains(again[k]));
        }
        if out.contains(x) {
            let j = choose|j: int| 0 <= j < out.len() && out[j] == x;
            assert(again.contains(out[j]));
        }
    }
    lemma_ranked_same_elements(again, out);
}

/// At most `n - 1` distinct indices below `n` avoid `excluded`.
proof fn lemma_indices_avoiding(f: Seq<int>, n: int, excluded: int)
    requires
        0 <= excluded < n,
        f.no_duplicates(),
        forall|i: int| 0 <= i < f.len() ==> 0 <= #[trigger] f[i] < n && f[i] != excluded,
    ensures
        f.len() <= n - 1,
{
    vstd::set_lib::lemma_int_range(0, n);
    let range = vstd::set_lib::set_int_range(0, n).remove(excluded);
    assert(f.to_set().subset_of(range)) by {
        assert forall|x: int| f.to_set().contains(x) implies range.contains(x) by {
            assert(f.contains(x));
            let i = choose|i: int| 0 <= i < f.len() && f[i] == x;
            assert(0 <= f[i] < n && f[i] != excluded);
        }
    }
    f.unique_seq_to_set();
    vstd::set_lib::lemma_len_subset(f.to_set(), range);
}

/// A result kept after merging `new` again into `out` was already in `out`.
proof fn lemma_merged_again_from_out(
    prev: Seq<SearchResult>,
    new: Seq<SearchResult>,
    top_n: nat,
    out: Seq<SearchResult>,
    again: Seq<SearchResult>,
    k: int,
)
    requires
        top_ranked(out, prev + new, top_n),
        top_ranked(again, out + new, top_n),
        0 <= k < again.len(),
    ensures
        out.contains(again[k]),
{
    let p1 = prev + new;
    let p2 = out + new;
    assert(represented(p2, again[k]));
    let i = choose|i: int| #[trigger] picks(p2, i, again[k]);
    if i < out.len() {
        assert(p2[i] == out[i]);
    } else {
        let q = i - out.len();
        assert(p2[i] == new[q]);
        let j1 = prev.len() + q;
        assert(p1[j1] == new[q]);
        if listed(out, p1[j1]) {
            let kk = choose|kk: int| #[trigger] entry_at(out, kk, p1[j1]);
            assert(represented(p1, out[kk]));
            let i1 = choose|i1: int| #[trigger] picks(p1, i1, out[kk]);
            assert(same_entry(p1[j1], p1[i1]));
            assert(!rank_lt(new[q], out[kk]));
            assert(p2[kk] == out[kk]);
            assert(same_entry(p2[kk], p2[i]));
            assert(rank_lt(new[q], out[kk]));
            assert(false);
        } else {
            assert(out.len() == top_n);
            assert(forall|m: int| 0 <= m < out.len() ==> rank_lt(#[trigger] out[m], new[q]));
            assert forall|j: int| 0 <= j < out.len() implies #[trigger] listed(again, out[j]) by {
                assert(p2[j] == out[j]);
                if !listed(again, p2[j]) {
                    assert(rank_lt(again[k], out[j]));
                    lemma_rank_asymmetric(out[j], new[q]);
                }
            }
            let f = Seq::new(out.len(), |j: int| choose|m: int| #[trigger] entry_at(again, m, out[j]));
            assert forall|j: int| 0 <= j < f.len() implies #[trigger] entry_at(again, f[j], out[j]) by {
                assert(listed(again, out[j]));
            }
            assert forall|j: int| 0 <= j < f.len() implies 0 <= #[trigger] f[j] < again.len() && f[j] != k by {
                assert(entry_at(again, f[j], out[j]));
                if f[j] == k {
                    assert(entry_at(out, j, p1[j1]));
                    assert(listed(out, p1[j1]));
                }
            }
            assert(f.no_duplicates()) by {
                assert forall|a: int, b: int| 0 <= a < f.len() && 0 <= b < f.len() && a != b implies f[a] != f[b] by {
                    assert(entry_at(again, f[a], out[a]));
                    assert(entry_at(again, f[b], out[b]));
                    if f[a] == f[b] {
                        if a < b {
                            assert(!same_entry(out[a], out[b]));
                        } else {
                            assert(!same_entry(out[b], out[a]));
                        }
                    }
                }
            }
            lemma_indices_avoiding(f, again.len() as int, k);
        }
    }
}

/// Law: merging the same results again into the list they were merged into
/// leaves the list unchanged.
pub proof fn law_merge_again_keeps_ranking(
    prev: Seq<SearchResult>,
    new: Seq<SearchResult>,
    top_n: nat,
    out: Seq<SearchResult>,
    again: Seq<SearchResult>,
)
    requires
        top_ranked(out, prev + new, top_n),
        top_ranked(again, out + new, top_n),
    ensures
        again == out,
{
    let p2 = out + new;
    lemma_ranked_no_duplicates(out);
    lemma_ranked_no_duplicates(again);
    assert forall|k: int| 0 <= k < again.len() implies out.contains(#[trigger] again[k]) by {
        lemma_merged_again_from_out(prev, new, top_n, out, again, k);
    }
    assert forall|j: int| 0 <= j < out.len() implies again.contains(#[trigger] out[j]) by {
        assert(p2[j] == out[j]);
        if listed(again, out[j]) {
            let k = choose|k: int| #[trigger] entry_at(again, k, out[j]);
            assert(out.contains(again[k]));
            let i = choose|i: int| 0 <= i < out.len() && out[i] == again[k];
            if i != j {
                if i < j {
                    assert(!same_entry(out[i], out[j]));
                } else {
                    assert(!same_entry(out[j], out[i]));
                }
            }
        } else {
            assert(again.len() == top_n);
            assert forall|k: int| 0 <= k < again.len() implies #[trigger] again[k] != out[j] by {
                assert(rank_lt(again[k], out[j]));
                lemma_rank_irreflexive(again[k]);
            }
            assert(again.to_set().subset_of(out.to_set().remove(out[j]))) by {
                assert forall|x: SearchResult| again.to_set().contains(x) implies out.to_set().remove(out[j]).contains(x) by {
                    assert(again.contains(x));
                    let k = choose|k: int| 0 <= k < again.len() && again[k] == x;
                    assert(out.contains(again[k]));
                }
            }
            again.unique_seq_to_set();
            out.unique_seq_to_set();
            assert(out.to_set().contains(out[j]));
            vstd::set_lib::lemma_len_subset(again.to_set(), out.to_set().remove(out[j]));
            assert(false);
        }
    }
    assert forall|x: SearchResult| again.contains(x) <==> out.contains(x) by {
        if again.contains(x) {
            let k = choose|k: int| 0 <= k < again.len() && again[k] == x;
            assert(out.contains(again[k]));
        }
        if out.contains(x) {
            let j = choose|j: int| 0 <= j < out.len() && out[j] == x;
            assert(again.contains(out[j]));
        }
    }
    lemma_ranked_same_elements(again, out);
}

} // verus!
