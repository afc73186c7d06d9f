//! Block ids written as text, as tools and the user interface pass them.
use vstd::prelude::*;

verus! {

/// The id that `uuid::Uuid::parse_str` reads from the text, as a `u128`, or
/// `None` when it rejects the text.
pub uninterp spec fn parsed_uuid(text: Seq<char>) -> Option<u128>;

/// `uuid::Uuid::parse_str`, its result taken as a `u128` (`Uuid::as_u128`). The
/// formats it accepts are not restated here: the result is named `parsed_uuid`.
#[verifier::external_body]
fn parse_uuid(text: &str) -> (r: Option<u128>)
    ensures
        r == parsed_uuid(text@),
{
    match uuid::Uuid::parse_str(text) {
        Ok(id) => Some(id.as_u128()),
        Err(_) => None,
    }
}

/// A block id that could not be read.
pub struct InvalidBlockId {
    pub text: String,
}

impl InvalidBlockId {
    /// The error's message: ``Invalid block ID `<text>` ``.
    pub fn message(&self) -> (s: String)
        ensures
            s@ == "Invalid block ID `"@ + self.text@ + "`"@,
    {
        let mut s = String::from_str("Invalid block ID `");
        s.append(self.text.as_str());
        s.append("`");
        s
    }
}

/// The ids read from the texts, given what the parser made of each: all of them
/// in order, or the first text it rejected.
pub fn collect_block_ids(texts: Vec<String>, parsed: Vec<Option<u128>>) -> (r: Result<Vec<u128>, InvalidBlockId>)
    requires
        parsed@.len() == texts@.len(),
    ensures
        r matches Ok(ids) ==> ids@.len() == texts@.len() && forall|i: int| 0 <= i < ids@.len() ==> (#[trigger] parsed@[i]) == Some(ids@[i]),
        r matches Err(e) ==> exists|i: int| 0 <= i < texts@.len() && (#[trigger] parsed@[i]) is None && texts@[i] == e.text
            && forall|j: int| 0 <= j < i ==> parsed@[j] is Some,
{
    let ghost ts = texts@;
    let ghost ps = parsed@;
    let mut ids: Vec<u128> = Vec::new();
    let mut rest = texts;
    let mut i: usize = 0;
    proof {
        assert(rest@ =~= ts.subrange(0, ts.len() as int));
    }
    while i < parsed.len()
        invariant
            ps == parsed@,
            ps.len() == ts.len(),
            ts == texts@,
            i <= ps.len(),
            rest@ == ts.subrange(i as int, ts.len() as int),
            ids@.len() == i,
            forall|k: int| 0 <= k < i ==> (#[trigger] ps[k]) == Some(ids@[k]),
        decreases ps.len() - i,
    {
        let text = rest.remove(0);
        proof {
            assert(text == ts[i as int]);
        }
        match parsed[i] {
            Some(id) => ids.push(id),
            None => {
                return Err(InvalidBlockId { text });
            },
        }
        i = i + 1;
        proof {
            assert(rest@ =~= ts.subrange(i as int, ts.len() as int));
        }
    }
    Ok(ids)
}

/// Read the block ids in the texts: all of them, or the first text that is not one.
pub fn parse_block_ids(texts: Vec<String>) -> (r: Result<Vec<u128>, InvalidBlockId>)
    ensures
        r matches Ok(ids) ==> ids@.len() == texts@.len() && forall|i: int| 0 <= i < ids@.len() ==> parsed_uuid(#[trigger] texts@[i]@) == Some(ids@[i]),
        r matches Err(e) ==> exists|i: int| 0 <= i < texts@.len() && parsed_uuid(#[trigger] texts@[i]@) is None && texts@[i] == e.text
            && forall|j: int| 0 <= j < i ==> parsed_uuid(texts@[j]@) is Some,
{
    let mut parsed: Vec<Option<u128>> = Vec::new();
    let mut i: usize = 0;
    while i < texts.len()
        invariant
            i <= texts@.len(),
            parsed@.len() == i,
            forall|k: int| 0 <= k < i ==> (#[trigger] parsed@[k]) == parsed_uuid(texts@[k]@),
        decreases texts@.len() - i,
    {
        parsed.push(parse_uuid(texts[i].as_str()));
        i = i + 1;
    }
    let ghost ts = texts@;
    let ghost ps = parsed@;
    let r = collect_block_ids(texts, parsed);
    proof {
        if r is Ok {
            let ids = r->Ok_0;
            assert forall|i: int| 0 <= i < ids@.len() implies parsed_uuid(#[trigger] ts[i]@) == Some(ids@[i]) by {
                assert(ps[i] == Some(ids@[i]));
            }
        }
        if r is Err {
            let e = r->Err_0;
            let i = choose|i: int| 0 <= i < ts.len() && (#[trigger] ps[i]) is None && ts[i] == e.text
                && forall|j: int| 0 <= j < i ==> ps[j] is Some;
            assert(parsed_uuid(ts[i]@) is None);
            assert forall|j: int| 0 <= j < i implies parsed_uuid(ts[j]@) is Some by {
                assert(ps[j] is Some);
            }
        }
    }
    r
}

/// Which blocks a read asks for.
pub enum BlockQuery {
    All,
    ByIds(Vec<u128>),
}

/// A read of the given blocks; no ids means all blocks.
pub fn read_filter(block_ids: Vec<u128>) -> (q: BlockQuery)
    ensures
        block_ids@.len() == 0 ==> q is All,
        block_ids@.len() > 0 ==> (q matches BlockQuery::ByIds(v) && v@ == block_ids@),
{
    if block_ids.len() == 0 {
        BlockQuery::All
    } else {
        BlockQuery::ByIds(block_ids)
    }
}

} // verus!
