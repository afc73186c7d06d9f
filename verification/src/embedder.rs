//! Turning payload texts into vectors: batching, pairing the vectors an embedder
//! returns with their payloads, and the choices made while loading a model.
use vstd::prelude::*;
use crate::ranking::bytes_lt;
use vstd::utf8::encode_utf8;

verus! {

broadcast use vstd::seq_lib::group_seq_properties;

/// Numerical precision of model weights.
#[derive(Clone, Copy, Debug, PartialEq, Eq, Structural)]
pub enum Dtype {
    F16,
    INT8,
    Q4,
    UINT8,
    BNB4,
    F32,
    Q4F16,
    QUANTIZED,
    BF16,
}

/// ASCII lowercase of one byte.
pub open spec fn lower_ascii(c: u8) -> u8 {
    if 65 <= c <= 90 {
        (c + 32) as u8
    } else {
        c
    }
}

/// The extensions, in lowercase, of the video files that are embedded as video.
pub open spec fn video_extensions() -> Seq<Seq<u8>> {
    seq![
        seq![109u8, 112, 52],
        seq![109u8, 111, 118],
        seq![97u8, 118, 105],
        seq![109u8, 107, 118],
        seq![119u8, 101, 98, 109],
        seq![109u8, 52, 118],
        seq![102u8, 108, 118],
        seq![119u8, 109, 118],
    ]
}

/// Whether `ext` equals `lower` once its ASCII letters are lowercased.
pub open spec fn equals_ignoring_ascii_case(ext: Seq<u8>, lower: Seq<u8>) -> bool {
    ext.len() == lower.len() && forall|i: int| 0 <= i < ext.len() ==> lower_ascii(#[trigger] ext[i]) == lower[i]
}

fn matches_lower(ext: &[u8], lower: &[u8]) -> (r: bool)
    ensures
        r == equals_ignoring_ascii_case(ext@, lower@),
{
    if ext.len() != lower.len() {
        return false;
    }
    let mut i: usize = 0;
    while i < ext.len()
        invariant
            ext@.len() == lower@.len(),
            i <= ext@.len(),
            forall|k: int| 0 <= k < i ==> lower_ascii(#[trigger] ext@[k]) == lower@[k],
        decreases ext@.len() - i,
    {
        let c = ext[i];
        let l = if 65 <= c && c <= 90 { c + 32 } else { c };
        if l != lower[i] {
            return false;
        }
        i = i + 1;
    }
    true
}

/// Whether a file extension names a video format (ASCII case ignored).
pub fn is_video_extension(extension: &str) -> (r: bool)
    ensures
        r == exists|k: int| 0 <= k < video_extensions().len() && equals_ignoring_ascii_case(
            encode_utf8(extension@),
            #[trigger] video_extensions()[k],
        ),
{
    let e = extension.as_bytes();
    let candidates: Vec<Vec<u8>> = vec![
        vec![109u8, 112, 52],
        vec![109u8, 111, 118],
        vec![97u8, 118, 105],
        vec![109u8, 107, 118],
        vec![119u8, 101, 98, 109],
        vec![109u8, 52, 118],
        vec![102u8, 108, 118],
        vec![119u8, 109, 118],
    ];
    proof {
        assert forall|j: int| 0 <= j < 8 implies (#[trigger] candidates@[j])@ == video_extensions()[j] by {
            assert(candidates@[0]@ =~= video_extensions()[0]);
            assert(candidates@[1]@ =~= video_extensions()[1]);
            assert(candidates@[2]@ =~= video_extensions()[2]);
            assert(candidates@[3]@ =~= video_extensions()[3]);
            assert(candidates@[4]@ =~= video_extensions()[4]);
            assert(candidates@[5]@ =~= video_extensions()[5]);
            assert(candidates@[6]@ =~= video_extensions()[6]);
            assert(candidates@[7]@ =~= video_extensions()[7]);
        }
    }
    proof {
        assert(e@ == encode_utf8(extension@));
    }
    let mut k: usize = 0;
    while k < 8
        invariant
            e@ == encode_utf8(extension@),
            k <= 8,
            candidates@.len() == 8,
            forall|j: int| 0 <= j < 8 ==> (#[trigger] candidates@[j])@ == video_extensions()[j],
            forall|j: int| 0 <= j < k ==> !equals_ignoring_ascii_case(e@, #[trigger] video_extensions()[j]),
        decreases 8 - k,
    {
        if matches_lower(e, candidates[k].as_slice()) {
            return true;
        }
        k = k + 1;
    }
    false
}

/// The batches of a sequence, as the vectorizer forms them: a batch is closed when
/// it holds `size` items and another item comes. With a size of 0 the first batch
/// is closed empty and the second takes everything.
pub open spec fn batched<T>(chunks: Seq<T>, size: nat, b: Seq<Seq<T>>) -> bool {
    &&& b.flatten() == chunks
    &&& chunks.len() == 0 ==> b.len() == 0
    &&& size > 0 ==> {
        &&& forall|i: int| 0 <= i < b.len() - 1 ==> (#[trigger] b[i]).len() == size
        &&& b.len() > 0 ==> 0 < b.last().len() <= size
    }
    &&& (size == 0 && chunks.len() > 0) ==> b == seq![Seq::<T>::empty(), chunks]
}

/// Split the payloads into batches of `batch_size` for the embedder.
pub fn make_batches<T>(chunks: Vec<T>, batch_size: usize) -> (batches: Vec<Vec<T>>)
    ensures
        batched(chunks@, batch_size as nat, batches@.map_values(|v: Vec<T>| v@)),
{
    let ghost all = chunks@;
    let mut batches: Vec<Vec<T>> = Vec::new();
    let mut batch: Vec<T> = Vec::new();
    let mut rest = chunks;
    let ghost mut done: int = 0;
    proof {
        assert(rest@ =~= all.subrange(0, all.len() as int));
        assert(batches@.map_values(|v: Vec<T>| v@) =~= Seq::<Seq<T>>::empty());
        assert(all.take(0) =~= Seq::<T>::empty());
    }
    while rest.len() > 0
        invariant
            0 <= done <= all.len(),
            rest@ == all.subrange(done, all.len() as int),
            batches@.map_values(|v: Vec<T>| v@).flatten() + batch@ == all.take(done),
            batch_size > 0 ==> forall|i: int| 0 <= i < batches@.len() ==> (#[trigger] batches@[i])@.len() == batch_size,
            batch_size > 0 ==> batch@.len() <= batch_size,
            batch_size > 0 && done > 0 ==> batch@.len() > 0,
            batch_size == 0 ==> (done == 0 ==> batches@.len() == 0 && batch@.len() == 0),
            batch_size == 0 ==> (done > 0 ==> batches@.len() == 1 && batches@[0]@.len() == 0 && batch@ == all.take(done)),
        decreases rest@.len(),
    {
        let chunk = rest.remove(0);
        let ghost before = batches@.map_values(|v: Vec<T>| v@);
        if batch.len() == batch_size {
            let mut fresh: Vec<T> = Vec::new();
            std::mem::swap(&mut fresh, &mut batch);
            batches.push(fresh);
            proof {
                assert(batches@.map_values(|v: Vec<T>| v@) =~= before.push(fresh@));
                before.lemma_flatten_push(fresh@);
            }
        }
        batch.push(chunk);
        proof {
            assert(chunk == all[done]);
            assert(all.take(done + 1) =~= all.take(done).push(chunk));
            done = done + 1;
            assert(rest@ =~= all.subrange(done, all.len() as int));
        }
    }
    proof {
        assert(all.take(done) =~= all);
    }
    if batch.len() > 0 {
        let ghost before = batches@.map_values(|v: Vec<T>| v@);
        let ghost last = batch@;
        batches.push(batch);
        proof {
            assert(batches@.map_values(|v: Vec<T>| v@) =~= before.push(last));
            before.lemma_flatten_push(last);
        }
    }
    proof {
        let b = batches@.map_values(|v: Vec<T>| v@);
        if all.len() == 0 {
            assert(b.len() == 0);
        }
        if batch_size == 0 && all.len() > 0 {
            assert(b[0] =~= Seq::<T>::empty());
            assert(b[1] == all);
            assert(b =~= seq![Seq::<T>::empty(), all]);
        }
        assert(b.flatten() =~= all);
    }
    batches
}

/// A payload with the vector the embedder made of its text.
pub struct EmbeddedPayload<V> {
    pub id: u128,
    pub texts: String,
    pub vector: V,
}

/// Give each payload, in order, the vector at the same position; payloads past
/// the last vector keep theirs, and vectors past the last payload are dropped.
pub fn attach_vectors<V>(payloads: Vec<EmbeddedPayload<V>>, vectors: Vec<V>) -> (out: Vec<EmbeddedPayload<V>>)
    ensures
        out@.len() == payloads@.len(),
        forall|i: int| 0 <= i < out@.len() ==> (#[trigger] out@[i]).id == payloads@[i].id && out@[i].texts == payloads@[i].texts,
        forall|i: int| 0 <= i < out@.len() ==> (#[trigger] out@[i]).vector == (if i < vectors@.len() { vectors@[i] } else { payloads@[i].vector }),
{
    let ghost ps = payloads@;
    let ghost vs = vectors@;
    let mut out: Vec<EmbeddedPayload<V>> = Vec::new();
    let mut rest = payloads;
    let mut vrest = vectors;
    let ghost mut done: int = 0;
    proof {
        assert(rest@ =~= ps.subrange(0, ps.len() as int));
        assert(vrest@ =~= vs.subrange(0, vs.len() as int));
    }
    while rest.len() > 0
        invariant
            0 <= done <= ps.len(),
            rest@ == ps.subrange(done, ps.len() as int),
            vrest@ == (if done <= vs.len() { vs.subrange(done, vs.len() as int) } else { Seq::empty() }),
            out@.len() == done,
            forall|i: int| 0 <= i < done ==> (#[trigger] out@[i]).id == ps[i].id && out@[i].texts == ps[i].texts,
            forall|i: int| 0 <= i < done ==> (#[trigger] out@[i]).vector == (if i < vs.len() { vs[i] } else { ps[i].vector }),
        decreases rest@.len(),
    {
        let mut p = rest.remove(0);
        if vrest.len() > 0 {
            let v = vrest.remove(0);
            p.vector = v;
        }
        out.push(p);
        proof {
            done = done + 1;
            assert(rest@ =~= ps.subrange(done, ps.len() as int));
            if done <= vs.len() {
                assert(vrest@ =~= vs.subrange(done, vs.len() as int));
            }
        }
    }
    out
}

/// The results of all batches, in order: the first failure, or all payloads.
pub fn join_batch_results<T, E>(results: Vec<Result<Vec<T>, E>>) -> (r: Result<Vec<T>, E>)
    ensures
        r is Ok <==> forall|i: int| 0 <= i < results@.len() ==> (#[trigger] results@[i]) is Ok,
        r matches Ok(v) ==> v@ == results@.map_values(|x: Result<Vec<T>, E>| match x { Ok(b) => b@, Err(_) => Seq::<T>::empty() }).flatten(),
        r matches Err(e) ==> exists|i: int| 0 <= i < results@.len() && (#[trigger] results@[i]) == Err::<Vec<T>, E>(e) && forall|j: int| 0 <= j < i ==> results@[j] is Ok,
{
    let ghost all = results@;
    assert(all == results@);
    let ghost f = |x: Result<Vec<T>, E>| match x { Ok(b) => b@, Err(_) => Seq::<T>::empty() };
    let mut chunks: Vec<T> = Vec::new();
    let mut rest = results;
    let ghost mut done: int = 0;
    proof {
        assert(rest@ =~= all.subrange(0, all.len() as int));
        assert(all.take(0).map_values(f) =~= Seq::<Seq<T>>::empty());
    }
    while rest.len() > 0
        invariant
            0 <= done <= all.len(),
            all == results@,
            f == (|x: Result<Vec<T>, E>| match x { Ok(b) => b@, Err(_) => Seq::<T>::empty() }),
            rest@ == all.subrange(done, all.len() as int),
            forall|j: int| 0 <= j < done ==> all[j] is Ok,
            chunks@ == all.take(done).map_values(f).flatten(),
        decreases rest@.len(),
    {
        let item = rest.remove(0);
        proof {
            assert(item == all[done]);
        }
        match item {
            Ok(mut batch) => {
                let ghost b = batch@;
                chunks.append(&mut batch);
                proof {
                    assert(all.take(done + 1).map_values(f) =~= all.take(done).map_values(f).push(b));
                    all.take(done).map_values(f).lemma_flatten_push(b);
                    done = done + 1;
                    assert(rest@ =~= all.subrange(done, all.len() as int));
                }
            },
            Err(e) => {
                proof {
                    assert(all[done] == Err::<Vec<T>, E>(e));
                    assert(!(all[done] is Ok));
                }
                return Err(e);
            },
        }
    }
    proof {
        assert(all.take(done) =~= all);
    }
    Ok(chunks)
}

/// What an embedding model returns for one input.
pub enum EmbeddingResult<V, M> {
    DenseVector(V),
    MultiVector(M),
}

/// The local embedder; `E` is the model it runs.
pub struct Native<E> {
    pub anything_embedder: E,
}

/// The dense vectors, in order, when every result is one.
pub open spec fn all_dense<V, M>(results: Seq<EmbeddingResult<V, M>>) -> bool {
    forall|i: int| 0 <= i < results.len() ==> (#[trigger] results[i]) is DenseVector
}

impl<E> Native<E> {
    /// Whether the model has to be asked at all: there is nothing to embed for an
    /// empty batch, whose result is no vectors.
    pub fn needs_model(query_count: usize) -> (b: bool)
        ensures
            b == (query_count > 0),
    {
        query_count > 0
    }

    /// The vectors of the model's results: `None` (multi-vector embeddings are not
    /// supported) when one of them is not a dense vector.
    pub fn dense_vectors<V, M>(results: Vec<EmbeddingResult<V, M>>) -> (r: Option<Vec<V>>)
        ensures
            r is Some <==> all_dense(results@),
            r matches Some(v) ==> v@.len() == results@.len() && forall|i: int| 0 <= i < v@.len() ==> (#[trigger] results@[i]) == EmbeddingResult::<V, M>::DenseVector(v@[i]),
    {
        let ghost all = results@;
        let mut out: Vec<V> = Vec::new();
        let mut rest = results;
        let ghost mut done: int = 0;
        proof {
            assert(rest@ =~= all.subrange(0, all.len() as int));
        }
        while rest.len() > 0
            invariant
                0 <= done <= all.len(),
                all == results@,
                rest@ == all.subrange(done, all.len() as int),
                out@.len() == done,
                forall|i: int| 0 <= i < done ==> (#[trigger] all[i]) == EmbeddingResult::<V, M>::DenseVector(out@[i]),
            decreases rest@.len(),
        {
            let item = rest.remove(0);
            proof {
                assert(item == all[done]);
            }
            match item {
                EmbeddingResult::DenseVector(v) => {
                    out.push(v);
                    proof {
                        done = done + 1;
                        assert(rest@ =~= all.subrange(done, all.len() as int));
                    }
                },
                EmbeddingResult::MultiVector(_) => {
                    proof {
                        assert(!(all[done] is DenseVector));
                        assert(!all_dense(all));
                    }
                    return None;
                },
            }
        }
        Some(out)
    }
}

/// The endpoint to download models from: the default hub when it can be reached,
/// otherwise the mirror.
pub fn hub_endpoint(connected: bool, mirror: &'static str) -> (r: Option<&'static str>)
    ensures
        connected ==> r is None,
        !connected ==> r == Some(mirror),
{
    if connected {
        None
    } else {
        Some(mirror)
    }
}

/// The mirror used when the hub cannot be reached.
pub const HUGGINGFACE_CHINESE_MIRROR: &'static str = "https://hf-mirror.com";

/// How a download of one candidate file went.
pub enum DownloadOutcome<P, X> {
    Found(P),
    Missing(X),
    Failed(X),
}

/// What to do after a candidate's download: take the file, try the next one
/// (remembering why this one is missing), or give up with the error.
pub enum Lookup<P, X> {
    Done(P),
    TryNext(X),
    Stop(X),
}

/// Trying candidate files in order: the first that exists is taken, a missing one
/// moves on, any other error ends the search.
pub fn next_lookup<P, X>(outcome: DownloadOutcome<P, X>) -> (r: Lookup<P, X>)
    ensures
        outcome matches DownloadOutcome::Found(p) ==> r == Lookup::<P, X>::Done(p),
        outcome matches DownloadOutcome::Missing(x) ==> r == Lookup::<P, X>::TryNext(x),
        outcome matches DownloadOutcome::Failed(x) ==> r == Lookup::<P, X>::Stop(x),
{
    match outcome {
        DownloadOutcome::Found(p) => Lookup::Done(p),
        DownloadOutcome::Missing(x) => Lookup::TryNext(x),
        DownloadOutcome::Failed(x) => Lookup::Stop(x),
    }
}

/// Why no candidate file could be had.
pub enum LookupFailure<X> {
    /// There was no candidate to try.
    NoCandidates,
    /// Every candidate was missing; the error of the last one.
    LastMissing(X),
    /// A download failed for another reason; its error.
    Failed(X),
}

/// The outcome of trying the candidates in order, `missing` being the error of
/// the last missing candidate before them: the first file found, or the first
/// failure other than a missing file, or, when all are missing, the last such
/// error.
pub open spec fn first_available_of<P, X>(outcomes: Seq<DownloadOutcome<P, X>>, missing: Option<X>) -> Result<
    P,
    LookupFailure<X>,
>
    decreases outcomes.len(),
{
    if outcomes.len() == 0 {
        match missing {
            Some(x) => Err(LookupFailure::LastMissing(x)),
            None => Err(LookupFailure::NoCandidates),
        }
    } else {
        match outcomes[0] {
            DownloadOutcome::Found(p) => Ok(p),
            DownloadOutcome::Failed(x) => Err(LookupFailure::Failed(x)),
            DownloadOutcome::Missing(x) => first_available_of(outcomes.drop_first(), Some(x)),
        }
    }
}

/// Law: the file taken is that of a candidate found after only missing ones; a
/// failure reported is the first failure, after only missing candidates; the
/// last-missing error is reported only when every candidate is missing, and is
/// the last one's; and "no candidates" only for an empty list.
pub proof fn law_first_available_takes_the_first_found<P, X>(outcomes: Seq<DownloadOutcome<P, X>>, missing: Option<X>)
    ensures
        first_available_of(outcomes, missing) matches Ok(p) ==> exists|k: int|
            0 <= k < outcomes.len() && outcomes[k] == DownloadOutcome::<P, X>::Found(p) && #[trigger] all_missing(outcomes, k),
        first_available_of(outcomes, missing) matches Err(LookupFailure::Failed(x)) ==> exists|k: int|
            0 <= k < outcomes.len() && outcomes[k] == DownloadOutcome::<P, X>::Failed(x) && #[trigger] all_missing(outcomes, k),
        first_available_of(outcomes, missing) matches Err(LookupFailure::LastMissing(x)) ==> all_missing(outcomes, outcomes.len() as int)
            && (if outcomes.len() > 0 {
            outcomes.last() == DownloadOutcome::<P, X>::Missing(x)
        } else {
            missing == Some(x)
        }),
        first_available_of(outcomes, missing) matches Err(LookupFailure::NoCandidates) ==> outcomes.len() == 0 && missing is None,
    decreases outcomes.len(),
{
    if outcomes.len() > 0 {
        let rest = outcomes.drop_first();
        match outcomes[0] {
            DownloadOutcome::Found(p) => {
                assert(all_missing(outcomes, 0));
            },
            DownloadOutcome::Failed(x) => {
                assert(all_missing(outcomes, 0));
            },
            DownloadOutcome::Missing(x) => {
                law_first_available_takes_the_first_found(rest, Some(x));
                let r = first_available_of(rest, Some(x));
                assert(first_available_of(outcomes, missing) == r);
                assert forall|k: int| 0 <= k < rest.len() && all_missing(rest, k) implies all_missing(outcomes, k + 1) by {
                    assert forall|j: int| 0 <= j < k + 1 implies outcomes[j] is Missing by {
                        if j > 0 {
                            assert(outcomes[j] == rest[j - 1]);
                        }
                    }
                }
                match r {
                    Ok(p) => {
                        let k = choose|k: int| 0 <= k < rest.len() && rest[k] == DownloadOutcome::<P, X>::Found(p) && #[trigger] all_missing(rest, k);
                        assert(outcomes[k + 1] == rest[k]);
                        assert(all_missing(outcomes, k + 1));
                    },
                    Err(LookupFailure::Failed(y)) => {
                        let k = choose|k: int| 0 <= k < rest.len() && rest[k] == DownloadOutcome::<P, X>::Failed(y) && #[trigger] all_missing(rest, k);
                        assert(outcomes[k + 1] == rest[k]);
                        assert(all_missing(outcomes, k + 1));
                    },
                    Err(LookupFailure::LastMissing(y)) => {
                        assert forall|j: int| 0 <= j < outcomes.len() implies outcomes[j] is Missing by {
                            if j > 0 {
                                assert(outcomes[j] == rest[j - 1]);
                            }
                        }
                        if rest.len() > 0 {
                            assert(outcomes.last() == rest.last());
                        }
                    },
                    Err(LookupFailure::NoCandidates) => {},
                }
            },
        }
    }
}

/// The first `k` outcomes are missing files.
pub open spec fn all_missing<P, X>(outcomes: Seq<DownloadOutcome<P, X>>, k: int) -> bool {
    forall|j: int| 0 <= j < k ==> (#[trigger] outcomes[j]) is Missing
}

/// The first available file among the candidates, given how the download of each
/// went, in order (`HubModelRepo::first_available`): the search stops at the first
/// file found or the first failure other than a missing file; when every candidate
/// is missing the last one's error is reported, and with no candidates at all
/// `NoCandidates`.
pub fn first_available<P, X>(outcomes: Vec<DownloadOutcome<P, X>>) -> (r: Result<P, LookupFailure<X>>)
    ensures
        r == first_available_of(outcomes@, None),
{
    let ghost all = outcomes@;
    let mut rest = outcomes;
    let mut missing: Option<X> = None;
    while rest.len() > 0
        invariant
            all == outcomes@,
            first_available_of(rest@, missing) == first_available_of(all, None),
        decreases rest@.len(),
    {
        let ghost before = rest@;
        let outcome = rest.remove(0);
        proof {
            assert(outcome == before[0]);
            assert(rest@ =~= before.drop_first());
        }
        match next_lookup(outcome) {
            Lookup::Done(p) => return Ok(p),
            Lookup::Stop(x) => return Err(LookupFailure::Failed(x)),
            Lookup::TryNext(x) => {
                missing = Some(x);
            },
        }
    }
    match missing {
        Some(x) => Err(LookupFailure::LastMissing(x)),
        None => Err(LookupFailure::NoCandidates),
    }
}

/// Strictly ascending in byte order.
pub open spec fn strictly_sorted(s: Seq<Seq<u8>>) -> bool {
    forall|i: int, j: int| 0 <= i < j < s.len() ==> bytes_lt(#[trigger] s[i], #[trigger] s[j])
}

fn bytes_compare_lt(a: &str, b: &str) -> (r: bool)
    ensures
        r == bytes_lt(encode_utf8(a@), encode_utf8(b@)),
{
    crate::ranking::str_before(a, b)
}

/// The names of the shard files listed in an index, sorted and without repeats
/// (`sort_unstable` then `dedup`).
pub fn shard_filenames(names: Vec<String>) -> (out: Vec<String>)
    ensures
        strictly_sorted(out@.map_values(|s: String| encode_utf8(s@))),
        forall|x: Seq<char>| #[trigger] name_in(out@, x) <==> name_in(names@, x),
{
    let ghost all = names@;
    let mut out: Vec<String> = Vec::new();
    let mut rest = names;
    let ghost mut done: int = 0;
    proof {
        assert(rest@ =~= all.subrange(0, all.len() as int));
    }
    while rest.len() > 0
        invariant
            0 <= done <= all.len(),
            rest@ == all.subrange(done, all.len() as int),
            strictly_sorted(out@.map_values(|s: String| encode_utf8(s@))),
            forall|x: Seq<char>| #[trigger] name_in(out@, x) <==> name_in(all.take(done), x),
        decreases rest@.len(),
    {
        let name = rest.remove(0);
        proof {
            assert(name == all[done]);
            assert(all.take(done + 1) =~= all.take(done).push(name));
        }
        let ghost before = out@;
        insert_sorted_name(&mut out, name);
        proof {
            assert forall|x: Seq<char>| #[trigger] name_in(out@, x) <==> name_in(all.take(done + 1), x) by {
                lemma_name_in_push(all.take(done), name, x);
                lemma_name_in_push(before, name, x);
            }
            done = done + 1;
            assert(rest@ =~= all.subrange(done, all.len() as int));
        }
    }
    proof {
        assert(all.take(done) =~= all);
    }
    out
}

/// Some name in `s` reads `x`.
pub open spec fn name_in(s: Seq<String>, x: Seq<char>) -> bool {
    exists|i: int| 0 <= i < s.len() && #[trigger] s[i]@ == x
}

proof fn lemma_name_in_push(s: Seq<String>, n: String, x: Seq<char>)
    ensures
        name_in(s.push(n), x) <==> (name_in(s, x) || n@ == x),
{
    if name_in(s.push(n), x) {
        let i = choose|i: int| 0 <= i < s.push(n).len() && #[trigger] s.push(n)[i]@ == x;
        if i < s.len() {
            assert(s[i] == s.push(n)[i]);
        }
    }
    if name_in(s, x) {
        let i = choose|i: int| 0 <= i < s.len() && #[trigger] s[i]@ == x;
        assert(s.push(n)[i] == s[i]);
    }
    if n@ == x {
        assert(s.push(n)[s.len() as int] == n);
    }
}

/// Insert a name at its place in a strictly sorted list, unless it is there.
fn insert_sorted_name(out: &mut Vec<String>, name: String)
    requires
        strictly_sorted(old(out)@.map_values(|s: String| encode_utf8(s@))),
    ensures
        strictly_sorted(final(out)@.map_values(|s: String| encode_utf8(s@))),
        forall|x: Seq<char>| #[trigger] name_in(final(out)@, x) <==> name_in(old(out)@.push(name), x),
{
    let ghost before = out@;
    let ghost keys = before.map_values(|s: String| encode_utf8(s@));
    let mut pos: usize = 0;
    while pos < out.len() && bytes_compare_lt(out[pos].as_str(), name.as_str())
        invariant
            out@ == before,
            keys == before.map_values(|s: String| encode_utf8(s@)),
            pos <= before.len(),
            forall|m: int| 0 <= m < pos ==> bytes_lt(#[trigger] keys[m], encode_utf8(name@)),
        decreases before.len() - pos,
    {
        pos = pos + 1;
    }
    if pos < out.len() && crate::states::str_equal(out[pos].as_str(), name.as_str()) {
        proof {
            assert forall|x: Seq<char>| #[trigger] name_in(out@, x) <==> name_in(before.push(name), x) by {
                lemma_name_in_push(before, name, x);
                if name@ == x {
                    assert(out@[pos as int]@ == x);
                }
            }
        }
        return;
    }
    proof {
        let k = encode_utf8(name@);
        if pos < before.len() {
            crate::ranking::lemma_bytes_lt_total(keys[pos as int], k);
            assert(keys[pos as int] != k) by {
                vstd::utf8::encode_utf8_decode_utf8(before[pos as int]@);
                vstd::utf8::encode_utf8_decode_utf8(name@);
            }
        }
        assert forall|m: int| pos <= m < before.len() implies bytes_lt(k, #[trigger] keys[m]) by {
            if m > pos {
                crate::ranking::lemma_bytes_lt_transitive(k, keys[pos as int], keys[m]);
            }
        }
    }
    out.insert(pos, name);
    proof {
        let after = out@;
        let ak = after.map_values(|s: String| encode_utf8(s@));
        assert forall|a: int, b: int| 0 <= a < b < ak.len() implies bytes_lt(#[trigger] ak[a], #[trigger] ak[b]) by {
            if a != pos && b != pos {
                let a2 = if a < pos { a } else { a - 1 };
                let b2 = if b < pos { b } else { b - 1 };
                assert(after[a] == before[a2] && after[b] == before[b2]);
                assert(ak[a] == keys[a2] && ak[b] == keys[b2]);
            } else if a == pos {
                assert(after[b] == before[b - 1]);
                assert(ak[b] == keys[b - 1]);
            } else {
                assert(after[a] == before[a]);
                assert(ak[a] == keys[a]);
            }
        }
        assert forall|x: Seq<char>| #[trigger] name_in(after, x) <==> name_in(before.push(name), x) by {
            lemma_name_in_push(before, name, x);
            if name@ == x {
                assert(after[pos as int]@ == x);
            }
            if name_in(after, x) {
                let i = choose|i: int| 0 <= i < after.len() && #[trigger] after[i]@ == x;
                if i == pos {
                    assert(after[i] == name);
                } else if i < pos {
                    assert(after[i] == before[i]);
                } else if i > pos {
                    assert(after[i] == before[i - 1]);
                }
            }
            if name_in(before, x) {
                let i = choose|i: int| 0 <= i < before.len() && #[trigger] before[i]@ == x;
                if i < pos {
                    assert(after[i] == before[i]);
                } else {
                    assert(after[i + 1] == before[i]);
                }
            }
        }
    }
}

/// What `serde_json::from_slice::<serde_json::Value>` reads from the bytes, taken
/// to the values of the object under the field `field` of the top-level object,
/// in the order of their keys (serde_json keeps objects sorted by key unless its
/// `preserve_order` feature is on, and it is off here), each as its text when it
/// is a string and `None` otherwise; `None` when the bytes are not JSON or the
/// field is missing or not an object.
pub uninterp spec fn json_field_values(bytes: Seq<u8>, field: Seq<char>) -> Option<Seq<Option<Seq<char>>>>;

/// The texts of the optional strings, one for one.
pub open spec fn option_texts(v: Seq<Option<String>>) -> Seq<Option<Seq<char>>> {
    v.map_values(|o: Option<String>| match o {
        Some(s) => Some(s@),
        None => None,
    })
}

/// `serde_json::from_slice` into a `serde_json::Value`, then `Value::get(field)`,
/// `Value::as_object`, and `Value::as_str` of each of the object's values, one for
/// one. The result is named `json_field_values`.
#[verifier::external_body]
fn field_values(bytes: &[u8], field: &str) -> (r: Option<Vec<Option<String>>>)
    ensures
        r is None <==> json_field_values(bytes@, field@) is None,
        r matches Some(v) ==> json_field_values(bytes@, field@) == Some(option_texts(v@)),
{
    let value: serde_json::Value = serde_json::from_slice(bytes).ok()?;
    let object = value.get(field)?.as_object()?;
    Some(object.values().map(|v| v.as_str().map(str::to_owned)).collect())
}

/// One of the first `n` values is the string `x`.
pub open spec fn string_before(vals: Seq<Option<Seq<char>>>, n: int, x: Seq<char>) -> bool {
    exists|k: int| 0 <= k < n && #[trigger] vals[k] == Some(x)
}

/// The strings among the values, in order; values that are not strings are
/// passed over.
fn present_strings(values: Vec<Option<String>>) -> (names: Vec<String>)
    ensures
        forall|x: Seq<char>| #[trigger] name_in(names@, x) <==> string_before(option_texts(values@), values@.len() as int, x),
{
    let ghost all = option_texts(values@);
    let ghost n = values@.len();
    let mut names: Vec<String> = Vec::new();
    let mut rest = values;
    let ghost mut done: int = 0;
    proof {
        assert(option_texts(rest@) =~= all.subrange(0, n as int));
    }
    while rest.len() > 0
        invariant
            0 <= done <= n,
            all.len() == n,
            option_texts(rest@) == all.subrange(done, n as int),
            rest@.len() == n - done,
            forall|x: Seq<char>| #[trigger] name_in(names@, x) <==> string_before(all, done, x),
        decreases rest@.len(),
    {
        let ghost before = names@;
        assert(forall|x: Seq<char>| #[trigger] name_in(before, x) <==> string_before(all, done, x));
        let ghost r0 = rest@;
        let o = rest.remove(0);
        proof {
            assert(option_texts(r0)[0] == all[done]);
            assert(o == r0[0]);
            assert(option_texts(rest@) =~= all.subrange(done + 1, n as int)) by {
                assert(rest@ =~= r0.drop_first());
                assert forall|j: int| 0 <= j < rest@.len() implies option_texts(rest@)[j] == all.subrange(done + 1, n as int)[j] by {
                    assert(option_texts(rest@)[j] == option_texts(r0)[j + 1]);
                }
            }
        }
        match o {
            Some(t) => {
                names.push(t);
                proof {
                    assert forall|x: Seq<char>| #[trigger] name_in(names@, x) <==> string_before(all, done + 1, x) by {
                        if name_in(names@, x) {
                            let i = choose|i: int| 0 <= i < names@.len() && #[trigger] names@[i]@ == x;
                            if i < before.len() {
                                assert(before[i]@ == x);
                                assert(name_in(before, x));
                            } else {
                                assert(all[done] == Some(x));
                            }
                        }
                        if string_before(all, done + 1, x) {
                            let k = choose|k: int| 0 <= k < done + 1 && #[trigger] all[k] == Some(x);
                            if k < done {
                                assert(string_before(all, done, x));
                                assert(name_in(before, x));
                                let i = choose|i: int| 0 <= i < before.len() && #[trigger] before[i]@ == x;
                                assert(names@[i]@ == x);
                            } else {
                                assert(names@[before.len() as int]@ == x);
                            }
                        }
                    }
                }
            },
            None => {
                proof {
                    assert forall|x: Seq<char>| #[trigger] name_in(names@, x) <==> string_before(all, done + 1, x) by {
                        if string_before(all, done + 1, x) {
                            let k = choose|k: int| 0 <= k < done + 1 && #[trigger] all[k] == Some(x);
                            assert(k < done);
                        }
                        if string_before(all, done, x) {
                            let k = choose|k: int| 0 <= k < done && #[trigger] all[k] == Some(x);
                            assert(string_before(all, done + 1, x));
                        }
                    }
                }
            },
        }
        proof {
            done = done + 1;
        }
    }
    names
}

/// The shard files that a safetensors index lists under `weight_map`, sorted and
/// without repeats (values that are not strings are passed over); `None` when the
/// index is not JSON or has no `weight_map` object.
pub fn weight_map_files(index: &[u8]) -> (r: Option<Vec<String>>)
    ensures
        r is None <==> json_field_values(index@, "weight_map"@) is None,
        r matches Some(v) ==> {
            &&& strictly_sorted(v@.map_values(|s: String| encode_utf8(s@)))
            &&& forall|x: Seq<char>| #[trigger] name_in(v@, x) <==> json_field_values(index@, "weight_map"@).unwrap().contains(Some(x))
        },
{
    let values = match field_values(index, "weight_map") {
        Some(v) => v,
        None => return None,
    };
    let ghost vals = option_texts(values@);
    let names = present_strings(values);
    let out = shard_filenames(names);
    proof {
        assert forall|x: Seq<char>| #[trigger] name_in(out@, x) <==> vals.contains(Some(x)) by {
            if vals.contains(Some(x)) {
                let k = choose|k: int| 0 <= k < vals.len() && vals[k] == Some(x);
                assert(string_before(vals, vals.len() as int, x));
            }
            if string_before(vals, vals.len() as int, x) {
                let k = choose|k: int| 0 <= k < vals.len() && #[trigger] vals[k] == Some(x);
                assert(vals.contains(Some(x)));
            }
        }
    }
    Some(out)
}

/// The query's vector: the first vector the embedder returned, when there is one
/// and it is not empty.
pub fn query_vector<X>(vectors: Vec<Vec<X>>) -> (r: Option<Vec<X>>)
    ensures
        (vectors@.len() > 0 && vectors@[0]@.len() > 0) ==> (r matches Some(v) && v@ == vectors@[0]@),
        !(vectors@.len() > 0 && vectors@[0]@.len() > 0) ==> r is None,
{
    let mut vs = vectors;
    if vs.len() == 0 {
        return None;
    }
    let first = vs.remove(0);
    if first.len() == 0 {
        None
    } else {
        Some(first)
    }
}

} // verus!
