//! The decisions of the block tasks (create, delete, update, re-parent, import,
//! export): what each task reports when it starts and when it ends, which files
//! are imported, how blocks are re-parented and how exported files are named.
use vstd::prelude::*;
use vstd::string::StringSliceAdditionalSpecFns;
use vstd::utf8::*;
use crate::text::{decimal, fill_count, fill_placeholder, fill_placeholders};
use crate::tracker::{TaskInformation, TaskResult, TaskType};

verus! {

broadcast use vstd::utf8::group_utf8_lib;

/// The result reported when a task fails: the failure template with the error
/// put in its placeholders.
pub fn failure_result(task_id: u128, task_type: TaskType, template: &str, error: &str) -> (r: TaskResult)
    ensures
        r.id == task_id,
        !r.status,
        r.task_type == task_type,
        r.data is None,
        r.message@ == decode_utf8(fill_placeholders(template.spec_bytes(), error.spec_bytes())),
{
    TaskResult::new(task_id, false, fill_placeholder(template, error), task_type, None)
}

/// The result reported when a task on `n` blocks succeeds.
pub fn count_success_result(task_id: u128, task_type: TaskType, template: &str, n: usize) -> (r: TaskResult)
    ensures
        r.id == task_id,
        r.status,
        r.task_type == task_type,
        r.data is None,
        r.message@ == decode_utf8(fill_placeholders(template.spec_bytes(), decimal(n as nat))),
{
    TaskResult::new(task_id, true, fill_count(template, n), task_type, None)
}

/// The task announced when work on `n` blocks starts.
pub fn count_task(template: &str, n: usize, task_type: TaskType, long_running: bool) -> (t: TaskInformation)
    ensures
        t.task_type == task_type,
        t.long_running == long_running,
        t.message@ == decode_utf8(fill_placeholders(template.spec_bytes(), decimal(n as nat))),
{
    TaskInformation::new(fill_count(template, n), task_type, long_running)
}

/// How a block task ends: `Ok` with nothing, or the text of the error.
pub fn block_task_result(
    task_id: u128,
    task_type: TaskType,
    outcome: Result<(), String>,
    done_template: &str,
    failed_template: &str,
    n: usize,
) -> (r: TaskResult)
    ensures
        r.id == task_id,
        r.task_type == task_type,
        r.data is None,
        r.status == outcome is Ok,
        outcome is Ok ==> r.message@ == decode_utf8(fill_placeholders(done_template.spec_bytes(), decimal(n as nat))),
        outcome matches Err(e) ==> r.message@ == decode_utf8(fill_placeholders(failed_template.spec_bytes(), encode_utf8(e@))),
{
    match outcome {
        Ok(()) => count_success_result(task_id, task_type, done_template, n),
        Err(e) => {
            let r = failure_result(task_id, task_type, failed_template, e.as_str());
            r
        },
    }
}

/// The message that announces the chunking of a block.
pub const CHUNKING_MESSAGE: &'static str = "Chunking a block";

/// The result of chunking a block: on success it carries the chunked block's
/// data; on failure the error's text.
pub fn chunk_task_result(task_id: u128, block_id: u128, outcome: Result<serde_json::Value, String>) -> (r: TaskResult)
    ensures
        r.id == task_id,
        r.task_type == (TaskType::ChunkBlock { block_id }),
        r.status == outcome is Ok,
        outcome matches Ok(d) ==> r.message@ == "Chunking completed"@ && r.data == Some(d),
        outcome matches Err(e) ==> r.message@ == "Chunking failed: "@ + e@ && r.data is None,
{
    match outcome {
        Ok(data) => TaskResult::new(task_id, true, String::from_str("Chunking completed"), TaskType::ChunkBlock { block_id }, Some(data)),
        Err(e) => {
            let mut m = String::from_str("Chunking failed: ");
            m.append(e.as_str());
            TaskResult::new(task_id, false, m, TaskType::ChunkBlock { block_id }, None)
        },
    }
}

/// The message that announces a re-parenting.
pub const UPDATING_PARENT_MESSAGE: &'static str = "Updating blocks' parent";

/// The results that a re-parenting of `n` blocks reports: one outcome, the
/// failure when reading or updating the blocks failed, else the success.
pub fn update_parent_results(task_id: u128, n: usize, outcome: Result<(), String>) -> (rs: Vec<TaskResult>)
    ensures
        rs@.len() == 1,
        rs@[0].id == task_id && rs@[0].task_type == TaskType::Uncategorized && rs@[0].data is None,
        outcome matches Err(e) ==> !rs@[0].status && rs@[0].message@ == "Block parent update failed due to "@ + e@,
        outcome is Ok ==> rs@[0].status && rs@[0].message@ == "Updated parent for "@ + decode_utf8(decimal(n as nat))
            + " blocks"@,
{
    let mut rs: Vec<TaskResult> = Vec::new();
    match outcome {
        Err(e) => {
            let mut m = String::from_str("Block parent update failed due to ");
            m.append(e.as_str());
            rs.push(TaskResult::new(task_id, false, m, TaskType::Uncategorized, None));
        },
        Ok(()) => {
            let count = crate::text::decimal_string(n);
            let mut m = String::from_str("Updated parent for ");
            m.append(count.as_str());
            m.append(" blocks");
            rs.push(TaskResult::new(task_id, true, m, TaskType::Uncategorized, None));
        },
    }
    rs
}

/// A block as the block tasks handle it; `P` is its payloads.
pub struct Block<P> {
    pub id: u128,
    pub parent_id: Option<u128>,
    pub title: String,
    pub text: String,
    pub payloads: P,
}

/// Give every block the new parent (`None`: the root), leaving all else as it is.
pub fn reparent_blocks<P>(blocks: Vec<Block<P>>, new_parent: Option<u128>) -> (out: Vec<Block<P>>)
    ensures
        out@.len() == blocks@.len(),
        forall|i: int| 0 <= i < out@.len() ==> (#[trigger] out@[i]) == (Block { parent_id: new_parent, ..blocks@[i] }),
{
    let ghost all = blocks@;
    let mut out: Vec<Block<P>> = Vec::new();
    let mut rest = blocks;
    let ghost mut done: int = 0;
    proof {
        assert(rest@ =~= all.subrange(0, all.len() as int));
    }
    while rest.len() > 0
        invariant
            0 <= done <= all.len(),
            rest@ == all.subrange(done, all.len() as int),
            out@.len() == done,
            forall|i: int| 0 <= i < done ==> (#[trigger] out@[i]) == (Block { parent_id: new_parent, ..all[i] }),
        decreases rest@.len(),
    {
        let mut b = rest.remove(0);
        proof {
            assert(b == all[done]);
        }
        b.parent_id = new_parent;
        out.push(b);
        proof {
            done = done + 1;
            assert(rest@ =~= all.subrange(done, all.len() as int));
        }
    }
    out
}

/// The files to import: those with a file name, by their position among the
/// chosen paths, in order.
pub fn import_candidates(file_names: Vec<Option<String>>) -> (out: Vec<(usize, String)>)
    ensures
        forall|k: int| 0 <= k < out@.len() ==> {
            let (i, n) = #[trigger] out@[k];
            i < file_names@.len() && file_names@[i as int] == Some(n)
        },
        forall|a: int, b: int| 0 <= a < b < out@.len() ==> (#[trigger] out@[a]).0 < (#[trigger] out@[b]).0,
        forall|i: int| 0 <= i < file_names@.len() && (#[trigger] file_names@[i]) is Some ==> exists|k: int|
            0 <= k < out@.len() && #[trigger] out@[k].0 == i,
{
    let ghost all = file_names@;
    let mut out: Vec<(usize, String)> = Vec::new();
    let n = file_names.len();
    let mut rest = file_names;
    let mut i: usize = 0;
    proof {
        assert(rest@ =~= all.subrange(0, all.len() as int));
    }
    while rest.len() > 0
        invariant
            i <= all.len(),
            all.len() == n,
            all == file_names@,
            rest@ == all.subrange(i as int, all.len() as int),
            forall|k: int| 0 <= k < out@.len() ==> {
                let (j, n) = #[trigger] out@[k];
                j < i && all[j as int] == Some(n)
            },
            forall|a: int, b: int| 0 <= a < b < out@.len() ==> (#[trigger] out@[a]).0 < (#[trigger] out@[b]).0,
            forall|j: int| 0 <= j < i && (#[trigger] all[j]) is Some ==> exists|k: int| 0 <= k < out@.len() && #[trigger] out@[k].0 == j,
        decreases rest@.len(),
    {
        let name = rest.remove(0);
        proof {
            assert(name == all[i as int]);
        }
        let ghost before = out@;
        if let Some(n) = name {
            out.push((i, n));
            proof {
                assert(out@[before.len() as int].0 == i);
            }
        }
        proof {
            assert forall|j: int| 0 <= j < i + 1 && (#[trigger] all[j]) is Some implies exists|k: int|
                0 <= k < out@.len() && #[trigger] out@[k].0 == j by {
                if j < i {
                    let k = choose|k: int| 0 <= k < before.len() && #[trigger] before[k].0 == j;
                    assert(out@[k] == before[k]);
                } else {
                    assert(out@[before.len() as int].0 == j);
                }
            }
        }
        i = i + 1;
        proof {
            assert(rest@ =~= all.subrange(i as int, all.len() as int));
        }
    }
    out
}

/// The blocks built from the imported files, in order, or the first failure.
pub fn collect_built<B>(results: Vec<Result<B, String>>) -> (r: Result<Vec<B>, String>)
    ensures
        r matches Ok(v) ==> v@.len() == results@.len() && forall|i: int| 0 <= i < v@.len() ==> (#[trigger] results@[i]) == Ok::<B, String>(v@[i]),
        r matches Err(e) ==> exists|i: int| 0 <= i < results@.len() && (#[trigger] results@[i]) == Err::<B, String>(e) && forall|j: int| 0 <= j < i ==> results@[j] is Ok,
{
    let ghost all = results@;
    let mut out: Vec<B> = Vec::new();
    let mut rest = results;
    let ghost mut done: int = 0;
    proof {
        assert(rest@ =~= all.subrange(0, all.len() as int));
    }
    while rest.len() > 0
        invariant
            0 <= done <= all.len(),
            all == results@,
            rest@ == all.subrange(done, all.len() as int),
            out@.len() == done,
            forall|i: int| 0 <= i < done ==> (#[trigger] all[i]) == Ok::<B, String>(out@[i]),
        decreases rest@.len(),
    {
        let item = rest.remove(0);
        proof {
            assert(item == all[done]);
        }
        match item {
            Ok(b) => {
                out.push(b);
                proof {
                    done = done + 1;
                    assert(rest@ =~= all.subrange(done, all.len() as int));
                }
            },
            Err(e) => {
                proof {
                    assert(all[done] == Err::<B, String>(e));
                }
                return Err(e);
            },
        }
    }
    Ok(out)
}

/// `sanitize_filename::sanitize`: the title made safe as a file name. The crate's
/// source removes the characters `/ ? < > \ : * | "` and the control characters
/// U+0000 to U+001F and U+0080 to U+009F, empties a name made only of dots, on
/// Windows also empties reserved device names (`con`, `com1`, ...) and drops
/// trailing dots and spaces, and cuts the result to at most 255 bytes at a
/// character boundary. Which of the platform rules apply depends on the target,
/// so the contract states what holds on every platform: the result is a safe
/// name, a prefix of the title without its illegal characters, and that whole
/// text unless it is only dots, ends in a dot or a space, is a reserved device
/// name or is longer than 255 bytes.
#[verifier::external_body]
fn sanitize_name(title: &str) -> (s: String)
    ensures
        sanitize_facts(title@, s@),
{
    sanitize_filename::sanitize(title)
}

/// What the sanitizer guarantees of its result on every platform.
pub open spec fn sanitized(s: Seq<char>) -> bool {
    &&& forall|i: int| 0 <= i < s.len() ==> !is_illegal_char(#[trigger] s[i])
    &&& encode_utf8(s).len() <= 255
}

/// What holds of the sanitized form `s` of `title` on every platform.
pub open spec fn sanitize_facts(title: Seq<char>, s: Seq<char>) -> bool {
    &&& sanitized(s)
    &&& s.is_prefix_of(legal_chars(title))
    &&& plain_file_name(legal_chars(title)) ==> s == legal_chars(title)
}

/// The characters of `t` that file names may hold, in order.
pub open spec fn legal_chars(t: Seq<char>) -> Seq<char>
    decreases t.len(),
{
    if t.len() == 0 {
        t
    } else if is_illegal_char(t.last()) {
        legal_chars(t.drop_last())
    } else {
        legal_chars(t.drop_last()).push(t.last())
    }
}

/// A name that every platform keeps as it is: not empty, at most 255 bytes, not
/// ending in a dot or a space (so not made only of dots), and not a reserved
/// Windows device name.
pub open spec fn plain_file_name(t: Seq<char>) -> bool {
    &&& t.len() > 0
    &&& encode_utf8(t).len() <= 255
    &&& t.last() != '.' && t.last() != ' '
    &&& !windows_reserved(t)
}

/// ASCII letters in lower case; other characters unchanged.
pub open spec fn ascii_lower(c: char) -> char {
    if 'A' <= c <= 'Z' {
        ((c as u32) + 32) as char
    } else {
        c
    }
}

/// `p`, ignoring ASCII case, is `con`, `prn`, `aux`, `nul`, or `com` or `lpt`
/// followed by one ASCII digit (no character outside ASCII folds to these
/// letters, so ASCII case is all the pattern's case-insensitivity covers).
pub open spec fn device_name(p: Seq<char>) -> bool {
    let l = p.map_values(|c: char| ascii_lower(c));
    ||| l == seq!['c', 'o', 'n']
    ||| l == seq!['p', 'r', 'n']
    ||| l == seq!['a', 'u', 'x']
    ||| l == seq!['n', 'u', 'l']
    ||| l.len() == 4 && (l.take(3) == seq!['c', 'o', 'm'] || l.take(3) == seq!['l', 'p', 't']) && '0' <= l[3] <= '9'
}

/// The first `n` characters are a device name, and they are the whole name or are
/// followed by a dot.
pub open spec fn device_prefix(t: Seq<char>, n: int) -> bool {
    n <= t.len() && device_name(t.take(n)) && (t.len() == n || t[n] == '.')
}

/// The name that sanitize-filename empties on Windows
/// (`^(con|prn|aux|nul|com[0-9]|lpt[0-9])(\..*)?$`, ignoring case).
pub open spec fn windows_reserved(t: Seq<char>) -> bool {
    device_prefix(t, 3) || device_prefix(t, 4)
}

/// A character that file names may not hold.
pub open spec fn is_illegal_char(c: char) -> bool {
    ||| c == '/' || c == '?' || c == '<' || c == '>' || c == '\\' || c == ':' || c == '*' || c == '|' || c == '"'
    ||| (c as u32) <= 0x1f
    ||| 0x80 <= (c as u32) <= 0x9f
}

/// The position of the last dot in `s`, if any.
pub open spec fn last_dot(s: Seq<u8>) -> Option<int>
    decreases s.len(),
{
    if s.len() == 0 {
        None
    } else if s.last() == 0x2Eu8 {
        Some(s.len() - 1)
    } else {
        last_dot(s.drop_last())
    }
}

/// The stem of a file name (`Path::file_stem`): the part before the last dot,
/// or the whole name when it has no dot but, perhaps, the first character.
pub open spec fn file_stem(name: Seq<u8>) -> Seq<u8> {
    match last_dot(name) {
        Some(d) => if d == 0 { name } else { name.take(d) },
        None => name,
    }
}

/// The bytes of ".md".
pub open spec fn md_suffix() -> Seq<u8> {
    seq![0x2Eu8, 0x6Du8, 0x64u8]
}

proof fn lemma_last_dot(s: Seq<u8>)
    ensures
        last_dot(s) matches Some(d) ==> 0 <= d < s.len() && s[d] == 0x2Eu8,
    decreases s.len(),
{
    if s.len() > 0 && s.last() != 0x2Eu8 {
        lemma_last_dot(s.drop_last());
    }
}

fn find_last_dot(b: &[u8]) -> (r: Option<usize>)
    ensures
        r matches Some(d) ==> last_dot(b@) == Some(d as int) && d < b@.len() && b@[d as int] == 0x2Eu8,
        r is None ==> last_dot(b@) is None,
{
    let mut i = b.len();
    proof {
        assert(b@.take(i as int) =~= b@);
    }
    while i > 0
        invariant
            i <= b@.len(),
            last_dot(b@) == last_dot(b@.take(i as int)),
        decreases i,
    {
        proof {
            assert(b@.take(i as int).drop_last() =~= b@.take(i - 1));
        }
        if b[i - 1] == 0x2E {
            return Some(i - 1);
        }
        i = i - 1;
    }
    proof {
        assert(b@.take(0) =~= Seq::<u8>::empty());
    }
    None
}

/// The name of a file `name.md` made by `Path::with_extension("md")`: the stem
/// followed by `.md`. `None` when the name is empty, `.` or `..`, which name no
/// file of their own.
pub fn md_file_name(name: &str) -> (r: Option<String>)
    ensures
        (name@.len() == 0 || name@ == "."@ || name@ == ".."@) ==> r is None,
        !(name@.len() == 0 || name@ == "."@ || name@ == ".."@) ==> (r matches Some(f) && encode_utf8(f@) == file_stem(name.spec_bytes()) + md_suffix()),
{
    proof {
        reveal_strlit(".");
        reveal_strlit("..");
    }
    if name.as_bytes().len() == 0 {
        proof {
            encode_utf8_decode_utf8(name@);
            assert(name.spec_bytes() =~= Seq::<u8>::empty());
            assert(decode_utf8(Seq::<u8>::empty()) =~= Seq::<char>::empty());
            assert(name@.len() == 0);
        }
        return None;
    }
    if crate::states::str_equal(name, ".") {
        assert(name@ == "."@);
        return None;
    }
    if crate::states::str_equal(name, "..") {
        assert(name@ == ".."@);
        return None;
    }
    let b = name.as_bytes();
    let end = match find_last_dot(b) {
        Some(d) => if d == 0 { b.len() } else { d },
        None => b.len(),
    };
    proof {
        let s = name.spec_bytes();
        assert(s.len() > 0) by {
            if s.len() == 0 {
                assert(name@ =~= decode_utf8(s));
            }
        }
        if end < b.len() {
            crate::utf8_text::lemma_ascii_is_boundary(s, end as int);
            is_char_boundary_start_end_of_seq(s);
            crate::utf8_text::lemma_subrange_valid(s, 0, end as int);
        } else {
            assert(s.subrange(0, end as int) =~= s);
        }
    }
    let mut out: Vec<u8> = Vec::new();
    crate::utf8_text::extend_from_range(&mut out, b, 0, end);
    out.push(0x2E);
    out.push(0x6D);
    out.push(0x64);
    proof {
        let s = name.spec_bytes();
        assert(out@ =~= s.subrange(0, end as int) + md_suffix());
        assert(s.subrange(0, end as int) =~= file_stem(s)) by {
            assert(s.take(end as int) =~= s.subrange(0, end as int));
        }
        crate::text::lemma_ascii_valid(md_suffix());
        valid_utf8_concat(s.subrange(0, end as int), md_suffix());
    }
    Some(crate::utf8_text::string_from_utf8(out))
}

/// The name under which a block is exported: its sanitized title with the `md`
/// extension; `None` when the sanitized title is empty (or names no file).
pub fn export_file_name(title: &str) -> (r: Option<String>)
    ensures
        r matches Some(f) ==> exists|s: Seq<char>|
            #[trigger] sanitize_facts(title@, s) && encode_utf8(f@) == file_stem(encode_utf8(s)) + md_suffix(),
        r is None ==> exists|s: Seq<char>| #[trigger] sanitize_facts(title@, s) && (s.len() == 0 || s == "."@ || s == ".."@),
        plain_file_name(legal_chars(title@)) ==> (r matches Some(f) && encode_utf8(f@) == file_stem(
            encode_utf8(legal_chars(title@)),
        ) + md_suffix()),
{
    let safe = sanitize_name(title);
    let r = md_file_name(safe.as_str());
    proof {
        reveal_strlit(".");
        reveal_strlit("..");
        assert(sanitize_facts(title@, safe@));
    }
    r
}

/// Where a block task (create, delete, update) stands: preparing its blocks (the
/// steps left, such as building or vectorizing one block), storing them on the
/// server, or finished.
#[derive(Clone, Copy, Debug, PartialEq, Eq, Structural)]
pub enum TaskFlowStage {
    Preparing { remaining: usize },
    Storing,
    Finished,
}

/// How the last step of a block task went.
#[derive(Clone, Copy, Debug, PartialEq, Eq, Structural)]
pub enum TaskFlowEvent {
    Prepared,
    PreparationFailed,
    Stored,
    StoreFailed,
}

/// What a block task does next.
#[derive(Clone, Copy, Debug, PartialEq, Eq, Structural)]
pub enum TaskFlowAction {
    /// Prepare the next block.
    PrepareNext,
    /// Send the blocks to the server.
    Store,
    /// Report the failure; the task ends.
    ReportFailure,
    /// Report the success, then refresh the blocks list; the task ends.
    ReportSuccessAndRefresh,
    /// End without a report.
    Stop,
}

/// The first stage and action of a task with `preparations` preparation steps.
pub open spec fn flow_start(preparations: usize) -> (TaskFlowStage, TaskFlowAction) {
    if preparations == 0 {
        (TaskFlowStage::Storing, TaskFlowAction::Store)
    } else {
        (TaskFlowStage::Preparing { remaining: preparations }, TaskFlowAction::PrepareNext)
    }
}

/// The next stage and action after an event. The blocks are stored only once
/// every preparation succeeded; a failed preparation ends the task, reported or
/// (as block creation does) silently; a store ends it with its report, and only a
/// success refreshes the blocks list. An event that does not fit the stage ends
/// the task without a report.
pub open spec fn flow_step(stage: TaskFlowStage, event: TaskFlowEvent, reports_preparation_failure: bool) -> (
    TaskFlowStage,
    TaskFlowAction,
) {
    match (stage, event) {
        (TaskFlowStage::Preparing { remaining }, TaskFlowEvent::Prepared) => if remaining > 1 {
            (TaskFlowStage::Preparing { remaining: (remaining - 1) as usize }, TaskFlowAction::PrepareNext)
        } else {
            (TaskFlowStage::Storing, TaskFlowAction::Store)
        },
        (TaskFlowStage::Preparing { .. }, TaskFlowEvent::PreparationFailed) => (
            TaskFlowStage::Finished,
            if reports_preparation_failure {
                TaskFlowAction::ReportFailure
            } else {
                TaskFlowAction::Stop
            },
        ),
        (TaskFlowStage::Storing, TaskFlowEvent::Stored) => (TaskFlowStage::Finished, TaskFlowAction::ReportSuccessAndRefresh),
        (TaskFlowStage::Storing, TaskFlowEvent::StoreFailed) => (TaskFlowStage::Finished, TaskFlowAction::ReportFailure),
        _ => (TaskFlowStage::Finished, TaskFlowAction::Stop),
    }
}

/// Law: a failed store always ends the task with a failure report, a successful
/// store always with the success report and a refresh, and whether preparation
/// failures are reported changes nothing but what follows a failed preparation.
pub proof fn law_store_outcome_is_always_reported(reports_preparation_failure: bool, remaining: usize)
    ensures
        flow_step(TaskFlowStage::Storing, TaskFlowEvent::StoreFailed, reports_preparation_failure) == (
            TaskFlowStage::Finished,
            TaskFlowAction::ReportFailure,
        ),
        flow_step(TaskFlowStage::Storing, TaskFlowEvent::Stored, reports_preparation_failure) == (
            TaskFlowStage::Finished,
            TaskFlowAction::ReportSuccessAndRefresh,
        ),
        forall|stage: TaskFlowStage, event: TaskFlowEvent|
            event != TaskFlowEvent::PreparationFailed ==> #[trigger] flow_step(stage, event, true) == flow_step(stage, event, false),
        flow_step(TaskFlowStage::Preparing { remaining }, TaskFlowEvent::PreparationFailed, true) == (
            TaskFlowStage::Finished,
            TaskFlowAction::ReportFailure,
        ),
        flow_step(TaskFlowStage::Preparing { remaining }, TaskFlowEvent::PreparationFailed, false) == (
            TaskFlowStage::Finished,
            TaskFlowAction::Stop,
        ),
{
}

/// Start a block task with `preparations` preparation steps.
pub fn start_flow(preparations: usize) -> (r: (TaskFlowStage, TaskFlowAction))
    ensures
        r == flow_start(preparations),
{
    if preparations == 0 {
        (TaskFlowStage::Storing, TaskFlowAction::Store)
    } else {
        (TaskFlowStage::Preparing { remaining: preparations }, TaskFlowAction::PrepareNext)
    }
}

/// The next step of a block task (see `flow_step`).
pub fn next_flow_step(stage: TaskFlowStage, event: TaskFlowEvent, reports_preparation_failure: bool) -> (r: (
    TaskFlowStage,
    TaskFlowAction,
))
    ensures
        r == flow_step(stage, event, reports_preparation_failure),
{
    match (stage, event) {
        (TaskFlowStage::Preparing { remaining }, TaskFlowEvent::Prepared) => if remaining > 1 {
            (TaskFlowStage::Preparing { remaining: remaining - 1 }, TaskFlowAction::PrepareNext)
        } else {
            (TaskFlowStage::Storing, TaskFlowAction::Store)
        },
        (TaskFlowStage::Preparing { .. }, TaskFlowEvent::PreparationFailed) => (
            TaskFlowStage::Finished,
            if reports_preparation_failure {
                TaskFlowAction::ReportFailure
            } else {
                TaskFlowAction::Stop
            },
        ),
        (TaskFlowStage::Storing, TaskFlowEvent::Stored) => (TaskFlowStage::Finished, TaskFlowAction::ReportSuccessAndRefresh),
        (TaskFlowStage::Storing, TaskFlowEvent::StoreFailed) => (TaskFlowStage::Finished, TaskFlowAction::ReportFailure),
        _ => (TaskFlowStage::Finished, TaskFlowAction::Stop),
    }
}

/// The actions taken, one per event, from a stage on.
pub open spec fn flow_run(stage: TaskFlowStage, events: Seq<TaskFlowEvent>, reports: bool) -> Seq<TaskFlowAction>
    decreases events.len(),
{
    if events.len() == 0 {
        seq![]
    } else {
        let (next, action) = flow_step(stage, events[0], reports);
        seq![action] + flow_run(next, events.drop_first(), reports)
    }
}

/// All actions of a run of `n` preparations that stores and reports as it should:
/// the store comes right after the `n` preparations, all of which succeeded, and
/// the success report (with the refresh) right after a successful store.
pub open spec fn flow_ordered(n: nat, events: Seq<TaskFlowEvent>, actions: Seq<TaskFlowAction>) -> bool {
    &&& forall|k: int| 0 <= k < actions.len() && #[trigger] actions[k] == TaskFlowAction::Store ==> k == n && forall|j: int|
        0 <= j < n ==> events[j] == TaskFlowEvent::Prepared
    &&& forall|k: int| 0 <= k < actions.len() && #[trigger] actions[k] == TaskFlowAction::ReportSuccessAndRefresh ==> k == n + 1
        && events[n as int] == TaskFlowEvent::Stored && forall|j: int| 0 <= j < n ==> events[j] == TaskFlowEvent::Prepared
}

proof fn lemma_finished_run_stops(events: Seq<TaskFlowEvent>, reports: bool)
    ensures
        forall|k: int| 0 <= k < flow_run(TaskFlowStage::Finished, events, reports).len() ==> #[trigger] flow_run(
            TaskFlowStage::Finished,
            events,
            reports,
        )[k] == TaskFlowAction::Stop,
        flow_run(TaskFlowStage::Finished, events, reports).len() == events.len(),
    decreases events.len(),
{
    if events.len() > 0 {
        lemma_finished_run_stops(events.drop_first(), reports);
    }
}

proof fn lemma_storing_run(events: Seq<TaskFlowEvent>, reports: bool)
    ensures
        ({
            let a = flow_run(TaskFlowStage::Storing, events, reports);
            &&& a.len() == events.len()
            &&& forall|k: int| 0 <= k < a.len() && #[trigger] a[k] == TaskFlowAction::Store ==> false
            &&& forall|k: int| 0 <= k < a.len() && #[trigger] a[k] == TaskFlowAction::ReportSuccessAndRefresh ==> k == 0
                && events[0] == TaskFlowEvent::Stored
        }),
{
    if events.len() > 0 {
        let (next, action) = flow_step(TaskFlowStage::Storing, events[0], reports);
        assert(next == TaskFlowStage::Finished);
        lemma_finished_run_stops(events.drop_first(), reports);
        let a = flow_run(TaskFlowStage::Storing, events, reports);
        assert(a == seq![action] + flow_run(TaskFlowStage::Finished, events.drop_first(), reports));
        assert forall|k: int| 0 < k < a.len() implies a[k] == TaskFlowAction::Stop by {
            assert(a[k] == flow_run(TaskFlowStage::Finished, events.drop_first(), reports)[k - 1]);
        }
    }
}

/// The actions from `r` outstanding preparations on: the store comes with the
/// `r`-th event, all `r` events having been successful preparations, and the
/// success report with the next one, a successful store.
pub open spec fn run_ordered(r: nat, events: Seq<TaskFlowEvent>, actions: Seq<TaskFlowAction>) -> bool {
    &&& forall|k: int| 0 <= k < actions.len() && #[trigger] actions[k] == TaskFlowAction::Store ==> k + 1 == r && forall|j: int|
        0 <= j < r ==> events[j] == TaskFlowEvent::Prepared
    &&& forall|k: int| 0 <= k < actions.len() && #[trigger] actions[k] == TaskFlowAction::ReportSuccessAndRefresh ==> k == r
        && events[r as int] == TaskFlowEvent::Stored && forall|j: int| 0 <= j < r ==> events[j] == TaskFlowEvent::Prepared
}

proof fn lemma_preparing_run(r: usize, events: Seq<TaskFlowEvent>, reports: bool)
    requires
        r > 0,
    ensures
        flow_run(TaskFlowStage::Preparing { remaining: r }, events, reports).len() == events.len(),
        run_ordered(r as nat, events, flow_run(TaskFlowStage::Preparing { remaining: r }, events, reports)),
    decreases events.len(),
{
    let stage = TaskFlowStage::Preparing { remaining: r };
    let a = flow_run(stage, events, reports);
    if events.len() > 0 {
        let (next, action) = flow_step(stage, events[0], reports);
        let rest = events.drop_first();
        let tail = flow_run(next, rest, reports);
        assert(a == seq![action] + tail);
        assert(forall|k: int| 0 < k < a.len() ==> a[k] == tail[k - 1]);
        if events[0] == TaskFlowEvent::Prepared {
            if r > 1 {
                let r2 = (r - 1) as usize;
                lemma_preparing_run(r2, rest, reports);
                assert forall|k: int| 0 <= k < a.len() && #[trigger] a[k] == TaskFlowAction::Store implies k + 1 == r && forall|j: int|
                    0 <= j < r ==> events[j] == TaskFlowEvent::Prepared by {
                    assert(k > 0);
                    assert(tail[k - 1] == TaskFlowAction::Store);
                    assert forall|j: int| 0 <= j < r implies events[j] == TaskFlowEvent::Prepared by {
                        if j > 0 {
                            assert(events[j] == rest[j - 1]);
                        }
                    }
                }
                assert forall|k: int| 0 <= k < a.len() && #[trigger] a[k] == TaskFlowAction::ReportSuccessAndRefresh implies k == r
                    && events[r as int] == TaskFlowEvent::Stored && forall|j: int| 0 <= j < r ==> events[j] == TaskFlowEvent::Prepared by {
                    assert(k > 0);
                    assert(tail[k - 1] == TaskFlowAction::ReportSuccessAndRefresh);
                    assert(events[r as int] == rest[r - 1]);
                    assert forall|j: int| 0 <= j < r implies events[j] == TaskFlowEvent::Prepared by {
                        if j > 0 {
                            assert(events[j] == rest[j - 1]);
                        }
                    }
                }
            } else {
                assert(next == TaskFlowStage::Storing && action == TaskFlowAction::Store);
                lemma_storing_run(rest, reports);
                assert forall|k: int| 0 <= k < a.len() && #[trigger] a[k] == TaskFlowAction::ReportSuccessAndRefresh implies k == r
                    && events[r as int] == TaskFlowEvent::Stored by {
                    assert(k > 0);
                    assert(tail[k - 1] == TaskFlowAction::ReportSuccessAndRefresh);
                    assert(events[1] == rest[0]);
                }
                assert forall|k: int| 0 <= k < a.len() && #[trigger] a[k] == TaskFlowAction::Store implies k + 1 == r by {
                    if k > 0 {
                        assert(tail[k - 1] == TaskFlowAction::Store);
                    }
                }
            }
        } else {
            assert(next == TaskFlowStage::Finished);
            lemma_finished_run_stops(rest, reports);
            assert forall|k: int| 0 <= k < a.len() implies #[trigger] a[k] != TaskFlowAction::Store && a[k] != TaskFlowAction::ReportSuccessAndRefresh by {
                if k > 0 {
                    assert(tail[k - 1] == TaskFlowAction::Stop);
                }
            }
        }
    }
}

/// Law: a block task with `n` preparation steps sends its blocks to the server
/// only right after all `n` preparations succeeded, and reports success (and
/// refreshes the blocks list) only right after the server stored them; its first
/// action comes from `start_flow`, each next one from `next_flow_step`.
pub proof fn law_flow_stores_only_after_preparations(n: usize, events: Seq<TaskFlowEvent>, reports: bool)
    ensures
        ({
            let (stage, first) = flow_start(n);
            flow_ordered(n as nat, events, seq![first] + flow_run(stage, events, reports))
        }),
{
    let (stage, first) = flow_start(n);
    let a = seq![first] + flow_run(stage, events, reports);
    if n == 0 {
        lemma_storing_run(events, reports);
        let t = flow_run(stage, events, reports);
        assert forall|k: int| 0 <= k < a.len() && #[trigger] a[k] == TaskFlowAction::Store implies k == 0 by {
            if k > 0 {
                assert(a[k] == t[k - 1]);
            }
        }
        assert forall|k: int| 0 <= k < a.len() && #[trigger] a[k] == TaskFlowAction::ReportSuccessAndRefresh implies k == 1
            && events[0] == TaskFlowEvent::Stored by {
            assert(k > 0);
            assert(a[k] == t[k - 1]);
        }
    } else {
        lemma_preparing_run(n, events, reports);
        let t = flow_run(stage, events, reports);
        assert forall|k: int| 0 < k < a.len() implies a[k] == t[k - 1] by {}
        assert forall|k: int| 0 <= k < a.len() && #[trigger] a[k] == TaskFlowAction::Store implies k == n && forall|j: int|
            0 <= j < n ==> events[j] == TaskFlowEvent::Prepared by {
            assert(k > 0);
            assert(t[k - 1] == TaskFlowAction::Store);
        }
        assert forall|k: int| 0 <= k < a.len() && #[trigger] a[k] == TaskFlowAction::ReportSuccessAndRefresh implies k == n + 1
            && events[n as int] == TaskFlowEvent::Stored && forall|j: int| 0 <= j < n ==> events[j] == TaskFlowEvent::Prepared by {
            assert(k > 0);
            assert(t[k - 1] == TaskFlowAction::ReportSuccessAndRefresh);
        }
    }
}

} // verus!
