//! The job registry and orchestrator.
//!
//! A job is created in the pending state and given a fresh identifier; a
//! detached background unit later stores its terminal outcome, exactly
//! once.  Polling by identifier never blocks on in-flight work and reports
//! absence for identifiers that were never issued.  The decisions of the
//! background unit stand here as pure functions from the job's inputs and
//! the driver's fetch results to the next action; the driver around this
//! crate performs the network and file effects between them.

use std::sync::Arc;

use vstd::prelude::*;

use crate::downloader::{asset_name, asset_name_of, pad_width, width_of, AssetRequest};
use crate::parser::{str_eq, ParseModel, ParseResult, Parser, Registry};
use crate::strutil::{dec_of, dec_string, lemma_dec_injective, lemma_dec_len_machine};

verus! {

/// Why a job failed.
#[derive(Debug)]
pub enum TaskError {
    /// The content mode is neither the remote nor the verbatim one.
    InvalidMode,
    /// The location does not parse as an absolute URL with a host.
    InvalidUrl,
    /// No extraction capability is registered for the document's origin.
    UnsupportedOrigin,
    /// The capability could not find the structure it expects.
    MalformedDocument { message: String },
    /// A document or asset retrieval failed in transport.
    FetchFailed { message: String },
    /// The artifact or archive could not be produced.
    WriteFailed { message: String },
}

impl TaskError {
    /// The human-readable description a failed job reports.
    pub open spec fn spec_message(&self) -> Seq<char> {
        match self {
            TaskError::InvalidMode => "invalid param type"@,
            TaskError::InvalidUrl => "invalid url"@,
            TaskError::UnsupportedOrigin => "unsupported origin"@,
            TaskError::MalformedDocument { message } => message@,
            TaskError::FetchFailed { message } => message@,
            TaskError::WriteFailed { message } => message@,
        }
    }

    pub fn message(&self) -> (r: String)
        ensures
            r@ == self.spec_message(),
    {
        match self {
            TaskError::InvalidMode => String::from_str("invalid param type"),
            TaskError::InvalidUrl => String::from_str("invalid url"),
            TaskError::UnsupportedOrigin => String::from_str("unsupported origin"),
            TaskError::MalformedDocument { message } => message.clone(),
            TaskError::FetchFailed { message } => message.clone(),
            TaskError::WriteFailed { message } => message.clone(),
        }
    }
}

/// What the URL parser yields as the host of the location, absent when the
/// text is not an absolute URL or has no host; a function of the string
/// alone.
pub uninterp spec fn host_of(url: Seq<char>) -> Option<Seq<char>>;

/// Relies on reqwest's `Url::parse` and `Url::host_str`: the host part of
/// the location, a function of the string alone.
#[verifier::external_body]
fn url_host(url: &str) -> (r: Option<String>)
    ensures
        match r {
            Some(h) => host_of(url@) == Some(h@),
            None => host_of(url@) is None,
        },
{
    match reqwest::Url::parse(url) {
        Ok(u) => u.host_str().map(|h| h.to_owned()),
        Err(_) => None,
    }
}

/// Relies on `uuid::Uuid::new_v4` and its display form: a freshly drawn
/// random identifier in the 36-character hyphenated rendering.  Nothing is
/// assumed about which identifier comes back.
#[verifier::external_body]
fn new_task_id() -> (r: String)
    ensures
        r@.len() == 36,
{
    uuid::Uuid::new_v4().to_string()
}

/// The lifecycle of one job: pending until its background unit stores the
/// terminal outcome.
enum TaskState {
    Pending,
    Done(String),
    Failed(String),
}

struct Task {
    id: String,
    state: TaskState,
}

/// A job's state as polling sees it.
pub enum TaskStatus {
    Pending,
    Done(Seq<char>),
    Failed(Seq<char>),
}

/// A creation request: the content mode, the document location, and the
/// verbatim document text.
#[derive(Clone)]
pub struct TaskCreationParams {
    pub param_type: String,
    pub url: String,
    pub raw: String,
}

/// The identifier under which a created job can be polled.
pub struct TaskCreationResult {
    pub id: String,
}

/// A snapshot of one job's state.
#[derive(Debug)]
pub struct TaskQueryResult {
    pub id: String,
    pub status: &'static str,
    pub message: String,
}

spec fn status_view(state: TaskState) -> TaskStatus {
    match state {
        TaskState::Pending => TaskStatus::Pending,
        TaskState::Done(path) => TaskStatus::Done(path@),
        TaskState::Failed(message) => TaskStatus::Failed(message@),
    }
}

spec fn seq_find_status(tasks: Seq<Task>, id: Seq<char>) -> Option<TaskStatus>
    decreases tasks.len(),
{
    if tasks.len() == 0 {
        None
    } else if tasks[0].id@ == id {
        Some(status_view(tasks[0].state))
    } else {
        seq_find_status(tasks.drop_first(), id)
    }
}

proof fn lemma_find_push(tasks: Seq<Task>, t: Task, id: Seq<char>)
    ensures
        seq_find_status(tasks.push(t), id) == (if seq_find_status(tasks, id) is Some {
            seq_find_status(tasks, id)
        } else if t.id@ == id {
            Some(status_view(t.state))
        } else {
            None
        }),
    decreases tasks.len(),
{
    if tasks.len() == 0 {
        assert(tasks.push(t)[0] == t);
        assert(tasks.push(t).drop_first() =~= Seq::<Task>::empty());
    } else {
        assert(tasks.push(t)[0] == tasks[0]);
        assert(tasks.push(t).drop_first() =~= tasks.drop_first().push(t));
        lemma_find_push(tasks.drop_first(), t, id);
    }
}

proof fn lemma_find_issued(tasks: Seq<Task>, id: Seq<char>)
    ensures
        seq_find_status(tasks, id) is Some <==> tasks.map_values(|t: Task| t.id@).contains(id),
    decreases tasks.len(),
{
    let ids = tasks.map_values(|t: Task| t.id@);
    if tasks.len() == 0 {
    } else if tasks[0].id@ == id {
        assert(ids[0] == id);
    } else {
        lemma_find_issued(tasks.drop_first(), id);
        let tailids = tasks.drop_first().map_values(|t: Task| t.id@);
        assert(tailids =~= ids.drop_first());
        if ids.contains(id) {
            let k = choose|k: int| 0 <= k < ids.len() && ids[k] == id;
            assert(k != 0);
            assert(tailids[k - 1] == id);
        }
        if tailids.contains(id) {
            let k = choose|k: int| 0 <= k < tailids.len() && tailids[k] == id;
            assert(ids[k + 1] == id);
        }
    }
}

proof fn lemma_find_update_hit(tasks: Seq<Task>, i: int, t: Task, id: Seq<char>)
    requires
        0 <= i < tasks.len(),
        tasks[i].id@ == id,
        t.id@ == id,
        forall|k: int| 0 <= k < i ==> (#[trigger] tasks[k].id)@ != id,
    ensures
        seq_find_status(tasks.update(i, t), id) == Some(status_view(t.state)),
    decreases tasks.len(),
{
    let updated = tasks.update(i, t);
    if i == 0 {
        assert(updated[0] == t);
    } else {
        assert(updated[0] == tasks[0]);
        assert(updated.drop_first() =~= tasks.drop_first().update(i - 1, t));
        assert(forall|k: int|
            0 <= k < i - 1 ==> (#[trigger] tasks.drop_first()[k].id)@ != id);
        lemma_find_update_hit(tasks.drop_first(), i - 1, t, id);
    }
}

proof fn lemma_find_update_miss(tasks: Seq<Task>, i: int, t: Task, d: Seq<char>)
    requires
        0 <= i < tasks.len(),
        t.id@ != d,
        tasks[i].id@ != d,
    ensures
        seq_find_status(tasks.update(i, t), d) == seq_find_status(tasks, d),
    decreases tasks.len(),
{
    let updated = tasks.update(i, t);
    if i == 0 {
        assert(updated[0] == t);
        assert(updated.drop_first() =~= tasks.drop_first());
    } else {
        assert(updated[0] == tasks[0]);
        assert(updated.drop_first() =~= tasks.drop_first().update(i - 1, t));
        if tasks[0].id@ != d {
            lemma_find_update_miss(tasks.drop_first(), i - 1, t, d);
        }
    }
}

/// The job registry: accepts creation requests, hands out fresh
/// identifiers, and reports point-in-time snapshots of job state.
pub struct Download<P> {
    tasks: Vec<Task>,
    parser_registry: Arc<Registry<P>>,
}

impl<P: Parser> Download<P> {
    /// The identifiers issued so far, oldest first.
    pub closed spec fn issued(&self) -> Seq<Seq<char>> {
        self.tasks@.map_values(|t: Task| t.id@)
    }

    /// The current state of the job with the given identifier, if it was
    /// ever issued.
    pub closed spec fn status_of(&self, id: Seq<char>) -> Option<TaskStatus> {
        seq_find_status(self.tasks@, id)
    }

    pub closed spec fn spec_registry(&self) -> Arc<Registry<P>> {
        self.parser_registry
    }

    /// Identifiers are pairwise distinct, and every identifier that is not
    /// in the 36-character drawn rendering is the fallback for its own
    /// position in the table.
    pub closed spec fn wf(&self) -> bool {
        &&& forall|a: int, b: int|
            0 <= a < b < self.tasks@.len() ==> (#[trigger] self.tasks@[a].id)@ != (
            #[trigger] self.tasks@[b].id)@
        &&& forall|k: int|
            0 <= k < self.tasks@.len() ==> (#[trigger] self.tasks@[k].id)@.len() == 36 || self.tasks@[k].id@
                == "t"@ + dec_of(k as nat)
    }

    pub fn new(parser_registry: Arc<Registry<P>>) -> (r: Self)
        ensures
            r.wf(),
            r.issued() == Seq::<Seq<char>>::empty(),
            forall|d: Seq<char>| r.status_of(d) is None,
            r.spec_registry() == parser_registry,
    {
        let r = Download { tasks: Vec::new(), parser_registry };
        proof {
            assert(r.issued() =~= Seq::<Seq<char>>::empty());
        }
        r
    }

    /// The registry of extraction capabilities this service dispatches to.
    pub fn registry(&self) -> (r: &Arc<Registry<P>>)
        ensures
            *r == self.spec_registry(),
    {
        &self.parser_registry
    }

    /// Whether the identifier has already been issued.
    fn contains_id(&self, id: &str) -> (r: bool)
        ensures
            r == self.issued().contains(id@),
    {
        let mut i: usize = 0;
        while i < self.tasks.len()
            invariant
                i <= self.tasks@.len(),
                forall|k: int| 0 <= k < i ==> (#[trigger] self.tasks@[k].id)@ != id@,
            decreases self.tasks@.len() - i,
        {
            if str_eq(self.tasks[i].id.as_str(), id) {
                proof {
                    assert(self.issued()[i as int] == id@);
                }
                return true;
            }
            i = i + 1;
        }
        proof {
            if self.issued().contains(id@) {
                let k = choose|k: int|
                    0 <= k < self.issued().len() && self.issued()[k] == id@;
                assert(self.tasks@[k].id@ == id@);
            }
        }
        false
    }

    /// The deterministic fallback identifier for the next table position,
    /// used in the vanishingly unlikely event that a drawn identifier
    /// collides with an issued one.
    fn fallback_id(&self) -> (r: String)
        ensures
            r@ == "t"@ + dec_of(self.tasks@.len() as nat),
    {
        let mut s = String::from_str("t");
        let digits = dec_string(self.tasks.len() as u64);
        s.append(digits.as_str());
        s
    }

    /// Creates a job: issues an identifier never issued before, records the
    /// job as pending, and returns at once; the caller launches the
    /// background unit that will later store the outcome.
    #[allow(unused_variables)]
    pub fn create_task(&mut self, params: &TaskCreationParams) -> (r: TaskCreationResult)
        requires
            old(self).wf(),
        ensures
            final(self).wf(),
            !old(self).issued().contains(r.id@),
            final(self).issued() == old(self).issued().push(r.id@),
            final(self).status_of(r.id@) == Some(TaskStatus::Pending),
            forall|d: Seq<char>|
                d != r.id@ ==> final(self).status_of(d) == old(self).status_of(d),
            final(self).spec_registry() == old(self).spec_registry(),
    {
        let candidate = new_task_id();
        let id = if self.contains_id(candidate.as_str()) {
            let fb = self.fallback_id();
            let n_now = self.tasks.len();
            proof {
                let n = self.tasks@.len() as nat;
                assert(n == n_now as nat);
                reveal_strlit("t");
                assert forall|k: int| 0 <= k < self.tasks@.len() implies (
                #[trigger] self.tasks@[k].id)@ != fb@ by {
                    lemma_dec_len_machine(n);
                    if self.tasks@[k].id@.len() == 36 {
                        assert(fb@.len() == 1 + dec_of(n).len());
                    } else {
                        assert(self.tasks@[k].id@ == "t"@ + dec_of(k as nat));
                        if self.tasks@[k].id@ == fb@ {
                            assert(("t"@ + dec_of(k as nat)).skip(1) =~= dec_of(k as nat));
                            assert(("t"@ + dec_of(n)).skip(1) =~= dec_of(n));
                            lemma_dec_injective(k as nat, n);
                        }
                    }
                }
                if self.issued().contains(fb@) {
                    let k = choose|k: int|
                        0 <= k < self.issued().len() && self.issued()[k] == fb@;
                    assert(self.tasks@[k].id@ == fb@);
                }
            }
            fb
        } else {
            candidate
        };
        let rid = id.clone();
        let ghost before = self.tasks@;
        let task = Task { id, state: TaskState::Pending };
        let ghost t = task;
        self.tasks.push(task);
        proof {
            assert(self.issued() =~= before.map_values(|x: Task| x.id@).push(rid@));
            lemma_find_push(before, t, rid@);
            lemma_find_issued(before, rid@);
            assert forall|d: Seq<char>| d != rid@ implies seq_find_status(
                self.tasks@,
                d,
            ) == seq_find_status(before, d) by {
                lemma_find_push(before, t, d);
            }
            assert forall|a: int, b: int|
                0 <= a < b < self.tasks@.len() implies (#[trigger] self.tasks@[a].id)@ != (
            #[trigger] self.tasks@[b].id)@ by {
                if b == self.tasks@.len() - 1 {
                    assert(before.map_values(|x: Task| x.id@)[a] == before[a].id@);
                }
            }
        }
        TaskCreationResult { id: rid }
    }

    /// A point-in-time snapshot of the job with the given identifier:
    /// absent for an identifier never issued, otherwise pending with an
    /// empty message, done with the artifact location, or failed with the
    /// error description.
    pub fn query_task(&self, id: &str) -> (r: Option<TaskQueryResult>)
        ensures
            match r {
                None => self.status_of(id@) is None,
                Some(q) => q.id@ == id@ && match self.status_of(id@) {
                    Some(TaskStatus::Pending) => q.status@ == "pending"@ && q.message@
                        == Seq::<char>::empty(),
                    Some(TaskStatus::Done(path)) => q.status@ == "done"@ && q.message@ == path,
                    Some(TaskStatus::Failed(message)) => q.status@ == "error"@ && q.message@
                        == message,
                    None => false,
                },
            },
    {
        let ghost all = self.tasks@;
        let mut i: usize = 0;
        proof {
            assert(all.skip(0) =~= all);
        }
        while i < self.tasks.len()
            invariant
                all == self.tasks@,
                i <= all.len(),
                seq_find_status(all, id@) == seq_find_status(all.skip(i as int), id@),
            decreases all.len() - i,
        {
            let task = &self.tasks[i];
            proof {
                assert(all.skip(i as int)[0] == all[i as int]);
                assert(all.skip(i as int).drop_first() =~= all.skip(i as int + 1));
            }
            if str_eq(task.id.as_str(), id) {
                let (status, message) = match &task.state {
                    TaskState::Pending => ("pending", String::new()),
                    TaskState::Done(path) => ("done", path.clone()),
                    TaskState::Failed(message) => ("error", message.clone()),
                };
                return Some(TaskQueryResult { id: task.id.clone(), status, message });
            }
            i = i + 1;
        }
        proof {
            assert(all.skip(i as int) =~= Seq::<Task>::empty());
        }
        None
    }

    /// Stores the terminal outcome of a pending job, exactly once: the
    /// artifact location on success, the error's description on failure.
    /// No other job is touched, and no identifier appears or disappears.
    pub fn complete_task(&mut self, id: &str, outcome: Result<String, TaskError>)
        requires
            old(self).wf(),
            old(self).status_of(id@) == Some(TaskStatus::Pending),
        ensures
            final(self).wf(),
            final(self).issued() == old(self).issued(),
            final(self).status_of(id@) == Some(
                match outcome {
                    Ok(path) => TaskStatus::Done(path@),
                    Err(e) => TaskStatus::Failed(e.spec_message()),
                },
            ),
            forall|d: Seq<char>|
                d != id@ ==> final(self).status_of(d) == old(self).status_of(d),
            final(self).spec_registry() == old(self).spec_registry(),
    {
        let ghost all = self.tasks@;
        proof {
            lemma_find_issued(all, id@);
        }
        let state = match outcome {
            Ok(path) => TaskState::Done(path),
            Err(e) => TaskState::Failed(e.message()),
        };
        let mut i: usize = 0;
        let mut found: usize = 0;
        let mut have: bool = false;
        while i < self.tasks.len() && !have
            invariant
                all == self.tasks@,
                i <= all.len(),
                !have ==> forall|k: int| 0 <= k < i ==> (#[trigger] all[k].id)@ != id@,
                have ==> found < all.len() && all[found as int].id@ == id@ && forall|k: int|
                    0 <= k < found ==> (#[trigger] all[k].id)@ != id@,
            decreases all.len() - i + (if have { 0int } else { 1int }),
        {
            if str_eq(self.tasks[i].id.as_str(), id) {
                found = i;
                have = true;
            } else {
                i = i + 1;
            }
        }
        proof {
            if !have {
                if self.issued().contains(id@) {
                    let k = choose|k: int|
                        0 <= k < self.issued().len() && self.issued()[k] == id@;
                    assert(all[k].id@ == id@);
                }
                assert(false);
            }
        }
        let replacement = Task { id: self.tasks[found].id.clone(), state };
        let ghost t = replacement;
        self.tasks[found] = replacement;
        proof {
            assert(self.tasks@ =~= all.update(found as int, t));
            assert forall|k: int|
                0 <= k < self.tasks@.len() implies (#[trigger] self.tasks@[k].id)@ == all[k].id@ by {
                if k != found {
                    assert(self.tasks@[k] == all[k]);
                }
            }
            lemma_find_update_hit(all, found as int, t, id@);
            assert forall|d: Seq<char>| d != id@ implies seq_find_status(self.tasks@, d)
                == seq_find_status(all, d) by {
                lemma_find_update_miss(all, found as int, t, d);
            }
            assert(self.issued() =~= all.map_values(|x: Task| x.id@));
        }
    }

    pub fn download_file(&self) {
    }
}

/// Two job creations never hand out the same identifier, whatever was
/// submitted: the second identifier is fresh with respect to a table that
/// already holds the first.
pub proof fn lemma_created_ids_distinct<P: Parser>(
    s0: Download<P>,
    id1: Seq<char>,
    s1: Download<P>,
    id2: Seq<char>,
    s2: Download<P>,
)
    requires
        !s0.issued().contains(id1),
        s1.issued() == s0.issued().push(id1),
        !s1.issued().contains(id2),
        s2.issued() == s1.issued().push(id2),
    ensures
        id1 != id2,
{
    assert(s1.issued().contains(id1)) by {
        assert(s1.issued()[s0.issued().len() as int] == id1);
    }
}

/// An identifier is reported on polling exactly when it was issued: an
/// identifier never issued is reported as absent, not as pending.
pub proof fn lemma_unissued_is_absent<P: Parser>(service: Download<P>, id: Seq<char>)
    ensures
        service.status_of(id) is Some <==> service.issued().contains(id),
{
    lemma_find_issued(service.tasks@, id);
}

/// How the background unit obtains the document text: by fetching the
/// location, or by using the supplied text verbatim.
#[derive(Debug)]
pub enum TextSource {
    Remote(String),
    Verbatim(String),
}

/// The artifact the background unit must produce: a text file, or an
/// archive assembled from the listed assets.
#[derive(Debug)]
pub enum OutputPlan {
    TextFile { path: String, contents: String },
    AssetJob { title: String, requests: Vec<AssetRequest> },
}

/// Decides how to obtain the document text from the creation request: the
/// remote location in the remote content mode, the verbatim text in the
/// verbatim mode, and a mode error otherwise.
pub fn plan_fetch(params: &TaskCreationParams) -> (r: Result<TextSource, TaskError>)
    ensures
        match r {
            Ok(TextSource::Remote(u)) => params.param_type@ == "url"@ && u@ == params.url@,
            Ok(TextSource::Verbatim(t)) => params.param_type@ == "raw"@ && t@ == params.raw@,
            Err(e) => params.param_type@ != "url"@ && params.param_type@ != "raw"@
                && e is InvalidMode,
        },
{
    if str_eq(params.param_type.as_str(), "url") {
        Ok(TextSource::Remote(params.url.clone()))
    } else if str_eq(params.param_type.as_str(), "raw") {
        Ok(TextSource::Verbatim(params.raw.clone()))
    } else {
        Err(TaskError::InvalidMode)
    }
}

/// Turns the driver's document retrieval outcome into the document text,
/// or the transport failure the job reports.
pub fn fetched_document(result: Result<String, String>) -> (r: Result<String, TaskError>)
    ensures
        match result {
            Ok(text) => r matches Ok(t) && t@ == text@,
            Err(m) => r matches Err(TaskError::FetchFailed { message }) && message@ == m@,
        },
{
    match result {
        Ok(text) => Ok(text),
        Err(message) => Err(TaskError::FetchFailed { message }),
    }
}

/// Turns the driver's artifact write outcome into the job's result: the
/// artifact location on success, a write failure otherwise.
pub fn finish_write(path: String, write_result: Result<(), String>) -> (r: Result<
    String,
    TaskError,
>)
    ensures
        match write_result {
            Ok(_) => r matches Ok(p) && p@ == path@,
            Err(m) => r matches Err(TaskError::WriteFailed { message }) && message@ == m@,
        },
{
    match write_result {
        Ok(_) => Ok(path),
        Err(message) => Err(TaskError::WriteFailed { message }),
    }
}

impl<P: Parser> Download<P> {
    /// Resolves the document's origin from its location, dispatches to the
    /// registered capability, and plans the artifact: the capability's text
    /// document under `{title}.md`, or the asset collection with every
    /// asset named by its zero-padded position and path extension.
    pub fn dispatch(registry: &Registry<P>, params: &TaskCreationParams, text: &str) -> (r: Result<
        OutputPlan,
        TaskError,
    >)
        ensures
            match host_of(params.url@) {
                None => r matches Err(TaskError::InvalidUrl),
                Some(h) => match registry.spec_get(h) {
                    None => r matches Err(TaskError::UnsupportedOrigin),
                    Some(p) => match p.spec_parse(text@) {
                        Err(m) => r matches Err(TaskError::MalformedDocument { message })
                            && message@ == m,
                        Ok(ParseModel::Markdown { title, body }) => r matches Ok(
                            OutputPlan::TextFile { path, contents },
                        ) && path@ == title + ".md"@ && contents@ == body,
                        Ok(ParseModel::Images { title, urls }) => r matches Ok(
                            OutputPlan::AssetJob { title: t, requests },
                        ) && t@ == title && requests@.len() == urls.len() && (forall|k: int|
                            0 <= k < urls.len() ==> (#[trigger] requests@[k]).url@ == urls[k]
                                && requests@[k].name@ == asset_name_of(
                                k as nat,
                                width_of(urls.len()),
                                urls[k],
                            )),
                    },
                },
            },
    {
        let host = match url_host(params.url.as_str()) {
            Some(host) => host,
            None => {
                return Err(TaskError::InvalidUrl);
            },
        };
        let capability = match registry.get(host.as_str()) {
            Some(capability) => capability,
            None => {
                return Err(TaskError::UnsupportedOrigin);
            },
        };
        let parsed = match capability.parse(text) {
            Ok(parsed) => parsed,
            Err(e) => {
                return Err(TaskError::MalformedDocument { message: e.message });
            },
        };
        match parsed {
            ParseResult::Markdown { title, body } => {
                let mut path = title;
                path.append(".md");
                Ok(OutputPlan::TextFile { path, contents: body })
            },
            ParseResult::Images { title, urls } => {
                let w = pad_width(urls.len());
                let mut requests: Vec<AssetRequest> = Vec::new();
                let mut k: usize = 0;
                while k < urls.len()
                    invariant
                        w as nat == width_of(urls@.len() as nat),
                        k <= urls@.len(),
                        requests@.len() == k,
                        forall|kk: int|
                            0 <= kk < k ==> (#[trigger] requests@[kk]).url@ == urls@[kk]@
                                && requests@[kk].name@ == asset_name_of(
                                kk as nat,
                                width_of(urls@.len() as nat),
                                urls@[kk]@,
                            ),
                    decreases urls@.len() - k,
                {
                    let name = asset_name(k, w, urls[k].as_str());
                    requests.push(AssetRequest { url: urls[k].clone(), name });
                    k = k + 1;
                }
                proof {
                    assert(forall|kk: int|
                        0 <= kk < urls@.len() ==> (#[trigger] urls.deep_view()[kk]) == urls@[kk]@);
                }
                Ok(OutputPlan::AssetJob { title, requests })
            },
        }
    }
}

} // verus!
