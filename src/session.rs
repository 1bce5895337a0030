//! The language-server session: request correlation, document versions, the diagnostics
//! cache, the completion slot, and the rule that drops results for superseded documents.
use crate::items::{EditRange, RawCompletionItem};
use crate::server_spec::{spec_for_path, ServerSpec};
use crate::table::PathTable;
use std::collections::HashMap;
use vstd::prelude::*;

verus! {

/// How serious a diagnostic is.
#[derive(Clone, Copy, Debug, PartialEq, Eq, Structural)]
pub enum Severity {
    Error,
    Warning,
    Information,
    Hint,
}

/// One diagnostic published by the server.
#[derive(Clone, Debug)]
pub struct Diagnostic {
    pub range: EditRange,
    pub message: String,
    pub severity: Option<Severity>,
}

/// The newest accepted completion response, waiting to be ranked.
#[derive(Clone, Debug)]
pub struct CompletionUpdate {
    pub path: String,
    pub line: usize,
    pub col: usize,
    pub items: Vec<RawCompletionItem>,
}

/// A decoded message from the server.
#[derive(Debug)]
pub enum ServerEvent {
    /// Diagnostics published for a document, with the document version they were computed on.
    Diagnostics { path: String, version: Option<i32>, diagnostics: Vec<Diagnostic> },
    /// The answer to a completion request, with what the request recorded when it was sent.
    Completion {
        path: String,
        version: i32,
        line: usize,
        col: usize,
        items: Vec<RawCompletionItem>,
    },
}

/// What a completion request recorded when it was sent.
#[derive(Clone, Debug)]
pub struct PendingRequest {
    pub path: String,
    pub version: i32,
    pub line: usize,
    pub col: usize,
}

/// The outstanding requests by id, and the next id to hand out.
pub struct RequestTable {
    next_id: i64,
    pending: HashMap<i64, PendingRequest>,
}

impl RequestTable {
    /// The id the next request gets.
    pub closed spec fn next(&self) -> int {
        self.next_id as int
    }

    /// The outstanding requests.
    pub closed spec fn view(&self) -> Map<i64, PendingRequest> {
        self.pending@
    }

    /// Every outstanding id was handed out before `next`, and ids start at 1.
    pub closed spec fn wf(&self) -> bool {
        &&& self.next_id >= 1
        &&& forall|id: i64| #[trigger] self.pending@.contains_key(id) ==> 1 <= id < self.next_id
    }

    /// An empty table whose first id is 1.
    pub fn new() -> (r: Self)
        ensures
            r.wf(),
            r.next() == 1,
            r.view() == Map::<i64, PendingRequest>::empty(),
    {
        RequestTable { next_id: 1, pending: HashMap::new() }
    }

    /// The id the next request gets.
    pub fn next_id(&self) -> (r: i64)
        ensures
            r == self.next(),
    {
        self.next_id
    }

    /// Hands out a fresh id for a request that expects no correlated result.
    pub fn allocate_id(&mut self) -> (r: i64)
        requires
            old(self).wf(),
            old(self).next() < i64::MAX,
        ensures
            final(self).wf(),
            r == old(self).next(),
            final(self).next() == old(self).next() + 1,
            final(self).view() == old(self).view(),
    {
        let id = self.next_id;
        self.next_id = self.next_id + 1;
        id
    }

    /// Hands out a fresh id for a completion request and records what it was sent with.
    pub fn register_completion(&mut self, path: String, version: i32, line: usize, col: usize) -> (r: i64)
        requires
            old(self).wf(),
            old(self).next() < i64::MAX,
        ensures
            final(self).wf(),
            r == old(self).next(),
            !old(self).view().contains_key(r),
            final(self).next() == old(self).next() + 1,
            final(self).view() == old(self).view().insert(
                r,
                PendingRequest { path, version, line, col },
            ),
    {
        broadcast use vstd::std_specs::hash::group_hash_axioms;

        let id = self.next_id;
        self.next_id = self.next_id + 1;
        self.pending.insert(id, PendingRequest { path, version, line, col });
        id
    }

    /// Forgets a request whose sending failed.
    pub fn cancel(&mut self, id: i64)
        requires
            old(self).wf(),
        ensures
            final(self).wf(),
            final(self).next() == old(self).next(),
            final(self).view() == old(self).view().remove(id),
    {
        broadcast use vstd::std_specs::hash::group_hash_axioms;

        let _ = self.pending.remove(&id);
    }

    /// Removes and returns the request that a response with this id answers.
    pub fn take(&mut self, id: i64) -> (r: Option<PendingRequest>)
        requires
            old(self).wf(),
        ensures
            final(self).wf(),
            final(self).next() == old(self).next(),
            final(self).view() == old(self).view().remove(id),
            r == if old(self).view().contains_key(id) {
                Some(old(self).view()[id])
            } else {
                None
            },
    {
        broadcast use vstd::std_specs::hash::group_hash_axioms;

        self.pending.remove(&id)
    }
}

/// The version counter of the document a client has open.
pub struct DocumentSync {
    open: bool,
    version: i32,
}

/// A document that was just opened: version 1.
pub open spec fn sync_opened() -> (bool, int) {
    (true, 1)
}

/// The counter after one change: the version goes up by exactly one.
pub open spec fn sync_changed(s: (bool, int)) -> (bool, int) {
    (s.0, s.1 + 1)
}

/// The versions that `n` changes in a row return, starting from `s`.
pub open spec fn versions_returned(s: (bool, int), n: nat) -> Seq<int>
    decreases n,
{
    if n == 0 {
        Seq::empty()
    } else {
        seq![sync_changed(s).1] + versions_returned(sync_changed(s), (n - 1) as nat)
    }
}

impl DocumentSync {
    /// Whether a document is open, and its current version.
    pub closed spec fn view(&self) -> (bool, int) {
        (self.open, self.version as int)
    }

    /// No document open yet; the counter stands at 1.
    pub fn new() -> (r: Self)
        ensures
            r.view() == (false, 1int),
    {
        DocumentSync { open: false, version: 1 }
    }

    /// Opens a document (again): its version restarts at 1, which is returned.
    pub fn open_document(&mut self) -> (r: i32)
        ensures
            final(self).view() == sync_opened(),
            r == 1,
    {
        self.open = true;
        self.version = 1;
        self.version
    }

    /// Records one whole-document change and returns the new version.
    pub fn did_change(&mut self) -> (r: i32)
        requires
            old(self).view().1 < i32::MAX,
        ensures
            final(self).view() == sync_changed(old(self).view()),
            r == final(self).view().1,
    {
        self.version = self.version + 1;
        self.version
    }

    /// The current version.
    pub fn version(&self) -> (r: i32)
        ensures
            r == self.view().1,
    {
        self.version
    }

    /// Whether a document is open.
    pub fn is_open(&self) -> (r: bool)
        ensures
            r == self.view().0,
    {
        self.open
    }
}

/// After a document is opened, `n` changes return the versions 2, 3, ..., n + 1: strictly
/// increasing and never repeated.
pub proof fn lemma_change_versions(n: nat)
    ensures
        versions_returned(sync_opened(), n) == Seq::new(n, |i: int| i + 2),
        forall|i: int, j: int|
            0 <= i < j < n ==> versions_returned(sync_opened(), n)[i] < versions_returned(
                sync_opened(),
                n,
            )[j],
{
    lemma_versions_from(sync_opened(), n);
}

proof fn lemma_versions_from(s: (bool, int), n: nat)
    ensures
        versions_returned(s, n) =~= Seq::new(n, |i: int| s.1 + 1 + i),
    decreases n,
{
    if n > 0 {
        lemma_versions_from(sync_changed(s), (n - 1) as nat);
    }
}

/// A result computed on `incoming` is stale when both versions are known and it is older.
pub open spec fn is_stale(incoming: Option<i32>, current: Option<i32>) -> bool {
    incoming is Some && current is Some && incoming->0 < current->0
}

/// The document an event is about.
pub open spec fn event_path(e: ServerEvent) -> Seq<char> {
    match e {
        ServerEvent::Diagnostics { path, .. } => path@,
        ServerEvent::Completion { path, .. } => path@,
    }
}

/// The update a completion event carries; `None` for other events.
pub open spec fn update_of(e: ServerEvent) -> Option<CompletionUpdate> {
    match e {
        ServerEvent::Completion { path, line, col, items, .. } => Some(
            CompletionUpdate { path, line, col, items },
        ),
        _ => None,
    }
}

/// The completion slot after an event, for a document known at version `current`: a
/// completion result that is not stale replaces what the slot held.
pub open spec fn slot_after(
    slot: Option<CompletionUpdate>,
    current: Option<i32>,
    e: ServerEvent,
) -> Option<CompletionUpdate> {
    match e {
        ServerEvent::Completion { version, .. } => if is_stale(Some(version), current) {
            slot
        } else {
            update_of(e)
        },
        _ => slot,
    }
}

/// The version a completion event was tagged with when its request was sent.
pub open spec fn completion_version(e: ServerEvent) -> Option<i32> {
    match e {
        ServerEvent::Completion { version, .. } => Some(version),
        _ => None,
    }
}

/// Of two completion results for a document at version `current`, one computed on an older
/// version and one on the current version, only the current one ends up in the slot,
/// whichever arrives first.
pub proof fn lemma_stale_result_never_wins(
    slot: Option<CompletionUpdate>,
    current: i32,
    older: ServerEvent,
    newer: ServerEvent,
)
    requires
        completion_version(older) is Some && completion_version(older)->0 < current,
        completion_version(newer) == Some(current),
    ensures
        slot_after(slot_after(slot, Some(current), older), Some(current), newer) == update_of(newer),
        slot_after(slot_after(slot, Some(current), newer), Some(current), older) == update_of(newer),
{
}

/// `ds[i]` is the first diagnostic whose range starts on `line`.
pub open spec fn first_on_line(ds: Seq<Diagnostic>, line: int, i: int) -> bool {
    &&& 0 <= i < ds.len()
    &&& ds[i].range.start_line == line
    &&& forall|j: int| 0 <= j < i ==> (#[trigger] ds[j]).range.start_line != line
}

/// What the host does after `LspManager::open_file`.
#[derive(Clone, Copy, Debug, PartialEq, Eq, Structural)]
pub enum OpenPlan {
    /// No server handles this file type: the session is inert for it.
    Disabled,
    /// Start this server (then report with `server_started`), then open the document.
    Start(ServerSpec),
    /// The running server handles this file type too: open the document with it.
    Reuse,
}

/// The session manager's state: the active server, the document versions, the diagnostics
/// cache and the completion slot.
pub struct LspManager {
    active: Option<ServerSpec>,
    versions: PathTable<i32>,
    diagnostics: PathTable<Vec<Diagnostic>>,
    completion: Option<CompletionUpdate>,
}

impl LspManager {
    /// The server that is running, if any.
    pub closed spec fn active(&self) -> Option<ServerSpec> {
        self.active
    }

    /// The last known version of each document.
    pub closed spec fn versions(&self) -> Map<Seq<char>, i32> {
        self.versions.view()
    }

    /// The cached diagnostics of each document.
    pub closed spec fn diagnostics(&self) -> Map<Seq<char>, Vec<Diagnostic>> {
        self.diagnostics.view()
    }

    /// The completion slot.
    pub closed spec fn slot(&self) -> Option<CompletionUpdate> {
        self.completion
    }

    pub closed spec fn wf(&self) -> bool {
        self.versions.wf() && self.diagnostics.wf()
    }

    /// The version a document is known at, if any.
    pub open spec fn known_version(&self, path: Seq<char>) -> Option<i32> {
        if self.versions().contains_key(path) {
            Some(self.versions()[path])
        } else {
            None
        }
    }

    /// No server, nothing cached.
    pub fn new() -> (r: Self)
        ensures
            r.wf(),
            r.active() is None,
            r.versions() == Map::<Seq<char>, i32>::empty(),
            r.diagnostics() == Map::<Seq<char>, Vec<Diagnostic>>::empty(),
            r.slot() is None,
    {
        LspManager {
            active: None,
            versions: PathTable::new(),
            diagnostics: PathTable::new(),
            completion: None,
        }
    }

    fn clear_documents(&mut self)
        ensures
            final(self).wf(),
            final(self).active() == old(self).active(),
            final(self).versions() == Map::<Seq<char>, i32>::empty(),
            final(self).diagnostics() == Map::<Seq<char>, Vec<Diagnostic>>::empty(),
            final(self).slot() is None,
    {
        self.versions.clear();
        self.diagnostics.clear();
        self.completion = None;
    }

    /// Decides what opening `path` takes. With no server for its file type, the server is
    /// dropped and everything cleared. With another server than the running one, everything
    /// is cleared and that server is to be started. Otherwise the running server is reused.
    pub fn open_file(&mut self, path: &str) -> (r: OpenPlan)
        requires
            old(self).wf(),
        ensures
            final(self).wf(),
            match spec_for_path(path@) {
                None => r == OpenPlan::Disabled && final(self).active() is None,
                Some(spec) => if old(self).active() == Some(spec) {
                    r == OpenPlan::Reuse && final(self).active() == old(self).active()
                } else {
                    r == OpenPlan::Start(spec) && final(self).active() is None
                },
            },
            r == OpenPlan::Reuse ==> final(self).versions() == old(self).versions()
                && final(self).diagnostics() == old(self).diagnostics() && final(self).slot()
                == old(self).slot(),
            r != OpenPlan::Reuse ==> final(self).versions() == Map::<Seq<char>, i32>::empty()
                && final(self).diagnostics() == Map::<Seq<char>, Vec<Diagnostic>>::empty()
                && final(self).slot() is None,
    {
        match ServerSpec::from_path(path) {
            None => {
                self.active = None;
                self.clear_documents();
                OpenPlan::Disabled
            },
            Some(spec) => {
                if self.active == Some(spec) {
                    OpenPlan::Reuse
                } else {
                    self.active = None;
                    self.clear_documents();
                    OpenPlan::Start(spec)
                }
            },
        }
    }

    /// Records that `spec`'s server was started.
    pub fn server_started(&mut self, spec: ServerSpec)
        requires
            old(self).wf(),
        ensures
            final(self).wf(),
            final(self).active() == Some(spec),
            final(self).versions() == old(self).versions(),
            final(self).diagnostics() == old(self).diagnostics(),
            final(self).slot() == old(self).slot(),
    {
        self.active = Some(spec);
    }

    /// Drops the server and everything cached, as before a restart.
    pub fn reset(&mut self)
        ensures
            final(self).wf(),
            final(self).active() is None,
            final(self).versions() == Map::<Seq<char>, i32>::empty(),
            final(self).diagnostics() == Map::<Seq<char>, Vec<Diagnostic>>::empty(),
            final(self).slot() is None,
    {
        self.active = None;
        self.clear_documents();
    }

    /// Whether a server is running.
    pub fn is_active(&self) -> (r: bool)
        ensures
            r == self.active() is Some,
    {
        self.active.is_some()
    }

    /// Records the version that the client returned for a document (on open or change).
    pub fn record_version(&mut self, path: String, version: i32)
        requires
            old(self).wf(),
        ensures
            final(self).wf(),
            final(self).active() == old(self).active(),
            final(self).versions() == old(self).versions().insert(path@, version),
            final(self).diagnostics() == old(self).diagnostics(),
            final(self).slot() == old(self).slot(),
    {
        self.versions.insert(path, version);
    }

    /// The version a completion request for `path` is tagged with: the last known one, else 1.
    pub fn request_version(&self, path: &str) -> (r: i32)
        requires
            self.wf(),
        ensures
            r == match self.known_version(path@) {
                Some(v) => v,
                None => 1,
            },
    {
        match self.versions.get(path) {
            Some(v) => *v,
            None => 1,
        }
    }

    /// Takes in one server event. Diagnostics replace the cache entry of their document, and
    /// a completion result fills the slot, unless the result is stale: tagged with a version
    /// older than the document's current one. A stale event changes nothing.
    pub fn handle_event(&mut self, event: ServerEvent)
        requires
            old(self).wf(),
        ensures
            final(self).wf(),
            final(self).active() == old(self).active(),
            final(self).versions() == old(self).versions(),
            final(self).slot() == slot_after(
                old(self).slot(),
                old(self).known_version(event_path(event)),
                event,
            ),
            match event {
                ServerEvent::Diagnostics { path, version, diagnostics } => {
                    &&& final(self).slot() == old(self).slot()
                    &&& if is_stale(version, old(self).known_version(path@)) {
                        final(self).diagnostics() == old(self).diagnostics()
                    } else {
                        final(self).diagnostics() == old(self).diagnostics().insert(
                            path@,
                            diagnostics,
                        )
                    }
                },
                ServerEvent::Completion { path, version, line, col, items } => {
                    &&& final(self).diagnostics() == old(self).diagnostics()
                    &&& if is_stale(Some(version), old(self).known_version(path@)) {
                        final(self).slot() == old(self).slot()
                    } else {
                        final(self).slot() == Some(CompletionUpdate { path, line, col, items })
                    }
                },
            },
    {
        match event {
            ServerEvent::Diagnostics { path, version, diagnostics } => {
                let stale = match (version, self.versions.get(path.as_str())) {
                    (Some(incoming), Some(current)) => incoming < *current,
                    _ => false,
                };
                if !stale {
                    self.diagnostics.insert(path, diagnostics);
                }
            },
            ServerEvent::Completion { path, version, line, col, items } => {
                let stale = match self.versions.get(path.as_str()) {
                    Some(current) => version < *current,
                    None => false,
                };
                if !stale {
                    self.completion = Some(CompletionUpdate { path, line, col, items });
                }
            },
        }
    }

    /// Empties the completion slot and returns what it held.
    pub fn take_completion(&mut self) -> (r: Option<CompletionUpdate>)
        requires
            old(self).wf(),
        ensures
            final(self).wf(),
            r == old(self).slot(),
            final(self).slot() is None,
            final(self).active() == old(self).active(),
            final(self).versions() == old(self).versions(),
            final(self).diagnostics() == old(self).diagnostics(),
    {
        self.completion.take()
    }

    /// The first cached diagnostic of `path` whose range starts on line `line`: its message,
    /// and whether it is a warning.
    pub fn diagnostic_hint_for_line(&self, path: &str, line: usize) -> (r: Option<(String, bool)>)
        requires
            self.wf(),
        ensures
            match r {
                None => !self.diagnostics().contains_key(path@) || forall|i: int|
                    0 <= i < self.diagnostics()[path@]@.len() ==> (
                    #[trigger] self.diagnostics()[path@]@[i]).range.start_line != line,
                Some((message, warning)) => self.diagnostics().contains_key(path@) && exists|i: int|
                    #[trigger] first_on_line(self.diagnostics()[path@]@, line as int, i)
                        && message@ == self.diagnostics()[path@]@[i].message@ && warning == (
                    self.diagnostics()[path@]@[i].severity == Some(Severity::Warning)),
            },
    {
        match self.diagnostics.get(path) {
            None => None,
            Some(ds) => {
                let mut k: usize = 0;
                while k < ds.len()
                    invariant
                        self.diagnostics().contains_key(path@),
                        *ds == self.diagnostics()[path@],
                        k <= ds@.len(),
                        forall|j: int| 0 <= j < k ==> (#[trigger] ds@[j]).range.start_line != line,
                    decreases ds.len() - k,
                {
                    let d = &ds[k];
                    if d.range.start_line as usize == line {
                        let warning = match d.severity {
                            Some(Severity::Warning) => true,
                            _ => false,
                        };
                        assert(first_on_line(ds@, line as int, k as int));
                        return Some((d.message.clone(), warning));
                    }
                    k = k + 1;
                }
                None
            },
        }
    }
}
/// Where an incoming message goes.
#[derive(Debug)]
pub struct Route {
    /// It is a diagnostics notification, to be decoded as such.
    pub diagnostics: bool,
    /// It answers this outstanding completion request, now removed from the table.
    pub completion: Option<PendingRequest>,
}

/// Routes an incoming message by its method name, its id, and whether it carries a result.
/// A `textDocument/publishDiagnostics` notification goes to the diagnostics. A message with
/// an id and a result answers the outstanding request with that id, if there is one, which
/// leaves the table.
pub fn route_message(
    table: &mut RequestTable,
    method: Option<&str>,
    id: Option<i64>,
    has_result: bool,
) -> (r: Route)
    requires
        old(table).wf(),
    ensures
        final(table).wf(),
        final(table).next() == old(table).next(),
        r.diagnostics == match method {
            Some(m) => m@ == "textDocument/publishDiagnostics"@,
            None => false,
        },
        match id {
            Some(i) if has_result => {
                &&& final(table).view() == old(table).view().remove(i)
                &&& r.completion == if old(table).view().contains_key(i) {
                    Some(old(table).view()[i])
                } else {
                    None
                }
            },
            _ => final(table).view() == old(table).view() && r.completion is None,
        },
{
    let diagnostics = match method {
        Some(m) => crate::text::same_text(m, "textDocument/publishDiagnostics"),
        None => false,
    };
    let completion = match id {
        Some(i) => if has_result {
            table.take(i)
        } else {
            None
        },
        None => None,
    };
    Route { diagnostics, completion }
}
/// A completion result tagged with a version older than its document's current one leaves an
/// empty slot empty: no menu can open from it.
pub proof fn lemma_stale_result_opens_nothing(current: i32, e: ServerEvent)
    requires
        completion_version(e) is Some && completion_version(e)->0 < current,
    ensures
        slot_after(None, Some(current), e) is None,
{
}

/// The version map after `n` changes of document `p`, each recording the version that the
/// counter `s` returns (as `LspManager::record_version` after `DocumentSync::did_change`).
pub open spec fn after_changes(
    m: Map<Seq<char>, i32>,
    p: Seq<char>,
    s: (bool, int),
    n: nat,
) -> Map<Seq<char>, i32>
    decreases n,
{
    if n == 0 {
        m
    } else {
        after_changes(m.insert(p, sync_changed(s).1 as i32), p, sync_changed(s), (n - 1) as nat)
    }
}

/// After a document is opened (version 1 recorded), `n` recorded changes leave its version at
/// n + 1, and every other document's entry as it was.
pub proof fn lemma_recorded_versions(m: Map<Seq<char>, i32>, p: Seq<char>, n: nat)
    requires
        n + 1 <= i32::MAX,
    ensures
        after_changes(m.insert(p, 1), p, sync_opened(), n).contains_key(p),
        after_changes(m.insert(p, 1), p, sync_opened(), n)[p] == n + 1,
        forall|q: Seq<char>|
            q != p ==> (#[trigger] after_changes(m.insert(p, 1), p, sync_opened(), n).contains_key(q)
                == m.contains_key(q) && (m.contains_key(q) ==> after_changes(
                m.insert(p, 1),
                p,
                sync_opened(),
                n,
            )[q] == m[q])),
{
    lemma_after_changes(m.insert(p, 1), p, sync_opened(), n);
}

proof fn lemma_after_changes(m: Map<Seq<char>, i32>, p: Seq<char>, s: (bool, int), n: nat)
    requires
        s.1 + n <= i32::MAX,
        s.1 >= 1,
        m.contains_key(p),
        m[p] == s.1,
    ensures
        after_changes(m, p, s, n).contains_key(p),
        after_changes(m, p, s, n)[p] == s.1 + n,
        forall|q: Seq<char>|
            q != p ==> (#[trigger] after_changes(m, p, s, n).contains_key(q) == m.contains_key(q)
                && (m.contains_key(q) ==> after_changes(m, p, s, n)[q] == m[q])),
    decreases n,
{
    if n > 0 {
        let m2 = m.insert(p, sync_changed(s).1 as i32);
        lemma_after_changes(m2, p, sync_changed(s), (n - 1) as nat);
    }
}
} // verus!
