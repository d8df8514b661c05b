use vstd::prelude::*;

use vstd::string::StringExecFns;

use crate::rate_limit::{free_limits, pro_limits, TierLimits};
use crate::text::owned;
use crate::webhooks::{nat_decimal, push_decimal};

verus! {

/// The identity of a file-system entry at a listener path.
#[derive(Debug, Clone, Copy, PartialEq, Eq, Structural)]
pub struct SocketId {
    pub is_socket: bool,
    pub device: u64,
    pub inode: u64,
}

/// What a look at the listener path found.
#[derive(Debug, Clone, Copy, PartialEq, Eq, Structural)]
pub enum PathProbe {
    Absent,
    Present(SocketId),
    Failed,
}

/// What connecting to an existing socket found.
#[derive(Debug, Clone, Copy, PartialEq, Eq, Structural)]
pub enum ConnectProbe {
    /// Something accepts connections there.
    Accepting,
    /// Refused, or the path vanished: nobody listens.
    Refused,
    /// Any other error.
    Failed,
}

/// What binding the path did.
#[derive(Debug, Clone, Copy, PartialEq, Eq, Structural)]
pub enum BindOutcome {
    Bound,
    AddrInUse,
    Failed,
}

/// Where claiming a Unix listener path stands.
#[derive(Debug, Clone, Copy, PartialEq, Eq, Structural)]
pub enum BindStage {
    Probe,
    Connect(SocketId),
    Recheck(SocketId),
    Bind,
    Done,
    Failed,
}

#[derive(Debug, Clone, Copy, PartialEq, Eq, Structural)]
pub enum BindEvent {
    Path(PathProbe),
    Connected(ConnectProbe),
    Bound(BindOutcome),
}

/// What to do next.
#[derive(Debug, Clone, Copy, PartialEq, Eq, Structural)]
pub enum BindAction {
    ProbePath,
    TryConnect,
    RecheckPath,
    /// Remove the stale socket found at the path, then bind.
    RemoveStale,
    Bind,
    /// Refuse: the path holds something that is not a socket.
    ReportNotSocket,
    /// Refuse: a live server accepts connections on the path.
    ReportInUse,
    /// Refuse: connecting to the old socket failed otherwise.
    ReportConnectError,
    /// Refuse: a file-system error.
    ReportError,
    Finish,
}

/// Whether two entries are the same socket.
pub open spec fn same_socket(a: SocketId, b: SocketId) -> bool {
    a.is_socket && b.is_socket && a.device == b.device && a.inode == b.inode
}

/// The transition of claiming a Unix listener path. A socket is removed
/// only after a connection to it was refused and a second look found the
/// very same socket; anything else at the path is left alone.
pub open spec fn bind_transition(stage: BindStage, event: BindEvent) -> (BindStage, BindAction) {
    match (stage, event) {
        (BindStage::Probe, BindEvent::Path(PathProbe::Absent)) => (BindStage::Bind, BindAction::Bind),
        (BindStage::Probe, BindEvent::Path(PathProbe::Present(id))) => if id.is_socket {
            (BindStage::Connect(id), BindAction::TryConnect)
        } else {
            (BindStage::Failed, BindAction::ReportNotSocket)
        },
        (BindStage::Connect(_), BindEvent::Connected(ConnectProbe::Accepting)) => (BindStage::Failed, BindAction::ReportInUse),
        (BindStage::Connect(id), BindEvent::Connected(ConnectProbe::Refused)) => (BindStage::Recheck(id), BindAction::RecheckPath),
        (BindStage::Connect(_), BindEvent::Connected(ConnectProbe::Failed)) => (BindStage::Failed, BindAction::ReportConnectError),
        (BindStage::Recheck(_), BindEvent::Path(PathProbe::Absent)) => (BindStage::Probe, BindAction::ProbePath),
        (BindStage::Recheck(id), BindEvent::Path(PathProbe::Present(cur))) => if same_socket(id, cur) {
            (BindStage::Bind, BindAction::RemoveStale)
        } else {
            (BindStage::Probe, BindAction::ProbePath)
        },
        (BindStage::Bind, BindEvent::Bound(BindOutcome::Bound)) => (BindStage::Done, BindAction::Finish),
        (BindStage::Bind, BindEvent::Bound(BindOutcome::AddrInUse)) => (BindStage::Probe, BindAction::ProbePath),
        _ => (BindStage::Failed, BindAction::ReportError),
    }
}

/// One step of claiming a Unix listener path.
pub fn bind_step(stage: BindStage, event: BindEvent) -> (r: (BindStage, BindAction))
    ensures
        r == bind_transition(stage, event),
{
    match (stage, event) {
        (BindStage::Probe, BindEvent::Path(PathProbe::Absent)) => (BindStage::Bind, BindAction::Bind),
        (BindStage::Probe, BindEvent::Path(PathProbe::Present(id))) => if id.is_socket {
            (BindStage::Connect(id), BindAction::TryConnect)
        } else {
            (BindStage::Failed, BindAction::ReportNotSocket)
        },
        (BindStage::Connect(_), BindEvent::Connected(ConnectProbe::Accepting)) => (BindStage::Failed, BindAction::ReportInUse),
        (BindStage::Connect(id), BindEvent::Connected(ConnectProbe::Refused)) => (BindStage::Recheck(id), BindAction::RecheckPath),
        (BindStage::Connect(_), BindEvent::Connected(ConnectProbe::Failed)) => (BindStage::Failed, BindAction::ReportConnectError),
        (BindStage::Recheck(_), BindEvent::Path(PathProbe::Absent)) => (BindStage::Probe, BindAction::ProbePath),
        (BindStage::Recheck(id), BindEvent::Path(PathProbe::Present(cur))) => {
            if id.is_socket && cur.is_socket && id.device == cur.device && id.inode == cur.inode {
                (BindStage::Bind, BindAction::RemoveStale)
            } else {
                (BindStage::Probe, BindAction::ProbePath)
            }
        }
        (BindStage::Bind, BindEvent::Bound(BindOutcome::Bound)) => (BindStage::Done, BindAction::Finish),
        (BindStage::Bind, BindEvent::Bound(BindOutcome::AddrInUse)) => (BindStage::Probe, BindAction::ProbePath),
        _ => (BindStage::Failed, BindAction::ReportError),
    }
}

/// A socket is removed only when a refused connection was followed by a
/// second look at the very same socket: a live listener and a path that is
/// not a socket are never removed.
pub proof fn lemma_only_stale_sockets_are_removed(stage: BindStage, event: BindEvent)
    requires
        bind_transition(stage, event).1 == BindAction::RemoveStale,
    ensures
        stage matches BindStage::Recheck(id) && event matches BindEvent::Path(PathProbe::Present(cur)) && same_socket(id, cur),
{
}

/// A live listener is never replaced: an accepted connection always ends in
/// a refusal.
pub proof fn lemma_live_socket_is_kept(id: SocketId)
    ensures
        bind_transition(BindStage::Connect(id), BindEvent::Connected(ConnectProbe::Accepting))
            == (BindStage::Failed, BindAction::ReportInUse),
{
}

/// Whether the path still holds the socket this server created, so that
/// removing it on shutdown cannot unlink a replacement.
pub fn still_owns_socket(owned_id: SocketId, current: PathProbe) -> (r: bool)
    ensures
        r == (current matches PathProbe::Present(cur) && same_socket(owned_id, cur)),
{
    match current {
        PathProbe::Present(cur) => owned_id.is_socket && cur.is_socket && owned_id.device == cur.device && owned_id.inode == cur.inode,
        _ => false,
    }
}

/// The SQLite time modifier for a retention window of `days` days.
pub fn retention_modifier(days: u32) -> (r: String)
    ensures
        r@ == "-"@ + nat_decimal(days as nat) + " days"@,
{
    let mut m = owned("-");
    push_decimal(&mut m, days as u64);
    m.append(" days");
    m
}

/// The tiers whose history is purged, with their retention in days, in the
/// order the purge visits them.
pub open spec fn retention_plan() -> Seq<(Seq<char>, u32)> {
    let f = free_limits().history_retention_days;
    let p = pro_limits().history_retention_days;
    (if f is Some { seq![("free"@, f->Some_0)] } else { Seq::empty() })
        + (if p is Some { seq![("pro"@, p->Some_0)] } else { Seq::empty() })
}

/// The retention purges to run: each tier with a retention window, and its
/// window in days.
pub fn retention_purges() -> (r: Vec<(String, u32)>)
    ensures
        r@.len() == retention_plan().len(),
        forall|i: int| 0 <= i < r@.len() ==> (#[trigger] r@[i]).0@ == retention_plan()[i].0 && r@[i].1 == retention_plan()[i].1,
{
    let mut out: Vec<(String, u32)> = Vec::new();
    let free = TierLimits::free();
    if let Some(d) = free.history_retention_days {
        out.push((owned("free"), d));
    }
    let pro = TierLimits::pro();
    if let Some(d) = pro.history_retention_days {
        out.push((owned("pro"), d));
    }
    proof {
        assert(retention_plan() =~= seq![("free"@, 14u32), ("pro"@, 90u32)]);
    }
    out
}

/// Which query reads a room's history.
pub enum HistoryQuery {
    /// Messages after this sequence number, oldest first.
    SinceSeq(i64),
    /// Messages after this message, oldest first.
    SinceMessage(String),
    /// The newest messages before this time (milliseconds), newest first.
    Before(i64),
    /// The newest messages, newest first.
    Latest,
}

/// The history query for a request: a sequence floor wins, then a message
/// to start after, then a time bound. Returns whether the rows come newest
/// first and must be reversed into chronological order.
pub fn plan_history_query(since_seq: Option<i64>, since: Option<String>, before_ms: Option<i64>) -> (r: (HistoryQuery, bool))
    ensures
        since_seq matches Some(s) ==> (r.0 matches HistoryQuery::SinceSeq(x) && x == s) && !r.1,
        since_seq is None && since is Some ==> (r.0 matches HistoryQuery::SinceMessage(m) && m@ == since->Some_0@) && !r.1,
        since_seq is None && since is None && before_ms is Some ==> (r.0 matches HistoryQuery::Before(b) && b == before_ms->Some_0) && r.1,
        since_seq is None && since is None && before_ms is None ==> r.0 is Latest && r.1,
{
    if let Some(s) = since_seq {
        return (HistoryQuery::SinceSeq(s), false);
    }
    if let Some(m) = since {
        return (HistoryQuery::SinceMessage(m), false);
    }
    match before_ms {
        Some(b) => (HistoryQuery::Before(b), true),
        None => (HistoryQuery::Latest, true),
    }
}

} // verus!
