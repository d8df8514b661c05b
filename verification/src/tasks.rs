use vstd::prelude::*;

use crate::room::{clone_opt, opt_view};
use crate::strmap::StrMap;
use crate::text::{owned, str_eq};

verus! {

/// A lightweight work item in a room.
pub struct TaskInfo {
    pub task_id: String,
    pub room_id: String,
    pub title: String,
    pub description: Option<String>,
    pub status: String,
    pub assignee: Option<String>,
    pub created_by: String,
    pub created_at_ms: i64,
    pub updated_at_ms: Option<i64>,
    pub note: Option<String>,
}

/// A task as plain values.
pub struct TaskView {
    pub task_id: Seq<char>,
    pub room_id: Seq<char>,
    pub title: Seq<char>,
    pub description: Option<Seq<char>>,
    pub status: Seq<char>,
    pub assignee: Option<Seq<char>>,
    pub created_by: Seq<char>,
    pub created_at_ms: i64,
    pub updated_at_ms: Option<i64>,
    pub note: Option<Seq<char>>,
}

pub open spec fn task_view(t: TaskInfo) -> TaskView {
    TaskView {
        task_id: t.task_id@,
        room_id: t.room_id@,
        title: t.title@,
        description: opt_view(t.description),
        status: t.status@,
        assignee: opt_view(t.assignee),
        created_by: t.created_by@,
        created_at_ms: t.created_at_ms,
        updated_at_ms: t.updated_at_ms,
        note: opt_view(t.note),
    }
}

pub open spec fn task_views(ts: Seq<TaskInfo>) -> Seq<TaskView> {
    ts.map_values(|t: TaskInfo| task_view(t))
}

/// The status of a new task.
pub open spec fn pending_status() -> Seq<char> {
    seq!['p', 'e', 'n', 'd', 'i', 'n', 'g']
}

/// `t` after an update: each given field replaces the old one, the others
/// stay, and the update time is `now_ms`.
pub open spec fn merged(t: TaskView, status: Option<Seq<char>>, assignee: Option<Seq<char>>, note: Option<Seq<char>>,
    now_ms: i64) -> TaskView {
    TaskView {
        status: match status { Some(s) => s, None => t.status },
        assignee: match assignee { Some(a) => Some(a), None => t.assignee },
        note: match note { Some(n) => Some(n), None => t.note },
        updated_at_ms: Some(now_ms),
        ..t
    }
}

/// The predicate "belongs to `room` and, when a status is given, has it".
pub open spec fn listed(tasks: Map<Seq<char>, TaskView>, room: Seq<char>, status: Option<Seq<char>>) -> spec_fn(Seq<char>) -> bool {
    |id: Seq<char>| tasks.contains_key(id) && tasks[id].room_id == room
        && match status { Some(s) => tasks[id].status == s, None => true }
}

/// Updates that touch different fields do not overwrite each other: a
/// status-only update followed by an assignee-and-note update leaves all
/// three, and the other fields as they were.
pub proof fn lemma_disjoint_updates_merge(t: TaskView, status: Seq<char>, assignee: Seq<char>, note: Seq<char>,
    first_ms: i64, second_ms: i64)
    ensures
        ({
            let after = merged(merged(t, Some(status), None, None, first_ms), None, Some(assignee), Some(note), second_ms);
            &&& after.status == status
            &&& after.assignee == Some(assignee)
            &&& after.note == Some(note)
            &&& after.updated_at_ms == Some(second_ms)
            &&& after.task_id == t.task_id && after.room_id == t.room_id && after.title == t.title
            &&& after.created_by == t.created_by && after.created_at_ms == t.created_at_ms
        }),
{
}

/// An update changes only the fields it names: a field left out keeps its
/// value, a field given takes the given value, the update time is stamped,
/// and nothing else about the task changes.
pub proof fn lemma_update_touches_only_named_fields(t: TaskView, status: Option<Seq<char>>, assignee: Option<Seq<char>>,
    note: Option<Seq<char>>, now_ms: i64)
    ensures
        ({
            let u = merged(t, status, assignee, note, now_ms);
            &&& (status is None ==> u.status == t.status)
            &&& (status matches Some(s) ==> u.status == s)
            &&& (assignee is None ==> u.assignee == t.assignee)
            &&& (assignee matches Some(a) ==> u.assignee == Some(a))
            &&& (note is None ==> u.note == t.note)
            &&& (note matches Some(n) ==> u.note == Some(n))
            &&& u.updated_at_ms == Some(now_ms)
            &&& u.task_id == t.task_id && u.room_id == t.room_id && u.title == t.title
            &&& u.description == t.description && u.created_by == t.created_by && u.created_at_ms == t.created_at_ms
        }),
{
}

/// Updates of different fields commute: setting the status and then the
/// note gives the same task as setting the note and then the status, once
/// both have been stamped with the same final time.
pub proof fn lemma_updates_to_different_fields_commute(t: TaskView, status: Seq<char>, note: Seq<char>, first_ms: i64,
    second_ms: i64)
    ensures
        merged(merged(t, Some(status), None, None, first_ms), None, None, Some(note), second_ms)
            == merged(merged(t, None, None, Some(note), first_ms), Some(status), None, None, second_ms),
{
}

/// A copy of a task.
pub fn clone_task(t: &TaskInfo) -> (r: TaskInfo)
    ensures
        task_view(r) == task_view(*t),
{
    TaskInfo {
        task_id: t.task_id.clone(),
        room_id: t.room_id.clone(),
        title: t.title.clone(),
        description: clone_opt(&t.description),
        status: t.status.clone(),
        assignee: clone_opt(&t.assignee),
        created_by: t.created_by.clone(),
        created_at_ms: t.created_at_ms,
        updated_at_ms: t.updated_at_ms,
        note: clone_opt(&t.note),
    }
}

/// A new pending task, created at `now_ms`.
pub fn new_task(task_id: String, room_id: String, title: String, description: Option<String>,
    assignee: Option<String>, created_by: String, now_ms: i64) -> (r: TaskInfo)
    ensures
        task_view(r) == (TaskView {
            task_id: task_id@,
            room_id: room_id@,
            title: title@,
            description: opt_view(description),
            status: pending_status(),
            assignee: opt_view(assignee),
            created_by: created_by@,
            created_at_ms: now_ms,
            updated_at_ms: None,
            note: None,
        }),
{
    let status = owned("pending");
    proof {
        reveal_strlit("pending");
        assert(status@ =~= pending_status());
    }
    TaskInfo {
        task_id,
        room_id,
        title,
        description,
        status,
        assignee,
        created_by,
        created_at_ms: now_ms,
        updated_at_ms: None,
        note: None,
    }
}

/// In-memory task tracking for rooms, by task id.
pub struct TaskManager {
    tasks: StrMap<TaskInfo>,
}

impl TaskManager {
    pub closed spec fn view(&self) -> Map<Seq<char>, TaskView> {
        Map::new(|k: Seq<char>| self.tasks@.contains_key(k), |k: Seq<char>| task_view(self.tasks@[k]))
    }

    /// Task ids in the order the tasks were first recorded.
    pub closed spec fn order(&self) -> Seq<Seq<char>> {
        self.tasks.key_seq()
    }

    /// Each task is stored under its own id.
    pub closed spec fn wf(&self) -> bool {
        &&& self.tasks.wf()
        &&& forall|k: Seq<char>| #[trigger] self.tasks@.contains_key(k) ==> self.tasks@[k].task_id@ == k
    }

    /// A manager holding the tasks that were persisted, by their ids.
    pub fn new(persisted: Vec<TaskInfo>) -> (r: Self)
        ensures
            r.wf(),
            forall|k: Seq<char>| #[trigger] r@.contains_key(k) <==>
                exists|i: int| 0 <= i < persisted@.len() && persisted@[i].task_id@ == k,
            forall|i: int| 0 <= i < persisted@.len() ==> {
                let k = #[trigger] persisted@[i].task_id@;
                exists|j: int| i <= j < persisted@.len() && persisted@[j].task_id@ == k && r@[k] == task_view(persisted@[j])
                    && forall|l: int| j < l < persisted@.len() ==> persisted@[l].task_id@ != k
            },
    {
        let mut m = TaskManager { tasks: StrMap::new() };
        let mut i: usize = 0;
        proof { assert(m@ =~= Map::<Seq<char>, TaskView>::empty()); }
        while i < persisted.len()
            invariant
                m.wf(),
                i <= persisted@.len(),
                forall|k: Seq<char>| #[trigger] m@.contains_key(k) <==>
                    exists|x: int| 0 <= x < i && persisted@[x].task_id@ == k,
                forall|x: int| 0 <= x < i ==> {
                    let k = #[trigger] persisted@[x].task_id@;
                    exists|j: int| x <= j < i && persisted@[j].task_id@ == k && m@[k] == task_view(persisted@[j])
                        && forall|l: int| j < l < i ==> persisted@[l].task_id@ != k
                },
            decreases persisted@.len() - i,
        {
            let t = clone_task(&persisted[i]);
            let ghost prev = m@;
            let ghost ki = persisted@[i as int].task_id@;
            m.put(t.task_id.clone(), t);
            proof {
                assert forall|k: Seq<char>| #[trigger] m@.contains_key(k) <==>
                    exists|x: int| 0 <= x < i + 1 && persisted@[x].task_id@ == k by {
                    if k == ki {
                        assert(0 <= i < i + 1 && persisted@[i as int].task_id@ == k);
                    } else if exists|x: int| 0 <= x < i + 1 && persisted@[x].task_id@ == k {
                        let x = choose|x: int| 0 <= x < i + 1 && persisted@[x].task_id@ == k;
                        assert(x != i);
                        assert(prev.contains_key(k));
                    }
                }
                assert forall|x: int| 0 <= x < i + 1 implies {
                    let k = #[trigger] persisted@[x].task_id@;
                    exists|j: int| x <= j < i + 1 && persisted@[j].task_id@ == k && m@[k] == task_view(persisted@[j])
                        && forall|l: int| j < l < i + 1 ==> persisted@[l].task_id@ != k
                } by {
                    let k = persisted@[x].task_id@;
                    if k == ki {
                        assert(x <= i && persisted@[i as int].task_id@ == k && m@[k] == task_view(persisted@[i as int]));
                    } else {
                        let j = choose|j: int| x <= j < i && persisted@[j].task_id@ == k && prev[k] == task_view(persisted@[j])
                            && forall|l: int| j < l < i ==> persisted@[l].task_id@ != k;
                        assert(x <= j < i + 1 && persisted@[j].task_id@ == k && m@[k] == task_view(persisted@[j]));
                    }
                }
            }
            i = i + 1;
        }
        m
    }

    fn put(&mut self, key: String, t: TaskInfo)
        requires
            old(self).wf(),
            key@ == t.task_id@,
        ensures
            final(self).wf(),
            final(self)@ == old(self)@.insert(key@, task_view(t)),
            old(self)@.contains_key(key@) ==> final(self).order() == old(self).order(),
    {
        let ghost g = *self;
        let ghost kv = key@;
        self.tasks.insert(key, t);
        proof { assert(self@ =~= g@.insert(kv, task_view(t))); }
    }

    /// Record a new task once its persistence has been attempted: it is
    /// kept only if `saved` is `Ok`; otherwise nothing changes and the
    /// error is handed back.
    pub fn create_task<E>(&mut self, task: TaskInfo, saved: Result<(), E>) -> (r: Result<TaskInfo, E>)
        requires
            old(self).wf(),
        ensures
            final(self).wf(),
            match saved {
                Ok(_) => r matches Ok(t) && task_view(t) == task_view(task)
                    && final(self)@ == old(self)@.insert(task.task_id@, task_view(task)),
                Err(e) => r == Err::<TaskInfo, E>(e) && final(self)@ == old(self)@,
            },
    {
        match saved {
            Ok(_) => {
                let out = clone_task(&task);
                let key = task.task_id.clone();
                self.put(key, task);
                Ok(out)
            }
            Err(e) => Err(e),
        }
    }

    /// The task `task_id` with the update applied at `now_ms`, without
    /// recording it; `None` when there is no such task.
    pub fn plan_update(&self, task_id: &str, status: Option<String>, assignee: Option<String>, note: Option<String>,
        now_ms: i64) -> (r: Option<TaskInfo>)
        requires
            self.wf(),
        ensures
            match r {
                Some(t) => self@.contains_key(task_id@) && t.task_id@ == task_id@
                    && task_view(t) == merged(self@[task_id@], opt_view(status), opt_view(assignee), opt_view(note), now_ms),
                None => !self@.contains_key(task_id@),
            },
    {
        let mut t = match self.tasks.get(task_id) {
            Some(t) => clone_task(t),
            None => return None,
        };
        proof { assert(self.tasks@.contains_key(task_id@)); }
        if let Some(s) = status {
            t.status = s;
        }
        if let Some(a) = assignee {
            t.assignee = Some(a);
        }
        if let Some(n) = note {
            t.note = Some(n);
        }
        t.updated_at_ms = Some(now_ms);
        Some(t)
    }

    /// Record an updated task once its persistence has been attempted: it
    /// replaces the old one only if `saved` is `Ok`.
    pub fn apply_update<E>(&mut self, task: TaskInfo, saved: Result<(), E>) -> (r: Result<TaskInfo, E>)
        requires
            old(self).wf(),
        ensures
            final(self).wf(),
            match saved {
                Ok(_) => r matches Ok(t) && task_view(t) == task_view(task)
                    && final(self)@ == old(self)@.insert(task.task_id@, task_view(task)),
                Err(e) => r == Err::<TaskInfo, E>(e) && final(self)@ == old(self)@,
            },
    {
        self.create_task(task, saved)
    }

    /// The tasks of a room, optionally only those with a given status, in
    /// the order they were first recorded.
    pub fn list_tasks(&self, room_id: &str, status_filter: Option<&str>) -> (r: Vec<TaskInfo>)
        requires
            self.wf(),
        ensures
            task_views(r@) == self.order().filter(listed(self@, room_id@, crate::access::opt_str_view(status_filter)))
                .map_values(|id: Seq<char>| self@[id]),
    {
        let ghost p = listed(self@, room_id@, crate::access::opt_str_view(status_filter));
        let ghost f = |id: Seq<char>| self@[id];
        let mut out: Vec<TaskInfo> = Vec::new();
        let n = self.tasks.len();
        let mut i: usize = 0;
        while i < n
            invariant
                self.wf(),
                n == self.order().len(),
                p == listed(self@, room_id@, crate::access::opt_str_view(status_filter)),
                f == (|id: Seq<char>| self@[id]),
                i <= n,
                task_views(out@) == self.order().subrange(0, i as int).filter(p).map_values(f),
            decreases n - i,
        {
            let ghost order = self.order();
            proof {
                assert(order.subrange(0, i + 1) =~= order.subrange(0, i as int).push(order[i as int]));
                order.subrange(0, i as int).lemma_filter_push(order[i as int], p);
                self.tasks.lemma_key_in_view(i as int);
            }
            let t = self.tasks.value_at(i);
            let keep = str_eq(t.room_id.as_str(), room_id) && match status_filter {
                Some(s) => str_eq(t.status.as_str(), s),
                None => true,
            };
            let ghost prev = out@;
            if keep {
                out.push(clone_task(t));
                proof {
                    let fl = order.subrange(0, i as int).filter(p);
                    let k = order[i as int];
                    assert(self.tasks@.contains_key(k));
                    assert(task_view(out@[out@.len() - 1]) == self@[k]);
                    assert(task_views(prev) == fl.map_values(f));
                    assert(task_views(prev).len() == prev.len());
                    assert(prev.len() == fl.len());
                    assert(out@.len() == fl.push(k).map_values(f).len());
                    assert forall|j: int| 0 <= j < out@.len() implies
                        #[trigger] task_views(out@)[j] == fl.push(k).map_values(f)[j] by {
                        if j < prev.len() {
                            assert(out@[j] == prev[j]);
                            assert(task_views(prev)[j] == fl.map_values(f)[j]);
                            assert(fl.push(k)[j] == fl[j]);
                        } else {
                            assert(fl.push(k)[j] == k);
                            assert(f(k) == self@[k]);
                        }
                    }
                    assert(task_views(out@) =~= fl.push(k).map_values(f));
                }
            }
            i = i + 1;
        }
        proof { assert(self.order().subrange(0, n as int) =~= self.order()); }
        out
    }

    /// A single task by id.
    pub fn get_task(&self, task_id: &str) -> (r: Option<TaskInfo>)
        requires
            self.wf(),
        ensures
            match r {
                Some(t) => self@.contains_key(task_id@) && t.task_id@ == task_id@ && task_view(t) == self@[task_id@],
                None => !self@.contains_key(task_id@),
            },
    {
        match self.tasks.get(task_id) {
            Some(t) => Some(clone_task(t)),
            None => None,
        }
    }

    /// Drop every task of a room.
    pub fn forget_room(&mut self, room_id: &str)
        requires
            old(self).wf(),
        ensures
            final(self).wf(),
            forall|k: Seq<char>| #[trigger] final(self)@.contains_key(k) <==>
                old(self)@.contains_key(k) && old(self)@[k].room_id != room_id@,
            forall|k: Seq<char>| #[trigger] final(self)@.contains_key(k) ==> final(self)@[k] == old(self)@[k],
    {
        let ghost g = *self;
        let mut kept: StrMap<TaskInfo> = StrMap::new();
        let n = self.tasks.len();
        let mut i: usize = 0;
        while i < n
            invariant
                *self == g,
                g.wf(),
                n == g.order().len(),
                i <= n,
                kept.wf(),
                forall|k: Seq<char>| #[trigger] kept@.contains_key(k) <==>
                    g@.contains_key(k) && g@[k].room_id != room_id@ && (exists|j: int| 0 <= j < i && g.order()[j] == k),
                forall|k: Seq<char>| #[trigger] kept@.contains_key(k) ==> task_view(kept@[k]) == g@[k],
            decreases n - i,
        {
            let key = self.tasks.key_at(i);
            let t = self.tasks.value_at(i);
            let ghost k = key@;
            proof {
                self.tasks.lemma_key_in_view(i as int);
                assert(g.order()[i as int] == k);
                if exists|j: int| 0 <= j < i && g.order()[j] == k {
                    let j = choose|j: int| 0 <= j < i && g.order()[j] == k;
                    g.tasks.lemma_keys_distinct(j, i as int);
                }
                assert(g@.contains_key(k));
            }
            let ghost prev = kept@;
            if !str_eq(t.room_id.as_str(), room_id) {
                kept.insert(key.clone(), clone_task(t));
            }
            proof {
                assert forall|v: Seq<char>| #[trigger] kept@.contains_key(v) <==>
                    g@.contains_key(v) && g@[v].room_id != room_id@ && (exists|j: int| 0 <= j < i + 1 && g.order()[j] == v) by {
                    if v != k {
                        if exists|j: int| 0 <= j < i + 1 && g.order()[j] == v {
                            let j = choose|j: int| 0 <= j < i + 1 && g.order()[j] == v;
                            assert(j != i);
                            assert(exists|j: int| 0 <= j < i && g.order()[j] == v);
                        }
                        if exists|j: int| 0 <= j < i && g.order()[j] == v {
                            let j = choose|j: int| 0 <= j < i && g.order()[j] == v;
                            assert(0 <= j < i + 1 && g.order()[j] == v);
                        }
                    } else {
                        assert(0 <= i < i + 1 && g.order()[i as int] == v);
                    }
                }
                assert forall|v: Seq<char>| #[trigger] kept@.contains_key(v) implies task_view(kept@[v]) == g@[v] by {
                    if v != k {
                        assert(prev.contains_key(v));
                    }
                }
            }
            i = i + 1;
        }
        proof {
            assert forall|v: Seq<char>| g@.contains_key(v) implies exists|j: int| 0 <= j < n && g.order()[j] == v by {
                g.tasks.lemma_view_finite();
                assert(g.tasks@.contains_key(v));
                assert(g.order().to_set().contains(v));
            }
        }
        self.tasks = kept;
    }
}

} // verus!
