use cowchat_server::tasks::{new_task, TaskInfo, TaskManager};

fn task(id: &str, room: &str, title: &str, assignee: Option<&str>, now: i64) -> TaskInfo {
    new_task(id.into(), room.into(), title.into(), None, assignee.map(|a| a.to_string()), "creator".into(), now)
}

/// What a store would hand back: every task persisted so far, oldest first.
fn persisted(manager: &TaskManager, ids: &[&str]) -> Vec<TaskInfo> {
    ids.iter().filter_map(|id| manager.get_task(id)).collect()
}

#[test]
fn tasks_survive_manager_restart() {
    let mut manager = TaskManager::new(vec![]);
    let saved: Result<(), String> = Ok(());
    manager.create_task(task("task-1", "lobby", "Persist me", Some("agent"), 1), saved.clone()).unwrap();
    let updated = manager.plan_update("task-1", Some("in_progress".into()), None, None, 2).unwrap();
    manager.apply_update(updated, saved).unwrap();
    let rows = persisted(&manager, &["task-1"]);
    drop(manager);

    let restored = TaskManager::new(rows);
    let task = restored.get_task("task-1").expect("task must reload");
    assert_eq!(task.status, "in_progress");
    assert_eq!(task.assignee.as_deref(), Some("agent"));
}

#[test]
fn persistence_failure_does_not_acknowledge_or_mutate_task_state() {
    let mut manager = TaskManager::new(vec![]);
    let failed: Result<(), String> = Err("FOREIGN KEY constraint failed".into());
    let create = manager.create_task(task("bad-create", "missing-room", "Must fail", None, 1), failed.clone());
    assert!(create.is_err());
    assert!(manager.get_task("bad-create").is_none());

    let ok: Result<(), String> = Ok(());
    manager.create_task(task("bad-update", "missing-room", "Must stay pending", None, 1), ok).unwrap();
    let planned = manager
        .plan_update("bad-update", Some("completed".into()), None, Some("not persisted".into()), 2)
        .unwrap();
    let update = manager.apply_update(planned, failed);
    assert!(update.is_err());
    assert_eq!(manager.get_task("bad-update").unwrap().status, "pending");
}

#[test]
fn concurrent_disjoint_updates_are_serialized_and_merged() {
    let mut manager = TaskManager::new(vec![]);
    let ok: Result<(), String> = Ok(());
    manager.create_task(task("concurrent", "lobby", "Merge updates", None, 1), ok.clone()).unwrap();
    let first = manager.plan_update("concurrent", Some("completed".into()), None, None, 2).unwrap();
    manager.apply_update(first, ok.clone()).unwrap();
    let second = manager.plan_update("concurrent", None, Some("agent".into()), Some("done".into()), 3).unwrap();
    manager.apply_update(second, ok).unwrap();
    let task = manager.get_task("concurrent").unwrap();
    assert_eq!(task.status, "completed");
    assert_eq!(task.assignee.as_deref(), Some("agent"));
    assert_eq!(task.note.as_deref(), Some("done"));
    assert_eq!(task.updated_at_ms, Some(3));
}

#[test]
fn destroyed_room_tasks_are_removed_from_memory() {
    let mut manager = TaskManager::new(vec![]);
    let ok: Result<(), String> = Ok(());
    manager.create_task(task("doomed-task", "doomed", "Remove me", None, 1), ok.clone()).unwrap();
    manager.create_task(task("kept-task", "lobby", "Keep me", None, 1), ok).unwrap();
    manager.forget_room("doomed");
    assert!(manager.get_task("doomed-task").is_none());
    assert!(manager.get_task("kept-task").is_some());
}

#[test]
fn new_tasks_are_pending_and_listing_filters_by_room_and_status() {
    let mut manager = TaskManager::new(vec![]);
    let ok: Result<(), String> = Ok(());
    let t = manager.create_task(task("t1", "lobby", "One", None, 10), ok.clone()).unwrap();
    assert_eq!(t.status, "pending");
    assert_eq!(t.created_at_ms, 10);
    assert_eq!(t.updated_at_ms, None);
    manager.create_task(task("t2", "lobby", "Two", None, 11), ok.clone()).unwrap();
    manager.create_task(task("t3", "other", "Three", None, 12), ok.clone()).unwrap();
    let done = manager.plan_update("t2", Some("done".into()), None, None, 13).unwrap();
    manager.apply_update(done, ok).unwrap();
    let all: Vec<String> = manager.list_tasks("lobby", None).into_iter().map(|t| t.task_id).collect();
    assert_eq!(all, vec!["t1".to_string(), "t2".to_string()]);
    let pending: Vec<String> = manager.list_tasks("lobby", Some("pending")).into_iter().map(|t| t.task_id).collect();
    assert_eq!(pending, vec!["t1".to_string()]);
    assert!(manager.plan_update("missing", Some("x".into()), None, None, 14).is_none());
}

#[test]
fn restoring_keeps_the_last_persisted_copy_of_a_task() {
    let older = task("t", "lobby", "Old", None, 1);
    let newer = task("t", "lobby", "New", None, 2);
    let restored = TaskManager::new(vec![older, newer]);
    assert_eq!(restored.get_task("t").unwrap().title, "New");
}
