use hello_work::db::{
    add_project, add_task, add_work_session, archive_project, delete_task, get_projects,
    get_tasks, get_work_hours_for_day, init_db, update_project, update_task, Project,
    StorageError, WorkSession,
};

const HOUR: u64 = 3600;

fn session(t: u64, d: u64, p: Option<usize>) -> WorkSession {
    WorkSession { time_start: t, duration: d, project_id: p }
}

fn project_by_id(v: &[Project], id: usize) -> &Project {
    v.iter().find(|p| p.id == id).expect("project missing from listing")
}

/// R has children A and B, A has child C; sessions of 10, 20 and 30 hours
/// against R, A and C roll up to 30 for C, 50 for A, 60 for R.
#[test]
fn aggregation_rollup_three_generations() {
    let mut db = init_db();
    let r = add_project(&mut db, None).unwrap();
    let a = add_project(&mut db, Some(r)).unwrap();
    let b = add_project(&mut db, Some(r)).unwrap();
    let c = add_project(&mut db, Some(a)).unwrap();
    add_work_session(&mut db, &session(0, 10 * HOUR, Some(r))).unwrap();
    add_work_session(&mut db, &session(1, 20 * HOUR, Some(a))).unwrap();
    add_work_session(&mut db, &session(2, 30 * HOUR, Some(c))).unwrap();
    let v = get_projects(&db).unwrap();
    assert_eq!(v.len(), 4);
    assert_eq!(project_by_id(&v, c).total_seconds, 30 * HOUR);
    assert_eq!(project_by_id(&v, a).total_seconds, 50 * HOUR);
    assert_eq!(project_by_id(&v, r).total_seconds, 60 * HOUR);
    assert_eq!(project_by_id(&v, b).total_seconds, 0);
    assert_eq!(project_by_id(&v, r).children, vec![a, b]);
    assert_eq!(project_by_id(&v, a).children, vec![c]);
    assert_eq!(project_by_id(&v, b).children, Vec::<usize>::new());
}

/// An unattributed session contributes to no project's total.
#[test]
fn unattributed_session_counts_nowhere() {
    let mut db = init_db();
    let r = add_project(&mut db, None).unwrap();
    add_work_session(&mut db, &session(0, 5 * HOUR, None)).unwrap();
    let v = get_projects(&db).unwrap();
    assert_eq!(project_by_id(&v, r).total_seconds, 0);
}

/// Archiving a descendant with recorded work keeps its contribution in
/// every ancestor's total; only the node itself leaves the listing.
#[test]
fn archived_descendant_still_contributes() {
    let mut db = init_db();
    let r = add_project(&mut db, None).unwrap();
    let a = add_project(&mut db, Some(r)).unwrap();
    let c = add_project(&mut db, Some(a)).unwrap();
    add_work_session(&mut db, &session(0, 30 * HOUR, Some(c))).unwrap();
    assert_eq!(archive_project(&mut db, c), Ok(1));
    let v = get_projects(&db).unwrap();
    assert!(v.iter().all(|p| p.id != c));
    assert_eq!(project_by_id(&v, a).total_seconds, 30 * HOUR);
    assert_eq!(project_by_id(&v, r).total_seconds, 30 * HOUR);
    // The row itself persists, soft-hidden.
    assert!(db.projects.iter().any(|row| row.id == c && row.archived));
}

/// A project with zero children and zero sessions is permanently removed
/// and its id is never handed out again.
#[test]
fn leaf_empty_project_is_deleted_for_good() {
    let mut db = init_db();
    let d = add_project(&mut db, None).unwrap();
    assert_eq!(archive_project(&mut db, d), Ok(1));
    assert!(get_projects(&db).unwrap().is_empty());
    assert!(db.projects.is_empty());
    let e = add_project(&mut db, None).unwrap();
    assert_ne!(e, d);
}

/// A project with a child or a session is archived: the row persists,
/// flagged, and leaves the listing.
#[test]
fn non_empty_project_is_archived_not_deleted() {
    let mut db = init_db();
    let parent = add_project(&mut db, None).unwrap();
    let _child = add_project(&mut db, Some(parent)).unwrap();
    assert_eq!(archive_project(&mut db, parent), Ok(1));
    assert!(db.projects.iter().any(|row| row.id == parent && row.archived));
    assert!(get_projects(&db).unwrap().iter().all(|p| p.id != parent));

    let mut db2 = init_db();
    let solo = add_project(&mut db2, None).unwrap();
    add_work_session(&mut db2, &session(0, 60, Some(solo))).unwrap();
    assert_eq!(archive_project(&mut db2, solo), Ok(1));
    assert!(db2.projects.iter().any(|row| row.id == solo && row.archived));
}

/// Archiving a vanished id is a benign no-op reported as zero rows.
#[test]
fn archive_missing_id_is_noop() {
    let mut db = init_db();
    assert_eq!(archive_project(&mut db, 42), Ok(0));
    assert!(db.projects.is_empty());
}

/// Deleting a leaf-empty project cascades onto its tasks and no others.
#[test]
fn cascade_deletes_only_owned_tasks() {
    let mut db = init_db();
    let e = add_project(&mut db, None).unwrap();
    let keep = add_project(&mut db, None).unwrap();
    add_task(&mut db, "owned".to_string(), Some(e)).unwrap();
    add_task(&mut db, "other".to_string(), Some(keep)).unwrap();
    add_task(&mut db, "loose".to_string(), None).unwrap();
    assert_eq!(archive_project(&mut db, e), Ok(1));
    assert!(db.tasks.iter().all(|t| t.project_id != Some(e)));
    assert_eq!(db.tasks.len(), 2);
    assert_eq!(get_tasks(&db, Some(keep)).unwrap().len(), 1);
    assert_eq!(get_tasks(&db, None).unwrap().len(), 1);
}

/// New projects start with an empty name, no goal and the given parent.
#[test]
fn add_project_defaults() {
    let mut db = init_db();
    let r = add_project(&mut db, None).unwrap();
    let row = &db.projects[0];
    assert_eq!(row.id, r);
    assert_eq!(row.name, "");
    assert_eq!(row.target_hours, None);
    assert_eq!(row.parent, None);
    assert!(!row.archived);
}

/// A parent that does not exist is a constraint violation.
#[test]
fn add_project_rejects_missing_parent() {
    let mut db = init_db();
    assert_eq!(add_project(&mut db, Some(7)), Err(StorageError::ConstraintViolation));
    assert!(db.projects.is_empty());
}

/// Updating overwrites name, goal and parent; a vanished id affects zero
/// rows; a parent inside the project's own subtree is refused.
#[test]
fn update_project_rules() {
    let mut db = init_db();
    let r = add_project(&mut db, None).unwrap();
    let a = add_project(&mut db, Some(r)).unwrap();
    let p = Project {
        id: a,
        name: "renamed".to_string(),
        target_hours: Some(12),
        parent: None,
        children: vec![],
        total_seconds: 0,
    };
    assert_eq!(update_project(&mut db, &p), Ok(1));
    let row = db.projects.iter().find(|row| row.id == a).unwrap();
    assert_eq!(row.name, "renamed");
    assert_eq!(row.target_hours, Some(12));
    assert_eq!(row.parent, None);

    let absent = Project { id: 99, name: String::new(), target_hours: None, parent: None, children: vec![], total_seconds: 0 };
    assert_eq!(update_project(&mut db, &absent), Ok(0));

    // Re-parenting the root under its own descendant would close a cycle.
    let b = add_project(&mut db, Some(r)).unwrap();
    let cyclic = Project { id: r, name: String::new(), target_hours: None, parent: Some(b), children: vec![], total_seconds: 0 };
    assert_eq!(update_project(&mut db, &cyclic), Err(StorageError::ConstraintViolation));
    // Self-parenting is the one-step cycle.
    let selfp = Project { id: r, name: String::new(), target_hours: None, parent: Some(r), children: vec![], total_seconds: 0 };
    assert_eq!(update_project(&mut db, &selfp), Err(StorageError::ConstraintViolation));
}

/// A session naming a project that does not exist is a constraint
/// violation; nothing is written.
#[test]
fn add_work_session_rejects_dangling_project() {
    let mut db = init_db();
    assert_eq!(
        add_work_session(&mut db, &session(0, 60, Some(3))),
        Err(StorageError::ConstraintViolation)
    );
    assert!(db.work.is_empty());
}

/// Recorded durations whose grand total would overflow are refused.
#[test]
fn add_work_session_rejects_overflow() {
    let mut db = init_db();
    add_work_session(&mut db, &session(0, u64::MAX, None)).unwrap();
    assert_eq!(
        add_work_session(&mut db, &session(1, 1, None)),
        Err(StorageError::ConstraintViolation)
    );
    assert_eq!(db.work.len(), 1);
}

/// The day bucket runs from the offset boundary for 24 hours, inclusive at
/// the start and exclusive at the end.
#[test]
fn day_window_edges() {
    let mut db = init_db();
    let day: u64 = 100;
    let start = day * 86400 + 4 * 3600;
    add_work_session(&mut db, &session(start, 10, None)).unwrap();
    add_work_session(&mut db, &session(start + 86399, 20, None)).unwrap();
    add_work_session(&mut db, &session(start + 86400, 40, None)).unwrap();
    add_work_session(&mut db, &session(start - 1, 80, None)).unwrap();
    assert_eq!(get_work_hours_for_day(&db, day, 4), 30);
}

/// With the boundary at 4, a session starting at 02:00 belongs to the
/// previous calendar day's bucket, not to its nominal date.
#[test]
fn day_boundary_offset_attributes_early_morning_backwards() {
    let mut db = init_db();
    let day: u64 = 200;
    let two_am = day * 86400 + 2 * 3600;
    add_work_session(&mut db, &session(two_am, 90, None)).unwrap();
    assert_eq!(get_work_hours_for_day(&db, day, 4), 0);
    assert_eq!(get_work_hours_for_day(&db, day - 1, 4), 90);
    // Without the offset the same session sits on its nominal date.
    assert_eq!(get_work_hours_for_day(&db, day, 0), 90);
    // The offset is reduced modulo 24.
    assert_eq!(get_work_hours_for_day(&db, day - 1, 28), 90);
}

/// Task CRUD: listing filters by project, renames hit one row, deletes are
/// exact, and vanished ids are benign no-ops.
#[test]
fn task_crud() {
    let mut db = init_db();
    let p = add_project(&mut db, None).unwrap();
    let t1 = add_task(&mut db, "one".to_string(), Some(p)).unwrap();
    let t2 = add_task(&mut db, "two".to_string(), None).unwrap();
    assert_ne!(t1, t2);
    let of_p = get_tasks(&db, Some(p)).unwrap();
    assert_eq!(of_p.len(), 1);
    assert_eq!(of_p[0].name, "one");
    let loose = get_tasks(&db, None).unwrap();
    assert_eq!(loose.len(), 1);
    assert_eq!(loose[0].name, "two");

    assert_eq!(update_task(&mut db, t1, "renamed".to_string()), Ok(1));
    assert_eq!(get_tasks(&db, Some(p)).unwrap()[0].name, "renamed");
    assert_eq!(update_task(&mut db, 999, "x".to_string()), Ok(0));

    assert_eq!(delete_task(&mut db, t2), Ok(1));
    assert!(get_tasks(&db, None).unwrap().is_empty());
    assert_eq!(delete_task(&mut db, t2), Ok(0));

    assert_eq!(
        add_task(&mut db, "dangling".to_string(), Some(77)),
        Err(StorageError::ConstraintViolation)
    );
}

/// The listing reports a project's children in row order, archived
/// children included; the tree walk later drops the hidden ones.
#[test]
fn children_include_archived_rows() {
    let mut db = init_db();
    let r = add_project(&mut db, None).unwrap();
    let a = add_project(&mut db, Some(r)).unwrap();
    let b = add_project(&mut db, Some(r)).unwrap();
    add_work_session(&mut db, &session(0, 60, Some(a))).unwrap();
    assert_eq!(archive_project(&mut db, a), Ok(1));
    let v = get_projects(&db).unwrap();
    assert_eq!(project_by_id(&v, r).children, vec![a, b]);
}


/// Re-parenting to a project outside the subtree is accepted and the
/// listing reflects the move.
#[test]
fn reparent_to_sibling() {
    let mut db = init_db();
    let r = add_project(&mut db, None).unwrap();
    let a = add_project(&mut db, Some(r)).unwrap();
    let b = add_project(&mut db, Some(r)).unwrap();
    let moved = Project {
        id: b,
        name: String::new(),
        target_hours: None,
        parent: Some(a),
        children: vec![],
        total_seconds: 0,
    };
    assert_eq!(update_project(&mut db, &moved), Ok(1));
    let v = get_projects(&db).unwrap();
    assert_eq!(project_by_id(&v, a).children, vec![b]);
    assert_eq!(project_by_id(&v, r).children, vec![a]);
}
