use hello_work::db::{add_project, add_task, add_work_session, init_db, WorkSession};
use hello_work::projects::Projects;
use hello_work::todo_tasks::TodoTasks;

/// The tree walk lists roots in order and children beneath their parents,
/// each entry annotated with its depth.
#[test]
fn tree_listing_is_preorder_with_depths() {
    let mut db = init_db();
    let r = add_project(&mut db, None).unwrap();
    let a = add_project(&mut db, Some(r)).unwrap();
    let b = add_project(&mut db, Some(r)).unwrap();
    let c = add_project(&mut db, Some(a)).unwrap();
    let r2 = add_project(&mut db, None).unwrap();
    let cache = Projects::new(&db);
    let walk: Vec<(usize, usize)> =
        cache.get_all_tree_style().into_iter().map(|(d, p)| (d, p.id)).collect();
    assert_eq!(walk, vec![(0, r), (1, a), (2, c), (1, b), (0, r2)]);
}

/// Archiving a node hides its whole subtree from the walk: the children's
/// ids are still listed on the parent row, but point at nothing visible.
#[test]
fn archived_subtree_vanishes_from_walk() {
    let mut db = init_db();
    let r = add_project(&mut db, None).unwrap();
    let a = add_project(&mut db, Some(r)).unwrap();
    let c = add_project(&mut db, Some(a)).unwrap();
    add_work_session(
        &mut db,
        &WorkSession { time_start: 0, duration: 60, project_id: Some(c) },
    )
    .unwrap();
    let mut cache = Projects::new(&db);
    cache.initiate_edit(Some(a));
    cache.archive_edited_item(&mut db);
    let walk: Vec<(usize, usize)> =
        cache.get_all_tree_style().into_iter().map(|(d, p)| (d, p.id)).collect();
    assert_eq!(walk, vec![(0, r)]);
}

/// Archiving a parent whose two children are leaf-empty, itself without
/// sessions, deletes the children first and then the parent: no rows stay.
#[test]
fn empty_family_is_deleted_bottom_up() {
    let mut db = init_db();
    let p = add_project(&mut db, None).unwrap();
    let _c1 = add_project(&mut db, Some(p)).unwrap();
    let _c2 = add_project(&mut db, Some(p)).unwrap();
    let mut cache = Projects::new(&db);
    cache.initiate_edit(Some(p));
    cache.archive_edited_item(&mut db);
    assert!(db.projects.is_empty());
    assert!(cache.get_all_tree_style().is_empty());
    assert_eq!(cache.get_edited_id(), None);
}

/// Selection: the active project is returned as long as it stays listed.
#[test]
fn active_selection_tracking() {
    let mut db = init_db();
    let r = add_project(&mut db, None).unwrap();
    let mut cache = Projects::new(&db);
    assert_eq!(cache.get_active(), None);
    assert!(cache.get_active_project().is_none());
    cache.set_active(Some(r));
    assert_eq!(cache.get_active(), Some(r));
    assert_eq!(cache.get_active_project().unwrap().id, r);
    cache.set_active(Some(999));
    assert!(cache.get_active_project().is_none());
}

/// The edit flow: begin, rename, commit; the rename lands in the store and
/// the refreshed snapshot, and the buffer is cleared.
#[test]
fn edit_buffer_roundtrip() {
    let mut db = init_db();
    let r = add_project(&mut db, None).unwrap();
    let mut cache = Projects::new(&db);
    cache.initiate_edit(Some(r));
    assert_eq!(cache.get_edited_id(), Some(r));
    cache.set_edited_name("deep work".to_string());
    assert_eq!(cache.get_edited().unwrap().name, "deep work");
    cache.finish_edit(&mut db);
    assert_eq!(cache.get_edited_id(), None);
    assert!(cache.get_edited().is_none());
    assert_eq!(db.projects[0].name, "deep work");
    let listed = cache.get_all_tree_style();
    assert_eq!(listed[0].1.name, "deep work");
}

/// Renaming without an open buffer is a no-op, as is clearing the buffer.
#[test]
fn edit_buffer_noops() {
    let mut db = init_db();
    let _r = add_project(&mut db, None).unwrap();
    let mut cache = Projects::new(&db);
    cache.set_edited_name("ignored".to_string());
    assert_eq!(cache.get_edited_id(), None);
    cache.initiate_edit(None);
    assert_eq!(cache.get_edited_id(), None);
    cache.finish_edit(&mut db);
    assert_eq!(db.projects[0].name, "");
}

/// `add` creates the project, refreshes, and opens it for editing.
#[test]
fn add_opens_new_project_for_editing() {
    let mut db = init_db();
    let mut cache = Projects::new(&db);
    cache.add(None, &mut db);
    let id = cache.get_edited_id().expect("new project should be under edit");
    assert_eq!(cache.get_edited().unwrap().name, "");
    cache.add(Some(id), &mut db);
    let child = cache.get_edited_id().unwrap();
    assert_ne!(child, id);
    let walk: Vec<(usize, usize)> =
        cache.get_all_tree_style().into_iter().map(|(d, p)| (d, p.id)).collect();
    assert_eq!(walk, vec![(0, id), (1, child)]);
}

/// The task cache mirrors the store's per-project listing across adds,
/// edits, deletes and project switches.
#[test]
fn todo_tasks_cache() {
    let mut db = init_db();
    let p = add_project(&mut db, None).unwrap();
    let mut tasks = TodoTasks::new(&db, Some(p));
    assert!(tasks.get_all().is_empty());
    tasks.add("write".to_string(), Some(p), &mut db);
    tasks.add("rest".to_string(), None, &mut db);
    assert_eq!(tasks.get_all().len(), 1);
    assert_eq!(tasks.get_all()[0].name, "write");
    let id = tasks.get_all()[0].id;
    tasks.edit(id, "write more".to_string(), &mut db);
    assert_eq!(tasks.get_all()[0].name, "write more");
    tasks.switch_project(&db, None);
    assert_eq!(tasks.get_all().len(), 1);
    assert_eq!(tasks.get_all()[0].name, "rest");
    let loose = tasks.get_all()[0].id;
    tasks.delete(loose, &mut db);
    assert!(tasks.get_all().is_empty());
    assert!(add_task(&mut db, "direct".to_string(), Some(p)).is_ok());
    tasks.switch_project(&db, Some(p));
    assert_eq!(tasks.get_all().len(), 2);
}
