//! To-do tasks: a minor associated entity with plain CRUD and a per-project
//! cached list, no aggregation.

use vstd::prelude::*;
use crate::db;
use crate::db::Db;

verus! {

/// A task as shown to the user: its id and display name.
#[derive(Debug)]
pub struct TodoTask {
    pub id: usize,
    pub name: String,
}

pub ghost struct TodoTaskV {
    pub id: usize,
    pub name: Seq<char>,
}

impl View for TodoTask {
    type V = TodoTaskV;

    open spec fn view(&self) -> TodoTaskV {
        TodoTaskV { id: self.id, name: self.name@ }
    }
}

/// A cached list of the tasks of one project (or of the unattributed ones),
/// refreshed wholesale from the store after every mutation.
pub struct TodoTasks {
    pub project_id: Option<usize>,
    pub tasks: Vec<TodoTask>,
}

pub ghost struct TodoTasksV {
    pub project_id: Option<usize>,
    pub tasks: Seq<TodoTaskV>,
}

impl View for TodoTasks {
    type V = TodoTasksV;

    open spec fn view(&self) -> TodoTasksV {
        TodoTasksV {
            project_id: self.project_id,
            tasks: self.tasks@.map_values(|t: TodoTask| t@),
        }
    }
}

impl TodoTasks {
    /// The cached list is exactly the store's listing for this project.
    pub open spec fn consistent(&self, db: &Db) -> bool {
        self@.tasks == db::tasks_listing(db@.tasks, self@.project_id)
    }

    pub fn new(db: &Db, project_id: Option<usize>) -> (r: TodoTasks)
        ensures
            r@.project_id == project_id,
            r.consistent(db),
    {
        let mut t = TodoTasks { project_id, tasks: Vec::new() };
        t.fetch(db);
        t
    }

    /// Retargets the cache at another project and refreshes it.
    pub fn switch_project(&mut self, db: &Db, project_id: Option<usize>)
        ensures
            final(self)@.project_id == project_id,
            final(self).consistent(db),
    {
        self.project_id = project_id;
        self.fetch(db);
    }

    /// Replaces the cached list wholesale from the store.
    pub fn fetch(&mut self, db: &Db)
        ensures
            final(self)@.project_id == old(self)@.project_id,
            final(self).consistent(db),
    {
        match db::get_tasks(db, self.project_id) {
            Ok(v) => {
                self.tasks = v;
            },
            Err(_) => {
                proof {
                    assert(false);
                }
            },
        }
    }

    pub fn get_all(&self) -> (r: &Vec<TodoTask>)
        ensures
            r == &self.tasks,
    {
        &self.tasks
    }

    /// Stores a new task and refreshes the cached list.
    pub fn add(&mut self, name: String, project_id: Option<usize>, db: &mut Db)
        requires
            old(db).wf(),
            old(db).next_task_id < usize::MAX,
            match project_id {
                Some(p) => db::has_row(old(db)@.projects, p),
                None => true,
            },
        ensures
            final(db).wf(),
            final(db)@.tasks == old(db)@.tasks.push(
                (db::TaskRowV { id: old(db).next_task_id, name: name@, project_id: project_id }),
            ),
            final(db)@.projects == old(db)@.projects,
            final(db)@.work == old(db)@.work,
            final(self)@.project_id == old(self)@.project_id,
            final(self).consistent(final(db)),
    {
        match db::add_task(db, name, project_id) {
            Ok(_) => {},
            Err(_) => {
                proof {
                    assert(false);
                }
            },
        }
        self.fetch(db);
    }

    /// Renames a task in the store and refreshes the cached list; a vanished
    /// id is a benign no-op.
    pub fn edit(&mut self, id: usize, name: String, db: &mut Db)
        requires
            old(db).wf(),
        ensures
            final(db).wf(),
            final(db)@.projects == old(db)@.projects,
            final(db)@.work == old(db)@.work,
            !db::has_task(old(db)@.tasks, id) ==> final(db)@ == old(db)@,
            db::has_task(old(db)@.tasks, id) ==> final(db)@.tasks == old(db)@.tasks.update(
                db::task_ix(old(db)@.tasks, id),
                (db::TaskRowV {
                    id: id,
                    name: name@,
                    project_id: old(db)@.tasks[db::task_ix(old(db)@.tasks, id)].project_id,
                }),
            ),
            final(self)@.project_id == old(self)@.project_id,
            final(self).consistent(final(db)),
    {
        match db::update_task(db, id, name) {
            Ok(_) => {},
            Err(_) => {
                proof {
                    assert(false);
                }
            },
        }
        self.fetch(db);
    }

    /// Deletes a task from the store and refreshes the cached list; a
    /// vanished id is a benign no-op.
    pub fn delete(&mut self, id: usize, db: &mut Db)
        requires
            old(db).wf(),
        ensures
            final(db).wf(),
            final(db)@.projects == old(db)@.projects,
            final(db)@.work == old(db)@.work,
            !db::has_task(old(db)@.tasks, id) ==> final(db)@ == old(db)@,
            db::has_task(old(db)@.tasks, id) ==> final(db)@.tasks == old(db)@.tasks.remove(
                db::task_ix(old(db)@.tasks, id),
            ),
            final(self)@.project_id == old(self)@.project_id,
            final(self).consistent(final(db)),
    {
        match db::delete_task(db, id) {
            Ok(_) => {},
            Err(_) => {
                proof {
                    assert(false);
                }
            },
        }
        self.fetch(db);
    }
}

} // verus!
