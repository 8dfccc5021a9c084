//! The store: owns the durable state (projects, work sessions, tasks) and
//! exposes CRUD together with the recursive roll-up aggregation query.
//!
//! State is held as plain row vectors; the application shell mirrors them to
//! an embedded relational database, which the store itself never touches.

use vstd::prelude::*;
use crate::hierarchy::lemma_archive_keeps_rooted;
use crate::hierarchy::lemma_push_keeps_rooted;
use crate::hierarchy::lemma_update_keeps_rooted;
use crate::hierarchy::rooted;
use crate::todo_tasks::TodoTask;
use crate::todo_tasks::TodoTaskV;

verus! {

// ---------------------------------------------------------------------------
// Rows and their mathematical views
// ---------------------------------------------------------------------------

/// One row of the projects table.
#[derive(Debug)]
pub struct ProjectRow {
    pub id: usize,
    pub name: String,
    /// Optional goal, in whole hours.
    pub target_hours: Option<u64>,
    pub parent: Option<usize>,
    pub archived: bool,
}

pub ghost struct ProjectRowV {
    pub id: usize,
    pub name: Seq<char>,
    pub target_hours: Option<u64>,
    pub parent: Option<usize>,
    pub archived: bool,
}

impl View for ProjectRow {
    type V = ProjectRowV;

    open spec fn view(&self) -> ProjectRowV {
        ProjectRowV {
            id: self.id,
            name: self.name@,
            target_hours: self.target_hours,
            parent: self.parent,
            archived: self.archived,
        }
    }
}

/// One immutable record of completed work, in seconds.
#[derive(Debug)]
pub struct WorkSession {
    pub time_start: u64,
    pub duration: u64,
    pub project_id: Option<usize>,
}

pub ghost struct WorkSessionV {
    pub time_start: u64,
    pub duration: u64,
    pub project_id: Option<usize>,
}

impl View for WorkSession {
    type V = WorkSessionV;

    open spec fn view(&self) -> WorkSessionV {
        WorkSessionV {
            time_start: self.time_start,
            duration: self.duration,
            project_id: self.project_id,
        }
    }
}

/// One row of the tasks table.
#[derive(Debug)]
pub struct TaskRow {
    pub id: usize,
    pub name: String,
    pub project_id: Option<usize>,
}

pub ghost struct TaskRowV {
    pub id: usize,
    pub name: Seq<char>,
    pub project_id: Option<usize>,
}

impl View for TaskRow {
    type V = TaskRowV;

    open spec fn view(&self) -> TaskRowV {
        TaskRowV { id: self.id, name: self.name@, project_id: self.project_id }
    }
}

/// A project as the aggregation query returns it: the row together with the
/// derived direct-child id list and the recursive duration roll-up.
#[derive(Debug)]
pub struct Project {
    pub id: usize,
    pub name: String,
    pub target_hours: Option<u64>,
    pub parent: Option<usize>,
    pub children: Vec<usize>,
    /// Own recorded duration plus that of every descendant, in seconds.
    pub total_seconds: u64,
}

pub ghost struct ProjectV {
    pub id: usize,
    pub name: Seq<char>,
    pub target_hours: Option<u64>,
    pub parent: Option<usize>,
    pub children: Seq<usize>,
    pub total_seconds: u64,
}

impl View for Project {
    type V = ProjectV;

    open spec fn view(&self) -> ProjectV {
        ProjectV {
            id: self.id,
            name: self.name@,
            target_hours: self.target_hours,
            parent: self.parent,
            children: self.children@,
            total_seconds: self.total_seconds,
        }
    }
}

/// Failure of the backing store; the only kind the in-memory store can raise
/// is a violated constraint (a dangling reference or an exhausted counter).
#[derive(Clone, Copy, Debug, PartialEq, Eq, Structural)]
pub enum StorageError {
    ConstraintViolation,
}

// ---------------------------------------------------------------------------
// The store
// ---------------------------------------------------------------------------

/// The durable state: three tables and the id counters.
#[derive(Debug)]
pub struct Db {
    pub projects: Vec<ProjectRow>,
    pub work: Vec<WorkSession>,
    pub tasks: Vec<TaskRow>,
    pub next_project_id: usize,
    pub next_task_id: usize,
}

pub ghost struct DbV {
    pub projects: Seq<ProjectRowV>,
    pub work: Seq<WorkSessionV>,
    pub tasks: Seq<TaskRowV>,
    pub next_project_id: usize,
    pub next_task_id: usize,
}

impl View for Db {
    type V = DbV;

    open spec fn view(&self) -> DbV {
        DbV {
            projects: self.projects@.map_values(|r: ProjectRow| r@),
            work: self.work@.map_values(|w: WorkSession| w@),
            tasks: self.tasks@.map_values(|t: TaskRow| t@),
            next_project_id: self.next_project_id,
            next_task_id: self.next_task_id,
        }
    }
}

// ---------------------------------------------------------------------------
// Spec-level table queries
// ---------------------------------------------------------------------------

pub open spec fn has_row(ps: Seq<ProjectRowV>, id: usize) -> bool {
    exists|i: int| 0 <= i < ps.len() && ps[i].id == id
}

pub open spec fn row_ix(ps: Seq<ProjectRowV>, id: usize) -> int {
    choose|i: int| 0 <= i < ps.len() && ps[i].id == id
}

pub open spec fn row(ps: Seq<ProjectRowV>, id: usize) -> ProjectRowV {
    ps[row_ix(ps, id)]
}

pub open spec fn unique_ids(ps: Seq<ProjectRowV>) -> bool {
    forall|i: int, j: int|
        0 <= i < ps.len() && 0 <= j < ps.len() && #[trigger] ps[i].id == #[trigger] ps[j].id
            ==> i == j
}

pub open spec fn has_children(ps: Seq<ProjectRowV>, id: usize) -> bool {
    exists|i: int| 0 <= i < ps.len() && ps[i].parent == Some(id)
}

pub open spec fn has_sessions(ws: Seq<WorkSessionV>, id: usize) -> bool {
    exists|i: int| 0 <= i < ws.len() && ws[i].project_id == Some(id)
}

/// Every parent reference names an existing project other than its owner.
pub open spec fn parents_ok(ps: Seq<ProjectRowV>) -> bool {
    forall|i: int|
        0 <= i < ps.len() ==> match (#[trigger] ps[i]).parent {
            Some(p) => p != ps[i].id && has_row(ps, p),
            None => true,
        }
}

/// Sum of every recorded duration, whatever it is attributed to.
pub open spec fn sum_durations(ws: Seq<WorkSessionV>) -> int
    decreases ws.len(),
{
    if ws.len() == 0 {
        0
    } else {
        sum_durations(ws.drop_last()) + ws.last().duration
    }
}

// ---------------------------------------------------------------------------
// Well-formedness
// ---------------------------------------------------------------------------

impl DbV {
    /// Referential integrity of the three tables: ids are unique and below
    /// the counters, every parent points at an existing, different project,
    /// every session and task points at an existing project or at none, and
    /// the grand total of recorded duration fits the machine word.
    pub open spec fn wf(self) -> bool {
        &&& unique_ids(self.projects)
        &&& forall|i: int|
            0 <= i < self.projects.len() ==> (#[trigger] self.projects[i]).id
                < self.next_project_id
        &&& parents_ok(self.projects)
        &&& forall|i: int|
            0 <= i < self.work.len() ==> match (#[trigger] self.work[i]).project_id {
                Some(p) => has_row(self.projects, p),
                None => true,
            }
        &&& forall|i: int|
            0 <= i < self.tasks.len() ==> match (#[trigger] self.tasks[i]).project_id {
                Some(p) => has_row(self.projects, p),
                None => true,
            }
        &&& forall|i: int, j: int|
            0 <= i < self.tasks.len() && 0 <= j < self.tasks.len() && #[trigger] self.tasks[i].id
                == #[trigger] self.tasks[j].id ==> i == j
        &&& forall|i: int|
            0 <= i < self.tasks.len() ==> (#[trigger] self.tasks[i]).id < self.next_task_id
        &&& sum_durations(self.work) <= u64::MAX
    }
}

impl Db {
    pub open spec fn wf(&self) -> bool {
        self@.wf()
    }
}

/// A fresh, empty store.
pub fn init_db() -> (db: Db)
    ensures
        db.wf(),
        rooted(db@.projects),
        db@.projects.len() == 0,
        db@.work.len() == 0,
        db@.tasks.len() == 0,
{
    Db {
        projects: Vec::new(),
        work: Vec::new(),
        tasks: Vec::new(),
        next_project_id: 0,
        next_task_id: 0,
    }
}

// ---------------------------------------------------------------------------
// Row lookup
// ---------------------------------------------------------------------------

/// With unique ids, any index holding `id` is the index `row_ix` picks.
pub proof fn lemma_row_ix_is(ps: Seq<ProjectRowV>, id: usize, i: int)
    requires
        unique_ids(ps),
        0 <= i < ps.len(),
        ps[i].id == id,
    ensures
        has_row(ps, id),
        row_ix(ps, id) == i,
        row(ps, id) == ps[i],
{
    assert(has_row(ps, id));
    let j = row_ix(ps, id);
    assert(0 <= j < ps.len() && ps[j].id == id);
}

/// Index of the project row holding `id`, if any.
fn find_project_index(projects: &Vec<ProjectRow>, id: usize) -> (r: Option<usize>)
    ensures
        match r {
            Some(i) => i < projects@.len() && projects@.map_values(|p: ProjectRow| p@)[i as int].id
                == id,
            None => !has_row(projects@.map_values(|p: ProjectRow| p@), id),
        },
{
    let ghost ps = projects@.map_values(|p: ProjectRow| p@);
    let mut i: usize = 0;
    while i < projects.len()
        invariant
            i <= projects@.len(),
            ps == projects@.map_values(|p: ProjectRow| p@),
            forall|j: int| 0 <= j < i ==> ps[j].id != id,
        decreases projects@.len() - i,
    {
        if projects[i].id == id {
            return Some(i);
        }
        i = i + 1;
    }
    None
}

// ---------------------------------------------------------------------------
// Aggregation
// ---------------------------------------------------------------------------

/// Does the parent chain that starts at `from` pass through `target` within
/// `fuel` upward steps?  With well-formed tables, `fuel` equal to the table
/// length covers every chain.
pub open spec fn in_chain(ps: Seq<ProjectRowV>, from: usize, target: usize, fuel: nat) -> bool
    decreases fuel,
{
    if from == target {
        true
    } else if fuel == 0 {
        false
    } else if !has_row(ps, from) {
        false
    } else {
        match row(ps, from).parent {
            Some(p) => in_chain(ps, p, target, (fuel - 1) as nat),
            None => false,
        }
    }
}

/// A session counts toward `id` when it is attributed to `id` itself or to
/// any of its descendants; unattributed sessions count toward no project.
pub open spec fn contributes(ps: Seq<ProjectRowV>, w: WorkSessionV, id: usize) -> bool {
    match w.project_id {
        Some(pid) => in_chain(ps, pid, id, ps.len() as nat),
        None => false,
    }
}

/// The roll-up: the summed duration of every session recorded against `id`
/// or against any of its descendants, archived or not.
pub open spec fn total_duration(ps: Seq<ProjectRowV>, ws: Seq<WorkSessionV>, id: usize) -> int
    decreases ws.len(),
{
    if ws.len() == 0 {
        0
    } else {
        total_duration(ps, ws.drop_last(), id) + if contributes(ps, ws.last(), id) {
            ws.last().duration as int
        } else {
            0
        }
    }
}

/// Ids of the direct children of `id` (archived ones included), in row order.
pub open spec fn children_of(ps: Seq<ProjectRowV>, id: usize) -> Seq<usize>
    decreases ps.len(),
{
    if ps.len() == 0 {
        Seq::empty()
    } else {
        children_of(ps.drop_last(), id) + if ps.last().parent == Some(id) {
            seq![ps.last().id]
        } else {
            Seq::empty()
        }
    }
}

/// The aggregation query's image of one stored row.
pub open spec fn project_for(d: DbV, r: ProjectRowV) -> ProjectV {
    ProjectV {
        id: r.id,
        name: r.name,
        target_hours: r.target_hours,
        parent: r.parent,
        children: children_of(d.projects, r.id),
        total_seconds: total_duration(d.projects, d.work, r.id) as u64,
    }
}

pub open spec fn listing_prefix(d: DbV, n: int) -> Seq<ProjectV>
    decreases n,
{
    if n <= 0 {
        Seq::empty()
    } else {
        listing_prefix(d, n - 1) + if d.projects[n - 1].archived {
            Seq::empty()
        } else {
            seq![project_for(d, d.projects[n - 1])]
        }
    }
}

/// What `get_projects` returns: every non-archived row in order, each with
/// its derived child list and duration roll-up.
pub open spec fn listing(d: DbV) -> Seq<ProjectV> {
    listing_prefix(d, d.projects.len() as int)
}

pub proof fn lemma_sum_nonneg(ws: Seq<WorkSessionV>)
    ensures
        0 <= sum_durations(ws),
    decreases ws.len(),
{
    if ws.len() > 0 {
        lemma_sum_nonneg(ws.drop_last());
    }
}

/// A project's roll-up never exceeds the grand total of recorded duration.
pub proof fn lemma_total_le_sum(ps: Seq<ProjectRowV>, ws: Seq<WorkSessionV>, id: usize)
    ensures
        0 <= total_duration(ps, ws, id) <= sum_durations(ws),
    decreases ws.len(),
{
    if ws.len() > 0 {
        lemma_total_le_sum(ps, ws.drop_last(), id);
    }
}

pub proof fn lemma_sum_take_le(ws: Seq<WorkSessionV>, n: int)
    requires
        0 <= n <= ws.len(),
    ensures
        sum_durations(ws.take(n)) <= sum_durations(ws),
    decreases ws.len(),
{
    if n == ws.len() {
        assert(ws.take(n) =~= ws);
    } else {
        assert(ws.take(n) =~= ws.drop_last().take(n));
        lemma_sum_take_le(ws.drop_last(), n);
    }
}

/// Does the parent chain from `from` pass through `target`?
fn is_in_chain(projects: &Vec<ProjectRow>, from: usize, target: usize) -> (b: bool)
    requires
        unique_ids(projects@.map_values(|p: ProjectRow| p@)),
    ensures
        b == in_chain(
            projects@.map_values(|p: ProjectRow| p@),
            from,
            target,
            projects@.len() as nat,
        ),
{
    let ghost ps = projects@.map_values(|p: ProjectRow| p@);
    let mut cur = from;
    let mut fuel = projects.len();
    loop
        invariant
            unique_ids(ps),
            ps == projects@.map_values(|p: ProjectRow| p@),
            fuel <= ps.len(),
            in_chain(ps, from, target, ps.len() as nat) == in_chain(ps, cur, target, fuel as nat),
        decreases fuel,
    {
        if cur == target {
            return true;
        }
        if fuel == 0 {
            return false;
        }
        match find_project_index(projects, cur) {
            None => {
                return false;
            },
            Some(i) => {
                proof {
                    lemma_row_ix_is(ps, cur, i as int);
                }
                match projects[i].parent {
                    None => {
                        return false;
                    },
                    Some(p) => {
                        cur = p;
                        fuel = fuel - 1;
                    },
                }
            },
        }
    }
}

/// Direct-child id list of `id`, in row order.
fn children_for(projects: &Vec<ProjectRow>, id: usize) -> (r: Vec<usize>)
    ensures
        r@ == children_of(projects@.map_values(|p: ProjectRow| p@), id),
{
    let ghost ps = projects@.map_values(|p: ProjectRow| p@);
    let mut r: Vec<usize> = Vec::new();
    let mut j: usize = 0;
    while j < projects.len()
        invariant
            j <= projects@.len(),
            ps == projects@.map_values(|p: ProjectRow| p@),
            r@ == children_of(ps.take(j as int), id),
        decreases projects@.len() - j,
    {
        proof {
            assert(ps.take(j + 1).drop_last() =~= ps.take(j as int));
            assert(ps.take(j + 1).last() == ps[j as int]);
        }
        let is_child = match projects[j].parent {
            Some(p) => p == id,
            None => false,
        };
        if is_child {
            r.push(projects[j].id);
            proof {
                assert(r@ =~= children_of(ps.take(j + 1), id));
            }
        } else {
            proof {
                assert(r@ =~= children_of(ps.take(j + 1), id));
            }
        }
        j = j + 1;
    }
    proof {
        assert(ps.take(projects@.len() as int) =~= ps);
    }
    r
}

/// The duration roll-up for `id`, computed by walking every session's
/// ownership chain upward.
fn total_for(db: &Db, id: usize) -> (t: u64)
    requires
        db.wf(),
    ensures
        t as int == total_duration(db@.projects, db@.work, id),
{
    let ghost ps = db@.projects;
    let ghost ws = db@.work;
    let mut t: u64 = 0;
    let mut j: usize = 0;
    while j < db.work.len()
        invariant
            db.wf(),
            j <= db@.work.len(),
            ps == db@.projects,
            ws == db@.work,
            t as int == total_duration(ps, ws.take(j as int), id),
        decreases db@.work.len() - j,
    {
        proof {
            assert(ws.take(j + 1).drop_last() =~= ws.take(j as int));
            assert(ws.take(j + 1).last() == ws[j as int]);
        }
        let counts = match db.work[j].project_id {
            Some(pid) => is_in_chain(&db.projects, pid, id),
            None => false,
        };
        if counts {
            proof {
                lemma_total_le_sum(ps, ws.take(j + 1), id);
                lemma_sum_take_le(ws, j + 1);
            }
            t = t + db.work[j].duration;
        }
        j = j + 1;
    }
    proof {
        assert(ws.take(db@.work.len() as int) =~= ws);
    }
    t
}

/// The aggregation query: every non-archived project, each populated with
/// its direct-child ids and its recursive duration roll-up.  Archived
/// descendants still contribute to the totals; they are only absent as rows.
pub fn get_projects(db: &Db) -> (r: Result<Vec<Project>, StorageError>)
    requires
        db.wf(),
    ensures
        r matches Ok(v) && v@.map_values(|p: Project| p@) == listing(db@),
{
    let ghost d = db@;
    let mut out: Vec<Project> = Vec::new();
    let mut i: usize = 0;
    while i < db.projects.len()
        invariant
            db.wf(),
            i <= db@.projects.len(),
            d == db@,
            out@.map_values(|p: Project| p@) == listing_prefix(d, i as int),
        decreases db@.projects.len() - i,
    {
        if !db.projects[i].archived {
            let children = children_for(&db.projects, db.projects[i].id);
            let total = total_for(db, db.projects[i].id);
            let p = Project {
                id: db.projects[i].id,
                name: db.projects[i].name.clone(),
                target_hours: db.projects[i].target_hours,
                parent: db.projects[i].parent,
                children,
                total_seconds: total,
            };
            proof {
                lemma_total_le_sum(d.projects, d.work, d.projects[i as int].id);
            }
            out.push(p);
            proof {
                assert(out@.map_values(|p: Project| p@) =~= listing_prefix(d, i + 1));
            }
        } else {
            proof {
                assert(out@.map_values(|p: Project| p@) =~= listing_prefix(d, i + 1));
            }
        }
        i = i + 1;
    }
    Ok(out)
}

// ---------------------------------------------------------------------------
// Insertion
// ---------------------------------------------------------------------------

/// Inserts a new project with empty name and the given parent, returning the
/// new id; the parent is not validated against archival state, only against
/// existence. Ids count upward and are never reused.
pub fn add_project(db: &mut Db, parent: Option<usize>) -> (r: Result<usize, StorageError>)
    requires
        old(db).wf(),
        old(db).next_project_id < usize::MAX,
    ensures
        final(db).wf(),
        rooted(old(db)@.projects) ==> rooted(final(db)@.projects),
        final(db)@.work == old(db)@.work,
        final(db)@.tasks == old(db)@.tasks,
        final(db)@.next_task_id == old(db)@.next_task_id,
        match parent {
            Some(p) => has_row(old(db)@.projects, p),
            None => true,
        } ==> {
            &&& r == Ok::<usize, StorageError>(old(db).next_project_id)
            &&& !has_row(old(db)@.projects, old(db).next_project_id)
            &&& final(db)@.projects == old(db)@.projects.push(
                ProjectRowV {
                    id: old(db).next_project_id,
                    name: Seq::empty(),
                    target_hours: None,
                    parent: parent,
                    archived: false,
                },
            )
            &&& final(db)@.next_project_id == old(db).next_project_id + 1
        },
        !(match parent {
            Some(p) => has_row(old(db)@.projects, p),
            None => true,
        }) ==> r == Err::<usize, StorageError>(StorageError::ConstraintViolation) && final(db)@
            == old(db)@,
{
    let ghost ps = old(db)@.projects;
    match parent {
        Some(p) => {
            match find_project_index(&db.projects, p) {
                Some(_) => {},
                None => {
                    return Err(StorageError::ConstraintViolation);
                },
            }
        },
        None => {},
    }
    let id = db.next_project_id;
    let row = ProjectRow {
        id,
        name: String::new(),
        target_hours: None,
        parent,
        archived: false,
    };
    db.projects.push(row);
    db.next_project_id = id + 1;
    proof {
        let nps = db@.projects;
        assert(nps =~= ps.push(
            ProjectRowV {
                id: id,
                name: Seq::empty(),
                target_hours: None,
                parent: parent,
                archived: false,
            },
        ));
        assert forall|i: int| 0 <= i < nps.len() implies match (#[trigger] nps[i]).parent {
            Some(q) => q != nps[i].id && has_row(nps, q),
            None => true,
        } by {
            match nps[i].parent {
                Some(q) => {
                    if i < ps.len() {
                        let w = choose|k: int| 0 <= k < ps.len() && ps[k].id == q;
                        assert(nps[w].id == q);
                    } else {
                        let w = choose|k: int| 0 <= k < ps.len() && ps[k].id == q;
                        assert(nps[w].id == q);
                    }
                },
                None => {},
            }
        }
        assert forall|i: int| 0 <= i < db@.work.len() implies match (#[trigger] db@.work[i]).project_id {
            Some(q) => has_row(nps, q),
            None => true,
        } by {
            match db@.work[i].project_id {
                Some(q) => {
                    let w = choose|k: int| 0 <= k < ps.len() && ps[k].id == q;
                    assert(nps[w].id == q);
                },
                None => {},
            }
        }
        assert forall|i: int| 0 <= i < db@.tasks.len() implies match (#[trigger] db@.tasks[i]).project_id {
            Some(q) => has_row(nps, q),
            None => true,
        } by {
            match db@.tasks[i].project_id {
                Some(q) => {
                    let w = choose|k: int| 0 <= k < ps.len() && ps[k].id == q;
                    assert(nps[w].id == q);
                },
                None => {},
            }
        }
        if rooted(ps) {
            lemma_push_keeps_rooted(
                ps,
                ProjectRowV {
                    id: id,
                    name: Seq::empty(),
                    target_hours: None,
                    parent: parent,
                    archived: false,
                },
            );
        }
    }
    Ok(id)
}

// ---------------------------------------------------------------------------
// Update
// ---------------------------------------------------------------------------

/// May a row with this `id` take this `parent`?  The parent must exist and
/// must not be `id` itself nor sit below it, so the tree stays acyclic.
pub open spec fn parent_ok(ps: Seq<ProjectRowV>, id: usize, parent: Option<usize>) -> bool {
    match parent {
        None => true,
        Some(p) => has_row(ps, p) && !in_chain(ps, p, id, ps.len() as nat),
    }
}

/// Replacing a row by one carrying the same id leaves every existence fact
/// about the table as it was.
pub proof fn lemma_has_row_update(ps: Seq<ProjectRowV>, i: int, r: ProjectRowV)
    requires
        0 <= i < ps.len(),
        r.id == ps[i].id,
    ensures
        forall|q: usize| #[trigger] has_row(ps.update(i, r), q) == has_row(ps, q),
{
    assert forall|q: usize| #[trigger] has_row(ps.update(i, r), q) == has_row(ps, q) by {
        if has_row(ps, q) {
            let w = choose|k: int| 0 <= k < ps.len() && ps[k].id == q;
            assert(ps.update(i, r)[w].id == q);
        }
        if has_row(ps.update(i, r), q) {
            let w = choose|k: int| 0 <= k < ps.update(i, r).len() && ps.update(i, r)[k].id == q;
            assert(ps[w].id == q);
        }
    }
}

/// Overwrites name, goal and parent of the row holding `project.id`; a
/// vanished id is a benign no-op reported as zero rows affected, and a parent
/// that is missing, the project itself, or one of its descendants is refused.
pub fn update_project(db: &mut Db, project: &Project) -> (r: Result<usize, StorageError>)
    requires
        old(db).wf(),
    ensures
        final(db).wf(),
        rooted(old(db)@.projects) ==> rooted(final(db)@.projects),
        final(db)@.work == old(db)@.work,
        final(db)@.tasks == old(db)@.tasks,
        final(db)@.next_project_id == old(db)@.next_project_id,
        final(db)@.next_task_id == old(db)@.next_task_id,
        !has_row(old(db)@.projects, project.id) ==> r == Ok::<usize, StorageError>(0usize)
            && final(db)@ == old(db)@,
        has_row(old(db)@.projects, project.id) && parent_ok(
            old(db)@.projects,
            project.id,
            project.parent,
        ) ==> r == Ok::<usize, StorageError>(1usize) && final(db)@.projects == old(
            db,
        )@.projects.update(
            row_ix(old(db)@.projects, project.id),
            (ProjectRowV {
                id: project.id,
                name: project.name@,
                target_hours: project.target_hours,
                parent: project.parent,
                archived: row(old(db)@.projects, project.id).archived,
            }),
        ),
        has_row(old(db)@.projects, project.id) && !parent_ok(
            old(db)@.projects,
            project.id,
            project.parent,
        ) ==> r == Err::<usize, StorageError>(StorageError::ConstraintViolation) && final(db)@
            == old(db)@,
{
    let ghost ps = old(db)@.projects;
    let i = match find_project_index(&db.projects, project.id) {
        None => {
            return Ok(0);
        },
        Some(i) => i,
    };
    proof {
        lemma_row_ix_is(ps, project.id, i as int);
    }
    let ok = match project.parent {
        None => true,
        Some(p) => {
            match find_project_index(&db.projects, p) {
                None => false,
                Some(_) => !is_in_chain(&db.projects, p, project.id),
            }
        },
    };
    if !ok {
        return Err(StorageError::ConstraintViolation);
    }
    let ghost newrow = ProjectRowV {
        id: project.id,
        name: project.name@,
        target_hours: project.target_hours,
        parent: project.parent,
        archived: ps[i as int].archived,
    };
    let archived = db.projects[i].archived;
    db.projects[i] = ProjectRow {
        id: project.id,
        name: project.name.clone(),
        target_hours: project.target_hours,
        parent: project.parent,
        archived,
    };
    proof {
        let nps = db@.projects;
        assert(nps =~= ps.update(i as int, newrow));
        lemma_has_row_update(ps, i as int, newrow);
        assert forall|k: int| 0 <= k < nps.len() implies match (#[trigger] nps[k]).parent {
            Some(q) => q != nps[k].id && has_row(nps, q),
            None => true,
        } by {
            if k != i {
                assert(nps[k] == ps[k]);
            }
        }
        assert(db@.wf());
        if rooted(ps) {
            lemma_update_keeps_rooted(ps, i as int, newrow);
        }
    }
    Ok(1)
}

// ---------------------------------------------------------------------------
// Archive or delete
// ---------------------------------------------------------------------------

/// The projects table with every row holding `id` taken out.
pub open spec fn without_project(ps: Seq<ProjectRowV>, id: usize) -> Seq<ProjectRowV>
    decreases ps.len(),
{
    if ps.len() == 0 {
        Seq::empty()
    } else {
        without_project(ps.drop_last(), id) + if ps.last().id == id {
            Seq::empty()
        } else {
            seq![ps.last()]
        }
    }
}

/// The tasks table with every task of project `id` taken out.
pub open spec fn without_project_tasks(ts: Seq<TaskRowV>, id: usize) -> Seq<TaskRowV>
    decreases ts.len(),
{
    if ts.len() == 0 {
        Seq::empty()
    } else {
        without_project_tasks(ts.drop_last(), id) + if ts.last().project_id == Some(id) {
            Seq::empty()
        } else {
            seq![ts.last()]
        }
    }
}

/// The projects table with the row holding `id` soft-hidden.
pub open spec fn with_archived(ps: Seq<ProjectRowV>, id: usize) -> Seq<ProjectRowV> {
    ps.map_values(
        |r: ProjectRowV|
            if r.id == id {
                ProjectRowV { archived: true, ..r }
            } else {
                r
            },
    )
}

/// The archive-or-delete policy: a project with no recorded sessions and no
/// direct children is removed for good, its tasks with it; anything with
/// real data or structure is archived with all rows kept intact.
pub open spec fn archive_step(d: DbV, id: usize) -> DbV {
    if !has_row(d.projects, id) {
        d
    } else if !has_sessions(d.work, id) && !has_children(d.projects, id) {
        DbV {
            projects: without_project(d.projects, id),
            tasks: without_project_tasks(d.tasks, id),
            ..d
        }
    } else {
        DbV { projects: with_archived(d.projects, id), ..d }
    }
}

pub proof fn lemma_without_project_absent(ps: Seq<ProjectRowV>, id: usize)
    requires
        forall|j: int| 0 <= j < ps.len() ==> (#[trigger] ps[j]).id != id,
    ensures
        without_project(ps, id) == ps,
    decreases ps.len(),
{
    if ps.len() > 0 {
        lemma_without_project_absent(ps.drop_last(), id);
        assert(without_project(ps, id) =~= ps);
    } else {
        assert(without_project(ps, id) =~= ps);
    }
}

/// When exactly one row holds `id`, dropping every row holding `id` is
/// removing that row.
pub proof fn lemma_without_project_is_remove(ps: Seq<ProjectRowV>, id: usize, i: int)
    requires
        0 <= i < ps.len(),
        ps[i].id == id,
        forall|j: int| 0 <= j < ps.len() && j != i ==> (#[trigger] ps[j]).id != id,
    ensures
        without_project(ps, id) == ps.remove(i),
    decreases ps.len(),
{
    if i == ps.len() - 1 {
        lemma_without_project_absent(ps.drop_last(), id);
        assert(without_project(ps, id) =~= ps.remove(i));
    } else {
        lemma_without_project_is_remove(ps.drop_last(), id, i);
        assert(without_project(ps, id) =~= ps.remove(i));
    }
}

/// The survivors of the cascade delete: none belongs to project `id`, each
/// is a row of the old table, and their ids stay pairwise distinct.
pub proof fn lemma_without_tasks_props(ts: Seq<TaskRowV>, id: usize)
    requires
        forall|i: int, j: int|
            0 <= i < ts.len() && 0 <= j < ts.len() && #[trigger] ts[i].id == #[trigger] ts[j].id
                ==> i == j,
    ensures
        forall|k: int|
            0 <= k < without_project_tasks(ts, id).len() ==> (#[trigger] without_project_tasks(
                ts,
                id,
            )[k]).project_id != Some(id),
        forall|k: int|
            0 <= k < without_project_tasks(ts, id).len() ==> exists|i: int|
                0 <= i < ts.len() && ts[i] == #[trigger] without_project_tasks(ts, id)[k],
        forall|k1: int, k2: int|
            0 <= k1 < without_project_tasks(ts, id).len() && 0 <= k2 < without_project_tasks(
                ts,
                id,
            ).len() && #[trigger] without_project_tasks(ts, id)[k1].id
                == #[trigger] without_project_tasks(ts, id)[k2].id ==> k1 == k2,
    decreases ts.len(),
{
    if ts.len() > 0 {
        let prefix = ts.drop_last();
        lemma_without_tasks_props(prefix, id);
        let w = without_project_tasks(ts, id);
        let wd = without_project_tasks(prefix, id);
        if ts.last().project_id == Some(id) {
            assert(w =~= wd);
        } else {
            assert(w =~= wd.push(ts.last()));
            assert forall|k: int| 0 <= k < w.len() implies exists|i: int|
                0 <= i < ts.len() && ts[i] == #[trigger] w[k] by {
                if k < wd.len() {
                    let i = choose|i: int| 0 <= i < prefix.len() && prefix[i] == wd[k];
                    assert(ts[i] == w[k]);
                } else {
                    assert(ts[ts.len() - 1] == w[k]);
                }
            }
            assert forall|k1: int, k2: int|
                0 <= k1 < w.len() && 0 <= k2 < w.len() && #[trigger] w[k1].id
                    == #[trigger] w[k2].id implies k1 == k2 by {
                if k1 < wd.len() && k2 == wd.len() {
                    let i1 = choose|i: int| 0 <= i < prefix.len() && prefix[i] == wd[k1];
                    assert(ts[i1].id == ts[ts.len() - 1].id);
                } else if k2 < wd.len() && k1 == wd.len() {
                    let i2 = choose|i: int| 0 <= i < prefix.len() && prefix[i] == wd[k2];
                    assert(ts[i2].id == ts[ts.len() - 1].id);
                }
            }
        }
    }
}

/// The survivors of a delete: none carries the removed id, each is a row of
/// the old table, ids stay pairwise distinct, and every other id that had a
/// row still has one.
pub proof fn lemma_without_project_props(ps: Seq<ProjectRowV>, id: usize)
    requires
        unique_ids(ps),
    ensures
        forall|k: int|
            0 <= k < without_project(ps, id).len() ==> (#[trigger] without_project(
                ps,
                id,
            )[k]).id != id,
        forall|k: int|
            0 <= k < without_project(ps, id).len() ==> exists|i: int|
                0 <= i < ps.len() && ps[i] == #[trigger] without_project(ps, id)[k],
        unique_ids(without_project(ps, id)),
        forall|q: usize|
            q != id && has_row(ps, q) ==> #[trigger] has_row(without_project(ps, id), q),
    decreases ps.len(),
{
    if ps.len() > 0 {
        let prefix = ps.drop_last();
        lemma_without_project_props(prefix, id);
        let w = without_project(ps, id);
        let wd = without_project(prefix, id);
        if ps.last().id == id {
            assert(w =~= wd);
            assert forall|q: usize|
                q != id && has_row(ps, q) implies #[trigger] has_row(w, q) by {
                let i = choose|i: int| 0 <= i < ps.len() && ps[i].id == q;
                assert(prefix[i].id == q);
            }
        } else {
            assert(w =~= wd.push(ps.last()));
            assert forall|k: int| 0 <= k < w.len() implies exists|i: int|
                0 <= i < ps.len() && ps[i] == #[trigger] w[k] by {
                if k < wd.len() {
                    let i = choose|i: int| 0 <= i < prefix.len() && prefix[i] == wd[k];
                    assert(ps[i] == w[k]);
                } else {
                    assert(ps[ps.len() - 1] == w[k]);
                }
            }
            assert forall|k1: int, k2: int|
                0 <= k1 < w.len() && 0 <= k2 < w.len() && #[trigger] w[k1].id
                    == #[trigger] w[k2].id implies k1 == k2 by {
                if k1 < wd.len() && k2 == wd.len() {
                    let i1 = choose|i: int| 0 <= i < prefix.len() && prefix[i] == wd[k1];
                    assert(ps[i1].id == ps[ps.len() - 1].id);
                } else if k2 < wd.len() && k1 == wd.len() {
                    let i2 = choose|i: int| 0 <= i < prefix.len() && prefix[i] == wd[k2];
                    assert(ps[i2].id == ps[ps.len() - 1].id);
                }
            }
            assert forall|q: usize|
                q != id && has_row(ps, q) implies #[trigger] has_row(w, q) by {
                let i = choose|i: int| 0 <= i < ps.len() && ps[i].id == q;
                if i < ps.len() - 1 {
                    assert(prefix[i].id == q);
                    assert(has_row(wd, q));
                    let k = choose|k: int| 0 <= k < wd.len() && wd[k].id == q;
                    assert(w[k].id == q);
                } else {
                    assert(w[w.len() - 1].id == q);
                }
            }
        }
    }
}

/// Soft-hiding any project changes no chain: the archived flag plays no
/// part in ancestry.
proof fn lemma_in_chain_with_archived(
    ps: Seq<ProjectRowV>,
    x: usize,
    from: usize,
    target: usize,
    fuel: nat,
)
    requires
        unique_ids(ps),
    ensures
        in_chain(with_archived(ps, x), from, target, fuel) == in_chain(ps, from, target, fuel),
    decreases fuel,
{
    let qs = with_archived(ps, x);
    assert(qs.len() == ps.len());
    assert forall|i: int| 0 <= i < ps.len() implies (#[trigger] qs[i]).id == ps[i].id && qs[i].parent
        == ps[i].parent by {}
    assert forall|q: usize| #[trigger] has_row(qs, q) == has_row(ps, q) by {
        if has_row(ps, q) {
            let i = choose|i: int| 0 <= i < ps.len() && ps[i].id == q;
            assert(qs[i].id == q);
        }
        if has_row(qs, q) {
            let i = choose|i: int| 0 <= i < qs.len() && qs[i].id == q;
            assert(ps[i].id == q);
        }
    }
    if from != target && fuel > 0 && has_row(ps, from) {
        let i = row_ix(ps, from);
        assert(0 <= i < ps.len() && ps[i].id == from);
        assert forall|i1: int, j1: int|
            0 <= i1 < qs.len() && 0 <= j1 < qs.len() && #[trigger] qs[i1].id
                == #[trigger] qs[j1].id implies i1 == j1 by {
            assert(ps[i1].id == qs[i1].id);
            assert(ps[j1].id == qs[j1].id);
        }
        assert(has_row(qs, from));
        let j = row_ix(qs, from);
        assert(0 <= j < qs.len() && qs[j].id == from);
        assert(ps[j].id == from);
        assert(j == i);
        match ps[i].parent {
            Some(p) => {
                lemma_in_chain_with_archived(ps, x, p, target, (fuel - 1) as nat);
            },
            None => {},
        }
    }
}

/// Archiving a project removes nothing from any roll-up: an archived
/// descendant still contributes its recorded duration to every still-listed
/// ancestor's total.
pub proof fn lemma_archived_still_contributes(
    ps: Seq<ProjectRowV>,
    ws: Seq<WorkSessionV>,
    x: usize,
    id: usize,
)
    requires
        unique_ids(ps),
    ensures
        total_duration(with_archived(ps, x), ws, id) == total_duration(ps, ws, id),
    decreases ws.len(),
{
    if ws.len() > 0 {
        lemma_archived_still_contributes(ps, ws.drop_last(), x, id);
        match ws.last().project_id {
            Some(pid) => {
                assert(with_archived(ps, x).len() == ps.len());
                lemma_in_chain_with_archived(ps, x, pid, id, ps.len() as nat);
            },
            None => {},
        }
    }
}

proof fn lemma_listing_prefix_not_archived(d: DbV, x: usize, n: int)
    requires
        unique_ids(d.projects),
        has_row(d.projects, x),
        row(d.projects, x).archived,
        n <= d.projects.len(),
    ensures
        forall|k: int|
            0 <= k < listing_prefix(d, n).len() ==> (#[trigger] listing_prefix(d, n)[k]).id != x,
    decreases n,
{
    if n > 0 {
        lemma_listing_prefix_not_archived(d, x, n - 1);
        if !d.projects[n - 1].archived && d.projects[n - 1].id == x {
            lemma_row_ix_is(d.projects, x, n - 1);
            assert(false);
        }
    }
}

/// An archived project is no row of the aggregation listing: it is hidden
/// as a node, though its history still feeds its ancestors' totals.
pub proof fn lemma_archived_not_listed(d: DbV, x: usize)
    requires
        unique_ids(d.projects),
        has_row(d.projects, x),
        row(d.projects, x).archived,
    ensures
        forall|k: int| 0 <= k < listing(d).len() ==> (#[trigger] listing(d)[k]).id != x,
{
    lemma_listing_prefix_not_archived(d, x, d.projects.len() as int);
}

/// Is any recorded session attributed directly to `id`?
fn has_sessions_exec(work: &Vec<WorkSession>, id: usize) -> (b: bool)
    ensures
        b == has_sessions(work@.map_values(|w: WorkSession| w@), id),
{
    let ghost ws = work@.map_values(|w: WorkSession| w@);
    let mut j: usize = 0;
    while j < work.len()
        invariant
            j <= work@.len(),
            ws == work@.map_values(|w: WorkSession| w@),
            forall|k: int| 0 <= k < j ==> (#[trigger] ws[k]).project_id != Some(id),
        decreases work@.len() - j,
    {
        let hit = match work[j].project_id {
            Some(p) => p == id,
            None => false,
        };
        if hit {
            proof {
                assert(ws[j as int].project_id == Some(id));
            }
            return true;
        }
        j = j + 1;
    }
    false
}

/// Does any row (archived ones included) name `id` as its parent?
fn has_children_exec(projects: &Vec<ProjectRow>, id: usize) -> (b: bool)
    ensures
        b == has_children(projects@.map_values(|p: ProjectRow| p@), id),
{
    let ghost ps = projects@.map_values(|p: ProjectRow| p@);
    let mut j: usize = 0;
    while j < projects.len()
        invariant
            j <= projects@.len(),
            ps == projects@.map_values(|p: ProjectRow| p@),
            forall|k: int| 0 <= k < j ==> (#[trigger] ps[k]).parent != Some(id),
        decreases projects@.len() - j,
    {
        let hit = match projects[j].parent {
            Some(p) => p == id,
            None => false,
        };
        if hit {
            proof {
                assert(ps[j as int].parent == Some(id));
            }
            return true;
        }
        j = j + 1;
    }
    false
}

/// Drops every task belonging to project `id`, keeping the rest in order.
fn remove_tasks_for(tasks: &mut Vec<TaskRow>, id: usize)
    ensures
        final(tasks)@.map_values(|t: TaskRow| t@) == without_project_tasks(
            old(tasks)@.map_values(|t: TaskRow| t@),
            id,
        ),
{
    let ghost tv = tasks@.map_values(|t: TaskRow| t@);
    let mut acc: Vec<TaskRow> = Vec::new();
    let mut j: usize = 0;
    while j < tasks.len()
        invariant
            j <= tasks@.len(),
            tasks@.map_values(|t: TaskRow| t@) == tv,
            acc@.map_values(|t: TaskRow| t@) == without_project_tasks(tv.take(j as int), id),
        decreases tasks@.len() - j,
    {
        proof {
            assert(tv.take(j + 1).drop_last() =~= tv.take(j as int));
            assert(tv.take(j + 1).last() == tv[j as int]);
        }
        let keep = match tasks[j].project_id {
            Some(p) => p != id,
            None => true,
        };
        if keep {
            let t = TaskRow {
                id: tasks[j].id,
                name: tasks[j].name.clone(),
                project_id: tasks[j].project_id,
            };
            acc.push(t);
        }
        proof {
            assert(acc@.map_values(|t: TaskRow| t@) =~= without_project_tasks(
                tv.take(j + 1),
                id,
            ));
        }
        j = j + 1;
    }
    proof {
        assert(tv.take(tasks@.len() as int) =~= tv);
    }
    *tasks = acc;
}

/// The lifecycle policy: a project with zero recorded sessions and zero
/// direct children is permanently deleted, its tasks cascading with it;
/// otherwise it is archived in place.  A vanished id is a benign no-op.
pub fn archive_project(db: &mut Db, id: usize) -> (r: Result<usize, StorageError>)
    requires
        old(db).wf(),
    ensures
        final(db).wf(),
        rooted(old(db)@.projects) ==> rooted(final(db)@.projects),
        final(db)@ == archive_step(old(db)@, id),
        r == Ok::<usize, StorageError>(
            if has_row(old(db)@.projects, id) {
                1usize
            } else {
                0usize
            },
        ),
{
    let ghost d = old(db)@;
    proof {
        if rooted(d.projects) {
            lemma_archive_keeps_rooted(d, id);
        }
    }
    let i = match find_project_index(&db.projects, id) {
        None => {
            return Ok(0);
        },
        Some(i) => i,
    };
    proof {
        lemma_row_ix_is(d.projects, id, i as int);
    }
    let has_s = has_sessions_exec(&db.work, id);
    let has_c = has_children_exec(&db.projects, id);
    if !has_s && !has_c {
        db.projects.remove(i);
        remove_tasks_for(&mut db.tasks, id);
        proof {
            let nps = db@.projects;
            assert(nps == d.projects.remove(i as int));
            lemma_without_project_is_remove(d.projects, id, i as int);
            lemma_without_tasks_props(d.tasks, id);
            assert(db@ == archive_step(d, id));
            // Existence facts survive the removal for every id but the one
            // deleted, which nothing remaining refers to.
            assert forall|q: usize|
                q != id && has_row(d.projects, q) implies has_row(nps, q) by {
                let w = choose|k: int| 0 <= k < d.projects.len() && d.projects[k].id == q;
                if w < i {
                    assert(nps[w].id == q);
                } else {
                    assert(nps[w - 1].id == q);
                }
            }
            assert forall|k: int| 0 <= k < nps.len() implies match (#[trigger] nps[k]).parent {
                Some(q) => q != nps[k].id && has_row(nps, q),
                None => true,
            } by {
                let m: int = if k < i { k } else { k + 1 };
                assert(nps[k] == d.projects[m]);
                match d.projects[m].parent {
                    Some(q) => {
                        assert(q != id);
                    },
                    None => {},
                }
            }
            assert forall|k: int| 0 <= k < db@.work.len() implies match (#[trigger] db@.work[k]).project_id {
                Some(q) => has_row(nps, q),
                None => true,
            } by {
                match db@.work[k].project_id {
                    Some(q) => {
                        assert(q != id);
                    },
                    None => {},
                }
            }
            let nts = db@.tasks;
            assert forall|k: int| 0 <= k < nts.len() implies match (#[trigger] nts[k]).project_id {
                Some(q) => has_row(nps, q),
                None => true,
            } by {
                let i0 = choose|x: int| 0 <= x < d.tasks.len() && d.tasks[x] == nts[k];
                match nts[k].project_id {
                    Some(q) => {
                        assert(q != id);
                    },
                    None => {},
                }
            }
            assert forall|k: int| 0 <= k < nts.len() implies (#[trigger] nts[k]).id
                < db@.next_task_id by {
                let i0 = choose|x: int| 0 <= x < d.tasks.len() && d.tasks[x] == nts[k];
            }
            assert(db@.wf());
        }
        Ok(1)
    } else {
        let name = db.projects[i].name.clone();
        let target_hours = db.projects[i].target_hours;
        let parent = db.projects[i].parent;
        db.projects[i] = ProjectRow { id, name, target_hours, parent, archived: true };
        proof {
            let nps = db@.projects;
            let ghost newrow = ProjectRowV { archived: true, ..d.projects[i as int] };
            assert(nps =~= d.projects.update(i as int, newrow));
            assert(nps =~= with_archived(d.projects, id));
            assert(db@ == archive_step(d, id));
            lemma_has_row_update(d.projects, i as int, newrow);
            assert forall|k: int| 0 <= k < nps.len() implies match (#[trigger] nps[k]).parent {
                Some(q) => q != nps[k].id && has_row(nps, q),
                None => true,
            } by {
                if k != i {
                    assert(nps[k] == d.projects[k]);
                }
            }
            assert(db@.wf());
        }
        Ok(1)
    }
}

// ---------------------------------------------------------------------------
// Work sessions
// ---------------------------------------------------------------------------

/// A session can be stored when its project reference (if any) exists and
/// the grand total of recorded duration still fits the machine word.
pub open spec fn session_ok(d: DbV, w: WorkSessionV) -> bool {
    &&& match w.project_id {
        Some(p) => has_row(d.projects, p),
        None => true,
    }
    &&& sum_durations(d.work) + w.duration <= u64::MAX
}

/// Grand total of recorded duration, in seconds.
fn sum_work(work: &Vec<WorkSession>) -> (s: u64)
    requires
        sum_durations(work@.map_values(|w: WorkSession| w@)) <= u64::MAX,
    ensures
        s as int == sum_durations(work@.map_values(|w: WorkSession| w@)),
{
    let ghost ws = work@.map_values(|w: WorkSession| w@);
    let mut s: u64 = 0;
    let mut j: usize = 0;
    while j < work.len()
        invariant
            j <= work@.len(),
            ws == work@.map_values(|w: WorkSession| w@),
            sum_durations(ws) <= u64::MAX,
            s as int == sum_durations(ws.take(j as int)),
        decreases work@.len() - j,
    {
        proof {
            assert(ws.take(j + 1).drop_last() =~= ws.take(j as int));
            assert(ws.take(j + 1).last() == ws[j as int]);
            lemma_sum_nonneg(ws.take(j + 1));
            lemma_sum_take_le(ws, j + 1);
        }
        s = s + work[j].duration;
        j = j + 1;
    }
    proof {
        assert(ws.take(work@.len() as int) =~= ws);
    }
    s
}

/// Inserts one immutable work record; refused only when it would dangle or
/// overflow the grand total, which normal use never does.
pub fn add_work_session(db: &mut Db, work_session: &WorkSession) -> (r: Result<
    usize,
    StorageError,
>)
    requires
        old(db).wf(),
    ensures
        final(db).wf(),
        session_ok(old(db)@, work_session@) ==> r == Ok::<usize, StorageError>(1usize)
            && final(db)@ == (DbV { work: old(db)@.work.push(work_session@), ..old(db)@ }),
        !session_ok(old(db)@, work_session@) ==> r == Err::<usize, StorageError>(
            StorageError::ConstraintViolation,
        ) && final(db)@ == old(db)@,
{
    let ghost d = old(db)@;
    let fk = match work_session.project_id {
        Some(p) => match find_project_index(&db.projects, p) {
            Some(_) => true,
            None => false,
        },
        None => true,
    };
    proof {
        lemma_sum_nonneg(d.work);
        lemma_total_le_sum(d.projects, d.work, 0);
    }
    if !fk {
        return Err(StorageError::ConstraintViolation);
    }
    let s = sum_work(&db.work);
    if work_session.duration > u64::MAX - s {
        return Err(StorageError::ConstraintViolation);
    }
    db.work.push(
        WorkSession {
            time_start: work_session.time_start,
            duration: work_session.duration,
            project_id: work_session.project_id,
        },
    );
    proof {
        assert(db@.work =~= d.work.push(work_session@));
        assert(db@.work.drop_last() =~= d.work);
        assert(sum_durations(db@.work) == sum_durations(d.work) + work_session@.duration);
        assert forall|k: int| 0 <= k < db@.work.len() implies match (#[trigger] db@.work[k]).project_id {
            Some(q) => has_row(db@.projects, q),
            None => true,
        } by {
            if k < d.work.len() {
                assert(db@.work[k] == d.work[k]);
            }
        }
        assert(db@.wf());
    }
    Ok(1)
}

// ---------------------------------------------------------------------------
// Per-day totals
// ---------------------------------------------------------------------------

/// Does timestamp `t` fall in the bucket of day `day` (days since the
/// epoch), with the day boundary pushed `offset_hours % 24` hours past
/// midnight?
pub open spec fn in_day_window(t: u64, day: u64, offset_hours: u64) -> bool {
    &&& day * 86400 + (offset_hours % 24) * 3600 <= t
    &&& t < day * 86400 + (offset_hours % 24) * 3600 + 86400
}

/// Summed duration of the sessions that start inside the day's bucket.
pub open spec fn window_sum(ws: Seq<WorkSessionV>, day: u64, offset_hours: u64) -> int
    decreases ws.len(),
{
    if ws.len() == 0 {
        0
    } else {
        window_sum(ws.drop_last(), day, offset_hours) + if in_day_window(
            ws.last().time_start,
            day,
            offset_hours,
        ) {
            ws.last().duration as int
        } else {
            0
        }
    }
}

pub proof fn lemma_window_le_sum(ws: Seq<WorkSessionV>, day: u64, offset_hours: u64)
    ensures
        0 <= window_sum(ws, day, offset_hours) <= sum_durations(ws),
    decreases ws.len(),
{
    if ws.len() > 0 {
        lemma_window_le_sum(ws.drop_last(), day, offset_hours);
    }
}

/// Sums the recorded duration, in seconds, of every session whose start
/// falls within the day's bucket; the offset lets a user's day begin at a
/// non-midnight hour.  The display layer divides by 3600 for hours.
pub fn get_work_hours_for_day(db: &Db, day: u64, day_boundary_offset_hours: u64) -> (total: u64)
    requires
        db.wf(),
        day as int * 86400 + 169200 <= u64::MAX as int,
    ensures
        total as int == window_sum(db@.work, day, day_boundary_offset_hours),
{
    let ghost ws = db@.work;
    let off = day_boundary_offset_hours % 24;
    let start = day * 86400 + off * 3600;
    let end = start + 86400;
    let mut total: u64 = 0;
    let mut j: usize = 0;
    while j < db.work.len()
        invariant
            db.wf(),
            j <= db@.work.len(),
            ws == db@.work,
            start == day * 86400 + (day_boundary_offset_hours % 24) * 3600,
            end == start + 86400,
            total as int == window_sum(ws.take(j as int), day, day_boundary_offset_hours),
        decreases db@.work.len() - j,
    {
        proof {
            assert(ws.take(j + 1).drop_last() =~= ws.take(j as int));
            assert(ws.take(j + 1).last() == ws[j as int]);
        }
        let t = db.work[j].time_start;
        if start <= t && t < end {
            proof {
                lemma_window_le_sum(ws.take(j + 1), day, day_boundary_offset_hours);
                lemma_sum_take_le(ws, j + 1);
            }
            total = total + db.work[j].duration;
        }
        j = j + 1;
    }
    proof {
        assert(ws.take(db@.work.len() as int) =~= ws);
    }
    total
}

/// With the day boundary pushed past midnight, a session that starts after
/// midnight but before the boundary belongs to the previous day's bucket,
/// not to its nominal date.
pub proof fn lemma_day_boundary_offset(t: u64, offset_hours: u64)
    requires
        86400 <= t,
        t % 86400 < (offset_hours % 24) * 3600,
    ensures
        in_day_window(t, ((t / 86400) - 1) as u64, offset_hours),
        !in_day_window(t, (t / 86400) as u64, offset_hours),
{
    vstd::arithmetic::div_mod::lemma_fundamental_div_mod(t as int, 86400);
    assert(t == 86400 * (t as int / 86400) + t as int % 86400);
}

// ---------------------------------------------------------------------------
// Task CRUD
// ---------------------------------------------------------------------------

pub open spec fn has_task(ts: Seq<TaskRowV>, id: usize) -> bool {
    exists|i: int| 0 <= i < ts.len() && ts[i].id == id
}

pub open spec fn task_ix(ts: Seq<TaskRowV>, id: usize) -> int {
    choose|i: int| 0 <= i < ts.len() && ts[i].id == id
}

/// The tasks of one project (or the unattributed ones), in row order.
pub open spec fn tasks_listing(ts: Seq<TaskRowV>, project_id: Option<usize>) -> Seq<TodoTaskV>
    decreases ts.len(),
{
    if ts.len() == 0 {
        Seq::empty()
    } else {
        tasks_listing(ts.drop_last(), project_id) + if ts.last().project_id == project_id {
            seq![TodoTaskV { id: ts.last().id, name: ts.last().name }]
        } else {
            Seq::empty()
        }
    }
}

/// With unique task ids, any index holding `id` is the index `task_ix` picks.
pub proof fn lemma_task_ix_is(ts: Seq<TaskRowV>, id: usize, i: int)
    requires
        forall|x: int, y: int|
            0 <= x < ts.len() && 0 <= y < ts.len() && #[trigger] ts[x].id == #[trigger] ts[y].id
                ==> x == y,
        0 <= i < ts.len(),
        ts[i].id == id,
    ensures
        has_task(ts, id),
        task_ix(ts, id) == i,
{
    assert(has_task(ts, id));
    let j = task_ix(ts, id);
    assert(0 <= j < ts.len() && ts[j].id == id);
}

/// Index of the task row holding `id`, if any.
fn find_task_index(tasks: &Vec<TaskRow>, id: usize) -> (r: Option<usize>)
    ensures
        match r {
            Some(i) => i < tasks@.len() && tasks@.map_values(|t: TaskRow| t@)[i as int].id == id,
            None => !has_task(tasks@.map_values(|t: TaskRow| t@), id),
        },
{
    let ghost ts = tasks@.map_values(|t: TaskRow| t@);
    let mut i: usize = 0;
    while i < tasks.len()
        invariant
            i <= tasks@.len(),
            ts == tasks@.map_values(|t: TaskRow| t@),
            forall|j: int| 0 <= j < i ==> (#[trigger] ts[j]).id != id,
        decreases tasks@.len() - i,
    {
        if tasks[i].id == id {
            return Some(i);
        }
        i = i + 1;
    }
    None
}

/// The tasks attributed to `project_id` (`None`: the unattributed ones).
pub fn get_tasks(db: &Db, project_id: Option<usize>) -> (r: Result<
    Vec<TodoTask>,
    StorageError,
>)
    ensures
        r matches Ok(v) && v@.map_values(|t: TodoTask| t@) == tasks_listing(
            db@.tasks,
            project_id,
        ),
{
    let ghost ts = db@.tasks;
    let mut out: Vec<TodoTask> = Vec::new();
    let mut j: usize = 0;
    while j < db.tasks.len()
        invariant
            j <= db@.tasks.len(),
            ts == db@.tasks,
            out@.map_values(|t: TodoTask| t@) == tasks_listing(
                ts.take(j as int),
                project_id,
            ),
        decreases db@.tasks.len() - j,
    {
        proof {
            assert(ts.take(j + 1).drop_last() =~= ts.take(j as int));
            assert(ts.take(j + 1).last() == ts[j as int]);
        }
        let same = match (project_id, db.tasks[j].project_id) {
            (None, None) => true,
            (Some(a), Some(b)) => a == b,
            _ => false,
        };
        if same {
            let t = TodoTask {
                id: db.tasks[j].id,
                name: db.tasks[j].name.clone(),
            };
            out.push(t);
        }
        proof {
            assert(out@.map_values(|t: TodoTask| t@) =~= tasks_listing(
                ts.take(j + 1),
                project_id,
            ));
        }
        j = j + 1;
    }
    proof {
        assert(ts.take(db@.tasks.len() as int) =~= ts);
    }
    Ok(out)
}

/// Inserts a new task and returns its id; ids count upward and are never
/// reused.
pub fn add_task(db: &mut Db, name: String, project_id: Option<usize>) -> (r: Result<
    usize,
    StorageError,
>)
    requires
        old(db).wf(),
        old(db).next_task_id < usize::MAX,
    ensures
        final(db).wf(),
        final(db)@.projects == old(db)@.projects,
        final(db)@.work == old(db)@.work,
        final(db)@.next_project_id == old(db)@.next_project_id,
        match project_id {
            Some(p) => has_row(old(db)@.projects, p),
            None => true,
        } ==> {
            &&& r == Ok::<usize, StorageError>(old(db).next_task_id)
            &&& final(db)@.tasks == old(db)@.tasks.push(
                (TaskRowV { id: old(db).next_task_id, name: name@, project_id: project_id }),
            )
            &&& final(db)@.next_task_id == old(db).next_task_id + 1
        },
        !(match project_id {
            Some(p) => has_row(old(db)@.projects, p),
            None => true,
        }) ==> r == Err::<usize, StorageError>(StorageError::ConstraintViolation) && final(db)@
            == old(db)@,
{
    let ghost d = old(db)@;
    match project_id {
        Some(p) => {
            match find_project_index(&db.projects, p) {
                Some(_) => {},
                None => {
                    return Err(StorageError::ConstraintViolation);
                },
            }
        },
        None => {},
    }
    let id = db.next_task_id;
    db.tasks.push(TaskRow { id, name, project_id });
    db.next_task_id = id + 1;
    proof {
        let nts = db@.tasks;
        assert(nts =~= d.tasks.push(TaskRowV { id: id, name: nts.last().name, project_id }));
        assert forall|k: int| 0 <= k < nts.len() implies match (#[trigger] nts[k]).project_id {
            Some(q) => has_row(db@.projects, q),
            None => true,
        } by {
            if k < d.tasks.len() {
                assert(nts[k] == d.tasks[k]);
            }
        }
        assert(db@.wf());
    }
    Ok(id)
}

/// Renames the task holding `id`; a vanished id is a benign no-op reported
/// as zero rows affected.
pub fn update_task(db: &mut Db, id: usize, name: String) -> (r: Result<usize, StorageError>)
    requires
        old(db).wf(),
    ensures
        final(db).wf(),
        final(db)@.projects == old(db)@.projects,
        final(db)@.work == old(db)@.work,
        final(db)@.next_project_id == old(db)@.next_project_id,
        final(db)@.next_task_id == old(db)@.next_task_id,
        !has_task(old(db)@.tasks, id) ==> r == Ok::<usize, StorageError>(0usize) && final(db)@
            == old(db)@,
        has_task(old(db)@.tasks, id) ==> r == Ok::<usize, StorageError>(1usize) && final(db)@.tasks
            == old(db)@.tasks.update(
            task_ix(old(db)@.tasks, id),
            (TaskRowV {
                id: id,
                name: name@,
                project_id: old(db)@.tasks[task_ix(old(db)@.tasks, id)].project_id,
            }),
        ),
{
    let ghost d = old(db)@;
    let i = match find_task_index(&db.tasks, id) {
        None => {
            return Ok(0);
        },
        Some(i) => i,
    };
    proof {
        lemma_task_ix_is(d.tasks, id, i as int);
    }
    let project_id = db.tasks[i].project_id;
    db.tasks[i] = TaskRow { id, name, project_id };
    proof {
        let nts = db@.tasks;
        assert(nts =~= d.tasks.update(
            i as int,
            TaskRowV { id: id, name: nts[i as int].name, project_id: d.tasks[i as int].project_id },
        ));
        assert forall|k: int| 0 <= k < nts.len() implies match (#[trigger] nts[k]).project_id {
            Some(q) => has_row(db@.projects, q),
            None => true,
        } by {
            if k != i {
                assert(nts[k] == d.tasks[k]);
            }
        }
        assert(db@.wf());
    }
    Ok(1)
}

/// Deletes the task holding `id`; a vanished id is a benign no-op reported
/// as zero rows affected.
pub fn delete_task(db: &mut Db, id: usize) -> (r: Result<usize, StorageError>)
    requires
        old(db).wf(),
    ensures
        final(db).wf(),
        final(db)@.projects == old(db)@.projects,
        final(db)@.work == old(db)@.work,
        final(db)@.next_project_id == old(db)@.next_project_id,
        final(db)@.next_task_id == old(db)@.next_task_id,
        !has_task(old(db)@.tasks, id) ==> r == Ok::<usize, StorageError>(0usize) && final(db)@
            == old(db)@,
        has_task(old(db)@.tasks, id) ==> r == Ok::<usize, StorageError>(1usize) && final(db)@.tasks
            == old(db)@.tasks.remove(task_ix(old(db)@.tasks, id)),
{
    let ghost d = old(db)@;
    let i = match find_task_index(&db.tasks, id) {
        None => {
            return Ok(0);
        },
        Some(i) => i,
    };
    proof {
        lemma_task_ix_is(d.tasks, id, i as int);
    }
    db.tasks.remove(i);
    proof {
        let nts = db@.tasks;
        assert(nts == d.tasks.remove(i as int));
        assert forall|k: int| 0 <= k < nts.len() implies match (#[trigger] nts[k]).project_id {
            Some(q) => has_row(db@.projects, q),
            None => true,
        } by {
            let m: int = if k < i { k } else { k + 1 };
            assert(nts[k] == d.tasks[m]);
        }
        assert forall|k: int| 0 <= k < nts.len() implies (#[trigger] nts[k]).id
            < db@.next_task_id by {
            let m: int = if k < i { k } else { k + 1 };
            assert(nts[k] == d.tasks[m]);
        }
        assert forall|x: int, y: int|
            0 <= x < nts.len() && 0 <= y < nts.len() && #[trigger] nts[x].id
                == #[trigger] nts[y].id implies x == y by {
            let mx: int = if x < i { x } else { x + 1 };
            let my: int = if y < i { y } else { y + 1 };
            assert(nts[x] == d.tasks[mx]);
            assert(nts[y] == d.tasks[my]);
        }
        assert(db@.wf());
    }
    Ok(1)
}

} // verus!
