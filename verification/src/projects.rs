//! The tree cache: an in-memory, denormalized snapshot of the project set,
//! refreshed wholesale from the store after every mutation, with pre-order
//! depth-annotated traversal, active-selection tracking and an edit buffer.

use vstd::prelude::*;
use crate::db;
use crate::db::Db;
pub use crate::db::Project;
use crate::db::ProjectV;

verus! {

// ---------------------------------------------------------------------------
// Snapshot lookup
// ---------------------------------------------------------------------------

/// First snapshot entry carrying `id`, if any.
pub open spec fn find_listed(ps: Seq<ProjectV>, id: usize) -> Option<ProjectV>
    decreases ps.len(),
{
    if ps.len() == 0 {
        None
    } else if ps[0].id == id {
        Some(ps[0])
    } else {
        find_listed(ps.drop_first(), id)
    }
}

pub proof fn lemma_find_listed_at(ps: Seq<ProjectV>, id: usize, i: int)
    requires
        0 <= i < ps.len(),
        ps[i].id == id,
        forall|j: int| 0 <= j < i ==> (#[trigger] ps[j]).id != id,
    ensures
        find_listed(ps, id) == Some(ps[i]),
    decreases i,
{
    if i > 0 {
        assert(ps.drop_first()[i - 1] == ps[i]);
        assert forall|j: int| 0 <= j < i - 1 implies (#[trigger] ps.drop_first()[j]).id != id by {
            assert(ps.drop_first()[j] == ps[j + 1]);
        }
        lemma_find_listed_at(ps.drop_first(), id, i - 1);
    }
}

pub proof fn lemma_find_listed_none(ps: Seq<ProjectV>, id: usize)
    requires
        forall|j: int| 0 <= j < ps.len() ==> (#[trigger] ps[j]).id != id,
    ensures
        find_listed(ps, id) == None::<ProjectV>,
    decreases ps.len(),
{
    if ps.len() > 0 {
        assert forall|j: int|
            0 <= j < ps.drop_first().len() implies (#[trigger] ps.drop_first()[j]).id != id by {
            assert(ps.drop_first()[j] == ps[j + 1]);
        }
        lemma_find_listed_none(ps.drop_first(), id);
    }
}

/// First snapshot entry carrying `id`, by reference.
fn find_in<'a>(ps: &'a Vec<Project>, id: usize) -> (r: Option<&'a Project>)
    ensures
        match r {
            Some(p) => find_listed(ps@.map_values(|q: Project| q@), id) == Some(p@),
            None => find_listed(ps@.map_values(|q: Project| q@), id) == None::<ProjectV>,
        },
{
    let ghost psv = ps@.map_values(|q: Project| q@);
    let mut i: usize = 0;
    while i < ps.len()
        invariant
            i <= ps@.len(),
            psv == ps@.map_values(|q: Project| q@),
            forall|j: int| 0 <= j < i ==> (#[trigger] psv[j]).id != id,
        decreases ps@.len() - i,
    {
        if ps[i].id == id {
            proof {
                lemma_find_listed_at(psv, id, i as int);
            }
            return Some(&ps[i]);
        }
        i = i + 1;
    }
    proof {
        lemma_find_listed_none(psv, id);
    }
    None
}

/// A field-for-field copy.
fn clone_project(p: &Project) -> (r: Project)
    ensures
        r@ == p@,
{
    let mut children: Vec<usize> = Vec::new();
    let mut k: usize = 0;
    while k < p.children.len()
        invariant
            k <= p.children@.len(),
            children@ == p.children@.take(k as int),
        decreases p.children@.len() - k,
    {
        children.push(p.children[k]);
        proof {
            assert(children@ =~= p.children@.take(k + 1));
        }
        k = k + 1;
    }
    proof {
        assert(p.children@.take(p.children@.len() as int) =~= p.children@);
    }
    Project {
        id: p.id,
        name: p.name.clone(),
        target_hours: p.target_hours,
        parent: p.parent,
        children,
        total_seconds: p.total_seconds,
    }
}

// ---------------------------------------------------------------------------
// Pre-order traversal
// ---------------------------------------------------------------------------

/// The subtree below one snapshot entry: the entry itself, then each child's
/// subtree in child-list order.  A child id with no snapshot entry is
/// silently skipped, so archived subtrees vanish from the walk.  `fuel`
/// bounds the recursion depth; the snapshot length covers every chain.
pub open spec fn subtree_listing(ps: Seq<ProjectV>, p: ProjectV, depth: usize, fuel: nat) -> Seq<
    (usize, ProjectV),
>
    decreases fuel, 0int, 0int,
{
    seq![(depth, p)] + if fuel == 0 {
        Seq::empty()
    } else {
        children_listing(ps, p.children, (depth + 1) as usize, (fuel - 1) as nat)
    }
}

pub open spec fn children_listing(
    ps: Seq<ProjectV>,
    kids: Seq<usize>,
    depth: usize,
    fuel: nat,
) -> Seq<(usize, ProjectV)>
    decreases fuel, 1int, kids.len(),
{
    if kids.len() == 0 {
        Seq::empty()
    } else {
        children_listing(ps, kids.drop_last(), depth, fuel) + match find_listed(ps, kids.last()) {
            Some(c) => subtree_listing(ps, c, depth, fuel),
            None => Seq::empty(),
        }
    }
}

pub open spec fn tree_listing_prefix(ps: Seq<ProjectV>, n: int) -> Seq<(usize, ProjectV)>
    decreases n,
{
    if n <= 0 {
        Seq::empty()
    } else {
        tree_listing_prefix(ps, n - 1) + if ps[n - 1].parent == None::<usize> {
            subtree_listing(ps, ps[n - 1], 0, ps.len() as nat)
        } else {
            Seq::empty()
        }
    }
}

/// The full pre-order, depth-annotated walk: every root in snapshot order,
/// each expanded into its subtree.
pub open spec fn tree_listing(ps: Seq<ProjectV>) -> Seq<(usize, ProjectV)> {
    tree_listing_prefix(ps, ps.len() as int)
}

/// Appends the pre-order walk of the subtree rooted at `p` to `out`.
fn push_subtree(
    ps: &Vec<Project>,
    p: &Project,
    depth: usize,
    fuel: usize,
    out: &mut Vec<(usize, Project)>,
)
    requires
        depth + fuel <= usize::MAX,
    ensures
        final(out)@.map_values(|e: (usize, Project)| (e.0, e.1@)) == old(out)@.map_values(
            |e: (usize, Project)| (e.0, e.1@),
        ) + subtree_listing(ps@.map_values(|q: Project| q@), p@, depth, fuel as nat),
    decreases fuel,
{
    let ghost psv = ps@.map_values(|q: Project| q@);
    let ghost base = out@.map_values(|e: (usize, Project)| (e.0, e.1@));
    let cp = clone_project(p);
    out.push((depth, cp));
    proof {
        assert(out@.map_values(|e: (usize, Project)| (e.0, e.1@)) =~= base + seq![(depth, p@)]);
    }
    if fuel == 0 {
        return ;
    }
    let ghost kids = p.children@;
    let mut k: usize = 0;
    while k < p.children.len()
        invariant
            k <= kids.len(),
            kids == p.children@,
            psv == ps@.map_values(|q: Project| q@),
            depth + fuel <= usize::MAX,
            fuel >= 1,
            out@.map_values(|e: (usize, Project)| (e.0, e.1@)) == base + seq![(depth, p@)]
                + children_listing(psv, kids.take(k as int), (depth + 1) as usize, (fuel - 1) as nat),
        decreases kids.len() - k,
    {
        proof {
            assert(kids.take(k + 1).drop_last() =~= kids.take(k as int));
            assert(kids.take(k + 1).last() == kids[k as int]);
        }
        match find_in(ps, p.children[k]) {
            Some(c) => {
                push_subtree(ps, c, depth + 1, fuel - 1, out);
            },
            None => {},
        }
        k = k + 1;
    }
    proof {
        assert(kids.take(kids.len() as int) =~= kids);
        assert(subtree_listing(psv, p@, depth, fuel as nat) == seq![(depth, p@)]
            + children_listing(psv, kids, (depth + 1) as usize, (fuel - 1) as nat));
    }
}

// ---------------------------------------------------------------------------
// The cache
// ---------------------------------------------------------------------------

/// The in-memory view layer: a snapshot of the store's project listing, the
/// active selection, and a detached copy being edited.
pub struct Projects {
    pub projects: Vec<Project>,
    pub active: Option<usize>,
    pub edited: Option<Project>,
}

pub ghost struct ProjectsV {
    pub projects: Seq<ProjectV>,
    pub active: Option<usize>,
    pub edited: Option<ProjectV>,
}

impl View for Projects {
    type V = ProjectsV;

    open spec fn view(&self) -> ProjectsV {
        ProjectsV {
            projects: self.projects@.map_values(|q: Project| q@),
            active: self.active,
            edited: match self.edited {
                Some(p) => Some(p@),
                None => None,
            },
        }
    }
}

/// The store after archiving-or-deleting `ids`, deepest-listed first: the
/// last id is processed first, then the one before it, back to the front.
pub open spec fn archive_rev(d: db::DbV, ids: Seq<usize>) -> db::DbV
    decreases ids.len(),
{
    if ids.len() == 0 {
        d
    } else {
        archive_rev(db::archive_step(d, ids.last()), ids.drop_last())
    }
}

proof fn lemma_find_listed_in(ps: Seq<ProjectV>, id: usize)
    ensures
        match find_listed(ps, id) {
            Some(c) => exists|i: int| 0 <= i < ps.len() && ps[i] == c,
            None => true,
        },
    decreases ps.len(),
{
    if ps.len() > 0 && ps[0].id != id {
        lemma_find_listed_in(ps.drop_first(), id);
        match find_listed(ps.drop_first(), id) {
            Some(c) => {
                let i = choose|i: int|
                    0 <= i < ps.drop_first().len() && ps.drop_first()[i] == c;
                assert(ps[i + 1] == c);
            },
            None => {},
        }
    }
}

proof fn lemma_subtree_entries(ps: Seq<ProjectV>, p: ProjectV, depth: usize, fuel: nat)
    ensures
        forall|k: int|
            0 <= k < subtree_listing(ps, p, depth, fuel).len() ==> (#[trigger] subtree_listing(
                ps,
                p,
                depth,
                fuel,
            )[k]).1 == p || exists|i: int|
                0 <= i < ps.len() && ps[i] == subtree_listing(ps, p, depth, fuel)[k].1,
    decreases fuel, 0int, 0int,
{
    let sub = subtree_listing(ps, p, depth, fuel);
    if fuel > 0 {
        let ch = children_listing(ps, p.children, (depth + 1) as usize, (fuel - 1) as nat);
        lemma_children_entries(ps, p.children, (depth + 1) as usize, (fuel - 1) as nat);
        assert forall|k: int| 0 <= k < sub.len() implies (#[trigger] sub[k]).1 == p || exists|
            i: int,
        |
            0 <= i < ps.len() && ps[i] == sub[k].1 by {
            if k > 0 {
                assert(sub[k] == ch[k - 1]);
                let i = choose|i: int| 0 <= i < ps.len() && ps[i] == ch[k - 1].1;
                assert(ps[i] == sub[k].1);
            }
        }
    } else {
        assert(sub.len() == 1);
    }
}

proof fn lemma_children_entries(ps: Seq<ProjectV>, kids: Seq<usize>, depth: usize, fuel: nat)
    ensures
        forall|k: int|
            0 <= k < children_listing(ps, kids, depth, fuel).len() ==> exists|i: int|
                0 <= i < ps.len() && ps[i] == (#[trigger] children_listing(
                    ps,
                    kids,
                    depth,
                    fuel,
                )[k]).1,
    decreases fuel, 1int, kids.len(),
{
    if kids.len() > 0 {
        let whole = children_listing(ps, kids, depth, fuel);
        let left = children_listing(ps, kids.drop_last(), depth, fuel);
        lemma_children_entries(ps, kids.drop_last(), depth, fuel);
        match find_listed(ps, kids.last()) {
            Some(c) => {
                lemma_find_listed_in(ps, kids.last());
                lemma_subtree_entries(ps, c, depth, fuel);
                let sub = subtree_listing(ps, c, depth, fuel);
                assert forall|k: int| 0 <= k < whole.len() implies exists|i: int|
                    0 <= i < ps.len() && ps[i] == (#[trigger] whole[k]).1 by {
                    if k < left.len() {
                        assert(whole[k] == left[k]);
                        let i = choose|i: int| 0 <= i < ps.len() && ps[i] == left[k].1;
                        assert(ps[i] == whole[k].1);
                    } else {
                        assert(whole[k] == sub[k - left.len()]);
                        if sub[k - left.len()].1 == c {
                            let j = choose|j: int| 0 <= j < ps.len() && ps[j] == c;
                            assert(ps[j] == whole[k].1);
                        } else {
                            let i = choose|i: int|
                                0 <= i < ps.len() && ps[i] == sub[k - left.len()].1;
                            assert(ps[i] == whole[k].1);
                        }
                    }
                }
            },
            None => {
                assert forall|k: int| 0 <= k < whole.len() implies exists|i: int|
                    0 <= i < ps.len() && ps[i] == (#[trigger] whole[k]).1 by {
                    assert(whole[k] == left[k]);
                    let i = choose|i: int| 0 <= i < ps.len() && ps[i] == left[k].1;
                    assert(ps[i] == whole[k].1);
                }
            },
        }
    }
}

proof fn lemma_tree_prefix_entries(ps: Seq<ProjectV>, n: int)
    requires
        n <= ps.len(),
    ensures
        forall|k: int|
            0 <= k < tree_listing_prefix(ps, n).len() ==> exists|i: int|
                0 <= i < ps.len() && ps[i] == (#[trigger] tree_listing_prefix(ps, n)[k]).1,
    decreases n,
{
    if n > 0 {
        let whole = tree_listing_prefix(ps, n);
        let left = tree_listing_prefix(ps, n - 1);
        lemma_tree_prefix_entries(ps, n - 1);
        if ps[n - 1].parent == None::<usize> {
            lemma_subtree_entries(ps, ps[n - 1], 0, ps.len() as nat);
            let sub = subtree_listing(ps, ps[n - 1], 0, ps.len() as nat);
            assert forall|k: int| 0 <= k < whole.len() implies exists|i: int|
                0 <= i < ps.len() && ps[i] == (#[trigger] whole[k]).1 by {
                if k < left.len() {
                    assert(whole[k] == left[k]);
                    let i = choose|i: int| 0 <= i < ps.len() && ps[i] == left[k].1;
                    assert(ps[i] == whole[k].1);
                } else {
                    assert(whole[k] == sub[k - left.len()]);
                    if sub[k - left.len()].1 == ps[n - 1] {
                        assert(ps[n - 1] == whole[k].1);
                    } else {
                        let i = choose|i: int|
                            0 <= i < ps.len() && ps[i] == sub[k - left.len()].1;
                        assert(ps[i] == whole[k].1);
                    }
                }
            }
        } else {
            assert forall|k: int| 0 <= k < whole.len() implies exists|i: int|
                0 <= i < ps.len() && ps[i] == (#[trigger] whole[k]).1 by {
                assert(whole[k] == left[k]);
                let i = choose|i: int| 0 <= i < ps.len() && ps[i] == left[k].1;
                assert(ps[i] == whole[k].1);
            }
        }
    }
}

/// Every entry of the pre-order walk is an entry of the snapshot: the walk
/// invents nothing, so whatever the aggregation listing hides — an archived
/// project above all — is absent from the tree view as well.
pub proof fn lemma_tree_listing_from_snapshot(ps: Seq<ProjectV>)
    ensures
        forall|k: int|
            0 <= k < tree_listing(ps).len() ==> exists|i: int|
                0 <= i < ps.len() && ps[i] == (#[trigger] tree_listing(ps)[k]).1,
{
    lemma_tree_prefix_entries(ps, ps.len() as int);
}

/// An archived project appears nowhere in the tree walk of the store's
/// listing: not as a node of any depth, under any root.
pub proof fn lemma_archived_vanishes_from_tree(d: db::DbV, x: usize)
    requires
        d.wf(),
        db::has_row(d.projects, x),
        db::row(d.projects, x).archived,
    ensures
        forall|k: int|
            0 <= k < tree_listing(db::listing(d)).len() ==> (#[trigger] tree_listing(
                db::listing(d),
            )[k]).1.id != x,
{
    db::lemma_archived_not_listed(d, x);
    lemma_tree_listing_from_snapshot(db::listing(d));
    assert forall|k: int|
        0 <= k < tree_listing(db::listing(d)).len() implies (#[trigger] tree_listing(
        db::listing(d),
    )[k]).1.id != x by {
        let i = choose|i: int|
            0 <= i < db::listing(d).len() && db::listing(d)[i] == tree_listing(db::listing(d))[k].1;
    }
}

/// Walking a subtree's listing in reverse deletes an empty family outright:
/// for a parent whose only children are two leaf projects, none of the
/// three carrying a recorded session, the children are permanently deleted
/// first, and the parent — childless by the time its turn comes — follows
/// them instead of being archived.
pub proof fn lemma_archive_rev_deletes_empty_family(
    d: db::DbV,
    pid: usize,
    c1: usize,
    c2: usize,
)
    requires
        d.wf(),
        db::has_row(d.projects, pid),
        db::has_row(d.projects, c1),
        db::has_row(d.projects, c2),
        c1 != pid,
        c2 != pid,
        c1 != c2,
        forall|k: int|
            0 <= k < d.projects.len() ==> ((#[trigger] d.projects[k]).parent == Some(pid)
                ==> d.projects[k].id == c1 || d.projects[k].id == c2),
        forall|k: int|
            0 <= k < d.projects.len() ==> (#[trigger] d.projects[k]).parent != Some(c1)
                && d.projects[k].parent != Some(c2),
        !db::has_sessions(d.work, pid),
        !db::has_sessions(d.work, c1),
        !db::has_sessions(d.work, c2),
    ensures
        !db::has_row(archive_rev(d, seq![pid, c1, c2]).projects, pid),
        !db::has_row(archive_rev(d, seq![pid, c1, c2]).projects, c1),
        !db::has_row(archive_rev(d, seq![pid, c1, c2]).projects, c2),
        archive_rev(d, seq![pid, c1, c2]).projects == db::without_project(
            db::without_project(db::without_project(d.projects, c2), c1),
            pid,
        ),
        archive_rev(d, seq![pid, c1, c2]).work == d.work,
{
    let s = seq![pid, c1, c2];
    assert(s.len() == 3 && s[0] == pid && s[1] == c1 && s[2] == c2);
    let ps0 = d.projects;
    // First step: the deepest-listed child, a leaf with no sessions, is
    // deleted outright.
    assert(!db::has_children(ps0, c2));
    let d1 = db::archive_step(d, c2);
    let ps1 = db::without_project(ps0, c2);
    assert(d1.projects == ps1 && d1.work == d.work);
    db::lemma_without_project_props(ps0, c2);
    // Its sibling is next, still a leaf with no sessions.
    assert(db::has_row(ps1, c1));
    assert(!db::has_sessions(d1.work, c1));
    assert forall|k: int|
        0 <= k < ps1.len() implies (#[trigger] ps1[k]).parent != Some(c1) && ps1[k].parent
        != Some(c2) by {
        let i = choose|i: int| 0 <= i < ps0.len() && ps0[i] == ps1[k];
    }
    assert(!db::has_children(ps1, c1));
    let d2 = db::archive_step(d1, c1);
    let ps2 = db::without_project(ps1, c1);
    assert(d2.projects == ps2 && d2.work == d.work);
    db::lemma_without_project_props(ps1, c1);
    // The parent's turn: both children are gone, so it is leaf-empty too.
    assert(db::has_row(ps2, pid));
    assert(!db::has_sessions(d2.work, pid));
    assert forall|k: int| 0 <= k < ps2.len() implies (#[trigger] ps2[k]).parent != Some(pid) by {
        let i1 = choose|i: int| 0 <= i < ps1.len() && ps1[i] == ps2[k];
        let i0 = choose|i: int| 0 <= i < ps0.len() && ps0[i] == ps1[i1];
        if ps2[k].parent == Some(pid) {
            assert(ps0[i0].id == c1 || ps0[i0].id == c2);
        }
    }
    assert(!db::has_children(ps2, pid));
    let d3 = db::archive_step(d2, pid);
    let ps3 = db::without_project(ps2, pid);
    assert(d3.projects == ps3 && d3.work == d.work);
    db::lemma_without_project_props(ps2, pid);
    // Unfold the reverse walk.
    assert(s.drop_last() =~= seq![pid, c1]);
    assert(seq![pid, c1].drop_last() =~= seq![pid]);
    assert(seq![pid].drop_last() =~= Seq::<usize>::empty());
    assert(s.last() == c2 && seq![pid, c1].last() == c1 && seq![pid].last() == pid);
    assert(archive_rev(d, s) == archive_rev(d1, seq![pid, c1]));
    assert(archive_rev(d1, seq![pid, c1]) == archive_rev(d2, seq![pid]));
    assert(archive_rev(d2, seq![pid]) == archive_rev(d3, Seq::<usize>::empty()));
    assert(archive_rev(d, s) == d3);
    // None of the three survives.
    assert forall|k: int| 0 <= k < ps3.len() implies (#[trigger] ps3[k]).id != pid && ps3[k].id
        != c1 && ps3[k].id != c2 by {
        let i2 = choose|i: int| 0 <= i < ps2.len() && ps2[i] == ps3[k];
        let i1 = choose|i: int| 0 <= i < ps1.len() && ps1[i] == ps2[i2];
    }
    assert(!db::has_row(ps3, pid));
    assert(!db::has_row(ps3, c1));
    assert(!db::has_row(ps3, c2));
}

impl Projects {
    /// The cache-consistency contract: the snapshot is exactly what the
    /// store's aggregation query returns, nothing stale, nothing invented.
    pub open spec fn consistent(&self, db: &Db) -> bool {
        self@.projects == db::listing(db@)
    }

    pub fn new(db: &Db) -> (r: Projects)
        requires
            db.wf(),
        ensures
            r.consistent(db),
            r@.active == None::<usize>,
            r@.edited == None::<ProjectV>,
    {
        let mut p = Projects { projects: Vec::new(), active: None, edited: None };
        p.fetch(db);
        p
    }

    /// Replaces the snapshot wholesale from the store; always correctness
    /// over efficiency.
    pub fn fetch(&mut self, db: &Db)
        requires
            db.wf(),
        ensures
            final(self).consistent(db),
            final(self)@.active == old(self)@.active,
            final(self)@.edited == old(self)@.edited,
    {
        match db::get_projects(db) {
            Ok(v) => {
                self.projects = v;
            },
            Err(_) => {
                proof {
                    assert(false);
                }
            },
        }
    }

    /// The pre-order, depth-annotated listing of the snapshot.
    pub fn get_all_tree_style(&self) -> (r: Vec<(usize, Project)>)
        ensures
            r@.map_values(|e: (usize, Project)| (e.0, e.1@)) == tree_listing(self@.projects),
    {
        let ghost psv = self@.projects;
        let mut out: Vec<(usize, Project)> = Vec::new();
        let mut i: usize = 0;
        while i < self.projects.len()
            invariant
                i <= self.projects@.len(),
                psv == self@.projects,
                out@.map_values(|e: (usize, Project)| (e.0, e.1@)) == tree_listing_prefix(
                    psv,
                    i as int,
                ),
            decreases self.projects@.len() - i,
        {
            let is_root = self.projects[i].parent.is_none();
            if is_root {
                push_subtree(&self.projects, &self.projects[i], 0, self.projects.len(), &mut out);
            }
            i = i + 1;
        }
        out
    }

    /// Creates a project under `parent` in the store, refreshes, and opens
    /// the new project for editing so it is never left silently un-named.
    pub fn add(&mut self, parent: Option<usize>, db: &mut Db)
        requires
            old(db).wf(),
            old(db).next_project_id < usize::MAX,
            match parent {
                Some(p) => db::has_row(old(db)@.projects, p),
                None => true,
            },
        ensures
            final(db).wf(),
            final(db)@.projects == old(db)@.projects.push(
                (db::ProjectRowV {
                    id: old(db).next_project_id,
                    name: Seq::empty(),
                    target_hours: None,
                    parent: parent,
                    archived: false,
                }),
            ),
            final(db)@.work == old(db)@.work,
            final(db)@.tasks == old(db)@.tasks,
            final(self).consistent(final(db)),
            final(self)@.active == old(self)@.active,
            final(self)@.edited == find_listed(
                db::listing(final(db)@),
                old(db).next_project_id,
            ),
    {
        let id = match db::add_project(db, parent) {
            Ok(id) => id,
            Err(_) => {
                proof {
                    assert(false);
                }
                0
            },
        };
        self.fetch(db);
        self.initiate_edit(Some(id));
    }

    pub fn set_active(&mut self, id: Option<usize>)
        ensures
            final(self)@ == (ProjectsV { active: id, ..old(self)@ }),
    {
        self.active = id;
    }

    pub fn get_active(&self) -> (r: Option<usize>)
        ensures
            r == self@.active,
    {
        self.active
    }

    /// The snapshot entry of the active selection, if it is still listed.
    pub fn get_active_project(&self) -> (r: Option<&Project>)
        ensures
            match self@.active {
                None => r == None::<&Project>,
                Some(id) => match r {
                    Some(p) => find_listed(self@.projects, id) == Some(p@),
                    None => find_listed(self@.projects, id) == None::<ProjectV>,
                },
            },
    {
        match self.active {
            None => None,
            Some(id) => find_in(&self.projects, id),
        }
    }

    /// Clones the matching snapshot entry into the edit buffer; `None`, or
    /// an id that is not listed, clears it.
    pub fn initiate_edit(&mut self, id: Option<usize>)
        ensures
            final(self)@.projects == old(self)@.projects,
            final(self)@.active == old(self)@.active,
            final(self)@.edited == match id {
                None => None::<ProjectV>,
                Some(i) => find_listed(old(self)@.projects, i),
            },
    {
        match id {
            None => {
                self.edited = None;
            },
            Some(i) => {
                let found = match find_in(&self.projects, i) {
                    Some(p) => Some(clone_project(p)),
                    None => None,
                };
                self.edited = found;
            },
        }
    }

    /// Persists the edit buffer through the store's update, clears the
    /// buffer, and refreshes.  The buffer's parent must still be acceptable
    /// to the store; a buffer whose id has vanished is a benign no-op.
    pub fn finish_edit(&mut self, db: &mut Db)
        requires
            old(db).wf(),
            match old(self)@.edited {
                Some(e) => db::has_row(old(db)@.projects, e.id) ==> db::parent_ok(
                    old(db)@.projects,
                    e.id,
                    e.parent,
                ),
                None => true,
            },
        ensures
            final(db).wf(),
            final(db)@.work == old(db)@.work,
            final(db)@.tasks == old(db)@.tasks,
            match old(self)@.edited {
                None => final(db)@ == old(db)@,
                Some(e) => {
                    if db::has_row(old(db)@.projects, e.id) {
                        final(db)@.projects == old(db)@.projects.update(
                            db::row_ix(old(db)@.projects, e.id),
                            (db::ProjectRowV {
                                id: e.id,
                                name: e.name,
                                target_hours: e.target_hours,
                                parent: e.parent,
                                archived: db::row(old(db)@.projects, e.id).archived,
                            }),
                        )
                    } else {
                        final(db)@ == old(db)@
                    }
                },
            },
            final(self).consistent(final(db)),
            final(self)@.active == old(self)@.active,
            final(self)@.edited == None::<ProjectV>,
    {
        match &self.edited {
            Some(e) => {
                match db::update_project(db, e) {
                    Ok(_) => {},
                    Err(_) => {
                        proof {
                            assert(false);
                        }
                    },
                }
            },
            None => {},
        }
        self.edited = None;
        self.fetch(db);
    }

    pub fn get_edited(&self) -> (r: Option<&Project>)
        ensures
            match r {
                Some(p) => self@.edited == Some(p@),
                None => self@.edited == None::<ProjectV>,
            },
    {
        match &self.edited {
            Some(p) => Some(p),
            None => None,
        }
    }

    pub fn get_edited_id(&self) -> (r: Option<usize>)
        ensures
            r == match self@.edited {
                Some(e) => Some(e.id),
                None => None::<usize>,
            },
    {
        match &self.edited {
            Some(p) => Some(p.id),
            None => None,
        }
    }

    /// Renames the edit buffer in place; a no-op without one.
    pub fn set_edited_name(&mut self, name: String)
        ensures
            final(self)@.projects == old(self)@.projects,
            final(self)@.active == old(self)@.active,
            final(self)@.edited == match old(self)@.edited {
                None => None::<ProjectV>,
                Some(e) => Some(ProjectV { name: name@, ..e }),
            },
    {
        match &self.edited {
            Some(e) => {
                let mut ne = clone_project(e);
                ne.name = name;
                self.edited = Some(ne);
            },
            None => {},
        }
    }

    /// Archives or deletes the whole subtree rooted at the edit buffer,
    /// deepest-listed entry first: children leave (or are deleted) before
    /// their parent comes up, so an empty family is deleted bottom-up rather
    /// than archived.  Clears the buffer and refreshes.
    pub fn archive_edited_item(&mut self, db: &mut Db)
        requires
            old(db).wf(),
        ensures
            final(db).wf(),
            match old(self)@.edited {
                None => final(db)@ == old(db)@,
                Some(e) => final(db)@ == archive_rev(
                    old(db)@,
                    subtree_listing(
                        old(self)@.projects,
                        e,
                        0,
                        old(self)@.projects.len() as nat,
                    ).map_values(|x: (usize, ProjectV)| x.1.id),
                ),
            },
            final(self).consistent(final(db)),
            final(self)@.active == old(self)@.active,
            final(self)@.edited == None::<ProjectV>,
    {
        let ghost d0 = old(db)@;
        match &self.edited {
            Some(e) => {
                let mut hier: Vec<(usize, Project)> = Vec::new();
                push_subtree(&self.projects, e, 0, self.projects.len(), &mut hier);
                let ghost ids = subtree_listing(
                    self@.projects,
                    e@,
                    0,
                    self@.projects.len() as nat,
                ).map_values(|x: (usize, ProjectV)| x.1.id);
                proof {
                    assert(hier@.map_values(|x: (usize, Project)| (x.0, x.1@)).map_values(
                        |x: (usize, ProjectV)| x.1.id,
                    ) =~= ids);
                    assert(hier@.map_values(|x: (usize, Project)| x.1.id) =~= ids);
                    assert(ids.take(hier@.len() as int) =~= ids);
                }
                let mut k: usize = hier.len();
                while k > 0
                    invariant
                        k <= hier@.len(),
                        db.wf(),
                        ids == hier@.map_values(|x: (usize, Project)| x.1.id),
                        archive_rev(d0, ids) == archive_rev(db@, ids.take(k as int)),
                    decreases k,
                {
                    proof {
                        assert(ids.take(k as int).drop_last() =~= ids.take(k - 1));
                        assert(ids.take(k as int).last() == ids[k - 1]);
                    }
                    k = k - 1;
                    let id = hier[k].1.id;
                    match db::archive_project(db, id) {
                        Ok(_) => {},
                        Err(_) => {},
                    }
                }
                proof {
                    assert(ids.take(0int) =~= Seq::<usize>::empty());
                }
            },
            None => {},
        }
        self.edited = None;
        self.fetch(db);
    }
}

} // verus!
