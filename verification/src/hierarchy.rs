//! Laws of the project hierarchy: parent chains stay acyclic under every
//! store mutation, and the duration roll-up decomposes into a project's own
//! recorded time plus its direct children's totals.

use vstd::prelude::*;
use crate::db::DbV;
use crate::db::ProjectRowV;
use crate::db::WorkSessionV;
use crate::db::archive_step;
use crate::db::children_of;
use crate::db::contributes;
use crate::db::has_children;
use crate::db::has_row;
use crate::db::has_sessions;
use crate::db::in_chain;
use crate::db::lemma_has_row_update;
use crate::db::lemma_row_ix_is;
use crate::db::lemma_without_project_is_remove;
use crate::db::lemma_without_project_props;
use crate::db::parent_ok;
use crate::db::parents_ok;
use crate::db::row;
use crate::db::row_ix;
use crate::db::total_duration;
use crate::db::unique_ids;
use crate::db::with_archived;
use crate::db::without_project;

verus! {


/// The parent chain from `x` reaches a root within `fuel` upward steps.
pub open spec fn chain_rooted(ps: Seq<ProjectRowV>, x: usize, fuel: nat) -> bool
    decreases fuel,
{
    has_row(ps, x) && match row(ps, x).parent {
        None => true,
        Some(p) => fuel > 0 && chain_rooted(ps, p, (fuel - 1) as nat),
    }
}

/// No project is its own ancestor: every chain reaches a root.  The store
/// keeps this by construction, since a project can only be re-parented to
/// an id outside its own subtree.
pub open spec fn rooted(ps: Seq<ProjectRowV>) -> bool {
    forall|x: usize| #[trigger] has_row(ps, x) ==> chain_rooted(ps, x, ps.len() as nat)
}

/// Upward steps from `x` to its root, as far as `fuel` shows them.
spec fn hops(ps: Seq<ProjectRowV>, x: usize, fuel: nat) -> int
    decreases fuel,
{
    if !has_row(ps, x) {
        0
    } else {
        match row(ps, x).parent {
            None => 0,
            Some(p) => if fuel > 0 {
                1 + hops(ps, p, (fuel - 1) as nat)
            } else {
                0
            },
        }
    }
}

proof fn lemma_in_chain_mono(ps: Seq<ProjectRowV>, x: usize, y: usize, f: nat, g: nat)
    requires
        in_chain(ps, x, y, f),
        f <= g,
    ensures
        in_chain(ps, x, y, g),
    decreases f,
{
    if x != y {
        match row(ps, x).parent {
            Some(p) => {
                lemma_in_chain_mono(ps, p, y, (f - 1) as nat, (g - 1) as nat);
            },
            None => {},
        }
    }
}

proof fn lemma_chain_rooted_mono(ps: Seq<ProjectRowV>, x: usize, f: nat, g: nat)
    requires
        chain_rooted(ps, x, f),
        f <= g,
    ensures
        chain_rooted(ps, x, g),
    decreases f,
{
    match row(ps, x).parent {
        Some(p) => {
            lemma_chain_rooted_mono(ps, p, (f - 1) as nat, (g - 1) as nat);
        },
        None => {},
    }
}

proof fn lemma_hops_stable(ps: Seq<ProjectRowV>, x: usize, f: nat, g: nat)
    requires
        chain_rooted(ps, x, f),
        f <= g,
    ensures
        hops(ps, x, g) == hops(ps, x, f),
    decreases f,
{
    match row(ps, x).parent {
        Some(p) => {
            lemma_hops_stable(ps, p, (f - 1) as nat, (g - 1) as nat);
        },
        None => {},
    }
}

proof fn lemma_hops_bound(ps: Seq<ProjectRowV>, x: usize, f: nat)
    ensures
        0 <= hops(ps, x, f) <= f,
    decreases f,
{
    if has_row(ps, x) {
        match row(ps, x).parent {
            Some(p) => {
                if f > 0 {
                    lemma_hops_bound(ps, p, (f - 1) as nat);
                }
            },
            None => {},
        }
    }
}

proof fn lemma_in_chain_append(ps: Seq<ProjectRowV>, x: usize, y: usize, z: usize, f: nat)
    requires
        in_chain(ps, x, y, f),
        has_row(ps, y),
        row(ps, y).parent == Some(z),
    ensures
        in_chain(ps, x, z, (f + 1) as nat),
    decreases f,
{
    if x == y {
        if x != z {
            assert(in_chain(ps, z, z, f));
        }
    } else {
        match row(ps, x).parent {
            Some(p) => {
                lemma_in_chain_append(ps, p, y, z, (f - 1) as nat);
            },
            None => {},
        }
    }
}

proof fn lemma_in_chain_compress(ps: Seq<ProjectRowV>, x: usize, y: usize, f: nat)
    requires
        in_chain(ps, x, y, f),
        chain_rooted(ps, x, ps.len() as nat),
    ensures
        in_chain(ps, x, y, ps.len() as nat),
    decreases f,
{
    lemma_in_chain_tight(ps, x, y, f);
    lemma_hops_bound(ps, x, ps.len() as nat);
    lemma_in_chain_mono(
        ps,
        x,
        y,
        hops(ps, x, ps.len() as nat) as nat,
        ps.len() as nat,
    );
}

proof fn lemma_in_chain_tight(ps: Seq<ProjectRowV>, x: usize, y: usize, f: nat)
    requires
        in_chain(ps, x, y, f),
        chain_rooted(ps, x, ps.len() as nat),
    ensures
        hops(ps, x, ps.len() as nat) >= 0,
        in_chain(ps, x, y, hops(ps, x, ps.len() as nat) as nat),
    decreases f,
{
    lemma_hops_bound(ps, x, ps.len() as nat);
    if x != y {
        let n = ps.len() as nat;
        match row(ps, x).parent {
            Some(p) => {
                assert(chain_rooted(ps, p, (n - 1) as nat));
                lemma_chain_rooted_mono(ps, p, (n - 1) as nat, n);
                lemma_in_chain_tight(ps, p, y, (f - 1) as nat);
                lemma_hops_stable(ps, p, (n - 1) as nat, n);
                assert(hops(ps, x, n) == 1 + hops(ps, p, (n - 1) as nat));
                lemma_hops_bound(ps, p, n);
            },
            None => {},
        }
    }
}

proof fn lemma_in_chain_linear(
    ps: Seq<ProjectRowV>,
    x: usize,
    c1: usize,
    c2: usize,
    f: nat,
    g: nat,
)
    requires
        in_chain(ps, x, c1, f),
        in_chain(ps, x, c2, g),
    ensures
        in_chain(ps, c1, c2, g) || in_chain(ps, c2, c1, f),
    decreases f,
{
    if x != c1 && x != c2 {
        match row(ps, x).parent {
            Some(p) => {
                lemma_in_chain_linear(ps, p, c1, c2, (f - 1) as nat, (g - 1) as nat);
                if in_chain(ps, c1, c2, (g - 1) as nat) {
                    lemma_in_chain_mono(ps, c1, c2, (g - 1) as nat, g);
                } else {
                    lemma_in_chain_mono(ps, c2, c1, (f - 1) as nat, f);
                }
            },
            None => {},
        }
    }
}

proof fn lemma_in_chain_hops_strict(ps: Seq<ProjectRowV>, x: usize, y: usize, f: nat, n: nat)
    requires
        in_chain(ps, x, y, f),
        chain_rooted(ps, x, n),
        n > 0,
        x != y,
    ensures
        hops(ps, y, n) < hops(ps, x, n),
    decreases f,
{
    match row(ps, x).parent {
        Some(p) => {
            assert(chain_rooted(ps, p, (n - 1) as nat));
            lemma_chain_rooted_mono(ps, p, (n - 1) as nat, n);
            lemma_hops_stable(ps, p, (n - 1) as nat, n);
            assert(hops(ps, x, n) == 1 + hops(ps, p, n));
            if p != y {
                lemma_in_chain_hops_strict(ps, p, y, (f - 1) as nat, n);
            }
        },
        None => {},
    }
}

/// Ids of the nodes on the parent chain that starts at `x`.
spec fn chain_ids(ps: Seq<ProjectRowV>, x: usize, fuel: nat) -> Set<usize>
    decreases fuel,
{
    if !has_row(ps, x) {
        Set::empty()
    } else {
        match row(ps, x).parent {
            None => Set::empty().insert(x),
            Some(p) => if fuel > 0 {
                chain_ids(ps, p, (fuel - 1) as nat).insert(x)
            } else {
                Set::empty().insert(x)
            },
        }
    }
}

proof fn lemma_chain_ids_members(ps: Seq<ProjectRowV>, x: usize, fuel: nat)
    ensures
        forall|y: usize|
            #[trigger] chain_ids(ps, x, fuel).contains(y) ==> has_row(ps, y) && in_chain(
                ps,
                x,
                y,
                fuel,
            ),
    decreases fuel,
{
    broadcast use vstd::set::group_set_axioms;

    if has_row(ps, x) {
        match row(ps, x).parent {
            Some(p) => {
                if fuel > 0 {
                    lemma_chain_ids_members(ps, p, (fuel - 1) as nat);
                    assert forall|y: usize|
                        #[trigger] chain_ids(ps, x, fuel).contains(y) implies has_row(ps, y)
                        && in_chain(ps, x, y, fuel) by {
                        if y != x {
                            assert(chain_ids(ps, p, (fuel - 1) as nat).contains(y));
                            assert(in_chain(ps, p, y, (fuel - 1) as nat));
                        }
                    }
                }
            },
            None => {},
        }
    }
}

/// A rooted chain never revisits a node, so it carries exactly one id per
/// upward step.
proof fn lemma_chain_ids_card(ps: Seq<ProjectRowV>, x: usize, fuel: nat)
    requires
        chain_rooted(ps, x, fuel),
        parents_ok(ps),
        unique_ids(ps),
    ensures
        chain_ids(ps, x, fuel).finite(),
        chain_ids(ps, x, fuel).len() == hops(ps, x, fuel) + 1,
    decreases fuel,
{
    broadcast use vstd::set::group_set_axioms;

    match row(ps, x).parent {
        None => {},
        Some(p) => {
            lemma_chain_ids_card(ps, p, (fuel - 1) as nat);
            lemma_chain_ids_members(ps, p, (fuel - 1) as nat);
            if chain_ids(ps, p, (fuel - 1) as nat).contains(x) {
                assert(in_chain(ps, p, x, (fuel - 1) as nat));
                let i = row_ix(ps, x);
                assert(ps[i].id == x && ps[i].parent == Some(p));
                assert(p != x);
                lemma_in_chain_mono(ps, p, x, (fuel - 1) as nat, fuel);
                lemma_chain_rooted_mono(ps, p, (fuel - 1) as nat, fuel);
                lemma_in_chain_hops_strict(ps, p, x, fuel, fuel);
                lemma_hops_stable(ps, p, (fuel - 1) as nat, fuel);
                assert(hops(ps, x, fuel) == 1 + hops(ps, p, fuel));
                assert(false);
            }
        },
    }
}

/// Pigeonhole: a chain that never revisits a node takes fewer upward steps
/// than the table has rows.
proof fn lemma_hops_lt_len(ps: Seq<ProjectRowV>, x: usize, fuel: nat)
    requires
        chain_rooted(ps, x, fuel),
        parents_ok(ps),
        unique_ids(ps),
    ensures
        hops(ps, x, fuel) < ps.len(),
{
    broadcast use vstd::set::group_set_axioms;
    broadcast use vstd::seq_lib::seq_to_set_is_finite;

    lemma_chain_ids_card(ps, x, fuel);
    lemma_chain_ids_members(ps, x, fuel);
    let ids = ps.map_values(|r: ProjectRowV| r.id);
    ids.lemma_cardinality_of_set();
    assert forall|y: usize| chain_ids(ps, x, fuel).contains(y) implies ids.to_set().contains(
        y,
    ) by {
        let i = choose|i: int| 0 <= i < ps.len() && ps[i].id == y;
        assert(ids[i] == y);
        assert(ids.contains(y));
    }
    assert(chain_ids(ps, x, fuel).subset_of(ids.to_set()));
    vstd::set_lib::lemma_len_subset(chain_ids(ps, x, fuel), ids.to_set());
}

proof fn lemma_chain_rooted_tight(ps: Seq<ProjectRowV>, x: usize, fuel: nat)
    requires
        chain_rooted(ps, x, fuel),
    ensures
        hops(ps, x, fuel) >= 0,
        chain_rooted(ps, x, hops(ps, x, fuel) as nat),
    decreases fuel,
{
    lemma_hops_bound(ps, x, fuel);
    match row(ps, x).parent {
        None => {},
        Some(p) => {
            lemma_chain_rooted_tight(ps, p, (fuel - 1) as nat);
        },
    }
}

/// Any rooted chain is rooted within the fuel the table length grants.
proof fn lemma_chain_rooted_len(ps: Seq<ProjectRowV>, x: usize, fuel: nat)
    requires
        chain_rooted(ps, x, fuel),
        parents_ok(ps),
        unique_ids(ps),
    ensures
        chain_rooted(ps, x, ps.len() as nat),
{
    lemma_chain_rooted_tight(ps, x, fuel);
    lemma_hops_lt_len(ps, x, fuel);
    lemma_chain_rooted_mono(ps, x, hops(ps, x, fuel) as nat, ps.len() as nat);
}

/// Replacing a row by one carrying the same id moves no other row: every
/// lookup but the replaced id's answers as before.
proof fn lemma_row_update_congruence(ps: Seq<ProjectRowV>, i: int, r: ProjectRowV)
    requires
        unique_ids(ps),
        0 <= i < ps.len(),
        r.id == ps[i].id,
    ensures
        unique_ids(ps.update(i, r)),
        forall|x: usize|
            x != r.id && #[trigger] has_row(ps, x) ==> has_row(ps.update(i, r), x) && row(
                ps.update(i, r),
                x,
            ) == row(ps, x),
        has_row(ps.update(i, r), r.id),
        row(ps.update(i, r), r.id) == r,
{
    let nps = ps.update(i, r);
    assert forall|i1: int, j1: int|
        0 <= i1 < nps.len() && 0 <= j1 < nps.len() && #[trigger] nps[i1].id
            == #[trigger] nps[j1].id implies i1 == j1 by {
        assert(ps[i1].id == nps[i1].id);
        assert(ps[j1].id == nps[j1].id);
    }
    assert forall|x: usize|
        x != r.id && #[trigger] has_row(ps, x) implies has_row(nps, x) && row(nps, x) == row(
        ps,
        x,
    ) by {
        let w = row_ix(ps, x);
        assert(0 <= w < ps.len() && ps[w].id == x);
        assert(w != i);
        assert(nps[w] == ps[w]);
        lemma_row_ix_is(nps, x, w);
    }
    lemma_row_ix_is(nps, r.id, i);
}

/// A chain that never passes through the replaced id is untouched by the
/// replacement.
proof fn lemma_update_chain_avoiding(
    ps: Seq<ProjectRowV>,
    i: int,
    r: ProjectRowV,
    x: usize,
    f: nat,
)
    requires
        unique_ids(ps),
        0 <= i < ps.len(),
        r.id == ps[i].id,
        chain_rooted(ps, x, f),
        !in_chain(ps, x, r.id, f),
    ensures
        chain_rooted(ps.update(i, r), x, f),
    decreases f,
{
    lemma_row_update_congruence(ps, i, r);
    assert(x != r.id);
    match row(ps, x).parent {
        None => {},
        Some(q) => {
            if q == r.id {
                assert(in_chain(ps, r.id, r.id, (f - 1) as nat));
                assert(in_chain(ps, x, r.id, f));
            }
            assert(q != r.id);
            assert(!in_chain(ps, q, r.id, (f - 1) as nat));
            lemma_update_chain_avoiding(ps, i, r, q, (f - 1) as nat);
        },
    }
}

/// A chain that does pass through the replaced id continues, beyond it,
/// along the new parent's old chain — which the guard keeps clear of the
/// replaced id, so the whole stays rooted.
proof fn lemma_update_chain_through(
    ps: Seq<ProjectRowV>,
    i: int,
    r: ProjectRowV,
    x: usize,
    g: nat,
)
    requires
        unique_ids(ps),
        parents_ok(ps),
        rooted(ps),
        0 <= i < ps.len(),
        r.id == ps[i].id,
        parent_ok(ps, r.id, r.parent),
        in_chain(ps, x, r.id, g),
    ensures
        chain_rooted(ps.update(i, r), x, (g + ps.len() + 1) as nat),
    decreases g,
{
    lemma_row_update_congruence(ps, i, r);
    let nps = ps.update(i, r);
    let id = r.id;
    let n = ps.len() as nat;
    if x == id {
        match r.parent {
            None => {},
            Some(p) => {
                assert(has_row(ps, p));
                assert(chain_rooted(ps, p, n));
                lemma_update_chain_avoiding(ps, i, r, p, n);
                lemma_chain_rooted_mono(nps, p, n, (g + n) as nat);
            },
        }
    } else {
        match row(ps, x).parent {
            Some(q) => {
                lemma_update_chain_through(ps, i, r, q, (g - 1) as nat);
                lemma_chain_rooted_mono(nps, q, (g - 1 + n + 1) as nat, (g + n) as nat);
            },
            None => {},
        }
    }
}

/// The re-parenting guard keeps the tree acyclic: replacing the row of an
/// id with one whose parent lies outside that id's subtree leaves every
/// chain rooted.
pub proof fn lemma_update_keeps_rooted(ps: Seq<ProjectRowV>, i: int, r: ProjectRowV)
    requires
        unique_ids(ps),
        parents_ok(ps),
        rooted(ps),
        0 <= i < ps.len(),
        r.id == ps[i].id,
        parent_ok(ps, r.id, r.parent),
    ensures
        parents_ok(ps.update(i, r)),
        rooted(ps.update(i, r)),
{
    let nps = ps.update(i, r);
    let n = ps.len() as nat;
    lemma_row_update_congruence(ps, i, r);
    lemma_has_row_update(ps, i, r);
    assert forall|k: int| 0 <= k < nps.len() implies match (#[trigger] nps[k]).parent {
        Some(p) => p != nps[k].id && has_row(nps, p),
        None => true,
    } by {
        if k != i {
            assert(nps[k] == ps[k]);
        }
    }
    assert forall|x: usize| #[trigger] has_row(nps, x) implies chain_rooted(
        nps,
        x,
        nps.len() as nat,
    ) by {
        assert(has_row(ps, x));
        assert(chain_rooted(ps, x, n));
        if in_chain(ps, x, r.id, n) {
            lemma_update_chain_through(ps, i, r, x, n);
            lemma_chain_rooted_len(nps, x, (n + n + 1) as nat);
        } else {
            lemma_update_chain_avoiding(ps, i, r, x, n);
        }
    }
}

proof fn lemma_push_chain(ps: Seq<ProjectRowV>, r: ProjectRowV, x: usize, f: nat)
    requires
        unique_ids(ps),
        !has_row(ps, r.id),
        chain_rooted(ps, x, f),
    ensures
        chain_rooted(ps.push(r), x, f),
    decreases f,
{
    let nps = ps.push(r);
    let w = row_ix(ps, x);
    assert(nps[w] == ps[w]);
    assert forall|i1: int, j1: int|
        0 <= i1 < nps.len() && 0 <= j1 < nps.len() && #[trigger] nps[i1].id
            == #[trigger] nps[j1].id implies i1 == j1 by {
        if i1 < ps.len() && j1 < ps.len() {
            assert(ps[i1].id == ps[j1].id);
        } else if i1 < ps.len() {
            assert(ps[i1].id == r.id);
        } else if j1 < ps.len() {
            assert(ps[j1].id == r.id);
        }
    }
    lemma_row_ix_is(nps, x, w);
    match row(ps, x).parent {
        None => {},
        Some(q) => {
            lemma_push_chain(ps, r, q, (f - 1) as nat);
        },
    }
}

/// A fresh project hung under an existing parent, or at the root, leaves
/// every chain rooted.
pub proof fn lemma_push_keeps_rooted(ps: Seq<ProjectRowV>, r: ProjectRowV)
    requires
        unique_ids(ps),
        parents_ok(ps),
        rooted(ps),
        !has_row(ps, r.id),
        match r.parent {
            Some(p) => has_row(ps, p) && p != r.id,
            None => true,
        },
    ensures
        parents_ok(ps.push(r)),
        rooted(ps.push(r)),
{
    let nps = ps.push(r);
    let n = ps.len() as nat;
    assert forall|k: int| 0 <= k < nps.len() implies match (#[trigger] nps[k]).parent {
        Some(p) => p != nps[k].id && has_row(nps, p),
        None => true,
    } by {
        if k < ps.len() {
            assert(nps[k] == ps[k]);
            match ps[k].parent {
                Some(p) => {
                    let w = choose|w: int| 0 <= w < ps.len() && ps[w].id == p;
                    assert(nps[w].id == p);
                },
                None => {},
            }
        } else {
            match r.parent {
                Some(p) => {
                    let w = choose|w: int| 0 <= w < ps.len() && ps[w].id == p;
                    assert(nps[w].id == p);
                },
                None => {},
            }
        }
    }
    assert forall|x: usize| #[trigger] has_row(nps, x) implies chain_rooted(
        nps,
        x,
        nps.len() as nat,
    ) by {
        let w = choose|w: int| 0 <= w < nps.len() && nps[w].id == x;
        if w < ps.len() {
            assert(ps[w].id == x);
            assert(has_row(ps, x));
            assert(chain_rooted(ps, x, n));
            lemma_push_chain(ps, r, x, n);
            lemma_chain_rooted_mono(nps, x, n, nps.len() as nat);
        } else {
            assert(x == r.id);
            assert forall|i1: int, j1: int|
                0 <= i1 < nps.len() && 0 <= j1 < nps.len() && #[trigger] nps[i1].id
                    == #[trigger] nps[j1].id implies i1 == j1 by {
                if i1 < ps.len() && j1 < ps.len() {
                    assert(ps[i1].id == ps[j1].id);
                } else if i1 < ps.len() {
                    assert(ps[i1].id == r.id);
                } else if j1 < ps.len() {
                    assert(ps[j1].id == r.id);
                }
            }
            lemma_row_ix_is(nps, r.id, ps.len() as int);
            match r.parent {
                None => {},
                Some(p) => {
                    assert(chain_rooted(ps, p, n));
                    lemma_push_chain(ps, r, p, n);
                },
            }
        }
    }
}

proof fn lemma_mark_chain(ps: Seq<ProjectRowV>, x0: usize, x: usize, f: nat)
    requires
        unique_ids(ps),
        chain_rooted(ps, x, f),
    ensures
        chain_rooted(with_archived(ps, x0), x, f),
    decreases f,
{
    let nps = with_archived(ps, x0);
    assert(nps.len() == ps.len());
    assert forall|i: int| 0 <= i < ps.len() implies (#[trigger] nps[i]).id == ps[i].id
        && nps[i].parent == ps[i].parent by {}
    assert forall|i1: int, j1: int|
        0 <= i1 < nps.len() && 0 <= j1 < nps.len() && #[trigger] nps[i1].id
            == #[trigger] nps[j1].id implies i1 == j1 by {
        assert(ps[i1].id == nps[i1].id);
        assert(ps[j1].id == nps[j1].id);
    }
    let w = row_ix(ps, x);
    assert(nps[w].id == x);
    lemma_row_ix_is(nps, x, w);
    match row(ps, x).parent {
        None => {},
        Some(q) => {
            lemma_mark_chain(ps, x0, q, (f - 1) as nat);
        },
    }
}

/// Every lookup of a surviving id answers after the delete as it did
/// before it.
proof fn lemma_without_row_congruence(ps: Seq<ProjectRowV>, x: usize)
    requires
        unique_ids(ps),
    ensures
        forall|y: usize|
            y != x && #[trigger] has_row(ps, y) ==> has_row(without_project(ps, x), y) && row(
                without_project(ps, x),
                y,
            ) == row(ps, y),
{
    let nps = without_project(ps, x);
    lemma_without_project_props(ps, x);
    assert forall|y: usize|
        y != x && #[trigger] has_row(ps, y) implies has_row(nps, y) && row(nps, y) == row(
        ps,
        y,
    ) by {
        assert(has_row(nps, y));
        let k = row_ix(nps, y);
        assert(0 <= k < nps.len() && nps[k].id == y);
        let i = choose|i: int| 0 <= i < ps.len() && ps[i] == nps[k];
        lemma_row_ix_is(ps, y, i);
    }
}

proof fn lemma_delete_chain(ps: Seq<ProjectRowV>, x: usize, y: usize, f: nat)
    requires
        unique_ids(ps),
        !has_children(ps, x),
        chain_rooted(ps, y, f),
        y != x,
    ensures
        chain_rooted(without_project(ps, x), y, f),
    decreases f,
{
    let nps = without_project(ps, x);
    lemma_without_row_congruence(ps, x);
    match row(ps, y).parent {
        None => {},
        Some(q) => {
            if q == x {
                let i = row_ix(ps, y);
                assert(ps[i].parent == Some(x));
                assert(has_children(ps, x));
            }
            lemma_delete_chain(ps, x, q, (f - 1) as nat);
        },
    }
}

/// The archive-or-delete policy keeps the tree acyclic: soft-hiding flips
/// one flag, and a delete only ever removes a childless project, which no
/// chain passes through.
pub proof fn lemma_archive_keeps_rooted(d: DbV, x: usize)
    requires
        d.wf(),
        rooted(d.projects),
    ensures
        rooted(archive_step(d, x).projects),
{
    let ps = d.projects;
    let n = ps.len() as nat;
    if !has_row(ps, x) {
    } else if !has_sessions(d.work, x) && !has_children(ps, x) {
        let nps = without_project(ps, x);
        lemma_without_project_props(ps, x);
        lemma_without_row_congruence(ps, x);
        let i = row_ix(ps, x);
        assert forall|j: int| 0 <= j < ps.len() && j != i implies (#[trigger] ps[j]).id != x by {}
        lemma_without_project_is_remove(ps, x, i);
        assert(nps.len() == ps.len() - 1);
        assert forall|k: int| 0 <= k < nps.len() implies match (#[trigger] nps[k]).parent {
            Some(q) => q != nps[k].id && has_row(nps, q),
            None => true,
        } by {
            let w = choose|w: int| 0 <= w < ps.len() && ps[w] == nps[k];
            match nps[k].parent {
                Some(q) => {
                    if q == x {
                        assert(has_children(ps, x));
                    }
                },
                None => {},
            }
        }
        assert forall|y: usize| #[trigger] has_row(nps, y) implies chain_rooted(
            nps,
            y,
            nps.len() as nat,
        ) by {
            let k = row_ix(nps, y);
            assert(0 <= k < nps.len() && nps[k].id == y);
            let w = choose|w: int| 0 <= w < ps.len() && ps[w] == nps[k];
            assert(ps[w].id == y);
            assert(has_row(ps, y));
            assert(y != x);
            assert(chain_rooted(ps, y, n));
            lemma_delete_chain(ps, x, y, n);
            lemma_chain_rooted_len(nps, y, n);
        }
    } else {
        let nps = with_archived(ps, x);
        assert forall|y: usize| #[trigger] has_row(nps, y) implies chain_rooted(
            nps,
            y,
            nps.len() as nat,
        ) by {
            let k = choose|k: int| 0 <= k < nps.len() && nps[k].id == y;
            assert(ps[k].id == y);
            assert(has_row(ps, y));
            assert(chain_rooted(ps, y, n));
            lemma_mark_chain(ps, x, y, n);
        }
    }
}

/// At most one direct child of `id` lies on any one parent chain.
proof fn lemma_unique_contributing_child(
    ps: Seq<ProjectRowV>,
    pid: usize,
    id: usize,
    c1: usize,
    c2: usize,
)
    requires
        unique_ids(ps),
        rooted(ps),
        has_row(ps, c1),
        has_row(ps, c2),
        row(ps, c1).parent == Some(id),
        row(ps, c2).parent == Some(id),
        in_chain(ps, pid, c1, ps.len() as nat),
        in_chain(ps, pid, c2, ps.len() as nat),
    ensures
        c1 == c2,
{
    let n = ps.len() as nat;
    if c1 != c2 {
        lemma_in_chain_linear(ps, pid, c1, c2, n, n);
        assert(chain_rooted(ps, c1, n));
        assert(chain_rooted(ps, c2, n));
        assert(chain_rooted(ps, id, (n - 1) as nat));
        lemma_hops_stable(ps, id, (n - 1) as nat, n);
        assert(hops(ps, c1, n) == 1 + hops(ps, id, (n - 1) as nat));
        assert(hops(ps, c2, n) == 1 + hops(ps, id, (n - 1) as nat));
        if in_chain(ps, c1, c2, n) {
            lemma_in_chain_hops_strict(ps, c1, c2, n, n);
        } else {
            lemma_in_chain_hops_strict(ps, c2, c1, n, n);
        }
    }
}

/// A chain that passes through `id` from elsewhere enters it through one of
/// its direct children.
proof fn lemma_chain_decompose(ps: Seq<ProjectRowV>, pid: usize, id: usize, f: nat)
    requires
        in_chain(ps, pid, id, f),
        pid != id,
        rooted(ps),
    ensures
        exists|c: usize|
            has_row(ps, c) && #[trigger] row(ps, c).parent == Some(id) && in_chain(
                ps,
                pid,
                c,
                ps.len() as nat,
            ),
    decreases f,
{
    let n = ps.len() as nat;
    match row(ps, pid).parent {
        Some(p) => {
            if p == id {
                assert(in_chain(ps, pid, pid, n));
                assert(has_row(ps, pid) && row(ps, pid).parent == Some(id) && in_chain(
                    ps,
                    pid,
                    pid,
                    n,
                ));
            } else {
                lemma_chain_decompose(ps, p, id, (f - 1) as nat);
                let c = choose|c: usize|
                    has_row(ps, c) && #[trigger] row(ps, c).parent == Some(id) && in_chain(
                        ps,
                        p,
                        c,
                        n,
                    );
                assert(in_chain(ps, pid, c, (n + 1) as nat));
                assert(chain_rooted(ps, pid, n));
                lemma_in_chain_compress(ps, pid, c, (n + 1) as nat);
            }
        },
        None => {},
    }
}

/// A chain that reaches a direct child of `id` reaches `id` itself.
proof fn lemma_chain_compose(ps: Seq<ProjectRowV>, pid: usize, id: usize, c: usize)
    requires
        has_row(ps, c),
        row(ps, c).parent == Some(id),
        in_chain(ps, pid, c, ps.len() as nat),
        rooted(ps),
    ensures
        in_chain(ps, pid, id, ps.len() as nat),
{
    let n = ps.len() as nat;
    lemma_in_chain_append(ps, pid, c, id, n);
    if pid == c {
        assert(chain_rooted(ps, pid, n));
    } else {
        assert(has_row(ps, pid));
        assert(chain_rooted(ps, pid, n));
    }
    lemma_in_chain_compress(ps, pid, id, (n + 1) as nat);
}

/// Every listed child id belongs to a row whose parent is `id`, every such
/// row is listed, and no id is listed twice.
proof fn lemma_children_of_props(ps: Seq<ProjectRowV>, id: usize)
    requires
        unique_ids(ps),
    ensures
        forall|k: int|
            0 <= k < children_of(ps, id).len() ==> exists|i: int|
                0 <= i < ps.len() && ps[i].id == #[trigger] children_of(ps, id)[k] && ps[i].parent
                    == Some(id),
        forall|i: int|
            0 <= i < ps.len() && (#[trigger] ps[i]).parent == Some(id) ==> children_of(
                ps,
                id,
            ).contains(ps[i].id),
        forall|k1: int, k2: int|
            0 <= k1 < children_of(ps, id).len() && 0 <= k2 < children_of(ps, id).len() && k1 != k2
                ==> #[trigger] children_of(ps, id)[k1] != #[trigger] children_of(ps, id)[k2],
    decreases ps.len(),
{
    if ps.len() > 0 {
        let prefix = ps.drop_last();
        assert forall|i1: int, j1: int|
            0 <= i1 < prefix.len() && 0 <= j1 < prefix.len() && #[trigger] prefix[i1].id
                == #[trigger] prefix[j1].id implies i1 == j1 by {
            assert(ps[i1].id == ps[j1].id);
        }
        lemma_children_of_props(prefix, id);
        let w = children_of(ps, id);
        let wd = children_of(prefix, id);
        if ps.last().parent == Some(id) {
            assert(w =~= wd.push(ps.last().id));
        } else {
            assert(w =~= wd);
        }
        assert forall|k: int| 0 <= k < w.len() implies exists|i: int|
            0 <= i < ps.len() && ps[i].id == #[trigger] w[k] && ps[i].parent == Some(id) by {
            if k < wd.len() {
                let i = choose|i: int|
                    0 <= i < prefix.len() && prefix[i].id == wd[k] && prefix[i].parent == Some(
                        id,
                    );
                assert(ps[i].id == w[k] && ps[i].parent == Some(id));
            } else {
                assert(ps[ps.len() - 1].id == w[k] && ps[ps.len() - 1].parent == Some(id));
            }
        }
        assert forall|i: int|
            0 <= i < ps.len() && (#[trigger] ps[i]).parent == Some(id) implies w.contains(
            ps[i].id,
        ) by {
            if i < ps.len() - 1 {
                assert(prefix[i].parent == Some(id));
                assert(wd.contains(prefix[i].id));
                let k = choose|k: int| 0 <= k < wd.len() && wd[k] == prefix[i].id;
                assert(w[k] == ps[i].id);
            } else {
                assert(w[w.len() - 1] == ps[i].id);
            }
        }
        assert forall|k1: int, k2: int|
            0 <= k1 < w.len() && 0 <= k2 < w.len() && k1 != k2 implies #[trigger] w[k1]
            != #[trigger] w[k2] by {
            if w[k1] == w[k2] {
                let i1 = choose|i: int|
                    0 <= i < ps.len() && ps[i].id == w[k1] && ps[i].parent == Some(id);
                let i2 = choose|i: int|
                    0 <= i < ps.len() && ps[i].id == w[k2] && ps[i].parent == Some(id);
                assert(i1 == i2);
                if ps.last().parent == Some(id) && (k1 == wd.len() || k2 == wd.len()) {
                    let kp: int = if k1 == wd.len() {
                        k2
                    } else {
                        k1
                    };
                    let ip = choose|i: int|
                        0 <= i < prefix.len() && prefix[i].id == wd[kp] && prefix[i].parent
                            == Some(id);
                    assert(ps[ip].id == ps[ps.len() - 1].id);
                }
            }
        }
    }
}

/// Summed duration of the sessions attributed to `id` itself.
pub open spec fn direct_duration(ws: Seq<WorkSessionV>, id: usize) -> int
    decreases ws.len(),
{
    if ws.len() == 0 {
        0
    } else {
        direct_duration(ws.drop_last(), id) + if ws.last().project_id == Some(id) {
            ws.last().duration as int
        } else {
            0
        }
    }
}

/// Summed roll-ups of the projects in `kids`.
pub open spec fn children_total(
    ps: Seq<ProjectRowV>,
    ws: Seq<WorkSessionV>,
    kids: Seq<usize>,
) -> int
    decreases kids.len(),
{
    if kids.len() == 0 {
        0
    } else {
        children_total(ps, ws, kids.drop_last()) + total_duration(ps, ws, kids.last())
    }
}

/// One session's contribution across a list of projects.
spec fn session_hits(ps: Seq<ProjectRowV>, w: WorkSessionV, kids: Seq<usize>) -> int
    decreases kids.len(),
{
    if kids.len() == 0 {
        0
    } else {
        session_hits(ps, w, kids.drop_last()) + if contributes(ps, w, kids.last()) {
            w.duration as int
        } else {
            0
        }
    }
}

proof fn lemma_children_total_step(
    ps: Seq<ProjectRowV>,
    ws: Seq<WorkSessionV>,
    kids: Seq<usize>,
)
    requires
        ws.len() > 0,
    ensures
        children_total(ps, ws, kids) == children_total(ps, ws.drop_last(), kids) + session_hits(
            ps,
            ws.last(),
            kids,
        ),
    decreases kids.len(),
{
    if kids.len() > 0 {
        lemma_children_total_step(ps, ws, kids.drop_last());
    }
}

proof fn lemma_children_total_empty(
    ps: Seq<ProjectRowV>,
    ws: Seq<WorkSessionV>,
    kids: Seq<usize>,
)
    requires
        ws.len() == 0,
    ensures
        children_total(ps, ws, kids) == 0,
    decreases kids.len(),
{
    if kids.len() > 0 {
        lemma_children_total_empty(ps, ws, kids.drop_last());
    }
}

proof fn lemma_session_hits_none(ps: Seq<ProjectRowV>, w: WorkSessionV, kids: Seq<usize>)
    requires
        forall|k: int| 0 <= k < kids.len() ==> !contributes(ps, w, #[trigger] kids[k]),
    ensures
        session_hits(ps, w, kids) == 0,
    decreases kids.len(),
{
    if kids.len() > 0 {
        lemma_session_hits_none(ps, w, kids.drop_last());
    }
}

proof fn lemma_session_hits_one(
    ps: Seq<ProjectRowV>,
    w: WorkSessionV,
    kids: Seq<usize>,
    c: usize,
)
    requires
        kids.contains(c),
        contributes(ps, w, c),
        forall|k: int| 0 <= k < kids.len() && #[trigger] kids[k] != c ==> !contributes(ps, w, kids[k]),
        forall|k1: int, k2: int|
            0 <= k1 < kids.len() && 0 <= k2 < kids.len() && k1 != k2 ==> #[trigger] kids[k1]
                != #[trigger] kids[k2],
    ensures
        session_hits(ps, w, kids) == w.duration,
    decreases kids.len(),
{
    if kids.last() == c {
        assert forall|k: int|
            0 <= k < kids.drop_last().len() implies !contributes(
            ps,
            w,
            #[trigger] kids.drop_last()[k],
        ) by {
            assert(kids[k] != kids[kids.len() - 1]);
        }
        lemma_session_hits_none(ps, w, kids.drop_last());
    } else {
        let k = choose|k: int| 0 <= k < kids.len() && kids[k] == c;
        assert(kids.drop_last()[k] == c);
        assert(kids.drop_last().contains(c));
        lemma_session_hits_one(ps, w, kids.drop_last(), c);
    }
}

/// The aggregation's recursive shape: with an acyclic table, a project's
/// roll-up is the duration recorded directly against it plus the roll-ups
/// of its direct children — archived or not — and nothing else.
pub proof fn lemma_total_is_own_plus_children(
    ps: Seq<ProjectRowV>,
    ws: Seq<WorkSessionV>,
    id: usize,
)
    requires
        unique_ids(ps),
        parents_ok(ps),
        rooted(ps),
        has_row(ps, id),
    ensures
        total_duration(ps, ws, id) == direct_duration(ws, id) + children_total(
            ps,
            ws,
            children_of(ps, id),
        ),
    decreases ws.len(),
{
    let n = ps.len() as nat;
    let kids = children_of(ps, id);
    lemma_children_of_props(ps, id);
    if ws.len() == 0 {
        lemma_children_total_empty(ps, ws, kids);
    } else {
        lemma_total_is_own_plus_children(ps, ws.drop_last(), id);
        lemma_children_total_step(ps, ws, kids);
        let w = ws.last();
        match w.project_id {
            None => {
                lemma_session_hits_none(ps, w, kids);
            },
            Some(pid) => {
                if pid == id {
                    // The session lands directly on `id`; were a child also
                    // on the chain, `id` would sit below itself.
                    assert forall|k: int|
                        0 <= k < kids.len() implies !contributes(ps, w, #[trigger] kids[k]) by {
                        if contributes(ps, w, kids[k]) {
                            let c = kids[k];
                            let i = choose|i: int|
                                0 <= i < ps.len() && ps[i].id == c && ps[i].parent == Some(id);
                            lemma_row_ix_is(ps, c, i);
                            assert(c != id);
                            assert(chain_rooted(ps, id, n));
                            lemma_in_chain_hops_strict(ps, id, c, n, n);
                            assert(chain_rooted(ps, id, (n - 1) as nat));
                            lemma_hops_stable(ps, id, (n - 1) as nat, n);
                            assert(hops(ps, c, n) == 1 + hops(ps, id, (n - 1) as nat));
                        }
                    }
                    lemma_session_hits_none(ps, w, kids);
                } else {
                    if contributes(ps, w, id) {
                        lemma_chain_decompose(ps, pid, id, n);
                        let c = choose|c: usize|
                            has_row(ps, c) && #[trigger] row(ps, c).parent == Some(id)
                                && in_chain(ps, pid, c, n);
                        assert(ps[row_ix(ps, c)].parent == Some(id));
                        assert(kids.contains(ps[row_ix(ps, c)].id));
                        assert(contributes(ps, w, c));
                        assert forall|k: int|
                            0 <= k < kids.len() && #[trigger] kids[k] != c implies !contributes(
                            ps,
                            w,
                            kids[k],
                        ) by {
                            if contributes(ps, w, kids[k]) {
                                let e = kids[k];
                                let i = choose|i: int|
                                    0 <= i < ps.len() && ps[i].id == e && ps[i].parent == Some(
                                        id,
                                    );
                                lemma_row_ix_is(ps, e, i);
                                lemma_unique_contributing_child(ps, pid, id, c, e);
                            }
                        }
                        lemma_session_hits_one(ps, w, kids, c);
                    } else {
                        assert forall|k: int|
                            0 <= k < kids.len() implies !contributes(ps, w, #[trigger] kids[k]) by {
                            if contributes(ps, w, kids[k]) {
                                let e = kids[k];
                                let i = choose|i: int|
                                    0 <= i < ps.len() && ps[i].id == e && ps[i].parent == Some(
                                        id,
                                    );
                                lemma_row_ix_is(ps, e, i);
                                lemma_chain_compose(ps, pid, id, e);
                            }
                        }
                        lemma_session_hits_none(ps, w, kids);
                    }
                }
            },
        }
    }
}


} // verus!
