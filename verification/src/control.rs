//! Selection and movement controller: owns the grid, the units and
//! the per-selection transient state (field of movement, move target,
//! computed path), and sequences the two engines in response to
//! external intents. At most one unit is ever selected, and a unit's
//! derived state never outlives its selection.

use vstd::prelude::*;

use crate::grid::Grid;
use crate::hex::{coord_ok, Axial};
use crate::path::{find_path, goal_attainable};
use crate::reach::{compute, lemma_field_characterizes, lemma_field_coord_ok, path_cost,
    reach_spec, valid_path, ReachField};

verus! {

/// One unit: its identity, owning player, position, per-turn movement
/// budget, and whether it has already moved this turn.
#[derive(Clone, Copy, PartialEq, Eq, Structural, Debug)]
pub struct UnitState {
    pub id: u32,
    pub owner: u32,
    pub pos: Axial,
    pub movement: u32,
    pub has_moved: bool,
}

/// What beginning a player's turn does to the unit roster: every
/// unit that player owns has its has-moved flag cleared, and nothing
/// else changes.
pub open spec fn units_refreshed(pre: Seq<UnitState>, post: Seq<UnitState>, player: u32) -> bool {
    &&& post.len() == pre.len()
    &&& forall|i: int|
        0 <= i < pre.len() ==> (#[trigger] post[i]) == (UnitState {
            has_moved: if pre[i].owner == player {
                false
            } else {
                pre[i].has_moved
            },
            ..pre[i]
        })
}

/// The controller. `selected`, `field`, `target` and `path` are the
/// transient selection state; they always describe the single
/// currently selected unit, so selecting another unit atomically
/// discards them.
pub struct Controller {
    pub grid: Grid,
    pub units: Vec<UnitState>,
    pub selected: Option<u32>,
    pub field: Option<ReachField>,
    pub target: Option<Axial>,
    pub path: Option<Vec<Axial>>,
}

impl Controller {
    pub open spec fn has_unit_at(self, id: u32, i: int) -> bool {
        0 <= i < self.units@.len() && self.units@[i].id == id
    }

    /// A unit with the identity exists.
    pub open spec fn spec_has_unit(self, id: u32) -> bool {
        exists|i: int| self.has_unit_at(id, i)
    }

    pub open spec fn unit_idx(self, id: u32) -> int {
        choose|i: int| self.has_unit_at(id, i)
    }

    /// The unit with the identity.
    pub open spec fn unit_of(self, id: u32) -> UnitState {
        self.units@[self.unit_idx(id)]
    }

    pub open spec fn units_distinct(self) -> bool {
        forall|i: int, j: int|
            0 <= i < j < self.units@.len() ==> (#[trigger] self.units@[i]).id != (
            #[trigger] self.units@[j]).id
    }

    /// Well-formedness. The derived selection state is mutually
    /// consistent: a field, target or path exists only while a unit
    /// is selected; the field was computed for the selected unit's
    /// position and budget against the current grid and is sound and
    /// complete; a path is a legal in-budget walk from the selected
    /// unit's position ending inside the field.
    pub open spec fn wf(self) -> bool {
        &&& self.grid.wf()
        &&& self.units_distinct()
        &&& forall|i: int| 0 <= i < self.units@.len() ==> coord_ok((#[trigger] self.units@[i]).pos)
        &&& match self.selected {
            Some(id) => self.spec_has_unit(id),
            None => self.field is None && self.target is None && self.path is None,
        }
        &&& match self.field {
            Some(f) => {
                &&& self.selected is Some
                &&& f.wf(self.grid)
                &&& f.full(self.grid)
                &&& f.origin == self.unit_of(self.selected->Some_0).pos
                &&& f.budget == self.unit_of(self.selected->Some_0).movement
            },
            None => true,
        }
        &&& self.target is Some ==> self.selected is Some
        &&& match self.path {
            Some(p) => {
                &&& self.selected is Some
                &&& self.field is Some
                &&& self.target is Some
                &&& valid_path(self.grid, p@)
                &&& p@.first() == self.unit_of(self.selected->Some_0).pos
                &&& path_cost(self.grid, p@) <= self.unit_of(self.selected->Some_0).movement
                &&& self.field->Some_0.spec_contains(p@.last())
            },
            None => true,
        }
    }

    pub proof fn lemma_unit_idx_valid(self, id: u32)
        requires
            self.spec_has_unit(id),
        ensures
            self.has_unit_at(id, self.unit_idx(id)),
    {
        let j = choose|j: int| self.has_unit_at(id, j);
        assert(self.has_unit_at(id, j));
    }

    pub proof fn lemma_unit_idx_is(self, id: u32, i: int)
        requires
            self.units_distinct(),
            self.has_unit_at(id, i),
        ensures
            self.unit_idx(id) == i,
            self.unit_of(id) == self.units@[i],
    {
        assert(self.spec_has_unit(id));
        self.lemma_unit_idx_valid(id);
        let j = self.unit_idx(id);
        if i < j {
            assert(self.units@[i].id != self.units@[j].id);
        } else if j < i {
            assert(self.units@[j].id != self.units@[i].id);
        }
    }

    /// A controller over a freshly generated grid, with no units and
    /// nothing selected.
    pub fn new(grid: Grid) -> (c: Controller)
        requires
            grid.wf(),
        ensures
            c.wf(),
            c.grid == grid,
            c.units@.len() == 0,
            c.selected is None,
            c.field is None,
            c.target is None,
            c.path is None,
    {
        Controller {
            grid,
            units: Vec::new(),
            selected: None,
            field: None,
            target: None,
            path: None,
        }
    }

    fn find_unit(&self, id: u32) -> (res: Option<usize>)
        ensures
            match res {
                Some(i) => self.has_unit_at(id, i as int),
                None => !self.spec_has_unit(id),
            },
    {
        let n = self.units.len();
        let mut i: usize = 0;
        while i < n
            invariant
                n == self.units@.len(),
                i <= n,
                forall|j: int| 0 <= j < i ==> (#[trigger] self.units@[j]).id != id,
            decreases n - i,
        {
            if self.units[i].id == id {
                return Some(i);
            }
            i = i + 1;
        }
        None
    }

    /// The unit with the identity, if any.
    pub fn unit(&self, id: u32) -> (u: Option<UnitState>)
        requires
            self.wf(),
        ensures
            match u {
                Some(x) => self.spec_has_unit(id) && x == self.unit_of(id),
                None => !self.spec_has_unit(id),
            },
    {
        match self.find_unit(id) {
            Some(i) => {
                proof {
                    self.lemma_unit_idx_is(id, i as int);
                }
                Some(self.units[i])
            },
            None => None,
        }
    }

    /// Place a new unit. Rejected (leaving the controller untouched)
    /// if the identity is taken, the position is out of engine
    /// bounds, or the unit would start on a coordinate the grid does
    /// not hold.
    pub fn add_unit(&mut self, id: u32, owner: u32, pos: Axial, movement: u32) -> (ok: bool)
        requires
            old(self).wf(),
        ensures
            final(self).wf(),
            ok == (!old(self).spec_has_unit(id) && coord_ok(pos) && old(self).grid.spec_contains(
                pos,
            )),
            ok ==> final(self).units@ == old(self).units@.push(
                UnitState { id, owner, pos, movement, has_moved: false },
            ),
            ok ==> final(self).spec_has_unit(id) && final(self).unit_of(id) == (UnitState {
                id,
                owner,
                pos,
                movement,
                has_moved: false,
            }),
            !ok ==> *final(self) == *old(self),
            final(self).grid == old(self).grid,
            final(self).selected == old(self).selected,
            final(self).field == old(self).field,
            final(self).target == old(self).target,
            final(self).path == old(self).path,
            forall|x: u32|
                x != id ==> #[trigger] final(self).spec_has_unit(x) == old(self).spec_has_unit(x),
            forall|x: u32|
                x != id && old(self).spec_has_unit(x) ==> #[trigger] final(self).unit_of(x) == old(
                self).unit_of(x),
    {
        if self.find_unit(id).is_some() {
            return false;
        }
        if !pos.in_bounds() {
            return false;
        }
        if !self.grid.contains_coord(pos) {
            return false;
        }
        let u = UnitState { id, owner, pos, movement, has_moved: false };
        let ghost pre = *self;
        self.units.push(u);
        proof {
            let n = pre.units@.len() as int;
            assert forall|i: int, j: int|
                0 <= i < j < self.units@.len() implies (#[trigger] self.units@[i]).id != (
            #[trigger] self.units@[j]).id by {
                if j < n {
                    assert(pre.units@[i].id != pre.units@[j].id);
                } else {
                    assert(self.units@[i] == pre.units@[i]);
                    assert(pre.has_unit_at(self.units@[i].id, i));
                }
            }
            self.lemma_unit_idx_is(id, n);
            assert forall|x: u32| x != id implies #[trigger] self.spec_has_unit(x) == pre
                .spec_has_unit(x) by {
                if pre.spec_has_unit(x) {
                    pre.lemma_unit_idx_valid(x);
                    let i = pre.unit_idx(x);
                    assert(self.has_unit_at(x, i));
                }
                if self.spec_has_unit(x) {
                    self.lemma_unit_idx_valid(x);
                    let i = self.unit_idx(x);
                    assert(i < n);
                    assert(pre.has_unit_at(x, i));
                }
            }
            assert forall|x: u32| x != id && pre.spec_has_unit(x) implies #[trigger] self.unit_of(
                x,
            ) == pre.unit_of(x) by {
                pre.lemma_unit_idx_valid(x);
                let i = pre.unit_idx(x);
                assert(self.has_unit_at(x, i));
                self.lemma_unit_idx_is(x, i);
            }
            assert(match self.field {
                Some(f) => {
                    &&& self.selected is Some
                    &&& f.wf(self.grid)
                    &&& f.full(self.grid)
                    &&& f.origin == self.unit_of(self.selected->Some_0).pos
                    &&& f.budget == self.unit_of(self.selected->Some_0).movement
                },
                None => true,
            }) by {
                if self.field is Some {
                    let sid = self.selected->Some_0;
                    assert(sid != id) by {
                        pre.lemma_unit_idx_valid(sid);
                    }
                    assert(self.unit_of(sid) == pre.unit_of(sid));
                }
            }
            assert(match self.path {
                Some(p) => p@.first() == self.unit_of(self.selected->Some_0).pos && path_cost(
                    self.grid,
                    p@,
                ) <= self.unit_of(self.selected->Some_0).movement,
                None => true,
            }) by {
                if self.path is Some {
                    let sid = self.selected->Some_0;
                    assert(sid != id) by {
                        pre.lemma_unit_idx_valid(sid);
                    }
                    assert(self.unit_of(sid) == pre.unit_of(sid));
                }
            }
        }
        true
    }

    /// Select a unit, enforcing system-wide exclusivity: whatever
    /// unit was selected before is fully deselected first — its move
    /// target, computed path and field of movement are discarded —
    /// and the new unit's field of movement is computed. A unit that
    /// has already moved may still be selected, for inspection.
    pub fn select(&mut self, id: u32) -> (ok: bool)
        requires
            old(self).wf(),
        ensures
            final(self).wf(),
            ok == old(self).spec_has_unit(id),
            final(self).grid == old(self).grid,
            final(self).units == old(self).units,
            !ok ==> *final(self) == *old(self),
            ok ==> {
                &&& final(self).selected == Some(id)
                &&& final(self).target is None
                &&& final(self).path is None
                &&& final(self).field matches Some(f) && f.origin == old(self).unit_of(id).pos
                    && f.budget == old(self).unit_of(id).movement && f.wf(old(self).grid)
                    && f.full(old(self).grid)
            },
    {
        match self.find_unit(id) {
            Some(i) => {
                proof {
                    self.lemma_unit_idx_is(id, i as int);
                }
                let u = self.units[i];
                let f = compute(&self.grid, u.pos, u.movement);
                self.target = None;
                self.path = None;
                self.selected = Some(id);
                self.field = Some(f);
                proof {
                    assert(self.has_unit_at(id, i as int));
                    self.lemma_unit_idx_is(id, i as int);
                }
                true
            },
            None => false,
        }
    }

    /// Deselect: atomically clear the selection and every piece of
    /// derived state — the move target, the computed path, and the
    /// reachable set.
    pub fn deselect(&mut self)
        requires
            old(self).wf(),
        ensures
            final(self).wf(),
            final(self).grid == old(self).grid,
            final(self).units == old(self).units,
            final(self).selected is None,
            final(self).field is None,
            final(self).target is None,
            final(self).path is None,
    {
        self.selected = None;
        self.field = None;
        self.target = None;
        self.path = None;
    }

    /// Choose a destination for the selected unit and compute its
    /// route. Rejected as a no-op unless a unit is selected and it
    /// has not yet moved this turn. The stored path follows the path
    /// engine's policy: a minimal-cost in-budget route to the target
    /// when one exists, otherwise a budget-truncated route toward it;
    /// the target stays set with no path when the target cannot be
    /// walked to at all.
    pub fn set_target(&mut self, c: Axial) -> (ok: bool)
        requires
            old(self).wf(),
        ensures
            final(self).wf(),
            final(self).grid == old(self).grid,
            final(self).units == old(self).units,
            final(self).selected == old(self).selected,
            ok == (old(self).selected is Some && !old(self).unit_of(
                old(self).selected->Some_0,
            ).has_moved),
            !ok ==> *final(self) == *old(self),
            ok ==> {
                let u = old(self).unit_of(old(self).selected->Some_0);
                &&& final(self).target == Some(c)
                &&& final(self).field is Some
                &&& (final(self).path is Some <==> (u.pos == c || goal_attainable(
                    old(self).grid,
                    u.pos,
                    c,
                )))
                &&& final(self).path matches Some(p) ==> {
                    &&& valid_path(old(self).grid, p@)
                    &&& p@.first() == u.pos
                    &&& path_cost(old(self).grid, p@) <= u.movement
                    &&& reach_spec(old(self).grid, u.pos, u.movement as int, p@.last())
                    &&& (reach_spec(old(self).grid, u.pos, u.movement as int, c) ==> p@.last()
                        == c)
                }
            },
    {
        let id = match self.selected {
            Some(id) => id,
            None => {
                return false;
            },
        };
        let i = match self.find_unit(id) {
            Some(i) => i,
            None => {
                proof {
                    assert(false);
                }
                0
            },
        };
        proof {
            self.lemma_unit_idx_is(id, i as int);
        }
        let u = self.units[i];
        if u.has_moved {
            return false;
        }
        if self.field.is_none() {
            let f = compute(&self.grid, u.pos, u.movement);
            self.field = Some(f);
        }
        self.target = Some(c);
        let r = find_path(&self.grid, u.pos, c, u.movement);
        match r {
            Some(p) => {
                proof {
                    self.lemma_unit_idx_is(id, i as int);
                    let f = self.field->Some_0;
                    lemma_field_characterizes(f, self.grid, p@.last());
                }
                self.path = Some(p);
            },
            None => {
                self.path = None;
            },
        }
        proof {
            self.lemma_unit_idx_is(id, i as int);
        }
        true
    }

    /// Commit the computed move: advance the selected unit to the
    /// furthest coordinate its computed path reaches (which the path
    /// engine already keeps inside the unit's field of movement),
    /// mark it as having moved this turn, and clear the derived
    /// field, target and path while the unit stays selected.
    /// Rejected as a no-op unless a unit is selected with a computed
    /// path and it has not yet moved this turn.
    #[verifier::rlimit(100)]
    pub fn commit_move(&mut self) -> (ok: bool)
        requires
            old(self).wf(),
        ensures
            final(self).wf(),
            final(self).grid == old(self).grid,
            final(self).selected == old(self).selected,
            ok == (old(self).selected is Some && old(self).path is Some && !old(self).unit_of(
                old(self).selected->Some_0,
            ).has_moved),
            !ok ==> *final(self) == *old(self),
            ok ==> {
                let id = old(self).selected->Some_0;
                let p = old(self).path->Some_0;
                let u = old(self).unit_of(id);
                &&& final(self).field is None
                &&& final(self).target is None
                &&& final(self).path is None
                &&& final(self).units@.len() == old(self).units@.len()
                &&& final(self).spec_has_unit(id)
                &&& final(self).unit_of(id) == (UnitState {
                    id,
                    owner: u.owner,
                    pos: p@.last(),
                    movement: u.movement,
                    has_moved: true,
                })
                &&& reach_spec(old(self).grid, u.pos, u.movement as int, p@.last())
                &&& forall|x: u32|
                    x != id ==> #[trigger] final(self).spec_has_unit(x) == old(
                    self).spec_has_unit(x)
                &&& forall|x: u32|
                    x != id && old(self).spec_has_unit(x) ==> #[trigger] final(self).unit_of(x)
                        == old(self).unit_of(x)
            },
    {
        let id = match self.selected {
            Some(id) => id,
            None => {
                return false;
            },
        };
        if self.path.is_none() {
            return false;
        }
        let i = match self.find_unit(id) {
            Some(i) => i,
            None => {
                proof {
                    assert(false);
                }
                0
            },
        };
        proof {
            self.lemma_unit_idx_is(id, i as int);
        }
        let u = self.units[i];
        if u.has_moved {
            return false;
        }
        let last = match &self.path {
            Some(p) => p[p.len() - 1],
            None => {
                proof {
                    assert(false);
                }
                u.pos
            },
        };
        proof {
            let f = self.field->Some_0;
            lemma_field_characterizes(f, self.grid, last);
            lemma_field_coord_ok(f, self.grid, last);
        }
        let nu = UnitState {
            id,
            owner: u.owner,
            pos: last,
            movement: u.movement,
            has_moved: true,
        };
        let ghost pre = *self;
        self.units.set(i, nu);
        self.field = None;
        self.target = None;
        self.path = None;
        proof {
            assert forall|a: int, j: int|
                0 <= a < j < self.units@.len() implies (#[trigger] self.units@[a]).id != (
            #[trigger] self.units@[j]).id by {
                assert(pre.units@[a].id != pre.units@[j].id);
            }
            assert forall|t: int| 0 <= t < self.units@.len() implies coord_ok(
                (#[trigger] self.units@[t]).pos,
            ) by {
                if t != i as int {
                    assert(self.units@[t] == pre.units@[t]);
                    assert(coord_ok(pre.units@[t].pos));
                }
            }
            assert(self.has_unit_at(id, i as int));
            self.lemma_unit_idx_is(id, i as int);
            assert forall|x: u32| x != id implies #[trigger] self.spec_has_unit(x) == pre
                .spec_has_unit(x) by {
                if pre.spec_has_unit(x) {
                    pre.lemma_unit_idx_valid(x);
                    let t = pre.unit_idx(x);
                    assert(t != i);
                    assert(self.has_unit_at(x, t));
                }
                if self.spec_has_unit(x) {
                    self.lemma_unit_idx_valid(x);
                    let t = self.unit_idx(x);
                    assert(t != i);
                    assert(pre.has_unit_at(x, t));
                }
            }
            assert forall|x: u32| x != id && pre.spec_has_unit(x) implies #[trigger] self.unit_of(
                x,
            ) == pre.unit_of(x) by {
                pre.lemma_unit_idx_valid(x);
                let t = pre.unit_idx(x);
                assert(t != i);
                assert(self.has_unit_at(x, t));
                self.lemma_unit_idx_is(x, t);
            }
        }
        true
    }

    /// Hook for the turn machine: when a player's turn begins, clear
    /// the has-moved flag of every unit that player owns, exactly
    /// once — replaying the hook within the same turn changes
    /// nothing further. Other players' units are untouched.
    pub fn begin_turn(&mut self, player: u32)
        requires
            old(self).wf(),
        ensures
            final(self).wf(),
            final(self).grid == old(self).grid,
            final(self).selected == old(self).selected,
            final(self).field == old(self).field,
            final(self).target == old(self).target,
            final(self).path == old(self).path,
            units_refreshed(old(self).units@, final(self).units@, player),
    {
        let n = self.units.len();
        let mut i: usize = 0;
        while i < n
            invariant
                n == self.units@.len(),
                n == old(self).units@.len(),
                i <= n,
                self.grid == old(self).grid,
                self.selected == old(self).selected,
                self.field == old(self).field,
                self.target == old(self).target,
                self.path == old(self).path,
                forall|t: int|
                    0 <= t < i ==> (#[trigger] self.units@[t]) == (UnitState {
                        has_moved: if old(self).units@[t].owner == player {
                            false
                        } else {
                            old(self).units@[t].has_moved
                        },
                        ..old(self).units@[t]
                    }),
                forall|t: int| i <= t < n ==> (#[trigger] self.units@[t]) == old(self).units@[t],
            decreases n - i,
        {
            if self.units[i].owner == player {
                let mut u = self.units[i];
                u.has_moved = false;
                self.units.set(i, u);
            }
            i = i + 1;
        }
        proof {
            let pre = *old(self);
            assert forall|a: int, j: int|
                0 <= a < j < self.units@.len() implies (#[trigger] self.units@[a]).id != (
            #[trigger] self.units@[j]).id by {
                assert(pre.units@[a].id != pre.units@[j].id);
            }
            assert forall|t: int| 0 <= t < self.units@.len() implies coord_ok(
                (#[trigger] self.units@[t]).pos,
            ) by {
                assert(coord_ok(pre.units@[t].pos));
            }
            if self.selected is Some {
                let sid = self.selected->Some_0;
                pre.lemma_unit_idx_valid(sid);
                let si = pre.unit_idx(sid);
                assert(self.has_unit_at(sid, si));
                self.lemma_unit_idx_is(sid, si);
                assert(self.unit_of(sid).pos == pre.unit_of(sid).pos);
                assert(self.unit_of(sid).movement == pre.unit_of(sid).movement);
            }
        }
    }

    /// Atomically replace the whole grid, as on map regeneration, and
    /// invalidate everything computed against the old grid: the
    /// reachable set, the move target and the computed path. A
    /// commit attempted after regeneration therefore finds no path
    /// and is rejected rather than applied against stale data.
    pub fn regenerate(&mut self, new_grid: Grid)
        requires
            old(self).wf(),
            new_grid.wf(),
        ensures
            final(self).wf(),
            final(self).grid == new_grid,
            final(self).units == old(self).units,
            final(self).selected == old(self).selected,
            final(self).field is None,
            final(self).target is None,
            final(self).path is None,
    {
        self.grid = new_grid;
        self.field = None;
        self.target = None;
        self.path = None;
        proof {
            if self.selected is Some {
                let sid = self.selected->Some_0;
                old(self).lemma_unit_idx_valid(sid);
                let si = old(self).unit_idx(sid);
                assert(self.has_unit_at(sid, si));
            }
        }
    }
}

} // verus!
