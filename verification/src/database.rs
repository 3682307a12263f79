//! The central layout database: cells in insertion order keyed by unique
//! ids, the technology layer stack, a top-cell pointer, and the command
//! journal for undo/redo.

use vstd::prelude::*;

verus! {

use crate::{CellId, fresh_id};
use crate::cell::{Cell, CellView};
use crate::commands::{
    CmdView,
    Command,
    CommandHistory,
    cells_view,
    cmd_description,
    find_cell_idx,
    step_exec,
    step_undo,
};
use crate::layer::{Layer, LayerStack};

/// The central layout database that holds all cells and the technology
/// layer stack.
#[derive(Debug)]
pub struct LayoutDatabase {
    /// Database identifier.
    pub id: u128,
    /// Project name.
    pub name: String,
    /// Technology layers.
    pub layer_stack: LayerStack,
    /// All cells, in insertion order, with unique ids.
    cells: Vec<Cell>,
    /// Top-level cell (entry point for the hierarchy).
    pub top_cell: Option<CellId>,
    /// Command history for undo/redo.
    command_history: CommandHistory,
    /// Database units per nanometer.
    pub dbu_per_nm: u32,
}

/// The mathematical value of a [`LayoutDatabase`].
pub ghost struct DbView {
    pub id: u128,
    pub name: Seq<char>,
    pub layers: Seq<Layer>,
    pub cells: Seq<CellView>,
    pub top_cell: Option<CellId>,
    pub undo: Seq<CmdView>,
    pub redo: Seq<CmdView>,
    pub dbu_per_nm: u32,
}

impl View for LayoutDatabase {
    type V = DbView;

    closed spec fn view(&self) -> DbView {
        DbView {
            id: self.id,
            name: self.name@,
            layers: self.layer_stack.layers_seq(),
            cells: cells_view(self.cells@),
            top_cell: self.top_cell,
            undo: self.command_history@.undo,
            redo: self.command_history@.redo,
            dbu_per_nm: self.dbu_per_nm,
        }
    }
}

impl LayoutDatabase {
    /// A new empty database with a fresh identity, no cells, no layers, no
    /// history, and a one-nanometer database unit.
    pub fn new(name: &str) -> (r: Self)
        ensures
            r@.name == name@,
            r@.layers == Seq::<Layer>::empty(),
            r@.cells == Seq::<CellView>::empty(),
            r@.top_cell is None,
            r@.undo == Seq::<CmdView>::empty(),
            r@.redo == Seq::<CmdView>::empty(),
            r@.dbu_per_nm == 1,
    {
        let r = Self {
            id: fresh_id(),
            name: name.to_owned(),
            layer_stack: LayerStack::new(),
            cells: Vec::new(),
            top_cell: None,
            command_history: CommandHistory::new(),
            dbu_per_nm: 1,
        };
        proof {
            assert(r@.cells =~= Seq::<CellView>::empty());
        }
        r
    }

    /// The project name.
    pub fn name(&self) -> (r: &String)
        ensures
            r@ == self@.name,
    {
        &self.name
    }

    /// Renames the project.
    pub fn set_name(&mut self, name: String)
        ensures
            final(self)@ == (DbView { name: name@, ..old(self)@ }),
    {
        self.name = name;
    }

    /// The current top cell, if one is set.
    pub fn top_cell(&self) -> (r: Option<CellId>)
        ensures
            r == self@.top_cell,
    {
        self.top_cell
    }

    /// Inserts a cell under the id it carries, replacing any cell already
    /// stored under that id, and makes it the top cell if none is set.
    pub fn add_cell(&mut self, cell: Cell) -> (r: CellId)
        ensures
            r == cell@.id,
            ({
                let i = find_cell_idx(old(self)@.cells, cell@.id);
                final(self)@.cells == if i >= 0 {
                    old(self)@.cells.update(i, cell@)
                } else {
                    old(self)@.cells.push(cell@)
                }
            }),
            final(self)@.top_cell == if old(self)@.top_cell is None {
                Some(cell@.id)
            } else {
                old(self)@.top_cell
            },
            final(self)@ == (DbView {
                cells: final(self)@.cells,
                top_cell: final(self)@.top_cell,
                ..old(self)@
            }),
    {
        let id: CellId = cell.id;
        match crate::commands::find_cell_position(&self.cells, id) {
            Some(i) => {
                let slot = &mut self.cells[i];
                *slot = cell;
            },
            None => {
                self.cells.push(cell);
            },
        }
        if self.top_cell.is_none() {
            self.top_cell = Some(id);
        }
        proof {
            let i = find_cell_idx(old(self)@.cells, id);
            if i >= 0 {
                assert(self@.cells =~= old(self)@.cells.update(i, self@.cells[i]));
            } else {
                assert(self@.cells =~= old(self)@.cells.push(self@.cells.last()));
            }
        }
        id
    }

    /// Appends a freshly loaded cell without looking for an existing id
    /// (ids assigned during a load are fresh), making it the top cell if
    /// none is set.
    pub(crate) fn load_cell(&mut self, cell: Cell)
        ensures
            final(self)@.cells == old(self)@.cells.push(cell@),
            final(self)@.top_cell == if old(self)@.top_cell is None {
                Some(cell@.id)
            } else {
                old(self)@.top_cell
            },
            final(self)@ == (DbView {
                cells: final(self)@.cells,
                top_cell: final(self)@.top_cell,
                ..old(self)@
            }),
    {
        let id: CellId = cell.id;
        self.cells.push(cell);
        if self.top_cell.is_none() {
            self.top_cell = Some(id);
        }
        proof {
            assert(self@.cells =~= old(self)@.cells.push(self@.cells.last()));
        }
    }

    /// The cell stored under the id, if any.
    pub fn get_cell(&self, id: &CellId) -> (r: Option<&Cell>)
        ensures
            match r {
                None => find_cell_idx(self@.cells, *id) < 0,
                Some(c) => ({
                    let i = find_cell_idx(self@.cells, *id);
                    i >= 0 && c@ == self@.cells[i]
                }),
            },
    {
        match crate::commands::find_cell_position(&self.cells, *id) {
            None => None,
            Some(i) => Some(&self.cells[i]),
        }
    }

    /// A mutable borrow of the cell stored under the id, if any.
    pub fn get_cell_mut(&mut self, id: &CellId) -> (r: Option<&mut Cell>)
        ensures
            match r {
                None => {
                    &&& find_cell_idx(old(self)@.cells, *id) < 0
                    &&& final(self)@ == old(self)@
                },
                Some(c) => ({
                    let i = find_cell_idx(old(self)@.cells, *id);
                    &&& i >= 0
                    &&& c@ == old(self)@.cells[i]
                    &&& final(self)@ == (DbView {
                        cells: old(self)@.cells.update(i, final(c)@),
                        ..old(self)@
                    })
                }),
            },
    {
        match crate::commands::find_cell_position(&self.cells, *id) {
            None => None,
            Some(i) => {
                let c = &mut self.cells[i];
                proof {
                    assert(cells_view(old(self).cells@.update(i as int, *final(c)))
                        =~= cells_view(old(self).cells@).update(i as int, final(c)@));
                }
                Some(c)
            },
        }
    }

    /// Detaches and returns the cell stored under the id; if it was the top
    /// cell, the pointer is cleared without promoting another cell.
    pub fn remove_cell(&mut self, id: &CellId) -> (r: Option<Cell>)
        ensures
            final(self)@.top_cell == if old(self)@.top_cell == Some(*id) {
                None::<CellId>
            } else {
                old(self)@.top_cell
            },
            ({
                let i = find_cell_idx(old(self)@.cells, *id);
                match r {
                    None => i < 0 && final(self)@.cells == old(self)@.cells,
                    Some(c) => i >= 0 && c@ == old(self)@.cells[i] && final(self)@.cells == old(
                        self,
                    )@.cells.remove(i),
                }
            }),
            final(self)@ == (DbView {
                cells: final(self)@.cells,
                top_cell: final(self)@.top_cell,
                ..old(self)@
            }),
    {
        match self.top_cell {
            Some(t) => {
                if t == *id {
                    self.top_cell = None;
                }
            },
            None => {},
        }
        match crate::commands::find_cell_position(&self.cells, *id) {
            None => None,
            Some(i) => {
                let c = self.cells.remove(i);
                proof {
                    assert(self@.cells =~= old(self)@.cells.remove(i as int));
                }
                Some(c)
            },
        }
    }

    /// The first cell with the given name in insertion order, if any. Names
    /// are not required to be unique; any one match satisfies a caller that
    /// treats them as interchangeable.
    pub fn find_cell_by_name(&self, name: &str) -> (r: Option<&Cell>)
        ensures
            match r {
                None => forall|i: int|
                    0 <= i < self@.cells.len() ==> (#[trigger] self@.cells[i]).name != name@,
                Some(c) => exists|i: int|
                    {
                        &&& 0 <= i < self@.cells.len()
                        &&& #[trigger] self@.cells[i] == c@
                        &&& self@.cells[i].name == name@
                        &&& forall|j: int| 0 <= j < i ==> (#[trigger] self@.cells[j]).name != name@
                    },
            },
    {
        let mut idx: usize = 0;
        while idx < self.cells.len()
            invariant
                0 <= idx <= self.cells@.len(),
                forall|j: int| 0 <= j < idx ==> (#[trigger] cells_view(self.cells@)[j]).name
                    != name@,
            decreases self.cells@.len() - idx,
        {
            if string_eq_str(&self.cells[idx].name, name) {
                proof {
                    assert(self@.cells[idx as int] == self.cells@[idx as int]@);
                    assert(self@.cells[idx as int].name == name@);
                }
                return Some(&self.cells[idx]);
            }
            proof {
                assert(cells_view(self.cells@)[idx as int].name != name@);
            }
            idx = idx + 1;
        }
        None
    }

    /// The names of all cells, in insertion order.
    pub fn cell_names(&self) -> (r: Vec<&str>)
        ensures
            r@.map_values(|s: &str| s@) == self@.cells.map_values(|c: CellView| c.name),
    {
        let mut out: Vec<&str> = Vec::new();
        let mut idx: usize = 0;
        while idx < self.cells.len()
            invariant
                0 <= idx <= self.cells@.len(),
                out@.len() == idx,
                forall|j: int|
                    0 <= j < idx ==> (#[trigger] out@[j])@ == cells_view(self.cells@)[j].name,
            decreases self.cells@.len() - idx,
        {
            out.push(self.cells[idx].name.as_str());
            idx = idx + 1;
        }
        proof {
            let lhs = out@.map_values(|s: &str| s@);
            let rhs = self@.cells.map_values(|c: CellView| c.name);
            assert forall|j: int| 0 <= j < lhs.len() implies lhs[j] == rhs[j] by {
                assert(out@[j]@ == cells_view(self.cells@)[j].name);
            }
            assert(lhs =~= rhs);
        }
        out
    }

    pub fn cell_count(&self) -> (r: usize)
        ensures
            r == self@.cells.len(),
    {
        self.cells.len()
    }

    /// All cells, in insertion order.
    pub fn all_cells(&self) -> (r: &[Cell])
        ensures
            r@.map_values(|c: Cell| c@) == self@.cells,
    {
        self.cells.as_slice()
    }

    /// Runs a command forward, records it for undo, and discards any
    /// redoable future.
    pub fn execute_command(&mut self, command: Command)
        ensures
            final(self)@.cells == step_exec(old(self)@.cells, command@).0,
            final(self)@.undo == old(self)@.undo.push(step_exec(old(self)@.cells, command@).1),
            final(self)@.redo == Seq::<CmdView>::empty(),
            final(self)@ == (DbView {
                cells: final(self)@.cells,
                undo: final(self)@.undo,
                redo: final(self)@.redo,
                ..old(self)@
            }),
    {
        self.command_history.execute(command, &mut self.cells);
    }

    /// Reverts the most recent command; reports failure on an empty undo
    /// history.
    pub fn undo(&mut self) -> (r: bool)
        ensures
            r <==> old(self)@.undo.len() > 0,
            !r ==> final(self)@ == old(self)@,
            r ==> ({
                let c = old(self)@.undo.last();
                let step = step_undo(old(self)@.cells, c);
                &&& final(self)@.cells == step.0
                &&& final(self)@.undo == old(self)@.undo.drop_last()
                &&& final(self)@.redo == old(self)@.redo.push(step.1)
                &&& final(self)@ == (DbView {
                    cells: final(self)@.cells,
                    undo: final(self)@.undo,
                    redo: final(self)@.redo,
                    ..old(self)@
                })
            }),
    {
        self.command_history.undo(&mut self.cells)
    }

    /// Replays the most recently undone command; reports failure on an
    /// empty redo history.
    pub fn redo(&mut self) -> (r: bool)
        ensures
            r <==> old(self)@.redo.len() > 0,
            !r ==> final(self)@ == old(self)@,
            r ==> ({
                let c = old(self)@.redo.last();
                let step = step_exec(old(self)@.cells, c);
                &&& final(self)@.cells == step.0
                &&& final(self)@.redo == old(self)@.redo.drop_last()
                &&& final(self)@.undo == old(self)@.undo.push(step.1)
                &&& final(self)@ == (DbView {
                    cells: final(self)@.cells,
                    undo: final(self)@.undo,
                    redo: final(self)@.redo,
                    ..old(self)@
                })
            }),
    {
        self.command_history.redo(&mut self.cells)
    }

    pub fn can_undo(&self) -> (r: bool)
        ensures
            r <==> self@.undo.len() > 0,
    {
        self.command_history.can_undo()
    }

    pub fn can_redo(&self) -> (r: bool)
        ensures
            r <==> self@.redo.len() > 0,
    {
        self.command_history.can_redo()
    }

    /// The description of the command an `undo` call would revert.
    pub fn undo_description(&self) -> (r: Option<&str>)
        ensures
            match r {
                None => self@.undo.len() == 0,
                Some(d) => self@.undo.len() > 0 && d@ == cmd_description(self@.undo.last()),
            },
    {
        self.command_history.undo_description()
    }

    /// The description of the command a `redo` call would replay.
    pub fn redo_description(&self) -> (r: Option<&str>)
        ensures
            match r {
                None => self@.redo.len() == 0,
                Some(d) => self@.redo.len() > 0 && d@ == cmd_description(self@.redo.last()),
            },
    {
        self.command_history.redo_description()
    }

    /// Empties the undo/redo history, as after a fresh load or save.
    pub fn clear_history(&mut self)
        ensures
            final(self)@.undo == Seq::<CmdView>::empty(),
            final(self)@.redo == Seq::<CmdView>::empty(),
            final(self)@ == (DbView {
                undo: final(self)@.undo,
                redo: final(self)@.redo,
                ..old(self)@
            }),
    {
        self.command_history.clear();
    }
}

/// Whether a stored string equals a borrowed one.
pub fn string_eq_str(a: &String, b: &str) -> (r: bool)
    ensures
        r <==> a@ == b@,
{
    let owned: String = b.to_owned();
    a.eq(&owned)
}

// ───────────────────────── instance resolution ─────────────────────────
//
// A freshly read stream leaves every subcell placement pointing at the
// placeholder id zero, since a structure reference names its child before
// the child's block has been read. The post-load pass below maps each
// recorded name to the first cell carrying it, and reports the undefined
// cell when no cell does.

/// The first position at or after `k` of a cell with the name, or -1.
pub open spec fn find_name_from(s: Seq<CellView>, nm: Seq<char>, k: int) -> int
    decreases s.len() - k,
{
    if k < 0 || k >= s.len() {
        -1
    } else if s[k].name == nm {
        k
    } else {
        find_name_from(s, nm, k + 1)
    }
}

/// The first position of a cell with the name, or -1.
pub open spec fn find_name_idx(s: Seq<CellView>, nm: Seq<char>) -> int {
    find_name_from(s, nm, 0)
}

/// Whether every placement in the store names an existing cell.
pub open spec fn all_instances_resolvable(s: Seq<CellView>) -> bool {
    forall|i: int, j: int|
        0 <= i < s.len() && 0 <= j < s[i].instances.len() ==> find_name_idx(
            s,
            (#[trigger] s[i].instances[j]).instance_name,
        ) >= 0
}

/// A placement with its target id resolved by name against the store.
pub open spec fn resolved_inst(s: Seq<CellView>, iv: crate::cell::InstView) -> crate::cell::InstView {
    crate::cell::InstView { cell_id: s[find_name_idx(s, iv.instance_name)].id, ..iv }
}

/// A cell with every placement resolved against the store.
pub open spec fn resolved_cell(s: Seq<CellView>, cv: CellView) -> CellView {
    CellView {
        instances: cv.instances.map_values(
            |iv: crate::cell::InstView| resolved_inst(s, iv),
        ),
        ..cv
    }
}

/// The store with every placement of every cell resolved.
pub open spec fn resolved_cells(s: Seq<CellView>) -> Seq<CellView> {
    s.map_values(|cv: CellView| resolved_cell(s, cv))
}

/// Name lookup sees only names, which resolution never changes.
proof fn lemma_find_name_same(a: Seq<CellView>, b: Seq<CellView>, nm: Seq<char>, k: int)
    requires
        a.len() == b.len(),
        forall|i: int| 0 <= i < a.len() ==> (#[trigger] a[i]).name == b[i].name,
    ensures
        find_name_from(a, nm, k) == find_name_from(b, nm, k),
    decreases a.len() - k,
{
    if 0 <= k < a.len() {
        lemma_find_name_same(a, b, nm, k + 1);
    }
}

/// The position of the first cell with the given name.
fn find_name_position(cells: &Vec<Cell>, nm: &String) -> (r: Option<usize>)
    ensures
        match r {
            None => find_name_idx(cells_view(cells@), nm@) == -1,
            Some(i) => find_name_idx(cells_view(cells@), nm@) == i && i < cells@.len(),
        },
{
    let mut idx: usize = 0;
    while idx < cells.len()
        invariant
            0 <= idx <= cells@.len(),
            find_name_from(cells_view(cells@), nm@, 0) == find_name_from(
                cells_view(cells@),
                nm@,
                idx as int,
            ),
        decreases cells@.len() - idx,
    {
        if string_eq_str(&cells[idx].name, nm.as_str()) {
            proof {
                assert(cells_view(cells@)[idx as int].name == nm@);
            }
            return Some(idx);
        }
        proof {
            assert(cells_view(cells@)[idx as int].name != nm@);
        }
        idx = idx + 1;
    }
    None
}

impl LayoutDatabase {
    /// Resolves every subcell placement to the id of the first cell with
    /// the recorded name. Succeeds exactly when every recorded name has a
    /// matching cell; otherwise nothing changes and the first unmatched
    /// name, scanning cells and their placements in order, comes back as
    /// the undefined-cell failure.
    pub fn resolve_instances(&mut self) -> (r: Result<(), crate::gds::GdsError>)
        ensures
            r is Ok <==> all_instances_resolvable(old(self)@.cells),
            r is Ok ==> final(self)@ == (DbView {
                cells: resolved_cells(old(self)@.cells),
                ..old(self)@
            }),
            r matches Err(e) ==> final(self)@ == old(self)@ && (exists|i: int, j: int|
                {
                    &&& 0 <= i < old(self)@.cells.len()
                    &&& 0 <= j < old(self)@.cells[i].instances.len()
                    &&& find_name_idx(
                        old(self)@.cells,
                        (#[trigger] old(self)@.cells[i].instances[j]).instance_name,
                    ) < 0
                    &&& e@ == (crate::gds::ErrView::UndefinedCell {
                        name: old(self)@.cells[i].instances[j].instance_name,
                    })
                    &&& forall|a: int, b: int|
                        0 <= a < old(self)@.cells.len() && 0 <= b < old(
                            self,
                        )@.cells[a].instances.len() && (a < i || (a == i && b < j))
                            ==> find_name_idx(
                            old(self)@.cells,
                            (#[trigger] old(self)@.cells[a].instances[b]).instance_name,
                        ) >= 0
                }),
    {
        let ghost s0 = cells_view(self.cells@);
        let n: usize = self.cells.len();
        // First pass: find the first unresolvable placement, if any,
        // touching nothing.
        let mut i: usize = 0;
        while i < n
            invariant
                0 <= i <= n,
                n == self.cells@.len(),
                self == old(self),
                s0 == cells_view(self.cells@),
                forall|a: int, b: int|
                    0 <= a < i && 0 <= b < s0[a].instances.len() ==> find_name_idx(
                        s0,
                        (#[trigger] s0[a].instances[b]).instance_name,
                    ) >= 0,
            decreases n - i,
        {
            let mi: usize = self.cells[i].instances.len();
            let mut j: usize = 0;
            while j < mi
                invariant
                    0 <= i < n,
                    0 <= j <= mi,
                    n == self.cells@.len(),
                    self == old(self),
                    s0 == cells_view(self.cells@),
                    mi == s0[i as int].instances.len(),
                    forall|a: int, b: int|
                        0 <= a < i && 0 <= b < s0[a].instances.len() ==> find_name_idx(
                            s0,
                            (#[trigger] s0[a].instances[b]).instance_name,
                        ) >= 0,
                    forall|b: int|
                        0 <= b < j ==> find_name_idx(
                            s0,
                            (#[trigger] s0[i as int].instances[b]).instance_name,
                        ) >= 0,
                decreases mi - j,
            {
                let nm = &self.cells[i].instances[j].instance_name;
                proof {
                    assert(nm@ == s0[i as int].instances[j as int].instance_name);
                }
                match find_name_position(&self.cells, nm) {
                    None => {
                        return Err(crate::gds::GdsError::UndefinedCell(nm.clone()));
                    },
                    Some(_) => {},
                }
                j = j + 1;
            }
            i = i + 1;
        }
        // Second pass: every placement resolves; write the target ids in.
        let mut i2: usize = 0;
        while i2 < n
            invariant
                0 <= i2 <= n,
                n == self.cells@.len(),
                s0 == cells_view(old(self).cells@),
                s0.len() == n,
                all_instances_resolvable(s0),
                self@ == (DbView { cells: cells_view(self.cells@), ..old(self)@ }),
                forall|a: int|
                    0 <= a < i2 ==> cells_view(self.cells@)[a] == resolved_cell(s0, s0[a]),
                forall|a: int| i2 <= a < n ==> cells_view(self.cells@)[a] == s0[a],
            decreases n - i2,
        {
            let mi: usize = self.cells[i2].instances.len();
            proof {
                assert(cells_view(self.cells@)[i2 as int] == s0[i2 as int]);
            }
            let mut j2: usize = 0;
            while j2 < mi
                invariant
                    0 <= i2 < n,
                    0 <= j2 <= mi,
                    n == self.cells@.len(),
                    s0 == cells_view(old(self).cells@),
                    s0.len() == n,
                    all_instances_resolvable(s0),
                    mi == s0[i2 as int].instances.len(),
                    self@ == (DbView { cells: cells_view(self.cells@), ..old(self)@ }),
                    forall|a: int|
                        0 <= a < i2 ==> cells_view(self.cells@)[a] == resolved_cell(s0, s0[a]),
                    forall|a: int| i2 < a < n ==> cells_view(self.cells@)[a] == s0[a],
                    cells_view(self.cells@)[i2 as int] == (CellView {
                        instances: cells_view(self.cells@)[i2 as int].instances,
                        ..s0[i2 as int]
                    }),
                    cells_view(self.cells@)[i2 as int].instances.len() == mi,
                    forall|b: int|
                        0 <= b < j2 ==> cells_view(self.cells@)[i2 as int].instances[b]
                            == resolved_inst(s0, (#[trigger] s0[i2 as int].instances[b])),
                    forall|b: int|
                        j2 <= b < mi ==> cells_view(self.cells@)[i2 as int].instances[b] == s0[
                            i2 as int
                        ].instances[b],
                decreases mi - j2,
            {
                proof {
                    assert forall|a: int| 0 <= a < n implies (#[trigger] cells_view(
                        self.cells@,
                    )[a]).name == s0[a].name by {
                        if a < i2 {
                            assert(cells_view(self.cells@)[a] == resolved_cell(s0, s0[a]));
                        }
                    }
                }
                let nm = &self.cells[i2].instances[j2].instance_name;
                proof {
                    assert(nm@ == s0[i2 as int].instances[j2 as int].instance_name);
                    lemma_find_name_same(cells_view(self.cells@), s0, nm@, 0);
                }
                let tid: CellId = match find_name_position(&self.cells, nm) {
                    Some(t) => self.cells[t].id,
                    None => {
                        proof {
                            assert(false);
                        }
                        0
                    },
                };
                proof {
                    let t = find_name_idx(s0, nm@);
                    assert(cells_view(self.cells@)[t].id == s0[t].id);
                    assert(tid == s0[t].id);
                }
                let ghost pre_cells = cells_view(self.cells@);
                let cell = &mut self.cells[i2];
                let inst = &mut cell.instances[j2];
                inst.cell_id = tid;
                proof {
                    assert(cells_view(self.cells@)[i2 as int].instances =~= pre_cells[
                        i2 as int
                    ].instances.update(
                        j2 as int,
                        crate::cell::InstView {
                            cell_id: tid,
                            ..pre_cells[i2 as int].instances[j2 as int]
                        },
                    ));
                    assert(cells_view(self.cells@) =~~= pre_cells.update(
                        i2 as int,
                        CellView {
                            instances: pre_cells[i2 as int].instances.update(
                                j2 as int,
                                crate::cell::InstView {
                                    cell_id: tid,
                                    ..pre_cells[i2 as int].instances[j2 as int]
                                },
                            ),
                            ..pre_cells[i2 as int]
                        },
                    ));
                }
                j2 = j2 + 1;
            }
            proof {
                assert(cells_view(self.cells@)[i2 as int].instances =~= s0[
                    i2 as int
                ].instances.map_values(|iv: crate::cell::InstView| resolved_inst(s0, iv)));
                assert(cells_view(self.cells@)[i2 as int] == resolved_cell(s0, s0[i2 as int]));
            }
            i2 = i2 + 1;
        }
        proof {
            assert(cells_view(self.cells@) =~= resolved_cells(s0));
        }
        Ok(())
    }
}

} // verus!
