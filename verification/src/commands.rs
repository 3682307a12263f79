//! Command journal: reversible edits on the cell store and the undo/redo
//! stacks that order them.
//!
//! Every command is a closed variant with a single dispatch function per
//! operation. A command captures, while executing, exactly the state its
//! inverse needs: the index an added primitive landed at, or the removed
//! primitive itself. The spec-level transition functions [`step_exec`] and
//! [`step_undo`] pin down every effect, and the lemmas at the end prove the
//! journal's symmetry: undoing what was executed restores every cell's
//! content.

use vstd::prelude::*;

verus! {

use crate::CellId;
use crate::cell::{Cell, CellView};
use crate::geometry::{GeomPrimitive, GeomView, Path, Point, Polygon, Rect, Via, copy_points};

/// Adds a geometry primitive to a cell.
#[derive(Debug)]
pub struct AddGeometryCommand {
    pub cell_id: CellId,
    pub geometry: GeomPrimitive,
    /// Index at which the geometry landed (captured on execute).
    inserted_index: Option<usize>,
}

/// Removes a geometry primitive from a cell by index.
#[derive(Debug)]
pub struct RemoveGeometryCommand {
    pub cell_id: CellId,
    pub index: usize,
    /// The removed geometry (captured on execute, for undo).
    removed: Option<GeomPrimitive>,
}

/// Moves one or more geometry primitives by a delta offset.
#[derive(Debug)]
pub struct MoveGeometryCommand {
    pub cell_id: CellId,
    pub indices: Vec<usize>,
    pub delta: Point,
}

/// A reversible command of the journal.
#[derive(Debug)]
pub enum Command {
    AddGeometry(AddGeometryCommand),
    RemoveGeometry(RemoveGeometryCommand),
    MoveGeometry(MoveGeometryCommand),
}

/// The mathematical value of a [`Command`], captured state included.
pub ghost enum CmdView {
    Add { cell_id: CellId, geometry: GeomView, inserted_index: Option<int> },
    Remove { cell_id: CellId, index: int, removed: Option<GeomView> },
    Move { cell_id: CellId, indices: Seq<usize>, delta: Point },
}

impl View for AddGeometryCommand {
    type V = CmdView;

    closed spec fn view(&self) -> CmdView {
        CmdView::Add {
            cell_id: self.cell_id,
            geometry: self.geometry@,
            inserted_index: match self.inserted_index {
                None => None,
                Some(i) => Some(i as int),
            },
        }
    }
}

impl View for RemoveGeometryCommand {
    type V = CmdView;

    closed spec fn view(&self) -> CmdView {
        CmdView::Remove {
            cell_id: self.cell_id,
            index: self.index as int,
            removed: match self.removed {
                None => None,
                Some(g) => Some(g@),
            },
        }
    }
}

impl View for MoveGeometryCommand {
    type V = CmdView;

    open spec fn view(&self) -> CmdView {
        CmdView::Move { cell_id: self.cell_id, indices: self.indices@, delta: self.delta }
    }
}

impl View for Command {
    type V = CmdView;

    open spec fn view(&self) -> CmdView {
        match self {
            Command::AddGeometry(a) => a@,
            Command::RemoveGeometry(r) => r@,
            Command::MoveGeometry(m) => m@,
        }
    }
}

impl AddGeometryCommand {
    pub fn new(cell_id: CellId, geometry: GeomPrimitive) -> (r: Self)
        ensures
            r@ == (CmdView::Add { cell_id, geometry: geometry@, inserted_index: None }),
    {
        Self { cell_id, geometry, inserted_index: None }
    }
}

impl RemoveGeometryCommand {
    pub fn new(cell_id: CellId, index: usize) -> (r: Self)
        ensures
            r@ == (CmdView::Remove { cell_id, index: index as int, removed: None }),
    {
        Self { cell_id, index, removed: None }
    }
}

impl MoveGeometryCommand {
    pub fn new(cell_id: CellId, indices: Vec<usize>, delta: Point) -> (r: Self)
        ensures
            r@ == (CmdView::Move { cell_id, indices: indices@, delta }),
    {
        Self { cell_id, indices, delta }
    }
}

/// The views of a stored cell sequence.
pub open spec fn cells_view(s: Seq<Cell>) -> Seq<CellView> {
    s.map_values(|c: Cell| c@)
}

/// The first position at or after `k` holding the id, or -1.
pub open spec fn find_idx_from(s: Seq<CellView>, id: CellId, k: int) -> int
    decreases s.len() - k,
{
    if k < 0 || k >= s.len() {
        -1
    } else if s[k].id == id {
        k
    } else {
        find_idx_from(s, id, k + 1)
    }
}

/// The first position holding the id, or -1.
pub open spec fn find_cell_idx(s: Seq<CellView>, id: CellId) -> int {
    find_idx_from(s, id, 0)
}

/// A point moved by a delta, wrapping on overflow.
pub open spec fn translate_pt(p: Point, dx: i64, dy: i64) -> Point {
    Point { x: p.x.wrapping_add(dx), y: p.y.wrapping_add(dy) }
}

/// A point moved back by a delta, wrapping on overflow.
pub open spec fn untranslate_pt(p: Point, dx: i64, dy: i64) -> Point {
    Point { x: p.x.wrapping_sub(dx), y: p.y.wrapping_sub(dy) }
}

/// A primitive with every coordinate moved by a delta.
pub open spec fn translate_view(g: GeomView, dx: i64, dy: i64) -> GeomView {
    match g {
        GeomView::Rect { layer_id, lower_left, upper_right } => GeomView::Rect {
            layer_id,
            lower_left: translate_pt(lower_left, dx, dy),
            upper_right: translate_pt(upper_right, dx, dy),
        },
        GeomView::Polygon { layer_id, vertices } => GeomView::Polygon {
            layer_id,
            vertices: vertices.map_values(|p: Point| translate_pt(p, dx, dy)),
        },
        GeomView::Path { layer_id, points, width } => GeomView::Path {
            layer_id,
            points: points.map_values(|p: Point| translate_pt(p, dx, dy)),
            width,
        },
        GeomView::Via { bottom_layer, top_layer, cut_layer, position, width, height } => {
            GeomView::Via {
                bottom_layer,
                top_layer,
                cut_layer,
                position: translate_pt(position, dx, dy),
                width,
                height,
            }
        },
    }
}

/// A primitive with every coordinate moved back by a delta.
pub open spec fn untranslate_view(g: GeomView, dx: i64, dy: i64) -> GeomView {
    match g {
        GeomView::Rect { layer_id, lower_left, upper_right } => GeomView::Rect {
            layer_id,
            lower_left: untranslate_pt(lower_left, dx, dy),
            upper_right: untranslate_pt(upper_right, dx, dy),
        },
        GeomView::Polygon { layer_id, vertices } => GeomView::Polygon {
            layer_id,
            vertices: vertices.map_values(|p: Point| untranslate_pt(p, dx, dy)),
        },
        GeomView::Path { layer_id, points, width } => GeomView::Path {
            layer_id,
            points: points.map_values(|p: Point| untranslate_pt(p, dx, dy)),
            width,
        },
        GeomView::Via { bottom_layer, top_layer, cut_layer, position, width, height } => {
            GeomView::Via {
                bottom_layer,
                top_layer,
                cut_layer,
                position: untranslate_pt(position, dx, dy),
                width,
                height,
            }
        },
    }
}

/// A geometry sequence with the primitives at the listed in-range indices
/// moved by a delta, applied left to right.
pub open spec fn move_all(gs: Seq<GeomView>, indices: Seq<usize>, dx: i64, dy: i64) -> Seq<
    GeomView,
>
    decreases indices.len(),
{
    if indices.len() == 0 {
        gs
    } else {
        let prev = move_all(gs, indices.drop_last(), dx, dy);
        let idx = indices.last() as int;
        if idx < prev.len() {
            prev.update(idx, translate_view(prev[idx], dx, dy))
        } else {
            prev
        }
    }
}

/// The inverse pass of [`move_all`].
pub open spec fn unmove_all(gs: Seq<GeomView>, indices: Seq<usize>, dx: i64, dy: i64) -> Seq<
    GeomView,
>
    decreases indices.len(),
{
    if indices.len() == 0 {
        gs
    } else {
        let prev = unmove_all(gs, indices.drop_last(), dx, dy);
        let idx = indices.last() as int;
        if idx < prev.len() {
            prev.update(idx, untranslate_view(prev[idx], dx, dy))
        } else {
            prev
        }
    }
}

/// The forward effect of a command: the new cell store and the command with
/// its captured state. A command aimed at a missing cell is a no-op.
pub open spec fn step_exec(s: Seq<CellView>, c: CmdView) -> (Seq<CellView>, CmdView) {
    match c {
        CmdView::Add { cell_id, geometry, inserted_index } => {
            let i = find_cell_idx(s, cell_id);
            if i < 0 {
                (s, c)
            } else {
                let cv = s[i];
                (
                    s.update(
                        i,
                        CellView { geometries: cv.geometries.push(geometry), modified: true, ..cv },
                    ),
                    CmdView::Add {
                        cell_id,
                        geometry,
                        inserted_index: Some(cv.geometries.len() as int),
                    },
                )
            }
        },
        CmdView::Remove { cell_id, index, removed } => {
            let i = find_cell_idx(s, cell_id);
            if i < 0 {
                (s, c)
            } else {
                let cv = s[i];
                if 0 <= index < cv.geometries.len() {
                    (
                        s.update(
                            i,
                            CellView {
                                geometries: cv.geometries.remove(index),
                                modified: true,
                                ..cv
                            },
                        ),
                        CmdView::Remove { cell_id, index, removed: Some(cv.geometries[index]) },
                    )
                } else {
                    (s, CmdView::Remove { cell_id, index, removed: None })
                }
            }
        },
        CmdView::Move { cell_id, indices, delta } => {
            let i = find_cell_idx(s, cell_id);
            if i < 0 {
                (s, c)
            } else {
                let cv = s[i];
                (
                    s.update(
                        i,
                        CellView {
                            geometries: move_all(cv.geometries, indices, delta.x, delta.y),
                            modified: true,
                            ..cv
                        },
                    ),
                    c,
                )
            }
        },
    }
}

/// The inverse effect of a command, driven by its captured state.
pub open spec fn step_undo(s: Seq<CellView>, c: CmdView) -> (Seq<CellView>, CmdView) {
    match c {
        CmdView::Add { cell_id, geometry, inserted_index } => {
            match inserted_index {
                None => (s, c),
                Some(idx) => {
                    let i = find_cell_idx(s, cell_id);
                    if i < 0 {
                        (s, c)
                    } else {
                        let cv = s[i];
                        if 0 <= idx < cv.geometries.len() {
                            (
                                s.update(
                                    i,
                                    CellView {
                                        geometries: cv.geometries.remove(idx),
                                        modified: true,
                                        ..cv
                                    },
                                ),
                                c,
                            )
                        } else {
                            (s, c)
                        }
                    }
                },
            }
        },
        CmdView::Remove { cell_id, index, removed } => {
            match removed {
                None => (s, c),
                Some(g) => {
                    let i = find_cell_idx(s, cell_id);
                    if i < 0 {
                        (s, CmdView::Remove { cell_id, index, removed: None })
                    } else {
                        let cv = s[i];
                        let gs = if index <= cv.geometries.len() {
                            cv.geometries.insert(index, g)
                        } else {
                            cv.geometries.push(g)
                        };
                        (
                            s.update(i, CellView { geometries: gs, modified: true, ..cv }),
                            c,
                        )
                    }
                },
            }
        },
        CmdView::Move { cell_id, indices, delta } => {
            let i = find_cell_idx(s, cell_id);
            if i < 0 {
                (s, c)
            } else {
                let cv = s[i];
                (
                    s.update(
                        i,
                        CellView {
                            geometries: unmove_all(cv.geometries, indices, delta.x, delta.y),
                            modified: true,
                            ..cv
                        },
                    ),
                    c,
                )
            }
        },
    }
}

/// The position of the first cell with the given id.
pub fn find_cell_position(cells: &Vec<Cell>, id: CellId) -> (r: Option<usize>)
    ensures
        match r {
            None => find_cell_idx(cells_view(cells@), id) == -1,
            Some(i) => find_cell_idx(cells_view(cells@), id) == i && i < cells@.len(),
        },
{
    let mut idx: usize = 0;
    while idx < cells.len()
        invariant
            0 <= idx <= cells@.len(),
            find_idx_from(cells_view(cells@), id, 0) == find_idx_from(
                cells_view(cells@),
                id,
                idx as int,
            ),
        decreases cells@.len() - idx,
    {
        if cells[idx].id == id {
            proof {
                assert(cells_view(cells@)[idx as int].id == id);
            }
            return Some(idx);
        }
        proof {
            assert(cells_view(cells@)[idx as int].id != id);
        }
        idx = idx + 1;
    }
    None
}

/// A primitive moved by a delta, wrapping on overflow.
pub fn translated(g: &GeomPrimitive, dx: i64, dy: i64) -> (r: GeomPrimitive)
    ensures
        r@ == translate_view(g@, dx, dy),
{
    match g {
        GeomPrimitive::Rect(r) => GeomPrimitive::Rect(
            Rect {
                layer_id: r.layer_id,
                lower_left: r.lower_left.translate(dx, dy),
                upper_right: r.upper_right.translate(dx, dy),
            },
        ),
        GeomPrimitive::Polygon(p) => GeomPrimitive::Polygon(
            Polygon { layer_id: p.layer_id, vertices: translate_points(&p.vertices, dx, dy) },
        ),
        GeomPrimitive::Path(p) => GeomPrimitive::Path(
            Path {
                layer_id: p.layer_id,
                points: translate_points(&p.points, dx, dy),
                width: p.width,
            },
        ),
        GeomPrimitive::Via(v) => GeomPrimitive::Via(
            Via { position: v.position.translate(dx, dy), ..*v },
        ),
    }
}

/// Every point of a vector moved by a delta, wrapping on overflow.
pub fn translate_points(points: &Vec<Point>, dx: i64, dy: i64) -> (r: Vec<Point>)
    ensures
        r@ == points@.map_values(|p: Point| translate_pt(p, dx, dy)),
{
    let mut out: Vec<Point> = Vec::new();
    let mut idx: usize = 0;
    while idx < points.len()
        invariant
            0 <= idx <= points@.len(),
            out@ == points@.subrange(0, idx as int).map_values(|p: Point| translate_pt(p, dx, dy)),
        decreases points@.len() - idx,
    {
        out.push(points[idx].translate(dx, dy));
        proof {
            assert(out@ =~= points@.subrange(0, idx + 1).map_values(
                |p: Point| translate_pt(p, dx, dy),
            ));
        }
        idx = idx + 1;
    }
    proof {
        assert(points@.subrange(0, points@.len() as int) =~= points@);
    }
    out
}

/// Translates all points of a geometry in place by `(dx, dy)`, wrapping on
/// overflow.
pub fn translate_geometry(geom: &mut GeomPrimitive, dx: i64, dy: i64)
    ensures
        final(geom)@ == translate_view(old(geom)@, dx, dy),
{
    let new_geom = translated(geom, dx, dy);
    *geom = new_geom;
}

/// A primitive moved back by a delta, wrapping on overflow.
pub fn untranslated(g: &GeomPrimitive, dx: i64, dy: i64) -> (r: GeomPrimitive)
    ensures
        r@ == untranslate_view(g@, dx, dy),
{
    match g {
        GeomPrimitive::Rect(r) => GeomPrimitive::Rect(
            Rect {
                layer_id: r.layer_id,
                lower_left: untranslate_point(r.lower_left, dx, dy),
                upper_right: untranslate_point(r.upper_right, dx, dy),
            },
        ),
        GeomPrimitive::Polygon(p) => GeomPrimitive::Polygon(
            Polygon { layer_id: p.layer_id, vertices: untranslate_points(&p.vertices, dx, dy) },
        ),
        GeomPrimitive::Path(p) => GeomPrimitive::Path(
            Path {
                layer_id: p.layer_id,
                points: untranslate_points(&p.points, dx, dy),
                width: p.width,
            },
        ),
        GeomPrimitive::Via(v) => GeomPrimitive::Via(
            Via { position: untranslate_point(v.position, dx, dy), ..*v },
        ),
    }
}

/// A single point moved back by a delta, wrapping on overflow.
pub fn untranslate_point(p: Point, dx: i64, dy: i64) -> (r: Point)
    ensures
        r == untranslate_pt(p, dx, dy),
{
    Point { x: p.x.wrapping_sub(dx), y: p.y.wrapping_sub(dy) }
}

/// Every point of a vector moved back by a delta, wrapping on overflow.
pub fn untranslate_points(points: &Vec<Point>, dx: i64, dy: i64) -> (r: Vec<Point>)
    ensures
        r@ == points@.map_values(|p: Point| untranslate_pt(p, dx, dy)),
{
    let mut out: Vec<Point> = Vec::new();
    let mut idx: usize = 0;
    while idx < points.len()
        invariant
            0 <= idx <= points@.len(),
            out@ == points@.subrange(0, idx as int).map_values(
                |p: Point| untranslate_pt(p, dx, dy),
            ),
        decreases points@.len() - idx,
    {
        out.push(untranslate_point(points[idx], dx, dy));
        proof {
            assert(out@ =~= points@.subrange(0, idx + 1).map_values(
                |p: Point| untranslate_pt(p, dx, dy),
            ));
        }
        idx = idx + 1;
    }
    proof {
        assert(points@.subrange(0, points@.len() as int) =~= points@);
    }
    out
}

/// Runs a command's forward action against the cell store, capturing the
/// state its inverse needs.
pub fn apply_execute(cmd: &mut Command, cells: &mut Vec<Cell>)
    ensures
        cells_view(final(cells)@) == step_exec(cells_view(old(cells)@), old(cmd)@).0,
        final(cmd)@ == step_exec(cells_view(old(cells)@), old(cmd)@).1,
{
    let ghost s0 = cells_view(cells@);
    match cmd {
        Command::AddGeometry(a) => {
            match find_cell_position(cells, a.cell_id) {
                None => {},
                Some(i) => {
                    let ghost cv = s0[i as int];
                    let cell = &mut cells[i];
                    cell.add_geometry(a.geometry.duplicate());
                    let n: usize = cell.geometry_count();
                    a.inserted_index = Some(n - 1);
                    proof {
                        assert(cells_view(cells@) =~= s0.update(
                            i as int,
                            CellView {
                                geometries: cv.geometries.push(a.geometry@),
                                modified: true,
                                ..cv
                            },
                        ));
                    }
                },
            }
        },
        Command::RemoveGeometry(rc) => {
            match find_cell_position(cells, rc.cell_id) {
                None => {},
                Some(i) => {
                    let ghost cv = s0[i as int];
                    let cell = &mut cells[i];
                    let taken = cell.remove_geometry(rc.index);
                    rc.removed = taken;
                    proof {
                        if rc.index < cv.geometries.len() {
                            assert(cells_view(cells@) =~= s0.update(
                                i as int,
                                CellView {
                                    geometries: cv.geometries.remove(rc.index as int),
                                    modified: true,
                                    ..cv
                                },
                            ));
                        } else {
                            assert(cells_view(cells@) =~= s0);
                        }
                    }
                },
            }
        },
        Command::MoveGeometry(mc) => {
            match find_cell_position(cells, mc.cell_id) {
                None => {},
                Some(i) => {
                    let ghost cv = s0[i as int];
                    let cell = &mut cells[i];
                    let mut k: usize = 0;
                    while k < mc.indices.len()
                        invariant
                            0 <= k <= mc.indices@.len(),
                            cell@ == (CellView {
                                geometries: move_all(
                                    cv.geometries,
                                    mc.indices@.subrange(0, k as int),
                                    mc.delta.x,
                                    mc.delta.y,
                                ),
                                ..cv
                            }),
                        decreases mc.indices@.len() - k,
                    {
                        proof {
                            let pre = mc.indices@.subrange(0, k as int);
                            let post = mc.indices@.subrange(0, k + 1);
                            assert(post.drop_last() =~= pre);
                            assert(post.last() == mc.indices@[k as int]);
                        }
                        let idx: usize = mc.indices[k];
                        if idx < cell.geometries.len() {
                            let ghost gpre = cell@.geometries;
                            let g = &mut cell.geometries[idx];
                            translate_geometry(g, mc.delta.x, mc.delta.y);
                            proof {
                                assert(cell@.geometries =~= gpre.update(
                                    idx as int,
                                    translate_view(gpre[idx as int], mc.delta.x, mc.delta.y),
                                ));
                            }
                        }
                        k = k + 1;
                    }
                    proof {
                        assert(mc.indices@.subrange(0, mc.indices@.len() as int) =~= mc.indices@);
                    }
                    cell.modified = true;
                    proof {
                        assert(cells_view(cells@) =~= s0.update(
                            i as int,
                            CellView {
                                geometries: move_all(
                                    cv.geometries,
                                    mc.indices@,
                                    mc.delta.x,
                                    mc.delta.y,
                                ),
                                modified: true,
                                ..cv
                            },
                        ));
                    }
                },
            }
        },
    }
}

/// Runs a command's inverse action against the cell store.
pub fn apply_undo(cmd: &mut Command, cells: &mut Vec<Cell>)
    ensures
        cells_view(final(cells)@) == step_undo(cells_view(old(cells)@), old(cmd)@).0,
        final(cmd)@ == step_undo(cells_view(old(cells)@), old(cmd)@).1,
{
    let ghost s0 = cells_view(cells@);
    match cmd {
        Command::AddGeometry(a) => {
            match a.inserted_index {
                None => {},
                Some(idx) => {
                    match find_cell_position(cells, a.cell_id) {
                        None => {},
                        Some(i) => {
                            let ghost cv = s0[i as int];
                            let cell = &mut cells[i];
                            let _ = cell.remove_geometry(idx);
                            proof {
                                if idx < cv.geometries.len() {
                                    assert(cells_view(cells@) =~= s0.update(
                                        i as int,
                                        CellView {
                                            geometries: cv.geometries.remove(idx as int),
                                            modified: true,
                                            ..cv
                                        },
                                    ));
                                } else {
                                    assert(cells_view(cells@) =~= s0);
                                }
                            }
                        },
                    }
                },
            }
        },
        Command::RemoveGeometry(rc) => {
            let taken: Option<GeomPrimitive> = match &rc.removed {
                None => None,
                Some(g0) => Some(g0.duplicate()),
            };
            match taken {
                None => {},
                Some(g) => {
                    match find_cell_position(cells, rc.cell_id) {
                        None => {
                            rc.removed = None;
                        },
                        Some(i) => {
                            let ghost cv = s0[i as int];
                            let ghost gv = g@;
                            let cell = &mut cells[i];
                            if rc.index <= cell.geometries.len() {
                                cell.geometries.insert(rc.index, g);
                            } else {
                                cell.geometries.push(g);
                            }
                            cell.modified = true;
                            proof {
                                let gs = if rc.index <= cv.geometries.len() {
                                    cv.geometries.insert(rc.index as int, gv)
                                } else {
                                    cv.geometries.push(gv)
                                };
                                assert(cell@.geometries =~= gs);
                                assert(cells_view(cells@) =~= s0.update(
                                    i as int,
                                    CellView { geometries: gs, modified: true, ..cv },
                                ));
                            }
                        },
                    }
                },
            }
        },
        Command::MoveGeometry(mc) => {
            match find_cell_position(cells, mc.cell_id) {
                None => {},
                Some(i) => {
                    let ghost cv = s0[i as int];
                    let cell = &mut cells[i];
                    let mut k: usize = 0;
                    while k < mc.indices.len()
                        invariant
                            0 <= k <= mc.indices@.len(),
                            cell@ == (CellView {
                                geometries: unmove_all(
                                    cv.geometries,
                                    mc.indices@.subrange(0, k as int),
                                    mc.delta.x,
                                    mc.delta.y,
                                ),
                                ..cv
                            }),
                        decreases mc.indices@.len() - k,
                    {
                        proof {
                            let pre = mc.indices@.subrange(0, k as int);
                            let post = mc.indices@.subrange(0, k + 1);
                            assert(post.drop_last() =~= pre);
                            assert(post.last() == mc.indices@[k as int]);
                        }
                        let idx: usize = mc.indices[k];
                        if idx < cell.geometries.len() {
                            let ghost gpre = cell@.geometries;
                            let u = untranslated(&cell.geometries[idx], mc.delta.x, mc.delta.y);
                            let g = &mut cell.geometries[idx];
                            *g = u;
                            proof {
                                assert(cell@.geometries =~= gpre.update(
                                    idx as int,
                                    untranslate_view(gpre[idx as int], mc.delta.x, mc.delta.y),
                                ));
                            }
                        }
                        k = k + 1;
                    }
                    proof {
                        assert(mc.indices@.subrange(0, mc.indices@.len() as int) =~= mc.indices@);
                    }
                    cell.modified = true;
                    proof {
                        assert(cells_view(cells@) =~= s0.update(
                            i as int,
                            CellView {
                                geometries: unmove_all(
                                    cv.geometries,
                                    mc.indices@,
                                    mc.delta.x,
                                    mc.delta.y,
                                ),
                                modified: true,
                                ..cv
                            },
                        ));
                    }
                },
            }
        },
    }
}

/// The description shown for a command in the undo/redo history.
pub open spec fn cmd_description(c: CmdView) -> Seq<char> {
    match c {
        CmdView::Add { .. } => "Add geometry"@,
        CmdView::Remove { .. } => "Remove geometry"@,
        CmdView::Move { .. } => "Move geometry"@,
    }
}

impl Command {
    /// A human-readable description for the undo/redo history.
    pub fn description(&self) -> (r: &str)
        ensures
            r@ == cmd_description(self@),
    {
        match self {
            Command::AddGeometry(_) => "Add geometry",
            Command::RemoveGeometry(_) => "Remove geometry",
            Command::MoveGeometry(_) => "Move geometry",
        }
    }
}

/// The mathematical value of a [`CommandHistory`]: the two stacks, most
/// recent entry last.
pub ghost struct HistView {
    pub undo: Seq<CmdView>,
    pub redo: Seq<CmdView>,
}

/// Manages the undo/redo history stacks.
#[derive(Debug)]
pub struct CommandHistory {
    undo_stack: Vec<Command>,
    redo_stack: Vec<Command>,
}

impl View for CommandHistory {
    type V = HistView;

    closed spec fn view(&self) -> HistView {
        HistView {
            undo: self.undo_stack@.map_values(|c: Command| c@),
            redo: self.redo_stack@.map_values(|c: Command| c@),
        }
    }
}

impl Default for CommandHistory {
    /// An empty history.
    fn default() -> (r: Self)
        ensures
            r@.undo == Seq::<CmdView>::empty(),
            r@.redo == Seq::<CmdView>::empty(),
    {
        Self::new()
    }
}

impl CommandHistory {
    pub fn new() -> (r: Self)
        ensures
            r@.undo == Seq::<CmdView>::empty(),
            r@.redo == Seq::<CmdView>::empty(),
    {
        let r = Self { undo_stack: Vec::new(), redo_stack: Vec::new() };
        proof {
            assert(r@.undo =~= Seq::<CmdView>::empty());
            assert(r@.redo =~= Seq::<CmdView>::empty());
        }
        r
    }

    /// Runs the command forward, pushes it onto the undo stack, and discards
    /// any redoable future.
    pub fn execute(&mut self, command: Command, cells: &mut Vec<Cell>)
        ensures
            cells_view(final(cells)@) == step_exec(cells_view(old(cells)@), command@).0,
            final(self)@.undo == old(self)@.undo.push(
                step_exec(cells_view(old(cells)@), command@).1,
            ),
            final(self)@.redo == Seq::<CmdView>::empty(),
    {
        let mut c = command;
        apply_execute(&mut c, cells);
        self.undo_stack.push(c);
        self.redo_stack.clear();
        proof {
            assert(self@.undo =~= old(self)@.undo.push(self.undo_stack@.last()@));
            assert(self@.redo =~= Seq::<CmdView>::empty());
        }
    }

    /// Pops the most recent command, runs its inverse, and moves it to the
    /// redo stack; with an empty undo stack nothing happens and the call
    /// reports failure.
    pub fn undo(&mut self, cells: &mut Vec<Cell>) -> (r: bool)
        ensures
            r <==> old(self)@.undo.len() > 0,
            !r ==> final(self)@ == old(self)@ && final(cells)@ == old(cells)@,
            r ==> ({
                let c = old(self)@.undo.last();
                let step = step_undo(cells_view(old(cells)@), c);
                &&& cells_view(final(cells)@) == step.0
                &&& final(self)@.undo == old(self)@.undo.drop_last()
                &&& final(self)@.redo == old(self)@.redo.push(step.1)
            }),
    {
        match self.undo_stack.pop() {
            None => {
                proof {
                    assert(old(self)@.undo.len() == 0);
                }
                false
            },
            Some(mut c) => {
                proof {
                    assert(c@ == old(self)@.undo.last());
                    assert(self@.undo =~= old(self)@.undo.drop_last());
                }
                apply_undo(&mut c, cells);
                self.redo_stack.push(c);
                proof {
                    assert(self@.redo =~= old(self)@.redo.push(self.redo_stack@.last()@));
                }
                true
            },
        }
    }

    /// Pops the most recent undone command, runs it forward again, and moves
    /// it back to the undo stack; with an empty redo stack nothing happens
    /// and the call reports failure.
    pub fn redo(&mut self, cells: &mut Vec<Cell>) -> (r: bool)
        ensures
            r <==> old(self)@.redo.len() > 0,
            !r ==> final(self)@ == old(self)@ && final(cells)@ == old(cells)@,
            r ==> ({
                let c = old(self)@.redo.last();
                let step = step_exec(cells_view(old(cells)@), c);
                &&& cells_view(final(cells)@) == step.0
                &&& final(self)@.redo == old(self)@.redo.drop_last()
                &&& final(self)@.undo == old(self)@.undo.push(step.1)
            }),
    {
        match self.redo_stack.pop() {
            None => {
                proof {
                    assert(old(self)@.redo.len() == 0);
                }
                false
            },
            Some(mut c) => {
                proof {
                    assert(c@ == old(self)@.redo.last());
                    assert(self@.redo =~= old(self)@.redo.drop_last());
                }
                apply_execute(&mut c, cells);
                self.undo_stack.push(c);
                proof {
                    assert(self@.undo =~= old(self)@.undo.push(self.undo_stack@.last()@));
                }
                true
            },
        }
    }

    pub fn can_undo(&self) -> (r: bool)
        ensures
            r <==> self@.undo.len() > 0,
    {
        self.undo_stack.len() > 0
    }

    pub fn can_redo(&self) -> (r: bool)
        ensures
            r <==> self@.redo.len() > 0,
    {
        self.redo_stack.len() > 0
    }

    /// The description of the command an `undo` call would revert.
    pub fn undo_description(&self) -> (r: Option<&str>)
        ensures
            match r {
                None => self@.undo.len() == 0,
                Some(d) => self@.undo.len() > 0 && d@ == cmd_description(self@.undo.last()),
            },
    {
        if self.undo_stack.len() > 0 {
            Some(self.undo_stack[self.undo_stack.len() - 1].description())
        } else {
            None
        }
    }

    /// The description of the command a `redo` call would replay.
    pub fn redo_description(&self) -> (r: Option<&str>)
        ensures
            match r {
                None => self@.redo.len() == 0,
                Some(d) => self@.redo.len() > 0 && d@ == cmd_description(self@.redo.last()),
            },
    {
        if self.redo_stack.len() > 0 {
            Some(self.redo_stack[self.redo_stack.len() - 1].description())
        } else {
            None
        }
    }

    /// Empties both stacks.
    pub fn clear(&mut self)
        ensures
            final(self)@.undo == Seq::<CmdView>::empty(),
            final(self)@.redo == Seq::<CmdView>::empty(),
    {
        self.undo_stack.clear();
        self.redo_stack.clear();
        proof {
            assert(self@.undo =~= Seq::<CmdView>::empty());
            assert(self@.redo =~= Seq::<CmdView>::empty());
        }
    }
}

// ───────────────────────── journal symmetry ─────────────────────────
//
// The persisted content of a cell is everything except its dirty flag,
// which executing and undoing both set. The lemmas below show that the
// journal is symmetric over that content: undoing what was executed
// restores it, for one command and for any sequence.

/// Equality of every persisted cell field; the dirty flag is excluded,
/// since executing a command and undoing it both mark the cell.
pub open spec fn cell_content_eq(a: CellView, b: CellView) -> bool {
    &&& a.id == b.id
    &&& a.name == b.name
    &&& a.geometries == b.geometries
    &&& a.instances == b.instances
    &&& a.pins == b.pins
}

/// Content equality of two cell stores.
pub open spec fn content_eq(a: Seq<CellView>, b: Seq<CellView>) -> bool {
    a.len() == b.len() && forall|i: int| 0 <= i < a.len() ==> cell_content_eq(#[trigger] a[i], b[i])
}

/// Cell lookup sees only ids, which content equality preserves.
proof fn lemma_find_same_ids(a: Seq<CellView>, b: Seq<CellView>, id: CellId, k: int)
    requires
        a.len() == b.len(),
        forall|i: int| 0 <= i < a.len() ==> (#[trigger] a[i]).id == b[i].id,
    ensures
        find_idx_from(a, id, k) == find_idx_from(b, id, k),
    decreases a.len() - k,
{
    if 0 <= k < a.len() {
        lemma_find_same_ids(a, b, id, k + 1);
    }
}

/// Lookup lands on a cell with the looked-up id.
proof fn lemma_find_hits(s: Seq<CellView>, id: CellId, k: int)
    ensures
        find_idx_from(s, id, k) >= 0 ==> {
            let i = find_idx_from(s, id, k);
            0 <= i < s.len() && s[i].id == id
        },
    decreases s.len() - k,
{
    if 0 <= k < s.len() && s[k].id != id {
        lemma_find_hits(s, id, k + 1);
    }
}

/// Translating a point back after translating it forward restores it, and
/// the other way round.
proof fn lemma_pt_cancel(p: Point, dx: i64, dy: i64)
    ensures
        untranslate_pt(translate_pt(p, dx, dy), dx, dy) == p,
        translate_pt(untranslate_pt(p, dx, dy), dx, dy) == p,
{
}

/// Translating a primitive back after translating it forward restores it,
/// and the other way round.
proof fn lemma_geom_cancel(g: GeomView, dx: i64, dy: i64)
    ensures
        untranslate_view(translate_view(g, dx, dy), dx, dy) == g,
        translate_view(untranslate_view(g, dx, dy), dx, dy) == g,
{
    match g {
        GeomView::Rect { layer_id, lower_left, upper_right } => {
            lemma_pt_cancel(lower_left, dx, dy);
            lemma_pt_cancel(upper_right, dx, dy);
        },
        GeomView::Polygon { layer_id, vertices } => {
            assert forall|i: int| 0 <= i < vertices.len() implies untranslate_pt(
                translate_pt(#[trigger] vertices[i], dx, dy),
                dx,
                dy,
            ) == vertices[i] && translate_pt(
                untranslate_pt(vertices[i], dx, dy),
                dx,
                dy,
            ) == vertices[i] by {
                lemma_pt_cancel(vertices[i], dx, dy);
            }
            assert(vertices.map_values(|p: Point| translate_pt(p, dx, dy)).map_values(
                |p: Point| untranslate_pt(p, dx, dy),
            ) =~= vertices);
            assert(vertices.map_values(|p: Point| untranslate_pt(p, dx, dy)).map_values(
                |p: Point| translate_pt(p, dx, dy),
            ) =~= vertices);
        },
        GeomView::Path { layer_id, points, width } => {
            assert forall|i: int| 0 <= i < points.len() implies untranslate_pt(
                translate_pt(#[trigger] points[i], dx, dy),
                dx,
                dy,
            ) == points[i] && translate_pt(
                untranslate_pt(points[i], dx, dy),
                dx,
                dy,
            ) == points[i] by {
                lemma_pt_cancel(points[i], dx, dy);
            }
            assert(points.map_values(|p: Point| translate_pt(p, dx, dy)).map_values(
                |p: Point| untranslate_pt(p, dx, dy),
            ) =~= points);
            assert(points.map_values(|p: Point| untranslate_pt(p, dx, dy)).map_values(
                |p: Point| translate_pt(p, dx, dy),
            ) =~= points);
        },
        GeomView::Via { position, .. } => {
            lemma_pt_cancel(position, dx, dy);
        },
    }
}

/// Both move passes keep the sequence length.
proof fn lemma_move_all_len(gs: Seq<GeomView>, ind: Seq<usize>, dx: i64, dy: i64)
    ensures
        move_all(gs, ind, dx, dy).len() == gs.len(),
        unmove_all(gs, ind, dx, dy).len() == gs.len(),
    decreases ind.len(),
{
    if ind.len() > 0 {
        lemma_move_all_len(gs, ind.drop_last(), dx, dy);
    }
}

/// The backward pass slides over a single forward update.
proof fn lemma_unmove_commutes(gs: Seq<GeomView>, ind: Seq<usize>, j: int, dx: i64, dy: i64)
    requires
        0 <= j < gs.len(),
    ensures
        unmove_all(gs.update(j, translate_view(gs[j], dx, dy)), ind, dx, dy) == unmove_all(
            gs,
            ind,
            dx,
            dy,
        ).update(j, translate_view(unmove_all(gs, ind, dx, dy)[j], dx, dy)),
    decreases ind.len(),
{
    lemma_move_all_len(gs, ind, dx, dy);
    if ind.len() == 0 {
    } else {
        let ind0 = ind.drop_last();
        lemma_unmove_commutes(gs, ind0, j, dx, dy);
        lemma_move_all_len(gs, ind0, dx, dy);
        let y = unmove_all(gs, ind0, dx, dy);
        let k = ind.last() as int;
        let lhs_prev = unmove_all(gs.update(j, translate_view(gs[j], dx, dy)), ind0, dx, dy);
        assert(lhs_prev == y.update(j, translate_view(y[j], dx, dy)));
        lemma_move_all_len(gs.update(j, translate_view(gs[j], dx, dy)), ind0, dx, dy);
        if k < y.len() {
            if k == j {
                lemma_geom_cancel(y[j], dx, dy);
                lemma_geom_cancel(untranslate_view(y[j], dx, dy), dx, dy);
                assert(lhs_prev.update(k, untranslate_view(lhs_prev[k], dx, dy)) =~= y.update(
                    k,
                    untranslate_view(y[k], dx, dy),
                ).update(j, translate_view(y.update(k, untranslate_view(y[k], dx, dy))[j], dx, dy)));
            } else {
                assert(lhs_prev.update(k, untranslate_view(lhs_prev[k], dx, dy)) =~= y.update(
                    k,
                    untranslate_view(y[k], dx, dy),
                ).update(j, translate_view(y.update(k, untranslate_view(y[k], dx, dy))[j], dx, dy)));
            }
        }
    }
}

/// The forward pass slides over a single backward update.
proof fn lemma_move_commutes(gs: Seq<GeomView>, ind: Seq<usize>, j: int, dx: i64, dy: i64)
    requires
        0 <= j < gs.len(),
    ensures
        move_all(gs.update(j, untranslate_view(gs[j], dx, dy)), ind, dx, dy) == move_all(
            gs,
            ind,
            dx,
            dy,
        ).update(j, untranslate_view(move_all(gs, ind, dx, dy)[j], dx, dy)),
    decreases ind.len(),
{
    lemma_move_all_len(gs, ind, dx, dy);
    if ind.len() == 0 {
    } else {
        let ind0 = ind.drop_last();
        lemma_move_commutes(gs, ind0, j, dx, dy);
        lemma_move_all_len(gs, ind0, dx, dy);
        let y = move_all(gs, ind0, dx, dy);
        let k = ind.last() as int;
        let lhs_prev = move_all(gs.update(j, untranslate_view(gs[j], dx, dy)), ind0, dx, dy);
        assert(lhs_prev == y.update(j, untranslate_view(y[j], dx, dy)));
        lemma_move_all_len(gs.update(j, untranslate_view(gs[j], dx, dy)), ind0, dx, dy);
        if k < y.len() {
            if k == j {
                lemma_geom_cancel(y[j], dx, dy);
                lemma_geom_cancel(translate_view(y[j], dx, dy), dx, dy);
                assert(lhs_prev.update(k, translate_view(lhs_prev[k], dx, dy)) =~= y.update(
                    k,
                    translate_view(y[k], dx, dy),
                ).update(j, untranslate_view(y.update(k, translate_view(y[k], dx, dy))[j], dx, dy)));
            } else {
                assert(lhs_prev.update(k, translate_view(lhs_prev[k], dx, dy)) =~= y.update(
                    k,
                    translate_view(y[k], dx, dy),
                ).update(j, untranslate_view(y.update(k, translate_view(y[k], dx, dy))[j], dx, dy)));
            }
        }
    }
}

/// Moving back over the same index list restores every primitive, and the
/// other way round.
proof fn lemma_move_cancel(gs: Seq<GeomView>, ind: Seq<usize>, dx: i64, dy: i64)
    ensures
        unmove_all(move_all(gs, ind, dx, dy), ind, dx, dy) == gs,
        move_all(unmove_all(gs, ind, dx, dy), ind, dx, dy) == gs,
    decreases ind.len(),
{
    if ind.len() == 0 {
    } else {
        let ind0 = ind.drop_last();
        let k = ind.last() as int;
        lemma_move_cancel(gs, ind0, dx, dy);
        lemma_move_all_len(gs, ind0, dx, dy);
        let m0 = move_all(gs, ind0, dx, dy);
        let u0 = unmove_all(gs, ind0, dx, dy);
        if k < gs.len() {
            // Forward pass, then back: peel the final forward update off.
            assert(move_all(gs, ind, dx, dy) == m0.update(k, translate_view(m0[k], dx, dy)));
            lemma_unmove_commutes(m0, ind0, k, dx, dy);
            assert(unmove_all(move_all(gs, ind, dx, dy), ind0, dx, dy) == gs.update(
                k,
                translate_view(gs[k], dx, dy),
            ));
            lemma_move_all_len(move_all(gs, ind, dx, dy), ind0, dx, dy);
            lemma_move_all_len(gs, ind, dx, dy);
            lemma_geom_cancel(gs[k], dx, dy);
            assert(unmove_all(move_all(gs, ind, dx, dy), ind, dx, dy) =~= gs);
            // Backward pass, then forward: symmetric.
            assert(unmove_all(gs, ind, dx, dy) == u0.update(k, untranslate_view(u0[k], dx, dy)));
            lemma_move_commutes(u0, ind0, k, dx, dy);
            assert(move_all(unmove_all(gs, ind, dx, dy), ind0, dx, dy) == gs.update(
                k,
                untranslate_view(gs[k], dx, dy),
            ));
            lemma_move_all_len(unmove_all(gs, ind, dx, dy), ind0, dx, dy);
            assert(move_all(unmove_all(gs, ind, dx, dy), ind, dx, dy) =~= gs);
        } else {
            assert(move_all(gs, ind, dx, dy) == m0);
            assert(unmove_all(gs, ind, dx, dy) == u0);
            lemma_move_all_len(m0, ind0, dx, dy);
            lemma_move_all_len(u0, ind0, dx, dy);
        }
    }
}

/// Undoing a command right after executing it restores every cell's
/// content.
pub proof fn lemma_undo_inverts(s: Seq<CellView>, c: CmdView)
    ensures
        content_eq(step_undo(step_exec(s, c).0, step_exec(s, c).1).0, s),
{
    let (s1, c1) = step_exec(s, c);
    match c {
        CmdView::Add { cell_id, geometry, inserted_index } => {
            let i = find_cell_idx(s, cell_id);
            lemma_find_hits(s, cell_id, 0);
            if i >= 0 {
                let cv = s[i];
                lemma_find_same_ids(s1, s, cell_id, 0);
                assert(cv.geometries.push(geometry).remove(cv.geometries.len() as int)
                    =~= cv.geometries);
            }
        },
        CmdView::Remove { cell_id, index, removed } => {
            let i = find_cell_idx(s, cell_id);
            lemma_find_hits(s, cell_id, 0);
            if i >= 0 {
                let cv = s[i];
                if 0 <= index < cv.geometries.len() {
                    lemma_find_same_ids(s1, s, cell_id, 0);
                    assert(cv.geometries.remove(index).insert(index, cv.geometries[index])
                        =~= cv.geometries);
                }
            }
        },
        CmdView::Move { cell_id, indices, delta } => {
            let i = find_cell_idx(s, cell_id);
            lemma_find_hits(s, cell_id, 0);
            if i >= 0 {
                let cv = s[i];
                lemma_find_same_ids(s1, s, cell_id, 0);
                lemma_move_cancel(cv.geometries, indices, delta.x, delta.y);
            }
        },
    }
}

/// The shape a command has when it comes out of its constructor, before
/// anything was captured.
pub open spec fn cmd_fresh(c: CmdView) -> bool {
    match c {
        CmdView::Add { .. } => true,
        CmdView::Remove { removed, .. } => removed is None,
        CmdView::Move { .. } => true,
    }
}

/// Executing again right after undoing restores every cell's content to
/// the executed state, and recaptures the same command.
pub proof fn lemma_redo_restores(s: Seq<CellView>, c: CmdView)
    requires
        cmd_fresh(c),
    ensures
        ({
            let (s1, c1) = step_exec(s, c);
            let (s0, c0) = step_undo(s1, c1);
            content_eq(step_exec(s0, c0).0, s1) && step_exec(s0, c0).1 == c1
        }),
{
    let (s1, c1) = step_exec(s, c);
    let (s0, c0) = step_undo(s1, c1);
    lemma_undo_inverts(s, c);
    match c {
        CmdView::Add { cell_id, geometry, inserted_index } => {
            let i = find_cell_idx(s, cell_id);
            lemma_find_hits(s, cell_id, 0);
            if i >= 0 {
                let cv = s[i];
                lemma_find_same_ids(s1, s, cell_id, 0);
                lemma_find_same_ids(s0, s, cell_id, 0);
                assert(s0[i].geometries == cv.geometries);
                assert(step_exec(s0, c0).0 =~= s1.update(
                    i,
                    CellView {
                        geometries: cv.geometries.push(geometry),
                        modified: true,
                        ..s0[i]
                    },
                ));
            }
        },
        CmdView::Remove { cell_id, index, removed } => {
            let i = find_cell_idx(s, cell_id);
            lemma_find_hits(s, cell_id, 0);
            if i < 0 {
                if c1 is Remove && c1->removed is Some {
                    lemma_find_same_ids(s1, s, cell_id, 0);
                }
            } else {
                let cv = s[i];
                if 0 <= index < cv.geometries.len() {
                    lemma_find_same_ids(s1, s, cell_id, 0);
                    lemma_find_same_ids(s0, s, cell_id, 0);
                    assert(s0[i].geometries == cv.geometries);
                } else {
                    lemma_find_same_ids(s1, s, cell_id, 0);
                }
            }
        },
        CmdView::Move { cell_id, indices, delta } => {
            let i = find_cell_idx(s, cell_id);
            lemma_find_hits(s, cell_id, 0);
            if i >= 0 {
                let cv = s[i];
                lemma_find_same_ids(s1, s, cell_id, 0);
                lemma_find_same_ids(s0, s, cell_id, 0);
                assert(s0[i].geometries == unmove_all(
                    move_all(cv.geometries, indices, delta.x, delta.y),
                    indices,
                    delta.x,
                    delta.y,
                ));
                lemma_move_cancel(cv.geometries, indices, delta.x, delta.y);
                lemma_move_cancel(s0[i].geometries, indices, delta.x, delta.y);
            }
        },
    }
}

/// Content equality is reflexive and transitive.
pub proof fn lemma_content_eq_refl(a: Seq<CellView>)
    ensures
        content_eq(a, a),
{
}

/// Transitivity of store content equality.
pub proof fn lemma_content_eq_trans(a: Seq<CellView>, b: Seq<CellView>, c: Seq<CellView>)
    requires
        content_eq(a, b),
        content_eq(b, c),
    ensures
        content_eq(a, c),
{
}

/// Both step functions read only cell content, never the dirty flags, so
/// content-equal stores step to content-equal stores with equal captures.
pub proof fn lemma_step_congruent(a: Seq<CellView>, b: Seq<CellView>, c: CmdView)
    requires
        content_eq(a, b),
    ensures
        content_eq(step_exec(a, c).0, step_exec(b, c).0),
        step_exec(a, c).1 == step_exec(b, c).1,
        content_eq(step_undo(a, c).0, step_undo(b, c).0),
        step_undo(a, c).1 == step_undo(b, c).1,
{
    let id = match c {
        CmdView::Add { cell_id, .. } => cell_id,
        CmdView::Remove { cell_id, .. } => cell_id,
        CmdView::Move { cell_id, .. } => cell_id,
    };
    lemma_find_same_ids(a, b, id, 0);
    lemma_find_hits(a, id, 0);
    let i = find_cell_idx(a, id);
    if i >= 0 {
        assert(cell_content_eq(a[i], b[i]));
    }
}

/// Executing a command sequence in order: the final store and the executed
/// commands, captures included, oldest first.
pub open spec fn exec_all(s: Seq<CellView>, cs: Seq<CmdView>) -> (Seq<CellView>, Seq<CmdView>)
    decreases cs.len(),
{
    if cs.len() == 0 {
        (s, Seq::<CmdView>::empty())
    } else {
        let p = exec_all(s, cs.drop_last());
        let st = step_exec(p.0, cs.last());
        (st.0, p.1.push(st.1))
    }
}

/// Undoing every command of a stack, newest first.
pub open spec fn undo_all(s: Seq<CellView>, stack: Seq<CmdView>) -> Seq<CellView>
    decreases stack.len(),
{
    if stack.len() == 0 {
        s
    } else {
        undo_all(step_undo(s, stack.last()).0, stack.drop_last())
    }
}

/// Undoing a whole stack is congruent in the store.
proof fn lemma_undo_all_congruent(a: Seq<CellView>, b: Seq<CellView>, stack: Seq<CmdView>)
    requires
        content_eq(a, b),
    ensures
        content_eq(undo_all(a, stack), undo_all(b, stack)),
    decreases stack.len(),
{
    if stack.len() > 0 {
        lemma_step_congruent(a, b, stack.last());
        lemma_undo_all_congruent(
            step_undo(a, stack.last()).0,
            step_undo(b, stack.last()).0,
            stack.drop_last(),
        );
    }
}

/// Content equality is symmetric.
pub proof fn lemma_content_eq_symm(a: Seq<CellView>, b: Seq<CellView>)
    requires
        content_eq(a, b),
    ensures
        content_eq(b, a),
{
}

/// One undo step on a journal configuration: the cell store, the undo
/// stack and the redo stack. An empty undo stack leaves everything as is.
pub open spec fn hist_undo(t: (Seq<CellView>, Seq<CmdView>, Seq<CmdView>)) -> (
    Seq<CellView>,
    Seq<CmdView>,
    Seq<CmdView>,
) {
    if t.1.len() == 0 {
        t
    } else {
        let st = step_undo(t.0, t.1.last());
        (st.0, t.1.drop_last(), t.2.push(st.1))
    }
}

/// One redo step on a journal configuration.
pub open spec fn hist_redo(t: (Seq<CellView>, Seq<CmdView>, Seq<CmdView>)) -> (
    Seq<CellView>,
    Seq<CmdView>,
    Seq<CmdView>,
) {
    if t.2.len() == 0 {
        t
    } else {
        let st = step_exec(t.0, t.2.last());
        (st.0, t.1.push(st.1), t.2.drop_last())
    }
}

/// `k` undo steps.
pub open spec fn iter_undo(t: (Seq<CellView>, Seq<CmdView>, Seq<CmdView>), k: int) -> (
    Seq<CellView>,
    Seq<CmdView>,
    Seq<CmdView>,
)
    decreases k,
{
    if k <= 0 {
        t
    } else {
        iter_undo(hist_undo(t), k - 1)
    }
}

/// `k` redo steps.
pub open spec fn iter_redo(t: (Seq<CellView>, Seq<CmdView>, Seq<CmdView>), k: int) -> (
    Seq<CellView>,
    Seq<CmdView>,
    Seq<CmdView>,
)
    decreases k,
{
    if k <= 0 {
        t
    } else {
        iter_redo(hist_redo(t), k - 1)
    }
}

/// Iterated redo peels from either end.
proof fn lemma_iter_redo_last(t: (Seq<CellView>, Seq<CmdView>, Seq<CmdView>), k: int)
    requires
        k >= 1,
    ensures
        iter_redo(t, k) == hist_redo(iter_redo(t, k - 1)),
    decreases k,
{
    reveal_with_fuel(iter_redo, 3);
    if k > 1 {
        lemma_iter_redo_last(hist_redo(t), k - 1);
    }
}

/// Executing a sequence leaves one captured command per input command.
proof fn lemma_exec_all_len(s: Seq<CellView>, cs: Seq<CmdView>)
    ensures
        exec_all(s, cs).1.len() == cs.len(),
    decreases cs.len(),
{
    if cs.len() > 0 {
        lemma_exec_all_len(s, cs.drop_last());
    }
}

/// Undoing `k` commands of an executed sequence and redoing all `k`
/// restores both the store's content and the captured undo stack, and
/// leaves the redo stack as found. Generalised over a content-equal start
/// and an arbitrary pre-existing redo stack, so the induction closes.
proof fn lemma_undo_redo_general(
    s: Seq<CellView>,
    cs: Seq<CmdView>,
    k: int,
    st0: Seq<CellView>,
    red0: Seq<CmdView>,
)
    requires
        0 <= k <= cs.len(),
        forall|i: int| 0 <= i < cs.len() ==> cmd_fresh(#[trigger] cs[i]),
        content_eq(st0, exec_all(s, cs).0),
    ensures
        ({
            let t = iter_undo((st0, exec_all(s, cs).1, red0), k);
            let r = iter_redo(t, k);
            &&& content_eq(r.0, st0)
            &&& r.1 == exec_all(s, cs).1
            &&& r.2 == red0
        }),
    decreases k,
{
    let done = exec_all(s, cs).1;
    lemma_exec_all_len(s, cs);
    if k == 0 {
        lemma_content_eq_refl(st0);
    } else {
        let p = exec_all(s, cs.drop_last());
        let c1 = step_exec(p.0, cs.last()).1;
        let s_n = step_exec(p.0, cs.last()).0;
        assert(done == p.1.push(c1));
        assert(done.last() == c1);
        assert(done.drop_last() =~= p.1);
        // The first undo lands on a store content-equal to the state one
        // command earlier, carrying the same captured command either way.
        let st = step_undo(st0, c1);
        lemma_step_congruent(st0, s_n, c1);
        let star = step_undo(s_n, c1);
        lemma_undo_inverts(p.0, cs.last());
        lemma_content_eq_trans(st.0, star.0, p.0);
        assert(hist_undo((st0, done, red0)) == (st.0, p.1, red0.push(st.1)));
        assert(iter_undo((st0, done, red0), k) == iter_undo((st.0, p.1, red0.push(st.1)), k - 1));
        assert(forall|i: int| 0 <= i < cs.drop_last().len() ==> cmd_fresh(
            #[trigger] cs.drop_last()[i],
        ));
        lemma_undo_redo_general(s, cs.drop_last(), k - 1, st.0, red0.push(st.1));
        let t = iter_undo((st.0, p.1, red0.push(st.1)), k - 1);
        let w = iter_redo(t, k - 1);
        assert(content_eq(w.0, st.0) && w.1 == p.1 && w.2 == red0.push(st.1));
        lemma_iter_redo_last(t, k);
        // The final redo re-executes the recaptured command and restores
        // the executed state.
        assert(w.2.last() == st.1);
        assert(st.1 == star.1);
        lemma_redo_restores(p.0, cs.last());
        assert(content_eq(step_exec(star.0, star.1).0, s_n));
        assert(step_exec(star.0, star.1).1 == c1);
        lemma_content_eq_trans(w.0, st.0, star.0);
        lemma_step_congruent(w.0, star.0, star.1);
        assert(content_eq(step_exec(w.0, st.1).0, step_exec(star.0, star.1).0));
        lemma_content_eq_trans(step_exec(w.0, st.1).0, step_exec(star.0, star.1).0, s_n);
        lemma_content_eq_symm(st0, s_n);
        lemma_content_eq_trans(step_exec(w.0, st.1).0, s_n, st0);
        assert(hist_redo(w).0 == step_exec(w.0, st.1).0);
        assert(hist_redo(w).1 =~= done);
        assert(hist_redo(w).2 =~= red0);
    }
}

/// Undo/redo symmetry, second half: after executing any sequence of
/// freshly built commands, undoing the last `k` and then redoing `k` times
/// restores every cell's content to the state after the whole sequence,
/// returns the recaptured commands to the undo stack, and leaves the redo
/// stack empty again.
pub proof fn lemma_undo_k_then_redo_k(s: Seq<CellView>, cs: Seq<CmdView>, k: int)
    requires
        0 <= k <= cs.len(),
        forall|i: int| 0 <= i < cs.len() ==> cmd_fresh(#[trigger] cs[i]),
    ensures
        ({
            let e = exec_all(s, cs);
            let t = iter_undo((e.0, e.1, Seq::<CmdView>::empty()), k);
            let r = iter_redo(t, k);
            &&& content_eq(r.0, e.0)
            &&& r.1 == e.1
            &&& r.2 == Seq::<CmdView>::empty()
        }),
{
    lemma_content_eq_refl(exec_all(s, cs).0);
    lemma_undo_redo_general(s, cs, k, exec_all(s, cs).0, Seq::<CmdView>::empty());
}

/// Undo/redo symmetry, first half: executing any sequence of commands and
/// then undoing them all restores every cell's content — ids, names,
/// geometry, instances and pins — leaving at most dirty flags set.
pub proof fn lemma_execute_all_then_undo_all(s: Seq<CellView>, cs: Seq<CmdView>)
    ensures
        content_eq(undo_all(exec_all(s, cs).0, exec_all(s, cs).1), s),
    decreases cs.len(),
{
    if cs.len() == 0 {
        lemma_content_eq_refl(s);
    } else {
        let p = exec_all(s, cs.drop_last());
        let st = step_exec(p.0, cs.last());
        assert(p.1.push(st.1).drop_last() =~= p.1);
        assert(p.1.push(st.1).last() == st.1);
        lemma_undo_inverts(p.0, cs.last());
        lemma_undo_all_congruent(step_undo(st.0, st.1).0, p.0, p.1);
        lemma_execute_all_then_undo_all(s, cs.drop_last());
        lemma_content_eq_trans(
            undo_all(step_undo(st.0, st.1).0, p.1),
            undo_all(p.0, p.1),
            s,
        );
    }
}

} // verus!
