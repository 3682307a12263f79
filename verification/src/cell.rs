//! Cell model: placement transforms, subcell instances, pins, and the cell
//! itself — a named container of geometry, instances and pins with a dirty
//! flag that every mutation sets.

use vstd::prelude::*;

verus! {

use crate::{CellId, LayerId, fresh_id};
use crate::geometry::{
    BBox,
    GeomPrimitive,
    GeomView,
    Point,
    spec_geom_bbox,
    union_box,
    view_layer_id,
};
use crate::real8::Real8;

/// A transformation for placing subcell instances: scale, then mirror about
/// the X axis, then rotate, then translate. Rotation (degrees) and scale are
/// kept in the exchange format's excess-64 real representation, so that a
/// placement read from a stream is written back bit for bit.
#[derive(Debug, Clone, Copy, PartialEq, Eq, Structural)]
pub struct Transform {
    /// Translation offset.
    pub offset: Point,
    /// Rotation in degrees, counterclockwise.
    pub rotation: Real8,
    /// Mirror about the X axis before rotating.
    pub mirror_x: bool,
    /// Uniform scale factor (typically one).
    pub scale: Real8,
}

impl Default for Transform {
    /// The identity placement.
    fn default() -> (r: Self)
        ensures
            r == Transform::identity(),
    {
        Self {
            offset: Point { x: 0, y: 0 },
            rotation: Real8 { neg: false, exp: 0, mant: 0 },
            mirror_x: false,
            scale: Real8 { neg: false, exp: 65, mant: 0x10_0000_0000_0000 },
        }
    }
}

impl Transform {
    /// The identity placement: no offset, no rotation, no mirror, scale one.
    pub open spec fn identity() -> Transform {
        Transform {
            offset: Point { x: 0, y: 0 },
            rotation: Real8 { neg: false, exp: 0, mant: 0 },
            mirror_x: false,
            scale: Real8 { neg: false, exp: 65, mant: 0x10_0000_0000_0000 },
        }
    }

    /// A pure translation.
    pub fn translate(x: i64, y: i64) -> (r: Self)
        ensures
            r == (Transform { offset: Point { x, y }, ..Transform::identity() }),
    {
        Self { offset: Point { x, y }, ..Default::default() }
    }
}

/// A reference to a subcell placed within a parent cell.
#[derive(Debug, Clone)]
pub struct CellInstance {
    pub id: u128,
    pub cell_id: CellId,
    pub instance_name: String,
    pub transform: Transform,
}

/// The mathematical value of a [`CellInstance`].
pub ghost struct InstView {
    pub id: u128,
    pub cell_id: CellId,
    pub instance_name: Seq<char>,
    pub transform: Transform,
}

impl View for CellInstance {
    type V = InstView;

    open spec fn view(&self) -> InstView {
        InstView {
            id: self.id,
            cell_id: self.cell_id,
            instance_name: self.instance_name@,
            transform: self.transform,
        }
    }
}

impl CellInstance {
    /// A new placement of the given child cell. The instance's own id is
    /// freshly generated and carries no promise.
    pub fn new(cell_id: CellId, instance_name: &str, transform: Transform) -> (r: Self)
        ensures
            r.cell_id == cell_id,
            r.instance_name@ == instance_name@,
            r.transform == transform,
    {
        Self { id: fresh_id(), cell_id, instance_name: instance_name.to_owned(), transform }
    }
}

/// The direction of a pin as seen from outside the cell.
#[derive(Debug, Clone, Copy, PartialEq, Eq, Structural)]
pub enum PinDirection {
    Input,
    Output,
    InOut,
    Power,
    Ground,
}

/// Pin / port definition on a cell.
#[derive(Debug, Clone)]
pub struct Pin {
    pub name: String,
    pub layer_id: LayerId,
    pub shape: GeomPrimitive,
    pub direction: PinDirection,
}

/// The mathematical value of a [`Pin`].
pub ghost struct PinView {
    pub name: Seq<char>,
    pub layer_id: LayerId,
    pub shape: GeomView,
    pub direction: PinDirection,
}

impl View for Pin {
    type V = PinView;

    open spec fn view(&self) -> PinView {
        PinView {
            name: self.name@,
            layer_id: self.layer_id,
            shape: self.shape@,
            direction: self.direction,
        }
    }
}

/// A layout cell containing geometric primitives and subcell references.
#[derive(Debug, Clone)]
pub struct Cell {
    pub id: CellId,
    pub name: String,
    pub geometries: Vec<GeomPrimitive>,
    pub instances: Vec<CellInstance>,
    pub pins: Vec<Pin>,
    pub modified: bool,
}

/// The mathematical value of a [`Cell`].
pub ghost struct CellView {
    pub id: CellId,
    pub name: Seq<char>,
    pub geometries: Seq<GeomView>,
    pub instances: Seq<InstView>,
    pub pins: Seq<PinView>,
    pub modified: bool,
}

impl View for Cell {
    type V = CellView;

    open spec fn view(&self) -> CellView {
        CellView {
            id: self.id,
            name: self.name@,
            geometries: self.geometries@.map_values(|g: GeomPrimitive| g@),
            instances: self.instances@.map_values(|i: CellInstance| i@),
            pins: self.pins@.map_values(|p: Pin| p@),
            modified: self.modified,
        }
    }
}

/// The bounding box of a sequence of primitives: the union of the present
/// per-primitive boxes, folded in order; absent when none has one.
pub open spec fn local_bbox_of(gs: Seq<GeomView>) -> Option<BBox>
    decreases gs.len(),
{
    if gs.len() == 0 {
        None
    } else {
        let rest = local_bbox_of(gs.drop_last());
        let last = spec_geom_bbox(gs.last());
        match rest {
            None => last,
            Some(a) => match last {
                None => Some(a),
                Some(b) => Some(union_box(a, b)),
            },
        }
    }
}

impl Cell {
    /// A new empty cell with a freshly generated id, not marked modified.
    pub fn new(name: &str) -> (r: Self)
        ensures
            r@.name == name@,
            r@.geometries == Seq::<GeomView>::empty(),
            r@.instances == Seq::<InstView>::empty(),
            r@.pins == Seq::<PinView>::empty(),
            !r@.modified,
    {
        let r = Self {
            id: fresh_id(),
            name: name.to_owned(),
            geometries: Vec::new(),
            instances: Vec::new(),
            pins: Vec::new(),
            modified: false,
        };
        proof {
            assert(r@.geometries =~= Seq::<GeomView>::empty());
            assert(r@.instances =~= Seq::<InstView>::empty());
            assert(r@.pins =~= Seq::<PinView>::empty());
        }
        r
    }

    /// Appends a primitive and marks the cell modified.
    pub fn add_geometry(&mut self, geom: GeomPrimitive)
        ensures
            final(self)@ == (CellView {
                geometries: old(self)@.geometries.push(geom@),
                modified: true,
                ..old(self)@
            }),
    {
        self.geometries.push(geom);
        self.modified = true;
        proof {
            assert(self@.geometries =~= old(self)@.geometries.push(self.geometries@.last()@));
        }
    }

    /// Removes the primitive at `index` and marks the cell modified;
    /// an out-of-range index changes nothing and returns nothing.
    pub fn remove_geometry(&mut self, index: usize) -> (r: Option<GeomPrimitive>)
        ensures
            index < old(self)@.geometries.len() ==> {
                &&& r is Some
                &&& r->Some_0@ == old(self)@.geometries[index as int]
                &&& final(self)@ == (CellView {
                    geometries: old(self)@.geometries.remove(index as int),
                    modified: true,
                    ..old(self)@
                })
            },
            index >= old(self)@.geometries.len() ==> r is None && final(self)@ == old(self)@,
    {
        if index < self.geometries.len() {
            self.modified = true;
            let g = self.geometries.remove(index);
            proof {
                assert(self@.geometries =~= old(self)@.geometries.remove(index as int));
            }
            Some(g)
        } else {
            None
        }
    }

    /// Appends a subcell placement and marks the cell modified.
    pub fn add_instance(&mut self, instance: CellInstance)
        ensures
            final(self)@ == (CellView {
                instances: old(self)@.instances.push(instance@),
                modified: true,
                ..old(self)@
            }),
    {
        self.instances.push(instance);
        self.modified = true;
        proof {
            assert(self@.instances =~= old(self)@.instances.push(self.instances@.last()@));
        }
    }

    /// Appends a pin and marks the cell modified.
    pub fn add_pin(&mut self, pin: Pin)
        ensures
            final(self)@ == (CellView {
                pins: old(self)@.pins.push(pin@),
                modified: true,
                ..old(self)@
            }),
    {
        self.pins.push(pin);
        self.modified = true;
        proof {
            assert(self@.pins =~= old(self)@.pins.push(self.pins@.last()@));
        }
    }

    /// The bounding box of all geometry in this cell, excluding subcells;
    /// absent when no primitive has a box.
    pub fn local_bbox(&self) -> (r: Option<BBox>)
        ensures
            r == local_bbox_of(self@.geometries),
    {
        let mut acc: Option<BBox> = None;
        let mut idx: usize = 0;
        while idx < self.geometries.len()
            invariant
                0 <= idx <= self.geometries@.len(),
                acc == local_bbox_of(self@.geometries.subrange(0, idx as int)),
            decreases self.geometries@.len() - idx,
        {
            proof {
                let pre = self@.geometries.subrange(0, idx as int);
                let post = self@.geometries.subrange(0, idx + 1);
                assert(post.drop_last() =~= pre);
                assert(post.last() == self@.geometries[idx as int]);
            }
            let b = self.geometries[idx].bbox();
            acc = match (acc, b) {
                (None, x) => x,
                (Some(a), None) => Some(a),
                (Some(a), Some(bb)) => Some(a.union(&bb)),
            };
            idx = idx + 1;
        }
        proof {
            assert(self@.geometries.subrange(0, self.geometries@.len() as int) =~= self@.geometries);
        }
        acc
    }

    /// The primitives on the given layer, in their stored order.
    pub fn geometries_on_layer(&self, layer_id: LayerId) -> (r: Vec<&GeomPrimitive>)
        ensures
            r@.map_values(|g: &GeomPrimitive| g@) == self@.geometries.filter(
                |g: GeomView| view_layer_id(g) == layer_id,
            ),
    {
        let mut out: Vec<&GeomPrimitive> = Vec::new();
        let mut idx: usize = 0;
        while idx < self.geometries.len()
            invariant
                0 <= idx <= self.geometries@.len(),
                out@.map_values(|g: &GeomPrimitive| g@) == self@.geometries.subrange(
                    0,
                    idx as int,
                ).filter(|g: GeomView| view_layer_id(g) == layer_id),
            decreases self.geometries@.len() - idx,
        {
            proof {
                let pre = self@.geometries.subrange(0, idx as int);
                let post = self@.geometries.subrange(0, idx + 1);
                assert(post.drop_last() =~= pre);
                assert(post.last() == self@.geometries[idx as int]);
                reveal_with_fuel(Seq::filter, 2);
            }
            if self.geometries[idx].layer_id() == layer_id {
                out.push(&self.geometries[idx]);
            }
            proof {
                assert(out@.map_values(|g: &GeomPrimitive| g@) =~= self@.geometries.subrange(
                    0,
                    idx + 1,
                ).filter(|g: GeomView| view_layer_id(g) == layer_id));
            }
            idx = idx + 1;
        }
        proof {
            assert(self@.geometries.subrange(0, self.geometries@.len() as int) =~= self@.geometries);
        }
        out
    }

    pub fn geometry_count(&self) -> (r: usize)
        ensures
            r == self@.geometries.len(),
    {
        self.geometries.len()
    }

    pub fn instance_count(&self) -> (r: usize)
        ensures
            r == self@.instances.len(),
    {
        self.instances.len()
    }
}

} // verus!
