//! Layer registry: technology layers with display metadata, kept in the
//! order they were added and looked up by numeric id or GDS pair.

use vstd::prelude::*;

verus! {

use crate::LayerId;

/// RGB color for a layer.
#[derive(Debug, Clone, Copy, PartialEq, Eq, Structural)]
pub struct LayerColor {
    pub r: u8,
    pub g: u8,
    pub b: u8,
}

impl Default for LayerColor {
    /// The neutral gray used for layers without an assigned color.
    fn default() -> (r: Self)
        ensures
            r == (LayerColor { r: 128, g: 128, b: 128 }),
    {
        Self { r: 128, g: 128, b: 128 }
    }
}

/// Fill pattern for layer rendering.
#[derive(Debug, Clone, Copy, PartialEq, Eq, Structural)]
pub enum FillPattern {
    Solid,
    Hatched,
    CrossHatched,
    Stipple,
    Dotted,
    Outline,
}

/// Represents a technology layer in the layout.
#[derive(Debug, Clone)]
pub struct Layer {
    pub id: LayerId,
    pub name: String,
    pub gds_layer: u16,
    pub gds_datatype: u16,
    pub color: LayerColor,
    pub fill_pattern: FillPattern,
    /// Display opacity in percent (0 to 100).
    pub opacity: u8,
    pub visible: bool,
    pub selectable: bool,
    pub description: String,
}

/// Whether two layers agree on every field except visibility, which must be
/// `v` on the second.
pub open spec fn same_but_visible(a: Layer, b: Layer, v: bool) -> bool {
    &&& b.id == a.id
    &&& b.name@ == a.name@
    &&& b.gds_layer == a.gds_layer
    &&& b.gds_datatype == a.gds_datatype
    &&& b.color == a.color
    &&& b.fill_pattern == a.fill_pattern
    &&& b.opacity == a.opacity
    &&& b.visible == v
    &&& b.selectable == a.selectable
    &&& b.description@ == a.description@
}

impl Layer {
    pub fn new(id: LayerId, name: &str, gds_layer: u16, gds_datatype: u16) -> (r: Self)
        ensures
            r.id == id,
            r.name@ == name@,
            r.gds_layer == gds_layer,
            r.gds_datatype == gds_datatype,
            r.color == (LayerColor { r: 128, g: 128, b: 128 }),
            r.fill_pattern == FillPattern::Solid,
            r.opacity == 70,
            r.visible,
            r.selectable,
            r.description@ == Seq::<char>::empty(),
    {
        Self {
            id,
            name: name.to_owned(),
            gds_layer,
            gds_datatype,
            color: LayerColor::default(),
            fill_pattern: FillPattern::Solid,
            opacity: 70,
            visible: true,
            selectable: true,
            description: String::new(),
        }
    }

    pub fn with_color(self, r: u8, g: u8, b: u8) -> (res: Self)
        ensures
            res == (Layer { color: LayerColor { r, g, b }, ..self }),
    {
        Self { color: LayerColor { r, g, b }, ..self }
    }

    pub fn with_pattern(self, pattern: FillPattern) -> (res: Self)
        ensures
            res == (Layer { fill_pattern: pattern, ..self }),
    {
        Self { fill_pattern: pattern, ..self }
    }

    pub fn with_description(self, desc: &str) -> (res: Self)
        ensures
            res.description@ == desc@,
            res == (Layer { description: res.description, ..self }),
    {
        Self { description: desc.to_owned(), ..self }
    }
}

/// A collection of layers representing a technology stack.
#[derive(Debug, Clone)]
pub struct LayerStack {
    layers: Vec<Layer>,
}

impl Default for LayerStack {
    /// An empty stack.
    fn default() -> (r: Self)
        ensures
            r.layers_seq() == Seq::<Layer>::empty(),
    {
        Self::new()
    }
}

impl LayerStack {
    /// The layers in the order they were added.
    pub closed spec fn layers_seq(&self) -> Seq<Layer> {
        self.layers@
    }

    pub fn new() -> (r: Self)
        ensures
            r.layers_seq() == Seq::<Layer>::empty(),
    {
        Self { layers: Vec::new() }
    }

    pub fn add_layer(&mut self, layer: Layer)
        ensures
            final(self).layers_seq() == old(self).layers_seq().push(layer),
    {
        self.layers.push(layer);
    }

    /// The first layer with the given id, if any.
    pub fn get_layer(&self, id: LayerId) -> (r: Option<&Layer>)
        ensures
            match r {
                None => forall|i: int|
                    0 <= i < self.layers_seq().len() ==> (#[trigger] self.layers_seq()[i]).id != id,
                Some(l) => exists|i: int|
                    {
                        &&& 0 <= i < self.layers_seq().len()
                        &&& #[trigger] self.layers_seq()[i] == *l
                        &&& self.layers_seq()[i].id == id
                        &&& forall|j: int| 0 <= j < i ==> (#[trigger] self.layers_seq()[j]).id != id
                    },
            },
    {
        let mut idx: usize = 0;
        while idx < self.layers.len()
            invariant
                0 <= idx <= self.layers@.len(),
                forall|j: int| 0 <= j < idx ==> (#[trigger] self.layers@[j]).id != id,
            decreases self.layers@.len() - idx,
        {
            if self.layers[idx].id == id {
                return Some(&self.layers[idx]);
            }
            idx = idx + 1;
        }
        None
    }

    /// A mutable borrow of the first layer with the given id, if any.
    pub fn get_layer_mut(&mut self, id: LayerId) -> (r: Option<&mut Layer>)
        ensures
            match r {
                None => {
                    &&& final(self).layers_seq() == old(self).layers_seq()
                    &&& forall|i: int|
                        0 <= i < old(self).layers_seq().len() ==> (#[trigger] old(
                            self,
                        ).layers_seq()[i]).id != id
                },
                Some(l) => exists|i: int|
                    {
                        &&& 0 <= i < old(self).layers_seq().len()
                        &&& (#[trigger] old(self).layers_seq()[i]).id == id
                        &&& forall|j: int|
                            0 <= j < i ==> (#[trigger] old(self).layers_seq()[j]).id != id
                        &&& *l == old(self).layers_seq()[i]
                        &&& final(self).layers_seq() == old(self).layers_seq().update(
                            i,
                            *final(l),
                        )
                    },
            },
    {
        let mut idx: usize = 0;
        while idx < self.layers.len()
            invariant
                0 <= idx <= self.layers@.len(),
                self.layers@ == old(self).layers@,
                forall|j: int| 0 <= j < idx ==> (#[trigger] self.layers@[j]).id != id,
            decreases self.layers@.len() - idx,
        {
            if self.layers[idx].id == id {
                return Some(&mut self.layers[idx]);
            }
            idx = idx + 1;
        }
        None
    }

    /// The first layer with the given GDS layer/datatype pair, if any.
    pub fn get_layer_by_gds(&self, gds_layer: u16, gds_datatype: u16) -> (r: Option<&Layer>)
        ensures
            match r {
                None => forall|i: int|
                    0 <= i < self.layers_seq().len() ==> !((#[trigger] self.layers_seq()[i]).gds_layer
                        == gds_layer && self.layers_seq()[i].gds_datatype == gds_datatype),
                Some(l) => exists|i: int|
                    {
                        &&& 0 <= i < self.layers_seq().len()
                        &&& #[trigger] self.layers_seq()[i] == *l
                        &&& self.layers_seq()[i].gds_layer == gds_layer
                        &&& self.layers_seq()[i].gds_datatype == gds_datatype
                    },
            },
    {
        let mut idx: usize = 0;
        while idx < self.layers.len()
            invariant
                0 <= idx <= self.layers@.len(),
                forall|j: int|
                    0 <= j < idx ==> !((#[trigger] self.layers@[j]).gds_layer == gds_layer
                        && self.layers@[j].gds_datatype == gds_datatype),
            decreases self.layers@.len() - idx,
        {
            if self.layers[idx].gds_layer == gds_layer && self.layers[idx].gds_datatype
                == gds_datatype {
                return Some(&self.layers[idx]);
            }
            idx = idx + 1;
        }
        None
    }

    /// The layers that are currently visible, in stack order.
    pub fn visible_layers(&self) -> (r: Vec<&Layer>)
        ensures
            r@.map_values(|l: &Layer| *l) == self.layers_seq().filter(|l: Layer| l.visible),
    {
        let mut out: Vec<&Layer> = Vec::new();
        let mut idx: usize = 0;
        while idx < self.layers.len()
            invariant
                0 <= idx <= self.layers@.len(),
                out@.map_values(|l: &Layer| *l) == self.layers@.subrange(0, idx as int).filter(
                    |l: Layer| l.visible,
                ),
            decreases self.layers@.len() - idx,
        {
            proof {
                assert(self.layers@.subrange(0, idx + 1).drop_last() =~= self.layers@.subrange(
                    0,
                    idx as int,
                ));
                reveal_with_fuel(Seq::filter, 2);
            }
            if self.layers[idx].visible {
                out.push(&self.layers[idx]);
            }
            proof {
                assert(out@.map_values(|l: &Layer| *l) =~= self.layers@.subrange(0, idx + 1).filter(
                    |l: Layer| l.visible,
                ));
            }
            idx = idx + 1;
        }
        proof {
            assert(self.layers@.subrange(0, self.layers@.len() as int) =~= self.layers@);
        }
        out
    }

    pub fn all_layers(&self) -> (r: &[Layer])
        ensures
            r@ == self.layers_seq(),
    {
        self.layers.as_slice()
    }

    pub fn layer_count(&self) -> (r: usize)
        ensures
            r == self.layers_seq().len(),
    {
        self.layers.len()
    }

    /// Flips the visibility of the first layer with the given id; a missing
    /// id leaves the stack unchanged.
    pub fn toggle_visibility(&mut self, id: LayerId)
        ensures
            (forall|i: int|
                0 <= i < old(self).layers_seq().len() ==> (#[trigger] old(self).layers_seq()[i]).id
                    != id) ==> final(self).layers_seq() == old(self).layers_seq(),
            (exists|i: int|
                0 <= i < old(self).layers_seq().len() && (#[trigger] old(self).layers_seq()[i]).id
                    == id) ==> exists|i: int|
                {
                    &&& 0 <= i < old(self).layers_seq().len()
                    &&& (#[trigger] old(self).layers_seq()[i]).id == id
                    &&& forall|j: int|
                        0 <= j < i ==> (#[trigger] old(self).layers_seq()[j]).id != id
                    &&& final(self).layers_seq().len() == old(self).layers_seq().len()
                    &&& same_but_visible(
                        old(self).layers_seq()[i],
                        final(self).layers_seq()[i],
                        !old(self).layers_seq()[i].visible,
                    )
                    &&& forall|j: int|
                        0 <= j < old(self).layers_seq().len() && j != i
                            ==> final(self).layers_seq()[j] == old(self).layers_seq()[j]
                },
    {
        let mut idx: usize = 0;
        while idx < self.layers.len()
            invariant
                0 <= idx <= self.layers@.len(),
                self.layers@ == old(self).layers@,
                forall|j: int| 0 <= j < idx ==> (#[trigger] self.layers@[j]).id != id,
            decreases self.layers@.len() - idx,
        {
            if self.layers[idx].id == id {
                let l: &mut Layer = &mut self.layers[idx];
                let v: bool = l.visible;
                l.visible = !v;
                return ;
            }
            idx = idx + 1;
        }
    }

    /// Sets the visibility of every layer in the stack.
    pub fn set_all_visible(&mut self, visible: bool)
        ensures
            final(self).layers_seq().len() == old(self).layers_seq().len(),
            forall|i: int|
                0 <= i < old(self).layers_seq().len() ==> same_but_visible(
                    #[trigger] old(self).layers_seq()[i],
                    final(self).layers_seq()[i],
                    visible,
                ),
    {
        let mut idx: usize = 0;
        while idx < self.layers.len()
            invariant
                0 <= idx <= self.layers@.len(),
                self.layers@.len() == old(self).layers@.len(),
                forall|j: int|
                    0 <= j < idx ==> same_but_visible(
                        #[trigger] old(self).layers@[j],
                        self.layers@[j],
                        visible,
                    ),
                forall|j: int|
                    idx <= j < self.layers@.len() ==> self.layers@[j] == old(self).layers@[j],
            decreases self.layers@.len() - idx,
        {
            let l: &mut Layer = &mut self.layers[idx];
            l.visible = visible;
            idx = idx + 1;
        }
    }
}

} // verus!
