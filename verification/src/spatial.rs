//! Spatial index: an R-tree over per-geometry bounding boxes, for point
//! queries and viewport culling.
//!
//! The tree itself comes from the rstar crate and stays behind trusted
//! wrappers; what it holds is modelled as a multiset of
//! `(geometry index, min x, min y, max x, max y)` tuples, and every wrapper
//! states its effect on that multiset as rstar's source shows it. The index
//! stores indices into the owning cell's geometry vector, not the geometry
//! itself, and it does not observe later edits: callers rebuild it when the
//! source changes.

use vstd::prelude::*;

verus! {

use vstd::multiset::Multiset;

/// Holds the rstar R-tree of index-tagged rectangles. The verifier treats
/// the handle as opaque; what the tree holds is modelled by
/// [`rtree_contents`], and the trusted wrappers below state what each tree
/// operation does to it.
#[verifier::external_body]
pub struct RTreeHandle {
    tree: rstar::RTree<
        rstar::primitives::GeomWithData<rstar::primitives::Rectangle<[i128; 2]>, usize>,
    >,
}

/// An entry in the spatial index, referencing a geometry by its index.
#[derive(Debug, Clone, Copy, PartialEq, Eq, Structural)]
pub struct SpatialEntry {
    /// Index into the cell's geometry vector.
    pub geometry_index: usize,
    /// Bounding box of the geometry.
    pub bbox: crate::geometry::BBox,
}

/// The plain tuple an index entry is modelled as.
pub open spec fn entry_tuple(e: SpatialEntry) -> (usize, i64, i64, i64, i64) {
    (e.geometry_index, e.bbox.min.x, e.bbox.min.y, e.bbox.max.x, e.bbox.max.y)
}

/// What an R-tree of tagged rectangles holds, as a multiset of
/// `(index, min x, min y, max x, max y)` tuples.
pub uninterp spec fn rtree_contents(t: RTreeHandle) -> Multiset<(usize, i64, i64, i64, i64)>;

/// Whether an entry tuple's rectangle contains a point, boundary inclusive.
pub open spec fn tuple_contains(e: (usize, i64, i64, i64, i64), x: i64, y: i64) -> bool {
    e.1 <= x <= e.3 && e.2 <= y <= e.4
}

/// Whether an entry tuple's rectangle overlaps a window, boundary
/// inclusive.
pub open spec fn tuple_intersects(e: (usize, i64, i64, i64, i64), w: crate::geometry::BBox) -> bool {
    e.1 <= w.max.x && e.3 >= w.min.x && e.2 <= w.max.y && e.4 >= w.min.y
}

/// Relies on rstar::RTree::new: a freshly created tree holds no elements.
#[verifier::external_body]
fn rtree_new() -> (t: RTreeHandle)
    ensures
        rtree_contents(t) == Multiset::<(usize, i64, i64, i64, i64)>::empty(),
{
    RTreeHandle { tree: rstar::RTree::new() }
}

/// Relies on rstar::RTree::bulk_load: the loaded tree holds exactly the
/// given elements. Each wellformed entry becomes a rectangle with the same
/// corners (Rectangle::from_corners keeps ordered corners as given); the
/// coordinate bound keeps the 128-bit area and distance products the tree
/// forms while building and balancing within range.
#[verifier::external_body]
fn rtree_bulk_load(entries: &Vec<SpatialEntry>) -> (t: RTreeHandle)
    requires
        forall|i: int| 0 <= i < entries@.len() ==> entry_ok(#[trigger] entries@[i]),
    ensures
        rtree_contents(t) == entries@.map_values(|e: SpatialEntry| entry_tuple(e)).to_multiset(),
{
    let items: Vec<_> = entries.iter().map(|e| rstar::primitives::GeomWithData::new(
        rstar::primitives::Rectangle::from_corners(
            [e.bbox.min.x as i128, e.bbox.min.y as i128],
            [e.bbox.max.x as i128, e.bbox.max.y as i128],
        ), e.geometry_index,
    )).collect();
    RTreeHandle { tree: rstar::RTree::bulk_load(items) }
}

/// Relies on rstar::RTree::insert: the tree gains exactly the new element.
/// The coordinate bound keeps the 128-bit area and distance products the
/// insertion strategy forms, reinsertions included, within range.
#[verifier::external_body]
fn rtree_insert(t: &mut RTreeHandle, entry: SpatialEntry)
    requires
        entry_ok(entry),
    ensures
        rtree_contents(*final(t)) == rtree_contents(*old(t)).insert(entry_tuple(entry)),
{
    t.tree.insert(rstar::primitives::GeomWithData::new(
        rstar::primitives::Rectangle::from_corners(
            [entry.bbox.min.x as i128, entry.bbox.min.y as i128],
            [entry.bbox.max.x as i128, entry.bbox.max.y as i128],
        ), entry.geometry_index,
    ));
}

/// Relies on rstar::RTree::size: the number of stored elements.
#[verifier::external_body]
fn rtree_size(t: &RTreeHandle) -> (r: usize)
    ensures
        r == rtree_contents(*t).len(),
{
    t.tree.size()
}

/// Relies on rstar::RTree::locate_all_at_point: exactly the elements whose
/// rectangle contains the point, boundary inclusive
/// (AABB::contains_point compares with `<=` on both sides), in an
/// unspecified order.
#[verifier::external_body]
fn rtree_locate_point(t: &RTreeHandle, x: i64, y: i64) -> (r: Vec<SpatialEntry>)
    ensures
        r@.map_values(|e: SpatialEntry| entry_tuple(e)).to_multiset() == rtree_contents(
            *t,
        ).filter(|e: (usize, i64, i64, i64, i64)| tuple_contains(e, x, y)),
{
    t.tree.locate_all_at_point([x as i128, y as i128]).map(|e| {
        let (lo, hi) = (e.geom().lower(), e.geom().upper());
        SpatialEntry { geometry_index: e.data, bbox: crate::geometry::BBox {
            min: crate::geometry::Point { x: lo[0] as i64, y: lo[1] as i64 },
            max: crate::geometry::Point { x: hi[0] as i64, y: hi[1] as i64 },
        } }
    }).collect()
}

/// Relies on rstar::RTree::locate_in_envelope_intersecting: exactly the
/// elements whose rectangle overlaps the window, boundary inclusive
/// (AABB::intersects compares with `<=` on both axes), in an unspecified
/// order. The window must be ordered: AABB::from_corners normalizes its
/// corners, so an inverted window would be searched as the normalized box.
#[verifier::external_body]
fn rtree_locate_intersecting(t: &RTreeHandle, w: crate::geometry::BBox) -> (r: Vec<SpatialEntry>)
    requires
        w.wf(),
    ensures
        r@.map_values(|e: SpatialEntry| entry_tuple(e)).to_multiset() == rtree_contents(
            *t,
        ).filter(|e: (usize, i64, i64, i64, i64)| tuple_intersects(e, w)),
{
    let envelope = rstar::AABB::from_corners(
        [w.min.x as i128, w.min.y as i128],
        [w.max.x as i128, w.max.y as i128],
    );
    t.tree.locate_in_envelope_intersecting(envelope).map(|e| {
        let (lo, hi) = (e.geom().lower(), e.geom().upper());
        SpatialEntry { geometry_index: e.data, bbox: crate::geometry::BBox {
            min: crate::geometry::Point { x: lo[0] as i64, y: lo[1] as i64 },
            max: crate::geometry::Point { x: hi[0] as i64, y: hi[1] as i64 },
        } }
    }).collect()
}

/// Spatial index for point queries and viewport culling.
pub struct SpatialIndex {
    tree: RTreeHandle,
}

impl View for SpatialIndex {
    type V = Multiset<(usize, i64, i64, i64, i64)>;

    closed spec fn view(&self) -> Multiset<(usize, i64, i64, i64, i64)> {
        rtree_contents(self.tree)
    }
}

/// Whether an entry may go into the index: an ordered box whose
/// coordinates stay within one quarter of the tree's 128-bit coordinate
/// range, so that every area product and squared distance the tree forms
/// while balancing stays in range.
pub open spec fn entry_ok(e: SpatialEntry) -> bool {
    &&& e.bbox.wf()
    &&& -0x2000_0000_0000_0000 <= e.bbox.min.x && e.bbox.max.x <= 0x2000_0000_0000_0000
    &&& -0x2000_0000_0000_0000 <= e.bbox.min.y && e.bbox.max.y <= 0x2000_0000_0000_0000
}

impl Default for SpatialIndex {
    /// An empty index.
    fn default() -> (r: Self)
        ensures
            r@ == Multiset::<(usize, i64, i64, i64, i64)>::empty(),
    {
        Self::new()
    }
}

impl SpatialIndex {
    /// An empty index.
    pub fn new() -> (r: Self)
        ensures
            r@ == Multiset::<(usize, i64, i64, i64, i64)>::empty(),
    {
        Self { tree: rtree_new() }
    }

    /// Bulk-loads the index from a snapshot of entries.
    pub fn build(entries: &Vec<SpatialEntry>) -> (r: Self)
        requires
            forall|i: int| 0 <= i < entries@.len() ==> entry_ok(#[trigger] entries@[i]),
        ensures
            r@ == entries@.map_values(|e: SpatialEntry| entry_tuple(e)).to_multiset(),
    {
        Self { tree: rtree_bulk_load(entries) }
    }

    /// Inserts a single entry.
    pub fn insert(&mut self, entry: SpatialEntry)
        requires
            entry_ok(entry),
        ensures
            final(self)@ == old(self)@.insert(entry_tuple(entry)),
    {
        rtree_insert(&mut self.tree, entry);
    }

    /// All entries whose box contains the point, boundary inclusive, in an
    /// unspecified order.
    pub fn query_point(&self, point: &crate::geometry::Point) -> (r: Vec<SpatialEntry>)
        ensures
            r@.map_values(|e: SpatialEntry| entry_tuple(e)).to_multiset() == self@.filter(
                |e: (usize, i64, i64, i64, i64)| tuple_contains(e, point.x, point.y),
            ),
    {
        rtree_locate_point(&self.tree, point.x, point.y)
    }

    /// All entries whose box overlaps the window, boundary inclusive, in an
    /// unspecified order. The window must satisfy the box invariant
    /// `min <= max` on both axes.
    pub fn query_viewport(&self, viewport: &crate::geometry::BBox) -> (r: Vec<SpatialEntry>)
        requires
            viewport.wf(),
        ensures
            r@.map_values(|e: SpatialEntry| entry_tuple(e)).to_multiset() == self@.filter(
                |e: (usize, i64, i64, i64, i64)| tuple_intersects(e, *viewport),
            ),
    {
        rtree_locate_intersecting(&self.tree, *viewport)
    }

    /// The number of entries in the index.
    pub fn len(&self) -> (r: usize)
        ensures
            r == self@.len(),
    {
        rtree_size(&self.tree)
    }

    pub fn is_empty(&self) -> (r: bool)
        ensures
            r <==> self@.len() == 0,
    {
        self.len() == 0
    }
}

} // verus!
