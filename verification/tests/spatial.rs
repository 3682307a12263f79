use opensilicon::geometry::{BBox, Point};
use opensilicon::layer::{FillPattern, Layer, LayerColor, LayerStack};
use opensilicon::spatial::{SpatialEntry, SpatialIndex};

fn entry(idx: usize, x1: i64, y1: i64, x2: i64, y2: i64) -> SpatialEntry {
    SpatialEntry { geometry_index: idx, bbox: BBox::new(Point::new(x1, y1), Point::new(x2, y2)) }
}

#[test]
fn test_spatial_query() {
    let entries = vec![entry(0, 0, 0, 10, 10), entry(1, 20, 20, 30, 30)];
    let index = SpatialIndex::build(&entries);

    // Point inside the first entry only.
    let results = index.query_point(&Point::new(5, 5));
    assert_eq!(results.len(), 1);
    assert_eq!(results[0].geometry_index, 0);

    // Point inside the second entry only.
    let results = index.query_point(&Point::new(25, 25));
    assert_eq!(results.len(), 1);
    assert_eq!(results[0].geometry_index, 1);

    // Viewport overlapping the first entry only.
    let viewport = BBox::new(Point::new(-5, -5), Point::new(15, 15));
    let results = index.query_viewport(&viewport);
    assert_eq!(results.len(), 1);
    assert_eq!(results[0].geometry_index, 0);
}

#[test]
fn test_spatial_insert_and_len() {
    let mut index = SpatialIndex::new();
    assert!(index.is_empty());
    index.insert(entry(0, 0, 0, 10, 10));
    index.insert(entry(1, 5, 5, 15, 15));
    assert_eq!(index.len(), 2);
    // Boundary-inclusive: a point on both boxes' shared region hits both.
    let results = index.query_point(&Point::new(10, 10));
    assert_eq!(results.len(), 2);
}

#[test]
fn test_spatial_boundary_inclusive() {
    let index = SpatialIndex::build(&vec![entry(0, 0, 0, 10, 10)]);
    assert_eq!(index.query_point(&Point::new(10, 0)).len(), 1);
    assert_eq!(index.query_point(&Point::new(11, 0)).len(), 0);
    // A viewport touching only the corner still intersects.
    let touching = BBox::new(Point::new(10, 10), Point::new(20, 20));
    assert_eq!(index.query_viewport(&touching).len(), 1);
}

#[test]
fn test_layer_stack() {
    let mut stack = LayerStack::new();
    stack.add_layer(Layer::new(1, "metal1", 10, 0).with_color(0, 0, 255));
    stack.add_layer(Layer::new(2, "poly", 20, 0).with_pattern(FillPattern::Hatched));
    assert_eq!(stack.layer_count(), 2);
    assert_eq!(stack.get_layer(1).unwrap().name.as_str(), "metal1");
    assert!(stack.get_layer(9).is_none());
    assert_eq!(stack.get_layer_by_gds(20, 0).unwrap().id, 2);
    assert!(stack.get_layer_by_gds(20, 5).is_none());

    assert!(stack.get_layer(1).unwrap().visible);
    stack.toggle_visibility(1);
    assert!(!stack.get_layer(1).unwrap().visible);
    assert_eq!(stack.visible_layers().len(), 1);
    stack.set_all_visible(true);
    assert_eq!(stack.visible_layers().len(), 2);

    let color = stack.get_layer(1).unwrap().color;
    assert_eq!(color, LayerColor { r: 0, g: 0, b: 255 });
    assert_eq!(LayerColor::default(), LayerColor { r: 128, g: 128, b: 128 });
}

#[test]
fn test_layer_mut_access() {
    let mut stack = LayerStack::new();
    stack.add_layer(Layer::new(4, "via1", 30, 0).with_description("first via layer"));
    if let Some(l) = stack.get_layer_mut(4) {
        l.selectable = false;
    }
    assert!(!stack.get_layer(4).unwrap().selectable);
    assert_eq!(stack.get_layer(4).unwrap().description.as_str(), "first via layer");
}
