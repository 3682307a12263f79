use opensilicon::geometry::{BBox, GeomPrimitive, Path, Point, Polygon, Rect};

#[test]
fn test_point_distance() {
    let a = Point::new(0, 0);
    let b = Point::new(3, 4);
    assert_eq!(a.distance_to(&b), 5);
}

#[test]
fn test_rect_area() {
    let r = Rect::new(0, 0, 0, 10, 5);
    assert_eq!(r.area(), 50);
}

#[test]
fn test_bbox_intersection() {
    let a = BBox::new(Point::new(0, 0), Point::new(10, 10));
    let b = BBox::new(Point::new(5, 5), Point::new(15, 15));
    let c = BBox::new(Point::new(20, 20), Point::new(30, 30));
    assert!(a.intersects(&b));
    assert!(!a.intersects(&c));
}

#[test]
fn test_bbox_union() {
    let a = BBox::new(Point::new(0, 0), Point::new(100, 50));
    let b = BBox::new(Point::new(50, 25), Point::new(200, 75));
    let u = a.union(&b);
    assert_eq!(u.min, Point::new(0, 0));
    assert_eq!(u.max, Point::new(200, 75));
}

#[test]
fn test_bbox_from_points() {
    let pts = vec![Point::new(3, 7), Point::new(-2, 9), Point::new(5, -4)];
    let b = BBox::from_points(&pts).unwrap();
    assert_eq!(b.min, Point::new(-2, -4));
    assert_eq!(b.max, Point::new(5, 9));
    assert!(BBox::from_points(&[]).is_none());
}

#[test]
fn test_bbox_contains_point_inclusive() {
    let b = BBox::new(Point::new(0, 0), Point::new(10, 10));
    assert!(b.contains_point(&Point::new(0, 0)));
    assert!(b.contains_point(&Point::new(10, 10)));
    assert!(b.contains_point(&Point::new(5, 5)));
    assert!(!b.contains_point(&Point::new(11, 5)));
}

#[test]
fn test_rect_normalizes_corners() {
    let r = Rect::new(3, 10, 50, 0, 5);
    assert_eq!(r.lower_left, Point::new(0, 5));
    assert_eq!(r.upper_right, Point::new(10, 50));
    assert_eq!(r.layer_id, 3);
}

#[test]
fn test_point_translate() {
    let p = Point::new(5, 5);
    let q = p.translate(10, 20);
    assert_eq!(q, Point::new(15, 25));
    let back = q.translate(-10, -20);
    assert_eq!(back, p);
}

#[test]
fn test_path_length() {
    let p = Path::new(1, vec![Point::new(0, 0), Point::new(3, 4), Point::new(3, 14)], 2);
    // Two segments: a 3-4-5 triangle hypotenuse and a vertical run of ten.
    assert_eq!(p.length(), 15);
    let single = Path::new(1, vec![Point::new(7, 7)], 2);
    assert_eq!(single.length(), 0);
}

#[test]
fn test_polygon_bbox_and_layer() {
    let poly = Polygon::new(7, vec![Point::new(0, 10), Point::new(10, 20), Point::new(20, 10)]);
    assert_eq!(poly.vertex_count(), 3);
    let b = poly.bbox().unwrap();
    assert_eq!(b.min, Point::new(0, 10));
    assert_eq!(b.max, Point::new(20, 20));
    let g = GeomPrimitive::Polygon(poly);
    assert_eq!(g.layer_id(), 7);
}
