use opensilicon::cell::{Cell, Transform};
use opensilicon::commands::{
    AddGeometryCommand, Command, MoveGeometryCommand, RemoveGeometryCommand,
};
use opensilicon::database::LayoutDatabase;
use opensilicon::geometry::{GeomPrimitive, Point, Rect};

fn rect(layer: u32, x1: i64, y1: i64, x2: i64, y2: i64) -> GeomPrimitive {
    GeomPrimitive::Rect(Rect::new(layer, x1, y1, x2, y2))
}

#[test]
fn test_cell_add_geometry() {
    let mut cell = Cell::new("test_cell");
    let r = rect(0, 0, 0, 100, 50);
    cell.add_geometry(r);
    assert_eq!(cell.geometry_count(), 1);
    assert!(cell.modified);
}

#[test]
fn test_cell_bbox() {
    let mut cell = Cell::new("test_cell");
    cell.add_geometry(rect(0, 0, 0, 100, 50));
    cell.add_geometry(rect(1, 50, 25, 200, 75));
    let bb = cell.local_bbox().unwrap();
    assert_eq!(bb.min.x, 0);
    assert_eq!(bb.min.y, 0);
    assert_eq!(bb.max.x, 200);
    assert_eq!(bb.max.y, 75);
}

#[test]
fn test_transform_translate() {
    // The full placement application (scale, mirror, rotate, translate) is
    // floating-point screen math outside the core; a pure translation is
    // its integer part, applied here through the transform's offset.
    let t = Transform::translate(10, 20);
    let p = Point::new(5, 5);
    let result = p.translate(t.offset.x, t.offset.y);
    assert_eq!(result.x, 15);
    assert_eq!(result.y, 25);
}

#[test]
fn test_database_create() {
    let db = LayoutDatabase::new("test_project");
    assert_eq!(db.name().as_str(), "test_project");
    assert_eq!(db.cell_count(), 0);
    assert!(db.top_cell().is_none());
}

#[test]
fn test_add_and_find_cell() {
    let mut db = LayoutDatabase::new("test");
    let cell = Cell::new("inverter");
    let id = db.add_cell(cell);
    assert_eq!(db.cell_count(), 1);
    assert!(db.get_cell(&id).is_some());
    assert_eq!(db.find_cell_by_name("inverter").unwrap().name.as_str(), "inverter");
}

#[test]
fn test_top_cell_auto_set() {
    let mut db = LayoutDatabase::new("test");
    let cell = Cell::new("top");
    let id = db.add_cell(cell);
    assert_eq!(db.top_cell(), Some(id));
}

#[test]
fn test_remove_cell_clears_top() {
    let mut db = LayoutDatabase::new("test");
    let id = db.add_cell(Cell::new("a"));
    let removed = db.remove_cell(&id).unwrap();
    assert_eq!(removed.name.as_str(), "a");
    assert!(db.top_cell().is_none());
    assert_eq!(db.cell_count(), 0);
    assert!(db.remove_cell(&id).is_none());
}

#[test]
fn test_remove_geometry_out_of_range() {
    let mut cell = Cell::new("c");
    assert!(cell.remove_geometry(0).is_none());
    assert!(!cell.modified);
    cell.add_geometry(rect(0, 0, 0, 1, 1));
    assert!(cell.remove_geometry(3).is_none());
    assert!(cell.remove_geometry(0).is_some());
    assert_eq!(cell.geometry_count(), 0);
}

#[test]
fn test_undo_redo_symmetry() {
    let mut db = LayoutDatabase::new("p");
    let id = db.add_cell(Cell::new("top"));
    db.execute_command(Command::AddGeometry(AddGeometryCommand::new(id, rect(0, 0, 0, 10, 10))));
    db.execute_command(Command::AddGeometry(AddGeometryCommand::new(id, rect(1, 5, 5, 20, 20))));
    db.execute_command(Command::RemoveGeometry(RemoveGeometryCommand::new(id, 0)));
    let after = db.get_cell(&id).unwrap().geometries.clone();
    assert_eq!(after.len(), 1);

    // Undo everything: the cell's geometry is back to empty.
    assert!(db.undo());
    assert!(db.undo());
    assert!(db.undo());
    assert!(!db.undo());
    assert_eq!(db.get_cell(&id).unwrap().geometry_count(), 0);

    // Redo everything: the state after the three commands returns.
    assert!(db.redo());
    assert!(db.redo());
    assert!(db.redo());
    assert!(!db.redo());
    assert_eq!(db.get_cell(&id).unwrap().geometries, after);
}

#[test]
fn test_execute_clears_redo() {
    let mut db = LayoutDatabase::new("p");
    let id = db.add_cell(Cell::new("top"));
    db.execute_command(Command::AddGeometry(AddGeometryCommand::new(id, rect(0, 0, 0, 10, 10))));
    assert!(db.undo());
    assert!(db.can_redo());
    db.execute_command(Command::AddGeometry(AddGeometryCommand::new(id, rect(1, 1, 1, 2, 2))));
    assert!(!db.can_redo());
    assert!(!db.redo());
}

#[test]
fn test_move_undo_redo_pure_sequence() {
    let mut db = LayoutDatabase::new("p");
    let id = db.add_cell(Cell::new("top"));
    db.execute_command(Command::AddGeometry(AddGeometryCommand::new(id, rect(0, 0, 0, 10, 10))));
    let before = db.get_cell(&id).unwrap().geometries.clone();
    db.execute_command(Command::MoveGeometry(MoveGeometryCommand::new(
        id,
        vec![0],
        Point::new(7, -3),
    )));
    db.execute_command(Command::MoveGeometry(MoveGeometryCommand::new(
        id,
        vec![0, 0],
        Point::new(1, 1),
    )));
    let moved = db.get_cell(&id).unwrap().geometries.clone();
    match &moved[0] {
        GeomPrimitive::Rect(r) => {
            assert_eq!(r.lower_left, Point::new(9, -1));
            assert_eq!(r.upper_right, Point::new(19, 9));
        }
        _ => panic!("expected a rectangle"),
    }
    // A pure move/undo/redo sequence inverts and replays exactly.
    assert!(db.undo());
    assert!(db.undo());
    assert_eq!(db.get_cell(&id).unwrap().geometries, before);
    assert!(db.redo());
    assert!(db.redo());
    assert_eq!(db.get_cell(&id).unwrap().geometries, moved);
}

#[test]
fn test_command_descriptions() {
    let mut db = LayoutDatabase::new("p");
    let id = db.add_cell(Cell::new("top"));
    assert!(db.undo_description().is_none());
    db.execute_command(Command::AddGeometry(AddGeometryCommand::new(id, rect(0, 0, 0, 1, 1))));
    assert_eq!(db.undo_description(), Some("Add geometry"));
    assert!(db.undo());
    assert_eq!(db.redo_description(), Some("Add geometry"));
}

#[test]
fn test_command_on_missing_cell_is_noop() {
    let mut db = LayoutDatabase::new("p");
    let id = db.add_cell(Cell::new("top"));
    let ghost_id: u128 = id.wrapping_add(1);
    db.execute_command(Command::AddGeometry(AddGeometryCommand::new(
        ghost_id,
        rect(0, 0, 0, 1, 1),
    )));
    assert_eq!(db.get_cell(&id).unwrap().geometry_count(), 0);
    assert!(db.undo());
    assert_eq!(db.get_cell(&id).unwrap().geometry_count(), 0);
}

#[test]
fn test_geometries_on_layer() {
    let mut cell = Cell::new("c");
    cell.add_geometry(rect(1, 0, 0, 1, 1));
    cell.add_geometry(rect(2, 0, 0, 2, 2));
    cell.add_geometry(rect(1, 0, 0, 3, 3));
    let on1 = cell.geometries_on_layer(1);
    assert_eq!(on1.len(), 2);
    assert_eq!(cell.geometries_on_layer(5).len(), 0);
}
