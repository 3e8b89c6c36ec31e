use lev_ztarter::{LevelGeometry, SerPolygon, SerPolygonOwner, SerVertex, Shape};
use lev_ztarter::LevelFileName;

fn v(x: i64, y: i64) -> SerVertex {
    SerVertex { x, y }
}

fn shape(points: &[(i64, i64)], grass: bool) -> Shape {
    Shape { vertices: points.iter().map(|&(x, y)| v(x, y)).collect(), grass }
}

#[test]
fn bounding_box_of_input_coordinates() {
    let p = SerPolygon::from_polygon(&vec![v(1, 2), v(5, -3), v(3, 7)]);
    assert_eq!(p.verteces, vec![v(1, 2), v(5, -3), v(3, 7)]);
    assert_eq!(p.width, 4);
    assert_eq!(p.height, 10);
}

#[test]
fn bounding_box_when_first_vertex_is_largest() {
    let p = SerPolygon::from_polygon(&vec![v(9, 9), v(3, 2), v(1, 4)]);
    assert_eq!(p.width, 8);
    assert_eq!(p.height, 7);
}

#[test]
fn empty_polygon_has_no_extent() {
    let p = SerPolygon::from_polygon(&Vec::new());
    assert!(p.verteces.is_empty());
    assert_eq!(p.width, 0);
    assert_eq!(p.height, 0);
}

#[test]
fn normalize_moves_minimum_to_origin() {
    let mut p = SerPolygon::from_polygon(&vec![v(1, 2), v(5, -3), v(3, 7)]);
    p.normalize();
    assert_eq!(p.verteces, vec![v(0, 5), v(4, 0), v(2, 10)]);
    assert_eq!(p.width, 4);
    assert_eq!(p.height, 10);
}

#[test]
fn translate_moves_every_vertex() {
    let mut p = SerPolygon::from_polygon(&vec![v(0, 0), v(2, 3)]);
    p.translate(10, -1);
    assert_eq!(p.verteces, vec![v(10, -1), v(12, 2)]);
    assert_eq!(p.width, 2);
}

#[test]
fn translated_copy_leaves_polygon_alone() {
    let p = SerPolygon::from_polygon(&vec![v(0, 0), v(2, 3)]);
    let s = p.to_polygon_translate(7, 1);
    assert_eq!(s.vertices, vec![v(7, 1), v(9, 4)]);
    assert!(!s.grass);
    assert_eq!(p.verteces, vec![v(0, 0), v(2, 3)]);
}

#[test]
fn vertex_translate() {
    assert_eq!(v(3, 4).to_vertex_translate(-3, 6), v(0, 10));
}

#[test]
fn area_of_bounding_box() {
    let p = SerPolygon::from_polygon(&vec![v(0, 0), v(4, 0), v(4, 5)]);
    assert_eq!(p.area(), 20);
}

#[test]
fn extraction_drops_grass_and_normalizes() {
    let level = LevelGeometry {
        polygons: vec![
            shape(&[(10, 10), (14, 10), (12, 20)], false),
            shape(&[(0, 0), (100, 0), (50, 1)], true),
            shape(&[(-5, -5), (-1, -2)], false),
        ],
    };
    let ps = SerPolygon::from_lev(&level);
    assert_eq!(ps.len(), 2);
    assert_eq!(ps[0].verteces, vec![v(0, 0), v(4, 0), v(2, 10)]);
    assert_eq!((ps[0].width, ps[0].height), (4, 10));
    assert_eq!(ps[1].verteces, vec![v(0, 0), v(4, 3)]);
    assert_eq!((ps[1].width, ps[1].height), (4, 3));
}

#[test]
fn extracted_polygons_have_origin_minimum() {
    let level = LevelGeometry {
        polygons: vec![
            shape(&[(-7, 3), (2, 9), (5, -4), (0, 0)], false),
            shape(&[(1000, 2000), (1500, 2600), (1200, 2100)], false),
        ],
    };
    for p in SerPolygon::from_lev(&level) {
        assert_eq!(p.verteces.iter().map(|q| q.x).min(), Some(0));
        assert_eq!(p.verteces.iter().map(|q| q.y).min(), Some(0));
    }
    let ps = SerPolygon::from_lev(&level);
    assert_eq!((ps[0].width, ps[0].height), (12, 13));
    assert_eq!((ps[1].width, ps[1].height), (500, 600));
}

#[test]
fn level_without_eligible_shapes_yields_nothing() {
    let level = LevelGeometry { polygons: vec![shape(&[(0, 0), (1, 1), (2, 0)], true)] };
    assert!(SerPolygon::from_lev(&level).is_empty());
    assert!(SerPolygon::from_lev(&LevelGeometry { polygons: Vec::new() }).is_empty());
}

#[test]
fn owners_are_tagged_with_the_source() {
    let level = LevelGeometry {
        polygons: vec![
            shape(&[(1, 1), (3, 1), (2, 2)], false),
            shape(&[(0, 0), (1, 1)], true),
            shape(&[(5, 5), (6, 8)], false),
        ],
    };
    let name = LevelFileName::from_str("src.lev");
    let owners = SerPolygonOwner::from_level(name, &level);
    assert_eq!(owners.len(), 2);
    assert!(owners.iter().all(|o| o.file_name == name));
    assert_eq!(owners[1].polygon.verteces, vec![v(0, 0), v(1, 3)]);
}
