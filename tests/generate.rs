use lev_ztarter::{Db, GenerateError, GeneratedLevel, LevelGeometry, SerVertex, Shape};

fn shape(points: &[(i64, i64)]) -> Shape {
    Shape { vertices: points.iter().map(|&(x, y)| SerVertex { x, y }).collect(), grass: false }
}

/// Three records of widths 2, 5 and 3, from "a.lev", "b.lev" and "c.lev".
fn store() -> Db {
    let mut db = Db::new();
    let mut failed = Vec::new();
    db.ingest_level("a.lev", Some(&LevelGeometry { polygons: vec![shape(&[(0, 0), (2, 1)])] }), &mut failed);
    db.ingest_level("b.lev", Some(&LevelGeometry { polygons: vec![shape(&[(10, 10), (15, 14)])] }), &mut failed);
    db.ingest_level("c.lev", Some(&LevelGeometry { polygons: vec![shape(&[(-3, 0), (0, 2)])] }), &mut failed);
    db
}

#[test]
fn empty_store_cannot_generate() {
    let db = Db::new();
    assert_eq!(GeneratedLevel::generate(&db, 0, &vec![]).err(), Some(GenerateError::EmptyStore));
    assert_eq!(GeneratedLevel::generate(&db, 3, &vec![1, 2]).err(), Some(GenerateError::EmptyStore));
}

#[test]
fn single_anchor_is_placed_at_origin() {
    let db = store();
    let g = GeneratedLevel::generate(&db, 1, &vec![]).unwrap();
    assert_eq!(g.level.polygons.len(), 1);
    assert_eq!(g.source_levels.len(), 1);
    assert_eq!(g.source_levels[0].as_str(), "b.lev");
    assert_eq!(g.level.polygons[0].vertices, vec![SerVertex { x: 0, y: 0 }, SerVertex { x: 5, y: 4 }]);
}

#[test]
fn polygons_are_laid_left_to_right_without_gaps() {
    let db = store();
    let g = GeneratedLevel::generate(&db, 1, &vec![0, 2, 0]).unwrap();
    assert_eq!(g.level.polygons.len(), 4);
    let sources: Vec<&str> = g.source_levels.iter().map(|s| s.as_str()).collect();
    assert_eq!(sources, vec!["b.lev", "a.lev", "c.lev", "a.lev"]);
    let min_x: Vec<i64> = g
        .level
        .polygons
        .iter()
        .map(|p| p.vertices.iter().map(|v| v.x).min().unwrap())
        .collect();
    assert_eq!(min_x, vec![0, 5, 7, 10]);
    assert!(g.level.polygons.iter().all(|p| !p.grass));
    assert!(g.level.polygons.iter().all(|p| p.vertices.iter().map(|v| v.y).min() == Some(0)));
}

#[test]
fn provenance_matches_placed_count() {
    let db = store();
    for n in 0..6usize {
        let others: Vec<usize> = (0..n).map(|k| k % 3).collect();
        let g = GeneratedLevel::generate(&db, 2, &others).unwrap();
        assert_eq!(g.level.polygons.len(), n + 1);
        assert_eq!(g.source_levels.len(), n + 1);
    }
}

#[test]
fn meta_file_name_appends_suffix() {
    assert_eq!(GeneratedLevel::meta_file_name("out/L0000001.lev"), "out/L0000001.lev.meta.json");
    assert_eq!(GeneratedLevel::meta_file_name(""), ".meta.json");
}
