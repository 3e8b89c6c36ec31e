use lev_ztarter::{Db, LevelFileName, LevelGeometry, SerPolygon, SerPolygonOwner, SerVertex, Shape};

fn shape(points: &[(i64, i64)], grass: bool) -> Shape {
    Shape { vertices: points.iter().map(|&(x, y)| SerVertex { x, y }).collect(), grass }
}

/// A level with `n` non-grass shapes of growing size, and one grass shape.
fn level(n: i64) -> LevelGeometry {
    let mut polygons = vec![shape(&[(0, 0), (50, 0), (25, 5)], true)];
    for k in 1..=n {
        polygons.push(shape(&[(k, k), (2 * k + 1, k), (k, 3 * k)], false));
    }
    LevelGeometry { polygons }
}

fn store(sources: &[(&str, i64)]) -> Db {
    let mut db = Db::new();
    let mut failed = Vec::new();
    for &(name, n) in sources {
        db.ingest_level(name, Some(&level(n)), &mut failed);
    }
    assert!(failed.is_empty());
    db
}

fn source_names(db: &Db) -> Vec<String> {
    let mut names: Vec<String> = db.levels.iter().map(|l| l.as_str().to_string()).collect();
    names.sort();
    names
}

fn record_sources(db: &Db) -> Vec<String> {
    db.polygons.iter().map(|o| o.file_name.as_str().to_string()).collect()
}

type Parts = (Vec<(String, Vec<(i64, i64)>, i64, i64)>, Vec<String>, Option<String>);

fn to_parts(db: &Db) -> Parts {
    (
        db.polygons
            .iter()
            .map(|o| {
                (
                    o.file_name.as_str().to_string(),
                    o.polygon.verteces.iter().map(|v| (v.x, v.y)).collect(),
                    o.polygon.width,
                    o.polygon.height,
                )
            })
            .collect(),
        db.levels.iter().map(|l| l.as_str().to_string()).collect(),
        db.tag.clone(),
    )
}

fn from_parts(parts: Parts) -> Option<Db> {
    let (records, levels, tag) = parts;
    let polygons = records
        .into_iter()
        .map(|(name, vs, width, height)| SerPolygonOwner {
            file_name: LevelFileName::from_str(&name),
            polygon: SerPolygon {
                verteces: vs.into_iter().map(|(x, y)| SerVertex { x, y }).collect(),
                width,
                height,
            },
        })
        .collect();
    let levels = levels.iter().map(|l| LevelFileName::from_str(l)).collect();
    Db::from_parts(polygons, levels, tag)
}

#[test]
fn new_store_is_empty() {
    let db = Db::new();
    assert!(db.polygons.is_empty());
    assert!(db.levels.is_empty());
    assert!(db.tag.is_none());
}

#[test]
fn directory_with_one_corrupt_level() {
    let mut db = Db::new();
    let mut failed = Vec::new();
    db.ingest_level("one.lev", Some(&level(2)), &mut failed);
    db.ingest_level("bad.lev", None, &mut failed);
    db.ingest_level("two.lev", Some(&level(3)), &mut failed);
    assert_eq!(db.polygons.len(), 5);
    assert_eq!(db.levels.len(), 3);
    assert_eq!(failed.len(), 1);
    assert_eq!(failed[0].as_str(), "bad.lev");
    assert_eq!(source_names(&db), vec!["bad.lev", "one.lev", "two.lev"]);
    assert_eq!(record_sources(&db), vec!["one.lev", "one.lev", "two.lev", "two.lev", "two.lev"]);
}

#[test]
fn level_without_polygons_is_still_ingested() {
    let mut db = Db::new();
    let mut failed = Vec::new();
    db.ingest_level("empty.lev", Some(&level(0)), &mut failed);
    assert!(db.polygons.is_empty());
    assert_eq!(source_names(&db), vec!["empty.lev"]);
    assert!(failed.is_empty());
}

#[test]
fn ingesting_a_level_twice_keeps_one_identifier() {
    let mut db = Db::new();
    let mut failed = Vec::new();
    db.ingest_level("a.lev", Some(&level(1)), &mut failed);
    db.ingest_level("a.lev", Some(&level(1)), &mut failed);
    assert_eq!(db.levels.len(), 1);
    assert_eq!(db.polygons.len(), 2);
}

#[test]
fn merge_keeps_receiver_records_on_shared_source() {
    let mut a = store(&[("a.lev", 1), ("b.lev", 2)]);
    let mut b = store(&[("b.lev", 3), ("c.lev", 1)]);
    b.combine(&mut a);
    assert_eq!(source_names(&b), vec!["a.lev", "b.lev", "c.lev"]);
    // B's three "b.lev" records stay, A's two are dropped.
    assert_eq!(record_sources(&b).iter().filter(|s| *s == "b.lev").count(), 3);
    assert_eq!(record_sources(&b), vec!["b.lev", "b.lev", "b.lev", "c.lev", "a.lev"]);
    assert!(a.polygons.is_empty());
}

#[test]
fn merge_into_copy_changes_nothing() {
    let mut a = store(&[("a.lev", 2), ("b.lev", 1)]);
    let mut copy = store(&[("a.lev", 2), ("b.lev", 1)]);
    let before = to_parts(&a);
    a.combine(&mut copy);
    assert_eq!(to_parts(&a), before);
}

#[test]
fn merge_with_shared_sources_counts_union() {
    let mut a = store(&[("s1.lev", 1), ("s2.lev", 2), ("a.lev", 1)]);
    let mut b = store(&[("s1.lev", 2), ("s2.lev", 1), ("b.lev", 3), ("c.lev", 1)]);
    a.combine(&mut b);
    assert_eq!(a.levels.len(), 5);
    assert_eq!(record_sources(&a).iter().filter(|s| *s == "s1.lev").count(), 1);
    assert_eq!(record_sources(&a).iter().filter(|s| *s == "s2.lev").count(), 2);
    assert_eq!(a.polygons.len(), 4 + 4);
}

#[test]
fn merge_brings_sources_without_records() {
    let mut a = store(&[("a.lev", 1)]);
    let mut b = store(&[("empty.lev", 0)]);
    a.combine(&mut b);
    assert_eq!(source_names(&a), vec!["a.lev", "empty.lev"]);
    assert_eq!(a.polygons.len(), 1);
}

#[test]
fn sort_orders_by_area() {
    let mut db = store(&[("x.lev", 3), ("y.lev", 1), ("z.lev", 2)]);
    db.sort_by_area();
    let areas: Vec<u128> = db.polygons.iter().map(|o| o.polygon.area()).collect();
    assert_eq!(areas, vec![4, 4, 4, 12, 12, 24]);
    assert_eq!(db.levels.len(), 3);
}

#[test]
fn persisted_store_round_trips() {
    let mut db = store(&[("a.lev", 2), ("b.lev", 1), ("empty.lev", 0)]);
    db.tag = Some("tagged".to_string());
    let bytes = bincode::serialize(&to_parts(&db)).unwrap();
    let parts: Parts = bincode::deserialize(&bytes).unwrap();
    let back = from_parts(parts).unwrap();
    assert_eq!(to_parts(&back), to_parts(&db));
    assert_eq!(back.tag.as_deref(), Some("tagged"));
}

#[test]
fn empty_store_round_trips() {
    let db = Db::new();
    let bytes = bincode::serialize(&to_parts(&db)).unwrap();
    let parts: Parts = bincode::deserialize(&bytes).unwrap();
    let back = from_parts(parts).unwrap();
    assert!(back.polygons.is_empty() && back.levels.is_empty() && back.tag.is_none());
}

#[test]
fn parts_with_repeated_identifier_are_refused() {
    let (records, mut levels, tag) = to_parts(&store(&[("a.lev", 1)]));
    levels.push("a.lev".to_string());
    assert!(from_parts((records, levels, tag)).is_none());
}

#[test]
fn parts_with_unknown_source_are_refused() {
    let (records, _, tag) = to_parts(&store(&[("a.lev", 1)]));
    assert!(from_parts((records, vec!["b.lev".to_string()], tag)).is_none());
}

#[test]
fn parts_with_oversized_polygon_are_refused() {
    let (mut records, levels, tag) = to_parts(&store(&[("a.lev", 1)]));
    records[0].2 = -1;
    assert!(from_parts((records, levels, tag)).is_none());
    let (mut records, levels, tag) = to_parts(&store(&[("a.lev", 1)]));
    records[0].1[0].0 = i64::MAX;
    assert!(from_parts((records, levels, tag)).is_none());
}
