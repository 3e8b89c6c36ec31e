use crate::db::Db;
use crate::lfn::LevelFileName;
use crate::se::{shifted, LevelGeometry, RecordModel, Shape, RECORD_LIMIT};
use vstd::prelude::*;
use vstd::string::*;

verus! {

/// The most polygons that one generated level holds.
pub const MAX_PLACED: usize = 1_000_000;

/// Why a level could not be generated.
#[derive(Clone, Copy, Debug, PartialEq, Eq, Structural)]
pub enum GenerateError {
    /// The store holds no polygon to sample from.
    EmptyStore,
}

/// A newly assembled level, and for each of its polygons, in order, the
/// identifier of the level it came from.
pub struct GeneratedLevel {
    pub level: LevelGeometry,
    pub source_levels: Vec<LevelFileName>,
}

/// The indices of the records to place: the anchor, then the others in order.
pub open spec fn placement(anchor: usize, others: Seq<usize>) -> Seq<int> {
    seq![anchor as int] + others.map_values(|i: usize| i as int)
}

/// The x offset at which the `i`-th placed polygon stands: the sum of the
/// widths of the polygons placed before it.
pub open spec fn offset_of(records: Seq<RecordModel>, plan: Seq<int>, i: int) -> int
    decreases i,
{
    if i <= 0 {
        0
    } else {
        offset_of(records, plan, i - 1) + records[plan[i - 1]].1.1
    }
}

/// `g` holds, for each index of `plan` in order, the polygon of that record
/// moved right by the widths of those placed before it, and its source.
pub open spec fn laid_out(g: GeneratedLevel, records: Seq<RecordModel>, plan: Seq<int>) -> bool {
    &&& g.level.polygons@.len() == plan.len()
    &&& g.source_levels@.len() == plan.len()
    &&& forall|i: int|
        #![trigger g.level.polygons@[i]]
        0 <= i < plan.len() ==> g.level.polygons@[i].vertices@ == shifted(
            records[plan[i]].1.0,
            offset_of(records, plan, i),
            0,
        ) && !g.level.polygons@[i].grass && g.source_levels@[i]@ == records[plan[i]].0
}

/// The text that follows a level's path in the name of its metadata file.
pub open spec fn meta_suffix() -> Seq<char> {
    seq!['.', 'm', 'e', 't', 'a', '.', 'j', 's', 'o', 'n']
}

impl GeneratedLevel {
    /// Assembles a level from the records of `db`: the record `anchor` at x
    /// offset 0, then the records `others` in order, each placed right of the
    /// one before it with no gap. Fails exactly when `db` holds no record.
    pub fn generate(db: &Db, anchor: usize, others: &Vec<usize>) -> (r: Result<
        GeneratedLevel,
        GenerateError,
    >)
        requires
            db.wf(),
            others@.len() < MAX_PLACED,
            db.polygons@.len() > 0 ==> anchor < db.polygons@.len(),
            db.polygons@.len() > 0 ==> forall|i: int|
                0 <= i < others@.len() ==> #[trigger] others@[i] < db.polygons@.len(),
        ensures
            r is Err <==> db@.records.len() == 0,
            r matches Err(e) ==> e == GenerateError::EmptyStore,
            r matches Ok(g) ==> g.level.polygons@.len() == others@.len() + 1 && laid_out(
                g,
                db@.records,
                placement(anchor, others@),
            ),
    {
        if db.polygons.len() == 0 {
            return Err(GenerateError::EmptyStore);
        }
        let ghost records = db@.records;
        let ghost plan = placement(anchor, others@);
        let mut polygons: Vec<Shape> = Vec::new();
        let mut source_levels: Vec<LevelFileName> = Vec::new();
        let mut x: i64 = 0;
        let mut i: usize = 0;
        while i <= others.len()
            invariant
                db.wf(),
                records == db@.records,
                plan == placement(anchor, others@),
                plan.len() == others@.len() + 1,
                others@.len() < MAX_PLACED,
                anchor < db.polygons@.len(),
                forall|k: int| 0 <= k < others@.len() ==> #[trigger] others@[k] < db.polygons@.len(),
                i <= others@.len() + 1,
                x == offset_of(records, plan, i as int),
                0 <= x <= i * RECORD_LIMIT,
                polygons@.len() == i,
                source_levels@.len() == i,
                forall|k: int|
                    #![trigger polygons@[k]]
                    0 <= k < i ==> polygons@[k].vertices@ == shifted(
                        records[plan[k]].1.0,
                        offset_of(records, plan, k),
                        0,
                    ) && !polygons@[k].grass && source_levels@[k]@ == records[plan[k]].0,
            decreases others@.len() + 1 - i,
        {
            let idx = if i == 0 {
                anchor
            } else {
                others[i - 1]
            };
            assert(plan[i as int] == idx);
            let p = &db.polygons[idx];
            proof {
                assert(records[idx as int] == p@);
                assert(crate::se::polygon_fits(p.polygon@));
                assert forall|k: int| 0 <= k < p.polygon.verteces@.len() implies i64::MIN
                    <= #[trigger] p.polygon.verteces@[k].x + x <= i64::MAX && i64::MIN
                    <= p.polygon.verteces@[k].y + 0 <= i64::MAX by {
                    assert(-RECORD_LIMIT <= p.polygon.verteces@[k].x <= RECORD_LIMIT);
                    assert(i * RECORD_LIMIT <= MAX_PLACED * RECORD_LIMIT);
                }
            }
            let shape = p.polygon.to_polygon_translate(x, 0);
            let ghost before_polygons = polygons@;
            let ghost before_sources = source_levels@;
            polygons.push(shape);
            source_levels.push(p.file_name);
            proof {
                assert(i * RECORD_LIMIT <= MAX_PLACED * RECORD_LIMIT);
                assert forall|k: int| #![trigger polygons@[k]] 0 <= k < i + 1 implies polygons@[k].vertices@
                    == shifted(records[plan[k]].1.0, offset_of(records, plan, k), 0)
                    && !polygons@[k].grass && source_levels@[k]@ == records[plan[k]].0 by {
                    if k < i {
                        assert(polygons@[k] == before_polygons[k]);
                        assert(source_levels@[k] == before_sources[k]);
                    }
                }
            }
            x = x + p.polygon.width;
            i = i + 1;
        }
        let g = GeneratedLevel { level: LevelGeometry { polygons }, source_levels };
        assert(laid_out(g, records, plan));
        Ok(g)
    }

    /// The path of the metadata file that goes with the level written to `to`.
    pub fn meta_file_name(to: &str) -> (r: String)
        ensures
            r@ == to@ + meta_suffix(),
    {
        proof {
            reveal_strlit(".meta.json");
        }
        let r = String::from_str(to).concat(".meta.json");
        assert(".meta.json"@ =~= meta_suffix());
        r
    }
}

} // verus!
