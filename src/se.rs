use crate::lfn::LevelFileName;
use vstd::prelude::*;

verus! {

/// Bound on the magnitude of each coordinate of a level that is read in.
pub const COORD_LIMIT: i64 = 1_099_511_627_776;

/// Bound on the magnitude of each coordinate of a stored polygon, and on its
/// width and height: twice `COORD_LIMIT`.
pub const RECORD_LIMIT: i64 = 2_199_023_255_552;

/// A point of a polygon, in fixed-point units.
#[derive(Copy, Clone, Debug, PartialEq, Eq, Structural)]
pub struct SerVertex {
    pub x: i64,
    pub y: i64,
}

/// A boundary shape of a level: its vertices in order, and whether it is grass
/// (terrain).
#[derive(Clone, Debug)]
pub struct Shape {
    pub vertices: Vec<SerVertex>,
    pub grass: bool,
}

/// The geometry of a level: its boundary shapes in order.
#[derive(Clone, Debug)]
pub struct LevelGeometry {
    pub polygons: Vec<Shape>,
}

/// A polygon of the store: its vertices, and the width and height of the
/// bounding box of the coordinates it was built from.
#[derive(Clone, Debug)]
pub struct SerPolygon {
    pub verteces: Vec<SerVertex>,
    pub width: i64,
    pub height: i64,
}

/// A polygon together with the identifier of the level it came from.
#[derive(Clone, Debug)]
pub struct SerPolygonOwner {
    pub file_name: LevelFileName,
    pub polygon: SerPolygon,
}

/// A polygon as vertices, width and height.
pub type PolygonModel = (Seq<SerVertex>, int, int);

/// A record as source identifier and polygon.
pub type RecordModel = (Seq<u8>, PolygonModel);

impl View for SerPolygon {
    type V = PolygonModel;

    open spec fn view(&self) -> PolygonModel {
        (self.verteces@, self.width as int, self.height as int)
    }
}

impl View for SerPolygonOwner {
    type V = RecordModel;

    open spec fn view(&self) -> RecordModel {
        (self.file_name@, self.polygon@)
    }
}

/// The x coordinates of `vs`, in order.
pub open spec fn xs(vs: Seq<SerVertex>) -> Seq<int> {
    vs.map_values(|v: SerVertex| v.x as int)
}

/// The y coordinates of `vs`, in order.
pub open spec fn ys(vs: Seq<SerVertex>) -> Seq<int> {
    vs.map_values(|v: SerVertex| v.y as int)
}

/// The least value of `s` (0 when `s` is empty).
pub open spec fn seq_min(s: Seq<int>) -> int
    decreases s.len(),
{
    if s.len() == 0 {
        0
    } else if s.len() == 1 {
        s[0]
    } else if s.last() < seq_min(s.drop_last()) {
        s.last()
    } else {
        seq_min(s.drop_last())
    }
}

/// The greatest value of `s` (0 when `s` is empty).
pub open spec fn seq_max(s: Seq<int>) -> int
    decreases s.len(),
{
    if s.len() == 0 {
        0
    } else if s.len() == 1 {
        s[0]
    } else if s.last() > seq_max(s.drop_last()) {
        s.last()
    } else {
        seq_max(s.drop_last())
    }
}

/// The size of the smallest interval that holds every value of `s`.
pub open spec fn extent(s: Seq<int>) -> int {
    seq_max(s) - seq_min(s)
}

/// Every coordinate of `vs` lies within `[-b, b]`.
pub open spec fn within(vs: Seq<SerVertex>, b: int) -> bool {
    forall|i: int|
        0 <= i < vs.len() ==> -b <= #[trigger] vs[i].x <= b && -b <= vs[i].y <= b
}

/// `vs` moved by `(dx, dy)`.
pub open spec fn shifted(vs: Seq<SerVertex>, dx: int, dy: int) -> Seq<SerVertex> {
    vs.map_values(|v: SerVertex| SerVertex { x: (v.x + dx) as i64, y: (v.y + dy) as i64 })
}

/// The polygon that extraction makes of the vertices `vs`: moved so that their
/// least x and least y are 0, with the width and height of their bounding box.
pub open spec fn extract(vs: Seq<SerVertex>) -> PolygonModel {
    (
        shifted(vs, -seq_min(xs(vs)), -seq_min(ys(vs))),
        extent(xs(vs)),
        extent(ys(vs)),
    )
}

/// The polygons that extraction makes of a level's shapes: one for each shape
/// that is not grass, in order.
pub open spec fn extracted(shapes: Seq<Shape>) -> Seq<PolygonModel>
    decreases shapes.len(),
{
    if shapes.len() == 0 {
        Seq::empty()
    } else if shapes.last().grass {
        extracted(shapes.drop_last())
    } else {
        extracted(shapes.drop_last()).push(extract(shapes.last().vertices@))
    }
}

/// Every shape of a level has its coordinates within `COORD_LIMIT`.
pub open spec fn shapes_within(shapes: Seq<Shape>) -> bool {
    forall|i: int| 0 <= i < shapes.len() ==> within(#[trigger] shapes[i].vertices@, COORD_LIMIT as int)
}

/// A stored polygon's coordinates, width and height are within `RECORD_LIMIT`,
/// and its width and height are not negative.
pub open spec fn polygon_fits(p: PolygonModel) -> bool {
    &&& within(p.0, RECORD_LIMIT as int)
    &&& 0 <= p.1 <= RECORD_LIMIT
    &&& 0 <= p.2 <= RECORD_LIMIT
}

proof fn lemma_within_coords(vs: Seq<SerVertex>, b: int)
    requires
        within(vs, b),
    ensures
        forall|i: int| 0 <= i < vs.len() ==> -b <= #[trigger] xs(vs)[i] <= b,
        forall|i: int| 0 <= i < vs.len() ==> -b <= #[trigger] ys(vs)[i] <= b,
{
    assert forall|i: int| 0 <= i < vs.len() implies -b <= #[trigger] ys(vs)[i] <= b by {
        assert(-b <= vs[i].x <= b);
    }
}

proof fn lemma_min_max_bounds(s: Seq<int>)
    ensures
        forall|i: int| 0 <= i < s.len() ==> seq_min(s) <= #[trigger] s[i] <= seq_max(s),
        s.len() > 0 ==> exists|i: int| 0 <= i < s.len() && s[i] == seq_min(s),
        s.len() > 0 ==> exists|i: int| 0 <= i < s.len() && s[i] == seq_max(s),
    decreases s.len(),
{
    if s.len() > 1 {
        let t = s.drop_last();
        lemma_min_max_bounds(t);
        assert forall|i: int| 0 <= i < s.len() implies seq_min(s) <= #[trigger] s[i] <= seq_max(
            s,
        ) by {
            if i < t.len() {
                assert(s[i] == t[i]);
            }
        }
        if s.last() >= seq_min(t) {
            let j = choose|j: int| 0 <= j < t.len() && t[j] == seq_min(t);
            assert(s[j] == seq_min(s));
        } else {
            assert(s[s.len() - 1] == seq_min(s));
        }
        if s.last() <= seq_max(t) {
            let j = choose|j: int| 0 <= j < t.len() && t[j] == seq_max(t);
            assert(s[j] == seq_max(s));
        } else {
            assert(s[s.len() - 1] == seq_max(s));
        }
    } else if s.len() == 1 {
        assert(s[0] == seq_min(s));
    }
}

/// The least and greatest value of values within `[-b, b]` lie there too, and so
/// their extent lies within `[0, 2b]`.
proof fn lemma_min_max_within(s: Seq<int>, b: int)
    requires
        b >= 0,
        forall|i: int| 0 <= i < s.len() ==> -b <= #[trigger] s[i] <= b,
    ensures
        -b <= seq_min(s) <= seq_max(s) <= b,
        0 <= extent(s) <= 2 * b,
{
    lemma_min_max_bounds(s);
    if s.len() > 0 {
        let i = choose|i: int| 0 <= i < s.len() && s[i] == seq_min(s);
        let j = choose|j: int| 0 <= j < s.len() && s[j] == seq_max(s);
        assert(seq_min(s) <= s[j]);
    }
}

/// Moving every value by `d` moves the least value by `d`.
proof fn lemma_min_shift(s: Seq<int>, d: int)
    ensures
        seq_min(s.map_values(|a: int| a + d)) == if s.len() == 0 {
            0
        } else {
            seq_min(s) + d
        },
    decreases s.len(),
{
    let m = s.map_values(|a: int| a + d);
    if s.len() > 1 {
        assert(m.drop_last() =~= s.drop_last().map_values(|a: int| a + d));
        lemma_min_shift(s.drop_last(), d);
    }
}

proof fn lemma_shifted_coords(vs: Seq<SerVertex>, dx: int, dy: int)
    requires
        forall|i: int|
            0 <= i < vs.len() ==> i64::MIN <= #[trigger] vs[i].x + dx <= i64::MAX && i64::MIN
                <= vs[i].y + dy <= i64::MAX,
    ensures
        xs(shifted(vs, dx, dy)) == xs(vs).map_values(|a: int| a + dx),
        ys(shifted(vs, dx, dy)) == ys(vs).map_values(|a: int| a + dy),
{
    assert(xs(shifted(vs, dx, dy)) =~= xs(vs).map_values(|a: int| a + dx));
    assert(ys(shifted(vs, dx, dy)) =~= ys(vs).map_values(|a: int| a + dy));
}

/// What extraction makes of coordinates within `COORD_LIMIT`: a polygon whose
/// least x and least y are 0, whose width and height are those of the bounding
/// box of the coordinates it was given, and which fits in the store.
pub proof fn lemma_extract_normalized(vs: Seq<SerVertex>)
    requires
        within(vs, COORD_LIMIT as int),
    ensures
        vs.len() > 0 ==> seq_min(xs(extract(vs).0)) == 0,
        vs.len() > 0 ==> seq_min(ys(extract(vs).0)) == 0,
        extract(vs).1 == seq_max(xs(vs)) - seq_min(xs(vs)),
        extract(vs).2 == seq_max(ys(vs)) - seq_min(ys(vs)),
        polygon_fits(extract(vs)),
{
    let mx = seq_min(xs(vs));
    let my = seq_min(ys(vs));
    lemma_within_coords(vs, COORD_LIMIT as int);
    lemma_min_max_within(xs(vs), COORD_LIMIT as int);
    lemma_min_max_within(ys(vs), COORD_LIMIT as int);
    lemma_min_max_bounds(xs(vs));
    lemma_min_max_bounds(ys(vs));
    assert forall|i: int| 0 <= i < vs.len() implies i64::MIN <= #[trigger] vs[i].x + -mx
        <= i64::MAX && i64::MIN <= vs[i].y + -my <= i64::MAX && 0 <= vs[i].x - mx
        <= RECORD_LIMIT && 0 <= vs[i].y - my <= RECORD_LIMIT by {
        assert(xs(vs)[i] == vs[i].x);
        assert(ys(vs)[i] == vs[i].y);
    }
    lemma_shifted_coords(vs, -mx, -my);
    lemma_min_shift(xs(vs), -mx);
    lemma_min_shift(ys(vs), -my);
}

impl SerVertex {
    /// This vertex moved by `(x, y)`.
    pub fn to_vertex_translate(&self, x: i64, y: i64) -> (r: SerVertex)
        requires
            i64::MIN <= self.x + x <= i64::MAX,
            i64::MIN <= self.y + y <= i64::MAX,
        ensures
            r.x == self.x + x,
            r.y == self.y + y,
    {
        SerVertex { x: self.x + x, y: self.y + y }
    }
}

impl SerPolygon {
    /// A polygon with the vertices of `polygon`, in order, and the width and
    /// height of their bounding box.
    pub fn from_polygon(polygon: &Vec<SerVertex>) -> (r: SerPolygon)
        requires
            within(polygon@, COORD_LIMIT as int),
        ensures
            r@ == (polygon@, extent(xs(polygon@)), extent(ys(polygon@))),
    {
        let ghost vs = polygon@;
        let mut verteces: Vec<SerVertex> = Vec::new();
        if polygon.len() == 0 {
            return SerPolygon { verteces, width: 0, height: 0 };
        }
        let mut min_x = polygon[0].x;
        let mut max_x = polygon[0].x;
        let mut min_y = polygon[0].y;
        let mut max_y = polygon[0].y;
        let mut i: usize = 0;
        while i < polygon.len()
            invariant
                vs == polygon@,
                vs.len() > 0,
                i <= vs.len(),
                within(vs, COORD_LIMIT as int),
                verteces@ == vs.take(i as int),
                i == 0 ==> min_x == vs[0].x && max_x == vs[0].x && min_y == vs[0].y && max_y
                    == vs[0].y,
                i > 0 ==> min_x == seq_min(xs(vs.take(i as int))) && max_x == seq_max(
                    xs(vs.take(i as int)),
                ) && min_y == seq_min(ys(vs.take(i as int))) && max_y == seq_max(
                    ys(vs.take(i as int)),
                ),
            decreases vs.len() - i,
        {
            let v = polygon[i];
            if v.x < min_x {
                min_x = v.x;
            }
            if v.x > max_x {
                max_x = v.x;
            }
            if v.y < min_y {
                min_y = v.y;
            }
            if v.y > max_y {
                max_y = v.y;
            }
            verteces.push(v);
            proof {
                let t = vs.take(i + 1);
                assert(t.drop_last() =~= vs.take(i as int));
                assert(xs(t).drop_last() =~= xs(vs.take(i as int)));
                assert(ys(t).drop_last() =~= ys(vs.take(i as int)));
                assert(xs(t).last() == v.x);
                assert(ys(t).last() == v.y);
            }
            i = i + 1;
        }
        proof {
            assert(vs.take(vs.len() as int) =~= vs);
            lemma_within_coords(vs, COORD_LIMIT as int);
            lemma_min_max_within(xs(vs), COORD_LIMIT as int);
            lemma_min_max_within(ys(vs), COORD_LIMIT as int);
        }
        SerPolygon { verteces, width: max_x - min_x, height: max_y - min_y }
    }

    /// Moves the vertices so that their least x and least y are 0; width and
    /// height stay as they were.
    pub fn normalize(&mut self)
        requires
            within(old(self).verteces@, COORD_LIMIT as int),
        ensures
            final(self)@ == (
                shifted(
                    old(self).verteces@,
                    -seq_min(xs(old(self).verteces@)),
                    -seq_min(ys(old(self).verteces@)),
                ),
                old(self).width as int,
                old(self).height as int,
            ),
    {
        let ghost vs = self.verteces@;
        let n = self.verteces.len();
        if n == 0 {
            assert(shifted(vs, 0, 0) =~= vs);
            return;
        }
        let mut min_x = self.verteces[0].x;
        let mut min_y = self.verteces[0].y;
        let mut i: usize = 1;
        proof {
            assert(vs.take(1).drop_last() =~= Seq::<SerVertex>::empty());
        }
        while i < n
            invariant
                vs == self.verteces@,
                n == vs.len(),
                1 <= i <= n,
                min_x == seq_min(xs(vs.take(i as int))),
                min_y == seq_min(ys(vs.take(i as int))),
            decreases n - i,
        {
            let v = self.verteces[i];
            if v.x < min_x {
                min_x = v.x;
            }
            if v.y < min_y {
                min_y = v.y;
            }
            proof {
                let t = vs.take(i + 1);
                assert(xs(t).drop_last() =~= xs(vs.take(i as int)));
                assert(ys(t).drop_last() =~= ys(vs.take(i as int)));
                assert(xs(t).last() == v.x);
                assert(ys(t).last() == v.y);
            }
            i = i + 1;
        }
        proof {
            assert(vs.take(n as int) =~= vs);
            lemma_within_coords(vs, COORD_LIMIT as int);
            lemma_min_max_within(xs(vs), COORD_LIMIT as int);
            lemma_min_max_within(ys(vs), COORD_LIMIT as int);
        }
        let mut j: usize = 0;
        while j < n
            invariant
                n == vs.len(),
                j <= n,
                self.verteces@.len() == n,
                within(vs, COORD_LIMIT as int),
                -COORD_LIMIT <= min_x <= COORD_LIMIT,
                -COORD_LIMIT <= min_y <= COORD_LIMIT,
                self.width == old(self).width,
                self.height == old(self).height,
                forall|k: int| 0 <= k < j ==> self.verteces@[k] == shifted(vs, -min_x, -min_y)[k],
                forall|k: int| j <= k < n ==> self.verteces@[k] == vs[k],
            decreases n - j,
        {
            let v = self.verteces[j];
            assert(-COORD_LIMIT <= vs[j as int].x <= COORD_LIMIT);
            self.verteces[j] = SerVertex { x: v.x - min_x, y: v.y - min_y };
            j = j + 1;
        }
        assert(self.verteces@ =~= shifted(vs, -min_x, -min_y));
    }

    /// Moves every vertex by `(x, y)`.
    pub fn translate(&mut self, x: i64, y: i64)
        requires
            within(old(self).verteces@, RECORD_LIMIT as int),
            -RECORD_LIMIT <= x <= RECORD_LIMIT,
            -RECORD_LIMIT <= y <= RECORD_LIMIT,
        ensures
            final(self)@ == (
                shifted(old(self).verteces@, x as int, y as int),
                old(self).width as int,
                old(self).height as int,
            ),
    {
        let ghost vs = self.verteces@;
        let n = self.verteces.len();
        let mut j: usize = 0;
        while j < n
            invariant
                n == vs.len(),
                j <= n,
                self.verteces@.len() == n,
                within(vs, RECORD_LIMIT as int),
                -RECORD_LIMIT <= x <= RECORD_LIMIT,
                -RECORD_LIMIT <= y <= RECORD_LIMIT,
                self.width == old(self).width,
                self.height == old(self).height,
                forall|k: int| 0 <= k < j ==> self.verteces@[k] == shifted(vs, x as int, y as int)[k],
                forall|k: int| j <= k < n ==> self.verteces@[k] == vs[k],
            decreases n - j,
        {
            let v = self.verteces[j];
            assert(-RECORD_LIMIT <= vs[j as int].x <= RECORD_LIMIT);
            self.verteces[j] = v.to_vertex_translate(x, y);
            j = j + 1;
        }
        assert(self.verteces@ =~= shifted(vs, x as int, y as int));
    }

    /// A grass-free shape with the vertices of this polygon moved by `(x, y)`;
    /// the polygon itself is left as it is.
    pub fn to_polygon_translate(&self, x: i64, y: i64) -> (r: Shape)
        requires
            forall|i: int|
                0 <= i < self.verteces@.len() ==> i64::MIN <= #[trigger] self.verteces@[i].x + x
                    <= i64::MAX && i64::MIN <= self.verteces@[i].y + y <= i64::MAX,
        ensures
            r.vertices@ == shifted(self.verteces@, x as int, y as int),
            !r.grass,
    {
        let ghost vs = self.verteces@;
        let mut vertices: Vec<SerVertex> = Vec::new();
        let mut j: usize = 0;
        while j < self.verteces.len()
            invariant
                vs == self.verteces@,
                j <= vs.len(),
                vertices@ == shifted(vs, x as int, y as int).take(j as int),
                forall|i: int|
                    0 <= i < vs.len() ==> i64::MIN <= #[trigger] vs[i].x + x <= i64::MAX
                        && i64::MIN <= vs[i].y + y <= i64::MAX,
            decreases vs.len() - j,
        {
            vertices.push(self.verteces[j].to_vertex_translate(x, y));
            assert(vertices@ =~= shifted(vs, x as int, y as int).take(j + 1));
            j = j + 1;
        }
        assert(vertices@ =~= shifted(vs, x as int, y as int));
        Shape { vertices, grass: false }
    }

    /// Whether this polygon fits in the store.
    pub fn fits(&self) -> (r: bool)
        ensures
            r == polygon_fits(self@),
    {
            if self.width < 0 || self.width > RECORD_LIMIT || self.height < 0 || self.height
            > RECORD_LIMIT {
            return false;
        }
        let mut i: usize = 0;
        while i < self.verteces.len()
            invariant
                i <= self.verteces@.len(),
                within(self.verteces@.take(i as int), RECORD_LIMIT as int),
            decreases self.verteces@.len() - i,
        {
            let v = self.verteces[i];
            if v.x < -RECORD_LIMIT || v.x > RECORD_LIMIT || v.y < -RECORD_LIMIT || v.y > RECORD_LIMIT {
                assert(!within(self.verteces@, RECORD_LIMIT as int)) by {
                    assert(self.verteces@[i as int] == v);
                }
                return false;
            }
            assert(within(self.verteces@.take(i + 1), RECORD_LIMIT as int)) by {
                assert forall|k: int| 0 <= k < i + 1 implies -RECORD_LIMIT <= #[trigger] self.verteces@.take(i + 1)[k].x <= RECORD_LIMIT && -RECORD_LIMIT <= self.verteces@.take(i + 1)[k].y <= RECORD_LIMIT by {
                    if k < i {
                        assert(self.verteces@.take(i + 1)[k] == self.verteces@.take(i as int)[k]);
                    }
                }
            }
            i = i + 1;
        }
        assert(self.verteces@.take(self.verteces@.len() as int) =~= self.verteces@);
        true
    }

    /// The width times the height of the bounding box.
    pub fn area(&self) -> (r: u128)
        requires
            0 <= self.width <= RECORD_LIMIT,
            0 <= self.height <= RECORD_LIMIT,
        ensures
            r == self.width * self.height,
    {
        assert(0 <= self.width * self.height <= RECORD_LIMIT * RECORD_LIMIT) by (nonlinear_arith)
            requires
                0 <= self.width <= RECORD_LIMIT,
                0 <= self.height <= RECORD_LIMIT,
        ;
        (self.width as u128) * (self.height as u128)
    }

    /// The polygon that extraction makes of one shape.
    fn from_shape(shape: &Shape) -> (r: SerPolygon)
        requires
            within(shape.vertices@, COORD_LIMIT as int),
        ensures
            r@ == extract(shape.vertices@),
    {
        let mut p = SerPolygon::from_polygon(&shape.vertices);
        p.normalize();
        p
    }

    /// The polygons of a level's shapes that are not grass, in order, each
    /// normalized, with the width and height of its bounding box before normalizing.
    pub fn from_lev(level: &LevelGeometry) -> (r: Vec<SerPolygon>)
        requires
            shapes_within(level.polygons@),
        ensures
            r@.map_values(|p: SerPolygon| p@) == extracted(level.polygons@),
    {
        let ghost shapes = level.polygons@;
        let mut polygons: Vec<SerPolygon> = Vec::new();
        let mut i: usize = 0;
        while i < level.polygons.len()
            invariant
                shapes == level.polygons@,
                i <= shapes.len(),
                shapes_within(shapes),
                polygons@.map_values(|p: SerPolygon| p@) == extracted(shapes.take(i as int)),
            decreases shapes.len() - i,
        {
            let shape = &level.polygons[i];
            assert(shapes.take(i + 1).drop_last() =~= shapes.take(i as int));
            if !shape.grass {
                let p = SerPolygon::from_shape(shape);
                polygons.push(p);
                assert(polygons@.map_values(|p: SerPolygon| p@) =~= extracted(
                    shapes.take(i as int),
                ).push(p@));
            }
            i = i + 1;
        }
        assert(shapes.take(shapes.len() as int) =~= shapes);
        polygons
    }
}

/// Every polygon that extraction makes of shapes within `COORD_LIMIT` fits in
/// the store.
pub proof fn lemma_extracted_fit(shapes: Seq<Shape>)
    requires
        shapes_within(shapes),
    ensures
        forall|i: int| 0 <= i < extracted(shapes).len() ==> polygon_fits(#[trigger] extracted(shapes)[i]),
    decreases shapes.len(),
{
    if shapes.len() > 0 {
        let t = shapes.drop_last();
        assert(shapes_within(t)) by {
            assert forall|i: int| 0 <= i < t.len() implies within(#[trigger] t[i].vertices@, COORD_LIMIT as int) by {
                assert(t[i] == shapes[i]);
            }
        }
        lemma_extracted_fit(t);
        assert(within(shapes[shapes.len() - 1].vertices@, COORD_LIMIT as int));
        lemma_extract_normalized(shapes.last().vertices@);
        let e = extracted(shapes);
        let et = extracted(t);
        assert forall|i: int| 0 <= i < e.len() implies polygon_fits(#[trigger] e[i]) by {
            if i < et.len() {
                assert(e[i] == et[i]);
            }
        }
    }
}

/// The models of a sequence of records.
pub open spec fn records_of(s: Seq<SerPolygonOwner>) -> Seq<RecordModel> {
    s.map_values(|o: SerPolygonOwner| o@)
}

pub proof fn lemma_records_push(s: Seq<SerPolygonOwner>, o: SerPolygonOwner)
    ensures
        records_of(s.push(o)) == records_of(s).push(o@),
{
    assert(records_of(s.push(o)) =~= records_of(s).push(o@));
}

proof fn lemma_tagged_push(name: Seq<u8>, ps: Seq<PolygonModel>, p: PolygonModel)
    ensures
        tagged(name, ps.push(p)) == tagged(name, ps).push((name, p)),
{
    assert(tagged(name, ps.push(p)) =~= tagged(name, ps).push((name, p)));
}

/// The records that a level's shapes give when tagged with the source `name`.
pub open spec fn tagged(name: Seq<u8>, polygons: Seq<PolygonModel>) -> Seq<RecordModel> {
    polygons.map_values(|p: PolygonModel| (name, p))
}

impl SerPolygonOwner {
    /// The polygons of a level's shapes that are not grass, as by
    /// `SerPolygon::from_lev`, each tagged with `file_name`.
    pub fn from_level(file_name: LevelFileName, level: &LevelGeometry) -> (r: Vec<SerPolygonOwner>)
        requires
            shapes_within(level.polygons@),
        ensures
            records_of(r@) == tagged(
                file_name@,
                extracted(level.polygons@),
            ),
    {
        let ghost shapes = level.polygons@;
        let mut owners: Vec<SerPolygonOwner> = Vec::new();
        let mut i: usize = 0;
        while i < level.polygons.len()
            invariant
                shapes == level.polygons@,
                i <= shapes.len(),
                shapes_within(shapes),
                records_of(owners@) == tagged(
                    file_name@,
                    extracted(shapes.take(i as int)),
                ),
            decreases shapes.len() - i,
        {
            let shape = &level.polygons[i];
            assert(shapes.take(i + 1).drop_last() =~= shapes.take(i as int));
            if !shape.grass {
                let polygon = SerPolygon::from_shape(shape);
                let o = SerPolygonOwner { file_name, polygon };
                let ghost before = owners@;
                owners.push(o);
                proof {
                    lemma_records_push(before, o);
                    let t = shapes.take(i + 1);
                    assert(t.last() == shapes[i as int]);
                    lemma_tagged_push(file_name@, extracted(shapes.take(i as int)), extract(shape.vertices@));
                }
            }
            i = i + 1;
        }
        assert(shapes.take(shapes.len() as int) =~= shapes);
        owners
    }
}

} // verus!
