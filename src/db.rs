use crate::lfn::{truncate_name, LevelFileName};
use crate::se::{
    extracted, lemma_records_push, polygon_fits, records_of, shapes_within, tagged, LevelGeometry,
    RecordModel, SerPolygonOwner,
};
use vstd::prelude::*;
use vstd::string::*;

verus! {

/// A store as its records in order, the set of sources that were ingested,
/// and its tag.
pub struct StoreModel {
    pub records: Seq<RecordModel>,
    pub sources: Set<Seq<u8>>,
    pub tag: Option<Seq<char>>,
}

/// The byte contents of a sequence of identifiers.
pub open spec fn names_of(s: Seq<LevelFileName>) -> Seq<Seq<u8>> {
    s.map_values(|n: LevelFileName| n@)
}

/// Every record's source was ingested, and every record's polygon fits.
pub open spec fn store_wf(m: StoreModel) -> bool {
    records_within(m.records, m.sources)
}

/// The records of `incoming` whose source is not in `seen`, last first.
pub open spec fn kept_reversed(incoming: Seq<RecordModel>, seen: Set<Seq<u8>>) -> Seq<RecordModel>
    decreases incoming.len(),
{
    if incoming.len() == 0 {
        Seq::empty()
    } else if seen.contains(incoming.last().0) {
        kept_reversed(incoming.drop_last(), seen)
    } else {
        seq![incoming.last()] + kept_reversed(incoming.drop_last(), seen)
    }
}

/// The store that merging `b` into `a` leaves in `a`: `a`'s records, then those
/// of `b` whose source `a` had not ingested, last first; the sources of both;
/// `a`'s tag.
pub open spec fn combined(a: StoreModel, b: StoreModel) -> StoreModel {
    StoreModel {
        records: a.records + kept_reversed(b.records, a.sources),
        sources: a.sources.union(b.sources),
        tag: a.tag,
    }
}

/// Every record's source is in `sources`, and every record's polygon fits.
pub open spec fn records_within(records: Seq<RecordModel>, sources: Set<Seq<u8>>) -> bool {
    forall|i: int|
        #![trigger records[i]]
        0 <= i < records.len() ==> sources.contains(records[i].0) && polygon_fits(records[i].1)
}

/// The area of the bounding box of a polygon.
pub open spec fn area_of(r: RecordModel) -> int {
    r.1.1 * r.1.2
}

/// The records are in ascending order of area.
pub open spec fn sorted_by_area(s: Seq<RecordModel>) -> bool {
    forall|i: int, j: int| 0 <= i < j < s.len() ==> area_of(#[trigger] s[i]) <= area_of(#[trigger] s[j])
}

/// A store of polygon records, with the identifiers of the levels ingested and
/// an optional tag.
pub struct Db {
    pub polygons: Vec<SerPolygonOwner>,
    pub levels: Vec<LevelFileName>,
    pub tag: Option<String>,
}

impl View for Db {
    type V = StoreModel;

    open spec fn view(&self) -> StoreModel {
        StoreModel {
            records: records_of(self.polygons@),
            sources: names_of(self.levels@).to_set(),
            tag: match self.tag {
                Some(t) => Some(t@),
                None => None,
            },
        }
    }
}

proof fn lemma_kept_reversed_elems(s: Seq<RecordModel>, seen: Set<Seq<u8>>)
    ensures
        forall|i: int|
            0 <= i < kept_reversed(s, seen).len() ==> !seen.contains(
                #[trigger] kept_reversed(s, seen)[i].0,
            ) && s.contains(kept_reversed(s, seen)[i]),
    decreases s.len(),
{
    if s.len() > 0 {
        let t = s.drop_last();
        lemma_kept_reversed_elems(t, seen);
        let k = kept_reversed(s, seen);
        let kt = kept_reversed(t, seen);
        assert forall|i: int| 0 <= i < k.len() implies !seen.contains(#[trigger] k[i].0) && s.contains(
            k[i],
        ) by {
            let m = if seen.contains(s.last().0) { i } else { i - 1 };
            if !seen.contains(s.last().0) && i == 0 {
                assert(s[s.len() - 1] == k[i]);
            } else {
                if seen.contains(s.last().0) {
                    assert(k == kt);
                } else {
                    assert(k == seq![s.last()] + kt);
                }
                assert(0 <= m < kt.len());
                assert(k[i] == kt[m]);
                assert(!seen.contains(kt[m].0));
                assert(t.contains(kt[m]));
                let j = choose|j: int| 0 <= j < t.len() && t[j] == kt[m];
                assert(s[j] == kt[m]);
            }
        }
    }
}

proof fn lemma_names_push(s: Seq<LevelFileName>, n: LevelFileName)
    ensures
        names_of(s.push(n)) == names_of(s).push(n@),
        names_of(s.push(n)).to_set() == names_of(s).to_set().insert(n@),
{
    let a = names_of(s);
    let b = names_of(s.push(n));
    assert(b =~= a.push(n@));
    assert forall|x: Seq<u8>| b.contains(x) <==> a.contains(x) || x == n@ by {
        if b.contains(x) {
            let j = choose|j: int| 0 <= j < b.len() && b[j] == x;
            if j < a.len() {
                assert(a[j] == x);
            }
        }
        if a.contains(x) {
            let j = choose|j: int| 0 <= j < a.len() && a[j] == x;
            assert(b[j] == x);
        }
        if x == n@ {
            assert(b[a.len() as int] == x);
        }
    }
    assert(b.to_set() =~= a.to_set().insert(n@));
}

/// A store whose every source is ingested keeps none of the records of a store
/// drawn from those sources.
proof fn lemma_kept_reversed_none(s: Seq<RecordModel>, seen: Set<Seq<u8>>)
    requires
        forall|i: int| 0 <= i < s.len() ==> seen.contains(#[trigger] s[i].0),
    ensures
        kept_reversed(s, seen) == Seq::<RecordModel>::empty(),
    decreases s.len(),
{
    if s.len() > 0 {
        assert(seen.contains(s[s.len() - 1].0));
        lemma_kept_reversed_none(s.drop_last(), seen);
    }
}

/// Merging a store into a copy of itself changes nothing.
pub proof fn lemma_combine_with_copy(a: StoreModel)
    requires
        store_wf(a),
    ensures
        combined(a, a) == a,
{
    lemma_kept_reversed_none(a.records, a.sources);
    assert(a.records + Seq::<RecordModel>::empty() =~= a.records);
    assert(a.sources.union(a.sources) =~= a.sources);
}

/// Merging `b` into `a` leaves the sources of both, and, of the records of the
/// sources that `a` had ingested, exactly those of `a`: the records of `b`
/// from those sources are dropped.
pub proof fn lemma_combine_duplicate_safe(a: StoreModel, b: StoreModel)
    ensures
        combined(a, b).sources == a.sources.union(b.sources),
        combined(a, b).records.take(a.records.len() as int) == a.records,
        forall|i: int|
            a.records.len() <= i < combined(a, b).records.len() ==> !a.sources.contains(
                #[trigger] combined(a, b).records[i].0,
            ),
{
    let c = combined(a, b);
    lemma_kept_reversed_elems(b.records, a.sources);
    assert(c.records.take(a.records.len() as int) =~= a.records);
    assert forall|i: int| a.records.len() <= i < c.records.len() implies !a.sources.contains(
        #[trigger] c.records[i].0,
    ) by {
        assert(c.records[i] == kept_reversed(b.records, a.sources)[i - a.records.len()]);
    }
}

/// The parts of a store read back from storage make a well-formed store.
pub open spec fn parts_valid(polygons: Seq<SerPolygonOwner>, levels: Seq<LevelFileName>) -> bool {
    &&& names_of(levels).no_duplicates()
    &&& records_within(records_of(polygons), names_of(levels).to_set())
}

/// Whether `name` is among `levels`.
fn contains_name(levels: &Vec<LevelFileName>, name: &LevelFileName) -> (r: bool)
    ensures
        r == names_of(levels@).to_set().contains(name@),
{
    let mut i: usize = 0;
    while i < levels.len()
        invariant
            i <= levels@.len(),
            forall|j: int| 0 <= j < i ==> levels@[j]@ != name@,
        decreases levels@.len() - i,
    {
        if levels[i].same_as(name) {
            assert(names_of(levels@)[i as int] == name@);
            return true;
        }
        i = i + 1;
    }
    assert(!names_of(levels@).contains(name@));
    false
}

/// The parts of a well-formed store are accepted when read back.
pub proof fn lemma_parts_of_store_valid(d: Db)
    requires
        d.wf(),
    ensures
        parts_valid(d.polygons@, d.levels@),
{
}

/// Relies on `slice::sort_by_key`: the slice keeps its elements and ends up in
/// ascending order of the key, here the area that `SerPolygon::area` computes.
#[verifier::external_body]
fn sort_records_by_area(v: &mut Vec<SerPolygonOwner>)
    requires
        forall|i: int| 0 <= i < old(v)@.len() ==> polygon_fits(#[trigger] old(v)@[i]@.1),
    ensures
        final(v)@.to_multiset() == old(v)@.to_multiset(),
        sorted_by_area(records_of(final(v)@)),
{
    v.sort_by_key(|o| o.polygon.area())
}

impl Db {
    /// The identifiers are distinct and the store model is well formed.
    pub open spec fn wf(&self) -> bool {
        &&& names_of(self.levels@).no_duplicates()
        &&& store_wf(self@)
    }

    /// An empty, untagged store.
    pub fn new() -> (r: Db)
        ensures
            r.wf(),
            r@.records.len() == 0,
            r@.sources == Set::<Seq<u8>>::empty(),
            r@.tag is None,
    {
        let r = Db { polygons: Vec::new(), levels: Vec::new(), tag: None };
        assert(names_of(r.levels@).to_set() =~= Set::<Seq<u8>>::empty());
        assert(records_of(r.polygons@) =~= Seq::<RecordModel>::empty());
        r
    }

    /// Whether the level `name` was ingested.
    fn has_level(&self, name: &LevelFileName) -> (r: bool)
        ensures
            r == self@.sources.contains(name@),
    {
        contains_name(&self.levels, name)
    }

    /// The store made of parts read back from storage: `None` where they do not
    /// make a well-formed store (a repeated identifier, a record whose source is
    /// not among `levels`, or a polygon that does not fit).
    pub fn from_parts(
        polygons: Vec<SerPolygonOwner>,
        levels: Vec<LevelFileName>,
        tag: Option<String>,
    ) -> (r: Option<Db>)
        ensures
            r is Some <==> parts_valid(polygons@, levels@),
            r matches Some(d) ==> d.polygons == polygons && d.levels == levels && d.tag == tag,
            r matches Some(d) ==> d.wf(),
    {
        let mut i: usize = 0;
        while i < levels.len()
            invariant
                i <= levels@.len(),
                names_of(levels@.take(i as int)).no_duplicates(),
                forall|a: int, b: int| 0 <= a < i && 0 <= b < levels@.len() && a != b ==> levels@[a]@ != levels@[b]@,
            decreases levels@.len() - i,
        {
            let mut j: usize = 0;
            while j < levels.len()
                invariant
                    i < levels@.len(),
                    j <= levels@.len(),
                    forall|b: int| 0 <= b < j && b != i ==> levels@[i as int]@ != levels@[b]@,
                decreases levels@.len() - j,
            {
                if j != i && levels[i].same_as(&levels[j]) {
                    assert(!names_of(levels@).no_duplicates()) by {
                        assert(names_of(levels@)[i as int] == names_of(levels@)[j as int]);
                    }
                    return None;
                }
                j = j + 1;
            }
            i = i + 1;
        }
        assert(names_of(levels@).no_duplicates()) by {
            assert forall|a: int, b: int| 0 <= a < levels@.len() && 0 <= b < levels@.len() && a != b implies names_of(levels@)[a] != names_of(levels@)[b] by {
                assert(levels@[a]@ != levels@[b]@);
            }
        }
        let ghost sources = names_of(levels@).to_set();
        let mut k: usize = 0;
        while k < polygons.len()
            invariant
                k <= polygons@.len(),
                sources == names_of(levels@).to_set(),
                records_within(records_of(polygons@).take(k as int), sources),
            decreases polygons@.len() - k,
        {
            let o = &polygons[k];
            let found = contains_name(&levels, &o.file_name);
            let fits = o.polygon.fits();
            if !found || !fits {
                assert(!records_within(records_of(polygons@), sources)) by {
                    let rk = records_of(polygons@)[k as int];
                    assert(rk == o@);
                    assert(!(sources.contains(rk.0) && polygon_fits(rk.1)));
                }
                return None;
            }
            assert(records_within(records_of(polygons@).take(k + 1), sources)) by {
                assert forall|m: int| 0 <= m < k + 1 implies sources.contains(#[trigger] records_of(polygons@).take(k + 1)[m].0) && polygon_fits(records_of(polygons@).take(k + 1)[m].1) by {
                    if m < k {
                        assert(records_of(polygons@).take(k + 1)[m] == records_of(polygons@).take(k as int)[m]);
                        assert(sources.contains(records_of(polygons@).take(k as int)[m].0));
                    } else {
                        assert(records_of(polygons@).take(k + 1)[m] == o@);
                    }
                }
            }
            k = k + 1;
        }
        assert(records_of(polygons@).take(polygons@.len() as int) =~= records_of(polygons@));
        Some(Db { polygons, levels, tag })
    }

    /// Marks the level `name` as ingested.
    fn add_level(&mut self, name: LevelFileName)
        requires
            names_of(old(self).levels@).no_duplicates(),
        ensures
            names_of(final(self).levels@).no_duplicates(),
            final(self)@.sources == old(self)@.sources.insert(name@),
            final(self).polygons == old(self).polygons,
            final(self).tag == old(self).tag,
    {
        if !self.has_level(&name) {
            let ghost before = self.levels@;
            self.levels.push(name);
            proof {
                lemma_names_push(before, name);
            }
        } else {
            assert(self@.sources =~= self@.sources.insert(name@));
        }
    }

    /// Takes in one level file named `file_name`: with its geometry, its
    /// polygons that are not grass are added, tagged with its identifier; without
    /// (it could not be loaded), its identifier is added to `failed`. Either way
    /// the identifier is marked as ingested.
    pub fn ingest_level(
        &mut self,
        file_name: &str,
        level: Option<&LevelGeometry>,
        failed: &mut Vec<LevelFileName>,
    )
        requires
            old(self).wf(),
            level matches Some(l) ==> shapes_within(l.polygons@),
        ensures
            final(self).wf(),
            final(self)@.sources == old(self)@.sources.insert(truncate_name(file_name.spec_bytes())),
            final(self)@.tag == old(self)@.tag,
            level matches Some(l) ==> final(self)@.records == old(self)@.records + tagged(
                truncate_name(file_name.spec_bytes()),
                extracted(l.polygons@),
            ) && final(failed)@ == old(failed)@,
            level is None ==> final(self)@.records == old(self)@.records && names_of(final(failed)@)
                == names_of(old(failed)@).push(truncate_name(file_name.spec_bytes())),
    {
        let name = LevelFileName::from_str(file_name);
        self.add_level(name);
        assert(store_wf(self@)) by {
            assert forall|i: int| 0 <= i < self@.records.len() implies self@.sources.contains(
                #[trigger] self@.records[i].0,
            ) && polygon_fits(self@.records[i].1) by {
                assert(old(self)@.sources.contains(old(self)@.records[i].0));
            }
        }
        match level {
            Some(l) => {
                let mut new_polygons = SerPolygonOwner::from_level(name, l);
                let ghost before = self.polygons@;
                let ghost added = new_polygons@;
                self.polygons.append(&mut new_polygons);
                proof {
                    assert(records_of(self.polygons@) =~= records_of(before) + records_of(added));
                    crate::se::lemma_extracted_fit(l.polygons@);
                    assert forall|i: int| 0 <= i < self@.records.len() implies self@.sources.contains(
                        #[trigger] self@.records[i].0,
                    ) && polygon_fits(self@.records[i].1) by {
                        if i >= before.len() {
                            assert(self@.records[i] == records_of(added)[i - before.len()]);
                        } else {
                            assert(self@.records[i] == records_of(before)[i]);
                            assert(self@.sources.contains(records_of(before)[i].0));
                        }
                    }
                }
            },
            None => {
                let ghost before = failed@;
                failed.push(name);
                assert(names_of(failed@) =~= names_of(before).push(name@));
            },
        }
    }

    /// Moves the records of `other` whose source this store has not ingested
    /// into this store, last first, drops the others, and marks every source
    /// of `other` as ingested. `other` is left without records.
    pub fn combine(&mut self, other: &mut Db)
        requires
            old(self).wf(),
            old(other).wf(),
        ensures
            final(self).wf(),
            final(other).wf(),
            final(self)@ == combined(old(self)@, old(other)@),
            final(other)@ == (StoreModel { records: Seq::empty(), ..old(other)@ }),
    {
        let ghost seen = self@.sources;
        let ghost theirs = other@.sources;
        let ghost orig = other@.records;
        assert forall|i: int| 0 <= i < self@.records.len() implies seen.union(theirs).contains(
            #[trigger] self@.records[i].0,
        ) && polygon_fits(self@.records[i].1) by {
            assert(seen.contains(self@.records[i].0));
        }
        assert(records_within(self@.records, seen.union(theirs)));
        while other.polygons.len() > 0
            invariant
                self@.sources == seen,
                self@.tag == old(self)@.tag,
                self.levels == old(self).levels,
                other.levels == old(other).levels,
                other.tag == old(other).tag,
                other@.sources == theirs,
                names_of(self.levels@).no_duplicates(),
                store_wf(other@),
                records_within(self@.records, seen.union(theirs)),
                old(self)@.records + kept_reversed(orig, seen) == self@.records + kept_reversed(
                    other@.records,
                    seen,
                ),
            decreases other.polygons@.len(),
        {
            let ghost o = other@.records;
            let ghost before = self.polygons@;
            let p = other.polygons.pop().unwrap();
            proof {
                assert(records_of(other.polygons@) =~= o.drop_last());
                assert(p@ == o[o.len() - 1]);
                assert(theirs.contains(o[o.len() - 1].0));
                assert forall|i: int| 0 <= i < other@.records.len() implies theirs.contains(
                    #[trigger] other@.records[i].0,
                ) && polygon_fits(other@.records[i].1) by {
                    assert(other@.records[i] == o[i]);
                    assert(theirs.contains(o[i].0));
                }
            }
            if !self.has_level(&p.file_name) {
                self.polygons.push(p);
                proof {
                    lemma_records_push(before, p);
                    assert(self@.records + kept_reversed(o.drop_last(), seen) =~= records_of(before)
                        + (seq![o.last()] + kept_reversed(o.drop_last(), seen)));
                    assert forall|i: int| 0 <= i < self@.records.len() implies seen.union(theirs).contains(
                        #[trigger] self@.records[i].0,
                    ) && polygon_fits(self@.records[i].1) by {
                        if i < before.len() {
                            assert(self@.records[i] == records_of(before)[i]);
                        }
                    }
                }
            } else {
                proof {
                    assert(kept_reversed(o.drop_last(), seen) == kept_reversed(o, seen));
                }
            }
        }
        proof {
            assert(kept_reversed(other@.records, seen) == Seq::<RecordModel>::empty());
            assert(old(self)@.records + kept_reversed(orig, seen) =~= self@.records);
            assert(other@.records =~= Seq::<RecordModel>::empty());
        }
        let ghost after_records = self@.records;
        let mut j: usize = 0;
        while j < other.levels.len()
            invariant
                j <= other.levels@.len(),
                other.levels == old(other).levels,
                other@.sources == theirs,
                names_of(self.levels@).no_duplicates(),
                self@.records == after_records,
                self@.tag == old(self)@.tag,
                records_within(after_records, seen.union(theirs)),
                self@.sources == seen.union(names_of(other.levels@.take(j as int)).to_set()),
            decreases other.levels@.len() - j,
        {
            let name = other.levels[j];
            self.add_level(name);
            proof {
                assert(other.levels@.take(j + 1) =~= other.levels@.take(j as int).push(name));
                lemma_names_push(other.levels@.take(j as int), name);
                assert(self@.sources =~= seen.union(names_of(other.levels@.take(j + 1)).to_set()));
            }
            j = j + 1;
        }
        proof {
            assert(other.levels@.take(other.levels@.len() as int) =~= other.levels@);
            assert(self@.sources =~= combined(old(self)@, old(other)@).sources);
            assert forall|i: int| 0 <= i < self@.records.len() implies self@.sources.contains(
                #[trigger] self@.records[i].0,
            ) && polygon_fits(self@.records[i].1) by {
                assert(seen.union(theirs).contains(after_records[i].0));
            }
        }
    }

    /// Orders the records by ascending area of their bounding box.
    pub fn sort_by_area(&mut self)
        requires
            old(self).wf(),
        ensures
            final(self).wf(),
            final(self).polygons@.to_multiset() == old(self).polygons@.to_multiset(),
            sorted_by_area(final(self)@.records),
            final(self)@.sources == old(self)@.sources,
            final(self)@.tag == old(self)@.tag,
    {
        proof {
            assert forall|i: int| 0 <= i < self.polygons@.len() implies polygon_fits(
                #[trigger] self.polygons@[i]@.1,
            ) by {
                assert(self@.records[i] == self.polygons@[i]@);
                assert(self@.sources.contains(self@.records[i].0));
            }
        }
        sort_records_by_area(&mut self.polygons);
        proof {
            broadcast use vstd::seq_lib::group_to_multiset_ensures;

            assert forall|i: int| 0 <= i < self@.records.len() implies old(self)@.sources.contains(
                #[trigger] self@.records[i].0,
            ) && polygon_fits(self@.records[i].1) by {
                let p = self.polygons@[i];
                assert(self.polygons@.to_multiset().count(p) > 0);
                let k = choose|k: int| 0 <= k < old(self).polygons@.len() && old(self).polygons@[k] == p;
                assert(old(self)@.records[k] == p@);
                assert(old(self)@.sources.contains(old(self)@.records[k].0));
            }
        }
    }
}

} // verus!
