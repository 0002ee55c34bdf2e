//! The anchor resolver: locates named reference points ("anchors") inside a
//! sheet by case-folded text search, checks that the right sheet was found
//! by a geometric column-spread test, and resolves the desired header
//! fields from the anchors by relative offsets.
//!
//! The sheet arrives as plain data: the used cells in reading order, each
//! with its row, column and value, together with the sheet's start
//! coordinate.  Opening workbooks and enumerating cells happens outside the
//! library.

use vstd::prelude::*;
use vstd::string::*;

use crate::Error;
use crate::text::lower_of;
use crate::text::lowercase;
use crate::text::str_ends_with;
use crate::text::is_suffix_of;
use crate::text::find_char;
use crate::transform::FieldValue;
use crate::transform::TotalsRow;
use crate::transform::Act;

verus! {

/// Whether an anchor must be present.  A `Y` anchor is searched with a
/// shared forward-only cursor, so required anchors must appear in their
/// declared order; an `N` anchor is searched independently from the top.
#[derive(PartialEq, Eq, Structural, Clone, Copy, Debug)]
pub enum Required {
    Y,
    N,
}

/// One anchor: the expected column offset used when recomputing the
/// geometric check constant, its requiredness, and the case-folded search
/// text.
pub type ReferencePoint = (usize, Required, String);

/// A named output field: either bound directly to the anchor whose
/// case-folded name equals the field name (`offset == None`), or derived
/// from the named anchor by a (row delta, column delta) pair.
#[derive(Debug)]
pub struct DesiredData {
    pub name: String,
    pub offset: Option<(String, (i8, i8))>,
}

/// One used cell of a sheet.
pub struct Cell {
    pub row: usize,
    pub col: usize,
    pub val: FieldValue,
}

/// A successfully resolved sheet: the sheet's cells plus the anchor
/// positions found for it.
pub struct Sheet {
    pub path: String,
    pub sheet_name: String,
    pub data: Vec<Cell>,
    pub search_points: Vec<(String, (usize, usize))>,
    pub range_start: (usize, usize),
}

/// A cell matches an anchor tag when it holds text whose case-folded form
/// equals the tag.
pub open spec fn cell_matches(c: Cell, tag: Seq<char>) -> bool {
    match c.val {
        FieldValue::Text(s) => lower_of(s@) == tag,
        _ => false,
    }
}

/// The first cell at or after `from` that matches `tag`.
pub open spec fn spec_find_from(cells: Seq<Cell>, from: int, tag: Seq<char>) -> Option<int>
    decreases cells.len() - from when 0 <= from
{
    if from >= cells.len() {
        None
    } else if cell_matches(cells[from], tag) {
        Some(from)
    } else {
        spec_find_from(cells, from + 1, tag)
    }
}

/// The association list of found anchors, read as a map; a later entry for
/// the same tag wins, as a map insert would.
pub open spec fn assoc_map(points: Seq<(String, (usize, usize))>) -> Map<Seq<char>, (int, int)>
    decreases points.len(),
{
    if points.len() == 0 {
        Map::empty()
    } else {
        assoc_map(points.drop_last()).insert(
            points.last().0@,
            (points.last().1.0 as int, points.last().1.1 as int),
        )
    }
}

/// The resolver state after the first `k` anchors have been processed: the
/// map of found anchors and the shared cursor of the required-anchor scan.
/// A failed required search exhausts the cursor, so every later required
/// search fails too.
pub open spec fn spec_resolve(cells: Seq<Cell>, anchors: Seq<ReferencePoint>, k: int) -> (Map<
    Seq<char>,
    (int, int),
>, int)
    decreases k,
{
    if k <= 0 {
        (Map::empty(), 0)
    } else {
        let (m, cur) = spec_resolve(cells, anchors, k - 1);
        let a = anchors[k - 1];
        if a.1 == Required::Y {
            match spec_find_from(cells, cur, a.2@) {
                Some(j) => (m.insert(a.2@, (cells[j].row as int, cells[j].col as int)), j + 1),
                None => (m, cells.len() as int),
            }
        } else {
            match spec_find_from(cells, 0, a.2@) {
                Some(j) => (m.insert(a.2@, (cells[j].row as int, cells[j].col as int)), cur),
                None => (m, cur),
            }
        }
    }
}

/// The anchor map of a fully processed sheet.
pub open spec fn resolve_map(cells: Seq<Cell>, anchors: Seq<ReferencePoint>) -> Map<
    Seq<char>,
    (int, int),
> {
    spec_resolve(cells, anchors, anchors.len() as int).0
}

/// No two anchors share a search tag.
pub open spec fn anchors_distinct(anchors: Seq<ReferencePoint>) -> bool {
    forall|i: int, j: int|
        0 <= i < j < anchors.len() ==> (#[trigger] anchors[i]).2@ != (#[trigger] anchors[j]).2@
}

/// At least one anchor is required.
pub open spec fn has_required(anchors: Seq<ReferencePoint>) -> bool {
    exists|j: int| 0 <= j < anchors.len() && (#[trigger] anchors[j]).1 == Required::Y
}

/// The index of the last required anchor (`-1` when none is).
pub open spec fn last_required(anchors: Seq<ReferencePoint>) -> int
    decreases anchors.len(),
{
    if anchors.len() == 0 {
        -1
    } else if anchors.last().1 == Required::Y {
        anchors.len() - 1
    } else {
        last_required(anchors.drop_last())
    }
}

/// The index of the first required anchor (`anchors.len()` when none is).
pub open spec fn first_required(anchors: Seq<ReferencePoint>) -> int
    decreases anchors.len(),
{
    if anchors.len() == 0 {
        0
    } else if anchors[0].1 == Required::Y {
        0
    } else {
        1 + first_required(anchors.skip(1))
    }
}

pub proof fn lemma_last_required(anchors: Seq<ReferencePoint>)
    requires
        has_required(anchors),
    ensures
        0 <= last_required(anchors) < anchors.len(),
        anchors[last_required(anchors)].1 == Required::Y,
        forall|j: int|
            last_required(anchors) < j < anchors.len() ==> (#[trigger] anchors[j]).1 == Required::N,
    decreases anchors.len(),
{
    if anchors.len() > 0 && anchors.last().1 != Required::Y {
        let sub = anchors.drop_last();
        assert(has_required(sub)) by {
            let j = choose|j: int|
                0 <= j < anchors.len() && (#[trigger] anchors[j]).1 == Required::Y;
            assert(j < anchors.len() - 1);
            assert(sub[j] == anchors[j]);
        }
        lemma_last_required(sub);
        assert(anchors[last_required(anchors)] == sub[last_required(sub)]);
        assert forall|j: int|
            last_required(anchors) < j < anchors.len() implies (#[trigger] anchors[j]).1
            == Required::N by {
            if j == anchors.len() - 1 {
                assert(anchors[j].1 != Required::Y);
            } else {
                assert(sub[j] == anchors[j]);
            }
        }
    }
}

pub proof fn lemma_first_required(anchors: Seq<ReferencePoint>)
    requires
        has_required(anchors),
    ensures
        0 <= first_required(anchors) < anchors.len(),
        anchors[first_required(anchors)].1 == Required::Y,
        forall|j: int| 0 <= j < first_required(anchors) ==> (#[trigger] anchors[j]).1 == Required::N,
    decreases anchors.len(),
{
    if anchors.len() > 0 && anchors[0].1 != Required::Y {
        let sub = anchors.skip(1);
        assert(has_required(sub)) by {
            let j = choose|j: int|
                0 <= j < anchors.len() && (#[trigger] anchors[j]).1 == Required::Y;
            assert(j >= 1);
            assert(sub[j - 1] == anchors[j]);
        }
        lemma_first_required(sub);
        assert(anchors[first_required(anchors)] == sub[first_required(sub)]);
        assert forall|j: int| 0 <= j < first_required(anchors) implies (#[trigger] anchors[j]).1
            == Required::N by {
            if j >= 1 {
                assert(sub[j - 1] == anchors[j]);
            } else {
                assert(anchors[0].1 != Required::Y);
            }
        }
    }
}

/// Every key of the anchor map is the tag of some anchor already processed.
proof fn lemma_resolve_keys(cells: Seq<Cell>, anchors: Seq<ReferencePoint>, k: int, t: Seq<char>)
    requires
        0 <= k <= anchors.len(),
        spec_resolve(cells, anchors, k).0.contains_key(t),
    ensures
        exists|j: int| 0 <= j < k && (#[trigger] anchors[j]).2@ == t,
    decreases k,
{
    if k > 0 {
        let (m, cur) = spec_resolve(cells, anchors, k - 1);
        if anchors[k - 1].2@ != t {
            lemma_resolve_keys(cells, anchors, k - 1, t);
        } else {
            assert(0 <= k - 1 < k && anchors[k - 1].2@ == t);
        }
    }
}

/// Once a required anchor has failed, the cursor is exhausted and every
/// later required anchor fails as well: either every required anchor so far
/// was found, or none from the first failed one on was.
#[verifier::rlimit(60)]
proof fn lemma_required_chain(cells: Seq<Cell>, anchors: Seq<ReferencePoint>, k: int)
    requires
        0 <= k <= anchors.len(),
        anchors_distinct(anchors),
    ensures
        ({
            let (m, cur) = spec_resolve(cells, anchors, k);
            (forall|j: int|
                0 <= j < k && (#[trigger] anchors[j]).1 == Required::Y ==> m.contains_key(
                    anchors[j].2@,
                )) || (cur == cells.len() && exists|j: int|
                0 <= j < k && (#[trigger] anchors[j]).1 == Required::Y && (forall|l: int|
                    j <= l < k && (#[trigger] anchors[l]).1 == Required::Y ==> !m.contains_key(
                        anchors[l].2@,
                    )))
        }),
    decreases k,
{
    if k > 0 {
        lemma_required_chain(cells, anchors, k - 1);
        let (m0, cur0) = spec_resolve(cells, anchors, k - 1);
        let (m, cur) = spec_resolve(cells, anchors, k);
        let a = anchors[k - 1];
        let failed0 = !(forall|j: int|
            0 <= j < k - 1 && (#[trigger] anchors[j]).1 == Required::Y ==> m0.contains_key(
                anchors[j].2@,
            ));
        if failed0 {
            // A required anchor has already failed: the cursor is spent.
            let j0 = choose|j: int|
                0 <= j < k - 1 && (#[trigger] anchors[j]).1 == Required::Y && (forall|l: int|
                    j <= l < k - 1 && (#[trigger] anchors[l]).1 == Required::Y ==> !m0.contains_key(
                        anchors[l].2@,
                    ));
            if a.1 == Required::Y {
                assert(spec_find_from(cells, cur0, a.2@) is None);
                assert(!m0.contains_key(a.2@)) by {
                    if m0.contains_key(a.2@) {
                        lemma_resolve_keys(cells, anchors, k - 1, a.2@);
                    }
                }
                assert forall|l: int|
                    j0 <= l < k && (#[trigger] anchors[l]).1 == Required::Y implies !m.contains_key(
                    anchors[l].2@,
                ) by {
                    if l < k - 1 {
                        assert(!m0.contains_key(anchors[l].2@));
                    }
                }
            } else {
                assert forall|l: int|
                    j0 <= l < k && (#[trigger] anchors[l]).1 == Required::Y implies !m.contains_key(
                    anchors[l].2@,
                ) by {
                    assert(!m0.contains_key(anchors[l].2@));
                    assert(anchors[l].2@ != a.2@);
                }
            }
        } else {
            if a.1 == Required::Y {
                match spec_find_from(cells, cur0, a.2@) {
                    Some(j) => {
                        assert(forall|j2: int|
                            0 <= j2 < k && (#[trigger] anchors[j2]).1 == Required::Y
                                ==> m.contains_key(anchors[j2].2@));
                    },
                    None => {
                        assert(!m.contains_key(a.2@)) by {
                            if m.contains_key(a.2@) {
                                lemma_resolve_keys(cells, anchors, k - 1, a.2@);
                            }
                        }
                        assert(0 <= k - 1 < k && anchors[k - 1].1 == Required::Y && (forall|l: int|
                            k - 1 <= l < k && (#[trigger] anchors[l]).1 == Required::Y
                                ==> !m.contains_key(anchors[l].2@)));
                    },
                }
            }
        }
    }
}

/// If the last required anchor was found, every required anchor was.
pub proof fn lemma_last_required_pins_all(cells: Seq<Cell>, anchors: Seq<ReferencePoint>)
    requires
        anchors_distinct(anchors),
        has_required(anchors),
        resolve_map(cells, anchors).contains_key(anchors[last_required(anchors)].2@),
    ensures
        forall|j: int|
            0 <= j < anchors.len() && (#[trigger] anchors[j]).1 == Required::Y ==> resolve_map(
                cells,
                anchors,
            ).contains_key(anchors[j].2@),
{
    lemma_last_required(anchors);
    lemma_required_chain(cells, anchors, anchors.len() as int);
    let m = resolve_map(cells, anchors);
    let lr = last_required(anchors);
    if !(forall|j: int|
        0 <= j < anchors.len() && (#[trigger] anchors[j]).1 == Required::Y ==> m.contains_key(
            anchors[j].2@,
        )) {
        let j0 = choose|j: int|
            0 <= j < anchors.len() && (#[trigger] anchors[j]).1 == Required::Y && (forall|l: int|
                j <= l < anchors.len() && (#[trigger] anchors[l]).1 == Required::Y
                    ==> !m.contains_key(anchors[l].2@));
        assert(j0 <= lr);
        assert(!m.contains_key(anchors[lr].2@));
    }
}

/// Find the first matching cell at or after `from`.
pub fn find_from(cells: &Vec<Cell>, from: usize, tag: &String) -> (r: Option<usize>)
    requires
        from <= cells@.len(),
    ensures
        match r {
            Some(j) => spec_find_from(cells@, from as int, tag@) == Some(j as int) && from <= j
                < cells@.len(),
            None => spec_find_from(cells@, from as int, tag@) is None,
        },
{
    let mut i: usize = from;
    while i < cells.len()
        invariant
            from <= i <= cells@.len(),
            spec_find_from(cells@, from as int, tag@) == spec_find_from(cells@, i as int, tag@),
        decreases cells@.len() - i,
    {
        let matched = match &cells[i].val {
            FieldValue::Text(s) => {
                let low = lowercase(s.as_str());
                low.eq(tag)
            },
            _ => false,
        };
        if matched {
            return Some(i);
        }
        i += 1;
    }
    None
}

/// Walk the anchors in declared order and record where each was found:
/// required anchors consume a shared forward-only cursor, optional anchors
/// search from the top independently.
pub fn resolve_search_points(cells: &Vec<Cell>, anchors: &Vec<ReferencePoint>) -> (r: Vec<
    (String, (usize, usize)),
>)
    ensures
        assoc_map(r@) == resolve_map(cells@, anchors@),
{
    let mut points: Vec<(String, (usize, usize))> = Vec::new();
    let mut cursor: usize = 0;
    let mut k: usize = 0;
    while k < anchors.len()
        invariant
            k <= anchors@.len(),
            cursor <= cells@.len(),
            (assoc_map(points@), cursor as int) == spec_resolve(cells@, anchors@, k as int),
        decreases anchors@.len() - k,
    {
        let ghost points0 = points@;
        let a = &anchors[k];
        if a.1 == Required::Y {
            match find_from(cells, cursor, &a.2) {
                Some(j) => {
                    points.push((a.2.clone(), (cells[j].row, cells[j].col)));
                    let _n = cells.len();
                    cursor = j + 1;
                },
                None => {
                    cursor = cells.len();
                },
            }
        } else {
            match find_from(cells, 0, &a.2) {
                Some(j) => {
                    points.push((a.2.clone(), (cells[j].row, cells[j].col)));
                },
                None => {},
            }
        }
        proof {
            if points@.len() > points0.len() {
                assert(points@.drop_last() =~= points0);
            }
        }
        k += 1;
    }
    points
}

/// Look a tag up in the association list; the last entry for the tag wins,
/// exactly as the map view reads it.
pub fn get_point(points: &Vec<(String, (usize, usize))>, tag: &String) -> (r: Option<
    (usize, usize),
>)
    ensures
        match r {
            Some(p) => assoc_map(points@).contains_key(tag@) && assoc_map(points@)[tag@] == (
                p.0 as int,
                p.1 as int,
            ),
            None => !assoc_map(points@).contains_key(tag@),
        },
{
    let mut i: usize = points.len();
    while i > 0
        invariant
            i <= points@.len(),
            forall|j: int| i <= j < points@.len() ==> (#[trigger] points@[j]).0@ != tag@,
        decreases i,
    {
        if points[i - 1].0.eq(tag) {
            let p = points[i - 1].1;
            proof {
                lemma_assoc_agrees(points@, tag@, i as int);
                assert(points@.subrange(0, i as int).drop_last() =~= points@.subrange(
                    0,
                    i as int - 1,
                ));
                assert(points@.subrange(0, i as int).last() == points@[i - 1]);
            }
            return Some(p);
        }
        i -= 1;
    }
    proof {
        lemma_assoc_agrees(points@, tag@, 0);
        assert(points@.subrange(0, 0) =~= Seq::<(String, (usize, usize))>::empty());
    }
    None
}

/// The sum of the found columns of the first `k` anchors' required members.
pub open spec fn required_col_sum(
    m: Map<Seq<char>, (int, int)>,
    anchors: Seq<ReferencePoint>,
    k: int,
) -> int
    decreases k,
{
    if k <= 0 {
        0
    } else {
        required_col_sum(m, anchors, k - 1) + if anchors[k - 1].1 == Required::Y {
            m[anchors[k - 1].2@].1
        } else {
            0
        }
    }
}

/// How many of the first `k` anchors are required.
pub open spec fn required_count(anchors: Seq<ReferencePoint>, k: int) -> int
    decreases k,
{
    if k <= 0 {
        0
    } else {
        required_count(anchors, k - 1) + if anchors[k - 1].1 == Required::Y {
            1int
        } else {
            0int
        }
    }
}

/// The single authoritative completeness signal: the last-declared required
/// anchor was found.  Because the required scan consumes one shared cursor,
/// this implies every earlier required anchor was found as well.
pub open spec fn resolution_complete(cells: Seq<Cell>, anchors: Seq<ReferencePoint>) -> bool {
    resolve_map(cells, anchors).contains_key(anchors[last_required(anchors)].2@)
}

/// The geometric sanity check: the summed spread of the required anchors'
/// columns from the first required anchor's column equals the expected
/// constant.
pub open spec fn geometry_ok(cells: Seq<Cell>, anchors: Seq<ReferencePoint>, expected: int) -> bool {
    let m = resolve_map(cells, anchors);
    required_col_sum(m, anchors, anchors.len() as int) == expected
        + m[anchors[first_required(anchors)].2@].1 * required_count(anchors, anchors.len() as int)
}

/// Every value the resolver records comes from a cell's usize coordinates.
proof fn lemma_resolve_values(cells: Seq<Cell>, anchors: Seq<ReferencePoint>, k: int)
    requires
        0 <= k <= anchors.len(),
    ensures
        forall|t: Seq<char>|
            spec_resolve(cells, anchors, k).0.contains_key(t) ==> {
                let v = #[trigger] spec_resolve(cells, anchors, k).0[t];
                0 <= v.0 <= usize::MAX && 0 <= v.1 <= usize::MAX
            },
    decreases k,
{
    if k > 0 {
        lemma_resolve_values(cells, anchors, k - 1);
        let m0 = spec_resolve(cells, anchors, k - 1).0;
        let m = spec_resolve(cells, anchors, k).0;
        assert forall|t: Seq<char>| m.contains_key(t) implies {
            let v = m[t];
            0 <= v.0 <= usize::MAX && 0 <= v.1 <= usize::MAX
        } by {
            if m0.contains_key(t) && m[t] == m0[t] {
            } else {
                assert(m.contains_key(t));
            }
        }
    }
}

/// Find the index of the last required anchor.
fn last_required_idx(anchors: &Vec<ReferencePoint>) -> (r: usize)
    requires
        has_required(anchors@),
    ensures
        r as int == last_required(anchors@),
{
    proof {
        lemma_last_required(anchors@);
        assert(anchors@.subrange(0, anchors@.len() as int) =~= anchors@);
    }
    let mut i: usize = anchors.len();
    while i > 0
        invariant
            i <= anchors@.len(),
            last_required(anchors@) == last_required(anchors@.subrange(0, i as int)),
        decreases i,
    {
        proof {
            assert(anchors@.subrange(0, i as int).drop_last() =~= anchors@.subrange(
                0,
                i as int - 1,
            ));
            assert(anchors@.subrange(0, i as int).last() == anchors@[i - 1]);
        }
        if anchors[i - 1].1 == Required::Y {
            return i - 1;
        }
        i -= 1;
    }
    proof {
        lemma_last_required(anchors@);
        assert(anchors@.subrange(0, 0) =~= Seq::<ReferencePoint>::empty());
        assert(false);
    }
    0
}

/// Find the index of the first required anchor.
fn first_required_idx(anchors: &Vec<ReferencePoint>) -> (r: usize)
    requires
        has_required(anchors@),
    ensures
        r as int == first_required(anchors@),
{
    proof {
        lemma_first_required(anchors@);
        assert(anchors@.skip(0) =~= anchors@);
    }
    let mut i: usize = 0;
    while i < anchors.len()
        invariant
            i <= anchors@.len(),
            first_required(anchors@) == i + first_required(anchors@.skip(i as int)),
        decreases anchors@.len() - i,
    {
        proof {
            assert(anchors@.skip(i as int)[0] == anchors@[i as int]);
            assert(anchors@.skip(i as int).skip(1) =~= anchors@.skip(i as int + 1));
        }
        if anchors[i].1 == Required::Y {
            return i;
        }
        i += 1;
    }
    proof {
        lemma_first_required(anchors@);
        assert(anchors@.skip(anchors@.len() as int) =~= Seq::<ReferencePoint>::empty());
        assert(false);
    }
    0
}

impl Sheet {
    /// Resolve the anchors of one sheet's used cells and validate the
    /// result: fail with `EmptySheetRange` when the sheet had no used
    /// range, with `IncompleteAnchorSet` when the last required anchor was
    /// not found in shared-cursor order, and with `ColumnsShifted` when the
    /// required anchors' column spread differs from the expected constant.
    pub fn new(
        path: String,
        sheet_name: String,
        data: Vec<Cell>,
        start: Option<(usize, usize)>,
        anchors: &Vec<ReferencePoint>,
        expected_sum_of_requir_col: usize,
    ) -> (r: Result<Sheet, Error>)
        requires
            anchors_distinct(anchors@),
            has_required(anchors@),
            anchors@.len() <= u32::MAX,
        ensures
            start is None ==> (match r {
                Err(Error::EmptySheetRange { file_path, sh_name }) => file_path@ == path@
                    && sh_name@ == sheet_name@,
                _ => false,
            }),
            start is Some && !resolution_complete(data@, anchors@) ==> (match r {
                Err(Error::IncompleteAnchorSet { file_path }) => file_path@ == path@,
                _ => false,
            }),
            start is Some && resolution_complete(data@, anchors@) && !geometry_ok(
                data@,
                anchors@,
                expected_sum_of_requir_col as int,
            ) ==> (match r {
                Err(Error::ColumnsShifted { file_path }) => file_path@ == path@,
                _ => false,
            }),
            start is Some && resolution_complete(data@, anchors@) && geometry_ok(
                data@,
                anchors@,
                expected_sum_of_requir_col as int,
            ) ==> (match r {
                Ok(sh) => sh.path == path && sh.sheet_name == sheet_name && sh.data == data
                    && start == Some(sh.range_start) && assoc_map(sh.search_points@)
                    == resolve_map(data@, anchors@),
                _ => false,
            }),
    {
        let range_start = match start {
            Some(st) => st,
            None => {
                return Err(Error::EmptySheetRange { file_path: path, sh_name: sheet_name });
            },
        };
        let points = resolve_search_points(&data, anchors);
        let ghost m = resolve_map(data@, anchors@);
        proof {
            lemma_last_required(anchors@);
            lemma_first_required(anchors@);
            lemma_resolve_values(data@, anchors@, anchors@.len() as int);
        }
        let lr = last_required_idx(anchors);
        match get_point(&points, &anchors[lr].2) {
            Some(_) => {},
            None => {
                return Err(Error::IncompleteAnchorSet { file_path: path });
            },
        }
        proof {
            lemma_last_required_pins_all(data@, anchors@);
        }
        let fr = first_required_idx(anchors);
        let first_pt = match get_point(&points, &anchors[fr].2) {
            Some(p) => p,
            None => {
                proof {
                    assert(false);
                }
                (0, 0)
            },
        };
        let mut sum: u128 = 0;
        let mut cnt: u32 = 0;
        let mut k: usize = 0;
        while k < anchors.len()
            invariant
                k <= anchors@.len(),
                anchors@.len() <= u32::MAX,
                assoc_map(points@) == m,
                forall|t: Seq<char>|
                    m.contains_key(t) ==> {
                        let v = #[trigger] m[t];
                        0 <= v.0 <= usize::MAX && 0 <= v.1 <= usize::MAX
                    },
                forall|j: int|
                    0 <= j < anchors@.len() && (#[trigger] anchors@[j]).1 == Required::Y
                        ==> m.contains_key(anchors@[j].2@),
                sum as int == required_col_sum(m, anchors@, k as int),
                cnt as int == required_count(anchors@, k as int),
                cnt <= k,
                sum as int <= (k as int) * (usize::MAX as int),
            decreases anchors@.len() - k,
        {
            let a = &anchors[k];
            if a.1 == Required::Y {
                match get_point(&points, &a.2) {
                    Some(p) => {
                        proof {
                            assert(sum as int + (p.1 as int) <= (k as int) * (usize::MAX as int)
                                + (usize::MAX as int));
                            assert((k as int) * (usize::MAX as int) + (usize::MAX as int) == (
                            k as int + 1) * (usize::MAX as int)) by (nonlinear_arith);
                            assert((k as int + 1) * (usize::MAX as int) <= 0x100000000int * (
                            usize::MAX as int)) by (nonlinear_arith)
                                requires
                                    k as int + 1 <= 0x100000000int,
                            ;
                        }
                        sum = sum + (p.1 as u128);
                    },
                    None => {
                        proof {
                            assert(false);
                        }
                    },
                }
                cnt = cnt + 1;
            }
            proof {
                assert((k as int) * (usize::MAX as int) <= (k as int + 1) * (usize::MAX as int))
                    by (nonlinear_arith)
                    requires
                        k as int >= 0,
                ;
            }
            k += 1;
        }
        proof {
            assert((first_pt.1 as int) * (cnt as int) <= (usize::MAX as int) * 0x100000000int)
                by (nonlinear_arith)
                requires
                    0 <= first_pt.1 as int <= usize::MAX as int,
                    0 <= cnt as int <= 0x100000000int,
            ;
        }
        let rhs: u128 = (expected_sum_of_requir_col as u128) + (first_pt.1 as u128) * (
        cnt as u128);
        if sum != rhs {
            return Err(Error::ColumnsShifted { file_path: path });
        }
        Ok(Sheet { path, sheet_name, data, search_points: points, range_start })
    }
}

/// The value of the first cell recorded at the given coordinates, if any.
pub open spec fn spec_cell_value(cells: Seq<Cell>, r: int, c: int) -> Option<FieldValue>
    decreases cells.len(),
{
    if cells.len() == 0 {
        None
    } else if cells[0].row == r && cells[0].col == c {
        Some(cells[0].val)
    } else {
        spec_cell_value(cells.skip(1), r, c)
    }
}

/// The anchor a desired field is bound to: the named anchor of its offset
/// pair, or, for a directly bound field, the anchor whose tag is the
/// case-folded field name.
pub open spec fn spec_field_anchor_tag(d: DesiredData) -> Seq<char> {
    match d.offset {
        None => lower_of(d.name@),
        Some(o) => o.0@,
    }
}

/// The value a desired field resolves to: the bound anchor's own cell for a
/// `None` offset, the cell displaced by the offset otherwise, and `Absent`
/// whenever the anchor was not found or no cell sits at the target.
pub open spec fn spec_resolved_field(
    cells: Seq<Cell>,
    m: Map<Seq<char>, (int, int)>,
    d: DesiredData,
) -> FieldValue {
    let tag = spec_field_anchor_tag(d);
    if !m.contains_key(tag) {
        FieldValue::Absent
    } else {
        let rc = m[tag];
        let target = match d.offset {
            None => rc,
            Some(o) => (rc.0 + o.1.0 as int, rc.1 + o.1.1 as int),
        };
        if target.0 < 0 || target.1 < 0 || target.0 > usize::MAX || target.1 > usize::MAX {
            FieldValue::Absent
        } else {
            match spec_cell_value(cells, target.0, target.1) {
                Some(v) => v,
                None => FieldValue::Absent,
            }
        }
    }
}

/// Find the first cell at the given coordinates.
fn cell_at(cells: &Vec<Cell>, r: usize, c: usize) -> (res: Option<FieldValue>)
    ensures
        res == spec_cell_value(cells@, r as int, c as int),
{
    let mut i: usize = 0;
    proof {
        assert(cells@.skip(0) =~= cells@);
    }
    while i < cells.len()
        invariant
            i <= cells@.len(),
            spec_cell_value(cells@, r as int, c as int) == spec_cell_value(
                cells@.skip(i as int),
                r as int,
                c as int,
            ),
        decreases cells@.len() - i,
    {
        proof {
            assert(cells@.skip(i as int)[0] == cells@[i as int]);
            assert(cells@.skip(i as int).skip(1) =~= cells@.skip(i as int + 1));
        }
        if cells[i].row == r && cells[i].col == c {
            return Some(cells[i].val.duplicate());
        }
        i += 1;
    }
    None
}

/// Resolve every desired field against a sheet's anchor map.  A field
/// whose anchor is absent, or whose displaced target lies outside the
/// sheet, resolves to `Absent` rather than an error.
pub fn resolve_fields(sheet: &Sheet, desired: &Vec<DesiredData>) -> (r: Vec<FieldValue>)
    ensures
        r@.len() == desired@.len(),
        forall|i: int|
            0 <= i < desired@.len() ==> r@[i] == spec_resolved_field(
                sheet.data@,
                assoc_map(sheet.search_points@),
                #[trigger] desired@[i],
            ),
{
    let mut out: Vec<FieldValue> = Vec::new();
    let mut i: usize = 0;
    while i < desired.len()
        invariant
            i <= desired@.len(),
            out@.len() == i,
            forall|j: int|
                0 <= j < i ==> out@[j] == spec_resolved_field(
                    sheet.data@,
                    assoc_map(sheet.search_points@),
                    #[trigger] desired@[j],
                ),
        decreases desired@.len() - i,
    {
        let d = &desired[i];
        let tag: String = match &d.offset {
            None => lowercase(d.name.as_str()),
            Some(o) => o.0.clone(),
        };
        let v: FieldValue = match get_point(&sheet.search_points, &tag) {
            None => FieldValue::Absent,
            Some(rc) => {
                let (tr, tc): (i128, i128) = match &d.offset {
                    None => (rc.0 as i128, rc.1 as i128),
                    Some(o) => (rc.0 as i128 + o.1.0 as i128, rc.1 as i128 + o.1.1 as i128),
                };
                if tr < 0 || tc < 0 || tr > usize::MAX as i128 || tc > usize::MAX as i128 {
                    FieldValue::Absent
                } else {
                    match cell_at(&sheet.data, tr as usize, tc as usize) {
                        Some(v) => v,
                        None => FieldValue::Absent,
                    }
                }
            },
        };
        out.push(v);
        i += 1;
    }
    out
}

impl Act {
    /// Assemble a document record from a resolved sheet, the desired field
    /// table, and the aggregated totals rows the caller supplies.
    pub fn from_sheet(
        sheet: &Sheet,
        desired: &Vec<DesiredData>,
        data_of_totals: Vec<TotalsRow>,
    ) -> (a: Act)
        ensures
            a.path == sheet.path,
            a.names_of_header@.len() == desired@.len(),
            forall|i: int|
                0 <= i < desired@.len() ==> a.names_of_header@[i]@ == (
                #[trigger] desired@[i]).name@,
            a.data_of_header@.len() == desired@.len(),
            forall|i: int|
                0 <= i < desired@.len() ==> a.data_of_header@[i] == spec_resolved_field(
                    sheet.data@,
                    assoc_map(sheet.search_points@),
                    #[trigger] desired@[i],
                ),
            a.data_of_totals == data_of_totals,
    {
        let data_of_header = resolve_fields(sheet, desired);
        let mut names_of_header: Vec<String> = Vec::new();
        let mut i: usize = 0;
        while i < desired.len()
            invariant
                i <= desired@.len(),
                names_of_header@.len() == i,
                forall|j: int|
                    0 <= j < i ==> names_of_header@[j]@ == (#[trigger] desired@[j]).name@,
            decreases desired@.len() - i,
        {
            names_of_header.push(desired[i].name.clone());
            i += 1;
        }
        Act { path: sheet.path.clone(), names_of_header, data_of_header, data_of_totals }
    }
}

/// Does one anchor tuple hold the given configuration values?
pub open spec fn point_is(p: ReferencePoint, off: int, req: Required, tag: Seq<char>) -> bool {
    p.0 == off && p.1 == req && p.2@ == tag
}

/// The process-wide anchor table, in the declared (vertical) search order.
/// The first element of each tuple is the column offset the geometric check
/// constant is recomputed from; the tags are already case-folded.
pub fn search_reference_points() -> (r: Vec<ReferencePoint>)
    ensures
        r@.len() == 10,
        point_is(r@[0], 0, Required::N, "исполнитель"@),
        point_is(r@[1], 0, Required::Y, "стройка"@),
        point_is(r@[2], 0, Required::Y, "объект"@),
        point_is(r@[3], 9, Required::Y, "договор подряда"@),
        point_is(r@[4], 9, Required::Y, "доп. соглашение"@),
        point_is(r@[5], 5, Required::Y, "номер документа"@),
        point_is(r@[6], 3, Required::Y, "наименование работ и затрат"@),
        point_is(r@[7], 11, Required::N, "зтр всего чел.-час"@),
        point_is(r@[8], 0, Required::N, "итого по акту:"@),
        point_is(r@[9], 3, Required::Y, "стоимость материальных ресурсов (всего)"@),
        anchors_distinct(r@),
        has_required(r@),
        last_required(r@) == 9,
        first_required(r@) == 1,
{
    let mut v: Vec<ReferencePoint> = Vec::new();
    v.push((0, Required::N, String::from_str("исполнитель")));
    v.push((0, Required::Y, String::from_str("стройка")));
    v.push((0, Required::Y, String::from_str("объект")));
    v.push((9, Required::Y, String::from_str("договор подряда")));
    v.push((9, Required::Y, String::from_str("доп. соглашение")));
    v.push((5, Required::Y, String::from_str("номер документа")));
    v.push((3, Required::Y, String::from_str("наименование работ и затрат")));
    v.push((11, Required::N, String::from_str("зтр всего чел.-час")));
    v.push((0, Required::N, String::from_str("итого по акту:")));
    v.push((3, Required::Y, String::from_str("стоимость материальных ресурсов (всего)")));
    proof {
        reveal_strlit("исполнитель");
        reveal_strlit("стройка");
        reveal_strlit("объект");
        reveal_strlit("договор подряда");
        reveal_strlit("доп. соглашение");
        reveal_strlit("номер документа");
        reveal_strlit("наименование работ и затрат");
        reveal_strlit("зтр всего чел.-час");
        reveal_strlit("итого по акту:");
        reveal_strlit("стоимость материальных ресурсов (всего)");
        assert forall|i: int, j: int| 0 <= i < j < v@.len() implies (#[trigger] v@[i]).2@ != (
        #[trigger] v@[j]).2@ by {
            let a = v@[i].2@;
            let b = v@[j].2@;
            if a.len() == b.len() {
                // Only the three 15-character tags share a length; their
                // leading characters tell them apart.
                assert(a[0] != b[0] || a[2] != b[2]);
            }
        }
        assert(has_required(v@)) by {
            assert(v@[1].1 == Required::Y);
        }
        lemma_last_required(v@);
        lemma_first_required(v@);
        assert(last_required(v@) == 9) by {
            assert(v@[9].1 == Required::Y);
            assert(v@.last() == v@[9]);
        }
        assert(first_required(v@) == 1) by {
            assert(v@.skip(1)[0] == v@[1]);
            assert(v@.skip(0) =~= v@);
        }
    }
    v
}

/// Does one desired-field entry hold the given configuration values?
pub open spec fn desired_is(d: DesiredData, name: Seq<char>, off: Option<(Seq<char>, (int, int))>) -> bool {
    d.name@ == name && match (d.offset, off) {
        (None, None) => true,
        (Some(o), Some(so)) => o.0@ == so.0 && o.1.0 as int == so.1.0 && o.1.1 as int == so.1.1,
        _ => false,
    }
}

/// The process-wide table of desired output fields: each either bound
/// directly to an anchor's own cell or derived from a named anchor by a
/// (row delta, column delta) pair.
pub fn desired_data_array() -> (r: Vec<DesiredData>)
    ensures
        r@.len() == 16,
        desired_is(r@[0], "Исполнитель"@, None),
        desired_is(r@[1], "Глава"@, None),
        desired_is(r@[2], "Глава наименование"@, None),
        desired_is(r@[3], "Объект"@, Some(("объект"@, (0int, 3int)))),
        desired_is(r@[4], "Договор №"@, Some(("договор подряда"@, (0int, 2int)))),
        desired_is(r@[5], "Договор дата"@, Some(("договор подряда"@, (1int, 2int)))),
        desired_is(r@[6], "Смета №"@, Some(("договор подряда"@, (0int, -9int)))),
        desired_is(r@[7], "Смета наименование"@, Some(("договор подряда"@, (1int, -9int)))),
        desired_is(r@[8], "По смете в ц.2000г."@, Some(("доп. соглашение"@, (0int, -4int)))),
        desired_is(
            r@[9],
            "Выполнение работ в ц.2000г."@,
            Some(("доп. соглашение"@, (1int, -4int))),
        ),
        desired_is(r@[10], "Акт №"@, Some(("номер документа"@, (2int, 0int)))),
        desired_is(r@[11], "Акт дата"@, Some(("номер документа"@, (2int, 4int)))),
        desired_is(
            r@[12],
            "Отчетный период начало"@,
            Some(("номер документа"@, (2int, 5int))),
        ),
        desired_is(
            r@[13],
            "Отчетный период окончание"@,
            Some(("номер документа"@, (2int, 6int))),
        ),
        desired_is(
            r@[14],
            "Метод расчета"@,
            Some(("наименование работ и затрат"@, (-1int, -3int))),
        ),
        desired_is(r@[15], "Затраты труда, чел.-час"@, None),
    {
    let mut v: Vec<DesiredData> = Vec::new();
    v.push(DesiredData { name: String::from_str("Исполнитель"), offset: None });
    v.push(DesiredData { name: String::from_str("Глава"), offset: None });
    v.push(DesiredData { name: String::from_str("Глава наименование"), offset: None });
    v.push(
        DesiredData {
            name: String::from_str("Объект"),
            offset: Some((String::from_str("объект"), (0, 3))),
        },
    );
    v.push(
        DesiredData {
            name: String::from_str("Договор №"),
            offset: Some((String::from_str("договор подряда"), (0, 2))),
        },
    );
    v.push(
        DesiredData {
            name: String::from_str("Договор дата"),
            offset: Some((String::from_str("договор подряда"), (1, 2))),
        },
    );
    v.push(
        DesiredData {
            name: String::from_str("Смета №"),
            offset: Some((String::from_str("договор подряда"), (0, -9))),
        },
    );
    v.push(
        DesiredData {
            name: String::from_str("Смета наименование"),
            offset: Some((String::from_str("договор подряда"), (1, -9))),
        },
    );
    v.push(
        DesiredData {
            name: String::from_str("По смете в ц.2000г."),
            offset: Some((String::from_str("доп. соглашение"), (0, -4))),
        },
    );
    v.push(
        DesiredData {
            name: String::from_str("Выполнение работ в ц.2000г."),
            offset: Some((String::from_str("доп. соглашение"), (1, -4))),
        },
    );
    v.push(
        DesiredData {
            name: String::from_str("Акт №"),
            offset: Some((String::from_str("номер документа"), (2, 0))),
        },
    );
    v.push(
        DesiredData {
            name: String::from_str("Акт дата"),
            offset: Some((String::from_str("номер документа"), (2, 4))),
        },
    );
    v.push(
        DesiredData {
            name: String::from_str("Отчетный период начало"),
            offset: Some((String::from_str("номер документа"), (2, 5))),
        },
    );
    v.push(
        DesiredData {
            name: String::from_str("Отчетный период окончание"),
            offset: Some((String::from_str("номер документа"), (2, 6))),
        },
    );
    v.push(
        DesiredData {
            name: String::from_str("Метод расчета"),
            offset: Some((String::from_str("наименование работ и затрат"), (-1, -3))),
        },
    );
    v.push(DesiredData { name: String::from_str("Затраты труда, чел.-час"), offset: None });
    v
}

/// Find the sheet whose name equals the user-entered name up to case
/// folding, returning the first such index: the caller reports the exact
/// stored name on success and the full name list on failure.
pub fn find_sheet_name(sheet_names: &Vec<String>, user_entered_sh_name: &str) -> (r: Option<usize>)
    ensures
        match r {
            Some(i) => i < sheet_names@.len() && lower_of(sheet_names@[i as int]@) == lower_of(
                user_entered_sh_name@,
            ) && forall|j: int|
                0 <= j < i ==> lower_of((#[trigger] sheet_names@[j])@) != lower_of(
                    user_entered_sh_name@,
                ),
            None => forall|j: int|
                0 <= j < sheet_names@.len() ==> lower_of((#[trigger] sheet_names@[j])@)
                    != lower_of(user_entered_sh_name@),
        },
{
    let entered_lower = lowercase(user_entered_sh_name);
    let mut i: usize = 0;
    while i < sheet_names.len()
        invariant
            i <= sheet_names@.len(),
            entered_lower@ == lower_of(user_entered_sh_name@),
            forall|j: int|
                0 <= j < i ==> lower_of((#[trigger] sheet_names@[j])@) != lower_of(
                    user_entered_sh_name@,
                ),
        decreases sheet_names@.len() - i,
    {
        let low = lowercase(sheet_names[i].as_str());
        if low.eq(&entered_lower) {
            return Some(i);
        }
        i += 1;
    }
    None
}

/// Select the sheet to read: the first whose name equals the user-entered
/// name up to case folding, returned with its exact stored spelling.  When
/// none matches, the error carries the path, the searched name and the
/// full list of available names, so the caller can report precisely.
pub fn select_sheet_name(
    file_path: &str,
    sheet_names: &Vec<String>,
    user_entered_sh_name: &str,
) -> (r: Result<String, Error>)
    ensures
        match r {
            Ok(nm) => exists|j: int|
                0 <= j < sheet_names@.len() && nm@ == (#[trigger] sheet_names@[j])@ && lower_of(
                    sheet_names@[j]@,
                ) == lower_of(user_entered_sh_name@),
            Err(e) => (forall|j: int|
                0 <= j < sheet_names@.len() ==> lower_of((#[trigger] sheet_names@[j])@)
                    != lower_of(user_entered_sh_name@)) && (match e {
                Error::SheetNotFound { file_path: fp, sh_name_for_search, sh_names } => fp@
                    == file_path@ && sh_name_for_search@ == user_entered_sh_name@
                    && sh_names@.len() == sheet_names@.len() && (forall|j: int|
                    0 <= j < sheet_names@.len() ==> (#[trigger] sh_names@[j])@
                        == sheet_names@[j]@),
                _ => false,
            }),
        },
{
    match find_sheet_name(sheet_names, user_entered_sh_name) {
        Some(i) => Ok(sheet_names[i].clone()),
        None => {
            let mut copies: Vec<String> = Vec::new();
            let mut i: usize = 0;
            while i < sheet_names.len()
                invariant
                    i <= sheet_names@.len(),
                    copies@.len() == i,
                    forall|j: int|
                        0 <= j < i ==> (#[trigger] copies@[j])@ == sheet_names@[j]@,
                decreases sheet_names@.len() - i,
            {
                copies.push(sheet_names[i].clone());
                i += 1;
            }
            Err(
                Error::SheetNotFound {
                    file_path: file_path.to_owned(),
                    sh_name_for_search: user_entered_sh_name.to_owned(),
                    sh_names: copies,
                },
            )
        },
    }
}

/// A workbook file is a candidate when its name does not begin with the
/// lock-file tilde and carries the workbook extension.
pub fn is_candidate_file_name(name: &str) -> (r: bool)
    ensures
        r == (!(name@.len() > 0 && name@[0] == '~') && is_suffix_of(".xlsm"@, name@)),
{
    let n = name.unicode_len();
    let starts_tilde = if n > 0 {
        name.get_char(0) == '~'
    } else {
        false
    };
    let ends = str_ends_with(name, ".xlsm");
    !starts_tilde && ends
}

/// A path is excluded from ingestion when it carries the exclusion tag.
pub fn path_is_excluded(path_rel: &str) -> (r: bool)
    ensures
        r == (exists|i: int| 0 <= i < path_rel@.len() && path_rel@[i] == '@'),
{
    match find_char(path_rel, '@') {
        Some(_) => true,
        None => false,
    }
}

proof fn lemma_find_from_le(cells: Seq<Cell>, from: int, tag: Seq<char>, i0: int)
    requires
        0 <= from <= i0 < cells.len(),
        cell_matches(cells[i0], tag),
    ensures
        spec_find_from(cells, from, tag) matches Some(j) && from <= j <= i0,
    decreases i0 - from,
{
    if !cell_matches(cells[from], tag) {
        lemma_find_from_le(cells, from + 1, tag, i0);
    }
}

/// The positive half of the ordering law: when every required anchor has a
/// matching cell and those cells appear in the anchors' declared order,
/// the shared-cursor scan finds all of them, so resolution is complete and
/// only the geometric check can still reject the sheet.
pub proof fn lemma_ordered_required_anchors_found(
    cells: Seq<Cell>,
    anchors: Seq<ReferencePoint>,
    idx: Seq<int>,
)
    requires
        anchors_distinct(anchors),
        has_required(anchors),
        idx.len() == anchors.len(),
        forall|j: int|
            0 <= j < anchors.len() && (#[trigger] anchors[j]).1 == Required::Y ==> 0 <= idx[j]
                < cells.len() && cell_matches(cells[idx[j]], anchors[j].2@),
        forall|j1: int, j2: int|
            0 <= j1 < j2 < anchors.len() && (#[trigger] anchors[j1]).1 == Required::Y && (
            #[trigger] anchors[j2]).1 == Required::Y ==> idx[j1] < idx[j2],
    ensures
        forall|j: int|
            0 <= j < anchors.len() && (#[trigger] anchors[j]).1 == Required::Y ==> resolve_map(
                cells,
                anchors,
            ).contains_key(anchors[j].2@),
        resolution_complete(cells, anchors),
{
    lemma_ordered_rec(cells, anchors, idx, anchors.len() as int);
    lemma_last_required(anchors);
}

/// The inductive core: after `k` anchors the cursor has not passed the
/// witness cell of any required anchor still to come, and every required
/// anchor already processed is in the map.
proof fn lemma_ordered_rec(cells: Seq<Cell>, anchors: Seq<ReferencePoint>, idx: Seq<int>, k: int)
    requires
        0 <= k <= anchors.len(),
        idx.len() == anchors.len(),
        forall|j: int|
            0 <= j < anchors.len() && (#[trigger] anchors[j]).1 == Required::Y ==> 0 <= idx[j]
                < cells.len() && cell_matches(cells[idx[j]], anchors[j].2@),
        forall|j1: int, j2: int|
            0 <= j1 < j2 < anchors.len() && (#[trigger] anchors[j1]).1 == Required::Y && (
            #[trigger] anchors[j2]).1 == Required::Y ==> idx[j1] < idx[j2],
    ensures
        ({
            let (m, cur) = spec_resolve(cells, anchors, k);
            cur >= 0 && (forall|j: int|
                0 <= j < k && (#[trigger] anchors[j]).1 == Required::Y ==> m.contains_key(
                    anchors[j].2@,
                )) && (forall|j: int|
                k <= j < anchors.len() && (#[trigger] anchors[j]).1 == Required::Y ==> cur
                    <= idx[j])
        }),
    decreases k,
{
    if k > 0 {
        lemma_ordered_rec(cells, anchors, idx, k - 1);
        let (m0, cur0) = spec_resolve(cells, anchors, k - 1);
        let a = anchors[k - 1];
        if a.1 == Required::Y {
            assert(anchors[k - 1].1 == Required::Y);
            assert(cur0 <= idx[k - 1]);
            lemma_find_from_le(cells, cur0, a.2@, idx[k - 1]);
            let j0 = spec_find_from(cells, cur0, a.2@)->Some_0;
            assert forall|j: int|
                k <= j < anchors.len() && (#[trigger] anchors[j]).1 == Required::Y implies j0 + 1
                <= idx[j] by {
                assert(idx[k - 1] < idx[j]);
            }
        }
    }
}

proof fn lemma_find_from_bounds(cells: Seq<Cell>, from: int, tag: Seq<char>)
    requires
        0 <= from,
        spec_find_from(cells, from, tag) is Some,
    ensures
        from <= spec_find_from(cells, from, tag)->Some_0 < cells.len(),
        cell_matches(cells[spec_find_from(cells, from, tag)->Some_0], tag),
    decreases cells.len() - from,
{
    if from < cells.len() && !cell_matches(cells[from], tag) {
        lemma_find_from_bounds(cells, from + 1, tag);
    }
}

/// Dropping one cell that does not match the tag leaves the search result
/// pointing at the same cell, at its shifted position.
proof fn lemma_find_from_remove(cells: Seq<Cell>, i: int, from: int, tag: Seq<char>)
    requires
        0 <= i < cells.len(),
        !cell_matches(cells[i], tag),
        0 <= from <= cells.len(),
    ensures
        ({
            let cells2 = cells.remove(i);
            let from2: int = if from <= i {
                from
            } else {
                from - 1
            };
            match spec_find_from(cells, from, tag) {
                Some(j) => {
                    let j2: int = if j < i {
                        j
                    } else {
                        j - 1
                    };
                    j != i && spec_find_from(cells2, from2, tag) == Some(j2) && cells2[j2]
                        == cells[j]
                },
                None => spec_find_from(cells2, from2, tag) is None,
            }
        }),
    decreases cells.len() - from,
{
    cells.remove_ensures(i);
    let cells2 = cells.remove(i);
    if from >= cells.len() {
    } else if from == i {
        lemma_find_from_remove(cells, i, from + 1, tag);
    } else if cell_matches(cells[from], tag) {
        let from2: int = if from <= i {
            from
        } else {
            from - 1
        };
        assert(cells2[from2] == cells[from]);
    } else {
        lemma_find_from_remove(cells, i, from + 1, tag);
        let from2: int = if from <= i {
            from
        } else {
            from - 1
        };
        assert(cells2[from2] == cells[from]);
    }
}

/// The inductive core of optional-anchor independence: with one cell gone
/// that no required anchor matches, the two resolver runs keep cursors in
/// step and agree on every tag the removed cell does not match.
proof fn lemma_remove_resolve_rec(cells: Seq<Cell>, anchors: Seq<ReferencePoint>, i: int, k: int)
    requires
        0 <= i < cells.len(),
        0 <= k <= anchors.len(),
        forall|j: int|
            0 <= j < anchors.len() && (#[trigger] anchors[j]).1 == Required::Y ==> !cell_matches(
                cells[i],
                anchors[j].2@,
            ),
    ensures
        ({
            let (m1, c1) = spec_resolve(cells, anchors, k);
            let (m2, c2) = spec_resolve(cells.remove(i), anchors, k);
            &&& 0 <= c1 <= cells.len()
            &&& c2 == (if c1 <= i {
                c1
            } else {
                c1 - 1
            })
            &&& forall|t: Seq<char>|
                !cell_matches(cells[i], t) ==> ((#[trigger] m1.contains_key(t))
                    == m2.contains_key(t) && (m1.contains_key(t) ==> m1[t] == m2[t]))
        }),
    decreases k,
{
    cells.remove_ensures(i);
    let cells2 = cells.remove(i);
    if k > 0 {
        lemma_remove_resolve_rec(cells, anchors, i, k - 1);
        let (m1, c1) = spec_resolve(cells, anchors, k - 1);
        let (m2, c2) = spec_resolve(cells2, anchors, k - 1);
        let (n1, d1) = spec_resolve(cells, anchors, k);
        let (n2, d2) = spec_resolve(cells2, anchors, k);
        let a = anchors[k - 1];
        if a.1 == Required::Y {
            assert(!cell_matches(cells[i], a.2@));
            lemma_find_from_remove(cells, i, c1, a.2@);
            match spec_find_from(cells, c1, a.2@) {
                Some(j) => {
                    lemma_find_from_bounds(cells, c1, a.2@);
                    assert forall|t: Seq<char>| !cell_matches(cells[i], t) implies ((
                    #[trigger] n1.contains_key(t)) == n2.contains_key(t) && (n1.contains_key(t)
                        ==> n1[t] == n2[t])) by {
                        if t != a.2@ {
                            assert(m1.contains_key(t) == m2.contains_key(t) && (m1.contains_key(t)
                                ==> m1[t] == m2[t]));
                        }
                    }
                },
                None => {},
            }
        } else {
            if !cell_matches(cells[i], a.2@) {
                lemma_find_from_remove(cells, i, 0, a.2@);
                match spec_find_from(cells, 0, a.2@) {
                    Some(j) => {
                        lemma_find_from_bounds(cells, 0, a.2@);
                        assert forall|t: Seq<char>| !cell_matches(cells[i], t) implies ((
                        #[trigger] n1.contains_key(t)) == n2.contains_key(t) && (n1.contains_key(
                            t,
                        ) ==> n1[t] == n2[t])) by {
                            if t != a.2@ {
                                assert(m1.contains_key(t) == m2.contains_key(t) && (
                                m1.contains_key(t) ==> m1[t] == m2[t]));
                            }
                        }
                    },
                    None => {},
                }
            } else {
                // the removed cell matches this optional anchor's own tag:
                // only that tag's entry can differ between the two runs
                assert forall|t: Seq<char>| !cell_matches(cells[i], t) implies ((
                #[trigger] n1.contains_key(t)) == n2.contains_key(t) && (n1.contains_key(t)
                    ==> n1[t] == n2[t])) by {
                    assert(t != a.2@);
                    assert(m1.contains_key(t) == m2.contains_key(t) && (m1.contains_key(t)
                        ==> m1[t] == m2[t]));
                }
            }
        }
    }
}

/// The optional-anchor independence law: remove one cell that no required
/// anchor matches — an optional anchor's cell, present in one sheet and
/// absent from an otherwise identical one — and resolution of every anchor
/// the removed cell does not match is unchanged: same presence, same
/// recorded position.
pub proof fn lemma_optional_cell_independent(
    cells: Seq<Cell>,
    anchors: Seq<ReferencePoint>,
    i: int,
)
    requires
        0 <= i < cells.len(),
        forall|j: int|
            0 <= j < anchors.len() && (#[trigger] anchors[j]).1 == Required::Y ==> !cell_matches(
                cells[i],
                anchors[j].2@,
            ),
    ensures
        forall|t: Seq<char>|
            !cell_matches(cells[i], t) ==> ((#[trigger] resolve_map(cells, anchors).contains_key(
                t,
            )) == resolve_map(cells.remove(i), anchors).contains_key(t) && (resolve_map(
                cells,
                anchors,
            ).contains_key(t) ==> resolve_map(cells, anchors)[t] == resolve_map(
                cells.remove(i),
                anchors,
            )[t])),
{
    lemma_remove_resolve_rec(cells, anchors, i, anchors.len() as int);
}

proof fn lemma_assoc_values_bounded(points: Seq<(String, (usize, usize))>, t: Seq<char>)
    requires
        assoc_map(points).contains_key(t),
    ensures
        0 <= assoc_map(points)[t].0 <= usize::MAX,
        0 <= assoc_map(points)[t].1 <= usize::MAX,
    decreases points.len(),
{
    if points.len() > 0 {
        if points.last().0@ != t {
            lemma_assoc_values_bounded(points.drop_last(), t);
        }
    }
}

/// The verbatim round trip: a desired field bound with a `None` offset
/// resolves to the raw value of its anchor's own cell, unchanged.
pub proof fn lemma_none_offset_verbatim(sheet: Sheet, d: DesiredData, v: FieldValue)
    requires
        d.offset is None,
        assoc_map(sheet.search_points@).contains_key(lower_of(d.name@)),
        spec_cell_value(
            sheet.data@,
            assoc_map(sheet.search_points@)[lower_of(d.name@)].0,
            assoc_map(sheet.search_points@)[lower_of(d.name@)].1,
        ) == Some(v),
    ensures
        spec_resolved_field(sheet.data@, assoc_map(sheet.search_points@), d) == v,
{
    lemma_assoc_values_bounded(sheet.search_points@, lower_of(d.name@));
}

/// When no entry from position `i` on carries the tag, the full map and the
/// map of the prefix agree on the tag.
proof fn lemma_assoc_agrees(points: Seq<(String, (usize, usize))>, tag: Seq<char>, i: int)
    requires
        0 <= i <= points.len(),
        forall|j: int| i <= j < points.len() ==> (#[trigger] points[j]).0@ != tag,
    ensures
        assoc_map(points).contains_key(tag) == assoc_map(points.subrange(0, i)).contains_key(tag),
        assoc_map(points).contains_key(tag) ==> assoc_map(points)[tag] == assoc_map(
            points.subrange(0, i),
        )[tag],
    decreases points.len(),
{
    if i < points.len() {
        let sub = points.drop_last();
        assert(points.last().0@ != tag);
        lemma_assoc_agrees(sub, tag, i);
        assert(sub.subrange(0, i) =~= points.subrange(0, i));
    } else {
        assert(points.subrange(0, i) =~= points);
    }
}

} // verus!
