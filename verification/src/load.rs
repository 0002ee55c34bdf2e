//! The schema reconciler: merges the programmer-declared canonical column
//! template with the totals columns discovered from the first ingested
//! document, projects every document's header fields and totals rows onto
//! the frozen layout, and assembles the final header row of the report.
//!
//! The reconciler computes *where* every value belongs and hands the caller
//! a list of cell-write instructions; performing the writes against a
//! workbook happens outside the library.

use vstd::prelude::*;
use vstd::string::*;

use crate::text::count_char;
use crate::text::count_char_in;
use crate::text::find_char;
use crate::text::after_last_char;
use crate::text::spec_after_last_char;
use crate::text::is_prefix_of;
use crate::text::seq_contains;
use crate::text::spec_replace;
use crate::text::str_contains;
use crate::text::str_eq;
use crate::text::str_replace;
use crate::text::str_starts_with;
use crate::transform::Act;
use crate::transform::FieldValue;
use crate::transform::TotalsRow;
use crate::transform::act_wf;
use crate::transform::totals_row_wf;

verus! {

/// What becomes of a column when the final layout is assembled: kept in
/// place, repositioned into a discovered section, or dropped entirely.  A
/// dropped column occupies no width and can never be claimed for writing.
#[derive(Debug, Clone, PartialEq, Eq, Structural)]
pub enum Moving {
    No,
    Yes,
    Del,
}

/// How a totals-row name is matched against a column's stored text.
#[derive(Debug, PartialEq, Eq, Structural, Clone)]
pub enum Matches {
    Exact,
    Contains,
}

/// The two independent totals sub-schemas.
#[derive(Debug, PartialEq, Eq, Structural, Clone, Copy)]
pub enum Family {
    Base,
    Curr,
}

/// Where an output column's values come from: a resolved header field, a
/// totals row matched at current or at base prices, or a named derivation
/// computed from other fields.
#[derive(Debug, PartialEq)]
pub enum Source {
    InTableHeader(String),
    AtCurrPrices(String, Matches),
    AtBasePrices(String, Matches),
    Calculate(String),
}

/// One column of the output schema.
#[derive(Debug, PartialEq)]
pub struct OutputData {
    pub rename: Option<String>,
    pub moving: Moving,
    pub expected_columns: u16,
    pub source: Source,
}

/// The mathematical shape of a `Source`.
pub ghost enum SourceModel {
    InTableHeader(Seq<char>),
    AtCurrPrices(Seq<char>, Matches),
    AtBasePrices(Seq<char>, Matches),
    Calculate(Seq<char>),
}

/// The mathematical shape of an `OutputData` column.
pub ghost struct ColModel {
    pub rename: Option<Seq<char>>,
    pub moving: Moving,
    pub expected_columns: u16,
    pub source: SourceModel,
}

impl View for Source {
    type V = SourceModel;

    open spec fn view(&self) -> SourceModel {
        match self {
            Source::InTableHeader(s) => SourceModel::InTableHeader(s@),
            Source::AtCurrPrices(s, m) => SourceModel::AtCurrPrices(s@, *m),
            Source::AtBasePrices(s, m) => SourceModel::AtBasePrices(s@, *m),
            Source::Calculate(s) => SourceModel::Calculate(s@),
        }
    }
}

impl View for OutputData {
    type V = ColModel;

    open spec fn view(&self) -> ColModel {
        ColModel {
            rename: match self.rename {
                Some(s) => Some(s@),
                None => None,
            },
            moving: self.moving,
            expected_columns: self.expected_columns,
            source: self.source@,
        }
    }
}

/// The column models of a column vector.
pub open spec fn cols(v: Seq<OutputData>) -> Seq<ColModel> {
    v.map_values(|o: OutputData| o@)
}

/// The family a column belongs to, when its source is a totals source.
pub open spec fn source_family(s: SourceModel) -> Option<Family> {
    match s {
        SourceModel::AtBasePrices(_, _) => Some(Family::Base),
        SourceModel::AtCurrPrices(_, _) => Some(Family::Curr),
        _ => None,
    }
}

/// The match mode of a totals source.
pub open spec fn source_mode(s: SourceModel) -> Option<Matches> {
    match s {
        SourceModel::AtBasePrices(_, m) => Some(m),
        SourceModel::AtCurrPrices(_, m) => Some(m),
        _ => None,
    }
}

/// The text stored in a source.
pub open spec fn source_text(s: SourceModel) -> Seq<char> {
    match s {
        SourceModel::InTableHeader(t) => t,
        SourceModel::AtCurrPrices(t, _) => t,
        SourceModel::AtBasePrices(t, _) => t,
        SourceModel::Calculate(t) => t,
    }
}

/// The total width a column vector occupies: the sum of the expected
/// widths of all columns that are not dropped.
pub open spec fn spec_count_col(v: Seq<ColModel>) -> int
    decreases v.len(),
{
    if v.len() == 0 {
        0
    } else {
        (if v[0].moving is Del {
            0int
        } else {
            v[0].expected_columns as int
        }) + spec_count_col(v.skip(1))
    }
}

pub proof fn lemma_count_col_nonneg(v: Seq<ColModel>)
    ensures
        spec_count_col(v) >= 0,
    decreases v.len(),
{
    if v.len() > 0 {
        lemma_count_col_nonneg(v.skip(1));
    }
}

/// One unfolding step of `spec_count_col` in the middle of a vector.
pub proof fn lemma_count_col_step(v: Seq<ColModel>, i: int)
    requires
        0 <= i < v.len(),
    ensures
        spec_count_col(v.skip(i)) == (if v[i].moving is Del {
            0int
        } else {
            v[i].expected_columns as int
        }) + spec_count_col(v.skip(i + 1)),
{
    assert(v.skip(i)[0] == v[i]);
    assert(v.skip(i).skip(1) =~= v.skip(i + 1));
}

/// A column claims a totals-row name when it belongs to the queried family,
/// carries the queried match mode, and its stored text matches the name
/// under that mode.
pub open spec fn col_claims(c: ColModel, fam: Family, name: Seq<char>, m: Matches) -> bool {
    source_family(c.source) == Some(fam) && source_mode(c.source) == Some(m) && (match m {
        Matches::Exact => source_text(c.source) == name,
        Matches::Contains => seq_contains(name, source_text(c.source)),
    })
}

/// The left-to-right column scan: dropped columns are skipped entirely
/// (never claimed, never counted); any other column either claims the name,
/// yielding its position index and running column offset, or advances both.
pub open spec fn get_col_rec(
    v: Seq<ColModel>,
    fam: Family,
    name: Seq<char>,
    m: Matches,
    index: int,
    counter: int,
) -> Option<(int, int)>
    decreases v.len(),
{
    if v.len() == 0 {
        None
    } else if v[0].moving is Del {
        get_col_rec(v.skip(1), fam, name, m, index, counter)
    } else if col_claims(v[0], fam, name, m) {
        Some((index, counter))
    } else {
        get_col_rec(v.skip(1), fam, name, m, index + 1, counter + v[0].expected_columns)
    }
}

/// The position and column offset at which a name is claimed, if any.
pub open spec fn spec_get_column(v: Seq<ColModel>, fam: Family, name: Seq<char>, m: Matches) -> Option<
    (int, int),
> {
    get_col_rec(v, fam, name, m, 0, 0)
}

/// The `i`-th column among those that are not dropped.
pub open spec fn counted_col(v: Seq<ColModel>, i: int) -> ColModel
    decreases v.len(),
{
    if v.len() == 0 {
        ColModel {
            rename: None,
            moving: Moving::Del,
            expected_columns: 0,
            source: SourceModel::Calculate(Seq::empty()),
        }
    } else if v[0].moving is Del {
        counted_col(v.skip(1), i)
    } else if i == 0 {
        v[0]
    } else {
        counted_col(v.skip(1), i - 1)
    }
}

/// What a successful scan pins down: the claimed column is the `index`-th
/// counted column, it claims the name, its offset plus its width stay
/// within the vector's total width, and no counted column left of it
/// claims the name.
pub proof fn lemma_get_column_claims(
    v: Seq<ColModel>,
    fam: Family,
    name: Seq<char>,
    m: Matches,
    index: int,
    counter: int,
)
    requires
        get_col_rec(v, fam, name, m, index, counter) is Some,
    ensures
        ({
            let (i, c) = get_col_rec(v, fam, name, m, index, counter)->Some_0;
            &&& index <= i
            &&& counter <= c
            &&& col_claims(counted_col(v, i - index), fam, name, m)
            &&& !(counted_col(v, i - index).moving is Del)
            &&& c + counted_col(v, i - index).expected_columns <= counter + spec_count_col(v)
            &&& forall|k: int|
                0 <= k < i - index ==> !col_claims(#[trigger] counted_col(v, k), fam, name, m)
        }),
    decreases v.len(),
{
    lemma_count_col_nonneg(v);
    if v.len() > 0 {
        let (i, c) = get_col_rec(v, fam, name, m, index, counter)->Some_0;
        if v[0].moving is Del {
            lemma_get_column_claims(v.skip(1), fam, name, m, index, counter);
            lemma_count_col_step(v, 0);
            assert forall|k: int|
                0 <= k < i - index implies !col_claims(#[trigger] counted_col(v, k), fam, name, m) by {
                assert(counted_col(v, k) == counted_col(v.skip(1), k));
            }
        } else if col_claims(v[0], fam, name, m) {
            lemma_count_col_step(v, 0);
            lemma_count_col_nonneg(v.skip(1));
        } else {
            lemma_get_column_claims(
                v.skip(1),
                fam,
                name,
                m,
                index + 1,
                counter + v[0].expected_columns,
            );
            lemma_count_col_step(v, 0);
            assert(counted_col(v, i - index) == counted_col(v.skip(1), i - (index + 1)));
            assert forall|k: int|
                0 <= k < i - index implies !col_claims(#[trigger] counted_col(v, k), fam, name, m) by {
                if k == 0 {
                    assert(counted_col(v, 0) == v[0]);
                } else {
                    assert(counted_col(v, k) == counted_col(v.skip(1), k - 1));
                }
            }
        }
    }
}

/// Does this column claim the name for the given family and mode?
fn col_claims_exec(o: &OutputData, fam: Family, name: &str, m: &Matches) -> (r: bool)
    ensures
        r == col_claims(o@, fam, name@, *m),
{
    match &o.source {
        Source::AtBasePrices(t, mm) => {
            if fam == Family::Base && *mm == *m {
                match m {
                    Matches::Exact => crate::text::str_eq(t.as_str(), name),
                    Matches::Contains => str_contains(name, t.as_str()),
                }
            } else {
                false
            }
        },
        Source::AtCurrPrices(t, mm) => {
            if fam == Family::Curr && *mm == *m {
                match m {
                    Matches::Exact => crate::text::str_eq(t.as_str(), name),
                    Matches::Contains => str_contains(name, t.as_str()),
                }
            } else {
                false
            }
        },
        _ => false,
    }
}

/// An ordered section of the output schema and its total occupied width.
/// The width is fixed at construction and never changes.
#[derive(Debug)]
pub struct PrintPart {
    vector: Vec<OutputData>,
    total_col: u16,
}

impl View for PrintPart {
    type V = Seq<ColModel>;

    closed spec fn view(&self) -> Seq<ColModel> {
        cols(self.vector@)
    }
}

impl PrintPart {
    /// The stored total equals the width of the stored columns.
    pub closed spec fn wf(self) -> bool {
        self.total_col as int == spec_count_col(self@)
    }

    /// Build a layout section; `None` exactly when the column widths do
    /// not fit the 16-bit column space.
    pub fn new(vector: Vec<OutputData>) -> (r: Option<PrintPart>)
        ensures
            match r {
                Some(p) => p@ == cols(vector@) && p.wf(),
                None => spec_count_col(cols(vector@)) > u16::MAX,
            },
    {
        match Self::count_col(&vector) {
            Some(total_col) => Some(PrintPart { vector, total_col }),
            None => None,
        }
    }

    /// The total width of the section.
    pub fn get_number_of_columns(&self) -> (r: u16)
        requires
            self.wf(),
        ensures
            r as int == spec_count_col(self@),
    {
        self.total_col
    }

    /// Scan the section for the column that claims `name` in the given
    /// family under the given match mode, returning its position index and
    /// running column offset.
    pub fn get_column_by(&self, fam: Family, name: &str, matches: &Matches) -> (r: Option<
        (usize, u16, u16),
    >)
        requires
            self.wf(),
        ensures
            match spec_get_column(self@, fam, name@, *matches) {
                Some((i, c)) => r matches Some(p) && p.0 == i && p.1 == c && p.2 == counted_col(
                    self@,
                    i,
                ).expected_columns,
                None => r is None,
            },
    {
        let ghost s = self@;
        let mut index: usize = 0;
        let mut counter: u16 = 0;
        let mut i: usize = 0;
        proof {
            assert(s.skip(0) =~= s);
            lemma_count_col_nonneg(s);
        }
        while i < self.vector.len()
            invariant
                self.wf(),
                s == self@,
                i <= self.vector@.len(),
                s.len() == self.vector@.len(),
                index <= i,
                spec_get_column(s, fam, name@, *matches) == get_col_rec(
                    s.skip(i as int),
                    fam,
                    name@,
                    *matches,
                    index as int,
                    counter as int,
                ),
                counter as int + spec_count_col(s.skip(i as int)) == spec_count_col(s),
                forall|k: int|
                    0 <= k ==> counted_col(s, index as int + k) == #[trigger] counted_col(
                        s.skip(i as int),
                        k,
                    ),
            decreases self.vector@.len() - i,
        {
            proof {
                lemma_count_col_step(s, i as int);
                lemma_count_col_nonneg(s.skip(i as int + 1));
                assert(s[i as int] == self.vector@[i as int]@);
                assert(s.skip(i as int)[0] == s[i as int]);
                assert(s.skip(i as int).skip(1) =~= s.skip(i as int + 1));
            }
            let o = &self.vector[i];
            if !matches!(o.moving, Moving::Del) {
                if col_claims_exec(o, fam, name, matches) {
                    proof {
                        assert(counted_col(s.skip(i as int), 0) == s[i as int]);
                        assert(counted_col(s, index as int) == s[i as int]);
                    }
                    return Some((index, counter, o.expected_columns));
                }
                proof {
                    assert forall|k: int| 0 <= k implies counted_col(s, index as int + 1 + k)
                        == #[trigger] counted_col(s.skip(i as int + 1), k) by {
                        assert(counted_col(s.skip(i as int), k + 1) == counted_col(
                            s.skip(i as int).skip(1),
                            k,
                        ));
                        assert(counted_col(s, index as int + (k + 1)) == counted_col(
                            s.skip(i as int),
                            k + 1,
                        ));
                    }
                }
                counter = counter + o.expected_columns;
                index += 1;
            } else {
                proof {
                    assert forall|k: int| 0 <= k implies counted_col(s, index as int + k)
                        == #[trigger] counted_col(s.skip(i as int + 1), k) by {
                        assert(counted_col(s.skip(i as int), k) == counted_col(
                            s.skip(i as int).skip(1),
                            k,
                        ));
                    }
                }
            }
            i += 1;
        }
        proof {
            assert(s.skip(i as int) =~= Seq::<ColModel>::empty());
        }
        None
    }

    /// The string-keyed entry point: `kind` selects the family by its tag.
    pub fn get_column(&self, kind: &str, name: &str, matches: Matches) -> (r: Option<
        (usize, u16),
    >)
        requires
            self.wf(),
            kind@ == "base"@ || kind@ == "curr"@,
        ensures
            ({
                let fam = if kind@ == "base"@ {
                    Family::Base
                } else {
                    Family::Curr
                };
                match spec_get_column(self@, fam, name@, matches) {
                    Some((i, c)) => r matches Some(p) && p.0 == i && p.1 == c,
                    None => r is None,
                }
            }),
    {
        proof {
            reveal_strlit("base");
            reveal_strlit("curr");
        }
        let fam = if kind.get_char(0) == 'b' {
            Family::Base
        } else {
            Family::Curr
        };
        match self.get_column_by(fam, name, &matches) {
            Some((i, c, _w)) => Some((i, c)),
            None => None,
        }
    }

    /// The width of a column vector, `None` exactly when it overflows the
    /// 16-bit column space.
    pub fn count_col(vector: &Vec<OutputData>) -> (r: Option<u16>)
        ensures
            match r {
                Some(t) => t as int == spec_count_col(cols(vector@)),
                None => spec_count_col(cols(vector@)) > u16::MAX,
            },
    {
        let ghost s = cols(vector@);
        let mut acc: u16 = 0;
        let mut i: usize = 0;
        proof {
            assert(s.skip(0) =~= s);
        }
        while i < vector.len()
            invariant
                i <= vector@.len(),
                s == cols(vector@),
                s.len() == vector@.len(),
                acc as int + spec_count_col(s.skip(i as int)) == spec_count_col(s),
            decreases vector@.len() - i,
        {
            proof {
                lemma_count_col_step(s, i as int);
                lemma_count_col_nonneg(s.skip(i as int + 1));
                assert(s[i as int] == vector@[i as int]@);
            }
            let o = &vector[i];
            if !matches!(o.moving, Moving::Del) {
                let w = o.expected_columns;
                if u16::MAX - acc < w {
                    return None;
                }
                acc = acc + w;
            }
            i += 1;
        }
        proof {
            assert(s.skip(i as int) =~= Seq::<ColModel>::empty());
        }
        Some(acc)
    }
}

/// The display format a cell instruction asks for.
#[derive(Debug, PartialEq, Eq, Structural, Clone, Copy)]
pub enum CellFormat {
    Plain,
    Date,
    Link,
}

/// One cell-write instruction of the output plan.  `Number` carries the
/// raw 64-bit encoding of the value; `ScaledNumberText` asks the writer to
/// read the decimal text and scale it by one thousand; `Url` and `Formula`
/// are hyperlink cells.
#[derive(Debug, PartialEq)]
pub enum CellWrite {
    Text { row: u32, col: u16, text: String, format: CellFormat },
    Number { row: u32, col: u16, bits: u64, format: CellFormat },
    ScaledNumberText { row: u32, col: u16, text: String },
    Url { row: u32, col: u16, target: String },
    Formula { row: u32, col: u16, formula: String, format: CellFormat },
}

/// The mathematical shape of a cell-write instruction.
pub ghost enum WriteModel {
    Text { row: int, col: int, text: Seq<char>, format: CellFormat },
    Number { row: int, col: int, bits: u64, format: CellFormat },
    ScaledNumberText { row: int, col: int, text: Seq<char> },
    Url { row: int, col: int, target: Seq<char> },
    Formula { row: int, col: int, formula: Seq<char>, format: CellFormat },
}

impl View for CellWrite {
    type V = WriteModel;

    open spec fn view(&self) -> WriteModel {
        match self {
            CellWrite::Text { row, col, text, format } => WriteModel::Text {
                row: *row as int,
                col: *col as int,
                text: text@,
                format: *format,
            },
            CellWrite::Number { row, col, bits, format } => WriteModel::Number {
                row: *row as int,
                col: *col as int,
                bits: *bits,
                format: *format,
            },
            CellWrite::ScaledNumberText { row, col, text } => WriteModel::ScaledNumberText {
                row: *row as int,
                col: *col as int,
                text: text@,
            },
            CellWrite::Url { row, col, target } => WriteModel::Url {
                row: *row as int,
                col: *col as int,
                target: target@,
            },
            CellWrite::Formula { row, col, formula, format } => WriteModel::Formula {
                row: *row as int,
                col: *col as int,
                formula: formula@,
                format: *format,
            },
        }
    }
}

/// The models of a write-instruction vector.
pub open spec fn wviews(v: Seq<CellWrite>) -> Seq<WriteModel> {
    v.map_values(|w: CellWrite| w@)
}

/// An exact copy of a match mode.
fn duplicate_matches(m: &Matches) -> (r: Matches)
    ensures
        r == *m,
{
    match m {
        Matches::Exact => Matches::Exact,
        Matches::Contains => Matches::Contains,
    }
}

/// An exact copy of one column.
fn duplicate_output(o: &OutputData) -> (r: OutputData)
    ensures
        r@ == o@,
{
    OutputData {
        rename: match &o.rename {
            Some(s) => Some(s.clone()),
            None => None,
        },
        moving: match o.moving {
            Moving::No => Moving::No,
            Moving::Yes => Moving::Yes,
            Moving::Del => Moving::Del,
        },
        expected_columns: o.expected_columns,
        source: match &o.source {
            Source::InTableHeader(s) => Source::InTableHeader(s.clone()),
            Source::AtCurrPrices(s, m) => Source::AtCurrPrices(s.clone(), duplicate_matches(m)),
            Source::AtBasePrices(s, m) => Source::AtBasePrices(s.clone(), duplicate_matches(m)),
            Source::Calculate(s) => Source::Calculate(s.clone()),
        },
    }
}

/// The totals-source columns of the canonical template that belong to one
/// family: the exclusion list the discovery scan consults.
pub open spec fn spec_exclude(part1: Seq<ColModel>, fam: Family) -> Seq<ColModel>
    decreases part1.len(),
{
    if part1.len() == 0 {
        Seq::empty()
    } else {
        (if source_family(part1[0].source) == Some(fam) {
            seq![part1[0]]
        } else {
            Seq::empty()
        }) + spec_exclude(part1.skip(1), fam)
    }
}

/// Does a canonical column's stored text match a totals-row name under the
/// column's own match mode?
pub open spec fn excl_matches(c: ColModel, name: Seq<char>) -> bool {
    match source_mode(c.source) {
        Some(Matches::Exact) => source_text(c.source) == name,
        Some(Matches::Contains) => seq_contains(name, source_text(c.source)),
        None => false,
    }
}

/// The first canonical column of the exclusion list that matches the name.
pub open spec fn spec_scan_excl(ex: Seq<ColModel>, name: Seq<char>) -> Option<ColModel>
    decreases ex.len(),
{
    if ex.len() == 0 {
        None
    } else if excl_matches(ex[0], name) {
        Some(ex[0])
    } else {
        spec_scan_excl(ex.skip(1), name)
    }
}

/// A totals source of the given family.
pub open spec fn mk_source(fam: Family, text: Seq<char>, m: Matches) -> SourceModel {
    match fam {
        Family::Base => SourceModel::AtBasePrices(text, m),
        Family::Curr => SourceModel::AtCurrPrices(text, m),
    }
}

/// The value sequence of a totals row in one family.
pub open spec fn fam_vals(row: TotalsRow, fam: Family) -> Seq<Option<u64>> {
    match fam {
        Family::Base => row.base_price@,
        Family::Curr => row.curr_price@,
    }
}

/// What one totals row contributes to the discovered layout of one family:
/// a fresh `Keep` column sized to the row's value count when the name is
/// unlisted, the same column carrying the canonical rename when the
/// matching canonical column is kept, and nothing when the matching
/// canonical column is repositioned or dropped.  A row whose value
/// sequence in this family holds no values contributes no column at all:
/// every discovered column has a positive width.
pub open spec fn spec_discovered_one(ex: Seq<ColModel>, row: TotalsRow, fam: Family) -> Option<
    ColModel,
> {
    if fam_vals(row, fam).len() == 0 {
        None
    } else {
        spec_discovered_listed(ex, row, fam)
    }
}

/// The exclusion-list decision alone, for a row with values to place.
pub open spec fn spec_discovered_listed(ex: Seq<ColModel>, row: TotalsRow, fam: Family) -> Option<
    ColModel,
> {
    match spec_scan_excl(ex, row.name@) {
        None => Some(
            ColModel {
                rename: None,
                moving: Moving::No,
                expected_columns: fam_vals(row, fam).len() as u16,
                source: mk_source(fam, row.name@, Matches::Exact),
            },
        ),
        Some(c) => if c.moving is No {
            Some(
                ColModel {
                    rename: c.rename,
                    moving: Moving::No,
                    expected_columns: fam_vals(row, fam).len() as u16,
                    source: mk_source(fam, row.name@, Matches::Exact),
                },
            )
        } else {
            None
        },
    }
}

/// Discovery over the first document's rows in order; a name seen before
/// contributes nothing again (first occurrence wins).
pub open spec fn disc_rec(
    totals: Seq<TotalsRow>,
    ex: Seq<ColModel>,
    fam: Family,
    seen: Set<Seq<char>>,
) -> Seq<ColModel>
    decreases totals.len(),
{
    if totals.len() == 0 {
        Seq::empty()
    } else {
        let name = totals[0].name@;
        let head: Seq<ColModel> = if !seen.contains(name) {
            match spec_discovered_one(ex, totals[0], fam) {
                Some(c) => seq![c],
                None => Seq::empty(),
            }
        } else {
            Seq::empty()
        };
        head + disc_rec(totals.skip(1), ex, fam, seen.insert(name))
    }
}

/// The discovered layout of one family, built from the first document.
pub open spec fn spec_discovered(totals: Seq<TotalsRow>, part1: Seq<ColModel>, fam: Family) -> Seq<
    ColModel,
> {
    disc_rec(totals, spec_exclude(part1, fam), fam, Set::empty())
}

/// The names of a row prefix, as the duplicate filter sees them.
pub open spec fn names_set(rows: Seq<TotalsRow>) -> Set<Seq<char>>
    decreases rows.len(),
{
    if rows.len() == 0 {
        Set::empty()
    } else {
        names_set(rows.drop_last()).insert(rows.last().name@)
    }
}

proof fn lemma_names_set_contains(rows: Seq<TotalsRow>, n: Seq<char>)
    ensures
        names_set(rows).contains(n) <==> exists|j: int| 0 <= j < rows.len() && (#[trigger] rows[j]).name@ == n,
    decreases rows.len(),
{
    if rows.len() > 0 {
        lemma_names_set_contains(rows.drop_last(), n);
        if rows.last().name@ == n {
            assert(rows[rows.len() - 1].name@ == n);
        } else if names_set(rows).contains(n) {
            let j = choose|j: int| 0 <= j < rows.len() - 1 && (#[trigger] rows.drop_last()[j]).name@ == n;
            assert(rows[j].name@ == n);
        } else {
            if exists|j: int| 0 <= j < rows.len() && (#[trigger] rows[j]).name@ == n {
                let j = choose|j: int| 0 <= j < rows.len() && (#[trigger] rows[j]).name@ == n;
                assert(j < rows.len() - 1);
                assert(rows.drop_last()[j].name@ == n);
            }
        }
    }
}

/// The canonical columns of one family, in order: the exclusion list.
fn filter_family(part_1: &Vec<OutputData>, fam: Family) -> (r: Vec<OutputData>)
    ensures
        cols(r@) == spec_exclude(cols(part_1@), fam),
{
    let ghost s = cols(part_1@);
    let mut out: Vec<OutputData> = Vec::new();
    let mut i: usize = 0;
    proof {
        assert(s.skip(0) =~= s);
        assert(cols(out@) =~= Seq::<ColModel>::empty());
    }
    while i < part_1.len()
        invariant
            i <= part_1@.len(),
            s == cols(part_1@),
            s.len() == part_1@.len(),
            spec_exclude(s, fam) == cols(out@) + spec_exclude(s.skip(i as int), fam),
        decreases part_1@.len() - i,
    {
        proof {
            assert(s.skip(i as int)[0] == s[i as int]);
            assert(s.skip(i as int).skip(1) =~= s.skip(i as int + 1));
            assert(s[i as int] == part_1@[i as int]@);
        }
        let o = &part_1[i];
        let keep = match &o.source {
            Source::AtBasePrices(_, _) => matches!(fam, Family::Base),
            Source::AtCurrPrices(_, _) => matches!(fam, Family::Curr),
            _ => false,
        };
        if keep {
            let ghost out0 = cols(out@);
            out.push(duplicate_output(o));
            proof {
                assert(cols(out@) =~= out0.push(part_1@[i as int]@));
                assert(out0.push(part_1@[i as int]@) =~= out0 + seq![s[i as int]]);
                assert((cols(out@)) + spec_exclude(s.skip(i as int + 1), fam) =~= out0 + (seq![
                    s[i as int]
                ] + spec_exclude(s.skip(i as int + 1), fam)));
            }
        }
        i += 1;
    }
    proof {
        assert(s.skip(i as int) =~= Seq::<ColModel>::empty());
    }
    out
}

/// Scan the exclusion list for the first column matching the name.
fn scan_excl(ex: &Vec<OutputData>, name: &str) -> (r: Option<usize>)
    ensures
        match r {
            Some(k) => k < ex@.len() && spec_scan_excl(cols(ex@), name@) == Some(ex@[k as int]@),
            None => spec_scan_excl(cols(ex@), name@) is None,
        },
{
    let ghost s = cols(ex@);
    let mut i: usize = 0;
    proof {
        assert(s.skip(0) =~= s);
    }
    while i < ex.len()
        invariant
            i <= ex@.len(),
            s == cols(ex@),
            s.len() == ex@.len(),
            spec_scan_excl(s, name@) == spec_scan_excl(s.skip(i as int), name@),
        decreases ex@.len() - i,
    {
        proof {
            assert(s.skip(i as int)[0] == s[i as int]);
            assert(s.skip(i as int).skip(1) =~= s.skip(i as int + 1));
            assert(s[i as int] == ex@[i as int]@);
        }
        let o = &ex[i];
        let hit = match &o.source {
            Source::AtBasePrices(t, m) | Source::AtCurrPrices(t, m) => {
                match m {
                    Matches::Exact => crate::text::str_eq(t.as_str(), name),
                    Matches::Contains => str_contains(name, t.as_str()),
                }
            },
            _ => false,
        };
        if hit {
            return Some(i);
        }
        i += 1;
    }
    proof {
        assert(s.skip(i as int) =~= Seq::<ColModel>::empty());
    }
    None
}

/// Build the discovered layout of one family from the first document.
fn discover_family(sample: &Act, ex: &Vec<OutputData>, fam: Family) -> (r: Vec<OutputData>)
    requires
        act_wf(*sample),
    ensures
        cols(r@) == disc_rec(sample.data_of_totals@, cols(ex@), fam, Set::empty()),
{
    let ghost rows = sample.data_of_totals@;
    let ghost exs = cols(ex@);
    let mut out: Vec<OutputData> = Vec::new();
    let mut i: usize = 0;
    proof {
        assert(rows.skip(0) =~= rows);
        assert(names_set(rows.subrange(0, 0)) =~= Set::<Seq<char>>::empty());
        assert(cols(out@) =~= Seq::<ColModel>::empty());
    }
    while i < sample.data_of_totals.len()
        invariant
            i <= rows.len(),
            rows == sample.data_of_totals@,
            exs == cols(ex@),
            act_wf(*sample),
            disc_rec(rows, exs, fam, Set::empty()) == cols(out@) + disc_rec(
                rows.skip(i as int),
                exs,
                fam,
                names_set(rows.subrange(0, i as int)),
            ),
        decreases rows.len() - i,
    {
        let row = &sample.data_of_totals[i];
        let ghost seen = names_set(rows.subrange(0, i as int));
        proof {
            assert(rows.skip(i as int)[0] == rows[i as int]);
            assert(rows.skip(i as int).skip(1) =~= rows.skip(i as int + 1));
            assert(rows.subrange(0, i as int + 1).drop_last() =~= rows.subrange(0, i as int));
            assert(rows.subrange(0, i as int + 1).last() == rows[i as int]);
            assert(names_set(rows.subrange(0, i as int + 1)) =~= seen.insert(rows[i as int].name@));
            lemma_names_set_contains(rows.subrange(0, i as int), row.name@);
        }
        // has an earlier row already registered this name?
        let mut dup = false;
        let mut j: usize = 0;
        while j < i
            invariant
                j <= i,
                i < rows.len(),
                rows == sample.data_of_totals@,
                *row == rows[i as int],
                dup <==> exists|k: int| 0 <= k < j && (#[trigger] rows[k]).name@ == rows[i as int].name@,
            decreases i - j,
        {
            if !dup {
                let hit = crate::text::str_eq(
                    sample.data_of_totals[j].name.as_str(),
                    row.name.as_str(),
                );
                if hit {
                    dup = true;
                    proof {
                        assert(rows[j as int].name@ == rows[i as int].name@);
                    }
                }
            }
            j += 1;
        }
        proof {
            assert(dup <==> seen.contains(rows[i as int].name@)) by {
                if dup {
                    let k = choose|k: int|
                        0 <= k < i && (#[trigger] rows[k]).name@ == rows[i as int].name@;
                    assert(rows.subrange(0, i as int)[k].name@ == rows[i as int].name@);
                }
                if seen.contains(rows[i as int].name@) {
                    let k = choose|k: int|
                        0 <= k < i && (#[trigger] rows.subrange(0, i as int)[k]).name@
                            == rows[i as int].name@;
                    assert(rows[k].name@ == rows[i as int].name@);
                }
            }
        }
        let vals_here: usize = match fam {
            Family::Base => row.base_price.len(),
            Family::Curr => row.curr_price.len(),
        };
        // a row with no values in this family discovers no column
        if !dup && vals_here > 0 {
            let scan = scan_excl(ex, row.name.as_str());
            let keep: Option<Option<String>> = match scan {
                None => Some(None),
                Some(k) => {
                    if matches!(ex[k].moving, Moving::No) {
                        Some(
                            match &ex[k].rename {
                                Some(s) => Some(s.clone()),
                                None => None,
                            },
                        )
                    } else {
                        None
                    }
                },
            };
            match keep {
                Some(rename) => {
                    let ghost out0 = cols(out@);
                    let w: u16 = match fam {
                        Family::Base => row.base_price.len() as u16,
                        Family::Curr => row.curr_price.len() as u16,
                    };
                    let src = match fam {
                        Family::Base => Source::AtBasePrices(row.name.clone(), Matches::Exact),
                        Family::Curr => Source::AtCurrPrices(row.name.clone(), Matches::Exact),
                    };
                    out.push(
                        OutputData { rename, moving: Moving::No, expected_columns: w, source: src },
                    );
                    proof {
                        let c = spec_discovered_one(exs, rows[i as int], fam)->Some_0;
                        assert(cols(out@) =~= out0.push(c));
                        assert(out0.push(c) =~= out0 + seq![c]);
                        assert((out0 + seq![c]) + disc_rec(
                            rows.skip(i as int + 1),
                            exs,
                            fam,
                            seen.insert(rows[i as int].name@),
                        ) =~= out0 + (seq![c] + disc_rec(
                            rows.skip(i as int + 1),
                            exs,
                            fam,
                            seen.insert(rows[i as int].name@),
                        )));
                    }
                },
                None => {},
            }
        }
        i += 1;
    }
    proof {
        assert(rows.skip(i as int) =~= Seq::<TotalsRow>::empty());
        assert(rows.subrange(0, i as int) =~= rows);
    }
    out
}

/// How many of a row's values in one family fall beyond its claimed
/// column's frozen width and are silently dropped by projection.
pub open spec fn spec_fam_truncated(r: Report, trow: TotalsRow, fam: Family) -> int {
    let vals = fam_vals(trow, fam);
    match spec_get_column(r.fam_disc(fam), fam, trow.name@, Matches::Exact) {
        Some((i, _c)) => {
            let w = counted_col(r.fam_disc(fam), i).expected_columns as int;
            if vals.len() > w {
                vals.len() - w
            } else {
                0
            }
        },
        None => match spec_get_column(r.part_main@, fam, trow.name@, Matches::Exact) {
            Some((i, _c)) => {
                let w = counted_col(r.part_main@, i).expected_columns as int;
                if vals.len() > w {
                    vals.len() - w
                } else {
                    0
                }
            },
            None => 0,
        },
    }
}

/// The consolidated report in progress: the canonical layout, the two
/// discovered layouts (absent until the first document freezes them), and
/// the next free output row.
pub struct Report {
    pub part_main: PrintPart,
    pub part_base: Option<PrintPart>,
    pub part_curr: Option<PrintPart>,
    pub empty_row: u32,
}

/// The columns of an optional layout section.
pub open spec fn opt_cols(p: Option<PrintPart>) -> Seq<ColModel> {
    match p {
        Some(pp) => pp@,
        None => Seq::empty(),
    }
}

/// No column of the sequence is dropped.
pub open spec fn no_del(v: Seq<ColModel>) -> bool {
    forall|i: int| 0 <= i < v.len() ==> !((#[trigger] v[i]).moving is Del)
}

impl Report {
    /// Both discovered layouts have been frozen from the first document.
    pub open spec fn frozen(self) -> bool {
        self.part_base is Some && self.part_curr is Some
    }

    /// The report's invariant: every section is well formed, the two
    /// discovered sections appear together, they contain no dropped
    /// columns, and once frozen the three sections fit the 16-bit column
    /// space side by side.
    pub open spec fn wf(self) -> bool {
        &&& self.part_main.wf()
        &&& (self.part_base is Some <==> self.part_curr is Some)
        &&& (self.part_base matches Some(p) ==> p.wf())
        &&& (self.part_curr matches Some(p) ==> p.wf())
        &&& no_del(opt_cols(self.part_base))
        &&& no_del(opt_cols(self.part_curr))
        &&& (self.frozen() ==> spec_count_col(self.part_main@) + spec_count_col(
            opt_cols(self.part_base),
        ) + spec_count_col(opt_cols(self.part_curr)) <= u16::MAX)
    }

    /// The discovered section of one family.
    pub open spec fn fam_disc(self, fam: Family) -> Seq<ColModel> {
        match fam {
            Family::Base => opt_cols(self.part_base),
            Family::Curr => opt_cols(self.part_curr),
        }
    }

    /// Where a family's discovered section starts in the output: after the
    /// canonical section, and for the current-price family also after the
    /// base-price section.
    pub open spec fn fam_corr(self, fam: Family) -> int {
        match fam {
            Family::Base => spec_count_col(self.part_main@),
            Family::Curr => spec_count_col(self.part_main@) + spec_count_col(
                opt_cols(self.part_base),
            ),
        }
    }
}

/// The number writes of one row's first `take` values at consecutive
/// columns; a blank value writes nothing but still occupies its column.
pub open spec fn spec_vals_writes(
    vals: Seq<Option<u64>>,
    take: int,
    row: int,
    startcol: int,
) -> Seq<WriteModel>
    decreases take,
{
    if take <= 0 {
        Seq::empty()
    } else {
        spec_vals_writes(vals, take - 1, row, startcol) + (match vals[take - 1] {
            Some(b) => seq![
                WriteModel::Number {
                    row,
                    col: startcol + take - 1,
                    bits: b,
                    format: CellFormat::Plain,
                },
            ],
            None => Seq::empty(),
        })
    }
}

/// How many values of a row are written into a column of width `w`: the
/// lesser of the width and the row's value count.  A wider row truncates,
/// a narrower one leaves the remainder blank.
pub open spec fn spec_take(w: int, n: int) -> int {
    if w <= n {
        w
    } else {
        n
    }
}

/// The writes one totals row produces in one family: the discovered
/// section is probed first; the canonical section catches names it does
/// not claim, writing at the canonical column's own offset.
pub open spec fn spec_fam_row_writes(r: Report, trow: TotalsRow, fam: Family, out_row: int) -> Seq<
    WriteModel,
> {
    let vals = fam_vals(trow, fam);
    match spec_get_column(r.fam_disc(fam), fam, trow.name@, Matches::Exact) {
        Some((i, c)) => {
            let w = counted_col(r.fam_disc(fam), i).expected_columns as int;
            spec_vals_writes(vals, spec_take(w, vals.len() as int), out_row, r.fam_corr(fam) + c)
        },
        None => match spec_get_column(r.part_main@, fam, trow.name@, Matches::Exact) {
            Some((i, c)) => {
                let w = counted_col(r.part_main@, i).expected_columns as int;
                spec_vals_writes(vals, spec_take(w, vals.len() as int), out_row, c)
            },
            None => Seq::empty(),
        },
    }
}

/// The writes one totals row produces: base family first, then current.
pub open spec fn spec_totals_writes(r: Report, trow: TotalsRow, out_row: int) -> Seq<WriteModel> {
    spec_fam_row_writes(r, trow, Family::Base, out_row) + spec_fam_row_writes(
        r,
        trow,
        Family::Curr,
        out_row,
    )
}

/// Emit the number writes for one claimed column.
fn emit_vals(vals: &Vec<Option<u64>>, width: u16, row: u32, startcol: u16) -> (r: Vec<CellWrite>)
    requires
        startcol as int + spec_take(width as int, vals@.len() as int) <= u16::MAX + 1,
    ensures
        wviews(r@) == spec_vals_writes(
            vals@,
            spec_take(width as int, vals@.len() as int),
            row as int,
            startcol as int,
        ),
{
    let take: usize = if (width as usize) <= vals.len() {
        width as usize
    } else {
        vals.len()
    };
    let mut out: Vec<CellWrite> = Vec::new();
    let mut k: usize = 0;
    proof {
        assert(wviews(out@) =~= Seq::<WriteModel>::empty());
    }
    while k < take
        invariant
            k <= take,
            take as int == spec_take(width as int, vals@.len() as int),
            take <= vals@.len(),
            startcol as int + take as int <= u16::MAX + 1,
            wviews(out@) == spec_vals_writes(vals@, k as int, row as int, startcol as int),
        decreases take - k,
    {
        let ghost out0 = wviews(out@);
        match vals[k] {
            Some(b) => {
                out.push(
                    CellWrite::Number {
                        row,
                        col: startcol + (k as u16),
                        bits: b,
                        format: CellFormat::Plain,
                    },
                );
                proof {
                    assert(wviews(out@) =~= out0 + seq![
                        WriteModel::Number {
                            row: row as int,
                            col: startcol as int + k as int,
                            bits: b,
                            format: CellFormat::Plain,
                        },
                    ]);
                }
            },
            None => {},
        }
        k += 1;
    }
    out
}

impl Report {
    /// The writes of one totals row in one family.
    fn fam_row_writes(&self, trow: &TotalsRow, fam: Family) -> (r: Vec<CellWrite>)
        requires
            self.wf(),
            self.frozen(),
            totals_row_wf(*trow),
        ensures
            wviews(r@) == spec_fam_row_writes(*self, *trow, fam, self.empty_row as int),
    {
        let disc: &PrintPart = match fam {
            Family::Base => {
                match &self.part_base {
                    Some(p) => p,
                    None => {
                        proof {
                            assert(false);
                        }
                        &self.part_main
                    },
                }
            },
            Family::Curr => {
                match &self.part_curr {
                    Some(p) => p,
                    None => {
                        proof {
                            assert(false);
                        }
                        &self.part_main
                    },
                }
            },
        };
        let main_t = self.part_main.get_number_of_columns();
        let corr: u16 = match fam {
            Family::Base => main_t,
            Family::Curr => {
                let base_t = match &self.part_base {
                    Some(p) => p.get_number_of_columns(),
                    None => {
                        proof {
                            assert(false);
                        }
                        0
                    },
                };
                proof {
                    lemma_count_col_nonneg(opt_cols(self.part_curr));
                }
                main_t + base_t
            },
        };
        let vals: &Vec<Option<u64>> = match fam {
            Family::Base => &trow.base_price,
            Family::Curr => &trow.curr_price,
        };
        match disc.get_column_by(fam, trow.name.as_str(), &Matches::Exact) {
            Some((_i, c, w)) => {
                proof {
                    lemma_get_column_claims(disc@, fam, trow.name@, Matches::Exact, 0, 0);
                    lemma_count_col_nonneg(self.part_main@);
                    lemma_count_col_nonneg(opt_cols(self.part_base));
                    lemma_count_col_nonneg(opt_cols(self.part_curr));
                }
                emit_vals(vals, w, self.empty_row, corr + c)
            },
            None => {
                match self.part_main.get_column_by(fam, trow.name.as_str(), &Matches::Exact) {
                    Some((_i, c, w)) => {
                        proof {
                            lemma_get_column_claims(
                                self.part_main@,
                                fam,
                                trow.name@,
                                Matches::Exact,
                                0,
                                0,
                            );
                            lemma_count_col_nonneg(self.part_main@);
                        }
                        emit_vals(vals, w, self.empty_row, c)
                    },
                    None => Vec::new(),
                }
            },
        }
    }

    /// How many values of one family's sequence a row would lose.
    fn fam_truncated(&self, trow: &TotalsRow, fam: Family) -> (r: u64)
        requires
            self.wf(),
            self.frozen(),
            totals_row_wf(*trow),
        ensures
            r as int == spec_fam_truncated(*self, *trow, fam),
    {
        let disc: &PrintPart = match fam {
            Family::Base => {
                match &self.part_base {
                    Some(p) => p,
                    None => vstd::pervasive::unreached(),
                }
            },
            Family::Curr => {
                match &self.part_curr {
                    Some(p) => p,
                    None => vstd::pervasive::unreached(),
                }
            },
        };
        let vals: &Vec<Option<u64>> = match fam {
            Family::Base => &trow.base_price,
            Family::Curr => &trow.curr_price,
        };
        let w: Option<u16> = match disc.get_column_by(fam, trow.name.as_str(), &Matches::Exact) {
            Some((_i, _c, w)) => Some(w),
            None => {
                match self.part_main.get_column_by(fam, trow.name.as_str(), &Matches::Exact) {
                    Some((_i, _c, w)) => Some(w),
                    None => None,
                }
            },
        };
        match w {
            Some(w) => {
                if vals.len() > w as usize {
                    (vals.len() - w as usize) as u64
                } else {
                    0
                }
            },
            None => 0,
        }
    }

    /// How many values of this row fall beyond its claimed columns' frozen
    /// widths, over both families: the documented loss of over-wide rows,
    /// surfaced so an operator can count and log it.
    pub fn truncated_values(&self, totalsrow: &TotalsRow) -> (r: u64)
        requires
            self.wf(),
            self.frozen(),
            totals_row_wf(*totalsrow),
        ensures
            r as int == spec_fam_truncated(*self, *totalsrow, Family::Base) + spec_fam_truncated(
                *self,
                *totalsrow,
                Family::Curr,
            ),
    {
        let b = self.fam_truncated(totalsrow, Family::Base);
        let c = self.fam_truncated(totalsrow, Family::Curr);
        b + c
    }

    /// The writes one totals row produces against the frozen layout, at
    /// the report's current output row: the discovered layouts are probed
    /// first, the canonical layout catches what they do not claim, and a
    /// row's values are truncated to its column's frozen width.
    pub fn write_totals(&self, totalsrow: &TotalsRow) -> (r: Vec<CellWrite>)
        requires
            self.wf(),
            self.frozen(),
            totals_row_wf(*totalsrow),
        ensures
            wviews(r@) == spec_totals_writes(*self, *totalsrow, self.empty_row as int),
    {
        let mut out = self.fam_row_writes(totalsrow, Family::Base);
        let mut curr = self.fam_row_writes(totalsrow, Family::Curr);
        let ghost b = wviews(out@);
        let ghost c = wviews(curr@);
        out.append(&mut curr);
        proof {
            assert(wviews(out@) =~= b + c);
        }
        out
    }
}

/// The header fields that are written with the date display format.
pub open spec fn date_field(name: Seq<char>) -> bool {
    ||| name == "Договор дата"@
    ||| name == "Акт дата"@
    ||| name == "Отчетный период начало"@
    ||| name == "Отчетный период окончание"@
}

/// The first position of a header field name in the declared name list.
pub open spec fn index_of_name(names: Seq<String>, n: Seq<char>) -> Option<int>
    decreases names.len(),
{
    if names.len() == 0 {
        None
    } else if names[0]@ == n {
        Some(0int)
    } else {
        match index_of_name(names.skip(1), n) {
            Some(i) => Some(i + 1),
            None => None,
        }
    }
}

proof fn lemma_index_of_name(names: Seq<String>, n: Seq<char>)
    ensures
        match index_of_name(names, n) {
            Some(i) => 0 <= i < names.len() && names[i]@ == n && forall|j: int|
                0 <= j < i ==> (#[trigger] names[j])@ != n,
            None => forall|j: int| 0 <= j < names.len() ==> (#[trigger] names[j])@ != n,
        },
    decreases names.len(),
{
    if names.len() > 0 && names[0]@ != n {
        let sub = names.skip(1);
        lemma_index_of_name(sub, n);
        assert(forall|j: int| 0 <= j < names.len() - 1 ==> #[trigger] sub[j] == names[j + 1]);
        match index_of_name(sub, n) {
            Some(i) => {
                assert(sub[i] == names[i + 1]);
                assert forall|j: int| 0 <= j < i + 1 implies (#[trigger] names[j])@ != n by {
                    if j > 0 {
                        assert(sub[j - 1] == names[j]);
                    }
                }
            },
            None => {
                assert forall|j: int| 0 <= j < names.len() implies (#[trigger] names[j])@ != n by {
                    if j > 0 {
                        assert(sub[j - 1] == names[j]);
                    }
                }
            },
        }
    }
}

/// The position of the first occurrence of `c` at or after `from`
/// (`s.len()` when there is none).
pub open spec fn first_index_of(s: Seq<char>, c: char, from: int) -> int
    decreases s.len() - from when 0 <= from
{
    if from >= s.len() {
        s.len() as int
    } else if s[from] == c {
        from
    } else {
        first_index_of(s, c, from + 1)
    }
}

proof fn lemma_first_index_of(s: Seq<char>, c: char, from: int)
    requires
        0 <= from <= s.len(),
    ensures
        from <= first_index_of(s, c, from) <= s.len(),
        first_index_of(s, c, from) < s.len() ==> s[first_index_of(s, c, from)] == c,
        forall|j: int| from <= j < first_index_of(s, c, from) ==> s[j] != c,
    decreases s.len() - from,
{
    if from < s.len() && s[from] != c {
        lemma_first_index_of(s, c, from + 1);
    }
}

proof fn lemma_count_char_zero(s: Seq<char>, c: char)
    requires
        forall|j: int| 0 <= j < s.len() ==> s[j] != c,
    ensures
        count_char_in(s, c) == 0,
    decreases s.len(),
{
    if s.len() > 0 {
        assert(forall|j: int| 0 <= j < s.len() - 1 ==> #[trigger] s.skip(1)[j] == s[j + 1]);
        lemma_count_char_zero(s.skip(1), c);
    }
}

/// The cleaned numeric text of a localized thousands-formatted figure:
/// the unit words removed, the decimal comma turned into a point, the
/// group spaces removed.
pub open spec fn spec_clean_number(s: Seq<char>) -> Seq<char> {
    spec_replace(
        spec_replace(spec_replace(spec_replace(s, "тыс."@, ""@), "руб."@, ""@), ","@, "."@),
        " "@,
        ""@,
    )
}

/// The writes a named derivation produces, or `None` when the name is not
/// a known derivation: a programming fault that must abort the run.
pub open spec fn spec_calc_writes(name: Seq<char>, act: Act, row: int, col: int) -> Option<
    Seq<WriteModel>,
> {
    if name == "Глава"@ {
        match (
            index_of_name(act.names_of_header@, "Глава"@),
            index_of_name(act.names_of_header@, "Глава наименование"@),
        ) {
            (Some(i1), Some(i2)) => Some(
                match (act.data_of_header@[i1], act.data_of_header@[i2]) {
                    (FieldValue::Text(a), FieldValue::Text(b)) => {
                        if a@.len() > 0 && b@.len() > 0 {
                            seq![
                                WriteModel::Text {
                                    row,
                                    col,
                                    text: a@ + " «"@ + b@ + "»"@,
                                    format: CellFormat::Plain,
                                },
                            ]
                        } else {
                            Seq::empty()
                        }
                    },
                    _ => Seq::empty(),
                },
            ),
            _ => None,
        }
    } else if name == "Смета №"@ {
        match index_of_name(act.names_of_header@, name) {
            Some(ix) => Some(
                match act.data_of_header@[ix] {
                    FieldValue::Text(t) => {
                        if is_prefix_of("Смета № "@, t@) {
                            seq![
                                WriteModel::Text {
                                    row,
                                    col,
                                    text: t@.skip("Смета № "@.len() as int),
                                    format: CellFormat::Plain,
                                },
                            ]
                        } else {
                            Seq::empty()
                        }
                    },
                    _ => Seq::empty(),
                },
            ),
            None => None,
        }
    } else if name == "Акт №"@ {
        match index_of_name(act.names_of_header@, name) {
            Some(ix) => Some(
                match act.data_of_header@[ix] {
                    FieldValue::Text(t) => {
                        if count_char_in(t@, '/') == 3 {
                            seq![
                                WriteModel::Text {
                                    row,
                                    col,
                                    text: t@.subrange(0, first_index_of(t@, '/', 0)),
                                    format: CellFormat::Plain,
                                },
                            ]
                        } else {
                            Seq::empty()
                        }
                    },
                    _ => Seq::empty(),
                },
            ),
            None => None,
        }
    } else if name == "По смете в ц.2000г."@ || name == "Выполнение работ в ц.2000г."@ {
        match index_of_name(act.names_of_header@, name) {
            Some(ix) => Some(
                match act.data_of_header@[ix] {
                    FieldValue::Text(t) => seq![
                        WriteModel::ScaledNumberText { row, col, text: spec_clean_number(t@) },
                    ],
                    _ => Seq::empty(),
                },
            ),
            None => None,
        }
    } else if name == "Папка (ссылка)"@ {
        let tail = act.path@.skip(spec_after_last_char(act.path@, '\\'));
        let folder = if tail.len() == 0 {
            act.path@
        } else {
            spec_replace(act.path@, tail, ""@)
        };
        Some(seq![WriteModel::Url { row, col, target: folder }])
    } else if name == "Файл (ссылка)"@ {
        let tail = act.path@.skip(spec_after_last_char(act.path@, '\\'));
        Some(
            seq![
                WriteModel::Formula {
                    row,
                    col,
                    formula: "=HYPERLINK(\""@ + act.path@ + "\", \""@ + tail + "\")"@,
                    format: CellFormat::Link,
                },
            ],
        )
    } else {
        None
    }
}

/// The writes one canonical column contributes to a document's output row.
pub open spec fn spec_header_item(item: ColModel, act: Act, row: int, col: int) -> Option<
    Seq<WriteModel>,
> {
    match item.source {
        SourceModel::InTableHeader(nm) => match index_of_name(act.names_of_header@, nm) {
            None => None,
            Some(ix) => Some(
                match act.data_of_header@[ix] {
                    FieldValue::Text(s) => seq![
                        WriteModel::Text {
                            row,
                            col,
                            text: s@,
                            format: if date_field(nm) {
                                CellFormat::Date
                            } else {
                                CellFormat::Plain
                            },
                        },
                    ],
                    FieldValue::Number(b) => seq![
                        WriteModel::Number {
                            row,
                            col,
                            bits: b,
                            format: if date_field(nm) {
                                CellFormat::Date
                            } else {
                                CellFormat::Plain
                            },
                        },
                    ],
                    FieldValue::Absent => Seq::empty(),
                },
            ),
        },
        SourceModel::Calculate(nm) => spec_calc_writes(nm, act, row, col),
        _ => Some(Seq::empty()),
    }
}

/// The writes of a document's header fields across the canonical columns:
/// dropped columns are skipped without advancing the column cursor, every
/// other column advances it by its width.  `None` marks a programming
/// fault in some column.
pub open spec fn spec_header_rec(v: Seq<ColModel>, act: Act, row: int, col: int) -> Option<
    Seq<WriteModel>,
>
    decreases v.len(),
{
    if v.len() == 0 {
        Some(Seq::empty())
    } else if v[0].moving is Del {
        spec_header_rec(v.skip(1), act, row, col)
    } else {
        match spec_header_item(v[0], act, row, col) {
            None => None,
            Some(ws) => match spec_header_rec(
                v.skip(1),
                act,
                row,
                col + v[0].expected_columns as int,
            ) {
                None => None,
                Some(rest) => Some(ws + rest),
            },
        }
    }
}

/// Find a header field's value index by name.
fn find_name(names: &Vec<String>, n: &str) -> (r: Option<usize>)
    ensures
        match index_of_name(names@, n@) {
            Some(i) => r matches Some(x) && x == i && i < names@.len() && names@[i]@ == n@,
            None => r is None,
        },
{
    let mut i: usize = 0;
    while i < names.len()
        invariant
            i <= names@.len(),
            forall|j: int| 0 <= j < i ==> (#[trigger] names@[j])@ != n@,
        decreases names@.len() - i,
    {
        if str_eq(names[i].as_str(), n) {
            proof {
                lemma_index_of_name(names@, n@);
            }
            return Some(i);
        }
        i += 1;
    }
    proof {
        lemma_index_of_name(names@, n@);
    }
    None
}

/// The writes of one named derivation, or the abort error for an unknown
/// name.
fn calc_writes(name: &String, act: &Act, row: u32, col: u16) -> (r: Result<Vec<CellWrite>, String>)
    requires
        act_wf(*act),
    ensures
        match spec_calc_writes(name@, *act, row as int, col as int) {
            Some(ws) => r matches Ok(v) && wviews(v@) == ws,
            None => r is Err,
        },
{
    let mut out: Vec<CellWrite> = Vec::new();
    proof {
        assert(wviews(out@) =~= Seq::<WriteModel>::empty());
    }
    if str_eq(name.as_str(), "Глава") {
        let i1 = find_name(&act.names_of_header, "Глава");
        let i2 = find_name(&act.names_of_header, "Глава наименование");
        match (i1, i2) {
            (Some(a), Some(b)) => {
                match (&act.data_of_header[a], &act.data_of_header[b]) {
                    (FieldValue::Text(x), FieldValue::Text(y)) => {
                        if x.as_str().unicode_len() > 0 && y.as_str().unicode_len() > 0 {
                            let mut t = x.clone();
                            t.append(" «");
                            t.append(y.as_str());
                            t.append("»");
                            let ghost model = WriteModel::Text {
                                row: row as int,
                                col: col as int,
                                text: x@ + " «"@ + y@ + "»"@,
                                format: CellFormat::Plain,
                            };
                            out.push(
                                CellWrite::Text { row, col, text: t, format: CellFormat::Plain },
                            );
                            proof {
                                assert(wviews(out@) =~= seq![model]);
                            }
                        }
                    },
                    _ => {},
                }
                Ok(out)
            },
            _ => Err(
                String::from_str(
                    "programming fault: the chapter fields are missing from the declared header fields",
                ),
            ),
        }
    } else if str_eq(name.as_str(), "Смета №") {
        match find_name(&act.names_of_header, name.as_str()) {
            Some(ix) => {
                match &act.data_of_header[ix] {
                    FieldValue::Text(t) => {
                        if str_starts_with(t.as_str(), "Смета № ") {
                            let plen = "Смета № ".unicode_len();
                            let n = t.as_str().unicode_len();
                            let rest = t.as_str().substring_char(plen, n).to_owned();
                            let ghost model = WriteModel::Text {
                                row: row as int,
                                col: col as int,
                                text: t@.skip("Смета № "@.len() as int),
                                format: CellFormat::Plain,
                            };
                            proof {
                                assert(t@.subrange("Смета № "@.len() as int, t@.len() as int)
                                    =~= t@.skip("Смета № "@.len() as int));
                            }
                            out.push(
                                CellWrite::Text {
                                    row,
                                    col,
                                    text: rest,
                                    format: CellFormat::Plain,
                                },
                            );
                            proof {
                                assert(wviews(out@) =~= seq![model]);
                            }
                        }
                    },
                    _ => {},
                }
                Ok(out)
            },
            None => Err(
                String::from_str(
                    "programming fault: the estimate number is missing from the declared header fields",
                ),
            ),
        }
    } else if str_eq(name.as_str(), "Акт №") {
        match find_name(&act.names_of_header, name.as_str()) {
            Some(ix) => {
                match &act.data_of_header[ix] {
                    FieldValue::Text(t) => {
                        if count_char(t.as_str(), '/') == 3 {
                            match find_char(t.as_str(), '/') {
                                Some(p) => {
                                    proof {
                                        lemma_first_index_of(t@, '/', 0);
                                    }
                                    let pre = t.as_str().substring_char(0, p).to_owned();
                                    let ghost model = WriteModel::Text {
                                        row: row as int,
                                        col: col as int,
                                        text: t@.subrange(0, first_index_of(t@, '/', 0)),
                                        format: CellFormat::Plain,
                                    };
                                    out.push(
                                        CellWrite::Text {
                                            row,
                                            col,
                                            text: pre,
                                            format: CellFormat::Plain,
                                        },
                                    );
                                    proof {
                                        assert(wviews(out@) =~= seq![model]);
                                    }
                                },
                                None => {
                                    proof {
                                        lemma_count_char_zero(t@, '/');
                                        assert(false);
                                    }
                                },
                            }
                        }
                    },
                    _ => {},
                }
                Ok(out)
            },
            None => Err(
                String::from_str(
                    "programming fault: the certificate number is missing from the declared header fields",
                ),
            ),
        }
    } else if str_eq(name.as_str(), "По смете в ц.2000г.") || str_eq(
        name.as_str(),
        "Выполнение работ в ц.2000г.",
    ) {
        match find_name(&act.names_of_header, name.as_str()) {
            Some(ix) => {
                match &act.data_of_header[ix] {
                    FieldValue::Text(t) => {
                        proof {
                            reveal_strlit("тыс.");
                            reveal_strlit("руб.");
                            reveal_strlit(",");
                            reveal_strlit(" ");
                        }
                        let c1 = str_replace(t.as_str(), "тыс.", "");
                        let c2 = str_replace(c1.as_str(), "руб.", "");
                        let c3 = str_replace(c2.as_str(), ",", ".");
                        let c4 = str_replace(c3.as_str(), " ", "");
                        let ghost model = WriteModel::ScaledNumberText {
                            row: row as int,
                            col: col as int,
                            text: spec_clean_number(t@),
                        };
                        out.push(CellWrite::ScaledNumberText { row, col, text: c4 });
                        proof {
                            assert(wviews(out@) =~= seq![model]);
                        }
                    },
                    _ => {},
                }
                Ok(out)
            },
            None => Err(
                String::from_str(
                    "programming fault: the price figure is missing from the declared header fields",
                ),
            ),
        }
    } else if str_eq(name.as_str(), "Папка (ссылка)") {
        let n = act.path.as_str().unicode_len();
        let cut = after_last_char(act.path.as_str(), '\\');
        let folder: String = if cut == n {
            act.path.clone()
        } else {
            let tail_s = act.path.as_str().substring_char(cut, n);
            proof {
                assert(act.path@.subrange(cut as int, n as int) =~= act.path@.skip(cut as int));
            }
            str_replace(act.path.as_str(), tail_s, "")
        };
        let ghost model = WriteModel::Url {
            row: row as int,
            col: col as int,
            target: spec_calc_writes(name@, *act, row as int, col as int)->Some_0[0]->Url_target,
        };
        out.push(CellWrite::Url { row, col, target: folder });
        proof {
            assert(act.path@.skip(cut as int).len() == 0 <==> cut == n);
            assert(wviews(out@) =~= seq![
                WriteModel::Url {
                    row: row as int,
                    col: col as int,
                    target: {
                        let tail = act.path@.skip(spec_after_last_char(act.path@, '\\'));
                        if tail.len() == 0 {
                            act.path@
                        } else {
                            spec_replace(act.path@, tail, ""@)
                        }
                    },
                },
            ]);
        }
        Ok(out)
    } else if str_eq(name.as_str(), "Файл (ссылка)") {
        let n = act.path.as_str().unicode_len();
        let cut = after_last_char(act.path.as_str(), '\\');
        let tail_s = act.path.as_str().substring_char(cut, n);
        proof {
            assert(act.path@.subrange(cut as int, n as int) =~= act.path@.skip(cut as int));
        }
        let mut f = String::from_str("=HYPERLINK(\"");
        f.append(act.path.as_str());
        f.append("\", \"");
        f.append(tail_s);
        f.append("\")");
        out.push(CellWrite::Formula { row, col, formula: f, format: CellFormat::Link });
        proof {
            assert(wviews(out@) =~= seq![
                WriteModel::Formula {
                    row: row as int,
                    col: col as int,
                    formula: "=HYPERLINK(\""@ + act.path@ + "\", \""@ + act.path@.skip(
                        spec_after_last_char(act.path@, '\\'),
                    ) + "\")"@,
                    format: CellFormat::Link,
                },
            ]);
        }
        Ok(out)
    } else {
        Err(
            String::from_str(
                "programming fault: an unknown derivation name cannot be written to the sheet",
            ),
        )
    }
}

/// The writes one canonical column contributes, or the abort error when
/// the column names a field or derivation the resolver does not supply.
fn header_item_writes(item: &OutputData, act: &Act, row: u32, col: u16) -> (r: Result<
    Vec<CellWrite>,
    String,
>)
    requires
        act_wf(*act),
    ensures
        match spec_header_item(item@, *act, row as int, col as int) {
            Some(ws) => r matches Ok(v) && wviews(v@) == ws,
            None => r is Err,
        },
{
    match &item.source {
        Source::InTableHeader(name) => {
            match find_name(&act.names_of_header, name.as_str()) {
                None => Err(
                    String::from_str(
                        "programming fault: a canonical header field is missing from the declared header fields",
                    ),
                ),
                Some(ix) => {
                    let mut out: Vec<CellWrite> = Vec::new();
                    proof {
                        assert(wviews(out@) =~= Seq::<WriteModel>::empty());
                    }
                    let is_date = str_eq(name.as_str(), "Договор дата") || str_eq(
                        name.as_str(),
                        "Акт дата",
                    ) || str_eq(name.as_str(), "Отчетный период начало") || str_eq(
                        name.as_str(),
                        "Отчетный период окончание",
                    );
                    let fmt = if is_date {
                        CellFormat::Date
                    } else {
                        CellFormat::Plain
                    };
                    match &act.data_of_header[ix] {
                        FieldValue::Text(s) => {
                            out.push(
                                CellWrite::Text { row, col, text: s.clone(), format: fmt },
                            );
                            proof {
                                assert(wviews(out@) =~= seq![
                                    WriteModel::Text {
                                        row: row as int,
                                        col: col as int,
                                        text: s@,
                                        format: fmt,
                                    },
                                ]);
                            }
                        },
                        FieldValue::Number(b) => {
                            out.push(CellWrite::Number { row, col, bits: *b, format: fmt });
                            proof {
                                assert(wviews(out@) =~= seq![
                                    WriteModel::Number {
                                        row: row as int,
                                        col: col as int,
                                        bits: *b,
                                        format: fmt,
                                    },
                                ]);
                            }
                        },
                        FieldValue::Absent => {},
                    }
                    Ok(out)
                },
            }
        },
        Source::Calculate(name) => calc_writes(name, act, row, col),
        _ => Ok(Vec::new()),
    }
}

impl Report {
    /// The writes of one document's header fields across the canonical
    /// columns, at the report's current output row.  Fails only on a
    /// programming fault: a canonical column that names a field or a
    /// derivation the resolver does not supply.
    pub fn write_header(&self, act: &Act) -> (r: Result<Vec<CellWrite>, String>)
        requires
            self.part_main.wf(),
            act_wf(*act),
        ensures
            match spec_header_rec(self.part_main@, *act, self.empty_row as int, 0) {
                Some(ws) => r matches Ok(v) && wviews(v@) == ws,
                None => r is Err,
            },
    {
        let ghost s = self.part_main@;
        let ghost row = self.empty_row as int;
        let mut out: Vec<CellWrite> = Vec::new();
        let mut col: u16 = 0;
        let mut i: usize = 0;
        proof {
            assert(s.skip(0) =~= s);
            assert(wviews(out@) =~= Seq::<WriteModel>::empty());
            lemma_count_col_nonneg(s);
        }
        while i < self.part_main.vector.len()
            invariant
                self.part_main.wf(),
                act_wf(*act),
                s == self.part_main@,
                row == self.empty_row as int,
                i <= self.part_main.vector@.len(),
                s.len() == self.part_main.vector@.len(),
                col as int + spec_count_col(s.skip(i as int)) == spec_count_col(s),
                match spec_header_rec(s, *act, row, 0) {
                    Some(total) => spec_header_rec(s.skip(i as int), *act, row, col as int)
                        matches Some(rest) && total == wviews(out@) + rest,
                    None => spec_header_rec(s.skip(i as int), *act, row, col as int) is None,
                },
            decreases self.part_main.vector@.len() - i,
        {
            proof {
                lemma_count_col_step(s, i as int);
                lemma_count_col_nonneg(s.skip(i as int + 1));
                assert(s[i as int] == self.part_main.vector@[i as int]@);
                assert(s.skip(i as int)[0] == s[i as int]);
                assert(s.skip(i as int).skip(1) =~= s.skip(i as int + 1));
            }
            let item = &self.part_main.vector[i];
            if !matches!(item.moving, Moving::Del) {
                match header_item_writes(item, act, self.empty_row, col) {
                    Ok(mut ws) => {
                        let ghost before = wviews(out@);
                        let ghost wsv = wviews(ws@);
                        out.append(&mut ws);
                        proof {
                            assert(wviews(out@) =~= before + wsv);
                            if spec_header_rec(s, *act, row, 0) is Some {
                                let rest0 = spec_header_rec(
                                    s.skip(i as int),
                                    *act,
                                    row,
                                    col as int,
                                )->Some_0;
                                let rest1 = spec_header_rec(
                                    s.skip(i as int + 1),
                                    *act,
                                    row,
                                    col as int + s[i as int].expected_columns as int,
                                )->Some_0;
                                assert(rest0 == wsv + rest1);
                                assert((before + wsv) + rest1 =~= before + (wsv + rest1));
                            }
                        }
                        col = col + item.expected_columns;
                    },
                    Err(e) => {
                        return Err(e);
                    },
                }
            }
            i += 1;
        }
        proof {
            assert(s.skip(i as int) =~= Seq::<ColModel>::empty());
        }
        Ok(out)
    }
}

/// A canonical column bound to a header field.
pub open spec fn m_hdr(name: Seq<char>) -> ColModel {
    ColModel {
        rename: None,
        moving: Moving::No,
        expected_columns: 1,
        source: SourceModel::InTableHeader(name),
    }
}

/// A canonical column bound to a named derivation.
pub open spec fn m_calc(name: Seq<char>) -> ColModel {
    ColModel {
        rename: None,
        moving: Moving::No,
        expected_columns: 1,
        source: SourceModel::Calculate(name),
    }
}

/// The canonical column template: the fixed left section of the report in
/// programmer-declared order, followed by the totals columns that are
/// recognised only to be dropped from the output.
pub open spec fn spec_main_list() -> Seq<ColModel> {
    seq![
        m_calc("Папка (ссылка)"@),
        m_calc("Файл (ссылка)"@),
        m_hdr("Исполнитель"@),
        m_calc("Глава"@),
        m_hdr("Объект"@),
        m_hdr("Договор №"@),
        m_hdr("Договор дата"@),
        m_calc("Смета №"@),
        m_hdr("Смета наименование"@),
        ColModel {
            rename: Some("По смете в ц.2000г., руб."@),
            moving: Moving::No,
            expected_columns: 1,
            source: SourceModel::Calculate("По смете в ц.2000г."@),
        },
        ColModel {
            rename: Some("Выполнение работ в ц.2000г., руб."@),
            moving: Moving::No,
            expected_columns: 1,
            source: SourceModel::Calculate("Выполнение работ в ц.2000г."@),
        },
        m_calc("Акт №"@),
        m_hdr("Акт дата"@),
        m_hdr("Отчетный период начало"@),
        m_hdr("Отчетный период окончание"@),
        m_hdr("Метод расчета"@),
        ColModel {
            rename: None,
            moving: Moving::Del,
            expected_columns: 1,
            source: SourceModel::AtBasePrices("Всего с НР и СП (тек"@, Matches::Contains),
        },
        ColModel {
            rename: None,
            moving: Moving::Del,
            expected_columns: 1,
            source: SourceModel::AtCurrPrices("Всего с НР и СП (баз"@, Matches::Contains),
        },
        ColModel {
            rename: None,
            moving: Moving::Del,
            expected_columns: 1,
            source: SourceModel::AtBasePrices("Итого с К = 1"@, Matches::Exact),
        },
    ]
}

/// Can the discovered layouts of the first document join the canonical
/// layout without overflowing the 16-bit column space?
pub open spec fn freeze_ok(rep: Report, act: Act) -> bool {
    let vb = spec_discovered(act.data_of_totals@, rep.part_main@, Family::Base);
    let vc = spec_discovered(act.data_of_totals@, rep.part_main@, Family::Curr);
    &&& spec_count_col(vb) <= u16::MAX
    &&& spec_count_col(vc) <= u16::MAX
    &&& spec_count_col(rep.part_main@) + spec_count_col(vb) + spec_count_col(vc) <= u16::MAX
}

/// The concatenated totals writes of a document's rows, in row order.
pub open spec fn spec_rows_writes(rep: Report, rows: Seq<TotalsRow>, out_row: int) -> Seq<
    WriteModel,
>
    decreases rows.len(),
{
    if rows.len() == 0 {
        Seq::empty()
    } else {
        spec_totals_writes(rep, rows[0], out_row) + spec_rows_writes(rep, rows.skip(1), out_row)
    }
}

/// The totals writes depend on the layout sections alone, not on the
/// report's row counter.
proof fn lemma_rows_writes_same(r1: Report, r2: Report, rows: Seq<TotalsRow>, out_row: int)
    requires
        r1.part_main == r2.part_main,
        r1.part_base == r2.part_base,
        r1.part_curr == r2.part_curr,
    ensures
        spec_rows_writes(r1, rows, out_row) == spec_rows_writes(r2, rows, out_row),
    decreases rows.len(),
{
    if rows.len() > 0 {
        lemma_rows_writes_same(r1, r2, rows.skip(1), out_row);
        assert(spec_fam_row_writes(r1, rows[0], Family::Base, out_row) == spec_fam_row_writes(
            r2,
            rows[0],
            Family::Base,
            out_row,
        ));
        assert(spec_fam_row_writes(r1, rows[0], Family::Curr, out_row) == spec_fam_row_writes(
            r2,
            rows[0],
            Family::Curr,
            out_row,
        ));
    }
}

/// Discovery only ever creates kept columns.
proof fn lemma_disc_no_del(totals: Seq<TotalsRow>, ex: Seq<ColModel>, fam: Family, seen: Set<Seq<char>>)
    ensures
        no_del(disc_rec(totals, ex, fam, seen)),
    decreases totals.len(),
{
    if totals.len() > 0 {
        lemma_disc_no_del(totals.skip(1), ex, fam, seen.insert(totals[0].name@));
    }
}

impl Report {
    /// Build a report around the canonical column template.  The two
    /// discovered layouts start unset and freeze on the first write.
    pub fn new() -> (r: Report)
        ensures
            r.part_main@ == spec_main_list(),
            r.part_base is None,
            r.part_curr is None,
            r.empty_row == 1,
            r.wf(),
            !r.frozen(),
    {
        let mut v: Vec<OutputData> = Vec::new();
        v.push(
            OutputData {
                rename: None,
                moving: Moving::No,
                expected_columns: 1,
                source: Source::Calculate(String::from_str("Папка (ссылка)")),
            },
        );
        v.push(
            OutputData {
                rename: None,
                moving: Moving::No,
                expected_columns: 1,
                source: Source::Calculate(String::from_str("Файл (ссылка)")),
            },
        );
        v.push(
            OutputData {
                rename: None,
                moving: Moving::No,
                expected_columns: 1,
                source: Source::InTableHeader(String::from_str("Исполнитель")),
            },
        );
        v.push(
            OutputData {
                rename: None,
                moving: Moving::No,
                expected_columns: 1,
                source: Source::Calculate(String::from_str("Глава")),
            },
        );
        v.push(
            OutputData {
                rename: None,
                moving: Moving::No,
                expected_columns: 1,
                source: Source::InTableHeader(String::from_str("Объект")),
            },
        );
        v.push(
            OutputData {
                rename: None,
                moving: Moving::No,
                expected_columns: 1,
                source: Source::InTableHeader(String::from_str("Договор №")),
            },
        );
        v.push(
            OutputData {
                rename: None,
                moving: Moving::No,
                expected_columns: 1,
                source: Source::InTableHeader(String::from_str("Договор дата")),
            },
        );
        v.push(
            OutputData {
                rename: None,
                moving: Moving::No,
                expected_columns: 1,
                source: Source::Calculate(String::from_str("Смета №")),
            },
        );
        v.push(
            OutputData {
                rename: None,
                moving: Moving::No,
                expected_columns: 1,
                source: Source::InTableHeader(String::from_str("Смета наименование")),
            },
        );
        v.push(
            OutputData {
                rename: Some(String::from_str("По смете в ц.2000г., руб.")),
                moving: Moving::No,
                expected_columns: 1,
                source: Source::Calculate(String::from_str("По смете в ц.2000г.")),
            },
        );
        v.push(
            OutputData {
                rename: Some(String::from_str("Выполнение работ в ц.2000г., руб.")),
                moving: Moving::No,
                expected_columns: 1,
                source: Source::Calculate(String::from_str("Выполнение работ в ц.2000г.")),
            },
        );
        v.push(
            OutputData {
                rename: None,
                moving: Moving::No,
                expected_columns: 1,
                source: Source::Calculate(String::from_str("Акт №")),
            },
        );
        v.push(
            OutputData {
                rename: None,
                moving: Moving::No,
                expected_columns: 1,
                source: Source::InTableHeader(String::from_str("Акт дата")),
            },
        );
        v.push(
            OutputData {
                rename: None,
                moving: Moving::No,
                expected_columns: 1,
                source: Source::InTableHeader(String::from_str("Отчетный период начало")),
            },
        );
        v.push(
            OutputData {
                rename: None,
                moving: Moving::No,
                expected_columns: 1,
                source: Source::InTableHeader(String::from_str("Отчетный период окончание")),
            },
        );
        v.push(
            OutputData {
                rename: None,
                moving: Moving::No,
                expected_columns: 1,
                source: Source::InTableHeader(String::from_str("Метод расчета")),
            },
        );
        v.push(
            OutputData {
                rename: None,
                moving: Moving::Del,
                expected_columns: 1,
                source: Source::AtBasePrices(
                    String::from_str("Всего с НР и СП (тек"),
                    Matches::Contains,
                ),
            },
        );
        v.push(
            OutputData {
                rename: None,
                moving: Moving::Del,
                expected_columns: 1,
                source: Source::AtCurrPrices(
                    String::from_str("Всего с НР и СП (баз"),
                    Matches::Contains,
                ),
            },
        );
        v.push(
            OutputData {
                rename: None,
                moving: Moving::Del,
                expected_columns: 1,
                source: Source::AtBasePrices(String::from_str("Итого с К = 1"), Matches::Exact),
            },
        );
        proof {
            assert(cols(v@) =~= spec_main_list());
        }
        let part_main = match PrintPart::new(v) {
            Some(p) => p,
            None => {
                proof {
                    assert(spec_count_col(spec_main_list()) == 16) by {
                        reveal_with_fuel(spec_count_col, 21);
                    }
                    assert(false);
                }
                vstd::pervasive::unreached()
            },
        };
        Report { part_main, part_base: None, part_curr: None, empty_row: 1 }
    }

    /// The two discovered column vectors of the first document, in the
    /// document's row order: base-price family first, current-price family
    /// second.
    pub fn other_print_parts(sample: &Act, part_1: &Vec<OutputData>) -> (r: (
        Vec<OutputData>,
        Vec<OutputData>,
    ))
        requires
            act_wf(*sample),
        ensures
            cols(r.0@) == spec_discovered(sample.data_of_totals@, cols(part_1@), Family::Base),
            cols(r.1@) == spec_discovered(sample.data_of_totals@, cols(part_1@), Family::Curr),
    {
        let exclude_base = filter_family(part_1, Family::Base);
        let exclude_curr = filter_family(part_1, Family::Curr);
        let part_base = discover_family(sample, &exclude_base, Family::Base);
        let part_curr = discover_family(sample, &exclude_curr, Family::Curr);
        (part_base, part_curr)
    }

    /// Ingest one document: the first successful write builds the
    /// discovered layouts from its document and freezes them; the
    /// document's header fields and totals rows become write instructions
    /// for one output row.  Fails when the discovered layouts cannot fit
    /// the 16-bit column space, or on a header programming fault; a failed
    /// document changes nothing, so the layouts freeze only on success.
    pub fn write(&mut self, act: &Act) -> (r: Result<Vec<CellWrite>, String>)
        requires
            old(self).wf(),
            act_wf(*act),
            old(self).empty_row < u32::MAX,
        ensures
            final(self).part_main == old(self).part_main,
            final(self).wf(),
            old(self).frozen() ==> final(self).part_base == old(self).part_base
                && final(self).part_curr == old(self).part_curr,
            r is Ok && !old(self).frozen() ==> final(self).frozen() && opt_cols(
                final(self).part_base,
            ) == spec_discovered(act.data_of_totals@, old(self).part_main@, Family::Base)
                && opt_cols(final(self).part_curr) == spec_discovered(
                act.data_of_totals@,
                old(self).part_main@,
                Family::Curr,
            ),
            r is Err ==> *final(self) == *old(self),
            r is Ok <==> (old(self).frozen() || freeze_ok(*old(self), *act)) && spec_header_rec(
                old(self).part_main@,
                *act,
                old(self).empty_row as int,
                0,
            ) is Some,
            match r {
                Ok(ws) => final(self).empty_row == old(self).empty_row + 1 && (match
                    spec_header_rec(old(self).part_main@, *act, old(self).empty_row as int, 0) {
                    Some(h) => wviews(ws@) == h + spec_rows_writes(
                        *final(self),
                        act.data_of_totals@,
                        old(self).empty_row as int,
                    ),
                    None => false,
                }),
                Err(_) => true,
            },
    {
        // the discovered layouts are built first but frozen into the report
        // only once the whole first write is sure to succeed
        let pending: Option<(PrintPart, PrintPart)> = if self.part_base.is_none()
            && self.part_curr.is_none() {
            let (vec_base, vec_curr) = Self::other_print_parts(act, &self.part_main.vector);
            proof {
                lemma_disc_no_del(
                    act.data_of_totals@,
                    spec_exclude(self.part_main@, Family::Base),
                    Family::Base,
                    Set::empty(),
                );
                lemma_disc_no_del(
                    act.data_of_totals@,
                    spec_exclude(self.part_main@, Family::Curr),
                    Family::Curr,
                    Set::empty(),
                );
            }
            let part_base = match PrintPart::new(vec_base) {
                Some(p) => p,
                None => {
                    return Err(
                        String::from_str(
                            "the base-price columns discovered from the first document do not fit the column space",
                        ),
                    );
                },
            };
            let part_curr = match PrintPart::new(vec_curr) {
                Some(p) => p,
                None => {
                    return Err(
                        String::from_str(
                            "the current-price columns discovered from the first document do not fit the column space",
                        ),
                    );
                },
            };
            let main_t = self.part_main.get_number_of_columns();
            let base_t = part_base.get_number_of_columns();
            let curr_t = part_curr.get_number_of_columns();
            if (main_t as u32) + (base_t as u32) + (curr_t as u32) > (u16::MAX as u32) {
                return Err(
                    String::from_str(
                        "the canonical and discovered columns together do not fit the column space",
                    ),
                );
            }
            Some((part_base, part_curr))
        } else {
            None
        };
        let header = match self.write_header(act) {
            Ok(h) => h,
            Err(e) => {
                return Err(e);
            },
        };
        match pending {
            Some((part_base, part_curr)) => {
                self.part_base = Some(part_base);
                self.part_curr = Some(part_curr);
            },
            None => {},
        }
        let ghost h = wviews(header@);
        let ghost rep = *self;
        let ghost rows = act.data_of_totals@;
        let mut out = header;
        let mut i: usize = 0;
        proof {
            assert(rows.skip(0) =~= rows);
        }
        while i < act.data_of_totals.len()
            invariant
                *self == rep,
                self.wf(),
                self.frozen(),
                act_wf(*act),
                rows == act.data_of_totals@,
                i <= rows.len(),
                h + spec_rows_writes(rep, rows, self.empty_row as int) == wviews(out@)
                    + spec_rows_writes(rep, rows.skip(i as int), self.empty_row as int),
            decreases rows.len() - i,
        {
            proof {
                assert(rows.skip(i as int)[0] == rows[i as int]);
                assert(rows.skip(i as int).skip(1) =~= rows.skip(i as int + 1));
            }
            let mut w = self.write_totals(&act.data_of_totals[i]);
            let ghost before = wviews(out@);
            let ghost wv = wviews(w@);
            out.append(&mut w);
            proof {
                assert(wviews(out@) =~= before + wv);
                assert((before + wv) + spec_rows_writes(
                    rep,
                    rows.skip(i as int + 1),
                    self.empty_row as int,
                ) =~= before + (wv + spec_rows_writes(
                    rep,
                    rows.skip(i as int + 1),
                    self.empty_row as int,
                )));
            }
            i += 1;
        }
        proof {
            assert(rows.skip(i as int) =~= Seq::<TotalsRow>::empty());
        }
        self.empty_row = self.empty_row + 1;
        proof {
            lemma_rows_writes_same(*self, rep, rows, rep.empty_row as int);
        }
        Ok(out)
    }
}

/// The finished report: the header-row writes, the last data row, and the
/// total column count, for the caller to style, filter and freeze.
pub struct FinalPlan {
    pub header_writes: Vec<CellWrite>,
    pub last_row: u32,
    pub last_col: u16,
}

/// The sum of all columns' widths, dropped or not.
pub open spec fn sum_widths(cs: Seq<ColModel>) -> int
    decreases cs.len(),
{
    if cs.len() == 0 {
        0
    } else {
        cs[0].expected_columns + sum_widths(cs.skip(1))
    }
}

proof fn lemma_sum_widths_nonneg(cs: Seq<ColModel>)
    ensures
        sum_widths(cs) >= 0,
    decreases cs.len(),
{
    if cs.len() > 0 {
        lemma_sum_widths_nonneg(cs.skip(1));
    }
}

proof fn lemma_sum_widths_step(cs: Seq<ColModel>, i: int)
    requires
        0 <= i < cs.len(),
    ensures
        sum_widths(cs.skip(i)) == cs[i].expected_columns + sum_widths(cs.skip(i + 1)),
{
    assert(cs.skip(i)[0] == cs[i]);
    assert(cs.skip(i).skip(1) =~= cs.skip(i + 1));
}

proof fn lemma_sum_widths_concat(a: Seq<ColModel>, b: Seq<ColModel>)
    ensures
        sum_widths(a + b) == sum_widths(a) + sum_widths(b),
    decreases a.len(),
{
    if a.len() == 0 {
        assert(a + b =~= b);
    } else {
        assert((a + b).skip(1) =~= a.skip(1) + b);
        assert((a + b)[0] == a[0]);
        lemma_sum_widths_concat(a.skip(1), b);
    }
}

/// The canonical columns that are emitted in the final header row: a
/// dropped column disappears, and a kept totals-family column is
/// represented by the discovered layouts instead.
pub open spec fn emit_main(v: Seq<ColModel>) -> Seq<ColModel>
    decreases v.len(),
{
    if v.len() == 0 {
        Seq::empty()
    } else {
        (if v[0].moving is Del || (v[0].moving is No && source_family(v[0].source) is Some) {
            Seq::empty()
        } else {
            seq![v[0]]
        }) + emit_main(v.skip(1))
    }
}

proof fn lemma_emit_main_bound(v: Seq<ColModel>)
    ensures
        sum_widths(emit_main(v)) <= spec_count_col(v),
    decreases v.len(),
{
    if v.len() > 0 {
        lemma_emit_main_bound(v.skip(1));
        if v[0].moving is Del || (v[0].moving is No && source_family(v[0].source) is Some) {
            assert(Seq::<ColModel>::empty() + emit_main(v.skip(1)) =~= emit_main(v.skip(1)));
            lemma_count_col_nonneg(v.skip(1));
        } else {
            assert((seq![v[0]] + emit_main(v.skip(1))).skip(1) =~= emit_main(v.skip(1)));
        }
    }
}

proof fn lemma_no_del_sum(v: Seq<ColModel>)
    requires
        no_del(v),
    ensures
        sum_widths(v) == spec_count_col(v),
    decreases v.len(),
{
    if v.len() > 0 {
        assert(forall|i: int| 0 <= i < v.len() - 1 ==> #[trigger] v.skip(1)[i] == v[i + 1]);
        lemma_no_del_sum(v.skip(1));
    }
}

/// The display name of a column in the header row: its rename when one is
/// bound, else its source's stored text, prefixed with the family tag for
/// totals columns.
pub open spec fn col_title(c: ColModel) -> Seq<char> {
    let ending = match c.rename {
        Some(n) => n,
        None => source_text(c.source),
    };
    match source_family(c.source) {
        Some(Family::Base) => "БЦ "@ + ending,
        Some(Family::Curr) => "TЦ "@ + ending,
        None => ending,
    }
}

/// A column's title repeated across its full width.
pub open spec fn repeat_writes(t: Seq<char>, col0: int, w: int) -> Seq<WriteModel>
    decreases w,
{
    if w <= 0 {
        Seq::empty()
    } else {
        repeat_writes(t, col0, w - 1) + seq![
            WriteModel::Text { row: 0, col: col0 + w - 1, text: t, format: CellFormat::Plain },
        ]
    }
}

/// The header-row writes of a column sequence laid out from `col0` on.
pub open spec fn spec_title_writes(cs: Seq<ColModel>, col0: int) -> Seq<WriteModel>
    decreases cs.len(),
{
    if cs.len() == 0 {
        Seq::empty()
    } else {
        repeat_writes(col_title(cs[0]), col0, cs[0].expected_columns as int) + spec_title_writes(
            cs.skip(1),
            col0 + cs[0].expected_columns as int,
        )
    }
}

/// The canonical columns that the final header row emits.
fn emit_main_exec(v: &Vec<OutputData>) -> (r: Vec<OutputData>)
    ensures
        cols(r@) == emit_main(cols(v@)),
{
    let ghost s = cols(v@);
    let mut out: Vec<OutputData> = Vec::new();
    let mut i: usize = 0;
    proof {
        assert(s.skip(0) =~= s);
        assert(cols(out@) =~= Seq::<ColModel>::empty());
    }
    while i < v.len()
        invariant
            i <= v@.len(),
            s == cols(v@),
            s.len() == v@.len(),
            emit_main(s) == cols(out@) + emit_main(s.skip(i as int)),
        decreases v@.len() - i,
    {
        proof {
            assert(s.skip(i as int)[0] == s[i as int]);
            assert(s.skip(i as int).skip(1) =~= s.skip(i as int + 1));
            assert(s[i as int] == v@[i as int]@);
        }
        let o = &v[i];
        let is_totals = match &o.source {
            Source::AtBasePrices(_, _) => true,
            Source::AtCurrPrices(_, _) => true,
            _ => false,
        };
        let skip = matches!(o.moving, Moving::Del) || (matches!(o.moving, Moving::No)
            && is_totals);
        if !skip {
            let ghost out0 = cols(out@);
            out.push(duplicate_output(o));
            proof {
                assert(cols(out@) =~= out0.push(s[i as int]));
                assert(out0.push(s[i as int]) =~= out0 + seq![s[i as int]]);
                assert((out0 + seq![s[i as int]]) + emit_main(s.skip(i as int + 1)) =~= out0 + (
                seq![s[i as int]] + emit_main(s.skip(i as int + 1))));
            }
        } else {
            proof {
                assert(Seq::<ColModel>::empty() + emit_main(s.skip(i as int + 1)) =~= emit_main(
                    s.skip(i as int + 1),
                ));
            }
        }
        i += 1;
    }
    proof {
        assert(s.skip(i as int) =~= Seq::<ColModel>::empty());
    }
    out
}

/// Exact copies of all columns.
fn duplicate_all(v: &Vec<OutputData>) -> (r: Vec<OutputData>)
    ensures
        cols(r@) == cols(v@),
{
    let mut out: Vec<OutputData> = Vec::new();
    let mut i: usize = 0;
    proof {
        assert(cols(out@) =~= cols(v@).subrange(0, 0));
    }
    while i < v.len()
        invariant
            i <= v@.len(),
            cols(out@) == cols(v@).subrange(0, i as int),
        decreases v@.len() - i,
    {
        let ghost out0 = cols(out@);
        out.push(duplicate_output(&v[i]));
        proof {
            assert(cols(out@) =~= out0.push(v@[i as int]@));
            assert(out0.push(v@[i as int]@) =~= cols(v@).subrange(0, i as int + 1));
        }
        i += 1;
    }
    proof {
        assert(cols(v@).subrange(0, v@.len() as int) =~= cols(v@));
    }
    out
}

/// The header-row writes of a laid-out column sequence.
fn title_writes(v: &Vec<OutputData>, col0: u16) -> (r: Vec<CellWrite>)
    requires
        col0 as int + sum_widths(cols(v@)) <= u16::MAX,
    ensures
        wviews(r@) == spec_title_writes(cols(v@), col0 as int),
{
    let ghost s = cols(v@);
    let mut out: Vec<CellWrite> = Vec::new();
    let mut col: u16 = col0;
    let mut i: usize = 0;
    proof {
        assert(s.skip(0) =~= s);
        assert(wviews(out@) =~= Seq::<WriteModel>::empty());
        lemma_sum_widths_nonneg(s);
    }
    while i < v.len()
        invariant
            i <= v@.len(),
            s == cols(v@),
            s.len() == v@.len(),
            col as int + sum_widths(s.skip(i as int)) == col0 as int + sum_widths(s),
            col0 as int + sum_widths(s) <= u16::MAX,
            spec_title_writes(s, col0 as int) == wviews(out@) + spec_title_writes(
                s.skip(i as int),
                col as int,
            ),
        decreases v@.len() - i,
    {
        proof {
            lemma_sum_widths_step(s, i as int);
            lemma_sum_widths_nonneg(s.skip(i as int + 1));
            assert(s[i as int] == v@[i as int]@);
            assert(s.skip(i as int)[0] == s[i as int]);
            assert(s.skip(i as int).skip(1) =~= s.skip(i as int + 1));
        }
        let o = &v[i];
        let ending: String = match &o.rename {
            Some(x) => x.clone(),
            None => match &o.source {
                Source::InTableHeader(x) => x.clone(),
                Source::Calculate(x) => x.clone(),
                Source::AtBasePrices(x, _) => x.clone(),
                Source::AtCurrPrices(x, _) => x.clone(),
            },
        };
        let title: String = match &o.source {
            Source::AtBasePrices(_, _) => {
                let mut t = String::from_str("БЦ ");
                t.append(ending.as_str());
                t
            },
            Source::AtCurrPrices(_, _) => {
                let mut t = String::from_str("TЦ ");
                t.append(ending.as_str());
                t
            },
            _ => ending,
        };
        proof {
            assert(title@ == col_title(s[i as int]));
        }
        let w = o.expected_columns;
        let ghost before = wviews(out@);
        let mut k: u16 = 0;
        while k < w
            invariant
                k <= w,
                i < s.len(),
                col as int + w as int <= u16::MAX,
                title@ == col_title(s[i as int]),
                wviews(out@) == before + repeat_writes(title@, col as int, k as int),
            decreases w - k,
        {
            let ghost mid = wviews(out@);
            out.push(
                CellWrite::Text {
                    row: 0,
                    col: col + k,
                    text: title.clone(),
                    format: CellFormat::Plain,
                },
            );
            proof {
                assert(wviews(out@) =~= mid + seq![
                    WriteModel::Text {
                        row: 0,
                        col: col as int + k as int,
                        text: title@,
                        format: CellFormat::Plain,
                    },
                ]);
                assert(before + repeat_writes(title@, col as int, k as int + 1) =~= (before
                    + repeat_writes(title@, col as int, k as int)) + seq![
                    WriteModel::Text {
                        row: 0,
                        col: col as int + k as int,
                        text: title@,
                        format: CellFormat::Plain,
                    },
                ]);
            }
            k += 1;
        }
        proof {
            assert((before + repeat_writes(title@, col as int, w as int)) + spec_title_writes(
                s.skip(i as int + 1),
                col as int + w as int,
            ) =~= before + (repeat_writes(title@, col as int, w as int) + spec_title_writes(
                s.skip(i as int + 1),
                col as int + w as int,
            )));
        }
        col = col + w;
        i += 1;
    }
    proof {
        assert(s.skip(i as int) =~= Seq::<ColModel>::empty());
    }
    out
}

impl Report {
    /// Assemble the finished report: the header row made of the emitted
    /// canonical columns followed by the two discovered sections, each
    /// title repeated across its column's full width, together with the
    /// report's extent for the caller's autofilter and frozen pane.
    pub fn end(self) -> (r: FinalPlan)
        requires
            self.wf(),
            self.frozen(),
        ensures
            r.last_row == self.empty_row,
            r.last_col as int == spec_count_col(self.part_main@) + spec_count_col(
                opt_cols(self.part_base),
            ) + spec_count_col(opt_cols(self.part_curr)),
            wviews(r.header_writes@) == spec_title_writes(
                emit_main(self.part_main@) + opt_cols(self.part_base) + opt_cols(self.part_curr),
                0,
            ),
    {
        let main_t = self.part_main.get_number_of_columns();
        let pb = match self.part_base {
            Some(p) => p,
            None => vstd::pervasive::unreached(),
        };
        let pc = match self.part_curr {
            Some(p) => p,
            None => vstd::pervasive::unreached(),
        };
        let base_t = pb.get_number_of_columns();
        let curr_t = pc.get_number_of_columns();
        let last_col = main_t + base_t + curr_t;
        let mut emitted = emit_main_exec(&self.part_main.vector);
        let mut d1 = duplicate_all(&pb.vector);
        let mut d2 = duplicate_all(&pc.vector);
        let ghost e0 = cols(emitted@);
        let ghost b0 = cols(d1@);
        let ghost c0 = cols(d2@);
        emitted.append(&mut d1);
        proof {
            assert(cols(emitted@) =~= e0 + b0);
        }
        emitted.append(&mut d2);
        proof {
            assert(cols(emitted@) =~= (e0 + b0) + c0);
            lemma_sum_widths_concat(e0 + b0, c0);
            lemma_sum_widths_concat(e0, b0);
            lemma_emit_main_bound(self.part_main@);
            lemma_no_del_sum(b0);
            lemma_no_del_sum(c0);
        }
        let header_writes = title_writes(&emitted, 0);
        proof {
            assert((e0 + b0) + c0 =~= e0 + b0 + c0);
        }
        FinalPlan { header_writes, last_row: self.empty_row, last_col }
    }
}

proof fn lemma_repeat_writes_within(t: Seq<char>, col0: int, w: int)
    ensures
        repeat_writes(t, col0, w).len() == (if w >= 0 {
            w
        } else {
            0
        }),
        forall|k: int|
            0 <= k < repeat_writes(t, col0, w).len() ==> match #[trigger] repeat_writes(
                t,
                col0,
                w,
            )[k] {
                WriteModel::Text { row, col, text, format } => row == 0 && col0 <= col < col0 + w
                    && text == t && format is Plain,
                _ => false,
            },
    decreases w,
{
    if w > 0 {
        lemma_repeat_writes_within(t, col0, w - 1);
    }
}

/// The assembled header row stays one row high and within the report's
/// extent: every title write is a text cell in row 0 whose column lies in
/// the span the emitted columns' summed widths cover — the same span the
/// finished report states for the caller's autofilter.
pub proof fn lemma_title_writes_within(cs: Seq<ColModel>, col0: int)
    ensures
        forall|k: int|
            0 <= k < spec_title_writes(cs, col0).len() ==> match #[trigger] spec_title_writes(
                cs,
                col0,
            )[k] {
                WriteModel::Text { row, col, .. } => row == 0 && col0 <= col < col0 + sum_widths(
                    cs,
                ),
                _ => false,
            },
    decreases cs.len(),
{
    if cs.len() > 0 {
        let w = cs[0].expected_columns as int;
        let head = repeat_writes(col_title(cs[0]), col0, w);
        let rest = spec_title_writes(cs.skip(1), col0 + w);
        lemma_repeat_writes_within(col_title(cs[0]), col0, w);
        lemma_title_writes_within(cs.skip(1), col0 + w);
        lemma_sum_widths_nonneg(cs.skip(1));
        assert forall|k: int|
            0 <= k < spec_title_writes(cs, col0).len() implies match #[trigger] spec_title_writes(
            cs,
            col0,
        )[k] {
            WriteModel::Text { row, col, .. } => row == 0 && col0 <= col < col0 + sum_widths(cs),
            _ => false,
        } by {
            if k < head.len() {
                assert(spec_title_writes(cs, col0)[k] == head[k]);
            } else {
                assert(spec_title_writes(cs, col0)[k] == rest[k - head.len()]);
            }
        }
    }
}

/// Discovered-layout construction is idempotent: two documents whose
/// totals rows read the same, measured against the same canonical
/// template, discover the same columns in the same order with the same
/// widths.
pub proof fn lemma_discovery_idempotent(a1: Act, a2: Act, part1: Seq<ColModel>, fam: Family)
    requires
        a1.data_of_totals@ == a2.data_of_totals@,
    ensures
        spec_discovered(a1.data_of_totals@, part1, fam) == spec_discovered(
            a2.data_of_totals@,
            part1,
            fam,
        ),
{
}

/// Row projection truncates instead of erring: the writes of one claimed
/// column are at most `take` many — the lesser of the column's frozen
/// width and the row's value count — and each lands inside the column's
/// span starting at `startcol`; a row narrower than its column simply
/// leaves the remaining cells unwritten.
pub proof fn lemma_vals_writes_truncate(vals: Seq<Option<u64>>, take: int, row: int, startcol: int)
    ensures
        spec_vals_writes(vals, take, row, startcol).len() <= (if take >= 0 {
            take
        } else {
            0
        }),
        forall|k: int|
            0 <= k < spec_vals_writes(vals, take, row, startcol).len() ==> (match #[trigger]
            spec_vals_writes(vals, take, row, startcol)[k] {
                WriteModel::Number { row: r, col, .. } => r == row && startcol <= col < startcol
                    + take,
                _ => false,
            }),
    decreases take,
{
    if take > 0 {
        lemma_vals_writes_truncate(vals, take - 1, row, startcol);
    }
}

} // verus!
