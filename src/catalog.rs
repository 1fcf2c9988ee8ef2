//! The catalog that a refresh builds: table names deduplicated by code (the
//! first label seen wins), one variable record per variable, year and
//! estimate, and the years and estimates in which each table was published;
//! and the lookups that queries make on it.
use crate::codes::{
    cmp_bytes, compare_bytes, lemma_cmp_bytes_reversed, opt_text, text_eq, Estimate, TableCode,
    TableCodeView, TablePrefix, TableRecord, TableRecordView, VariableRecord, VariableRecordView,
};
use crate::grammar::{
    format_table_code, parse_table_record, parse_variable_code, table_code_text,
    table_record_spec, upper_all, variable_code_spec, ParseError, Token,
};
use crate::index::{build_index, pairs_bytes_view, strictly_ascending, IndexError, Search};
use crate::listing::{entries_of, listing_entries, listing_text};
use crate::versions::records_view;
use std::cmp::Ordering;
use vstd::prelude::*;
use vstd::slice::slice_to_vec;
use vstd::utf8::*;

verus! {

/// One entry of a variable listing: the variable's name, its label, and the
/// concept text that names its table.
#[derive(Debug, Clone, PartialEq, Eq)]
pub struct VarEntry {
    pub name: String,
    pub label: String,
    pub concept: String,
}

pub struct VarEntryView {
    pub name: Seq<char>,
    pub label: Seq<char>,
    pub concept: Seq<char>,
}

impl View for VarEntry {
    type V = VarEntryView;

    open spec fn view(&self) -> VarEntryView {
        VarEntryView { name: self.name@, label: self.label@, concept: self.concept@ }
    }
}

/// A table was published for this estimate in this year.
#[derive(Debug, Clone, PartialEq, Eq)]
pub struct EstYear {
    pub code: TableCode,
    pub estimate: Estimate,
    pub year: u32,
}

pub struct EstYearView {
    pub code: TableCodeView,
    pub estimate: Estimate,
    pub year: u32,
}

impl View for EstYear {
    type V = EstYearView;

    open spec fn view(&self) -> EstYearView {
        EstYearView { code: self.code@, estimate: self.estimate, year: self.year }
    }
}

/// The tables, variables and publication years that a refresh collected.
#[derive(Debug, Clone, PartialEq, Eq)]
pub struct Catalog {
    pub tables: Vec<TableRecord>,
    pub vars: Vec<VariableRecord>,
    pub est_years: Vec<EstYear>,
}

pub struct CatalogView {
    pub tables: Seq<TableRecordView>,
    pub vars: Seq<VariableRecordView>,
    pub est_years: Seq<EstYearView>,
}

pub open spec fn tables_view(v: Seq<TableRecord>) -> Seq<TableRecordView> {
    v.map_values(|t: TableRecord| t@)
}

pub open spec fn est_years_view(v: Seq<EstYear>) -> Seq<EstYearView> {
    v.map_values(|e: EstYear| e@)
}

impl View for Catalog {
    type V = CatalogView;

    open spec fn view(&self) -> CatalogView {
        CatalogView {
            tables: tables_view(self.tables@),
            vars: records_view(self.vars@),
            est_years: est_years_view(self.est_years@),
        }
    }
}

// ---------------------------------------------------------------------------
// Reading one listing
pub open spec fn count_byte(b: Seq<u8>, x: u8) -> nat
    decreases b.len(),
{
    if b.len() == 0 {
        0
    } else {
        count_byte(b.drop_last(), x) + if b.last() == x {
            1nat
        } else {
            0nat
        }
    }
}

/// A name is a variable's name when it splits into exactly two parts at `_`.
pub open spec fn is_variable_name(name: Seq<char>) -> bool {
    count_byte(encode_utf8(name), 0x5f) == 1
}

/// What one entry gives: nothing when its name is not a variable's name, else
/// the variable record and the table record, or the first parse failure.
pub open spec fn entry_outcome(e: VarEntryView, year: u32, est: Estimate) -> Option<
    Result<(VariableRecordView, TableRecordView), (Token, Seq<u8>)>,
> {
    let nb = encode_utf8(e.name);
    let cb = encode_utf8(e.concept);
    if !is_variable_name(e.name) {
        None
    } else {
        match variable_code_spec(nb) {
            Err((t, p)) => Some(Err((t, nb.subrange(p, nb.len() as int)))),
            Ok((vc, _)) => match table_record_spec(cb) {
                Err((t, p)) => Some(Err((t, cb.subrange(p, cb.len() as int)))),
                Ok((tr, _)) => Some(
                    Ok(
                        (
                            VariableRecordView {
                                label: e.label,
                                code: vc,
                                year: year,
                                estimate: est,
                            },
                            tr,
                        ),
                    ),
                ),
            },
        }
    }
}

/// The records of a listing in order, or the failure of its first entry that
/// fails.
pub open spec fn listing_records(es: Seq<VarEntryView>, year: u32, est: Estimate) -> Result<
    Seq<(VariableRecordView, TableRecordView)>,
    (Token, Seq<u8>),
>
    decreases es.len(),
{
    if es.len() == 0 {
        Ok(Seq::empty())
    } else {
        match listing_records(es.drop_last(), year, est) {
            Err(e) => Err(e),
            Ok(acc) => match entry_outcome(es.last(), year, est) {
                None => Ok(acc),
                Some(Err(e)) => Err(e),
                Some(Ok(p)) => Ok(acc.push(p)),
            },
        }
    }
}

proof fn lemma_listing_error_stays(es: Seq<VarEntryView>, i: int, year: u32, est: Estimate)
    requires
        0 <= i <= es.len(),
        listing_records(es.subrange(0, i), year, est) is Err,
    ensures
        listing_records(es, year, est) == listing_records(es.subrange(0, i), year, est),
    decreases es.len() - i,
{
    if i == es.len() {
        assert(es.subrange(0, i) =~= es);
    } else {
        let pre = es.subrange(0, i + 1);
        assert(pre.drop_last() =~= es.subrange(0, i));
        lemma_listing_error_stays(es, i + 1, year, est);
    }
}

proof fn lemma_listing_len(es: Seq<VarEntryView>, year: u32, est: Estimate)
    ensures
        listing_records(es, year, est) matches Ok(ps) ==> ps.len() <= es.len(),
    decreases es.len(),
{
    if es.len() > 0 {
        lemma_listing_len(es.drop_last(), year, est);
    }
}

pub open spec fn entries_view(v: Seq<VarEntry>) -> Seq<VarEntryView> {
    v.map_values(|e: VarEntry| e@)
}

pub open spec fn pairs_view(v: Seq<(VariableRecord, TableRecord)>) -> Seq<
    (VariableRecordView, TableRecordView),
> {
    v.map_values(|p: (VariableRecord, TableRecord)| (p.0@, p.1@))
}

fn count_underscores(b: &[u8]) -> (r: usize)
    ensures
        r == count_byte(b@, 0x5f),
{
    let mut n: usize = 0;
    let mut i: usize = 0;
    while i < b.len()
        invariant
            i <= b@.len(),
            n == count_byte(b@.subrange(0, i as int), 0x5f),
            n <= i,
        decreases b@.len() - i,
    {
        assert(b@.subrange(0, i as int + 1).drop_last() =~= b@.subrange(0, i as int));
        if b[i] == 0x5f {
            n = n + 1;
        }
        i = i + 1;
    }
    assert(b@.subrange(0, b@.len() as int) =~= b@);
    n
}

fn read_entry(e: &VarEntry, year: u32, est: Estimate) -> (r: Option<
    Result<(VariableRecord, TableRecord), ParseError>,
>)
    ensures
        match entry_outcome(e@, year, est) {
            None => r is None,
            Some(Err((t, b))) => r matches Some(Err(err)) && err.token == t && err.rest@ == b,
            Some(Ok((v, tr))) => r matches Some(Ok((rv, rt))) && rv@ == v && rt@ == tr,
        },
{
    let name = e.name.as_str().as_bytes();
    if count_underscores(name) != 1 {
        return None;
    }
    let code = match parse_variable_code(name) {
        Ok((_, c)) => c,
        Err(err) => {
            return Some(Err(err));
        },
    };
    let table = match parse_table_record(e.concept.as_str().as_bytes()) {
        Ok((_, t)) => t,
        Err(err) => {
            return Some(Err(err));
        },
    };
    Some(Ok((VariableRecord { label: e.label.clone(), code, year, estimate: est }, table)))
}

/// Reads every entry of one listing for `year` and `est`: entries whose name
/// is not a variable's name are skipped, and the first entry that fails to
/// parse fails the whole listing.
pub fn read_listing(entries: &Vec<VarEntry>, year: u32, est: Estimate) -> (r: Result<
    Vec<(VariableRecord, TableRecord)>,
    ParseError,
>)
    ensures
        match listing_records(entries_view(entries@), year, est) {
            Ok(ps) => r matches Ok(v) && pairs_view(v@) == ps,
            Err((t, b)) => r matches Err(err) && err.token == t && err.rest@ == b,
        },
{
    let ghost ev = entries_view(entries@);
    let mut out: Vec<(VariableRecord, TableRecord)> = Vec::new();
    let mut i: usize = 0;
    assert(ev.subrange(0, 0) =~= Seq::<VarEntryView>::empty());
    assert(pairs_view(out@) =~= Seq::<(VariableRecordView, TableRecordView)>::empty());
    while i < entries.len()
        invariant
            i <= entries@.len(),
            ev == entries_view(entries@),
            listing_records(ev.subrange(0, i as int), year, est) == Ok::<
                Seq<(VariableRecordView, TableRecordView)>,
                (Token, Seq<u8>),
            >(pairs_view(out@)),
        decreases entries@.len() - i,
    {
        proof {
            let pre = ev.subrange(0, i as int + 1);
            assert(pre.drop_last() =~= ev.subrange(0, i as int));
            assert(pre.last() == entries@[i as int]@);
        }
        match read_entry(&entries[i], year, est) {
            None => {},
            Some(Err(err)) => {
                proof {
                    lemma_listing_error_stays(ev, i as int + 1, year, est);
                }
                return Err(err);
            },
            Some(Ok(p)) => {
                let ghost before = pairs_view(out@);
                out.push(p);
                assert(pairs_view(out@) =~= before.push((p.0@, p.1@)));
            },
        }
        i = i + 1;
    }
    assert(ev.subrange(0, entries@.len() as int) =~= ev);
    Ok(out)
}

// ---------------------------------------------------------------------------
// Merging into the catalog
pub open spec fn has_table(ts: Seq<TableRecordView>, c: TableCodeView) -> bool {
    exists|i: int| 0 <= i < ts.len() && #[trigger] ts[i].code == c
}

/// Adds a table name unless a name for its code is already there.
pub open spec fn insert_table(ts: Seq<TableRecordView>, t: TableRecordView) -> Seq<TableRecordView> {
    if has_table(ts, t.code) {
        ts
    } else {
        ts.push(t)
    }
}

pub open spec fn insert_est_year(es: Seq<EstYearView>, x: EstYearView) -> Seq<EstYearView> {
    if es.contains(x) {
        es
    } else {
        es.push(x)
    }
}

pub open spec fn merge_one(c: CatalogView, p: (VariableRecordView, TableRecordView)) -> CatalogView {
    CatalogView {
        tables: insert_table(c.tables, p.1),
        vars: c.vars.push(p.0),
        est_years: insert_est_year(
            c.est_years,
            EstYearView { code: p.1.code, estimate: p.0.estimate, year: p.0.year },
        ),
    }
}

/// The catalog after taking in the records of a listing, in order.
pub open spec fn merge_all(c: CatalogView, ps: Seq<(VariableRecordView, TableRecordView)>) -> CatalogView
    decreases ps.len(),
{
    if ps.len() == 0 {
        c
    } else {
        merge_one(merge_all(c, ps.drop_last()), ps.last())
    }
}

/// No two table names share a code, and no publication year is listed twice.
pub open spec fn catalog_wf(c: CatalogView) -> bool {
    &&& forall|i: int, j: int|
        0 <= i < j < c.tables.len() ==> #[trigger] c.tables[i].code != #[trigger] c.tables[j].code
    &&& forall|i: int, j: int|
        0 <= i < j < c.est_years.len() ==> #[trigger] c.est_years[i] != #[trigger] c.est_years[j]
}

proof fn lemma_merge_keeps_wf(c: CatalogView, ps: Seq<(VariableRecordView, TableRecordView)>)
    requires
        catalog_wf(c),
    ensures
        catalog_wf(merge_all(c, ps)),
    decreases ps.len(),
{
    if ps.len() > 0 {
        let d = ps.drop_last();
        lemma_merge_keeps_wf(c, d);
        let m = merge_all(c, d);
        let p = ps.last();
        let nt = insert_table(m.tables, p.1);
        let x = EstYearView { code: p.1.code, estimate: p.0.estimate, year: p.0.year };
        let ne = insert_est_year(m.est_years, x);
        assert forall|i: int, j: int| 0 <= i < j < nt.len() implies #[trigger] nt[i].code
            != #[trigger] nt[j].code by {
            if !has_table(m.tables, p.1.code) && j == nt.len() - 1 {
                assert(nt[i] == m.tables[i]);
                assert(nt[j] == p.1);
            }
        }
        assert forall|i: int, j: int| 0 <= i < j < ne.len() implies #[trigger] ne[i]
            != #[trigger] ne[j] by {
            if !m.est_years.contains(x) && j == ne.len() - 1 {
                assert(ne[i] == m.est_years[i]);
                assert(ne[j] == x);
            }
        }
    }
}

pub open spec fn empty_catalog() -> CatalogView {
    CatalogView { tables: Seq::empty(), vars: Seq::empty(), est_years: Seq::empty() }
}

impl Catalog {
    pub fn new() -> (r: Catalog)
        ensures
            r@ == empty_catalog(),
            catalog_wf(r@),
    {
        let r = Catalog { tables: Vec::new(), vars: Vec::new(), est_years: Vec::new() };
        assert(r@.tables =~= Seq::<TableRecordView>::empty());
        assert(r@.vars =~= Seq::<VariableRecordView>::empty());
        assert(r@.est_years =~= Seq::<EstYearView>::empty());
        r
    }

    fn add_table(&mut self, t: TableRecord)
        ensures
            final(self)@ == (CatalogView {
                tables: insert_table(old(self)@.tables, t@),
                ..old(self)@
            }),
    {
        let ghost ts = old(self)@.tables;
        let mut i: usize = self.tables.len();
        while i > 0
            invariant
                i <= self.tables@.len(),
                self@ == old(self)@,
                ts == self@.tables,
                forall|j: int| i <= j < ts.len() ==> #[trigger] ts[j].code != t@.code,
            decreases i,
        {
            i = i - 1;
            if self.tables[i].code.same_as(&t.code) {
                assert(ts[i as int].code == t@.code);
                return;
            }
        }
        let ghost old_tables = self.tables@;
        self.tables.push(t);
        assert(tables_view(self.tables@) =~= ts.push(t@));
    }

    fn add_est_year(&mut self, x: EstYear)
        ensures
            final(self)@ == (CatalogView {
                est_years: insert_est_year(old(self)@.est_years, x@),
                ..old(self)@
            }),
    {
        let ghost es = old(self)@.est_years;
        let mut i: usize = self.est_years.len();
        while i > 0
            invariant
                i <= self.est_years@.len(),
                self@ == old(self)@,
                es == self@.est_years,
                forall|j: int| i <= j < es.len() ==> #[trigger] es[j] != x@,
            decreases i,
        {
            i = i - 1;
            let e = &self.est_years[i];
            if e.year == x.year && e.estimate == x.estimate && e.code.same_as(&x.code) {
                assert(es[i as int] == x@);
                return;
            }
        }
        self.est_years.push(x);
        assert(est_years_view(self.est_years@) =~= es.push(x@));
    }

    /// Takes in the records of a listing, in order.
    pub fn merge(&mut self, pairs: &Vec<(VariableRecord, TableRecord)>)
        ensures
            final(self)@ == merge_all(old(self)@, pairs_view(pairs@)),
            catalog_wf(old(self)@) ==> catalog_wf(final(self)@),
    {
        proof {
            if catalog_wf(old(self)@) {
                lemma_merge_keeps_wf(old(self)@, pairs_view(pairs@));
            }
        }
        let ghost pv = pairs_view(pairs@);
        let mut i: usize = 0;
        while i < pairs.len()
            invariant
                i <= pairs@.len(),
                pv == pairs_view(pairs@),
                self@ == merge_all(old(self)@, pv.subrange(0, i as int)),
            decreases pairs@.len() - i,
        {
            proof {
                let pre = pv.subrange(0, i as int + 1);
                assert(pre.drop_last() =~= pv.subrange(0, i as int));
            }
            let v = pairs[i].0.duplicate();
            let t = pairs[i].1.duplicate();
            let x = EstYear { code: t.code.duplicate(), estimate: v.estimate, year: v.year };
            self.add_table(t);
            let ghost before_vars = self@.vars;
            self.vars.push(v);
            assert(self@.vars =~= before_vars.push(pairs@[i as int].0@));
            self.add_est_year(x);
            i = i + 1;
        }
        assert(pv.subrange(0, pairs@.len() as int) =~= pv);
    }

    /// Reads a listing for `year` and `est` and takes in its records. When an
    /// entry fails to parse, the catalog is left as it was.
    pub fn apply_listing(&mut self, entries: &Vec<VarEntry>, year: u32, est: Estimate) -> (r: Result<
        usize,
        ParseError,
    >)
        ensures
            match listing_records(entries_view(entries@), year, est) {
                Ok(ps) => r == Ok::<usize, ParseError>(ps.len() as usize) && final(self)@
                    == merge_all(old(self)@, ps),
                Err((t, b)) => (r matches Err(err) && err.token == t && err.rest@ == b)
                    && final(self)@ == old(self)@,
            },
            catalog_wf(old(self)@) ==> catalog_wf(final(self)@),
    {
        proof {
            lemma_listing_len(entries_view(entries@), year, est);
        }
        match read_listing(entries, year, est) {
            Ok(pairs) => {
                self.merge(&pairs);
                Ok(pairs.len())
            },
            Err(e) => Err(e),
        }
    }
}

// ---------------------------------------------------------------------------
// One step of a refresh
/// Why the listing of one (year, estimate) step of a refresh could not be read.
#[derive(Debug, Clone, PartialEq, Eq)]
pub enum StepError {
    /// The listing could not be fetched; the text says why.
    Fetch(String),
    /// The listing is not JSON.
    Decode,
}

/// A listing read for one year and estimate.
#[derive(Debug, Clone, PartialEq, Eq)]
pub struct Listing {
    pub year: u32,
    pub estimate: Estimate,
    pub entries: Vec<VarEntry>,
}

pub struct ListingView {
    pub year: u32,
    pub estimate: Estimate,
    pub entries: Seq<VarEntryView>,
}

impl View for Listing {
    type V = ListingView;

    open spec fn view(&self) -> ListingView {
        ListingView { year: self.year, estimate: self.estimate, entries: entries_view(self.entries@) }
    }
}

/// Reads what was fetched for `year` and `est`: a failed fetch, or a text
/// that is not JSON, is refused.
pub fn read_fetched(year: u32, est: Estimate, fetched: Result<String, String>) -> (r: Result<
    Listing,
    StepError,
>)
    ensures
        fetched is Err ==> r == Err::<Listing, StepError>(StepError::Fetch(fetched->Err_0)),
        fetched matches Ok(t) ==> match listing_text(t@) {
            None => r == Err::<Listing, StepError>(StepError::Decode),
            Some(es) => r matches Ok(l) && l.year == year && l.estimate == est && entries_view(
                l.entries@,
            ) == entries_of(es),
        },
{
    let text = match fetched {
        Ok(t) => t,
        Err(msg) => {
            return Err(StepError::Fetch(msg));
        },
    };
    match listing_entries(text.as_str()) {
        Some(entries) => Ok(Listing { year, estimate: est, entries }),
        None => Err(StepError::Decode),
    }
}

/// The catalog built from nothing by taking in the listings in order; a
/// listing with an entry that fails to parse is left out.
pub open spec fn listings_catalog(ls: Seq<ListingView>) -> CatalogView
    decreases ls.len(),
{
    if ls.len() == 0 {
        empty_catalog()
    } else {
        let c = listings_catalog(ls.drop_last());
        let l = ls.last();
        match listing_records(l.entries, l.year, l.estimate) {
            Ok(ps) => merge_all(c, ps),
            Err(_) => c,
        }
    }
}

pub open spec fn listings_view(v: Seq<Listing>) -> Seq<ListingView> {
    v.map_values(|l: Listing| l@)
}

/// What rebuilding reports for one listing: its number of records, or the
/// failure of its first entry that fails.
pub open spec fn outcome_matches(r: Result<usize, ParseError>, l: ListingView) -> bool {
    match listing_records(l.entries, l.year, l.estimate) {
        Ok(ps) => r == Ok::<usize, ParseError>(ps.len() as usize),
        Err((t, b)) => r matches Err(e) && e.token == t && e.rest@ == b,
    }
}

impl Catalog {
    /// Replaces the catalog by one built from the listings, in order, and
    /// reports each listing's outcome; what the catalog held before plays no
    /// part.
    pub fn rebuild(&mut self, listings: &Vec<Listing>) -> (r: Vec<Result<usize, ParseError>>)
        ensures
            final(self)@ == listings_catalog(listings_view(listings@)),
            catalog_wf(final(self)@),
            r@.len() == listings@.len(),
            forall|i: int| 0 <= i < listings@.len() ==> outcome_matches(#[trigger] r@[i], listings@[i]@),
    {
        let ghost lv = listings_view(listings@);
        *self = Catalog::new();
        let mut outcomes: Vec<Result<usize, ParseError>> = Vec::new();
        let mut i: usize = 0;
        while i < listings.len()
            invariant
                i <= listings@.len(),
                lv == listings_view(listings@),
                self@ == listings_catalog(lv.subrange(0, i as int)),
                catalog_wf(self@),
                outcomes@.len() == i,
                forall|k: int| 0 <= k < i ==> outcome_matches(#[trigger] outcomes@[k], listings@[k]@),
            decreases listings@.len() - i,
        {
            proof {
                let pre = lv.subrange(0, i as int + 1);
                assert(pre.drop_last() =~= lv.subrange(0, i as int));
                assert(pre.last() == listings@[i as int]@);
            }
            let l = &listings[i];
            let outcome = self.apply_listing(&l.entries, l.year, l.estimate);
            outcomes.push(outcome);
            i = i + 1;
        }
        assert(lv.subrange(0, lv.len() as int) =~= lv);
        outcomes
    }
}

proof fn lemma_merge_vars(c: CatalogView, ps: Seq<(VariableRecordView, TableRecordView)>)
    ensures
        merge_all(c, ps).vars == c.vars + ps.map_values(
            |p: (VariableRecordView, TableRecordView)| p.0,
        ),
    decreases ps.len(),
{
    if ps.len() == 0 {
        assert(c.vars + ps.map_values(|p: (VariableRecordView, TableRecordView)| p.0) =~= c.vars);
    } else {
        lemma_merge_vars(c, ps.drop_last());
        assert(c.vars + ps.map_values(|p: (VariableRecordView, TableRecordView)| p.0) =~= (c.vars
            + ps.drop_last().map_values(|p: (VariableRecordView, TableRecordView)| p.0)).push(
            ps.last().0,
        ));
    }
}

/// The variable records already in a rebuilt catalog stay there as later
/// listings are taken in.
proof fn lemma_listings_vars_grow(ls: Seq<ListingView>, n: int)
    requires
        0 <= n <= ls.len(),
    ensures
        forall|k: int|
            0 <= k < listings_catalog(ls.subrange(0, n)).vars.len() ==> #[trigger] listings_catalog(
                ls.subrange(0, n),
            ).vars[k] == listings_catalog(ls).vars[k],
        listings_catalog(ls.subrange(0, n)).vars.len() <= listings_catalog(ls).vars.len(),
    decreases ls.len() - n,
{
    if n == ls.len() {
        assert(ls.subrange(0, n) =~= ls);
    } else {
        lemma_listings_vars_grow(ls, n + 1);
        let pre = ls.subrange(0, n + 1);
        assert(pre.drop_last() =~= ls.subrange(0, n));
        let c = listings_catalog(ls.subrange(0, n));
        let l = pre.last();
        match listing_records(l.entries, l.year, l.estimate) {
            Ok(ps) => lemma_merge_vars(c, ps),
            Err(_) => {},
        }
        let mid = listings_catalog(pre);
        assert(c.vars.len() <= mid.vars.len());
        assert forall|k: int| 0 <= k < c.vars.len() implies #[trigger] c.vars[k]
            == listings_catalog(ls).vars[k] by {
            assert(c.vars[k] == mid.vars[k]);
            assert(mid.vars[k] == listings_catalog(ls).vars[k]);
        }
    }
}

/// A refresh keeps every listing that could be read: each variable record of
/// each listing whose entries all parse is in the rebuilt catalog, whatever
/// became of the other listings (a failed fetch simply gives no listing).
pub proof fn lemma_rebuild_keeps_good_listings(ls: Seq<ListingView>, i: int, j: int)
    requires
        0 <= i < ls.len(),
        listing_records(ls[i].entries, ls[i].year, ls[i].estimate) matches Ok(ps) && 0 <= j
            < ps.len(),
    ensures
        listings_catalog(ls).vars.contains(
            listing_records(ls[i].entries, ls[i].year, ls[i].estimate)->Ok_0[j].0,
        ),
{
    let ps = listing_records(ls[i].entries, ls[i].year, ls[i].estimate)->Ok_0;
    let pre = ls.subrange(0, i + 1);
    assert(pre.drop_last() =~= ls.subrange(0, i));
    assert(pre.last() == ls[i]);
    let c = listings_catalog(ls.subrange(0, i));
    lemma_merge_vars(c, ps);
    let after = listings_catalog(pre);
    let k = c.vars.len() + j;
    assert(after.vars[k] == ps[j].0);
    lemma_listings_vars_grow(ls, i + 1);
    assert(listings_catalog(ls).vars[k] == ps[j].0);
}

/// Table names and publication years are deduplicated: taking in the same
/// records a second time adds no table and no publication year.
pub proof fn lemma_merge_dedups(c: CatalogView, ps: Seq<(VariableRecordView, TableRecordView)>)
    ensures
        merge_all(merge_all(c, ps), ps).tables == merge_all(c, ps).tables,
        merge_all(merge_all(c, ps), ps).est_years == merge_all(c, ps).est_years,
    decreases ps.len(),
{
    lemma_merge_has_all(c, ps, ps.len() as int);
    lemma_merge_present(merge_all(c, ps), ps);
}

pub open spec fn est_of(p: (VariableRecordView, TableRecordView)) -> EstYearView {
    EstYearView { code: p.1.code, estimate: p.0.estimate, year: p.0.year }
}

/// After taking in records, their tables and publication years are there,
/// and what was there stays.
proof fn lemma_merge_has_all(c: CatalogView, ps: Seq<(VariableRecordView, TableRecordView)>, n: int)
    requires
        0 <= n <= ps.len(),
    ensures
        forall|k: int| 0 <= k < n ==> has_table(merge_all(c, ps).tables, #[trigger] ps[k].1.code),
        forall|k: int| 0 <= k < n ==> merge_all(c, ps).est_years.contains(est_of(#[trigger] ps[k])),
    decreases ps.len(),
{
    if ps.len() > 0 {
        let d = ps.drop_last();
        let m = merge_all(c, d);
        let last = ps.last();
        let nt = insert_table(m.tables, last.1);
        let ne = insert_est_year(m.est_years, est_of(last));
        lemma_merge_has_all(c, d, d.len() as int);
        assert(has_table(nt, last.1.code)) by {
            if !has_table(m.tables, last.1.code) {
                assert(nt[nt.len() - 1] == last.1);
            }
        }
        assert(ne.contains(est_of(last))) by {
            if !m.est_years.contains(est_of(last)) {
                assert(ne[ne.len() - 1] == est_of(last));
            }
        }
        assert forall|k: int| 0 <= k < n implies has_table(nt, #[trigger] ps[k].1.code) by {
            if k < d.len() {
                assert(ps[k] == d[k]);
                assert(has_table(m.tables, d[k].1.code));
                let j = choose|j: int| 0 <= j < m.tables.len() && #[trigger] m.tables[j].code == d[k].1.code;
                assert(nt[j] == m.tables[j]);
            }
        }
        assert forall|k: int| 0 <= k < n implies ne.contains(est_of(#[trigger] ps[k])) by {
            if k < d.len() {
                assert(ps[k] == d[k]);
                assert(m.est_years.contains(est_of(d[k])));
                let j = choose|j: int| 0 <= j < m.est_years.len() && m.est_years[j] == est_of(d[k]);
                assert(ne[j] == m.est_years[j]);
            }
        }
    }
}

/// Taking in records whose tables and publication years are all there
/// changes neither.
proof fn lemma_merge_present(c: CatalogView, ps: Seq<(VariableRecordView, TableRecordView)>)
    requires
        forall|k: int| 0 <= k < ps.len() ==> has_table(c.tables, #[trigger] ps[k].1.code),
        forall|k: int| 0 <= k < ps.len() ==> c.est_years.contains(est_of(#[trigger] ps[k])),
    ensures
        merge_all(c, ps).tables == c.tables,
        merge_all(c, ps).est_years == c.est_years,
    decreases ps.len(),
{
    if ps.len() > 0 {
        let d = ps.drop_last();
        assert forall|k: int| 0 <= k < d.len() implies has_table(c.tables, #[trigger] d[k].1.code) by {
            assert(d[k] == ps[k]);
        }
        assert forall|k: int| 0 <= k < d.len() implies c.est_years.contains(est_of(#[trigger] d[k])) by {
            assert(d[k] == ps[k]);
        }
        lemma_merge_present(c, d);
        assert(has_table(c.tables, ps[ps.len() - 1].1.code));
        assert(c.est_years.contains(est_of(ps[ps.len() - 1])));
    }
}

/// The (year, estimate) steps of a refresh: each year of `[first_year,
/// end_year)` in turn, and for each the estimates in the order given.
pub open spec fn plan_spec(first_year: u32, end_year: u32, ests: Seq<Estimate>) -> Seq<(u32, Estimate)>
    decreases end_year - first_year,
{
    if end_year <= first_year {
        Seq::empty()
    } else {
        plan_spec(first_year, (end_year - 1) as u32, ests) + ests.map_values(
            |e: Estimate| ((end_year - 1) as u32, e),
        )
    }
}

pub fn refresh_plan(first_year: u32, end_year: u32, estimates: &Vec<Estimate>) -> (r: Vec<
    (u32, Estimate),
>)
    ensures
        r@ == plan_spec(first_year, end_year, estimates@),
{
    let mut out: Vec<(u32, Estimate)> = Vec::new();
    if end_year <= first_year {
        return out;
    }
    let mut y: u32 = first_year;
    while y < end_year
        invariant
            first_year <= y <= end_year,
            out@ == plan_spec(first_year, y, estimates@),
        decreases end_year - y,
    {
        let ghost before = out@;
        let mut k: usize = 0;
        while k < estimates.len()
            invariant
                k <= estimates@.len(),
                y < end_year,
                out@ == before + estimates@.subrange(0, k as int).map_values(
                    |e: Estimate| (y, e),
                ),
            decreases estimates@.len() - k,
        {
            out.push((y, estimates[k]));
            k = k + 1;
            assert(out@ =~= before + estimates@.subrange(0, k as int).map_values(
                |e: Estimate| (y, e),
            ));
        }
        assert(estimates@.subrange(0, estimates@.len() as int) =~= estimates@);
        assert(((y + 1) as u32 - 1) as u32 == y);
        y = y + 1;
    }
    out
}

// ---------------------------------------------------------------------------
// Queries
/// A table matches a lookup by id when its id is the one asked for and its
/// prefix and suffix are those asked for, where they are asked for.
pub open spec fn table_matches(
    t: TableRecordView,
    prefix: Option<TablePrefix>,
    table_id: Seq<char>,
    suffix: Option<Seq<char>>,
) -> bool {
    &&& t.code.table_id == table_id
    &&& prefix matches Some(p) ==> t.code.prefix == p
    &&& suffix matches Some(x) ==> t.code.suffix == Some(x)
}

pub open spec fn tables_matching(
    ts: Seq<TableRecordView>,
    prefix: Option<TablePrefix>,
    table_id: Seq<char>,
    suffix: Option<Seq<char>>,
) -> Seq<TableRecordView>
    decreases ts.len(),
{
    if ts.len() == 0 {
        ts
    } else {
        let r = tables_matching(ts.drop_last(), prefix, table_id, suffix);
        if table_matches(ts.last(), prefix, table_id, suffix) {
            r.push(ts.last())
        } else {
            r
        }
    }
}

pub open spec fn vars_of_table(vs: Seq<VariableRecordView>, code: TableCodeView) -> Seq<
    VariableRecordView,
>
    decreases vs.len(),
{
    if vs.len() == 0 {
        vs
    } else {
        let r = vars_of_table(vs.drop_last(), code);
        if vs.last().code.table_code == code {
            r.push(vs.last())
        } else {
            r
        }
    }
}

pub open spec fn years_of(es: Seq<EstYearView>, code: TableCodeView, est: Estimate) -> Seq<u32>
    decreases es.len(),
{
    if es.len() == 0 {
        Seq::empty()
    } else {
        let r = years_of(es.drop_last(), code, est);
        if es.last().code == code && es.last().estimate == est {
            r.push(es.last().year)
        } else {
            r
        }
    }
}

/// The years in which a table was published for one estimate.
#[derive(Debug, Clone, PartialEq, Eq)]
pub struct EstimateYears {
    pub estimate: Estimate,
    pub years: Vec<u32>,
}

/// One entry for each estimate, one-year first, that has any year.
pub open spec fn est_years_spec(es: Seq<EstYearView>, code: TableCodeView) -> Seq<(Estimate, Seq<u32>)> {
    let one = years_of(es, code, Estimate::OneYear);
    let five = years_of(es, code, Estimate::FiveYear);
    let a = if one.len() > 0 {
        seq![(Estimate::OneYear, one)]
    } else {
        Seq::empty()
    };
    if five.len() > 0 {
        a.push((Estimate::FiveYear, five))
    } else {
        a
    }
}

fn table_matches_exec(
    t: &TableRecord,
    prefix: &Option<TablePrefix>,
    table_id: &str,
    suffix: &Option<String>,
) -> (r: bool)
    ensures
        r == table_matches(t@, *prefix, table_id@, opt_text(*suffix)),
{
    if !text_eq(t.code.table_id.as_str(), table_id) {
        return false;
    }
    match prefix {
        Some(p) => {
            if t.code.prefix != *p {
                return false;
            }
        },
        None => {},
    }
    match suffix {
        Some(x) => match &t.code.suffix {
            Some(y) => text_eq(y.as_str(), x.as_str()),
            None => false,
        },
        None => true,
    }
}

/// The table code with these parts.
pub open spec fn code_of(prefix: TablePrefix, table_id: Seq<char>, suffix: Option<Seq<char>>) -> TableCodeView {
    TableCodeView { prefix: prefix, table_id: table_id, suffix: suffix }
}

fn code_is(c: &TableCode, prefix: TablePrefix, table_id: &str, suffix: &Option<String>) -> (r: bool)
    ensures
        r == (c@ == code_of(prefix, table_id@, opt_text(*suffix))),
{
    if c.prefix != prefix || !text_eq(c.table_id.as_str(), table_id) {
        return false;
    }
    match (&c.suffix, suffix) {
        (None, None) => true,
        (Some(x), Some(y)) => text_eq(x.as_str(), y.as_str()),
        _ => false,
    }
}

impl Catalog {
    /// The tables with this id, restricted to a prefix and to a suffix where
    /// they are given, in catalog order; none is no error.
    pub fn query_by_table_id(
        &self,
        prefix: &Option<TablePrefix>,
        table_id: &str,
        suffix: &Option<String>,
    ) -> (r: Vec<TableRecord>)
        ensures
            tables_view(r@) == tables_matching(self@.tables, *prefix, table_id@, opt_text(*suffix)),
    {
        let ghost ts = self@.tables;
        let mut out: Vec<TableRecord> = Vec::new();
        let mut i: usize = 0;
        while i < self.tables.len()
            invariant
                i <= self.tables@.len(),
                ts == self@.tables,
                tables_view(out@) == tables_matching(
                    ts.subrange(0, i as int),
                    *prefix,
                    table_id@,
                    opt_text(*suffix),
                ),
            decreases self.tables@.len() - i,
        {
            proof {
                let pre = ts.subrange(0, i as int + 1);
                assert(pre.drop_last() =~= ts.subrange(0, i as int));
            }
            if table_matches_exec(&self.tables[i], prefix, table_id, suffix) {
                let ghost before = tables_view(out@);
                out.push(self.tables[i].duplicate());
                assert(tables_view(out@) =~= before.push(ts[i as int]));
            }
            i = i + 1;
        }
        assert(ts.subrange(0, ts.len() as int) =~= ts);
        out
    }

    /// Every variable record of the table with exactly this code, for all
    /// years and estimates, in catalog order.
    pub fn describe_table(&self, prefix: TablePrefix, table_id: &str, suffix: &Option<String>) -> (r:
        Vec<VariableRecord>)
        ensures
            records_view(r@) == vars_of_table(
                self@.vars,
                code_of(prefix, table_id@, opt_text(*suffix)),
            ),
    {
        let ghost vs = self@.vars;
        let ghost code = code_of(prefix, table_id@, opt_text(*suffix));
        let mut out: Vec<VariableRecord> = Vec::new();
        let mut i: usize = 0;
        while i < self.vars.len()
            invariant
                i <= self.vars@.len(),
                vs == self@.vars,
                code == code_of(prefix, table_id@, opt_text(*suffix)),
                records_view(out@) == vars_of_table(vs.subrange(0, i as int), code),
            decreases self.vars@.len() - i,
        {
            proof {
                let pre = vs.subrange(0, i as int + 1);
                assert(pre.drop_last() =~= vs.subrange(0, i as int));
            }
            let rec = &self.vars[i];
            assert(vs[i as int] == rec@);
            let hit = code_is(&rec.code.table_code, prefix, table_id, suffix);
            if hit {
                let ghost before = records_view(out@);
                out.push(self.vars[i].duplicate());
                assert(records_view(out@) =~= before.push(vs[i as int]));
            }
            i = i + 1;
        }
        assert(vs.subrange(0, vs.len() as int) =~= vs);
        out
    }

    fn years_for(&self, prefix: TablePrefix, table_id: &str, suffix: &Option<String>, est: Estimate) -> (r: Vec<u32>)
        ensures
            r@ == years_of(
                self@.est_years,
                code_of(prefix, table_id@, opt_text(*suffix)),
                est,
            ),
    {
        let ghost es = self@.est_years;
        let ghost code = code_of(prefix, table_id@, opt_text(*suffix));
        let mut out: Vec<u32> = Vec::new();
        let mut i: usize = 0;
        while i < self.est_years.len()
            invariant
                i <= self.est_years@.len(),
                es == self@.est_years,
                code == code_of(prefix, table_id@, opt_text(*suffix)),
                out@ == years_of(es.subrange(0, i as int), code, est),
            decreases self.est_years@.len() - i,
        {
            proof {
                let pre = es.subrange(0, i as int + 1);
                assert(pre.drop_last() =~= es.subrange(0, i as int));
            }
            let e = &self.est_years[i];
            assert(es[i as int] == e@);
            if e.estimate == est && code_is(&e.code, prefix, table_id, suffix) {
                out.push(e.year);
            }
            i = i + 1;
        }
        assert(es.subrange(0, es.len() as int) =~= es);
        out
    }

    /// The years in which the table with exactly this code was published,
    /// for each estimate that has any.
    pub fn query_est_years(&self, prefix: TablePrefix, table_id: &str, suffix: &Option<String>) -> (r:
        Vec<EstimateYears>)
        ensures
            r@.map_values(|e: EstimateYears| (e.estimate, e.years@)) == est_years_spec(
                self@.est_years,
                code_of(prefix, table_id@, opt_text(*suffix)),
            ),
    {
        let one = self.years_for(prefix, table_id, suffix, Estimate::OneYear);
        let five = self.years_for(prefix, table_id, suffix, Estimate::FiveYear);
        let ghost (o, f) = (one@, five@);
        let mut out: Vec<EstimateYears> = Vec::new();
        if one.len() > 0 {
            out.push(EstimateYears { estimate: Estimate::OneYear, years: one });
        }
        if five.len() > 0 {
            out.push(EstimateYears { estimate: Estimate::FiveYear, years: five });
        }
        assert(out@.map_values(|e: EstimateYears| (e.estimate, e.years@)) =~= est_years_spec(
            self@.est_years,
            code_of(prefix, table_id@, opt_text(*suffix)),
        ));
        out
    }
}

// ---------------------------------------------------------------------------
// Full-text lookup
/// The index key of a table: its code text, as bytes.
pub open spec fn table_key(t: TableRecordView) -> Seq<u8> {
    encode_utf8(table_code_text(t.code))
}

/// Inserts a pair into pairs ordered by key: before the first greater key,
/// and not at all when its key is already there.
pub open spec fn insert_key(s: Seq<(Seq<u8>, u64)>, x: (Seq<u8>, u64)) -> Seq<(Seq<u8>, u64)>
    decreases s.len(),
{
    if s.len() == 0 {
        seq![x]
    } else if cmp_bytes(s[0].0, x.0) == Ordering::Less {
        seq![s[0]] + insert_key(s.drop_first(), x)
    } else if cmp_bytes(s[0].0, x.0) == Ordering::Equal {
        s
    } else {
        seq![x] + s
    }
}

/// The index pairs of the first `n` tables: each table's key with its
/// position, ordered by key, the first table winning among equal keys.
pub open spec fn index_pairs_spec(ts: Seq<TableRecordView>, n: int) -> Seq<(Seq<u8>, u64)>
    decreases n,
{
    if n <= 0 {
        Seq::empty()
    } else {
        insert_key(index_pairs_spec(ts, n - 1), (table_key(ts[n - 1]), (n - 1) as u64))
    }
}

proof fn lemma_insert_key_at(s: Seq<(Seq<u8>, u64)>, x: (Seq<u8>, u64), p: int)
    requires
        0 <= p <= s.len(),
        strictly_ascending(s),
        forall|j: int| 0 <= j < p ==> cmp_bytes(#[trigger] s[j].0, x.0) == Ordering::Less,
        p < s.len() ==> cmp_bytes(s[p].0, x.0) != Ordering::Less,
    ensures
        p < s.len() && cmp_bytes(s[p].0, x.0) == Ordering::Equal ==> insert_key(s, x) == s,
        !(p < s.len() && cmp_bytes(s[p].0, x.0) == Ordering::Equal) ==> insert_key(s, x)
            == s.insert(p, x),
        strictly_ascending(insert_key(s, x)),
    decreases p,
{
    if p == 0 {
        if s.len() > 0 && cmp_bytes(s[0].0, x.0) == Ordering::Greater {
            assert(s.insert(0, x) =~= seq![x] + s);
            lemma_cmp_bytes_reversed(s[0].0, x.0);
            let r = seq![x] + s;
            assert forall|k: int| 0 < k < r.len() implies cmp_bytes(#[trigger] r[k - 1].0, r[k].0)
                == Ordering::Less by {
                if k > 1 {
                    assert(r[k - 1] == s[k - 2] && r[k] == s[k - 1]);
                }
            }
        } else if s.len() == 0 {
            assert(s.insert(0, x) =~= seq![x]);
        }
    } else {
        let t = s.drop_first();
        assert(strictly_ascending(t)) by {
            assert forall|k: int| 0 < k < t.len() implies cmp_bytes(#[trigger] t[k - 1].0, t[k].0)
                == Ordering::Less by {
                let i = k + 1;
                assert(cmp_bytes(s[i - 1].0, s[i].0) == Ordering::Less);
                assert(t[k - 1] == s[k] && t[k] == s[k + 1]);
            }
        }
        assert forall|j: int| 0 <= j < p - 1 implies cmp_bytes(#[trigger] t[j].0, x.0)
            == Ordering::Less by {
            assert(t[j] == s[j + 1]);
        }
        assert(cmp_bytes(s[0].0, x.0) == Ordering::Less);
        lemma_insert_key_at(t, x, p - 1);
        let it = insert_key(t, x);
        let r = seq![s[0]] + it;
        assert(insert_key(s, x) == r);
        if !(p < s.len() && cmp_bytes(s[p].0, x.0) == Ordering::Equal) {
            assert(s.insert(p, x) =~= seq![s[0]] + t.insert(p - 1, x));
        } else {
            assert(r =~= s);
        }
        assert(it.len() > 0);
        assert(cmp_bytes(s[0].0, it[0].0) == Ordering::Less) by {
            if p - 1 == 0 && !(p < s.len() && cmp_bytes(s[p].0, x.0) == Ordering::Equal) {
                assert(it[0] == x);
            } else {
                assert(s.len() >= 2);
                assert(t[0] == s[1]);
                if p - 1 > 0 {
                    assert(cmp_bytes(t[0].0, x.0) == Ordering::Less);
                }
                assert(it[0] == t[0]);
                assert(cmp_bytes(s[1 - 1].0, s[1].0) == Ordering::Less);
            }
        }
        assert forall|k: int| 0 < k < r.len() implies cmp_bytes(#[trigger] r[k - 1].0, r[k].0)
            == Ordering::Less by {
            if k > 1 {
                assert(r[k - 1] == it[k - 2] && r[k] == it[k - 1]);
            }
        }
    }
}

fn upper_bytes(b: &[u8]) -> (r: Vec<u8>)
    ensures
        r@ == upper_all(b@),
{
    let mut out: Vec<u8> = Vec::new();
    let mut i: usize = 0;
    while i < b.len()
        invariant
            i <= b@.len(),
            out@ == upper_all(b@.subrange(0, i as int)),
        decreases b@.len() - i,
    {
        let x = b[i];
        let u = if 0x61 <= x && x <= 0x7a {
            x - 0x20
        } else {
            x
        };
        out.push(u);
        i = i + 1;
        assert(out@ =~= upper_all(b@.subrange(0, i as int)));
    }
    assert(b@.subrange(0, b@.len() as int) =~= b@);
    out
}

impl Catalog {
    /// The pairs of the full-text index: each table's code text under the
    /// table's position, ordered by key, the first table winning among equal
    /// codes.
    pub fn index_pairs(&self) -> (r: Vec<(Vec<u8>, u64)>)
        requires
            self.tables@.len() <= u64::MAX,
        ensures
            pairs_bytes_view(r@) == index_pairs_spec(self@.tables, self@.tables.len() as int),
            strictly_ascending(pairs_bytes_view(r@)),
    {
        let ghost ts = self@.tables;
        let mut out: Vec<(Vec<u8>, u64)> = Vec::new();
        let mut i: usize = 0;
        while i < self.tables.len()
            invariant
                i <= self.tables@.len(),
                self.tables@.len() <= u64::MAX,
                ts == self@.tables,
                pairs_bytes_view(out@) == index_pairs_spec(ts, i as int),
                strictly_ascending(pairs_bytes_view(out@)),
            decreases self.tables@.len() - i,
        {
            let key_text = format_table_code(&self.tables[i].code);
            let key = slice_to_vec(key_text.as_str().as_bytes());
            let ghost x = (key@, i as u64);
            let ghost before = pairs_bytes_view(out@);
            assert(x.0 == table_key(ts[i as int]));
            let mut p: usize = 0;
            while p < out.len() && matches!(
                compare_bytes(out[p].0.as_slice(), key.as_slice()),
                Ordering::Less
            )
                invariant
                    p <= out@.len(),
                    before == pairs_bytes_view(out@),
                    x == (key@, i as u64),
                    forall|j: int| 0 <= j < p ==> cmp_bytes(#[trigger] before[j].0, x.0)
                        == Ordering::Less,
                decreases out@.len() - p,
            {
                assert(before[p as int] == (out@[p as int].0@, out@[p as int].1));
                p = p + 1;
            }
            proof {
                if p < out@.len() {
                    assert(before[p as int] == (out@[p as int].0@, out@[p as int].1));
                }
                lemma_insert_key_at(before, x, p as int);
            }
            let dup = p < out.len() && matches!(
                compare_bytes(out[p].0.as_slice(), key.as_slice()),
                Ordering::Equal
            );
            if !dup {
                out.insert(p, (key, i as u64));
                assert(pairs_bytes_view(out@) =~= before.insert(p as int, x));
            }
            i = i + 1;
        }
        out
    }

    /// Builds the full-text index of the catalog.
    pub fn build_search(&self) -> (r: Result<Search, IndexError>)
        requires
            self.tables@.len() <= u64::MAX,
        ensures
            r matches Ok(s) ==> s.contents() == crate::index::entries_map(
                index_pairs_spec(self@.tables, self@.tables.len() as int),
            ),
            r is Ok,
    {
        let pairs = self.index_pairs();
        build_index(&pairs)
    }

    /// The table whose code text is `text`, letters taken as upper case, as
    /// the index finds it; none when the index has no such key or points past
    /// the catalog.
    pub fn fulltext_search(&self, search: &Search, text: &str) -> (r: Vec<TableRecord>)
        ensures
            ({
                let key = upper_all(encode_utf8(text@));
                let found = search.contents().dom().contains(key);
                let i = search.contents()[key];
                if found && i < self@.tables.len() {
                    tables_view(r@) == seq![self@.tables[i as int]]
                } else {
                    r@.len() == 0
                }
            }),
    {
        let key = upper_bytes(text.as_bytes());
        let mut out: Vec<TableRecord> = Vec::new();
        match search.get(key.as_slice()) {
            Some(i) => {
                if i < self.tables.len() as u64 {
                    out.push(self.tables[i as usize].duplicate());
                    assert(tables_view(out@) =~= seq![self@.tables[i as int]]);
                }
            },
            None => {},
        }
        out
    }
}

} // verus!
