//! Text renderings of query results.
use crate::catalog::EstimateYears;
use crate::codes::{
    cmp_table_code, estimate_name, prefix_char, var_type_char, Estimate, TableRecord,
    TableRecordView, VariableRecord, VariableRecordView, VariableType,
};
use crate::grammar::{
    format_table_code, format_variable_code, table_code_text, variable_code_text,
};
use crate::text::{debug_quoted, debug_text, is_white_space, upper_char, upper_of, white_space};
use crate::versions::{get_table_versions, TableVersion, TableVersionView};
use std::cmp::Ordering;
use vstd::prelude::*;
use vstd::string::*;

verus! {

/// The first year of the survey's published tables.
pub const FIRST_YEAR: u32 = 2009;

pub open spec fn digit_char(d: nat) -> char {
    if d == 0 {
        '0'
    } else if d == 1 {
        '1'
    } else if d == 2 {
        '2'
    } else if d == 3 {
        '3'
    } else if d == 4 {
        '4'
    } else if d == 5 {
        '5'
    } else if d == 6 {
        '6'
    } else if d == 7 {
        '7'
    } else if d == 8 {
        '8'
    } else {
        '9'
    }
}

/// The decimal digits of a number, without leading zeros.
pub open spec fn decimal(n: nat) -> Seq<char>
    decreases n,
{
    if n < 10 {
        seq![digit_char(n)]
    } else {
        decimal(n / 10) + seq![digit_char(n % 10)]
    }
}

/// Relies on `ToString` for `u32`: its decimal digits.
#[verifier::external_body]
fn u32_text(n: u32) -> (r: String)
    ensures
        r@ == decimal(n as nat),
{
    n.to_string()
}

/// `{code} | {label}\n`
pub open spec fn table_name_text(t: TableRecordView) -> Seq<char> {
    table_code_text(t.code) + seq![' ', '|', ' '] + t.label + seq!['\n']
}

/// A table's code and label on one line.
pub fn format_table_name(record: &TableRecord) -> (r: String)
    ensures
        r@ == table_name_text(record@),
{
    let mut out = format_table_code(&record.code);
    proof {
        reveal_strlit(" | ");
        reveal_strlit("\n");
    }
    out.append(" | ");
    out.append(record.label.as_str());
    out.append("\n");
    assert(out@ =~= table_name_text(record@));
    out
}

// ---------------------------------------------------------------------------
// Table lists
pub open spec fn insert_by_table_code(s: Seq<TableRecordView>, x: TableRecordView) -> Seq<
    TableRecordView,
>
    decreases s.len(),
{
    if s.len() == 0 {
        seq![x]
    } else if cmp_table_code(s[0].code, x.code) == Ordering::Greater {
        seq![x] + s
    } else {
        seq![s[0]] + insert_by_table_code(s.drop_first(), x)
    }
}

/// The records in code order; records with equal codes keep their order.
pub open spec fn sort_by_table_code(s: Seq<TableRecordView>) -> Seq<TableRecordView>
    decreases s.len(),
{
    if s.len() == 0 {
        s
    } else {
        insert_by_table_code(sort_by_table_code(s.drop_last()), s.last())
    }
}

pub open spec fn table_records_view(v: Seq<TableRecord>) -> Seq<TableRecordView> {
    v.map_values(|t: TableRecord| t@)
}

proof fn lemma_insert_table_at(s: Seq<TableRecordView>, x: TableRecordView, p: int)
    requires
        0 <= p <= s.len(),
        forall|j: int| 0 <= j < p ==> cmp_table_code(#[trigger] s[j].code, x.code)
            != Ordering::Greater,
        p < s.len() ==> cmp_table_code(s[p].code, x.code) == Ordering::Greater,
    ensures
        insert_by_table_code(s, x) == s.insert(p, x),
    decreases p,
{
    if p == 0 {
        assert(s.insert(0, x) =~= seq![x] + s);
    } else {
        let t = s.drop_first();
        assert forall|j: int| 0 <= j < p - 1 implies cmp_table_code(#[trigger] t[j].code, x.code)
            != Ordering::Greater by {
            assert(t[j] == s[j + 1]);
        }
        lemma_insert_table_at(t, x, p - 1);
        assert(s.insert(p, x) =~= seq![s[0]] + t.insert(p - 1, x));
    }
}

/// Sorts table records by code, keeping the order of equal codes.
pub fn sort_table_records(records: &Vec<TableRecord>) -> (r: Vec<TableRecord>)
    ensures
        table_records_view(r@) == sort_by_table_code(table_records_view(records@)),
{
    let mut out: Vec<TableRecord> = Vec::new();
    let mut i: usize = 0;
    while i < records.len()
        invariant
            i <= records@.len(),
            table_records_view(out@) == sort_by_table_code(
                table_records_view(records@).subrange(0, i as int),
            ),
        decreases records@.len() - i,
    {
        let x = records[i].duplicate();
        let mut p: usize = 0;
        while p < out.len() && !matches!(out[p].code.compare(&x.code), Ordering::Greater)
            invariant
                p <= out@.len(),
                forall|j: int| 0 <= j < p ==> cmp_table_code(#[trigger] out@[j]@.code, x@.code)
                    != Ordering::Greater,
            decreases out@.len() - p,
        {
            p = p + 1;
        }
        let ghost before = table_records_view(out@);
        proof {
            assert forall|j: int| 0 <= j < p implies cmp_table_code(
                #[trigger] before[j].code,
                x@.code,
            ) != Ordering::Greater by {
                assert(before[j] == out@[j]@);
            }
            lemma_insert_table_at(before, x@, p as int);
            let pre = table_records_view(records@).subrange(0, i as int + 1);
            assert(pre.drop_last() =~= table_records_view(records@).subrange(0, i as int));
        }
        out.insert(p, x);
        assert(table_records_view(out@) =~= before.insert(p as int, x@));
        i = i + 1;
    }
    assert(table_records_view(records@).subrange(0, records@.len() as int) =~= table_records_view(
        records@,
    ));
    out
}

pub open spec fn table_list_header() -> Seq<char> {
    seq!['c', 'o', 'd', 'e', ' ', ' ', ' ', ' ', ' ', ' ', '|', ' ', 'l', 'a', 'b', 'e', 'l', '\n']
        + Seq::new(10, |i: int| '=') + seq!['|'] + Seq::new(20, |i: int| '=') + seq!['\n']
}

/// Each record's line followed by an empty line.
pub open spec fn table_lines(s: Seq<TableRecordView>) -> Seq<char>
    decreases s.len(),
{
    if s.len() == 0 {
        Seq::empty()
    } else {
        table_lines(s.drop_last()) + table_name_text(s.last()) + seq!['\n']
    }
}

/// A header, then the tables in code order.
pub fn format_table_records(records: Vec<TableRecord>) -> (r: String)
    ensures
        r@ == table_list_header() + table_lines(sort_by_table_code(table_records_view(records@))),
{
    let sorted = sort_table_records(&records);
    proof {
        reveal_strlit("code      | label\n==========|====================\n");
        reveal_strlit("\n");
    }
    let mut out = String::from_str("code      | label\n==========|====================\n");
    assert(out@ =~= table_list_header());
    let ghost sv = table_records_view(sorted@);
    let mut i: usize = 0;
    while i < sorted.len()
        invariant
            i <= sorted@.len(),
            sv == table_records_view(sorted@),
            out@ == table_list_header() + table_lines(sv.subrange(0, i as int)),
        decreases sorted@.len() - i,
    {
        let line = format_table_name(&sorted[i]);
        proof {
            reveal_strlit("\n");
        }
        out.append(line.as_str());
        out.append("\n");
        proof {
            let pre = sv.subrange(0, i as int + 1);
            assert(pre.drop_last() =~= sv.subrange(0, i as int));
            assert(pre.last() == sorted@[i as int]@);
        }
        i = i + 1;
        assert(out@ =~= table_list_header() + table_lines(sv.subrange(0, i as int)));
    }
    assert(sv.subrange(0, sv.len() as int) =~= sv);
    out
}

// ---------------------------------------------------------------------------
// Describing a table
/// `{variable code} {label}\n` for each record.
pub open spec fn raw_lines(s: Seq<VariableRecordView>) -> Seq<char>
    decreases s.len(),
{
    if s.len() == 0 {
        Seq::empty()
    } else {
        raw_lines(s.drop_last()) + variable_code_text(s.last().code) + seq![' '] + s.last().label
            + seq!['\n']
    }
}

/// Each version's lines, followed by an empty line.
pub open spec fn raw_versions(vs: Seq<TableVersionView>) -> Seq<char>
    decreases vs.len(),
{
    if vs.len() == 0 {
        Seq::empty()
    } else {
        raw_versions(vs.drop_last()) + raw_lines(vs.last().records) + seq!['\n']
    }
}

fn raw_version_text(v: &TableVersion) -> (r: String)
    ensures
        r@ == raw_lines(v@.records),
{
    let ghost rs = v@.records;
    let mut out = String::new();
    let mut i: usize = 0;
    proof {
        reveal_strlit(" ");
        reveal_strlit("\n");
    }
    while i < v.records.len()
        invariant
            i <= v.records@.len(),
            rs == v@.records,
            out@ == raw_lines(rs.subrange(0, i as int)),
        decreases v.records@.len() - i,
    {
        let rec = &v.records[i];
        proof {
            reveal_strlit(" ");
            reveal_strlit("\n");
        }
        let code = format_variable_code(&rec.code);
        out.append(code.as_str());
        out.append(" ");
        out.append(rec.label.as_str());
        out.append("\n");
        proof {
            let pre = rs.subrange(0, i as int + 1);
            assert(pre.drop_last() =~= rs.subrange(0, i as int));
            assert(pre.last() == rec@);
        }
        i = i + 1;
        assert(out@ =~= raw_lines(rs.subrange(0, i as int)));
    }
    assert(rs.subrange(0, rs.len() as int) =~= rs);
    out
}

pub open spec fn versions_view(v: Seq<TableVersion>) -> Seq<TableVersionView> {
    v.map_values(|t: TableVersion| t@)
}

/// Renders versions, each as its records' lines and an empty line.
pub fn format_versions_raw(versions: &Vec<TableVersion>) -> (r: String)
    ensures
        r@ == raw_versions(versions_view(versions@)),
{
    let ghost vs = versions_view(versions@);
    let mut out = String::new();
    proof {
        reveal_strlit("\n");
    }
    let mut i: usize = 0;
    while i < versions.len()
        invariant
            i <= versions@.len(),
            vs == versions_view(versions@),
            out@ == raw_versions(vs.subrange(0, i as int)),
        decreases versions@.len() - i,
    {
        proof {
            reveal_strlit("\n");
        }
        let text = raw_version_text(&versions[i]);
        out.append(text.as_str());
        out.append("\n");
        proof {
            let pre = vs.subrange(0, i as int + 1);
            assert(pre.drop_last() =~= vs.subrange(0, i as int));
        }
        i = i + 1;
        assert(out@ =~= raw_versions(vs.subrange(0, i as int)));
    }
    assert(vs.subrange(0, vs.len() as int) =~= vs);
    out
}

/// A table's variables as they were published, one block per version over
/// the years from the first survey year to `year`; empty when `year` is
/// before the first survey year.
pub fn format_describe_table_raw(year: u32, records: Vec<VariableRecord>) -> (r: String)
    ensures
        year < FIRST_YEAR ==> r@.len() == 0,
        year >= FIRST_YEAR ==> exists|vs: Seq<TableVersion>|
            #![trigger versions_view(vs)]
            r@ == raw_versions(versions_view(vs)) && versions_view(vs) == crate::versions::versions_of(
                crate::versions::sort_by_code(crate::versions::records_view(records@)),
                crate::versions::sort_by_code(crate::versions::records_view(records@)).map_values(
                    |x: VariableRecordView| crate::text::lower_of(x.label),
                ),
                FIRST_YEAR,
                year,
            ),
{
    if year < FIRST_YEAR {
        return String::new();
    }
    let ghost rv = records@;
    let versions = get_table_versions(records, FIRST_YEAR, year);
    let out = format_versions_raw(&versions);
    proof {
        assert(versions_view(versions@) =~= versions@.map_values(|v: TableVersion| v@));
    }
    out
}

// ---------------------------------------------------------------------------
// Estimate years
/// `y1, y2, ...`
pub open spec fn years_text(ys: Seq<u32>) -> Seq<char>
    decreases ys.len(),
{
    if ys.len() == 0 {
        Seq::empty()
    } else if ys.len() == 1 {
        decimal(ys[0] as nat)
    } else {
        years_text(ys.drop_last()) + seq![',', ' '] + decimal(ys.last() as nat)
    }
}

/// `{estimate name}: [y1, y2, ...]\n` for each estimate.
pub open spec fn est_years_text(es: Seq<(Estimate, Seq<u32>)>) -> Seq<char>
    decreases es.len(),
{
    if es.len() == 0 {
        Seq::empty()
    } else {
        est_years_text(es.drop_last()) + estimate_name(es.last().0) + seq![':', ' ', '['] + years_text(
            es.last().1,
        ) + seq![']', '\n']
    }
}

fn years_list(ys: &Vec<u32>) -> (r: String)
    ensures
        r@ == years_text(ys@),
{
    let mut out = String::new();
    let mut i: usize = 0;
    proof {
        reveal_strlit(", ");
    }
    while i < ys.len()
        invariant
            i <= ys@.len(),
            out@ == years_text(ys@.subrange(0, i as int)),
        decreases ys@.len() - i,
    {
        proof {
            let pre = ys@.subrange(0, i as int + 1);
            assert(pre.drop_last() =~= ys@.subrange(0, i as int));
        }
        proof {
            reveal_strlit(", ");
        }
        if i > 0 {
            out.append(", ");
        }
        let t = u32_text(ys[i]);
        out.append(t.as_str());
        i = i + 1;
        assert(out@ =~= years_text(ys@.subrange(0, i as int)));
    }
    assert(ys@.subrange(0, ys@.len() as int) =~= ys@);
    out
}

/// Each estimate's name and its years, one per line.
pub fn format_est_years(est_years: &Vec<EstimateYears>) -> (r: String)
    ensures
        r@ == est_years_text(est_years@.map_values(|e: EstimateYears| (e.estimate, e.years@))),
{
    let ghost es = est_years@.map_values(|e: EstimateYears| (e.estimate, e.years@));
    let mut out = String::new();
    let mut i: usize = 0;
    proof {
        reveal_strlit(": [");
        reveal_strlit("]\n");
        reveal_strlit("ACS 1-year estimate");
        reveal_strlit("ACS 5-year estimate");
    }
    while i < est_years.len()
        invariant
            i <= est_years@.len(),
            es == est_years@.map_values(|e: EstimateYears| (e.estimate, e.years@)),
            out@ == est_years_text(es.subrange(0, i as int)),
        decreases est_years@.len() - i,
    {
        let e = &est_years[i];
        proof {
            reveal_strlit(": [");
            reveal_strlit("]\n");
        }
        let name = e.estimate.display_name();
        assert(name@ == estimate_name(e.estimate));
        out.append(name);
        out.append(": [");
        let ys = years_list(&e.years);
        out.append(ys.as_str());
        out.append("]\n");
        proof {
            let pre = es.subrange(0, i as int + 1);
            assert(pre.drop_last() =~= es.subrange(0, i as int));
        }
        i = i + 1;
        assert(out@ =~= est_years_text(es.subrange(0, i as int)));
    }
    assert(es.subrange(0, es.len() as int) =~= es);
    out
}

// ---------------------------------------------------------------------------
// Labels
/// A `:!!` starts at `i`: the separator between the levels of a label.
pub open spec fn sep_at(s: Seq<char>, i: int) -> bool {
    0 <= i && i + 3 <= s.len() && s[i] == ':' && s[i + 1] == '!' && s[i + 2] == '!'
}

/// How many separators start before `n`.
pub open spec fn count_seps(s: Seq<char>, n: int) -> nat
    decreases n,
{
    if n <= 0 {
        0
    } else {
        count_seps(s, n - 1) + if sep_at(s, n - 1) {
            1nat
        } else {
            0nat
        }
    }
}

/// Where the last separator that starts before `n` ends; 0 when there is none.
pub open spec fn last_sep_end(s: Seq<char>, n: int) -> int
    decreases n,
{
    if n <= 0 {
        0
    } else if sep_at(s, n - 1) {
        n + 2
    } else {
        last_sep_end(s, n - 1)
    }
}

/// The text without its trailing colons.
pub open spec fn trim_colons(s: Seq<char>) -> Seq<char>
    decreases s.len(),
{
    if s.len() > 0 && s.last() == ':' {
        trim_colons(s.drop_last())
    } else {
        s
    }
}

pub open spec fn repeat_text(t: Seq<char>, k: nat) -> Seq<char>
    decreases k,
{
    if k == 0 {
        Seq::empty()
    } else {
        repeat_text(t, (k - 1) as nat) + t
    }
}

pub open spec fn indent() -> Seq<char> {
    seq![' ', ' ', ' ', ' ']
}

/// The text padded with spaces to at least five characters.
pub open spec fn pad5(s: Seq<char>) -> Seq<char> {
    if s.len() >= 5 {
        s
    } else {
        s + Seq::new((5 - s.len()) as nat, |i: int| ' ')
    }
}

/// The last level of a label, indented by its depth, trailing colons dropped.
pub open spec fn leveled_label(l: Seq<char>) -> Seq<char> {
    repeat_text(indent(), count_seps(l, l.len() as int)) + trim_colons(
        l.subrange(last_sep_end(l, l.len() as int), l.len() as int),
    )
}

proof fn lemma_last_sep_end_bound(s: Seq<char>, n: int)
    requires
        0 <= n <= s.len(),
    ensures
        0 <= last_sep_end(s, n) <= s.len(),
    decreases n,
{
    if n > 0 {
        lemma_last_sep_end_bound(s, n - 1);
    }
}

fn is_sep_at(s: &str, i: usize) -> (r: bool)
    requires
        i <= s@.len(),
    ensures
        r == sep_at(s@, i as int),
{
    let n = s.unicode_len();
    if n < 3 || i > n - 3 {
        return false;
    }
    s.get_char(i) == ':' && s.get_char(i + 1) == '!' && s.get_char(i + 2) == '!'
}

fn leveled(label: &str) -> (r: String)
    ensures
        r@ == leveled_label(label@),
{
    let n = label.unicode_len();
    let mut count: usize = 0;
    let mut last: usize = 0;
    let mut i: usize = 0;
    while i < n
        invariant
            n == label@.len(),
            i <= n,
            count as nat == count_seps(label@, i as int),
            last as int == last_sep_end(label@, i as int),
            count <= i,
            last <= i + 2,
        decreases n - i,
    {
        if is_sep_at(label, i) {
            count = count + 1;
            last = i + 3;
        }
        i = i + 1;
    }
    proof {
        lemma_last_sep_end_bound(label@, n as int);
    }
    let mut end: usize = n;
    let ghost tail = label@.subrange(last as int, n as int);
    while end > last && label.get_char(end - 1) == ':'
        invariant
            last <= end <= n,
            n == label@.len(),
            tail == label@.subrange(last as int, n as int),
            trim_colons(tail) == trim_colons(label@.subrange(last as int, end as int)),
        decreases end,
    {
        proof {
            let t = label@.subrange(last as int, end as int);
            assert(t.drop_last() =~= label@.subrange(last as int, end as int - 1));
        }
        end = end - 1;
    }
    proof {
        let t = label@.subrange(last as int, end as int);
        if t.len() > 0 {
            assert(t.last() == label@[end as int - 1]);
        }
        reveal_strlit("    ");
    }
    let mut out = String::new();
    let mut k: usize = 0;
    while k < count
        invariant
            k <= count,
            out@ == repeat_text(indent(), k as nat),
        decreases count - k,
    {
        out.append("    ");
        k = k + 1;
        proof {
            reveal_strlit("    ");
        }
        assert(out@ =~= repeat_text(indent(), k as nat));
    }
    out.append(label.substring_char(last, end));
    assert(out@ =~= leveled_label(label@));
    out
}

/// The text padded with spaces to at least five characters.
fn padded(s: &str) -> (r: String)
    ensures
        r@ == pad5(s@),
{
    let mut out = String::from_str(s);
    let mut n = s.unicode_len();
    proof {
        reveal_strlit(" ");
    }
    if n >= 5 {
        return out;
    }
    while n < 5
        invariant
            s@.len() <= n <= 5,
            out@ == s@ + Seq::new((n - s@.len()) as nat, |i: int| ' '),
        decreases 5 - n,
    {
        out.append(" ");
        n = n + 1;
        proof {
            reveal_strlit(" ");
        }
        assert(out@ =~= s@ + Seq::new((n - s@.len()) as nat, |i: int| ' '));
    }
    out
}

// ---------------------------------------------------------------------------
// Pretty description
pub open spec fn pretty_header() -> Seq<char> {
    seq!['\n', 'c', 'o', 'd', 'e', ' ', '|', ' ', 'l', 'a', 'b', 'e', 'l', '\n'] + Seq::new(
        5,
        |i: int| '=',
    ) + seq!['|'] + Seq::new(36, |i: int| '=') + seq!['\n']
}

/// The lines of the value records: padded column id, `| `, leveled label.
pub open spec fn pretty_lines(s: Seq<VariableRecordView>) -> Seq<char>
    decreases s.len(),
{
    if s.len() == 0 {
        Seq::empty()
    } else {
        let r = s.last();
        pretty_lines(s.drop_last()) + if r.code.var_type == VariableType::Value {
            pad5(r.code.column_id) + seq!['|', ' '] + leveled_label(r.label) + seq!['\n']
        } else {
            Seq::empty()
        }
    }
}

/// `Years: {min}-{max}\n`, then the version's lines.
pub open spec fn pretty_versions(vs: Seq<TableVersionView>) -> Seq<char>
    decreases vs.len(),
{
    if vs.len() == 0 {
        Seq::empty()
    } else {
        let v = vs.last();
        pretty_versions(vs.drop_last()) + seq!['Y', 'e', 'a', 'r', 's', ':', ' '] + decimal(
            v.min_year as nat,
        ) + seq!['-'] + decimal(v.max_year as nat) + seq!['\n'] + pretty_lines(v.records)
    }
}

fn pretty_version_text(v: &TableVersion) -> (r: String)
    ensures
        r@ == pretty_lines(v@.records),
{
    let ghost rs = v@.records;
    let mut out = String::new();
    let mut i: usize = 0;
    while i < v.records.len()
        invariant
            i <= v.records@.len(),
            rs == v@.records,
            out@ == pretty_lines(rs.subrange(0, i as int)),
        decreases v.records@.len() - i,
    {
        let rec = &v.records[i];
        proof {
            reveal_strlit("| ");
            reveal_strlit("\n");
            let pre = rs.subrange(0, i as int + 1);
            assert(pre.drop_last() =~= rs.subrange(0, i as int));
            assert(pre.last() == rec@);
        }
        if rec.code.var_type == VariableType::Value {
            let col = padded(rec.code.column_id.as_str());
            let text = leveled(rec.label.as_str());
            out.append(col.as_str());
            out.append("| ");
            out.append(text.as_str());
            out.append("\n");
        }
        i = i + 1;
        assert(out@ =~= pretty_lines(rs.subrange(0, i as int)));
    }
    assert(rs.subrange(0, rs.len() as int) =~= rs);
    out
}

/// Renders versions for reading: each one's years, then its value records
/// with their labels indented by level.
pub fn format_versions_pretty(versions: &Vec<TableVersion>) -> (r: String)
    ensures
        r@ == pretty_header() + pretty_versions(versions_view(versions@)),
{
    let ghost vs = versions_view(versions@);
    proof {
        reveal_strlit("\ncode | label\n=====|====================================\n");
    }
    let mut out = String::from_str("\ncode | label\n=====|====================================\n");
    assert(out@ =~= pretty_header());
    let mut i: usize = 0;
    while i < versions.len()
        invariant
            i <= versions@.len(),
            vs == versions_view(versions@),
            out@ == pretty_header() + pretty_versions(vs.subrange(0, i as int)),
        decreases versions@.len() - i,
    {
        let v = &versions[i];
        proof {
            reveal_strlit("Years: ");
            reveal_strlit("-");
            reveal_strlit("\n");
            let pre = vs.subrange(0, i as int + 1);
            assert(pre.drop_last() =~= vs.subrange(0, i as int));
            assert(pre.last() == v@);
        }
        out.append("Years: ");
        let lo = u32_text(v.min_year);
        out.append(lo.as_str());
        out.append("-");
        let hi = u32_text(v.max_year);
        out.append(hi.as_str());
        out.append("\n");
        let body = pretty_version_text(v);
        out.append(body.as_str());
        i = i + 1;
        assert(out@ =~= pretty_header() + pretty_versions(vs.subrange(0, i as int)));
    }
    assert(vs.subrange(0, vs.len() as int) =~= vs);
    out
}

/// A table's variables for reading, one block per version over the years
/// from the first survey year to `year`; only the header when `year` is
/// before the first survey year.
pub fn format_describe_table_pretty(year: u32, records: Vec<VariableRecord>) -> (r: String)
    ensures
        year < FIRST_YEAR ==> r@ == pretty_header(),
        year >= FIRST_YEAR ==> exists|vs: Seq<TableVersion>|
            #![trigger versions_view(vs)]
            r@ == pretty_header() + pretty_versions(versions_view(vs)) && versions_view(vs)
                == crate::versions::versions_of(
                crate::versions::sort_by_code(crate::versions::records_view(records@)),
                crate::versions::sort_by_code(crate::versions::records_view(records@)).map_values(
                    |x: VariableRecordView| crate::text::lower_of(x.label),
                ),
                FIRST_YEAR,
                year,
            ),
{
    if year < FIRST_YEAR {
        let empty: Vec<TableVersion> = Vec::new();
        let out = format_versions_pretty(&empty);
        assert(versions_view(empty@) =~= Seq::<TableVersionView>::empty());
        return out;
    }
    let versions = get_table_versions(records, FIRST_YEAR, year);
    let out = format_versions_pretty(&versions);
    proof {
        assert(versions_view(versions@) =~= versions@.map_values(|v: TableVersion| v@));
    }
    out
}

// ---------------------------------------------------------------------------
// ETL configuration
/// Each `:!!` replaced by `_`, from the left.
pub open spec fn replace_seps(s: Seq<char>) -> Seq<char>
    decreases s.len(),
{
    if s.len() == 0 {
        s
    } else if sep_at(s, 0) {
        seq!['_'] + replace_seps(s.subrange(3, s.len() as int))
    } else {
        seq![s[0]] + replace_seps(s.drop_first())
    }
}

/// The text without apostrophes.
pub open spec fn drop_apostrophes(s: Seq<char>) -> Seq<char>
    decreases s.len(),
{
    if s.len() == 0 {
        s
    } else if s[0] == '\'' {
        drop_apostrophes(s.drop_first())
    } else {
        seq![s[0]] + drop_apostrophes(s.drop_first())
    }
}

/// The words of `s` (split at white space) joined, each word's first
/// character upper-cased; `start` says that a word begins here.
pub open spec fn camel(s: Seq<char>, start: bool) -> Seq<char>
    decreases s.len(),
{
    if s.len() == 0 {
        s
    } else if white_space(s[0]) {
        camel(s.drop_first(), true)
    } else if start {
        upper_of(s[0]) + camel(s.drop_first(), false)
    } else {
        seq![s[0]] + camel(s.drop_first(), false)
    }
}

fn replaced_seps(s: &str) -> (r: String)
    ensures
        r@ == replace_seps(s@),
{
    let n = s.unicode_len();
    let mut out = String::new();
    let mut i: usize = 0;
    proof {
        reveal_strlit("_");
        assert(s@.subrange(0, n as int) =~= s@);
    }
    while i < n
        invariant
            n == s@.len(),
            i <= n,
            out@ + replace_seps(s@.subrange(i as int, n as int)) == replace_seps(s@),
        decreases n - i,
    {
        let ghost t = s@.subrange(i as int, n as int);
        if is_sep_at(s, i) {
            proof {
                reveal_strlit("_");
                assert(sep_at(t, 0));
                assert(t.subrange(3, t.len() as int) =~= s@.subrange(i as int + 3, n as int));
            }
            out.append("_");
            i = i + 3;
            assert(out@ + replace_seps(s@.subrange(i as int, n as int)) =~= replace_seps(s@));
        } else {
            proof {
                assert(!sep_at(t, 0));
                assert(t.drop_first() =~= s@.subrange(i as int + 1, n as int));
            }
            out.append(s.substring_char(i, i + 1));
            i = i + 1;
            assert(out@ + replace_seps(s@.subrange(i as int, n as int)) =~= replace_seps(s@));
        }
    }
    assert(out@ =~= out@ + replace_seps(s@.subrange(n as int, n as int)));
    out
}

fn without_apostrophes(s: &str) -> (r: String)
    ensures
        r@ == drop_apostrophes(s@),
{
    let n = s.unicode_len();
    let mut out = String::new();
    let mut i: usize = 0;
    proof {
        assert(s@.subrange(0, n as int) =~= s@);
    }
    while i < n
        invariant
            n == s@.len(),
            i <= n,
            out@ + drop_apostrophes(s@.subrange(i as int, n as int)) == drop_apostrophes(s@),
        decreases n - i,
    {
        let ghost t = s@.subrange(i as int, n as int);
        proof {
            assert(t.drop_first() =~= s@.subrange(i as int + 1, n as int));
        }
        if s.get_char(i) != '\'' {
            out.append(s.substring_char(i, i + 1));
        }
        i = i + 1;
        assert(out@ + drop_apostrophes(s@.subrange(i as int, n as int)) =~= drop_apostrophes(s@));
    }
    assert(out@ =~= out@ + drop_apostrophes(s@.subrange(n as int, n as int)));
    out
}

/// The words of `s`, split at white space, joined with the first character
/// of each upper-cased.
pub fn to_camelcase(s: &str) -> (r: String)
    ensures
        r@ == camel(s@, true),
{
    let n = s.unicode_len();
    let mut out = String::new();
    let mut start = true;
    let mut i: usize = 0;
    proof {
        assert(s@.subrange(0, n as int) =~= s@);
    }
    while i < n
        invariant
            n == s@.len(),
            i <= n,
            out@ + camel(s@.subrange(i as int, n as int), start) == camel(s@, true),
        decreases n - i,
    {
        let ghost t = s@.subrange(i as int, n as int);
        proof {
            assert(t.drop_first() =~= s@.subrange(i as int + 1, n as int));
        }
        let c = s.get_char(i);
        if is_white_space(c) {
            start = true;
        } else if start {
            let u = upper_char(c);
            out.append(u.as_str());
            start = false;
        } else {
            out.append(s.substring_char(i, i + 1));
        }
        i = i + 1;
        assert(out@ + camel(s@.subrange(i as int, n as int), start) =~= camel(s@, true));
    }
    assert(out@ =~= out@ + camel(s@.subrange(n as int, n as int), start));
    out
}

pub open spec fn ends_with_colon(l: Seq<char>) -> bool {
    l.len() > 0 && l.last() == ':'
}

/// A version's records as the configuration lists them: with exactly two
/// records, the second one's trailing colons dropped.
pub open spec fn etl_records(rs: Seq<VariableRecordView>) -> Seq<VariableRecordView> {
    if rs.len() == 2 {
        rs.update(1, VariableRecordView { label: trim_colons(rs[1].label), ..rs[1] })
    } else {
        rs
    }
}

/// `        {column}{E|M}: {"CamelLabel"}\n` for each value record whose label
/// does not end with a colon.
pub open spec fn etl_columns(rs: Seq<VariableRecordView>) -> Seq<char>
    decreases rs.len(),
{
    if rs.len() == 0 {
        Seq::empty()
    } else {
        let r = rs.last();
        etl_columns(rs.drop_last()) + if !ends_with_colon(r.label) && r.code.var_type
            == VariableType::Value {
            indent() + indent() + r.code.column_id + seq![var_type_char(r.code.var_type)] + seq![
                ':',
                ' ',
            ] + debug_text(camel(drop_apostrophes(replace_seps(r.label)), true)) + seq!['\n']
        } else {
            Seq::empty()
        }
    }
}

pub open spec fn lit(s: &str) -> Seq<char> {
    s@
}

/// The head of one version's configuration.
pub open spec fn etl_head(table: Seq<char>, min_year: u32, max_year: u32) -> Seq<char> {
    lit("name: ") + debug_text(lit("TABLENAME")) + lit("\ntag: \"acs\"\nmin_year: ") + decimal(
        min_year as nat,
    ) + lit("\nmax_year: ") + decimal(max_year as nat) + lit("\nacs_table:\n    id: ")
        + debug_text(table) + lit("\n    value_label: ") + debug_text(lit("population")) + lit(
        "\n    dimension_labels: [\n        ",
    ) + debug_text(lit("DIMENSION")) + lit(",\n    ]\n    columns:\n")
}

/// One block per version that has records: its head, its columns, and an
/// empty line.
pub open spec fn etl_versions(vs: Seq<TableVersionView>) -> Seq<char>
    decreases vs.len(),
{
    if vs.len() == 0 {
        Seq::empty()
    } else {
        let v = vs.last();
        let rs = etl_records(v.records);
        etl_versions(vs.drop_last()) + if rs.len() == 0 {
            Seq::<char>::empty()
        } else {
            etl_head(
                seq![prefix_char(rs[0].code.table_code.prefix)] + rs[0].code.table_code.table_id,
                v.min_year,
                v.max_year,
            ) + etl_columns(rs) + seq!['\n']
        }
    }
}

fn trimmed_colons(s: &str) -> (r: String)
    ensures
        r@ == trim_colons(s@),
{
    let n = s.unicode_len();
    let mut end: usize = n;
    proof {
        assert(s@.subrange(0, n as int) =~= s@);
    }
    while end > 0 && s.get_char(end - 1) == ':'
        invariant
            end <= n,
            n == s@.len(),
            trim_colons(s@) == trim_colons(s@.subrange(0, end as int)),
        decreases end,
    {
        proof {
            let t = s@.subrange(0, end as int);
            assert(t.drop_last() =~= s@.subrange(0, end as int - 1));
        }
        end = end - 1;
    }
    proof {
        let t = s@.subrange(0, end as int);
        if t.len() > 0 {
            assert(t.last() == s@[end as int - 1]);
        }
    }
    String::from_str(s.substring_char(0, end))
}

fn etl_columns_text(rs: &Vec<VariableRecord>, second_label: &String) -> (r: String)
    requires
        rs@.len() == 2 ==> second_label@ == trim_colons(rs@[1].label@),
    ensures
        r@ == etl_columns(etl_records(crate::versions::records_view(rs@))),
{
    let ghost all = etl_records(crate::versions::records_view(rs@));
    let mut out = String::new();
    let mut i: usize = 0;
    while i < rs.len()
        invariant
            i <= rs@.len(),
            all == etl_records(crate::versions::records_view(rs@)),
            rs@.len() == 2 ==> second_label@ == trim_colons(rs@[1].label@),
            out@ == etl_columns(all.subrange(0, i as int)),
        decreases rs@.len() - i,
    {
        let rec = &rs[i];
        let label = if rs.len() == 2 && i == 1 {
            second_label
        } else {
            &rec.label
        };
        proof {
            reveal_strlit("        ");
            reveal_strlit(": ");
            reveal_strlit("\n");
            let pre = all.subrange(0, i as int + 1);
            assert(pre.drop_last() =~= all.subrange(0, i as int));
            assert(all[i as int].label == label@);
            assert(all[i as int].code == rec@.code);
        }
        let n = label.as_str().unicode_len();
        let colon = n > 0 && label.as_str().get_char(n - 1) == ':';
        if !colon && rec.code.var_type == VariableType::Value {
            out.append("        ");
            out.append(rec.code.column_id.as_str());
            let t = rec.code.var_type.to_string();
            out.append(t.as_str());
            out.append(": ");
            let cleaned = without_apostrophes(replaced_seps(label.as_str()).as_str());
            let camel_text = to_camelcase(cleaned.as_str());
            let quoted = debug_quoted(camel_text.as_str());
            out.append(quoted.as_str());
            out.append("\n");
        }
        i = i + 1;
        assert(out@ =~= etl_columns(all.subrange(0, i as int)));
    }
    assert(all.subrange(0, all.len() as int) =~= all);
    out
}

fn etl_head_text(table: &String, min_year: u32, max_year: u32) -> (r: String)
    ensures
        r@ == etl_head(table@, min_year, max_year),
{
    let mut out = String::from_str("name: ");
    out.append(debug_quoted("TABLENAME").as_str());
    out.append("\ntag: \"acs\"\nmin_year: ");
    out.append(u32_text(min_year).as_str());
    out.append("\nmax_year: ");
    out.append(u32_text(max_year).as_str());
    out.append("\nacs_table:\n    id: ");
    out.append(debug_quoted(table.as_str()).as_str());
    out.append("\n    value_label: ");
    out.append(debug_quoted("population").as_str());
    out.append("\n    dimension_labels: [\n        ");
    out.append(debug_quoted("DIMENSION").as_str());
    out.append(",\n    ]\n    columns:\n");
    assert(out@ =~= etl_head(table@, min_year, max_year));
    out
}

/// Renders versions as an ETL configuration: for each version that has
/// records, its years, its table id and one column per value record.
pub fn format_versions_etl(versions: &Vec<TableVersion>) -> (r: String)
    ensures
        r@ == etl_versions(versions_view(versions@)),
{
    let ghost vs = versions_view(versions@);
    let mut out = String::new();
    let mut i: usize = 0;
    while i < versions.len()
        invariant
            i <= versions@.len(),
            vs == versions_view(versions@),
            out@ == etl_versions(vs.subrange(0, i as int)),
        decreases versions@.len() - i,
    {
        let v = &versions[i];
        proof {
            reveal_strlit("\n");
            let pre = vs.subrange(0, i as int + 1);
            assert(pre.drop_last() =~= vs.subrange(0, i as int));
            assert(pre.last() == v@);
        }
        if v.records.len() > 0 {
            let first = &v.records[0];
            let mut table = first.code.table_code.prefix.to_string();
            table.append(first.code.table_code.table_id.as_str());
            let second = if v.records.len() == 2 {
                trimmed_colons(v.records[1].label.as_str())
            } else {
                String::new()
            };
            let head = etl_head_text(&table, v.min_year, v.max_year);
            out.append(head.as_str());
            let cols = etl_columns_text(&v.records, &second);
            out.append(cols.as_str());
            out.append("\n");
            proof {
                let rs = etl_records(v@.records);
                assert(rs[0].code == first@.code);
            }
        }
        i = i + 1;
        assert(out@ =~= etl_versions(vs.subrange(0, i as int)));
    }
    assert(vs.subrange(0, vs.len() as int) =~= vs);
    out
}

/// A table's variables as an ETL configuration, one block per version (with
/// records) over the years from the first survey year to `year`; empty when
/// `year` is before the first survey year.
pub fn format_etl_config(year: u32, records: Vec<VariableRecord>) -> (r: String)
    ensures
        year < FIRST_YEAR ==> r@.len() == 0,
        year >= FIRST_YEAR ==> exists|vs: Seq<TableVersion>|
            #![trigger versions_view(vs)]
            r@ == etl_versions(versions_view(vs)) && versions_view(vs)
                == crate::versions::versions_of(
                crate::versions::sort_by_code(crate::versions::records_view(records@)),
                crate::versions::sort_by_code(crate::versions::records_view(records@)).map_values(
                    |x: VariableRecordView| crate::text::lower_of(x.label),
                ),
                FIRST_YEAR,
                year,
            ),
{
    if year < FIRST_YEAR {
        return String::new();
    }
    let versions = get_table_versions(records, FIRST_YEAR, year);
    let out = format_versions_etl(&versions);
    proof {
        assert(versions_view(versions@) =~= versions@.map_values(|v: TableVersion| v@));
    }
    out
}

} // verus!
