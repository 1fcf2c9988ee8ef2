//! Table versions: the runs of years over which a table's variable layout
//! (the number of variables and their labels) stayed the same.
use crate::codes::{
    cmp_variable_code, Estimate, VariableRecord, VariableRecordView,
};
use crate::text::{lower_of, lowercase};
use std::cmp::Ordering;
use vstd::prelude::*;

verus! {

/// The records of one layout and the closed range of years it held for.
#[derive(Debug, Clone, PartialEq, Eq)]
pub struct TableVersion {
    pub records: Vec<VariableRecord>,
    pub min_year: u32,
    pub max_year: u32,
}

pub struct TableVersionView {
    pub records: Seq<VariableRecordView>,
    pub min_year: u32,
    pub max_year: u32,
}

pub open spec fn records_view(v: Seq<VariableRecord>) -> Seq<VariableRecordView> {
    v.map_values(|r: VariableRecord| r@)
}

pub open spec fn texts_view(v: Seq<String>) -> Seq<Seq<char>> {
    v.map_values(|s: String| s@)
}

impl View for TableVersion {
    type V = TableVersionView;

    open spec fn view(&self) -> TableVersionView {
        TableVersionView {
            records: records_view(self.records@),
            min_year: self.min_year,
            max_year: self.max_year,
        }
    }
}

// ---------------------------------------------------------------------------
// Sorting by code
/// Inserts `x` before the first element that sorts after it.
pub open spec fn insert_by_code(s: Seq<VariableRecordView>, x: VariableRecordView) -> Seq<
    VariableRecordView,
>
    decreases s.len(),
{
    if s.len() == 0 {
        seq![x]
    } else if cmp_variable_code(s[0].code, x.code) == Ordering::Greater {
        seq![x] + s
    } else {
        seq![s[0]] + insert_by_code(s.drop_first(), x)
    }
}

/// The records in code order; records with equal codes keep their order.
pub open spec fn sort_by_code(s: Seq<VariableRecordView>) -> Seq<VariableRecordView>
    decreases s.len(),
{
    if s.len() == 0 {
        s
    } else {
        insert_by_code(sort_by_code(s.drop_last()), s.last())
    }
}

proof fn lemma_insert_at(s: Seq<VariableRecordView>, x: VariableRecordView, p: int)
    requires
        0 <= p <= s.len(),
        forall|j: int| 0 <= j < p ==> cmp_variable_code(#[trigger] s[j].code, x.code)
            != Ordering::Greater,
        p < s.len() ==> cmp_variable_code(s[p].code, x.code) == Ordering::Greater,
    ensures
        insert_by_code(s, x) == s.insert(p, x),
    decreases p,
{
    if p == 0 {
        assert(s.insert(0, x) =~= seq![x] + s);
    } else {
        let t = s.drop_first();
        assert forall|j: int| 0 <= j < p - 1 implies cmp_variable_code(#[trigger] t[j].code, x.code)
            != Ordering::Greater by {
            assert(t[j] == s[j + 1]);
        }
        lemma_insert_at(t, x, p - 1);
        assert(s.insert(p, x) =~= seq![s[0]] + t.insert(p - 1, x));
    }
}

/// Sorts records by code, keeping the order of records with equal codes.
pub fn sort_records(records: &Vec<VariableRecord>) -> (r: Vec<VariableRecord>)
    ensures
        records_view(r@) == sort_by_code(records_view(records@)),
{
    let mut out: Vec<VariableRecord> = Vec::new();
    let mut i: usize = 0;
    while i < records.len()
        invariant
            i <= records@.len(),
            records_view(out@) == sort_by_code(records_view(records@).subrange(0, i as int)),
        decreases records@.len() - i,
    {
        let x = records[i].duplicate();
        let mut p: usize = 0;
        while p < out.len() && !matches!(out[p].code.compare(&x.code), Ordering::Greater)
            invariant
                p <= out@.len(),
                forall|j: int| 0 <= j < p ==> cmp_variable_code(#[trigger] out@[j]@.code, x@.code)
                    != Ordering::Greater,
            decreases out@.len() - p,
        {
            p = p + 1;
        }
        let ghost before = records_view(out@);
        proof {
            assert forall|j: int| 0 <= j < p implies cmp_variable_code(
                #[trigger] before[j].code,
                x@.code,
            ) != Ordering::Greater by {
                assert(before[j] == out@[j]@);
            }
            lemma_insert_at(before, x@, p as int);
            let pre = records_view(records@).subrange(0, i as int + 1);
            assert(pre.drop_last() =~= records_view(records@).subrange(0, i as int));
            assert(pre.last() == x@);
        }
        out.insert(p, x);
        assert(records_view(out@) =~= before.insert(p as int, x@));
        i = i + 1;
    }
    assert(records_view(records@).subrange(0, records@.len() as int) =~= records_view(records@));
    out
}

// ---------------------------------------------------------------------------
// Version detection
/// A version as positions into the sorted records.
pub struct VersionSpan {
    pub idx: Seq<usize>,
    pub min_year: u32,
    pub max_year: u32,
}

/// Positions, in order, of the records among the first `n` that belong to
/// `year` and `est`.
pub open spec fn select(recs: Seq<VariableRecordView>, n: int, year: u32, est: Estimate) -> Seq<
    usize,
>
    decreases n,
{
    if n <= 0 {
        Seq::empty()
    } else {
        let s = select(recs, n - 1, year, est);
        if recs[n - 1].year == year && recs[n - 1].estimate == est {
            s.push((n - 1) as usize)
        } else {
            s
        }
    }
}

/// Some pair of records at the same place in `a` and `b` has different
/// comparison keys.
pub open spec fn keys_differ(keys: Seq<Seq<char>>, a: Seq<usize>, b: Seq<usize>) -> bool {
    exists|i: int| 0 <= i < a.len() && i < b.len() && #[trigger] keys[a[i] as int] != keys[b[i] as int]
}

/// Takes one snapshot into account: the first one opens a version; a
/// non-empty one that differs from the open version in length or in some key
/// replaces it when it was opened this same year, and otherwise closes it the
/// year before and opens a new one; anything else changes nothing.
pub open spec fn step(
    vs: Seq<VersionSpan>,
    keys: Seq<Seq<char>>,
    cur: Seq<usize>,
    year: u32,
    last_year: u32,
) -> Seq<VersionSpan> {
    if vs.len() == 0 {
        seq![VersionSpan { idx: cur, min_year: year, max_year: last_year }]
    } else {
        let open = vs.last();
        if cur.len() != 0 && (cur.len() != open.idx.len() || keys_differ(keys, open.idx, cur)) {
            if open.min_year == year {
                vs.update(vs.len() - 1, VersionSpan { idx: cur, min_year: year, max_year: last_year })
            } else {
                vs.update(
                vs.len() - 1,
                    VersionSpan { idx: open.idx, min_year: open.min_year, max_year: (year - 1) as u32 },
                ).push(VersionSpan { idx: cur, min_year: year, max_year: last_year })
            }
        } else {
            vs
        }
    }
}

/// One year: the five-year snapshot, then the one-year snapshot.
pub open spec fn year_step(
    vs: Seq<VersionSpan>,
    recs: Seq<VariableRecordView>,
    keys: Seq<Seq<char>>,
    year: u32,
    last_year: u32,
) -> Seq<VersionSpan> {
    let a = step(vs, keys, select(recs, recs.len() as int, year, Estimate::FiveYear), year, last_year);
    step(a, keys, select(recs, recs.len() as int, year, Estimate::OneYear), year, last_year)
}

/// The versions after the first `n` years from `first_year`.
pub open spec fn spans_through(
    recs: Seq<VariableRecordView>,
    keys: Seq<Seq<char>>,
    first_year: u32,
    n: nat,
    last_year: u32,
) -> Seq<VersionSpan>
    decreases n,
{
    if n == 0 {
        Seq::empty()
    } else {
        year_step(
            spans_through(recs, keys, first_year, (n - 1) as nat, last_year),
            recs,
            keys,
            (first_year + n - 1) as u32,
            last_year,
        )
    }
}

/// The versions over the closed range of years `[first_year, last_year]`.
pub open spec fn version_spans(
    recs: Seq<VariableRecordView>,
    keys: Seq<Seq<char>>,
    first_year: u32,
    last_year: u32,
) -> Seq<VersionSpan> {
    spans_through(recs, keys, first_year, (last_year - first_year + 1) as nat, last_year)
}

pub open spec fn materialize(recs: Seq<VariableRecordView>, v: VersionSpan) -> TableVersionView {
    TableVersionView {
        records: v.idx.map_values(|i: usize| recs[i as int]),
        min_year: v.min_year,
        max_year: v.max_year,
    }
}

/// The versions found in `recs`, labels compared through `keys`.
pub open spec fn versions_of(
    recs: Seq<VariableRecordView>,
    keys: Seq<Seq<char>>,
    first_year: u32,
    last_year: u32,
) -> Seq<TableVersionView> {
    version_spans(recs, keys, first_year, last_year).map_values(
        |v: VersionSpan| materialize(recs, v),
    )
}

pub open spec fn spans_in_range(vs: Seq<VersionSpan>, n: int) -> bool {
    forall|i: int, j: int|
        0 <= i < vs.len() && 0 <= j < vs[i].idx.len() ==> #[trigger] vs[i].idx[j] < n
}

proof fn lemma_select_in_range(recs: Seq<VariableRecordView>, n: int, year: u32, est: Estimate)
    requires
        n <= recs.len(),
    ensures
        forall|j: int|
            0 <= j < select(recs, n, year, est).len() ==> #[trigger] select(recs, n, year, est)[j]
                < n,
    decreases n,
{
    if n > 0 {
        lemma_select_in_range(recs, n - 1, year, est);
        let s = select(recs, n - 1, year, est);
        if recs[n - 1].year == year && recs[n - 1].estimate == est {
            assert forall|j: int| 0 <= j < s.len() + 1 implies #[trigger] s.push(
                (n - 1) as usize,
            )[j] < n by {
                if j < s.len() {
                    assert(s.push((n - 1) as usize)[j] == s[j]);
                }
            }
        }
    }
}

proof fn lemma_step_in_range(
    vs: Seq<VersionSpan>,
    keys: Seq<Seq<char>>,
    cur: Seq<usize>,
    year: u32,
    last_year: u32,
    n: int,
)
    requires
        spans_in_range(vs, n),
        forall|j: int| 0 <= j < cur.len() ==> #[trigger] cur[j] < n,
    ensures
        spans_in_range(step(vs, keys, cur, year, last_year), n),
{
    let a = step(vs, keys, cur, year, last_year);
    assert forall|i: int, j: int| 0 <= i < a.len() && 0 <= j < a[i].idx.len() implies #[trigger] a[i].idx[j]
        < n by {
        if i < vs.len() && a[i].idx == vs[i].idx {
        } else {
            assert(a[i].idx == cur);
        }
    }
}

proof fn lemma_spans_in_range(
    recs: Seq<VariableRecordView>,
    keys: Seq<Seq<char>>,
    first_year: u32,
    n: nat,
    last_year: u32,
)
    ensures
        spans_in_range(spans_through(recs, keys, first_year, n, last_year), recs.len() as int),
    decreases n,
{
    if n > 0 {
        let year = (first_year + n - 1) as u32;
        let prev = spans_through(recs, keys, first_year, (n - 1) as nat, last_year);
        lemma_spans_in_range(recs, keys, first_year, (n - 1) as nat, last_year);
        lemma_select_in_range(recs, recs.len() as int, year, Estimate::FiveYear);
        lemma_select_in_range(recs, recs.len() as int, year, Estimate::OneYear);
        let cur5 = select(recs, recs.len() as int, year, Estimate::FiveYear);
        let a = step(prev, keys, cur5, year, last_year);
        lemma_step_in_range(prev, keys, cur5, year, last_year, recs.len() as int);
        let cur1 = select(recs, recs.len() as int, year, Estimate::OneYear);
        lemma_step_in_range(a, keys, cur1, year, last_year, recs.len() as int);
    }
}

/// The versions start at `first_year`, follow one another without gap or
/// overlap, each ends no earlier than it starts, the last is open until
/// `last_year` and starts no later than `bound`.
pub open spec fn covers_until(vs: Seq<VersionSpan>, first_year: u32, last_year: u32, bound: int) -> bool {
    &&& vs.len() > 0
    &&& vs[0].min_year == first_year
    &&& vs.last().max_year == last_year
    &&& vs.last().min_year <= bound
    &&& forall|i: int|
        0 <= i < vs.len() - 1 ==> #[trigger] vs[i].min_year <= vs[i].max_year && vs[i].max_year + 1
            == vs[i + 1].min_year
}

proof fn lemma_step_covers(
    vs: Seq<VersionSpan>,
    keys: Seq<Seq<char>>,
    cur: Seq<usize>,
    first_year: u32,
    year: u32,
    last_year: u32,
)
    requires
        1 <= year <= last_year,
        (vs.len() == 0 && year == first_year) || covers_until(vs, first_year, last_year, year as int),
    ensures
        covers_until(step(vs, keys, cur, year, last_year), first_year, last_year, year as int),
{
    let a = step(vs, keys, cur, year, last_year);
    if vs.len() > 0 {
        let n = vs.len() - 1;
        let open = vs.last();
        if a != vs {
            if open.min_year == year {
                assert forall|i: int| 0 <= i < a.len() - 1 implies #[trigger] a[i].min_year
                    <= a[i].max_year && a[i].max_year + 1 == a[i + 1].min_year by {
                    assert(vs[i].min_year <= vs[i].max_year && vs[i].max_year + 1 == vs[i + 1].min_year);
                }
            } else {
                assert forall|i: int| 0 <= i < a.len() - 1 implies #[trigger] a[i].min_year
                    <= a[i].max_year && a[i].max_year + 1 == a[i + 1].min_year by {
                    if i < n {
                        assert(vs[i].min_year <= vs[i].max_year && vs[i].max_year + 1 == vs[i + 1].min_year);
                    }
                }
            }
        }
    }
}

proof fn lemma_spans_cover(
    recs: Seq<VariableRecordView>,
    keys: Seq<Seq<char>>,
    first_year: u32,
    n: nat,
    last_year: u32,
)
    requires
        1 <= first_year,
        n >= 1,
        first_year + n - 1 <= last_year,
    ensures
        covers_until(
            spans_through(recs, keys, first_year, n, last_year),
            first_year,
            last_year,
            first_year + n - 1,
        ),
    decreases n,
{
    let year = (first_year + n - 1) as u32;
    let prev = spans_through(recs, keys, first_year, (n - 1) as nat, last_year);
    if n > 1 {
        lemma_spans_cover(recs, keys, first_year, (n - 1) as nat, last_year);
    }
    let cur5 = select(recs, recs.len() as int, year, Estimate::FiveYear);
    let cur1 = select(recs, recs.len() as int, year, Estimate::OneYear);
    lemma_step_covers(prev, keys, cur5, first_year, year, last_year);
    lemma_step_covers(step(prev, keys, cur5, year, last_year), keys, cur1, first_year, year, last_year);
}

/// The versions over `[first_year, last_year]` cover that range: the first
/// starts at `first_year`, each ends the year before the next starts, none
/// ends before it starts, and the last ends at `last_year`.
pub proof fn lemma_versions_cover_range(
    recs: Seq<VariableRecordView>,
    keys: Seq<Seq<char>>,
    first_year: u32,
    last_year: u32,
)
    requires
        1 <= first_year <= last_year,
    ensures
        ({
            let vs = versions_of(recs, keys, first_year, last_year);
            &&& vs.len() > 0
            &&& vs[0].min_year == first_year
            &&& vs[vs.len() - 1].max_year == last_year
            &&& forall|i: int| 0 <= i < vs.len() ==> #[trigger] vs[i].min_year <= vs[i].max_year
            &&& forall|i: int|
                0 <= i < vs.len() - 1 ==> #[trigger] vs[i].max_year + 1 == vs[i + 1].min_year
        }),
{
    let n = (last_year - first_year + 1) as nat;
    lemma_spans_cover(recs, keys, first_year, n, last_year);
    let sp = version_spans(recs, keys, first_year, last_year);
    let vs = versions_of(recs, keys, first_year, last_year);
    assert forall|i: int| 0 <= i < vs.len() implies #[trigger] vs[i].min_year <= vs[i].max_year by {
        if i < vs.len() - 1 {
            assert(sp[i].min_year <= sp[i].max_year);
        }
    }
    assert forall|i: int| 0 <= i < vs.len() - 1 implies #[trigger] vs[i].max_year + 1
        == vs[i + 1].min_year by {
        assert(sp[i].min_year <= sp[i].max_year);
    }
}

/// Positions of the records of `year` and `est`.
fn select_indices(records: &Vec<VariableRecord>, year: u32, est: Estimate) -> (r: Vec<usize>)
    ensures
        r@ == select(records_view(records@), records@.len() as int, year, est),
{
    let ghost recs = records_view(records@);
    let mut out: Vec<usize> = Vec::new();
    let mut i: usize = 0;
    while i < records.len()
        invariant
            i <= records@.len(),
            recs == records_view(records@),
            out@ == select(recs, i as int, year, est),
        decreases records@.len() - i,
    {
        assert(recs[i as int] == records@[i as int]@);
        if records[i].year == year && records[i].estimate == est {
            out.push(i);
        }
        i = i + 1;
    }
    out
}

fn keys_differ_exec(keys: &Vec<String>, a: &Vec<usize>, b: &Vec<usize>) -> (r: bool)
    requires
        forall|j: int| 0 <= j < a@.len() ==> #[trigger] a@[j] < keys@.len(),
        forall|j: int| 0 <= j < b@.len() ==> #[trigger] b@[j] < keys@.len(),
    ensures
        r == keys_differ(texts_view(keys@), a@, b@),
{
    let ghost kv = texts_view(keys@);
    let mut i: usize = 0;
    while i < a.len() && i < b.len()
        invariant
            i <= a@.len(),
            i <= b@.len(),
            kv == texts_view(keys@),
            forall|j: int| 0 <= j < a@.len() ==> #[trigger] a@[j] < keys@.len(),
            forall|j: int| 0 <= j < b@.len() ==> #[trigger] b@[j] < keys@.len(),
            forall|j: int| 0 <= j < i ==> #[trigger] kv[a@[j] as int] == kv[b@[j] as int],
        decreases a@.len() - i,
    {
        let x = a[i];
        let y = b[i];
        if keys[x] != keys[y] {
            assert(kv[a@[i as int] as int] != kv[b@[i as int] as int]);
            return true;
        }
        i = i + 1;
    }
    assert forall|j: int| 0 <= j < a@.len() && j < b@.len() implies #[trigger] kv[a@[j] as int]
        == kv[b@[j] as int] by {}
    false
}

fn gather(records: &Vec<VariableRecord>, idx: &Vec<usize>) -> (r: Vec<VariableRecord>)
    requires
        forall|j: int| 0 <= j < idx@.len() ==> #[trigger] idx@[j] < records@.len(),
    ensures
        records_view(r@) == idx@.map_values(|i: usize| records_view(records@)[i as int]),
{
    let mut out: Vec<VariableRecord> = Vec::new();
    let mut k: usize = 0;
    while k < idx.len()
        invariant
            k <= idx@.len(),
            forall|j: int| 0 <= j < idx@.len() ==> #[trigger] idx@[j] < records@.len(),
            out@.len() == k,
            forall|j: int| 0 <= j < k ==> #[trigger] out@[j]@ == records@[idx@[j] as int]@,
        decreases idx@.len() - k,
    {
        out.push(records[idx[k]].duplicate());
        k = k + 1;
    }
    assert(records_view(out@) =~= idx@.map_values(|i: usize| records_view(records@)[i as int]));
    out
}

/// The exec state mirrors `spans`: one version per span, and `open` holds the
/// positions of the last one.
pub open spec fn mirrors(
    versions: Seq<TableVersion>,
    open: Seq<usize>,
    recs: Seq<VariableRecordView>,
    spans: Seq<VersionSpan>,
) -> bool {
    &&& versions.len() == spans.len()
    &&& forall|i: int| 0 <= i < spans.len() ==> #[trigger] versions[i]@ == materialize(recs, spans[i])
    &&& spans.len() > 0 ==> open == spans.last().idx
}

fn advance(
    versions: &mut Vec<TableVersion>,
    open: &mut Vec<usize>,
    records: &Vec<VariableRecord>,
    keys: &Vec<String>,
    cur: Vec<usize>,
    year: u32,
    last_year: u32,
    Ghost(spans): Ghost<Seq<VersionSpan>>,
)
    requires
        year >= 1,
        keys@.len() == records@.len(),
        mirrors(old(versions)@, old(open)@, records_view(records@), spans),
        spans_in_range(spans, records@.len() as int),
        forall|j: int| 0 <= j < cur@.len() ==> #[trigger] cur@[j] < records@.len(),
    ensures
        mirrors(
            final(versions)@,
            final(open)@,
            records_view(records@),
            step(spans, texts_view(keys@), cur@, year, last_year),
        ),
{
    let ghost recs = records_view(records@);
    let ghost next = step(spans, texts_view(keys@), cur@, year, last_year);
    if versions.len() == 0 {
        let recs_now = gather(records, &cur);
        versions.push(TableVersion { records: recs_now, min_year: year, max_year: last_year });
        *open = cur;
        assert(versions@[0]@.records =~= materialize(recs, next[0]).records);
        return;
    }
    proof {
        assert(spans.len() > 0);
        assert forall|j: int| 0 <= j < open@.len() implies #[trigger] open@[j] < records@.len() by {
            assert(spans[spans.len() - 1].idx[j] < records@.len());
        }
    }
    let is_new = cur.len() != 0 && (cur.len() != open.len() || keys_differ_exec(
        keys,
        open,
        &cur,
    ));
    assert(versions@[versions@.len() - 1]@ == materialize(recs, spans[spans.len() - 1]));
    let opened_now = versions[versions.len() - 1].min_year == year;
    if is_new && opened_now {
        let ghost old_v = versions@;
        let ghost n = spans.len() as int;
        let _ = versions.pop();
        let recs_now = gather(records, &cur);
        versions.push(TableVersion { records: recs_now, min_year: year, max_year: last_year });
        *open = cur;
        proof {
            assert(next == spans.update(
                n - 1,
                VersionSpan { idx: cur@, min_year: year, max_year: last_year },
            ));
            assert forall|i: int| 0 <= i < next.len() implies #[trigger] versions@[i]@
                == materialize(recs, next[i]) by {
                if i == n - 1 {
                    assert(versions@[i]@.records =~= materialize(recs, next[i]).records);
                } else {
                    assert(versions@[i] == old_v[i]);
                    assert(next[i] == spans[i]);
                }
            }
        }
    } else if is_new {
        let ghost old_v = versions@;
        let ghost n = spans.len() as int;
        let mut last = versions.pop().unwrap();
        assert(last == old_v[n - 1]);
        last.max_year = year - 1;
        versions.push(last);
        let recs_now = gather(records, &cur);
        versions.push(TableVersion { records: recs_now, min_year: year, max_year: last_year });
        *open = cur;
        proof {
            assert(next == spans.update(
                n - 1,
                VersionSpan {
                    idx: spans[n - 1].idx,
                    min_year: spans[n - 1].min_year,
                    max_year: (year - 1) as u32,
                },
            ).push(VersionSpan { idx: cur@, min_year: year, max_year: last_year }));
            assert(next.len() == n + 1);
            assert forall|i: int| 0 <= i < next.len() implies #[trigger] versions@[i]@
                == materialize(recs, next[i]) by {
                if i == n {
                    assert(versions@[i]@.records =~= materialize(recs, next[i]).records);
                } else if i == n - 1 {
                    assert(versions@[i] == last);
                    assert(old_v[i]@ == materialize(recs, spans[i]));
                    assert(versions@[i]@.records =~= materialize(recs, next[i]).records);
                } else {
                    assert(versions@[i] == old_v[i]);
                    assert(next[i] == spans[i]);
                }
            }
        }
    }
}

/// Splits the records of one table into versions over the closed range of
/// years `[first_year, last_year]`: `records` in the order to compare them,
/// and `keys[i]` the text that stands for the label of `records[i]` when
/// labels are compared.
pub fn partition_versions(
    records: &Vec<VariableRecord>,
    keys: &Vec<String>,
    first_year: u32,
    last_year: u32,
) -> (r: Vec<TableVersion>)
    requires
        keys@.len() == records@.len(),
        1 <= first_year <= last_year,
    ensures
        r@.map_values(|v: TableVersion| v@) == versions_of(
            records_view(records@),
            texts_view(keys@),
            first_year,
            last_year,
        ),
        r@.len() > 0,
        r@[0].min_year == first_year,
        r@[r@.len() - 1].max_year == last_year,
        forall|i: int| 0 <= i < r@.len() ==> #[trigger] r@[i].min_year <= r@[i].max_year,
        forall|i: int| 0 <= i < r@.len() - 1 ==> #[trigger] r@[i].max_year + 1 == r@[i + 1].min_year,
{
    let ghost recs = records_view(records@);
    let ghost kv = texts_view(keys@);
    let mut versions: Vec<TableVersion> = Vec::new();
    let mut open: Vec<usize> = Vec::new();
    let mut y: u64 = first_year as u64;
    while y <= last_year as u64
        invariant
            first_year <= y <= last_year as u64 + 1,
            1 <= first_year <= last_year,
            keys@.len() == records@.len(),
            recs == records_view(records@),
            kv == texts_view(keys@),
            mirrors(
                versions@,
                open@,
                recs,
                spans_through(recs, kv, first_year, (y - first_year) as nat, last_year),
            ),
        decreases last_year as u64 + 1 - y,
    {
        let year = y as u32;
        let ghost n = (y - first_year) as nat;
        let ghost before = spans_through(recs, kv, first_year, n, last_year);
        proof {
            lemma_spans_in_range(recs, kv, first_year, n, last_year);
            lemma_select_in_range(recs, recs.len() as int, year, Estimate::FiveYear);
            lemma_select_in_range(recs, recs.len() as int, year, Estimate::OneYear);
        }
        let five = select_indices(records, year, Estimate::FiveYear);
        advance(&mut versions, &mut open, records, keys, five, year, last_year, Ghost(before));
        let ghost mid = step(before, kv, five@, year, last_year);
        proof {
            lemma_step_in_range(before, kv, five@, year, last_year, recs.len() as int);
        }
        let one = select_indices(records, year, Estimate::OneYear);
        advance(&mut versions, &mut open, records, keys, one, year, last_year, Ghost(mid));
        proof {
            assert((first_year + (n + 1) - 1) as u32 == year);
        }
        y = y + 1;
    }
    let ghost fin = version_spans(recs, kv, first_year, last_year);
    assert(versions@.map_values(|v: TableVersion| v@) =~= fin.map_values(
        |v: VersionSpan| materialize(recs, v),
    ));
    proof {
        lemma_versions_cover_range(recs, kv, first_year, last_year);
        let vv = versions@.map_values(|v: TableVersion| v@);
        let vs = versions_of(recs, kv, first_year, last_year);
        assert(vv == vs);
        assert forall|i: int| 0 <= i < versions@.len() implies #[trigger] versions@[i].min_year
            <= versions@[i].max_year by {
            assert(vv[i] == versions@[i]@);
            assert(vs[i].min_year <= vs[i].max_year);
        }
        assert forall|i: int| 0 <= i < versions@.len() - 1 implies #[trigger] versions@[i].max_year
            + 1 == versions@[i + 1].min_year by {
            assert(vv[i] == versions@[i]@);
            assert(vv[i + 1] == versions@[i + 1]@);
            assert(vs[i].max_year + 1 == vs[i + 1].min_year);
        }
        assert(vv[0] == versions@[0]@);
        assert(vv[vv.len() - 1] == versions@[versions@.len() - 1]@);
    }
    versions
}

/// The versions of one table's records over `[first_year, last_year]`: the
/// records sorted by code, labels compared without regard to case.
pub fn get_table_versions(records: Vec<VariableRecord>, first_year: u32, last_year: u32) -> (r: Vec<
    TableVersion,
>)
    requires
        1 <= first_year <= last_year,
    ensures
        r@.map_values(|v: TableVersion| v@) == versions_of(
            sort_by_code(records_view(records@)),
            sort_by_code(records_view(records@)).map_values(
                |x: VariableRecordView| lower_of(x.label),
            ),
            first_year,
            last_year,
        ),
        r@.len() > 0,
        r@[0].min_year == first_year,
        r@[r@.len() - 1].max_year == last_year,
        forall|i: int| 0 <= i < r@.len() ==> #[trigger] r@[i].min_year <= r@[i].max_year,
        forall|i: int| 0 <= i < r@.len() - 1 ==> #[trigger] r@[i].max_year + 1 == r@[i + 1].min_year,
{
    let sorted = sort_records(&records);
    let mut keys: Vec<String> = Vec::new();
    let mut i: usize = 0;
    while i < sorted.len()
        invariant
            i <= sorted@.len(),
            keys@.len() == i,
            forall|j: int| 0 <= j < i ==> #[trigger] keys@[j]@ == lower_of(sorted@[j].label@),
        decreases sorted@.len() - i,
    {
        keys.push(lowercase(sorted[i].label.as_str()));
        i = i + 1;
    }
    assert(texts_view(keys@) =~= records_view(sorted@).map_values(
        |x: VariableRecordView| lower_of(x.label),
    ));
    partition_versions(&sorted, &keys, first_year, last_year)
}

/// A gap year, whose two snapshots are both empty, neither opens nor closes
/// a version once one is open: an isolated year without records never splits
/// a run of identical layouts.
pub proof fn lemma_gap_year_keeps_versions(
    vs: Seq<VersionSpan>,
    recs: Seq<VariableRecordView>,
    keys: Seq<Seq<char>>,
    year: u32,
    last_year: u32,
)
    requires
        vs.len() > 0,
        select(recs, recs.len() as int, year, Estimate::FiveYear).len() == 0,
        select(recs, recs.len() as int, year, Estimate::OneYear).len() == 0,
    ensures
        year_step(vs, recs, keys, year, last_year) == vs,
{
}

} // verus!
