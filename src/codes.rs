//! Table and variable identifiers, the records built from them, their text
//! codes, and their canonical ordering.
use std::cmp::Ordering;
use vstd::prelude::*;
use vstd::string::*;
use vstd::utf8::*;

verus! {

broadcast use encode_utf8_decode_utf8;

/// B: detailed tables; C: collapsed tables. B sorts before C.
#[derive(Clone, Copy, Debug, PartialEq, Eq, Hash, PartialOrd, Ord, Structural)]
pub enum TablePrefix {
    B,
    C,
}

/// Value ("E") sorts before margin of error ("M").
#[derive(Clone, Copy, Debug, PartialEq, Eq, Hash, PartialOrd, Ord, Structural)]
pub enum VariableType {
    Value,
    MarginOfError,
}

/// The survey's aggregation window.
#[derive(Clone, Copy, Debug, PartialEq, Eq, Hash, PartialOrd, Ord, Structural)]
pub enum Estimate {
    OneYear,
    FiveYear,
}

pub open spec fn prefix_char(p: TablePrefix) -> char {
    match p {
        TablePrefix::B => 'B',
        TablePrefix::C => 'C',
    }
}

pub open spec fn var_type_char(t: VariableType) -> char {
    match t {
        VariableType::Value => 'E',
        VariableType::MarginOfError => 'M',
    }
}

/// The stored text code of an estimate.
pub open spec fn estimate_code(e: Estimate) -> Seq<char> {
    match e {
        Estimate::OneYear => seq!['1', 'y', 'r'],
        Estimate::FiveYear => seq!['5', 'y', 'r'],
    }
}

/// The human-readable name of an estimate.
pub open spec fn estimate_name(e: Estimate) -> Seq<char> {
    match e {
        Estimate::OneYear => seq![
            'A', 'C', 'S', ' ', '1', '-', 'y', 'e', 'a', 'r', ' ', 'e', 's', 't', 'i', 'm', 'a', 't', 'e'
        ],
        Estimate::FiveYear => seq![
            'A', 'C', 'S', ' ', '5', '-', 'y', 'e', 'a', 'r', ' ', 'e', 's', 't', 'i', 'm', 'a', 't', 'e'
        ],
    }
}

pub open spec fn prefix_from_text(s: Seq<char>) -> Option<TablePrefix> {
    if s == seq!['B'] {
        Some(TablePrefix::B)
    } else if s == seq!['C'] {
        Some(TablePrefix::C)
    } else {
        None
    }
}

pub open spec fn var_type_from_text(s: Seq<char>) -> Option<VariableType> {
    if s == seq!['E'] {
        Some(VariableType::Value)
    } else if s == seq!['M'] {
        Some(VariableType::MarginOfError)
    } else {
        None
    }
}

pub open spec fn estimate_from_text(s: Seq<char>) -> Option<Estimate> {
    if s == estimate_code(Estimate::OneYear) {
        Some(Estimate::OneYear)
    } else if s == estimate_code(Estimate::FiveYear) {
        Some(Estimate::FiveYear)
    } else {
        None
    }
}

/// True when `s` is exactly the one character `c`.
fn is_single_char(s: &str, c: char) -> (r: bool)
    ensures
        r == (s@ == seq![c]),
{
    if s.unicode_len() != 1 {
        return false;
    }
    let first = s.get_char(0);
    if first == c {
        assert(s@ =~= seq![c]);
        true
    } else {
        false
    }
}

impl TablePrefix {
    /// The one-letter code, "B" or "C".
    pub fn to_string(&self) -> (r: String)
        ensures
            r@ == seq![prefix_char(*self)],
    {
        match self {
            TablePrefix::B => {
                proof {
                    reveal_strlit("B");
                }
                String::from_str("B")
            },
            TablePrefix::C => {
                proof {
                    reveal_strlit("C");
                }
                String::from_str("C")
            },
        }
    }

    /// Reads a stored prefix code; any text other than "B" or "C" is refused.
    pub fn from_code(s: &str) -> (r: Option<TablePrefix>)
        ensures
            r == prefix_from_text(s@),
    {
        if is_single_char(s, 'B') {
            Some(TablePrefix::B)
        } else if is_single_char(s, 'C') {
            Some(TablePrefix::C)
        } else {
            None
        }
    }
}

impl VariableType {
    /// The one-letter code, "E" or "M".
    pub fn to_string(&self) -> (r: String)
        ensures
            r@ == seq![var_type_char(*self)],
    {
        match self {
            VariableType::Value => {
                proof {
                    reveal_strlit("E");
                }
                String::from_str("E")
            },
            VariableType::MarginOfError => {
                proof {
                    reveal_strlit("M");
                }
                String::from_str("M")
            },
        }
    }

    /// Reads a stored variable type code; any text other than "E" or "M" is refused.
    pub fn from_code(s: &str) -> (r: Option<VariableType>)
        ensures
            r == var_type_from_text(s@),
    {
        if is_single_char(s, 'E') {
            Some(VariableType::Value)
        } else if is_single_char(s, 'M') {
            Some(VariableType::MarginOfError)
        } else {
            None
        }
    }
}

impl Estimate {
    /// The path segment of the estimate in the agency's URLs.
    pub fn url_frag(&self) -> (r: &'static str)
        ensures
            r@ == (match *self {
                Estimate::OneYear => seq!['a', 'c', 's', '1', '/'],
                Estimate::FiveYear => seq!['a', 'c', 's', '5', '/'],
            }),
    {
        match self {
            Estimate::OneYear => {
                proof {
                    reveal_strlit("acs1/");
                }
                "acs1/"
            },
            Estimate::FiveYear => {
                proof {
                    reveal_strlit("acs5/");
                }
                "acs5/"
            },
        }
    }

    /// The stored code, "1yr" or "5yr".
    pub fn code(&self) -> (r: &'static str)
        ensures
            r@ == estimate_code(*self),
    {
        match self {
            Estimate::OneYear => {
                proof {
                    reveal_strlit("1yr");
                }
                "1yr"
            },
            Estimate::FiveYear => {
                proof {
                    reveal_strlit("5yr");
                }
                "5yr"
            },
        }
    }

    /// Reads a stored estimate code; any text other than "1yr" or "5yr" is refused.
    pub fn from_code(s: &str) -> (r: Option<Estimate>)
        ensures
            r == estimate_from_text(s@),
    {
        proof {
            reveal_strlit("1yr");
            reveal_strlit("5yr");
        }
        if s.unicode_len() != 3 {
            return None;
        }
        let c0 = s.get_char(0);
        let c1 = s.get_char(1);
        let c2 = s.get_char(2);
        if c1 != 'y' || c2 != 'r' {
            assert(s@ != estimate_code(Estimate::OneYear) && s@ != estimate_code(Estimate::FiveYear));
            return None;
        }
        if c0 == '1' {
            assert(s@ =~= estimate_code(Estimate::OneYear));
            Some(Estimate::OneYear)
        } else if c0 == '5' {
            assert(s@ =~= estimate_code(Estimate::FiveYear));
            Some(Estimate::FiveYear)
        } else {
            assert(s@ != estimate_code(Estimate::OneYear) && s@ != estimate_code(Estimate::FiveYear));
            None
        }
    }

    /// A human-readable name of the estimate.
    pub fn display_name(&self) -> (r: &'static str)
        ensures
            r@ == estimate_name(*self),
    {
        match self {
            Estimate::OneYear => {
                proof {
                    reveal_strlit("ACS 1-year estimate");
                }
                "ACS 1-year estimate"
            },
            Estimate::FiveYear => {
                proof {
                    reveal_strlit("ACS 5-year estimate");
                }
                "ACS 5-year estimate"
            },
        }
    }
}

/// A table identifier: prefix, digits, and an optional letter suffix.
#[derive(Debug, Clone, PartialEq, Eq, Hash)]
pub struct TableCode {
    pub prefix: TablePrefix,
    pub table_id: String,
    pub suffix: Option<String>,
}

/// What a table identifier holds, with its text as characters.
pub struct TableCodeView {
    pub prefix: TablePrefix,
    pub table_id: Seq<char>,
    pub suffix: Option<Seq<char>>,
}

pub open spec fn opt_text(s: Option<String>) -> Option<Seq<char>> {
    match s {
        Some(t) => Some(t@),
        None => None,
    }
}

pub fn copy_opt_text(s: &Option<String>) -> (r: Option<String>)
    ensures
        opt_text(r) == opt_text(*s),
{
    match s {
        Some(t) => Some(t.clone()),
        None => None,
    }
}

impl View for TableCode {
    type V = TableCodeView;

    open spec fn view(&self) -> TableCodeView {
        TableCodeView { prefix: self.prefix, table_id: self.table_id@, suffix: opt_text(self.suffix) }
    }
}

impl TableCode {
    /// A copy with the same contents.
    pub fn duplicate(&self) -> (r: TableCode)
        ensures
            r@ == self@,
    {
        TableCode {
            prefix: self.prefix,
            table_id: self.table_id.clone(),
            suffix: copy_opt_text(&self.suffix),
        }
    }

    /// Compares two codes in the canonical order: table id, then prefix,
    /// then no suffix before any suffix, then suffix text.
    pub fn compare(&self, other: &TableCode) -> (r: Ordering)
        ensures
            r == cmp_table_code(self@, other@),
    {
        let t = compare_text(&self.table_id, &other.table_id);
        match t {
            Ordering::Equal => {},
            _ => {
                return t;
            },
        }
        if self.prefix != other.prefix {
            return match self.prefix {
                TablePrefix::B => Ordering::Less,
                TablePrefix::C => Ordering::Greater,
            };
        }
        match (&self.suffix, &other.suffix) {
            (None, None) => Ordering::Equal,
            (None, Some(_)) => Ordering::Less,
            (Some(_), None) => Ordering::Greater,
            (Some(a), Some(b)) => compare_text(a, b),
        }
    }

    /// True when both codes hold the same prefix, id and suffix.
    pub fn same_as(&self, other: &TableCode) -> (r: bool)
        ensures
            r == (self@ == other@),
    {
        proof {
            lemma_cmp_table_code_equal(self@, other@);
        }
        match self.compare(other) {
            Ordering::Equal => true,
            _ => false,
        }
    }
}

/// A variable identifier: its table, its column, and its type.
#[derive(Debug, Clone, PartialEq, Eq, Hash)]
pub struct VariableCode {
    pub table_code: TableCode,
    pub column_id: String,
    pub var_type: VariableType,
}

pub struct VariableCodeView {
    pub table_code: TableCodeView,
    pub column_id: Seq<char>,
    pub var_type: VariableType,
}

impl View for VariableCode {
    type V = VariableCodeView;

    open spec fn view(&self) -> VariableCodeView {
        VariableCodeView {
            table_code: self.table_code@,
            column_id: self.column_id@,
            var_type: self.var_type,
        }
    }
}

impl VariableCode {
    pub fn duplicate(&self) -> (r: VariableCode)
        ensures
            r@ == self@,
    {
        VariableCode {
            table_code: self.table_code.duplicate(),
            column_id: self.column_id.clone(),
            var_type: self.var_type,
        }
    }

    /// Compares two codes: table code, then column id, then type.
    pub fn compare(&self, other: &VariableCode) -> (r: Ordering)
        ensures
            r == cmp_variable_code(self@, other@),
    {
        let t = self.table_code.compare(&other.table_code);
        match t {
            Ordering::Equal => {},
            _ => {
                return t;
            },
        }
        let c = compare_text(&self.column_id, &other.column_id);
        match c {
            Ordering::Equal => {},
            _ => {
                return c;
            },
        }
        if self.var_type == other.var_type {
            Ordering::Equal
        } else {
            match self.var_type {
                VariableType::Value => Ordering::Less,
                VariableType::MarginOfError => Ordering::Greater,
            }
        }
    }

    pub fn same_as(&self, other: &VariableCode) -> (r: bool)
        ensures
            r == (self@ == other@),
    {
        proof {
            lemma_cmp_variable_code_equal(self@, other@);
        }
        match self.compare(other) {
            Ordering::Equal => true,
            _ => false,
        }
    }
}

/// The human-readable name of a table.
#[derive(Debug, Clone, PartialEq, Eq)]
pub struct TableRecord {
    pub code: TableCode,
    pub label: String,
}

pub struct TableRecordView {
    pub code: TableCodeView,
    pub label: Seq<char>,
}

impl View for TableRecord {
    type V = TableRecordView;

    open spec fn view(&self) -> TableRecordView {
        TableRecordView { code: self.code@, label: self.label@ }
    }
}

impl TableRecord {
    pub fn duplicate(&self) -> (r: TableRecord)
        ensures
            r@ == self@,
    {
        TableRecord { code: self.code.duplicate(), label: self.label.clone() }
    }
}

/// One variable as observed for one year and estimate; its label encodes
/// the variable's place in the table's hierarchy.
#[derive(Debug, Clone, PartialEq, Eq)]
pub struct VariableRecord {
    pub label: String,
    pub code: VariableCode,
    pub year: u32,
    pub estimate: Estimate,
}

pub struct VariableRecordView {
    pub label: Seq<char>,
    pub code: VariableCodeView,
    pub year: u32,
    pub estimate: Estimate,
}

impl View for VariableRecord {
    type V = VariableRecordView;

    open spec fn view(&self) -> VariableRecordView {
        VariableRecordView {
            label: self.label@,
            code: self.code@,
            year: self.year,
            estimate: self.estimate,
        }
    }
}

impl VariableRecord {
    pub fn duplicate(&self) -> (r: VariableRecord)
        ensures
            r@ == self@,
    {
        VariableRecord {
            label: self.label.clone(),
            code: self.code.duplicate(),
            year: self.year,
            estimate: self.estimate,
        }
    }
}

// ---------------------------------------------------------------------------
// Ordering
/// Lexicographic order of byte strings, a proper prefix first.
pub open spec fn cmp_bytes(a: Seq<u8>, b: Seq<u8>) -> Ordering
    decreases a.len(),
{
    if a.len() == 0 {
        if b.len() == 0 {
            Ordering::Equal
        } else {
            Ordering::Less
        }
    } else if b.len() == 0 {
        Ordering::Greater
    } else if a[0] < b[0] {
        Ordering::Less
    } else if a[0] > b[0] {
        Ordering::Greater
    } else {
        cmp_bytes(a.drop_first(), b.drop_first())
    }
}

/// The order of `String`: that of the UTF-8 encodings.
pub open spec fn cmp_text(a: Seq<char>, b: Seq<char>) -> Ordering {
    cmp_bytes(encode_utf8(a), encode_utf8(b))
}

pub open spec fn reversed(o: Ordering) -> Ordering {
    match o {
        Ordering::Less => Ordering::Greater,
        Ordering::Equal => Ordering::Equal,
        Ordering::Greater => Ordering::Less,
    }
}

pub open spec fn cmp_suffix(a: Option<Seq<char>>, b: Option<Seq<char>>) -> Ordering {
    match (a, b) {
        (None, None) => Ordering::Equal,
        (None, Some(_)) => Ordering::Less,
        (Some(_), None) => Ordering::Greater,
        (Some(x), Some(y)) => cmp_text(x, y),
    }
}

pub open spec fn cmp_prefix(a: TablePrefix, b: TablePrefix) -> Ordering {
    if a == b {
        Ordering::Equal
    } else if a == TablePrefix::B {
        Ordering::Less
    } else {
        Ordering::Greater
    }
}

pub open spec fn cmp_var_type(a: VariableType, b: VariableType) -> Ordering {
    if a == b {
        Ordering::Equal
    } else if a == VariableType::Value {
        Ordering::Less
    } else {
        Ordering::Greater
    }
}

/// Canonical order of table codes: table id first, then prefix, then suffix
/// (no suffix before any suffix).
pub open spec fn cmp_table_code(a: TableCodeView, b: TableCodeView) -> Ordering {
    if cmp_text(a.table_id, b.table_id) != Ordering::Equal {
        cmp_text(a.table_id, b.table_id)
    } else if a.prefix != b.prefix {
        cmp_prefix(a.prefix, b.prefix)
    } else {
        cmp_suffix(a.suffix, b.suffix)
    }
}

/// Canonical order of variable codes: table code, column id, type.
pub open spec fn cmp_variable_code(a: VariableCodeView, b: VariableCodeView) -> Ordering {
    if cmp_table_code(a.table_code, b.table_code) != Ordering::Equal {
        cmp_table_code(a.table_code, b.table_code)
    } else if cmp_text(a.column_id, b.column_id) != Ordering::Equal {
        cmp_text(a.column_id, b.column_id)
    } else {
        cmp_var_type(a.var_type, b.var_type)
    }
}

pub fn compare_bytes(a: &[u8], b: &[u8]) -> (r: Ordering)
    ensures
        r == cmp_bytes(a@, b@),
{
    let mut i: usize = 0;
    assert(a@.subrange(0, a@.len() as int) =~= a@);
    assert(b@.subrange(0, b@.len() as int) =~= b@);
    while i < a.len() && i < b.len()
        invariant
            i <= a@.len(),
            i <= b@.len(),
            cmp_bytes(a@, b@) == cmp_bytes(
                a@.subrange(i as int, a@.len() as int),
                b@.subrange(i as int, b@.len() as int),
            ),
        decreases a@.len() - i,
    {
        if a[i] < b[i] {
            return Ordering::Less;
        }
        if a[i] > b[i] {
            return Ordering::Greater;
        }
        assert(a@.subrange(i as int, a@.len() as int).drop_first() =~= a@.subrange(
            i + 1,
            a@.len() as int,
        ));
        assert(b@.subrange(i as int, b@.len() as int).drop_first() =~= b@.subrange(
            i + 1,
            b@.len() as int,
        ));
        i = i + 1;
    }
    if i == a.len() && i == b.len() {
        Ordering::Equal
    } else if i == a.len() {
        Ordering::Less
    } else {
        Ordering::Greater
    }
}

/// True when the two texts are the same.
pub fn text_eq(a: &str, b: &str) -> (r: bool)
    ensures
        r == (a@ == b@),
{
    proof {
        lemma_cmp_text_equal(a@, b@);
    }
    match compare_bytes(a.as_bytes(), b.as_bytes()) {
        Ordering::Equal => true,
        _ => false,
    }
}

pub fn compare_text(a: &String, b: &String) -> (r: Ordering)
    ensures
        r == cmp_text(a@, b@),
{
    compare_bytes(a.as_str().as_bytes(), b.as_str().as_bytes())
}

pub proof fn lemma_cmp_bytes_equal(a: Seq<u8>, b: Seq<u8>)
    ensures
        (cmp_bytes(a, b) == Ordering::Equal) == (a == b),
    decreases a.len(),
{
    if a.len() == 0 && b.len() == 0 {
        assert(a =~= b);
    }
    if a.len() > 0 && b.len() > 0 && a[0] == b[0] {
        lemma_cmp_bytes_equal(a.drop_first(), b.drop_first());
        if a.drop_first() == b.drop_first() {
            assert(a =~= seq![a[0]] + a.drop_first());
            assert(b =~= seq![b[0]] + b.drop_first());
        }
    }
}

pub proof fn lemma_cmp_bytes_reversed(a: Seq<u8>, b: Seq<u8>)
    ensures
        cmp_bytes(b, a) == reversed(cmp_bytes(a, b)),
    decreases a.len(),
{
    if a.len() > 0 && b.len() > 0 && a[0] == b[0] {
        lemma_cmp_bytes_reversed(a.drop_first(), b.drop_first());
    }
}

pub proof fn lemma_cmp_bytes_transitive(a: Seq<u8>, b: Seq<u8>, c: Seq<u8>)
    requires
        cmp_bytes(a, b) == Ordering::Less,
        cmp_bytes(b, c) == Ordering::Less,
    ensures
        cmp_bytes(a, c) == Ordering::Less,
    decreases a.len(),
{
    if a.len() > 0 && b.len() > 0 && c.len() > 0 && a[0] == b[0] && b[0] == c[0] {
        lemma_cmp_bytes_transitive(a.drop_first(), b.drop_first(), c.drop_first());
    }
}

pub proof fn lemma_cmp_text_equal(a: Seq<char>, b: Seq<char>)
    ensures
        (cmp_text(a, b) == Ordering::Equal) == (a == b),
{
    lemma_cmp_bytes_equal(encode_utf8(a), encode_utf8(b));
    if encode_utf8(a) == encode_utf8(b) {
        assert(decode_utf8(encode_utf8(a)) == a);
        assert(decode_utf8(encode_utf8(b)) == b);
    }
}

pub proof fn lemma_cmp_table_code_equal(a: TableCodeView, b: TableCodeView)
    ensures
        (cmp_table_code(a, b) == Ordering::Equal) == (a == b),
{
    lemma_cmp_text_equal(a.table_id, b.table_id);
    match (a.suffix, b.suffix) {
        (Some(x), Some(y)) => lemma_cmp_text_equal(x, y),
        _ => {},
    }
}

pub proof fn lemma_cmp_variable_code_equal(a: VariableCodeView, b: VariableCodeView)
    ensures
        (cmp_variable_code(a, b) == Ordering::Equal) == (a == b),
{
    lemma_cmp_table_code_equal(a.table_code, b.table_code);
    lemma_cmp_text_equal(a.column_id, b.column_id);
}

/// The order of table codes is a total order: two codes compare equal exactly
/// when they are the same code, swapping the operands reverses the result,
/// and "less than" is transitive. The table id decides first; with equal ids
/// and prefixes, a code without suffix comes before one with a suffix.
pub proof fn lemma_table_code_order_total(a: TableCodeView, b: TableCodeView, c: TableCodeView)
    ensures
        cmp_text(a.table_id, b.table_id) == Ordering::Less ==> cmp_table_code(a, b)
            == Ordering::Less,
        a.table_id == b.table_id && a.prefix == TablePrefix::B && b.prefix == TablePrefix::C
            ==> cmp_table_code(a, b) == Ordering::Less,
        a.table_id == b.table_id && a.prefix == b.prefix && a.suffix is None && b.suffix is Some
            ==> cmp_table_code(a, b) == Ordering::Less,
        (cmp_table_code(a, b) == Ordering::Equal) == (a == b),
        cmp_table_code(b, a) == reversed(cmp_table_code(a, b)),
        cmp_table_code(a, b) == Ordering::Less && cmp_table_code(b, c) == Ordering::Less
            ==> cmp_table_code(a, c) == Ordering::Less,
{
    lemma_cmp_table_code_equal(a, b);
    lemma_cmp_table_code_equal(b, c);
    lemma_cmp_text_equal(a.table_id, b.table_id);
    lemma_cmp_text_equal(b.table_id, c.table_id);
    lemma_cmp_text_equal(a.table_id, c.table_id);
    lemma_cmp_bytes_reversed(encode_utf8(a.table_id), encode_utf8(b.table_id));
    if let (Some(x), Some(y)) = (a.suffix, b.suffix) {
        lemma_cmp_bytes_reversed(encode_utf8(x), encode_utf8(y));
    }
    if cmp_table_code(a, b) == Ordering::Less && cmp_table_code(b, c) == Ordering::Less {
        let (ta, tb, tc) = (encode_utf8(a.table_id), encode_utf8(b.table_id), encode_utf8(c.table_id));
        if cmp_bytes(ta, tb) == Ordering::Less && cmp_bytes(tb, tc) == Ordering::Less {
            lemma_cmp_bytes_transitive(ta, tb, tc);
        }
        if let (Some(x), Some(y), Some(z)) = (a.suffix, b.suffix, c.suffix) {
            if cmp_text(x, y) == Ordering::Less && cmp_text(y, z) == Ordering::Less {
                lemma_cmp_bytes_transitive(encode_utf8(x), encode_utf8(y), encode_utf8(z));
            }
        }
    }
}

} // verus!
