//! The identifier grammar: table codes `{B|C}{digits}{LETTERS?}`, variable
//! codes `{table code}_{digits}{E|M}`, and table records
//! `{table code}.{spaces}{label}`, read from bytes, and their text forms.
use crate::codes::{
    opt_text, prefix_char, var_type_char, TableCode, TableCodeView, TablePrefix, TableRecord,
    TableRecordView, VariableCode, VariableCodeView, VariableType,
};
use crate::text::{
    all_ascii, ascii_bytes, ascii_chars, ascii_string, lemma_ascii_encode, string_from_utf8,
};
use vstd::prelude::*;
use vstd::slice::*;
use vstd::string::*;
use vstd::utf8::*;

verus! {

/// The part of an identifier that could not be read.
#[derive(Clone, Copy, Debug, PartialEq, Eq, Structural)]
pub enum Token {
    Prefix,
    TableId,
    Separator,
    ColumnId,
    VarType,
    Spacing,
    Label,
}

/// A failed parse: the part that failed, and the input from the byte where
/// it failed to the end.
#[derive(Clone, Debug, PartialEq, Eq)]
pub struct ParseError {
    pub token: Token,
    pub rest: Vec<u8>,
}

#[derive(Clone, Copy, Debug, PartialEq, Eq, Structural)]
pub enum ByteClass {
    Digit,
    Letter,
    Space,
}

pub open spec fn in_class(c: ByteClass, b: u8) -> bool {
    match c {
        ByteClass::Digit => 0x30 <= b <= 0x39,
        ByteClass::Letter => (0x41 <= b <= 0x5a) || (0x61 <= b <= 0x7a),
        ByteClass::Space => b == 0x20 || b == 0x09,
    }
}

fn is_in_class(c: ByteClass, b: u8) -> (r: bool)
    ensures
        r == in_class(c, b),
{
    match c {
        ByteClass::Digit => 0x30 <= b && b <= 0x39,
        ByteClass::Letter => (0x41 <= b && b <= 0x5a) || (0x61 <= b && b <= 0x7a),
        ByteClass::Space => b == 0x20 || b == 0x09,
    }
}

/// Where the longest run of bytes of class `c` that starts at `i` ends.
pub open spec fn run_end(s: Seq<u8>, i: int, c: ByteClass) -> int
    decreases s.len() - i,
{
    if 0 <= i < s.len() && in_class(c, s[i]) {
        run_end(s, i + 1, c)
    } else {
        i
    }
}

pub open spec fn upper(b: u8) -> u8 {
    if 0x61 <= b <= 0x7a {
        (b - 0x20) as u8
    } else {
        b
    }
}

pub open spec fn upper_all(b: Seq<u8>) -> Seq<u8> {
    Seq::new(b.len(), |i: int| upper(b[i]))
}

pub open spec fn prefix_of_byte(b: u8) -> Option<TablePrefix> {
    if b == 0x42 {
        Some(TablePrefix::B)
    } else if b == 0x43 {
        Some(TablePrefix::C)
    } else {
        None
    }
}

pub open spec fn var_type_of_byte(b: u8) -> Option<VariableType> {
    if b == 0x45 {
        Some(VariableType::Value)
    } else if b == 0x4d {
        Some(VariableType::MarginOfError)
    } else {
        None
    }
}

/// A run of letters read as a suffix: none when empty, else upper-cased.
pub open spec fn suffix_of(b: Seq<u8>) -> Option<Seq<char>> {
    if b.len() == 0 {
        None
    } else {
        Some(ascii_chars(upper_all(b)))
    }
}

/// A table code at the start of `s`, with the position after it, or the
/// part that failed and where.
pub open spec fn table_code_spec(s: Seq<u8>) -> Result<(TableCodeView, int), (Token, int)> {
    if s.len() == 0 || prefix_of_byte(s[0]) is None {
        Err((Token::Prefix, 0))
    } else {
        let d = run_end(s, 1, ByteClass::Digit);
        if d == 1 {
            Err((Token::TableId, 1))
        } else {
            let a = run_end(s, d, ByteClass::Letter);
            Ok(
                (
                    TableCodeView {
                        prefix: prefix_of_byte(s[0])->Some_0,
                        table_id: ascii_chars(s.subrange(1, d)),
                        suffix: suffix_of(s.subrange(d, a)),
                    },
                    a,
                ),
            )
        }
    }
}

/// A variable code at the start of `s`.
pub open spec fn variable_code_spec(s: Seq<u8>) -> Result<(VariableCodeView, int), (Token, int)> {
    match table_code_spec(s) {
        Err(e) => Err(e),
        Ok((t, p)) => {
            if p >= s.len() || s[p] != 0x5f {
                Err((Token::Separator, p))
            } else {
                let q = run_end(s, p + 1, ByteClass::Digit);
                if q == p + 1 {
                    Err((Token::ColumnId, p + 1))
                } else if q >= s.len() || var_type_of_byte(s[q]) is None {
                    Err((Token::VarType, q))
                } else {
                    Ok(
                        (
                            VariableCodeView {
                                table_code: t,
                                column_id: ascii_chars(s.subrange(p + 1, q)),
                                var_type: var_type_of_byte(s[q])->Some_0,
                            },
                            q + 1,
                        ),
                    )
                }
            }
        },
    }
}

/// A table record: a table code, a dot, one or more spaces or tabs, and the
/// rest of the input as its UTF-8 label.
pub open spec fn table_record_spec(s: Seq<u8>) -> Result<(TableRecordView, int), (Token, int)> {
    match table_code_spec(s) {
        Err(e) => Err(e),
        Ok((t, p)) => {
            if p >= s.len() || s[p] != 0x2e {
                Err((Token::Separator, p))
            } else {
                let sp = run_end(s, p + 1, ByteClass::Space);
                if sp == p + 1 {
                    Err((Token::Spacing, p + 1))
                } else if !valid_utf8(s.subrange(sp, s.len() as int)) {
                    Err((Token::Label, sp))
                } else {
                    Ok(
                        (
                            TableRecordView {
                                code: t,
                                label: decode_utf8(s.subrange(sp, s.len() as int)),
                            },
                            s.len() as int,
                        ),
                    )
                }
            }
        },
    }
}

/// `e` reports part `t` failing at position `p` of `s`.
pub open spec fn fails_at(s: Seq<u8>, e: ParseError, t: Token, p: int) -> bool {
    e.token == t && e.rest@ == s.subrange(p, s.len() as int)
}

proof fn lemma_run_end(s: Seq<u8>, i: int, c: ByteClass)
    requires
        0 <= i <= s.len(),
    ensures
        i <= run_end(s, i, c) <= s.len(),
        forall|k: int| i <= k < run_end(s, i, c) ==> in_class(c, #[trigger] s[k]),
        run_end(s, i, c) < s.len() ==> !in_class(c, s[run_end(s, i, c)]),
    decreases s.len() - i,
{
    if i < s.len() && in_class(c, s[i]) {
        lemma_run_end(s, i + 1, c);
    }
}

/// A run that covers `[i, j)` and stops at `j` ends at `j`.
proof fn lemma_run_end_block(s: Seq<u8>, i: int, j: int, c: ByteClass)
    requires
        0 <= i <= j <= s.len(),
        forall|k: int| i <= k < j ==> in_class(c, #[trigger] s[k]),
        j < s.len() ==> !in_class(c, s[j]),
    ensures
        run_end(s, i, c) == j,
    decreases j - i,
{
    if i < j {
        lemma_run_end_block(s, i + 1, j, c);
    }
}

fn scan(s: &[u8], i: usize, c: ByteClass) -> (e: usize)
    requires
        i <= s@.len(),
    ensures
        e == run_end(s@, i as int, c),
        i <= e <= s@.len(),
        forall|k: int| i <= k < e ==> in_class(c, #[trigger] s@[k]),
{
    proof {
        lemma_run_end(s@, i as int, c);
    }
    let mut j = i;
    while j < s.len() && is_in_class(c, s[j])
        invariant
            i <= j <= s@.len(),
            run_end(s@, i as int, c) == run_end(s@, j as int, c),
        decreases s@.len() - j,
    {
        j = j + 1;
    }
    j
}

fn fail(s: &[u8], t: Token, p: usize) -> (e: ParseError)
    requires
        p <= s@.len(),
    ensures
        fails_at(s@, e, t, p as int),
{
    ParseError { token: t, rest: slice_to_vec(slice_subrange(s, p, s.len())) }
}

/// The upper-cased letters as a `String`.
fn upper_string(b: &[u8]) -> (r: String)
    requires
        forall|k: int| 0 <= k < b@.len() ==> in_class(ByteClass::Letter, #[trigger] b@[k]),
    ensures
        r@ == ascii_chars(upper_all(b@)),
{
    let mut out: Vec<u8> = Vec::new();
    let mut i: usize = 0;
    while i < b.len()
        invariant
            i <= b@.len(),
            out@ == upper_all(b@.subrange(0, i as int)),
            forall|k: int| 0 <= k < b@.len() ==> in_class(ByteClass::Letter, #[trigger] b@[k]),
        decreases b@.len() - i,
    {
        let x = b[i];
        let u = if 0x61 <= x && x <= 0x7a {
            x - 0x20
        } else {
            x
        };
        out.push(u);
        i = i + 1;
        assert(out@ =~= upper_all(b@.subrange(0, i as int)));
    }
    assert(b@.subrange(0, b@.len() as int) =~= b@);
    assert(all_ascii(out@)) by {
        assert forall|k: int| 0 <= k < out@.len() implies #[trigger] out@[k] <= 0x7f by {
            assert(in_class(ByteClass::Letter, b@[k]));
        }
    }
    ascii_string(out.as_slice())
}

/// Reads the run of digits at the start of `s`; an empty run is refused.
pub fn parse_table_id<'a>(s: &'a [u8]) -> (r: Result<(&'a [u8], String), ParseError>)
    ensures
        run_end(s@, 0, ByteClass::Digit) == 0 ==> (r matches Err(e) && fails_at(
            s@,
            e,
            Token::TableId,
            0,
        )),
        run_end(s@, 0, ByteClass::Digit) > 0 ==> (r matches Ok((rest, id)) && id@ == ascii_chars(
            s@.subrange(0, run_end(s@, 0, ByteClass::Digit)),
        ) && rest@ == s@.subrange(run_end(s@, 0, ByteClass::Digit), s@.len() as int)),
{
    let d = scan(s, 0, ByteClass::Digit);
    if d == 0 {
        return Err(fail(s, Token::TableId, 0));
    }
    let id = ascii_string(slice_subrange(s, 0, d));
    Ok((slice_subrange(s, d, s.len()), id))
}

/// Reads the run of letters at the start of `s` as an upper-cased suffix;
/// none when there is no letter.
pub fn parse_suffix<'a>(s: &'a [u8]) -> (r: (&'a [u8], Option<String>))
    ensures
        opt_text(r.1) == suffix_of(s@.subrange(0, run_end(s@, 0, ByteClass::Letter))),
        r.0@ == s@.subrange(run_end(s@, 0, ByteClass::Letter), s@.len() as int),
{
    let a = scan(s, 0, ByteClass::Letter);
    let rest = slice_subrange(s, a, s.len());
    if a == 0 {
        (rest, None)
    } else {
        (rest, Some(upper_string(slice_subrange(s, 0, a))))
    }
}

/// Reads a table code at the start of `s`, giving the input after it.
pub fn parse_table_code<'a>(s: &'a [u8]) -> (r: Result<(&'a [u8], TableCode), ParseError>)
    ensures
        match table_code_spec(s@) {
            Ok((c, e)) => r matches Ok((rest, code)) && code@ == c && rest@ == s@.subrange(
                e,
                s@.len() as int,
            ),
            Err((t, p)) => r matches Err(err) && fails_at(s@, err, t, p),
        },
{
    let (rest, code) = parse_table_code_at(s);
    match code {
        Ok(c) => Ok((slice_subrange(s, rest, s.len()), c)),
        Err(e) => Err(e),
    }
}

fn parse_table_code_at(s: &[u8]) -> (r: (usize, Result<TableCode, ParseError>))
    ensures
        match table_code_spec(s@) {
            Ok((c, e)) => r.1 matches Ok(code) && code@ == c && r.0 == e,
            Err((t, p)) => r.1 matches Err(err) && fails_at(s@, err, t, p),
        },
        r.0 <= s@.len(),
{
    if s.len() == 0 {
        return (0, Err(fail(s, Token::Prefix, 0)));
    }
    let prefix = if s[0] == 0x42 {
        TablePrefix::B
    } else if s[0] == 0x43 {
        TablePrefix::C
    } else {
        return (0, Err(fail(s, Token::Prefix, 0)));
    };
    let d = scan(s, 1, ByteClass::Digit);
    if d == 1 {
        return (0, Err(fail(s, Token::TableId, 1)));
    }
    let a = scan(s, d, ByteClass::Letter);
    let digits = slice_subrange(s, 1, d);
    assert(all_ascii(digits@)) by {
        assert forall|k: int| 0 <= k < digits@.len() implies #[trigger] digits@[k] <= 0x7f by {
            assert(digits@[k] == s@[k + 1]);
        }
    }
    let table_id = ascii_string(digits);
    let suffix = if a == d {
        assert(s@.subrange(d as int, a as int).len() == 0);
        None
    } else {
        let letters = slice_subrange(s, d, a);
        assert forall|k: int| 0 <= k < letters@.len() implies in_class(
            ByteClass::Letter,
            #[trigger] letters@[k],
        ) by {
            assert(letters@[k] == s@[k + d]);
        }
        Some(upper_string(letters))
    };
    (a, Ok(TableCode { prefix, table_id, suffix }))
}

/// Reads the one-byte type code of a variable: `E` or `M`.
pub fn match_var_type(input: &[u8]) -> (r: Result<VariableType, ParseError>)
    ensures
        input@.len() == 1 && var_type_of_byte(input@[0]) is Some ==> r == Ok::<
            VariableType,
            ParseError,
        >(var_type_of_byte(input@[0])->Some_0),
        !(input@.len() == 1 && var_type_of_byte(input@[0]) is Some) ==> (r matches Err(e)
            && fails_at(input@, e, Token::VarType, 0)),
{
    if input.len() == 1 {
        if input[0] == 0x45 {
            return Ok(VariableType::Value);
        } else if input[0] == 0x4d {
            return Ok(VariableType::MarginOfError);
        }
    }
    Err(fail(input, Token::VarType, 0))
}

/// Reads a variable code at the start of `s`, giving the input after it.
pub fn parse_variable_code<'a>(s: &'a [u8]) -> (r: Result<(&'a [u8], VariableCode), ParseError>)
    ensures
        match variable_code_spec(s@) {
            Ok((c, e)) => r matches Ok((rest, code)) && code@ == c && rest@ == s@.subrange(
                e,
                s@.len() as int,
            ),
            Err((t, p)) => r matches Err(err) && fails_at(s@, err, t, p),
        },
{
    let (p, table) = parse_table_code_at(s);
    let table_code = match table {
        Ok(c) => c,
        Err(e) => {
            return Err(e);
        },
    };
    if p >= s.len() || s[p] != 0x5f {
        return Err(fail(s, Token::Separator, p));
    }
    let q = scan(s, p + 1, ByteClass::Digit);
    if q == p + 1 {
        return Err(fail(s, Token::ColumnId, p + 1));
    }
    if q >= s.len() {
        return Err(fail(s, Token::VarType, q));
    }
    let var_type = match match_var_type(slice_subrange(s, q, q + 1)) {
        Ok(t) => t,
        Err(_) => {
            return Err(fail(s, Token::VarType, q));
        },
    };
    let digits = slice_subrange(s, p + 1, q);
    assert(all_ascii(digits@)) by {
        assert forall|k: int| 0 <= k < digits@.len() implies #[trigger] digits@[k] <= 0x7f by {
            assert(digits@[k] == s@[k + p + 1]);
        }
    }
    let column_id = ascii_string(digits);
    Ok((slice_subrange(s, q + 1, s.len()), VariableCode { table_code, column_id, var_type }))
}

/// Reads a table record: a table code, a dot, spaces or tabs, and the rest of
/// the input as the label, which must be UTF-8.
pub fn parse_table_record<'a>(s: &'a [u8]) -> (r: Result<(&'a [u8], TableRecord), ParseError>)
    ensures
        match table_record_spec(s@) {
            Ok((c, e)) => r matches Ok((rest, rec)) && rec@ == c && rest@ == s@.subrange(
                e,
                s@.len() as int,
            ),
            Err((t, p)) => r matches Err(err) && fails_at(s@, err, t, p),
        },
{
    let (p, table) = parse_table_code_at(s);
    let code = match table {
        Ok(c) => c,
        Err(e) => {
            return Err(e);
        },
    };
    if p >= s.len() || s[p] != 0x2e {
        return Err(fail(s, Token::Separator, p));
    }
    let sp = scan(s, p + 1, ByteClass::Space);
    if sp == p + 1 {
        return Err(fail(s, Token::Spacing, p + 1));
    }
    match string_from_utf8(slice_subrange(s, sp, s.len())) {
        Some(label) => Ok((slice_subrange(s, s.len(), s.len()), TableRecord { code, label })),
        None => Err(fail(s, Token::Label, sp)),
    }
}

// ---------------------------------------------------------------------------
// Text forms
pub open spec fn suffix_text(s: Option<Seq<char>>) -> Seq<char> {
    match s {
        Some(x) => x,
        None => Seq::empty(),
    }
}

/// `{prefix}{table_id}{suffix?}`
pub open spec fn table_code_text(c: TableCodeView) -> Seq<char> {
    seq![prefix_char(c.prefix)] + c.table_id + suffix_text(c.suffix)
}

/// `{table code}_{column_id}{E|M}`
pub open spec fn variable_code_text(v: VariableCodeView) -> Seq<char> {
    table_code_text(v.table_code) + seq!['_'] + v.column_id + seq![var_type_char(v.var_type)]
}

/// The text form of a table code.
pub fn format_table_code(c: &TableCode) -> (r: String)
    ensures
        r@ == table_code_text(c@),
{
    let mut out = c.prefix.to_string();
    out.append(c.table_id.as_str());
    match &c.suffix {
        Some(x) => out.append(x.as_str()),
        None => {},
    }
    assert(out@ =~= table_code_text(c@));
    out
}

/// The text form of a variable code.
pub fn format_variable_code(v: &VariableCode) -> (r: String)
    ensures
        r@ == variable_code_text(v@),
{
    let mut out = format_table_code(&v.table_code);
    proof {
        reveal_strlit("_");
    }
    out.append("_");
    out.append(v.column_id.as_str());
    let t = v.var_type.to_string();
    out.append(t.as_str());
    assert(out@ =~= variable_code_text(v@));
    out
}

// ---------------------------------------------------------------------------
// Round trip
/// One or more decimal digits.
pub open spec fn is_digit_text(t: Seq<char>) -> bool {
    t.len() > 0 && forall|i: int| 0 <= i < t.len() ==> '0' <= #[trigger] t[i] <= '9'
}

/// One or more upper-case ASCII letters.
pub open spec fn is_upper_text(t: Seq<char>) -> bool {
    t.len() > 0 && forall|i: int| 0 <= i < t.len() ==> 'A' <= #[trigger] t[i] <= 'Z'
}

/// A table code that its text form can carry: digits for the id, and no
/// suffix or upper-case letters.
pub open spec fn valid_table_code(c: TableCodeView) -> bool {
    is_digit_text(c.table_id) && match c.suffix {
        None => true,
        Some(x) => is_upper_text(x),
    }
}

pub open spec fn valid_variable_code(v: VariableCodeView) -> bool {
    valid_table_code(v.table_code) && is_digit_text(v.column_id)
}

proof fn lemma_table_code_then(c: TableCodeView, tail: Seq<u8>)
    requires
        valid_table_code(c),
        tail.len() > 0 ==> !in_class(ByteClass::Digit, tail[0]) && !in_class(
            ByteClass::Letter,
            tail[0],
        ),
    ensures
        is_ascii_chars(table_code_text(c)),
        table_code_spec(ascii_bytes(table_code_text(c)) + tail) == Ok::<
            (TableCodeView, int),
            (Token, int),
        >((c, table_code_text(c).len() as int)),
{
    let t = table_code_text(c);
    let id = c.table_id;
    let sx = suffix_text(c.suffix);
    let n = id.len() as int;
    let m = sx.len() as int;
    let b = ascii_bytes(t) + tail;
    assert(t.len() == 1 + n + m);
    assert forall|k: int| 0 <= k < n implies #[trigger] t[1 + k] == id[k] && '0' <= id[k] <= '9' by {}
    assert forall|k: int| 0 <= k < m implies #[trigger] t[1 + n + k] == sx[k] && 'A' <= sx[k] <= 'Z' by {
        if let Some(x) = c.suffix {
            assert(sx[k] == x[k]);
        }
    }
    assert(is_ascii_chars(t)) by {
        assert forall|i: int| 0 <= i < t.len() implies '\0' <= #[trigger] t[i] <= '\u{7f}' by {
            if i >= 1 && i < 1 + n {
                assert(t[1 + (i - 1)] == id[i - 1]);
            } else if i >= 1 + n {
                assert(t[1 + n + (i - 1 - n)] == sx[i - 1 - n]);
            }
        }
    }
    assert(b[0] == prefix_char(c.prefix) as u8);
    assert forall|k: int| 1 <= k < 1 + n implies in_class(ByteClass::Digit, #[trigger] b[k]) by {
        assert(t[1 + (k - 1)] == id[k - 1]);
    }
    assert forall|k: int| 1 + n <= k < 1 + n + m implies in_class(
        ByteClass::Letter,
        #[trigger] b[k],
    ) by {
        assert(t[1 + n + (k - 1 - n)] == sx[k - 1 - n]);
    }
    if m > 0 {
        assert(t[1 + n + 0] == sx[0]);
        assert(!in_class(ByteClass::Digit, b[1 + n]));
    }
    lemma_run_end_block(b, 1, 1 + n, ByteClass::Digit);
    lemma_run_end_block(b, 1 + n, 1 + n + m, ByteClass::Letter);
    assert(ascii_chars(b.subrange(1, 1 + n)) =~= id) by {
        assert forall|k: int| 0 <= k < n implies #[trigger] ascii_chars(b.subrange(1, 1 + n))[k]
            == id[k] by {
            assert(t[1 + k] == id[k]);
        }
    }
    match c.suffix {
        None => {
            assert(b.subrange(1 + n, 1 + n + m).len() == 0);
        },
        Some(x) => {
            assert(ascii_chars(upper_all(b.subrange(1 + n, 1 + n + m))) =~= x) by {
                assert forall|k: int| 0 <= k < m implies #[trigger] ascii_chars(
                    upper_all(b.subrange(1 + n, 1 + n + m)),
                )[k] == x[k] by {
                    assert(t[1 + n + k] == sx[k]);
                }
            }
        },
    }
}

/// Formatting a valid table code and reading the text back gives the same
/// code, with the whole text consumed.
pub proof fn lemma_table_code_round_trip(c: TableCodeView)
    requires
        valid_table_code(c),
    ensures
        table_code_spec(encode_utf8(table_code_text(c))) == Ok::<
            (TableCodeView, int),
            (Token, int),
        >((c, encode_utf8(table_code_text(c)).len() as int)),
{
    lemma_table_code_then(c, Seq::empty());
    lemma_ascii_encode(table_code_text(c));
    assert(ascii_bytes(table_code_text(c)) + Seq::<u8>::empty() =~= ascii_bytes(
        table_code_text(c),
    ));
}

/// Formatting a valid variable code and reading the text back gives the same
/// code, with the whole text consumed.
pub proof fn lemma_variable_code_round_trip(v: VariableCodeView)
    requires
        valid_variable_code(v),
    ensures
        variable_code_spec(encode_utf8(variable_code_text(v))) == Ok::<
            (VariableCodeView, int),
            (Token, int),
        >((v, encode_utf8(variable_code_text(v)).len() as int)),
{
    let tc = table_code_text(v.table_code);
    let col = v.column_id;
    let tail_chars = seq!['_'] + col + seq![var_type_char(v.var_type)];
    let t = variable_code_text(v);
    assert(t =~= tc + tail_chars);
    let tail = ascii_bytes(tail_chars);
    assert(tail[0] == 0x5f);
    lemma_table_code_then(v.table_code, tail);
    let p = tc.len() as int;
    let n = col.len() as int;
    let b = ascii_bytes(tc) + tail;
    assert(ascii_bytes(t) =~= b);
    assert forall|k: int| 0 <= k < n implies #[trigger] tail_chars[1 + k] == col[k] && '0' <= col[k]
        <= '9' by {}
    assert(is_ascii_chars(t)) by {
        assert forall|i: int| 0 <= i < t.len() implies '\0' <= #[trigger] t[i] <= '\u{7f}' by {
            if i >= p + 1 && i < p + 1 + n {
                assert(t[i] == tail_chars[1 + (i - p - 1)]);
            } else if i < p {
                assert(t[i] == tc[i]);
            }
        }
    }
    lemma_ascii_encode(t);
    assert(b[p] == 0x5f);
    assert forall|k: int| p + 1 <= k < p + 1 + n implies in_class(
        ByteClass::Digit,
        #[trigger] b[k],
    ) by {
        assert(tail[k - p] == tail_chars[1 + (k - p - 1)] as u8);
    }
    assert(b[p + 1 + n] == tail[1 + n]);
    assert(tail_chars[1 + n] == var_type_char(v.var_type));
    lemma_run_end_block(b, p + 1, p + 1 + n, ByteClass::Digit);
    assert(ascii_chars(b.subrange(p + 1, p + 1 + n)) =~= col) by {
        assert forall|k: int| 0 <= k < n implies #[trigger] ascii_chars(
            b.subrange(p + 1, p + 1 + n),
        )[k] == col[k] by {
            assert(tail_chars[1 + k] == col[k]);
            assert(b[p + 1 + k] == tail[1 + k]);
        }
    }
}

// ---------------------------------------------------------------------------
// Table id queries
/// A lookup by table id, with an optional prefix and suffix.
#[derive(Debug, Clone, PartialEq, Eq)]
pub struct TableIdQuery {
    pub prefix: Option<TablePrefix>,
    pub table_id: String,
    pub suffix: Option<String>,
}

pub struct TableIdQueryView {
    pub prefix: Option<TablePrefix>,
    pub table_id: Seq<char>,
    pub suffix: Option<Seq<char>>,
}

impl View for TableIdQuery {
    type V = TableIdQueryView;

    open spec fn view(&self) -> TableIdQueryView {
        TableIdQueryView {
            prefix: self.prefix,
            table_id: self.table_id@,
            suffix: opt_text(self.suffix),
        }
    }
}

/// A query prefix letter, in either case.
pub open spec fn query_prefix_of_byte(b: u8) -> Option<TablePrefix> {
    if b == 0x42 || b == 0x62 {
        Some(TablePrefix::B)
    } else if b == 0x43 || b == 0x63 {
        Some(TablePrefix::C)
    } else {
        None
    }
}

/// A query at the start of `s`: an optional prefix letter in either case,
/// digits, and optional letters as an upper-cased suffix.
pub open spec fn table_query_spec(s: Seq<u8>) -> Result<(TableIdQueryView, int), (Token, int)> {
    let has_prefix = s.len() > 0 && query_prefix_of_byte(s[0]) is Some;
    let i: int = if has_prefix {
        1
    } else {
        0
    };
    let d = run_end(s, i, ByteClass::Digit);
    if d == i {
        Err((Token::TableId, i))
    } else {
        let a = run_end(s, d, ByteClass::Letter);
        Ok(
            (
                TableIdQueryView {
                    prefix: if has_prefix {
                        query_prefix_of_byte(s[0])
                    } else {
                        None
                    },
                    table_id: ascii_chars(s.subrange(i, d)),
                    suffix: suffix_of(s.subrange(d, a)),
                },
                a,
            ),
        )
    }
}

/// Reads a table id query at the start of `s`, giving the input after it.
pub fn parse_table_query<'a>(s: &'a [u8]) -> (r: Result<(&'a [u8], TableIdQuery), ParseError>)
    ensures
        match table_query_spec(s@) {
            Ok((q, e)) => r matches Ok((rest, query)) && query@ == q && rest@ == s@.subrange(
                e,
                s@.len() as int,
            ),
            Err((t, p)) => r matches Err(err) && fails_at(s@, err, t, p),
        },
{
    let mut i: usize = 0;
    let mut prefix: Option<TablePrefix> = None;
    if s.len() > 0 {
        let b = s[0];
        if b == 0x42 || b == 0x62 {
            prefix = Some(TablePrefix::B);
            i = 1;
        } else if b == 0x43 || b == 0x63 {
            prefix = Some(TablePrefix::C);
            i = 1;
        }
    }
    let d = scan(s, i, ByteClass::Digit);
    if d == i {
        return Err(fail(s, Token::TableId, i));
    }
    let a = scan(s, d, ByteClass::Letter);
    let digits = slice_subrange(s, i, d);
    assert(all_ascii(digits@)) by {
        assert forall|k: int| 0 <= k < digits@.len() implies #[trigger] digits@[k] <= 0x7f by {
            assert(digits@[k] == s@[k + i]);
        }
    }
    let table_id = ascii_string(digits);
    let suffix = if a == d {
        assert(s@.subrange(d as int, a as int).len() == 0);
        None
    } else {
        let letters = slice_subrange(s, d, a);
        assert forall|k: int| 0 <= k < letters@.len() implies in_class(
            ByteClass::Letter,
            #[trigger] letters@[k],
        ) by {
            assert(letters@[k] == s@[k + d]);
        }
        Some(upper_string(letters))
    };
    Ok((slice_subrange(s, a, s.len()), TableIdQuery { prefix, table_id, suffix }))
}

/// The encoding of a concatenation is the concatenation of the encodings.
pub proof fn lemma_encode_concat(a: Seq<char>, b: Seq<char>)
    ensures
        encode_utf8(a + b) == encode_utf8(a) + encode_utf8(b),
    decreases a.len(),
{
    if a.len() == 0 {
        assert(a + b =~= b);
        assert(encode_utf8(a) + encode_utf8(b) =~= encode_utf8(b));
    } else {
        assert((a + b).drop_first() =~= a.drop_first() + b);
        assert((a + b)[0] == a[0]);
        lemma_encode_concat(a.drop_first(), b);
        assert(encode_utf8(a + b) =~= encode_utf8(a) + encode_utf8(b));
    }
}

proof fn lemma_first_byte_not_space(c: char)
    requires
        c != ' ',
        c != '\t',
    ensures
        encode_utf8(seq![c]).len() > 0,
        !in_class(ByteClass::Space, encode_utf8(seq![c])[0]),
{
    char_is_scalar(c);
    let v = c as u32;
    assert(seq![c].drop_first() =~= Seq::<char>::empty());
    assert(encode_utf8(Seq::<char>::empty()) =~= Seq::<u8>::empty());
    assert(encode_utf8(seq![c]) == encode_scalar(v) + encode_utf8(seq![c].drop_first()));
    assert(encode_utf8(seq![c]) =~= encode_scalar(v));
    if v <= 0x7f {
        assert((v & 0x7f) as u8 == v as u8) by (bit_vector)
            requires
                v <= 0x7f,
        ;
        assert(' ' as u32 == 0x20);
        assert('\t' as u32 == 0x09);
    } else if v <= 0x7ff {
        let x = ((v >> 6) & 0x1F) as u8;
        assert((0xC0u8 | x) >= 0xC0) by (bit_vector);
    } else if v <= 0xffff {
        let x = ((v >> 12) & 0x0F) as u8;
        assert((0xE0u8 | x) >= 0xC0) by (bit_vector);
    } else {
        let x = ((v >> 18) & 0x7) as u8;
        assert((0xF0u8 | x) >= 0xC0) by (bit_vector);
    }
}

proof fn lemma_record_bytes(c: TableCodeView, label: Seq<char>)
    requires
        valid_table_code(c),
    ensures
        encode_utf8(table_code_text(c) + seq!['.', ' ', ' '] + label) == ascii_bytes(
            table_code_text(c),
        ) + (seq![0x2eu8, 0x20u8, 0x20u8] + encode_utf8(label)),
{
    let t = table_code_text(c);
    let sep = seq!['.', ' ', ' '];
    lemma_encode_concat(t + sep, label);
    lemma_encode_concat(t, sep);
    assert(is_ascii_chars(sep));
    lemma_ascii_encode(sep);
    lemma_table_code_then(c, Seq::empty());
    lemma_ascii_encode(t);
    assert(ascii_bytes(sep) =~= seq![0x2eu8, 0x20u8, 0x20u8]);
    assert(encode_utf8(t + sep + label) =~= ascii_bytes(t) + (seq![0x2eu8, 0x20u8, 0x20u8]
        + encode_utf8(label)));
}

/// A table record written as `{code}.  {label}` reads back as the same code
/// and label, with the whole text consumed, when the code is valid and the
/// label does not start with a space or a tab.
pub proof fn lemma_table_record_round_trip(c: TableCodeView, label: Seq<char>)
    requires
        valid_table_code(c),
        label.len() > 0 ==> label[0] != ' ' && label[0] != '\t',
    ensures
        ({
            let s = encode_utf8(table_code_text(c) + seq!['.', ' ', ' '] + label);
            table_record_spec(s) == Ok::<(TableRecordView, int), (Token, int)>(
                (TableRecordView { code: c, label: label }, s.len() as int),
            )
        }),
{
    let t = table_code_text(c);
    let sep = seq!['.', ' ', ' '];
    let s = encode_utf8(t + sep + label);
    let el = encode_utf8(label);
    let tail = seq![0x2eu8, 0x20u8, 0x20u8] + el;
    lemma_record_bytes(c, label);
    assert(tail[0] == 0x2e);
    lemma_table_code_then(c, tail);
    let p = t.len() as int;
    assert(s[p] == 0x2e);
    assert(s[p + 1] == 0x20 && s[p + 2] == 0x20);
    if label.len() > 0 {
        lemma_first_byte_not_space(label[0]);
        assert(label =~= seq![label[0]] + label.drop_first());
        lemma_encode_concat(seq![label[0]], label.drop_first());
        assert(s[p + 3] == el[0]);
        assert(el[0] == encode_utf8(seq![label[0]])[0]);
    }
    assert(s.len() == p + 3 + el.len());
    lemma_run_end_block(s, p + 1, p + 3, ByteClass::Space);
    assert(run_end(s, p + 1, ByteClass::Space) == p + 3);
    assert(s.subrange(p + 3, s.len() as int) =~= el);
    encode_utf8_valid_utf8(label);
    encode_utf8_decode_utf8(label);
    assert(table_code_spec(s) == Ok::<(TableCodeView, int), (Token, int)>((c, p)));
}

} // verus!
