//! The JSON metadata that cimgui ships (`structs_and_enums.json`, `definitions.json`),
//! read with `smoljson` into this library's own model.
use vstd::prelude::*;
use crate::bindings::float_literal::{is_digit, reads_as_infinity, reads_as_infinity_at};
use crate::text::{chars_of, first_match, str_eq};

verus! {

/// A JSON value: numbers kept as the text `smoljson` prints for them, objects as
/// their entries in key order.
#[derive(Debug, PartialEq)]
pub enum JsonValue {
    Null,
    Bool(bool),
    Number(String),
    Str(String),
    Array(Vec<JsonValue>),
    Object(Vec<(String, JsonValue)>),
}

#[verifier::external_type_specification]
#[verifier::external_body]
pub struct ExJsonReaderValue<'a>(smoljson::Value<'a>);

#[verifier::external_type_specification]
#[verifier::external_body]
pub struct ExJsonReaderError(smoljson::Error);


/// A character that the reader takes into a number literal once one has started.
pub open spec fn number_char(c: char) -> bool {
    is_digit(c) || c == '.' || c == 'e' || c == 'E' || c == '+' || c == '-'
}

/// A number literal without its minus sign.
pub open spec fn unsigned_part(tok: Seq<char>) -> Seq<char> {
    if tok.len() > 0 && tok[0] == '-' {
        tok.drop_first()
    } else {
        tok
    }
}

/// A negative zero integer literal such as `-0` or `-00`.
pub open spec fn negative_zero(tok: Seq<char>) -> bool {
    tok.len() >= 2 && tok[0] == '-' && forall|i: int| 1 <= i < tok.len() ==> tok[i] == '0'
}

/// A number literal that the JSON reader cannot take without failing an internal
/// check: a negative zero integer, or one whose `f64` value is infinite.
pub open spec fn number_refused(tok: Seq<char>) -> bool {
    negative_zero(tok) || reads_as_infinity(unsigned_part(tok))
}

/// Where a left-to-right reading of JSON text stands.
pub enum ScanState {
    Outside,
    InString,
    Escaped,
    InNumber,
}

/// No number literal of the rest of the text `s` is refused, reading from state `st`
/// with `tok` the number literal read so far. Strings (with their escapes) are
/// skipped; a number literal starts at `-` or a digit outside strings and takes in
/// the characters that may follow in a number.
pub open spec fn numbers_fine(s: Seq<char>, st: ScanState, tok: Seq<char>) -> bool
    decreases s.len(),
{
    if s.len() == 0 {
        match st {
            ScanState::InNumber => !number_refused(tok),
            _ => true,
        }
    } else {
        let c = s[0];
        let rest = s.drop_first();
        match st {
            ScanState::Outside => if c == '"' {
                numbers_fine(rest, ScanState::InString, seq![])
            } else if is_digit(c) || c == '-' {
                numbers_fine(rest, ScanState::InNumber, seq![c])
            } else {
                numbers_fine(rest, ScanState::Outside, seq![])
            },
            ScanState::InString => if c == '\\' {
                numbers_fine(rest, ScanState::Escaped, seq![])
            } else if c == '"' {
                numbers_fine(rest, ScanState::Outside, seq![])
            } else {
                numbers_fine(rest, ScanState::InString, seq![])
            },
            ScanState::Escaped => numbers_fine(rest, ScanState::InString, seq![]),
            ScanState::InNumber => if number_char(c) {
                numbers_fine(rest, ScanState::InNumber, tok.push(c))
            } else if number_refused(tok) {
                false
            } else if c == '"' {
                numbers_fine(rest, ScanState::InString, seq![])
            } else {
                numbers_fine(rest, ScanState::Outside, seq![])
            },
        }
    }
}

/// The JSON text holds no number literal that the reader refuses.
pub open spec fn json_numbers_accepted(text: Seq<char>) -> bool {
    numbers_fine(text, ScanState::Outside, seq![])
}

/// A number literal as it is handed to the reader: one that the reader refuses
/// becomes as many zeros.
pub open spec fn defused_literal(tok: Seq<char>) -> Seq<char> {
    if number_refused(tok) {
        Seq::new(tok.len(), |i: int| '0')
    } else {
        tok
    }
}

/// The rest of the text `s` with every number literal that the reader refuses
/// replaced by zeros, reading from state `st` with `tok` the literal read so far (not
/// yet written out). Everything else is kept, so the reader finds the same tokens at
/// the same places.
pub open spec fn defused(s: Seq<char>, st: ScanState, tok: Seq<char>) -> Seq<char>
    decreases s.len(),
{
    if s.len() == 0 {
        match st {
            ScanState::InNumber => defused_literal(tok),
            _ => seq![],
        }
    } else {
        let c = s[0];
        let rest = s.drop_first();
        match st {
            ScanState::Outside => if c == '"' {
                seq![c] + defused(rest, ScanState::InString, seq![])
            } else if is_digit(c) || c == '-' {
                defused(rest, ScanState::InNumber, seq![c])
            } else {
                seq![c] + defused(rest, ScanState::Outside, seq![])
            },
            ScanState::InString => if c == '\\' {
                seq![c] + defused(rest, ScanState::Escaped, seq![])
            } else if c == '"' {
                seq![c] + defused(rest, ScanState::Outside, seq![])
            } else {
                seq![c] + defused(rest, ScanState::InString, seq![])
            },
            ScanState::Escaped => seq![c] + defused(rest, ScanState::InString, seq![]),
            ScanState::InNumber => if number_char(c) {
                defused(rest, ScanState::InNumber, tok.push(c))
            } else if c == '"' {
                defused_literal(tok) + seq![c] + defused(rest, ScanState::InString, seq![])
            } else {
                defused_literal(tok) + seq![c] + defused(rest, ScanState::Outside, seq![])
            },
        }
    }
}

/// The JSON text with every number literal that the reader refuses replaced by zeros.
pub open spec fn defused_text(text: Seq<char>) -> Seq<char> {
    defused(text, ScanState::Outside, seq![])
}

/// Reading `s` from state `st` with `tok` read so far: whether no literal finished in
/// `s` is refused, and the state and literal reached at its end.
spec fn scan(s: Seq<char>, st: ScanState, tok: Seq<char>) -> (bool, ScanState, Seq<char>)
    decreases s.len(),
{
    if s.len() == 0 {
        (true, st, tok)
    } else {
        let c = s[0];
        let rest = s.drop_first();
        match st {
            ScanState::Outside => if c == '"' {
                scan(rest, ScanState::InString, seq![])
            } else if is_digit(c) || c == '-' {
                scan(rest, ScanState::InNumber, seq![c])
            } else {
                scan(rest, ScanState::Outside, seq![])
            },
            ScanState::InString => if c == '\\' {
                scan(rest, ScanState::Escaped, seq![])
            } else if c == '"' {
                scan(rest, ScanState::Outside, seq![])
            } else {
                scan(rest, ScanState::InString, seq![])
            },
            ScanState::Escaped => scan(rest, ScanState::InString, seq![]),
            ScanState::InNumber => if number_char(c) {
                scan(rest, ScanState::InNumber, tok.push(c))
            } else {
                let r = if c == '"' {
                    scan(rest, ScanState::InString, seq![])
                } else {
                    scan(rest, ScanState::Outside, seq![])
                };
                (!number_refused(tok) && r.0, r.1, r.2)
            },
        }
    }
}

/// The end of a text read from the state and literal reached.
spec fn end_fine(st: ScanState, tok: Seq<char>) -> bool {
    match st {
        ScanState::InNumber => !number_refused(tok),
        _ => true,
    }
}

proof fn lemma_numbers_fine_by_scan(s: Seq<char>, st: ScanState, tok: Seq<char>)
    ensures
        numbers_fine(s, st, tok) == (scan(s, st, tok).0 && end_fine(scan(s, st, tok).1, scan(s, st, tok).2)),
    decreases s.len(),
{
    if s.len() > 0 {
        let c = s[0];
        let rest = s.drop_first();
        match st {
            ScanState::Outside => if c == '"' {
                lemma_numbers_fine_by_scan(rest, ScanState::InString, seq![]);
            } else if is_digit(c) || c == '-' {
                lemma_numbers_fine_by_scan(rest, ScanState::InNumber, seq![c]);
            } else {
                lemma_numbers_fine_by_scan(rest, ScanState::Outside, seq![]);
            },
            ScanState::InString => {
                lemma_numbers_fine_by_scan(rest, ScanState::Escaped, seq![]);
                lemma_numbers_fine_by_scan(rest, ScanState::Outside, seq![]);
                lemma_numbers_fine_by_scan(rest, ScanState::InString, seq![]);
            },
            ScanState::Escaped => lemma_numbers_fine_by_scan(rest, ScanState::InString, seq![]),
            ScanState::InNumber => {
                lemma_numbers_fine_by_scan(rest, ScanState::InNumber, tok.push(c));
                lemma_numbers_fine_by_scan(rest, ScanState::InString, seq![]);
                lemma_numbers_fine_by_scan(rest, ScanState::Outside, seq![]);
            },
        }
    }
}

proof fn lemma_scan_concat(a: Seq<char>, b: Seq<char>, st: ScanState, tok: Seq<char>)
    ensures
        scan(a + b, st, tok) == ({
            let r1 = scan(a, st, tok);
            let r2 = scan(b, r1.1, r1.2);
            (r1.0 && r2.0, r2.1, r2.2)
        }),
    decreases a.len(),
{
    if a.len() == 0 {
        assert(a + b =~= b);
    } else {
        let c = a[0];
        assert((a + b)[0] == c);
        assert((a + b).drop_first() =~= a.drop_first() + b);
        let rest = a.drop_first();
        lemma_scan_concat(rest, b, ScanState::InString, seq![]);
        lemma_scan_concat(rest, b, ScanState::Outside, seq![]);
        lemma_scan_concat(rest, b, ScanState::Escaped, seq![]);
        lemma_scan_concat(rest, b, ScanState::InNumber, seq![c]);
        lemma_scan_concat(rest, b, ScanState::InNumber, tok.push(c));
    }
}

/// A literal whose characters all belong in a number is read as one literal.
proof fn lemma_scan_literal(w: Seq<char>, p: Seq<char>)
    requires
        forall|i: int| 0 <= i < w.len() ==> number_char(#[trigger] w[i]),
    ensures
        scan(w, ScanState::InNumber, p) == (true, ScanState::InNumber, p + w),
    decreases w.len(),
{
    if w.len() == 0 {
        assert(p + w =~= p);
    } else {
        let rest = w.drop_first();
        assert(forall|i: int| 0 <= i < rest.len() ==> number_char(#[trigger] rest[i]) <== (
        forall|i: int| 0 <= i < rest.len() ==> rest[i] == w[i + 1]));
        lemma_scan_literal(rest, p.push(w[0]));
        assert(p.push(w[0]) + rest =~= p + w);
    }
}

/// What a number literal starts as, and what it holds.
spec fn literal_shape(tok: Seq<char>) -> bool {
    &&& tok.len() >= 1
    &&& (is_digit(tok[0]) || tok[0] == '-')
    &&& forall|i: int| 0 <= i < tok.len() ==> number_char(#[trigger] tok[i])
}

proof fn lemma_defused_literal_fine(tok: Seq<char>)
    requires
        literal_shape(tok),
    ensures
        literal_shape(defused_literal(tok)),
        !number_refused(defused_literal(tok)),
        scan(defused_literal(tok), ScanState::Outside, seq![]) == (
            true,
            ScanState::InNumber,
            defused_literal(tok),
        ),
{
    let w = defused_literal(tok);
    if number_refused(tok) {
        crate::bindings::float_literal::lemma_zeros_read_finite(tok.len());
        assert(unsigned_part(w) == w);
    }
    assert(seq![w[0]] + w.drop_first() =~= w);
    let rest = w.drop_first();
    assert(forall|i: int| 0 <= i < rest.len() ==> number_char(#[trigger] rest[i]) <== (
    forall|i: int| 0 <= i < rest.len() ==> rest[i] == w[i + 1]));
    lemma_scan_literal(rest, seq![w[0]]);
}

/// Reading the defused rest of a text (from the state that the literal being read
/// started from) finds no refused literal.
proof fn lemma_defused_fine(s: Seq<char>, st: ScanState, tok: Seq<char>)
    requires
        st is InNumber ==> literal_shape(tok),
    ensures
        ({
            let from = if st is InNumber {
                ScanState::Outside
            } else {
                st
            };
            let r = scan(defused(s, st, tok), from, seq![]);
            r.0 && end_fine(r.1, r.2)
        }),
    decreases s.len(),
{
    if s.len() == 0 {
        if st is InNumber {
            lemma_defused_literal_fine(tok);
        }
    } else {
        let c = s[0];
        let rest = s.drop_first();
        match st {
            ScanState::Outside => if c == '"' {
                lemma_defused_fine(rest, ScanState::InString, seq![]);
                let x = defused(rest, ScanState::InString, seq![]);
                assert((seq![c] + x)[0] == c);
                assert((seq![c] + x).drop_first() =~= x);
            } else if is_digit(c) || c == '-' {
                assert(seq![c][0] == c);
                assert(literal_shape(seq![c]));
                lemma_defused_fine(rest, ScanState::InNumber, seq![c]);
            } else {
                lemma_defused_fine(rest, ScanState::Outside, seq![]);
                let x = defused(rest, ScanState::Outside, seq![]);
                assert((seq![c] + x)[0] == c);
                assert((seq![c] + x).drop_first() =~= x);
            },
            ScanState::InString => {
                let nx = if c == '\\' {
                    ScanState::Escaped
                } else if c == '"' {
                    ScanState::Outside
                } else {
                    ScanState::InString
                };
                lemma_defused_fine(rest, nx, seq![]);
                let x = defused(rest, nx, seq![]);
                assert((seq![c] + x)[0] == c);
                assert((seq![c] + x).drop_first() =~= x);
            },
            ScanState::Escaped => {
                lemma_defused_fine(rest, ScanState::InString, seq![]);
                let x = defused(rest, ScanState::InString, seq![]);
                assert((seq![c] + x)[0] == c);
                assert((seq![c] + x).drop_first() =~= x);
            },
            ScanState::InNumber => if number_char(c) {
                let t2 = tok.push(c);
                assert(forall|i: int| 0 <= i < t2.len() ==> number_char(#[trigger] t2[i]) <== (
                forall|i: int| 0 <= i < tok.len() ==> t2[i] == tok[i]));
                assert(t2[0] == tok[0]);
                assert(literal_shape(t2));
                lemma_defused_fine(rest, ScanState::InNumber, t2);
            } else {
                let nx = if c == '"' {
                    ScanState::InString
                } else {
                    ScanState::Outside
                };
                lemma_defused_fine(rest, nx, seq![]);
                let w = defused_literal(tok);
                let x = defused(rest, nx, seq![]);
                lemma_defused_literal_fine(tok);
                lemma_scan_concat(w + seq![c], x, ScanState::Outside, seq![]);
                lemma_scan_concat(w, seq![c], ScanState::Outside, seq![]);
                assert(seq![c].drop_first() =~= Seq::<char>::empty());
                assert(seq![c][0] == c);
                assert(scan(Seq::<char>::empty(), nx, seq![]) == (true, nx, Seq::<char>::empty()));
                assert(scan(seq![c], ScanState::InNumber, w) == (true, nx, Seq::<char>::empty()));
                assert(scan(w + seq![c], ScanState::Outside, seq![]) == (true, nx, Seq::<char>::empty()));
            },
        }
    }
}

/// The defused text holds no number literal that the reader refuses.
pub proof fn lemma_defused_text_accepted(text: Seq<char>)
    ensures
        json_numbers_accepted(defused_text(text)),
{
    lemma_defused_fine(text, ScanState::Outside, seq![]);
    lemma_numbers_fine_by_scan(defused_text(text), ScanState::Outside, seq![]);
}

/// The value that `smoljson`'s reader makes of a JSON text, in this library's model;
/// `None` where the reader rejects the text.
pub uninterp spec fn json_text_value(text: Seq<char>) -> Option<JsonValue>;

/// Converts a value that `smoljson` read into this library's model, variant for
/// variant: strings and keys as owned strings, numbers as their printed text,
/// arrays and objects (whose entries `smoljson` keeps in key order) element by element.
#[verifier::external_body]
fn json_value_from(v: smoljson::ValOwn) -> JsonValue {
    match v {
        smoljson::Value::Null => JsonValue::Null,
        smoljson::Value::Bool(b) => JsonValue::Bool(b),
        smoljson::Value::Num(n) => JsonValue::Number(n.to_string()),
        smoljson::Value::Str(s) => JsonValue::Str(s.into_owned()),
        smoljson::Value::Array(a) => JsonValue::Array(a.into_iter().map(json_value_from).collect()),
        smoljson::Value::Object(o) => JsonValue::Object(
            o.into_iter().map(|(k, v)| (k.into_owned(), json_value_from(v))).collect(),
        ),
    }
}

/// Reads a JSON text with `smoljson` (`str::parse::<smoljson::ValOwn>`, its default
/// dialect) and converts the value. The contract claims that the outcome depends on
/// the text alone: the same text always gives the same value, or always an error.
/// What the reader accepts and what it makes of a text are left to its source; a
/// very deeply nested text may exhaust the stack of its recursive reader.
/// With debug assertions the reader fails an internal check on a negative zero
/// integer (`-0`) and on a number literal whose `f64` value is infinite (`1e999`);
/// texts holding either are left out. Whether a literal reads as infinite is taken
/// as `str::parse::<f64>` reads it (see `float_literal`): rounded to nearest, with an
/// exponent that stops taking digits once it reaches 65536.
#[verifier::external_body]
fn read_json(text: &str) -> (r: Result<JsonValue, smoljson::Error>)
    requires
        json_numbers_accepted(text@),
    ensures
        r is Ok <==> json_text_value(text@) is Some,
        r matches Ok(v) ==> json_text_value(text@) == Some(v),
{
    match text.parse::<smoljson::ValOwn>() {
        Ok(v) => Ok(json_value_from(v)),
        Err(e) => Err(e),
    }
}

/// The text of a `smoljson` reading error, as its `Debug` formatting prints it.
#[verifier::external_body]
fn json_error_text(e: &smoljson::Error) -> String {
    format!("{:?}", e)
}

/// Why the cimgui metadata could not be read.
#[derive(Clone, Debug, PartialEq, Eq)]
pub enum MetadataError {
    /// The text is not JSON; `detail` is the reader's error.
    Parse { detail: String },
    /// No `enums` object in the structs and enums file.
    NoEnums,
    /// No `structs` object in the structs and enums file.
    NoStructs,
    /// The definitions file does not hold an object.
    DefinitionsNotObject,
    /// The overloads of a definition are not an array.
    DefinitionNotArray { name: String },
    /// The `ov_cimguiname` of an overload is not a string.
    NameNotString,
    /// The text is JSON, but holds a number literal that the reader cannot take
    /// without failing an internal check: a negative zero integer, or one whose `f64`
    /// value is infinite (at least `2^1024 - 2^970`).
    UnsupportedNumber,
}

/// Reads the JSON text of a cimgui metadata file. A text holding a number literal
/// that the reader refuses is read once more with those literals written as zeros (the
/// reader then finds the same tokens at the same places): where that reading succeeds
/// the text is JSON and the answer is `UnsupportedNumber`, otherwise the reader's error.
pub fn parse_json_text(text: &str) -> (r: Result<JsonValue, MetadataError>)
    ensures
        json_numbers_accepted(text@) ==> {
            &&& r is Ok <==> json_text_value(text@) is Some
            &&& r matches Ok(v) ==> json_text_value(text@) == Some(v)
            &&& r matches Err(e) ==> e is Parse
        },
        !json_numbers_accepted(text@) ==> {
            &&& r is Err
            &&& (r matches Err(MetadataError::UnsupportedNumber)) <==> (json_text_value(
                defused_text(text@),
            ) is Some)
            &&& r matches Err(e) ==> (e is Parse || e is UnsupportedNumber)
        },
{
    if json_numbers_fit(text) {
        match read_json(text) {
            Ok(v) => Ok(v),
            Err(e) => Err(MetadataError::Parse { detail: json_error_text(&e) }),
        }
    } else {
        let safe = defuse_numbers(text);
        proof {
            lemma_defused_text_accepted(text@);
        }
        match read_json(safe.as_str()) {
            Ok(_) => Err(MetadataError::UnsupportedNumber),
            Err(e) => Err(MetadataError::Parse { detail: json_error_text(&e) }),
        }
    }
}

/// Whether the literal `cs[lo..hi]` is a negative zero integer.
fn is_negative_zero(cs: &Vec<char>, lo: usize, hi: usize) -> (r: bool)
    requires
        lo <= hi <= cs@.len(),
    ensures
        r == negative_zero(cs@.subrange(lo as int, hi as int)),
{
    let ghost tok = cs@.subrange(lo as int, hi as int);
    if hi - lo < 2 || cs[lo] != '-' {
        return false;
    }
    let mut i = lo + 1;
    while i < hi
        invariant
            lo + 1 <= i <= hi <= cs@.len(),
            tok == cs@.subrange(lo as int, hi as int),
            forall|j: int| 1 <= j < i - lo ==> tok[j] == '0',
        decreases hi - i,
    {
        if cs[i] != '0' {
            assert(tok[i - lo] != '0');
            return false;
        }
        i = i + 1;
    }
    true
}

/// Whether the literal `cs[lo..hi]` is one that the reader refuses.
fn is_refused_at(cs: &Vec<char>, lo: usize, hi: usize) -> (r: bool)
    requires
        lo <= hi <= cs@.len(),
    ensures
        r == number_refused(cs@.subrange(lo as int, hi as int)),
{
    let ghost tok = cs@.subrange(lo as int, hi as int);
    let u = if lo < hi && cs[lo] == '-' {
        lo + 1
    } else {
        lo
    };
    assert(unsigned_part(tok) =~= cs@.subrange(u as int, hi as int));
    is_negative_zero(cs, lo, hi) || reads_as_infinity_at(cs, u, hi)
}

/// `n` zeros.
fn zeros(n: usize) -> (r: String)
    ensures
        r@ == Seq::new(n as nat, |i: int| '0'),
{
    let mut r = String::new();
    let mut k: usize = 0;
    while k < n
        invariant
            k <= n,
            r@ == Seq::new(k as nat, |i: int| '0'),
        decreases n - k,
    {
        proof {
            reveal_strlit("0");
        }
        r.append("0");
        k = k + 1;
        assert(r@ =~= Seq::new(k as nat, |i: int| '0'));
    }
    r
}

/// The text with every number literal that the reader refuses replaced by zeros.
fn defuse_numbers(text: &str) -> (r: String)
    ensures
        r@ == defused_text(text@),
{
    let cs = chars_of(text);
    let n = cs.len();
    let mut out = String::new();
    let mut st = ScanState::Outside;
    let mut tok_start: usize = 0;
    let mut copied: usize = 0;
    let mut i: usize = 0;
    assert(cs@.skip(0) =~= cs@);
    assert(cs@.subrange(0, 0) =~= Seq::<char>::empty());
    assert(Seq::<char>::empty() + Seq::<char>::empty() + defused_text(text@) =~= defused_text(text@));
    while i < n
        invariant
            cs@ == text@,
            n == cs@.len(),
            i <= n,
            tok_start <= i,
            st is InNumber ==> copied <= tok_start < i,
            !(st is InNumber) ==> copied <= i,
            defused_text(text@) == out@ + cs@.subrange(
                copied as int,
                if st is InNumber {
                    tok_start as int
                } else {
                    i as int
                },
            ) + defused(
                cs@.skip(i as int),
                st,
                if st is InNumber {
                    cs@.subrange(tok_start as int, i as int)
                } else {
                    seq![]
                },
            ),
        decreases n - i,
    {
        let c = cs[i];
        assert(cs@.skip(i as int)[0] == c);
        assert(cs@.skip(i as int).drop_first() =~= cs@.skip(i + 1));
        match st {
            ScanState::Outside => {
                if ('0' <= c && c <= '9') || c == '-' {
                    st = ScanState::InNumber;
                    tok_start = i;
                    assert(cs@.subrange(i as int, i + 1) =~= seq![c]);
                } else {
                    if c == '"' {
                        st = ScanState::InString;
                    }
                    assert(cs@.subrange(copied as int, i + 1) =~= cs@.subrange(copied as int, i as int) + seq![c]);
                }
            },
            ScanState::InString => {
                if c == '\\' {
                    st = ScanState::Escaped;
                } else if c == '"' {
                    st = ScanState::Outside;
                }
                assert(cs@.subrange(copied as int, i + 1) =~= cs@.subrange(copied as int, i as int) + seq![c]);
            },
            ScanState::Escaped => {
                st = ScanState::InString;
                assert(cs@.subrange(copied as int, i + 1) =~= cs@.subrange(copied as int, i as int) + seq![c]);
            },
            ScanState::InNumber => {
                if ('0' <= c && c <= '9') || c == '.' || c == 'e' || c == 'E' || c == '+' || c
                    == '-' {
                    assert(cs@.subrange(tok_start as int, i as int).push(c) =~= cs@.subrange(
                        tok_start as int,
                        i + 1,
                    ));
                } else {
                    let ghost tok = cs@.subrange(tok_start as int, i as int);
                    let ghost c0 = copied as int;
                    let ghost before = out@;
                    let ghost nx = if c == '"' {
                        ScanState::InString
                    } else {
                        ScanState::Outside
                    };
                    let ghost x = defused(cs@.skip(i + 1), nx, seq![]);
                    assert(defused(cs@.skip(i as int), ScanState::InNumber, tok) == defused_literal(tok)
                        + seq![c] + x);
                    assert(cs@.subrange(i as int, i + 1) =~= seq![c]);
                    if is_refused_at(&cs, tok_start, i) {
                        out.append(text.substring_char(copied, tok_start));
                        let z = zeros(i - tok_start);
                        out.append(z.as_str());
                        copied = i;
                        assert(before + cs@.subrange(c0, tok_start as int) + (defused_literal(tok)
                            + seq![c] + x) =~= out@ + cs@.subrange(i as int, i + 1) + x);
                    } else {
                        assert(before + cs@.subrange(c0, tok_start as int) + (defused_literal(tok)
                            + seq![c] + x) =~= out@ + cs@.subrange(c0, i + 1) + x);
                    }
                    if c == '"' {
                        st = ScanState::InString;
                    } else {
                        st = ScanState::Outside;
                    }
                }
            },
        }
        i = i + 1;
    }
    assert(cs@.skip(i as int) =~= Seq::<char>::empty());
    if matches!(st, ScanState::InNumber) {
        let ghost tok = cs@.subrange(tok_start as int, i as int);
        let ghost c0 = copied as int;
        let ghost before = out@;
        assert(defused(cs@.skip(i as int), ScanState::InNumber, tok) == defused_literal(tok));
        if is_refused_at(&cs, tok_start, i) {
            out.append(text.substring_char(copied, tok_start));
            let z = zeros(i - tok_start);
            out.append(z.as_str());
            copied = i;
            assert(before + cs@.subrange(c0, tok_start as int) + defused_literal(tok) =~= out@
                + cs@.subrange(i as int, i as int));
        } else {
            assert(before + cs@.subrange(c0, tok_start as int) + defused_literal(tok) =~= out@
                + cs@.subrange(c0, i as int));
        }
    } else {
        assert(defused(cs@.skip(i as int), st, seq![]) =~= Seq::<char>::empty());
    }
    let ghost before = out@;
    out.append(text.substring_char(copied, i));
    assert(out@ =~= before + cs@.subrange(copied as int, i as int) + Seq::<char>::empty());
    out
}

/// Whether the text holds no number literal that the reader refuses.
fn json_numbers_fit(text: &str) -> (r: bool)
    ensures
        r == json_numbers_accepted(text@),
{
    let cs = chars_of(text);
    let mut st = ScanState::Outside;
    let mut tok_start: usize = 0;
    let mut i: usize = 0;
    assert(cs@.skip(0) =~= cs@);
    while i < cs.len()
        invariant
            cs@ == text@,
            i <= cs@.len(),
            tok_start <= i,
            json_numbers_accepted(text@) == numbers_fine(
                cs@.skip(i as int),
                st,
                if st is InNumber {
                    cs@.subrange(tok_start as int, i as int)
                } else {
                    seq![]
                },
            ),
        decreases cs@.len() - i,
    {
        let c = cs[i];
        assert(cs@.skip(i as int)[0] == c);
        assert(cs@.skip(i as int).drop_first() =~= cs@.skip(i + 1));
        match st {
            ScanState::Outside => {
                if c == '"' {
                    st = ScanState::InString;
                } else if ('0' <= c && c <= '9') || c == '-' {
                    st = ScanState::InNumber;
                    tok_start = i;
                    assert(cs@.subrange(i as int, i + 1) =~= seq![c]);
                }
            },
            ScanState::InString => {
                if c == '\\' {
                    st = ScanState::Escaped;
                } else if c == '"' {
                    st = ScanState::Outside;
                }
            },
            ScanState::Escaped => {
                st = ScanState::InString;
            },
            ScanState::InNumber => {
                if ('0' <= c && c <= '9') || c == '.' || c == 'e' || c == 'E' || c == '+' || c
                    == '-' {
                    assert(cs@.subrange(tok_start as int, i as int).push(c) =~= cs@.subrange(
                        tok_start as int,
                        i + 1,
                    ));
                } else {
                    if is_refused_at(&cs, tok_start, i) {
                        return false;
                    }
                    if c == '"' {
                        st = ScanState::InString;
                    } else {
                        st = ScanState::Outside;
                    }
                }
            },
        }
        i = i + 1;
    }
    match st {
        ScanState::InNumber => !is_refused_at(&cs, tok_start, i),
        _ => true,
    }
}

/// The value at `key` of an object: the first entry with that key, if any; none
/// for a value that is not an object (what indexing a JSON value gives as `null`).
pub open spec fn json_field(v: JsonValue, key: Seq<char>) -> Option<JsonValue> {
    match v {
        JsonValue::Object(entries) => match first_match(
            0,
            entries@.len() as int,
            |i: int| entries@[i].0@ == key,
        ) {
            Some(i) => Some(entries@[i].1),
            None => None,
        },
        _ => None,
    }
}

/// Looks up `key` in an object.
pub fn json_get<'a>(v: &'a JsonValue, key: &str) -> (r: Option<&'a JsonValue>)
    ensures
        match r {
            Some(x) => json_field(*v, key@) == Some(*x),
            None => json_field(*v, key@) is None,
        },
{
    match v {
        JsonValue::Object(entries) => {
            let ghost es = entries@;
            let ghost p = |i: int| es[i].0@ == key@;
            let mut i: usize = 0;
            while i < entries.len()
                invariant
                    es == entries@,
                    *v == JsonValue::Object(*entries),
                    p == (|i: int| es[i].0@ == key@),
                    first_match(0, es.len() as int, p) == first_match(i as int, es.len() as int, p),
                decreases es.len() - i,
            {
                if str_eq(entries[i].0.as_str(), key) {
                    return Some(&entries[i].1);
                }
                i = i + 1;
            }
            None
        },
        _ => None,
    }
}

} // verus!
