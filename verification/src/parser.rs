//! Parsing: a recursive descent over the token sequence through a single
//! forward cursor, building the value tree and enforcing JSON's nesting and
//! separator grammar.
//!
//! The parse is specified by three mutually recursive functions over token
//! models and a cursor position (`parse_value_spec`, `parse_object_spec`,
//! `parse_array_spec`); the executable parser is proved to return exactly
//! their outcome.

use vstd::prelude::*;

use crate::lexer::{JsonToken, TokenModel, tokens_view};

verus! {

/// One node of the parsed value tree. A number keeps the raw numeric text it
/// was written with, validated against the decimal grammar
/// (`spec_valid_number`); converting that text to machine floating point is
/// the caller's concern, outside this library. An object holds its entries as
/// key/value pairs with pairwise distinct keys, in no significant order.
#[derive(Debug, PartialEq)]
pub enum JsonValue {
    String(String),
    Number(String),
    Boolean(bool),
    Null,
    Array(Vec<JsonValue>),
    Object(Vec<(String, JsonValue)>),
}

/// Mathematical image of a value: text as character sequences, an array as a
/// sequence, an object as a map from key to value (so an object with a
/// repeated key collapses to its last binding, and entry order disappears).
pub enum ValueModel {
    Str(Seq<char>),
    Num(Seq<char>),
    Bool(bool),
    Null,
    Arr(Seq<ValueModel>),
    Obj(Map<Seq<char>, ValueModel>),
}

/// The models of a sequence of values, element by element.
pub open spec fn arr_view(vs: Seq<JsonValue>) -> Seq<ValueModel>
    decreases vs,
{
    if vs.len() == 0 {
        Seq::empty()
    } else {
        arr_view(vs.drop_last()).push(value_view(vs.last()))
    }
}

/// The map an entry list denotes: entries are inserted left to right, so a
/// later binding of a key overwrites an earlier one.
pub open spec fn obj_map(ps: Seq<(String, JsonValue)>) -> Map<Seq<char>, ValueModel>
    decreases ps,
{
    if ps.len() == 0 {
        Map::empty()
    } else {
        obj_map(ps.drop_last()).insert(ps.last().0@, value_view(ps.last().1))
    }
}

/// The model of one value.
pub open spec fn value_view(v: JsonValue) -> ValueModel
    decreases v,
{
    match v {
        JsonValue::String(s) => ValueModel::Str(s@),
        JsonValue::Number(s) => ValueModel::Num(s@),
        JsonValue::Boolean(b) => ValueModel::Bool(b),
        JsonValue::Null => ValueModel::Null,
        JsonValue::Array(vs) => ValueModel::Arr(arr_view(vs@)),
        JsonValue::Object(ps) => ValueModel::Obj(obj_map(ps@)),
    }
}

impl View for JsonValue {
    type V = ValueModel;

    open spec fn view(&self) -> ValueModel {
        value_view(*self)
    }
}

/// Pairwise distinct keys in an object's entry list.
pub open spec fn keys_unique(ps: Seq<(String, JsonValue)>) -> bool {
    forall|a: int, b: int| 0 <= a < b < ps.len() ==> ps[a].0@ != ps[b].0@
}

/// Well-formedness of a built value tree: every number's text satisfies the
/// numeric grammar, and every object's keys are pairwise distinct.
pub open spec fn value_wf(v: JsonValue) -> bool
    decreases v,
{
    match v {
        JsonValue::String(_) => true,
        JsonValue::Number(s) => spec_valid_number(s@),
        JsonValue::Boolean(_) => true,
        JsonValue::Null => true,
        JsonValue::Array(vs) => forall|k: int| 0 <= k < vs@.len() ==> value_wf(#[trigger] vs@[k]),
        JsonValue::Object(ps) => keys_unique(ps@) && forall|k: int|
            0 <= k < ps@.len() ==> value_wf(#[trigger] ps@[k].1),
    }
}

/// The ways parsing can fail. Each variant carries the offending token (or
/// its absence) or the offending raw text.
#[derive(Debug, PartialEq)]
pub enum JsonParseError {
    NoTokens,
    ExpectedObjectOrArrayAsRoot(JsonToken),
    ExpectedEndOfObject,
    ExpectedEndOfArray,
    ExpectedObjectKey(JsonToken),
    ExpectedColonAfterKey(Option<JsonToken>),
    ExpectedCommaOrEndOfObject(Option<JsonToken>),
    ExpectedCommaOrEndOfArray(Option<JsonToken>),
    InvalidValue(Option<JsonToken>),
    InvalidNumberValue(String),
    InvalidBooleanValue(String),
    InvalidNullValue(String),
    TrailingComma,
}

/// Mathematical image of a parse failure.
pub enum ParseErrorModel {
    NoTokens,
    ExpectedObjectOrArrayAsRoot(TokenModel),
    ExpectedEndOfObject,
    ExpectedEndOfArray,
    ExpectedObjectKey(TokenModel),
    ExpectedColonAfterKey(Option<TokenModel>),
    ExpectedCommaOrEndOfObject(Option<TokenModel>),
    ExpectedCommaOrEndOfArray(Option<TokenModel>),
    InvalidValue(Option<TokenModel>),
    InvalidNumberValue(Seq<char>),
    InvalidBooleanValue(Seq<char>),
    InvalidNullValue(Seq<char>),
    TrailingComma,
}

impl View for JsonParseError {
    type V = ParseErrorModel;

    open spec fn view(&self) -> ParseErrorModel {
        match self {
            JsonParseError::NoTokens => ParseErrorModel::NoTokens,
            JsonParseError::ExpectedObjectOrArrayAsRoot(t) => {
                ParseErrorModel::ExpectedObjectOrArrayAsRoot(t@)
            },
            JsonParseError::ExpectedEndOfObject => ParseErrorModel::ExpectedEndOfObject,
            JsonParseError::ExpectedEndOfArray => ParseErrorModel::ExpectedEndOfArray,
            JsonParseError::ExpectedObjectKey(t) => ParseErrorModel::ExpectedObjectKey(t@),
            JsonParseError::ExpectedColonAfterKey(o) => {
                ParseErrorModel::ExpectedColonAfterKey(
                    match o {
                        Some(t) => Some(t@),
                        None => None,
                    },
                )
            },
            JsonParseError::ExpectedCommaOrEndOfObject(o) => {
                ParseErrorModel::ExpectedCommaOrEndOfObject(
                    match o {
                        Some(t) => Some(t@),
                        None => None,
                    },
                )
            },
            JsonParseError::ExpectedCommaOrEndOfArray(o) => {
                ParseErrorModel::ExpectedCommaOrEndOfArray(
                    match o {
                        Some(t) => Some(t@),
                        None => None,
                    },
                )
            },
            JsonParseError::InvalidValue(o) => {
                ParseErrorModel::InvalidValue(
                    match o {
                        Some(t) => Some(t@),
                        None => None,
                    },
                )
            },
            JsonParseError::InvalidNumberValue(s) => ParseErrorModel::InvalidNumberValue(s@),
            JsonParseError::InvalidBooleanValue(s) => ParseErrorModel::InvalidBooleanValue(s@),
            JsonParseError::InvalidNullValue(s) => ParseErrorModel::InvalidNullValue(s@),
            JsonParseError::TrailingComma => ParseErrorModel::TrailingComma,
        }
    }
}

/// A decimal digit.
pub open spec fn spec_is_digit(c: char) -> bool {
    c == '0' || c == '1' || c == '2' || c == '3' || c == '4' || c == '5' || c == '6' || c == '7'
        || c == '8' || c == '9'
}

/// A sign character.
pub open spec fn spec_is_sign(c: char) -> bool {
    c == '+' || c == '-'
}

/// The first position at or after `i` that does not hold a decimal digit.
pub open spec fn digits_end(s: Seq<char>, i: int) -> int
    decreases s.len() - i,
{
    if i < 0 || i >= s.len() {
        i
    } else if spec_is_digit(s[i]) {
        digits_end(s, i + 1)
    } else {
        i
    }
}

/// Case-insensitive equality with an ASCII letter given in both cases.
pub open spec fn spec_ci_eq(c: char, lower: char, upper: char) -> bool {
    c == lower || c == upper
}

/// One of the special spellings `inf`, `infinity`, `nan` (case-insensitive)
/// filling `s` from position `i` to the end.
pub open spec fn spec_special_body(s: Seq<char>, i: int) -> bool {
    ||| (s.len() - i == 3 && spec_ci_eq(s[i], 'i', 'I') && spec_ci_eq(s[i + 1], 'n', 'N')
        && spec_ci_eq(s[i + 2], 'f', 'F'))
    ||| (s.len() - i == 8 && spec_ci_eq(s[i], 'i', 'I') && spec_ci_eq(s[i + 1], 'n', 'N')
        && spec_ci_eq(s[i + 2], 'f', 'F') && spec_ci_eq(s[i + 3], 'i', 'I') && spec_ci_eq(
        s[i + 4],
        'n',
        'N',
    ) && spec_ci_eq(s[i + 5], 'i', 'I') && spec_ci_eq(s[i + 6], 't', 'T') && spec_ci_eq(
        s[i + 7],
        'y',
        'Y',
    ))
    ||| (s.len() - i == 3 && spec_ci_eq(s[i], 'n', 'N') && spec_ci_eq(s[i + 1], 'a', 'A')
        && spec_ci_eq(s[i + 2], 'n', 'N'))
}

/// An optional exponent part (`e`/`E`, optional sign, at least one digit)
/// filling `s` from position `i` to the end — or `i` already at the end.
pub open spec fn spec_exponent_or_end(s: Seq<char>, i: int) -> bool {
    if i == s.len() {
        true
    } else if 0 <= i < s.len() && (s[i] == 'e' || s[i] == 'E') {
        let j = if i + 1 < s.len() && spec_is_sign(s[i + 1]) {
            i + 2
        } else {
            i + 1
        };
        let d = digits_end(s, j);
        d > j && d == s.len()
    } else {
        false
    }
}

/// A decimal mantissa (digits with an optional fraction, at least one digit
/// in all) followed by an optional exponent, filling `s` from position `i`.
pub open spec fn spec_decimal_body(s: Seq<char>, i: int) -> bool {
    let d1 = digits_end(s, i);
    if 0 <= d1 < s.len() && s[d1] == '.' {
        let d2 = digits_end(s, d1 + 1);
        (d1 > i || d2 > d1 + 1) && spec_exponent_or_end(s, d2)
    } else {
        d1 > i && spec_exponent_or_end(s, d1)
    }
}

/// Numeric text accepted by the value stage: the documented grammar of
/// Rust's string-to-double conversion — an optional sign, then either one of
/// the special spellings or a decimal mantissa with optional exponent.
pub open spec fn spec_valid_number(s: Seq<char>) -> bool {
    let i = if s.len() > 0 && spec_is_sign(s[0]) {
        1int
    } else {
        0int
    };
    spec_special_body(s, i) || spec_decimal_body(s, i)
}

/// Whether `c` is a decimal digit.
fn is_digit(c: char) -> (r: bool)
    ensures
        r == spec_is_digit(c),
{
    match c {
        '0' | '1' | '2' | '3' | '4' | '5' | '6' | '7' | '8' | '9' => true,
        _ => false,
    }
}

/// The first position at or after `from` that does not hold a decimal digit.
fn scan_digits(cs: &Vec<char>, from: usize) -> (r: usize)
    requires
        from <= cs.len(),
    ensures
        r == digits_end(cs@, from as int),
        from <= r <= cs.len(),
{
    let n = cs.len();
    let mut j = from;
    while j < n && is_digit(cs[j])
        invariant
            from <= j <= n,
            n == cs.len(),
            digits_end(cs@, from as int) == digits_end(cs@, j as int),
        decreases n - j,
    {
        j = j + 1;
    }
    j
}

/// The exponent-or-end rule of the numeric grammar, from position `i`.
fn exponent_or_end(cs: &Vec<char>, i: usize) -> (r: bool)
    requires
        i <= cs.len(),
    ensures
        r == spec_exponent_or_end(cs@, i as int),
{
    let n = cs.len();
    if i == n {
        return true;
    }
    let c = cs[i];
    if c == 'e' || c == 'E' {
        let j: usize = if i + 1 < n && (cs[i + 1] == '+' || cs[i + 1] == '-') {
            i + 2
        } else {
            i + 1
        };
        let d = scan_digits(cs, j);
        d > j && d == n
    } else {
        false
    }
}

/// Whether `s` is numeric text: the documented grammar of Rust's
/// string-to-double conversion (`spec_valid_number`).
pub fn is_valid_number(s: &String) -> (r: bool)
    ensures
        r == spec_valid_number(s@),
{
    let cs: Vec<char> = crate::lexer::chars_of(s.as_str());
    let n: usize = cs.len();
    let mut i: usize = 0;
    if n > 0 && (cs[0] == '+' || cs[0] == '-') {
        i = 1;
    }
    if n - i == 3 {
        if (cs[i] == 'i' || cs[i] == 'I') && (cs[i + 1] == 'n' || cs[i + 1] == 'N') && (cs[i + 2]
            == 'f' || cs[i + 2] == 'F') {
            return true;
        }
        if (cs[i] == 'n' || cs[i] == 'N') && (cs[i + 1] == 'a' || cs[i + 1] == 'A') && (cs[i + 2]
            == 'n' || cs[i + 2] == 'N') {
            return true;
        }
    }
    if n - i == 8 {
        if (cs[i] == 'i' || cs[i] == 'I') && (cs[i + 1] == 'n' || cs[i + 1] == 'N') && (cs[i + 2]
            == 'f' || cs[i + 2] == 'F') && (cs[i + 3] == 'i' || cs[i + 3] == 'I') && (cs[i + 4]
            == 'n' || cs[i + 4] == 'N') && (cs[i + 5] == 'i' || cs[i + 5] == 'I') && (cs[i + 6]
            == 't' || cs[i + 6] == 'T') && (cs[i + 7] == 'y' || cs[i + 7] == 'Y') {
            return true;
        }
    }
    let d1 = scan_digits(&cs, i);
    if d1 < n && cs[d1] == '.' {
        let d2 = scan_digits(&cs, d1 + 1);
        if d1 == i && d2 == d1 + 1 {
            return false;
        }
        exponent_or_end(&cs, d2)
    } else {
        if d1 == i {
            return false;
        }
        exponent_or_end(&cs, d1)
    }
}

/// The value parsed at position `i`, with the position after it: a scalar
/// token becomes a scalar value after its deferred validation, an opening
/// brace or bracket recurses into the object or array rule, and anything
/// else — or a missing token — is invalid here.
pub open spec fn parse_value_spec(toks: Seq<TokenModel>, i: int) -> Result<
    (ValueModel, int),
    ParseErrorModel,
>
    decreases toks.len() - i, 0int,
{
    if i < 0 || i >= toks.len() {
        Err(ParseErrorModel::InvalidValue(None))
    } else {
        match toks[i] {
            TokenModel::Str(text) => Ok((ValueModel::Str(text), i + 1)),
            TokenModel::Num(text) => if spec_valid_number(text) {
                Ok((ValueModel::Num(text), i + 1))
            } else {
                Err(ParseErrorModel::InvalidNumberValue(text))
            },
            TokenModel::Bool(text) => if text == "true"@ {
                Ok((ValueModel::Bool(true), i + 1))
            } else if text == "false"@ {
                Ok((ValueModel::Bool(false), i + 1))
            } else {
                Err(ParseErrorModel::InvalidBooleanValue(text))
            },
            TokenModel::Nul(text) => if text == "null"@ {
                Ok((ValueModel::Null, i + 1))
            } else {
                Err(ParseErrorModel::InvalidNullValue(text))
            },
            TokenModel::OpenBrace => parse_object_spec(toks, i + 1, Map::empty(), false),
            TokenModel::OpenBracket => parse_array_spec(toks, i + 1, Seq::empty(), false),
            _ => Err(ParseErrorModel::InvalidValue(Some(toks[i]))),
        }
    }
}

/// The object rule from position `i`, with entries `m` already collected and
/// `comma` recording whether a comma separator was seen: a closing brace
/// completes the object (or reports the trailing comma), otherwise a
/// string key, a colon and a value are required, then a comma or the closing
/// brace.
pub open spec fn parse_object_spec(
    toks: Seq<TokenModel>,
    i: int,
    m: Map<Seq<char>, ValueModel>,
    comma: bool,
) -> Result<(ValueModel, int), ParseErrorModel>
    decreases toks.len() - i, 1int,
{
    if i < 0 || i >= toks.len() {
        Err(ParseErrorModel::ExpectedEndOfObject)
    } else {
        match toks[i] {
            TokenModel::CloseBrace => if comma {
                Err(ParseErrorModel::TrailingComma)
            } else {
                Ok((ValueModel::Obj(m), i + 1))
            },
            TokenModel::Str(key) => {
                if i + 1 >= toks.len() {
                    Err(ParseErrorModel::ExpectedColonAfterKey(None))
                } else if !(toks[i + 1] is Colon) {
                    Err(ParseErrorModel::ExpectedColonAfterKey(Some(toks[i + 1])))
                } else {
                    match parse_value_spec(toks, i + 2) {
                        Err(e) => Err(e),
                        Ok((v, j)) => {
                            let m2 = m.insert(key, v);
                            if j >= toks.len() {
                                Err(ParseErrorModel::ExpectedCommaOrEndOfObject(None))
                            } else if toks[j] is Comma {
                                if i + 2 < j {
                                    parse_object_spec(toks, j + 1, m2, true)
                                } else {
                                    // never reached: a parsed value ends past
                                    // where it began (lemma_parse_value_spec_in_bounds);
                                    // this branch only makes the recursion's
                                    // measure evident
                                    Err(ParseErrorModel::ExpectedEndOfObject)
                                }
                            } else if toks[j] is CloseBrace {
                                Ok((ValueModel::Obj(m2), j + 1))
                            } else {
                                Err(ParseErrorModel::ExpectedCommaOrEndOfObject(Some(toks[j])))
                            }
                        },
                    }
                }
            },
            _ => Err(ParseErrorModel::ExpectedObjectKey(toks[i])),
        }
    }
}

/// The array rule from position `i`, with elements `elems` already collected
/// and `comma` recording whether a comma separator was seen: a closing
/// bracket completes the array (or reports the trailing comma), otherwise a
/// value is required, then a comma or the closing bracket.
pub open spec fn parse_array_spec(
    toks: Seq<TokenModel>,
    i: int,
    elems: Seq<ValueModel>,
    comma: bool,
) -> Result<(ValueModel, int), ParseErrorModel>
    decreases toks.len() - i, 1int,
{
    if i < 0 || i >= toks.len() {
        Err(ParseErrorModel::ExpectedEndOfArray)
    } else if toks[i] is CloseBracket {
        if comma {
            Err(ParseErrorModel::TrailingComma)
        } else {
            Ok((ValueModel::Arr(elems), i + 1))
        }
    } else {
        match parse_value_spec(toks, i) {
            Err(e) => Err(e),
            Ok((v, j)) => {
                if j >= toks.len() {
                    Err(ParseErrorModel::ExpectedCommaOrEndOfArray(None))
                } else if toks[j] is Comma {
                    if i < j {
                        parse_array_spec(toks, j + 1, elems.push(v), true)
                    } else {
                        // never reached: a parsed value ends past where it
                        // began (lemma_parse_value_spec_in_bounds); this
                        // branch only makes the recursion's measure evident
                        Err(ParseErrorModel::ExpectedEndOfArray)
                    }
                } else if toks[j] is CloseBracket {
                    Ok((ValueModel::Arr(elems.push(v)), j + 1))
                } else {
                    Err(ParseErrorModel::ExpectedCommaOrEndOfArray(Some(toks[j])))
                }
            },
        }
    }
}

/// The value of a whole token sequence: the root must open an object or an
/// array; tokens after the root value are ignored.
pub open spec fn parse_spec(toks: Seq<TokenModel>) -> Result<ValueModel, ParseErrorModel> {
    if toks.len() == 0 {
        Err(ParseErrorModel::NoTokens)
    } else if toks[0] is OpenBrace {
        match parse_object_spec(toks, 1, Map::empty(), false) {
            Ok((v, _)) => Ok(v),
            Err(e) => Err(e),
        }
    } else if toks[0] is OpenBracket {
        match parse_array_spec(toks, 1, Seq::empty(), false) {
            Ok((v, _)) => Ok(v),
            Err(e) => Err(e),
        }
    } else {
        Err(ParseErrorModel::ExpectedObjectOrArrayAsRoot(toks[0]))
    }
}

/// A successfully parsed value ends strictly past where it began and within
/// the token sequence.
pub proof fn lemma_parse_value_spec_in_bounds(toks: Seq<TokenModel>, i: int)
    ensures
        parse_value_spec(toks, i) matches Ok((v, j)) ==> i < j <= toks.len(),
    decreases toks.len() - i, 0int,
{
    if 0 <= i < toks.len() {
        match toks[i] {
            TokenModel::OpenBrace => {
                lemma_parse_object_spec_in_bounds(toks, i + 1, Map::empty(), false);
            },
            TokenModel::OpenBracket => {
                lemma_parse_array_spec_in_bounds(toks, i + 1, Seq::empty(), false);
            },
            _ => {},
        }
    }
}

/// The object rule's successful outcome also stays in bounds.
pub proof fn lemma_parse_object_spec_in_bounds(
    toks: Seq<TokenModel>,
    i: int,
    m: Map<Seq<char>, ValueModel>,
    comma: bool,
)
    ensures
        parse_object_spec(toks, i, m, comma) matches Ok((v, j)) ==> i < j <= toks.len(),
    decreases toks.len() - i, 1int,
{
    if 0 <= i < toks.len() {
        match toks[i] {
            TokenModel::Str(key) => {
                if i + 1 < toks.len() && toks[i + 1] is Colon {
                    lemma_parse_value_spec_in_bounds(toks, i + 2);
                    match parse_value_spec(toks, i + 2) {
                        Ok((v, j)) => {
                            if j < toks.len() && toks[j] is Comma && i + 2 < j {
                                lemma_parse_object_spec_in_bounds(toks, j + 1, m.insert(key, v),
                                    true);
                            }
                        },
                        Err(_) => {},
                    }
                }
            },
            _ => {},
        }
    }
}

/// The array rule's successful outcome also stays in bounds.
pub proof fn lemma_parse_array_spec_in_bounds(
    toks: Seq<TokenModel>,
    i: int,
    elems: Seq<ValueModel>,
    comma: bool,
)
    ensures
        parse_array_spec(toks, i, elems, comma) matches Ok((v, j)) ==> i < j <= toks.len(),
    decreases toks.len() - i, 1int,
{
    if 0 <= i < toks.len() && !(toks[i] is CloseBracket) {
        lemma_parse_value_spec_in_bounds(toks, i);
        match parse_value_spec(toks, i) {
            Ok((v, j)) => {
                if j < toks.len() && toks[j] is Comma && i < j {
                    lemma_parse_array_spec_in_bounds(toks, j + 1, elems.push(v), true);
                }
            },
            Err(_) => {},
        }
    }
}

/// Parsing is deterministic: the outcome is a function of the token sequence
/// alone (`parse_spec`), so any two outcomes that `parser`'s contract allows
/// on the same tokens are the same.
pub proof fn lemma_parser_deterministic(
    toks: Seq<TokenModel>,
    r1: Result<ValueModel, ParseErrorModel>,
    r2: Result<ValueModel, ParseErrorModel>,
)
    requires
        r1 == parse_spec(toks),
        r2 == parse_spec(toks),
    ensures
        r1 == r2,
{
}

/// A comma immediately followed by the closing brace fails the object rule
/// with `TrailingComma`, whatever entries were collected before.
pub proof fn lemma_trailing_comma_object(
    toks: Seq<TokenModel>,
    i: int,
    m: Map<Seq<char>, ValueModel>,
)
    requires
        0 <= i < toks.len(),
        toks[i] is CloseBrace,
    ensures
        parse_object_spec(toks, i, m, true) == Err::<(ValueModel, int), ParseErrorModel>(
            ParseErrorModel::TrailingComma,
        ),
{
}

/// A comma immediately followed by the closing bracket fails the array rule
/// with `TrailingComma`, whatever elements were collected before.
pub proof fn lemma_trailing_comma_array(toks: Seq<TokenModel>, i: int, elems: Seq<ValueModel>)
    requires
        0 <= i < toks.len(),
        toks[i] is CloseBracket,
    ensures
        parse_array_spec(toks, i, elems, true) == Err::<(ValueModel, int), ParseErrorModel>(
            ParseErrorModel::TrailingComma,
        ),
{
}

/// A token sequence whose first token opens neither an object nor an array
/// is rejected as root with that token, whatever follows it.
pub proof fn lemma_root_must_open(toks: Seq<TokenModel>)
    requires
        toks.len() > 0,
        !(toks[0] is OpenBrace),
        !(toks[0] is OpenBracket),
    ensures
        parse_spec(toks) == Err::<ValueModel, ParseErrorModel>(
            ParseErrorModel::ExpectedObjectOrArrayAsRoot(toks[0]),
        ),
{
}

proof fn lemma_object_spec_yields_object(
    toks: Seq<TokenModel>,
    i: int,
    m: Map<Seq<char>, ValueModel>,
    comma: bool,
)
    ensures
        parse_object_spec(toks, i, m, comma) matches Ok((v, j)) ==> v is Obj,
    decreases toks.len() - i, 1int,
{
    if 0 <= i < toks.len() {
        match toks[i] {
            TokenModel::Str(key) => {
                if i + 1 < toks.len() && toks[i + 1] is Colon {
                    match parse_value_spec(toks, i + 2) {
                        Ok((v, j)) => {
                            if j < toks.len() && toks[j] is Comma && i + 2 < j {
                                lemma_object_spec_yields_object(toks, j + 1, m.insert(key, v),
                                    true);
                            }
                        },
                        Err(_) => {},
                    }
                }
            },
            _ => {},
        }
    }
}

proof fn lemma_array_spec_yields_array(
    toks: Seq<TokenModel>,
    i: int,
    elems: Seq<ValueModel>,
    comma: bool,
)
    ensures
        parse_array_spec(toks, i, elems, comma) matches Ok((v, j)) ==> v is Arr,
    decreases toks.len() - i, 1int,
{
    if 0 <= i < toks.len() && !(toks[i] is CloseBracket) {
        match parse_value_spec(toks, i) {
            Ok((v, j)) => {
                if j < toks.len() && toks[j] is Comma && i < j {
                    lemma_array_spec_yields_array(toks, j + 1, elems.push(v), true);
                }
            },
            Err(_) => {},
        }
    }
}

/// A successfully parsed root value is always an object or an array — never
/// a bare scalar.
pub proof fn lemma_root_is_container(toks: Seq<TokenModel>)
    ensures
        parse_spec(toks) matches Ok(v) ==> (v is Obj || v is Arr),
{
    if toks.len() > 0 {
        if toks[0] is OpenBrace {
            lemma_object_spec_yields_object(toks, 1, Map::empty(), false);
        } else if toks[0] is OpenBracket {
            lemma_array_spec_yields_array(toks, 1, Seq::empty(), false);
        }
    }
}

proof fn lemma_arr_view_push(vs: Seq<JsonValue>, v: JsonValue)
    ensures
        arr_view(vs.push(v)) == arr_view(vs).push(value_view(v)),
{
    assert(vs.push(v).drop_last() =~= vs);
}

proof fn lemma_obj_map_push(ps: Seq<(String, JsonValue)>, p: (String, JsonValue))
    ensures
        obj_map(ps.push(p)) == obj_map(ps).insert(p.0@, value_view(p.1)),
{
    assert(ps.push(p).drop_last() =~= ps);
}

/// Overwriting the entry that already holds a key updates the denoted map
/// the same way inserting that key does.
proof fn lemma_obj_map_update(ps: Seq<(String, JsonValue)>, idx: int, p: (String, JsonValue))
    requires
        0 <= idx < ps.len(),
        keys_unique(ps),
        ps[idx].0@ == p.0@,
    ensures
        obj_map(ps.update(idx, p)) == obj_map(ps).insert(p.0@, value_view(p.1)),
    decreases ps.len(),
{
    let ps2 = ps.update(idx, p);
    if idx == ps.len() - 1 {
        assert(ps2.drop_last() =~= ps.drop_last());
        assert(ps2.last() == p);
        assert(obj_map(ps.drop_last()).insert(p.0@, value_view(p.1)) =~= obj_map(ps).insert(
            p.0@,
            value_view(p.1),
        ));
    } else {
        assert(ps2.drop_last() =~= ps.drop_last().update(idx, p));
        assert(ps2.last() == ps.last());
        lemma_obj_map_update(ps.drop_last(), idx, p);
        // the untouched last entry's key differs from `p`'s key, so the two
        // inserts commute
        assert(ps[idx].0@ != ps.last().0@);
        assert(obj_map(ps.drop_last()).insert(p.0@, value_view(p.1)).insert(
            ps.last().0@,
            value_view(ps.last().1),
        ) =~= obj_map(ps).insert(p.0@, value_view(p.1)));
    }
}

/// Bind `key` to `value` in the entry list: overwrite the entry holding the
/// key, or append a new entry. Keys stay pairwise distinct and the denoted
/// map gains exactly this binding.
fn obj_insert(obj: &mut Vec<(String, JsonValue)>, key: String, value: JsonValue)
    requires
        keys_unique(old(obj)@),
    ensures
        keys_unique(final(obj)@),
        obj_map(final(obj)@) == obj_map(old(obj)@).insert(key@, value_view(value)),
        ((forall|k: int| 0 <= k < old(obj)@.len() ==> value_wf(#[trigger] old(obj)@[k].1))
            && value_wf(value)) ==> forall|k: int|
            0 <= k < final(obj)@.len() ==> value_wf(#[trigger] final(obj)@[k].1),
{
    let n = obj.len();
    let mut k: usize = 0;
    while k < n
        invariant
            k <= n,
            n == obj.len(),
            obj@ == old(obj)@,
            keys_unique(obj@),
            forall|a: int| 0 <= a < k ==> #[trigger] obj@[a].0@ != key@,
        decreases n - k,
    {
        if obj[k].0 == key {
            proof {
                lemma_obj_map_update(obj@, k as int, (key, value));
            }
            let ghost pre = obj@;
            obj[k] = (key, value);
            proof {
                assert forall|a: int, b: int| 0 <= a < b < obj@.len() implies obj@[a].0@
                    != obj@[b].0@ by {
                    assert(pre[a].0@ != pre[b].0@);
                    assert(obj@[a].0@ == pre[a].0@);
                    assert(obj@[b].0@ == pre[b].0@);
                }
            }
            return ;
        }
        k = k + 1;
    }
    proof {
        lemma_obj_map_push(obj@, (key, value));
    }
    obj.push((key, value));
}

/// Parse the value at position `i` of `tokens`: exactly `parse_value_spec`'s
/// outcome; on success the returned position is strictly past `i`, the tree
/// is well formed, and nothing before the returned position is re-read.
fn parse_value(tokens: &Vec<JsonToken>, i: usize) -> (r: (Result<JsonValue, JsonParseError>, usize))
    requires
        i <= tokens.len(),
    ensures
        (match r.0 {
            Ok(v) => parse_value_spec(tokens_view(tokens@), i as int) == Ok::<
                (ValueModel, int),
                ParseErrorModel,
            >((v@, r.1 as int)) && i < r.1 <= tokens.len() && value_wf(v),
            Err(e) => parse_value_spec(tokens_view(tokens@), i as int) == Err::<
                (ValueModel, int),
                ParseErrorModel,
            >(e@),
        }),
    decreases tokens.len() - i, 0int,
{
    if i >= tokens.len() {
        return (Err(JsonParseError::InvalidValue(None)), i);
    }
    match &tokens[i] {
        JsonToken::String(json_string) => {
            (Ok(JsonValue::String(json_string.clone())), i + 1)
        },
        JsonToken::Number(json_number) => {
            if is_valid_number(json_number) {
                (Ok(JsonValue::Number(json_number.clone())), i + 1)
            } else {
                (Err(JsonParseError::InvalidNumberValue(json_number.clone())), i)
            }
        },
        JsonToken::Boolean(json_boolean) => {
            let true_text = String::from_str("true");
            let false_text = String::from_str("false");
            if *json_boolean == true_text {
                (Ok(JsonValue::Boolean(true)), i + 1)
            } else if *json_boolean == false_text {
                (Ok(JsonValue::Boolean(false)), i + 1)
            } else {
                (Err(JsonParseError::InvalidBooleanValue(json_boolean.clone())), i)
            }
        },
        JsonToken::Null(json_null) => {
            let null_text = String::from_str("null");
            if *json_null == null_text {
                (Ok(JsonValue::Null), i + 1)
            } else {
                (Err(JsonParseError::InvalidNullValue(json_null.clone())), i)
            }
        },
        JsonToken::OpenCurlyBracket => parse_object(tokens, i + 1),
        JsonToken::OpenSquareBracket => parse_array(tokens, i + 1),
        _ => {
            (Err(JsonParseError::InvalidValue(Some(tokens[i].clone()))), i)
        },
    }
}

/// The object rule from position `start` (just past the opening brace):
/// exactly `parse_object_spec`'s outcome starting from no entries.
fn parse_object(tokens: &Vec<JsonToken>, start: usize) -> (r: (
    Result<JsonValue, JsonParseError>,
    usize,
))
    requires
        start <= tokens.len(),
    ensures
        (match r.0 {
            Ok(v) => parse_object_spec(tokens_view(tokens@), start as int, Map::empty(), false)
                == Ok::<(ValueModel, int), ParseErrorModel>((v@, r.1 as int)) && start < r.1
                <= tokens.len() && value_wf(v),
            Err(e) => parse_object_spec(tokens_view(tokens@), start as int, Map::empty(), false)
                == Err::<(ValueModel, int), ParseErrorModel>(e@),
        }),
    decreases tokens.len() - start, 1int,
{
    let n = tokens.len();
    let mut obj: Vec<(String, JsonValue)> = Vec::new();
    let mut cur: usize = start;
    let mut comma_after_value = false;
    let mut done = false;

    while cur < n
        invariant_except_break
            !done,
            start <= cur <= n,
            n == tokens.len(),
            keys_unique(obj@),
            forall|k: int| 0 <= k < obj@.len() ==> value_wf(#[trigger] obj@[k].1),
            parse_object_spec(tokens_view(tokens@), start as int, Map::empty(), false)
                == parse_object_spec(
                tokens_view(tokens@),
                cur as int,
                obj_map(obj@),
                comma_after_value,
            ),
        ensures
            start <= cur <= n,
            n == tokens.len(),
            keys_unique(obj@),
            forall|k: int| 0 <= k < obj@.len() ==> value_wf(#[trigger] obj@[k].1),
            done ==> start < cur && parse_object_spec(
                tokens_view(tokens@),
                start as int,
                Map::empty(),
                false,
            ) == Ok::<(ValueModel, int), ParseErrorModel>(
                (ValueModel::Obj(obj_map(obj@)), cur as int),
            ),
            !done ==> cur == n && parse_object_spec(
                tokens_view(tokens@),
                start as int,
                Map::empty(),
                false,
            ) == parse_object_spec(
                tokens_view(tokens@),
                cur as int,
                obj_map(obj@),
                comma_after_value,
            ),
        decreases n - cur,
    {
        let token = &tokens[cur];
        if let JsonToken::CloseCurlyBracket = token {
            if comma_after_value {
                return (Err(JsonParseError::TrailingComma), cur);
            } else {
                done = true;
                cur = cur + 1;
                break ;
            }
        }
        let key: String = match token {
            JsonToken::String(json_string) => json_string.clone(),
            _ => {
                return (Err(JsonParseError::ExpectedObjectKey(token.clone())), cur);
            },
        };
        if cur + 1 >= n {
            return (Err(JsonParseError::ExpectedColonAfterKey(None)), cur);
        }
        match &tokens[cur + 1] {
            JsonToken::Colon => {},
            _ => {
                return (
                    Err(JsonParseError::ExpectedColonAfterKey(Some(tokens[cur + 1].clone()))),
                    cur,
                );
            },
        }
        let (vres, j) = parse_value(tokens, cur + 2);
        let value = match vres {
            Ok(v) => v,
            Err(e) => {
                return (Err(e), j);
            },
        };
        obj_insert(&mut obj, key, value);
        if j >= n {
            return (Err(JsonParseError::ExpectedCommaOrEndOfObject(None)), j);
        }
        match &tokens[j] {
            JsonToken::Comma => {
                comma_after_value = true;
                cur = j + 1;
            },
            JsonToken::CloseCurlyBracket => {
                done = true;
                cur = j + 1;
                break ;
            },
            _ => {
                return (
                    Err(JsonParseError::ExpectedCommaOrEndOfObject(Some(tokens[j].clone()))),
                    j,
                );
            },
        }
    }

    if done {
        (Ok(JsonValue::Object(obj)), cur)
    } else {
        (Err(JsonParseError::ExpectedEndOfObject), cur)
    }
}

/// The array rule from position `start` (just past the opening bracket):
/// exactly `parse_array_spec`'s outcome starting from no elements.
fn parse_array(tokens: &Vec<JsonToken>, start: usize) -> (r: (
    Result<JsonValue, JsonParseError>,
    usize,
))
    requires
        start <= tokens.len(),
    ensures
        (match r.0 {
            Ok(v) => parse_array_spec(tokens_view(tokens@), start as int, Seq::empty(), false)
                == Ok::<(ValueModel, int), ParseErrorModel>((v@, r.1 as int)) && start < r.1
                <= tokens.len() && value_wf(v),
            Err(e) => parse_array_spec(tokens_view(tokens@), start as int, Seq::empty(), false)
                == Err::<(ValueModel, int), ParseErrorModel>(e@),
        }),
    decreases tokens.len() - start, 1int,
{
    let n = tokens.len();
    let mut arr: Vec<JsonValue> = Vec::new();
    let mut cur: usize = start;
    let mut comma_after_value = false;
    let mut done = false;

    while cur < n
        invariant_except_break
            !done,
            start <= cur <= n,
            n == tokens.len(),
            forall|k: int| 0 <= k < arr@.len() ==> value_wf(#[trigger] arr@[k]),
            parse_array_spec(tokens_view(tokens@), start as int, Seq::empty(), false)
                == parse_array_spec(
                tokens_view(tokens@),
                cur as int,
                arr_view(arr@),
                comma_after_value,
            ),
        ensures
            start <= cur <= n,
            n == tokens.len(),
            forall|k: int| 0 <= k < arr@.len() ==> value_wf(#[trigger] arr@[k]),
            done ==> start < cur && parse_array_spec(
                tokens_view(tokens@),
                start as int,
                Seq::empty(),
                false,
            ) == Ok::<(ValueModel, int), ParseErrorModel>(
                (ValueModel::Arr(arr_view(arr@)), cur as int),
            ),
            !done ==> cur == n && parse_array_spec(
                tokens_view(tokens@),
                start as int,
                Seq::empty(),
                false,
            ) == parse_array_spec(
                tokens_view(tokens@),
                cur as int,
                arr_view(arr@),
                comma_after_value,
            ),
        decreases n - cur,
    {
        let token = &tokens[cur];
        if let JsonToken::CloseSquareBracket = token {
            if comma_after_value {
                return (Err(JsonParseError::TrailingComma), cur);
            } else {
                done = true;
                cur = cur + 1;
                break ;
            }
        }
        let (vres, j) = parse_value(tokens, cur);
        let value = match vres {
            Ok(v) => v,
            Err(e) => {
                return (Err(e), j);
            },
        };
        proof {
            lemma_arr_view_push(arr@, value);
        }
        arr.push(value);
        if j >= n {
            return (Err(JsonParseError::ExpectedCommaOrEndOfArray(None)), j);
        }
        match &tokens[j] {
            JsonToken::Comma => {
                comma_after_value = true;
                cur = j + 1;
            },
            JsonToken::CloseSquareBracket => {
                done = true;
                cur = j + 1;
                break ;
            },
            _ => {
                return (
                    Err(JsonParseError::ExpectedCommaOrEndOfArray(Some(tokens[j].clone()))),
                    j,
                );
            },
        }
    }

    if done {
        (Ok(JsonValue::Array(arr)), cur)
    } else {
        (Err(JsonParseError::ExpectedEndOfArray), cur)
    }
}

/// Parse a token sequence into its value tree through a single forward
/// cursor. The result is exactly what `parse_spec` says: the root must open
/// an object or an array, every failure is the first one the rules meet, and
/// a returned tree is well formed (`value_wf`).
pub fn parser(tokens: &Vec<JsonToken>) -> (r: Result<JsonValue, JsonParseError>)
    ensures
        (match r {
            Ok(v) => parse_spec(tokens_view(tokens@)) == Ok::<ValueModel, ParseErrorModel>(v@)
                && value_wf(v),
            Err(e) => parse_spec(tokens_view(tokens@)) == Err::<ValueModel, ParseErrorModel>(e@),
        }),
{
    if tokens.len() == 0 {
        return Err(JsonParseError::NoTokens);
    }
    match &tokens[0] {
        JsonToken::OpenCurlyBracket => {
            let (res, _end) = parse_object(tokens, 1);
            match res {
                Ok(v) => Ok(v),
                Err(e) => Err(e),
            }
        },
        JsonToken::OpenSquareBracket => {
            let (res, _end) = parse_array(tokens, 1);
            match res {
                Ok(v) => Ok(v),
                Err(e) => Err(e),
            }
        },
        _ => Err(JsonParseError::ExpectedObjectOrArrayAsRoot(tokens[0].clone())),
    }
}

} // verus!
