//! Tokenization: a single left-to-right pass over the input characters that
//! produces the token sequence the parser consumes.
//!
//! The pass is specified by a character-level state machine (`lex_from`): the
//! lexer is either at top level, inside a string, inside a fixed-length
//! boolean/null literal, or inside a number run. Literal text is captured
//! raw; validating its spelling is deferred to the parser on purpose, so the
//! stage at which a misspelling is reported stays observable.

use vstd::prelude::*;

verus! {

/// One lexical unit. Literal-carrying variants hold the raw captured text;
/// validating that text (is a boolean really `true`/`false`?) is deferred to
/// the parser.
#[derive(Debug, PartialEq)]
pub enum JsonToken {
    String(String),
    Number(String),
    Boolean(String),
    Null(String),
    OpenCurlyBracket,
    CloseCurlyBracket,
    OpenSquareBracket,
    CloseSquareBracket,
    Colon,
    Comma,
}

/// The ways tokenization can fail: an unterminated string, or a character
/// that no token rule accepts.
#[derive(Debug, PartialEq)]
pub enum JsonTokenError {
    ExpectedEndOfString,
    InvalidToken(char),
}

/// Mathematical image of a token: captured text as a character sequence.
pub enum TokenModel {
    Str(Seq<char>),
    Num(Seq<char>),
    Bool(Seq<char>),
    Nul(Seq<char>),
    OpenBrace,
    CloseBrace,
    OpenBracket,
    CloseBracket,
    Colon,
    Comma,
}

impl View for JsonToken {
    type V = TokenModel;

    open spec fn view(&self) -> TokenModel {
        match self {
            JsonToken::String(s) => TokenModel::Str(s@),
            JsonToken::Number(s) => TokenModel::Num(s@),
            JsonToken::Boolean(s) => TokenModel::Bool(s@),
            JsonToken::Null(s) => TokenModel::Nul(s@),
            JsonToken::OpenCurlyBracket => TokenModel::OpenBrace,
            JsonToken::CloseCurlyBracket => TokenModel::CloseBrace,
            JsonToken::OpenSquareBracket => TokenModel::OpenBracket,
            JsonToken::CloseSquareBracket => TokenModel::CloseBracket,
            JsonToken::Colon => TokenModel::Colon,
            JsonToken::Comma => TokenModel::Comma,
        }
    }
}

impl Clone for JsonToken {
    /// A clone is equal to the original.
    fn clone(&self) -> (r: Self)
        ensures
            r == *self,
    {
        match self {
            JsonToken::String(s) => JsonToken::String(s.clone()),
            JsonToken::Number(s) => JsonToken::Number(s.clone()),
            JsonToken::Boolean(s) => JsonToken::Boolean(s.clone()),
            JsonToken::Null(s) => JsonToken::Null(s.clone()),
            JsonToken::OpenCurlyBracket => JsonToken::OpenCurlyBracket,
            JsonToken::CloseCurlyBracket => JsonToken::CloseCurlyBracket,
            JsonToken::OpenSquareBracket => JsonToken::OpenSquareBracket,
            JsonToken::CloseSquareBracket => JsonToken::CloseSquareBracket,
            JsonToken::Colon => JsonToken::Colon,
            JsonToken::Comma => JsonToken::Comma,
        }
    }
}

/// The token models of a token sequence, element by element.
pub open spec fn tokens_view(ts: Seq<JsonToken>) -> Seq<TokenModel> {
    ts.map_values(|t: JsonToken| t@)
}

/// Characters that may continue a number run.
pub open spec fn spec_is_number_char(c: char) -> bool {
    c == '-' || c == '.' || c == '0' || c == '1' || c == '2' || c == '3' || c == '4' || c == '5'
        || c == '6' || c == '7' || c == '8' || c == '9'
}

/// Whether `c` is a number run continuation character.
pub fn is_number_char(c: char) -> (r: bool)
    ensures
        r == spec_is_number_char(c),
{
    match c {
        '-' | '.' | '0' | '1' | '2' | '3' | '4' | '5' | '6' | '7' | '8' | '9' => true,
        _ => false,
    }
}

/// The structural token that may terminate a number run, if `c` is one of
/// the three delimiters that do so.
pub open spec fn spec_end_of_token_value(c: char) -> Option<TokenModel> {
    if c == ',' {
        Some(TokenModel::Comma)
    } else if c == '}' {
        Some(TokenModel::CloseBrace)
    } else if c == ']' {
        Some(TokenModel::CloseBracket)
    } else {
        None
    }
}

/// The structural token ending a number run at `c`, if any.
pub fn check_end_of_token_value(c: char) -> (r: Option<JsonToken>)
    ensures
        match r {
            Some(t) => spec_end_of_token_value(c) == Some(t@),
            None => spec_end_of_token_value(c) is None,
        },
{
    match c {
        ',' => Some(JsonToken::Comma),
        '}' => Some(JsonToken::CloseCurlyBracket),
        ']' => Some(JsonToken::CloseSquareBracket),
        _ => None,
    }
}

/// Which multi-character literal is being captured.
pub enum LitClass {
    Boolean,
    Null,
}

/// Lexer state between two characters: at top level, inside a string body,
/// inside a fixed-length literal (with the count of characters still to
/// take), or inside a number run. Each in-progress state carries the text
/// captured so far.
pub enum LexState {
    Top,
    InString(Seq<char>),
    InLiteral(LitClass, nat, Seq<char>),
    InNumber(Seq<char>),
}

/// The token a completed literal capture turns into.
pub open spec fn lit_token(class: LitClass, text: Seq<char>) -> TokenModel {
    match class {
        LitClass::Boolean => TokenModel::Bool(text),
        LitClass::Null => TokenModel::Nul(text),
    }
}

/// What the lexer produces when the input ends in state `st`: an unterminated
/// string fails, an in-progress literal or number is emitted truncated.
pub open spec fn finish_state(st: LexState) -> Result<Seq<TokenModel>, JsonTokenError> {
    match st {
        LexState::Top => Ok(Seq::empty()),
        LexState::InString(_) => Err(JsonTokenError::ExpectedEndOfString),
        LexState::InLiteral(class, _, acc) => Ok(seq![lit_token(class, acc)]),
        LexState::InNumber(acc) => Ok(seq![TokenModel::Num(acc)]),
    }
}

/// Prefix already-emitted tokens onto the outcome of the rest of the pass.
pub open spec fn prepend(ts: Seq<TokenModel>, r: Result<Seq<TokenModel>, JsonTokenError>) -> Result<
    Seq<TokenModel>,
    JsonTokenError,
> {
    match r {
        Ok(rest) => Ok(ts + rest),
        Err(e) => Err(e),
    }
}

/// Rank that orders the one state transition consuming no character:
/// emitting a literal whose last character was already taken.
pub open spec fn state_rank(st: LexState) -> int {
    match st {
        LexState::InLiteral(_, remaining, _) => if remaining == 0 {
            1int
        } else {
            0int
        },
        _ => 0int,
    }
}

/// The tokens produced from position `i` of `s` onward, starting in state
/// `st`: the lexer's single left-to-right pass, one character per step.
pub open spec fn lex_from(st: LexState, s: Seq<char>, i: int) -> Result<
    Seq<TokenModel>,
    JsonTokenError,
>
    decreases s.len() - i, state_rank(st),
{
    if i < 0 || i >= s.len() {
        finish_state(st)
    } else {
        let c = s[i];
        match st {
            LexState::Top => {
                if c == '{' {
                    prepend(seq![TokenModel::OpenBrace], lex_from(LexState::Top, s, i + 1))
                } else if c == '}' {
                    prepend(seq![TokenModel::CloseBrace], lex_from(LexState::Top, s, i + 1))
                } else if c == '[' {
                    prepend(seq![TokenModel::OpenBracket], lex_from(LexState::Top, s, i + 1))
                } else if c == ']' {
                    prepend(seq![TokenModel::CloseBracket], lex_from(LexState::Top, s, i + 1))
                } else if c == ':' {
                    prepend(seq![TokenModel::Colon], lex_from(LexState::Top, s, i + 1))
                } else if c == ',' {
                    prepend(seq![TokenModel::Comma], lex_from(LexState::Top, s, i + 1))
                } else if c == '"' {
                    lex_from(LexState::InString(Seq::empty()), s, i + 1)
                } else if c == 'f' {
                    lex_from(LexState::InLiteral(LitClass::Boolean, 4nat, seq![c]), s, i + 1)
                } else if c == 't' {
                    lex_from(LexState::InLiteral(LitClass::Boolean, 3nat, seq![c]), s, i + 1)
                } else if c == 'n' {
                    lex_from(LexState::InLiteral(LitClass::Null, 3nat, seq![c]), s, i + 1)
                } else if spec_is_number_char(c) {
                    lex_from(LexState::InNumber(seq![c]), s, i + 1)
                } else if c == ' ' || c == '\n' || c == '\t' {
                    lex_from(LexState::Top, s, i + 1)
                } else {
                    Err(JsonTokenError::InvalidToken(c))
                }
            },
            LexState::InString(acc) => {
                if c == '"' {
                    prepend(seq![TokenModel::Str(acc)], lex_from(LexState::Top, s, i + 1))
                } else {
                    lex_from(LexState::InString(acc.push(c)), s, i + 1)
                }
            },
            LexState::InLiteral(class, remaining, acc) => {
                if remaining == 0 {
                    prepend(seq![lit_token(class, acc)], lex_from(LexState::Top, s, i))
                } else {
                    lex_from(
                        LexState::InLiteral(class, (remaining - 1) as nat, acc.push(c)),
                        s,
                        i + 1,
                    )
                }
            },
            LexState::InNumber(acc) => {
                if spec_is_number_char(c) {
                    lex_from(LexState::InNumber(acc.push(c)), s, i + 1)
                } else {
                    match spec_end_of_token_value(c) {
                        Some(t) => prepend(
                            seq![TokenModel::Num(acc), t],
                            lex_from(LexState::Top, s, i + 1),
                        ),
                        None => Err(JsonTokenError::InvalidToken(c)),
                    }
                }
            },
        }
    }
}

/// The token sequence of an input text, or the first lexing failure.
pub open spec fn lex_spec(s: Seq<char>) -> Result<Seq<TokenModel>, JsonTokenError> {
    lex_from(LexState::Top, s, 0)
}

proof fn lemma_prepend_empty(r: Result<Seq<TokenModel>, JsonTokenError>)
    ensures
        prepend(Seq::empty(), r) == r,
{
    match r {
        Ok(rest) => {
            assert(Seq::empty() + rest =~= rest);
        },
        Err(_) => {},
    }
}

proof fn lemma_prepend_push(
    ts: Seq<TokenModel>,
    t: TokenModel,
    r: Result<Seq<TokenModel>, JsonTokenError>,
)
    ensures
        prepend(ts, prepend(seq![t], r)) == prepend(ts.push(t), r),
{
    match r {
        Ok(rest) => {
            assert(ts + (seq![t] + rest) =~= ts.push(t) + rest);
        },
        Err(_) => {},
    }
}

proof fn lemma_prepend_push2(
    ts: Seq<TokenModel>,
    t1: TokenModel,
    t2: TokenModel,
    r: Result<Seq<TokenModel>, JsonTokenError>,
)
    ensures
        prepend(ts, prepend(seq![t1, t2], r)) == prepend(ts.push(t1).push(t2), r),
{
    match r {
        Ok(rest) => {
            assert(ts + (seq![t1, t2] + rest) =~= ts.push(t1).push(t2) + rest);
        },
        Err(_) => {},
    }
}

proof fn lemma_tokens_view_push(ts: Seq<JsonToken>, t: JsonToken)
    ensures
        tokens_view(ts.push(t)) == tokens_view(ts).push(t@),
{
    assert(tokens_view(ts.push(t)) =~= tokens_view(ts).push(t@));
}

/// At the end of a literal capture (all characters taken, or the input ran
/// out first) the captured text is emitted as one token.
proof fn lemma_literal_exit(class: LitClass, remaining: nat, acc: Seq<char>, s: Seq<char>, i: int)
    requires
        0 <= i <= s.len(),
        remaining == 0 || i == s.len(),
    ensures
        lex_from(LexState::InLiteral(class, remaining, acc), s, i) == prepend(
            seq![lit_token(class, acc)],
            lex_from(LexState::Top, s, i),
        ),
{
    if i == s.len() {
        assert(lex_from(LexState::Top, s, i) == Ok::<Seq<TokenModel>, JsonTokenError>(
            Seq::empty(),
        ));
        assert(seq![lit_token(class, acc)] + Seq::empty() =~= seq![lit_token(class, acc)]);
    }
}

/// A number run that reaches the end of the input is emitted as one token.
proof fn lemma_number_exit(acc: Seq<char>, s: Seq<char>, i: int)
    requires
        0 <= i,
        i == s.len(),
    ensures
        lex_from(LexState::InNumber(acc), s, i) == prepend(
            seq![TokenModel::Num(acc)],
            lex_from(LexState::Top, s, i),
        ),
{
    assert(lex_from(LexState::Top, s, i) == Ok::<Seq<TokenModel>, JsonTokenError>(Seq::empty()));
    assert(seq![TokenModel::Num(acc)] + Seq::empty() =~= seq![TokenModel::Num(acc)]);
}

/// Inside a string body with no quote character until the closing quote,
/// the lexer captures exactly the characters in between.
proof fn lemma_lex_in_string(t: Seq<char>, i: int, acc: Seq<char>)
    requires
        0 <= i < t.len(),
        t[t.len() - 1] == '"',
        forall|k: int| i <= k < t.len() - 1 ==> #[trigger] t[k] != '"',
    ensures
        lex_from(LexState::InString(acc), t, i) == prepend(
            seq![TokenModel::Str(acc + t.subrange(i, t.len() - 1))],
            lex_from(LexState::Top, t, t.len() as int),
        ),
    decreases t.len() - i,
{
    if t[i] == '"' {
        assert(i == t.len() - 1);
        assert(acc + t.subrange(i, t.len() - 1) =~= acc);
    } else {
        lemma_lex_in_string(t, i + 1, acc.push(t[i]));
        assert(acc.push(t[i]) + t.subrange(i + 1, t.len() - 1) =~= acc + t.subrange(
            i,
            t.len() - 1,
        ));
    }
}

/// Any text without a quote character, wrapped in quotes, tokenizes to the
/// single string token carrying exactly that text.
pub proof fn lemma_quoted_text_single_token(s: Seq<char>)
    requires
        forall|k: int| 0 <= k < s.len() ==> #[trigger] s[k] != '"',
    ensures
        lex_spec(seq!['"'] + s + seq!['"']) == Ok::<Seq<TokenModel>, JsonTokenError>(
            seq![TokenModel::Str(s)],
        ),
{
    let t = seq!['"'] + s + seq!['"'];
    assert(t.len() == s.len() + 2);
    assert(t[0] == '"');
    assert(t[t.len() - 1] == '"');
    assert(forall|k: int| 1 <= k < t.len() - 1 ==> #[trigger] t[k] == s[k - 1]);
    lemma_lex_in_string(t, 1, Seq::empty());
    assert(Seq::empty() + t.subrange(1, t.len() - 1) =~= s);
    assert(lex_from(LexState::Top, t, t.len() as int) == Ok::<Seq<TokenModel>, JsonTokenError>(
        Seq::empty(),
    ));
    assert(seq![TokenModel::Str(s)] + Seq::empty() =~= seq![TokenModel::Str(s)]);
}

/// Tokenizing is deterministic: the outcome is a function of the input text
/// alone (`lex_spec`), so any two outcomes that `lexer`'s contract allows on
/// the same text are the same.
pub proof fn lemma_lexer_deterministic(
    s: Seq<char>,
    r1: Result<Seq<TokenModel>, JsonTokenError>,
    r2: Result<Seq<TokenModel>, JsonTokenError>,
)
    requires
        r1 == lex_spec(s),
        r2 == lex_spec(s),
    ensures
        r1 == r2,
{
}

/// Relies on `str::chars` (collected into a `Vec`): the characters of the
/// string, in order, which are exactly the string's view.
#[verifier::external_body]
pub(crate) fn chars_of(s: &str) -> (v: Vec<char>)
    ensures
        v@ == s@,
{
    s.chars().collect()
}

/// Relies on `String::push`: appends exactly the one given character.
#[verifier::external_body]
fn push_char(s: &mut String, c: char)
    ensures
        final(s)@ == old(s)@.push(c),
{
    s.push(c);
}

/// Tokenize `raw`: left to right, one character of lookahead, skipping the
/// whitespace characters space, newline and tab. The result is exactly what
/// `lex_spec` says: the full token sequence on success, the first failure
/// (`ExpectedEndOfString` or `InvalidToken`) otherwise, never anything
/// partial.
pub fn lexer(raw: String) -> (r: Result<Vec<JsonToken>, JsonTokenError>)
    ensures
        (match r {
            Ok(v) => lex_spec(raw@) == Ok::<Seq<TokenModel>, JsonTokenError>(tokens_view(v@)),
            Err(e) => lex_spec(raw@) == Err::<Seq<TokenModel>, JsonTokenError>(e),
        }),
{
    let cs: Vec<char> = chars_of(raw.as_str());
    let n: usize = cs.len();
    let mut vec: Vec<JsonToken> = Vec::new();
    let mut i: usize = 0;

    proof {
        lemma_prepend_empty(lex_from(LexState::Top, raw@, 0));
        assert(tokens_view(vec@) =~= Seq::empty());
    }

    while i < n
        invariant
            i <= n,
            n == cs.len(),
            cs@ == raw@,
            prepend(tokens_view(vec@), lex_from(LexState::Top, raw@, i as int)) == lex_spec(raw@),
        decreases n - i,
    {
        let c = cs[i];
        match c {
            '{' => {
                proof {
                    lemma_prepend_push(
                        tokens_view(vec@),
                        TokenModel::OpenBrace,
                        lex_from(LexState::Top, raw@, i + 1),
                    );
                    lemma_tokens_view_push(vec@, JsonToken::OpenCurlyBracket);
                }
                vec.push(JsonToken::OpenCurlyBracket);
                i = i + 1;
            },
            '}' => {
                proof {
                    lemma_prepend_push(
                        tokens_view(vec@),
                        TokenModel::CloseBrace,
                        lex_from(LexState::Top, raw@, i + 1),
                    );
                    lemma_tokens_view_push(vec@, JsonToken::CloseCurlyBracket);
                }
                vec.push(JsonToken::CloseCurlyBracket);
                i = i + 1;
            },
            '[' => {
                proof {
                    lemma_prepend_push(
                        tokens_view(vec@),
                        TokenModel::OpenBracket,
                        lex_from(LexState::Top, raw@, i + 1),
                    );
                    lemma_tokens_view_push(vec@, JsonToken::OpenSquareBracket);
                }
                vec.push(JsonToken::OpenSquareBracket);
                i = i + 1;
            },
            ']' => {
                proof {
                    lemma_prepend_push(
                        tokens_view(vec@),
                        TokenModel::CloseBracket,
                        lex_from(LexState::Top, raw@, i + 1),
                    );
                    lemma_tokens_view_push(vec@, JsonToken::CloseSquareBracket);
                }
                vec.push(JsonToken::CloseSquareBracket);
                i = i + 1;
            },
            ':' => {
                proof {
                    lemma_prepend_push(
                        tokens_view(vec@),
                        TokenModel::Colon,
                        lex_from(LexState::Top, raw@, i + 1),
                    );
                    lemma_tokens_view_push(vec@, JsonToken::Colon);
                }
                vec.push(JsonToken::Colon);
                i = i + 1;
            },
            ',' => {
                proof {
                    lemma_prepend_push(
                        tokens_view(vec@),
                        TokenModel::Comma,
                        lex_from(LexState::Top, raw@, i + 1),
                    );
                    lemma_tokens_view_push(vec@, JsonToken::Comma);
                }
                vec.push(JsonToken::Comma);
                i = i + 1;
            },
            '"' => {
                i = i + 1;
                let mut json_string = String::new();
                let mut done = false;
                let ghost i0: int = i as int;

                while i < n
                    invariant_except_break
                        !done,
                        i0 <= i as int,
                        i <= n,
                        n == cs.len(),
                        cs@ == raw@,
                        prepend(
                            tokens_view(vec@),
                            lex_from(LexState::InString(json_string@), raw@, i as int),
                        ) == lex_spec(raw@),
                    ensures
                        i0 <= i as int,
                        i <= n,
                        n == cs.len(),
                        cs@ == raw@,
                        done ==> prepend(
                            tokens_view(vec@),
                            prepend(
                                seq![TokenModel::Str(json_string@)],
                                lex_from(LexState::Top, raw@, i as int),
                            ),
                        ) == lex_spec(raw@),
                        !done ==> i == n && prepend(
                            tokens_view(vec@),
                            lex_from(LexState::InString(json_string@), raw@, i as int),
                        ) == lex_spec(raw@),
                    decreases n - i,
                {
                    let str_c = cs[i];
                    if str_c != '"' {
                        push_char(&mut json_string, str_c);
                        i = i + 1;
                    } else {
                        done = true;
                        i = i + 1;
                        break ;
                    }
                }

                if !done {
                    return Err(JsonTokenError::ExpectedEndOfString);
                }
                proof {
                    lemma_prepend_push(
                        tokens_view(vec@),
                        TokenModel::Str(json_string@),
                        lex_from(LexState::Top, raw@, i as int),
                    );
                    lemma_tokens_view_push(vec@, JsonToken::String(json_string));
                }
                vec.push(JsonToken::String(json_string));
            },
            'f' => {
                let mut json_false = String::new();
                push_char(&mut json_false, c);
                i = i + 1;
                let ghost i0: int = i as int;

                let mut letter_count: usize = 1;
                while letter_count < 5 && i < n
                    invariant
                        1 <= letter_count <= 5,
                        i0 <= i as int,
                        i <= n,
                        n == cs.len(),
                        cs@ == raw@,
                        prepend(
                            tokens_view(vec@),
                            lex_from(
                                LexState::InLiteral(
                                    LitClass::Boolean,
                                    (5 - letter_count) as nat,
                                    json_false@,
                                ),
                                raw@,
                                i as int,
                            ),
                        ) == lex_spec(raw@),
                    decreases 5 - letter_count,
                {
                    push_char(&mut json_false, cs[i]);
                    i = i + 1;
                    letter_count = letter_count + 1;
                }

                proof {
                    lemma_literal_exit(
                        LitClass::Boolean,
                        (5 - letter_count) as nat,
                        json_false@,
                        raw@,
                        i as int,
                    );
                    lemma_prepend_push(
                        tokens_view(vec@),
                        TokenModel::Bool(json_false@),
                        lex_from(LexState::Top, raw@, i as int),
                    );
                    lemma_tokens_view_push(vec@, JsonToken::Boolean(json_false));
                }
                vec.push(JsonToken::Boolean(json_false));
            },
            't' => {
                let mut json_true = String::new();
                push_char(&mut json_true, c);
                i = i + 1;
                let ghost i0: int = i as int;

                let mut letter_count: usize = 1;
                while letter_count < 4 && i < n
                    invariant
                        1 <= letter_count <= 4,
                        i0 <= i as int,
                        i <= n,
                        n == cs.len(),
                        cs@ == raw@,
                        prepend(
                            tokens_view(vec@),
                            lex_from(
                                LexState::InLiteral(
                                    LitClass::Boolean,
                                    (4 - letter_count) as nat,
                                    json_true@,
                                ),
                                raw@,
                                i as int,
                            ),
                        ) == lex_spec(raw@),
                    decreases 4 - letter_count,
                {
                    push_char(&mut json_true, cs[i]);
                    i = i + 1;
                    letter_count = letter_count + 1;
                }

                proof {
                    lemma_literal_exit(
                        LitClass::Boolean,
                        (4 - letter_count) as nat,
                        json_true@,
                        raw@,
                        i as int,
                    );
                    lemma_prepend_push(
                        tokens_view(vec@),
                        TokenModel::Bool(json_true@),
                        lex_from(LexState::Top, raw@, i as int),
                    );
                    lemma_tokens_view_push(vec@, JsonToken::Boolean(json_true));
                }
                vec.push(JsonToken::Boolean(json_true));
            },
            'n' => {
                let mut json_null = String::new();
                push_char(&mut json_null, c);
                i = i + 1;
                let ghost i0: int = i as int;

                let mut letter_count: usize = 1;
                while letter_count < 4 && i < n
                    invariant
                        1 <= letter_count <= 4,
                        i0 <= i as int,
                        i <= n,
                        n == cs.len(),
                        cs@ == raw@,
                        prepend(
                            tokens_view(vec@),
                            lex_from(
                                LexState::InLiteral(
                                    LitClass::Null,
                                    (4 - letter_count) as nat,
                                    json_null@,
                                ),
                                raw@,
                                i as int,
                            ),
                        ) == lex_spec(raw@),
                    decreases 4 - letter_count,
                {
                    push_char(&mut json_null, cs[i]);
                    i = i + 1;
                    letter_count = letter_count + 1;
                }

                proof {
                    lemma_literal_exit(
                        LitClass::Null,
                        (4 - letter_count) as nat,
                        json_null@,
                        raw@,
                        i as int,
                    );
                    lemma_prepend_push(
                        tokens_view(vec@),
                        TokenModel::Nul(json_null@),
                        lex_from(LexState::Top, raw@, i as int),
                    );
                    lemma_tokens_view_push(vec@, JsonToken::Null(json_null));
                }
                vec.push(JsonToken::Null(json_null));
            },
            '-' | '.' | '0' | '1' | '2' | '3' | '4' | '5' | '6' | '7' | '8' | '9' => {
                let mut json_number = String::new();
                push_char(&mut json_number, c);
                i = i + 1;
                let ghost i0: int = i as int;

                let mut end_token: Option<JsonToken> = None;
                while i < n
                    invariant_except_break
                        end_token is None,
                        i0 <= i as int,
                        i <= n,
                        n == cs.len(),
                        cs@ == raw@,
                        prepend(
                            tokens_view(vec@),
                            lex_from(LexState::InNumber(json_number@), raw@, i as int),
                        ) == lex_spec(raw@),
                    ensures
                        i0 <= i as int,
                        i <= n,
                        n == cs.len(),
                        cs@ == raw@,
                        (match end_token {
                            Some(t) => prepend(
                                tokens_view(vec@),
                                prepend(
                                    seq![TokenModel::Num(json_number@), t@],
                                    lex_from(LexState::Top, raw@, i as int),
                                ),
                            ) == lex_spec(raw@),
                            None => i == n && prepend(
                                tokens_view(vec@),
                                lex_from(LexState::InNumber(json_number@), raw@, i as int),
                            ) == lex_spec(raw@),
                        }),
                    decreases n - i,
                {
                    let num_c = cs[i];
                    if is_number_char(num_c) {
                        push_char(&mut json_number, num_c);
                        i = i + 1;
                    } else {
                        match check_end_of_token_value(num_c) {
                            Some(t) => {
                                end_token = Some(t);
                                i = i + 1;
                                break ;
                            },
                            None => {
                                return Err(JsonTokenError::InvalidToken(num_c));
                            },
                        }
                    }
                }

                match end_token {
                    Some(t) => {
                        proof {
                            lemma_prepend_push2(
                                tokens_view(vec@),
                                TokenModel::Num(json_number@),
                                t@,
                                lex_from(LexState::Top, raw@, i as int),
                            );
                            lemma_tokens_view_push(vec@, JsonToken::Number(json_number));
                            lemma_tokens_view_push(vec@.push(JsonToken::Number(json_number)), t);
                        }
                        vec.push(JsonToken::Number(json_number));
                        vec.push(t);
                    },
                    None => {
                        proof {
                            lemma_number_exit(json_number@, raw@, i as int);
                            lemma_prepend_push(
                                tokens_view(vec@),
                                TokenModel::Num(json_number@),
                                lex_from(LexState::Top, raw@, i as int),
                            );
                            lemma_tokens_view_push(vec@, JsonToken::Number(json_number));
                        }
                        vec.push(JsonToken::Number(json_number));
                    },
                }
            },
            ' ' | '\n' | '\t' => {
                i = i + 1;
            },
            _ => {
                return Err(JsonTokenError::InvalidToken(c));
            },
        }
    }

    proof {
        assert(lex_from(LexState::Top, raw@, n as int) == Ok::<Seq<TokenModel>, JsonTokenError>(
            Seq::empty(),
        ));
        assert(tokens_view(vec@) + Seq::empty() =~= tokens_view(vec@));
    }
    Ok(vec)
}

} // verus!
