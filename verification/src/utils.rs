//! The two stages chained: tokenize, then parse, stopping at the first
//! failure of either stage.

use vstd::prelude::*;

use crate::lexer::{
    JsonToken, JsonTokenError, LexState, TokenModel, lex_from, lex_spec, lexer, tokens_view,
};
use crate::parser::{
    JsonParseError, JsonValue, ParseErrorModel, ValueModel, parse_spec, parser, value_wf,
};

verus! {

/// A failure of either stage of the pipeline.
#[derive(Debug, PartialEq)]
pub enum JsonError {
    Lex(JsonTokenError),
    Parse(JsonParseError),
}

/// Tokenize `text` and parse the resulting tokens, short-circuiting on the
/// first failure: a lexing failure means the parser never runs. On success
/// both the token sequence and the well-formed value tree are returned.
pub fn parse_json(text: String) -> (r: Result<(Vec<JsonToken>, JsonValue), JsonError>)
    ensures
        (match r {
            Ok((tokens, json)) => lex_spec(text@) == Ok::<Seq<TokenModel>, JsonTokenError>(
                tokens_view(tokens@),
            ) && parse_spec(tokens_view(tokens@)) == Ok::<ValueModel, ParseErrorModel>(json@)
                && value_wf(json),
            Err(JsonError::Lex(e)) => lex_spec(text@) == Err::<Seq<TokenModel>, JsonTokenError>(e),
            Err(JsonError::Parse(e)) => lex_spec(text@) is Ok && parse_spec(
                lex_spec(text@).unwrap(),
            ) == Err::<ValueModel, ParseErrorModel>(e@),
        }),
{
    match lexer(text) {
        Ok(tokens) => {
            match parser(&tokens) {
                Ok(json) => Ok((tokens, json)),
                Err(e) => Err(JsonError::Parse(e)),
            }
        },
        Err(e) => Err(JsonError::Lex(e)),
    }
}

/// The token a lone structural character lexes to.
pub open spec fn structural_model(c: char) -> TokenModel {
    if c == '{' {
        TokenModel::OpenBrace
    } else if c == '}' {
        TokenModel::CloseBrace
    } else if c == '[' {
        TokenModel::OpenBracket
    } else {
        TokenModel::CloseBracket
    }
}

/// Text made only of the two structural pairs `{}` and `[]`, flat (never
/// nested) and balanced: every even position opens a pair that the next
/// position closes.
pub open spec fn spec_flat_pairs(s: Seq<char>) -> bool {
    s.len() % 2 == 0 && forall|k: int|
        0 <= k < s.len() && k % 2 == 0 ==> (((#[trigger] s[k]) == '{' && s[k + 1] == '}') || (s[k]
            == '[' && s[k + 1] == ']'))
}

/// Text made only of the four structural characters lexes to their tokens,
/// one each, with no failure.
proof fn lemma_lex_structural(s: Seq<char>, i: int)
    requires
        0 <= i <= s.len(),
        forall|k: int|
            0 <= k < s.len() ==> ((#[trigger] s[k]) == '{' || s[k] == '}' || s[k] == '[' || s[k]
                == ']'),
    ensures
        lex_from(LexState::Top, s, i) == Ok::<Seq<TokenModel>, JsonTokenError>(
            Seq::new((s.len() - i) as nat, |j: int| structural_model(s[i + j])),
        ),
    decreases s.len() - i,
{
    if i == s.len() {
        assert(Seq::new(0nat, |j: int| structural_model(s[i + j])) =~= Seq::empty());
    } else {
        lemma_lex_structural(s, i + 1);
        assert(seq![structural_model(s[i])] + Seq::new(
            (s.len() - i - 1) as nat,
            |j: int| structural_model(s[i + 1 + j]),
        ) =~= Seq::new((s.len() - i) as nat, |j: int| structural_model(s[i + j])));
    }
}

/// Any input made only of the structural pairs `{}` and `[]`, flat and
/// balanced, tokenizes successfully, and parsing the tokens succeeds and
/// yields the empty object or the empty array that the input's first pair
/// spells.
pub proof fn lemma_flat_pairs_parse(s: Seq<char>)
    requires
        spec_flat_pairs(s),
        s.len() > 0,
    ensures
        lex_spec(s) is Ok,
        s[0] == '{' || s[0] == '[',
        s[0] == '{' ==> parse_spec(lex_spec(s).unwrap()) == Ok::<ValueModel, ParseErrorModel>(
            ValueModel::Obj(Map::empty()),
        ),
        s[0] == '[' ==> parse_spec(lex_spec(s).unwrap()) == Ok::<ValueModel, ParseErrorModel>(
            ValueModel::Arr(Seq::empty()),
        ),
{
    assert forall|k: int|
        0 <= k < s.len() implies ((#[trigger] s[k]) == '{' || s[k] == '}' || s[k] == '[' || s[k]
        == ']') by {
        if k % 2 == 0 {
            assert(s[k] == '{' || s[k] == '[');
        } else {
            assert((s[k - 1] == '{' && s[(k - 1) + 1] == '}') || (s[k - 1] == '[' && s[(k - 1) + 1]
                == ']'));
        }
    }
    lemma_lex_structural(s, 0);
    let toks = Seq::new(s.len() as nat, |j: int| structural_model(s[0 + j]));
    assert(s.len() >= 2);
    assert((s[0] == '{' && s[1] == '}') || (s[0] == '[' && s[1] == ']'));
    assert(toks[0] == structural_model(s[0]));
    assert(toks[1] == structural_model(s[1]));
}

/// Empty input tokenizes to the empty token sequence, and the empty token
/// sequence fails parsing with `NoTokens`.
pub proof fn lemma_empty_input()
    ensures
        lex_spec(Seq::empty()) == Ok::<Seq<TokenModel>, JsonTokenError>(Seq::empty()),
        parse_spec(Seq::empty()) == Err::<ValueModel, ParseErrorModel>(ParseErrorModel::NoTokens),
{
}

} // verus!
