//! Recursive-descent parser: turns a token sequence into a single `Value`.
//!
//! Each production consumes tokens from a cursor position and either returns
//! the parsed result together with the position after it, or fails. A failure
//! anywhere aborts the whole parse. Trailing tokens after one complete value
//! are not rejected: parsing stops once a value has been recognized.
use crate::scanner::SpecToken;
use crate::scanner::Token;
use crate::scanner::token_views;
use crate::Object;
use crate::SpecValue;
use crate::Value;
use crate::values_view;
use vstd::prelude::*;

verus! {

/// The cursor after a sub-parse that began at `i` and reported `j`. Every
/// production consumes at least one token, so `j` is in fact beyond `i`;
/// bounding it below keeps the recursion visibly well-founded.
pub open spec fn after(i: int, j: int) -> int {
    if i < j {
        j
    } else {
        i + 1
    }
}

/// Parses one value at position `i`: a scalar token stands for itself, an
/// opening bracket or brace opens an array or an object, and anything else
/// (or the end of the tokens) is a parse error.
pub open spec fn spec_parse_value(ts: Seq<SpecToken>, i: int) -> Option<(SpecValue, int)>
    decreases ts.len() - i, 0int,
{
    if i < 0 || i >= ts.len() {
        None
    } else {
        match ts[i] {
            SpecToken::Num(t) => Some((SpecValue::Num(t), i + 1)),
            SpecToken::Str(t) => Some((SpecValue::Str(t), i + 1)),
            SpecToken::Null => Some((SpecValue::Null, i + 1)),
            SpecToken::Bool(b) => Some((SpecValue::Bool(b), i + 1)),
            SpecToken::LeftBracket => match spec_parse_array(ts, i + 1) {
                Some((elems, j)) => Some((SpecValue::Arr(elems), j)),
                None => None,
            },
            SpecToken::LeftBrace => match spec_parse_object(ts, i + 1) {
                Some((m, j)) => Some((SpecValue::Obj(m), j)),
                None => None,
            },
            _ => None,
        }
    }
}

/// Parses one key-value pair at position `i`: a string key, a colon, then a
/// value.
pub open spec fn spec_parse_pair(ts: Seq<SpecToken>, i: int) -> Option<
    ((Seq<char>, SpecValue), int),
>
    decreases ts.len() - i, 1int,
{
    if 0 <= i && i + 1 < ts.len() && ts[i] is Str && ts[i + 1] is Colon {
        match spec_parse_value(ts, i + 2) {
            Some((v, j)) => Some(((ts[i]->Str_0, v), j)),
            None => None,
        }
    } else {
        None
    }
}

/// Parses the elements of a non-empty array, the opening bracket and any
/// complete elements before `i` already consumed, the latter collected in
/// `acc`. After each element a comma continues the loop and a closing
/// bracket ends it; anything else is a parse error. A comma directly before
/// the closing bracket is therefore rejected: the loop comes back here
/// expecting another element and finds the bracket.
pub open spec fn spec_parse_items(ts: Seq<SpecToken>, i: int, acc: Seq<SpecValue>) -> Option<
    (Seq<SpecValue>, int),
>
    decreases ts.len() - i, 1int,
{
    match spec_parse_value(ts, i) {
        None => None,
        Some((v, j0)) => {
            let j = after(i, j0);
            if j < ts.len() && ts[j] is Comma {
                spec_parse_items(ts, j + 1, acc.push(v))
            } else if j < ts.len() && ts[j] is RightBracket {
                Some((acc.push(v), j + 1))
            } else {
                None
            }
        },
    }
}

/// Parses the members of a non-empty object, the opening brace and any
/// complete pairs before `i` already consumed, the latter folded into `acc`.
/// A key seen twice keeps the value given last.
pub open spec fn spec_parse_members(
    ts: Seq<SpecToken>,
    i: int,
    acc: Map<Seq<char>, SpecValue>,
) -> Option<(Map<Seq<char>, SpecValue>, int)>
    decreases ts.len() - i, 2int,
{
    match spec_parse_pair(ts, i) {
        None => None,
        Some(((k, v), j0)) => {
            let j = after(i + 2, j0);
            let acc2 = acc.insert(k, v);
            if j < ts.len() && ts[j] is Comma {
                spec_parse_members(ts, j + 1, acc2)
            } else if j < ts.len() && ts[j] is RightBrace {
                Some((acc2, j + 1))
            } else {
                None
            }
        },
    }
}

/// Parses an array body, the opening bracket already consumed: either a
/// closing bracket at once (the empty array) or a comma-separated run of
/// elements.
pub open spec fn spec_parse_array(ts: Seq<SpecToken>, i: int) -> Option<(Seq<SpecValue>, int)>
    decreases ts.len() - i, 2int,
{
    if i < 0 || i >= ts.len() {
        None
    } else if ts[i] is RightBracket {
        Some((Seq::empty(), i + 1))
    } else {
        spec_parse_items(ts, i, Seq::empty())
    }
}

/// Parses an object body, the opening brace already consumed: either a
/// closing brace at once (the empty object) or a comma-separated run of
/// key-value pairs.
pub open spec fn spec_parse_object(ts: Seq<SpecToken>, i: int) -> Option<
    (Map<Seq<char>, SpecValue>, int),
>
    decreases ts.len() - i, 3int,
{
    if i < 0 || i >= ts.len() {
        None
    } else if ts[i] is RightBrace {
        Some((Map::empty(), i + 1))
    } else {
        spec_parse_members(ts, i, Map::empty())
    }
}

/// The value of a whole token sequence: one complete value parsed from the
/// front; tokens after it are left unexamined.
pub open spec fn spec_parse(ts: Seq<SpecToken>) -> Option<SpecValue> {
    match spec_parse_value(ts, 0) {
        Some((v, _j)) => Some(v),
        None => None,
    }
}

/// A sequence's views gain the new element's view when it is appended.
proof fn lemma_values_view_push(elems: Seq<Value>, v: Value)
    ensures
        values_view(elems.push(v)) == values_view(elems).push(v@),
    decreases elems.len(),
{
    if elems.len() == 0 {
        assert(elems.push(v)[0] == v);
        assert(elems.push(v).skip(1) =~= Seq::<Value>::empty());
        assert(seq![v@] + values_view(Seq::<Value>::empty()) =~= values_view(
            Seq::<Value>::empty(),
        ).push(v@));
    } else {
        assert(elems.push(v)[0] == elems[0]);
        assert(elems.push(v).skip(1) =~= elems.skip(1).push(v));
        lemma_values_view_push(elems.skip(1), v);
        assert(seq![elems[0]@] + values_view(elems.skip(1)).push(v@) =~= (seq![elems[0]@]
            + values_view(elems.skip(1))).push(v@));
    }
}

/// Parses one value starting at `pos`.
fn parse_value(tokens: &Vec<Token>, pos: usize) -> (r: Option<(Value, usize)>)
    requires
        pos <= tokens@.len(),
    ensures
        match r {
            Some(p) => spec_parse_value(token_views(tokens@), pos as int) == Some(
                (p.0@, p.1 as int),
            ) && pos < p.1 <= tokens@.len(),
            None => spec_parse_value(token_views(tokens@), pos as int) is None,
        },
    decreases tokens@.len() - pos, 0int,
{
    if pos >= tokens.len() {
        return None;
    }
    proof {
        assert(token_views(tokens@)[pos as int] == tokens@[pos as int]@);
    }
    match &tokens[pos] {
        Token::Number(t) => Some((Value::Number(t.clone()), pos + 1)),
        Token::String(t) => Some((Value::String(t.clone()), pos + 1)),
        Token::Null => Some((Value::Null, pos + 1)),
        Token::Boolean(b) => Some((Value::Boolean(*b), pos + 1)),
        Token::LeftBracket => match parse_array(tokens, pos + 1) {
            Some(p) => Some((Value::Array(p.0), p.1)),
            None => None,
        },
        Token::LeftBrace => match parse_object(tokens, pos + 1) {
            Some(p) => Some((Value::Object(p.0), p.1)),
            None => None,
        },
        _ => None,
    }
}

/// Parses one key-value pair starting at `pos`: a string key, a colon, then
/// a value.
fn parse_key_value_pair(tokens: &Vec<Token>, pos: usize) -> (r: Option<((String, Value), usize)>)
    requires
        pos <= tokens@.len(),
    ensures
        match r {
            Some(p) => spec_parse_pair(token_views(tokens@), pos as int) == Some(
                ((p.0.0@, p.0.1@), p.1 as int),
            ) && pos + 2 < p.1 <= tokens@.len(),
            None => spec_parse_pair(token_views(tokens@), pos as int) is None,
        },
    decreases tokens@.len() - pos, 1int,
{
    if pos >= tokens.len() || pos + 1 >= tokens.len() {
        return None;
    }
    proof {
        assert(token_views(tokens@)[pos as int] == tokens@[pos as int]@);
        assert(token_views(tokens@)[pos as int + 1] == tokens@[pos as int + 1]@);
    }
    let key = match &tokens[pos] {
        Token::String(k) => k.clone(),
        _ => {
            return None;
        },
    };
    match &tokens[pos + 1] {
        Token::Colon => {},
        _ => {
            return None;
        },
    }
    match parse_value(tokens, pos + 2) {
        Some(p) => Some(((key, p.0), p.1)),
        None => None,
    }
}

/// Parses an array body, the opening bracket already consumed.
#[verifier::loop_isolation(false)]
fn parse_array(tokens: &Vec<Token>, pos: usize) -> (r: Option<(Vec<Value>, usize)>)
    requires
        pos <= tokens@.len(),
    ensures
        match r {
            Some(p) => spec_parse_array(token_views(tokens@), pos as int) == Some(
                (values_view(p.0@), p.1 as int),
            ) && pos < p.1 <= tokens@.len(),
            None => spec_parse_array(token_views(tokens@), pos as int) is None,
        },
    decreases tokens@.len() - pos, 2int,
{
    if pos >= tokens.len() {
        return None;
    }
    proof {
        assert(token_views(tokens@)[pos as int] == tokens@[pos as int]@);
    }
    if matches!(&tokens[pos], Token::RightBracket) {
        return Some((Vec::new(), pos + 1));
    }
    let mut elems: Vec<Value> = Vec::new();
    let mut cur = pos;
    loop
        invariant
            pos <= cur <= tokens@.len(),
            spec_parse_items(token_views(tokens@), pos as int, Seq::empty())
                == spec_parse_items(token_views(tokens@), cur as int, values_view(elems@)),
        decreases tokens@.len() - cur,
    {
        match parse_value(tokens, cur) {
            None => {
                return None;
            },
            Some(p) => {
                let v = p.0;
                let j = p.1;
                proof {
                    lemma_values_view_push(elems@, v);
                    if j < tokens@.len() {
                        assert(token_views(tokens@)[j as int] == tokens@[j as int]@);
                    }
                }
                elems.push(v);
                if j < tokens.len() && matches!(&tokens[j], Token::Comma) {
                    cur = j + 1;
                } else if j < tokens.len() && matches!(&tokens[j], Token::RightBracket) {
                    return Some((elems, j + 1));
                } else {
                    return None;
                }
            },
        }
    }
}

/// Parses an object body, the opening brace already consumed.
#[verifier::loop_isolation(false)]
fn parse_object(tokens: &Vec<Token>, pos: usize) -> (r: Option<(Object, usize)>)
    requires
        pos <= tokens@.len(),
    ensures
        match r {
            Some(p) => spec_parse_object(token_views(tokens@), pos as int) == Some(
                (p.0@, p.1 as int),
            ) && pos < p.1 <= tokens@.len() && p.0.wf(),
            None => spec_parse_object(token_views(tokens@), pos as int) is None,
        },
    decreases tokens@.len() - pos, 3int,
{
    if pos >= tokens.len() {
        return None;
    }
    proof {
        assert(token_views(tokens@)[pos as int] == tokens@[pos as int]@);
    }
    if matches!(&tokens[pos], Token::RightBrace) {
        return Some((Object::new(), pos + 1));
    }
    let mut object = Object::new();
    let mut cur = pos;
    loop
        invariant
            pos <= cur <= tokens@.len(),
            object.wf(),
            spec_parse_members(token_views(tokens@), pos as int, Map::empty())
                == spec_parse_members(token_views(tokens@), cur as int, object@),
        decreases tokens@.len() - cur,
    {
        match parse_key_value_pair(tokens, cur) {
            None => {
                return None;
            },
            Some(p) => {
                let key = p.0.0;
                let v = p.0.1;
                let j = p.1;
                proof {
                    if j < tokens@.len() {
                        assert(token_views(tokens@)[j as int] == tokens@[j as int]@);
                    }
                }
                object.insert(key, v);
                if j < tokens.len() && matches!(&tokens[j], Token::Comma) {
                    cur = j + 1;
                } else if j < tokens.len() && matches!(&tokens[j], Token::RightBrace) {
                    return Some((object, j + 1));
                } else {
                    return None;
                }
            },
        }
    }
}

/// Parses one complete value from the front of the token sequence; trailing
/// tokens after it are not rejected.
pub fn parse(tokens: &Vec<Token>) -> (r: Option<Value>)
    ensures
        match r {
            Some(v) => spec_parse(token_views(tokens@)) == Some(v@),
            None => spec_parse(token_views(tokens@)) is None,
        },
{
    match parse_value(tokens, 0) {
        Some(p) => Some(p.0),
        None => None,
    }
}

} // verus!
