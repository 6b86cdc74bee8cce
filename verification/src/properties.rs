//! Relations between the two pipeline stages, stated and proved once for all
//! inputs: rendering a token sequence as text with any whitespace between
//! tokens scans back to the same tokens, and a value tree rendered as text
//! parses back to an equal tree.
use crate::parser::spec_parse_array;
use crate::parser::spec_parse_items;
use crate::parser::spec_parse_members;
use crate::parser::spec_parse_object;
use crate::parser::spec_parse_pair;
use crate::parser::spec_parse_value;
use crate::scanner::digit_run_end;
use crate::scanner::escape_value;
use crate::scanner::is_digit;
use crate::scanner::is_num_char;
use crate::scanner::is_ws;
use crate::scanner::lemma_in_num_scan;
use crate::scanner::push_front_token;
use crate::scanner::spec_tokenize;
use crate::scanner::spec_tokenize_at;
use crate::scanner::spec_tokenize_in_str;
use crate::scanner::spec_tokenize_in_num;
use crate::scanner::valid_number_text;
use crate::scanner::SpecToken;
use crate::entries_map_from;
use crate::spec_from_text;
use crate::values_view;
use crate::SpecValue;
use crate::Value;
use vstd::prelude::*;

verus! {

broadcast use vstd::std_specs::vec::group_vec_axioms, vstd::seq::group_seq_axioms;

/// The text that stands for one character inside a string literal: the five
/// characters with escape sequences are escaped, every other character
/// stands for itself.
pub open spec fn escape_char_text(c: char) -> Seq<char> {
    if c == '\n' {
        seq!['\\', 'n']
    } else if c == '\t' {
        seq!['\\', 't']
    } else if c == '\r' {
        seq!['\\', 'r']
    } else if c == '\\' {
        seq!['\\', '\\']
    } else if c == '"' {
        seq!['\\', '"']
    } else {
        seq![c]
    }
}

/// The text that stands for a string literal's content.
pub open spec fn escape_text(s: Seq<char>) -> Seq<char>
    decreases s.len(),
{
    if s.len() == 0 {
        Seq::empty()
    } else {
        escape_char_text(s[0]) + escape_text(s.skip(1))
    }
}

/// The text of one token.
pub open spec fn token_text(t: SpecToken) -> Seq<char> {
    match t {
        SpecToken::LeftBrace => seq!['{'],
        SpecToken::RightBrace => seq!['}'],
        SpecToken::Colon => seq![':'],
        SpecToken::Comma => seq![','],
        SpecToken::LeftBracket => seq!['['],
        SpecToken::RightBracket => seq![']'],
        SpecToken::Str(s) => seq!['"'] + escape_text(s) + seq!['"'],
        SpecToken::Num(s) => s,
        SpecToken::Bool(b) => if b {
            seq!['t', 'r', 'u', 'e']
        } else {
            seq!['f', 'a', 'l', 's', 'e']
        },
        SpecToken::Null => seq!['n', 'u', 'l', 'l'],
    }
}

/// A run of whitespace only.
pub open spec fn all_ws(g: Seq<char>) -> bool {
    forall|k: int| 0 <= k < g.len() ==> is_ws(#[trigger] g[k])
}

/// A number token's text satisfies the numeric grammar; every other token
/// renders well as it is.
pub open spec fn wf_token(t: SpecToken) -> bool {
    match t {
        SpecToken::Num(s) => valid_number_text(s),
        _ => true,
    }
}

/// Every token of the run renders well.
pub open spec fn wf_tokens(ts: Seq<SpecToken>) -> bool {
    forall|k: int| 0 <= k < ts.len() ==> wf_token(#[trigger] ts[k])
}

/// The whitespace runs around the tokens: one before each token and one
/// after the last. Each is whitespace only, and the one between two number
/// tokens is not empty — two adjacent number literals would otherwise run
/// into one.
pub open spec fn wf_gaps(ts: Seq<SpecToken>, gaps: Seq<Seq<char>>) -> bool {
    &&& gaps.len() == ts.len() + 1
    &&& forall|k: int| 0 <= k < gaps.len() ==> all_ws(#[trigger] gaps[k])
    &&& forall|k: int|
        1 <= k < ts.len() && ts[k - 1] is Num && ts[k] is Num ==> (#[trigger] gaps[k]).len() > 0
}

/// The text of a token run with the given whitespace between: the first gap,
/// then each token's text preceded by nothing and followed by the next gap.
pub open spec fn render_tokens(ts: Seq<SpecToken>, gaps: Seq<Seq<char>>) -> Seq<char>
    decreases ts.len(),
{
    if ts.len() == 0 {
        if gaps.len() > 0 {
            gaps[0]
        } else {
            Seq::empty()
        }
    } else {
        gaps[0] + token_text(ts[0]) + render_tokens(ts.skip(1), gaps.skip(1))
    }
}

/// Scanning is unmoved by leading whitespace.
proof fn lemma_ws_skip(s: Seq<char>, i: int, j: int)
    requires
        0 <= i <= j <= s.len(),
        forall|k: int| i <= k < j ==> is_ws(#[trigger] s[k]),
    ensures
        spec_tokenize_at(s, i) == spec_tokenize_at(s, j),
    decreases j - i,
{
    if i < j {
        lemma_ws_skip(s, i + 1, j);
    }
}

/// The digit run from `i` holds digits and nothing more.
proof fn lemma_digit_run(s: Seq<char>, i: int)
    requires
        0 <= i <= s.len(),
    ensures
        i <= digit_run_end(s, i) <= s.len(),
        forall|k: int| i <= k < digit_run_end(s, i) ==> is_digit(#[trigger] s[k]),
        digit_run_end(s, i) < s.len() ==> !is_digit(s[digit_run_end(s, i)]),
    decreases s.len() - i,
{
    if i < s.len() && is_digit(s[i]) {
        lemma_digit_run(s, i + 1);
    }
}

/// In a valid numeric literal every character after the first may continue a
/// number scan, and the first is a digit or a minus sign.
proof fn lemma_valid_number_chars(t: Seq<char>)
    requires
        valid_number_text(t),
    ensures
        t.len() > 0,
        is_digit(t[0]) || t[0] == '-',
        forall|k: int| 1 <= k < t.len() ==> is_num_char(#[trigger] t[k]),
{
    let start: int = if t[0] == '-' {
        1
    } else {
        0
    };
    let i = digit_run_end(t, start);
    lemma_digit_run(t, start);
    let has_dot = i < t.len() && t[i] == '.';
    let j = if has_dot {
        digit_run_end(t, i + 1)
    } else {
        i
    };
    if has_dot {
        lemma_digit_run(t, i + 1);
    }
    if j < t.len() {
        lemma_digit_run(t, j + 1);
    }
    assert forall|k: int| 1 <= k < t.len() implies is_num_char(#[trigger] t[k]) by {
        if start <= k < i {
        } else if has_dot && k == i {
        } else if has_dot && i + 1 <= k < j {
        } else {
        }
    }
}

/// A token run stays well-formed when a well-formed token is put in front.
proof fn lemma_wf_push_front(t: SpecToken, ts: Seq<SpecToken>)
    requires
        wf_token(t),
        wf_tokens(ts),
    ensures
        wf_tokens(seq![t] + ts),
{
    assert forall|k: int| 0 <= k < (seq![t] + ts).len() implies wf_token(
        #[trigger] (seq![t] + ts)[k],
    ) by {
        if k > 0 {
            assert((seq![t] + ts)[k] == ts[k - 1]);
        }
    }
}

/// Whatever token run a scan from `i` yields is well-formed.
proof fn lemma_wf_at(s: Seq<char>, i: int)
    ensures
        spec_tokenize_at(s, i) matches Some(ts) ==> wf_tokens(ts),
    decreases s.len() - i, 0int,
{
    if i >= s.len() {
    } else {
        let c = s[i];
        lemma_wf_at(s, i + 1);
        if c == 't' || c == 'f' || c == 'n' {
            if i + 4 <= s.len() {
                lemma_wf_at(s, i + 4);
            }
            if i + 5 <= s.len() {
                lemma_wf_at(s, i + 5);
            }
        } else if c == '"' {
            lemma_wf_in_str(s, i + 1, Seq::empty());
        } else if is_digit(c) || c == '-' {
            lemma_wf_in_num(s, i + 1, seq![c]);
        }
        if spec_tokenize_at(s, i) is Some {
            match spec_tokenize_at(s, i) {
                Some(ts) => {
                    if c == '{' || c == '}' || c == ':' || c == ',' || c == '[' || c == ']'
                        || c == 't' || c == 'f' || c == 'n' {
                        let t = ts[0];
                        let rest = ts.skip(1);
                        assert(wf_tokens(rest)) by {
                            assert forall|k: int| 0 <= k < rest.len() implies wf_token(
                                #[trigger] rest[k],
                            ) by {
                                assert(rest[k] == ts[k + 1]);
                            }
                        }
                        lemma_wf_push_front(t, rest);
                        assert(seq![t] + rest =~= ts);
                    }
                },
                None => {},
            }
        }
    }
}

/// Whatever token run a string-literal scan yields is well-formed.
proof fn lemma_wf_in_str(s: Seq<char>, i: int, acc: Seq<char>)
    ensures
        spec_tokenize_in_str(s, i, acc) matches Some(ts) ==> wf_tokens(ts),
    decreases s.len() - i, 0int,
{
    if i >= s.len() {
    } else if s[i] == '"' {
        lemma_wf_at(s, i + 1);
        match spec_tokenize_at(s, i + 1) {
            Some(rest) => {
                lemma_wf_push_front(SpecToken::Str(acc), rest);
            },
            None => {},
        }
    } else if s[i] == '\\' {
        if i + 1 < s.len() {
            match escape_value(s[i + 1]) {
                Some(c) => {
                    lemma_wf_in_str(s, i + 2, acc.push(c));
                },
                None => {},
            }
        }
    } else {
        lemma_wf_in_str(s, i + 1, acc.push(s[i]));
    }
}

/// Whatever token run a number scan yields is well-formed.
proof fn lemma_wf_in_num(s: Seq<char>, i: int, acc: Seq<char>)
    ensures
        spec_tokenize_in_num(s, i, acc) matches Some(ts) ==> wf_tokens(ts),
    decreases s.len() - i, 1int,
{
    if i < s.len() && is_num_char(s[i]) {
        lemma_wf_in_num(s, i + 1, acc.push(s[i]));
    } else if valid_number_text(acc) {
        lemma_wf_at(s, i);
        match spec_tokenize_at(s, i) {
            Some(rest) => {
                lemma_wf_push_front(SpecToken::Num(acc), rest);
            },
            None => {},
        }
    }
}

/// Every token run the scanner yields renders well: in particular, the text
/// of every number token it produces satisfies the numeric grammar. Through
/// [`lemma_tokenize_render`], the tokens of any valid document can thus be
/// rendered again, with any whitespace between them, and scan to the same
/// run.
pub proof fn lemma_tokenize_wf(s: Seq<char>)
    ensures
        spec_tokenize(s) matches Some(ts) ==> wf_tokens(ts),
{
    lemma_wf_at(s, 0);
}

/// Scanning the rendered content of a string literal collects exactly that
/// content and stops after the closing quote.
proof fn lemma_in_str_render(s: Seq<char>, i: int, content: Seq<char>, acc: Seq<char>)
    requires
        0 <= i,
        i + escape_text(content).len() + 1 <= s.len(),
        s.subrange(i, i + escape_text(content).len() + 1) == escape_text(content).push('"'),
    ensures
        spec_tokenize_in_str(s, i, acc) == push_front_token(
            SpecToken::Str(acc + content),
            spec_tokenize_at(s, i + escape_text(content).len() + 1),
        ),
    decreases content.len(),
{
    let e = escape_text(content);
    let w = s.subrange(i, i + e.len() + 1);
    if content.len() == 0 {
        assert(e =~= Seq::<char>::empty());
        assert(s[i] == w[0]);
        assert(s[i] == '"');
        assert(acc + content =~= acc);
    } else {
        let c = content[0];
        let ec = escape_char_text(c);
        let rest = content.skip(1);
        let er = escape_text(rest);
        assert(e == ec + er);
        assert(s[i] == w[0] && w[0] == ec[0]);
        assert forall|m: int| 0 <= m < er.len() + 1 implies s[i + ec.len() + m] == er.push(
            '"',
        )[m] by {
            assert(s[i + ec.len() + m] == w[ec.len() + m]);
        }
        assert(s.subrange(i + ec.len(), i + ec.len() + er.len() + 1) =~= er.push('"'));
        if ec.len() == 2 {
            assert(s[i + 1] == w[1] && w[1] == ec[1]);
            assert(s[i] == '\\');
            assert(escape_value(s[i + 1]) == Some(c));
            lemma_in_str_render(s, i + 2, rest, acc.push(c));
            assert(acc.push(c) + rest =~= acc + content);
        } else {
            assert(ec =~= seq![c]);
            assert(s[i] == c);
            assert(c != '"' && c != '\\');
            lemma_in_str_render(s, i + 1, rest, acc.push(c));
            assert(acc.push(c) + rest =~= acc + content);
        }
    }
}

/// Scanning at the start of a well-placed numeric literal takes exactly its
/// text as one number token, provided the character after it cannot continue
/// a number scan.
proof fn lemma_num_render(s: Seq<char>, i: int, text: Seq<char>)
    requires
        valid_number_text(text),
        0 <= i,
        i + text.len() <= s.len(),
        s.subrange(i, i + text.len()) == text,
        i + text.len() == s.len() || !is_num_char(s[i + text.len()]),
    ensures
        spec_tokenize_at(s, i) == push_front_token(
            SpecToken::Num(text),
            spec_tokenize_at(s, i + text.len()),
        ),
{
    lemma_valid_number_chars(text);
    let w = s.subrange(i, i + text.len());
    assert(s[i] == w[0] && w[0] == text[0]);
    assert forall|k: int| i + 1 <= k < i + text.len() implies is_num_char(#[trigger] s[k]) by {
        assert(s[k] == w[k - i]);
    }
    lemma_in_num_scan(s, i + 1, i + text.len(), seq![text[0]]);
    assert(seq![text[0]] + s.subrange(i + 1, i + text.len()) =~= text);
}

/// Every token has text, and only a number token's text may begin with a
/// character that could continue a number scan.
proof fn lemma_token_text_first(t: SpecToken)
    requires
        wf_token(t),
    ensures
        token_text(t).len() > 0,
        !(t is Num) ==> !is_num_char(token_text(t)[0]),
{
    match t {
        SpecToken::Num(text) => {
            lemma_valid_number_chars(text);
        },
        SpecToken::Str(content) => {
            assert(token_text(t)[0] == '"');
        },
        _ => {},
    }
}

/// The heart of the rendering law: scanning text that holds a well-formed
/// token run with whitespace between the tokens yields exactly that run.
proof fn lemma_render_at(s: Seq<char>, i: int, ts: Seq<SpecToken>, gaps: Seq<Seq<char>>)
    requires
        wf_tokens(ts),
        wf_gaps(ts, gaps),
        0 <= i <= s.len(),
        s.subrange(i, s.len() as int) == render_tokens(ts, gaps),
    ensures
        spec_tokenize_at(s, i) == Some(ts),
    decreases ts.len(),
{
    let w = s.subrange(i, s.len() as int);
    if ts.len() == 0 {
        assert(w == gaps[0]);
        assert forall|k: int| i <= k < s.len() implies is_ws(#[trigger] s[k]) by {
            assert(s[k] == w[k - i]);
        }
        lemma_ws_skip(s, i, s.len() as int);
        assert(ts =~= Seq::<SpecToken>::empty());
    } else {
        let t = ts[0];
        let g = gaps[0];
        let tl = token_text(t);
        let i1 = i + g.len();
        let i2 = i1 + tl.len();
        let rest_text = render_tokens(ts.skip(1), gaps.skip(1));
        assert(w == g + tl + rest_text);
        assert(s.len() - i == g.len() + tl.len() + rest_text.len());
        assert forall|m: int| 0 <= m < g.len() implies s[i + m] == g[m] by {
            assert(s[i + m] == w[m]);
        }
        assert forall|m: int| 0 <= m < tl.len() implies s[i1 + m] == tl[m] by {
            assert(s[i1 + m] == w[g.len() + m]);
        }
        assert forall|m: int| 0 <= m < rest_text.len() implies s[i2 + m] == rest_text[m] by {
            assert(s[i2 + m] == w[g.len() + tl.len() + m]);
        }
        assert(s.subrange(i2, s.len() as int) =~= rest_text);
        assert(all_ws(gaps[0]));
        assert forall|k: int| i <= k < i1 implies is_ws(#[trigger] s[k]) by {
            assert(s[k] == g[k - i]);
        }
        lemma_ws_skip(s, i, i1);
        lemma_token_text_first(t);
        // The induction hypothesis applies to the rest of the run.
        assert(wf_tokens(ts.skip(1))) by {
            assert forall|k: int| 0 <= k < ts.skip(1).len() implies wf_token(
                #[trigger] ts.skip(1)[k],
            ) by {
                assert(ts.skip(1)[k] == ts[k + 1]);
            }
        }
        assert(wf_gaps(ts.skip(1), gaps.skip(1))) by {
            assert forall|k: int| 0 <= k < gaps.skip(1).len() implies all_ws(
                #[trigger] gaps.skip(1)[k],
            ) by {
                assert(gaps.skip(1)[k] == gaps[k + 1]);
            }
            assert forall|k: int|
                1 <= k < ts.skip(1).len() && ts.skip(1)[k - 1] is Num && ts.skip(1)[k] is Num
                implies (#[trigger] gaps.skip(1)[k]).len() > 0 by {
                assert(ts.skip(1)[k - 1] == ts[k]);
                assert(ts.skip(1)[k] == ts[k + 1]);
                assert(gaps.skip(1)[k] == gaps[k + 1]);
            }
        }
        lemma_render_at(s, i2, ts.skip(1), gaps.skip(1));
        // One token step at `i1`.
        match t {
            SpecToken::Num(text) => {
                assert(s.subrange(i1, i1 + text.len()) =~= text);
                if i2 < s.len() {
                    assert(rest_text.len() > 0);
                    if gaps.skip(1)[0].len() > 0 {
                        assert(rest_text[0] == gaps[1][0]);
                        assert(all_ws(gaps[1]));
                        assert(!is_num_char(s[i2]));
                    } else {
                        assert(ts.skip(1).len() > 0);
                        lemma_token_text_first(ts[1]);
                        assert(rest_text[0] == token_text(ts.skip(1)[0])[0]);
                        assert(!(ts[1] is Num));
                        assert(!is_num_char(s[i2]));
                    }
                }
                lemma_num_render(s, i1, text);
            },
            SpecToken::Str(content) => {
                assert(s[i1] == '"');
                assert forall|m: int|
                    0 <= m < escape_text(content).len() + 1 implies s[i1 + 1 + m] == escape_text(
                    content,
                ).push('"')[m] by {
                    assert(s[i1 + 1 + m] == tl[1 + m]);
                    assert(tl == seq!['"'] + escape_text(content) + seq!['"']);
                }
                assert(s.subrange(i1 + 1, i1 + 1 + escape_text(content).len() + 1)
                    =~= escape_text(content).push('"'));
                lemma_in_str_render(s, i1 + 1, content, Seq::empty());
                assert(Seq::<char>::empty() + content =~= content);
            },
            SpecToken::Bool(b) => {
                if b {
                    assert(s[i1] == 't');
                    assert(s.subrange(i1, i1 + 4) =~= seq!['t', 'r', 'u', 'e']);
                } else {
                    assert(s[i1] == 'f');
                    assert(s.subrange(i1, i1 + 5) =~= seq!['f', 'a', 'l', 's', 'e']);
                }
            },
            SpecToken::Null => {
                assert(s[i1] == 'n');
                assert(s.subrange(i1, i1 + 4) =~= seq!['n', 'u', 'l', 'l']);
            },
            _ => {
                assert(s[i1] == tl[0]);
            },
        }
        assert(spec_tokenize_at(s, i1) == push_front_token(t, spec_tokenize_at(s, i2)));
        assert(seq![t] + ts.skip(1) =~= ts);
    }
}

/// Rendering a well-formed token run with any whitespace between the tokens
/// scans back to exactly that run.
pub proof fn lemma_tokenize_render(ts: Seq<SpecToken>, gaps: Seq<Seq<char>>)
    requires
        wf_tokens(ts),
        wf_gaps(ts, gaps),
    ensures
        spec_tokenize(render_tokens(ts, gaps)) == Some(ts),
{
    let s = render_tokens(ts, gaps);
    assert(s.subrange(0, s.len() as int) =~= s);
    lemma_render_at(s, 0, ts, gaps);
}

/// The whitespace between the tokens of a document has no bearing on the
/// parsed result: two renderings of the same token run parse alike.
pub proof fn lemma_whitespace_insensitive(
    ts: Seq<SpecToken>,
    gaps1: Seq<Seq<char>>,
    gaps2: Seq<Seq<char>>,
)
    requires
        wf_tokens(ts),
        wf_gaps(ts, gaps1),
        wf_gaps(ts, gaps2),
    ensures
        spec_from_text(render_tokens(ts, gaps1)) == spec_from_text(render_tokens(ts, gaps2)),
{
    lemma_tokenize_render(ts, gaps1);
    lemma_tokenize_render(ts, gaps2);
}

/// The token run that renders one value.
pub open spec fn value_tokens(v: Value) -> Seq<SpecToken>
    decreases v,
{
    match v {
        Value::String(s) => seq![SpecToken::Str(s@)],
        Value::Number(t) => seq![SpecToken::Num(t@)],
        Value::Boolean(b) => seq![SpecToken::Bool(b)],
        Value::Null => seq![SpecToken::Null],
        Value::Array(elems) => seq![SpecToken::LeftBracket] + items_tokens(elems@) + seq![
            SpecToken::RightBracket,
        ],
        Value::Object(obj) => seq![SpecToken::LeftBrace] + members_tokens(obj.entry_seq())
            + seq![SpecToken::RightBrace],
    }
}

/// The token run of an array's elements, separated by commas.
pub open spec fn items_tokens(elems: Seq<Value>) -> Seq<SpecToken>
    decreases elems,
{
    if elems.len() == 0 {
        Seq::empty()
    } else if elems.len() == 1 {
        value_tokens(elems[0])
    } else {
        value_tokens(elems[0]) + seq![SpecToken::Comma] + items_tokens(elems.skip(1))
    }
}

/// The token run of one key-value pair.
pub open spec fn pair_tokens(e: (String, Value)) -> Seq<SpecToken>
    decreases e,
{
    seq![SpecToken::Str(e.0@), SpecToken::Colon] + value_tokens(e.1)
}

/// The token run of an object's members, separated by commas.
pub open spec fn members_tokens(entries: Seq<(String, Value)>) -> Seq<SpecToken>
    decreases entries,
{
    if entries.len() == 0 {
        Seq::empty()
    } else if entries.len() == 1 {
        pair_tokens(entries[0])
    } else {
        pair_tokens(entries[0]) + seq![SpecToken::Comma] + members_tokens(entries.skip(1))
    }
}

/// A value tree that renders well: every numeric literal text in it
/// satisfies the numeric grammar.
pub open spec fn wf_value(v: Value) -> bool
    decreases v,
{
    match v {
        Value::Number(t) => valid_number_text(t@),
        Value::Array(elems) => wf_values(elems@),
        Value::Object(obj) => wf_entries(obj.entry_seq()),
        _ => true,
    }
}

/// Every value of the sequence renders well.
pub open spec fn wf_values(elems: Seq<Value>) -> bool
    decreases elems,
{
    if elems.len() == 0 {
        true
    } else {
        wf_value(elems[0]) && wf_values(elems.skip(1))
    }
}

/// Every value of the entries renders well.
pub open spec fn wf_entries(entries: Seq<(String, Value)>) -> bool
    decreases entries,
{
    if entries.len() == 0 {
        true
    } else {
        wf_value(entries[0].1) && wf_entries(entries.skip(1))
    }
}

/// A value's token run opens with a token that can begin a value.
proof fn lemma_value_tokens_first(v: Value)
    ensures
        value_tokens(v).len() > 0,
        value_tokens(v)[0] is Str || value_tokens(v)[0] is Num || value_tokens(v)[0] is Bool
            || value_tokens(v)[0] is Null || value_tokens(v)[0] is LeftBracket || value_tokens(
            v,
        )[0] is LeftBrace,
{
    match v {
        Value::Array(elems) => {
            assert(value_tokens(v)[0] == SpecToken::LeftBracket);
        },
        Value::Object(obj) => {
            assert(value_tokens(v)[0] == SpecToken::LeftBrace);
        },
        _ => {},
    }
}

/// Every token a well-formed value renders to renders well itself.
proof fn lemma_value_tokens_wf(v: Value)
    requires
        wf_value(v),
    ensures
        wf_tokens(value_tokens(v)),
    decreases v,
{
    match v {
        Value::Array(elems) => {
            lemma_items_tokens_wf(elems@);
            assert forall|k: int| 0 <= k < value_tokens(v).len() implies wf_token(
                #[trigger] value_tokens(v)[k],
            ) by {
                if 1 <= k < 1 + items_tokens(elems@).len() {
                    assert(value_tokens(v)[k] == items_tokens(elems@)[k - 1]);
                }
            }
        },
        Value::Object(obj) => {
            lemma_members_tokens_wf(obj.entry_seq());
            assert forall|k: int| 0 <= k < value_tokens(v).len() implies wf_token(
                #[trigger] value_tokens(v)[k],
            ) by {
                if 1 <= k < 1 + members_tokens(obj.entry_seq()).len() {
                    assert(value_tokens(v)[k] == members_tokens(obj.entry_seq())[k - 1]);
                }
            }
        },
        _ => {},
    }
}

/// Every token an array's well-formed elements render to renders well.
proof fn lemma_items_tokens_wf(elems: Seq<Value>)
    requires
        wf_values(elems),
    ensures
        wf_tokens(items_tokens(elems)),
    decreases elems,
{
    if elems.len() == 0 {
    } else if elems.len() == 1 {
        lemma_value_tokens_wf(elems[0]);
    } else {
        lemma_value_tokens_wf(elems[0]);
        lemma_items_tokens_wf(elems.skip(1));
        let vt = value_tokens(elems[0]);
        assert forall|k: int| 0 <= k < items_tokens(elems).len() implies wf_token(
            #[trigger] items_tokens(elems)[k],
        ) by {
            if k < vt.len() {
                assert(items_tokens(elems)[k] == vt[k]);
            } else if k == vt.len() {
                assert(items_tokens(elems)[k] == SpecToken::Comma);
            } else {
                assert(items_tokens(elems)[k] == items_tokens(elems.skip(1))[k - vt.len() - 1]);
            }
        }
    }
}

/// Every token an object's well-formed entries render to renders well.
proof fn lemma_members_tokens_wf(entries: Seq<(String, Value)>)
    requires
        wf_entries(entries),
    ensures
        wf_tokens(members_tokens(entries)),
    decreases entries,
{
    if entries.len() == 0 {
    } else {
        lemma_value_tokens_wf(entries[0].1);
        let pt = pair_tokens(entries[0]);
        assert(wf_tokens(pt)) by {
            assert forall|k: int| 0 <= k < pt.len() implies wf_token(#[trigger] pt[k]) by {
                if k >= 2 {
                    assert(pt[k] == value_tokens(entries[0].1)[k - 2]);
                }
            }
        }
        if entries.len() == 1 {
        } else {
            lemma_members_tokens_wf(entries.skip(1));
            assert forall|k: int| 0 <= k < members_tokens(entries).len() implies wf_token(
                #[trigger] members_tokens(entries)[k],
            ) by {
                if k < pt.len() {
                    assert(members_tokens(entries)[k] == pt[k]);
                } else if k == pt.len() {
                    assert(members_tokens(entries)[k] == SpecToken::Comma);
                } else {
                    assert(members_tokens(entries)[k] == members_tokens(entries.skip(1))[k - pt.len()
                        - 1]);
                }
            }
        }
    }
}

/// Parsing a value's token run at its position yields that value's view and
/// stops right after the run.
proof fn lemma_parse_value_at(ts: Seq<SpecToken>, i: int, v: Value)
    requires
        wf_value(v),
        0 <= i,
        i + value_tokens(v).len() <= ts.len(),
        ts.subrange(i, i + value_tokens(v).len()) == value_tokens(v),
    ensures
        spec_parse_value(ts, i) == Some((v@, i + value_tokens(v).len())),
    decreases v,
{
    let vt = value_tokens(v);
    let w = ts.subrange(i, i + vt.len());
    lemma_value_tokens_first(v);
    assert(ts[i] == w[0]);
    match v {
        Value::Array(elems) => {
            assert(ts[i] == SpecToken::LeftBracket);
            let inner = items_tokens(elems@);
            assert forall|m: int| 0 <= m < inner.len() implies ts[i + 1 + m] == inner[m] by {
                assert(ts[i + 1 + m] == w[1 + m]);
            }
            assert(ts[i + 1 + inner.len()] == w[1 + inner.len() as int]);
            assert(ts[i + 1 + inner.len()] == SpecToken::RightBracket);
            if elems@.len() == 0 {
                assert(values_view(elems@) =~= Seq::<SpecValue>::empty());
                assert(spec_parse_array(ts, i + 1) == Some(
                    (Seq::<SpecValue>::empty(), i + 2),
                ));
            } else {
                lemma_value_tokens_first(elems@[0]);
                assert(inner[0] == value_tokens(elems@[0])[0]);
                assert(ts[i + 1] == inner[0]);
                assert(!(ts[i + 1] is RightBracket));
                assert(ts.subrange(i + 1, i + 1 + inner.len() + 1) =~= inner + seq![
                    SpecToken::RightBracket,
                ]);
                lemma_parse_items_at(ts, i + 1, elems@, Seq::empty());
                assert(Seq::<SpecValue>::empty() + values_view(elems@) =~= values_view(
                    elems@,
                ));
            }
        },
        Value::Object(obj) => {
            assert(ts[i] == SpecToken::LeftBrace);
            let inner = members_tokens(obj.entry_seq());
            assert forall|m: int| 0 <= m < inner.len() implies ts[i + 1 + m] == inner[m] by {
                assert(ts[i + 1 + m] == w[1 + m]);
            }
            assert(ts[i + 1 + inner.len()] == w[1 + inner.len() as int]);
            assert(ts[i + 1 + inner.len()] == SpecToken::RightBrace);
            if obj.entry_seq().len() == 0 {
                assert(obj@ =~= Map::<Seq<char>, SpecValue>::empty());
                assert(spec_parse_object(ts, i + 1) == Some(
                    (Map::<Seq<char>, SpecValue>::empty(), i + 2),
                ));
            } else {
                assert(inner[0] == pair_tokens(obj.entry_seq()[0])[0]);
                assert(ts[i + 1] == inner[0]);
                assert(ts[i + 1] is Str);
                assert(!(ts[i + 1] is RightBrace));
                assert(ts.subrange(i + 1, i + 1 + inner.len() + 1) =~= inner + seq![
                    SpecToken::RightBrace,
                ]);
                lemma_parse_members_at(ts, i + 1, obj.entry_seq(), Map::empty());
            }
        },
        _ => {},
    }
}

/// Parsing the comma-separated run of a non-empty array's elements, closed
/// by a bracket, collects their views after those already in `acc`.
proof fn lemma_parse_items_at(ts: Seq<SpecToken>, i: int, elems: Seq<Value>, acc: Seq<SpecValue>)
    requires
        elems.len() > 0,
        wf_values(elems),
        0 <= i,
        i + items_tokens(elems).len() + 1 <= ts.len(),
        ts.subrange(i, i + items_tokens(elems).len() + 1) == items_tokens(elems) + seq![
            SpecToken::RightBracket,
        ],
    ensures
        spec_parse_items(ts, i, acc) == Some(
            (acc + values_view(elems), i + items_tokens(elems).len() + 1),
        ),
    decreases elems,
{
    let w = ts.subrange(i, i + items_tokens(elems).len() + 1);
    let v0 = elems[0];
    let vt = value_tokens(v0);
    lemma_value_tokens_first(v0);
    assert forall|m: int| 0 <= m < vt.len() implies ts[i + m] == vt[m] by {
        assert(ts[i + m] == w[m]);
        if elems.len() == 1 {
        } else {
            assert(items_tokens(elems)[m] == vt[m]);
        }
    }
    assert(ts.subrange(i, i + vt.len()) =~= vt);
    lemma_parse_value_at(ts, i, v0);
    let j = i + vt.len();
    if elems.len() == 1 {
        assert(ts[j] == w[vt.len() as int]);
        assert(ts[j] == SpecToken::RightBracket);
        assert(elems.skip(1) =~= Seq::<Value>::empty());
        assert(values_view(elems.skip(1)) =~= Seq::<SpecValue>::empty());
        assert(values_view(elems) =~= seq![v0@]);
        assert(acc + values_view(elems) =~= acc.push(v0@));
    } else {
        assert(items_tokens(elems)[vt.len() as int] == SpecToken::Comma);
        assert(ts[j] == w[vt.len() as int]);
        assert(ts[j] == SpecToken::Comma);
        let rest = items_tokens(elems.skip(1));
        assert forall|m: int| 0 <= m < rest.len() + 1 implies ts[j + 1 + m] == (rest + seq![
            SpecToken::RightBracket,
        ])[m] by {
            assert(ts[j + 1 + m] == w[vt.len() + 1 + m]);
            assert(items_tokens(elems) + seq![SpecToken::RightBracket] == vt + seq![
                SpecToken::Comma,
            ] + (rest + seq![SpecToken::RightBracket]));
        }
        assert(ts.subrange(j + 1, j + 1 + rest.len() + 1) =~= rest + seq![
            SpecToken::RightBracket,
        ]);
        lemma_parse_items_at(ts, j + 1, elems.skip(1), acc.push(v0@));
        assert(acc.push(v0@) + values_view(elems.skip(1)) =~= acc + values_view(elems));
    }
}

/// Parsing the comma-separated run of a non-empty object's members, closed
/// by a brace, folds their bindings over those already in `acc`.
proof fn lemma_parse_members_at(
    ts: Seq<SpecToken>,
    i: int,
    entries: Seq<(String, Value)>,
    acc: Map<Seq<char>, SpecValue>,
)
    requires
        entries.len() > 0,
        wf_entries(entries),
        0 <= i,
        i + members_tokens(entries).len() + 1 <= ts.len(),
        ts.subrange(i, i + members_tokens(entries).len() + 1) == members_tokens(entries) + seq![
            SpecToken::RightBrace,
        ],
    ensures
        spec_parse_members(ts, i, acc) == Some(
            (entries_map_from(acc, entries), i + members_tokens(entries).len() + 1),
        ),
    decreases entries,
{
    let w = ts.subrange(i, i + members_tokens(entries).len() + 1);
    let e0 = entries[0];
    let pt = pair_tokens(e0);
    let vt = value_tokens(e0.1);
    lemma_value_tokens_first(e0.1);
    assert forall|m: int| 0 <= m < pt.len() implies ts[i + m] == pt[m] by {
        assert(ts[i + m] == w[m]);
        if entries.len() == 1 {
        } else {
            assert(members_tokens(entries)[m] == pt[m]);
        }
    }
    assert(ts[i] == pt[0]);
    assert(ts[i] == SpecToken::Str(e0.0@));
    assert(ts[i + 1] == pt[1]);
    assert(ts[i + 1] == SpecToken::Colon);
    assert forall|m: int| 0 <= m < vt.len() implies ts[i + 2 + m] == vt[m] by {
        assert(ts[i + 2 + m] == pt[2 + m]);
    }
    assert(ts.subrange(i + 2, i + 2 + vt.len()) =~= vt);
    lemma_parse_value_at(ts, i + 2, e0.1);
    let j = i + 2 + vt.len();
    assert(spec_parse_pair(ts, i) == Some(((e0.0@, e0.1@), j)));
    let acc2 = acc.insert(e0.0@, e0.1@);
    if entries.len() == 1 {
        assert(ts[j] == w[pt.len() as int]);
        assert(ts[j] == SpecToken::RightBrace);
        assert(entries.skip(1) =~= Seq::<(String, Value)>::empty());
        assert(entries_map_from(acc2, entries.skip(1)) == acc2);
        assert(entries_map_from(acc, entries) == entries_map_from(
            acc.insert(entries[0].0@, entries[0].1@),
            entries.skip(1),
        ));
        assert(entries_map_from(acc, entries) == acc2);
    } else {
        assert(members_tokens(entries)[pt.len() as int] == SpecToken::Comma);
        assert(ts[j] == w[pt.len() as int]);
        assert(ts[j] == SpecToken::Comma);
        let rest = members_tokens(entries.skip(1));
        assert forall|m: int| 0 <= m < rest.len() + 1 implies ts[j + 1 + m] == (rest + seq![
            SpecToken::RightBrace,
        ])[m] by {
            assert(ts[j + 1 + m] == w[pt.len() + 1 + m]);
            assert(members_tokens(entries) + seq![SpecToken::RightBrace] == pt + seq![
                SpecToken::Comma,
            ] + (rest + seq![SpecToken::RightBrace]));
        }
        assert(ts.subrange(j + 1, j + 1 + rest.len() + 1) =~= rest + seq![
            SpecToken::RightBrace,
        ]);
        lemma_parse_members_at(ts, j + 1, entries.skip(1), acc2);
    }
}

/// The whitespace rendering used by [`value_text`]: one space before each
/// token and one after the last.
pub open spec fn space_gaps(n: int) -> Seq<Seq<char>> {
    Seq::new((n + 1) as nat, |k: int| seq![' '])
}

/// The canonical text of a value: its token run, single spaces between.
pub open spec fn value_text(v: Value) -> Seq<char> {
    render_tokens(value_tokens(v), space_gaps(value_tokens(v).len() as int))
}

/// The round-trip law: a well-formed value tree, rendered as text and read
/// back through the scanner and the parser, yields an equal tree — equal in
/// the model, where object equality does not depend on entry order.
pub proof fn lemma_round_trip(v: Value)
    requires
        wf_value(v),
    ensures
        spec_from_text(value_text(v)) == Some(v@),
{
    let ts = value_tokens(v);
    let gaps = space_gaps(ts.len() as int);
    lemma_value_tokens_wf(v);
    assert(wf_gaps(ts, gaps)) by {
        assert forall|k: int| 0 <= k < gaps.len() implies all_ws(#[trigger] gaps[k]) by {
            assert(gaps[k] == seq![' ']);
        }
    }
    lemma_tokenize_render(ts, gaps);
    assert(ts.subrange(0, ts.len() as int) =~= ts);
    lemma_parse_value_at(ts, 0, v);
}

/// Re-spacing a valid document is immaterial: take the tokens a document
/// scans to, render them again with any whitespace between them, and the new
/// text parses to the same result as the document itself.
pub proof fn lemma_document_reflow(s: Seq<char>, gaps: Seq<Seq<char>>)
    requires
        spec_tokenize(s) is Some,
        wf_gaps(spec_tokenize(s)->Some_0, gaps),
    ensures
        spec_from_text(render_tokens(spec_tokenize(s)->Some_0, gaps)) == spec_from_text(s),
{
    let ts = spec_tokenize(s)->Some_0;
    lemma_tokenize_wf(s);
    lemma_tokenize_render(ts, gaps);
}

} // verus!
