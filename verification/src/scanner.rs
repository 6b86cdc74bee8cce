//! Lexical scanner: turns the input text into a flat sequence of tokens.
use vstd::prelude::*;

verus! {

/// Mathematical model of one token.
pub enum SpecToken {
    LeftBrace,
    RightBrace,
    Colon,
    Comma,
    LeftBracket,
    RightBracket,
    Str(Seq<char>),
    Num(Seq<char>),
    Bool(bool),
    Null,
}

/// One lexical unit. Number tokens carry the literal text, which always
/// satisfies [`valid_number_text`] when produced by [`tokenize`].
#[derive(PartialEq, Debug)]
pub enum Token {
    LeftBrace,
    RightBrace,
    Colon,
    String(String),
    Number(String),
    Boolean(bool),
    Null,
    Comma,
    LeftBracket,
    RightBracket,
}

impl View for Token {
    type V = SpecToken;

    open spec fn view(&self) -> SpecToken {
        match self {
            Token::LeftBrace => SpecToken::LeftBrace,
            Token::RightBrace => SpecToken::RightBrace,
            Token::Colon => SpecToken::Colon,
            Token::Comma => SpecToken::Comma,
            Token::LeftBracket => SpecToken::LeftBracket,
            Token::RightBracket => SpecToken::RightBracket,
            Token::String(s) => SpecToken::Str(s@),
            Token::Number(t) => SpecToken::Num(t@),
            Token::Boolean(b) => SpecToken::Bool(*b),
            Token::Null => SpecToken::Null,
        }
    }
}

/// The whitespace characters skipped between tokens.
pub open spec fn is_ws(c: char) -> bool {
    c == ' ' || c == '\t' || c == '\n' || c == '\r'
}

/// A decimal digit.
pub open spec fn is_digit(c: char) -> bool {
    '0' <= c && c <= '9'
}

/// A character that may continue a numeric literal once one has begun.
pub open spec fn is_num_char(c: char) -> bool {
    is_digit(c) || c == '.' || c == 'e' || c == 'E'
}

/// The first index at or after `i` that does not hold a digit.
pub open spec fn digit_run_end(s: Seq<char>, i: int) -> int
    decreases s.len() - i,
{
    if 0 <= i < s.len() && is_digit(s[i]) {
        digit_run_end(s, i + 1)
    } else {
        i
    }
}

/// Whether `s`, read from `start`, is a full mantissa-and-exponent body:
/// digits, an optional fraction, and an optional exponent, covering the
/// rest of `s` exactly.
pub open spec fn valid_number_from(s: Seq<char>, start: int) -> bool {
    let i = digit_run_end(s, start);
    let has_dot = i < s.len() && s[i] == '.';
    let j = if has_dot {
        digit_run_end(s, i + 1)
    } else {
        i
    };
    let mantissa_ok = i > start || (has_dot && j > i + 1);
    if !mantissa_ok {
        false
    } else if j == s.len() {
        true
    } else if s[j] == 'e' || s[j] == 'E' {
        let k = digit_run_end(s, j + 1);
        k > j + 1 && k == s.len()
    } else {
        false
    }
}

/// The numeric literal grammar: an optional leading minus sign, then digits
/// with an optional fraction part and an optional exponent part.
pub open spec fn valid_number_text(s: Seq<char>) -> bool {
    s.len() > 0 && (is_digit(s[0]) || s[0] == '-') && valid_number_from(
        s,
        if s[0] == '-' {
            1
        } else {
            0
        },
    )
}

/// The character a string escape sequence stands for, if the escape is legal.
pub open spec fn escape_value(c: char) -> Option<char> {
    if c == 'n' {
        Some('\n')
    } else if c == 't' {
        Some('\t')
    } else if c == 'r' {
        Some('\r')
    } else if c == '\\' {
        Some('\\')
    } else if c == '"' {
        Some('"')
    } else {
        None
    }
}

/// Prepends a token to a token sequence, propagating failure.
pub open spec fn push_front_token(t: SpecToken, rest: Option<Seq<SpecToken>>) -> Option<
    Seq<SpecToken>,
> {
    match rest {
        Some(ts) => Some(seq![t] + ts),
        None => None,
    }
}

/// The tokens of `s` from position `i` on, or `None` on a lexical error.
pub open spec fn spec_tokenize_at(s: Seq<char>, i: int) -> Option<Seq<SpecToken>>
    decreases s.len() - i, 0int,
{
    if i >= s.len() {
        Some(Seq::empty())
    } else {
        let c = s[i];
        if c == '{' {
            push_front_token(SpecToken::LeftBrace, spec_tokenize_at(s, i + 1))
        } else if c == '}' {
            push_front_token(SpecToken::RightBrace, spec_tokenize_at(s, i + 1))
        } else if c == ':' {
            push_front_token(SpecToken::Colon, spec_tokenize_at(s, i + 1))
        } else if c == ',' {
            push_front_token(SpecToken::Comma, spec_tokenize_at(s, i + 1))
        } else if c == '[' {
            push_front_token(SpecToken::LeftBracket, spec_tokenize_at(s, i + 1))
        } else if c == ']' {
            push_front_token(SpecToken::RightBracket, spec_tokenize_at(s, i + 1))
        } else if c == '"' {
            spec_tokenize_in_str(s, i + 1, Seq::empty())
        } else if c == 't' {
            if i + 4 <= s.len() && s.subrange(i, i + 4) == seq!['t', 'r', 'u', 'e'] {
                push_front_token(SpecToken::Bool(true), spec_tokenize_at(s, i + 4))
            } else {
                None
            }
        } else if c == 'f' {
            if i + 5 <= s.len() && s.subrange(i, i + 5) == seq!['f', 'a', 'l', 's', 'e'] {
                push_front_token(SpecToken::Bool(false), spec_tokenize_at(s, i + 5))
            } else {
                None
            }
        } else if c == 'n' {
            if i + 4 <= s.len() && s.subrange(i, i + 4) == seq!['n', 'u', 'l', 'l'] {
                push_front_token(SpecToken::Null, spec_tokenize_at(s, i + 4))
            } else {
                None
            }
        } else if is_digit(c) || c == '-' {
            spec_tokenize_in_num(s, i + 1, seq![c])
        } else if is_ws(c) {
            spec_tokenize_at(s, i + 1)
        } else {
            None
        }
    }
}

/// Scans the inside of a string literal begun before position `i`, with the
/// characters decoded so far in `acc`. Reaching the end of the input before
/// the closing quote, or an unknown escape, is a lexical error.
pub open spec fn spec_tokenize_in_str(s: Seq<char>, i: int, acc: Seq<char>) -> Option<
    Seq<SpecToken>,
>
    decreases s.len() - i, 0int,
{
    if i >= s.len() {
        None
    } else if s[i] == '"' {
        push_front_token(SpecToken::Str(acc), spec_tokenize_at(s, i + 1))
    } else if s[i] == '\\' {
        if i + 1 < s.len() {
            match escape_value(s[i + 1]) {
                Some(c) => spec_tokenize_in_str(s, i + 2, acc.push(c)),
                None => None,
            }
        } else {
            None
        }
    } else {
        spec_tokenize_in_str(s, i + 1, acc.push(s[i]))
    }
}

/// Scans the rest of a numeric literal whose text so far is `acc`: takes
/// every digit, `.`, `e` or `E` that follows, then checks the grammar.
pub open spec fn spec_tokenize_in_num(s: Seq<char>, i: int, acc: Seq<char>) -> Option<
    Seq<SpecToken>,
>
    decreases s.len() - i, 1int,
{
    if i < s.len() && is_num_char(s[i]) {
        spec_tokenize_in_num(s, i + 1, acc.push(s[i]))
    } else if valid_number_text(acc) {
        push_front_token(SpecToken::Num(acc), spec_tokenize_at(s, i))
    } else {
        None
    }
}

/// The token sequence of the whole input, or `None` on a lexical error.
pub open spec fn spec_tokenize(s: Seq<char>) -> Option<Seq<SpecToken>> {
    spec_tokenize_at(s, 0)
}

/// The views of a sequence of tokens, in order.
pub open spec fn token_views(ts: Seq<Token>) -> Seq<SpecToken> {
    ts.map_values(|t: Token| t@)
}

/// Prepends an already-scanned token run to a scan outcome.
pub open spec fn prepend_tokens(done: Seq<SpecToken>, rest: Option<Seq<SpecToken>>) -> Option<
    Seq<SpecToken>,
> {
    match rest {
        Some(ts) => Some(done + ts),
        None => None,
    }
}

/// Relies on String::push: appends exactly the given character at the end.
#[verifier::external_body]
fn push_char(s: &mut String, c: char)
    ensures
        final(s)@ == old(s)@.push(c),
{
    s.push(c);
}

fn char_is_digit(c: char) -> (b: bool)
    ensures
        b == is_digit(c),
{
    '0' <= c && c <= '9'
}

fn char_is_num(c: char) -> (b: bool)
    ensures
        b == is_num_char(c),
{
    char_is_digit(c) || c == '.' || c == 'e' || c == 'E'
}

fn char_is_ws(c: char) -> (b: bool)
    ensures
        b == is_ws(c),
{
    c == ' ' || c == '\t' || c == '\n' || c == '\r'
}

/// The first position at or after `from` that does not hold a digit.
fn scan_digits(text: &str, from: usize) -> (r: usize)
    requires
        from <= text@.len(),
    ensures
        r == digit_run_end(text@, from as int),
        from <= r <= text@.len(),
{
    let n = text.unicode_len();
    let mut i = from;
    while i < n
        invariant
            from <= i <= n,
            n == text@.len(),
            digit_run_end(text@, from as int) == digit_run_end(text@, i as int),
        decreases n - i,
    {
        if !char_is_digit(text.get_char(i)) {
            return i;
        }
        i = i + 1;
    }
    i
}

/// Whether the text is a numeric literal of the grammar the scanner accepts.
pub fn check_number(text: &str) -> (b: bool)
    ensures
        b == valid_number_text(text@),
{
    let n = text.unicode_len();
    if n == 0 {
        return false;
    }
    let c0 = text.get_char(0);
    if !(c0 == '-' || char_is_digit(c0)) {
        return false;
    }
    let start: usize = if c0 == '-' {
        1
    } else {
        0
    };
    let i = scan_digits(text, start);
    let has_dot = i < n && text.get_char(i) == '.';
    let j = if has_dot {
        scan_digits(text, i + 1)
    } else {
        i
    };
    let mantissa_ok = i > start || (has_dot && j > i + 1);
    if !mantissa_ok {
        return false;
    }
    if j == n {
        return true;
    }
    let cj = text.get_char(j);
    if cj == 'e' || cj == 'E' {
        let k = scan_digits(text, j + 1);
        k > j + 1 && k == n
    } else {
        false
    }
}

/// Whether the characters of `kw` stand in `input` at position `i`.
fn match_at(input: &str, i: usize, len: usize, kw: &str) -> (b: bool)
    requires
        i <= len,
        len == input@.len(),
    ensures
        b == (i + kw@.len() <= input@.len() && input@.subrange(i as int, i + kw@.len())
            == kw@),
{
    let klen = kw.unicode_len();
    if klen > len - i {
        return false;
    }
    let mut k: usize = 0;
    while k < klen
        invariant
            0 <= k <= klen,
            i + klen <= len,
            len == input@.len(),
            klen == kw@.len(),
            forall|m: int| 0 <= m < k ==> input@[i + m] == kw@[m],
        decreases klen - k,
    {
        if input.get_char(i + k) != kw.get_char(k) {
            proof {
                assert(input@.subrange(i as int, i + kw@.len())[k as int] != kw@[k as int]);
            }
            return false;
        }
        k = k + 1;
    }
    proof {
        assert(input@.subrange(i as int, i + kw@.len()) =~= kw@);
    }
    true
}

/// Scans the body of a string literal whose opening quote stood just before
/// `start`; returns the decoded content and the position after the closing
/// quote, or `None` on an unterminated literal or an unknown escape.
fn tokenize_string(input: &str, start: usize) -> (r: Option<(String, usize)>)
    requires
        start <= input@.len(),
    ensures
        match r {
            Some(p) => spec_tokenize_in_str(input@, start as int, Seq::empty())
                == push_front_token(
                SpecToken::Str(p.0@),
                spec_tokenize_at(input@, p.1 as int),
            ) && start < p.1 <= input@.len(),
            None => spec_tokenize_in_str(input@, start as int, Seq::empty()) is None,
        },
{
    let len = input.unicode_len();
    let mut content = String::new();
    let mut i = start;
    while i < len
        invariant
            start <= i <= len,
            len == input@.len(),
            spec_tokenize_in_str(input@, start as int, Seq::empty()) == spec_tokenize_in_str(
                input@,
                i as int,
                content@,
            ),
        decreases len - i,
    {
        let cc = input.get_char(i);
        if cc == '"' {
            return Some((content, i + 1));
        } else if cc == '\\' {
            if i + 1 >= len {
                return None;
            }
            let ec = input.get_char(i + 1);
            let decoded: char;
            if ec == 'n' {
                decoded = '\n';
            } else if ec == 't' {
                decoded = '\t';
            } else if ec == 'r' {
                decoded = '\r';
            } else if ec == '\\' {
                decoded = '\\';
            } else if ec == '"' {
                decoded = '"';
            } else {
                return None;
            }
            push_char(&mut content, decoded);
            i = i + 2;
        } else {
            push_char(&mut content, cc);
            i = i + 1;
        }
    }
    None
}

/// Extends a number scan: the run of number characters from `j` to `end`,
/// appended to the text scanned so far, leaves the outcome unchanged.
pub(crate) proof fn lemma_in_num_scan(s: Seq<char>, j: int, end: int, acc: Seq<char>)
    requires
        0 <= j <= end <= s.len(),
        forall|k: int| j <= k < end ==> is_num_char(s[k]),
    ensures
        spec_tokenize_in_num(s, j, acc) == spec_tokenize_in_num(
            s,
            end,
            acc + s.subrange(j, end),
        ),
    decreases end - j,
{
    if j == end {
        assert(acc + s.subrange(j, end) =~= acc);
    } else {
        lemma_in_num_scan(s, j + 1, end, acc.push(s[j]));
        assert(acc.push(s[j]) + s.subrange(j + 1, end) =~= acc + s.subrange(j, end));
    }
}

/// The run of number characters from `from` on: its end position.
fn scan_num_end(input: &str, from: usize, len: usize) -> (r: usize)
    requires
        from <= len,
        len == input@.len(),
    ensures
        from <= r <= len,
        forall|k: int| from <= k < r ==> is_num_char(input@[k]),
        r < len ==> !is_num_char(input@[r as int]),
{
    let mut i = from;
    while i < len
        invariant
            from <= i <= len,
            len == input@.len(),
            forall|k: int| from <= k < i ==> is_num_char(input@[k]),
        decreases len - i,
    {
        if !char_is_num(input.get_char(i)) {
            return i;
        }
        i = i + 1;
    }
    i
}

/// Scans the rest of a numeric literal whose first character `first` stood
/// just before `start`; returns the literal text and the position after it,
/// or `None` when the accumulated text breaks the number grammar.
fn tokenize_number(input: &str, start: usize, first: char) -> (r: Option<(String, usize)>)
    requires
        start <= input@.len(),
    ensures
        match r {
            Some(p) => spec_tokenize_in_num(input@, start as int, seq![first])
                == push_front_token(
                SpecToken::Num(p.0@),
                spec_tokenize_at(input@, p.1 as int),
            ) && start <= p.1 <= input@.len() && valid_number_text(p.0@),
            None => spec_tokenize_in_num(input@, start as int, seq![first]) is None,
        },
{
    let len = input.unicode_len();
    let end = scan_num_end(input, start, len);
    let mut text = String::new();
    push_char(&mut text, first);
    let run = input.substring_char(start, end);
    text.append(run);
    proof {
        lemma_in_num_scan(input@, start as int, end as int, seq![first]);
        assert(text@ =~= seq![first] + input@.subrange(start as int, end as int));
    }
    if check_number(text.as_str()) {
        Some((text, end))
    } else {
        None
    }
}

/// Turns the input text into its token sequence; fails on any lexical error.
pub fn tokenize(input: &str) -> (r: Option<Vec<Token>>)
    ensures
        match r {
            Some(tokens) => spec_tokenize(input@) == Some(token_views(tokens@)),
            None => spec_tokenize(input@) is None,
        },
{
    let len = input.unicode_len();
    let mut tokens: Vec<Token> = Vec::new();
    let mut i: usize = 0;
    while i < len
        invariant
            0 <= i <= len,
            len == input@.len(),
            spec_tokenize(input@) == prepend_tokens(
                token_views(tokens@),
                spec_tokenize_at(input@, i as int),
            ),
        decreases len - i,
    {
        let ghost prev = tokens@;
        let c = input.get_char(i);
        if c == '{' {
            tokens.push(Token::LeftBrace);
            i = i + 1;
            proof {
                lemma_prepend_push(prev, Token::LeftBrace, spec_tokenize_at(input@, i as int));
            }
        } else if c == '}' {
            tokens.push(Token::RightBrace);
            i = i + 1;
            proof {
                lemma_prepend_push(prev, Token::RightBrace, spec_tokenize_at(input@, i as int));
            }
        } else if c == ':' {
            tokens.push(Token::Colon);
            i = i + 1;
            proof {
                lemma_prepend_push(prev, Token::Colon, spec_tokenize_at(input@, i as int));
            }
        } else if c == ',' {
            tokens.push(Token::Comma);
            i = i + 1;
            proof {
                lemma_prepend_push(prev, Token::Comma, spec_tokenize_at(input@, i as int));
            }
        } else if c == '[' {
            tokens.push(Token::LeftBracket);
            i = i + 1;
            proof {
                lemma_prepend_push(prev, Token::LeftBracket, spec_tokenize_at(input@, i as int));
            }
        } else if c == ']' {
            tokens.push(Token::RightBracket);
            i = i + 1;
            proof {
                lemma_prepend_push(prev, Token::RightBracket, spec_tokenize_at(input@, i as int));
            }
        } else if c == '"' {
            match tokenize_string(input, i + 1) {
                Some(p) => {
                    let j = p.1;
                    tokens.push(Token::String(p.0));
                    i = j;
                    proof {
                        lemma_prepend_push(
                            prev,
                            tokens@[tokens@.len() - 1],
                            spec_tokenize_at(input@, i as int),
                        );
                    }
                },
                None => {
                    return None;
                },
            }
        } else if c == 't' {
            if match_at(input, i, len, "true") {
                proof {
                    reveal_strlit("true");
                    assert(input@.subrange(i as int, i + 4) =~= seq!['t', 'r', 'u', 'e']);
                }
                tokens.push(Token::Boolean(true));
                i = i + 4;
                proof {
                    lemma_prepend_push(
                        prev,
                        Token::Boolean(true),
                        spec_tokenize_at(input@, i as int),
                    );
                }
            } else {
                // Had the keyword stood here, the matcher would have seen it.
                proof {
                    reveal_strlit("true");
                    if i + 4 <= len && input@.subrange(i as int, i + 4) =~= seq!['t', 'r', 'u', 'e'] {
                        assert(input@.subrange(i as int, i + 4) =~= "true"@);
                    }
                }
                return None;
            }
        } else if c == 'f' {
            if match_at(input, i, len, "false") {
                proof {
                    reveal_strlit("false");
                    assert(input@.subrange(i as int, i + 5) =~= seq!['f', 'a', 'l', 's', 'e']);
                }
                tokens.push(Token::Boolean(false));
                i = i + 5;
                proof {
                    lemma_prepend_push(
                        prev,
                        Token::Boolean(false),
                        spec_tokenize_at(input@, i as int),
                    );
                }
            } else {
                // Had the keyword stood here, the matcher would have seen it.
                proof {
                    reveal_strlit("false");
                    if i + 5 <= len && input@.subrange(i as int, i + 5) =~= seq!['f', 'a', 'l', 's', 'e'] {
                        assert(input@.subrange(i as int, i + 5) =~= "false"@);
                    }
                }
                return None;
            }
        } else if c == 'n' {
            if match_at(input, i, len, "null") {
                proof {
                    reveal_strlit("null");
                    assert(input@.subrange(i as int, i + 4) =~= seq!['n', 'u', 'l', 'l']);
                }
                tokens.push(Token::Null);
                i = i + 4;
                proof {
                    lemma_prepend_push(prev, Token::Null, spec_tokenize_at(input@, i as int));
                }
            } else {
                // Had the keyword stood here, the matcher would have seen it.
                proof {
                    reveal_strlit("null");
                    if i + 4 <= len && input@.subrange(i as int, i + 4) =~= seq!['n', 'u', 'l', 'l'] {
                        assert(input@.subrange(i as int, i + 4) =~= "null"@);
                    }
                }
                return None;
            }
        } else if char_is_digit(c) || c == '-' {
            match tokenize_number(input, i + 1, c) {
                Some(p) => {
                    let j = p.1;
                    tokens.push(Token::Number(p.0));
                    i = j;
                    proof {
                        lemma_prepend_push(
                            prev,
                            tokens@[tokens@.len() - 1],
                            spec_tokenize_at(input@, i as int),
                        );
                    }
                },
                None => {
                    return None;
                },
            }
        } else if char_is_ws(c) {
            i = i + 1;
        } else {
            return None;
        }
    }
    proof {
        assert(token_views(tokens@) + Seq::<SpecToken>::empty() =~= token_views(tokens@));
    }
    Some(tokens)
}

/// Prepending the run and then one more token is appending that token to the
/// run.
proof fn lemma_prepend_push(done: Seq<Token>, t: Token, rest: Option<Seq<SpecToken>>)
    ensures
        prepend_tokens(token_views(done), push_front_token(t@, rest)) == prepend_tokens(
            token_views(done.push(t)),
            rest,
        ),
{
    match rest {
        Some(ts) => {
            assert(token_views(done.push(t)) =~= token_views(done).push(t@));
            assert(token_views(done) + (seq![t@] + ts) =~= token_views(done).push(t@) + ts);
        },
        None => {},
    }
}

} // verus!
