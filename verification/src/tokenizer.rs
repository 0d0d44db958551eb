//! The lexer: raw text to a flat token sequence.
//!
//! Lexing is a single forward pass with one character of lookahead.
//! Whitespace separates tokens and carries none of its own; sigils and
//! bracket characters are single-character tokens; a comment runs from the
//! comment character to end of line and is retained; string and character
//! literals support the escapes `\n`, `\r` and an escaped newline; a
//! numeric literal greedily consumes the numeric character set; any other
//! run of non-whitespace, non-bracket characters is an identifier. A sigil
//! character inside an identifier does not end it; only a leading sigil is
//! its own token.

use vstd::prelude::*;
use crate::errors::LexError;
use crate::numeric_literal::is_digit_char;

verus! {

/// One lexical unit.
#[derive(Debug, Clone, PartialEq)]
pub enum Token {
    Comment(String),
    Ident(String),
    NumericLiteral(String),
    CharLiteral(char),
    StringLiteral(String),
    Dollar,
    Colon,
    Octothorp,
    AtSign,
    QMark,
    /// `true` is open, `false` is close.
    Square(bool),
    /// `true` is open, `false` is close.
    Curly(bool),
}

/// Mathematical image of a `Token`.
pub enum TokenV {
    Comment(Seq<char>),
    Ident(Seq<char>),
    NumericLiteral(Seq<char>),
    CharLiteral(char),
    StringLiteral(Seq<char>),
    Dollar,
    Colon,
    Octothorp,
    AtSign,
    QMark,
    Square(bool),
    Curly(bool),
}

impl View for Token {
    type V = TokenV;

    open spec fn view(&self) -> TokenV {
        match self {
            Token::Comment(s) => TokenV::Comment(s@),
            Token::Ident(s) => TokenV::Ident(s@),
            Token::NumericLiteral(s) => TokenV::NumericLiteral(s@),
            Token::CharLiteral(c) => TokenV::CharLiteral(*c),
            Token::StringLiteral(s) => TokenV::StringLiteral(s@),
            Token::Dollar => TokenV::Dollar,
            Token::Colon => TokenV::Colon,
            Token::Octothorp => TokenV::Octothorp,
            Token::AtSign => TokenV::AtSign,
            Token::QMark => TokenV::QMark,
            Token::Square(b) => TokenV::Square(*b),
            Token::Curly(b) => TokenV::Curly(*b),
        }
    }
}

/// The views of a token sequence.
pub open spec fn toks_view(ts: Seq<Token>) -> Seq<TokenV> {
    ts.map_values(|t: Token| t@)
}

// ---------------------------------------------------------------------------
// Character classes
// ---------------------------------------------------------------------------

/// The language's whitespace: space, tab, newline, carriage return.
pub open spec fn is_space_char(c: char) -> bool {
    c == ' ' || c == '\t' || c == '\n' || c == '\r'
}

pub open spec fn is_bracket_char(c: char) -> bool {
    c == '[' || c == ']' || c == '{' || c == '}'
}

pub open spec fn is_sigil_char(c: char) -> bool {
    c == '$' || c == ':' || c == '#' || c == '@' || c == '?'
}

/// The characters a numeric literal greedily consumes.
pub open spec fn is_numeric_body_char(c: char) -> bool {
    is_digit_char(c) || c == '-' || c == '.' || c == 'E' || c == 'd' || c == 'b' || c == 'f'
        || c == 'i' || c == 'u'
}

fn space_char(c: char) -> (r: bool)
    ensures
        r == is_space_char(c),
{
    c == ' ' || c == '\t' || c == '\n' || c == '\r'
}

fn bracket_char(c: char) -> (r: bool)
    ensures
        r == is_bracket_char(c),
{
    c == '[' || c == ']' || c == '{' || c == '}'
}

fn numeric_body_char(c: char) -> (r: bool)
    ensures
        r == is_numeric_body_char(c),
{
    let u = c as u32;
    (48 <= u && u <= 57) || c == '-' || c == '.' || c == 'E' || c == 'd' || c == 'b' || c == 'f'
        || c == 'i' || c == 'u'
}

// ---------------------------------------------------------------------------
// Scan boundaries
// ---------------------------------------------------------------------------

/// The first index `>= i` past the numeric character run.
pub open spec fn numeric_end(s: Seq<char>, i: int) -> int
    decreases s.len() - i,
{
    if i < 0 || i >= s.len() {
        s.len() as int
    } else if is_numeric_body_char(s[i]) {
        numeric_end(s, i + 1)
    } else {
        i
    }
}

/// The first index `>= i` holding whitespace or a bracket character.
pub open spec fn ident_end(s: Seq<char>, i: int) -> int
    decreases s.len() - i,
{
    if i < 0 || i >= s.len() {
        s.len() as int
    } else if is_space_char(s[i]) || is_bracket_char(s[i]) {
        i
    } else {
        ident_end(s, i + 1)
    }
}

/// The first index `>= i` holding a newline, where a comment ends.
pub open spec fn comment_end(s: Seq<char>, i: int) -> int
    decreases s.len() - i,
{
    if i < 0 || i >= s.len() {
        s.len() as int
    } else if s[i] == '\n' {
        i
    } else {
        comment_end(s, i + 1)
    }
}

/// What an escape introducer makes of the following character.
pub open spec fn escape_of(c: char) -> Option<char> {
    if c == 'n' {
        Some('\n')
    } else if c == 'r' {
        Some('\r')
    } else if c == '\n' {
        Some('\n')
    } else {
        None
    }
}

/// Scans a string literal's content from index `i`, the position right
/// after the opening quote at `open_at`. Yields the unescaped content and
/// the index after the closing quote.
pub open spec fn scan_string(s: Seq<char>, open_at: int, i: int) -> Result<
    (Seq<char>, int),
    LexError,
>
    decreases s.len() - i,
{
    if i < 0 || i >= s.len() {
        Err(LexError::UnterminatedString { at: open_at as usize })
    } else if s[i] == '"' {
        Ok((Seq::empty(), i + 1))
    } else if s[i] == '\\' {
        if i + 1 >= s.len() {
            Err(LexError::UnterminatedString { at: open_at as usize })
        } else {
            match escape_of(s[i + 1]) {
                None => Err(LexError::BadEscape { at: (i + 1) as usize }),
                Some(c) => match scan_string(s, open_at, i + 2) {
                    Ok((t, j)) => Ok((seq![c] + t, j)),
                    Err(e) => Err(e),
                },
            }
        }
    } else {
        match scan_string(s, open_at, i + 1) {
            Ok((t, j)) => Ok((seq![s[i]] + t, j)),
            Err(e) => Err(e),
        }
    }
}

/// Scans a character literal from index `i`, the position right after the
/// opening quote at `open_at`: exactly one possibly escaped character,
/// then the closing quote. Yields the character and the index after the
/// closing quote.
pub open spec fn scan_char_lit(s: Seq<char>, open_at: int, i: int) -> Result<
    (char, int),
    LexError,
> {
    if i < 0 || i >= s.len() {
        Err(LexError::UnterminatedChar { at: open_at as usize })
    } else if s[i] == '\'' {
        Err(LexError::CharNotSingle { at: i as usize })
    } else if s[i] == '\\' {
        if i + 1 >= s.len() {
            Err(LexError::UnterminatedChar { at: open_at as usize })
        } else {
            match escape_of(s[i + 1]) {
                None => Err(LexError::BadEscape { at: (i + 1) as usize }),
                Some(c) => scan_char_close(s, open_at, c, i + 2),
            }
        }
    } else {
        scan_char_close(s, open_at, s[i], i + 1)
    }
}

/// Expects the closing quote of a character literal at `k`.
pub open spec fn scan_char_close(s: Seq<char>, open_at: int, c: char, k: int) -> Result<
    (char, int),
    LexError,
> {
    if k >= s.len() {
        Err(LexError::UnterminatedChar { at: open_at as usize })
    } else if s[k] == '\'' {
        Ok((c, k + 1))
    } else {
        Err(LexError::CharNotSingle { at: k as usize })
    }
}

// ---------------------------------------------------------------------------
// The lexer itself
// ---------------------------------------------------------------------------

/// Clamps a scan result into `(i, n]` so recursion visibly advances; every
/// scan used with it already lands there.
pub open spec fn advance(i: int, j: int, n: int) -> int {
    if j < i + 1 {
        i + 1
    } else if j <= n {
        j
    } else {
        n
    }
}

/// Puts a token in front of a lexing result.
pub open spec fn cons_lex(t: TokenV, r: Result<Seq<TokenV>, LexError>) -> Result<
    Seq<TokenV>,
    LexError,
> {
    match r {
        Ok(ts) => Ok(seq![t] + ts),
        Err(e) => Err(e),
    }
}

/// The token sequence of `s` from index `i` on.
pub open spec fn lex_from(s: Seq<char>, i: int) -> Result<Seq<TokenV>, LexError>
    decreases s.len() - i,
{
    let n = s.len() as int;
    if i < 0 || i >= n {
        Ok(Seq::empty())
    } else {
        let c = s[i];
        if is_space_char(c) {
            lex_from(s, i + 1)
        } else if c == '$' {
            cons_lex(TokenV::Dollar, lex_from(s, i + 1))
        } else if c == ':' {
            cons_lex(TokenV::Colon, lex_from(s, i + 1))
        } else if c == '#' {
            cons_lex(TokenV::Octothorp, lex_from(s, i + 1))
        } else if c == '@' {
            cons_lex(TokenV::AtSign, lex_from(s, i + 1))
        } else if c == '?' {
            cons_lex(TokenV::QMark, lex_from(s, i + 1))
        } else if c == '{' {
            cons_lex(TokenV::Curly(true), lex_from(s, i + 1))
        } else if c == '}' {
            cons_lex(TokenV::Curly(false), lex_from(s, i + 1))
        } else if c == '[' {
            cons_lex(TokenV::Square(true), lex_from(s, i + 1))
        } else if c == ']' {
            cons_lex(TokenV::Square(false), lex_from(s, i + 1))
        } else if c == ';' {
            let j = comment_end(s, i + 1);
            cons_lex(TokenV::Comment(s.subrange(i + 1, advance(i, j, n))), lex_from(s, advance(i, j, n)))
        } else if c == '"' {
            match scan_string(s, i, i + 1) {
                Ok((t, j)) => cons_lex(TokenV::StringLiteral(t), lex_from(s, advance(i, j, n))),
                Err(e) => Err(e),
            }
        } else if c == '\'' {
            match scan_char_lit(s, i, i + 1) {
                Ok((ch, j)) => cons_lex(TokenV::CharLiteral(ch), lex_from(s, advance(i, j, n))),
                Err(e) => Err(e),
            }
        } else if is_digit_char(c) || c == '-' {
            let j = numeric_end(s, i);
            cons_lex(
                TokenV::NumericLiteral(s.subrange(i, advance(i, j, n))),
                lex_from(s, advance(i, j, n)),
            )
        } else {
            let j = ident_end(s, i);
            cons_lex(TokenV::Ident(s.subrange(i, advance(i, j, n))), lex_from(s, advance(i, j, n)))
        }
    }
}

/// The token sequence of a whole input.
pub open spec fn lex_spec(s: Seq<char>) -> Result<Seq<TokenV>, LexError> {
    lex_from(s, 0)
}

/// Appends a lexing result to already-produced tokens.
pub open spec fn lex_combine(acc: Seq<TokenV>, r: Result<Seq<TokenV>, LexError>) -> Result<
    Seq<TokenV>,
    LexError,
> {
    match r {
        Ok(ts) => Ok(acc + ts),
        Err(e) => Err(e),
    }
}

proof fn lemma_combine_cons(acc: Seq<TokenV>, t: TokenV, r: Result<Seq<TokenV>, LexError>)
    ensures
        lex_combine(acc, cons_lex(t, r)) == lex_combine(acc.push(t), r),
{
    match r {
        Ok(ts) => {
            assert(acc + (seq![t] + ts) =~= acc.push(t) + ts);
        },
        Err(_) => {},
    }
}

// ---------------------------------------------------------------------------
// Scanning helpers
// ---------------------------------------------------------------------------

/// Scans a comment starting at the marker `at`; yields the comment token
/// (text without the marker) and the index of the terminating newline or
/// end of input.
fn comment_tokenizer(s: &Vec<char>, at: usize) -> (r: (Token, usize))
    requires
        at < s@.len(),
    ensures
        r.0@ == TokenV::Comment(s@.subrange(at as int + 1, comment_end(s@, at as int + 1))),
        r.1 == comment_end(s@, at as int + 1),
        at < r.1 <= s@.len(),
{
    let n = s.len();
    let mut j: usize = at + 1;
    while j < n && s[j] != '\n'
        invariant
            at + 1 <= j <= n == s@.len(),
            comment_end(s@, at as int + 1) == comment_end(s@, j as int),
        decreases n - j,
    {
        j = j + 1;
    }
    proof {
        assert(comment_end(s@, j as int) == j as int);
    }
    let text = crate::text::string_from_range(s, at + 1, j);
    (Token::Comment(text), j)
}

/// Scans a numeric literal starting at `at`, which must hold a numeric
/// character; yields the token and the first index past the run.
fn numeric_tokenize(s: &Vec<char>, at: usize) -> (r: (Token, usize))
    requires
        at < s@.len(),
        is_numeric_body_char(s@[at as int]),
    ensures
        r.0@ == TokenV::NumericLiteral(s@.subrange(at as int, numeric_end(s@, at as int))),
        r.1 == numeric_end(s@, at as int),
        at < r.1 <= s@.len(),
{
    let n = s.len();
    let mut j: usize = at;
    while j < n && numeric_body_char(s[j])
        invariant
            at <= j <= n == s@.len(),
            numeric_end(s@, at as int) == numeric_end(s@, j as int),
            j > at || (at < s@.len() && is_numeric_body_char(s@[at as int])),
        decreases n - j,
    {
        j = j + 1;
    }
    proof {
        assert(numeric_end(s@, j as int) == j as int);
    }
    let text = crate::text::string_from_range(s, at, j);
    (Token::NumericLiteral(text), j)
}

/// Scans an identifier starting at `at`, which must hold neither
/// whitespace nor a bracket; yields the token and the first index past
/// the run.
fn ident_tokenizer(s: &Vec<char>, at: usize) -> (r: (Token, usize))
    requires
        at < s@.len(),
        !is_space_char(s@[at as int]),
        !is_bracket_char(s@[at as int]),
    ensures
        r.0@ == TokenV::Ident(s@.subrange(at as int, ident_end(s@, at as int))),
        r.1 == ident_end(s@, at as int),
        at < r.1 <= s@.len(),
{
    let n = s.len();
    let mut j: usize = at;
    while j < n && !space_char(s[j]) && !bracket_char(s[j])
        invariant
            at <= j <= n == s@.len(),
            ident_end(s@, at as int) == ident_end(s@, j as int),
            j > at || (at < s@.len() && !is_space_char(s@[at as int]) && !is_bracket_char(
                s@[at as int],
            )),
        decreases n - j,
    {
        j = j + 1;
    }
    proof {
        assert(ident_end(s@, j as int) == j as int);
    }
    let text = crate::text::string_from_range(s, at, j);
    (Token::Ident(text), j)
}

/// Scans a string literal whose opening quote stands at `at`; yields the
/// token with the unescaped content and the index after the closing
/// quote, or the lex error the literal contains.
fn string_tokenizer(s: &Vec<char>, at: usize) -> (r: Result<(Token, usize), LexError>)
    requires
        at < s@.len(),
    ensures
        (match r {
            Ok((tok, next)) => {
                &&& scan_string(s@, at as int, at as int + 1) matches Ok(p)
                &&& tok@ == TokenV::StringLiteral(p.0)
                &&& next as int == p.1
                &&& at < next <= s@.len()
            },
            Err(e) => scan_string(s@, at as int, at as int + 1) == Err::<(Seq<char>, int), _>(e),
        }),
{
    let n = s.len();
    let mut cur: Vec<char> = Vec::new();
    let mut j: usize = at + 1;
    loop
        invariant
            at + 1 <= j <= n == s@.len(),
            scan_string(s@, at as int, at as int + 1) == (match scan_string(
                s@,
                at as int,
                j as int,
            ) {
                Ok((t, e)) => Ok::<(Seq<char>, int), LexError>((cur@ + t, e)),
                Err(er) => Err::<(Seq<char>, int), LexError>(er),
            }),
        decreases n - j,
    {
        if j >= n {
            return Err(LexError::UnterminatedString { at });
        }
        let c = s[j];
        if c == '"' {
            proof {
                let p = scan_string(s@, at as int, at as int + 1);
                assert(scan_string(s@, at as int, j as int) == Ok::<(Seq<char>, int), LexError>(
                    (Seq::empty(), j as int + 1),
                ));
                assert(cur@ + Seq::<char>::empty() =~= cur@);
            }
            let text = crate::text::chars_to_string(&cur);
            return Ok((Token::StringLiteral(text), j + 1));
        } else if c == '\\' {
            if j + 1 >= n {
                return Err(LexError::UnterminatedString { at });
            }
            let e = s[j + 1];
            let unescaped: char = if e == 'n' {
                '\n'
            } else if e == 'r' {
                '\r'
            } else if e == '\n' {
                '\n'
            } else {
                return Err(LexError::BadEscape { at: j + 1 });
            };
            proof {
                assert(escape_of(s@[j as int + 1]) == Some(unescaped));
                let rest = scan_string(s@, at as int, j as int + 2);
                match rest {
                    Ok((t, en)) => {
                        assert((cur@ + (seq![unescaped] + t)) =~= (cur@.push(unescaped) + t));
                    },
                    Err(_) => {},
                }
            }
            cur.push(unescaped);
            j = j + 2;
        } else {
            proof {
                let rest = scan_string(s@, at as int, j as int + 1);
                match rest {
                    Ok((t, en)) => {
                        assert((cur@ + (seq![c] + t)) =~= (cur@.push(c) + t));
                    },
                    Err(_) => {},
                }
            }
            cur.push(c);
            j = j + 1;
        }
    }
}

/// Scans a character literal whose opening quote stands at `at`; yields
/// the token and the index after the closing quote, or the lex error the
/// literal contains.
fn char_tokenizer(s: &Vec<char>, at: usize) -> (r: Result<(Token, usize), LexError>)
    requires
        at < s@.len(),
    ensures
        (match r {
            Ok((tok, next)) => {
                &&& scan_char_lit(s@, at as int, at as int + 1) matches Ok(p)
                &&& tok@ == TokenV::CharLiteral(p.0)
                &&& next as int == p.1
                &&& at < next <= s@.len()
            },
            Err(e) => scan_char_lit(s@, at as int, at as int + 1) == Err::<(char, int), _>(e),
        }),
{
    let n = s.len();
    let i = at + 1;
    if i >= n {
        return Err(LexError::UnterminatedChar { at });
    }
    let c = s[i];
    if c == '\'' {
        return Err(LexError::CharNotSingle { at: i });
    }
    let (ch, k): (char, usize) = if c == '\\' {
        if i + 1 >= n {
            return Err(LexError::UnterminatedChar { at });
        }
        let e = s[i + 1];
        let unescaped: char = if e == 'n' {
            '\n'
        } else if e == 'r' {
            '\r'
        } else if e == '\n' {
            '\n'
        } else {
            return Err(LexError::BadEscape { at: i + 1 });
        };
        (unescaped, i + 2)
    } else {
        (c, i + 1)
    };
    if k >= n {
        return Err(LexError::UnterminatedChar { at });
    }
    if s[k] == '\'' {
        Ok((Token::CharLiteral(ch), k + 1))
    } else {
        Err(LexError::CharNotSingle { at: k })
    }
}

/// Turns source text into its token sequence, or reports the first lex
/// error: a bad escape or an unterminated literal.
pub fn tokenizer(input: String) -> (r: Result<Vec<Token>, LexError>)
    ensures
        r matches Ok(v) ==> lex_spec(input@) == Ok::<_, LexError>(toks_view(v@)),
        r matches Err(e) ==> lex_spec(input@) == Err::<Seq<TokenV>, _>(e),
{
    let s = crate::text::str_to_chars(input.as_str());
    let n = s.len();
    let mut out: Vec<Token> = Vec::new();
    let mut i: usize = 0;
    while i < n
        invariant
            i <= n == s@.len(),
            s@ == input@,
            lex_from(s@, 0) == lex_combine(toks_view(out@), lex_from(s@, i as int)),
        decreases n - i,
    {
        let ghost acc = toks_view(out@);
        let c = s[i];
        if space_char(c) {
            i = i + 1;
        } else if c == '$' {
            proof {
                lemma_combine_cons(acc, TokenV::Dollar, lex_from(s@, i as int + 1));
                lemma_toks_view_push(out@, Token::Dollar);
            }
            out.push(Token::Dollar);
            i = i + 1;
        } else if c == ':' {
            proof {
                lemma_combine_cons(acc, TokenV::Colon, lex_from(s@, i as int + 1));
                lemma_toks_view_push(out@, Token::Colon);
            }
            out.push(Token::Colon);
            i = i + 1;
        } else if c == '#' {
            proof {
                lemma_combine_cons(acc, TokenV::Octothorp, lex_from(s@, i as int + 1));
                lemma_toks_view_push(out@, Token::Octothorp);
            }
            out.push(Token::Octothorp);
            i = i + 1;
        } else if c == '@' {
            proof {
                lemma_combine_cons(acc, TokenV::AtSign, lex_from(s@, i as int + 1));
                lemma_toks_view_push(out@, Token::AtSign);
            }
            out.push(Token::AtSign);
            i = i + 1;
        } else if c == '?' {
            proof {
                lemma_combine_cons(acc, TokenV::QMark, lex_from(s@, i as int + 1));
                lemma_toks_view_push(out@, Token::QMark);
            }
            out.push(Token::QMark);
            i = i + 1;
        } else if c == '{' {
            proof {
                lemma_combine_cons(acc, TokenV::Curly(true), lex_from(s@, i as int + 1));
                lemma_toks_view_push(out@, Token::Curly(true));
            }
            out.push(Token::Curly(true));
            i = i + 1;
        } else if c == '}' {
            proof {
                lemma_combine_cons(acc, TokenV::Curly(false), lex_from(s@, i as int + 1));
                lemma_toks_view_push(out@, Token::Curly(false));
            }
            out.push(Token::Curly(false));
            i = i + 1;
        } else if c == '[' {
            proof {
                lemma_combine_cons(acc, TokenV::Square(true), lex_from(s@, i as int + 1));
                lemma_toks_view_push(out@, Token::Square(true));
            }
            out.push(Token::Square(true));
            i = i + 1;
        } else if c == ']' {
            proof {
                lemma_combine_cons(acc, TokenV::Square(false), lex_from(s@, i as int + 1));
                lemma_toks_view_push(out@, Token::Square(false));
            }
            out.push(Token::Square(false));
            i = i + 1;
        } else if c == ';' {
            let (tok, next) = comment_tokenizer(&s, i);
            proof {
                assert(advance(i as int, comment_end(s@, i as int + 1), n as int) == next as int);
                lemma_combine_cons(acc, tok@, lex_from(s@, next as int));
                lemma_toks_view_push(out@, tok);
            }
            out.push(tok);
            i = next;
        } else if c == '"' {
            match string_tokenizer(&s, i) {
                Ok((tok, next)) => {
                    proof {
                        assert(advance(
                            i as int,
                            scan_string(s@, i as int, i as int + 1)->Ok_0.1,
                            n as int,
                        ) == next as int);
                        lemma_combine_cons(acc, tok@, lex_from(s@, next as int));
                        lemma_toks_view_push(out@, tok);
                    }
                    out.push(tok);
                    i = next;
                },
                Err(e) => {
                    return Err(e);
                },
            }
        } else if c == '\'' {
            match char_tokenizer(&s, i) {
                Ok((tok, next)) => {
                    proof {
                        assert(advance(
                            i as int,
                            scan_char_lit(s@, i as int, i as int + 1)->Ok_0.1,
                            n as int,
                        ) == next as int);
                        lemma_combine_cons(acc, tok@, lex_from(s@, next as int));
                        lemma_toks_view_push(out@, tok);
                    }
                    out.push(tok);
                    i = next;
                },
                Err(e) => {
                    return Err(e);
                },
            }
        } else {
            let u = c as u32;
            if (48 <= u && u <= 57) || c == '-' {
                let (tok, next) = numeric_tokenize(&s, i);
                proof {
                    assert(advance(i as int, numeric_end(s@, i as int), n as int) == next as int);
                    lemma_combine_cons(acc, tok@, lex_from(s@, next as int));
                    lemma_toks_view_push(out@, tok);
                }
                out.push(tok);
                i = next;
            } else {
                let (tok, next) = ident_tokenizer(&s, i);
                proof {
                    assert(advance(i as int, ident_end(s@, i as int), n as int) == next as int);
                    lemma_combine_cons(acc, tok@, lex_from(s@, next as int));
                    lemma_toks_view_push(out@, tok);
                }
                out.push(tok);
                i = next;
            }
        }
    }
    proof {
        assert(lex_from(s@, i as int) == Ok::<Seq<TokenV>, LexError>(Seq::empty()));
        assert(toks_view(out@) + Seq::<TokenV>::empty() =~= toks_view(out@));
    }
    Ok(out)
}

proof fn lemma_toks_view_push(ts: Seq<Token>, t: Token)
    ensures
        toks_view(ts.push(t)) == toks_view(ts).push(t@),
{
    assert(toks_view(ts.push(t)) =~= toks_view(ts).push(t@));
}

proof fn lemma_ident_end_runs(s: Seq<char>, i: int)
    requires
        0 <= i <= s.len(),
        forall|j: int| i <= j < s.len() ==> !is_space_char(#[trigger] s[j]) && !is_bracket_char(s[j]),
    ensures
        ident_end(s, i) == s.len(),
    decreases s.len() - i,
{
    if i < s.len() {
        lemma_ident_end_runs(s, i + 1);
    }
}

/// The identifier scan law: a run of characters free of whitespace and
/// brackets whose first character starts no other token lexes as one
/// identifier holding the whole run — a sigil character after the first
/// position is part of the identifier, not a sigil token of its own.
pub proof fn lemma_sigil_inside_ident(s: Seq<char>)
    requires
        s.len() > 0,
        !is_sigil_char(s[0]),
        !is_digit_char(s[0]),
        s[0] != '-' && s[0] != ';' && s[0] != '"' && s[0] != '\'',
        forall|j: int| 0 <= j < s.len() ==> !is_space_char(#[trigger] s[j]) && !is_bracket_char(s[j]),
    ensures
        lex_spec(s) == Ok::<Seq<TokenV>, LexError>(seq![TokenV::Ident(s)]),
{
    lemma_ident_end_runs(s, 0);
    let n = s.len() as int;
    assert(advance(0, ident_end(s, 0), n) == n);
    assert(s.subrange(0, n) =~= s);
    assert(lex_from(s, n) == Ok::<Seq<TokenV>, LexError>(Seq::empty()));
    assert(seq![TokenV::Ident(s)] + Seq::<TokenV>::empty() =~= seq![TokenV::Ident(s)]);
}

} // verus!
