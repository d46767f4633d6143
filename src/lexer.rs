use vstd::prelude::*;
use crate::chars::{is_alpha, is_alphanumeric, is_digit, spec_is_alpha, spec_is_alphanumeric, spec_is_digit};

verus! {

/// The lexical category of a token, with its payload.
#[derive(Clone, Debug)]
pub enum TokenType {
    String(String),
    /// A number: the run of decimal digits as it stands in the text.
    Number(String),
    Boolean(bool),
    Identifier(String),
    At,
    Equal,
    LeftParen,
    RightParen,
    LeftBrace,
    RightBrace,
}

/// The mathematical form of a token category.
pub enum Kind {
    Str(Seq<char>),
    Num(Seq<char>),
    Bool(bool),
    Ident(Seq<char>),
    At,
    Equal,
    LeftParen,
    RightParen,
    LeftBrace,
    RightBrace,
}

impl View for TokenType {
    type V = Kind;

    open spec fn view(&self) -> Kind {
        match self {
            TokenType::String(s) => Kind::Str(s@),
            TokenType::Number(n) => Kind::Num(n@),
            TokenType::Boolean(b) => Kind::Bool(*b),
            TokenType::Identifier(s) => Kind::Ident(s@),
            TokenType::At => Kind::At,
            TokenType::Equal => Kind::Equal,
            TokenType::LeftParen => Kind::LeftParen,
            TokenType::RightParen => Kind::RightParen,
            TokenType::LeftBrace => Kind::LeftBrace,
            TokenType::RightBrace => Kind::RightBrace,
        }
    }
}

impl PartialEq for TokenType {
    fn eq(&self, other: &TokenType) -> bool {
        match (self, other) {
            (TokenType::String(a), TokenType::String(b)) => *a == *b,
            (TokenType::Number(a), TokenType::Number(b)) => *a == *b,
            (TokenType::Boolean(a), TokenType::Boolean(b)) => *a == *b,
            (TokenType::Identifier(a), TokenType::Identifier(b)) => *a == *b,
            (TokenType::At, TokenType::At) => true,
            (TokenType::Equal, TokenType::Equal) => true,
            (TokenType::LeftParen, TokenType::LeftParen) => true,
            (TokenType::RightParen, TokenType::RightParen) => true,
            (TokenType::LeftBrace, TokenType::LeftBrace) => true,
            (TokenType::RightBrace, TokenType::RightBrace) => true,
            _ => false,
        }
    }
}

impl vstd::std_specs::cmp::PartialEqSpecImpl for TokenType {
    open spec fn obeys_eq_spec() -> bool {
        true
    }

    open spec fn eq_spec(&self, other: &TokenType) -> bool {
        self@ == other@
    }
}

/// One classified unit of input: its category, its text in the source, and
/// the line the scanner had reached when it was recognized.
#[derive(Clone, Debug, PartialEq)]
pub struct Token {
    pub _type: TokenType,
    pub lexeme: String,
    pub line: usize,
}

/// The mathematical form of a token.
pub struct TokenModel {
    pub kind: Kind,
    pub lexeme: Seq<char>,
    pub line: nat,
}

impl View for Token {
    type V = TokenModel;

    open spec fn view(&self) -> TokenModel {
        TokenModel { kind: self._type@, lexeme: self.lexeme@, line: self.line as nat }
    }
}

/// The models of a sequence of tokens.
pub open spec fn tokens_view(t: Seq<Token>) -> Seq<TokenModel> {
    t.map_values(|x: Token| x@)
}

/// Why a text could not be scanned.
#[derive(Clone, Copy, Debug, PartialEq, Eq, Structural)]
pub enum LexError {
    /// A string literal was opened and the text ended before its closing quote.
    UnterminatedString,
    /// A character of no recognized class, with the line it stands on.
    UnexpectedCharacter(char, usize),
}

/// The number of identifier-continuation characters from position `k` on.
pub open spec fn alnum_run(s: Seq<char>, k: int) -> nat
    decreases s.len() - k,
{
    if 0 <= k < s.len() && spec_is_alphanumeric(s[k]) {
        1 + alnum_run(s, k + 1)
    } else {
        0
    }
}

/// The number of decimal digits from position `k` on.
pub open spec fn digit_run(s: Seq<char>, k: int) -> nat
    decreases s.len() - k,
{
    if 0 <= k < s.len() && spec_is_digit(s[k]) {
        1 + digit_run(s, k + 1)
    } else {
        0
    }
}

/// The number of characters other than `"` from position `k` on.
pub open spec fn text_run(s: Seq<char>, k: int) -> nat
    decreases s.len() - k,
{
    if 0 <= k < s.len() && s[k] != '"' {
        1 + text_run(s, k + 1)
    } else {
        0
    }
}

/// The text of the literal `$true`.
pub open spec fn true_word() -> Seq<char> {
    seq!['$', 't', 'r', 'u', 'e']
}

/// The text of the literal `$false`.
pub open spec fn false_word() -> Seq<char> {
    seq!['$', 'f', 'a', 'l', 's', 'e']
}

/// The category of an identifier's text: the two literals are booleans.
pub open spec fn word_kind(text: Seq<char>) -> Kind {
    if text == true_word() {
        Kind::Bool(true)
    } else if text == false_word() {
        Kind::Bool(false)
    } else {
        Kind::Ident(text)
    }
}

/// A token whose lexeme is the single character `c`.
pub open spec fn fixed(kind: Kind, c: char, line: nat) -> Option<TokenModel> {
    Some(TokenModel { kind, lexeme: seq![c], line })
}

/// One step of scanning at position `i` with line counter `line`: the token
/// produced (if any), the next position and the next line counter.
pub open spec fn scan_step(s: Seq<char>, i: int, line: nat) -> Result<
    (Option<TokenModel>, int, nat),
    LexError,
> {
    let c = s[i];
    if c == ' ' || c == '\t' || c == '\r' {
        Ok((None, i + 1, line))
    } else if c == '\n' {
        Ok((None, i + 1, line + 1))
    } else if c == '@' {
        Ok((fixed(Kind::At, c, line), i + 1, line))
    } else if c == '=' {
        Ok((fixed(Kind::Equal, c, line), i + 1, line))
    } else if c == '{' {
        Ok((fixed(Kind::LeftBrace, c, line), i + 1, line))
    } else if c == '}' {
        Ok((fixed(Kind::RightBrace, c, line), i + 1, line))
    } else if c == '(' {
        Ok((fixed(Kind::LeftParen, c, line), i + 1, line))
    } else if c == ')' {
        Ok((fixed(Kind::RightParen, c, line), i + 1, line))
    } else if c == '"' {
        let n = text_run(s, i + 1);
        if i + 1 + n >= s.len() {
            Err(LexError::UnterminatedString)
        } else {
            let content = s.subrange(i + 1, i + 1 + n);
            Ok((Some(TokenModel { kind: Kind::Str(content), lexeme: content, line }), i + 2 + n, line))
        }
    } else if spec_is_alpha(c) {
        let end = i + 1 + alnum_run(s, i + 1);
        let text = s.subrange(i, end);
        Ok((Some(TokenModel { kind: word_kind(text), lexeme: text, line }), end, line))
    } else if spec_is_digit(c) {
        let end = i + 1 + digit_run(s, i + 1);
        let text = s.subrange(i, end);
        Ok((Some(TokenModel { kind: Kind::Num(text), lexeme: text, line }), end, line))
    } else {
        Err(LexError::UnexpectedCharacter(c, line as usize))
    }
}

/// `acc` followed by the tokens of `r`, or the error of `r`.
pub open spec fn prepend(acc: Seq<TokenModel>, r: Result<Seq<TokenModel>, LexError>) -> Result<
    Seq<TokenModel>,
    LexError,
> {
    match r {
        Ok(t) => Ok(acc + t),
        Err(e) => Err(e),
    }
}

/// The token, if any, as a sequence of zero or one.
pub open spec fn opt_seq(t: Option<TokenModel>) -> Seq<TokenModel> {
    match t {
        Some(t) => seq![t],
        None => Seq::empty(),
    }
}

/// The tokens of `s` from position `i` on, scanning with line counter `line`,
/// or the first failure.
pub open spec fn lex_from(s: Seq<char>, i: int, line: nat) -> Result<Seq<TokenModel>, LexError>
    decreases s.len() - i,
{
    if i < 0 || i >= s.len() {
        Ok(Seq::empty())
    } else {
        match scan_step(s, i, line) {
            Err(e) => Err(e),
            Ok((t, j, l)) => if i < j <= s.len() {
                prepend(opt_seq(t), lex_from(s, j, l))
            } else {
                Ok(Seq::empty())
            },
        }
    }
}

/// The tokens of a whole text, lines counted from 1.
pub open spec fn lex(s: Seq<char>) -> Result<Seq<TokenModel>, LexError> {
    lex_from(s, 0, 1)
}

/// The model of an optional token.
pub open spec fn opt_view(t: Option<Token>) -> Option<TokenModel> {
    match t {
        Some(t) => Some(t@),
        None => None,
    }
}

/// `r` and the scanner state `after` are what one step of scanning at
/// position `i` with line counter `line` gives.
pub open spec fn step_result(
    s: Seq<char>,
    i: int,
    line: nat,
    r: Result<Option<Token>, LexError>,
    after: Scanner,
) -> bool {
    match scan_step(s, i, line) {
        Err(e) => r == Err::<Option<Token>, LexError>(e),
        Ok((t, j, l)) => {
            &&& after.wf()
            &&& after.i == j
            &&& after.line == l
            &&& r matches Ok(o) && opt_view(o) == t
        },
    }
}

/// A token of a fixed one-character lexeme.
fn fixed_token(_type: TokenType, lexeme: &str, line: usize) -> (r: Token)
    ensures
        r._type == _type,
        r.lexeme@ == lexeme@,
        r.line == line,
{
    Token { _type, lexeme: String::from_str(lexeme), line }
}

/// Scanning state over one source text.
pub struct Scanner {
    pub source: String,
    pub i: usize,
    pub line: usize,
    pub tokens: Vec<Token>,
}

impl Scanner {
    /// The cursor lies within the text and the line counter is bounded by it.
    pub open spec fn wf(&self) -> bool {
        &&& self.source@.len() < usize::MAX
        &&& self.i <= self.source@.len()
        &&& 1 <= self.line <= self.i + 1
    }

    /// A scanner at the start of `source`, on line 1, with no tokens yet.
    pub fn new(source: String) -> (r: Self)
        requires
            source@.len() < usize::MAX,
        ensures
            r.wf(),
            r.source == source,
            r.i == 0,
            r.line == 1,
            r.tokens@.len() == 0,
    {
        Scanner { source, i: 0, line: 1, tokens: Vec::new() }
    }

    /// Whether the cursor has passed the last character.
    pub fn is_at_end(&self) -> (r: bool)
        ensures
            r == (self.i >= self.source@.len()),
    {
        self.i >= self.source.as_str().unicode_len()
    }

    /// The character `offset` places past the cursor (none: the current one),
    /// or `'\0'` beyond the end.
    pub fn peek(&self, offset: Option<usize>) -> (r: char)
        ensures
            ({
                let k = self.i + match offset {
                    Some(o) => o as int,
                    None => 0,
                };
                r == if k < self.source@.len() {
                    self.source@[k]
                } else {
                    '\0'
                }
            }),
    {
        let offset = match offset {
            Some(o) => o,
            None => 0,
        };
        let len = self.source.as_str().unicode_len();
        if self.i >= len || offset >= len - self.i {
            return '\0';
        }
        self.source.as_str().get_char(self.i + offset)
    }

    /// Consumes and returns the character at the cursor.
    pub fn advance(&mut self) -> (r: char)
        requires
            old(self).wf(),
            old(self).i < old(self).source@.len(),
        ensures
            r == old(self).source@[old(self).i as int],
            final(self).i == old(self).i + 1,
            final(self).source == old(self).source,
            final(self).line == old(self).line,
            final(self).tokens == old(self).tokens,
    {
        let c = self.source.as_str().get_char(self.i);
        self.i = self.i + 1;
        c
    }

    /// Scans the rest of the text, appending its tokens.
    pub fn scan_tokens(&mut self) -> (r: Result<(), LexError>)
        requires
            old(self).wf(),
        ensures
            final(self).source == old(self).source,
            match lex_from(old(self).source@, old(self).i as int, old(self).line as nat) {
                Ok(t) => r is Ok && tokens_view(final(self).tokens@) == tokens_view(old(self).tokens@) + t,
                Err(e) => r == Err::<(), LexError>(e),
            },
    {
        let ghost s = self.source@;
        let ghost i0 = self.i as int;
        let ghost line0 = self.line as nat;
        let ghost mut acc: Seq<TokenModel> = Seq::empty();
        proof {
            assert(tokens_view(self.tokens@) + acc =~= tokens_view(self.tokens@));
            assert(prepend(acc, lex_from(s, i0, line0)) =~= lex_from(s, i0, line0));
        }
        while !self.is_at_end()
            invariant
                self.wf(),
                self.source == old(self).source,
                s == self.source@,
                i0 == old(self).i as int,
                line0 == old(self).line as nat,
                tokens_view(self.tokens@) == tokens_view(old(self).tokens@) + acc,
                lex_from(s, i0, line0) == prepend(acc, lex_from(s, self.i as int, self.line as nat)),
            decreases s.len() - self.i,
        {
            let ghost pi = self.i as int;
            let ghost pl = self.line as nat;
            let ghost before = self.tokens@;
            let token = self.scan_token();
            match token {
                Err(e) => {
                    proof {
                        assert(lex_from(s, pi, pl) == Err::<Seq<TokenModel>, LexError>(e));
                        assert(lex_from(s, i0, line0) == Err::<Seq<TokenModel>, LexError>(e));
                    }
                    return Err(e);
                },
                Ok(Some(t)) => {
                    self.tokens.push(t);
                    proof {
                        assert(tokens_view(self.tokens@) =~= tokens_view(before).push(t@));
                        assert(opt_seq(Some(t@)) =~= seq![t@]);
                        let rest = lex_from(s, self.i as int, self.line as nat);
                        match rest {
                            Ok(x) => {
                                assert(acc + (seq![t@] + x) =~= acc.push(t@) + x);
                            },
                            Err(_) => {},
                        }
                        acc = acc.push(t@);
                    }
                },
                Ok(None) => {
                    proof {
                        let rest = lex_from(s, self.i as int, self.line as nat);
                        match rest {
                            Ok(x) => {
                                assert(Seq::<TokenModel>::empty() + x =~= x);
                            },
                            Err(_) => {},
                        }
                    }
                },
            }
        }
        proof {
            assert(acc + Seq::<TokenModel>::empty() =~= acc);
        }
        Ok(())
    }

    /// Scans one step at the cursor: skips whitespace (counting lines) or
    /// produces the token that starts there.
    pub fn scan_token(&mut self) -> (r: Result<Option<Token>, LexError>)
        requires
            old(self).wf(),
            old(self).i < old(self).source@.len(),
        ensures
            final(self).source == old(self).source,
            final(self).tokens == old(self).tokens,
            step_result(old(self).source@, old(self).i as int, old(self).line as nat, r, *final(self)),
    {
        let c = self.advance();
        if c == ' ' || c == '\t' || c == '\r' {
            Ok(None)
        } else if c == '\n' {
            self.line = self.line + 1;
            Ok(None)
        } else if c == '@' {
            proof {
                reveal_strlit("@");
                assert("@"@ =~= seq!['@']);
            }
            Ok(Some(fixed_token(TokenType::At, "@", self.line)))
        } else if c == '=' {
            proof {
                reveal_strlit("=");
                assert("="@ =~= seq!['=']);
            }
            Ok(Some(fixed_token(TokenType::Equal, "=", self.line)))
        } else if c == '{' {
            proof {
                reveal_strlit("{");
                assert("{"@ =~= seq!['{']);
            }
            Ok(Some(fixed_token(TokenType::LeftBrace, "{", self.line)))
        } else if c == '}' {
            proof {
                reveal_strlit("}");
                assert("}"@ =~= seq!['}']);
            }
            Ok(Some(fixed_token(TokenType::RightBrace, "}", self.line)))
        } else if c == '(' {
            proof {
                reveal_strlit("(");
                assert("("@ =~= seq!['(']);
            }
            Ok(Some(fixed_token(TokenType::LeftParen, "(", self.line)))
        } else if c == ')' {
            proof {
                reveal_strlit(")");
                assert(")"@ =~= seq![')']);
            }
            Ok(Some(fixed_token(TokenType::RightParen, ")", self.line)))
        } else if c == '"' {
            self.scan_string()
        } else if is_alpha(c) {
            Ok(Some(self.scan_word()))
        } else if is_digit(c) {
            Ok(Some(self.scan_number()))
        } else {
            Err(LexError::UnexpectedCharacter(c, self.line))
        }
    }

    /// The rest of a string literal whose opening quote was just consumed.
    fn scan_string(&mut self) -> (r: Result<Option<Token>, LexError>)
        requires
            old(self).wf(),
            1 <= old(self).i,
            old(self).source@[old(self).i - 1] == '"',
        ensures
            final(self).source == old(self).source,
            final(self).tokens == old(self).tokens,
            step_result(old(self).source@, old(self).i - 1, old(self).line as nat, r, *final(self)),
    {
        let ghost s = self.source@;
        let start = self.i;
        let len = self.source.as_str().unicode_len();
        while self.i < len && self.source.as_str().get_char(self.i) != '"'
            invariant
                self.wf(),
                self.source@ == s,
                self.source == old(self).source,
                self.line == old(self).line,
                self.tokens == old(self).tokens,
                len == s.len(),
                start <= self.i <= len,
                text_run(s, start as int) == (self.i - start) + text_run(s, self.i as int),
            decreases len - self.i,
        {
            self.i = self.i + 1;
        }
        if self.i >= len {
            return Err(LexError::UnterminatedString);
        }
        let text = String::from_str(self.source.as_str().substring_char(start, self.i));
        self.i = self.i + 1;
        Ok(Some(Token { _type: TokenType::String(text.clone()), lexeme: text, line: self.line }))
    }

    /// The rest of an identifier or boolean literal whose first character was
    /// just consumed.
    fn scan_word(&mut self) -> (r: Token)
        requires
            old(self).wf(),
            1 <= old(self).i,
            spec_is_alpha(old(self).source@[old(self).i - 1]),
        ensures
            final(self).source == old(self).source,
            final(self).tokens == old(self).tokens,
            step_result(old(self).source@, old(self).i - 1, old(self).line as nat, Ok(Some(r)), *final(self)),
    {
        let ghost s = self.source@;
        let start = self.i - 1;
        let len = self.source.as_str().unicode_len();
        while self.i < len && is_alphanumeric(self.source.as_str().get_char(self.i))
            invariant
                self.wf(),
                self.source@ == s,
                self.source == old(self).source,
                self.line == old(self).line,
                self.tokens == old(self).tokens,
                len == s.len(),
                start < self.i <= len,
                alnum_run(s, start + 1) == (self.i - start - 1) + alnum_run(s, self.i as int),
            decreases len - self.i,
        {
            self.i = self.i + 1;
        }
        let text = String::from_str(self.source.as_str().substring_char(start, self.i));
        let true_text = String::from_str("$true");
        let false_text = String::from_str("$false");
        proof {
            reveal_strlit("$true");
            reveal_strlit("$false");
            assert(true_text@ =~= true_word());
            assert(false_text@ =~= false_word());
        }
        let kind = if text == true_text {
            TokenType::Boolean(true)
        } else if text == false_text {
            TokenType::Boolean(false)
        } else {
            TokenType::Identifier(text.clone())
        };
        Token { _type: kind, lexeme: text, line: self.line }
    }

    /// The rest of a number whose first digit was just consumed: the token
    /// holds the digits as they stand in the text.
    fn scan_number(&mut self) -> (r: Token)
        requires
            old(self).wf(),
            1 <= old(self).i,
            spec_is_digit(old(self).source@[old(self).i - 1]),
            !spec_is_alpha(old(self).source@[old(self).i - 1]),
        ensures
            final(self).source == old(self).source,
            final(self).tokens == old(self).tokens,
            step_result(old(self).source@, old(self).i - 1, old(self).line as nat, Ok(Some(r)), *final(self)),
    {
        let ghost s = self.source@;
        let start = self.i - 1;
        let len = self.source.as_str().unicode_len();
        while self.i < len && is_digit(self.source.as_str().get_char(self.i))
            invariant
                self.wf(),
                self.source@ == s,
                self.source == old(self).source,
                self.line == old(self).line,
                self.tokens == old(self).tokens,
                len == s.len(),
                start < self.i <= len,
                digit_run(s, start + 1) == (self.i - start - 1) + digit_run(s, self.i as int),
            decreases len - self.i,
        {
            self.i = self.i + 1;
        }
        let text = String::from_str(self.source.as_str().substring_char(start, self.i));
        Token { _type: TokenType::Number(text.clone()), lexeme: text, line: self.line }
    }
}

/// Scans a whole text into its tokens.
pub fn scan(source: String) -> (r: Result<Vec<Token>, LexError>)
    requires
        source@.len() < usize::MAX,
    ensures
        match lex(source@) {
            Ok(t) => r matches Ok(v) && tokens_view(v@) == t,
            Err(e) => r == Err::<Vec<Token>, LexError>(e),
        },
{
    let mut scanner = Scanner::new(source);
    match scanner.scan_tokens() {
        Ok(()) => {
            proof {
                assert(tokens_view(Seq::<Token>::empty()) =~= Seq::<TokenModel>::empty());
            }
            Ok(scanner.tokens)
        },
        Err(e) => Err(e),
    }
}

} // verus!
