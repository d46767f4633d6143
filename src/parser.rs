use vstd::prelude::*;
use crate::lexer::{Kind, Token, TokenModel, TokenType, tokens_view};
use crate::value::{
    Value, ValueModel, keys_unique, lemma_array_view, lemma_object_view, obj_insert, object_insert,
    pairs_view, values_view,
};

verus! {

/// Why a token sequence does not form a value.
#[derive(Clone, Copy, Debug, PartialEq, Eq, Structural)]
pub enum ParseError {
    /// A token that cannot stand where it was found, with its line.
    UnexpectedToken(usize),
    /// An object key not followed by `=`, with the key's line.
    ExpectedEqual(usize),
    /// The tokens ended where a value, a key or a closing bracket was due.
    UnexpectedEndOfInput,
}

/// A quoted string at position `i`.
pub open spec fn string_atom(t: Seq<TokenModel>, i: int) -> Result<(ValueModel, int), ParseError> {
    if i < 0 || i >= t.len() {
        Err(ParseError::UnexpectedEndOfInput)
    } else {
        match t[i].kind {
            Kind::Str(s) => Ok((ValueModel::Str(s), i + 1)),
            _ => Err(ParseError::UnexpectedToken(t[i].line as usize)),
        }
    }
}

/// An identifier (read as a string) or a boolean literal at position `i`.
pub open spec fn identifier_atom(t: Seq<TokenModel>, i: int) -> Result<(ValueModel, int), ParseError> {
    if i < 0 || i >= t.len() {
        Err(ParseError::UnexpectedEndOfInput)
    } else {
        match t[i].kind {
            Kind::Ident(s) => Ok((ValueModel::Str(s), i + 1)),
            Kind::Bool(b) => Ok((ValueModel::Bool(b), i + 1)),
            _ => Err(ParseError::UnexpectedToken(t[i].line as usize)),
        }
    }
}

/// A number at position `i`.
pub open spec fn number_atom(t: Seq<TokenModel>, i: int) -> Result<(ValueModel, int), ParseError> {
    if i < 0 || i >= t.len() {
        Err(ParseError::UnexpectedEndOfInput)
    } else {
        match t[i].kind {
            Kind::Num(n) => Ok((ValueModel::Num(n), i + 1)),
            _ => Err(ParseError::UnexpectedToken(t[i].line as usize)),
        }
    }
}

/// The value that starts at position `i` of `t`, with the position after it.
pub open spec fn parse_value(t: Seq<TokenModel>, i: int) -> Result<(ValueModel, int), ParseError>
    decreases t.len() - i, 0int,
{
    if i < 0 || i >= t.len() {
        Err(ParseError::UnexpectedEndOfInput)
    } else {
        match t[i].kind {
            Kind::Str(_) => string_atom(t, i),
            Kind::Num(_) => number_atom(t, i),
            Kind::Ident(_) => identifier_atom(t, i),
            Kind::Bool(_) => identifier_atom(t, i),
            Kind::At => if i + 1 >= t.len() {
                Err(ParseError::UnexpectedEndOfInput)
            } else if t[i + 1].kind is LeftBrace {
                parse_object_body(t, i + 2, Seq::empty())
            } else if t[i + 1].kind is LeftParen {
                parse_array_body(t, i + 2, Seq::empty())
            } else {
                Err(ParseError::UnexpectedToken(t[i + 1].line as usize))
            },
            _ => Err(ParseError::UnexpectedToken(t[i].line as usize)),
        }
    }
}

/// The rest of an object from position `i`, after the pairs `acc`. A key
/// must be an identifier: a boolean literal, or any other token, in its
/// place is rejected there and then.
pub open spec fn parse_object_body(t: Seq<TokenModel>, i: int, acc: Seq<(Seq<char>, ValueModel)>) -> Result<
    (ValueModel, int),
    ParseError,
>
    decreases t.len() - i, 1int,
{
    if i < 0 || i >= t.len() {
        Err(ParseError::UnexpectedEndOfInput)
    } else if t[i].kind is RightBrace {
        Ok((ValueModel::Obj(acc), i + 1))
    } else {
        match t[i].kind {
            Kind::Ident(k) => if i + 1 < t.len() && t[i + 1].kind is Equal {
                match parse_value(t, i + 2) {
                    Err(e) => Err(e),
                    Ok((v, j)) => if i < j <= t.len() {
                        parse_object_body(t, j, obj_insert(acc, k, v))
                    } else {
                        Err(ParseError::UnexpectedEndOfInput)
                    },
                }
            } else {
                Err(ParseError::ExpectedEqual(t[i].line as usize))
            },
            _ => Err(ParseError::UnexpectedToken(t[i].line as usize)),
        }
    }
}

/// The rest of an array from position `i`, after the elements `acc`.
pub open spec fn parse_array_body(t: Seq<TokenModel>, i: int, acc: Seq<ValueModel>) -> Result<
    (ValueModel, int),
    ParseError,
>
    decreases t.len() - i, 1int,
{
    if i < 0 || i >= t.len() {
        Err(ParseError::UnexpectedEndOfInput)
    } else if t[i].kind is RightParen {
        Ok((ValueModel::Arr(acc), i + 1))
    } else {
        match parse_value(t, i) {
            Err(e) => Err(e),
            Ok((v, j)) => if i < j <= t.len() {
                parse_array_body(t, j, acc.push(v))
            } else {
                Err(ParseError::UnexpectedEndOfInput)
            },
        }
    }
}

/// `r` and the cursor `end` agree with the spec result `res` of a parse
/// that started at `i` over `len` tokens.
pub open spec fn agrees(
    res: Result<(ValueModel, int), ParseError>,
    r: Result<Value, ParseError>,
    i: int,
    end: int,
    len: int,
) -> bool {
    match res {
        Ok((v, j)) => r matches Ok(x) && x@ == v && end == j && i < j <= len,
        Err(e) => r == Err::<Value, ParseError>(e),
    }
}

/// Parsing state: the tokens and a cursor into them.
pub struct Parser {
    pub tokens: Vec<Token>,
    pub i: usize,
}

impl Parser {
    /// The cursor lies within the tokens or just past them.
    pub open spec fn wf(&self) -> bool {
        self.i <= self.tokens@.len()
    }

    /// The models of the tokens.
    pub open spec fn model(&self) -> Seq<TokenModel> {
        tokens_view(self.tokens@)
    }

    /// Parses the value that starts at the cursor.
    pub fn parse(&mut self) -> (r: Result<Value, ParseError>)
        requires
            old(self).wf(),
        ensures
            final(self).wf(),
            final(self).tokens == old(self).tokens,
            agrees(parse_value(old(self).model(), old(self).i as int), r, old(self).i as int, final(self).i as int, old(self).tokens@.len() as int),
        decreases old(self).tokens@.len() - old(self).i, 0int,
    {
        if self.is_eof() {
            return Err(ParseError::UnexpectedEndOfInput);
        }
        let ghost t = self.model();
        assert(t[self.i as int] == self.tokens@[self.i as int]@);
        let line = self.tokens[self.i].line;
        let category: u8 = match &self.tokens[self.i]._type {
            TokenType::String(_) => 0,
            TokenType::Number(_) => 1,
            TokenType::Identifier(_) => 2,
            TokenType::Boolean(_) => 2,
            _ => 3,
        };
        if category == 0 {
            self.parse_string()
        } else if category == 1 {
            self.parse_number()
        } else if category == 2 {
            self.parse_identifier()
        } else if self.match_tokens(vec![TokenType::At]) {
            assert(t[self.i - 1].kind is At);
            if self.is_eof() {
                return Err(ParseError::UnexpectedEndOfInput);
            }
            assert(t[self.i as int] == self.tokens@[self.i as int]@);
            if self.match_tokens(vec![TokenType::LeftBrace]) {
                return self.parse_object();
            }
            if self.match_tokens(vec![TokenType::LeftParen]) {
                return self.parse_array();
            }
            Err(ParseError::UnexpectedToken(self.tokens[self.i].line))
        } else {
            Err(ParseError::UnexpectedToken(line))
        }
    }

    /// Parses a quoted string at the cursor.
    pub fn parse_string(&mut self) -> (r: Result<Value, ParseError>)
        requires
            old(self).wf(),
        ensures
            final(self).wf(),
            final(self).tokens == old(self).tokens,
            agrees(string_atom(old(self).model(), old(self).i as int), r, old(self).i as int, final(self).i as int, old(self).tokens@.len() as int),
    {
        if self.is_eof() {
            return Err(ParseError::UnexpectedEndOfInput);
        }
        let ghost t = self.model();
        assert(t[self.i as int] == self.tokens@[self.i as int]@);
        let line = self.tokens[self.i].line;
        let r = match &self.tokens[self.i]._type {
            TokenType::String(s) => Ok(Value::String(s.clone())),
            _ => Err(ParseError::UnexpectedToken(line)),
        };
        self.advance();
        r
    }

    /// Parses an identifier (as a string) or a boolean literal at the cursor.
    pub fn parse_identifier(&mut self) -> (r: Result<Value, ParseError>)
        requires
            old(self).wf(),
        ensures
            final(self).wf(),
            final(self).tokens == old(self).tokens,
            agrees(identifier_atom(old(self).model(), old(self).i as int), r, old(self).i as int, final(self).i as int, old(self).tokens@.len() as int),
    {
        if self.is_eof() {
            return Err(ParseError::UnexpectedEndOfInput);
        }
        let ghost t = self.model();
        assert(t[self.i as int] == self.tokens@[self.i as int]@);
        let line = self.tokens[self.i].line;
        let r = match &self.tokens[self.i]._type {
            TokenType::Identifier(s) => Ok(Value::String(s.clone())),
            TokenType::Boolean(b) => Ok(Value::Boolean(*b)),
            _ => Err(ParseError::UnexpectedToken(line)),
        };
        self.advance();
        r
    }

    /// Parses a number at the cursor.
    pub fn parse_number(&mut self) -> (r: Result<Value, ParseError>)
        requires
            old(self).wf(),
        ensures
            final(self).wf(),
            final(self).tokens == old(self).tokens,
            agrees(number_atom(old(self).model(), old(self).i as int), r, old(self).i as int, final(self).i as int, old(self).tokens@.len() as int),
    {
        if self.is_eof() {
            return Err(ParseError::UnexpectedEndOfInput);
        }
        let ghost t = self.model();
        assert(t[self.i as int] == self.tokens@[self.i as int]@);
        let line = self.tokens[self.i].line;
        let r = match &self.tokens[self.i]._type {
            TokenType::Number(n) => Ok(Value::Number(n.clone())),
            _ => Err(ParseError::UnexpectedToken(line)),
        };
        self.advance();
        r
    }

    /// Parses the rest of an object whose `@{` was just consumed.
    pub fn parse_object(&mut self) -> (r: Result<Value, ParseError>)
        requires
            old(self).wf(),
        ensures
            final(self).wf(),
            final(self).tokens == old(self).tokens,
            agrees(parse_object_body(old(self).model(), old(self).i as int, Seq::empty()), r, old(self).i as int, final(self).i as int, old(self).tokens@.len() as int),
        decreases old(self).tokens@.len() - old(self).i, 1int,
    {
        let ghost t = self.model();
        let ghost i0 = self.i as int;
        let mut object: Vec<(String, Value)> = Vec::new();
        proof {
            assert(pairs_view(object@) =~= Seq::<(Seq<char>, ValueModel)>::empty());
        }
        loop
            invariant
                self.wf(),
                self.tokens == old(self).tokens,
                t == self.model(),
                i0 == old(self).i,
                i0 <= self.i,
                keys_unique(pairs_view(object@)),
                parse_object_body(t, i0, Seq::empty()) == parse_object_body(t, self.i as int, pairs_view(object@)),
            decreases self.tokens@.len() - self.i,
        {
            if self.is_eof() {
                return Err(ParseError::UnexpectedEndOfInput);
            }
            assert(t[self.i as int] == self.tokens@[self.i as int]@);
            if self.check_token(TokenType::RightBrace) {
                self.advance();
                proof {
                    lemma_object_view(object);
                }
                return Ok(Value::Object(object));
            }
            let key_line = self.tokens[self.i].line;
            let ghost ki = self.i as int;
            let key = self.parse_identifier();
            match key {
                Err(e) => {
                    return Err(e);
                },
                Ok(Value::String(k)) => {
                    if self.is_eof() {
                        return Err(ParseError::ExpectedEqual(key_line));
                    }
                    assert(t[self.i as int] == self.tokens@[self.i as int]@);
                    if !self.match_tokens(vec![TokenType::Equal]) {
                        return Err(ParseError::ExpectedEqual(key_line));
                    }
                    assert(t[ki + 1].kind is Equal);
                    let value = self.parse();
                    match value {
                        Err(e) => {
                            return Err(e);
                        },
                        Ok(v) => {
                            object_insert(&mut object, k, v);
                        },
                    }
                },
                Ok(_) => {
                    return Err(ParseError::UnexpectedToken(key_line));
                },
            }
        }
    }

    /// Parses the rest of an array whose `@(` was just consumed.
    pub fn parse_array(&mut self) -> (r: Result<Value, ParseError>)
        requires
            old(self).wf(),
        ensures
            final(self).wf(),
            final(self).tokens == old(self).tokens,
            agrees(parse_array_body(old(self).model(), old(self).i as int, Seq::empty()), r, old(self).i as int, final(self).i as int, old(self).tokens@.len() as int),
        decreases old(self).tokens@.len() - old(self).i, 1int,
    {
        let ghost t = self.model();
        let ghost i0 = self.i as int;
        let mut array: Vec<Value> = Vec::new();
        proof {
            assert(values_view(array@) =~= Seq::<ValueModel>::empty());
        }
        while !self.check_token(TokenType::RightParen)
            invariant
                self.wf(),
                self.tokens == old(self).tokens,
                t == self.model(),
                i0 == old(self).i,
                i0 <= self.i,
                parse_array_body(t, i0, Seq::empty()) == parse_array_body(t, self.i as int, values_view(array@)),
            decreases self.tokens@.len() - self.i,
        {
            let ghost before = array@;
            let value = self.parse();
            match value {
                Err(e) => {
                    return Err(e);
                },
                Ok(v) => {
                    array.push(v);
                    proof {
                        assert(values_view(array@) =~= values_view(before).push(v@));
                    }
                },
            }
        }
        if self.is_eof() {
            return Err(ParseError::UnexpectedEndOfInput);
        }
        assert(t[self.i as int] == self.tokens@[self.i as int]@);
        self.advance();
        proof {
            lemma_array_view(array);
        }
        Ok(Value::Array(array))
    }

    /// A parser at the first of `tokens`.
    pub fn new(tokens: Vec<Token>) -> (r: Self)
        ensures
            r.wf(),
            r.tokens == tokens,
            r.i == 0,
    {
        Parser { tokens, i: 0 }
    }

    /// The token `offset` places past the cursor (none: the current one), if any.
    pub fn peek(&self, offset: Option<usize>) -> (r: Option<&Token>)
        requires
            self.wf(),
        ensures
            ({
                let k = self.i + match offset {
                    Some(o) => o as int,
                    None => 0,
                };
                match r {
                    Some(x) => k < self.tokens@.len() && *x == self.tokens@[k],
                    None => k >= self.tokens@.len(),
                }
            }),
    {
        let offset = match offset {
            Some(o) => o,
            None => 0,
        };
        if offset >= self.tokens.len() - self.i {
            return None;
        }
        Some(&self.tokens[self.i + offset])
    }

    /// Moves the cursor one token on and returns the token it passed, if the
    /// cursor was on one.
    pub fn advance(&mut self) -> (r: Option<&Token>)
        requires
            old(self).i < usize::MAX,
        ensures
            final(self).i == old(self).i + 1,
            final(self).tokens == old(self).tokens,
            match r {
                Some(x) => old(self).i < old(self).tokens@.len() && *x == old(self).tokens@[old(self).i as int],
                None => old(self).i >= old(self).tokens@.len(),
            },
    {
        self.i = self.i + 1;
        if self.i - 1 < self.tokens.len() {
            Some(&self.tokens[self.i - 1])
        } else {
            None
        }
    }

    /// Whether the cursor has passed the last token.
    pub fn is_eof(&self) -> (r: bool)
        ensures
            r == (self.i >= self.tokens@.len()),
            self.tokens@.len() <= usize::MAX,
    {
        self.i >= self.tokens.len()
    }

    /// Whether the current token has category `token_type`.
    pub fn check_token(&self, token_type: TokenType) -> (r: bool)
        ensures
            r == (self.i < self.tokens@.len() && self.tokens@[self.i as int]._type@ == token_type@),
            self.tokens@.len() <= usize::MAX,
    {
        self.check_ref(&token_type)
    }

    fn check_ref(&self, token_type: &TokenType) -> (r: bool)
        ensures
            r == (self.i < self.tokens@.len() && self.tokens@[self.i as int]._type@ == token_type@),
            self.tokens@.len() <= usize::MAX,
    {
        if self.is_eof() {
            return false;
        }
        self.tokens[self.i]._type == *token_type
    }

    /// Consumes the current token if its category is one of `token_types`.
    pub fn match_tokens(&mut self, token_types: Vec<TokenType>) -> (r: bool)
        requires
            old(self).wf(),
        ensures
            final(self).wf(),
            final(self).tokens == old(self).tokens,
            r == (old(self).i < old(self).tokens@.len() && exists|k: int|
                0 <= k < token_types@.len() && #[trigger] token_types@[k]@ == old(self).tokens@[old(self).i as int]._type@),
            final(self).i == old(self).i + if r { 1int } else { 0int },
    {
        let mut k: usize = 0;
        while k < token_types.len()
            invariant
                self.wf(),
                self.tokens == old(self).tokens,
                self.i == old(self).i,
                k <= token_types@.len(),
                forall|m: int| 0 <= m < k ==> !(self.i < self.tokens@.len() && #[trigger] token_types@[m]@ == self.tokens@[self.i as int]._type@),
            decreases token_types.len() - k,
        {
            if self.check_ref(&token_types[k]) {
                self.advance();
                return true;
            }
            k = k + 1;
        }
        false
    }
}

} // verus!
