//! Splitting source code into a sequence of tokens.

use vstd::prelude::*;
use vstd::std_specs::iter::IteratorSpec;
use vstd::utf8::{encode_scalar, encode_utf8};

verus! {

broadcast use vstd::string::group_string_axioms, vstd::string::axiom_spec_iter, vstd::string::next_postcondition;

/// Location of a lexeme: the byte offset of its first character.
#[derive(Clone, Copy, Debug, PartialEq, Eq, Structural)]
pub struct Location {
    pub offset: usize,
}

/// Error produced when the input holds no valid token.
#[derive(Clone, Copy, Debug, PartialEq, Eq, Structural)]
pub enum LexError {
    /// A character that starts no token.
    InvalidToken(char),
    /// A string literal without its closing quote.
    UnterminatedStringLiteral,
}

/// Structured information about a lexeme.
#[derive(Clone, Debug)]
pub enum Token {
    /// `(`
    LeftParenthesis,
    /// `)`
    RightParenthesis,
    /// `+`
    PlusSign,
    /// `~`
    Tilde,
    /// `fun`
    FunKeyword,
    /// Identifier.
    Identifier(String),
    /// String literal, as the bytes of its contents.
    StringLiteral(Vec<u8>),
}

/// Mathematical model of a token.
pub enum TokenModel {
    LeftParenthesis,
    RightParenthesis,
    PlusSign,
    Tilde,
    FunKeyword,
    Identifier(Seq<char>),
    StringLiteral(Seq<u8>),
}

impl View for Token {
    type V = TokenModel;

    open spec fn view(&self) -> TokenModel {
        match self {
            Token::LeftParenthesis => TokenModel::LeftParenthesis,
            Token::RightParenthesis => TokenModel::RightParenthesis,
            Token::PlusSign => TokenModel::PlusSign,
            Token::Tilde => TokenModel::Tilde,
            Token::FunKeyword => TokenModel::FunKeyword,
            Token::Identifier(s) => TokenModel::Identifier(s@),
            Token::StringLiteral(b) => TokenModel::StringLiteral(b@),
        }
    }
}

/// A short description of a token, for messages.
pub open spec fn token_description(t: TokenModel) -> Seq<char> {
    match t {
        TokenModel::LeftParenthesis => "`(`"@,
        TokenModel::RightParenthesis => "`)`"@,
        TokenModel::PlusSign => "`+`"@,
        TokenModel::Tilde => "`~`"@,
        TokenModel::FunKeyword => "`fun`"@,
        TokenModel::Identifier(..) => "identifier"@,
        TokenModel::StringLiteral(..) => "string literal"@,
    }
}

impl Token {
    /// A short description of the token, for messages.
    pub fn describe(&self) -> (r: &'static str)
        ensures
            r@ == token_description(self@),
    {
        match self {
            Token::LeftParenthesis => "`(`",
            Token::RightParenthesis => "`)`",
            Token::PlusSign => "`+`",
            Token::Tilde => "`~`",
            Token::FunKeyword => "`fun`",
            Token::Identifier(..) => "identifier",
            Token::StringLiteral(..) => "string literal",
        }
    }
}

/// Token along with its location.
#[derive(Clone, Debug)]
pub struct Lexeme {
    pub location: Location,
    pub token: Token,
}

/// Whitespace between tokens.
pub open spec fn spec_is_whitespace(c: char) -> bool {
    c == ' ' || c == '\t' || c == '\r' || c == '\n'
}

/// Characters that may start an identifier.
pub open spec fn spec_is_identifier_start(c: char) -> bool {
    ('a' <= c && c <= 'z') || ('A' <= c && c <= 'Z') || c == '_'
}

/// Characters that may continue an identifier.
pub open spec fn spec_is_identifier_continue(c: char) -> bool {
    spec_is_identifier_start(c) || ('0' <= c && c <= '9')
}

/// The first position at or after `i` that holds no whitespace.
pub open spec fn skip_whitespace(s: Seq<char>, i: int) -> int
    decreases s.len() - i,
{
    if 0 <= i < s.len() && spec_is_whitespace(s[i]) {
        skip_whitespace(s, i + 1)
    } else {
        i
    }
}

/// The first position at or after `i` that cannot continue an identifier.
pub open spec fn identifier_end(s: Seq<char>, i: int) -> int
    decreases s.len() - i,
{
    if 0 <= i < s.len() && spec_is_identifier_continue(s[i]) {
        identifier_end(s, i + 1)
    } else {
        i
    }
}

/// The position of the first quote at or after `i`, if any.
pub open spec fn closing_quote(s: Seq<char>, i: int) -> Option<int>
    decreases s.len() - i,
{
    if i < 0 || i >= s.len() {
        None
    } else if s[i] == '\'' {
        Some(i)
    } else {
        closing_quote(s, i + 1)
    }
}

/// The token that starts with the character at `i`, and the position after it.
pub open spec fn token_at(s: Seq<char>, i: int) -> (Result<TokenModel, LexError>, int) {
    let c = s[i];
    if c == '(' {
        (Ok(TokenModel::LeftParenthesis), i + 1)
    } else if c == ')' {
        (Ok(TokenModel::RightParenthesis), i + 1)
    } else if c == '+' {
        (Ok(TokenModel::PlusSign), i + 1)
    } else if c == '~' {
        (Ok(TokenModel::Tilde), i + 1)
    } else if spec_is_identifier_start(c) {
        let e = identifier_end(s, i + 1);
        let w = s.subrange(i, e);
        if w == seq!['f', 'u', 'n'] {
            (Ok(TokenModel::FunKeyword), e)
        } else {
            (Ok(TokenModel::Identifier(w)), e)
        }
    } else if c == '\'' {
        match closing_quote(s, i + 1) {
            Some(q) => (Ok(TokenModel::StringLiteral(encode_utf8(s.subrange(i + 1, q)))), q + 1),
            None => (Err(LexError::UnterminatedStringLiteral), s.len() as int),
        }
    } else {
        (Err(LexError::InvalidToken(c)), i + 1)
    }
}

/// What reading the next lexeme from position `pos` yields: nothing at the end
/// of the input, else the byte offset of the token's first character and the
/// token or error; and the position after it.
pub open spec fn next_lexeme(s: Seq<char>, pos: int) -> (
    Option<Result<(int, TokenModel), LexError>>,
    int,
) {
    let i = skip_whitespace(s, pos);
    if i >= s.len() {
        (None, i)
    } else {
        let (t, e) = token_at(s, i);
        let offset = encode_utf8(s.subrange(0, i)).len() as int;
        match t {
            Ok(tok) => (Some(Ok((offset, tok))), e),
            Err(err) => (Some(Err(err)), e),
        }
    }
}

/// The model of what [`Lexer::next`] returns.
pub open spec fn lexeme_result_model(r: Option<Result<Lexeme, LexError>>) -> Option<
    Result<(int, TokenModel), LexError>,
> {
    match r {
        None => None,
        Some(Ok(l)) => Some(Ok((l.location.offset as int, l.token@))),
        Some(Err(e)) => Some(Err(e)),
    }
}

/// The UTF-8 encoding of a concatenation is the concatenation of the encodings.
pub proof fn lemma_encode_utf8_append(a: Seq<char>, b: Seq<char>)
    ensures
        encode_utf8(a + b) == encode_utf8(a) + encode_utf8(b),
    decreases a.len(),
{
    if a.len() == 0 {
        assert(a + b =~= b);
        assert(encode_utf8(a) =~= Seq::<u8>::empty());
        assert(encode_utf8(a) + encode_utf8(b) =~= encode_utf8(b));
    } else {
        assert((a + b).drop_first() =~= a.drop_first() + b);
        lemma_encode_utf8_append(a.drop_first(), b);
        assert(encode_utf8(a) + encode_utf8(b) =~= encode_scalar(a[0] as u32) + (encode_utf8(
            a.drop_first(),
        ) + encode_utf8(b)));
    }
}

proof fn lemma_encode_utf8_push(a: Seq<char>, c: char)
    ensures
        encode_utf8(a.push(c)) == encode_utf8(a) + encode_scalar(c as u32),
{
    lemma_encode_utf8_append(a, seq![c]);
    assert(a + seq![c] =~= a.push(c));
    assert(seq![c].drop_first() =~= Seq::<char>::empty());
    assert(encode_utf8(Seq::<char>::empty()) =~= Seq::<u8>::empty());
    assert(encode_utf8(seq![c]) == encode_scalar(seq![c][0] as u32) + encode_utf8(
        seq![c].drop_first(),
    ));
    assert(encode_utf8(seq![c]) =~= encode_scalar(c as u32));
}

proof fn lemma_encode_utf8_prefix_len(s: Seq<char>, i: int)
    requires
        0 <= i <= s.len(),
    ensures
        encode_utf8(s.subrange(0, i)).len() <= encode_utf8(s).len(),
{
    lemma_encode_utf8_append(s.subrange(0, i), s.subrange(i, s.len() as int));
    assert(s.subrange(0, i) + s.subrange(i, s.len() as int) =~= s);
}

/// The UTF-8 encoding of one character, as the standard library produces it.
fn encode_char(c: char) -> (r: Vec<u8>)
    ensures
        r@ == encode_scalar(c as u32),
{
    let v: u32 = c as u32;
    proof {
        vstd::utf8::char_is_scalar(c);
    }
    if v <= 0x7F {
        let b0: u8 = (v & 0x7F) as u8;
        vec![b0]
    } else if v <= 0x7FF {
        let b0: u8 = 0xC0 | ((v >> 6) & 0x1F) as u8;
        let b1: u8 = 0x80 | (v & 0x3F) as u8;
        vec![b0, b1]
    } else if v <= 0xFFFF {
        let b0: u8 = 0xE0 | ((v >> 12) & 0x0F) as u8;
        let b1: u8 = 0x80 | ((v >> 6) & 0x3F) as u8;
        let b2: u8 = 0x80 | (v & 0x3F) as u8;
        vec![b0, b1, b2]
    } else {
        let b0: u8 = 0xF0 | ((v >> 18) & 0x7) as u8;
        let b1: u8 = 0x80 | ((v >> 12) & 0x3F) as u8;
        let b2: u8 = 0x80 | ((v >> 6) & 0x3F) as u8;
        let b3: u8 = 0x80 | (v & 0x3F) as u8;
        vec![b0, b1, b2, b3]
    }
}

/// Relies on String::push: the character is appended to the string.
#[verifier::external_body]
fn push_char(s: &mut String, c: char)
    ensures
        final(s)@ == old(s)@.push(c),
{
    s.push(c)
}

/// Splits source code into a sequence of tokens.
pub struct Lexer {
    chars: Vec<char>,
    /// Index of the next character to read.
    pos: usize,
    /// Byte offset of the next character to read.
    offset: usize,
}

impl Lexer {
    /// The characters of the source code.
    pub closed spec fn input(&self) -> Seq<char> {
        self.chars@
    }

    /// The index of the next character to read.
    pub closed spec fn position(&self) -> int {
        self.pos as int
    }

    /// The lexer's internal consistency.
    pub closed spec fn wf(&self) -> bool {
        &&& self.pos <= self.chars@.len()
        &&& self.offset == encode_utf8(self.chars@.subrange(0, self.pos as int)).len()
        &&& encode_utf8(self.chars@).len() <= usize::MAX
    }

    /// Create a lexer for some source code.
    #[verifier::loop_isolation(false)]
    pub fn new(input: &str) -> (r: Self)
        ensures
            r.wf(),
            r.input() == input@,
            r.position() == 0,
    {
        // The byte length of a `str` fits in `usize`; offsets below it do too.
        let byte_len: usize = input.as_bytes().len();
        proof {
            assert(byte_len == encode_utf8(input@).len());
        }
        let mut it = input.chars();
        let mut chars: Vec<char> = Vec::new();
        loop
            invariant
                chars@ + it.remaining() == input@,
                it.obeys_prophetic_iter_laws(),
                it.decrease() is Some,
            decreases it.decrease()->0,
        {
            let ghost before = it.remaining();
            match it.next() {
                Some(c) => {
                    proof {
                        assert(chars@.push(c) + it.remaining() =~= chars@ + before);
                    }
                    chars.push(c);
                },
                None => {
                    break ;
                },
            }
        }
        assert(chars@ =~= input@);
        assert(chars@.subrange(0, 0) =~= Seq::<char>::empty());
        assert(encode_utf8(Seq::<char>::empty()) =~= Seq::<u8>::empty());
        Lexer { chars, pos: 0, offset: 0 }
    }

    fn is_whitespace(c: char) -> (r: bool)
        ensures
            r == spec_is_whitespace(c),
    {
        c == ' ' || c == '\t' || c == '\r' || c == '\n'
    }

    fn is_identifier_start(c: char) -> (r: bool)
        ensures
            r == spec_is_identifier_start(c),
    {
        ('a' <= c && c <= 'z') || ('A' <= c && c <= 'Z') || c == '_'
    }

    fn is_identifier_continue(c: char) -> (r: bool)
        ensures
            r == spec_is_identifier_continue(c),
    {
        ('a' <= c && c <= 'z') || ('A' <= c && c <= 'Z') || ('0' <= c && c <= '9') || c == '_'
    }

    /// Consume one character, keeping the byte offset in step.
    fn advance(&mut self) -> (c: char)
        requires
            old(self).wf(),
            old(self).pos < old(self).chars@.len(),
        ensures
            final(self).wf(),
            final(self).chars@ == old(self).chars@,
            final(self).pos == old(self).pos + 1,
            c == old(self).chars@[old(self).pos as int],
    {
        let len = self.chars.len();
        let c = self.chars[self.pos];
        let v: u32 = c as u32;
        proof {
            let s = self.chars@;
            let p = self.pos as int;
            assert(s.subrange(0, p + 1) =~= s.subrange(0, p).push(c));
            lemma_encode_utf8_push(s.subrange(0, p), c);
            lemma_encode_utf8_prefix_len(s, p + 1);
            vstd::utf8::char_is_scalar(c);
        }
        let n: usize = if v <= 0x7F {
            1
        } else if v <= 0x7FF {
            2
        } else if v <= 0xFFFF {
            3
        } else {
            4
        };
        self.pos = self.pos + 1;
        self.offset = self.offset + n;
        c
    }

    #[verifier::loop_isolation(false)]
    fn read_whitespace(&mut self)
        requires
            old(self).wf(),
        ensures
            final(self).wf(),
            final(self).chars@ == old(self).chars@,
            final(self).pos == skip_whitespace(old(self).chars@, old(self).pos as int),
    {
        loop
            invariant
                self.wf(),
                self.chars@ == old(self).chars@,
                skip_whitespace(self.chars@, self.pos as int) == skip_whitespace(
                    old(self).chars@,
                    old(self).pos as int,
                ),
            decreases self.chars@.len() - self.pos,
        {
            if self.pos < self.chars.len() && Self::is_whitespace(self.chars[self.pos]) {
                self.advance();
            } else {
                break ;
            }
        }
    }

    #[verifier::loop_isolation(false)]
    fn read_identifier(&mut self, c: char) -> (r: String)
        requires
            old(self).wf(),
            old(self).pos >= 1,
            old(self).chars@[old(self).pos - 1] == c,
        ensures
            final(self).wf(),
            final(self).chars@ == old(self).chars@,
            final(self).pos == identifier_end(old(self).chars@, old(self).pos as int),
            old(self).pos <= final(self).pos,
            r@ == old(self).chars@.subrange(old(self).pos - 1, final(self).pos as int),
    {
        let mut identifier = String::new();
        push_char(&mut identifier, c);
        proof {
            assert(identifier@ =~= self.chars@.subrange(old(self).pos - 1, self.pos as int));
        }
        loop
            invariant
                self.wf(),
                self.chars@ == old(self).chars@,
                old(self).pos <= self.pos,
                identifier_end(self.chars@, self.pos as int) == identifier_end(
                    old(self).chars@,
                    old(self).pos as int,
                ),
                identifier@ == self.chars@.subrange(old(self).pos - 1, self.pos as int),
            decreases self.chars@.len() - self.pos,
        {
            if self.pos < self.chars.len() && Self::is_identifier_continue(self.chars[self.pos]) {
                let d = self.advance();
                push_char(&mut identifier, d);
                proof {
                    assert(identifier@ =~= self.chars@.subrange(
                        old(self).pos - 1,
                        self.pos as int,
                    ));
                }
            } else {
                return identifier;
            }
        }
    }

    fn read_identifier_or_keyword(&mut self, c: char) -> (r: Token)
        requires
            old(self).wf(),
            old(self).pos >= 1,
            old(self).chars@[old(self).pos - 1] == c,
            spec_is_identifier_start(c),
        ensures
            final(self).wf(),
            final(self).chars@ == old(self).chars@,
            (Ok::<TokenModel, LexError>(r@), final(self).pos as int) == token_at(
                old(self).chars@,
                old(self).pos - 1,
            ),
    {
        let start = self.pos - 1;
        let identifier = self.read_identifier(c);
        let ghost w = identifier@;
        let is_fun = self.pos - start == 3 && self.chars[start] == 'f' && self.chars[start + 1]
            == 'u' && self.chars[start + 2] == 'n';
        proof {
            let s = self.chars@;
            assert(w == s.subrange(start as int, self.pos as int));
            if w == seq!['f', 'u', 'n'] {
                assert(w.len() == 3);
                assert(s[start as int] == w[0] && s[start + 1] == w[1] && s[start + 2] == w[2]);
            }
            if is_fun {
                assert(w[0] == s[start as int] && w[1] == s[start + 1] && w[2] == s[start + 2]);
                assert(w =~= seq!['f', 'u', 'n']);
            }
        }
        if is_fun {
            Token::FunKeyword
        } else {
            Token::Identifier(identifier)
        }
    }

    #[verifier::loop_isolation(false)]
    fn read_single_quoted_string_literal(&mut self) -> (r: Result<Token, LexError>)
        requires
            old(self).wf(),
            old(self).pos >= 1,
            old(self).chars@[old(self).pos - 1] == '\'',
        ensures
            final(self).wf(),
            final(self).chars@ == old(self).chars@,
            (match r {
                Ok(t) => Ok::<TokenModel, LexError>(t@),
                Err(e) => Err(e),
            }, final(self).pos as int) == token_at(old(self).chars@, old(self).pos - 1),
    {
        let ghost s = self.chars@;
        let ghost start = self.pos as int;
        let mut string: Vec<u8> = Vec::new();
        proof {
            assert(s.subrange(start, start) =~= Seq::<char>::empty());
            assert(encode_utf8(Seq::<char>::empty()) =~= Seq::<u8>::empty());
        }
        loop
            invariant
                self.wf(),
                self.chars@ == s,
                start <= self.pos,
                closing_quote(s, self.pos as int) == closing_quote(s, start),
                string@ == encode_utf8(s.subrange(start, self.pos as int)),
            decreases s.len() - self.pos,
        {
            if self.pos >= self.chars.len() {
                return Err(LexError::UnterminatedStringLiteral);
            }
            let ghost p = self.pos as int;
            let c = self.advance();
            if c == '\'' {
                return Ok(Token::StringLiteral(string));
            }
            let bytes = encode_char(c);
            proof {
                assert(s.subrange(start, p + 1) =~= s.subrange(start, p).push(c));
                lemma_encode_utf8_push(s.subrange(start, p), c);
            }
            string.extend_from_slice(bytes.as_slice());
        }
    }

    fn read_token(&mut self, c: char) -> (r: Result<Token, LexError>)
        requires
            old(self).wf(),
            old(self).pos >= 1,
            old(self).chars@[old(self).pos - 1] == c,
        ensures
            final(self).wf(),
            final(self).chars@ == old(self).chars@,
            (match r {
                Ok(t) => Ok::<TokenModel, LexError>(t@),
                Err(e) => Err(e),
            }, final(self).pos as int) == token_at(old(self).chars@, old(self).pos - 1),
    {
        if c == '(' {
            Ok(Token::LeftParenthesis)
        } else if c == ')' {
            Ok(Token::RightParenthesis)
        } else if c == '+' {
            Ok(Token::PlusSign)
        } else if c == '~' {
            Ok(Token::Tilde)
        } else if Self::is_identifier_start(c) {
            Ok(self.read_identifier_or_keyword(c))
        } else if c == '\'' {
            self.read_single_quoted_string_literal()
        } else {
            Err(LexError::InvalidToken(c))
        }
    }

    fn read_lexeme(&mut self) -> (r: Option<Result<Lexeme, LexError>>)
        requires
            old(self).wf(),
        ensures
            final(self).wf(),
            final(self).chars@ == old(self).chars@,
            (lexeme_result_model(r), final(self).pos as int) == next_lexeme(
                old(self).chars@,
                old(self).pos as int,
            ),
    {
        self.read_whitespace();
        if self.pos < self.chars.len() {
            let location = Location { offset: self.offset };
            let c = self.advance();
            match self.read_token(c) {
                Ok(token) => Some(Ok(Lexeme { location, token })),
                Err(e) => Some(Err(e)),
            }
        } else {
            None
        }
    }

    /// Read the next lexeme, or nothing at the end of the input.
    pub fn next(&mut self) -> (r: Option<Result<Lexeme, LexError>>)
        requires
            old(self).wf(),
        ensures
            final(self).wf(),
            final(self).input() == old(self).input(),
            (lexeme_result_model(r), final(self).position()) == next_lexeme(
                old(self).input(),
                old(self).position(),
            ),
    {
        self.read_lexeme()
    }
}

} // verus!
