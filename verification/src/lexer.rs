//! The tokenizer: a scanner that reads a source text from left to right,
//! one token at a time, looking at most one character ahead.

use vstd::prelude::*;
use crate::classify::{
    digit_of, is_digit, spec_is_digit, spec_is_identifier_part, spec_is_identifier_start,
};
use crate::grammar::{
    digits_value, has_char_at, keyword, lemma_lexeme_span, lemma_significant_step, lexeme_at,
    lexemes_from, line_end, number_end, number_has_point, number_token, run_end, saturated,
    significant_tokens, spec_tokenize, text_end, text_token, word_text, Run,
};
use crate::token::{token_views, Token, TokenView};

verus! {

/// A scanner over one source text.
pub struct Lexer {
    content: Vec<char>,
    position: usize,
}

/// The state of a [`Lexer`]: the text it scans and how far it has come.
pub struct LexerView {
    /// The whole source text.
    pub content: Seq<char>,
    /// The number of characters already read.
    pub position: int,
}

impl View for Lexer {
    type V = LexerView;

    closed spec fn view(&self) -> LexerView {
        LexerView { content: self.content@, position: self.position as int }
    }
}

impl Lexer {
    #[verifier::type_invariant]
    spec fn within_content(&self) -> bool {
        self.position <= self.content.len()
    }

    /// A scanner at the start of `content`.
    pub fn new(content: &str) -> (lexer: Self)
        ensures
            lexer@.content == content@,
            lexer@.position == 0,
    {
        let mut chars: Vec<char> = Vec::new();
        for c in iter: content.chars()
            invariant
                iter.seq() == content@,
                chars@ == content@.take(iter.index()),
        {
            chars.push(c);
            assert(chars@ =~= content@.take(iter.index() + 1));
        }
        assert(chars@ =~= content@);
        Lexer { content: chars, position: 0 }
    }

    /// The number of characters read so far.
    pub fn position(&self) -> (position: usize)
        ensures
            position == self@.position,
            position <= self@.content.len(),
    {
        proof {
            use_type_invariant(self);
        }
        self.position
    }

    /// The next character, which stays unread; `None` at the end of the text.
    pub fn peek(&self) -> (next: Option<char>)
        ensures
            next == if self@.position < self@.content.len() {
                Some(self@.content[self@.position])
            } else {
                None
            },
    {
        if self.position < self.content.len() {
            Some(self.content[self.position])
        } else {
            None
        }
    }

    /// Reads the next character; `None` at the end of the text, where
    /// nothing changes.
    pub fn advance(&mut self) -> (next: Option<char>)
        ensures
            final(self)@.content == old(self)@.content,
            old(self)@.position < old(self)@.content.len() ==> {
                &&& next == Some(old(self)@.content[old(self)@.position])
                &&& final(self)@.position == old(self)@.position + 1
            },
            old(self)@.position >= old(self)@.content.len() ==> {
                &&& next is None
                &&& final(self)@.position == old(self)@.position
            },
    {
        proof {
            use_type_invariant(&*self);
        }
        match self.peek() {
            Some(c) => {
                self.position += 1;
                Some(c)
            },
            None => None,
        }
    }

    /// Skips the rest of the current line, through its line feed.
    pub fn next_line(&mut self)
        ensures
            final(self)@.content == old(self)@.content,
            final(self)@.position == line_end(old(self)@.content, old(self)@.position),
    {
        proof {
            use_type_invariant(&*self);
        }
        while self.position < self.content.len()
            invariant
                self.position <= self.content.len(),
                self@.content == old(self)@.content,
                run_end(self@.content, self@.position, Run::Line) == run_end(
                    old(self)@.content,
                    old(self)@.position,
                    Run::Line,
                ),
            decreases self.content.len() - self.position,
        {
            let c = self.content[self.position];
            self.position += 1;
            if c == '\n' {
                return ;
            }
        }
    }

    /// Reads a string literal whose opening quote has been read: everything
    /// up to the closing quote, which is read too. A literal that is not
    /// closed ends with the text.
    pub fn read_string(&mut self) -> (token: Token)
        ensures
            final(self)@.content == old(self)@.content,
            final(self)@.position == text_end(old(self)@.content, old(self)@.position),
            token@ == text_token(old(self)@.content, old(self)@.position),
    {
        proof {
            use_type_invariant(&*self);
        }
        let ghost start = self@.position;
        let mut value = String::new();
        assert(value@ =~= self@.content.subrange(start, start));
        while self.position < self.content.len()
            invariant
                self.position <= self.content.len(),
                self@.content == old(self)@.content,
                start == old(self)@.position,
                start <= self@.position,
                run_end(self@.content, self@.position, Run::Quoted) == run_end(
                    self@.content,
                    start,
                    Run::Quoted,
                ),
                value@ == self@.content.subrange(start, self@.position),
            decreases self.content.len() - self.position,
        {
            let c = self.content[self.position];
            self.position += 1;
            if c == '"' {
                return Token::Text(value);
            }
            value.push(c);
            assert(value@ =~= self@.content.subrange(start, self@.position));
        }
        Token::Text(value)
    }

    /// Reads the rest of a number whose first digit has been read: digits,
    /// then at most one `.` with the digits after it. A second `.` is left
    /// unread.
    pub fn read_number(&mut self, first_digit: char) -> (token: Token)
        requires
            spec_is_digit(first_digit),
        ensures
            final(self)@.content == old(self)@.content,
            final(self)@.position == number_end(old(self)@.content, old(self)@.position),
            token@ == number_token(first_digit, old(self)@.content, old(self)@.position),
    {
        proof {
            use_type_invariant(&*self);
        }
        let ghost start = self@.position;
        let ghost whole_end = run_end(self@.content, start, Run::Digits);
        let mut value = String::new();
        value.push(first_digit);
        let mut whole: i32 = digit_of(first_digit) as i32;
        let mut has_decimal = false;
        proof {
            assert(value@ =~= seq![first_digit] + self@.content.subrange(start, start));
            assert(value@.drop_last() =~= Seq::<char>::empty());
            reveal_with_fuel(digits_value, 2);
        }
        while self.position < self.content.len()
            invariant
                self.position <= self.content.len(),
                self@.content == old(self)@.content,
                start == old(self)@.position,
                start <= self@.position,
                whole_end == run_end(self@.content, start, Run::Digits),
                value@ == seq![first_digit] + self@.content.subrange(start, self@.position),
                !has_decimal ==> {
                    &&& run_end(self@.content, self@.position, Run::Digits) == whole_end
                    &&& whole == saturated(digits_value(value@))
                },
                has_decimal ==> {
                    &&& has_char_at(self@.content, whole_end, '.')
                    &&& whole_end < self@.position
                    &&& run_end(self@.content, self@.position, Run::Digits) == run_end(
                        self@.content,
                        whole_end + 1,
                        Run::Digits,
                    )
                },
            ensures
                self.position <= self.content.len(),
                self@.content == old(self)@.content,
                self@.position == number_end(self@.content, start),
                has_decimal == number_has_point(self@.content, start),
                value@ == seq![first_digit] + self@.content.subrange(start, self@.position),
                !has_decimal ==> whole == saturated(digits_value(value@)),
            decreases self.content.len() - self.position,
        {
            let c = self.content[self.position];
            if c == '.' && !has_decimal {
                has_decimal = true;
                value.push(c);
                self.position += 1;
            } else if is_digit(c) {
                let ghost before = value@;
                value.push(c);
                if !has_decimal {
                    let next: i64 = whole as i64 * 10 + digit_of(c) as i64;
                    whole = if next > i32::MAX as i64 {
                        i32::MAX
                    } else {
                        next as i32
                    };
                    assert(value@.drop_last() =~= before);
                }
                self.position += 1;
            } else {
                break ;
            }
            assert(value@ =~= seq![first_digit] + self@.content.subrange(start, self@.position));
        }
        if has_decimal {
            Token::Decimal(value)
        } else {
            Token::Integer(whole)
        }
    }

    /// Reads the rest of an identifier whose first character has been read,
    /// and returns the whole name.
    pub fn read_identifier(&mut self, first_character: char) -> (identifier: String)
        ensures
            final(self)@.content == old(self)@.content,
            final(self)@.position == run_end(old(self)@.content, old(self)@.position, Run::Word),
            identifier@ == word_text(first_character, old(self)@.content, old(self)@.position),
    {
        proof {
            use_type_invariant(&*self);
        }
        let ghost start = self@.position;
        let mut identifier = String::new();
        identifier.push(first_character);
        assert(identifier@ =~= seq![first_character] + self@.content.subrange(start, start));
        while self.position < self.content.len()
            invariant
                self.position <= self.content.len(),
                self@.content == old(self)@.content,
                start == old(self)@.position,
                start <= self@.position,
                run_end(self@.content, self@.position, Run::Word) == run_end(
                    self@.content,
                    start,
                    Run::Word,
                ),
                identifier@ == seq![first_character] + self@.content.subrange(
                    start,
                    self@.position,
                ),
            ensures
                self.position <= self.content.len(),
                self@.content == old(self)@.content,
                self@.position == run_end(self@.content, start, Run::Word),
                identifier@ == seq![first_character] + self@.content.subrange(
                    start,
                    self@.position,
                ),
            decreases self.content.len() - self.position,
        {
            let c = self.content[self.position];
            if self.is_identifier_part(c) {
                identifier.push(c);
                self.position += 1;
                assert(identifier@ =~= seq![first_character] + self@.content.subrange(
                    start,
                    self@.position,
                ));
            } else {
                break ;
            }
        }
        identifier
    }

    /// Looks `string` up in the keyword table.
    pub fn check_keyword(&self, string: &str) -> (token: Option<Token>)
        ensures
            match token {
                Some(t) => keyword(string@) == Some(t@),
                None => keyword(string@) is None,
            },
    {
        proof {
            reveal_strlit("var");
            reveal_strlit("true");
            reveal_strlit("false");
            assert("var"@ =~= seq!['v', 'a', 'r']);
            assert("true"@ =~= seq!['t', 'r', 'u', 'e']);
            assert("false"@ =~= seq!['f', 'a', 'l', 's', 'e']);
        }
        if string.eq("var") {
            Some(Token::VarDeclaration)
        } else if string.eq("true") {
            Some(Token::Boolean(true))
        } else if string.eq("false") {
            Some(Token::Boolean(false))
        } else {
            None
        }
    }

    /// Tests whether an identifier may begin with `character`.
    pub fn is_identifier_start(&self, character: char) -> (b: bool)
        ensures
            b == spec_is_identifier_start(character),
    {
        character.is_alphabetic() || character == '_' || character == '$'
    }

    /// Tests whether an identifier may continue with `character`.
    pub fn is_identifier_part(&self, character: char) -> (b: bool)
        ensures
            b == spec_is_identifier_part(character),
    {
        character.is_alphanumeric() || character == '_'
    }

    /// Reads the rest of a run of whitespace.
    fn skip_whitespace(&mut self)
        ensures
            final(self)@.content == old(self)@.content,
            final(self)@.position == run_end(old(self)@.content, old(self)@.position, Run::Blank),
    {
        proof {
            use_type_invariant(&*self);
        }
        while self.position < self.content.len() && self.content[self.position].is_whitespace()
            invariant
                self.position <= self.content.len(),
                self@.content == old(self)@.content,
                run_end(self@.content, self@.position, Run::Blank) == run_end(
                    old(self)@.content,
                    old(self)@.position,
                    Run::Blank,
                ),
            decreases self.content.len() - self.position,
        {
            self.position += 1;
        }
    }

    /// Reads the next token, whitespace and comments included; `None` at the
    /// end of the text.
    pub fn next_token(&mut self) -> (token: Option<Token>)
        ensures
            final(self)@.content == old(self)@.content,
            old(self)@.position >= old(self)@.content.len() ==> {
                &&& token is None
                &&& final(self)@.position == old(self)@.position
            },
            old(self)@.position < old(self)@.content.len() ==> {
                &&& token is Some
                &&& token->0@ == lexeme_at(old(self)@.content, old(self)@.position).token
                &&& final(self)@.position == lexeme_at(
                    old(self)@.content,
                    old(self)@.position,
                ).end
            },
    {
        let c = match self.advance() {
            Some(c) => c,
            None => {
                return None;
            },
        };
        if c == '+' {
            Some(Token::Add)
        } else if c == '-' {
            Some(Token::Subtract)
        } else if c == '*' {
            Some(Token::Multiply)
        } else if c == '{' {
            Some(Token::ScopeStart)
        } else if c == '}' {
            Some(Token::ScopeEnd)
        } else if c == '=' {
            match self.peek() {
                Some('=') => {
                    self.advance();
                    Some(Token::Equals)
                },
                _ => Some(Token::Assign),
            }
        } else if c == '/' {
            match self.peek() {
                Some('/') => {
                    self.advance();
                    self.next_line();
                    Some(Token::Comment)
                },
                _ => Some(Token::Divide),
            }
        } else if c == '"' {
            Some(self.read_string())
        } else if is_digit(c) {
            Some(self.read_number(c))
        } else if c.is_whitespace() {
            self.skip_whitespace();
            Some(Token::Whitespace)
        } else if self.is_identifier_start(c) {
            let identifier = self.read_identifier(c);
            match self.check_keyword(identifier.as_str()) {
                Some(keyword_token) => Some(keyword_token),
                None => Some(Token::Identifier(identifier)),
            }
        } else {
            let mut current = String::new();
            current.push(c);
            assert(current@ =~= seq![c]);
            Some(Token::Unknown(current))
        }
    }

    /// Turns a source text into its tokens, without whitespace and comments.
    pub fn tokenize(content: &str) -> (tokens: Vec<Token>)
        ensures
            token_views(tokens@) == spec_tokenize(content@),
    {
        let mut lexer = Self::new(content);
        let mut tokens: Vec<Token> = Vec::new();
        assert(token_views(tokens@) =~= Seq::<TokenView>::empty());
        loop
            invariant
                lexer@.content == content@,
                0 <= lexer@.position <= lexer@.content.len(),
                token_views(tokens@) + significant_tokens(
                    lexemes_from(lexer@.content, lexer@.position),
                ) == spec_tokenize(content@),
            ensures
                token_views(tokens@) == spec_tokenize(content@),
            decreases lexer@.content.len() - lexer@.position,
        {
            let ghost position = lexer@.position;
            let ghost before = tokens@;
            proof {
                if position < content@.len() {
                    lemma_lexeme_span(content@, position);
                    lemma_significant_step(content@, position);
                } else {
                    assert(significant_tokens(lexemes_from(content@, position)) =~= Seq::<
                        TokenView,
                    >::empty());
                }
            }
            match lexer.next_token() {
                None => {
                    break ;
                },
                Some(token) => {
                    match token {
                        Token::Whitespace => {},
                        Token::Comment => {},
                        t => {
                            tokens.push(t);
                            assert(token_views(tokens@) =~= token_views(before).push(t@));
                        },
                    }
                },
            }
        }
        tokens
    }
}

} // verus!
