//! The lexical grammar, as functions on sequences of characters.
//!
//! A source text is cut into lexemes from left to right. Each lexeme is the
//! longest token that begins at its first character, and the next lexeme
//! begins where it ends. No text is refused:
//!
//! - a character that begins no token is a token of its own, `Unknown`, and
//!   the text after it is read as usual;
//! - a string literal without a closing quote ends with the text;
//! - a comment without a line feed ends with the text;
//! - an integer literal above `i32::MAX` stands for `i32::MAX`.

use vstd::prelude::*;
use crate::classify::{char_is_whitespace, digit_value, spec_is_digit, spec_is_identifier_part, spec_is_identifier_start};
use crate::token::TokenView;

verus! {

/// A maximal stretch of characters of one kind.
pub enum Run {
    /// ASCII decimal digits.
    Digits,
    /// Characters that may continue an identifier.
    Word,
    /// Whitespace.
    Blank,
    /// Everything up to the next `"`.
    Quoted,
    /// Everything up to the next line feed.
    Line,
}

impl Run {
    /// Whether the run goes on over `c`.
    pub open spec fn admits(self, c: char) -> bool {
        match self {
            Run::Digits => spec_is_digit(c),
            Run::Word => spec_is_identifier_part(c),
            Run::Blank => char_is_whitespace(c),
            Run::Quoted => c != '"',
            Run::Line => c != '\n',
        }
    }
}

/// Where the run that starts at `pos` ends: the first position at or after
/// `pos` whose character the run does not admit, or the end of `s`.
pub open spec fn run_end(s: Seq<char>, pos: int, run: Run) -> int
    decreases s.len() - pos,
{
    if 0 <= pos < s.len() && run.admits(s[pos]) {
        run_end(s, pos + 1, run)
    } else {
        pos
    }
}

/// The position after a delimiter that closes a run ending at `end`: past
/// the delimiter if there is one, else the end of `s`.
pub open spec fn past_delimiter(s: Seq<char>, end: int) -> int {
    if end < s.len() {
        end + 1
    } else {
        end
    }
}

/// A string literal whose opening quote ends just before `pos`: the position
/// after its closing quote. A literal that is not closed ends with the text.
pub open spec fn text_end(s: Seq<char>, pos: int) -> int {
    past_delimiter(s, run_end(s, pos, Run::Quoted))
}

/// The token of a string literal whose opening quote ends just before `pos`.
pub open spec fn text_token(s: Seq<char>, pos: int) -> TokenView {
    TokenView::Text(s.subrange(pos, run_end(s, pos, Run::Quoted)))
}

/// A comment whose `//` ends just before `pos`: the position after the line
/// feed that ends it, or the end of the text.
pub open spec fn line_end(s: Seq<char>, pos: int) -> int {
    past_delimiter(s, run_end(s, pos, Run::Line))
}

/// The number that a sequence of decimal digits denotes.
pub open spec fn digits_value(digits: Seq<char>) -> nat
    decreases digits.len(),
{
    if digits.len() == 0 {
        0
    } else {
        (digits_value(digits.drop_last()) * 10 + digit_value(digits.last())) as nat
    }
}

/// `n` as an `i32`, or `i32::MAX` where `n` is above it.
pub open spec fn saturated(n: nat) -> i32 {
    if n > i32::MAX {
        i32::MAX
    } else {
        n as i32
    }
}

/// Whether the number whose first digit ends just before `pos` has a
/// fraction: its leading digits are followed by a `.`.
pub open spec fn number_has_point(s: Seq<char>, pos: int) -> bool {
    let whole = run_end(s, pos, Run::Digits);
    whole < s.len() && s[whole] == '.'
}

/// Where the number whose first digit ends just before `pos` ends: after its
/// digits, and after one `.` and the digits that follow it, if there is one.
pub open spec fn number_end(s: Seq<char>, pos: int) -> int {
    let whole = run_end(s, pos, Run::Digits);
    if number_has_point(s, pos) {
        run_end(s, whole + 1, Run::Digits)
    } else {
        whole
    }
}

/// The token of the number that begins with the digit `first` and goes on at
/// `pos`: a decimal literal as written, or the saturated value of an integer
/// literal.
pub open spec fn number_token(first: char, s: Seq<char>, pos: int) -> TokenView {
    let literal = seq![first] + s.subrange(pos, number_end(s, pos));
    if number_has_point(s, pos) {
        TokenView::Decimal(literal)
    } else {
        TokenView::Integer(saturated(digits_value(literal)))
    }
}

/// The word that begins with `first` and goes on at `pos`.
pub open spec fn word_text(first: char, s: Seq<char>, pos: int) -> Seq<char> {
    seq![first] + s.subrange(pos, run_end(s, pos, Run::Word))
}

/// The keyword table: the token of `word` if it is a keyword.
pub open spec fn keyword(word: Seq<char>) -> Option<TokenView> {
    if word == seq!['v', 'a', 'r'] {
        Some(TokenView::VarDeclaration)
    } else if word == seq!['t', 'r', 'u', 'e'] {
        Some(TokenView::Boolean(true))
    } else if word == seq!['f', 'a', 'l', 's', 'e'] {
        Some(TokenView::Boolean(false))
    } else {
        None
    }
}

/// The token of a word: its keyword, or an identifier.
pub open spec fn word_token(word: Seq<char>) -> TokenView {
    match keyword(word) {
        Some(token) => token,
        None => TokenView::Identifier(word),
    }
}

/// A token together with the stretch of source text it was read from,
/// `start` inclusive to `end` exclusive.
pub struct Lexeme {
    pub token: TokenView,
    pub start: int,
    pub end: int,
}

/// Whether `s` holds the character `c` at `pos`.
pub open spec fn has_char_at(s: Seq<char>, pos: int, c: char) -> bool {
    0 <= pos < s.len() && s[pos] == c
}

/// The lexeme that begins at `start`.
///
/// The first character decides the kind of token: an operator or a brace,
/// a quote, a digit, whitespace, the start of an identifier, in this order.
/// `==` and `//` are taken before `=` and `/`. A character that begins no
/// token is a lexeme of its own.
pub open spec fn lexeme_at(s: Seq<char>, start: int) -> Lexeme
    recommends
        0 <= start < s.len(),
{
    let c = s[start];
    let next = start + 1;
    if c == '+' {
        Lexeme { token: TokenView::Add, start, end: next }
    } else if c == '-' {
        Lexeme { token: TokenView::Subtract, start, end: next }
    } else if c == '*' {
        Lexeme { token: TokenView::Multiply, start, end: next }
    } else if c == '{' {
        Lexeme { token: TokenView::ScopeStart, start, end: next }
    } else if c == '}' {
        Lexeme { token: TokenView::ScopeEnd, start, end: next }
    } else if c == '=' {
        if has_char_at(s, next, '=') {
            Lexeme { token: TokenView::Equals, start, end: next + 1 }
        } else {
            Lexeme { token: TokenView::Assign, start, end: next }
        }
    } else if c == '/' {
        if has_char_at(s, next, '/') {
            Lexeme { token: TokenView::Comment, start, end: line_end(s, next + 1) }
        } else {
            Lexeme { token: TokenView::Divide, start, end: next }
        }
    } else if c == '"' {
        Lexeme { token: text_token(s, next), start, end: text_end(s, next) }
    } else if spec_is_digit(c) {
        Lexeme { token: number_token(c, s, next), start, end: number_end(s, next) }
    } else if char_is_whitespace(c) {
        Lexeme { token: TokenView::Whitespace, start, end: run_end(s, next, Run::Blank) }
    } else if spec_is_identifier_start(c) {
        Lexeme {
            token: word_token(word_text(c, s, next)),
            start,
            end: run_end(s, next, Run::Word),
        }
    } else {
        Lexeme { token: TokenView::Unknown(seq![c]), start, end: next }
    }
}

/// The lexemes of `s` from `pos` to its end, in order.
pub open spec fn lexemes_from(s: Seq<char>, pos: int) -> Seq<Lexeme>
    decreases s.len() - pos,
    via lexemes_from_decreases
{
    if 0 <= pos < s.len() {
        seq![lexeme_at(s, pos)] + lexemes_from(s, lexeme_at(s, pos).end)
    } else {
        Seq::empty()
    }
}

#[via_fn]
proof fn lexemes_from_decreases(s: Seq<char>, pos: int) {
    if 0 <= pos < s.len() {
        lemma_lexeme_span(s, pos);
    }
}

/// The lexemes of the whole of `s`.
pub open spec fn lexemes(s: Seq<char>) -> Seq<Lexeme> {
    lexemes_from(s, 0)
}

/// The tokens of `lexemes` that are neither whitespace nor comments.
pub open spec fn significant_tokens(lexemes: Seq<Lexeme>) -> Seq<TokenView> {
    lexemes.filter(|l: Lexeme| l.token.is_significant()).map_values(|l: Lexeme| l.token)
}

/// What tokenizing `s` gives: the tokens of its lexemes, without whitespace
/// and comments.
pub open spec fn spec_tokenize(s: Seq<char>) -> Seq<TokenView> {
    significant_tokens(lexemes(s))
}

/// The source text that a sequence of lexemes was read from: their
/// stretches of `s`, one after the other.
pub open spec fn source_of(s: Seq<char>, lexemes: Seq<Lexeme>) -> Seq<char>
    decreases lexemes.len(),
{
    if lexemes.len() == 0 {
        Seq::empty()
    } else {
        s.subrange(lexemes[0].start, lexemes[0].end) + source_of(s, lexemes.drop_first())
    }
}

/// A run ends at or after the position where it starts, and within the text.
pub proof fn lemma_run_end_bounds(s: Seq<char>, pos: int, run: Run)
    requires
        0 <= pos <= s.len(),
    ensures
        pos <= run_end(s, pos, run) <= s.len(),
    decreases s.len() - pos,
{
    if pos < s.len() && run.admits(s[pos]) {
        lemma_run_end_bounds(s, pos + 1, run);
    }
}

/// A lexeme is not empty and lies within the text.
pub proof fn lemma_lexeme_span(s: Seq<char>, start: int)
    requires
        0 <= start < s.len(),
    ensures
        lexeme_at(s, start).start == start,
        start < lexeme_at(s, start).end <= s.len(),
{
    let next = start + 1;
    lemma_run_end_bounds(s, next, Run::Digits);
    lemma_run_end_bounds(s, next, Run::Word);
    lemma_run_end_bounds(s, next, Run::Blank);
    lemma_run_end_bounds(s, next, Run::Quoted);
    if has_char_at(s, next, '/') {
        lemma_run_end_bounds(s, next + 1, Run::Line);
    }
    if number_has_point(s, next) {
        lemma_run_end_bounds(s, run_end(s, next, Run::Digits) + 1, Run::Digits);
    }
}

/// The significant tokens from `pos` on are the token at `pos`, if it is
/// significant, and then those from the end of its lexeme on.
pub proof fn lemma_significant_step(s: Seq<char>, pos: int)
    requires
        0 <= pos < s.len(),
    ensures
        significant_tokens(lexemes_from(s, pos)) == if lexeme_at(s, pos).token.is_significant() {
            seq![lexeme_at(s, pos).token] + significant_tokens(
                lexemes_from(s, lexeme_at(s, pos).end),
            )
        } else {
            significant_tokens(lexemes_from(s, lexeme_at(s, pos).end))
        },
{
    let first = lexeme_at(s, pos);
    let rest = lexemes_from(s, first.end);
    lemma_significant_concat(seq![first], rest);
    reveal_with_fuel(Seq::filter, 2);
    let kept = seq![first].filter(|l: Lexeme| l.token.is_significant());
    if first.token.is_significant() {
        assert(kept =~= seq![first]);
        assert(significant_tokens(seq![first]) =~= seq![first.token]);
    } else {
        assert(kept =~= Seq::<Lexeme>::empty());
        assert(significant_tokens(seq![first]) =~= Seq::<TokenView>::empty());
        assert(Seq::<TokenView>::empty() + significant_tokens(rest) =~= significant_tokens(rest));
    }
}

/// The significant tokens of two sequences of lexemes, one after the other.
pub proof fn lemma_significant_concat(a: Seq<Lexeme>, b: Seq<Lexeme>)
    ensures
        significant_tokens(a + b) == significant_tokens(a) + significant_tokens(b),
{
    let keep = |l: Lexeme| l.token.is_significant();
    Seq::filter_distributes_over_add(a, b, keep);
    assert(significant_tokens(a + b) =~= significant_tokens(a) + significant_tokens(b));
}

/// A run ends at `end` if it admits every character from `pos` up to `end`,
/// and `end` is the end of the text or holds a character that the run does
/// not admit.
pub proof fn lemma_run_stops(s: Seq<char>, pos: int, end: int, run: Run)
    requires
        0 <= pos <= end <= s.len(),
        forall|i: int| pos <= i < end ==> run.admits(#[trigger] s[i]),
        end == s.len() || !run.admits(s[end]),
    ensures
        run_end(s, pos, run) == end,
    decreases end - pos,
{
    if pos < end {
        lemma_run_stops(s, pos + 1, end, run);
    }
}

/// The lexemes from `pos` on lie side by side: the first begins at `pos`,
/// each is non-empty and begins where the one before it ends, and the last
/// ends with the text.
pub proof fn lexemes_are_adjacent(s: Seq<char>, pos: int)
    requires
        0 <= pos <= s.len(),
    ensures
        pos < s.len() ==> lexemes_from(s, pos).len() > 0,
        pos == s.len() ==> lexemes_from(s, pos).len() == 0,
        lexemes_from(s, pos).len() > 0 ==> lexemes_from(s, pos).first().start == pos
            && lexemes_from(s, pos).last().end == s.len(),
        forall|i: int|
            0 <= i < lexemes_from(s, pos).len() ==> {
                let l = #[trigger] lexemes_from(s, pos)[i];
                0 <= l.start < l.end <= s.len() && l == lexeme_at(s, l.start)
            },
        forall|i: int|
            0 <= i < lexemes_from(s, pos).len() - 1 ==> (#[trigger] lexemes_from(s, pos)[i]).end
                == lexemes_from(s, pos)[i + 1].start,
    decreases s.len() - pos,
{
    if pos < s.len() {
        lemma_lexeme_span(s, pos);
        let first = lexeme_at(s, pos);
        let rest = lexemes_from(s, first.end);
        let all = lexemes_from(s, pos);
        lexemes_are_adjacent(s, first.end);
        assert(all =~= seq![first] + rest);
        assert forall|i: int| 0 <= i < all.len() implies {
            let l = #[trigger] all[i];
            0 <= l.start < l.end <= s.len() && l == lexeme_at(s, l.start)
        } by {
            if i > 0 {
                assert(all[i] == rest[i - 1]);
            }
        }
        assert forall|i: int| 0 <= i < all.len() - 1 implies (#[trigger] all[i]).end == all[i
            + 1].start by {
            assert(all[i + 1] == rest[i]);
            if i > 0 {
                assert(all[i] == rest[i - 1]);
            }
        }
        if rest.len() > 0 {
            assert(all.last() == rest.last());
        }
    }
}

/// The stretches of the lexemes from `pos` on, put together, are the text
/// from `pos` on.
pub proof fn lemma_source_from(s: Seq<char>, pos: int)
    requires
        0 <= pos <= s.len(),
    ensures
        source_of(s, lexemes_from(s, pos)) == s.subrange(pos, s.len() as int),
    decreases s.len() - pos,
{
    if pos < s.len() {
        lemma_lexeme_span(s, pos);
        let first = lexeme_at(s, pos);
        let rest = lexemes_from(s, first.end);
        let all = lexemes_from(s, pos);
        lemma_source_from(s, first.end);
        assert(all.drop_first() =~= rest);
        assert(s.subrange(pos, first.end) + s.subrange(first.end, s.len() as int) =~= s.subrange(
            pos,
            s.len() as int,
        ));
    } else {
        assert(s.subrange(pos, s.len() as int) =~= Seq::<char>::empty());
    }
}

/// Nothing is lost and nothing is invented: the stretches of text that the
/// lexemes of `s` were read from, whitespace and comments included, put
/// together in order, are `s` itself.
pub proof fn lexemes_cover_source(s: Seq<char>)
    ensures
        source_of(s, lexemes(s)) == s,
{
    lemma_source_from(s, 0);
    assert(s.subrange(0, s.len() as int) =~= s);
}

/// Whether `digits` is an integer literal: one or more decimal digits.
pub open spec fn is_integer_literal(digits: Seq<char>) -> bool {
    &&& digits.len() > 0
    &&& forall|i: int| 0 <= i < digits.len() ==> spec_is_digit(#[trigger] digits[i])
}

/// An integer literal is one lexeme, whose token holds the saturated value
/// of the literal.
pub proof fn lemma_integer_literal_lexeme(digits: Seq<char>)
    requires
        is_integer_literal(digits),
    ensures
        lexemes(digits) == seq![
            Lexeme {
                token: TokenView::Integer(saturated(digits_value(digits))),
                start: 0,
                end: digits.len() as int,
            },
        ],
{
    lemma_run_stops(digits, 1, digits.len() as int, Run::Digits);
    assert(seq![digits[0]] + digits.subrange(1, digits.len() as int) =~= digits);
    assert(spec_is_digit(digits[0]));
    let first = lexeme_at(digits, 0);
    assert(first.end == digits.len());
    assert(lexemes_from(digits, first.end) =~= Seq::<Lexeme>::empty());
    assert(lexemes_from(digits, 0) =~= seq![first]);
}

/// An integer literal whose value an `i32` can hold tokenizes to one
/// integer token with exactly that value.
pub proof fn integer_literal_keeps_value(digits: Seq<char>)
    requires
        is_integer_literal(digits),
        digits_value(digits) <= i32::MAX,
    ensures
        spec_tokenize(digits) == seq![TokenView::Integer(digits_value(digits) as i32)],
{
    lemma_integer_literal_lexeme(digits);
    lemma_significant_step(digits, 0);
    let first = lexeme_at(digits, 0);
    assert(lexemes(digits)[0] == first);
    assert(lexemes_from(digits, first.end) =~= Seq::<Lexeme>::empty());
    assert(significant_tokens(Seq::<Lexeme>::empty()) =~= Seq::<TokenView>::empty());
    assert(spec_tokenize(digits) =~= seq![TokenView::Integer(digits_value(digits) as i32)]);
}

/// An integer literal whose value is above `i32::MAX` tokenizes to one
/// integer token that holds `i32::MAX`.
pub proof fn integer_literal_saturates(digits: Seq<char>)
    requires
        is_integer_literal(digits),
        digits_value(digits) > i32::MAX,
    ensures
        spec_tokenize(digits) == seq![TokenView::Integer(i32::MAX)],
{
    lemma_integer_literal_lexeme(digits);
    lemma_significant_step(digits, 0);
    let first = lexeme_at(digits, 0);
    assert(lexemes(digits)[0] == first);
    assert(lexemes_from(digits, first.end) =~= Seq::<Lexeme>::empty());
    assert(significant_tokens(Seq::<Lexeme>::empty()) =~= Seq::<TokenView>::empty());
    assert(spec_tokenize(digits) =~= seq![TokenView::Integer(i32::MAX)]);
}

/// The decimal digit that stands for `d`.
pub open spec fn digit_char(d: nat) -> char
    recommends
        d <= 9,
{
    ('0' as int + d) as char
}

/// `n` written in decimal, without leading zeros.
pub open spec fn decimal_digits(n: nat) -> Seq<char>
    decreases n,
{
    if n < 10 {
        seq![digit_char(n)]
    } else {
        decimal_digits(n / 10).push(digit_char(n % 10))
    }
}

/// The decimal writing of `n` is an integer literal that denotes `n`.
pub proof fn lemma_decimal_digits_value(n: nat)
    ensures
        is_integer_literal(decimal_digits(n)),
        digits_value(decimal_digits(n)) == n,
    decreases n,
{
    if n < 10 {
        let d = seq![digit_char(n)];
        assert(d.drop_last() =~= Seq::<char>::empty());
        reveal_with_fuel(digits_value, 2);
    } else {
        lemma_decimal_digits_value(n / 10);
        let front = decimal_digits(n / 10);
        let d = front.push(digit_char(n % 10));
        assert(d.drop_last() =~= front);
        assert(d.last() == digit_char(n % 10));
        assert forall|i: int| 0 <= i < d.len() implies spec_is_digit(#[trigger] d[i]) by {
            if i < front.len() {
                assert(d[i] == front[i]);
            }
        }
    }
}

/// Writing a number that an `i32` can hold in decimal and tokenizing what
/// was written gives the number back.
pub proof fn integer_round_trip(n: nat)
    requires
        n <= i32::MAX,
    ensures
        spec_tokenize(decimal_digits(n)) == seq![TokenView::Integer(n as i32)],
{
    lemma_decimal_digits_value(n);
    integer_literal_keeps_value(decimal_digits(n));
}

/// A run in a text that follows a prefix ends where it ends in the text
/// alone, moved by the length of the prefix.
pub proof fn lemma_run_after_prefix(prefix: Seq<char>, s: Seq<char>, pos: int, run: Run)
    requires
        0 <= pos <= s.len(),
    ensures
        run_end(prefix + s, prefix.len() + pos, run) == prefix.len() + run_end(s, pos, run),
    decreases s.len() - pos,
{
    if pos < s.len() {
        assert((prefix + s)[prefix.len() + pos] == s[pos]);
        if run.admits(s[pos]) {
            lemma_run_after_prefix(prefix, s, pos + 1, run);
        }
    }
}

/// A lexeme in a text that follows a prefix has the token that it has in
/// the text alone, and ends where it ends there, moved by the length of the
/// prefix: what comes before a lexeme has no part in it.
pub proof fn lemma_lexeme_after_prefix(prefix: Seq<char>, s: Seq<char>, pos: int)
    requires
        0 <= pos < s.len(),
    ensures
        lexeme_at(prefix + s, prefix.len() + pos).token == lexeme_at(s, pos).token,
        lexeme_at(prefix + s, prefix.len() + pos).end == prefix.len() + lexeme_at(s, pos).end,
{
    let t = prefix + s;
    let n = prefix.len() as int;
    let next = pos + 1;
    assert(t[n + pos] == s[pos]);
    if next < s.len() {
        assert(t[n + next] == s[next]);
    }
    lemma_run_end_bounds(s, next, Run::Digits);
    lemma_run_end_bounds(s, next, Run::Word);
    lemma_run_end_bounds(s, next, Run::Quoted);
    lemma_run_after_prefix(prefix, s, next, Run::Digits);
    lemma_run_after_prefix(prefix, s, next, Run::Word);
    lemma_run_after_prefix(prefix, s, next, Run::Blank);
    lemma_run_after_prefix(prefix, s, next, Run::Quoted);
    if has_char_at(s, next, '/') {
        lemma_run_after_prefix(prefix, s, next + 1, Run::Line);
    }
    let whole = run_end(s, next, Run::Digits);
    if whole < s.len() {
        assert(t[n + whole] == s[whole]);
        lemma_run_end_bounds(s, whole + 1, Run::Digits);
        lemma_run_after_prefix(prefix, s, whole + 1, Run::Digits);
    }
    assert(number_has_point(t, n + next) == number_has_point(s, next));
    assert(t.subrange(n + next, n + number_end(s, next)) =~= s.subrange(
        next,
        number_end(s, next),
    ));
    assert(t.subrange(n + next, n + run_end(s, next, Run::Word)) =~= s.subrange(
        next,
        run_end(s, next, Run::Word),
    ));
    assert(t.subrange(n + next, n + run_end(s, next, Run::Quoted)) =~= s.subrange(
        next,
        run_end(s, next, Run::Quoted),
    ));
}

/// The significant tokens of a text that follows a prefix, read from the
/// end of the prefix on, are those of the text alone.
pub proof fn lemma_tokens_after_prefix(prefix: Seq<char>, s: Seq<char>, pos: int)
    requires
        0 <= pos <= s.len(),
    ensures
        significant_tokens(lexemes_from(prefix + s, prefix.len() + pos)) == significant_tokens(
            lexemes_from(s, pos),
        ),
    decreases s.len() - pos,
{
    if pos < s.len() {
        lemma_lexeme_span(s, pos);
        lemma_lexeme_after_prefix(prefix, s, pos);
        lemma_significant_step(s, pos);
        lemma_significant_step(prefix + s, prefix.len() + pos);
        lemma_tokens_after_prefix(prefix, s, lexeme_at(s, pos).end);
    }
}

/// A comment line is elided in full and takes nothing of the next line
/// with it: a text that begins with `//`, any characters but a line feed,
/// and a line feed tokenizes as the text after that line feed does.
pub proof fn comment_line_is_elided(comment: Seq<char>, rest: Seq<char>)
    requires
        forall|i: int| 0 <= i < comment.len() ==> #[trigger] comment[i] != '\n',
    ensures
        spec_tokenize(seq!['/', '/'] + comment + seq!['\n'] + rest) == spec_tokenize(rest),
{
    let line = seq!['/', '/'] + comment + seq!['\n'];
    let t = line + rest;
    let feed = 2 + comment.len() as int;
    assert(t[0] == '/' && t[1] == '/');
    assert(t[feed] == '\n');
    assert forall|i: int| 2 <= i < feed implies Run::Line.admits(#[trigger] t[i]) by {
        assert(t[i] == comment[i - 2]);
    }
    lemma_run_stops(t, 2, feed, Run::Line);
    assert(lexeme_at(t, 0).token == TokenView::Comment);
    assert(lexeme_at(t, 0).end == line.len());
    lemma_significant_step(t, 0);
    lemma_tokens_after_prefix(line, rest, 0);
}

/// A comment that the text ends in is elided too: a text made of `//` and
/// any characters but a line feed has no tokens.
pub proof fn last_comment_is_elided(comment: Seq<char>)
    requires
        forall|i: int| 0 <= i < comment.len() ==> #[trigger] comment[i] != '\n',
    ensures
        spec_tokenize(seq!['/', '/'] + comment) == Seq::<TokenView>::empty(),
{
    let t = seq!['/', '/'] + comment;
    assert(t[0] == '/' && t[1] == '/');
    assert forall|i: int| 2 <= i < t.len() implies Run::Line.admits(#[trigger] t[i]) by {
        assert(t[i] == comment[i - 2]);
    }
    lemma_run_stops(t, 2, t.len() as int, Run::Line);
    assert(lexeme_at(t, 0).token == TokenView::Comment);
    assert(lexeme_at(t, 0).end == t.len());
    lemma_significant_step(t, 0);
    assert(lexemes_from(t, t.len() as int) =~= Seq::<Lexeme>::empty());
    reveal_with_fuel(Seq::filter, 1);
    assert(significant_tokens(Seq::<Lexeme>::empty()) =~= Seq::<TokenView>::empty());
}

} // verus!
