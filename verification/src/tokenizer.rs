//! Tokenizer: classifies a log line into typed tokens (word, number, IPv4,
//! UUID, punctuation, whitespace, catch-all) at the byte level.
//!
//! Every token except whitespace carries a byte range into the input; a
//! whitespace token carries only the length of the run it replaces. Once
//! `MAX_TOKENS` tokens have been produced for one line, the remainder of the
//! line becomes a single catch-all token.

use vstd::prelude::*;
use vstd::string::StringSliceAdditionalSpecFns;
use crate::strutil::bytes_to_string;

verus! {

/// A line yields at most this many real tokens; the rest becomes a catch-all.
pub const MAX_TOKENS: usize = 100;

/// A byte range `[start, end)` into the tokenized input.
#[derive(Debug, Clone, Copy, PartialEq, Eq, Structural)]
pub struct Span {
    pub start: usize,
    pub end: usize,
}

/// A numeric token, stored as the byte range of its original substring so
/// that reconstruction is lossless.
#[derive(Debug, Clone, Copy, PartialEq, Eq, Structural)]
pub struct Number {
    pub start: usize,
    pub end: usize,
}

impl Number {
    /// Capture the substring `[start, end)` of the input as a number token.
    pub fn new(start: usize, end: usize) -> (r: Number)
        ensures
            r.start == start && r.end == end,
    {
        Number { start, end }
    }

    /// The original substring of the input.
    pub fn as_bytes<'a>(&self, input: &'a [u8]) -> (r: &'a [u8])
        requires
            self.start <= self.end <= input@.len(),
        ensures
            r@ == input@.subrange(self.start as int, self.end as int),
    {
        vstd::slice::slice_subrange(input, self.start, self.end)
    }

    /// The original substring as an owned string.
    pub fn to_string(&self, input: &str) -> (r: String)
        requires
            self.start <= self.end <= input.spec_bytes().len(),
        ensures
            vstd::utf8::valid_utf8(input.spec_bytes().subrange(self.start as int, self.end as int))
                ==> vstd::utf8::encode_utf8(r@) == input.spec_bytes().subrange(
                self.start as int,
                self.end as int,
            ),
    {
        let b = self.as_bytes(input.as_bytes());
        bytes_to_string(b)
    }
}

/// Typed token kinds; each carries a byte range into the input, except
/// whitespace, which carries only the run length.
#[derive(Debug, Clone, Copy, PartialEq, Eq, Structural)]
pub enum Token {
    IPv4(Span),
    Number(Number),
    Uuid(Span),
    Word(Span),
    Punctuation(Span),
    Whitespace(u32),
    CatchAll(Span),
}

/// The class of a token; the numeric ids given by `type_id` start from 1 so
/// that 0 can mean "no token".
#[derive(Debug, PartialEq, Eq, Clone, Copy, Hash, Structural)]
pub enum TokenType {
    Word,
    Number,
    IPv4,
    Uuid,
    Punctuation,
    Whitespace,
    CatchAll,
}

impl TokenType {
    /// The fixed numeric id of this token type, in `1..=7`.
    pub fn type_id(&self) -> (r: u8)
        ensures
            r == spec_type_id(*self),
    {
        match self {
            TokenType::Word => 1,
            TokenType::Number => 2,
            TokenType::IPv4 => 3,
            TokenType::Uuid => 4,
            TokenType::Punctuation => 5,
            TokenType::Whitespace => 6,
            TokenType::CatchAll => 7,
        }
    }

    /// True exactly for the catch-all type.
    pub fn is_catch_all(&self) -> (r: bool)
        ensures
            r == (*self == TokenType::CatchAll),
    {
        matches!(self, TokenType::CatchAll)
    }

    /// True exactly for the whitespace type.
    pub fn is_whitespace(&self) -> (r: bool)
        ensures
            r == (*self == TokenType::Whitespace),
    {
        matches!(self, TokenType::Whitespace)
    }

    /// A short marker used when printing a template's shape; colored for
    /// the classes that stand out.
    pub fn get_color_code(&self) -> &'static str {
        match self {
            TokenType::Word => "W",
            TokenType::Number => "\x1b[33mN\x1b[0m",
            TokenType::IPv4 => "\x1b[34mI\x1b[0m",
            TokenType::Uuid => "\x1b[35mU\x1b[0m",
            TokenType::Punctuation => "P",
            TokenType::Whitespace => "\x1b[36mS\x1b[0m",
            TokenType::CatchAll => "C",
        }
    }
}

/// The numeric id of a token type, in `1..=7`.
pub open spec fn spec_type_id(t: TokenType) -> u8 {
    match t {
        TokenType::Word => 1,
        TokenType::Number => 2,
        TokenType::IPv4 => 3,
        TokenType::Uuid => 4,
        TokenType::Punctuation => 5,
        TokenType::Whitespace => 6,
        TokenType::CatchAll => 7,
    }
}

/// The type of a token.
pub open spec fn spec_token_type(t: Token) -> TokenType {
    match t {
        Token::Word(_) => TokenType::Word,
        Token::Number(_) => TokenType::Number,
        Token::IPv4(_) => TokenType::IPv4,
        Token::Uuid(_) => TokenType::Uuid,
        Token::Punctuation(_) => TokenType::Punctuation,
        Token::Whitespace(_) => TokenType::Whitespace,
        Token::CatchAll(_) => TokenType::CatchAll,
    }
}

impl Token {
    /// The class of this token.
    pub fn token_type(&self) -> (r: TokenType)
        ensures
            r == spec_token_type(*self),
    {
        match self {
            Token::Word(_) => TokenType::Word,
            Token::Number(_) => TokenType::Number,
            Token::IPv4(_) => TokenType::IPv4,
            Token::Uuid(_) => TokenType::Uuid,
            Token::Punctuation(_) => TokenType::Punctuation,
            Token::Whitespace(_) => TokenType::Whitespace,
            Token::CatchAll(_) => TokenType::CatchAll,
        }
    }

    /// Seven token types fit in three bits.
    pub fn type_id_num_bits() -> (r: u8)
        ensures
            r == 3,
    {
        3
    }

    /// True if the two tokens have the same type; whitespace tokens also
    /// have to agree on their length.
    pub fn matches(&self, other: &Token) -> (r: bool)
        ensures
            r == spec_token_matches(*self, *other),
    {
        match (self, other) {
            (Token::Word(_), Token::Word(_)) => true,
            (Token::Number(_), Token::Number(_)) => true,
            (Token::IPv4(_), Token::IPv4(_)) => true,
            (Token::Uuid(_), Token::Uuid(_)) => true,
            (Token::Punctuation(_), Token::Punctuation(_)) => true,
            (Token::CatchAll(_), Token::CatchAll(_)) => true,
            (Token::Whitespace(num1), Token::Whitespace(num2)) => num1 == num2,
            _ => false,
        }
    }

    /// True if the token's byte range lies inside an input of length `len`.
    pub open spec fn span_in_range(self, len: int) -> bool {
        match self {
            Token::Word(s) | Token::IPv4(s) | Token::Uuid(s) | Token::Punctuation(s)
                | Token::CatchAll(s) => s.start <= s.end <= len,
            Token::Number(n) => n.start <= n.end <= len,
            Token::Whitespace(_) => true,
        }
    }

    /// The bytes this token stands for, or `None` for whitespace.
    pub fn as_bytes<'a>(&self, input: &'a [u8]) -> (r: Option<&'a [u8]>)
        requires
            self.span_in_range(input@.len() as int),
        ensures
            match r {
                Some(b) => spec_token_bytes(*self, input@) == Some(b@),
                None => spec_token_bytes(*self, input@) is None,
            },
    {
        match self {
            Token::Word(s) | Token::IPv4(s) | Token::Uuid(s) | Token::Punctuation(s)
                | Token::CatchAll(s) => Some(vstd::slice::slice_subrange(input, s.start, s.end)),
            Token::Number(n) => Some(n.as_bytes(input)),
            Token::Whitespace(_) => None,
        }
    }

    /// The text this token stands for, with a whitespace token rendered as
    /// that many spaces.
    pub fn to_string(&self, input: &str) -> (r: String)
        requires
            self.span_in_range(input.spec_bytes().len() as int),
        ensures
            vstd::utf8::valid_utf8(spec_token_text(*self, input.spec_bytes()))
                ==> vstd::utf8::encode_utf8(r@) == spec_token_text(*self, input.spec_bytes()),
    {
        let b = self.to_bytes(input.as_bytes());
        bytes_to_string(b.as_slice())
    }

    /// The bytes this token stands for, with a whitespace token rendered as
    /// that many spaces.
    pub fn to_bytes(&self, input: &[u8]) -> (r: Vec<u8>)
        requires
            self.span_in_range(input@.len() as int),
        ensures
            r@ == spec_token_text(*self, input@),
    {
        match self {
            Token::Word(s) | Token::IPv4(s) | Token::Uuid(s) | Token::Punctuation(s)
                | Token::CatchAll(s) => vstd::slice::slice_to_vec(
                vstd::slice::slice_subrange(input, s.start, s.end),
            ),
            Token::Number(n) => vstd::slice::slice_to_vec(n.as_bytes(input)),
            Token::Whitespace(num) => {
                let n = *num;
                let mut out: Vec<u8> = Vec::new();
                let mut i: u32 = 0;
                while i < n
                    invariant
                        i <= n,
                        out@ =~= Seq::new(i as nat, |j: int| 0x20u8),
                    decreases n - i,
                {
                    out.push(0x20u8);
                    i = i + 1;
                }
                proof {
                    assert(out@ =~= spec_token_text(Token::Whitespace(n), input@));
                }
                out
            },
        }
    }
}

/// True if two tokens have the same type, and for whitespace the same length.
pub open spec fn spec_token_matches(a: Token, b: Token) -> bool {
    match (a, b) {
        (Token::Whitespace(n1), Token::Whitespace(n2)) => n1 == n2,
        _ => spec_token_type(a) == spec_token_type(b),
    }
}

/// The bytes a token stands for, or `None` for whitespace.
pub open spec fn spec_token_bytes(t: Token, s: Seq<u8>) -> Option<Seq<u8>> {
    match t {
        Token::Word(sp) | Token::IPv4(sp) | Token::Uuid(sp) | Token::Punctuation(sp)
            | Token::CatchAll(sp) => Some(s.subrange(sp.start as int, sp.end as int)),
        Token::Number(n) => Some(s.subrange(n.start as int, n.end as int)),
        Token::Whitespace(_) => None,
    }
}

/// The text a token stands for, with whitespace rendered as spaces.
pub open spec fn spec_token_text(t: Token, s: Seq<u8>) -> Seq<u8> {
    match t {
        Token::Whitespace(n) => Seq::new(n as nat, |j: int| 0x20u8),
        _ => spec_token_bytes(t, s).unwrap(),
    }
}

// ---------------------------------------------------------------------------
// Byte classes
// ---------------------------------------------------------------------------

/// ASCII whitespace: space, tab, newline, form feed, carriage return.
pub open spec fn is_ws_byte(b: u8) -> bool {
    b == 0x20 || b == 0x09 || b == 0x0a || b == 0x0c || b == 0x0d
}

/// ASCII punctuation.
pub open spec fn is_punct_byte(b: u8) -> bool {
    (0x21 <= b <= 0x2f) || (0x3a <= b <= 0x40) || (0x5b <= b <= 0x60) || (0x7b <= b <= 0x7e)
}

/// ASCII decimal digit.
pub open spec fn is_digit_byte(b: u8) -> bool {
    0x30 <= b <= 0x39
}

/// ASCII hexadecimal digit.
pub open spec fn is_hex_byte(b: u8) -> bool {
    is_digit_byte(b) || (0x61 <= b <= 0x66) || (0x41 <= b <= 0x46)
}

/// A byte that ends a word: whitespace, or punctuation other than `.`,
/// `-` and `_`, which stay inside words so that dotted, hyphenated and
/// snake_case identifiers hold together.
pub open spec fn is_word_delim_byte(b: u8) -> bool {
    is_ws_byte(b) || (is_punct_byte(b) && b != 0x2e && b != 0x2d && b != 0x5f)
}

fn is_ws_b(b: u8) -> (r: bool)
    ensures
        r == is_ws_byte(b),
{
    b == 0x20 || b == 0x09 || b == 0x0a || b == 0x0c || b == 0x0d
}

fn is_punct_b(b: u8) -> (r: bool)
    ensures
        r == is_punct_byte(b),
{
    (0x21 <= b && b <= 0x2f) || (0x3a <= b && b <= 0x40) || (0x5b <= b && b <= 0x60) || (0x7b <= b
        && b <= 0x7e)
}

fn is_digit_b(b: u8) -> (r: bool)
    ensures
        r == is_digit_byte(b),
{
    0x30 <= b && b <= 0x39
}

fn is_hex_b(b: u8) -> (r: bool)
    ensures
        r == is_hex_byte(b),
{
    (0x30 <= b && b <= 0x39) || (0x61 <= b && b <= 0x66) || (0x41 <= b && b <= 0x46)
}

fn is_word_delim_b(b: u8) -> (r: bool)
    ensures
        r == is_word_delim_byte(b),
{
    is_ws_b(b) || (is_punct_b(b) && b != 0x2e && b != 0x2d && b != 0x5f)
}

// ---------------------------------------------------------------------------
// Runs
// ---------------------------------------------------------------------------

/// End of the whitespace run starting at `pos`.
pub open spec fn ws_run_end(s: Seq<u8>, pos: int) -> int
    decreases s.len() - pos,
    when 0 <= pos <= s.len()
{
    if pos >= s.len() {
        pos
    } else if is_ws_byte(s[pos]) {
        ws_run_end(s, pos + 1)
    } else {
        pos
    }
}

/// End of the punctuation run starting at `pos`.
pub open spec fn punct_run_end(s: Seq<u8>, pos: int) -> int
    decreases s.len() - pos,
    when 0 <= pos <= s.len()
{
    if pos >= s.len() {
        pos
    } else if is_punct_byte(s[pos]) {
        punct_run_end(s, pos + 1)
    } else {
        pos
    }
}

/// End of the digit run starting at `pos`.
pub open spec fn digit_run_end(s: Seq<u8>, pos: int) -> int
    decreases s.len() - pos,
    when 0 <= pos <= s.len()
{
    if pos >= s.len() {
        pos
    } else if is_digit_byte(s[pos]) {
        digit_run_end(s, pos + 1)
    } else {
        pos
    }
}

/// End of the word starting at `pos`: the first word-delimiter byte.
pub open spec fn word_run_end(s: Seq<u8>, pos: int) -> int
    decreases s.len() - pos,
    when 0 <= pos <= s.len()
{
    if pos >= s.len() {
        pos
    } else if !is_word_delim_byte(s[pos]) {
        word_run_end(s, pos + 1)
    } else {
        pos
    }
}

/// What holds of a whitespace run: in bounds, whitespace inside, none after.
pub proof fn lemma_ws_run_end(s: Seq<u8>, pos: int)
    requires
        0 <= pos <= s.len(),
    ensures
        pos <= ws_run_end(s, pos) <= s.len(),
        forall|i: int| pos <= i < ws_run_end(s, pos) ==> is_ws_byte(#[trigger] s[i]),
        ws_run_end(s, pos) < s.len() ==> !is_ws_byte(s[ws_run_end(s, pos)]),
    decreases s.len() - pos,
{
    if pos < s.len() && is_ws_byte(s[pos]) {
        lemma_ws_run_end(s, pos + 1);
    }
}

/// What holds of a punctuation run.
pub proof fn lemma_punct_run_end(s: Seq<u8>, pos: int)
    requires
        0 <= pos <= s.len(),
    ensures
        pos <= punct_run_end(s, pos) <= s.len(),
        forall|i: int| pos <= i < punct_run_end(s, pos) ==> is_punct_byte(#[trigger] s[i]),
        punct_run_end(s, pos) < s.len() ==> !is_punct_byte(s[punct_run_end(s, pos)]),
    decreases s.len() - pos,
{
    if pos < s.len() && is_punct_byte(s[pos]) {
        lemma_punct_run_end(s, pos + 1);
    }
}

/// What holds of a digit run.
pub proof fn lemma_digit_run_end(s: Seq<u8>, pos: int)
    requires
        0 <= pos <= s.len(),
    ensures
        pos <= digit_run_end(s, pos) <= s.len(),
        forall|i: int| pos <= i < digit_run_end(s, pos) ==> is_digit_byte(#[trigger] s[i]),
        digit_run_end(s, pos) < s.len() ==> !is_digit_byte(s[digit_run_end(s, pos)]),
    decreases s.len() - pos,
{
    if pos < s.len() && is_digit_byte(s[pos]) {
        lemma_digit_run_end(s, pos + 1);
    }
}

/// What holds of a word run.
pub proof fn lemma_word_run_end(s: Seq<u8>, pos: int)
    requires
        0 <= pos <= s.len(),
    ensures
        pos <= word_run_end(s, pos) <= s.len(),
        forall|i: int| pos <= i < word_run_end(s, pos) ==> !is_word_delim_byte(#[trigger] s[i]),
        word_run_end(s, pos) < s.len() ==> is_word_delim_byte(s[word_run_end(s, pos)]),
    decreases s.len() - pos,
{
    if pos < s.len() && !is_word_delim_byte(s[pos]) {
        lemma_word_run_end(s, pos + 1);
    }
}

fn scan_ws_run(input: &[u8], pos: usize) -> (r: usize)
    requires
        pos <= input@.len(),
    ensures
        r == ws_run_end(input@, pos as int),
        pos <= r <= input@.len(),
{
    let mut i: usize = pos;
    while i < input.len() && is_ws_b(input[i])
        invariant
            pos <= i <= input@.len(),
            ws_run_end(input@, pos as int) == ws_run_end(input@, i as int),
        decreases input@.len() - i,
    {
        proof {
            assert(ws_run_end(input@, i as int) == ws_run_end(input@, i + 1));
        }
        i = i + 1;
    }
    i
}

fn scan_punct_run(input: &[u8], pos: usize) -> (r: usize)
    requires
        pos <= input@.len(),
    ensures
        r == punct_run_end(input@, pos as int),
        pos <= r <= input@.len(),
{
    let mut i: usize = pos;
    while i < input.len() && is_punct_b(input[i])
        invariant
            pos <= i <= input@.len(),
            punct_run_end(input@, pos as int) == punct_run_end(input@, i as int),
        decreases input@.len() - i,
    {
        proof {
            assert(punct_run_end(input@, i as int) == punct_run_end(input@, i + 1));
        }
        i = i + 1;
    }
    i
}

fn scan_digit_run(input: &[u8], pos: usize) -> (r: usize)
    requires
        pos <= input@.len(),
    ensures
        r == digit_run_end(input@, pos as int),
        pos <= r <= input@.len(),
{
    let mut i: usize = pos;
    while i < input.len() && is_digit_b(input[i])
        invariant
            pos <= i <= input@.len(),
            digit_run_end(input@, pos as int) == digit_run_end(input@, i as int),
        decreases input@.len() - i,
    {
        proof {
            assert(digit_run_end(input@, i as int) == digit_run_end(input@, i + 1));
        }
        i = i + 1;
    }
    i
}

fn scan_word_run(input: &[u8], pos: usize) -> (r: usize)
    requires
        pos <= input@.len(),
    ensures
        r == word_run_end(input@, pos as int),
        pos <= r <= input@.len(),
{
    let mut i: usize = pos;
    while i < input.len() && !is_word_delim_b(input[i])
        invariant
            pos <= i <= input@.len(),
            word_run_end(input@, pos as int) == word_run_end(input@, i as int),
        decreases input@.len() - i,
    {
        proof {
            assert(word_run_end(input@, i as int) == word_run_end(input@, i + 1));
        }
        i = i + 1;
    }
    i
}

// ---------------------------------------------------------------------------
// Classifiers
// ---------------------------------------------------------------------------

/// The decimal value of the digits `s[pos..end]`.
pub open spec fn digits_value(s: Seq<u8>, pos: int, end: int) -> int
    decreases end - pos,
    when pos <= end
{
    if pos >= end {
        0
    } else {
        digits_value(s, pos, end - 1) * 10 + (s[end - 1] - 0x30)
    }
}

/// Where the IPv4 octet starting at `pos` ends: one to three digits, value
/// at most 255, no leading zero on a multi-digit octet.
pub open spec fn octet_end(s: Seq<u8>, pos: int) -> Option<int> {
    let e = digit_run_end(s, pos);
    if e - pos < 1 || e - pos > 3 {
        None
    } else if e - pos > 1 && s[pos] == 0x30 {
        None
    } else if digits_value(s, pos, e) > 255 {
        None
    } else {
        Some(e)
    }
}

/// Where the IPv4 address starting at `pos` ends: four octets joined by dots.
pub open spec fn ipv4_end(s: Seq<u8>, pos: int) -> Option<int> {
    match octet_end(s, pos) {
        Option::None => Option::None,
        Option::Some(e1) => if e1 < s.len() && s[e1] == 0x2e {
            match octet_end(s, e1 + 1) {
                Option::None => Option::None,
                Option::Some(e2) => if e2 < s.len() && s[e2] == 0x2e {
                    match octet_end(s, e2 + 1) {
                        Option::None => Option::None,
                        Option::Some(e3) => if e3 < s.len() && s[e3] == 0x2e {
                            octet_end(s, e3 + 1)
                        } else {
                            Option::None
                        },
                    }
                } else {
                    Option::None
                },
            }
        } else {
            Option::None
        },
    }
}

/// True if the 36 bytes starting at `pos` form a UUID: 8-4-4-4-12 hex
/// groups joined by `-` at offsets 8, 13, 18 and 23.
pub open spec fn is_uuid_at(s: Seq<u8>, pos: int) -> bool {
    &&& pos + 36 <= s.len()
    &&& s[pos + 8] == 0x2d
    &&& s[pos + 13] == 0x2d
    &&& s[pos + 18] == 0x2d
    &&& s[pos + 23] == 0x2d
    &&& forall|i: int|
        0 <= i < 36 && i != 8 && i != 13 && i != 18 && i != 23 ==> is_hex_byte(
            #[trigger] s[pos + i],
        )
}

fn parse_octet(input: &[u8], pos: usize) -> (r: Option<usize>)
    requires
        pos <= input@.len(),
    ensures
        match r {
            Some(e) => octet_end(input@, pos as int) == Some(e as int) && pos < e <= input@.len(),
            None => octet_end(input@, pos as int) is None,
        },
{
    let e = scan_digit_run(input, pos);
    proof {
        lemma_digit_run_end(input@, pos as int);
    }
    if e - pos < 1 || e - pos > 3 {
        return None;
    }
    if e - pos > 1 && input[pos] == 0x30 {
        return None;
    }
    // At most three digits, so the value fits comfortably in u16.
    let mut val: u16 = 0;
    let mut i: usize = pos;
    while i < e
        invariant
            pos <= i <= e <= input@.len(),
            e - pos <= 3,
            forall|j: int| pos <= j < e ==> is_digit_byte(#[trigger] input@[j]),
            val == digits_value(input@, pos as int, i as int),
            val <= 999,
        decreases e - i,
    {
        proof {
            assert(digits_value(input@, pos as int, i + 1) == digits_value(
                input@,
                pos as int,
                i as int,
            ) * 10 + (input@[i as int] - 0x30));
            lemma_digits_value_bound(input@, pos as int, i as int);
        }
        val = val * 10 + (input[i] - 0x30) as u16;
        i = i + 1;
    }
    if val > 255 {
        return None;
    }
    Some(e)
}

/// The value of at most `n` digits is below `10^n`.
proof fn lemma_digits_value_bound(s: Seq<u8>, pos: int, end: int)
    requires
        pos <= end,
        forall|j: int| pos <= j < end ==> is_digit_byte(#[trigger] s[j]),
    ensures
        end - pos <= 1 ==> digits_value(s, pos, end) <= 9,
        end - pos <= 2 ==> digits_value(s, pos, end) <= 99,
        end - pos <= 3 ==> digits_value(s, pos, end) <= 999,
        digits_value(s, pos, end) >= 0,
    decreases end - pos,
{
    if pos < end {
        lemma_digits_value_bound(s, pos, end - 1);
    }
}

fn parse_ipv4(input: &[u8], pos: usize) -> (r: Option<usize>)
    requires
        pos <= input@.len(),
    ensures
        match r {
            Some(e) => ipv4_end(input@, pos as int) == Some(e as int) && pos < e <= input@.len(),
            None => ipv4_end(input@, pos as int) is None,
        },
{
    let e1 = match parse_octet(input, pos) {
        Some(e) => e,
        None => { return None },
    };
    if e1 >= input.len() || input[e1] != 0x2e {
        return None;
    }
    let e2 = match parse_octet(input, e1 + 1) {
        Some(e) => e,
        None => { return None },
    };
    if e2 >= input.len() || input[e2] != 0x2e {
        return None;
    }
    let e3 = match parse_octet(input, e2 + 1) {
        Some(e) => e,
        None => { return None },
    };
    if e3 >= input.len() || input[e3] != 0x2e {
        return None;
    }
    match parse_octet(input, e3 + 1) {
        Some(e) => Some(e),
        None => None,
    }
}

fn check_uuid(input: &[u8], pos: usize) -> (r: bool)
    requires
        pos <= input@.len(),
    ensures
        r == is_uuid_at(input@, pos as int),
{
    let len = input.len();
    if len - pos < 36 {
        return false;
    }
    if input[pos + 8] != 0x2d || input[pos + 13] != 0x2d || input[pos + 18] != 0x2d || input[pos
        + 23] != 0x2d {
        return false;
    }
    let mut i: usize = 0;
    while i < 36
        invariant
            i <= 36,
            pos + 36 <= len,
            len == input@.len(),
            forall|j: int|
                0 <= j < i && j != 8 && j != 13 && j != 18 && j != 23 ==> is_hex_byte(
                    #[trigger] input@[pos + j],
                ),
        decreases 36 - i,
    {
        if i != 8 && i != 13 && i != 18 && i != 23 {
            if !is_hex_b(input[pos + i]) {
                return false;
            }
        }
        i = i + 1;
    }
    true
}

// ---------------------------------------------------------------------------
// The tokenizer itself
// ---------------------------------------------------------------------------

/// The token that starts at `pos`, which must not be past the end.
pub open spec fn spec_next_token(s: Seq<u8>, pos: int) -> Token {
    if is_ws_byte(s[pos]) {
        Token::Whitespace((ws_run_end(s, pos) - pos) as u32)
    } else if is_punct_byte(s[pos]) {
        Token::Punctuation(Span { start: pos as usize, end: punct_run_end(s, pos) as usize })
    } else if ipv4_end(s, pos) is Some {
        Token::IPv4(Span { start: pos as usize, end: ipv4_end(s, pos).unwrap() as usize })
    } else if is_digit_byte(s[pos]) {
        Token::Number(Number { start: pos as usize, end: digit_run_end(s, pos) as usize })
    } else if is_uuid_at(s, pos) {
        Token::Uuid(Span { start: pos as usize, end: (pos + 36) as usize })
    } else {
        Token::Word(Span { start: pos as usize, end: word_run_end(s, pos) as usize })
    }
}

/// Where the token that starts at `pos` ends.
pub open spec fn spec_token_end(s: Seq<u8>, pos: int) -> int {
    if is_ws_byte(s[pos]) {
        ws_run_end(s, pos)
    } else if is_punct_byte(s[pos]) {
        punct_run_end(s, pos)
    } else if ipv4_end(s, pos) is Some {
        ipv4_end(s, pos).unwrap()
    } else if is_digit_byte(s[pos]) {
        digit_run_end(s, pos)
    } else if is_uuid_at(s, pos) {
        pos + 36
    } else {
        word_run_end(s, pos)
    }
}

/// Every token consumes at least one byte and stays inside the input.
pub proof fn lemma_token_end(s: Seq<u8>, pos: int)
    requires
        0 <= pos < s.len(),
    ensures
        pos < spec_token_end(s, pos) <= s.len(),
{
    lemma_ws_run_end(s, pos);
    lemma_punct_run_end(s, pos);
    lemma_digit_run_end(s, pos);
    lemma_word_run_end(s, pos);
    if pos < s.len() && is_ws_byte(s[pos]) {
        assert(ws_run_end(s, pos) == ws_run_end(s, pos + 1));
        lemma_ws_run_end(s, pos + 1);
    }
    if pos < s.len() && is_punct_byte(s[pos]) {
        assert(punct_run_end(s, pos) == punct_run_end(s, pos + 1));
        lemma_punct_run_end(s, pos + 1);
    }
    if pos < s.len() && is_digit_byte(s[pos]) {
        assert(digit_run_end(s, pos) == digit_run_end(s, pos + 1));
        lemma_digit_run_end(s, pos + 1);
    }
    if pos < s.len() && !is_word_delim_byte(s[pos]) {
        assert(word_run_end(s, pos) == word_run_end(s, pos + 1));
        lemma_word_run_end(s, pos + 1);
    }
    if !is_ws_byte(s[pos]) && !is_punct_byte(s[pos]) && ipv4_end(s, pos) is Some {
        let e1 = octet_end(s, pos).unwrap();
        lemma_digit_run_end(s, e1 + 1);
        let e2 = octet_end(s, e1 + 1).unwrap();
        lemma_digit_run_end(s, e2 + 1);
        let e3 = octet_end(s, e2 + 1).unwrap();
        lemma_digit_run_end(s, e3 + 1);
    }
}

/// The token stream from `pos` on, with `count` tokens already produced.
pub open spec fn spec_tokenize_from(s: Seq<u8>, pos: int, count: int) -> Seq<Token>
    decreases s.len() - pos,
    when 0 <= pos <= s.len()
    via spec_tokenize_from_dec
{
    if pos >= s.len() {
        Seq::empty()
    } else if count >= MAX_TOKENS {
        seq![Token::CatchAll(Span { start: pos as usize, end: s.len() as usize })]
    } else {
        seq![spec_next_token(s, pos)] + spec_tokenize_from(s, spec_token_end(s, pos), count + 1)
    }
}

#[via_fn]
proof fn spec_tokenize_from_dec(s: Seq<u8>, pos: int, count: int) {
    if 0 <= pos < s.len() && count < MAX_TOKENS {
        lemma_token_end(s, pos);
    }
}

/// The full token stream of an input.
pub open spec fn spec_tokenize(s: Seq<u8>) -> Seq<Token> {
    spec_tokenize_from(s, 0, 0)
}

/// Zero-allocation tokenizer over the bytes of one line. Whitespace and
/// punctuation form contiguous runs; the start of any other run is
/// classified as IPv4, number, UUID or word, in that order.
pub struct Tokenizer<'a> {
    /// The input line as bytes.
    pub input: &'a [u8],
    /// Current position in the input.
    pub pos: usize,
    /// Number of tokens produced so far.
    pub token_count: usize,
}

impl<'a> Tokenizer<'a> {
    /// The states from which tokenization can continue.
    pub open spec fn wf(self) -> bool {
        &&& self.pos <= self.input@.len()
        &&& self.input@.len() <= u32::MAX
        &&& self.token_count <= self.pos
    }

    /// Start tokenizing `input` from the beginning.
    pub fn new(input: &'a str) -> (t: Tokenizer<'a>)
        requires
            input.spec_bytes().len() <= u32::MAX,
        ensures
            t.input@ == input.spec_bytes(),
            t.pos == 0,
            t.token_count == 0,
            t.wf(),
    {
        Tokenizer { input: input.as_bytes(), pos: 0, token_count: 0 }
    }

    /// The not yet consumed remainder of the input.
    pub fn get_text(&self) -> (r: &'a [u8])
        requires
            self.wf(),
        ensures
            r@ == self.input@.subrange(self.pos as int, self.input@.len() as int),
    {
        vstd::slice::slice_subrange(self.input, self.pos, self.input.len())
    }

    /// Produce the next token, or `None` at the end of the input.
    pub fn next_token(&mut self) -> (r: Option<Token>)
        requires
            old(self).wf(),
        ensures
            final(self).wf(),
            final(self).input == old(self).input,
            match r {
                Option::None => {
                    &&& old(self).pos == old(self).input@.len()
                    &&& *final(self) == *old(self)
                    &&& spec_tokenize_from(
                        old(self).input@,
                        old(self).pos as int,
                        old(self).token_count as int,
                    ) =~= Seq::<Token>::empty()
                },
                Option::Some(t) => {
                    &&& old(self).pos < final(self).pos
                    &&& spec_tokenize_from(
                        old(self).input@,
                        old(self).pos as int,
                        old(self).token_count as int,
                    ) =~= seq![t] + spec_tokenize_from(
                        old(self).input@,
                        final(self).pos as int,
                        final(self).token_count as int,
                    )
                },
            },
    {
        let input = self.input;
        let pos = self.pos;
        if pos >= input.len() {
            return None;
        }
        if self.token_count >= MAX_TOKENS {
            let start = pos;
            self.pos = input.len();
            self.token_count = self.token_count + 1;
            let t = Token::CatchAll(Span { start, end: self.pos });
            proof {
                assert(spec_tokenize_from(input@, self.pos as int, self.token_count as int)
                    =~= Seq::<Token>::empty());
            }
            return Some(t);
        }
        let b = input[pos];
        let t: Token;
        if is_ws_b(b) {
            let e = scan_ws_run(input, pos);
            t = Token::Whitespace((e - pos) as u32);
            self.pos = e;
        } else if is_punct_b(b) {
            let e = scan_punct_run(input, pos);
            t = Token::Punctuation(Span { start: pos, end: e });
            self.pos = e;
        } else if let Some(e) = parse_ipv4(input, pos) {
            t = Token::IPv4(Span { start: pos, end: e });
            self.pos = e;
        } else if is_digit_b(b) {
            let e = scan_digit_run(input, pos);
            t = Token::Number(Number { start: pos, end: e });
            self.pos = e;
        } else if check_uuid(input, pos) {
            t = Token::Uuid(Span { start: pos, end: pos + 36 });
            self.pos = pos + 36;
        } else {
            let e = scan_word_run(input, pos);
            t = Token::Word(Span { start: pos, end: e });
            self.pos = e;
        }
        self.token_count = self.token_count + 1;
        proof {
            lemma_token_end(input@, pos as int);
            assert(t == spec_next_token(input@, pos as int));
            assert(self.pos as int == spec_token_end(input@, pos as int));
        }
        Some(t)
    }
}

/// Tokenize `input`, appending the tokens to `tokens`.
pub fn tokenize_into(input: &str, tokens: &mut Vec<Token>)
    requires
        input.spec_bytes().len() <= u32::MAX,
    ensures
        final(tokens)@ == old(tokens)@ + spec_tokenize(input.spec_bytes()),
{
    let ghost s = input.spec_bytes();
    let mut tokenizer = Tokenizer::new(input);
    let mut done = false;
    while !done
        invariant
            tokenizer.wf(),
            tokenizer.input@ == s,
            !done ==> tokens@ + spec_tokenize_from(
                s,
                tokenizer.pos as int,
                tokenizer.token_count as int,
            ) =~= old(tokens)@ + spec_tokenize(s),
            done ==> tokens@ =~= old(tokens)@ + spec_tokenize(s),
        decreases s.len() - tokenizer.pos + (if done { 0int } else { 1int }),
    {
        match tokenizer.next_token() {
            Some(t) => {
                tokens.push(t);
            },
            None => {
                done = true;
            },
        }
    }
}

/// Tokenize `input` into a fresh vector of tokens.
pub fn tokenize(input: &str) -> (r: Vec<Token>)
    requires
        input.spec_bytes().len() <= u32::MAX,
    ensures
        r@ == spec_tokenize(input.spec_bytes()),
{
    let mut tokens: Vec<Token> = Vec::new();
    tokenize_into(input, &mut tokens);
    tokens
}

// ---------------------------------------------------------------------------
// Reconstruction
// ---------------------------------------------------------------------------

/// The concatenation of the texts of a sequence of tokens.
pub open spec fn spec_concat_texts(toks: Seq<Token>, s: Seq<u8>) -> Seq<u8>
    decreases toks.len(),
{
    if toks.len() == 0 {
        Seq::empty()
    } else {
        spec_token_text(toks[0], s) + spec_concat_texts(toks.drop_first(), s)
    }
}

/// True if every span of every token lies inside an input of length `len`.
pub open spec fn spec_tokens_in_range(toks: Seq<Token>, len: int) -> bool {
    forall|i: int| 0 <= i < toks.len() ==> #[trigger] toks[i].span_in_range(len)
}

/// All tokens produced by the tokenizer lie inside the input.
pub proof fn lemma_tokenize_in_range(s: Seq<u8>, pos: int, count: int)
    requires
        0 <= pos <= s.len(),
        s.len() <= u32::MAX,
    ensures
        spec_tokens_in_range(spec_tokenize_from(s, pos, count), s.len() as int),
    decreases s.len() - pos,
{
    let toks = spec_tokenize_from(s, pos, count);
    if pos >= s.len() {
    } else if count >= MAX_TOKENS {
        assert(toks[0].span_in_range(s.len() as int));
    } else {
        lemma_token_end(s, pos);
        lemma_ws_run_end(s, pos);
        lemma_punct_run_end(s, pos);
        lemma_digit_run_end(s, pos);
        lemma_word_run_end(s, pos);
        let e = spec_token_end(s, pos);
        lemma_tokenize_in_range(s, e, count + 1);
        let rest = spec_tokenize_from(s, e, count + 1);
        assert(toks =~= seq![spec_next_token(s, pos)] + rest);
        assert(toks[0] == spec_next_token(s, pos));
        assert(toks[0].span_in_range(s.len() as int));
        assert forall|i: int| 0 <= i < toks.len() implies #[trigger] toks[i].span_in_range(
            s.len() as int,
        ) by {
            if i > 0 {
                assert(toks[i] == rest[i - 1]);
                assert(rest[i - 1].span_in_range(s.len() as int));
            }
        }
    }
}

/// Concatenate the texts of `tokens` over `input`, as bytes.
pub fn reconstruct_bytes(input: &[u8], tokens: &Vec<Token>) -> (r: Vec<u8>)
    requires
        spec_tokens_in_range(tokens@, input@.len() as int),
    ensures
        r@ == spec_concat_texts(tokens@, input@),
{
    let mut out: Vec<u8> = Vec::new();
    let n = tokens.len();
    let mut i: usize = 0;
    proof {
        assert(tokens@.skip(0) =~= tokens@);
    }
    while i < n
        invariant
            i <= n,
            n == tokens@.len(),
            spec_tokens_in_range(tokens@, input@.len() as int),
            out@ + spec_concat_texts(tokens@.skip(i as int), input@) =~= spec_concat_texts(
                tokens@,
                input@,
            ),
        decreases n - i,
    {
        proof {
            assert(tokens@.skip(i as int)[0] == tokens@[i as int]);
            assert(tokens@.skip(i as int).drop_first() =~= tokens@.skip(i + 1));
        }
        let t = tokens[i];
        let mut piece = t.to_bytes(input);
        out.append(&mut piece);
        i = i + 1;
    }
    proof {
        assert(tokens@.skip(n as int) =~= Seq::<Token>::empty());
        assert(out@ =~= spec_concat_texts(tokens@, input@));
    }
    out
}

/// Concatenate the texts of `tokens` over `input` into a string.
pub fn reconstruct_from_tokens(input: &str, tokens: &Vec<Token>) -> (r: String)
    requires
        spec_tokens_in_range(tokens@, input.spec_bytes().len() as int),
    ensures
        vstd::utf8::valid_utf8(spec_concat_texts(tokens@, input.spec_bytes()))
            ==> vstd::utf8::encode_utf8(r@) == spec_concat_texts(tokens@, input.spec_bytes()),
{
    let bytes = reconstruct_bytes(input.as_bytes(), tokens);
    bytes_to_string(bytes.as_slice())
}

/// The text of each token over `input`, as one string per token.
pub fn tokens_as_string(input: &str, tokens: &Vec<Token>) -> (r: Vec<String>)
    requires
        spec_tokens_in_range(tokens@, input.spec_bytes().len() as int),
    ensures
        r@.len() == tokens@.len(),
{
    let mut out: Vec<String> = Vec::new();
    let n = tokens.len();
    let mut i: usize = 0;
    while i < n
        invariant
            i <= n,
            n == tokens@.len(),
            out@.len() == i,
            spec_tokens_in_range(tokens@, input.spec_bytes().len() as int),
        decreases n - i,
    {
        let t = &tokens[i];
        out.push(t.to_string(input));
        i = i + 1;
    }
    out
}

// ---------------------------------------------------------------------------
// Round trip
// ---------------------------------------------------------------------------

/// Tokenizer round trip: concatenating the text of every token reproduces
/// the input exactly, provided every whitespace byte of the input is a plain
/// space (a whitespace token remembers only the length of its run, and is
/// rendered back as spaces).
pub proof fn lemma_tokenize_round_trip(s: Seq<u8>)
    requires
        forall|i: int| 0 <= i < s.len() && is_ws_byte(#[trigger] s[i]) ==> s[i] == 0x20,
        s.len() <= u32::MAX,
    ensures
        spec_concat_texts(spec_tokenize(s), s) == s,
{
    lemma_tokenize_round_trip_from(s, 0, 0);
    assert(spec_concat_texts(spec_tokenize(s), s) =~= s.subrange(0, s.len() as int));
    assert(s.subrange(0, s.len() as int) =~= s);
}

proof fn lemma_tokenize_round_trip_from(s: Seq<u8>, pos: int, count: int)
    requires
        forall|i: int| 0 <= i < s.len() && is_ws_byte(#[trigger] s[i]) ==> s[i] == 0x20,
        s.len() <= u32::MAX,
        0 <= pos <= s.len(),
    ensures
        spec_concat_texts(spec_tokenize_from(s, pos, count), s) =~= s.subrange(
            pos,
            s.len() as int,
        ),
    decreases s.len() - pos,
{
    let toks = spec_tokenize_from(s, pos, count);
    if pos >= s.len() {
        assert(toks =~= Seq::<Token>::empty());
        assert(s.subrange(pos, s.len() as int) =~= Seq::<u8>::empty());
    } else if count >= MAX_TOKENS {
        let t = Token::CatchAll(Span { start: pos as usize, end: s.len() as usize });
        assert(toks =~= seq![t]);
        assert(toks.drop_first() =~= Seq::<Token>::empty());
        assert(spec_concat_texts(Seq::<Token>::empty(), s) =~= Seq::<u8>::empty());
        assert(toks[0] == t);
        assert(spec_concat_texts(toks, s) =~= spec_token_text(t, s));
        assert(spec_token_text(t, s) =~= s.subrange(pos, s.len() as int));
    } else {
        lemma_token_end(s, pos);
        let e = spec_token_end(s, pos);
        lemma_tokenize_round_trip_from(s, e, count + 1);
        let t = spec_next_token(s, pos);
        let rest = spec_tokenize_from(s, e, count + 1);
        assert(toks =~= seq![t] + rest);
        assert(toks[0] == t);
        assert(toks.drop_first() =~= rest);
        if is_ws_byte(s[pos]) {
            lemma_ws_run_end(s, pos);
            assert(spec_token_text(t, s) =~= s.subrange(pos, e)) by {
                assert(forall|i: int| pos <= i < e ==> is_ws_byte(#[trigger] s[i]));
                assert(forall|i: int| pos <= i < e ==> #[trigger] s[i] == 0x20);
            }
        } else {
            assert(spec_token_text(t, s) =~= s.subrange(pos, e));
        }
        assert(spec_concat_texts(toks, s) =~= s.subrange(pos, e) + s.subrange(e, s.len() as int));
        assert(s.subrange(pos, e) + s.subrange(e, s.len() as int) =~= s.subrange(
            pos,
            s.len() as int,
        ));
    }
}

/// A line of `n` bytes yields at most `n` tokens.
pub proof fn lemma_tokenize_count(s: Seq<u8>, pos: int, count: int)
    requires
        0 <= pos <= s.len(),
    ensures
        spec_tokenize_from(s, pos, count).len() <= s.len() - pos,
    decreases s.len() - pos,
{
    if pos >= s.len() {
    } else if count >= MAX_TOKENS {
    } else {
        lemma_token_end(s, pos);
        lemma_tokenize_count(s, spec_token_end(s, pos), count + 1);
    }
}

/// A line yields at most `MAX_TOKENS` real tokens plus one catch-all.
pub proof fn lemma_tokenize_max(s: Seq<u8>, pos: int, count: int)
    requires
        0 <= pos <= s.len(),
        0 <= count,
    ensures
        count <= MAX_TOKENS ==> spec_tokenize_from(s, pos, count).len() <= MAX_TOKENS + 1 - count,
        count > MAX_TOKENS ==> spec_tokenize_from(s, pos, count).len() <= 1,
    decreases s.len() - pos,
{
    if pos >= s.len() {
    } else if count >= MAX_TOKENS {
    } else {
        lemma_token_end(s, pos);
        lemma_tokenize_max(s, spec_token_end(s, pos), count + 1);
    }
}

} // verus!
