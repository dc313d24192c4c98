use crate::source_stream::{position_after, Position, SourceStream};
use vstd::prelude::*;
use vstd::string::StringSliceAdditionalSpecFns;

verus! {

/// What a token is. Tokens that carry text (a number literal, a name, the
/// contents of a string) keep it in `Token::text`.
#[derive(Debug, Clone, Copy, PartialEq, Eq, Structural)]
pub enum TokenKind {
    Number,
    Boolean(bool),
    Identifier,
    StringLiteral,
    Nil,
    OpenParen,
    CloseParen,
    Equal,
    EqualEqual,
    Bang,
    BangEqual,
    Greater,
    GreaterEqual,
    Less,
    LessEqual,
    And,
    Or,
    Plus,
    Minus,
    Star,
    Slash,
    Percent,
    Colon,
    Comma,
    Semicolon,
    If,
    Else,
    While,
    Fn,
    Ret,
    Nonlocal,
    /// A string whose closing quote never came; its text runs to the end.
    UnterminatedString,
}

/// A token with its text and the position of its first byte.
#[derive(Debug, Clone)]
pub struct Token {
    pub kind: TokenKind,
    pub text: Vec<u8>,
    pub position: Position,
}

/// The mathematical value of a token.
pub struct TokenView {
    pub kind: TokenKind,
    pub text: Seq<u8>,
    pub position: Position,
}

impl View for Token {
    type V = TokenView;

    open spec fn view(&self) -> TokenView {
        TokenView { kind: self.kind, text: self.text@, position: self.position }
    }
}

/// The byte classes that the lexer consumes in runs.
pub enum ByteClass {
    Digit,
    Word,
    NotQuote,
}

pub open spec fn is_digit(b: u8) -> bool {
    48 <= b <= 57
}

pub open spec fn is_word_start(b: u8) -> bool {
    (65 <= b <= 90) || (97 <= b <= 122) || b == 95
}

pub open spec fn is_word_byte(b: u8) -> bool {
    is_word_start(b) || is_digit(b)
}

pub open spec fn is_space(b: u8) -> bool {
    b == 32 || b == 9 || b == 10 || b == 12 || b == 13
}

pub open spec fn in_class(c: ByteClass, b: u8) -> bool {
    match c {
        ByteClass::Digit => is_digit(b),
        ByteClass::Word => is_word_byte(b),
        ByteClass::NotQuote => b != 34,
    }
}

/// The single-byte punctuation and operators.
pub open spec fn single_kind(b: u8) -> Option<TokenKind> {
    if b == 43 {
        Some(TokenKind::Plus)
    } else if b == 45 {
        Some(TokenKind::Minus)
    } else if b == 42 {
        Some(TokenKind::Star)
    } else if b == 47 {
        Some(TokenKind::Slash)
    } else if b == 37 {
        Some(TokenKind::Percent)
    } else if b == 40 {
        Some(TokenKind::OpenParen)
    } else if b == 41 {
        Some(TokenKind::CloseParen)
    } else if b == 58 {
        Some(TokenKind::Colon)
    } else if b == 44 {
        Some(TokenKind::Comma)
    } else if b == 59 {
        Some(TokenKind::Semicolon)
    } else {
        None
    }
}

/// `=`, `!`, `>` and `<`, which may be followed by `=`.
pub open spec fn is_comparison_start(b: u8) -> bool {
    b == 61 || b == 33 || b == 62 || b == 60
}

/// The operator that `b` makes alone, or followed by `=` when `doubled`.
pub open spec fn comparison_kind(b: u8, doubled: bool) -> TokenKind {
    if b == 61 {
        if doubled {
            TokenKind::EqualEqual
        } else {
            TokenKind::Equal
        }
    } else if b == 33 {
        if doubled {
            TokenKind::BangEqual
        } else {
            TokenKind::Bang
        }
    } else if b == 62 {
        if doubled {
            TokenKind::GreaterEqual
        } else {
            TokenKind::Greater
        }
    } else if doubled {
        TokenKind::LessEqual
    } else {
        TokenKind::Less
    }
}

/// Whether a token can begin with `b`; other bytes that are not spaces are
/// reported and skipped.
pub open spec fn starts_token(b: u8) -> bool {
    is_word_start(b) || is_digit(b) || b == 34 || is_comparison_start(b) || single_kind(b).is_some()
}

/// The reserved word spelled by `w`, if any.
pub open spec fn keyword(w: Seq<u8>) -> Option<TokenKind> {
    if w == seq![116u8, 114, 117, 101] {
        Some(TokenKind::Boolean(true))
    } else if w == seq![102u8, 97, 108, 115, 101] {
        Some(TokenKind::Boolean(false))
    } else if w == seq![110u8, 105, 108] {
        Some(TokenKind::Nil)
    } else if w == seq![97u8, 110, 100] {
        Some(TokenKind::And)
    } else if w == seq![111u8, 114] {
        Some(TokenKind::Or)
    } else if w == seq![105u8, 102] {
        Some(TokenKind::If)
    } else if w == seq![101u8, 108, 115, 101] {
        Some(TokenKind::Else)
    } else if w == seq![119u8, 104, 105, 108, 101] {
        Some(TokenKind::While)
    } else if w == seq![102u8, 110] {
        Some(TokenKind::Fn)
    } else if w == seq![114u8, 101, 116] {
        Some(TokenKind::Ret)
    } else if w == seq![110u8, 111, 110, 108, 111, 99, 97, 108] {
        Some(TokenKind::Nonlocal)
    } else {
        None
    }
}

/// Where the run of bytes of class `c` that starts at `i` ends.
pub open spec fn run_end(s: Seq<u8>, i: int, c: ByteClass) -> int
    decreases s.len() - i,
{
    if 0 <= i < s.len() && in_class(c, s[i]) {
        run_end(s, i + 1, c)
    } else {
        i
    }
}

/// Where the next token starts, at or after `i`, once spaces and bytes that
/// start no token are passed over.
pub open spec fn token_start(s: Seq<u8>, i: int) -> int
    decreases s.len() - i,
{
    if 0 <= i < s.len() && !starts_token(s[i]) {
        token_start(s, i + 1)
    } else if 0 <= i < s.len() && is_space(s[i]) {
        token_start(s, i + 1)
    } else {
        i
    }
}

/// The end of the number literal at `j`: its digits, and a `.` with the digits
/// after it only when a digit follows the `.`.
pub open spec fn number_end(s: Seq<u8>, j: int) -> int {
    let d = run_end(s, j, ByteClass::Digit);
    if d + 1 < s.len() && s[d] == 46 && is_digit(s[d + 1]) {
        run_end(s, d + 1, ByteClass::Digit)
    } else {
        d
    }
}

/// The token that starts at `j` (whose byte starts a token): its kind, its
/// text and where it ends. Every token is as long as it can be.
pub open spec fn scan(s: Seq<u8>, j: int) -> (TokenKind, Seq<u8>, int) {
    let b = s[j];
    if is_word_start(b) {
        let e = run_end(s, j, ByteClass::Word);
        let w = s.subrange(j, e);
        match keyword(w) {
            Some(k) => (k, Seq::empty(), e),
            None => (TokenKind::Identifier, w, e),
        }
    } else if is_digit(b) {
        let e = number_end(s, j);
        (TokenKind::Number, s.subrange(j, e), e)
    } else if b == 34 {
        let c = run_end(s, j + 1, ByteClass::NotQuote);
        if c < s.len() {
            (TokenKind::StringLiteral, s.subrange(j + 1, c), c + 1)
        } else {
            (TokenKind::UnterminatedString, s.subrange(j + 1, c), c)
        }
    } else if is_comparison_start(b) {
        if j + 1 < s.len() && s[j + 1] == 61 {
            (comparison_kind(b, true), Seq::empty(), j + 2)
        } else {
            (comparison_kind(b, false), Seq::empty(), j + 1)
        }
    } else {
        (single_kind(b).unwrap(), Seq::empty(), j + 1)
    }
}

/// The position of byte `j`.
pub open spec fn position_at(s: Seq<u8>, j: int) -> Position {
    Position {
        line: position_after(s.take(j)).0 as usize,
        character: position_after(s.take(j)).1 as usize,
    }
}

/// The next token at or after byte `i`, with the index just past it; `None`
/// when only spaces and skipped bytes are left.
pub open spec fn scan_next(s: Seq<u8>, i: int) -> Option<(TokenView, int)> {
    let j = token_start(s, i);
    if j < s.len() {
        let (k, t, e) = scan(s, j);
        Some((TokenView { kind: k, text: t, position: position_at(s, j) }, e))
    } else {
        None
    }
}

/// The positions of the bytes from `i` up to the next token (or the end)
/// that are neither spaces nor the start of a token: the bytes the lexer
/// reports and skips.
pub open spec fn skipped_between(s: Seq<u8>, i: int) -> Seq<Position>
    decreases s.len() - i,
{
    if 0 <= i < s.len() && (!starts_token(s[i]) || is_space(s[i])) {
        if is_space(s[i]) {
            skipped_between(s, i + 1)
        } else {
            seq![position_at(s, i)] + skipped_between(s, i + 1)
        }
    } else {
        Seq::empty()
    }
}

/// The positions of all the bytes from `i` to the end that the lexer reports
/// and skips.
pub open spec fn skipped_all(s: Seq<u8>, i: int) -> Seq<Position>
    decreases s.len() - i,
{
    match scan_next(s, i) {
        Some((t, e)) => if i < e <= s.len() {
            skipped_between(s, i) + skipped_all(s, e)
        } else {
            skipped_between(s, i)
        },
        None => skipped_between(s, i),
    }
}

/// All the tokens of `s` from byte `i` on.
pub open spec fn tokens_from(s: Seq<u8>, i: int) -> Seq<TokenView>
    decreases s.len() - i,
{
    match scan_next(s, i) {
        Some((t, e)) => if i < e <= s.len() {
            seq![t] + tokens_from(s, e)
        } else {
            seq![t]
        },
        None => Seq::empty(),
    }
}

/// The tokens of a whole text.
pub open spec fn tokens_of(s: Seq<u8>) -> Seq<TokenView> {
    tokens_from(s, 0)
}

proof fn lemma_run_end(s: Seq<u8>, i: int, e: int, c: ByteClass)
    requires
        0 <= i <= e <= s.len(),
        forall|k: int| i <= k < e ==> in_class(c, #[trigger] s[k]),
        e < s.len() ==> !in_class(c, s[e]),
    ensures
        run_end(s, i, c) == e,
    decreases e - i,
{
    if i < e {
        lemma_run_end(s, i + 1, e, c);
    }
}

proof fn lemma_token_start_bounds(s: Seq<u8>, i: int)
    requires
        0 <= i <= s.len(),
    ensures
        i <= token_start(s, i) <= s.len(),
        token_start(s, i) < s.len() ==> starts_token(s[token_start(s, i)]) && !is_space(
            s[token_start(s, i)],
        ),
    decreases s.len() - i,
{
    if i < s.len() && (!starts_token(s[i]) || is_space(s[i])) {
        lemma_token_start_bounds(s, i + 1);
    }
}

proof fn lemma_scan_bounds(s: Seq<u8>, j: int)
    requires
        0 <= j < s.len(),
        starts_token(s[j]),
    ensures
        j < scan(s, j).2 <= s.len(),
{
    lemma_run_end_bounds(s, j, ByteClass::Word);
    lemma_run_end_bounds(s, j, ByteClass::Digit);
    lemma_run_end_bounds(s, j + 1, ByteClass::NotQuote);
    let d = run_end(s, j, ByteClass::Digit);
    if 0 <= d + 1 <= s.len() {
        lemma_run_end_bounds(s, d + 1, ByteClass::Digit);
    }
}

proof fn lemma_run_end_bounds(s: Seq<u8>, i: int, c: ByteClass)
    requires
        0 <= i <= s.len(),
    ensures
        i <= run_end(s, i, c) <= s.len(),
        0 <= i < s.len() && in_class(c, s[i]) ==> i < run_end(s, i, c),
    decreases s.len() - i,
{
    if i < s.len() && in_class(c, s[i]) {
        lemma_run_end_bounds(s, i + 1, c);
    }
}

/// A copy of `v`.
pub(crate) fn copy_bytes(v: &Vec<u8>) -> (r: Vec<u8>)
    ensures
        r@ == v@,
{
    let mut out: Vec<u8> = Vec::new();
    let mut i: usize = 0;
    while i < v.len()
        invariant
            i <= v@.len(),
            out@ == v@.take(i as int),
        decreases v@.len() - i,
    {
        out.push(v[i]);
        i = i + 1;
        assert(out@ =~= v@.take(i as int));
    }
    assert(out@ =~= v@);
    out
}

impl Token {
    /// A copy of this token.
    pub fn duplicate(&self) -> (r: Token)
        ensures
            r@ == self@,
    {
        Token { kind: self.kind, text: copy_bytes(&self.text), position: self.position }
    }
}

fn keyword_of(w: &Vec<u8>) -> (r: Option<TokenKind>)
    ensures
        r == keyword(w@),
{
    let n = w.len();
    if n == 4 && w[0] == 116 && w[1] == 114 && w[2] == 117 && w[3] == 101 {
        assert(w@ =~= seq![116u8, 114, 117, 101]);
        Some(TokenKind::Boolean(true))
    } else if n == 5 && w[0] == 102 && w[1] == 97 && w[2] == 108 && w[3] == 115 && w[4] == 101 {
        assert(w@ =~= seq![102u8, 97, 108, 115, 101]);
        Some(TokenKind::Boolean(false))
    } else if n == 3 && w[0] == 110 && w[1] == 105 && w[2] == 108 {
        assert(w@ =~= seq![110u8, 105, 108]);
        Some(TokenKind::Nil)
    } else if n == 3 && w[0] == 97 && w[1] == 110 && w[2] == 100 {
        assert(w@ =~= seq![97u8, 110, 100]);
        Some(TokenKind::And)
    } else if n == 2 && w[0] == 111 && w[1] == 114 {
        assert(w@ =~= seq![111u8, 114]);
        Some(TokenKind::Or)
    } else if n == 2 && w[0] == 105 && w[1] == 102 {
        assert(w@ =~= seq![105u8, 102]);
        Some(TokenKind::If)
    } else if n == 4 && w[0] == 101 && w[1] == 108 && w[2] == 115 && w[3] == 101 {
        assert(w@ =~= seq![101u8, 108, 115, 101]);
        Some(TokenKind::Else)
    } else if n == 5 && w[0] == 119 && w[1] == 104 && w[2] == 105 && w[3] == 108 && w[4] == 101 {
        assert(w@ =~= seq![119u8, 104, 105, 108, 101]);
        Some(TokenKind::While)
    } else if n == 2 && w[0] == 102 && w[1] == 110 {
        assert(w@ =~= seq![102u8, 110]);
        Some(TokenKind::Fn)
    } else if n == 3 && w[0] == 114 && w[1] == 101 && w[2] == 116 {
        assert(w@ =~= seq![114u8, 101, 116]);
        Some(TokenKind::Ret)
    } else if n == 8 && w[0] == 110 && w[1] == 111 && w[2] == 110 && w[3] == 108 && w[4] == 111
        && w[5] == 99 && w[6] == 97 && w[7] == 108 {
        assert(w@ =~= seq![110u8, 111, 110, 108, 111, 99, 97, 108]);
        Some(TokenKind::Nonlocal)
    } else {
        None
    }
}


fn is_digit_byte(b: u8) -> (r: bool)
    ensures
        r == is_digit(b),
{
    48 <= b && b <= 57
}

fn is_word_start_byte(b: u8) -> (r: bool)
    ensures
        r == is_word_start(b),
{
    (65 <= b && b <= 90) || (97 <= b && b <= 122) || b == 95
}

fn is_space_byte(b: u8) -> (r: bool)
    ensures
        r == is_space(b),
{
    b == 32 || b == 9 || b == 10 || b == 12 || b == 13
}

fn word_byte(c: &u8) -> (r: bool)
    ensures
        r == is_word_byte(*c),
{
    is_word_start_byte(*c) || is_digit_byte(*c)
}

fn digit_byte(c: &u8) -> (r: bool)
    ensures
        r == is_digit(*c),
{
    is_digit_byte(*c)
}

fn not_quote_byte(c: &u8) -> (r: bool)
    ensures
        r == (*c != 34),
{
    *c != 34
}

fn single_kind_of(b: u8) -> (r: Option<TokenKind>)
    ensures
        r == single_kind(b),
{
    if b == 43 {
        Some(TokenKind::Plus)
    } else if b == 45 {
        Some(TokenKind::Minus)
    } else if b == 42 {
        Some(TokenKind::Star)
    } else if b == 47 {
        Some(TokenKind::Slash)
    } else if b == 37 {
        Some(TokenKind::Percent)
    } else if b == 40 {
        Some(TokenKind::OpenParen)
    } else if b == 41 {
        Some(TokenKind::CloseParen)
    } else if b == 58 {
        Some(TokenKind::Colon)
    } else if b == 44 {
        Some(TokenKind::Comma)
    } else if b == 59 {
        Some(TokenKind::Semicolon)
    } else {
        None
    }
}

proof fn lemma_tokens_from_step(s: Seq<u8>, i: int)
    requires
        0 <= i <= s.len(),
    ensures
        scan_next(s, i) is None ==> tokens_from(s, i) == Seq::<TokenView>::empty(),
        scan_next(s, i) matches Some((t, e)) ==> i < e <= s.len() && tokens_from(s, i) == seq![t]
            + tokens_from(s, e),
{
    lemma_token_start_bounds(s, i);
    let j = token_start(s, i);
    if j < s.len() {
        lemma_scan_bounds(s, j);
    }
}

/// A text has no more tokens than bytes.
pub proof fn lemma_tokens_count(s: Seq<u8>, i: int)
    requires
        0 <= i <= s.len(),
    ensures
        tokens_from(s, i).len() <= s.len() - i,
    decreases s.len() - i,
{
    lemma_tokens_from_step(s, i);
    if let Some((t, e)) = scan_next(s, i) {
        lemma_tokens_count(s, e);
    }
}

/// Turns a text into tokens, one at a time, with one token of lookahead.
pub struct Lexer {
    source: SourceStream,
    peek_cache: Option<Token>,
    warnings: Vec<Position>,
}

impl Lexer {
    /// The text being read.
    pub closed spec fn text(&self) -> Seq<u8> {
        self.source.text()
    }

    /// How many bytes of the text have been read.
    pub closed spec fn offset(&self) -> nat {
        self.source.index()
    }

    /// The token read ahead by `peek` and not yet handed out.
    pub closed spec fn cached(&self) -> Option<TokenView> {
        match self.peek_cache {
            Some(t) => Some(t@),
            None => None,
        }
    }

    /// The positions of the bytes that were skipped because no token starts
    /// with them.
    pub closed spec fn warnings(&self) -> Seq<Position> {
        self.warnings@
    }

    pub closed spec fn wf(&self) -> bool {
        &&& self.source.wf()
    }

    /// The tokens still to come.
    pub open spec fn upcoming(&self) -> Seq<TokenView> {
        match self.cached() {
            Some(t) => seq![t] + tokens_from(self.text(), self.offset() as int),
            None => tokens_from(self.text(), self.offset() as int),
        }
    }

    /// A lexer at the start of `source`, which is expected to be ASCII.
    pub fn new(source: &str) -> (r: Self)
        requires
            source.spec_bytes().len() < usize::MAX,
        ensures
            r.wf(),
            r.text() == source.spec_bytes(),
            r.upcoming() == tokens_of(source.spec_bytes()),
            r.warnings().len() == 0,
    {
        Lexer { source: SourceStream::new(source), peek_cache: None, warnings: Vec::new() }
    }

    fn handle_identifier(&mut self, position: Position) -> (r: Token)
        requires
            old(self).wf(),
            old(self).source.index() < old(self).text().len(),
            is_word_start(old(self).text()[old(self).source.index() as int]),
        ensures
            final(self).wf(),
            final(self).text() == old(self).text(),
            final(self).peek_cache == old(self).peek_cache,
            final(self).warnings == old(self).warnings,
            ({
                let (k, t, e) = scan(old(self).text(), old(self).source.index() as int);
                r.kind == k && r.text@ == t && r.position == position && final(self).offset() == e
            }),
    {
        let ghost s = self.text();
        let ghost j = self.source.index() as int;
        let word = self.source.take_while(word_byte);
        proof {
            self.source.lemma_wf();
            lemma_run_end(s, j, self.source.index() as int, ByteClass::Word);
        }
        match keyword_of(&word) {
            Some(k) => Token { kind: k, text: Vec::new(), position },
            None => Token { kind: TokenKind::Identifier, text: word, position },
        }
    }

    fn handle_number(&mut self, position: Position) -> (r: Token)
        requires
            old(self).wf(),
            old(self).source.index() < old(self).text().len(),
            is_digit(old(self).text()[old(self).source.index() as int]),
        ensures
            final(self).wf(),
            final(self).text() == old(self).text(),
            final(self).peek_cache == old(self).peek_cache,
            final(self).warnings == old(self).warnings,
            ({
                let (k, t, e) = scan(old(self).text(), old(self).source.index() as int);
                r.kind == k && r.text@ == t && r.position == position && final(self).offset() == e
            }),
    {
        let ghost s = self.text();
        let ghost j = self.source.index() as int;
        let mut digits = self.source.take_while(digit_byte);
        proof {
            self.source.lemma_wf();
            lemma_run_end(s, j, self.source.index() as int, ByteClass::Digit);
        }
        let ghost d = self.source.index() as int;
        let dot = self.source.peek();
        let after = self.source.peek_second();
        let fraction_follows = match (dot, after) {
            (Some(a), Some(b)) => a == 46 && is_digit_byte(b),
            _ => false,
        };
        if fraction_follows {
            self.source.next();
            let mut fraction = self.source.take_while(digit_byte);
            proof {
                self.source.lemma_wf();
                lemma_run_end(s, d + 1, self.source.index() as int, ByteClass::Digit);
            }
            digits.push(46);
            digits.append(&mut fraction);
            assert(digits@ =~= s.subrange(j, self.source.index() as int));
        }
        Token { kind: TokenKind::Number, text: digits, position }
    }

    fn handle_string(&mut self, position: Position) -> (r: Token)
        requires
            old(self).wf(),
            old(self).source.index() < old(self).text().len(),
            old(self).text()[old(self).source.index() as int] == 34,
        ensures
            final(self).wf(),
            final(self).text() == old(self).text(),
            final(self).peek_cache == old(self).peek_cache,
            final(self).warnings == old(self).warnings,
            ({
                let (k, t, e) = scan(old(self).text(), old(self).source.index() as int);
                r.kind == k && r.text@ == t && r.position == position && final(self).offset() == e
            }),
    {
        let ghost s = self.text();
        let ghost j = self.source.index() as int;
        self.source.next();
        let contents = self.source.take_while(not_quote_byte);
        proof {
            self.source.lemma_wf();
            lemma_run_end(s, j + 1, self.source.index() as int, ByteClass::NotQuote);
        }
        if self.source.expect(34) {
            Token { kind: TokenKind::StringLiteral, text: contents, position }
        } else {
            Token { kind: TokenKind::UnterminatedString, text: contents, position }
        }
    }

    fn handle_size_2_operator(&mut self, position: Position) -> (r: Token)
        requires
            old(self).wf(),
            old(self).source.index() < old(self).text().len(),
            is_comparison_start(old(self).text()[old(self).source.index() as int]),
        ensures
            final(self).wf(),
            final(self).text() == old(self).text(),
            final(self).peek_cache == old(self).peek_cache,
            final(self).warnings == old(self).warnings,
            ({
                let (k, t, e) = scan(old(self).text(), old(self).source.index() as int);
                r.kind == k && r.text@ == t && r.position == position && final(self).offset() == e
            }),
    {
        let first = self.source.next();
        let c: u8 = match first {
            Some(b) => b,
            None => 0,
        };
        let doubled = self.source.expect(61);
        let kind = if c == 61 {
            if doubled {
                TokenKind::EqualEqual
            } else {
                TokenKind::Equal
            }
        } else if c == 33 {
            if doubled {
                TokenKind::BangEqual
            } else {
                TokenKind::Bang
            }
        } else if c == 62 {
            if doubled {
                TokenKind::GreaterEqual
            } else {
                TokenKind::Greater
            }
        } else if doubled {
            TokenKind::LessEqual
        } else {
            TokenKind::Less
        };
        Token { kind, text: Vec::new(), position }
    }

    /// Reads the next token from the text, skipping spaces and reporting each
    /// byte that starts no token.
    fn read_token(&mut self) -> (r: Option<Token>)
        requires
            old(self).wf(),
        ensures
            final(self).wf(),
            final(self).text() == old(self).text(),
            final(self).peek_cache == old(self).peek_cache,
            final(self).warnings() == old(self).warnings() + skipped_between(
                old(self).text(),
                old(self).offset() as int,
            ),
            match scan_next(old(self).text(), old(self).offset() as int) {
                None => r is None && final(self).offset() == old(self).text().len(),
                Some((t, e)) => r matches Some(tok) && tok@ == t && final(self).offset() == e,
            },
    {
        let ghost s = self.text();
        proof {
            self.source.lemma_wf();
        }
        loop
            invariant
                self.wf(),
                self.text() == s,
                s == old(self).text(),
                self.peek_cache == old(self).peek_cache,
                old(self).offset() <= self.offset() <= s.len(),
                token_start(s, self.offset() as int) == token_start(s, old(self).offset() as int),
                old(self).warnings() + skipped_between(s, old(self).offset() as int) == self.warnings()
                    + skipped_between(s, self.offset() as int),
            decreases s.len() - self.offset(),
        {
            proof {
                self.source.lemma_wf();
            }
            let position = self.source.current_position();
            match self.source.peek() {
                None => {
                    return None;
                },
                Some(c) => {
                    if is_word_start_byte(c) {
                        return Some(self.handle_identifier(position));
                    } else if is_digit_byte(c) {
                        return Some(self.handle_number(position));
                    } else if c == 34 {
                        return Some(self.handle_string(position));
                    } else if c == 61 || c == 33 || c == 62 || c == 60 {
                        return Some(self.handle_size_2_operator(position));
                    } else {
                        match single_kind_of(c) {
                            Some(k) => {
                                self.source.next();
                                return Some(Token { kind: k, text: Vec::new(), position });
                            },
                            None => {
                                let ghost before = self.warnings();
                                let ghost off = self.offset() as int;
                                if !is_space_byte(c) {
                                    self.warnings.push(position);
                                }
                                self.source.next();
                                proof {
                                    if is_space(c) {
                                        assert(skipped_between(s, off) == skipped_between(s, off + 1));
                                    } else {
                                        assert(skipped_between(s, off) == seq![position_at(s, off)]
                                            + skipped_between(s, off + 1));
                                        assert(before + skipped_between(s, off) =~= self.warnings()
                                            + skipped_between(s, off + 1));
                                    }
                                }
                            },
                        }
                    }
                },
            }
        }
    }
    /// Hands out the next token, or `None` when none is left.
    pub fn next(&mut self) -> (r: Option<Token>)
        requires
            old(self).wf(),
        ensures
            final(self).wf(),
            final(self).text() == old(self).text(),
            final(self).cached() is None,
            old(self).cached() is Some ==> final(self).offset() == old(self).offset()
                && final(self).warnings() == old(self).warnings(),
            old(self).cached() is None ==> final(self).warnings() == old(self).warnings()
                + skipped_between(old(self).text(), old(self).offset() as int) && match scan_next(
                old(self).text(),
                old(self).offset() as int,
            ) {
                Some((t, e)) => final(self).offset() == e,
                None => final(self).offset() == old(self).text().len(),
            },
            old(self).upcoming().len() == 0 ==> r is None && final(self).upcoming().len() == 0,
            old(self).upcoming().len() > 0 ==> (r matches Some(t) && t@ == old(self).upcoming()[0]
                && final(self).upcoming() == old(self).upcoming().drop_first()),
    {
        proof {
            self.source.lemma_wf();
            lemma_tokens_from_step(self.text(), self.offset() as int);
        }
        if self.peek_cache.is_some() {
            let r = self.peek_cache.take();
            assert(old(self).upcoming().drop_first() =~= self.upcoming());
            r
        } else {
            let r = self.read_token();
            proof {
                self.source.lemma_wf();
                lemma_tokens_from_step(self.text(), self.offset() as int);
                if r is Some {
                    assert(old(self).upcoming().drop_first() =~= self.upcoming());
                }
            }
            r
        }
    }

    /// The next token, left in place.
    pub fn peek(&mut self) -> (r: Option<Token>)
        requires
            old(self).wf(),
        ensures
            final(self).wf(),
            final(self).text() == old(self).text(),
            final(self).upcoming() == old(self).upcoming(),
            old(self).upcoming().len() == 0 ==> r is None,
            old(self).upcoming().len() > 0 ==> (r matches Some(t) && t@ == old(self).upcoming()[0]),
    {
        if self.peek_cache.is_none() {
            proof {
                self.source.lemma_wf();
                lemma_tokens_from_step(self.text(), self.offset() as int);
            }
            self.peek_cache = self.read_token();
            proof {
                self.source.lemma_wf();
                lemma_tokens_from_step(self.text(), self.offset() as int);
                if self.peek_cache is None {
                    assert(self.upcoming() =~= old(self).upcoming());
                }
            }
        }
        match &self.peek_cache {
            Some(t) => Some(t.duplicate()),
            None => None,
        }
    }

    /// Hands out the next token only if it is of kind `expected`.
    pub fn expect(&mut self, expected: &TokenKind) -> (r: Option<Token>)
        requires
            old(self).wf(),
        ensures
            final(self).wf(),
            final(self).text() == old(self).text(),
            ({
                let u = old(self).upcoming();
                if u.len() > 0 && u[0].kind == *expected {
                    r matches Some(t) && t@ == u[0] && final(self).upcoming() == u.drop_first()
                } else {
                    r is None && final(self).upcoming() == u
                }
            }),
    {
        match self.peek() {
            Some(t) => {
                if t.kind == *expected {
                    self.next()
                } else {
                    None
                }
            },
            None => None,
        }
    }

    /// Hands out the next token only if its kind is one of `expected`.
    pub fn expect_any(&mut self, expected: &[TokenKind]) -> (r: Option<Token>)
        requires
            old(self).wf(),
        ensures
            final(self).wf(),
            final(self).text() == old(self).text(),
            ({
                let u = old(self).upcoming();
                if u.len() > 0 && expected@.contains(u[0].kind) {
                    r matches Some(t) && t@ == u[0] && final(self).upcoming() == u.drop_first()
                } else {
                    r is None && final(self).upcoming() == u
                }
            }),
    {
        match self.peek() {
            Some(t) => {
                let mut i: usize = 0;
                let mut found = false;
                while i < expected.len()
                    invariant
                        i <= expected@.len(),
                        found == exists|k: int| 0 <= k < i && expected@[k] == t.kind,
                    decreases expected@.len() - i,
                {
                    if expected[i] == t.kind {
                        found = true;
                    }
                    i = i + 1;
                }
                if found {
                    self.next()
                } else {
                    None
                }
            },
            None => None,
        }
    }

    /// Hands out the name of the next token only if it is an identifier.
    pub fn expect_identifier(&mut self) -> (r: Option<Vec<u8>>)
        requires
            old(self).wf(),
        ensures
            final(self).wf(),
            final(self).text() == old(self).text(),
            ({
                let u = old(self).upcoming();
                if u.len() > 0 && u[0].kind == TokenKind::Identifier {
                    r matches Some(name) && name@ == u[0].text && final(self).upcoming()
                        == u.drop_first()
                } else {
                    r is None && final(self).upcoming() == u
                }
            }),
    {
        match self.expect(&TokenKind::Identifier) {
            Some(t) => Some(t.text),
            None => None,
        }
    }

    /// Hands out all the tokens that are left.
    pub fn tokenize(&mut self) -> (r: Vec<Token>)
        requires
            old(self).wf(),
        ensures
            final(self).wf(),
            final(self).upcoming().len() == 0,
            r@.len() == old(self).upcoming().len(),
            final(self).warnings() == old(self).warnings() + skipped_all(
                old(self).text(),
                old(self).offset() as int,
            ),
            forall|i: int| 0 <= i < r@.len() ==> #[trigger] r@[i]@ == old(self).upcoming()[i],
    {
        let mut out: Vec<Token> = Vec::new();
        loop
            invariant
                self.wf(),
                out@.len() + self.upcoming().len() == old(self).upcoming().len(),
                forall|i: int| 0 <= i < out@.len() ==> #[trigger] out@[i]@ == old(self).upcoming()[i],
                forall|i: int|
                    0 <= i < self.upcoming().len() ==> #[trigger] self.upcoming()[i]
                        == old(self).upcoming()[out@.len() + i],
                self.text() == old(self).text(),
                old(self).warnings() + skipped_all(self.text(), old(self).offset() as int)
                    == self.warnings() + skipped_all(self.text(), self.offset() as int),
            ensures
                self.text() == old(self).text(),
                old(self).warnings() + skipped_all(self.text(), old(self).offset() as int)
                    == self.warnings() + skipped_all(self.text(), self.offset() as int),
                skipped_all(self.text(), self.offset() as int).len() == 0,
                self.wf(),
                self.upcoming().len() == 0,
                out@.len() == old(self).upcoming().len(),
                forall|i: int| 0 <= i < out@.len() ==> #[trigger] out@[i]@ == old(self).upcoming()[i],
            decreases self.upcoming().len(),
        {
            let ghost before = self.upcoming();
            let ghost w0 = self.warnings();
            let ghost off0 = self.offset() as int;
            let ghost cached0 = self.cached();
            proof {
                self.source.lemma_wf();
                lemma_tokens_from_step(self.text(), off0);
            }
            match self.next() {
                Some(t) => {
                    proof {
                        assert(before[0] == old(self).upcoming()[out@.len() as int]);
                    }
                    proof {
                        let tx = self.text();
                        if cached0 is None {
                            assert(skipped_all(tx, off0) == skipped_between(tx, off0) + skipped_all(
                                tx,
                                self.offset() as int,
                            ));
                            assert(w0 + skipped_all(tx, off0) =~= self.warnings() + skipped_all(
                                tx,
                                self.offset() as int,
                            ));
                        }
                    }
                    out.push(t);
                    assert forall|i: int| 0 <= i < self.upcoming().len() implies #[trigger] self.upcoming()[i]
                        == old(self).upcoming()[out@.len() + i] by {
                        assert(self.upcoming()[i] == before[i + 1]);
                    }
                },
                None => {
                    proof {
                        let t = self.text();
                        assert(cached0 is None);
                        assert(skipped_all(t, off0) == skipped_between(t, off0));
                        assert(w0 + skipped_all(t, off0) =~= self.warnings());
                        assert(skipped_all(t, self.offset() as int) =~= Seq::<Position>::empty());
                        assert(self.warnings() + skipped_all(t, self.offset() as int) =~= self.warnings());
                    }
                    break;
                },
            }
        }
        proof {
            assert(self.warnings() + skipped_all(self.text(), self.offset() as int) =~= self.warnings());
        }
        out
    }

    /// The positions of the bytes skipped so far because no token starts
    /// with them.
    pub fn skipped(&self) -> (r: &Vec<Position>)
        ensures
            r@ == self.warnings(),
    {
        &self.warnings
    }
}

} // verus!
