use vstd::prelude::*;
use vstd::string::StringSliceAdditionalSpecFns;

verus! {

/// The kinds of token the scanner produces.
#[derive(Clone, Copy, Debug, PartialEq, Eq, Structural)]
pub enum TokenKind {
    // Single-character tokens.
    LeftParen,
    RightParen,
    LeftBrace,
    RightBrace,
    Comma,
    Dot,
    Minus,
    Plus,
    Semicolon,
    Slash,
    Star,
    // One or two character tokens.
    Bang,
    BangEqual,
    Equal,
    EqualEqual,
    Greater,
    GreaterEqual,
    Less,
    LessEqual,
    // Literals.
    Identifier,
    String,
    Number,
    // Keywords.
    And,
    Class,
    Else,
    False,
    For,
    Fun,
    If,
    Nil,
    Or,
    Print,
    Return,
    Super,
    This,
    True,
    Var,
    While,
    // Sentinels.
    Error,
    Eof,
}

/// The message of the error token for a string that never closes.
pub open spec fn unterminated_message() -> Seq<char> {
    "Unterminated string"@
}

/// The message of the error token for a byte that starts no token.
pub open spec fn unexpected_message() -> Seq<char> {
    "Unexpected character."@
}

pub open spec fn is_digit(b: u8) -> bool {
    48 <= b <= 57
}

/// A letter or an underscore: a byte that can start an identifier.
pub open spec fn is_alpha(b: u8) -> bool {
    (65 <= b <= 90) || (97 <= b <= 122) || b == 95
}

/// The byte at `i`, or NUL past either end.
pub open spec fn byte_at(s: Seq<u8>, i: int) -> u8 {
    if 0 <= i < s.len() {
        s[i]
    } else {
        0
    }
}

/// Where the scan resumes, and on which line, after the spaces, tabs, carriage
/// returns, newlines and `//` comments that start at `p`. `comment` says that
/// `p` lies inside a comment.
pub open spec fn skip_ws(s: Seq<u8>, p: int, line: int, comment: bool) -> (int, int)
    decreases s.len() - p, (if comment { 1int } else { 0int }),
{
    if p < 0 || p >= s.len() {
        (p, line)
    } else if comment {
        if s[p] == 10 {
            skip_ws(s, p, line, false)
        } else {
            skip_ws(s, p + 1, line, true)
        }
    } else if s[p] == 32 || s[p] == 13 || s[p] == 9 {
        skip_ws(s, p + 1, line, false)
    } else if s[p] == 10 {
        skip_ws(s, p + 1, line + 1, false)
    } else if s[p] == 47 && byte_at(s, p + 1) == 47 {
        skip_ws(s, p + 2, line, true)
    } else {
        (p, line)
    }
}

/// The end of the run of digits that starts at `p`.
pub open spec fn digits_end(s: Seq<u8>, p: int) -> int
    decreases s.len() - p,
{
    if 0 <= p < s.len() && is_digit(s[p]) {
        digits_end(s, p + 1)
    } else {
        p
    }
}

/// The end of a number whose first digit lies just before `p`: more digits,
/// then a fraction only where a digit follows the dot.
pub open spec fn number_end(s: Seq<u8>, p: int) -> int {
    let q = digits_end(s, p);
    if byte_at(s, q) == 46 && is_digit(byte_at(s, q + 1)) {
        digits_end(s, q + 1)
    } else {
        q
    }
}

/// The end of the letters, digits and underscores that start at `p`.
pub open spec fn ident_end(s: Seq<u8>, p: int) -> int
    decreases s.len() - p,
{
    if 0 <= p < s.len() && (is_alpha(s[p]) || is_digit(s[p])) {
        ident_end(s, p + 1)
    } else {
        p
    }
}

/// Where the body of a string that starts at `p` ends (its closing quote, or
/// the end of the source), and the line there.
pub open spec fn string_end(s: Seq<u8>, p: int, line: int) -> (int, int)
    decreases s.len() - p,
{
    if 0 <= p < s.len() && s[p] != 34 {
        string_end(s, p + 1, if s[p] == 10 { line + 1 } else { line })
    } else {
        (p, line)
    }
}

/// The kind of an identifier-shaped lexeme: a keyword, or `Identifier`.
pub open spec fn keyword_kind(w: Seq<u8>) -> TokenKind {
    if w =~= seq![97u8, 110, 100] {
        TokenKind::And
    } else if w =~= seq![99u8, 108, 97, 115, 115] {
        TokenKind::Class
    } else if w =~= seq![101u8, 108, 115, 101] {
        TokenKind::Else
    } else if w =~= seq![102u8, 97, 108, 115, 101] {
        TokenKind::False
    } else if w =~= seq![102u8, 111, 114] {
        TokenKind::For
    } else if w =~= seq![102u8, 117, 110] {
        TokenKind::Fun
    } else if w =~= seq![105u8, 102] {
        TokenKind::If
    } else if w =~= seq![110u8, 105, 108] {
        TokenKind::Nil
    } else if w =~= seq![111u8, 114] {
        TokenKind::Or
    } else if w =~= seq![112u8, 114, 105, 110, 116] {
        TokenKind::Print
    } else if w =~= seq![114u8, 101, 116, 117, 114, 110] {
        TokenKind::Return
    } else if w =~= seq![115u8, 117, 112, 101, 114] {
        TokenKind::Super
    } else if w =~= seq![116u8, 104, 105, 115] {
        TokenKind::This
    } else if w =~= seq![116u8, 114, 117, 101] {
        TokenKind::True
    } else if w =~= seq![118u8, 97, 114] {
        TokenKind::Var
    } else if w =~= seq![119u8, 104, 105, 108, 101] {
        TokenKind::While
    } else {
        TokenKind::Identifier
    }
}

/// One token as the model describes it: its kind, where it starts and ends,
/// its line, and for an error its message.
pub struct Scanned {
    pub kind: TokenKind,
    pub start: int,
    pub end: int,
    pub line: int,
    pub message: Seq<char>,
}

pub open spec fn scanned(kind: TokenKind, start: int, end: int, line: int) -> Scanned {
    Scanned { kind, start, end, line, message: Seq::empty() }
}

/// The kind of a one- or two-byte operator that starts with `c` and is
/// followed by `next`, with its length; `None` when `c` starts none.
pub open spec fn operator_kind(c: u8, next: u8) -> Option<(TokenKind, int)> {
    if c == 40 {
        Some((TokenKind::LeftParen, 1))
    } else if c == 41 {
        Some((TokenKind::RightParen, 1))
    } else if c == 123 {
        Some((TokenKind::LeftBrace, 1))
    } else if c == 125 {
        Some((TokenKind::RightBrace, 1))
    } else if c == 59 {
        Some((TokenKind::Semicolon, 1))
    } else if c == 44 {
        Some((TokenKind::Comma, 1))
    } else if c == 46 {
        Some((TokenKind::Dot, 1))
    } else if c == 45 {
        Some((TokenKind::Minus, 1))
    } else if c == 43 {
        Some((TokenKind::Plus, 1))
    } else if c == 47 {
        Some((TokenKind::Slash, 1))
    } else if c == 42 {
        Some((TokenKind::Star, 1))
    } else if c == 33 {
        if next == 61 { Some((TokenKind::BangEqual, 2)) } else { Some((TokenKind::Bang, 1)) }
    } else if c == 61 {
        if next == 61 { Some((TokenKind::EqualEqual, 2)) } else { Some((TokenKind::Equal, 1)) }
    } else if c == 60 {
        if next == 61 { Some((TokenKind::LessEqual, 2)) } else { Some((TokenKind::Less, 1)) }
    } else if c == 62 {
        if next == 61 {
            Some((TokenKind::GreaterEqual, 2))
        } else {
            Some((TokenKind::Greater, 1))
        }
    } else {
        None
    }
}

/// The token that starts at `p`, a position inside the source.
pub open spec fn lex(s: Seq<u8>, p: int, line: int) -> Scanned {
    let c = s[p];
    if is_digit(c) {
        scanned(TokenKind::Number, p, number_end(s, p + 1), line)
    } else if is_alpha(c) {
        let e = ident_end(s, p + 1);
        scanned(keyword_kind(s.subrange(p, e)), p, e, line)
    } else if c == 34 {
        let (q, l) = string_end(s, p + 1, line);
        if q < s.len() {
            scanned(TokenKind::String, p, q + 1, l)
        } else {
            Scanned { kind: TokenKind::Error, start: p, end: q, line: l, message: unterminated_message() }
        }
    } else if let Some((k, n)) = operator_kind(c, byte_at(s, p + 1)) {
        scanned(k, p, p + n, line)
    } else {
        Scanned { kind: TokenKind::Error, start: p, end: p + 1, line, message: unexpected_message() }
    }
}

/// The next token of `s` for a scanner at `current` on `line`.
pub open spec fn scan_step(s: Seq<u8>, current: int, line: int) -> Scanned {
    let (p, l) = skip_ws(s, current, line, false);
    if p >= s.len() {
        scanned(TokenKind::Eof, p, p, l)
    } else {
        lex(s, p, l)
    }
}


/// The kinds of the tokens that a scanner at `c` on `line` yields, up to and
/// including the first `Eof`.
pub open spec fn scan_kinds(s: Seq<u8>, c: int, line: int) -> Seq<TokenKind>
    decreases s.len() - c,
    via scan_kinds_decreases
{
    let t = scan_step(s, c, line);
    if c < 0 || c > s.len() || t.kind == TokenKind::Eof {
        seq![TokenKind::Eof]
    } else {
        seq![t.kind] + scan_kinds(s, t.end, t.line)
    }
}

#[via_fn]
proof fn scan_kinds_decreases(s: Seq<u8>, c: int, line: int) {
    if 0 <= c <= s.len() {
        lemma_scan_step_progress(s, c, line);
    }
}

/// Skipping never moves backwards nor past the end.
pub proof fn lemma_skip_ws_bounds(s: Seq<u8>, p: int, line: int, comment: bool)
    requires
        0 <= p <= s.len(),
    ensures
        p <= skip_ws(s, p, line, comment).0 <= s.len(),
    decreases s.len() - p, (if comment { 1int } else { 0int }),
{
    if p < s.len() {
        if comment {
            if s[p] == 10 {
                lemma_skip_ws_bounds(s, p, line, false);
            } else {
                lemma_skip_ws_bounds(s, p + 1, line, true);
            }
        } else if s[p] == 32 || s[p] == 13 || s[p] == 9 {
            lemma_skip_ws_bounds(s, p + 1, line, false);
        } else if s[p] == 10 {
            lemma_skip_ws_bounds(s, p + 1, line + 1, false);
        } else if s[p] == 47 && byte_at(s, p + 1) == 47 {
            lemma_skip_ws_bounds(s, p + 2, line, true);
        }
    }
}

/// A run of digits lies within the source.
pub proof fn lemma_digits_end_bounds(s: Seq<u8>, p: int)
    requires
        0 <= p <= s.len(),
    ensures
        p <= digits_end(s, p) <= s.len(),
    decreases s.len() - p,
{
    if p < s.len() && is_digit(s[p]) {
        lemma_digits_end_bounds(s, p + 1);
    }
}

/// A run of identifier bytes lies within the source.
pub proof fn lemma_ident_end_bounds(s: Seq<u8>, p: int)
    requires
        0 <= p <= s.len(),
    ensures
        p <= ident_end(s, p) <= s.len(),
    decreases s.len() - p,
{
    if p < s.len() && (is_alpha(s[p]) || is_digit(s[p])) {
        lemma_ident_end_bounds(s, p + 1);
    }
}

/// A string body lies within the source.
pub proof fn lemma_string_end_bounds(s: Seq<u8>, p: int, line: int)
    requires
        0 <= p <= s.len(),
    ensures
        p <= string_end(s, p, line).0 <= s.len(),
    decreases s.len() - p,
{
    if p < s.len() && s[p] != 34 {
        lemma_string_end_bounds(s, p + 1, if s[p] == 10 { line + 1 } else { line });
    }
}

/// Each token that is not `Eof` consumes at least one byte, and no scan runs
/// past the end of the source.
pub proof fn lemma_scan_step_progress(s: Seq<u8>, c: int, line: int)
    requires
        0 <= c <= s.len(),
    ensures
        c <= scan_step(s, c, line).start <= scan_step(s, c, line).end <= s.len(),
        scan_step(s, c, line).kind != TokenKind::Eof ==> c < scan_step(s, c, line).end,
        scan_step(s, c, line).kind != TokenKind::Eof ==> scan_step(s, c, line).start < scan_step(
            s,
            c,
            line,
        ).end,
        scan_step(s, c, line).kind == TokenKind::Eof <==> skip_ws(s, c, line, false).0
            >= s.len(),
        scan_step(s, c, line).kind == TokenKind::Eof ==> scan_step(s, c, line).end == s.len(),
{
    lemma_skip_ws_bounds(s, c, line, false);
    let (p, l) = skip_ws(s, c, line, false);
    if p < s.len() {
        lemma_digits_end_bounds(s, p + 1);
        lemma_ident_end_bounds(s, p + 1);
        lemma_string_end_bounds(s, p + 1, l);
        let q = digits_end(s, p + 1);
        if byte_at(s, q) == 46 && is_digit(byte_at(s, q + 1)) {
            lemma_digits_end_bounds(s, q + 1);
        }
    }
}

/// Scanning any source terminates: the tokens it yields form a finite
/// sequence whose last token is `Eof` and in which no other token is `Eof`.
pub proof fn lemma_scan_ends_in_one_eof(s: Seq<u8>, c: int, line: int)
    requires
        0 <= c <= s.len(),
    ensures
        scan_kinds(s, c, line).len() >= 1,
        scan_kinds(s, c, line).last() == TokenKind::Eof,
        forall|i: int|
            0 <= i < scan_kinds(s, c, line).len() - 1 ==> scan_kinds(s, c, line)[i]
                != TokenKind::Eof,
    decreases s.len() - c,
{
    let t = scan_step(s, c, line);
    lemma_scan_step_progress(s, c, line);
    if t.kind != TokenKind::Eof {
        lemma_scan_ends_in_one_eof(s, t.end, t.line);
        let rest = scan_kinds(s, t.end, t.line);
        assert(scan_kinds(s, c, line) == seq![t.kind] + rest);
        assert forall|i: int| 0 <= i < scan_kinds(s, c, line).len() - 1 implies scan_kinds(
            s,
            c,
            line,
        )[i] != TokenKind::Eof by {
            if i > 0 {
                assert(scan_kinds(s, c, line)[i] == rest[i - 1]);
            }
        }
    }
}

/// A classified lexeme: its kind, its byte span in the source, its line, and
/// the source it was read from. An error token spans nothing and carries its
/// message instead.
#[derive(Clone, Copy)]
pub struct Token<'a> {
    pub kind: TokenKind,
    pub start: usize,
    pub length: usize,
    pub line: usize,
    pub source: &'a [u8],
    pub message: &'static str,
}

impl<'a> Token<'a> {
    /// The token agrees with the model's token `t`.
    pub open spec fn is_scanned(self, t: Scanned) -> bool {
        &&& self.kind == t.kind
        &&& self.start == t.start
        &&& self.line == t.line
        &&& if t.kind == TokenKind::Error {
            self.length == 0 && self.message@ == t.message
        } else {
            self.length == t.end - t.start && self.message@.len() == 0
        }
    }

    /// The bytes of the source that the token spans.
    pub fn lexeme(&self) -> (r: &'a [u8])
        requires
            self.start + self.length <= self.source@.len(),
        ensures
            r@ == self.source@.subrange(self.start as int, self.start + self.length),
    {
        let n = self.source.len();
        proof {
            assert(self.start + self.length <= n);
        }
        &self.source[self.start..self.start + self.length]
    }

    /// A token of the given kind and span, with no message.
    pub fn new(kind: TokenKind, start: usize, length: usize, line: usize, source: &'a [u8]) -> (r:
        Self)
        ensures
            r.kind == kind,
            r.start == start,
            r.length == length,
            r.line == line,
            r.source == source,
            r.message@.len() == 0,
    {
        proof {
            reveal_strlit("");
        }
        Token { kind, start, length, line, source, message: "" }
    }

    /// An end-of-source token that spans nothing: the parser's state before
    /// its first token.
    pub fn dummy() -> (r: Self)
        ensures
            r.kind == TokenKind::Eof,
            r.start == 0,
            r.length == 0,
            r.line == 0,
            r.source@.len() == 0,
            r.message@.len() == 0,
    {
        let empty: &[u8] = &[];
        Token::new(TokenKind::Eof, 0, 0, 0, empty)
    }
}

/// Reads the tokens of a source on demand.
pub struct Scanner<'a> {
    pub current: usize,
    pub line: usize,
    pub source: &'a [u8],
    pub start: usize,
}

impl<'a> Scanner<'a> {
    /// The bytes being scanned.
    pub open spec fn text(self) -> Seq<u8> {
        self.source@
    }

    /// The source the tokens refer to.
    pub open spec fn source_ref(self) -> &'a [u8] {
        self.source
    }

    /// Where the next token's scan begins.
    pub open spec fn position(self) -> int {
        self.current as int
    }

    /// The line at the scan position.
    pub open spec fn line_number(self) -> int {
        self.line as int
    }

    /// The cursor lies in the source, and the line can still count every
    /// newline that remains.
    pub open spec fn wf(self) -> bool {
        &&& self.start <= self.current <= self.source@.len()
        &&& self.source@.len() < usize::MAX
        &&& self.line + (self.source@.len() - self.current) <= usize::MAX
    }

    /// A scanner at the start of `source`, on line 1.
    pub fn new(source: &'a str) -> (r: Self)
        requires
            source.spec_bytes().len() < usize::MAX,
        ensures
            r.wf(),
            r.text() == source.spec_bytes(),
            r.position() == 0,
            r.line_number() == 1,
    {
        Scanner { current: 0, line: 1, source: source.as_bytes(), start: 0 }
    }

    /// Consumes the spaces, tabs, carriage returns, newlines and `//` comments
    /// at the cursor, counting the newlines.
    pub fn skip_whitespace(&mut self)
        requires
            old(self).wf(),
        ensures
            final(self).wf(),
            final(self).text() == old(self).text(),
            final(self).source_ref() == old(self).source_ref(),
            (final(self).position(), final(self).line_number()) == skip_ws(
                old(self).text(),
                old(self).position(),
                old(self).line_number(),
                false,
            ),
            final(self).start == old(self).start,
    {
        let ghost s = self.source@;
        let ghost target = skip_ws(s, self.current as int, self.line as int, false);
        loop
            invariant
                self.wf(),
                self.source@ == s,
                self.source == old(self).source,
                self.start == old(self).start,
                skip_ws(s, self.current as int, self.line as int, false) == target,
                s == old(self).source@,
                target == skip_ws(s, old(self).current as int, old(self).line as int, false),
            decreases s.len() - self.current,
        {
            let c = self.peek();
            if c == 32 || c == 13 || c == 9 {
                self.advance();
            } else if c == 10 {
                self.advance();
                self.line = self.line + 1;
            } else if c == 47 && self.peek_offset(1) == 47 {
                let ghost before = self.current;
                self.advance();
                self.advance();
                while self.peek() != 10 && !self.is_at_end()
                    invariant
                        self.wf(),
                        self.current > before,
                        self.source@ == s,
                        self.source == old(self).source,
                        self.start == old(self).start,
                        skip_ws(s, self.current as int, self.line as int, true) == target,
                    decreases s.len() - self.current,
                {
                    self.advance();
                }
            } else {
                assert(skip_ws(s, self.current as int, self.line as int, false) == (
                self.current as int,
                self.line as int,
                ));
                return;
            }
        }
    }

    /// The byte at the cursor and `idx` bytes after it, or NUL past the end.
    pub fn peek_offset(&self, idx: usize) -> (r: u8)
        requires
            self.wf(),
        ensures
            r == byte_at(self.text(), self.position() + idx),
    {
        if idx < self.source.len() - self.current {
            self.source[self.current + idx]
        } else {
            0
        }
    }

    /// The byte at the cursor, or NUL at the end.
    pub fn peek(&self) -> (r: u8)
        requires
            self.wf(),
        ensures
            r == byte_at(self.text(), self.position()),
    {
        self.peek_offset(0)
    }

    /// Consumes the byte at the cursor and returns it.
    pub fn advance(&mut self) -> (r: u8)
        requires
            old(self).wf(),
            old(self).position() < old(self).text().len(),
        ensures
            final(self).wf(),
            r == old(self).text()[old(self).position()],
            final(self).current == old(self).current + 1,
            final(self).line == old(self).line,
            final(self).start == old(self).start,
            final(self).source == old(self).source,
    {
        let c = self.source[self.current];
        self.current = self.current + 1;
        c
    }

    /// Consumes the byte at the cursor when it is `expected`.
    pub fn match_char(&mut self, expected: u8) -> (r: bool)
        requires
            old(self).wf(),
        ensures
            final(self).wf(),
            r == (old(self).position() < old(self).text().len() && old(self).text()[old(
                self,
            ).position()] == expected),
            final(self).current == old(self).current + (if r { 1int } else { 0int }),
            final(self).line == old(self).line,
            final(self).start == old(self).start,
            final(self).source == old(self).source,
    {
        if self.is_at_end() || self.peek() != expected {
            false
        } else {
            self.current = self.current + 1;
            true
        }
    }

    /// Whether the cursor has reached the end of the source.
    pub fn is_at_end(&self) -> (r: bool)
        requires
            self.wf(),
        ensures
            r == (self.position() >= self.text().len()),
    {
        self.current >= self.source.len()
    }

    /// A token of the given kind over the bytes from the token's start to the cursor.
    pub fn make_token(&self, kind: TokenKind) -> (r: Token<'a>)
        requires
            self.wf(),
        ensures
            r.kind == kind,
            r.start == self.start,
            r.length == self.current - self.start,
            r.line == self.line,
            r.source == self.source,
            r.message@.len() == 0,
    {
        Token::new(kind, self.start, self.current - self.start, self.line, self.source)
    }

    /// An error token at the token's start that carries `message`.
    pub fn error_token(&self, message: &'static str) -> (r: Token<'a>)
        ensures
            r.kind == TokenKind::Error,
            r.start == self.start,
            r.length == 0,
            r.line == self.line,
            r.source == self.source,
            r.message == message,
    {
        Token {
            kind: TokenKind::Error,
            start: self.start,
            length: 0,
            line: self.line,
            source: self.source,
            message,
        }
    }

    /// Scans the next token: skips whitespace and comments, then reads one
    /// token, or returns `Eof` at the end of the source.
    pub fn scan_token(&mut self) -> (r: Token<'a>)
        requires
            old(self).wf(),
        ensures
            final(self).wf(),
            final(self).source == old(self).source,
            r.source == old(self).source,
            ({
                let t = scan_step(old(self).text(), old(self).current as int, old(self).line as int);
                &&& r.is_scanned(t)
                &&& final(self).current == t.end
                &&& final(self).line == t.line
                &&& final(self).start == t.start
            }),
    {
        self.skip_whitespace();
        self.start = self.current;
        if self.is_at_end() {
            return self.make_token(TokenKind::Eof);
        }
        let c = self.advance();
        if is_ascii_digit(c) {
            return self.number();
        } else if is_ascii_alphanumeric(c) || c == '_' as u8 {
            return self.identifer();
        }
        let kind = if c == '(' as u8 {
            TokenKind::LeftParen
        } else if c == ')' as u8 {
            TokenKind::RightParen
        } else if c == '{' as u8 {
            TokenKind::LeftBrace
        } else if c == '}' as u8 {
            TokenKind::RightBrace
        } else if c == ';' as u8 {
            TokenKind::Semicolon
        } else if c == ',' as u8 {
            TokenKind::Comma
        } else if c == '.' as u8 {
            TokenKind::Dot
        } else if c == '-' as u8 {
            TokenKind::Minus
        } else if c == '+' as u8 {
            TokenKind::Plus
        } else if c == '/' as u8 {
            TokenKind::Slash
        } else if c == '*' as u8 {
            TokenKind::Star
        } else if c == '!' as u8 {
            if self.match_char('=' as u8) {
                TokenKind::BangEqual
            } else {
                TokenKind::Bang
            }
        } else if c == '=' as u8 {
            if self.match_char('=' as u8) {
                TokenKind::EqualEqual
            } else {
                TokenKind::Equal
            }
        } else if c == '<' as u8 {
            if self.match_char('=' as u8) {
                TokenKind::LessEqual
            } else {
                TokenKind::Less
            }
        } else if c == '>' as u8 {
            if self.match_char('=' as u8) {
                TokenKind::GreaterEqual
            } else {
                TokenKind::Greater
            }
        } else if c == '"' as u8 {
            return self.string();
        } else {
            let r = self.error_token("Unexpected character.");
            proof {
                reveal_strlit("Unexpected character.");
            }
            return r;
        };
        self.make_token(kind)
    }

    /// Scans the rest of a number whose first digit was just consumed.
    pub fn number(&mut self) -> (r: Token<'a>)
        requires
            old(self).wf(),
        ensures
            final(self).wf(),
            final(self).current == number_end(old(self).text(), old(self).current as int),
            final(self).line == old(self).line,
            final(self).start == old(self).start,
            final(self).source == old(self).source,
            final(self).made_here(r, TokenKind::Number),
    {
        let ghost s = self.source@;
        let ghost first = digits_end(s, self.current as int);
        while is_ascii_digit(self.peek())
            invariant
                self.wf(),
                self.source@ == s,
                s == old(self).source@,
                self.source == old(self).source,
                self.start == old(self).start,
                self.line == old(self).line,
                digits_end(s, self.current as int) == first,
                first == digits_end(s, old(self).current as int),
            decreases s.len() - self.current,
        {
            self.advance();
        }
        if self.peek() == '.' as u8 && is_ascii_digit(self.peek_offset(1)) {
            self.advance();
            let ghost second = digits_end(s, self.current as int);
            while is_ascii_digit(self.peek())
                invariant
                    self.wf(),
                    self.source@ == s,
                    self.source == old(self).source,
                    self.start == old(self).start,
                    self.line == old(self).line,
                    digits_end(s, self.current as int) == second,
                decreases s.len() - self.current,
            {
                self.advance();
            }
        }
        self.make_token(TokenKind::Number)
    }

    /// `t` is the token of the given kind from the token's start to the
    /// cursor, as `make_token` builds it.
    pub open spec fn made_here(self, t: Token<'a>, kind: TokenKind) -> bool {
        &&& t.kind == kind
        &&& t.start == self.start
        &&& t.length == self.current - self.start
        &&& t.line == self.line
        &&& t.source == self.source
        &&& t.message@.len() == 0
    }

    /// Scans the rest of a string whose opening quote was just consumed.
    pub fn string(&mut self) -> (r: Token<'a>)
        requires
            old(self).wf(),
        ensures
            final(self).wf(),
            final(self).start == old(self).start,
            final(self).source == old(self).source,
            r.source == old(self).source,
            ({
                let (q, l) = string_end(old(self).text(), old(self).current as int, old(self).line as int);
                &&& final(self).line == l
                &&& if q < old(self).text().len() {
                    &&& final(self).current == q + 1
                    &&& r.kind == TokenKind::String
                    &&& r.start == final(self).start
                    &&& r.length == final(self).current - final(self).start
                    &&& r.line == l
                    &&& r.message@.len() == 0
                } else {
                    &&& final(self).current == q
                    &&& r.kind == TokenKind::Error
                    &&& r.start == final(self).start
                    &&& r.length == 0
                    &&& r.line == l
                    &&& r.message@ == unterminated_message()
                }
            }),
    {
        let ghost s = self.source@;
        let ghost target = string_end(s, self.current as int, self.line as int);
        while self.peek() != '"' as u8 && !self.is_at_end()
            invariant
                self.wf(),
                self.source@ == s,
                s == old(self).source@,
                self.source == old(self).source,
                self.start == old(self).start,
                string_end(s, self.current as int, self.line as int) == target,
                target == string_end(s, old(self).current as int, old(self).line as int),
            decreases s.len() - self.current,
        {
            let c = self.advance();
            if c == '\n' as u8 {
                self.line = self.line + 1;
            }
        }
        if self.peek() != '"' as u8 {
            let r = self.error_token("Unterminated string");
            proof {
                reveal_strlit("Unterminated string");
            }
            r
        } else {
            self.advance();
            self.make_token(TokenKind::String)
        }
    }

    /// Scans the rest of an identifier or keyword whose first byte was just
    /// consumed.
    pub fn identifer(&mut self) -> (r: Token<'a>)
        requires
            old(self).wf(),
            old(self).start < old(self).current,
            is_alpha(old(self).text()[old(self).start as int]),
        ensures
            final(self).wf(),
            final(self).current == ident_end(old(self).text(), old(self).current as int),
            final(self).line == old(self).line,
            final(self).start == old(self).start,
            final(self).source == old(self).source,
            final(self).made_here(
                r,
                keyword_kind(old(self).text().subrange(old(self).start as int, final(self).current as int)),
            ),
    {
        let ghost s = self.source@;
        let ghost target = ident_end(s, self.current as int);
        while is_ascii_alphanumeric(self.peek()) || self.peek() == '_' as u8
            invariant
                self.wf(),
                self.source@ == s,
                s == old(self).source@,
                self.source == old(self).source,
                self.start == old(self).start,
                self.line == old(self).line,
                self.start < self.current,
                ident_end(s, self.current as int) == target,
                target == ident_end(s, old(self).current as int),
            decreases s.len() - self.current,
        {
            self.advance();
        }
        let kind = self.identifer_type();
        self.make_token(kind)
    }

    /// Whether the lexeme is `offset` bytes already matched followed by exactly `rest`:
    /// then `kind`, else `Identifier`.
    pub fn check_keyword(&self, offset: usize, rest: &[u8], kind: TokenKind) -> (r: TokenKind)
        requires
            self.wf(),
        ensures
            r == (if self.current - self.start == offset + rest@.len() && self.source@.subrange(
                self.start + offset,
                self.current as int,
            ) =~= rest@ {
                kind
            } else {
                TokenKind::Identifier
            }),
    {
        let n = self.current - self.start;
        if offset > n || n - offset != rest.len() {
            return TokenKind::Identifier;
        }
        let mut i: usize = 0;
        while i < rest.len()
            invariant
                self.wf(),
                offset + rest@.len() == self.current - self.start,
                0 <= i <= rest@.len(),
                forall|j: int| 0 <= j < i ==> self.source@[self.start + offset + j] == rest@[j],
            decreases rest@.len() - i,
        {
            if self.source[self.start + offset + i] != rest[i] {
                assert(self.source@.subrange(self.start + offset, self.current as int)[i as int]
                    != rest@[i as int]);
                return TokenKind::Identifier;
            }
            i = i + 1;
        }
        assert(self.source@.subrange(self.start + offset, self.current as int) =~= rest@);
        kind
    }

    /// The kind of the identifier-shaped lexeme from the token's start to the cursor.
    pub fn identifer_type(&self) -> (r: TokenKind)
        requires
            self.wf(),
            self.start < self.current,
        ensures
            r == keyword_kind(self.source@.subrange(self.start as int, self.current as int)),
    {
        let ghost w = self.source@.subrange(self.start as int, self.current as int);
        let first = self.source[self.start];
        assert(w[0] == first);
        let r = if first == 'a' as u8 {
            self.check_keyword(1, &['n' as u8, 'd' as u8], TokenKind::And)
        } else if first == 'c' as u8 {
            self.check_keyword(1, &['l' as u8, 'a' as u8, 's' as u8, 's' as u8], TokenKind::Class)
        } else if first == 'e' as u8 {
            self.check_keyword(1, &['l' as u8, 's' as u8, 'e' as u8], TokenKind::Else)
        } else if first == 'f' as u8 {
            if self.current - self.start > 1 {
                let second = self.source[self.start + 1];
                assert(w[1] == second);
                if second == 'a' as u8 {
                    self.check_keyword(2, &['l' as u8, 's' as u8, 'e' as u8], TokenKind::False)
                } else if second == 'o' as u8 {
                    self.check_keyword(2, &['r' as u8], TokenKind::For)
                } else if second == 'u' as u8 {
                    self.check_keyword(2, &['n' as u8], TokenKind::Fun)
                } else {
                    TokenKind::Identifier
                }
            } else {
                TokenKind::Identifier
            }
        } else if first == 't' as u8 {
            if self.current - self.start > 1 {
                let second = self.source[self.start + 1];
                assert(w[1] == second);
                if second == 'h' as u8 {
                    self.check_keyword(2, &['i' as u8, 's' as u8], TokenKind::This)
                } else if second == 'r' as u8 {
                    self.check_keyword(2, &['u' as u8, 'e' as u8], TokenKind::True)
                } else {
                    TokenKind::Identifier
                }
            } else {
                TokenKind::Identifier
            }
        } else if first == 'i' as u8 {
            self.check_keyword(1, &['f' as u8], TokenKind::If)
        } else if first == 'n' as u8 {
            self.check_keyword(1, &['i' as u8, 'l' as u8], TokenKind::Nil)
        } else if first == 'o' as u8 {
            self.check_keyword(1, &['r' as u8], TokenKind::Or)
        } else if first == 'p' as u8 {
            self.check_keyword(1, &['r' as u8, 'i' as u8, 'n' as u8, 't' as u8], TokenKind::Print)
        } else if first == 'r' as u8 {
            self.check_keyword(1, &['e' as u8, 't' as u8, 'u' as u8, 'r' as u8, 'n' as u8], TokenKind::Return)
        } else if first == 's' as u8 {
            self.check_keyword(1, &['u' as u8, 'p' as u8, 'e' as u8, 'r' as u8], TokenKind::Super)
        } else if first == 'v' as u8 {
            self.check_keyword(1, &['a' as u8, 'r' as u8], TokenKind::Var)
        } else if first == 'w' as u8 {
            self.check_keyword(1, &['h' as u8, 'i' as u8, 'l' as u8, 'e' as u8], TokenKind::While)
        } else {
            TokenKind::Identifier
        };
        r
    }
}

/// Whether a byte is an ASCII digit.
pub fn is_ascii_digit(b: u8) -> (r: bool)
    ensures
        r == is_digit(b),
{
    '0' as u8 <= b && b <= '9' as u8
}

/// Whether a byte is an ASCII letter, digit or underscore.
pub fn is_ascii_alphanumeric(b: u8) -> (r: bool)
    ensures
        r == ((is_alpha(b) || is_digit(b)) && b != '_' as u8),
{
    ('a' as u8 <= b && b <= 'z' as u8) || ('A' as u8 <= b && b <= 'Z' as u8) || ('0' as u8 <= b && b <= '9' as u8)
}

} // verus!
