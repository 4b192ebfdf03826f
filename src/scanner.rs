//! The scanner: turns source text into a lazily produced stream of tokens.
//!
//! The model of the stream is `token_at(src, k)`, the `k`-th token that the
//! scanner hands out for the bytes `src`; it is defined from `scan_step`,
//! which says what one scanning step reads and produces.
use vstd::prelude::*;
use vstd::string::StringSliceAdditionalSpecFns;
use vstd::utf8::*;

use std::collections::VecDeque;

use crate::error::NcclError;

verus! {

/// Which quote character wrapped a quoted value.
#[derive(Debug, PartialEq, Eq, Clone, Copy, Structural)]
pub enum QuoteKind {
    Single,
    Double,
}

impl QuoteKind {
    /// The quote character as a byte.
    pub open spec fn spec_byte(self) -> u8 {
        match self {
            QuoteKind::Single => 39u8,
            QuoteKind::Double => 34u8,
        }
    }

    /// The quote character.
    pub fn char(&self) -> (c: char)
        ensures
            c as u32 == self.spec_byte() as u32,
    {
        match self {
            QuoteKind::Single => '\'',
            QuoteKind::Double => '"',
        }
    }
}

/// The kind of a token.
#[derive(Debug, PartialEq, Eq, Clone, Copy, Structural)]
pub enum TokenKind {
    /// The unquoted content of a line.
    Value,
    /// The raw text between two quote characters.
    QuotedValue(QuoteKind),
    /// A run of tab characters that indents a line.
    Tabs(usize),
    /// A run of space characters that indents a line.
    Spaces(usize),
    /// The end of the text.
    Eof,
}

/// A position in the source: a 1-based line and a 1-based byte column.
#[derive(Debug, PartialEq, Eq, Clone, Copy, Structural)]
pub struct Span {
    pub line: usize,
    pub column: usize,
}

/// One lexical unit; its lexeme is a view into the scanned text.
#[derive(Debug)]
pub struct Token<'a> {
    pub kind: TokenKind,
    pub lexeme: &'a str,
    pub span: Span,
}

/// The model of a token: its kind, the byte range `start..end` of its lexeme
/// in the source, and its span.
pub struct TokenSpec {
    pub kind: TokenKind,
    pub start: int,
    pub end: int,
    pub span: Span,
}

/// The outcome of scanning the inside of a quoted string.
pub enum StrScan {
    /// The closing quote stands at this position.
    Closed(int),
    /// The text ended before the closing quote.
    Unterminated,
    /// The escape code at this position is not one of the alphabet.
    BadEscape(int),
}

/// The byte at `i`, or 0 past the end.
pub open spec fn byte_at(src: Seq<u8>, i: int) -> u8 {
    if 0 <= i < src.len() {
        src[i]
    } else {
        0u8
    }
}

pub open spec fn is_line_break(b: u8) -> bool {
    b == 10u8 || b == 13u8
}

/// A tab or a space.
pub open spec fn is_blank(b: u8) -> bool {
    b == 9u8 || b == 32u8
}

pub open spec fn is_quote(b: u8) -> bool {
    b == 34u8 || b == 39u8
}

pub open spec fn quote_kind_of(b: u8) -> QuoteKind {
    if b == 39u8 {
        QuoteKind::Single
    } else {
        QuoteKind::Double
    }
}

/// The codes that may follow a backslash inside a string quoted with `quote`,
/// besides a line break: `n`, `r`, a backslash, and the quote itself.
pub open spec fn is_escape_code(b: u8, quote: u8) -> bool {
    b == 110u8 || b == 114u8 || b == 92u8 || b == quote
}

/// The first position at or after `i` that holds a line break, or the end.
pub open spec fn line_end(src: Seq<u8>, i: int) -> int
    decreases src.len() - i,
{
    if i < 0 || i >= src.len() || is_line_break(src[i]) {
        i
    } else {
        line_end(src, i + 1)
    }
}

/// The first position at or after `i` that does not hold the byte `b`.
pub open spec fn run_end(src: Seq<u8>, i: int, b: u8) -> int
    decreases src.len() - i,
{
    if 0 <= i < src.len() && src[i] == b {
        run_end(src, i + 1, b)
    } else {
        i
    }
}

/// The first position at or after `i` that does not hold a tab or a space.
pub open spec fn blank_end(src: Seq<u8>, i: int) -> int
    decreases src.len() - i,
{
    if 0 <= i < src.len() && is_blank(src[i]) {
        blank_end(src, i + 1)
    } else {
        i
    }
}

/// The 1-based line of position `i`.
pub open spec fn line_of(src: Seq<u8>, i: int) -> int
    decreases i,
{
    if i <= 0 {
        1
    } else {
        line_of(src, i - 1) + if src[i - 1] == 10u8 {
            1int
        } else {
            0int
        }
    }
}

/// The position where the line of position `i` starts.
pub open spec fn line_start_of(src: Seq<u8>, i: int) -> int
    decreases i,
{
    if i <= 0 {
        0
    } else if src[i - 1] == 10u8 {
        i
    } else {
        line_start_of(src, i - 1)
    }
}

pub open spec fn span_at(src: Seq<u8>, i: int) -> Span {
    Span { line: line_of(src, i) as usize, column: (i - line_start_of(src, i) + 1) as usize }
}

/// Where the next token starts when scanning resumes at `p`: line breaks,
/// lines that hold only blanks or a comment after blanks, and comment lines
/// are passed over.
pub open spec fn token_start(src: Seq<u8>, p: int) -> int
    decreases src.len() - p,
{
    if p < 0 || p >= src.len() {
        p
    } else if is_line_break(src[p]) {
        token_start(src, p + 1)
    } else if is_blank(src[p]) {
        let r = run_end(src, p, src[p]);
        let c = byte_at(src, r);
        if (r >= src.len() || c == 35u8 || is_line_break(c)) && p < line_end(src, r) <= src.len() {
            token_start(src, line_end(src, r))
        } else {
            p
        }
    } else if src[p] == 35u8 && p < line_end(src, p) <= src.len() {
        token_start(src, line_end(src, p))
    } else {
        p
    }
}

/// Scans the inside of a string quoted with `quote`, from position `i`.
pub open spec fn string_scan(src: Seq<u8>, i: int, quote: u8) -> StrScan
    decreases src.len() - i,
{
    if i < 0 || i >= src.len() {
        StrScan::Unterminated
    } else if src[i] == quote {
        StrScan::Closed(i)
    } else if src[i] == 92u8 {
        if i + 1 >= src.len() {
            StrScan::Unterminated
        } else if is_escape_code(src[i + 1], quote) {
            string_scan(src, i + 2, quote)
        } else if is_line_break(src[i + 1]) && i < blank_end(src, i + 2) <= src.len() {
            string_scan(src, blank_end(src, i + 2), quote)
        } else {
            StrScan::BadEscape(i + 1)
        }
    } else {
        string_scan(src, i + 1, quote)
    }
}

/// Scans the content that starts at `q`: a quoted string, or the rest of
/// the line verbatim.  Gives the token and where scanning goes on.
pub open spec fn content_step(src: Seq<u8>, q: int) -> Result<(TokenSpec, int), NcclError> {
    let c = byte_at(src, q);
    if is_quote(c) {
        match string_scan(src, q + 1, c) {
            StrScan::Unterminated => Err(
                NcclError::UnterminatedString { start: line_of(src, q) as usize },
            ),
            StrScan::BadEscape(j) => Err(
                NcclError::ScanUnknownEscape {
                    line: span_at(src, j).line,
                    column: span_at(src, j).column,
                    escape: src[j] as char,
                },
            ),
            StrScan::Closed(e) => {
                let tok = TokenSpec {
                    kind: TokenKind::QuotedValue(quote_kind_of(c)),
                    start: q + 1,
                    end: e,
                    span: span_at(src, q),
                };
                let t = blank_end(src, e + 1);
                if t >= src.len() {
                    Ok((tok, t))
                } else if is_line_break(src[t]) {
                    Ok((tok, t + 1))
                } else if src[t] == 35u8 {
                    Ok((tok, line_end(src, t)))
                } else {
                    Err(NcclError::TrailingCharacters { line: line_of(src, t) as usize })
                }
            },
        }
    } else {
        Ok(
            (
                TokenSpec {
                    kind: TokenKind::Value,
                    start: q,
                    end: line_end(src, q),
                    span: span_at(src, q),
                },
                line_end(src, q),
            ),
        )
    }
}

/// One scanning step from position `p`: the end token, or an indentation
/// token followed by a content token, or a content token alone; and where
/// the next step starts.
pub open spec fn scan_step(src: Seq<u8>, p: int) -> Result<(Seq<TokenSpec>, int), NcclError> {
    let s = token_start(src, p);
    let c = byte_at(src, s);
    if s >= src.len() {
        Ok((seq![TokenSpec { kind: TokenKind::Eof, start: s, end: s, span: span_at(src, s) }], s))
    } else if is_blank(c) {
        let r = run_end(src, s, c);
        let n = (r - s) as usize;
        let indent = TokenSpec {
            kind: if c == 9u8 {
                TokenKind::Tabs(n)
            } else {
                TokenKind::Spaces(n)
            },
            start: s,
            end: r,
            span: span_at(src, s),
        };
        match content_step(src, r) {
            Err(e) => Err(e),
            Ok((t, np)) => Ok((seq![indent, t], np)),
        }
    } else {
        match content_step(src, s) {
            Err(e) => Err(e),
            Ok((t, np)) => Ok((seq![t], np)),
        }
    }
}

/// The tokens before the end token when scanning from `p`, and then either
/// the end token or the error that stops scanning.
pub open spec fn scan_from(src: Seq<u8>, p: int) -> (Seq<TokenSpec>, Result<TokenSpec, NcclError>)
    decreases src.len() - p,
{
    match scan_step(src, p) {
        Err(e) => (seq![], Err(e)),
        Ok((ts, np)) => {
            if ts[0].kind is Eof {
                (seq![], Ok(ts[0]))
            } else if p < np <= src.len() {
                let rest = scan_from(src, np);
                (ts + rest.0, rest.1)
            } else {
                (ts, Err(NcclError::UnterminatedString { start: 0 }))
            }
        },
    }
}

/// The `k`-th token that a scanner over `src` hands out: after the last
/// token, the end token again and again, or the error that stopped scanning.
pub open spec fn token_at(src: Seq<u8>, k: int) -> Result<TokenSpec, NcclError> {
    let all = scan_from(src, 0);
    if 0 <= k < all.0.len() {
        Ok(all.0[k])
    } else {
        all.1
    }
}

/// A position that no multi-byte character straddles: the ends, and the
/// positions next to an ASCII byte.
pub open spec fn cut_point(src: Seq<u8>, i: int) -> bool {
    ||| i == 0
    ||| i == src.len()
    ||| (0 < i <= src.len() && src[i - 1] < 128)
    ||| (0 <= i < src.len() && src[i] < 128)
}

pub(crate) proof fn lemma_cut_point_is_char_boundary(src: Seq<u8>, i: int)
    requires
        valid_utf8(src),
        0 <= i <= src.len(),
        cut_point(src, i),
    ensures
        is_char_boundary(src, i),
{
    is_char_boundary_start_end_of_seq(src);
    if 0 <= i < src.len() && src[i] < 128 {
        is_char_boundary_iff_not_is_continuation_byte(src, i);
    } else if 0 < i < src.len() && src[i - 1] < 128 {
        let j = i - 1;
        is_char_boundary_iff_not_is_continuation_byte(src, j);
        valid_utf8_split(src, j);
        let rest = src.subrange(j, src.len() as int);
        assert(rest[0] == src[j]);
        let tail = pop_first_scalar(rest);
        assert(tail =~= src.subrange(i, src.len() as int));
        assert(valid_utf8(tail));
        assert(tail[0] == src[i]);
        is_char_boundary_iff_not_is_continuation_byte(src, i);
    }
}


pub(crate) proof fn lemma_line_end_bounds(src: Seq<u8>, i: int)
    requires
        0 <= i <= src.len(),
    ensures
        i <= line_end(src, i) <= src.len(),
        line_end(src, i) < src.len() ==> is_line_break(src[line_end(src, i)]),
    decreases src.len() - i,
{
    if i < src.len() && !is_line_break(src[i]) {
        lemma_line_end_bounds(src, i + 1);
    }
}

pub(crate) proof fn lemma_run_end_bounds(src: Seq<u8>, i: int, b: u8)
    requires
        0 <= i <= src.len(),
    ensures
        i <= run_end(src, i, b) <= src.len(),
        forall|j: int| i <= j < run_end(src, i, b) ==> src[j] == b,
    decreases src.len() - i,
{
    if i < src.len() && src[i] == b {
        lemma_run_end_bounds(src, i + 1, b);
    }
}

pub(crate) proof fn lemma_blank_end_bounds(src: Seq<u8>, i: int)
    requires
        0 <= i <= src.len(),
    ensures
        i <= blank_end(src, i) <= src.len(),
    decreases src.len() - i,
{
    if i < src.len() && is_blank(src[i]) {
        lemma_blank_end_bounds(src, i + 1);
    }
}

proof fn lemma_extend_produced(src: Seq<u8>, produced: Seq<TokenSpec>, p: int)
    requires
        scan_step(src, p) is Ok,
        !(scan_step(src, p)->Ok_0.0[0].kind is Eof),
        p < scan_step(src, p)->Ok_0.1 <= src.len(),
        produced + scan_from(src, p).0 == scan_from(src, 0).0,
        scan_from(src, p).1 == scan_from(src, 0).1,
    ensures
        ({
            let np = scan_step(src, p)->Ok_0.1;
            &&& (produced + scan_step(src, p)->Ok_0.0) + scan_from(src, np).0 == scan_from(src, 0).0
            &&& scan_from(src, np).1 == scan_from(src, 0).1
        }),
{
    let ts = scan_step(src, p)->Ok_0.0;
    let np = scan_step(src, p)->Ok_0.1;
    assert(scan_from(src, p).0 == ts + scan_from(src, np).0);
    assert((produced + ts) + scan_from(src, np).0 =~= produced + (ts + scan_from(src, np).0));
}

/// Scanning from any position ends, when it does not fail, in the end token.
pub proof fn lemma_scan_ends_in_eof(src: Seq<u8>, p: int)
    ensures
        scan_from(src, p).1 is Ok ==> scan_from(src, p).1->Ok_0.kind is Eof,
        forall|i: int|
            0 <= i < scan_from(src, p).0.len() ==> !(#[trigger] scan_from(src, p).0[i].kind is Eof),
    decreases src.len() - p,
{
    if let Ok((ts, np)) = scan_step(src, p) {
        if !(ts[0].kind is Eof) {
            assert(forall|i: int| 0 <= i < ts.len() ==> !(#[trigger] ts[i].kind is Eof));
            if p < np <= src.len() {
                lemma_scan_ends_in_eof(src, np);
                let rest = scan_from(src, np).0;
                assert forall|i: int| 0 <= i < (ts + rest).len() implies !(#[trigger] (ts
                    + rest)[i].kind is Eof) by {
                    if i >= ts.len() {
                        assert((ts + rest)[i] == rest[i - ts.len()]);
                    }
                }
            }
        }
    }
}

/// Whether token `t` is the one that the model `ts` describes.
pub open spec fn token_matches(t: Token, ts: TokenSpec, src: Seq<u8>) -> bool {
    &&& t.kind == ts.kind
    &&& 0 <= ts.start <= ts.end <= src.len()
    &&& t.lexeme.spec_bytes() == src.subrange(ts.start, ts.end)
    &&& t.span == ts.span
}

/// The scanner over one text.  It scans on demand and buffers the tokens
/// that were scanned but not yet consumed.
pub struct Scanner<'a> {
    text: &'a str,
    source: &'a [u8],
    tokens: VecDeque<Token<'a>>,
    start: usize,
    start_span: Span,
    current: usize,
    line: usize,
    line_start: usize,
    produced: Ghost<Seq<TokenSpec>>,
    taken: Ghost<int>,
}

impl<'a> Scanner<'a> {
    /// The bytes being scanned.
    pub closed spec fn src(&self) -> Seq<u8> {
        self.source@
    }

    /// The cursor: the position of the next byte to scan.
    pub closed spec fn cur(&self) -> int {
        self.current as int
    }

    /// Everything but the cursor and its line bookkeeping is as in `other`.
    pub closed spec fn same_but_cursor(&self, other: &Self) -> bool {
        &&& self.text == other.text
        &&& self.source == other.source
        &&& self.tokens == other.tokens
        &&& self.start == other.start
        &&& self.start_span == other.start_span
        &&& self.produced == other.produced
        &&& self.taken == other.taken
    }

    /// Where the token being scanned starts.
    pub closed spec fn mark(&self) -> int {
        self.start as int
    }

    /// The span recorded for the token being scanned.
    pub closed spec fn mark_span(&self) -> Span {
        self.start_span
    }

    /// The buffered tokens.
    pub closed spec fn buffer(&self) -> Seq<Token<'a>> {
        self.tokens@
    }

    /// The models of the tokens that scanning steps produced so far.
    pub closed spec fn made(&self) -> Seq<TokenSpec> {
        self.produced@
    }

    /// How many tokens were consumed.
    pub closed spec fn taken(&self) -> int {
        self.taken@
    }

    /// How many tokens are buffered.
    pub closed spec fn pending(&self) -> int {
        self.tokens@.len() as int
    }

    /// The position and line bookkeeping agree with the text.
    pub closed spec fn pos_ok(&self) -> bool {
        &&& self.source@ == self.text.spec_bytes()
        &&& valid_utf8(self.source@)
        &&& self.source@.len() < usize::MAX
        &&& self.current <= self.source@.len()
        &&& self.line as int == line_of(self.source@, self.current as int)
        &&& self.line_start as int == line_start_of(self.source@, self.current as int)
        &&& self.line <= self.current + 1
        &&& self.line_start <= self.current
    }

    /// Well-formed between scanning steps: the tokens produced so far are a
    /// prefix of the stream, and the buffer holds the ones not yet consumed.
    pub closed spec fn wf(&self) -> bool {
        let src = self.source@;
        let here = scan_from(src, self.current as int);
        let all = scan_from(src, 0);
        &&& self.pos_ok()
        &&& cut_point(src, self.current as int)
        &&& self.produced@ + here.0 == all.0
        &&& here.1 == all.1
        &&& 0 <= self.taken@
        &&& self.taken@ + self.tokens@.len() >= self.produced@.len()
        &&& self.taken@ + self.tokens@.len() > self.produced@.len() ==> (scan_step(
            src,
            self.current as int,
        ) is Ok && scan_step(src, self.current as int)->Ok_0.0[0].kind is Eof)
        &&& forall|i: int|
            0 <= i < self.tokens@.len() ==> {
                &&& #[trigger] token_at(src, self.taken@ + i) is Ok
                &&& token_matches(self.tokens@[i], token_at(src, self.taken@ + i)->Ok_0, src)
            }
    }

    /// A scanner at the start of `source`.
    pub fn new(source: &'a str) -> (s: Scanner<'a>)
        requires
            source.spec_bytes().len() < usize::MAX,
        ensures
            s.wf(),
            s.src() == source.spec_bytes(),
            s.taken() == 0,
            s.pending() == 0,
    {
        proof {
            encode_utf8_valid_utf8(source@);
        }
        Scanner {
            text: source,
            source: source.as_bytes(),
            tokens: VecDeque::new(),
            start: 0,
            start_span: Span { line: 1, column: 1 },
            current: 0,
            line: 1,
            line_start: 0,
            produced: Ghost(Seq::empty()),
            taken: Ghost(0),
        }
    }

    pub fn is_at_end(&self) -> (r: bool)
        requires
            self.pos_ok(),
        ensures
            r == (self.cur() >= self.src().len()),
    {
        self.current >= self.source.len()
    }

    /// The byte under the cursor, or 0 at the end.
    pub fn peek_char(&self) -> (b: u8)
        requires
            self.pos_ok(),
        ensures
            b == byte_at(self.src(), self.cur()),
    {
        if self.is_at_end() {
            0
        } else {
            self.source[self.current]
        }
    }

    /// Moves past the byte under the cursor and returns it.
    pub fn advance_char(&mut self) -> (b: u8)
        requires
            old(self).pos_ok(),
            old(self).cur() < old(self).src().len(),
        ensures
            final(self).pos_ok(),
            b == old(self).src()[old(self).cur()],
            final(self).cur() == old(self).cur() + 1,
            final(self).same_but_cursor(old(self)),
    {
        let b = self.source[self.current];
        self.current = self.current + 1;
        if b == 10 {
            self.line = self.line + 1;
            self.line_start = self.current;
        }
        b
    }

    /// Moves to the next line break, or to the end.
    pub fn until_newline(&mut self)
        requires
            old(self).pos_ok(),
        ensures
            final(self).pos_ok(),
            final(self).cur() == line_end(old(self).src(), old(self).cur()),
            final(self).same_but_cursor(old(self)),
    {
        let ghost p = self.current as int;
        proof {
            lemma_line_end_bounds(self.source@, p);
        }
        while self.peek_char() != 10 && self.peek_char() != 13 && !self.is_at_end()
            invariant
                self.pos_ok(),
                self.same_but_cursor(old(self)),
                p <= self.current,
                line_end(self.source@, self.current as int) == line_end(self.source@, p),
            decreases self.source@.len() - self.current,
        {
            self.advance_char();
        }
    }

    /// Buffers a token of `kind` whose lexeme runs from the mark to the cursor.
    pub fn add_token(&mut self, kind: TokenKind)
        requires
            old(self).pos_ok(),
            old(self).mark() <= old(self).cur(),
            cut_point(old(self).src(), old(self).mark()),
            cut_point(old(self).src(), old(self).cur()),
        ensures
            final(self).pos_ok(),
            final(self).src() == old(self).src(),
            final(self).cur() == old(self).cur(),
            final(self).mark() == old(self).mark(),
            final(self).taken() == old(self).taken(),
            final(self).buffer().len() == old(self).buffer().len() + 1,
            final(self).buffer().drop_last() == old(self).buffer(),
            token_matches(
                final(self).buffer().last(),
                TokenSpec {
                    kind,
                    start: old(self).mark(),
                    end: old(self).cur(),
                    span: old(self).mark_span(),
                },
                old(self).src(),
            ),
            final(self).made() == old(self).made(),
    {
        let ghost src = self.source@;
        proof {
            lemma_cut_point_is_char_boundary(src, self.start as int);
            valid_utf8_split(src, self.start as int);
            let rest = src.subrange(self.start as int, src.len() as int);
            assert(cut_point(rest, self.current - self.start));
            lemma_cut_point_is_char_boundary(rest, self.current - self.start);
        }
        let (_, rest) = self.text.split_at(self.start);
        let (lexeme, _) = rest.split_at(self.current - self.start);
        assert(lexeme.spec_bytes() =~= src.subrange(self.start as int, self.current as int));
        self.tokens.push_back(Token { kind, lexeme, span: self.start_span });
        assert(self.tokens@.drop_last() =~= old(self).tokens@);
    }

    /// Scans a quoted string whose opening `quote` is under the cursor, then
    /// what may follow it on its line: blanks, and a line break or a comment.
    #[verifier::loop_isolation(false)]
    pub fn string(&mut self, quote: u8) -> (r: Result<(), NcclError>)
        requires
            old(self).pos_ok(),
            is_quote(quote),
            byte_at(old(self).src(), old(self).cur()) == quote,
            old(self).mark_span() == span_at(old(self).src(), old(self).cur()),
        ensures
            final(self).src() == old(self).src(),
            final(self).taken() == old(self).taken(),
            final(self).made() == old(self).made(),
            match content_step(old(self).src(), old(self).cur()) {
                Err(e) => r == Err::<(), NcclError>(e),
                Ok((t, np)) => {
                    &&& r is Ok
                    &&& final(self).pos_ok()
                    &&& final(self).cur() == np
                    &&& old(self).cur() < np
                    &&& cut_point(old(self).src(), np)
                    &&& final(self).buffer().len() == old(self).buffer().len() + 1
                    &&& final(self).buffer().drop_last() == old(self).buffer()
                    &&& token_matches(final(self).buffer().last(), t, old(self).src())
                },
            },
    {
        let ghost src = self.source@;
        let ghost q = self.current as int;
        let start = self.line;
        self.advance_char();
        self.start = self.current;
        while self.peek_char() != quote && !self.is_at_end()
            invariant
                self.pos_ok(),
                self.source@ == src,
                self.text == old(self).text,
                self.tokens == old(self).tokens,
                self.start_span == old(self).start_span,
                self.produced == old(self).produced,
                self.taken == old(self).taken,
                self.start == q + 1,
                q + 1 <= self.current,
                is_quote(quote),
                start as int == line_of(src, q),
                string_scan(src, self.current as int, quote) == string_scan(src, q + 1, quote),
            decreases src.len() - self.current,
        {
            if self.peek_char() == 92 {
                let ghost i = self.current as int;
                self.advance_char();
                if self.is_at_end() {
                    return Err(NcclError::UnterminatedString { start });
                }
                let code = self.peek_char();
                if code == 110 || code == 114 || code == 92 || code == quote {
                    self.advance_char();
                } else if code == 10 || code == 13 {
                    self.advance_char();
                    while self.peek_char() == 32 || self.peek_char() == 9
                        invariant
                            self.pos_ok(),
                            self.source@ == src,
                            self.text == old(self).text,
                            self.tokens == old(self).tokens,
                            self.start_span == old(self).start_span,
                            self.produced == old(self).produced,
                            self.taken == old(self).taken,
                            self.start == q + 1,
                            i + 2 <= self.current,
                            blank_end(src, self.current as int) == blank_end(src, i + 2),
                        decreases src.len() - self.current,
                    {
                        self.advance_char();
                    }
                } else {
                    return Err(
                        NcclError::ScanUnknownEscape {
                            line: self.line,
                            column: self.current - self.line_start + 1,
                            escape: code as char,
                        },
                    );
                }
            } else {
                self.advance_char();
            }
        }
        if self.is_at_end() {
            return Err(NcclError::UnterminatedString { start });
        }
        let ghost e = self.current as int;
        let kind = if quote == 39 {
            QuoteKind::Single
        } else {
            QuoteKind::Double
        };
        self.add_token(TokenKind::QuotedValue(kind));
        self.advance_char();
        let ghost after = self.current as int;
        while self.peek_char() == 32 || self.peek_char() == 9
            invariant
                self.pos_ok(),
                self.source@ == src,
                self.produced == old(self).produced,
                self.taken == old(self).taken,
                self.tokens@.len() == old(self).tokens@.len() + 1,
                self.tokens@.drop_last() == old(self).tokens@,
                token_matches(
                    self.tokens@.last(),
                    TokenSpec {
                        kind: TokenKind::QuotedValue(kind),
                        start: q + 1,
                        end: e,
                        span: span_at(src, q),
                    },
                    src,
                ),
                after <= self.current,
                blank_end(src, self.current as int) == blank_end(src, after),
            decreases src.len() - self.current,
        {
            self.advance_char();
        }
        if self.is_at_end() {
            Ok(())
        } else if self.peek_char() == 10 || self.peek_char() == 13 {
            self.advance_char();
            Ok(())
        } else if self.peek_char() == 35 {
            proof {
                lemma_line_end_bounds(src, self.current as int);
            }
            self.until_newline();
            Ok(())
        } else {
            Err(NcclError::TrailingCharacters { line: self.line })
        }
    }

    /// The span of the cursor.
    fn cursor_span(&self) -> (sp: Span)
        requires
            self.pos_ok(),
        ensures
            sp == span_at(self.source@, self.current as int),
    {
        Span { line: self.line, column: self.current - self.line_start + 1 }
    }

    /// Runs one scanning step: buffers the end token, or an indentation
    /// token and a content token, or a content token alone.
    #[verifier::loop_isolation(false)]
    #[verifier::rlimit(60)]
    pub fn next(&mut self) -> (r: Result<(), NcclError>)
        requires
            old(self).wf(),
        ensures
            final(self).src() == old(self).src(),
            final(self).taken() == old(self).taken(),
            match r {
                Ok(_) => {
                    &&& final(self).wf()
                    &&& final(self).pending() > old(self).pending()
                    &&& final(self).buffer().subrange(0, old(self).pending()) == old(self).buffer()
                    &&& forall|i: int|
                        old(self).pending() <= i < final(self).pending() ==> {
                            &&& #[trigger] token_at(old(self).src(), old(self).taken() + i) is Ok
                            &&& token_matches(
                                final(self).buffer()[i],
                                token_at(old(self).src(), old(self).taken() + i)->Ok_0,
                                old(self).src(),
                            )
                        }
                },
                Err(e) => token_at(old(self).src(), old(self).taken() + old(self).pending()) == Err::<
                    TokenSpec,
                    NcclError,
                >(e),
            },
    {
        let ghost src = self.source@;
        let ghost p0 = self.current as int;
        let ghost old_tokens = self.tokens@;
        let ghost mut indent: Option<TokenSpec> = None;
        self.start = self.current;
        loop
            invariant
                self.pos_ok(),
                self.source@ == src,
                self.text == old(self).text,
                self.produced == old(self).produced,
                self.taken == old(self).taken,
                self.tokens@ == old_tokens,
                p0 <= self.current,
                cut_point(src, self.current as int),
                token_start(src, self.current as int) == token_start(src, p0),
            decreases src.len() - self.current,
        {
            let c = self.peek_char();
            if self.is_at_end() {
                self.start = self.current;
                self.start_span = self.cursor_span();
                self.add_token(TokenKind::Eof);
                proof {
                    assert(self.tokens@.subrange(0, old_tokens.len() as int) =~= old_tokens);
                }
                return Ok(());
            } else if c == 10 || c == 13 {
                self.advance_char();
            } else if c == 9 || c == 32 {
                let ghost s0 = self.current as int;
                let span = self.cursor_span();
                let first = self.current;
                let mut n: usize = 0;
                while self.peek_char() == c
                    invariant
                        self.pos_ok(),
                        self.source@ == src,
                        self.text == old(self).text,
                        self.produced == old(self).produced,
                        self.taken == old(self).taken,
                        self.tokens@ == old_tokens,
                        self.current == s0 + n,
                        n > 0 ==> src[self.current - 1] == c,
                        first == s0,
                        c != 0,
                        run_end(src, self.current as int, c) == run_end(src, s0, c),
                    decreases src.len() - self.current,
                {
                    self.advance_char();
                    n = n + 1;
                }
                let d = self.peek_char();
                if d == 35 || d == 10 || d == 13 || self.is_at_end() {
                    proof {
                        lemma_line_end_bounds(src, self.current as int);
                    }
                    self.until_newline();
                } else {
                    self.start = first;
                    self.start_span = span;
                    let kind = if c == 9 {
                        TokenKind::Tabs(n)
                    } else {
                        TokenKind::Spaces(n)
                    };
                    self.add_token(kind);
                    proof {
                        indent = Some(TokenSpec { kind, start: s0, end: self.current as int, span });
                    }
                    break ;
                }
            } else if c == 35 {
                proof {
                    lemma_line_end_bounds(src, self.current + 1);
                }
                self.until_newline();
            } else {
                break ;
            }
        }
        let ghost q = self.current as int;
        self.start = self.current;
        self.start_span = self.cursor_span();
        let c = self.peek_char();
        if c == 34 || c == 39 {
            self.string(c)?;
        } else {
            proof {
                lemma_line_end_bounds(src, q);
                if q < src.len() {
                    lemma_line_end_bounds(src, q + 1);
                }
            }
            self.until_newline();
            self.add_token(TokenKind::Value);
        }
        proof {
            let step = scan_step(src, p0);
            assert(step is Ok);
            let ts = step->Ok_0.0;
            let np = step->Ok_0.1;
            assert(np == self.current);
            assert(p0 < np <= src.len());
            assert(scan_from(src, p0).0 == ts + scan_from(src, np).0);
            assert(old(self).taken@ + old_tokens.len() == self.produced@.len());
            self.produced@ = self.produced@ + ts;
            lemma_extend_produced(src, old(self).produced@, p0);
            assert(self.tokens@.subrange(0, old_tokens.len() as int) =~= old_tokens);
            assert(self.tokens@.len() == old_tokens.len() + ts.len());
            assert forall|i: int| 0 <= i < self.tokens@.len() implies {
                &&& #[trigger] token_at(src, self.taken@ + i) is Ok
                &&& token_matches(self.tokens@[i], token_at(src, self.taken@ + i)->Ok_0, src)
            } by {
                if i >= old_tokens.len() {
                    let j = i - old_tokens.len();
                    assert(self.taken@ + i == old(self).produced@.len() + j);
                    assert(scan_from(src, 0).0[self.taken@ + i] == ts[j]);
                }
            }
        }
        Ok(())
    }

    /// Consumes and returns the next token, scanning it if it is not buffered.
    pub fn next_token(&mut self) -> (r: Result<Token<'a>, NcclError>)
        requires
            old(self).wf(),
        ensures
            final(self).src() == old(self).src(),
            match r {
                Ok(t) => {
                    &&& final(self).wf()
                    &&& final(self).taken() == old(self).taken() + 1
                    &&& token_at(old(self).src(), old(self).taken()) is Ok
                    &&& token_matches(
                        t,
                        token_at(old(self).src(), old(self).taken())->Ok_0,
                        old(self).src(),
                    )
                },
                Err(e) => token_at(old(self).src(), old(self).taken()) == Err::<TokenSpec, NcclError>(
                    e,
                ),
            },
    {
        if self.tokens.len() == 0 {
            self.next()?;
        }
        assert(token_at(self.source@, self.taken@ + 0) is Ok);
        let t = self.tokens.pop_front().unwrap();
        self.taken = Ghost(self.taken@ + 1);
        proof {
            let src = self.source@;
            assert forall|i: int| 0 <= i < self.tokens@.len() implies {
                &&& #[trigger] token_at(src, self.taken@ + i) is Ok
                &&& token_matches(self.tokens@[i], token_at(src, self.taken@ + i)->Ok_0, src)
            } by {
                assert(token_at(src, self.taken@ + i) == token_at(src, (self.taken@ - 1) + (i + 1)));
            }
        }
        Ok(t)
    }

    /// The token `idx` places after the next one, without consuming anything.
    #[verifier::loop_isolation(false)]
    pub fn peek_token(&mut self, idx: usize) -> (r: Result<&Token<'a>, NcclError>)
        requires
            old(self).wf(),
        ensures
            final(self).src() == old(self).src(),
            final(self).taken() == old(self).taken(),
            match r {
                Ok(t) => {
                    &&& final(self).wf()
                    &&& token_at(old(self).src(), old(self).taken() + idx) is Ok
                    &&& token_matches(
                        *t,
                        token_at(old(self).src(), old(self).taken() + idx)->Ok_0,
                        old(self).src(),
                    )
                },
                Err(e) => token_at(old(self).src(), old(self).taken() + idx) == Err::<
                    TokenSpec,
                    NcclError,
                >(e),
            },
    {
        loop
            invariant
                self.wf(),
                self.source@ == old(self).source@,
                self.taken == old(self).taken,
            decreases if self.tokens@.len() <= idx {
                idx + 1 - self.tokens@.len()
            } else {
                0
            },
        {
            if self.tokens.len() > idx {
                break ;
            }
            let ghost before = self.tokens@.len();
            match self.next() {
                Ok(_) => {},
                Err(e) => return Err(e),
            }
            assert(self.tokens@.len() > before);
        }
        assert(token_at(self.source@, self.taken@ + idx) is Ok);
        Ok(&self.tokens[idx])
    }

    /// Scans the whole text: every token up to and including the end token.
    #[verifier::loop_isolation(false)]
    pub fn scan_all(self) -> (r: Result<Vec<Token<'a>>, NcclError>)
        requires
            self.wf(),
            self.taken() == 0,
        ensures
            ({
                let all = scan_from(self.src(), 0);
                match r {
                    Ok(v) => {
                        &&& all.1 is Ok
                        &&& v@.len() == all.0.len() + 1
                        &&& forall|i: int|
                            0 <= i < all.0.len() ==> token_matches(
                                #[trigger] v@[i],
                                all.0[i],
                                self.src(),
                            )
                        &&& token_matches(v@[all.0.len() as int], all.1->Ok_0, self.src())
                    },
                    Err(e) => all.1 == Err::<TokenSpec, NcclError>(e),
                }
            }),
    {
        let ghost src = self.src();
        assert(src == self.source@);
        let ghost all = scan_from(src, 0);
        proof {
            lemma_scan_ends_in_eof(src, 0);
        }
        let mut scanner = self;
        let mut tokens: Vec<Token<'a>> = Vec::new();
        loop
            invariant
                scanner.wf(),
                scanner.source@ == src,
                all == scan_from(src, 0),
                all.1 is Ok ==> all.1->Ok_0.kind is Eof,
                tokens@.len() == scanner.taken@,
                scanner.taken@ <= all.0.len(),
                forall|i: int|
                    0 <= i < tokens@.len() ==> token_matches(#[trigger] tokens@[i], all.0[i], src),
            decreases all.0.len() - scanner.taken@,
        {
            let ghost k = scanner.taken@;
            let t = match scanner.next_token() {
                Ok(t) => t,
                Err(e) => {
                    assert(token_at(src, k) == Err::<TokenSpec, NcclError>(e));
                    assert(!(0 <= k < all.0.len()));
                    assert(all.1 == Err::<TokenSpec, NcclError>(e));
                    return Err(e);
                },
            };
            let end = match t.kind {
                TokenKind::Eof => true,
                _ => false,
            };
            tokens.push(t);
            if end {
                return Ok(tokens);
            }
        }
    }
}

} // verus!
