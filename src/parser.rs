//! The parser: builds a configuration tree from the scanner's tokens.
//!
//! Nesting comes from indentation alone.  Each top-level block fixes its own
//! style (tabs, or spaces of one width) with its first indented line, and a
//! line whose indentation does not match what its block expects is not
//! descended into.  A key that already exists under a parent is extended
//! rather than replaced, which is what merges repeated keys and layers one
//! configuration on another.
use vstd::prelude::*;
use vstd::string::StringSliceAdditionalSpecFns;
use vstd::utf8::*;

use crate::config::{has_key, key_index, leaf, with_child, Config, Node, TOP_LEVEL_KEY};
use crate::error::NcclError;
use crate::scanner::{
    lemma_scan_ends_in_eof, scan_from, token_at, token_matches, QuoteKind, Scanner, Span, Token,
    TokenKind, TokenSpec,
};

verus! {

broadcast use vstd::utf8::group_utf8_lib;

/// The indentation that the children of a node must have.
#[derive(Clone, Copy, Debug, PartialEq, Eq, Structural)]
pub enum Indent {
    /// No style fixed yet: the node is at the top level.
    TopLevel,
    /// Tabs, `level` of them.
    Tabs { level: usize },
    /// Spaces, `width` for each of `level` levels.
    Spaces { width: usize, level: usize },
}

/// The indentation of the children of a node indented by `indent`, when a
/// token of kind `kind` follows the node: `None` if that token does not
/// open its children.
pub open spec fn child_indent(indent: Indent, kind: TokenKind) -> Option<Indent> {
    match kind {
        TokenKind::Tabs(n) => match indent {
            Indent::TopLevel => if n == 1 {
                Some(Indent::Tabs { level: 1 })
            } else {
                None
            },
            Indent::Tabs { level } => if n == level + 1 {
                Some(Indent::Tabs { level: n })
            } else {
                None
            },
            Indent::Spaces { .. } => None,
        },
        TokenKind::Spaces(n) => match indent {
            Indent::TopLevel => Some(Indent::Spaces { width: n, level: 1 }),
            Indent::Spaces { width, level } => if level < usize::MAX && n == width * (level + 1) {
                Some(Indent::Spaces { width, level: (level + 1) as usize })
            } else {
                None
            },
            Indent::Tabs { .. } => None,
        },
        _ => None,
    }
}

/// How many tokens come before the end token (or the scanning error).
pub open spec fn token_count(src: Seq<u8>) -> int {
    scan_from(src, 0).0.len() as int
}

/// The quoting that a token of kind `kind` records.
pub open spec fn quotes_of(kind: TokenKind) -> Option<QuoteKind> {
    match kind {
        TokenKind::QuotedValue(q) => Some(q),
        _ => None,
    }
}

/// The text of a token's lexeme.
pub open spec fn lexeme_text(src: Seq<u8>, t: TokenSpec) -> Seq<char> {
    decode_utf8(src.subrange(t.start, t.end))
}

/// The node that a key token `t` starts under `parent`: the existing child
/// with that key, or a new leaf.
pub open spec fn start_node(src: Seq<u8>, parent: Node, t: TokenSpec) -> Node {
    let key = lexeme_text(src, t);
    if has_key(parent.children, key) {
        parent.children[key_index(parent.children, key)]
    } else {
        leaf(key, quotes_of(t.kind), t.span)
    }
}

/// The error for a token of kind `got` where `expected` was needed.
pub open spec fn unexpected(t: TokenSpec, expected: TokenKind) -> NcclError {
    NcclError::UnexpectedToken { span: t.span, expected, got: t.kind }
}

/// Parses one key from token `k` on, with its children indented beyond
/// `indent`, and merges it into `parent`.  Gives the new parent and the
/// index of the first token not consumed.
pub open spec fn parse_key(src: Seq<u8>, k: int, indent: Indent, parent: Node) -> Result<
    (Node, int),
    NcclError,
>
    decreases token_count(src) - k, 1int,
{
    match token_at(src, k) {
        Err(e) => Err(e),
        Ok(t) => if !(t.kind is Value || t.kind is QuotedValue) || !(0 <= k < token_count(src)) {
            Err(unexpected(t, TokenKind::Value))
        } else {
            let node = start_node(src, parent, t);
            match token_at(src, k + 1) {
                Err(e) => Err(e),
                Ok(t2) => {
                    let below = match child_indent(indent, t2.kind) {
                        Some(ci) => parse_below(src, k + 1, ci, t2.kind, node),
                        None => Ok((node, k + 1)),
                    };
                    match below {
                        Err(e) => Err(e),
                        Ok((n2, k2)) => Ok((with_child(parent, n2), k2)),
                    }
                },
            }
        },
    }
}

/// Parses the children of `node`, each introduced by a token of kind
/// `kind`, from token `k` on.
pub open spec fn parse_below(
    src: Seq<u8>,
    k: int,
    indent: Indent,
    kind: TokenKind,
    node: Node,
) -> Result<(Node, int), NcclError>
    decreases token_count(src) - k, 0int,
{
    match token_at(src, k) {
        Err(e) => Err(e),
        Ok(t) => if t.kind == kind && 0 <= k < token_count(src) {
            match parse_key(src, k + 1, indent, node) {
                Err(e) => Err(e),
                Ok((n2, k2)) => if k < k2 <= token_count(src) {
                    parse_below(src, k2, indent, kind, n2)
                } else {
                    Ok((n2, k2))
                },
            }
        } else {
            Ok((node, k))
        },
    }
}

/// Parses top-level keys from token `k` on into `config`, up to the end.
pub open spec fn parse_top(src: Seq<u8>, k: int, config: Node) -> Result<Node, NcclError>
    decreases token_count(src) - k,
{
    match token_at(src, k) {
        Err(e) => Err(e),
        Ok(t) => if t.kind is Eof {
            Ok(config)
        } else if 0 <= k < token_count(src) {
            match parse_key(src, k, Indent::TopLevel, config) {
                Err(e) => Err(e),
                Ok((c2, k2)) => if k < k2 <= token_count(src) {
                    parse_top(src, k2, c2)
                } else {
                    Ok(c2)
                },
            }
        } else {
            Err(unexpected(t, TokenKind::Eof))
        },
    }
}

/// The tree that parsing the text `src` on top of `seed` gives.
pub open spec fn parse_text(src: Seq<u8>, seed: Node) -> Result<Node, NcclError> {
    parse_top(src, 0, seed)
}

/// The root of an empty tree.
pub open spec fn empty_root() -> Node {
    leaf(TOP_LEVEL_KEY@, None, Span { line: 0, column: 0 })
}

/// A token other than the end token stands before the end of the stream.
pub(crate) proof fn lemma_token_in_range(src: Seq<u8>, k: int)
    requires
        token_at(src, k) is Ok,
        !(token_at(src, k)->Ok_0.kind is Eof),
    ensures
        0 <= k < token_count(src),
{
    lemma_scan_ends_in_eof(src, 0);
}

/// Parsing a key consumes at least one token, and never the end token.
pub(crate) proof fn lemma_parse_key_progress(src: Seq<u8>, k: int, indent: Indent, parent: Node)
    ensures
        parse_key(src, k, indent, parent) is Ok ==> ({
            let k2 = parse_key(src, k, indent, parent)->Ok_0.1;
            k < k2 <= token_count(src)
        }),
    decreases token_count(src) - k, 1int,
{
    if let Ok(t) = token_at(src, k) {
        if (t.kind is Value || t.kind is QuotedValue) && 0 <= k < token_count(src) {
            let node = start_node(src, parent, t);
            if let Ok(t2) = token_at(src, k + 1) {
                if let Some(ci) = child_indent(indent, t2.kind) {
                    lemma_parse_below_progress(src, k + 1, ci, t2.kind, node);
                }
            }
        }
    }
}

/// Parsing children consumes tokens up to, at most, the end token.
proof fn lemma_parse_below_progress(
    src: Seq<u8>,
    k: int,
    indent: Indent,
    kind: TokenKind,
    node: Node,
)
    requires
        0 <= k <= token_count(src),
    ensures
        parse_below(src, k, indent, kind, node) is Ok ==> ({
            let k2 = parse_below(src, k, indent, kind, node)->Ok_0.1;
            k <= k2 <= token_count(src)
        }),
    decreases token_count(src) - k, 0int,
{
    if let Ok(t) = token_at(src, k) {
        if t.kind == kind && 0 <= k < token_count(src) {
            lemma_parse_key_progress(src, k + 1, indent, node);
            if let Ok((n2, k2)) = parse_key(src, k + 1, indent, node) {
                if k < k2 <= token_count(src) {
                    lemma_parse_below_progress(src, k2, indent, kind, n2);
                }
            }
        }
    }
}

impl Indent {
    /// The number of tabs of this indentation.
    pub fn level_tabs(&self) -> (r: usize)
        requires
            !(*self is Spaces),
        ensures
            r == match *self {
                Indent::Tabs { level } => level,
                _ => 0,
            },
    {
        match self {
            Indent::TopLevel => 0,
            Indent::Tabs { level } => *level,
            Indent::Spaces { .. } => 0,
        }
    }

    /// The number of spaces of this indentation.
    pub fn level_spaces(&self) -> (r: usize)
        requires
            !(*self is Tabs),
            *self is Spaces ==> self->Spaces_width * self->Spaces_level <= usize::MAX,
        ensures
            r == match *self {
                Indent::Spaces { width, level } => width * level,
                _ => 0,
            },
    {
        match self {
            Indent::TopLevel => 0,
            Indent::Tabs { .. } => 0,
            Indent::Spaces { width, level } => *width * *level,
        }
    }

    /// The width of one level of spaces, once it is fixed.
    pub fn width(&self) -> (r: Option<usize>)
        requires
            !(*self is Tabs),
        ensures
            r == match *self {
                Indent::Spaces { width, .. } => Some(width),
                _ => None::<usize>,
            },
    {
        match self {
            Indent::TopLevel => None,
            Indent::Tabs { .. } => None,
            Indent::Spaces { width, .. } => Some(*width),
        }
    }

    /// One level deeper, with tabs when no style is fixed yet.
    pub fn increase_tabs(&self) -> (r: Indent)
        requires
            *self is Tabs ==> self->Tabs_level < usize::MAX,
            *self is Spaces ==> self->Spaces_level < usize::MAX,
        ensures
            r == match *self {
                Indent::TopLevel => Indent::Tabs { level: 1 },
                Indent::Tabs { level } => Indent::Tabs { level: (level + 1) as usize },
                Indent::Spaces { width, level } => Indent::Spaces {
                    width,
                    level: (level + 1) as usize,
                },
            },
    {
        match self {
            Indent::TopLevel => Indent::Tabs { level: 1 },
            Indent::Tabs { level } => Indent::Tabs { level: *level + 1 },
            Indent::Spaces { width, level } => Indent::Spaces { width: *width, level: *level + 1 },
        }
    }

    /// One level deeper, with spaces of `width` when no style is fixed yet.
    pub fn increase_spaces(&self, width: usize) -> (r: Indent)
        requires
            *self is Tabs ==> self->Tabs_level < usize::MAX,
            *self is Spaces ==> self->Spaces_level < usize::MAX,
        ensures
            r == match *self {
                Indent::TopLevel => Indent::Spaces { width, level: 1 },
                Indent::Tabs { level } => Indent::Tabs { level: (level + 1) as usize },
                Indent::Spaces { width, level } => Indent::Spaces {
                    width,
                    level: (level + 1) as usize,
                },
            },
    {
        match self {
            Indent::TopLevel => Indent::Spaces { width, level: 1 },
            Indent::Tabs { level } => Indent::Tabs { level: *level + 1 },
            Indent::Spaces { width, level } => Indent::Spaces { width: *width, level: *level + 1 },
        }
    }

    /// The indentation of the children of a node at this indentation, when
    /// a token of kind `next` follows the node, if that token opens them.
    pub fn below(&self, next: TokenKind) -> (r: Option<Indent>)
        ensures
            r == child_indent(*self, next),
    {
        let indent = *self;
        match next {
            TokenKind::Tabs(tabs) => if indent.is_tabs_or_top_level() {
                let level = indent.level_tabs();
                if level < usize::MAX && tabs == level + 1 {
                    Some(indent.increase_tabs())
                } else {
                    None
                }
            } else {
                None
            },
            TokenKind::Spaces(spaces) => if indent.is_spaces_or_top_level() {
                match indent {
                    Indent::Spaces { width, level } => if level < usize::MAX {
                        let next_indent = indent.increase_spaces(width);
                        match width.checked_mul(level + 1) {
                            Some(p) => if p == spaces {
                                Some(next_indent)
                            } else {
                                None
                            },
                            None => None,
                        }
                    } else {
                        None
                    },
                    _ => Some(indent.increase_spaces(spaces)),
                }
            } else {
                None
            },
            _ => None,
        }
    }

    pub fn is_tabs_or_top_level(&self) -> (r: bool)
        ensures
            r == !(*self is Spaces),
    {
        matches!(self, Indent::Tabs { .. }) || matches!(self, Indent::TopLevel)
    }

    pub fn is_spaces_or_top_level(&self) -> (r: bool)
        ensures
            r == !(*self is Tabs),
    {
        matches!(self, Indent::Spaces { .. }) || matches!(self, Indent::TopLevel)
    }
}

/// Consumes the next token, which must be a key: a value or a quoted value.
pub fn consume_value<'a>(scanner: &mut Scanner<'a>) -> (r: Result<Token<'a>, NcclError>)
    requires
        old(scanner).wf(),
    ensures
        final(scanner).src() == old(scanner).src(),
        match token_at(old(scanner).src(), old(scanner).taken()) {
            Err(e) => r == Err::<Token, NcclError>(e),
            Ok(t) => if t.kind is Value || t.kind is QuotedValue {
                &&& r is Ok
                &&& token_matches(r->Ok_0, t, old(scanner).src())
                &&& final(scanner).wf()
                &&& final(scanner).taken() == old(scanner).taken() + 1
            } else {
                &&& r == Err::<Token, NcclError>(unexpected(t, TokenKind::Value))
                &&& final(scanner).wf()
                &&& final(scanner).taken() == old(scanner).taken() + 1
            },
        },
{
    let tok = match scanner.next_token() {
        Ok(tok) => tok,
        Err(e) => return Err(e),
    };
    match tok.kind {
        TokenKind::Value | TokenKind::QuotedValue(_) => Ok(tok),
        _ => Err(NcclError::UnexpectedToken { span: tok.span, expected: TokenKind::Value, got: tok.kind }),
    }
}

/// Consumes the next token, which must be of kind `kind`.
pub fn consume<'a>(scanner: &mut Scanner<'a>, kind: TokenKind) -> (r: Result<Token<'a>, NcclError>)
    requires
        old(scanner).wf(),
    ensures
        final(scanner).src() == old(scanner).src(),
        match token_at(old(scanner).src(), old(scanner).taken()) {
            Err(e) => r == Err::<Token, NcclError>(e),
            Ok(t) => if t.kind == kind {
                &&& r is Ok
                &&& token_matches(r->Ok_0, t, old(scanner).src())
                &&& final(scanner).wf()
                &&& final(scanner).taken() == old(scanner).taken() + 1
            } else {
                &&& r == Err::<Token, NcclError>(unexpected(t, kind))
                &&& final(scanner).wf()
                &&& final(scanner).taken() == old(scanner).taken() + 1
            },
        },
{
    let tok = match scanner.next_token() {
        Ok(tok) => tok,
        Err(e) => return Err(e),
    };
    if tok.kind == kind {
        Ok(tok)
    } else {
        Err(NcclError::UnexpectedToken { span: tok.span, expected: kind, got: tok.kind })
    }
}

/// Parses one key and the keys below it, and merges the result into
/// `parent`.
#[verifier::loop_isolation(false)]
#[verifier::rlimit(60)]
pub fn parse_kv<'a>(scanner: &mut Scanner<'a>, indent: Indent, parent: &mut Config) -> (r: Result<
    (),
    NcclError,
>)
    requires
        old(scanner).wf(),
    ensures
        final(scanner).src() == old(scanner).src(),
        match parse_key(old(scanner).src(), old(scanner).taken(), indent, old(parent)@) {
            Err(e) => r == Err::<(), NcclError>(e) && final(parent)@ == old(parent)@,
            Ok((n, k2)) => {
                &&& r is Ok
                &&& final(parent)@ == n
                &&& final(scanner).wf()
                &&& final(scanner).taken() == k2
            },
        },
    decreases token_count(old(scanner).src()) - old(scanner).taken(),
{
    let ghost src = scanner.src();
    let ghost k = scanner.taken();
    let ghost parent0 = parent@;
    let value = match consume_value(scanner) {
        Ok(value) => value,
        Err(e) => return Err(e),
    };
    let ghost t = token_at(src, k)->Ok_0;
    proof {
        lemma_token_in_range(src, k);
        assert(decode_utf8(value.lexeme.spec_bytes()) == value.lexeme@);
    }
    let mut node = match parent.index(value.lexeme) {
        Some(existing) => existing.clone(),
        None => {
            let quotes = match value.kind {
                TokenKind::QuotedValue(q) => Some(q),
                _ => None,
            };
            Config::new_with_span(value.lexeme, value.span, quotes)
        },
    };
    assert(node@ == start_node(src, parent0, t));
    let next = match scanner.peek_token(0) {
        Ok(tok) => tok.kind,
        Err(e) => return Err(e),
    };
    let ghost t2 = token_at(src, k + 1)->Ok_0;
    assert(next == t2.kind);
    let below = indent.below(next);
    assert(below == child_indent(indent, next));
    if let Some(next_indent) = below {
        let ghost node0 = node@;
        loop
            invariant
                scanner.wf(),
                scanner.src() == src,
                k + 1 <= scanner.taken() <= token_count(src),
                parse_below(src, k + 1, next_indent, next, node0) == parse_below(
                    src,
                    scanner.taken(),
                    next_indent,
                    next,
                    node@,
                ),
            decreases token_count(src) - scanner.taken(),
        {
            let ghost j = scanner.taken();
            let more = match scanner.peek_token(0) {
                Ok(tok) => tok.kind == next,
                Err(e) => return Err(e),
            };
            if !more {
                break ;
            }
            proof {
                lemma_token_in_range(src, j);
                lemma_parse_key_progress(src, j + 1, next_indent, node@);
            }
            match consume(scanner, next) {
                Ok(_) => {},
                Err(e) => return Err(e),
            }
            match parse_kv(scanner, next_indent, &mut node) {
                Ok(_) => {},
                Err(e) => return Err(e),
            }
        }
    }
    parent.add_child(node);
    Ok(())
}

/// Parses the whole token stream on top of a copy of `seed`.
#[verifier::loop_isolation(false)]
pub fn parse_with<'a>(scanner: &mut Scanner<'a>, seed: &Config) -> (r: Result<Config, NcclError>)
    requires
        old(scanner).wf(),
        old(scanner).taken() == 0,
    ensures
        match parse_text(old(scanner).src(), seed@) {
            Err(e) => r == Err::<Config, NcclError>(e),
            Ok(n) => r is Ok && r->Ok_0@ == n,
        },
{
    let ghost src = scanner.src();
    let mut config = seed.clone();
    loop
        invariant
            scanner.wf(),
            scanner.src() == src,
            0 <= scanner.taken() <= token_count(src),
            parse_text(src, seed@) == parse_top(src, scanner.taken(), config@),
        decreases token_count(src) - scanner.taken(),
    {
        let ghost j = scanner.taken();
        let at_end = match scanner.peek_token(0) {
            Ok(tok) => tok.kind == TokenKind::Eof,
            Err(e) => return Err(e),
        };
        if at_end {
            break ;
        }
        proof {
            lemma_token_in_range(src, j);
            lemma_parse_key_progress(src, j, Indent::TopLevel, config@);
        }
        match parse_kv(scanner, Indent::TopLevel, &mut config) {
            Ok(_) => {},
            Err(e) => return Err(e),
        }
    }
    Ok(config)
}

/// Parses the whole token stream into a new tree.
pub fn parse<'a>(scanner: &mut Scanner<'a>) -> (r: Result<Config, NcclError>)
    requires
        old(scanner).wf(),
        old(scanner).taken() == 0,
    ensures
        match parse_text(old(scanner).src(), empty_root()) {
            Err(e) => r == Err::<Config, NcclError>(e),
            Ok(n) => r is Ok && r->Ok_0@ == n,
        },
{
    let root = Config::new(TOP_LEVEL_KEY, None);
    parse_with(scanner, &root)
}

} // verus!
