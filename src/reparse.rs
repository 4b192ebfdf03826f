//! Parsing a tree back from its printed form.
//!
//! The printed form of a tree lists its nodes in preorder, one per line,
//! each after one tab for every level below the first.  Such a text scans
//! into one key token per node, after a `Tabs` token below the top level;
//! the parser rebuilds the tree from that stream; and every key that the
//! scanner produces prints back, except an unquoted key that starts with a
//! tab (possible after an indentation of spaces).
use vstd::prelude::*;

use crate::config::{
    has_key, key_index, leaf, lemma_key_index, lemma_merged_keeps, lemma_with_child_keeps, merged, pp,
    pp_all, pp_line, tree_wf, unique_keys, with_child, Node,
};
use crate::config::TOP_LEVEL_KEY;
use crate::laws::{lemma_parse_extends_seed, lemma_parse_keeps_keys_unique};
use crate::parser::{
    child_indent, empty_root, lemma_parse_key_progress, lemma_token_in_range, lexeme_text,
    parse_below, parse_key, parse_text, parse_top, quotes_of, start_node, token_count, Indent,
};
use crate::scanner::{
    cut_point, lemma_blank_end_bounds, lemma_line_end_bounds, lemma_run_end_bounds, is_escape_code, blank_end, byte_at, content_step, is_blank, is_line_break, is_quote, line_end, run_end,
    scan_from, scan_step, string_scan, token_at, token_start, QuoteKind, StrScan, TokenKind,
    TokenSpec,
};
use vstd::utf8::*;

verus! {

broadcast use vstd::utf8::group_utf8_lib;

/// What the parser reads from one token of a printed tree.
pub enum Tok {
    /// A run of this many tabs.
    Indent(nat),
    /// A key, with its quoting.
    Key(Option<QuoteKind>, Seq<char>),
}

/// The kind of token that a key with quoting `q` scans into.
pub open spec fn key_kind(q: Option<QuoteKind>) -> TokenKind {
    match q {
        Some(q) => TokenKind::QuotedValue(q),
        None => TokenKind::Value,
    }
}

/// Token `t` of `src` is what `x` describes.
pub open spec fn tok_is(src: Seq<u8>, t: TokenSpec, x: Tok) -> bool {
    match x {
        Tok::Indent(m) => t.kind == TokenKind::Tabs(m as usize),
        Tok::Key(q, key) => t.kind == key_kind(q) && lexeme_text(src, t) == key,
    }
}

/// From token `k` on, the stream of `src` holds the tokens `ts`.
pub open spec fn stream_is(src: Seq<u8>, k: int, ts: Seq<Tok>) -> bool {
    forall|i: int|
        0 <= i < ts.len() ==> {
            &&& #[trigger] token_at(src, k + i) is Ok
            &&& tok_is(src, token_at(src, k + i)->Ok_0, ts[i])
        }
}

/// The indentation that the parser tracks for a node at `depth`.
pub open spec fn indent_of(depth: nat) -> Indent {
    if depth <= 1 {
        Indent::TopLevel
    } else {
        Indent::Tabs { level: (depth - 1) as usize }
    }
}

/// The tokens of node `n` at `depth` and of the nodes below it, from its key on.
pub open spec fn node_toks(n: Node, depth: nat) -> Seq<Tok>
    decreases n,
{
    seq![Tok::Key(n.quotes, n.key)] + kids_toks(n.children, depth + 1)
}

/// The tokens of the nodes `cs` at `depth`, each after its indentation.
pub open spec fn kids_toks(cs: Seq<Node>, depth: nat) -> Seq<Tok>
    decreases cs,
{
    if cs.len() == 0 {
        seq![]
    } else {
        let head = if depth > 1 {
            seq![Tok::Indent((depth - 1) as nat)]
        } else {
            seq![]
        };
        head + node_toks(cs[0], depth) + kids_toks(cs.subrange(1, cs.len() as int), depth)
    }
}

/// The token at `k` may follow a node at `depth` without being read as the
/// start of its children.
pub open spec fn ends_node(src: Seq<u8>, k: int, depth: nat) -> bool {
    &&& token_at(src, k) is Ok
    &&& match token_at(src, k)->Ok_0.kind {
        TokenKind::Tabs(m) => m < depth,
        TokenKind::Spaces(_) => false,
        _ => true,
    }
}

/// `a` has the keys, quoting and shape of `b`, whatever the spans.
pub open spec fn same_tree(a: Node, b: Node) -> bool
    decreases b,
{
    &&& a.key == b.key
    &&& a.quotes == b.quotes
    &&& a.children.len() == b.children.len()
    &&& forall|i: int|
        0 <= i < b.children.len() ==> same_tree(#[trigger] a.children[i], b.children[i])
}

/// The nodes of `cs` and all nodes below them have at most `bound` levels.
pub open spec fn depth_below(n: Node, bound: nat) -> bool
    decreases n,
{
    bound >= 1 && forall|i: int|
        0 <= i < n.children.len() ==> depth_below(#[trigger] n.children[i], (bound - 1) as nat)
}

proof fn lemma_stream_split(src: Seq<u8>, k: int, a: Seq<Tok>, b: Seq<Tok>)
    requires
        stream_is(src, k, a + b),
    ensures
        stream_is(src, k, a),
        stream_is(src, k + a.len(), b),
{
    assert forall|i: int| 0 <= i < a.len() implies {
        &&& #[trigger] token_at(src, k + i) is Ok
        &&& tok_is(src, token_at(src, k + i)->Ok_0, a[i])
    } by {
        assert((a + b)[i] == a[i]);
    }
    assert forall|i: int| 0 <= i < b.len() implies {
        &&& #[trigger] token_at(src, k + a.len() + i) is Ok
        &&& tok_is(src, token_at(src, k + a.len() + i)->Ok_0, b[i])
    } by {
        assert((a + b)[a.len() + i] == b[i]);
        assert(token_at(src, k + (a.len() + i)) == token_at(src, k + a.len() + i));
    }
}

proof fn lemma_rebuild_key(src: Seq<u8>, k: int, n: Node, depth: nat, parent: Node)
    requires
        1 <= depth,
        depth_below(n, (usize::MAX - depth) as nat),
        depth < usize::MAX,
        tree_wf(n),
        !has_key(parent.children, n.key),
        stream_is(src, k, node_toks(n, depth)),
        ends_node(src, k + node_toks(n, depth).len(), depth),
    ensures
        ({
            let r = parse_key(src, k, indent_of(depth), parent);
            &&& r is Ok
            &&& r->Ok_0.1 == k + node_toks(n, depth).len()
            &&& r->Ok_0.0.children.len() == parent.children.len() + 1
            &&& r->Ok_0.0 == (Node {
                children: parent.children.push(r->Ok_0.0.children.last()),
                ..parent
            })
            &&& same_tree(r->Ok_0.0.children.last(), n)
        }),
    decreases n, 1int,
{
    let toks = node_toks(n, depth);
    let rest = kids_toks(n.children, depth + 1);
    lemma_stream_split(src, k, seq![Tok::Key(n.quotes, n.key)], rest);
    assert(toks == seq![Tok::Key(n.quotes, n.key)] + rest);
    assert(token_at(src, k + 0) is Ok);
    let t = token_at(src, k)->Ok_0;
    lemma_token_in_range(src, k);
    let node = start_node(src, parent, t);
    assert(node == leaf(n.key, n.quotes, t.span));
    if n.children.len() == 0 {
        assert(rest.len() == 0);
        let t2 = token_at(src, k + 1)->Ok_0;
        assert(child_indent(indent_of(depth), t2.kind) is None);
        let n2 = node;
        assert(same_tree(n2, n));
    } else {
        let head = seq![Tok::Indent(depth as nat)];
        assert(rest == head + node_toks(n.children[0], depth + 1) + kids_toks(
            n.children.subrange(1, n.children.len() as int),
            depth + 1,
        ));
        assert(rest[0] == Tok::Indent(depth as nat));
        assert(token_at(src, k + 1 + 0) is Ok);
        let t2 = token_at(src, k + 1)->Ok_0;
        assert(t2.kind == TokenKind::Tabs(depth as usize));
        assert(child_indent(indent_of(depth), t2.kind) == Some(indent_of(depth + 1)));
        assert(depth_below(n.children[0], (usize::MAX - depth - 1) as nat));
        lemma_rebuild_kids(src, k + 1, n.children, depth + 1, node);
        let r = parse_below(src, k + 1, indent_of(depth + 1), t2.kind, node);
        let n2 = r->Ok_0.0;
        assert forall|i: int| 0 <= i < n.children.len() implies same_tree(
            #[trigger] n2.children[i],
            n.children[i],
        ) by {
            assert(n2.children[i] == n2.children[0 + i]);
        }
    }
}

proof fn lemma_rebuild_kids(
    src: Seq<u8>,
    k: int,
    cs: Seq<Node>,
    depth: nat,
    acc: Node,
)
    requires
        2 <= depth < usize::MAX,
        forall|i: int|
            0 <= i < cs.len() ==> depth_below(#[trigger] cs[i], (usize::MAX - depth) as nat),
        forall|i: int| 0 <= i < cs.len() ==> tree_wf(#[trigger] cs[i]),
        unique_keys(cs),
        forall|i: int, j: int|
            0 <= i < cs.len() && 0 <= j < acc.children.len() ==> acc.children[j].key
                != cs[i].key,
        stream_is(src, k, kids_toks(cs, depth)),
        ends_node(src, k + kids_toks(cs, depth).len(), (depth - 1) as nat),
    ensures
        ({
            let r = parse_below(src, k, indent_of(depth), TokenKind::Tabs((depth - 1) as usize), acc);
            &&& r is Ok
            &&& r->Ok_0.1 == k + kids_toks(cs, depth).len()
            &&& r->Ok_0.0.children.len() == acc.children.len() + cs.len()
            &&& r->Ok_0.0 == (Node { children: r->Ok_0.0.children, ..acc })
            &&& r->Ok_0.0.children.subrange(0, acc.children.len() as int) == acc.children
            &&& forall|i: int|
                0 <= i < cs.len() ==> same_tree(
                    #[trigger] r->Ok_0.0.children[acc.children.len() + i],
                    cs[i],
                )
        }),
    decreases cs, 0int,
{
    let toks = kids_toks(cs, depth);
    let kind = TokenKind::Tabs((depth - 1) as usize);
    if cs.len() == 0 {
        assert(acc.children.subrange(0, acc.children.len() as int) =~= acc.children);
    } else {
        let head = seq![Tok::Indent((depth - 1) as nat)];
        let mid = node_toks(cs[0], depth);
        let rest = cs.subrange(1, cs.len() as int);
        let tail = kids_toks(rest, depth);
        assert(toks == head + mid + tail);
        lemma_stream_split(src, k, head + mid, tail);
        lemma_stream_split(src, k, head, mid);
        assert(token_at(src, k + 0) is Ok);
        lemma_token_in_range(src, k);
        let k2 = k + 1 + mid.len();
        if rest.len() > 0 {
            assert(tail[0] == Tok::Indent((depth - 1) as nat));
            assert(token_at(src, k2 + 0) is Ok);
        } else {
            assert(tail.len() == 0);
        }
        assert(ends_node(src, k2, depth));
        assert(!has_key(acc.children, cs[0].key));
        lemma_rebuild_key(src, k + 1, cs[0], depth, acc);
        let acc1 = parse_key(src, k + 1, indent_of(depth), acc)->Ok_0.0;
        lemma_parse_key_progress(src, k + 1, indent_of(depth), acc);
        assert forall|i: int, j: int|
            0 <= i < rest.len() && 0 <= j < acc1.children.len() implies acc1.children[j].key
            != rest[i].key by {
            assert(rest[i] == cs[i + 1]);
            if j == acc.children.len() {
                assert(acc1.children[j].key == cs[0].key);
            }
        }
        assert forall|i: int| 0 <= i < rest.len() implies tree_wf(#[trigger] rest[i]) && depth_below(
            rest[i],
            (usize::MAX - depth) as nat,
        ) by {
            assert(rest[i] == cs[i + 1]);
        }
        lemma_rebuild_kids(src, k2, rest, depth, acc1);
        let r = parse_below(src, k, indent_of(depth), kind, acc);
        let fin = r->Ok_0.0;
        assert(fin.children.subrange(0, acc1.children.len() as int) == acc1.children);
        assert forall|i: int| 0 <= i < cs.len() implies same_tree(
            #[trigger] fin.children[acc.children.len() + i],
            cs[i],
        ) by {
            if i == 0 {
                assert(fin.children[acc.children.len() as int] == acc1.children[acc.children.len() as int]);
            } else {
                assert(rest[i - 1] == cs[i]);
                assert(fin.children[acc.children.len() + i] == fin.children[acc1.children.len() + (i - 1)]);
            }
        }
        assert(fin.children.subrange(0, acc.children.len() as int) =~= acc.children) by {
            assert(acc1.children.subrange(0, acc.children.len() as int) =~= acc.children);
            assert forall|j: int| 0 <= j < acc.children.len() implies fin.children[j] == acc.children[j] by {
                assert(fin.children.subrange(0, acc1.children.len() as int)[j] == acc1.children[j]);
            }
        }
    }
}

#[verifier::rlimit(80)]
proof fn lemma_rebuild_top(src: Seq<u8>, k: int, cs: Seq<Node>, acc: Node)
    requires
        forall|i: int|
            0 <= i < cs.len() ==> depth_below(#[trigger] cs[i], (usize::MAX - 1) as nat),
        forall|i: int| 0 <= i < cs.len() ==> tree_wf(#[trigger] cs[i]),
        unique_keys(cs),
        forall|i: int, j: int|
            0 <= i < cs.len() && 0 <= j < acc.children.len() ==> acc.children[j].key
                != cs[i].key,
        stream_is(src, k, kids_toks(cs, 1)),
        token_at(src, k + kids_toks(cs, 1).len()) is Ok,
        token_at(src, k + kids_toks(cs, 1).len())->Ok_0.kind is Eof,
    ensures
        ({
            let r = parse_top(src, k, acc);
            &&& r is Ok
            &&& r->Ok_0.children.len() == acc.children.len() + cs.len()
            &&& r->Ok_0 == (Node { children: r->Ok_0.children, ..acc })
            &&& r->Ok_0.children.subrange(0, acc.children.len() as int) == acc.children
            &&& forall|i: int|
                0 <= i < cs.len() ==> same_tree(
                    #[trigger] r->Ok_0.children[acc.children.len() + i],
                    cs[i],
                )
        }),
    decreases cs,
{
    let toks = kids_toks(cs, 1);
    if cs.len() == 0 {
        assert(acc.children.subrange(0, acc.children.len() as int) =~= acc.children);
    } else {
        let mid = node_toks(cs[0], 1);
        let rest = cs.subrange(1, cs.len() as int);
        let tail = kids_toks(rest, 1);
        assert(toks == seq![] + mid + tail);
        assert(seq![] + mid == mid);
        lemma_stream_split(src, k, mid, tail);
        assert(mid[0] == Tok::Key(cs[0].quotes, cs[0].key));
        assert(token_at(src, k + 0) is Ok);
        lemma_token_in_range(src, k);
        let k2 = k + mid.len();
        if rest.len() > 0 {
            assert(tail == seq![] + node_toks(rest[0], 1) + kids_toks(
                rest.subrange(1, rest.len() as int),
                1,
            ));
            assert(tail[0] == Tok::Key(rest[0].quotes, rest[0].key));
            assert(token_at(src, k2 + 0) is Ok);
        } else {
            assert(tail.len() == 0);
        }
        assert(ends_node(src, k2, 1));
        assert(!has_key(acc.children, cs[0].key));
        lemma_rebuild_key(src, k, cs[0], 1, acc);
        let acc1 = parse_key(src, k, indent_of(1), acc)->Ok_0.0;
        lemma_parse_key_progress(src, k, indent_of(1), acc);
        assert forall|i: int, j: int|
            0 <= i < rest.len() && 0 <= j < acc1.children.len() implies acc1.children[j].key
            != rest[i].key by {
            assert(rest[i] == cs[i + 1]);
            if j == acc.children.len() {
                assert(acc1.children[j].key == cs[0].key);
            }
        }
        assert forall|i: int| 0 <= i < rest.len() implies tree_wf(#[trigger] rest[i]) && depth_below(
            rest[i],
            (usize::MAX - 1) as nat,
        ) by {
            assert(rest[i] == cs[i + 1]);
        }
        lemma_rebuild_top(src, k2, rest, acc1);
        let fin = parse_top(src, k, acc)->Ok_0;
        assert(fin.children.subrange(0, acc1.children.len() as int) == acc1.children);
        assert forall|i: int| 0 <= i < cs.len() implies same_tree(
            #[trigger] fin.children[acc.children.len() + i],
            cs[i],
        ) by {
            if i == 0 {
                assert(fin.children[acc.children.len() as int] == acc1.children[acc.children.len() as int]);
            } else {
                assert(rest[i - 1] == cs[i]);
                assert(fin.children[acc.children.len() + i] == fin.children[acc1.children.len() + (i - 1)]);
            }
        }
        assert(fin.children.subrange(0, acc.children.len() as int) =~= acc.children) by {
            assert(acc1.children.subrange(0, acc.children.len() as int) =~= acc.children);
            assert forall|j: int| 0 <= j < acc.children.len() implies fin.children[j] == acc.children[j] by {
                assert(fin.children.subrange(0, acc1.children.len() as int)[j] == acc1.children[j]);
            }
        }
    }
}

/// The parser rebuilds a tree from the token stream of its printed form:
/// when the tokens of `src` are, in preorder, one key token for each node
/// below the root (after a `Tabs` token of one tab per level below the
/// first), followed by the end token, then parsing `src` gives a tree with
/// the keys, quoting and shape of `t`.
pub proof fn lemma_parse_printed_stream(src: Seq<u8>, t: Node)
    requires
        tree_wf(t),
        depth_below(t, usize::MAX as nat),
        stream_is(src, 0, kids_toks(t.children, 1)),
        token_at(src, kids_toks(t.children, 1).len() as int) is Ok,
        token_at(src, kids_toks(t.children, 1).len() as int)->Ok_0.kind is Eof,
    ensures
        parse_text(src, empty_root()) is Ok,
        same_tree(parse_text(src, empty_root())->Ok_0, Node { key: empty_root().key, quotes: None, ..t }),
{
    let cs = t.children;
    assert forall|i: int| 0 <= i < cs.len() implies tree_wf(#[trigger] cs[i]) && depth_below(
        cs[i],
        (usize::MAX - 1) as nat,
    ) by {}
    lemma_rebuild_top(src, 0, cs, empty_root());
    let r = parse_text(src, empty_root())->Ok_0;
    assert forall|i: int| 0 <= i < cs.len() implies same_tree(#[trigger] r.children[i], cs[i]) by {
        assert(r.children[i] == r.children[0 + i]);
    }
}


proof fn lemma_encode_concat(a: Seq<char>, b: Seq<char>)
    ensures
        encode_utf8(a + b) == encode_utf8(a) + encode_utf8(b),
    decreases a.len(),
{
    if a.len() == 0 {
        assert(a + b =~= b);
        assert(encode_utf8(a) + encode_utf8(b) =~= encode_utf8(b));
    } else {
        lemma_encode_concat(a.drop_first(), b);
        assert((a + b).drop_first() =~= a.drop_first() + b);
        assert((a + b)[0] == a[0]);
        assert(encode_utf8(a + b) =~= encode_scalar(a[0] as u32) + (encode_utf8(a.drop_first())
            + encode_utf8(b)));
    }
}

/// The key of `n` at `depth` prints as text that scans back to the same key:
/// an unquoted key is not empty, stays on one line, and does not start with
/// a tab, a comment or a quote (nor with a space at the top level); a quoted
/// key closes exactly at its end.
pub open spec fn printable_key(n: Node, depth: nat) -> bool {
    let kb = encode_utf8(n.key);
    match n.quotes {
        None => {
            &&& kb.len() > 0
            &&& kb[0] != 9u8 && kb[0] != 35u8 && !is_quote(kb[0])
            &&& depth <= 1 ==> kb[0] != 32u8
            &&& forall|i: int| 0 <= i < kb.len() ==> !is_line_break(#[trigger] kb[i])
        },
        Some(q) => string_scan(kb.push(q.spec_byte()), 0, q.spec_byte()) == StrScan::Closed(
            kb.len() as int,
        ),
    }
}

/// Every node below `n` (and `n` itself, unless at depth 0) has a printable key.
pub open spec fn printable(n: Node, depth: nat) -> bool
    decreases n,
{
    &&& depth >= 1 ==> printable_key(n, depth)
    &&& forall|i: int| 0 <= i < n.children.len() ==> printable(#[trigger] n.children[i], depth + 1)
}

/// The tokens before the indentation of a node at `depth`.
pub open spec fn indent_toks(depth: nat) -> Seq<Tok> {
    if depth > 1 {
        seq![Tok::Indent((depth - 1) as nat)]
    } else {
        seq![]
    }
}

/// Scanning from `p` gives the tokens `xs`, and then what scanning from `q` gives.
pub open spec fn scans_to(src: Seq<u8>, p: int, q: int, xs: Seq<Tok>) -> bool {
    let a = scan_from(src, p);
    let b = scan_from(src, q);
    &&& a.1 == b.1
    &&& a.0.len() == xs.len() + b.0.len()
    &&& a.0.subrange(xs.len() as int, a.0.len() as int) == b.0
    &&& forall|i: int| 0 <= i < xs.len() ==> tok_is(src, #[trigger] a.0[i], xs[i])
}

proof fn lemma_scans_to_trans(src: Seq<u8>, p: int, q: int, r: int, xs: Seq<Tok>, ys: Seq<Tok>)
    requires
        scans_to(src, p, q, xs),
        scans_to(src, q, r, ys),
    ensures
        scans_to(src, p, r, xs + ys),
{
    let a = scan_from(src, p).0;
    let b = scan_from(src, q).0;
    let c = scan_from(src, r).0;
    assert forall|i: int| 0 <= i < (xs + ys).len() implies tok_is(src, #[trigger] a[i], (xs + ys)[i]) by {
        if i >= xs.len() {
            let j = i - xs.len();
            assert(a.subrange(xs.len() as int, a.len() as int)[j] == a[i]);
            assert(b[j] == a[i]);
        }
    }
    assert(a.subrange((xs + ys).len() as int, a.len() as int) =~= c) by {
        assert forall|j: int| 0 <= j < c.len() implies a[(xs + ys).len() + j] == c[j] by {
            assert(a.subrange(xs.len() as int, a.len() as int)[ys.len() + j] == a[xs.len() + ys.len() + j]);
            assert(b.subrange(ys.len() as int, b.len() as int)[j] == b[ys.len() + j]);
        }
    }
}

proof fn lemma_run_of_tabs(src: Seq<u8>, p: int, m: int, i: int)
    requires
        0 <= p,
        0 <= i <= m,
        p + m < src.len(),
        forall|j: int| p <= j < p + m ==> #[trigger] src[j] == 9u8,
        src[p + m] != 9u8,
    ensures
        run_end(src, p + i, 9u8) == p + m,
    decreases m - i,
{
    if i < m {
        lemma_run_of_tabs(src, p, m, i + 1);
    }
}

proof fn lemma_line_end_in(src: Seq<u8>, q: int, n: int, i: int)
    requires
        0 <= q,
        0 <= i <= n,
        q + n < src.len(),
        forall|j: int| q <= j < q + n ==> !is_line_break(#[trigger] src[j]),
        src[q + n] == 10u8,
    ensures
        line_end(src, q + i) == q + n,
    decreases n - i,
{
    if i < n {
        lemma_line_end_in(src, q, n, i + 1);
    }
}

proof fn lemma_blank_end_local(src: Seq<u8>, a: int, r: Seq<u8>, j: int)
    requires
        0 <= a,
        a + r.len() <= src.len(),
        src.subrange(a, a + r.len()) == r,
        0 <= j <= r.len(),
        blank_end(r, j) < r.len(),
    ensures
        blank_end(src, a + j) == a + blank_end(r, j),
    decreases r.len() - j,
{
    assert(src[a + j] == r[j]) by {
        assert(src.subrange(a, a + r.len())[j] == src[a + j]);
    }
    if is_blank(r[j]) {
        lemma_blank_end_local(src, a, r, j + 1);
    }
}

proof fn lemma_string_scan_local(src: Seq<u8>, a: int, r: Seq<u8>, i: int, q: u8)
    requires
        0 <= a,
        a + r.len() <= src.len(),
        src.subrange(a, a + r.len()) == r,
        0 <= i,
        string_scan(r, i, q) is Closed,
    ensures
        string_scan(src, a + i, q) == StrScan::Closed(a + string_scan(r, i, q)->Closed_0),
    decreases r.len() - i,
{
    assert(i < r.len());
    assert(src[a + i] == r[i]) by {
        assert(src.subrange(a, a + r.len())[i] == src[a + i]);
    }
    if r[i] == q {
    } else if r[i] == 92u8 {
        assert(src[a + i + 1] == r[i + 1]) by {
            assert(src.subrange(a, a + r.len())[i + 1] == src[a + i + 1]);
        }
        if is_escape_code(r[i + 1], q) {
            lemma_string_scan_local(src, a, r, i + 2, q);
        } else {
            let j = blank_end(r, i + 2);
            lemma_blank_end_bounds_in(r, i + 2);
            assert(is_line_break(r[i + 1]));
            assert(string_scan(r, i, q) == string_scan(r, j, q));
            assert(j < r.len());
            lemma_blank_end_local(src, a, r, i + 2);
            lemma_string_scan_local(src, a, r, j, q);
        }
    } else {
        lemma_string_scan_local(src, a, r, i + 1, q);
    }
}

proof fn lemma_blank_end_bounds_in(src: Seq<u8>, i: int)
    requires
        0 <= i <= src.len(),
    ensures
        i <= blank_end(src, i) <= src.len(),
    decreases src.len() - i,
{
    if i < src.len() && is_blank(src[i]) {
        lemma_blank_end_bounds_in(src, i + 1);
    }
}


/// `x` is the start `p` of a line, or the line break just before it.
pub open spec fn at_line(src: Seq<u8>, x: int, p: int) -> bool {
    x == p || (x == p - 1 && 1 <= p <= src.len() && src[p - 1] == 10u8)
}

/// The quote bytes around the printed key of `n`.
pub open spec fn quote_bytes(n: Node) -> Seq<u8> {
    match n.quotes {
        Some(q) => seq![q.spec_byte()],
        None => seq![],
    }
}

proof fn lemma_line_bytes(n: Node, depth: nat)
    requires
        depth >= 1,
    ensures
        encode_utf8(pp_line(n, depth)) == Seq::new((depth - 1) as nat, |i: int| 9u8) + quote_bytes(n)
            + encode_utf8(n.key) + quote_bytes(n) + seq![10u8],
{
    let quote: Seq<char> = match n.quotes {
        Some(q) => seq![q.spec_byte() as char],
        None => seq![],
    };
    let tabs = Seq::new((depth - 1) as nat, |i: int| '\t');
    let nl = seq!['\n'];
    assert(pp_line(n, depth) == tabs + quote + n.key + quote + nl);
    lemma_encode_concat(tabs + quote + n.key + quote, nl);
    lemma_encode_concat(tabs + quote + n.key, quote);
    lemma_encode_concat(tabs + quote, n.key);
    lemma_encode_concat(tabs, quote);
    assert(is_ascii_chars(tabs));
    assert(is_ascii_chars(quote)) by {
        if let Some(q) = n.quotes {
            assert(q.spec_byte() == 39u8 || q.spec_byte() == 34u8);
        }
    }
    assert(is_ascii_chars(nl));
    is_ascii_chars_encode_utf8(tabs);
    is_ascii_chars_encode_utf8(quote);
    is_ascii_chars_encode_utf8(nl);
    assert(encode_utf8(tabs) =~= Seq::new((depth - 1) as nat, |i: int| 9u8));
    assert(encode_utf8(quote) =~= quote_bytes(n)) by {
        if let Some(q) = n.quotes {
            assert(q.spec_byte() == 39u8 || q.spec_byte() == 34u8);
            assert((q.spec_byte() as char) as u8 == q.spec_byte());
        }
    }
    assert(encode_utf8(nl) =~= seq![10u8]);
}

proof fn lemma_content_plain(src: Seq<u8>, q: int, kb: Seq<u8>)
    requires
        0 <= q,
        q + kb.len() < src.len(),
        src.subrange(q, q + kb.len()) == kb,
        src[q + kb.len()] == 10u8,
        kb.len() > 0,
        !is_quote(kb[0]),
        forall|i: int| 0 <= i < kb.len() ==> !is_line_break(#[trigger] kb[i]),
    ensures
        content_step(src, q) == Ok::<(TokenSpec, int), crate::error::NcclError>(
            (
                TokenSpec {
                    kind: TokenKind::Value,
                    start: q,
                    end: q + kb.len(),
                    span: crate::scanner::span_at(src, q),
                },
                q + kb.len(),
            ),
        ),
{
    assert forall|j: int| q <= j < q + kb.len() implies !is_line_break(#[trigger] src[j]) by {
        assert(src.subrange(q, q + kb.len())[j - q] == src[j]);
    }
    assert(src[q] == kb[0]) by {
        assert(src.subrange(q, q + kb.len())[0] == src[q]);
    }
    lemma_line_end_in(src, q, kb.len() as int, 0);
    assert(line_end(src, q + 0) == q + kb.len());
}

proof fn lemma_content_quoted(src: Seq<u8>, q: int, kb: Seq<u8>, qq: QuoteKind)
    requires
        0 <= q,
        q + kb.len() + 2 < src.len(),
        src[q] == qq.spec_byte(),
        src.subrange(q + 1, q + 2 + kb.len()) == kb.push(qq.spec_byte()),
        src[q + kb.len() + 2] == 10u8,
        string_scan(kb.push(qq.spec_byte()), 0, qq.spec_byte()) == StrScan::Closed(kb.len() as int),
    ensures
        content_step(src, q) == Ok::<(TokenSpec, int), crate::error::NcclError>(
            (
                TokenSpec {
                    kind: TokenKind::QuotedValue(qq),
                    start: q + 1,
                    end: q + 1 + kb.len(),
                    span: crate::scanner::span_at(src, q),
                },
                q + kb.len() + 3,
            ),
        ),
{
    let r = kb.push(qq.spec_byte());
    lemma_string_scan_local(src, q + 1, r, 0, qq.spec_byte());
    let e = q + 1 + kb.len();
    assert(string_scan(src, q + 1 + 0, qq.spec_byte()) == StrScan::Closed(e));
    assert(blank_end(src, e + 1) == e + 1);
    assert(qq.spec_byte() == 39u8 || qq.spec_byte() == 34u8);
    assert(crate::scanner::quote_kind_of(qq.spec_byte()) == qq);
}

#[verifier::rlimit(80)]
proof fn lemma_scan_line(src: Seq<u8>, x: int, p: int, n: Node, depth: nat) -> (fin: int)
    requires
        1 <= depth < usize::MAX,
        printable_key(n, depth),
        0 <= p,
        p + encode_utf8(pp_line(n, depth)).len() <= src.len(),
        src.subrange(p, p + encode_utf8(pp_line(n, depth)).len()) == encode_utf8(pp_line(n, depth)),
        at_line(src, x, p),
    ensures
        at_line(src, fin, p + encode_utf8(pp_line(n, depth)).len()),
        scans_to(src, x, fin, indent_toks(depth) + seq![Tok::Key(n.quotes, n.key)]),
{
    lemma_line_bytes(n, depth);
    let line = encode_utf8(pp_line(n, depth));
    let m = depth - 1;
    let kb = encode_utf8(n.key);
    let qb = quote_bytes(n);
    let tabs = Seq::new(m as nat, |i: int| 9u8);
    assert(line == tabs + qb + kb + qb + seq![10u8]);
    assert forall|j: int| 0 <= j < line.len() implies src[p + j] == #[trigger] line[j] by {
        assert(src.subrange(p, p + line.len())[j] == src[p + j]);
    }
    let q = p + m;
    let last = p + line.len() - 1;
    assert(line[line.len() - 1] == 10u8);
    assert(src[last] == 10u8);
    let c0 = line[m];
    assert(src[q] == c0);
    if n.quotes is Some {
        let qq = n.quotes->Some_0;
        assert(qq.spec_byte() == 39u8 || qq.spec_byte() == 34u8);
        assert(c0 == qq.spec_byte());
        assert(src.subrange(q + 1, q + 2 + kb.len()) =~= kb.push(qq.spec_byte())) by {
            assert forall|j: int| 0 <= j < kb.len() + 1 implies src.subrange(
                q + 1,
                q + 2 + kb.len(),
            )[j] == kb.push(qq.spec_byte())[j] by {
                assert(line[m + 1 + j] == kb.push(qq.spec_byte())[j]);
            }
        }
        assert(src.subrange(q + 1, q + 1 + kb.len()) =~= kb) by {
            assert forall|j: int| 0 <= j < kb.len() implies src.subrange(q + 1, q + 1 + kb.len())[j]
                == kb[j] by {
                assert(line[m + 1 + j] == kb[j]);
            }
        }
        lemma_content_quoted(src, q, kb, qq);
    } else {
        assert(c0 == kb[0]);
        assert(src.subrange(q, q + kb.len()) =~= kb) by {
            assert forall|j: int| 0 <= j < kb.len() implies src.subrange(q, q + kb.len())[j]
                == kb[j] by {
                assert(line[m + j] == kb[j]);
            }
        }
        lemma_content_plain(src, q, kb);
    }
    assert(c0 != 9u8 && c0 != 35u8 && !is_line_break(c0));
    if m > 0 {
        assert forall|j: int| p <= j < p + m implies #[trigger] src[j] == 9u8 by {
            assert(line[j - p] == 9u8);
        }
        lemma_run_of_tabs(src, p, m, 0);
        assert(run_end(src, p + 0, 9u8) == q);
    } else {
        assert(c0 != 32u8);
    }
    assert(token_start(src, p) == p);
    assert(token_start(src, x) == p);
    let step = scan_step(src, x);
    assert(step == scan_step(src, p));
    let fin = if n.quotes is Some {
        q + kb.len() + 3
    } else {
        q + kb.len()
    };
    assert(step is Ok);
    let ts = step->Ok_0.0;
    assert(step->Ok_0.1 == fin);
    assert(!(ts[0].kind is Eof));
    assert(x < fin <= src.len());
    let xs = indent_toks(depth) + seq![Tok::Key(n.quotes, n.key)];
    assert(ts.len() == xs.len());
    assert(decode_utf8(kb) == n.key);
    assert forall|i: int| 0 <= i < xs.len() implies tok_is(src, #[trigger] ts[i], xs[i]) by {
        if i == xs.len() - 1 {
            assert(xs[i] == Tok::Key(n.quotes, n.key));
            assert(lexeme_text(src, ts[i]) == decode_utf8(kb));
        }
    }
    let a = scan_from(src, x);
    let b = scan_from(src, fin);
    assert(a.0 == ts + b.0);
    assert(a.0.subrange(xs.len() as int, a.0.len() as int) =~= b.0);
    assert forall|i: int| 0 <= i < xs.len() implies tok_is(src, #[trigger] a.0[i], xs[i]) by {
        assert(a.0[i] == ts[i]);
    }
    fin
}


proof fn lemma_pp_all_front(cs: Seq<Node>, depth: nat)
    requires
        cs.len() > 0,
    ensures
        pp_all(cs, depth) == pp(cs[0], depth) + pp_all(cs.subrange(1, cs.len() as int), depth),
    decreases cs.len(),
{
    let rest = cs.subrange(1, cs.len() as int);
    if cs.len() == 1 {
        assert(cs.drop_last() =~= Seq::<Node>::empty());
        assert(rest =~= Seq::<Node>::empty());
        assert(pp_all(cs, depth) == pp_all(cs.drop_last(), depth) + pp(cs.last(), depth));
        assert(pp_all(cs, depth) =~= pp(cs[0], depth) + pp_all(rest, depth));
    } else {
        let dl = cs.drop_last();
        lemma_pp_all_front(dl, depth);
        assert(dl[0] == cs[0]);
        assert(rest.drop_last() =~= dl.subrange(1, dl.len() as int));
        assert(rest.last() == cs.last());
        assert(pp_all(rest, depth) == pp_all(rest.drop_last(), depth) + pp(rest.last(), depth));
        assert(pp_all(cs, depth) == pp_all(dl, depth) + pp(cs.last(), depth));
        assert(pp_all(cs, depth) =~= pp(cs[0], depth) + pp_all(rest, depth));
    }
}

proof fn lemma_split_slice(src: Seq<u8>, p: int, a: Seq<u8>, b: Seq<u8>)
    requires
        0 <= p,
        p + a.len() + b.len() <= src.len(),
        src.subrange(p, p + (a + b).len()) == a + b,
    ensures
        src.subrange(p, p + a.len()) == a,
        src.subrange(p + a.len(), p + a.len() + b.len()) == b,
{
    assert forall|j: int| 0 <= j < a.len() implies src.subrange(p, p + a.len())[j] == a[j] by {
        assert(src.subrange(p, p + (a + b).len())[j] == (a + b)[j]);
    }
    assert(src.subrange(p, p + a.len()) =~= a);
    assert forall|j: int| 0 <= j < b.len() implies src.subrange(
        p + a.len(),
        p + a.len() + b.len(),
    )[j] == b[j] by {
        assert(src.subrange(p, p + (a + b).len())[a.len() + j] == (a + b)[a.len() + j]);
        assert(src.subrange(p, p + (a + b).len())[a.len() + j] == src[p + a.len() + j]);
        assert(src.subrange(p + a.len(), p + a.len() + b.len())[j] == src[p + a.len() + j]);
        assert((a + b)[a.len() + j] == b[j]);
    }
    assert(src.subrange(p + a.len(), p + a.len() + b.len()) =~= b);
}

proof fn lemma_scan_node(src: Seq<u8>, x: int, p: int, n: Node, depth: nat) -> (fin: int)
    requires
        1 <= depth < usize::MAX,
        depth_below(n, (usize::MAX - depth) as nat),
        printable(n, depth),
        0 <= p,
        p + encode_utf8(pp(n, depth)).len() <= src.len(),
        src.subrange(p, p + encode_utf8(pp(n, depth)).len()) == encode_utf8(pp(n, depth)),
        at_line(src, x, p),
    ensures
        at_line(src, fin, p + encode_utf8(pp(n, depth)).len()),
        scans_to(src, x, fin, indent_toks(depth) + node_toks(n, depth)),
    decreases n, 1int,
{
    let line = pp_line(n, depth);
    let below = pp_all(n.children, depth + 1);
    assert(pp(n, depth) == line + below);
    lemma_encode_concat(line, below);
    let lb = encode_utf8(line);
    let bb = encode_utf8(below);
    lemma_split_slice(src, p, lb, bb);
    let f1 = lemma_scan_line(src, x, p, n, depth);
    if n.children.len() > 0 {
        assert(depth_below(n.children[0], (usize::MAX - depth - 1) as nat));
    }
    assert forall|i: int| 0 <= i < n.children.len() implies depth_below(
        #[trigger] n.children[i],
        (usize::MAX - (depth + 1)) as nat,
    ) && printable(n.children[i], depth + 1) by {}
    let f2 = if n.children.len() > 0 {
        lemma_scan_kids(src, f1, p + lb.len(), n.children, depth + 1)
    } else {
        assert(below =~= Seq::<char>::empty());
        assert(bb.len() == 0);
        let a = scan_from(src, f1);
        assert(a.0.subrange(0, a.0.len() as int) =~= a.0);
        assert(scans_to(src, f1, f1, seq![]));
        assert(kids_toks(n.children, depth + 1) =~= seq![]);
        f1
    };
    let xs = indent_toks(depth) + seq![Tok::Key(n.quotes, n.key)];
    let ys = kids_toks(n.children, depth + 1);
    lemma_scans_to_trans(src, x, f1, f2, xs, ys);
    assert(xs + ys =~= indent_toks(depth) + node_toks(n, depth));
    f2
}

proof fn lemma_scan_kids(src: Seq<u8>, x: int, p: int, cs: Seq<Node>, depth: nat) -> (fin: int)
    requires
        1 <= depth < usize::MAX,
        forall|i: int|
            0 <= i < cs.len() ==> depth_below(#[trigger] cs[i], (usize::MAX - depth) as nat),
        forall|i: int| 0 <= i < cs.len() ==> printable(#[trigger] cs[i], depth),
        0 <= p,
        p + encode_utf8(pp_all(cs, depth)).len() <= src.len(),
        src.subrange(p, p + encode_utf8(pp_all(cs, depth)).len()) == encode_utf8(pp_all(cs, depth)),
        at_line(src, x, p),
    ensures
        at_line(src, fin, p + encode_utf8(pp_all(cs, depth)).len()),
        scans_to(src, x, fin, kids_toks(cs, depth)),
    decreases cs, 0int,
{
    if cs.len() == 0 {
        let a = scan_from(src, x);
        assert(a.0.subrange(0, a.0.len() as int) =~= a.0);
        assert(kids_toks(cs, depth) =~= seq![]);
        assert(pp_all(cs, depth) =~= Seq::<char>::empty());
        x
    } else {
        let rest = cs.subrange(1, cs.len() as int);
        lemma_pp_all_front(cs, depth);
        lemma_encode_concat(pp(cs[0], depth), pp_all(rest, depth));
        let hb = encode_utf8(pp(cs[0], depth));
        let rb = encode_utf8(pp_all(rest, depth));
        lemma_split_slice(src, p, hb, rb);
        let f1 = lemma_scan_node(src, x, p, cs[0], depth);
        assert forall|i: int| 0 <= i < rest.len() implies depth_below(
            #[trigger] rest[i],
            (usize::MAX - depth) as nat,
        ) && printable(rest[i], depth) by {
            assert(rest[i] == cs[i + 1]);
        }
        let f2 = lemma_scan_kids(src, f1, p + hb.len(), rest, depth);
        let xs = indent_toks(depth) + node_toks(cs[0], depth);
        let ys = kids_toks(rest, depth);
        lemma_scans_to_trans(src, x, f1, f2, xs, ys);
        assert(kids_toks(cs, depth) == xs + ys);
        f2
    }
}

/// Round trip: printing a tree whose keys print unambiguously and parsing
/// the text gives a tree with the same keys, the same quoting and the same
/// shape, level by level (spans aside).
pub proof fn lemma_round_trip(t: Node)
    requires
        tree_wf(t),
        printable(t, 0),
        depth_below(t, usize::MAX as nat),
    ensures
        parse_text(encode_utf8(pp(t, 0)), empty_root()) is Ok,
        same_tree(
            parse_text(encode_utf8(pp(t, 0)), empty_root())->Ok_0,
            Node { key: empty_root().key, quotes: None, ..t },
        ),
{
    let src = encode_utf8(pp(t, 0));
    let cs = t.children;
    assert(pp(t, 0) =~= pp_all(cs, 1));
    assert(src.subrange(0, src.len() as int) =~= src);
    assert forall|i: int| 0 <= i < cs.len() implies depth_below(
        #[trigger] cs[i],
        (usize::MAX - 1) as nat,
    ) && printable(cs[i], 1) by {}
    let fin = lemma_scan_kids(src, 0, 0, cs, 1);
    let toks = kids_toks(cs, 1);
    let all = scan_from(src, 0);
    let tail = scan_from(src, fin);
    if fin != src.len() {
        assert(src[fin] == 10u8);
        assert(token_start(src, fin + 1) == src.len());
    }
    assert(token_start(src, fin) == src.len());
    assert(tail.0.len() == 0);
    assert(tail.1 is Ok && tail.1->Ok_0.kind is Eof);
    assert forall|i: int| 0 <= i < toks.len() implies {
        &&& #[trigger] token_at(src, 0 + i) is Ok
        &&& tok_is(src, token_at(src, 0 + i)->Ok_0, toks[i])
    } by {
        assert(token_at(src, 0 + i) == Ok::<TokenSpec, crate::error::NcclError>(all.0[i]));
    }
    lemma_parse_printed_stream(src, t);
}


/// What the scanner guarantees of the lexeme of token `t`: it is cut at
/// character boundaries; an unquoted one stays on its line and starts with
/// neither a comment nor a quote, and, when no indentation comes before it
/// (`first`), with text; a quoted one closes exactly at its end.
pub open spec fn token_ok(src: Seq<u8>, t: TokenSpec, first: bool) -> bool {
    let kb = src.subrange(t.start, t.end);
    &&& 0 <= t.start <= t.end <= src.len()
    &&& cut_point(src, t.start)
    &&& cut_point(src, t.end)
    &&& match t.kind {
        TokenKind::Value => {
            &&& forall|i: int| 0 <= i < kb.len() ==> !is_line_break(#[trigger] kb[i])
            &&& kb.len() > 0
            &&& kb[0] != 35u8 && !is_quote(kb[0])
            &&& first ==> !is_blank(kb[0])
        },
        TokenKind::QuotedValue(q) => string_scan(kb.push(q.spec_byte()), 0, q.spec_byte())
            == StrScan::Closed(kb.len() as int),
        _ => true,
    }
}

pub open spec fn is_indent(k: TokenKind) -> bool {
    k is Tabs || k is Spaces
}

/// Every token of `ts` is as `token_ok` says, `first` when it does not
/// follow an indentation token.
pub open spec fn tokens_ok(src: Seq<u8>, ts: Seq<TokenSpec>) -> bool {
    forall|i: int|
        0 <= i < ts.len() ==> token_ok(src, #[trigger] ts[i], i == 0 || !is_indent(ts[i - 1].kind))
}

proof fn lemma_token_start_facts(src: Seq<u8>, p: int)
    requires
        0 <= p <= src.len(),
        cut_point(src, p),
    ensures
        p <= token_start(src, p) <= src.len(),
        cut_point(src, token_start(src, p)),
        token_start(src, p) < src.len() ==> !is_line_break(src[token_start(src, p)])
            && src[token_start(src, p)] != 35u8,
        token_start(src, p) < src.len() && is_blank(src[token_start(src, p)]) ==> {
            let s = token_start(src, p);
            let r = run_end(src, s, src[s]);
            let c = byte_at(src, r);
            r < src.len() && c != 35u8 && !is_line_break(c)
        },
    decreases src.len() - p,
{
    if p < src.len() {
        if is_line_break(src[p]) {
            lemma_token_start_facts(src, p + 1);
        } else if is_blank(src[p]) {
            let r = run_end(src, p, src[p]);
            lemma_run_end_bounds(src, p, src[p]);
            let c = byte_at(src, r);
            if r < src.len() {
                lemma_line_end_bounds(src, r);
            }
            if (r >= src.len() || c == 35u8 || is_line_break(c)) {
                lemma_line_end_bounds(src, r);
                if p < line_end(src, r) <= src.len() {
                    lemma_token_start_facts(src, line_end(src, r));
                }
            }
        } else if src[p] == 35u8 {
            lemma_line_end_bounds(src, p);
            lemma_line_end_bounds(src, p + 1);
            lemma_token_start_facts(src, line_end(src, p));
        }
    }
}

proof fn lemma_line_end_clear(src: Seq<u8>, q: int)
    requires
        0 <= q <= src.len(),
    ensures
        forall|j: int| q <= j < line_end(src, q) ==> !is_line_break(#[trigger] src[j]),
    decreases src.len() - q,
{
    if q < src.len() && !is_line_break(src[q]) {
        lemma_line_end_clear(src, q + 1);
    }
}

proof fn lemma_closed_after(src: Seq<u8>, i: int, q: u8)
    requires
        string_scan(src, i, q) is Closed,
    ensures
        i <= string_scan(src, i, q)->Closed_0 < src.len(),
        src[string_scan(src, i, q)->Closed_0] == q,
    decreases src.len() - i,
{
    if 0 <= i < src.len() && src[i] != q {
        if src[i] == 92u8 {
            if i + 1 < src.len() {
                if is_escape_code(src[i + 1], q) {
                    lemma_closed_after(src, i + 2, q);
                } else {
                    lemma_closed_after(src, blank_end(src, i + 2), q);
                }
            }
        } else {
            lemma_closed_after(src, i + 1, q);
        }
    }
}

proof fn lemma_blank_end_stops(r: Seq<u8>, j: int, e: int)
    requires
        0 <= j <= e < r.len(),
        !is_blank(r[e]),
    ensures
        blank_end(r, j) <= e,
    decreases e - j,
{
    if j < e && is_blank(r[j]) {
        lemma_blank_end_stops(r, j + 1, e);
    }
}

/// A quoted string that the scanner closes, closes the same way on its own.
proof fn lemma_string_scan_alone(src: Seq<u8>, a: int, i: int, q: u8)
    requires
        0 <= a <= i,
        string_scan(src, i, q) is Closed,
        !is_blank(q),
    ensures
        ({
            let e = string_scan(src, i, q)->Closed_0;
            string_scan(src.subrange(a, e + 1), i - a, q) == StrScan::Closed(e - a)
        }),
    decreases src.len() - i,
{
    let e = string_scan(src, i, q)->Closed_0;
    lemma_closed_after(src, i, q);
    let r = src.subrange(a, e + 1);
    assert(r[i - a] == src[i]);
    if src[i] == q {
    } else if src[i] == 92u8 {
        assert(r[i - a + 1] == src[i + 1]);
        if is_escape_code(src[i + 1], q) {
            lemma_closed_after(src, i + 2, q);
            lemma_string_scan_alone(src, a, i + 2, q);
        } else {
            let j = blank_end(src, i + 2);
            lemma_closed_after(src, j, q);
            lemma_string_scan_alone(src, a, j, q);
            lemma_blank_end_stops(r, i + 2 - a, e - a);
            lemma_blank_end_local(src, a, r, i + 2 - a);
        }
    } else {
        lemma_closed_after(src, i + 1, q);
        lemma_string_scan_alone(src, a, i + 1, q);
    }
}


proof fn lemma_content_facts(src: Seq<u8>, q: int, first: bool)
    requires
        0 <= q < src.len(),
        cut_point(src, q),
        src[q] != 35u8,
        !is_line_break(src[q]),
        first ==> !is_blank(src[q]),
    ensures
        content_step(src, q) is Ok ==> ({
            let t = content_step(src, q)->Ok_0.0;
            let np = content_step(src, q)->Ok_0.1;
            &&& token_ok(src, t, first)
            &&& 0 <= np <= src.len()
            &&& cut_point(src, np)
        }),
{
    let c = byte_at(src, q);
    if is_quote(c) {
        if let StrScan::Closed(e) = string_scan(src, q + 1, c) {
            lemma_closed_after(src, q + 1, c);
            lemma_string_scan_alone(src, q + 1, q + 1, c);
            let kb = src.subrange(q + 1, e);
            assert(src.subrange(q + 1, e + 1) =~= kb.push(c));
            assert(c == 39u8 || c == 34u8);
            assert(crate::scanner::quote_kind_of(c).spec_byte() == c);
            let t = blank_end(src, e + 1);
            lemma_blank_end_bounds(src, e + 1);
            if t < src.len() && src[t] == 35u8 {
                lemma_line_end_bounds(src, t);
            }
        }
    } else {
        lemma_line_end_bounds(src, q);
        lemma_line_end_clear(src, q);
        let le = line_end(src, q);
        let kb = src.subrange(q, le);
        assert forall|i: int| 0 <= i < kb.len() implies !is_line_break(#[trigger] kb[i]) by {
            assert(kb[i] == src[q + i]);
        }
        if q < src.len() && !is_line_break(src[q]) {
            lemma_line_end_bounds(src, q + 1);
        }
        if kb.len() > 0 {
            assert(kb[0] == src[q]);
        }
    }
}

/// Every token that scanning from a step boundary produces is as
/// `token_ok` says.
#[verifier::rlimit(60)]
proof fn lemma_scan_tokens_ok(src: Seq<u8>, p: int)
    requires
        0 <= p <= src.len(),
        cut_point(src, p),
    ensures
        tokens_ok(src, scan_from(src, p).0),
    decreases src.len() - p,
{
    lemma_token_start_facts(src, p);
    let s = token_start(src, p);
    let c = byte_at(src, s);
    if s < src.len() {
        if is_blank(c) {
            let r = run_end(src, s, c);
            lemma_run_end_bounds(src, s + 1, c);
            assert(cut_point(src, r)) by {
                assert(src[r - 1] == c);
            }
            lemma_content_facts(src, r, false);
        } else {
            lemma_content_facts(src, s, true);
        }
    }
    if let Ok((ts, np)) = scan_step(src, p) {
        if !(ts[0].kind is Eof) && p < np <= src.len() {
            assert forall|i: int| 0 <= i < ts.len() implies token_ok(
                src,
                #[trigger] ts[i],
                i == 0 || !is_indent(ts[i - 1].kind),
            ) by {}
            lemma_scan_tokens_ok(src, np);
            let rest = scan_from(src, np).0;
            let all = ts + rest;
            assert forall|i: int| 0 <= i < all.len() implies token_ok(
                src,
                #[trigger] all[i],
                i == 0 || !is_indent(all[i - 1].kind),
            ) by {
                if i >= ts.len() {
                    let j = i - ts.len();
                    assert(all[i] == rest[j]);
                    if j == 0 {
                        assert(all[i - 1] == ts[ts.len() - 1]);
                        assert(!is_indent(ts[ts.len() - 1].kind));
                    } else {
                        assert(all[i - 1] == rest[j - 1]);
                    }
                } else {
                    assert(all[i] == ts[i]);
                    if i > 0 {
                        assert(all[i - 1] == ts[i - 1]);
                    }
                }
            }
        }
    }
}


/// An unquoted key that starts with a tab.  Such a key can be parsed (after
/// an indentation of spaces) but does not print back under tabs.
pub open spec fn bad_key(n: Node) -> bool {
    let kb = encode_utf8(n.key);
    n.quotes is None && kb.len() > 0 && kb[0] == 9u8
}

/// Every node below `n` (and `n`, unless at depth 0) has a printable key or
/// a bad one.
pub open spec fn clean(n: Node, depth: nat) -> bool
    decreases n,
{
    &&& depth >= 1 && !bad_key(n) ==> printable_key(n, depth)
    &&& depth >= 1 ==> n.key != TOP_LEVEL_KEY@
    &&& forall|i: int| 0 <= i < n.children.len() ==> clean(#[trigger] n.children[i], depth + 1)
}

/// No node below `n` (nor `n`, unless at depth 0) has the root's key.
pub open spec fn sentinel_free(n: Node, depth: nat) -> bool
    decreases n,
{
    &&& depth >= 1 ==> n.key != TOP_LEVEL_KEY@
    &&& forall|i: int|
        0 <= i < n.children.len() ==> sentinel_free(#[trigger] n.children[i], depth + 1)
}

proof fn lemma_clean_sentinel_free(n: Node, depth: nat)
    requires
        clean(n, depth),
    ensures
        sentinel_free(n, depth),
    decreases n,
{
    assert forall|i: int| 0 <= i < n.children.len() implies sentinel_free(
        #[trigger] n.children[i],
        depth + 1,
    ) by {
        lemma_clean_sentinel_free(n.children[i], depth + 1);
    }
}

/// The sentinel as bytes: a single quote, then a double quote.
proof fn lemma_sentinel_bytes()
    ensures
        encode_utf8(TOP_LEVEL_KEY@) == seq![39u8, 34u8],
{
    reveal_strlit("'\"");
    assert(TOP_LEVEL_KEY@ =~= seq!['\'', '"']);
    assert(is_ascii_chars(TOP_LEVEL_KEY@));
    is_ascii_chars_encode_utf8(TOP_LEVEL_KEY@);
    assert(encode_utf8(TOP_LEVEL_KEY@) =~= seq![39u8, 34u8]);
}

/// Parsing text from an empty tree never yields a node, below the root,
/// whose key is the root's: no token holds the sentinel.
pub proof fn lemma_root_key_unreachable(src: Seq<u8>)
    requires
        valid_utf8(src),
        parse_text(src, empty_root()) is Ok,
    ensures
        sentinel_free(parse_text(src, empty_root())->Ok_0, 0),
{
    lemma_parse_top_clean(src, 0, empty_root());
    lemma_clean_sentinel_free(parse_text(src, empty_root())->Ok_0, 0);
}

/// No node below `n` (nor `n`, unless at depth 0) has a bad key.
pub open spec fn no_bad_keys(n: Node, depth: nat) -> bool
    decreases n,
{
    &&& depth >= 1 ==> !bad_key(n)
    &&& forall|i: int| 0 <= i < n.children.len() ==> no_bad_keys(#[trigger] n.children[i], depth + 1)
}

proof fn lemma_clean_printable(n: Node, depth: nat)
    requires
        clean(n, depth),
        no_bad_keys(n, depth),
    ensures
        printable(n, depth),
    decreases n,
{
    assert forall|i: int| 0 <= i < n.children.len() implies printable(
        #[trigger] n.children[i],
        depth + 1,
    ) by {
        lemma_clean_printable(n.children[i], depth + 1);
    }
}

pub open spec fn is_key_kind(k: TokenKind) -> bool {
    k is Value || k is QuotedValue
}

/// The key of a leaf made from a scanned key token prints back, unless it is bad.
proof fn lemma_leaf_clean(src: Seq<u8>, t: TokenSpec, first: bool, depth: nat, span: crate::scanner::Span)
    requires
        valid_utf8(src),
        token_ok(src, t, first),
        is_key_kind(t.kind),
        depth >= 1,
        depth == 1 ==> first,
    ensures
        clean(leaf(lexeme_text(src, t), quotes_of(t.kind), span), depth),
{
    let kb = src.subrange(t.start, t.end);
    crate::scanner::lemma_cut_point_is_char_boundary(src, t.start);
    valid_utf8_split(src, t.start);
    let tail = src.subrange(t.start, src.len() as int);
    assert(cut_point(tail, t.end - t.start));
    crate::scanner::lemma_cut_point_is_char_boundary(tail, t.end - t.start);
    valid_utf8_split(tail, t.end - t.start);
    assert(tail.subrange(0, t.end - t.start) =~= kb);
    assert(valid_utf8(kb));
    assert(encode_utf8(decode_utf8(kb)) == kb);
    let n = leaf(lexeme_text(src, t), quotes_of(t.kind), span);
    assert(encode_utf8(n.key) == kb);
    if let TokenKind::QuotedValue(q) = t.kind {
        assert(n.quotes == Some(q));
    }
    if n.key == TOP_LEVEL_KEY@ {
        lemma_sentinel_bytes();
        assert(kb == seq![39u8, 34u8]);
        if let TokenKind::QuotedValue(q) = t.kind {
            let qb = q.spec_byte();
            let r = kb.push(qb);
            reveal_with_fuel(string_scan, 3);
            assert(r[0] == 39u8 && r[1] == 34u8);
            assert(qb == 39u8 || qb == 34u8);
        }
    }
}

proof fn lemma_token_ok_at(src: Seq<u8>, k: int)
    requires
        0 <= k < token_count(src),
    ensures
        token_at(src, k) is Ok,
        token_ok(
            src,
            token_at(src, k)->Ok_0,
            k == 0 || !is_indent(scan_from(src, 0).0[k - 1].kind),
        ),
{
    lemma_scan_tokens_ok(src, 0);
    assert(cut_point(src, 0));
}

#[verifier::rlimit(60)]
proof fn lemma_parse_key_clean(src: Seq<u8>, k: int, indent: Indent, parent: Node, depth: nat)
    requires
        valid_utf8(src),
        depth >= 1,
        (depth == 1) == (indent is TopLevel),
        clean(parent, (depth - 1) as nat),
        depth == 1 ==> k == 0 || (token_at(src, k - 1) is Ok && is_key_kind(
            token_at(src, k - 1)->Ok_0.kind,
        )),
    ensures
        parse_key(src, k, indent, parent) is Ok ==> ({
            let (p2, k2) = parse_key(src, k, indent, parent)->Ok_0;
            &&& clean(p2, (depth - 1) as nat)
            &&& 1 <= k2 && token_at(src, k2 - 1) is Ok && is_key_kind(token_at(src, k2 - 1)->Ok_0.kind)
        }),
    decreases token_count(src) - k, 1int,
{
    if let Ok(t) = token_at(src, k) {
        if is_key_kind(t.kind) && 0 <= k < token_count(src) {
            let node = start_node(src, parent, t);
            let key = lexeme_text(src, t);
            lemma_token_ok_at(src, k);
            if depth == 1 && k > 0 {
                lemma_token_in_range(src, k - 1);
                assert(token_at(src, k - 1)->Ok_0 == scan_from(src, 0).0[k - 1]);
            }
            if has_key(parent.children, key) {
                lemma_key_index(parent.children, key);
            } else {
                lemma_leaf_clean(
                    src,
                    t,
                    k == 0 || !is_indent(scan_from(src, 0).0[k - 1].kind),
                    depth,
                    t.span,
                );
            }
            assert(clean(node, depth));
            if let Ok(t2) = token_at(src, k + 1) {
                let below = match child_indent(indent, t2.kind) {
                    Some(ci) => parse_below(src, k + 1, ci, t2.kind, node),
                    None => Ok((node, k + 1)),
                };
                if let Some(ci) = child_indent(indent, t2.kind) {
                    lemma_parse_below_clean(src, k + 1, ci, t2.kind, node, depth);
                }
                if let Ok((n2, k2)) = below {
                    lemma_with_child_clean(parent, n2, depth);
                }
            }
        }
    }
}

proof fn lemma_with_child_clean(parent: Node, child: Node, depth: nat)
    requires
        depth >= 1,
        clean(parent, (depth - 1) as nat),
        clean(child, depth),
    ensures
        clean(with_child(parent, child), (depth - 1) as nat),
    decreases child,
{
    let cs = parent.children;
    let p2 = with_child(parent, child);
    if has_key(cs, child.key) {
        let k = key_index(cs, child.key);
        lemma_key_index(cs, child.key);
        assert forall|j: int| 0 <= j < child.children.len() implies clean(
            #[trigger] child.children[j],
            depth + 1,
        ) by {}
        lemma_merged_clean(cs[k], child.children, depth);
    }
    assert forall|i: int| 0 <= i < p2.children.len() implies clean(
        #[trigger] p2.children[i],
        depth,
    ) by {
        if has_key(cs, child.key) {
            if i != key_index(cs, child.key) {
                assert(p2.children[i] == cs[i]);
            }
        } else if i < cs.len() {
            assert(p2.children[i] == cs[i]);
        }
    }
}

proof fn lemma_merged_clean(node: Node, cs: Seq<Node>, depth: nat)
    requires
        depth >= 1,
        clean(node, depth),
        forall|j: int| 0 <= j < cs.len() ==> clean(#[trigger] cs[j], depth + 1),
    ensures
        clean(merged(node, cs), depth),
    decreases cs,
{
    if cs.len() > 0 {
        let dl = cs.drop_last();
        assert forall|j: int| 0 <= j < dl.len() implies clean(#[trigger] dl[j], depth + 1) by {
            assert(dl[j] == cs[j]);
        }
        lemma_merged_clean(node, dl, depth);
        let m = merged(node, dl);
        lemma_with_child_clean(m, cs.last(), depth + 1);
        lemma_merged_keeps(node, dl);
        lemma_with_child_keeps(m, cs.last());
    }
}

proof fn lemma_parse_below_clean(
    src: Seq<u8>,
    k: int,
    indent: Indent,
    kind: TokenKind,
    node: Node,
    depth: nat,
)
    requires
        valid_utf8(src),
        depth >= 1,
        !(indent is TopLevel),
        clean(node, depth),
        1 <= k,
        token_at(src, k - 1) is Ok && is_key_kind(token_at(src, k - 1)->Ok_0.kind),
    ensures
        parse_below(src, k, indent, kind, node) is Ok ==> ({
            let (n2, k2) = parse_below(src, k, indent, kind, node)->Ok_0;
            &&& clean(n2, depth)
            &&& 1 <= k2 && token_at(src, k2 - 1) is Ok && is_key_kind(token_at(src, k2 - 1)->Ok_0.kind)
        }),
    decreases token_count(src) - k, 0int,
{
    if let Ok(t) = token_at(src, k) {
        if t.kind == kind && 0 <= k < token_count(src) {
            lemma_parse_key_clean(src, k + 1, indent, node, depth + 1);
            if let Ok((n2, k2)) = parse_key(src, k + 1, indent, node) {
                if k < k2 <= token_count(src) {
                    lemma_parse_below_clean(src, k2, indent, kind, n2, depth);
                }
            }
        }
    }
}

proof fn lemma_parse_top_clean(src: Seq<u8>, k: int, config: Node)
    requires
        valid_utf8(src),
        clean(config, 0),
        k == 0 || (k >= 1 && token_at(src, k - 1) is Ok && is_key_kind(token_at(src, k - 1)->Ok_0.kind)),
    ensures
        parse_top(src, k, config) is Ok ==> clean(parse_top(src, k, config)->Ok_0, 0),
    decreases token_count(src) - k,
{
    if let Ok(t) = token_at(src, k) {
        if !(t.kind is Eof) && 0 <= k < token_count(src) {
            lemma_parse_key_clean(src, k, Indent::TopLevel, config, 1);
            lemma_parse_key_progress(src, k, Indent::TopLevel, config);
            if let Ok((c2, k2)) = parse_key(src, k, Indent::TopLevel, config) {
                if k < k2 <= token_count(src) {
                    lemma_parse_top_clean(src, k2, c2);
                }
            }
        }
    }
}

/// Round trip: a tree that parsing text gives prints as text that parses
/// back to a tree with the same keys, quoting and shape (spans aside).  It
/// holds unless the tree has an unquoted key that starts with a tab, which
/// parsing accepts after an indentation of spaces but printing, with tabs,
/// cannot reproduce.
pub proof fn lemma_parsed_round_trip(src: Seq<u8>)
    requires
        valid_utf8(src),
        parse_text(src, empty_root()) is Ok,
        no_bad_keys(parse_text(src, empty_root())->Ok_0, 0),
        depth_below(parse_text(src, empty_root())->Ok_0, usize::MAX as nat),
    ensures
        ({
            let t = parse_text(src, empty_root())->Ok_0;
            &&& parse_text(encode_utf8(pp(t, 0)), empty_root()) is Ok
            &&& same_tree(parse_text(encode_utf8(pp(t, 0)), empty_root())->Ok_0, t)
        }),
{
    let t = parse_text(src, empty_root())->Ok_0;
    lemma_parse_top_clean(src, 0, empty_root());
    lemma_clean_printable(t, 0);
    lemma_parse_extends_seed(src, empty_root());
    lemma_parse_keeps_keys_unique(src, empty_root());
    lemma_round_trip(t);
    assert((Node { key: empty_root().key, quotes: None, ..t }) == t);
}

} // verus!
