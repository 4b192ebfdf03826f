//! Properties of parsing that relate several operations of the library.
use vstd::prelude::*;

use crate::config::{
    has_key, key_index, lemma_key_index, lemma_merged_keeps, merged, tree_wf, unique_keys, with_child,
    Node,
};
use crate::parser::{
    child_indent, lemma_parse_key_progress, parse_below, parse_key, parse_text, parse_top, start_node,
    token_count, Indent,
};
use crate::scanner::{lemma_scan_ends_in_eof, scan_from, token_at, TokenKind};

verus! {

/// `a` is `b` with children added: same key, quoting and span, and at
/// every level the children of `b` come first, in order, each grown.
pub open spec fn grows(a: Node, b: Node) -> bool
    decreases b,
{
    &&& a.key == b.key
    &&& a.quotes == b.quotes
    &&& a.span == b.span
    &&& b.children.len() <= a.children.len()
    &&& forall|i: int|
        0 <= i < b.children.len() ==> grows(#[trigger] a.children[i], b.children[i])
}

proof fn lemma_grows_refl(n: Node)
    ensures
        grows(n, n),
    decreases n,
{
    assert forall|i: int| 0 <= i < n.children.len() implies grows(
        #[trigger] n.children[i],
        n.children[i],
    ) by {
        lemma_grows_refl(n.children[i]);
    }
}

proof fn lemma_grows_trans(a: Node, b: Node, c: Node)
    requires
        grows(a, b),
        grows(b, c),
    ensures
        grows(a, c),
    decreases c,
{
    assert forall|i: int| 0 <= i < c.children.len() implies grows(
        #[trigger] a.children[i],
        c.children[i],
    ) by {
        lemma_grows_trans(a.children[i], b.children[i], c.children[i]);
    }
}

/// Inserting a child only adds: the parent grows.
pub proof fn lemma_with_child_grows(parent: Node, child: Node)
    ensures
        grows(with_child(parent, child), parent),
    decreases child,
{
    let cs = parent.children;
    let r = with_child(parent, child);
    if has_key(cs, child.key) {
        let k = key_index(cs, child.key);
        lemma_key_index(cs, child.key);
        lemma_merged_grows(cs[k], child.children);
        assert forall|i: int| 0 <= i < cs.len() implies grows(
            #[trigger] r.children[i],
            cs[i],
        ) by {
            if i != k {
                lemma_grows_refl(cs[i]);
            }
        }
    } else {
        assert forall|i: int| 0 <= i < cs.len() implies grows(
            #[trigger] r.children[i],
            cs[i],
        ) by {
            assert(r.children[i] == cs[i]);
            lemma_grows_refl(cs[i]);
        }
    }
}

/// Inserting children one after the other only adds: the node grows.
pub proof fn lemma_merged_grows(node: Node, cs: Seq<Node>)
    ensures
        grows(merged(node, cs), node),
    decreases cs,
{
    if cs.len() == 0 {
        lemma_grows_refl(node);
    } else {
        let m = merged(node, cs.drop_last());
        lemma_merged_grows(node, cs.drop_last());
        lemma_with_child_grows(m, cs.last());
        lemma_grows_trans(merged(node, cs), m, node);
    }
}

/// Inserting a tree whose siblings have distinct keys keeps them distinct.
pub proof fn lemma_with_child_wf(parent: Node, child: Node)
    requires
        tree_wf(parent),
        tree_wf(child),
    ensures
        tree_wf(with_child(parent, child)),
    decreases child,
{
    let cs = parent.children;
    let r = with_child(parent, child);
    if has_key(cs, child.key) {
        let k = key_index(cs, child.key);
        lemma_key_index(cs, child.key);
        assert forall|j: int| 0 <= j < child.children.len() implies tree_wf(
            #[trigger] child.children[j],
        ) by {}
        lemma_merged_wf(cs[k], child.children);
        lemma_merged_keeps(cs[k], child.children);
        assert(r.children[k].key == cs[k].key);
        assert(unique_keys(r.children)) by {
            assert forall|i: int, j: int| 0 <= i < j < r.children.len() implies r.children[i].key
                != r.children[j].key by {
                if i != k {
                    assert(r.children[i] == cs[i]);
                }
                if j != k {
                    assert(r.children[j] == cs[j]);
                }
            }
        }
        assert forall|i: int| 0 <= i < r.children.len() implies tree_wf(
            #[trigger] r.children[i],
        ) by {
            if i != k {
                assert(r.children[i] == cs[i]);
            }
        }
    } else {
        assert(unique_keys(r.children));
        assert forall|i: int| 0 <= i < r.children.len() implies tree_wf(
            #[trigger] r.children[i],
        ) by {
            if i < cs.len() {
                assert(r.children[i] == cs[i]);
            }
        }
    }
}

/// Inserting trees whose siblings have distinct keys keeps them distinct.
pub proof fn lemma_merged_wf(node: Node, cs: Seq<Node>)
    requires
        tree_wf(node),
        forall|j: int| 0 <= j < cs.len() ==> tree_wf(#[trigger] cs[j]),
    ensures
        tree_wf(merged(node, cs)),
    decreases cs,
{
    if cs.len() > 0 {
        let dl = cs.drop_last();
        assert forall|j: int| 0 <= j < dl.len() implies tree_wf(#[trigger] dl[j]) by {
            assert(dl[j] == cs[j]);
        }
        lemma_merged_wf(node, dl);
        lemma_with_child_wf(merged(node, dl), cs.last());
    }
}

/// Merging a grown version of a child, or a new child, into `parent`
/// grows `parent` and keeps its keys distinct.
proof fn lemma_with_child(parent: Node, old_child: Node, child: Node)
    requires
        tree_wf(parent) ==> tree_wf(child),
    ensures
        grows(with_child(parent, child), parent),
        tree_wf(parent) ==> tree_wf(with_child(parent, child)),
{
    lemma_with_child_grows(parent, child);
    if tree_wf(parent) {
        lemma_with_child_wf(parent, child);
    }
}

proof fn lemma_start_node(src: Seq<u8>, parent: Node, t: crate::scanner::TokenSpec)
    ensures
        ({
            let node = start_node(src, parent, t);
            let cs = parent.children;
            &&& has_key(cs, node.key) ==> node == cs[key_index(cs, node.key)]
            &&& tree_wf(parent) ==> tree_wf(node)
        }),
{
    let node = start_node(src, parent, t);
    let cs = parent.children;
    let key = crate::parser::lexeme_text(src, t);
    if has_key(cs, key) {
        lemma_key_index(cs, key);
    } else {
        assert(!has_key(cs, node.key));
    }
}

#[verifier::rlimit(50)]
proof fn lemma_parse_key_grows(src: Seq<u8>, k: int, indent: Indent, parent: Node)
    ensures
        parse_key(src, k, indent, parent) is Ok ==> ({
            let p2 = parse_key(src, k, indent, parent)->Ok_0.0;
            &&& grows(p2, parent)
            &&& tree_wf(parent) ==> tree_wf(p2)
        }),
    decreases token_count(src) - k, 1int,
{
    if let Ok(t) = token_at(src, k) {
        if (t.kind is Value || t.kind is QuotedValue) && 0 <= k < token_count(src) {
            let node = start_node(src, parent, t);
            if let Ok(t2) = token_at(src, k + 1) {
                let below = match child_indent(indent, t2.kind) {
                    Some(ci) => parse_below(src, k + 1, ci, t2.kind, node),
                    None => Ok((node, k + 1)),
                };
                if let Ok((n2, k2)) = below {
                    match child_indent(indent, t2.kind) {
                        Some(ci) => lemma_parse_below_grows(src, k + 1, ci, t2.kind, node),
                        None => lemma_grows_refl(node),
                    }
                    lemma_start_node(src, parent, t);
                    lemma_with_child(parent, node, n2);
                }
            }
        }
    }
}

proof fn lemma_parse_below_grows(
    src: Seq<u8>,
    k: int,
    indent: Indent,
    kind: TokenKind,
    node: Node,
)
    ensures
        parse_below(src, k, indent, kind, node) is Ok ==> ({
            let n2 = parse_below(src, k, indent, kind, node)->Ok_0.0;
            &&& grows(n2, node)
            &&& tree_wf(node) ==> tree_wf(n2)
        }),
    decreases token_count(src) - k, 0int,
{
    if let Ok(t) = token_at(src, k) {
        if t.kind == kind && 0 <= k < token_count(src) {
            lemma_parse_key_grows(src, k + 1, indent, node);
            if let Ok((n2, k2)) = parse_key(src, k + 1, indent, node) {
                if k < k2 <= token_count(src) {
                    lemma_parse_below_grows(src, k2, indent, kind, n2);
                    if parse_below(src, k2, indent, kind, n2) is Ok {
                        lemma_grows_trans(
                            parse_below(src, k2, indent, kind, n2)->Ok_0.0,
                            n2,
                            node,
                        );
                    }
                }
            }
        } else {
            lemma_grows_refl(node);
        }
    }
}

proof fn lemma_parse_top_grows(src: Seq<u8>, k: int, config: Node)
    ensures
        parse_top(src, k, config) is Ok ==> ({
            let c2 = parse_top(src, k, config)->Ok_0;
            &&& grows(c2, config)
            &&& tree_wf(config) ==> tree_wf(c2)
        }),
    decreases token_count(src) - k,
{
    if let Ok(t) = token_at(src, k) {
        if t.kind is Eof {
            lemma_grows_refl(config);
        } else if 0 <= k < token_count(src) {
            lemma_parse_key_grows(src, k, Indent::TopLevel, config);
            lemma_parse_key_progress(src, k, Indent::TopLevel, config);
            if let Ok((c2, k2)) = parse_key(src, k, Indent::TopLevel, config) {
                if k < k2 <= token_count(src) {
                    lemma_parse_top_grows(src, k2, c2);
                    if parse_top(src, k2, c2) is Ok {
                        lemma_grows_trans(parse_top(src, k2, c2)->Ok_0, c2, config);
                    }
                }
            }
        }
    }
}

/// Inheritance: parsing text on top of a tree keeps every node of that tree
/// where it was, with its key, and adds new children only after the
/// existing ones, at every level.  So wherever the seed has a first value,
/// the result has the same first value.
pub proof fn lemma_parse_extends_seed(src: Seq<u8>, seed: Node)
    ensures
        parse_text(src, seed) is Ok ==> ({
            let r = parse_text(src, seed)->Ok_0;
            &&& grows(r, seed)
            &&& seed.children.len() > 0 ==> r.children[0].key == seed.children[0].key
        }),
{
    lemma_parse_top_grows(src, 0, seed);
    if parse_text(src, seed) is Ok && seed.children.len() > 0 {
        let r = parse_text(src, seed)->Ok_0;
        assert(grows(r.children[0], seed.children[0]));
    }
}

/// Parsing onto a tree whose siblings have distinct keys gives such a tree:
/// a repeated key extends the node it names instead of adding another.
pub proof fn lemma_parse_keeps_keys_unique(src: Seq<u8>, seed: Node)
    requires
        tree_wf(seed),
    ensures
        parse_text(src, seed) is Ok ==> tree_wf(parse_text(src, seed)->Ok_0),
{
    lemma_parse_top_grows(src, 0, seed);
}

proof fn lemma_parse_top_needs_clean_scan(src: Seq<u8>, k: int, config: Node)
    ensures
        parse_top(src, k, config) is Ok ==> scan_from(src, 0).1 is Ok,
    decreases token_count(src) - k,
{
    lemma_scan_ends_in_eof(src, 0);
    if let Ok(t) = token_at(src, k) {
        if t.kind is Eof {
            if 0 <= k < token_count(src) {
                assert(!(scan_from(src, 0).0[k].kind is Eof));
            }
        } else if 0 <= k < token_count(src) {
            lemma_parse_key_progress(src, k, Indent::TopLevel, config);
            if let Ok((c2, k2)) = parse_key(src, k, Indent::TopLevel, config) {
                if k < k2 <= token_count(src) {
                    lemma_parse_top_needs_clean_scan(src, k2, c2);
                }
            }
        }
    }
}

/// Fail-fast: text that cannot be scanned (an unterminated string, text
/// after a closing quote, an unknown escape) makes parsing fail, whatever
/// the seed; no tree is produced.
pub proof fn lemma_scan_error_fails_parse(src: Seq<u8>, seed: Node)
    ensures
        scan_from(src, 0).1 is Err ==> parse_text(src, seed) is Err,
{
    lemma_parse_top_needs_clean_scan(src, 0, seed);
}

/// An error that a parse may end with: the error that stops scanning, or
/// a token that stands where another kind was required.
pub open spec fn parse_error(src: Seq<u8>, e: crate::error::NcclError) -> bool {
    scan_from(src, 0).1 == Err::<crate::scanner::TokenSpec, crate::error::NcclError>(e)
        || e is UnexpectedToken
}

proof fn lemma_parse_key_errors(src: Seq<u8>, k: int, indent: Indent, parent: Node)
    ensures
        parse_key(src, k, indent, parent) is Err ==> parse_error(
            src,
            parse_key(src, k, indent, parent)->Err_0,
        ),
    decreases token_count(src) - k, 1int,
{
    if let Ok(t) = token_at(src, k) {
        if (t.kind is Value || t.kind is QuotedValue) && 0 <= k < token_count(src) {
            let node = start_node(src, parent, t);
            if let Ok(t2) = token_at(src, k + 1) {
                if let Some(ci) = child_indent(indent, t2.kind) {
                    lemma_parse_below_errors(src, k + 1, ci, t2.kind, node);
                }
            }
        }
    }
}

proof fn lemma_parse_below_errors(
    src: Seq<u8>,
    k: int,
    indent: Indent,
    kind: TokenKind,
    node: Node,
)
    ensures
        parse_below(src, k, indent, kind, node) is Err ==> parse_error(
            src,
            parse_below(src, k, indent, kind, node)->Err_0,
        ),
    decreases token_count(src) - k, 0int,
{
    if let Ok(t) = token_at(src, k) {
        if t.kind == kind && 0 <= k < token_count(src) {
            lemma_parse_key_errors(src, k + 1, indent, node);
            if let Ok((n2, k2)) = parse_key(src, k + 1, indent, node) {
                if k < k2 <= token_count(src) {
                    lemma_parse_below_errors(src, k2, indent, kind, n2);
                }
            }
        }
    }
}

proof fn lemma_parse_top_errors(src: Seq<u8>, k: int, config: Node)
    ensures
        parse_top(src, k, config) is Err ==> parse_error(src, parse_top(src, k, config)->Err_0),
    decreases token_count(src) - k,
{
    if let Ok(t) = token_at(src, k) {
        if !(t.kind is Eof) && 0 <= k < token_count(src) {
            lemma_parse_key_errors(src, k, Indent::TopLevel, config);
            if let Ok((c2, k2)) = parse_key(src, k, Indent::TopLevel, config) {
                if k < k2 <= token_count(src) {
                    lemma_parse_top_errors(src, k2, c2);
                }
            }
        }
    }
}

/// Fail-fast, both ways: text that cannot be scanned makes parsing fail,
/// and parsing fails only with the error that stops scanning or with an
/// unexpected token; on failure no tree is produced.
pub proof fn lemma_fail_fast(src: Seq<u8>, seed: Node)
    ensures
        scan_from(src, 0).1 is Err ==> parse_text(src, seed) is Err,
        parse_text(src, seed) is Err ==> parse_error(src, parse_text(src, seed)->Err_0),
{
    lemma_scan_error_fails_parse(src, seed);
    lemma_parse_top_errors(src, 0, seed);
}

} // verus!
