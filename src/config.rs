//! The configuration tree.
//!
//! A node holds its own text (which serves both as key and as value), how it
//! was quoted, where it was found, and its children in insertion order, no
//! two of them with the same key.  Its model is a [`Node`].
use vstd::prelude::*;
use vstd::string::StringExecFns;
use vstd::string::StringSliceAdditionalSpecFns;
use vstd::utf8::*;

use crate::error::NcclError;
use crate::scanner::{blank_end, QuoteKind, Span};

verus! {

broadcast use vstd::utf8::group_utf8_lib;

/// The key of the root node of a parsed tree.  No token can hold it: an
/// unquoted value cannot start with a quote, and a quoted one cannot hold
/// its own quote unescaped.
pub const TOP_LEVEL_KEY: &'static str = "'\"";

/// The model of a configuration node.
pub struct Node {
    pub key: Seq<char>,
    pub quotes: Option<QuoteKind>,
    pub span: Span,
    pub children: Seq<Node>,
}

/// Whether some node of `cs` has the key `key`.
pub open spec fn has_key(cs: Seq<Node>, key: Seq<char>) -> bool {
    exists|i: int| 0 <= i < cs.len() && cs[i].key == key
}

/// The position of the first node of `cs` with the key `key`.
pub open spec fn key_index(cs: Seq<Node>, key: Seq<char>) -> int {
    choose|i: int|
        0 <= i < cs.len() && cs[i].key == key && forall|j: int| 0 <= j < i ==> cs[j].key != key
}

/// Where some node has the key, `key_index` is the first such node.
pub proof fn lemma_key_index(cs: Seq<Node>, key: Seq<char>)
    requires
        has_key(cs, key),
    ensures
        0 <= key_index(cs, key) < cs.len(),
        cs[key_index(cs, key)].key == key,
        forall|j: int| 0 <= j < key_index(cs, key) ==> cs[j].key != key,
{
    let i = choose|i: int| 0 <= i < cs.len() && cs[i].key == key;
    lemma_first_key(cs, key, i);
}

proof fn lemma_first_key(cs: Seq<Node>, key: Seq<char>, i: int)
    requires
        0 <= i < cs.len(),
        cs[i].key == key,
    ensures
        exists|f: int|
            0 <= f < cs.len() && cs[f].key == key && forall|j: int| 0 <= j < f ==> cs[j].key != key,
    decreases i,
{
    if exists|j: int| 0 <= j < i && cs[j].key == key {
        let j = choose|j: int| 0 <= j < i && cs[j].key == key;
        lemma_first_key(cs, key, j);
    } else {
        assert(forall|j: int| 0 <= j < i ==> cs[j].key != key);
    }
}

/// No two nodes of `cs` share a key.
pub open spec fn unique_keys(cs: Seq<Node>) -> bool {
    forall|i: int, j: int| 0 <= i < j < cs.len() ==> cs[i].key != cs[j].key
}

/// Every node of the tree has children with distinct keys.
pub open spec fn tree_wf(n: Node) -> bool
    decreases n,
{
    &&& unique_keys(n.children)
    &&& forall|i: int| 0 <= i < n.children.len() ==> tree_wf(#[trigger] n.children[i])
}

/// `parent` after the merge-aware insertion of `child`: when `parent`
/// already has a child with the key of `child`, that child keeps its key,
/// quoting, span and children, and the children of `child` are inserted
/// into it by the same rule; otherwise `child` is appended.
pub open spec fn with_child(parent: Node, child: Node) -> Node
    decreases child,
{
    if has_key(parent.children, child.key) {
        let i = key_index(parent.children, child.key);
        Node {
            children: parent.children.update(i, merged(parent.children[i], child.children)),
            ..parent
        }
    } else {
        Node { children: parent.children.push(child), ..parent }
    }
}

/// `node` after the merge-aware insertion of each of `cs`, in order.
pub open spec fn merged(node: Node, cs: Seq<Node>) -> Node
    decreases cs,
{
    if cs.len() == 0 {
        node
    } else {
        with_child(merged(node, cs.drop_last()), cs.last())
    }
}

/// Merging keeps the key, quoting and span of the node merged into.
pub proof fn lemma_merged_keeps(node: Node, cs: Seq<Node>)
    ensures
        merged(node, cs).key == node.key,
        merged(node, cs).quotes == node.quotes,
        merged(node, cs).span == node.span,
    decreases cs.len(),
{
    if cs.len() > 0 {
        lemma_merged_keeps(node, cs.drop_last());
        let m = merged(node, cs.drop_last());
        assert(merged(node, cs) == with_child(m, cs.last()));
        lemma_with_child_keeps(m, cs.last());
    }
}

/// Inserting a child keeps the key, quoting and span of the parent.
pub proof fn lemma_with_child_keeps(parent: Node, child: Node)
    ensures
        with_child(parent, child).key == parent.key,
        with_child(parent, child).quotes == parent.quotes,
        with_child(parent, child).span == parent.span,
{
}

/// A node with no children.
pub open spec fn leaf(key: Seq<char>, quotes: Option<QuoteKind>, span: Span) -> Node {
    Node { key, quotes, span, children: seq![] }
}

/// The longest path from `n` down to a leaf.
pub open spec fn height(n: Node) -> nat
    decreases n,
{
    if n.children.len() == 0 {
        0
    } else {
        1 + heights(n.children)
    }
}

/// The greatest height among `cs`.
pub open spec fn heights(cs: Seq<Node>) -> nat
    decreases cs,
{
    if cs.len() == 0 {
        0
    } else {
        let h = height(cs.last());
        let rest = heights(cs.drop_last());
        if h > rest {
            h
        } else {
            rest
        }
    }
}

/// The text of `n` on a line of its own at `depth`: one tab for each level
/// below the first, the key within its quotes, a line break.
pub open spec fn pp_line(n: Node, depth: nat) -> Seq<char> {
    let quote = match n.quotes {
        Some(q) => seq![q.spec_byte() as char],
        None => seq![],
    };
    Seq::new((depth - 1) as nat, |i: int| '\t') + quote + n.key + quote + seq!['\n']
}

/// The text of the tree below `n`, and of `n` itself unless it is at depth 0.
pub open spec fn pp(n: Node, depth: nat) -> Seq<char>
    decreases n,
{
    (if depth == 0 {
        seq![]
    } else {
        pp_line(n, depth)
    }) + pp_all(n.children, depth + 1)
}

/// The texts of the trees `cs`, one after the other.
pub open spec fn pp_all(cs: Seq<Node>, depth: nat) -> Seq<char>
    decreases cs,
{
    if cs.len() == 0 {
        seq![]
    } else {
        pp_all(cs.drop_last(), depth) + pp(cs.last(), depth)
    }
}

/// The bytes that decoding the raw text `b` of a quoted key from position
/// `i` gives: `\n`, `\r`, `\\`, `\"` and `\'` stand for one byte, and a
/// backslash before a line break drops the break and the blanks after it.
pub open spec fn unescape(b: Seq<u8>, i: int) -> Result<Seq<u8>, NcclError>
    decreases b.len() - i,
{
    if i < 0 || i >= b.len() {
        Ok(seq![])
    } else if b[i] == 92u8 {
        if i + 1 >= b.len() {
            Err(NcclError::UnterminatedString { start: 0 })
        } else {
            let c = b[i + 1];
            if c == 110u8 || c == 114u8 || c == 92u8 || c == 34u8 || c == 39u8 {
                let d = if c == 110u8 {
                    10u8
                } else if c == 114u8 {
                    13u8
                } else {
                    c
                };
                prepend(seq![d], unescape(b, i + 2))
            } else if c == 10u8 || c == 13u8 {
                let j = blank_end(b, i + 2);
                if j >= b.len() || j <= i {
                    Err(NcclError::UnterminatedString { start: 0 })
                } else {
                    unescape(b, j)
                }
            } else {
                Err(NcclError::ParseUnknownEscape { escape: c as char })
            }
        }
    } else {
        prepend(seq![b[i]], unescape(b, i + 1))
    }
}

pub open spec fn prepend(p: Seq<u8>, r: Result<Seq<u8>, NcclError>) -> Result<Seq<u8>, NcclError> {
    match r {
        Ok(s) => Ok(p + s),
        Err(e) => Err(e),
    }
}

/// Relies on `std::str::from_utf8`: it succeeds exactly when the bytes are
/// valid UTF-8, and then views those same bytes as a string.
#[verifier::external_body]
fn str_from_utf8(bytes: &[u8]) -> (r: Result<&str, core::str::Utf8Error>)
    ensures
        match r {
            Ok(s) => s.spec_bytes() == bytes@,
            Err(_) => !valid_utf8(bytes@),
        },
{
    std::str::from_utf8(bytes)
}

/// Whether two byte strings are equal.
fn bytes_eq(a: &[u8], b: &[u8]) -> (r: bool)
    ensures
        r == (a@ == b@),
{
    if a.len() != b.len() {
        return false;
    }
    let mut i: usize = 0;
    while i < a.len()
        invariant
            a@.len() == b@.len(),
            i <= a@.len(),
            forall|j: int| 0 <= j < i ==> a@[j] == b@[j],
        decreases a@.len() - i,
    {
        if a[i] != b[i] {
            return false;
        }
        i = i + 1;
    }
    assert(a@ =~= b@);
    true
}

/// A configuration node and the tree below it.
#[derive(Debug)]
pub struct Config {
    quotes: Option<QuoteKind>,
    key: String,
    span: Span,
    value: Vec<Config>,
}

/// The models of the nodes `cs`.
pub closed spec fn views(cs: Seq<Config>) -> Seq<Node>
    decreases cs,
{
    if cs.len() == 0 {
        seq![]
    } else {
        views(cs.drop_last()).push(cs.last().view())
    }
}

proof fn lemma_views(cs: Seq<Config>)
    ensures
        views(cs).len() == cs.len(),
        forall|i: int| 0 <= i < cs.len() ==> #[trigger] views(cs)[i] == cs[i].view(),
    decreases cs.len(),
{
    if cs.len() > 0 {
        lemma_views(cs.drop_last());
        assert forall|i: int| 0 <= i < cs.len() implies #[trigger] views(cs)[i] == cs[i].view() by {
            if i < cs.len() - 1 {
                assert(cs.drop_last()[i] == cs[i]);
            }
        }
    }
}

impl Config {
    /// The model of the node.
    pub closed spec fn view(&self) -> Node
        decreases self,
    {
        Node { key: self.key@, quotes: self.quotes, span: self.span, children: views(self.value@) }
    }

    /// A node with no children, at an unknown position.
    pub fn new(key: &str, quotes: Option<QuoteKind>) -> (c: Config)
        ensures
            c@ == leaf(key@, quotes, Span { line: 0, column: 0 }),
    {
        Config::new_with_span(key, Span { line: 0, column: 0 }, quotes)
    }

    /// A node with no children, found at `span`.
    pub fn new_with_span(key: &str, span: Span, quotes: Option<QuoteKind>) -> (c: Config)
        ensures
            c@ == leaf(key@, quotes, span),
    {
        let c = Config { quotes, key: key.to_owned(), span, value: Vec::new() };
        proof {
            lemma_views(c.value@);
            assert(views(c.value@) =~= seq![]);
        }
        c
    }

    /// The position of the child with the key `key`, if there is one.
    fn find(&self, key: &str) -> (r: Option<usize>)
        ensures
            match r {
                Some(i) => {
                    &&& has_key(self@.children, key@)
                    &&& i == key_index(self@.children, key@)
                    &&& i < self@.children.len()
                    &&& self@.children[i as int].key == key@
                },
                None => !has_key(self@.children, key@),
            },
    {
        proof {
            lemma_views(self.value@);
        }
        let wanted = key.as_bytes();
        let mut i: usize = 0;
        while i < self.value.len()
            invariant
                i <= self.value@.len(),
                wanted@ == encode_utf8(key@),
                views(self.value@).len() == self.value@.len(),
                forall|j: int| 0 <= j < self.value@.len() ==> #[trigger] views(self.value@)[j] == self.value@[j]@,
                forall|j: int| 0 <= j < i ==> self.value@[j]@.key != key@,
            decreases self.value@.len() - i,
        {
            let here = self.value[i].key.as_str().as_bytes();
            if bytes_eq(here, wanted) {
                proof {
                    encode_utf8_decode_utf8(self.value@[i as int].key@);
                    encode_utf8_decode_utf8(key@);
                    let cs = self@.children;
                    assert(cs[i as int].key == key@);
                    let k = key_index(cs, key@);
                    assert(0 <= k < cs.len() && cs[k].key == key@ && forall|j: int|
                        0 <= j < k ==> cs[j].key != key@);
                    assert(k == i);
                }
                return Some(i);
            }
            i = i + 1;
        }
        None
    }

    /// Whether the node was quoted.
    pub fn quoted(&self) -> (r: bool)
        ensures
            r == self@.quotes is Some,
    {
        self.quotes.is_some()
    }

    /// How the node was quoted.
    pub fn quotes(&self) -> (r: Option<QuoteKind>)
        ensures
            r == self@.quotes,
    {
        self.quotes
    }

    /// Whether the node has a child with the key `value`.
    pub fn has_value(&self, value: &str) -> (r: bool)
        ensures
            r == has_key(self@.children, value@),
    {
        self.find(value).is_some()
    }

    /// The children of the node, in insertion order.
    pub fn children(&self) -> (r: &[Config])
        ensures
            r@.len() == self@.children.len(),
            forall|i: int| 0 <= i < r@.len() ==> #[trigger] r@[i]@ == self@.children[i],
    {
        proof {
            lemma_views(self.value@);
        }
        self.value.as_slice()
    }

    /// The first child of the node.
    pub fn child(&self) -> (r: Option<&Config>)
        ensures
            match r {
                Some(c) => self@.children.len() > 0 && c@ == self@.children[0],
                None => self@.children.len() == 0,
            },
    {
        proof {
            lemma_views(self.value@);
        }
        if self.value.len() == 0 {
            None
        } else {
            Some(&self.value[0])
        }
    }

    /// The keys of the children of the node, in insertion order.
    pub fn values(&self) -> (r: Vec<&str>)
        ensures
            r@.len() == self@.children.len(),
            forall|i: int| 0 <= i < r@.len() ==> (#[trigger] r@[i])@ == self@.children[i].key,
    {
        proof {
            lemma_views(self.value@);
        }
        let mut r: Vec<&str> = Vec::new();
        let mut i: usize = 0;
        while i < self.value.len()
            invariant
                i <= self.value@.len(),
                r@.len() == i,
                views(self.value@).len() == self.value@.len(),
                forall|j: int| 0 <= j < self.value@.len() ==> #[trigger] views(self.value@)[j] == self.value@[j]@,
                forall|j: int| 0 <= j < i ==> (#[trigger] r@[j])@ == self.value@[j]@.key,
            decreases self.value@.len() - i,
        {
            r.push(self.value[i].key.as_str());
            i = i + 1;
        }
        r
    }

    /// The key of the first child of the node.
    pub fn value(&self) -> (r: Option<&str>)
        ensures
            match r {
                Some(v) => self@.children.len() > 0 && v@ == self@.children[0].key,
                None => self@.children.len() == 0,
            },
    {
        proof {
            lemma_views(self.value@);
        }
        if self.value.len() == 0 {
            None
        } else {
            Some(self.value[0].key.as_str())
        }
    }

    /// The child with the key `key`.
    pub fn index(&self, key: &str) -> (r: Option<&Config>)
        ensures
            match r {
                Some(c) => {
                    &&& has_key(self@.children, key@)
                    &&& c@.key == key@
                    &&& c@ == self@.children[key_index(self@.children, key@)]
                },
                None => !has_key(self@.children, key@),
            },
    {
        proof {
            lemma_views(self.value@);
        }
        match self.find(key) {
            Some(i) => {
                Some(&self.value[i])
            },
            None => None,
        }
    }

    /// Merge-aware insertion: when a child with the key of `child` exists,
    /// the children of `child` are inserted into it by the same rule, after
    /// its own; otherwise `child` is appended.
    #[verifier::rlimit(100)]
    pub fn add_child(&mut self, child: Config)
        ensures
            final(self)@ == with_child(old(self)@, child@),
            unique_keys(old(self)@.children) ==> unique_keys(final(self)@.children),
        decreases child@,
    {
        proof {
            lemma_views(self.value@);
            lemma_views(child.value@);
        }
        let ghost cs = self@.children;
        let ghost c = child@;
        match self.find(child.key.as_str()) {
            Some(i) => {
                let mut existing = self.value[i].clone();
                let ghost e0 = existing@;
                assert(e0 == cs[i as int]);
                let mut j: usize = 0;
                while j < child.value.len()
                    invariant
                        j <= child.value@.len(),
                        c == child@,
                        c.children.len() == child.value@.len(),
                        forall|m: int|
                            0 <= m < child.value@.len() ==> #[trigger] child.value@[m]@
                                == c.children[m],
                        existing@ == merged(e0, c.children.take(j as int)),
                    decreases child.value@.len() - j,
                {
                    let kid = child.value[j].clone();
                    existing.add_child(kid);
                    proof {
                        assert(c.children.take(j + 1).drop_last() =~= c.children.take(j as int));
                    }
                    j = j + 1;
                }
                proof {
                    assert(c.children.take(j as int) =~= c.children);
                    lemma_merged_keeps(e0, c.children);
                }
                self.value.set(i, existing);
                proof {
                    lemma_views(self.value@);
                    assert(views(self.value@) =~= cs.update(i as int, merged(e0, c.children)));
                }
            },
            None => {
                self.value.push(child);
                proof {
                    lemma_views(self.value@);
                    assert(views(self.value@) =~= cs.push(c));
                }
            },
        }
    }

    /// Decodes the escapes of a quoted key; an unquoted key is returned as
    /// it is.
    #[verifier::loop_isolation(false)]
    pub fn parse_quoted(&self) -> (r: Result<String, NcclError>)
        ensures
            match self@.quotes {
                None => r is Ok && r->Ok_0@ == self@.key,
                Some(_) => match unescape(encode_utf8(self@.key), 0) {
                    Err(e) => r == Err::<String, NcclError>(e),
                    Ok(b) => if valid_utf8(b) {
                        r is Ok && r->Ok_0@ == decode_utf8(b)
                    } else {
                        r is Err && r->Err_0 is Utf8
                    },
                },
            },
    {
        if !self.quoted() {
            return Ok(self.key.clone());
        }
        let bytes = self.key.as_str().as_bytes();
        let ghost b = bytes@;
        let mut value: Vec<u8> = Vec::new();
        let mut i: usize = 0;
        while i < bytes.len()
            invariant
                b == bytes@,
                i <= b.len(),
                unescape(b, 0) == prepend(value@, unescape(b, i as int)),
            decreases b.len() - i,
        {
            if bytes[i] == 92 {
                let ghost at = i as int;
                i = i + 1;
                if i >= bytes.len() {
                    return Err(NcclError::UnterminatedString { start: 0 });
                }
                let code = bytes[i];
                if code == 110 || code == 114 || code == 92 || code == 34 || code == 39 {
                    let d = if code == 110 {
                        10
                    } else if code == 114 {
                        13
                    } else {
                        code
                    };
                    proof {
                        lemma_prepend_push(value@, d, unescape(b, at + 2));
                    }
                    value.push(d);
                    i = i + 1;
                } else if code == 10 || code == 13 {
                    i = i + 1;
                    if i >= bytes.len() {
                        return Err(NcclError::UnterminatedString { start: 0 });
                    }
                    while bytes[i] == 32 || bytes[i] == 9
                        invariant
                            b == bytes@,
                            at + 2 <= i < b.len(),
                            blank_end(b, i as int) == blank_end(b, at + 2),
                        decreases b.len() - i,
                    {
                        i = i + 1;
                        if i >= bytes.len() {
                            assert(blank_end(b, i as int) == i);
                            assert(blank_end(b, at + 2) >= b.len());
                            assert(unescape(b, at) is Err);
                            return Err(NcclError::UnterminatedString { start: 0 });
                        }
                    }
                } else {
                    return Err(NcclError::ParseUnknownEscape { escape: code as char });
                }
            } else {
                proof {
                    lemma_prepend_push(value@, b[i as int], unescape(b, i + 1));
                }
                value.push(bytes[i]);
                i = i + 1;
            }
        }
        assert(value@ + seq![] =~= value@);
        match str_from_utf8(value.as_slice()) {
            Ok(text) => Ok(text.to_owned()),
            Err(err) => Err(NcclError::from(err)),
        }
    }

    /// The text of the tree below the node, the node itself at `indent`
    /// unless `indent` is 0.
    pub fn pp(&self, indent: usize) -> (s: String)
        requires
            indent + height(self@) < usize::MAX,
        ensures
            s@ == pp(self@, indent as nat),
        decreases self,
    {
        proof {
            lemma_views(self.value@);
        }
        let mut s = String::new();
        if indent != 0 {
            let mut t: usize = 0;
            while t < indent - 1
                invariant
                    t <= indent - 1,
                    s@ == Seq::new(t as nat, |i: int| '\t'),
                decreases indent - 1 - t,
            {
                proof {
                    reveal_strlit("\t");
                }
                s.append("\t");
                t = t + 1;
                assert(s@ =~= Seq::new(t as nat, |i: int| '\t'));
            }
            let quote = match self.quotes {
                Some(QuoteKind::Single) => "'",
                Some(QuoteKind::Double) => "\"",
                None => "",
            };
            proof {
                reveal_strlit("'");
                reveal_strlit("\"");
                reveal_strlit("");
                reveal_strlit("\n");
            }
            s.append(quote);
            s.append(self.key.as_str());
            s.append(quote);
            s.append("\n");
        }
        let ghost head = s@;
        assert(head == (if indent == 0 { seq![] } else { pp_line(self@, indent as nat) }));
        let mut i: usize = 0;
        while i < self.value.len()
            invariant
                i <= self.value@.len(),
                indent + height(self@) < usize::MAX,
                views(self.value@) == self@.children,
                self@.children.len() == self.value@.len(),
                forall|j: int| 0 <= j < self.value@.len() ==> #[trigger] views(self.value@)[j] == self.value@[j]@,
                s@ == head + pp_all(self@.children.take(i as int), indent as nat + 1),
            decreases self.value@.len() - i,
        {
            proof {
                lemma_height_child(self@.children, i as int);
            }
            let part = self.value[i].pp(indent + 1);
            s.append(part.as_str());
            proof {
                let cs = self@.children;
                assert(cs.take(i + 1).drop_last() =~= cs.take(i as int));
            }
            i = i + 1;
        }
        assert(self@.children.take(i as int) =~= self@.children);
        s
    }

    /// The tree below the node as indented text, one tab per level.
    pub fn pretty_print(&self) -> (s: String)
        requires
            height(self@) < usize::MAX,
        ensures
            s@ == pp(self@, 0),
    {
        self.pp(0)
    }
}

impl Clone for Config {
    fn clone(&self) -> (c: Self)
        ensures
            c@ == self@,
        decreases self,
    {
        proof {
            lemma_views(self.value@);
        }
        let mut value: Vec<Config> = Vec::new();
        let mut i: usize = 0;
        while i < self.value.len()
            invariant
                i <= self.value@.len(),
                value@.len() == i,
                forall|j: int| 0 <= j < i ==> (#[trigger] value@[j])@ == self.value@[j]@,
            decreases self.value@.len() - i,
        {
            value.push(self.value[i].clone());
            i = i + 1;
        }
        let c = Config { quotes: self.quotes, key: self.key.clone(), span: self.span, value };
        proof {
            lemma_views(c.value@);
            assert(views(c.value@) =~= views(self.value@));
        }
        c
    }
}

proof fn lemma_prepend_push(v: Seq<u8>, d: u8, r: Result<Seq<u8>, NcclError>)
    ensures
        prepend(v, prepend(seq![d], r)) == prepend(v.push(d), r),
{
    if let Ok(s) = r {
        assert(v + (seq![d] + s) =~= v.push(d) + s);
    }
}

proof fn lemma_height_child(cs: Seq<Node>, i: int)
    requires
        0 <= i < cs.len(),
    ensures
        height(cs[i]) <= heights(cs),
    decreases cs.len(),
{
    if i < cs.len() - 1 {
        lemma_height_child(cs.drop_last(), i);
        assert(cs.drop_last()[i] == cs[i]);
    }
}

} // verus!
