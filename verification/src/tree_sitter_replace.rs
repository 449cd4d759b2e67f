//! The structural reducer: parse the file with tree-sitter, collect the
//! nodes the matcher wants to replace, and shrink the candidate set by
//! dichotomy. The parse tree is lowered to a plain tree of byte ranges as
//! soon as possible; everything after the lowering — the ordering check,
//! the collection with its growth guards, the dichotomy rounds and the
//! splicing — runs on plain values.

use vstd::prelude::*;

use crate::bytes::all_whitespace;
use crate::bytes::contains_range;
use crate::bytes::contains_seq;
use crate::bytes::is_ascii_ws;
use crate::bytes::reps_valid;
use crate::bytes::splice;
use crate::bytes::splice_spec;
use crate::dichotomy::AttemptPlan;
use crate::dichotomy::plan_ordered;
use crate::nodelist::InterestingNode;
use crate::nodelist::InterestingNodeList;
use crate::nodelist::Replacement;
use crate::nodelist::lemma_count_fits;
use crate::nodelist::lemma_wf_concat;
use crate::nodelist::seq_count;
use crate::nodelist::seq_inside;
use crate::nodelist::seq_wf;
use crate::numfmt::usize_to_string;
use crate::rng::rng_bool;
use crate::rng::rng_from_seed;
use crate::rng::rng_range;

verus! {

#[verifier::external_type_specification]
#[verifier::external_body]
pub struct ExLanguage(tree_sitter::Language);

#[verifier::external_type_specification]
#[verifier::external_body]
pub struct ExParser(tree_sitter::Parser);

#[verifier::external_type_specification]
#[verifier::external_body]
pub struct ExTree(tree_sitter::Tree);

#[verifier::external_type_specification]
#[verifier::external_body]
pub struct ExTreeCursor<'a>(tree_sitter::TreeCursor<'a>);

#[verifier::external_type_specification]
#[verifier::external_body]
pub struct ExNode<'a>(tree_sitter::Node<'a>);

/// Relies on tree-sitter's `Parser::new`.
#[verifier::external_body]
fn parser_new() -> tree_sitter::Parser {
    tree_sitter::Parser::new()
}

/// Relies on tree-sitter's `Parser::set_language`; reports whether the
/// grammar was accepted.
#[verifier::external_body]
fn parser_set_language(p: &mut tree_sitter::Parser, language: &tree_sitter::Language) -> bool {
    p.set_language(*language).is_ok()
}

/// Relies on tree-sitter's `Parser::parse`: `None` when parsing failed.
#[verifier::external_body]
fn parser_parse(p: &mut tree_sitter::Parser, contents: &Vec<u8>) -> Option<tree_sitter::Tree> {
    p.parse(contents.as_slice(), None)
}

/// Relies on tree-sitter's `Tree::walk`: a cursor at the tree's root.
#[verifier::external_body]
fn tree_walk<'a>(t: &'a tree_sitter::Tree) -> tree_sitter::TreeCursor<'a> {
    t.walk()
}

/// Relies on tree-sitter's `TreeCursor::node`.
#[verifier::external_body]
fn cursor_node<'a>(c: &tree_sitter::TreeCursor<'a>) -> tree_sitter::Node<'a> {
    c.node()
}

/// Relies on tree-sitter's `TreeCursor::goto_first_child`.
#[verifier::external_body]
fn cursor_first_child(c: &mut tree_sitter::TreeCursor<'_>) -> bool {
    c.goto_first_child()
}

/// Relies on tree-sitter's `TreeCursor::goto_next_sibling`.
#[verifier::external_body]
fn cursor_next_sibling(c: &mut tree_sitter::TreeCursor<'_>) -> bool {
    c.goto_next_sibling()
}

/// Relies on tree-sitter's `TreeCursor::goto_parent`.
#[verifier::external_body]
fn cursor_parent(c: &mut tree_sitter::TreeCursor<'_>) -> bool {
    c.goto_parent()
}

/// Relies on tree-sitter's `Node::start_byte`.
#[verifier::external_body]
fn node_start_byte(n: &tree_sitter::Node<'_>) -> usize {
    n.start_byte()
}

/// Relies on tree-sitter's `Node::end_byte`.
#[verifier::external_body]
fn node_end_byte(n: &tree_sitter::Node<'_>) -> usize {
    n.end_byte()
}

/// Relies on tree-sitter's `Node::kind`.
#[verifier::external_body]
fn node_kind(n: &tree_sitter::Node<'_>) -> &'static str {
    n.kind()
}

/// Relies on tree-sitter's `Node::is_named`.
#[verifier::external_body]
fn node_is_named(n: &tree_sitter::Node<'_>) -> bool {
    n.is_named()
}

/// One parse-tree node, lowered to plain values: its byte range, whether
/// the grammar names it, its kind, and its children.
pub struct SyntaxNode {
    /// First byte of the node.
    pub start: usize,
    /// One past the last byte of the node.
    pub end: usize,
    /// Whether the node is a named grammar node.
    pub named: bool,
    /// The grammar kind of the node.
    pub kind: String,
    /// The node's children, in source order.
    pub children: Vec<SyntaxNode>,
}

/// What the node matcher learns about a node: its byte range (the node's
/// bytes are `contents[start .. end]`), whether it is named, its kind, and
/// the kinds of its parent and grandparent where they exist.
pub struct NodeDesc {
    /// First byte of the node.
    pub start: usize,
    /// One past the last byte of the node.
    pub end: usize,
    /// Whether the node is a named grammar node.
    pub named: bool,
    /// The grammar kind of the node.
    pub kind: String,
    /// The kind of the node's parent, if any.
    pub parent_kind: Option<String>,
    /// The kind of the node's grandparent, if any.
    pub grandparent_kind: Option<String>,
}

/// The node matcher capability: decides, from the full input and one
/// node's description, whether to try replacing the node, and with what.
/// Implementations must be pure and deterministic.
pub trait NodeMatcher {
    fn replacement(&self, contents: &Vec<u8>, node: &NodeDesc) -> Option<Vec<u8>>;
}

/// Lowers the children of the cursor's current node to plain values.
/// `fuel` bounds the recursion; `None` means the walk was cut short.
fn lower_children(cursor: &mut tree_sitter::TreeCursor<'_>, fuel: u64) -> (r: Option<
    Vec<SyntaxNode>,
>)
    decreases fuel,
{
    if fuel == 0 {
        return None;
    }
    if !cursor_first_child(cursor) {
        return Some(Vec::new());
    }
    let mut out: Vec<SyntaxNode> = Vec::new();
    let mut sib: u64 = fuel;
    let mut more = true;
    let mut ok = true;
    while more && sib > 0
        invariant
            fuel >= 1,
        decreases sib,
    {
        let n = cursor_node(cursor);
        let start = node_start_byte(&n);
        let end = node_end_byte(&n);
        let named = node_is_named(&n);
        let kind = node_kind(&n).to_owned();
        match lower_children(cursor, fuel - 1) {
            None => {
                ok = false;
                more = false;
            },
            Some(children) => {
                out.push(SyntaxNode { start, end, named, kind, children });
                more = cursor_next_sibling(cursor);
            },
        }
        sib = sib - 1;
    }
    if !ok || more {
        return None;
    }
    cursor_parent(cursor);
    Some(out)
}

/// The growth guard, deep through a node list: no node is pure ASCII
/// whitespace, and no node's bytes occur inside its own replacement — so
/// repeated application of the pass cannot grow the input through a node
/// it collected.
pub open spec fn growth_guarded(s: Seq<InterestingNode>, contents: Seq<u8>) -> bool
    decreases s,
{
    forall|i: int|
        0 <= i < s.len() ==> {
            &&& !(forall|p: int|
                (#[trigger] s[i]).start <= p < s[i].end ==> is_ascii_ws(#[trigger] contents[p]))
            &&& !contains_seq(
                s[i].replace_with@,
                contents.subrange(s[i].start as int, s[i].end as int),
            )
            &&& growth_guarded(s[i].children.nodes@, contents)
        }
}

/// The growth guard carries over concatenation.
proof fn lemma_guard_concat(a: Seq<InterestingNode>, b: Seq<InterestingNode>, contents: Seq<u8>)
    requires
        growth_guarded(a, contents),
        growth_guarded(b, contents),
    ensures
        growth_guarded(a + b, contents),
{
    let c = a + b;
    assert forall|i: int|
        0 <= i < c.len() implies {
        &&& !(forall|p: int|
            (#[trigger] c[i]).start <= p < c[i].end ==> is_ascii_ws(#[trigger] contents[p]))
        &&& !contains_seq(
            c[i].replace_with@,
            contents.subrange(c[i].start as int, c[i].end as int),
        )
        &&& growth_guarded(c[i].children.nodes@, contents)
    } by {
        if i < a.len() {
            assert(c[i] == a[i]);
        } else {
            assert(c[i] == b[i - a.len()]);
        }
    }
}

/// A well-formed node list grows by one node to the right of everything
/// already in it.
proof fn lemma_wf_push(s: Seq<InterestingNode>, n: InterestingNode)
    requires
        seq_wf(s),
        n.start < n.end,
        seq_wf(n.children.nodes@),
        seq_inside(n.children.nodes@, n.start as int, n.end as int),
        forall|i: int| 0 <= i < s.len() ==> (#[trigger] s[i]).end <= n.start,
    ensures
        seq_wf(s.push(n)),
{
    assert(seq_wf(seq![n])) by {
        assert forall|i: int| 0 <= i < seq![n].len() implies (#[trigger] seq![n][i]).start
            < seq![n][i].end && seq_wf(seq![n][i].children.nodes@) && seq_inside(
            seq![n][i].children.nodes@,
            seq![n][i].start as int,
            seq![n][i].end as int,
        ) by {
            assert(seq![n][i] == n);
        }
    }
    lemma_wf_concat(s, seq![n], n.start as int);
    assert(s.push(n) =~= s + seq![n]);
}

/// One node of the lowered tree with the matcher's answer attached: its
/// byte range, the offered replacement (if any), and its children.
pub struct AnsweredNode {
    /// First byte of the node.
    pub start: usize,
    /// One past the last byte of the node.
    pub end: usize,
    /// The matcher's replacement offer for this node, if any.
    pub answer: Option<Vec<u8>>,
    /// The node's children, in source order.
    pub children: Vec<AnsweredNode>,
}

/// The answered tree is ordered: every node lies within `lo .. hi`,
/// siblings come in source order without overlap, and children lie within
/// their parent.
pub open spec fn atree_ok(s: Seq<AnsweredNode>, lo: int, hi: int) -> bool
    decreases s,
{
    forall|i: int|
        0 <= i < s.len() ==> {
            &&& lo <= (#[trigger] s[i]).start
            &&& s[i].start <= s[i].end
            &&& s[i].end <= hi
            &&& (i + 1 < s.len() ==> s[i].end <= s[i + 1].start)
            &&& atree_ok(s[i].children@, s[i].start as int, s[i].end as int)
        }
}

/// The whitespace screen of the annotation: an empty or all-whitespace
/// node carries no answer, deep through the tree.
pub open spec fn screened(s: Seq<AnsweredNode>, contents: Seq<u8>) -> bool
    decreases s,
{
    forall|i: int|
        0 <= i < s.len() ==> {
            &&& (((#[trigger] s[i]).start >= s[i].end || (forall|p: int|
                s[i].start <= p < s[i].end ==> is_ascii_ws(#[trigger] contents[p]))) ==> s[
                i].answer is None)
            &&& screened(s[i].children@, contents)
        }
}

/// The answered tree mirrors the lowered tree node for node: same length,
/// same ranges, same shape — the annotation invents and drops nothing.
pub open spec fn mirrors(a: Seq<AnsweredNode>, t: Seq<SyntaxNode>) -> bool
    decreases t,
{
    &&& a.len() == t.len()
    &&& forall|i: int|
        0 <= i < t.len() ==> (#[trigger] a[i]).start == t[i].start && a[i].end == t[i].end
            && mirrors(a[i].children@, t[i].children@)
}

/// Whether one answered node is collected: it is nonempty, the matcher
/// offered a replacement, and — unless every node is matched — its bytes
/// do not occur inside that replacement. (The whitespace half of the
/// guard is the annotation's screen.)
pub open spec fn is_interesting(n: AnsweredNode, try_all: bool, contents: Seq<u8>) -> bool {
    &&& n.start < n.end
    &&& n.answer is Some
    &&& (try_all || !contains_seq(
        n.answer->0@,
        contents.subrange(n.start as int, n.end as int),
    ))
}

/// The mathematical shadow of a collected node: its range, its
/// replacement bytes, and its collected descendants.
pub struct CollectedNode {
    /// First byte of the replaced range.
    pub start: int,
    /// One past the last byte of the replaced range.
    pub end: int,
    /// The replacement bytes.
    pub rep: Seq<u8>,
    /// The collected descendants, nested inside this node.
    pub children: Seq<CollectedNode>,
}

/// The shadow of an interesting-node list.
pub open spec fn deep_view(s: Seq<InterestingNode>) -> Seq<CollectedNode>
    decreases s,
{
    if s.len() == 0 {
        Seq::empty()
    } else {
        seq![
            (CollectedNode {
                start: s[0].start as int,
                end: s[0].end as int,
                rep: s[0].replace_with@,
                children: deep_view(s[0].children.nodes@),
            }),
        ] + deep_view(s.drop_first())
    }
}

/// What the collection returns, defined by recursion over the answered
/// tree: an interesting node contributes one entry with its range and
/// replacement, its own collected descendants nested inside; any other
/// node contributes its collected descendants in its place, and order
/// follows the source.
pub open spec fn collect_spec(s: Seq<AnsweredNode>, try_all: bool, contents: Seq<u8>) -> Seq<
    CollectedNode,
>
    decreases s,
{
    if s.len() == 0 {
        Seq::empty()
    } else {
        (if is_interesting(s[0], try_all, contents) {
            seq![
                (CollectedNode {
                    start: s[0].start as int,
                    end: s[0].end as int,
                    rep: s[0].answer->0@,
                    children: collect_spec(s[0].children@, try_all, contents),
                }),
            ]
        } else {
            collect_spec(s[0].children@, try_all, contents)
        }) + collect_spec(s.drop_first(), try_all, contents)
    }
}

/// Bytes covered by the top level of a collected shadow.
pub open spec fn ccount(c: Seq<CollectedNode>) -> int
    decreases c.len(),
{
    if c.len() == 0 {
        0
    } else {
        c[0].end - c[0].start + ccount(c.drop_first())
    }
}

/// The shadow distributes over concatenation.
proof fn lemma_deep_view_concat(a: Seq<InterestingNode>, b: Seq<InterestingNode>)
    ensures
        deep_view(a + b) == deep_view(a) + deep_view(b),
    decreases a.len(),
{
    if a.len() == 0 {
        assert(a + b =~= b);
        assert(deep_view(a) + deep_view(b) =~= deep_view(b));
    } else {
        assert((a + b).drop_first() =~= a.drop_first() + b);
        assert((a + b)[0] == a[0]);
        lemma_deep_view_concat(a.drop_first(), b);
        assert(deep_view(a + b) =~= deep_view(a) + deep_view(b));
    }
}

/// The collection grows one node at a time, at the right.
proof fn lemma_collect_snoc(s: Seq<AnsweredNode>, n: AnsweredNode, try_all: bool, contents: Seq<u8>)
    ensures
        collect_spec(s.push(n), try_all, contents) == collect_spec(s, try_all, contents)
            + collect_spec(seq![n], try_all, contents),
    decreases s.len(),
{
    if s.len() == 0 {
        assert(s.push(n) =~= seq![n]);
        assert(collect_spec(s, try_all, contents) + collect_spec(seq![n], try_all, contents)
            =~= collect_spec(seq![n], try_all, contents));
    } else {
        assert(s.push(n).drop_first() =~= s.drop_first().push(n));
        assert(s.push(n)[0] == s[0]);
        lemma_collect_snoc(s.drop_first(), n, try_all, contents);
        assert(collect_spec(s.push(n), try_all, contents) =~= collect_spec(s, try_all, contents)
            + collect_spec(seq![n], try_all, contents));
    }
}

/// Covered bytes agree between a list and its shadow.
proof fn lemma_count_deep(s: Seq<InterestingNode>)
    ensures
        seq_count(s) == ccount(deep_view(s)),
    decreases s.len(),
{
    if s.len() > 0 {
        lemma_count_deep(s.drop_first());
        assert(deep_view(s).drop_first() =~= deep_view(s.drop_first()));
    }
}

/// Asks the matcher about every node of the lowered tree and attaches the
/// answers: empty nodes and (with the guard on) all-whitespace or
/// out-of-range nodes are screened to `None` without a call; every other
/// node gets whatever the matcher returns. The answered tree mirrors the
/// lowered tree exactly.
fn annotate<M: NodeMatcher>(
    matcher: &M,
    try_all: bool,
    contents: &Vec<u8>,
    nodes: &Vec<SyntaxNode>,
    parent_kind: Option<&String>,
    grandparent_kind: Option<&String>,
) -> (r: Vec<AnsweredNode>)
    ensures
        mirrors(r@, nodes@),
        !try_all ==> screened(r@, contents@),
    decreases nodes@,
{
    let mut out: Vec<AnsweredNode> = Vec::new();
    let mut i: usize = 0;
    while i < nodes.len()
        invariant
            i <= nodes@.len(),
            out@.len() == i,
            forall|k: int|
                0 <= k < i ==> (#[trigger] out@[k]).start == nodes@[k].start && out@[k].end
                    == nodes@[k].end && mirrors(out@[k].children@, nodes@[k].children@),
            !try_all ==> forall|k: int|
                0 <= k < i ==> ((((#[trigger] out@[k]).start >= out@[k].end || (forall|p: int|
                    out@[k].start <= p < out@[k].end ==> is_ascii_ws(#[trigger] contents@[p])))
                    ==> out@[k].answer is None) && screened(out@[k].children@, contents@)),
        decreases nodes@.len() - i,
    {
        let n = &nodes[i];
        proof {
            assert(decreases_to!(nodes@ => nodes@[i as int]));
            assert(decreases_to!(nodes@[i as int] => nodes@[i as int].children));
            assert(decreases_to!(nodes@[i as int].children => nodes@[i as int].children@));
            assert(decreases_to!(nodes@ => nodes@[i as int].children@));
        }
        let answer: Option<Vec<u8>> = if n.start >= n.end {
            None
        } else if !try_all && n.end > contents.len() {
            None
        } else if !try_all && all_whitespace(contents, n.start, n.end) {
            None
        } else {
            let desc = NodeDesc {
                start: n.start,
                end: n.end,
                named: n.named,
                kind: n.kind.clone(),
                parent_kind: match parent_kind {
                    Some(k) => Some(k.clone()),
                    None => None,
                },
                grandparent_kind: match grandparent_kind {
                    Some(k) => Some(k.clone()),
                    None => None,
                },
            };
            matcher.replacement(contents, &desc)
        };
        let children = annotate(
            matcher,
            try_all,
            contents,
            &n.children,
            Some(&n.kind),
            parent_kind,
        );
        out.push(AnsweredNode { start: n.start, end: n.end, answer, children });
        i = i + 1;
    }
    out
}

/// Checks that an answered tree is ordered within `lo .. hi`.
fn check_answered(nodes: &Vec<AnsweredNode>, lo: usize, hi: usize) -> (r: bool)
    ensures
        r == atree_ok(nodes@, lo as int, hi as int),
    decreases nodes@,
{
    let mut i: usize = 0;
    while i < nodes.len()
        invariant
            i <= nodes@.len(),
            forall|k: int|
                0 <= k < i ==> {
                    &&& lo as int <= (#[trigger] nodes@[k]).start
                    &&& nodes@[k].start <= nodes@[k].end
                    &&& nodes@[k].end <= hi as int
                    &&& (k + 1 < nodes@.len() ==> nodes@[k].end <= nodes@[k + 1].start)
                    &&& atree_ok(
                        nodes@[k].children@,
                        nodes@[k].start as int,
                        nodes@[k].end as int,
                    )
                },
        decreases nodes@.len() - i,
    {
        let n = &nodes[i];
        if n.start < lo || n.start > n.end || n.end > hi {
            return false;
        }
        if i + 1 < nodes.len() && n.end > nodes[i + 1].start {
            return false;
        }
        proof {
            assert(decreases_to!(nodes@ => nodes@[i as int]));
            assert(decreases_to!(nodes@[i as int] => nodes@[i as int].children));
            assert(decreases_to!(nodes@[i as int].children => nodes@[i as int].children@));
            assert(decreases_to!(nodes@ => nodes@[i as int].children@));
        }
        if !check_answered(&n.children, n.start, n.end) {
            return false;
        }
        i = i + 1;
    }
    true
}


/// Appending entries that lie inside one node's range keeps the suffix
/// bookkeeping: everything appended since `base_len` stays inside
/// `lo .. hi`, and every entry ends at or before the next node's start.
proof fn lemma_append_bookkeeping(
    pre: Seq<InterestingNode>,
    post: Seq<InterestingNode>,
    base_len: int,
    lo: int,
    hi: int,
    node_start: int,
    node_end: int,
    next_bound: int,
)
    requires
        0 <= base_len <= pre.len() <= post.len(),
        post.subrange(0, pre.len() as int) == pre,
        forall|k: int|
            base_len <= k < pre.len() ==> lo <= (#[trigger] pre[k]).start && pre[k].end <= hi,
        forall|k: int| 0 <= k < pre.len() ==> (#[trigger] pre[k]).end <= node_start,
        forall|k: int|
            pre.len() <= k < post.len() ==> node_start <= (#[trigger] post[k]).start && post[
                k].end <= node_end,
        lo <= node_start,
        node_end <= hi,
        node_end <= next_bound,
        node_start <= node_end,
    ensures
        forall|k: int|
            base_len <= k < post.len() ==> lo <= (#[trigger] post[k]).start && post[k].end <= hi,
        forall|k: int| 0 <= k < post.len() ==> (#[trigger] post[k]).end <= next_bound,
{
    assert forall|k: int|
        base_len <= k < post.len() implies lo <= (#[trigger] post[k]).start && post[k].end
        <= hi by {
        if k < pre.len() {
            assert(post[k] == pre[k]);
        }
    }
    assert forall|k: int| 0 <= k < post.len() implies (#[trigger] post[k]).end <= next_bound by {
        if k < pre.len() {
            assert(post[k] == pre[k]);
        }
    }
}

/// A prefix of a prefix is a prefix.
proof fn lemma_prefix_chain(
    post: Seq<InterestingNode>,
    pre: Seq<InterestingNode>,
    base_len: int,
)
    requires
        0 <= base_len <= pre.len() <= post.len(),
        post.subrange(0, pre.len() as int) == pre,
    ensures
        post.subrange(0, base_len) == pre.subrange(0, base_len),
{
    assert(post.subrange(0, base_len) =~= pre.subrange(0, base_len));
}

/// The guard carries over appending a guarded segment.
proof fn lemma_guard_append(
    pre: Seq<InterestingNode>,
    post: Seq<InterestingNode>,
    base_len: int,
    contents: Seq<u8>,
)
    requires
        0 <= base_len <= pre.len() <= post.len(),
        post.subrange(0, pre.len() as int) == pre,
        growth_guarded(pre.subrange(base_len, pre.len() as int), contents),
        growth_guarded(post.subrange(pre.len() as int, post.len() as int), contents),
    ensures
        growth_guarded(post.subrange(base_len, post.len() as int), contents),
{
    lemma_guard_concat(
        pre.subrange(base_len, pre.len() as int),
        post.subrange(pre.len() as int, post.len() as int),
        contents,
    );
    assert(post.subrange(base_len, post.len() as int) =~= pre.subrange(base_len, pre.len() as int)
        + post.subrange(pre.len() as int, post.len() as int));
}

/// The guard carries over pushing one guarded node.
proof fn lemma_guard_push(
    suffix: Seq<InterestingNode>,
    node: InterestingNode,
    contents: Seq<u8>,
)
    requires
        growth_guarded(suffix, contents),
        !(forall|p: int|
            node.start <= p < node.end ==> is_ascii_ws(#[trigger] contents[p])),
        !contains_seq(node.replace_with@, contents.subrange(node.start as int, node.end as int)),
        growth_guarded(node.children.nodes@, contents),
    ensures
        growth_guarded(suffix + seq![node], contents),
{
    assert(growth_guarded(seq![node], contents)) by {
        assert forall|q: int|
            0 <= q < seq![node].len() implies {
            &&& !(forall|p: int|
                (#[trigger] seq![node][q]).start <= p < seq![node][q].end ==> is_ascii_ws(
                    #[trigger] contents[p],
                ))
            &&& !contains_seq(
                seq![node][q].replace_with@,
                contents.subrange(seq![node][q].start as int, seq![node][q].end as int),
            )
            &&& growth_guarded(seq![node][q].children.nodes@, contents)
        } by {
            assert(seq![node][q] == node);
        }
    }
    lemma_guard_concat(suffix, seq![node], contents);
}

/// The per-node collection of one interesting node: a single entry whose
/// shadow carries the node's range, replacement and collected children.
proof fn lemma_collect_single_hit(sn: AnsweredNode, try_all: bool, contents: Seq<u8>)
    requires
        is_interesting(sn, try_all, contents),
    ensures
        collect_spec(seq![sn], try_all, contents) == seq![
            (CollectedNode {
                start: sn.start as int,
                end: sn.end as int,
                rep: sn.answer->0@,
                children: collect_spec(sn.children@, try_all, contents),
            }),
        ],
{
    assert(seq![sn].drop_first() =~= Seq::<AnsweredNode>::empty());
    assert(collect_spec(Seq::<AnsweredNode>::empty(), try_all, contents) =~= Seq::<
        CollectedNode,
    >::empty());
    assert(seq![sn][0] == sn);
    assert(collect_spec(seq![sn], try_all, contents) =~= seq![
        (CollectedNode {
            start: sn.start as int,
            end: sn.end as int,
            rep: sn.answer->0@,
            children: collect_spec(sn.children@, try_all, contents),
        }),
    ]);
}

/// The per-node collection of an uninteresting node: its collected
/// children, in its place.
proof fn lemma_collect_single_skip(sn: AnsweredNode, try_all: bool, contents: Seq<u8>)
    requires
        !is_interesting(sn, try_all, contents),
    ensures
        collect_spec(seq![sn], try_all, contents) == collect_spec(sn.children@, try_all, contents),
{
    assert(seq![sn].drop_first() =~= Seq::<AnsweredNode>::empty());
    assert(collect_spec(Seq::<AnsweredNode>::empty(), try_all, contents) =~= Seq::<
        CollectedNode,
    >::empty());
    assert(seq![sn][0] == sn);
    assert(collect_spec(seq![sn], try_all, contents) =~= collect_spec(
        sn.children@,
        try_all,
        contents,
    ));
}

/// Pushing a node whose shadow matches the interesting node's collection
/// extends the shadow by exactly that collection.
proof fn lemma_deep_view_push(
    pre: Seq<InterestingNode>,
    node: InterestingNode,
    sn: AnsweredNode,
    try_all: bool,
    contents: Seq<u8>,
)
    requires
        is_interesting(sn, try_all, contents),
        node.start == sn.start,
        node.end == sn.end,
        node.replace_with@ == sn.answer->0@,
        deep_view(node.children.nodes@) == collect_spec(sn.children@, try_all, contents),
    ensures
        deep_view(pre.push(node)) == deep_view(pre) + collect_spec(seq![sn], try_all, contents),
{
    lemma_deep_view_concat(pre, seq![node]);
    assert(pre.push(node) =~= pre + seq![node]);
    assert(deep_view(seq![node]) =~= seq![
        (CollectedNode {
            start: node.start as int,
            end: node.end as int,
            rep: node.replace_with@,
            children: deep_view(node.children.nodes@),
        }),
    ]) by {
        assert(seq![node].drop_first() =~= Seq::<InterestingNode>::empty());
        assert(deep_view(Seq::<InterestingNode>::empty()) =~= Seq::<CollectedNode>::empty());
        assert(seq![node][0] == node);
    }
    lemma_collect_single_hit(sn, try_all, contents);
    assert(deep_view(pre.push(node)) =~= deep_view(pre) + collect_spec(seq![sn], try_all, contents));
}

/// Collects the interesting nodes of the answered tree into `out`. The
/// appended entries are exactly `collect_spec` of the tree — one entry
/// per interesting node, in source order, with its descendants nested —
/// and they keep the list well-formed, within bounds, and (unless every
/// node is matched) growth-guarded.
#[verifier::rlimit(100)]
fn collect_answers(
    nodes: &Vec<AnsweredNode>,
    try_all: bool,
    contents: &Vec<u8>,
    out: &mut InterestingNodeList,
    bound_lo: Ghost<int>,
    bound_hi: Ghost<int>,
)
    requires
        atree_ok(nodes@, bound_lo@, bound_hi@),
        0 <= bound_lo@ <= bound_hi@,
        bound_hi@ <= contents@.len(),
        !try_all ==> screened(nodes@, contents@),
        seq_wf(old(out).nodes@),
        forall|i: int|
            0 <= i < old(out).nodes@.len() ==> (#[trigger] old(out).nodes@[i]).end <= bound_lo@,
    ensures
        seq_wf(final(out).nodes@),
        final(out).nodes@.len() >= old(out).nodes@.len(),
        final(out).nodes@.subrange(0, old(out).nodes@.len() as int) == old(out).nodes@,
        forall|i: int|
            old(out).nodes@.len() <= i < final(out).nodes@.len() ==> bound_lo@ <= (
            #[trigger] final(out).nodes@[i]).start && final(out).nodes@[i].end <= bound_hi@,
        !try_all ==> growth_guarded(
            final(out).nodes@.subrange(
                old(out).nodes@.len() as int,
                final(out).nodes@.len() as int,
            ),
            contents@,
        ),
        deep_view(final(out).nodes@) == deep_view(old(out).nodes@) + collect_spec(
            nodes@,
            try_all,
            contents@,
        ),
    decreases nodes@,
{
    let ghost base = out.nodes@;
    let ghost all = nodes@;
    proof {
        assert(out.nodes@.subrange(base.len() as int, out.nodes@.len() as int) =~= Seq::<
            InterestingNode,
        >::empty());
        assert(growth_guarded(Seq::<InterestingNode>::empty(), contents@));
        assert(all.subrange(0, 0) =~= Seq::<AnsweredNode>::empty());
        assert(collect_spec(Seq::<AnsweredNode>::empty(), try_all, contents@) =~= Seq::<
            CollectedNode,
        >::empty());
        assert(deep_view(out.nodes@) =~= deep_view(base) + collect_spec(
            all.subrange(0, 0),
            try_all,
            contents@,
        ));
    }
    let mut i: usize = 0;
    while i < nodes.len()
        invariant
            atree_ok(all, bound_lo@, bound_hi@),
            all == nodes@,
            0 <= bound_lo@ <= bound_hi@,
            bound_hi@ <= contents@.len(),
            !try_all ==> screened(all, contents@),
            i <= all.len(),
            seq_wf(out.nodes@),
            out.nodes@.len() >= base.len(),
            out.nodes@.subrange(0, base.len() as int) == base,
            forall|k: int| 0 <= k < base.len() ==> (#[trigger] base[k]).end <= bound_lo@,
            forall|k: int|
                base.len() <= k < out.nodes@.len() ==> bound_lo@ <= (
                #[trigger] out.nodes@[k]).start && out.nodes@[k].end <= bound_hi@,
            forall|k: int|
                0 <= k < out.nodes@.len() ==> (#[trigger] out.nodes@[k]).end <= (if i
                    < all.len() {
                    all[i as int].start as int
                } else {
                    bound_hi@
                }),
            !try_all ==> growth_guarded(
                out.nodes@.subrange(base.len() as int, out.nodes@.len() as int),
                contents@,
            ),
            deep_view(out.nodes@) == deep_view(base) + collect_spec(
                all.subrange(0, i as int),
                try_all,
                contents@,
            ),
        decreases all.len() - i,
    {
        let n = &nodes[i];
        let ghost sn = all[i as int];
        proof {
            assert(all.subrange(0, i + 1) =~= all.subrange(0, i as int).push(sn));
            lemma_collect_snoc(all.subrange(0, i as int), sn, try_all, contents@);
            assert(decreases_to!(all => all[i as int]));
            assert(decreases_to!(all[i as int] => all[i as int].children));
            assert(decreases_to!(all[i as int].children => all[i as int].children@));
            assert(decreases_to!(all => all[i as int].children@));
        }
        let start = n.start;
        let end = n.end;
        let mut rep_opt: Option<Vec<u8>> = None;
        if start < end {
            match &n.answer {
                Some(rep) => {
                    let dup = if try_all {
                        false
                    } else {
                        contains_range(rep, contents, start, end)
                    };
                    if !dup {
                        rep_opt = Some(rep.clone());
                    }
                },
                None => {},
            }
        }
        proof {
            assert((rep_opt is Some) == is_interesting(sn, try_all, contents@));
            if rep_opt is Some {
                assert(rep_opt->0@ == sn.answer->0@);
            }
        }
        match rep_opt {
            Some(rep) => {
                let mut child_list = InterestingNodeList::new();
                collect_answers(
                    &n.children,
                    try_all,
                    contents,
                    &mut child_list,
                    Ghost(start as int),
                    Ghost(end as int),
                );
                let ghost pre = out.nodes@;
                let node = InterestingNode { start, end, replace_with: rep, children: child_list };
                proof {
                    assert(seq_inside(child_list.nodes@, start as int, end as int)) by {
                        assert forall|q: int|
                            0 <= q < child_list.nodes@.len() implies start as int <= (
                            #[trigger] child_list.nodes@[q]).start && child_list.nodes@[q].end
                            <= end as int by {}
                    }
                    lemma_wf_push(pre, node);
                }
                out.nodes.push(node);
                proof {
                    assert(out.nodes@ =~= pre.push(node));
                    assert(out.nodes@.subrange(0, pre.len() as int) =~= pre);
                    assert(bound_lo@ <= all[i as int].start && all[i as int].end <= bound_hi@
                        && all[i as int].start <= all[i as int].end);
                    if i + 1 < all.len() {
                        assert(all[i as int].end <= all[i + 1].start);
                    }
                    assert forall|k: int|
                        pre.len() <= k < out.nodes@.len() implies sn.start as int <= (
                        #[trigger] out.nodes@[k]).start && out.nodes@[k].end
                        <= sn.end as int by {
                        assert(out.nodes@[k] == node);
                    }
                    lemma_prefix_chain(out.nodes@, pre, base.len() as int);
                    lemma_append_bookkeeping(
                        pre,
                        out.nodes@,
                        base.len() as int,
                        bound_lo@,
                        bound_hi@,
                        sn.start as int,
                        sn.end as int,
                        (if i + 1 < all.len() {
                            all[i + 1].start as int
                        } else {
                            bound_hi@
                        }),
                    );
                    if !try_all {
                        assert(!(forall|p: int|
                            node.start <= p < node.end ==> is_ascii_ws(
                                #[trigger] contents@[p],
                            )));
                        assert(!contains_seq(
                            node.replace_with@,
                            contents@.subrange(node.start as int, node.end as int),
                        ));
                        assert(node.children.nodes@.subrange(
                            0,
                            node.children.nodes@.len() as int,
                        ) =~= node.children.nodes@);
                        lemma_guard_push(
                            pre.subrange(base.len() as int, pre.len() as int),
                            node,
                            contents@,
                        );
                        assert(out.nodes@.subrange(base.len() as int, out.nodes@.len() as int)
                            =~= pre.subrange(base.len() as int, pre.len() as int) + seq![node]);
                    }
                    assert(deep_view(node.children.nodes@) == collect_spec(
                        sn.children@,
                        try_all,
                        contents@,
                    )) by {
                        assert(deep_view(Seq::<InterestingNode>::empty()) =~= Seq::<
                            CollectedNode,
                        >::empty());
                    }
                    lemma_deep_view_push(pre, node, sn, try_all, contents@);
                    assert(deep_view(out.nodes@) =~= deep_view(base) + collect_spec(
                        all.subrange(0, i + 1),
                        try_all,
                        contents@,
                    ));
                }
            },
            None => {
                let ghost pre = out.nodes@;
                collect_answers(
                    &n.children,
                    try_all,
                    contents,
                    out,
                    Ghost(start as int),
                    Ghost(end as int),
                );
                proof {
                    assert(bound_lo@ <= all[i as int].start && all[i as int].end <= bound_hi@
                        && all[i as int].start <= all[i as int].end);
                    if i + 1 < all.len() {
                        assert(all[i as int].end <= all[i + 1].start);
                    }
                    lemma_prefix_chain(out.nodes@, pre, base.len() as int);
                    lemma_append_bookkeeping(
                        pre,
                        out.nodes@,
                        base.len() as int,
                        bound_lo@,
                        bound_hi@,
                        sn.start as int,
                        sn.end as int,
                        (if i + 1 < all.len() {
                            all[i + 1].start as int
                        } else {
                            bound_hi@
                        }),
                    );
                    if !try_all {
                        lemma_guard_append(pre, out.nodes@, base.len() as int, contents@);
                    }
                    lemma_collect_single_skip(sn, try_all, contents@);
                    assert(deep_view(out.nodes@) =~= deep_view(base) + collect_spec(
                        all.subrange(0, i + 1),
                        try_all,
                        contents@,
                    ));
                }
            },
        }
        i = i + 1;
    }
    proof {
        assert(all.subrange(0, all.len() as int) =~= all);
    }
}

/// The verified tail of the structural pass: from the matcher's answers
/// over the ordered lowered tree, collect the interesting nodes and build
/// the attempt sequence. `None` exactly when the collection covers no
/// bytes; otherwise a nonempty plan of valid splices, strictly shrinking,
/// whose first attempt replaces every collected byte.
pub fn plan_from_answers(
    contents: &Vec<u8>,
    answered: Vec<AnsweredNode>,
    try_all: bool,
    random_seed: u64,
    pass_name: &String,
) -> (r: Option<Vec<AttemptPlan>>)
    requires
        atree_ok(answered@, 0, contents@.len() as int),
        !try_all ==> screened(answered@, contents@),
    ensures
        (r is None) == (ccount(collect_spec(answered@, try_all, contents@)) == 0),
        r matches Some(plan) ==> {
            &&& plan@.len() > 0
            &&& plan@[0].removed == ccount(collect_spec(answered@, try_all, contents@))
            &&& plan_ordered(plan@)
            &&& forall|i: int|
                0 <= i < plan@.len() - 1 ==> (#[trigger] plan@[i]).removed > plan@[i + 1].removed
            &&& forall|k: int|
                0 <= k < plan@.len() ==> is_splice_attempt(contents@, #[trigger] plan@[k])
        },
{
    let ghost c = collect_spec(answered@, try_all, contents@);
    let mut list = InterestingNodeList::new();
    collect_answers(
        &answered,
        try_all,
        contents,
        &mut list,
        Ghost(0),
        Ghost(contents@.len() as int),
    );
    proof {
        assert(deep_view(Seq::<InterestingNode>::empty()) =~= Seq::<CollectedNode>::empty());
        assert(deep_view(list.nodes@) =~= c);
        lemma_count_deep(list.nodes@);
        assert(list.nodes@.subrange(0, list.nodes@.len() as int) =~= list.nodes@);
        assert(seq_inside(list.nodes@, 0, contents@.len() as int));
    }
    let total = list.count_bytes();
    if total == 0 {
        None
    } else {
        Some(build_attempts(contents, list, random_seed, pass_name))
    }
}

/// The flat top-level replacements of the list, in order.
fn snapshot_ranges(list: &InterestingNodeList) -> (r: Vec<Replacement>)
    ensures
        r@.len() == list.nodes@.len(),
        forall|i: int|
            0 <= i < r@.len() ==> (#[trigger] r@[i]).start == list.nodes@[i].start && r@[i].end
                == list.nodes@[i].end && r@[i].with@ == list.nodes@[i].replace_with@,
{
    let mut out: Vec<Replacement> = Vec::new();
    let mut i: usize = 0;
    while i < list.nodes.len()
        invariant
            i <= list.nodes@.len(),
            out@.len() == i,
            forall|k: int|
                0 <= k < i ==> (#[trigger] out@[k]).start == list.nodes@[k].start && out@[k].end
                    == list.nodes@[k].end && out@[k].with@ == list.nodes@[k].replace_with@,
        decreases list.nodes@.len() - i,
    {
        let n = &list.nodes[i];
        out.push(Replacement { start: n.start, end: n.end, with: n.replace_with.clone() });
        i = i + 1;
    }
    out
}

/// The top-level ranges of a well-formed, in-bounds list are a valid
/// replacement set for the file.
proof fn lemma_snapshot_valid(list: InterestingNodeList, r: Seq<Replacement>, len: int)
    requires
        seq_wf(list.nodes@),
        seq_inside(list.nodes@, 0, len),
        r.len() == list.nodes@.len(),
        forall|i: int|
            0 <= i < r.len() ==> (#[trigger] r[i]).start == list.nodes@[i].start && r[i].end
                == list.nodes@[i].end,
    ensures
        reps_valid(r, len),
{
    assert forall|k: int|
        0 <= k < r.len() implies (#[trigger] r[k]).start <= r[k].end && r[k].end <= len && (k + 1
        < r.len() ==> r[k].end <= r[k + 1].start) by {
        assert(list.nodes@[k].start < list.nodes@[k].end);
        if k + 1 < r.len() {
            assert(list.nodes@[k].end <= list.nodes@[k + 1].start);
        }
    }
}

/// An attempt that splices some valid set of ordered range replacements
/// into the original file.
pub open spec fn is_splice_attempt(original: Seq<u8>, attempt: AttemptPlan) -> bool {
    exists|reps: Seq<Replacement>|
        reps_valid(reps, original.len() as int) && attempt.contents@ == #[trigger] splice_spec(
            original,
            reps,
        )
}

/// Builds the attempt sequence from the collected list: the full list
/// first, then ever smaller sublists chosen by seeded dichotomy. Every
/// attempt is a valid splice of the original file, and the covered bytes
/// removed strictly decrease from each attempt to the next: a round only
/// yields an attempt when it removed something.
#[verifier::rlimit(50)]
pub fn build_attempts(
    contents: &Vec<u8>,
    list: InterestingNodeList,
    random_seed: u64,
    pass_name: &String,
) -> (r: Vec<AttemptPlan>)
    requires
        list.wf(),
        seq_inside(list.nodes@, 0, contents@.len() as int),
        list.spec_count() > 0,
    ensures
        r@.len() >= 1,
        r@[0].removed == list.spec_count(),
        plan_ordered(r@),
        forall|i: int| 0 <= i < r@.len() - 1 ==> (#[trigger] r@[i]).removed > r@[i + 1].removed,
        forall|k: int| 0 <= k < r@.len() ==> is_splice_attempt(contents@, #[trigger] r@[k]),
    {
    let mut rng = rng_from_seed(random_seed);
    let mut attempts: Vec<AttemptPlan> = Vec::new();
    let mut current = list;
    let total = current.count_bytes();
    let mut aim: usize = total;
    let mut cur: usize = total;

    let reps = snapshot_ranges(&current);
    proof {
        lemma_snapshot_valid(current, reps@, contents@.len() as int);
    }
    let first_contents = splice(contents, &reps);
    let mut description = pass_name.clone();
    description.append(": replace ");
    let cur_s = usize_to_string(cur);
    description.append(cur_s.as_str());
    description.append(" covered bytes");
    attempts.push(AttemptPlan { contents: first_contents, description, removed: cur });
    proof {
        assert(is_splice_attempt(contents@, attempts@[0]));
    }

    let mut finished = false;
    while !finished
        invariant
            current.wf(),
            seq_inside(current.nodes@, 0, contents@.len() as int),
            cur == current.spec_count(),
            cur <= total,
            attempts@.len() >= 1,
            attempts@[0].removed == total,
            !finished ==> attempts@[attempts@.len() - 1].removed == cur,
            plan_ordered(attempts@),
            forall|i: int, j: int|
                0 <= i < j < attempts@.len() ==> (#[trigger] attempts@[i]).removed > (
                #[trigger] attempts@[j]).removed,
            forall|k: int|
                0 <= k < attempts@.len() ==> is_splice_attempt(contents@, #[trigger] attempts@[k]),
            forall|k: int| 0 <= k < attempts@.len() ==> (#[trigger] attempts@[k]).removed >= cur,
        decreases aim, (if finished {
            0int
        } else {
            1int
        }),
    {
        aim = aim / 2;
        if aim == 0 {
            finished = true;
        } else {
            let mut removed_this_round: usize = 0;
            let threshold = if aim <= usize::MAX / 4 {
                aim * 4 / 3
            } else {
                usize::MAX
            };
            while threshold < cur && !finished
                invariant
                    current.wf(),
                    seq_inside(current.nodes@, 0, contents@.len() as int),
                    cur == current.spec_count(),
                    aim >= 1,
                    threshold >= aim,
                    removed_this_round + cur <= total,
                    cur <= total,
                    forall|k: int|
                        0 <= k < attempts@.len() ==> (#[trigger] attempts@[k]).removed >= cur,
                    attempts@.len() >= 1,
                    attempts@[0].removed == total,
                    attempts@[attempts@.len() - 1].removed == cur + removed_this_round,
                    plan_ordered(attempts@),
                    forall|i: int, j: int|
                        0 <= i < j < attempts@.len() ==> (#[trigger] attempts@[i]).removed > (
                        #[trigger] attempts@[j]).removed,
                    forall|k: int|
                        0 <= k < attempts@.len() ==> is_splice_attempt(
                            contents@,
                            #[trigger] attempts@[k],
                        ),
                decreases cur,
            {
                let total_to_remove = cur - aim;
                let want = rng_range(&mut rng, (total_to_remove + 1) / 2, total_to_remove + 1);
                proof {
                    lemma_count_fits(current.nodes@);
                    if current.nodes@.len() == 0 {
                        assert(current.spec_count() == 0);
                    }
                }
                let flip = rng_bool(&mut rng);
                let removed = if flip {
                    current.try_remove_front(want)
                } else {
                    current.try_remove_back(want)
                };
                cur = cur - removed;
                removed_this_round = removed_this_round + removed;
                if cur == 0 {
                    finished = true;
                }
            }
            if !finished && removed_this_round > 0 {
                let reps2 = snapshot_ranges(&current);
                proof {
                    lemma_snapshot_valid(current, reps2@, contents@.len() as int);
                }
                let ghost pre = attempts@;
                let new_contents = splice(contents, &reps2);
                let mut d2 = pass_name.clone();
                d2.append(": replace ");
                let cur_s2 = usize_to_string(cur);
                d2.append(cur_s2.as_str());
                d2.append(" covered bytes");
                attempts.push(AttemptPlan { contents: new_contents, description: d2, removed: cur });
                proof {
                    assert(is_splice_attempt(contents@, attempts@[pre.len() as int]));
                    assert forall|i: int, j: int|
                        0 <= i < j < attempts@.len() implies (#[trigger] attempts@[i]).removed > (
                        #[trigger] attempts@[j]).removed by {
                        if j < pre.len() {
                            assert(attempts@[i] == pre[i] && attempts@[j] == pre[j]);
                        } else {
                            assert(attempts@[i] == pre[i]);
                            assert(pre[pre.len() - 1].removed == cur + removed_this_round);
                            if i < pre.len() - 1 {
                                assert(pre[i].removed > pre[pre.len() - 1].removed);
                            }
                        }
                    }
                }
            }
        }
    }
    attempts
}

/// The tree-sitter structural replacement pass.
pub struct TreeSitterReplace<M: NodeMatcher> {
    /// Grammar to parse the input as.
    pub language: tree_sitter::Language,
    /// Human-readable name of this pass.
    pub name: String,
    /// Decides which nodes to try replacing, and with what.
    pub node_matcher: M,
    /// If false (the default), skip nodes that are pure whitespace or
    /// whose bytes occur inside their replacement, to keep repeated
    /// application from growing the input.
    pub try_match_all_nodes: bool,
}

impl<M: NodeMatcher> TreeSitterReplace<M> {
    /// Builds the attempt list for one job. The parse tree is lowered to
    /// plain values, annotated with the matcher's answers (`annotate`),
    /// checked for order, and handed to `plan_from_answers`, which fixes
    /// the result exactly for every answered tree. `None` when the file
    /// does not parse, the walk was cut short, the tree is not ordered,
    /// or the collection covers no bytes; otherwise a nonempty plan of
    /// valid splices of the original file, strictly shrinking, the first
    /// attempt replacing every collected node.
    pub fn plan(&self, contents: &Vec<u8>, random_seed: u64) -> (r: Option<Vec<AttemptPlan>>)
        ensures
            match r {
                None => true,
                Some(plan) => {
                    &&& plan@.len() > 0
                    &&& plan@[0].removed > 0
                    &&& plan_ordered(plan@)
                    &&& forall|i: int|
                        0 <= i < plan@.len() - 1 ==> (#[trigger] plan@[i]).removed > plan@[i
                            + 1].removed
                    &&& forall|k: int|
                        0 <= k < plan@.len() ==> is_splice_attempt(
                            contents@,
                            #[trigger] plan@[k],
                        )
                },
            },
    {
        let mut parser = parser_new();
        if !parser_set_language(&mut parser, &self.language) {
            return None;
        }
        let tree = match parser_parse(&mut parser, contents) {
            None => { return None },
            Some(t) => t,
        };
        let mut cursor = tree_walk(&tree);
        let root = cursor_node(&cursor);
        let root_kind = node_kind(&root).to_owned();
        let nodes = match lower_children(&mut cursor, u64::MAX) {
            None => { return None },
            Some(n) => n,
        };
        let answered = annotate(
            &self.node_matcher,
            self.try_match_all_nodes,
            contents,
            &nodes,
            Some(&root_kind),
            None,
        );
        if !check_answered(&answered, 0, contents.len()) {
            return None;
        }
        plan_from_answers(
            contents,
            answered,
            self.try_match_all_nodes,
            random_seed,
            &self.name,
        )
    }
}

impl<M: NodeMatcher> crate::pass::DichotomyPass for TreeSitterReplace<M> {
    fn list_attempts(&self, contents: &Vec<u8>, random_seed: u64, _recent_success_rate: u8) -> (r:
        Option<Vec<AttemptPlan>>)
    {
        self.plan(contents, random_seed)
    }
}

} // verus!
