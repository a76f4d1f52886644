//! Finding the definition sites of a syntax tree.
use vstd::prelude::*;
use crate::patch::{
    anchors_at_line_starts, anchors_sorted, anchors_within, lemma_strip_restores, no_line_feed,
    no_marker, patched, site_views, strip_markers, DefinitionKind, DefinitionSite, SiteView,
};

verus! {

broadcast use vstd::std_specs::vec::group_vec_axioms;

/// The categories of syntax node that the locator distinguishes.
#[derive(Clone, Copy, PartialEq, Eq, Structural, Debug)]
pub enum NodeKind {
    ClassDefinition,
    FunctionDefinition,
    MethodDefinition,
    /// A definition together with the decorators bound to it.
    DecoratedDefinition,
    Decorator,
    /// Anything else: statements, expressions, blocks.
    Other,
}

/// A node of a parsed text: its category, its byte range and its children in order.
pub struct SyntaxNode {
    pub kind: NodeKind,
    pub start: usize,
    pub end: usize,
    pub children: Vec<SyntaxNode>,
}

pub open spec fn is_definition(k: NodeKind) -> bool {
    k == NodeKind::ClassDefinition || k == NodeKind::FunctionDefinition || k
        == NodeKind::MethodDefinition
}

pub open spec fn site_kind(k: NodeKind) -> DefinitionKind {
    match k {
        NodeKind::ClassDefinition => DefinitionKind::Class,
        NodeKind::FunctionDefinition => DefinitionKind::Function,
        NodeKind::MethodDefinition => DefinitionKind::Method,
        _ => DefinitionKind::DecoratedDefinition,
    }
}

/// Every node of the tree lies within a text of length `len`, inside its
/// parent, and after its previous sibling.
pub open spec fn well_formed(n: SyntaxNode, len: int) -> bool
    decreases n, 1nat, 0nat,
{
    n.start <= n.end <= len && children_well_formed(n, len, n.children@.len() as int)
}

/// The first `k` children of `n` are well formed, inside `n` and in order.
pub open spec fn children_well_formed(n: SyntaxNode, len: int, k: int) -> bool
    decreases n, 0nat, k,
{
    if k <= 0 || k > n.children@.len() {
        true
    } else {
        &&& children_well_formed(n, len, k - 1)
        &&& well_formed(n.children@[k - 1], len)
        &&& n.start <= n.children@[k - 1].start
        &&& n.children@[k - 1].end <= n.end
        &&& k >= 2 ==> n.children@[k - 2].end <= n.children@[k - 1].start
    }
}

proof fn lemma_child_wf(n: SyntaxNode, len: int, k: int, i: int)
    requires
        0 <= i < k <= n.children@.len(),
        children_well_formed(n, len, k),
    ensures
        well_formed(n.children@[i], len),
        n.start <= n.children@[i].start,
        n.children@[i].end <= n.end,
        i >= 1 ==> n.children@[i - 1].end <= n.children@[i].start,
    decreases k,
{
    if i < k - 1 {
        lemma_child_wf(n, len, k - 1, i);
    }
}

/// Offset of the start of the line holding offset `x`.
pub open spec fn line_start(text: Seq<u8>, x: int) -> int
    decreases x,
{
    if x <= 0 {
        0
    } else if text[x - 1] == 10u8 {
        x
    } else {
        line_start(text, x - 1)
    }
}

/// Number of spaces and tabs at offset `i` and after.
pub open spec fn indent_len(text: Seq<u8>, i: int) -> int
    decreases text.len() - i,
{
    if 0 <= i < text.len() && (text[i] == 32u8 || text[i] == 9u8) {
        1 + indent_len(text, i + 1)
    } else {
        0
    }
}

/// The offset whose line a node's marker goes above: for a decorated
/// definition, its first decorator; for any other node, its own start.
pub open spec fn anchor_source(n: SyntaxNode) -> int {
    if n.kind == NodeKind::DecoratedDefinition && n.children@.len() > 0
        && n.children@[0].kind == NodeKind::Decorator {
        n.children@[0].start as int
    } else {
        n.start as int
    }
}

/// The site of a node at a given depth.
pub open spec fn site_at(text: Seq<u8>, n: SyntaxNode, depth: int) -> SiteView {
    let a = line_start(text, anchor_source(n));
    (site_kind(n.kind), a, text.subrange(a, a + indent_len(text, a)), depth)
}

/// A node gets a site when it is a decorated definition, or a definition
/// that no decorated definition wraps.
pub open spec fn has_site(n: SyntaxNode, wrapped: bool) -> bool {
    n.kind == NodeKind::DecoratedDefinition || (is_definition(n.kind) && !wrapped)
}

pub open spec fn next_depth(depth: int) -> int {
    if depth < usize::MAX {
        depth + 1
    } else {
        depth
    }
}

/// The sites of a tree in preorder: a node's own site, then those of its
/// children, one level deeper when the node has a site.
pub open spec fn sites_of(text: Seq<u8>, n: SyntaxNode, depth: int, wrapped: bool) -> Seq<SiteView>
    decreases n, 1nat, 0nat,
{
    if has_site(n, wrapped) {
        seq![site_at(text, n, depth)] + children_sites(
            text,
            n,
            next_depth(depth),
            n.children@.len() as int,
        )
    } else {
        children_sites(text, n, depth, n.children@.len() as int)
    }
}

/// The sites of the first `k` children of `n`.
pub open spec fn children_sites(text: Seq<u8>, n: SyntaxNode, depth: int, k: int) -> Seq<SiteView>
    decreases n, 0nat, k,
{
    if k <= 0 || k > n.children@.len() {
        Seq::empty()
    } else {
        children_sites(text, n, depth, k - 1) + sites_of(
            text,
            n.children@[k - 1],
            depth,
            n.kind == NodeKind::DecoratedDefinition,
        )
    }
}

fn find_line_start(text: &Vec<u8>, x: usize) -> (r: usize)
    requires
        x <= text@.len(),
    ensures
        r as int == line_start(text@, x as int),
{
    let mut i: usize = x;
    while i > 0 && text[i - 1] != 10u8
        invariant
            i <= x <= text@.len(),
            line_start(text@, i as int) == line_start(text@, x as int),
        decreases i,
    {
        i = i - 1;
    }
    i
}

fn copy_indent(text: &Vec<u8>, from: usize) -> (r: Vec<u8>)
    requires
        from <= text@.len(),
    ensures
        r@ == text@.subrange(from as int, from + indent_len(text@, from as int)),
{
    let mut r: Vec<u8> = Vec::new();
    let mut i: usize = from;
    while i < text.len() && (text[i] == 32u8 || text[i] == 9u8)
        invariant
            from <= i <= text@.len(),
            indent_len(text@, from as int) == (i - from) + indent_len(text@, i as int),
            r@ == text@.subrange(from as int, i as int),
        decreases text@.len() - i,
    {
        r.push(text[i]);
        assert(text@.subrange(from as int, i + 1) =~= text@.subrange(from as int, i as int).push(text@[i as int]));
        i = i + 1;
    }
    r
}

fn kind_of(k: NodeKind) -> (r: DefinitionKind)
    ensures
        r == site_kind(k),
{
    match k {
        NodeKind::ClassDefinition => DefinitionKind::Class,
        NodeKind::FunctionDefinition => DefinitionKind::Function,
        NodeKind::MethodDefinition => DefinitionKind::Method,
        _ => DefinitionKind::DecoratedDefinition,
    }
}

fn collect(text: &Vec<u8>, n: &SyntaxNode, depth: usize, wrapped: bool, out: &mut Vec<DefinitionSite>)
    requires
        well_formed(*n, text@.len() as int),
    ensures
        site_views(final(out)@) == site_views(old(out)@) + sites_of(text@, *n, depth as int, wrapped),
    decreases *n,
{
    let ghost start = site_views(out@);
    let own = n.kind == NodeKind::DecoratedDefinition || (!wrapped && (n.kind
        == NodeKind::ClassDefinition || n.kind == NodeKind::FunctionDefinition || n.kind
        == NodeKind::MethodDefinition));
    let mut inner = depth;
    if own {
        let src = if n.kind == NodeKind::DecoratedDefinition && n.children.len() > 0
            && n.children[0].kind == NodeKind::Decorator {
            proof {
                lemma_child_wf(*n, text@.len() as int, n.children@.len() as int, 0);
            }
            n.children[0].start
        } else {
            n.start
        };
        let a = find_line_start(text, src);
        assert(a <= text@.len()) by {
            lemma_line_start_bounds(text@, src as int);
        }
        let indent = copy_indent(text, a);
        let site = DefinitionSite { kind: kind_of(n.kind), anchor: a, indent, depth };
        out.push(site);
        assert(site_views(out@) =~= start + seq![site_at(text@, *n, depth as int)]);
        if depth < usize::MAX {
            inner = depth + 1;
        }
    }
    let ghost head = site_views(out@);
    let child_wrapped = n.kind == NodeKind::DecoratedDefinition;
    let mut k: usize = 0;
    while k < n.children.len()
        invariant
            k <= n.children@.len(),
            well_formed(*n, text@.len() as int),
            child_wrapped == (n.kind == NodeKind::DecoratedDefinition),
            site_views(out@) == head + children_sites(text@, *n, inner as int, k as int),
        decreases n.children@.len() - k,
    {
        let ghost before = site_views(out@);
        proof {
            lemma_child_wf(*n, text@.len() as int, n.children@.len() as int, k as int);
        }
        collect(text, &n.children[k], inner, child_wrapped, out);
        assert(site_views(out@) =~= head + children_sites(text@, *n, inner as int, k + 1));
        k = k + 1;
    }
    assert(site_views(out@) =~= start + sites_of(text@, *n, depth as int, wrapped));
}

proof fn lemma_line_start_bounds(text: Seq<u8>, x: int)
    requires
        0 <= x,
    ensures
        0 <= line_start(text, x) <= x,
    decreases x,
{
    if x > 0 && text[x - 1] != 10u8 {
        lemma_line_start_bounds(text, x - 1);
    }
}

/// The definition sites of a tree, outer definitions before the ones they hold.
pub fn locate(root: &SyntaxNode, text: &Vec<u8>) -> (r: Vec<DefinitionSite>)
    requires
        well_formed(*root, text@.len() as int),
    ensures
        site_views(r@) == sites_of(text@, *root, 0, false),
        anchors_sorted(site_views(r@)),
        anchors_within(site_views(r@), text@.len() as int),
{
    proof {
        lemma_sites_sorted(text@, *root, 0, false);
        lemma_line_start_bounds(text@, root.start as int);
        lemma_line_start_bounds(text@, root.end as int);
    }
    let mut out: Vec<DefinitionSite> = Vec::new();
    collect(text, root, 0, false, &mut out);
    assert(site_views(Seq::<DefinitionSite>::empty()) =~= Seq::<SiteView>::empty());
    assert(Seq::<SiteView>::empty() + sites_of(text@, *root, 0, false) =~= sites_of(text@, *root, 0, false));
    out
}

/// A decorated definition whose first child is a decorator gets its site at
/// the start of that decorator's line, not the line of the definition itself.
pub proof fn lemma_decorated_anchor(text: Seq<u8>, n: SyntaxNode, depth: int, wrapped: bool)
    requires
        n.kind == NodeKind::DecoratedDefinition,
        n.children@.len() > 0,
        n.children@[0].kind == NodeKind::Decorator,
    ensures
        sites_of(text, n, depth, wrapped).len() >= 1,
        sites_of(text, n, depth, wrapped)[0].1 == line_start(text, n.children@[0].start as int),
        sites_of(text, n, depth, wrapped)[0].0 == DefinitionKind::DecoratedDefinition,
{
}


proof fn lemma_line_start_monotone(text: Seq<u8>, x: int, y: int)
    requires
        0 <= x <= y,
    ensures
        line_start(text, x) <= line_start(text, y),
    decreases y,
{
    lemma_line_start_bounds(text, x);
    if x < y && text[y - 1] != 10u8 {
        lemma_line_start_monotone(text, x, y - 1);
    }
}

pub open spec fn views_between(s: Seq<SiteView>, lo: int, hi: int) -> bool {
    forall|i: int| 0 <= i < s.len() ==> lo <= #[trigger] s[i].1 <= hi
}

/// The sites of a well-formed node come in anchor order, between the starts
/// of the lines of its first and last byte.
proof fn lemma_sites_sorted(text: Seq<u8>, n: SyntaxNode, depth: int, wrapped: bool)
    requires
        well_formed(n, text.len() as int),
    ensures
        anchors_sorted(sites_of(text, n, depth, wrapped)),
        views_between(sites_of(text, n, depth, wrapped), line_start(text, n.start as int), line_start(text, n.end as int)),
    decreases n, 1nat, 0nat,
{
    let len = text.len() as int;
    let k = n.children@.len() as int;
    let d = if has_site(n, wrapped) { next_depth(depth) } else { depth };
    let cs = children_sites(text, n, d, k);
    lemma_children_sorted(text, n, d, k);
    lemma_line_start_monotone(text, n.start as int, n.end as int);
    if k > 0 {
        lemma_child_wf(n, len, k, 0);
        lemma_child_wf(n, len, k, k - 1);
        lemma_line_start_monotone(text, n.start as int, n.children@[0].start as int);
        lemma_line_start_monotone(text, n.children@[k - 1].end as int, n.end as int);
        lemma_line_start_monotone(text, n.children@[0].start as int, n.children@[0].end as int);
        lemma_line_start_monotone(text, n.children@[0].end as int, n.end as int);
    }
    if has_site(n, wrapped) {
        let own = site_at(text, n, depth);
        let all = seq![own] + cs;
        assert(all == sites_of(text, n, depth, wrapped));
        assert(line_start(text, n.start as int) <= own.1 <= line_start(text, n.end as int));
        assert forall|i: int, j: int| 0 <= i <= j < all.len() implies all[i].1 <= all[j].1 by {
            if i == 0 && j > 0 {
                assert(all[j] == cs[j - 1]);
            } else if i > 0 {
                assert(all[i] == cs[i - 1]);
                assert(all[j] == cs[j - 1]);
            }
        }
        assert forall|i: int| 0 <= i < all.len() implies line_start(text, n.start as int) <= #[trigger] all[i].1
            <= line_start(text, n.end as int) by {
            if i > 0 {
                assert(all[i] == cs[i - 1]);
            }
        }
    }
}

/// The sites of the first `k` children of a well-formed node come in anchor
/// order, between the line of the first child's start and that of the
/// `k`-th child's end.
proof fn lemma_children_sorted(text: Seq<u8>, n: SyntaxNode, depth: int, k: int)
    requires
        0 <= k <= n.children@.len(),
        children_well_formed(n, text.len() as int, n.children@.len() as int),
    ensures
        anchors_sorted(children_sites(text, n, depth, k)),
        k > 0 ==> views_between(
            children_sites(text, n, depth, k),
            line_start(text, n.children@[0].start as int),
            line_start(text, n.children@[k - 1].end as int),
        ),
    decreases n, 0nat, k,
{
    if k > 0 {
        let len = text.len() as int;
        let all_k = n.children@.len() as int;
        let c = n.children@[k - 1];
        let wrapped = n.kind == NodeKind::DecoratedDefinition;
        let prev = children_sites(text, n, depth, k - 1);
        let mine = sites_of(text, c, depth, wrapped);
        lemma_children_sorted(text, n, depth, k - 1);
        lemma_child_wf(n, len, all_k, k - 1);
        lemma_child_wf(n, len, all_k, 0);
        lemma_sites_sorted(text, c, depth, wrapped);
        let lo = line_start(text, n.children@[0].start as int);
        if k > 1 {
            lemma_child_wf(n, len, all_k, k - 2);
            lemma_line_start_monotone(text, n.children@[k - 2].end as int, c.start as int);
            lemma_first_child_before(text, n, len, k - 1);
        }
        if k > 1 {
            lemma_starts_ordered(n, len, 0, k - 1);
        }
        lemma_line_start_monotone(text, n.children@[0].start as int, c.start as int);
        let all = prev + mine;
        assert(all == children_sites(text, n, depth, k));
        assert forall|i: int, j: int| 0 <= i <= j < all.len() implies all[i].1 <= all[j].1 by {
            if j < prev.len() {
            } else if i >= prev.len() {
                assert(all[i] == mine[i - prev.len()]);
                assert(all[j] == mine[j - prev.len()]);
            } else {
                assert(all[j] == mine[j - prev.len()]);
            }
        }
        lemma_line_start_monotone(text, c.start as int, c.end as int);
        assert forall|i: int| 0 <= i < all.len() implies lo <= #[trigger] all[i].1 <= line_start(text, c.end as int) by {
            if i >= prev.len() {
                assert(all[i] == mine[i - prev.len()]);
            } else {
                assert(all[i] == prev[i]);
            }
        }
    }
}

proof fn lemma_starts_ordered(n: SyntaxNode, len: int, i: int, j: int)
    requires
        0 <= i <= j < n.children@.len(),
        children_well_formed(n, len, n.children@.len() as int),
    ensures
        n.children@[i].start <= n.children@[j].start,
    decreases j - i,
{
    if i < j {
        lemma_starts_ordered(n, len, i, j - 1);
        lemma_child_wf(n, len, n.children@.len() as int, j - 1);
        lemma_child_wf(n, len, n.children@.len() as int, j);
        assert(well_formed(n.children@[j - 1], len));
    }
}

proof fn lemma_first_child_before(text: Seq<u8>, n: SyntaxNode, len: int, j: int)
    requires
        1 <= j < n.children@.len(),
        children_well_formed(n, len, n.children@.len() as int),
    ensures
        line_start(text, n.children@[j - 1].end as int) <= line_start(text, n.children@[j].start as int),
{
    lemma_child_wf(n, len, n.children@.len() as int, j);
    lemma_child_wf(n, len, n.children@.len() as int, j - 1);
    lemma_line_start_monotone(text, n.children@[j - 1].end as int, n.children@[j].start as int);
}

/// A site that starts a line of `text` and whose indentation holds no line feed.
pub open spec fn site_fits(text: Seq<u8>, s: SiteView) -> bool {
    &&& 0 <= s.1 <= text.len()
    &&& (s.1 == 0 || text[s.1 - 1] == 10u8)
    &&& no_line_feed(s.2)
}

proof fn lemma_line_start_is_line_start(text: Seq<u8>, x: int)
    requires
        0 <= x,
    ensures
        line_start(text, x) == 0 || text[line_start(text, x) - 1] == 10u8,
    decreases x,
{
    if x > 0 && text[x - 1] != 10u8 {
        lemma_line_start_is_line_start(text, x - 1);
    }
}

proof fn lemma_indent_blank(text: Seq<u8>, i: int)
    requires
        0 <= i <= text.len(),
    ensures
        i + indent_len(text, i) <= text.len(),
        indent_len(text, i) >= 0,
        forall|j: int| i <= j < i + indent_len(text, i) ==> text[j] == 32u8 || text[j] == 9u8,
    decreases text.len() - i,
{
    if i < text.len() && (text[i] == 32u8 || text[i] == 9u8) {
        lemma_indent_blank(text, i + 1);
    }
}

proof fn lemma_site_at_fits(text: Seq<u8>, n: SyntaxNode, depth: int)
    requires
        well_formed(n, text.len() as int),
    ensures
        site_fits(text, site_at(text, n, depth)),
{
    let len = text.len() as int;
    let src = anchor_source(n);
    if n.children@.len() > 0 {
        lemma_child_wf(n, len, n.children@.len() as int, 0);
    }
    assert(0 <= src <= len);
    lemma_line_start_bounds(text, src);
    lemma_line_start_is_line_start(text, src);
    let a = line_start(text, src);
    lemma_indent_blank(text, a);
    let ind = text.subrange(a, a + indent_len(text, a));
    assert forall|i: int| 0 <= i < ind.len() implies ind[i] != 10u8 by {
        assert(ind[i] == text[a + i]);
    }
}

proof fn lemma_sites_fit(text: Seq<u8>, n: SyntaxNode, depth: int, wrapped: bool)
    requires
        well_formed(n, text.len() as int),
    ensures
        forall|i: int| 0 <= i < sites_of(text, n, depth, wrapped).len() ==> site_fits(text, #[trigger] sites_of(text, n, depth, wrapped)[i]),
    decreases n, 1nat, 0nat,
{
    let k = n.children@.len() as int;
    let d = if has_site(n, wrapped) { next_depth(depth) } else { depth };
    let cs = children_sites(text, n, d, k);
    lemma_children_fit(text, n, d, k);
    if has_site(n, wrapped) {
        lemma_site_at_fits(text, n, depth);
        let all = seq![site_at(text, n, depth)] + cs;
        assert forall|i: int| 0 <= i < all.len() implies site_fits(text, #[trigger] all[i]) by {
            if i > 0 {
                assert(all[i] == cs[i - 1]);
            }
        }
    }
}

proof fn lemma_children_fit(text: Seq<u8>, n: SyntaxNode, depth: int, k: int)
    requires
        0 <= k <= n.children@.len(),
        children_well_formed(n, text.len() as int, n.children@.len() as int),
    ensures
        forall|i: int| 0 <= i < children_sites(text, n, depth, k).len() ==> site_fits(text, #[trigger] children_sites(text, n, depth, k)[i]),
    decreases n, 0nat, k,
{
    if k > 0 {
        let wrapped = n.kind == NodeKind::DecoratedDefinition;
        let prev = children_sites(text, n, depth, k - 1);
        let mine = sites_of(text, n.children@[k - 1], depth, wrapped);
        lemma_children_fit(text, n, depth, k - 1);
        lemma_child_wf(n, text.len() as int, n.children@.len() as int, k - 1);
        lemma_sites_fit(text, n.children@[k - 1], depth, wrapped);
        let all = prev + mine;
        assert forall|i: int| 0 <= i < all.len() implies site_fits(text, #[trigger] all[i]) by {
            if i >= prev.len() {
                assert(all[i] == mine[i - prev.len()]);
            } else {
                assert(all[i] == prev[i]);
            }
        }
    }
}

/// Taking the marker lines out of an annotated text gives back the text,
/// byte for byte, when the text holds no marker line of its own.
pub proof fn lemma_annotation_reversible(text: Seq<u8>, root: SyntaxNode, comment: Seq<u8>)
    requires
        well_formed(root, text.len() as int),
        no_line_feed(comment),
        no_marker(text),
    ensures
        strip_markers(patched(text, sites_of(text, root, 0, false), comment)) == text,
{
    let ss = sites_of(text, root, 0, false);
    lemma_sites_sorted(text, root, 0, false);
    lemma_sites_fit(text, root, 0, false);
    assert forall|i: int| 0 <= i < ss.len() implies 0 <= #[trigger] ss[i].1 <= text.len() by {
        assert(site_fits(text, ss[i]));
    }
    assert forall|i: int| 0 <= i < ss.len() implies no_line_feed(#[trigger] ss[i].2) by {
        assert(site_fits(text, ss[i]));
    }
    assert(anchors_at_line_starts(text, ss)) by {
        assert forall|i: int| 0 <= i < ss.len() implies {
            let a = #[trigger] ss[i].1;
            a == 0 || text[a - 1] == 10u8
        } by {
            assert(site_fits(text, ss[i]));
        }
    }
    lemma_strip_restores(text, ss, comment);
}

} // verus!
