//! Inserting marker comment lines above definitions.
use vstd::prelude::*;

verus! {

broadcast use vstd::std_specs::vec::group_vec_axioms;

/// The kind of definition a site marks.
#[derive(Clone, Copy, PartialEq, Eq, Structural, Debug)]
pub enum DefinitionKind {
    Class,
    Function,
    Method,
    DecoratedDefinition,
}

/// A place in a text above which a marker line goes.
pub struct DefinitionSite {
    pub kind: DefinitionKind,
    /// Byte offset of the start of the line that the marker goes above.
    pub anchor: usize,
    /// The indentation of that line, byte for byte.
    pub indent: Vec<u8>,
    /// How many definitions enclose this one.
    pub depth: usize,
}

/// Why a text could not be patched.
#[derive(Clone, Copy, PartialEq, Eq, Structural, Debug)]
pub enum PatchError {
    /// An anchor lies past the end of the text.
    AnchorOutOfRange,
}

/// The fixed text that ends every marker line, after the comment token.
pub open spec fn marker_payload() -> Seq<u8> {
    seq![32u8, 91u8, 84u8, 79u8, 68u8, 79u8, 93u8]
}

/// The line inserted for a site: its indentation, the comment token, the
/// payload and a line feed.
pub open spec fn marker_line(indent: Seq<u8>, comment: Seq<u8>) -> Seq<u8> {
    indent + comment + marker_payload() + seq![10u8]
}

/// A site in mathematical form: kind, anchor, indentation, depth.
pub type SiteView = (DefinitionKind, int, Seq<u8>, int);

pub open spec fn site_view(s: DefinitionSite) -> SiteView {
    (s.kind, s.anchor as int, s.indent@, s.depth as int)
}

pub open spec fn site_views(s: Seq<DefinitionSite>) -> Seq<SiteView> {
    s.map_values(|x: DefinitionSite| site_view(x))
}

pub open spec fn anchors_sorted(sites: Seq<SiteView>) -> bool {
    forall|i: int, j: int| 0 <= i <= j < sites.len() ==> sites[i].1 <= sites[j].1
}

pub open spec fn anchors_within(sites: Seq<SiteView>, n: int) -> bool {
    forall|i: int| 0 <= i < sites.len() ==> 0 <= #[trigger] sites[i].1 <= n
}

/// `text` with the marker line of each site inserted at its anchor, the
/// sites taken from the highest anchor down.
pub open spec fn patched(text: Seq<u8>, sites: Seq<SiteView>, comment: Seq<u8>) -> Seq<u8>
    decreases sites.len(),
{
    if sites.len() == 0 {
        text
    } else {
        let s = sites.last();
        let a = s.1;
        patched(text.subrange(0, a), sites.drop_last(), comment) + marker_line(s.2, comment)
            + text.subrange(a, text.len() as int)
    }
}

/// Text appended after every anchor passes through patching unchanged.
proof fn lemma_patched_append(t: Seq<u8>, u: Seq<u8>, sites: Seq<SiteView>, comment: Seq<u8>)
    requires
        anchors_within(sites, t.len() as int),
    ensures
        patched(t + u, sites, comment) == patched(t, sites, comment) + u,
{
    if sites.len() > 0 {
        let a = sites.last().1;
        assert((t + u).subrange(0, a) =~= t.subrange(0, a));
        assert((t + u).subrange(a, (t + u).len() as int) =~= t.subrange(a, t.len() as int) + u);
        assert(patched(t + u, sites, comment) =~= patched(t, sites, comment) + u);
    }
}

fn extend_from(out: &mut Vec<u8>, src: &Vec<u8>, from: usize, to: usize)
    requires
        from <= to <= src@.len(),
    ensures
        final(out)@ == old(out)@ + src@.subrange(from as int, to as int),
{
    let mut k: usize = from;
    while k < to
        invariant
            from <= k <= to <= src@.len(),
            out@ == old(out)@ + src@.subrange(from as int, k as int),
        decreases to - k,
    {
        out.push(src[k]);
        assert(src@.subrange(from as int, k + 1) =~= src@.subrange(from as int, k as int).push(src@[k as int]));
        k = k + 1;
    }
}

/// Where a site with anchor `a` goes among anchor-ordered sites `s`: after
/// every site whose anchor is at most `a`.
pub open spec fn insert_pos(s: Seq<SiteView>, a: int) -> int
    decreases s.len(),
{
    if s.len() == 0 {
        0
    } else if s.last().1 <= a {
        s.len() as int
    } else {
        insert_pos(s.drop_last(), a)
    }
}

/// The sites in anchor order; sites with equal anchors keep their order.
pub open spec fn sort_sites(s: Seq<SiteView>) -> Seq<SiteView>
    decreases s.len(),
{
    if s.len() == 0 {
        s
    } else {
        let t = sort_sites(s.drop_last());
        t.insert(insert_pos(t, s.last().1), s.last())
    }
}

proof fn lemma_insert_pos(t: Seq<SiteView>, a: int)
    requires
        anchors_sorted(t),
    ensures
        0 <= insert_pos(t, a) <= t.len(),
        forall|i: int| 0 <= i < insert_pos(t, a) ==> t[i].1 <= a,
        forall|i: int| insert_pos(t, a) <= i < t.len() ==> t[i].1 > a,
    decreases t.len(),
{
    if t.len() > 0 {
        if t.last().1 > a {
            let d = t.drop_last();
            assert(anchors_sorted(d));
            lemma_insert_pos(d, a);
            assert forall|i: int| 0 <= i < d.len() implies t[i] == d[i] by {}
        } else {
            assert forall|i: int| 0 <= i < t.len() implies t[i].1 <= a by {
                assert(t[i].1 <= t[t.len() - 1].1);
            }
        }
    }
}

/// Putting sites in anchor order keeps their number and the bounds on their
/// anchors, and leaves sites already in order as they are.
pub proof fn lemma_sort_sites(s: Seq<SiteView>, n: int)
    ensures
        sort_sites(s).len() == s.len(),
        anchors_sorted(sort_sites(s)),
        anchors_within(s, n) ==> anchors_within(sort_sites(s), n),
        anchors_sorted(s) ==> sort_sites(s) == s,
    decreases s.len(),
{
    if s.len() > 0 {
        let d = s.drop_last();
        let x = s.last();
        lemma_sort_sites(d, n);
        let t = sort_sites(d);
        lemma_insert_pos(t, x.1);
        let p = insert_pos(t, x.1);
        let u = t.insert(p, x);
        assert forall|i: int, j: int| 0 <= i <= j < u.len() implies u[i].1 <= u[j].1 by {
            if i < p && j > p {
                assert(u[j] == t[j - 1]);
            } else if i > p {
                assert(u[i] == t[i - 1]);
                assert(u[j] == t[j - 1]);
            }
        }
        if anchors_within(s, n) {
            assert(anchors_within(d, n));
            assert forall|i: int| 0 <= i < u.len() implies 0 <= #[trigger] u[i].1 <= n by {
                if i < p {
                } else if i > p {
                    assert(u[i] == t[i - 1]);
                } else {
                    assert(s[s.len() - 1] == x);
                }
            }
        }
        if anchors_sorted(s) {
            assert(anchors_sorted(d));
            if d.len() > 0 {
                assert(d.last().1 <= x.1);
            }
            assert(p == d.len());
            assert(u =~= s);
        }
    }
}

/// The sites picked by `order`, one index each.
pub open spec fn picked(order: Seq<usize>, sv: Seq<SiteView>) -> Seq<SiteView> {
    order.map_values(|j: usize| sv[j as int])
}

/// Indices of the sites in anchor order (see `sort_sites`).
fn order_sites(sites: &Vec<DefinitionSite>) -> (order: Vec<usize>)
    ensures
        forall|j: int| 0 <= j < order@.len() ==> order@[j] < sites@.len(),
        picked(order@, site_views(sites@)) == sort_sites(site_views(sites@)),
{
    let ghost sv = site_views(sites@);
    let mut order: Vec<usize> = Vec::new();
    let mut k: usize = 0;
    while k < sites.len()
        invariant
            k <= sites@.len(),
            sv == site_views(sites@),
            forall|j: int| 0 <= j < order@.len() ==> order@[j] < sites@.len(),
            picked(order@, sv) == sort_sites(sv.subrange(0, k as int)),
        decreases sites@.len() - k,
    {
        let ghost t = picked(order@, sv);
        let ghost pre = sv.subrange(0, k + 1);
        proof {
            assert(pre.drop_last() =~= sv.subrange(0, k as int));
            lemma_sort_sites(sv.subrange(0, k as int), 0);
        }
        let a = sites[k].anchor;
        let mut p: usize = order.len();
        assert(t.subrange(0, p as int) =~= t);
        while p > 0 && sites[order[p - 1]].anchor > a
            invariant
                p <= order@.len(),
                t == picked(order@, sv),
                sv == site_views(sites@),
                a == sv[k as int].1,
                forall|j: int| 0 <= j < order@.len() ==> order@[j] < sites@.len(),
                insert_pos(t, a as int) == insert_pos(t.subrange(0, p as int), a as int),
            decreases p,
        {
            assert(t.subrange(0, p as int).drop_last() =~= t.subrange(0, p - 1));
            p = p - 1;
        }
        proof {
            if p > 0 {
                assert(t.subrange(0, p as int).last().1 <= a);
            }
            assert(t.subrange(0, order@.len() as int) =~= t);
        }
        order.insert(p, k);
        assert(picked(order@, sv) =~= t.insert(p as int, sv[k as int]));
        assert(pre.last() == sv[k as int]);
        k = k + 1;
    }
    assert(sv.subrange(0, sv.len() as int) =~= sv);
    order
}

/// Inserts a marker line above each site's anchor; every byte of `text`
/// stays, in order. Fails when an anchor lies past the end of the text.
pub fn apply(text: &Vec<u8>, sites: &Vec<DefinitionSite>, comment_token: &Vec<u8>) -> (r: Result<Vec<u8>, PatchError>)
    ensures
        r is Err <==> !anchors_within(site_views(sites@), text@.len() as int),
        r matches Ok(out) ==> out@ == patched(text@, sort_sites(site_views(sites@)), comment_token@),
{
    let ghost sv = site_views(sites@);
    let mut i: usize = 0;
    while i < sites.len()
        invariant
            i <= sites@.len(),
            sv == site_views(sites@),
            forall|j: int| 0 <= j < i ==> 0 <= #[trigger] sv[j].1 <= text@.len(),
        decreases sites@.len() - i,
    {
        if sites[i].anchor > text.len() {
            assert(sv[i as int].1 > text@.len());
            return Err(PatchError::AnchorOutOfRange);
        }
        i = i + 1;
    }
    let order = order_sites(sites);
    let ghost ss = sort_sites(sv);
    proof {
        lemma_sort_sites(sv, text@.len() as int);
    }
    let mut out: Vec<u8> = Vec::new();
    let mut pos: usize = 0;
    let mut i: usize = 0;
    while i < order.len()
        invariant
            i <= order@.len(),
            order@.len() == ss.len(),
            sv == site_views(sites@),
            ss == sort_sites(sv),
            picked(order@, sv) == ss,
            forall|j: int| 0 <= j < order@.len() ==> order@[j] < sites@.len(),
            anchors_sorted(ss),
            anchors_within(ss, text@.len() as int),
            pos <= text@.len(),
            i > 0 ==> pos == ss[i - 1].1,
            i == 0 ==> pos == 0,
            out@ == patched(text@.subrange(0, pos as int), ss.subrange(0, i as int), comment_token@),
        decreases order@.len() - i,
    {
        let site = &sites[order[i]];
        let a = site.anchor;
        assert(ss[i as int] == sv[order@[i as int] as int]);
        assert(ss[i as int].1 == a);
        let ghost before = ss.subrange(0, i as int);
        let ghost t = text@.subrange(0, pos as int);
        let ghost u = text@.subrange(pos as int, a as int);
        proof {
            assert(anchors_within(before, pos as int));
            lemma_patched_append(t, u, before, comment_token@);
            assert(t + u =~= text@.subrange(0, a as int));
        }
        extend_from(&mut out, text, pos, a);
        let ind = &site.indent;
        extend_from(&mut out, ind, 0, ind.len());
        extend_from(&mut out, comment_token, 0, comment_token.len());
        let payload: Vec<u8> = vec![32u8, 91u8, 84u8, 79u8, 68u8, 79u8, 93u8, 10u8];
        extend_from(&mut out, &payload, 0, payload.len());
        proof {
            let after = ss.subrange(0, i + 1);
            let ta = text@.subrange(0, a as int);
            assert(after.drop_last() =~= before);
            assert(ta.subrange(0, a as int) =~= ta);
            assert(ta.subrange(a as int, a as int) =~= Seq::<u8>::empty());
            assert(ind@.subrange(0, ind@.len() as int) =~= ind@);
            assert(comment_token@.subrange(0, comment_token@.len() as int) =~= comment_token@);
            assert(payload@.subrange(0, 8) =~= marker_payload() + seq![10u8]);
            assert(out@ =~= patched(ta, after, comment_token@));
        }
        pos = a;
        i = i + 1;
    }
    let ghost t = text@.subrange(0, pos as int);
    proof {
        assert(ss.subrange(0, ss.len() as int) =~= ss);
        lemma_patched_append(t, text@.subrange(pos as int, text@.len() as int), ss, comment_token@);
        assert(t + text@.subrange(pos as int, text@.len() as int) =~= text@);
    }
    extend_from(&mut out, text, pos, text.len());
    Ok(out)
}


/// A marker line ends, before its line feed, with the marker payload.
pub open spec fn marker_tail() -> Seq<u8> {
    marker_payload() + seq![10u8]
}

/// A complete line (with its line feed) that is a marker line.
pub open spec fn is_marker_line(line: Seq<u8>) -> bool {
    line.len() >= 8 && line.subrange(line.len() - 8, line.len() as int) == marker_tail()
}

/// The lines of `s`, the first of which starts with `cur`, without those
/// that are marker lines.
pub open spec fn strip_from(cur: Seq<u8>, s: Seq<u8>) -> Seq<u8>
    decreases s.len(),
{
    if s.len() == 0 {
        cur
    } else if s[0] == 10u8 {
        let line = cur.push(10u8);
        (if is_marker_line(line) {
            Seq::empty()
        } else {
            line
        }) + strip_from(Seq::empty(), s.drop_first())
    } else {
        strip_from(cur.push(s[0]), s.drop_first())
    }
}

/// `s` without its marker lines.
pub open spec fn strip_markers(s: Seq<u8>) -> Seq<u8> {
    strip_from(Seq::empty(), s)
}

/// `s` holds no marker line.
pub open spec fn no_marker(s: Seq<u8>) -> bool {
    forall|i: int| 0 <= i && i + 8 <= s.len() ==> #[trigger] s.subrange(i, i + 8) != marker_tail()
}

pub open spec fn no_line_feed(s: Seq<u8>) -> bool {
    forall|i: int| 0 <= i < s.len() ==> s[i] != 10u8
}

pub open spec fn anchors_at_line_starts(text: Seq<u8>, sites: Seq<SiteView>) -> bool {
    forall|i: int| 0 <= i < sites.len() ==> {
        let a = #[trigger] sites[i].1;
        a == 0 || text[a - 1] == 10u8
    }
}

proof fn lemma_strip_split(cur: Seq<u8>, x: Seq<u8>, y: Seq<u8>)
    requires
        x.len() > 0,
        x.last() == 10u8,
    ensures
        strip_from(cur, x + y) == strip_from(cur, x) + strip_markers(y),
    decreases x.len(),
{
    assert((x + y).drop_first() =~= x.drop_first() + y);
    assert((x + y)[0] == x[0]);
    if x.len() == 1 {
        assert(x.drop_first() =~= Seq::<u8>::empty());
        assert(x.drop_first() + y =~= y);
        assert(strip_from(Seq::empty(), x.drop_first()) =~= Seq::<u8>::empty());
        let line = cur.push(10u8);
        let head = if is_marker_line(line) { Seq::<u8>::empty() } else { line };
        assert(strip_from(cur, x) =~= head + Seq::<u8>::empty());
    } else if x[0] == 10u8 {
        lemma_strip_split(Seq::empty(), x.drop_first(), y);
        let line = cur.push(10u8);
        let head = if is_marker_line(line) { Seq::<u8>::empty() } else { line };
        assert(strip_from(cur, x + y) =~= head + (strip_from(Seq::empty(), x.drop_first()) + strip_markers(y)));
    } else {
        lemma_strip_split(cur.push(x[0]), x.drop_first(), y);
    }
}

proof fn lemma_strip_plain(cur: Seq<u8>, s: Seq<u8>)
    requires
        no_marker(cur + s),
    ensures
        strip_from(cur, s) == cur + s,
    decreases s.len(),
{
    if s.len() == 0 {
        assert(cur + s =~= cur);
    } else if s[0] == 10u8 {
        let line = cur.push(10u8);
        assert(!is_marker_line(line)) by {
            if line.len() >= 8 {
                let i = line.len() - 8;
                assert((cur + s).subrange(i, i + 8) =~= line.subrange(i, line.len() as int));
            }
        }
        assert forall|i: int| 0 <= i && i + 8 <= s.drop_first().len() implies #[trigger] s.drop_first().subrange(i, i + 8)
            != marker_tail() by {
            let k = cur.len() + 1 + i;
            assert((cur + s).subrange(k, k + 8) =~= s.drop_first().subrange(i, i + 8));
        }
        assert(Seq::<u8>::empty() + s.drop_first() =~= s.drop_first());
        lemma_strip_plain(Seq::empty(), s.drop_first());
        assert(line + s.drop_first() =~= cur + s);
    } else {
        assert(cur.push(s[0]) + s.drop_first() =~= cur + s);
        lemma_strip_plain(cur.push(s[0]), s.drop_first());
    }
}

proof fn lemma_strip_line(cur: Seq<u8>, z: Seq<u8>)
    requires
        no_line_feed(z),
    ensures
        strip_from(cur, z.push(10u8)) == (if is_marker_line(cur + z.push(10u8)) {
            Seq::<u8>::empty()
        } else {
            cur + z.push(10u8)
        }),
    decreases z.len(),
{
    let zz = z.push(10u8);
    if z.len() == 0 {
        assert(zz.drop_first() =~= Seq::<u8>::empty());
        assert(zz[0] == 10u8);
        assert(strip_from(Seq::<u8>::empty(), zz.drop_first()) =~= Seq::<u8>::empty());
        assert(cur + zz =~= cur.push(10u8));
        let line = cur.push(10u8);
        let head = if is_marker_line(line) { Seq::<u8>::empty() } else { line };
        assert(strip_from(cur, zz) =~= head + Seq::<u8>::empty());
    } else {
        assert(zz.drop_first() =~= z.drop_first().push(10u8));
        assert(cur.push(z[0]) + z.drop_first().push(10u8) =~= cur + zz);
        lemma_strip_line(cur.push(z[0]), z.drop_first());
    }
}

proof fn lemma_strip_marker_then(indent: Seq<u8>, comment: Seq<u8>, y: Seq<u8>)
    requires
        no_line_feed(indent),
        no_line_feed(comment),
    ensures
        strip_markers(marker_line(indent, comment) + y) == strip_markers(y),
{
    let m = marker_line(indent, comment);
    let z = indent + comment + marker_payload();
    assert(m =~= z.push(10u8));
    assert(no_line_feed(z));
    lemma_strip_line(Seq::empty(), z);
    assert(Seq::<u8>::empty() + z.push(10u8) =~= m);
    assert(m.subrange(m.len() - 8, m.len() as int) =~= marker_tail());
    lemma_strip_split(Seq::empty(), m, y);
    assert(Seq::<u8>::empty() + strip_markers(y) =~= strip_markers(y));
}

proof fn lemma_patched_line_end(t: Seq<u8>, sites: Seq<SiteView>, comment: Seq<u8>)
    requires
        t.len() == 0 || t.last() == 10u8,
        anchors_within(sites, t.len() as int),
    ensures
        ({
            let p = patched(t, sites, comment);
            p.len() == 0 || p.last() == 10u8
        }),
{
    if sites.len() > 0 {
        let a = sites.last().1;
        let rest = t.subrange(a, t.len() as int);
        let m = marker_line(sites.last().2, comment);
        let p = patched(t, sites, comment);
        let front = patched(t.subrange(0, a), sites.drop_last(), comment);
        assert(p == front + m + rest);
        if rest.len() > 0 {
            assert(p.last() == rest.last());
        } else {
            assert(p.last() == m.last());
        }
    }
}

/// Taking the marker lines out of a patched text gives back the text, byte
/// for byte, when the text holds no marker line of its own and every anchor
/// starts a line.
pub proof fn lemma_strip_restores(text: Seq<u8>, sites: Seq<SiteView>, comment: Seq<u8>)
    requires
        anchors_sorted(sites),
        anchors_within(sites, text.len() as int),
        anchors_at_line_starts(text, sites),
        forall|i: int| 0 <= i < sites.len() ==> no_line_feed(#[trigger] sites[i].2),
        no_line_feed(comment),
        no_marker(text),
    ensures
        strip_markers(patched(text, sites, comment)) == text,
    decreases sites.len(),
{
    if sites.len() == 0 {
        assert(Seq::<u8>::empty() + text =~= text);
        lemma_strip_plain(Seq::empty(), text);
    } else {
        let s = sites.last();
        let a = s.1;
        let t = text.subrange(0, a);
        let rest = text.subrange(a, text.len() as int);
        let ss = sites.drop_last();
        assert forall|i: int| 0 <= i && i + 8 <= t.len() implies #[trigger] t.subrange(i, i + 8) != marker_tail() by {
            assert(text.subrange(i, i + 8) =~= t.subrange(i, i + 8));
        }
        assert forall|i: int| 0 <= i && i + 8 <= rest.len() implies #[trigger] rest.subrange(i, i + 8) != marker_tail() by {
            assert(text.subrange(a + i, a + i + 8) =~= rest.subrange(i, i + 8));
        }
        assert forall|i: int| 0 <= i < ss.len() implies 0 <= #[trigger] ss[i].1 <= a by {
            assert(sites[i].1 <= sites[sites.len() - 1].1);
            assert(0 <= sites[i].1);
        }
        assert(anchors_at_line_starts(t, ss)) by {
            assert forall|i: int| 0 <= i < ss.len() implies {
                let b = #[trigger] ss[i].1;
                b == 0 || t[b - 1] == 10u8
            } by {
                assert(sites[i] == ss[i]);
                assert(sites[i].1 <= sites[sites.len() - 1].1);
            }
        }
        lemma_strip_restores(t, ss, comment);
        let front = patched(t, ss, comment);
        let m = marker_line(s.2, comment);
        assert(no_line_feed(s.2));
        lemma_strip_marker_then(s.2, comment, rest);
        assert(Seq::<u8>::empty() + rest =~= rest);
        lemma_strip_plain(Seq::empty(), rest);
        assert(patched(text, sites, comment) =~= front + (m + rest));
        if front.len() == 0 {
            assert(front + (m + rest) =~= m + rest);
            assert(t =~= Seq::<u8>::empty());
        } else {
            lemma_patched_line_end(t, ss, comment);
            lemma_strip_split(Seq::empty(), front, m + rest);
        }
        assert(t + rest =~= text);
    }
}

} // verus!
