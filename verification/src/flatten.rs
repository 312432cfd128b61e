use vstd::prelude::*;
use crate::segment::NestedSegment;
use crate::segment::NestedSegmentCode;
use crate::segment::SegView;
use crate::segment::seg_views;
use crate::segment::lemma_seg_views_index;

verus! {

impl SegView {
    /// The node with its children removed; leaves are unchanged.
    pub open spec fn strip(self) -> SegView {
        match self {
            SegView::Code { id, name, open_tag, children, close_tag } =>
                (SegView::Code { id, name, open_tag, children: Seq::empty(), close_tag }),
            other => other,
        }
    }

    /// The node with `cs` appended after its present children; appending
    /// to a leaf changes nothing.
    pub open spec fn with_appended_children(self, cs: Seq<SegView>) -> SegView {
        match self {
            SegView::Code { id, name, open_tag, children, close_tag } =>
                (SegView::Code { id, name, open_tag, children: children + cs, close_tag }),
            other => other,
        }
    }
}

/// The flat, pre-order list of a tree: each node without its children,
/// paired with its depth; the root carries depth `d`.
pub open spec fn flat_entries(v: SegView, d: nat) -> Seq<(nat, SegView)>
    decreases v, 0nat,
{
    match v {
        SegView::Code { children, .. } => seq![(d, v.strip())] + flat_entries_seq(children, (d + 1) as nat),
        other => seq![(d, other)],
    }
}

/// The concatenated flat lists of a sequence of trees, all rooted at
/// depth `d`.
pub open spec fn flat_entries_seq(cs: Seq<SegView>, d: nat) -> Seq<(nat, SegView)>
    decreases cs,
{
    if cs.len() == 0 {
        Seq::empty()
    } else {
        flat_entries(cs[0], d) + flat_entries_seq(cs.drop_first(), d)
    }
}

/// The abstract value of a flat list of owned segments.
pub open spec fn pairs_of(v: Seq<(usize, NestedSegment)>) -> Seq<(nat, SegView)> {
    Seq::new(v.len(), |i: int| (v[i].0 as nat, v[i].1@))
}

/// Every entry's depth, raised by one.
pub open spec fn raise_depths(es: Seq<(nat, SegView)>) -> Seq<(nat, SegView)> {
    Seq::new(es.len(), |i: int| ((es[i].0 + 1) as nat, es[i].1))
}

/// Raising depths turns a flat list rooted at `d` into one rooted at
/// `d + 1`.
pub proof fn lemma_flat_raise(v: SegView, d: nat)
    ensures
        raise_depths(flat_entries(v, d)) == flat_entries(v, (d + 1) as nat),
    decreases v, 0nat,
{
    match v {
        SegView::Code { children, .. } => {
            lemma_flat_raise_seq(children, (d + 1) as nat);
            assert(raise_depths(flat_entries(v, d)) =~= flat_entries(v, (d + 1) as nat));
        },
        _ => {
            assert(raise_depths(flat_entries(v, d)) =~= flat_entries(v, (d + 1) as nat));
        },
    }
}

/// Raising depths distributes over the flat list of a node sequence.
pub proof fn lemma_flat_raise_seq(cs: Seq<SegView>, d: nat)
    ensures
        raise_depths(flat_entries_seq(cs, d)) == flat_entries_seq(cs, (d + 1) as nat),
    decreases cs, 1nat,
{
    if cs.len() == 0 {
        assert(raise_depths(flat_entries_seq(cs, d)) =~= flat_entries_seq(cs, (d + 1) as nat));
    } else {
        lemma_flat_raise(cs[0], d);
        lemma_flat_raise_seq(cs.drop_first(), d);
        assert(raise_depths(flat_entries_seq(cs, d)) =~= flat_entries_seq(cs, (d + 1) as nat));
    }
}

/// Flattening one more node appends its flat list.
pub proof fn lemma_flat_seq_take_step(cs: Seq<SegView>, d: nat, k: int)
    requires
        0 <= k < cs.len(),
    ensures
        flat_entries_seq(cs.take(k + 1), d) == flat_entries_seq(cs.take(k), d) + flat_entries(cs[k], d),
    decreases k,
{
    if k == 0 {
        reveal_with_fuel(flat_entries_seq, 2);
        assert(cs.take(1).drop_first() =~= Seq::<SegView>::empty());
        assert(cs.take(0) =~= Seq::<SegView>::empty());
        assert(cs.take(1)[0] == cs[0]);
        assert(flat_entries_seq(cs.take(1), d) == flat_entries(cs[0], d) + flat_entries_seq(cs.take(1).drop_first(), d));
        assert(flat_entries_seq(cs.take(0), d) + flat_entries(cs[0], d)
            =~= flat_entries(cs[0], d) + flat_entries_seq(cs.take(1).drop_first(), d));
    } else {
        lemma_flat_seq_take_step(cs.drop_first(), d, k - 1);
        assert(cs.take(k + 1).drop_first() =~= cs.drop_first().take(k));
        assert(cs.take(k).drop_first() =~= cs.drop_first().take(k - 1));
        assert(cs.take(k + 1)[0] == cs[0]);
        assert(cs.take(k)[0] == cs[0]);
        assert(cs.drop_first()[k - 1] == cs[k]);
        assert(flat_entries_seq(cs.take(k + 1), d)
            == flat_entries(cs[0], d) + (flat_entries_seq(cs.drop_first().take(k - 1), d) + flat_entries(cs[k], d)));
        assert(flat_entries(cs[0], d) + (flat_entries_seq(cs.drop_first().take(k - 1), d) + flat_entries(cs[k], d))
            =~= (flat_entries(cs[0], d) + flat_entries_seq(cs.drop_first().take(k - 1), d)) + flat_entries(cs[k], d));
    }
}

/// The flat list of a full take equals the flat list of the sequence.
pub proof fn lemma_flat_seq_take_all(cs: Seq<SegView>, d: nat)
    ensures
        flat_entries_seq(cs.take(cs.len() as int), d) == flat_entries_seq(cs, d),
{
    assert(cs.take(cs.len() as int) =~= cs);
}

/// A flat list is never empty and every entry's depth lies below the
/// root depth plus the list's length.
pub proof fn lemma_flat_depth_bound(v: SegView, d: nat)
    ensures
        flat_entries(v, d).len() >= 1,
        forall|i: int| 0 <= i < flat_entries(v, d).len()
            ==> d <= (#[trigger] flat_entries(v, d)[i]).0 < d + flat_entries(v, d).len(),
    decreases v, 0nat,
{
    match v {
        SegView::Code { children, .. } => {
            lemma_flat_depth_bound_seq(children, (d + 1) as nat);
            assert forall|i: int| 0 <= i < flat_entries(v, d).len()
                implies d <= (#[trigger] flat_entries(v, d)[i]).0 < d + flat_entries(v, d).len() by {
                if i > 0 {
                    assert(flat_entries(v, d)[i] == flat_entries_seq(children, (d + 1) as nat)[i - 1]);
                }
            }
        },
        _ => {
            assert(flat_entries(v, d)[0].0 == d);
        },
    }
}

/// The same depth bound over the flat list of a node sequence.
pub proof fn lemma_flat_depth_bound_seq(cs: Seq<SegView>, d: nat)
    ensures
        forall|i: int| 0 <= i < flat_entries_seq(cs, d).len()
            ==> d <= (#[trigger] flat_entries_seq(cs, d)[i]).0 < d + flat_entries_seq(cs, d).len(),
    decreases cs, 1nat,
{
    if cs.len() > 0 {
        lemma_flat_depth_bound(cs[0], d);
        lemma_flat_depth_bound_seq(cs.drop_first(), d);
        let head: Seq<(nat, SegView)> = flat_entries(cs[0], d);
        let rest: Seq<(nat, SegView)> = flat_entries_seq(cs.drop_first(), d);
        assert forall|i: int| 0 <= i < flat_entries_seq(cs, d).len()
            implies d <= (#[trigger] flat_entries_seq(cs, d)[i]).0 < d + flat_entries_seq(cs, d).len() by {
            if i < head.len() {
                assert(flat_entries_seq(cs, d)[i] == head[i]);
            } else {
                assert(flat_entries_seq(cs, d)[i] == rest[i - head.len()]);
            }
        }
    }
}

impl NestedSegment {
    /// The flat pre-order list of the tree: each node paired with its
    /// depth, the children taken out of the code nodes.
    pub fn to_flat(self) -> (r: Vec<(usize, NestedSegment)>)
        ensures
            pairs_of(r@) == flat_entries(self@, 0),
    {
        self.to_flat_from()
    }

    /// Build the flat list of `self` without consuming it; nodes are
    /// copied.
    fn to_flat_from(&self) -> (r: Vec<(usize, NestedSegment)>)
        ensures
            pairs_of(r@) == flat_entries(self@, 0),
        decreases self,
    {
        let mut out: Vec<(usize, NestedSegment)> = Vec::new();
        match self {
            NestedSegment::Code(id, code) => {
                let stripped: NestedSegment = NestedSegment::Code(*id, NestedSegmentCode {
                    name: code.name.clone(),
                    open_tag: code.open_tag.clone(),
                    sub_segments: Vec::new(),
                    close_tag: code.close_tag.clone(),
                });
                proof {
                    assert(stripped@.children() =~= Seq::<SegView>::empty());
                    assert(stripped@ == self@.strip());
                }
                out.push((0, stripped));
                let ghost cvs: Seq<SegView> = self@.children();
                proof {
                    lemma_seg_views_index(code.sub_segments@);
                    assert(pairs_of(out@) =~= seq![(0nat, self@.strip())] + flat_entries_seq(cvs.take(0), 1));
                }
                let mut k: usize = 0;
                while k < code.sub_segments.len()
                    invariant
                        k <= code.sub_segments.len(),
                        cvs == self@.children(),
                        cvs == seg_views(code.sub_segments@),
                        cvs.len() == code.sub_segments@.len(),
                        forall|j: int| 0 <= j < cvs.len() ==> #[trigger] cvs[j] == code.sub_segments@[j]@,
                        pairs_of(out@) == seq![(0nat, self@.strip())] + flat_entries_seq(cvs.take(k as int), 1),
                        decreases_to!(self => code.sub_segments@),
                    decreases code.sub_segments.len() - k,
                {
                    proof {
                        assert(decreases_to!(code.sub_segments@ => code.sub_segments@[k as int]));
                    }
                    let mut sub: Vec<(usize, NestedSegment)> = code.sub_segments[k].to_flat_from();
                    let ghost sub0: Seq<(usize, NestedSegment)> = sub@;
                    proof {
                        lemma_flat_depth_bound(cvs[k as int], 0);
                        lemma_flat_raise(cvs[k as int], 0);
                    }
                    let ghost out_before: Seq<(usize, NestedSegment)> = out@;
                    let mut j: usize = 0;
                    while j < sub.len()
                        invariant
                            j <= sub.len(),
                            sub@ == sub0,
                            pairs_of(sub0) == flat_entries(cvs[k as int], 0),
                            forall|i: int| 0 <= i < pairs_of(sub0).len()
                                ==> (#[trigger] pairs_of(sub0)[i]).0 < pairs_of(sub0).len(),
                            out@.len() == out_before.len() + j,
                            out@.subrange(0, out_before.len() as int) == out_before,
                            forall|i: int| 0 <= i < j
                                ==> (#[trigger] out@[out_before.len() + i]).0 as nat == pairs_of(sub0)[i].0 + 1
                                    && out@[out_before.len() + i].1@ == pairs_of(sub0)[i].1,
                        decreases sub.len() - j,
                    {
                        let d0: usize = sub[j].0;
                        let node: NestedSegment = sub[j].1.clone();
                        proof {
                            assert(pairs_of(sub0)[j as int] == ((sub0[j as int].0 as nat, sub0[j as int].1@)));
                            assert(pairs_of(sub0)[j as int].0 < pairs_of(sub0).len());
                        }
                        let deeper: usize = d0 + 1;
                        out.push((deeper, node));
                        proof {
                            assert(out@.subrange(0, out_before.len() as int) =~= out_before);
                        }
                        j += 1;
                    }
                    proof {
                        lemma_flat_seq_take_step(cvs, 1, k as int);
                        assert forall|i: int| 0 <= i < out@.len()
                            implies #[trigger] pairs_of(out@)[i] == (pairs_of(out_before) + raise_depths(pairs_of(sub0)))[i] by {
                            if i < out_before.len() {
                                assert(out@.subrange(0, out_before.len() as int)[i] == out@[i]);
                                assert(out@[i] == out_before[i]);
                            } else {
                                assert(out@[out_before.len() + (i - out_before.len())].0 as nat
                                    == pairs_of(sub0)[i - out_before.len()].0 + 1);
                            }
                        }
                        assert(pairs_of(out@) =~= pairs_of(out_before) + raise_depths(pairs_of(sub0)));
                        assert(raise_depths(pairs_of(sub0)) == flat_entries(cvs[k as int], 1));
                        assert(pairs_of(out@) =~= seq![(0nat, self@.strip())] + flat_entries_seq(cvs.take(k + 1), 1));
                    }
                    k += 1;
                }
                proof {
                    lemma_flat_seq_take_all(cvs, 1);
                    assert(flat_entries(self@, 0) == seq![(0nat, self@.strip())] + flat_entries_seq(cvs, 1));
                }
            },
            NestedSegment::Contents(_, _) => {
                out.push((0, self.clone()));
                proof {
                    assert(self@.strip() == self@);
                    assert(flat_entries(self@, 0) =~= seq![(0nat, self@)]);
                    assert(pairs_of(out@) =~= flat_entries(self@, 0));
                }
            },
            NestedSegment::WhiteSpace(_, _) => {
                out.push((0, self.clone()));
                proof {
                    assert(self@.strip() == self@);
                    assert(flat_entries(self@, 0) =~= seq![(0nat, self@)]);
                    assert(pairs_of(out@) =~= flat_entries(self@, 0));
                }
            },
        }
        out
    }
}

/// Rebuilding one tree from a flat list at `pos`: the entry must sit at
/// the expected depth; the children that follow one level deeper are
/// gathered and appended to the entry's node. Children listed under a
/// leaf are consumed but dropped, as the leaf cannot hold them.
pub open spec fn parse_flat_at(es: Seq<(nat, SegView)>, pos: int, depth: nat) -> (Option<SegView>, int)
    decreases es.len() - pos, 0nat,
{
    if pos < 0 || pos >= es.len() || es[pos].0 != depth {
        (None, pos)
    } else {
        let sub = parse_flat_children(es, pos + 1, (depth + 1) as nat);
        (Some(es[pos].1.with_appended_children(sub.0)), sub.1)
    }
}

/// Rebuilding a run of sibling trees rooted at `depth` from a flat
/// list, until an entry at another depth or the end of the list stops
/// the run.
pub open spec fn parse_flat_children(es: Seq<(nat, SegView)>, pos: int, depth: nat) -> (Seq<SegView>, int)
    decreases es.len() - pos, 1nat,
{
    if pos < 0 || pos >= es.len() {
        (Seq::empty(), pos)
    } else {
        let c = parse_flat_at(es, pos, depth);
        if c.0 is None {
            (Seq::empty(), pos)
        } else {
            let next = if pos + 1 <= c.1 && c.1 <= es.len() {
                c.1
            } else {
                pos + 1
            };
            let rest = parse_flat_children(es, next, depth);
            (seq![c.0->0] + rest.0, rest.1)
        }
    }
}

/// The views of concatenated segment lists are the concatenated views.
pub proof fn lemma_seg_views_concat(a: Seq<NestedSegment>, b: Seq<NestedSegment>)
    ensures
        seg_views(a + b) == seg_views(a) + seg_views(b),
{
    lemma_seg_views_index(a);
    lemma_seg_views_index(b);
    lemma_seg_views_index(a + b);
    assert forall|i: int| 0 <= i < (a + b).len()
        implies #[trigger] seg_views(a + b)[i] == (seg_views(a) + seg_views(b))[i] by {
        if i < a.len() {
            assert((a + b)[i] == a[i]);
        } else {
            assert((a + b)[i] == b[i - a.len()]);
        }
    }
    assert(seg_views(a + b) =~= seg_views(a) + seg_views(b));
}

impl NestedSegment {
    /// Rebuild a tree from a flat list: the inverse of `to_flat`. The
    /// first entry must have depth zero; entries after the rebuilt
    /// tree's own are ignored.
    pub fn from_flat(segments: Vec<(usize, NestedSegment)>) -> (r: Option<NestedSegment>)
        ensures
            r is Some <==> parse_flat_at(pairs_of(segments@), 0, 0).0 is Some,
            r is Some ==> r->0@ == parse_flat_at(pairs_of(segments@), 0, 0).0->0,
    {
        let pair = Self::parse_at(&segments, 0, 0);
        pair.0
    }

    /// Rebuild the tree rooted at `start` with root depth `depth`,
    /// returning it with the position after its entries.
    fn parse_at(segments: &Vec<(usize, NestedSegment)>, start: usize, depth: usize) -> (r: (Option<NestedSegment>, usize))
        requires
            start <= segments.len(),
        ensures
            r.1 as int == parse_flat_at(pairs_of(segments@), start as int, depth as nat).1,
            r.0 is Some <==> parse_flat_at(pairs_of(segments@), start as int, depth as nat).0 is Some,
            r.0 is Some ==> r.0->0@ == parse_flat_at(pairs_of(segments@), start as int, depth as nat).0->0,
            start <= r.1 <= segments.len(),
        decreases segments.len() - start, 0nat,
    {
        let ghost es: Seq<(nat, SegView)> = pairs_of(segments@);
        if start >= segments.len() || segments[start].0 != depth {
            proof {
                assert(start < segments.len() ==> es[start as int].0 == segments@[start as int].0 as nat);
            }
            return (None, start);
        }
        let node: NestedSegment = segments[start].1.clone();
        let ghost node0: SegView = es[start as int].1;
        proof {
            assert(node@ == node0);
        }
        if depth == usize::MAX {
            // No entry can lie one level deeper than the deepest
            // representable depth, so the node keeps its children.
            let end: usize = start + 1;
            proof {
                let dd: nat = (depth + 1) as nat;
                let sub = parse_flat_children(es, start + 1, dd);
                if start + 1 < es.len() {
                    assert(es[start as int + 1].0 == segments@[start as int + 1].0 as nat);
                    assert(segments@[start as int + 1].0 <= usize::MAX);
                    assert(es[start as int + 1].0 < dd);
                    assert(parse_flat_at(es, start + 1, dd).0 is None);
                    assert(sub == ((Seq::<SegView>::empty(), start + 1 as int)));
                } else {
                    assert(sub == ((Seq::<SegView>::empty(), start + 1 as int)));
                }
                assert(node0.with_appended_children(sub.0) == node0) by {
                    match node0 {
                        SegView::Code { children, .. } => {
                            assert(children + Seq::<SegView>::empty() =~= children);
                            assert(node0.with_appended_children(Seq::<SegView>::empty()) =~= node0);
                        },
                        _ => {},
                    }
                }
            }
            return (Some(node), end);
        }
        let child_depth: usize = depth + 1;
        let mut found: Vec<NestedSegment> = Vec::new();
        let mut pos: usize = start + 1;
        let mut done: bool = false;
        proof {
            assert(seg_views(found@) =~= Seq::<SegView>::empty());
            assert(seg_views(found@) + parse_flat_children(es, pos as int, child_depth as nat).0
                =~= parse_flat_children(es, pos as int, child_depth as nat).0);
        }
        while !done
            invariant
                start + 1 <= pos <= segments.len(),
                es == pairs_of(segments@),
                child_depth as nat == depth as nat + 1,
                parse_flat_children(es, (start + 1) as int, child_depth as nat).0
                    == seg_views(found@) + parse_flat_children(es, pos as int, child_depth as nat).0,
                parse_flat_children(es, (start + 1) as int, child_depth as nat).1
                    == parse_flat_children(es, pos as int, child_depth as nat).1,
                done ==> parse_flat_children(es, pos as int, child_depth as nat) == ((Seq::<SegView>::empty(), pos as int)),
            decreases 2 * (segments.len() - pos) + (if done { 0int } else { 1int }),
        {
            let step: (Option<NestedSegment>, usize) = Self::parse_at(segments, pos, child_depth);
            match step.0 {
                None => {
                    done = true;
                    proof {
                        assert(parse_flat_children(es, pos as int, child_depth as nat).0 =~= Seq::<SegView>::empty());
                        assert(seg_views(found@) + Seq::<SegView>::empty() =~= seg_views(found@));
                    }
                },
                Some(child) => {
                    let ghost found_before: Seq<NestedSegment> = found@;
                    let ghost c = parse_flat_at(es, pos as int, child_depth as nat);
                    found.push(child);
                    let next: usize = if step.1 > pos {
                        step.1
                    } else {
                        pos + 1
                    };
                    proof {
                        let specnext = if pos + 1 <= c.1 && c.1 <= es.len() {
                            c.1
                        } else {
                            pos as int + 1
                        };
                        assert(specnext == next as int);
                        assert(parse_flat_children(es, pos as int, child_depth as nat).0
                            == seq![c.0->0] + parse_flat_children(es, next as int, child_depth as nat).0);
                        lemma_seg_views_concat(found_before, seq![found@[found_before.len() as int]]);
                        lemma_seg_views_index(seq![found@[found_before.len() as int]]);
                        assert(found@ == found_before + seq![found@[found_before.len() as int]]);
                        assert(found@[found_before.len() as int]@ == c.0->0);
                        assert(seg_views(found@) == seg_views(found_before) + seq![c.0->0]);
                        assert(seg_views(found_before) + (seq![c.0->0] + parse_flat_children(es, next as int, child_depth as nat).0)
                            =~= (seg_views(found_before) + seq![c.0->0]) + parse_flat_children(es, next as int, child_depth as nat).0);
                    }
                    pos = next;
                },
            }
        }
        let attached: NestedSegment = match node {
            NestedSegment::Code(idc, codec) => {
                let NestedSegmentCode { name, open_tag, sub_segments, close_tag } = codec;
                let mut subs: Vec<NestedSegment> = sub_segments;
                let ghost subs_before: Seq<NestedSegment> = subs@;
                let mut extra: Vec<NestedSegment> = found;
                let ghost extra0: Seq<NestedSegment> = extra@;
                subs.append(&mut extra);
                proof {
                    lemma_seg_views_concat(subs_before, extra0);
                }
                NestedSegment::Code(idc, NestedSegmentCode { name, open_tag, sub_segments: subs, close_tag })
            },
            other => other,
        };
        proof {
            assert(attached@ == node0.with_appended_children(seg_views(found@)));
        }
        (Some(attached), pos)
    }
}

/// Inflating the flat list of a tree of siblings at `depth`, embedded in
/// a larger list, gathers exactly those siblings.
pub proof fn lemma_inflate_children(cs: Seq<SegView>, d: nat, es: Seq<(nat, SegView)>, pos: int)
    requires
        0 <= pos,
        pos + flat_entries_seq(cs, d).len() <= es.len(),
        es.subrange(pos, pos + flat_entries_seq(cs, d).len() as int) == flat_entries_seq(cs, d),
        pos + flat_entries_seq(cs, d).len() == es.len() || es[pos + flat_entries_seq(cs, d).len()].0 < d,
    ensures
        parse_flat_children(es, pos, d) == ((cs, pos + flat_entries_seq(cs, d).len())),
    decreases cs, 1nat,
{
    let win = flat_entries_seq(cs, d);
    if cs.len() == 0 {
        assert(win.len() == 0);
        if pos < es.len() {
            assert(es[pos].0 < d);
            assert(parse_flat_at(es, pos, d).0 is None);
        }
        assert(parse_flat_children(es, pos, d) == ((Seq::<SegView>::empty(), pos)));
        assert(parse_flat_children(es, pos, d).0 =~= cs);
    } else {
        let head = flat_entries(cs[0], d);
        let rest = flat_entries_seq(cs.drop_first(), d);
        assert(win == head + rest);
        lemma_flat_depth_bound(cs[0], d);
        assert forall|i: int| 0 <= i < head.len() implies es[pos + i] == head[i] by {
            assert(es.subrange(pos, pos + win.len() as int)[i] == es[pos + i]);
            assert(win[i] == head[i]);
        }
        assert(es.subrange(pos, pos + head.len() as int) =~= head);
        // the entry after the head window sits at depth d (a sibling) or
        // closes the run, so the head parse stops exactly there
        if rest.len() > 0 {
            assert(win[head.len() as int] == rest[0]);
            lemma_flat_depth_bound_seq(cs.drop_first(), d);
            assert(rest[0] == flat_entries(cs.drop_first()[0], d)[0]);
            assert(rest[0].0 == d);
            assert(es[pos + head.len()] == win[head.len() as int]);
            assert(es[pos + head.len()].0 < d + 1);
        } else {
            assert(pos + head.len() == pos + win.len());
        }
        lemma_inflate_node(cs[0], d, es, pos);
        assert(parse_flat_at(es, pos, d) == ((Some(cs[0]), pos + head.len())));
        assert forall|i: int| 0 <= i < rest.len() implies es[pos + head.len() + i] == rest[i] by {
            assert(es.subrange(pos, pos + win.len() as int)[head.len() + i] == es[pos + head.len() + i]);
            assert(win[head.len() + i] == rest[i]);
        }
        assert(es.subrange(pos + head.len(), pos + head.len() + rest.len() as int) =~= rest);
        lemma_inflate_children(cs.drop_first(), d, es, pos + head.len());
        assert(head.len() >= 1);
        assert(parse_flat_children(es, pos + head.len(), d) == ((cs.drop_first(), pos + win.len())));
        assert(parse_flat_children(es, pos, d).0 == seq![cs[0]] + cs.drop_first());
        assert(seq![cs[0]] + cs.drop_first() =~= cs);
    }
}

/// Inflating the flat list of one tree, embedded in a larger list,
/// rebuilds exactly that tree.
pub proof fn lemma_inflate_node(v: SegView, d: nat, es: Seq<(nat, SegView)>, pos: int)
    requires
        0 <= pos,
        pos + flat_entries(v, d).len() <= es.len(),
        es.subrange(pos, pos + flat_entries(v, d).len() as int) == flat_entries(v, d),
        pos + flat_entries(v, d).len() == es.len() || es[pos + flat_entries(v, d).len()].0 < d + 1,
    ensures
        parse_flat_at(es, pos, d) == ((Some(v), pos + flat_entries(v, d).len())),
    decreases v, 0nat,
{
    let win = flat_entries(v, d);
    lemma_flat_depth_bound(v, d);
    assert(es.subrange(pos, pos + win.len() as int)[0] == es[pos]);
    assert(es[pos] == win[0]);
    match v {
        SegView::Code { children, .. } => {
            assert(win == seq![(d, v.strip())] + flat_entries_seq(children, (d + 1) as nat));
            let inner = flat_entries_seq(children, (d + 1) as nat);
            assert forall|i: int| 0 <= i < inner.len() implies es[pos + 1 + i] == inner[i] by {
                assert(es.subrange(pos, pos + win.len() as int)[1 + i] == es[pos + 1 + i]);
                assert(win[1 + i] == inner[i]);
            }
            assert(es.subrange(pos + 1, pos + 1 + inner.len() as int) =~= inner);
            lemma_inflate_children(children, (d + 1) as nat, es, pos + 1);
            assert(parse_flat_children(es, pos + 1, (d + 1) as nat) == ((children, pos + win.len())));
            assert(v.strip().with_appended_children(children) == v) by {
                assert(Seq::<SegView>::empty() + children =~= children);
            }
        },
        other => {
            assert(win =~= seq![(d, other)]);
            assert(win.len() == 1);
            // whatever follows the leaf sits at depth `d` at most, so no
            // children are gathered
            if pos + 1 < es.len() {
                assert(es[pos + 1].0 < d + 1);
                assert(parse_flat_at(es, pos + 1, (d + 1) as nat).0 is None);
            }
            assert(parse_flat_children(es, pos + 1, (d + 1) as nat) == ((Seq::<SegView>::empty(), pos + 1)));
            assert(other.with_appended_children(Seq::<SegView>::empty()) == other);
        },
    }
}

/// The flatten/inflate round trip: rebuilding a tree from its own flat
/// list gives back exactly that tree, whatever the tree.
pub proof fn lemma_flat_inflate_round_trip(v: SegView)
    ensures
        parse_flat_at(flat_entries(v, 0), 0, 0) == ((Some(v), flat_entries(v, 0).len() as int)),
{
    let es = flat_entries(v, 0);
    assert(es.subrange(0, es.len() as int) =~= es);
    lemma_inflate_node(v, 0, es, 0);
}

/// The flat, pre-order list of a tree with the nodes kept whole,
/// children and all; the root carries depth `d`.
pub open spec fn node_entries(v: SegView, d: nat) -> Seq<(nat, SegView)>
    decreases v, 0nat,
{
    match v {
        SegView::Code { children, .. } => seq![(d, v)] + node_entries_seq(children, (d + 1) as nat),
        other => seq![(d, other)],
    }
}

/// The concatenated whole-node flat lists of a sequence of trees.
pub open spec fn node_entries_seq(cs: Seq<SegView>, d: nat) -> Seq<(nat, SegView)>
    decreases cs, 1nat,
{
    if cs.len() == 0 {
        Seq::empty()
    } else {
        node_entries(cs[0], d) + node_entries_seq(cs.drop_first(), d)
    }
}

/// The abstract value of a flat list of borrowed segments.
pub open spec fn ref_pairs_of(v: Seq<(usize, &NestedSegment)>) -> Seq<(nat, SegView)> {
    Seq::new(v.len(), |i: int| (v[i].0 as nat, v[i].1@))
}

/// Raising depths turns a whole-node flat list rooted at `d` into one
/// rooted at `d + 1`.
pub proof fn lemma_node_raise(v: SegView, d: nat)
    ensures
        raise_depths(node_entries(v, d)) == node_entries(v, (d + 1) as nat),
    decreases v, 0nat,
{
    match v {
        SegView::Code { children, .. } => {
            lemma_node_raise_seq(children, (d + 1) as nat);
            assert(raise_depths(node_entries(v, d)) =~= node_entries(v, (d + 1) as nat));
        },
        _ => {
            assert(raise_depths(node_entries(v, d)) =~= node_entries(v, (d + 1) as nat));
        },
    }
}

/// The same, over a sequence of trees.
pub proof fn lemma_node_raise_seq(cs: Seq<SegView>, d: nat)
    ensures
        raise_depths(node_entries_seq(cs, d)) == node_entries_seq(cs, (d + 1) as nat),
    decreases cs, 1nat,
{
    if cs.len() == 0 {
        assert(raise_depths(node_entries_seq(cs, d)) =~= node_entries_seq(cs, (d + 1) as nat));
    } else {
        lemma_node_raise(cs[0], d);
        lemma_node_raise_seq(cs.drop_first(), d);
        assert(raise_depths(node_entries_seq(cs, d)) =~= node_entries_seq(cs, (d + 1) as nat));
    }
}

/// Listing one more tree appends its whole-node flat list.
pub proof fn lemma_node_seq_take_step(cs: Seq<SegView>, d: nat, k: int)
    requires
        0 <= k < cs.len(),
    ensures
        node_entries_seq(cs.take(k + 1), d) == node_entries_seq(cs.take(k), d) + node_entries(cs[k], d),
    decreases k,
{
    if k == 0 {
        reveal_with_fuel(node_entries_seq, 2);
        assert(cs.take(1).drop_first() =~= Seq::<SegView>::empty());
        assert(cs.take(0) =~= Seq::<SegView>::empty());
        assert(cs.take(1)[0] == cs[0]);
        assert(node_entries_seq(cs.take(0), d) + node_entries(cs[0], d)
            =~= node_entries(cs[0], d) + node_entries_seq(cs.take(1).drop_first(), d));
    } else {
        lemma_node_seq_take_step(cs.drop_first(), d, k - 1);
        assert(cs.take(k + 1).drop_first() =~= cs.drop_first().take(k));
        assert(cs.take(k).drop_first() =~= cs.drop_first().take(k - 1));
        assert(cs.take(k + 1)[0] == cs[0]);
        assert(cs.take(k)[0] == cs[0]);
        assert(cs.drop_first()[k - 1] == cs[k]);
        assert(node_entries(cs[0], d) + (node_entries_seq(cs.drop_first().take(k - 1), d) + node_entries(cs[k], d))
            =~= (node_entries(cs[0], d) + node_entries_seq(cs.drop_first().take(k - 1), d)) + node_entries(cs[k], d));
    }
}

/// A whole-node flat list is never empty and every entry's depth lies
/// below the root depth plus the list's length.
pub proof fn lemma_node_depth_bound(v: SegView, d: nat)
    ensures
        node_entries(v, d).len() >= 1,
        forall|i: int| 0 <= i < node_entries(v, d).len()
            ==> d <= (#[trigger] node_entries(v, d)[i]).0 < d + node_entries(v, d).len(),
    decreases v, 0nat,
{
    match v {
        SegView::Code { children, .. } => {
            lemma_node_depth_bound_seq(children, (d + 1) as nat);
            assert forall|i: int| 0 <= i < node_entries(v, d).len()
                implies d <= (#[trigger] node_entries(v, d)[i]).0 < d + node_entries(v, d).len() by {
                if i > 0 {
                    assert(node_entries(v, d)[i] == node_entries_seq(children, (d + 1) as nat)[i - 1]);
                }
            }
        },
        _ => {
            assert(node_entries(v, d)[0].0 == d);
        },
    }
}

/// The same bound over a sequence of trees.
pub proof fn lemma_node_depth_bound_seq(cs: Seq<SegView>, d: nat)
    ensures
        forall|i: int| 0 <= i < node_entries_seq(cs, d).len()
            ==> d <= (#[trigger] node_entries_seq(cs, d)[i]).0 < d + node_entries_seq(cs, d).len(),
    decreases cs, 1nat,
{
    if cs.len() > 0 {
        lemma_node_depth_bound(cs[0], d);
        lemma_node_depth_bound_seq(cs.drop_first(), d);
        let head: Seq<(nat, SegView)> = node_entries(cs[0], d);
        let rest: Seq<(nat, SegView)> = node_entries_seq(cs.drop_first(), d);
        assert forall|i: int| 0 <= i < node_entries_seq(cs, d).len()
            implies d <= (#[trigger] node_entries_seq(cs, d)[i]).0 < d + node_entries_seq(cs, d).len() by {
            if i < head.len() {
                assert(node_entries_seq(cs, d)[i] == head[i]);
            } else {
                assert(node_entries_seq(cs, d)[i] == rest[i - head.len()]);
            }
        }
    }
}

/// The entries whose node is a code node, in order.
pub open spec fn code_entries(es: Seq<(nat, SegView)>) -> Seq<(nat, SegView)>
    decreases es,
{
    if es.len() == 0 {
        Seq::empty()
    } else {
        (if es[0].1 is Code {
            seq![es[0]]
        } else {
            Seq::empty()
        }) + code_entries(es.drop_first())
    }
}

/// Filtering one more entry keeps it exactly when it is a code node.
pub proof fn lemma_code_entries_take_step(es: Seq<(nat, SegView)>, k: int)
    requires
        0 <= k < es.len(),
    ensures
        code_entries(es.take(k + 1)) == code_entries(es.take(k))
            + (if es[k].1 is Code { seq![es[k]] } else { Seq::<(nat, SegView)>::empty() }),
    decreases k,
{
    if k == 0 {
        reveal_with_fuel(code_entries, 2);
        assert(es.take(1).drop_first() =~= Seq::<(nat, SegView)>::empty());
        assert(es.take(0) =~= Seq::<(nat, SegView)>::empty());
        assert(es.take(1)[0] == es[0]);
        if es[0].1 is Code {
            assert(code_entries(es.take(0)) + seq![es[0]]
                =~= seq![es[0]] + code_entries(es.take(1).drop_first()));
        } else {
            assert(code_entries(es.take(0)) + Seq::<(nat, SegView)>::empty()
                =~= Seq::<(nat, SegView)>::empty() + code_entries(es.take(1).drop_first()));
        }
    } else {
        lemma_code_entries_take_step(es.drop_first(), k - 1);
        assert(es.take(k + 1).drop_first() =~= es.drop_first().take(k));
        assert(es.take(k).drop_first() =~= es.drop_first().take(k - 1));
        assert(es.take(k + 1)[0] == es[0]);
        assert(es.take(k)[0] == es[0]);
        assert(es.drop_first()[k - 1] == es[k]);
        let head: Seq<(nat, SegView)> = if es[0].1 is Code {
            seq![es[0]]
        } else {
            Seq::empty()
        };
        let tail: Seq<(nat, SegView)> = if es[k].1 is Code {
            seq![es[k]]
        } else {
            Seq::empty()
        };
        assert(head + (code_entries(es.drop_first().take(k - 1)) + tail)
            =~= (head + code_entries(es.drop_first().take(k - 1))) + tail);
    }
}

/// `code_entries` of a full take equals `code_entries` of the list.
pub proof fn lemma_code_entries_take_all(es: Seq<(nat, SegView)>)
    ensures
        code_entries(es.take(es.len() as int)) == code_entries(es),
{
    assert(es.take(es.len() as int) =~= es);
}

/// What a filter left of a flat entry list: each entry was either
/// refused and dropped, or approved and kept, order preserved.
pub open spec fn kept_entries<F: Fn(usize, &NestedSegment) -> bool>(f: F, es: Seq<(nat, SegView)>, out: Seq<(nat, SegView)>) -> bool
    decreases es,
{
    if es.len() == 0 {
        out.len() == 0
    } else {
        ||| ((exists|d: usize, s: NestedSegment| d as nat == es[0].0 && s@ == es[0].1
                && #[trigger] call_ensures(f, (d, &s), false))
            && kept_entries(f, es.drop_first(), out))
        ||| (out.len() > 0 && out[0] == es[0]
            && (exists|d: usize, s: NestedSegment| d as nat == es[0].0 && s@ == es[0].1
                && #[trigger] call_ensures(f, (d, &s), true))
            && kept_entries(f, es.drop_first(), out.drop_first()))
    }
}

/// Keeping one more entry extends a filtered run.
proof fn lemma_kept_push_kept<F: Fn(usize, &NestedSegment) -> bool>(f: F, es: Seq<(nat, SegView)>, out: Seq<(nat, SegView)>, e: (nat, SegView))
    requires
        kept_entries(f, es, out),
        exists|d: usize, s: NestedSegment| d as nat == e.0 && s@ == e.1
            && #[trigger] call_ensures(f, (d, &s), true),
    ensures
        kept_entries(f, es.push(e), out.push(e)),
    decreases es.len(),
{
    reveal_with_fuel(kept_entries, 2);
    if es.len() == 0 {
        assert(es.push(e).drop_last() =~= Seq::<(nat, SegView)>::empty());
        assert(es.push(e)[0] == e);
        assert(es.push(e).drop_first() =~= Seq::<(nat, SegView)>::empty());
        assert(out.push(e).drop_first() =~= Seq::<(nat, SegView)>::empty());
        assert(out.push(e)[0] == e);
    } else {
        assert(es.push(e).drop_first() =~= es.drop_first().push(e));
        assert(es.push(e)[0] == es[0]);
        if (exists|d: usize, s: NestedSegment| d as nat == es[0].0 && s@ == es[0].1
                && #[trigger] call_ensures(f, (d, &s), false))
            && kept_entries(f, es.drop_first(), out) {
            lemma_kept_push_kept(f, es.drop_first(), out, e);
        }
        if out.len() > 0 && out[0] == es[0]
            && (exists|d: usize, s: NestedSegment| d as nat == es[0].0 && s@ == es[0].1
                && #[trigger] call_ensures(f, (d, &s), true))
            && kept_entries(f, es.drop_first(), out.drop_first()) {
            lemma_kept_push_kept(f, es.drop_first(), out.drop_first(), e);
            assert(out.push(e).drop_first() =~= out.drop_first().push(e));
            assert(out.push(e)[0] == out[0]);
        }
    }
}

/// Dropping one more entry extends a filtered run without growing it.
proof fn lemma_kept_push_dropped<F: Fn(usize, &NestedSegment) -> bool>(f: F, es: Seq<(nat, SegView)>, out: Seq<(nat, SegView)>, e: (nat, SegView))
    requires
        kept_entries(f, es, out),
        exists|d: usize, s: NestedSegment| d as nat == e.0 && s@ == e.1
            && #[trigger] call_ensures(f, (d, &s), false),
    ensures
        kept_entries(f, es.push(e), out),
    decreases es.len(),
{
    reveal_with_fuel(kept_entries, 2);
    if es.len() == 0 {
        assert(es.push(e)[0] == e);
        assert(es.push(e).drop_first() =~= Seq::<(nat, SegView)>::empty());
    } else {
        assert(es.push(e).drop_first() =~= es.drop_first().push(e));
        assert(es.push(e)[0] == es[0]);
        if (exists|d: usize, s: NestedSegment| d as nat == es[0].0 && s@ == es[0].1
                && #[trigger] call_ensures(f, (d, &s), false))
            && kept_entries(f, es.drop_first(), out) {
            lemma_kept_push_dropped(f, es.drop_first(), out, e);
        }
        if out.len() > 0 && out[0] == es[0]
            && (exists|d: usize, s: NestedSegment| d as nat == es[0].0 && s@ == es[0].1
                && #[trigger] call_ensures(f, (d, &s), true))
            && kept_entries(f, es.drop_first(), out.drop_first()) {
            lemma_kept_push_dropped(f, es.drop_first(), out.drop_first(), e);
        }
    }
}

/// A code body holding exactly the parts of a code node's view.
pub open spec fn code_body_matches(c: NestedSegmentCode, v: SegView) -> bool {
    &&& v is Code
    &&& c.name@ == v.name()
    &&& c.open_tag@ == v.open_text()
    &&& c.close_tag@ == v.close_text()
    &&& seg_views(c.sub_segments@) == v.children()
}

/// What a filter left of a code entry list: each entry was either
/// refused and dropped, or approved and kept as its borrowed code
/// body, order preserved.
pub open spec fn kept_code_entries<F: Fn(usize, &NestedSegmentCode) -> bool>(f: F, es: Seq<(nat, SegView)>, out: Seq<(usize, &NestedSegmentCode)>) -> bool
    decreases es,
{
    if es.len() == 0 {
        out.len() == 0
    } else {
        ||| ((exists|d: usize, c: NestedSegmentCode| d as nat == es[0].0 && code_body_matches(c, es[0].1)
                && #[trigger] call_ensures(f, (d, &c), false))
            && kept_code_entries(f, es.drop_first(), out))
        ||| (out.len() > 0 && out[0].0 as nat == es[0].0 && code_body_matches(*out[0].1, es[0].1)
            && (exists|d: usize, c: NestedSegmentCode| d as nat == es[0].0 && code_body_matches(c, es[0].1)
                && #[trigger] call_ensures(f, (d, &c), true))
            && kept_code_entries(f, es.drop_first(), out.drop_first()))
    }
}

/// Keeping one more code entry extends a filtered run.
proof fn lemma_kept_code_push_kept<F: Fn(usize, &NestedSegmentCode) -> bool>(f: F, es: Seq<(nat, SegView)>, out: Seq<(usize, &NestedSegmentCode)>, e: (nat, SegView), o: (usize, &NestedSegmentCode))
    requires
        kept_code_entries(f, es, out),
        o.0 as nat == e.0,
        code_body_matches(*o.1, e.1),
        exists|d: usize, c: NestedSegmentCode| d as nat == e.0 && code_body_matches(c, e.1)
            && #[trigger] call_ensures(f, (d, &c), true),
    ensures
        kept_code_entries(f, es.push(e), out.push(o)),
    decreases es.len(),
{
    reveal_with_fuel(kept_code_entries, 2);
    if es.len() == 0 {
        assert(es.push(e)[0] == e);
        assert(es.push(e).drop_first() =~= Seq::<(nat, SegView)>::empty());
        assert(out.push(o).drop_first() =~= Seq::<(usize, &NestedSegmentCode)>::empty());
        assert(out.push(o)[0] == o);
    } else {
        assert(es.push(e).drop_first() =~= es.drop_first().push(e));
        assert(es.push(e)[0] == es[0]);
        if (exists|d: usize, c: NestedSegmentCode| d as nat == es[0].0 && code_body_matches(c, es[0].1)
                && #[trigger] call_ensures(f, (d, &c), false))
            && kept_code_entries(f, es.drop_first(), out) {
            lemma_kept_code_push_kept(f, es.drop_first(), out, e, o);
        }
        if out.len() > 0 && out[0].0 as nat == es[0].0 && code_body_matches(*out[0].1, es[0].1)
            && (exists|d: usize, c: NestedSegmentCode| d as nat == es[0].0 && code_body_matches(c, es[0].1)
                && #[trigger] call_ensures(f, (d, &c), true))
            && kept_code_entries(f, es.drop_first(), out.drop_first()) {
            lemma_kept_code_push_kept(f, es.drop_first(), out.drop_first(), e, o);
            assert(out.push(o).drop_first() =~= out.drop_first().push(o));
            assert(out.push(o)[0] == out[0]);
        }
    }
}

/// Dropping one more code entry extends a filtered run unchanged.
proof fn lemma_kept_code_push_dropped<F: Fn(usize, &NestedSegmentCode) -> bool>(f: F, es: Seq<(nat, SegView)>, out: Seq<(usize, &NestedSegmentCode)>, e: (nat, SegView))
    requires
        kept_code_entries(f, es, out),
        exists|d: usize, c: NestedSegmentCode| d as nat == e.0 && code_body_matches(c, e.1)
            && #[trigger] call_ensures(f, (d, &c), false),
    ensures
        kept_code_entries(f, es.push(e), out),
    decreases es.len(),
{
    reveal_with_fuel(kept_code_entries, 2);
    if es.len() == 0 {
        assert(es.push(e)[0] == e);
        assert(es.push(e).drop_first() =~= Seq::<(nat, SegView)>::empty());
    } else {
        assert(es.push(e).drop_first() =~= es.drop_first().push(e));
        assert(es.push(e)[0] == es[0]);
        if (exists|d: usize, c: NestedSegmentCode| d as nat == es[0].0 && code_body_matches(c, es[0].1)
                && #[trigger] call_ensures(f, (d, &c), false))
            && kept_code_entries(f, es.drop_first(), out) {
            lemma_kept_code_push_dropped(f, es.drop_first(), out, e);
        }
        if out.len() > 0 && out[0].0 as nat == es[0].0 && code_body_matches(*out[0].1, es[0].1)
            && (exists|d: usize, c: NestedSegmentCode| d as nat == es[0].0 && code_body_matches(c, es[0].1)
                && #[trigger] call_ensures(f, (d, &c), true))
            && kept_code_entries(f, es.drop_first(), out.drop_first()) {
            lemma_kept_code_push_dropped(f, es.drop_first(), out.drop_first(), e);
        }
    }
}

/// The views of the entries standing at exactly depth `d`, in order.
pub open spec fn depth_entries(es: Seq<(nat, SegView)>, d: nat) -> Seq<SegView>
    decreases es,
{
    if es.len() == 0 {
        Seq::empty()
    } else {
        (if es[0].0 == d {
            seq![es[0].1]
        } else {
            Seq::empty()
        }) + depth_entries(es.drop_first(), d)
    }
}

/// Sifting one more entry keeps it exactly when it stands at depth `d`.
proof fn lemma_depth_entries_take_step(es: Seq<(nat, SegView)>, d: nat, k: int)
    requires
        0 <= k < es.len(),
    ensures
        depth_entries(es.take(k + 1), d) == depth_entries(es.take(k), d)
            + (if es[k].0 == d { seq![es[k].1] } else { Seq::<SegView>::empty() }),
    decreases k,
{
    if k == 0 {
        reveal_with_fuel(depth_entries, 2);
        assert(es.take(1).drop_first() =~= Seq::<(nat, SegView)>::empty());
        assert(es.take(0) =~= Seq::<(nat, SegView)>::empty());
        assert(es.take(1)[0] == es[0]);
        if es[0].0 == d {
            assert(depth_entries(es.take(0), d) + seq![es[0].1]
                =~= seq![es[0].1] + depth_entries(es.take(1).drop_first(), d));
        } else {
            assert(depth_entries(es.take(0), d) + Seq::<SegView>::empty()
                =~= Seq::<SegView>::empty() + depth_entries(es.take(1).drop_first(), d));
        }
    } else {
        lemma_depth_entries_take_step(es.drop_first(), d, k - 1);
        assert(es.take(k + 1).drop_first() =~= es.drop_first().take(k));
        assert(es.take(k).drop_first() =~= es.drop_first().take(k - 1));
        assert(es.take(k + 1)[0] == es[0]);
        assert(es.take(k)[0] == es[0]);
        assert(es.drop_first()[k - 1] == es[k]);
        let head: Seq<SegView> = if es[0].0 == d {
            seq![es[0].1]
        } else {
            Seq::empty()
        };
        let tail: Seq<SegView> = if es[k].0 == d {
            seq![es[k].1]
        } else {
            Seq::empty()
        };
        assert(head + (depth_entries(es.drop_first().take(k - 1), d) + tail)
            =~= (head + depth_entries(es.drop_first().take(k - 1), d)) + tail);
    }
}

/// The pair `(d, v)` stands somewhere in the whole-node flat list of
/// `root`.
pub open spec fn entry_of_tree(root: SegView, d: nat, v: SegView) -> bool {
    exists|j: int| 0 <= j < node_entries(root, 0).len()
        && ((d, v)) == #[trigger] node_entries(root, 0)[j]
}

/// A code body with these parts stands at depth `d` somewhere in the
/// code entries of `root`.
pub open spec fn code_entry_of_tree(root: SegView, d: nat, name: Seq<char>, open: Seq<char>, kids: Seq<SegView>, close: Seq<char>) -> bool {
    exists|j: int| 0 <= j < code_entries(node_entries(root, 0)).len()
        && ({
            let e = #[trigger] code_entries(node_entries(root, 0))[j];
            &&& e.0 == d
            &&& e.1 is Code
            &&& e.1.name() == name
            &&& e.1.open_text() == open
            &&& e.1.children() == kids
            &&& e.1.close_text() == close
        })
}

/// `es` lists exactly the code entries of `root`: same length, and
/// entry by entry the same depth and the same parts.
pub open spec fn code_list_matches(root: SegView, es: Seq<(usize, &NestedSegmentCode)>) -> bool {
    &&& es.len() == code_entries(node_entries(root, 0)).len()
    &&& forall|i: int| 0 <= i < es.len() ==> ({
        let e = code_entries(node_entries(root, 0))[i];
        &&& (#[trigger] es[i]).0 as nat == e.0
        &&& e.1 is Code
        &&& es[i].1.name@ == e.1.name()
        &&& es[i].1.open_tag@ == e.1.open_text()
        &&& es[i].1.close_tag@ == e.1.close_text()
        &&& seg_views(es[i].1.sub_segments@) == e.1.children()
    })
}

impl NestedSegment {
    /// The flat pre-order list of the tree, borrowing every node whole:
    /// each node paired with its depth, the root at depth zero.
    pub fn flat(&self) -> (r: Vec<(usize, &NestedSegment)>)
        ensures
            ref_pairs_of(r@) == node_entries(self@, 0),
        decreases self,
    {
        let mut out: Vec<(usize, &NestedSegment)> = Vec::new();
        out.push((0, self));
        match self {
            NestedSegment::Code(_, code) => {
                proof {
                    lemma_seg_views_index(code.sub_segments@);
                    assert(ref_pairs_of(out@) =~= seq![(0nat, self@)] + node_entries_seq(self@.children().take(0), 1));
                }
                let ghost cvs: Seq<SegView> = self@.children();
                let mut k: usize = 0;
                while k < code.sub_segments.len()
                    invariant
                        k <= code.sub_segments.len(),
                        cvs == self@.children(),
                        cvs == seg_views(code.sub_segments@),
                        cvs.len() == code.sub_segments@.len(),
                        forall|j: int| 0 <= j < cvs.len() ==> #[trigger] cvs[j] == code.sub_segments@[j]@,
                        ref_pairs_of(out@) == seq![(0nat, self@)] + node_entries_seq(cvs.take(k as int), 1),
                        decreases_to!(self => code.sub_segments@),
                    decreases code.sub_segments.len() - k,
                {
                    proof {
                        assert(decreases_to!(code.sub_segments@ => code.sub_segments@[k as int]));
                    }
                    let sub: Vec<(usize, &NestedSegment)> = code.sub_segments[k].flat();
                    let ghost sub0: Seq<(usize, &NestedSegment)> = sub@;
                    proof {
                        lemma_node_depth_bound(cvs[k as int], 0);
                        lemma_node_raise(cvs[k as int], 0);
                    }
                    let ghost out_before: Seq<(usize, &NestedSegment)> = out@;
                    let mut j: usize = 0;
                    while j < sub.len()
                        invariant
                            j <= sub.len(),
                            sub@ == sub0,
                            ref_pairs_of(sub0) == node_entries(cvs[k as int], 0),
                            forall|i: int| 0 <= i < ref_pairs_of(sub0).len()
                                ==> (#[trigger] ref_pairs_of(sub0)[i]).0 < ref_pairs_of(sub0).len(),
                            out@.len() == out_before.len() + j,
                            out@.subrange(0, out_before.len() as int) == out_before,
                            forall|i: int| 0 <= i < j
                                ==> (#[trigger] out@[out_before.len() + i]).0 as nat == ref_pairs_of(sub0)[i].0 + 1
                                    && out@[out_before.len() + i].1@ == ref_pairs_of(sub0)[i].1,
                        decreases sub.len() - j,
                    {
                        let d0: usize = sub[j].0;
                        let node: &NestedSegment = sub[j].1;
                        proof {
                            assert(ref_pairs_of(sub0)[j as int] == ((sub0[j as int].0 as nat, sub0[j as int].1@)));
                            assert(ref_pairs_of(sub0)[j as int].0 < ref_pairs_of(sub0).len());
                        }
                        let deeper: usize = d0 + 1;
                        out.push((deeper, node));
                        proof {
                            assert(out@.subrange(0, out_before.len() as int) =~= out_before);
                        }
                        j += 1;
                    }
                    proof {
                        lemma_node_seq_take_step(cvs, 1, k as int);
                        assert forall|i: int| 0 <= i < out@.len()
                            implies #[trigger] ref_pairs_of(out@)[i] == (ref_pairs_of(out_before) + raise_depths(ref_pairs_of(sub0)))[i] by {
                            if i < out_before.len() {
                                assert(out@.subrange(0, out_before.len() as int)[i] == out@[i]);
                                assert(out@[i] == out_before[i]);
                            } else {
                                assert(out@[out_before.len() + (i - out_before.len())].0 as nat
                                    == ref_pairs_of(sub0)[i - out_before.len()].0 + 1);
                            }
                        }
                        assert(ref_pairs_of(out@) =~= ref_pairs_of(out_before) + raise_depths(ref_pairs_of(sub0)));
                        assert(raise_depths(ref_pairs_of(sub0)) == node_entries(cvs[k as int], 1));
                        assert(ref_pairs_of(out@) =~= seq![(0nat, self@)] + node_entries_seq(cvs.take(k + 1), 1));
                    }
                    k += 1;
                }
                proof {
                    assert(cvs.take(cvs.len() as int) =~= cvs);
                    assert(node_entries(self@, 0) == seq![(0nat, self@)] + node_entries_seq(cvs, 1));
                }
                out
            },
            NestedSegment::Contents(_, _) => {
                proof {
                    assert(node_entries(self@, 0) =~= seq![(0nat, self@)]);
                    assert(ref_pairs_of(out@) =~= node_entries(self@, 0));
                }
                out
            },
            NestedSegment::WhiteSpace(_, _) => {
                proof {
                    assert(node_entries(self@, 0) =~= seq![(0nat, self@)]);
                    assert(ref_pairs_of(out@) =~= node_entries(self@, 0));
                }
                out
            },
        }
    }

    /// The pre-order entries on which the filter answered true: each
    /// entry of the flat list was shown to the filter once, in order,
    /// and kept exactly on a true answer.
    pub fn flat_filtered<F: Fn(usize, &NestedSegment) -> bool>(&self, filter: F) -> (r: Vec<(usize, &NestedSegment)>)
        requires
            forall|d: usize, s: &NestedSegment| #[trigger] filter.requires((d, s)),
        ensures
            kept_entries(filter, node_entries(self@, 0), ref_pairs_of(r@)),
    {
        let all: Vec<(usize, &NestedSegment)> = self.flat();
        let ghost es: Seq<(nat, SegView)> = node_entries(self@, 0);
        let mut out: Vec<(usize, &NestedSegment)> = Vec::new();
        let mut k: usize = 0;
        proof {
            assert(es.take(0) =~= Seq::<(nat, SegView)>::empty());
            assert(ref_pairs_of(out@) =~= Seq::<(nat, SegView)>::empty());
        }
        while k < all.len()
            invariant
                forall|d: usize, s: &NestedSegment| #[trigger] filter.requires((d, s)),
                ref_pairs_of(all@) == es,
                es == node_entries(self@, 0),
                all@.len() == es.len(),
                k <= all.len(),
                kept_entries(filter, es.take(k as int), ref_pairs_of(out@)),
            decreases all.len() - k,
        {
            let d: usize = all[k].0;
            let node: &NestedSegment = all[k].1;
            proof {
                assert(ref_pairs_of(all@)[k as int] == ((all@[k as int].0 as nat, all@[k as int].1@)));
                assert(((d as nat, node@)) == es[k as int]);
                assert(es.take(k + 1) =~= es.take(k as int).push(es[k as int]));
            }
            let approved: bool = filter(d, node);
            if approved {
                let ghost out_before = out@;
                out.push((d, node));
                proof {
                    lemma_kept_push_kept(filter, es.take(k as int), ref_pairs_of(out_before), es[k as int]);
                    assert(ref_pairs_of(out@) =~= ref_pairs_of(out_before).push(es[k as int]));
                }
            } else {
                proof {
                    lemma_kept_push_dropped(filter, es.take(k as int), ref_pairs_of(out@), es[k as int]);
                }
            }
            k += 1;
        }
        proof {
            assert(es.take(es.len() as int) =~= es);
        }
        out
    }

    /// All nodes standing at exactly the given pre-order depth, in
    /// order, the node itself counting as depth zero.
    pub fn sub_segments_at_depth(&self, depth: usize) -> (r: Vec<&NestedSegment>)
        ensures
            r@.len() == depth_entries(node_entries(self@, 0), depth as nat).len(),
            forall|i: int| 0 <= i < r@.len()
                ==> (#[trigger] r@[i])@ == depth_entries(node_entries(self@, 0), depth as nat)[i],
    {
        let all: Vec<(usize, &NestedSegment)> = self.flat();
        let ghost es: Seq<(nat, SegView)> = node_entries(self@, 0);
        let mut out: Vec<&NestedSegment> = Vec::new();
        let mut k: usize = 0;
        proof {
            assert(depth_entries(es.take(0), depth as nat) =~= Seq::<SegView>::empty());
        }
        while k < all.len()
            invariant
                ref_pairs_of(all@) == es,
                es == node_entries(self@, 0),
                all@.len() == es.len(),
                k <= all.len(),
                out@.len() == depth_entries(es.take(k as int), depth as nat).len(),
                forall|i: int| 0 <= i < out@.len()
                    ==> (#[trigger] out@[i])@ == depth_entries(es.take(k as int), depth as nat)[i],
            decreases all.len() - k,
        {
            proof {
                assert(ref_pairs_of(all@)[k as int] == ((all@[k as int].0 as nat, all@[k as int].1@)));
                lemma_depth_entries_take_step(es, depth as nat, k as int);
            }
            if all[k].0 == depth {
                out.push(all[k].1);
            }
            k += 1;
        }
        proof {
            assert(es.take(es.len() as int) =~= es);
        }
        out
    }

    /// The code entries of the flat list: each code node with its
    /// depth, in pre-order, leaves left out.
    pub fn flat_code(&self) -> (r: Vec<(usize, &NestedSegmentCode)>)
        ensures
            r@.len() == code_entries(node_entries(self@, 0)).len(),
            forall|i: int| 0 <= i < r@.len() ==> ({
                let e = code_entries(node_entries(self@, 0))[i];
                &&& (#[trigger] r@[i]).0 as nat == e.0
                &&& e.1 is Code
                &&& r@[i].1.name@ == e.1.name()
                &&& r@[i].1.open_tag@ == e.1.open_text()
                &&& r@[i].1.close_tag@ == e.1.close_text()
                &&& seg_views(r@[i].1.sub_segments@) == e.1.children()
            }),
            code_list_matches(self@, r@),
    {
        let all: Vec<(usize, &NestedSegment)> = self.flat();
        let ghost es: Seq<(nat, SegView)> = node_entries(self@, 0);
        let mut out: Vec<(usize, &NestedSegmentCode)> = Vec::new();
        let mut k: usize = 0;
        proof {
            assert(code_entries(es.take(0)) =~= Seq::<(nat, SegView)>::empty());
        }
        while k < all.len()
            invariant
                ref_pairs_of(all@) == es,
                es == node_entries(self@, 0),
                all@.len() == es.len(),
                k <= all.len(),
                out@.len() == code_entries(es.take(k as int)).len(),
                forall|i: int| 0 <= i < out@.len() ==> ({
                    let e = code_entries(es.take(k as int))[i];
                    &&& (#[trigger] out@[i]).0 as nat == e.0
                    &&& e.1 is Code
                    &&& out@[i].1.name@ == e.1.name()
                    &&& out@[i].1.open_tag@ == e.1.open_text()
                    &&& out@[i].1.close_tag@ == e.1.close_text()
                    &&& seg_views(out@[i].1.sub_segments@) == e.1.children()
                }),
            decreases all.len() - k,
        {
            let d: usize = all[k].0;
            let node: &NestedSegment = all[k].1;
            proof {
                assert(ref_pairs_of(all@)[k as int] == ((all@[k as int].0 as nat, all@[k as int].1@)));
                lemma_code_entries_take_step(es, k as int);
            }
            match node {
                NestedSegment::Code(_, codebody) => {
                    out.push((d, codebody));
                },
                _ => {},
            }
            k += 1;
        }
        proof {
            lemma_code_entries_take_all(es);
            assert forall|i: int| 0 <= i < out@.len() implies ({
                let e = code_entries(node_entries(self@, 0))[i];
                &&& (#[trigger] out@[i]).0 as nat == e.0
                &&& e.1 is Code
                &&& out@[i].1.name@ == e.1.name()
                &&& out@[i].1.open_tag@ == e.1.open_text()
                &&& out@[i].1.close_tag@ == e.1.close_text()
                &&& seg_views(out@[i].1.sub_segments@) == e.1.children()
            }) by {
                assert(code_entries(es.take(k as int))[i] == code_entries(es)[i]);
            }
        }
        out
    }

    /// The code entries the filter approves, in pre-order.
    pub fn flat_code_filtered<F: Fn(usize, &NestedSegmentCode) -> bool>(&self, filter: F) -> (r: Vec<(usize, &NestedSegmentCode)>)
        requires
            forall|d: usize, c: &NestedSegmentCode| #[trigger] filter.requires((d, c)),
        ensures
            kept_code_entries(filter, code_entries(node_entries(self@, 0)), r@),
    {
        let all: Vec<(usize, &NestedSegmentCode)> = self.flat_code();
        let ghost es: Seq<(nat, SegView)> = code_entries(node_entries(self@, 0));
        let mut out: Vec<(usize, &NestedSegmentCode)> = Vec::new();
        let mut k: usize = 0;
        proof {
            assert(es.take(0) =~= Seq::<(nat, SegView)>::empty());
        }
        while k < all.len()
            invariant
                forall|d: usize, c: &NestedSegmentCode| #[trigger] filter.requires((d, c)),
                k <= all.len(),
                es == code_entries(node_entries(self@, 0)),
                code_list_matches(self@, all@),
                kept_code_entries(filter, es.take(k as int), out@),
            decreases all.len() - k,
        {
            let d: usize = all[k].0;
            let codebody: &NestedSegmentCode = all[k].1;
            proof {
                assert(all@[k as int].0 == d && all@[k as int].1 == codebody);
                assert((all@[k as int]).0 as nat == es[k as int].0);
                assert(code_body_matches(*codebody, es[k as int].1));
                assert(es.take(k + 1) =~= es.take(k as int).push(es[k as int]));
            }
            let approved: bool = filter(d, codebody);
            if approved {
                let ghost out_before = out@;
                out.push((d, codebody));
                proof {
                    lemma_kept_code_push_kept(filter, es.take(k as int), out_before, es[k as int], (d, codebody));
                    assert(out@ =~= out_before.push((d, codebody)));
                }
            } else {
                proof {
                    lemma_kept_code_push_dropped(filter, es.take(k as int), out@, es[k as int]);
                }
            }
            k += 1;
        }
        proof {
            assert(es.take(es.len() as int) =~= es);
        }
        out
    }

    /// The node at `target_index` of the pre-order flat list, the node
    /// itself counting as index zero.
    pub fn sub_segment_at_index(&self, target_index: usize) -> (r: Option<&NestedSegment>)
        ensures
            r is Some <==> target_index < node_entries(self@, 0).len(),
            r is Some ==> r->0@ == node_entries(self@, 0)[target_index as int].1,
    {
        let all: Vec<(usize, &NestedSegment)> = self.flat();
        if target_index < all.len() {
            proof {
                assert(ref_pairs_of(all@)[target_index as int]
                    == ((all@[target_index as int].0 as nat, all@[target_index as int].1@)));
            }
            Some(all[target_index].1)
        } else {
            None
        }
    }
}

/// The node a child-index path leads to.
pub open spec fn node_at_path(v: SegView, path: Seq<usize>) -> Option<SegView>
    decreases path.len(),
{
    if path.len() == 0 {
        Some(v)
    } else if (path[0] as int) < v.children().len() {
        node_at_path(v.children()[path[0] as int], path.drop_first())
    } else {
        None
    }
}

/// Everything standing before the node a child-index path leads to,
/// in pre-order, was refused: each node along the path, and every
/// whole subtree to the left of each path step.
pub open spec fn refused_before_path<F: Fn(&NestedSegment) -> bool>(f: F, v: SegView, path: Seq<usize>) -> bool
    decreases path.len(),
{
    if path.len() == 0 {
        true
    } else {
        &&& (exists|s: NestedSegment| s@ == v && #[trigger] call_ensures(f, (&s,), false))
        &&& refused_seq(f, v.children().take(path[0] as int))
        &&& refused_before_path(f, v.children()[path[0] as int], path.drop_first())
    }
}

/// The recognizer can only have refused this node and, below a code
/// node, every node of every subtree.
pub open spec fn refused_tree<F: Fn(&NestedSegment) -> bool>(f: F, v: SegView) -> bool
    decreases v, 0nat,
{
    &&& (exists|s: NestedSegment| s@ == v && #[trigger] call_ensures(f, (&s,), false))
    &&& match v {
        SegView::Code { children, .. } => refused_seq(f, children),
        _ => true,
    }
}

/// The recognizer refused every node of every tree in the sequence.
pub open spec fn refused_seq<F: Fn(&NestedSegment) -> bool>(f: F, cs: Seq<SegView>) -> bool
    decreases cs, 1nat,
{
    if cs.len() == 0 {
        true
    } else {
        refused_tree(f, cs[0]) && refused_seq(f, cs.drop_first())
    }
}

/// Refusing one more subtree extends a refused run.
pub proof fn lemma_refused_seq_take_step<F: Fn(&NestedSegment) -> bool>(f: F, cs: Seq<SegView>, k: int)
    requires
        0 <= k < cs.len(),
        refused_seq(f, cs.take(k)),
        refused_tree(f, cs[k]),
    ensures
        refused_seq(f, cs.take(k + 1)),
    decreases k,
{
    if k == 0 {
        reveal_with_fuel(refused_seq, 2);
        assert(cs.take(1).drop_first() =~= Seq::<SegView>::empty());
        assert(cs.take(1)[0] == cs[0]);
    } else {
        assert(cs.take(k).drop_first() =~= cs.drop_first().take(k - 1));
        assert(cs.take(k)[0] == cs[0]);
        assert(cs.drop_first()[k - 1] == cs[k]);
        lemma_refused_seq_take_step(f, cs.drop_first(), k - 1);
        assert(cs.take(k + 1).drop_first() =~= cs.drop_first().take(k));
        assert(cs.take(k + 1)[0] == cs[0]);
    }
}

impl NestedSegment {
    /// The child-index path to the first node, in pre-order, that the
    /// recognizer accepts, the node itself tried first; when there is
    /// none, the recognizer refused every node of the tree.
    pub fn find<F: Fn(&NestedSegment) -> bool + Copy>(&self, identification_method: F) -> (r: Option<Vec<usize>>)
        requires
            forall|s: &NestedSegment| #[trigger] identification_method.requires((s,)),
        ensures
            r is Some ==> node_at_path(self@, r->0@) is Some,
            r is Some ==> exists|s: NestedSegment| s@ == node_at_path(self@, r->0@)->0
                && #[trigger] call_ensures(identification_method, (&s,), true),
            r is Some ==> refused_before_path(identification_method, self@, r->0@),
            r is None ==> refused_tree(identification_method, self@),
        decreases self,
    {
        if identification_method(self) {
            let path: Vec<usize> = Vec::new();
            proof {
                assert(node_at_path(self@, path@) == Some(self@));
            }
            return Some(path);
        }
        match self {
            NestedSegment::Code(_, code) => {
                let ghost cvs: Seq<SegView> = self@.children();
                proof {
                    lemma_seg_views_index(code.sub_segments@);
                    assert(refused_seq(identification_method, cvs.take(0)));
                }
                let mut k: usize = 0;
                while k < code.sub_segments.len()
                    invariant
                        forall|s: &NestedSegment| #[trigger] identification_method.requires((s,)),
                        k <= code.sub_segments.len(),
                        cvs == self@.children(),
                        cvs == seg_views(code.sub_segments@),
                        cvs.len() == code.sub_segments@.len(),
                        forall|j: int| 0 <= j < cvs.len() ==> #[trigger] cvs[j] == code.sub_segments@[j]@,
                        refused_seq(identification_method, cvs.take(k as int)),
                        call_ensures(identification_method, (self, ), false),
                        decreases_to!(self => code.sub_segments@),
                    decreases code.sub_segments.len() - k,
                {
                    proof {
                        assert(decreases_to!(code.sub_segments@ => code.sub_segments@[k as int]));
                    }
                    match code.sub_segments[k].find(identification_method) {
                        Some(rest) => {
                            let ghost rest0: Seq<usize> = rest@;
                            let mut path: Vec<usize> = rest;
                            path.insert(0, k);
                            proof {
                                assert(path@ == rest0.insert(0, k));
                                assert(path@[0] == k);
                                assert(path@.drop_first() =~= rest0);
                                assert((path@[0] as int) < self@.children().len());
                                assert(node_at_path(self@, path@)
                                    == node_at_path(cvs[k as int], rest0));
                                assert(call_ensures(identification_method, (self,), false));
                                assert(exists|s: NestedSegment| s@ == self@
                                    && #[trigger] call_ensures(identification_method, (&s,), false));
                                assert(refused_seq(identification_method, self@.children().take(path@[0] as int)));
                                assert(refused_before_path(identification_method,
                                    self@.children()[path@[0] as int], path@.drop_first()));
                                assert(refused_before_path(identification_method, self@, path@));
                            }
                            return Some(path);
                        },
                        None => {
                            proof {
                                lemma_refused_seq_take_step(identification_method, cvs, k as int);
                            }
                        },
                    }
                    k += 1;
                }
                proof {
                    assert(cvs.take(cvs.len() as int) =~= cvs);
                }
                None
            },
            _ => None,
        }
    }

    /// The same search under its other name.
    pub fn path_to<F: Fn(&NestedSegment) -> bool + Copy>(&self, identification_method: F) -> (r: Option<Vec<usize>>)
        requires
            forall|s: &NestedSegment| #[trigger] identification_method.requires((s,)),
        ensures
            r is Some ==> node_at_path(self@, r->0@) is Some,
            r is Some ==> exists|s: NestedSegment| s@ == node_at_path(self@, r->0@)->0
                && #[trigger] call_ensures(identification_method, (&s,), true),
            r is Some ==> refused_before_path(identification_method, self@, r->0@),
            r is None ==> refused_tree(identification_method, self@),
    {
        self.find(identification_method)
    }
}

/// The tree without its white-space leaves, at every level.
pub open spec fn strip_ws_node(v: SegView) -> SegView
    decreases v, 0nat,
{
    match v {
        SegView::Code { id, name, open_tag, children, close_tag } =>
            (SegView::Code { id, name, open_tag, children: strip_ws_seq(children), close_tag }),
        other => other,
    }
}

/// The sequence without its white-space leaves, each survivor cleaned
/// in turn.
pub open spec fn strip_ws_seq(cs: Seq<SegView>) -> Seq<SegView>
    decreases cs, 1nat,
{
    if cs.len() == 0 {
        Seq::empty()
    } else {
        (if cs[0] is WhiteSpace {
            Seq::empty()
        } else {
            seq![strip_ws_node(cs[0])]
        }) + strip_ws_seq(cs.drop_first())
    }
}

/// Cleaning one more node keeps it exactly when it is not white-space.
pub proof fn lemma_strip_ws_take_step(cs: Seq<SegView>, k: int)
    requires
        0 <= k < cs.len(),
    ensures
        strip_ws_seq(cs.take(k + 1)) == strip_ws_seq(cs.take(k))
            + (if cs[k] is WhiteSpace { Seq::<SegView>::empty() } else { seq![strip_ws_node(cs[k])] }),
    decreases k,
{
    if k == 0 {
        reveal_with_fuel(strip_ws_seq, 2);
        assert(cs.take(1).drop_first() =~= Seq::<SegView>::empty());
        assert(cs.take(0) =~= Seq::<SegView>::empty());
        assert(cs.take(1)[0] == cs[0]);
        if cs[0] is WhiteSpace {
            assert(strip_ws_seq(cs.take(0)) + Seq::<SegView>::empty()
                =~= Seq::<SegView>::empty() + strip_ws_seq(cs.take(1).drop_first()));
        } else {
            assert(strip_ws_seq(cs.take(0)) + seq![strip_ws_node(cs[0])]
                =~= seq![strip_ws_node(cs[0])] + strip_ws_seq(cs.take(1).drop_first()));
        }
    } else {
        lemma_strip_ws_take_step(cs.drop_first(), k - 1);
        assert(cs.take(k + 1).drop_first() =~= cs.drop_first().take(k));
        assert(cs.take(k).drop_first() =~= cs.drop_first().take(k - 1));
        assert(cs.take(k + 1)[0] == cs[0]);
        assert(cs.take(k)[0] == cs[0]);
        assert(cs.drop_first()[k - 1] == cs[k]);
        let head: Seq<SegView> = if cs[0] is WhiteSpace {
            Seq::empty()
        } else {
            seq![strip_ws_node(cs[0])]
        };
        let tail: Seq<SegView> = if cs[k] is WhiteSpace {
            Seq::empty()
        } else {
            seq![strip_ws_node(cs[k])]
        };
        assert(head + (strip_ws_seq(cs.drop_first().take(k - 1)) + tail)
            =~= (head + strip_ws_seq(cs.drop_first().take(k - 1))) + tail);
    }
}

impl NestedSegment {
    /// The tree rebuilt without its white-space leaves.
    fn without_ws_from(&self) -> (r: NestedSegment)
        ensures
            r@ == strip_ws_node(self@),
        decreases self,
    {
        match self {
            NestedSegment::Code(id, code) => {
                let ghost cvs: Seq<SegView> = self@.children();
                let mut kept: Vec<NestedSegment> = Vec::new();
                proof {
                    lemma_seg_views_index(code.sub_segments@);
                    assert(seg_views(kept@) =~= strip_ws_seq(cvs.take(0)));
                }
                let mut k: usize = 0;
                while k < code.sub_segments.len()
                    invariant
                        k <= code.sub_segments.len(),
                        cvs == self@.children(),
                        cvs == seg_views(code.sub_segments@),
                        cvs.len() == code.sub_segments@.len(),
                        forall|j: int| 0 <= j < cvs.len() ==> #[trigger] cvs[j] == code.sub_segments@[j]@,
                        seg_views(kept@) == strip_ws_seq(cvs.take(k as int)),
                        decreases_to!(self => code.sub_segments@),
                    decreases code.sub_segments.len() - k,
                {
                    proof {
                        assert(decreases_to!(code.sub_segments@ => code.sub_segments@[k as int]));
                        lemma_strip_ws_take_step(cvs, k as int);
                    }
                    let child: &NestedSegment = &code.sub_segments[k];
                    if !child.is_whitespace() {
                        let ghost kept_before = kept@;
                        let cleaned: NestedSegment = child.without_ws_from();
                        proof {
                            crate::segment::lemma_seg_views_push(kept_before, cleaned);
                            assert(seg_views(kept_before).push(cleaned@) =~= strip_ws_seq(cvs.take(k + 1)));
                        }
                        kept.push(cleaned);
                    }
                    k += 1;
                }
                let r: NestedSegment = NestedSegment::Code(*id, NestedSegmentCode {
                    name: code.name.clone(),
                    open_tag: code.open_tag.clone(),
                    sub_segments: kept,
                    close_tag: code.close_tag.clone(),
                });
                proof {
                    assert(cvs.take(cvs.len() as int) =~= cvs);
                    assert(r@.children() == strip_ws_seq(cvs));
                }
                r
            },
            _ => self.clone(),
        }
    }

    /// Remove every white-space leaf from the tree, at every level.
    pub fn remove_whitespace(&mut self)
        ensures
            final(self)@ == strip_ws_node(old(self)@),
    {
        let cleaned: NestedSegment = self.without_ws_from();
        *self = cleaned;
    }

    /// The tree without its white-space leaves, consumed and returned.
    pub fn without_whitespace(self) -> (r: NestedSegment)
        ensures
            r@ == strip_ws_node(self@),
    {
        let mut s: NestedSegment = self;
        s.remove_whitespace();
        s
    }
}

/// The depth handed to a kept node's children: one deeper, saturating
/// at the largest depth.
pub open spec fn next_depth(d: usize) -> usize {
    if d < usize::MAX {
        (d + 1) as usize
    } else {
        d
    }
}

/// A node the filter kept at depth `d`: everything its own stays, and
/// its children are in turn what the filter left of the old children,
/// one level deeper.
pub open spec fn kept_child<F: Fn(usize, &NestedSegment) -> bool>(f: F, d: usize, old_node: SegView, new_node: SegView) -> bool
    decreases old_node, 0nat,
{
    match old_node {
        SegView::Code { id, name, open_tag, children, close_tag } => {
            &&& new_node is Code
            &&& new_node.id() == id
            &&& new_node.name() == name
            &&& new_node.open_text() == open_tag
            &&& new_node.close_text() == close_tag
            &&& retained_children(f, next_depth(d), children, new_node.children())
        },
        other => new_node == other,
    }
}

/// What the filter left of a child list at depth `d`: each old child
/// was either refused and dropped with its whole subtree, or approved
/// and kept with its subtree filtered in turn.
pub open spec fn retained_children<F: Fn(usize, &NestedSegment) -> bool>(f: F, d: usize, olds: Seq<SegView>, news: Seq<SegView>) -> bool
    decreases olds, 1nat,
{
    if olds.len() == 0 {
        news.len() == 0
    } else {
        ||| ((exists|s: NestedSegment| s@ == olds[0] && #[trigger] call_ensures(f, (d, &s), false))
            && retained_children(f, d, olds.drop_first(), news))
        ||| (news.len() > 0
            && (exists|s: NestedSegment| s@ == olds[0] && #[trigger] call_ensures(f, (d, &s), true))
            && kept_child(f, d, olds[0], news[0])
            && retained_children(f, d, olds.drop_first(), news.drop_first()))
    }
}

/// Keeping one more child extends a filtered run.
proof fn lemma_retained_push_kept<F: Fn(usize, &NestedSegment) -> bool>(f: F, d: usize, olds: Seq<SegView>, news: Seq<SegView>, o: SegView, n: SegView)
    requires
        retained_children(f, d, olds, news),
        exists|s: NestedSegment| s@ == o && #[trigger] call_ensures(f, (d, &s), true),
        kept_child(f, d, o, n),
    ensures
        retained_children(f, d, olds.push(o), news.push(n)),
    decreases olds.len(),
{
    reveal_with_fuel(retained_children, 2);
    if olds.len() == 0 {
        assert(olds.push(o).drop_first() =~= Seq::<SegView>::empty());
        assert(news.len() == 0);
        assert(news.push(n).drop_first() =~= Seq::<SegView>::empty());
        assert(olds.push(o)[0] == o);
        assert(news.push(n)[0] == n);
    } else {
        let tail_olds = olds.drop_first();
        assert(olds.push(o).drop_first() =~= tail_olds.push(o));
        assert(olds.push(o)[0] == olds[0]);
        if (exists|s: NestedSegment| s@ == olds[0] && #[trigger] call_ensures(f, (d, &s), false))
            && retained_children(f, d, tail_olds, news) {
            lemma_retained_push_kept(f, d, tail_olds, news, o, n);
        }
        if news.len() > 0
            && (exists|s: NestedSegment| s@ == olds[0] && #[trigger] call_ensures(f, (d, &s), true))
            && kept_child(f, d, olds[0], news[0])
            && retained_children(f, d, tail_olds, news.drop_first()) {
            lemma_retained_push_kept(f, d, tail_olds, news.drop_first(), o, n);
            assert(news.push(n).drop_first() =~= news.drop_first().push(n));
            assert(news.push(n)[0] == news[0]);
        }
    }
}

/// Dropping one more child extends a filtered run without growing it.
proof fn lemma_retained_push_dropped<F: Fn(usize, &NestedSegment) -> bool>(f: F, d: usize, olds: Seq<SegView>, news: Seq<SegView>, o: SegView)
    requires
        retained_children(f, d, olds, news),
        exists|s: NestedSegment| s@ == o && #[trigger] call_ensures(f, (d, &s), false),
    ensures
        retained_children(f, d, olds.push(o), news),
    decreases olds.len(),
{
    reveal_with_fuel(retained_children, 2);
    if olds.len() == 0 {
        assert(olds.push(o).drop_first() =~= Seq::<SegView>::empty());
        assert(olds.push(o)[0] == o);
        assert(news.len() == 0);
    } else {
        let tail_olds = olds.drop_first();
        assert(olds.push(o).drop_first() =~= tail_olds.push(o));
        assert(olds.push(o)[0] == olds[0]);
        if (exists|s: NestedSegment| s@ == olds[0] && #[trigger] call_ensures(f, (d, &s), false))
            && retained_children(f, d, tail_olds, news) {
            lemma_retained_push_dropped(f, d, tail_olds, news, o);
        }
        if news.len() > 0
            && (exists|s: NestedSegment| s@ == olds[0] && #[trigger] call_ensures(f, (d, &s), true))
            && kept_child(f, d, olds[0], news[0])
            && retained_children(f, d, tail_olds, news.drop_first()) {
            lemma_retained_push_dropped(f, d, tail_olds, news.drop_first(), o);
        }
    }
}

impl NestedSegment {
    /// The tree rebuilt with only the children the filter approves, at
    /// every level; this node itself is never filtered.
    fn retained_from<F: Fn(usize, &NestedSegment) -> bool + Copy>(&self, filter: F, depth: usize) -> (r: NestedSegment)
        requires
            forall|d: usize, s: &NestedSegment| #[trigger] filter.requires((d, s)),
        ensures
            self@ is Code ==> r@ is Code && r@.id() == self@.id() && r@.name() == self@.name()
                && r@.open_text() == self@.open_text() && r@.close_text() == self@.close_text()
                && retained_children(filter, depth, self@.children(), r@.children()),
            !(self@ is Code) ==> r@ == self@,
        decreases self,
    {
        match self {
            NestedSegment::Code(id, code) => {
                let ghost cvs: Seq<SegView> = self@.children();
                let mut kept: Vec<NestedSegment> = Vec::new();
                proof {
                    lemma_seg_views_index(code.sub_segments@);
                    assert(cvs.take(0) =~= Seq::<SegView>::empty());
                    assert(seg_views(kept@) =~= Seq::<SegView>::empty());
                }
                let mut k: usize = 0;
                while k < code.sub_segments.len()
                    invariant
                        forall|d: usize, s: &NestedSegment| #[trigger] filter.requires((d, s)),
                        k <= code.sub_segments.len(),
                        cvs == self@.children(),
                        cvs == seg_views(code.sub_segments@),
                        cvs.len() == code.sub_segments@.len(),
                        forall|j: int| 0 <= j < cvs.len() ==> #[trigger] cvs[j] == code.sub_segments@[j]@,
                        retained_children(filter, depth, cvs.take(k as int), seg_views(kept@)),
                        decreases_to!(self => code.sub_segments@),
                    decreases code.sub_segments.len() - k,
                {
                    proof {
                        assert(decreases_to!(code.sub_segments@ => code.sub_segments@[k as int]));
                    }
                    let child: &NestedSegment = &code.sub_segments[k];
                    proof {
                        assert(cvs.take(k + 1) =~= cvs.take(k as int).push(cvs[k as int]));
                    }
                    if filter(depth, child) {
                        let next: usize = if depth < usize::MAX {
                            depth + 1
                        } else {
                            depth
                        };
                        let ghost kept_before = kept@;
                        let rebuilt: NestedSegment = child.retained_from(filter, next);
                        proof {
                            crate::segment::lemma_seg_views_push(kept_before, rebuilt);
                            assert(kept_child(filter, depth, cvs[k as int], rebuilt@));
                            lemma_retained_push_kept(
                                filter, depth, cvs.take(k as int), seg_views(kept_before),
                                cvs[k as int], rebuilt@,
                            );
                        }
                        kept.push(rebuilt);
                    } else {
                        proof {
                            lemma_retained_push_dropped(
                                filter, depth, cvs.take(k as int), seg_views(kept@), cvs[k as int],
                            );
                        }
                    }
                    k += 1;
                }
                let r: NestedSegment = NestedSegment::Code(*id, NestedSegmentCode {
                    name: code.name.clone(),
                    open_tag: code.open_tag.clone(),
                    sub_segments: kept,
                    close_tag: code.close_tag.clone(),
                });
                proof {
                    assert(cvs.take(cvs.len() as int) =~= cvs);
                }
                r
            },
            _ => self.clone(),
        }
    }

    /// Keep, at every level, only the child segments the filter
    /// approves of their depth and themselves; a refused child takes
    /// its whole subtree with it. This node itself always stays.
    pub fn retain_child_segments<F: Fn(usize, &NestedSegment) -> bool + Copy>(&mut self, filter: F)
        requires
            forall|d: usize, s: &NestedSegment| #[trigger] filter.requires((d, s)),
        ensures
            old(self)@ is Code ==> final(self)@ is Code
                && final(self)@.id() == old(self)@.id()
                && final(self)@.name() == old(self)@.name()
                && final(self)@.open_text() == old(self)@.open_text()
                && final(self)@.close_text() == old(self)@.close_text()
                && retained_children(filter, 0, old(self)@.children(), final(self)@.children()),
            !(old(self)@ is Code) ==> final(self)@ == old(self)@,
    {
        let rebuilt: NestedSegment = self.retained_from(filter, 0);
        *self = rebuilt;
    }
}

/// Listing one more tree at the end appends its flat list.
pub proof fn lemma_flat_seq_push(cs: Seq<SegView>, x: SegView, d: nat)
    ensures
        flat_entries_seq(cs.push(x), d) == flat_entries_seq(cs, d) + flat_entries(x, d),
{
    assert(cs.push(x).take(cs.len() as int) =~= cs);
    assert(cs.push(x).take(cs.len() as int + 1) =~= cs.push(x));
    lemma_flat_seq_take_step(cs.push(x), d, cs.len() as int);
}

/// The nodes of a flat list do not depend on the root depth.
pub proof fn lemma_flat_seq_nodes_ignore_depth(cs: Seq<SegView>, d: nat)
    ensures
        flat_entries_seq(cs, (d + 1) as nat).len() == flat_entries_seq(cs, d).len(),
        forall|i: int| 0 <= i < flat_entries_seq(cs, d).len()
            ==> (#[trigger] flat_entries_seq(cs, (d + 1) as nat)[i]).1 == flat_entries_seq(cs, d)[i].1,
{
    lemma_flat_raise_seq(cs, d);
    assert forall|i: int| 0 <= i < flat_entries_seq(cs, d).len()
        implies (#[trigger] flat_entries_seq(cs, (d + 1) as nat)[i]).1 == flat_entries_seq(cs, d)[i].1 by {
        assert(flat_entries_seq(cs, (d + 1) as nat)[i] == raise_depths(flat_entries_seq(cs, d))[i]);
    }
}

/// The identities of a flat list count up from `base`, one per node.
pub open spec fn ids_consecutive(es: Seq<(nat, SegView)>, base: u64) -> bool {
    forall|i: int| 0 <= i < es.len() ==> (#[trigger] es[i]).1.id() == base + i
}

} // verus!
