use vstd::prelude::*;
use crate::segment::NestedSegment;
use crate::segment::SegView;
use crate::segment::seg_views;

verus! {

/// The position of the first child carrying the identity `id`.
pub open spec fn first_child_with_id(cs: Seq<SegView>, id: u64) -> Option<int>
    decreases cs,
{
    if cs.len() == 0 {
        None
    } else if cs[0].id() == id {
        Some(0)
    } else {
        match first_child_with_id(cs.drop_first(), id) {
            Some(i) => Some(i + 1),
            None => None,
        }
    }
}

/// A found child lies within the list and carries the identity, and no
/// child before it does.
pub proof fn lemma_first_child_with_id(cs: Seq<SegView>, id: u64)
    ensures
        match first_child_with_id(cs, id) {
            Some(i) => 0 <= i < cs.len() && cs[i].id() == id
                && forall|m: int| 0 <= m < i ==> (#[trigger] cs[m]).id() != id,
            None => forall|m: int| 0 <= m < cs.len() ==> (#[trigger] cs[m]).id() != id,
        },
    decreases cs.len(),
{
    if cs.len() > 0 && cs[0].id() != id {
        lemma_first_child_with_id(cs.drop_first(), id);
        assert forall|m: int| 1 <= m < cs.len() implies (#[trigger] cs[m]).id() == cs.drop_first()[m - 1].id() by {
            assert(cs.drop_first()[m - 1] == cs[m]);
        }
    }
}

/// Resolving an identity path: each step descends into the first child
/// carrying the next identity; the empty path names the node itself.
pub open spec fn resolve_path(v: SegView, path: Seq<u64>) -> Option<SegView>
    decreases path.len(),
{
    if path.len() == 0 {
        Some(v)
    } else {
        match first_child_with_id(v.children(), path[0]) {
            Some(i) => resolve_path(v.children()[i], path.drop_first()),
            None => None,
        }
    }
}

/// Resolving one more path step descends into the first child
/// carrying the appended identity.
pub proof fn lemma_resolve_push(src: SegView, path: Seq<u64>, id: u64)
    ensures
        resolve_path(src, path.push(id)) == (match resolve_path(src, path) {
            Some(v) => match first_child_with_id(v.children(), id) {
                Some(i) => Some(v.children()[i]),
                None => None::<SegView>,
            },
            None => None::<SegView>,
        }),
    decreases path.len(),
{
    reveal_with_fuel(resolve_path, 2);
    if path.len() == 0 {
        assert(path.push(id)[0] == id);
        assert(path.push(id).drop_first() =~= Seq::<u64>::empty());
    } else {
        assert(path.push(id)[0] == path[0]);
        assert(path.push(id).drop_first() =~= path.drop_first().push(id));
        match first_child_with_id(src.children(), path[0]) {
            Some(i) => {
                lemma_resolve_push(src.children()[i], path.drop_first(), id);
            },
            None => {},
        }
    }
}

/// When no earlier sibling shares the child's identity, the path a
/// child handle carries resolves to exactly that child: with pairwise
/// distinct identities, identity-path navigation and index navigation
/// agree.
pub proof fn lemma_child_path_resolves(src: SegView, path: Seq<u64>, index: int)
    requires
        resolve_path(src, path) is Some,
        0 <= index < resolve_path(src, path)->0.children().len(),
        forall|m: int| 0 <= m < index
            ==> (#[trigger] resolve_path(src, path)->0.children()[m]).id()
                != resolve_path(src, path)->0.children()[index].id(),
    ensures
        resolve_path(src, path.push(resolve_path(src, path)->0.children()[index].id()))
            == Some(resolve_path(src, path)->0.children()[index]),
{
    let node = resolve_path(src, path)->0;
    let id = node.children()[index].id();
    lemma_first_child_with_id(node.children(), id);
    assert(first_child_with_id(node.children(), id) == Some(index));
    lemma_resolve_push(src, path, id);
}

/// A handle into a tree: the tree's root and a path of node identities,
/// resolved anew on every access, so that it keeps naming the same
/// logical node while siblings elsewhere come and go.
pub struct NestedSegmentRef<'a> {
    source: &'a NestedSegment,
    target_path: Vec<u64>,
}

impl<'a> Clone for NestedSegmentRef<'a> {
    /// A copy naming the same node of the same tree.
    fn clone(&self) -> (res: Self)
        ensures
            res.source_view() == self.source_view(),
            res.path_view() == self.path_view(),
    {
        NestedSegmentRef { source: self.source, target_path: self.target_path.clone() }
    }
}

impl<'a> NestedSegmentRef<'a> {
    /// The tree the handle points into.
    pub closed spec fn source_view(&self) -> SegView {
        self.source@
    }

    /// The identity path the handle resolves.
    pub closed spec fn path_view(&self) -> Seq<u64> {
        self.target_path@
    }

    /// Create a handle on `source` resolving the given identity path.
    pub fn new(source: &'a NestedSegment, path: Vec<u64>) -> (r: NestedSegmentRef<'a>)
        ensures
            r.source_view() == source@,
            r.path_view() == path@,
    {
        NestedSegmentRef { source, target_path: path }
    }

    /// Find the first child of `node` carrying `id`.
    fn find_child(node: &'a NestedSegment, id: u64) -> (r: Option<&'a NestedSegment>)
        ensures
            r is Some <==> first_child_with_id(node@.children(), id) is Some,
            r is Some ==> r->0@ == node@.children()[first_child_with_id(node@.children(), id)->0],
    {
        let cs: &[NestedSegment] = node.sub_segments();
        proof {
            crate::segment::lemma_seg_views_index(cs@);
            lemma_first_child_with_id(node@.children(), id);
        }
        let mut j: usize = 0;
        while j < cs.len()
            invariant
                j <= cs@.len(),
                seg_views(cs@) == node@.children(),
                node@.children().len() == cs@.len(),
                forall|m: int| 0 <= m < cs@.len() ==> (#[trigger] node@.children()[m]) == cs@[m]@,
                forall|m: int| 0 <= m < j ==> (#[trigger] node@.children()[m]).id() != id,
            decreases cs@.len() - j,
        {
            let c: &NestedSegment = &cs[j];
            if c.id_value() == id {
                proof {
                    lemma_first_child_with_id(node@.children(), id);
                    assert(node@.children()[j as int].id() == id);
                    assert(first_child_with_id(node@.children(), id) == Some(j as int));
                    assert(c@ == node@.children()[j as int]);
                }
                return Some(c);
            }
            j += 1;
        }
        proof {
            lemma_first_child_with_id(node@.children(), id);
        }
        None
    }

    /// The node the handle names now, if the path still resolves.
    pub fn get(&self) -> (r: Option<&'a NestedSegment>)
        ensures
            r is Some <==> resolve_path(self.source_view(), self.path_view()) is Some,
            r is Some ==> r->0@ == resolve_path(self.source_view(), self.path_view())->0,
    {
        let mut current: &'a NestedSegment = self.source;
        let mut step: usize = 0;
        let n: usize = self.target_path.len();
        proof {
            assert(self.path_view().skip(0) =~= self.path_view());
        }
        while step < n
            invariant
                step <= n,
                n == self.path_view().len(),
                resolve_path(self.source_view(), self.path_view())
                    == resolve_path(current@, self.path_view().skip(step as int)),
            decreases n - step,
        {
            let id: u64 = self.target_path[step];
            match Self::find_child(current, id) {
                Some(child) => {
                    proof {
                        assert(self.path_view().skip(step as int)[0] == id);
                        assert(self.path_view().skip(step as int).drop_first()
                            =~= self.path_view().skip(step + 1));
                    }
                    current = child;
                },
                None => {
                    proof {
                        assert(self.path_view().skip(step as int)[0] == id);
                        assert(resolve_path(current@, self.path_view().skip(step as int)) is None);
                    }
                    return None;
                },
            }
            step += 1;
        }
        proof {
            assert(self.path_view().skip(n as int) =~= Seq::<u64>::empty());
        }
        Some(current)
    }

    /// A handle on this node's first child.
    pub fn child(&self) -> (r: Option<NestedSegmentRef<'a>>)
        ensures
            ({
                let here = resolve_path(self.source_view(), self.path_view());
                &&& (r is Some <==> here is Some && here->0.children().len() > 0)
                &&& r is Some ==> r->0.source_view() == self.source_view()
                    && r->0.path_view() == self.path_view().push(here->0.children()[0].id())
            }),
    {
        self.child_by_index(0)
    }

    /// A handle on this node's child at `child_index`: the path grows
    /// by that child's identity. When no earlier sibling shares that
    /// identity, the handle resolves to exactly that child; among
    /// duplicated identities it resolves to the first carrier.
    pub fn child_by_index(&self, child_index: usize) -> (r: Option<NestedSegmentRef<'a>>)
        ensures
            ({
                let here = resolve_path(self.source_view(), self.path_view());
                &&& (r is Some <==> here is Some && child_index < here->0.children().len())
                &&& r is Some ==> r->0.source_view() == self.source_view()
                    && r->0.path_view() == self.path_view().push(here->0.children()[child_index as int].id())
                &&& (r is Some && (forall|m: int| 0 <= m < child_index
                        ==> (#[trigger] here->0.children()[m]).id() != here->0.children()[child_index as int].id()))
                    ==> resolve_path(r->0.source_view(), r->0.path_view())
                        == Some(here->0.children()[child_index as int])
            }),
    {
        match self.get() {
            Some(node) => {
                let cs: &[NestedSegment] = node.sub_segments();
                proof {
                    crate::segment::lemma_seg_views_index(cs@);
                }
                if child_index < cs.len() {
                    let mut path: Vec<u64> = self.target_path.clone();
                    path.push(cs[child_index].id_value());
                    proof {
                        let here = resolve_path(self.source_view(), self.path_view());
                        if forall|m: int| 0 <= m < child_index
                            ==> (#[trigger] here->0.children()[m]).id() != here->0.children()[child_index as int].id() {
                            lemma_child_path_resolves(self.source_view(), self.path_view(), child_index as int);
                        }
                    }
                    Some(NestedSegmentRef { source: self.source, target_path: path })
                } else {
                    None
                }
            },
            None => None,
        }
    }

    /// A handle on this node's parent; the root has none.
    pub fn parent(&self) -> (r: Option<NestedSegmentRef<'a>>)
        ensures
            r is Some <==> self.path_view().len() > 0,
            r is Some ==> r->0.source_view() == self.source_view()
                && r->0.path_view() == self.path_view().drop_last(),
    {
        if self.target_path.len() > 0 {
            let mut path: Vec<u64> = self.target_path.clone();
            let _last: Option<u64> = path.pop();
            proof {
                assert(path@ =~= self.path_view().drop_last());
            }
            Some(NestedSegmentRef { source: self.source, target_path: path })
        } else {
            None
        }
    }

    /// Where this node stands among its siblings: the first position in
    /// the parent's children that carries the path's last identity.
    pub open spec fn sibling_position(self) -> Option<(SegView, int)> {
        if self.path_view().len() == 0 {
            None
        } else {
            match resolve_path(self.source_view(), self.path_view().drop_last()) {
                Some(parent) => match first_child_with_id(parent.children(), self.path_view().last()) {
                    Some(i) => Some((parent, i)),
                    None => None,
                },
                None => None,
            }
        }
    }

    /// A handle on the sibling `offset` places away from this node,
    /// counted from the first sibling carrying this node's identity;
    /// none past either end of the parent's child list.
    pub fn sibling_at_offset(&self, offset: isize) -> (r: Option<NestedSegmentRef<'a>>)
        ensures
            ({
                let sp = self.sibling_position();
                let pair = sp->0;
                &&& (r is Some <==> sp is Some && 0 <= pair.1 + offset < pair.0.children().len())
                &&& r is Some ==> r->0.source_view() == self.source_view()
                    && r->0.path_view() == self.path_view().drop_last().push(
                        pair.0.children()[pair.1 + offset].id())
            }),
    {
        let parent_ref: NestedSegmentRef<'a> = match self.parent() {
            Some(p) => p,
            None => {
                return None;
            },
        };
        let parent: &'a NestedSegment = match parent_ref.get() {
            Some(p) => p,
            None => {
                return None;
            },
        };
        let last_id: u64 = self.target_path[self.target_path.len() - 1];
        proof {
            assert(self.path_view().last() == last_id);
        }
        let cs: &[NestedSegment] = parent.sub_segments();
        proof {
            crate::segment::lemma_seg_views_index(cs@);
            lemma_first_child_with_id(parent@.children(), last_id);
        }
        let mut j: usize = 0;
        let mut own: Option<usize> = None;
        while j < cs.len() && own.is_none()
            invariant
                j <= cs@.len(),
                seg_views(cs@) == parent@.children(),
                parent@.children().len() == cs@.len(),
                forall|m: int| 0 <= m < cs@.len() ==> (#[trigger] parent@.children()[m]) == cs@[m]@,
                own is None ==> forall|m: int| 0 <= m < j ==> (#[trigger] parent@.children()[m]).id() != last_id,
                own is Some ==> own->0 < cs@.len()
                    && first_child_with_id(parent@.children(), last_id) == Some(own->0 as int),
            decreases cs@.len() - j + (if own is Some { 0int } else { 1int }),
        {
            if cs[j].id_value() == last_id {
                proof {
                    lemma_first_child_with_id(parent@.children(), last_id);
                    assert(parent@.children()[j as int].id() == last_id);
                    assert(first_child_with_id(parent@.children(), last_id) == Some(j as int));
                }
                own = Some(j);
            } else {
                j += 1;
            }
        }
        let own_index: usize = match own {
            Some(i) => i,
            None => {
                proof {
                    lemma_first_child_with_id(parent@.children(), last_id);
                }
                return None;
            },
        };
        let target: Option<usize> = if offset >= 0 {
            let off: usize = offset as usize;
            if off < cs.len() - own_index {
                Some(own_index + off)
            } else {
                None
            }
        } else {
            let magnitude: usize = ((-(offset + 1)) as usize) + 1;
            if magnitude <= own_index {
                Some(own_index - magnitude)
            } else {
                None
            }
        };
        match target {
            Some(t) => {
                let mut path: Vec<u64> = self.target_path.clone();
                let _last: Option<u64> = path.pop();
                path.push(cs[t].id_value());
                proof {
                    assert(path@ =~= self.path_view().drop_last().push(cs@[t as int]@.id()));
                }
                Some(NestedSegmentRef { source: self.source, target_path: path })
            },
            None => None,
        }
    }

    /// The sibling just after this node.
    pub fn next_sibling(&self) -> (r: Option<NestedSegmentRef<'a>>)
        ensures
            ({
                let sp = self.sibling_position();
                let pair = sp->0;
                &&& (r is Some <==> sp is Some && 0 <= pair.1 + 1 < pair.0.children().len())
                &&& r is Some ==> r->0.source_view() == self.source_view()
                    && r->0.path_view() == self.path_view().drop_last().push(
                        pair.0.children()[pair.1 + 1].id())
            }),
    {
        self.sibling_at_offset(1)
    }

    /// The sibling just before this node.
    pub fn previous_sibling(&self) -> (r: Option<NestedSegmentRef<'a>>)
        ensures
            ({
                let sp = self.sibling_position();
                let pair = sp->0;
                &&& (r is Some <==> sp is Some && 0 <= pair.1 - 1 < pair.0.children().len())
                &&& r is Some ==> r->0.source_view() == self.source_view()
                    && r->0.path_view() == self.path_view().drop_last().push(
                        pair.0.children()[pair.1 - 1].id())
            }),
    {
        self.sibling_at_offset(-1)
    }
}

/// The path one step to the right among the siblings: the parent's
/// children read at the first position carrying the path's last
/// identity, then the next position; none at the root or past the end.
pub open spec fn sibling_next_path(src: SegView, path: Seq<u64>) -> Option<Seq<u64>> {
    if path.len() == 0 {
        None
    } else {
        match resolve_path(src, path.drop_last()) {
            Some(parent) => match first_child_with_id(parent.children(), path.last()) {
                Some(i) => if i + 1 < parent.children().len() {
                    Some(path.drop_last().push(parent.children()[i + 1].id()))
                } else {
                    None
                },
                None => None,
            },
            None => None,
        }
    }
}

/// The next sibling of the path or of the nearest ancestor that has
/// one, the path itself tried first; none when the walk is exhausted.
pub open spec fn ascend_path(src: SegView, path: Seq<u64>) -> Option<Seq<u64>>
    decreases path.len(),
{
    match sibling_next_path(src, path) {
        Some(p) => Some(p),
        None => if path.len() == 0 {
            None
        } else {
            ascend_path(src, path.drop_last())
        },
    }
}

/// The pre-order successor of a resolving handle: its first child when
/// it has one, else onward through the next siblings of the node and
/// of its ancestors in turn.
pub open spec fn successor_path(src: SegView, path: Seq<u64>) -> Option<Seq<u64>> {
    match resolve_path(src, path) {
        Some(node) => if node.children().len() > 0 {
            Some(path.push(node.children()[0].id()))
        } else {
            ascend_path(src, path)
        },
        None => None,
    }
}

/// A depth-first walk over a tree through identity-path handles: the
/// node itself first, then its children in order. Advancing tries the
/// first child, then the next sibling, then the next sibling of each
/// ancestor in turn.
pub struct NestedSegmentIterator<'a> {
    current: Option<NestedSegmentRef<'a>>,
}

impl NestedSegment {
    /// Walk the tree in pre-order, starting at this node.
    pub fn iter(&self) -> (r: NestedSegmentIterator<'_>)
        ensures
            r.current_ref() is Some,
            r.current_ref()->0.source_view() == self@,
            r.current_ref()->0.path_view() == Seq::<u64>::empty(),
    {
        NestedSegmentIterator { current: Some(NestedSegmentRef::new(self, Vec::new())) }
    }
}

impl<'a> NestedSegmentIterator<'a> {
    /// The handle the walk stands on, if it is not exhausted.
    pub closed spec fn current_ref(&self) -> Option<NestedSegmentRef<'a>> {
        self.current
    }

    /// The node the walk stands on, and one step forward: when the
    /// walk stands on a handle that resolves, that node comes back and
    /// the walk moves to its pre-order successor; an exhausted or
    /// broken walk yields nothing and stays exhausted.
    pub fn next(&mut self) -> (r: Option<&'a NestedSegment>)
        ensures
            old(self).current_ref() is None ==> r is None && final(self).current_ref() is None,
            old(self).current_ref() is Some ==> ({
                let walk_src = old(self).current_ref()->0.source_view();
                let walk_path = old(self).current_ref()->0.path_view();
                match resolve_path(walk_src, walk_path) {
                    Some(node) => {
                        &&& r is Some
                        &&& r->0@ == node
                        &&& match successor_path(walk_src, walk_path) {
                            Some(p) => final(self).current_ref() is Some
                                && final(self).current_ref()->0.source_view() == walk_src
                                && final(self).current_ref()->0.path_view() == p,
                            None => final(self).current_ref() is None,
                        }
                    },
                    None => r is None && final(self).current_ref() is None,
                }
            }),
    {
        let here: NestedSegmentRef<'a> = match &self.current {
            Some(c) => c.clone(),
            None => {
                return None;
            },
        };
        let ghost walk_src = here.source_view();
        let ghost walk_path = here.path_view();
        let node: &'a NestedSegment = match here.get() {
            Some(n) => n,
            None => {
                self.current = None;
                return None;
            },
        };
        // advance: first child, else next sibling, else walk upward
        if let Some(c) = here.child() {
            self.current = Some(c);
            return Some(node);
        }
        let mut walk: NestedSegmentRef<'a> = here;
        let mut done: bool = false;
        while !done
            invariant
                !done ==> walk.source_view() == walk_src
                    && ascend_path(walk_src, walk_path) == ascend_path(walk_src, walk.path_view()),
                done ==> (match ascend_path(walk_src, walk_path) {
                    Some(p) => self.current is Some
                        && self.current->0.source_view() == walk_src
                        && self.current->0.path_view() == p,
                    None => self.current is None,
                }),
            decreases 2 * walk.path_view().len() + (if done { 0int } else { 1int }),
        {
            if let Some(s) = walk.next_sibling() {
                proof {
                    assert(sibling_next_path(walk_src, walk.path_view()) == Some(s.path_view()));
                }
                self.current = Some(s);
                done = true;
            } else {
                proof {
                    if walk.path_view().len() > 0 {
                        match resolve_path(walk_src, walk.path_view().drop_last()) {
                            Some(parent) => {
                                lemma_first_child_with_id(parent.children(), walk.path_view().last());
                            },
                            None => {},
                        }
                    }
                    assert(sibling_next_path(walk_src, walk.path_view()) is None);
                }
                match walk.parent() {
                    Some(p) => {
                        walk = p;
                    },
                    None => {
                        self.current = None;
                        done = true;
                    },
                }
            }
        }
        Some(node)
    }
}

} // verus!
