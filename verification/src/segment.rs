use vstd::prelude::*;
use vstd::string::StrSliceExecFns;
use vstd::string::StringExecFns;
use crate::text::all_whitespace;
use crate::text::str_is_whitespace;

verus! {

/// Type name reported for leaves holding unmatched, non-white-space text.
pub const CONTENTS_NAME: &'static str = "contents";

/// Type name reported for leaves holding white-space only.
pub const WHITESPACE_NAME: &'static str = "whitespace";

/// The payload of a matched segment: the rule name, the two tag texts, and
/// the segments the region contains between the tags.
#[derive(Debug, PartialEq, Eq)]
pub struct NestedSegmentCode {
    pub name: String,
    pub open_tag: String,
    pub sub_segments: Vec<NestedSegment>,
    pub close_tag: String,
}

/// One node of the parse result: a matched `Code` region, or a leaf of
/// unmatched text, split into `Contents` and `WhiteSpace` leaves. The
/// first field is the node's identity, used by path references.
#[derive(Debug, PartialEq, Eq)]
pub enum NestedSegment {
    Code(u64, NestedSegmentCode),
    Contents(u64, String),
    WhiteSpace(u64, String),
}

/// The mathematical shape of a segment: the same tree over sequences of
/// characters.
pub ghost enum SegView {
    Code { id: u64, name: Seq<char>, open_tag: Seq<char>, children: Seq<SegView>, close_tag: Seq<char> },
    Contents { id: u64, text: Seq<char> },
    WhiteSpace { id: u64, text: Seq<char> },
}

/// The views of a sequence of segments, in order.
pub open spec fn seg_views(v: Seq<NestedSegment>) -> Seq<SegView>
    decreases v,
{
    if v.len() == 0 {
        Seq::empty()
    } else {
        seq![v[0]@] + seg_views(v.drop_first())
    }
}

/// `seg_views` maps each segment to its view, keeping length and order.
pub broadcast proof fn lemma_seg_views_index(v: Seq<NestedSegment>)
    ensures
        (#[trigger] seg_views(v)).len() == v.len(),
        forall|i: int| #![trigger seg_views(v)[i]] 0 <= i < v.len() ==> seg_views(v)[i] == v[i]@,
    decreases v.len(),
{
    if v.len() == 0 {
        assert(seg_views(v) == Seq::<SegView>::empty());
    } else {
        lemma_seg_views_index(v.drop_first());
        assert(seg_views(v) == seq![v[0]@] + seg_views(v.drop_first()));
        assert(seg_views(v).len() == 1 + seg_views(v.drop_first()).len());
        assert forall|i: int| 0 <= i < v.len() implies seg_views(v)[i] == v[i]@ by {
            if i > 0 {
                assert(seg_views(v)[i] == seg_views(v.drop_first())[i - 1]);
                assert(v.drop_first()[i - 1] == v[i]);
            } else {
                assert(seg_views(v)[0] == v[0]@);
            }
        }
    }
}

impl View for NestedSegment {
    type V = SegView;

    open spec fn view(&self) -> SegView
        decreases self,
    {
        match self {
            NestedSegment::Code(id, code) => (SegView::Code {
                id: *id,
                name: code.name@,
                open_tag: code.open_tag@,
                children: seg_views(code.sub_segments@),
                close_tag: code.close_tag@,
            }),
            NestedSegment::Contents(id, text) => (SegView::Contents { id: *id, text: text@ }),
            NestedSegment::WhiteSpace(id, text) => (SegView::WhiteSpace { id: *id, text: text@ }),
        }
    }
}

impl SegView {
    /// The identity the node carries.
    pub open spec fn id(self) -> u64 {
        match self {
            SegView::Code { id, .. } => id,
            SegView::Contents { id, .. } => id,
            SegView::WhiteSpace { id, .. } => id,
        }
    }

    /// The node's type name: the rule name for a code node, a fixed name
    /// for each kind of leaf.
    pub open spec fn name(self) -> Seq<char> {
        match self {
            SegView::Code { name, .. } => name,
            SegView::Contents { .. } => CONTENTS_NAME@,
            SegView::WhiteSpace { .. } => WHITESPACE_NAME@,
        }
    }

    /// The open tag's text; empty for leaves.
    pub open spec fn open_text(self) -> Seq<char> {
        match self {
            SegView::Code { open_tag, .. } => open_tag,
            _ => Seq::empty(),
        }
    }

    /// The close tag's text; empty for leaves.
    pub open spec fn close_text(self) -> Seq<char> {
        match self {
            SegView::Code { close_tag, .. } => close_tag,
            _ => Seq::empty(),
        }
    }

    /// The node's children; leaves have none.
    pub open spec fn children(self) -> Seq<SegView> {
        match self {
            SegView::Code { children, .. } => children,
            SegView::Contents { .. } => Seq::empty(),
            SegView::WhiteSpace { .. } => Seq::empty(),
        }
    }

    /// The exact text the node spans: open tag, children in order, close
    /// tag for a code node; the leaf text otherwise.
    pub open spec fn text(self) -> Seq<char>
        decreases self,
    {
        match self {
            SegView::Code { open_tag, children, close_tag, .. } => open_tag + Self::texts(children) + close_tag,
            SegView::Contents { text, .. } => text,
            SegView::WhiteSpace { text, .. } => text,
        }
    }

    /// The concatenated texts of a sequence of nodes.
    pub open spec fn texts(cs: Seq<SegView>) -> Seq<char>
        decreases cs,
    {
        if cs.len() == 0 {
            Seq::empty()
        } else {
            cs[0].text() + Self::texts(cs.drop_first())
        }
    }

    /// A node with no text at all: empty tags and no children for a code
    /// node, empty text for a leaf.
    pub open spec fn is_empty(self) -> bool {
        match self {
            SegView::Code { open_tag, children, close_tag, .. } =>
                open_tag.len() == 0 && children.len() == 0 && close_tag.len() == 0,
            SegView::Contents { text, .. } => text.len() == 0,
            SegView::WhiteSpace { text, .. } => text.len() == 0,
        }
    }
}

/// `texts` over one more node appends that node's text.
pub proof fn lemma_texts_take_step(cs: Seq<SegView>, i: int)
    requires
        0 <= i < cs.len(),
    ensures
        SegView::texts(cs.take(i + 1)) == SegView::texts(cs.take(i)) + cs[i].text(),
    decreases i,
{
    if i == 0 {
        reveal_with_fuel(SegView::texts, 2);
        assert(cs.take(1).drop_first() =~= Seq::<SegView>::empty());
        assert(cs.take(0) =~= Seq::<SegView>::empty());
        assert(cs.take(1)[0] == cs[0]);
        assert(SegView::texts(cs.take(1)) == cs[0].text() + SegView::texts(cs.take(1).drop_first()));
        assert(SegView::texts(cs.take(0)) + cs[0].text() =~= cs[0].text() + SegView::texts(cs.take(1).drop_first()));
    } else {
        lemma_texts_take_step(cs.drop_first(), i - 1);
        assert(cs.take(i + 1).drop_first() =~= cs.drop_first().take(i));
        assert(cs.take(i).drop_first() =~= cs.drop_first().take(i - 1));
        assert(cs.take(i + 1)[0] == cs[0]);
        assert(cs.take(i)[0] == cs[0]);
        assert(cs.drop_first()[i - 1] == cs[i]);
        assert(SegView::texts(cs.take(i + 1)) == cs[0].text() + (SegView::texts(cs.drop_first().take(i - 1)) + cs[i].text()));
        assert(cs[0].text() + (SegView::texts(cs.drop_first().take(i - 1)) + cs[i].text())
            =~= (cs[0].text() + SegView::texts(cs.drop_first().take(i - 1))) + cs[i].text());
        assert(SegView::texts(cs.take(i)) == cs[0].text() + SegView::texts(cs.drop_first().take(i - 1)));
    }
}

/// Appending one node appends its text.
pub proof fn lemma_texts_push(cs: Seq<SegView>, x: SegView)
    ensures
        SegView::texts(cs.push(x)) == SegView::texts(cs) + x.text(),
{
    assert(cs.push(x).take(cs.len() as int) =~= cs);
    assert(cs.push(x).take(cs.len() as int + 1) =~= cs.push(x));
    lemma_texts_take_step(cs.push(x), cs.len() as int);
}

/// The views of a pushed list are the pushed views.
pub proof fn lemma_seg_views_push(v: Seq<NestedSegment>, x: NestedSegment)
    ensures
        seg_views(v.push(x)) == seg_views(v).push(x@),
{
    lemma_seg_views_index(v);
    lemma_seg_views_index(v.push(x));
    assert forall|i: int| 0 <= i < v.len() + 1
        implies seg_views(v.push(x))[i] == seg_views(v).push(x@)[i] by {
        assert(seg_views(v.push(x))[i] == v.push(x)[i]@);
        if i < v.len() {
            assert(v.push(x)[i] == v[i]);
        } else {
            assert(v.push(x)[i] == x);
        }
    }
    assert(seg_views(v.push(x)) =~= seg_views(v).push(x@));
}

/// `texts` of a full take equals `texts` of the sequence itself.
pub proof fn lemma_texts_take_all(cs: Seq<SegView>)
    ensures
        SegView::texts(cs.take(cs.len() as int)) == SegView::texts(cs),
{
    assert(cs.take(cs.len() as int) =~= cs);
}

impl NestedSegment {
    /// Create a new code segment with the given rule name, tag texts
    /// and children. It carries no identity of its own (the identity is
    /// zero): for a tree whose nodes identity-path references must
    /// tell apart, build through a `SegmentIdSource`, or let the
    /// parser number its trees in pre-order.
    pub fn new_code(name: &str, open_tag: &str, sub_segments: Vec<NestedSegment>, close_tag: &str) -> (r: NestedSegment)
        ensures
            r@ == (SegView::Code {
                id: 0u64,
                name: name@,
                open_tag: open_tag@,
                children: seg_views(sub_segments@),
                close_tag: close_tag@,
            }),
    {
        NestedSegment::Code(0, NestedSegmentCode {
            name: String::from_str(name),
            open_tag: String::from_str(open_tag),
            sub_segments,
            close_tag: String::from_str(close_tag),
        })
    }

    /// Create a leaf from unmatched text: a `WhiteSpace` leaf when every
    /// character is white-space, a `Contents` leaf otherwise. It
    /// carries no identity of its own (the identity is zero); see
    /// `SegmentIdSource` for leaves that must be told apart by
    /// identity.
    pub fn new_contents(contents: &str) -> (r: NestedSegment)
        ensures
            all_whitespace(contents@) ==> r@ == (SegView::WhiteSpace { id: 0u64, text: contents@ }),
            !all_whitespace(contents@) ==> r@ == (SegView::Contents { id: 0u64, text: contents@ }),
    {
        if str_is_whitespace(contents) {
            NestedSegment::WhiteSpace(0, String::from_str(contents))
        } else {
            NestedSegment::Contents(0, String::from_str(contents))
        }
    }

    /// The identity the node carries.
    pub(crate) fn id_value(&self) -> (r: u64)
        ensures
            r == self@.id(),
    {
        match self {
            NestedSegment::Code(id, _) => *id,
            NestedSegment::Contents(id, _) => *id,
            NestedSegment::WhiteSpace(id, _) => *id,
        }
    }

    /// The node's type name: the rule name for a code node, `contents` or
    /// `whitespace` for the leaves.
    pub fn name(&self) -> (r: &str)
        ensures
            r@ == self@.name(),
    {
        match self {
            NestedSegment::Code(_, code) => code.name.as_str(),
            NestedSegment::Contents(_, _) => CONTENTS_NAME,
            NestedSegment::WhiteSpace(_, _) => WHITESPACE_NAME,
        }
    }

    /// Whether the node is a matched code region.
    pub fn is_code(&self) -> (r: bool)
        ensures
            r == (self@ is Code),
    {
        matches!(self, NestedSegment::Code(_, _))
    }

    /// Whether the node is an unmatched, non-white-space leaf.
    pub fn is_contents(&self) -> (r: bool)
        ensures
            r == (self@ is Contents),
    {
        matches!(self, NestedSegment::Contents(_, _))
    }

    /// Whether the node is a white-space leaf.
    pub fn is_whitespace(&self) -> (r: bool)
        ensures
            r == (self@ is WhiteSpace),
    {
        matches!(self, NestedSegment::WhiteSpace(_, _))
    }

    /// Whether the node holds no text at all.
    pub fn is_empty(&self) -> (r: bool)
        ensures
            r == self@.is_empty(),
    {
        match self {
            NestedSegment::Code(_, code) => {
                proof {
                    lemma_seg_views_index(code.sub_segments@);
                }
                code.open_tag.as_str().is_empty() && code.sub_segments.len() == 0 && code.close_tag.as_str().is_empty()
            },
            NestedSegment::Contents(_, contents) => contents.as_str().is_empty(),
            NestedSegment::WhiteSpace(_, contents) => contents.as_str().is_empty(),
        }
    }

    /// The node's children; empty for leaves.
    pub fn sub_segments(&self) -> (r: &[NestedSegment])
        ensures
            seg_views(r@) == self@.children(),
    {
        match self {
            NestedSegment::Code(_, code) => code.sub_segments.as_slice(),
            _ => {
                let r: &[NestedSegment] = &[];
                proof {
                    assert(seg_views(r@) =~= self@.children());
                }
                r
            },
        }
    }

    /// The exact text the node spans.
    pub fn to_string(&self) -> (r: String)
        ensures
            r@ == self@.text(),
        decreases self,
    {
        match self {
            NestedSegment::Code(_, code) => {
                let mut out: String = String::from_str(code.open_tag.as_str());
                let mut i: usize = 0;
                proof {
                    assert(SegView::texts(self@.children().take(0)) =~= Seq::<char>::empty());
                    assert(out@ =~= code.open_tag@ + SegView::texts(self@.children().take(0)));
                }
                while i < code.sub_segments.len()
                    invariant
                        i <= code.sub_segments.len(),
                        self@.children() == seg_views(code.sub_segments@),
                        out@ == code.open_tag@ + SegView::texts(self@.children().take(i as int)),
                        decreases_to!(self => code.sub_segments@),
                    decreases code.sub_segments.len() - i,
                {
                    proof {
                        assert(decreases_to!(code.sub_segments@ => code.sub_segments@[i as int]));
                    }
                    let piece: String = code.sub_segments[i].to_string();
                    out.append(piece.as_str());
                    proof {
                        lemma_seg_views_index(code.sub_segments@);
                        assert(self@.children()[i as int] == code.sub_segments@[i as int]@);
                        lemma_texts_take_step(self@.children(), i as int);
                        assert((code.open_tag@ + SegView::texts(self@.children().take(i as int))) + piece@
                            =~= code.open_tag@ + SegView::texts(self@.children().take(i + 1)));
                    }
                    i += 1;
                }
                out.append(code.close_tag.as_str());
                proof {
                    lemma_seg_views_index(code.sub_segments@);
                    lemma_texts_take_all(self@.children());
                    assert((code.open_tag@ + SegView::texts(self@.children())) + code.close_tag@
                        =~= self@.text());
                }
                out
            },
            NestedSegment::Contents(_, contents) => String::from_str(contents.as_str()),
            NestedSegment::WhiteSpace(_, contents) => String::from_str(contents.as_str()),
        }
    }

    /// A deep copy of the node, equal to it in every part.
    fn deep_clone(&self) -> (r: NestedSegment)
        ensures
            r@ == self@,
        decreases self,
    {
        match self {
            NestedSegment::Code(id, code) => {
                let mut copies: Vec<NestedSegment> = Vec::new();
                let mut i: usize = 0;
                while i < code.sub_segments.len()
                    invariant
                        i <= code.sub_segments.len(),
                        copies@.len() == i,
                        forall|k: int| 0 <= k < i ==> (#[trigger] copies@[k])@ == code.sub_segments@[k]@,
                        decreases_to!(self => code.sub_segments@),
                    decreases code.sub_segments.len() - i,
                {
                    proof {
                        assert(decreases_to!(code.sub_segments@ => code.sub_segments@[i as int]));
                    }
                    let copy: NestedSegment = code.sub_segments[i].deep_clone();
                    copies.push(copy);
                    i += 1;
                }
                let r: NestedSegment = NestedSegment::Code(*id, NestedSegmentCode {
                    name: code.name.clone(),
                    open_tag: code.open_tag.clone(),
                    sub_segments: copies,
                    close_tag: code.close_tag.clone(),
                });
                proof {
                    lemma_seg_views_index(copies@);
                    lemma_seg_views_index(code.sub_segments@);
                    assert forall|k: int| 0 <= k < code.sub_segments@.len()
                        implies r@.children()[k] == seg_views(code.sub_segments@)[k] by {
                        assert(r@.children()[k] == copies@[k]@);
                    }
                    assert(r@.children() =~= self@.children());
                }
                r
            },
            NestedSegment::Contents(id, text) => NestedSegment::Contents(*id, text.clone()),
            NestedSegment::WhiteSpace(id, text) => NestedSegment::WhiteSpace(*id, text.clone()),
        }
    }

    /// The concatenated text of the node's children alone, without the
    /// node's own tags.
    pub fn sub_contents_to_string(&self) -> (r: String)
        ensures
            r@ == SegView::texts(self@.children()),
    {
        match self {
            NestedSegment::Code(_, code) => {
                let mut out: String = String::new();
                let mut i: usize = 0;
                proof {
                    assert(SegView::texts(self@.children().take(0)) =~= Seq::<char>::empty());
                    assert(out@ =~= SegView::texts(self@.children().take(0)));
                }
                while i < code.sub_segments.len()
                    invariant
                        i <= code.sub_segments.len(),
                        self@.children() == seg_views(code.sub_segments@),
                        out@ == SegView::texts(self@.children().take(i as int)),
                    decreases code.sub_segments.len() - i,
                {
                    let piece: String = code.sub_segments[i].to_string();
                    out.append(piece.as_str());
                    proof {
                        lemma_seg_views_index(code.sub_segments@);
                        assert(self@.children()[i as int] == code.sub_segments@[i as int]@);
                        lemma_texts_take_step(self@.children(), i as int);
                        assert(SegView::texts(self@.children().take(i as int)) + piece@
                            =~= SegView::texts(self@.children().take(i + 1)));
                    }
                    i += 1;
                }
                proof {
                    lemma_seg_views_index(code.sub_segments@);
                    lemma_texts_take_all(self@.children());
                }
                out
            },
            _ => {
                let out: String = String::new();
                proof {
                    assert(SegView::texts(self@.children()) =~= Seq::<char>::empty());
                }
                out
            },
        }
    }
}

/// A caller-owned source of segment identities: every segment built
/// through one source carries a fresh identity, strictly above every
/// identity the source handed out before. Hand one source to all
/// construction of a tree and its nodes' identities are pairwise
/// distinct, which is what identity-path references resolve by. The
/// parser numbers its own trees; the bare constructors `new_code` and
/// `new_contents` assign no identity at all.
pub struct SegmentIdSource {
    next: u64,
}

impl SegmentIdSource {
    /// The identity the next built segment will carry.
    pub closed spec fn upcoming(&self) -> u64 {
        self.next
    }

    /// A source starting at the given identity: zero for a fresh tree,
    /// or any bound above an existing tree's identities to extend it.
    pub fn starting_at(first: u64) -> (r: SegmentIdSource)
        ensures
            r.upcoming() == first,
    {
        SegmentIdSource { next: first }
    }

    /// Build a code segment carrying the next identity.
    pub fn code(&mut self, name: &str, open_tag: &str, sub_segments: Vec<NestedSegment>, close_tag: &str) -> (r: NestedSegment)
        requires
            old(self).upcoming() < u64::MAX,
        ensures
            final(self).upcoming() == old(self).upcoming() + 1,
            r@ == (SegView::Code {
                id: old(self).upcoming(),
                name: name@,
                open_tag: open_tag@,
                children: seg_views(sub_segments@),
                close_tag: close_tag@,
            }),
    {
        let id: u64 = self.next;
        self.next = self.next + 1;
        NestedSegment::Code(id, NestedSegmentCode {
            name: String::from_str(name),
            open_tag: String::from_str(open_tag),
            sub_segments,
            close_tag: String::from_str(close_tag),
        })
    }

    /// Build a leaf carrying the next identity: a `WhiteSpace` leaf
    /// when every character is white-space, a `Contents` leaf
    /// otherwise.
    pub fn contents(&mut self, text: &str) -> (r: NestedSegment)
        requires
            old(self).upcoming() < u64::MAX,
        ensures
            final(self).upcoming() == old(self).upcoming() + 1,
            all_whitespace(text@) ==> r@ == (SegView::WhiteSpace { id: old(self).upcoming(), text: text@ }),
            !all_whitespace(text@) ==> r@ == (SegView::Contents { id: old(self).upcoming(), text: text@ }),
    {
        let id: u64 = self.next;
        self.next = self.next + 1;
        if str_is_whitespace(text) {
            NestedSegment::WhiteSpace(id, String::from_str(text))
        } else {
            NestedSegment::Contents(id, String::from_str(text))
        }
    }
}

impl Clone for NestedSegment {
    /// A deep copy: the clone's view equals the view of the value it copies.
    fn clone(&self) -> (res: Self)
        ensures
            res@ == self@,
    {
        self.deep_clone()
    }
}

} // verus!
