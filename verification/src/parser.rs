use vstd::prelude::*;
use vstd::string::StrSliceExecFns;
use vstd::string::StringExecFns;
use crate::matcher::ConfigError;
use crate::matcher::RuleView;
use crate::matcher::SegmentIdentification;
use crate::matcher::method_match_at;
use crate::segment::NestedSegment;
use crate::segment::NestedSegmentCode;
use crate::segment::SegView;
use crate::segment::seg_views;
use crate::segment::lemma_seg_views_push;
use crate::segment::lemma_texts_push;
use crate::flatten::flat_entries;
use crate::flatten::flat_entries_seq;
use crate::flatten::ids_consecutive;
use crate::flatten::lemma_flat_seq_push;
use crate::flatten::lemma_flat_seq_nodes_ignore_depth;
use crate::text::all_whitespace;

verus! {

/// Type name of the synthetic root segment wrapping all top-level
/// children of a parse.
pub const ROOT_NAME: &'static str = "ROOT";

/// A scan-time failure: an opened rule never found its close tag before
/// the end of the input. Carries the rule's name and the 1-based line
/// and column of its opening tag.
#[derive(Clone, Debug, PartialEq, Eq)]
pub struct ParseError {
    pub rule_name: String,
    pub line: usize,
    pub column: usize,
}

/// Whether `c` ends a line.
pub open spec fn is_line_break(c: char) -> bool {
    c == '\n' || c == '\r'
}

/// How many line breaks lie before `pos`.
pub open spec fn line_breaks_before(text: Seq<char>, pos: int) -> nat
    decreases pos,
{
    if pos <= 0 || pos > text.len() {
        0
    } else {
        (if is_line_break(text[pos - 1]) {
            1nat
        } else {
            0nat
        }) + line_breaks_before(text, pos - 1)
    }
}

/// The position just after the last line break before `pos`: where the
/// line holding `pos` begins.
pub open spec fn line_start_before(text: Seq<char>, pos: int) -> int
    decreases pos,
{
    if pos <= 0 || pos > text.len() {
        0
    } else if is_line_break(text[pos - 1]) {
        pos
    } else {
        line_start_before(text, pos - 1)
    }
}

/// The 1-based line number of `pos`.
pub open spec fn line_number_at(text: Seq<char>, pos: int) -> nat {
    1 + line_breaks_before(text, pos)
}

/// The 1-based column of `pos` within its line.
pub open spec fn column_number_at(text: Seq<char>, pos: int) -> int {
    pos - line_start_before(text, pos) + 1
}

/// The line start never lies past `pos`.
pub proof fn lemma_line_start_bound(text: Seq<char>, pos: int)
    requires
        0 <= pos <= text.len(),
    ensures
        0 <= line_start_before(text, pos) <= pos,
    decreases pos,
{
    if 0 < pos && !is_line_break(text[pos - 1]) {
        lemma_line_start_bound(text, pos - 1);
    }
}

/// The configuration of one scan: the rules in priority order and the
/// engine-wide options.
pub ghost struct ParserView {
    pub rules: Seq<RuleView>,
    pub ws_mode: bool,
    pub suppress_ws: bool,
    pub strict: bool,
}

/// No two rules carry one name.
pub open spec fn rule_names_distinct(rules: Seq<RuleView>) -> bool {
    forall|a: int, b: int| 0 <= a < b < rules.len()
        ==> (#[trigger] rules[a]).name != (#[trigger] rules[b]).name
}

/// Every rule's matchers are functions of the text alone: no predicate
/// matchers among them.
pub open spec fn rules_determinate(rules: Seq<RuleView>) -> bool {
    forall|i: int| 0 <= i < rules.len() ==> (#[trigger] rules[i]).is_determinate()
}

/// The first rule, in declaration order from `i` on, whose open matcher
/// matches at `pos` consuming at least one character; with its length.
pub open spec fn first_open_match(rules: Seq<RuleView>, ws: bool, text: Seq<char>, pos: int, i: int) -> Option<(int, nat)>
    decreases rules.len() - i,
{
    if i < 0 || i >= rules.len() {
        None
    } else {
        let m = method_match_at(rules[i].open, ws, text, pos);
        if m is Some && m->0 >= 1 {
            Some((i, m->0))
        } else {
            first_open_match(rules, ws, text, pos, i + 1)
        }
    }
}

/// The winning open match at `pos`: the first rule in declaration order
/// whose open matcher consumes at least one character there.
pub open spec fn open_match(pv: ParserView, text: Seq<char>, pos: int) -> Option<(int, nat)> {
    first_open_match(pv.rules, pv.ws_mode, text, pos, 0)
}

/// Whether the frame's region is itself scanned for nested rules: the
/// root always is, a nested frame when its rule allows it.
pub open spec fn frame_allows(frame: Option<RuleView>) -> bool {
    match frame {
        None => true,
        Some(r) => r.allow_sub_parse,
    }
}

/// The frame's close match at `pos`; the root frame has no close.
pub open spec fn frame_close_match(pv: ParserView, frame: Option<RuleView>, text: Seq<char>, pos: int) -> Option<nat> {
    match frame {
        None => None,
        Some(r) => method_match_at(r.close, pv.ws_mode, text, pos),
    }
}

/// A position the scan walks over: the frame's close does not match
/// there, and no rule opens there (where sub-parsing is allowed at all).
pub open spec fn dead_at(pv: ParserView, frame: Option<RuleView>, text: Seq<char>, pos: int) -> bool {
    &&& frame_close_match(pv, frame, text, pos) is None
    &&& (frame_allows(frame) ==> open_match(pv, text, pos) is None)
}

/// Every position in `[from, to)` is walked over.
pub open spec fn span_dead(pv: ParserView, frame: Option<RuleView>, text: Seq<char>, from: int, to: int) -> bool {
    forall|p: int| from <= p < to ==> dead_at(pv, frame, text, p)
}

/// A leaf emitted from the unmatched run `[from, to)`: non-empty, the
/// exact slice of the text, classified by white-space, not suppressed,
/// and with nothing matching inside it.
pub open spec fn leaf_ok(pv: ParserView, frame: Option<RuleView>, text: Seq<char>, from: int, leaf: SegView, to: int) -> bool {
    &&& 0 <= from < to <= text.len()
    &&& !(leaf is Code)
    &&& leaf.text() == text.subrange(from, to)
    &&& ((leaf is WhiteSpace) <==> all_whitespace(text.subrange(from, to)))
    &&& !(pv.suppress_ws && all_whitespace(text.subrange(from, to)))
    &&& span_dead(pv, frame, text, from, to)
}

/// A run the scan walked over without emitting a leaf: empty, or a
/// white-space run dropped because white-space leaves are suppressed.
pub open spec fn gap_ok(pv: ParserView, frame: Option<RuleView>, text: Seq<char>, from: int, to: int) -> bool {
    ||| from == to
    ||| (pv.suppress_ws && 0 <= from < to <= text.len() && all_whitespace(text.subrange(from, to))
        && span_dead(pv, frame, text, from, to))
}

/// The children a frame of the scan has accumulated so far: they cover
/// `[from, up)` exactly, where `up` is where the pending unmatched run
/// begins. Leaves touch their successors; a gap can only stand before a
/// code child, and never right after a leaf, because one unmatched run
/// is flushed as a whole.
pub open spec fn children_upto(pv: ParserView, frame: Option<RuleView>, text: Seq<char>, from: int, cs: Seq<SegView>, up: int) -> bool
    decreases cs,
{
    if cs.len() == 0 {
        up == from
    } else {
        let c = cs.last();
        if c is Code {
            exists|prev: int, s0: int| {
                &&& children_upto(pv, frame, text, from, cs.drop_last(), prev)
                &&& #[trigger] gap_ok(pv, frame, text, prev, s0)
                &&& (prev != s0 ==> (cs.drop_last().len() == 0 || cs.drop_last().last() is Code))
                &&& frame_close_match(pv, frame, text, s0) is None
                &&& frame_allows(frame)
                &&& code_ok(pv, text, s0, c, up)
            }
        } else {
            exists|prev: int| {
                &&& children_upto(pv, frame, text, from, cs.drop_last(), prev)
                &&& (cs.drop_last().len() == 0 || cs.drop_last().last() is Code)
                &&& #[trigger] leaf_ok(pv, frame, text, prev, c, up)
            }
        }
    }
}

/// A code node covering `[start, end)`: the first matching rule opened
/// at `start`, its frame's children follow, and the frame ended on a
/// close match or, leniently, at the end of the input with an empty
/// close tag.
pub open spec fn code_ok(pv: ParserView, text: Seq<char>, start: int, c: SegView, end: int) -> bool
    decreases c,
{
    match c {
        SegView::Code { name, open_tag, children, close_tag, .. } => {
            let om = open_match(pv, text, start);
            &&& om is Some
            &&& {
                let pair = om->0;
                let i = pair.0;
                let olen = pair.1 as int;
                &&& 0 <= i < pv.rules.len()
                &&& name == pv.rules[i].name
                &&& 0 <= start
                &&& start + olen <= text.len()
                &&& open_tag == text.subrange(start, start + olen)
                &&& exists|up: int, cstop: int| {
                    &&& children_upto(pv, Some(pv.rules[i]), text, start + olen, children, up)
                    &&& #[trigger] gap_ok(pv, Some(pv.rules[i]), text, up, cstop)
                    &&& (up != cstop ==> (children.len() == 0 || children.last() is Code))
                    &&& start + olen <= up <= cstop <= text.len()
                    &&& if cstop < text.len() && frame_close_match(pv, Some(pv.rules[i]), text, cstop) is Some {
                        let cl = frame_close_match(pv, Some(pv.rules[i]), text, cstop)->0 as int;
                        &&& close_tag == text.subrange(cstop, cstop + cl)
                        &&& cstop + cl <= text.len()
                        &&& end == cstop + cl
                    } else {
                        &&& cstop == text.len()
                        &&& !pv.strict
                        &&& close_tag.len() == 0
                        &&& end == cstop
                    }
                }
            }
        },
        _ => false,
    }
}

/// A complete scan: the root is a synthetic code node with empty tags
/// wrapping the top-level children, which cover the whole input.
pub open spec fn root_ok(pv: ParserView, text: Seq<char>, root: SegView) -> bool {
    match root {
        SegView::Code { name, open_tag, children, close_tag, .. } => {
            &&& name == ROOT_NAME@
            &&& open_tag.len() == 0
            &&& close_tag.len() == 0
            &&& exists|up: int| {
                &&& children_upto(pv, None, text, 0, children, up)
                &&& #[trigger] gap_ok(pv, None, text, up, text.len() as int)
                &&& (up != text.len() ==> (children.len() == 0 || children.last() is Code))
            }
        },
        _ => false,
    }
}

/// The nested-segment scanner: a list of rules in priority order and
/// the engine-wide options. Built once, then applied to any number of
/// texts.
pub struct NestedCodeParser {
    identification: Vec<SegmentIdentification>,
    ignore_white_space_segments: bool,
    match_any_white_space: bool,
    error_on_unterminated: bool,
}

impl View for NestedCodeParser {
    type V = ParserView;

    closed spec fn view(&self) -> ParserView {
        match self {
            NestedCodeParser { identification, ignore_white_space_segments, match_any_white_space, error_on_unterminated } => (ParserView {
                rules: rule_views(identification@),
                ws_mode: *match_any_white_space,
                suppress_ws: *ignore_white_space_segments,
                strict: *error_on_unterminated,
            }),
        }
    }
}

impl NestedCodeParser {
    /// Create a parser over the given rules, which keep their order:
    /// the first rule whose open matcher matches wins. All options
    /// start switched off: exact matching, white-space leaves kept,
    /// unterminated segments closed at the end of the input.
    pub fn new(identification: Vec<SegmentIdentification>) -> (r: NestedCodeParser)
        ensures
            r@ == (ParserView {
                rules: rule_views(identification@),
                ws_mode: false,
                suppress_ws: false,
                strict: false,
            }),
    {
        NestedCodeParser {
            identification,
            ignore_white_space_segments: false,
            match_any_white_space: false,
            error_on_unterminated: false,
        }
    }

    /// Create a parser as `new` does, but enforce the stricter
    /// configuration rule that every rule name be unique: two rules
    /// carrying one name are a configuration error. `new` itself keeps
    /// them, resolved by priority, for rule sets that layer several
    /// styles of one kind of segment under one name.
    pub fn new_checked(identification: Vec<SegmentIdentification>) -> (r: Result<NestedCodeParser, ConfigError>)
        ensures
            r is Ok <==> rule_names_distinct(rule_views(identification@)),
            !rule_names_distinct(rule_views(identification@))
                ==> r == Result::<NestedCodeParser, ConfigError>::Err(ConfigError::DuplicateName),
            r is Ok ==> r->Ok_0@ == (ParserView {
                rules: rule_views(identification@),
                ws_mode: false,
                suppress_ws: false,
                strict: false,
            }),
    {
        proof {
            lemma_rule_views_index(identification@);
        }
        let ghost rules = rule_views(identification@);
        let n: usize = identification.len();
        let mut i: usize = 0;
        while i < n
            invariant
                i <= n,
                n == identification@.len(),
                rules == rule_views(identification@),
                rules.len() == n,
                forall|k: int| 0 <= k < n ==> (#[trigger] rules[k]) == identification@[k]@,
                forall|a: int, b: int| 0 <= a < b < n && a < i ==> (#[trigger] rules[a]).name != (#[trigger] rules[b]).name,
            decreases n - i,
        {
            let name_i: String = String::from_str(identification[i].name());
            let mut j: usize = i + 1;
            while j < n
                invariant
                    i < j <= n,
                    i < n,
                    n == identification@.len(),
                    rules == rule_views(identification@),
                    rules.len() == n,
                    forall|k: int| 0 <= k < n ==> (#[trigger] rules[k]) == identification@[k]@,
                    name_i@ == rules[i as int].name,
                    forall|b: int| i < b < j ==> (#[trigger] rules[b]).name != rules[i as int].name,
                decreases n - j,
            {
                let name_j: String = String::from_str(identification[j].name());
                if name_i.eq(&name_j) {
                    proof {
                        assert(rules[j as int] == identification@[j as int]@);
                        assert(rules[i as int].name == rules[j as int].name);
                        assert(!rule_names_distinct(rules));
                    }
                    return Err(ConfigError::DuplicateName);
                }
                j += 1;
            }
            i += 1;
        }
        Ok(NestedCodeParser {
            identification,
            ignore_white_space_segments: false,
            match_any_white_space: false,
            error_on_unterminated: false,
        })
    }

    /// A version of this parser that drops leaves holding white-space
    /// alone.
    pub fn ignore_white_space_segments(self) -> (r: NestedCodeParser)
        ensures
            r@ == (ParserView { suppress_ws: true, ..self@ }),
    {
        let mut p: NestedCodeParser = self;
        p.ignore_white_space_segments = true;
        p
    }

    /// A version of this parser whose literal matchers treat any run of
    /// white-space in a tag as interchangeable with any non-empty run
    /// of white-space in the text.
    pub fn match_any_white_space(self) -> (r: NestedCodeParser)
        ensures
            r@ == (ParserView { ws_mode: true, ..self@ }),
    {
        let mut p: NestedCodeParser = self;
        p.match_any_white_space = true;
        p
    }

    /// A version of this parser that reports an unterminated segment as
    /// an error instead of closing it at the end of the input.
    pub fn fail_on_unterminated(self) -> (r: NestedCodeParser)
        ensures
            r@ == (ParserView { strict: true, ..self@ }),
    {
        let mut p: NestedCodeParser = self;
        p.error_on_unterminated = true;
        p
    }

    /// Scan `contents` once, producing the root segment wrapping every
    /// top-level match. With white-space leaves kept, the tree's text
    /// is exactly `contents`; with only determinate matchers the whole
    /// tree is exactly the scan the rules describe. Scanning fails only
    /// in strict mode, naming the unterminated rule and the line and
    /// column of its opening tag.
    pub fn parse(&self, contents: &str) -> (r: Result<NestedSegment, ParseError>)
        requires
            contents@.len() + 1 <= u64::MAX,
        ensures
            !self@.strict ==> r is Ok,
            r is Ok ==> r->Ok_0@ is Code,
            r is Ok ==> r->Ok_0@.name() == ROOT_NAME@,
            r is Ok ==> r->Ok_0@.open_text().len() == 0 && r->Ok_0@.close_text().len() == 0,
            r is Ok && !self@.suppress_ws ==> r->Ok_0@.text() == contents@,
            r is Ok && rules_determinate(self@.rules) ==> root_ok(self@, contents@, r->Ok_0@),
            r is Ok ==> ids_consecutive(flat_entries(r->Ok_0@, 0), 0),
            r is Err ==> self@.strict && err_witness(self@, contents@, r->Err_0),
    {
        let fs: FrameScan = match self.scan_children(contents, 0, None, 1) {
            Ok(f) => f,
            Err(e) => {
                return Err(e);
            },
        };
        let ghost cviews = seg_views(fs.children@);
        let ghost stop0 = fs.stop as int;
        let root: NestedSegment = NestedSegment::Code(0, NestedSegmentCode {
            name: String::from_str(ROOT_NAME),
            open_tag: String::new(),
            sub_segments: fs.children,
            close_tag: String::new(),
        });
        proof {
            assert(root@.children() == cviews);
            lemma_ids_wrap(root@, 1u64);
            if !self@.suppress_ws {
                assert(SegView::texts(cviews) == contents@.subrange(0, stop0));
                assert(contents@.subrange(0, contents@.len() as int) =~= contents@);
                assert(Seq::<char>::empty() + SegView::texts(cviews) + Seq::<char>::empty()
                    =~= SegView::texts(cviews));
            }
        }
        Ok(root)
    }
}


/// The views of a rule list, in order.
pub open spec fn rule_views(v: Seq<SegmentIdentification>) -> Seq<RuleView>
    decreases v,
{
    if v.len() == 0 {
        Seq::empty()
    } else {
        seq![v[0]@] + rule_views(v.drop_first())
    }
}

/// `rule_views` maps each rule to its view, keeping length and order.
pub proof fn lemma_rule_views_index(v: Seq<SegmentIdentification>)
    ensures
        rule_views(v).len() == v.len(),
        forall|i: int| #![trigger rule_views(v)[i]] 0 <= i < v.len() ==> rule_views(v)[i] == v[i]@,
    decreases v.len(),
{
    if v.len() == 0 {
        assert(rule_views(v) == Seq::<RuleView>::empty());
    } else {
        lemma_rule_views_index(v.drop_first());
        assert(rule_views(v) == seq![v[0]@] + rule_views(v.drop_first()));
        assert forall|i: int| 0 <= i < v.len() implies rule_views(v)[i] == v[i]@ by {
            if i > 0 {
                assert(rule_views(v)[i] == rule_views(v.drop_first())[i - 1]);
                assert(v.drop_first()[i - 1] == v[i]);
            } else {
                assert(rule_views(v)[0] == v[0]@);
            }
        }
    }
}

/// What a scan failure reports: the name of one of the rules, and the
/// line and column of a position in the text. With only determinate
/// matchers, that very rule's open matcher won the match at that
/// position, and the frame it opened ran to the end of the input:
/// its children cover the text from past the open tag, and what
/// remains after them is a walked-over run reaching the end, never a
/// close match.
pub open spec fn err_witness(pv: ParserView, text: Seq<char>, e: ParseError) -> bool {
    exists|i: int, p: int| {
        &&& 0 <= i < pv.rules.len()
        &&& (#[trigger] pv.rules[i]).name == e.rule_name@
        &&& 0 <= p <= text.len()
        &&& e.line as nat == line_number_at(text, p)
        &&& e.column as int == #[trigger] column_number_at(text, p)
        &&& (rules_determinate(pv.rules) ==> open_match(pv, text, p) is Some
            && ({
                let winner = open_match(pv, text, p)->0;
                &&& winner.0 == i
                &&& exists|kids: Seq<SegView>, up: int| {
                    &&& #[trigger] children_upto(pv, Some(pv.rules[i]), text, p + winner.1, kids, up)
                    &&& gap_ok(pv, Some(pv.rules[i]), text, up, text.len() as int)
                }
            }))
    }
}

/// The frame's rule view, from its index into the rule list.
pub open spec fn frame_view(pv: ParserView, frame: Option<usize>) -> Option<RuleView> {
    match frame {
        None => None,
        Some(i) => Some(pv.rules[i as int]),
    }
}

/// When no rule before `k` opens at `pos`, the search may as well start
/// at `k`.
proof fn lemma_first_open_prefix(rules: Seq<RuleView>, ws: bool, text: Seq<char>, pos: int, k: int)
    requires
        0 <= k <= rules.len(),
        forall|r: int| 0 <= r < k ==> !({
            let m = method_match_at((#[trigger] rules[r]).open, ws, text, pos);
            m is Some && m->0 >= 1
        }),
    ensures
        first_open_match(rules, ws, text, pos, 0) == first_open_match(rules, ws, text, pos, k),
    decreases k,
{
    if k > 0 {
        lemma_first_open_prefix(rules, ws, text, pos, k - 1);
        assert(first_open_match(rules, ws, text, pos, k - 1) == first_open_match(rules, ws, text, pos, k));
    }
}

/// The priority tie-break law: when the open matchers of two rules
/// both match at the same position, consuming at least one character
/// each, the winning open match never belongs to the later rule: it
/// falls on the first matching rule in declaration order, whatever the
/// text.
pub proof fn lemma_priority_tie_break(pv: ParserView, text: Seq<char>, pos: int, i: int, j: int)
    requires
        0 <= i < j < pv.rules.len(),
        ({
            let m = method_match_at(pv.rules[i].open, pv.ws_mode, text, pos);
            m is Some && m->0 >= 1
        }),
        ({
            let m = method_match_at(pv.rules[j].open, pv.ws_mode, text, pos);
            m is Some && m->0 >= 1
        }),
    ensures
        open_match(pv, text, pos) is Some,
        ({
            let winner = open_match(pv, text, pos)->0;
            winner.0 <= i && winner.0 != j
        }),
{
    lemma_first_open_hits(pv.rules, pv.ws_mode, text, pos, 0, i);
}

/// A matching rule at or after `k` guarantees a winner at or before it.
proof fn lemma_first_open_hits(rules: Seq<RuleView>, ws: bool, text: Seq<char>, pos: int, k: int, i: int)
    requires
        0 <= k <= i < rules.len(),
        ({
            let m = method_match_at(rules[i].open, ws, text, pos);
            m is Some && m->0 >= 1
        }),
    ensures
        first_open_match(rules, ws, text, pos, k) is Some,
        ({
            let winner = first_open_match(rules, ws, text, pos, k)->0;
            winner.0 <= i
        }),
    decreases i - k,
{
    let m = method_match_at(rules[k].open, ws, text, pos);
    if !(m is Some && m->0 >= 1) {
        lemma_first_open_hits(rules, ws, text, pos, k + 1, i);
    }
}

/// The 1-based line and column of `pos`, counting `\n` and `\r` as line
/// breaks.
fn line_col_at(text: &str, pos: usize) -> (r: (usize, usize))
    requires
        pos < text@.len(),
    ensures
        r.0 as nat == line_number_at(text@, pos as int),
        r.1 as int == column_number_at(text@, pos as int),
{
    let text_len: usize = text.unicode_len();
    let mut i: usize = 0;
    let mut breaks: usize = 0;
    let mut line_start: usize = 0;
    while i < pos
        invariant
            text_len == text@.len(),
            i <= pos < text_len,
            breaks <= i,
            breaks as nat == line_breaks_before(text@, i as int),
            line_start as int == line_start_before(text@, i as int),
            line_start <= i,
        decreases pos - i,
    {
        let c: char = text.get_char(i);
        if c == '\n' || c == '\r' {
            breaks += 1;
            line_start = i + 1;
        }
        i += 1;
    }
    (breaks + 1, pos - line_start + 1)
}

/// A frame that has accumulated `cs0` up to `from` takes an emitted
/// leaf covering `[from, to)` as its next child.
proof fn lemma_children_append_leaf(pv: ParserView, fv: Option<RuleView>, text: Seq<char>, start: int, cs0: Seq<SegView>, leaf: SegView, from: int, to: int)
    requires
        children_upto(pv, fv, text, start, cs0, from),
        cs0.len() == 0 || cs0.last() is Code,
        leaf_ok(pv, fv, text, from, leaf, to),
    ensures
        children_upto(pv, fv, text, start, cs0.push(leaf), to),
{
    reveal_with_fuel(children_upto, 2);
    let cs = cs0.push(leaf);
    assert(cs.drop_last() =~= cs0);
    assert(cs.last() == leaf);
    assert(children_upto(pv, fv, text, start, cs.drop_last(), from));
    assert(cs.drop_last().len() == 0 || cs.drop_last().last() is Code);
    assert(leaf_ok(pv, fv, text, from, cs.last(), to));
    assert(cs.len() > 0 && !(cs.last() is Code));
}

/// A frame that has accumulated `cs0` up to `prev` takes a code child
/// opened at `s0` as its next child, over an empty or suppressed gap.
proof fn lemma_children_append_code(pv: ParserView, fv: Option<RuleView>, text: Seq<char>, start: int, cs0: Seq<SegView>, node: SegView, prev: int, s0: int, end: int)
    requires
        children_upto(pv, fv, text, start, cs0, prev),
        gap_ok(pv, fv, text, prev, s0),
        prev != s0 ==> (cs0.len() == 0 || cs0.last() is Code),
        frame_close_match(pv, fv, text, s0) is None,
        frame_allows(fv),
        code_ok(pv, text, s0, node, end),
    ensures
        children_upto(pv, fv, text, start, cs0.push(node), end),
{
    reveal_with_fuel(children_upto, 2);
    let cs = cs0.push(node);
    assert(cs.drop_last() =~= cs0);
    assert(cs.last() == node);
    assert(node is Code);
    assert(children_upto(pv, fv, text, start, cs.drop_last(), prev));
    assert(cs.drop_last().len() == 0 || cs.drop_last().last() is Code || prev == s0);
    assert(code_ok(pv, text, s0, cs.last(), end));
    assert(gap_ok(pv, fv, text, prev, s0));
}

/// Appending a leaf carrying the next identity keeps the numbering
/// consecutive.
proof fn lemma_ids_push_leaf(cs0: Seq<SegView>, leaf: SegView, base: u64)
    requires
        ids_consecutive(flat_entries_seq(cs0, 0), base),
        !(leaf is Code),
        leaf.id() == base + flat_entries_seq(cs0, 0).len(),
    ensures
        ids_consecutive(flat_entries_seq(cs0.push(leaf), 0), base),
        flat_entries_seq(cs0.push(leaf), 0).len() == flat_entries_seq(cs0, 0).len() + 1,
{
    lemma_flat_seq_push(cs0, leaf, 0);
    assert(flat_entries(leaf, 0) =~= seq![(0nat, leaf)]);
    let es = flat_entries_seq(cs0.push(leaf), 0);
    let base_len = flat_entries_seq(cs0, 0).len() as int;
    assert forall|i: int| 0 <= i < es.len() implies (#[trigger] es[i]).1.id() == base + i by {
        if i < base_len {
            assert(es[i] == flat_entries_seq(cs0, 0)[i]);
        } else {
            assert(es[i] == flat_entries(leaf, 0)[i - base_len]);
        }
    }
}

/// Appending a code child whose subtree carries the next identities
/// keeps the numbering consecutive.
proof fn lemma_ids_push_code(cs0: Seq<SegView>, node: SegView, base: u64, node_base: u64)
    requires
        ids_consecutive(flat_entries_seq(cs0, 0), base),
        node_base == base + flat_entries_seq(cs0, 0).len(),
        ids_consecutive(flat_entries(node, 0), node_base),
    ensures
        ids_consecutive(flat_entries_seq(cs0.push(node), 0), base),
        flat_entries_seq(cs0.push(node), 0).len()
            == flat_entries_seq(cs0, 0).len() + flat_entries(node, 0).len(),
{
    lemma_flat_seq_push(cs0, node, 0);
    let es = flat_entries_seq(cs0.push(node), 0);
    let base_len = flat_entries_seq(cs0, 0).len() as int;
    assert forall|i: int| 0 <= i < es.len() implies (#[trigger] es[i]).1.id() == base + i by {
        if i < base_len {
            assert(es[i] == flat_entries_seq(cs0, 0)[i]);
        } else {
            assert(es[i] == flat_entries(node, 0)[i - base_len]);
        }
    }
}

/// A code node carrying one identity below its consecutively numbered
/// children heads a consecutively numbered flat list.
proof fn lemma_ids_wrap(node: SegView, inner_base: u64)
    requires
        node is Code,
        node.id() + 1 == inner_base,
        ids_consecutive(flat_entries_seq(node.children(), 0), inner_base),
    ensures
        ids_consecutive(flat_entries(node, 0), node.id()),
        flat_entries(node, 0).len() == 1 + flat_entries_seq(node.children(), 0).len(),
{
    match node {
        SegView::Code { children, .. } => {
            lemma_flat_seq_nodes_ignore_depth(children, 0);
            let es = flat_entries(node, 0);
            assert(es == seq![(0nat, node.strip())] + flat_entries_seq(children, 1));
            assert forall|i: int| 0 <= i < es.len() implies (#[trigger] es[i]).1.id() == node.id() + i by {
                if i == 0 {
                    assert(es[0].1 == node.strip());
                } else {
                    assert(es[i] == flat_entries_seq(children, 1)[i - 1]);
                    assert(flat_entries_seq(children, 1)[i - 1].1 == flat_entries_seq(children, 0)[i - 1].1);
                }
            }
        },
        _ => {},
    }
}

/// The scanning state and outcome of one frame: the children gathered,
/// where scanning stopped, the close match's length if one ended the
/// frame, and the next free node identity.
struct FrameScan {
    children: Vec<NestedSegment>,
    stop: usize,
    closed: Option<usize>,
    next_id: u64,
}

/// Flush the pending unmatched run `[from, to)`: an empty run gives
/// nothing; a white-space run gives nothing when white-space leaves are
/// suppressed; any other run becomes a leaf carrying the next identity.
fn flush_run(suppress: bool, text: &str, from: usize, to: usize, cur_id: u64) -> (r: (Option<NestedSegment>, u64))
    requires
        from <= to <= text@.len(),
        from < to ==> cur_id < u64::MAX,
    ensures
        from == to ==> r.0 is None && r.1 == cur_id,
        from < to && suppress && all_whitespace(text@.subrange(from as int, to as int))
            ==> r.0 is None && r.1 == cur_id,
        from < to && !(suppress && all_whitespace(text@.subrange(from as int, to as int))) ==> {
            &&& r.0 is Some
            &&& r.1 == cur_id + 1
            &&& !(r.0->0@ is Code)
            &&& r.0->0@.id() == cur_id
            &&& r.0->0@.text() == text@.subrange(from as int, to as int)
            &&& ((r.0->0@ is WhiteSpace) <==> all_whitespace(text@.subrange(from as int, to as int)))
        },
{
    if from == to {
        return (None, cur_id);
    }
    let slice: &str = text.substring_char(from, to);
    let is_ws: bool = crate::text::str_is_whitespace(slice);
    if suppress && is_ws {
        (None, cur_id)
    } else if is_ws {
        (Some(NestedSegment::WhiteSpace(cur_id, String::from_str(slice))), cur_id + 1)
    } else {
        (Some(NestedSegment::Contents(cur_id, String::from_str(slice))), cur_id + 1)
    }
}

impl NestedCodeParser {
    /// Scan one frame from `start`: the root frame when `frame` is
    /// `None`, otherwise the frame opened by the rule at that index,
    /// whose close matcher ends it. Node identities are assigned in
    /// pre-order starting at `base_id`.
    #[verifier::rlimit(60)]
    fn scan_children(&self, text: &str, start: usize, frame: Option<usize>, base_id: u64) -> (r: Result<FrameScan, ParseError>)
        requires
            start <= text@.len(),
            match frame {
                Some(i) => i < self@.rules.len(),
                None => true,
            },
            base_id + (text@.len() - start) <= u64::MAX,
        ensures
            r is Ok ==> ({
                let fs = r->Ok_0;
                let pv = self@;
                let fv = frame_view(pv, frame);
                &&& start <= fs.stop <= text@.len()
                &&& base_id <= fs.next_id <= base_id + (fs.stop - start)
                &&& (fs.closed is Some ==> frame is Some && fs.stop < text@.len()
                    && fs.stop + fs.closed->0 <= text@.len())
                &&& (fs.closed is None ==> fs.stop == text@.len())
                &&& (!pv.suppress_ws ==> SegView::texts(seg_views(fs.children@))
                    == text@.subrange(start as int, fs.stop as int))
                &&& (rules_determinate(pv.rules) ==> exists|up: int| {
                    &&& children_upto(pv, fv, text@, start as int, seg_views(fs.children@), up)
                    &&& #[trigger] gap_ok(pv, fv, text@, up, fs.stop as int)
                    &&& (up != fs.stop ==> (fs.children@.len() == 0 || seg_views(fs.children@).last() is Code))
                    &&& start as int <= up <= fs.stop as int
                })
                &&& (rules_determinate(pv.rules) && fs.closed is Some
                    ==> frame_close_match(pv, fv, text@, fs.stop as int) == Some(fs.closed->0 as nat))
                &&& ids_consecutive(flat_entries_seq(seg_views(fs.children@), 0), base_id)
                &&& fs.next_id == base_id + flat_entries_seq(seg_views(fs.children@), 0).len()
            }),
            r is Err ==> self@.strict && err_witness(self@, text@, r->Err_0),
        decreases text@.len() - start, 1int,
    {
        let ghost pv = self@;
        let ghost fv = frame_view(pv, frame);
        let text_len: usize = text.unicode_len();
        let mut children: Vec<NestedSegment> = Vec::new();
        let mut cursor: usize = start;
        let mut unmatched: usize = start;
        let mut cur_id: u64 = base_id;
        proof {
            lemma_rule_views_index(self.identification@);
            assert(seg_views(children@) =~= Seq::<SegView>::empty());
            assert(SegView::texts(seg_views(children@)) =~= text@.subrange(start as int, start as int));
            assert(flat_entries_seq(seg_views(children@), 0) =~= Seq::<(nat, SegView)>::empty());
        }
        while cursor < text_len
            invariant
                text_len == text@.len(),
                start <= unmatched <= cursor <= text_len,
                pv == self@,
                fv == frame_view(pv, frame),
                match frame {
                    Some(i) => i < pv.rules.len() && i < self.identification@.len(),
                    None => true,
                },
                pv.rules == rule_views(self.identification@),
                pv.rules.len() == self.identification@.len(),
                forall|k: int| 0 <= k < self.identification@.len()
                    ==> (#[trigger] pv.rules[k]) == self.identification@[k]@,
                pv.ws_mode == self.match_any_white_space,
                pv.suppress_ws == self.ignore_white_space_segments,
                pv.strict == self.error_on_unterminated,
                base_id + (text_len - start) <= u64::MAX,
                base_id <= cur_id,
                cur_id <= base_id + (unmatched - start),
                children@.len() > 0 ==> seg_views(children@).last() is Code,
                ids_consecutive(flat_entries_seq(seg_views(children@), 0), base_id),
                cur_id == base_id + flat_entries_seq(seg_views(children@), 0).len(),
                !pv.suppress_ws ==> SegView::texts(seg_views(children@))
                    == text@.subrange(start as int, unmatched as int),
                rules_determinate(pv.rules)
                    ==> children_upto(pv, fv, text@, start as int, seg_views(children@), unmatched as int),
                rules_determinate(pv.rules)
                    ==> span_dead(pv, fv, text@, unmatched as int, cursor as int),
            decreases text_len - cursor,
        {
            // a close match of the frame's rule ends the frame first
            let close_hit: Option<usize> = match frame {
                Some(rule_idx) => self.identification[rule_idx].close_method().match_at(
                    text,
                    cursor,
                    self.match_any_white_space,
                ),
                None => None,
            };
            if let Some(clen) = close_hit {
                let flushed: (Option<NestedSegment>, u64) = flush_run(
                    self.ignore_white_space_segments,
                    text,
                    unmatched,
                    cursor,
                    cur_id,
                );
                let ghost children_before = children@;
                let mut children2: Vec<NestedSegment> = children;
                let ghost up_final: int = if flushed.0 is Some {
                    cursor as int
                } else {
                    unmatched as int
                };
                match flushed.0 {
                    Some(leaf) => {
                        proof {
                            lemma_seg_views_push(children_before, leaf);
                            lemma_texts_push(seg_views(children_before), leaf@);
                            lemma_ids_push_leaf(seg_views(children_before), leaf@, base_id);
                            if rules_determinate(pv.rules) {
                                lemma_children_append_leaf(
                                    pv, fv, text@, start as int,
                                    seg_views(children_before), leaf@,
                                    unmatched as int, cursor as int,
                                );
                            }
                        }
                        children2.push(leaf);
                    },
                    None => {},
                }
                proof {
                    if !pv.suppress_ws {
                        assert(text@.subrange(start as int, unmatched as int)
                            + text@.subrange(unmatched as int, cursor as int)
                            =~= text@.subrange(start as int, cursor as int));
                        if unmatched == cursor {
                            assert(text@.subrange(start as int, unmatched as int)
                                =~= text@.subrange(start as int, cursor as int));
                        }
                    }
                    if rules_determinate(pv.rules) {
                        assert(children_upto(pv, fv, text@, start as int, seg_views(children2@), up_final));
                        assert(gap_ok(pv, fv, text@, up_final, cursor as int));
                    }
                }
                return Ok(FrameScan {
                    children: children2,
                    stop: cursor,
                    closed: Some(clen),
                    next_id: flushed.1,
                });
            }
            proof {
                if rules_determinate(pv.rules) {
                    assert(frame_close_match(pv, fv, text@, cursor as int) is None);
                }
            }
            // then the first rule whose open matcher consumes something
            let allow: bool = match frame {
                Some(i) => self.identification[i].allow_sub_parse(),
                None => true,
            };
            proof {
                assert(allow == frame_allows(fv));
            }
            let mut hit: Option<(usize, usize)> = None;
            if allow {
                let mut k: usize = 0;
                while k < self.identification.len() && hit.is_none()
                    invariant
                        k <= self.identification@.len(),
                        pv == self@,
                        cursor < text_len,
                        text_len == text@.len(),
                        pv.rules.len() == self.identification@.len(),
                        forall|m: int| 0 <= m < self.identification@.len()
                            ==> (#[trigger] pv.rules[m]) == self.identification@[m]@,
                        pv.ws_mode == self.match_any_white_space,
                        rules_determinate(pv.rules) && hit is None ==> forall|m: int| 0 <= m < k ==> !({
                            let w = method_match_at((#[trigger] pv.rules[m]).open, pv.ws_mode, text@, cursor as int);
                            w is Some && w->0 >= 1
                        }),
                        hit is Some ==> ({
                            let pair = hit->0;
                            &&& pair.0 < self.identification@.len()
                            &&& 1 <= pair.1
                            &&& cursor + pair.1 <= text_len
                            &&& (rules_determinate(pv.rules)
                                ==> open_match(pv, text@, cursor as int) == Some((pair.0 as int, pair.1 as nat)))
                        }),
                    decreases self.identification@.len() - k,
                {
                    let m: Option<usize> = self.identification[k].open_method().match_at(
                        text,
                        cursor,
                        self.match_any_white_space,
                    );
                    match m {
                        Some(l) => {
                            if l >= 1 {
                                hit = Some((k, l));
                                proof {
                                    if rules_determinate(pv.rules) {
                                        lemma_first_open_prefix(pv.rules, pv.ws_mode, text@, cursor as int, k as int);
                                    }
                                }
                            }
                        },
                        None => {},
                    }
                    k += 1;
                }
                proof {
                    if rules_determinate(pv.rules) && hit is None {
                        lemma_first_open_prefix(pv.rules, pv.ws_mode, text@, cursor as int, pv.rules.len() as int);
                    }
                }
            }
            if let Some(hit_pair) = hit {
                let ri: usize = hit_pair.0;
                let olen: usize = hit_pair.1;
                let flushed: (Option<NestedSegment>, u64) = flush_run(
                    self.ignore_white_space_segments,
                    text,
                    unmatched,
                    cursor,
                    cur_id,
                );
                let ghost children_before = children@;
                let ghost gap_from: int = if flushed.0 is Some {
                    cursor as int
                } else {
                    unmatched as int
                };
                match flushed.0 {
                    Some(leaf) => {
                        proof {
                            lemma_seg_views_push(children_before, leaf);
                            lemma_texts_push(seg_views(children_before), leaf@);
                            lemma_ids_push_leaf(seg_views(children_before), leaf@, base_id);
                            if rules_determinate(pv.rules) {
                                lemma_children_append_leaf(
                                    pv, fv, text@, start as int,
                                    seg_views(children_before), leaf@,
                                    unmatched as int, cursor as int,
                                );
                            }
                        }
                        children.push(leaf);
                    },
                    None => {},
                }
                let ghost children_mid = children@;
                let cur_id2: u64 = flushed.1;
                let scanned: Result<(NestedSegment, usize, u64), ParseError> = self.scan_code(text, cursor, olen, ri, cur_id2);
                let step: (NestedSegment, usize, u64) = match scanned {
                    Ok(t) => t,
                    Err(e) => {
                        return Err(e);
                    },
                };
                let node: NestedSegment = step.0;
                let node_end: usize = step.1;
                let next_id3: u64 = step.2;
                proof {
                    lemma_seg_views_push(children_mid, node);
                    lemma_texts_push(seg_views(children_mid), node@);
                    lemma_ids_push_code(seg_views(children_mid), node@, base_id, cur_id2);
                    if rules_determinate(pv.rules) {
                        assert(children_upto(pv, fv, text@, start as int, seg_views(children_mid), gap_from));
                        assert(gap_ok(pv, fv, text@, gap_from, cursor as int));
                        lemma_children_append_code(
                            pv, fv, text@, start as int,
                            seg_views(children_mid), node@,
                            gap_from, cursor as int, node_end as int,
                        );
                    }
                    if !pv.suppress_ws {
                        assert(text@.subrange(start as int, unmatched as int)
                            + text@.subrange(unmatched as int, cursor as int)
                            =~= text@.subrange(start as int, cursor as int));
                        assert(text@.subrange(start as int, cursor as int)
                            + text@.subrange(cursor as int, node_end as int)
                            =~= text@.subrange(start as int, node_end as int));
                    }
                }
                children.push(node);
                cursor = node_end;
                unmatched = node_end;
                cur_id = next_id3;
            } else {
                proof {
                    if rules_determinate(pv.rules) {
                        assert(dead_at(pv, fv, text@, cursor as int));
                    }
                }
                cursor += 1;
            }
        }
        // the input ends the frame: flush what is pending and stop
        let flushed: (Option<NestedSegment>, u64) = flush_run(
            self.ignore_white_space_segments,
            text,
            unmatched,
            cursor,
            cur_id,
        );
        let ghost children_before = children@;
        let ghost up_final: int = if flushed.0 is Some {
            cursor as int
        } else {
            unmatched as int
        };
        match flushed.0 {
            Some(leaf) => {
                proof {
                    lemma_seg_views_push(children_before, leaf);
                    lemma_texts_push(seg_views(children_before), leaf@);
                    lemma_ids_push_leaf(seg_views(children_before), leaf@, base_id);
                    if rules_determinate(pv.rules) {
                        lemma_children_append_leaf(
                            pv, fv, text@, start as int,
                            seg_views(children_before), leaf@,
                            unmatched as int, cursor as int,
                        );
                    }
                }
                children.push(leaf);
            },
            None => {},
        }
        proof {
            if !pv.suppress_ws {
                assert(text@.subrange(start as int, unmatched as int)
                    + text@.subrange(unmatched as int, cursor as int)
                    =~= text@.subrange(start as int, cursor as int));
                if unmatched == cursor {
                    assert(text@.subrange(start as int, unmatched as int)
                        =~= text@.subrange(start as int, cursor as int));
                }
            }
            if rules_determinate(pv.rules) {
                assert(children_upto(pv, fv, text@, start as int, seg_views(children@), up_final));
                assert(gap_ok(pv, fv, text@, up_final, cursor as int));
            }
        }
        Ok(FrameScan { children, stop: cursor, closed: None, next_id: flushed.1 })
    }

    /// Scan the region a rule has just opened: its children, then its
    /// close tag, or the end of the input, which is an error in strict
    /// mode and an implicit close with an empty close tag otherwise.
    #[verifier::rlimit(60)]
    fn scan_code(&self, text: &str, open_start: usize, open_len: usize, rule_idx: usize, node_id: u64) -> (r: Result<(NestedSegment, usize, u64), ParseError>)
        requires
            rule_idx < self@.rules.len(),
            rule_idx < self.identification@.len(),
            1 <= open_len,
            open_start + open_len <= text@.len(),
            node_id + (text@.len() - open_start) <= u64::MAX,
            rules_determinate(self@.rules)
                ==> open_match(self@, text@, open_start as int) == Some((rule_idx as int, open_len as nat)),
            self@.rules[rule_idx as int] == self.identification@[rule_idx as int]@,
        ensures
            r is Ok ==> ({
                let node = r->Ok_0.0;
                let node_end = r->Ok_0.1;
                let nid = r->Ok_0.2;
                &&& open_start < node_end <= text@.len()
                &&& node_id < nid <= node_id + (node_end - open_start)
                &&& node@ is Code
                &&& (!self@.suppress_ws ==> node@.text() == text@.subrange(open_start as int, node_end as int))
                &&& ids_consecutive(flat_entries(node@, 0), node_id)
                &&& nid == node_id + flat_entries(node@, 0).len()
                &&& (rules_determinate(self@.rules)
                    ==> code_ok(self@, text@, open_start as int, node@, node_end as int))
            }),
            r is Err ==> self@.strict && err_witness(self@, text@, r->Err_0),
        decreases text@.len() - open_start, 0int,
    {
        let ghost pv = self@;
        let text_len: usize = text.unicode_len();
        let content_start: usize = open_start + open_len;
        let fs: FrameScan = match self.scan_children(text, content_start, Some(rule_idx), node_id + 1) {
            Ok(f) => f,
            Err(e) => {
                return Err(e);
            },
        };
        let rule: &SegmentIdentification = &self.identification[rule_idx];
        match fs.closed {
            Some(clen) => {
                let open_text: &str = text.substring_char(open_start, content_start);
                let close_text: &str = text.substring_char(fs.stop, fs.stop + clen);
                let ghost kid_views = seg_views(fs.children@);
                let ghost stop0 = fs.stop as int;
                let ghost fvv = frame_view(pv, Some(rule_idx));
                let node: NestedSegment = NestedSegment::Code(node_id, NestedSegmentCode {
                    name: String::from_str(rule.name()),
                    open_tag: String::from_str(open_text),
                    sub_segments: fs.children,
                    close_tag: String::from_str(close_text),
                });
                let node_end: usize = fs.stop + clen;
                proof {
                    assert(node@.children() == kid_views);
                    lemma_ids_wrap(node@, (node_id + 1) as u64);
                    if !pv.suppress_ws {
                        assert(node@.text() == text@.subrange(open_start as int, content_start as int)
                            + text@.subrange(content_start as int, stop0)
                            + text@.subrange(stop0, node_end as int));
                        assert(text@.subrange(open_start as int, content_start as int)
                            + text@.subrange(content_start as int, stop0)
                            + text@.subrange(stop0, node_end as int)
                            =~= text@.subrange(open_start as int, node_end as int));
                    }
                    if rules_determinate(pv.rules) {
                        assert(fvv == Some(pv.rules[rule_idx as int]));
                        let up0 = choose|up: int| {
                            &&& children_upto(pv, fvv, text@, content_start as int, kid_views, up)
                            &&& #[trigger] gap_ok(pv, fvv, text@, up, stop0)
                            &&& (up != stop0 ==> (kid_views.len() == 0 || kid_views.last() is Code))
                            &&& content_start as int <= up <= stop0
                        };
                        assert(children_upto(pv, fvv, text@, content_start as int, kid_views, up0));
                        assert(gap_ok(pv, fvv, text@, up0, stop0));
                        assert(content_start as int <= up0 <= stop0);
                        assert(frame_close_match(pv, fvv, text@, stop0) == Some(clen as nat));
                        assert(node@.name() == pv.rules[rule_idx as int].name);
                        assert(node@.open_text() == text@.subrange(open_start as int, open_start + open_len));
                        assert(node@.close_text() == text@.subrange(stop0, stop0 + clen));
                        assert(code_ok(pv, text@, open_start as int, node@, node_end as int));
                    }
                }
                Ok((node, node_end, fs.next_id))
            },
            None => {
                if self.error_on_unterminated {
                    let lc: (usize, usize) = line_col_at(text, open_start);
                    let e: ParseError = ParseError {
                        rule_name: String::from_str(rule.name()),
                        line: lc.0,
                        column: lc.1,
                    };
                    proof {
                        assert(pv.rules[rule_idx as int].name == e.rule_name@);
                        assert(0 <= open_start as int <= text@.len());
                        if rules_determinate(pv.rules) {
                            let fvv = frame_view(pv, Some(rule_idx));
                            let kid_views = seg_views(fs.children@);
                            assert(fvv == Some(pv.rules[rule_idx as int]));
                            let up0 = choose|up: int| {
                                &&& children_upto(pv, fvv, text@, content_start as int, kid_views, up)
                                &&& #[trigger] gap_ok(pv, fvv, text@, up, fs.stop as int)
                                &&& content_start as int <= up <= fs.stop as int
                            };
                            assert(children_upto(pv, fvv, text@, content_start as int, kid_views, up0));
                            assert(fs.stop == text@.len());
                            assert(gap_ok(pv, fvv, text@, up0, text@.len() as int));
                        }
                    }
                    Err(e)
                } else {
                    let open_text: &str = text.substring_char(open_start, content_start);
                    let ghost kid_views = seg_views(fs.children@);
                    let ghost stop0 = fs.stop as int;
                    let ghost fvv = frame_view(pv, Some(rule_idx));
                    let node: NestedSegment = NestedSegment::Code(node_id, NestedSegmentCode {
                        name: String::from_str(rule.name()),
                        open_tag: String::from_str(open_text),
                        sub_segments: fs.children,
                        close_tag: String::new(),
                    });
                    let node_end: usize = fs.stop;
                    proof {
                        assert(node@.children() == kid_views);
                        lemma_ids_wrap(node@, (node_id + 1) as u64);
                        if !pv.suppress_ws {
                            assert(node@.text() == text@.subrange(open_start as int, content_start as int)
                                + text@.subrange(content_start as int, stop0)
                                + Seq::<char>::empty());
                            assert(text@.subrange(open_start as int, content_start as int)
                                + text@.subrange(content_start as int, stop0)
                                + Seq::<char>::empty()
                                =~= text@.subrange(open_start as int, node_end as int));
                        }
                        if rules_determinate(pv.rules) {
                            assert(fvv == Some(pv.rules[rule_idx as int]));
                            let up0 = choose|up: int| {
                                &&& children_upto(pv, fvv, text@, content_start as int, kid_views, up)
                                &&& #[trigger] gap_ok(pv, fvv, text@, up, stop0)
                                &&& (up != stop0 ==> (kid_views.len() == 0 || kid_views.last() is Code))
                                &&& content_start as int <= up <= stop0
                            };
                            assert(children_upto(pv, fvv, text@, content_start as int, kid_views, up0));
                            assert(gap_ok(pv, fvv, text@, up0, stop0));
                            assert(content_start as int <= up0 <= stop0);
                            assert(stop0 == text@.len());
                            assert(!pv.strict);
                            assert(node@.name() == pv.rules[rule_idx as int].name);
                            assert(node@.open_text() == text@.subrange(open_start as int, open_start + open_len));
                            assert(node@.close_text().len() == 0);
                            assert(code_ok(pv, text@, open_start as int, node@, node_end as int));
                        }
                    }
                    Ok((node, node_end, fs.next_id))
                }
            },
        }
    }
}

/// The scanning state of one run over one text: the parser, the text,
/// and the cursors the scan keeps. Built once per `parse` call.
pub struct InnerNestedCodeParser<'a> {
    origin: &'a NestedCodeParser,
    contents: &'a str,
    cursor: usize,
    unmatched_cursor: usize,
}

impl<'a> InnerNestedCodeParser<'a> {
    /// The configuration this run scans under.
    pub closed spec fn origin_view(&self) -> ParserView {
        self.origin@
    }

    /// The text this run scans.
    pub closed spec fn text_view(&self) -> Seq<char> {
        self.contents@
    }

    /// How far the run has scanned.
    pub closed spec fn cursor_view(&self) -> int {
        self.cursor as int
    }

    /// Create a run over `contents` with both cursors at the start.
    pub fn new(origin: &'a NestedCodeParser, contents: &'a str) -> (r: InnerNestedCodeParser<'a>)
        ensures
            r.origin_view() == origin@,
            r.text_view() == contents@,
            r.cursor_view() == 0,
    {
        InnerNestedCodeParser { origin, contents, cursor: 0, unmatched_cursor: 0 }
    }

    /// Run the scan to the end of the text: the same outcome as the
    /// parser's own `parse`, with the cursors left at the end.
    pub fn parse(&mut self) -> (r: Result<NestedSegment, ParseError>)
        requires
            old(self).text_view().len() + 1 <= u64::MAX,
        ensures
            final(self).origin_view() == old(self).origin_view(),
            final(self).text_view() == old(self).text_view(),
            final(self).cursor_view() == old(self).text_view().len(),
            !old(self).origin_view().strict ==> r is Ok,
            r is Ok ==> r->Ok_0@ is Code,
            r is Ok ==> r->Ok_0@.name() == ROOT_NAME@,
            r is Ok && !old(self).origin_view().suppress_ws ==> r->Ok_0@.text() == old(self).text_view(),
            r is Ok && rules_determinate(old(self).origin_view().rules)
                ==> root_ok(old(self).origin_view(), old(self).text_view(), r->Ok_0@),
            r is Err ==> old(self).origin_view().strict
                && err_witness(old(self).origin_view(), old(self).text_view(), r->Err_0),
    {
        let r: Result<NestedSegment, ParseError> = self.origin.parse(self.contents);
        let end: usize = self.contents.unicode_len();
        self.cursor = end;
        self.unmatched_cursor = end;
        r
    }
}

} // verus!
