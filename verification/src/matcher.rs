use vstd::prelude::*;
use vstd::string::StrSliceExecFns;
use crate::text::all_whitespace;
use crate::text::char_is_whitespace;
use crate::text::is_whitespace_char;
use crate::text::str_is_whitespace;

verus! {

/// An invalid matcher or rule configuration, reported at construction.
#[derive(Clone, Copy, Debug, PartialEq, Eq)]
pub enum ConfigError {
    EmptyName,
    EmptyTag,
    DuplicateName,
    PatternNotAnchored,
    PatternInvalid,
}

#[verifier::external_type_specification]
#[verifier::external_body]
pub struct ExRegex(regex::Regex);

#[verifier::external_type_specification]
#[verifier::external_body]
pub struct ExRegexError(regex::Error);

/// Whether `pattern` is a pattern the regex engine accepts; compiling
/// depends on the pattern alone.
pub uninterp spec fn regex_compiles(pattern: Seq<char>) -> bool;

/// The first match of `pattern` in `text`, as its start and end
/// offsets in characters. The result depends on the pattern and the
/// text alone.
pub uninterp spec fn regex_match_span(pattern: Seq<char>, text: Seq<char>) -> Option<(usize, usize)>;

/// Relies on regex::Regex::new: whether a pattern compiles is a
/// function of the pattern alone.
#[verifier::external_body]
fn compile_regex(pattern: &str) -> (r: Result<regex::Regex, regex::Error>)
    ensures
        r is Ok <==> regex_compiles(pattern@),
{
    regex::Regex::new(pattern)
}

/// A compiled regular expression kept beside its pattern text. Built
/// only by `AnchoredRegex::new`, which compiles exactly the pattern it
/// stores, so the two fields always belong together.
pub struct AnchoredRegex {
    pattern: String,
    compiled: regex::Regex,
}

impl AnchoredRegex {
    /// The pattern the expression was compiled from.
    pub closed spec fn pattern_view(&self) -> Seq<char> {
        self.pattern@
    }

    /// Compile a pattern for cursor-anchored matching: it must start
    /// with `^`, so that it can only match exactly at a cursor, and the
    /// regex engine must accept it.
    pub fn new(pattern: &str) -> (r: Result<AnchoredRegex, ConfigError>)
        ensures
            r is Ok <==> (pattern@.len() > 0 && pattern@[0] == '^' && regex_compiles(pattern@)),
            !(pattern@.len() > 0 && pattern@[0] == '^')
                ==> r == Result::<AnchoredRegex, ConfigError>::Err(ConfigError::PatternNotAnchored),
            pattern@.len() > 0 && pattern@[0] == '^' && !regex_compiles(pattern@)
                ==> r == Result::<AnchoredRegex, ConfigError>::Err(ConfigError::PatternInvalid),
            r is Ok ==> r->Ok_0.pattern_view() == pattern@,
    {
        let n: usize = pattern.unicode_len();
        if n == 0 || pattern.get_char(0) != '^' {
            return Err(ConfigError::PatternNotAnchored);
        }
        match compile_regex(pattern) {
            Ok(compiled) => Ok(AnchoredRegex { pattern: String::from_str(pattern), compiled }),
            Err(_) => Err(ConfigError::PatternInvalid),
        }
    }

    /// Relies on regex::Regex::find: the first match in a haystack is a
    /// function of the pattern and the haystack alone, and lies within
    /// the haystack. The stored expression was compiled from the stored
    /// pattern, so the answer is named by that pattern. Byte offsets
    /// are converted to character offsets.
    #[verifier::external_body]
    fn find_span(&self, text: &str) -> (r: Option<(usize, usize)>)
        ensures
            r == regex_match_span(self.pattern_view(), text@),
            r is Some ==> ({
                let span = r->0;
                span.0 <= span.1 <= text@.len()
            }),
    {
        self.compiled.find(text).map(|m| (
            text[..m.start()].chars().count(),
            text[..m.end()].chars().count(),
        ))
    }
}

/// How many consecutive occurrences of `esc` sit immediately before
/// `pos` in `text`.
pub open spec fn escape_run_count(text: Seq<char>, pos: int, esc: Seq<char>) -> nat
    decreases pos,
{
    if esc.len() > 0 && 0 <= pos - esc.len() && text.subrange(pos - esc.len(), pos) == esc {
        1 + escape_run_count(text, pos - esc.len(), esc)
    } else {
        0
    }
}

/// A boundary at `pos` counts only when the run of escapes before it has
/// even length; with no escape configured every boundary counts.
pub open spec fn escape_parity_even(text: Seq<char>, pos: int, esc: Option<Seq<char>>) -> bool {
    match esc {
        None => true,
        Some(e) => escape_run_count(text, pos, e) % 2 == 0,
    }
}

/// Exact literal matching: the tag's characters stand at `pos`, and the
/// escape parity allows the boundary. The match consumes the tag length.
pub open spec fn literal_match_at(text: Seq<char>, pos: int, tag: Seq<char>, esc: Option<Seq<char>>) -> Option<nat> {
    if 0 <= pos && pos + tag.len() <= text.len() && text.subrange(pos, pos + tag.len()) == tag
        && escape_parity_even(text, pos, esc) {
        Some(tag.len())
    } else {
        None
    }
}

/// The length of the maximal white-space run starting at `pos`.
pub open spec fn ws_run_len(s: Seq<char>, pos: int) -> nat
    decreases s.len() - pos,
{
    if 0 <= pos < s.len() && char_is_whitespace(s[pos]) {
        (1 + ws_run_len(s, pos + 1)) as nat
    } else {
        0
    }
}

/// A white-space run never reaches past the end of the text.
pub proof fn lemma_ws_run_len_bound(s: Seq<char>, pos: int)
    ensures
        ws_run_len(s, pos) <= s.len() - pos || ws_run_len(s, pos) == 0,
        0 <= pos <= s.len() ==> pos + ws_run_len(s, pos) <= s.len(),
    decreases s.len() - pos,
{
    if 0 <= pos < s.len() && char_is_whitespace(s[pos]) {
        lemma_ws_run_len_bound(s, pos + 1);
    }
}

#[via_fn]
proof fn ws_fold_match_decreases(text: Seq<char>, i: int, tag: Seq<char>, j: int) {
    lemma_ws_run_len_bound(text, i);
    lemma_ws_run_len_bound(tag, j);
}

/// White-space-folding comparison: the characters of `tag` from `j` must
/// appear in `text` from `i`, where a white-space run on one side
/// matches any non-empty white-space run on the other, both consumed as
/// a unit. Returns how many characters of `text` the match consumed.
pub open spec fn ws_fold_match(text: Seq<char>, i: int, tag: Seq<char>, j: int) -> Option<nat>
    decreases text.len() - i + tag.len() - j,
        when 0 <= i <= text.len() && 0 <= j <= tag.len()
        via ws_fold_match_decreases
{
    if j >= tag.len() {
        Some(0)
    } else if i >= text.len() {
        None
    } else if char_is_whitespace(text[i]) && char_is_whitespace(tag[j]) {
        let a = ws_run_len(text, i);
        let b = ws_run_len(tag, j);
        match ws_fold_match(text, i + a, tag, j + b) {
            Some(n) => Some((n + a) as nat),
            None => None,
        }
    } else if text[i] == tag[j] {
        match ws_fold_match(text, i + 1, tag, j + 1) {
            Some(n) => Some((n + 1) as nat),
            None => None,
        }
    } else {
        None
    }
}

/// White-space-insensitive matching at `pos`: a tag of white-space alone
/// matches any non-empty white-space run and consumes the whole run; any
/// other tag is compared with white-space runs folded. The escape parity
/// check applies to the boundary as in exact mode.
pub open spec fn ws_match_at(text: Seq<char>, pos: int, tag: Seq<char>, esc: Option<Seq<char>>) -> Option<nat> {
    if 0 <= pos <= text.len() && escape_parity_even(text, pos, esc) {
        if all_whitespace(tag) {
            if pos < text.len() && char_is_whitespace(text[pos]) {
                Some(ws_run_len(text, pos))
            } else {
                None
            }
        } else {
            ws_fold_match(text, pos, tag, 0)
        }
    } else {
        None
    }
}

/// A caller-supplied recognizer: from the text and a cursor position it
/// answers how many characters a match starting exactly there consumes,
/// or that there is none. Implementations must not claim more characters
/// than the text holds past the cursor.
pub trait MatchFunction {
    fn match_length(&self, text: &str, pos: usize) -> (r: Option<usize>)
        requires
            pos <= text@.len(),
        ensures
            r is Some ==> pos + r->0 <= text@.len(),
    ;
}

/// One strategy for recognizing a boundary at a cursor position.
pub enum MatchMethod {
    /// Exact text, with an optional escape marker checked for parity.
    Literal { tag: String, escape: Option<String> },
    /// A cursor-anchored regular expression.
    Regex(AnchoredRegex),
    /// A caller-supplied recognizer.
    Predicate(Box<dyn MatchFunction>),
    /// Matches immediately, consuming nothing: for rules that close
    /// themselves right after their opening tag.
    AutoClose,
}

/// The mathematical shape of a matcher. A predicate has none: what it
/// recognizes belongs to its caller.
pub ghost enum MethodView {
    Literal { tag: Seq<char>, escape: Option<Seq<char>> },
    Regex { pattern: Seq<char> },
    Predicate,
    AutoClose,
}

impl View for MatchMethod {
    type V = MethodView;

    open spec fn view(&self) -> MethodView {
        match self {
            MatchMethod::Literal { tag, escape } => (MethodView::Literal {
                tag: tag@,
                escape: match escape {
                    Some(e) => Some(e@),
                    None => None,
                },
            }),
            MatchMethod::Regex(a) => (MethodView::Regex { pattern: a.pattern_view() }),
            MatchMethod::Predicate(_) => MethodView::Predicate,
            MatchMethod::AutoClose => MethodView::AutoClose,
        }
    }
}

impl MethodView {
    /// A matcher whose outcome is a function of the text alone.
    pub open spec fn is_determinate(self) -> bool {
        !(self is Predicate)
    }

    /// A well-formed matcher: a literal tag is never empty, and neither
    /// is a configured escape marker.
    pub open spec fn wf(self) -> bool {
        match self {
            MethodView::Literal { tag, escape } => tag.len() > 0 && (escape is Some ==> escape->0.len() > 0),
            _ => true,
        }
    }
}

/// What a determinate matcher recognizes at `pos`, under the engine-wide
/// white-space mode. A predicate's outcome is not a function of the
/// text; this gives it no match.
pub open spec fn method_match_at(m: MethodView, ws_mode: bool, text: Seq<char>, pos: int) -> Option<nat> {
    match m {
        MethodView::Literal { tag, escape } => if ws_mode {
            ws_match_at(text, pos, tag, escape)
        } else {
            literal_match_at(text, pos, tag, escape)
        },
        MethodView::Regex { pattern } => if 0 <= pos <= text.len() {
            match regex_match_span(pattern, text.skip(pos)) {
                // only a match starting exactly at the cursor counts
                Some(span) => if span.0 == 0 && span.1 <= text.len() - pos {
                    Some(span.1 as nat)
                } else {
                    None
                },
                None => None,
            }
        } else {
            None
        },
        MethodView::Predicate => None,
        MethodView::AutoClose => Some(0),
    }
}

/// A determinate matcher never claims more characters than remain.
pub proof fn lemma_method_match_bound(m: MethodView, ws_mode: bool, text: Seq<char>, pos: int)
    requires
        0 <= pos <= text.len(),
        method_match_at(m, ws_mode, text, pos) is Some,
    ensures
        pos + method_match_at(m, ws_mode, text, pos)->0 <= text.len(),
{
    match m {
        MethodView::Literal { tag, escape } => {
            if ws_mode {
                if all_whitespace(tag) {
                    lemma_ws_run_len_bound(text, pos);
                } else {
                    lemma_ws_fold_match_bound(text, pos, tag, 0);
                }
            }
        },
        _ => {},
    }
}

/// A folded match consumes no more characters than remain.
pub proof fn lemma_ws_fold_match_bound(text: Seq<char>, i: int, tag: Seq<char>, j: int)
    requires
        0 <= i <= text.len(),
        0 <= j <= tag.len(),
        ws_fold_match(text, i, tag, j) is Some,
    ensures
        i + ws_fold_match(text, i, tag, j)->0 <= text.len(),
    decreases text.len() - i + tag.len() - j,
{
    if j >= tag.len() {
    } else if i >= text.len() {
    } else if char_is_whitespace(text[i]) && char_is_whitespace(tag[j]) {
        lemma_ws_run_len_bound(text, i);
        lemma_ws_run_len_bound(tag, j);
        let a = ws_run_len(text, i);
        let b = ws_run_len(tag, j);
        lemma_ws_fold_match_bound(text, i + a, tag, j + b);
    } else if text[i] == tag[j] {
        lemma_ws_fold_match_bound(text, i + 1, tag, j + 1);
    }
}

impl MatchMethod {
    /// Build a cursor-anchored regular-expression matcher; see
    /// `AnchoredRegex::new` for what patterns are accepted.
    pub fn regex(pattern: &str) -> (r: Result<MatchMethod, ConfigError>)
        ensures
            r is Ok <==> (pattern@.len() > 0 && pattern@[0] == '^' && regex_compiles(pattern@)),
            r is Ok ==> r->Ok_0@ == (MethodView::Regex { pattern: pattern@ }),
    {
        match AnchoredRegex::new(pattern) {
            Ok(a) => Ok(MatchMethod::Regex(a)),
            Err(e) => Err(e),
        }
    }

    /// Build an exact-text matcher. The tag must be non-empty; an empty
    /// escape marker counts as none at all.
    pub fn literal(tag: &str, escape: Option<&str>) -> (r: Result<MatchMethod, ConfigError>)
        ensures
            r is Ok <==> tag@.len() > 0,
            tag@.len() == 0 ==> r == Result::<MatchMethod, ConfigError>::Err(ConfigError::EmptyTag),
            r is Ok ==> r->Ok_0@ == (MethodView::Literal {
                tag: tag@,
                escape: match escape {
                    Some(e) => if e@.len() > 0 {
                        Some(e@)
                    } else {
                        None
                    },
                    None => None,
                },
            }),
            r is Ok ==> r->Ok_0@.wf(),
    {
        if tag.is_empty() {
            return Err(ConfigError::EmptyTag);
        }
        let escape_kept: Option<String> = match escape {
            Some(e) => {
                if e.is_empty() {
                    None
                } else {
                    Some(String::from_str(e))
                }
            },
            None => None,
        };
        Ok(MatchMethod::Literal { tag: String::from_str(tag), escape: escape_kept })
    }
}

/// Whether the characters of `tag` stand at `pos` in `text`.
fn chars_match_at(text: &str, pos: usize, tag: &str) -> (r: bool)
    requires
        pos <= text@.len(),
    ensures
        r == (pos + tag@.len() <= text@.len()
            && text@.subrange(pos as int, pos + tag@.len()) == tag@),
{
    let tag_len: usize = tag.unicode_len();
    let text_len: usize = text.unicode_len();
    if text_len - pos < tag_len {
        return false;
    }
    let mut k: usize = 0;
    while k < tag_len
        invariant
            k <= tag_len,
            tag_len == tag@.len(),
            text_len == text@.len(),
            pos + tag_len <= text_len,
            forall|m: int| 0 <= m < k ==> text@[pos + m] == tag@[m],
        decreases tag_len - k,
    {
        if text.get_char(pos + k) != tag.get_char(k) {
            proof {
                assert(text@.subrange(pos as int, pos + tag@.len())[k as int] == text@[pos + k]);
            }
            return false;
        }
        k += 1;
    }
    proof {
        assert(text@.subrange(pos as int, pos + tag@.len()) =~= tag@);
    }
    true
}

/// Whether the run of escape markers just before `pos` has even length.
fn escape_parity_even_at(text: &str, pos: usize, esc: &str) -> (r: bool)
    requires
        pos <= text@.len(),
    ensures
        r == (escape_run_count(text@, pos as int, esc@) % 2 == 0),
{
    let esc_len: usize = esc.unicode_len();
    if esc_len == 0 {
        return true;
    }
    let mut cur: usize = pos;
    let mut peeled: usize = 0;
    while cur >= esc_len && chars_match_at(text, cur - esc_len, esc)
        invariant
            esc_len == esc@.len(),
            esc_len > 0,
            cur <= pos <= text@.len(),
            escape_run_count(text@, pos as int, esc@)
                == peeled + escape_run_count(text@, cur as int, esc@),
            peeled + cur <= pos,
        decreases cur,
    {
        proof {
            assert(text@.subrange(cur - esc@.len(), cur as int) == esc@);
            assert(escape_run_count(text@, cur as int, esc@)
                == 1 + escape_run_count(text@, cur - esc@.len(), esc@));
        }
        cur = cur - esc_len;
        peeled = peeled + 1;
    }
    proof {
        assert(escape_run_count(text@, cur as int, esc@) == 0);
    }
    peeled % 2 == 0
}

/// The position just past the maximal white-space run at `pos`.
fn ws_run_end(text: &str, pos: usize) -> (r: usize)
    requires
        pos <= text@.len(),
    ensures
        r as int == pos + ws_run_len(text@, pos as int),
        pos <= r <= text@.len(),
{
    let text_len: usize = text.unicode_len();
    let mut cur: usize = pos;
    while cur < text_len && is_whitespace_char(text.get_char(cur))
        invariant
            text_len == text@.len(),
            pos <= cur <= text_len,
            ws_run_len(text@, pos as int) == (cur - pos) + ws_run_len(text@, cur as int),
        decreases text_len - cur,
    {
        proof {
            assert(ws_run_len(text@, cur as int) == 1 + ws_run_len(text@, cur + 1));
        }
        cur += 1;
    }
    proof {
        assert(ws_run_len(text@, cur as int) == 0);
    }
    cur
}

/// Exact literal matching with the escape parity check.
fn literal_match_exec(text: &str, pos: usize, tag: &str, escape: &Option<String>) -> (r: Option<usize>)
    requires
        pos <= text@.len(),
    ensures
        ({
            let s = literal_match_at(text@, pos as int, tag@, match escape {
                Some(e) => Some(e@),
                None => None,
            });
            &&& r is Some <==> s is Some
            &&& r is Some ==> r->0 as nat == s->0
        }),
{
    if !chars_match_at(text, pos, tag) {
        return None;
    }
    match escape {
        Some(esc) => {
            if escape_parity_even_at(text, pos, esc.as_str()) {
                Some(tag.unicode_len())
            } else {
                None
            }
        },
        None => Some(tag.unicode_len()),
    }
}

/// White-space-folding comparison of `tag` from `j` against `text` from
/// `i`; answers how many characters of `text` the match consumed.
fn ws_fold_match_exec(text: &str, i: usize, tag: &str, j: usize) -> (r: Option<usize>)
    requires
        i <= text@.len(),
        j <= tag@.len(),
    ensures
        ({
            let s = ws_fold_match(text@, i as int, tag@, j as int);
            &&& r is Some <==> s is Some
            &&& r is Some ==> r->0 as nat == s->0
        }),
    decreases text@.len() - i + tag@.len() - j,
{
    let text_len: usize = text.unicode_len();
    let tag_len: usize = tag.unicode_len();
    if j >= tag_len {
        return Some(0);
    }
    if i >= text_len {
        return None;
    }
    let ci: char = text.get_char(i);
    let cj: char = tag.get_char(j);
    if is_whitespace_char(ci) && is_whitespace_char(cj) {
        let i2: usize = ws_run_end(text, i);
        let j2: usize = ws_run_end(tag, j);
        proof {
            lemma_ws_run_len_bound(text@, i as int);
            lemma_ws_run_len_bound(tag@, j as int);
        }
        match ws_fold_match_exec(text, i2, tag, j2) {
            Some(n) => {
                proof {
                    lemma_ws_fold_match_bound(text@, i2 as int, tag@, j2 as int);
                }
                Some(n + (i2 - i))
            },
            None => None,
        }
    } else if ci == cj {
        match ws_fold_match_exec(text, i + 1, tag, j + 1) {
            Some(n) => {
                proof {
                    lemma_ws_fold_match_bound(text@, i + 1, tag@, j + 1);
                }
                Some(n + 1)
            },
            None => None,
        }
    } else {
        None
    }
}

/// White-space-insensitive matching at `pos`.
fn ws_match_exec(text: &str, pos: usize, tag: &str, escape: &Option<String>) -> (r: Option<usize>)
    requires
        pos <= text@.len(),
    ensures
        ({
            let s = ws_match_at(text@, pos as int, tag@, match escape {
                Some(e) => Some(e@),
                None => None,
            });
            &&& r is Some <==> s is Some
            &&& r is Some ==> r->0 as nat == s->0
        }),
{
    let parity_ok: bool = match escape {
        Some(esc) => escape_parity_even_at(text, pos, esc.as_str()),
        None => true,
    };
    if !parity_ok {
        return None;
    }
    if str_is_whitespace(tag) {
        let text_len: usize = text.unicode_len();
        if pos < text_len && is_whitespace_char(text.get_char(pos)) {
            let run_end: usize = ws_run_end(text, pos);
            Some(run_end - pos)
        } else {
            None
        }
    } else {
        ws_fold_match_exec(text, pos, tag, 0)
    }
}

impl MatchMethod {
    /// What this matcher recognizes at `pos` under the given white-space
    /// mode. For a determinate matcher the answer is exactly what the
    /// matcher's mathematical shape recognizes; a predicate answers for
    /// itself, and never claims more characters than remain.
    pub(crate) fn match_at(&self, text: &str, pos: usize, ws_mode: bool) -> (r: Option<usize>)
        requires
            pos <= text@.len(),
        ensures
            self@.is_determinate() ==> (r is Some <==> method_match_at(self@, ws_mode, text@, pos as int) is Some),
            self@.is_determinate() && r is Some
                ==> r->0 as nat == method_match_at(self@, ws_mode, text@, pos as int)->0,
            r is Some ==> pos + r->0 <= text@.len(),
    {
        match self {
            MatchMethod::Literal { tag, escape } => {
                let r: Option<usize> = if ws_mode {
                    ws_match_exec(text, pos, tag.as_str(), escape)
                } else {
                    literal_match_exec(text, pos, tag.as_str(), escape)
                };
                proof {
                    if r is Some {
                        lemma_method_match_bound(self@, ws_mode, text@, pos as int);
                    }
                }
                r
            },
            MatchMethod::Regex(a) => {
                let text_len: usize = text.unicode_len();
                let suffix: &str = text.substring_char(pos, text_len);
                proof {
                    assert(suffix@ =~= text@.skip(pos as int));
                }
                match a.find_span(suffix) {
                    Some(span) => {
                        if span.0 == 0 {
                            Some(span.1)
                        } else {
                            None
                        }
                    },
                    None => None,
                }
            },
            MatchMethod::Predicate(p) => p.match_length(text, pos),
            MatchMethod::AutoClose => Some(0),
        }
    }
}

/// A named rule: an open matcher, a close matcher, and whether the
/// region between them is itself scanned for nested rules.
pub struct SegmentIdentification {
    name: String,
    allow_sub_parse: bool,
    open: MatchMethod,
    close: MatchMethod,
}

/// The mathematical shape of a rule.
pub ghost struct RuleView {
    pub name: Seq<char>,
    pub allow_sub_parse: bool,
    pub open: MethodView,
    pub close: MethodView,
}

impl RuleView {
    /// A well-formed rule: a non-empty name and well-formed matchers.
    pub open spec fn wf(self) -> bool {
        self.name.len() > 0 && self.open.wf() && self.close.wf()
    }

    /// Both matchers' outcomes are functions of the text alone.
    pub open spec fn is_determinate(self) -> bool {
        self.open.is_determinate() && self.close.is_determinate()
    }
}

impl View for SegmentIdentification {
    type V = RuleView;

    closed spec fn view(&self) -> RuleView {
        match self {
            SegmentIdentification { name, allow_sub_parse, open, close } => (RuleView {
                name: name@,
                allow_sub_parse: *allow_sub_parse,
                open: open@,
                close: close@,
            }),
        }
    }
}

impl SegmentIdentification {
    /// Build a rule from a name and two matchers. The name must be
    /// non-empty, and so must literal tags; an empty escape marker
    /// counts as none at all.
    pub fn new(name: &str, allow_sub_parse: bool, open: MatchMethod, close: MatchMethod) -> (r: Result<SegmentIdentification, ConfigError>)
        ensures
            r is Ok <==> (name@.len() > 0 && Self::method_acceptable(open@) && Self::method_acceptable(close@)),
            name@.len() == 0 ==> r == Result::<SegmentIdentification, ConfigError>::Err(ConfigError::EmptyName),
            r is Ok ==> r->Ok_0@ == (RuleView {
                name: name@,
                allow_sub_parse: allow_sub_parse,
                open: Self::normalized(open@),
                close: Self::normalized(close@),
            }),
            r is Ok ==> r->Ok_0@.wf(),
    {
        if name.is_empty() {
            return Err(ConfigError::EmptyName);
        }
        let open_checked: MatchMethod = match Self::check_method(open) {
            Ok(m) => m,
            Err(e) => {
                return Err(e);
            },
        };
        let close_checked: MatchMethod = match Self::check_method(close) {
            Ok(m) => m,
            Err(e) => {
                return Err(e);
            },
        };
        Ok(SegmentIdentification {
            name: String::from_str(name),
            allow_sub_parse,
            open: open_checked,
            close: close_checked,
        })
    }

    /// Build a rule from plain tag texts: the short form of
    /// construction, with no escapes.
    pub fn from_tags(name: &str, allow_sub_parse: bool, open_tag: &str, close_tag: &str) -> (r: Result<SegmentIdentification, ConfigError>)
        ensures
            r is Ok <==> (name@.len() > 0 && open_tag@.len() > 0 && close_tag@.len() > 0),
            r is Ok ==> r->Ok_0@ == (RuleView {
                name: name@,
                allow_sub_parse: allow_sub_parse,
                open: MethodView::Literal { tag: open_tag@, escape: None },
                close: MethodView::Literal { tag: close_tag@, escape: None },
            }),
    {
        let open = match MatchMethod::literal(open_tag, None) {
            Ok(m) => m,
            Err(e) => {
                return Err(e);
            },
        };
        let close = match MatchMethod::literal(close_tag, None) {
            Ok(m) => m,
            Err(e) => {
                return Err(e);
            },
        };
        Self::new(name, allow_sub_parse, open, close)
    }

    /// Build a rule from tag texts with escape markers, the six-field
    /// form: an empty escape marker counts as none at all.
    pub fn from_tags_with_escapes(name: &str, allow_sub_parse: bool, open_tag: &str, open_escape: &str, close_tag: &str, close_escape: &str) -> (r: Result<SegmentIdentification, ConfigError>)
        ensures
            r is Ok <==> (name@.len() > 0 && open_tag@.len() > 0 && close_tag@.len() > 0),
            r is Ok ==> r->Ok_0@ == (RuleView {
                name: name@,
                allow_sub_parse: allow_sub_parse,
                open: MethodView::Literal {
                    tag: open_tag@,
                    escape: if open_escape@.len() > 0 {
                        Some(open_escape@)
                    } else {
                        None
                    },
                },
                close: MethodView::Literal {
                    tag: close_tag@,
                    escape: if close_escape@.len() > 0 {
                        Some(close_escape@)
                    } else {
                        None
                    },
                },
            }),
    {
        let open = match MatchMethod::literal(open_tag, Some(open_escape)) {
            Ok(m) => m,
            Err(e) => {
                return Err(e);
            },
        };
        let close = match MatchMethod::literal(close_tag, Some(close_escape)) {
            Ok(m) => m,
            Err(e) => {
                return Err(e);
            },
        };
        Self::new(name, allow_sub_parse, open, close)
    }

    /// Build a non-nesting, auto-closing token rule recognized by a
    /// regular expression: the pattern gains a leading `^` when it has
    /// none, so it only matches exactly at a cursor, and the rule
    /// closes itself right after the match.
    pub fn token(name: &str, pattern: &str) -> (r: Result<SegmentIdentification, ConfigError>)
        ensures
            ({
                let anchored = if pattern@.len() > 0 && pattern@[0] == '^' {
                    pattern@
                } else {
                    "^"@ + pattern@
                };
                &&& (r is Ok <==> name@.len() > 0 && regex_compiles(anchored))
                &&& r is Ok ==> r->Ok_0@ == (RuleView {
                    name: name@,
                    allow_sub_parse: false,
                    open: MethodView::Regex { pattern: anchored },
                    close: MethodView::AutoClose,
                })
            }),
    {
        if name.is_empty() {
            return Err(ConfigError::EmptyName);
        }
        let n: usize = pattern.unicode_len();
        let anchored: String = if n > 0 && pattern.get_char(0) == '^' {
            String::from_str(pattern)
        } else {
            String::from_str("^").concat(pattern)
        };
        proof {
            reveal_strlit("^");
            assert(anchored@.len() > 0 && anchored@[0] == '^');
        }
        let open = match MatchMethod::regex(anchored.as_str()) {
            Ok(m) => m,
            Err(e) => {
                return Err(e);
            },
        };
        Self::new(name, false, open, MatchMethod::AutoClose)
    }

    /// A matcher the constructor accepts: a literal must have a
    /// non-empty tag.
    pub open spec fn method_acceptable(m: MethodView) -> bool {
        match m {
            MethodView::Literal { tag, .. } => tag.len() > 0,
            _ => true,
        }
    }

    /// The accepted matcher as stored: an empty escape marker is
    /// dropped.
    pub open spec fn normalized(m: MethodView) -> MethodView {
        match m {
            MethodView::Literal { tag, escape } => (MethodView::Literal {
                tag,
                escape: match escape {
                    Some(e) => if e.len() > 0 {
                        Some(e)
                    } else {
                        None
                    },
                    None => None,
                },
            }),
            other => other,
        }
    }

    /// Validate and normalize one matcher.
    fn check_method(m: MatchMethod) -> (r: Result<MatchMethod, ConfigError>)
        ensures
            r is Ok <==> Self::method_acceptable(m@),
            r is Err ==> r == Result::<MatchMethod, ConfigError>::Err(ConfigError::EmptyTag),
            r is Ok ==> r->Ok_0@ == Self::normalized(m@),
            r is Ok ==> r->Ok_0@.wf(),
    {
        match m {
            MatchMethod::Literal { tag, escape } => {
                if tag.as_str().is_empty() {
                    return Err(ConfigError::EmptyTag);
                }
                let escape_kept: Option<String> = match escape {
                    Some(e) => {
                        if e.as_str().is_empty() {
                            None
                        } else {
                            Some(e)
                        }
                    },
                    None => None,
                };
                Ok(MatchMethod::Literal { tag, escape: escape_kept })
            },
            other => Ok(other),
        }
    }

    /// The rule's name.
    pub fn name(&self) -> (r: &str)
        ensures
            r@ == self@.name,
    {
        self.name.as_str()
    }

    /// Whether the region this rule matches is itself scanned.
    pub fn allow_sub_parse(&self) -> (r: bool)
        ensures
            r == self@.allow_sub_parse,
    {
        self.allow_sub_parse
    }

    /// The rule's open matcher.
    pub(crate) fn open_method(&self) -> (r: &MatchMethod)
        ensures
            r@ == self@.open,
    {
        &self.open
    }

    /// The rule's close matcher.
    pub(crate) fn close_method(&self) -> (r: &MatchMethod)
        ensures
            r@ == self@.close,
    {
        &self.close
    }
}



} // verus!
