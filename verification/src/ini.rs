use vstd::prelude::*;
use vstd::string::StrSliceExecFns;
use vstd::string::StringExecFns;
use crate::parser::is_line_break;
use crate::text::char_is_whitespace;
use crate::text::is_whitespace_char;

verus! {

/// The name reserved for reporting a category or variable that was
/// asked for but is not there; no real entry may carry it.
pub const UNAVAILABLE_PROPERTY_PLACEHOLDER: &'static str = "UNAVAILABLE_PROPERTY_ERROR";

/// A line the reader cannot place: neither empty, nor a category
/// header, nor a key/value pair.
#[derive(Clone, Debug, PartialEq, Eq)]
pub struct IniError {
    pub line: String,
}

/// One key/value pair of an ini document.
#[derive(Clone, Debug, PartialEq, Eq)]
pub struct IniVariable {
    pub name: String,
    pub value: String,
}

/// One named category of an ini document, with its pairs in order.
#[derive(Clone, Debug, PartialEq, Eq)]
pub struct IniCategory {
    pub name: String,
    pub data: Vec<IniVariable>,
}

/// The position of the first pair carrying `name`.
pub open spec fn first_variable_with(vars: Seq<IniVariable>, name: Seq<char>) -> Option<int>
    decreases vars,
{
    if vars.len() == 0 {
        None
    } else if vars[0].name@ == name {
        Some(0)
    } else {
        match first_variable_with(vars.drop_first(), name) {
            Some(i) => Some(i + 1),
            None => None,
        }
    }
}

/// A found pair lies within the list, carries the name, and nothing
/// before it does.
pub proof fn lemma_first_variable_with(vars: Seq<IniVariable>, name: Seq<char>)
    ensures
        match first_variable_with(vars, name) {
            Some(i) => 0 <= i < vars.len() && vars[i].name@ == name
                && forall|m: int| 0 <= m < i ==> (#[trigger] vars[m]).name@ != name,
            None => forall|m: int| 0 <= m < vars.len() ==> (#[trigger] vars[m]).name@ != name,
        },
    decreases vars.len(),
{
    if vars.len() > 0 && vars[0].name@ != name {
        lemma_first_variable_with(vars.drop_first(), name);
        assert forall|m: int| 1 <= m < vars.len() implies (#[trigger] vars[m]).name@ == vars.drop_first()[m - 1].name@ by {
            assert(vars.drop_first()[m - 1] == vars[m]);
        }
    }
}

/// The position of the first category carrying `name`.
pub open spec fn first_category_with(cats: Seq<IniCategory>, name: Seq<char>) -> Option<int>
    decreases cats,
{
    if cats.len() == 0 {
        None
    } else if cats[0].name@ == name {
        Some(0)
    } else {
        match first_category_with(cats.drop_first(), name) {
            Some(i) => Some(i + 1),
            None => None,
        }
    }
}

/// A found category lies within the list, carries the name, and
/// nothing before it does.
pub proof fn lemma_first_category_with(cats: Seq<IniCategory>, name: Seq<char>)
    ensures
        match first_category_with(cats, name) {
            Some(i) => 0 <= i < cats.len() && cats[i].name@ == name
                && forall|m: int| 0 <= m < i ==> (#[trigger] cats[m]).name@ != name,
            None => forall|m: int| 0 <= m < cats.len() ==> (#[trigger] cats[m]).name@ != name,
        },
    decreases cats.len(),
{
    if cats.len() > 0 && cats[0].name@ != name {
        lemma_first_category_with(cats.drop_first(), name);
        assert forall|m: int| 1 <= m < cats.len() implies (#[trigger] cats[m]).name@ == cats.drop_first()[m - 1].name@ by {
            assert(cats.drop_first()[m - 1] == cats[m]);
        }
    }
}

impl IniVariable {
    /// Create a pair; the reserved placeholder may not name one.
    pub fn new(name: &str, value: &str) -> (r: IniVariable)
        requires
            name@ != UNAVAILABLE_PROPERTY_PLACEHOLDER@,
        ensures
            r.name@ == name@,
            r.value@ == value@,
    {
        IniVariable { name: String::from_str(name), value: String::from_str(value) }
    }

    /// Whether this pair is a real entry, not the reserved stand-in for
    /// a missing one.
    pub fn is_ok(&self) -> (r: bool)
        ensures
            r == (self.name@ != UNAVAILABLE_PROPERTY_PLACEHOLDER@),
    {
        let reserved: String = String::from_str(UNAVAILABLE_PROPERTY_PLACEHOLDER);
        !self.name.eq(&reserved)
    }

    /// The pair as one ini line: name, `=`, value.
    pub fn to_text(&self) -> (r: String)
        ensures
            r@ == self.name@ + "="@ + self.value@,
    {
        let mut out: String = String::from_str(self.name.as_str());
        out.append("=");
        out.append(self.value.as_str());
        out
    }
}

impl IniCategory {
    /// Create an empty category; the reserved placeholder may not name
    /// one.
    pub fn new(name: &str) -> (r: IniCategory)
        requires
            name@ != UNAVAILABLE_PROPERTY_PLACEHOLDER@,
        ensures
            r.name@ == name@,
            r.data@.len() == 0,
    {
        IniCategory { name: String::from_str(name), data: Vec::new() }
    }

    /// Whether this category is a real entry, not the reserved stand-in
    /// for a missing one.
    pub fn is_ok(&self) -> (r: bool)
        ensures
            r == (self.name@ != UNAVAILABLE_PROPERTY_PLACEHOLDER@),
    {
        let reserved: String = String::from_str(UNAVAILABLE_PROPERTY_PLACEHOLDER);
        !self.name.eq(&reserved)
    }

    /// The first pair with this name, if the category holds one.
    pub fn variable(&self, target_name: &str) -> (r: Option<&IniVariable>)
        ensures
            r is Some <==> first_variable_with(self.data@, target_name@) is Some,
            r is Some ==> *(r->0) == self.data@[first_variable_with(self.data@, target_name@)->0],
            r is None ==> forall|i: int| 0 <= i < self.data@.len()
                ==> (#[trigger] self.data@[i]).name@ != target_name@,
    {
        let wanted: String = String::from_str(target_name);
        let mut i: usize = 0;
        proof {
            lemma_first_variable_with(self.data@, target_name@);
        }
        while i < self.data.len()
            invariant
                i <= self.data@.len(),
                wanted@ == target_name@,
                forall|m: int| 0 <= m < i ==> (#[trigger] self.data@[m]).name@ != target_name@,
            decreases self.data@.len() - i,
        {
            if self.data[i].name.eq(&wanted) {
                proof {
                    lemma_first_variable_with(self.data@, target_name@);
                    assert(self.data@[i as int].name@ == target_name@);
                    assert(first_variable_with(self.data@, target_name@) == Some(i as int));
                }
                return Some(&self.data[i]);
            }
            i += 1;
        }
        proof {
            lemma_first_variable_with(self.data@, target_name@);
        }
        None
    }

    /// The category as ini text: the bracketed header, then one
    /// `\n`-prefixed line for each pair.
    pub fn to_text(&self) -> (r: String)
        ensures
            r@ == cat_text(cat_view(*self)),
    {
        let ghost pairs = cat_view(*self).pairs;
        let mut out: String = String::from_str("[");
        out.append(self.name.as_str());
        out.append("]");
        let mut i: usize = 0;
        proof {
            assert(pairs_text(pairs.take(0)) =~= Seq::<char>::empty());
            assert(out@ =~= "["@ + self.name@ + "]"@ + pairs_text(pairs.take(0)));
        }
        while i < self.data.len()
            invariant
                i <= self.data@.len(),
                pairs == cat_view(*self).pairs,
                pairs.len() == self.data@.len(),
                out@ == "["@ + self.name@ + "]"@ + pairs_text(pairs.take(i as int)),
            decreases self.data@.len() - i,
        {
            proof {
                lemma_pairs_text_take_step(pairs, i as int);
                assert(pairs[i as int] == ((self.data@[i as int].name@, self.data@[i as int].value@)));
            }
            out.append("\n");
            let line: String = self.data[i].to_text();
            out.append(line.as_str());
            proof {
                assert(out@ =~= "["@ + self.name@ + "]"@ + pairs_text(pairs.take(i + 1)));
            }
            i += 1;
        }
        proof {
            assert(pairs.take(pairs.len() as int) =~= pairs);
        }
        out
    }
}

/// The mathematical shape of one category: its name and its pairs.
#[verifier::ext_equal]
pub ghost struct CatView {
    pub name: Seq<char>,
    pub pairs: Seq<(Seq<char>, Seq<char>)>,
}

/// The views of a pair list, in order.
pub open spec fn pair_views(vars: Seq<IniVariable>) -> Seq<(Seq<char>, Seq<char>)> {
    Seq::new(vars.len(), |i: int| (vars[i].name@, vars[i].value@))
}

/// The view of one category.
pub open spec fn cat_view(c: IniCategory) -> CatView {
    CatView { name: c.name@, pairs: pair_views(c.data@) }
}

/// The views of a category list, in order.
pub open spec fn cat_views(cs: Seq<IniCategory>) -> Seq<CatView> {
    Seq::new(cs.len(), |i: int| cat_view(cs[i]))
}

/// The view of the category a reader may have open.
pub open spec fn opt_cat_view(c: Option<IniCategory>) -> Option<CatView> {
    match c {
        Some(x) => Some(cat_view(x)),
        None => None,
    }
}

/// The open category as a list: one entry, or none.
pub open spec fn flushed(c: Option<CatView>) -> Seq<CatView> {
    match c {
        Some(x) => seq![x],
        None => Seq::empty(),
    }
}

/// One pair as a `\n`-prefixed ini line, for each pair in turn.
pub open spec fn pairs_text(pairs: Seq<(Seq<char>, Seq<char>)>) -> Seq<char>
    decreases pairs,
{
    if pairs.len() == 0 {
        Seq::empty()
    } else {
        "\n"@ + pairs[0].0 + "="@ + pairs[0].1 + pairs_text(pairs.drop_first())
    }
}

/// A category as ini text: the bracketed header, then its pair lines.
pub open spec fn cat_text(c: CatView) -> Seq<char> {
    "["@ + c.name + "]"@ + pairs_text(c.pairs)
}

/// The categories' texts in order, separated by blank lines.
pub open spec fn cats_text(cs: Seq<CatView>) -> Seq<char>
    decreases cs,
{
    if cs.len() == 0 {
        Seq::empty()
    } else if cs.len() == 1 {
        cat_text(cs[0])
    } else {
        cat_text(cs[0]) + "\n\n"@ + cats_text(cs.drop_first())
    }
}

/// Writing one more pair appends its line.
pub proof fn lemma_pairs_text_take_step(pairs: Seq<(Seq<char>, Seq<char>)>, i: int)
    requires
        0 <= i < pairs.len(),
    ensures
        pairs_text(pairs.take(i + 1)) == pairs_text(pairs.take(i))
            + ("\n"@ + pairs[i].0 + "="@ + pairs[i].1),
    decreases i,
{
    if i == 0 {
        reveal_with_fuel(pairs_text, 2);
        assert(pairs.take(1).drop_first() =~= Seq::<(Seq<char>, Seq<char>)>::empty());
        assert(pairs.take(0) =~= Seq::<(Seq<char>, Seq<char>)>::empty());
        assert(pairs.take(1)[0] == pairs[0]);
        assert(pairs_text(pairs.take(0)) + ("\n"@ + pairs[0].0 + "="@ + pairs[0].1)
            =~= "\n"@ + pairs[0].0 + "="@ + pairs[0].1 + pairs_text(pairs.take(1).drop_first()));
    } else {
        lemma_pairs_text_take_step(pairs.drop_first(), i - 1);
        assert(pairs.take(i + 1).drop_first() =~= pairs.drop_first().take(i));
        assert(pairs.take(i).drop_first() =~= pairs.drop_first().take(i - 1));
        assert(pairs.take(i + 1)[0] == pairs[0]);
        assert(pairs.take(i)[0] == pairs[0]);
        assert(pairs.drop_first()[i - 1] == pairs[i]);
        assert("\n"@ + pairs[0].0 + "="@ + pairs[0].1
                + (pairs_text(pairs.drop_first().take(i - 1)) + ("\n"@ + pairs[i].0 + "="@ + pairs[i].1))
            =~= ("\n"@ + pairs[0].0 + "="@ + pairs[0].1 + pairs_text(pairs.drop_first().take(i - 1)))
                + ("\n"@ + pairs[i].0 + "="@ + pairs[i].1));
    }
}

/// Writing one more category appends its block, after a blank line
/// for every block but the first.
pub proof fn lemma_cats_text_take_step(cs: Seq<CatView>, i: int)
    requires
        0 <= i < cs.len(),
    ensures
        cats_text(cs.take(i + 1)) == cats_text(cs.take(i))
            + (if i == 0 { cat_text(cs[0]) } else { "\n\n"@ + cat_text(cs[i]) }),
    decreases i,
{
    if i == 0 {
        reveal_with_fuel(cats_text, 2);
        assert(cs.take(0) =~= Seq::<CatView>::empty());
        assert(cs.take(1)[0] == cs[0]);
        assert(cs.take(1).len() == 1);
        assert(cats_text(cs.take(0)) + cat_text(cs[0]) =~= cat_text(cs.take(1)[0]));
    } else {
        lemma_cats_text_take_step(cs.drop_first(), i - 1);
        assert(cs.take(i + 1).drop_first() =~= cs.drop_first().take(i));
        assert(cs.take(i).drop_first() =~= cs.drop_first().take(i - 1));
        assert(cs.take(i + 1)[0] == cs[0]);
        assert(cs.take(i)[0] == cs[0]);
        assert(cs.drop_first()[i - 1] == cs[i]);
        assert(cs.take(i + 1).len() == i + 1);
        assert(cs.take(i).len() == i);
        if i == 1 {
            assert(cats_text(cs.take(1)) == cat_text(cs[0]));
            assert(cats_text(cs.drop_first().take(1)) == cat_text(cs.drop_first()[0]));
            assert(cat_text(cs[0]) + "\n\n"@ + cats_text(cs.drop_first().take(1))
                =~= cats_text(cs.take(1)) + ("\n\n"@ + cat_text(cs[1])));
        } else {
            assert(cats_text(cs.take(i)) == cat_text(cs[0]) + "\n\n"@ + cats_text(cs.drop_first().take(i - 1)));
            assert(cat_text(cs[0]) + "\n\n"@
                    + (cats_text(cs.drop_first().take(i - 1)) + ("\n\n"@ + cat_text(cs[i])))
                =~= (cat_text(cs[0]) + "\n\n"@ + cats_text(cs.drop_first().take(i - 1)))
                    + ("\n\n"@ + cat_text(cs[i])));
        }
    }
}

/// The first position at or after `i` whose character is not
/// white-space; the length when none is.
pub open spec fn ws_prefix_end(s: Seq<char>, i: int) -> int
    decreases s.len() - i,
{
    if 0 <= i < s.len() && char_is_whitespace(s[i]) {
        ws_prefix_end(s, i + 1)
    } else {
        i
    }
}

/// The position after the last non-white-space character at or before
/// `j`, never moving below `lo`.
pub open spec fn ws_suffix_start(s: Seq<char>, j: int, lo: int) -> int
    decreases j,
{
    if j > lo && 0 <= j - 1 < s.len() && char_is_whitespace(s[j - 1]) {
        ws_suffix_start(s, j - 1, lo)
    } else {
        j
    }
}

/// The line without its leading and trailing white-space.
pub open spec fn trim_view(s: Seq<char>) -> Seq<char> {
    s.subrange(ws_prefix_end(s, 0), ws_suffix_start(s, s.len() as int, ws_prefix_end(s, 0)))
}

/// The position of the first `=` in the line, if it holds one.
pub open spec fn first_eq(t: Seq<char>) -> Option<int>
    decreases t,
{
    if t.len() == 0 {
        None
    } else if t[0] == '=' {
        Some(0)
    } else {
        match first_eq(t.drop_first()) {
            Some(i) => Some(i + 1),
            None => None,
        }
    }
}

/// A found `=` lies within the line and nothing before it is one.
pub proof fn lemma_first_eq(t: Seq<char>)
    ensures
        match first_eq(t) {
            Some(i) => 0 <= i < t.len() && t[i] == '='
                && forall|m: int| 0 <= m < i ==> t[m] != '=',
            None => forall|m: int| 0 <= m < t.len() ==> t[m] != '=',
        },
    decreases t.len(),
{
    if t.len() > 0 && t[0] != '=' {
        lemma_first_eq(t.drop_first());
        assert forall|m: int| 1 <= m < t.len() implies t[m] == t.drop_first()[m - 1] by {
            assert(t.drop_first()[m - 1] == t[m]);
        }
    }
}

/// What one line does to the reader's state: kept with the state moved
/// on, or rejected as the offending line.
pub ghost enum LineStep {
    Keep(Seq<CatView>, Option<CatView>),
    Reject(Seq<char>),
}

/// One line of the reader, against the categories finished so far and
/// the open one: a blank line changes nothing; `[name]` finishes the
/// open category and opens a fresh one; `key=value` adds a pair to the
/// open category, or to a nameless one when none is open; any other
/// line, and any reserved name, is rejected.
pub open spec fn line_step(line: Seq<char>, cats: Seq<CatView>, current: Option<CatView>) -> LineStep {
    let t = trim_view(line);
    if t.len() == 0 {
        LineStep::Keep(cats, current)
    } else if t[0] == '[' && t[t.len() - 1] == ']' {
        let name = trim_view(t.subrange(1, t.len() - 1));
        if name == UNAVAILABLE_PROPERTY_PLACEHOLDER@ {
            LineStep::Reject(line)
        } else {
            LineStep::Keep(cats + flushed(current), Some(CatView { name, pairs: Seq::empty() }))
        }
    } else {
        match first_eq(t) {
            Some(k) => {
                let key = trim_view(t.take(k));
                if key == UNAVAILABLE_PROPERTY_PLACEHOLDER@ {
                    LineStep::Reject(line)
                } else {
                    let value = t.skip(k + 1);
                    match current {
                        Some(c) => LineStep::Keep(cats, Some(CatView { name: c.name, pairs: c.pairs.push((key, value)) })),
                        None => LineStep::Keep(cats, Some(CatView { name: Seq::empty(), pairs: seq![(key, value)] })),
                    }
                }
            },
            None => LineStep::Reject(line),
        }
    }
}

/// The whole reader: what the text from `pos` on, with the line under
/// way beginning at `line_start`, makes of the state. Every `\n` or
/// `\r` ends a line; the end of the text ends the last line and then
/// the open category.
pub open spec fn ini_scan(text: Seq<char>, pos: int, line_start: int, cats: Seq<CatView>, current: Option<CatView>) -> IniOut
    decreases text.len() - pos,
{
    if pos < 0 || pos >= text.len() {
        match line_step(text.subrange(line_start, text.len() as int), cats, current) {
            LineStep::Keep(c2, cur2) => IniOut::Done(c2 + flushed(cur2)),
            LineStep::Reject(l) => IniOut::Bad(l),
        }
    } else if is_line_break(text[pos]) {
        match line_step(text.subrange(line_start, pos), cats, current) {
            LineStep::Keep(c2, cur2) => ini_scan(text, pos + 1, pos + 1, c2, cur2),
            LineStep::Reject(l) => IniOut::Bad(l),
        }
    } else {
        ini_scan(text, pos + 1, line_start, cats, current)
    }
}

/// The reader's outcome: the categories in order, or the first line it
/// could not place.
pub ghost enum IniOut {
    Done(Seq<CatView>),
    Bad(Seq<char>),
}

/// A parsed ini document: its categories in order. The reader is
/// line-oriented: empty lines are skipped, `[name]` opens a category,
/// and `key=value` adds a pair to the open one; values are kept as
/// they stand.
pub struct IniCore {
    pub data: Vec<IniCategory>,
}

impl IniCore {
    /// Read a document from its text: exactly the categories the
    /// line-by-line reader `ini_scan` makes of it, or the first line
    /// it cannot place.
    pub fn from_contents(contents: &str) -> (r: Result<IniCore, IniError>)
        ensures
            ({
                let out = ini_scan(contents@, 0, 0, Seq::empty(), None);
                &&& (r is Ok <==> out is Done)
                &&& (r is Ok ==> cat_views(r->Ok_0.data@) == out->Done_0)
                &&& (r is Err ==> out is Bad && r->Err_0.line@ == out->Bad_0)
            }),
    {
        match Self::parse_contents(contents) {
            Ok(data) => Ok(IniCore { data }),
            Err(e) => Err(e),
        }
    }

    /// The categories this document holds.
    pub fn categories(&self) -> (r: &Vec<IniCategory>)
        ensures
            r == &self.data,
    {
        &self.data
    }

    /// The first category with this name, if the document holds one.
    pub fn category(&self, target_name: &str) -> (r: Option<&IniCategory>)
        ensures
            r is Some <==> first_category_with(self.data@, target_name@) is Some,
            r is Some ==> *(r->0) == self.data@[first_category_with(self.data@, target_name@)->0],
            r is None ==> forall|i: int| 0 <= i < self.data@.len()
                ==> (#[trigger] self.data@[i]).name@ != target_name@,
    {
        let wanted: String = String::from_str(target_name);
        let mut i: usize = 0;
        proof {
            lemma_first_category_with(self.data@, target_name@);
        }
        while i < self.data.len()
            invariant
                i <= self.data@.len(),
                wanted@ == target_name@,
                forall|m: int| 0 <= m < i ==> (#[trigger] self.data@[m]).name@ != target_name@,
            decreases self.data@.len() - i,
        {
            if self.data[i].name.eq(&wanted) {
                proof {
                    lemma_first_category_with(self.data@, target_name@);
                    assert(self.data@[i as int].name@ == target_name@);
                    assert(first_category_with(self.data@, target_name@) == Some(i as int));
                }
                return Some(&self.data[i]);
            }
            i += 1;
        }
        proof {
            lemma_first_category_with(self.data@, target_name@);
        }
        None
    }

    /// Split `contents` into lines on `\n` and `\r`, and fold the lines
    /// into categories: a blank line is skipped, `[name]` opens a new
    /// category, `key=value` adds a pair to the open one (or to an
    /// unnamed category when none is open yet), and anything else is
    /// the error. Names equal to the reserved placeholder are refused
    /// as unsupported lines.
    pub fn parse_contents(contents: &str) -> (r: Result<Vec<IniCategory>, IniError>)
        ensures
            ({
                let out = ini_scan(contents@, 0, 0, Seq::empty(), None);
                &&& (r is Ok <==> out is Done)
                &&& (r is Ok ==> cat_views(r->Ok_0@) == out->Done_0)
                &&& (r is Err ==> out is Bad && r->Err_0.line@ == out->Bad_0)
            }),
    {
        let n: usize = contents.unicode_len();
        let reserved: String = String::from_str(UNAVAILABLE_PROPERTY_PLACEHOLDER);
        let mut categories: Vec<IniCategory> = Vec::new();
        let mut current: Option<IniCategory> = None;
        let mut line_start: usize = 0;
        let mut pos: usize = 0;
        proof {
            assert(cat_views(categories@) =~= Seq::<CatView>::empty());
        }
        while pos < n
            invariant
                pos <= n,
                line_start <= pos,
                n == contents@.len(),
                reserved@ == UNAVAILABLE_PROPERTY_PLACEHOLDER@,
                ini_scan(contents@, 0, 0, Seq::empty(), None)
                    == ini_scan(contents@, pos as int, line_start as int, cat_views(categories@), opt_cat_view(current)),
            decreases n - pos,
        {
            let c: char = contents.get_char(pos);
            if c == '\n' || c == '\r' {
                let line: &str = contents.substring_char(line_start, pos);
                match Self::take_line(line, &reserved, &mut categories, &mut current) {
                    Ok(()) => {},
                    Err(e) => {
                        return Err(e);
                    },
                }
                line_start = pos + 1;
            }
            pos += 1;
        }
        let last_line: &str = contents.substring_char(line_start, n);
        match Self::take_line(last_line, &reserved, &mut categories, &mut current) {
            Ok(()) => {},
            Err(e) => {
                return Err(e);
            },
        }
        let ghost cats_end = cat_views(categories@);
        let ghost cur_end = opt_cat_view(current);
        match current {
            Some(cat) => {
                categories.push(cat);
                proof {
                    assert(cat_views(categories@) =~= cats_end + flushed(cur_end));
                }
            },
            None => {
                proof {
                    assert(cat_views(categories@) =~= cats_end + flushed(cur_end));
                }
            },
        }
        Ok(categories)
    }

    /// Fold one line into the categories gathered so far, exactly as
    /// `line_step` reads it.
    fn take_line(line: &str, reserved: &String, categories: &mut Vec<IniCategory>, current: &mut Option<IniCategory>) -> (r: Result<(), IniError>)
        requires
            reserved@ == UNAVAILABLE_PROPERTY_PLACEHOLDER@,
        ensures
            match line_step(line@, cat_views(old(categories)@), opt_cat_view(*old(current))) {
                LineStep::Keep(c2, u2) => r is Ok
                    && cat_views(final(categories)@) == c2
                    && opt_cat_view(*final(current)) == u2,
                LineStep::Reject(l) => r is Err && r->Err_0.line@ == l
                    && final(categories)@ == old(categories)@
                    && *final(current) == *old(current),
            },
    {
        let trimmed: &str = Self::trim(line);
        let m: usize = trimmed.unicode_len();
        if m == 0 {
            return Ok(());
        }
        if trimmed.get_char(0) == '[' && trimmed.get_char(m - 1) == ']' {
            let name: &str = Self::trim(trimmed.substring_char(1, m - 1));
            let name_string: String = String::from_str(name);
            if name_string.eq(reserved) {
                return Err(IniError { line: String::from_str(line) });
            }
            let ghost cats0 = cat_views(categories@);
            let opened: Option<IniCategory> = current.take();
            match opened {
                Some(cat) => {
                    categories.push(cat);
                    proof {
                        assert(cat_views(categories@) =~= cats0 + flushed(opt_cat_view(*old(current))));
                    }
                },
                None => {
                    proof {
                        assert(cat_views(categories@) =~= cats0 + flushed(opt_cat_view(*old(current))));
                    }
                },
            }
            *current = Some(IniCategory::new(name));
            proof {
                assert(opt_cat_view(*current)->0.pairs =~= Seq::<(Seq<char>, Seq<char>)>::empty());
                assert(opt_cat_view(*current)->0 =~= (CatView { name: name@, pairs: Seq::empty() }));
            }
            return Ok(());
        }
        let mut split: Option<usize> = None;
        let mut k: usize = 0;
        while k < m && split.is_none()
            invariant
                k <= m,
                m == trimmed@.len(),
                split is None ==> forall|j: int| 0 <= j < k ==> trimmed@[j] != '=',
                split is Some ==> split->0 < m && first_eq(trimmed@) == Some(split->0 as int),
            decreases m - k + (if split is Some { 0int } else { 1int }),
        {
            if trimmed.get_char(k) == '=' {
                proof {
                    lemma_first_eq(trimmed@);
                    assert(first_eq(trimmed@) == Some(k as int));
                }
                split = Some(k);
            } else {
                k += 1;
            }
        }
        proof {
            if split is None {
                lemma_first_eq(trimmed@);
            }
        }
        match split {
            Some(eq_pos) => {
                proof {
                    assert(trimmed@.subrange(0, eq_pos as int) =~= trimmed@.take(eq_pos as int));
                    assert(trimmed@.subrange(eq_pos + 1, m as int) =~= trimmed@.skip(eq_pos + 1));
                }
                let raw_name: &str = Self::trim(trimmed.substring_char(0, eq_pos));
                let value: &str = trimmed.substring_char(eq_pos + 1, m);
                let name_string: String = String::from_str(raw_name);
                if name_string.eq(reserved) {
                    return Err(IniError { line: String::from_str(line) });
                }
                let variable: IniVariable = IniVariable::new(raw_name, value);
                let opened: Option<IniCategory> = current.take();
                match opened {
                    Some(mut cat) => {
                        let ghost pairs_before = pair_views(cat.data@);
                        cat.data.push(variable);
                        proof {
                            assert(pair_views(cat.data@) =~= pairs_before.push((raw_name@, value@)));
                        }
                        *current = Some(cat);
                    },
                    None => {
                        proof {
                            reveal_strlit("");
                            reveal_strlit("UNAVAILABLE_PROPERTY_ERROR");
                            assert(""@.len() == 0);
                            assert(UNAVAILABLE_PROPERTY_PLACEHOLDER@.len() == 26);
                        }
                        let mut cat: IniCategory = IniCategory::new("");
                        cat.data.push(variable);
                        proof {
                            assert(pair_views(cat.data@) =~= seq![(raw_name@, value@)]);
                            assert(cat.name@ =~= Seq::<char>::empty());
                        }
                        *current = Some(cat);
                    },
                }
                Ok(())
            },
            None => Err(IniError { line: String::from_str(line) }),
        }
    }

    /// The line without leading and trailing white-space.
    fn trim(line: &str) -> (r: &str)
        ensures
            r@ == trim_view(line@),
    {
        let n: usize = line.unicode_len();
        let mut lo: usize = 0;
        while lo < n && is_whitespace_char(line.get_char(lo))
            invariant
                lo <= n,
                n == line@.len(),
                ws_prefix_end(line@, 0) == ws_prefix_end(line@, lo as int),
            decreases n - lo,
        {
            lo += 1;
        }
        proof {
            assert(ws_prefix_end(line@, lo as int) == lo);
        }
        let mut hi: usize = n;
        while hi > lo && is_whitespace_char(line.get_char(hi - 1))
            invariant
                lo <= hi <= n,
                n == line@.len(),
                ws_prefix_end(line@, 0) == lo,
                ws_suffix_start(line@, n as int, lo as int) == ws_suffix_start(line@, hi as int, lo as int),
            decreases hi,
        {
            hi -= 1;
        }
        proof {
            assert(ws_suffix_start(line@, hi as int, lo as int) == hi);
        }
        line.substring_char(lo, hi)
    }

    /// The document as ini text: each category's block in order,
    /// separated by blank lines.
    pub fn to_string_encoded_values(&self) -> (r: String)
        ensures
            r@ == cats_text(cat_views(self.data@)),
    {
        let ghost cs = cat_views(self.data@);
        let mut out: String = String::new();
        let mut i: usize = 0;
        proof {
            assert(cats_text(cs.take(0)) =~= Seq::<char>::empty());
            assert(out@ =~= cats_text(cs.take(0)));
        }
        while i < self.data.len()
            invariant
                i <= self.data@.len(),
                cs == cat_views(self.data@),
                cs.len() == self.data@.len(),
                out@ == cats_text(cs.take(i as int)),
            decreases self.data@.len() - i,
        {
            proof {
                lemma_cats_text_take_step(cs, i as int);
                assert(cs[i as int] == cat_view(self.data@[i as int]));
            }
            if i > 0 {
                out.append("\n\n");
            }
            let block: String = self.data[i].to_text();
            out.append(block.as_str());
            proof {
                assert(out@ =~= cats_text(cs.take(i + 1)));
            }
            i += 1;
        }
        proof {
            assert(cs.take(cs.len() as int) =~= cs);
        }
        out
    }
}

} // verus!
