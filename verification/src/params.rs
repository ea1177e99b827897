//! The parameters written inside the crate's attributes
//! (`#[nwg_control(text: "Hi", size: (10, 10))]`), and the fields they sit on.
//!
//! Expressions are kept as the text they were written as, together with the
//! few facts the logic reads from them (is it a path, an integer literal, a
//! string literal).

use vstd::prelude::*;
use crate::text::{from_str, text_eq};

verus! {

/// One segment of a path (`a` in `a::b<T>`).
pub struct PathSegment {
    pub ident: String,
    /// `true` when the segment carries generic or parenthesized arguments.
    pub has_arguments: bool,
}

/// A path as in `a::b::c`.
pub struct PathModel {
    pub leading_colon: bool,
    pub segments: Vec<PathSegment>,
}

/// What the logic reads from an expression.
pub enum ExprKind {
    /// A path expression.
    Path(PathModel),
    /// An integer literal; `None` when its digits do not fit in a `u32`.
    Int(Option<u32>),
    /// A string literal, by its value.
    Str(String),
    /// Anything else.
    Other,
}

/// An expression: what it is, and the source text it stands for.
pub struct ParamExpr {
    pub kind: ExprKind,
    pub text: String,
}

/// `name: value` inside an attribute.
pub struct Param {
    pub name: String,
    pub value: ParamExpr,
}

/// An attribute on a field (or on the struct itself).
pub struct AttrInfo {
    /// The attribute's name when its path is a single identifier.
    pub name: Option<String>,
    /// The attribute read as a list of parameters: an empty list for an
    /// attribute without a list, the parse error message otherwise.
    pub params: Result<Vec<Param>, String>,
    /// The attribute read as event definitions, or the parse error message.
    pub events: Result<Vec<CallbackDefinition>, String>,
    /// The attribute read as shortcut definitions, or the parse error message.
    pub shortcuts: Result<Vec<ShortcutDefinition>, String>,
}

/// A callback in an event or shortcut attribute: `path` or `path(ARG, ..)`.
pub struct CallbackFunction {
    pub path: PathModel,
    /// The path as written.
    pub path_text: String,
    /// The argument keywords, when the call has parentheses.
    pub args: Option<Vec<String>>,
}

/// `(TARGETS,*)? EVENTS: [CALLBACKS,*]` inside `#[nwg_events(..)]`.
pub struct CallbackDefinition {
    /// The target expressions, as written.
    pub field_names: Option<Vec<String>>,
    pub callback_ids: Vec<String>,
    pub callbacks: Vec<CallbackFunction>,
}

/// `(TARGETS,*)? KEYS: [CALLBACKS,*]` inside `#[nwg_shortcuts(..)]`; each
/// key combination is the list of identifiers joined by `+`.
pub struct ShortcutDefinition {
    pub field_names: Option<Vec<String>>,
    pub key_combos: Vec<Vec<String>>,
    pub callbacks: Vec<CallbackFunction>,
}

/// A named field of the user's struct.
pub struct FieldInfo {
    pub ident: String,
    /// The last segment of the field's type when that type is a path.
    pub ty_ident: Option<String>,
    pub attrs: Vec<AttrInfo>,
}

impl PathSegment {
    pub open spec fn same(self, other: PathSegment) -> bool {
        self.ident@ == other.ident@ && self.has_arguments == other.has_arguments
    }

    pub fn duplicate(&self) -> (r: PathSegment)
        ensures
            r.same(*self),
    {
        PathSegment { ident: self.ident.clone(), has_arguments: self.has_arguments }
    }
}

impl PathModel {
    /// The last segment's identifier, if any.
    pub open spec fn last_ident(self) -> Option<Seq<char>> {
        if self.segments@.len() == 0 {
            None
        } else {
            Some(self.segments@.last().ident@)
        }
    }

    /// `Path::get_ident`: the identifier of a path made of one plain segment.
    pub open spec fn single_ident(self) -> Option<Seq<char>> {
        if !self.leading_colon && self.segments@.len() == 1 && !self.segments@[0].has_arguments {
            Some(self.segments@[0].ident@)
        } else {
            None
        }
    }

    pub open spec fn same(self, other: PathModel) -> bool {
        &&& self.leading_colon == other.leading_colon
        &&& self.segments@.len() == other.segments@.len()
        &&& forall|i: int| 0 <= i < self.segments@.len() ==> (#[trigger] self.segments@[i]).same(other.segments@[i])
    }

    pub fn last_ident_exec(&self) -> (r: Option<&String>)
        ensures
            match r {
                Some(s) => self.last_ident() == Some(s@),
                None => self.last_ident() is None,
            },
    {
        let n = self.segments.len();
        if n == 0 {
            None
        } else {
            Some(&self.segments[n - 1].ident)
        }
    }

    pub fn single_ident_exec(&self) -> (r: Option<&String>)
        ensures
            match r {
                Some(s) => self.single_ident() == Some(s@),
                None => self.single_ident() is None,
            },
    {
        if !self.leading_colon && self.segments.len() == 1 && !self.segments[0].has_arguments {
            Some(&self.segments[0].ident)
        } else {
            None
        }
    }

    pub fn duplicate(&self) -> (r: PathModel)
        ensures
            r.same(*self),
    {
        let mut segments: Vec<PathSegment> = Vec::new();
        let mut i: usize = 0;
        while i < self.segments.len()
            invariant
                i <= self.segments@.len(),
                segments@.len() == i,
                forall|j: int| 0 <= j < i ==> (#[trigger] segments@[j]).same(self.segments@[j]),
            decreases self.segments@.len() - i,
        {
            segments.push(self.segments[i].duplicate());
            i = i + 1;
        }
        PathModel { leading_colon: self.leading_colon, segments }
    }
}

impl ExprKind {
    pub open spec fn same(self, other: ExprKind) -> bool {
        match (self, other) {
            (ExprKind::Path(a), ExprKind::Path(b)) => a.same(b),
            (ExprKind::Int(a), ExprKind::Int(b)) => a == b,
            (ExprKind::Str(a), ExprKind::Str(b)) => a@ == b@,
            (ExprKind::Other, ExprKind::Other) => true,
            _ => false,
        }
    }

    pub fn duplicate(&self) -> (r: ExprKind)
        ensures
            r.same(*self),
    {
        match self {
            ExprKind::Path(p) => ExprKind::Path(p.duplicate()),
            ExprKind::Int(v) => ExprKind::Int(*v),
            ExprKind::Str(s) => ExprKind::Str(s.clone()),
            ExprKind::Other => ExprKind::Other,
        }
    }
}

impl ParamExpr {
    pub open spec fn same(self, other: ParamExpr) -> bool {
        self.kind.same(other.kind) && self.text@ == other.text@
    }

    /// The last segment of a path expression.
    pub open spec fn path_last(self) -> Option<Seq<char>> {
        match self.kind {
            ExprKind::Path(p) => p.last_ident(),
            _ => None,
        }
    }

    pub fn duplicate(&self) -> (r: ParamExpr)
        ensures
            r.same(*self),
    {
        ParamExpr { kind: self.kind.duplicate(), text: self.text.clone() }
    }

    /// An expression that is only text (built by this crate).
    pub fn code(text: String) -> (r: ParamExpr)
        ensures
            r.kind is Other,
            r.text@ == text@,
    {
        ParamExpr { kind: ExprKind::Other, text }
    }
}

impl Param {
    pub open spec fn same(self, other: Param) -> bool {
        self.name@ == other.name@ && self.value.same(other.value)
    }

    pub fn duplicate(&self) -> (r: Param)
        ensures
            r.same(*self),
    {
        Param { name: self.name.clone(), value: self.value.duplicate() }
    }
}

pub open spec fn same_params(a: Seq<Param>, b: Seq<Param>) -> bool {
    a.len() == b.len() && forall|i: int| 0 <= i < a.len() ==> (#[trigger] a[i]).same(b[i])
}

pub fn duplicate_params(ps: &Vec<Param>) -> (r: Vec<Param>)
    ensures
        same_params(r@, ps@),
{
    let mut out: Vec<Param> = Vec::new();
    let mut i: usize = 0;
    while i < ps.len()
        invariant
            i <= ps@.len(),
            out@.len() == i,
            forall|j: int| 0 <= j < i ==> (#[trigger] out@[j]).same(ps@[j]),
        decreases ps@.len() - i,
    {
        out.push(ps[i].duplicate());
        i = i + 1;
    }
    out
}

impl AttrInfo {
    /// `attr.path().is_ident(name)`.
    pub open spec fn is(self, name: Seq<char>) -> bool {
        match self.name {
            Some(n) => n@ == name,
            None => false,
        }
    }

    pub fn is_exec(&self, name: &str) -> (r: bool)
        ensures
            r == self.is(name@),
    {
        match &self.name {
            Some(n) => text_eq(n.as_str(), name),
            None => false,
        }
    }
}

/// Index of the first attribute named `name`.
pub open spec fn first_attr(attrs: Seq<AttrInfo>, name: Seq<char>) -> Option<int>
    decreases attrs.len(),
{
    if attrs.len() == 0 {
        None
    } else if attrs[0].is(name) {
        Some(0)
    } else {
        match first_attr(attrs.drop_first(), name) {
            Some(i) => Some(i + 1),
            None => None,
        }
    }
}

pub proof fn lemma_first_attr(attrs: Seq<AttrInfo>, name: Seq<char>)
    ensures
        match first_attr(attrs, name) {
            Some(i) => 0 <= i < attrs.len() && attrs[i].is(name) && forall|j: int| 0 <= j < i ==> !(#[trigger] attrs[j]).is(name),
            None => forall|j: int| 0 <= j < attrs.len() ==> !(#[trigger] attrs[j]).is(name),
        },
    decreases attrs.len(),
{
    if attrs.len() > 0 {
        lemma_first_attr(attrs.drop_first(), name);
        if !attrs[0].is(name) {
            assert forall|j: int| 1 <= j < attrs.len() implies attrs[j] == attrs.drop_first()[j - 1] by {}
        }
    }
}

/// Finds the first attribute named `name`.
pub fn find_attr(attrs: &Vec<AttrInfo>, name: &str) -> (r: Option<usize>)
    ensures
        match r {
            Some(i) => first_attr(attrs@, name@) == Some(i as int),
            None => first_attr(attrs@, name@) is None,
        },
{
    proof {
        lemma_first_attr(attrs@, name@);
    }
    let mut i: usize = 0;
    while i < attrs.len()
        invariant
            i <= attrs@.len(),
            forall|j: int| 0 <= j < i ==> !(#[trigger] attrs@[j]).is(name@),
            match first_attr(attrs@, name@) {
                Some(k) => 0 <= k < attrs@.len() && attrs@[k].is(name@) && forall|j: int| 0 <= j < k ==> !(#[trigger] attrs@[j]).is(name@),
                None => forall|j: int| 0 <= j < attrs@.len() ==> !(#[trigger] attrs@[j]).is(name@),
            },
        decreases attrs@.len() - i,
    {
        if attrs[i].is_exec(name) {
            return Some(i);
        }
        i = i + 1;
    }
    None
}

/// The parameters of an attribute.
pub fn attr_params(attr: &AttrInfo) -> (r: Result<Vec<Param>, String>)
    ensures
        match (r, attr.params) {
            (Ok(a), Ok(b)) => same_params(a@, b@),
            (Err(a), Err(b)) => a@ == b@,
            _ => false,
        },
{
    match &attr.params {
        Ok(ps) => Ok(duplicate_params(ps)),
        Err(e) => Err(e.clone()),
    }
}

/// Parameters other than `ty` and `nested`, which are read by the macro
/// itself and never handed to the builder.
pub open spec fn builder_params(ps: Seq<Param>) -> Seq<Param> {
    ps.filter(|p: Param| p.name@ != "ty"@ && p.name@ != "nested"@)
}

/// Splits the builder parameters into names and values.
pub fn split_builder_params(ps: &Vec<Param>) -> (r: (Vec<String>, Vec<ParamExpr>))
    ensures
        r.0@.len() == builder_params(ps@).len(),
        r.1@.len() == builder_params(ps@).len(),
        forall|i: int| 0 <= i < r.0@.len() ==> (#[trigger] r.0@[i])@ == builder_params(ps@)[i].name@,
        forall|i: int| 0 <= i < r.1@.len() ==> (#[trigger] r.1@[i]).same(builder_params(ps@)[i].value),
{
    let ghost f = |q: Param| q.name@ != "ty"@ && q.name@ != "nested"@;
    let mut names: Vec<String> = Vec::new();
    let mut values: Vec<ParamExpr> = Vec::new();
    let mut i: usize = 0;
    while i < ps.len()
        invariant
            i <= ps@.len(),
            f == (|q: Param| q.name@ != "ty"@ && q.name@ != "nested"@),
            names@.len() == builder_params(ps@.take(i as int)).len(),
            values@.len() == names@.len(),
            forall|k: int| 0 <= k < names@.len() ==> (#[trigger] names@[k])@ == builder_params(ps@.take(i as int))[k].name@,
            forall|k: int| 0 <= k < values@.len() ==> (#[trigger] values@[k]).same(builder_params(ps@.take(i as int))[k].value),
        decreases ps@.len() - i,
    {
        let p = &ps[i];
        let ghost pre = ps@.take(i as int);
        assert(ps@.take(i + 1) =~= pre.push(*p));
        proof {
            pre.lemma_filter_push(*p, f);
        }
        if !text_eq(p.name.as_str(), "ty") && !text_eq(p.name.as_str(), "nested") {
            names.push(p.name.clone());
            values.push(p.value.duplicate());
        }
        i = i + 1;
    }
    assert(ps@.take(ps@.len() as int) =~= ps@);
    (names, values)
}

/// The characters of each string.
pub open spec fn views(v: Seq<String>) -> Seq<Seq<char>> {
    v.map_values(|s: String| s@)
}

/// The characters of an optional string.
pub open spec fn opt_view(o: Option<String>) -> Option<Seq<char>> {
    match o {
        Some(s) => Some(s@),
        None => None,
    }
}

/// The characters of each string of an optional list.
pub open spec fn opt_views_of(o: Option<Vec<String>>) -> Option<Seq<Seq<char>>> {
    match o {
        Some(v) => Some(views(v@)),
        None => None,
    }
}

/// Index of the first occurrence of `x`.
pub open spec fn first_index_of(s: Seq<Seq<char>>, x: Seq<char>) -> Option<int>
    decreases s.len(),
{
    if s.len() == 0 {
        None
    } else if s[0] == x {
        Some(0)
    } else {
        match first_index_of(s.drop_first(), x) {
            Some(i) => Some(i + 1),
            None => None,
        }
    }
}

pub proof fn lemma_first_index_of(s: Seq<Seq<char>>, x: Seq<char>)
    ensures
        match first_index_of(s, x) {
            Some(i) => 0 <= i < s.len() && s[i] == x && forall|j: int| 0 <= j < i ==> s[j] != x,
            None => forall|j: int| 0 <= j < s.len() ==> s[j] != x,
        },
    decreases s.len(),
{
    if s.len() > 0 {
        lemma_first_index_of(s.drop_first(), x);
        if s[0] != x {
            assert forall|j: int| 1 <= j < s.len() implies s[j] == s.drop_first()[j - 1] by {}
        }
    }
}

/// Finds the first name equal to `name` (`names.iter().position(..)`).
pub fn find_name(names: &Vec<String>, name: &str) -> (r: Option<usize>)
    ensures
        match r {
            Some(i) => first_index_of(views(names@), name@) == Some(i as int) && i < names@.len(),
            None => first_index_of(views(names@), name@) is None,
        },
{
    proof {
        lemma_first_index_of(views(names@), name@);
    }
    let mut i: usize = 0;
    while i < names.len()
        invariant
            i <= names@.len(),
            forall|j: int| 0 <= j < i ==> views(names@)[j] != name@,
            match first_index_of(views(names@), name@) {
                Some(k) => 0 <= k < names@.len() && views(names@)[k] == name@ && forall|j: int| 0 <= j < k ==> views(names@)[j] != name@,
                None => forall|j: int| 0 <= j < names@.len() ==> views(names@)[j] != name@,
            },
        decreases names@.len() - i,
    {
        if text_eq(names[i].as_str(), name) {
            assert(views(names@)[i as int] == name@);
            return Some(i);
        }
        assert(views(names@)[i as int] != name@);
        i = i + 1;
    }
    None
}

} // verus!
