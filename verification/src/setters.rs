//! The `Setters` derive: one builder-style setter per field, shaped by the
//! field's `#[setter(skip, into, strip_option, name = ..)]` attribute.

use vstd::prelude::*;
use crate::params::opt_view;
use crate::text::{from_str, push_str, text_eq};

verus! {

/// The type of a field, as far as setters look into it.
pub enum TypeModel {
    /// A path type, by its last segment and that segment's arguments.
    Path { text: String, last: String, args: PathArgs },
    /// Any other type (a reference, a tuple, ...).
    Other { text: String },
}

/// The arguments of the last segment of a path type.
pub enum PathArgs {
    Bare,
    /// `<..>`: the arguments read as one type, or why they are not one.
    Angle(Result<Box<TypeModel>, String>),
    /// `(..)`: the arguments of a function trait.
    Paren,
}

/// The options of a field's `#[setter(..)]` attribute.
pub struct SetterAttr {
    pub skip: bool,
    pub strip_option: bool,
    pub into: bool,
    pub name: Option<String>,
}

/// One item of a `#[setter(..)]` attribute: its path when it is a single
/// identifier, and for `name` the identifier after `=` (or why there is none).
pub struct SetterMeta {
    pub ident: Option<String>,
    pub name_value: Result<String, String>,
}

/// The item is the identifier `word`.
pub open spec fn meta_is(m: SetterMeta, word: Seq<char>) -> bool {
    m.ident matches Some(i) && i@ == word
}

/// The last `name = ..` item among the first `n`, if any.
pub open spec fn last_name(metas: Seq<SetterMeta>, n: int) -> Option<int>
    decreases n,
{
    if n <= 0 {
        None
    } else if meta_is(metas[n - 1], "name"@) {
        Some(n - 1)
    } else {
        last_name(metas, n - 1)
    }
}

/// The first `name` item among the first `n` whose value is not an
/// identifier, if any.
pub open spec fn first_bad_name(metas: Seq<SetterMeta>, n: int) -> Option<int>
    decreases n,
{
    if n <= 0 {
        None
    } else {
        match first_bad_name(metas, n - 1) {
            Some(i) => Some(i),
            None => if meta_is(metas[n - 1], "name"@) && metas[n - 1].name_value is Err {
                Some(n - 1)
            } else {
                None
            },
        }
    }
}

pub open spec fn any_meta(metas: Seq<SetterMeta>, word: Seq<char>) -> bool {
    exists|i: int| 0 <= i < metas.len() && meta_is(#[trigger] metas[i], word)
}

impl SetterAttr {
    /// The options without an attribute: none set.
    pub fn default_attr() -> (r: SetterAttr)
        ensures
            !r.skip && !r.strip_option && !r.into && r.name is None,
    {
        SetterAttr { skip: false, strip_option: false, into: false, name: None }
    }

    /// Reads the items of the attribute: each of
    /// `skip`, `strip_option`, `into` sets its option; `name = ident` sets the
    /// setter's name (the last one counts); the first `name` without an
    /// identifier fails with its message.
    pub fn parse_attr(metas: &Vec<SetterMeta>) -> (r: Result<SetterAttr, String>)
        ensures
            match first_bad_name(metas@, metas@.len() as int) {
                Some(i) => r matches Err(m) && metas@[i].name_value matches Err(e) && m@ == e@,
                None => r matches Ok(a) && {
                    &&& a.skip == any_meta(metas@, "skip"@)
                    &&& a.strip_option == any_meta(metas@, "strip_option"@)
                    &&& a.into == any_meta(metas@, "into"@)
                    &&& match last_name(metas@, metas@.len() as int) {
                        Some(i) => a.name matches Some(nm) && metas@[i].name_value matches Ok(v) && nm@ == v@,
                        None => a.name is None,
                    }
                },
            },
    {
        let mut this = SetterAttr::default_attr();
        let mut i: usize = 0;
        while i < metas.len()
            invariant
                i <= metas@.len(),
                first_bad_name(metas@, i as int) is None,
                this.skip == any_meta(metas@.take(i as int), "skip"@),
                this.strip_option == any_meta(metas@.take(i as int), "strip_option"@),
                this.into == any_meta(metas@.take(i as int), "into"@),
                match last_name(metas@, i as int) {
                    Some(k) => this.name matches Some(nm) && metas@[k].name_value matches Ok(v) && nm@ == v@,
                    None => this.name is None,
                },
            decreases metas@.len() - i,
        {
            let m = &metas[i];
            let ghost pre = metas@.take(i as int);
            let ghost next = metas@.take(i + 1);
            assert(next =~= pre.push(*m));
            let (is_skip, is_strip, is_into, is_name) = match &m.ident {
                Some(id) => (text_eq(id.as_str(), "skip"), text_eq(id.as_str(), "strip_option"), text_eq(id.as_str(), "into"), text_eq(id.as_str(), "name")),
                None => (false, false, false, false),
            };
            if is_skip {
                this.skip = true;
            }
            if is_strip {
                this.strip_option = true;
            }
            if is_into {
                this.into = true;
            }
            if is_name {
                match &m.name_value {
                    Ok(v) => {
                        this.name = Some(v.clone());
                    },
                    Err(e) => {
                        proof {
                            assert(first_bad_name(metas@, i + 1) == Some(i as int));
                            lemma_first_bad_stays(metas@, i + 1, metas@.len() as int);
                        }
                        return Err(e.clone());
                    },
                }
            }
            proof {
                assert(next[i as int] == *m);
                assert forall|w: Seq<char>| any_meta(next, w) == (any_meta(pre, w) || meta_is(*m, w)) by {
                    if any_meta(next, w) {
                        let j = choose|j: int| 0 <= j < next.len() && meta_is(#[trigger] next[j], w);
                        if j < i {
                            assert(pre[j] == next[j]);
                        }
                    }
                    if any_meta(pre, w) {
                        let j = choose|j: int| 0 <= j < pre.len() && meta_is(#[trigger] pre[j], w);
                        assert(next[j] == pre[j]);
                    }
                }
            }
            i = i + 1;
        }
        assert(metas@.take(metas@.len() as int) =~= metas@);
        Ok(this)
    }
}

proof fn lemma_first_bad_stays(metas: Seq<SetterMeta>, a: int, b: int)
    requires
        0 <= a <= b,
        first_bad_name(metas, a) is Some,
    ensures
        first_bad_name(metas, b) == first_bad_name(metas, a),
    decreases b - a,
{
    if a < b {
        lemma_first_bad_stays(metas, a, b - 1);
    }
}

/// The message for a field that is not an `Option`.
pub open spec fn not_option_message(field: Seq<char>, found: Option<Seq<char>>) -> Seq<char> {
    match found {
        Some(last) => "`"@ + field + "` must be type `Option` to use `strip_option`, found `"@ + last + "`"@,
        None => "`"@ + field + "` must be type `Option` to use `strip_option`"@,
    }
}

/// A type `strip_option` can read: an `Option` path carries its argument
/// in `<..>` (the derive stops on `Option(..)` and on a bare `Option`).
pub open spec fn strippable(ty: TypeModel) -> bool {
    match ty {
        TypeModel::Path { last, args, .. } => last@ == "Option"@ ==> args is Angle,
        TypeModel::Other { .. } => true,
    }
}

/// What `strip_option` gives for a field named `field` of type `ty`.
pub open spec fn strip_result(field: Seq<char>, ty: TypeModel, r: Result<TypeModel, String>) -> bool {
    match ty {
        TypeModel::Path { last, args, .. } => if last@ == "Option"@ {
            match args {
                PathArgs::Angle(Ok(inner)) => r == Ok::<TypeModel, String>(*inner),
                PathArgs::Angle(Err(e)) => r matches Err(m) && m@ == e@,
                _ => false,
            }
        } else {
            r matches Err(m) && m@ == not_option_message(field, Some(last@))
        },
        TypeModel::Other { .. } => r matches Err(m) && m@ == not_option_message(field, None),
    }
}

fn clone_type(ty: &TypeModel) -> (r: TypeModel)
    ensures
        r == *ty,
    decreases ty,
{
    match ty {
        TypeModel::Path { text, last, args } => {
            let a = match args {
                PathArgs::Bare => PathArgs::Bare,
                PathArgs::Paren => PathArgs::Paren,
                PathArgs::Angle(Ok(inner)) => PathArgs::Angle(Ok(Box::new(clone_type(&**inner)))),
                PathArgs::Angle(Err(e)) => PathArgs::Angle(Err(e.clone())),
            };
            TypeModel::Path { text: text.clone(), last: last.clone(), args: a }
        },
        TypeModel::Other { text } => TypeModel::Other { text: text.clone() },
    }
}

/// The type inside `Option<..>`; fails with a
/// message naming the field when the type is not an `Option`.
pub fn strip_option(field: &str, ty: &TypeModel) -> (r: Result<TypeModel, String>)
    requires
        strippable(*ty),
    ensures
        strip_result(field@, *ty, r),
{
    match ty {
        TypeModel::Path { last, args, .. } => {
            if text_eq(last.as_str(), "Option") {
                match args {
                    PathArgs::Angle(Ok(inner)) => Ok(clone_type(&**inner)),
                    PathArgs::Angle(Err(e)) => Err(e.clone()),
                    _ => {
                        assert(false);
                        Err(from_str(""))
                    },
                }
            } else {
                let mut m = from_str("`");
                push_str(&mut m, field);
                push_str(&mut m, "` must be type `Option` to use `strip_option`, found `");
                push_str(&mut m, last.as_str());
                push_str(&mut m, "`");
                Err(m)
            }
        },
        TypeModel::Other { .. } => {
            let mut m = from_str("`");
            push_str(&mut m, field);
            push_str(&mut m, "` must be type `Option` to use `strip_option`");
            Err(m)
        },
    }
}

/// The parameter type of a setter.
pub enum SetterParam {
    /// The field's type (or the type inside its `Option`).
    Plain(TypeModel),
    /// `C` with `C: Into<target>`.
    Into(TypeModel),
    /// `Option<C>` with `C: Into<target>`.
    OptionInto(TypeModel),
}

/// A setter to generate.
pub struct SetterField {
    pub field_ident: String,
    pub setter_ident: String,
    pub param: SetterParam,
    pub into: bool,
    pub strip_option: bool,
    pub is_option: bool,
}

/// A field of the struct: its name, its type, and its `#[setter]` options
/// (`None` without the attribute).
pub struct SetterFieldInfo {
    pub ident: String,
    pub ty: TypeModel,
    pub attr: Option<SetterAttr>,
}

/// The options of a field, defaults when it has no attribute.
pub open spec fn field_opts(f: SetterFieldInfo) -> (bool, bool, bool, Option<String>) {
    match f.attr {
        Some(a) => (a.skip, a.strip_option, a.into, a.name),
        None => (false, false, false, None),
    }
}

/// The field's types can be read as its options ask.
pub open spec fn field_strippable(f: SetterFieldInfo) -> bool {
    let (skip, strip, into, _) = field_opts(f);
    !skip ==> {
        &&& strip ==> strippable(f.ty)
        &&& into ==> (strip ==> forall|t: TypeModel| #[trigger] strip_result(f.ident@, f.ty, Ok(t)) ==> strippable(t))
        &&& (into && !strip) ==> strippable(f.ty)
    }
}

/// What reading a field gives: nothing for a
/// skipped field; else the setter, whose parameter is the field's type, or
/// the type inside its `Option` with `strip_option`; with `into`, a `C:
/// Into<..>` (inside an `Option` when that type is one itself); and whose
/// name is `name`, or the field's.
pub open spec fn field_result(f: SetterFieldInfo, r: Result<Option<SetterField>, String>) -> bool {
    let (skip, strip, into, name) = field_opts(f);
    if skip {
        r matches Ok(None)
    } else {
        let setter_name = match name {
            Some(n) => n@,
            None => f.ident@,
        };
        if strip && !(exists|t: TypeModel| #[trigger] strip_result(f.ident@, f.ty, Ok(t))) {
            r matches Err(m) && strip_result(f.ident@, f.ty, Err(m))
        } else {
            r matches Ok(Some(s)) && {
                &&& s.field_ident@ == f.ident@
                &&& s.setter_ident@ == setter_name
                &&& s.into == into
                &&& s.strip_option == strip
                &&& if into {
                    match s.param {
                        SetterParam::OptionInto(target) => s.is_option
                            && exists|t: TypeModel| #[trigger] base_type(f, t) && strip_result(f.ident@, t, Ok(target)),
                        SetterParam::Into(target) => !s.is_option && base_type(f, target)
                            && !(exists|u: TypeModel| #[trigger] strip_result(f.ident@, target, Ok(u))),
                        _ => false,
                    }
                } else {
                    !s.is_option && (s.param matches SetterParam::Plain(t) && base_type(f, t))
                }
            }
        }
    }
}

/// The type the setter starts from: the field's, or the one inside its
/// `Option` with `strip_option`.
pub open spec fn base_type(f: SetterFieldInfo, t: TypeModel) -> bool {
    let (_, strip, _, _) = field_opts(f);
    if strip {
        strip_result(f.ident@, f.ty, Ok(t))
    } else {
        t == f.ty
    }
}

proof fn lemma_strip_err(field: Seq<char>, ty: TypeModel, m: String)
    requires
        strip_result(field, ty, Err(m)),
    ensures
        !(exists|t: TypeModel| #[trigger] strip_result(field, ty, Ok(t))),
{
}

impl SetterField {
    /// Reads one field.
    pub fn parse_fields(f: &SetterFieldInfo) -> (r: Result<Option<SetterField>, String>)
        requires
            field_strippable(*f),
        ensures
            field_result(*f, r),
    {
        let (skip, strip, into, name) = match &f.attr {
            Some(a) => (a.skip, a.strip_option, a.into, match &a.name {
                Some(n) => Some(n.clone()),
                None => None,
            }),
            None => (false, false, false, None),
        };
        assert(opt_view(name) == opt_view(field_opts(*f).3));
        if skip {
            return Ok(None);
        }
        let ty = if strip {
            match strip_option(f.ident.as_str(), &f.ty) {
                Ok(t) => t,
                Err(m) => {
                    proof {
                        lemma_strip_err(f.ident@, f.ty, m);
                    }
                    return Err(m);
                },
            }
        } else {
            clone_type(&f.ty)
        };
        let ghost ty0 = ty;
        let (param, is_option) = if into {
            proof {
                if strip {
                    assert(strip_result(f.ident@, f.ty, Ok(ty0)));
                }
            }
            match strip_option(f.ident.as_str(), &ty) {
                Ok(inner) => (SetterParam::OptionInto(inner), true),
                Err(m) => {
                    proof {
                        lemma_strip_err(f.ident@, ty0, m);
                    }
                    (SetterParam::Into(ty), false)
                },
            }
        } else {
            (SetterParam::Plain(ty), false)
        };
        let setter_ident = match name {
            Some(n) => n,
            None => f.ident.clone(),
        };
        let s = SetterField { field_ident: f.ident.clone(), setter_ident, param, into, strip_option: strip, is_option };
        proof {
            assert(base_type(*f, ty0));
            if strip {
                assert(strip_result(f.ident@, f.ty, Ok(ty0)));
            }
            if into && s.param is OptionInto {
                let target = s.param->OptionInto_0;
                assert(base_type(*f, ty0) && strip_result(f.ident@, ty0, Ok(target)));
            }
        }
        Ok(Some(s))
    }
}

/// How the setter stores its argument (`ToTokens for SetterField`).
#[derive(PartialEq, Eq, Structural)]
pub enum StoredValue {
    /// The argument itself.
    Arg,
    /// `arg.into()`.
    Into,
    /// `arg.map(|x| x.into())`.
    MapInto,
}

impl SetterField {
    /// The value the setter stores, and whether it is wrapped in `Some`.
    pub fn stored_value(&self) -> (r: (StoredValue, bool))
        ensures
            r.0 == if self.into {
                if !self.strip_option && self.is_option {
                    StoredValue::MapInto
                } else {
                    StoredValue::Into
                }
            } else {
                StoredValue::Arg
            },
            r.1 == self.strip_option,
    {
        let v = if self.into {
            if !self.strip_option && self.is_option {
                StoredValue::MapInto
            } else {
                StoredValue::Into
            }
        } else {
            StoredValue::Arg
        };
        (v, self.strip_option)
    }
}

/// The setters of a struct.
pub struct SetterStruct {
    pub ident: String,
    pub fields: Vec<SetterField>,
}

/// The message for a type that is not a struct with named fields.
pub open spec fn not_struct_message(ident: Seq<char>) -> Seq<char> {
    "`"@ + ident + "` must be an Struct to derive `Setter`"@
}

/// The setters of the first `n` fields that are not skipped, in order.
pub open spec fn setters_of(fields: Seq<SetterFieldInfo>, n: int, out: Seq<SetterField>) -> bool
    decreases n,
{
    if n <= 0 {
        out.len() == 0
    } else {
        let (skip, _, _, _) = field_opts(fields[n - 1]);
        if skip {
            setters_of(fields, n - 1, out)
        } else {
            out.len() > 0 && field_result(fields[n - 1], Ok(Some(out.last()))) && setters_of(fields, n - 1, out.drop_last())
        }
    }
}

/// The first field among the first `n` that cannot be read.
pub open spec fn first_failing_field(fields: Seq<SetterFieldInfo>, n: int) -> Option<int>
    decreases n,
{
    if n <= 0 {
        None
    } else {
        match first_failing_field(fields, n - 1) {
            Some(i) => Some(i),
            None => if field_result(fields[n - 1], Ok(None)) || exists|s: SetterField| field_result(fields[n - 1], Ok(Some(s))) {
                None
            } else {
                Some(n - 1)
            },
        }
    }
}

impl SetterStruct {
    /// Reads the struct: `fields` is `None` for an
    /// enum, a union or a struct without named fields, which fails; else one
    /// setter per field that is not skipped, in order, or the first field's
    /// failure.
    pub fn parse(ident: &str, fields: &Option<Vec<SetterFieldInfo>>) -> (r: Result<SetterStruct, String>)
        requires
            fields matches Some(fs) ==> forall|i: int| 0 <= i < fs@.len() ==> field_strippable(#[trigger] fs@[i]),
        ensures
            match fields {
                None => (r matches Err(m) && m@ == not_struct_message(ident@)),
                Some(fs) => match first_failing_field(fs@, fs@.len() as int) {
                    Some(i) => r matches Err(m) && field_result(fs@[i], Err(m)),
                    None => r matches Ok(st) && st.ident@ == ident@ && setters_of(fs@, fs@.len() as int, st.fields@),
                },
            },
    {
        proof {
            if fields is Some {
                lemma_first_failing_bound(fields->Some_0@, fields->Some_0@.len() as int);
            }
        }
        let fs = match fields {
            Some(fs) => fs,
            None => {
                let mut m = from_str("`");
                push_str(&mut m, ident);
                push_str(&mut m, "` must be an Struct to derive `Setter`");
                return Err(m);
            },
        };
        let mut out: Vec<SetterField> = Vec::new();
        let mut i: usize = 0;
        while i < fs.len()
            invariant
                i <= fs@.len(),
                fields is Some,
                fields->Some_0 == *fs,
                forall|k: int| 0 <= k < fs@.len() ==> field_strippable(#[trigger] fs@[k]),
                first_failing_field(fs@, i as int) is None,
                setters_of(fs@, i as int, out@),
            decreases fs@.len() - i,
        {
            let ghost before = out@;
            match SetterField::parse_fields(&fs[i]) {
                Ok(Some(s)) => {
                    out.push(s);
                    proof {
                        assert(out@.drop_last() =~= before);
                    }
                },
                Ok(None) => {},
                Err(m) => {
                    proof {
                        assert(!field_result(fs@[i as int], Ok(None)));
                        assert forall|s: SetterField| !field_result(fs@[i as int], Ok(Some(s))) by {}
                        assert(first_failing_field(fs@, i + 1) == Some(i as int));
                        lemma_first_failing_stays(fs@, i + 1, fs@.len() as int);
                        assert(field_result(fs@[i as int], Err(m)));
                    }
                    return Err(m);
                },
            }
            i = i + 1;
        }
        Ok(SetterStruct { ident: from_str(ident), fields: out })
    }
}

proof fn lemma_first_failing_bound(fields: Seq<SetterFieldInfo>, n: int)
    ensures
        first_failing_field(fields, n) matches Some(i) ==> 0 <= i < n,
    decreases n,
{
    if n > 0 {
        lemma_first_failing_bound(fields, n - 1);
    }
}

proof fn lemma_first_failing_stays(fields: Seq<SetterFieldInfo>, a: int, b: int)
    requires
        0 <= a <= b,
        first_failing_field(fields, a) is Some,
    ensures
        first_failing_field(fields, b) == first_failing_field(fields, a),
    decreases b - a,
{
    if a < b {
        lemma_first_failing_stays(fields, a, b - 1);
    }
}

} // verus!
