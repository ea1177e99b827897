//! The fields the derive acts on: controls, resources, layouts and partials,
//! read from their attributes.

use vstd::prelude::*;
use crate::error::DeriveError;
use crate::flags::{expand_flags as expand_flags_text, expr_parse_error, flags_prefix, flags_text};
use crate::layouts::LayoutChild;
use crate::params::{builder_params, find_attr, find_name, first_attr, first_index_of, lemma_first_attr, same_params, split_builder_params, views, AttrInfo, ExprKind, FieldInfo, Param, ParamExpr};
use crate::text::{from_str, push_str, text_eq};

verus! {

/// Index of the first attribute named `a` or `b`.
pub open spec fn first_attr_either(attrs: Seq<AttrInfo>, a: Seq<char>, b: Seq<char>) -> Option<int>
    decreases attrs.len(),
{
    if attrs.len() == 0 {
        None
    } else if attrs[0].is(a) || attrs[0].is(b) {
        Some(0)
    } else {
        match first_attr_either(attrs.drop_first(), a, b) {
            Some(i) => Some(i + 1),
            None => None,
        }
    }
}

pub proof fn lemma_first_attr_either(attrs: Seq<AttrInfo>, a: Seq<char>, b: Seq<char>)
    ensures
        match first_attr_either(attrs, a, b) {
            Some(i) => 0 <= i < attrs.len() && (attrs[i].is(a) || attrs[i].is(b)),
            None => forall|j: int| 0 <= j < attrs.len() ==> !(#[trigger] attrs[j]).is(a) && !attrs[j].is(b),
        },
    decreases attrs.len(),
{
    if attrs.len() > 0 {
        lemma_first_attr_either(attrs.drop_first(), a, b);
        if !(attrs[0].is(a) || attrs[0].is(b)) {
            assert forall|j: int| 1 <= j < attrs.len() implies attrs[j] == attrs.drop_first()[j - 1] by {}
        }
    }
}

pub fn find_attr_either(attrs: &Vec<AttrInfo>, a: &str, b: &str) -> (r: Option<usize>)
    ensures
        match r {
            Some(i) => first_attr_either(attrs@, a@, b@) == Some(i as int) && i < attrs@.len(),
            None => first_attr_either(attrs@, a@, b@) is None,
        },
{
    let mut i: usize = 0;
    assert(attrs@.skip(0) =~= attrs@);
    while i < attrs.len()
        invariant
            i <= attrs@.len(),
            first_attr_either(attrs@, a@, b@) == match first_attr_either(attrs@.skip(i as int), a@, b@) {
                Some(k) => Some(k + i),
                None => None,
            },
        decreases attrs@.len() - i,
    {
        assert(attrs@.skip(i as int).drop_first() =~= attrs@.skip(i + 1));
        if attrs[i].is_exec(a) || attrs[i].is_exec(b) {
            assert(attrs@.skip(i as int)[0] == attrs@[i as int]);
            return Some(i);
        }
        i = i + 1;
    }
    assert(attrs@.skip(i as int).len() == 0);
    None
}

/// Some attribute is named `name`.
pub open spec fn has_attr(attrs: Seq<AttrInfo>, name: Seq<char>) -> bool {
    exists|i: int| 0 <= i < attrs.len() && (#[trigger] attrs[i]).is(name)
}

pub fn has_attr_exec(attrs: &Vec<AttrInfo>, name: &str) -> (r: bool)
    ensures
        r == has_attr(attrs@, name@),
{
    proof {
        lemma_first_attr(attrs@, name@);
    }
    find_attr(attrs, name).is_some()
}

/// Index of the first parameter called `name`.
pub open spec fn first_param(ps: Seq<Param>, name: Seq<char>) -> Option<int>
    decreases ps.len(),
{
    if ps.len() == 0 {
        None
    } else if ps[0].name@ == name {
        Some(0)
    } else {
        match first_param(ps.drop_first(), name) {
            Some(i) => Some(i + 1),
            None => None,
        }
    }
}

pub proof fn lemma_first_param(ps: Seq<Param>, name: Seq<char>)
    ensures
        match first_param(ps, name) {
            Some(i) => 0 <= i < ps.len() && ps[i].name@ == name && forall|j: int| 0 <= j < i ==> (#[trigger] ps[j]).name@ != name,
            None => forall|j: int| 0 <= j < ps.len() ==> (#[trigger] ps[j]).name@ != name,
        },
    decreases ps.len(),
{
    if ps.len() > 0 {
        lemma_first_param(ps.drop_first(), name);
        if ps[0].name@ != name {
            assert forall|j: int| 1 <= j < ps.len() implies ps[j] == ps.drop_first()[j - 1] by {}
        }
    }
}

pub fn find_param(ps: &Vec<Param>, name: &str) -> (r: Option<usize>)
    ensures
        match r {
            Some(i) => first_param(ps@, name@) == Some(i as int) && i < ps@.len(),
            None => first_param(ps@, name@) is None,
        },
{
    let mut i: usize = 0;
    assert(ps@.skip(0) =~= ps@);
    while i < ps.len()
        invariant
            i <= ps@.len(),
            first_param(ps@, name@) == match first_param(ps@.skip(i as int), name@) {
                Some(k) => Some(k + i),
                None => None,
            },
        decreases ps@.len() - i,
    {
        assert(ps@.skip(i as int).drop_first() =~= ps@.skip(i + 1));
        if text_eq(ps[i].name.as_str(), name) {
            assert(ps@.skip(i as int)[0] == ps@[i as int]);
            return Some(i);
        }
        i = i + 1;
    }
    assert(ps@.skip(i as int).len() == 0);
    None
}

/// The type named by a `ty: Name` parameter: the first
/// `ty` parameter, when it is a single identifier.
pub open spec fn type_attr(ps: Seq<Param>) -> Option<Seq<char>> {
    match first_param(ps, "ty"@) {
        Some(i) => match ps[i].value.kind {
            ExprKind::Path(p) => p.single_ident(),
            _ => None,
        },
        None => None,
    }
}

pub fn parse_type_attr(ps: &Vec<Param>) -> (r: Option<String>)
    ensures
        match r {
            Some(s) => type_attr(ps@) == Some(s@),
            None => type_attr(ps@) is None,
        },
{
    match find_param(ps, "ty") {
        Some(i) => match &ps[i].value.kind {
            ExprKind::Path(p) => match p.single_ident_exec() {
                Some(s) => Some(s.clone()),
                None => None,
            },
            _ => None,
        },
        None => None,
    }
}

/// The type of a field by its last path segment, or the error naming the
/// attribute that could have named it (`parse_type_clone` / `parse_type_borrow`).
pub fn field_type(field: &FieldInfo, attr: &str) -> (r: Result<String, DeriveError>)
    ensures
        match field.ty_ident {
            Some(t) => r matches Ok(s) && s@ == t@,
            None => r matches Err(DeriveError::UnknownFieldType { field: f, attr: a }) && f@ == field.ident@ && a@ == attr@,
        },
{
    match &field.ty_ident {
        Some(t) => Ok(t.clone()),
        None => Err(DeriveError::UnknownFieldType { field: field.ident.clone(), attr: from_str(attr) }),
    }
}

/// The layout item of a field, if it has one.
pub open spec fn prepared_layout_ok(field: FieldInfo, r: Result<Option<LayoutChild>, DeriveError>) -> bool {
    match first_attr(field.attrs@, "nwg_layout_item"@) {
        None => r matches Ok(None),
        Some(i) => match field.attrs@[i].params {
            Ok(ps) => r matches Ok(Some(LayoutChild::Init { field_name, params })) && field_name@ == field.ident@ && same_params(params@, ps@),
            Err(e) => r matches Err(DeriveError::AttrParse(m)) && m@ == e@,
        },
    }
}

pub fn prepare_layout(field: &FieldInfo) -> (r: Result<Option<LayoutChild>, DeriveError>)
    ensures
        prepared_layout_ok(*field, r),
{
    match find_attr(&field.attrs, "nwg_layout_item") {
        None => Ok(None),
        Some(i) => {
            proof {
                lemma_first_attr(field.attrs@, "nwg_layout_item"@);
            }
            match LayoutChild::init(field.ident.clone(), &field.attrs[i]) {
                Ok(c) => Ok(Some(c)),
                Err(e) => Err(e),
            }
        },
    }
}

/// Names and values of the builder calls, as read from `ps`.
pub open spec fn builder_calls(names: Seq<String>, values: Seq<ParamExpr>, ps: Seq<Param>) -> bool {
    &&& names.len() == builder_params(ps).len()
    &&& values.len() == builder_params(ps).len()
    &&& forall|i: int| 0 <= i < names.len() ==> (#[trigger] names[i])@ == builder_params(ps)[i].name@
    &&& forall|i: int| 0 <= i < values.len() ==> (#[trigger] values[i]).same(builder_params(ps)[i].value)
}

/// Names and values of all parameters.
pub open spec fn all_calls(names: Seq<String>, values: Seq<ParamExpr>, ps: Seq<Param>) -> bool {
    &&& names.len() == ps.len()
    &&& values.len() == ps.len()
    &&& forall|i: int| 0 <= i < names.len() ==> (#[trigger] names[i])@ == ps[i].name@
    &&& forall|i: int| 0 <= i < values.len() ==> (#[trigger] values[i]).same(ps[i].value)
}

pub open spec fn is_sub_control(ty: Seq<char>) -> bool {
    ty == "LabeledEdit"@ || ty == "LabeledCombo"@
}

/// A control field (`#[nwg_control]` or `#[nwg_control_layout]`).
pub struct NwdControl {
    pub id: String,
    pub parent_id: Option<String>,
    pub ty: String,
    pub layout: Option<LayoutChild>,
    pub layout_index: usize,
    pub names: Vec<String>,
    pub values: Vec<ParamExpr>,
    /// Depth in the parent chain, then position of the field.
    pub weight: [u16; 2],
    /// The control contains sub controls.
    pub nested: bool,
}

/// The control attribute of a field.
pub open spec fn control_attr(field: FieldInfo) -> Option<int> {
    first_attr_either(field.attrs@, "nwg_control"@, "nwg_control_layout"@)
}

/// The type of a control: from `ty`, else from the field.
pub open spec fn control_type(field: FieldInfo, ps: Seq<Param>) -> Option<Seq<char>> {
    match type_attr(ps) {
        Some(t) => Some(t),
        None => match field.ty_ident {
            Some(t) => Some(t@),
            None => None,
        },
    }
}

pub open spec fn has_param(ps: Seq<Param>, name: Seq<char>) -> bool {
    first_param(ps, name) is Some
}

/// What reading the control field `field` at `field_pos` gives.
pub open spec fn control_result(field: FieldInfo, field_pos: u16, r: Result<NwdControl, DeriveError>) -> bool {
    let ai = control_attr(field)->Some_0;
    let attr = field.attrs@[ai];
    match attr.params {
        Err(e) => r matches Err(DeriveError::AttrParse(m)) && m@ == e@,
        Ok(ps) => match control_type(field, ps@) {
            None => r matches Err(DeriveError::UnknownFieldType { field: f, attr: a }) && f@ == field.ident@ && attr.name == Some(a),
            Some(ty) => match r {
                Ok(c) => {
                    &&& c.id@ == field.ident@
                    &&& c.parent_id is None
                    &&& c.ty@ == ty
                    &&& builder_calls(c.names@, c.values@, ps@)
                    &&& c.nested == (attr.is("nwg_control_layout"@) || has_param(ps@, "nested"@) || is_sub_control(ty))
                    &&& prepared_layout_ok(field, Ok(c.layout))
                    &&& c.layout_index == 0
                    &&& c.weight[0] == 0 && c.weight[1] == field_pos
                },
                Err(e) => prepared_layout_ok(field, Err(e)),
            },
        },
    }
}

impl NwdControl {
    /// The field carries a control attribute.
    pub open spec fn valid_spec(field: FieldInfo) -> bool {
        control_attr(field) is Some
    }

    pub fn valid(field: &FieldInfo) -> (r: bool)
        ensures
            r == Self::valid_spec(*field),
    {
        find_attr_either(&field.attrs, "nwg_control", "nwg_control_layout").is_some()
    }

    /// The field is marked as the root of the UI (`#[nwg_root]`).
    pub open spec fn is_root_spec(field: FieldInfo) -> bool {
        has_attr(field.attrs@, "nwg_root"@)
    }

    pub fn is_root(field: &FieldInfo) -> (r: bool)
        ensures
            r == Self::is_root_spec(*field),
    {
        has_attr_exec(&field.attrs, "nwg_root")
    }

    /// Id and type of the control, as the root of the UI.
    pub fn get_root_info(&self) -> (r: (Option<String>, Option<String>))
        ensures
            r.0 matches Some(i) && i@ == self.id@,
            r.1 matches Some(t) && t@ == self.ty@,
    {
        (Some(self.id.clone()), Some(self.ty.clone()))
    }

    /// Reads a control field at position `field_pos`.
    pub fn parse(field: &FieldInfo, field_pos: u16) -> (r: Result<NwdControl, DeriveError>)
        requires
            Self::valid_spec(*field),
        ensures
            control_result(*field, field_pos, r),
    {
        proof {
            lemma_first_attr_either(field.attrs@, "nwg_control"@, "nwg_control_layout"@);
        }
        let ai = find_attr_either(&field.attrs, "nwg_control", "nwg_control_layout").unwrap();
        let attr = &field.attrs[ai];
        let ps = match &attr.params {
            Ok(ps) => ps,
            Err(e) => {
                return Err(DeriveError::AttrParse(e.clone()));
            },
        };
        let nested_attr = attr.is_exec("nwg_control_layout");
        let nested_param = find_param(ps, "nested").is_some();
        let ty = match parse_type_attr(ps) {
            Some(t) => t,
            None => match &field.ty_ident {
                Some(t) => t.clone(),
                None => {
                    let a = attr.name.as_ref().unwrap().clone();
                    return Err(DeriveError::UnknownFieldType { field: field.ident.clone(), attr: a });
                },
            },
        };
        let (names, values) = split_builder_params(ps);
        let sub = text_eq(ty.as_str(), "LabeledEdit") || text_eq(ty.as_str(), "LabeledCombo");
        let layout = match prepare_layout(field) {
            Ok(l) => l,
            Err(e) => {
                return Err(e);
            },
        };
        Ok(NwdControl {
            id: field.ident.clone(),
            parent_id: None,
            ty,
            layout,
            layout_index: 0,
            names,
            values,
            weight: [0, field_pos],
            nested: nested_attr || nested_param || sub,
        })
    }
}

/// The path value of a `parent` parameter, by its last segment.
pub open spec fn parent_target(v: ParamExpr) -> Option<Seq<char>> {
    v.path_last()
}

/// `&<base>.<id>`: a reference to a member of the UI data.
pub open spec fn member_ref(base: Seq<char>, id: Seq<char>) -> Seq<char> {
    "&"@ + base + "."@ + id
}

pub fn member_ref_exec(base: &str, id: &str) -> (r: String)
    ensures
        r@ == member_ref(base@, id@),
{
    let mut s = from_str("&");
    push_str(&mut s, base);
    push_str(&mut s, ".");
    push_str(&mut s, id);
    s
}

/// What rewriting the `parent` parameter of control `o` gives.
pub open spec fn control_parent_expanded(o: NwdControl, n: NwdControl, r: Result<(), DeriveError>) -> bool {
    &&& n.names == o.names
    &&& n.id == o.id
    &&& n.ty == o.ty
    &&& n.layout == o.layout
    &&& n.weight == o.weight
    &&& n.nested == o.nested
    &&& n.layout_index == o.layout_index
    &&& match first_index_of(views(o.names@), "parent"@) {
        None => r is Ok && n.values@ == o.values@ && n.parent_id == o.parent_id,
        Some(i) => match parent_target(o.values@[i]) {
            Some(id) => r is Ok && (n.parent_id matches Some(p) && p@ == id)
                && rewrote_parent(o.names@, o.values@, n.values@, "data"@, Ok(Some(id))),
            None => r matches Err(DeriveError::BadParentExpr { field }) && field@ == o.id@,
        },
    }
}



/// What expanding the `flags` parameter of control `o` gives.
pub open spec fn control_flags_expanded(o: NwdControl, n: NwdControl, r: Result<(), DeriveError>) -> bool {
    &&& n.names == o.names
    &&& n.id == o.id
    &&& n.ty == o.ty
    &&& n.layout == o.layout
    &&& n.weight == o.weight
    &&& n.nested == o.nested
    &&& n.parent_id == o.parent_id
    &&& n.layout_index == o.layout_index
    &&& n.values@.len() == o.values@.len()
    &&& match first_index_of(views(o.names@), "flags"@) {
        None => r is Ok && n.values@ == o.values@,
        Some(i) => {
            &&& forall|j: int| 0 <= j < o.values@.len() && j != i ==> n.values@[j] == o.values@[j]
            &&& match o.values@[i].kind {
                ExprKind::Str(v) => {
                    let t = flags_text(flags_prefix(o.ty@), v@);
                    match expr_parse_error(t) {
                        None => r is Ok && n.values@[i].text@ == t,
                        Some(m) => r matches Err(DeriveError::FlagsUnparsable { member, message }) && member@ == o.id@ && message@ == m,
                    }
                },
                _ => r matches Err(DeriveError::FlagsNotStr { member }) && member@ == o.id@,
            }
        },
    }
}



/// What rewriting a `parent` parameter did: nothing, the id of the parent, or
/// the failure (the parameter is not a path).
pub open spec fn rewrote_parent(
    names: Seq<String>,
    old_values: Seq<ParamExpr>,
    new_values: Seq<ParamExpr>,
    base: Seq<char>,
    r: Result<Option<Seq<char>>, ()>,
) -> bool {
    match first_index_of(views(names), "parent"@) {
        None => r == Ok::<Option<Seq<char>>, ()>(None) && new_values == old_values,
        Some(i) => match parent_target(old_values[i]) {
            Some(id) => {
                &&& r == Ok::<Option<Seq<char>>, ()>(Some(id))
                &&& new_values.len() == old_values.len()
                &&& new_values[i].text@ == member_ref(base, id)
                &&& new_values[i].kind is Other
                &&& forall|j: int| 0 <= j < new_values.len() && j != i ==> new_values[j] == old_values[j]
            },
            None => r == Err::<Option<Seq<char>>, ()>(()) && new_values == old_values,
        },
    }
}

/// Rewrites the `parent` value (a path) into `&<base>.<last segment>`.
fn expand_parent_values(names: &Vec<String>, values: &mut Vec<ParamExpr>, base: &str) -> (r: Result<Option<String>, ()>)
    requires
        names@.len() == old(values)@.len(),
    ensures
        rewrote_parent(names@, old(values)@, final(values)@, base@, match r {
            Ok(Some(s)) => Ok(Some(s@)),
            Ok(None) => Ok(None),
            Err(()) => Err(()),
        }),
{
    match find_name(names, "parent") {
        None => Ok(None),
        Some(i) => {
            let id = match &values[i].kind {
                ExprKind::Path(p) => match p.last_ident_exec() {
                    Some(last) => last.clone(),
                    None => {
                        return Err(());
                    },
                },
                _ => {
                    return Err(());
                },
            };
            let text = member_ref_exec(base, id.as_str());
            values.set(i, ParamExpr::code(text));
            Ok(Some(id))
        },
    }
}

impl NwdControl {
    /// Rewrites an explicit `parent: name` into `&data.name` and records
    /// `name` as the parent; fails when the parent is not a path.
    pub fn expand_parent(&mut self) -> (r: Result<(), DeriveError>)
        requires
            old(self).names@.len() == old(self).values@.len(),
        ensures
            control_parent_expanded(*old(self), *final(self), r),
    {
        proof {
            crate::params::lemma_first_index_of(views(self.names@), "parent"@);
        }
        match expand_parent_values(&self.names, &mut self.values, "data") {
            Ok(Some(id)) => {
                self.parent_id = Some(id);
                Ok(())
            },
            Ok(None) => Ok(()),
            Err(()) => Err(DeriveError::BadParentExpr { field: self.id.clone() }),
        }
    }

    /// Expands the compressed `flags` parameter, if there is one.
    pub fn expand_flags(&mut self) -> (r: Result<(), DeriveError>)
        requires
            old(self).names@.len() == old(self).values@.len(),
        ensures
            control_flags_expanded(*old(self), *final(self), r),
    {
        match find_name(&self.names, "flags") {
            None => Ok(()),
            Some(i) => match expand_flags_text(self.id.as_str(), self.ty.as_str(), &self.values[i]) {
                Ok(v) => {
                    self.values.set(i, v);
                    Ok(())
                },
                Err(e) => Err(e),
            },
        }
    }
}

/// A resource field (`#[nwg_resource]`).
pub struct NwdResource {
    pub id: String,
    pub ty: String,
    pub names: Vec<String>,
    pub values: Vec<ParamExpr>,
}

/// What reading the resource field `field` gives.
pub open spec fn resource_result(field: FieldInfo, r: Result<NwdResource, DeriveError>) -> bool {
    let ai = first_attr(field.attrs@, "nwg_resource"@)->Some_0;
    match field.attrs@[ai].params {
        Err(e) => r matches Err(DeriveError::AttrParse(m)) && m@ == e@,
        Ok(ps) => match control_type(field, ps@) {
            None => r matches Err(DeriveError::UnknownFieldType { field: f, attr: a }) && f@ == field.ident@ && a@ == "nwg_resource"@,
            Some(ty) => r matches Ok(res) && res.id@ == field.ident@ && res.ty@ == ty && builder_calls(res.names@, res.values@, ps@),
        },
    }
}

impl NwdResource {
    pub open spec fn valid_spec(field: FieldInfo) -> bool {
        has_attr(field.attrs@, "nwg_resource"@)
    }

    pub fn valid(field: &FieldInfo) -> (r: bool)
        ensures
            r == Self::valid_spec(*field),
    {
        has_attr_exec(&field.attrs, "nwg_resource")
    }

    /// Reads a resource field: its type comes from `ty`, else from the field.
    pub fn parse(field: &FieldInfo) -> (r: Result<NwdResource, DeriveError>)
        requires
            Self::valid_spec(*field),
        ensures
            resource_result(*field, r),
    {
        proof {
            lemma_first_attr(field.attrs@, "nwg_resource"@);
        }
        let ai = find_attr(&field.attrs, "nwg_resource").unwrap();
        let ps = match &field.attrs[ai].params {
            Ok(ps) => ps,
            Err(e) => {
                return Err(DeriveError::AttrParse(e.clone()));
            },
        };
        let ty = match parse_type_attr(ps) {
            Some(t) => t,
            None => match field_type(field, "nwg_resource") {
                Ok(t) => t,
                Err(e) => {
                    return Err(e);
                },
            },
        };
        let (names, values) = split_builder_params(ps);
        Ok(NwdResource { id: field.ident.clone(), ty, names, values })
    }
}

/// A layout field (`#[nwg_layout]`).
pub struct NwdLayout {
    pub id: String,
    pub ty: String,
    pub layout: Option<LayoutChild>,
    pub layout_index: usize,
    pub names: Vec<String>,
    pub values: Vec<ParamExpr>,
    pub weight: [u16; 2],
    /// Declared inside a partial.
    pub sublayout: bool,
}

/// What reading the layout field `field` at `field_pos` gives.
pub open spec fn layout_result(field: FieldInfo, field_pos: u16, sublayout: bool, r: Result<NwdLayout, DeriveError>) -> bool {
    let ai = first_attr(field.attrs@, "nwg_layout"@)->Some_0;
    match field.ty_ident {
        None => r matches Err(DeriveError::UnknownFieldType { field: f, attr: a }) && f@ == field.ident@ && a@ == "nwg_layout"@,
        Some(t) => match field.attrs@[ai].params {
            Err(e) => r matches Err(DeriveError::AttrParse(m)) && m@ == e@,
            Ok(ps) => match r {
                Ok(l) => {
                    &&& l.id@ == field.ident@
                    &&& l.ty@ == t@
                    &&& all_calls(l.names@, l.values@, ps@)
                    &&& prepared_layout_ok(field, Ok(l.layout))
                    &&& l.layout_index == 0
                    &&& l.weight[0] == 0 && l.weight[1] == field_pos
                    &&& l.sublayout == sublayout
                },
                Err(e) => prepared_layout_ok(field, Err(e)),
            },
        },
    }
}

impl NwdLayout {
    pub open spec fn valid_spec(field: FieldInfo) -> bool {
        has_attr(field.attrs@, "nwg_layout"@)
    }

    pub fn valid(field: &FieldInfo) -> (r: bool)
        ensures
            r == Self::valid_spec(*field),
    {
        has_attr_exec(&field.attrs, "nwg_layout")
    }

    /// Reads a layout field: its type is the field's, and every parameter is a
    /// builder call.
    pub fn parse(field: &FieldInfo, field_pos: u16, sublayout: bool) -> (r: Result<NwdLayout, DeriveError>)
        requires
            Self::valid_spec(*field),
        ensures
            layout_result(*field, field_pos, sublayout, r),
    {
        proof {
            lemma_first_attr(field.attrs@, "nwg_layout"@);
        }
        let ty = match field_type(field, "nwg_layout") {
            Ok(t) => t,
            Err(e) => {
                return Err(e);
            },
        };
        let ai = find_attr(&field.attrs, "nwg_layout").unwrap();
        let ps = match &field.attrs[ai].params {
            Ok(ps) => ps,
            Err(e) => {
                return Err(DeriveError::AttrParse(e.clone()));
            },
        };
        let mut names: Vec<String> = Vec::new();
        let mut values: Vec<ParamExpr> = Vec::new();
        let mut i: usize = 0;
        while i < ps.len()
            invariant
                i <= ps@.len(),
                names@.len() == i,
                values@.len() == i,
                forall|k: int| 0 <= k < i ==> (#[trigger] names@[k])@ == ps@[k].name@,
                forall|k: int| 0 <= k < i ==> (#[trigger] values@[k]).same(ps@[k].value),
            decreases ps@.len() - i,
        {
            names.push(ps[i].name.clone());
            values.push(ps[i].value.duplicate());
            i = i + 1;
        }
        let layout = match prepare_layout(field) {
            Ok(l) => l,
            Err(e) => {
                return Err(e);
            },
        };
        Ok(NwdLayout { id: field.ident.clone(), ty, layout, layout_index: 0, names, values, weight: [0, field_pos], sublayout })
    }

    /// Rewrites an explicit `parent: name` into `&ui.name`; fails when the
    /// parent is not a path.
    pub fn expand_parent(&mut self) -> (r: Result<(), DeriveError>)
        requires
            old(self).names@.len() == old(self).values@.len(),
        ensures
            layout_parent_expanded(*old(self), *final(self), r),
    {
        proof {
            crate::params::lemma_first_index_of(views(self.names@), "parent"@);
        }
        match expand_parent_values(&self.names, &mut self.values, "ui") {
            Ok(_) => Ok(()),
            Err(()) => Err(DeriveError::BadParentExpr { field: self.id.clone() }),
        }
    }
}

/// What rewriting the `parent` parameter of layout `o` gives.
pub open spec fn layout_parent_expanded(o: NwdLayout, n: NwdLayout, r: Result<(), DeriveError>) -> bool {
    &&& n.names == o.names
    &&& n.id == o.id
    &&& n.ty == o.ty
    &&& n.layout == o.layout
    &&& n.weight == o.weight
    &&& n.sublayout == o.sublayout
    &&& n.layout_index == o.layout_index
    &&& match first_index_of(views(o.names@), "parent"@) {
        None => r is Ok && n.values@ == o.values@,
        Some(i) => match parent_target(o.values@[i]) {
            Some(id) => r is Ok && rewrote_parent(o.names@, o.values@, n.values@, "ui"@, Ok(Some(id))),
            None => r matches Err(DeriveError::BadParentExpr { field }) && field@ == o.id@,
        },
    }
}



/// A partial field (`#[nwg_partial]` or `#[nwg_partial_control]`).
pub struct NwdPartial {
    pub id: String,
    pub ty: String,
    pub parent: Option<String>,
    pub layout: Option<LayoutChild>,
    pub layout_index: usize,
    pub weight: [u16; 2],
    pub nested: bool,
    /// The partial is placed in a layout as a layout (not as a control).
    pub as_layout_p: bool,
}

/// The partial attribute of a field.
pub open spec fn partial_attr(field: FieldInfo) -> Option<int> {
    first_attr_either(field.attrs@, "nwg_partial"@, "nwg_partial_control"@)
}

/// The last segment of the first parameter `name`, when it is a path.
pub open spec fn param_path_last(ps: Seq<Param>, name: Seq<char>) -> Option<Seq<char>> {
    match first_param(ps, name) {
        Some(i) => ps[i].value.path_last(),
        None => None,
    }
}

pub fn param_path_last_exec(ps: &Vec<Param>, name: &str) -> (r: Option<String>)
    ensures
        match r {
            Some(s) => param_path_last(ps@, name@) == Some(s@),
            None => param_path_last(ps@, name@) is None,
        },
{
    match find_param(ps, name) {
        Some(i) => match &ps[i].value.kind {
            ExprKind::Path(p) => match p.last_ident_exec() {
                Some(s) => Some(s.clone()),
                None => None,
            },
            _ => None,
        },
        None => None,
    }
}

/// What reading the partial field `field` at `field_pos` gives.
pub open spec fn partial_result(field: FieldInfo, field_pos: u16, nested: bool, r: Result<NwdPartial, DeriveError>) -> bool {
    let ai = partial_attr(field)->Some_0;
    let attr = field.attrs@[ai];
    match attr.params {
        Err(e) => r matches Err(DeriveError::AttrParse(m)) && m@ == e@,
        Ok(ps) => match field.ty_ident {
            None => r matches Err(DeriveError::UnknownFieldType { field: f, attr: a }) && f@ == field.ident@ && a@ == "nwg_partial"@,
            Some(t) => match r {
                Ok(p) => {
                    &&& p.id@ == field.ident@
                    &&& p.ty@ == t@
                    &&& match param_path_last(ps@, "parent"@) {
                        Some(x) => p.parent matches Some(pp) && pp@ == x,
                        None => p.parent is None,
                    }
                    &&& p.as_layout_p == (attr.is("nwg_partial"@) && match param_path_last(ps@, "be"@) {
                        Some(x) => x == "layout"@,
                        None => true,
                    })
                    &&& prepared_layout_ok(field, Ok(p.layout))
                    &&& p.layout_index == 0
                    &&& p.weight[0] == 0 && p.weight[1] == field_pos
                    &&& p.nested == nested
                },
                Err(e) => prepared_layout_ok(field, Err(e)),
            },
        },
    }
}

impl NwdPartial {
    pub open spec fn valid_spec(field: FieldInfo) -> bool {
        partial_attr(field) is Some
    }

    pub fn valid(field: &FieldInfo) -> (r: bool)
        ensures
            r == Self::valid_spec(*field),
    {
        find_attr_either(&field.attrs, "nwg_partial", "nwg_partial_control").is_some()
    }

    /// Reads a partial field: `nwg_partial` places it as a layout unless
    /// `be:` names something other than `layout`; `parent:` names its parent.
    pub fn parse(field: &FieldInfo, field_pos: u16, nested: bool) -> (r: Result<NwdPartial, DeriveError>)
        requires
            Self::valid_spec(*field),
        ensures
            partial_result(*field, field_pos, nested, r),
    {
        proof {
            lemma_first_attr_either(field.attrs@, "nwg_partial"@, "nwg_partial_control"@);
        }
        let ai = find_attr_either(&field.attrs, "nwg_partial", "nwg_partial_control").unwrap();
        let attr = &field.attrs[ai];
        let is_partial = attr.is_exec("nwg_partial");
        let ps = match &attr.params {
            Ok(ps) => ps,
            Err(e) => {
                return Err(DeriveError::AttrParse(e.clone()));
            },
        };
        let be_layout = match param_path_last_exec(ps, "be") {
            Some(x) => text_eq(x.as_str(), "layout"),
            None => true,
        };
        let parent = param_path_last_exec(ps, "parent");
        let ty = match field_type(field, "nwg_partial") {
            Ok(t) => t,
            Err(e) => {
                return Err(e);
            },
        };
        let layout = match prepare_layout(field) {
            Ok(l) => l,
            Err(e) => {
                return Err(e);
            },
        };
        Ok(NwdPartial {
            id: field.ident.clone(),
            ty,
            parent,
            layout,
            layout_index: 0,
            weight: [0, field_pos],
            nested,
            as_layout_p: is_partial && be_layout,
        })
    }
}

/// The parent handed to a partial's `build_partial`.
pub enum PartialParent {
    /// `None` (as a `&Window`).
    NoParent,
    /// The parent of the enclosing partial: `Some(parent_ref.unwrap())`.
    Enclosing,
    /// A member of the UI: `Some(&data.<member>)`.
    Member(String),
}

impl NwdPartial {
    /// The parent to build the partial with: its own, else the enclosing
    /// partial's when it sits in one, else none.
    pub fn build_parent(&self) -> (r: PartialParent)
        ensures
            match self.parent {
                Some(p) => r matches PartialParent::Member(m) && m@ == p@,
                None => if self.nested {
                    r is Enclosing
                } else {
                    r is NoParent
                },
            },
    {
        match &self.parent {
            Some(p) => PartialParent::Member(p.clone()),
            None => {
                if self.nested {
                    PartialParent::Enclosing
                } else {
                    PartialParent::NoParent
                }
            },
        }
    }

    /// The partial lays itself out in the layout it is an item of.
    pub fn expand_layout(&self) -> (r: bool)
        ensures
            r == (self.as_layout_p && self.layout is Some),
    {
        self.as_layout_p && self.layout.is_some()
    }
}

} // verus!
