//! Layout items (`#[nwg_layout_item(...)]`) and layouts (`#[nwg_layout(...)]`).

use vstd::prelude::*;
use crate::error::DeriveError;
use crate::params::{attr_params, same_params, AttrInfo, ExprKind, Param, ParamExpr};
use crate::text::{from_str, push_str, text_eq};

verus! {

/// A control placed in a grid layout.
#[derive(Clone, Copy, Debug, PartialEq, Eq, Structural)]
pub struct GridLayoutChild {
    pub col: u32,
    pub row: u32,
    pub col_span: u32,
    pub row_span: u32,
}

/// A control placed in a flexbox layout: builder calls to add after `child`.
pub struct FlexboxLayoutChild {
    pub param_names: Vec<String>,
    pub param_values: Vec<ParamExpr>,
}

/// The layout item attribute of a field, before and after its layout is known.
pub enum LayoutChild {
    /// Not yet matched to a layout.
    Init { field_name: String, params: Vec<Param> },
    Grid(GridLayoutChild),
    Flexbox(FlexboxLayoutChild),
}

pub open spec fn is_grid_key(name: Seq<char>) -> bool {
    name == "col"@ || name == "row"@ || name == "col_span"@ || name == "row_span"@
}

/// The value of the last parameter named `name`, or `default`.
pub open spec fn grid_value(ps: Seq<Param>, name: Seq<char>, default: u32) -> u32
    decreases ps.len(),
{
    if ps.len() == 0 {
        default
    } else if ps.last().name@ == name {
        match ps.last().value.kind {
            ExprKind::Int(Some(v)) => v,
            _ => default,
        }
    } else {
        grid_value(ps.drop_last(), name, default)
    }
}

/// Every grid position or span is an integer literal that fits a `u32`.
pub open spec fn grid_params_ok(ps: Seq<Param>) -> bool {
    forall|i: int| 0 <= i < ps.len() && is_grid_key((#[trigger] ps[i]).name@) ==> ps[i].value.kind matches ExprKind::Int(Some(_))
}

pub open spec fn grid_child_of(ps: Seq<Param>) -> GridLayoutChild {
    GridLayoutChild {
        col: grid_value(ps, "col"@, 0),
        row: grid_value(ps, "row"@, 0),
        col_span: grid_value(ps, "col_span"@, 1),
        row_span: grid_value(ps, "row_span"@, 1),
    }
}

/// The flexbox builder calls of a layout item: every parameter but `layout`,
/// named `child_<name>`.
pub open spec fn flexbox_kept(ps: Seq<Param>) -> Seq<Param> {
    ps.filter(|p: Param| p.name@ != "layout"@)
}

pub open spec fn flexbox_name(name: Seq<char>) -> Seq<char> {
    "child_"@ + name
}

/// Some `layout` parameter is a path ending in `parent`.
pub open spec fn names_layout(ps: Seq<Param>, parent: Seq<char>) -> bool {
    exists|i: int| 0 <= i < ps.len() && (#[trigger] ps[i]).name@ == "layout"@ && ps[i].value.path_last() == Some(parent)
}

impl LayoutChild {
    /// The item names `parent` in its `layout` parameter.
    pub open spec fn matches(self, parent: Seq<char>) -> bool {
        match self {
            LayoutChild::Init { params, .. } => names_layout(params@, parent),
            _ => false,
        }
    }

    /// Reads the layout item attribute of a field.
    pub fn init(field_name: String, attr: &AttrInfo) -> (r: Result<LayoutChild, DeriveError>)
        ensures
            match (r, attr.params) {
                (Ok(LayoutChild::Init { field_name: f, params }), Ok(ps)) => f@ == field_name@ && same_params(params@, ps@),
                (Err(DeriveError::AttrParse(m)), Err(e)) => m@ == e@,
                _ => false,
            },
    {
        match attr_params(attr) {
            Ok(params) => Ok(LayoutChild::Init { field_name, params }),
            Err(e) => Err(DeriveError::AttrParse(e)),
        }
    }

    /// `parent_matches`: does this item belong to the layout named `parent`?
    pub fn parent_matches(&self, parent: &str) -> (r: bool)
        ensures
            r == self.matches(parent@),
    {
        match self {
            LayoutChild::Init { params, .. } => {
                let mut i: usize = 0;
                while i < params.len()
                    invariant
                        i <= params@.len(),
                        self.matches(parent@) == names_layout(params@, parent@),
                        forall|j: int| 0 <= j < i ==> !((#[trigger] params@[j]).name@ == "layout"@
                            && params@[j].value.path_last() == Some(parent@)),
                    decreases params@.len() - i,
                {
                    let p = &params[i];
                    if text_eq(p.name.as_str(), "layout") {
                        match &p.value.kind {
                            ExprKind::Path(path) => {
                                match path.last_ident_exec() {
                                    Some(last) => {
                                        if text_eq(last.as_str(), parent) {
                                            assert(params@[i as int] == *p);
                                            assert(params@[i as int].name@ == "layout"@);
                                            assert(params@[i as int].value.path_last() == Some(parent@));
                                            assert(names_layout(params@, parent@));
                                            return true;
                                        }
                                    },
                                    None => {},
                                }
                            },
                            _ => {},
                        }
                    }
                    i = i + 1;
                }
                false
            },
            _ => false,
        }
    }

    /// Grid position and spans of an item: `col` and `row` default to 0, the
    /// spans to 1, and a repeated parameter counts by its last occurrence.
    pub fn parse_grid_layout_params(params: &Vec<Param>) -> (r: Result<GridLayoutChild, DeriveError>)
        ensures
            match r {
                Ok(g) => grid_params_ok(params@) && g == grid_child_of(params@),
                Err(e) => !grid_params_ok(params@) && e is LayoutItemNotInt,
            },
    {
        let mut col: u32 = 0;
        let mut row: u32 = 0;
        let mut col_span: u32 = 1;
        let mut row_span: u32 = 1;
        let mut i: usize = 0;
        while i < params.len()
            invariant
                i <= params@.len(),
                grid_params_ok(params@.take(i as int)),
                col == grid_value(params@.take(i as int), "col"@, 0),
                row == grid_value(params@.take(i as int), "row"@, 0),
                col_span == grid_value(params@.take(i as int), "col_span"@, 1),
                row_span == grid_value(params@.take(i as int), "row_span"@, 1),
            decreases params@.len() - i,
        {
            let p = &params[i];
            let ghost pre = params@.take(i as int);
            let ghost next = params@.take(i + 1);
            assert(next.drop_last() =~= pre);
            assert(next.last() == *p);
            let is_col = text_eq(p.name.as_str(), "col");
            let is_row = text_eq(p.name.as_str(), "row");
            let is_col_span = text_eq(p.name.as_str(), "col_span");
            let is_row_span = text_eq(p.name.as_str(), "row_span");
            if is_col || is_row || is_col_span || is_row_span {
                let v = match &p.value.kind {
                    ExprKind::Int(Some(v)) => *v,
                    _ => {
                        assert(!grid_params_ok(params@)) by {
                            assert(params@[i as int] == *p);
                        }
                        return Err(DeriveError::LayoutItemNotInt);
                    },
                };
                if is_col {
                    col = v;
                }
                if is_row {
                    row = v;
                }
                if is_col_span {
                    col_span = v;
                }
                if is_row_span {
                    row_span = v;
                }
            }
            assert(col == grid_value(next, "col"@, 0));
            assert(row == grid_value(next, "row"@, 0));
            assert(col_span == grid_value(next, "col_span"@, 1));
            assert(row_span == grid_value(next, "row_span"@, 1));
            assert(grid_params_ok(next)) by {
                assert forall|j: int| 0 <= j < next.len() && is_grid_key((#[trigger] next[j]).name@) implies next[j].value.kind matches ExprKind::Int(Some(_)) by {
                    if j < i {
                        assert(next[j] == pre[j]);
                    }
                }
            }
            i = i + 1;
        }
        assert(params@.take(params@.len() as int) =~= params@);
        Ok(GridLayoutChild { col, row, col_span, row_span })
    }

    /// The flexbox builder calls of an item: each parameter but `layout`,
    /// renamed `child_<name>`, in order.
    pub fn parse_flexbox_layout_params(params: &Vec<Param>) -> (r: FlexboxLayoutChild)
        ensures
            r.param_names@.len() == flexbox_kept(params@).len(),
            r.param_values@.len() == flexbox_kept(params@).len(),
            forall|i: int| 0 <= i < r.param_names@.len() ==> (#[trigger] r.param_names@[i])@ == flexbox_name(flexbox_kept(params@)[i].name@),
            forall|i: int| 0 <= i < r.param_values@.len() ==> (#[trigger] r.param_values@[i]).same(flexbox_kept(params@)[i].value),
    {
        let ghost f = |p: Param| p.name@ != "layout"@;
        let mut param_names: Vec<String> = Vec::new();
        let mut param_values: Vec<ParamExpr> = Vec::new();
        let mut i: usize = 0;
        while i < params.len()
            invariant
                i <= params@.len(),
                f == (|p: Param| p.name@ != "layout"@),
                param_names@.len() == flexbox_kept(params@.take(i as int)).len(),
                param_values@.len() == param_names@.len(),
                forall|k: int| 0 <= k < param_names@.len() ==> (#[trigger] param_names@[k])@ == flexbox_name(flexbox_kept(params@.take(i as int))[k].name@),
                forall|k: int| 0 <= k < param_values@.len() ==> (#[trigger] param_values@[k]).same(flexbox_kept(params@.take(i as int))[k].value),
            decreases params@.len() - i,
        {
            let p = &params[i];
            let ghost pre = params@.take(i as int);
            assert(params@.take(i + 1) =~= pre.push(*p));
            proof {
                pre.lemma_filter_push(*p, f);
            }
            if !text_eq(p.name.as_str(), "layout") {
                let mut name = from_str("child_");
                push_str(&mut name, p.name.as_str());
                param_names.push(name);
                param_values.push(p.value.duplicate());
            }
            i = i + 1;
        }
        assert(params@.take(params@.len() as int) =~= params@);
        FlexboxLayoutChild { param_names, param_values }
    }

    /// What matching the item to a layout of type `parent_type` gives.
    pub open spec fn item_result(self, parent_type: Seq<char>, r: Result<LayoutChild, DeriveError>) -> bool {
        match self {
            LayoutChild::Init { params, .. } => {
                if parent_type == "GridLayout"@ {
                    match r {
                        Ok(LayoutChild::Grid(g)) => grid_params_ok(params@) && g == grid_child_of(params@),
                        Err(DeriveError::LayoutItemNotInt) => !grid_params_ok(params@),
                        _ => false,
                    }
                } else if parent_type == "FlexboxLayout"@ {
                    match r {
                        Ok(LayoutChild::Flexbox(fc)) => {
                            &&& fc.param_names@.len() == flexbox_kept(params@).len()
                            &&& fc.param_values@.len() == flexbox_kept(params@).len()
                            &&& forall|i: int| 0 <= i < fc.param_names@.len() ==> (#[trigger] fc.param_names@[i])@ == flexbox_name(flexbox_kept(params@)[i].name@)
                            &&& forall|i: int| 0 <= i < fc.param_values@.len() ==> (#[trigger] fc.param_values@[i]).same(flexbox_kept(params@)[i].value)
                        },
                        _ => false,
                    }
                } else {
                    match r {
                        Err(DeriveError::UnknownLayoutType { ty }) => ty@ == parent_type,
                        _ => false,
                    }
                }
            },
            _ => false,
        }
    }

    /// Matches an item to its layout of type `parent_type`.
    pub fn parse(&self, parent_type: &str) -> (r: Result<LayoutChild, DeriveError>)
        requires
            self is Init,
        ensures
            self.item_result(parent_type@, r),
    {
        match self {
            LayoutChild::Init { params, .. } => {
                if text_eq(parent_type, "GridLayout") {
                    match Self::parse_grid_layout_params(params) {
                        Ok(g) => Ok(LayoutChild::Grid(g)),
                        Err(e) => Err(e),
                    }
                } else if text_eq(parent_type, "FlexboxLayout") {
                    Ok(LayoutChild::Flexbox(Self::parse_flexbox_layout_params(params)))
                } else {
                    Err(DeriveError::UnknownLayoutType { ty: from_str(parent_type) })
                }
            },
            _ => {
                assert(false);
                Err(DeriveError::LayoutItemNotInt)
            },
        }
    }
}

/// The grid cells of an item: its own cell; for a
/// control with a label (`nested`), the label in the item's cell and the
/// control in the cell that follows it (column `col + col_span`), which must
/// fit a `u32`.
pub fn grid_cells(g: GridLayoutChild, nested: bool) -> (r: Result<Vec<GridLayoutChild>, DeriveError>)
    ensures
        !nested ==> (r matches Ok(v) && v@ == seq![g]),
        nested && g.col + g.col_span <= u32::MAX ==> (r matches Ok(v) && v@ == seq![g, GridLayoutChild { col: (g.col + g.col_span) as u32, ..g }]),
        nested && g.col + g.col_span > u32::MAX ==> r matches Err(DeriveError::GridColumnOverflow),
{
    let mut v: Vec<GridLayoutChild> = Vec::new();
    v.push(g);
    if nested {
        match g.col.checked_add(g.col_span) {
            Some(c) => {
                v.push(GridLayoutChild { col: c, ..g });
            },
            None => {
                return Err(DeriveError::GridColumnOverflow);
            },
        }
    }
    proof {
        if nested {
            assert(v@ =~= seq![g, GridLayoutChild { col: (g.col + g.col_span) as u32, ..g }]);
        } else {
            assert(v@ =~= seq![g]);
        }
    }
    Ok(v)
}

/// The builder call that adds an item to a flexbox: `child_layout` for a
/// control with a label or an item that is itself a layout, else `child`.
pub fn uses_child_layout(nested: bool, layout_item: bool) -> (r: bool)
    ensures
        r == (nested || layout_item),
{
    nested || layout_item
}

/// The value of the last parameter named `name`, when that is the integer
/// literal `v`.
proof fn lemma_grid_value_last(ps: Seq<Param>, name: Seq<char>, default: u32, k: int, v: u32)
    requires
        0 <= k < ps.len(),
        ps[k].name@ == name,
        ps[k].value.kind matches ExprKind::Int(Some(x)) && x == v,
        forall|m: int| k < m < ps.len() ==> (#[trigger] ps[m]).name@ != name,
    ensures
        grid_value(ps, name, default) == v,
    decreases ps.len(),
{
    if k < ps.len() - 1 {
        let q = ps.drop_last();
        assert(ps.last() == ps[ps.len() - 1]);
        assert forall|m: int| k < m < q.len() implies (#[trigger] q[m]).name@ != name by {
            assert(q[m] == ps[m]);
        }
        lemma_grid_value_last(q, name, default, k, v);
    } else {
        assert(ps.last() == ps[k]);
    }
}

/// No parameter named `name`: the default.
proof fn lemma_grid_value_absent(ps: Seq<Param>, name: Seq<char>, default: u32)
    requires
        forall|m: int| 0 <= m < ps.len() ==> (#[trigger] ps[m]).name@ != name,
    ensures
        grid_value(ps, name, default) == default,
    decreases ps.len(),
{
    if ps.len() > 0 {
        let q = ps.drop_last();
        assert(ps.last() == ps[ps.len() - 1]);
        assert forall|m: int| 0 <= m < q.len() implies (#[trigger] q[m]).name@ != name by {
            assert(q[m] == ps[m]);
        }
        lemma_grid_value_absent(q, name, default);
    }
}

/// The grid cell of an item is where its parameters say: with `col: c` the
/// last `col` parameter and `row: r` the last `row` parameter, the item is
/// in column `c` and row `r`.
pub proof fn law_grid_cell_from_params(ps: Seq<Param>, g: GridLayoutChild, ic: int, c: u32, ir: int, r: u32)
    requires
        grid_params_ok(ps) && g == grid_child_of(ps),
        0 <= ic < ps.len(),
        ps[ic].name@ == "col"@,
        ps[ic].value.kind matches ExprKind::Int(Some(x)) && x == c,
        forall|m: int| ic < m < ps.len() ==> (#[trigger] ps[m]).name@ != "col"@,
        0 <= ir < ps.len(),
        ps[ir].name@ == "row"@,
        ps[ir].value.kind matches ExprKind::Int(Some(x)) && x == r,
        forall|m: int| ir < m < ps.len() ==> (#[trigger] ps[m]).name@ != "row"@,
    ensures
        g.col == c,
        g.row == r,
{
    lemma_grid_value_last(ps, "col"@, 0, ic, c);
    lemma_grid_value_last(ps, "row"@, 0, ir, r);
}

/// The spans of an item are where its parameters say: with `col_span: a`
/// and `row_span: b` the last of their names, the item spans `a` columns and
/// `b` rows.
pub proof fn law_grid_spans_from_params(ps: Seq<Param>, g: GridLayoutChild, ic: int, a: u32, ir: int, b: u32)
    requires
        grid_params_ok(ps) && g == grid_child_of(ps),
        0 <= ic < ps.len(),
        ps[ic].name@ == "col_span"@,
        ps[ic].value.kind matches ExprKind::Int(Some(x)) && x == a,
        forall|m: int| ic < m < ps.len() ==> (#[trigger] ps[m]).name@ != "col_span"@,
        0 <= ir < ps.len(),
        ps[ir].name@ == "row_span"@,
        ps[ir].value.kind matches ExprKind::Int(Some(x)) && x == b,
        forall|m: int| ir < m < ps.len() ==> (#[trigger] ps[m]).name@ != "row_span"@,
    ensures
        g.col_span == a,
        g.row_span == b,
{
    lemma_grid_value_last(ps, "col_span"@, 1, ic, a);
    lemma_grid_value_last(ps, "row_span"@, 1, ir, b);
}

/// Without a `col`, `row`, `col_span` or `row_span` parameter, the item is
/// in column 0, row 0, spanning one column, one row, respectively.
pub proof fn law_grid_defaults(ps: Seq<Param>, g: GridLayoutChild)
    requires
        grid_params_ok(ps) && g == grid_child_of(ps),
    ensures
        (forall|m: int| 0 <= m < ps.len() ==> (#[trigger] ps[m]).name@ != "col"@) ==> g.col == 0,
        (forall|m: int| 0 <= m < ps.len() ==> (#[trigger] ps[m]).name@ != "row"@) ==> g.row == 0,
        (forall|m: int| 0 <= m < ps.len() ==> (#[trigger] ps[m]).name@ != "col_span"@) ==> g.col_span == 1,
        (forall|m: int| 0 <= m < ps.len() ==> (#[trigger] ps[m]).name@ != "row_span"@) ==> g.row_span == 1,
{
    if forall|m: int| 0 <= m < ps.len() ==> (#[trigger] ps[m]).name@ != "col"@ {
        lemma_grid_value_absent(ps, "col"@, 0);
    }
    if forall|m: int| 0 <= m < ps.len() ==> (#[trigger] ps[m]).name@ != "row"@ {
        lemma_grid_value_absent(ps, "row"@, 0);
    }
    if forall|m: int| 0 <= m < ps.len() ==> (#[trigger] ps[m]).name@ != "col_span"@ {
        lemma_grid_value_absent(ps, "col_span"@, 1);
    }
    if forall|m: int| 0 <= m < ps.len() ==> (#[trigger] ps[m]).name@ != "row_span"@ {
        lemma_grid_value_absent(ps, "row_span"@, 1);
    }
}

} // verus!
