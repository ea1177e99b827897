//! The model of a UI struct (`NwgUi`): its controls, resources, layouts and
//! partials, with parents resolved, layout items matched, weights computed
//! and controls ordered for creation.

use vstd::prelude::*;
use vstd::seq_lib::{to_multiset_build, to_multiset_insert};
use crate::error::DeriveError;
use crate::flags::{expr_parse_error, flags_prefix, flags_text};
use crate::events::{bindings_error, attrs_wf, def_makes, event_attr_ok, global_result, sdef_makes, shortcut_attr_ok, ControlEvents, FunctionCall};
use crate::items::{
    control_attr, control_flags_expanded, control_parent_expanded, control_result, control_type, layout_result, member_ref, member_ref_exec,
    parent_target, partial_attr, partial_result, prepared_layout_ok, resource_result, rewrote_parent, NwdControl, NwdLayout, NwdPartial,
    NwdResource,
};
use crate::layouts::LayoutChild;
use crate::params::{find_name, first_attr, first_index_of, opt_view, views, AttrInfo, ExprKind, FieldInfo, ParamExpr, PathModel};
use crate::text::{from_str, text_eq};

verus! {

/// Sort key of a control: parent depth first, then field position
/// (`(weight[0] << 16) + weight[1]`).
pub open spec fn weight_key(w: [u16; 2]) -> int {
    w[0] * 65536 + w[1]
}

pub open spec fn controls_sorted(cs: Seq<NwdControl>) -> bool {
    forall|i: int, j: int| 0 <= i < j < cs.len() ==> weight_key(cs[i].weight) <= weight_key(cs[j].weight)
}

fn weight_le(a: &[u16; 2], b: &[u16; 2]) -> (r: bool)
    ensures
        r == (weight_key(*a) <= weight_key(*b)),
{
    a[0] < b[0] || (a[0] == b[0] && a[1] <= b[1])
}

/// `n` holds the controls of `o`, ordered by weight.
pub open spec fn sorted_result(o: Seq<NwdControl>, n: Seq<NwdControl>) -> bool {
    &&& n.to_multiset() == o.to_multiset()
    &&& controls_sorted(n)
}

/// Orders the controls by their weight: parents before children, then in
/// field order.
pub fn sort_controls(controls: Vec<NwdControl>) -> (r: Vec<NwdControl>)
    ensures
        sorted_result(controls@, r@),
{
    let ghost all = controls@;
    let mut rest = controls;
    let mut out: Vec<NwdControl> = Vec::new();
    assert(out@.to_multiset().add(rest@.to_multiset()) =~= all.to_multiset()) by {
        broadcast use vstd::multiset::group_multiset_axioms;
        vstd::seq_lib::to_multiset_len(out@);
        vstd::multiset::lemma_multiset_empty_len(out@.to_multiset());
    }
    while rest.len() > 0
        invariant
            out@.to_multiset().add(rest@.to_multiset()) == all.to_multiset(),
            controls_sorted(out@),
        decreases rest@.len(),
    {
        let ghost before = rest@;
        let c = rest.pop().unwrap();
        proof {
            assert(before =~= rest@.push(c));
            to_multiset_build(rest@, c);
        }
        let mut p: usize = 0;
        while p < out.len() && weight_le(&out[p].weight, &c.weight)
            invariant
                p <= out@.len(),
                controls_sorted(out@),
                forall|k: int| 0 <= k < p ==> weight_key((#[trigger] out@[k]).weight) <= weight_key(c.weight),
            decreases out@.len() - p,
        {
            p = p + 1;
        }
        let ghost prev = out@;
        out.insert(p, c);
        proof {
            to_multiset_insert(prev, p as int, c);
            assert(out@.to_multiset().add(rest@.to_multiset()) =~= all.to_multiset()) by {
                broadcast use vstd::multiset::group_multiset_axioms;
            }
            assert forall|i: int, j: int| 0 <= i < j < out@.len() implies weight_key(out@[i].weight) <= weight_key(out@[j].weight) by {
                if p < prev.len() {
                    assert(weight_key(c.weight) < weight_key(prev[p as int].weight));
                }
                if i < p && j > p {
                    assert(out@[j] == prev[j - 1]);
                    if p < prev.len() {
                        assert(weight_key(prev[p as int].weight) <= weight_key(prev[j - 1].weight));
                    }
                }
                if i == p && j > p {
                    assert(out@[j] == prev[j - 1]);
                    assert(weight_key(prev[p as int].weight) <= weight_key(prev[j - 1].weight));
                }
                if i > p {
                    assert(out@[i] == prev[i - 1]);
                    assert(out@[j] == prev[j - 1]);
                }
            }
        }
    }
    assert(out@.to_multiset() =~= all.to_multiset()) by {
        broadcast use vstd::multiset::group_multiset_axioms;
        vstd::seq_lib::to_multiset_len(rest@);
        vstd::multiset::lemma_multiset_empty_len(rest@.to_multiset());
    }
    out
}

/// The ids of the controls, in order.
pub open spec fn control_ids(cs: Seq<NwdControl>) -> Seq<Seq<char>> {
    cs.map_values(|c: NwdControl| c.id@)
}

/// The first control whose id is the parent id of control `i`.
pub open spec fn parent_index(cs: Seq<NwdControl>, i: int) -> Option<int> {
    match cs[i].parent_id {
        Some(p) => first_index_of(control_ids(cs), p@),
        None => None,
    }
}

/// Number of ancestors of control `i` found by following parent ids, when the
/// chain ends within `fuel` steps.
pub open spec fn depth_within(cs: Seq<NwdControl>, i: int, fuel: nat) -> Option<nat>
    decreases fuel,
{
    if fuel == 0 {
        None
    } else {
        match parent_index(cs, i) {
            None => Some(0nat),
            Some(j) => match depth_within(cs, j, (fuel - 1) as nat) {
                Some(d) => Some(d + 1),
                None => None,
            },
        }
    }
}

/// Depth of control `i` in the parent chain; `None` when the chain does not
/// end within as many steps as there are controls, that is when it loops.
pub open spec fn parent_depth(cs: Seq<NwdControl>, i: int) -> Option<nat> {
    depth_within(cs, i, cs.len())
}

/// Index of the first control with id `id`.
pub fn find_control(cs: &Vec<NwdControl>, id: &str) -> (r: Option<usize>)
    ensures
        match r {
            Some(i) => first_index_of(control_ids(cs@), id@) == Some(i as int) && i < cs@.len(),
            None => first_index_of(control_ids(cs@), id@) is None,
        },
{
    proof {
        crate::params::lemma_first_index_of(control_ids(cs@), id@);
    }
    let mut i: usize = 0;
    while i < cs.len()
        invariant
            i <= cs@.len(),
            forall|j: int| 0 <= j < i ==> control_ids(cs@)[j] != id@,
            match first_index_of(control_ids(cs@), id@) {
                Some(k) => 0 <= k < cs@.len() && control_ids(cs@)[k] == id@ && forall|j: int| 0 <= j < k ==> control_ids(cs@)[j] != id@,
                None => forall|j: int| 0 <= j < cs@.len() ==> control_ids(cs@)[j] != id@,
            },
        decreases cs@.len() - i,
    {
        if text_eq(cs[i].id.as_str(), id) {
            assert(control_ids(cs@)[i as int] == id@);
            return Some(i);
        }
        assert(control_ids(cs@)[i as int] != id@);
        i = i + 1;
    }
    None
}

/// Depth of control `i`, or `None` when its parent chain
/// loops.
pub fn control_depth(cs: &Vec<NwdControl>, i: usize) -> (r: Option<u16>)
    requires
        i < cs@.len(),
        cs@.len() <= 65536,
    ensures
        match r {
            Some(d) => parent_depth(cs@, i as int) == Some(d as nat),
            None => parent_depth(cs@, i as int) is None,
        },
{
    let n = cs.len();
    let mut cur: usize = i;
    let mut d: usize = 0;
    let mut fuel: usize = n;
    while fuel > 0
        invariant
            n == cs@.len(),
            n <= 65536,
            cur < n,
            d + fuel == n,
            parent_depth(cs@, i as int) == match depth_within(cs@, cur as int, fuel as nat) {
                Some(x) => Some((x + d) as nat),
                None => None::<nat>,
            },
        decreases fuel,
    {
        let next = match &cs[cur].parent_id {
            Some(p) => find_control(cs, p.as_str()),
            None => None,
        };
        assert(next matches Some(j) ==> parent_index(cs@, cur as int) == Some(j as int));
        assert(next is None ==> parent_index(cs@, cur as int) is None);
        match next {
            None => {
                assert(d < 65536);
                return Some(d as u16);
            },
            Some(j) => {
                cur = j;
                d = d + 1;
                fuel = fuel - 1;
            },
        }
    }
    None
}

/// What computing the weights of `o` gives.
pub open spec fn weights_result(o: Seq<NwdControl>, n: Seq<NwdControl>, r: Result<(), DeriveError>) -> bool {
    &&& r is Ok <==> forall|i: int| 0 <= i < o.len() ==> parent_depth(o, i) is Some
    &&& r is Err ==> r == Err::<(), DeriveError>(DeriveError::ParentCycle)
    &&& r is Ok ==> n.len() == o.len()
    &&& r is Ok ==> forall|i: int| 0 <= i < o.len() ==> {
        let (a, b) = (o[i], #[trigger] n[i]);
        &&& b.id == a.id && b.parent_id == a.parent_id && b.ty == a.ty && b.layout == a.layout
        &&& b.layout_index == a.layout_index && b.names == a.names && b.values == a.values && b.nested == a.nested
        &&& b.weight[1] == a.weight[1]
        &&& parent_depth(o, i) == Some(b.weight[0] as nat)
    }
}

/// Sets the depth of every control as the first part of its weight;
/// fails when a parent chain loops.
pub fn compute_weights(controls: &mut Vec<NwdControl>) -> (r: Result<(), DeriveError>)
    requires
        old(controls)@.len() <= 65536,
    ensures
        weights_result(old(controls)@, final(controls)@, r),
{
    let n = controls.len();
    let mut depths: Vec<u16> = Vec::new();
    let mut i: usize = 0;
    while i < n
        invariant
            n == controls@.len(),
            n <= 65536,
            i <= n,
            depths@.len() == i,
            controls@ == old(controls)@,
            forall|k: int| 0 <= k < i ==> parent_depth(controls@, k) == Some(#[trigger] depths@[k] as nat),
        decreases n - i,
    {
        match control_depth(controls, i) {
            Some(d) => depths.push(d),
            None => {
                return Err(DeriveError::ParentCycle);
            },
        }
        i = i + 1;
    }
    let ghost start = controls@;
    let mut k: usize = 0;
    while k < n
        invariant
            n == controls@.len(),
            n == start.len(),
            k <= n,
            depths@.len() == n,
            forall|j: int| 0 <= j < n ==> parent_depth(start, j) == Some(#[trigger] depths@[j] as nat),
            forall|j: int| k <= j < n ==> #[trigger] controls@[j] == start[j],
            forall|j: int| 0 <= j < k ==> {
                let (o, c) = (start[j], #[trigger] controls@[j]);
                &&& c.id == o.id && c.parent_id == o.parent_id && c.ty == o.ty && c.layout == o.layout
                &&& c.layout_index == o.layout_index && c.names == o.names && c.values == o.values && c.nested == o.nested
                &&& c.weight[1] == o.weight[1] && c.weight[0] == depths@[j]
            },
        decreases n - k,
    {
        let mut c = controls.remove(k);
        c.weight = [depths[k], c.weight[1]];
        controls.insert(k, c);
        k = k + 1;
    }
    assert forall|i: int| 0 <= i < start.len() implies parent_depth(start, i) is Some by {
        assert(parent_depth(start, i) == Some(depths@[i] as nat));
    }
    Ok(())
}

/// The `flags` of control `o` expand (or it has none).
pub open spec fn flags_ok(o: NwdControl) -> bool {
    match first_index_of(views(o.names@), "flags"@) {
        None => true,
        Some(i) => match o.values@[i].kind {
            ExprKind::Str(v) => expr_parse_error(flags_text(flags_prefix(o.ty@), v@)) is None,
            _ => false,
        },
    }
}

/// Expanding the `flags` of control `o` fails with `e`.
pub open spec fn flags_fail(o: NwdControl, e: DeriveError) -> bool {
    match first_index_of(views(o.names@), "flags"@) {
        None => false,
        Some(i) => match o.values@[i].kind {
            ExprKind::Str(v) => match expr_parse_error(flags_text(flags_prefix(o.ty@), v@)) {
                None => false,
                Some(m) => e matches DeriveError::FlagsUnparsable { member, message } && member@ == o.id@ && message@ == m,
            },
            _ => e matches DeriveError::FlagsNotStr { member } && member@ == o.id@,
        },
    }
}

pub open spec fn pairs_match(cs: Seq<NwdControl>) -> bool {
    forall|i: int| 0 <= i < cs.len() ==> (#[trigger] cs[i]).names@.len() == cs[i].values@.len()
}

/// What expanding the `flags` of every control of `o` gives.
pub open spec fn all_flags_result(o: Seq<NwdControl>, n: Seq<NwdControl>, r: Result<(), DeriveError>) -> bool {
    &&& r is Ok <==> forall|i: int| 0 <= i < o.len() ==> flags_ok(#[trigger] o[i])
    &&& r matches Err(e) ==> exists|i: int| 0 <= i < o.len()
        && (forall|j: int| 0 <= j < i ==> flags_ok(#[trigger] o[j]))
        && flags_fail(#[trigger] o[i], e)
    &&& r is Ok ==> n.len() == o.len()
    &&& r is Ok ==> forall|i: int| 0 <= i < o.len() ==> control_flags_expanded(o[i], #[trigger] n[i], Ok(()))
}

/// Expands the `flags` of every control, in order; stops at the first failure.
pub fn expand_all_flags(controls: &mut Vec<NwdControl>) -> (r: Result<(), DeriveError>)
    requires
        pairs_match(old(controls)@),
    ensures
        all_flags_result(old(controls)@, final(controls)@, r),
{
    let ghost start = controls@;
    let n = controls.len();
    let mut k: usize = 0;
    while k < n
        invariant
            n == controls@.len(),
            n == start.len(),
            start == old(controls)@,
            k <= n,
            pairs_match(start),
            forall|j: int| k <= j < n ==> #[trigger] controls@[j] == start[j],
            forall|j: int| 0 <= j < k ==> flags_ok(#[trigger] start[j]),
            forall|j: int| 0 <= j < k ==> control_flags_expanded(start[j], #[trigger] controls@[j], Ok(())),
        decreases n - k,
    {
        let mut c = controls.remove(k);
        assert(c == start[k as int]);
        let res = c.expand_flags();
        match res {
            Ok(()) => {},
            Err(e) => {
                assert(flags_fail(start[k as int], e));
                assert(!flags_ok(start[k as int]));
                return Err(e);
            },
        }
        assert(flags_ok(start[k as int]));
        controls.insert(k, c);
        k = k + 1;
    }
    Ok(())
}

/// Controls created without a parent.
pub open spec fn is_top_level(ty: Seq<char>) -> bool {
    ty == "Window"@ || ty == "MessageWindow"@ || ty == "ExternCanvas"@
}

/// A control of type `parent_ty` can be the automatic parent of one of type
/// `child_ty`: a `Tab` goes in a `TabsContainer`, every
/// other control in the nearest container.
pub open spec fn can_parent(child_ty: Seq<char>, parent_ty: Seq<char>) -> bool {
    if child_ty == "Tab"@ {
        parent_ty == "TabsContainer"@
    } else {
        parent_ty == "Window"@ || parent_ty == "TabsContainer"@ || parent_ty == "Tab"@ || parent_ty == "MessageWindow"@
            || parent_ty == "ExternCanvas"@
    }
}

/// The last control before position `k` that can be the parent of a control
/// of type `ty`.
pub open spec fn nearest_parent(cs: Seq<NwdControl>, ty: Seq<char>, k: int) -> Option<int>
    decreases k,
{
    if k <= 0 {
        None
    } else if can_parent(ty, cs[k - 1].ty@) {
        Some(k - 1)
    } else {
        nearest_parent(cs, ty, k - 1)
    }
}

pub proof fn lemma_nearest_parent(cs: Seq<NwdControl>, ty: Seq<char>, k: int)
    requires
        k <= cs.len(),
    ensures
        match nearest_parent(cs, ty, k) {
            Some(j) => 0 <= j < k && can_parent(ty, cs[j].ty@) && forall|m: int| j < m < k ==> !can_parent(ty, #[trigger] cs[m].ty@),
            None => forall|m: int| 0 <= m < k ==> !can_parent(ty, #[trigger] cs[m].ty@),
        },
    decreases k,
{
    if k > 0 {
        lemma_nearest_parent(cs, ty, k - 1);
    }
}

/// Control `n` is `o` with a `parent` builder call of value `text` added and
/// `pid` recorded as its parent.
pub open spec fn added_parent(o: NwdControl, n: NwdControl, text: Seq<char>, pid: Seq<char>) -> bool {
    &&& n.names@.len() == o.names@.len() + 1
    &&& n.names@.drop_last() == o.names@
    &&& n.names@.last()@ == "parent"@
    &&& n.values@.len() == o.values@.len() + 1
    &&& n.values@.drop_last() == o.values@
    &&& n.values@.last().text@ == text
    &&& n.values@.last().kind is Other
    &&& n.parent_id matches Some(p) && p@ == pid
    &&& n.id == o.id && n.ty == o.ty && n.layout == o.layout && n.layout_index == o.layout_index
    &&& n.weight == o.weight && n.nested == o.nested
}

/// What resolving the parent of control `i` of `cs` gives: top level
/// controls keep none; an explicit `parent` is rewritten; otherwise the
/// nearest container before it, else the root (when it is another control),
/// else in a partial the partial's parent.
pub open spec fn control_parent_result(cs: Seq<NwdControl>, i: int, root: Option<Seq<char>>, partial_p: bool, n: NwdControl, r: Result<(), DeriveError>) -> bool {
    let o = cs[i];
    if is_top_level(o.ty@) {
        r is Ok && n == o
    } else if first_index_of(views(o.names@), "parent"@) is Some {
        control_parent_expanded(o, n, r)
    } else {
        r is Ok && match nearest_parent(cs, o.ty@, i) {
            Some(j) => added_parent(o, n, member_ref("data"@, cs[j].id@), cs[j].id@),
            None => match root {
                Some(rt) if rt != o.id@ => added_parent(o, n, member_ref("data"@, rt), rt),
                _ => if partial_p {
                    added_parent(o, n, "parent_ref.unwrap()"@, "parent"@)
                } else {
                    n == o
                },
            },
        }
    }
}

fn push_parent(c: &mut NwdControl, text: String, pid: String)
    ensures
        added_parent(*old(c), *final(c), text@, pid@),
{
    c.names.push(from_str("parent"));
    c.values.push(ParamExpr::code(text));
    c.parent_id = Some(pid);
    proof {
        assert(c.names@.drop_last() =~= old(c).names@);
        assert(c.values@.drop_last() =~= old(c).values@);
    }
}

/// What resolving the parents of the controls `o` gives.
pub open spec fn control_parents_result(o: Seq<NwdControl>, root: Option<Seq<char>>, partial_p: bool, n: Seq<NwdControl>, r: Result<(), DeriveError>) -> bool {
    &&& r is Ok ==> n.len() == o.len()
    &&& r is Ok ==> forall|i: int| 0 <= i < o.len() ==> control_parent_result(o, i, root, partial_p, #[trigger] n[i], Ok(()))
    &&& r matches Err(e) ==> exists|i: int, c: NwdControl| 0 <= i < o.len()
        && (forall|j: int, d: NwdControl, e2: DeriveError| 0 <= j < i ==> !#[trigger] control_parent_result(o, j, root, partial_p, d, Err(e2)))
        && #[trigger] control_parent_result(o, i, root, partial_p, c, Err(e))
}

/// Resolves the parent of every control that is not top level, in order;
/// stops at the first explicit `parent` that is not a path.
#[verifier::spinoff_prover]
#[verifier::rlimit(40)]
pub fn resolve_control_parents(controls: &mut Vec<NwdControl>, root_id: &Option<String>, partial_p: bool) -> (r: Result<(), DeriveError>)
    requires
        pairs_match(old(controls)@),
    ensures
        control_parents_result(old(controls)@, opt_view(*root_id), partial_p, final(controls)@, r),
{
    let ghost start = controls@;
    let n = controls.len();
    let mut k: usize = 0;
    while k < n
        invariant
            n == controls@.len(),
            n == start.len(),
            start == old(controls)@,
            k <= n,
            pairs_match(start),
            forall|j: int| k <= j < n ==> #[trigger] controls@[j] == start[j],
            forall|j: int| 0 <= j < k ==> controls@[j].ty == start[j].ty,
            forall|j: int| 0 <= j < k ==> control_parent_result(start, j, opt_view(*root_id), partial_p, #[trigger] controls@[j], Ok(())),
        decreases n - k,
    {
        let ghost o = start[k as int];
        let top = text_eq(controls[k].ty.as_str(), "Window") || text_eq(controls[k].ty.as_str(), "MessageWindow")
            || text_eq(controls[k].ty.as_str(), "ExternCanvas");
        if !top {
            let mut c = controls.remove(k);
            assert(c == o);
            if find_name(&c.names, "parent").is_some() {
                match c.expand_parent() {
                    Ok(()) => {},
                    Err(e) => {
                        proof {
                            assert forall|j: int, d: NwdControl, e2: DeriveError| 0 <= j < k implies !#[trigger] control_parent_result(start, j, opt_view(*root_id), partial_p, d, Err(e2)) by {
                                let cj = controls@[j];
                                assert(control_parent_result(start, j, opt_view(*root_id), partial_p, cj, Ok(())));
                            }
                            assert(control_parent_result(start, k as int, opt_view(*root_id), partial_p, c, Err(e)));
                        }
                        return Err(e);
                    },
                }
            } else {
                // the nearest control before this one that can hold it
                let tab = text_eq(c.ty.as_str(), "Tab");
                let mut j: usize = k;
                let mut found: Option<usize> = None;
                proof {
                    lemma_nearest_parent(start, o.ty@, k as int);
                }
                while j > 0
                    invariant_except_break
                        found is None,
                    invariant
                        j <= k,
                        k < n,
                        n == start.len(),
                        controls@.len() == n - 1,
                        forall|m: int| 0 <= m < k ==> (#[trigger] controls@[m]).ty == start[m].ty,
                        tab == (o.ty@ == "Tab"@),
                        c.ty == o.ty,
                        forall|m: int| j <= m < k ==> !can_parent(o.ty@, #[trigger] start[m].ty@),
                    ensures
                        found matches Some(f) ==> f + 1 == j && can_parent(o.ty@, start[f as int].ty@),
                        found is None ==> j == 0,
                    decreases j,
                {
                    let t = controls[j - 1].ty.as_str();
                    let ok = if tab {
                        text_eq(t, "TabsContainer")
                    } else {
                        text_eq(t, "Window") || text_eq(t, "TabsContainer") || text_eq(t, "Tab") || text_eq(t, "MessageWindow")
                            || text_eq(t, "ExternCanvas")
                    };
                    assert(controls@[j - 1].ty == start[j - 1].ty);
                    if ok {
                        found = Some(j - 1);
                        break;
                    }
                    j = j - 1;
                }
                proof {
                    match found {
                        Some(f) => {
                            assert(nearest_parent(start, o.ty@, k as int) == Some(f as int));
                        },
                        None => {
                            assert(nearest_parent(start, o.ty@, k as int) is None);
                        },
                    }
                }
                match found {
                    Some(f) => {
                        let pid = controls[f].id.clone();
                        assert(controls@[f as int].id == start[f as int].id);
                        let text = member_ref_exec("data", pid.as_str());
                        push_parent(&mut c, text, pid);
                    },
                    None => {
                        let other_root = match root_id {
                            Some(rt) => !text_eq(rt.as_str(), c.id.as_str()),
                            None => false,
                        };
                        if other_root {
                            let rt = root_id.as_ref().unwrap().clone();
                            let text = member_ref_exec("data", rt.as_str());
                            push_parent(&mut c, text, rt);
                        } else if partial_p {
                            push_parent(&mut c, from_str("parent_ref.unwrap()"), from_str("parent"));
                        }
                    },
                }
            }
            controls.insert(k, c);
        }
        k = k + 1;
    }
    Ok(())
}

/// A field that can be placed in a layout: its layout item and the index of
/// the layout it was matched to.
pub trait LayoutItem: Sized {
    spec fn item(&self) -> Option<LayoutChild>;

    spec fn item_index(&self) -> usize;

    /// The value with its item and index cleared: what placing it keeps.
    spec fn rest(&self) -> Self;

    fn item_ref(&self) -> (r: &Option<LayoutChild>)
        ensures
            *r == self.item(),
    ;

    fn place(&mut self, l: LayoutChild, index: usize)
        ensures
            final(self).item() == Some(l),
            final(self).item_index() == index,
            final(self).rest() == old(self).rest(),
    ;
}

impl LayoutItem for NwdControl {
    open spec fn item(&self) -> Option<LayoutChild> {
        self.layout
    }

    open spec fn item_index(&self) -> usize {
        self.layout_index
    }

    open spec fn rest(&self) -> NwdControl {
        NwdControl { layout: None, layout_index: 0, ..*self }
    }

    fn item_ref(&self) -> (r: &Option<LayoutChild>) {
        &self.layout
    }

    fn place(&mut self, l: LayoutChild, index: usize) {
        self.layout = Some(l);
        self.layout_index = index;
    }
}

impl LayoutItem for NwdLayout {
    open spec fn item(&self) -> Option<LayoutChild> {
        self.layout
    }

    open spec fn item_index(&self) -> usize {
        self.layout_index
    }

    open spec fn rest(&self) -> NwdLayout {
        NwdLayout { layout: None, layout_index: 0, ..*self }
    }

    fn item_ref(&self) -> (r: &Option<LayoutChild>) {
        &self.layout
    }

    fn place(&mut self, l: LayoutChild, index: usize) {
        self.layout = Some(l);
        self.layout_index = index;
    }
}

impl LayoutItem for NwdPartial {
    open spec fn item(&self) -> Option<LayoutChild> {
        self.layout
    }

    open spec fn item_index(&self) -> usize {
        self.layout_index
    }

    open spec fn rest(&self) -> NwdPartial {
        NwdPartial { layout: None, layout_index: 0, ..*self }
    }

    fn item_ref(&self) -> (r: &Option<LayoutChild>) {
        &self.layout
    }

    fn place(&mut self, l: LayoutChild, index: usize) {
        self.layout = Some(l);
        self.layout_index = index;
    }
}

/// The item names the layout `id`.
pub open spec fn item_matches(o: Option<LayoutChild>, id: Seq<char>) -> bool {
    o matches Some(ch) && ch.matches(id)
}

/// Matches the items naming layout `id` (of type `ty`, at index `index`):
/// each is read for that layout type and records the index; stops at the
/// first item that cannot be read.
fn place_items<T: LayoutItem>(items: &mut Vec<T>, index: usize, id: &str, ty: &str) -> (r: Result<(), DeriveError>)
    ensures
        final(items)@.len() == old(items)@.len(),
        r is Ok ==> forall|k: int| 0 <= k < old(items)@.len() ==> item_matches((#[trigger] old(items)@[k]).item(), id@)
            ==> old(items)@[k].item()->Some_0.item_result(ty@, Ok(final(items)@[k].item()->Some_0)),
        forall|k: int| 0 <= k < old(items)@.len() ==> (#[trigger] final(items)@[k]).rest() == old(items)@[k].rest(),
        forall|k: int| 0 <= k < old(items)@.len() && !item_matches(old(items)@[k].item(), id@) ==> {
            &&& (#[trigger] final(items)@[k]).item() == old(items)@[k].item()
            &&& final(items)@[k].item_index() == old(items)@[k].item_index()
        },
        r is Ok ==> forall|k: int| 0 <= k < old(items)@.len() && item_matches(old(items)@[k].item(), id@) ==> {
            &&& (#[trigger] final(items)@[k]).item() is Some
            &&& final(items)@[k].item_index() == index
        },
        r is Ok ==> forall|k: int| 0 <= k < old(items)@.len() && item_matches((#[trigger] old(items)@[k]).item(), id@)
            ==> item_readable(old(items)@[k].item()->Some_0, ty@),
        r matches Err(e) ==> exists|k: int| 0 <= k < old(items)@.len() && item_matches((#[trigger] old(items)@[k]).item(), id@)
            && old(items)@[k].item()->Some_0.item_result(ty@, Err(e))
            && forall|j: int| 0 <= j < k && item_matches((#[trigger] old(items)@[j]).item(), id@) ==> item_readable(old(items)@[j].item()->Some_0, ty@),
{
    let ghost start = items@;
    let n = items.len();
    let mut k: usize = 0;
    while k < n
        invariant
            n == items@.len(),
            n == start.len(),
            start == old(items)@,
            k <= n,
            forall|j: int| k <= j < n ==> #[trigger] items@[j] == start[j],
            forall|j: int| 0 <= j < n ==> (#[trigger] items@[j]).rest() == start[j].rest(),
            forall|j: int| 0 <= j < k && !item_matches(start[j].item(), id@) ==> {
                &&& (#[trigger] items@[j]).item() == start[j].item()
                &&& items@[j].item_index() == start[j].item_index()
            },
            forall|j: int| 0 <= j < k && item_matches(start[j].item(), id@) ==> {
                &&& (#[trigger] items@[j]).item() is Some
                &&& start[j].item()->Some_0.item_result(ty@, Ok(items@[j].item()->Some_0))
                &&& items@[j].item_index() == index
            },
        decreases n - k,
    {
        let parsed = match items[k].item_ref() {
            Some(ch) => {
                if ch.parent_matches(id) {
                    match ch.parse(ty) {
                        Ok(p) => Some(p),
                        Err(e) => {
                            assert(item_matches(start[k as int].item(), id@));
                            assert forall|j: int| 0 <= j < k && item_matches((#[trigger] start[j]).item(), id@) implies item_readable(start[j].item()->Some_0, ty@) by {
                                lemma_item_result_readable(start[j].item()->Some_0, ty@, Ok(items@[j].item()->Some_0));
                            }
                            return Err(e);
                        },
                    }
                } else {
                    None
                }
            },
            None => None,
        };
        match parsed {
            Some(p) => {
                let mut x = items.remove(k);
                x.place(p, index);
                items.insert(k, x);
            },
            None => {},
        }
        k = k + 1;
    }
    assert forall|j: int| 0 <= j < n && item_matches((#[trigger] start[j]).item(), id@) implies item_readable(start[j].item()->Some_0, ty@) by {
        lemma_item_result_readable(start[j].item()->Some_0, ty@, Ok(items@[j].item()->Some_0));
    }
    Ok(())
}

/// The (id, type) of each layout.
pub open spec fn layout_keys(ls: Seq<NwdLayout>) -> Seq<(Seq<char>, Seq<char>)> {
    ls.map_values(|l: NwdLayout| (l.id@, l.ty@))
}

/// The first of the first `upto` layouts that the item names.
pub open spec fn first_match(keys: Seq<(Seq<char>, Seq<char>)>, ch: LayoutChild, upto: int) -> Option<int>
    decreases upto,
{
    if upto <= 0 {
        None
    } else {
        match first_match(keys, ch, upto - 1) {
            Some(m) => Some(m),
            None => if ch.matches(keys[upto - 1].0) {
                Some(upto - 1)
            } else {
                None
            },
        }
    }
}

pub proof fn lemma_first_match_stays(keys: Seq<(Seq<char>, Seq<char>)>, ch: LayoutChild, a: int, b: int)
    requires
        0 <= a <= b,
        first_match(keys, ch, a) is Some,
    ensures
        first_match(keys, ch, b) == first_match(keys, ch, a),
    decreases b - a,
{
    if a < b {
        lemma_first_match_stays(keys, ch, a, b - 1);
    }
}

pub proof fn lemma_first_match_bound(keys: Seq<(Seq<char>, Seq<char>)>, ch: LayoutChild, upto: int)
    ensures
        first_match(keys, ch, upto) matches Some(m) ==> 0 <= m < upto && ch.matches(keys[m].0),
    decreases upto,
{
    if upto > 0 {
        lemma_first_match_bound(keys, ch, upto - 1);
    }
}

/// Where an item stands once the first `upto` layouts were matched: read for
/// the first layout that it names, with that layout's index, or untouched.
pub open spec fn item_state(keys: Seq<(Seq<char>, Seq<char>)>, upto: int, o: Option<LayoutChild>, oi: usize, n: Option<LayoutChild>, ni: usize) -> bool {
    match o {
        Some(ch) => match first_match(keys, ch, upto) {
            Some(m) => n matches Some(p) && ch.item_result(keys[m].1, Ok(p)) && ni == m,
            None => n == o && ni == oi,
        },
        None => n == o && ni == oi,
    }
}

/// The item can be read for the first layout that it names, if any.
pub open spec fn item_ok(keys: Seq<(Seq<char>, Seq<char>)>, o: Option<LayoutChild>) -> bool {
    match o {
        Some(ch) => match first_match(keys, ch, keys.len() as int) {
            Some(m) => item_readable(ch, keys[m].1),
            None => true,
        },
        None => true,
    }
}

/// Every item of `o` stands in `n` as the first `upto` layouts left it.
pub open spec fn items_placed<T: LayoutItem>(keys: Seq<(Seq<char>, Seq<char>)>, upto: int, o: Seq<T>, n: Seq<T>) -> bool {
    &&& n.len() == o.len()
    &&& forall|k: int| 0 <= k < o.len() ==> item_state(keys, upto, (#[trigger] o[k]).item(), o[k].item_index(), n[k].item(), n[k].item_index())
}

/// As `items_placed`, with nothing else changed.
pub open spec fn items_state<T: LayoutItem>(keys: Seq<(Seq<char>, Seq<char>)>, upto: int, o: Seq<T>, n: Seq<T>) -> bool {
    &&& items_placed(keys, upto, o, n)
    &&& forall|k: int| 0 <= k < o.len() ==> (#[trigger] n[k]).rest() == o[k].rest()
}

pub open spec fn items_ok<T: LayoutItem>(keys: Seq<(Seq<char>, Seq<char>)>, o: Seq<T>) -> bool {
    forall|k: int| 0 <= k < o.len() ==> item_ok(keys, (#[trigger] o[k]).item())
}

/// Item `o` is matched to layout `i` and cannot be read for it.
pub open spec fn item_fails_at(keys: Seq<(Seq<char>, Seq<char>)>, i: int, o: Option<LayoutChild>) -> bool {
    o matches Some(ch) && first_match(keys, ch, keys.len() as int) == Some(i) && !item_readable(ch, keys[i].1)
}

pub open spec fn items_fail_at<T: LayoutItem>(keys: Seq<(Seq<char>, Seq<char>)>, i: int, o: Seq<T>) -> bool {
    exists|k: int| 0 <= k < o.len() && item_fails_at(keys, i, (#[trigger] o[k]).item())
}

/// The first item of `o` that fails at layout `i` fails with `e`.
pub open spec fn first_item_error<T: LayoutItem>(keys: Seq<(Seq<char>, Seq<char>)>, i: int, o: Seq<T>, e: DeriveError) -> bool {
    exists|k: int| 0 <= k < o.len() && item_fails_at(keys, i, (#[trigger] o[k]).item())
        && (forall|j: int| 0 <= j < k ==> !item_fails_at(keys, i, (#[trigger] o[j]).item()))
        && o[k].item()->Some_0.item_result(keys[i].1, Err(e))
}

proof fn lemma_item_result_not_init(ch: LayoutChild, ty: Seq<char>, p: LayoutChild, id: Seq<char>)
    requires
        ch.item_result(ty, Ok(p)),
    ensures
        !p.matches(id),
{
}

/// The item can be read for a layout of type `ty`.
pub open spec fn item_readable(ch: LayoutChild, ty: Seq<char>) -> bool {
    match ch {
        LayoutChild::Init { params, .. } => {
            ||| ty == "GridLayout"@ && crate::layouts::grid_params_ok(params@)
            ||| ty == "FlexboxLayout"@
        },
        _ => false,
    }
}

proof fn lemma_item_result_readable(ch: LayoutChild, ty: Seq<char>, r: Result<LayoutChild, DeriveError>)
    requires
        ch.item_result(ty, r),
    ensures
        r is Ok <==> item_readable(ch, ty),
{
    reveal_strlit("GridLayout");
    reveal_strlit("FlexboxLayout");
    assert("GridLayout"@.len() != "FlexboxLayout"@.len());
    match ch {
        LayoutChild::Init { params, .. } => {
            if ty == "GridLayout"@ {
                assert(r is Ok <==> crate::layouts::grid_params_ok(params@));
                assert(ty != "FlexboxLayout"@);
            } else if ty == "FlexboxLayout"@ {
                assert(r is Ok);
            } else {
                assert(r is Err);
            }
        },
        _ => {},
    }
}

/// One step of matching: the items that name layout `index` among those not
/// yet matched.
proof fn lemma_items_step<T: LayoutItem>(keys: Seq<(Seq<char>, Seq<char>)>, index: int, o: Seq<T>, mid: Seq<T>, n: Seq<T>)
    requires
        0 <= index < keys.len(),
        items_placed(keys, index, o, mid),
        n.len() == mid.len(),
        forall|k: int| 0 <= k < mid.len() && !item_matches(mid[k].item(), keys[index].0) ==> {
            &&& (#[trigger] n[k]).item() == mid[k].item()
            &&& n[k].item_index() == mid[k].item_index()
        },
        forall|k: int| 0 <= k < mid.len() && item_matches(mid[k].item(), keys[index].0) ==> {
            &&& (#[trigger] n[k]).item() is Some
            &&& mid[k].item()->Some_0.item_result(keys[index].1, Ok(n[k].item()->Some_0))
            &&& n[k].item_index() == index
        },
    ensures
        items_placed(keys, index + 1, o, n),
{
    assert forall|k: int| 0 <= k < o.len() implies item_state(keys, index + 1, (#[trigger] o[k]).item(), o[k].item_index(), n[k].item(), n[k].item_index()) by {
        assert(item_state(keys, index, o[k].item(), o[k].item_index(), mid[k].item(), mid[k].item_index()));
        match o[k].item() {
            Some(ch) => {
                match first_match(keys, ch, index) {
                    Some(m) => {
                        let p = mid[k].item()->Some_0;
                        lemma_item_result_not_init(ch, keys[m].1, p, keys[index].0);
                        assert(!item_matches(mid[k].item(), keys[index].0));
                    },
                    None => {},
                }
            },
            None => {},
        }
    }
}

/// The item that failed to be read names layout `index` first.
proof fn lemma_items_fail<T: LayoutItem>(keys: Seq<(Seq<char>, Seq<char>)>, index: int, o: Seq<T>, mid: Seq<T>, e: DeriveError)
    requires
        0 <= index < keys.len(),
        items_placed(keys, index, o, mid),
        exists|k: int| 0 <= k < mid.len() && item_matches((#[trigger] mid[k]).item(), keys[index].0)
            && mid[k].item()->Some_0.item_result(keys[index].1, Err(e)),
    ensures
        !items_ok(keys, o),
{
    let k = choose|k: int| 0 <= k < mid.len() && item_matches((#[trigger] mid[k]).item(), keys[index].0)
        && mid[k].item()->Some_0.item_result(keys[index].1, Err(e));
    assert(item_state(keys, index, o[k].item(), o[k].item_index(), mid[k].item(), mid[k].item_index()));
    let ch = o[k].item()->Some_0;
    match first_match(keys, ch, index) {
        Some(m) => {
            let p = mid[k].item()->Some_0;
            lemma_item_result_not_init(ch, keys[m].1, p, keys[index].0);
        },
        None => {
            assert(first_match(keys, ch, index + 1) == Some(index));
            lemma_first_match_stays(keys, ch, index + 1, keys.len() as int);
            lemma_item_result_readable(ch, keys[index].1, Err(e));
            assert(!item_ok(keys, o[k].item()));
        },
    }
}

/// Once every layout was matched, each item is read for its layout.
proof fn lemma_items_done<T: LayoutItem>(keys: Seq<(Seq<char>, Seq<char>)>, o: Seq<T>, n: Seq<T>)
    requires
        items_placed(keys, keys.len() as int, o, n),
    ensures
        items_ok(keys, o),
{
    assert forall|k: int| 0 <= k < o.len() implies item_ok(keys, (#[trigger] o[k]).item()) by {
        assert(item_state(keys, keys.len() as int, o[k].item(), o[k].item_index(), n[k].item(), n[k].item_index()));
        match o[k].item() {
            Some(ch) => match first_match(keys, ch, keys.len() as int) {
                Some(m) => {
                    lemma_first_match_bound(keys, ch, keys.len() as int);
                    let p = n[k].item()->Some_0;
                    assert(ch.item_result(keys[m].1, Ok(p)));
                    lemma_item_result_readable(ch, keys[m].1, Ok(p));
                    assert(item_readable(ch, keys[m].1));
                },
                None => {},
            },
            None => {},
        }
    }
}

/// An item matched first to layout `i` is not matched before it, and names it.
proof fn lemma_first_match_at(keys: Seq<(Seq<char>, Seq<char>)>, ch: LayoutChild, i: int)
    requires
        0 <= i < keys.len(),
        first_match(keys, ch, keys.len() as int) == Some(i),
    ensures
        first_match(keys, ch, i) is None,
        ch.matches(keys[i].0),
        first_match(keys, ch, i + 1) == Some(i),
{
    lemma_first_match_bound(keys, ch, keys.len() as int);
    lemma_first_match_bound(keys, ch, i);
    if first_match(keys, ch, i) is Some {
        lemma_first_match_stays(keys, ch, i, keys.len() as int);
    }
}

/// The item at `k` fails at layout `index` only if it is still unmatched
/// there and names it.
proof fn lemma_fails_at_matches<T: LayoutItem>(keys: Seq<(Seq<char>, Seq<char>)>, index: int, o: Seq<T>, mid: Seq<T>, k: int)
    requires
        0 <= index < keys.len(),
        items_placed(keys, index, o, mid),
        0 <= k < o.len(),
        item_fails_at(keys, index, o[k].item()),
    ensures
        mid[k].item() == o[k].item(),
        item_matches(mid[k].item(), keys[index].0),
{
    assert(item_state(keys, index, o[k].item(), o[k].item_index(), mid[k].item(), mid[k].item_index()));
    lemma_first_match_at(keys, o[k].item()->Some_0, index);
}

/// When every item naming layout `index` could be read, none fails there.
proof fn lemma_items_pass<T: LayoutItem>(keys: Seq<(Seq<char>, Seq<char>)>, index: int, o: Seq<T>, mid: Seq<T>)
    requires
        0 <= index < keys.len(),
        items_placed(keys, index, o, mid),
        forall|k: int| 0 <= k < mid.len() && item_matches((#[trigger] mid[k]).item(), keys[index].0)
            ==> item_readable(mid[k].item()->Some_0, keys[index].1),
    ensures
        !items_fail_at(keys, index, o),
{
    assert forall|k: int| 0 <= k < o.len() implies !item_fails_at(keys, index, (#[trigger] o[k]).item()) by {
        if item_fails_at(keys, index, o[k].item()) {
            lemma_fails_at_matches(keys, index, o, mid, k);
        }
    }
}

/// The item that failed to be read at layout `index` is the first item of
/// `o` that fails there.
proof fn lemma_items_first_error<T: LayoutItem>(keys: Seq<(Seq<char>, Seq<char>)>, index: int, o: Seq<T>, mid: Seq<T>, e: DeriveError)
    requires
        0 <= index < keys.len(),
        items_placed(keys, index, o, mid),
        exists|k: int| 0 <= k < mid.len() && item_matches((#[trigger] mid[k]).item(), keys[index].0)
            && mid[k].item()->Some_0.item_result(keys[index].1, Err(e))
            && forall|j: int| 0 <= j < k && item_matches((#[trigger] mid[j]).item(), keys[index].0)
                ==> item_readable(mid[j].item()->Some_0, keys[index].1),
    ensures
        items_fail_at(keys, index, o),
        first_item_error(keys, index, o, e),
{
    let k = choose|k: int| 0 <= k < mid.len() && item_matches((#[trigger] mid[k]).item(), keys[index].0)
        && mid[k].item()->Some_0.item_result(keys[index].1, Err(e))
        && forall|j: int| 0 <= j < k && item_matches((#[trigger] mid[j]).item(), keys[index].0)
            ==> item_readable(mid[j].item()->Some_0, keys[index].1);
    assert(item_state(keys, index, o[k].item(), o[k].item_index(), mid[k].item(), mid[k].item_index()));
    let ch = o[k].item()->Some_0;
    match first_match(keys, ch, index) {
        Some(m) => {
            let p = mid[k].item()->Some_0;
            lemma_item_result_not_init(ch, keys[m].1, p, keys[index].0);
        },
        None => {
            assert(first_match(keys, ch, index + 1) == Some(index));
            lemma_first_match_stays(keys, ch, index + 1, keys.len() as int);
            lemma_item_result_readable(ch, keys[index].1, Err(e));
            assert(item_fails_at(keys, index, o[k].item()));
            assert forall|j: int| 0 <= j < k implies !item_fails_at(keys, index, (#[trigger] o[j]).item()) by {
                if item_fails_at(keys, index, o[j].item()) {
                    lemma_fails_at_matches(keys, index, o, mid, j);
                }
            }
        },
    }
}

/// Layout `i` gets its parent and every item that names it first can be read.
pub open spec fn step_ok(l0: Seq<NwdLayout>, c0: Seq<NwdControl>, p0: Seq<NwdPartial>, root: Option<Seq<char>>, partial_p: bool, i: int) -> bool {
    let keys = layout_keys(l0);
    &&& layout_parent_ok(l0[i], root, partial_p)
    &&& !items_fail_at(keys, i, c0)
    &&& !items_fail_at(keys, i, l0)
    &&& !items_fail_at(keys, i, p0)
}

/// The failure `e` at layout `i`: its parent, else the first control, layout
/// or partial item that names it and cannot be read, in that order.
pub open spec fn step_error(l0: Seq<NwdLayout>, c0: Seq<NwdControl>, p0: Seq<NwdPartial>, root: Option<Seq<char>>, partial_p: bool, i: int, e: DeriveError) -> bool {
    let keys = layout_keys(l0);
    if !layout_parent_ok(l0[i], root, partial_p) {
        layout_parent_fail(l0[i], root, partial_p, e)
    } else if items_fail_at(keys, i, c0) {
        first_item_error(keys, i, c0, e)
    } else if items_fail_at(keys, i, l0) {
        first_item_error(keys, i, l0, e)
    } else {
        items_fail_at(keys, i, p0) && first_item_error(keys, i, p0, e)
    }
}

/// The parent of layout `o` can be written: an explicit `parent` that is a
/// path, else the root, else (in a partial) the partial's parent.
pub open spec fn layout_parent_ok(o: NwdLayout, root: Option<Seq<char>>, partial_p: bool) -> bool {
    match first_index_of(views(o.names@), "parent"@) {
        Some(i) => parent_target(o.values@[i]) is Some,
        None => root is Some || partial_p,
    }
}

/// Writing the parent of layout `o` fails with `e`.
pub open spec fn layout_parent_fail(o: NwdLayout, root: Option<Seq<char>>, partial_p: bool, e: DeriveError) -> bool {
    match first_index_of(views(o.names@), "parent"@) {
        Some(i) => parent_target(o.values@[i]) is None && (e matches DeriveError::BadParentExpr { field } && field@ == o.id@),
        None => root is None && !partial_p && (e matches DeriveError::LayoutParentMissing { field_index } && field_index == o.weight[1]),
    }
}

/// Layout `n` is `o` with a `parent` builder call of value `text` added.
pub open spec fn layout_added_parent(o: NwdLayout, n: NwdLayout, text: Seq<char>) -> bool {
    &&& n.names@.len() == o.names@.len() + 1
    &&& n.names@.drop_last() == o.names@
    &&& n.names@.last()@ == "parent"@
    &&& n.values@.len() == o.values@.len() + 1
    &&& n.values@.drop_last() == o.values@
    &&& n.values@.last().text@ == text
    &&& n.values@.last().kind is Other
}

/// The builder calls of layout `n` are those of `o` with its parent written:
/// an explicit `parent` rewritten to `&ui.<name>`, else `&ui.<root>`, else
/// `parent_ref.unwrap()`.
pub open spec fn layout_parent_done(o: NwdLayout, n: NwdLayout, root: Option<Seq<char>>, partial_p: bool) -> bool {
    &&& n.id == o.id && n.ty == o.ty && n.weight == o.weight && n.sublayout == o.sublayout
    &&& match first_index_of(views(o.names@), "parent"@) {
        Some(i) => match parent_target(o.values@[i]) {
            Some(id) => n.names == o.names && rewrote_parent(o.names@, o.values@, n.values@, "ui"@, Ok(Some(id))),
            None => false,
        },
        None => match root {
            Some(rt) => layout_added_parent(o, n, member_ref("ui"@, rt)),
            None => partial_p && layout_added_parent(o, n, "parent_ref.unwrap()"@),
        },
    }
}

pub open spec fn layout_pairs_match(ls: Seq<NwdLayout>) -> bool {
    forall|i: int| 0 <= i < ls.len() ==> (#[trigger] ls[i]).names@.len() == ls[i].values@.len()
}

/// Writes the parent of layout `l`.
fn write_layout_parent(l: &mut NwdLayout, root_id: &Option<String>, partial_p: bool) -> (r: Result<(), DeriveError>)
    requires
        old(l).names@.len() == old(l).values@.len(),
    ensures
        r is Ok <==> layout_parent_ok(*old(l), opt_view(*root_id), partial_p),
        r matches Err(e) ==> layout_parent_fail(*old(l), opt_view(*root_id), partial_p, e),
        r is Ok ==> layout_parent_done(*old(l), *final(l), opt_view(*root_id), partial_p),
        final(l).rest().id == old(l).id,
        final(l).layout == old(l).layout,
        final(l).layout_index == old(l).layout_index,
{
    if find_name(&l.names, "parent").is_some() {
        l.expand_parent()
    } else {
        let text = match root_id {
            Some(rt) => member_ref_exec("ui", rt.as_str()),
            None => {
                if partial_p {
                    from_str("parent_ref.unwrap()")
                } else {
                    return Err(DeriveError::LayoutParentMissing { field_index: l.weight[1] as usize });
                }
            },
        };
        l.names.push(from_str("parent"));
        l.values.push(ParamExpr::code(text));
        proof {
            assert(l.names@.drop_last() =~= old(l).names@);
            assert(l.values@.drop_last() =~= old(l).values@);
        }
        Ok(())
    }
}

/// What writing the layout parents and matching the layout items gives, from
/// layouts `l0`, controls `c0` and partials `p0`.
pub open spec fn layouts_result(
    l0: Seq<NwdLayout>,
    c0: Seq<NwdControl>,
    p0: Seq<NwdPartial>,
    root: Option<Seq<char>>,
    partial_p: bool,
    l1: Seq<NwdLayout>,
    c1: Seq<NwdControl>,
    p1: Seq<NwdPartial>,
    r: Result<(), DeriveError>,
) -> bool {
    let keys = layout_keys(l0);
    &&& r is Ok <==> {
        &&& forall|i: int| 0 <= i < l0.len() ==> layout_parent_ok(#[trigger] l0[i], root, partial_p)
        &&& items_ok(keys, c0)
        &&& items_ok(keys, l0)
        &&& items_ok(keys, p0)
    }
    &&& r matches Err(e) ==> exists|i: int| 0 <= i < l0.len()
        && (forall|j: int| 0 <= j < i ==> #[trigger] step_ok(l0, c0, p0, root, partial_p, j))
        && step_error(l0, c0, p0, root, partial_p, i, e)
    &&& r is Ok ==> {
        &&& items_state(keys, keys.len() as int, c0, c1)
        &&& items_state(keys, keys.len() as int, p0, p1)
        &&& l1.len() == l0.len()
        &&& forall|i: int| 0 <= i < l0.len() ==> layout_parent_done(l0[i], #[trigger] l1[i], root, partial_p)
        &&& forall|k: int| 0 <= k < l0.len() ==> item_state(keys, keys.len() as int, (#[trigger] l0[k]).item(),
            l0[k].item_index(), l1[k].item(), l1[k].item_index())
    }
}

/// Writes the parent of every layout and matches the layout items to their
/// layouts (`NwgUi::build`, second pass): for each layout in order, its
/// parent, then the items of controls, layouts and partials that name it and
/// were not matched yet. Stops at the first failure.
#[verifier::spinoff_prover]
#[verifier::rlimit(40)]
pub fn resolve_layouts(
    layouts: &mut Vec<NwdLayout>,
    controls: &mut Vec<NwdControl>,
    partials: &mut Vec<NwdPartial>,
    root_id: &Option<String>,
    partial_p: bool,
) -> (r: Result<(), DeriveError>)
    requires
        layout_pairs_match(old(layouts)@),
    ensures
        layouts_result(old(layouts)@, old(controls)@, old(partials)@, opt_view(*root_id), partial_p, final(layouts)@, final(controls)@, final(partials)@, r),
{
    let ghost keys = layout_keys(layouts@);
    let ghost root = opt_view(*root_id);
    let ghost c0 = controls@;
    let ghost l0 = layouts@;
    let ghost p0 = partials@;
    let n = layouts.len();
    let mut i: usize = 0;
    assert forall|k: int| 0 <= k < c0.len() implies item_state(keys, 0, (#[trigger] c0[k]).item(), c0[k].item_index(), c0[k].item(), c0[k].item_index()) by {
        match c0[k].item() { Some(ch) => {}, None => {} }
    }
    assert forall|k: int| 0 <= k < p0.len() implies item_state(keys, 0, (#[trigger] p0[k]).item(), p0[k].item_index(), p0[k].item(), p0[k].item_index()) by {
        match p0[k].item() { Some(ch) => {}, None => {} }
    }
    assert forall|k: int| 0 <= k < l0.len() implies item_state(keys, 0, (#[trigger] l0[k]).item(), l0[k].item_index(), l0[k].item(), l0[k].item_index()) by {
        match l0[k].item() { Some(ch) => {}, None => {} }
    }
    while i < n
        invariant
            n == layouts@.len(),
            n == l0.len(),
            n == keys.len(),
            i <= n,
            keys == layout_keys(l0),
            root == opt_view(*root_id),
            l0 == old(layouts)@,
            c0 == old(controls)@,
            p0 == old(partials)@,
            layout_pairs_match(l0),
            items_state(keys, i as int, c0, controls@),
            items_state(keys, i as int, p0, partials@),
            forall|k: int| 0 <= k < n ==> item_state(keys, i as int, (#[trigger] l0[k]).item(), l0[k].item_index(), layouts@[k].item(), layouts@[k].item_index()),
            forall|k: int| 0 <= k < n ==> (#[trigger] layouts@[k]).id == l0[k].id && layouts@[k].ty == l0[k].ty,
            forall|k: int| 0 <= k < i ==> layout_parent_ok(#[trigger] l0[k], root, partial_p),
            forall|j: int| 0 <= j < i ==> #[trigger] step_ok(l0, c0, p0, root, partial_p, j),
            forall|k: int| 0 <= k < i ==> layout_parent_done(l0[k], #[trigger] layouts@[k], root, partial_p),
            forall|k: int| i <= k < n ==> (#[trigger] layouts@[k]).names == l0[k].names && layouts@[k].values == l0[k].values
                && layouts@[k].weight == l0[k].weight && layouts@[k].sublayout == l0[k].sublayout,
        decreases n - i,
    {
        // the parent of layout i
        let mut l = layouts.remove(i);
        let ghost li = l;
        assert(l.names@.len() == l.values@.len()) by {
            assert(l0[i as int].names@.len() == l0[i as int].values@.len());
        }
        let pr = write_layout_parent(&mut l, root_id, partial_p);
        let id = l.id.clone();
        let ty = l.ty.clone();
        layouts.insert(i, l);
        assert(li.names == l0[i as int].names && li.values == l0[i as int].values && li.weight == l0[i as int].weight && li.id == l0[i as int].id);
        match pr {
            Ok(()) => {},
            Err(e) => {
                assert(layout_parent_fail(l0[i as int], root, partial_p, e));
                assert(step_error(l0, c0, p0, root, partial_p, i as int, e));
                return Err(e);
            },
        }
        assert(keys[i as int] == (id@, ty@));
        // the items that name it
        let ghost cm = controls@;
        let rc = place_items(controls, i, id.as_str(), ty.as_str());
        match rc {
            Ok(()) => {},
            Err(e) => {
                proof {
                    lemma_items_fail(keys, i as int, c0, cm, e);
                    lemma_items_first_error(keys, i as int, c0, cm, e);
                    assert(step_error(l0, c0, p0, root, partial_p, i as int, e));
                }
                return Err(e);
            },
        }
        proof {
            lemma_items_pass(keys, i as int, c0, cm);
            lemma_items_step(keys, i as int, c0, cm, controls@);
        }
        let ghost lm = layouts@;
        assert(items_placed(keys, i as int, l0, lm));
        let rl = place_items(layouts, i, id.as_str(), ty.as_str());
        match rl {
            Ok(()) => {},
            Err(e) => {
                proof {
                    lemma_items_fail(keys, i as int, l0, lm, e);
                    lemma_items_first_error(keys, i as int, l0, lm, e);
                    assert(step_error(l0, c0, p0, root, partial_p, i as int, e));
                }
                return Err(e);
            },
        }
        proof {
            lemma_items_pass(keys, i as int, l0, lm);
            lemma_items_step(keys, i as int, l0, lm, layouts@);
            assert forall|k: int| 0 <= k < n implies (#[trigger] layouts@[k]).names == lm[k].names && layouts@[k].values == lm[k].values
                && layouts@[k].weight == lm[k].weight && layouts@[k].sublayout == lm[k].sublayout
                && layouts@[k].id == lm[k].id && layouts@[k].ty == lm[k].ty by {
                assert(layouts@[k].rest() == lm[k].rest());
            }
        }
        let ghost pm = partials@;
        let rp = place_items(partials, i, id.as_str(), ty.as_str());
        match rp {
            Ok(()) => {},
            Err(e) => {
                proof {
                    lemma_items_fail(keys, i as int, p0, pm, e);
                    lemma_items_first_error(keys, i as int, p0, pm, e);
                    assert(step_error(l0, c0, p0, root, partial_p, i as int, e));
                }
                return Err(e);
            },
        }
        proof {
            lemma_items_pass(keys, i as int, p0, pm);
            lemma_items_step(keys, i as int, p0, pm, partials@);
            assert(step_ok(l0, c0, p0, root, partial_p, i as int));
        }
        i = i + 1;
    }
    proof {
        lemma_items_done(keys, c0, controls@);
        lemma_items_done(keys, l0, layouts@);
        lemma_items_done(keys, p0, partials@);
    }
    Ok(())
}

/// A partial without `parent` gets the root as its parent.
pub open spec fn partial_parent_defaulted(o: NwdPartial, n: NwdPartial, root: Option<Seq<char>>) -> bool {
    &&& n == NwdPartial { parent: n.parent, ..o }
    &&& opt_view(n.parent) == if o.parent is None {
        root
    } else {
        opt_view(o.parent)
    }
}

pub open spec fn partial_parents_result(o: Seq<NwdPartial>, root: Option<Seq<char>>, n: Seq<NwdPartial>) -> bool {
    &&& n.len() == o.len()
    &&& forall|k: int| 0 <= k < o.len() ==> partial_parent_defaulted(o[k], #[trigger] n[k], root)
}

/// Gives every partial without a parent the root, if there is one.
pub fn default_partial_parents(partials: &mut Vec<NwdPartial>, root_id: &Option<String>)
    ensures
        partial_parents_result(old(partials)@, opt_view(*root_id), final(partials)@),
{
    let ghost start = partials@;
    let n = partials.len();
    let mut k: usize = 0;
    while k < n
        invariant
            n == partials@.len(),
            n == start.len(),
            start == old(partials)@,
            k <= n,
            forall|j: int| k <= j < n ==> #[trigger] partials@[j] == start[j],
            forall|j: int| 0 <= j < k ==> partial_parent_defaulted(start[j], #[trigger] partials@[j], opt_view(*root_id)),
        decreases n - k,
    {
        match root_id {
            Some(rt) => {
                if partials[k].parent.is_none() {
                    let mut x = partials.remove(k);
                    x.parent = Some(rt.clone());
                    partials.insert(k, x);
                }
            },
            None => {},
        }
        k = k + 1;
    }
}

/// The first layout whose item names the layout `id`.
pub open spec fn first_child_of(ls: Seq<NwdLayout>, id: Seq<char>) -> Option<int>
    decreases ls.len(),
{
    if ls.len() == 0 {
        None
    } else if item_matches(ls[0].layout, id) {
        Some(0)
    } else {
        match first_child_of(ls.drop_first(), id) {
            Some(i) => Some(i + 1),
            None => None,
        }
    }
}

pub proof fn lemma_first_child_of(ls: Seq<NwdLayout>, id: Seq<char>)
    ensures
        match first_child_of(ls, id) {
            Some(i) => 0 <= i < ls.len() && item_matches(ls[i].layout, id) && forall|j: int| 0 <= j < i ==> !item_matches((#[trigger] ls[j]).layout, id),
            None => forall|j: int| 0 <= j < ls.len() ==> !item_matches((#[trigger] ls[j]).layout, id),
        },
    decreases ls.len(),
{
    if ls.len() > 0 {
        lemma_first_child_of(ls.drop_first(), id);
        if !item_matches(ls[0].layout, id) {
            assert forall|j: int| 1 <= j < ls.len() implies ls[j] == ls.drop_first()[j - 1] by {}
        }
    }
}

/// A new layout goes before the first layout that is placed in it, else at
/// the end.
pub open spec fn place_layout(ls: Seq<NwdLayout>, l: NwdLayout) -> Seq<NwdLayout> {
    match first_child_of(ls, l.id@) {
        Some(i) => ls.insert(i, l),
        None => ls.push(l),
    }
}

/// The layouts in the order in which they are gathered, one after the other.
pub open spec fn place_all(ps: Seq<NwdLayout>) -> Seq<NwdLayout>
    decreases ps.len(),
{
    if ps.len() == 0 {
        Seq::empty()
    } else {
        place_layout(place_all(ps.drop_last()), ps.last())
    }
}

/// Adds a layout before the first layout placed in it (the reordering of
/// `NwgUi::build`).
pub fn insert_layout(layouts: &mut Vec<NwdLayout>, l: NwdLayout)
    ensures
        final(layouts)@ == place_layout(old(layouts)@, l),
{
    proof {
        lemma_first_child_of(layouts@, l.id@);
    }
    let mut i: usize = 0;
    while i < layouts.len()
        invariant
            i <= layouts@.len(),
            layouts@ == old(layouts)@,
            forall|j: int| 0 <= j < i ==> !item_matches((#[trigger] layouts@[j]).layout, l.id@),
            match first_child_of(layouts@, l.id@) {
                Some(f) => 0 <= f < layouts@.len() && item_matches(layouts@[f].layout, l.id@)
                    && forall|j: int| 0 <= j < f ==> !item_matches((#[trigger] layouts@[j]).layout, l.id@),
                None => forall|j: int| 0 <= j < layouts@.len() ==> !item_matches((#[trigger] layouts@[j]).layout, l.id@),
            },
        decreases layouts@.len() - i,
    {
        let m = match &layouts[i].layout {
            Some(ch) => ch.parent_matches(l.id.as_str()),
            None => false,
        };
        if m {
            assert(item_matches(layouts@[i as int].layout, l.id@));
            assert(first_child_of(layouts@, l.id@) == Some(i as int));
            layouts.insert(i, l);
            return;
        }
        i = i + 1;
    }
    layouts.push(l);
}

/// The layouts in reverse order.
pub fn reverse_layouts(layouts: Vec<NwdLayout>) -> (r: Vec<NwdLayout>)
    ensures
        r@ == layouts@.reverse(),
{
    let ghost all = layouts@;
    let mut rest = layouts;
    let mut out: Vec<NwdLayout> = Vec::new();
    while rest.len() > 0
        invariant
            rest@.len() <= all.len(),
            rest@ == all.subrange(0, rest@.len() as int),
            out@.len() == all.len() - rest@.len(),
            forall|j: int| 0 <= j < out@.len() ==> #[trigger] out@[j] == all[all.len() - 1 - j],
        decreases rest@.len(),
    {
        let ghost m = rest@.len() - 1;
        let l = rest.pop().unwrap();
        assert(l == all[m]);
        out.push(l);
        assert(rest@ =~= all.subrange(0, rest@.len() as int));
    }
    assert(out@ =~= all.reverse());
    out
}

/// The bindings of a field can be registered.
pub open spec fn events_ok(field: FieldInfo) -> bool {
    &&& first_attr(field.attrs@, "nwg_shortcuts"@) matches Some(i) ==> shortcut_attr_ok(Some(field.ident), field.attrs@[i])
    &&& first_attr(field.attrs@, "nwg_events"@) matches Some(i) ==> event_attr_ok(Some(field.ident), field.attrs@[i])
}

/// The bindings of a field are registered in `ev`.
pub open spec fn events_done(ev: ControlEvents, field: FieldInfo) -> bool {
    &&& first_attr(field.attrs@, "nwg_shortcuts"@) matches Some(i) ==> ev.shortcut_attr_done(Some(field.ident), field.attrs@[i])
    &&& first_attr(field.attrs@, "nwg_events"@) matches Some(i) ==> ev.event_attr_done(Some(field.ident), field.attrs@[i])
}

/// Everything bound in `a` is bound in `b`.
pub open spec fn events_kept(a: ControlEvents, b: ControlEvents) -> bool {
    &&& forall|ee: Seq<char>, t: Option<Seq<char>>, p: PathModel| #[trigger] a.has_event(ee, t, p) ==> b.has_event(ee, t, p)
    &&& forall|kk: Seq<char>, mm: Seq<char>, t: Option<Seq<char>>, p: PathModel| #[trigger] a.has_shortcut(kk, mm, t, p) ==> b.has_shortcut(kk, mm, t, p)
}

/// The field's event attribute makes the call `c` for event `ee` and target `t`.
pub open spec fn field_makes_event(field: FieldInfo, ee: Seq<char>, t: Option<Seq<char>>, c: FunctionCall) -> bool {
    first_attr(field.attrs@, "nwg_events"@) matches Some(i) && field.attrs@[i].events matches Ok(ds)
        && exists|d: int| 0 <= d < ds@.len() && def_makes(Some(field.ident), #[trigger] ds@[d], ee, t, c)
}

/// The field's shortcut attribute makes the call `c` for the combination of
/// `kk` and `mm`, and target `t`.
pub open spec fn field_makes_shortcut(field: FieldInfo, kk: Seq<char>, mm: Seq<char>, t: Option<Seq<char>>, c: FunctionCall) -> bool {
    first_attr(field.attrs@, "nwg_shortcuts"@) matches Some(i) && field.attrs@[i].shortcuts matches Ok(ds)
        && exists|d: int| 0 <= d < ds@.len() && sdef_makes(Some(field.ident), #[trigger] ds@[d], kk, mm, t, c)
}

/// Every call stored in `b` was stored in `a`, or is made by the bindings of
/// one of the first `n` fields.
pub open spec fn calls_only_from(fields: Seq<FieldInfo>, n: int, a: ControlEvents, b: ControlEvents) -> bool {
    &&& forall|ee: Seq<char>, t: Option<Seq<char>>, c: FunctionCall| #[trigger] b.stored_event(ee, t, c) ==> a.stored_event(ee, t, c)
        || exists|p: int| 0 <= p < n && field_makes_event(#[trigger] fields[p], ee, t, c)
    &&& forall|kk: Seq<char>, mm: Seq<char>, t: Option<Seq<char>>, c: FunctionCall| #[trigger] b.stored_shortcut(kk, mm, t, c) ==> a.stored_shortcut(kk, mm, t, c)
        || exists|p: int| 0 <= p < n && field_makes_shortcut(#[trigger] fields[p], kk, mm, t, c)
}

proof fn lemma_calls_step(fields: Seq<FieldInfo>, n: int, pos: int, e0: ControlEvents, a: ControlEvents, b: ControlEvents)
    requires
        0 <= pos < n,
        calls_only_from(fields, n, e0, a),
        forall|ee: Seq<char>, t: Option<Seq<char>>, c: FunctionCall| #[trigger] b.stored_event(ee, t, c) ==> a.stored_event(ee, t, c)
            || field_makes_event(fields[pos], ee, t, c),
        forall|kk: Seq<char>, mm: Seq<char>, t: Option<Seq<char>>, c: FunctionCall| #[trigger] b.stored_shortcut(kk, mm, t, c) ==> a.stored_shortcut(kk, mm, t, c)
            || field_makes_shortcut(fields[pos], kk, mm, t, c),
    ensures
        calls_only_from(fields, n, e0, b),
{
    assert forall|ee: Seq<char>, t: Option<Seq<char>>, c: FunctionCall| #[trigger] b.stored_event(ee, t, c) implies e0.stored_event(ee, t, c)
        || exists|p: int| 0 <= p < n && field_makes_event(#[trigger] fields[p], ee, t, c) by {
        if !a.stored_event(ee, t, c) {
            assert(field_makes_event(fields[pos], ee, t, c));
        }
    }
    assert forall|kk: Seq<char>, mm: Seq<char>, t: Option<Seq<char>>, c: FunctionCall| #[trigger] b.stored_shortcut(kk, mm, t, c) implies e0.stored_shortcut(kk, mm, t, c)
        || exists|p: int| 0 <= p < n && field_makes_shortcut(#[trigger] fields[p], kk, mm, t, c) by {
        if !a.stored_shortcut(kk, mm, t, c) {
            assert(field_makes_shortcut(fields[pos], kk, mm, t, c));
        }
    }
}

proof fn lemma_calls_same(fields: Seq<FieldInfo>, n: int, e0: ControlEvents, a: ControlEvents, b: ControlEvents)
    requires
        calls_only_from(fields, n, e0, a),
        a.callbacks == b.callbacks,
        a.shortcuts == b.shortcuts,
    ensures
        calls_only_from(fields, n, e0, b),
{
    assert forall|ee: Seq<char>, t: Option<Seq<char>>, c: FunctionCall| #[trigger] b.stored_event(ee, t, c) implies a.stored_event(ee, t, c) by {}
    assert forall|kk: Seq<char>, mm: Seq<char>, t: Option<Seq<char>>, c: FunctionCall| #[trigger] b.stored_shortcut(kk, mm, t, c) implies a.stored_shortcut(kk, mm, t, c) by {}
}

proof fn lemma_calls_widen(fields: Seq<FieldInfo>, n: int, e0: ControlEvents, a: ControlEvents)
    requires
        calls_only_from(fields, n, e0, a),
    ensures
        calls_only_from(fields, n + 1, e0, a),
{
    assert forall|ee: Seq<char>, t: Option<Seq<char>>, c: FunctionCall| #[trigger] a.stored_event(ee, t, c) implies e0.stored_event(ee, t, c)
        || exists|p: int| 0 <= p < n + 1 && field_makes_event(#[trigger] fields[p], ee, t, c) by {
        if !e0.stored_event(ee, t, c) {
            let p = choose|p: int| 0 <= p < n && field_makes_event(#[trigger] fields[p], ee, t, c);
            assert(field_makes_event(fields[p], ee, t, c));
        }
    }
    assert forall|kk: Seq<char>, mm: Seq<char>, t: Option<Seq<char>>, c: FunctionCall| #[trigger] a.stored_shortcut(kk, mm, t, c) implies e0.stored_shortcut(kk, mm, t, c)
        || exists|p: int| 0 <= p < n + 1 && field_makes_shortcut(#[trigger] fields[p], kk, mm, t, c) by {
        if !e0.stored_shortcut(kk, mm, t, c) {
            let p = choose|p: int| 0 <= p < n && field_makes_shortcut(#[trigger] fields[p], kk, mm, t, c);
            assert(field_makes_shortcut(fields[p], kk, mm, t, c));
        }
    }
}

proof fn lemma_events_done_kept(a: ControlEvents, b: ControlEvents, field: FieldInfo)
    requires
        events_done(a, field),
        events_kept(a, b),
    ensures
        events_done(b, field),
{
    match first_attr(field.attrs@, "nwg_shortcuts"@) {
        Some(i) => {
            let ds = field.attrs@[i].shortcuts->Ok_0;
            assert forall|d: int| 0 <= d < ds@.len() implies b.registered_shortcuts(Some(field.ident), #[trigger] ds@[d]) by {
                assert(a.registered_shortcuts(Some(field.ident), ds@[d]));
            }
        },
        None => {},
    }
    match first_attr(field.attrs@, "nwg_events"@) {
        Some(i) => {
            let ds = field.attrs@[i].events->Ok_0;
            assert forall|d: int| 0 <= d < ds@.len() implies b.registered(Some(field.ident), #[trigger] ds@[d]) by {
                assert(a.registered(Some(field.ident), ds@[d]));
            }
        },
        None => {},
    }
}

/// The layout item attribute of the field, if any, parses.
pub open spec fn layout_item_ok(field: FieldInfo) -> bool {
    match first_attr(field.attrs@, "nwg_layout_item"@) {
        None => true,
        Some(i) => field.attrs@[i].params is Ok,
    }
}

pub open spec fn control_read_ok(field: FieldInfo) -> bool {
    let attr = field.attrs@[control_attr(field)->Some_0];
    &&& attr.params matches Ok(ps) && control_type(field, ps@) is Some
    &&& layout_item_ok(field)
}

pub open spec fn resource_read_ok(field: FieldInfo) -> bool {
    field.attrs@[first_attr(field.attrs@, "nwg_resource"@)->Some_0].params matches Ok(ps) && control_type(field, ps@) is Some
}

pub open spec fn layout_read_ok(field: FieldInfo) -> bool {
    &&& field.ty_ident is Some
    &&& field.attrs@[first_attr(field.attrs@, "nwg_layout"@)->Some_0].params is Ok
    &&& layout_item_ok(field)
}

pub open spec fn partial_read_ok(field: FieldInfo) -> bool {
    &&& field.attrs@[partial_attr(field)->Some_0].params is Ok
    &&& field.ty_ident is Some
    &&& layout_item_ok(field)
}

proof fn lemma_prepared(field: FieldInfo, r: Result<Option<LayoutChild>, DeriveError>)
    requires
        prepared_layout_ok(field, r),
    ensures
        r is Ok <==> layout_item_ok(field),
{
}

proof fn lemma_control_read(field: FieldInfo, pos: u16, r: Result<NwdControl, DeriveError>)
    requires
        control_result(field, pos, r),
    ensures
        r is Ok <==> control_read_ok(field),
        r matches Ok(c) ==> c.names@.len() == c.values@.len(),
{
    let attr = field.attrs@[control_attr(field)->Some_0];
    match attr.params {
        Ok(ps) => match control_type(field, ps@) {
            Some(ty) => match r {
                Ok(c) => lemma_prepared(field, Ok(c.layout)),
                Err(e) => lemma_prepared(field, Err(e)),
            },
            None => {},
        },
        Err(_) => {},
    }
}

proof fn lemma_resource_read(field: FieldInfo, r: Result<NwdResource, DeriveError>)
    requires
        resource_result(field, r),
    ensures
        r is Ok <==> resource_read_ok(field),
{
}

proof fn lemma_layout_read(field: FieldInfo, pos: u16, sub: bool, r: Result<NwdLayout, DeriveError>)
    requires
        layout_result(field, pos, sub, r),
    ensures
        r is Ok <==> layout_read_ok(field),
        r matches Ok(l) ==> l.names@.len() == l.values@.len(),
{
    match field.ty_ident {
        Some(t) => match field.attrs@[first_attr(field.attrs@, "nwg_layout"@)->Some_0].params {
            Ok(ps) => match r {
                Ok(l) => lemma_prepared(field, Ok(l.layout)),
                Err(e) => lemma_prepared(field, Err(e)),
            },
            Err(_) => {},
        },
        None => {},
    }
}

proof fn lemma_partial_read(field: FieldInfo, pos: u16, nested: bool, r: Result<NwdPartial, DeriveError>)
    requires
        partial_result(field, pos, nested, r),
    ensures
        r is Ok <==> partial_read_ok(field),
{
    match field.attrs@[partial_attr(field)->Some_0].params {
        Ok(ps) => match field.ty_ident {
            Some(t) => match r {
                Ok(p) => lemma_prepared(field, Ok(p.layout)),
                Err(e) => lemma_prepared(field, Err(e)),
            },
            None => {},
        },
        Err(_) => {},
    }
}

/// What a field is read as: a control, then (independently) a resource, else
/// a layout, else a partial.
pub enum FieldKind {
    Control,
    Resource,
    Layout,
    Partial,
}

pub open spec fn is_kind(field: FieldInfo, kind: FieldKind) -> bool {
    match kind {
        FieldKind::Control => NwdControl::valid_spec(field),
        FieldKind::Resource => NwdResource::valid_spec(field),
        FieldKind::Layout => !NwdResource::valid_spec(field) && NwdLayout::valid_spec(field),
        FieldKind::Partial => !NwdResource::valid_spec(field) && !NwdLayout::valid_spec(field) && NwdPartial::valid_spec(field),
    }
}

/// Positions, among the first `upto` fields, of the fields of a kind.
pub open spec fn kind_positions(fields: Seq<FieldInfo>, kind: FieldKind, upto: int) -> Seq<int>
    decreases upto,
{
    if upto <= 0 {
        Seq::empty()
    } else if is_kind(fields[upto - 1], kind) {
        kind_positions(fields, kind, upto - 1).push(upto - 1)
    } else {
        kind_positions(fields, kind, upto - 1)
    }
}

/// A control field whose default handler is bound.
pub open spec fn handle_field(field: FieldInfo) -> bool {
    &&& NwdControl::valid_spec(field)
    &&& field.attrs@.len() > 0
    &&& field.ty_ident matches Some(t) && (t@ == "Window"@ || t@ == "FancyWindow"@ || t@ == "MessageWindow"@)
}

/// Names of the fields, among the first `upto`, whose handler is bound.
pub open spec fn handle_ids(fields: Seq<FieldInfo>, upto: int) -> Seq<Seq<char>>
    decreases upto,
{
    if upto <= 0 {
        Seq::empty()
    } else if handle_field(fields[upto - 1]) {
        handle_ids(fields, upto - 1).push(fields[upto - 1].ident@)
    } else {
        handle_ids(fields, upto - 1)
    }
}

/// Names of the partial fields among the first `upto`.
pub open spec fn partial_ids(fields: Seq<FieldInfo>, upto: int) -> Seq<Seq<char>>
    decreases upto,
{
    if upto <= 0 {
        Seq::empty()
    } else if is_kind(fields[upto - 1], FieldKind::Partial) {
        partial_ids(fields, upto - 1).push(fields[upto - 1].ident@)
    } else {
        partial_ids(fields, upto - 1)
    }
}

/// The first control field, among the first `upto`, marked as the root.
pub open spec fn first_root(fields: Seq<FieldInfo>, upto: int) -> Option<int>
    decreases upto,
{
    if upto <= 0 {
        None
    } else {
        match first_root(fields, upto - 1) {
            Some(p) => Some(p),
            None => if NwdControl::valid_spec(fields[upto - 1]) && NwdControl::is_root_spec(fields[upto - 1]) {
                Some(upto - 1)
            } else {
                None
            },
        }
    }
}

/// Reading the field succeeds.
pub open spec fn field_ok(field: FieldInfo) -> bool {
    &&& is_kind(field, FieldKind::Control) ==> control_read_ok(field) && events_ok(field)
    &&& is_kind(field, FieldKind::Resource) ==> resource_read_ok(field)
    &&& is_kind(field, FieldKind::Layout) ==> layout_read_ok(field)
    &&& is_kind(field, FieldKind::Partial) ==> partial_read_ok(field) && events_ok(field)
}

/// Reading the field at `pos` fails with `e`.
pub open spec fn field_fails(field: FieldInfo, pos: u16, partial_p: bool, e: DeriveError) -> bool {
    let control_ok = is_kind(field, FieldKind::Control) ==> control_read_ok(field) && events_ok(field);
    let bindings_fail = !events_ok(field) && bindings_error(Some(field.ident), field.attrs@, e);
    ||| is_kind(field, FieldKind::Control) && control_result(field, pos, Err(e))
    ||| is_kind(field, FieldKind::Control) && control_read_ok(field) && bindings_fail
    ||| control_ok && is_kind(field, FieldKind::Resource) && resource_result(field, Err(e))
    ||| control_ok && is_kind(field, FieldKind::Layout) && layout_result(field, pos, partial_p, Err(e))
    ||| control_ok && is_kind(field, FieldKind::Partial) && partial_result(field, pos, partial_p, Err(e))
    ||| control_ok && is_kind(field, FieldKind::Partial) && partial_read_ok(field) && bindings_fail
}

/// Fields without attributes, whatever their type, are left untouched:
/// none is read as a control, a resource, a layout or a partial, none gets
/// the default handler, and reading one cannot fail.
pub proof fn law_plain_fields_untouched(field: FieldInfo, pos: u16, partial_p: bool, e: DeriveError)
    requires
        field.attrs@.len() == 0,
    ensures
        !is_kind(field, FieldKind::Control),
        !is_kind(field, FieldKind::Resource),
        !is_kind(field, FieldKind::Layout),
        !is_kind(field, FieldKind::Partial),
        !handle_field(field),
        field_ok(field),
        !field_fails(field, pos, partial_p, e),
{
}

/// The fields read, before their parents and layouts are resolved.
pub struct FieldItems {
    pub controls: Vec<NwdControl>,
    pub resources: Vec<NwdResource>,
    pub layouts: Vec<NwdLayout>,
    pub partials: Vec<NwdPartial>,
    pub root_id: Option<String>,
    pub root_type: Option<String>,
}

/// What reading all the fields gave, with the events before (`e0`) and
/// after (`e1`).
pub open spec fn fields_read(fields: Seq<FieldInfo>, partial_p: bool, e0: ControlEvents, e1: ControlEvents, c: FieldItems) -> bool {
    let n = fields.len() as int;
    let cp = kind_positions(fields, FieldKind::Control, n);
    let rp = kind_positions(fields, FieldKind::Resource, n);
    let lp = kind_positions(fields, FieldKind::Layout, n);
    let pp = kind_positions(fields, FieldKind::Partial, n);
    &&& c.controls@.len() == cp.len()
    &&& forall|k: int| 0 <= k < cp.len() ==> control_result(fields[cp[k]], cp[k] as u16, Ok(#[trigger] c.controls@[k]))
    &&& c.resources@.len() == rp.len()
    &&& forall|k: int| 0 <= k < rp.len() ==> resource_result(fields[rp[k]], Ok(#[trigger] c.resources@[k]))
    &&& exists|parsed: Seq<NwdLayout>| #![trigger place_all(parsed)] parsed.len() == lp.len()
        && (forall|k: int| 0 <= k < lp.len() ==> layout_result(fields[lp[k]], lp[k] as u16, partial_p, Ok(#[trigger] parsed[k])))
        && c.layouts@ == place_all(parsed)
    &&& c.partials@.len() == pp.len()
    &&& forall|k: int| 0 <= k < pp.len() ==> partial_result(fields[pp[k]], pp[k] as u16, partial_p, Ok(#[trigger] c.partials@[k]))
    &&& match first_root(fields, n) {
        None => c.root_id is None && c.root_type is None,
        Some(p) => opt_view(c.root_id) == Some(fields[p].ident@)
            && exists|k: int| 0 <= k < cp.len() && cp[k] == p && opt_view(c.root_type) == Some((#[trigger] c.controls@[k]).ty@),
    }
    &&& e1.wf()
    &&& e1.partial == e0.partial
    &&& views(e1.handles@) == views(e0.handles@) + handle_ids(fields, n)
    &&& views(e1.partial_members@) == views(e0.partial_members@) + partial_ids(fields, n)
    &&& events_kept(e0, e1)
    &&& calls_only_from(fields, n, e0, e1)
    &&& forall|p: int| 0 <= p < n && (is_kind(#[trigger] fields[p], FieldKind::Control) || is_kind(fields[p], FieldKind::Partial)) ==> events_done(e1, fields[p])
}

pub open spec fn fields_wf(fields: Seq<FieldInfo>) -> bool {
    forall|p: int| 0 <= p < fields.len() ==> attrs_wf((#[trigger] fields[p]).attrs@)
}

/// What reading all the fields gives, with the events before (`e0`) and
/// after (`e1`).
pub open spec fn collect_result(fields: Seq<FieldInfo>, partial_p: bool, e0: ControlEvents, e1: ControlEvents, r: Result<FieldItems, DeriveError>) -> bool {
    &&& r is Ok <==> forall|p: int| 0 <= p < fields.len() ==> field_ok(#[trigger] fields[p])
    &&& r matches Err(e) ==> exists|p: int| 0 <= p < fields.len()
        && (forall|q: int| 0 <= q < p ==> field_ok(#[trigger] fields[q]))
        && field_fails(#[trigger] fields[p], p as u16, partial_p, e)
    &&& r matches Ok(c) ==> fields_read(fields, partial_p, e0, e1, c)
}

/// Reads every field in order (`NwgUi::build`, first pass): controls (with
/// their bindings and the root), resources, layouts (each placed before the
/// first layout that holds it) and partials (with their bindings). Stops at
/// the first field that cannot be read.
#[verifier::spinoff_prover]
#[verifier::rlimit(40)]
pub fn collect_fields(fields: &Vec<FieldInfo>, partial_p: bool, events: &mut ControlEvents) -> (r: Result<FieldItems, DeriveError>)
    requires
        fields@.len() <= 65536,
        fields_wf(fields@),
        old(events).wf(),
    ensures
        collect_result(fields@, partial_p, *old(events), *final(events), r),
{
    let n = fields.len();
    let ghost e0 = *events;
    let mut controls: Vec<NwdControl> = Vec::new();
    let mut resources: Vec<NwdResource> = Vec::new();
    let mut layouts: Vec<NwdLayout> = Vec::new();
    let mut partials: Vec<NwdPartial> = Vec::new();
    let mut root_id: Option<String> = None;
    let mut root_type: Option<String> = None;
    let ghost mut parsed: Seq<NwdLayout> = Seq::empty();
    let mut pos: usize = 0;
    assert(views(events.handles@) =~= views(e0.handles@) + handle_ids(fields@, 0));
    assert(views(events.partial_members@) =~= views(e0.partial_members@) + partial_ids(fields@, 0));
    while pos < n
        invariant
            n == fields@.len(),
            n <= 65536,
            pos <= n,
            fields_wf(fields@),
            forall|q: int| 0 <= q < pos ==> field_ok(#[trigger] fields@[q]),
            controls@.len() == kind_positions(fields@, FieldKind::Control, pos as int).len(),
            forall|k: int| 0 <= k < controls@.len() ==> control_result(fields@[kind_positions(fields@, FieldKind::Control, pos as int)[k]],
                kind_positions(fields@, FieldKind::Control, pos as int)[k] as u16, Ok(#[trigger] controls@[k])),
            resources@.len() == kind_positions(fields@, FieldKind::Resource, pos as int).len(),
            forall|k: int| 0 <= k < resources@.len() ==> resource_result(fields@[kind_positions(fields@, FieldKind::Resource, pos as int)[k]],
                Ok(#[trigger] resources@[k])),
            parsed.len() == kind_positions(fields@, FieldKind::Layout, pos as int).len(),
            forall|k: int| 0 <= k < parsed.len() ==> layout_result(fields@[kind_positions(fields@, FieldKind::Layout, pos as int)[k]],
                kind_positions(fields@, FieldKind::Layout, pos as int)[k] as u16, partial_p, Ok(#[trigger] parsed[k])),
            layouts@ == place_all(parsed),
            partials@.len() == kind_positions(fields@, FieldKind::Partial, pos as int).len(),
            forall|k: int| 0 <= k < partials@.len() ==> partial_result(fields@[kind_positions(fields@, FieldKind::Partial, pos as int)[k]],
                kind_positions(fields@, FieldKind::Partial, pos as int)[k] as u16, partial_p, Ok(#[trigger] partials@[k])),
            match first_root(fields@, pos as int) {
                None => root_id is None && root_type is None,
                Some(p) => opt_view(root_id) == Some(fields@[p].ident@)
                    && exists|k: int| 0 <= k < controls@.len() && kind_positions(fields@, FieldKind::Control, pos as int)[k] == p
                        && opt_view(root_type) == Some((#[trigger] controls@[k]).ty@),
            },
            events.wf(),
            events.partial == e0.partial,
            views(events.handles@) == views(e0.handles@) + handle_ids(fields@, pos as int),
            views(events.partial_members@) == views(e0.partial_members@) + partial_ids(fields@, pos as int),
            events_kept(e0, *events),
            calls_only_from(fields@, pos as int, e0, *events),
            forall|p: int| 0 <= p < pos && (is_kind(#[trigger] fields@[p], FieldKind::Control) || is_kind(fields@[p], FieldKind::Partial))
                ==> events_done(*events, fields@[p]),
            e0 == *old(events),
        decreases n - pos,
    {
        let field = &fields[pos];
        let ghost f = fields@[pos as int];
        let ghost ev_start = *events;
        let ghost cp = kind_positions(fields@, FieldKind::Control, pos as int);
        let ghost rp = kind_positions(fields@, FieldKind::Resource, pos as int);
        let ghost lp = kind_positions(fields@, FieldKind::Layout, pos as int);
        let ghost pp = kind_positions(fields@, FieldKind::Partial, pos as int);
        let ghost cs0 = controls@;
        let ghost hv0 = views(events.handles@);
        let ghost pv0 = views(events.partial_members@);
        assert(attrs_wf(f.attrs@));
        proof {
            lemma_calls_widen(fields@, pos as int, e0, ev_start);
        }
        let fpos = pos as u16;
        if NwdControl::valid(field) {
            let control = match NwdControl::parse(field, fpos) {
                Ok(c) => c,
                Err(e) => {
                    proof {
                        lemma_control_read(f, fpos, Err(e));
                        assert(field_fails(f, fpos, partial_p, e));
                    }
                    return Err(e);
                },
            };
            proof {
                lemma_control_read(f, fpos, Ok(control));
            }
            if root_id.is_none() && NwdControl::is_root(field) {
                let (a, b) = control.get_root_info();
                root_id = a;
                root_type = b;
            }
            events.add_top_level_handle(field);
            proof {
                if handle_field(f) {
                    assert(events.handles@ =~= ev_start.handles@.push(events.handles@.last()));
                    assert(views(events.handles@) =~= hv0.push(f.ident@));
                }
            }
            let ghost ev_mid = *events;
            proof {
                lemma_calls_same(fields@, pos as int + 1, e0, ev_start, ev_mid);
            }
            match events.parse(field) {
                Ok(()) => {},
                Err(e) => {
                    assert(!events_ok(f));
                    assert(field_fails(f, fpos, partial_p, e));
                    return Err(e);
                },
            }
            proof {
                lemma_calls_step(fields@, pos as int + 1, pos as int, e0, ev_mid, *events);
                assert(events_ok(f));
                assert(events_done(*events, f));
                assert(events_kept(ev_start, *events)) by {
                    assert forall|ee: Seq<char>, t: Option<Seq<char>>, p: PathModel| #[trigger] ev_start.has_event(ee, t, p) implies events.has_event(ee, t, p) by {
                        assert(ev_mid.has_event(ee, t, p));
                    }
                    assert forall|kk: Seq<char>, mm: Seq<char>, t: Option<Seq<char>>, p: PathModel| #[trigger] ev_start.has_shortcut(kk, mm, t, p) implies events.has_shortcut(kk, mm, t, p) by {
                        assert(ev_mid.has_shortcut(kk, mm, t, p));
                    }
                }
            }
            controls.push(control);
        }
        let ghost ev_c = *events;
        let ghost ctrl_ok = is_kind(f, FieldKind::Control) ==> control_read_ok(f) && events_ok(f);
        assert(ctrl_ok);
        if NwdResource::valid(field) {
            match NwdResource::parse(field) {
                Ok(res) => {
                    proof {
                        lemma_resource_read(f, Ok(res));
                    }
                    resources.push(res);
                },
                Err(e) => {
                    proof {
                        lemma_resource_read(f, Err(e));
                    }
                    assert(field_fails(f, fpos, partial_p, e));
                    return Err(e);
                },
            }
        } else if NwdLayout::valid(field) {
            match NwdLayout::parse(field, fpos, partial_p) {
                Ok(l) => {
                    proof {
                        lemma_layout_read(f, fpos, partial_p, Ok(l));
                        let np = parsed.push(l);
                        assert(np.drop_last() =~= parsed);
                        parsed = np;
                    }
                    insert_layout(&mut layouts, l);
                },
                Err(e) => {
                    proof {
                        lemma_layout_read(f, fpos, partial_p, Err(e));
                    }
                    assert(field_fails(f, fpos, partial_p, e));
                    return Err(e);
                },
            }
        } else if NwdPartial::valid(field) {
            let partial = match NwdPartial::parse(field, fpos, partial_p) {
                Ok(p) => p,
                Err(e) => {
                    proof {
                        lemma_partial_read(f, fpos, partial_p, Err(e));
                    }
                    assert(field_fails(f, fpos, partial_p, e));
                    return Err(e);
                },
            };
            proof {
                lemma_partial_read(f, fpos, partial_p, Ok(partial));
            }
            events.add_partial(&partial.id);
            proof {
                assert(views(events.partial_members@) =~= pv0.push(f.ident@));
            }
            let ghost ev_mid = *events;
            proof {
                lemma_calls_same(fields@, pos as int + 1, e0, ev_c, ev_mid);
            }
            match events.parse(field) {
                Ok(()) => {},
                Err(e) => {
                    assert(!events_ok(f));
                    assert(field_fails(f, fpos, partial_p, e));
                    return Err(e);
                },
            }
            proof {
                lemma_calls_step(fields@, pos as int + 1, pos as int, e0, ev_mid, *events);
                assert(events_done(*events, f));
                assert(events_kept(ev_c, *events)) by {
                    assert forall|ee: Seq<char>, t: Option<Seq<char>>, p: PathModel| #[trigger] ev_c.has_event(ee, t, p) implies events.has_event(ee, t, p) by {
                        assert(ev_mid.has_event(ee, t, p));
                    }
                    assert forall|kk: Seq<char>, mm: Seq<char>, t: Option<Seq<char>>, p: PathModel| #[trigger] ev_c.has_shortcut(kk, mm, t, p) implies events.has_shortcut(kk, mm, t, p) by {
                        assert(ev_mid.has_shortcut(kk, mm, t, p));
                    }
                }
            }
            partials.push(partial);
        }
        proof {
            assert(field_ok(f));
            assert(events_kept(e0, *events)) by {
                assert forall|ee: Seq<char>, t: Option<Seq<char>>, p: PathModel| #[trigger] e0.has_event(ee, t, p) implies events.has_event(ee, t, p) by {
                    assert(ev_start.has_event(ee, t, p));
                    assert(ev_c.has_event(ee, t, p));
                }
                assert forall|kk: Seq<char>, mm: Seq<char>, t: Option<Seq<char>>, p: PathModel| #[trigger] e0.has_shortcut(kk, mm, t, p) implies events.has_shortcut(kk, mm, t, p) by {
                    assert(ev_start.has_shortcut(kk, mm, t, p));
                    assert(ev_c.has_shortcut(kk, mm, t, p));
                }
            }
            assert forall|p: int| 0 <= p < pos + 1 && (is_kind(#[trigger] fields@[p], FieldKind::Control) || is_kind(fields@[p], FieldKind::Partial))
                implies events_done(*events, fields@[p]) by {
                if p < pos {
                    lemma_events_done_kept(ev_start, ev_c, fields@[p]);
                    lemma_events_done_kept(ev_c, *events, fields@[p]);
                } else if is_kind(f, FieldKind::Control) && !is_kind(f, FieldKind::Partial) {
                    lemma_events_done_kept(ev_c, *events, f);
                }
            }
            if handle_field(f) {
                assert(views(events.handles@) == hv0.push(f.ident@));
            } else {
                assert(views(events.handles@) == hv0);
            }
            assert(views(events.handles@) =~= views(e0.handles@) + handle_ids(fields@, pos + 1));
            if is_kind(f, FieldKind::Partial) {
                assert(views(events.partial_members@) == pv0.push(f.ident@));
            } else {
                assert(views(events.partial_members@) == pv0);
            }
            assert(views(events.partial_members@) =~= views(e0.partial_members@) + partial_ids(fields@, pos + 1));
            let ncp = kind_positions(fields@, FieldKind::Control, pos + 1);
            match first_root(fields@, pos as int) {
                Some(p) => {
                    let k = choose|k: int| 0 <= k < cs0.len() && cp[k] == p && opt_view(root_type) == Some((#[trigger] cs0[k]).ty@);
                    assert(ncp[k] == p && controls@[k] == cs0[k]);
                },
                None => {
                    if NwdControl::valid_spec(f) && NwdControl::is_root_spec(f) {
                        let k = cs0.len() as int;
                        assert(ncp[k] == pos && controls@[k].ty@ == opt_view(root_type)->Some_0);
                    }
                },
            }
        }
        pos = pos + 1;
    }
    let items = FieldItems { controls, resources, layouts, partials, root_id, root_type };
    proof {
        assert(fields_read(fields@, partial_p, e0, *events, items));
    }
    Ok(items)
}

pub proof fn lemma_place_all(ps: Seq<NwdLayout>)
    ensures
        place_all(ps).len() == ps.len(),
        forall|j: int| 0 <= j < ps.len() ==> exists|k: int| 0 <= k < ps.len() && #[trigger] place_all(ps)[j] == ps[k],
    decreases ps.len(),
{
    if ps.len() > 0 {
        let init = ps.drop_last();
        lemma_place_all(init);
        let ls = place_all(init);
        let l = ps.last();
        lemma_first_child_of(ls, l.id@);
        assert forall|j: int| 0 <= j < ps.len() implies exists|k: int| 0 <= k < ps.len() && #[trigger] place_all(ps)[j] == ps[k] by {
            let out = place_all(ps);
            match first_child_of(ls, l.id@) {
                Some(i) => {
                    if j < i {
                        assert(out[j] == ls[j]);
                        let k = choose|k: int| 0 <= k < init.len() && ls[j] == init[k];
                        assert(out[j] == ps[k]);
                    } else if j == i {
                        assert(out[j] == ps[ps.len() - 1]);
                    } else {
                        assert(out[j] == ls[j - 1]);
                        let k = choose|k: int| 0 <= k < init.len() && ls[j - 1] == init[k];
                        assert(out[j] == ps[k]);
                    }
                },
                None => {
                    if j < ls.len() {
                        assert(out[j] == ls[j]);
                        let k = choose|k: int| 0 <= k < init.len() && ls[j] == init[k];
                        assert(out[j] == ps[k]);
                    } else {
                        assert(out[j] == ps[ps.len() - 1]);
                    }
                },
            }
        }
    }
}

/// The model of a UI struct: what the derive generates code from.
pub struct NwgUi {
    pub controls: Vec<NwdControl>,
    pub resources: Vec<NwdResource>,
    pub layouts: Vec<NwdLayout>,
    pub partials: Vec<NwdPartial>,
    pub events: ControlEvents,
    pub root_id: Option<String>,
    pub root_type: Option<String>,
}

/// Events with nothing registered yet.
pub open spec fn fresh_events(e: ControlEvents, partial_p: bool) -> bool {
    &&& e.wf()
    &&& e.partial == partial_p
    &&& e.handles@.len() == 0
    &&& e.callbacks@.len() == 0
    &&& e.partial_members@.len() == 0
    &&& e.shortcuts@.len() == 0
}

/// The intermediate values of a build: the fresh events, the events after
/// the struct's own bindings, the fields read, the events after the fields,
/// the layouts, controls and partials once the layouts are resolved, the
/// controls and partials with their parents, the controls with their
/// weights, and with their flags.
pub type BuildTrace = (
    ControlEvents,
    ControlEvents,
    FieldItems,
    ControlEvents,
    Seq<NwdLayout>,
    Seq<NwdControl>,
    Seq<NwdPartial>,
    Seq<NwdControl>,
    Seq<NwdPartial>,
    Seq<NwdControl>,
    Seq<NwdControl>,
);

/// A build of the UI through the intermediate values `t`, and its outcome.
pub open spec fn build_trace(fields: Seq<FieldInfo>, attrs: Seq<AttrInfo>, partial_p: bool, t: BuildTrace, r: Result<NwgUi, DeriveError>) -> bool {
    let (e0, g, items, ev, l1, c1, p1, c2, p2, c3, c4) = t;
    let root = opt_view(items.root_id);
    let global_ok = global_result(attrs, e0, g, Ok(()));
    let read_ok = global_ok && collect_result(fields, partial_p, g, ev, Ok(items));
    let layouts_ok = read_ok && layouts_result(items.layouts@.reverse(), items.controls@, items.partials@, root, partial_p, l1, c1, p1, Ok(()));
    let parents_ok = layouts_ok && control_parents_result(c1, root, partial_p, c2, Ok(())) && partial_parents_result(p1, root, p2);
    let weights_ok = parents_ok && weights_result(c2, c3, Ok(()));
    &&& fresh_events(e0, partial_p)
    &&& match r {
        Ok(ui) => {
            &&& weights_ok && all_flags_result(c3, c4, Ok(()))
            &&& sorted_result(c4, ui.controls@)
            &&& ui.resources == items.resources
            &&& ui.layouts@ == l1
            &&& ui.partials@ == p2
            &&& ui.events == ev
            &&& ui.root_id == items.root_id
            &&& ui.root_type == items.root_type
        },
        Err(e) => {
            ||| global_result(attrs, e0, g, Err(e))
            ||| global_ok && collect_result(fields, partial_p, g, ev, Err(e))
            ||| read_ok && layouts_result(items.layouts@.reverse(), items.controls@, items.partials@, root, partial_p, l1, c1, p1, Err(e))
            ||| layouts_ok && control_parents_result(c1, root, partial_p, c2, Err(e))
            ||| parents_ok && weights_result(c2, c3, Err(e))
            ||| weights_ok && all_flags_result(c3, c4, Err(e))
        },
    }
}

/// What building the UI gives: a build through some intermediate values.
pub open spec fn build_result(fields: Seq<FieldInfo>, attrs: Seq<AttrInfo>, partial_p: bool, r: Result<NwgUi, DeriveError>) -> bool {
    exists|t: BuildTrace| #[trigger] build_trace(fields, attrs, partial_p, t, r)
}

impl NwgUi {
    /// Builds the model of a UI struct from its fields and its own attributes:
    /// the struct's bindings, then every field, then layout
    /// parents and items (layouts in reverse order of gathering), control and
    /// partial parents, control weights and flags, and finally the controls in
    /// creation order.
    #[verifier::spinoff_prover]
    #[verifier::rlimit(40)]
    pub fn build(fields: &Vec<FieldInfo>, attrs: &Vec<AttrInfo>, partial_p: bool) -> (r: Result<NwgUi, DeriveError>)
        requires
            fields@.len() <= 65536,
            fields_wf(fields@),
            attrs_wf(attrs@),
        ensures
            build_result(fields@, attrs@, partial_p, r),
    {
        let mut events = ControlEvents::with_capacity(partial_p, fields.len());
        let ghost e0 = events;
        let gr = events.parse_global(attrs);
        let ghost g = events;
        let ghost dummy_items: FieldItems = vstd::pervasive::arbitrary();
        match gr {
            Ok(()) => {},
            Err(e) => {
                proof {
                    let t: BuildTrace = (e0, g, dummy_items, g, Seq::empty(), Seq::empty(), Seq::empty(), Seq::empty(), Seq::empty(), Seq::empty(), Seq::empty());
                    assert(build_trace(fields@, attrs@, partial_p, t, Err(e)));
                }
                return Err(e);
            },
        }
        let items = match collect_fields(fields, partial_p, &mut events) {
            Ok(items) => items,
            Err(e) => {
                proof {
                    let t: BuildTrace = (e0, g, dummy_items, events, Seq::empty(), Seq::empty(), Seq::empty(), Seq::empty(), Seq::empty(), Seq::empty(), Seq::empty());
                    assert(build_trace(fields@, attrs@, partial_p, t, Err(e)));
                }
                return Err(e);
            },
        };
        let ghost items0 = items;
        let FieldItems { controls, resources, layouts, partials, root_id, root_type } = items;
        let mut controls = controls;
        let mut partials = partials;
        let mut layouts = reverse_layouts(layouts);
        proof {
            assert(layout_pairs_match(layouts@)) by {
                let lp = kind_positions(fields@, FieldKind::Layout, fields@.len() as int);
                let parsed = choose|parsed: Seq<NwdLayout>| #![trigger place_all(parsed)] parsed.len() == lp.len()
                    && (forall|k: int| 0 <= k < lp.len() ==> layout_result(fields@[lp[k]], lp[k] as u16, partial_p, Ok(#[trigger] parsed[k])))
                    && items0.layouts@ == place_all(parsed);
                lemma_place_all(parsed);
                assert forall|i: int| 0 <= i < layouts@.len() implies (#[trigger] layouts@[i]).names@.len() == layouts@[i].values@.len() by {
                    let j = items0.layouts@.len() - 1 - i;
                    assert(layouts@[i] == items0.layouts@[j]);
                    let k = choose|k: int| 0 <= k < parsed.len() && #[trigger] place_all(parsed)[j] == parsed[k];
                    lemma_layout_read(fields@[lp[k]], lp[k] as u16, partial_p, Ok(parsed[k]));
                }
            }
        }
        let ghost l0 = layouts@;
        let ghost c0 = controls@;
        let ghost p0 = partials@;
        match resolve_layouts(&mut layouts, &mut controls, &mut partials, &root_id, partial_p) {
            Ok(()) => {},
            Err(e) => {
                proof {
                    let t: BuildTrace = (e0, g, items0, events, layouts@, controls@, partials@, Seq::empty(), Seq::empty(), Seq::empty(), Seq::empty());
                    assert(build_trace(fields@, attrs@, partial_p, t, Err(e)));
                }
                return Err(e);
            },
        }
        let ghost c1 = controls@;
        let ghost p1 = partials@;
        proof {
            let cp = kind_positions(fields@, FieldKind::Control, fields@.len() as int);
            assert forall|i: int| 0 <= i < c1.len() implies (#[trigger] c1[i]).names@.len() == c1[i].values@.len() by {
                lemma_control_read(fields@[cp[i]], cp[i] as u16, Ok(c0[i]));
                assert(c1[i].rest() == c0[i].rest());
                assert(c1[i].names == c0[i].rest().names);
            }
        }
        match resolve_control_parents(&mut controls, &root_id, partial_p) {
            Ok(()) => {},
            Err(e) => {
                proof {
                    let t: BuildTrace = (e0, g, items0, events, layouts@, c1, p1, controls@, Seq::empty(), Seq::empty(), Seq::empty());
                    assert(build_trace(fields@, attrs@, partial_p, t, Err(e)));
                }
                return Err(e);
            },
        }
        default_partial_parents(&mut partials, &root_id);
        let ghost c2 = controls@;
        assert(c2.len() <= fields@.len()) by {
            crate::ui::lemma_kind_positions_len(fields@, FieldKind::Control, fields@.len() as int);
        }
        match compute_weights(&mut controls) {
            Ok(()) => {},
            Err(e) => {
                proof {
                    let t: BuildTrace = (e0, g, items0, events, layouts@, c1, p1, c2, partials@, controls@, Seq::empty());
                    assert(build_trace(fields@, attrs@, partial_p, t, Err(e)));
                }
                return Err(e);
            },
        }
        let ghost c3 = controls@;
        proof {
            assert forall|i: int| 0 <= i < c3.len() implies (#[trigger] c3[i]).names@.len() == c3[i].values@.len() by {
                assert(c3[i].names == c2[i].names && c3[i].values == c2[i].values);
                assert(control_parent_result(c1, i, opt_view(root_id), partial_p, c2[i], Ok(())));
                if first_index_of(views(c1[i].names@), "parent"@) is Some && !is_top_level(c1[i].ty@) {
                    let j = first_index_of(views(c1[i].names@), "parent"@)->Some_0;
                    assert(parent_target(c1[i].values@[j]) is Some);
                }
            }
        }
        match expand_all_flags(&mut controls) {
            Ok(()) => {},
            Err(e) => {
                proof {
                    let t: BuildTrace = (e0, g, items0, events, layouts@, c1, p1, c2, partials@, c3, controls@);
                    assert(build_trace(fields@, attrs@, partial_p, t, Err(e)));
                }
                return Err(e);
            },
        }
        let ghost c4 = controls@;
        let controls = sort_controls(controls);
        let ui = NwgUi { controls, resources, layouts, partials, events, root_id, root_type };
        proof {
            let t: BuildTrace = (e0, g, items0, ui.events, ui.layouts@, c1, p1, c2, ui.partials@, c3, c4);
            assert(build_trace(fields@, attrs@, partial_p, t, Ok(ui)));
        }
        Ok(ui)
    }
}

pub proof fn lemma_kind_positions_len(fields: Seq<FieldInfo>, kind: FieldKind, upto: int)
    requires
        0 <= upto,
    ensures
        kind_positions(fields, kind, upto).len() <= upto,
    decreases upto,
{
    if upto > 0 {
        lemma_kind_positions_len(fields, kind, upto - 1);
    }
}

/// Which list a child of a layout comes from.
#[derive(Clone, Copy, PartialEq, Eq, Structural)]
pub enum ChildSource {
    Control,
    Layout,
    Partial,
}

/// A child of a layout: the item at `index` of its list, with its field
/// position as `weight`.
#[derive(Clone, Copy, PartialEq, Eq, Structural)]
pub struct LayoutChildRef {
    pub source: ChildSource,
    pub index: usize,
    pub weight: u16,
}

pub open spec fn source_rank(s: ChildSource) -> int {
    match s {
        ChildSource::Control => 0,
        ChildSource::Layout => 1,
        ChildSource::Partial => 2,
    }
}

/// List order: controls, then layouts, then partials, each by index.
pub open spec fn list_before(a: LayoutChildRef, b: LayoutChildRef) -> bool {
    ||| source_rank(a.source) < source_rank(b.source)
    ||| source_rank(a.source) == source_rank(b.source) && a.index < b.index
}

/// Children come by field position, ties in list order.
pub open spec fn child_before(a: LayoutChildRef, b: LayoutChildRef) -> bool {
    ||| a.weight < b.weight
    ||| a.weight == b.weight && list_before(a, b)
}

pub open spec fn children_sorted(s: Seq<LayoutChildRef>) -> bool {
    forall|a: int, b: int| 0 <= a < b < s.len() ==> child_before(#[trigger] s[a], #[trigger] s[b])
}

/// Sorts children by field position, keeping list order on ties.
fn sort_children(cands: Vec<LayoutChildRef>) -> (r: Vec<LayoutChildRef>)
    requires
        forall|a: int, b: int| 0 <= a < b < cands@.len() ==> list_before(#[trigger] cands@[a], #[trigger] cands@[b]),
    ensures
        r@.to_multiset() == cands@.to_multiset(),
        children_sorted(r@),
{
    let mut out: Vec<LayoutChildRef> = Vec::new();
    let mut j: usize = 0;
    proof {
        vstd::seq_lib::to_multiset_len(out@);
        vstd::multiset::lemma_multiset_empty_len(out@.to_multiset());
        assert(cands@.take(0) =~= Seq::<LayoutChildRef>::empty());
        vstd::seq_lib::to_multiset_len(cands@.take(0));
        vstd::multiset::lemma_multiset_empty_len(cands@.take(0).to_multiset());
    }
    while j < cands.len()
        invariant
            j <= cands@.len(),
            forall|a: int, b: int| 0 <= a < b < cands@.len() ==> list_before(#[trigger] cands@[a], #[trigger] cands@[b]),
            out@.to_multiset() == cands@.take(j as int).to_multiset(),
            children_sorted(out@),
        decreases cands@.len() - j,
    {
        let c = cands[j];
        proof {
            assert forall|m: int| 0 <= m < out@.len() implies list_before(#[trigger] out@[m], c) by {
                vstd::seq_lib::to_multiset_contains(out@, out@[m]);
                vstd::seq_lib::to_multiset_contains(cands@.take(j as int), out@[m]);
                let q = choose|q: int| 0 <= q < j && cands@.take(j as int)[q] == out@[m];
                assert(cands@[q] == out@[m]);
            }
        }
        let mut p: usize = 0;
        while p < out.len() && out[p].weight <= c.weight
            invariant
                p <= out@.len(),
                children_sorted(out@),
                forall|k: int| 0 <= k < p ==> (#[trigger] out@[k]).weight <= c.weight,
            decreases out@.len() - p,
        {
            p = p + 1;
        }
        let ghost prev = out@;
        out.insert(p, c);
        proof {
            to_multiset_insert(prev, p as int, c);
            assert(cands@.take(j + 1) =~= cands@.take(j as int).push(c));
            to_multiset_build(cands@.take(j as int), c);
            assert forall|a: int, b: int| 0 <= a < b < out@.len() implies child_before(#[trigger] out@[a], #[trigger] out@[b]) by {
                if p < prev.len() {
                    assert(c.weight < prev[p as int].weight);
                }
                if a < p && b == p {
                    assert(out@[a] == prev[a]);
                    assert(list_before(prev[a], c));
                } else if a < p && b > p {
                    assert(out@[a] == prev[a] && out@[b] == prev[b - 1]);
                } else if a == p {
                    assert(out@[b] == prev[b - 1]);
                    if b - 1 > p {
                        assert(child_before(prev[p as int], prev[b - 1]));
                    }
                } else if a > p {
                    assert(out@[a] == prev[a - 1] && out@[b] == prev[b - 1]);
                } else {
                    assert(out@[a] == prev[a] && out@[b] == prev[b]);
                }
            }
        }
        j = j + 1;
    }
    assert(cands@.take(cands@.len() as int) =~= cands@);
    out
}

impl NwgUi {
    /// The item at `c.index` of list `c.source` is placed in layout `i`, and
    /// `c.weight` is its field position.
    pub open spec fn is_child(self, i: int, c: LayoutChildRef) -> bool {
        match c.source {
            ChildSource::Control => c.index < self.controls@.len() && self.controls@[c.index as int].layout is Some
                && self.controls@[c.index as int].layout_index == i && c.weight == self.controls@[c.index as int].weight[1],
            ChildSource::Layout => c.index < self.layouts@.len() && self.layouts@[c.index as int].layout is Some
                && self.layouts@[c.index as int].layout_index == i && c.weight == self.layouts@[c.index as int].weight[1],
            ChildSource::Partial => c.index < self.partials@.len() && self.partials@[c.index as int].layout is Some
                && self.partials@[c.index as int].layout_index == i && c.weight == self.partials@[c.index as int].weight[1],
        }
    }

    /// The children of layout `i`, in the order they are added to it:
    /// every item placed in it, once, by field position.
    #[verifier::spinoff_prover]
    #[verifier::rlimit(40)]
    pub fn layout_children(&self, i: usize) -> (r: Vec<LayoutChildRef>)
        ensures
            forall|c: LayoutChildRef| r@.contains(c) <==> self.is_child(i as int, c),
            children_sorted(r@),
            forall|a: int, b: int| 0 <= a < b < r@.len() ==> r@[a] != r@[b],
    {
        let mut cands: Vec<LayoutChildRef> = Vec::new();
        let mut k: usize = 0;
        while k < self.controls.len()
            invariant
                k <= self.controls@.len(),
                forall|a: int, b: int| 0 <= a < b < cands@.len() ==> list_before(#[trigger] cands@[a], #[trigger] cands@[b]),
                forall|m: int| 0 <= m < cands@.len() ==> (#[trigger] cands@[m]).source == ChildSource::Control && cands@[m].index < k,
                forall|c: LayoutChildRef| cands@.contains(c) <==> (self.is_child(i as int, c) && c.source == ChildSource::Control && c.index < k),
            decreases self.controls@.len() - k,
        {
            if self.controls[k].layout.is_some() && self.controls[k].layout_index == i {
                let c = LayoutChildRef { source: ChildSource::Control, index: k, weight: self.controls[k].weight[1] };
                let ghost before = cands@;
                cands.push(c);
                proof {
                    assert forall|x: LayoutChildRef| cands@.contains(x) <==> (self.is_child(i as int, x) && x.source == ChildSource::Control && x.index < k + 1) by {
                        if x == c {
                            assert(cands@[before.len() as int] == c);
                        }
                        if cands@.contains(x) && x != c {
                            let m = choose|m: int| 0 <= m < cands@.len() && cands@[m] == x;
                            assert(before[m] == x);
                        }
                        if before.contains(x) {
                            let m = choose|m: int| 0 <= m < before.len() && before[m] == x;
                            assert(cands@[m] == x);
                        }
                    }
                }
            } else {
                proof {
                    assert forall|x: LayoutChildRef| cands@.contains(x) <==> (self.is_child(i as int, x) && x.source == ChildSource::Control && x.index < k + 1) by {
                        if x.source == ChildSource::Control && x.index == k && cands@.contains(x) {
                            let m = choose|m: int| 0 <= m < cands@.len() && cands@[m] == x;
                        }
                    }
                }
            }
            k = k + 1;
        }
        let ghost nc = cands@.len();
        let mut k: usize = 0;
        while k < self.layouts.len()
            invariant
                k <= self.layouts@.len(),
                forall|a: int, b: int| 0 <= a < b < cands@.len() ==> list_before(#[trigger] cands@[a], #[trigger] cands@[b]),
                forall|m: int| 0 <= m < cands@.len() ==> source_rank((#[trigger] cands@[m]).source) < 1 || (cands@[m].source == ChildSource::Layout && cands@[m].index < k),
                forall|c: LayoutChildRef| cands@.contains(c) <==> (self.is_child(i as int, c)
                    && (c.source == ChildSource::Control || (c.source == ChildSource::Layout && c.index < k))),
            decreases self.layouts@.len() - k,
        {
            if self.layouts[k].layout.is_some() && self.layouts[k].layout_index == i {
                let c = LayoutChildRef { source: ChildSource::Layout, index: k, weight: self.layouts[k].weight[1] };
                let ghost before = cands@;
                cands.push(c);
                proof {
                    assert forall|x: LayoutChildRef| cands@.contains(x) <==> (self.is_child(i as int, x)
                        && (x.source == ChildSource::Control || (x.source == ChildSource::Layout && x.index < k + 1))) by {
                        if x == c {
                            assert(cands@[before.len() as int] == c);
                        }
                        if cands@.contains(x) && x != c {
                            let m = choose|m: int| 0 <= m < cands@.len() && cands@[m] == x;
                            assert(before[m] == x);
                        }
                        if before.contains(x) {
                            let m = choose|m: int| 0 <= m < before.len() && before[m] == x;
                            assert(cands@[m] == x);
                        }
                    }
                }
            } else {
                proof {
                    assert forall|x: LayoutChildRef| cands@.contains(x) <==> (self.is_child(i as int, x)
                        && (x.source == ChildSource::Control || (x.source == ChildSource::Layout && x.index < k + 1))) by {
                        if x.source == ChildSource::Layout && x.index == k && cands@.contains(x) {
                            let m = choose|m: int| 0 <= m < cands@.len() && cands@[m] == x;
                        }
                    }
                }
            }
            k = k + 1;
        }
        let mut k: usize = 0;
        while k < self.partials.len()
            invariant
                k <= self.partials@.len(),
                forall|a: int, b: int| 0 <= a < b < cands@.len() ==> list_before(#[trigger] cands@[a], #[trigger] cands@[b]),
                forall|m: int| 0 <= m < cands@.len() ==> source_rank((#[trigger] cands@[m]).source) < 2 || (cands@[m].source == ChildSource::Partial && cands@[m].index < k),
                forall|c: LayoutChildRef| cands@.contains(c) <==> (self.is_child(i as int, c)
                    && (c.source != ChildSource::Partial || c.index < k)),
            decreases self.partials@.len() - k,
        {
            if self.partials[k].layout.is_some() && self.partials[k].layout_index == i {
                let c = LayoutChildRef { source: ChildSource::Partial, index: k, weight: self.partials[k].weight[1] };
                let ghost before = cands@;
                cands.push(c);
                proof {
                    assert forall|x: LayoutChildRef| cands@.contains(x) <==> (self.is_child(i as int, x)
                        && (x.source != ChildSource::Partial || x.index < k + 1)) by {
                        if x == c {
                            assert(cands@[before.len() as int] == c);
                        }
                        if cands@.contains(x) && x != c {
                            let m = choose|m: int| 0 <= m < cands@.len() && cands@[m] == x;
                            assert(before[m] == x);
                        }
                        if before.contains(x) {
                            let m = choose|m: int| 0 <= m < before.len() && before[m] == x;
                            assert(cands@[m] == x);
                        }
                    }
                }
            } else {
                proof {
                    assert forall|x: LayoutChildRef| cands@.contains(x) <==> (self.is_child(i as int, x)
                        && (x.source != ChildSource::Partial || x.index < k + 1)) by {
                        if x.source == ChildSource::Partial && x.index == k && cands@.contains(x) {
                            let m = choose|m: int| 0 <= m < cands@.len() && cands@[m] == x;
                        }
                    }
                }
            }
            k = k + 1;
        }
        let ghost cs = cands@;
        let r = sort_children(cands);
        proof {
            assert forall|c: LayoutChildRef| r@.contains(c) <==> self.is_child(i as int, c) by {
                vstd::seq_lib::to_multiset_contains(r@, c);
                vstd::seq_lib::to_multiset_contains(cs, c);
                if c.source == ChildSource::Partial && self.is_child(i as int, c) {
                    assert(c.index < self.partials@.len());
                }
            }
            assert forall|a: int, b: int| 0 <= a < b < r@.len() implies r@[a] != r@[b] by {
                assert(child_before(r@[a], r@[b]));
            }
        }
        r
    }

    /// Member and type of the root control, if any.
    pub fn root_element(&self) -> (r: (Option<String>, Option<String>))
        ensures
            opt_view(r.0) == opt_view(self.root_id),
            opt_view(r.1) == opt_view(self.root_type),
    {
        (self.root_id.clone(), self.root_type.clone())
    }

    /// Number of key combinations bound.
    pub fn shortcuts_len(&self) -> (r: usize)
        ensures
            r == self.events.shortcuts@.len(),
    {
        self.events.shortcuts_len()
    }

    /// Number of partials.
    pub fn partials_len(&self) -> (r: usize)
        ensures
            r == self.partials@.len(),
    {
        self.partials.len()
    }
}

impl NwgUi {
    /// The struct gets a shortcut handler: only when some key
    /// combination is bound.
    pub fn has_shortcuts(&self) -> (r: bool)
        ensures
            r == (self.events.shortcuts@.len() > 0),
    {
        self.events.shortcuts_len() > 0
    }

    /// The root control that a partial subclasses:
    /// its member and type, when there is a root.
    pub fn subclass_root(&self) -> (r: Option<(String, String)>)
        ensures
            match (self.root_id, self.root_type) {
                (Some(i), Some(t)) => r matches Some(p) && p.0@ == i@ && p.1@ == t@,
                _ => r is None,
            },
    {
        match (&self.root_id, &self.root_type) {
            (Some(i), Some(t)) => Some((i.clone(), t.clone())),
            _ => None,
        }
    }
}

/// How a layout is built.
#[derive(PartialEq, Eq, Structural)]
pub enum LayoutBuild {
    /// `build_partial`: the layout is itself an item of another layout.
    Partial,
    /// `build`: a top layout of a UI.
    Plain,
    /// `build_conditional`: a top layout of a partial.
    Conditional,
}

impl NwdLayout {
    pub fn build_call(&self) -> (r: LayoutBuild)
        ensures
            r == if self.layout is Some {
                LayoutBuild::Partial
            } else if !self.sublayout {
                LayoutBuild::Plain
            } else {
                LayoutBuild::Conditional
            },
    {
        if self.layout.is_some() {
            LayoutBuild::Partial
        } else if !self.sublayout {
            LayoutBuild::Plain
        } else {
            LayoutBuild::Conditional
        }
    }
}

/// The name of the GUI crate in the generated code: the
/// name under which the user depends on it, or `native_windows_gui` inside
/// the crate itself (`None`).
pub fn crate_ident(found: &Option<String>) -> (r: String)
    ensures
        match found {
            Some(n) => r@ == n@,
            None => r@ == "native_windows_gui"@,
        },
{
    match found {
        Some(n) => n.clone(),
        None => from_str("native_windows_gui"),
    }
}

/// The fields have distinct names (as the fields of a Rust struct do).
pub open spec fn field_idents_distinct(fields: Seq<FieldInfo>) -> bool {
    forall|p: int, q: int| 0 <= p < fields.len() && 0 <= q < fields.len() && p != q ==> (#[trigger] fields[p]).ident@ != (#[trigger] fields[q]).ident@
}

pub proof fn lemma_kind_positions_increasing(fields: Seq<FieldInfo>, kind: FieldKind, upto: int)
    requires
        0 <= upto <= fields.len(),
    ensures
        forall|a: int| 0 <= a < kind_positions(fields, kind, upto).len() ==> 0 <= #[trigger] kind_positions(fields, kind, upto)[a] < upto,
        forall|a: int, b: int| 0 <= a < b < kind_positions(fields, kind, upto).len()
            ==> #[trigger] kind_positions(fields, kind, upto)[a] < #[trigger] kind_positions(fields, kind, upto)[b],
    decreases upto,
{
    if upto > 0 {
        lemma_kind_positions_increasing(fields, kind, upto - 1);
        let prev = kind_positions(fields, kind, upto - 1);
        let cur = kind_positions(fields, kind, upto);
        if is_kind(fields[upto - 1], kind) {
            assert(cur == prev.push(upto - 1));
            assert forall|a: int| 0 <= a < cur.len() implies 0 <= #[trigger] cur[a] < upto by {
                if a < prev.len() {
                    assert(cur[a] == prev[a]);
                }
            }
            assert forall|a: int, b: int| 0 <= a < b < cur.len() implies #[trigger] cur[a] < #[trigger] cur[b] by {
                assert(cur[a] == prev[a]);
                if b < prev.len() {
                    assert(cur[b] == prev[b]);
                }
            }
        } else {
            assert(cur == prev);
        }
    }
}

proof fn lemma_depth_more_fuel(cs: Seq<NwdControl>, i: int, f: nat)
    requires
        depth_within(cs, i, f) is Some,
    ensures
        depth_within(cs, i, f + 1) == depth_within(cs, i, f),
    decreases f,
{
    if f > 0 {
        match parent_index(cs, i) {
            Some(j) => {
                lemma_depth_more_fuel(cs, j, (f - 1) as nat);
            },
            None => {},
        }
    }
}

/// The ids of the controls are distinct.
pub open spec fn ids_distinct(cs: Seq<NwdControl>) -> bool {
    forall|a: int, b: int| 0 <= a < cs.len() && 0 <= b < cs.len() && a != b ==> (#[trigger] cs[a]).id@ != (#[trigger] cs[b]).id@
}

/// A control's depth is one more than its parent's.
proof fn lemma_parent_depth(cs: Seq<NwdControl>, a: int, b: int)
    requires
        ids_distinct(cs),
        0 <= a < cs.len(),
        0 <= b < cs.len(),
        cs[a].parent_id matches Some(p) && p@ == cs[b].id@,
        parent_depth(cs, a) is Some,
    ensures
        parent_depth(cs, b) is Some,
        parent_depth(cs, a)->Some_0 == parent_depth(cs, b)->Some_0 + 1,
{
    let ids = control_ids(cs);
    crate::params::lemma_first_index_of(ids, cs[b].id@);
    assert(ids[b] == cs[b].id@);
    match first_index_of(ids, cs[b].id@) {
        Some(k) => {
            if k != b {
                assert(ids[k] == cs[k].id@);
            }
        },
        None => {},
    }
    assert(parent_index(cs, a) == Some(b));
    let n = cs.len();
    assert(depth_within(cs, b, (n - 1) as nat) is Some);
    lemma_depth_more_fuel(cs, b, (n - 1) as nat);
}

/// Controls are created after their parents: in a built UI, a control whose
/// parent is another control of the UI comes after it.
pub proof fn law_parents_first(fields: Seq<FieldInfo>, attrs: Seq<AttrInfo>, partial_p: bool, ui: NwgUi, i: int, j: int)
    requires
        build_result(fields, attrs, partial_p, Ok(ui)),
        field_idents_distinct(fields),
        0 <= i < ui.controls@.len(),
        0 <= j < ui.controls@.len(),
        ui.controls@[i].parent_id matches Some(p) && p@ == ui.controls@[j].id@,
    ensures
        j < i,
{
    let t = choose|t: BuildTrace| #[trigger] build_trace(fields, attrs, partial_p, t, Ok(ui));
    let (e0, g, items, ev, l1, c1, p1, c2, p2, c3, c4) = t;
    let c0 = items.controls@;
    let n = fields.len() as int;
    let cp = kind_positions(fields, FieldKind::Control, n);
    lemma_kind_positions_increasing(fields, FieldKind::Control, n);
    // the ids are those of distinct fields
    assert forall|k: int| 0 <= k < c0.len() implies (#[trigger] c0[k]).id@ == fields[cp[k]].ident@ by {
        assert(control_result(fields[cp[k]], cp[k] as u16, Ok(c0[k])));
    }
    assert forall|k: int| 0 <= k < c2.len() implies (#[trigger] c2[k]).id == c0[k].id by {
        assert(c1[k].rest() == c0[k].rest());
        assert(control_parent_result(c1, k, opt_view(items.root_id), partial_p, c2[k], Ok(())));
    }
    assert(ids_distinct(c2)) by {
        assert forall|a: int, b: int| 0 <= a < c2.len() && 0 <= b < c2.len() && a != b implies (#[trigger] c2[a]).id@ != (#[trigger] c2[b]).id@ by {
            assert(c2[a].id == c0[a].id && c2[b].id == c0[b].id);
            if a < b {
                assert(cp[a] < cp[b]);
            } else {
                assert(cp[b] < cp[a]);
            }
        }
    }
    // both controls come from the controls with flags expanded
    let x = ui.controls@[i];
    let y = ui.controls@[j];
    vstd::seq_lib::to_multiset_contains(ui.controls@, x);
    vstd::seq_lib::to_multiset_contains(ui.controls@, y);
    vstd::seq_lib::to_multiset_contains(c4, x);
    vstd::seq_lib::to_multiset_contains(c4, y);
    assert(ui.controls@.contains(x));
    assert(ui.controls@.contains(y));
    let a = choose|a: int| 0 <= a < c4.len() && c4[a] == x;
    let b = choose|b: int| 0 <= b < c4.len() && c4[b] == y;
    assert(control_flags_expanded(c3[a], c4[a], Ok(())));
    assert(control_flags_expanded(c3[b], c4[b], Ok(())));
    let (ca, cb) = (c3[a], c3[b]);
    assert(ca.id == c2[a].id && ca.parent_id == c2[a].parent_id);
    assert(cb.id == c2[b].id);
    assert(parent_depth(c2, a) == Some(ca.weight[0] as nat));
    assert(parent_depth(c2, b) == Some(cb.weight[0] as nat));
    lemma_parent_depth(c2, a, b);
    assert(weight_key(x.weight) > weight_key(y.weight));
    if j >= i {
        if j > i {
            assert(weight_key(ui.controls@[i].weight) <= weight_key(ui.controls@[j].weight));
        }
    }
}

/// Every layout of a built UI has a `parent` builder call: an explicit one,
/// or the one the build added.
pub proof fn law_layouts_have_parent(fields: Seq<FieldInfo>, attrs: Seq<AttrInfo>, partial_p: bool, ui: NwgUi, i: int)
    requires
        build_result(fields, attrs, partial_p, Ok(ui)),
        0 <= i < ui.layouts@.len(),
    ensures
        views(ui.layouts@[i].names@).contains("parent"@),
{
    let t = choose|t: BuildTrace| #[trigger] build_trace(fields, attrs, partial_p, t, Ok(ui));
    let (e0, g, items, ev, l1, c1, p1, c2, p2, c3, c4) = t;
    let l0 = items.layouts@.reverse();
    let root = opt_view(items.root_id);
    assert(layout_parent_done(l0[i], l1[i], root, partial_p));
    let o = l0[i];
    let nl = l1[i];
    crate::params::lemma_first_index_of(views(o.names@), "parent"@);
    match first_index_of(views(o.names@), "parent"@) {
        Some(k) => {
            assert(views(nl.names@)[k] == "parent"@);
        },
        None => {
            let m = nl.names@.len() - 1;
            assert(nl.names@[m] == nl.names@.last());
            assert(views(nl.names@)[m] == "parent"@);
        },
    }
}

/// The struct's own event attribute (the first `nwg_events` after its first
/// `nwg_shortcuts`) makes the call `c` for event `ee` and target `t`.
pub open spec fn struct_makes_event(attrs: Seq<AttrInfo>, ee: Seq<char>, t: Option<Seq<char>>, c: FunctionCall) -> bool {
    first_attr(attrs, "nwg_shortcuts"@) matches Some(k) && first_attr(attrs.skip(k + 1), "nwg_events"@) matches Some(j)
        && attrs.skip(k + 1)[j].events matches Ok(ds) && exists|d: int| 0 <= d < ds@.len() && def_makes(None, #[trigger] ds@[d], ee, t, c)
}

/// The struct's own shortcut attribute makes the call `c` for the combination
/// of `kk` and `mm`, and target `t`.
pub open spec fn struct_makes_shortcut(attrs: Seq<AttrInfo>, kk: Seq<char>, mm: Seq<char>, t: Option<Seq<char>>, c: FunctionCall) -> bool {
    first_attr(attrs, "nwg_shortcuts"@) matches Some(k) && attrs[k].shortcuts matches Ok(ds)
        && exists|d: int| 0 <= d < ds@.len() && sdef_makes(None, #[trigger] ds@[d], kk, mm, t, c)
}

/// A built UI calls nothing that its attributes do not ask for: every call
/// it stores for an event or a key combination is made, with its
/// arguments, by a binding written on one of the fields or on the struct.
pub proof fn law_built_calls_come_from_attributes(fields: Seq<FieldInfo>, attrs: Seq<AttrInfo>, partial_p: bool, ui: NwgUi)
    requires
        build_result(fields, attrs, partial_p, Ok(ui)),
    ensures
        forall|ee: Seq<char>, t: Option<Seq<char>>, c: FunctionCall| #[trigger] ui.events.stored_event(ee, t, c) ==> struct_makes_event(attrs, ee, t, c)
            || exists|p: int| 0 <= p < fields.len() && field_makes_event(#[trigger] fields[p], ee, t, c),
        forall|kk: Seq<char>, mm: Seq<char>, t: Option<Seq<char>>, c: FunctionCall| #[trigger] ui.events.stored_shortcut(kk, mm, t, c) ==> struct_makes_shortcut(attrs, kk, mm, t, c)
            || exists|p: int| 0 <= p < fields.len() && field_makes_shortcut(#[trigger] fields[p], kk, mm, t, c),
{
    let t = choose|t: BuildTrace| #[trigger] build_trace(fields, attrs, partial_p, t, Ok(ui));
    let (e0, g, items, ev, l1, c1, p1, c2, p2, c3, c4) = t;
    assert(calls_only_from(fields, fields.len() as int, g, ev));
    assert forall|ee: Seq<char>, t: Option<Seq<char>>, c: FunctionCall| #[trigger] ui.events.stored_event(ee, t, c) implies struct_makes_event(attrs, ee, t, c)
        || exists|p: int| 0 <= p < fields.len() && field_makes_event(#[trigger] fields[p], ee, t, c) by {
        if g.stored_event(ee, t, c) {
            assert(!e0.stored_event(ee, t, c));
        }
    }
    assert forall|kk: Seq<char>, mm: Seq<char>, t: Option<Seq<char>>, c: FunctionCall| #[trigger] ui.events.stored_shortcut(kk, mm, t, c) implies struct_makes_shortcut(attrs, kk, mm, t, c)
        || exists|p: int| 0 <= p < fields.len() && field_makes_shortcut(#[trigger] fields[p], kk, mm, t, c) by {
        if g.stored_shortcut(kk, mm, t, c) {
            assert(!e0.stored_shortcut(kk, mm, t, c));
        }
    }
}

/// A control with no explicit `parent`, that is neither a `Tab` nor top
/// level (`Window`, `MessageWindow`, `ExternCanvas`), is placed in the
/// nearest control declared before it whose type is `Window`,
/// `TabsContainer`, `Tab`, `MessageWindow` or `ExternCanvas`: it gets that
/// control as its parent and a `parent(&data.<id>)` builder call. A control
/// right after a `Tab` goes in that tab.
pub proof fn law_auto_parent_is_nearest_container(o: Seq<NwdControl>, root: Option<Seq<char>>, partial_p: bool, n: Seq<NwdControl>, i: int, j: int)
    requires
        control_parents_result(o, root, partial_p, n, Ok(())),
        0 <= j < i < o.len(),
        o[i].ty@ != "Tab"@,
        o[i].ty@ != "Window"@,
        o[i].ty@ != "MessageWindow"@,
        o[i].ty@ != "ExternCanvas"@,
        forall|k: int| 0 <= k < o[i].names@.len() ==> (#[trigger] o[i].names@[k])@ != "parent"@,
        o[j].ty@ == "Window"@ || o[j].ty@ == "TabsContainer"@ || o[j].ty@ == "Tab"@ || o[j].ty@ == "MessageWindow"@ || o[j].ty@ == "ExternCanvas"@,
        forall|m: int| j < m < i ==> !(#[trigger] o[m].ty@ == "Window"@ || o[m].ty@ == "TabsContainer"@ || o[m].ty@ == "Tab"@
            || o[m].ty@ == "MessageWindow"@ || o[m].ty@ == "ExternCanvas"@),
    ensures
        n[i].parent_id matches Some(p) && p@ == o[j].id@,
        n[i].names@.last()@ == "parent"@,
        n[i].values@.last().text@ == member_ref("data"@, o[j].id@),
{
    assert(control_parent_result(o, i, root, partial_p, n[i], Ok(())));
    crate::params::lemma_first_index_of(views(o[i].names@), "parent"@);
    if first_index_of(views(o[i].names@), "parent"@) is Some {
        let k = first_index_of(views(o[i].names@), "parent"@)->Some_0;
        assert(views(o[i].names@)[k] == o[i].names@[k]@);
    }
    lemma_nearest_parent(o, o[i].ty@, i);
    assert(can_parent(o[i].ty@, o[j].ty@));
    match nearest_parent(o, o[i].ty@, i) {
        Some(jj) => {
            if jj < j {
                assert(!can_parent(o[i].ty@, o[j].ty@));
            } else if jj > j {
                assert(can_parent(o[i].ty@, o[jj].ty@));
            }
        },
        None => {},
    }
}

/// A `Tab` with no explicit `parent` is placed in the nearest
/// `TabsContainer` declared before it.
pub proof fn law_tab_parent_is_nearest_tabs_container(o: Seq<NwdControl>, root: Option<Seq<char>>, partial_p: bool, n: Seq<NwdControl>, i: int, j: int)
    requires
        control_parents_result(o, root, partial_p, n, Ok(())),
        0 <= j < i < o.len(),
        o[i].ty@ == "Tab"@,
        forall|k: int| 0 <= k < o[i].names@.len() ==> (#[trigger] o[i].names@[k])@ != "parent"@,
        o[j].ty@ == "TabsContainer"@,
        forall|m: int| j < m < i ==> #[trigger] o[m].ty@ != "TabsContainer"@,
    ensures
        n[i].parent_id matches Some(p) && p@ == o[j].id@,
        n[i].values@.last().text@ == member_ref("data"@, o[j].id@),
{
    reveal_strlit("Tab");
    reveal_strlit("Window");
    reveal_strlit("MessageWindow");
    reveal_strlit("ExternCanvas");
    assert("Tab"@.len() != "Window"@.len());
    assert("Tab"@.len() != "MessageWindow"@.len());
    assert("Tab"@.len() != "ExternCanvas"@.len());
    assert(!is_top_level(o[i].ty@));
    assert(control_parent_result(o, i, root, partial_p, n[i], Ok(())));
    crate::params::lemma_first_index_of(views(o[i].names@), "parent"@);
    if first_index_of(views(o[i].names@), "parent"@) is Some {
        let k = first_index_of(views(o[i].names@), "parent"@)->Some_0;
        assert(views(o[i].names@)[k] == o[i].names@[k]@);
    }
    lemma_nearest_parent(o, o[i].ty@, i);
    match nearest_parent(o, o[i].ty@, i) {
        Some(jj) => {
            if jj < j {
                assert(!can_parent(o[i].ty@, o[j].ty@));
            } else if jj > j {
                assert(can_parent(o[i].ty@, o[jj].ty@));
            }
        },
        None => {},
    }
}

} // verus!
