//! Event and shortcut bindings: which callbacks run, with which arguments,
//! for which event on which control.

use vstd::prelude::*;
use crate::error::DeriveError;
use crate::flags::{check_expr, expr_parse_error};
use crate::items::{member_ref, member_ref_exec};
use crate::params::{find_attr, first_attr, lemma_first_attr, opt_view, opt_views_of, views, AttrInfo, CallbackDefinition, CallbackFunction, FieldInfo, PathModel, ShortcutDefinition};
use crate::text::{compare_text, from_str, lemma_text_order_equal, lemma_text_order_flip, lemma_text_order_trans, push_str, text_eq, text_order, Order};

verus! {

// ---------------------------------------------------------------------------
// Order of callbacks

/// The order of callbacks: longer paths first, then by first segment, then by
/// last segment. Paths equal on these three count as the same callback.
pub open spec fn call_order(a: PathModel, b: PathModel) -> Order {
    let la = a.segments@.len();
    let lb = b.segments@.len();
    if la > lb {
        Order::Less
    } else if la < lb {
        Order::Greater
    } else {
        text_order(a.segments@[0].ident@, b.segments@[0].ident@).or_else_spec(
            text_order(a.segments@.last().ident@, b.segments@.last().ident@),
        )
    }
}

pub open spec fn has_segments(p: PathModel) -> bool {
    p.segments@.len() > 0
}

pub proof fn lemma_call_order_flip(a: PathModel, b: PathModel)
    requires
        has_segments(a),
        has_segments(b),
    ensures
        call_order(b, a) == call_order(a, b).flip(),
{
    lemma_text_order_flip(a.segments@[0].ident@, b.segments@[0].ident@);
    lemma_text_order_flip(a.segments@.last().ident@, b.segments@.last().ident@);
}

pub proof fn lemma_call_order_trans(a: PathModel, b: PathModel, c: PathModel)
    requires
        has_segments(a),
        has_segments(b),
        has_segments(c),
        call_order(a, b) == Order::Less,
        call_order(b, c) == Order::Less,
    ensures
        call_order(a, c) == Order::Less,
{
    let (a0, b0, c0) = (a.segments@[0].ident@, b.segments@[0].ident@, c.segments@[0].ident@);
    let (a1, b1, c1) = (a.segments@.last().ident@, b.segments@.last().ident@, c.segments@.last().ident@);
    lemma_text_order_equal(a0, b0);
    lemma_text_order_equal(b0, c0);
    lemma_text_order_equal(a0, c0);
    lemma_text_order_equal(a1, b1);
    lemma_text_order_equal(b1, c1);
    if text_order(a0, b0) == Order::Less && text_order(b0, c0) == Order::Less {
        lemma_text_order_trans(a0, b0, c0);
    }
    if text_order(a1, b1) == Order::Less && text_order(b1, c1) == Order::Less {
        lemma_text_order_trans(a1, b1, c1);
    }
}

pub proof fn lemma_call_order_eq_trans(a: PathModel, b: PathModel, c: PathModel)
    requires
        has_segments(a),
        has_segments(b),
        has_segments(c),
        call_order(a, b) == Order::Equal,
    ensures
        call_order(a, c) == call_order(b, c),
{
    lemma_text_order_equal(a.segments@[0].ident@, b.segments@[0].ident@);
    lemma_text_order_equal(a.segments@.last().ident@, b.segments@.last().ident@);
}

/// Compares two callback paths by `call_order`.
pub fn compare_calls(a: &PathModel, b: &PathModel) -> (r: Order)
    requires
        has_segments(*a),
        has_segments(*b),
    ensures
        r == call_order(*a, *b),
{
    let la = a.segments.len();
    let lb = b.segments.len();
    if la > lb {
        Order::Less
    } else if la < lb {
        Order::Greater
    } else {
        let first = compare_text(a.segments[0].ident.as_str(), b.segments[0].ident.as_str());
        let last = compare_text(a.segments[la - 1].ident.as_str(), b.segments[lb - 1].ident.as_str());
        first.or_else(last)
    }
}

/// A callback ready to be called: its path and its argument expressions.
pub struct FunctionCall {
    pub path: PathModel,
    pub path_text: String,
    pub args: Vec<String>,
}

/// The calls are in strictly increasing order (a set ordered by `call_order`).
pub open spec fn calls_sorted(s: Seq<FunctionCall>) -> bool {
    &&& forall|i: int| 0 <= i < s.len() ==> has_segments(#[trigger] s[i].path)
    &&& forall|i: int, j: int| 0 <= i < j < s.len() ==> call_order(#[trigger] s[i].path, #[trigger] s[j].path) == Order::Less
}

/// The set holds a call that counts as the same as `p`.
pub open spec fn has_call(s: Seq<FunctionCall>, p: PathModel) -> bool {
    exists|i: int| 0 <= i < s.len() && call_order(#[trigger] s[i].path, p) == Order::Equal
}

proof fn lemma_insert_at(s: Seq<FunctionCall>, i: int, c: FunctionCall)
    requires
        calls_sorted(s),
        has_segments(c.path),
        0 <= i <= s.len(),
        forall|j: int| 0 <= j < i ==> call_order(#[trigger] s[j].path, c.path) == Order::Less,
        i < s.len() ==> call_order(s[i].path, c.path) == Order::Greater,
    ensures
        calls_sorted(s.insert(i, c)),
        !has_call(s, c.path),
{
    assert forall|j: int| i <= j < s.len() implies call_order(#[trigger] s[j].path, c.path) == Order::Greater by {
        if j > i {
            lemma_call_order_flip(s[i].path, c.path);
            lemma_call_order_trans(c.path, s[i].path, s[j].path);
            lemma_call_order_flip(c.path, s[j].path);
        }
    }
    let after = s.insert(i, c);
    assert forall|a: int, b: int| 0 <= a < b < after.len() implies call_order(#[trigger] after[a].path, #[trigger] after[b].path) == Order::Less by {
        if b < i {
        } else if a > i {
            assert(after[a] == s[a - 1] && after[b] == s[b - 1]);
        } else if a == i {
            assert(after[b] == s[b - 1]);
            lemma_call_order_flip(s[b - 1].path, c.path);
        } else if b == i {
            assert(after[a] == s[a]);
        } else {
            assert(after[a] == s[a] && after[b] == s[b - 1]);
        }
    }
    assert forall|a: int| 0 <= a < after.len() implies has_segments(#[trigger] after[a].path) by {
        if a < i {
        } else if a > i {
            assert(after[a] == s[a - 1]);
        }
    }
}

/// Adds `c` to the ordered set `s`, unless a call counted as the same is
/// already there. Returns whether `c` was added.
///
/// The set is a sorted `Vec` rather than a `BTreeSet`: its order is
/// `call_order`, which compares paths by three of their parts only and
/// ignores the arguments. A `BTreeSet` would order its elements by an `Ord`
/// of `FunctionCall` written by hand, which Verus does not accept (only
/// derived `Ord` passes, and a derived one compares every field), so nothing
/// about the set's contents could be proved.
pub fn insert_call(s: &mut Vec<FunctionCall>, c: FunctionCall) -> (added: bool)
    requires
        calls_sorted(old(s)@),
        has_segments(c.path),
    ensures
        calls_sorted(final(s)@),
        added == !has_call(old(s)@, c.path),
        !added ==> final(s)@ == old(s)@,
        added ==> exists|p: int| 0 <= p <= old(s)@.len() && final(s)@ == old(s)@.insert(p, c),
{
    let n = s.len();
    let mut i: usize = 0;
    while i < n
        invariant
            n == s@.len(),
            s@ == old(s)@,
            calls_sorted(s@),
            has_segments(c.path),
            i <= n,
            forall|j: int| 0 <= j < i ==> call_order(#[trigger] s@[j].path, c.path) == Order::Less,
        decreases n - i,
    {
        let o = compare_calls(&s[i].path, &c.path);
        match o {
            Order::Less => {
                i = i + 1;
            },
            Order::Equal => {
                assert(call_order(s@[i as int].path, c.path) == Order::Equal);
                return false;
            },
            Order::Greater => {
                proof {
                    lemma_insert_at(s@, i as int, c);
                }
                s.insert(i, c);
                return true;
            },
        }
    }
    proof {
        lemma_insert_at(s@, n as int, c);
    }
    s.insert(n, c);
    true
}

/// Inserting a call twice adds it once: after `insert_call(s, c)` the set
/// holds a call counted as the same as `c`, so a second insertion of any call
/// counted as the same changes nothing.
pub proof fn law_insert_call_idempotent(s: Seq<FunctionCall>, c: FunctionCall, after: Seq<FunctionCall>, added: bool)
    requires
        calls_sorted(s),
        has_segments(c.path),
        added == !has_call(s, c.path),
        !added ==> after == s,
        added ==> exists|p: int| 0 <= p <= s.len() && after == s.insert(p, c),
    ensures
        has_call(after, c.path),
{
    if added {
        let p = choose|p: int| 0 <= p <= s.len() && after == s.insert(p, c);
        assert(after[p] == c);
        lemma_text_order_equal(c.path.segments@[0].ident@, c.path.segments@[0].ident@);
        lemma_text_order_equal(c.path.segments@.last().ident@, c.path.segments@.last().ident@);
        assert(call_order(after[p].path, c.path) == Order::Equal);
    }
}

// ---------------------------------------------------------------------------
// Callback arguments

/// What one callback argument keyword turns into.
pub enum ArgOutcome {
    Text(Seq<char>),
    Unknown,
    NoTarget,
    Unparsable(Seq<char>),
}

/// The argument expression of keyword `a`, for a callback bound to field
/// `bind` and run for the event target `target`. In the generated handler
/// `evt_ui` holds the UI struct in its `Rc`: `&evt_ui` is the `&Rc` that
/// `RC_SELF` sends, and derefs to the struct that `SELF` sends; `EVT` sends
/// `&Event`, `EVT_DATA` `&EventData`, `HANDLE` `&ControlHandle`.
pub open spec fn arg_outcome(a: Seq<char>, bind: Option<Seq<char>>, target: Option<Seq<char>>) -> ArgOutcome {
    if a == "SELF"@ {
        ArgOutcome::Text("&evt_ui"@)
    } else if a == "RC_SELF"@ {
        ArgOutcome::Text("&evt_ui"@)
    } else if a == "CTRL"@ {
        match bind {
            None => ArgOutcome::Text("&evt_ui"@),
            Some(id) => ArgOutcome::Text(member_ref("evt_ui"@, id)),
        }
    } else if a == "TARGET"@ {
        match target {
            None => ArgOutcome::NoTarget,
            Some(t) => match expr_parse_error(t) {
                None => ArgOutcome::Text("&"@ + t),
                Some(m) => ArgOutcome::Unparsable(m),
            },
        }
    } else if a == "HANDLE"@ {
        ArgOutcome::Text("&_handle"@)
    } else if a == "EVT"@ {
        ArgOutcome::Text("&_evt"@)
    } else if a == "EVT_DATA"@ {
        ArgOutcome::Text("&_evt_data"@)
    } else {
        ArgOutcome::Unknown
    }
}

/// The error reported for the failed outcome `o` of keyword `a`.
pub open spec fn arg_error(e: DeriveError, a: Seq<char>, o: ArgOutcome) -> bool {
    match o {
        ArgOutcome::Unknown => e matches DeriveError::UnknownCallbackArg { arg } && arg@ == a,
        ArgOutcome::NoTarget => e matches DeriveError::TargetOnGlobalEvent { arg } && arg@ == a,
        ArgOutcome::Unparsable(m) => e matches DeriveError::AttrParse(msg) && msg@ == m,
        ArgOutcome::Text(_) => false,
    }
}

/// The argument expressions of a callback, or the error of its first bad keyword.
pub open spec fn args_ok(
    r: Result<Vec<String>, DeriveError>,
    args: Option<Seq<Seq<char>>>,
    bind: Option<Seq<char>>,
    target: Option<Seq<char>>,
) -> bool {
    match args {
        None => r matches Ok(v) && v@.len() == 1 && v@[0]@ == "&evt_ui"@,
        Some(a) => {
            if forall|i: int| 0 <= i < a.len() ==> arg_outcome(#[trigger] a[i], bind, target) is Text {
                r matches Ok(v) && v@.len() == a.len() && forall|i: int| 0 <= i < a.len() ==> arg_outcome(a[i], bind, target) == ArgOutcome::Text((#[trigger] v@[i])@)
            } else {
                r matches Err(e) && exists|k: int| 0 <= k < a.len() && !(arg_outcome(#[trigger] a[k], bind, target) is Text)
                    && (forall|j: int| 0 <= j < k ==> arg_outcome(#[trigger] a[j], bind, target) is Text)
                    && arg_error(e, a[k], arg_outcome(a[k], bind, target))
            }
        },
    }
}

/// The `TARGET` argument for the event target `t`, given the message of the
/// expression parser on `t` (`None`: it parsed as an expression).
pub fn target_arg(t: &str, parse_error: Option<String>) -> (r: Result<String, DeriveError>)
    ensures
        match parse_error {
            None => r matches Ok(s) && s@ == "&"@ + t@,
            Some(m) => r matches Err(DeriveError::AttrParse(msg)) && msg@ == m@,
        },
{
    match parse_error {
        None => {
            let mut r = from_str("&");
            push_str(&mut r, t);
            Ok(r)
        },
        Some(m) => Err(DeriveError::AttrParse(m)),
    }
}

fn map_callback_arg(a: &String, bind: &Option<String>, target: &Option<String>) -> (r: Result<String, DeriveError>)
    ensures
        match arg_outcome(a@, opt_view(*bind), opt_view(*target)) {
            ArgOutcome::Text(t) => r matches Ok(s) && s@ == t,
            o => r matches Err(e) && arg_error(e, a@, o),
        },
{
    let s = a.as_str();
    if text_eq(s, "SELF") {
        Ok(from_str("&evt_ui"))
    } else if text_eq(s, "RC_SELF") {
        Ok(from_str("&evt_ui"))
    } else if text_eq(s, "CTRL") {
        match bind {
            None => Ok(from_str("&evt_ui")),
            Some(id) => Ok(member_ref_exec("evt_ui", id.as_str())),
        }
    } else if text_eq(s, "TARGET") {
        match target {
            None => Err(DeriveError::TargetOnGlobalEvent { arg: a.clone() }),
            Some(t) => {
                let parsed = check_expr(t.as_str());
                target_arg(t.as_str(), parsed)
            },
        }
    } else if text_eq(s, "HANDLE") {
        Ok(from_str("&_handle"))
    } else if text_eq(s, "EVT") {
        Ok(from_str("&_evt"))
    } else if text_eq(s, "EVT_DATA") {
        Ok(from_str("&_evt_data"))
    } else {
        Err(DeriveError::UnknownCallbackArg { arg: a.clone() })
    }
}

/// The argument expressions of a callback:
/// `&evt_ui` when no arguments are written, else one per keyword.
pub fn map_callback_args(bind: &Option<String>, target: &Option<String>, args: &Option<Vec<String>>) -> (r: Result<Vec<String>, DeriveError>)
    ensures
        args_ok(r, opt_views_of(*args), opt_view(*bind), opt_view(*target)),
{
    let ghost b = opt_view(*bind);
    let ghost t = opt_view(*target);
    match args {
        None => {
            let mut v: Vec<String> = Vec::new();
            v.push(from_str("&evt_ui"));
            Ok(v)
        },
        Some(a) => {
            let ghost av = views(a@);
            let mut out: Vec<String> = Vec::new();
            let mut i: usize = 0;
            while i < a.len()
                invariant
                    i <= a@.len(),
                    av == views(a@),
                    opt_views_of(*args) == Some(av),
                    b == opt_view(*bind),
                    t == opt_view(*target),
                    out@.len() == i,
                    forall|j: int| 0 <= j < i ==> arg_outcome(av[j], b, t) == ArgOutcome::Text((#[trigger] out@[j])@),
                decreases a@.len() - i,
            {
                match map_callback_arg(&a[i], bind, target) {
                    Ok(s) => {
                        out.push(s);
                    },
                    Err(e) => {
                        proof {
                            assert(av[i as int] == a@[i as int]@);
                            assert forall|j: int| 0 <= j < i implies arg_outcome(#[trigger] av[j], b, t) is Text by {
                                assert(arg_outcome(av[j], b, t) == ArgOutcome::Text(out@[j]@));
                            }
                            assert(!(arg_outcome(av[i as int], b, t) is Text));
                            assert(arg_error(e, av[i as int], arg_outcome(av[i as int], b, t)));
                            assert(exists|k: int| 0 <= k < av.len() && !(arg_outcome(#[trigger] av[k], b, t) is Text)
                                && (forall|j: int| 0 <= j < k ==> arg_outcome(#[trigger] av[j], b, t) is Text)
                                && arg_error(e, av[k], arg_outcome(av[k], b, t)));
                            assert(!(forall|j: int| 0 <= j < av.len() ==> arg_outcome(#[trigger] av[j], b, t) is Text));
                        }
                        let r = Err(e);
                        assert(opt_views_of(*args) == Some(av));
                        assert(b == opt_view(*bind));
                        assert(t == opt_view(*target));
                        assert(args_ok(r, opt_views_of(*args), opt_view(*bind), opt_view(*target)));
                        return r;
                    },
                }
                i = i + 1;
            }
            proof {
                assert forall|j: int| 0 <= j < av.len() implies arg_outcome(#[trigger] av[j], b, t) is Text by {
                    assert(arg_outcome(av[j], b, t) == ArgOutcome::Text(out@[j]@));
                }
            }
            Ok(out)
        },
    }
}

// ---------------------------------------------------------------------------
// Event targets

/// `evt_ui.<rest>`: an expression reaching into the UI.
pub open spec fn ui_field(rest: Seq<char>) -> Seq<char> {
    "evt_ui."@ + rest
}

/// The targets a callback is registered for: for a field
/// `id` each `evt_ui.id.<name>` (or `evt_ui.id` alone), for a global binding
/// each `evt_ui.<name>` (or no target at all).
pub open spec fn event_targets(target: Option<Seq<char>>, names: Option<Seq<Seq<char>>>) -> Seq<Option<Seq<char>>> {
    match target {
        None => match names {
            None => seq![None],
            Some(f) => f.map_values(|x: Seq<char>| Some(ui_field(x))),
        },
        Some(id) => match names {
            None => seq![Some(ui_field(id))],
            Some(f) => f.map_values(|x: Seq<char>| Some(ui_field(id + "."@ + x))),
        },
    }
}

pub open spec fn opt_views(v: Seq<Option<String>>) -> Seq<Option<Seq<char>>> {
    v.map_values(|o: Option<String>| opt_view(o))
}

pub fn map_event_target(target: &Option<String>, field_names: &Option<Vec<String>>) -> (r: Vec<Option<String>>)
    ensures
        opt_views(r@) == event_targets(opt_view(*target), opt_views_of(*field_names)),
{
    let mut out: Vec<Option<String>> = Vec::new();
    match field_names {
        None => {
            match target {
                None => out.push(None),
                Some(id) => {
                    let mut s = from_str("evt_ui.");
                    push_str(&mut s, id.as_str());
                    out.push(Some(s));
                },
            }
            assert(opt_views(out@) =~= event_targets(opt_view(*target), None));
        },
        Some(f) => {
            let ghost fv = views(f@);
            let ghost tv = opt_view(*target);
            let mut i: usize = 0;
            while i < f.len()
                invariant
                    i <= f@.len(),
                    fv == views(f@),
                    tv == opt_view(*target),
                    opt_views(out@) =~= event_targets(tv, Some(fv)).take(i as int),
                decreases f@.len() - i,
            {
                let mut s = from_str("evt_ui.");
                match target {
                    None => {},
                    Some(id) => {
                        push_str(&mut s, id.as_str());
                        push_str(&mut s, ".");
                    },
                }
                push_str(&mut s, f[i].as_str());
                proof {
                    assert(fv[i as int] == f@[i as int]@);
                    match tv {
                        None => assert(s@ =~= ui_field(fv[i as int])),
                        Some(id) => assert(s@ =~= ui_field(id + "."@ + fv[i as int])),
                    }
                    assert(event_targets(tv, Some(fv))[i as int] == Some(s@));
                }
                let ghost prev = out@;
                out.push(Some(s));
                proof {
                    assert(opt_views(out@) =~= opt_views(prev).push(Some(s@)));
                }
                assert(opt_views(out@) =~= event_targets(tv, Some(fv)).take(i + 1));
                i = i + 1;
            }
            assert(event_targets(tv, Some(fv)).take(f@.len() as int) =~= event_targets(tv, Some(fv)));
        },
    }
    out
}

/// The pattern an event name is matched with.
pub enum EventPattern {
    /// `Event::OnMousePress(MousePressEvent::<name>)`
    MousePress(String),
    /// `Event::OnMousePress(_)`
    AnyMousePress,
    /// `Event::<name>`
    Named(String),
}

pub open spec fn is_mouse_press_kind(n: Seq<char>) -> bool {
    n == "MousePressLeftUp"@ || n == "MousePressLeftDown"@ || n == "MousePressRightUp"@ || n == "MousePressRightDown"@
}

/// The match pattern of the event named `event`.
pub open spec fn event_pattern_of(event: Seq<char>, r: EventPattern) -> bool {
    if is_mouse_press_kind(event) {
        r matches EventPattern::MousePress(n) && n@ == event
    } else if event == "OnMousePress"@ {
        r is AnyMousePress
    } else {
        r matches EventPattern::Named(n) && n@ == event
    }
}

pub fn map_event_enum(event: &String) -> (r: EventPattern)
    ensures
        event_pattern_of(event@, r),
{
    let s = event.as_str();
    if text_eq(s, "MousePressLeftUp") || text_eq(s, "MousePressLeftDown") || text_eq(s, "MousePressRightUp") || text_eq(s, "MousePressRightDown") {
        EventPattern::MousePress(event.clone())
    } else if text_eq(s, "OnMousePress") {
        EventPattern::AnyMousePress
    } else {
        EventPattern::Named(event.clone())
    }
}

// ---------------------------------------------------------------------------
// Shortcut key combinations

/// The uppercase form of a string, as `str::to_uppercase` computes it.
pub uninterp spec fn upper_case(s: Seq<char>) -> Seq<char>;

/// Every character is ASCII.
pub open spec fn is_ascii_text(s: Seq<char>) -> bool {
    forall|i: int| 0 <= i < s.len() ==> (s[i] as u32) < 128
}

/// The ASCII uppercase form: `a` to `z` become `A` to `Z`.
pub open spec fn ascii_upper(s: Seq<char>) -> Seq<char> {
    s.map_values(|c: char| if 'a' <= c && c <= 'z' { ((c as u32) - 32) as char } else { c })
}

/// `str::to_uppercase`: the Unicode uppercase form of `s`. The contract names
/// the result, and states it for ASCII text, where it is the ASCII uppercase
/// form; the Unicode mapping of other characters is not written out.
#[verifier::external_body]
pub(crate) fn to_uppercase(s: &str) -> (r: String)
    ensures
        r@ == upper_case(s@),
        is_ascii_text(s@) ==> r@ == ascii_upper(s@),
{
    s.to_uppercase()
}

pub open spec fn is_modifier(u: Seq<char>) -> bool {
    u == "CTRL"@ || u == "ALT"@ || u == "SHIFT"@
}

/// The parts of a combination, each as written and in uppercase.
pub open spec fn upper_pairs(a: Seq<Seq<char>>) -> Seq<(Seq<char>, Seq<char>)> {
    a.map_values(|x: Seq<char>| (x, upper_case(x)))
}

/// The parts of a combination of ASCII words, each as written and in ASCII
/// uppercase.
pub open spec fn ascii_pairs(a: Seq<Seq<char>>) -> Seq<(Seq<char>, Seq<char>)> {
    a.map_values(|x: Seq<char>| (x, ascii_upper(x)))
}

/// The outcome of reading the parts `p` of a combination.
pub open spec fn keystrokes_result(p: Seq<(Seq<char>, Seq<char>)>, r: Result<ShortcutKeystrokes, DeriveError>) -> bool {
    if key_parts(p).len() >= 2 {
        r matches Err(DeriveError::ExtraShortcutKey { key }) && key@ == key_parts(p)[1]
    } else if key_parts(p).len() == 0 {
        r matches Err(DeriveError::NoShortcutKey)
    } else {
        r matches Ok(k) && k.key@ == key_parts(p)[0] && k.modifiers@ == modifier_name_of(p)
    }
}

/// The parts written `a`, with their uppercase forms `u`.
pub open spec fn zip_parts(a: Seq<Seq<char>>, u: Seq<Seq<char>>) -> Seq<(Seq<char>, Seq<char>)> {
    Seq::new(a.len(), |i: int| (a[i], u[i]))
}

/// The parts that are not modifiers, as written.
pub open spec fn key_parts(p: Seq<(Seq<char>, Seq<char>)>) -> Seq<Seq<char>>
    decreases p.len(),
{
    if p.len() == 0 {
        Seq::empty()
    } else if is_modifier(p.last().1) {
        key_parts(p.drop_last())
    } else {
        key_parts(p.drop_last()).push(p.last().0)
    }
}

/// The modifiers, uppercased, in the order written.
pub open spec fn modifier_parts(p: Seq<(Seq<char>, Seq<char>)>) -> Seq<Seq<char>>
    decreases p.len(),
{
    if p.len() == 0 {
        Seq::empty()
    } else if is_modifier(p.last().1) {
        modifier_parts(p.drop_last()).push(p.last().1)
    } else {
        modifier_parts(p.drop_last())
    }
}

/// The pieces joined by `_`.
pub open spec fn join_underscore(s: Seq<Seq<char>>) -> Seq<char>
    decreases s.len(),
{
    if s.len() == 0 {
        Seq::empty()
    } else if s.len() == 1 {
        s[0]
    } else {
        join_underscore(s.drop_last()) + "_"@ + s.last()
    }
}

/// The name of the modifier set: `NONE`, or the modifiers joined by `_`.
pub open spec fn modifier_name_of(p: Seq<(Seq<char>, Seq<char>)>) -> Seq<char> {
    if modifier_parts(p).len() == 0 {
        "NONE"@
    } else {
        join_underscore(modifier_parts(p))
    }
}

/// The parts of a combination that are not modifiers.
pub open spec fn key_args(a: Seq<Seq<char>>) -> Seq<Seq<char>> {
    key_parts(upper_pairs(a))
}

/// The name of the modifier set of a combination.
pub open spec fn modifier_name(a: Seq<Seq<char>>) -> Seq<char> {
    modifier_name_of(upper_pairs(a))
}

/// The outcome of reading the combination written `a`.
pub open spec fn keystrokes_parse_result(a: Seq<Seq<char>>, r: Result<ShortcutKeystrokes, DeriveError>) -> bool {
    if key_args(a).len() >= 2 {
        r matches Err(DeriveError::ExtraShortcutKey { key }) && key@ == key_args(a)[1]
    } else if key_args(a).len() == 0 {
        r matches Err(DeriveError::NoShortcutKey)
    } else {
        r matches Ok(k) && k.key@ == key_args(a)[0] && k.modifiers@ == modifier_name(a)
    }
}

/// The keys of a prefix of the parts start the keys of all the parts.
proof fn lemma_key_parts_prefix(p: Seq<(Seq<char>, Seq<char>)>, k: int)
    requires
        0 <= k <= p.len(),
    ensures
        key_parts(p.take(k)).len() <= key_parts(p).len(),
        forall|j: int| 0 <= j < key_parts(p.take(k)).len() ==> key_parts(p)[j] == #[trigger] key_parts(p.take(k))[j],
    decreases p.len() - k,
{
    if k < p.len() {
        let q = p.take(k + 1);
        let pre = p.take(k);
        assert(q.drop_last() =~= pre);
        if is_modifier(q.last().1) {
            assert(key_parts(q) == key_parts(pre));
        } else {
            assert(key_parts(q) == key_parts(pre).push(q.last().0));
        }
        lemma_key_parts_prefix(p, k + 1);
        assert forall|j: int| 0 <= j < key_parts(pre).len() implies key_parts(p)[j] == #[trigger] key_parts(pre)[j] by {
            assert(key_parts(q)[j] == key_parts(pre)[j]);
        }
    } else {
        assert(p.take(k) =~= p);
    }
}

/// Parts with the same uppercase forms, written alike except in modifiers,
/// have the same keys and modifiers.
proof fn lemma_parts_same(p: Seq<(Seq<char>, Seq<char>)>, q: Seq<(Seq<char>, Seq<char>)>)
    requires
        p.len() == q.len(),
        forall|i: int| 0 <= i < p.len() ==> (#[trigger] p[i]).1 == q[i].1 && (p[i].0 == q[i].0 || is_modifier(p[i].1)),
    ensures
        key_parts(p) == key_parts(q),
        modifier_parts(p) == modifier_parts(q),
    decreases p.len(),
{
    if p.len() > 0 {
        let (pp, qq) = (p.drop_last(), q.drop_last());
        assert forall|i: int| 0 <= i < pp.len() implies (#[trigger] pp[i]).1 == qq[i].1 && (pp[i].0 == qq[i].0 || is_modifier(pp[i].1)) by {
            assert(pp[i] == p[i] && qq[i] == q[i]);
        }
        lemma_parts_same(pp, qq);
        assert(p.last() == p[p.len() - 1] && q.last() == q[q.len() - 1]);
    }
}

/// The case of the modifier words does not matter: two combinations whose
/// parts have the same uppercase forms, and are written alike except for
/// modifiers, name the same key and the same modifiers.
pub proof fn law_modifier_case(a: Seq<Seq<char>>, b: Seq<Seq<char>>)
    requires
        a.len() == b.len(),
        forall|i: int| 0 <= i < a.len() ==> upper_case(#[trigger] a[i]) == upper_case(b[i])
            && (a[i] == b[i] || is_modifier(upper_case(a[i]))),
    ensures
        key_args(a) == key_args(b),
        modifier_name(a) == modifier_name(b),
{
    let (p, q) = (upper_pairs(a), upper_pairs(b));
    assert forall|i: int| 0 <= i < p.len() implies (#[trigger] p[i]).1 == q[i].1 && (p[i].0 == q[i].0 || is_modifier(p[i].1)) by {
        assert(p[i] == (a[i], upper_case(a[i])) && q[i] == (b[i], upper_case(b[i])));
    }
    lemma_parts_same(p, q);
}

/// The same law for combinations of ASCII words, where the uppercase form is
/// the ASCII one: `Ctrl+Alt+S` and `ctrl+ALT+S` read alike.
pub proof fn law_modifier_case_ascii(a: Seq<Seq<char>>, b: Seq<Seq<char>>)
    requires
        a.len() == b.len(),
        forall|i: int| 0 <= i < a.len() ==> ascii_upper(#[trigger] a[i]) == ascii_upper(b[i])
            && (a[i] == b[i] || is_modifier(ascii_upper(a[i]))),
    ensures
        key_parts(ascii_pairs(a)) == key_parts(ascii_pairs(b)),
        modifier_name_of(ascii_pairs(a)) == modifier_name_of(ascii_pairs(b)),
{
    let (p, q) = (ascii_pairs(a), ascii_pairs(b));
    assert forall|i: int| 0 <= i < p.len() implies (#[trigger] p[i]).1 == q[i].1 && (p[i].0 == q[i].0 || is_modifier(p[i].1)) by {
        assert(p[i] == (a[i], ascii_upper(a[i])) && q[i] == (b[i], ascii_upper(b[i])));
    }
    lemma_parts_same(p, q);
}

/// A key combination: `ModifierKeys::<modifiers>` and `KeyPress::<key>`.
pub struct ShortcutKeystrokes {
    pub modifiers: String,
    pub key: String,
}

impl ShortcutKeystrokes {
    /// Reads the parts `args` of `CTRL+ALT+K`, given their uppercase forms
    /// `uppers`: each part that is `CTRL`, `ALT` or `SHIFT` in uppercase is a
    /// modifier, and exactly one other part is the key.
    pub fn from_parts(args: &Vec<String>, uppers: &Vec<String>) -> (r: Result<ShortcutKeystrokes, DeriveError>)
        requires
            args@.len() == uppers@.len(),
        ensures
            ({
                let p = zip_parts(views(args@), views(uppers@));
                if key_parts(p).len() >= 2 {
                    r matches Err(DeriveError::ExtraShortcutKey { key }) && key@ == key_parts(p)[1]
                } else if key_parts(p).len() == 0 {
                    r matches Err(DeriveError::NoShortcutKey)
                } else {
                    r matches Ok(k) && k.key@ == key_parts(p)[0] && k.modifiers@ == modifier_name_of(p)
                }
            }),
    {
        let ghost p = zip_parts(views(args@), views(uppers@));
        let mut key: Option<String> = None;
        let mut modifiers = String::new();
        let mut n_mods: usize = 0;
        let mut i: usize = 0;
        while i < args.len()
            invariant
                i <= args@.len(),
                args@.len() == uppers@.len(),
                p == zip_parts(views(args@), views(uppers@)),
                key_parts(p.take(i as int)).len() <= 1,
                match key {
                    Some(k) => key_parts(p.take(i as int)).len() == 1 && k@ == key_parts(p.take(i as int))[0],
                    None => key_parts(p.take(i as int)).len() == 0,
                },
                n_mods == modifier_parts(p.take(i as int)).len(),
                n_mods <= i,
                modifiers@ == join_underscore(modifier_parts(p.take(i as int))),
            decreases args@.len() - i,
        {
            let ghost pre = p.take(i as int);
            let ghost next = p.take(i + 1);
            assert(next.drop_last() =~= pre);
            assert(next.last() == (args@[i as int]@, uppers@[i as int]@));
            let up = &uppers[i];
            if text_eq(up.as_str(), "CTRL") || text_eq(up.as_str(), "ALT") || text_eq(up.as_str(), "SHIFT") {
                if n_mods > 0 {
                    push_str(&mut modifiers, "_");
                }
                push_str(&mut modifiers, up.as_str());
                proof {
                    assert(modifier_parts(next) == modifier_parts(pre).push(up@));
                    assert(key_parts(next) == key_parts(pre));
                    if n_mods > 0 {
                        assert(modifier_parts(next).drop_last() =~= modifier_parts(pre));
                    } else {
                        assert(modifiers@ =~= up@);
                    }
                }
                n_mods = n_mods + 1;
            } else {
                proof {
                    assert(key_parts(next) == key_parts(pre).push(args@[i as int]@));
                    assert(modifier_parts(next) == modifier_parts(pre));
                }
                match key {
                    Some(_) => {
                        proof {
                            lemma_key_parts_prefix(p, i + 1);
                            assert(key_parts(next)[1] == args@[i as int]@);
                        }
                        return Err(DeriveError::ExtraShortcutKey { key: args[i].clone() });
                    },
                    None => {
                        key = Some(args[i].clone());
                    },
                }
            }
            i = i + 1;
        }
        assert(p.take(args@.len() as int) =~= p);
        match key {
            None => Err(DeriveError::NoShortcutKey),
            Some(k) => {
                if n_mods == 0 {
                    modifiers = from_str("NONE");
                }
                Ok(ShortcutKeystrokes { modifiers, key: k })
            },
        }
    }

    /// Reads `CTRL+ALT+K`: each part that is
    /// `CTRL`, `ALT` or `SHIFT` in uppercase is a modifier, and exactly one
    /// other part is the key.
    pub fn parse(args: &Vec<String>) -> (r: Result<ShortcutKeystrokes, DeriveError>)
        ensures
            keystrokes_parse_result(views(args@), r),
            (forall|i: int| 0 <= i < args@.len() ==> is_ascii_text(#[trigger] args@[i]@))
                ==> keystrokes_result(ascii_pairs(views(args@)), r),
    {
        let mut uppers: Vec<String> = Vec::new();
        let mut i: usize = 0;
        while i < args.len()
            invariant
                i <= args@.len(),
                uppers@.len() == i,
                forall|j: int| 0 <= j < i ==> (#[trigger] uppers@[j])@ == upper_case(args@[j]@),
                forall|j: int| 0 <= j < i && is_ascii_text(args@[j]@) ==> (#[trigger] uppers@[j])@ == ascii_upper(args@[j]@),
            decreases args@.len() - i,
        {
            uppers.push(to_uppercase(args[i].as_str()));
            i = i + 1;
        }
        assert(zip_parts(views(args@), views(uppers@)) =~= upper_pairs(views(args@)));
        proof {
            if forall|j: int| 0 <= j < args@.len() ==> is_ascii_text(#[trigger] args@[j]@) {
                assert(zip_parts(views(args@), views(uppers@)) =~= ascii_pairs(views(args@)));
            }
        }
        Self::from_parts(args, &uppers)
    }
}

/// The order of key combinations: by key, then by modifiers.
pub open spec fn keystroke_order(a: ShortcutKeystrokes, b: ShortcutKeystrokes) -> Order {
    text_order(a.key@, b.key@).or_else_spec(text_order(a.modifiers@, b.modifiers@))
}

pub proof fn lemma_keystroke_order(a: ShortcutKeystrokes, b: ShortcutKeystrokes, c: ShortcutKeystrokes)
    ensures
        keystroke_order(b, a) == keystroke_order(a, b).flip(),
        keystroke_order(a, b) == Order::Equal <==> (a.key@ == b.key@ && a.modifiers@ == b.modifiers@),
        keystroke_order(a, b) == Order::Less && keystroke_order(b, c) == Order::Less ==> keystroke_order(a, c) == Order::Less,
{
    lemma_text_order_flip(a.key@, b.key@);
    lemma_text_order_flip(a.modifiers@, b.modifiers@);
    lemma_text_order_equal(a.key@, b.key@);
    lemma_text_order_equal(a.modifiers@, b.modifiers@);
    lemma_text_order_equal(b.key@, c.key@);
    lemma_text_order_equal(b.modifiers@, c.modifiers@);
    lemma_text_order_equal(a.key@, c.key@);
    if text_order(a.key@, b.key@) == Order::Less && text_order(b.key@, c.key@) == Order::Less {
        lemma_text_order_trans(a.key@, b.key@, c.key@);
    }
    if text_order(a.modifiers@, b.modifiers@) == Order::Less && text_order(b.modifiers@, c.modifiers@) == Order::Less {
        lemma_text_order_trans(a.modifiers@, b.modifiers@, c.modifiers@);
    }
}

pub fn compare_keystrokes(a: &ShortcutKeystrokes, b: &ShortcutKeystrokes) -> (r: Order)
    ensures
        r == keystroke_order(*a, *b),
{
    compare_text(a.key.as_str(), b.key.as_str()).or_else(compare_text(a.modifiers.as_str(), b.modifiers.as_str()))
}

// ---------------------------------------------------------------------------
// Callbacks of one event, by target

/// The calls registered for one target (`None`: the event of any control).
pub struct TargetCalls {
    pub target: Option<String>,
    pub calls: Vec<FunctionCall>,
}

/// The callbacks of one event or shortcut, by target.
///
/// The targets are kept in a `Vec` of entries rather than a `HashMap`: a
/// target is a `String` (or none), and with `String` keys Verus proves
/// nothing of a `HashMap`'s contents; and what is done with the entries
/// (grouping them into the handler's branches) must not depend on an
/// iteration order that has no specification.
pub struct EventCallback {
    pub entries: Vec<TargetCalls>,
}

/// Every argument keyword of `f` has a meaning for `bind` and `t`.
pub open spec fn args_fine(f: CallbackFunction, bind: Option<Seq<char>>, t: Option<Seq<char>>) -> bool {
    match opt_views_of(f.args) {
        None => true,
        Some(a) => forall|i: int| 0 <= i < a.len() ==> arg_outcome(#[trigger] a[i], bind, t) is Text,
    }
}

/// Callback `f` is read before callback `g`: the callbacks of a definition
/// are read in the order of their paths, and in written order among paths
/// that count as the same.
pub open spec fn callback_before(cbs: Seq<CallbackFunction>, f: int, g: int) -> bool {
    ||| call_order(cbs[f].path, cbs[g].path) == Order::Less
    ||| call_order(cbs[f].path, cbs[g].path) == Order::Equal && f < g
}

/// Callback `f` is the first, in reading order, whose arguments have no
/// meaning for `bind` and `t`.
pub open spec fn first_bad_callback(cbs: Seq<CallbackFunction>, bind: Option<Seq<char>>, t: Option<Seq<char>>, f: int) -> bool {
    &&& 0 <= f < cbs.len()
    &&& !args_fine(cbs[f], bind, t)
    &&& forall|g: int| 0 <= g < cbs.len() && g != f && !args_fine(#[trigger] cbs[g], bind, t) ==> callback_before(cbs, f, g)
}

/// Registering `cbs` for the targets `ts` fails with `e`: at the first target
/// with a callback whose arguments have no meaning, the error of the first
/// such callback.
pub open spec fn calls_error(bind: Option<Seq<char>>, cbs: Seq<CallbackFunction>, ts: Seq<Option<Seq<char>>>, e: DeriveError) -> bool {
    exists|j: int, f: int| 0 <= j < ts.len()
        && (forall|jj: int, g: int| 0 <= jj < j && 0 <= g < cbs.len() ==> args_fine(#[trigger] cbs[g], bind, #[trigger] ts[jj]))
        && #[trigger] first_bad_callback(cbs, bind, ts[j], f)
        && args_ok(Err(e), opt_views_of(cbs[f].args), bind, ts[j])
}

/// The first callback from `f` on, in reading order, whose arguments have no
/// meaning, when `f` is the first such in written order.
fn first_bad_from(bind: &Option<String>, t: &Option<String>, callbacks: &Vec<CallbackFunction>, f: usize) -> (best: usize)
    requires
        f < callbacks@.len(),
        !args_fine(callbacks@[f as int], opt_view(*bind), opt_view(*t)),
        forall|g: int| 0 <= g < f ==> args_fine(#[trigger] callbacks@[g], opt_view(*bind), opt_view(*t)),
        forall|g: int| 0 <= g < callbacks@.len() ==> has_segments((#[trigger] callbacks@[g]).path),
    ensures
        first_bad_callback(callbacks@, opt_view(*bind), opt_view(*t), best as int),
{
    let ghost b = opt_view(*bind);
    let ghost tv = opt_view(*t);
    let ghost cbs = callbacks@;
    let n = callbacks.len();
    let mut best = f;
    let mut g = f + 1;
    while g < callbacks.len()
        invariant
            cbs == callbacks@,
            b == opt_view(*bind),
            tv == opt_view(*t),
            f <= best < g <= cbs.len(),
            !args_fine(cbs[best as int], b, tv),
            forall|h: int| 0 <= h < f ==> args_fine(#[trigger] cbs[h], b, tv),
            forall|h: int| 0 <= h < cbs.len() ==> has_segments((#[trigger] cbs[h]).path),
            forall|h: int| 0 <= h < g && h != best && !args_fine(#[trigger] cbs[h], b, tv) ==> callback_before(cbs, best as int, h),
        decreases cbs.len() - g,
    {
        let bad = map_callback_args(bind, t, &callbacks[g].args).is_err();
        assert(bad == !args_fine(cbs[g as int], b, tv));
        if bad && compare_calls(&callbacks[g].path, &callbacks[best].path) == Order::Less {
            proof {
                let (ng, ob) = (cbs[g as int].path, cbs[best as int].path);
                lemma_call_order_flip(ng, ob);
                assert forall|h: int| 0 <= h < g + 1 && h != g && !args_fine(#[trigger] cbs[h], b, tv) implies callback_before(cbs, g as int, h) by {
                    if h != best {
                        let hp = cbs[h].path;
                        assert(callback_before(cbs, best as int, h));
                        if call_order(ob, hp) == Order::Less {
                            lemma_call_order_trans(ng, ob, hp);
                        } else {
                            lemma_call_order_flip(ob, hp);
                            lemma_call_order_eq_trans(hp, ob, ng);
                            lemma_call_order_flip(hp, ng);
                        }
                    }
                }
            }
            best = g;
        } else {
            proof {
                if bad {
                    lemma_call_order_flip(cbs[g as int].path, cbs[best as int].path);
                }
            }
        }
        g = g + 1;
    }
    best
}

/// `c` is the call made of callback `f`, for a binding to `bind` and the
/// target `t`.
pub open spec fn call_from(c: FunctionCall, f: CallbackFunction, bind: Option<Seq<char>>, t: Option<Seq<char>>) -> bool {
    &&& c.path.same(f.path)
    &&& c.path_text@ == f.path_text@
    &&& args_ok(Ok(c.args), opt_views_of(f.args), bind, t)
}

pub proof fn lemma_same_path_order(a: PathModel, b: PathModel, c: PathModel)
    requires
        a.same(b),
        has_segments(b),
        has_segments(c),
    ensures
        has_segments(a),
        call_order(a, c) == call_order(b, c),
        call_order(c, a) == call_order(c, b),
{
    assert(a.segments@[0].same(b.segments@[0]));
    assert(a.segments@[a.segments@.len() - 1].same(b.segments@[b.segments@.len() - 1]));
}

impl EventCallback {
    /// Targets occur once, and each target's calls form an ordered set.
    pub open spec fn wf(self) -> bool {
        &&& forall|i: int| 0 <= i < self.entries@.len() ==> calls_sorted((#[trigger] self.entries@[i]).calls@)
        &&& forall|i: int, j: int| 0 <= i < j < self.entries@.len() ==> opt_view((#[trigger] self.entries@[i]).target) != opt_view((#[trigger] self.entries@[j]).target)
    }

    /// The calls registered for target `t` hold one counted as the same as `p`.
    pub open spec fn has(self, t: Option<Seq<char>>, p: PathModel) -> bool {
        exists|i: int| 0 <= i < self.entries@.len() && opt_view((#[trigger] self.entries@[i]).target) == t && has_call(self.entries@[i].calls@, p)
    }

    /// Every call registered for `t` that counts as the same as `p`.
    pub open spec fn stored(self, t: Option<Seq<char>>, c: FunctionCall) -> bool {
        exists|i: int, k: int| 0 <= i < self.entries@.len() && opt_view((#[trigger] self.entries@[i]).target) == t && 0 <= k < self.entries@[i].calls@.len() && #[trigger] self.entries@[i].calls@[k] == c
    }

    pub fn new() -> (r: EventCallback)
        ensures
            r.wf(),
            r.entries@.len() == 0,
    {
        EventCallback { entries: Vec::new() }
    }

    /// Index of the entry for `t`, added empty when missing (`entry().or_insert`).
    fn entry(&mut self, t: &Option<String>) -> (r: usize)
        requires
            old(self).wf(),
        ensures
            final(self).wf(),
            r < final(self).entries@.len(),
            opt_view(final(self).entries@[r as int].target) == opt_view(*t),
            forall|tt: Option<Seq<char>>, c: FunctionCall| #[trigger] final(self).stored(tt, c) <==> old(self).stored(tt, c),
            forall|tt: Option<Seq<char>>, p: PathModel| #[trigger] final(self).has(tt, p) <==> old(self).has(tt, p),
    {
        let mut i: usize = 0;
        while i < self.entries.len()
            invariant
                i <= self.entries@.len(),
                *self == *old(self),
                old(self).wf(),
                old(self).wf(),
                forall|j: int| 0 <= j < i ==> opt_view((#[trigger] self.entries@[j]).target) != opt_view(*t),
            decreases self.entries@.len() - i,
        {
            let same = match (&self.entries[i].target, t) {
                (None, None) => true,
                (Some(a), Some(b)) => text_eq(a.as_str(), b.as_str()),
                _ => false,
            };
            if same {
                return i;
            }
            i = i + 1;
        }
        let tc = match t {
            Some(s) => Some(s.clone()),
            None => None,
        };
        let ghost old_entries = self.entries@;
        self.entries.push(TargetCalls { target: tc, calls: Vec::new() });
        proof {
            let ne = self.entries@;
            assert(ne.len() == old_entries.len() + 1);
            assert forall|tt: Option<Seq<char>>, c: FunctionCall| #[trigger] self.stored(tt, c) <==> old(self).stored(tt, c) by {
                if self.stored(tt, c) {
                    let (a, k) = choose|a: int, k: int| 0 <= a < ne.len() && opt_view((#[trigger] ne[a]).target) == tt && 0 <= k < ne[a].calls@.len() && #[trigger] ne[a].calls@[k] == c;
                    assert(a < old_entries.len());
                    assert(old_entries[a] == ne[a]);
                }
                if old(self).stored(tt, c) {
                    let (a, k) = choose|a: int, k: int| 0 <= a < old_entries.len() && opt_view((#[trigger] old_entries[a]).target) == tt && 0 <= k < old_entries[a].calls@.len() && #[trigger] old_entries[a].calls@[k] == c;
                    assert(ne[a] == old_entries[a]);
                }
            }
            assert forall|tt: Option<Seq<char>>, p: PathModel| #[trigger] self.has(tt, p) <==> old(self).has(tt, p) by {
                if self.has(tt, p) {
                    let a = choose|a: int| 0 <= a < ne.len() && opt_view((#[trigger] ne[a]).target) == tt && has_call(ne[a].calls@, p);
                    assert(a < old_entries.len());
                    assert(old_entries[a] == ne[a]);
                }
                if old(self).has(tt, p) {
                    let a = choose|a: int| 0 <= a < old_entries.len() && opt_view((#[trigger] old_entries[a]).target) == tt && has_call(old_entries[a].calls@, p);
                    assert(ne[a] == old_entries[a]);
                }
            }
        }
        self.entries.len() - 1
    }

    /// Adds the call `c` for target `t`, unless one counted as the same is
    /// already there.
    pub fn add(&mut self, t: &Option<String>, c: FunctionCall)
        requires
            old(self).wf(),
            has_segments(c.path),
        ensures
            final(self).wf(),
            final(self).has(opt_view(*t), c.path),
            forall|tt: Option<Seq<char>>, p: PathModel| #[trigger] old(self).has(tt, p) ==> final(self).has(tt, p),
            forall|tt: Option<Seq<char>>, p: PathModel| has_segments(p) && #[trigger] final(self).has(tt, p) ==> old(self).has(tt, p) || (tt == opt_view(*t) && call_order(c.path, p) == Order::Equal),
            forall|tt: Option<Seq<char>>, d: FunctionCall| #[trigger] final(self).stored(tt, d) ==> old(self).stored(tt, d) || (tt == opt_view(*t) && d == c),
    {
        let i = self.entry(t);
        let ghost mid = self.entries@;
        let ghost mid_self = *self;
        let mut tc = self.entries.remove(i);
        let ghost old_calls = tc.calls@;
        let ghost cc = c;
        let added = insert_call(&mut tc.calls, c);
        let ghost new_calls = tc.calls@;
        self.entries.insert(i, tc);
        proof {
            let ne = self.entries@;
            assert(ne =~= mid.update(i as int, ne[i as int]));
            assert(opt_view(ne[i as int].target) == opt_view(*t));
            law_insert_call_idempotent(old_calls, cc, new_calls, added);
            assert(has_call(ne[i as int].calls@, cc.path));
            assert forall|a: int, b: int| 0 <= a < b < ne.len() implies opt_view((#[trigger] ne[a]).target) != opt_view((#[trigger] ne[b]).target) by {
                assert(opt_view(ne[a].target) == opt_view(mid[a].target));
                assert(opt_view(ne[b].target) == opt_view(mid[b].target));
            }
            assert forall|a: int| 0 <= a < ne.len() implies calls_sorted((#[trigger] ne[a]).calls@) by {
                if a != i {
                    assert(ne[a] == mid[a]);
                }
            }
            // membership of calls: only the entry at i changed, by adding cc
            assert forall|tt: Option<Seq<char>>, p: PathModel| #[trigger] old(self).has(tt, p) implies self.has(tt, p) by {
                assert(mid_self.has(tt, p));
                let a = choose|a: int| 0 <= a < mid.len() && opt_view((#[trigger] mid[a]).target) == tt && has_call(mid[a].calls@, p);
                if a != i {
                    assert(ne[a] == mid[a]);
                } else {
                    let k = choose|k: int| 0 <= k < old_calls.len() && call_order(#[trigger] old_calls[k].path, p) == Order::Equal;
                    if added {
                        let q = choose|q: int| 0 <= q <= old_calls.len() && new_calls == old_calls.insert(q, cc);
                        if k < q {
                            assert(new_calls[k] == old_calls[k]);
                        } else {
                            assert(new_calls[k + 1] == old_calls[k]);
                        }
                    }
                }
            }
            assert forall|tt: Option<Seq<char>>, p: PathModel| has_segments(p) && #[trigger] self.has(tt, p) implies old(self).has(tt, p) || (tt == opt_view(*t) && call_order(cc.path, p) == Order::Equal) by {
                let a = choose|a: int| 0 <= a < ne.len() && opt_view((#[trigger] ne[a]).target) == tt && has_call(ne[a].calls@, p);
                if a != i {
                    assert(ne[a] == mid[a]);
                    assert(mid.len() == ne.len());
                    assert(mid_self.has(tt, p));
                } else {
                    let k = choose|k: int| 0 <= k < new_calls.len() && call_order(#[trigger] new_calls[k].path, p) == Order::Equal;
                    if added {
                        let q = choose|q: int| 0 <= q <= old_calls.len() && new_calls == old_calls.insert(q, cc);
                        if k < q {
                            assert(new_calls[k] == old_calls[k]);
                            assert(has_call(mid[a].calls@, p));
                            assert(mid_self.has(tt, p));
                        } else if k > q {
                            assert(new_calls[k] == old_calls[k - 1]);
                            assert(has_call(mid[a].calls@, p));
                            assert(mid_self.has(tt, p));
                        } else {
                            assert(new_calls[k] == cc);
                            lemma_call_order_flip(cc.path, p);
                        }
                    } else {
                        assert(has_call(mid[a].calls@, p));
                        assert(mid_self.has(tt, p));
                    }
                }
            }
            assert forall|tt: Option<Seq<char>>, d: FunctionCall| #[trigger] self.stored(tt, d) implies old(self).stored(tt, d) || (tt == opt_view(*t) && d == cc) by {
                let (a, k) = choose|a: int, k: int| 0 <= a < ne.len() && opt_view((#[trigger] ne[a]).target) == tt && 0 <= k < ne[a].calls@.len() && #[trigger] ne[a].calls@[k] == d;
                if a != i {
                    assert(ne[a] == mid[a]);
                    assert(mid[a].calls@[k] == d);
                    assert(mid_self.stored(tt, d));
                } else {
                    if added {
                        let q = choose|q: int| 0 <= q <= old_calls.len() && new_calls == old_calls.insert(q, cc);
                        if k < q {
                            assert(mid[a].calls@[k] == d);
                            assert(mid_self.stored(tt, d));
                        } else if k > q {
                            assert(mid[a].calls@[k - 1] == d);
                            assert(mid_self.stored(tt, d));
                        }
                    } else {
                        assert(mid[a].calls@[k] == d);
                        assert(mid_self.stored(tt, d));
                    }
                }
            }
        }
    }

    /// Registers every callback for every target.
    pub fn parse(&mut self, bind: &Option<String>, targets: &Vec<Option<String>>, callbacks: &Vec<CallbackFunction>) -> (r: Result<(), DeriveError>)
        requires
            old(self).wf(),
            forall|f: int| 0 <= f < callbacks@.len() ==> has_segments((#[trigger] callbacks@[f]).path),
        ensures
            final(self).wf(),
            r is Ok <==> forall|j: int, f: int| 0 <= j < targets@.len() && 0 <= f < callbacks@.len() ==> args_fine(#[trigger] callbacks@[f], opt_view(*bind), opt_view(#[trigger] targets@[j])),
            r is Err ==> calls_error(opt_view(*bind), callbacks@, opt_views(targets@), r->Err_0),
            r is Ok ==> forall|j: int, f: int| 0 <= j < targets@.len() && 0 <= f < callbacks@.len() ==> final(self).has(opt_view(#[trigger] targets@[j]), (#[trigger] callbacks@[f]).path),
            forall|tt: Option<Seq<char>>, p: PathModel| #[trigger] old(self).has(tt, p) ==> final(self).has(tt, p),
            forall|tt: Option<Seq<char>>, p: PathModel| has_segments(p) && #[trigger] final(self).has(tt, p) ==> old(self).has(tt, p) || exists|j: int, f: int| 0 <= j < targets@.len() && 0 <= f < callbacks@.len() && tt == opt_view(#[trigger] targets@[j]) && call_order((#[trigger] callbacks@[f]).path, p) == Order::Equal,
            forall|tt: Option<Seq<char>>, d: FunctionCall| #[trigger] final(self).stored(tt, d) ==> old(self).stored(tt, d) || exists|j: int, f: int| 0 <= j < targets@.len() && 0 <= f < callbacks@.len() && tt == opt_view(#[trigger] targets@[j]) && call_from(d, #[trigger] callbacks@[f], opt_view(*bind), tt),
    {
        let ghost b = opt_view(*bind);
        let mut j: usize = 0;
        while j < targets.len()
            invariant
                j <= targets@.len(),
                b == opt_view(*bind),
                self.wf(),
                forall|f: int| 0 <= f < callbacks@.len() ==> has_segments((#[trigger] callbacks@[f]).path),
                forall|jj: int, f: int| 0 <= jj < j && 0 <= f < callbacks@.len() ==> args_fine(#[trigger] callbacks@[f], b, opt_view(#[trigger] targets@[jj])),
                forall|jj: int, f: int| 0 <= jj < j && 0 <= f < callbacks@.len() ==> self.has(opt_view(#[trigger] targets@[jj]), (#[trigger] callbacks@[f]).path),
                forall|tt: Option<Seq<char>>, p: PathModel| #[trigger] old(self).has(tt, p) ==> self.has(tt, p),
                forall|tt: Option<Seq<char>>, p: PathModel| has_segments(p) && #[trigger] self.has(tt, p) ==> old(self).has(tt, p) || exists|jj: int, f: int| 0 <= jj < targets@.len() && 0 <= f < callbacks@.len() && tt == opt_view(#[trigger] targets@[jj]) && call_order((#[trigger] callbacks@[f]).path, p) == Order::Equal,
                forall|tt: Option<Seq<char>>, d: FunctionCall| #[trigger] self.stored(tt, d) ==> old(self).stored(tt, d) || exists|jj: int, f: int| 0 <= jj < targets@.len() && 0 <= f < callbacks@.len() && tt == opt_view(#[trigger] targets@[jj]) && call_from(d, #[trigger] callbacks@[f], b, tt),
            decreases targets@.len() - j,
        {
            let t = &targets[j];
            let mut f: usize = 0;
            while f < callbacks.len()
                invariant
                    j < targets@.len(),
                    *t == targets@[j as int],
                    f <= callbacks@.len(),
                    b == opt_view(*bind),
                    self.wf(),
                    forall|g: int| 0 <= g < callbacks@.len() ==> has_segments((#[trigger] callbacks@[g]).path),
                    forall|jj: int, g: int| 0 <= jj < j && 0 <= g < callbacks@.len() ==> args_fine(#[trigger] callbacks@[g], b, opt_view(#[trigger] targets@[jj])),
                    forall|g: int| 0 <= g < f ==> args_fine(#[trigger] callbacks@[g], b, opt_view(*t)),
                    forall|jj: int, g: int| 0 <= jj < j && 0 <= g < callbacks@.len() ==> self.has(opt_view(#[trigger] targets@[jj]), (#[trigger] callbacks@[g]).path),
                    forall|g: int| 0 <= g < f ==> self.has(opt_view(*t), (#[trigger] callbacks@[g]).path),
                    forall|tt: Option<Seq<char>>, p: PathModel| #[trigger] old(self).has(tt, p) ==> self.has(tt, p),
                    forall|tt: Option<Seq<char>>, p: PathModel| has_segments(p) && #[trigger] self.has(tt, p) ==> old(self).has(tt, p) || exists|jj: int, g: int| 0 <= jj < targets@.len() && 0 <= g < callbacks@.len() && tt == opt_view(#[trigger] targets@[jj]) && call_order((#[trigger] callbacks@[g]).path, p) == Order::Equal,
                    forall|tt: Option<Seq<char>>, d: FunctionCall| #[trigger] self.stored(tt, d) ==> old(self).stored(tt, d) || exists|jj: int, g: int| 0 <= jj < targets@.len() && 0 <= g < callbacks@.len() && tt == opt_view(#[trigger] targets@[jj]) && call_from(d, #[trigger] callbacks@[g], b, tt),
                decreases callbacks@.len() - f,
            {
                let func = &callbacks[f];
                let m = map_callback_args(bind, t, &func.args);
                let args = match m {
                    Ok(a) => a,
                    Err(_) => {
                        assert(!args_fine(callbacks@[f as int], b, opt_view(*t)));
                        let best = first_bad_from(bind, t, callbacks, f);
                        let e = match map_callback_args(bind, t, &callbacks[best].args) {
                            Err(e) => e,
                            Ok(_) => {
                                assert(false);
                                DeriveError::NoShortcutKey
                            },
                        };
                        proof {
                            let ts = opt_views(targets@);
                            assert(ts[j as int] == opt_view(*t));
                            assert forall|jj: int, g: int| 0 <= jj < j && 0 <= g < callbacks@.len() implies args_fine(#[trigger] callbacks@[g], b, #[trigger] ts[jj]) by {
                                assert(ts[jj] == opt_view(targets@[jj]));
                            }
                            assert(first_bad_callback(callbacks@, b, ts[j as int], best as int));
                            assert(calls_error(b, callbacks@, ts, e));
                        }
                        return Err(e);
                    },
                };
                let call = FunctionCall { path: func.path.duplicate(), path_text: func.path_text.clone(), args };
                proof {
                    lemma_same_path_order(call.path, func.path, func.path);
                    assert(call_from(call, callbacks@[f as int], b, opt_view(*t)));
                    assert(args_fine(callbacks@[f as int], b, opt_view(*t)));
                }
                let ghost before = *self;
                let ghost cpath = call.path;
                let ghost ccall = call;
                self.add(t, call);
                proof {
                    assert forall|g: int| 0 <= g < f + 1 implies self.has(opt_view(*t), (#[trigger] callbacks@[g]).path) by {
                        if g < f {
                            assert(before.has(opt_view(*t), callbacks@[g].path));
                        } else {
                            // counted as the same as the call just added
                            let a = choose|a: int| 0 <= a < self.entries@.len() && opt_view((#[trigger] self.entries@[a]).target) == opt_view(*t) && has_call(self.entries@[a].calls@, cpath);
                            let k = choose|k: int| 0 <= k < self.entries@[a].calls@.len() && call_order(#[trigger] self.entries@[a].calls@[k].path, cpath) == Order::Equal;
                            assert(calls_sorted(self.entries@[a].calls@));
                            lemma_same_path_order(cpath, func.path, self.entries@[a].calls@[k].path);
                            lemma_call_order_flip(self.entries@[a].calls@[k].path, cpath);
                            lemma_call_order_flip(self.entries@[a].calls@[k].path, func.path);
                        }
                    }
                    assert forall|jj: int, g: int| 0 <= jj < j && 0 <= g < callbacks@.len() implies self.has(opt_view(#[trigger] targets@[jj]), (#[trigger] callbacks@[g]).path) by {
                        assert(before.has(opt_view(targets@[jj]), callbacks@[g].path));
                    }
                    assert forall|tt: Option<Seq<char>>, p: PathModel| has_segments(p) && #[trigger] self.has(tt, p) implies old(self).has(tt, p) || exists|jj: int, g: int| 0 <= jj < targets@.len() && 0 <= g < callbacks@.len() && tt == opt_view(#[trigger] targets@[jj]) && call_order((#[trigger] callbacks@[g]).path, p) == Order::Equal by {
                        if !before.has(tt, p) {
                            assert(tt == opt_view(*t) && call_order(cpath, p) == Order::Equal);
                            lemma_same_path_order(cpath, func.path, p);
                            assert(tt == opt_view(targets@[j as int]));
                            assert(call_order(callbacks@[f as int].path, p) == Order::Equal);
                        }
                    }
                    assert forall|tt: Option<Seq<char>>, d: FunctionCall| #[trigger] self.stored(tt, d) implies old(self).stored(tt, d) || exists|jj: int, g: int| 0 <= jj < targets@.len() && 0 <= g < callbacks@.len() && tt == opt_view(#[trigger] targets@[jj]) && call_from(d, #[trigger] callbacks@[g], b, tt) by {
                        if !before.stored(tt, d) {
                            assert(tt == opt_view(*t) && d == ccall);
                            assert(tt == opt_view(targets@[j as int]));
                            assert(call_from(d, callbacks@[f as int], b, tt));
                        }
                    }
                }
                f = f + 1;
            }
            j = j + 1;
        }
        Ok(())
    }
}

// ---------------------------------------------------------------------------
// All bindings of a UI

/// The callbacks of one event name.
pub struct EventEntry {
    pub event: String,
    pub callbacks: EventCallback,
}

/// The callbacks of one key combination.
pub struct ShortcutEntry {
    pub keys: ShortcutKeystrokes,
    pub callbacks: EventCallback,
}

/// The event and shortcut bindings of a UI.
///
/// Events and key combinations are kept in `Vec`s sorted by their keys
/// rather than in `HashMap`s: the keys are strings, or pairs of strings,
/// of which Verus proves nothing as `HashMap` keys, and the generated code
/// needs the entries in that sorted order, which a `HashMap`'s unspecified
/// iteration order does not give.
pub struct ControlEvents {
    /// Built for a partial UI.
    pub partial: bool,
    /// Members that are top level windows: the default handler is bound to them.
    pub handles: Vec<String>,
    /// By event name, in increasing order.
    pub callbacks: Vec<EventEntry>,
    /// Partial members, which get the events forwarded.
    pub partial_members: Vec<String>,
    /// By key combination, in increasing order.
    pub shortcuts: Vec<ShortcutEntry>,
}

pub open spec fn events_sorted(s: Seq<EventEntry>) -> bool {
    forall|i: int, j: int| 0 <= i < j < s.len() ==> text_order((#[trigger] s[i]).event@, (#[trigger] s[j]).event@) == Order::Less
}

pub open spec fn shortcuts_sorted(s: Seq<ShortcutEntry>) -> bool {
    forall|i: int, j: int| 0 <= i < j < s.len() ==> keystroke_order((#[trigger] s[i]).keys, (#[trigger] s[j]).keys) == Order::Less
}

/// The targets of a definition bound to `target`.
pub open spec fn def_targets(target: Option<String>, names: Option<Vec<String>>) -> Seq<Option<Seq<char>>> {
    event_targets(opt_view(target), opt_views_of(names))
}

/// Every callback of the definitions has a path with a segment.
pub open spec fn defs_have_segments(defs: Seq<CallbackDefinition>) -> bool {
    forall|d: int, f: int| 0 <= d < defs.len() && 0 <= f < defs[d].callbacks@.len() ==> has_segments((#[trigger] defs[d].callbacks@[f]).path)
}

/// Every argument of the definition has a meaning, for every target (a
/// definition without events registers nothing).
pub open spec fn def_fine(target: Option<String>, d: CallbackDefinition) -> bool {
    d.callback_ids@.len() > 0 ==> forall|j: int, f: int| 0 <= j < def_targets(target, d.field_names).len() && 0 <= f < d.callbacks@.len()
        ==> args_fine(#[trigger] d.callbacks@[f], opt_view(target), #[trigger] def_targets(target, d.field_names)[j])
}

/// Registering the definition fails with `e` (at its first event).
pub open spec fn def_fails_with(target: Option<String>, d: CallbackDefinition, e: DeriveError) -> bool {
    d.callback_ids@.len() > 0 && calls_error(opt_view(target), d.callbacks@, def_targets(target, d.field_names), e)
}

/// Registering the shortcut definition fails with `e` (at its first key
/// combination).
pub open spec fn sdef_fails_with(target: Option<String>, d: ShortcutDefinition, e: DeriveError) -> bool {
    d.key_combos@.len() > 0 && calls_error(opt_view(target), d.callbacks@, def_targets(target, d.field_names), e)
}

/// The definition binds a call counted as the same as `p` to event `ee` and target `t`.
pub open spec fn def_binds(target: Option<String>, d: CallbackDefinition, ee: Seq<char>, t: Option<Seq<char>>, p: PathModel) -> bool {
    exists|i: int, j: int, f: int| 0 <= i < d.callback_ids@.len() && 0 <= j < def_targets(target, d.field_names).len() && 0 <= f < d.callbacks@.len()
        && ee == (#[trigger] d.callback_ids@[i])@ && t == #[trigger] def_targets(target, d.field_names)[j] && call_order((#[trigger] d.callbacks@[f]).path, p) == Order::Equal
}

/// The definition makes the call `c` for event `ee` and target `t`.
pub open spec fn def_makes(target: Option<String>, d: CallbackDefinition, ee: Seq<char>, t: Option<Seq<char>>, c: FunctionCall) -> bool {
    exists|i: int, j: int, f: int| 0 <= i < d.callback_ids@.len() && 0 <= j < def_targets(target, d.field_names).len() && 0 <= f < d.callbacks@.len()
        && ee == (#[trigger] d.callback_ids@[i])@ && t == #[trigger] def_targets(target, d.field_names)[j] && call_from(c, #[trigger] d.callbacks@[f], opt_view(target), t)
}

/// A key combination names exactly one key.
pub open spec fn combo_ok(c: Seq<Seq<char>>) -> bool {
    key_args(c).len() == 1
}

/// The error of a key combination that does not name exactly one key.
pub open spec fn combo_error(c: Seq<Seq<char>>, e: DeriveError) -> bool {
    if key_args(c).len() >= 2 {
        e matches DeriveError::ExtraShortcutKey { key } && key@ == key_args(c)[1]
    } else {
        e is NoShortcutKey
    }
}

pub open spec fn combos_of(d: ShortcutDefinition) -> Seq<Seq<Seq<char>>> {
    d.key_combos@.map_values(|c: Vec<String>| views(c@))
}

/// Every key combination of the definitions names exactly one key.
pub open spec fn combos_all_ok(defs: Seq<ShortcutDefinition>) -> bool {
    forall|d: int, c: int| 0 <= d < defs.len() && 0 <= c < combos_of(defs[d]).len() ==> combo_ok(#[trigger] combos_of(defs[d])[c])
}

/// Combination `c` of definition `d` is the first, in written order, that
/// does not name exactly one key.
pub open spec fn first_bad_combo(defs: Seq<ShortcutDefinition>, d: int, c: int) -> bool {
    &&& 0 <= d < defs.len() && 0 <= c < combos_of(defs[d]).len()
    &&& forall|dd: int, cc: int| 0 <= dd < d && 0 <= cc < combos_of(defs[dd]).len() ==> combo_ok(#[trigger] combos_of(defs[dd])[cc])
    &&& forall|cc: int| 0 <= cc < c ==> combo_ok(#[trigger] combos_of(defs[d])[cc])
    &&& !combo_ok(combos_of(defs[d])[c])
}

pub open spec fn sdefs_have_segments(defs: Seq<ShortcutDefinition>) -> bool {
    forall|d: int, f: int| 0 <= d < defs.len() && 0 <= f < defs[d].callbacks@.len() ==> has_segments((#[trigger] defs[d].callbacks@[f]).path)
}

pub open spec fn sdef_fine(target: Option<String>, d: ShortcutDefinition) -> bool {
    d.key_combos@.len() > 0 ==> forall|j: int, f: int| 0 <= j < def_targets(target, d.field_names).len() && 0 <= f < d.callbacks@.len()
        ==> args_fine(#[trigger] d.callbacks@[f], opt_view(target), #[trigger] def_targets(target, d.field_names)[j])
}

pub open spec fn sdef_binds(target: Option<String>, d: ShortcutDefinition, kk: Seq<char>, mm: Seq<char>, t: Option<Seq<char>>, p: PathModel) -> bool {
    exists|c: int, j: int, f: int| 0 <= c < combos_of(d).len() && 0 <= j < def_targets(target, d.field_names).len() && 0 <= f < d.callbacks@.len()
        && kk == key_args(#[trigger] combos_of(d)[c])[0] && mm == modifier_name(combos_of(d)[c])
        && t == #[trigger] def_targets(target, d.field_names)[j] && call_order((#[trigger] d.callbacks@[f]).path, p) == Order::Equal
}

/// The shortcut definition makes the call `c` for the combination named by
/// `kk` and `mm`, and target `t`.
pub open spec fn sdef_makes(target: Option<String>, d: ShortcutDefinition, kk: Seq<char>, mm: Seq<char>, t: Option<Seq<char>>, c: FunctionCall) -> bool {
    exists|cc: int, j: int, f: int| 0 <= cc < combos_of(d).len() && 0 <= j < def_targets(target, d.field_names).len() && 0 <= f < d.callbacks@.len()
        && kk == key_args(#[trigger] combos_of(d)[cc])[0] && mm == modifier_name(combos_of(d)[cc])
        && t == #[trigger] def_targets(target, d.field_names)[j] && call_from(c, #[trigger] d.callbacks@[f], opt_view(target), t)
}

/// Every callback written in the attributes has a path with a segment.
pub open spec fn attrs_wf(attrs: Seq<AttrInfo>) -> bool {
    forall|i: int| 0 <= i < attrs.len() ==> {
        &&& ((#[trigger] attrs[i]).events matches Ok(ds) ==> defs_have_segments(ds@))
        &&& (attrs[i].shortcuts matches Ok(ds) ==> sdefs_have_segments(ds@))
    }
}

/// Registering the shortcut attribute `a` for `target` succeeds.
pub open spec fn shortcut_attr_ok(target: Option<String>, a: AttrInfo) -> bool {
    match a.shortcuts {
        Ok(ds) => {
            &&& forall|d: int, c: int| 0 <= d < ds@.len() && 0 <= c < combos_of(ds@[d]).len() ==> combo_ok(#[trigger] combos_of(ds@[d])[c])
            &&& forall|d: int| 0 <= d < ds@.len() ==> sdef_fine(target, #[trigger] ds@[d])
        },
        Err(_) => false,
    }
}

/// Registering the event attribute `a` for `target` succeeds.
pub open spec fn event_attr_ok(target: Option<String>, a: AttrInfo) -> bool {
    match a.events {
        Ok(ds) => forall|d: int| 0 <= d < ds@.len() ==> def_fine(target, #[trigger] ds@[d]),
        Err(_) => false,
    }
}

/// Registering the event attribute `a` for `target` fails with `e`: its
/// parse error, else the failure of its first definition that fails.
pub open spec fn event_attr_error(target: Option<String>, a: AttrInfo, e: DeriveError) -> bool {
    match a.events {
        Err(m) => e matches DeriveError::AttrParse(mm) && mm@ == m@,
        Ok(ds) => exists|d: int| 0 <= d < ds@.len() && (forall|dd: int| 0 <= dd < d ==> def_fine(target, #[trigger] ds@[dd]))
            && def_fails_with(target, #[trigger] ds@[d], e),
    }
}

/// Registering the shortcut attribute `a` for `target` fails with `e`: its
/// parse error, else its first key combination that does not name exactly
/// one key, else the failure of its first definition that fails.
pub open spec fn shortcut_attr_error(target: Option<String>, a: AttrInfo, e: DeriveError) -> bool {
    match a.shortcuts {
        Err(m) => e matches DeriveError::AttrParse(mm) && mm@ == m@,
        Ok(ds) => if !combos_all_ok(ds@) {
            exists|d: int, c: int| #[trigger] first_bad_combo(ds@, d, c) && combo_error(combos_of(ds@[d])[c], e)
        } else {
            exists|d: int| 0 <= d < ds@.len() && (forall|dd: int| 0 <= dd < d ==> sdef_fine(target, #[trigger] ds@[dd]))
                && sdef_fails_with(target, #[trigger] ds@[d], e)
        },
    }
}

/// Registering the bindings of the attributes `attrs` for `target` fails
/// with `e`: the failure of the shortcut attribute, else of the event
/// attribute (the first of each kind counts).
pub open spec fn bindings_error(target: Option<String>, attrs: Seq<AttrInfo>, e: DeriveError) -> bool {
    let s = first_attr(attrs, "nwg_shortcuts"@);
    if s is Some && !shortcut_attr_ok(target, attrs[s->Some_0]) {
        shortcut_attr_error(target, attrs[s->Some_0], e)
    } else {
        first_attr(attrs, "nwg_events"@) matches Some(i) && event_attr_error(target, attrs[i], e)
    }
}

/// What registering the bindings written on the struct itself gives,
/// from events `o` to `n`.
pub open spec fn global_result(attrs: Seq<AttrInfo>, o: ControlEvents, n: ControlEvents, r: Result<(), DeriveError>) -> bool {
    &&& n.wf()
    &&& n.handles == o.handles
    &&& n.partial_members == o.partial_members
    &&& n.partial == o.partial
    &&& match first_attr(attrs, "nwg_shortcuts"@) {
        None => r is Ok && n == o,
        Some(k) => {
            let rest = attrs.skip(k + 1);
            &&& r is Ok <==> (shortcut_attr_ok(None, attrs[k])
                && (first_attr(rest, "nwg_events"@) matches Some(j) ==> event_attr_ok(None, rest[j])))
            &&& r is Ok ==> n.shortcut_attr_done(None, attrs[k])
            &&& r is Ok ==> (first_attr(rest, "nwg_events"@) matches Some(j) ==> n.event_attr_done(None, rest[j]))
            &&& r matches Err(e) ==> if !shortcut_attr_ok(None, attrs[k]) {
                shortcut_attr_error(None, attrs[k], e)
            } else {
                first_attr(rest, "nwg_events"@) matches Some(j) && event_attr_error(None, rest[j], e)
            }
        },
    }
    &&& forall|ee: Seq<char>, t: Option<Seq<char>>, p: PathModel| #[trigger] o.has_event(ee, t, p) ==> n.has_event(ee, t, p)
    &&& forall|kk: Seq<char>, mm: Seq<char>, t: Option<Seq<char>>, p: PathModel| #[trigger] o.has_shortcut(kk, mm, t, p) ==> n.has_shortcut(kk, mm, t, p)
    &&& forall|ee: Seq<char>, t: Option<Seq<char>>, c: FunctionCall| #[trigger] n.stored_event(ee, t, c) ==> o.stored_event(ee, t, c)
        || (first_attr(attrs, "nwg_shortcuts"@) matches Some(k) && first_attr(attrs.skip(k + 1), "nwg_events"@) matches Some(j)
            && attrs.skip(k + 1)[j].events matches Ok(ds) && exists|d: int| 0 <= d < ds@.len() && def_makes(None, #[trigger] ds@[d], ee, t, c))
    &&& forall|kk: Seq<char>, mm: Seq<char>, t: Option<Seq<char>>, c: FunctionCall| #[trigger] n.stored_shortcut(kk, mm, t, c) ==> o.stored_shortcut(kk, mm, t, c)
        || (first_attr(attrs, "nwg_shortcuts"@) matches Some(k) && attrs[k].shortcuts matches Ok(ds)
            && exists|d: int| 0 <= d < ds@.len() && sdef_makes(None, #[trigger] ds@[d], kk, mm, t, c))
}

impl ControlEvents {
    /// All definitions of the shortcut attribute `a` are registered for `target`.
    pub open spec fn shortcut_attr_done(self, target: Option<String>, a: AttrInfo) -> bool {
        a.shortcuts matches Ok(ds) && forall|d: int| 0 <= d < ds@.len() ==> self.registered_shortcuts(target, #[trigger] ds@[d])
    }

    /// All definitions of the event attribute `a` are registered for `target`.
    pub open spec fn event_attr_done(self, target: Option<String>, a: AttrInfo) -> bool {
        a.events matches Ok(ds) && forall|d: int| 0 <= d < ds@.len() ==> self.registered(target, #[trigger] ds@[d])
    }

    /// Every key combination of the definition runs each of its callbacks for each target.
    pub open spec fn registered_shortcuts(self, target: Option<String>, d: ShortcutDefinition) -> bool {
        forall|c: int, j: int, f: int| 0 <= c < combos_of(d).len() && 0 <= j < def_targets(target, d.field_names).len() && 0 <= f < d.callbacks@.len()
            ==> self.has_shortcut(key_args(#[trigger] combos_of(d)[c])[0], modifier_name(combos_of(d)[c]), #[trigger] def_targets(target, d.field_names)[j], (#[trigger] d.callbacks@[f]).path)
    }

    /// Every event of the definition runs each of its callbacks for each target.
    pub open spec fn registered(self, target: Option<String>, d: CallbackDefinition) -> bool {
        forall|i: int, j: int, f: int| 0 <= i < d.callback_ids@.len() && 0 <= j < def_targets(target, d.field_names).len() && 0 <= f < d.callbacks@.len()
            ==> self.has_event((#[trigger] d.callback_ids@[i])@, #[trigger] def_targets(target, d.field_names)[j], (#[trigger] d.callbacks@[f]).path)
    }

    pub open spec fn wf(self) -> bool {
        &&& events_sorted(self.callbacks@)
        &&& forall|i: int| 0 <= i < self.callbacks@.len() ==> (#[trigger] self.callbacks@[i]).callbacks.wf()
        &&& shortcuts_sorted(self.shortcuts@)
        &&& forall|i: int| 0 <= i < self.shortcuts@.len() ==> (#[trigger] self.shortcuts@[i]).callbacks.wf()
    }

    /// Event `e` runs a call counted as the same as `p` for target `t`.
    pub open spec fn has_event(self, e: Seq<char>, t: Option<Seq<char>>, p: PathModel) -> bool {
        exists|i: int| 0 <= i < self.callbacks@.len() && (#[trigger] self.callbacks@[i]).event@ == e && self.callbacks@[i].callbacks.has(t, p)
    }

    /// Event `e` runs the call `c` for target `t`.
    pub open spec fn stored_event(self, e: Seq<char>, t: Option<Seq<char>>, c: FunctionCall) -> bool {
        exists|i: int| 0 <= i < self.callbacks@.len() && (#[trigger] self.callbacks@[i]).event@ == e && self.callbacks@[i].callbacks.stored(t, c)
    }

    /// The combination of key `key` and modifiers `mods` runs a call counted
    /// as the same as `p` for target `t`.
    pub open spec fn has_shortcut(self, key: Seq<char>, mods: Seq<char>, t: Option<Seq<char>>, p: PathModel) -> bool {
        exists|i: int| 0 <= i < self.shortcuts@.len() && (#[trigger] self.shortcuts@[i]).keys.key@ == key && self.shortcuts@[i].keys.modifiers@ == mods && self.shortcuts@[i].callbacks.has(t, p)
    }

    /// The combination runs the call `c` for target `t`.
    pub open spec fn stored_shortcut(self, key: Seq<char>, mods: Seq<char>, t: Option<Seq<char>>, c: FunctionCall) -> bool {
        exists|i: int| 0 <= i < self.shortcuts@.len() && (#[trigger] self.shortcuts@[i]).keys.key@ == key && self.shortcuts@[i].keys.modifiers@ == mods && self.shortcuts@[i].callbacks.stored(t, c)
    }

    /// Bindings for a UI with room for `cap` of them.
    pub fn with_capacity(partial: bool, cap: usize) -> (r: ControlEvents)
        ensures
            r.wf(),
            r.partial == partial,
            r.handles@.len() == 0,
            r.callbacks@.len() == 0,
            r.partial_members@.len() == 0,
            r.shortcuts@.len() == 0,
    {
        ControlEvents {
            partial,
            handles: Vec::with_capacity(1),
            callbacks: Vec::with_capacity(cap),
            partial_members: Vec::new(),
            shortcuts: Vec::with_capacity(cap),
        }
    }

    /// Number of key combinations bound.
    pub fn shortcuts_len(&self) -> (r: usize)
        ensures
            r == self.shortcuts@.len(),
    {
        self.shortcuts.len()
    }

    /// Records a partial member, whose events are forwarded.
    pub fn add_partial(&mut self, id: &String)
        ensures
            final(self).partial_members@ == old(self).partial_members@.push(final(self).partial_members@.last()),
            final(self).partial_members@.last()@ == id@,
            final(self).callbacks == old(self).callbacks,
            final(self).shortcuts == old(self).shortcuts,
            final(self).handles == old(self).handles,
            final(self).partial == old(self).partial,
    {
        self.partial_members.push(id.clone());
    }

    /// Inserts an empty entry for `e` at `i`, where it belongs in the order.
    #[verifier::spinoff_prover]
    #[verifier::rlimit(40)]
    fn insert_event_at(&mut self, i: usize, e: &String) -> (r: usize)
        requires
            old(self).wf(),
            i <= old(self).callbacks@.len(),
            forall|j: int| 0 <= j < i ==> text_order(#[trigger] old(self).callbacks@[j].event@, e@) == Order::Less,
            i < old(self).callbacks@.len() ==> text_order(old(self).callbacks@[i as int].event@, e@) == Order::Greater,
        ensures
            final(self).wf(),
            r == i,
            r < final(self).callbacks@.len(),
            final(self).callbacks@[r as int].event@ == e@,
            final(self).shortcuts == old(self).shortcuts,
            final(self).handles == old(self).handles,
            final(self).partial_members == old(self).partial_members,
            final(self).partial == old(self).partial,
            forall|ee: Seq<char>, t: Option<Seq<char>>, p: PathModel| #[trigger] final(self).has_event(ee, t, p) <==> old(self).has_event(ee, t, p),
            forall|ee: Seq<char>, t: Option<Seq<char>>, c: FunctionCall| #[trigger] final(self).stored_event(ee, t, c) <==> old(self).stored_event(ee, t, c),
    {
        let ghost before = self.callbacks@;
        let n = self.callbacks.len();
        proof {
            assert forall|j: int| i <= j < n implies text_order(e@, #[trigger] before[j].event@) == Order::Less by {
                lemma_text_order_flip(before[i as int].event@, e@);
                if j > i {
                    lemma_text_order_trans(e@, before[i as int].event@, before[j].event@);
                }
            }
        }
        let entry = EventEntry { event: e.clone(), callbacks: EventCallback::new() };
        let ghost ent = entry;
        self.callbacks.insert(i, entry);
        proof {
            let after = self.callbacks@;
            assert(after == before.insert(i as int, ent));
            assert forall|a: int, b: int| 0 <= a < b < after.len() implies text_order((#[trigger] after[a]).event@, (#[trigger] after[b]).event@) == Order::Less by {
                if b < i {
                } else if a > i {
                    assert(after[a] == before[a - 1] && after[b] == before[b - 1]);
                } else if a == i {
                    assert(after[b] == before[b - 1]);
                } else if b == i {
                    assert(after[a] == before[a]);
                } else {
                    assert(after[a] == before[a] && after[b] == before[b - 1]);
                    lemma_text_order_trans(before[a].event@, e@, before[b - 1].event@);
                }
            }
            assert forall|a: int| 0 <= a < after.len() implies (#[trigger] after[a]).callbacks.wf() by {
                if a < i {
                    assert(after[a] == before[a]);
                } else if a > i {
                    assert(after[a] == before[a - 1]);
                }
            }
            assert forall|ee: Seq<char>, t: Option<Seq<char>>, p: PathModel| #[trigger] self.has_event(ee, t, p) <==> old(self).has_event(ee, t, p) by {
                if self.has_event(ee, t, p) {
                    let a = choose|a: int| 0 <= a < after.len() && (#[trigger] after[a]).event@ == ee && after[a].callbacks.has(t, p);
                    if a < i {
                        assert(after[a] == before[a]);
                    } else if a > i {
                        assert(after[a] == before[a - 1]);
                    } else {
                        assert(!after[a].callbacks.has(t, p));
                    }
                }
                if old(self).has_event(ee, t, p) {
                    let a = choose|a: int| 0 <= a < before.len() && (#[trigger] before[a]).event@ == ee && before[a].callbacks.has(t, p);
                    if a < i {
                        assert(after[a] == before[a]);
                    } else {
                        assert(after[a + 1] == before[a]);
                    }
                }
            }
            assert forall|ee: Seq<char>, t: Option<Seq<char>>, c: FunctionCall| #[trigger] self.stored_event(ee, t, c) <==> old(self).stored_event(ee, t, c) by {
                if self.stored_event(ee, t, c) {
                    let a = choose|a: int| 0 <= a < after.len() && (#[trigger] after[a]).event@ == ee && after[a].callbacks.stored(t, c);
                    if a < i {
                        assert(after[a] == before[a]);
                    } else if a > i {
                        assert(after[a] == before[a - 1]);
                    } else {
                        assert(!after[a].callbacks.stored(t, c));
                    }
                }
                if old(self).stored_event(ee, t, c) {
                    let a = choose|a: int| 0 <= a < before.len() && (#[trigger] before[a]).event@ == ee && before[a].callbacks.stored(t, c);
                    if a < i {
                        assert(after[a] == before[a]);
                    } else {
                        assert(after[a + 1] == before[a]);
                    }
                }
            }
        }
        i
    }

    /// Index of the entry of event `e`, inserted in order when missing.
    fn event_entry(&mut self, e: &String) -> (r: usize)
        requires
            old(self).wf(),
        ensures
            final(self).wf(),
            r < final(self).callbacks@.len(),
            final(self).callbacks@[r as int].event@ == e@,
            final(self).shortcuts == old(self).shortcuts,
            final(self).handles == old(self).handles,
            final(self).partial_members == old(self).partial_members,
            final(self).partial == old(self).partial,
            forall|ee: Seq<char>, t: Option<Seq<char>>, p: PathModel| #[trigger] final(self).has_event(ee, t, p) <==> old(self).has_event(ee, t, p),
            forall|ee: Seq<char>, t: Option<Seq<char>>, c: FunctionCall| #[trigger] final(self).stored_event(ee, t, c) <==> old(self).stored_event(ee, t, c),
    {
        let n = self.callbacks.len();
        let mut i: usize = 0;
        while i < n
            invariant
                n == self.callbacks@.len(),
                *self == *old(self),
                old(self).wf(),
                old(self).wf(),
                i <= n,
                forall|j: int| 0 <= j < i ==> text_order(#[trigger] self.callbacks@[j].event@, e@) == Order::Less,
            decreases n - i,
        {
            let o = compare_text(self.callbacks[i].event.as_str(), e.as_str());
            match o {
                Order::Less => {
                    i = i + 1;
                },
                Order::Equal => {
                    proof {
                        lemma_text_order_equal(self.callbacks@[i as int].event@, e@);
                    }
                    return i;
                },
                Order::Greater => {
                    return self.insert_event_at(i, e);
                },
            }
        }
        self.insert_event_at(n, e)
    }

    /// Registers `callbacks` for event `e` and each of `targets`.
    #[verifier::spinoff_prover]
    #[verifier::rlimit(40)]
    fn register_event(&mut self, e: &String, bind: &Option<String>, targets: &Vec<Option<String>>, callbacks: &Vec<CallbackFunction>) -> (r: Result<(), DeriveError>)
        requires
            old(self).wf(),
            forall|f: int| 0 <= f < callbacks@.len() ==> has_segments((#[trigger] callbacks@[f]).path),
        ensures
            final(self).wf(),
            final(self).shortcuts == old(self).shortcuts,
            final(self).handles == old(self).handles,
            final(self).partial_members == old(self).partial_members,
            final(self).partial == old(self).partial,
            r is Ok <==> forall|j: int, f: int| 0 <= j < targets@.len() && 0 <= f < callbacks@.len() ==> args_fine(#[trigger] callbacks@[f], opt_view(*bind), opt_view(#[trigger] targets@[j])),
            r is Err ==> calls_error(opt_view(*bind), callbacks@, opt_views(targets@), r->Err_0),
            r is Ok ==> forall|j: int, f: int| 0 <= j < targets@.len() && 0 <= f < callbacks@.len() ==> final(self).has_event(e@, opt_view(#[trigger] targets@[j]), (#[trigger] callbacks@[f]).path),
            forall|ee: Seq<char>, t: Option<Seq<char>>, p: PathModel| #[trigger] old(self).has_event(ee, t, p) ==> final(self).has_event(ee, t, p),
            forall|ee: Seq<char>, t: Option<Seq<char>>, p: PathModel| has_segments(p) && #[trigger] final(self).has_event(ee, t, p) ==> old(self).has_event(ee, t, p) || (ee == e@ && exists|j: int, f: int| 0 <= j < targets@.len() && 0 <= f < callbacks@.len() && t == opt_view(#[trigger] targets@[j]) && call_order((#[trigger] callbacks@[f]).path, p) == Order::Equal),
            forall|ee: Seq<char>, t: Option<Seq<char>>, c: FunctionCall| #[trigger] final(self).stored_event(ee, t, c) ==> old(self).stored_event(ee, t, c) || (ee == e@ && exists|j: int, f: int| 0 <= j < targets@.len() && 0 <= f < callbacks@.len() && t == opt_view(#[trigger] targets@[j]) && call_from(c, #[trigger] callbacks@[f], opt_view(*bind), t)),
    {
        let i = self.event_entry(e);
        let ghost mid_self = *self;
        let ghost mid = self.callbacks@;
        let mut entry = self.callbacks.remove(i);
        let ghost cb_before = entry.callbacks;
        let r = entry.callbacks.parse(bind, targets, callbacks);
        let ghost cb_after = entry.callbacks;
        let ghost ent = entry;
        self.callbacks.insert(i, entry);
        proof {
            let after = self.callbacks@;
            assert(after == mid.update(i as int, ent));
            assert(mid[i as int].callbacks == cb_before);
            assert forall|a: int, b: int| 0 <= a < b < after.len() implies text_order((#[trigger] after[a]).event@, (#[trigger] after[b]).event@) == Order::Less by {
                assert(after[a].event@ == mid[a].event@);
                assert(after[b].event@ == mid[b].event@);
            }
            assert forall|a: int| 0 <= a < after.len() implies (#[trigger] after[a]).callbacks.wf() by {
                if a != i {
                    assert(after[a] == mid[a]);
                }
            }
            if r is Ok {
                assert forall|j: int, f: int| 0 <= j < targets@.len() && 0 <= f < callbacks@.len() implies self.has_event(e@, opt_view(#[trigger] targets@[j]), (#[trigger] callbacks@[f]).path) by {
                    assert(cb_after.has(opt_view(targets@[j]), callbacks@[f].path));
                    assert(after[i as int].event@ == e@);
                }
            }
            assert forall|ee: Seq<char>, t: Option<Seq<char>>, p: PathModel| #[trigger] old(self).has_event(ee, t, p) implies self.has_event(ee, t, p) by {
                assert(mid_self.has_event(ee, t, p));
                let a = choose|a: int| 0 <= a < mid.len() && (#[trigger] mid[a]).event@ == ee && mid[a].callbacks.has(t, p);
                if a != i {
                    assert(after[a] == mid[a]);
                } else {
                    assert(cb_after.has(t, p));
                }
            }
            assert forall|ee: Seq<char>, t: Option<Seq<char>>, p: PathModel| has_segments(p) && #[trigger] self.has_event(ee, t, p) implies old(self).has_event(ee, t, p) || (ee == e@ && exists|j: int, f: int| 0 <= j < targets@.len() && 0 <= f < callbacks@.len() && t == opt_view(#[trigger] targets@[j]) && call_order((#[trigger] callbacks@[f]).path, p) == Order::Equal) by {
                let a = choose|a: int| 0 <= a < after.len() && (#[trigger] after[a]).event@ == ee && after[a].callbacks.has(t, p);
                if a != i {
                    assert(after[a] == mid[a]);
                    assert(mid_self.has_event(ee, t, p));
                } else {
                    if cb_before.has(t, p) {
                        assert(mid_self.has_event(ee, t, p));
                    }
                }
            }
            assert forall|ee: Seq<char>, t: Option<Seq<char>>, c: FunctionCall| #[trigger] self.stored_event(ee, t, c) implies old(self).stored_event(ee, t, c) || (ee == e@ && exists|j: int, f: int| 0 <= j < targets@.len() && 0 <= f < callbacks@.len() && t == opt_view(#[trigger] targets@[j]) && call_from(c, #[trigger] callbacks@[f], opt_view(*bind), t)) by {
                let a = choose|a: int| 0 <= a < after.len() && (#[trigger] after[a]).event@ == ee && after[a].callbacks.stored(t, c);
                if a != i {
                    assert(after[a] == mid[a]);
                    assert(mid_self.stored_event(ee, t, c));
                } else {
                    if cb_before.stored(t, c) {
                        assert(mid_self.stored_event(ee, t, c));
                    }
                }
            }
        }
        r
    }

    /// Registers the event definitions of an attribute on field `target` (or
    /// of the struct, for `None`): each event of a definition runs each of its
    /// callbacks for each of its targets.
    #[verifier::spinoff_prover]
    #[verifier::rlimit(40)]
    pub fn parse_events_impl(&mut self, target: &Option<String>, defs: &Vec<CallbackDefinition>) -> (r: Result<(), DeriveError>)
        requires
            old(self).wf(),
            defs_have_segments(defs@),
        ensures
            final(self).wf(),
            final(self).shortcuts == old(self).shortcuts,
            final(self).handles == old(self).handles,
            final(self).partial_members == old(self).partial_members,
            final(self).partial == old(self).partial,
            r is Ok <==> forall|d: int| 0 <= d < defs@.len() ==> def_fine(*target, #[trigger] defs@[d]),
            r is Err ==> exists|d: int| 0 <= d < defs@.len() && (forall|dd: int| 0 <= dd < d ==> def_fine(*target, #[trigger] defs@[dd]))
                && def_fails_with(*target, #[trigger] defs@[d], r->Err_0),
            r is Ok ==> forall|d: int| 0 <= d < defs@.len() ==> final(self).registered(*target, #[trigger] defs@[d]),
            forall|ee: Seq<char>, t: Option<Seq<char>>, p: PathModel| #[trigger] old(self).has_event(ee, t, p) ==> final(self).has_event(ee, t, p),
            forall|ee: Seq<char>, t: Option<Seq<char>>, p: PathModel| has_segments(p) && #[trigger] final(self).has_event(ee, t, p) ==> old(self).has_event(ee, t, p) || exists|d: int| 0 <= d < defs@.len() && def_binds(*target, #[trigger] defs@[d], ee, t, p),
            forall|ee: Seq<char>, t: Option<Seq<char>>, c: FunctionCall| #[trigger] final(self).stored_event(ee, t, c) ==> old(self).stored_event(ee, t, c) || exists|d: int| 0 <= d < defs@.len() && def_makes(*target, #[trigger] defs@[d], ee, t, c),
    {
        let mut d: usize = 0;
        while d < defs.len()
            invariant
                d <= defs@.len(),
                self.wf(),
                defs_have_segments(defs@),
                self.shortcuts == old(self).shortcuts,
                self.handles == old(self).handles,
                self.partial_members == old(self).partial_members,
                self.partial == old(self).partial,
                forall|dd: int| 0 <= dd < d ==> def_fine(*target, #[trigger] defs@[dd]),
                forall|dd: int| 0 <= dd < d ==> self.registered(*target, #[trigger] defs@[dd]),
                forall|ee: Seq<char>, t: Option<Seq<char>>, p: PathModel| #[trigger] old(self).has_event(ee, t, p) ==> self.has_event(ee, t, p),
                forall|ee: Seq<char>, t: Option<Seq<char>>, p: PathModel| has_segments(p) && #[trigger] self.has_event(ee, t, p) ==> old(self).has_event(ee, t, p) || exists|dd: int| 0 <= dd < defs@.len() && def_binds(*target, #[trigger] defs@[dd], ee, t, p),
                forall|ee: Seq<char>, t: Option<Seq<char>>, c: FunctionCall| #[trigger] self.stored_event(ee, t, c) ==> old(self).stored_event(ee, t, c) || exists|dd: int| 0 <= dd < defs@.len() && def_makes(*target, #[trigger] defs@[dd], ee, t, c),
            decreases defs@.len() - d,
        {
            let def = &defs[d];
            let targets = map_event_target(target, &def.field_names);
            proof {
                assert forall|j: int| 0 <= j < targets@.len() implies opt_view(#[trigger] targets@[j]) == def_targets(*target, def.field_names)[j] by {
                    assert(opt_views(targets@)[j] == opt_view(targets@[j]));
                }
                assert(targets@.len() == def_targets(*target, def.field_names).len()) by {
                    assert(opt_views(targets@).len() == targets@.len());
                }
                assert forall|f: int| 0 <= f < def.callbacks@.len() implies has_segments((#[trigger] def.callbacks@[f]).path) by {
                    assert(defs@[d as int].callbacks@[f] == def.callbacks@[f]);
                }
            }
            let ghost at_def = *self;
            let mut i: usize = 0;
            while i < def.callback_ids.len()
                invariant
                    d < defs@.len(),
                    *def == defs@[d as int],
                    i <= def.callback_ids@.len(),
                    targets@.len() == def_targets(*target, def.field_names).len(),
                    forall|j: int| 0 <= j < targets@.len() ==> opt_view(#[trigger] targets@[j]) == def_targets(*target, def.field_names)[j],
                    forall|f: int| 0 <= f < def.callbacks@.len() ==> has_segments((#[trigger] def.callbacks@[f]).path),
                    i > 0 ==> def_fine(*target, *def),
                    self.wf(),
                    defs_have_segments(defs@),
                    self.shortcuts == old(self).shortcuts,
                    self.handles == old(self).handles,
                    self.partial_members == old(self).partial_members,
                    self.partial == old(self).partial,
                    forall|dd: int| 0 <= dd < d ==> def_fine(*target, #[trigger] defs@[dd]),
                    forall|dd: int| 0 <= dd < d ==> self.registered(*target, #[trigger] defs@[dd]),
                    forall|ii: int, j: int, f: int| 0 <= ii < i && 0 <= j < def_targets(*target, def.field_names).len() && 0 <= f < def.callbacks@.len()
                        ==> self.has_event((#[trigger] def.callback_ids@[ii])@, #[trigger] def_targets(*target, def.field_names)[j], (#[trigger] def.callbacks@[f]).path),
                    forall|ee: Seq<char>, t: Option<Seq<char>>, p: PathModel| #[trigger] old(self).has_event(ee, t, p) ==> self.has_event(ee, t, p),
                    forall|ee: Seq<char>, t: Option<Seq<char>>, p: PathModel| has_segments(p) && #[trigger] self.has_event(ee, t, p) ==> old(self).has_event(ee, t, p) || exists|dd: int| 0 <= dd < defs@.len() && def_binds(*target, #[trigger] defs@[dd], ee, t, p),
                    forall|ee: Seq<char>, t: Option<Seq<char>>, c: FunctionCall| #[trigger] self.stored_event(ee, t, c) ==> old(self).stored_event(ee, t, c) || exists|dd: int| 0 <= dd < defs@.len() && def_makes(*target, #[trigger] defs@[dd], ee, t, c),
                decreases def.callback_ids@.len() - i,
            {
                let ghost before = *self;
                let r = self.register_event(&def.callback_ids[i], target, &targets, &def.callbacks);
                match r {
                    Err(e) => {
                        proof {
                            let ts = def_targets(*target, def.field_names);
                            assert(opt_views(targets@) == ts);
                            let (j, f) = choose|j: int, f: int| 0 <= j < ts.len()
                                && (forall|jj: int, g: int| 0 <= jj < j && 0 <= g < def.callbacks@.len() ==> args_fine(#[trigger] def.callbacks@[g], opt_view(*target), #[trigger] ts[jj]))
                                && #[trigger] first_bad_callback(def.callbacks@, opt_view(*target), ts[j], f)
                                && args_ok(Err(e), opt_views_of(def.callbacks@[f].args), opt_view(*target), ts[j]);
                            assert(def_fails_with(*target, defs@[d as int], e));
                            assert(!def_fine(*target, defs@[d as int])) by {
                                assert(!args_fine(def.callbacks@[f], opt_view(*target), ts[j]));
                            }
                        }
                        return Err(e);
                    },
                    Ok(()) => {},
                }
                proof {
                    assert(def_fine(*target, *def)) by {
                        assert forall|j: int, f: int| 0 <= j < def_targets(*target, def.field_names).len() && 0 <= f < def.callbacks@.len()
                            implies args_fine(#[trigger] def.callbacks@[f], opt_view(*target), #[trigger] def_targets(*target, def.field_names)[j]) by {
                            assert(opt_view(targets@[j]) == def_targets(*target, def.field_names)[j]);
                        }
                    }
                    assert forall|dd: int| 0 <= dd < d implies self.registered(*target, #[trigger] defs@[dd]) by {
                        assert(before.registered(*target, defs@[dd]));
                        let dv = defs@[dd];
                        assert forall|ii: int, j: int, f: int| 0 <= ii < dv.callback_ids@.len() && 0 <= j < def_targets(*target, dv.field_names).len() && 0 <= f < dv.callbacks@.len()
                            implies self.has_event((#[trigger] dv.callback_ids@[ii])@, #[trigger] def_targets(*target, dv.field_names)[j], (#[trigger] dv.callbacks@[f]).path) by {
                            assert(before.has_event(dv.callback_ids@[ii]@, def_targets(*target, dv.field_names)[j], dv.callbacks@[f].path));
                        }
                    }
                    assert forall|ii: int, j: int, f: int| 0 <= ii < i + 1 && 0 <= j < def_targets(*target, def.field_names).len() && 0 <= f < def.callbacks@.len()
                        implies self.has_event((#[trigger] def.callback_ids@[ii])@, #[trigger] def_targets(*target, def.field_names)[j], (#[trigger] def.callbacks@[f]).path) by {
                        if ii < i {
                            assert(before.has_event(def.callback_ids@[ii]@, def_targets(*target, def.field_names)[j], def.callbacks@[f].path));
                        } else {
                            assert(opt_view(targets@[j]) == def_targets(*target, def.field_names)[j]);
                            assert(self.has_event(def.callback_ids@[i as int]@, opt_view(targets@[j]), def.callbacks@[f].path));
                        }
                    }
                    assert forall|ee: Seq<char>, t: Option<Seq<char>>, p: PathModel| has_segments(p) && #[trigger] self.has_event(ee, t, p) implies old(self).has_event(ee, t, p) || exists|dd: int| 0 <= dd < defs@.len() && def_binds(*target, #[trigger] defs@[dd], ee, t, p) by {
                        if !before.has_event(ee, t, p) {
                            let (j, f) = choose|j: int, f: int| 0 <= j < targets@.len() && 0 <= f < def.callbacks@.len() && t == opt_view(#[trigger] targets@[j]) && call_order((#[trigger] def.callbacks@[f]).path, p) == Order::Equal;
                            assert(opt_view(targets@[j]) == def_targets(*target, def.field_names)[j]);
                            assert(ee == def.callback_ids@[i as int]@);
                            assert(def_binds(*target, defs@[d as int], ee, t, p));
                        }
                    }
                    assert forall|ee: Seq<char>, t: Option<Seq<char>>, c: FunctionCall| #[trigger] self.stored_event(ee, t, c) implies old(self).stored_event(ee, t, c) || exists|dd: int| 0 <= dd < defs@.len() && def_makes(*target, #[trigger] defs@[dd], ee, t, c) by {
                        if !before.stored_event(ee, t, c) {
                            let (j, f) = choose|j: int, f: int| 0 <= j < targets@.len() && 0 <= f < def.callbacks@.len() && t == opt_view(#[trigger] targets@[j]) && call_from(c, #[trigger] def.callbacks@[f], opt_view(*target), t);
                            assert(opt_view(targets@[j]) == def_targets(*target, def.field_names)[j]);
                            assert(ee == def.callback_ids@[i as int]@);
                            assert(def_makes(*target, defs@[d as int], ee, t, c));
                        }
                    }
                }
                i = i + 1;
            }
            proof {
                assert(def_fine(*target, defs@[d as int]));
                assert(self.registered(*target, defs@[d as int]));
            }
            d = d + 1;
        }
        Ok(())
    }

    /// Inserts an empty entry for `k` at `i`, where it belongs in the order.
    #[verifier::spinoff_prover]
    #[verifier::rlimit(40)]
    fn insert_shortcut_at(&mut self, i: usize, k: ShortcutKeystrokes) -> (r: usize)
        requires
            old(self).wf(),
            i <= old(self).shortcuts@.len(),
            forall|j: int| 0 <= j < i ==> keystroke_order(#[trigger] old(self).shortcuts@[j].keys, k) == Order::Less,
            i < old(self).shortcuts@.len() ==> keystroke_order(old(self).shortcuts@[i as int].keys, k) == Order::Greater,
        ensures
            final(self).wf(),
            r == i,
            r < final(self).shortcuts@.len(),
            final(self).shortcuts@[r as int].keys == k,
            final(self).callbacks == old(self).callbacks,
            final(self).handles == old(self).handles,
            final(self).partial_members == old(self).partial_members,
            final(self).partial == old(self).partial,
            forall|kk: Seq<char>, mm: Seq<char>, t: Option<Seq<char>>, p: PathModel| #[trigger] final(self).has_shortcut(kk, mm, t, p) <==> old(self).has_shortcut(kk, mm, t, p),
            forall|kk: Seq<char>, mm: Seq<char>, t: Option<Seq<char>>, c: FunctionCall| #[trigger] final(self).stored_shortcut(kk, mm, t, c) <==> old(self).stored_shortcut(kk, mm, t, c),
    {
        let ghost before = self.shortcuts@;
        let n = self.shortcuts.len();
        proof {
            assert forall|j: int| i <= j < n implies keystroke_order(k, #[trigger] before[j].keys) == Order::Less by {
                lemma_keystroke_order(before[i as int].keys, k, k);
                if j > i {
                    lemma_keystroke_order(k, before[i as int].keys, before[j].keys);
                }
            }
        }
        let ghost kk0 = k;
        let entry = ShortcutEntry { keys: k, callbacks: EventCallback::new() };
        let ghost ent = entry;
        self.shortcuts.insert(i, entry);
        proof {
            let after = self.shortcuts@;
            assert(after == before.insert(i as int, ent));
            assert forall|a: int, b: int| 0 <= a < b < after.len() implies keystroke_order((#[trigger] after[a]).keys, (#[trigger] after[b]).keys) == Order::Less by {
                if b < i {
                } else if a > i {
                    assert(after[a] == before[a - 1] && after[b] == before[b - 1]);
                } else if a == i {
                    assert(after[b] == before[b - 1]);
                } else if b == i {
                    assert(after[a] == before[a]);
                } else {
                    assert(after[a] == before[a] && after[b] == before[b - 1]);
                    lemma_keystroke_order(before[a].keys, kk0, before[b - 1].keys);
                }
            }
            assert forall|a: int| 0 <= a < after.len() implies (#[trigger] after[a]).callbacks.wf() by {
                if a < i {
                    assert(after[a] == before[a]);
                } else if a > i {
                    assert(after[a] == before[a - 1]);
                }
            }
            assert forall|kk: Seq<char>, mm: Seq<char>, t: Option<Seq<char>>, p: PathModel| #[trigger] self.has_shortcut(kk, mm, t, p) <==> old(self).has_shortcut(kk, mm, t, p) by {
                if self.has_shortcut(kk, mm, t, p) {
                    let a = choose|a: int| 0 <= a < after.len() && (#[trigger] after[a]).keys.key@ == kk && after[a].keys.modifiers@ == mm && after[a].callbacks.has(t, p);
                    if a < i {
                        assert(after[a] == before[a]);
                    } else if a > i {
                        assert(after[a] == before[a - 1]);
                    } else {
                        assert(!after[a].callbacks.has(t, p));
                    }
                }
                if old(self).has_shortcut(kk, mm, t, p) {
                    let a = choose|a: int| 0 <= a < before.len() && (#[trigger] before[a]).keys.key@ == kk && before[a].keys.modifiers@ == mm && before[a].callbacks.has(t, p);
                    if a < i {
                        assert(after[a] == before[a]);
                    } else {
                        assert(after[a + 1] == before[a]);
                    }
                }
            }
            assert forall|kk: Seq<char>, mm: Seq<char>, t: Option<Seq<char>>, c: FunctionCall| #[trigger] self.stored_shortcut(kk, mm, t, c) <==> old(self).stored_shortcut(kk, mm, t, c) by {
                if self.stored_shortcut(kk, mm, t, c) {
                    let a = choose|a: int| 0 <= a < after.len() && (#[trigger] after[a]).keys.key@ == kk && after[a].keys.modifiers@ == mm && after[a].callbacks.stored(t, c);
                    if a < i {
                        assert(after[a] == before[a]);
                    } else if a > i {
                        assert(after[a] == before[a - 1]);
                    } else {
                        assert(!after[a].callbacks.stored(t, c));
                    }
                }
                if old(self).stored_shortcut(kk, mm, t, c) {
                    let a = choose|a: int| 0 <= a < before.len() && (#[trigger] before[a]).keys.key@ == kk && before[a].keys.modifiers@ == mm && before[a].callbacks.stored(t, c);
                    if a < i {
                        assert(after[a] == before[a]);
                    } else {
                        assert(after[a + 1] == before[a]);
                    }
                }
            }
        }
        i
    }

    /// Index of the entry of combination `k`, inserted in order when missing.
    fn shortcut_entry(&mut self, k: ShortcutKeystrokes) -> (r: usize)
        requires
            old(self).wf(),
        ensures
            final(self).wf(),
            r < final(self).shortcuts@.len(),
            final(self).shortcuts@[r as int].keys.key@ == k.key@,
            final(self).shortcuts@[r as int].keys.modifiers@ == k.modifiers@,
            final(self).callbacks == old(self).callbacks,
            final(self).handles == old(self).handles,
            final(self).partial_members == old(self).partial_members,
            final(self).partial == old(self).partial,
            forall|kk: Seq<char>, mm: Seq<char>, t: Option<Seq<char>>, p: PathModel| #[trigger] final(self).has_shortcut(kk, mm, t, p) <==> old(self).has_shortcut(kk, mm, t, p),
            forall|kk: Seq<char>, mm: Seq<char>, t: Option<Seq<char>>, c: FunctionCall| #[trigger] final(self).stored_shortcut(kk, mm, t, c) <==> old(self).stored_shortcut(kk, mm, t, c),
    {
        let n = self.shortcuts.len();
        let mut i: usize = 0;
        while i < n
            invariant
                n == self.shortcuts@.len(),
                *self == *old(self),
                old(self).wf(),
                old(self).wf(),
                i <= n,
                forall|j: int| 0 <= j < i ==> keystroke_order(#[trigger] self.shortcuts@[j].keys, k) == Order::Less,
            decreases n - i,
        {
            let o = compare_keystrokes(&self.shortcuts[i].keys, &k);
            match o {
                Order::Less => {
                    i = i + 1;
                },
                Order::Equal => {
                    proof {
                        lemma_keystroke_order(self.shortcuts@[i as int].keys, k, k);
                    }
                    return i;
                },
                Order::Greater => {
                    return self.insert_shortcut_at(i, k);
                },
            }
        }
        self.insert_shortcut_at(n, k)
    }

    /// Registers `callbacks` for combination `k` and each of `targets`.
    #[verifier::spinoff_prover]
    #[verifier::rlimit(40)]
    fn register_shortcut(&mut self, k: ShortcutKeystrokes, bind: &Option<String>, targets: &Vec<Option<String>>, callbacks: &Vec<CallbackFunction>) -> (r: Result<(), DeriveError>)
        requires
            old(self).wf(),
            forall|f: int| 0 <= f < callbacks@.len() ==> has_segments((#[trigger] callbacks@[f]).path),
        ensures
            final(self).wf(),
            final(self).callbacks == old(self).callbacks,
            final(self).handles == old(self).handles,
            final(self).partial_members == old(self).partial_members,
            final(self).partial == old(self).partial,
            r is Ok <==> forall|j: int, f: int| 0 <= j < targets@.len() && 0 <= f < callbacks@.len() ==> args_fine(#[trigger] callbacks@[f], opt_view(*bind), opt_view(#[trigger] targets@[j])),
            r is Err ==> calls_error(opt_view(*bind), callbacks@, opt_views(targets@), r->Err_0),
            r is Ok ==> forall|j: int, f: int| 0 <= j < targets@.len() && 0 <= f < callbacks@.len() ==> final(self).has_shortcut(k.key@, k.modifiers@, opt_view(#[trigger] targets@[j]), (#[trigger] callbacks@[f]).path),
            forall|kk: Seq<char>, mm: Seq<char>, t: Option<Seq<char>>, p: PathModel| #[trigger] old(self).has_shortcut(kk, mm, t, p) ==> final(self).has_shortcut(kk, mm, t, p),
            forall|kk: Seq<char>, mm: Seq<char>, t: Option<Seq<char>>, p: PathModel| has_segments(p) && #[trigger] final(self).has_shortcut(kk, mm, t, p) ==> old(self).has_shortcut(kk, mm, t, p) || (kk == k.key@ && mm == k.modifiers@ && exists|j: int, f: int| 0 <= j < targets@.len() && 0 <= f < callbacks@.len() && t == opt_view(#[trigger] targets@[j]) && call_order((#[trigger] callbacks@[f]).path, p) == Order::Equal),
            forall|kk: Seq<char>, mm: Seq<char>, t: Option<Seq<char>>, c: FunctionCall| #[trigger] final(self).stored_shortcut(kk, mm, t, c) ==> old(self).stored_shortcut(kk, mm, t, c) || (kk == k.key@ && mm == k.modifiers@ && exists|j: int, f: int| 0 <= j < targets@.len() && 0 <= f < callbacks@.len() && t == opt_view(#[trigger] targets@[j]) && call_from(c, #[trigger] callbacks@[f], opt_view(*bind), t)),
    {
        let ghost kv = k;
        let i = self.shortcut_entry(k);
        let ghost mid_self = *self;
        let ghost mid = self.shortcuts@;
        let mut entry = self.shortcuts.remove(i);
        let ghost cb_before = entry.callbacks;
        let r = entry.callbacks.parse(bind, targets, callbacks);
        let ghost cb_after = entry.callbacks;
        let ghost ent = entry;
        self.shortcuts.insert(i, entry);
        proof {
            let after = self.shortcuts@;
            assert(after == mid.update(i as int, ent));
            assert(mid[i as int].callbacks == cb_before);
            assert forall|a: int, b: int| 0 <= a < b < after.len() implies keystroke_order((#[trigger] after[a]).keys, (#[trigger] after[b]).keys) == Order::Less by {
                assert(after[a].keys == mid[a].keys);
                assert(after[b].keys == mid[b].keys);
            }
            assert forall|a: int| 0 <= a < after.len() implies (#[trigger] after[a]).callbacks.wf() by {
                if a != i {
                    assert(after[a] == mid[a]);
                }
            }
            if r is Ok {
                assert forall|j: int, f: int| 0 <= j < targets@.len() && 0 <= f < callbacks@.len() implies self.has_shortcut(kv.key@, kv.modifiers@, opt_view(#[trigger] targets@[j]), (#[trigger] callbacks@[f]).path) by {
                    assert(cb_after.has(opt_view(targets@[j]), callbacks@[f].path));
                    assert(after[i as int].keys == mid[i as int].keys);
                    assert(after[i as int].keys.key@ == kv.key@);
                    assert(after[i as int].keys.modifiers@ == kv.modifiers@);
                    assert(after[i as int].callbacks == cb_after);
                }
            }
            assert forall|kk: Seq<char>, mm: Seq<char>, t: Option<Seq<char>>, p: PathModel| #[trigger] old(self).has_shortcut(kk, mm, t, p) implies self.has_shortcut(kk, mm, t, p) by {
                assert(mid_self.has_shortcut(kk, mm, t, p));
                let a = choose|a: int| 0 <= a < mid.len() && (#[trigger] mid[a]).keys.key@ == kk && mid[a].keys.modifiers@ == mm && mid[a].callbacks.has(t, p);
                if a != i {
                    assert(after[a] == mid[a]);
                } else {
                    assert(cb_after.has(t, p));
                }
            }
            assert forall|kk: Seq<char>, mm: Seq<char>, t: Option<Seq<char>>, p: PathModel| has_segments(p) && #[trigger] self.has_shortcut(kk, mm, t, p) implies old(self).has_shortcut(kk, mm, t, p) || (kk == kv.key@ && mm == kv.modifiers@ && exists|j: int, f: int| 0 <= j < targets@.len() && 0 <= f < callbacks@.len() && t == opt_view(#[trigger] targets@[j]) && call_order((#[trigger] callbacks@[f]).path, p) == Order::Equal) by {
                let a = choose|a: int| 0 <= a < after.len() && (#[trigger] after[a]).keys.key@ == kk && after[a].keys.modifiers@ == mm && after[a].callbacks.has(t, p);
                if a != i {
                    assert(after[a] == mid[a]);
                    assert(mid_self.has_shortcut(kk, mm, t, p));
                } else {
                    if cb_before.has(t, p) {
                        assert(mid_self.has_shortcut(kk, mm, t, p));
                    }
                }
            }
            assert forall|kk: Seq<char>, mm: Seq<char>, t: Option<Seq<char>>, c: FunctionCall| #[trigger] self.stored_shortcut(kk, mm, t, c) implies old(self).stored_shortcut(kk, mm, t, c) || (kk == kv.key@ && mm == kv.modifiers@ && exists|j: int, f: int| 0 <= j < targets@.len() && 0 <= f < callbacks@.len() && t == opt_view(#[trigger] targets@[j]) && call_from(c, #[trigger] callbacks@[f], opt_view(*bind), t)) by {
                let a = choose|a: int| 0 <= a < after.len() && (#[trigger] after[a]).keys.key@ == kk && after[a].keys.modifiers@ == mm && after[a].callbacks.stored(t, c);
                if a != i {
                    assert(after[a] == mid[a]);
                    assert(mid_self.stored_shortcut(kk, mm, t, c));
                } else {
                    if cb_before.stored(t, c) {
                        assert(mid_self.stored_shortcut(kk, mm, t, c));
                    }
                }
            }
        }
        r
    }

    /// Registers the shortcut definitions of an attribute on field `target`
    /// (or of the struct, for `None`), after reading every key combination.
    #[verifier::spinoff_prover]
    #[verifier::rlimit(40)]
    pub fn parse_shortcut_impl(&mut self, target: &Option<String>, defs: &Vec<ShortcutDefinition>) -> (r: Result<(), DeriveError>)
        requires
            old(self).wf(),
            sdefs_have_segments(defs@),
        ensures
            final(self).wf(),
            final(self).callbacks == old(self).callbacks,
            final(self).handles == old(self).handles,
            final(self).partial_members == old(self).partial_members,
            final(self).partial == old(self).partial,
            !combos_all_ok(defs@) ==> (r is Err && exists|d: int, c: int| #[trigger] first_bad_combo(defs@, d, c)
                && combo_error(combos_of(defs@[d])[c], r->Err_0)),
            combos_all_ok(defs@) ==> (r is Ok <==> forall|d: int| 0 <= d < defs@.len() ==> sdef_fine(*target, #[trigger] defs@[d])),
            combos_all_ok(defs@) && r is Err ==> exists|d: int| 0 <= d < defs@.len() && (forall|dd: int| 0 <= dd < d ==> sdef_fine(*target, #[trigger] defs@[dd]))
                && sdef_fails_with(*target, #[trigger] defs@[d], r->Err_0),
            r is Ok ==> forall|d: int| 0 <= d < defs@.len() ==> final(self).registered_shortcuts(*target, #[trigger] defs@[d]),
            forall|kk: Seq<char>, mm: Seq<char>, t: Option<Seq<char>>, p: PathModel| #[trigger] old(self).has_shortcut(kk, mm, t, p) ==> final(self).has_shortcut(kk, mm, t, p),
            forall|kk: Seq<char>, mm: Seq<char>, t: Option<Seq<char>>, p: PathModel| has_segments(p) && #[trigger] final(self).has_shortcut(kk, mm, t, p) ==> old(self).has_shortcut(kk, mm, t, p) || exists|d: int| 0 <= d < defs@.len() && sdef_binds(*target, #[trigger] defs@[d], kk, mm, t, p),
            forall|kk: Seq<char>, mm: Seq<char>, t: Option<Seq<char>>, c: FunctionCall| #[trigger] final(self).stored_shortcut(kk, mm, t, c) ==> old(self).stored_shortcut(kk, mm, t, c) || exists|d: int| 0 <= d < defs@.len() && sdef_makes(*target, #[trigger] defs@[d], kk, mm, t, c),
    {
        // read every key combination first
        let mut parsed: Vec<Vec<ShortcutKeystrokes>> = Vec::new();
        let mut d: usize = 0;
        while d < defs.len()
            invariant
                d <= defs@.len(),
                *self == *old(self),
                old(self).wf(),
                parsed@.len() == d,
                forall|dd: int, c: int| 0 <= dd < d && 0 <= c < combos_of(defs@[dd]).len() ==> combo_ok(#[trigger] combos_of(defs@[dd])[c]),
                forall|dd: int| 0 <= dd < d ==> (#[trigger] parsed@[dd])@.len() == combos_of(defs@[dd]).len(),
                forall|dd: int, c: int| 0 <= dd < d && 0 <= c < combos_of(defs@[dd]).len() ==> (#[trigger] parsed@[dd]@[c]).key@ == key_args(combos_of(defs@[dd])[c])[0]
                    && parsed@[dd]@[c].modifiers@ == modifier_name(combos_of(defs@[dd])[c]),
            decreases defs@.len() - d,
        {
            let combos = &defs[d].key_combos;
            let mut ks: Vec<ShortcutKeystrokes> = Vec::new();
            let mut c: usize = 0;
            while c < combos.len()
                invariant
                    d < defs@.len(),
                    *self == *old(self),
                    old(self).wf(),
                    *combos == defs@[d as int].key_combos,
                    c <= combos@.len(),
                    ks@.len() == c,
                    forall|cc: int| 0 <= cc < c ==> combo_ok(#[trigger] combos_of(defs@[d as int])[cc]),
                    forall|cc: int| 0 <= cc < c ==> (#[trigger] ks@[cc]).key@ == key_args(combos_of(defs@[d as int])[cc])[0]
                        && ks@[cc].modifiers@ == modifier_name(combos_of(defs@[d as int])[cc]),
                    forall|dd: int, cc: int| 0 <= dd < d && 0 <= cc < combos_of(defs@[dd]).len() ==> combo_ok(#[trigger] combos_of(defs@[dd])[cc]),
                decreases combos@.len() - c,
            {
                assert(combos_of(defs@[d as int])[c as int] == views(combos@[c as int]@));
                match ShortcutKeystrokes::parse(&combos[c]) {
                    Ok(k) => {
                        ks.push(k);
                    },
                    Err(e) => {
                        proof {
                            assert(!combo_ok(combos_of(defs@[d as int])[c as int]));
                            assert(combo_error(combos_of(defs@[d as int])[c as int], e));
                            assert(first_bad_combo(defs@, d as int, c as int));
                        }
                        return Err(e);
                    },
                }
                c = c + 1;
            }
            parsed.push(ks);
            proof {
                assert forall|dd: int, cc: int| 0 <= dd < d + 1 && 0 <= cc < combos_of(defs@[dd]).len() implies combo_ok(#[trigger] combos_of(defs@[dd])[cc]) by {}
            }
            d = d + 1;
        }
        // then register them
        let mut d: usize = 0;
        while d < defs.len()
            invariant
                d <= defs@.len(),
                parsed@.len() == defs@.len(),
                self.wf(),
                sdefs_have_segments(defs@),
                forall|dd: int, c: int| 0 <= dd < defs@.len() && 0 <= c < combos_of(defs@[dd]).len() ==> combo_ok(#[trigger] combos_of(defs@[dd])[c]),
                forall|dd: int| 0 <= dd < defs@.len() ==> (#[trigger] parsed@[dd])@.len() == combos_of(defs@[dd]).len(),
                forall|dd: int, c: int| 0 <= dd < defs@.len() && 0 <= c < combos_of(defs@[dd]).len() ==> (#[trigger] parsed@[dd]@[c]).key@ == key_args(combos_of(defs@[dd])[c])[0]
                    && parsed@[dd]@[c].modifiers@ == modifier_name(combos_of(defs@[dd])[c]),
                self.callbacks == old(self).callbacks,
                self.handles == old(self).handles,
                self.partial_members == old(self).partial_members,
                self.partial == old(self).partial,
                forall|dd: int| 0 <= dd < d ==> sdef_fine(*target, #[trigger] defs@[dd]),
                forall|dd: int| 0 <= dd < d ==> self.registered_shortcuts(*target, #[trigger] defs@[dd]),
                forall|kk: Seq<char>, mm: Seq<char>, t: Option<Seq<char>>, p: PathModel| #[trigger] old(self).has_shortcut(kk, mm, t, p) ==> self.has_shortcut(kk, mm, t, p),
                forall|kk: Seq<char>, mm: Seq<char>, t: Option<Seq<char>>, p: PathModel| has_segments(p) && #[trigger] self.has_shortcut(kk, mm, t, p) ==> old(self).has_shortcut(kk, mm, t, p) || exists|dd: int| 0 <= dd < defs@.len() && sdef_binds(*target, #[trigger] defs@[dd], kk, mm, t, p),
                forall|kk: Seq<char>, mm: Seq<char>, t: Option<Seq<char>>, c: FunctionCall| #[trigger] self.stored_shortcut(kk, mm, t, c) ==> old(self).stored_shortcut(kk, mm, t, c) || exists|dd: int| 0 <= dd < defs@.len() && sdef_makes(*target, #[trigger] defs@[dd], kk, mm, t, c),
            decreases defs@.len() - d,
        {
            let def = &defs[d];
            let ks = &parsed[d];
            let targets = map_event_target(target, &def.field_names);
            proof {
                assert forall|j: int| 0 <= j < targets@.len() implies opt_view(#[trigger] targets@[j]) == def_targets(*target, def.field_names)[j] by {
                    assert(opt_views(targets@)[j] == opt_view(targets@[j]));
                }
                assert(targets@.len() == def_targets(*target, def.field_names).len()) by {
                    assert(opt_views(targets@).len() == targets@.len());
                }
                assert forall|f: int| 0 <= f < def.callbacks@.len() implies has_segments((#[trigger] def.callbacks@[f]).path) by {
                    assert(defs@[d as int].callbacks@[f] == def.callbacks@[f]);
                }
            }
            let mut c: usize = 0;
            while c < ks.len()
                invariant
                    d < defs@.len(),
                    *def == defs@[d as int],
                    *ks == parsed@[d as int],
                    ks@.len() == combos_of(*def).len(),
                    forall|cc: int| 0 <= cc < ks@.len() ==> (#[trigger] ks@[cc]).key@ == key_args(combos_of(*def)[cc])[0] && ks@[cc].modifiers@ == modifier_name(combos_of(*def)[cc]),
                    c <= ks@.len(),
                    targets@.len() == def_targets(*target, def.field_names).len(),
                    forall|j: int| 0 <= j < targets@.len() ==> opt_view(#[trigger] targets@[j]) == def_targets(*target, def.field_names)[j],
                    forall|f: int| 0 <= f < def.callbacks@.len() ==> has_segments((#[trigger] def.callbacks@[f]).path),
                    c > 0 ==> sdef_fine(*target, *def),
                    parsed@.len() == defs@.len(),
                    forall|dd: int, cc: int| 0 <= dd < defs@.len() && 0 <= cc < combos_of(defs@[dd]).len() ==> combo_ok(#[trigger] combos_of(defs@[dd])[cc]),
                    self.wf(),
                    sdefs_have_segments(defs@),
                    self.callbacks == old(self).callbacks,
                    self.handles == old(self).handles,
                    self.partial_members == old(self).partial_members,
                    self.partial == old(self).partial,
                    forall|dd: int| 0 <= dd < d ==> sdef_fine(*target, #[trigger] defs@[dd]),
                    forall|dd: int| 0 <= dd < d ==> self.registered_shortcuts(*target, #[trigger] defs@[dd]),
                    forall|cc: int, j: int, f: int| 0 <= cc < c && 0 <= j < def_targets(*target, def.field_names).len() && 0 <= f < def.callbacks@.len()
                        ==> self.has_shortcut(key_args(#[trigger] combos_of(*def)[cc])[0], modifier_name(combos_of(*def)[cc]), #[trigger] def_targets(*target, def.field_names)[j], (#[trigger] def.callbacks@[f]).path),
                    forall|kk: Seq<char>, mm: Seq<char>, t: Option<Seq<char>>, p: PathModel| #[trigger] old(self).has_shortcut(kk, mm, t, p) ==> self.has_shortcut(kk, mm, t, p),
                    forall|kk: Seq<char>, mm: Seq<char>, t: Option<Seq<char>>, p: PathModel| has_segments(p) && #[trigger] self.has_shortcut(kk, mm, t, p) ==> old(self).has_shortcut(kk, mm, t, p) || exists|dd: int| 0 <= dd < defs@.len() && sdef_binds(*target, #[trigger] defs@[dd], kk, mm, t, p),
                    forall|kk: Seq<char>, mm: Seq<char>, t: Option<Seq<char>>, cl: FunctionCall| #[trigger] self.stored_shortcut(kk, mm, t, cl) ==> old(self).stored_shortcut(kk, mm, t, cl) || exists|dd: int| 0 <= dd < defs@.len() && sdef_makes(*target, #[trigger] defs@[dd], kk, mm, t, cl),
                decreases ks@.len() - c,
            {
                let ghost before = *self;
                let k = ShortcutKeystrokes { modifiers: ks[c].modifiers.clone(), key: ks[c].key.clone() };
                let ghost kv = k;
                let r = self.register_shortcut(k, target, &targets, &def.callbacks);
                proof {
                assert forall|kk: Seq<char>, mm: Seq<char>, t: Option<Seq<char>>, cl: FunctionCall| #[trigger] self.stored_shortcut(kk, mm, t, cl) implies old(self).stored_shortcut(kk, mm, t, cl) || exists|dd: int| 0 <= dd < defs@.len() && sdef_makes(*target, #[trigger] defs@[dd], kk, mm, t, cl) by {
                    if !before.stored_shortcut(kk, mm, t, cl) {
                        let (j, f) = choose|j: int, f: int| 0 <= j < targets@.len() && 0 <= f < def.callbacks@.len() && t == opt_view(#[trigger] targets@[j]) && call_from(cl, #[trigger] def.callbacks@[f], opt_view(*target), t);
                        assert(opt_view(targets@[j]) == def_targets(*target, def.field_names)[j]);
                        assert(kk == key_args(combos_of(*def)[c as int])[0]);
                        assert(sdef_makes(*target, defs@[d as int], kk, mm, t, cl));
                    }
                }
                }
                match r {
                    Err(e) => {
                        proof {
                            let ts = def_targets(*target, def.field_names);
                            assert(opt_views(targets@) == ts);
                            let (j, f) = choose|j: int, f: int| 0 <= j < ts.len()
                                && (forall|jj: int, g: int| 0 <= jj < j && 0 <= g < def.callbacks@.len() ==> args_fine(#[trigger] def.callbacks@[g], opt_view(*target), #[trigger] ts[jj]))
                                && #[trigger] first_bad_callback(def.callbacks@, opt_view(*target), ts[j], f)
                                && args_ok(Err(e), opt_views_of(def.callbacks@[f].args), opt_view(*target), ts[j]);
                            assert(def.key_combos@.len() == combos_of(*def).len());
                            assert(!sdef_fine(*target, defs@[d as int])) by {
                                assert(!args_fine(def.callbacks@[f], opt_view(*target), ts[j]));
                            }
                            assert(sdef_fails_with(*target, defs@[d as int], e));
                        }
                        return Err(e);
                    },
                    Ok(()) => {},
                }
                proof {
                    assert(def.key_combos@.len() == combos_of(*def).len());
                    assert(sdef_fine(*target, *def)) by {
                        assert forall|j: int, f: int| 0 <= j < def_targets(*target, def.field_names).len() && 0 <= f < def.callbacks@.len()
                            implies args_fine(#[trigger] def.callbacks@[f], opt_view(*target), #[trigger] def_targets(*target, def.field_names)[j]) by {
                            assert(opt_view(targets@[j]) == def_targets(*target, def.field_names)[j]);
                        }
                    }
                    assert forall|dd: int| 0 <= dd < d implies self.registered_shortcuts(*target, #[trigger] defs@[dd]) by {
                        assert(before.registered_shortcuts(*target, defs@[dd]));
                        let dv = defs@[dd];
                        assert forall|cc: int, j: int, f: int| 0 <= cc < combos_of(dv).len() && 0 <= j < def_targets(*target, dv.field_names).len() && 0 <= f < dv.callbacks@.len()
                            implies self.has_shortcut(key_args(#[trigger] combos_of(dv)[cc])[0], modifier_name(combos_of(dv)[cc]), #[trigger] def_targets(*target, dv.field_names)[j], (#[trigger] dv.callbacks@[f]).path) by {
                            assert(before.has_shortcut(key_args(combos_of(dv)[cc])[0], modifier_name(combos_of(dv)[cc]), def_targets(*target, dv.field_names)[j], dv.callbacks@[f].path));
                        }
                    }
                    assert forall|cc: int, j: int, f: int| 0 <= cc < c + 1 && 0 <= j < def_targets(*target, def.field_names).len() && 0 <= f < def.callbacks@.len()
                        implies self.has_shortcut(key_args(#[trigger] combos_of(*def)[cc])[0], modifier_name(combos_of(*def)[cc]), #[trigger] def_targets(*target, def.field_names)[j], (#[trigger] def.callbacks@[f]).path) by {
                        if cc < c {
                            assert(before.has_shortcut(key_args(combos_of(*def)[cc])[0], modifier_name(combos_of(*def)[cc]), def_targets(*target, def.field_names)[j], def.callbacks@[f].path));
                        } else {
                            assert(opt_view(targets@[j]) == def_targets(*target, def.field_names)[j]);
                            assert(self.has_shortcut(kv.key@, kv.modifiers@, opt_view(targets@[j]), def.callbacks@[f].path));
                        }
                    }
                    assert forall|kk: Seq<char>, mm: Seq<char>, t: Option<Seq<char>>, p: PathModel| has_segments(p) && #[trigger] self.has_shortcut(kk, mm, t, p) implies old(self).has_shortcut(kk, mm, t, p) || exists|dd: int| 0 <= dd < defs@.len() && sdef_binds(*target, #[trigger] defs@[dd], kk, mm, t, p) by {
                        if !before.has_shortcut(kk, mm, t, p) {
                            let (j, f) = choose|j: int, f: int| 0 <= j < targets@.len() && 0 <= f < def.callbacks@.len() && t == opt_view(#[trigger] targets@[j]) && call_order((#[trigger] def.callbacks@[f]).path, p) == Order::Equal;
                            assert(opt_view(targets@[j]) == def_targets(*target, def.field_names)[j]);
                            assert(kk == key_args(combos_of(*def)[c as int])[0]);
                            assert(sdef_binds(*target, defs@[d as int], kk, mm, t, p));
                        }
                    }
                }
                c = c + 1;
            }
            proof {
                assert(def.key_combos@.len() == combos_of(*def).len());
                assert(sdef_fine(*target, defs@[d as int]));
                assert(self.registered_shortcuts(*target, defs@[d as int]));
            }
            d = d + 1;
        }
        Ok(())
    }

    /// Binds the default handler to a field whose type is a top level window.
    pub fn add_top_level_handle(&mut self, field: &FieldInfo)
        ensures
            final(self).callbacks == old(self).callbacks,
            final(self).shortcuts == old(self).shortcuts,
            final(self).partial_members == old(self).partial_members,
            final(self).partial == old(self).partial,
            if field.attrs@.len() > 0 && (field.ty_ident matches Some(t) && (t@ == "Window"@ || t@ == "FancyWindow"@ || t@ == "MessageWindow"@)) {
                final(self).handles@.len() == old(self).handles@.len() + 1
                    && final(self).handles@.drop_last() == old(self).handles@
                    && final(self).handles@.last()@ == field.ident@
            } else {
                final(self).handles == old(self).handles
            },
    {
        if field.attrs.len() == 0 {
            return;
        }
        let top = match &field.ty_ident {
            Some(t) => text_eq(t.as_str(), "Window") || text_eq(t.as_str(), "FancyWindow") || text_eq(t.as_str(), "MessageWindow"),
            None => false,
        };
        if top {
            let ghost before = self.handles@;
            self.handles.push(field.ident.clone());
            assert(self.handles@.drop_last() =~= before);
        }
    }

    /// Registers the shortcut attribute of a field, if any.
    pub fn parse_shortcuts(&mut self, field: &FieldInfo) -> (r: Result<(), DeriveError>)
        requires
            old(self).wf(),
            attrs_wf(field.attrs@),
        ensures
            final(self).wf(),
            final(self).callbacks == old(self).callbacks,
            final(self).handles == old(self).handles,
            final(self).partial_members == old(self).partial_members,
            final(self).partial == old(self).partial,
            match first_attr(field.attrs@, "nwg_shortcuts"@) {
                None => r is Ok && *final(self) == *old(self),
                Some(i) => {
                    &&& (r is Ok <==> shortcut_attr_ok(Some(field.ident), field.attrs@[i]))
                    &&& (r is Ok ==> final(self).shortcut_attr_done(Some(field.ident), field.attrs@[i]))
                    &&& (field.attrs@[i].shortcuts matches Err(m) ==> r matches Err(DeriveError::AttrParse(mm)) && mm@ == m@)
                    &&& (r matches Err(e) ==> shortcut_attr_error(Some(field.ident), field.attrs@[i], e))
                    &&& forall|kk: Seq<char>, mm: Seq<char>, t: Option<Seq<char>>, p: PathModel| #[trigger] old(self).has_shortcut(kk, mm, t, p) ==> final(self).has_shortcut(kk, mm, t, p)
                    &&& forall|kk: Seq<char>, mm: Seq<char>, t: Option<Seq<char>>, p: PathModel| has_segments(p) && #[trigger] final(self).has_shortcut(kk, mm, t, p) ==> old(self).has_shortcut(kk, mm, t, p)
                        || (field.attrs@[i].shortcuts matches Ok(ds) && exists|d: int| 0 <= d < ds@.len() && sdef_binds(Some(field.ident), #[trigger] ds@[d], kk, mm, t, p))
                    &&& forall|kk: Seq<char>, mm: Seq<char>, t: Option<Seq<char>>, c: FunctionCall| #[trigger] final(self).stored_shortcut(kk, mm, t, c) ==> old(self).stored_shortcut(kk, mm, t, c)
                        || (field.attrs@[i].shortcuts matches Ok(ds) && exists|d: int| 0 <= d < ds@.len() && sdef_makes(Some(field.ident), #[trigger] ds@[d], kk, mm, t, c))
                },
            },
    {
        proof {
            lemma_first_attr(field.attrs@, "nwg_shortcuts"@);
        }
        match find_attr(&field.attrs, "nwg_shortcuts") {
            None => Ok(()),
            Some(i) => {
                match &field.attrs[i].shortcuts {
                    Err(m) => Err(DeriveError::AttrParse(m.clone())),
                    Ok(defs) => {
                        assert(sdefs_have_segments(defs@)) by {
                            assert(field.attrs@[i as int].shortcuts matches Ok(ds) && ds == *defs);
                        }
                        let target = Some(field.ident.clone());
                        self.parse_shortcut_impl(&target, defs)
                    },
                }
            },
        }
    }

    /// Registers the event attribute of a field, if any.
    pub fn parse_events(&mut self, field: &FieldInfo) -> (r: Result<(), DeriveError>)
        requires
            old(self).wf(),
            attrs_wf(field.attrs@),
        ensures
            final(self).wf(),
            final(self).shortcuts == old(self).shortcuts,
            final(self).handles == old(self).handles,
            final(self).partial_members == old(self).partial_members,
            final(self).partial == old(self).partial,
            match first_attr(field.attrs@, "nwg_events"@) {
                None => r is Ok && *final(self) == *old(self),
                Some(i) => {
                    &&& (r is Ok <==> event_attr_ok(Some(field.ident), field.attrs@[i]))
                    &&& (r is Ok ==> final(self).event_attr_done(Some(field.ident), field.attrs@[i]))
                    &&& (field.attrs@[i].events matches Err(m) ==> r matches Err(DeriveError::AttrParse(mm)) && mm@ == m@)
                    &&& (r matches Err(e) ==> event_attr_error(Some(field.ident), field.attrs@[i], e))
                    &&& forall|ee: Seq<char>, t: Option<Seq<char>>, p: PathModel| #[trigger] old(self).has_event(ee, t, p) ==> final(self).has_event(ee, t, p)
                    &&& forall|ee: Seq<char>, t: Option<Seq<char>>, p: PathModel| has_segments(p) && #[trigger] final(self).has_event(ee, t, p) ==> old(self).has_event(ee, t, p)
                        || (field.attrs@[i].events matches Ok(ds) && exists|d: int| 0 <= d < ds@.len() && def_binds(Some(field.ident), #[trigger] ds@[d], ee, t, p))
                    &&& forall|ee: Seq<char>, t: Option<Seq<char>>, c: FunctionCall| #[trigger] final(self).stored_event(ee, t, c) ==> old(self).stored_event(ee, t, c)
                        || (field.attrs@[i].events matches Ok(ds) && exists|d: int| 0 <= d < ds@.len() && def_makes(Some(field.ident), #[trigger] ds@[d], ee, t, c))
                },
            },
    {
        proof {
            lemma_first_attr(field.attrs@, "nwg_events"@);
        }
        match find_attr(&field.attrs, "nwg_events") {
            None => Ok(()),
            Some(i) => {
                match &field.attrs[i].events {
                    Err(m) => Err(DeriveError::AttrParse(m.clone())),
                    Ok(defs) => {
                        assert(defs_have_segments(defs@)) by {
                            assert(field.attrs@[i as int].events matches Ok(ds) && ds == *defs);
                        }
                        let target = Some(field.ident.clone());
                        self.parse_events_impl(&target, defs)
                    },
                }
            },
        }
    }

    /// Registers the shortcut, then the event attribute of a field.
    #[verifier::spinoff_prover]
    #[verifier::rlimit(40)]
    pub fn parse(&mut self, field: &FieldInfo) -> (r: Result<(), DeriveError>)
        requires
            old(self).wf(),
            attrs_wf(field.attrs@),
        ensures
            final(self).wf(),
            final(self).handles == old(self).handles,
            final(self).partial_members == old(self).partial_members,
            final(self).partial == old(self).partial,
            r is Ok <==> (
                (first_attr(field.attrs@, "nwg_shortcuts"@) matches Some(i) ==> shortcut_attr_ok(Some(field.ident), field.attrs@[i]))
                && (first_attr(field.attrs@, "nwg_events"@) matches Some(i) ==> event_attr_ok(Some(field.ident), field.attrs@[i]))),
            r matches Err(e) ==> bindings_error(Some(field.ident), field.attrs@, e),
            r is Ok ==> (first_attr(field.attrs@, "nwg_shortcuts"@) matches Some(i) ==> final(self).shortcut_attr_done(Some(field.ident), field.attrs@[i])),
            r is Ok ==> (first_attr(field.attrs@, "nwg_events"@) matches Some(i) ==> final(self).event_attr_done(Some(field.ident), field.attrs@[i])),
            forall|ee: Seq<char>, t: Option<Seq<char>>, p: PathModel| #[trigger] old(self).has_event(ee, t, p) ==> final(self).has_event(ee, t, p),
            forall|kk: Seq<char>, mm: Seq<char>, t: Option<Seq<char>>, p: PathModel| #[trigger] old(self).has_shortcut(kk, mm, t, p) ==> final(self).has_shortcut(kk, mm, t, p),
            forall|ee: Seq<char>, t: Option<Seq<char>>, p: PathModel| has_segments(p) && #[trigger] final(self).has_event(ee, t, p) ==> old(self).has_event(ee, t, p)
                || (first_attr(field.attrs@, "nwg_events"@) matches Some(i) && field.attrs@[i].events matches Ok(ds)
                    && exists|d: int| 0 <= d < ds@.len() && def_binds(Some(field.ident), #[trigger] ds@[d], ee, t, p)),
            forall|kk: Seq<char>, mm: Seq<char>, t: Option<Seq<char>>, p: PathModel| has_segments(p) && #[trigger] final(self).has_shortcut(kk, mm, t, p) ==> old(self).has_shortcut(kk, mm, t, p)
                || (first_attr(field.attrs@, "nwg_shortcuts"@) matches Some(i) && field.attrs@[i].shortcuts matches Ok(ds)
                    && exists|d: int| 0 <= d < ds@.len() && sdef_binds(Some(field.ident), #[trigger] ds@[d], kk, mm, t, p)),
            forall|ee: Seq<char>, t: Option<Seq<char>>, c: FunctionCall| #[trigger] final(self).stored_event(ee, t, c) ==> old(self).stored_event(ee, t, c)
                || (first_attr(field.attrs@, "nwg_events"@) matches Some(i) && field.attrs@[i].events matches Ok(ds)
                    && exists|d: int| 0 <= d < ds@.len() && def_makes(Some(field.ident), #[trigger] ds@[d], ee, t, c)),
            forall|kk: Seq<char>, mm: Seq<char>, t: Option<Seq<char>>, c: FunctionCall| #[trigger] final(self).stored_shortcut(kk, mm, t, c) ==> old(self).stored_shortcut(kk, mm, t, c)
                || (first_attr(field.attrs@, "nwg_shortcuts"@) matches Some(i) && field.attrs@[i].shortcuts matches Ok(ds)
                    && exists|d: int| 0 <= d < ds@.len() && sdef_makes(Some(field.ident), #[trigger] ds@[d], kk, mm, t, c)),
    {
        let ghost s0 = *self;
        match self.parse_shortcuts(field) {
            Ok(()) => {},
            Err(e) => {
                return Err(e);
            },
        }
        let ghost s1 = *self;
        let r = self.parse_events(field);
        proof {
            if first_attr(field.attrs@, "nwg_shortcuts"@) is Some {
                let i = first_attr(field.attrs@, "nwg_shortcuts"@)->Some_0;
                if r is Ok {
                    assert(s1.shortcut_attr_done(Some(field.ident), field.attrs@[i]));
                    let ds = field.attrs@[i].shortcuts->Ok_0;
                    assert forall|d: int| 0 <= d < ds@.len() implies self.registered_shortcuts(Some(field.ident), #[trigger] ds@[d]) by {
                        assert(s1.registered_shortcuts(Some(field.ident), ds@[d]));
                    }
                }
            }
            assert forall|kk: Seq<char>, mm: Seq<char>, t: Option<Seq<char>>, p: PathModel| #[trigger] old(self).has_shortcut(kk, mm, t, p) implies self.has_shortcut(kk, mm, t, p) by {
                if first_attr(field.attrs@, "nwg_shortcuts"@) is Some {
                    assert(s1.has_shortcut(kk, mm, t, p));
                }
            }
            assert forall|ee: Seq<char>, t: Option<Seq<char>>, p: PathModel| #[trigger] old(self).has_event(ee, t, p) implies self.has_event(ee, t, p) by {
                assert(s1.has_event(ee, t, p));
            }
            assert forall|kk: Seq<char>, mm: Seq<char>, t: Option<Seq<char>>, p: PathModel| has_segments(p) && #[trigger] self.has_shortcut(kk, mm, t, p) implies old(self).has_shortcut(kk, mm, t, p)
                || (first_attr(field.attrs@, "nwg_shortcuts"@) matches Some(i) && field.attrs@[i].shortcuts matches Ok(ds)
                    && exists|d: int| 0 <= d < ds@.len() && sdef_binds(Some(field.ident), #[trigger] ds@[d], kk, mm, t, p)) by {
                assert(s1.has_shortcut(kk, mm, t, p));
            }
            assert forall|kk: Seq<char>, mm: Seq<char>, t: Option<Seq<char>>, c: FunctionCall| #[trigger] self.stored_shortcut(kk, mm, t, c) implies old(self).stored_shortcut(kk, mm, t, c)
                || (first_attr(field.attrs@, "nwg_shortcuts"@) matches Some(i) && field.attrs@[i].shortcuts matches Ok(ds)
                    && exists|d: int| 0 <= d < ds@.len() && sdef_makes(Some(field.ident), #[trigger] ds@[d], kk, mm, t, c)) by {
                assert(s1.stored_shortcut(kk, mm, t, c));
            }
            assert forall|ee: Seq<char>, t: Option<Seq<char>>, c: FunctionCall| #[trigger] self.stored_event(ee, t, c) implies old(self).stored_event(ee, t, c)
                || (first_attr(field.attrs@, "nwg_events"@) matches Some(i) && field.attrs@[i].events matches Ok(ds)
                    && exists|d: int| 0 <= d < ds@.len() && def_makes(Some(field.ident), #[trigger] ds@[d], ee, t, c)) by {
                if s1.stored_event(ee, t, c) {
                    assert(old(self).stored_event(ee, t, c));
                }
            }
        }
        r
    }

    /// Registers the bindings written on the struct itself:
    /// the first `nwg_shortcuts` attribute, then the first `nwg_events`
    /// attribute that follows it. Without a `nwg_shortcuts` attribute nothing
    /// is read, as the search for it consumes the attributes.
    #[verifier::spinoff_prover]
    #[verifier::rlimit(40)]
    pub fn parse_global(&mut self, attrs: &Vec<AttrInfo>) -> (r: Result<(), DeriveError>)
        requires
            old(self).wf(),
            attrs_wf(attrs@),
        ensures
            global_result(attrs@, *old(self), *final(self), r),
    {
        proof {
            lemma_first_attr(attrs@, "nwg_shortcuts"@);
        }
        let k = match find_attr(attrs, "nwg_shortcuts") {
            None => {
                return Ok(());
            },
            Some(k) => k,
        };
        let defs = match &attrs[k].shortcuts {
            Err(m) => {
                return Err(DeriveError::AttrParse(m.clone()));
            },
            Ok(defs) => defs,
        };
        assert(sdefs_have_segments(defs@)) by {
            assert(attrs@[k as int].shortcuts matches Ok(ds) && ds == *defs);
        }
        let none: Option<String> = None;
        match self.parse_shortcut_impl(&none, defs) {
            Ok(()) => {},
            Err(e) => {
                return Err(e);
            },
        }
        let ghost s1 = *self;
        let ghost rest = attrs@.skip(k + 1);
        proof {
            lemma_first_attr(rest, "nwg_events"@);
            assert(attrs@[k as int].shortcuts == Ok::<Vec<ShortcutDefinition>, String>(*defs));
            assert(shortcut_attr_ok(None, attrs@[k as int]));
        }
        let n = attrs.len();
        assert(k < n);
        let mut j: usize = k + 1;
        while j < n
            invariant
                n == attrs@.len(),
                k < j <= attrs@.len(),
                attrs_wf(attrs@),
                s1.wf(),
                s1.handles == old(self).handles,
                s1.partial_members == old(self).partial_members,
                s1.partial == old(self).partial,
                s1.shortcut_attr_done(None, attrs@[k as int]),
                shortcut_attr_ok(None, attrs@[k as int]),
                forall|ee: Seq<char>, t: Option<Seq<char>>, p: PathModel| #[trigger] old(self).has_event(ee, t, p) ==> s1.has_event(ee, t, p),
                forall|kk: Seq<char>, mm: Seq<char>, t: Option<Seq<char>>, p: PathModel| #[trigger] old(self).has_shortcut(kk, mm, t, p) ==> s1.has_shortcut(kk, mm, t, p),
                match first_attr(rest, "nwg_events"@) {
                    Some(i) => 0 <= i < rest.len() && rest[i].is("nwg_events"@) && forall|q: int| 0 <= q < i ==> !(#[trigger] rest[q]).is("nwg_events"@),
                    None => forall|q: int| 0 <= q < rest.len() ==> !(#[trigger] rest[q]).is("nwg_events"@),
                },
                rest == attrs@.skip(k + 1),
                s1.callbacks == old(self).callbacks,
                attrs@[k as int].shortcuts == Ok::<Vec<ShortcutDefinition>, String>(*defs),
                forall|kk: Seq<char>, mm: Seq<char>, t: Option<Seq<char>>, c: FunctionCall| #[trigger] s1.stored_shortcut(kk, mm, t, c) ==> old(self).stored_shortcut(kk, mm, t, c)
                    || exists|d: int| 0 <= d < defs@.len() && sdef_makes(None, #[trigger] defs@[d], kk, mm, t, c),
                none is None,
                first_attr(attrs@, "nwg_shortcuts"@) == Some(k as int),
                *self == s1,
                forall|q: int| k + 1 <= q < j ==> !(#[trigger] attrs@[q]).is("nwg_events"@),
            decreases attrs@.len() - j,
        {
            if attrs[j].is_exec("nwg_events") {
                proof {
                    assert forall|q: int| 0 <= q < j - (k + 1) implies !(#[trigger] rest[q]).is("nwg_events"@) by {
                        assert(rest[q] == attrs@[q + k + 1]);
                    }
                    assert(rest[j - (k + 1)] == attrs@[j as int]);
                    let q0 = j - (k + 1);
                    match first_attr(rest, "nwg_events"@) {
                        Some(i) => {
                            if i < q0 {
                                assert(rest[i] == attrs@[i + k + 1]);
                            }
                            if i > q0 {
                                assert(!rest[q0].is("nwg_events"@));
                            }
                        },
                        None => {
                            assert(!rest[q0].is("nwg_events"@));
                        },
                    }
                    assert(first_attr(rest, "nwg_events"@) == Some(q0));
                }
                let r = match &attrs[j].events {
                    Err(m) => {
                        assert(!event_attr_ok(None, attrs@[j as int]));
                        Err(DeriveError::AttrParse(m.clone()))
                    },
                    Ok(evs) => {
                        assert(attrs@[j as int].events == Ok::<Vec<CallbackDefinition>, String>(*evs));
                        assert(defs_have_segments(evs@));
                        let r2 = self.parse_events_impl(&none, evs);
                        assert(r2 is Ok <==> event_attr_ok(None, attrs@[j as int]));
                        assert(r2 is Ok ==> self.event_attr_done(None, attrs@[j as int]));
                        r2
                    },
                };
                proof {
                    let q0 = j - (k + 1);
                    assert(rest[q0] == attrs@[j as int]);
                    assert(r is Ok <==> event_attr_ok(None, rest[q0]));
                    assert(r is Ok ==> self.event_attr_done(None, rest[q0]));
                    if r is Ok {
                        let ds = attrs@[k as int].shortcuts->Ok_0;
                        assert forall|d: int| 0 <= d < ds@.len() implies self.registered_shortcuts(None, #[trigger] ds@[d]) by {
                            assert(s1.registered_shortcuts(None, ds@[d]));
                        }
                    }
                    assert forall|kk: Seq<char>, mm: Seq<char>, t: Option<Seq<char>>, p: PathModel| #[trigger] old(self).has_shortcut(kk, mm, t, p) implies self.has_shortcut(kk, mm, t, p) by {
                        assert(s1.has_shortcut(kk, mm, t, p));
                    }
                    assert forall|ee: Seq<char>, t: Option<Seq<char>>, p: PathModel| #[trigger] old(self).has_event(ee, t, p) implies self.has_event(ee, t, p) by {
                        assert(s1.has_event(ee, t, p));
                    }
                    assert forall|kk: Seq<char>, mm: Seq<char>, t: Option<Seq<char>>, c: FunctionCall| #[trigger] self.stored_shortcut(kk, mm, t, c) implies old(self).stored_shortcut(kk, mm, t, c)
                        || (first_attr(attrs@, "nwg_shortcuts"@) matches Some(k) && attrs@[k].shortcuts matches Ok(ds)
                            && exists|d: int| 0 <= d < ds@.len() && sdef_makes(None, #[trigger] ds@[d], kk, mm, t, c)) by {
                        assert(s1.stored_shortcut(kk, mm, t, c));
                    }
                    assert forall|ee: Seq<char>, t: Option<Seq<char>>, c: FunctionCall| #[trigger] self.stored_event(ee, t, c) implies old(self).stored_event(ee, t, c)
                        || (first_attr(attrs@, "nwg_shortcuts"@) matches Some(k) && first_attr(attrs@.skip(k + 1), "nwg_events"@) matches Some(j)
                            && attrs@.skip(k + 1)[j].events matches Ok(ds) && exists|d: int| 0 <= d < ds@.len() && def_makes(None, #[trigger] ds@[d], ee, t, c)) by {
                        if s1.stored_event(ee, t, c) {
                            assert(old(self).stored_event(ee, t, c));
                        }
                    }
                }
                return r;
            }
            j = j + 1;
        }
        proof {
            assert forall|q: int| 0 <= q < rest.len() implies !(#[trigger] rest[q]).is("nwg_events"@) by {
                assert(rest[q] == attrs@[q + k + 1]);
            }
        }
        Ok(())
    }
}

/// `CTRL` sends the control the binding sits on: every call a shortcut
/// definition written on field `field` makes from a callback whose only
/// argument is `CTRL` passes `&evt_ui.<field>`.
pub proof fn law_shortcut_ctrl_is_its_control(field: String, d: ShortcutDefinition, kk: Seq<char>, mm: Seq<char>, t: Option<Seq<char>>, c: FunctionCall)
    requires
        sdef_makes(Some(field), d, kk, mm, t, c),
        forall|f: int| 0 <= f < d.callbacks@.len() ==> opt_views_of((#[trigger] d.callbacks@[f]).args) == Some(seq!["CTRL"@]),
    ensures
        c.args@.len() == 1,
        c.args@[0]@ == crate::items::member_ref("evt_ui"@, field@),
{
    reveal_strlit("SELF");
    reveal_strlit("RC_SELF");
    reveal_strlit("CTRL");
    let (cc, j, f) = choose|cc: int, j: int, f: int| 0 <= cc < combos_of(d).len() && 0 <= j < def_targets(Some(field), d.field_names).len() && 0 <= f < d.callbacks@.len()
        && kk == key_args(#[trigger] combos_of(d)[cc])[0] && mm == modifier_name(combos_of(d)[cc])
        && t == #[trigger] def_targets(Some(field), d.field_names)[j] && call_from(c, #[trigger] d.callbacks@[f], opt_view(Some(field)), t);
    let a: Seq<Seq<char>> = seq!["CTRL"@];
    assert("CTRL"@[0] != "SELF"@[0]);
    assert("CTRL"@.len() != "RC_SELF"@.len());
    assert(opt_views_of(d.callbacks@[f].args) == Some(a));
    assert(arg_outcome(a[0], Some(field@), t) == ArgOutcome::Text(crate::items::member_ref("evt_ui"@, field@)));
}

/// The four mouse button events are kinds of `OnMousePress`: each of
/// `MousePressLeftUp`, `MousePressLeftDown`, `MousePressRightUp` and
/// `MousePressRightDown` is matched as `Event::OnMousePress` of itself.
pub proof fn law_mouse_press_events(event: Seq<char>, r: EventPattern)
    requires
        event_pattern_of(event, r),
        event == "MousePressLeftUp"@ || event == "MousePressLeftDown"@ || event == "MousePressRightUp"@ || event == "MousePressRightDown"@,
    ensures
        r matches EventPattern::MousePress(n) && n@ == event,
{
}

/// `OnMousePress` matches every mouse press.
pub proof fn law_any_mouse_press(r: EventPattern)
    requires
        event_pattern_of("OnMousePress"@, r),
    ensures
        r is AnyMousePress,
{
    reveal_strlit("OnMousePress");
    reveal_strlit("MousePressLeftUp");
    reveal_strlit("MousePressLeftDown");
    reveal_strlit("MousePressRightUp");
    reveal_strlit("MousePressRightDown");
    assert("OnMousePress"@.len() != "MousePressLeftUp"@.len());
    assert("OnMousePress"@.len() != "MousePressLeftDown"@.len());
    assert("OnMousePress"@.len() != "MousePressRightUp"@.len());
    assert("OnMousePress"@.len() != "MousePressRightDown"@.len());
}

/// Every other event name is matched as the `Event` variant of that name.
pub proof fn law_named_events(event: Seq<char>, r: EventPattern)
    requires
        event_pattern_of(event, r),
        event != "MousePressLeftUp"@,
        event != "MousePressLeftDown"@,
        event != "MousePressRightUp"@,
        event != "MousePressRightDown"@,
        event != "OnMousePress"@,
    ensures
        r matches EventPattern::Named(n) && n@ == event,
{
}

/// The parts written in `a` whose uppercase form is `CTRL`, `ALT` or
/// `SHIFT`, uppercased, in the order written.
pub open spec fn written_modifiers(a: Seq<Seq<char>>) -> Seq<Seq<char>> {
    a.filter_map(|x: Seq<char>| if upper_case(x) == "CTRL"@ || upper_case(x) == "ALT"@ || upper_case(x) == "SHIFT"@ {
        Some(upper_case(x))
    } else {
        None
    })
}

/// The other parts written in `a`, as written, in order.
pub open spec fn written_keys(a: Seq<Seq<char>>) -> Seq<Seq<char>> {
    a.filter_map(|x: Seq<char>| if upper_case(x) == "CTRL"@ || upper_case(x) == "ALT"@ || upper_case(x) == "SHIFT"@ {
        None
    } else {
        Some(x)
    })
}

/// The pieces joined by `_`, read from the front.
pub open spec fn underscore_joined(s: Seq<Seq<char>>) -> Seq<char>
    decreases s.len(),
{
    if s.len() == 0 {
        Seq::empty()
    } else if s.len() == 1 {
        s[0]
    } else {
        s[0] + "_"@ + underscore_joined(s.drop_first())
    }
}

proof fn lemma_underscore_joined_last(s: Seq<Seq<char>>)
    requires
        s.len() >= 2,
    ensures
        underscore_joined(s) == underscore_joined(s.drop_last()) + "_"@ + s.last(),
    decreases s.len(),
{
    if s.len() == 2 {
        assert(s.drop_first().len() == 1);
        assert(s.drop_last().len() == 1);
        assert(underscore_joined(s.drop_first()) == s[1]);
        assert(underscore_joined(s.drop_last()) == s[0]);
    } else {
        let t = s.drop_first();
        lemma_underscore_joined_last(t);
        assert(t.drop_last() =~= s.drop_last().drop_first());
        assert(t.last() == s.last());
        assert(s.drop_last()[0] == s[0]);
        assert(s[0] + "_"@ + (underscore_joined(t.drop_last()) + "_"@ + s.last()) =~= s[0] + "_"@ + underscore_joined(t.drop_last()) + "_"@ + s.last());
    }
}

proof fn lemma_joins_agree(s: Seq<Seq<char>>)
    ensures
        join_underscore(s) == underscore_joined(s),
    decreases s.len(),
{
    if s.len() >= 2 {
        lemma_joins_agree(s.drop_last());
        lemma_underscore_joined_last(s);
    }
}

proof fn lemma_parts_written(a: Seq<Seq<char>>)
    ensures
        key_args(a) == written_keys(a),
        modifier_parts(upper_pairs(a)) == written_modifiers(a),
    decreases a.len(),
{
    if a.len() > 0 {
        let p = upper_pairs(a);
        let q = a.drop_last();
        lemma_parts_written(q);
        assert(p.drop_last() =~= upper_pairs(q));
        assert(p.last() == (a.last(), upper_case(a.last())));
        let x = a.last();
        if is_modifier(upper_case(x)) {
            assert(written_modifiers(a) == written_modifiers(q) + seq![upper_case(x)]);
            assert(written_keys(a) == written_keys(q));
            assert(modifier_parts(p) =~= written_modifiers(q) + seq![upper_case(x)]);
        } else {
            assert(written_modifiers(a) == written_modifiers(q));
            assert(written_keys(a) == written_keys(q) + seq![x]);
            assert(key_parts(p) =~= written_keys(q) + seq![x]);
        }
    }
}

/// A combination names the one part that is not `CTRL`, `ALT` or `SHIFT`
/// (in any case) as its key, and every part that is one of those, wherever
/// it is written, as a modifier: the modifiers are their uppercase forms
/// joined by `_` in the order written, or `NONE`. Two keys or none are
/// refused. So `Ctrl+Plus+Shift` is the key `Plus` with `CTRL_SHIFT`.
pub proof fn law_keystrokes_from_written_parts(a: Seq<Seq<char>>, r: Result<ShortcutKeystrokes, DeriveError>)
    requires
        keystrokes_parse_result(a, r),
    ensures
        written_keys(a).len() == 1 ==> (r matches Ok(k) && k.key@ == written_keys(a)[0]
            && k.modifiers@ == (if written_modifiers(a).len() == 0 { "NONE"@ } else { underscore_joined(written_modifiers(a)) })),
        written_keys(a).len() >= 2 ==> (r matches Err(DeriveError::ExtraShortcutKey { key }) && key@ == written_keys(a)[1]),
        written_keys(a).len() == 0 ==> (r matches Err(DeriveError::NoShortcutKey)),
{
    lemma_parts_written(a);
    lemma_joins_agree(written_modifiers(a));
}

} // verus!
