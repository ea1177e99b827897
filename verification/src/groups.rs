//! How the handler of one event (or key combination) is laid out: the
//! targets that run the same calls share one branch; branches come in the
//! order of their calls, targets in the order of their text.

use vstd::prelude::*;
use crate::events::{call_order, has_segments, lemma_call_order_eq_trans, lemma_call_order_flip, lemma_call_order_trans, EventCallback, FunctionCall};
use crate::params::{opt_view, views, PathModel};
use crate::text::{compare_text, lemma_text_order_equal, lemma_text_order_flip, lemma_text_order_trans, text_eq, text_order, Order};

verus! {

/// Every call has a path with a segment.
pub open spec fn calls_have_segments(a: Seq<FunctionCall>) -> bool {
    forall|i: int| 0 <= i < a.len() ==> has_segments(#[trigger] a[i].path)
}

/// The order of call lists, each an ordered set of calls:
/// element by element, a list that is a prefix of the other first.
pub open spec fn call_list_order(a: Seq<FunctionCall>, b: Seq<FunctionCall>) -> Order
    decreases a.len(),
{
    if a.len() == 0 {
        if b.len() == 0 {
            Order::Equal
        } else {
            Order::Less
        }
    } else if b.len() == 0 {
        Order::Greater
    } else {
        call_order(a[0].path, b[0].path).or_else_spec(call_list_order(a.drop_first(), b.drop_first()))
    }
}

pub proof fn lemma_call_list_flip(a: Seq<FunctionCall>, b: Seq<FunctionCall>)
    requires
        calls_have_segments(a),
        calls_have_segments(b),
    ensures
        call_list_order(b, a) == call_list_order(a, b).flip(),
    decreases a.len(),
{
    if a.len() > 0 && b.len() > 0 {
        lemma_call_order_flip(a[0].path, b[0].path);
        assert(calls_have_segments(a.drop_first())) by {
            assert forall|i: int| 0 <= i < a.drop_first().len() implies has_segments(#[trigger] a.drop_first()[i].path) by {
                assert(a.drop_first()[i] == a[i + 1]);
            }
        }
        assert(calls_have_segments(b.drop_first())) by {
            assert forall|i: int| 0 <= i < b.drop_first().len() implies has_segments(#[trigger] b.drop_first()[i].path) by {
                assert(b.drop_first()[i] == b[i + 1]);
            }
        }
        lemma_call_list_flip(a.drop_first(), b.drop_first());
    }
}

pub proof fn lemma_call_list_le_trans(a: Seq<FunctionCall>, b: Seq<FunctionCall>, c: Seq<FunctionCall>)
    requires
        calls_have_segments(a),
        calls_have_segments(b),
        calls_have_segments(c),
        call_list_order(a, b) != Order::Greater,
        call_list_order(b, c) != Order::Greater,
    ensures
        call_list_order(a, c) != Order::Greater,
        call_list_order(a, b) == Order::Less || call_list_order(b, c) == Order::Less ==> call_list_order(a, c) == Order::Less,
    decreases a.len(),
{
    if a.len() > 0 && b.len() > 0 && c.len() > 0 {
        let (a0, b0, c0) = (a[0].path, b[0].path, c[0].path);
        lemma_call_order_flip(a0, b0);
        lemma_call_order_flip(b0, c0);
        if call_order(a0, b0) == Order::Less && call_order(b0, c0) == Order::Less {
            lemma_call_order_trans(a0, b0, c0);
        }
        if call_order(a0, b0) == Order::Equal {
            lemma_call_order_eq_trans(a0, b0, c0);
        }
        if call_order(b0, c0) == Order::Equal {
            lemma_call_order_flip(a0, c0);
            lemma_call_order_flip(a0, b0);
            lemma_call_order_eq_trans(c0, b0, a0);
        }
        if call_order(a0, b0) == Order::Equal && call_order(b0, c0) == Order::Equal {
            assert(calls_have_segments(a.drop_first())) by {
                assert forall|i: int| 0 <= i < a.drop_first().len() implies has_segments(#[trigger] a.drop_first()[i].path) by {
                    assert(a.drop_first()[i] == a[i + 1]);
                }
            }
            assert(calls_have_segments(b.drop_first())) by {
                assert forall|i: int| 0 <= i < b.drop_first().len() implies has_segments(#[trigger] b.drop_first()[i].path) by {
                    assert(b.drop_first()[i] == b[i + 1]);
                }
            }
            assert(calls_have_segments(c.drop_first())) by {
                assert forall|i: int| 0 <= i < c.drop_first().len() implies has_segments(#[trigger] c.drop_first()[i].path) by {
                    assert(c.drop_first()[i] == c[i + 1]);
                }
            }
            lemma_call_list_le_trans(a.drop_first(), b.drop_first(), c.drop_first());
        }
    }
}

/// Compares two call lists.
pub fn compare_call_lists(a: &Vec<FunctionCall>, b: &Vec<FunctionCall>) -> (r: Order)
    requires
        calls_have_segments(a@),
        calls_have_segments(b@),
    ensures
        r == call_list_order(a@, b@),
{
    let mut i: usize = 0;
    assert(a@.skip(0) =~= a@ && b@.skip(0) =~= b@);
    while i < a.len() && i < b.len()
        invariant
            i <= a@.len(),
            i <= b@.len(),
            calls_have_segments(a@),
            calls_have_segments(b@),
            call_list_order(a@, b@) == call_list_order(a@.skip(i as int), b@.skip(i as int)),
        decreases a@.len() - i,
    {
        let o = crate::events::compare_calls(&a[i].path, &b[i].path);
        let ghost sa = a@.skip(i as int);
        let ghost sb = b@.skip(i as int);
        assert(sa[0] == a@[i as int] && sb[0] == b@[i as int]);
        assert(sa.drop_first() =~= a@.skip(i + 1));
        assert(sb.drop_first() =~= b@.skip(i + 1));
        if o != Order::Equal {
            return o;
        }
        i = i + 1;
    }
    if i < a.len() {
        Order::Greater
    } else if i < b.len() {
        Order::Less
    } else {
        Order::Equal
    }
}

/// Two call lists are the same calls: the same paths, with the same
/// arguments.
pub open spec fn same_calls(a: Seq<FunctionCall>, b: Seq<FunctionCall>) -> bool {
    &&& a.len() == b.len()
    &&& forall|i: int| 0 <= i < a.len() ==> (#[trigger] a[i]).path.same(b[i].path) && views(a[i].args@) == views(b[i].args@)
}

fn same_path(a: &PathModel, b: &PathModel) -> (r: bool)
    ensures
        r == a.same(*b),
{
    if a.leading_colon != b.leading_colon || a.segments.len() != b.segments.len() {
        return false;
    }
    let mut i: usize = 0;
    while i < a.segments.len()
        invariant
            i <= a.segments@.len(),
            a.segments@.len() == b.segments@.len(),
            a.leading_colon == b.leading_colon,
            forall|j: int| 0 <= j < i ==> (#[trigger] a.segments@[j]).same(b.segments@[j]),
        decreases a.segments@.len() - i,
    {
        if !text_eq(a.segments[i].ident.as_str(), b.segments[i].ident.as_str()) || a.segments[i].has_arguments != b.segments[i].has_arguments {
            return false;
        }
        i = i + 1;
    }
    true
}

fn same_texts(a: &Vec<String>, b: &Vec<String>) -> (r: bool)
    ensures
        r == (views(a@) == views(b@)),
{
    if a.len() != b.len() {
        assert(views(a@).len() != views(b@).len());
        return false;
    }
    let mut i: usize = 0;
    while i < a.len()
        invariant
            i <= a@.len(),
            a@.len() == b@.len(),
            forall|j: int| 0 <= j < i ==> a@[j]@ == b@[j]@,
        decreases a@.len() - i,
    {
        if !text_eq(a[i].as_str(), b[i].as_str()) {
            assert(views(a@)[i as int] != views(b@)[i as int]);
            return false;
        }
        i = i + 1;
    }
    assert(views(a@) =~= views(b@));
    true
}

/// Are the two lists the same calls?
pub fn same_calls_exec(a: &Vec<FunctionCall>, b: &Vec<FunctionCall>) -> (r: bool)
    ensures
        r == same_calls(a@, b@),
{
    if a.len() != b.len() {
        return false;
    }
    let mut i: usize = 0;
    while i < a.len()
        invariant
            i <= a@.len(),
            a@.len() == b@.len(),
            forall|j: int| 0 <= j < i ==> (#[trigger] a@[j]).path.same(b@[j].path) && views(a@[j].args@) == views(b@[j].args@),
        decreases a@.len() - i,
    {
        if !same_path(&a[i].path, &b[i].path) || !same_texts(&a[i].args, &b[i].args) {
            return false;
        }
        i = i + 1;
    }
    true
}

/// The targets that share one branch, and an entry whose calls they run.
///
/// Groups are built in a `Vec`, in the order of their calls, rather than in
/// a `HashMap` keyed by the calls: such a key is a list of structs, of which
/// Verus proves nothing as a `HashMap` key, and the branches must come out
/// in a fixed order.
pub struct CallGroup {
    pub targets: Vec<String>,
    pub entry: usize,
}

/// The texts are in strictly increasing order.
pub open spec fn texts_sorted(v: Seq<String>) -> bool {
    forall|a: int, b: int| 0 <= a < b < v.len() ==> text_order((#[trigger] v[a])@, (#[trigger] v[b])@) == Order::Less
}

/// Inserts `t` in the ordered texts `v`, which do not hold it yet.
fn insert_text(v: &mut Vec<String>, t: String)
    requires
        texts_sorted(old(v)@),
        !views(old(v)@).contains(t@),
    ensures
        texts_sorted(final(v)@),
        final(v)@.len() == old(v)@.len() + 1,
        forall|x: Seq<char>| views(final(v)@).contains(x) <==> (views(old(v)@).contains(x) || x == t@),
{
    let ghost old_v = v@;
    let mut p: usize = 0;
    while p < v.len() && compare_text(v[p].as_str(), t.as_str()) != Order::Greater
        invariant
            p <= v@.len(),
            v@ == old_v,
            forall|q: int| 0 <= q < p ==> text_order((#[trigger] old_v[q])@, t@) != Order::Greater,
        decreases v@.len() - p,
    {
        p = p + 1;
    }
    let ghost tv = t@;
    v.insert(p, t);
    proof {
        let nv = v@;
        assert forall|a: int, b: int| 0 <= a < b < nv.len() implies text_order((#[trigger] nv[a])@, (#[trigger] nv[b])@) == Order::Less by {
            if p < old_v.len() {
                lemma_text_order_flip(old_v[p as int]@, tv);
            }
            if a < p && b == p {
                assert(nv[a] == old_v[a]);
                assert(views(old_v)[a] == old_v[a]@);
                lemma_text_order_equal(old_v[a]@, tv);
            } else if a < p && b > p {
                assert(nv[a] == old_v[a] && nv[b] == old_v[b - 1]);
            } else if a == p {
                assert(nv[b] == old_v[b - 1]);
                if b - 1 > p {
                    lemma_text_order_trans(tv, old_v[p as int]@, old_v[b - 1]@);
                }
            } else if a > p {
                assert(nv[a] == old_v[a - 1] && nv[b] == old_v[b - 1]);
            } else {
                assert(nv[a] == old_v[a] && nv[b] == old_v[b]);
            }
        }
        assert forall|x: Seq<char>| views(nv).contains(x) <==> (views(old_v).contains(x) || x == tv) by {
            if views(nv).contains(x) {
                let m = choose|m: int| 0 <= m < views(nv).len() && views(nv)[m] == x;
                if m < p {
                    assert(views(old_v)[m] == x);
                } else if m > p {
                    assert(views(old_v)[m - 1] == x);
                }
            }
            if views(old_v).contains(x) {
                let m = choose|m: int| 0 <= m < views(old_v).len() && views(old_v)[m] == x;
                if m < p {
                    assert(views(nv)[m] == x);
                } else {
                    assert(views(nv)[m + 1] == x);
                }
            }
            if x == tv {
                assert(views(nv)[p as int] == x);
            }
        }
    }
}

impl EventCallback {
    /// The calls of entry `k`.
    pub open spec fn calls_of(self, k: int) -> Seq<FunctionCall> {
        self.entries@[k].calls@
    }

    /// The groups are ordered by their calls.
    pub open spec fn groups_sorted(self, gs: Seq<CallGroup>) -> bool {
        forall|g1: int, g2: int| 0 <= g1 < g2 < gs.len()
            ==> call_list_order(self.calls_of((#[trigger] gs[g1]).entry as int), self.calls_of((#[trigger] gs[g2]).entry as int)) != Order::Greater
    }

    proof fn lemma_calls_segments(self, k: int)
        requires
            self.wf(),
            0 <= k < self.entries@.len(),
        ensures
            calls_have_segments(self.calls_of(k)),
    {
        assert(crate::events::calls_sorted(self.entries@[k].calls@));
    }

    /// The first group whose calls are those of entry `k`.
    fn find_group(&self, groups: &Vec<CallGroup>, k: usize) -> (r: Option<usize>)
        requires
            k < self.entries@.len(),
            forall|g: int| #![trigger groups@[g]] 0 <= g < groups@.len() ==> groups@[g].entry < self.entries@.len(),
        ensures
            match r {
                Some(f) => f < groups@.len() && same_calls(self.calls_of(groups@[f as int].entry as int), self.calls_of(k as int)),
                None => forall|g: int| 0 <= g < groups@.len() ==> !same_calls(self.calls_of((#[trigger] groups@[g]).entry as int), self.calls_of(k as int)),
            },
    {
        let mut g: usize = 0;
        while g < groups.len()
            invariant
                g <= groups@.len(),
                k < self.entries@.len(),
                forall|gg: int| #![trigger groups@[gg]] 0 <= gg < groups@.len() ==> groups@[gg].entry < self.entries@.len(),
                forall|gg: int| 0 <= gg < g ==> !same_calls(self.calls_of((#[trigger] groups@[gg]).entry as int), self.calls_of(k as int)),
            decreases groups@.len() - g,
        {
            if same_calls_exec(&self.entries[groups[g].entry].calls, &self.entries[k].calls) {
                return Some(g);
            }
            g = g + 1;
        }
        None
    }

    /// Inserts the group `ng` after the groups whose calls do not come after
    /// its own.
    #[verifier::spinoff_prover]
    fn insert_group(&self, groups: &mut Vec<CallGroup>, ng: CallGroup)
        requires
            self.wf(),
            ng.entry < self.entries@.len(),
            forall|g: int| #![trigger old(groups)@[g]] 0 <= g < old(groups)@.len() ==> old(groups)@[g].entry < self.entries@.len(),
            self.groups_sorted(old(groups)@),
        ensures
            self.groups_sorted(final(groups)@),
            exists|q: int| 0 <= q <= old(groups)@.len() && final(groups)@ == old(groups)@.insert(q, ng),
    {
        let ghost before = groups@;
        let ghost kc = self.calls_of(ng.entry as int);
        proof {
            self.lemma_calls_segments(ng.entry as int);
        }
        let mut q: usize = 0;
        while q < groups.len() && compare_call_lists(&self.entries[groups[q].entry].calls, &self.entries[ng.entry].calls) != Order::Greater
            invariant
                q <= groups@.len(),
                groups@ == before,
                self.wf(),
                ng.entry < self.entries@.len(),
                kc == self.calls_of(ng.entry as int),
                calls_have_segments(kc),
                forall|gg: int| #![trigger groups@[gg]] 0 <= gg < groups@.len() ==> groups@[gg].entry < self.entries@.len(),
                forall|gg: int| 0 <= gg < q ==> call_list_order(self.calls_of((#[trigger] groups@[gg]).entry as int), kc) != Order::Greater,
            decreases groups@.len() - q,
        {
            proof {
                self.lemma_calls_segments(groups@[q as int].entry as int);
            }
            q = q + 1;
        }
        let ghost ngv = ng;
        groups.insert(q, ng);
        proof {
            if q < before.len() {
                self.lemma_calls_segments(before[q as int].entry as int);
                lemma_call_list_flip(self.calls_of(before[q as int].entry as int), kc);
            }
            assert forall|g1: int, g2: int| 0 <= g1 < g2 < groups@.len()
                implies call_list_order(self.calls_of((#[trigger] groups@[g1]).entry as int), self.calls_of((#[trigger] groups@[g2]).entry as int)) != Order::Greater by {
                if g1 < q && g2 == q {
                    assert(groups@[g1] == before[g1]);
                } else if g1 < q && g2 > q {
                    assert(groups@[g1] == before[g1] && groups@[g2] == before[g2 - 1]);
                } else if g1 == q {
                    assert(groups@[g2] == before[g2 - 1]);
                    self.lemma_calls_segments(before[g2 - 1].entry as int);
                    if g2 - 1 > q {
                        lemma_call_list_le_trans(kc, self.calls_of(before[q as int].entry as int), self.calls_of(before[g2 - 1].entry as int));
                    }
                } else if g1 > q {
                    assert(groups@[g1] == before[g1 - 1] && groups@[g2] == before[g2 - 1]);
                } else {
                    assert(groups@[g1] == before[g1] && groups@[g2] == before[g2]);
                }
            }
            assert(groups@ == before.insert(q as int, ngv));
        }
    }

    /// Each group names an earlier entry with a target, and holds targets
    /// in increasing order.
    #[verifier::opaque]
    pub open spec fn inv_shape(self, groups: Seq<CallGroup>, k: int) -> bool {
        forall|g: int| #![trigger groups[g]] 0 <= g < groups.len() ==> {
            &&& groups[g].entry < k
            &&& self.entries@[groups[g].entry as int].target is Some
            &&& groups[g].targets@.len() > 0
            &&& texts_sorted(groups[g].targets@)
        }
    }

    /// Each target of a group is that of an earlier entry running the
    /// group's calls.
    #[verifier::opaque]
    pub open spec fn inv_members(self, groups: Seq<CallGroup>, k: int) -> bool {
        forall|g: int, x: Seq<char>| #![trigger views(groups[g].targets@).contains(x)] 0 <= g < groups.len() && views(groups[g].targets@).contains(x)
            ==> exists|kk: int| 0 <= kk < k && #[trigger] opt_view(self.entries@[kk].target) == Some(x)
                && same_calls(self.calls_of(groups[g].entry as int), self.calls_of(kk))
    }

    /// The target of each earlier entry is in a group.
    #[verifier::opaque]
    pub open spec fn inv_covers(self, groups: Seq<CallGroup>, k: int) -> bool {
        forall|kk: int| 0 <= kk < k && (#[trigger] self.entries@[kk]).target is Some ==> exists|g: int|
            0 <= g < groups.len() && views((#[trigger] groups[g]).targets@).contains(opt_view(self.entries@[kk].target)->Some_0)
    }

    /// No two groups run the same calls.
    #[verifier::opaque]
    pub open spec fn inv_distinct(self, groups: Seq<CallGroup>) -> bool {
        forall|g1: int, g2: int| 0 <= g1 < groups.len() && 0 <= g2 < groups.len() && g1 != g2
            ==> !same_calls(self.calls_of((#[trigger] groups[g1]).entry as int), self.calls_of((#[trigger] groups[g2]).entry as int))
    }

    /// What grouping the first `k` entries gives.
    pub open spec fn groups_inv(self, groups: Seq<CallGroup>, k: int) -> bool {
        &&& self.inv_shape(groups, k)
        &&& self.inv_members(groups, k)
        &&& self.inv_covers(groups, k)
        &&& self.inv_distinct(groups)
        &&& self.groups_sorted(groups)
    }

    /// A target of entry `k` is in no group yet.
    proof fn lemma_target_new(self, groups: Seq<CallGroup>, k: int)
        requires
            self.wf(),
            0 <= k < self.entries@.len(),
            self.entries@[k].target is Some,
            self.groups_inv(groups, k),
        ensures
            forall|g: int| 0 <= g < groups.len() ==> !views((#[trigger] groups[g]).targets@).contains(opt_view(self.entries@[k].target)->Some_0),
    {
        reveal(EventCallback::inv_members);
        let tv = opt_view(self.entries@[k].target)->Some_0;
        assert forall|g: int| 0 <= g < groups.len() implies !views((#[trigger] groups[g]).targets@).contains(tv) by {
            if views(groups[g].targets@).contains(tv) {
                let kk = choose|kk: int| 0 <= kk < k && #[trigger] opt_view(self.entries@[kk].target) == Some(tv)
                    && same_calls(self.calls_of(groups[g].entry as int), self.calls_of(kk));
                assert(opt_view(self.entries@[kk].target) != opt_view(self.entries@[k].target));
            }
        }
    }

    /// An entry without a target changes no group.
    proof fn lemma_skip_entry(self, groups: Seq<CallGroup>, k: int)
        requires
            0 <= k < self.entries@.len(),
            self.entries@[k].target is None,
            self.groups_inv(groups, k),
        ensures
            self.groups_inv(groups, k + 1),
    {
        reveal(EventCallback::inv_shape);
        reveal(EventCallback::inv_members);
        reveal(EventCallback::inv_covers);
        assert forall|g: int, x: Seq<char>| #![trigger views(groups[g].targets@).contains(x)] 0 <= g < groups.len() && views(groups[g].targets@).contains(x)
            implies exists|kk: int| 0 <= kk < k + 1 && #[trigger] opt_view(self.entries@[kk].target) == Some(x)
                && same_calls(self.calls_of(groups[g].entry as int), self.calls_of(kk)) by {
            let kk = choose|kk: int| 0 <= kk < k && #[trigger] opt_view(self.entries@[kk].target) == Some(x)
                && same_calls(self.calls_of(groups[g].entry as int), self.calls_of(kk));
        }
    }

    /// Adds the target of entry `k` to group `f`, which runs the same calls.
    #[verifier::spinoff_prover]
    fn add_to_group(&self, groups: &mut Vec<CallGroup>, f: usize, k: usize)
        requires
            self.wf(),
            k < self.entries@.len(),
            self.entries@[k as int].target is Some,
            self.groups_inv(old(groups)@, k as int),
            f < old(groups)@.len(),
            same_calls(self.calls_of(old(groups)@[f as int].entry as int), self.calls_of(k as int)),
        ensures
            self.groups_inv(final(groups)@, k + 1),
    {
        let ghost before = groups@;
        proof {
            self.lemma_target_new(before, k as int);
            reveal(EventCallback::inv_shape);
            reveal(EventCallback::inv_members);
            reveal(EventCallback::inv_covers);
            reveal(EventCallback::inv_distinct);
        }
        let t = self.entries[k].target.as_ref().unwrap().clone();
        let ghost tv = t@;
        let mut grp = groups.remove(f);
        let ghost og = grp;
        assert(og == before[f as int]);
        insert_text(&mut grp.targets, t);
        let ghost ng = grp;
        groups.insert(f, grp);
        proof {
            assert(groups@ == before.update(f as int, ng));
            assert forall|g: int, x: Seq<char>| #![trigger views(groups@[g].targets@).contains(x)] 0 <= g < groups@.len() && views(groups@[g].targets@).contains(x)
                implies exists|kk: int| 0 <= kk < k + 1 && #[trigger] opt_view(self.entries@[kk].target) == Some(x)
                    && same_calls(self.calls_of(groups@[g].entry as int), self.calls_of(kk)) by {
                if g == f && x == tv {
                    assert(opt_view(self.entries@[k as int].target) == Some(x));
                } else if g == f {
                    assert(views(before[g].targets@).contains(x));
                } else {
                    assert(groups@[g] == before[g]);
                    assert(views(before[g].targets@).contains(x));
                }
            }
            assert forall|kk: int| 0 <= kk < k + 1 && (#[trigger] self.entries@[kk]).target is Some implies exists|g: int|
                0 <= g < groups@.len() && views((#[trigger] groups@[g]).targets@).contains(opt_view(self.entries@[kk].target)->Some_0) by {
                if kk == k {
                    assert(views(groups@[f as int].targets@).contains(tv));
                } else {
                    let g0 = choose|g: int| 0 <= g < before.len() && views((#[trigger] before[g]).targets@).contains(opt_view(self.entries@[kk].target)->Some_0);
                    if g0 == f {
                        assert(views(groups@[g0].targets@).contains(opt_view(self.entries@[kk].target)->Some_0));
                    } else {
                        assert(groups@[g0] == before[g0]);
                    }
                }
            }
            assert forall|g1: int, g2: int| 0 <= g1 < groups@.len() && 0 <= g2 < groups@.len() && g1 != g2
                implies !same_calls(self.calls_of((#[trigger] groups@[g1]).entry as int), self.calls_of((#[trigger] groups@[g2]).entry as int)) by {
                assert(groups@[g1].entry == before[g1].entry && groups@[g2].entry == before[g2].entry);
            }
            assert forall|g1: int, g2: int| 0 <= g1 < g2 < groups@.len()
                implies call_list_order(self.calls_of((#[trigger] groups@[g1]).entry as int), self.calls_of((#[trigger] groups@[g2]).entry as int)) != Order::Greater by {
                assert(groups@[g1].entry == before[g1].entry && groups@[g2].entry == before[g2].entry);
            }
            assert forall|g: int| #![trigger groups@[g]] 0 <= g < groups@.len() implies {
                &&& groups@[g].entry < k + 1
                &&& self.entries@[groups@[g].entry as int].target is Some
                &&& groups@[g].targets@.len() > 0
                &&& texts_sorted(groups@[g].targets@)
            } by {
                if g != f {
                    assert(groups@[g] == before[g]);
                }
            }
        }
    }

    /// Starts a group with the target of entry `k`, whose calls no group runs.
    fn add_new_group(&self, groups: &mut Vec<CallGroup>, k: usize)
        requires
            self.wf(),
            k < self.entries@.len(),
            self.entries@[k as int].target is Some,
            self.groups_inv(old(groups)@, k as int),
            forall|g: int| 0 <= g < old(groups)@.len() ==> !same_calls(self.calls_of((#[trigger] old(groups)@[g]).entry as int), self.calls_of(k as int)),
        ensures
            self.groups_inv(final(groups)@, k + 1),
    {
        let ghost before = groups@;
        let t = self.entries[k].target.as_ref().unwrap().clone();
        let mut targets: Vec<String> = Vec::new();
        targets.push(t);
        let ng = CallGroup { targets, entry: k };
        let ghost ngv = ng;
        proof {
            reveal(EventCallback::inv_shape);
            assert(views(ngv.targets@) =~= seq![opt_view(self.entries@[k as int].target)->Some_0]);
        }
        self.insert_group(groups, ng);
        proof {
            let q = choose|q: int| 0 <= q <= before.len() && groups@ == before.insert(q, ngv);
            self.lemma_new_group(before, q, ngv, groups@, k as int);
        }
    }

    proof fn lemma_new_group(self, before: Seq<CallGroup>, q: int, ngv: CallGroup, after: Seq<CallGroup>, k: int)
        requires
            self.wf(),
            0 <= k < self.entries@.len(),
            self.entries@[k].target is Some,
            ngv.entry == k,
            ngv.targets@.len() == 1,
            views(ngv.targets@) == seq![opt_view(self.entries@[k].target)->Some_0],
            self.groups_inv(before, k),
            forall|g: int| 0 <= g < before.len() ==> !same_calls(self.calls_of((#[trigger] before[g]).entry as int), self.calls_of(k)),
            0 <= q <= before.len(),
            after == before.insert(q, ngv),
            self.groups_sorted(after),
        ensures
            self.groups_inv(after, k + 1),
    {
        self.lemma_new_group_shape(before, q, ngv, after, k);
        self.lemma_new_group_distinct(before, q, ngv, after, k);
        self.lemma_new_group_members(before, q, ngv, after, k);
        self.lemma_new_group_covers(before, q, ngv, after, k);
        reveal(EventCallback::inv_shape);
        reveal(EventCallback::inv_members);
        reveal(EventCallback::inv_covers);
        reveal(EventCallback::inv_distinct);
    }

    proof fn lemma_new_group_shape(self, before: Seq<CallGroup>, q: int, ngv: CallGroup, after: Seq<CallGroup>, k: int)
        requires
            0 <= k < self.entries@.len(),
            self.entries@[k].target is Some,
            ngv.entry == k,
            ngv.targets@.len() == 1,
            self.groups_inv(before, k),
            0 <= q <= before.len(),
            after == before.insert(q, ngv),
        ensures
            forall|g: int| #![trigger after[g]] 0 <= g < after.len() ==> {
                &&& after[g].entry < k + 1
                &&& self.entries@[after[g].entry as int].target is Some
                &&& after[g].targets@.len() > 0
                &&& texts_sorted(after[g].targets@)
            },
    {
        reveal(EventCallback::inv_shape);
        assert forall|g: int| #![trigger after[g]] 0 <= g < after.len() implies {
            &&& after[g].entry < k + 1
            &&& self.entries@[after[g].entry as int].target is Some
            &&& after[g].targets@.len() > 0
            &&& texts_sorted(after[g].targets@)
        } by {
            if g < q {
                assert(after[g] == before[g]);
            } else if g > q {
                assert(after[g] == before[g - 1]);
            }
        }
    }

    proof fn lemma_new_group_distinct(self, before: Seq<CallGroup>, q: int, ngv: CallGroup, after: Seq<CallGroup>, k: int)
        requires
            ngv.entry == k,
            self.groups_inv(before, k),
            forall|g: int| 0 <= g < before.len() ==> !same_calls(self.calls_of((#[trigger] before[g]).entry as int), self.calls_of(k)),
            0 <= q <= before.len(),
            after == before.insert(q, ngv),
        ensures
            forall|g1: int, g2: int| 0 <= g1 < after.len() && 0 <= g2 < after.len() && g1 != g2
                ==> !same_calls(self.calls_of((#[trigger] after[g1]).entry as int), self.calls_of((#[trigger] after[g2]).entry as int)),
    {
        reveal(EventCallback::inv_distinct);
        let kc = self.calls_of(k);
        assert forall|g1: int, g2: int| 0 <= g1 < after.len() && 0 <= g2 < after.len() && g1 != g2
            implies !same_calls(self.calls_of((#[trigger] after[g1]).entry as int), self.calls_of((#[trigger] after[g2]).entry as int)) by {
            if g1 == q {
                let o = if g2 < q { g2 } else { g2 - 1 };
                assert(after[g2] == before[o]);
                lemma_same_calls_symmetric(self.calls_of(before[o].entry as int), kc);
            } else if g2 == q {
                let o = if g1 < q { g1 } else { g1 - 1 };
                assert(after[g1] == before[o]);
            } else {
                let o1 = if g1 < q { g1 } else { g1 - 1 };
                let o2 = if g2 < q { g2 } else { g2 - 1 };
                assert(after[g1] == before[o1] && after[g2] == before[o2]);
            }
        }
    }

    proof fn lemma_new_group_members(self, before: Seq<CallGroup>, q: int, ngv: CallGroup, after: Seq<CallGroup>, k: int)
        requires
            0 <= k < self.entries@.len(),
            self.entries@[k].target is Some,
            ngv.entry == k,
            views(ngv.targets@) == seq![opt_view(self.entries@[k].target)->Some_0],
            self.groups_inv(before, k),
            0 <= q <= before.len(),
            after == before.insert(q, ngv),
        ensures
            forall|g: int, x: Seq<char>| #![trigger views(after[g].targets@).contains(x)] 0 <= g < after.len() && views(after[g].targets@).contains(x)
                ==> exists|kk: int| 0 <= kk < k + 1 && #[trigger] opt_view(self.entries@[kk].target) == Some(x)
                    && same_calls(self.calls_of(after[g].entry as int), self.calls_of(kk)),
    {
        reveal(EventCallback::inv_members);
        let kc = self.calls_of(k);
        assert forall|g: int, x: Seq<char>| #![trigger views(after[g].targets@).contains(x)] 0 <= g < after.len() && views(after[g].targets@).contains(x)
            implies exists|kk: int| 0 <= kk < k + 1 && #[trigger] opt_view(self.entries@[kk].target) == Some(x)
                && same_calls(self.calls_of(after[g].entry as int), self.calls_of(kk)) by {
            if g == q {
                lemma_same_calls_reflexive(kc);
                assert(views(ngv.targets@)[0] == x);
                assert(opt_view(self.entries@[k].target) == Some(x));
            } else {
                let o = if g < q { g } else { g - 1 };
                assert(after[g] == before[o]);
                assert(views(before[o].targets@).contains(x));
            }
        }
    }

    proof fn lemma_new_group_covers(self, before: Seq<CallGroup>, q: int, ngv: CallGroup, after: Seq<CallGroup>, k: int)
        requires
            0 <= k < self.entries@.len(),
            self.entries@[k].target is Some,
            views(ngv.targets@) == seq![opt_view(self.entries@[k].target)->Some_0],
            self.groups_inv(before, k),
            0 <= q <= before.len(),
            after == before.insert(q, ngv),
        ensures
            forall|kk: int| 0 <= kk < k + 1 && (#[trigger] self.entries@[kk]).target is Some ==> exists|g: int|
                0 <= g < after.len() && views((#[trigger] after[g]).targets@).contains(opt_view(self.entries@[kk].target)->Some_0),
    {
        reveal(EventCallback::inv_covers);
        assert forall|kk: int| 0 <= kk < k + 1 && (#[trigger] self.entries@[kk]).target is Some implies exists|g: int|
            0 <= g < after.len() && views((#[trigger] after[g]).targets@).contains(opt_view(self.entries@[kk].target)->Some_0) by {
            if kk == k {
                assert(after[q] == ngv);
                assert(views(after[q].targets@)[0] == opt_view(self.entries@[k].target)->Some_0);
            } else {
                let g0 = choose|g: int| 0 <= g < before.len() && views((#[trigger] before[g]).targets@).contains(opt_view(self.entries@[kk].target)->Some_0);
                let g1 = if g0 < q { g0 } else { g0 + 1 };
                assert(after[g1] == before[g0]);
            }
        }
    }

    /// The targets that are fields, grouped by the calls they run in the
    /// generated handler: every such target in
    /// exactly one group, the groups' calls pairwise different and in
    /// increasing order, the targets of a group in increasing order.
    pub fn call_groups(&self) -> (r: Vec<CallGroup>)
        requires
            self.wf(),
        ensures
            forall|g: int| #![trigger r@[g]] 0 <= g < r@.len() ==> {
                &&& r@[g].entry < self.entries@.len()
                &&& self.entries@[r@[g].entry as int].target is Some
                &&& r@[g].targets@.len() > 0
                &&& texts_sorted(r@[g].targets@)
            },
            forall|g: int, x: Seq<char>| #![trigger views(r@[g].targets@).contains(x)] 0 <= g < r@.len() && views(r@[g].targets@).contains(x)
                ==> exists|k: int| 0 <= k < self.entries@.len() && #[trigger] opt_view(self.entries@[k].target) == Some(x)
                    && same_calls(self.calls_of(r@[g].entry as int), self.calls_of(k)),
            forall|k: int| 0 <= k < self.entries@.len() && (#[trigger] self.entries@[k]).target is Some ==> exists|g: int|
                0 <= g < r@.len() && views((#[trigger] r@[g]).targets@).contains(opt_view(self.entries@[k].target)->Some_0),
            forall|g1: int, g2: int| 0 <= g1 < r@.len() && 0 <= g2 < r@.len() && g1 != g2
                ==> !same_calls(self.calls_of((#[trigger] r@[g1]).entry as int), self.calls_of((#[trigger] r@[g2]).entry as int)),
            self.groups_sorted(r@),
    {
        let n = self.entries.len();
        let mut groups: Vec<CallGroup> = Vec::new();
        let mut k: usize = 0;
        proof {
            reveal(EventCallback::inv_shape);
            reveal(EventCallback::inv_members);
            reveal(EventCallback::inv_covers);
            reveal(EventCallback::inv_distinct);
        }
        while k < n
            invariant
                n == self.entries@.len(),
                k <= n,
                self.wf(),
                self.groups_inv(groups@, k as int),
            decreases n - k,
        {
            if self.entries[k].target.is_none() {
                proof {
                    self.lemma_skip_entry(groups@, k as int);
                }
            } else {
                proof {
                    reveal(EventCallback::inv_shape);
                }
                match self.find_group(&groups, k) {
                    Some(f) => self.add_to_group(&mut groups, f, k),
                    None => self.add_new_group(&mut groups, k),
                }
            }
            k = k + 1;
        }
        proof {
            reveal(EventCallback::inv_shape);
            reveal(EventCallback::inv_members);
            reveal(EventCallback::inv_covers);
            reveal(EventCallback::inv_distinct);
        }
        groups
    }

    /// The entry for no target, if any: the calls a shortcut runs when no
    /// target matched.
    pub fn global_entry(&self) -> (r: Option<usize>)
        ensures
            match r {
                Some(k) => k < self.entries@.len() && self.entries@[k as int].target is None,
                None => forall|k: int| 0 <= k < self.entries@.len() ==> (#[trigger] self.entries@[k]).target is Some,
            },
    {
        let mut k: usize = 0;
        while k < self.entries.len()
            invariant
                k <= self.entries@.len(),
                forall|j: int| 0 <= j < k ==> (#[trigger] self.entries@[j]).target is Some,
            decreases self.entries@.len() - k,
        {
            if self.entries[k].target.is_none() {
                return Some(k);
            }
            k = k + 1;
        }
        None
    }
}

pub proof fn lemma_same_calls_reflexive(a: Seq<FunctionCall>)
    ensures
        same_calls(a, a),
{
}

pub proof fn lemma_same_calls_symmetric(a: Seq<FunctionCall>, b: Seq<FunctionCall>)
    ensures
        same_calls(a, b) == same_calls(b, a),
{
    if same_calls(a, b) {
        assert forall|i: int| 0 <= i < b.len() implies (#[trigger] b[i]).path.same(a[i].path) && views(b[i].args@) == views(a[i].args@) by {
            assert(a[i].path.same(b[i].path));
            assert forall|j: int| 0 <= j < b[i].path.segments@.len() implies (#[trigger] b[i].path.segments@[j]).same(a[i].path.segments@[j]) by {
                assert(a[i].path.segments@[j].same(b[i].path.segments@[j]));
            }
        }
    }
    if same_calls(b, a) {
        assert forall|i: int| 0 <= i < a.len() implies (#[trigger] a[i]).path.same(b[i].path) && views(a[i].args@) == views(b[i].args@) by {
            assert(b[i].path.same(a[i].path));
            assert forall|j: int| 0 <= j < a[i].path.segments@.len() implies (#[trigger] a[i].path.segments@[j]).same(b[i].path.segments@[j]) by {
                assert(b[i].path.segments@[j].same(a[i].path.segments@[j]));
            }
        }
    }
}

} // verus!
