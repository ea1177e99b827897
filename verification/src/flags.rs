//! The compressed flags syntax: `flags: "VISIBLE|DISABLED"` on a `Button`
//! becomes `ButtonFlags::VISIBLE|ButtonFlags::DISABLED`.

use vstd::prelude::*;
use crate::error::DeriveError;
use crate::params::{ExprKind, ParamExpr};
use crate::text::{char_at, char_len, from_str, push_char, push_str};

verus! {

/// The error message of the Rust expression parser on `text`, `None` when
/// `text` parses as one expression.
pub uninterp spec fn expr_parse_error(text: Seq<char>) -> Option<Seq<char>>;

/// Parses `text` as a Rust expression with `syn::parse_str::<syn::Expr>` and
/// keeps only the outcome: `None` on success, the error's message otherwise.
/// The contract names the outcome and claims nothing else.
#[verifier::external_body]
pub(crate) fn check_expr(text: &str) -> (r: Option<String>)
    ensures
        match r {
            Some(m) => expr_parse_error(text@) == Some(m@),
            None => expr_parse_error(text@) is None,
        },
{
    match syn::parse_str::<syn::Expr>(text) {
        Ok(_) => None,
        Err(e) => Some(e.to_string()),
    }
}

/// `value` with `prefix` before its first piece and after every `|`.
pub open spec fn flags_text(prefix: Seq<char>, value: Seq<char>) -> Seq<char> {
    prefix + bars_prefixed(prefix, value)
}

/// `value` where every `|` is followed by `prefix`.
pub open spec fn bars_prefixed(prefix: Seq<char>, value: Seq<char>) -> Seq<char>
    decreases value.len(),
{
    if value.len() == 0 {
        Seq::empty()
    } else {
        bars_prefixed(prefix, value.drop_last()) + if value.last() == '|' {
            seq!['|'] + prefix
        } else {
            seq![value.last()]
        }
    }
}

/// The flags type of control type `ty`: `<ty>Flags::`.
pub open spec fn flags_prefix(ty: Seq<char>) -> Seq<char> {
    ty + "Flags::"@
}

/// The compressed flags `value` of a control of type `ty`, written out:
/// `<ty>Flags::` before the first flag and after every `|`.
pub fn compressed_flags_text(ty: &str, value: &str) -> (r: String)
    ensures
        r@ == flags_text(flags_prefix(ty@), value@),
{
    let mut prefix = from_str(ty);
    push_str(&mut prefix, "Flags::");
    let mut text = prefix.clone();
    let n = char_len(value);
    let mut i: usize = 0;
    while i < n
        invariant
            n == value@.len(),
            i <= n,
            prefix@ == flags_prefix(ty@),
            text@ == prefix@ + bars_prefixed(prefix@, value@.take(i as int)),
        decreases n - i,
    {
        let c = char_at(value, i);
        assert(value@.take(i + 1).drop_last() =~= value@.take(i as int));
        if c == '|' {
            push_char(&mut text, '|');
            push_str(&mut text, prefix.as_str());
        } else {
            push_char(&mut text, c);
        }
        assert(text@ =~= prefix@ + bars_prefixed(prefix@, value@.take(i + 1)));
        i = i + 1;
    }
    assert(value@.take(n as int) =~= value@);
    text
}

/// The expanded flags `text` of control `member`, given the message of the
/// expression parser on it (`None`: it parsed as an expression).
pub fn flags_result(member: &str, text: String, parse_error: Option<String>) -> (r: Result<ParamExpr, DeriveError>)
    ensures
        match parse_error {
            None => r matches Ok(e) && e.text@ == text@ && e.kind is Other,
            Some(m) => r matches Err(DeriveError::FlagsUnparsable { member: mm, message }) && mm@ == member@ && message@ == m@,
        },
{
    match parse_error {
        None => Ok(ParamExpr::code(text)),
        Some(message) => Err(DeriveError::FlagsUnparsable { member: from_str(member), message }),
    }
}

/// Expands the compressed flags of control `member` of type `ty`.
pub fn expand_flags(member: &str, ty: &str, flags: &ParamExpr) -> (r: Result<ParamExpr, DeriveError>)
    ensures
        match flags.kind {
            ExprKind::Str(v) => {
                let t = flags_text(flags_prefix(ty@), v@);
                match expr_parse_error(t) {
                    None => r matches Ok(e) && e.text@ == t && e.kind is Other,
                    Some(m) => r matches Err(DeriveError::FlagsUnparsable { member: mm, message }) && mm@ == member@ && message@ == m,
                }
            },
            _ => r matches Err(DeriveError::FlagsNotStr { member: mm }) && mm@ == member@,
        },
{
    let value = match &flags.kind {
        ExprKind::Str(v) => v,
        _ => {
            return Err(DeriveError::FlagsNotStr { member: from_str(member) });
        },
    };
    let text = compressed_flags_text(ty, value.as_str());
    let parsed = check_expr(text.as_str());
    flags_result(member, text, parsed)
}

proof fn lemma_bars_prefixed_concat(prefix: Seq<char>, x: Seq<char>, y: Seq<char>)
    ensures
        bars_prefixed(prefix, x + y) == bars_prefixed(prefix, x) + bars_prefixed(prefix, y),
    decreases y.len(),
{
    if y.len() == 0 {
        assert(x + y =~= x);
        assert(bars_prefixed(prefix, x) + bars_prefixed(prefix, y) =~= bars_prefixed(prefix, x));
    } else {
        assert((x + y).drop_last() =~= x + y.drop_last());
        assert((x + y).last() == y.last());
        lemma_bars_prefixed_concat(prefix, x, y.drop_last());
        let tail: Seq<char> = if y.last() == '|' { seq!['|'] + prefix } else { seq![y.last()] };
        assert(bars_prefixed(prefix, x) + bars_prefixed(prefix, y.drop_last()) + tail =~= bars_prefixed(prefix, x) + (
        bars_prefixed(prefix, y.drop_last()) + tail));
    }
}

proof fn lemma_bars_prefixed_plain(prefix: Seq<char>, v: Seq<char>)
    requires
        !v.contains('|'),
    ensures
        bars_prefixed(prefix, v) == v,
    decreases v.len(),
{
    if v.len() > 0 {
        assert(v.last() == v[v.len() - 1]);
        assert(!v.drop_last().contains('|')) by {
            if v.drop_last().contains('|') {
                let j = choose|j: int| 0 <= j < v.drop_last().len() && v.drop_last()[j] == '|';
                assert(v[j] == '|');
            }
        }
        lemma_bars_prefixed_plain(prefix, v.drop_last());
        assert(v.drop_last().push(v.last()) =~= v);
        assert(v.drop_last() + seq![v.last()] =~= v);
    }
}

/// A single flag `v` (no `|` in it) on a control of type `ty` is written
/// `<ty>Flags::<v>`.
pub proof fn law_single_flag(ty: Seq<char>, v: Seq<char>)
    requires
        !v.contains('|'),
    ensures
        flags_text(flags_prefix(ty), v) == ty + "Flags::"@ + v,
{
    lemma_bars_prefixed_plain(flags_prefix(ty), v);
}

/// Flags joined by `|` are written out one by one: the text of `a|b` is the
/// text of `a`, a `|`, and the text of `b`, each with its own
/// `<ty>Flags::` in front. With the single flag law, every `|`-separated
/// piece gets the prefix.
pub proof fn law_flags_join(ty: Seq<char>, a: Seq<char>, b: Seq<char>)
    ensures
        flags_text(flags_prefix(ty), a + seq!['|'] + b) == flags_text(flags_prefix(ty), a) + seq!['|'] + flags_text(flags_prefix(ty), b),
{
    let p = flags_prefix(ty);
    lemma_bars_prefixed_concat(p, a + seq!['|'], b);
    lemma_bars_prefixed_concat(p, a, seq!['|']);
    let bar: Seq<char> = seq!['|'];
    assert(bar.drop_last() =~= Seq::<char>::empty());
    assert(bar.last() == '|');
    assert(bars_prefixed(p, bar.drop_last()) == Seq::<char>::empty());
    assert(bars_prefixed(p, bar) == bars_prefixed(p, bar.drop_last()) + (seq!['|'] + p));
    assert(bars_prefixed(p, bar) =~= seq!['|'] + p);
    assert(p + (bars_prefixed(p, a) + (seq!['|'] + p) + bars_prefixed(p, b)) =~= p + bars_prefixed(p, a) + seq!['|'] + (p + bars_prefixed(p, b)));
}

} // verus!
