//! The syntax of the crate's attributes, read from their tokens:
//! `nwg_events(..)`, `nwg_shortcuts(..)` and the `name: value` parameter
//! lists of the control attributes.
//!
//! The tokens are those of a Rust token stream: identifiers, punctuation
//! (with whether it is joined to the next character), literals and
//! delimited groups. Each piece that is a Rust expression, a generic
//! argument list, an identifier or a literal is handed to the Rust parser
//! (`syn`) on its text; the structure around those pieces is read here.

use vstd::prelude::*;
use crate::error::DeriveError;
use crate::events::{combo_ok, combos_all_ok, combos_of, ShortcutKeystrokes};
use crate::flags::{check_expr, expr_parse_error};
use crate::params::{
    opt_view, opt_views_of, views, CallbackDefinition, CallbackFunction, ExprKind, Param, ParamExpr, PathModel, PathSegment,
    ShortcutDefinition, AttrInfo,
};
use crate::text::{from_str, push_char, push_str};

verus! {

/// The delimiter of a group.
pub enum Delim {
    Paren,
    Bracket,
    Brace,
    /// An invisible group, as macro expansion makes.
    Invisible,
}

/// One token tree.
pub enum Tok {
    Ident(String),
    /// A punctuation character; `true` when the next character is joined
    /// to it (`:` in `::`).
    Punct(char, bool),
    /// A literal, by its source text.
    Literal(String),
    /// A delimited group: its delimiter, its tokens and its text.
    Group(Delim, Vec<Tok>, String),
}

// ---------------------------------------------------------------------------
// What the Rust parser says of single pieces.

/// Whether `text` reads as one identifier that is not a keyword.
pub uninterp spec fn ident_accepted(text: Seq<char>) -> bool;

/// Parses `text` with `syn::parse_str::<syn::Ident>` and keeps whether it
/// succeeded.
#[verifier::external_body]
fn accepts_ident(text: &str) -> (r: bool)
    ensures
        r == ident_accepted(text@),
{
    syn::parse_str::<syn::Ident>(text).is_ok()
}

/// Whether `text` reads as one path segment (an identifier, or one of
/// `self`, `super`, `crate`, `Self`).
pub uninterp spec fn segment_accepted(text: Seq<char>) -> bool;

/// Parses `text` with `syn::parse_str::<syn::PathSegment>` and keeps whether
/// it succeeded.
#[verifier::external_body]
fn accepts_segment(text: &str) -> (r: bool)
    ensures
        r == segment_accepted(text@),
{
    syn::parse_str::<syn::PathSegment>(text).is_ok()
}

/// Whether `text` reads as one generic argument list (`<..>` or `::<..>`).
pub uninterp spec fn generic_args_accepted(text: Seq<char>) -> bool;

/// Parses `text` with `syn::parse_str::<syn::AngleBracketedGenericArguments>`
/// and keeps whether it succeeded.
#[verifier::external_body]
fn accepts_generic_args(text: &str) -> (r: bool)
    ensures
        r == generic_args_accepted(text@),
{
    syn::parse_str::<syn::AngleBracketedGenericArguments>(text).is_ok()
}

/// `None` when `text` is not an integer literal; else its value when the
/// digits fit in a `u32`.
pub uninterp spec fn int_literal(text: Seq<char>) -> Option<Option<u32>>;

/// Parses `text` with `syn::parse_str::<syn::LitInt>` and, on success, reads
/// its value with `base10_parse::<u32>`.
#[verifier::external_body]
fn read_int_literal(text: &str) -> (r: Option<Option<u32>>)
    ensures
        r == int_literal(text@),
{
    match syn::parse_str::<syn::LitInt>(text) {
        Ok(lit) => Some(lit.base10_parse::<u32>().ok()),
        Err(_) => None,
    }
}

/// The value of the string literal `text`, `None` when it is not one.
pub uninterp spec fn str_literal(text: Seq<char>) -> Option<Seq<char>>;

/// Parses `text` with `syn::parse_str::<syn::LitStr>` and, on success, takes
/// its value (escapes resolved).
#[verifier::external_body]
fn read_str_literal(text: &str) -> (r: Option<String>)
    ensures
        match r {
            Some(v) => str_literal(text@) == Some(v@),
            None => str_literal(text@) is None,
        },
{
    match syn::parse_str::<syn::LitStr>(text) {
        Ok(lit) => Some(lit.value()),
        Err(_) => None,
    }
}

// ---------------------------------------------------------------------------
// Tokens and their text.

pub open spec fn tok_text(t: Tok) -> Seq<char> {
    match t {
        Tok::Ident(s) => s@,
        Tok::Punct(c, _) => seq![c],
        Tok::Literal(s) => s@,
        Tok::Group(_, _, s) => s@,
    }
}

/// The text of a token sequence: the tokens' texts, separated by a space
/// except after punctuation joined to the next character.
pub open spec fn render(s: Seq<Tok>) -> Seq<char>
    decreases s.len(),
{
    if s.len() == 0 {
        Seq::empty()
    } else if s.len() == 1 {
        tok_text(s[0])
    } else {
        render(s.drop_last()) + (if s[s.len() - 2] matches Tok::Punct(_, true) {
            Seq::empty()
        } else {
            seq![' ']
        }) + tok_text(s.last())
    }
}

/// Punctuation `c` at `i`.
pub open spec fn punct_at(s: Seq<Tok>, i: int, c: char) -> bool {
    0 <= i < s.len() && (s[i] matches Tok::Punct(ch, _) && ch == c)
}

/// Punctuation joined to the next character at `i`.
pub open spec fn joint_at(s: Seq<Tok>, i: int) -> bool {
    0 <= i < s.len() && s[i] matches Tok::Punct(_, true)
}

/// `::` at `i`.
pub open spec fn colons_at(s: Seq<Tok>, i: int) -> bool {
    punct_at(s, i, ':') && joint_at(s, i) && punct_at(s, i + 1, ':')
}

pub open spec fn is_delim(d: Delim, e: Delim) -> bool {
    match (d, e) {
        (Delim::Paren, Delim::Paren) => true,
        (Delim::Bracket, Delim::Bracket) => true,
        (Delim::Brace, Delim::Brace) => true,
        (Delim::Invisible, Delim::Invisible) => true,
        _ => false,
    }
}

/// A group delimited by `d` at `i`.
pub open spec fn group_at(s: Seq<Tok>, i: int, d: Delim) -> bool {
    0 <= i < s.len() && (s[i] matches Tok::Group(dd, _, _) && is_delim(dd, d))
}

pub open spec fn group_content(t: Tok) -> Seq<Tok> {
    match t {
        Tok::Group(_, v, _) => v@,
        _ => Seq::empty(),
    }
}

/// An identifier (not a keyword) at `i`.
pub open spec fn ident_at(s: Seq<Tok>, i: int) -> Option<Seq<char>> {
    if 0 <= i < s.len() && (s[i] matches Tok::Ident(n) && ident_accepted(n@)) {
        Some(s[i]->Ident_0@)
    } else {
        None
    }
}

fn tok_text_exec(t: &Tok) -> (r: String)
    ensures
        r@ == tok_text(*t),
{
    match t {
        Tok::Ident(s) => s.clone(),
        Tok::Punct(c, _) => {
            let mut r = String::new();
            push_char(&mut r, *c);
            assert(r@ =~= seq![*c]);
            r
        },
        Tok::Literal(s) => s.clone(),
        Tok::Group(_, _, s) => s.clone(),
    }
}

/// The text of the tokens `i..j`.
pub fn render_range(toks: &Vec<Tok>, i: usize, j: usize) -> (r: String)
    requires
        i <= j <= toks@.len(),
    ensures
        r@ == render(toks@.subrange(i as int, j as int)),
{
    let mut r = String::new();
    assert(r@ =~= render(toks@.subrange(i as int, i as int)));
    let mut k = i;
    while k < j
        invariant
            i <= k <= j,
            j <= toks@.len(),
            r@ == render(toks@.subrange(i as int, k as int)),
        decreases j - k,
    {
        let ghost before = r@;
        let ghost old_s = toks@.subrange(i as int, k as int);
        let ghost new_s = toks@.subrange(i as int, k as int + 1);
        assert(new_s.drop_last() =~= old_s);
        if k > i {
            let joined = match &toks[k - 1] {
                Tok::Punct(_, jn) => *jn,
                _ => false,
            };
            if !joined {
                push_char(&mut r, ' ');
            }
            assert(new_s[new_s.len() - 2] == toks@[k - 1]);
        }
        let ghost mid = r@;
        let t = tok_text_exec(&toks[k]);
        push_str(&mut r, t.as_str());
        proof {
            assert(new_s.last() == toks@[k as int]);
            if k == i {
                assert(before =~= Seq::empty());
                assert(r@ =~= render(new_s));
            } else {
                let sep: Seq<char> = if toks@[k - 1] matches Tok::Punct(_, true) { Seq::empty() } else { seq![' '] };
                assert(mid =~= before + sep);
                assert(r@ =~= before + sep + tok_text(toks@[k as int]));
            }
        }
        k = k + 1;
    }
    r
}

fn punct_is(toks: &Vec<Tok>, i: usize, c: char) -> (r: bool)
    ensures
        r == punct_at(toks@, i as int, c),
{
    if i < toks.len() {
        match &toks[i] {
            Tok::Punct(ch, _) => *ch == c,
            _ => false,
        }
    } else {
        false
    }
}

fn joint_is(toks: &Vec<Tok>, i: usize) -> (r: bool)
    ensures
        r == joint_at(toks@, i as int),
{
    if i < toks.len() {
        match &toks[i] {
            Tok::Punct(_, j) => *j,
            _ => false,
        }
    } else {
        false
    }
}

fn colons_is(toks: &Vec<Tok>, i: usize) -> (r: bool)
    ensures
        r == colons_at(toks@, i as int),
{
    i < toks.len() && punct_is(toks, i, ':') && joint_is(toks, i) && punct_is(toks, i + 1, ':')
}

fn group_is(toks: &Vec<Tok>, i: usize, d: &Delim) -> (r: bool)
    ensures
        r == group_at(toks@, i as int, *d),
{
    if i < toks.len() {
        match &toks[i] {
            Tok::Group(dd, _, _) => match (dd, d) {
                (Delim::Paren, Delim::Paren) => true,
                (Delim::Bracket, Delim::Bracket) => true,
                (Delim::Brace, Delim::Brace) => true,
                (Delim::Invisible, Delim::Invisible) => true,
                _ => false,
            },
            _ => false,
        }
    } else {
        false
    }
}

/// The tokens of the group at `i`.
fn content_of(toks: &Vec<Tok>, i: usize) -> (r: &Vec<Tok>)
    requires
        i < toks@.len(),
        toks@[i as int] is Group,
    ensures
        r@ == group_content(toks@[i as int]),
{
    match &toks[i] {
        Tok::Group(_, v, _) => v,
        _ => toks,
    }
}

fn ident_exec(toks: &Vec<Tok>, i: usize) -> (r: Option<String>)
    ensures
        opt_view(r) == ident_at(toks@, i as int),
{
    if i < toks.len() {
        match &toks[i] {
            Tok::Ident(n) => if accepts_ident(n.as_str()) {
                Some(n.clone())
            } else {
                None
            },
            _ => None,
        }
    } else {
        None
    }
}

// ---------------------------------------------------------------------------
// Lists of identifiers.

/// `IDENT (sep IDENT)*` from `i`: the identifiers and the position after.
pub open spec fn idents_sep(s: Seq<Tok>, i: int, sep: char) -> Option<(Seq<Seq<char>>, int)>
    decreases s.len() - i,
{
    match ident_at(s, i) {
        None => None,
        Some(id) => if punct_at(s, i + 1, sep) {
            match idents_sep(s, i + 2, sep) {
                None => None,
                Some((rest, e)) => Some((seq![id] + rest, e)),
            }
        } else {
            Some((seq![id], i + 1))
        },
    }
}

/// `IDENT, IDENT, ..` with an optional trailing comma, up to the end.
pub open spec fn idents_terminated(s: Seq<Tok>, i: int) -> Option<Seq<Seq<char>>>
    decreases s.len() - i,
{
    if i >= s.len() {
        Some(Seq::empty())
    } else {
        match ident_at(s, i) {
            None => None,
            Some(id) => if i + 1 >= s.len() {
                Some(seq![id])
            } else if punct_at(s, i + 1, ',') {
                match idents_terminated(s, i + 2) {
                    None => None,
                    Some(rest) => Some(seq![id] + rest),
                }
            } else {
                None
            },
        }
    }
}

pub proof fn lemma_idents_sep_range(s: Seq<Tok>, i: int, sep: char)
    ensures
        idents_sep(s, i, sep) matches Some((_, e)) ==> i < e <= s.len(),
    decreases s.len() - i,
{
    if ident_at(s, i) is Some && punct_at(s, i + 1, sep) {
        lemma_idents_sep_range(s, i + 2, sep);
    }
}

proof fn lemma_views_prepend(a: String, v: Seq<String>)
    ensures
        views(seq![a] + v) == seq![a@] + views(v),
{
    assert(views(seq![a] + v) =~= seq![a@] + views(v));
}

fn read_idents_sep(toks: &Vec<Tok>, i: usize, sep: char) -> (r: Option<(Vec<String>, usize)>)
    requires
        i <= toks@.len(),
    ensures
        match r {
            Some((v, e)) => idents_sep(toks@, i as int, sep) == Some((views(v@), e as int)),
            None => idents_sep(toks@, i as int, sep) is None,
        },
    decreases toks@.len() - i,
{
    if i >= toks.len() {
        return None;
    }
    match ident_exec(toks, i) {
        None => None,
        Some(id) => if punct_is(toks, i + 1, sep) {
            match read_idents_sep(toks, i + 2, sep) {
                None => None,
                Some((mut rest, e)) => {
                    let ghost old_rest = rest@;
                    rest.insert(0, id);
                    proof {
                        assert(rest@ =~= seq![id] + old_rest);
                        lemma_views_prepend(id, old_rest);
                    }
                    Some((rest, e))
                },
            }
        } else {
            let mut v = Vec::new();
            v.push(id);
            proof {
                assert(v@ =~= seq![id]);
                assert(views(v@) =~= seq![id@]);
            }
            Some((v, i + 1))
        },
    }
}

fn read_idents_terminated(toks: &Vec<Tok>, i: usize) -> (r: Option<Vec<String>>)
    ensures
        match r {
            Some(v) => idents_terminated(toks@, i as int) == Some(views(v@)),
            None => idents_terminated(toks@, i as int) is None,
        },
    decreases toks@.len() - i,
{
    if i >= toks.len() {
        let v: Vec<String> = Vec::new();
        assert(views(v@) =~= Seq::empty());
        return Some(v);
    }
    match ident_exec(toks, i) {
        None => None,
        Some(id) => if i + 1 >= toks.len() {
            let mut v = Vec::new();
            v.push(id);
            assert(views(v@) =~= seq![id@]);
            Some(v)
        } else if punct_is(toks, i + 1, ',') {
            match read_idents_terminated(toks, i + 2) {
                None => None,
                Some(mut rest) => {
                    let ghost old_rest = rest@;
                    rest.insert(0, id);
                    proof {
                        assert(rest@ =~= seq![id] + old_rest);
                        lemma_views_prepend(id, old_rest);
                    }
                    Some(rest)
                },
            }
        } else {
            None
        },
    }
}

// ---------------------------------------------------------------------------
// Expressions.

/// The first end `k >= from` of an expression that starts at `i`: at the
/// end of the tokens or before a `,`, where the tokens `i..k` read as one
/// Rust expression.
pub open spec fn expr_end(s: Seq<Tok>, i: int, from: int) -> Option<int>
    decreases s.len() + 1 - from,
{
    if from < i || from > s.len() {
        None
    } else if (from == s.len() || punct_at(s, from, ',')) && expr_parse_error(render(s.subrange(i, from))) is None {
        Some(from)
    } else {
        expr_end(s, i, from + 1)
    }
}

pub proof fn lemma_expr_end_range(s: Seq<Tok>, i: int, from: int)
    ensures
        expr_end(s, i, from) matches Some(k) ==> from <= k <= s.len() && i <= k,
    decreases s.len() + 1 - from,
{
    if !(from < i || from > s.len()) {
        lemma_expr_end_range(s, i, from + 1);
    }
}

fn find_expr_end(toks: &Vec<Tok>, i: usize, from: usize) -> (r: Option<usize>)
    requires
        i <= from,
    ensures
        match r {
            Some(k) => expr_end(toks@, i as int, from as int) == Some(k as int),
            None => expr_end(toks@, i as int, from as int) is None,
        },
    decreases toks@.len() + 1 - from,
{
    if from > toks.len() {
        return None;
    }
    if from == toks.len() || punct_is(toks, from, ',') {
        let text = render_range(toks, i, from);
        if check_expr(text.as_str()).is_none() {
            return Some(from);
        }
    }
    if from == toks.len() {
        assert(expr_end(toks@, i as int, from as int + 1) is None);
        return None;
    }
    find_expr_end(toks, i, from + 1)
}

/// `EXPR, EXPR, ..` with an optional trailing comma, up to the end: the
/// text of each expression.
pub open spec fn exprs_terminated(s: Seq<Tok>, i: int) -> Option<Seq<Seq<char>>>
    decreases s.len() - i,
{
    if i < 0 || i >= s.len() {
        Some(Seq::empty())
    } else {
        match expr_end(s, i, i + 1) {
            None => None,
            Some(k) => {
                proof {
                    lemma_expr_end_range(s, i, i + 1);
                }
                let text = render(s.subrange(i, k));
                if k >= s.len() {
                    Some(seq![text])
                } else {
                    match exprs_terminated(s, k + 1) {
                        None => None,
                        Some(rest) => Some(seq![text] + rest),
                    }
                }
            },
        }
    }
}

fn read_exprs_terminated(toks: &Vec<Tok>, i: usize) -> (r: Option<Vec<String>>)
    ensures
        match r {
            Some(v) => exprs_terminated(toks@, i as int) == Some(views(v@)),
            None => exprs_terminated(toks@, i as int) is None,
        },
    decreases toks@.len() - i,
{
    if i >= toks.len() {
        let v: Vec<String> = Vec::new();
        assert(views(v@) =~= Seq::empty());
        return Some(v);
    }
    match find_expr_end(toks, i, i + 1) {
        None => None,
        Some(k) => {
            proof {
                lemma_expr_end_range(toks@, i as int, i as int + 1);
            }
            let text = render_range(toks, i, k);
            if k >= toks.len() {
                let mut v = Vec::new();
                v.push(text);
                assert(views(v@) =~= seq![text@]);
                Some(v)
            } else {
                match read_exprs_terminated(toks, k + 1) {
                    None => None,
                    Some(mut rest) => {
                        let ghost old_rest = rest@;
                        rest.insert(0, text);
                        proof {
                            assert(rest@ =~= seq![text] + old_rest);
                            lemma_views_prepend(text, old_rest);
                        }
                        Some(rest)
                    },
                }
            }
        },
    }
}

// ---------------------------------------------------------------------------
// Paths.

/// A path as read: a leading `::`, and each segment's identifier with
/// whether it carries generic arguments.
pub type PathM = (bool, Seq<(Seq<char>, bool)>);

pub open spec fn path_view(p: PathModel) -> PathM {
    (p.leading_colon, p.segments@.map_values(|g: PathSegment| (g.ident@, g.has_arguments)))
}

/// A path segment's identifier at `i`.
pub open spec fn seg_ident_at(s: Seq<Tok>, i: int) -> Option<Seq<char>> {
    if 0 <= i < s.len() && (s[i] matches Tok::Ident(n) && segment_accepted(n@)) {
        Some(s[i]->Ident_0@)
    } else {
        None
    }
}

/// Generic arguments open at `i`: `::<`, or (outside expressions) `<` that
/// does not begin `<=` or `<<=`.
pub open spec fn args_open(s: Seq<Tok>, i: int, expr_style: bool) -> bool {
    ||| (!expr_style && punct_at(s, i, '<') && !(joint_at(s, i) && punct_at(s, i + 1, '='))
        && !(joint_at(s, i) && punct_at(s, i + 1, '<') && joint_at(s, i + 1) && punct_at(s, i + 2, '=')))
    ||| (colons_at(s, i) && punct_at(s, i + 2, '<'))
}

/// The first end `k >= from` of generic arguments that start at `i`: just
/// after a `>`, where the tokens `i..k` read as one generic argument list.
pub open spec fn args_end(s: Seq<Tok>, i: int, from: int) -> Option<int>
    decreases s.len() + 1 - from,
{
    if from < i || from > s.len() {
        None
    } else if punct_at(s, from - 1, '>') && generic_args_accepted(render(s.subrange(i, from))) {
        Some(from)
    } else {
        args_end(s, i, from + 1)
    }
}

pub proof fn lemma_args_end_range(s: Seq<Tok>, i: int, from: int)
    ensures
        args_end(s, i, from) matches Some(k) ==> from <= k <= s.len() && i <= k,
    decreases s.len() + 1 - from,
{
    if !(from < i || from > s.len()) {
        lemma_args_end_range(s, i, from + 1);
    }
}

/// One path segment at `i`, with its generic arguments if it has any.
pub open spec fn segment(s: Seq<Tok>, i: int, expr_style: bool) -> Option<((Seq<char>, bool), int)> {
    match seg_ident_at(s, i) {
        None => None,
        Some(id) => if args_open(s, i + 1, expr_style) {
            match args_end(s, i + 1, i + 2) {
                None => None,
                Some(e) => Some(((id, true), e)),
            }
        } else {
            Some(((id, false), i + 1))
        },
    }
}

pub proof fn lemma_segment_range(s: Seq<Tok>, i: int, expr_style: bool)
    ensures
        segment(s, i, expr_style) matches Some((_, e)) ==> 0 <= i < e <= s.len(),
{
    lemma_args_end_range(s, i + 1, i + 2);
}

/// `:: SEGMENT` repeated from `i`, stopping before `::(`.
pub open spec fn segments_rest(s: Seq<Tok>, i: int, expr_style: bool) -> Option<(Seq<(Seq<char>, bool)>, int)>
    decreases s.len() - i,
{
    if colons_at(s, i) && !group_at(s, i + 2, Delim::Paren) {
        match segment(s, i + 2, expr_style) {
            None => None,
            Some((g, j)) => {
                proof {
                    lemma_segment_range(s, i + 2, expr_style);
                }
                match segments_rest(s, j, expr_style) {
                    None => None,
                    Some((rest, e)) => Some((seq![g] + rest, e)),
                }
            },
        }
    } else {
        Some((Seq::empty(), i))
    }
}

pub proof fn lemma_segments_rest_range(s: Seq<Tok>, i: int, expr_style: bool)
    ensures
        segments_rest(s, i, expr_style) matches Some((_, e)) ==> i <= e && (e <= s.len() || e == i),
    decreases s.len() - i,
{
    if colons_at(s, i) && !group_at(s, i + 2, Delim::Paren) {
        lemma_segment_range(s, i + 2, expr_style);
        if let Some((g, j)) = segment(s, i + 2, expr_style) {
            lemma_segments_rest_range(s, j, expr_style);
        }
    }
}

/// A path at `i`: an optional leading `::`, then segments joined by `::`.
pub open spec fn path_at(s: Seq<Tok>, i: int, expr_style: bool) -> Option<(PathM, int)> {
    let lead = colons_at(s, i);
    let j = if lead { i + 2 } else { i };
    match segment(s, j, expr_style) {
        None => None,
        Some((g, k)) => match segments_rest(s, k, expr_style) {
            None => None,
            Some((rest, e)) => Some(((lead, seq![g] + rest), e)),
        },
    }
}

pub proof fn lemma_path_range(s: Seq<Tok>, i: int, expr_style: bool)
    ensures
        path_at(s, i, expr_style) matches Some((_, e)) ==> 0 <= i < e <= s.len(),
{
    let j = if colons_at(s, i) { i + 2 } else { i };
    lemma_segment_range(s, j, expr_style);
    if let Some((g, k)) = segment(s, j, expr_style) {
        lemma_segments_rest_range(s, k, expr_style);
    }
}

fn find_args_end(toks: &Vec<Tok>, i: usize, from: usize) -> (r: Option<usize>)
    requires
        i <= from,
    ensures
        match r {
            Some(k) => args_end(toks@, i as int, from as int) == Some(k as int),
            None => args_end(toks@, i as int, from as int) is None,
        },
    decreases toks@.len() + 1 - from,
{
    if from > toks.len() {
        return None;
    }
    if from >= 1 && punct_is(toks, from - 1, '>') {
        let text = render_range(toks, i, from);
        if accepts_generic_args(text.as_str()) {
            return Some(from);
        }
    }
    if from == toks.len() {
        assert(args_end(toks@, i as int, from as int + 1) is None);
        return None;
    }
    find_args_end(toks, i, from + 1)
}

fn args_open_exec(toks: &Vec<Tok>, i: usize, expr_style: bool) -> (r: bool)
    ensures
        r == args_open(toks@, i as int, expr_style),
{
    if i >= toks.len() {
        return false;
    }
    let plain = !expr_style && punct_is(toks, i, '<') && !(joint_is(toks, i) && punct_is(toks, i + 1, '='))
        && !(joint_is(toks, i) && punct_is(toks, i + 1, '<') && joint_is(toks, i + 1) && i + 2 <= toks.len() && punct_is(toks, i + 2, '='));
    plain || (colons_is(toks, i) && punct_is(toks, i + 2, '<'))
}

fn read_segment(toks: &Vec<Tok>, i: usize, expr_style: bool) -> (r: Option<(PathSegment, usize)>)
    ensures
        match r {
            Some((g, e)) => segment(toks@, i as int, expr_style) == Some(((g.ident@, g.has_arguments), e as int)),
            None => segment(toks@, i as int, expr_style) is None,
        },
{
    if i >= toks.len() {
        return None;
    }
    let id = match &toks[i] {
        Tok::Ident(n) => if accepts_segment(n.as_str()) {
            n.clone()
        } else {
            return None;
        },
        _ => {
            return None;
        },
    };
    if args_open_exec(toks, i + 1, expr_style) {
        match find_args_end(toks, i + 1, i + 2) {
            None => None,
            Some(e) => Some((PathSegment { ident: id, has_arguments: true }, e)),
        }
    } else {
        Some((PathSegment { ident: id, has_arguments: false }, i + 1))
    }
}

proof fn lemma_segs_prepend(a: PathSegment, v: Seq<PathSegment>)
    ensures
        (seq![a] + v).map_values(|g: PathSegment| (g.ident@, g.has_arguments)) == seq![(a.ident@, a.has_arguments)] + v.map_values(
            |g: PathSegment| (g.ident@, g.has_arguments),
        ),
{
    assert((seq![a] + v).map_values(|g: PathSegment| (g.ident@, g.has_arguments)) =~= seq![(a.ident@, a.has_arguments)] + v.map_values(
        |g: PathSegment| (g.ident@, g.has_arguments),
    ));
}

fn read_segments_rest(toks: &Vec<Tok>, i: usize, expr_style: bool) -> (r: Option<(Vec<PathSegment>, usize)>)
    ensures
        match r {
            Some((v, e)) => segments_rest(toks@, i as int, expr_style) == Some((v@.map_values(|g: PathSegment| (g.ident@, g.has_arguments)), e as int)),
            None => segments_rest(toks@, i as int, expr_style) is None,
        },
    decreases toks@.len() - i,
{
    if i < toks.len() && i + 1 < toks.len() && colons_is(toks, i) && !group_is(toks, i + 2, &Delim::Paren) {
        match read_segment(toks, i + 2, expr_style) {
            None => None,
            Some((g, j)) => {
                proof {
                    lemma_segment_range(toks@, i as int + 2, expr_style);
                }
                match read_segments_rest(toks, j, expr_style) {
                    None => None,
                    Some((mut rest, e)) => {
                        let ghost old_rest = rest@;
                        let ghost gg = g;
                        rest.insert(0, g);
                        proof {
                            assert(rest@ =~= seq![gg] + old_rest);
                            lemma_segs_prepend(gg, old_rest);
                        }
                        Some((rest, e))
                    },
                }
            },
        }
    } else {
        let v: Vec<PathSegment> = Vec::new();
        assert(v@.map_values(|g: PathSegment| (g.ident@, g.has_arguments)) =~= Seq::empty());
        Some((v, i))
    }
}

fn read_path(toks: &Vec<Tok>, i: usize, expr_style: bool) -> (r: Option<(PathModel, usize)>)
    ensures
        match r {
            Some((p, e)) => path_at(toks@, i as int, expr_style) == Some((path_view(p), e as int)),
            None => path_at(toks@, i as int, expr_style) is None,
        },
{
    let lead = i < toks.len() && i + 1 < toks.len() && colons_is(toks, i);
    let j = if lead { i + 2 } else { i };
    match read_segment(toks, j, expr_style) {
        None => None,
        Some((g, k)) => match read_segments_rest(toks, k, expr_style) {
            None => None,
            Some((mut rest, e)) => {
                let ghost old_rest = rest@;
                let ghost gg = g;
                rest.insert(0, g);
                proof {
                    assert(rest@ =~= seq![gg] + old_rest);
                    lemma_segs_prepend(gg, old_rest);
                }
                Some((PathModel { leading_colon: lead, segments: rest }, e))
            },
        },
    }
}

// ---------------------------------------------------------------------------
// Callbacks: `path` or `path(ARG, ..)`.

pub type CallbackM = (PathM, Seq<char>, Option<Seq<Seq<char>>>);

pub open spec fn cb_view(c: CallbackFunction) -> CallbackM {
    (path_view(c.path), c.path_text@, opt_views_of(c.args))
}

pub open spec fn cb_views(v: Seq<CallbackFunction>) -> Seq<CallbackM> {
    v.map_values(|c: CallbackFunction| cb_view(c))
}

/// A callback at `i`: a path, then its arguments in parentheses if any.
pub open spec fn callback_at(s: Seq<Tok>, i: int) -> Option<(CallbackM, int)> {
    match path_at(s, i, false) {
        None => None,
        Some((p, j)) => {
            let text = render(s.subrange(i, j));
            if group_at(s, j, Delim::Paren) {
                match idents_terminated(group_content(s[j]), 0) {
                    None => None,
                    Some(a) => Some(((p, text, Some(a)), j + 1)),
                }
            } else {
                Some(((p, text, None), j))
            }
        },
    }
}

pub proof fn lemma_callback_range(s: Seq<Tok>, i: int)
    ensures
        callback_at(s, i) matches Some((_, e)) ==> 0 <= i < e <= s.len(),
{
    lemma_path_range(s, i, false);
}

/// `CALLBACK, CALLBACK, ..` with an optional trailing comma, up to the end.
pub open spec fn callbacks_terminated(s: Seq<Tok>, i: int) -> Option<Seq<CallbackM>>
    decreases s.len() - i,
{
    if i < 0 || i >= s.len() {
        Some(Seq::empty())
    } else {
        match callback_at(s, i) {
            None => None,
            Some((c, j)) => {
                proof {
                    lemma_callback_range(s, i);
                }
                if j >= s.len() {
                    Some(seq![c])
                } else if punct_at(s, j, ',') {
                    match callbacks_terminated(s, j + 1) {
                        None => None,
                        Some(rest) => Some(seq![c] + rest),
                    }
                } else {
                    None
                }
            },
        }
    }
}

fn read_callback(toks: &Vec<Tok>, i: usize) -> (r: Option<(CallbackFunction, usize)>)
    ensures
        match r {
            Some((c, e)) => callback_at(toks@, i as int) == Some((cb_view(c), e as int)),
            None => callback_at(toks@, i as int) is None,
        },
{
    let len = toks.len();
    assert(len == toks@.len());
    match read_path(toks, i, false) {
        None => None,
        Some((p, j)) => {
            proof {
                lemma_path_range(toks@, i as int, false);
            }
            let text = render_range(toks, i, j);
            if group_is(toks, j, &Delim::Paren) {
                match read_idents_terminated(content_of(toks, j), 0) {
                    None => None,
                    Some(a) => Some((CallbackFunction { path: p, path_text: text, args: Some(a) }, j + 1)),
                }
            } else {
                Some((CallbackFunction { path: p, path_text: text, args: None }, j))
            }
        },
    }
}

fn read_callbacks_terminated(toks: &Vec<Tok>, i: usize) -> (r: Option<Vec<CallbackFunction>>)
    ensures
        match r {
            Some(v) => callbacks_terminated(toks@, i as int) == Some(cb_views(v@)),
            None => callbacks_terminated(toks@, i as int) is None,
        },
    decreases toks@.len() - i,
{
    if i >= toks.len() {
        let v: Vec<CallbackFunction> = Vec::new();
        assert(cb_views(v@) =~= Seq::empty());
        return Some(v);
    }
    match read_callback(toks, i) {
        None => None,
        Some((c, j)) => {
            proof {
                lemma_callback_range(toks@, i as int);
            }
            let ghost cc = c;
            if j >= toks.len() {
                let mut v = Vec::new();
                v.push(c);
                assert(cb_views(v@) =~= seq![cb_view(cc)]);
                Some(v)
            } else if punct_is(toks, j, ',') {
                match read_callbacks_terminated(toks, j + 1) {
                    None => None,
                    Some(mut rest) => {
                        let ghost old_rest = rest@;
                        rest.insert(0, c);
                        assert(cb_views(rest@) =~= seq![cb_view(cc)] + cb_views(old_rest));
                        Some(rest)
                    },
                }
            } else {
                None
            }
        },
    }
}

// ---------------------------------------------------------------------------
// Definitions: `(TARGETS,*)? NAMES: [CALLBACKS,*]`.

/// The targets in parentheses at `i`, if there are any.
pub open spec fn targets_at(s: Seq<Tok>, i: int) -> Option<(Option<Seq<Seq<char>>>, int)> {
    if group_at(s, i, Delim::Paren) {
        match exprs_terminated(group_content(s[i]), 0) {
            None => None,
            Some(t) => Some((Some(t), i + 1)),
        }
    } else {
        Some((None, i))
    }
}

/// `: [CALLBACKS,*]` at `i`.
pub open spec fn callbacks_after(s: Seq<Tok>, i: int) -> Option<(Seq<CallbackM>, int)> {
    if punct_at(s, i, ':') && group_at(s, i + 1, Delim::Bracket) {
        match callbacks_terminated(group_content(s[i + 1]), 0) {
            None => None,
            Some(c) => Some((c, i + 2)),
        }
    } else {
        None
    }
}

/// The event names at `i`: in brackets, or one or more joined by `,`.
pub open spec fn event_ids_at(s: Seq<Tok>, i: int) -> Option<(Seq<Seq<char>>, int)> {
    if group_at(s, i, Delim::Bracket) {
        match idents_terminated(group_content(s[i]), 0) {
            None => None,
            Some(v) => Some((v, i + 1)),
        }
    } else {
        idents_sep(s, i, ',')
    }
}

pub type EventDefM = (Option<Seq<Seq<char>>>, Seq<Seq<char>>, Seq<CallbackM>);

pub open spec fn event_def_view(d: CallbackDefinition) -> EventDefM {
    (opt_views_of(d.field_names), views(d.callback_ids@), cb_views(d.callbacks@))
}

pub open spec fn event_def_views(v: Seq<CallbackDefinition>) -> Seq<EventDefM> {
    v.map_values(|d: CallbackDefinition| event_def_view(d))
}

/// One event definition at `i`.
pub open spec fn event_def_at(s: Seq<Tok>, i: int) -> Option<(EventDefM, int)> {
    match targets_at(s, i) {
        None => None,
        Some((t, j)) => match event_ids_at(s, j) {
            None => None,
            Some((ids, k)) => match callbacks_after(s, k) {
                None => None,
                Some((c, e)) => Some(((t, ids, c), e)),
            },
        },
    }
}

pub proof fn lemma_event_def_range(s: Seq<Tok>, i: int)
    ensures
        event_def_at(s, i) matches Some((_, e)) ==> 0 <= i < e <= s.len(),
{
    if let Some((t, j)) = targets_at(s, i) {
        lemma_idents_sep_range(s, j, ',');
    }
}

/// The event definitions of an attribute, joined by `,` with an optional
/// trailing comma.
pub open spec fn event_defs(s: Seq<Tok>, i: int) -> Option<Seq<EventDefM>>
    decreases s.len() - i,
{
    if i < 0 || i >= s.len() {
        Some(Seq::empty())
    } else {
        match event_def_at(s, i) {
            None => None,
            Some((d, j)) => {
                proof {
                    lemma_event_def_range(s, i);
                }
                if j >= s.len() {
                    Some(seq![d])
                } else if punct_at(s, j, ',') {
                    match event_defs(s, j + 1) {
                        None => None,
                        Some(rest) => Some(seq![d] + rest),
                    }
                } else {
                    None
                }
            },
        }
    }
}

fn read_targets(toks: &Vec<Tok>, i: usize) -> (r: Result<(Option<Vec<String>>, usize), String>)
    ensures
        match r {
            Ok((t, e)) => targets_at(toks@, i as int) == Some((opt_views_of(t), e as int)),
            Err(_) => targets_at(toks@, i as int) is None,
        },
{
    let len = toks.len();
    assert(len == toks@.len());
    if group_is(toks, i, &Delim::Paren) {
        match read_exprs_terminated(content_of(toks, i), 0) {
            None => Err(from_str("expected an expression")),
            Some(t) => Ok((Some(t), i + 1)),
        }
    } else {
        Ok((None, i))
    }
}

fn read_callbacks_after(toks: &Vec<Tok>, i: usize) -> (r: Result<(Vec<CallbackFunction>, usize), String>)
    requires
        i <= toks@.len(),
    ensures
        match r {
            Ok((c, e)) => callbacks_after(toks@, i as int) == Some((cb_views(c@), e as int)),
            Err(_) => callbacks_after(toks@, i as int) is None,
        },
{
    let len = toks.len();
    assert(len == toks@.len());
    if !punct_is(toks, i, ':') {
        return Err(from_str("expected `:`"));
    }
    if !group_is(toks, i + 1, &Delim::Bracket) {
        return Err(from_str("expected square brackets"));
    }
    match read_callbacks_terminated(content_of(toks, i + 1), 0) {
        None => Err(from_str("expected a callback path")),
        Some(c) => Ok((c, i + 2)),
    }
}

fn read_event_ids(toks: &Vec<Tok>, i: usize) -> (r: Result<(Vec<String>, usize), String>)
    requires
        i <= toks@.len(),
    ensures
        match r {
            Ok((v, e)) => event_ids_at(toks@, i as int) == Some((views(v@), e as int)),
            Err(_) => event_ids_at(toks@, i as int) is None,
        },
{
    let len = toks.len();
    assert(len == toks@.len());
    if group_is(toks, i, &Delim::Bracket) {
        match read_idents_terminated(content_of(toks, i), 0) {
            None => Err(from_str("expected identifier")),
            Some(v) => Ok((v, i + 1)),
        }
    } else {
        match read_idents_sep(toks, i, ',') {
            None => Err(from_str("expected identifier")),
            Some((v, e)) => Ok((v, e)),
        }
    }
}

fn read_event_def(toks: &Vec<Tok>, i: usize) -> (r: Result<(CallbackDefinition, usize), String>)
    ensures
        match r {
            Ok((d, e)) => event_def_at(toks@, i as int) == Some((event_def_view(d), e as int)),
            Err(_) => event_def_at(toks@, i as int) is None,
        },
{
    let (t, j) = read_targets(toks, i)?;
    if j > toks.len() {
        return Err(from_str("unexpected end of input"));
    }
    let (ids, k) = read_event_ids(toks, j)?;
    proof {
        lemma_idents_sep_range(toks@, j as int, ',');
    }
    let (c, e) = read_callbacks_after(toks, k)?;
    Ok((CallbackDefinition { field_names: t, callback_ids: ids, callbacks: c }, e))
}

fn read_event_defs(toks: &Vec<Tok>, i: usize) -> (r: Result<Vec<CallbackDefinition>, String>)
    ensures
        match r {
            Ok(v) => event_defs(toks@, i as int) == Some(event_def_views(v@)),
            Err(_) => event_defs(toks@, i as int) is None,
        },
    decreases toks@.len() - i,
{
    if i >= toks.len() {
        let v: Vec<CallbackDefinition> = Vec::new();
        assert(event_def_views(v@) =~= Seq::empty());
        return Ok(v);
    }
    let (d, j) = read_event_def(toks, i)?;
    proof {
        lemma_event_def_range(toks@, i as int);
    }
    let ghost dd = d;
    if j >= toks.len() {
        let mut v = Vec::new();
        v.push(d);
        assert(event_def_views(v@) =~= seq![event_def_view(dd)]);
        Ok(v)
    } else if punct_is(toks, j, ',') {
        let mut rest = read_event_defs(toks, j + 1)?;
        let ghost old_rest = rest@;
        rest.insert(0, d);
        assert(event_def_views(rest@) =~= seq![event_def_view(dd)] + event_def_views(old_rest));
        Ok(rest)
    } else {
        Err(from_str("expected `,`"))
    }
}

/// Reads the arguments of `#[nwg_events(..)]`: event definitions joined by
/// `,`, each `(TARGETS,*)? EVENTS: [CALLBACKS,*]` where the events are one or
/// more identifiers joined by `,`, or a bracketed list of them.
pub fn parse_callback_definitions(toks: &Vec<Tok>) -> (r: Result<Vec<CallbackDefinition>, String>)
    ensures
        r is Ok <==> event_defs(toks@, 0) is Some,
        r is Ok ==> event_defs(toks@, 0) == Some(event_def_views(r->Ok_0@)),
{
    read_event_defs(toks, 0)
}

// ---------------------------------------------------------------------------
// Shortcut definitions: `(TARGETS,*)? KEYS: [CALLBACKS,*]`.

/// A key combination at `i`: identifiers joined by `+`, naming exactly one
/// key besides the modifiers.
pub open spec fn combo_at(s: Seq<Tok>, i: int) -> Option<(Seq<Seq<char>>, int)> {
    match idents_sep(s, i, '+') {
        None => None,
        Some((c, e)) => if combo_ok(c) {
            Some((c, e))
        } else {
            None
        },
    }
}

/// One or more key combinations joined by `,`.
pub open spec fn combos_sep(s: Seq<Tok>, i: int) -> Option<(Seq<Seq<Seq<char>>>, int)>
    decreases s.len() - i,
{
    match combo_at(s, i) {
        None => None,
        Some((c, j)) => {
            proof {
                lemma_idents_sep_range(s, i, '+');
            }
            if punct_at(s, j, ',') {
                match combos_sep(s, j + 1) {
                    None => None,
                    Some((rest, e)) => Some((seq![c] + rest, e)),
                }
            } else {
                Some((seq![c], j))
            }
        },
    }
}

pub proof fn lemma_combos_sep_range(s: Seq<Tok>, i: int)
    ensures
        combos_sep(s, i) matches Some((_, e)) ==> 0 <= i < e <= s.len(),
    decreases s.len() - i,
{
    lemma_idents_sep_range(s, i, '+');
    if let Some((c, j)) = combo_at(s, i) {
        if punct_at(s, j, ',') {
            lemma_combos_sep_range(s, j + 1);
        }
    }
}

/// Key combinations joined by `,` with an optional trailing comma, up to
/// the end.
pub open spec fn combos_terminated(s: Seq<Tok>, i: int) -> Option<Seq<Seq<Seq<char>>>>
    decreases s.len() - i,
{
    if i < 0 || i >= s.len() {
        Some(Seq::empty())
    } else {
        match combo_at(s, i) {
            None => None,
            Some((c, j)) => {
                proof {
                    lemma_idents_sep_range(s, i, '+');
                }
                if j >= s.len() {
                    Some(seq![c])
                } else if punct_at(s, j, ',') {
                    match combos_terminated(s, j + 1) {
                        None => None,
                        Some(rest) => Some(seq![c] + rest),
                    }
                } else {
                    None
                }
            },
        }
    }
}

/// The key combinations at `i`: in brackets, or one or more joined by `,`.
pub open spec fn keys_at(s: Seq<Tok>, i: int) -> Option<(Seq<Seq<Seq<char>>>, int)> {
    if group_at(s, i, Delim::Bracket) {
        match combos_terminated(group_content(s[i]), 0) {
            None => None,
            Some(v) => Some((v, i + 1)),
        }
    } else {
        combos_sep(s, i)
    }
}

pub type ShortcutDefM = (Option<Seq<Seq<char>>>, Seq<Seq<Seq<char>>>, Seq<CallbackM>);

pub open spec fn combo_views(v: Seq<Vec<String>>) -> Seq<Seq<Seq<char>>> {
    v.map_values(|c: Vec<String>| views(c@))
}

pub open spec fn shortcut_def_view(d: ShortcutDefinition) -> ShortcutDefM {
    (opt_views_of(d.field_names), combo_views(d.key_combos@), cb_views(d.callbacks@))
}

pub open spec fn shortcut_def_views(v: Seq<ShortcutDefinition>) -> Seq<ShortcutDefM> {
    v.map_values(|d: ShortcutDefinition| shortcut_def_view(d))
}

/// One shortcut definition at `i`.
pub open spec fn shortcut_def_at(s: Seq<Tok>, i: int) -> Option<(ShortcutDefM, int)> {
    match targets_at(s, i) {
        None => None,
        Some((t, j)) => match keys_at(s, j) {
            None => None,
            Some((keys, k)) => match callbacks_after(s, k) {
                None => None,
                Some((c, e)) => Some(((t, keys, c), e)),
            },
        },
    }
}

pub proof fn lemma_shortcut_def_range(s: Seq<Tok>, i: int)
    ensures
        shortcut_def_at(s, i) matches Some((_, e)) ==> 0 <= i < e <= s.len(),
{
    if let Some((t, j)) = targets_at(s, i) {
        lemma_combos_sep_range(s, j);
    }
}

/// The shortcut definitions of an attribute, joined by `,` with an optional
/// trailing comma.
pub open spec fn shortcut_defs(s: Seq<Tok>, i: int) -> Option<Seq<ShortcutDefM>>
    decreases s.len() - i,
{
    if i < 0 || i >= s.len() {
        Some(Seq::empty())
    } else {
        match shortcut_def_at(s, i) {
            None => None,
            Some((d, j)) => {
                proof {
                    lemma_shortcut_def_range(s, i);
                }
                if j >= s.len() {
                    Some(seq![d])
                } else if punct_at(s, j, ',') {
                    match shortcut_defs(s, j + 1) {
                        None => None,
                        Some(rest) => Some(seq![d] + rest),
                    }
                } else {
                    None
                }
            },
        }
    }
}

/// The message of a key combination that does not name exactly one key.
fn combo_message(e: DeriveError) -> (r: String) {
    match e {
        DeriveError::ExtraShortcutKey { key } => {
            let mut m = from_str("extra key found: `");
            push_str(&mut m, key.as_str());
            push_str(&mut m, "` when mapping nwg_shortcuts");
            m
        },
        _ => from_str("no key found when mapping nwg_shortcuts"),
    }
}

fn read_combo(toks: &Vec<Tok>, i: usize) -> (r: Result<(Vec<String>, usize), String>)
    requires
        i <= toks@.len(),
    ensures
        match r {
            Ok((v, e)) => combo_at(toks@, i as int) == Some((views(v@), e as int)),
            Err(_) => combo_at(toks@, i as int) is None,
        },
{
    match read_idents_sep(toks, i, '+') {
        None => Err(from_str("expected identifier")),
        Some((names, e)) => match ShortcutKeystrokes::parse(&names) {
            Ok(_) => Ok((names, e)),
            Err(err) => Err(combo_message(err)),
        },
    }
}

proof fn lemma_combo_views_prepend(a: Vec<String>, v: Seq<Vec<String>>)
    ensures
        combo_views(seq![a] + v) == seq![views(a@)] + combo_views(v),
{
    assert(combo_views(seq![a] + v) =~= seq![views(a@)] + combo_views(v));
}

fn read_combos_sep(toks: &Vec<Tok>, i: usize) -> (r: Result<(Vec<Vec<String>>, usize), String>)
    requires
        i <= toks@.len(),
    ensures
        match r {
            Ok((v, e)) => combos_sep(toks@, i as int) == Some((combo_views(v@), e as int)),
            Err(_) => combos_sep(toks@, i as int) is None,
        },
    decreases toks@.len() - i,
{
    let len = toks.len();
    assert(len == toks@.len());
    let (c, j) = read_combo(toks, i)?;
    proof {
        lemma_idents_sep_range(toks@, i as int, '+');
    }
    let ghost cc = c;
    if punct_is(toks, j, ',') {
        let (mut rest, e) = read_combos_sep(toks, j + 1)?;
        let ghost old_rest = rest@;
        rest.insert(0, c);
        proof {
            assert(rest@ =~= seq![cc] + old_rest);
            lemma_combo_views_prepend(cc, old_rest);
        }
        Ok((rest, e))
    } else {
        let mut v = Vec::new();
        v.push(c);
        assert(combo_views(v@) =~= seq![views(cc@)]);
        Ok((v, j))
    }
}

fn read_combos_terminated(toks: &Vec<Tok>, i: usize) -> (r: Result<Vec<Vec<String>>, String>)
    ensures
        match r {
            Ok(v) => combos_terminated(toks@, i as int) == Some(combo_views(v@)),
            Err(_) => combos_terminated(toks@, i as int) is None,
        },
    decreases toks@.len() - i,
{
    if i >= toks.len() {
        let v: Vec<Vec<String>> = Vec::new();
        assert(combo_views(v@) =~= Seq::empty());
        return Ok(v);
    }
    let (c, j) = read_combo(toks, i)?;
    proof {
        lemma_idents_sep_range(toks@, i as int, '+');
    }
    let ghost cc = c;
    if j >= toks.len() {
        let mut v = Vec::new();
        v.push(c);
        assert(combo_views(v@) =~= seq![views(cc@)]);
        Ok(v)
    } else if punct_is(toks, j, ',') {
        let mut rest = read_combos_terminated(toks, j + 1)?;
        let ghost old_rest = rest@;
        rest.insert(0, c);
        proof {
            assert(rest@ =~= seq![cc] + old_rest);
            lemma_combo_views_prepend(cc, old_rest);
        }
        Ok(rest)
    } else {
        Err(from_str("expected `,`"))
    }
}

fn read_keys(toks: &Vec<Tok>, i: usize) -> (r: Result<(Vec<Vec<String>>, usize), String>)
    requires
        i <= toks@.len(),
    ensures
        match r {
            Ok((v, e)) => keys_at(toks@, i as int) == Some((combo_views(v@), e as int)),
            Err(_) => keys_at(toks@, i as int) is None,
        },
{
    let len = toks.len();
    assert(len == toks@.len());
    if group_is(toks, i, &Delim::Bracket) {
        let v = read_combos_terminated(content_of(toks, i), 0)?;
        Ok((v, i + 1))
    } else {
        read_combos_sep(toks, i)
    }
}

fn read_shortcut_def(toks: &Vec<Tok>, i: usize) -> (r: Result<(ShortcutDefinition, usize), String>)
    ensures
        match r {
            Ok((d, e)) => shortcut_def_at(toks@, i as int) == Some((shortcut_def_view(d), e as int)),
            Err(_) => shortcut_def_at(toks@, i as int) is None,
        },
{
    let (t, j) = read_targets(toks, i)?;
    if j > toks.len() {
        return Err(from_str("unexpected end of input"));
    }
    let (keys, k) = read_keys(toks, j)?;
    proof {
        lemma_combos_sep_range(toks@, j as int);
    }
    let (c, e) = read_callbacks_after(toks, k)?;
    Ok((ShortcutDefinition { field_names: t, key_combos: keys, callbacks: c }, e))
}

fn read_shortcut_defs(toks: &Vec<Tok>, i: usize) -> (r: Result<Vec<ShortcutDefinition>, String>)
    ensures
        match r {
            Ok(v) => shortcut_defs(toks@, i as int) == Some(shortcut_def_views(v@)),
            Err(_) => shortcut_defs(toks@, i as int) is None,
        },
    decreases toks@.len() - i,
{
    if i >= toks.len() {
        let v: Vec<ShortcutDefinition> = Vec::new();
        assert(shortcut_def_views(v@) =~= Seq::empty());
        return Ok(v);
    }
    let (d, j) = read_shortcut_def(toks, i)?;
    proof {
        lemma_shortcut_def_range(toks@, i as int);
    }
    let ghost dd = d;
    if j >= toks.len() {
        let mut v = Vec::new();
        v.push(d);
        assert(shortcut_def_views(v@) =~= seq![shortcut_def_view(dd)]);
        Ok(v)
    } else if punct_is(toks, j, ',') {
        let mut rest = read_shortcut_defs(toks, j + 1)?;
        let ghost old_rest = rest@;
        rest.insert(0, d);
        assert(shortcut_def_views(rest@) =~= seq![shortcut_def_view(dd)] + shortcut_def_views(old_rest));
        Ok(rest)
    } else {
        Err(from_str("expected `,`"))
    }
}

/// Reads the arguments of `#[nwg_shortcuts(..)]`: shortcut definitions
/// joined by `,`, each `(TARGETS,*)? KEYS: [CALLBACKS,*]` where the keys are
/// one or more key combinations (`CTRL+A`) joined by `,`, or a bracketed
/// list of them. A combination that does not name exactly one key besides
/// the modifiers is refused.
pub fn parse_shortcut_definitions(toks: &Vec<Tok>) -> (r: Result<Vec<ShortcutDefinition>, String>)
    ensures
        r is Ok <==> shortcut_defs(toks@, 0) is Some,
        r is Ok ==> shortcut_defs(toks@, 0) == Some(shortcut_def_views(r->Ok_0@)),
{
    read_shortcut_defs(toks, 0)
}

// ---------------------------------------------------------------------------
// Parameters: `name: EXPR, ..`.

/// What the logic reads of an expression, in the model.
pub enum KindM {
    Path(PathM),
    Int(Option<u32>),
    Str(Seq<char>),
    Other,
}

pub open spec fn kind_view(k: ExprKind) -> KindM {
    match k {
        ExprKind::Path(p) => KindM::Path(path_view(p)),
        ExprKind::Int(v) => KindM::Int(v),
        ExprKind::Str(v) => KindM::Str(v@),
        ExprKind::Other => KindM::Other,
    }
}

/// The kind of the expression `i..k`: an integer or string literal when it
/// is one literal token of that kind, a path when it is exactly one path.
pub open spec fn expr_kind(s: Seq<Tok>, i: int, k: int) -> KindM {
    if k == i + 1 && 0 <= i < s.len() && s[i] is Literal {
        let t = s[i]->Literal_0@;
        match int_literal(t) {
            Some(v) => KindM::Int(v),
            None => match str_literal(t) {
                Some(v) => KindM::Str(v),
                None => KindM::Other,
            },
        }
    } else {
        match path_at(s, i, true) {
            Some((p, e)) => if e == k {
                KindM::Path(p)
            } else {
                KindM::Other
            },
            None => KindM::Other,
        }
    }
}

pub type ParamM = (Seq<char>, KindM, Seq<char>);

pub open spec fn param_view(p: Param) -> ParamM {
    (p.name@, kind_view(p.value.kind), p.value.text@)
}

pub open spec fn param_views(v: Seq<Param>) -> Seq<ParamM> {
    v.map_values(|p: Param| param_view(p))
}

/// One parameter at `i`: `name: EXPR`.
pub open spec fn param_at(s: Seq<Tok>, i: int) -> Option<(ParamM, int)> {
    match ident_at(s, i) {
        None => None,
        Some(n) => if punct_at(s, i + 1, ':') {
            match expr_end(s, i + 2, i + 3) {
                None => None,
                Some(k) => Some(((n, expr_kind(s, i + 2, k), render(s.subrange(i + 2, k))), k)),
            }
        } else {
            None
        },
    }
}

pub proof fn lemma_param_range(s: Seq<Tok>, i: int)
    ensures
        param_at(s, i) matches Some((_, e)) ==> 0 <= i < e <= s.len(),
{
    lemma_expr_end_range(s, i + 2, i + 3);
}

/// The parameters of an attribute, joined by `,` with an optional trailing
/// comma.
pub open spec fn params_terminated(s: Seq<Tok>, i: int) -> Option<Seq<ParamM>>
    decreases s.len() - i,
{
    if i < 0 || i >= s.len() {
        Some(Seq::empty())
    } else {
        match param_at(s, i) {
            None => None,
            Some((p, j)) => {
                proof {
                    lemma_param_range(s, i);
                }
                if j >= s.len() {
                    Some(seq![p])
                } else if punct_at(s, j, ',') {
                    match params_terminated(s, j + 1) {
                        None => None,
                        Some(rest) => Some(seq![p] + rest),
                    }
                } else {
                    None
                }
            },
        }
    }
}

fn classify(toks: &Vec<Tok>, i: usize, k: usize) -> (r: ExprKind)
    requires
        i < k <= toks@.len(),
    ensures
        kind_view(r) == expr_kind(toks@, i as int, k as int),
{
    if k == i + 1 {
        if let Tok::Literal(t) = &toks[i] {
            match read_int_literal(t.as_str()) {
                Some(v) => {
                    return ExprKind::Int(v);
                },
                None => match read_str_literal(t.as_str()) {
                    Some(v) => {
                        return ExprKind::Str(v);
                    },
                    None => {
                        return ExprKind::Other;
                    },
                },
            }
        }
    }
    match read_path(toks, i, true) {
        Some((p, e)) => if e == k {
            ExprKind::Path(p)
        } else {
            ExprKind::Other
        },
        None => ExprKind::Other,
    }
}

fn read_param(toks: &Vec<Tok>, i: usize) -> (r: Result<(Param, usize), String>)
    ensures
        match r {
            Ok((p, e)) => param_at(toks@, i as int) == Some((param_view(p), e as int)),
            Err(_) => param_at(toks@, i as int) is None,
        },
{
    let len = toks.len();
    assert(len == toks@.len());
    let name = match ident_exec(toks, i) {
        Some(n) => n,
        None => {
            return Err(from_str("expected identifier"));
        },
    };
    if !punct_is(toks, i + 1, ':') {
        return Err(from_str("expected `:`"));
    }
    if i + 2 >= len {
        return Err(from_str("expected an expression"));
    }
    match find_expr_end(toks, i + 2, i + 3) {
        None => Err(from_str("expected an expression")),
        Some(k) => {
            proof {
                lemma_expr_end_range(toks@, i as int + 2, i as int + 3);
            }
            let kind = classify(toks, i + 2, k);
            let text = render_range(toks, i + 2, k);
            Ok((Param { name, value: ParamExpr { kind, text } }, k))
        },
    }
}

fn read_params(toks: &Vec<Tok>, i: usize) -> (r: Result<Vec<Param>, String>)
    ensures
        match r {
            Ok(v) => params_terminated(toks@, i as int) == Some(param_views(v@)),
            Err(_) => params_terminated(toks@, i as int) is None,
        },
    decreases toks@.len() - i,
{
    if i >= toks.len() {
        let v: Vec<Param> = Vec::new();
        assert(param_views(v@) =~= Seq::empty());
        return Ok(v);
    }
    let (p, j) = read_param(toks, i)?;
    proof {
        lemma_param_range(toks@, i as int);
    }
    let ghost pp = p;
    if j >= toks.len() {
        let mut v = Vec::new();
        v.push(p);
        assert(param_views(v@) =~= seq![param_view(pp)]);
        Ok(v)
    } else if punct_is(toks, j, ',') {
        let mut rest = read_params(toks, j + 1)?;
        let ghost old_rest = rest@;
        rest.insert(0, p);
        assert(param_views(rest@) =~= seq![param_view(pp)] + param_views(old_rest));
        Ok(rest)
    } else {
        Err(from_str("expected `,`"))
    }
}

/// Reads the arguments of a control attribute: `name: EXPR` pairs joined by
/// `,`, where each expression runs to the first `,` (or the end) before
/// which its tokens read as one Rust expression.
pub fn parse_params(toks: &Vec<Tok>) -> (r: Result<Vec<Param>, String>)
    ensures
        r is Ok <==> params_terminated(toks@, 0) is Some,
        r is Ok ==> params_terminated(toks@, 0) == Some(param_views(r->Ok_0@)),
{
    read_params(toks, 0)
}

/// An attribute named `name` (when its path is one identifier), with the
/// tokens of its argument list, `None` when it has none: read as
/// parameters, as event definitions and as shortcut definitions. An
/// attribute without an argument list has no parameters and no
/// definitions.
pub fn read_attr(name: Option<String>, args: &Option<Vec<Tok>>) -> (r: AttrInfo)
    ensures
        r.name == name,
        match args {
            None => (r.params matches Ok(v) && v@.len() == 0) && r.events is Err && r.shortcuts is Err,
            Some(t) => {
                &&& (r.params is Ok <==> params_terminated(t@, 0) is Some)
                &&& (r.params is Ok ==> params_terminated(t@, 0) == Some(param_views(r.params->Ok_0@)))
                &&& (r.events is Ok <==> event_defs(t@, 0) is Some)
                &&& (r.events is Ok ==> event_defs(t@, 0) == Some(event_def_views(r.events->Ok_0@)))
                &&& (r.shortcuts is Ok <==> shortcut_defs(t@, 0) is Some)
                &&& (r.shortcuts is Ok ==> shortcut_defs(t@, 0) == Some(shortcut_def_views(r.shortcuts->Ok_0@)))
            },
        },
{
    match args {
        None => AttrInfo {
            name,
            params: Ok(Vec::new()),
            events: Err(from_str("expected attribute arguments in parentheses")),
            shortcuts: Err(from_str("expected attribute arguments in parentheses")),
        },
        Some(t) => AttrInfo {
            name,
            params: parse_params(t),
            events: parse_callback_definitions(t),
            shortcuts: parse_shortcut_definitions(t),
        },
    }
}

// ---------------------------------------------------------------------------
// What reading guarantees to the rest of the derive.

/// Every key combination in `cs` names exactly one key.
pub open spec fn all_combos_ok(cs: Seq<Seq<Seq<char>>>) -> bool {
    forall|c: int| 0 <= c < cs.len() ==> combo_ok(#[trigger] cs[c])
}

proof fn lemma_combos_sep_ok(s: Seq<Tok>, i: int)
    ensures
        combos_sep(s, i) matches Some((cs, _)) ==> all_combos_ok(cs),
    decreases s.len() - i,
{
    lemma_idents_sep_range(s, i, '+');
    if let Some((c, j)) = combo_at(s, i) {
        if punct_at(s, j, ',') {
            lemma_combos_sep_ok(s, j + 1);
            if let Some((rest, e)) = combos_sep(s, j + 1) {
                assert forall|k: int| 0 <= k < (seq![c] + rest).len() implies combo_ok(#[trigger] (seq![c] + rest)[k]) by {
                    if k > 0 {
                        assert((seq![c] + rest)[k] == rest[k - 1]);
                    }
                }
            }
        }
    }
}

proof fn lemma_combos_terminated_ok(s: Seq<Tok>, i: int)
    ensures
        combos_terminated(s, i) matches Some(cs) ==> all_combos_ok(cs),
    decreases s.len() - i,
{
    if 0 <= i < s.len() {
        lemma_idents_sep_range(s, i, '+');
        if let Some((c, j)) = combo_at(s, i) {
            if j < s.len() && punct_at(s, j, ',') {
                lemma_combos_terminated_ok(s, j + 1);
                if let Some(rest) = combos_terminated(s, j + 1) {
                    assert forall|k: int| 0 <= k < (seq![c] + rest).len() implies combo_ok(#[trigger] (seq![c] + rest)[k]) by {
                        if k > 0 {
                            assert((seq![c] + rest)[k] == rest[k - 1]);
                        }
                    }
                }
            }
        }
    }
}

proof fn lemma_shortcut_defs_ok(s: Seq<Tok>, i: int, ds: Seq<ShortcutDefM>)
    requires
        shortcut_defs(s, i) == Some(ds),
    ensures
        forall|k: int| 0 <= k < ds.len() ==> all_combos_ok(#[trigger] ds[k].1),
    decreases s.len() - i,
{
    if 0 <= i < s.len() {
        lemma_shortcut_def_range(s, i);
        let (t, j) = targets_at(s, i)->Some_0;
        lemma_combos_sep_ok(s, j);
        if group_at(s, j, Delim::Bracket) {
            lemma_combos_terminated_ok(group_content(s[j]), 0);
        }
        let (d, e) = shortcut_def_at(s, i)->Some_0;
        assert(all_combos_ok(d.1));
        if e < s.len() {
            let rest = shortcut_defs(s, e + 1)->Some_0;
            lemma_shortcut_defs_ok(s, e + 1, rest);
            assert(ds == seq![d] + rest);
            assert forall|k: int| 0 <= k < ds.len() implies all_combos_ok(#[trigger] ds[k].1) by {
                if k > 0 {
                    assert(ds[k] == rest[k - 1]);
                }
            }
        } else {
            assert(ds == seq![d]);
        }
    } else {
        assert(ds.len() == 0);
    }
}

/// Shortcut definitions that were read have only key combinations that name
/// exactly one key: registering them never fails on a key combination.
pub proof fn law_read_shortcuts_name_one_key(toks: Seq<Tok>, defs: Seq<ShortcutDefinition>)
    requires
        shortcut_defs(toks, 0) == Some(shortcut_def_views(defs)),
    ensures
        combos_all_ok(defs),
{
    let ds = shortcut_def_views(defs);
    lemma_shortcut_defs_ok(toks, 0, ds);
    assert forall|d: int, c: int| 0 <= d < defs.len() && 0 <= c < combos_of(defs[d]).len() implies combo_ok(#[trigger] combos_of(defs[d])[c]) by {
        assert(shortcut_def_views(defs)[d] == shortcut_def_view(defs[d]));
        assert(combos_of(defs[d]) =~= combo_views(defs[d].key_combos@));
        assert(all_combos_ok(ds[d].1));
    }
}

} // verus!
