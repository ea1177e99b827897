use native_windows::attr_syntax::{parse_callback_definitions, parse_params, parse_shortcut_definitions, read_attr, render_range, Delim, Tok};
use native_windows::params::ExprKind;
use syn::parse::Parser;

fn id(s: &str) -> Tok {
    Tok::Ident(s.to_string())
}

fn p(c: char) -> Tok {
    Tok::Punct(c, false)
}

fn pj(c: char) -> Tok {
    Tok::Punct(c, true)
}

fn lit(s: &str) -> Tok {
    Tok::Literal(s.to_string())
}

fn group(d: Delim, toks: Vec<Tok>, text: &str) -> Tok {
    Tok::Group(d, toks, text.to_string())
}

/// `a::b`
fn path2(a: &str, b: &str) -> Vec<Tok> {
    vec![id(a), pj(':'), p(':'), id(b)]
}

#[test]
fn render_glues_joint_punctuation() {
    let toks = path2("BasicApp", "say_hello");
    assert_eq!(render_range(&toks, 0, 4), "BasicApp :: say_hello");
    assert_eq!(render_range(&toks, 0, 1), "BasicApp");
    assert_eq!(render_range(&toks, 2, 2), "");
}

#[test]
fn event_definition_plain() {
    // OnButtonClick: [BasicApp::say_hello]
    let toks = vec![id("OnButtonClick"), p(':'), group(Delim::Bracket, path2("BasicApp", "say_hello"), "[BasicApp :: say_hello]")];
    let defs = parse_callback_definitions(&toks).unwrap();
    assert_eq!(defs.len(), 1);
    assert!(defs[0].field_names.is_none());
    assert_eq!(defs[0].callback_ids, vec!["OnButtonClick".to_string()]);
    assert_eq!(defs[0].callbacks.len(), 1);
    let cb = &defs[0].callbacks[0];
    assert_eq!(cb.path_text, "BasicApp :: say_hello");
    assert!(!cb.path.leading_colon);
    assert_eq!(cb.path.segments.len(), 2);
    assert_eq!(cb.path.segments[0].ident, "BasicApp");
    assert_eq!(cb.path.segments[1].ident, "say_hello");
    assert!(!cb.path.segments[1].has_arguments);
    assert!(cb.args.is_none());
}

#[test]
fn event_definition_with_targets_and_arguments() {
    // (button, window) OnA, OnB: [f(SELF, EVT,), ::m::g]
    let targets = group(Delim::Paren, vec![id("button"), p(','), id("window")], "(button, window)");
    let args = group(Delim::Paren, vec![id("SELF"), p(','), id("EVT"), p(',')], "(SELF, EVT,)");
    let mut cbs = vec![id("f"), args, p(',')];
    cbs.extend(vec![pj(':'), p(':'), id("m"), pj(':'), p(':'), id("g")]);
    let toks = vec![targets, id("OnA"), p(','), id("OnB"), p(':'), group(Delim::Bracket, cbs, "[f(SELF, EVT,), ::m::g]")];
    let defs = parse_callback_definitions(&toks).unwrap();
    assert_eq!(defs.len(), 1);
    assert_eq!(defs[0].field_names, Some(vec!["button".to_string(), "window".to_string()]));
    assert_eq!(defs[0].callback_ids, vec!["OnA".to_string(), "OnB".to_string()]);
    assert_eq!(defs[0].callbacks.len(), 2);
    assert_eq!(defs[0].callbacks[0].args, Some(vec!["SELF".to_string(), "EVT".to_string()]));
    assert_eq!(defs[0].callbacks[0].path_text, "f");
    assert!(defs[0].callbacks[1].path.leading_colon);
    assert_eq!(defs[0].callbacks[1].path_text, ":: m :: g");
    assert!(defs[0].callbacks[1].args.is_none());
}

#[test]
fn event_definitions_bracketed_and_several() {
    // [OnA, OnB]: [f], OnC: [g],
    let toks = vec![
        group(Delim::Bracket, vec![id("OnA"), p(','), id("OnB")], "[OnA, OnB]"),
        p(':'),
        group(Delim::Bracket, vec![id("f")], "[f]"),
        p(','),
        id("OnC"),
        p(':'),
        group(Delim::Bracket, vec![id("g")], "[g]"),
        p(','),
    ];
    let defs = parse_callback_definitions(&toks).unwrap();
    assert_eq!(defs.len(), 2);
    assert_eq!(defs[0].callback_ids, vec!["OnA".to_string(), "OnB".to_string()]);
    assert_eq!(defs[1].callback_ids, vec!["OnC".to_string()]);
    assert_eq!(defs[1].callbacks[0].path_text, "g");
}

#[test]
fn event_definition_errors() {
    // OnA [f]: no colon
    assert!(parse_callback_definitions(&vec![id("OnA"), group(Delim::Bracket, vec![id("f")], "[f]")]).is_err());
    // OnA: f: no brackets
    assert!(parse_callback_definitions(&vec![id("OnA"), p(':'), id("f")]).is_err());
    // fn: [f]: a keyword is no event name
    assert!(parse_callback_definitions(&vec![id("fn"), p(':'), group(Delim::Bracket, vec![id("f")], "[f]")]).is_err());
    // OnA: [f] OnB: [g]: no comma between definitions
    let toks = vec![
        id("OnA"),
        p(':'),
        group(Delim::Bracket, vec![id("f")], "[f]"),
        id("OnB"),
        p(':'),
        group(Delim::Bracket, vec![id("g")], "[g]"),
    ];
    assert!(parse_callback_definitions(&toks).is_err());
    // (a,,b) OnA: [f]: an empty target
    let targets = group(Delim::Paren, vec![id("a"), p(','), p(','), id("b")], "(a,, b)");
    assert!(parse_callback_definitions(&vec![targets, id("OnA"), p(':'), group(Delim::Bracket, vec![id("f")], "[f]")]).is_err());
    // nothing is no definition at all
    assert_eq!(parse_callback_definitions(&vec![]).unwrap().len(), 0);
}

#[test]
fn shortcut_definitions() {
    // CTRL+A, ALT+B: [f]
    let toks = vec![id("CTRL"), p('+'), id("A"), p(','), id("ALT"), p('+'), id("B"), p(':'), group(Delim::Bracket, vec![id("f")], "[f]")];
    let defs = parse_shortcut_definitions(&toks).unwrap();
    assert_eq!(defs.len(), 1);
    assert_eq!(defs[0].key_combos, vec![vec!["CTRL".to_string(), "A".to_string()], vec!["ALT".to_string(), "B".to_string()]]);
    assert_eq!(defs[0].callbacks[0].path_text, "f");
    // (window) [CTRL+A,]: [f]
    let toks = vec![
        group(Delim::Paren, vec![id("window")], "(window)"),
        group(Delim::Bracket, vec![id("CTRL"), p('+'), id("A"), p(',')], "[CTRL + A,]"),
        p(':'),
        group(Delim::Bracket, vec![id("f")], "[f]"),
    ];
    let defs = parse_shortcut_definitions(&toks).unwrap();
    assert_eq!(defs[0].field_names, Some(vec!["window".to_string()]));
    assert_eq!(defs[0].key_combos, vec![vec!["CTRL".to_string(), "A".to_string()]]);
}

#[test]
fn shortcut_definition_key_errors() {
    let extra = vec![id("A"), p('+'), id("B"), p(':'), group(Delim::Bracket, vec![id("f")], "[f]")];
    match parse_shortcut_definitions(&extra) {
        Err(m) => assert_eq!(m, "extra key found: `B` when mapping nwg_shortcuts"),
        Ok(_) => panic!("two keys accepted"),
    }
    let none = vec![id("CTRL"), p('+'), id("ALT"), p(':'), group(Delim::Bracket, vec![id("f")], "[f]")];
    match parse_shortcut_definitions(&none) {
        Err(m) => assert_eq!(m, "no key found when mapping nwg_shortcuts"),
        Ok(_) => panic!("no key accepted"),
    }
}

#[test]
fn parameters_and_their_kinds() {
    // text: "Hello", size: (10, 20), parent: window, count: 5, big: 4294967296, path: a::b,
    let size = group(Delim::Paren, vec![lit("10"), p(','), lit("20")], "(10, 20)");
    let mut toks = vec![id("text"), p(':'), lit("\"Hello\""), p(',')];
    toks.extend(vec![id("size"), p(':'), size, p(',')]);
    toks.extend(vec![id("parent"), p(':'), id("window"), p(',')]);
    toks.extend(vec![id("count"), p(':'), lit("5"), p(',')]);
    toks.extend(vec![id("big"), p(':'), lit("4294967296"), p(',')]);
    toks.extend(vec![id("path"), p(':')]);
    toks.extend(path2("a", "b"));
    toks.push(p(','));
    let ps = parse_params(&toks).unwrap();
    assert_eq!(ps.len(), 6);
    assert_eq!(ps[0].name, "text");
    assert!(matches!(&ps[0].value.kind, ExprKind::Str(s) if s == "Hello"));
    assert_eq!(ps[0].value.text, "\"Hello\"");
    assert!(matches!(ps[1].value.kind, ExprKind::Other));
    assert_eq!(ps[1].value.text, "(10, 20)");
    assert!(matches!(&ps[2].value.kind, ExprKind::Path(p) if p.segments.len() == 1 && p.segments[0].ident == "window"));
    assert!(matches!(ps[3].value.kind, ExprKind::Int(Some(5))));
    assert!(matches!(ps[4].value.kind, ExprKind::Int(None)));
    assert!(matches!(&ps[5].value.kind, ExprKind::Path(p) if p.segments.len() == 2));
    assert_eq!(ps[5].value.text, "a :: b");
}

#[test]
fn parameter_expression_runs_past_commas_it_needs() {
    // f: foo::<A, B>(), g: 1
    let mut toks = vec![id("f"), p(':'), id("foo"), pj(':'), p(':'), p('<'), id("A"), p(','), id("B"), p('>')];
    toks.push(group(Delim::Paren, vec![], "()"));
    toks.extend(vec![p(','), id("g"), p(':'), lit("1")]);
    let ps = parse_params(&toks).unwrap();
    assert_eq!(ps.len(), 2);
    assert_eq!(ps[0].value.text, "foo :: < A , B > ()");
    assert!(matches!(ps[0].value.kind, ExprKind::Other));
    assert!(matches!(ps[1].value.kind, ExprKind::Int(Some(1))));
}

#[test]
fn parameter_errors() {
    assert!(parse_params(&vec![id("text"), lit("\"x\"")]).is_err());
    assert!(parse_params(&vec![id("text"), p(':')]).is_err());
    assert!(parse_params(&vec![id("text"), p(':'), lit("1"), lit("2")]).is_err());
    assert!(parse_params(&vec![lit("1"), p(':'), lit("2")]).is_err());
}

#[test]
fn attribute_without_arguments() {
    let a = read_attr(Some("nwg_control".to_string()), &None);
    assert_eq!(a.name.as_deref(), Some("nwg_control"));
    assert_eq!(a.params.unwrap().len(), 0);
    assert!(a.events.is_err());
    assert!(a.shortcuts.is_err());
    let b = read_attr(None, &Some(vec![id("text"), p(':'), lit("\"x\"")]));
    assert_eq!(b.params.unwrap().len(), 1);
    assert!(b.events.is_err());
}

use native_windows::events::ControlEvents;
use native_windows::params::{AttrInfo, FieldInfo, Param, ParamExpr};
use native_windows::ui::NwgUi;

fn control_attr(params: Vec<Param>) -> AttrInfo {
    AttrInfo { name: Some("nwg_control".to_string()), params: Ok(params), events: Err("no".to_string()), shortcuts: Err("no".to_string()) }
}

#[test]
fn law_read_shortcuts_name_one_key_example() {
    // CTRL+A: [say_hello(CTRL)] read, then registered on the field `button`
    let cb = vec![id("say_hello"), group(Delim::Paren, vec![id("CTRL")], "(CTRL)")];
    let toks = vec![id("CTRL"), p('+'), id("A"), p(':'), group(Delim::Bracket, cb, "[say_hello(CTRL)]")];
    let defs = parse_shortcut_definitions(&toks).ok().unwrap();
    let mut events = ControlEvents::with_capacity(false, 4);
    assert!(events.parse_shortcut_impl(&Some("button".to_string()), &defs).is_ok());
    assert_eq!(events.shortcuts.len(), 1);
    assert_eq!(events.shortcuts[0].keys.key, "A");
    let entry = &events.shortcuts[0].callbacks.entries[0];
    assert_eq!(entry.calls.len(), 1);
    assert_eq!(entry.calls[0].path_text, "say_hello");
    // `CTRL` sends the control the shortcut sits on
    assert_eq!(entry.calls[0].args, vec!["&evt_ui.button".to_string()]);
}

#[test]
fn law_built_calls_come_from_attributes_example() {
    // #[nwg_events(OnButtonClick: [say_hello(CTRL)])] on `button`
    let cb = vec![id("say_hello"), group(Delim::Paren, vec![id("CTRL")], "(CTRL)")];
    let toks = vec![id("OnButtonClick"), p(':'), group(Delim::Bracket, cb, "[say_hello(CTRL)]")];
    let events_attr = read_attr(Some("nwg_events".to_string()), &Some(toks));
    let title = Param { name: "title".to_string(), value: ParamExpr { kind: ExprKind::Str("W".to_string()), text: "\"W\"".to_string() } };
    let text = Param { name: "text".to_string(), value: ParamExpr { kind: ExprKind::Str("B".to_string()), text: "\"B\"".to_string() } };
    let fields = vec![
        FieldInfo { ident: "window".to_string(), ty_ident: Some("Window".to_string()), attrs: vec![control_attr(vec![title])] },
        FieldInfo { ident: "button".to_string(), ty_ident: Some("Button".to_string()), attrs: vec![control_attr(vec![text]), events_attr] },
    ];
    let ui = match NwgUi::build(&fields, &Vec::new(), false) {
        Ok(ui) => ui,
        Err(_) => panic!("the UI does not build"),
    };
    assert_eq!(ui.events.callbacks.len(), 1);
    assert_eq!(ui.events.callbacks[0].event, "OnButtonClick");
    let entries = &ui.events.callbacks[0].callbacks.entries;
    assert_eq!(entries.len(), 1);
    assert_eq!(entries[0].calls.len(), 1);
    assert_eq!(entries[0].calls[0].path_text, "say_hello");
    assert_eq!(entries[0].calls[0].args, vec!["&evt_ui.button".to_string()]);
    assert_eq!(ui.events.shortcuts.len(), 0);
}

// Reading the same parameter lists with `syn`, as a `name: EXPR` list.

struct SynParam {
    name: syn::Ident,
    expr: syn::Expr,
}

impl syn::parse::Parse for SynParam {
    fn parse(input: syn::parse::ParseStream) -> syn::Result<Self> {
        let name: syn::Ident = input.parse()?;
        let _colon: syn::token::Colon = input.parse()?;
        let expr: syn::Expr = input.parse()?;
        Ok(SynParam { name, expr })
    }
}

/// The text without its spaces: the token text and `syn`'s printing of the
/// expression place spaces differently around joined punctuation.
fn unspaced(t: &str) -> String {
    t.chars().filter(|c| !c.is_whitespace()).collect()
}

fn syn_params(text: &str) -> Option<Vec<(String, String)>> {
    let parser = syn::punctuated::Punctuated::<SynParam, syn::token::Comma>::parse_terminated;
    parser.parse_str(text).ok().map(|ps| ps.iter().map(|p| (p.name.to_string(), unspaced(&quote::ToTokens::to_token_stream(&p.expr).to_string()))).collect())
}

fn to_tok(tt: proc_macro2::TokenTree) -> Tok {
    match tt {
        proc_macro2::TokenTree::Ident(i) => Tok::Ident(i.to_string()),
        proc_macro2::TokenTree::Punct(p) => Tok::Punct(p.as_char(), p.spacing() == proc_macro2::Spacing::Joint),
        proc_macro2::TokenTree::Literal(l) => Tok::Literal(l.to_string()),
        proc_macro2::TokenTree::Group(g) => {
            let d = match g.delimiter() {
                proc_macro2::Delimiter::Parenthesis => Delim::Paren,
                proc_macro2::Delimiter::Bracket => Delim::Bracket,
                proc_macro2::Delimiter::Brace => Delim::Brace,
                proc_macro2::Delimiter::None => Delim::Invisible,
            };
            Tok::Group(d, g.stream().into_iter().map(to_tok).collect(), g.to_string())
        }
    }
}

fn our_params(text: &str) -> Option<Vec<(String, String)>> {
    let ts: proc_macro2::TokenStream = text.parse().unwrap();
    let toks: Vec<Tok> = ts.into_iter().map(to_tok).collect();
    parse_params(&toks).ok().map(|ps| ps.iter().map(|p| (p.name.clone(), unspaced(&p.value.text))).collect())
}

#[test]
fn parameters_read_as_syn_reads_them() {
    let cases = [
        "text: \"Hello\", size: (10, 20), position: [1, 2]",
        "parent: window, flags: \"VISIBLE|DISABLED\",",
        "f: foo::<A, B>(), g: |a, b| a + b, h: -1",
        "s: Point { x: 1, y: 2 }, v: vec_of[0], w: a.b.c(1, 2)",
        "t: if a { 1 } else { 2 }, u: a < b, v: c > d",
        "x: 1 2",
        "x 1",
        "fn: 1",
        "x: , y: 2",
        "",
        "a: ::std::f64::consts::PI, b: Some(&x)",
    ];
    for c in cases {
        assert_eq!(our_params(c), syn_params(c), "on {:?}", c);
    }
}

#[test]
fn law_shortcut_ctrl_is_its_control_example() {
    // (other) ALT+F4: [close(CTRL)] on the field `window`
    let cb = vec![id("close"), group(Delim::Paren, vec![id("CTRL")], "(CTRL)")];
    let toks = vec![
        group(Delim::Paren, vec![id("other")], "(other)"),
        id("ALT"),
        p('+'),
        id("F4"),
        p(':'),
        group(Delim::Bracket, cb, "[close(CTRL)]"),
    ];
    let defs = parse_shortcut_definitions(&toks).ok().unwrap();
    let mut events = ControlEvents::with_capacity(false, 4);
    assert!(events.parse_shortcut_impl(&Some("window".to_string()), &defs).is_ok());
    let entry = &events.shortcuts[0].callbacks.entries[0];
    assert_eq!(entry.target.as_deref(), Some("evt_ui.window.other"));
    assert_eq!(entry.calls[0].args, vec!["&evt_ui.window".to_string()]);
}
