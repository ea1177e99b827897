use native_windows::error::DeriveError;
use native_windows::events::{
    insert_call, map_callback_args, map_event_enum, map_event_target, target_arg, ControlEvents, EventCallback, EventPattern, FunctionCall,
    ShortcutKeystrokes,
};
use native_windows::params::{AttrInfo, CallbackDefinition, CallbackFunction, FieldInfo, PathModel, PathSegment, ShortcutDefinition};

fn path(segs: &[&str]) -> PathModel {
    PathModel { leading_colon: false, segments: segs.iter().map(|s| PathSegment { ident: s.to_string(), has_arguments: false }).collect() }
}

fn callback(segs: &[&str], args: Option<Vec<&str>>) -> CallbackFunction {
    CallbackFunction { path: path(segs), path_text: segs.join("::"), args: args.map(|a| a.iter().map(|s| s.to_string()).collect()) }
}

fn strings(v: &[&str]) -> Vec<String> {
    v.iter().map(|s| s.to_string()).collect()
}

fn events_attr(defs: Vec<CallbackDefinition>) -> AttrInfo {
    AttrInfo { name: Some("nwg_events".to_string()), params: Err("not a list".to_string()), events: Ok(defs), shortcuts: Err("no".to_string()) }
}

fn shortcuts_attr(defs: Vec<ShortcutDefinition>) -> AttrInfo {
    AttrInfo { name: Some("nwg_shortcuts".to_string()), params: Err("not a list".to_string()), events: Err("no".to_string()), shortcuts: Ok(defs) }
}

#[test]
fn shortcut_keystrokes() {
    let k = ShortcutKeystrokes::parse(&strings(&["Ctrl", "Shift", "S"])).ok().unwrap();
    assert_eq!(k.modifiers, "CTRL_SHIFT");
    assert_eq!(k.key, "S");
    let k = ShortcutKeystrokes::parse(&strings(&["Key0"])).ok().unwrap();
    assert_eq!(k.modifiers, "NONE");
    assert_eq!(k.key, "Key0");
    let k = ShortcutKeystrokes::parse(&strings(&["alt", "Plus"])).ok().unwrap();
    assert_eq!(k.modifiers, "ALT");
    assert_eq!(k.key, "Plus");
    match ShortcutKeystrokes::parse(&strings(&["Ctrl", "A", "B"])) {
        Err(DeriveError::ExtraShortcutKey { key }) => assert_eq!(key, "B"),
        _ => panic!("expected a second key"),
    }
    assert!(matches!(ShortcutKeystrokes::parse(&strings(&["Ctrl", "Shift"])), Err(DeriveError::NoShortcutKey)));
}

#[test]
fn modifiers_in_any_case() {
    let k = ShortcutKeystrokes::parse(&strings(&["alt", "sHiFt", "x"])).ok().unwrap();
    assert_eq!(k.modifiers, "ALT_SHIFT");
    assert_eq!(k.key, "x");
}

#[test]
fn callback_arguments() {
    let bind = Some("button".to_string());
    let target = Some("evt_ui.button".to_string());
    assert_eq!(map_callback_args(&bind, &target, &None).ok().unwrap(), strings(&["&evt_ui"]));
    let args = Some(strings(&["SELF", "RC_SELF", "CTRL", "TARGET", "HANDLE", "EVT", "EVT_DATA"]));
    assert_eq!(
        map_callback_args(&bind, &target, &args).ok().unwrap(),
        strings(&["&evt_ui", "&evt_ui", "&evt_ui.button", "&evt_ui.button", "&_handle", "&_evt", "&_evt_data"])
    );
    assert_eq!(map_callback_args(&None, &None, &Some(strings(&["CTRL"]))).ok().unwrap(), strings(&["&evt_ui"]));
    match map_callback_args(&bind, &target, &Some(strings(&["SELF", "OTHER"]))) {
        Err(DeriveError::UnknownCallbackArg { arg }) => assert_eq!(arg, "OTHER"),
        _ => panic!("expected an unknown argument"),
    }
    match map_callback_args(&None, &None, &Some(strings(&["TARGET"]))) {
        Err(DeriveError::TargetOnGlobalEvent { arg }) => assert_eq!(arg, "TARGET"),
        _ => panic!("expected a target on a global event"),
    }
    match map_callback_args(&bind, &Some("evt_ui.a b".to_string()), &Some(strings(&["TARGET"]))) {
        Err(DeriveError::AttrParse(m)) => assert!(!m.is_empty()),
        _ => panic!("expected a target that does not parse"),
    }
}

#[test]
fn event_targets_and_patterns() {
    let t = map_event_target(&Some("button".to_string()), &None);
    assert_eq!(t, vec![Some("evt_ui.button".to_string())]);
    let t = map_event_target(&None, &None);
    assert_eq!(t, vec![None]);
    let t = map_event_target(&Some("part".to_string()), &Some(strings(&["a", "b"])));
    assert_eq!(t, vec![Some("evt_ui.part.a".to_string()), Some("evt_ui.part.b".to_string())]);
    assert!(matches!(map_event_enum(&"MousePressLeftUp".to_string()), EventPattern::MousePress(n) if n == "MousePressLeftUp"));
    assert!(matches!(map_event_enum(&"OnMousePress".to_string()), EventPattern::AnyMousePress));
    assert!(matches!(map_event_enum(&"OnButtonClick".to_string()), EventPattern::Named(n) if n == "OnButtonClick"));
}

#[test]
fn law_insert_call_idempotent_example() {
    let mut calls: Vec<FunctionCall> = Vec::new();
    let c = FunctionCall { path: path(&["App", "click"]), path_text: "App::click".to_string(), args: strings(&["&evt_ui"]) };
    assert!(insert_call(&mut calls, c));
    let again = FunctionCall { path: path(&["App", "click"]), path_text: "App::click".to_string(), args: strings(&["&evt_ui"]) };
    assert!(!insert_call(&mut calls, again));
    assert_eq!(calls.len(), 1);
    let other = FunctionCall { path: path(&["App", "close"]), path_text: "App::close".to_string(), args: Vec::new() };
    assert!(insert_call(&mut calls, other));
    assert_eq!(calls.len(), 2);
}

#[test]
fn field_events_are_registered() {
    let mut ev = ControlEvents::with_capacity(false, 2);
    let field = FieldInfo {
        ident: "button".to_string(),
        ty_ident: Some("Button".to_string()),
        attrs: vec![events_attr(vec![CallbackDefinition {
            field_names: None,
            callback_ids: strings(&["OnButtonClick", "OnButtonDoubleClick"]),
            callbacks: vec![callback(&["App", "click"], None), callback(&["App", "click"], None)],
        }])],
    };
    assert!(ev.parse(&field).is_ok());
    assert_eq!(ev.callbacks.len(), 2);
    assert_eq!(ev.callbacks[0].event, "OnButtonClick");
    assert_eq!(ev.callbacks[1].event, "OnButtonDoubleClick");
    // the same callback written twice is kept once
    assert_eq!(ev.callbacks[0].callbacks.entries.len(), 1);
    assert_eq!(ev.callbacks[0].callbacks.entries[0].target.as_deref(), Some("evt_ui.button"));
    assert_eq!(ev.callbacks[0].callbacks.entries[0].calls.len(), 1);
    assert_eq!(ev.callbacks[0].callbacks.entries[0].calls[0].args, strings(&["&evt_ui"]));
}

#[test]
fn field_event_errors() {
    let mut ev = ControlEvents::with_capacity(false, 2);
    let mut a = events_attr(Vec::new());
    a.events = Err("expected `:`".to_string());
    let field = FieldInfo { ident: "button".to_string(), ty_ident: Some("Button".to_string()), attrs: vec![a] };
    match ev.parse(&field) {
        Err(DeriveError::AttrParse(m)) => assert_eq!(m, "expected `:`"),
        _ => panic!("expected the parse error"),
    }
}

#[test]
fn shortcuts_are_registered() {
    let mut ev = ControlEvents::with_capacity(false, 2);
    let attrs = vec![shortcuts_attr(vec![ShortcutDefinition {
        field_names: None,
        key_combos: vec![strings(&["Ctrl", "S"]), strings(&["Alt", "S"])],
        callbacks: vec![callback(&["App", "save"], None)],
    }])];
    assert!(ev.parse_global(&attrs).is_ok());
    assert_eq!(ev.shortcuts_len(), 2);
    let keys: Vec<(String, String)> = ev.shortcuts.iter().map(|s| (s.keys.modifiers.clone(), s.keys.key.clone())).collect();
    assert!(keys.contains(&("CTRL".to_string(), "S".to_string())));
    assert!(keys.contains(&("ALT".to_string(), "S".to_string())));
    assert_eq!(ev.shortcuts[0].callbacks.entries[0].target, None);
}

#[test]
fn global_events_need_the_shortcuts_attribute_first() {
    // without a shortcuts attribute nothing is read
    let mut ev = ControlEvents::with_capacity(false, 2);
    let attrs = vec![events_attr(vec![CallbackDefinition {
        field_names: None,
        callback_ids: strings(&["OnInit"]),
        callbacks: vec![callback(&["App", "init"], None)],
    }])];
    assert!(ev.parse_global(&attrs).is_ok());
    assert_eq!(ev.callbacks.len(), 0);
    // an events attribute after the shortcuts attribute is read
    let attrs = vec![
        shortcuts_attr(Vec::new()),
        events_attr(vec![CallbackDefinition {
            field_names: None,
            callback_ids: strings(&["OnInit"]),
            callbacks: vec![callback(&["App", "init"], None)],
        }]),
    ];
    assert!(ev.parse_global(&attrs).is_ok());
    assert_eq!(ev.callbacks.len(), 1);
    assert_eq!(ev.callbacks[0].event, "OnInit");
}

#[test]
fn top_level_handles() {
    let mut ev = ControlEvents::with_capacity(false, 2);
    let attr = AttrInfo { name: Some("nwg_control".to_string()), params: Ok(Vec::new()), events: Err("no".to_string()), shortcuts: Err("no".to_string()) };
    let window = FieldInfo { ident: "window".to_string(), ty_ident: Some("Window".to_string()), attrs: vec![attr] };
    ev.add_top_level_handle(&window);
    let button = FieldInfo { ident: "button".to_string(), ty_ident: Some("Button".to_string()), attrs: Vec::new() };
    ev.add_top_level_handle(&button);
    assert_eq!(ev.handles, strings(&["window"]));
    ev.add_partial(&"part".to_string());
    assert_eq!(ev.partial_members, strings(&["part"]));
}

#[test]
fn handler_branches_group_targets_by_calls() {
    let mut cb = EventCallback::new();
    let targets = vec![Some("evt_ui.b".to_string()), Some("evt_ui.a".to_string())];
    assert!(cb.parse(&None, &targets, &vec![callback(&["App", "save"], None)]).is_ok());
    assert!(cb.parse(&None, &vec![Some("evt_ui.c".to_string())], &vec![callback(&["App", "close"], None)]).is_ok());
    assert!(cb.parse(&None, &vec![None], &vec![callback(&["App", "any"], None)]).is_ok());
    let groups = cb.call_groups();
    assert_eq!(groups.len(), 2);
    // `App::close` comes before `App::save`
    assert_eq!(groups[0].targets, strings(&["evt_ui.c"]));
    assert_eq!(groups[1].targets, strings(&["evt_ui.a", "evt_ui.b"]));
    let g = cb.global_entry().unwrap();
    assert!(cb.entries[g].target.is_none());
    assert_eq!(cb.entries[g].calls[0].path_text, "App::any");
    let empty = EventCallback::new();
    assert!(empty.call_groups().is_empty());
    assert!(empty.global_entry().is_none());
}

#[test]
fn first_bad_callback_in_reading_order() {
    // callbacks are read by path (longer paths first, then by name), so
    // `alpha` is read before `zed` although written after it
    let mut ev = ControlEvents::with_capacity(false, 2);
    let field = FieldInfo {
        ident: "button".to_string(),
        ty_ident: Some("Button".to_string()),
        attrs: vec![events_attr(vec![CallbackDefinition {
            field_names: None,
            callback_ids: strings(&["OnButtonClick"]),
            callbacks: vec![callback(&["zed"], Some(vec!["FOO"])), callback(&["alpha"], Some(vec!["BAR"])), callback(&["a", "b"], None)],
        }])],
    };
    match ev.parse(&field) {
        Err(DeriveError::UnknownCallbackArg { arg }) => assert_eq!(arg, "BAR"),
        _ => panic!("expected the error of `alpha`"),
    }
    // among paths that count as the same, the one written first
    let mut ev = ControlEvents::with_capacity(false, 2);
    let field = FieldInfo {
        ident: "button".to_string(),
        ty_ident: Some("Button".to_string()),
        attrs: vec![events_attr(vec![CallbackDefinition {
            field_names: None,
            callback_ids: strings(&["OnButtonClick"]),
            callbacks: vec![callback(&["f"], Some(vec!["ONE"])), callback(&["f"], Some(vec!["TWO"]))],
        }])],
    };
    match ev.parse(&field) {
        Err(DeriveError::UnknownCallbackArg { arg }) => assert_eq!(arg, "ONE"),
        _ => panic!("expected the error of the first `f`"),
    }
}

#[test]
fn shortcut_errors_come_first() {
    // a key combination that names two keys is reported before a callback
    // argument without meaning, wherever it stands
    let mut ev = ControlEvents::with_capacity(false, 2);
    let attrs = vec![shortcuts_attr(vec![
        ShortcutDefinition {
            field_names: None,
            key_combos: vec![strings(&["Ctrl", "S"])],
            callbacks: vec![callback(&["App", "save"], Some(vec!["WHAT"]))],
        },
        ShortcutDefinition {
            field_names: None,
            key_combos: vec![strings(&["Ctrl", "A"]), strings(&["Q", "W"])],
            callbacks: vec![callback(&["App", "quit"], None)],
        },
    ])];
    match ev.parse_global(&attrs) {
        Err(DeriveError::ExtraShortcutKey { key }) => assert_eq!(key, "W"),
        _ => panic!("expected the key combination error"),
    }
    // with every combination fine, the argument error
    let mut ev = ControlEvents::with_capacity(false, 2);
    let attrs = vec![shortcuts_attr(vec![ShortcutDefinition {
        field_names: None,
        key_combos: vec![strings(&["Ctrl", "S"])],
        callbacks: vec![callback(&["App", "save"], Some(vec!["WHAT"]))],
    }])];
    match ev.parse_global(&attrs) {
        Err(DeriveError::UnknownCallbackArg { arg }) => assert_eq!(arg, "WHAT"),
        _ => panic!("expected the argument error"),
    }
}

#[test]
fn keystrokes_from_uppercase_forms() {
    let k = ShortcutKeystrokes::from_parts(&strings(&["ctrl", "k"]), &strings(&["CTRL", "K"])).ok().unwrap();
    assert_eq!(k.modifiers, "CTRL");
    assert_eq!(k.key, "k");
    match ShortcutKeystrokes::from_parts(&strings(&["a", "Alt", "b"]), &strings(&["A", "ALT", "B"])) {
        Err(DeriveError::ExtraShortcutKey { key }) => assert_eq!(key, "b"),
        _ => panic!("expected a second key"),
    }
    assert!(matches!(
        ShortcutKeystrokes::from_parts(&strings(&["shift"]), &strings(&["SHIFT"])),
        Err(DeriveError::NoShortcutKey)
    ));
}

#[test]
fn target_argument() {
    assert_eq!(target_arg("evt_ui.button", None).ok().unwrap(), "&evt_ui.button");
    match target_arg("evt_ui.a b", Some("unexpected token".to_string())) {
        Err(DeriveError::AttrParse(m)) => assert_eq!(m, "unexpected token"),
        _ => panic!("expected the parse message"),
    }
}

#[test]
fn law_modifier_case_example() {
    let a = ShortcutKeystrokes::parse(&strings(&["Ctrl", "Alt", "S"])).ok().unwrap();
    let b = ShortcutKeystrokes::parse(&strings(&["ctrl", "ALT", "S"])).ok().unwrap();
    assert_eq!(a.modifiers, "CTRL_ALT");
    assert_eq!(b.modifiers, "CTRL_ALT");
    assert_eq!(a.key, "S");
    assert_eq!(b.key, "S");
}
