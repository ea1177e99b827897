use native_windows::error::DeriveError;
use native_windows::events::ControlEvents;
use native_windows::items::{NwdControl, NwdLayout};
use native_windows::layouts::{grid_cells, GridLayoutChild, LayoutChild};
use native_windows::params::{AttrInfo, ExprKind, FieldInfo, Param, ParamExpr, PathModel, PathSegment};
use native_windows::ui::{
    crate_ident, sort_controls, ChildSource, FieldKind, LayoutBuild, NwgUi,
};

fn path_expr(segs: &[&str]) -> ParamExpr {
    ParamExpr {
        kind: ExprKind::Path(PathModel {
            leading_colon: false,
            segments: segs.iter().map(|s| PathSegment { ident: s.to_string(), has_arguments: false }).collect(),
        }),
        text: segs.join("::"),
    }
}

fn str_expr(v: &str) -> ParamExpr {
    ParamExpr { kind: ExprKind::Str(v.to_string()), text: format!("{:?}", v) }
}

fn int_expr(v: u32) -> ParamExpr {
    ParamExpr { kind: ExprKind::Int(Some(v)), text: v.to_string() }
}

fn param(name: &str, value: ParamExpr) -> Param {
    Param { name: name.to_string(), value }
}

fn attr(name: &str, params: Vec<Param>) -> AttrInfo {
    AttrInfo {
        name: Some(name.to_string()),
        params: Ok(params),
        events: Err("expected an event".to_string()),
        shortcuts: Err("expected a shortcut".to_string()),
    }
}

fn field(ident: &str, ty: Option<&str>, attrs: Vec<AttrInfo>) -> FieldInfo {
    FieldInfo { ident: ident.to_string(), ty_ident: ty.map(|t| t.to_string()), attrs }
}

fn names_of(c: &NwdControl) -> Vec<String> {
    c.names.clone()
}

fn value_text(c: &NwdControl, name: &str) -> Option<String> {
    c.names.iter().position(|n| n == name).map(|i| c.values[i].text.clone())
}

fn layout_value_text(l: &NwdLayout, name: &str) -> Option<String> {
    l.names.iter().position(|n| n == name).map(|i| l.values[i].text.clone())
}

fn basic_app() -> Vec<FieldInfo> {
    vec![
        field("window", Some("Window"), vec![attr("nwg_control", vec![param("title", str_expr("Window"))])]),
        field("font", Some("Font"), vec![attr("nwg_resource", vec![param("family", str_expr("Arial"))])]),
        field("my_layout", Some("GridLayout"), vec![attr("nwg_layout", vec![param("parent", path_expr(&["window"]))])]),
        field(
            "button",
            Some("Button"),
            vec![
                attr("nwg_control", vec![param("text", str_expr("Button"))]),
                attr("nwg_layout_item", vec![param("layout", path_expr(&["my_layout"])), param("col", int_expr(0)), param("row", int_expr(0))]),
            ],
        ),
    ]
}

fn build(fields: &Vec<FieldInfo>, partial: bool) -> Result<NwgUi, DeriveError> {
    NwgUi::build(fields, &Vec::new(), partial)
}

#[test]
fn basic_app_builds() {
    let ui = build(&basic_app(), false).ok().unwrap();
    assert_eq!(ui.controls.len(), 2);
    assert_eq!(ui.controls[0].id, "window");
    assert!(ui.controls[0].parent_id.is_none());
    assert_eq!(ui.controls[0].weight, [0, 0]);
    assert_eq!(names_of(&ui.controls[0]), vec!["title".to_string()]);
    assert_eq!(ui.controls[1].id, "button");
    assert_eq!(ui.controls[1].parent_id.as_deref(), Some("window"));
    assert_eq!(value_text(&ui.controls[1], "parent").as_deref(), Some("&data.window"));
    assert_eq!(ui.controls[1].weight, [1, 3]);
    match &ui.controls[1].layout {
        Some(LayoutChild::Grid(g)) => assert!(*g == GridLayoutChild { col: 0, row: 0, col_span: 1, row_span: 1 }),
        _ => panic!("the button is not in the grid"),
    }
    assert_eq!(ui.controls[1].layout_index, 0);
    assert_eq!(ui.resources.len(), 1);
    assert_eq!(ui.resources[0].id, "font");
    assert_eq!(ui.resources[0].ty, "Font");
    assert_eq!(ui.layouts.len(), 1);
    assert_eq!(layout_value_text(&ui.layouts[0], "parent").as_deref(), Some("&ui.window"));
    assert!(ui.layouts[0].build_call() == LayoutBuild::Plain);
    assert_eq!(ui.partials.len(), 0);
    assert!(ui.root_id.is_none());
    assert_eq!(ui.events.handles, vec!["window".to_string()]);
    assert!(!ui.has_shortcuts());
    assert!(ui.subclass_root().is_none());
}

#[test]
fn layout_children_of_basic_app() {
    let ui = build(&basic_app(), false).ok().unwrap();
    let children = ui.layout_children(0);
    assert_eq!(children.len(), 1);
    assert!(children[0].source == ChildSource::Control);
    assert_eq!(children[0].index, 1);
    assert_eq!(children[0].weight, 3);
    assert!(ui.layout_children(1).is_empty());
}

#[test]
fn law_parents_first_example() {
    // a tab container, a tab inside it, a button inside the tab: each after its parent
    let fields = vec![
        field("button", Some("Button"), vec![attr("nwg_control", vec![param("parent", path_expr(&["tab"]))])]),
        field("window", Some("Window"), vec![attr("nwg_control", vec![])]),
        field("tabs", Some("TabsContainer"), vec![attr("nwg_control", vec![])]),
        field("tab", Some("Tab"), vec![attr("nwg_control", vec![])]),
    ];
    let ui = build(&fields, false).ok().unwrap();
    let ids: Vec<&str> = ui.controls.iter().map(|c| c.id.as_str()).collect();
    assert_eq!(ids, vec!["window", "tabs", "tab", "button"]);
    for (i, c) in ui.controls.iter().enumerate() {
        if let Some(p) = &c.parent_id {
            let j = ui.controls.iter().position(|d| &d.id == p).unwrap();
            assert!(j < i);
        }
    }
    assert_eq!(ui.controls[1].parent_id.as_deref(), Some("window"));
    assert_eq!(ui.controls[2].parent_id.as_deref(), Some("tabs"));
    assert_eq!(ui.controls[3].parent_id.as_deref(), Some("tab"));
    assert_eq!(value_text(&ui.controls[3], "parent").as_deref(), Some("&data.tab"));
    assert_eq!(ui.controls[3].weight, [3, 0]);
}

#[test]
fn law_layouts_have_parent_example() {
    let fields = vec![
        field("window", Some("Window"), vec![attr("nwg_control", vec![]), attr("nwg_root", vec![])]),
        field("layout", Some("FlexboxLayout"), vec![attr("nwg_layout", vec![])]),
    ];
    let ui = build(&fields, false).ok().unwrap();
    assert_eq!(ui.root_id.as_deref(), Some("window"));
    assert_eq!(ui.root_type.as_deref(), Some("Window"));
    assert!(ui.layouts.iter().all(|l| l.names.iter().any(|n| n == "parent")));
    assert_eq!(layout_value_text(&ui.layouts[0], "parent").as_deref(), Some("&ui.window"));
    let (id, ty) = ui.subclass_root().unwrap();
    assert_eq!(id, "window");
    assert_eq!(ty, "Window");
}

#[test]
fn partial_layout_uses_partial_parent() {
    let fields = vec![
        field("button", Some("Button"), vec![attr("nwg_control", vec![])]),
        field("layout", Some("FlexboxLayout"), vec![attr("nwg_layout", vec![])]),
    ];
    let ui = build(&fields, true).ok().unwrap();
    assert_eq!(layout_value_text(&ui.layouts[0], "parent").as_deref(), Some("parent_ref.unwrap()"));
    assert_eq!(value_text(&ui.controls[0], "parent").as_deref(), Some("parent_ref.unwrap()"));
    assert_eq!(ui.controls[0].parent_id.as_deref(), Some("parent"));
    assert!(ui.layouts[0].build_call() == LayoutBuild::Conditional);
}

#[test]
fn layout_without_parent_outside_partial_fails() {
    let fields = vec![
        field("button", Some("Button"), vec![attr("nwg_control", vec![])]),
        field("layout", Some("GridLayout"), vec![attr("nwg_layout", vec![])]),
    ];
    match build(&fields, false) {
        Err(DeriveError::LayoutParentMissing { field_index }) => assert_eq!(field_index, 1),
        _ => panic!("expected a missing layout parent"),
    }
}

#[test]
fn nested_layouts_are_reordered_and_matched() {
    // the row layout is an item of the window layout, declared after it
    let fields = vec![
        field("window", Some("Window"), vec![attr("nwg_control", vec![])]),
        field("window_layout", Some("FlexboxLayout"), vec![attr("nwg_layout", vec![param("parent", path_expr(&["window"]))])]),
        field(
            "row_layout",
            Some("FlexboxLayout"),
            vec![
                attr("nwg_layout", vec![param("parent", path_expr(&["window"]))]),
                attr("nwg_layout_item", vec![param("layout", path_expr(&["window_layout"])), param("flex_grow", other("2.0"))]),
            ],
        ),
        field(
            "left",
            Some("TextInput"),
            vec![attr("nwg_control", vec![]), attr("nwg_layout_item", vec![param("layout", path_expr(&["row_layout"]))])],
        ),
    ];
    let ui = build(&fields, false).ok().unwrap();
    // gathered as [window_layout, row_layout], then reversed: the inner layout is built first
    let ids: Vec<&str> = ui.layouts.iter().map(|l| l.id.as_str()).collect();
    assert_eq!(ids, vec!["row_layout", "window_layout"]);
    match &ui.layouts[0].layout {
        Some(LayoutChild::Flexbox(f)) => {
            assert_eq!(f.param_names, vec!["child_flex_grow".to_string()]);
            assert_eq!(f.param_values[0].text, "2.0");
        },
        _ => panic!("the row layout is not a flexbox item"),
    }
    assert_eq!(ui.layouts[0].layout_index, 1);
    assert!(ui.layouts[0].build_call() == LayoutBuild::Partial);
    assert!(ui.layouts[1].build_call() == LayoutBuild::Plain);
    assert_eq!(ui.controls[1].layout_index, 0);
    let children = ui.layout_children(1);
    assert_eq!(children.len(), 1);
    assert!(children[0].source == ChildSource::Layout);
    assert_eq!(children[0].index, 0);
}

#[test]
fn a_layout_declared_after_its_child_goes_before_it() {
    // the child layout is declared first: the parent is inserted before it
    let fields = vec![
        field("window", Some("Window"), vec![attr("nwg_control", vec![])]),
        field(
            "row_layout",
            Some("FlexboxLayout"),
            vec![
                attr("nwg_layout", vec![param("parent", path_expr(&["window"]))]),
                attr("nwg_layout_item", vec![param("layout", path_expr(&["window_layout"]))]),
            ],
        ),
        field("window_layout", Some("FlexboxLayout"), vec![attr("nwg_layout", vec![param("parent", path_expr(&["window"]))])]),
    ];
    let ui = build(&fields, false).ok().unwrap();
    let ids: Vec<&str> = ui.layouts.iter().map(|l| l.id.as_str()).collect();
    assert_eq!(ids, vec!["row_layout", "window_layout"]);
    assert_eq!(ui.layouts[0].layout_index, 1);
}

fn other(t: &str) -> ParamExpr {
    ParamExpr { kind: ExprKind::Other, text: t.to_string() }
}

#[test]
fn attribute_parse_error_is_reported() {
    let mut a = attr("nwg_control", vec![]);
    a.params = Err("expected `:`".to_string());
    let fields = vec![field("window", Some("Window"), vec![a])];
    match build(&fields, false) {
        Err(DeriveError::AttrParse(m)) => assert_eq!(m, "expected `:`"),
        _ => panic!("expected the parse error"),
    }
}

#[test]
fn unknown_field_type_is_reported() {
    let fields = vec![field("window", None, vec![attr("nwg_control", vec![])])];
    match build(&fields, false) {
        Err(DeriveError::UnknownFieldType { field, attr }) => {
            assert_eq!(field, "window");
            assert_eq!(attr, "nwg_control");
        },
        _ => panic!("expected an unknown type"),
    }
    // `ty` names the type
    let fields = vec![field("window", None, vec![attr("nwg_control", vec![param("ty", path_expr(&["Window"]))])])];
    let ui = build(&fields, false).ok().unwrap();
    assert_eq!(ui.controls[0].ty, "Window");
    assert!(ui.controls[0].names.is_empty());
}

#[test]
fn bad_parent_expression_is_reported() {
    let fields = vec![
        field("window", Some("Window"), vec![attr("nwg_control", vec![])]),
        field("button", Some("Button"), vec![attr("nwg_control", vec![param("parent", str_expr("window"))])]),
    ];
    match build(&fields, false) {
        Err(DeriveError::BadParentExpr { field }) => assert_eq!(field, "button"),
        _ => panic!("expected a bad parent"),
    }
}

#[test]
fn parent_cycle_is_reported() {
    let fields = vec![
        field("a", Some("Button"), vec![attr("nwg_control", vec![param("parent", path_expr(&["b"]))])]),
        field("b", Some("Button"), vec![attr("nwg_control", vec![param("parent", path_expr(&["a"]))])]),
    ];
    assert!(matches!(build(&fields, false), Err(DeriveError::ParentCycle)));
}

#[test]
fn layout_item_errors_are_reported() {
    let item = |ps: Vec<Param>| attr("nwg_layout_item", ps);
    let fields = vec![
        field("window", Some("Window"), vec![attr("nwg_control", vec![])]),
        field("grid", Some("GridLayout"), vec![attr("nwg_layout", vec![param("parent", path_expr(&["window"]))])]),
        field("b", Some("Button"), vec![attr("nwg_control", vec![]), item(vec![param("layout", path_expr(&["grid"])), param("col", str_expr("a"))])]),
    ];
    assert!(matches!(build(&fields, false), Err(DeriveError::LayoutItemNotInt)));
    let fields = vec![
        field("window", Some("Window"), vec![attr("nwg_control", vec![])]),
        field("boxes", Some("BoxLayout"), vec![attr("nwg_layout", vec![param("parent", path_expr(&["window"]))])]),
        field("b", Some("Button"), vec![attr("nwg_control", vec![]), item(vec![param("layout", path_expr(&["boxes"]))])]),
    ];
    match build(&fields, false) {
        Err(DeriveError::UnknownLayoutType { ty }) => assert_eq!(ty, "BoxLayout"),
        _ => panic!("expected an unknown layout type"),
    }
}

#[test]
fn flags_are_expanded() {
    let fields = vec![field("window", Some("Window"), vec![attr("nwg_control", vec![param("flags", str_expr("MAIN_WINDOW|VISIBLE"))])])];
    let ui = build(&fields, false).ok().unwrap();
    assert_eq!(value_text(&ui.controls[0], "flags").as_deref(), Some("WindowFlags::MAIN_WINDOW|WindowFlags::VISIBLE"));
    let fields = vec![field("window", Some("Window"), vec![attr("nwg_control", vec![param("flags", int_expr(3))])])];
    match build(&fields, false) {
        Err(DeriveError::FlagsNotStr { member }) => assert_eq!(member, "window"),
        _ => panic!("expected flags that are not a string"),
    }
    let fields = vec![field("window", Some("Window"), vec![attr("nwg_control", vec![param("flags", str_expr("MAIN WINDOW"))])])];
    match build(&fields, false) {
        Err(DeriveError::FlagsUnparsable { member, message }) => {
            assert_eq!(member, "window");
            assert!(!message.is_empty());
        },
        _ => panic!("expected flags that do not parse"),
    }
}

#[test]
fn grid_cells_of_nested_items() {
    let g = GridLayoutChild { col: 1, row: 2, col_span: 3, row_span: 1 };
    let cells = grid_cells(g, true).ok().unwrap();
    assert_eq!(cells.len(), 2);
    assert!(cells[0] == g);
    assert!(cells[1] == GridLayoutChild { col: 4, row: 2, col_span: 3, row_span: 1 });
    assert_eq!(grid_cells(g, false).ok().unwrap().len(), 1);
    let far = GridLayoutChild { col: u32::MAX, row: 0, col_span: 1, row_span: 1 };
    assert!(matches!(grid_cells(far, true), Err(DeriveError::GridColumnOverflow)));
}

#[test]
fn sorting_controls_by_weight() {
    let fields = vec![
        field("button", Some("Button"), vec![attr("nwg_control", vec![param("parent", path_expr(&["window"]))])]),
        field("window", Some("Window"), vec![attr("nwg_control", vec![])]),
    ];
    let ui = build(&fields, false).ok().unwrap();
    let again = sort_controls(ui.controls);
    let ids: Vec<&str> = again.iter().map(|c| c.id.as_str()).collect();
    assert_eq!(ids, vec!["window", "button"]);
}

#[test]
fn partials_get_the_root_as_parent() {
    let fields = vec![
        field("window", Some("Window"), vec![attr("nwg_control", vec![]), attr("nwg_root", vec![])]),
        field("part", Some("MyPartial"), vec![attr("nwg_partial", vec![])]),
        field("other", Some("MyPartial"), vec![attr("nwg_partial", vec![param("parent", path_expr(&["window"]))])]),
    ];
    let ui = build(&fields, false).ok().unwrap();
    assert_eq!(ui.partials.len(), 2);
    assert_eq!(ui.partials[0].parent.as_deref(), Some("window"));
    assert_eq!(ui.partials[1].parent.as_deref(), Some("window"));
    assert!(ui.partials[0].as_layout_p);
    assert_eq!(ui.events.partial_members, vec!["part".to_string(), "other".to_string()]);
    assert_eq!(ui.partials_len(), 2);
}

#[test]
fn field_kinds_and_crate_name() {
    assert!(matches!(FieldKind::Control, FieldKind::Control));
    assert_eq!(crate_ident(&None), "native_windows_gui");
    assert_eq!(crate_ident(&Some("nwg".to_string())), "nwg");
    let ev = ControlEvents::with_capacity(false, 4);
    assert_eq!(ev.shortcuts_len(), 0);
}

#[test]
fn law_plain_fields_untouched_example() {
    let mut fields = basic_app();
    fields.insert(1, field("data", Some("Window"), vec![]));
    fields.push(field("count", Some("u32"), vec![]));
    let ui = build(&fields, false).ok().unwrap();
    let ids: Vec<String> = ui.controls.iter().map(|c| c.id.clone()).collect();
    assert_eq!(ids, vec!["window".to_string(), "button".to_string()]);
    assert_eq!(ui.resources.len(), 1);
    assert_eq!(ui.layouts.len(), 1);
    assert_eq!(ui.partials.len(), 0);
    assert_eq!(ui.events.handles, vec!["window".to_string()]);
}

#[test]
fn first_layout_failure_is_reported() {
    let item = |ps: Vec<Param>| attr("nwg_layout_item", ps);
    // layouts are resolved in reverse order of declaration: the bad parent
    // of `b` is reported before the missing parent of `a`
    let fields = vec![
        field("a", Some("GridLayout"), vec![attr("nwg_layout", vec![])]),
        field("b", Some("GridLayout"), vec![attr("nwg_layout", vec![param("parent", other("3"))])]),
    ];
    match build(&fields, false) {
        Err(DeriveError::BadParentExpr { field }) => assert_eq!(field, "b"),
        _ => panic!("expected the bad parent of `b`"),
    }
    let fields = vec![
        field("a", Some("GridLayout"), vec![attr("nwg_layout", vec![param("parent", other("3"))])]),
        field("b", Some("GridLayout"), vec![attr("nwg_layout", vec![])]),
    ];
    match build(&fields, false) {
        Err(DeriveError::LayoutParentMissing { field_index }) => assert_eq!(field_index, 1),
        _ => panic!("expected the missing parent of `b`"),
    }
    // the items of a layout are matched right after its parent: the bad
    // item of `b` is reported before the bad parent of `a`
    let fields = vec![
        field("w", Some("Window"), vec![attr("nwg_control", vec![]), attr("nwg_root", vec![])]),
        field("a", Some("GridLayout"), vec![attr("nwg_layout", vec![param("parent", other("3"))])]),
        field("b", Some("GridLayout"), vec![attr("nwg_layout", vec![])]),
        field("x", Some("Button"), vec![attr("nwg_control", vec![]), item(vec![param("layout", path_expr(&["b"])), param("col", str_expr("a"))])]),
    ];
    assert!(matches!(build(&fields, false), Err(DeriveError::LayoutItemNotInt)));
}
