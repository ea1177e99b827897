use native_windows::error::DeriveError;
use native_windows::flags::{compressed_flags_text, flags_result};
use native_windows::flexbox::{size_from_lparam, Axis, FlexChild, FlexDirection, FlexboxChildren, FlexboxLayoutBuilder, LayoutError};
use native_windows::naming::{parse_base_names, to_snake_case};
use native_windows::text::{compare_text, Order};
use native_windows::win::{get_key_state, tab_class_id, tab_class_module, tab_proc_result, WM_CREATE};

#[test]
fn snake_case_names() {
    assert_eq!(to_snake_case("BasicApp"), "basic_app");
    assert_eq!(to_snake_case(""), "");
    assert_eq!(to_snake_case("ABC"), "a_b_c");
    assert_eq!(to_snake_case("already_snake"), "already_snake");
    assert_eq!(to_snake_case("ÉcoleApp"), "École_app");
}

#[test]
fn law_snake_case_idempotent_example() {
    let once = to_snake_case("MyGreatUIApp");
    assert_eq!(once, "my_great_u_i_app");
    assert_eq!(to_snake_case(&once), once);
}

#[test]
fn base_names() {
    let n = parse_base_names("BasicApp");
    assert_eq!(n.module, "basic_app_ui");
    assert_eq!(n.partial_module, "partial_basic_app_ui");
    assert_eq!(n.struct_name, "BasicApp");
    assert_eq!(n.struct_ui, "BasicAppUi");
}

#[test]
fn text_order() {
    assert!(compare_text("OnInit", "OnKeyPress") == Order::Less);
    assert!(compare_text("b", "a") == Order::Greater);
    assert!(compare_text("same", "same") == Order::Equal);
    assert!(compare_text("ab", "abc") == Order::Less);
}

#[test]
fn key_states_and_tabs() {
    assert_eq!(get_key_state(-128), 1);
    assert_eq!(get_key_state(i16::MIN), 1);
    assert_eq!(get_key_state(0), 0);
    assert_eq!(get_key_state(1), 0);
    assert_eq!(tab_class_id(), "NWG_TAB");
    assert_eq!(tab_proc_result(WM_CREATE), Some(0));
    assert_eq!(tab_proc_result(0x000F), None);
}

#[test]
fn flexbox_builder_plan() {
    let b = FlexboxLayoutBuilder::new();
    assert!(b.auto_size);
    assert_eq!(b.auto_spacing, Some(5));
    match FlexboxLayoutBuilder::new().child(FlexChild::Item(3)).build_partial() {
        Err(LayoutError::Create(m)) => assert_eq!(m, "Flexboxlayout does not have a parent."),
        Ok(_) => panic!("built without parent"),
    }
    let plan = FlexboxLayoutBuilder::new()
        .parent(10)
        .flex_direction(FlexDirection::Column)
        .child(FlexChild::Item(1))
        .child(FlexChild::Flexbox(2))
        .build_partial()
        .ok()
        .unwrap();
    assert_eq!(plan.base, 10);
    assert!(plan.auto_size == Some((Axis::Height, 2)));
    assert_eq!(plan.auto_spacing, Some(5));
    assert!(plan.children == vec![FlexChild::Item(1), FlexChild::Flexbox(2)]);
    let plan = FlexboxLayoutBuilder::new().parent(10).child(FlexChild::Item(1)).child_sizing().padding().build_partial().ok().unwrap();
    assert!(plan.auto_size.is_none());
    assert!(plan.auto_spacing.is_none());
    let plan = FlexboxLayoutBuilder::new().parent(1).flex_direction(FlexDirection::RowReverse).child(FlexChild::Item(1)).build_partial().ok().unwrap();
    assert!(plan.auto_size == Some((Axis::Width, 1)));
    let b = FlexboxLayoutBuilder::new().child(FlexChild::Item(7)).child(FlexChild::Item(8));
    assert!(b.current_child() == Some(FlexChild::Item(8)));
    assert!(FlexboxLayoutBuilder::new().current_child().is_none());
    let b = FlexboxLayoutBuilder::new().child(FlexChild::Item(7)).child_margin();
    assert!(b.auto_spacing.is_none());
}

#[test]
fn flexbox_children_laws_example() {
    let mut c = FlexboxChildren { children: vec![FlexChild::Item(1), FlexChild::Flexbox(5)] };
    assert!(!c.has_child(9));
    let before = c.children.clone();
    c.add_child(9);
    assert!(c.has_child(9));
    assert_eq!(c.find_child(9), Some(2));
    c.remove_child(9);
    assert!(c.children == before);
    assert!(!c.has_child(5));
}

#[test]
fn resize_message_size() {
    assert_eq!(size_from_lparam(0x0050_0064), (100, 80));
    assert_eq!(size_from_lparam(0), (0, 0));
    assert_eq!(size_from_lparam(0xFFFF_FFFF), (65535, 65535));
}

#[test]
fn compressed_flags() {
    assert_eq!(compressed_flags_text("Button", "VISIBLE|DISABLED"), "ButtonFlags::VISIBLE|ButtonFlags::DISABLED");
    assert_eq!(compressed_flags_text("Window", "NONE"), "WindowFlags::NONE");
    assert_eq!(compressed_flags_text("Window", ""), "WindowFlags::");
    let ok = flags_result("window", "WindowFlags::NONE".to_string(), None).ok().unwrap();
    assert_eq!(ok.text, "WindowFlags::NONE");
    match flags_result("window", "WindowFlags::A B".to_string(), Some("unexpected token".to_string())) {
        Err(DeriveError::FlagsUnparsable { member, message }) => {
            assert_eq!(member, "window");
            assert_eq!(message, "unexpected token");
        }
        _ => panic!("expected the parse message"),
    }
}

#[test]
fn tab_class_needs_a_module() {
    match tab_class_module(0) {
        Err(m) => assert_eq!(m, "GetModuleHandleW failed"),
        Ok(_) => panic!("a null module handle was accepted"),
    }
    assert_eq!(tab_class_module(0x400000), Ok(0x400000));
}
