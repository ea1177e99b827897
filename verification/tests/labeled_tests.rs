use native_windows::group_box::{ControlHandle, Font, NwgError};
use native_windows::labeled::{HTextAlign, LabeledComboBuilder, LabeledEditBuilder, VTextAlign};

#[test]
fn labeled_combo_without_parent_fails() {
    match LabeledComboBuilder::<u32>::new().build() {
        Err(NwgError::NoParent(n)) => assert_eq!(n, "LabeledCombo"),
        Ok(_) => panic!("built without a parent"),
    }
}

#[test]
fn labeled_combo_plan() {
    let mut b = LabeledComboBuilder::<&str>::new();
    b.label_text = "Data".to_string();
    b.size = (200, 300);
    b.collection = Some(vec!["one", "two"]);
    b.selected_index = Some(0);
    b.font = Some(Font { handle: 5 });
    b.flags = Some(0x3);
    b.enabled = false;
    b.parent = Some(ControlHandle::Hwnd(42));
    let plan = b.v_align(VTextAlign::Bottom).build().ok().unwrap();
    assert!(plan.label.parent == ControlHandle::Hwnd(42));
    assert_eq!(plan.label.text, "Data");
    assert!(plan.label.h_align == HTextAlign::Left);
    assert!(plan.label.v_align == VTextAlign::Top);
    assert!(plan.field.parent == ControlHandle::Hwnd(42));
    assert_eq!(plan.field.flags, Some(0x3));
    assert_eq!(plan.field.size, (200, 300));
    assert!(plan.field.font == Some(Font { handle: 5 }));
    assert!(!plan.field.enabled);
    assert!(plan.field.autoscroll && plan.field.scrollbar);
    assert!(plan.layout_parent == ControlHandle::Hwnd(42));
    assert_eq!(plan.collection, Some(vec!["one", "two"]));
    assert_eq!(plan.selection, Some(0));
    assert!(!plan.enabled);
}

#[test]
fn labeled_edit_plan() {
    match LabeledEditBuilder::new().build() {
        Err(NwgError::NoParent(n)) => assert_eq!(n, "LabeledEdit"),
        Ok(_) => panic!("built without a parent"),
    }
    let mut b = LabeledEditBuilder::new();
    b.label_text = "Hello".to_string();
    b.text = "World".to_string();
    b.password = Some('*');
    b.background_color = Some([1, 2, 3]);
    b.parent = Some(ControlHandle::Hwnd(7));
    let plan = b.build().ok().unwrap();
    assert_eq!(plan.label.text, "Hello");
    assert!(plan.label.v_align == VTextAlign::Center);
    assert!(plan.label.background_color.is_none());
    assert_eq!(plan.field.text, "World");
    assert_eq!(plan.field.password, Some('*'));
    assert!(plan.field.flags.is_none());
    assert_eq!(plan.field.size, (100, 25));
    assert!(plan.layout_parent == ControlHandle::Hwnd(7));
}
