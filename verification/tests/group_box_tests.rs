use native_windows::group_box::{
    check_hwnd, font_from_handle, ControlHandle, Font, GroupBox, HandleError, NwgError, WindowOp, _GroupBox, BS_GROUPBOX,
    WM_ERASEBKGND, WM_SIZE, WS_CHILD, WS_CLIPCHILDREN, WS_CLIPSIBLINGS, WS_DISABLED, WS_EX_CONTROLPARENT, WS_VISIBLE,
};

#[test]
fn group_box_builder_defaults() {
    let b = GroupBox::builder();
    assert_eq!(b.text, "GroupBox");
    assert_eq!(b.size, (100, 25));
    assert_eq!(b.position, (0, 0));
    assert!(b.visible);
    assert!(b.enabled);
    assert_eq!(b.ex_flags, 0);
    assert!(b.font.is_none());
    assert!(b.parent.is_none());
}

#[test]
fn group_box_build_without_parent_fails() {
    match GroupBox::builder().text("Hello").build() {
        Err(NwgError::NoParent(name)) => assert_eq!(name, "GroupBox"),
        Ok(_) => panic!("a group box without parent was built"),
    }
}

#[test]
fn group_box_build_plan() {
    let plan = GroupBox::builder()
        .text("Hello")
        .size((300, 200))
        .position((5, 6))
        .ex_flags(0x20)
        .font(Some(Font { handle: 77 }))
        .parent(ControlHandle::Hwnd(42))
        .build()
        .ok()
        .unwrap();
    assert_eq!(plan.frame.class_name, "NWG_FRAME");
    assert_eq!(plan.frame.forced_flags, WS_CHILD | WS_CLIPCHILDREN | WS_CLIPSIBLINGS);
    assert_eq!(plan.frame.flags, WS_VISIBLE);
    assert_eq!(plan.frame.ex_flags, WS_EX_CONTROLPARENT | 0x20);
    assert_eq!(plan.frame.size, (300, 200));
    assert_eq!(plan.frame.position, (5, 6));
    assert_eq!(plan.frame.text, "Hello");
    assert!(plan.frame.parent == ControlHandle::Hwnd(42));
    assert_eq!(plan.groupbox.text, "Hello");
    assert_eq!(plan.groupbox.size, (300, 200));
    assert_eq!(plan.groupbox.position, (0, 0));
    assert_eq!(plan.groupbox.flags, WS_VISIBLE);
    assert_eq!(plan.groupbox.ex_flags, 0);
    assert!(plan.groupbox.parent.is_none());
    assert!(plan.font == Some(Font { handle: 77 }));
}

#[test]
fn group_box_hidden_and_disabled_flags() {
    let plan = GroupBox::builder().visible(false).enabled(false).parent(ControlHandle::Hwnd(1)).build().ok().unwrap();
    assert_eq!(plan.frame.flags, WS_DISABLED);
    let plan = GroupBox::builder().visible(true).enabled(false).parent(ControlHandle::Hwnd(1)).build().ok().unwrap();
    assert_eq!(plan.frame.flags, WS_VISIBLE | WS_DISABLED);
    let plan = GroupBox::builder().visible(false).enabled(true).parent(ControlHandle::Hwnd(1)).build().ok().unwrap();
    assert_eq!(plan.frame.flags, 0);
}

#[test]
fn raw_group_box_builder_and_build() {
    let b = _GroupBox::builder();
    assert_eq!(b.text, "_GroupBox");
    assert_eq!(b.size, (100, 25));
    assert_eq!(b.flags, 0);
    match _GroupBox::builder().build() {
        Err(NwgError::NoParent(name)) => assert_eq!(name, "_GroupBox"),
        Ok(_) => panic!("built without parent"),
    }
    let w = _GroupBox::builder()
        .text("Label")
        .flags(3)
        .ex_flags(4)
        .size((10, 20))
        .position((1, 2))
        .parent(ControlHandle::Hwnd(9))
        .build()
        .ok()
        .unwrap();
    assert_eq!(w.window.class_name, "BUTTON");
    assert_eq!(w.window.forced_flags, WS_CHILD | BS_GROUPBOX);
    assert_eq!(w.window.flags, 3);
    assert_eq!(w.window.ex_flags, 4);
    assert_eq!(w.window.size, (10, 20));
    assert_eq!(w.window.position, (1, 2));
    assert_eq!(w.window.text, "Label");
    assert!(w.font.is_none());
}

#[test]
fn class_names() {
    let g = GroupBox { handle: ControlHandle::Hwnd(1), groupbox_w32: _GroupBox { handle: ControlHandle::Hwnd(2) } };
    assert_eq!(g.class_name(), "NWG_FRAME");
    assert_eq!(g.groupbox_w32.class_name(), "BUTTON");
    assert_eq!(g.flags(), WS_VISIBLE);
}

#[test]
fn operations_target_the_right_window() {
    let g = GroupBox { handle: ControlHandle::Hwnd(1), groupbox_w32: _GroupBox { handle: ControlHandle::Hwnd(2) } };
    let t = g.text();
    assert_eq!(t.hwnd, 2);
    assert!(matches!(t.op, WindowOp::GetText));
    let f = g.font();
    assert_eq!(f.hwnd, 2);
    assert!(matches!(f.op, WindowOp::GetFont));
    let e = g.enabled();
    assert_eq!(e.hwnd, 2);
    let s = g.set_text("abc");
    assert_eq!(s.hwnd, 2);
    match s.op {
        WindowOp::SetText(v) => assert_eq!(v, "abc"),
        _ => panic!("wrong operation"),
    }
    let v = g.visible();
    assert_eq!(v.hwnd, 1);
}

#[test]
fn frame_resize_follows_window() {
    let g = GroupBox { handle: ControlHandle::Hwnd(1), groupbox_w32: _GroupBox { handle: ControlHandle::Hwnd(2) } };
    let c = g.on_frame_message(WM_SIZE, (120, 80)).unwrap();
    assert_eq!(c.hwnd, 2);
    assert!(matches!(c.op, WindowOp::SetSize(120, 80)));
    assert!(g.on_frame_message(0x0200, (120, 80)).is_none());
}

#[test]
fn handle_checks() {
    assert!(matches!(check_hwnd(&ControlHandle::NoHandle), Err(HandleError::NotBound)));
    assert!(matches!(check_hwnd(&ControlHandle::Other(3)), Err(HandleError::BadHandle)));
    assert!(matches!(check_hwnd(&ControlHandle::Hwnd(5)), Ok(5)));
    assert!(font_from_handle(0).is_none());
    assert!(font_from_handle(12) == Some(Font { handle: 12 }));
}

#[test]
fn raw_group_box_window_operations() {
    let g = _GroupBox { handle: ControlHandle::Hwnd(9) };
    let c = g.set_size(40, 50);
    assert_eq!(c.hwnd, 9);
    assert!(matches!(c.op, WindowOp::SetSize(40, 50)));
    assert!(matches!(g.position().op, WindowOp::GetPosition));
    assert!(matches!(g.set_position(-3, 4).op, WindowOp::SetPosition(-3, 4)));
    assert!(matches!(g.visible().op, WindowOp::GetVisible));
    assert!(matches!(g.set_visible(false).op, WindowOp::SetVisible(false)));
    assert!(matches!(g.size().op, WindowOp::GetSize));
}

#[test]
fn raw_group_box_erases_its_background() {
    assert_eq!(_GroupBox::on_message(WM_ERASEBKGND, (30, 40)), Some((0, 0, 30, 40)));
    assert_eq!(_GroupBox::on_message(WM_SIZE, (30, 40)), None);
}
