//! The group box control: a frame window holding a `BUTTON` window of style
//! `BS_GROUPBOX`. The library decides every window operation (which window,
//! which class, which flags, which values); the caller performs them on the
//! system and hands back what the system answers.

use vstd::prelude::*;
use crate::text::from_str;

verus! {

/// `WS_VISIBLE`.
pub const WS_VISIBLE: u32 = 0x1000_0000;
/// `WS_DISABLED`.
pub const WS_DISABLED: u32 = 0x0800_0000;
/// `WS_CHILD`.
pub const WS_CHILD: u32 = 0x4000_0000;
/// `WS_CLIPCHILDREN`.
pub const WS_CLIPCHILDREN: u32 = 0x0200_0000;
/// `WS_CLIPSIBLINGS`.
pub const WS_CLIPSIBLINGS: u32 = 0x0400_0000;
/// `BS_GROUPBOX`.
pub const BS_GROUPBOX: u32 = 0x0000_0007;
/// `WS_EX_CONTROLPARENT`.
pub const WS_EX_CONTROLPARENT: u32 = 0x0001_0000;
/// `WM_SIZE`.
pub const WM_SIZE: u32 = 0x0005;
/// `WM_ERASEBKGND`.
pub const WM_ERASEBKGND: u32 = 0x0014;

/// A handle to something the UI system created: nothing yet, a window (by
/// the address of its `HWND`), or another kind of object.
#[derive(Clone, Copy, PartialEq, Eq, Structural)]
pub enum ControlHandle {
    NoHandle,
    Hwnd(usize),
    Other(usize),
}

impl ControlHandle {
    /// Not bound to anything yet.
    pub fn blank(&self) -> (r: bool)
        ensures
            r == (*self is NoHandle),
    {
        match self {
            ControlHandle::NoHandle => true,
            _ => false,
        }
    }

    /// The window handle, if this is a window.
    pub fn hwnd(&self) -> (r: Option<usize>)
        ensures
            match *self {
                ControlHandle::Hwnd(h) => r == Some(h),
                _ => r is None,
            },
    {
        match self {
            ControlHandle::Hwnd(h) => Some(*h),
            _ => None,
        }
    }
}

/// A font, by the address of its `HFONT`.
#[derive(Clone, Copy, PartialEq, Eq, Structural)]
pub struct Font {
    pub handle: usize,
}

/// Why a control operation cannot be done.
pub enum HandleError {
    /// The control is not yet bound to a window.
    NotBound,
    /// The control's handle is not a window.
    BadHandle,
}

/// Errors of building a control.
pub enum NwgError {
    /// The builder has no parent; the name of the control.
    NoParent(String),
}

/// The window handle of a control, or why there is none.
pub fn check_hwnd(handle: &ControlHandle) -> (r: Result<usize, HandleError>)
    ensures
        match *handle {
            ControlHandle::Hwnd(h) => r == Ok::<usize, HandleError>(h),
            ControlHandle::NoHandle => r matches Err(HandleError::NotBound),
            ControlHandle::Other(_) => r matches Err(HandleError::BadHandle),
        },
{
    if handle.blank() {
        return Err(HandleError::NotBound);
    }
    match handle.hwnd() {
        Some(h) => Ok(h),
        None => Err(HandleError::BadHandle),
    }
}

/// One operation on a window.
pub enum WindowOp {
    GetFont,
    /// Set the font (or the system font), redrawing the window.
    SetFont(Option<Font>),
    GetEnabled,
    SetEnabled(bool),
    GetVisible,
    SetVisible(bool),
    GetSize,
    SetSize(u32, u32),
    GetPosition,
    SetPosition(i32, i32),
    GetText,
    SetText(String),
}

/// An operation on the window `hwnd`.
pub struct WindowCall {
    pub hwnd: usize,
    pub op: WindowOp,
}

/// The font a window reports: none for a null handle.
pub fn font_from_handle(raw: usize) -> (r: Option<Font>)
    ensures
        raw == 0 ==> r is None,
        raw != 0 ==> r == Some(Font { handle: raw }),
{
    if raw == 0 {
        None
    } else {
        Some(Font { handle: raw })
    }
}

/// The parameters of a window to create.
pub struct WindowParams {
    pub class_name: String,
    pub forced_flags: u32,
    pub flags: u32,
    pub ex_flags: u32,
    pub size: (i32, i32),
    pub position: (i32, i32),
    pub text: String,
    pub parent: ControlHandle,
}

/// The raw `BUTTON` window of style `BS_GROUPBOX`.
pub struct _GroupBox {
    pub handle: ControlHandle,
}

impl _GroupBox {
    pub fn builder() -> (r: _GroupBoxBuilder)
        ensures
            r.text@ == "_GroupBox"@,
            r.size == (100i32, 25i32),
            r.position == (0i32, 0i32),
            r.flags == 0,
            r.ex_flags == 0,
            r.font is None,
            r.parent is None,
    {
        _GroupBoxBuilder {
            text: from_str("_GroupBox"),
            size: (100, 25),
            position: (0, 0),
            flags: 0,
            ex_flags: 0,
            font: None,
            parent: None,
        }
    }

    /// Reads the font of the window (answered by `font_from_handle`).
    pub fn font(&self) -> (r: WindowCall)
        requires
            self.handle is Hwnd,
        ensures
            r.hwnd == self.handle->Hwnd_0,
            r.op is GetFont,
    {
        WindowCall { hwnd: self.handle.hwnd().unwrap(), op: WindowOp::GetFont }
    }

    /// Sets the font of the window, redrawing it.
    pub fn set_font(&self, font: Option<Font>) -> (r: WindowCall)
        requires
            self.handle is Hwnd,
        ensures
            r.hwnd == self.handle->Hwnd_0,
            r.op == WindowOp::SetFont(font),
    {
        WindowCall { hwnd: self.handle.hwnd().unwrap(), op: WindowOp::SetFont(font) }
    }

    pub fn enabled(&self) -> (r: WindowCall)
        requires
            self.handle is Hwnd,
        ensures
            r.hwnd == self.handle->Hwnd_0,
            r.op is GetEnabled,
    {
        WindowCall { hwnd: self.handle.hwnd().unwrap(), op: WindowOp::GetEnabled }
    }

    pub fn set_enabled(&self, v: bool) -> (r: WindowCall)
        requires
            self.handle is Hwnd,
        ensures
            r.hwnd == self.handle->Hwnd_0,
            r.op == WindowOp::SetEnabled(v),
    {
        WindowCall { hwnd: self.handle.hwnd().unwrap(), op: WindowOp::SetEnabled(v) }
    }

    pub fn visible(&self) -> (r: WindowCall)
        requires
            self.handle is Hwnd,
        ensures
            r.hwnd == self.handle->Hwnd_0,
            r.op is GetVisible,
    {
        WindowCall { hwnd: self.handle.hwnd().unwrap(), op: WindowOp::GetVisible }
    }

    pub fn set_visible(&self, v: bool) -> (r: WindowCall)
        requires
            self.handle is Hwnd,
        ensures
            r.hwnd == self.handle->Hwnd_0,
            r.op == WindowOp::SetVisible(v),
    {
        WindowCall { hwnd: self.handle.hwnd().unwrap(), op: WindowOp::SetVisible(v) }
    }

    pub fn size(&self) -> (r: WindowCall)
        requires
            self.handle is Hwnd,
        ensures
            r.hwnd == self.handle->Hwnd_0,
            r.op is GetSize,
    {
        WindowCall { hwnd: self.handle.hwnd().unwrap(), op: WindowOp::GetSize }
    }

    pub fn set_size(&self, x: u32, y: u32) -> (r: WindowCall)
        requires
            self.handle is Hwnd,
        ensures
            r.hwnd == self.handle->Hwnd_0,
            r.op == WindowOp::SetSize(x, y),
    {
        WindowCall { hwnd: self.handle.hwnd().unwrap(), op: WindowOp::SetSize(x, y) }
    }

    pub fn position(&self) -> (r: WindowCall)
        requires
            self.handle is Hwnd,
        ensures
            r.hwnd == self.handle->Hwnd_0,
            r.op is GetPosition,
    {
        WindowCall { hwnd: self.handle.hwnd().unwrap(), op: WindowOp::GetPosition }
    }

    pub fn set_position(&self, x: i32, y: i32) -> (r: WindowCall)
        requires
            self.handle is Hwnd,
        ensures
            r.hwnd == self.handle->Hwnd_0,
            r.op == WindowOp::SetPosition(x, y),
    {
        WindowCall { hwnd: self.handle.hwnd().unwrap(), op: WindowOp::SetPosition(x, y) }
    }

    pub fn text(&self) -> (r: WindowCall)
        requires
            self.handle is Hwnd,
        ensures
            r.hwnd == self.handle->Hwnd_0,
            r.op is GetText,
    {
        WindowCall { hwnd: self.handle.hwnd().unwrap(), op: WindowOp::GetText }
    }

    pub fn set_text(&self, v: &str) -> (r: WindowCall)
        requires
            self.handle is Hwnd,
        ensures
            r.hwnd == self.handle->Hwnd_0,
            r.op matches WindowOp::SetText(t) && t@ == v@,
    {
        WindowCall { hwnd: self.handle.hwnd().unwrap(), op: WindowOp::SetText(from_str(v)) }
    }

    /// Window class used to create the control.
    pub fn class_name(&self) -> (r: &'static str)
        ensures
            r@ == "BUTTON"@,
    {
        let r = "BUTTON";
        proof {
            reveal_strlit("BUTTON");
        }
        r
    }

    /// Window styles the control always has.
    pub fn forced_flags(&self) -> (r: u32)
        ensures
            r == WS_CHILD | BS_GROUPBOX,
    {
        WS_CHILD | BS_GROUPBOX
    }

    /// The background of the box to erase: from the
    /// origin to the bottom right corner of the window, in client coordinates.
    pub fn erase_rect(bottom_right: (i32, i32)) -> (r: (i32, i32, i32, i32))
        ensures
            r == (0i32, 0i32, bottom_right.0, bottom_right.1),
    {
        (0, 0, bottom_right.0, bottom_right.1)
    }

    /// What the group box window does with a message it receives: on
    /// `WM_ERASEBKGND` it fills the rectangle `erase_rect` gives with the
    /// window color; every other message is left to the default handling.
    /// `bottom_right` is the bottom right corner of the window, in client
    /// coordinates.
    pub fn on_message(msg: u32, bottom_right: (i32, i32)) -> (r: Option<(i32, i32, i32, i32)>)
        ensures
            msg == WM_ERASEBKGND ==> r == Some((0i32, 0i32, bottom_right.0, bottom_right.1)),
            msg != WM_ERASEBKGND ==> r is None,
    {
        if msg == WM_ERASEBKGND {
            Some(Self::erase_rect(bottom_right))
        } else {
            None
        }
    }
}

pub struct _GroupBoxBuilder {
    pub text: String,
    pub size: (i32, i32),
    pub position: (i32, i32),
    pub flags: u32,
    pub ex_flags: u32,
    pub font: Option<Font>,
    pub parent: Option<ControlHandle>,
}

/// The group box window that `_GroupBoxBuilder::build` creates, with the
/// font to set on it afterwards (`None`: the global default font).
pub struct GroupBoxWindow {
    pub window: WindowParams,
    pub font: Option<Font>,
}

impl _GroupBoxBuilder {
    pub fn flags(self, flags: u32) -> (r: _GroupBoxBuilder)
        ensures
            r == (_GroupBoxBuilder { flags, ..self }),
    {
        _GroupBoxBuilder { flags, ..self }
    }

    pub fn ex_flags(self, flags: u32) -> (r: _GroupBoxBuilder)
        ensures
            r == (_GroupBoxBuilder { ex_flags: flags, ..self }),
    {
        _GroupBoxBuilder { ex_flags: flags, ..self }
    }

    pub fn text(self, text: &str) -> (r: _GroupBoxBuilder)
        ensures
            r.text@ == text@,
            r == (_GroupBoxBuilder { text: r.text, ..self }),
    {
        _GroupBoxBuilder { text: from_str(text), ..self }
    }

    pub fn size(self, size: (i32, i32)) -> (r: _GroupBoxBuilder)
        ensures
            r == (_GroupBoxBuilder { size, ..self }),
    {
        _GroupBoxBuilder { size, ..self }
    }

    pub fn position(self, pos: (i32, i32)) -> (r: _GroupBoxBuilder)
        ensures
            r == (_GroupBoxBuilder { position: pos, ..self }),
    {
        _GroupBoxBuilder { position: pos, ..self }
    }

    pub fn font(self, font: Option<Font>) -> (r: _GroupBoxBuilder)
        ensures
            r == (_GroupBoxBuilder { font, ..self }),
    {
        _GroupBoxBuilder { font, ..self }
    }

    pub fn parent(self, p: ControlHandle) -> (r: _GroupBoxBuilder)
        ensures
            r == (_GroupBoxBuilder { parent: Some(p), ..self }),
    {
        _GroupBoxBuilder { parent: Some(p), ..self }
    }

    /// The window to create: a `BUTTON` with the
    /// builder's flags, size, position and text under its parent; fails
    /// without a parent.
    pub fn build(self) -> (r: Result<GroupBoxWindow, NwgError>)
        ensures
            match self.parent {
                None => r matches Err(NwgError::NoParent(n)) && n@ == "_GroupBox"@,
                Some(p) => r matches Ok(w) && {
                    &&& w.window.class_name@ == "BUTTON"@
                    &&& w.window.forced_flags == WS_CHILD | BS_GROUPBOX
                    &&& w.window.flags == self.flags
                    &&& w.window.ex_flags == self.ex_flags
                    &&& w.window.size == self.size
                    &&& w.window.position == self.position
                    &&& w.window.text@ == self.text@
                    &&& w.window.parent == p
                    &&& w.font == self.font
                },
            },
    {
        let parent = match self.parent {
            Some(p) => p,
            None => {
                return Err(NwgError::NoParent(from_str("_GroupBox")));
            },
        };
        let window = WindowParams {
            class_name: from_str("BUTTON"),
            forced_flags: WS_CHILD | BS_GROUPBOX,
            flags: self.flags,
            ex_flags: self.ex_flags,
            size: self.size,
            position: self.position,
            text: self.text,
            parent,
        };
        Ok(GroupBoxWindow { window, font: self.font })
    }
}

/// A group box: a frame window (`handle`) holding the group box window.
pub struct GroupBox {
    pub handle: ControlHandle,
    pub groupbox_w32: _GroupBox,
}

/// The base window styles of a group box for its visibility and state.
pub open spec fn frame_flags(visible: bool, enabled: bool) -> u32 {
    (if visible { WS_VISIBLE } else { 0u32 }) | (if enabled { 0u32 } else { WS_DISABLED })
}

impl GroupBox {
    pub fn builder() -> (r: GroupBoxBuilder)
        ensures
            r.text@ == "GroupBox"@,
            r.size == (100i32, 25i32),
            r.position == (0i32, 0i32),
            r.visible,
            r.enabled,
            r.ex_flags == 0,
            r.font is None,
            r.parent is None,
    {
        GroupBoxBuilder {
            text: from_str("GroupBox"),
            size: (100, 25),
            position: (0, 0),
            visible: true,
            enabled: true,
            ex_flags: 0,
            font: None,
            parent: None,
        }
    }

    /// Reads the font of the group box window.
    pub fn font(&self) -> (r: WindowCall)
        requires
            self.groupbox_w32.handle is Hwnd,
        ensures
            r.hwnd == self.groupbox_w32.handle->Hwnd_0,
            r.op is GetFont,
    {
        self.groupbox_w32.font()
    }

    /// Sets the font of the frame, then of the group box window.
    pub fn set_font(&self, font: Option<Font>) -> (r: (WindowCall, WindowCall))
        requires
            self.handle is Hwnd,
            self.groupbox_w32.handle is Hwnd,
        ensures
            r.0.hwnd == self.handle->Hwnd_0,
            r.0.op == WindowOp::SetFont(font),
            r.1.hwnd == self.groupbox_w32.handle->Hwnd_0,
            r.1.op == WindowOp::SetFont(font),
    {
        let frame = WindowCall { hwnd: self.handle.hwnd().unwrap(), op: WindowOp::SetFont(font) };
        (frame, self.groupbox_w32.set_font(font))
    }

    /// Reads whether the group box window is enabled.
    pub fn enabled(&self) -> (r: WindowCall)
        requires
            self.groupbox_w32.handle is Hwnd,
        ensures
            r.hwnd == self.groupbox_w32.handle->Hwnd_0,
            r.op is GetEnabled,
    {
        self.groupbox_w32.enabled()
    }

    /// Enables or disables the frame, then the group box window.
    pub fn set_enabled(&self, v: bool) -> (r: (WindowCall, WindowCall))
        requires
            self.handle is Hwnd,
            self.groupbox_w32.handle is Hwnd,
        ensures
            r.0.hwnd == self.handle->Hwnd_0,
            r.0.op == WindowOp::SetEnabled(v),
            r.1.hwnd == self.groupbox_w32.handle->Hwnd_0,
            r.1.op == WindowOp::SetEnabled(v),
    {
        let frame = WindowCall { hwnd: self.handle.hwnd().unwrap(), op: WindowOp::SetEnabled(v) };
        (frame, self.groupbox_w32.set_enabled(v))
    }

    /// Reads whether the frame is visible.
    pub fn visible(&self) -> (r: WindowCall)
        requires
            self.handle is Hwnd,
        ensures
            r.hwnd == self.handle->Hwnd_0,
            r.op is GetVisible,
    {
        WindowCall { hwnd: self.handle.hwnd().unwrap(), op: WindowOp::GetVisible }
    }

    pub fn set_visible(&self, v: bool) -> (r: WindowCall)
        requires
            self.handle is Hwnd,
        ensures
            r.hwnd == self.handle->Hwnd_0,
            r.op == WindowOp::SetVisible(v),
    {
        WindowCall { hwnd: self.handle.hwnd().unwrap(), op: WindowOp::SetVisible(v) }
    }

    pub fn size(&self) -> (r: WindowCall)
        requires
            self.handle is Hwnd,
        ensures
            r.hwnd == self.handle->Hwnd_0,
            r.op is GetSize,
    {
        WindowCall { hwnd: self.handle.hwnd().unwrap(), op: WindowOp::GetSize }
    }

    pub fn set_size(&self, x: u32, y: u32) -> (r: WindowCall)
        requires
            self.handle is Hwnd,
        ensures
            r.hwnd == self.handle->Hwnd_0,
            r.op == WindowOp::SetSize(x, y),
    {
        WindowCall { hwnd: self.handle.hwnd().unwrap(), op: WindowOp::SetSize(x, y) }
    }

    pub fn position(&self) -> (r: WindowCall)
        requires
            self.handle is Hwnd,
        ensures
            r.hwnd == self.handle->Hwnd_0,
            r.op is GetPosition,
    {
        WindowCall { hwnd: self.handle.hwnd().unwrap(), op: WindowOp::GetPosition }
    }

    pub fn set_position(&self, x: i32, y: i32) -> (r: WindowCall)
        requires
            self.handle is Hwnd,
        ensures
            r.hwnd == self.handle->Hwnd_0,
            r.op == WindowOp::SetPosition(x, y),
    {
        WindowCall { hwnd: self.handle.hwnd().unwrap(), op: WindowOp::SetPosition(x, y) }
    }

    /// Reads the label, from the group box window.
    pub fn text(&self) -> (r: WindowCall)
        requires
            self.groupbox_w32.handle is Hwnd,
        ensures
            r.hwnd == self.groupbox_w32.handle->Hwnd_0,
            r.op is GetText,
    {
        self.groupbox_w32.text()
    }

    /// Sets the label of the group box window.
    pub fn set_text(&self, v: &str) -> (r: WindowCall)
        requires
            self.groupbox_w32.handle is Hwnd,
        ensures
            r.hwnd == self.groupbox_w32.handle->Hwnd_0,
            r.op matches WindowOp::SetText(t) && t@ == v@,
    {
        self.groupbox_w32.set_text(v)
    }

    /// Window class of the frame.
    pub fn class_name(&self) -> (r: &'static str)
        ensures
            r@ == "NWG_FRAME"@,
    {
        let r = "NWG_FRAME";
        proof {
            reveal_strlit("NWG_FRAME");
        }
        r
    }

    /// Base window styles of the frame.
    pub fn flags(&self) -> (r: u32)
        ensures
            r == WS_VISIBLE,
    {
        WS_VISIBLE
    }

    /// Window styles the frame always has.
    pub fn forced_flags(&self) -> (r: u32)
        ensures
            r == WS_CHILD | WS_CLIPCHILDREN | WS_CLIPSIBLINGS,
    {
        WS_CHILD | WS_CLIPCHILDREN | WS_CLIPSIBLINGS
    }

    /// Keeps the group box the size of its frame:
    /// on `WM_SIZE`, the group box window takes the frame's bottom right
    /// corner, in client coordinates, as its size; other messages do nothing.
    pub fn on_frame_message(&self, msg: u32, bottom_right: (i32, i32)) -> (r: Option<WindowCall>)
        requires
            self.groupbox_w32.handle is Hwnd,
            msg == WM_SIZE ==> bottom_right.0 >= 0 && bottom_right.1 >= 0,
        ensures
            msg == WM_SIZE ==> (r matches Some(c) && c.hwnd == self.groupbox_w32.handle->Hwnd_0
                && c.op == WindowOp::SetSize(bottom_right.0 as u32, bottom_right.1 as u32)),
            msg != WM_SIZE ==> r is None,
    {
        if msg == WM_SIZE {
            let x = bottom_right.0 as u32;
            let y = bottom_right.1 as u32;
            Some(WindowCall { hwnd: self.groupbox_w32.handle.hwnd().unwrap(), op: WindowOp::SetSize(x, y) })
        } else {
            None
        }
    }
}

pub struct GroupBoxBuilder {
    pub text: String,
    pub size: (i32, i32),
    pub position: (i32, i32),
    pub visible: bool,
    pub enabled: bool,
    pub ex_flags: u32,
    pub font: Option<Font>,
    pub parent: Option<ControlHandle>,
}

/// What `GroupBoxBuilder::build` creates: the frame window, then the group
/// box window inside it (its builder, whose parent is the frame once it
/// exists), then the font to set on both (`None`: the global default font).
pub struct GroupBoxPlan {
    pub frame: WindowParams,
    pub groupbox: _GroupBoxBuilder,
    pub font: Option<Font>,
}

impl GroupBoxBuilder {
    pub fn ex_flags(self, flags: u32) -> (r: GroupBoxBuilder)
        ensures
            r == (GroupBoxBuilder { ex_flags: flags, ..self }),
    {
        GroupBoxBuilder { ex_flags: flags, ..self }
    }

    pub fn text(self, text: &str) -> (r: GroupBoxBuilder)
        ensures
            r.text@ == text@,
            r == (GroupBoxBuilder { text: r.text, ..self }),
    {
        GroupBoxBuilder { text: from_str(text), ..self }
    }

    pub fn size(self, size: (i32, i32)) -> (r: GroupBoxBuilder)
        ensures
            r == (GroupBoxBuilder { size, ..self }),
    {
        GroupBoxBuilder { size, ..self }
    }

    pub fn position(self, pos: (i32, i32)) -> (r: GroupBoxBuilder)
        ensures
            r == (GroupBoxBuilder { position: pos, ..self }),
    {
        GroupBoxBuilder { position: pos, ..self }
    }

    pub fn visible(self, e: bool) -> (r: GroupBoxBuilder)
        ensures
            r == (GroupBoxBuilder { visible: e, ..self }),
    {
        GroupBoxBuilder { visible: e, ..self }
    }

    pub fn enabled(self, e: bool) -> (r: GroupBoxBuilder)
        ensures
            r == (GroupBoxBuilder { enabled: e, ..self }),
    {
        GroupBoxBuilder { enabled: e, ..self }
    }

    pub fn font(self, font: Option<Font>) -> (r: GroupBoxBuilder)
        ensures
            r == (GroupBoxBuilder { font, ..self }),
    {
        GroupBoxBuilder { font, ..self }
    }

    pub fn parent(self, p: ControlHandle) -> (r: GroupBoxBuilder)
        ensures
            r == (GroupBoxBuilder { parent: Some(p), ..self }),
    {
        GroupBoxBuilder { parent: Some(p), ..self }
    }

    /// The windows to create: an `NWG_FRAME`
    /// under the parent, visible unless hidden and disabled when disabled,
    /// with `WS_EX_CONTROLPARENT` added to the extended styles; inside it a
    /// group box window of the same size at the origin, with the same text
    /// and styles. Fails without a parent.
    pub fn build(self) -> (r: Result<GroupBoxPlan, NwgError>)
        ensures
            match self.parent {
                None => r matches Err(NwgError::NoParent(n)) && n@ == "GroupBox"@,
                Some(p) => r matches Ok(plan) && {
                    &&& plan.frame.class_name@ == "NWG_FRAME"@
                    &&& plan.frame.forced_flags == WS_CHILD | WS_CLIPCHILDREN | WS_CLIPSIBLINGS
                    &&& plan.frame.flags == frame_flags(self.visible, self.enabled)
                    &&& plan.frame.ex_flags == WS_EX_CONTROLPARENT | self.ex_flags
                    &&& plan.frame.size == self.size
                    &&& plan.frame.position == self.position
                    &&& plan.frame.text@ == self.text@
                    &&& plan.frame.parent == p
                    &&& plan.groupbox.text@ == self.text@
                    &&& plan.groupbox.size == self.size
                    &&& plan.groupbox.position == (0i32, 0i32)
                    &&& plan.groupbox.flags == frame_flags(self.visible, self.enabled)
                    &&& plan.groupbox.ex_flags == 0
                    &&& plan.groupbox.font == self.font
                    &&& plan.groupbox.parent is None
                    &&& plan.font == self.font
                },
            },
    {
        let parent = match self.parent {
            Some(p) => p,
            None => {
                return Err(NwgError::NoParent(from_str("GroupBox")));
            },
        };
        let vis = self.visible;
        let en = self.enabled;
        let mut flags: u32 = WS_VISIBLE;
        if !vis {
            flags = flags & !WS_VISIBLE;
        }
        if !en {
            flags = flags | WS_DISABLED;
        }
        assert(flags == frame_flags(vis, en)) by (bit_vector)
            requires
                flags == if en {
                    if vis { 0x1000_0000u32 } else { 0x1000_0000u32 & !0x1000_0000u32 }
                } else {
                    (if vis { 0x1000_0000u32 } else { 0x1000_0000u32 & !0x1000_0000u32 }) | 0x0800_0000u32
                },
        ;
        let frame = WindowParams {
            class_name: from_str("NWG_FRAME"),
            forced_flags: WS_CHILD | WS_CLIPCHILDREN | WS_CLIPSIBLINGS,
            flags,
            ex_flags: WS_EX_CONTROLPARENT | self.ex_flags,
            size: self.size,
            position: self.position,
            text: self.text.clone(),
            parent,
        };
        let groupbox = _GroupBoxBuilder {
            text: self.text,
            size: self.size,
            position: (0, 0),
            flags,
            ex_flags: 0,
            font: self.font,
            parent: None,
        };
        Ok(GroupBoxPlan { frame, groupbox, font: self.font })
    }
}

/// The frame of a group box is visible exactly when the builder says so,
/// and disabled exactly when the builder says so.
pub proof fn law_frame_flags(visible: bool, enabled: bool)
    ensures
        (frame_flags(visible, enabled) & WS_VISIBLE != 0) == visible,
        (frame_flags(visible, enabled) & WS_DISABLED != 0) == !enabled,
{
    let f = frame_flags(visible, enabled);
    assert(f == (if visible { 0x1000_0000u32 } else { 0u32 }) | (if enabled { 0u32 } else { 0x0800_0000u32 }));
    assert((f & 0x1000_0000u32 != 0) == visible && (f & 0x0800_0000u32 != 0) == !enabled) by (bit_vector)
        requires
            f == (if visible { 0x1000_0000u32 } else { 0u32 }) | (if enabled { 0u32 } else { 0x0800_0000u32 }),
    ;
}

} // verus!
