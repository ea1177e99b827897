//! The labeled controls: a combo box or a text input with a label in front
//! of it, laid out side by side by a flexbox.
//!
//! Building one creates the label, then the field, then the layout holding
//! both (the label first, with the label width the caller chose; the field
//! filling the rest), then fills the field. `build` gives what each of these
//! steps is created with; the widths are lengths the caller applies.

use vstd::prelude::*;
use crate::group_box::{ControlHandle, Font, NwgError};
use crate::text::from_str;

verus! {

/// Horizontal alignment of a text.
#[derive(Clone, Copy, PartialEq, Eq, Structural)]
pub enum HTextAlign {
    Left,
    Center,
    Right,
}

/// Vertical alignment of a text.
#[derive(Clone, Copy, PartialEq, Eq, Structural)]
pub enum VTextAlign {
    Top,
    Center,
    Bottom,
}

/// What the label of a labeled control is created with.
pub struct LabelParams {
    pub parent: ControlHandle,
    pub text: String,
    pub h_align: HTextAlign,
    pub v_align: VTextAlign,
    pub font: Option<Font>,
    pub background_color: Option<[u8; 3]>,
}

/// What the combo box of a labeled combo box is created with; `flags` is
/// `None` when none were given (the combo box keeps its own).
pub struct ComboFieldParams {
    pub parent: ControlHandle,
    pub flags: Option<u32>,
    pub ex_flags: u32,
    pub size: (i32, i32),
    pub font: Option<Font>,
    pub visible: bool,
    pub enabled: bool,
    pub focus: bool,
    pub upcase: bool,
    pub downcase: bool,
    pub autoscroll: bool,
    pub scrollbar: bool,
}

/// The parameters of a labeled combo box.
pub struct LabeledComboBuilder<D> {
    pub label_text: String,
    pub label_h_align: HTextAlign,
    pub label_v_align: VTextAlign,
    pub size: (i32, i32),
    pub position: (i32, i32),
    pub visible: bool,
    pub enabled: bool,
    pub focus: bool,
    pub upcase: bool,
    pub downcase: bool,
    pub autoscroll: bool,
    pub scrollbar: bool,
    pub flags: Option<u32>,
    pub ex_flags: u32,
    pub font: Option<Font>,
    pub collection: Option<Vec<D>>,
    pub selected_index: Option<usize>,
    pub background_color: Option<[u8; 3]>,
    pub parent: Option<ControlHandle>,
}

/// What building a labeled combo box does: create the label and the combo
/// box, lay them out in a flexbox on `layout_parent`, then give the combo box
/// its collection and selection when there are ones, and finally enable or
/// disable the whole control.
pub struct LabeledComboPlan<D> {
    pub label: LabelParams,
    pub field: ComboFieldParams,
    pub layout_parent: ControlHandle,
    pub collection: Option<Vec<D>>,
    pub selection: Option<usize>,
    pub enabled: bool,
}

impl<D> LabeledComboBuilder<D> {
    /// The default parameters: no label text, the label on the top left, a
    /// visible and enabled combo box of size (100, 25) that scrolls, no
    /// collection, no selection, no parent.
    pub fn new() -> (r: LabeledComboBuilder<D>)
        ensures
            r.label_text@ == ""@,
            r.label_h_align == HTextAlign::Left,
            r.label_v_align == VTextAlign::Top,
            r.size == (100i32, 25i32),
            r.position == (0i32, 0i32),
            r.visible && r.enabled && !r.focus && !r.upcase && !r.downcase,
            r.autoscroll && r.scrollbar,
            r.flags is None,
            r.ex_flags == 0,
            r.font is None,
            r.collection is None,
            r.selected_index is None,
            r.background_color is None,
            r.parent is None,
    {
        LabeledComboBuilder {
            label_text: from_str(""),
            label_h_align: HTextAlign::Left,
            label_v_align: VTextAlign::Top,
            size: (100, 25),
            position: (0, 0),
            visible: true,
            enabled: true,
            focus: false,
            upcase: false,
            downcase: false,
            autoscroll: true,
            scrollbar: true,
            flags: None,
            ex_flags: 0,
            font: None,
            collection: None,
            selected_index: None,
            background_color: None,
            parent: None,
        }
    }

    /// Kept for compatibility: the vertical alignment of the label is left
    /// as it is.
    pub fn v_align(self, _align: VTextAlign) -> (r: LabeledComboBuilder<D>)
        ensures
            r == self,
    {
        self
    }

    /// What building the control does; fails without a parent.
    pub fn build(self) -> (r: Result<LabeledComboPlan<D>, NwgError>)
        ensures
            match self.parent {
                None => r matches Err(NwgError::NoParent(n)) && n@ == "LabeledCombo"@,
                Some(p) => r matches Ok(plan) && {
                    &&& plan.label.parent == p && plan.label.text@ == self.label_text@
                    &&& plan.label.h_align == self.label_h_align && plan.label.v_align == self.label_v_align
                    &&& plan.label.font == self.font && plan.label.background_color == self.background_color
                    &&& plan.field.parent == p && plan.field.flags == self.flags
                    &&& plan.field.ex_flags == self.ex_flags && plan.field.size == self.size
                    &&& plan.field.font == self.font && plan.field.visible == self.visible
                    &&& plan.field.enabled == self.enabled && plan.field.focus == self.focus
                    &&& plan.field.upcase == self.upcase && plan.field.downcase == self.downcase
                    &&& plan.field.autoscroll == self.autoscroll && plan.field.scrollbar == self.scrollbar
                    &&& plan.layout_parent == p
                    &&& plan.collection == self.collection
                    &&& plan.selection == self.selected_index
                    &&& plan.enabled == self.enabled
                },
            },
    {
        let p = match self.parent {
            Some(p) => p,
            None => {
                return Err(NwgError::NoParent(from_str("LabeledCombo")));
            },
        };
        let label = LabelParams {
            parent: p,
            text: self.label_text,
            h_align: self.label_h_align,
            v_align: self.label_v_align,
            font: self.font,
            background_color: self.background_color,
        };
        let field = ComboFieldParams {
            parent: p,
            flags: self.flags,
            ex_flags: self.ex_flags,
            size: self.size,
            font: self.font,
            visible: self.visible,
            enabled: self.enabled,
            focus: self.focus,
            upcase: self.upcase,
            downcase: self.downcase,
            autoscroll: self.autoscroll,
            scrollbar: self.scrollbar,
        };
        Ok(LabeledComboPlan {
            label,
            field,
            layout_parent: p,
            collection: self.collection,
            selection: self.selected_index,
            enabled: self.enabled,
        })
    }
}

/// What the text input of a labeled text input is created with; `flags` is
/// `None` when none were given (the input keeps its own).
pub struct EditFieldParams {
    pub parent: ControlHandle,
    pub flags: Option<u32>,
    pub align: HTextAlign,
    pub size: (i32, i32),
    pub text: String,
    pub placeholder_text: Option<String>,
    pub font: Option<Font>,
    pub password: Option<char>,
    pub readonly: bool,
    pub focus: bool,
}

/// The parameters of a labeled text input.
pub struct LabeledEditBuilder {
    pub label_text: String,
    pub label_h_align: HTextAlign,
    pub label_v_align: VTextAlign,
    pub text: String,
    pub placeholder_text: Option<String>,
    pub size: (i32, i32),
    pub position: (i32, i32),
    pub flags: Option<u32>,
    pub ex_flags: u32,
    pub limit: usize,
    pub password: Option<char>,
    pub align: HTextAlign,
    pub readonly: bool,
    pub focus: bool,
    pub font: Option<Font>,
    pub parent: Option<ControlHandle>,
    pub background_color: Option<[u8; 3]>,
}

/// What building a labeled text input does: create the label and the text
/// input, then lay them out in a flexbox on `layout_parent`.
pub struct LabeledEditPlan {
    pub label: LabelParams,
    pub field: EditFieldParams,
    pub layout_parent: ControlHandle,
}

impl LabeledEditBuilder {
    /// The default parameters: no label text, the label on the center left,
    /// an empty text input of size (100, 25), no parent.
    pub fn new() -> (r: LabeledEditBuilder)
        ensures
            r.label_text@ == ""@,
            r.label_h_align == HTextAlign::Left,
            r.label_v_align == VTextAlign::Center,
            r.text@ == ""@,
            r.placeholder_text is None,
            r.size == (100i32, 25i32),
            r.position == (0i32, 0i32),
            r.flags is None,
            r.ex_flags == 0,
            r.limit == 0,
            r.password is None,
            r.align == HTextAlign::Left,
            !r.readonly && !r.focus,
            r.font is None,
            r.parent is None,
            r.background_color is None,
    {
        LabeledEditBuilder {
            label_text: from_str(""),
            label_h_align: HTextAlign::Left,
            label_v_align: VTextAlign::Center,
            text: from_str(""),
            placeholder_text: None,
            size: (100, 25),
            position: (0, 0),
            flags: None,
            ex_flags: 0,
            limit: 0,
            password: None,
            align: HTextAlign::Left,
            readonly: false,
            focus: false,
            font: None,
            parent: None,
            background_color: None,
        }
    }

    /// What building the control does; fails without a parent. The label
    /// gets no background color.
    pub fn build(self) -> (r: Result<LabeledEditPlan, NwgError>)
        ensures
            match self.parent {
                None => r matches Err(NwgError::NoParent(n)) && n@ == "LabeledEdit"@,
                Some(p) => r matches Ok(plan) && {
                    &&& plan.label.parent == p && plan.label.text@ == self.label_text@
                    &&& plan.label.h_align == self.label_h_align && plan.label.v_align == self.label_v_align
                    &&& plan.label.font == self.font && plan.label.background_color is None
                    &&& plan.field.parent == p && plan.field.flags == self.flags
                    &&& plan.field.align == self.align && plan.field.size == self.size
                    &&& plan.field.text@ == self.text@
                    &&& plan.field.placeholder_text == self.placeholder_text
                    &&& plan.field.font == self.font && plan.field.password == self.password
                    &&& plan.field.readonly == self.readonly && plan.field.focus == self.focus
                    &&& plan.layout_parent == p
                },
            },
    {
        let p = match self.parent {
            Some(p) => p,
            None => {
                return Err(NwgError::NoParent(from_str("LabeledEdit")));
            },
        };
        let label = LabelParams {
            parent: p,
            text: self.label_text,
            h_align: self.label_h_align,
            v_align: self.label_v_align,
            font: self.font,
            background_color: None,
        };
        let field = EditFieldParams {
            parent: p,
            flags: self.flags,
            align: self.align,
            size: self.size,
            text: self.text,
            placeholder_text: self.placeholder_text,
            font: self.font,
            password: self.password,
            readonly: self.readonly,
            focus: self.focus,
        };
        Ok(LabeledEditPlan { label, field, layout_parent: p })
    }
}

} // verus!
