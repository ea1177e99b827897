//! The ways in which reading the user's struct can fail.

use vstd::prelude::*;

verus! {

/// Why the derive cannot produce code.
///
/// The variants under "fatal" are conditions on which the macro stops with a
/// panic instead of a compile error; the caller reports them that way.
pub enum DeriveError {
    /// An attribute's parameter list did not parse; the parser's message.
    AttrParse(String),
    /// The type of `field` is not a path and the attribute `attr` names none.
    UnknownFieldType { field: String, attr: String },
    /// The `flags` of control `member` are not a string literal.
    FlagsNotStr { member: String },
    /// The expanded `flags` of control `member` are not an expression.
    FlagsUnparsable { member: String, message: String },
    /// A layout without `parent` outside of a partial, at this field index.
    LayoutParentMissing { field_index: usize },
    /// A callback argument that is none of `SELF RC_SELF CTRL TARGET HANDLE EVT EVT_DATA`.
    UnknownCallbackArg { arg: String },
    /// `TARGET` used for an event that is not bound to a field.
    TargetOnGlobalEvent { arg: String },
    /// A shortcut naming a second key.
    ExtraShortcutKey { key: String },
    /// A shortcut naming no key.
    NoShortcutKey,
    // fatal
    /// The `parent` of field `field` is not a path.
    BadParentExpr { field: String },
    /// A layout item whose layout is neither `GridLayout` nor `FlexboxLayout`.
    UnknownLayoutType { ty: String },
    /// A grid position or span that is not an integer literal fitting `u32`.
    LayoutItemNotInt,
    /// A grid item whose column plus span overflows `u32`.
    GridColumnOverflow,
    /// The parent chain of the controls loops.
    ParentCycle,
}

} // verus!
