//! Verified core of the native-windows derive macros and controls:
//! naming, attribute interpretation, event tables, layout planning and
//! window-creation parameters, all over plain values.

pub mod text;
pub mod naming;
pub mod params;
pub mod error;
pub mod layouts;
pub mod flags;
pub mod items;
pub mod events;
pub mod ui;
pub mod group_box;
pub mod win;
pub mod setters;
pub mod flexbox;
pub mod groups;
pub mod labeled;
pub mod attr_syntax;
