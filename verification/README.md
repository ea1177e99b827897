# native_windows

The decisions behind the `NwgUi`, `NwgPartial` and `Setters` derives of the
native-windows crates, and those of a few of their controls, written in Verus
with their contracts proved.

`src/` is the verified library. It works on plain values: the fields of a
struct and the token trees of its attributes, the builder calls of a control,
the children of a layout.

- `attr_syntax`: the syntax of the attributes (`nwg_events`, `nwg_shortcuts`
  and `name: value` parameter lists), read from their token trees; the
  expressions, paths, identifiers and literals inside are checked by `syn`.
- `naming`: the generated module and struct names.
- `params`, `items`, `layouts`, `flags`: reading control, resource, layout and
  partial fields, layout items and compressed flags.
- `events`, `groups`: event and shortcut bindings, and how the generated
  handler groups the targets that run the same calls.
- `ui`: building the whole model of a UI (parents, layouts, creation order),
  and the children of each layout.
- `setters`: the setters of the `Setters` derive.
- `group_box`, `labeled`, `flexbox`, `win`: what the group box and the
  labeled controls are created with, the decisions of the flexbox layout,
  key states and the tab class.

`app/` reads structs with `syn` (turning each attribute's tokens into the
library's token trees), writes the generated code with `quote`, and
applies flexbox plans to `taffy` styles, and (on Windows) carries out window
plans and operations with the Win32 API. `tests/` runs the library on concrete
values.
