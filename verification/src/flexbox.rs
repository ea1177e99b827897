//! The decisions of the flexbox layout: which children it holds, which
//! automatic sizes and spacings its builder applies, and how a resize
//! message reads. The styles themselves (lengths and percentages) are
//! applied by the caller.

use vstd::prelude::*;

verus! {

/// The main axis of a flexbox.
#[derive(Clone, Copy, PartialEq, Eq, Structural)]
pub enum FlexDirection {
    Row,
    RowReverse,
    Column,
    ColumnReverse,
}

/// The dimension that automatic sizing sets on each child.
#[derive(Clone, Copy, PartialEq, Eq, Structural)]
pub enum Axis {
    Width,
    Height,
}

/// A child of a flexbox: a window (by its `HWND` address) or a nested
/// flexbox (by an identifier of the caller's choosing).
#[derive(Clone, Copy, PartialEq, Eq, Structural)]
pub enum FlexChild {
    Item(usize),
    Flexbox(usize),
}

/// What the builder has been told, as far as it decides anything.
pub struct FlexboxLayoutBuilder {
    /// The parent window, once set.
    pub base: Option<usize>,
    pub children: Vec<FlexChild>,
    /// The child that the `child_*` calls modify.
    pub current_index: Option<usize>,
    pub auto_size: bool,
    pub auto_spacing: Option<u32>,
    pub flex_direction: FlexDirection,
}

/// Why a layout cannot be built.
pub enum LayoutError {
    /// The message of the failure.
    Create(String),
}

/// What `build_partial` applies: each child's size along the main axis as
/// the fraction 1/`count` of the parent (when automatic sizing is on), and
/// the spacing used as padding of the layout and margin of every child.
pub struct FlexboxPlan {
    pub base: usize,
    pub children: Vec<FlexChild>,
    pub auto_size: Option<(Axis, usize)>,
    pub auto_spacing: Option<u32>,
}

/// The axis automatic sizing sets for a direction.
pub open spec fn main_axis(d: FlexDirection) -> Axis {
    match d {
        FlexDirection::Row | FlexDirection::RowReverse => Axis::Width,
        FlexDirection::Column | FlexDirection::ColumnReverse => Axis::Height,
    }
}

impl FlexboxLayoutBuilder {
    /// A new builder: no parent, no child,
    /// automatic sizing on and an automatic spacing of 5.
    pub fn new() -> (r: FlexboxLayoutBuilder)
        ensures
            r.base is None,
            r.children@.len() == 0,
            r.current_index is None,
            r.auto_size,
            r.auto_spacing == Some(5u32),
            r.flex_direction == FlexDirection::Row,
    {
        FlexboxLayoutBuilder {
            base: None,
            children: Vec::new(),
            current_index: None,
            auto_size: true,
            auto_spacing: Some(5),
            flex_direction: FlexDirection::Row,
        }
    }

    pub fn parent(self, hwnd: usize) -> (r: FlexboxLayoutBuilder)
        ensures
            r == (FlexboxLayoutBuilder { base: Some(hwnd), ..self }),
    {
        FlexboxLayoutBuilder { base: Some(hwnd), ..self }
    }

    /// Adds a child, which becomes the current one.
    pub fn child(self, c: FlexChild) -> (r: FlexboxLayoutBuilder)
        ensures
            r.children@ == self.children@.push(c),
            r.current_index == Some(self.children@.len() as usize),
            r.base == self.base && r.auto_size == self.auto_size && r.auto_spacing == self.auto_spacing,
            r.flex_direction == self.flex_direction,
    {
        let mut children = self.children;
        let i = children.len();
        children.push(c);
        FlexboxLayoutBuilder { children, current_index: Some(i), ..self }
    }

    pub fn auto_size(self, auto: bool) -> (r: FlexboxLayoutBuilder)
        ensures
            r == (FlexboxLayoutBuilder { auto_size: auto, ..self }),
    {
        FlexboxLayoutBuilder { auto_size: auto, ..self }
    }

    pub fn auto_spacing(self, auto: Option<u32>) -> (r: FlexboxLayoutBuilder)
        ensures
            r == (FlexboxLayoutBuilder { auto_spacing: auto, ..self }),
    {
        FlexboxLayoutBuilder { auto_spacing: auto, ..self }
    }

    pub fn flex_direction(self, value: FlexDirection) -> (r: FlexboxLayoutBuilder)
        ensures
            r == (FlexboxLayoutBuilder { flex_direction: value, ..self }),
    {
        FlexboxLayoutBuilder { flex_direction: value, ..self }
    }

    /// Setting the layout's padding turns automatic spacing off.
    pub fn padding(self) -> (r: FlexboxLayoutBuilder)
        ensures
            r == (FlexboxLayoutBuilder { auto_spacing: None, ..self }),
    {
        FlexboxLayoutBuilder { auto_spacing: None, ..self }
    }

    /// Setting a size of the current child (`child_size`, `child_min_size`,
    /// `child_max_size`, `child_flex_grow`, `child_flex_shrink`,
    /// `child_flex_basis`) turns automatic sizing off. There must be a
    /// current child.
    pub fn child_sizing(self) -> (r: FlexboxLayoutBuilder)
        requires
            self.current_index is Some,
        ensures
            r == (FlexboxLayoutBuilder { auto_size: false, ..self }),
    {
        FlexboxLayoutBuilder { auto_size: false, ..self }
    }

    /// Setting the margin of the current child turns automatic spacing off.
    /// There must be a current child.
    pub fn child_margin(self) -> (r: FlexboxLayoutBuilder)
        requires
            self.current_index is Some,
        ensures
            r == (FlexboxLayoutBuilder { auto_spacing: None, ..self }),
    {
        FlexboxLayoutBuilder { auto_spacing: None, ..self }
    }

    /// The child whose style a `child_*` call modifies,
    /// or `None` before any `child`.
    pub fn current_child(&self) -> (r: Option<FlexChild>)
        requires
            self.current_index matches Some(i) ==> i < self.children@.len(),
        ensures
            match self.current_index {
                Some(i) => r == Some(self.children@[i as int]),
                None => r is None,
            },
    {
        match self.current_index {
            Some(i) => Some(self.children[i]),
            None => None,
        }
    }

    /// What building the layout applies: fails without a
    /// parent; else automatic sizing along the main axis over all children,
    /// and automatic spacing, as they were left.
    pub fn build_partial(self) -> (r: Result<FlexboxPlan, LayoutError>)
        ensures
            match self.base {
                None => r matches Err(LayoutError::Create(m)) && m@ == "Flexboxlayout does not have a parent."@,
                Some(b) => r matches Ok(p) && {
                    &&& p.base == b
                    &&& p.children@ == self.children@
                    &&& p.auto_size == if self.auto_size {
                        Some((main_axis(self.flex_direction), self.children@.len() as usize))
                    } else {
                        None
                    }
                    &&& p.auto_spacing == self.auto_spacing
                },
            },
    {
        let base = match self.base {
            Some(b) => b,
            None => {
                return Err(LayoutError::Create(crate::text::from_str("Flexboxlayout does not have a parent.")));
            },
        };
        let n = self.children.len();
        let auto_size = if self.auto_size {
            let axis = match self.flex_direction {
                FlexDirection::Row | FlexDirection::RowReverse => Axis::Width,
                FlexDirection::Column | FlexDirection::ColumnReverse => Axis::Height,
            };
            Some((axis, n))
        } else {
            None
        };
        Ok(FlexboxPlan { base, children: self.children, auto_size, auto_spacing: self.auto_spacing })
    }
}

/// The new size that a `WM_SIZE` message carries in its `lparam`
/// (`LOWORD`, `HIWORD`).
pub fn size_from_lparam(l: u32) -> (r: (i32, i32))
    ensures
        r.0 == l % 0x10000,
        r.1 == l / 0x10000,
{
    let w = l & 0xFFFF;
    let h = l >> 16u32;
    assert(w == l % 0x10000) by (bit_vector)
        requires
            w == l & 0xFFFF,
    ;
    assert(h == l / 0x10000) by (bit_vector)
        requires
            h == l >> 16u32,
    ;
    (w as i32, h as i32)
}

/// The children of a built flexbox layout.
pub struct FlexboxChildren {
    pub children: Vec<FlexChild>,
}

impl FlexboxChildren {
    /// The window is a direct child item.
    pub fn has_child(&self, hwnd: usize) -> (r: bool)
        ensures
            r == self.children@.contains(FlexChild::Item(hwnd)),
    {
        match self.find_child(hwnd) {
            Some(_) => true,
            None => false,
        }
    }

    /// The first position of the window among the child items.
    pub fn find_child(&self, hwnd: usize) -> (r: Option<usize>)
        ensures
            match r {
                Some(i) => i < self.children@.len() && self.children@[i as int] == FlexChild::Item(hwnd)
                    && forall|j: int| 0 <= j < i ==> self.children@[j] != FlexChild::Item(hwnd),
                None => !self.children@.contains(FlexChild::Item(hwnd)),
            },
    {
        let mut i: usize = 0;
        while i < self.children.len()
            invariant
                i <= self.children@.len(),
                forall|j: int| 0 <= j < i ==> self.children@[j] != FlexChild::Item(hwnd),
            decreases self.children@.len() - i,
        {
            if self.children[i] == FlexChild::Item(hwnd) {
                return Some(i);
            }
            i = i + 1;
        }
        None
    }

    /// Adds a window as the last child.
    pub fn add_child(&mut self, hwnd: usize)
        ensures
            final(self).children@ == old(self).children@.push(FlexChild::Item(hwnd)),
    {
        self.children.push(FlexChild::Item(hwnd));
    }

    /// Removes the first occurrence of the window; it must
    /// be a child.
    pub fn remove_child(&mut self, hwnd: usize)
        requires
            old(self).children@.contains(FlexChild::Item(hwnd)),
        ensures
            exists|i: int| 0 <= i < old(self).children@.len()
                && old(self).children@[i] == FlexChild::Item(hwnd)
                && (forall|j: int| 0 <= j < i ==> old(self).children@[j] != FlexChild::Item(hwnd))
                && final(self).children@ == old(self).children@.remove(i),
    {
        let i = self.find_child(hwnd).unwrap();
        self.children.remove(i);
    }
}

/// A window added to a layout is one of its children.
pub proof fn law_add_then_has(c: Seq<FlexChild>, hwnd: usize)
    ensures
        c.push(FlexChild::Item(hwnd)).contains(FlexChild::Item(hwnd)),
{
    assert(c.push(FlexChild::Item(hwnd))[c.len() as int] == FlexChild::Item(hwnd));
}

/// Removing a window that was just added to a layout that did not hold it
/// gives back the children as they were.
pub proof fn law_remove_undoes_add(c: Seq<FlexChild>, hwnd: usize, i: int)
    requires
        !c.contains(FlexChild::Item(hwnd)),
        0 <= i < c.len() + 1,
        c.push(FlexChild::Item(hwnd))[i] == FlexChild::Item(hwnd),
    ensures
        c.push(FlexChild::Item(hwnd)).remove(i) == c,
{
    if i < c.len() {
        assert(c[i] == FlexChild::Item(hwnd));
    }
    assert(c.push(FlexChild::Item(hwnd)).remove(i) =~= c);
}

} // verus!
