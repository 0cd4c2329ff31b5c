//! Integer geometry used by the layout engine: points, sizes, rectangles,
//! margins, size constraints and alignment.

use vstd::prelude::*;

verus! {

/// Largest magnitude a coordinate or size may take. Keeping every geometric
/// value inside this range lets sums and differences of a few of them stay
/// well inside `i64`.
pub const GEOM_BOUND: i64 = 1073741824;

/// Holds of any coordinate the layout engine works with.
pub open spec fn coord_ok(x: int) -> bool {
    -(GEOM_BOUND as int) <= x <= GEOM_BOUND as int
}

/// Holds of any size (width or height) the layout engine works with.
pub open spec fn size_ok(x: int) -> bool {
    0 <= x <= GEOM_BOUND as int
}

/// A position in device units.
#[derive(Clone, Copy, Debug, PartialEq, Eq, Structural)]
pub struct Point {
    pub x: i64,
    pub y: i64,
}

impl Point {
    pub open spec fn wf(self) -> bool {
        coord_ok(self.x as int) && coord_ok(self.y as int)
    }

    pub fn new(x: i64, y: i64) -> (r: Point)
        ensures
            r.x == x,
            r.y == y,
    {
        Point { x, y }
    }

    pub fn x(&self) -> (r: i64)
        ensures
            r == self.x,
    {
        self.x
    }

    pub fn y(&self) -> (r: i64)
        ensures
            r == self.y,
    {
        self.y
    }
}

/// A width and height in device units.
#[derive(Clone, Copy, Debug, PartialEq, Eq, Structural)]
pub struct Size {
    pub width: i64,
    pub height: i64,
}

impl Size {
    pub open spec fn wf(self) -> bool {
        size_ok(self.width as int) && size_ok(self.height as int)
    }

    pub fn new(width: i64, height: i64) -> (r: Size)
        ensures
            r.width == width,
            r.height == height,
    {
        Size { width, height }
    }
}

/// An axis-aligned rectangle: a position and a size.
#[derive(Clone, Copy, Debug, PartialEq, Eq, Structural)]
pub struct Rectangle {
    pub x: i64,
    pub y: i64,
    pub width: i64,
    pub height: i64,
}

impl Rectangle {
    pub open spec fn wf(self) -> bool {
        coord_ok(self.x as int) && coord_ok(self.y as int) && size_ok(self.width as int)
            && size_ok(self.height as int)
    }

    pub fn new(x: i64, y: i64, width: i64, height: i64) -> (r: Rectangle)
        ensures
            r == (Rectangle { x, y, width, height }),
    {
        Rectangle { x, y, width, height }
    }

    pub fn width(&self) -> (r: i64)
        ensures
            r == self.width,
    {
        self.width
    }

    pub fn height(&self) -> (r: i64)
        ensures
            r == self.height,
    {
        self.height
    }

    pub fn set_width(&mut self, width: i64)
        ensures
            *final(self) == (Rectangle { width, ..*old(self) }),
    {
        self.width = width;
    }

    pub fn set_height(&mut self, height: i64)
        ensures
            *final(self) == (Rectangle { height, ..*old(self) }),
    {
        self.height = height;
    }
}

/// Thickness of the four sides of a frame; used for margins and padding.
/// Sides may be negative: the text cursor layout scrolls its text block by
/// setting a negative left margin.
#[derive(Clone, Copy, Debug, PartialEq, Eq, Structural)]
pub struct Thickness {
    pub left: i64,
    pub top: i64,
    pub right: i64,
    pub bottom: i64,
}

impl Thickness {
    pub open spec fn wf(self) -> bool {
        coord_ok(self.left as int) && coord_ok(self.top as int) && coord_ok(self.right as int)
            && coord_ok(self.bottom as int)
    }

    pub fn new(left: i64, top: i64, right: i64, bottom: i64) -> (r: Thickness)
        ensures
            r == (Thickness { left, top, right, bottom }),
    {
        Thickness { left, top, right, bottom }
    }

    pub fn top(&self) -> (r: i64)
        ensures
            r == self.top,
    {
        self.top
    }

    pub fn bottom(&self) -> (r: i64)
        ensures
            r == self.bottom,
    {
        self.bottom
    }

    pub fn set_left(&mut self, left: i64)
        ensures
            *final(self) == (Thickness { left, ..*old(self) }),
    {
        self.left = left;
    }

    pub fn set_top(&mut self, top: i64)
        ensures
            *final(self) == (Thickness { top, ..*old(self) }),
    {
        self.top = top;
    }

    pub fn set_right(&mut self, right: i64)
        ensures
            *final(self) == (Thickness { right, ..*old(self) }),
    {
        self.right = right;
    }

    pub fn set_bottom(&mut self, bottom: i64)
        ensures
            *final(self) == (Thickness { bottom, ..*old(self) }),
    {
        self.bottom = bottom;
    }
}

/// Declared size limits of one entity: fixed width and height (`0` means
/// unset, content-driven) and minimum and maximum bounds. Immutable input to
/// the measure pass.
#[derive(Clone, Copy, Debug, PartialEq, Eq, Structural)]
pub struct Constraint {
    pub width: i64,
    pub height: i64,
    pub min_width: i64,
    pub min_height: i64,
    pub max_width: i64,
    pub max_height: i64,
}

impl Constraint {
    pub open spec fn wf(self) -> bool {
        size_ok(self.width as int) && size_ok(self.height as int) && size_ok(self.min_width as int)
            && size_ok(self.min_height as int) && size_ok(self.max_width as int) && size_ok(
            self.max_height as int,
        ) && self.min_width <= self.max_width && self.min_height <= self.max_height
    }

    pub fn new(width: i64, height: i64, min_width: i64, min_height: i64, max_width: i64, max_height: i64) -> (r:
        Constraint)
        ensures
            r == (Constraint { width, height, min_width, min_height, max_width, max_height }),
    {
        Constraint { width, height, min_width, min_height, max_width, max_height }
    }

    /// A constraint with no fixed size, no minimum, and the largest maximum.
    pub fn unbounded() -> (r: Constraint)
        ensures
            r == (Constraint {
                width: 0,
                height: 0,
                min_width: 0,
                min_height: 0,
                max_width: GEOM_BOUND,
                max_height: GEOM_BOUND,
            }),
            r.wf(),
    {
        Constraint {
            width: 0,
            height: 0,
            min_width: 0,
            min_height: 0,
            max_width: GEOM_BOUND,
            max_height: GEOM_BOUND,
        }
    }

    pub fn width(&self) -> (r: i64)
        ensures
            r == self.width,
    {
        self.width
    }

    pub fn height(&self) -> (r: i64)
        ensures
            r == self.height,
    {
        self.height
    }

    pub fn min_width(&self) -> (r: i64)
        ensures
            r == self.min_width,
    {
        self.min_width
    }

    pub fn min_height(&self) -> (r: i64)
        ensures
            r == self.min_height,
    {
        self.min_height
    }

    /// What `perform` returns for one axis: the fixed size if one is set,
    /// otherwise the given size clamped into the minimum and maximum bounds.
    pub open spec fn spec_perform_axis(fixed: int, lo: int, hi: int, given: int) -> int {
        if fixed > 0 {
            fixed
        } else if given < lo {
            lo
        } else if given > hi {
            hi
        } else {
            given
        }
    }

    /// Clamps a proposed size into this constraint: a fixed extent always
    /// wins; otherwise the extent is forced into the min/max bounds.
    pub fn perform(&self, size: Size) -> (r: Size)
        ensures
            r.width as int == Constraint::spec_perform_axis(
                self.width as int,
                self.min_width as int,
                self.max_width as int,
                size.width as int,
            ),
            r.height as int == Constraint::spec_perform_axis(
                self.height as int,
                self.min_height as int,
                self.max_height as int,
                size.height as int,
            ),
    {
        let width: i64 = if self.width > 0 {
            self.width
        } else if size.width < self.min_width {
            self.min_width
        } else if size.width > self.max_width {
            self.max_width
        } else {
            size.width
        };
        let height: i64 = if self.height > 0 {
            self.height
        } else if size.height < self.min_height {
            self.min_height
        } else if size.height > self.max_height {
            self.max_height
        } else {
            size.height
        };
        Size { width, height }
    }
}

/// Placement of a child inside the space its parent allots.
#[derive(Clone, Copy, Debug, PartialEq, Eq, Structural)]
pub enum Alignment {
    Start,
    Center,
    End,
    Stretch,
}

impl Alignment {
    /// What `align_measure` returns: stretch fills the available space less
    /// the margins; every other alignment keeps the measured extent.
    pub open spec fn spec_align_measure(
        self,
        available: int,
        measured: int,
        margin_start: int,
        margin_end: int,
    ) -> int {
        if self is Stretch {
            available - margin_start - margin_end
        } else {
            measured
        }
    }

    /// The extent a child takes along one axis.
    pub fn align_measure(&self, available: i64, measured: i64, margin_start: i64, margin_end: i64) -> (r: i64)
        requires
            coord_ok(available as int),
            coord_ok(measured as int),
            coord_ok(margin_start as int),
            coord_ok(margin_end as int),
        ensures
            r as int == self.spec_align_measure(
                available as int,
                measured as int,
                margin_start as int,
                margin_end as int,
            ),
    {
        match self {
            Alignment::Stretch => available - margin_start - margin_end,
            _ => measured,
        }
    }

    /// What `align_position` returns: the offset of the child along one axis.
    pub open spec fn spec_align_position(
        self,
        available: int,
        extent: int,
        margin_start: int,
        margin_end: int,
    ) -> int {
        match self {
            Alignment::Start => margin_start,
            Alignment::Stretch => margin_start,
            Alignment::Center => (available - extent) / 2,
            Alignment::End => available - extent - margin_end,
        }
    }

    /// The offset of a child along one axis inside the available space.
    pub fn align_position(&self, available: i64, extent: i64, margin_start: i64, margin_end: i64) -> (r: i64)
        requires
            coord_ok(available as int),
            coord_ok(extent as int),
            coord_ok(margin_start as int),
            coord_ok(margin_end as int),
        ensures
            r as int == self.spec_align_position(
                available as int,
                extent as int,
                margin_start as int,
                margin_end as int,
            ),
    {
        match self {
            Alignment::Start => margin_start,
            Alignment::Stretch => margin_start,
            Alignment::Center => {
                let diff: i64 = available - extent;
                if diff >= 0 {
                    diff / 2
                } else {
                    -((1 - diff) / 2)
                }
            },
            Alignment::End => available - extent - margin_end,
        }
    }
}

/// One column or row track of a grid: a fixed extent, a proportional share
/// of the remaining space, or an extent taken from the content.
#[derive(Clone, Copy, Debug, PartialEq, Eq, Structural)]
pub enum Track {
    Fixed(i64),
    Stretch,
    Auto,
}

/// The cached desired size of one layout node together with its dirty flag.
/// The flag is raised by any setter that changes the size and by `set_dirty`,
/// and is cleared only when an arrange pass completes for the node.
#[derive(Clone, Copy, Debug, PartialEq, Eq, Structural)]
pub struct DirtySize {
    pub width: i64,
    pub height: i64,
    pub dirty: bool,
}

impl DirtySize {
    pub open spec fn wf(self) -> bool {
        size_ok(self.width as int) && size_ok(self.height as int)
    }

    /// A fresh node starts dirty with size zero.
    pub fn new() -> (r: DirtySize)
        ensures
            r == (DirtySize { width: 0, height: 0, dirty: true }),
    {
        DirtySize { width: 0, height: 0, dirty: true }
    }

    pub fn dirty(&self) -> (r: bool)
        ensures
            r == self.dirty,
    {
        self.dirty
    }

    pub fn size(&self) -> (r: Size)
        ensures
            r == (Size { width: self.width, height: self.height }),
    {
        Size { width: self.width, height: self.height }
    }

    pub fn width(&self) -> (r: i64)
        ensures
            r == self.width,
    {
        self.width
    }

    pub fn height(&self) -> (r: i64)
        ensures
            r == self.height,
    {
        self.height
    }

    /// Changing the width marks the node dirty; storing the same width again
    /// does not.
    pub fn set_width(&mut self, width: i64)
        ensures
            final(self).width == width,
            final(self).height == old(self).height,
            final(self).dirty == (old(self).dirty || width != old(self).width),
    {
        if self.width != width {
            self.dirty = true;
        }
        self.width = width;
    }

    /// Changing the height marks the node dirty; storing the same height
    /// again does not.
    pub fn set_height(&mut self, height: i64)
        ensures
            final(self).height == height,
            final(self).width == old(self).width,
            final(self).dirty == (old(self).dirty || height != old(self).height),
    {
        if self.height != height {
            self.dirty = true;
        }
        self.height = height;
    }

    /// Sets both extents; the node becomes dirty exactly when one of them
    /// changes.
    pub fn set_size(&mut self, width: i64, height: i64)
        ensures
            final(self).width == width,
            final(self).height == height,
            final(self).dirty == (old(self).dirty || width != old(self).width || height
                != old(self).height),
    {
        self.set_width(width);
        self.set_height(height);
    }

    pub fn set_dirty(&mut self, dirty: bool)
        ensures
            *final(self) == (DirtySize { dirty, ..*old(self) }),
    {
        self.dirty = dirty;
    }
}

} // verus!
