//! How the displays lie in one picture of the whole desktop. Everything is in
//! physical pixels.

use vstd::prelude::*;

verus! {

/// A display: where it lies on the desktop, and where in the picture.
#[derive(Clone, Copy, Debug, PartialEq, Eq, Structural)]
pub struct DesktopDisplay {
    pub x: i32,
    pub y: i32,
    pub width: u32,
    pub height: u32,
    pub pixel_x: u32,
    pub pixel_y: u32,
    pub pixel_width: u32,
    pub pixel_height: u32,
}

/// Why displays make no picture.
#[derive(Clone, Copy, Debug, PartialEq, Eq, Structural)]
pub enum LayoutError {
    EmptyDisplay,
    NoDisplays,
    WidthOutOfRange,
    HeightOutOfRange,
    TooLarge,
}

/// The smallest rectangle around all displays.
#[derive(Clone, Copy, Debug, PartialEq, Eq, Structural)]
pub struct PhysicalLayout {
    pub left: i32,
    pub top: i32,
    pub width: u32,
    pub height: u32,
}

/// The left end of the first `k` displays.
pub open spec fn left_end(d: Seq<DesktopDisplay>, k: int) -> int
    decreases k,
{
    if k <= 0 {
        i32::MAX as int
    } else if d[k - 1].x < left_end(d, k - 1) {
        d[k - 1].x as int
    } else {
        left_end(d, k - 1)
    }
}

/// The upper end of the first `k` displays.
pub open spec fn top_end(d: Seq<DesktopDisplay>, k: int) -> int
    decreases k,
{
    if k <= 0 {
        i32::MAX as int
    } else if d[k - 1].y < top_end(d, k - 1) {
        d[k - 1].y as int
    } else {
        top_end(d, k - 1)
    }
}

/// The right end of the first `k` displays.
pub open spec fn right_end(d: Seq<DesktopDisplay>, k: int) -> int
    decreases k,
{
    if k <= 0 {
        i64::MIN as int
    } else if d[k - 1].x + d[k - 1].width > right_end(d, k - 1) {
        d[k - 1].x + d[k - 1].width
    } else {
        right_end(d, k - 1)
    }
}

/// The lower end of the first `k` displays.
pub open spec fn bottom_end(d: Seq<DesktopDisplay>, k: int) -> int
    decreases k,
{
    if k <= 0 {
        i64::MIN as int
    } else if d[k - 1].y + d[k - 1].height > bottom_end(d, k - 1) {
        d[k - 1].y + d[k - 1].height
    } else {
        bottom_end(d, k - 1)
    }
}

/// One of the displays is empty.
pub open spec fn some_empty(d: Seq<DesktopDisplay>) -> bool {
    exists|i: int| 0 <= i < d.len() && ((#[trigger] d[i]).width == 0 || d[i].height == 0)
}

/// The rectangle around displays, where they make a picture of at most so many
/// pixels.
pub open spec fn layout_of(d: Seq<DesktopDisplay>, max_pixels: u64) -> Result<
    PhysicalLayout,
    LayoutError,
> {
    let n = d.len() as int;
    let width = right_end(d, n) - left_end(d, n);
    let height = bottom_end(d, n) - top_end(d, n);
    if some_empty(d) {
        Err(LayoutError::EmptyDisplay)
    } else if n == 0 {
        Err(LayoutError::NoDisplays)
    } else if width > u32::MAX {
        Err(LayoutError::WidthOutOfRange)
    } else if height > u32::MAX {
        Err(LayoutError::HeightOutOfRange)
    } else if width * height > max_pixels {
        Err(LayoutError::TooLarge)
    } else {
        Ok(
            PhysicalLayout {
                left: left_end(d, n) as i32,
                top: top_end(d, n) as i32,
                width: width as u32,
                height: height as u32,
            },
        )
    }
}

proof fn lemma_ends(d: Seq<DesktopDisplay>, k: int, i: int)
    requires
        0 <= i < k <= d.len(),
    ensures
        left_end(d, k) <= d[i].x,
        top_end(d, k) <= d[i].y,
        d[i].x + d[i].width <= right_end(d, k),
        d[i].y + d[i].height <= bottom_end(d, k),
    decreases k,
{
    if i < k - 1 {
        lemma_ends(d, k - 1, i);
    }
}

proof fn lemma_end_bounds(d: Seq<DesktopDisplay>, k: int)
    requires
        0 <= k <= d.len(),
    ensures
        i32::MIN <= left_end(d, k) <= i32::MAX,
        i32::MIN <= top_end(d, k) <= i32::MAX,
        k > 0 ==> i32::MIN <= right_end(d, k) <= i32::MAX + u32::MAX,
        k > 0 ==> i32::MIN <= bottom_end(d, k) <= i32::MAX + u32::MAX,
    decreases k,
{
    if k > 0 {
        lemma_end_bounds(d, k - 1);
        assert(right_end(d, 0) == i64::MIN && bottom_end(d, 0) == i64::MIN);
    }
}

impl PhysicalLayout {
    /// The rectangle around the displays.
    pub fn new(displays: &Vec<DesktopDisplay>, max_pixels: u64) -> (r: Result<Self, LayoutError>)
        ensures
            r == layout_of(displays@, max_pixels),
    {
        let mut left: i32 = i32::MAX;
        let mut top: i32 = i32::MAX;
        let mut right: i64 = i64::MIN;
        let mut bottom: i64 = i64::MIN;
        let mut i: usize = 0;
        while i < displays.len()
            invariant
                i <= displays@.len(),
                left == left_end(displays@, i as int),
                top == top_end(displays@, i as int),
                right == right_end(displays@, i as int),
                bottom == bottom_end(displays@, i as int),
                forall|k: int|
                    0 <= k < i ==> (#[trigger] displays@[k]).width != 0 && displays@[k].height != 0,
            decreases displays@.len() - i,
        {
            let display = displays[i];
            if display.width == 0 || display.height == 0 {
                assert(displays@[i as int] == display);
                return Err(LayoutError::EmptyDisplay);
            }
            if display.x < left {
                left = display.x;
            }
            if display.y < top {
                top = display.y;
            }
            let r: i64 = display.x as i64 + display.width as i64;
            let b: i64 = display.y as i64 + display.height as i64;
            if r > right {
                right = r;
            }
            if b > bottom {
                bottom = b;
            }
            i = i + 1;
        }
        if displays.len() == 0 {
            return Err(LayoutError::NoDisplays);
        }
        proof {
            lemma_end_bounds(displays@, i as int);
            lemma_ends(displays@, i as int, 0);
        }
        let width: i64 = right - left as i64;
        let height: i64 = bottom - top as i64;
        if width > u32::MAX as i64 {
            return Err(LayoutError::WidthOutOfRange);
        }
        if height > u32::MAX as i64 {
            return Err(LayoutError::HeightOutOfRange);
        }
        assert(0 <= width * height <= u32::MAX * u32::MAX) by (nonlinear_arith)
            requires
                0 <= width <= u32::MAX,
                0 <= height <= u32::MAX,
        {}
        if width as u64 * height as u64 > max_pixels {
            return Err(LayoutError::TooLarge);
        }
        Ok(PhysicalLayout { left, top, width: width as u32, height: height as u32 })
    }

    /// Where a display lies in the picture.
    pub open spec fn placed(&self, display: DesktopDisplay) -> DesktopDisplay {
        DesktopDisplay {
            pixel_x: (display.x - self.left) as u32,
            pixel_y: (display.y - self.top) as u32,
            pixel_width: display.width,
            pixel_height: display.height,
            ..display
        }
    }

    /// Places a display, one of those that the layout was made of, in the picture.
    pub fn place(&self, display: &mut DesktopDisplay)
        requires
            self.left <= old(display).x,
            self.top <= old(display).y,
        ensures
            *final(display) == self.placed(*old(display)),
    {
        display.pixel_x = (display.x as i64 - self.left as i64) as u32;
        display.pixel_y = (display.y as i64 - self.top as i64) as u32;
        display.pixel_width = display.width;
        display.pixel_height = display.height;
    }
}

/// A display of a layout lies inside the picture, at its own size, and all
/// displays keep their distances: none is scaled, and none overlaps another that
/// it did not overlap before.
pub proof fn law_placing_keeps_distances(
    displays: Seq<DesktopDisplay>,
    max_pixels: u64,
    layout: PhysicalLayout,
    i: int,
    j: int,
)
    requires
        layout_of(displays, max_pixels) == Ok::<PhysicalLayout, LayoutError>(layout),
        0 <= i < displays.len(),
        0 <= j < displays.len(),
    ensures
        ({
            let a = layout.placed(displays[i]);
            let b = layout.placed(displays[j]);
            &&& a.pixel_x + a.pixel_width <= layout.width
            &&& a.pixel_y + a.pixel_height <= layout.height
            &&& a.pixel_width == displays[i].width
            &&& a.pixel_height == displays[i].height
            &&& a.pixel_x - b.pixel_x == displays[i].x - displays[j].x
            &&& a.pixel_y - b.pixel_y == displays[i].y - displays[j].y
        }),
{
    let n = displays.len() as int;
    lemma_ends(displays, n, i);
    lemma_ends(displays, n, j);
    lemma_end_bounds(displays, n);
}

/// The point is on the display in the picture.
pub open spec fn holds_pixel(d: DesktopDisplay, x: u32, y: u32) -> bool {
    d.pixel_x <= x < d.pixel_x + d.pixel_width && d.pixel_y <= y < d.pixel_y + d.pixel_height
}

/// The desktop point of a pixel of the picture, on the first display from `i` on
/// that holds it.
pub open spec fn desktop_point(d: Seq<DesktopDisplay>, x: u32, y: u32, i: int) -> Option<(int, int)>
    decreases d.len() - i,
{
    if i < 0 || i >= d.len() {
        None
    } else if holds_pixel(d[i], x, y) {
        Some((d[i].x + (x - d[i].pixel_x), d[i].y + (y - d[i].pixel_y)))
    } else {
        desktop_point(d, x, y, i + 1)
    }
}

/// The desktop point of a pixel of the picture; a pixel between displays has none.
pub fn map_point(displays: &Vec<DesktopDisplay>, x: u32, y: u32) -> (r: Option<(i64, i64)>)
    ensures
        match r {
            Some(p) => desktop_point(displays@, x, y, 0) == Some((p.0 as int, p.1 as int)),
            None => desktop_point(displays@, x, y, 0) is None,
        },
{
    let mut i: usize = 0;
    while i < displays.len()
        invariant
            i <= displays@.len(),
            desktop_point(displays@, x, y, 0) == desktop_point(displays@, x, y, i as int),
        decreases displays@.len() - i,
    {
        let d = displays[i];
        let px: i64 = x as i64 - d.pixel_x as i64;
        let py: i64 = y as i64 - d.pixel_y as i64;
        if 0 <= px && px < d.pixel_width as i64 && 0 <= py && py < d.pixel_height as i64 {
            return Some((d.x as i64 + px, d.y as i64 + py));
        }
        i = i + 1;
    }
    None
}

/// A pixel of a placed display stands for the desktop point at the same offset
/// from the picture's corner, whatever the origins of the displays.
pub proof fn law_pixels_map_back(layout: PhysicalLayout, display: DesktopDisplay, x: u32, y: u32)
    requires
        layout.left <= display.x,
        layout.top <= display.y,
        holds_pixel(layout.placed(display), x, y),
    ensures
        desktop_point(seq![layout.placed(display)], x, y, 0) == Some(
            (layout.left + x, layout.top + y),
        ),
{
}

} // verus!
