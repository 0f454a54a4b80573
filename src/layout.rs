use vstd::prelude::*;
use crate::types::{BoardSize, DEFAULT_SIDE};

verus! {

/// Side of the square canvas that boards are drawn on, in pixels.
pub const CANVAS_SIDE: u32 = 800;

/// Where the board grid lies on a square canvas of side `canvas`: the distance
/// `pitch` between neighbouring grid lines, and the offsets of the first
/// vertical (`margin_x`) and horizontal (`margin_y`) line.
#[derive(Clone, Copy, Debug, PartialEq, Eq, Structural)]
pub struct Layout {
    pub size: BoardSize,
    pub canvas: u32,
    pub pitch: u32,
    pub margin_x: u32,
    pub margin_y: u32,
}

pub open spec fn longer_side(size: BoardSize) -> int {
    if size.width >= size.height { size.width as int } else { size.height as int }
}

/// Grid pitch: the canvas holds the longer side's cells plus a cell and a half
/// of padding on each end; the pitch is rounded down to an even number of
/// pixels so that both margins of an axis come out equal.
pub open spec fn pitch_for(size: BoardSize, canvas: int) -> int {
    let raw = canvas / (longer_side(size) + 2);
    raw - raw % 2
}

/// Length of the grid along an axis with `side` lines.
pub open spec fn span(pitch: int, side: int) -> int {
    pitch * (side - 1)
}

/// The layout of `size` on a canvas of side `canvas`.
pub open spec fn layout_spec(size: BoardSize, canvas: int) -> Layout {
    let p = pitch_for(size, canvas);
    Layout {
        size,
        canvas: canvas as u32,
        pitch: p as u32,
        margin_x: ((canvas - span(p, size.width as int)) / 2) as u32,
        margin_y: ((canvas - span(p, size.height as int)) / 2) as u32,
    }
}

proof fn lemma_layout_fits(size: BoardSize, canvas: int)
    requires
        size.valid(),
        0 <= canvas,
    ensures
        0 <= pitch_for(size, canvas),
        0 <= span(pitch_for(size, canvas), size.width as int),
        0 <= span(pitch_for(size, canvas), size.height as int),
        span(pitch_for(size, canvas), size.width as int) + 3 * pitch_for(size, canvas) <= canvas,
        span(pitch_for(size, canvas), size.height as int) + 3 * pitch_for(size, canvas) <= canvas,
        pitch_for(size, canvas) % 2 == 0,
        span(pitch_for(size, canvas), size.width as int) % 2 == 0,
        span(pitch_for(size, canvas), size.height as int) % 2 == 0,
{
    let l = longer_side(size);
    let raw = canvas / (l + 2);
    let p = pitch_for(size, canvas);
    assert(raw * (l + 2) <= canvas) by (nonlinear_arith)
        requires raw == canvas / (l + 2), l + 2 > 0, canvas >= 0;
    assert(0 <= raw) by (nonlinear_arith)
        requires raw == canvas / (l + 2), l + 2 > 0, canvas >= 0;
    assert(0 <= p <= raw);
    assert(p * (l + 2) <= canvas) by (nonlinear_arith)
        requires raw * (l + 2) <= canvas, 0 <= p <= raw, l + 2 > 0;
    let w = size.width as int;
    let h = size.height as int;
    assert(0 <= p * (w - 1) && p * (w - 1) + 3 * p <= p * (l + 2)) by (nonlinear_arith)
        requires 0 <= p, 1 <= w <= l;
    assert(0 <= p * (h - 1) && p * (h - 1) + 3 * p <= p * (l + 2)) by (nonlinear_arith)
        requires 0 <= p, 1 <= h <= l;
    let k = p / 2;
    assert(p == 2 * k);
    assert(p * (w - 1) == 2 * (k * (w - 1))) by (nonlinear_arith)
        requires p == 2 * k;
    assert(p * (h - 1) == 2 * (k * (h - 1))) by (nonlinear_arith)
        requires p == 2 * k;
}

/// The layout of `size` on a canvas of side `canvas`. The grid and its two
/// margins never exceed the canvas, each margin is at least one and a half
/// pitches, and on a canvas of even side the margins of an axis are equal and
/// fill the canvas exactly (on an odd side one pixel is left over).
pub fn compute_layout(size: BoardSize, canvas: u32) -> (r: Layout)
    requires
        size.valid(),
    ensures
        r == layout_spec(size, canvas as int),
        2 * r.margin_x + span(r.pitch as int, size.width as int) <= canvas,
        2 * r.margin_y + span(r.pitch as int, size.height as int) <= canvas,
        canvas - (2 * r.margin_x + span(r.pitch as int, size.width as int)) == canvas % 2,
        canvas - (2 * r.margin_y + span(r.pitch as int, size.height as int)) == canvas % 2,
        2 * r.margin_x >= 3 * r.pitch,
        2 * r.margin_y >= 3 * r.pitch,
{
    proof {
        lemma_layout_fits(size, canvas as int);
    }
    let longer = if size.width >= size.height { size.width } else { size.height };
    let raw = canvas / (longer as u32 + 2);
    let pitch = raw - raw % 2;
    let span_x = pitch * (size.width as u32 - 1);
    let span_y = pitch * (size.height as u32 - 1);
    Layout {
        size,
        canvas,
        pitch,
        margin_x: (canvas - span_x) / 2,
        margin_y: (canvas - span_y) / 2,
    }
}

/// For every valid board the grid fits on the canvas with room for its margins,
/// and is centred: on each axis the margin after the grid equals the margin
/// before it, up to the one pixel that an odd canvas side leaves over.
pub proof fn lemma_layout_centered(size: BoardSize, canvas: u32)
    requires
        size.valid(),
    ensures
        ({
            let l = layout_spec(size, canvas as int);
            let sx = span(l.pitch as int, size.width as int);
            let sy = span(l.pitch as int, size.height as int);
            &&& 0 <= sx <= canvas
            &&& 0 <= sy <= canvas
            &&& l.margin_x + sx <= canvas
            &&& l.margin_y + sy <= canvas
            &&& canvas - l.margin_x - sx == l.margin_x + canvas % 2
            &&& canvas - l.margin_y - sy == l.margin_y + canvas % 2
            &&& canvas % 2 == 0 ==> canvas - l.margin_x - sx == l.margin_x && canvas - l.margin_y - sy == l.margin_y
        }),
{
    lemma_layout_fits(size, canvas as int);
}

impl Layout {
    pub open spec fn wf(&self) -> bool {
        self.size.valid() && *self == layout_spec(self.size, self.canvas as int)
    }

    /// Canvas position of the intersection at column `x`, row `y`.
    pub fn point(&self, x: usize, y: usize) -> (r: (u32, u32))
        requires
            self.wf(),
            x < self.size.width,
            y < self.size.height,
        ensures
            r.0 == self.margin_x + x * self.pitch,
            r.1 == self.margin_y + y * self.pitch,
            r.0 <= self.canvas,
            r.1 <= self.canvas,
    {
        proof {
            lemma_layout_fits(self.size, self.canvas as int);
            let p = self.pitch as int;
            assert(x * p <= span(p, self.size.width as int)) by (nonlinear_arith)
                requires 0 <= x < self.size.width, 0 <= p;
            assert(y * p <= span(p, self.size.height as int)) by (nonlinear_arith)
                requires 0 <= y < self.size.height, 0 <= p;
        }
        (self.margin_x + x as u32 * self.pitch, self.margin_y + y as u32 * self.pitch)
    }

    /// Radius of a stone: half the pitch, so that neighbouring stones touch.
    pub fn stone_radius(&self) -> (r: u32)
        ensures
            r == self.pitch / 2,
    {
        self.pitch / 2
    }
}

/// The star points of a board: the nine points at columns and rows 3, 9 and 15
/// of the 19 by 19 board, and none on any other size.
pub open spec fn star_points_spec(size: BoardSize) -> Seq<(usize, usize)> {
    if size.width == DEFAULT_SIDE && size.height == DEFAULT_SIDE {
        seq![(3, 3), (3, 9), (3, 15), (9, 3), (9, 9), (9, 15), (15, 3), (15, 9), (15, 15)]
    } else {
        seq![]
    }
}

/// The star points to mark on a board of the given size.
pub fn star_points(size: BoardSize) -> (r: Vec<(usize, usize)>)
    ensures
        r@ == star_points_spec(size),
{
    if size.width == DEFAULT_SIDE && size.height == DEFAULT_SIDE {
        let mut out: Vec<(usize, usize)> = Vec::new();
        out.push((3, 3));
        out.push((3, 9));
        out.push((3, 15));
        out.push((9, 3));
        out.push((9, 9));
        out.push((9, 15));
        out.push((15, 3));
        out.push((15, 9));
        out.push((15, 15));
        assert(out@ =~= star_points_spec(size));
        out
    } else {
        Vec::new()
    }
}

/// How the board and the stones are drawn.
#[derive(Clone, Copy, Debug, PartialEq, Eq, Structural)]
pub enum Theme {
    /// Dark board image, glass stone images.
    Dark,
    /// Light board image, glass stone images.
    Light,
    /// Flat white board, stones drawn as circles.
    Paper,
    /// Flat white board, stones drawn as circles.
    Plain,
}

pub open spec fn theme_named(name: Seq<u8>) -> Option<Theme> {
    if name == seq![0x64u8, 0x61, 0x72, 0x6b] {
        Some(Theme::Dark)
    } else if name == seq![0x6cu8, 0x69, 0x67, 0x68, 0x74] {
        Some(Theme::Light)
    } else if name == seq![0x70u8, 0x61, 0x70, 0x65, 0x72] {
        Some(Theme::Paper)
    } else if name == seq![0x70u8, 0x6c, 0x61, 0x69, 0x6e] {
        Some(Theme::Plain)
    } else {
        None
    }
}

fn bytes_equal(a: &[u8], b: &[u8]) -> (r: bool)
    ensures
        r == (a@ == b@),
{
    if a.len() != b.len() {
        return false;
    }
    let mut i: usize = 0;
    while i < a.len()
        invariant
            i <= a@.len(),
            a@.len() == b@.len(),
            forall|j: int| 0 <= j < i ==> a@[j] == b@[j],
        decreases a@.len() - i,
    {
        if a[i] != b[i] {
            return false;
        }
        i = i + 1;
    }
    assert(a@ =~= b@);
    true
}

impl Theme {
    /// The theme of the given name (`dark`, `light`, `paper` or `plain`);
    /// `None` for any other name.
    pub fn from_name(name: &[u8]) -> (r: Option<Theme>)
        ensures
            r == theme_named(name@),
    {
        let dark: [u8; 4] = [0x64, 0x61, 0x72, 0x6b];
        let light: [u8; 5] = [0x6c, 0x69, 0x67, 0x68, 0x74];
        let paper: [u8; 5] = [0x70, 0x61, 0x70, 0x65, 0x72];
        let plain: [u8; 5] = [0x70, 0x6c, 0x61, 0x69, 0x6e];
        proof {
            assert(dark@ =~= seq![0x64u8, 0x61, 0x72, 0x6b]);
            assert(light@ =~= seq![0x6cu8, 0x69, 0x67, 0x68, 0x74]);
            assert(paper@ =~= seq![0x70u8, 0x61, 0x70, 0x65, 0x72]);
            assert(plain@ =~= seq![0x70u8, 0x6c, 0x61, 0x69, 0x6e]);
        }
        if bytes_equal(name, dark.as_slice()) {
            Some(Theme::Dark)
        } else if bytes_equal(name, light.as_slice()) {
            Some(Theme::Light)
        } else if bytes_equal(name, paper.as_slice()) {
            Some(Theme::Paper)
        } else if bytes_equal(name, plain.as_slice()) {
            Some(Theme::Plain)
        } else {
            None
        }
    }

    /// Whether the theme draws the board and the stones from raster images
    /// rather than as flat fills and circles.
    pub fn uses_images(&self) -> (r: bool)
        ensures
            r == (*self == Theme::Dark || *self == Theme::Light),
    {
        match self {
            Theme::Dark => true,
            Theme::Light => true,
            Theme::Paper => false,
            Theme::Plain => false,
        }
    }
}

} // verus!
