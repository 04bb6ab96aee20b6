//! The viewer's state, and the filling of a pixel buffer.

use vstd::prelude::*;
use crate::color::{shade_of, Color, ColorMapBuffer};
use crate::input::{Cursor, ElementState, InputEvent, MouseButton};
use crate::mandelbrot::escape_run;

verus! {

/// The canvas: its size in pixels, and how often it has been zoomed into.
#[derive(Clone, Copy, Debug, PartialEq, Eq, Structural)]
pub struct FractalCanvas {
    /// The number of zooms so far. The region shown is the first one, shrunk
    /// this many times by the scaling factor.
    pub zoom_level: usize,
    pub width: i32,
    pub height: i32,
}

/// A canvas together with the pointer that zooms it.
#[derive(Clone, Copy, Debug, PartialEq, Eq, Structural)]
pub struct FractalImage {
    pub cursor: Cursor,
    pub canvas: FractalCanvas,
}

/// The order to zoom in: around which pixel, and from which zoom level.
///
/// It carries the state as it was before the zoom was counted, which is what
/// the new region is computed from.
#[derive(Clone, Copy, Debug, PartialEq, Eq, Structural)]
pub struct ZoomRequest {
    pub cursor: Cursor,
    pub zoom_level: usize,
}

/// The state that `event` leaves behind.
///
/// The left button going down counts one zoom. A pointer move is remembered
/// and changes nothing else. No other event changes anything.
pub open spec fn after_event(image: FractalImage, event: InputEvent) -> FractalImage {
    if event.is_zoom_trigger() {
        FractalImage {
            cursor: image.cursor,
            canvas: FractalCanvas {
                zoom_level: (image.canvas.zoom_level + 1) as usize,
                width: image.canvas.width,
                height: image.canvas.height,
            },
        }
    } else {
        match event {
            InputEvent::CursorMoved { x, y } => FractalImage {
                cursor: Cursor { x, y },
                canvas: image.canvas,
            },
            _ => image,
        }
    }
}

/// The zoom that `event` orders in state `image`, if it orders one.
pub open spec fn zoom_ordered(image: FractalImage, event: InputEvent) -> Option<ZoomRequest> {
    if event.is_zoom_trigger() {
        Some(ZoomRequest { cursor: image.cursor, zoom_level: image.canvas.zoom_level })
    } else {
        None
    }
}

/// The state that a run of events leaves behind, taken in one after another.
pub open spec fn after_events(image: FractalImage, events: Seq<InputEvent>) -> FractalImage
    decreases events.len(),
{
    if events.len() == 0 {
        image
    } else {
        after_event(after_events(image, events.drop_last()), events.last())
    }
}

/// How many events of a run order a zoom.
pub open spec fn zooms_ordered(events: Seq<InputEvent>) -> nat
    decreases events.len(),
{
    if events.len() == 0 {
        0
    } else if events.last().is_zoom_trigger() {
        zooms_ordered(events.drop_last()) + 1
    } else {
        zooms_ordered(events.drop_last())
    }
}

/// The zoom level counts the zooms: after any run of events it has grown by
/// the number of left presses in the run, and by nothing else. The canvas
/// keeps its size throughout.
pub proof fn lemma_zoom_level_counts_zooms(image: FractalImage, events: Seq<InputEvent>)
    requires
        image.canvas.zoom_level + zooms_ordered(events) <= usize::MAX,
    ensures
        after_events(image, events).canvas.zoom_level == image.canvas.zoom_level + zooms_ordered(
            events,
        ),
        after_events(image, events).canvas.width == image.canvas.width,
        after_events(image, events).canvas.height == image.canvas.height,
    decreases events.len(),
{
    if events.len() > 0 {
        lemma_zoom_level_counts_zooms(image, events.drop_last());
    }
}

/// The pixel at (`column`, `row`) of a buffer that holds its rows one after
/// another, each `width` pixels long.
pub open spec fn pixel_at(pixels: Seq<Color>, width: usize, column: usize, row: usize) -> Color {
    pixels[row * width + column]
}

/// `pixel` is the colour of a result that `calculate` may give for the pixel
/// at `at`.
pub open spec fn painted<F: Fn((usize, usize), usize) -> Option<usize>>(
    pixel: Color,
    at: (usize, usize),
    cmap: Seq<Color>,
    iterations: usize,
    calculate: F,
) -> bool {
    exists|escape: Option<usize>| #[trigger]
        calculate.ensures((at, iterations), escape) && pixel == shade_of(cmap, escape)
}

/// `pixels` is a rendering of a region `bounds.0` wide and `bounds.1` high:
/// it has one slot for each pixel, and each slot is painted for its own
/// column and row.
pub open spec fn rendered<F: Fn((usize, usize), usize) -> Option<usize>>(
    pixels: Seq<Color>,
    bounds: (usize, usize),
    cmap: Seq<Color>,
    iterations: usize,
    calculate: F,
) -> bool {
    &&& pixels.len() == bounds.0 * bounds.1
    &&& forall|column: usize, row: usize|
        column < bounds.0 && row < bounds.1 ==> painted(
            #[trigger] pixel_at(pixels, bounds.0, column, row),
            (column, row),
            cmap,
            iterations,
            calculate,
        )
}

/// A pixel inside the region has a slot inside the buffer.
proof fn lemma_slot_in_buffer(width: int, height: int, column: int, row: int)
    requires
        0 <= column < width,
        0 <= row < height,
    ensures
        0 <= row * width + column < width * height,
{
    assert(row * width + column < width * height) by (nonlinear_arith)
        requires
            0 <= column < width,
            0 <= row < height,
    ;
    assert(0 <= row * width) by (nonlinear_arith)
        requires
            0 <= width,
            0 <= row,
    ;
}

/// Two pixels of the region share a slot only if they are the same pixel.
proof fn lemma_slots_apart(width: int, column: int, row: int, other_column: int, other_row: int)
    requires
        0 <= column < width,
        0 <= other_column < width,
        row * width + column == other_row * width + other_column,
    ensures
        column == other_column,
        row == other_row,
{
    assert(row == other_row) by (nonlinear_arith)
        requires
            0 <= column < width,
            0 <= other_column < width,
            row * width + column == other_row * width + other_column,
    ;
    assert(row * width == other_row * width);
}

/// `calculate` promises at most one result for each pixel.
pub open spec fn is_single_valued<F: Fn((usize, usize), usize) -> Option<usize>>(
    iterations: usize,
    calculate: F,
) -> bool {
    forall|at: (usize, usize), a: Option<usize>, b: Option<usize>|
        #[trigger] calculate.ensures((at, iterations), a) && #[trigger] calculate.ensures(
            (at, iterations),
            b,
        ) ==> a == b
}

/// Row `row` of a buffer whose rows are `width` pixels long.
pub open spec fn band_of(pixels: Seq<Color>, width: usize, row: int) -> Seq<Color> {
    pixels.subrange(row * width, (row + 1) * width)
}

/// Every slot of the buffer belongs to one pixel of the region.
proof fn lemma_slot_has_pixel(width: int, height: int, slot: int)
    requires
        0 <= slot < width * height,
        0 <= width,
        0 <= height,
    ensures
        0 <= slot % width < width,
        0 <= slot / width < height,
        (slot / width) * width + slot % width == slot,
{
    assert(width > 0) by (nonlinear_arith)
        requires
            0 <= slot < width * height,
            0 <= width,
            0 <= height,
    ;
    vstd::arithmetic::div_mod::lemma_fundamental_div_mod(slot, width);
    vstd::arithmetic::div_mod::lemma_mod_bound(slot, width);
    vstd::arithmetic::div_mod::lemma_div_pos_is_pos(slot, width);
    assert(slot / width < height) by (nonlinear_arith)
        requires
            slot == width * (slot / width) + slot % width,
            0 <= slot % width,
            slot < width * height,
            0 < width,
    ;
    assert((slot / width) * width == width * (slot / width)) by (nonlinear_arith);
}

/// A rendering is a function of its inputs: when `calculate` is single
/// valued, any two renderings of one region are the same buffer,
/// whatever the order in which their pixels were filled.
pub proof fn lemma_render_deterministic<F: Fn((usize, usize), usize) -> Option<usize>>(
    first: Seq<Color>,
    second: Seq<Color>,
    bounds: (usize, usize),
    cmap: Seq<Color>,
    iterations: usize,
    calculate: F,
)
    requires
        is_single_valued(iterations, calculate),
        rendered(first, bounds, cmap, iterations, calculate),
        rendered(second, bounds, cmap, iterations, calculate),
    ensures
        first == second,
{
    let (width, height) = bounds;
    assert forall|slot: int| 0 <= slot < first.len() implies first[slot] == second[slot] by {
        lemma_slot_has_pixel(width as int, height as int, slot);
        let column = (slot % (width as int)) as usize;
        let row = (slot / (width as int)) as usize;
        let here = (column, row);
        assert(painted(pixel_at(first, width, column, row), here, cmap, iterations, calculate));
        assert(painted(pixel_at(second, width, column, row), here, cmap, iterations, calculate));
    }
    assert(first =~= second);
}

/// A buffer that was rendered row by row is a rendering of the whole region.
///
/// Row `i` was rendered on its own, as a region one pixel high, by the
/// calculation `bands[i]`, which gives for column `c` of that row what
/// `calculate` gives for the pixel at (`c`, `i`). No row needs anything of
/// another, so the rows may be rendered in any order, or all at once.
pub proof fn lemma_bands_compose<
    F: Fn((usize, usize), usize) -> Option<usize>,
    G: Fn((usize, usize), usize) -> Option<usize>,
>(
    pixels: Seq<Color>,
    bounds: (usize, usize),
    cmap: Seq<Color>,
    iterations: usize,
    calculate: F,
    bands: Seq<G>,
)
    requires
        pixels.len() == bounds.0 * bounds.1,
        bands.len() == bounds.1,
        forall|i: int|
            0 <= i < bounds.1 ==> rendered(
                #[trigger] band_of(pixels, bounds.0, i),
                (bounds.0, 1usize),
                cmap,
                iterations,
                bands[i],
            ),
        forall|i: int, column: usize, escape: Option<usize>|
            0 <= i < bounds.1 && column < bounds.0 && #[trigger] bands[i].ensures(
                ((column, 0usize), iterations),
                escape,
            ) ==> calculate.ensures(((column, i as usize), iterations), escape),
    ensures
        rendered(pixels, bounds, cmap, iterations, calculate),
{
    let (width, height) = bounds;
    assert forall|column: usize, row: usize| column < width && row < height implies painted(
        #[trigger] pixel_at(pixels, width, column, row),
        (column, row),
        cmap,
        iterations,
        calculate,
    ) by {
        let band = band_of(pixels, width, row as int);
        lemma_slot_in_buffer(width as int, height as int, column as int, row as int);
        lemma_slot_in_buffer(width as int, height as int, width - 1, row as int);
        assert((row + 1) * width == row * width + width) by (nonlinear_arith);
        let calculate_band = bands[row as int];
        assert(rendered(band, (width, 1usize), cmap, iterations, calculate_band));
        assert(pixel_at(band, width, column, 0) == pixel_at(pixels, width, column, row));
        assert(painted(pixel_at(band, width, column, 0), (column, 0), cmap, iterations, calculate_band));
    }
}

/// An escape time found within `limit` iterations has an entry of its own in
/// a table of `limit` colours, so no count that the kernel gives is ever
/// clamped: the count `k` takes entry `limit - k - 1`, and a point that did
/// not escape is black.
pub proof fn lemma_escape_time_has_entry<Z, D: Fn(Z) -> bool, R: Fn(Z, Z) -> Z>(
    orbit: Seq<Z>,
    result: Option<usize>,
    c: Z,
    limit: usize,
    origin: Z,
    diverged: D,
    recur: R,
    cmap: Seq<Color>,
)
    requires
        escape_run(orbit, c, limit, origin, diverged, recur, result),
        cmap.len() == limit,
    ensures
        match result {
            Some(k) => 0 <= limit - k - 1 < limit && shade_of(cmap, result) == cmap[limit - k - 1],
            None => shade_of(cmap, result) == Color::black(),
        },
{
}

impl FractalImage {
    /// A canvas of the given size that has not been zoomed, with the pointer
    /// at its corner.
    pub fn new(width: i32, height: i32) -> (image: FractalImage)
        ensures
            image.cursor == (Cursor { x: 0, y: 0 }),
            image.canvas == (FractalCanvas { zoom_level: 0, width, height }),
    {
        FractalImage {
            cursor: Cursor { x: 0, y: 0 },
            canvas: FractalCanvas { zoom_level: 0, width, height },
        }
    }

    /// Takes one event in.
    ///
    /// The state moves as [`after_event`] says. The result is the zoom that
    /// the event orders, if any: whoever holds the region of the plane that
    /// is shown shrinks it as the request says, and draws again.
    pub fn handle_events(
        image: &mut FractalImage,
        event: &InputEvent,
    ) -> (request: Option<ZoomRequest>)
        requires
            event.is_zoom_trigger() ==> old(image).canvas.zoom_level < usize::MAX,
        ensures
            *final(image) == after_event(*old(image), *event),
            request == zoom_ordered(*old(image), *event),
    {
        match event {
            InputEvent::MouseInput { state, button } => {
                match button {
                    MouseButton::Left => {
                        match state {
                            ElementState::Pressed => {
                                let request = ZoomRequest {
                                    cursor: image.cursor,
                                    zoom_level: image.canvas.zoom_level,
                                };
                                image.canvas.zoom_level += 1;
                                Some(request)
                            },
                            ElementState::Released => None,
                        }
                    },
                    _ => None,
                }
            },
            InputEvent::CursorMoved { x, y } => {
                image.cursor.x = *x;
                image.cursor.y = *y;
                None
            },
            _ => None,
        }
    }

    /// Renders a region of pixels into colour.
    ///
    /// `pixels` holds the region row by row, `bounds.0` pixels to a row and
    /// `bounds.1` rows. For each pixel, `calculate` is given its column and
    /// row and the iteration limit, and the pixel takes the colour that
    /// `cmap` has for the answer.
    pub fn render<F: Fn((usize, usize), usize) -> Option<usize>>(
        &self,
        pixels: &mut [Color],
        bounds: (usize, usize),
        cmap: &ColorMapBuffer,
        iterations: usize,
        calculate: F,
    )
        requires
            old(pixels)@.len() == bounds.0 * bounds.1,
            cmap@.len() == iterations,
            forall|column: usize, row: usize|
                column < bounds.0 && row < bounds.1 ==> calculate.requires(
                    ((column, row), iterations),
                ),
        ensures
            rendered(final(pixels)@, bounds, cmap@, iterations, calculate),
    {
        let (width, height) = bounds;
        let slots: usize = pixels.len();
        for row in 0..height
            invariant
                bounds == (width, height),
                pixels@.len() == slots == width * height,
                forall|c: usize, r: usize|
                    c < width && r < height ==> calculate.requires(((c, r), iterations)),
                forall|c: usize, r: usize|
                    c < width && r < row ==> painted(
                        #[trigger] pixel_at(pixels@, width, c, r),
                        (c, r),
                        cmap@,
                        iterations,
                        calculate,
                    ),
        {
            for column in 0..width
                invariant
                    row < height,
                    pixels@.len() == slots == width * height,
                    forall|c: usize, r: usize|
                        c < width && r < height ==> calculate.requires(((c, r), iterations)),
                    forall|c: usize, r: usize|
                        c < width && r < row ==> painted(
                            #[trigger] pixel_at(pixels@, width, c, r),
                            (c, r),
                            cmap@,
                            iterations,
                            calculate,
                        ),
                    forall|c: usize|
                        c < column ==> painted(
                            #[trigger] pixel_at(pixels@, width, c, row),
                            (c, row),
                            cmap@,
                            iterations,
                            calculate,
                        ),
            {
                proof {
                    lemma_slot_in_buffer(width as int, height as int, column as int, row as int);
                }
                let escape = calculate((column, row), iterations);
                let color = cmap.shade(escape);
                let ghost before = pixels@;
                pixels[row * width + column] = color;
                proof {
                    assert(pixel_at(pixels@, width, column, row) == color);
                    assert forall|c: usize, r: usize|
                        c < width && (r < row || (r == row && c < column)) implies #[trigger] pixel_at(
                        pixels@,
                        width,
                        c,
                        r,
                    ) == pixel_at(before, width, c, r) by {
                        lemma_slot_in_buffer(width as int, height as int, c as int, r as int);
                        if r * width + c == row * width + column {
                            lemma_slots_apart(
                                width as int,
                                c as int,
                                r as int,
                                column as int,
                                row as int,
                            );
                        }
                    }
                }
            }
        }
    }
}

} // verus!
