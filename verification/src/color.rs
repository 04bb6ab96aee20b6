//! Colours, and the table that turns an escape count into one.

use vstd::prelude::*;

verus! {

/// One pixel: red, green and blue, eight bits each.
#[derive(Clone, Copy, Debug, PartialEq, Eq, Structural)]
pub struct Color {
    pub r: u8,
    pub g: u8,
    pub b: u8,
}

impl Color {
    /// The colour of a point that never escapes.
    pub open spec fn spec_black() -> Color {
        Color { r: 0, g: 0, b: 0 }
    }

    /// The colour of a point that never escapes.
    #[verifier::when_used_as_spec(spec_black)]
    pub fn black() -> (color: Color)
        ensures
            color == Color::spec_black(),
    {
        Color { r: 0, g: 0, b: 0 }
    }
}

/// The colour that a table of `table.len()` entries gives to an escape
/// result.
///
/// A point that never escaped is black. A point that escaped after `count`
/// iterations takes entry `len - count - 1`, so that the earliest escapes sit
/// at the far end of the table. A count at or beyond the table's length has
/// no entry of its own and is clamped to entry 0, the entry of the latest
/// count the table covers; with an empty table there is nothing to clamp to
/// and the colour is black.
pub open spec fn shade_of(table: Seq<Color>, escape: Option<usize>) -> Color {
    match escape {
        None => Color::black(),
        Some(count) => if count < table.len() {
            table[table.len() - count - 1]
        } else if table.len() > 0 {
            table[0]
        } else {
            Color::black()
        },
    }
}

/// A fixed table of colours, sampled once from a gradient.
pub struct ColorMapBuffer {
    colors: Vec<Color>,
}

impl View for ColorMapBuffer {
    type V = Seq<Color>;

    closed spec fn view(&self) -> Seq<Color> {
        self.colors@
    }
}

impl ColorMapBuffer {
    /// Samples a gradient at `size` evenly spaced positions.
    ///
    /// `cmap(i, size)` is asked for the colour at position `i / size` of the
    /// gradient, once for each `i` below `size` and in that order; entry `i`
    /// of the table is its answer. The first entry therefore stands for
    /// position 0 and the last for `(size - 1) / size`.
    pub fn from_cmap<F: Fn(usize, usize) -> Color>(size: usize, cmap: F) -> (table: ColorMapBuffer)
        requires
            forall|i: usize| i < size ==> cmap.requires((i, size)),
        ensures
            table@.len() == size,
            forall|i: int| 0 <= i < size ==> cmap.ensures((i as usize, size), #[trigger] table@[i]),
    {
        let mut colors: Vec<Color> = Vec::new();
        for i in 0..size
            invariant
                colors@.len() == i,
                forall|j: usize| j < size ==> cmap.requires((j, size)),
                forall|j: int| 0 <= j < i ==> cmap.ensures((j as usize, size), #[trigger] colors@[j]),
        {
            let color = cmap(i, size);
            colors.push(color);
        }
        ColorMapBuffer { colors }
    }

    /// The number of entries.
    pub fn len(&self) -> (n: usize)
        ensures
            n == self@.len(),
    {
        self.colors.len()
    }

    /// The entries, in order.
    pub fn colors(&self) -> (colors: &Vec<Color>)
        ensures
            colors@ == self@,
    {
        &self.colors
    }

    /// The colour of an escape result; see [`shade_of`].
    pub fn shade(&self, escape: Option<usize>) -> (color: Color)
        ensures
            color == shade_of(self@, escape),
    {
        let size = self.colors.len();
        match escape {
            None => Color::black(),
            Some(count) => if count < size {
                self.colors[size - count - 1]
            } else if size > 0 {
                self.colors[0]
            } else {
                Color::black()
            },
        }
    }
}

} // verus!
