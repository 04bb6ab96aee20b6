use std::cell::RefCell;

use fractals::color::{Color, ColorMapBuffer};
use scarlet::color::RGBColor;
use scarlet::colormap::{ColorMap, ListedColorMap};

fn ramp(size: usize) -> ColorMapBuffer {
    ColorMapBuffer::from_cmap(size, |i, n| Color { r: i as u8, g: n as u8, b: 200 })
}

fn quantise(color: RGBColor) -> Color {
    Color {
        r: (color.r * 255.0) as u8,
        g: (color.g * 255.0) as u8,
        b: (color.b * 255.0) as u8,
    }
}

#[test]
fn black_is_all_zero() {
    assert_eq!(Color::black(), Color { r: 0, g: 0, b: 0 });
}

#[test]
fn table_has_one_entry_for_each_position() {
    let table = ramp(5);
    assert_eq!(table.len(), 5);
    assert_eq!(table.colors().len(), 5);
    for i in 0..5 {
        assert_eq!(table.colors()[i], Color { r: i as u8, g: 5, b: 200 });
    }
}

#[test]
fn first_and_last_entries_are_the_ends_of_the_sampling() {
    let table = ramp(100);
    assert_eq!(table.colors()[0], Color { r: 0, g: 100, b: 200 });
    assert_eq!(table.colors()[99], Color { r: 99, g: 100, b: 200 });
}

#[test]
fn positions_are_asked_in_order_with_the_size() {
    let asked = RefCell::new(Vec::new());
    let table = ColorMapBuffer::from_cmap(4, |i, n| {
        asked.borrow_mut().push((i, n));
        Color { r: 1, g: 2, b: 3 }
    });
    assert_eq!(table.len(), 4);
    assert_eq!(*asked.borrow(), vec![(0, 4), (1, 4), (2, 4), (3, 4)]);
}

#[test]
fn table_of_size_zero_is_empty() {
    let asked = RefCell::new(0usize);
    let table = ColorMapBuffer::from_cmap(0, |_, _| {
        *asked.borrow_mut() += 1;
        Color { r: 1, g: 2, b: 3 }
    });
    assert_eq!(table.len(), 0);
    assert!(table.colors().is_empty());
    assert_eq!(*asked.borrow(), 0);
}

#[test]
fn point_that_never_escaped_is_black() {
    assert_eq!(ramp(10).shade(None), Color { r: 0, g: 0, b: 0 });
    assert_eq!(ramp(0).shade(None), Color { r: 0, g: 0, b: 0 });
}

#[test]
fn escape_count_indexes_from_the_far_end() {
    let table = ramp(10);
    // size - count - 1
    assert_eq!(table.shade(Some(0)), Color { r: 9, g: 10, b: 200 });
    assert_eq!(table.shade(Some(1)), Color { r: 8, g: 10, b: 200 });
    assert_eq!(table.shade(Some(3)), Color { r: 6, g: 10, b: 200 });
    assert_eq!(table.shade(Some(9)), Color { r: 0, g: 10, b: 200 });
}

#[test]
fn count_beyond_the_table_is_clamped_to_the_first_entry() {
    let table = ramp(10);
    assert_eq!(table.shade(Some(10)), Color { r: 0, g: 10, b: 200 });
    assert_eq!(table.shade(Some(11)), Color { r: 0, g: 10, b: 200 });
    assert_eq!(table.shade(Some(usize::MAX)), Color { r: 0, g: 10, b: 200 });
}

#[test]
fn empty_table_shades_everything_black() {
    let table = ramp(0);
    assert_eq!(table.shade(Some(0)), Color { r: 0, g: 0, b: 0 });
    assert_eq!(table.shade(Some(5)), Color { r: 0, g: 0, b: 0 });
}

#[test]
fn table_of_one_entry() {
    let table = ramp(1);
    assert_eq!(table.shade(Some(0)), Color { r: 0, g: 1, b: 200 });
    assert_eq!(table.shade(Some(1)), Color { r: 0, g: 1, b: 200 });
}

#[test]
fn gradient_is_sampled_at_index_over_size() {
    let plasma = ListedColorMap::plasma();
    let size = 1000usize;
    let table = ColorMapBuffer::from_cmap(size, |i, n| {
        quantise(plasma.transform_single(i as f64 / n as f64))
    });
    assert_eq!(table.len(), size);
    assert_eq!(table.colors()[0], quantise(plasma.transform_single(0.0)));
    assert_eq!(table.colors()[999], quantise(plasma.transform_single(999.0 / 1000.0)));
    assert_eq!(table.colors()[250], quantise(plasma.transform_single(0.25)));
}

#[test]
fn gradient_end_is_never_sampled() {
    let plasma = ListedColorMap::plasma();
    let table = ColorMapBuffer::from_cmap(4, |i, n| {
        quantise(plasma.transform_single(i as f64 / n as f64))
    });
    assert_eq!(table.len(), 4);
    assert_eq!(table.colors()[0], quantise(plasma.transform_single(0.0)));
    assert_eq!(table.colors()[1], quantise(plasma.transform_single(0.25)));
    assert_eq!(table.colors()[2], quantise(plasma.transform_single(0.5)));
    assert_eq!(table.colors()[3], quantise(plasma.transform_single(0.75)));
    assert_ne!(table.colors()[3], quantise(plasma.transform_single(1.0)));
}

#[test]
fn channels_are_truncated_not_rounded() {
    let flat = ListedColorMap::new(vec![[0.999, 0.5, 0.0], [0.999, 0.5, 0.0]].into_iter());
    let table = ColorMapBuffer::from_cmap(2, |i, n| {
        quantise(flat.transform_single(i as f64 / n as f64))
    });
    // 0.999 * 255 = 254.745 and 0.5 * 255 = 127.5, both cut off.
    assert_eq!(table.colors()[0], Color { r: 254, g: 127, b: 0 });
    assert_eq!(table.colors()[1], Color { r: 254, g: 127, b: 0 });
}
