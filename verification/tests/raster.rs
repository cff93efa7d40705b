use std::borrow::Cow;
use vivere::raster::{dot, encoded_frame, paint_frame, plot_cells, Plot, Stamp, TextCell};

fn frame_with(buf: &[u8], w: usize) -> Vec<String> {
    buf.chunks(w)
        .map(|row| row.iter().map(|&v| if v == 0 { '.' } else { '#' }).collect())
        .collect()
}

#[test]
fn dot_stamps_a_disc() {
    let mut buf = vec![0u8; 7 * 7];
    dot(&mut buf, 7, 7, 3, 3, 2, 9);
    assert_eq!(
        frame_with(&buf, 7),
        vec![
            ".......", "...#...", "..###..", ".#####.", "..###..", "...#...", ".......",
        ]
    );
    assert!(buf.iter().all(|&v| v == 0 || v == 9));
}

#[test]
fn dot_wraps_at_the_edges() {
    let mut buf = vec![0u8; 5 * 4];
    dot(&mut buf, 5, 4, 0, 0, 1, 1);
    assert_eq!(frame_with(&buf, 5), vec!["##..#", "#....", ".....", "#...."]);
}

#[test]
fn dot_of_radius_zero_is_one_pixel() {
    let mut buf = vec![5u8; 3 * 3];
    dot(&mut buf, 3, 3, -1, 7, 0, 2);
    // (-1, 7) wraps to column 2, row 1.
    assert_eq!(buf, vec![5, 5, 5, 5, 5, 2, 5, 5, 5]);
}

#[test]
fn later_stamps_cover_earlier_ones_and_the_background_is_kept() {
    let bg = vec![1u8; 6 * 3];
    let stamps = vec![
        Stamp { cx: 1, cy: 1, r: 1, idx: 7 },
        Stamp { cx: 2, cy: 1, r: 0, idx: 9 },
    ];
    let out = paint_frame(&bg, 6, 3, &stamps);
    assert_eq!(out, vec![1, 7, 1, 1, 1, 1, 7, 7, 9, 1, 1, 1, 1, 7, 1, 1, 1, 1]);
    assert_eq!(bg, vec![1u8; 18]);
    assert_eq!(paint_frame(&bg, 6, 3, &vec![]), bg);
}

fn lzw_by_the_crate(pixels: Vec<u8>) -> Vec<u8> {
    let mut frame = gif::Frame::default();
    frame.buffer = Cow::Owned(pixels);
    frame.make_lzw_pre_encoded();
    frame.buffer.into_owned()
}

#[test]
fn encoded_frame_is_the_painted_frame_compressed() {
    let bg = vec![0u8; 16 * 16];
    let stamps = vec![Stamp { cx: 8, cy: 8, r: 3, idx: 200 }];
    let out = encoded_frame(&bg, 16, 16, &stamps);
    assert_eq!(out, lzw_by_the_crate(paint_frame(&bg, 16, 16, &stamps)));
    // An index above 127 needs the full 8-bit code size; the run of equal
    // pixels compresses well below the raw 256 bytes.
    assert_eq!(out[0], 8);
    assert!(out.len() < 128);
    // Small indices give the smallest code size.
    let small = encoded_frame(&bg, 16, 16, &vec![Stamp { cx: 1, cy: 1, r: 1, idx: 3 }]);
    assert_eq!(small[0], 2);
    assert_ne!(small[1..].to_vec(), paint_frame(&bg, 16, 16, &vec![]));
}

fn glyph(c: char) -> TextCell {
    TextCell { glyph: c, r: 1, g: 2, b: 3 }
}

#[test]
fn plots_land_in_clamped_cells_and_later_ones_win() {
    let plots = vec![
        Plot { x: 0, y: 0, cell: glyph('a') },
        Plot { x: 9, y: 0, cell: glyph('b') }, // past the right edge
        Plot { x: 2, y: 7, cell: glyph('c') }, // past the bottom
        Plot { x: 0, y: 0, cell: glyph('d') }, // over 'a'
    ];
    let grid = plot_cells(3, 2, &plots);
    let shown: String = grid.iter().map(|c| c.map_or('.', |c| c.glyph)).collect();
    assert_eq!(shown, "d.b..c");
    // Zero rows still give one line.
    assert_eq!(plot_cells(4, 0, &vec![]).len(), 4);
}

#[test]
fn a_negative_radius_paints_nothing_and_bytes_past_the_frame_are_kept() {
    let mut buf = vec![4u8; 3 * 3 + 2];
    dot(&mut buf, 3, 3, 1, 1, -1, 9);
    assert_eq!(buf, vec![4u8; 11]);
    dot(&mut buf, 3, 3, 1, 1, 1, 9);
    assert_eq!(buf, vec![4, 9, 4, 9, 9, 9, 4, 9, 4, 4, 4]);
}
