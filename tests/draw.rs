use hieroglyph::{
    compose, glyph_color, pixel_iter, pixel_width, GlyphRaster, Pixel, RasterPixel, RunRaster,
    SegmentRaster,
};

const RED: [u8; 4] = [255, 0, 0, 255];

fn coords(pixels: &[Pixel]) -> Vec<(i32, i32)> {
    pixels.iter().map(|p| (p.x, p.y)).collect()
}

fn glyph(x: i32, y: i32, pixels: &[(i32, i32)]) -> GlyphRaster {
    placed(x, y, None, pixels)
}

fn placed(x: i32, y: i32, left: Option<i32>, pixels: &[(i32, i32)]) -> GlyphRaster {
    GlyphRaster {
        x,
        y,
        left,
        pixels: pixels
            .iter()
            .map(|&(x, y)| RasterPixel { x, y, rgba: RED })
            .collect(),
    }
}

fn square(side: usize) -> SegmentRaster {
    SegmentRaster::Emoji {
        pixels: (0..side * side).map(|i| [i as u8, 0, 0, 255]).collect(),
    }
}

#[test]
fn pixel_iter_works() {
    let iter = pixel_iter(3, 4);
    let expected = vec![
        (0, 0, 00),
        (1, 0, 01),
        (2, 0, 02),
        (0, 1, 03),
        (1, 1, 04),
        (2, 1, 05),
        (0, 2, 06),
        (1, 2, 07),
        (2, 2, 08),
        (0, 3, 09),
        (1, 3, 10),
        (2, 3, 11),
    ];

    assert_eq!(iter, expected);
}

#[test]
fn pixel_iter_empty_grid() {
    assert!(pixel_iter(0, 5).is_empty());
    assert!(pixel_iter(5, 0).is_empty());
}

#[test]
fn text_is_shifted_by_first_placement() {
    let rasters = vec![SegmentRaster::Text {
        runs: vec![RunRaster {
            line_y: 10,
            width: 5,
            glyphs: vec![placed(3, -4, Some(2), &[(0, 0), (1, 2)])],
        }],
    }];
    let pixels = compose(&rasters, 10, 12).unwrap();
    assert_eq!(coords(&pixels), vec![(1, 6), (2, 8)]);
    assert_eq!(pixels[0].rgba, RED);
}

#[test]
fn emoji_follows_text_with_spacers() {
    let rasters = vec![
        SegmentRaster::Text {
            runs: vec![RunRaster {
                line_y: 10,
                width: 5,
                glyphs: vec![placed(3, -4, Some(2), &[(0, 0), (1, 2)])],
            }],
        },
        square(10),
        SegmentRaster::Text {
            runs: vec![RunRaster {
                line_y: 10,
                width: 4,
                glyphs: vec![glyph(0, 0, &[(0, 0)])],
            }],
        },
    ];
    let pixels = compose(&rasters, 10, 12).unwrap();
    assert_eq!(pixels.len(), 2 + 100 + 1);
    // the emoji starts one spacer after the text's width, shifted left by the placement
    assert_eq!((pixels[2].x, pixels[2].y), (4, 2));
    assert_eq!(pixels[2].rgba, [0, 0, 0, 255]);
    assert_eq!((pixels[2 + 99].x, pixels[2 + 99].y), (13, 11));
    assert_eq!(pixels[2 + 99].rgba, [99, 0, 0, 255]);
    assert_eq!((pixels[2 + 10].x, pixels[2 + 10].y), (4, 3));
    // cursor after the emoji: 5 + 1 + 10 + 1
    assert_eq!((pixels[102].x, pixels[102].y), (15, 10));
    assert_eq!(pixel_width(&pixels), 16);
}

#[test]
fn first_emoji_means_no_shift() {
    let rasters = vec![square(25)];
    let pixels = compose(&rasters, 25, 30).unwrap();
    assert_eq!(pixels.len(), 625);
    // a spacer of a tenth of the capital height, rounded down
    assert_eq!((pixels[0].x, pixels[0].y), (2, 5));
}

#[test]
fn zero_capital_height_draws_no_emoji() {
    let rasters = vec![
        SegmentRaster::Emoji { pixels: vec![[1, 2, 3, 4]] },
        SegmentRaster::Text {
            runs: vec![RunRaster {
                line_y: 0,
                width: 3,
                glyphs: vec![glyph(1, 0, &[(0, 0)])],
            }],
        },
    ];
    let pixels = compose(&rasters, 0, 0).unwrap();
    assert_eq!(coords(&pixels), vec![(1, 0)]);
}

#[test]
fn short_raster_draws_what_it_has() {
    let rasters = vec![SegmentRaster::Emoji { pixels: vec![RED; 5] }];
    let pixels = compose(&rasters, 3, 3).unwrap();
    assert_eq!(coords(&pixels), vec![(0, 0), (1, 0), (2, 0), (0, 1), (1, 1)]);
}

#[test]
fn lines_advance_by_their_width() {
    let rasters = vec![SegmentRaster::Text {
        runs: vec![
            RunRaster { line_y: 5, width: 7, glyphs: vec![placed(0, 0, Some(0), &[(0, 0)])] },
            RunRaster { line_y: 5, width: 7, glyphs: vec![glyph(0, 0, &[(0, 0)])] },
        ],
    }];
    let pixels = compose(&rasters, 10, 10).unwrap();
    assert_eq!(coords(&pixels), vec![(0, 5), (7, 5)]);
}

#[test]
fn empty_segments_draw_nothing() {
    let pixels = compose(&vec![], 18, 14).unwrap();
    assert!(pixels.is_empty());
    assert_eq!(pixel_width(&pixels), 1);
}

#[test]
fn overflowing_column_is_refused() {
    let rasters = vec![SegmentRaster::Text {
        runs: vec![RunRaster {
            line_y: 0,
            width: 1,
            glyphs: vec![glyph(i32::MAX, 0, &[(1, 0)])],
        }],
    }];
    assert!(compose(&rasters, 10, 10).is_none());
}

#[test]
fn overflowing_cursor_is_refused() {
    let rasters = vec![SegmentRaster::Text {
        runs: vec![
            RunRaster { line_y: 0, width: i32::MAX, glyphs: vec![] },
            RunRaster { line_y: 0, width: 1, glyphs: vec![] },
        ],
    }];
    assert!(compose(&rasters, 10, 10).is_none());
}

#[test]
fn width_is_one_past_largest_column() {
    let pixels = vec![
        Pixel { x: 3, y: 0, rgba: RED },
        Pixel { x: 9, y: 1, rgba: RED },
        Pixel { x: -4, y: 2, rgba: RED },
    ];
    assert_eq!(pixel_width(&pixels), 10);
    let left = vec![Pixel { x: -4, y: 2, rgba: RED }];
    assert_eq!(pixel_width(&left), 1);
}

#[test]
fn width_covers_every_drawn_column() {
    let rasters = vec![
        SegmentRaster::Text {
            runs: vec![RunRaster {
                line_y: 14,
                width: 11,
                glyphs: vec![placed(1, -13, Some(1), &[(0, 0), (8, 12), (9, 3)])],
            }],
        },
        square(13),
    ];
    let pixels = compose(&rasters, 13, 14).unwrap();
    let width = pixel_width(&pixels) as i32;
    let mut max_x = 0;
    for p in &pixels {
        max_x = max_x.max(p.x);
    }
    assert!(max_x < width);
    assert!(width - max_x <= 2);
}

#[test]
fn drawing_twice_gives_same_stream() {
    let rasters = vec![
        square(4),
        SegmentRaster::Text {
            runs: vec![RunRaster { line_y: 3, width: 2, glyphs: vec![glyph(0, 0, &[(1, 1)])] }],
        },
    ];
    let a = compose(&rasters, 4, 3).unwrap();
    let b = compose(&rasters, 4, 3).unwrap();
    assert_eq!(coords(&a), coords(&b));
    assert_eq!(
        a.iter().map(|p| p.rgba).collect::<Vec<_>>(),
        b.iter().map(|p| p.rgba).collect::<Vec<_>>()
    );
}

#[test]
fn only_first_glyph_placement_shifts() {
    let rasters = vec![SegmentRaster::Text {
        runs: vec![RunRaster {
            line_y: 0,
            width: 4,
            glyphs: vec![glyph(0, 0, &[(0, 0)]), placed(2, 0, Some(5), &[(0, 0)])],
        }],
    }];
    let pixels = compose(&rasters, 10, 10).unwrap();
    assert_eq!(coords(&pixels), vec![(0, 0), (2, 0)]);
    let later = vec![
        square(2),
        SegmentRaster::Text {
            runs: vec![RunRaster {
                line_y: 0,
                width: 1,
                glyphs: vec![placed(0, 0, Some(3), &[(0, 0)])],
            }],
        },
    ];
    let pixels = compose(&later, 2, 2).unwrap();
    assert_eq!((pixels[4].x, pixels[4].y), (2, 0));
}

#[test]
fn glyph_color_prefers_own() {
    assert_eq!(glyph_color(Some([1, 2, 3, 4]), RED), [1, 2, 3, 4]);
    assert_eq!(glyph_color(None, RED), RED);
}
