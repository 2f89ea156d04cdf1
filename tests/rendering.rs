use tid::font::{Font, Glyph};
use tid::history::History;
use tid::render::{composite, Pixel};

const FG: Pixel = [255, 255, 255, 255];
const BG: Pixel = [0, 0, 0, 255];

fn diagonal_font() -> Font {
    let mut font = Font::new(3);
    let mask = vec![true, false, false, false, true, false, false, false, true];
    font.set_glyph('A', Glyph { width: 3, mask });
    font
}

#[test]
fn scenario_composite_diagonal() {
    let font = diagonal_font();
    let block = composite("A", &font, FG, BG);
    assert_eq!(block.width(), 3);
    assert_eq!(block.height(), 3);
    let rows = block.rows().unwrap();
    assert_eq!(rows.len(), 3);
    let mut fg_count = 0;
    for (y, row) in rows.iter().enumerate() {
        for (x, px) in row.iter().enumerate() {
            if x == y {
                assert_eq!(*px, FG);
                fg_count += 1;
            } else {
                assert_eq!(*px, BG);
            }
        }
    }
    assert_eq!(fg_count, 3);
}

#[test]
fn composite_width_sums_glyph_widths() {
    let mut font = diagonal_font();
    font.set_glyph('b', Glyph { width: 2, mask: vec![true; 6] });
    let block = composite("AbxA", &font, FG, BG);
    assert_eq!(block.width(), 8);
    assert_eq!(font.text_width("AbxA"), 8);
    let rows = block.rows().unwrap();
    assert_eq!(rows[0], &[FG, BG, BG, FG, FG, FG, BG, BG][..]);
    assert_eq!(rows[2], &[BG, BG, FG, FG, FG, BG, BG, FG][..]);
}

#[test]
fn composite_of_empty_line_has_no_columns() {
    let font = diagonal_font();
    let block = composite("", &font, FG, BG);
    assert_eq!(block.width(), 0);
    assert!(block.rows().is_none());
    let glyphless = composite("zz", &font, FG, BG);
    assert_eq!(glyphless.width(), 0);
}

#[test]
fn blit_copies_rows_and_keeps_the_rest() {
    let font = diagonal_font();
    let block = composite("A", &font, FG, BG);
    let frame_width = 4usize;
    let mut frame = vec![7u8; frame_width * 5 * 4];
    block.draw_onto_pixels(&mut frame[..], frame_width, 1);
    for row in 0..5usize {
        for x in 0..frame_width {
            let at = (row * frame_width + x) * 4;
            let px = [frame[at], frame[at + 1], frame[at + 2], frame[at + 3]];
            if (1..4).contains(&row) && x < 3 {
                let y = row - 1;
                assert_eq!(px, if x == y { FG } else { BG });
            } else {
                assert_eq!(px, [7, 7, 7, 7]);
            }
        }
    }
}

#[test]
fn blit_of_empty_block_changes_nothing() {
    let font = diagonal_font();
    let block = composite("", &font, FG, BG);
    let mut frame = vec![9u8; 32];
    block.draw_onto_pixels(&mut frame[..], 2, 0);
    assert_eq!(frame, vec![9u8; 32]);
}

#[test]
fn fleck_font_converts() {
    let mut bytes = [0u8; 0x2100];
    bytes[b'a' as usize] = 5;
    let fleck_font = fleck::Font::new(&bytes);
    let font = Font::from_fleck(&fleck_font);
    assert_eq!(font.height(), 16);
    assert_eq!(font.glyph_width('a'), 5);
    assert_eq!(font.glyph('a').unwrap().mask.len(), 80);
    assert_eq!(font.glyph_width('b'), 0);
    assert!(font.glyph('\u{100}').is_none());
}

#[test]
fn scenario_history_evicts_oldest() {
    let mut h = History::new(3, 0.0f32);
    for v in [1.0f32, 2.0, 3.0, 4.0] {
        h.push(v);
    }
    assert_eq!(h.len(), 3);
    assert_eq!(h.iter(), vec![4.0, 3.0, 2.0]);
}

#[test]
fn history_keeps_its_length() {
    let mut h = History::new(5, 0u32);
    assert_eq!(h.iter(), vec![0; 5]);
    for v in 0..20u32 {
        h.push(v);
        assert_eq!(h.len(), 5);
    }
    assert_eq!(h.iter(), vec![19, 18, 17, 16, 15]);
    let mut empty = History::new(0, 0u32);
    empty.push(3);
    assert_eq!(empty.len(), 0);
    assert!(empty.is_empty());
}
