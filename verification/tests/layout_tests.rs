use vega::{tile_horizontal, tile_monocle, tile_vertical, tile_windows, Layout, Rect};

fn rect(x: i64, y: i64, width: i64, height: i64) -> Rect {
    Rect { x, y, width, height }
}

fn screen() -> Rect {
    rect(0, 0, 1000, 800)
}

#[test]
fn tile_zero_windows_is_empty() {
    for layout in [Layout::Vertical, Layout::Horizontal, Layout::Monocle] {
        let rects = tile_windows(layout, screen(), 0);
        assert!(rects.is_empty());
    }
}

#[test]
fn tile_single_window_fills_screen() {
    for layout in [Layout::Vertical, Layout::Horizontal, Layout::Monocle] {
        let rects = tile_windows(layout, screen(), 1);
        assert_eq!(rects, vec![screen()]);
    }
}

#[test]
fn vertical_master_and_stack() {
    let rects = tile_windows(Layout::Vertical, screen(), 3);
    assert_eq!(
        rects,
        vec![
            rect(0, 0, 600, 800),
            rect(600, 0, 400, 400),
            rect(600, 400, 400, 400),
        ]
    );
}

#[test]
fn vertical_last_row_takes_remainder() {
    let rects = tile_windows(Layout::Vertical, rect(0, 0, 1000, 799), 4);
    assert_eq!(rects[0], rect(0, 0, 600, 799));
    assert_eq!(rects[1], rect(600, 0, 400, 266));
    assert_eq!(rects[2], rect(600, 266, 400, 266));
    assert_eq!(rects[3], rect(600, 532, 400, 267));
    let total: i64 = rects[1..].iter().map(|r| r.height).sum();
    assert_eq!(total, 799);
}

#[test]
fn vertical_stack_heights_sum_to_screen_height() {
    for n in 2..12usize {
        let rects = tile_windows(Layout::Vertical, screen(), n);
        assert_eq!(rects[0], rect(0, 0, 600, 800));
        let total: i64 = rects[1..].iter().map(|r| r.height).sum();
        assert_eq!(total, 800);
        for w in rects[1..].windows(2) {
            assert_eq!(w[0].y + w[0].height, w[1].y);
            assert_eq!(w[0].x, 600);
            assert_eq!(w[0].width, 400);
        }
    }
}

#[test]
fn horizontal_master_and_stack() {
    let rects = tile_windows(Layout::Horizontal, screen(), 3);
    assert_eq!(
        rects,
        vec![
            rect(0, 0, 1000, 480),
            rect(0, 480, 500, 320),
            rect(500, 480, 500, 320),
        ]
    );
}

#[test]
fn horizontal_stack_widths_sum_to_screen_width() {
    for n in 2..12usize {
        let rects = tile_windows(Layout::Horizontal, screen(), n);
        assert_eq!(rects[0], rect(0, 0, 1000, 480));
        let total: i64 = rects[1..].iter().map(|r| r.width).sum();
        assert_eq!(total, 1000);
        for w in rects[1..].windows(2) {
            assert_eq!(w[0].x + w[0].width, w[1].x);
        }
    }
}

#[test]
fn monocle_every_rect_is_the_screen() {
    let rects = tile_windows(Layout::Monocle, screen(), 5);
    assert_eq!(rects.len(), 5);
    for r in rects {
        assert_eq!(r, screen());
    }
}

#[test]
fn tile_in_place_matches_tile_windows() {
    let mut rects = vec![rect(0, 0, 0, 0); 4];
    tile_vertical(&mut rects, screen());
    assert_eq!(rects, tile_windows(Layout::Vertical, screen(), 4));
    tile_horizontal(&mut rects, screen());
    assert_eq!(rects, tile_windows(Layout::Horizontal, screen(), 4));
    tile_monocle(&mut rects, screen());
    assert_eq!(rects, tile_windows(Layout::Monocle, screen(), 4));
}

#[test]
fn center_within_uses_half_open_bounds() {
    let display = screen();
    assert!(rect(400, 300, 100, 100).center_within(display));
    assert!(rect(0, 0, 10, 10).center_within(display));
    // centre exactly on the right edge falls outside
    assert!(!rect(950, 300, 100, 100).center_within(display));
    assert!(!rect(-200, 300, 100, 100).center_within(display));
    assert!(!rect(400, 900, 100, 100).center_within(display));
}

#[test]
fn tile_negative_origin_screen() {
    let s = rect(-100, -50, 1000, 800);
    let rects = tile_windows(Layout::Vertical, s, 2);
    assert_eq!(rects[0], rect(-100, -50, 600, 800));
    assert_eq!(rects[1], rect(500, -50, 400, 800));
}
