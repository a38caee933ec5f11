//! Rasteriser checks at integer zoom factors.

use lifeplane::engine::{create_engine, EngineMode};

#[test]
fn single_cell_draws_one_pixel() {
    for mode in [EngineMode::ArenaLife, EngineMode::SparseLife, EngineMode::HashLife] {
        let mut e = create_engine(mode);
        e.set_cell(5, 5, true);
        let mut buf: Vec<u8> = vec![0u8; 100];
        e.draw_to_buffer(0, 0, 1, &mut buf, 10, 10);
        for py in 0..10usize {
            for px in 0..10usize {
                let want = if px == 5 && py == 5 { 255 } else { 0 };
                assert_eq!(buf[py * 10 + px], want, "pixel ({px},{py})");
            }
        }
    }
}

#[test]
fn single_cell_scales_to_a_square() {
    for mode in [EngineMode::ArenaLife, EngineMode::SparseLife, EngineMode::HashLife] {
        let mut e = create_engine(mode);
        e.set_cell(5, 5, true);
        let mut buf: Vec<u8> = vec![0u8; 100 * 100];
        e.draw_to_buffer(0, 0, 10, &mut buf, 100, 100);
        let mut live = 0usize;
        for py in 0..100usize {
            for px in 0..100usize {
                let want = if px / 10 == 5 && py / 10 == 5 { 255 } else { 0 };
                assert_eq!(buf[py * 100 + px], want, "pixel ({px},{py})");
                if buf[py * 100 + px] != 0 {
                    live += 1;
                }
            }
        }
        assert_eq!(live, 100);
    }
}

#[test]
fn viewport_corner_offsets_apply() {
    let mut e = create_engine(EngineMode::SparseLife);
    e.set_cell(-3, -4, true);
    let mut buf: Vec<u8> = vec![0u8; 64];
    e.draw_to_buffer(-8, -8, 1, &mut buf, 8, 8);
    for py in 0..8usize {
        for px in 0..8usize {
            let want = if px == 5 && py == 4 { 255 } else { 0 };
            assert_eq!(buf[py * 8 + px], want);
        }
    }
}
