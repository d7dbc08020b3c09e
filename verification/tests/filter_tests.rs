use rastercodec::png_reader::PNGReader;
use rastercodec::png_writer::{PNGWriter, Settings};
use rastercodec::ihdr::ColorType;

fn writer() -> PNGWriter {
    PNGWriter {
        settings: Settings { bit_depth: 8, color_type: ColorType::RGB, interlace_method: 0 },
    }
}

#[test]
fn paeth_on_equal_neighbors_is_identity() {
    let reader = PNGReader {};
    let mut x: u16 = 0;
    while x <= 255 {
        assert_eq!(reader.paeth_predictor(x as u8, x as u8, x as u8), x as u8);
        x += 1;
    }
}

#[test]
fn paeth_picks_closest_neighbor() {
    let reader = PNGReader {};
    assert_eq!(reader.paeth_predictor(10, 20, 15), 15);
    assert_eq!(reader.paeth_predictor(0, 0, 0), 0);
    assert_eq!(reader.paeth_predictor(200, 100, 150), 150);
}

#[test]
fn sub_filter_encodes_differences() {
    let w = writer();
    let row = [10u8, 20, 30, 40];
    let prev = [0u8, 0, 0, 0];
    let filtered = w.filter_scanline(1, &row, &prev, 1);
    assert_eq!(filtered, vec![10u8, 10, 10, 10]);
}

#[test]
fn up_filter_decodes_against_previous_row() {
    let reader = PNGReader {};
    let scan = [5u8, 5, 5];
    let prev = [10u8, 20, 30];
    let raw = reader.unfilter_scanline(2, &scan, Some(&prev), 1);
    assert_eq!(raw, vec![15u8, 25, 35]);
}

#[test]
fn every_filter_round_trips_every_bpp() {
    let w = writer();
    let reader = PNGReader {};
    // A fixed but irregular scanline, long enough for four-byte pixels.
    let row: Vec<u8> = (0..24u32).map(|i| ((i * 73 + 41) % 256) as u8).collect();
    let prev: Vec<u8> = (0..24u32).map(|i| ((i * 29 + 7) % 256) as u8).collect();
    for filter_type in 0u8..=4 {
        for bpp in 1usize..=4 {
            let filtered = w.filter_scanline(filter_type, &row, &prev, bpp);
            let raw = reader.unfilter_scanline(filter_type, &filtered, Some(&prev), bpp);
            assert_eq!(raw, row, "filter {} bpp {}", filter_type, bpp);
        }
    }
}

#[test]
fn first_scanline_round_trips_without_previous_row() {
    let w = writer();
    let reader = PNGReader {};
    let row: Vec<u8> = vec![3, 1, 4, 1, 5, 9, 2, 6];
    let zeros: Vec<u8> = vec![0; row.len()];
    for filter_type in 0u8..=4 {
        let filtered = w.filter_scanline(filter_type, &row, &zeros, 2);
        let raw = reader.unfilter_scanline(filter_type, &filtered, None, 2);
        assert_eq!(raw, row, "filter {}", filter_type);
    }
}

#[test]
fn adam7_passes_cover_every_position_exactly_once() {
    for (w, h) in [(5usize, 3usize), (8, 8), (1, 1), (7, 2), (16, 9)] {
        let mut hits = vec![0u32; w * h];
        for p in 0..7usize {
            let (xs, ys, xt, yt) = rastercodec::adam7::pass_params(p);
            let pw = rastercodec::adam7::pass_width_exec(p, w);
            let ph = rastercodec::adam7::pass_height_exec(p, h);
            for j in 0..ph {
                for i in 0..pw {
                    let x = xs + i * xt;
                    let y = ys + j * yt;
                    if x < w && y < h {
                        hits[y * w + x] += 1;
                    }
                }
            }
        }
        assert!(hits.iter().all(|&c| c == 1), "{}x{}", w, h);
    }
}
