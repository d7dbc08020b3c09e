use rastercodec::color::Color;
use rastercodec::error::CodecError;
use rastercodec::image::Image;
use rastercodec::interface::{Reader, Writer};
use rastercodec::png_reader::PNGReader;
use rastercodec::png_writer::{PNGWriter, Settings};
use rastercodec::ppm_reader::PPMReader;
use rastercodec::ihdr::ColorType;
use rastercodec::ppm_writer::PPMWriter;

fn six_pixel_file() -> Vec<u8> {
    b"P3\n3 2\n255\n255 0 0  0 255 0  0 0 255  255 255 0  0 255 255  255 0 255".to_vec()
}

fn six_colors() -> Vec<Color> {
    vec![
        Color::from_rgb(255, 0, 0),
        Color::from_rgb(0, 255, 0),
        Color::from_rgb(0, 0, 255),
        Color::from_rgb(255, 255, 0),
        Color::from_rgb(0, 255, 255),
        Color::from_rgb(255, 0, 255),
    ]
}

fn grid_of(image: &Image) -> Vec<Color> {
    let mut flat = Vec::new();
    for row in &image.pixels {
        for c in row {
            flat.push(*c);
        }
    }
    flat
}

#[test]
fn ppm_write() {
    let mut rows = Vec::new();
    for _ in 0..8usize {
        let mut row = Vec::new();
        for _ in 0..8usize {
            row.push(Color::from_rgb(100, 0, 100));
        }
        rows.push(row);
    }
    let image = Image::from_mat(8, 8, rows);
    let writer = PPMWriter {};
    let bytes = writer.encode(&image);
    assert_eq!(&bytes[0..3], b"P3\n");
    assert_eq!(&bytes[3..7], b"8 8\n");
    assert_eq!(&bytes[7..11], b"255\n");
}

#[test]
fn ppm_read_ppm_write() {
    let ppm_reader = PPMReader {};
    let image = ppm_reader.decode(&six_pixel_file()).unwrap();

    let writer = PPMWriter {};
    let bytes = writer.encode(&image);

    let again = ppm_reader.decode(&bytes).unwrap();
    assert_eq!(again.width(), 3);
    assert_eq!(again.height(), 2);
    assert_eq!(grid_of(&again), six_colors());
    assert_eq!(grid_of(&again), grid_of(&image));
}

#[test]
fn ppm_read_png_write() {
    let ppm_reader = PPMReader {};
    let image = ppm_reader.decode(&six_pixel_file()).unwrap();

    let writer = PNGWriter {
        settings: Settings { bit_depth: 8, color_type: ColorType::RGB, interlace_method: 0 },
    };
    let bytes = writer.encode(&image).unwrap();
    assert_eq!(&bytes[0..8], &[0x89, 0x50, 0x4e, 0x47, 0x0d, 0x0a, 0x1a, 0x0a]);

    let decoded = PNGReader {}.decode(&bytes).unwrap();
    assert_eq!(grid_of(&decoded), six_colors());
}

#[test]
fn ppm_to_png_to_ppm_preserves_the_grid() {
    let ppm_reader = PPMReader {};
    let direct = ppm_reader.decode(&six_pixel_file()).unwrap();

    let png_writer = PNGWriter {
        settings: Settings { bit_depth: 8, color_type: ColorType::RGB, interlace_method: 0 },
    };
    let png_bytes = png_writer.encode(&direct).unwrap();
    let from_png = PNGReader {}.decode(&png_bytes).unwrap();

    let ppm_writer = PPMWriter {};
    let ppm_bytes = ppm_writer.encode(&from_png);
    let back = ppm_reader.decode(&ppm_bytes).unwrap();

    assert_eq!(grid_of(&back), grid_of(&direct));
    assert_eq!(back.width(), direct.width());
    assert_eq!(back.height(), direct.height());
}

#[test]
fn tiny_ppm_round_trip_matches_literal_colors() {
    let reader = PPMReader {};
    let image = reader.decode(&six_pixel_file()).unwrap();
    assert_eq!(image.width(), 3);
    assert_eq!(image.height(), 2);
    assert_eq!(grid_of(&image), six_colors());

    let writer = PPMWriter {};
    let bytes = writer.encode(&image);
    let again = reader.decode(&bytes).unwrap();
    assert_eq!(grid_of(&again), six_colors());
}

#[test]
fn ppm_without_magic_is_rejected() {
    let reader = PPMReader {};
    assert!(matches!(reader.decode(&b"P6\n1 1\n255\n0 0 0".to_vec()), Err(
        CodecError::BadSignature
    )));
}

#[test]
fn ppm_with_missing_numbers_is_rejected() {
    let reader = PPMReader {};
    assert!(matches!(reader.decode(&b"P3\n2 2\n255\n255 0 0".to_vec()), Err(
        CodecError::TruncatedPixelStream
    )));
}

#[test]
fn ppm_with_oversized_sample_is_rejected() {
    let reader = PPMReader {};
    assert!(matches!(reader.decode(&b"P3\n1 1\n255\n300 0 0".to_vec()), Err(
        CodecError::Unsupported
    )));
}

#[test]
fn writers_report_their_extensions() {
    let p: &dyn Writer = &PPMWriter {};
    assert_eq!(p.extension(), "ppm");
    let g: &dyn Writer = &PNGWriter {
        settings: Settings { bit_depth: 8, color_type: ColorType::RGB, interlace_method: 0 },
    };
    assert_eq!(g.extension(), "png");
}

#[test]
fn images_can_be_read_through_the_reader_interface() {
    let image = Image::from_reader(&PPMReader {}, &six_pixel_file()).unwrap();
    assert_eq!(image.width(), 3);
    let reader: &dyn Reader = &PPMReader {};
    let again = reader.read(&six_pixel_file()).unwrap();
    assert_eq!(grid_of(&again), grid_of(&image));
}
