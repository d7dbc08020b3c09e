use std::io::Write;

use rastercodec::chunk::{Chunk, ChunkType};
use rastercodec::color::Color;
use rastercodec::error::CodecError;
use rastercodec::ihdr::{ColorType, IHDR};
use rastercodec::image::Image;
use rastercodec::png::PNG;
use rastercodec::png_reader::PNGReader;
use rastercodec::png_writer::{PNGWriter, Settings};

fn crc_of(tag: &[u8], data: &[u8]) -> u32 {
    let crc = crc::Crc::<u32>::new(&crc::CRC_32_ISO_HDLC);
    let mut digest = crc.digest();
    digest.update(tag);
    digest.update(data);
    digest.finalize()
}

fn zlib(data: &[u8]) -> Vec<u8> {
    let mut enc = flate2::write::ZlibEncoder::new(Vec::new(), flate2::Compression::default());
    enc.write_all(data).unwrap();
    enc.finish().unwrap()
}

fn chunk(ct: ChunkType, tag: &[u8], data: Vec<u8>) -> Chunk {
    let crc = crc_of(tag, &data);
    Chunk { length: data.len() as u32, chunk_type: ct, data, crc }
}

fn ihdr_chunk(w: u32, h: u32, color_code: u8, interlace: u8) -> Chunk {
    let mut payload = Vec::new();
    payload.extend_from_slice(&w.to_be_bytes());
    payload.extend_from_slice(&h.to_be_bytes());
    payload.push(8);
    payload.push(color_code);
    payload.push(0);
    payload.push(0);
    payload.push(interlace);
    chunk(ChunkType::IHDR, b"IHDR", payload)
}

fn solid_image(w: usize, h: usize, c: Color) -> Image {
    let mut rows = Vec::new();
    for _ in 0..h {
        let mut row = Vec::new();
        for _ in 0..w {
            row.push(c);
        }
        rows.push(row);
    }
    Image::from_mat(w, h, rows)
}

fn rgb_writer() -> PNGWriter {
    PNGWriter {
        settings: Settings { bit_depth: 8, color_type: ColorType::RGB, interlace_method: 0 },
    }
}

#[test]
fn encoded_file_starts_with_signature() {
    let image = solid_image(8, 8, Color::from_rgb(100, 0, 100));
    let bytes = rgb_writer().encode(&image).unwrap();
    assert_eq!(&bytes[0..8], &[0x89, 0x50, 0x4e, 0x47, 0x0d, 0x0a, 0x1a, 0x0a]);
}

#[test]
fn encoded_chunks_carry_true_lengths_and_crcs() {
    let image = solid_image(4, 3, Color::from_rgb(1, 2, 3));
    let bytes = rgb_writer().encode(&image).unwrap();
    let png = PNG::from_bytes(&bytes).unwrap();
    assert_eq!(png.chunks.len(), 3);
    let tags: [&[u8]; 3] = [b"IHDR", b"IDAT", b"IEND"];
    for (i, c) in png.chunks.iter().enumerate() {
        assert_eq!(c.length as usize, c.data.len());
        assert_eq!(c.crc, crc_of(tags[i], &c.data));
    }
    // The checksum wrapper is held to a known value: the CRC of the bare
    // IEND tag is fixed by the PNG standard.
    assert_eq!(png.chunks[2].crc, 0xae426082);
}

#[test]
fn solid_magenta_square_survives_rgb_round_trip() {
    let image = solid_image(8, 8, Color::new(100, 0, 100, 255));
    let bytes = rgb_writer().encode(&image).unwrap();
    let decoded = PNGReader {}.decode(&bytes).unwrap();
    assert_eq!(decoded.width(), 8);
    assert_eq!(decoded.height(), 8);
    for row in &decoded.pixels {
        for c in row {
            assert_eq!(*c, Color::new(100, 0, 100, 255));
        }
    }
}

#[test]
fn varied_image_survives_rgba_round_trip_with_alpha() {
    let mut rows = Vec::new();
    for y in 0..5usize {
        let mut row = Vec::new();
        for x in 0..7usize {
            row.push(Color::new(
                (x * 40) as u8,
                (y * 50) as u8,
                ((x * y * 13) % 256) as u8,
                ((x + y * 7) * 11 % 256) as u8,
            ));
        }
        rows.push(row);
    }
    let image = Image::from_mat(7, 5, rows);
    let writer = PNGWriter {
        settings: Settings { bit_depth: 8, color_type: ColorType::RGBA, interlace_method: 0 },
    };
    let bytes = writer.encode(&image).unwrap();
    let decoded = PNGReader {}.decode(&bytes).unwrap();
    assert_eq!(decoded.width(), 7);
    assert_eq!(decoded.height(), 5);
    assert_eq!(decoded.pixels, image.pixels);
}

#[test]
fn grayscale_round_trip_uses_red_channel() {
    let image = solid_image(3, 2, Color::new(9, 77, 200, 31));
    let writer = PNGWriter {
        settings: Settings {
            bit_depth: 8,
            color_type: ColorType::Grayscale,
            interlace_method: 0,
        },
    };
    let bytes = writer.encode(&image).unwrap();
    let decoded = PNGReader {}.decode(&bytes).unwrap();
    for row in &decoded.pixels {
        for c in row {
            assert_eq!(*c, Color::new(9, 9, 9, 255));
        }
    }
}

#[test]
fn interlaced_single_pixel_comes_from_first_pass() {
    // A 1x1 interlaced image: only pass 1 contributes a scanline; the
    // other six passes are empty.
    let stream = zlib(&[0u8, 42, 7, 99]);
    let png = PNG {
        chunks: vec![
            ihdr_chunk(1, 1, 2, 1),
            chunk(ChunkType::IDAT, b"IDAT", stream),
            chunk(ChunkType::IEND, b"IEND", Vec::new()),
        ],
    };
    let bytes = png.to_bytes();
    let decoded = PNGReader {}.decode(&bytes).unwrap();
    assert_eq!(decoded.width(), 1);
    assert_eq!(decoded.height(), 1);
    assert_eq!(decoded.pixels[0][0], Color::new(42, 7, 99, 255));
}

#[test]
fn interlaced_image_matches_straight_image() {
    // The same 4x4 pixels laid out straight and as seven Adam7 passes
    // decode to the same grid.
    let mut rows = Vec::new();
    for y in 0..4usize {
        let mut row = Vec::new();
        for x in 0..4usize {
            row.push(Color::from_rgb((x * 60) as u8, (y * 60) as u8, 123));
        }
        rows.push(row);
    }
    let image = Image::from_mat(4, 4, rows.clone());
    let straight_bytes = rgb_writer().encode(&image).unwrap();
    let straight = PNGReader {}.decode(&straight_bytes).unwrap();

    let mut interlaced_stream = Vec::new();
    for p in 0..7usize {
        let (xs, ys, xt, yt) = rastercodec::adam7::pass_params(p);
        let pw = rastercodec::adam7::pass_width_exec(p, 4);
        let ph = rastercodec::adam7::pass_height_exec(p, 4);
        if pw == 0 {
            continue;
        }
        for j in 0..ph {
            interlaced_stream.push(0u8);
            for i in 0..pw {
                let c = &rows[ys + j * yt][xs + i * xt];
                interlaced_stream.push(c.r);
                interlaced_stream.push(c.g);
                interlaced_stream.push(c.b);
            }
        }
    }
    let png = PNG {
        chunks: vec![
            ihdr_chunk(4, 4, 2, 1),
            chunk(ChunkType::IDAT, b"IDAT", zlib(&interlaced_stream)),
            chunk(ChunkType::IEND, b"IEND", Vec::new()),
        ],
    };
    let interlaced = PNGReader {}.decode(&png.to_bytes()).unwrap();
    assert_eq!(interlaced.pixels, straight.pixels);
}

#[test]
fn image_data_may_span_several_idat_chunks() {
    let image = solid_image(4, 4, Color::from_rgb(5, 6, 7));
    let bytes = rgb_writer().encode(&image).unwrap();
    let parsed = PNG::from_bytes(&bytes).unwrap();
    let idat: Vec<u8> = parsed.chunks[1].data.clone();
    let (a, b) = idat.split_at(idat.len() / 2);
    let png = PNG {
        chunks: vec![
            ihdr_chunk(4, 4, 2, 0),
            chunk(ChunkType::IDAT, b"IDAT", a.to_vec()),
            chunk(ChunkType::IDAT, b"IDAT", b.to_vec()),
            chunk(ChunkType::IEND, b"IEND", Vec::new()),
        ],
    };
    let decoded = PNGReader {}.decode(&png.to_bytes()).unwrap();
    assert_eq!(decoded.pixels, image.pixels);
}

#[test]
fn bad_signature_is_rejected() {
    let data = vec![0u8, 1, 2, 3, 4, 5, 6, 7, 8, 9];
    assert!(matches!(PNGReader {}.decode(&data), Err(CodecError::BadSignature)));
}

#[test]
fn truncated_chunk_is_rejected() {
    let mut data = vec![0x89u8, 0x50, 0x4e, 0x47, 0x0d, 0x0a, 0x1a, 0x0a];
    data.extend_from_slice(&[0, 0, 0, 13, 0x49, 0x48]);
    assert!(matches!(PNGReader {}.decode(&data), Err(CodecError::ShortChunk)));
}

#[test]
fn missing_header_is_rejected() {
    let png = PNG { chunks: vec![chunk(ChunkType::IEND, b"IEND", Vec::new())] };
    assert!(matches!(PNGReader {}.decode(&png.to_bytes()), Err(CodecError::MissingIHDR)));
}

#[test]
fn unknown_color_type_code_is_rejected() {
    let png = PNG {
        chunks: vec![ihdr_chunk(1, 1, 5, 0), chunk(ChunkType::IEND, b"IEND", Vec::new())],
    };
    assert!(matches!(PNGReader {}.decode(&png.to_bytes()), Err(CodecError::BadColorType)));
}

#[test]
fn palette_decoding_is_unsupported() {
    let png = PNG {
        chunks: vec![ihdr_chunk(1, 1, 3, 0), chunk(ChunkType::IEND, b"IEND", Vec::new())],
    };
    assert!(matches!(PNGReader {}.decode(&png.to_bytes()), Err(CodecError::Unsupported)));
}

#[test]
fn corrupt_compressed_data_is_rejected() {
    let png = PNG {
        chunks: vec![
            ihdr_chunk(1, 1, 2, 0),
            chunk(ChunkType::IDAT, b"IDAT", vec![1, 2, 3, 4]),
            chunk(ChunkType::IEND, b"IEND", Vec::new()),
        ],
    };
    assert!(matches!(PNGReader {}.decode(&png.to_bytes()), Err(CodecError::ZlibFailure)));
}

#[test]
fn short_pixel_stream_is_rejected() {
    let png = PNG {
        chunks: vec![
            ihdr_chunk(2, 2, 2, 0),
            chunk(ChunkType::IDAT, b"IDAT", zlib(&[0u8, 1, 2, 3])),
            chunk(ChunkType::IEND, b"IEND", Vec::new()),
        ],
    };
    assert!(matches!(PNGReader {}.decode(&png.to_bytes()), Err(CodecError::TruncatedPixelStream)));
}

#[test]
fn undefined_filter_type_is_rejected() {
    let png = PNG {
        chunks: vec![
            ihdr_chunk(1, 1, 2, 0),
            chunk(ChunkType::IDAT, b"IDAT", zlib(&[9u8, 1, 2, 3])),
            chunk(ChunkType::IEND, b"IEND", Vec::new()),
        ],
    };
    assert!(matches!(PNGReader {}.decode(&png.to_bytes()), Err(CodecError::BadFilterType)));
}

#[test]
fn palette_and_interlaced_writing_are_unsupported() {
    let image = solid_image(1, 1, Color::from_rgb(1, 2, 3));
    let palette_writer = PNGWriter {
        settings: Settings { bit_depth: 8, color_type: ColorType::Palette, interlace_method: 0 },
    };
    assert!(palette_writer.encode(&image).is_err());
    let interlaced_writer = PNGWriter {
        settings: Settings { bit_depth: 8, color_type: ColorType::RGB, interlace_method: 1 },
    };
    assert!(interlaced_writer.encode(&image).is_err());
    let deep_writer = PNGWriter {
        settings: Settings { bit_depth: 16, color_type: ColorType::RGB, interlace_method: 0 },
    };
    assert!(deep_writer.encode(&image).is_err());
}

#[test]
fn header_fields_round_trip() {
    let hdr = IHDR {
        width: 640,
        height: 480,
        bit_depth: 8,
        color_type: ColorType::RGBA,
        compression_method: 0,
        filter_method: 0,
        interlace_method: 0,
    };
    let mut payload = Vec::new();
    hdr.write(&mut payload);
    assert_eq!(payload.len(), 13);
    let back = IHDR::read(&payload).unwrap();
    assert_eq!(back, hdr);
    assert_eq!(back.bytes_per_pixel(), 4);
    assert!(back.has_alpha());
}

#[test]
fn bytes_per_pixel_follows_color_type() {
    let mut hdr = IHDR {
        width: 1,
        height: 1,
        bit_depth: 8,
        color_type: ColorType::Grayscale,
        compression_method: 0,
        filter_method: 0,
        interlace_method: 0,
    };
    assert_eq!(hdr.bytes_per_pixel(), 1);
    assert!(!hdr.has_alpha());
    hdr.color_type = ColorType::RGB;
    assert_eq!(hdr.bytes_per_pixel(), 3);
    hdr.color_type = ColorType::GrayscaleAlpha;
    assert_eq!(hdr.bytes_per_pixel(), 2);
    assert!(hdr.has_alpha());
    hdr.color_type = ColorType::RGBA;
    assert_eq!(hdr.bytes_per_pixel(), 4);
}

#[test]
fn color_type_codes_are_the_wire_codes() {
    assert_eq!(ColorType::from_code(0).unwrap(), ColorType::Grayscale);
    assert_eq!(ColorType::from_code(2).unwrap(), ColorType::RGB);
    assert_eq!(ColorType::from_code(3).unwrap(), ColorType::Palette);
    assert_eq!(ColorType::from_code(4).unwrap(), ColorType::GrayscaleAlpha);
    assert_eq!(ColorType::from_code(6).unwrap(), ColorType::RGBA);
    assert_eq!(ColorType::from_code(1), Err(CodecError::BadColorType));
    assert_eq!(ColorType::RGBA.to_code(), 6);
}

#[test]
fn color_constructors_fill_missing_channels() {
    assert_eq!(Color::new(1, 2, 3, 4), Color { r: 1, g: 2, b: 3, a: 4 });
    assert_eq!(Color::from_rgb(1, 2, 3), Color { r: 1, g: 2, b: 3, a: 255 });
    assert_eq!(Color::from_array([5, 6, 7, 8]), Color { r: 5, g: 6, b: 7, a: 8 });
    assert_eq!(Color::black(), Color { r: 0, g: 0, b: 0, a: 255 });
    assert_eq!(Color::from_slice(&[9]), Color { r: 9, g: 0, b: 0, a: 255 });
    assert_eq!(Color::from_slice(&[9, 8, 7, 6, 5]), Color { r: 9, g: 8, b: 7, a: 6 });
}

#[test]
fn fresh_image_is_transparent_black() {
    let im = Image::new(3, 2);
    assert_eq!(im.width(), 3);
    assert_eq!(im.height(), 2);
    for row in &im.pixels {
        assert_eq!(row.len(), 3);
        for c in row {
            assert_eq!(*c, Color::new(0, 0, 0, 0));
        }
    }
}
