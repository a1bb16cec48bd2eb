use tng::bytes::push_be32;
use tng::channel::{ByteSink, ByteSource, Channel};
use tng::chunk::{emit_chunk, read_chunk};
use tng::crc::crc32;
use tng::decoder::{lay_read_tiles, tng_decoder_process, Flush, Layout};
use tng::encoder::{encode_bands, pool_threads, tng_encoder_process};
use tng::format::{
    bytes_per_pixel, tng_decoder_init, tng_encoder_init, TngDecoder, TngEncoder, TngFault,
    TngImageInfo, TngTileConfig, CHUNK_IEND, CHUNK_IHDR, CHUNK_TDAT, CHUNK_THDR, COMP_BROTLI,
    COMP_DEFLATE, COMP_FFV1_RANGE, COMP_LZMA, COMP_ZSTD, TNG_MAGIC,
};
use tng::plan::plan_grid;

/// Bytes in memory to read from, and writes that are kept until one is refused.
struct Wire {
    input: Vec<u8>,
    at: usize,
    asked: Vec<usize>,
    writes: Vec<Vec<u8>>,
    refuse: Option<usize>,
}

impl Wire {
    fn new(input: Vec<u8>) -> Wire {
        Wire { input, at: 0, asked: Vec::new(), writes: Vec::new(), refuse: None }
    }

    fn written(&self) -> Vec<u8> {
        self.writes.concat()
    }
}

impl ByteSource for Wire {
    fn read(&mut self, size: usize) -> Vec<u8> {
        self.asked.push(size);
        let end = std::cmp::min(self.input.len(), self.at + size);
        let bytes = self.input[self.at..end].to_vec();
        self.at = end;
        bytes
    }
}

impl ByteSink for Wire {
    fn write(&mut self, data: &[u8]) -> usize {
        if self.refuse == Some(self.writes.len()) {
            return data.len() / 2;
        }
        self.writes.push(data.to_vec());
        data.len()
    }
}

fn info(width: u32, height: u32, bit_depth: u8, color_type: u8) -> TngImageInfo {
    TngImageInfo { width, height, bit_depth, color_type }
}

fn encoder(image: TngImageInfo, tile_w: u32, tile_h: u32, comp: u8, filter: u8) -> TngEncoder {
    let config = plan_grid(&image, tile_w, tile_h, 2, comp, filter).unwrap();
    tng_encoder_init(Some(image), Some(config)).unwrap()
}

fn pixels_for(enc: &TngEncoder) -> Vec<u8> {
    let len = enc.info.width as usize * enc.info.height as usize * enc.bytes_per_pixel;
    (0..len).map(|i| ((i * i + 7 * i) / 3 % 251) as u8).collect()
}

fn encode(enc: &TngEncoder, wire: Wire) -> (Result<i32, TngFault>, Wire) {
    let mut io = Channel::new(wire);
    let end = tng_encoder_process(Some(enc), &mut io);
    (end, io.into_callbacks())
}

fn encoded(enc: &TngEncoder) -> Vec<u8> {
    let (end, wire) = encode(enc, Wire::new(pixels_for(enc)));
    assert_eq!(end, Ok(0));
    wire.written()
}

fn decode(bytes: Vec<u8>) -> (Result<i32, TngFault>, Wire, TngDecoder) {
    let mut decoder = tng_decoder_init();
    let mut io = Channel::new(Wire::new(bytes));
    let end = tng_decoder_process(Some(&mut decoder), &mut io);
    (end, io.into_callbacks(), decoder)
}

fn chunk(tag: [u8; 4], data: &[u8]) -> Vec<u8> {
    let mut io = Channel::new(Wire::new(Vec::new()));
    assert!(emit_chunk(&mut io, tag, data));
    io.into_callbacks().written()
}

fn be32s(numbers: &[u32]) -> Vec<u8> {
    let mut out = Vec::new();
    for n in numbers {
        push_be32(&mut out, *n);
    }
    out
}

/// A stream of 8-bit gray pixels with the given grid and raw tiles.
fn gray_stream(width: u32, height: u32, grid: [u32; 6], tiles: &[Vec<u8>]) -> Vec<u8> {
    let mut out = TNG_MAGIC.to_vec();
    let mut ihdr = be32s(&[width, height]);
    ihdr.extend_from_slice(&[8, 0, 0, 0, 0]);
    out.extend(chunk(CHUNK_IHDR, &ihdr));
    out.extend(chunk(CHUNK_THDR, &be32s(&grid)));
    for tile in tiles {
        out.extend(chunk(CHUNK_TDAT, tile));
    }
    out.extend(chunk(CHUNK_IEND, &[]));
    out
}

fn raw_tile(pixels: &[u8]) -> Vec<u8> {
    let mut tile = vec![0x77, 0x10];
    tile.extend_from_slice(pixels);
    tile
}

#[test]
fn checksum_of_end_chunk() {
    assert_eq!(crc32(&CHUNK_IEND, &[]), 0xAE42_6082);
    assert_eq!(chunk(CHUNK_IEND, &[]), vec![0, 0, 0, 0, 73, 69, 78, 68, 0xAE, 0x42, 0x60, 0x82]);
}

#[test]
fn checksum_of_data() {
    assert_eq!(crc32(&[49, 50, 51, 52], &[53, 54, 55, 56, 57]), 0xCBF4_3926);
}

#[test]
fn chunk_is_read_back() {
    let bytes = chunk(*b"abcd", &[1, 2, 3]);
    assert_eq!(bytes[..8], [0, 0, 0, 3, 97, 98, 99, 100]);
    let mut io = Channel::new(Wire::new(bytes));
    let read = read_chunk(&mut io).ok().unwrap();
    assert_eq!(read.tag, b"abcd".to_vec());
    assert_eq!(read.data, vec![1, 2, 3]);
}

#[test]
fn chunk_read_stops_in_each_part() {
    let bytes = chunk(*b"abcd", &[1, 2, 3]);
    for (len, part) in [(0, 1), (3, 1), (4, 2), (7, 2), (8, 3), (10, 3), (11, 4), (14, 4)] {
        let mut io = Channel::new(Wire::new(bytes[..len].to_vec()));
        assert_eq!(read_chunk(&mut io).err(), Some(part));
    }
}

#[test]
fn bytes_of_a_pixel() {
    assert_eq!(bytes_per_pixel(0, 8), 1);
    assert_eq!(bytes_per_pixel(2, 8), 3);
    assert_eq!(bytes_per_pixel(3, 4), 1);
    assert_eq!(bytes_per_pixel(4, 16), 4);
    assert_eq!(bytes_per_pixel(6, 16), 8);
    assert_eq!(bytes_per_pixel(9, 8), 4);
    assert_eq!(bytes_per_pixel(2, 0), 0);
    assert_eq!(bytes_per_pixel(0, 1), 1);
}

#[test]
fn encoder_needs_both_arguments() {
    let image = info(1, 1, 8, 0);
    let config = plan_grid(&image, 1, 1, 1, 0, 0).unwrap();
    assert!(tng_encoder_init(None, Some(config)).is_none());
    assert!(tng_encoder_init(Some(image), None).is_none());
    assert_eq!(tng_encoder_init(Some(info(1, 1, 16, 6)), Some(config)).unwrap().bytes_per_pixel, 8);
}

#[test]
fn fresh_decoder_has_seen_nothing() {
    let decoder = tng_decoder_init();
    assert!(decoder.info.is_none());
    assert!(decoder.config.is_none());
    assert_eq!(decoder.bytes_per_pixel, 0);
}

#[test]
fn pixels_survive_every_compressor_and_filter() {
    for comp in [COMP_DEFLATE, COMP_ZSTD, COMP_BROTLI, COMP_LZMA, COMP_FFV1_RANGE] {
        for filter in [0u8, 1, 2, 3, 4, 9, 0x10] {
            let enc = encoder(info(10, 7, 8, 2), 4, 3, comp, filter);
            let (end, wire, decoder) = decode(encoded(&enc));
            assert_eq!(end, Ok(0));
            assert_eq!(wire.written(), pixels_for(&enc));
            assert_eq!(decoder.info.unwrap().width, 10);
            assert_eq!(decoder.config.unwrap().num_tiles_x, 3);
            assert_eq!(decoder.bytes_per_pixel, 3);
        }
    }
}

#[test]
fn pixels_survive_many_columns_and_deep_samples() {
    let enc = encoder(info(23, 5, 16, 6), 2, 2, COMP_ZSTD, 4);
    assert_eq!(enc.config.num_tiles_x, 12);
    let (end, wire, _) = decode(encoded(&enc));
    assert_eq!(end, Ok(0));
    assert_eq!(wire.written(), pixels_for(&enc));
    assert_eq!(wire.writes.len(), 3);
}

#[test]
fn images_without_pixels_survive() {
    for image in [info(0, 5, 8, 2), info(5, 0, 8, 2), info(0, 0, 8, 2), info(4, 4, 0, 2)] {
        let enc = encoder(image, 3, 3, COMP_BROTLI, 1);
        let (end, wire, _) = decode(encoded(&enc));
        assert_eq!(end, Ok(0));
        assert_eq!(wire.written(), Vec::<u8>::new());
    }
}

#[test]
fn compressed_tiles_are_smaller() {
    let image = info(64, 64, 8, 2);
    for comp in [COMP_DEFLATE, COMP_ZSTD, COMP_BROTLI, COMP_LZMA] {
        let enc = encoder(image, 64, 64, comp, 0);
        let (end, wire) = encode(&enc, Wire::new(vec![5; 64 * 64 * 3]));
        assert_eq!(end, Ok(0));
        assert!(wire.written().len() < 1000);
    }
}

#[test]
fn stream_of_one_raw_tile_exactly() {
    let enc = encoder(info(2, 1, 8, 0), 2, 1, COMP_FFV1_RANGE, 0x10);
    let (end, wire) = encode(&enc, Wire::new(vec![9, 8]));
    assert_eq!(end, Ok(0));
    let mut expected = TNG_MAGIC.to_vec();
    let mut ihdr = be32s(&[2, 1]);
    ihdr.extend_from_slice(&[8, 0, 0, 0, 0]);
    expected.extend(chunk(CHUNK_IHDR, &ihdr));
    expected.extend(chunk(CHUNK_THDR, &be32s(&[1, 1, 2, 1, 2, 1])));
    expected.extend(chunk(CHUNK_TDAT, &[0x14, 0x10, 9, 8]));
    expected.extend(chunk(*b"tIDX", &[0, 0, 0, 4]));
    expected.extend(chunk(CHUNK_IEND, &[]));
    assert_eq!(wire.written(), expected);
}

#[test]
fn encoder_without_handle() {
    let mut io = Channel::new(Wire::new(Vec::new()));
    assert_eq!(tng_encoder_process(None, &mut io), Ok(-1));
    assert!(io.into_callbacks().writes.is_empty());
}

#[test]
fn encoder_code_for_each_refused_write() {
    let enc = encoder(info(2, 1, 8, 0), 2, 1, COMP_FFV1_RANGE, 0x10);
    let codes = [
        -2, -3, -3, -3, -3, -4, -4, -4, -4, -6, -6, -6, -6, -7, -7, -7, -7, -8, -8, -8,
    ];
    for (n, code) in codes.iter().enumerate() {
        let mut wire = Wire::new(vec![9, 8]);
        wire.refuse = Some(n);
        let (end, wire) = encode(&enc, wire);
        assert_eq!(end, Ok(*code));
        assert_eq!(wire.writes.len(), n);
    }
    let mut wire = Wire::new(vec![9, 8]);
    wire.refuse = Some(codes.len());
    assert_eq!(encode(&enc, wire).0, Ok(0));
}

#[test]
fn encoder_code_for_missing_pixels() {
    let enc = encoder(info(4, 4, 8, 0), 2, 2, COMP_DEFLATE, 1);
    let (end, wire) = encode(&enc, Wire::new(vec![1; 15]));
    assert_eq!(end, Ok(-5));
    assert_eq!(wire.writes.len(), 9 + 2 * 4);
}

#[test]
fn grids_that_cannot_be_encoded() {
    let image = info(4, 4, 8, 0);
    let config = plan_grid(&image, 2, 2, 1, COMP_FFV1_RANGE, 0).unwrap();
    let run = |image: TngImageInfo, config: TngTileConfig, pixels: usize| {
        let enc = tng_encoder_init(Some(image), Some(config)).unwrap();
        let (end, wire) = encode(&enc, Wire::new(vec![1; pixels]));
        (end, wire.at, wire.writes.len())
    };
    // The tiles are wider than the image.
    let wide = TngTileConfig { edge_width: 3, ..config };
    assert_eq!(run(image, wide, 16), (Err(TngFault::Malformed), 8, 9));
    assert_eq!(run(image, wide, 7), (Ok(-5), 7, 9));
    let many = TngTileConfig { num_tiles_x: 3, ..config };
    assert_eq!(run(image, many, 16), (Err(TngFault::Malformed), 8, 9));
    // Only the last band has a height.
    let late = TngTileConfig { num_tiles_x: 3, tile_height: 0, edge_height: 4, ..config };
    assert_eq!(run(image, late, 16), (Err(TngFault::Malformed), 16, 9 + 3 * 4));
    // No band has a height.
    let flat = TngTileConfig { num_tiles_x: 3, tile_height: 0, edge_height: 0, ..config };
    assert_eq!(run(image, flat, 0).0, Ok(0));
    // A band is too large for a buffer.
    let huge = info(u32::MAX, u32::MAX, 16, 6);
    let config = TngTileConfig {
        tile_width: u32::MAX,
        tile_height: u32::MAX,
        num_tiles_x: 1,
        num_tiles_y: 1,
        edge_width: u32::MAX,
        edge_height: u32::MAX,
        ..config
    };
    assert_eq!(run(huge, config, 16), (Err(TngFault::Malformed), 0, 9));
}

#[test]
fn decoder_without_handle() {
    let mut io = Channel::new(Wire::new(Vec::new()));
    assert_eq!(tng_decoder_process(None, &mut io), Ok(-1));
}

#[test]
fn decoder_code_for_the_signature() {
    assert_eq!(decode(Vec::new()).0, Ok(-2));
    assert_eq!(decode(TNG_MAGIC[..7].to_vec()).0, Ok(-2));
    assert_eq!(decode(vec![0; 8]).0, Ok(-2));
}

#[test]
fn decoder_code_for_cut_headers() {
    let stream = gray_stream(1, 1, [1, 1, 1, 1, 1, 1], &[]);
    for (len, code) in [(8, -3), (11, -3), (12, -4), (15, -4), (16, -5), (28, -5), (29, -6)] {
        assert_eq!(decode(stream[..len].to_vec()).0, Ok(code));
    }
    assert_eq!(decode(stream[..33].to_vec()).0, Ok(-3));
}

#[test]
fn decoder_code_without_image_header() {
    let mut stream = TNG_MAGIC.to_vec();
    stream.extend(chunk(CHUNK_THDR, &be32s(&[1, 1, 1, 1, 1, 1])));
    let (end, _, decoder) = decode(stream);
    assert_eq!(end, Ok(-9));
    assert_eq!(decoder.config.unwrap().tile_width, 1);
}

#[test]
fn decoder_faults_on_short_headers() {
    let mut stream = TNG_MAGIC.to_vec();
    stream.extend(chunk(CHUNK_IHDR, &[0; 9]));
    assert_eq!(decode(stream).0, Err(TngFault::Malformed));
    let mut stream = TNG_MAGIC.to_vec();
    stream.extend(chunk(CHUNK_THDR, &[0; 23]));
    assert_eq!(decode(stream).0, Err(TngFault::Malformed));
}

#[test]
fn decoder_skips_unknown_chunks_and_checksums() {
    let tile = raw_tile(&[1, 2, 3, 4]);
    let mut stream = TNG_MAGIC.to_vec();
    stream.extend(chunk(*b"note", &[1, 2, 3]));
    let mut ihdr = be32s(&[2, 2]);
    ihdr.extend_from_slice(&[8, 0]);
    stream.extend(chunk(CHUNK_IHDR, &ihdr));
    stream.extend(chunk(CHUNK_THDR, &be32s(&[1, 1, 2, 2, 2, 2])));
    stream.extend(chunk(*b"note", &[]));
    let mut tile = chunk(CHUNK_TDAT, &tile);
    let last = tile.len() - 1;
    tile[last] ^= 0xff;
    stream.extend(tile);
    let (end, wire, _) = decode(stream);
    assert_eq!(end, Ok(0));
    assert_eq!(wire.written(), vec![1, 2, 3, 4]);
}

#[test]
fn decoder_stops_at_the_end_chunk() {
    let mut stream = gray_stream(1, 1, [1, 1, 1, 1, 1, 1], &[raw_tile(&[7])]);
    let len = stream.len();
    stream.extend(chunk(CHUNK_TDAT, &[]));
    let (end, wire, _) = decode(stream);
    assert_eq!(end, Ok(0));
    assert_eq!(wire.at, len);
    assert_eq!(wire.written(), vec![7]);
}

#[test]
fn decoder_ends_well_where_tiles_are_cut() {
    let stream = gray_stream(2, 1, [2, 1, 1, 1, 1, 1], &[raw_tile(&[7]), raw_tile(&[8])]);
    for len in 69..stream.len() - 12 - 3 {
        let (end, wire, _) = decode(stream[..len].to_vec());
        assert_eq!(end, Ok(0));
        assert_eq!(wire.written(), Vec::<u8>::new());
    }
    assert_eq!(decode(stream).1.written(), vec![7, 8]);
}

#[test]
fn decoder_code_for_damaged_tiles() {
    for tile in [vec![], vec![0x10], vec![0x77, 0], vec![0x00, 0, 0xff], vec![0x10, 0, 1, 2],
        vec![0x11, 0, 0xff], vec![0x12, 0, 1]]
    {
        let stream = gray_stream(2, 1, [1, 1, 2, 1, 2, 1], &[tile]);
        let (end, wire, _) = decode(stream);
        assert_eq!(end, Ok(-12));
        assert!(wire.writes.is_empty());
    }
}

#[test]
fn decoder_code_for_a_refused_row() {
    let stream = gray_stream(1, 2, [1, 2, 1, 1, 1, 1], &[raw_tile(&[7]), raw_tile(&[8])]);
    let mut wire = Wire::new(stream);
    wire.refuse = Some(1);
    let mut io = Channel::new(wire);
    let mut decoder = tng_decoder_init();
    assert_eq!(tng_decoder_process(Some(&mut decoder), &mut io), Ok(-13));
    assert_eq!(io.into_callbacks().written(), vec![7]);
}

#[test]
fn decoder_faults_on_grids_that_do_not_fit() {
    let tile = raw_tile(&[1, 2, 3, 4]);
    // No columns, no rows.
    let four = [tile.clone(), tile.clone(), tile.clone(), tile.clone()];
    assert_eq!(decode(gray_stream(2, 2, [0, 1, 2, 2, 2, 2], &four)).0, Err(TngFault::Malformed));
    assert_eq!(decode(gray_stream(2, 2, [0, 1, 2, 2, 2, 2], &four[..3])).0, Ok(0));
    assert_eq!(decode(gray_stream(2, 2, [1, 0, 2, 2, 2, 2], &four)).0, Err(TngFault::Malformed));
    // An edge tile that is larger than the others.
    assert_eq!(decode(gray_stream(4, 2, [1, 1, 2, 2, 4, 2], &four)).0, Err(TngFault::Malformed));
    // A tile that sticks out of the row.
    assert_eq!(decode(gray_stream(1, 2, [1, 1, 2, 2, 2, 2], &four)).0, Err(TngFault::Malformed));
    // An edge row that is higher than the others.
    let empty = raw_tile(&[]);
    assert_eq!(decode(gray_stream(1, 2, [1, 1, 0, 1, 0, 2], &[empty])).0, Err(TngFault::Malformed));
    // Buffers that cannot be had.
    let max = u32::MAX;
    assert_eq!(decode(gray_stream(max, 1, [1, 1, 1, max, 1, 1], &[])).0, Err(TngFault::Malformed));
    assert_eq!(decode(gray_stream(1, 1, [1, 1, max, max, 1, 1], &[])).0, Err(TngFault::Malformed));
}

#[test]
fn rows_after_the_last_use_the_full_height() {
    let stream = gray_stream(
        1,
        3,
        [1, 2, 1, 2, 1, 1],
        &[raw_tile(&[1, 2]), raw_tile(&[3]), raw_tile(&[4, 5])],
    );
    let (end, wire, _) = decode(stream);
    assert_eq!(end, Ok(0));
    assert_eq!(wire.writes, vec![vec![1, 2], vec![3], vec![4, 5]]);
}

#[test]
fn decoder_keeps_what_earlier_headers_said() {
    let stream = gray_stream(2, 1, [1, 1, 2, 1, 2, 1], &[raw_tile(&[5, 6])]);
    let mut decoder = tng_decoder_init();
    let mut io = Channel::new(Wire::new(stream));
    assert_eq!(tng_decoder_process(Some(&mut decoder), &mut io), Ok(0));
    let mut headless = TNG_MAGIC.to_vec();
    headless.extend(chunk(CHUNK_THDR, &be32s(&[1, 1, 2, 1, 2, 1])));
    headless.extend(chunk(CHUNK_TDAT, &raw_tile(&[7, 8])));
    let mut io = Channel::new(Wire::new(headless));
    assert_eq!(tng_decoder_process(Some(&mut decoder), &mut io), Ok(0));
    assert_eq!(io.into_callbacks().written(), vec![7, 8]);
}

#[test]
fn checksum_shows_each_changed_byte() {
    let data = [3u8, 1, 4, 1, 5];
    for at in 0..data.len() {
        let mut changed = data;
        changed[at] ^= 0x20;
        assert_ne!(crc32(&CHUNK_TDAT, &changed), crc32(&CHUNK_TDAT, &data));
    }
    assert_ne!(crc32(&CHUNK_THDR, &data), crc32(&CHUNK_TDAT, &data));
}

#[test]
fn cut_streams_give_the_start_of_the_image() {
    let enc = encoder(info(5, 6, 8, 0), 2, 2, COMP_DEFLATE, 4);
    let stream = encoded(&enc);
    let pixels = pixels_for(&enc);
    let mut longest = 0;
    for len in 0..stream.len() {
        let (end, wire, _) = decode(stream[..len].to_vec());
        let written = wire.written();
        assert!(pixels.starts_with(&written));
        assert!(written.len() >= longest);
        longest = written.len();
        if len >= 78 {
            assert_eq!(end, Ok(0));
        }
    }
    assert_eq!(longest, pixels.len());
}

#[test]
fn bytes_after_the_end_change_nothing() {
    let enc = encoder(info(5, 6, 8, 0), 2, 2, COMP_LZMA, 3);
    let mut stream = encoded(&enc);
    let len = stream.len();
    stream.extend_from_slice(&[1, 2, 3, 4, 5, 6, 7, 8, 9, 10]);
    let (end, wire, _) = decode(stream);
    assert_eq!(end, Ok(0));
    assert_eq!(wire.at, len);
    assert_eq!(wire.written(), pixels_for(&enc));
}

#[test]
fn reads_ask_for_one_part_at_a_time() {
    let stream = gray_stream(2, 1, [1, 1, 2, 1, 2, 1], &[raw_tile(&[5, 6])]);
    let (end, wire, _) = decode(stream);
    assert_eq!(end, Ok(0));
    assert_eq!(wire.asked, vec![8, 4, 4, 13, 4, 4, 4, 24, 4, 4, 4, 4, 4, 4, 4, 4]);
    assert_eq!(wire.writes, vec![vec![5, 6]]);
    assert_eq!(decode(TNG_MAGIC[..5].to_vec()).1.asked, vec![8]);
}

#[test]
fn nothing_passes_without_a_handle() {
    let mut io = Channel::new(Wire::new(vec![1, 2, 3]));
    assert_eq!(tng_encoder_process(None, &mut io), Ok(-1));
    assert_eq!(tng_decoder_process(None, &mut io), Ok(-1));
    let wire = io.into_callbacks();
    assert!(wire.asked.is_empty() && wire.writes.is_empty());
}

#[test]
fn channels_can_be_used_again() {
    let enc = encoder(info(2, 1, 8, 0), 2, 1, COMP_FFV1_RANGE, 0x10);
    let mut io = Channel::new(Wire::new(vec![5, 6, 7, 8]));
    assert_eq!(tng_encoder_process(Some(&enc), &mut io), Ok(0));
    assert_eq!(tng_encoder_process(Some(&enc), &mut io), Ok(0));
    let both = io.into_callbacks().written();
    let mut expected = encode(&enc, Wire::new(vec![5, 6])).1.written();
    expected.extend(encode(&enc, Wire::new(vec![7, 8])).1.written());
    assert_eq!(both, expected);
    let mut decoder = tng_decoder_init();
    let mut io = Channel::new(Wire::new(both));
    assert_eq!(tng_decoder_process(Some(&mut decoder), &mut io), Ok(0));
    assert_eq!(tng_decoder_process(Some(&mut decoder), &mut io), Ok(0));
    assert_eq!(io.into_callbacks().writes, vec![vec![5, 6], vec![7, 8]]);
}

#[test]
fn five_columns_make_one_row() {
    let tiles = [vec![255, 0, 1, 2], vec![255, 0, 3, 4], vec![255, 0, 5, 6], vec![255, 0, 7, 8],
        vec![255, 0, 9]];
    let (end, wire, _) = decode(gray_stream(9, 1, [5, 1, 2, 1, 1, 1], &tiles));
    assert_eq!(end, Ok(0));
    assert_eq!(wire.writes, vec![vec![1, 2, 3, 4, 5, 6, 7, 8, 9]]);
}

#[test]
fn stream_of_four_raw_tiles_exactly() {
    let config = TngTileConfig {
        num_tiles_x: 2,
        num_tiles_y: 2,
        tile_width: 2,
        tile_height: 1,
        edge_width: 1,
        edge_height: 1,
        threads: 1,
        compression_algo: 255,
        filter_algo: 0,
    };
    let enc = tng_encoder_init(Some(info(3, 2, 8, 0)), Some(config)).unwrap();
    let (end, wire) = encode(&enc, Wire::new(vec![1, 2, 3, 4, 5, 6]));
    assert_eq!(end, Ok(0));
    let mut expected = TNG_MAGIC.to_vec();
    expected.extend(chunk(CHUNK_IHDR, &[0, 0, 0, 3, 0, 0, 0, 2, 8, 0, 0, 0, 0]));
    expected.extend(chunk(CHUNK_THDR, &be32s(&[2, 2, 2, 1, 1, 1])));
    expected.extend(chunk(CHUNK_TDAT, &[255, 0, 1, 2]));
    expected.extend(chunk(CHUNK_TDAT, &[255, 0, 3]));
    expected.extend(chunk(CHUNK_TDAT, &[255, 0, 4, 5]));
    expected.extend(chunk(CHUNK_TDAT, &[255, 0, 6]));
    expected.extend(chunk(*b"tIDX", &be32s(&[4, 3, 4, 3])));
    expected.extend(chunk(CHUNK_IEND, &[]));
    assert_eq!(wire.written(), expected);
    assert_eq!(wire.asked, vec![3, 3]);
}

#[test]
fn cut_streams_give_the_complete_rows() {
    let enc = encoder(info(3, 3, 8, 0), 2, 1, COMP_FFV1_RANGE, 0x10);
    let stream = encoded(&enc);
    let pixels = pixels_for(&enc);
    // The headers take 69 bytes, and the tiles 16 and 15 in turn.
    for len in 0..=stream.len() {
        let rows = if len < 69 { 0 } else { std::cmp::min((len - 69) / 31, 3) };
        let (end, wire, _) = decode(stream[..len].to_vec());
        assert_eq!(wire.written(), pixels[..rows * 3].to_vec());
        assert_eq!(end == Ok(0), len >= 69);
    }
}

#[test]
fn other_checksums_and_chunks_change_nothing() {
    let plain = gray_stream(2, 2, [1, 2, 2, 1, 2, 1], &[raw_tile(&[1, 2]), raw_tile(&[3, 4])]);
    let mut ihdr = be32s(&[2, 2]);
    ihdr.extend_from_slice(&[8, 0, 0, 0, 0]);
    let mut other = TNG_MAGIC.to_vec();
    for (tag, data) in [
        (*b"tEXt", vec![1, 2, 3]),
        (CHUNK_IHDR, ihdr),
        (*b"zzzz", vec![]),
        (CHUNK_THDR, be32s(&[1, 2, 2, 1, 2, 1])),
        (CHUNK_TDAT, raw_tile(&[1, 2])),
        (*b"tIDX", vec![9; 40]),
        (CHUNK_TDAT, raw_tile(&[3, 4])),
        (CHUNK_IEND, vec![]),
    ] {
        let mut bytes = chunk(tag, &data);
        let end = bytes.len();
        bytes[end - 1] ^= 0x55;
        other.extend(bytes);
    }
    other.extend_from_slice(&[7; 30]);
    let (end, wire, decoder) = decode(plain);
    let (other_end, other_wire, other_decoder) = decode(other);
    assert_eq!(end, Ok(0));
    assert_eq!(other_end, end);
    assert_eq!(wire.writes, vec![vec![1, 2], vec![3, 4]]);
    assert_eq!(other_wire.writes, wire.writes);
    assert_eq!(other_decoder.info.unwrap().width, decoder.info.unwrap().width);
    assert_eq!(other_wire.input.len() - other_wire.at, 30);
}

fn config(grid: [u32; 6], threads: u32, comp: u8, filter: u8) -> TngTileConfig {
    TngTileConfig {
        num_tiles_x: grid[0],
        num_tiles_y: grid[1],
        tile_width: grid[2],
        tile_height: grid[3],
        edge_width: grid[4],
        edge_height: grid[5],
        threads,
        compression_algo: comp,
        filter_algo: filter,
    }
}

#[test]
fn bands_follow_the_headers() {
    let enc = encoder(info(5, 3, 8, 2), 2, 2, COMP_ZSTD, 4);
    let stream = encoded(&enc);
    let pool = rayon::ThreadPoolBuilder::new().num_threads(3).build();
    let mut io = Channel::new(Wire::new(pixels_for(&enc)));
    assert_eq!(encode_bands(&enc, &mut io, pool), Ok(0));
    assert_eq!(io.into_callbacks().written(), stream[69..].to_vec());
}

#[test]
fn bands_without_threads() {
    let enc = encoder(info(5, 3, 8, 2), 2, 2, COMP_ZSTD, 4);
    let _ = rayon::ThreadPoolBuilder::new().num_threads(1).build_global();
    let error = rayon::ThreadPoolBuilder::new().num_threads(1).build_global().unwrap_err();
    let mut io = Channel::new(Wire::new(pixels_for(&enc)));
    assert_eq!(encode_bands(&enc, &mut io, Err(error)), Err(TngFault::NoThreads));
    let wire = io.into_callbacks();
    assert!(wire.asked.is_empty() && wire.writes.is_empty());
}

#[test]
fn threads_change_no_byte() {
    let image = info(9, 7, 8, 2);
    for comp in [COMP_FFV1_RANGE, 0xFF] {
        let run = |threads: u32| {
            let grid = config([5, 4, 2, 2, 1, 1], threads, comp, 4);
            encoded(&tng_encoder_init(Some(image), Some(grid)).unwrap())
        };
        let one = run(1);
        assert_eq!(run(1), one);
        assert_eq!(run(2), one);
        assert_eq!(run(7), one);
    }
}

#[test]
fn tiles_are_laid_as_they_were_read() {
    let layout = Layout { config: config([3, 2, 2, 1, 1, 1], 1, 0, 0), stride: 5, bpp: 1 };
    let buffers = vec![vec![1u8, 2], vec![3, 4], vec![5, 9]];
    let mut row = vec![0u8; 5];
    let flush = lay_read_tiles(&layout, 0, 0, &vec![true, true, true], &buffers, &mut row);
    assert!(matches!(flush, Flush::Laid));
    assert_eq!(row, vec![1, 2, 3, 4, 5]);
    let flush = lay_read_tiles(&layout, 0, 0, &vec![true, false, true], &buffers, &mut row);
    assert!(matches!(flush, Flush::BadTile));
    let mut short = vec![0u8; 3];
    let flush = lay_read_tiles(&layout, 0, 0, &vec![true, true], &buffers, &mut short);
    assert!(matches!(flush, Flush::Misfit));
    let mut row = vec![0u8; 5];
    let flush = lay_read_tiles(&layout, 1, 1, &vec![true], &buffers, &mut row);
    assert!(matches!(flush, Flush::Laid));
    assert_eq!(row, vec![0, 0, 1, 2, 0]);
}

#[test]
fn tiles_are_decoded_without_new_threads() {
    let enc = encoder(info(11, 5, 8, 2), 2, 2, COMP_ZSTD, 2);
    let stream = encoded(&enc);
    for _ in 0..3 {
        let (end, wire, _) = decode(stream.clone());
        assert_eq!(end, Ok(0));
        assert_eq!(wire.written(), pixels_for(&enc));
    }
}

#[test]
fn threads_are_those_of_the_grid() {
    assert_eq!(pool_threads(&config([5, 4, 2, 2, 1, 1], 7, COMP_ZSTD, 4)), 7);
    assert_eq!(pool_threads(&config([5, 4, 2, 2, 1, 1], 0, COMP_ZSTD, 4)), 0);
    assert_eq!(pool_threads(&config([1, 1, 1, 1, 1, 1], u32::MAX, 0, 0)), 4294967295);
}

#[test]
fn one_read_for_each_band() {
    let enc = encoder(info(4, 5, 8, 0), 2, 2, COMP_ZSTD, 1);
    let (end, wire) = encode(&enc, Wire::new(pixels_for(&enc)));
    assert_eq!(end, Ok(0));
    assert_eq!(wire.asked, vec![8, 8, 4]);
    let (end, wire) = encode(&enc, Wire::new(pixels_for(&enc)[..15].to_vec()));
    assert_eq!(end, Ok(-5));
    assert_eq!(wire.asked, vec![8, 8]);
}

#[test]
fn one_write_for_each_part() {
    let enc = encoder(info(2, 2, 8, 0), 2, 1, 0xFF, 0x10);
    let (end, wire) = encode(&enc, Wire::new(vec![1, 2, 3, 4]));
    assert_eq!(end, Ok(0));
    let lengths: Vec<usize> = wire.writes.iter().map(|data| data.len()).collect();
    let mut expected = vec![8, 4, 4, 13, 4, 4, 4, 24, 4];
    expected.extend([4, 4, 4, 4, 4, 4, 4, 4]);
    expected.extend([4, 4, 8, 4, 4, 4, 4]);
    assert_eq!(lengths, expected);
}

#[test]
fn one_write_for_each_row() {
    let enc = encoder(info(9, 5, 8, 2), 2, 2, COMP_DEFLATE, 3);
    let pixels = pixels_for(&enc);
    let stream = encoded(&enc);
    let (end, wire, _) = decode(stream.clone());
    assert_eq!(end, Ok(0));
    let rows = vec![pixels[..54].to_vec(), pixels[54..108].to_vec(), pixels[108..].to_vec()];
    assert_eq!(wire.writes, rows);
    let mut io = Channel::new(Wire { refuse: Some(1), ..Wire::new(stream) });
    let mut decoder = tng_decoder_init();
    assert_eq!(tng_decoder_process(Some(&mut decoder), &mut io), Ok(-13));
    assert_eq!(io.into_callbacks().writes, rows[..1].to_vec());
}

#[test]
fn threads_leave_the_image_alone() {
    let image = info(9, 7, 8, 2);
    for comp in [COMP_DEFLATE, COMP_ZSTD, COMP_BROTLI] {
        let run = |threads: u32| {
            let grid = config([5, 4, 2, 2, 1, 1], threads, comp, 4);
            let enc = tng_encoder_init(Some(image), Some(grid)).unwrap();
            decode(encoded(&enc)).1.writes
        };
        let one = run(1);
        assert_eq!(one.len(), 4);
        assert_eq!(run(3), one);
    }
}

#[test]
fn calls_tell_what_was_taken() {
    let mut io = Channel::new(Wire { refuse: Some(1), ..Wire::new(vec![1, 2, 3]) });
    assert!(io.send(&[7, 8]));
    assert!(!io.send(&[9, 10]));
    assert_eq!(io.receive(2), Some(vec![1, 2]));
    assert_eq!(io.receive(2), None);
    assert_eq!(io.receive_byte(), None);
    let wire = io.into_callbacks();
    assert_eq!(wire.asked, vec![2, 2, 1]);
    assert_eq!(wire.writes, vec![vec![7, 8]]);
}
