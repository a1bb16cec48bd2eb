use tng::bytes::{read_be32, zeros};
use tng::filter::{
    apply_png_filter, paeth_predictor, undo_png_filter, FILT_AVG, FILT_NONE, FILT_PAETH, FILT_SUB,
    FILT_UP,
};
use tng::format::{COMP_BROTLI, COMP_DEFLATE, COMP_FFV1_STT, COMP_LZMA, COMP_ZSTD};
use tng::region::{cut_region, paste_region};
use tng::codec::ZstdEnd;
use tng::tile::{
    assemble_payload, compress_tile_payload, decompress_tile_payload_inplace, zstd_result,
};

const SAMPLE: [u8; 12] = [10, 20, 30, 40, 50, 60, 15, 25, 35, 200, 100, 0];

#[test]
fn paeth_takes_the_nearest_neighbour() {
    assert_eq!(paeth_predictor(0, 0, 0), 0);
    assert_eq!(paeth_predictor(10, 20, 10), 20);
    assert_eq!(paeth_predictor(10, 20, 20), 10);
    assert_eq!(paeth_predictor(10, 20, 15), 15);
    assert_eq!(paeth_predictor(5, 5, 0), 5);
    assert_eq!(paeth_predictor(255, 0, 255), 0);
}

#[test]
fn filters_exactly() {
    let filtered = |filter: u8| apply_png_filter(&SAMPLE, 2, 2, 3, filter);
    assert_eq!(filtered(FILT_NONE), SAMPLE.to_vec());
    assert_eq!(filtered(FILT_SUB), vec![10, 20, 30, 30, 30, 30, 15, 25, 35, 185, 75, 221]);
    assert_eq!(filtered(FILT_UP), vec![10, 20, 30, 40, 50, 60, 5, 5, 5, 160, 50, 196]);
    assert_eq!(filtered(FILT_AVG), vec![10, 20, 30, 35, 40, 45, 10, 15, 20, 173, 63, 209]);
    assert_eq!(filtered(FILT_PAETH), vec![10, 20, 30, 30, 30, 30, 5, 5, 5, 160, 50, 196]);
    assert_eq!(filtered(7), SAMPLE.to_vec());
}

#[test]
fn filters_are_undone() {
    for filter in 0..16u8 {
        let mut bytes = apply_png_filter(&SAMPLE, 2, 2, 3, filter);
        undo_png_filter(&mut bytes, 2, 2, 3, filter);
        assert_eq!(bytes, SAMPLE.to_vec());
    }
}

#[test]
fn bytes_after_the_rows_are_zero() {
    assert_eq!(apply_png_filter(&[1, 2, 3, 4], 1, 3, 1, FILT_SUB), vec![1, 2, 3, 0]);
}

#[test]
fn payload_names_compressor_and_filter() {
    for algo in [COMP_DEFLATE, COMP_ZSTD, COMP_BROTLI, COMP_LZMA, COMP_FFV1_STT] {
        for filter in [FILT_NONE, FILT_PAETH, 0x10] {
            let payload = compress_tile_payload(&SAMPLE, 2, 2, 3, algo, filter);
            assert_eq!(payload[..2], [algo, filter]);
            let mut out = vec![0xEE; 14];
            assert!(decompress_tile_payload_inplace(&payload, 2, 2, 3, &mut out).is_ok());
            assert_eq!(out[..12], SAMPLE);
            assert_eq!(out[12..], [0xEE, 0xEE]);
        }
    }
}

#[test]
fn raw_payload_exactly() {
    let payload = compress_tile_payload(&[5, 7], 2, 1, 1, COMP_FFV1_STT, FILT_SUB);
    assert_eq!(payload, vec![0x15, 1, 5, 2]);
}

#[test]
fn bodies_are_compressed() {
    let data = vec![3u8; 5000];
    for algo in [COMP_DEFLATE, COMP_ZSTD, COMP_BROTLI, COMP_LZMA] {
        let payload = compress_tile_payload(&data, 5000, 1, 1, algo, 0x10);
        assert!(payload.len() < 200);
        let mut out = zeros(5000);
        assert!(decompress_tile_payload_inplace(&payload, 5000, 1, 1, &mut out).is_ok());
        assert_eq!(out, data);
    }
}

#[test]
fn deflate_body_exactly() {
    // A stored reading of "a" in a fixed block: 4B 04 00.
    let mut out = vec![0u8; 1];
    let payload = [COMP_DEFLATE, 0x10, 0x4B, 0x04, 0x00];
    assert!(decompress_tile_payload_inplace(&payload, 1, 1, 1, &mut out).is_ok());
    assert_eq!(out, vec![b'a']);
}

#[test]
fn damaged_bodies_are_errors() {
    let mut out = vec![0u8; 8];
    let mut fail = |payload: &[u8]| {
        decompress_tile_payload_inplace(payload, 8, 1, 1, &mut out).unwrap_err()
    };
    assert_eq!(fail(&[]), "Invalid TDAT payload length");
    assert_eq!(fail(&[0x10]), "Invalid TDAT payload length");
    assert_eq!(fail(&[COMP_ZSTD, 0, 1, 2, 3]), "ZSTD extraction failed");
    assert_eq!(fail(&[COMP_BROTLI, 0, 0xff, 0xff]), "Brotli extraction failed");
    assert_eq!(fail(&[COMP_LZMA, 0, 1, 2]), "LZMA extraction failed");
    assert_eq!(fail(&[COMP_DEFLATE, 0, 0xff, 0xff]), "Deflate extraction failed");
    assert_eq!(fail(&[0x77, 0, 1, 2, 3, 4, 5, 6, 7]), "Raw payload size mismatch");
}

#[test]
fn short_bodies_are_errors() {
    for algo in [COMP_DEFLATE, COMP_ZSTD, COMP_BROTLI, COMP_LZMA, COMP_FFV1_STT] {
        let payload = compress_tile_payload(&[1, 2, 3], 3, 1, 1, algo, 0);
        let mut out = vec![0u8; 4];
        assert!(decompress_tile_payload_inplace(&payload, 4, 1, 1, &mut out).is_err());
        assert!(decompress_tile_payload_inplace(&payload, 2, 1, 1, &mut out).is_ok());
        assert_eq!(out[..2], [1, 2]);
    }
}

#[test]
fn lost_body_leaves_the_codes() {
    assert_eq!(assemble_payload(0x10, 4, None), vec![0x10, 4]);
    assert_eq!(assemble_payload(0x10, 4, Some(vec![9])), vec![0x10, 4, 9]);
}

#[test]
fn regions_are_cut_and_pasted() {
    let band: Vec<u8> = (0..12).collect();
    let tile = cut_region(&band, 4, 1, 2, 3);
    assert_eq!(tile, vec![1, 2, 5, 6, 9, 10]);
    let mut other = vec![99u8; 12];
    paste_region(&mut other, &tile, 4, 1, 2, 3);
    assert_eq!(other, vec![99, 1, 2, 99, 99, 5, 6, 99, 99, 9, 10, 99]);
}

#[test]
fn numbers_are_big_endian() {
    assert_eq!(read_be32(&[0, 1, 2, 3, 4], 1), 0x0102_0304);
    let mut out = Vec::new();
    tng::bytes::push_be32(&mut out, 0xDEAD_BEEF);
    assert_eq!(out, vec![0xDE, 0xAD, 0xBE, 0xEF]);
}

#[test]
fn filters_are_applied_again() {
    for filter in 0..16u8 {
        let mut bytes = SAMPLE.to_vec();
        undo_png_filter(&mut bytes, 2, 2, 3, filter);
        assert_eq!(apply_png_filter(&bytes, 2, 2, 3, filter), SAMPLE.to_vec());
    }
}

#[test]
fn short_stored_bodies_leave_the_buffer() {
    for algo in [COMP_FFV1_STT, 0x77, 0xFF] {
        let mut out = vec![0xEE; 6];
        let read = decompress_tile_payload_inplace(&[algo, 0, 1, 2, 3], 2, 2, 1, &mut out);
        assert_eq!(read, Err("Raw payload size mismatch"));
        assert_eq!(out, vec![0xEE; 6]);
    }
}

#[test]
fn deflate_keeps_every_length() {
    for len in [0usize, 1, 2, 257, 40_000, 300_000] {
        let data: Vec<u8> = (0..len).map(|i| (i * i / 7 % 256) as u8).collect();
        let payload = compress_tile_payload(&data, len, 1, 1, COMP_DEFLATE, FILT_NONE);
        assert!(payload.len() > 2);
        let mut out = vec![0u8; len];
        assert!(decompress_tile_payload_inplace(&payload, len, 1, 1, &mut out).is_ok());
        assert_eq!(out, data);
    }
}

#[test]
fn zstd_ends_have_their_messages() {
    assert_eq!(zstd_result(ZstdEnd::Filled), Ok(()));
    assert_eq!(zstd_result(ZstdEnd::NoDecoder), Err("ZSTD setup failed"));
    assert_eq!(zstd_result(ZstdEnd::Failed), Err("ZSTD extraction failed"));
}

#[test]
fn tiles_are_read_back_for_every_code() {
    for algo in 0..=255u8 {
        for filter in [0u8, 1, 2, 3, 4, 5, 15, 16, 17, 255] {
            let payload = compress_tile_payload(&SAMPLE, 2, 2, 3, algo, filter);
            let mut out = vec![0xEE; 13];
            assert!(decompress_tile_payload_inplace(&payload, 2, 2, 3, &mut out).is_ok());
            assert_eq!(out[..12], SAMPLE);
            assert_eq!(out[12], 0xEE);
        }
    }
}
