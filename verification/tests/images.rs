use tng::channel::{ByteSource, Channel};
use tng::format::{
    TngImageInfo, COMP_BROTLI, COMP_DEFLATE, COMP_LZMA, COMP_ZSTD,
};
use tng::filter::{FILT_AVG, FILT_NONE, FILT_PAETH, FILT_SUB, FILT_UP};
use tng::plan::{
    choose_compressor, choose_filter, choose_output, compressor_named, file_header, filter_named,
    image_info, output_named, pam_header, plan_grid, ppm_header, OutputKind,
};
use tng::ppmpam::{
    apply_line, next_ppm_token, parse_headers, ppmpam_open_stream, ppmpam_read_scanlines, Format,
    PpmPamDecoder, PpmPamFailure, PpmPamMetadata,
};
use tng::text::{
    append_decimal, chars_are, chars_of, is_white, parse_u32, read_line_text, word_ranges,
};

/// Bytes in memory.
struct Memory {
    bytes: Vec<u8>,
    at: usize,
}

impl ByteSource for Memory {
    fn read(&mut self, size: usize) -> Vec<u8> {
        let end = std::cmp::min(self.bytes.len(), self.at + size);
        let bytes = self.bytes[self.at..end].to_vec();
        self.at = end;
        bytes
    }
}

fn channel(bytes: &[u8]) -> Channel<Memory> {
    Channel::new(Memory { bytes: bytes.to_vec(), at: 0 })
}

fn opened(bytes: &[u8]) -> PpmPamDecoder<Memory> {
    parse_headers(channel(bytes)).ok().unwrap()
}

fn header_failure(bytes: &[u8]) -> String {
    match parse_headers(channel(bytes)) {
        Err(error) => match error.failure {
            PpmPamFailure::Message(message) => message,
            PpmPamFailure::Overflow => panic!("overflow"),
        },
        Ok(_) => panic!("no failure"),
    }
}

fn message<T>(result: Result<T, PpmPamFailure>) -> String {
    match result {
        Err(PpmPamFailure::Message(message)) => message,
        _ => panic!("no message"),
    }
}

fn name_of(metadata: &PpmPamMetadata) -> String {
    let len = metadata.tuple_type.iter().position(|b| *b == 0).unwrap();
    String::from_utf8(metadata.tuple_type[..len].to_vec()).unwrap()
}

#[test]
fn tokens_are_separated_by_white_space() {
    let mut io = channel(b"  12\t345\n\r\x0cabc");
    assert_eq!(next_ppm_token(&mut io), Ok("12".to_string()));
    assert_eq!(next_ppm_token(&mut io), Ok("345".to_string()));
    assert_eq!(next_ppm_token(&mut io), Ok("abc".to_string()));
    let end = "Unexpected End-of-File reached while decoding header".to_string();
    assert_eq!(next_ppm_token(&mut io), Err(end));
}

#[test]
fn token_takes_its_separator_and_no_more() {
    let mut io = channel(b"7 \n9");
    assert_eq!(next_ppm_token(&mut io), Ok("7".to_string()));
    assert_eq!(io.into_callbacks().at, 2);
}

#[test]
fn comments_are_skipped() {
    let mut io = channel(b"# one two\n3 4#x\r5\n#\n");
    assert_eq!(next_ppm_token(&mut io), Ok("3".to_string()));
    assert_eq!(next_ppm_token(&mut io), Ok("45".to_string()));
    assert!(next_ppm_token(&mut io).is_err());
}

#[test]
fn vertical_tab_is_part_of_a_token() {
    assert_eq!(next_ppm_token(&mut channel(b"a\x0bb c")), Ok("a\u{b}b".to_string()));
}

#[test]
fn tokens_must_be_utf8() {
    assert_eq!(next_ppm_token(&mut channel("\u{e9}t\u{e9} ".as_bytes())), Ok("\u{e9}t\u{e9}".to_string()));
    let bad = "Header encoding is not valid UTF-8".to_string();
    assert_eq!(next_ppm_token(&mut channel(b"\xff ")), Err(bad));
}

#[test]
fn binary_ppm_header() {
    let decoder = opened(b"P6\n# note\n640 480\n255\nxyz");
    assert_eq!(decoder.metadata.format, Format::PpmBinary);
    assert_eq!(decoder.metadata.width, 640);
    assert_eq!(decoder.metadata.height, 480);
    assert_eq!(decoder.metadata.maxval, 255);
    assert_eq!(decoder.metadata.depth, 3);
    assert_eq!(decoder.metadata.tuple_type, [0; 64]);
    assert_eq!(decoder.current_row, 0);
    assert_eq!(decoder.bytes_per_row, 1920);
}

#[test]
fn wide_samples_take_two_bytes() {
    assert_eq!(opened(b"P6 3 1 256 ").bytes_per_row, 18);
    assert_eq!(opened(b"P3 +3 1 65535").bytes_per_row, 18);
}

#[test]
fn format_codes() {
    assert_eq!(Format::Unknown.code(), 0);
    assert_eq!(opened(b"P3 1 1 1 ").metadata.format.code(), 3);
    assert_eq!(Format::PpmBinary.code(), 6);
    assert_eq!(Format::Pam.code(), 7);
}

#[test]
fn pam_header_lines() {
    let decoder = opened(
        b"P7\n# made by hand\nWIDTH 4\r\nHEIGHT 2\nDEPTH 4\n\nMAXVAL 255\nTUPLTYPE RGB_ALPHA\nENDHDR\n",
    );
    assert_eq!(decoder.metadata.format, Format::Pam);
    assert_eq!(decoder.metadata.width, 4);
    assert_eq!(decoder.metadata.height, 2);
    assert_eq!(decoder.metadata.depth, 4);
    assert_eq!(decoder.metadata.maxval, 255);
    assert_eq!(name_of(&decoder.metadata), "RGB_ALPHA");
    assert_eq!(decoder.bytes_per_row, 16);
}

#[test]
fn pam_lines_may_hold_other_bytes() {
    let decoder = opened(b"P7\n\xff\xfe WIDTH 9\nWIDTH\xc2\xa03 junk\nENDHDR now\n");
    assert_eq!(decoder.metadata.width, 3);
    assert_eq!(decoder.bytes_per_row, 0);
}

#[test]
fn long_tuple_types_are_cut() {
    let mut header = b"P7\nTUPLTYPE ".to_vec();
    header.extend(vec![b'x'; 100]);
    header.extend_from_slice(b"\nTUPLTYPE ab\nENDHDR\n");
    let tuple_type = opened(&header).metadata.tuple_type;
    let mut expected = [b'x'; 64];
    expected[0] = b'a';
    expected[1] = b'b';
    expected[63] = 0;
    assert_eq!(tuple_type, expected);
}

#[test]
fn header_failures() {
    assert_eq!(header_failure(b""), "Failed to verify image magic bytes");
    assert_eq!(header_failure(b"P"), "Failed to verify image magic bytes");
    assert_eq!(
        header_failure(b"P5 1 1 1 "),
        "Invalid format identifier: signature must be P3, P6, or P7"
    );
    let cut = "Unexpected End-of-File reached while decoding header";
    assert_eq!(header_failure(b"P6 "), cut);
    assert_eq!(header_failure(b"P6 1 "), cut);
    assert_eq!(header_failure(b"P6 x 1"), cut);
    assert_eq!(header_failure(b"P6 x y z "), "Invalid width integer");
    assert_eq!(header_failure(b"P6 1 -2 z "), "Invalid height integer");
    assert_eq!(header_failure(b"P6 1 2 4294967296 "), "Invalid maxval integer");
    assert_eq!(header_failure(b"P6 \xff "), "Header encoding is not valid UTF-8");
    assert_eq!(header_failure(b"P7\nWIDTH 1"), "Abrupt EOF inside PAM header declarations");
    assert_eq!(header_failure(b"P7\nWIDTH\n"), "Malformed WIDTH configuration");
    assert_eq!(header_failure(b"P7\nWIDTH a\n"), "Invalid PAM width values");
    assert_eq!(header_failure(b"P7\nHEIGHT\n"), "Malformed HEIGHT configuration");
    assert_eq!(header_failure(b"P7\nHEIGHT a\n"), "Invalid PAM height values");
    assert_eq!(header_failure(b"P7\nDEPTH\n"), "Malformed DEPTH configuration");
    assert_eq!(header_failure(b"P7\nDEPTH a\n"), "Invalid PAM depth layout");
    assert_eq!(header_failure(b"P7\nMAXVAL\n"), "Malformed MAXVAL configuration");
    assert_eq!(header_failure(b"P7\nMAXVAL a\n"), "Invalid PAM maxval range");
    assert_eq!(header_failure(b"P7\nTUPLTYPE\n"), "Malformed TUPLTYPE attributes");
}

#[test]
fn rows_too_long_for_the_machine() {
    let header = b"P7\nWIDTH 4294967295\nDEPTH 4294967295\nMAXVAL 256\nENDHDR\n";
    match parse_headers(channel(header)) {
        Err(error) => {
            assert!(matches!(error.failure, PpmPamFailure::Overflow));
            assert_eq!(error.reader.into_callbacks().at, header.len());
        },
        Ok(_) => panic!("no failure"),
    }
}

#[test]
fn lines_change_the_metadata() {
    let mut metadata = opened(b"P7\nENDHDR\n").metadata;
    assert_eq!(apply_line(&mut metadata, "  DEPTH   2 "), Ok(false));
    assert_eq!(metadata.depth, 2);
    assert_eq!(apply_line(&mut metadata, "depth 3"), Ok(false));
    assert_eq!(metadata.depth, 2);
    assert_eq!(apply_line(&mut metadata, ""), Ok(false));
    assert_eq!(apply_line(&mut metadata, "ENDHDR"), Ok(true));
    assert_eq!(apply_line(&mut metadata, "DEPTH"), Err("Malformed DEPTH configuration"));
}

#[test]
fn binary_rows_are_read_in_order() {
    let mut decoder = opened(b"P6 1 3 255\nabcdefghi");
    let mut buffer = vec![b'-'; 7];
    assert_eq!(decoder.read_scanlines(2, &mut buffer).ok(), Some(2));
    assert_eq!(buffer, b"abcdef-".to_vec());
    assert_eq!(decoder.current_row, 2);
    assert_eq!(decoder.read_scanlines(5, &mut buffer).ok(), Some(1));
    assert_eq!(buffer, b"ghidef-".to_vec());
    assert_eq!(decoder.read_scanlines(5, &mut buffer).ok(), Some(0));
    assert_eq!(decoder.current_row, 3);
}

#[test]
fn binary_rows_that_are_cut() {
    let mut decoder = opened(b"P6 1 2 255\nabcde");
    let mut buffer = vec![b'-'; 6];
    assert_eq!(
        message(decoder.read_scanlines(2, &mut buffer)),
        "Failed reading target binary stream payload"
    );
    assert_eq!(buffer, b"------".to_vec());
    assert_eq!(decoder.current_row, 0);
}

#[test]
fn small_buffers_are_refused() {
    let mut decoder = opened(b"P6 1 2 255\nabcdef");
    let mut buffer = vec![0u8; 5];
    assert_eq!(
        message(decoder.read_scanlines(2, &mut buffer)),
        "Target layout output buffer capacity is too small"
    );
    assert_eq!(decoder.read_scanlines(1, &mut buffer).ok(), Some(1));
}

#[test]
fn ascii_samples_are_stored_in_low_bytes() {
    let mut decoder = opened(b"P3 1 2 255\n1 2 3\n# rest\n255 256 300");
    let mut buffer = vec![9u8; 7];
    assert_eq!(decoder.read_scanlines(2, &mut buffer).ok(), Some(2));
    assert_eq!(buffer, vec![1, 2, 3, 255, 0, 44, 9]);
    let mut decoder = opened(b"P3 1 1 65535\n1 258 65537");
    let mut buffer = vec![9u8; 6];
    assert_eq!(decoder.read_scanlines(1, &mut buffer).ok(), Some(1));
    assert_eq!(buffer, vec![0, 1, 1, 2, 0, 1]);
}

#[test]
fn ascii_samples_that_fail() {
    let mut decoder = opened(b"P3 1 1 255\n1 2 x");
    let mut buffer = vec![9u8; 3];
    assert_eq!(
        message(decoder.read_scanlines(1, &mut buffer)),
        "Invalid integer token inside ASCII pixel matrix"
    );
    assert_eq!(buffer, vec![1, 2, 9]);
    assert_eq!(decoder.current_row, 0);
    let mut decoder = opened(b"P3 1 1 255\n1");
    assert_eq!(
        message(decoder.read_scanlines(1, &mut buffer)),
        "Unexpected End-of-File reached while decoding header"
    );
}

#[test]
fn unknown_formats_are_refused() {
    let mut decoder = opened(b"P6 1 1 255\nabc");
    decoder.metadata.format = Format::Unknown;
    let mut buffer = vec![0u8; 3];
    assert_eq!(
        message(decoder.read_scanlines(1, &mut buffer)),
        "Processing an unrecognized file stream layout"
    );
}

#[test]
fn sample_counts_too_large_for_a_row() {
    let mut decoder = opened(b"P7\nWIDTH 65536\nDEPTH 65536\nHEIGHT 1\nENDHDR\n");
    let mut buffer = vec![0u8; 3];
    assert!(matches!(decoder.read_scanlines(1, &mut buffer), Err(PpmPamFailure::Overflow)));
    assert_eq!(decoder.current_row, 0);
}

#[test]
fn rows_without_bytes() {
    let mut decoder = opened(b"P6 0 3 255\n");
    assert_eq!(decoder.read_scanlines(9, &mut []).ok(), Some(3));
}

#[test]
fn stream_is_opened_with_its_metadata() {
    let mut metadata = opened(b"P6 9 9 9 ").metadata;
    assert!(matches!(ppmpam_open_stream(channel(b"P6 1 2 3 "), None), Err(None)));
    let decoder = ppmpam_open_stream(channel(b"P6 1 2 3 "), Some(&mut metadata)).ok().unwrap();
    assert_eq!(decoder.metadata.height, 2);
    assert_eq!(metadata.height, 2);
    assert!(matches!(ppmpam_open_stream(channel(b"P9"), Some(&mut metadata)), Err(Some(_))));
    assert_eq!(metadata.height, 2);
}

#[test]
fn scanline_codes() {
    let mut decoder = opened(b"P6 1 2 255\nabcdef");
    let mut buffer = vec![0u8; 6];
    let mut lines = 77u32;
    assert_eq!(
        ppmpam_read_scanlines::<Memory>(None, 1, Some(&mut buffer), Some(&mut lines)),
        Some(-1)
    );
    assert_eq!(ppmpam_read_scanlines(Some(&mut decoder), 1, None, Some(&mut lines)), Some(-1));
    assert_eq!(ppmpam_read_scanlines(Some(&mut decoder), 1, Some(&mut buffer), None), Some(-1));
    assert_eq!(lines, 77);
    assert_eq!(
        ppmpam_read_scanlines(Some(&mut decoder), 9, Some(&mut buffer[..5]), Some(&mut lines)),
        Some(-2)
    );
    assert_eq!(lines, 77);
    assert_eq!(
        ppmpam_read_scanlines(Some(&mut decoder), 9, Some(&mut buffer), Some(&mut lines)),
        Some(0)
    );
    assert_eq!(lines, 2);
    assert_eq!(buffer, b"abcdef".to_vec());
    let mut wide = opened(b"P7\nWIDTH 65536\nDEPTH 65536\nHEIGHT 1\nENDHDR\n");
    assert_eq!(
        ppmpam_read_scanlines(Some(&mut wide), 1, Some(&mut buffer), Some(&mut lines)),
        None
    );
}

#[test]
fn numbers_in_text() {
    let parse = |text: &str| parse_u32(&chars_of(text));
    assert_eq!(parse("0"), Some(0));
    assert_eq!(parse("+12"), Some(12));
    assert_eq!(parse("00042"), Some(42));
    assert_eq!(parse("4294967295"), Some(u32::MAX));
    assert_eq!(parse("4294967296"), None);
    assert_eq!(parse("99999999999999999999999999"), None);
    assert_eq!(parse(""), None);
    assert_eq!(parse("+"), None);
    assert_eq!(parse("-1"), None);
    assert_eq!(parse("++1"), None);
    assert_eq!(parse("1 "), None);
    assert_eq!(parse("\u{661}"), None);
}

#[test]
fn numbers_are_printed_and_read_back() {
    for n in [0u32, 7, 10, 99, 480, 65535, 4294967295] {
        let mut text = String::new();
        append_decimal(&mut text, n);
        assert_eq!(text, n.to_string());
        assert_eq!(parse_u32(&chars_of(&text)), Some(n));
    }
}

#[test]
fn words_of_a_line() {
    let chars = chars_of(" \tone\u{a0}two\u{2003}three ");
    let words: Vec<String> = word_ranges(&chars)
        .iter()
        .map(|(start, end)| chars[*start..*end].iter().collect())
        .collect();
    assert_eq!(words, vec!["one", "two", "three"]);
    assert!(word_ranges(&chars_of(" \r\n")).is_empty());
}

#[test]
fn white_characters() {
    for c in [' ', '\t', '\n', '\u{b}', '\u{c}', '\r', '\u{85}', '\u{a0}', '\u{3000}'] {
        assert!(is_white(c));
    }
    for c in ['a', '0', '\u{0}', '\u{1c}', '\u{7f}', '\u{200b}'] {
        assert!(!is_white(c));
    }
}

#[test]
fn white_characters_are_all_listed() {
    let mut white: Vec<u32> = Vec::new();
    for code in 0..=0x10FFFFu32 {
        if let Some(c) = char::from_u32(code) {
            if is_white(c) {
                white.push(code);
            }
        }
    }
    let mut listed: Vec<u32> = (9..=13).collect();
    listed.extend_from_slice(&[0x20, 0x85, 0xA0, 0x1680]);
    listed.extend(0x2000..=0x200A);
    listed.extend_from_slice(&[0x2028, 0x2029, 0x202F, 0x205F, 0x3000]);
    assert_eq!(white, listed);
}

#[test]
fn text_of_a_line() {
    assert_eq!(read_line_text("gr\u{fc}n".as_bytes()), "gr\u{fc}n");
    assert_eq!(read_line_text(b"a\xffb"), "a\u{fffd}b");
}

#[test]
fn characters_are_compared() {
    assert!(chars_are(&['a', 'b'], "ab"));
    assert!(!chars_are(&['a', 'b'], "a"));
    assert!(!chars_are(&['a'], "b"));
}

#[test]
fn compressor_names() {
    assert_eq!(choose_compressor("deflate"), Some(COMP_DEFLATE));
    assert_eq!(choose_compressor("ZSTD"), Some(COMP_ZSTD));
    assert_eq!(choose_compressor("Brotli"), Some(COMP_BROTLI));
    assert_eq!(choose_compressor("lzMa"), Some(COMP_LZMA));
    assert_eq!(choose_compressor("gzip"), None);
    assert_eq!(choose_compressor(""), None);
    assert_eq!(compressor_named("zstd"), Some(COMP_ZSTD));
    assert_eq!(compressor_named("ZSTD"), None);
}

#[test]
fn filter_names() {
    assert_eq!(choose_filter("NONE"), Some(FILT_NONE));
    assert_eq!(choose_filter("sub"), Some(FILT_SUB));
    assert_eq!(choose_filter("Up"), Some(FILT_UP));
    assert_eq!(choose_filter("avg"), Some(FILT_AVG));
    assert_eq!(choose_filter("PAETH"), Some(FILT_PAETH));
    assert_eq!(choose_filter("paeth "), None);
    assert_eq!(filter_named("up"), Some(FILT_UP));
    assert_eq!(filter_named("UP"), None);
}

fn image(width: u32, height: u32, bit_depth: u8, color_type: u8) -> TngImageInfo {
    TngImageInfo { width, height, bit_depth, color_type }
}

#[test]
fn grids_are_planned() {
    let grid = plan_grid(&image(1000, 960, 8, 2), 480, 480, 32, 0x10, 4).unwrap();
    assert_eq!((grid.num_tiles_x, grid.num_tiles_y), (3, 2));
    assert_eq!((grid.edge_width, grid.edge_height), (40, 480));
    assert_eq!((grid.tile_width, grid.tile_height), (480, 480));
    assert_eq!((grid.threads, grid.compression_algo, grid.filter_algo), (32, 0x10, 4));
    let grid = plan_grid(&image(0, 1, 8, 2), 480, 480, 1, 0, 0).unwrap();
    assert_eq!((grid.num_tiles_x, grid.num_tiles_y), (0, 1));
    assert_eq!((grid.edge_width, grid.edge_height), (480, 1));
}

#[test]
fn grids_that_cannot_be_planned() {
    assert!(plan_grid(&image(1, 1, 8, 2), 0, 1, 1, 0, 0).is_none());
    assert!(plan_grid(&image(1, 1, 8, 2), 1, 0, 1, 0, 0).is_none());
    assert!(plan_grid(&image(u32::MAX, 1, 8, 2), 1, 1, 1, 0, 0).is_none());
    assert!(plan_grid(&image(1, 1, 8, 2), 1, u32::MAX, 1, 0, 0).is_none());
    assert!(plan_grid(&image(u32::MAX - 1, 1, 8, 2), 1, 1, 1, 0, 0).is_some());
}

#[test]
fn outputs_by_extension() {
    assert_eq!(choose_output(2, "PPM"), OutputKind::Ppm);
    assert_eq!(choose_output(6, "ppm"), OutputKind::RenamedPam);
    assert_eq!(choose_output(4, "ppm"), OutputKind::RenamedPam);
    assert_eq!(choose_output(2, "Pam"), OutputKind::Pam);
    assert_eq!(choose_output(6, "raw"), OutputKind::Raw);
    assert_eq!(choose_output(6, ""), OutputKind::Raw);
    assert_eq!(output_named(2, "PPM"), OutputKind::Raw);
}

#[test]
fn headers_exactly() {
    let info = image(640, 480, 8, 2);
    assert_eq!(ppm_header(&info), "P6\n640 480\n255\n");
    assert_eq!(
        pam_header(&image(3, 5, 16, 6)),
        "P7\nWIDTH 3\nHEIGHT 5\nDEPTH 4\nMAXVAL 65535\nTUPLTYPE RGB_ALPHA\nENDHDR\n"
    );
    assert_eq!(
        pam_header(&image(3, 5, 8, 0)),
        "P7\nWIDTH 3\nHEIGHT 5\nDEPTH 1\nMAXVAL 255\nTUPLTYPE GRAYSCALE\nENDHDR\n"
    );
    assert_eq!(
        pam_header(&image(3, 5, 8, 4)),
        "P7\nWIDTH 3\nHEIGHT 5\nDEPTH 2\nMAXVAL 255\nTUPLTYPE GRAYSCALE_ALPHA\nENDHDR\n"
    );
    assert_eq!(
        pam_header(&image(3, 5, 1, 3)),
        "P7\nWIDTH 3\nHEIGHT 5\nDEPTH 3\nMAXVAL 255\nTUPLTYPE RGB\nENDHDR\n"
    );
    assert_eq!(file_header(OutputKind::Raw, &info), None);
    assert_eq!(file_header(OutputKind::Ppm, &info), Some(ppm_header(&info)));
    assert_eq!(file_header(OutputKind::Pam, &info), Some(pam_header(&info)));
    assert_eq!(file_header(OutputKind::RenamedPam, &info), Some(pam_header(&info)));
}

#[test]
fn written_headers_are_read_back() {
    let info = image(640, 480, 16, 2);
    let metadata = opened(ppm_header(&info).as_bytes()).metadata;
    assert_eq!(metadata.format, Format::PpmBinary);
    assert_eq!((metadata.width, metadata.height, metadata.maxval), (640, 480, 65535));
    for color_type in [0u8, 2, 4, 6] {
        let info = image(7, 9, 8, color_type);
        let decoder = opened(pam_header(&info).as_bytes());
        let read = image_info(&decoder.metadata).unwrap();
        assert_eq!(read.color_type, color_type);
        assert_eq!((read.width, read.height, read.bit_depth), (7, 9, 8));
        let bpp = tng::format::bytes_per_pixel(read.color_type, read.bit_depth);
        assert_eq!(decoder.bytes_per_row, 7 * bpp);
    }
    assert_eq!(name_of(&opened(pam_header(&info).as_bytes()).metadata), "RGB");
}

#[test]
fn depths_without_a_colour_type() {
    let mut metadata = opened(b"P6 1 1 255\n").metadata;
    for depth in [0, 5, 1000] {
        metadata.depth = depth;
        assert!(image_info(&metadata).is_none());
    }
}

#[test]
fn tokens_in_order_among_comments() {
    let mut io = channel(b"#a\n one #b\r\ttwo\n\n#c\n#d\nthree 4");
    for token in ["one", "two", "three", "4"] {
        assert_eq!(next_ppm_token(&mut io), Ok(token.to_string()));
    }
}

#[test]
fn end_is_reported_for_blanks_alone() {
    let end = Err("Unexpected End-of-File reached while decoding header".to_string());
    for blank in [&b""[..], b" \t\r\n\x0c", b"#", b"  # no end", b"#a\n#b\r \n"] {
        let mut io = channel(blank);
        assert_eq!(next_ppm_token(&mut io), end);
        assert_eq!(io.into_callbacks().at, blank.len());
    }
    assert_eq!(next_ppm_token(&mut channel(b"5")), Ok("5".to_string()));
    assert_eq!(next_ppm_token(&mut channel(b"# a\n5#b")), Ok("5".to_string()));
}

#[test]
fn pam_lines_in_any_order() {
    let plain = opened(b"P7\nWIDTH 3\nHEIGHT 2\nDEPTH 4\nMAXVAL 255\nTUPLTYPE RGB_ALPHA\nENDHDR\n");
    for text in [
        &b"P7\nTUPLTYPE RGB_ALPHA\nMAXVAL 255\nDEPTH 4\nHEIGHT 2\nWIDTH 3\nENDHDR\n"[..],
        b"P7\r\nWIDTH 3\r\nHEIGHT 2\r\nDEPTH 4\r\nMAXVAL 255\r\nTUPLTYPE RGB_ALPHA\r\nENDHDR\r\n",
        b"P7\n\n# note\nHEIGHT 2\n \t\nWIDTH 3\nCOLOR 9\nTUPLTYPE RGB_ALPHA x\nDEPTH 4\nMAXVAL 255\nENDHDR\n",
        b"P7\nWI\rDTH 3\nHEIGHT\r 2\nDEPTH 4\nMAXVAL 255\nTUPLTYPE RGB_ALPHA\nENDHDR\n",
    ] {
        let other = opened(text).metadata;
        assert_eq!(other.width, plain.metadata.width);
        assert_eq!(other.height, plain.metadata.height);
        assert_eq!(other.depth, plain.metadata.depth);
        assert_eq!(other.maxval, plain.metadata.maxval);
        assert_eq!(name_of(&other), "RGB_ALPHA");
    }
}

#[test]
fn rows_in_parts_and_at_once() {
    for text in [
        &b"P6 1 4 255\nabcdefghijkl"[..],
        b"P3 1 4 255\n1 2 3 4 5 6 7 8 9 10 11 12",
        b"P3 1 4 999\n1 2 3 4 5 6 700 8 9 10 11 12",
        b"P7\nWIDTH 3\nHEIGHT 4\nDEPTH 1\nMAXVAL 255\nENDHDR\nabcdefghijkl",
    ] {
        let mut whole = opened(text);
        let row = whole.bytes_per_row;
        let mut all = vec![0u8; 4 * row];
        assert_eq!(whole.read_scanlines(4, &mut all).ok(), Some(4));
        for first in 0..=4u32 {
            let mut decoder = opened(text);
            let mut a = vec![0u8; 4 * row];
            let mut b = vec![0u8; 4 * row];
            assert_eq!(decoder.read_scanlines(first, &mut a).ok(), Some(first));
            assert_eq!(decoder.read_scanlines(4 - first, &mut b).ok(), Some(4 - first));
            let mut joined = a[..first as usize * row].to_vec();
            joined.extend_from_slice(&b[..(4 - first as usize) * row]);
            assert_eq!(joined, all);
        }
    }
}

/// Bytes in memory that note the size of each read.
struct Noted {
    memory: Memory,
    asked: Vec<usize>,
}

impl ByteSource for Noted {
    fn read(&mut self, size: usize) -> Vec<u8> {
        self.asked.push(size);
        self.memory.read(size)
    }
}

fn noted(bytes: &[u8]) -> Channel<Noted> {
    Channel::new(Noted { memory: Memory { bytes: bytes.to_vec(), at: 0 }, asked: Vec::new() })
}

#[test]
fn headers_are_read_byte_by_byte() {
    let decoder = parse_headers(noted(b"P6 2 1 255\n123456")).ok().unwrap();
    let asked = decoder.reader.into_callbacks().asked;
    assert_eq!(asked[0], 2);
    assert_eq!(asked[1..].to_vec(), vec![1; 9]);
    match parse_headers(noted(b"P")) {
        Err(error) => assert_eq!(error.reader.into_callbacks().asked, vec![2]),
        Ok(_) => panic!("no failure"),
    }
}

#[test]
fn binary_rows_are_read_at_once() {
    let mut decoder = parse_headers(noted(b"P6 2 2 255\n123456789abc")).ok().unwrap();
    let mut out = vec![0u8; 12];
    assert_eq!(decoder.read_scanlines(2, &mut out).ok(), Some(2));
    assert_eq!(out, b"123456789abc".to_vec());
    let asked = decoder.reader.into_callbacks().asked;
    assert_eq!(asked[asked.len() - 1], 12);
    assert_eq!(asked.len(), 11);
}
