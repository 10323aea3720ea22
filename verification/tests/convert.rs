use hexyg_core::convert::{
    bin_to_hex, decode_line, extract_hex_from_line, hex_to_bin, is_ignored, parse_hex_string,
    write_address, write_ascii_preview, write_hex_bytes, write_line, Encoder,
};
use hexyg_core::config::AddressSize;
use hexyg_core::{Config, Error};

fn encode(data: &[u8], config: &Config) -> String {
    let mut text = String::new();
    bin_to_hex(data, &mut text, config).unwrap();
    text
}

fn decode(text: &str) -> Vec<u8> {
    let mut bytes = Vec::new();
    hex_to_bin(text, &mut bytes).unwrap();
    bytes
}

fn address(value: u64, size: AddressSize) -> String {
    let mut text = String::new();
    write_address(&mut text, value, &Config::new().with_address_size(size));
    text
}

fn hex(data: &[u8], block_length: usize) -> String {
    let mut text = String::new();
    write_hex_bytes(&mut text, data, &Config::new().with_block_length(block_length));
    text
}

fn preview(data: &[u8]) -> String {
    let mut text = String::new();
    write_ascii_preview(&mut text, data);
    text
}

#[test]
fn test_parse_hex_string() {
    assert_eq!(parse_hex_string("48656C6C6F").unwrap(), b"Hello");
    assert_eq!(parse_hex_string("DEADBEEF").unwrap(), vec![0xDE, 0xAD, 0xBE, 0xEF]);
}

#[test]
fn test_parse_hex_string_lowercase() {
    assert_eq!(parse_hex_string("deadbeef").unwrap(), vec![0xDE, 0xAD, 0xBE, 0xEF]);
}

#[test]
fn test_extract_hex_from_line() {
    assert_eq!(
        extract_hex_from_line("00000000: 48 65 6C 6C 6F [Hello]").unwrap(),
        "48656C6C6F"
    );
    assert_eq!(
        extract_hex_from_line("48 65 6C 6C 6F").unwrap(),
        "48656C6C6F"
    );
    assert_eq!(
        extract_hex_from_line("00000000: 48 65 6C 6C 6F [Hello] | +0:utf8=\"Hello\"").unwrap(),
        "48656C6C6F"
    );
}

#[test]
fn test_bin_to_hex_basic() {
    let input = b"Hello";
    let mut output = String::new();
    let config = Config::default();

    bin_to_hex(&input[..], &mut output, &config).unwrap();

    let result = output;
    assert!(result.contains("48 65 6C 6C 6F"));
    assert!(result.contains("[Hello]"));
}

#[test]
fn test_hex_to_bin_basic() {
    let input = "48 65 6C 6C 6F";
    let mut output = Vec::new();

    hex_to_bin(input, &mut output).unwrap();

    assert_eq!(output, b"Hello");
}

#[test]
fn test_round_trip() {
    let original = b"Hello, World!";
    let mut hex_output = String::new();
    let config = Config::default();

    // Binary to hex
    bin_to_hex(&original[..], &mut hex_output, &config).unwrap();

    // Hex back to binary
    let mut bin_output = Vec::new();
    hex_to_bin(&hex_output, &mut bin_output).unwrap();

    assert_eq!(bin_output, original);
}

#[test]
fn default_line_is_exact() {
    assert_eq!(
        encode(b"Hello", &Config::new()),
        "00000000: 48 65 6C 6C 6F [Hello]\n"
    );
}

#[test]
fn lines_hold_line_length_bytes_and_addresses_advance() {
    let data: Vec<u8> = (0u8..20).collect();
    let config = Config::new().with_line_length(8).with_preview(false);
    assert_eq!(
        encode(&data, &config),
        "00000000: 00 01 02 03 04 05 06 07\n\
         00000008: 08 09 0A 0B 0C 0D 0E 0F\n\
         00000010: 10 11 12 13\n"
    );
}

#[test]
fn input_of_exactly_one_line_gives_one_line() {
    let config = Config::new().with_line_length(4).with_preview(false);
    assert_eq!(encode(&[1, 2, 3, 4], &config), "00000000: 01 02 03 04\n");
}

#[test]
fn continuation_lines_are_indented_by_ten_spaces() {
    let config = Config::new()
        .with_line_length(2)
        .with_repeat_address(false)
        .with_address_size(AddressSize::U16);
    assert_eq!(
        encode(&[0x41, 0x42, 0x43, 0x44, 0x45], &config),
        "0000: 41 42 [AB]\n          43 44 [CD]\n          45 [E]\n"
    );
}

fn line(address: u64, data: &[u8], config: &Config) -> String {
    let mut text = String::new();
    write_line(&mut text, address, data, config);
    text
}

#[test]
fn write_line_formats_one_chunk_at_its_address() {
    let config = Config::new();
    assert_eq!(line(0x1234, &[0xDE, 0xAD], &config), "00001234: DE AD [..]\n");
    let quiet = Config::new().with_repeat_address(false).with_preview(false);
    assert_eq!(line(0, &[0xDE], &quiet), "00000000: DE\n");
    assert_eq!(line(16, &[0xDE], &quiet), "          DE\n");
}

#[test]
fn ignored_lines() {
    let chars = |s: &str| s.chars().collect::<Vec<char>>();
    assert!(is_ignored(&chars("")));
    assert!(is_ignored(&chars("//")));
    assert!(is_ignored(&chars("#")));
    assert!(is_ignored(&chars("/*")));
    assert!(is_ignored(&chars("*/")));
    assert!(is_ignored(&chars("AB */")));
    assert!(!is_ignored(&chars("/")));
    assert!(!is_ignored(&chars("*")));
    assert!(!is_ignored(&chars("AB")));
    assert!(!is_ignored(&chars("A // B")));
    assert!(!is_ignored(&chars(" #")));
}

#[test]
fn write_line_appends_to_what_is_there() {
    let mut text = String::from("x");
    write_line(&mut text, 1, &[0xFF], &Config::new());
    assert_eq!(text, "x00000001: FF [.]\n");
}

#[test]
fn empty_input_encodes_to_no_lines() {
    assert_eq!(encode(&[], &Config::new()), "");
    assert_eq!(encode(&[], &Config::new().with_repeat_address(false)), "");
}

#[test]
fn line_length_zero_encodes_to_nothing() {
    assert_eq!(encode(b"Hello", &Config::new().with_line_length(0)), "");
}

#[test]
fn empty_input_decodes_to_no_bytes() {
    assert_eq!(decode(""), Vec::<u8>::new());
    assert_eq!(decode("\n\n"), Vec::<u8>::new());
}

#[test]
fn fixed_address_widths() {
    assert_eq!(address(0xAB, AddressSize::U8), "AB");
    assert_eq!(address(0xAB, AddressSize::U16), "00AB");
    assert_eq!(address(0xAB, AddressSize::U24), "0000AB");
    assert_eq!(address(0xAB, AddressSize::U32), "000000AB");
    assert_eq!(address(0xAB, AddressSize::U40), "00000000AB");
    assert_eq!(address(0xAB, AddressSize::U48), "0000000000AB");
    assert_eq!(address(0xAB, AddressSize::U64), "00000000000000AB");
}

#[test]
fn address_wider_than_the_column_is_written_in_full() {
    assert_eq!(address(0x1234, AddressSize::U8), "1234");
    assert_eq!(address(u64::MAX, AddressSize::U32), "FFFFFFFFFFFFFFFF");
}

#[test]
fn stretch_width_boundaries() {
    assert_eq!(address(0, AddressSize::Stretch), "00");
    assert_eq!(address(0x0FF, AddressSize::Stretch), "FF");
    assert_eq!(address(0x100, AddressSize::Stretch), "0100");
    assert_eq!(address(0xFFFF, AddressSize::Stretch), "FFFF");
    assert_eq!(address(0x10000, AddressSize::Stretch), "010000");
    assert_eq!(address(0xFFFFFF, AddressSize::Stretch), "FFFFFF");
    assert_eq!(address(0x1000000, AddressSize::Stretch), "01000000");
    assert_eq!(address(0xFFFFFFFF, AddressSize::Stretch), "FFFFFFFF");
    assert_eq!(address(0x100000000, AddressSize::Stretch), "0000000100000000");
    assert_eq!(address(u64::MAX, AddressSize::Stretch), "FFFFFFFFFFFFFFFF");
}

#[test]
fn stretch_width_follows_the_address_of_each_line() {
    let data = vec![0u8; 0x101];
    let config = Config::new()
        .with_address_size(AddressSize::Stretch)
        .with_line_length(0x100)
        .with_block_length(0)
        .with_preview(false);
    let text = encode(&data, &config);
    let lines: Vec<&str> = text.lines().collect();
    assert_eq!(lines.len(), 2);
    assert!(lines[0].starts_with("00: 0000"));
    assert_eq!(lines[1], "0100: 00");
}

#[test]
fn grouping_by_block_length() {
    let data = [0xAA, 0xBB, 0xCC, 0xDD];
    assert_eq!(hex(&data, 2), "AABB CCDD");
    assert_eq!(hex(&data, 0), "AABBCCDD");
    assert_eq!(hex(&data, 1), "AA BB CC DD");
    assert_eq!(hex(&data, 3), "AABBCC DD");
    assert_eq!(hex(&data, 4), "AABBCCDD");
    assert_eq!(hex(&[], 1), "");
}

#[test]
fn grouping_shows_in_the_encoded_text() {
    let data = [0xAA, 0xBB, 0xCC, 0xDD];
    let config = Config::new().with_preview(false);
    assert_eq!(
        encode(&data, &config.clone().with_block_length(2)),
        "00000000: AABB CCDD\n"
    );
    assert_eq!(
        encode(&data, &config.clone().with_block_length(0)),
        "00000000: AABBCCDD\n"
    );
    assert_eq!(encode(&data, &config), "00000000: AA BB CC DD\n");
}

#[test]
fn hex_digits_are_upper_case_and_zero_padded() {
    assert_eq!(hex(&[0x00, 0x0A, 0xF0, 0xFF, 0x9C], 1), "00 0A F0 FF 9C");
}

#[test]
fn ascii_preview_shows_printable_bytes() {
    assert!(encode(&[0x48, 0x65, 0x6C, 0x6C, 0x6F], &Config::new()).contains("[Hello]"));
    assert_eq!(preview(&[0x48, 0x65, 0x6C, 0x6C, 0x6F]), "[Hello]");
    assert_eq!(preview(&[0x00]), "[.]");
    assert_eq!(encode(&[0x00], &Config::new()), "00000000: 00 [.]\n");
}

#[test]
fn ascii_preview_range_is_32_to_126() {
    assert_eq!(preview(&[31, 32, 126, 127, 255]), "[. ~..]");
    assert_eq!(preview(&[]), "[]");
}

#[test]
fn preview_can_be_switched_off() {
    assert_eq!(
        encode(b"Hi", &Config::new().with_preview(false)),
        "00000000: 48 69\n"
    );
}

#[test]
fn single_hex_digit_is_odd_length() {
    let mut output = Vec::new();
    assert!(matches!(hex_to_bin("4", &mut output), Err(Error::OddHexLength)));
    assert!(output.is_empty());
    assert!(matches!(decode_line("4"), Err(Error::OddHexLength)));
    assert!(matches!(parse_hex_string("ABC"), Err(Error::OddHexLength)));
}

#[test]
fn line_without_hex_digits_decodes_to_nothing() {
    assert_eq!(decode("zzz ??? !!"), Vec::<u8>::new());
    assert_eq!(decode_line("0000: xyz").unwrap(), Vec::<u8>::new());
    assert_eq!(extract_hex_from_line("zzz ??? !!").unwrap(), "");
}

#[test]
fn decorated_line_decodes_to_its_bytes() {
    let line = "00000000: 48 65 6C 6C 6F [Hello] | +0:utf8=\"Hello\"";
    assert_eq!(decode_line(line).unwrap(), b"Hello");
    assert_eq!(decode(line), b"Hello");
}

#[test]
fn invalid_character_is_reported_with_its_index() {
    assert!(matches!(
        parse_hex_string("4G"),
        Err(Error::InvalidHexChar('G', 1))
    ));
    assert!(matches!(
        parse_hex_string("AB x"),
        Err(Error::InvalidHexChar(' ', 2))
    ));
    assert!(matches!(
        parse_hex_string("zz"),
        Err(Error::InvalidHexChar('z', 0))
    ));
    assert!(matches!(
        parse_hex_string("+F"),
        Err(Error::InvalidHexChar('+', 0))
    ));
}

#[test]
fn odd_length_is_checked_before_the_characters() {
    assert!(matches!(parse_hex_string("4G1"), Err(Error::OddHexLength)));
}

#[test]
fn parse_hex_string_ignores_surrounding_whitespace() {
    assert_eq!(parse_hex_string("  0aFf\t\n").unwrap(), vec![0x0A, 0xFF]);
    assert_eq!(parse_hex_string("").unwrap(), Vec::<u8>::new());
    assert_eq!(parse_hex_string("   ").unwrap(), Vec::<u8>::new());
    assert_eq!(parse_hex_string("\u{a0}41\u{3000}").unwrap(), vec![0x41]);
}

#[test]
fn comment_lines_are_skipped() {
    assert_eq!(decode_line("// DE AD").unwrap(), Vec::<u8>::new());
    assert_eq!(decode_line("   // DE AD").unwrap(), Vec::<u8>::new());
    assert_eq!(decode_line("# DE AD").unwrap(), Vec::<u8>::new());
    assert_eq!(decode_line("\t# A").unwrap(), Vec::<u8>::new());
    assert_eq!(decode_line("/* DE AD").unwrap(), Vec::<u8>::new());
    assert_eq!(decode_line("DE AD */").unwrap(), Vec::<u8>::new());
    assert_eq!(decode_line("DE A */  ").unwrap(), Vec::<u8>::new());
    assert_eq!(decode_line("/* A */").unwrap(), Vec::<u8>::new());
    assert_eq!(decode_line("").unwrap(), Vec::<u8>::new());
    assert_eq!(decode_line("   ").unwrap(), Vec::<u8>::new());
}

#[test]
fn block_comment_is_not_tracked_across_lines() {
    assert_eq!(decode("/* start\nDE AD\nend */\n"), vec![0xDE, 0xAD]);
}

#[test]
fn inline_comment_is_cut_off() {
    assert_eq!(decode_line("DE AD // BE EF").unwrap(), vec![0xDE, 0xAD]);
    assert_eq!(extract_hex_from_line("DE AD // BE EF").unwrap(), "DEAD");
    assert_eq!(decode_line("DE / AD").unwrap(), vec![0xDE, 0xAD]);
}

#[test]
fn inline_comment_is_cut_before_the_address() {
    assert_eq!(extract_hex_from_line("AB // 0000: CD").unwrap(), "AB");
}

#[test]
fn address_is_cut_at_the_first_colon() {
    assert_eq!(extract_hex_from_line("FF: AB").unwrap(), "AB");
    assert_eq!(extract_hex_from_line("FF: AB: CD").unwrap(), "ABCD");
    assert_eq!(extract_hex_from_line("[x]: AB").unwrap(), "AB");
    assert_eq!(extract_hex_from_line("AB:").unwrap(), "");
}

#[test]
fn preview_and_annotations_are_cut() {
    assert_eq!(extract_hex_from_line("AB [CD] EF").unwrap(), "AB");
    assert_eq!(extract_hex_from_line("AB | CD").unwrap(), "AB");
    assert_eq!(extract_hex_from_line("AB | CD [EF]").unwrap(), "AB");
    assert_eq!(extract_hex_from_line("| AB").unwrap(), "");
}

#[test]
fn other_characters_between_digits_are_dropped() {
    assert_eq!(extract_hex_from_line("d-e_a\td, be.ef").unwrap(), "deadbeef");
    assert_eq!(decode_line("d-e_a\td, be.ef").unwrap(), vec![0xDE, 0xAD, 0xBE, 0xEF]);
}

#[test]
fn extract_does_not_trim_or_skip() {
    assert_eq!(extract_hex_from_line("# AB").unwrap(), "AB");
    assert_eq!(extract_hex_from_line("").unwrap(), "");
}

#[test]
fn decoding_stops_at_the_first_failing_line() {
    let mut output = vec![0x99];
    let result = hex_to_bin("DE AD\nBEE\nEF\n", &mut output);
    assert!(matches!(result, Err(Error::OddHexLength)));
    assert_eq!(output, vec![0x99, 0xDE, 0xAD]);
}

#[test]
fn decoding_appends_to_the_sink() {
    let mut output = vec![1, 2];
    hex_to_bin("03\n04", &mut output).unwrap();
    assert_eq!(output, vec![1, 2, 3, 4]);
}

#[test]
fn encoding_appends_to_the_sink() {
    let mut output = String::from("# dump\n");
    bin_to_hex(&[0x41], &mut output, &Config::new()).unwrap();
    assert_eq!(output, "# dump\n00000000: 41 [A]\n");
}

#[test]
fn carriage_returns_do_not_matter() {
    assert_eq!(decode("00000000: DE AD [..]\r\n00000002: BE EF [..]\r\n"), vec![
        0xDE, 0xAD, 0xBE, 0xEF
    ]);
}

#[test]
fn last_line_needs_no_line_feed() {
    assert_eq!(decode("DE\nAD"), vec![0xDE, 0xAD]);
}

#[test]
fn round_trip_over_all_byte_values() {
    let data: Vec<u8> = (0u8..=255).collect();
    for block_length in [0usize, 1, 2, 3, 16] {
        for line_length in [1usize, 7, 16, 300] {
            for size in [AddressSize::U8, AddressSize::U32, AddressSize::U64, AddressSize::Stretch]
            {
                for show_preview in [false, true] {
                    let config = Config::new()
                        .with_address_size(size)
                        .with_block_length(block_length)
                        .with_line_length(line_length)
                        .with_preview(show_preview);
                    assert_eq!(decode(&encode(&data, &config)), data);
                }
            }
        }
    }
}

#[test]
fn round_trip_without_repeated_address_and_without_preview() {
    let data: Vec<u8> = (0u8..=255).collect();
    let config = Config::new()
        .with_repeat_address(false)
        .with_preview(false)
        .with_line_length(5);
    assert_eq!(decode(&encode(&data, &config)), data);
}

#[test]
fn colon_in_the_preview_of_an_indented_line_hides_the_bytes() {
    let config = Config::new().with_repeat_address(false).with_line_length(3);
    let text = encode(b"abc:cd", &config);
    assert_eq!(text, "00000000: 61 62 63 [abc]\n          3A 63 64 [:cd]\n");
    assert_eq!(decode(&text), b"abc\xcd");
    assert!(matches!(decode_line("          3A 63 [:c]"), Err(Error::OddHexLength)));
    assert_eq!(decode_line("          2F 2F 3A 63 [//:c]").unwrap(), b"//:c");
}

#[test]
fn decoding_does_not_depend_on_the_layout() {
    let data = b"layout does not matter";
    let plain = Config::new();
    let dense = Config::new()
        .with_address_size(AddressSize::Stretch)
        .with_block_length(0)
        .with_line_length(3)
        .with_preview(false);
    assert_eq!(decode(&encode(data, &plain)), decode(&encode(data, &dense)));
    assert_eq!(decode("0: 6c61\n  79 6F\t75 74"), b"layout");
}

#[test]
fn encoder_starts_at_address_zero() {
    let config = Config::new().with_line_length(4);
    let encoder = Encoder::new(&config);
    assert_eq!(encoder.next_address(), 0);
    assert_eq!(encoder.chunk_length(), 4);
}

#[test]
fn encoder_moves_the_address_on_by_each_chunk() {
    let config = Config::new().with_line_length(2);
    let mut encoder = Encoder::new(&config);
    let mut text = String::new();
    encoder.write_chunk(&mut text, &[0x41, 0x42]);
    assert_eq!(encoder.next_address(), 2);
    encoder.write_chunk(&mut text, &[0x43]);
    assert_eq!(encoder.next_address(), 3);
    assert_eq!(text, "00000000: 41 42 [AB]\n00000002: 43 [C]\n");
}

#[test]
fn encoder_gives_no_line_for_an_empty_chunk() {
    let config = Config::new();
    let mut encoder = Encoder::new(&config);
    let mut text = String::new();
    encoder.write_chunk(&mut text, &[]);
    assert_eq!(text, "");
    assert_eq!(encoder.next_address(), 0);
}

#[test]
fn encoder_chunks_give_the_text_of_the_whole_input() {
    let data: Vec<u8> = (0u8..=99).collect();
    let config = Config::new().with_line_length(7).with_repeat_address(false);
    let mut encoder = Encoder::new(&config);
    let mut text = String::new();
    for chunk in data.chunks(encoder.chunk_length()) {
        encoder.write_chunk(&mut text, chunk);
    }
    assert_eq!(text, encode(&data, &config));
    assert_eq!(encoder.next_address(), 100);
}

#[test]
fn address_agrees_with_zero_padded_upper_case_formatting() {
    let sizes = [
        (AddressSize::U8, 2usize),
        (AddressSize::U16, 4),
        (AddressSize::U24, 6),
        (AddressSize::U32, 8),
        (AddressSize::U40, 10),
        (AddressSize::U48, 12),
        (AddressSize::U64, 16),
    ];
    let mut values: Vec<u64> = vec![0, 1, 9, 10, 15, 16, 255, 256, 4095, 4096, u64::MAX];
    for shift in 0..64 {
        values.push(1u64 << shift);
        values.push((1u64 << shift) - 1);
        values.push(0xA5A5_A5A5_A5A5_A5A5u64 >> shift);
    }
    for value in values {
        for (size, width) in sizes {
            assert_eq!(address(value, size), format!("{:0width$X}", value, width = width));
        }
    }
}

#[test]
fn hex_bytes_agree_with_two_digit_formatting() {
    let data: Vec<u8> = (0u8..=255).collect();
    let expected: Vec<String> = data.iter().map(|byte| format!("{:02X}", byte)).collect();
    assert_eq!(hex(&data, 1), expected.join(" "));
    assert_eq!(hex(&data, 0), expected.join(""));
    let pairs: Vec<String> = expected.chunks(2).map(|pair| pair.concat()).collect();
    assert_eq!(hex(&data, 2), pairs.join(" "));
}

#[test]
fn parse_hex_string_reads_every_byte_in_both_cases() {
    for byte in 0u8..=255 {
        assert_eq!(parse_hex_string(&format!("{:02X}", byte)).unwrap(), vec![byte]);
        assert_eq!(parse_hex_string(&format!("{:02x}", byte)).unwrap(), vec![byte]);
    }
}
