use helpmsg::message::resolve_message;
use helpmsg::parse::{parse_error_code, CliError};
use helpmsg::present::{format_output_line, render_dec_i32, render_hex32};
use helpmsg::status::{is_no_error, normalize_code, NO_DOS_MAPPING};

#[test]
fn parses_plain_decimal() {
    assert_eq!(parse_error_code("5"), Ok(5));
    assert_eq!(parse_error_code("+7"), Ok(7));
    assert_eq!(parse_error_code("-2147467261"), Ok(-2147467261));
    assert_eq!(parse_error_code("2147483647"), Ok(2147483647));
    assert_eq!(parse_error_code("-2147483648"), Ok(-2147483648));
    assert_eq!(parse_error_code("007"), Ok(7));
}

#[test]
fn parses_zero_in_both_forms() {
    assert_eq!(parse_error_code("0"), Ok(0));
    assert_eq!(parse_error_code("0x0"), Ok(0));
    assert!(is_no_error(0));
    assert!(!is_no_error(5));
}

#[test]
fn rejects_malformed_decimal() {
    assert_eq!(parse_error_code(""), Err(CliError::Parse));
    assert_eq!(parse_error_code("-"), Err(CliError::Parse));
    assert_eq!(parse_error_code("abc"), Err(CliError::Parse));
    assert_eq!(parse_error_code("12a"), Err(CliError::Parse));
    assert_eq!(parse_error_code("1 2"), Err(CliError::Parse));
    assert_eq!(parse_error_code("2147483648"), Err(CliError::Parse));
    assert_eq!(parse_error_code("-2147483649"), Err(CliError::Parse));
}

#[test]
fn parses_hex_with_signed_reinterpretation() {
    assert_eq!(parse_error_code("0x5"), Ok(5));
    assert_eq!(parse_error_code("0xFFFFFFFF"), Ok(-1));
    assert_eq!(parse_error_code("0x80004003"), Ok(-2147467261));
    assert_eq!(parse_error_code("0x7FFFFFFF"), Ok(2147483647));
    assert_eq!(parse_error_code("0xabcDE"), Ok(0xABCDE));
    assert_eq!(parse_error_code("0x00000000000000000005"), Ok(5));
}

#[test]
fn hex_wider_than_32_bits_truncates() {
    assert_eq!(parse_error_code("0x1FFFFFFFF"), Ok(-1));
    assert_eq!(parse_error_code("0x100000005"), Ok(5));
}

#[test]
fn hex_accepts_a_sign_after_the_prefix() {
    assert_eq!(parse_error_code("0x-5"), Ok(-5));
    assert_eq!(parse_error_code("0x+5"), Ok(5));
}

#[test]
fn rejects_malformed_hex() {
    assert_eq!(parse_error_code("0x"), Err(CliError::Parse));
    assert_eq!(parse_error_code("0xG1"), Err(CliError::Parse));
    // Past the 64-bit width even the lenient parse gives up.
    assert_eq!(parse_error_code("0x10000000000000000"), Err(CliError::Parse));
}

#[test]
fn uppercase_prefix_is_not_parsed_as_hex() {
    // Only the lowercase prefix selects hex parsing, so this text is read as
    // decimal and fails.
    assert_eq!(parse_error_code("0X5"), Err(CliError::Parse));
}

#[test]
fn unmapped_nt_status_passes_through() {
    assert_eq!(normalize_code(5, true, NO_DOS_MAPPING), 5);
    assert_eq!(normalize_code(5, false, NO_DOS_MAPPING), 5);
    assert_eq!(normalize_code(-2147467261, true, NO_DOS_MAPPING), -2147467261);
}

#[test]
fn mapped_nt_status_replaces_the_code() {
    assert_eq!(normalize_code(-1073741790, true, 5), 5);
    assert_eq!(normalize_code(-1073741790, false, 5), -1073741790);
    // A mapped value above the signed range narrows by reinterpretation.
    assert_eq!(normalize_code(7, true, 0xFFFFFFFF), -1);
}

#[test]
fn missing_message_resolves_to_unknown() {
    let text = resolve_message(None);
    assert_eq!(text, "unknown");
    assert!(!text.is_empty());
}

#[test]
fn present_message_is_kept_verbatim() {
    let text = resolve_message(Some(String::from("Access is denied.\r\n")));
    assert_eq!(text, "Access is denied.\r\n");
}

#[test]
fn renders_decimal_values() {
    assert_eq!(render_dec_i32(0), "0");
    assert_eq!(render_dec_i32(5), "5");
    assert_eq!(render_dec_i32(-1), "-1");
    assert_eq!(render_dec_i32(2147483647), "2147483647");
    assert_eq!(render_dec_i32(-2147483648), "-2147483648");
}

#[test]
fn renders_zero_padded_hex() {
    assert_eq!(render_hex32(5), "0x00000005");
    assert_eq!(render_hex32(-1), "0xffffffff");
    assert_eq!(render_hex32(-2147467261), "0x80004003");
    assert_eq!(render_hex32(0), "0x00000000");
}

#[test]
fn decimal_input_round_trips_through_its_hex_annotation() {
    for v in [0, 5, -1, -2147467261, 2147483647, -2147483648] {
        let rendered = render_hex32(v);
        assert_eq!(parse_error_code(&rendered), Ok(v));
    }
}

#[test]
fn decimal_rendering_round_trips_through_the_parser() {
    for v in [0, 5, -1, -2147467261, 2147483647, -2147483648] {
        let rendered = render_dec_i32(v);
        assert_eq!(parse_error_code(&rendered), Ok(v));
    }
}

#[test]
fn decimal_input_line_is_annotated_in_hex() {
    let line = format_output_line("-2147467261", -2147467261, -2147467261, "msg");
    assert_eq!(line, "-2147467261 (0x80004003): msg");
}

#[test]
fn hex_input_line_is_annotated_in_decimal() {
    let line = format_output_line("0x5", 5, 5, "Access is denied.\r\n");
    assert_eq!(line, "0x5 (5): Access is denied.\r\n");
}

#[test]
fn hex_display_uses_the_normalized_code() {
    // An uppercase prefix still displays as hex, and the decimal annotation
    // shows the normalized code, not the original one.
    let line = format_output_line("0X5", 5, 7, "m");
    assert_eq!(line, "0X5 (7): m");
}

#[test]
fn decimal_display_uses_the_original_code() {
    // The hex annotation of a decimal input echoes the value that was typed,
    // even when normalization replaced the code for the lookup.
    let line = format_output_line("5", 5, 19, "m");
    assert_eq!(line, "5 (0x00000005): m");
}

#[test]
fn errors_describe_themselves() {
    assert_eq!(CliError::Parse.describe(), "invalid or missing error code value");
    assert_eq!(CliError::Argument.describe(), "unexpected extra arguments");
}
