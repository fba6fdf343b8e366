use wotwrh_stringify::{find_last_item, find_line_end, skip_parts};

#[test]
fn last_item_of_statement_without_items_is_zero() {
    assert_eq!(find_last_item(b""), 0);
    assert_eq!(find_last_item(b"a"), 0);
    assert_eq!(find_last_item(b"a|b"), 0);
    assert_eq!(find_last_item(b"a|b|"), 0);
    assert_eq!(find_last_item(b"||||"), 0);
}

#[test]
fn last_item_follows_the_trigger() {
    assert_eq!(find_last_item(b"a|b|6|Hello"), 4);
    assert_eq!(find_last_item(b"3|0|17|1|x|y|Title"), 4);
    assert_eq!(find_last_item(b"long trigger|part|6|x"), 18);
}

#[test]
fn last_item_stops_at_unknown_command() {
    assert_eq!(find_last_item(b"a|b|5|x|6|y"), 4);
    assert_eq!(find_last_item(b"a|b|43|x|6|y"), 4);
    assert_eq!(find_last_item(b"a|b|410|x|y|z|6|m"), 4);
    assert_eq!(find_last_item(b"a|b|428|x|6|m"), 4);
    assert_eq!(find_last_item(b"a|b|165|x|y|z|6|m"), 4);
    assert_eq!(find_last_item(b"a|b|x"), 4);
}

#[test]
fn last_item_skips_ifs_wrappers() {
    assert_eq!(find_last_item(b"a|b|417|x|y|z|6|Message text"), 14);
    assert_eq!(find_last_item(b"a|b|418|x|y|z|6|Message text"), 14);
    assert_eq!(find_last_item(b"a|b|419|x|y|z|6|Message text"), 14);
}

#[test]
fn last_item_skips_ifbox_wrapper() {
    assert_eq!(find_last_item(b"a|b|424|1|2|3|4|6|M"), 16);
}

#[test]
fn last_item_skips_ifself_wrappers() {
    assert_eq!(find_last_item(b"a|b|425|1|6|M"), 10);
    assert_eq!(find_last_item(b"a|b|426|1|6|M"), 10);
    assert_eq!(find_last_item(b"a|b|427|1|6|M"), 10);
}

#[test]
fn last_item_skips_wheel_set_item() {
    assert_eq!(find_last_item(b"a|b|164|1|2|3|17|1|x|y|T"), 14);
}

#[test]
fn last_item_skips_nested_wrappers() {
    assert_eq!(find_last_item(b"a|b|417|x|y|z|425|1|6|M"), 20);
    assert_eq!(find_last_item(b"a|b|425|1|417|x|y|z|16|0|a|b|N"), 20);
}

#[test]
fn last_item_of_short_wrapper_is_the_wrapper() {
    assert_eq!(find_last_item(b"a|b|417|x|y"), 4);
    assert_eq!(find_last_item(b"a|b|417|x|y|z|"), 4);
    assert_eq!(find_last_item(b"a|b|417|x|y|z|425|1"), 14);
}

#[test]
fn last_item_passes_empty_parts() {
    assert_eq!(find_last_item(b"a|b||6|x"), 5);
    assert_eq!(find_last_item(b"a|b|4|1|7|x|y|z|6|m"), 16);
}

#[test]
fn last_item_offset_counts_bytes() {
    assert_eq!(find_last_item("é|é|6|x".as_bytes()), 6);
    assert_eq!(find_last_item("é|é|é".as_bytes()), 6);
}

#[test]
fn skip_parts_gives_offset_after_nth_pipe() {
    assert_eq!(skip_parts(b"a|b|c", 0), Some(0));
    assert_eq!(skip_parts(b"a|b|c", 1), Some(2));
    assert_eq!(skip_parts(b"a|b|c", 2), Some(4));
    assert_eq!(skip_parts(b"||", 2), Some(2));
    assert_eq!(skip_parts("é|é|c".as_bytes(), 2), Some(6));
}

#[test]
fn skip_parts_finds_nothing_with_fewer_pipes() {
    assert_eq!(skip_parts(b"a|b|c", 3), None);
    assert_eq!(skip_parts(b"abc", 1), None);
    assert_eq!(skip_parts(b"", 1), None);
}

#[test]
fn skip_parts_of_nothing_is_the_start() {
    assert_eq!(skip_parts(b"", 0), Some(0));
    assert_eq!(skip_parts(b"|", 0), Some(0));
}

#[test]
fn skip_parts_may_end_at_the_end() {
    assert_eq!(skip_parts(b"a|b|", 2), Some(4));
    assert_eq!(skip_parts(b"|", 1), Some(1));
}

#[test]
fn line_end_trims_white_space() {
    assert_eq!(find_line_end(b"abc"), 3);
    assert_eq!(find_line_end(b"abc   "), 3);
    assert_eq!(find_line_end(b"abc \t\r"), 3);
    assert_eq!(find_line_end(b" a b "), 4);
}

#[test]
fn line_end_stops_at_comment() {
    assert_eq!(find_line_end(b"abc // x"), 3);
    assert_eq!(find_line_end(b"abc//x"), 3);
    assert_eq!(find_line_end(b"a / b"), 5);
    assert_eq!(find_line_end(b"a // b // c"), 1);
}

#[test]
fn line_end_stops_at_line_break() {
    assert_eq!(find_line_end(b"abc\ndef"), 3);
    assert_eq!(find_line_end(b"abc  \ndef"), 3);
    assert_eq!(find_line_end(b"a\n// b"), 1);
    assert_eq!(find_line_end(b"a // b\nc"), 1);
}

#[test]
fn line_end_of_blank_statement_is_zero() {
    assert_eq!(find_line_end(b""), 0);
    assert_eq!(find_line_end(b"   "), 0);
    assert_eq!(find_line_end(b"// x"), 0);
    assert_eq!(find_line_end(b"  // x"), 0);
    assert_eq!(find_line_end(b"\n"), 0);
}

#[test]
fn line_end_lies_after_a_whole_character() {
    assert_eq!(find_line_end("é".as_bytes()), 2);
    assert_eq!(find_line_end("a€  ".as_bytes()), 4);
    assert_eq!(find_line_end("a😀 // x".as_bytes()), 5);
}

#[test]
fn line_end_trims_white_space_of_many_bytes() {
    assert_eq!(find_line_end("abc \u{3000}\u{a0}\u{85}".as_bytes()), 3);
    assert_eq!(find_line_end("abc\u{2003}\u{205f}\u{1680} // x".as_bytes()), 3);
    assert_eq!(find_line_end("abc\u{200b}".as_bytes()), 6);
}
