use wotwrh_stringify::{
    convert_flags, convert_icons, convert_messages, convert_shop_and_wheel_texts, stringify_range,
};

fn apply(stringifier: fn(&mut Vec<u8>), statement: &str) -> String {
    let mut bytes = statement.as_bytes().to_vec();
    stringifier(&mut bytes);
    String::from_utf8(bytes).unwrap()
}

#[test]
fn range_is_wrapped_in_quotes() {
    let mut bytes = b"abcdef".to_vec();
    stringify_range(&mut bytes, 2..4);
    assert_eq!(bytes, b"ab\"cd\"ef");
    let mut bytes = b"abcdef".to_vec();
    stringify_range(&mut bytes, 0..6);
    assert_eq!(bytes, b"\"abcdef\"");
}

#[test]
fn empty_range_becomes_empty_literal() {
    let mut bytes = b"abc".to_vec();
    stringify_range(&mut bytes, 0..0);
    assert_eq!(bytes, b"\"\"abc");
    let mut bytes = b"abc".to_vec();
    stringify_range(&mut bytes, 3..3);
    assert_eq!(bytes, b"abc\"\"");
    let mut bytes = Vec::new();
    stringify_range(&mut bytes, 0..0);
    assert_eq!(bytes, b"\"\"");
}

#[test]
fn flags_are_quoted_one_by_one() {
    assert_eq!(apply(convert_flags, "Flags: abc, def,ghi"), "Flags: \"abc\", \"def\",\"ghi\"");
    assert_eq!(apply(convert_flags, "Flags: one"), "Flags: \"one\"");
    assert_eq!(apply(convert_flags, "Flags:one,two"), "Flags:\"one\",\"two\"");
}

#[test]
fn flags_need_their_prefix() {
    assert_eq!(apply(convert_flags, "flags: abc"), "flags: abc");
    assert_eq!(apply(convert_flags, " Flags: abc"), " Flags: abc");
    assert_eq!(apply(convert_flags, "Flags"), "Flags");
    assert_eq!(apply(convert_flags, ""), "");
    assert_eq!(apply(convert_flags, "a|b|6|Flags: x"), "a|b|6|Flags: x");
}

#[test]
fn flags_keep_white_space_before_a_name_outside() {
    assert_eq!(apply(convert_flags, "Flags:  \t a,\u{3000}b"), "Flags:  \t \"a\",\u{3000}\"b\"");
    assert_eq!(apply(convert_flags, "Flags: a , b "), "Flags: \"a \", \"b \"");
}

#[test]
fn flags_without_a_name_get_an_empty_literal() {
    assert_eq!(apply(convert_flags, "Flags:"), "Flags:\"\"");
    assert_eq!(apply(convert_flags, "Flags: a,"), "Flags: \"a\",\"\"");
    assert_eq!(apply(convert_flags, "Flags: ,b"), "Flags: \"\",\"b\"");
}

#[test]
fn flags_of_white_space_alone_are_quoted_whole() {
    assert_eq!(apply(convert_flags, "Flags:   "), "Flags:\"   \"");
    assert_eq!(apply(convert_flags, "Flags: a,  "), "Flags: \"a\",\"  \"");
}

#[test]
fn flags_end_at_a_line_break() {
    assert_eq!(apply(convert_flags, "Flags: a,b\nc,d"), "Flags: \"a\",\"b\"\nc,d");
}

#[test]
fn flags_may_hold_any_character() {
    assert_eq!(apply(convert_flags, "Flags: é, 😀 x"), "Flags: \"é\", \"😀 x\"");
}

#[test]
fn message_parts_are_split_into_text_and_flags() {
    assert_eq!(
        apply(convert_messages, "a|b|6|Hello|f=1|instant|World"),
        "a|b|6|\"Hello|World\"|f=1|instant"
    );
    assert_eq!(
        apply(convert_messages, "a|b|6|mute|p=3|x|quiet|noclear|y"),
        "a|b|6|\"x|y\"|mute|p=3|quiet|noclear"
    );
}

#[test]
fn message_of_text_alone_is_quoted() {
    assert_eq!(apply(convert_messages, "a|b|6|Hello"), "a|b|6|\"Hello\"");
    assert_eq!(apply(convert_messages, "a|b|6|Hello|World"), "a|b|6|\"Hello|World\"");
    assert_eq!(apply(convert_messages, "a|b|6|Grüße, Welt"), "a|b|6|\"Grüße, Welt\"");
}

#[test]
fn message_of_flags_alone_gets_an_empty_literal() {
    assert_eq!(apply(convert_messages, "a|b|6|f=1"), "a|b|6|\"\"|f=1");
    assert_eq!(apply(convert_messages, "a|b|6|mute|instant"), "a|b|6|\"\"|mute|instant");
}

#[test]
fn message_flags_are_told_by_their_whole_name() {
    assert_eq!(apply(convert_messages, "a|b|6|muted|fx=1"), "a|b|6|\"muted|fx=1\"");
    assert_eq!(apply(convert_messages, "a|b|6|f|p|=|Mute"), "a|b|6|\"f|p|=|Mute\"");
    assert_eq!(apply(convert_messages, "a|b|6|f=|p="), "a|b|6|\"\"|f=|p=");
}

#[test]
fn message_keeps_empty_parts() {
    assert_eq!(apply(convert_messages, "a|b|6|"), "a|b|6|\"\"");
    assert_eq!(apply(convert_messages, "a|b|6|x||y|"), "a|b|6|\"x||y|\"");
    assert_eq!(apply(convert_messages, "a|b|6||mute"), "a|b|6|\"\"|mute");
}

#[test]
fn message_ends_before_comment_and_white_space() {
    assert_eq!(apply(convert_messages, "a|b|6|Hello  // c"), "a|b|6|\"Hello\"  // c");
    assert_eq!(apply(convert_messages, "a|b|6|Hello|mute \t"), "a|b|6|\"Hello\"|mute \t");
    assert_eq!(apply(convert_messages, "a|b|6|   // c"), "a|b|6|\"\"   // c");
}

#[test]
fn message_behind_a_comment_gets_an_empty_literal() {
    assert_eq!(apply(convert_messages, "a//b|c|6|x"), "a//b|c|6|\"\"x");
}

#[test]
fn message_is_found_behind_wrappers() {
    assert_eq!(
        apply(convert_messages, "a|b|417|x|y|z|6|Message text"),
        "a|b|417|x|y|z|6|\"Message text\""
    );
    assert_eq!(
        apply(convert_messages, "a|b|424|1|2|3|4|425|5|6|Hi|mute"),
        "a|b|424|1|2|3|4|425|5|6|\"Hi\"|mute"
    );
}

#[test]
fn message_needs_its_marker_at_the_terminal_item() {
    assert_eq!(apply(convert_messages, "a|b|16|x"), "a|b|16|x");
    assert_eq!(apply(convert_messages, "a|b|6"), "a|b|6");
    assert_eq!(apply(convert_messages, "6|x"), "6|x");
    assert_eq!(apply(convert_messages, "a|6|x"), "a|6|x");
    assert_eq!(apply(convert_messages, "a|b|5|6|x"), "a|b|5|6|x");
    assert_eq!(apply(convert_messages, ""), "");
}

#[test]
fn trigger_is_never_taken_for_an_item() {
    assert_eq!(apply(convert_messages, "6|Hello"), "6|Hello");
    assert_eq!(apply(convert_messages, "6|"), "6|");
    assert_eq!(apply(convert_messages, "6|a|"), "6|a|");
    assert_eq!(apply(convert_messages, "6|a|6|Hello"), "6|a|6|\"Hello\"");
    assert_eq!(apply(convert_icons, "17|0|||file:x"), "17|0|||file:x");
    assert_eq!(apply(convert_icons, "16|2|||"), "16|2|||");
    assert_eq!(apply(convert_shop_and_wheel_texts, "17|1|||"), "17|1|||");
    assert_eq!(apply(convert_shop_and_wheel_texts, "16|0|||"), "16|0|||");
}

#[test]
fn icon_command_has_its_file_quoted() {
    assert_eq!(
        apply(convert_icons, "!!icon sword file:icons/sword.png"),
        "!!icon sword file:\"icons/sword.png\""
    );
    assert_eq!(
        apply(convert_icons, "!!icon sword file:icons/sword.png  // big"),
        "!!icon sword file:\"icons/sword.png\"  // big"
    );
}

#[test]
fn icon_command_without_argument_is_left() {
    assert_eq!(apply(convert_icons, "!!icon file:icons/sword.png"), "!!icon file:icons/sword.png");
    assert_eq!(apply(convert_icons, "!!icon"), "!!icon");
    assert_eq!(apply(convert_icons, "!!icon sword"), "!!icon sword");
}

#[test]
fn icon_that_is_no_file_is_left() {
    assert_eq!(apply(convert_icons, "!!icon sword shard:5"), "!!icon sword shard:5");
    assert_eq!(apply(convert_icons, "!!icon sword  file:x.png"), "!!icon sword  file:x.png");
    assert_eq!(apply(convert_icons, "a|b|17|0|a|b|builtin_42"), "a|b|17|0|a|b|builtin_42");
    assert_eq!(apply(convert_icons, "a|b|16|2|a|b|File:x"), "a|b|16|2|a|b|File:x");
}

#[test]
fn icon_item_has_its_file_quoted() {
    assert_eq!(
        apply(convert_icons, "a|b|17|0|x|y|file:a/b.png"),
        "a|b|17|0|x|y|file:\"a/b.png\""
    );
    assert_eq!(
        apply(convert_icons, "a|b|16|2|x|y|file:w.png // c"),
        "a|b|16|2|x|y|file:\"w.png\" // c"
    );
    assert_eq!(
        apply(convert_icons, "a|b|417|1|2|3|17|0|x|y|file:ä.png"),
        "a|b|417|1|2|3|17|0|x|y|file:\"ä.png\""
    );
}

#[test]
fn icon_item_needs_two_parts_before_the_file() {
    assert_eq!(apply(convert_icons, "a|b|17|0|x|file:a.png"), "a|b|17|0|x|file:a.png");
    assert_eq!(apply(convert_icons, "a|b|17|0|file:x|y|"), "a|b|17|0|file:x|y|");
    assert_eq!(apply(convert_icons, "a|b|17|1|x|y|file:a.png"), "a|b|17|1|x|y|file:a.png");
}

#[test]
fn icon_file_without_a_name_gets_an_empty_literal() {
    assert_eq!(apply(convert_icons, "!!icon a file:"), "!!icon a file:\"\"");
    assert_eq!(apply(convert_icons, "!!icon a file:  // c"), "!!icon a file:\"\"  // c");
}

#[test]
fn command_text_is_quoted() {
    assert_eq!(apply(convert_shop_and_wheel_texts, "!!name hero Hero"), "!!name hero \"Hero\"");
    assert_eq!(
        apply(convert_shop_and_wheel_texts, "!!display x Some text  "),
        "!!display x \"Some text\"  "
    );
    assert_eq!(
        apply(convert_shop_and_wheel_texts, "!!description x A longer text"),
        "!!description x \"A longer text\""
    );
}

#[test]
fn command_text_ends_before_the_comment() {
    assert_eq!(
        apply(convert_shop_and_wheel_texts, "!!name hero Hero // comment"),
        "!!name hero \"Hero\" // comment"
    );
    assert_eq!(
        apply(convert_shop_and_wheel_texts, "!!name hero Hero//comment"),
        "!!name hero \"Hero\"//comment"
    );
}

#[test]
fn command_text_that_is_blank_gets_an_empty_literal() {
    assert_eq!(
        apply(convert_shop_and_wheel_texts, "!!name Hero // comment"),
        "!!name Hero \"\"// comment"
    );
    assert_eq!(apply(convert_shop_and_wheel_texts, "!!name hero "), "!!name hero \"\"");
    assert_eq!(apply(convert_shop_and_wheel_texts, "!!name hero    "), "!!name hero \"\"   ");
}

#[test]
fn command_without_a_second_space_is_left() {
    assert_eq!(apply(convert_shop_and_wheel_texts, "!!name Hero"), "!!name Hero");
    assert_eq!(apply(convert_shop_and_wheel_texts, "!!name"), "!!name");
    assert_eq!(apply(convert_shop_and_wheel_texts, "!!names a b"), "!!names a b");
    assert_eq!(apply(convert_shop_and_wheel_texts, "!!icon a b"), "!!icon a b");
}

#[test]
fn item_text_is_quoted() {
    assert_eq!(
        apply(convert_shop_and_wheel_texts, "a|b|16|0|x|y|Wheel name"),
        "a|b|16|0|x|y|\"Wheel name\""
    );
    assert_eq!(
        apply(convert_shop_and_wheel_texts, "a|b|16|1|x|y|Wheel text // c"),
        "a|b|16|1|x|y|\"Wheel text\" // c"
    );
    assert_eq!(
        apply(convert_shop_and_wheel_texts, "a|b|17|1|x|y|Shop title"),
        "a|b|17|1|x|y|\"Shop title\""
    );
    assert_eq!(
        apply(convert_shop_and_wheel_texts, "a|b|425|1|17|2|x|y|Shop, text|more"),
        "a|b|425|1|17|2|x|y|\"Shop, text|more\""
    );
}

#[test]
fn item_text_needs_two_parts_before_it() {
    assert_eq!(apply(convert_shop_and_wheel_texts, "a|b|17|1|x|y"), "a|b|17|1|x|y");
    assert_eq!(apply(convert_shop_and_wheel_texts, "a|b|17|1|x|y|"), "a|b|17|1|x|y|\"\"");
    assert_eq!(apply(convert_shop_and_wheel_texts, "a|b|17|0|x|y|z"), "a|b|17|0|x|y|z");
    assert_eq!(apply(convert_shop_and_wheel_texts, "a|b|16|2|x|y|z"), "a|b|16|2|x|y|z");
    assert_eq!(apply(convert_shop_and_wheel_texts, "a|b|16|3|x|y|z"), "a|b|16|3|x|y|z");
}

#[test]
fn text_may_end_in_any_character() {
    assert_eq!(apply(convert_shop_and_wheel_texts, "!!name id Héé"), "!!name id \"Héé\"");
    assert_eq!(
        apply(convert_shop_and_wheel_texts, "!!name id Name\u{3000}"),
        "!!name id \"Name\"\u{3000}"
    );
    assert_eq!(
        apply(convert_shop_and_wheel_texts, "a|b|17|1|x|y|日本語 // c"),
        "a|b|17|1|x|y|\"日本語\" // c"
    );
}

#[test]
fn second_pass_wraps_the_literal_whole() {
    assert_eq!(
        apply(convert_shop_and_wheel_texts, "!!name hero \"Hero\" // comment"),
        "!!name hero \"\"Hero\"\" // comment"
    );
    assert_eq!(
        apply(convert_icons, "!!icon sword file:\"icons/sword.png\""),
        "!!icon sword file:\"\"icons/sword.png\"\""
    );
}

#[test]
fn second_pass_wraps_each_flag_literal_whole() {
    let once = apply(convert_flags, "Flags: abc, def,ghi");
    assert_eq!(once, "Flags: \"abc\", \"def\",\"ghi\"");
    assert_eq!(apply(convert_flags, &once), "Flags: \"\"abc\"\", \"\"def\"\",\"\"ghi\"\"");
    let once = apply(convert_flags, "Flags:  ,a\nb");
    assert_eq!(once, "Flags:  \"\",\"a\"\nb");
    assert_eq!(apply(convert_flags, &once), "Flags:  \"\"\"\",\"\"a\"\"\nb");
}

#[test]
fn second_pass_wraps_the_message_literal_whole() {
    let once = apply(convert_messages, "a|b|6|Hello|f=1|instant|World  // c");
    assert_eq!(once, "a|b|6|\"Hello|World\"|f=1|instant  // c");
    assert_eq!(apply(convert_messages, &once), "a|b|6|\"\"Hello|World\"\"|f=1|instant  // c");
    let once = apply(convert_messages, "a|b|6|f=1 |text");
    assert_eq!(once, "a|b|6|\"text\"|f=1 ");
    assert_eq!(apply(convert_messages, &once), "a|b|6|\"\"text\"\"|f=1 ");
    let once = apply(convert_messages, "a|b|6|mute");
    assert_eq!(once, "a|b|6|\"\"|mute");
    assert_eq!(apply(convert_messages, &once), "a|b|6|\"\"\"\"|mute");
}

#[test]
fn second_pass_leaves_flags_that_run_into_a_comment() {
    let once = apply(convert_messages, "a|b|6|f=/|text//c");
    assert_eq!(once, "a|b|6|\"text\"|f=///c");
    assert_eq!(apply(convert_messages, &once), "a|b|6|\"\"text\"\"|f=///c");
}

#[test]
fn second_pass_wraps_an_empty_literal() {
    let once = apply(convert_shop_and_wheel_texts, "a//|b|17|1|x|y|T");
    assert_eq!(once, "a//|b|17|1|x|y|\"\"T");
    assert_eq!(apply(convert_shop_and_wheel_texts, &once), "a//|b|17|1|x|y|\"\"\"\"T");
    let once = apply(convert_icons, "!!icon a file:  // c");
    assert_eq!(apply(convert_icons, &once), "!!icon a file:\"\"\"\"  // c");
}
