use wotwrh_stringify::{convert, convert_bytes, convert_line};

fn trailing_newlines(text: &str) -> usize {
    text.len() - text.trim_end_matches('\n').len()
}

#[test]
fn empty_document_stays_empty() {
    assert_eq!(convert(""), "");
}

#[test]
fn trailing_line_breaks_are_kept() {
    for breaks in 0..5 {
        let end = "\n".repeat(breaks);
        let input = format!("!!name a B{}", end);
        let output = convert(&input);
        assert_eq!(output, format!("!!name a \"B\"{}", end));
        assert_eq!(trailing_newlines(&output), breaks);
    }
}

#[test]
fn line_breaks_alone_are_kept() {
    assert_eq!(convert("\n"), "\n");
    assert_eq!(convert("\n\n"), "\n\n");
    assert_eq!(convert("\n\n\n"), "\n\n\n");
}

#[test]
fn blank_lines_inside_are_kept() {
    assert_eq!(convert("a\n\n\nb"), "a\n\n\nb");
    assert_eq!(convert("\n\na\n"), "\n\na\n");
}

#[test]
fn lines_are_converted_one_by_one() {
    let input = "Flags: a, b\n\n3|0|6|Hi|mute\n!!icon i file:p.png // c\n3|0|17|1|x|y|Title\n";
    let output =
        "Flags: \"a\", \"b\"\n\n3|0|6|\"Hi\"|mute\n!!icon i file:\"p.png\" // c\n3|0|17|1|x|y|\"Title\"\n";
    assert_eq!(convert(input), output);
}

#[test]
fn lines_without_fields_pass_through() {
    let input = "// a comment\n3|0|8|5|int|3\n!!include other\n  \t\n#category\n";
    assert_eq!(convert(input), input);
}

#[test]
fn flags_line_is_converted() {
    assert_eq!(convert("Flags: abc, def,ghi"), "Flags: \"abc\", \"def\",\"ghi\"");
}

#[test]
fn message_item_is_converted() {
    assert_eq!(
        convert("3|0|6|Hello|f=1|instant|World"),
        "3|0|6|\"Hello|World\"|f=1|instant"
    );
}

#[test]
fn icon_command_is_converted() {
    assert_eq!(
        convert("!!icon sword file:icons/sword.png"),
        "!!icon sword file:\"icons/sword.png\""
    );
    assert_eq!(convert("!!icon file:icons/sword.png"), "!!icon file:icons/sword.png");
}

#[test]
fn icon_item_that_is_no_file_is_left() {
    assert_eq!(convert("3|0|17|0|a|b|builtin_42"), "3|0|17|0|a|b|builtin_42");
}

#[test]
fn message_behind_ifs_wrapper_is_converted() {
    assert_eq!(
        convert("3|0|417|1|2|3|6|Message text"),
        "3|0|417|1|2|3|6|\"Message text\""
    );
}

#[test]
fn comment_is_left_outside_the_literal() {
    assert_eq!(convert("!!name hero Hero // comment"), "!!name hero \"Hero\" // comment");
    assert_eq!(convert("!!name Hero // comment"), "!!name Hero \"\"// comment");
}

#[test]
fn carriage_return_stays_outside_the_literal() {
    assert_eq!(convert("!!name a B\r\n3|0|6|Hi\r\n"), "!!name a \"B\"\r\n3|0|6|\"Hi\"\r\n");
}

#[test]
fn later_stringifier_reads_what_the_earlier_left() {
    assert_eq!(convert("Flags: a|b|6|x"), "Flags: \"a|b|6|\"x\"\"");
    let mut line = b"Flags: a|b|17|1|c|d|e".to_vec();
    convert_line(&mut line);
    assert_eq!(line, b"Flags: \"a|b|17|1|c|d|\"e\"\"");
}

#[test]
fn text_of_many_bytes_is_converted() {
    assert_eq!(
        convert("!!name id Füße 😀 \u{3000}\n3|0|6|日本|mute|語\n"),
        "!!name id \"Füße 😀\" \u{3000}\n3|0|6|\"日本|語\"|mute\n"
    );
}

#[test]
fn bytes_are_converted_as_the_text_is() {
    let input = "Flags: x\n3|0|16|0|a|b|Name // c\n\n";
    assert_eq!(convert_bytes(input.as_bytes()), convert(input).into_bytes());
    assert_eq!(convert_bytes(b"x\n\n"), b"x\n\n");
    assert_eq!(convert_bytes(b""), b"");
}

#[test]
fn second_conversion_keeps_the_literals_whole() {
    let once = convert("!!name hero Hero // comment\n3|0|6|Hello|f=1|World\n");
    assert_eq!(once, "!!name hero \"Hero\" // comment\n3|0|6|\"Hello|World\"|f=1\n");
    let twice = convert(&once);
    assert_eq!(twice, "!!name hero \"\"Hero\"\" // comment\n3|0|6|\"\"Hello|World\"\"|f=1\n");
}

#[test]
fn lines_are_as_many_as_before() {
    let input = "Flags: a,b\n3|0|6|x|mute|y\n\n!!name n Text // c\n3|0|17|2|a|b|\n\n\n";
    let output = convert(input);
    assert_eq!(output.split('\n').count(), input.split('\n').count());
    assert_eq!(
        output,
        "Flags: \"a\",\"b\"\n3|0|6|\"x|y\"|mute\n\n!!name n \"Text\" // c\n3|0|17|2|a|b|\"\"\n\n\n"
    );
}
