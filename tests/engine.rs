use nufmt::{format_nu, format_nu_buffered, indent_buffered, FormatState, Indentation, Mode, Pending};

#[test]
fn empty_input_gives_empty_output() {
    assert_eq!("", format_nu("", Indentation::Default));
}

#[test]
fn empty_containers_stay_compact() {
    assert_eq!("[]", format_nu("[]", Indentation::Default));
    assert_eq!("{}", format_nu("{ }", Indentation::Default));
    assert_eq!("{}", format_nu("{\n}", Indentation::Default));
}

#[test]
fn nested_arrays_indent_per_level() {
    assert_eq!("[\n  [\n    1\n  ]\n]", format_nu("[[1]]", Indentation::Default));
}

#[test]
fn trailing_separator_puts_closer_on_its_own_line() {
    assert_eq!("[\n  1,\n]", format_nu("[1,]", Indentation::Default));
}

#[test]
fn unmatched_closer_is_absorbed() {
    assert_eq!("\n]", format_nu("]", Indentation::Default));
    assert_eq!("\n]\n}1", format_nu("]}1", Indentation::Default));
}

#[test]
fn unmatched_opener_leaves_depth_open() {
    assert_eq!("[\n  1", format_nu("[1", Indentation::Default));
}

#[test]
fn custom_tab_indentation() {
    let nu = "{\"a\":[1]}";
    let expected = "{\n\t\"a\": [\n\t\t1\n\t]\n}";
    assert_eq!(expected, format_nu(nu, Indentation::Custom("\t")));
}

#[test]
fn custom_multi_character_indentation() {
    assert_eq!("[\n-->1,\n-->2\n]", format_nu("[1,2]", Indentation::Custom("-->")));
}

#[test]
fn custom_empty_indentation() {
    assert_eq!("[\n[\n1\n]\n]", format_nu("[[1]]", Indentation::Custom("")));
}

#[test]
fn colon_gets_one_space() {
    assert_eq!("{\n  a: 1\n}", format_nu("{a   :1}", Indentation::Default));
}

#[test]
fn structure_inside_string_is_kept() {
    let nu = "\"[a, {b: c}]\"";
    assert_eq!(nu, format_nu(nu, Indentation::Default));
}

#[test]
fn escaped_backslash_ends_escape() {
    let nu = "[\"a\\\\\",1]";
    let expected = "[\n  \"a\\\\\",\n  1\n]";
    assert_eq!(expected, format_nu(nu, Indentation::Default));
}

#[test]
fn comment_inside_array_is_kept() {
    let nu = "[1,# note, [x]\n2]";
    let expected = "[\n  1,\n  # note, [x]\n2\n]";
    assert_eq!(expected, format_nu(nu, Indentation::Default));
}

#[test]
fn non_ascii_text_passes_through() {
    let nu = "[\"é\",ü]";
    let expected = "[\n  \"é\",\n  ü\n]";
    assert_eq!(expected, format_nu(nu, Indentation::Default));
}

#[test]
fn formatting_twice_changes_nothing() {
    let inputs = [
        "[{\"a\": 0}, {}, {\"a\": null}]",
        "{a:[1,2,[]],b:\"x, y\" # c\n}",
        "]]{[1,",
    ];
    for nu in inputs {
        let once = format_nu(nu, Indentation::Default);
        let twice = format_nu(&once, Indentation::Default);
        assert_eq!(once, twice);
        let once_tab = format_nu(nu, Indentation::Custom("\t"));
        assert_eq!(once_tab, format_nu(&once_tab, Indentation::Custom("\t")));
    }
}

#[test]
fn depth_of_line_breaks_follows_brackets() {
    let out = format_nu("{a:{b:[1,2]},c:3}", Indentation::Custom("."));
    let expected = "{\n.a: {\n..b: [\n...1,\n...2\n..]\n.},\n.c: 3\n}";
    assert_eq!(expected, out);
}

#[test]
fn buffered_appends_to_writer() {
    let mut writer: Vec<u8> = b"x=".to_vec();
    format_nu_buffered(b"[1, 2]", &mut writer, Indentation::Default);
    assert_eq!(b"x=[\n  1,\n  2\n]".to_vec(), writer);
}

#[test]
fn buffered_keeps_invalid_utf8_bytes() {
    let mut writer: Vec<u8> = Vec::new();
    format_nu_buffered(&[b'[', 0xff, b',', 0xfe, b']'], &mut writer, Indentation::Default);
    assert_eq!(vec![b'[', b'\n', b' ', b' ', 0xff, b',', b'\n', b' ', b' ', 0xfe, b'\n', b']'], writer);
}

#[test]
fn indent_writes_unit_per_level() {
    let mut writer: Vec<u8> = Vec::new();
    indent_buffered(&mut writer, 3, Indentation::Custom("ab"));
    assert_eq!(b"ababab".to_vec(), writer);
    indent_buffered(&mut writer, 2, Indentation::Default);
    assert_eq!(b"ababab    ".to_vec(), writer);
    indent_buffered(&mut writer, 0, Indentation::Custom("zz"));
    assert_eq!(b"ababab    ".to_vec(), writer);
}

#[test]
fn feed_moves_through_modes() {
    let mut state = FormatState::new();
    let mut writer: Vec<u8> = Vec::new();
    state.feed(b'{', &mut writer, Indentation::Default);
    assert_eq!(1, state.indent_level);
    assert_eq!(Pending::Opener, state.pending);
    state.feed(b'"', &mut writer, Indentation::Default);
    assert_eq!(Mode::InString, state.mode);
    state.feed(b'\\', &mut writer, Indentation::Default);
    assert!(state.escaped);
    state.feed(b'"', &mut writer, Indentation::Default);
    assert_eq!(Mode::InString, state.mode);
    state.feed(b'"', &mut writer, Indentation::Default);
    assert_eq!(Mode::Normal, state.mode);
    state.feed(b'#', &mut writer, Indentation::Default);
    assert_eq!(Mode::InComment, state.mode);
    state.feed(b'\n', &mut writer, Indentation::Default);
    assert_eq!(Mode::Normal, state.mode);
    state.feed(b'}', &mut writer, Indentation::Default);
    assert_eq!(0, state.indent_level);
    assert_eq!(b"{\n  \"\\\"\"#\n\n}".to_vec(), writer);
}
