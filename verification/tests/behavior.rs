use termtpl::Color;
use termtpl::ParseError;
use termtpl::RenderError;
use termtpl::Style;
use termtpl::render::NamedArg;

fn rts(template: &str, positional: &[&str], named: &[(&str, &str)]) -> String {
    let t = termtpl::parse::parse(template.as_bytes()).expect("template failed to parse");
    let pos: Vec<Vec<u8>> = positional.iter().map(|s| s.as_bytes().to_vec()).collect();
    let nmd: Vec<NamedArg> = named
        .iter()
        .map(|(n, v)| NamedArg { name: n.as_bytes().to_vec(), value: v.as_bytes().to_vec() })
        .collect();
    let out = termtpl::render::render(&t, &pos, &nmd).expect("template failed to render");
    String::from_utf8(out).expect("render produced non-UTF8 output")
}

fn render_result(
    template: &str,
    positional: &[&str],
    named: &[(&str, &str)],
) -> Result<Vec<u8>, RenderError> {
    let t = termtpl::parse::parse(template.as_bytes()).expect("template failed to parse");
    let pos: Vec<Vec<u8>> = positional.iter().map(|s| s.as_bytes().to_vec()).collect();
    let nmd: Vec<NamedArg> = named
        .iter()
        .map(|(n, v)| NamedArg { name: n.as_bytes().to_vec(), value: v.as_bytes().to_vec() })
        .collect();
    termtpl::render::render(&t, &pos, &nmd)
}

#[test]
fn empty_template() {
    assert_eq!(rts("", &[], &[]), "");
}

#[test]
fn literal_unescaping() {
    assert_eq!(rts("a{{b}}c", &[], &[]), "a{b}c");
    assert_eq!(rts("{{{{}}}}", &[], &[]), "{{}}");
    assert_eq!(rts("lone } brace", &[], &[]), "lone } brace");
}

#[test]
fn bare_reset_only_at_top_level_close() {
    // Two top-level scopes: exactly the two closes emit the bare reset
    // alone; every open re-applies a code right after its reset.
    let out = rts("x{$red}y{/$}z{$bold}w{/$}", &[], &[]);
    assert_eq!(out, "x\x1b[0m\x1b[31my\x1b[0mz\x1b[0m\x1b[1mw\x1b[0m");
    let bare = out.matches("\x1b[0m").count() - out.matches("\x1b[0m\x1b[").count();
    assert_eq!(bare, 2);
}

#[test]
fn add_newline_round_trip() {
    let plain = rts("a{$red}b{/$}c", &[], &[]);
    let mut t = termtpl::parse::parse("a{$red}b{/$}c".as_bytes()).unwrap();
    t.add_newline();
    let out = termtpl::render::render(&t, &Vec::new(), &Vec::new()).unwrap();
    assert_eq!(String::from_utf8(out).unwrap(), format!("{}\n", plain));
}

#[test]
fn add_newline_after_close_tag() {
    let mut t = termtpl::parse::parse("{$red}x{/$}".as_bytes()).unwrap();
    t.add_newline();
    let out = termtpl::render::render(&t, &Vec::new(), &Vec::new()).unwrap();
    assert_eq!(String::from_utf8(out).unwrap(), "\x1b[0m\x1b[31mx\x1b[0m\n");
}

#[test]
fn intense_uses_bright_palette_for_inherited_color() {
    assert_eq!(
        rts("{$red}x{$intense}y{/$}z{/$}", &[], &[]),
        "\x1b[0m\x1b[31mx\x1b[0m\x1b[38;5;9my\x1b[0m\x1b[31mz\x1b[0m",
    );
}

#[test]
fn underline_code() {
    assert_eq!(rts("{$underline}u{/$}", &[], &[]), "\x1b[0m\x1b[4mu\x1b[0m");
}

#[test]
fn reset_attribute_discards_inherited() {
    // `reset` discards everything inherited from the enclosing scope.
    assert_eq!(
        rts("{$red}a{$reset+bold}b{/$}c{/$}", &[], &[]),
        "\x1b[0m\x1b[31ma\x1b[0m\x1b[1mb\x1b[0m\x1b[31mc\x1b[0m",
    );
}

#[test]
fn missing_positional_argument() {
    assert!(matches!(render_result("{3}", &["a", "b"], &[]), Err(RenderError::MissingArgument)));
    assert!(matches!(render_result("{}", &[], &[]), Err(RenderError::MissingArgument)));
}

#[test]
fn missing_named_argument() {
    assert!(matches!(
        render_result("{unknown_name}", &[], &[("known", "v")]),
        Err(RenderError::MissingArgument)
    ));
}

#[test]
fn unterminated_style_tag() {
    assert!(matches!(
        termtpl::parse::parse("{$red}no close".as_bytes()),
        Err(ParseError::UnterminatedStyleTag)
    ));
}

#[test]
fn unmatched_style_close() {
    assert!(matches!(
        termtpl::parse::parse("{/$}".as_bytes()),
        Err(ParseError::UnmatchedStyleClose)
    ));
}

#[test]
fn unterminated_brace() {
    assert!(matches!(
        termtpl::parse::parse("a{".as_bytes()),
        Err(ParseError::UnterminatedBrace)
    ));
    assert!(matches!(
        termtpl::parse::parse("a{$red".as_bytes()),
        Err(ParseError::UnterminatedBrace)
    ));
    assert!(matches!(
        termtpl::parse::parse("{0:x".as_bytes()),
        Err(ParseError::UnterminatedBrace)
    ));
}

#[test]
fn malformed_slot() {
    assert!(matches!(
        termtpl::parse::parse("{1a}".as_bytes()),
        Err(ParseError::MalformedSlot)
    ));
    assert!(matches!(
        termtpl::parse::parse("{a b}".as_bytes()),
        Err(ParseError::MalformedSlot)
    ));
}

#[test]
fn unknown_style_token() {
    assert!(matches!(
        termtpl::parse::parse("{$pink}a{/$}".as_bytes()),
        Err(ParseError::UnknownStyleToken)
    ));
    assert!(matches!(
        termtpl::parse::parse("{$bg:pink}a{/$}".as_bytes()),
        Err(ParseError::UnknownStyleToken)
    ));
    assert!(matches!(
        termtpl::parse::parse("{$}a{/$}".as_bytes()),
        Err(ParseError::UnknownStyleToken)
    ));
}

#[test]
fn color_encoding() {
    assert_eq!(termtpl::codec::encode(Color::Green, false, false), b"32".to_vec());
    assert_eq!(termtpl::codec::encode(Color::Green, true, false), b"38;5;10".to_vec());
    assert_eq!(termtpl::codec::encode(Color::Blue, true, true), b"48;5;12".to_vec());
    assert_eq!(termtpl::codec::encode(Color::Rgb(1, 22, 255), false, false), b"38;2;1;22;255".to_vec());
    assert_eq!(termtpl::codec::encode(Color::Rgb(0, 7, 100), true, true), b"48;2;0;7;100".to_vec());
}

#[test]
fn transition_bytes() {
    let bold = Style { bold: Some(true), ..Style::default() };
    assert_eq!(termtpl::codec::render_transition(&bold), b"\x1b[0m\x1b[1m".to_vec());
    let plain = Style::default();
    assert_eq!(termtpl::codec::render_transition(&plain), b"\x1b[0m".to_vec());
}

#[test]
fn style_or_merge() {
    let child = Style { fg: Some(Color::Red), bold: Some(true), ..Style::default() };
    let parent = Style { fg: Some(Color::Blue), italic: Some(true), ..Style::default() };
    let merged = child.or(parent);
    assert!(matches!(merged.fg, Some(Color::Red)));
    assert_eq!(merged.bold, Some(true));
    assert_eq!(merged.italic, Some(true));
    assert!(matches!(merged.bg, None));
}

#[test]
fn resolve_cursor_semantics() {
    let t = termtpl::parse::parse("{}{0}{}".as_bytes()).unwrap();
    let pos: Vec<Vec<u8>> = vec![b"a".to_vec(), b"b".to_vec()];
    let out = termtpl::render::render(&t, &pos, &Vec::new()).unwrap();
    // the explicit {0} does not advance the implicit cursor
    assert_eq!(out, b"aab".to_vec());
}

#[test]
fn position_beyond_u32_is_malformed() {
    assert!(matches!(
        termtpl::parse::parse("{99999999999}".as_bytes()),
        Err(ParseError::MalformedSlot)
    ));
}
