use termtpl::render::NamedArg;

fn render_str(template: &str, positional: &[&str], named: &[(&str, &str)]) -> String {
    let t = termtpl::parse::parse(template.as_bytes()).expect("template failed to parse");
    let pos: Vec<Vec<u8>> = positional.iter().map(|s| s.as_bytes().to_vec()).collect();
    let nmd: Vec<NamedArg> = named
        .iter()
        .map(|(n, v)| NamedArg { name: n.as_bytes().to_vec(), value: v.as_bytes().to_vec() })
        .collect();
    let out = termtpl::render::render(&t, &pos, &nmd).expect("template failed to render");
    String::from_utf8(out).expect("render produced non-UTF8 output")
}

fn check(expected: &str, template: &str, positional: &[&str], named: &[(&str, &str)]) {
    let actual = render_str(template, positional, named);
    if expected != actual {
        panic!(
            "incorrect output for template {:?}:\n  expected: {:?}\n    actual: {:?}\n",
            template, expected, actual,
        );
    }
}

fn render_with_newline(template: &str, positional: &[&str], named: &[(&str, &str)]) -> String {
    let mut t = termtpl::parse::parse(template.as_bytes()).expect("template failed to parse");
    t.add_newline();
    let pos: Vec<Vec<u8>> = positional.iter().map(|s| s.as_bytes().to_vec()).collect();
    let nmd: Vec<NamedArg> = named
        .iter()
        .map(|(n, v)| NamedArg { name: n.as_bytes().to_vec(), value: v.as_bytes().to_vec() })
        .collect();
    let out = termtpl::render::render(&t, &pos, &nmd).expect("template failed to render");
    String::from_utf8(out).expect("render produced non-UTF8 output")
}

#[test]
fn writeln() {
    assert_eq!(render_with_newline("", &[], &[]), "\n");
    assert_eq!(render_with_newline("hello", &[], &[]), "hello\n");
    assert_eq!(render_with_newline("a {$red}b{/$}", &[], &[]), "a \x1b[0m\x1b[31mb\x1b[0m\n");
}

#[test]
fn arg_referal() {
    check("27", "{peter}", &[], &[("peter", "27")]);
    check("27 27", "{0} {0}", &["27"], &[]);

    check(
        "a p c b a m",
        "{} {peter} {2} {} {0} {mary}",
        &["a", "b", "c"],
        &[("peter", "p"), ("mary", "m")],
    );
}

#[test]
fn raw_strings() {
    check("hello", r"hello", &[], &[]);
    check(r"a\n", r"a\n", &[], &[]);
}

#[test]
fn no_style() {
    check("hello", "hello", &[], &[]);
    check("Foo 27 bar", "Foo {} bar", &["27"], &[]);
    check("x Foo 27 bar", "{} Foo {} bar", &["x", "27"], &[]);
    check("Foo 8 barfren", "Foo {} bar{}", &["8", "fren"], &[]);

    check(
        "a\nb\tc\rd\0e\x48f\u{50}g\u{228}h\u{fffe}i\u{1F923}j",
        "a\nb\tc\rd\0e\x48f\u{50}g\u{228}h\u{fffe}i\u{1F923}j",
        &[],
        &[],
    );
    check(
        "abc\
            def",
        "abcdef",
        &[],
        &[],
    );
}

#[test]
fn simple_tags() {
    check("a\x1b[0m\x1b[31mb\x1b[0mc", "a{$red}b{/$}c", &[], &[]);
    check("a\x1b[0m\x1b[33mbanana\x1b[0m", "a{$yellow}banana{/$}", &[], &[]);
    check("\x1b[0m\x1b[34mocean\x1b[0m is wet", "{$blue}ocean{/$} is wet", &[], &[]);
    check("\x1b[0m\x1b[1meverything\x1b[0m", "{$bold}everything{/$}", &[], &[]);

    check("foo\x1b[0m\x1b[1m\x1b[32mbar\x1b[0mbaz", "foo{$bold+green}bar{/$}baz", &[], &[]);
    check(
        "foo\x1b[0m\x1b[1m\x1b[32m\x1b[44mbar\x1b[0mbaz",
        "foo{$bold+green+bg:blue}bar{/$}baz",
        &[],
        &[],
    );
    check(
        "foo\x1b[0m\x1b[1m\x1b[3m\x1b[38;5;10m\x1b[48;5;12mbar\x1b[0mbaz",
        "foo{$bold+green+bg:blue+intense+italic}bar{/$}baz",
        &[],
        &[],
    );
}

#[test]
fn nested_tags() {
    check(
        "a\x1b[0m\x1b[31mb\x1b[0m\x1b[1m\x1b[31mc\x1b[0m\x1b[31md\x1b[0me",
        "a{$red}b{$bold}c{/$}d{/$}e",
        &[],
        &[],
    );
    check(
        "a\x1b[0m\x1b[31mb\x1b[0m\x1b[33mc\x1b[0m\x1b[31md\x1b[0me",
        "a{$red}b{$yellow}c{/$}d{/$}e",
        &[],
        &[],
    );
    check(
        "a\x1b[0m\x1b[31mb\x1b[0m\x1b[1m\x1b[31mc\x1b[0m\x1b[1m\x1b[33md\x1b[0m\x1b[1m\x1b[31me\
            \x1b[0m\x1b[31mf\x1b[0mg",
        "a{$red}b{$bold}c{$yellow}d{/$}e{/$}f{/$}g",
        &[],
        &[],
    );
}

#[test]
fn colored_args() {
    check("\x1b[0m\x1b[32m27\x1b[0m", "{[green]}", &["27"], &[]);
    check("a\x1b[0m\x1b[32m27\x1b[0m", "a{[green]}", &["27"], &[]);
    check("\x1b[0m\x1b[32m27\x1b[0mb", "{[green]}b", &["27"], &[]);
    check("a\x1b[0m\x1b[32m27\x1b[0mb", "a{[green]}b", &["27"], &[]);

    check("\x1b[0m\x1b[35mtrue\x1b[0m", "{[magenta]:?}", &[&format!("{:?}", true)], &[]);
    check("\x1b[0m\x1b[35m3f\x1b[0m", "{[magenta]:x}", &[&format!("{:x}", 0x3f)], &[]);
    check("\x1b[0m\x1b[35m3F\x1b[0m", "{[magenta]:X}", &[&format!("{:X}", 0x3f)], &[]);
    check("\x1b[0m\x1b[35m123\x1b[0m", "{[magenta]:o}", &[&format!("{:o}", 0o123)], &[]);
    check("\x1b[0m\x1b[35m101010\x1b[0m", "{[magenta]:b}", &[&format!("{:b}", 0b101010)], &[]);
    check("\x1b[0m\x1b[35m3.14e0\x1b[0m", "{[magenta]:e}", &[&format!("{:e}", 3.14)], &[]);
    check("\x1b[0m\x1b[35m3.14E0\x1b[0m", "{[magenta]:E}", &[&format!("{:E}", 3.14)], &[]);

    check(
        "a \x1b[0m\x1b[32m27\x1b[0m b \x1b[0m\x1b[31mtrue\x1b[0m c \x1b[0m\x1b[33mbanana\x1b[0m",
        "a {[green]} b {[red]} c {[yellow]}",
        &["27", "true", "banana"],
        &[],
    );
    check(
        "a \x1b[0m\x1b[32m27\x1b[0m b \x1b[0m\x1b[1m3.14\x1b[0m c",
        "a {[green]} b {[bold]} c",
        &["27", &format!("{}", 3.14)],
        &[],
    );
}

#[test]
fn mixed_tag_args() {
    check(
        "a \x1b[0m\x1b[1mb\x1b[0m\x1b[1m\x1b[32m27\x1b[0m\x1b[1mc\x1b[0md",
        "a {$bold}b{[green]}c{/$}d",
        &["27"],
        &[],
    );

    check(
        "a \x1b[0m\x1b[33m...\x1b[0m\x1b[38;5;11m27\x1b[0m\x1b[33m...\x1b[0m\x1b[1m\x1b\
            [33mb\x1b[0m\x1b[1m\x1b[32mtrue\x1b[0m\x1b[1m\x1b[33mc\x1b[0m\x1b[33m\x1b[0md",
        "a {$yellow}...{[intense]}...{$bold}b{[green]}c{/$}{/$}d",
        &["27", "true"],
        &[],
    );
}
