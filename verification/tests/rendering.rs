use show_my_errors::decimal::decimal_digits;
use show_my_errors::render::print_n;
use show_my_errors::{
    Annotation, AnnotationList, AnnotationText, Color, Error, Severity, Style, Stylesheet,
};
use termcolor::Buffer;

#[test]
fn hello_world_renders_two_blocks() {
    let mut list = AnnotationList::new("hello.txt", "Hello world!");
    list.warning(4..7, "punctuation problem", "you probably forgot a comma")
        .unwrap()
        .info(0..0, "consider adding some translations", None)
        .unwrap();
    let expected = "warning: punctuation problem\n  --> hello.txt:1:5\n   |\n 1 | Hello world!\n   |     ^^^ you probably forgot a comma\n\ninfo: consider adding some translations\n  --> hello.txt:1:1\n   |\n 1 | Hello world!\n   |\n";
    assert_eq!(list.to_string().unwrap(), expected);
}

#[test]
fn to_bytes_is_repeatable_and_leaves_the_list_alone() {
    let mut list = AnnotationList::new("a.txt", "one\ntwo\n");
    list.error(4..7, "bad", "here").unwrap();
    let mut same = AnnotationList::new("a.txt", "one\ntwo\n");
    same.error(4..7, "bad", "here").unwrap();
    let first = list.to_bytes().unwrap();
    let second = list.to_bytes().unwrap();
    assert_eq!(first, second);
    assert_eq!(list, same);
    assert_eq!(
        first,
        b"error: bad\n  --> a.txt:2:1\n   |\n 2 | two\n   | ^^^ here\n".to_vec()
    );
}

#[test]
fn empty_range_has_bare_bar() {
    let mut list = AnnotationList::new("f", "abc");
    list.error(1..1, None, "never shown").unwrap();
    assert_eq!(
        list.to_string().unwrap(),
        "error:\n  --> f:1:2\n   |\n 1 | abc\n   |\n"
    );
}

#[test]
fn same_line_annotations_keep_insertion_order() {
    let mut list = AnnotationList::new("f", "abcdef");
    list.info(3..4, "second in text", None)
        .unwrap()
        .warning(0..2, "first in text", None)
        .unwrap();
    assert_eq!(
        list.to_string().unwrap(),
        "info: second in text\n  --> f:1:4\n   |\n 1 | abcdef\n   |    ^\n\nwarning: first in text\n  --> f:1:1\n   |\n 1 | abcdef\n   | ^^\n"
    );
}

#[test]
fn nothing_attached_prints_nothing() {
    let list = AnnotationList::new("f", "abc\ndef");
    assert_eq!(list.to_bytes().unwrap(), Vec::<u8>::new());
    assert_eq!(list.to_string().unwrap(), "");
    assert_eq!(list.to_ansi_string(&Stylesheet::colored()).unwrap(), "");
}

#[test]
fn line_number_column_widens_with_the_number() {
    let source = "\n\n\n\n\n\n\n\n\nx";
    let mut list = AnnotationList::new("f", source);
    list.info(9..10, "ten", "t").unwrap();
    assert_eq!(
        list.to_string().unwrap(),
        "info: ten\n   --> f:10:1\n    |\n 10 | x\n    | ^ t\n"
    );
}

#[test]
fn columns_count_bytes() {
    let mut list = AnnotationList::new("f", "h\u{e9}llo\nw\u{f6}rld");
    list.error(3..5, "e", None).unwrap();
    list.error(10..12, "w", None).unwrap();
    assert_eq!(list.annotated_lines()[0].content(), "h\u{e9}llo");
    assert_eq!(list.annotated_lines()[1].start(), 7);
    assert_eq!(list.annotated_lines()[1].content(), "w\u{f6}rld");
    assert_eq!(
        list.to_string().unwrap(),
        "error: e\n  --> f:1:4\n   |\n 1 | h\u{e9}llo\n   |    ^^\n\nerror: w\n  --> f:2:4\n   |\n 2 | w\u{f6}rld\n   |    ^^\n"
    );
}

#[test]
fn ansi_output_of_colored_stylesheet() {
    let mut list = AnnotationList::new("hello.txt", "Hello world!");
    list.warning(4..7, "punctuation problem", "you probably forgot a comma")
        .unwrap();
    let expected = "\x1b[0m\x1b[1m\x1b[33mwarning: punctuation problem\n\x1b[0m\x1b[1m\x1b[34m  --> \x1b[0m\x1b[1mhello.txt:1:5\n\x1b[0m\x1b[1m\x1b[34m   |\n 1 | \x1b[0mHello world!\n\x1b[0m\x1b[1m\x1b[34m   |\x1b[0m\x1b[1m\x1b[33m     ^^^ you probably forgot a comma\n\x1b[0m";
    assert_eq!(
        list.to_ansi_string(&Stylesheet::colored()).unwrap(),
        expected
    );
    assert_eq!(
        list.to_ansi_bytes(&Stylesheet::colored()).unwrap(),
        expected.as_bytes().to_vec()
    );
}

#[test]
fn ansi_output_of_monochrome_stylesheet_resets_only() {
    let mut list = AnnotationList::new("f", "ab");
    list.info(0..0, None, None).unwrap();
    assert_eq!(
        list.to_ansi_string(&Stylesheet::monochrome()).unwrap(),
        "\x1b[0minfo:\n\x1b[0m  --> \x1b[0mf:1:1\n\x1b[0m   |\n 1 | \x1b[0mab\n\x1b[0m   |\n\x1b[0m"
    );
}

#[test]
fn every_color_has_its_escape_sequence() {
    let colors = [
        (Color::Black, "\x1b[30m"),
        (Color::Red, "\x1b[31m"),
        (Color::Green, "\x1b[32m"),
        (Color::Yellow, "\x1b[33m"),
        (Color::Blue, "\x1b[34m"),
        (Color::Magenta, "\x1b[35m"),
        (Color::Cyan, "\x1b[36m"),
        (Color::White, "\x1b[37m"),
    ];
    for (color, code) in colors {
        let mut sheet = Stylesheet::monochrome();
        sheet.content = Style { fg: Some(color), bold: false };
        let mut list = AnnotationList::new("f", "ab");
        list.info(0..0, None, None).unwrap();
        let expected = format!(
            "\x1b[0minfo:\n\x1b[0m  --> \x1b[0mf:1:1\n\x1b[0m   |\n 1 | \x1b[0m{}ab\n\x1b[0m   |\n\x1b[0m",
            code
        );
        assert_eq!(list.to_ansi_string(&sheet).unwrap(), expected);
    }
}

#[test]
fn show_appends_to_what_the_buffer_holds() {
    let mut list = AnnotationList::new("f", "ab");
    list.error(0..1, "h", "t").unwrap();
    let mut plain = Buffer::no_color();
    list.show(&mut plain, &Stylesheet::colored()).unwrap();
    list.show(&mut plain, &Stylesheet::colored()).unwrap();
    let once = "error: h\n  --> f:1:1\n   |\n 1 | ab\n   | ^ t\n";
    assert_eq!(plain.into_inner(), format!("{}{}", once, once).into_bytes());
}

#[test]
fn print_n_repeats_the_piece() {
    let mut buffer = Buffer::no_color();
    print_n(&mut buffer, b"ab", 3).unwrap();
    print_n(&mut buffer, b"x", 0).unwrap();
    assert_eq!(buffer.into_inner(), b"ababab".to_vec());
}

#[test]
fn decimal_digits_of_numbers() {
    assert_eq!(decimal_digits(0), b"0".to_vec());
    assert_eq!(decimal_digits(7), b"7".to_vec());
    assert_eq!(decimal_digits(10), b"10".to_vec());
    assert_eq!(decimal_digits(1203), b"1203".to_vec());
    assert_eq!(decimal_digits(usize::MAX), usize::MAX.to_string().into_bytes());
}

#[test]
fn stylesheets() {
    assert_eq!(Stylesheet::monochrome(), Stylesheet::default());
    assert_eq!(Stylesheet::monochrome().error, Style { fg: None, bold: false });
    assert_eq!(Style::plain(), Style { fg: None, bold: false });
    let colored = Stylesheet::colored();
    assert_eq!(colored.info, Style { fg: None, bold: true });
    assert_eq!(colored.warning, Style { fg: Some(Color::Yellow), bold: true });
    assert_eq!(colored.error, Style { fg: Some(Color::Red), bold: true });
    assert_eq!(colored.linenr, Style { fg: Some(Color::Blue), bold: true });
    assert_eq!(colored.filename, Style { fg: None, bold: true });
    assert_eq!(colored.content, Style { fg: None, bold: false });
    assert_eq!(colored.by_severity(&Severity::Info), &colored.info);
    assert_eq!(colored.by_severity(&Severity::Warning), &colored.warning);
    assert_eq!(colored.by_severity(&Severity::Error), &colored.error);
}

#[test]
fn severity_words() {
    assert_eq!(Severity::Info.as_str(), "info");
    assert_eq!(Severity::Warning.as_str(), "warning");
    assert_eq!(Severity::Error.as_str(), "error");
}

#[test]
fn annotation_construction() {
    assert_eq!(
        Annotation::new(0..5, Severity::Info, "header", "text").unwrap(),
        Annotation::new(
            0..5,
            Severity::Info,
            Some(String::from("header")),
            Some(String::from("text"))
        )
        .unwrap()
    );
    let a = Annotation::new(2..2, Severity::Warning, None, String::from("t")).unwrap();
    assert_eq!(a.range(), &(2..2));
    assert_eq!(a.header, None);
    assert_eq!(a.text, Some(String::from("t")));
    assert_eq!(a.severity, Severity::Warning);
    assert_eq!(a.clone(), a);
    assert_eq!(
        Annotation::new(5..0, Severity::Info, "h", "t"),
        Err(Error::InvalidRange(5, 0))
    );
    assert_eq!(
        Annotation::warning(3..2, None, None),
        Err(Error::InvalidRange(3, 2))
    );
    assert_eq!(
        Annotation::error(usize::MAX..0, None, None),
        Err(Error::InvalidRange(usize::MAX, 0))
    );
    assert_eq!(Annotation::error(7..9, None, None).unwrap().severity, Severity::Error);
}

#[test]
fn annotation_text_conversions() {
    assert_eq!("x".into_option_string(), Some(String::from("x")));
    assert_eq!(String::from("y").into_option_string(), Some(String::from("y")));
    assert_eq!(Some(String::from("z")).into_option_string(), Some(String::from("z")));
    assert_eq!(None::<String>.into_option_string(), None);
}
