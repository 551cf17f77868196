use show_my_errors::{Annotation, AnnotationList, Error};

fn starts_and_contents(list: &AnnotationList) -> Vec<(usize, String)> {
    list.annotated_lines()
        .iter()
        .map(|line| (line.start(), line.content().to_string()))
        .collect()
}

#[test]
fn empty_text_is_one_empty_line() {
    let list = AnnotationList::new("f", "");
    assert_eq!(starts_and_contents(&list), vec![(0, String::new())]);
}

#[test]
fn trailing_newline_gives_a_last_empty_line() {
    let list = AnnotationList::new("f", "ab\n");
    assert_eq!(
        starts_and_contents(&list),
        vec![(0, String::from("ab")), (3, String::new())]
    );
}

#[test]
fn text_without_newline_is_one_line() {
    let list = AnnotationList::new("f", "abc");
    assert_eq!(starts_and_contents(&list), vec![(0, String::from("abc"))]);
}

#[test]
fn carriage_return_stays_in_the_content() {
    let list = AnnotationList::new("f", "a\r\nb");
    assert_eq!(
        starts_and_contents(&list),
        vec![(0, String::from("a\r")), (3, String::from("b"))]
    );
}

#[test]
fn offsets_are_bytes_not_characters() {
    let list = AnnotationList::new("f", "\u{1f600}\n\u{e9}\nz");
    assert_eq!(
        starts_and_contents(&list),
        vec![
            (0, String::from("\u{1f600}")),
            (5, String::from("\u{e9}")),
            (8, String::from("z"))
        ]
    );
}

#[test]
fn start_on_a_newline_or_behind_the_text_is_rejected() {
    let mut list = AnnotationList::new("f", "ab\ncd");
    assert_eq!(
        list.info(2..2, None, None).unwrap_err(),
        Error::AfterStringEnd(2, 2)
    );
    assert_eq!(
        list.info(5..5, None, None).unwrap_err(),
        Error::AfterStringEnd(5, 5)
    );
    assert_eq!(
        list.info(5..6, None, None).unwrap_err(),
        Error::AfterStringEnd(5, 6)
    );
    let mut empty = AnnotationList::new("f", "");
    assert_eq!(
        empty.error(0..0, None, None).unwrap_err(),
        Error::AfterStringEnd(0, 0)
    );
    let mut ends_with_newline = AnnotationList::new("f", "ab\n");
    assert_eq!(
        ends_with_newline.warning(3..3, None, None).unwrap_err(),
        Error::AfterStringEnd(3, 3)
    );
}

#[test]
fn length_is_held_against_the_line_length() {
    let mut list = AnnotationList::new("f", "ab\ncdef");
    assert_eq!(
        list.info(0..3, None, None).unwrap_err(),
        Error::MultilineRange(0, 3)
    );
    // Reaches past the end of its line, but is no longer than the line.
    assert!(list.info(1..3, None, None).is_ok());
    assert!(list.info(0..2, None, None).is_ok());
    assert!(list.info(6..10, None, None).is_ok());
    assert_eq!(
        list.info(3..8, None, None).unwrap_err(),
        Error::MultilineRange(3, 8)
    );
    assert_eq!(list.annotated_lines()[0].annotations().len(), 2);
    assert_eq!(list.annotated_lines()[1].annotations().len(), 1);
}

#[test]
fn invalid_range_comes_before_any_lookup() {
    let mut list = AnnotationList::new("f", "ab");
    assert_eq!(
        list.info(9..1, None, None).unwrap_err(),
        Error::InvalidRange(9, 1)
    );
    assert_eq!(
        list.warning(1..0, None, None).unwrap_err(),
        Error::InvalidRange(1, 0)
    );
    assert_eq!(
        list.error(2..1, None, None).unwrap_err(),
        Error::InvalidRange(2, 1)
    );
}

#[test]
fn rejected_annotation_leaves_the_list_as_it_was() {
    let mut list = AnnotationList::new("f", "ab\ncd");
    list.info(0..1, "kept", None).unwrap();
    let mut same = AnnotationList::new("f", "ab\ncd");
    same.info(0..1, "kept", None).unwrap();
    assert!(list.add(Annotation::info(0..5, None, None).unwrap()).is_err());
    assert!(list.add(Annotation::info(2..2, None, None).unwrap()).is_err());
    assert!(list.info(3..1, None, None).is_err());
    assert_eq!(list, same);
}

#[test]
fn annotation_goes_to_the_line_that_owns_its_start() {
    let mut list = AnnotationList::new("test.txt", "\nstring\nwith\nmany\n\nnewlines\n\n");
    list.info(1..3, None, None).unwrap();
    list.warning(13..17, None, None).unwrap();
    list.error(19..20, None, None).unwrap();
    list.error(14..16, None, None).unwrap();
    let owners: Vec<(usize, Vec<usize>)> = list
        .annotated_lines()
        .iter()
        .filter(|line| !line.annotations().is_empty())
        .map(|line| {
            (
                line.start(),
                line.annotations().iter().map(|a| a.range().start).collect(),
            )
        })
        .collect();
    assert_eq!(owners, vec![(1, vec![1]), (13, vec![13, 14]), (19, vec![19])]);
}
