use show_my_errors::{AnnotatedLine, Annotation, AnnotationList, Error};

fn assert_start_content<'a>(line: &AnnotatedLine<'a>, start: usize, content: &'a str) {
    assert_eq!(line.start(), start);
    assert_eq!(line.content(), content);
}

fn create_list() -> AnnotationList<'static> {
    AnnotationList::new("test.txt", "\nstring\nwith\nmany\n\nnewlines\n\n")
}

#[test]
fn test_new_annotation_list() {
    let annotation_list = create_list();
    let mut lines = annotation_list.annotated_lines().iter();
    assert_start_content(lines.next().unwrap(), 0, "");
    assert_start_content(lines.next().unwrap(), 1, "string");
    assert_start_content(lines.next().unwrap(), 8, "with");
    assert_start_content(lines.next().unwrap(), 13, "many");
    assert_start_content(lines.next().unwrap(), 18, "");
    assert_start_content(lines.next().unwrap(), 19, "newlines");
    assert_start_content(lines.next().unwrap(), 28, "");
    assert_start_content(lines.next().unwrap(), 29, "");
    assert!(lines.next().is_none());
}

#[test]
fn test_add() -> Result<(), Error> {
    let ann1 = Annotation::info(1..3, "test1", "ann1")?;
    let ann2 = Annotation::warning(13..17, "test2", "ann2")?;
    let ann3 = Annotation::error(19..20, "test3", None)?;
    let ann4 = Annotation::error(14..16, "test4", "ann4")?;

    let mut list = create_list();
    list.add(ann1.clone())?
        .add(ann2.clone())?
        .add(ann3.clone())?
        .add(ann4.clone())?;

    let mut other_option = create_list();
    other_option
        .info(1..3, "test1", "ann1")?
        .warning(13..17, "test2", "ann2")?
        .error(19..20, "test3", None)?
        .error(14..16, "test4", "ann4")?;
    assert_eq!(list, other_option);

    for (idx, line) in list.annotated_lines().iter().enumerate() {
        match idx {
            1 => assert_eq!(line.annotations(), &[ann1.clone()]),
            3 => assert_eq!(line.annotations(), &[ann2.clone(), ann4.clone()]),
            5 => assert_eq!(line.annotations(), &[ann3.clone()]),
            _ => assert_eq!(line.annotations(), &[]),
        }
    }
    Ok(())
}

#[test]
fn test_invalid_adds() -> Result<(), Error> {
    let mut list = create_list();
    assert_eq!(
        list.add(Annotation::info(1..10, "test", "ann")?)
            .unwrap_err(),
        Error::MultilineRange(1, 10)
    );
    assert_eq!(
        list.add(Annotation::info(1000..1001, "test", "ann")?)
            .unwrap_err(),
        Error::AfterStringEnd(1000, 1001)
    );
    assert_eq!(
        Annotation::info(10..9, "test", "ann").unwrap_err(),
        Error::InvalidRange(10, 9)
    );
    Ok(())
}

#[test]
fn test_to_string() -> Result<(), Error> {
    let mut list = create_list();
    list.info(1..3, "test1", "ann1")?
        .warning(13..17, "test2", "ann2")?
        .error(19..20, "test3", None)?
        .error(14..16, "test4", "ann4")?
        .error(14..16, None, "ann5")?;
    let result = r#"info: test1
  --> test.txt:2:1
   |
 2 | string
   | ^^ ann1

warning: test2
  --> test.txt:4:1
   |
 4 | many
   | ^^^^ ann2

error: test4
  --> test.txt:4:2
   |
 4 | many
   |  ^^ ann4

error:
  --> test.txt:4:2
   |
 4 | many
   |  ^^ ann5

error: test3
  --> test.txt:6:1
   |
 6 | newlines
   | ^
"#;
    assert_eq!(list.to_string().unwrap(), result);
    Ok(())
}
