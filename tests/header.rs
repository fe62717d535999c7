use fun_with_mazes::read_xy;

fn parse(s: &str) -> Option<(usize, usize)> {
    read_xy(&s.as_bytes().to_vec())
}

#[test]
fn header_plain() {
    assert_eq!(parse("5,3"), Some((5, 3)));
    assert_eq!(parse("120,47\n"), Some((120, 47)));
}

#[test]
fn header_surrounding_whitespace() {
    assert_eq!(parse("  7,9 \r\n"), Some((7, 9)));
    assert_eq!(parse("\t10,2"), Some((10, 2)));
}

#[test]
fn header_malformed() {
    assert_eq!(parse(""), None);
    assert_eq!(parse("5"), None);
    assert_eq!(parse("5,"), None);
    assert_eq!(parse(",3"), None);
    assert_eq!(parse("5;3"), None);
    assert_eq!(parse("5,3,1"), None);
    assert_eq!(parse("a,3"), None);
    assert_eq!(parse("5 ,3"), None);
}

#[test]
fn header_overflow() {
    assert_eq!(parse("99999999999999999999999,3"), None);
    assert_eq!(
        parse(&format!("{},1", usize::MAX)),
        Some((usize::MAX, 1))
    );
}
