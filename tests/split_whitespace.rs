use memori::split_whitespace_indices;

#[test]
fn space() {
    let space = " ";
    let mut s = split_whitespace_indices(space);
    assert_eq!(Some((0, "")), s.next());
    assert_eq!(Some((1, "")), s.next());
    assert_eq!(None, s.next());
}

#[test]
fn single() {
    let single = "derp";
    let mut s = split_whitespace_indices(single);
    assert_eq!(Some((0, "derp")), s.next());
    assert_eq!(None, s.next());
}

#[test]
fn trailing() {
    let trailing = "hello ";
    let mut s = split_whitespace_indices(trailing);
    assert_eq!(Some((0, "hello")), s.next());
    assert_eq!(Some((6, "")), s.next());
    assert_eq!(None, s.next());
}

#[test]
fn leading() {
    let leading = " hello";
    let mut s = split_whitespace_indices(leading);
    assert_eq!(Some((0, "")), s.next());
    assert_eq!(Some((1, "hello")), s.next());
    assert_eq!(None, s.next());
}

#[test]
fn both() {
    let both = " hello ";
    let mut s = split_whitespace_indices(both);
    assert_eq!(Some((0, "")), s.next());
    assert_eq!(Some((1, "hello")), s.next());
    assert_eq!(Some((7, "")), s.next());
    assert_eq!(None, s.next());
}

#[test]
fn two() {
    let two = "hello world";
    let mut s = split_whitespace_indices(two);
    assert_eq!(Some((0, "hello")), s.next());
    assert_eq!(Some((6, "world")), s.next());
    assert_eq!(None, s.next());
}

#[test]
fn multiple() {
    let multiple = "  hello   world    ";
    let mut s = split_whitespace_indices(multiple);
    assert_eq!(Some((0, "")), s.next());
    assert_eq!(Some((2, "hello")), s.next());
    assert_eq!(Some((10, "world")), s.next());
    assert_eq!(Some((19, "")), s.next());
    assert_eq!(None, s.next());
}

#[test]
fn empty_has_no_pieces() {
    let mut s = split_whitespace_indices("");
    assert_eq!(None, s.next());
    assert_eq!(None, s.next());
}

#[test]
fn offsets_count_bytes() {
    let mut s = split_whitespace_indices("가 나");
    assert_eq!(Some((0, "가")), s.next());
    assert_eq!(Some((4, "나")), s.next());
    assert_eq!(None, s.next());
}
