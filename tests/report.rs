use neoglot::highlight;

#[test]
fn test_highlight() {
    let txt = "Hello W0rld !";
    let highlighted = highlight(txt, 6, 1);

    assert_eq!(&highlighted, "Hello W0rld !\n      ^")
}

#[test]
fn highlight_from_first_column() {
    assert_eq!(highlight("abc", 0, 3), "abc\n^^^");
    assert_eq!(highlight("", 2, 0), "\n  ");
}
