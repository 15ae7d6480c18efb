use stickermd::title::extract_title;

#[test]
fn test_extract_title_korean() {
    let content = "# 한글 제목 테스트입니다. 이 제목은 50자가 넘지 않지만 멀티바이트 처리를 테스트합니다.";
    let title = extract_title(content);
    assert_eq!(
        title,
        "한글 제목 테스트입니다. 이 제목은 50자가 넘지 않지만 멀티바이트 처리를 테스트합니다."
    );

    let long_content = "# ".to_string() + &"가".repeat(100);
    let title = extract_title(&long_content);
    assert_eq!(title.chars().count(), 53); // 50 chars + "..."
    assert!(title.ends_with("..."));
}

#[test]
fn heading_marks_and_whitespace_are_stripped() {
    assert_eq!(extract_title("# Hello"), "Hello");
    assert_eq!(extract_title("### Deep heading"), "Deep heading");
    assert_eq!(extract_title("#NoSpace"), "NoSpace");
    assert_eq!(extract_title("   padded   "), "padded");
    assert_eq!(extract_title("#\t tabbed title \t"), "tabbed title");
}

#[test]
fn empty_content_falls_back() {
    assert_eq!(extract_title(""), "Untitled Note");
    assert_eq!(extract_title("   "), "Untitled Note");
    assert_eq!(extract_title("####"), "Untitled Note");
    assert_eq!(extract_title("\nsecond line"), "Untitled Note");
}

#[test]
fn only_the_first_line_counts() {
    assert_eq!(extract_title("# Title\nbody text\nmore"), "Title");
    assert_eq!(extract_title("plain first line\r\nsecond"), "plain first line");
}

#[test]
fn hundred_codepoints_truncate_to_fifty_plus_ellipsis() {
    let long = "# ".to_string() + &"x".repeat(100);
    let title = extract_title(&long);
    assert_eq!(title.chars().count(), 53);
    let expected = "x".repeat(50) + "...";
    assert_eq!(title, expected);

    let exactly_fifty = "# ".to_string() + &"y".repeat(50);
    assert_eq!(extract_title(&exactly_fifty), "y".repeat(50));
}
