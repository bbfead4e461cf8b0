use path_categories::split_line;

fn pair(category: &str, instance: &str) -> Option<(String, String)> {
    Some((category.to_string(), instance.to_string()))
}

#[test]
fn split_line_takes_the_two_directories_above_the_leaf() {
    assert_eq!(split_line("root/catA/inst1/img.png"), pair("catA", "inst1"));
    assert_eq!(split_line("a/b/c/d/e/f"), pair("d", "e"));
}

#[test]
fn split_line_accepts_exactly_three_segments() {
    assert_eq!(split_line("cat/inst/leaf"), pair("cat", "inst"));
}

#[test]
fn split_line_rejects_fewer_than_three_segments() {
    assert_eq!(split_line("inst/leaf"), None);
    assert_eq!(split_line("leaf"), None);
    assert_eq!(split_line(""), None);
    assert_eq!(split_line("/"), None);
    assert_eq!(split_line("///"), None);
    assert_eq!(split_line("/inst/leaf"), None);
    assert_eq!(split_line("inst/leaf/"), None);
}

#[test]
fn split_line_ignores_a_leading_delimiter() {
    assert_eq!(split_line("/cat/inst/leaf"), pair("cat", "inst"));
}

#[test]
fn split_line_ignores_a_trailing_delimiter() {
    assert_eq!(split_line("cat/inst/dir/"), pair("cat", "inst"));
}

#[test]
fn split_line_takes_repeated_delimiters_as_one() {
    assert_eq!(split_line("root//catA///inst1//img.png"), pair("catA", "inst1"));
}

#[test]
fn split_line_reads_dots_as_names() {
    assert_eq!(split_line("./inst/leaf"), pair(".", "inst"));
    assert_eq!(split_line("cat/../leaf"), pair("cat", ".."));
}

#[test]
fn split_line_counts_characters_not_bytes() {
    assert_eq!(
        split_line("données/catégorie/实例/файл.png"),
        pair("catégorie", "实例")
    );
}

#[test]
fn split_line_knows_one_delimiter_only() {
    assert_eq!(split_line("cat\\inst\\leaf"), None);
    assert_eq!(split_line("x/cat\\a/inst b/leaf"), pair("cat\\a", "inst b"));
}

#[test]
fn split_line_keeps_long_names_whole() {
    let category = "c".repeat(300);
    let instance = "i".repeat(200);
    let line = format!("{}/{}/{}", category, instance, "leaf");
    assert_eq!(split_line(&line), Some((category, instance)));
}
