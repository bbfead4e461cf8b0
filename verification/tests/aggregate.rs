use path_categories::{
    calc_categories, calc_categories_from_reads, calc_categories_with, try_calc_categories,
    CategoryMap, MalformedPath, Strictness,
};

fn lines(texts: &[&str]) -> Vec<String> {
    texts.iter().map(|t| t.to_string()).collect()
}

fn sorted(mut texts: Vec<String>) -> Vec<String> {
    texts.sort();
    texts
}

fn content(map: &CategoryMap) -> Vec<(String, Vec<String>)> {
    sorted(map.categories())
        .into_iter()
        .map(|c| {
            let members = sorted(map.instances(&c));
            (c, members)
        })
        .collect()
}

fn expected(groups: &[(&str, &[&str])]) -> Vec<(String, Vec<String>)> {
    groups
        .iter()
        .map(|(c, members)| (c.to_string(), lines(members)))
        .collect()
}

#[test]
fn three_lines_two_categories() {
    let map = calc_categories(&lines(&[
        "root/catA/inst1/img.png",
        "root/catA/inst1/mask.png",
        "root/catB/inst2/img.png",
    ]));
    assert_eq!(
        content(&map),
        expected(&[("catA", &["inst1"]), ("catB", &["inst2"])])
    );
    assert_eq!(map.len(), 2);
    assert_eq!(map.instance_count("catA"), 1);
    assert_eq!(map.instance_count("catB"), 1);
}

#[test]
fn a_line_is_grouped_under_its_category() {
    let map = calc_categories(&lines(&["some/where/cat/inst/leaf"]));
    assert!(map.contains_category("cat"));
    assert!(map.contains("cat", "inst"));
    assert!(!map.contains_category("where"));
    assert!(!map.contains_category("inst"));
    assert!(!map.contains("cat", "leaf"));
    assert_eq!(content(&map), expected(&[("cat", &["inst"])]));
}

#[test]
fn a_repeated_pair_counts_once() {
    let map = calc_categories(&lines(&["x/cat/inst/leafA", "y/cat/inst/leafB"]));
    assert_eq!(map.len(), 1);
    assert_eq!(map.instance_count("cat"), 1);
    assert_eq!(content(&map), expected(&[("cat", &["inst"])]));
}

#[test]
fn instances_of_one_category_are_collected() {
    let map = calc_categories(&lines(&["x/cat/inst1/leafA", "x/cat/inst2/leafB"]));
    assert_eq!(map.len(), 1);
    assert_eq!(map.instance_count("cat"), 2);
    assert_eq!(content(&map), expected(&[("cat", &["inst1", "inst2"])]));
}

#[test]
fn categories_are_kept_apart() {
    let map = calc_categories(&lines(&["x/catA/inst/leaf", "x/catB/inst/leaf"]));
    assert_eq!(map.len(), 2);
    assert!(map.contains("catA", "inst"));
    assert!(map.contains("catB", "inst"));
    assert_eq!(
        content(&map),
        expected(&[("catA", &["inst"]), ("catB", &["inst"])])
    );
}

#[test]
fn no_lines_give_the_empty_map() {
    let map = calc_categories(&Vec::new());
    assert!(map.is_empty());
    assert_eq!(map.len(), 0);
    assert!(map.categories().is_empty());
}

#[test]
fn the_order_of_the_lines_does_not_change_the_content() {
    let a = [
        "r/catA/i1/f",
        "r/catB/i2/f",
        "r/catA/i3/f",
        "r/catC/i1/f",
        "r/catB/i2/g",
    ];
    let b = [a[4], a[2], a[0], a[3], a[1]];
    let c = [a[1], a[3], a[4], a[0], a[2]];
    let first = content(&calc_categories(&lines(&a)));
    assert_eq!(
        first,
        expected(&[
            ("catA", &["i1", "i3"]),
            ("catB", &["i2"]),
            ("catC", &["i1"])
        ])
    );
    assert_eq!(content(&calc_categories(&lines(&b))), first);
    assert_eq!(content(&calc_categories(&lines(&c))), first);
}

#[test]
fn short_lines_are_left_out() {
    let map = calc_categories(&lines(&[
        "img.png",
        "r/catA/i1/f",
        "",
        "i1/f",
        "r/catB/i2/f",
        "/",
    ]));
    assert_eq!(
        content(&map),
        expected(&[("catA", &["i1"]), ("catB", &["i2"])])
    );
}

#[test]
fn permissive_aggregation_never_fails() {
    let result = calc_categories_with(&lines(&["i1/f", "r/catA/i1/f"]), Strictness::Permissive);
    match result {
        Ok(map) => assert_eq!(content(&map), expected(&[("catA", &["i1"])])),
        Err(e) => panic!("line {} refused", e.line),
    }
}

#[test]
fn strict_aggregation_names_the_first_short_line() {
    let input = lines(&["r/catA/i1/f", "r/catB/i2/f", "i1/f", "r/catC/i3/f", "f"]);
    match calc_categories_with(&input, Strictness::Strict) {
        Ok(_) => panic!("a short line was accepted"),
        Err(e) => assert_eq!(e, MalformedPath { line: 2 }),
    }
    match try_calc_categories(&input) {
        Ok(_) => panic!("a short line was accepted"),
        Err(e) => assert_eq!(e.line, 2),
    }
    match try_calc_categories(&lines(&[""])) {
        Ok(_) => panic!("an empty line was accepted"),
        Err(e) => assert_eq!(e.line, 0),
    }
}

#[test]
fn strict_aggregation_accepts_well_formed_lines() {
    let input = lines(&["r/catA/i1/f", "r/catA/i2/f", "r/catB/i2/f"]);
    match try_calc_categories(&input) {
        Ok(map) => assert_eq!(
            content(&map),
            expected(&[("catA", &["i1", "i2"]), ("catB", &["i2"])])
        ),
        Err(e) => panic!("line {} refused", e.line),
    }
    match try_calc_categories(&Vec::new()) {
        Ok(map) => assert!(map.is_empty()),
        Err(e) => panic!("line {} refused", e.line),
    }
}

#[test]
fn strict_and_permissive_agree_on_well_formed_lines() {
    let input = lines(&["r/catA/i1/f", "r/catB/i2/f", "r/catA/i1/g"]);
    let permissive = calc_categories(&input);
    match calc_categories_with(&input, Strictness::Strict) {
        Ok(strict) => assert_eq!(content(&strict), content(&permissive)),
        Err(e) => panic!("line {} refused", e.line),
    }
}

#[test]
fn failed_readings_are_passed_over() {
    let reads = vec![
        Some("r/catA/i1/f".to_string()),
        None,
        Some("r/catA/i2/f".to_string()),
        None,
        Some("f".to_string()),
        Some("r/catB/i1/f".to_string()),
    ];
    let map = calc_categories_from_reads(&reads);
    assert_eq!(
        content(&map),
        expected(&[("catA", &["i1", "i2"]), ("catB", &["i1"])])
    );
}

#[test]
fn nothing_read_gives_the_empty_map() {
    assert!(calc_categories_from_reads(&Vec::new()).is_empty());
    assert!(calc_categories_from_reads(&vec![None, None]).is_empty());
}
