use path_categories::CategoryMap;

fn text(s: &str) -> String {
    s.to_string()
}

fn sorted(mut texts: Vec<String>) -> Vec<String> {
    texts.sort();
    texts
}

#[test]
fn new_map_is_empty() {
    let map = CategoryMap::new();
    assert!(map.is_empty());
    assert_eq!(map.len(), 0);
    assert!(map.categories().is_empty());
    assert!(!map.contains_category("cat"));
    assert!(!map.contains("cat", "inst"));
    assert_eq!(map.instance_count("cat"), 0);
    assert!(map.instances("cat").is_empty());
}

#[test]
fn default_map_is_empty() {
    let map = CategoryMap::default();
    assert!(map.is_empty());
    assert_eq!(map.len(), 0);
}

#[test]
fn insert_says_whether_the_pair_was_new() {
    let mut map = CategoryMap::new();
    assert!(map.insert(text("cat"), text("a")));
    assert!(!map.insert(text("cat"), text("a")));
    assert!(map.insert(text("cat"), text("b")));
    assert!(map.insert(text("dog"), text("a")));
    assert!(!map.insert(text("dog"), text("a")));
}

#[test]
fn insert_keeps_one_key_per_category() {
    let mut map = CategoryMap::new();
    map.insert(text("cat"), text("a"));
    map.insert(text("cat"), text("b"));
    map.insert(text("cat"), text("a"));
    assert!(!map.is_empty());
    assert_eq!(map.len(), 1);
    assert_eq!(map.categories(), vec![text("cat")]);
    assert_eq!(map.instance_count("cat"), 2);
    assert_eq!(sorted(map.instances("cat")), vec![text("a"), text("b")]);
}

#[test]
fn lookups_tell_categories_and_instances_apart() {
    let mut map = CategoryMap::new();
    map.insert(text("cat"), text("a"));
    map.insert(text("dog"), text("b"));
    assert!(map.contains_category("cat"));
    assert!(map.contains_category("dog"));
    assert!(!map.contains_category("a"));
    assert!(!map.contains_category("ca"));
    assert!(!map.contains_category(""));
    assert!(map.contains("cat", "a"));
    assert!(map.contains("dog", "b"));
    assert!(!map.contains("cat", "b"));
    assert!(!map.contains("dog", "a"));
    assert!(!map.contains("a", "cat"));
    assert_eq!(map.instance_count("cat"), 1);
    assert_eq!(map.instance_count("dog"), 1);
    assert_eq!(map.instance_count("bird"), 0);
}

#[test]
fn categories_and_instances_come_each_once() {
    let mut map = CategoryMap::new();
    map.insert(text("z"), text("2"));
    map.insert(text("a"), text("9"));
    map.insert(text("z"), text("1"));
    map.insert(text("m"), text("5"));
    map.insert(text("a"), text("9"));
    assert_eq!(map.len(), 3);
    assert_eq!(sorted(map.categories()), vec![text("a"), text("m"), text("z")]);
    assert_eq!(sorted(map.instances("z")), vec![text("1"), text("2")]);
    assert_eq!(map.instances("a"), vec![text("9")]);
    assert_eq!(map.instances("m"), vec![text("5")]);
}

#[test]
fn every_category_has_an_instance() {
    let mut map = CategoryMap::new();
    map.insert(text("x"), text("1"));
    map.insert(text("y"), text("1"));
    map.insert(text("y"), text("2"));
    for category in map.categories() {
        assert!(map.instance_count(&category) > 0);
    }
}

#[test]
fn add_line_records_a_well_formed_line() {
    let mut map = CategoryMap::new();
    assert!(map.add_line("root/catA/inst1/img.png"));
    assert!(map.contains("catA", "inst1"));
    assert_eq!(map.len(), 1);
}

#[test]
fn add_line_leaves_the_map_alone_on_a_short_line() {
    let mut map = CategoryMap::new();
    map.add_line("root/catA/inst1/img.png");
    assert!(!map.add_line("inst1/img.png"));
    assert!(!map.add_line(""));
    assert_eq!(map.len(), 1);
    assert_eq!(map.categories(), vec![text("catA")]);
    assert_eq!(map.instances("catA"), vec![text("inst1")]);
}
