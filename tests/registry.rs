use eclean::{EntryKind, Plugin, PluginSet, Version};

fn plugin(path: &str, name: &str, version: Version) -> Plugin {
    Plugin { path: String::from(path), name: String::from(name), version }
}

fn versions(group: &Vec<Plugin>) -> Vec<String> {
    group.iter().map(|p| p.version.to_string()).collect()
}

#[test]
fn three_versions_one_group() {
    let set = PluginSet::new(vec![
        plugin("X_2.0.0", "X", Version::parse("2.0.0").unwrap()),
        plugin("X_1.0.0.b", "X", Version::parse("1.0.0.b").unwrap()),
        plugin("X_1.0.0", "X", Version::parse("1.0.0").unwrap()),
    ]);
    let dups = set.find_duplicates();
    assert_eq!(dups.len(), 1);
    assert_eq!(versions(dups[0]), vec!["1.0.0", "1.0.0.b", "2.0.0"]);
    assert_eq!(PluginSet::kept(dups[0]).version.to_string(), "2.0.0");
    let gone: Vec<String> = PluginSet::discarded(&dups).iter().map(|p| p.version.to_string()).collect();
    assert_eq!(gone, vec!["1.0.0", "1.0.0.b"]);
}

#[test]
fn no_duplicates_when_names_differ() {
    let set = PluginSet::new(vec![
        plugin("a", "a", Version::new(1, 0, 0, None)),
        plugin("b", "b", Version::new(1, 0, 0, None)),
        plugin("c", "c", Version::new(2, 0, 0, None)),
    ]);
    assert!(set.find_duplicates().is_empty());
    assert!(PluginSet::discarded(&set.find_duplicates()).is_empty());
}

#[test]
fn empty_listing_has_no_duplicates() {
    let set = PluginSet::new(Vec::new());
    assert!(set.find_duplicates().is_empty());
}

#[test]
fn equal_versions_keep_their_order() {
    let set = PluginSet::new(vec![
        plugin("first", "y", Version::new(1, 0, 0, None)),
        plugin("second", "y", Version::new(1, 0, 7, None)),
    ]);
    let dups = set.find_duplicates();
    assert_eq!(dups.len(), 1);
    assert_eq!(dups[0][0].path, "first");
    assert_eq!(PluginSet::kept(dups[0]).path, "second");
}

#[test]
fn groups_come_in_first_seen_order() {
    let set = PluginSet::new(vec![
        plugin("b2", "b", Version::new(2, 0, 0, None)),
        plugin("a1", "a", Version::new(1, 0, 0, None)),
        plugin("s", "single", Version::new(1, 0, 0, None)),
        plugin("a3", "a", Version::new(3, 0, 0, None)),
        plugin("b1", "b", Version::new(1, 0, 0, None)),
        plugin("a2", "a", Version::new(2, 0, 0, None)),
    ]);
    let dups = set.find_duplicates();
    assert_eq!(dups.len(), 2);
    assert_eq!(dups[0][0].name, "b");
    assert_eq!(versions(dups[0]), vec!["1.0.0", "2.0.0"]);
    assert_eq!(versions(dups[1]), vec!["1.0.0", "2.0.0", "3.0.0"]);
    let gone: Vec<&str> = PluginSet::discarded(&dups).iter().map(|p| p.path.as_str()).collect();
    assert_eq!(gone, vec!["b1", "a1", "a2"]);
}

#[test]
fn unversioned_entry_sorts_first() {
    let set = PluginSet::new(vec![
        Plugin::new(String::from("t_1.0.0"), Some("t_1.0.0"), EntryKind::Directory).unwrap(),
        Plugin::new(String::from("t"), Some("t"), EntryKind::Directory).unwrap(),
    ]);
    let dups = set.find_duplicates();
    assert_eq!(dups[0][0].path, "t");
    assert_eq!(PluginSet::kept(dups[0]).path, "t_1.0.0");
}

#[test]
fn three_versions_any_order() {
    let orders = [[0, 1, 2], [0, 2, 1], [1, 0, 2], [1, 2, 0], [2, 0, 1], [2, 1, 0]];
    let names = ["X_1.0.0", "X_1.0.0.b", "X_2.0.0"];
    for order in orders {
        let plugins = order
            .iter()
            .map(|&i| Plugin::new(String::from(names[i]), Some(names[i]), EntryKind::Directory).unwrap())
            .collect();
        let set = PluginSet::new(plugins);
        let dups = set.find_duplicates();
        assert_eq!(dups.len(), 1);
        assert_eq!(versions(dups[0]), vec!["1.0.0", "1.0.0.b", "2.0.0"]);
        assert_eq!(PluginSet::kept(dups[0]).path, "X_2.0.0");
        let gone: Vec<&str> = PluginSet::discarded(&dups).iter().map(|p| p.path.as_str()).collect();
        assert_eq!(gone, vec!["X_1.0.0", "X_1.0.0.b"]);
    }
}
