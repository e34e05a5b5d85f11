use eclean::{EntryKind, Plugin, PluginError, TagPattern, Version, VersionError};

fn entry(name: &str, is_file: bool) -> Plugin {
    let kind = if is_file { EntryKind::File } else { EntryKind::Directory };
    Plugin::new(format!("plugins/{}", name), Some(name), kind).unwrap()
}

#[test]
fn test_parse_plugin_dir() {
    let filename = "javax.xml.rpc_1.1.0.v201209140446";
    let plugin = entry(filename, false);
    assert_eq!("javax.xml.rpc", &plugin.name);
    assert_eq!(Version::parse("1.1.0.v201209140446").unwrap(), plugin.version);
    assert_eq!(plugin.version.to_string(), "1.1.0.v201209140446");
}

#[test]
fn test_parse_plugin_file() {
    let filename = "org.apache.commons.codec_1.13.0.v20200108-0001.jar";
    let plugin = entry(filename, true);
    assert_eq!("org.apache.commons.codec", &plugin.name);
    assert_eq!(Version::parse("1.13.0.v20200108-0001").unwrap(), plugin.version);
    assert_eq!(plugin.version.to_string(), "1.13.0.v20200108-0001");
}

#[test]
fn test_parse_plugin_dual() {
    let filename = "org.w3c.dom.events_3.0.0.draft20060413_v201105210656.jar";
    let plugin = entry(filename, true);
    assert_eq!("org.w3c.dom.events", &plugin.name);
    assert_eq!(Version::parse("3.0.0.draft20060413_v201105210656").unwrap(), plugin.version);
    assert_eq!(plugin.version.build.as_deref(), Some("draft20060413_v201105210656"));
}

#[test]
fn test_parse_plugin_err01() {
    let filename = "org.eclipse.cdt.core.win32.x86_64_6.0.0.202008310002";
    let plugin = entry(filename, false);
    assert_eq!("org.eclipse.cdt.core.win32.x86_64", &plugin.name);
    assert_eq!(Version::parse("6.0.0.202008310002").unwrap(), plugin.version);
    assert_eq!(plugin.version.to_string(), "6.0.0.202008310002");
}

#[test]
fn entry_keeps_its_path() {
    let plugin = Plugin::new(String::from("/opt/x/plugins/a_1.2.3"), Some("a_1.2.3"), EntryKind::Directory).unwrap();
    assert_eq!(plugin.path, "/opt/x/plugins/a_1.2.3");
}

#[test]
fn entry_without_version_is_zero() {
    let plugin = entry("org.example.tool", false);
    assert_eq!(plugin.name, "org.example.tool");
    assert_eq!(plugin.version.to_string(), "0.0.0");
    let plugin = entry("readme_1.2.txt", true);
    assert_eq!(plugin.name, "readme_1.2");
    assert_eq!(plugin.version.to_string(), "0.0.0");
}

#[test]
fn directory_keeps_extension_like_suffix() {
    let plugin = entry("a.b_1.2.3.jar", false);
    assert_eq!(plugin.name, "a.b");
    assert_eq!(plugin.version.build.as_deref(), Some("jar"));
}

#[test]
fn file_stem_rules() {
    let plugin = entry(".hidden", true);
    assert_eq!(plugin.name, ".hidden");
    let plugin = entry("x_1.2.3.", true);
    assert_eq!(plugin.name, "x");
    assert_eq!(plugin.version.to_string(), "1.2.3");
}

#[test]
fn entry_without_name_is_unreadable() {
    match Plugin::new(String::from("plugins/.."), None, EntryKind::Directory) {
        Err(PluginError::UnreadableEntryName(p)) => assert_eq!(p, "plugins/.."),
        other => panic!("unexpected {:?}", other),
    }
}

#[test]
fn entry_with_overflowing_version_fails() {
    let name = format!("a_{}0.1.1", usize::MAX);
    match Plugin::new(String::from("p"), Some(&name), EntryKind::Directory) {
        Err(PluginError::UnparsablePluginVersion { path, cause: VersionError::InvalidVersionFormat(t) }) => {
            assert_eq!(path, "p");
            assert_eq!(t, format!("{}0", usize::MAX));
        }
        other => panic!("unexpected {:?}", other),
    }
}

#[test]
fn with_pattern_matches_new() {
    let pattern = TagPattern::new().unwrap();
    let plugin = Plugin::with_pattern(&pattern, String::from("q"), Some("lib_2.0.1"), EntryKind::Directory).unwrap();
    assert_eq!(plugin.name, "lib");
    assert_eq!(plugin.version.to_string(), "2.0.1");
}

#[test]
fn first_tag_wins() {
    let plugin = entry("a_1.2_3.4.5.b_6.7.8", false);
    assert_eq!(plugin.name, "a_1.2");
    assert_eq!(plugin.version.to_string(), "3.4.5.b_6.7.8");
    match Plugin::new(String::from("p"), Some("a_1.2_3.4.5_6.7.8"), EntryKind::Directory) {
        Err(PluginError::UnparsablePluginVersion { cause: VersionError::InvalidVersionFormat(t), .. }) => {
            assert_eq!(t, "5_6")
        }
        other => panic!("unexpected {:?}", other),
    }
}

#[test]
fn vanished_entry_is_unreadable() {
    match Plugin::new(String::from("plugins/gone_1.0.0"), Some("gone_1.0.0"), EntryKind::Other) {
        Err(PluginError::UnreadableEntryName(p)) => assert_eq!(p, "plugins/gone_1.0.0"),
        other => panic!("unexpected {:?}", other),
    }
}

#[test]
fn non_ascii_digits_are_no_version() {
    let plugin = entry("a_\u{661}.\u{662}.\u{663}", false);
    assert_eq!(plugin.name, "a_\u{661}.\u{662}.\u{663}");
    assert_eq!(plugin.version.to_string(), "0.0.0");
}

#[test]
fn plugin_renders_name_and_version() {
    assert_eq!(entry("javax.xml.rpc_1.1.0.v201209140446", false).to_string(), "javax.xml.rpc(1.1.0.v201209140446)");
    assert_eq!(entry("plain", false).to_string(), "plain(0.0.0)");
}
