use eclean::{is_confirmation, Config, ConfigError, Step};

fn config(test: bool, force: bool) -> Config {
    Config::new(String::from("root"), String::from("bak"), false, test, force, true, true).unwrap()
}

#[test]
fn config_keeps_settings() {
    let c = Config::new(String::from("root"), String::from("bak"), true, false, true, true, true).unwrap();
    assert_eq!(c.dir, "root");
    assert_eq!(c.backup, "bak");
    assert!(c.verbose && !c.test && c.force);
}

#[test]
fn config_rejects_missing_dirs() {
    match Config::new(String::from("root"), String::from("bak"), false, false, false, false, true) {
        Err(ConfigError::MissingDir(d)) => assert_eq!(d, "root"),
        other => panic!("unexpected {:?}", other),
    }
    match Config::new(String::from("root"), String::from("bak"), false, false, false, true, false) {
        Err(ConfigError::MissingBackup(b)) => assert_eq!(b, "bak"),
        other => panic!("unexpected {:?}", other),
    }
}

#[test]
fn steps_after_grouping() {
    assert_eq!(config(false, false).first_step(0), Step::NoDuplicates);
    assert_eq!(config(true, true).first_step(2), Step::ReportOnly);
    assert_eq!(config(false, true).first_step(2), Step::Relocate);
    assert_eq!(config(false, false).first_step(1), Step::Ask);
    assert_eq!(Step::after_answer(true), Step::Relocate);
    assert_eq!(Step::after_answer(false), Step::ReportOnly);
}

#[test]
fn confirmation_answers() {
    for yes in ["Y", "y", "YES", "yes", "Yes", "yEs", " y\n", "\tYES \r\n", "\u{3000}y\u{a0}"] {
        assert!(is_confirmation(yes), "{:?}", yes);
    }
    for no in ["", "n", "no", "ye", "yess", "y e s", "\n", "Y!", "\u{fd}"] {
        assert!(!is_confirmation(no), "{:?}", no);
    }
}
