use walrust::config::{resolve_path, LineAction, PathKey, UserConfig};
use walrust::decimal::IntErrorKind;

fn fresh() -> UserConfig {
    UserConfig::default()
}

#[test]
fn default_values() {
    let c = fresh();
    assert_eq!(c.f_size(), 1000);
    assert_eq!(c.f_location(), "path/to/file");
    assert_eq!(c.conf_location(), "conf_Test.txt");
    assert_eq!(c.s_block_location(), 8000);
    assert_eq!(c.startpoint(), 10);
    assert_eq!(c.endpoint(), 1010);
}

#[test]
fn numeric_settings() {
    let mut c = fresh();
    let (skip, a) = c.apply_line(false, "f_size = 42");
    assert!(!skip);
    assert!(matches!(a, LineAction::Nothing));
    c.apply_line(false, "  startpoint=7 ");
    c.apply_line(false, "endpoint=\t99");
    c.apply_line(false, "s_block_location=12");
    assert_eq!(c.f_size(), 42);
    assert_eq!(c.startpoint(), 7);
    assert_eq!(c.endpoint(), 99);
    assert_eq!(c.s_block_location(), 12);
}

#[test]
fn later_setting_wins() {
    let mut c = fresh();
    c.apply_line(false, "f_size=1");
    c.apply_line(false, "f_size=2");
    assert_eq!(c.f_size(), 2);
}

#[test]
fn bad_number_keeps_value() {
    let mut c = fresh();
    let (_, a) = c.apply_line(false, "f_size=12kb");
    match a {
        LineAction::BadNumber { key, kind } => {
            assert_eq!(key, "f_size");
            assert_eq!(kind, IntErrorKind::InvalidDigit);
        }
        _ => panic!("expected a bad number"),
    }
    assert_eq!(c.f_size(), 1000);
    let (_, a) = c.apply_line(false, "endpoint=");
    assert!(matches!(a, LineAction::BadNumber { kind: IntErrorKind::Empty, .. }));
    let (_, a) = c.apply_line(false, "endpoint=340282366920938463463374607431768211456");
    assert!(matches!(a, LineAction::BadNumber { kind: IntErrorKind::PosOverflow, .. }));
    assert_eq!(c.endpoint(), 1010);
}

#[test]
fn comment_block_is_skipped() {
    let mut c = fresh();
    let (skip, _) = c.apply_line(false, "/* start");
    assert!(skip);
    let (skip, a) = c.apply_line(skip, "f_size=5");
    assert!(skip);
    assert!(matches!(a, LineAction::Nothing));
    let (skip, _) = c.apply_line(skip, "no separator here");
    assert!(skip);
    let (skip, _) = c.apply_line(skip, "end */");
    assert!(!skip);
    assert_eq!(c.f_size(), 1000);
    c.apply_line(skip, "f_size=6");
    assert_eq!(c.f_size(), 6);
}

#[test]
fn close_marker_first() {
    let mut c = fresh();
    let (skip, _) = c.apply_line(true, "*/ f_size=9 /*");
    assert!(!skip);
    assert_eq!(c.f_size(), 1000);
}

#[test]
fn empty_line_keeps_state() {
    let mut c = fresh();
    let (skip, a) = c.apply_line(true, "");
    assert!(skip);
    assert!(matches!(a, LineAction::Nothing));
    let (skip, _) = c.apply_line(false, "");
    assert!(!skip);
}

#[test]
fn missing_separator() {
    let mut c = fresh();
    let (_, a) = c.apply_line(false, "   ");
    assert!(matches!(a, LineAction::MissingSeparator));
    let (_, a) = c.apply_line(false, "f_size 5");
    assert!(matches!(a, LineAction::MissingSeparator));
}

#[test]
fn invalid_pair() {
    let mut c = fresh();
    let (_, a) = c.apply_line(false, " colour = blue=green ");
    match a {
        LineAction::InvalidPair { key, value } => {
            assert_eq!(key, "colour");
            assert_eq!(value, "blue=green");
        }
        _ => panic!("expected an invalid pair"),
    }
}

#[test]
fn path_settings() {
    let mut c = fresh();
    let (_, a) = c.apply_line(false, "f_location = /srv/data ");
    match a {
        LineAction::CheckPath { setting, path } => {
            assert_eq!(setting, PathKey::FLocation);
            assert_eq!(path, "/srv/data");
            c.apply_path(setting, &path, true);
        }
        _ => panic!("expected a path check"),
    }
    assert_eq!(c.f_location(), "/srv/data");
    let (_, a) = c.apply_line(false, "conf_location=/nowhere");
    match a {
        LineAction::CheckPath { setting, path } => {
            assert_eq!(setting, PathKey::ConfLocation);
            c.apply_path(setting, &path, false);
        }
        _ => panic!("expected a path check"),
    }
    assert_eq!(c.conf_location(), "default/path/on/device");
}

#[test]
fn resolve_path_fallback() {
    assert_eq!(resolve_path("a/b", true), "a/b");
    assert_eq!(resolve_path("a/b", false), "default/path/on/device");
}

fn read_all(c: &mut UserConfig, lines: &[&str]) {
    let mut skip = false;
    for line in lines {
        let (next, action) = c.apply_line(skip, line);
        skip = next;
        if let LineAction::CheckPath { setting, path } = action {
            let exists = path.starts_with('/');
            c.apply_path(setting, &path, exists);
        }
    }
}

#[test]
fn reading_twice_equals_reading_once() {
    let lines = [
        "f_size=5",
        "/* comment",
        "f_size=6",
        "*/",
        "endpoint = 77",
        "startpoint=bad",
        "f_location=/srv",
        "conf_location=relative",
        "f_size=9",
    ];
    let mut c = fresh();
    read_all(&mut c, &lines);
    let once = format!("{:?}", c);
    read_all(&mut c, &lines);
    assert_eq!(format!("{:?}", c), once);
    assert_eq!(c.f_size(), 9);
    assert_eq!(c.endpoint(), 77);
    assert_eq!(c.startpoint(), 10);
    assert_eq!(c.f_location(), "/srv");
    assert_eq!(c.conf_location(), "default/path/on/device");
}
