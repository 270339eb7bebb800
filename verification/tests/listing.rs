use gfh::config::parse_config;
use gfh::listing::{is_connected, mapping_label, status_line};

#[test]
fn label_joins_serial_and_key() {
    assert_eq!(mapping_label("12345678", "~/.ssh/key"), "12345678 :: ~/.ssh/key");
}

#[test]
fn status_lines() {
    assert_eq!(
        status_line("12345678", "~/.ssh/key", true, true),
        "12345678 :: ~/.ssh/key [connected]"
    );
    assert_eq!(
        status_line("1", "k", false, false),
        "1 :: k [not connected] (key file missing)"
    );
}

#[test]
fn connection_is_by_exact_serial() {
    let serials = vec![Some("123".to_owned()), None];
    assert!(is_connected("123", &serials));
    assert!(!is_connected("12", &serials));
    assert!(!is_connected("unknown", &serials));
    assert!(!is_connected("", &serials));
    assert!(!is_connected("1", &Vec::new()));
}

#[test]
fn listed_label_reads_back() {
    let line = mapping_label("12345678", "~/.ssh/key") + "\n";
    let cfg = parse_config(&line).unwrap();
    assert_eq!(cfg.mappings(), vec![("12345678".to_owned(), "~/.ssh/key".to_owned())]);
    let bare = mapping_label("", "") + "\n";
    let cfg = parse_config(&bare).unwrap();
    assert_eq!(cfg.mappings(), vec![(String::new(), String::new())]);
}
