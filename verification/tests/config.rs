use gfh::config::{parse_config, serialise_config, Config, ConfigEntry, ConfigError};

#[test]
fn parse_valid_config() {
    let input = "12345678::~/.ssh/id_ed25519_sk\n87654321::~/.ssh/id_ecdsa_sk\n";
    let cfg = parse_config(input).unwrap();
    assert_eq!(cfg.get("12345678"), Some("~/.ssh/id_ed25519_sk"));
    assert_eq!(cfg.get("87654321"), Some("~/.ssh/id_ecdsa_sk"));
    assert!(!cfg.has_no_mappings());
}

#[test]
fn parse_empty_input_returns_empty_config() {
    let cfg = parse_config("").unwrap();
    assert!(cfg.has_no_mappings());
}

#[test]
fn parse_only_comments_returns_empty_config() {
    let input = "# comment one\n# comment two\n";
    let cfg = parse_config(input).unwrap();
    assert!(cfg.has_no_mappings());
}

#[test]
fn parse_malformed_line_errors() {
    let input = "no-separator-here\n";
    assert!(parse_config(input).is_err());
}

#[test]
fn parse_trims_around_delimiter() {
    // The format `gfh list` prints, pasted back into the config.
    let cfg = parse_config("12345678 :: ~/.ssh/key\n").unwrap();
    assert_eq!(cfg.get("12345678"), Some("~/.ssh/key"));
}

#[test]
fn parse_treats_whitespace_only_line_as_blank() {
    let cfg = parse_config("12345678::~/.ssh/key\n   \n").unwrap();
    assert_eq!(cfg.get("12345678"), Some("~/.ssh/key"));
    assert!(matches!(&cfg.entries()[1], ConfigEntry::Blank));
}

#[test]
fn parse_keeps_duplicate_serials() {
    let input = "11111111::~/.ssh/key_a\n11111111::~/.ssh/key_b\n22222222::~/.ssh/key_c\n";
    let cfg = parse_config(input).unwrap();

    assert_eq!(cfg.entries().len(), 3);
    assert_eq!(serialise_config(&cfg), input);
    // Lookup takes the first mapping.
    assert_eq!(cfg.get("11111111"), Some("~/.ssh/key_a"));
}

#[test]
fn parse_preserves_comments_and_blanks() {
    let input = "# my keys\n\n12345678::~/.ssh/key\n";
    let cfg = parse_config(input).unwrap();

    assert!(matches!(&cfg.entries()[0], ConfigEntry::Comment(s) if s == "# my keys"));
    assert!(matches!(&cfg.entries()[1], ConfigEntry::Blank));
    assert!(
        matches!(&cfg.entries()[2], ConfigEntry::Mapping { serial, .. } if serial == "12345678")
    );
}

#[test]
fn roundtrip_preserves_content() {
    let input = "# Primary YubiKey\n12345678::~/.ssh/id_ed25519_sk\n\n# Backup\n87654321::~/.ssh/id_ecdsa_sk\n";
    let cfg = parse_config(input).unwrap();
    let output = serialise_config(&cfg);
    assert_eq!(input, output);
}

#[test]
fn insert_updates_existing_key() {
    let input = "12345678::~/.ssh/old_key\n";
    let mut cfg = parse_config(input).unwrap();
    cfg.insert("12345678".to_owned(), "~/.ssh/new_key".to_owned());
    assert_eq!(cfg.get("12345678"), Some("~/.ssh/new_key"));
}

#[test]
fn insert_appends_new_key() {
    let mut cfg = Config::new();
    cfg.insert("12345678".to_owned(), "~/.ssh/key".to_owned());
    assert_eq!(cfg.get("12345678"), Some("~/.ssh/key"));
    assert!(!cfg.has_no_mappings());
}

#[test]
fn get_unknown_serial_returns_none() {
    let input = "12345678::~/.ssh/key\n";
    let cfg = parse_config(input).unwrap();
    assert_eq!(cfg.get("99999999"), None);
}

#[test]
fn default_config_is_empty() {
    let cfg = Config::default();
    assert!(cfg.has_no_mappings());
    assert_eq!(cfg.get("anything"), None);
}

#[test]
fn remove_nth_mapping_removes_only_that_one() {
    let input = "12345678::~/.ssh/key_a\n87654321::~/.ssh/key_b\n";
    let mut cfg = parse_config(input).unwrap();
    assert!(cfg.remove_nth_mapping(0));
    assert_eq!(cfg.get("12345678"), None);
    assert_eq!(cfg.get("87654321"), Some("~/.ssh/key_b"));
}

#[test]
fn remove_nth_mapping_keeps_duplicate_siblings() {
    let input = "11111111::~/.ssh/key_a\n11111111::~/.ssh/key_b\n";
    let mut cfg = parse_config(input).unwrap();
    assert!(cfg.remove_nth_mapping(0));
    assert_eq!(cfg.entries().len(), 1);
    assert_eq!(cfg.get("11111111"), Some("~/.ssh/key_b"));
}

#[test]
fn remove_nth_mapping_skips_comments_and_blanks() {
    let input = "# keep me\n\n12345678::~/.ssh/key\n";
    let mut cfg = parse_config(input).unwrap();
    // Index 0 is the first *mapping*, not the first entry.
    assert!(cfg.remove_nth_mapping(0));
    assert!(cfg.has_no_mappings());
    assert!(matches!(&cfg.entries()[0], ConfigEntry::Comment(s) if s == "# keep me"));
    assert!(matches!(&cfg.entries()[1], ConfigEntry::Blank));
}

#[test]
fn remove_nth_mapping_out_of_range_is_a_no_op() {
    let mut cfg = parse_config("12345678::~/.ssh/key\n").unwrap();
    assert!(!cfg.remove_nth_mapping(7));
    assert_eq!(cfg.entries().len(), 1);
}

// ---------------------------------------------------------------------------
// Further cases
// ---------------------------------------------------------------------------

#[test]
fn malformed_line_reports_its_number() {
    let input = "# header\n12345678::~/.ssh/key\n\nbroken line\n87654321::~/.ssh/other\n";
    assert_eq!(parse_config(input).err(), Some(ConfigError::MalformedLine(4)));
}

#[test]
fn crlf_lines_are_read_without_carriage_returns() {
    let cfg = parse_config("# note\r\n12345678::~/.ssh/key\r\n").unwrap();
    assert!(matches!(&cfg.entries()[0], ConfigEntry::Comment(s) if s == "# note"));
    assert_eq!(cfg.get("12345678"), Some("~/.ssh/key"));
    assert_eq!(serialise_config(&cfg), "# note\n12345678::~/.ssh/key\n");
}

#[test]
fn last_line_without_newline_is_read() {
    let cfg = parse_config("12345678::~/.ssh/key").unwrap();
    assert_eq!(cfg.get("12345678"), Some("~/.ssh/key"));
    assert_eq!(serialise_config(&cfg), "12345678::~/.ssh/key\n");
}

#[test]
fn indented_comment_is_kept_as_written() {
    let cfg = parse_config("   # indented\n").unwrap();
    assert!(matches!(&cfg.entries()[0], ConfigEntry::Comment(s) if s == "   # indented"));
    assert_eq!(serialise_config(&cfg), "   # indented\n");
}

#[test]
fn key_may_hold_the_separator() {
    let cfg = parse_config("a:::b\n1::x::y\n").unwrap();
    assert_eq!(cfg.get("a"), Some(":b"));
    assert_eq!(cfg.get("1"), Some("x::y"));
}

#[test]
fn unicode_whitespace_is_trimmed() {
    let cfg = parse_config("\u{3000}123\u{00A0}::\tkey\u{2003}\n").unwrap();
    assert_eq!(cfg.get("123"), Some("key"));
}

#[test]
fn empty_serial_and_key_are_kept() {
    let cfg = parse_config("::\n").unwrap();
    assert_eq!(cfg.get(""), Some(""));
    assert_eq!(cfg.mappings(), vec![(String::new(), String::new())]);
}

#[test]
fn write_then_read_gives_the_same_entries() {
    let mut cfg = Config::new();
    cfg.push_comment("# laptop".to_owned());
    cfg.insert("1111".to_owned(), "~/.ssh/a".to_owned());
    cfg.push_blank();
    cfg.insert("2222".to_owned(), "~/.ssh/b".to_owned());
    let text = serialise_config(&cfg);
    assert_eq!(text, "# laptop\n1111::~/.ssh/a\n\n2222::~/.ssh/b\n");
    let back = parse_config(&text).unwrap();
    assert_eq!(back.mappings(), cfg.mappings());
    assert_eq!(back.entries().len(), 4);
    assert!(matches!(&back.entries()[0], ConfigEntry::Comment(s) if s == "# laptop"));
    assert!(matches!(&back.entries()[2], ConfigEntry::Blank));
}

#[test]
fn insert_leaves_other_serials_alone() {
    let mut cfg = parse_config("1::a\n2::b\n1::c\n").unwrap();
    cfg.insert("1".to_owned(), "z".to_owned());
    assert_eq!(cfg.get("1"), Some("z"));
    assert_eq!(cfg.get("2"), Some("b"));
    assert_eq!(
        cfg.mappings(),
        vec![
            ("1".to_owned(), "z".to_owned()),
            ("2".to_owned(), "b".to_owned()),
            ("1".to_owned(), "c".to_owned())
        ]
    );
}

#[test]
fn remove_nth_mapping_removes_the_nth_pair() {
    let mut cfg = parse_config("# c\n1::a\n\n2::b\n3::c\n").unwrap();
    assert!(cfg.remove_nth_mapping(1));
    assert_eq!(
        cfg.mappings(),
        vec![("1".to_owned(), "a".to_owned()), ("3".to_owned(), "c".to_owned())]
    );
    assert_eq!(serialise_config(&cfg), "# c\n1::a\n\n3::c\n");
    assert!(!cfg.remove_nth_mapping(2));
}

#[test]
fn push_keeps_order() {
    let mut cfg = Config::new();
    cfg.push_blank();
    cfg.push_comment("# x".to_owned());
    assert_eq!(cfg.entries().len(), 2);
    assert!(cfg.has_no_mappings());
    assert!(matches!(&cfg.entries()[0], ConfigEntry::Blank));
    assert_eq!(serialise_config(&cfg), "\n# x\n");
}

#[test]
fn shadowed_mappings_are_the_later_duplicates() {
    let cfg = parse_config("1::a\n# c\n1::b\n2::c\n2::d\n1::e\n").unwrap();
    assert_eq!(cfg.shadowed_mappings(), vec![2, 4, 5]);
    let clean = parse_config("1::a\n2::b\n").unwrap();
    assert!(clean.shadowed_mappings().is_empty());
}

#[test]
fn reading_keeps_a_duplicate_mapping_after_insert_would_not() {
    let mut read = parse_config("1::a\n1::b\n").unwrap();
    assert_eq!(read.mappings().len(), 2);
    assert_eq!(read.get("1"), Some("a"));
    read.insert("1".to_owned(), "c".to_owned());
    assert_eq!(
        read.mappings(),
        vec![("1".to_owned(), "c".to_owned()), ("1".to_owned(), "b".to_owned())]
    );
}
