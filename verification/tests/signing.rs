use gfh::config::parse_config;
use gfh::signing::{
    agent_holds_key, check_key_path, default_key_answer, choose_agent_sock, load_outcome, select_signing_key,
    signing_key_paths, AgentLoadError, KeyPathError,
};

#[test]
fn rejects_option_like_key_path() {
    // `ssh-add -D` would wipe every identity from the agent.
    assert!(check_key_path("-D").is_err());
    assert!(check_key_path("-s/tmp/evil.so").is_err());
}

#[test]
fn accepts_ordinary_key_path() {
    assert!(check_key_path("/home/u/.ssh/id_ed25519_sk").is_ok());
    assert!(check_key_path("./relative-key").is_ok());
}

#[test]
fn refused_path_is_carried_in_the_error() {
    match check_key_path("-D") {
        Err(KeyPathError::OptionLike(p)) => assert_eq!(p, "-D"),
        Ok(()) => panic!("accepted an option-like path"),
    }
    assert!(check_key_path("").is_ok());
    assert!(check_key_path("a-b").is_ok());
}

#[test]
fn key_paths_from_private_path() {
    assert_eq!(
        signing_key_paths("/k/id_ed25519_sk"),
        ("/k/id_ed25519_sk".to_owned(), "/k/id_ed25519_sk.pub".to_owned())
    );
}

#[test]
fn key_paths_from_public_path() {
    assert_eq!(
        signing_key_paths("/k/id_ed25519_sk.pub"),
        ("/k/id_ed25519_sk".to_owned(), "/k/id_ed25519_sk.pub".to_owned())
    );
    assert_eq!(signing_key_paths(".pub"), (String::new(), ".pub".to_owned()));
    assert_eq!(signing_key_paths("pub"), ("pub".to_owned(), "pub.pub".to_owned()));
}

#[test]
fn agent_listing_matches_type_and_blob() {
    let listing = "ssh-rsa AAAAB3 other@host\nsk-ssh-ed25519@openssh.com AAAAGn me@laptop\n";
    assert!(agent_holds_key(listing, "sk-ssh-ed25519@openssh.com AAAAGn comment\n"));
    assert!(agent_holds_key(listing, "  ssh-rsa\tAAAAB3  "));
    assert!(!agent_holds_key(listing, "ssh-rsa AAAAXX"));
    assert!(!agent_holds_key(listing, "ssh-rsa"));
    assert!(!agent_holds_key(listing, ""));
    assert!(!agent_holds_key("", "ssh-rsa AAAAB3"));
}

#[test]
fn agent_listing_match_stays_within_a_line() {
    assert!(!agent_holds_key("ssh-rsa\nAAAAB3\n", "ssh-rsa AAAAB3"));
    assert!(agent_holds_key("x ssh-rsa AAAAB3\r\n", "ssh-rsa AAAAB3"));
}

#[test]
fn agent_socket_prefers_the_dedicated_setting() {
    assert_eq!(
        choose_agent_sock(Some("/a".to_owned()), Some("/b".to_owned())),
        Some("/a".to_owned())
    );
    assert_eq!(
        choose_agent_sock(Some(String::new()), Some("/b".to_owned())),
        Some("/b".to_owned())
    );
    assert_eq!(choose_agent_sock(None, Some("/b".to_owned())), Some("/b".to_owned()));
    assert_eq!(choose_agent_sock(None, Some(String::new())), None);
    assert_eq!(choose_agent_sock(None, None), None);
}

#[test]
fn load_outcomes() {
    assert!(load_outcome(true, false).is_ok());
    assert!(load_outcome(true, true).is_ok());
    assert_eq!(load_outcome(false, true), Err(AgentLoadError::HiddenFromGit));
    assert_eq!(load_outcome(false, false), Err(AgentLoadError::Missing));
}

#[test]
fn signing_key_follows_device_order() {
    let cfg = parse_config("1111::~/a\n2222::~/b\n").unwrap();
    let serials = vec![
        Some("9999".to_owned()),
        None,
        Some("2222".to_owned()),
        Some("1111".to_owned()),
    ];
    assert_eq!(select_signing_key(&cfg, &serials), Some("~/b".to_owned()));
    assert_eq!(select_signing_key(&cfg, &vec![Some("unknown".to_owned())]), None);
    assert_eq!(select_signing_key(&cfg, &Vec::new()), None);
}

#[test]
fn device_without_serial_matches_no_mapping() {
    // A mapping whose serial is the label placeholder must not catch a
    // device that reports no serial.
    let cfg = parse_config("unknown::~/.ssh/k\n::~/.ssh/empty\n").unwrap();
    let device = gfh::device::FidoDevice::Generic {
        product_string: "Token".to_owned(),
        info: String::new(),
    };
    let serials = vec![device.serial()];
    assert_eq!(serials, vec![None]);
    assert_eq!(select_signing_key(&cfg, &serials), None);
}

#[test]
fn default_key_answer_is_the_trimmed_public_key() {
    assert_eq!(
        default_key_answer("sk-ssh-ed25519@openssh.com AAAAGn me@laptop\n"),
        "key::sk-ssh-ed25519@openssh.com AAAAGn me@laptop"
    );
    assert_eq!(default_key_answer("  \n"), "key::");
}
