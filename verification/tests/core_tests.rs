use sshproxygen::daemon::{apply_routing, retract_routing};
use sshproxygen::digits::{parse_u16, u16_to_string};
use sshproxygen::parser::parse_proxy_string;
use sshproxygen::reconcile::{account_create_ok, plan, Action, Command, FailurePolicy, PlannedStep};
use sshproxygen::registry::{ProxyRecord, Registry};
use sshproxygen::Error;

fn record(user: &str, target_user: &str, host: &str, port: u16) -> ProxyRecord {
    ProxyRecord {
        proxy_user: user.to_string(),
        target_user: target_user.to_string(),
        target_host: host.to_string(),
        port,
    }
}

// ---------------------------------------------------------------- parser

#[test]
fn parse_well_formed_descriptor() {
    let (p, q, h) = parse_proxy_string("bkk10:proxyssh@172.16.10.1").unwrap();
    assert_eq!(p, "bkk10");
    assert_eq!(q, "proxyssh");
    assert_eq!(h, "172.16.10.1");
}

#[test]
fn parse_rejects_two_tokens() {
    let r = parse_proxy_string("bkk10:proxyssh");
    assert!(matches!(r, Err(Error::MalformedDescriptor(s)) if s == "bkk10:proxyssh"));
}

#[test]
fn parse_rejects_four_tokens() {
    assert!(matches!(
        parse_proxy_string("a:b@c@d"),
        Err(Error::MalformedDescriptor(_))
    ));
}

#[test]
fn parse_rejects_empty_token() {
    assert!(matches!(
        parse_proxy_string(":b@c"),
        Err(Error::MalformedDescriptor(_))
    ));
    assert!(matches!(
        parse_proxy_string("a:@c"),
        Err(Error::MalformedDescriptor(_))
    ));
    assert!(matches!(
        parse_proxy_string("a:b@"),
        Err(Error::MalformedDescriptor(_))
    ));
}

#[test]
fn parse_rejects_plain_word() {
    assert!(matches!(
        parse_proxy_string("justoneword"),
        Err(Error::MalformedDescriptor(_))
    ));
}

// ---------------------------------------------------------------- digits

#[test]
fn port_rendering_exact() {
    assert_eq!(u16_to_string(0), "0");
    assert_eq!(u16_to_string(22), "22");
    assert_eq!(u16_to_string(65535), "65535");
}

#[test]
fn port_parsing() {
    assert_eq!(parse_u16("22"), Some(22));
    assert_eq!(parse_u16("0"), Some(0));
    assert_eq!(parse_u16("65535"), Some(65535));
    assert_eq!(parse_u16("007"), Some(7));
    assert_eq!(parse_u16("65536"), None);
    assert_eq!(parse_u16(""), None);
    assert_eq!(parse_u16("2a"), None);
    assert_eq!(parse_u16("999999999999999999999"), None);
}

// -------------------------------------------------------------- registry

#[test]
fn default_registry() {
    let reg = Registry::default();
    assert_eq!(reg.identity_key_path(), "/etc/sshproxygen/id_rsa");
    assert_eq!(reg.entry_count(), 0);
}

#[test]
fn insert_remove_lookup() {
    let mut reg = Registry::default();
    reg.insert(record("bkk10", "proxyssh", "172.16.10.1", 22));
    assert!(reg.has_user("bkk10"));
    assert!(!reg.has_user("bkk11"));
    assert_eq!(reg.entry_count(), 1);
    assert!(reg.remove_user("bkk10"));
    assert!(!reg.has_user("bkk10"));
    assert!(!reg.remove_user("bkk10"));
    assert_eq!(reg.entry_count(), 0);
}

#[test]
fn insert_overwrites_same_user() {
    let mut reg = Registry::default();
    reg.insert(record("bkk10", "proxyssh", "10.0.0.1", 22));
    reg.insert(record("bkk10", "proxyssh", "172.16.10.1", 22));
    assert_eq!(reg.entry_count(), 1);
    assert_eq!(reg.entry_at(0).target_host, "172.16.10.1");
}

#[test]
fn two_adds_for_different_users_keep_both() {
    let mut reg = Registry::default();
    reg.insert(record("bkk10", "proxyssh", "172.16.10.1", 22));
    reg.insert(record("bkk11", "proxyssh", "172.16.10.2", 22));
    assert!(reg.has_user("bkk10"));
    assert!(reg.has_user("bkk11"));
    assert_eq!(reg.entry_count(), 2);
}

#[test]
fn save_exact_document() {
    let mut reg = Registry::default();
    reg.insert(record("bkk10", "proxyssh", "172.16.10.1", 22));
    assert_eq!(
        reg.to_text(),
        "identity_key_path /etc/sshproxygen/id_rsa\n\
         proxy bkk10\n\
         target_host 172.16.10.1\n\
         port 22"
    );
}

#[test]
fn load_exact_document() {
    let text = "identity_key_path /etc/sshproxygen/id_rsa\nproxy bkk10\ntarget_host 172.16.10.1\nport 22";
    let reg = Registry::from_text(text).unwrap();
    assert_eq!(reg.identity_key_path(), "/etc/sshproxygen/id_rsa");
    assert_eq!(reg.entry_count(), 1);
    let rec = reg.entry_at(0);
    assert_eq!(rec.proxy_user, "bkk10");
    assert_eq!(rec.target_user, "proxyssh");
    assert_eq!(rec.target_host, "172.16.10.1");
    assert_eq!(rec.port, 22);
}

#[test]
fn save_load_save_round_trip() {
    let mut reg = Registry::default();
    reg.set_identity_key_path("/root/.ssh/key with spaces".to_string());
    reg.insert(record("bkk10", "proxyssh", "172.16.10.1", 22));
    reg.insert(record("bkk11", "proxyssh", "172.16.10.2", 2222));
    let first = reg.to_text();
    let loaded = Registry::from_text(&first).unwrap();
    assert_eq!(loaded.to_text(), first);
    assert_eq!(loaded.entry_count(), 2);
}

#[test]
fn empty_registry_round_trip() {
    let reg = Registry::default();
    let text = reg.to_text();
    assert_eq!(text, "identity_key_path /etc/sshproxygen/id_rsa");
    let loaded = Registry::from_text(&text).unwrap();
    assert_eq!(loaded.entry_count(), 0);
    assert_eq!(loaded.to_text(), text);
}

#[test]
fn round_trip_with_newline_in_identity_key_path() {
    let mut reg = Registry::default();
    reg.set_identity_key_path("/x\ny".to_string());
    reg.insert(record("bkk10", "proxyssh", "172.16.10.1", 22));
    let text = reg.to_text();
    let loaded = Registry::from_text(&text).unwrap();
    assert_eq!(loaded.identity_key_path(), "/x\ny");
    assert_eq!(loaded.entry_count(), 1);
    assert_eq!(loaded.to_text(), text);
}

#[test]
fn round_trip_with_newline_and_backslash_in_fields() {
    let mut reg = Registry::default();
    reg.insert(record("u\nv", "proxyssh", "a\\b", 22));
    let text = reg.to_text();
    let loaded = Registry::from_text(&text).unwrap();
    assert_eq!(loaded.entry_at(0).proxy_user, "u\nv");
    assert_eq!(loaded.entry_at(0).target_host, "a\\b");
    assert_eq!(loaded.to_text(), text);
}

#[test]
fn escaping_keeps_literal_backslash_n_distinct_from_newline() {
    let mut with_newline = Registry::default();
    with_newline.set_identity_key_path("/x\ny".to_string());
    let mut with_backslash_n = Registry::default();
    with_backslash_n.set_identity_key_path("/x\\ny".to_string());
    assert_ne!(with_newline.to_text(), with_backslash_n.to_text());
    let a = Registry::from_text(&with_newline.to_text()).unwrap();
    let b = Registry::from_text(&with_backslash_n.to_text()).unwrap();
    assert_eq!(a.identity_key_path(), "/x\ny");
    assert_eq!(b.identity_key_path(), "/x\\ny");
}

#[test]
fn load_of_missing_file_is_default_registry() {
    let reg = Registry::load(None).unwrap();
    assert_eq!(reg.identity_key_path(), "/etc/sshproxygen/id_rsa");
    assert_eq!(reg.entry_count(), 0);
}

#[test]
fn load_of_content_decodes_it() {
    let text = "identity_key_path k\nproxy a\ntarget_host h\nport 2222";
    let reg = Registry::load(Some(text)).unwrap();
    assert_eq!(reg.entry_at(0).port, 2222);
    assert!(matches!(Registry::load(Some("garbage")), Err(Error::StoreCorrupt)));
}

#[test]
fn load_rejects_garbage() {
    assert!(matches!(Registry::from_text("garbage"), Err(Error::StoreCorrupt)));
    assert!(matches!(Registry::from_text(""), Err(Error::StoreCorrupt)));
}

#[test]
fn load_rejects_partial_record() {
    let text = "identity_key_path k\nproxy a\ntarget_host h";
    assert!(matches!(Registry::from_text(text), Err(Error::StoreCorrupt)));
}

#[test]
fn load_rejects_out_of_range_port() {
    let text = "identity_key_path k\nproxy a\ntarget_host h\nport 65536";
    assert!(matches!(Registry::from_text(text), Err(Error::StoreCorrupt)));
}

#[test]
fn load_rejects_duplicate_user() {
    let text = "identity_key_path k\nproxy a\ntarget_host h\nport 22\nproxy a\ntarget_host g\nport 22";
    assert!(matches!(Registry::from_text(text), Err(Error::StoreCorrupt)));
}

// ---------------------------------------------------------------- daemon

const KEY: &str = "/etc/sshproxygen/id_rsa";

#[test]
fn apply_block_exact_text() {
    let out = apply_routing("", "bkk10", "proxyssh", "172.16.10.1", KEY);
    assert_eq!(
        out,
        "\n# sshproxygen begin bkk10\n\
         Match User bkk10\n\
         \x20 ForceCommand ssh -i /etc/sshproxygen/id_rsa -W 172.16.10.1:22 proxyssh@172.16.10.1\n\
         # sshproxygen end bkk10"
    );
}

#[test]
fn apply_twice_is_apply_once() {
    let once = apply_routing("Port 22\nX11Forwarding no", "bkk10", "proxyssh", "172.16.10.1", KEY);
    let twice = apply_routing(&once, "bkk10", "proxyssh", "172.16.10.1", KEY);
    assert_eq!(once, twice);
}

#[test]
fn apply_keeps_foreign_lines() {
    let out = apply_routing("Port 22\nX11Forwarding no", "bkk10", "proxyssh", "172.16.10.1", KEY);
    assert!(out.starts_with("Port 22\nX11Forwarding no\n"));
}

#[test]
fn retract_after_apply_restores_config() {
    let cfg = "Port 22\nX11Forwarding no";
    let applied = apply_routing(cfg, "bkk10", "proxyssh", "172.16.10.1", KEY);
    assert_eq!(retract_routing(&applied, "bkk10"), cfg);
}

#[test]
fn retract_absent_user_is_noop() {
    let cfg = "Port 22\nX11Forwarding no";
    assert_eq!(retract_routing(cfg, "bkk10"), cfg);
}

#[test]
fn retract_removes_only_the_tagged_block() {
    let cfg = apply_routing("Port 22", "bkk10", "proxyssh", "172.16.10.1", KEY);
    let cfg = apply_routing(&cfg, "bkk11", "proxyssh", "172.16.10.2", KEY);
    let cfg = retract_routing(&cfg, "bkk10");
    assert!(!cfg.contains("bkk10"));
    assert!(cfg.contains("# sshproxygen begin bkk11"));
    assert!(cfg.contains("proxyssh@172.16.10.2"));
    assert!(cfg.starts_with("Port 22\n"));
}

#[test]
fn reapply_updates_target() {
    let cfg = apply_routing("", "bkk10", "proxyssh", "10.0.0.1", KEY);
    let cfg = apply_routing(&cfg, "bkk10", "proxyssh", "172.16.10.1", KEY);
    assert!(!cfg.contains("10.0.0.1:22"));
    assert!(cfg.contains("-W 172.16.10.1:22"));
    assert_eq!(cfg.matches("# sshproxygen begin bkk10").count(), 1);
}

// ------------------------------------------------------------ reconciler

#[test]
fn add_plans_create_apply_save() {
    let mut reg = Registry::default();
    let cmd = Command::Add { descriptor: "bkk10:proxyssh@172.16.10.1".to_string() };
    let steps = plan(&cmd, &mut reg).unwrap();
    assert_eq!(steps.len(), 3);
    assert!(reg.has_user("bkk10"));
    assert_eq!(reg.entry_at(0).target_host, "172.16.10.1");
    assert_eq!(reg.entry_at(0).port, 22);
    match &steps[0] {
        PlannedStep { action: Action::CreateAccount { username }, on_failure: FailurePolicy::Abort } => {
            assert_eq!(username, "bkk10");
        },
        _ => panic!("first step of Add must create the account, aborting on failure"),
    }
    match &steps[1] {
        PlannedStep {
            action: Action::ApplyRouting { proxy_user, target_user, target_host, identity_key_path },
            on_failure: FailurePolicy::Abort,
        } => {
            assert_eq!(proxy_user, "bkk10");
            assert_eq!(target_user, "proxyssh");
            assert_eq!(target_host, "172.16.10.1");
            assert_eq!(identity_key_path, "/etc/sshproxygen/id_rsa");
        },
        _ => panic!("second step of Add must apply the routing block"),
    }
    match &steps[2] {
        PlannedStep { action: Action::SaveRegistry { text }, on_failure: FailurePolicy::Abort } => {
            assert_eq!(text, &reg.to_text());
            assert!(text.contains("proxy bkk10"));
        },
        _ => panic!("third step of Add must save the registry"),
    }
}

#[test]
fn add_rejects_malformed_descriptor() {
    let mut reg = Registry::default();
    let cmd = Command::Add { descriptor: "nonsense".to_string() };
    assert!(matches!(plan(&cmd, &mut reg), Err(Error::MalformedDescriptor(_))));
    assert_eq!(reg.entry_count(), 0);
}

#[test]
fn remove_plans_remove_retract_save() {
    let mut reg = Registry::default();
    reg.insert(record("bkk10", "proxyssh", "172.16.10.1", 22));
    let before = reg.to_text();
    let cmd = Command::Remove { proxy_user: "bkk10".to_string() };
    let steps = plan(&cmd, &mut reg).unwrap();
    assert_eq!(steps.len(), 3);
    assert!(!reg.has_user("bkk10"));
    assert!(matches!(
        &steps[0],
        PlannedStep { action: Action::RemoveAccount { username }, on_failure: FailurePolicy::Report }
            if username == "bkk10"
    ));
    assert!(matches!(
        &steps[1],
        PlannedStep { action: Action::RetractRouting { proxy_user }, on_failure: FailurePolicy::Report }
            if proxy_user == "bkk10"
    ));
    assert!(matches!(
        &steps[2],
        PlannedStep { action: Action::SaveRegistry { text }, on_failure: FailurePolicy::Abort }
            if text != &before
    ));
}

#[test]
fn remove_absent_user_is_noop_success() {
    let mut reg = Registry::default();
    reg.insert(record("bkk10", "proxyssh", "172.16.10.1", 22));
    let before = reg.to_text();
    let cmd = Command::Remove { proxy_user: "nobody".to_string() };
    let steps = plan(&cmd, &mut reg).unwrap();
    assert!(steps.is_empty());
    assert_eq!(reg.to_text(), before);
}

#[test]
fn list_plans_nothing() {
    let mut reg = Registry::default();
    reg.insert(record("bkk10", "proxyssh", "172.16.10.1", 22));
    let steps = plan(&Command::List, &mut reg).unwrap();
    assert!(steps.is_empty());
    assert_eq!(reg.entry_count(), 1);
}

#[test]
fn install_plans_pair_per_entry() {
    let mut reg = Registry::default();
    reg.insert(record("bkk10", "proxyssh", "172.16.10.1", 22));
    reg.insert(record("bkk11", "proxyssh", "172.16.10.2", 22));
    let before = reg.to_text();
    let steps = plan(&Command::Install, &mut reg).unwrap();
    assert_eq!(steps.len(), 4);
    assert_eq!(reg.to_text(), before);
    for k in 0..2usize {
        match &steps[2 * k] {
            PlannedStep { action: Action::CreateAccount { username }, on_failure: FailurePolicy::Abort } => {
                assert_eq!(username, reg.entry_at(k).proxy_user.as_str());
            },
            _ => panic!("Install must create each account"),
        }
        match &steps[2 * k + 1] {
            PlannedStep { action: Action::ApplyRouting { proxy_user, target_host, .. }, on_failure: FailurePolicy::Abort } => {
                assert_eq!(proxy_user, reg.entry_at(k).proxy_user.as_str());
                assert_eq!(target_host, reg.entry_at(k).target_host.as_str());
            },
            _ => panic!("Install must apply each routing block"),
        }
    }
}

#[test]
fn install_twice_plans_identically_and_config_converges() {
    let mut reg = Registry::default();
    reg.insert(record("bkk10", "proxyssh", "172.16.10.1", 22));
    reg.insert(record("bkk11", "proxyssh", "172.16.10.2", 22));

    // Execute the daemon part of the plan against a configuration text,
    // twice; the second run must leave the text unchanged and keep one
    // block per user.
    let mut cfg = "Port 22".to_string();
    for _run in 0..2 {
        let steps = plan(&Command::Install, &mut reg).unwrap();
        for step in &steps {
            if let Action::ApplyRouting { proxy_user, target_user, target_host, identity_key_path } =
                &step.action
            {
                cfg = apply_routing(&cfg, proxy_user, target_user, target_host, identity_key_path);
            }
        }
    }
    let once = {
        let mut c = "Port 22".to_string();
        c = apply_routing(&c, "bkk10", "proxyssh", "172.16.10.1", KEY);
        apply_routing(&c, "bkk11", "proxyssh", "172.16.10.2", KEY)
    };
    assert_eq!(cfg, once);
    assert_eq!(cfg.matches("# sshproxygen begin bkk10").count(), 1);
    assert_eq!(cfg.matches("# sshproxygen begin bkk11").count(), 1);
}

#[test]
fn account_creation_tolerates_existing_account() {
    assert!(account_create_ok(0));
    assert!(account_create_ok(9));
    assert!(!account_create_ok(1));
    assert!(!account_create_ok(127));
}

#[test]
fn error_messages_name_the_subject() {
    let e = Error::ProvisioningFailed("bkk10".to_string());
    assert!(e.message().contains("bkk10"));
    let e = Error::MalformedDescriptor("x:y".to_string());
    assert!(e.message().contains("x:y"));
}
