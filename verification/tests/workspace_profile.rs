use sam_core::error::SamError;
use sam_core::profile::{
    default_commits, default_monograph_addr, default_true, find_repo_root, DeployConfig, Domains,
    Profile, ProfilesConfig,
};
use sam_core::workspace::{content_is_blank, normalize_for_save, State};

fn profile(domains: &[&str], auto: &[&str]) -> Profile {
    Profile {
        domains: Domains::List(domains.iter().map(|s| s.to_string()).collect()),
        auto_include: auto.iter().map(|s| s.to_string()).collect(),
        ai_infer: true,
        watch: vec![],
        owners: vec![],
        deploy: None,
    }
}

fn config(names: &[&str]) -> ProfilesConfig {
    ProfilesConfig {
        profiles: names
            .iter()
            .map(|n| (n.to_string(), profile(&[&format!("apis/{n}")], &[])))
            .collect(),
    }
}

#[test]
fn new_state_is_empty() {
    let s = State::new();
    assert!(s.active_profile.is_none());
    assert!(s.hydrated_domains.is_empty());
    assert!(s.last_updated.is_none());
}

#[test]
fn add_domain_is_idempotent() {
    let mut s = State::new();
    s.add_domain("apis/sales");
    s.add_domain("apis/sales");
    s.add_domain("shared/auth");
    assert_eq!(s.hydrated_domains, vec!["apis/sales", "shared/auth"]);
    assert!(s.has_domain("apis/sales"));
    assert!(!s.has_domain("apis"));
}

#[test]
fn set_profile_records_name() {
    let mut s = State::new();
    s.set_profile("sales-api");
    assert_eq!(s.active_profile.as_deref(), Some("sales-api"));
}

#[test]
fn saving_sorts_and_dedups() {
    let s = State {
        active_profile: Some("p".to_string()),
        hydrated_domains: vec!["b".into(), "a".into(), "b".into(), "A".into()],
        last_updated: None,
    };
    let n = normalize_for_save(&s, "2024-01-01T00:00:00+00:00".to_string());
    assert_eq!(n.hydrated_domains, vec!["A", "a", "b"]);
    assert_eq!(n.last_updated.as_deref(), Some("2024-01-01T00:00:00+00:00"));
    assert_eq!(n.active_profile.as_deref(), Some("p"));
}

#[test]
fn saving_a_saved_state_keeps_its_domains() {
    let s = State {
        active_profile: None,
        hydrated_domains: vec!["z".into(), "y".into(), "z".into()],
        last_updated: None,
    };
    let once = normalize_for_save(&s, "t1".to_string());
    let twice = normalize_for_save(&once, "t2".to_string());
    assert_eq!(once.hydrated_domains, vec!["y", "z"]);
    assert_eq!(twice.hydrated_domains, once.hydrated_domains);
    assert_eq!(twice.last_updated.as_deref(), Some("t2"));
}

#[test]
fn blank_content_loads_as_default() {
    assert!(content_is_blank(""));
    assert!(content_is_blank("  \n\t \r\n"));
    assert!(content_is_blank("\u{3000}\u{a0}"));
    assert!(!content_is_blank(" active_profile: x\n"));
}

#[test]
fn defaults_of_settings() {
    assert!(default_true());
    assert_eq!(default_monograph_addr(), "127.0.0.1:7474");
    assert_eq!(default_commits(), 500);
}

#[test]
fn domains_from_scalar() {
    assert!(matches!(Domains::from_scalar("*".to_string()), Domains::All));
    match Domains::from_scalar("apis/sales".to_string()) {
        Domains::List(v) => assert_eq!(v, vec!["apis/sales"]),
        Domains::All => panic!("expected a list"),
    }
}

#[test]
fn domains_includes() {
    assert!(Domains::All.includes("anything"));
    let d = Domains::List(vec!["a".into(), "b".into()]);
    assert!(d.includes("b"));
    assert!(!d.includes("c"));
}

#[test]
fn get_profile_exact_match_wins() {
    let c = config(&["sales", "sales-api"]);
    let p = c.get_profile("sales").unwrap();
    match &p.domains {
        Domains::List(v) => assert_eq!(v, &vec!["apis/sales"]),
        Domains::All => panic!(),
    }
    assert_eq!(c.resolve_profile_name("sales").unwrap(), "sales");
}

#[test]
fn get_profile_unique_prefix() {
    let c = config(&["sales-api", "platform"]);
    assert_eq!(c.resolve_profile_name("sal").unwrap(), "sales-api");
    let p = c.get_profile("plat").unwrap();
    match &p.domains {
        Domains::List(v) => assert_eq!(v, &vec!["apis/platform"]),
        Domains::All => panic!(),
    }
}

#[test]
fn get_profile_ambiguous_prefix_lists_matches_sorted() {
    let c = config(&["sales-web", "platform", "sales-api"]);
    match c.get_profile("sales") {
        Err(SamError::ProfileNotFound { name, available }) => {
            assert_eq!(name, "sales");
            assert_eq!(available, vec!["sales-api", "sales-web"]);
        }
        _ => panic!("expected ProfileNotFound"),
    }
    assert!(c.resolve_profile_name("sales").is_err());
}

#[test]
fn get_profile_unknown_lists_all_sorted() {
    let c = config(&["zeta", "alpha", "mid"]);
    match c.resolve_profile_name("nope") {
        Err(SamError::ProfileNotFound { name, available }) => {
            assert_eq!(name, "nope");
            assert_eq!(available, vec!["alpha", "mid", "zeta"]);
        }
        _ => panic!("expected ProfileNotFound"),
    }
    let err = c.get_profile("nope").unwrap_err();
    assert_eq!(err.message(), "profile 'nope' not found. Available: alpha, mid, zeta");
}

#[test]
fn get_profile_repeated_name_keeps_last() {
    let mut c = config(&["a"]);
    c.profiles.push(("a".to_string(), profile(&["later"], &[])));
    match &c.get_profile("a").unwrap().domains {
        Domains::List(v) => assert_eq!(v, &vec!["later"]),
        Domains::All => panic!(),
    }
    match c.get_profile("zz") {
        Err(SamError::ProfileNotFound { available, .. }) => assert_eq!(available, vec!["a"]),
        _ => panic!(),
    }
}

#[test]
fn profile_containing_finds_a_match() {
    let mut c = config(&["sales"]);
    c.profiles.push(("all".to_string(), Profile {
        domains: Domains::All,
        auto_include: vec!["shared/types".into()],
        ai_infer: false,
        watch: vec![],
        owners: vec![],
        deploy: Some(DeployConfig { command: "x".into(), per_domain: false, pre_deploy_impact: false }),
    }));
    let p = c.profile_containing("apis/other").unwrap();
    assert_eq!(p.auto_include, vec!["shared/types"]);
    let only = config(&["sales"]);
    assert!(only.profile_containing("apis/sales").is_some());
    assert!(only.profile_containing("apis/other").is_none());
}

#[test]
fn sorted_keys_are_sorted() {
    let c = config(&["b", "a", "c"]);
    assert_eq!(c.sorted_keys(), vec!["a", "b", "c"]);
}

#[test]
fn find_repo_root_nearest_marked() {
    let cands: Vec<String> = vec!["/r/a/b".into(), "/r/a".into(), "/r".into(), "/".into()];
    assert_eq!(find_repo_root(&cands, &vec![false, true, true, false]).unwrap(), "/r/a");
    assert!(matches!(
        find_repo_root(&cands, &vec![false, false, false, false]),
        Err(SamError::NoRepoFound)
    ));
    assert!(matches!(find_repo_root(&vec![], &vec![]), Err(SamError::NoRepoFound)));
}

#[test]
fn error_messages() {
    assert_eq!(SamError::GitError("boom".into()).message(), "git error: boom");
    assert_eq!(
        SamError::NoRepoFound.message(),
        "no SAM repository found (looked for .sam/ directory walking up from cwd)"
    );
    assert_eq!(SamError::WorkspaceError("w".into()).message(), "workspace error: w");
    assert_eq!(SamError::MonoGraphError("m".into()).message(), "monograph error: m");
    assert_eq!(SamError::IoError("io".into()).message(), "io");
    assert_eq!(SamError::YamlError("y".into()).message(), "y");
    assert_eq!(SamError::JsonError("j".into()).message(), "j");
    assert_eq!(
        SamError::ProfileNotFound { name: "x".into(), available: vec![] }.message(),
        "profile 'x' not found. Available: "
    );
}
