use sam_core::commands::{
    activate_profile, activation_args, profile_query, add_domains, deploy_command, deploy_domains, domains_with_deps, graph_domain,
    hydration_settings, joined_domains, unhydrated_domains,
};
use sam_core::error::SamError;
use sam_core::finder::{
    active_auto_include, active_domain_query, dehydrate_all, dehydrate_domain, mark_hydrated, navigated_ghost,
    rebuild_ghosts, refresh_tags, remove_hydrated, resolve_with_deps, setup_skeleton_dirs,
    unhide_with_parents, with_ghost_children, DirAction, WatchState,
};
use sam_core::monograph::{
    base_url, domain_query, fallback_resolve, resolve_or_fallback, resolve_response, ImpactEntry, ImpactResponse,
    InferenceDetail, ResolveApiResponse, ResolveResponse, ResolvedDomain,
};
use sam_core::profile::{Domains, Profile, ProfilesConfig};
use sam_core::workspace::State;

fn strings(v: &[&str]) -> Vec<String> {
    v.iter().map(|s| s.to_string()).collect()
}

fn state(domains: &[&str]) -> State {
    State { active_profile: None, hydrated_domains: strings(domains), last_updated: None }
}

fn pairs(r: &ResolveResponse) -> Vec<(String, String)> {
    r.domains.iter().map(|d| (d.path.clone(), d.reason.clone())).collect()
}

fn impact(risks: &[&str]) -> ImpactResponse {
    ImpactResponse {
        entries: risks
            .iter()
            .map(|r| ImpactEntry {
                domain: "d".into(),
                risk: r.to_string(),
                impact_type: None,
                calls_per_day: None,
                teams: vec![],
            })
            .collect(),
    }
}

fn actions(v: &[DirAction]) -> Vec<String> {
    v.iter()
        .map(|a| match a {
            DirAction::CreateDir(p) => format!("create {p}"),
            DirAction::Hide(p) => format!("hide {p}"),
            DirAction::Unhide(p) => format!("unhide {p}"),
        })
        .collect()
}

#[test]
fn fallback_resolve_profile_then_auto_include() {
    let r = fallback_resolve(&strings(&["apis/sales", "shared/auth"]), &strings(&["shared/auth", "shared/types"]));
    assert_eq!(
        pairs(&r),
        vec![
            ("apis/sales".to_string(), "profile".to_string()),
            ("shared/auth".to_string(), "profile".to_string()),
            ("shared/types".to_string(), "auto_include".to_string()),
        ]
    );
    assert!(r.domains.iter().all(|d| d.file_count.is_none()));
}

#[test]
fn resolve_response_assigns_reasons() {
    let api = ResolveApiResponse {
        resolved: strings(&["apis/sales", "shared/types", "apis/pricing", "apis/x"]),
        inferred: vec![],
        inference_detail: vec![
            InferenceDetail { domain: "apis/pricing".into(), reason: "import".into(), from: None },
            InferenceDetail { domain: "apis/pricing".into(), reason: "co_change".into(), from: None },
        ],
    };
    let r = resolve_response(&strings(&["apis/sales"]), &strings(&["shared/types"]), &api);
    assert_eq!(
        pairs(&r),
        vec![
            ("apis/sales".to_string(), "profile".to_string()),
            ("shared/types".to_string(), "auto_include".to_string()),
            ("apis/pricing".to_string(), "co_change".to_string()),
            ("apis/x".to_string(), "ai_inferred".to_string()),
        ]
    );
}

#[test]
fn resolve_or_fallback_prefers_answer() {
    let answer = ResolveResponse {
        domains: vec![ResolvedDomain { path: "p".into(), reason: "profile".into(), file_count: Some(3) }],
    };
    let (r, offline) = resolve_or_fallback(&strings(&["a"]), &vec![], Some(answer));
    assert!(!offline);
    assert_eq!(r.domains[0].file_count, Some(3));
    let (r, offline) = resolve_or_fallback(&strings(&["a"]), &strings(&["b"]), None);
    assert!(offline);
    assert_eq!(pairs(&r).len(), 2);
    assert!(r.domains.iter().all(|d| d.file_count.is_none()));
}

#[test]
fn impact_risk_counts() {
    let i = impact(&["critical", "HIGH", "High", "low", "Critical"]);
    assert_eq!(i.count_risk("CRITICAL"), 2);
    assert_eq!(i.count_risk("HIGH"), 2);
    assert!(i.has_critical());
    assert!(!impact(&["low"]).has_critical());
}

#[test]
fn unhide_parents_top_down() {
    assert_eq!(unhide_with_parents("a/b/c"), strings(&["a/b/c", "a", "a/b"]));
    assert_eq!(unhide_with_parents("a"), strings(&["a"]));
    assert_eq!(mark_hydrated("x/y"), strings(&["x/y", "x"]));
}

#[test]
fn refresh_tags_actions() {
    let dirs = strings(&["apis", "apis/sales", "apis/orders", "gone"]);
    let ws = state(&["apis/sales"]);
    let (acts, n) = refresh_tags(&dirs, &ws, &vec![true, true, true, false], &vec![false, true, true, true]);
    assert_eq!(n, 3);
    assert_eq!(
        actions(&acts),
        strings(&["unhide apis/sales", "unhide apis", "hide apis/orders"])
    );
}

#[test]
fn setup_skeleton_actions() {
    let dirs = strings(&["apis", "apis/sales", "apis/orders"]);
    let ws = state(&["apis/sales"]);
    let (acts, total, created) =
        setup_skeleton_dirs(&dirs, &ws, &vec![true, true, false], &vec![false, true, true]);
    assert_eq!(total, 3);
    assert_eq!(created, 1);
    assert_eq!(
        actions(&acts),
        strings(&["unhide apis/sales", "unhide apis", "create apis/orders", "hide apis/orders"])
    );
}

#[test]
fn dehydrate_removes_only_target() {
    let ws = state(&["a", "b", "a"]);
    let after = dehydrate_domain(&ws, "a");
    assert_eq!(after.hydrated_domains, strings(&["b"]));
    assert!(!after.has_domain("a"));
    assert_eq!(dehydrate_all(&ws), strings(&["a", "b", "a"]));
}

#[test]
fn ghosts_are_unhydrated_dirs() {
    let dirs = strings(&["a", "a/b", "c"]);
    assert_eq!(rebuild_ghosts(&dirs, &state(&["a/b"])), strings(&["a", "c"]));
    assert_eq!(remove_hydrated(&strings(&["a", "c"]), &strings(&["c"])), strings(&["a"]));
}

#[test]
fn navigated_ghost_detection() {
    let ghosts = strings(&["apis/orders"]);
    assert_eq!(
        navigated_ghost("/repo/apis/orders/", "", "/repo/", &ghosts),
        Some("apis/orders".to_string())
    );
    assert_eq!(navigated_ghost("/repo/apis/orders/", "/repo/apis/orders/", "/repo/", &ghosts), None);
    assert_eq!(navigated_ghost("/other/apis/orders", "", "/repo/", &ghosts), None);
    assert_eq!(navigated_ghost("/repo/apis", "", "/repo/", &ghosts), None);
    assert_eq!(navigated_ghost("/repo/", "", "/repo/", &ghosts), None);
}

#[test]
fn ghost_children_added_sorted() {
    let r = with_ghost_children(&strings(&["b", "a"]), &strings(&["a/x", "ab", "b/y/z", "c"]));
    assert_eq!(r, strings(&["a", "a/x", "b", "b/y/z"]));
}

#[test]
fn resolve_with_deps_falls_back_to_domain() {
    assert_eq!(resolve_with_deps("d", &None), strings(&["d"]));
    assert_eq!(resolve_with_deps("d", &Some(ResolveResponse { domains: vec![] })), strings(&["d"]));
    let resp = ResolveResponse {
        domains: vec![
            ResolvedDomain { path: "d".into(), reason: "profile".into(), file_count: None },
            ResolvedDomain { path: "e".into(), reason: "ai_inferred".into(), file_count: None },
        ],
    };
    assert_eq!(resolve_with_deps("d", &Some(resp)), strings(&["d", "e"]));
}

fn profiles() -> ProfilesConfig {
    ProfilesConfig {
        profiles: vec![
            (
                "sales".into(),
                Profile {
                    domains: Domains::List(strings(&["apis/sales", "apis/pricing"])),
                    auto_include: strings(&["shared/auth"]),
                    ai_infer: false,
                    watch: vec![],
                    owners: vec![],
                    deploy: None,
                },
            ),
            (
                "platform".into(),
                Profile {
                    domains: Domains::All,
                    auto_include: vec![],
                    ai_infer: true,
                    watch: vec![],
                    owners: vec![],
                    deploy: None,
                },
            ),
        ],
    }
}

#[test]
fn active_auto_include_of_active_profile() {
    let mut ws = state(&[]);
    ws.set_profile("sal");
    assert_eq!(active_auto_include(&Some(profiles()), &Some(ws.clone())), strings(&["shared/auth"]));
    assert!(active_auto_include(&None, &Some(ws)).is_empty());
    assert!(active_auto_include(&Some(profiles()), &Some(state(&[]))).is_empty());
}

#[test]
fn deploy_domain_lists() {
    let p = profiles();
    assert_eq!(deploy_domains(&p.profiles[0].1), strings(&["apis/sales", "apis/pricing"]));
    assert_eq!(deploy_domains(&p.profiles[1].1), strings(&["*"]));
    assert_eq!(
        unhydrated_domains(&strings(&["*", "apis/sales", "apis/pricing"]), &state(&["apis/sales"])),
        strings(&["apis/pricing"])
    );
    assert_eq!(joined_domains(&strings(&["a", "b"])), "a,b");
    assert_eq!(deploy_command("kubectl apply -f k8s/{domain}/ # {domain}", "apis/x"), "kubectl apply -f k8s/apis/x/ # apis/x");
    assert_eq!(deploy_command("echo {dom}", "x"), "echo {dom}");
}

#[test]
fn activate_profile_adds_domains() {
    let mut ws = state(&["old", "b"]);
    ws.last_updated = Some("t".into());
    let r = activate_profile(&ws, "sales", &strings(&["a", "b", "a"]));
    assert_eq!(r.active_profile.as_deref(), Some("sales"));
    assert_eq!(r.hydrated_domains, strings(&["old", "b", "a"]));
    assert_eq!(
        activation_args(&strings(&["a", "b"])),
        strings(&["sparse-checkout", "add", "a", "b", ".sam"])
    );
    assert_eq!(r.last_updated.as_deref(), Some("t"));
    let mut s = state(&["a"]);
    add_domains(&mut s, &strings(&["b", "a", "c"]));
    assert_eq!(s.hydrated_domains, strings(&["a", "b", "c"]));
}

#[test]
fn graph_domain_choice() {
    let mut ws = state(&["h1", "h2"]);
    assert_eq!(graph_domain(&ws, &None).unwrap(), Some("h1".to_string()));
    assert_eq!(graph_domain(&state(&[]), &None).unwrap(), None);
    ws.set_profile("sales");
    assert_eq!(graph_domain(&ws, &Some(profiles())).unwrap(), Some("apis/sales".to_string()));
    ws.set_profile("platform");
    assert_eq!(graph_domain(&ws, &Some(profiles())).unwrap(), None);
    ws.set_profile("nope");
    assert!(matches!(graph_domain(&ws, &Some(profiles())), Err(SamError::ProfileNotFound { .. })));
}

#[test]
fn hydration_settings_from_profile() {
    // Both profiles include this domain; either one's settings may be used.
    let (auto, ai) = hydration_settings(&Some(profiles()), "apis/pricing");
    assert!((auto == strings(&["shared/auth"]) && !ai) || (auto.is_empty() && ai));
    let only_sales = ProfilesConfig { profiles: vec![profiles().profiles[0].clone()] };
    let (auto, ai) = hydration_settings(&Some(only_sales), "apis/pricing");
    assert_eq!(auto, strings(&["shared/auth"]));
    assert!(!ai);
    let (auto, ai) = hydration_settings(&None, "apis/pricing");
    assert!(auto.is_empty() && ai);
    let only_sales = ProfilesConfig { profiles: vec![profiles().profiles[0].clone()] };
    let (auto, ai) = hydration_settings(&Some(only_sales), "apis/other");
    assert!(auto.is_empty() && ai);
}

#[test]
fn domains_with_deps_offline() {
    assert_eq!(
        domains_with_deps("apis/x", &strings(&["shared/a", "apis/x"]), None),
        strings(&["apis/x", "shared/a"])
    );
    let resp = ResolveResponse {
        domains: vec![ResolvedDomain { path: "q".into(), reason: "profile".into(), file_count: None }],
    };
    assert_eq!(domains_with_deps("apis/x", &vec![], Some(resp)), strings(&["q"]));
}

#[test]
fn base_url_adds_scheme_only_when_missing() {
    assert_eq!(base_url("127.0.0.1:7474"), "http://127.0.0.1:7474");
    assert_eq!(base_url("http://graph.local:80"), "http://graph.local:80");
    assert_eq!(base_url("https://graph.example"), "https://graph.example");
    assert_eq!(base_url(""), "http://");
}

#[test]
fn watch_state_hydrates_a_ghost_once() {
    let dirs = strings(&["apis", "apis/orders", "apis/sales", "shared"]);
    let mut w = WatchState::new(&dirs, &state(&["shared"]));
    assert_eq!(w.last_path, "");
    assert_eq!(w.ghosts, strings(&["apis", "apis/orders", "apis/sales"]));

    assert_eq!(w.observe("/repo/apis/orders/", "/repo/"), Some("apis/orders".to_string()));
    assert_eq!(w.last_path, "/repo/apis/orders/");
    // The same path again hydrates nothing.
    assert_eq!(w.observe("/repo/apis/orders/", "/repo/"), None);
    // A path outside the repository is not remembered.
    assert_eq!(w.observe("/elsewhere/apis", "/repo/"), None);
    assert_eq!(w.last_path, "/repo/apis/orders/");

    w.hydrated(&strings(&["apis/orders", "shared"]));
    assert_eq!(w.ghosts, strings(&["apis", "apis/sales"]));
    assert_eq!(w.observe("/repo/apis/orders", "/repo/"), None);
    assert_eq!(w.last_path, "/repo/apis/orders");

    w.refresh(&dirs, &state(&[]));
    assert_eq!(w.ghosts, dirs);
    assert_eq!(w.last_path, "/repo/apis/orders");
}

#[test]
fn resolve_queries() {
    let q = domain_query("apis/sales", &strings(&["shared"]), false);
    assert_eq!(q.domains, strings(&["apis/sales"]));
    assert_eq!(q.auto_include, strings(&["shared"]));
    assert!(!q.ai_infer);

    let pc = profiles();
    let active = State { active_profile: Some("sal".into()), hydrated_domains: vec![], last_updated: None };
    let q = active_domain_query("apis/orders", &Some(pc.clone()), &Some(active));
    assert_eq!(q.domains, strings(&["apis/orders"]));
    assert_eq!(q.auto_include, strings(&["shared/auth"]));
    assert!(q.ai_infer);
    let q = active_domain_query("apis/orders", &None, &Some(state(&[])));
    assert!(q.auto_include.is_empty() && q.ai_infer);

    let sales = pc.get_profile("sales").unwrap();
    let q = profile_query(sales).expect("a list profile");
    assert_eq!(q.domains, strings(&["apis/sales", "apis/pricing"]));
    assert_eq!(q.auto_include, strings(&["shared/auth"]));
    assert!(!q.ai_infer);
    assert!(profile_query(pc.get_profile("platform").unwrap()).is_none());
}
