//! The decisions of the `sam` commands that do not touch the disk, git or
//! the network: what to deploy, which state a profile activation leaves,
//! which domain a graph is drawn for, and how a domain is hydrated with
//! its dependencies.
use vstd::prelude::*;
use crate::error::SamError;
use crate::git::{add_sparse, with_sam_dir};
use crate::monograph::{ResolveQuery, ResolveResponse, ResolvedDomain, fallback_text, resolve_or_fallback, response_paths, response_text};
use crate::profile::{Domains, Profile, ProfilesConfig, domains_include, selected_name};
use crate::text::{join, join_strings, replace_all, replace_str};
use crate::workspace::{State, opt_view, with_domain};

verus! {

/// The domains a deployment names: `*` for a profile of all domains, else
/// its list.
pub open spec fn deploy_domain_list(p: Profile) -> Seq<Seq<char>> {
    match p.domains {
        Domains::All => seq!["*"@],
        Domains::List(v) => v.deep_view(),
    }
}

/// The domains a deployment of profile `p` names.
pub fn deploy_domains(p: &Profile) -> (r: Vec<String>)
    ensures
        r.deep_view() == deploy_domain_list(*p),
{
    match &p.domains {
        Domains::All => {
            let mut r: Vec<String> = Vec::new();
            r.push(String::from_str("*"));
            assert(r.deep_view() =~= seq!["*"@]);
            r
        },
        Domains::List(v) => {
            let r = v.clone();
            assert(r.deep_view() =~= v.deep_view());
            r
        },
    }
}

/// The query that activating profile `p` sends: its domains, its
/// `auto_include` and its `ai_infer`; none for a profile of all domains,
/// which needs no resolution.
pub fn profile_query(p: &Profile) -> (q: Option<ResolveQuery>)
    ensures
        match p.domains {
            Domains::All => q is None,
            Domains::List(v) => q matches Some(q) && q.domains.deep_view() == v.deep_view()
                && q.auto_include.deep_view() == p.auto_include.deep_view() && q.ai_infer == p.ai_infer,
        },
{
    match &p.domains {
        Domains::All => None,
        Domains::List(v) => {
            let domains = v.clone();
            let auto = p.auto_include.clone();
            assert(domains.deep_view() =~= v.deep_view());
            assert(auto.deep_view() =~= p.auto_include.deep_view());
            Some(ResolveQuery { domains, auto_include: auto, ai_infer: p.ai_infer })
        },
    }
}

/// The named domains, other than `*`, that are not hydrated: deploying them
/// deploys from what is not on this machine.
pub open spec fn not_hydrated(list: Seq<Seq<char>>, hydrated: Seq<Seq<char>>) -> Seq<Seq<char>> {
    list.filter(|d: Seq<char>| d != "*"@ && !hydrated.contains(d))
}

/// The named domains, other than `*`, that are not hydrated.
pub fn unhydrated_domains(list: &Vec<String>, ws: &State) -> (r: Vec<String>)
    ensures
        r.deep_view() == not_hydrated(list.deep_view(), ws.domains()),
{
    let ghost lv = list.deep_view();
    let mut out: Vec<String> = Vec::new();
    let mut i: usize = 0;
    proof {
        reveal(Seq::filter);
        assert(lv.take(0) =~= Seq::<Seq<char>>::empty());
    }
    while i < list.len()
        invariant
            lv == list.deep_view(),
            i <= lv.len(),
            out.deep_view() == lv.take(i as int).filter(
                |d: Seq<char>| d != "*"@ && !ws.domains().contains(d),
            ),
        decreases lv.len() - i,
    {
        let ghost before = out.deep_view();
        proof {
            reveal(Seq::filter);
            assert(lv.take(i + 1).drop_last() =~= lv.take(i as int));
        }
        let d = list[i].as_str();
        assert(lv[i as int] == d@);
        if !crate::text::str_eq(d, "*") && !ws.has_domain(d) {
            out.push(String::from_str(d));
            assert(out.deep_view() =~= before.push(d@));
        }
        i = i + 1;
    }
    assert(lv.take(i as int) =~= lv);
    out
}

/// The deploy command for one domain: every `{domain}` in the template
/// replaced by the domain.
pub fn deploy_command(template: &str, domain: &str) -> (r: String)
    ensures
        r@ == replace_all(template@, "{domain}"@, domain@),
{
    proof {
        reveal_strlit("{domain}");
    }
    replace_str(template, "{domain}", domain)
}

/// The domains handed to a single deploy command: joined by commas.
pub fn joined_domains(list: &Vec<String>) -> (r: String)
    ensures
        r@ == join(list.deep_view(), ","@),
{
    join_strings(list, ",")
}

/// The hydrated domains after adding each of `paths` in turn.
pub open spec fn with_domains(s: Seq<Seq<char>>, paths: Seq<Seq<char>>) -> Seq<Seq<char>>
    decreases paths.len(),
{
    if paths.len() == 0 {
        s
    } else {
        with_domain(with_domains(s, paths.drop_last()), paths.last())
    }
}

/// Adds each of `paths` to the hydrated domains.
pub fn add_domains(state: &mut State, paths: &Vec<String>)
    ensures
        final(state).domains() == with_domains(old(state).domains(), paths.deep_view()),
        final(state).active_profile == old(state).active_profile,
        final(state).last_updated == old(state).last_updated,
{
    let ghost start = state.domains();
    let ghost pv = paths.deep_view();
    let mut i: usize = 0;
    assert(pv.take(0) =~= Seq::<Seq<char>>::empty());
    while i < paths.len()
        invariant
            pv == paths.deep_view(),
            i <= pv.len(),
            state.domains() == with_domains(start, pv.take(i as int)),
            state.active_profile == old(state).active_profile,
            state.last_updated == old(state).last_updated,
        decreases pv.len() - i,
    {
        assert(pv[i as int] == paths@[i as int]@);
        assert(pv.take(i + 1).drop_last() =~= pv.take(i as int));
        state.add_domain(paths[i].as_str());
        i = i + 1;
    }
    assert(pv.take(i as int) =~= pv);
}

/// The state after activating the profile `name` with `paths` hydrated:
/// the profile set, and each of `paths` added to the hydrated domains,
/// which keep what was hydrated before (the sparse checkout is added to,
/// not replaced).
pub fn activate_profile(state: &State, name: &str, paths: &Vec<String>) -> (r: State)
    ensures
        opt_view(r.active_profile) == Some(name@),
        r.domains() == with_domains(state.domains(), paths.deep_view()),
        r.last_updated == state.last_updated,
{
    let domains = state.hydrated_domains.clone();
    assert(domains.deep_view() =~= state.domains());
    let mut r = State {
        active_profile: None,
        hydrated_domains: domains,
        last_updated: state.last_updated.clone(),
    };
    r.set_profile(name);
    add_domains(&mut r, paths);
    r
}

/// The git arguments that hydrate a profile's resolved `paths`: they are
/// added to the sparse checkout (with `.sam`), never replacing it.
pub fn activation_args(paths: &Vec<String>) -> (r: Vec<String>)
    ensures
        r.deep_view() == seq!["sparse-checkout"@, "add"@] + with_sam_dir(paths.deep_view()),
{
    add_sparse(paths)
}

/// The domains with `paths` added: every earlier domain stays, every path is
/// there, and nothing else is.
pub proof fn lemma_with_domains_keeps(s: Seq<Seq<char>>, paths: Seq<Seq<char>>)
    ensures
        forall|x: Seq<char>| #[trigger] with_domains(s, paths).contains(x) <==> (s.contains(x) || paths.contains(x)),
    decreases paths.len(),
{
    if paths.len() > 0 {
        lemma_with_domains_keeps(s, paths.drop_last());
        let before = with_domains(s, paths.drop_last());
        assert forall|x: Seq<char>| #[trigger] with_domains(s, paths).contains(x) <==> (s.contains(x) || paths.contains(x)) by {
            crate::text::lemma_push_contains_any(before, paths.last(), x);
            crate::text::lemma_push_contains_any(paths.drop_last(), paths.last(), x);
            assert(paths.drop_last().push(paths.last()) =~= paths);
        }
    }
}

/// The domain a graph is drawn for when none is given: the first domain of
/// the active profile (an error when it selects no profile, none when it
/// lists no domains), else the first hydrated domain, else none.
pub open spec fn graph_domain_spec(ws: State, profiles: Option<ProfilesConfig>) -> Option<
    Seq<char>,
> {
    match ws.active_profile {
        Some(name) => match profiles {
            Some(pc) => match selected_name(pc.profile_map(), name@) {
                Some(k) => match pc.profile_map()[k].domains {
                    Domains::List(v) => if v@.len() > 0 {
                        Some(v@[0]@)
                    } else {
                        None
                    },
                    Domains::All => None,
                },
                None => None,
            },
            None => None,
        },
        None => if ws.hydrated_domains@.len() > 0 {
            Some(ws.hydrated_domains@[0]@)
        } else {
            None
        },
    }
}

/// Whether the active profile selects no loaded profile.
pub open spec fn graph_profile_missing(ws: State, profiles: Option<ProfilesConfig>) -> bool {
    match (ws.active_profile, profiles) {
        (Some(name), Some(pc)) => selected_name(pc.profile_map(), name@) is None,
        _ => false,
    }
}

/// The domain to draw a graph for when none is given; `profiles` are the
/// loaded profiles, needed when a profile is active. `Ok(None)` means there
/// is none and one must be given.
pub fn graph_domain(ws: &State, profiles: &Option<ProfilesConfig>) -> (r: Result<
    Option<String>,
    SamError,
>)
    ensures
        r is Err <==> graph_profile_missing(*ws, *profiles),
        r matches Err(e) ==> (e matches SamError::ProfileNotFound { .. }),
        r matches Ok(o) ==> match o {
            Some(d) => graph_domain_spec(*ws, *profiles) == Some(d@),
            None => graph_domain_spec(*ws, *profiles) is None,
        },
{
    match &ws.active_profile {
        Some(name) => match profiles {
            Some(pc) => match pc.get_profile(name.as_str()) {
                Ok(p) => match &p.domains {
                    Domains::List(v) => {
                        if v.len() > 0 {
                            Ok(Some(v[0].clone()))
                        } else {
                            Ok(None)
                        }
                    },
                    Domains::All => Ok(None),
                },
                Err(e) => Err(e),
            },
            None => Ok(None),
        },
        None => {
            if ws.hydrated_domains.len() > 0 {
                Ok(Some(ws.hydrated_domains[0].clone()))
            } else {
                Ok(None)
            }
        },
    }
}

/// The settings for hydrating `domain` with dependencies: the
/// `auto_include` and `ai_infer` of a profile whose domains include it, or
/// nothing and `true` when there is no such profile (or no profiles).
pub fn hydration_settings(profiles: &Option<ProfilesConfig>, domain: &str) -> (r: (Vec<String>, bool))
    ensures
        match *profiles {
            Some(pc) => match pc.profile_containing_spec(domain@) {
                true => exists|k: Seq<char>|
                    #[trigger] pc.profile_map().contains_key(k) && domains_include(
                        pc.profile_map()[k].domains,
                        domain@,
                    ) && r.0.deep_view() == pc.profile_map()[k].auto_include.deep_view() && r.1
                        == pc.profile_map()[k].ai_infer,
                false => r.0@.len() == 0 && r.1,
            },
            None => r.0@.len() == 0 && r.1,
        },
{
    match profiles {
        Some(pc) => match pc.profile_containing(domain) {
            Some(p) => {
                let a = p.auto_include.clone();
                assert(a.deep_view() =~= p.auto_include.deep_view());
                (a, p.ai_infer)
            },
            None => (Vec::new(), true),
        },
        None => (Vec::new(), true),
    }
}

/// The domains hydrated with `domain`: MonoGraph's resolution when there is
/// one (`None` when it is unreachable or failed), else `domain` and the
/// automatically included domains.
pub fn domains_with_deps(
    domain: &str,
    auto_include: &Vec<String>,
    answer: Option<ResolveResponse>,
) -> (r: Vec<String>)
    ensures
        match answer {
            Some(resp) => r.deep_view() == resp.domains@.map_values(|d: ResolvedDomain| d.path@),
            None => r.deep_view() == fallback_text(seq![domain@], auto_include.deep_view()).map_values(
                |t: (Seq<char>, Seq<char>)| t.0,
            ),
        },
{
    let mut req: Vec<String> = Vec::new();
    req.push(String::from_str(domain));
    assert(req.deep_view() =~= seq![domain@]);
    let (resp, _) = resolve_or_fallback(&req, auto_include, answer);
    let r = response_paths(&resp);
    proof {
        if answer is None {
            assert(response_text(resp).map_values(|t: (Seq<char>, Seq<char>)| t.0) =~= resp.domains@.map_values(
                |d: ResolvedDomain| d.path@,
            ));
        }
    }
    r
}

} // verus!
