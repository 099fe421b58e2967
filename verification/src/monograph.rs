//! MonoGraph, the dependency engine: what its answers mean to SAM, and the
//! offline resolution used when it cannot be reached.
use vstd::prelude::*;
use crate::text::{
    contains_string, lemma_map_values_push, spec_to_uppercase, starts_with, str_eq, to_uppercase,
};

verus! {

/// Why MonoGraph added a domain.
#[derive(Debug, Clone)]
pub struct InferenceDetail {
    pub domain: String,
    pub reason: String,
    pub from: Option<String>,
}

/// MonoGraph's answer to `/resolve`.
#[derive(Debug, Clone)]
pub struct ResolveApiResponse {
    pub resolved: Vec<String>,
    pub inferred: Vec<String>,
    pub inference_detail: Vec<InferenceDetail>,
}

/// A domain to hydrate and why.
#[derive(Debug, Clone)]
pub struct ResolvedDomain {
    pub path: String,
    pub reason: String,
    pub file_count: Option<usize>,
}

/// The domains to hydrate.
#[derive(Debug, Clone)]
pub struct ResolveResponse {
    pub domains: Vec<ResolvedDomain>,
}

/// What a resolve request asks of MonoGraph, besides the co-change
/// settings: the domains, the domains always included, and whether AI
/// inference is on.
#[derive(Debug, Clone)]
pub struct ResolveQuery {
    pub domains: Vec<String>,
    pub auto_include: Vec<String>,
    pub ai_infer: bool,
}

/// The query for `domain` alone, with `auto_include` and `ai_infer`.
pub fn domain_query(domain: &str, auto_include: &Vec<String>, ai_infer: bool) -> (q: ResolveQuery)
    ensures
        q.domains.deep_view() == seq![domain@],
        q.auto_include.deep_view() == auto_include.deep_view(),
        q.ai_infer == ai_infer,
{
    let mut domains: Vec<String> = Vec::new();
    domains.push(String::from_str(domain));
    assert(domains.deep_view() =~= seq![domain@]);
    let auto = auto_include.clone();
    assert(auto.deep_view() =~= auto_include.deep_view());
    ResolveQuery { domains, auto_include: auto, ai_infer }
}

/// A domain affected by a change.
#[derive(Debug, Clone)]
pub struct ImpactEntry {
    pub domain: String,
    pub risk: String,
    pub impact_type: Option<String>,
    pub calls_per_day: Option<u64>,
    pub teams: Vec<String>,
}

/// The domains affected by a change.
#[derive(Debug, Clone)]
pub struct ImpactResponse {
    pub entries: Vec<ImpactEntry>,
}

/// The path and reason of a resolved domain.
pub open spec fn domain_text(d: ResolvedDomain) -> (Seq<char>, Seq<char>) {
    (d.path@, d.reason@)
}

/// The resolved domains as paths and reasons.
pub open spec fn response_text(r: ResolveResponse) -> Seq<(Seq<char>, Seq<char>)> {
    r.domains@.map_values(|d: ResolvedDomain| domain_text(d))
}

/// The reason MonoGraph gave for `path`: the last detail about it.
pub open spec fn detail_reason(details: Seq<InferenceDetail>, path: Seq<char>) -> Option<Seq<char>>
    decreases details.len(),
{
    if details.len() == 0 {
        None
    } else if details.last().domain@ == path {
        Some(details.last().reason@)
    } else {
        detail_reason(details.drop_last(), path)
    }
}

/// Why a resolved path is hydrated: `profile` when asked for, else
/// `auto_include` when included automatically, else MonoGraph's reason,
/// else `ai_inferred`.
pub open spec fn reason_for(
    path: Seq<char>,
    domains: Seq<Seq<char>>,
    auto_include: Seq<Seq<char>>,
    details: Seq<InferenceDetail>,
) -> Seq<char> {
    if domains.contains(path) {
        "profile"@
    } else if auto_include.contains(path) {
        "auto_include"@
    } else {
        match detail_reason(details, path) {
            Some(r) => r,
            None => "ai_inferred"@,
        }
    }
}

/// MonoGraph's reason for a path, if it gave one.
fn find_detail(details: &Vec<InferenceDetail>, path: &str) -> (r: Option<String>)
    ensures
        match r {
            Some(x) => detail_reason(details@, path@) == Some(x@),
            None => detail_reason(details@, path@) is None,
        },
{
    let mut i: usize = details.len();
    assert(details@.take(i as int) =~= details@);
    while i > 0
        invariant
            i <= details@.len(),
            detail_reason(details@, path@) == detail_reason(details@.take(i as int), path@),
        decreases i,
    {
        assert(details@.take(i as int).drop_last() =~= details@.take(i - 1));
        assert(details@.take(i as int).last() == details@[i - 1]);
        if str_eq(details[i - 1].domain.as_str(), path) {
            return Some(details[i - 1].reason.clone());
        }
        i = i - 1;
    }
    None
}

/// The domains to hydrate from MonoGraph's answer to a request for
/// `domains` with `auto_include`: each resolved path in order, with its
/// reason.
pub fn resolve_response(
    domains: &Vec<String>,
    auto_include: &Vec<String>,
    api: &ResolveApiResponse,
) -> (r: ResolveResponse)
    ensures
        r.domains@.len() == api.resolved@.len(),
        forall|i: int|
            0 <= i < api.resolved@.len() ==> {
                &&& (#[trigger] r.domains@[i]).path@ == api.resolved@[i]@
                &&& r.domains@[i].reason@ == reason_for(
                    api.resolved@[i]@,
                    domains.deep_view(),
                    auto_include.deep_view(),
                    api.inference_detail@,
                )
                &&& r.domains@[i].file_count is None
            },
{
    let mut out: Vec<ResolvedDomain> = Vec::new();
    let mut i: usize = 0;
    assert(api.inference_detail@.take(api.inference_detail@.len() as int) =~= api.inference_detail@);
    while i < api.resolved.len()
        invariant
            i <= api.resolved@.len(),
            out@.len() == i,
            forall|j: int|
                0 <= j < i ==> {
                    &&& (#[trigger] out@[j]).path@ == api.resolved@[j]@
                    &&& out@[j].reason@ == reason_for(
                        api.resolved@[j]@,
                        domains.deep_view(),
                        auto_include.deep_view(),
                        api.inference_detail@,
                    )
                    &&& out@[j].file_count is None
                },
        decreases api.resolved@.len() - i,
    {
        let path = api.resolved[i].as_str();
        let reason = if contains_string(domains, path) {
            String::from_str("profile")
        } else if contains_string(auto_include, path) {
            String::from_str("auto_include")
        } else {
            match find_detail(&api.inference_detail, path) {
                Some(r) => r,
                None => String::from_str("ai_inferred"),
            }
        };
        out.push(ResolvedDomain { path: String::from_str(path), reason, file_count: None });
        i = i + 1;
    }
    ResolveResponse { domains: out }
}

/// The offline resolution: the requested domains (`profile`), then the
/// automatically included ones that were not requested (`auto_include`).
pub open spec fn fallback_text(domains: Seq<Seq<char>>, auto_include: Seq<Seq<char>>) -> Seq<
    (Seq<char>, Seq<char>),
> {
    domains.map_values(|d: Seq<char>| (d, "profile"@)) + auto_include.filter(
        |a: Seq<char>| !domains.contains(a),
    ).map_values(|a: Seq<char>| (a, "auto_include"@))
}

/// Resolution without MonoGraph: the requested domains, then the
/// automatically included ones not among them.
pub fn fallback_resolve(domains: &Vec<String>, auto_include: &Vec<String>) -> (r: ResolveResponse)
    ensures
        response_text(r) == fallback_text(domains.deep_view(), auto_include.deep_view()),
        forall|i: int| 0 <= i < r.domains@.len() ==> (#[trigger] r.domains@[i]).file_count is None,
{
    let ghost dv = domains.deep_view();
    let ghost av = auto_include.deep_view();
    let mut out: Vec<ResolvedDomain> = Vec::new();
    let mut i: usize = 0;
    while i < domains.len()
        invariant
            dv == domains.deep_view(),
            i <= dv.len(),
            out@.len() == i,
            out@.map_values(|d: ResolvedDomain| domain_text(d)) == dv.take(i as int).map_values(
                |d: Seq<char>| (d, "profile"@),
            ),
            forall|j: int| 0 <= j < out@.len() ==> (#[trigger] out@[j]).file_count is None,
        decreases dv.len() - i,
    {
        let ghost before = out@;
        out.push(
            ResolvedDomain {
                path: domains[i].clone(),
                reason: String::from_str("profile"),
                file_count: None,
            },
        );
        proof {
            assert(dv[i as int] == domains@[i as int]@);
            assert(out@ == before.push(out@[i as int]));
            lemma_map_values_push(before, out@[i as int], |d: ResolvedDomain| domain_text(d));
            assert(dv.take(i + 1) =~= dv.take(i as int).push(dv[i as int]));
            lemma_map_values_push(dv.take(i as int), dv[i as int], |d: Seq<char>| (d, "profile"@));
        }
        i = i + 1;
    }
    assert(dv.take(i as int) =~= dv);
    let ghost head = out@.map_values(|d: ResolvedDomain| domain_text(d));
    let ghost pred = |a: Seq<char>| !dv.contains(a);
    let mut k: usize = 0;
    proof {
        reveal(Seq::filter);
        assert(av.take(0) =~= Seq::<Seq<char>>::empty());
        assert(out@.map_values(|d: ResolvedDomain| domain_text(d)) =~= head + av.take(0).filter(
            pred,
        ).map_values(|a: Seq<char>| (a, "auto_include"@)));
    }
    while k < auto_include.len()
        invariant
            dv == domains.deep_view(),
            av == auto_include.deep_view(),
            pred == (|a: Seq<char>| !dv.contains(a)),
            k <= av.len(),
            out@.map_values(|d: ResolvedDomain| domain_text(d)) == head + av.take(k as int).filter(
                pred,
            ).map_values(|a: Seq<char>| (a, "auto_include"@)),
            forall|j: int| 0 <= j < out@.len() ==> (#[trigger] out@[j]).file_count is None,
        decreases av.len() - k,
    {
        let ghost before = out@;
        proof {
            reveal(Seq::filter);
            assert(av.take(k + 1).drop_last() =~= av.take(k as int));
        }
        if !contains_string(domains, auto_include[k].as_str()) {
            out.push(
                ResolvedDomain {
                    path: auto_include[k].clone(),
                    reason: String::from_str("auto_include"),
                    file_count: None,
                },
            );
            assert(av[k as int] == auto_include@[k as int]@);
            assert(out@.map_values(|d: ResolvedDomain| domain_text(d)) =~= before.map_values(
                |d: ResolvedDomain| domain_text(d),
            ).push((av[k as int], "auto_include"@)));
            assert(av.take(k + 1).filter(pred) == av.take(k as int).filter(pred).push(av[k as int]));
            assert(out@.map_values(|d: ResolvedDomain| domain_text(d)) =~= head + av.take(
                k + 1,
            ).filter(pred).map_values(|a: Seq<char>| (a, "auto_include"@)));
        } else {
            assert(av[k as int] == auto_include@[k as int]@);
            assert(av.take(k + 1).filter(pred) == av.take(k as int).filter(pred));
        }
        k = k + 1;
    }
    assert(av.take(k as int) =~= av);
    ResolveResponse { domains: out }
}

/// The paths of the resolved domains.
pub fn response_paths(resp: &ResolveResponse) -> (r: Vec<String>)
    ensures
        r.deep_view() == resp.domains@.map_values(|d: ResolvedDomain| d.path@),
{
    let mut r: Vec<String> = Vec::new();
    let mut i: usize = 0;
    while i < resp.domains.len()
        invariant
            i <= resp.domains@.len(),
            r@.len() == i,
            r.deep_view() == resp.domains@.take(i as int).map_values(|d: ResolvedDomain| d.path@),
        decreases resp.domains@.len() - i,
    {
        let ghost before = r.deep_view();
        r.push(resp.domains[i].path.clone());
        proof {
            assert(r.deep_view() =~= before.push(resp.domains@[i as int].path@));
            assert(resp.domains@.take(i + 1) =~= resp.domains@.take(i as int).push(
                resp.domains@[i as int],
            ));
            lemma_map_values_push(
                resp.domains@.take(i as int),
                resp.domains@[i as int],
                |d: ResolvedDomain| d.path@,
            );
        }
        i = i + 1;
    }
    assert(resp.domains@.take(i as int) =~= resp.domains@);
    r
}

/// MonoGraph's answer when there is one, else the offline resolution of
/// `domains` with `auto_include`; the flag says whether it was offline.
pub fn resolve_or_fallback(
    domains: &Vec<String>,
    auto_include: &Vec<String>,
    answer: Option<ResolveResponse>,
) -> (r: (ResolveResponse, bool))
    ensures
        match answer {
            Some(resp) => r.0 == resp && !r.1,
            None => response_text(r.0) == fallback_text(domains.deep_view(), auto_include.deep_view())
                && r.1 && forall|i: int|
                0 <= i < r.0.domains@.len() ==> (#[trigger] r.0.domains@[i]).file_count is None,
        },
{
    match answer {
        Some(resp) => (resp, false),
        None => (fallback_resolve(domains, auto_include), true),
    }
}

/// The URL of the MonoGraph service at `address`: the address itself when
/// it already starts with `http`, else `http://` and the address.
pub open spec fn base_url_spec(address: Seq<char>) -> Seq<char> {
    if "http"@.is_prefix_of(address) {
        address
    } else {
        "http://"@ + address
    }
}

/// The URL that requests to MonoGraph at `address` start with.
pub fn base_url(address: &str) -> (r: String)
    ensures
        r@ == base_url_spec(address@),
{
    if starts_with(address, "http") {
        String::from_str(address)
    } else {
        let mut r = String::from_str("http://");
        r.append(address);
        r
    }
}

/// The number of entries whose risk, uppercased, is `level`.
pub open spec fn count_at_risk(entries: Seq<ImpactEntry>, level: Seq<char>) -> nat
    decreases entries.len(),
{
    if entries.len() == 0 {
        0
    } else {
        count_at_risk(entries.drop_last(), level) + if spec_to_uppercase(entries.last().risk@)
            == level {
            1nat
        } else {
            0nat
        }
    }
}

impl ImpactResponse {
    /// How many affected domains have risk `level` (compared uppercased).
    pub fn count_risk(&self, level: &str) -> (r: usize)
        ensures
            r == count_at_risk(self.entries@, level@),
    {
        let mut n: usize = 0;
        let mut i: usize = 0;
        while i < self.entries.len()
            invariant
                i <= self.entries@.len(),
                n == count_at_risk(self.entries@.take(i as int), level@),
                n <= i,
            decreases self.entries@.len() - i,
        {
            assert(self.entries@.take(i + 1).drop_last() =~= self.entries@.take(i as int));
            let up = to_uppercase(self.entries[i].risk.as_str());
            if str_eq(up.as_str(), level) {
                n = n + 1;
            }
            i = i + 1;
        }
        assert(self.entries@.take(i as int) =~= self.entries@);
        n
    }

    /// Whether a domain at critical risk is affected.
    pub fn has_critical(&self) -> (r: bool)
        ensures
            r == (count_at_risk(self.entries@, "CRITICAL"@) > 0),
    {
        self.count_risk("CRITICAL") > 0
    }
}

/// The offline resolution lists each requested domain first, as
/// `profile`, and then only automatically included domains that were not
/// requested, as `auto_include`.
pub proof fn lemma_fallback_order(domains: Seq<Seq<char>>, auto_include: Seq<Seq<char>>)
    ensures
        ({
            let t = fallback_text(domains, auto_include);
            &&& t.len() >= domains.len()
            &&& forall|i: int| 0 <= i < domains.len() ==> #[trigger] t[i] == (domains[i], "profile"@)
            &&& forall|i: int|
                domains.len() <= i < t.len() ==> !domains.contains((#[trigger] t[i]).0) && t[i].1
                    == "auto_include"@ && auto_include.contains(t[i].0)
        }),
{
    let pred = |a: Seq<char>| !domains.contains(a);
    let f = auto_include.filter(pred);
    let t = fallback_text(domains, auto_include);
    assert forall|i: int| domains.len() <= i < t.len() implies !domains.contains(
        (#[trigger] t[i]).0,
    ) && t[i].1 == "auto_include"@ && auto_include.contains(t[i].0) by {
        let j = i - domains.len();
        assert(t[i] == (f[j], "auto_include"@));
        auto_include.lemma_filter_pred(pred, j);
        assert(f.contains(f[j]));
        auto_include.lemma_filter_contains_rev(pred, f[j]);
    }
}

/// The offline resolution is complete: every automatically included domain
/// that was not requested is hydrated too, as `auto_include`; and each
/// requested domain is there as `profile`.
pub proof fn lemma_fallback_complete(domains: Seq<Seq<char>>, auto_include: Seq<Seq<char>>)
    ensures
        forall|a: Seq<char>|
            #![trigger auto_include.contains(a)]
            auto_include.contains(a) && !domains.contains(a) ==> fallback_text(domains, auto_include).contains(
                (a, "auto_include"@),
            ),
        forall|d: Seq<char>|
            #![trigger domains.contains(d)]
            domains.contains(d) ==> fallback_text(domains, auto_include).contains((d, "profile"@)),
{
    let pred = |a: Seq<char>| !domains.contains(a);
    let f = auto_include.filter(pred);
    let t = fallback_text(domains, auto_include);
    let head = domains.map_values(|d: Seq<char>| (d, "profile"@));
    let tail = f.map_values(|a: Seq<char>| (a, "auto_include"@));
    assert(t == head + tail);
    assert forall|a: Seq<char>| #![trigger auto_include.contains(a)]
        auto_include.contains(a) && !domains.contains(a) implies t.contains((a, "auto_include"@)) by {
        let k = choose|k: int| 0 <= k < auto_include.len() && auto_include[k] == a;
        auto_include.lemma_filter_contains(pred, k);
        let j = choose|j: int| 0 <= j < f.len() && f[j] == a;
        assert(tail[j] == (a, "auto_include"@));
        assert(t[head.len() + j] == (a, "auto_include"@));
    }
    assert forall|d: Seq<char>| #![trigger domains.contains(d)]
        domains.contains(d) implies t.contains((d, "profile"@)) by {
        let k = choose|k: int| 0 <= k < domains.len() && domains[k] == d;
        assert(t[k] == (d, "profile"@));
    }
}

/// Whether an affected entry's risk, uppercased, is `level`.
pub open spec fn at_level(level: Seq<char>) -> spec_fn(ImpactEntry) -> bool {
    |e: ImpactEntry| spec_to_uppercase(e.risk@) == level
}

/// The count at a risk level is the number of entries whose uppercased risk
/// is that level, and it depends on the risks alone: entries with the same
/// risks, whatever their domains, types, call counts or teams, count the
/// same. It is positive exactly when some entry is at that level.
pub proof fn lemma_count_at_risk_by_risk(entries: Seq<ImpactEntry>, other: Seq<ImpactEntry>, level: Seq<char>)
    requires
        other.len() == entries.len(),
        forall|i: int| 0 <= i < entries.len() ==> (#[trigger] entries[i]).risk@ == other[i].risk@,
    ensures
        count_at_risk(entries, level) == entries.filter(at_level(level)).len(),
        count_at_risk(entries, level) == count_at_risk(other, level),
        count_at_risk(entries, level) > 0 <==> exists|i: int|
            0 <= i < entries.len() && spec_to_uppercase((#[trigger] entries[i]).risk@) == level,
    decreases entries.len(),
{
    reveal(Seq::filter);
    if entries.len() > 0 {
        let e = entries.drop_last();
        let o = other.drop_last();
        assert forall|i: int| 0 <= i < e.len() implies (#[trigger] e[i]).risk@ == o[i].risk@ by {
            assert(e[i] == entries[i]);
            assert(o[i] == other[i]);
        }
        lemma_count_at_risk_by_risk(e, o, level);
        assert(entries.last().risk@ == other.last().risk@) by {
            assert(entries[entries.len() - 1].risk@ == other[entries.len() - 1].risk@);
        }
        if spec_to_uppercase(entries.last().risk@) == level {
            assert(spec_to_uppercase(entries[entries.len() - 1].risk@) == level);
        } else {
            assert forall|i: int| 0 <= i < entries.len() && spec_to_uppercase((#[trigger] entries[i]).risk@) == level
                implies 0 <= i < e.len() && spec_to_uppercase(e[i].risk@) == level by {
                if i == entries.len() - 1 {
                    assert(entries[i] == entries.last());
                }
                assert(e[i] == entries[i]);
            }
            assert forall|i: int| 0 <= i < e.len() && spec_to_uppercase((#[trigger] e[i]).risk@) == level
                implies spec_to_uppercase(entries[i].risk@) == level by {
                assert(e[i] == entries[i]);
            }
        }
    }
}

} // verus!
