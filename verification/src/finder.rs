//! Finder ghost folders: which directories to create, dim and undim, and
//! what the watch loop hydrates when the user navigates into a ghost.
use vstd::prelude::*;
use crate::git::{differs_from, remaining_domains, trim_end_char, trim_end_char_str};
use crate::monograph::{ResolveQuery, ResolveResponse, ResolvedDomain, domain_query, response_paths};
use crate::profile::ProfilesConfig;
use crate::text::{
    chars_of, contains_string, join, lemma_map_values_push, sort_dedup, sorted_listing, split_char,
    split_on, starts_with, str_eq, string_from_range,
};
use crate::workspace::State;

verus! {

/// A change to a directory on disk.
#[derive(Debug, Clone)]
pub enum DirAction {
    /// Create the directory (an empty skeleton).
    CreateDir(String),
    /// Set the hidden flag: the folder shows dimmed.
    Hide(String),
    /// Clear the hidden flag.
    Unhide(String),
}

/// A directory change as a tag (0 create, 1 hide, 2 unhide) and a path.
pub open spec fn action_text(a: DirAction) -> (int, Seq<char>) {
    match a {
        DirAction::CreateDir(p) => (0, p@),
        DirAction::Hide(p) => (1, p@),
        DirAction::Unhide(p) => (2, p@),
    }
}

/// The directories to unhide for `dir`: `dir` itself, then each of its
/// parents from the top down.
pub open spec fn dir_and_parents(dir: Seq<char>) -> Seq<Seq<char>> {
    let p = split_on(dir, '/');
    seq![dir] + Seq::new((p.len() - 1) as nat, |i: int| join(p.take(i + 1), "/"@))
}

/// The directories to unhide for `dir`: itself, then every parent, from
/// the top down.
pub fn unhide_with_parents(dir: &str) -> (r: Vec<String>)
    ensures
        r.deep_view() == dir_and_parents(dir@),
{
    let parts = split_char(dir, '/');
    let ghost p = parts.deep_view();
    proof {
        crate::text::lemma_split_on_nonempty(dir@, '/');
    }
    let mut r: Vec<String> = Vec::new();
    r.push(String::from_str(dir));
    let mut acc = parts[0].clone();
    let mut i: usize = 1;
    assert(p.take(1) =~= seq![p[0]]);
    assert(r.deep_view() =~= seq![dir@]);
    while i < parts.len()
        invariant
            p == parts.deep_view(),
            p == split_on(dir@, '/'),
            1 <= i <= p.len(),
            acc@ == join(p.take(i as int), "/"@),
            r.deep_view() == seq![dir@] + Seq::new((i - 1) as nat, |j: int| join(p.take(j + 1), "/"@)),
        decreases p.len() - i,
    {
        let ghost before = r.deep_view();
        r.push(acc.clone());
        assert(r.deep_view() =~= before.push(acc@));
        assert(r.deep_view() =~= seq![dir@] + Seq::new(i as nat, |j: int| join(p.take(j + 1), "/"@)));
        acc.append("/");
        acc.append(parts[i].as_str());
        proof {
            assert(p.take(i + 1).drop_last() =~= p.take(i as int));
            assert(p.take(i + 1).last() == p[i as int]);
            assert(p[i as int] == parts@[i as int]@);
        }
        i = i + 1;
    }
    r
}

/// The directories to unhide once `domain` is hydrated: the domain and
/// its parents.
pub fn mark_hydrated(domain: &str) -> (r: Vec<String>)
    ensures
        r.deep_view() == dir_and_parents(domain@),
{
    unhide_with_parents(domain)
}

/// Unhide actions for each path.
pub open spec fn unhide_all(paths: Seq<Seq<char>>) -> Seq<(int, Seq<char>)> {
    paths.map_values(|p: Seq<char>| (2int, p))
}

/// The actions of `refresh_tags` for the first `k` directories.
pub open spec fn refresh_actions(
    dirs: Seq<Seq<char>>,
    hydrated: Seq<Seq<char>>,
    exists: Seq<bool>,
    is_leaf: Seq<bool>,
    k: int,
) -> Seq<(int, Seq<char>)>
    decreases k,
{
    if k <= 0 {
        Seq::empty()
    } else {
        let before = refresh_actions(dirs, hydrated, exists, is_leaf, k - 1);
        let d = dirs[k - 1];
        if !exists[k - 1] {
            before
        } else if hydrated.contains(d) {
            before + unhide_all(dir_and_parents(d))
        } else if is_leaf[k - 1] {
            before.push((1int, d))
        } else {
            before
        }
    }
}

/// The number of the first `k` directories that exist on disk.
pub open spec fn count_true(flags: Seq<bool>, k: int) -> nat
    decreases k,
{
    if k <= 0 {
        0
    } else {
        count_true(flags, k - 1) + if flags[k - 1] {
            1nat
        } else {
            0nat
        }
    }
}

/// Appends unhide actions for a directory and its parents.
fn push_unhide(actions: &mut Vec<DirAction>, dir: &str)
    ensures
        final(actions)@.map_values(|a: DirAction| action_text(a)) == old(actions)@.map_values(
            |a: DirAction| action_text(a),
        ) + unhide_all(dir_and_parents(dir@)),
{
    let paths = unhide_with_parents(dir);
    let ghost start = actions@.map_values(|a: DirAction| action_text(a));
    let ghost pv = paths.deep_view();
    let mut i: usize = 0;
    assert(start + unhide_all(pv.take(0)) =~= start);
    while i < paths.len()
        invariant
            pv == paths.deep_view(),
            i <= pv.len(),
            actions@.map_values(|a: DirAction| action_text(a)) == start + unhide_all(pv.take(i as int)),
        decreases pv.len() - i,
    {
        let ghost before = actions@;
        actions.push(DirAction::Unhide(paths[i].clone()));
        proof {
            lemma_map_values_push(before, actions@[before.len() as int], |a: DirAction| action_text(a));
            assert(actions@ == before.push(actions@[before.len() as int]));
            assert(pv.take(i + 1) =~= pv.take(i as int).push(pv[i as int]));
            lemma_map_values_push(pv.take(i as int), pv[i as int], |p: Seq<char>| (2int, p));
            assert(action_text(actions@[before.len() as int]) == (2int, pv[i as int]));
        }
        i = i + 1;
    }
    assert(pv.take(i as int) =~= pv);
}

/// Hidden flags to set from the workspace state: for each listed
/// directory that exists, its hydrated form is unhidden with its parents,
/// a ghost that holds files is hidden. The count is of the directories
/// that exist. `exists` and `is_leaf` say, for each directory, whether it
/// is on disk and whether it holds files in the tree.
pub fn refresh_tags(all_dirs: &Vec<String>, ws: &State, exists: &Vec<bool>, is_leaf: &Vec<bool>) -> (r:
    (Vec<DirAction>, usize))
    requires
        exists@.len() == all_dirs@.len(),
        is_leaf@.len() == all_dirs@.len(),
    ensures
        r.0@.map_values(|a: DirAction| action_text(a)) == refresh_actions(
            all_dirs.deep_view(),
            ws.domains(),
            exists@,
            is_leaf@,
            all_dirs@.len() as int,
        ),
        r.1 == count_true(exists@, all_dirs@.len() as int),
{
    let ghost dv = all_dirs.deep_view();
    let mut actions: Vec<DirAction> = Vec::new();
    let mut updated: usize = 0;
    let mut i: usize = 0;
    assert(actions@.map_values(|a: DirAction| action_text(a)) =~= Seq::empty());
    while i < all_dirs.len()
        invariant
            dv == all_dirs.deep_view(),
            exists@.len() == dv.len(),
            is_leaf@.len() == dv.len(),
            i <= dv.len(),
            actions@.map_values(|a: DirAction| action_text(a)) == refresh_actions(
                dv,
                ws.domains(),
                exists@,
                is_leaf@,
                i as int,
            ),
            updated == count_true(exists@, i as int),
            updated <= i,
        decreases dv.len() - i,
    {
        let dir = all_dirs[i].as_str();
        assert(dv[i as int] == dir@);
        if exists[i] {
            if ws.has_domain(dir) {
                push_unhide(&mut actions, dir);
            } else if is_leaf[i] {
                let ghost before = actions@;
                actions.push(DirAction::Hide(String::from_str(dir)));
                proof {
                    lemma_map_values_push(before, actions@[before.len() as int], |a: DirAction| action_text(a));
                    assert(actions@ == before.push(actions@[before.len() as int]));
                }
            }
            updated = updated + 1;
        }
        i = i + 1;
    }
    (actions, updated)
}

/// The actions of `setup_skeleton_dirs` for the first `k` directories.
pub open spec fn setup_actions(
    dirs: Seq<Seq<char>>,
    hydrated: Seq<Seq<char>>,
    exists: Seq<bool>,
    is_leaf: Seq<bool>,
    k: int,
) -> Seq<(int, Seq<char>)>
    decreases k,
{
    if k <= 0 {
        Seq::empty()
    } else {
        let before = setup_actions(dirs, hydrated, exists, is_leaf, k - 1);
        let d = dirs[k - 1];
        if hydrated.contains(d) {
            before + unhide_all(dir_and_parents(d))
        } else {
            let created = if exists[k - 1] {
                before
            } else {
                before.push((0int, d))
            };
            if is_leaf[k - 1] {
                created.push((1int, d))
            } else {
                created
            }
        }
    }
}

/// The number of the first `k` directories that are ghosts not yet on disk.
pub open spec fn count_created(
    dirs: Seq<Seq<char>>,
    hydrated: Seq<Seq<char>>,
    exists: Seq<bool>,
    k: int,
) -> nat
    decreases k,
{
    if k <= 0 {
        0
    } else {
        count_created(dirs, hydrated, exists, k - 1) + if !hydrated.contains(dirs[k - 1])
            && !exists[k - 1] {
            1nat
        } else {
            0nat
        }
    }
}

/// The ghost-folder setup: each hydrated directory is unhidden with its
/// parents; each other one is created when missing and hidden when it
/// holds files (a container of directories stays visible). Also returns
/// the number of directories and the number created.
pub fn setup_skeleton_dirs(
    all_dirs: &Vec<String>,
    ws: &State,
    exists: &Vec<bool>,
    is_leaf: &Vec<bool>,
) -> (r: (Vec<DirAction>, usize, usize))
    requires
        exists@.len() == all_dirs@.len(),
        is_leaf@.len() == all_dirs@.len(),
    ensures
        r.0@.map_values(|a: DirAction| action_text(a)) == setup_actions(
            all_dirs.deep_view(),
            ws.domains(),
            exists@,
            is_leaf@,
            all_dirs@.len() as int,
        ),
        r.1 == all_dirs@.len(),
        r.2 == count_created(all_dirs.deep_view(), ws.domains(), exists@, all_dirs@.len() as int),
{
    let ghost dv = all_dirs.deep_view();
    let mut actions: Vec<DirAction> = Vec::new();
    let mut created: usize = 0;
    let mut i: usize = 0;
    assert(actions@.map_values(|a: DirAction| action_text(a)) =~= Seq::empty());
    while i < all_dirs.len()
        invariant
            dv == all_dirs.deep_view(),
            exists@.len() == dv.len(),
            is_leaf@.len() == dv.len(),
            i <= dv.len(),
            actions@.map_values(|a: DirAction| action_text(a)) == setup_actions(
                dv,
                ws.domains(),
                exists@,
                is_leaf@,
                i as int,
            ),
            created == count_created(dv, ws.domains(), exists@, i as int),
            created <= i,
        decreases dv.len() - i,
    {
        let dir = all_dirs[i].as_str();
        assert(dv[i as int] == dir@);
        if ws.has_domain(dir) {
            push_unhide(&mut actions, dir);
        } else {
            if !exists[i] {
                let ghost before = actions@;
                actions.push(DirAction::CreateDir(String::from_str(dir)));
                proof {
                    lemma_map_values_push(before, actions@[before.len() as int], |a: DirAction| action_text(a));
                    assert(actions@ == before.push(actions@[before.len() as int]));
                }
                created = created + 1;
            }
            if is_leaf[i] {
                let ghost before = actions@;
                actions.push(DirAction::Hide(String::from_str(dir)));
                proof {
                    lemma_map_values_push(before, actions@[before.len() as int], |a: DirAction| action_text(a));
                    assert(actions@ == before.push(actions@[before.len() as int]));
                }
            }
        }
        i = i + 1;
    }
    (actions, all_dirs.len(), created)
}

/// The workspace state once `domain` is dehydrated: it is no longer listed.
pub fn dehydrate_domain(ws: &State, domain: &str) -> (r: State)
    ensures
        r.domains() == remaining_domains(ws.domains(), domain@),
        r.active_profile == ws.active_profile,
        r.last_updated == ws.last_updated,
{
    let ghost hv = ws.domains();
    let mut kept: Vec<String> = Vec::new();
    let mut i: usize = 0;
    proof {
        reveal(Seq::filter);
        assert(hv.take(0) =~= Seq::<Seq<char>>::empty());
    }
    while i < ws.hydrated_domains.len()
        invariant
            hv == ws.domains(),
            i <= hv.len(),
            kept.deep_view() == hv.take(i as int).filter(differs_from(domain@)),
        decreases hv.len() - i,
    {
        let ghost before = kept.deep_view();
        proof {
            reveal(Seq::filter);
            assert(hv.take(i + 1).drop_last() =~= hv.take(i as int));
        }
        if !str_eq(ws.hydrated_domains[i].as_str(), domain) {
            kept.push(ws.hydrated_domains[i].clone());
            assert(kept.deep_view() =~= before.push(hv[i as int]));
        } else {
            assert(hv[i as int] == domain@);
        }
        i = i + 1;
    }
    assert(hv.take(i as int) =~= hv);
    State {
        active_profile: ws.active_profile.clone(),
        hydrated_domains: kept,
        last_updated: ws.last_updated.clone(),
    }
}

/// The domains that dehydrating everything dehydrates: all hydrated ones.
pub fn dehydrate_all(ws: &State) -> (r: Vec<String>)
    ensures
        r.deep_view() == ws.domains(),
{
    let r = ws.hydrated_domains.clone();
    assert(r.deep_view() =~= ws.domains());
    r
}

/// The elements of `all` that are not in `out`.
pub open spec fn without(all: Seq<Seq<char>>, out: Seq<Seq<char>>) -> Seq<Seq<char>> {
    all.filter(|d: Seq<char>| !out.contains(d))
}

/// The listed strings that are not in `out`, in order.
fn filter_out(all: &Vec<String>, out: &Vec<String>) -> (r: Vec<String>)
    ensures
        r.deep_view() == without(all.deep_view(), out.deep_view()),
{
    let ghost av = all.deep_view();
    let ghost ov = out.deep_view();
    let mut kept: Vec<String> = Vec::new();
    let mut i: usize = 0;
    proof {
        reveal(Seq::filter);
        assert(av.take(0) =~= Seq::<Seq<char>>::empty());
    }
    while i < all.len()
        invariant
            av == all.deep_view(),
            ov == out.deep_view(),
            i <= av.len(),
            kept.deep_view() == av.take(i as int).filter(|d: Seq<char>| !ov.contains(d)),
        decreases av.len() - i,
    {
        let ghost before = kept.deep_view();
        proof {
            reveal(Seq::filter);
            assert(av.take(i + 1).drop_last() =~= av.take(i as int));
        }
        assert(av[i as int] == all@[i as int]@);
        if !contains_string(out, all[i].as_str()) {
            kept.push(all[i].clone());
            assert(kept.deep_view() =~= before.push(av[i as int]));
        }
        i = i + 1;
    }
    assert(av.take(i as int) =~= av);
    kept
}

/// The ghost folders: the listed directories that are not hydrated.
pub fn rebuild_ghosts(all_dirs: &Vec<String>, ws: &State) -> (r: Vec<String>)
    ensures
        r.deep_view() == without(all_dirs.deep_view(), ws.domains()),
{
    filter_out(all_dirs, &ws.hydrated_domains)
}

/// The ghosts left once `hydrated` are hydrated.
pub fn remove_hydrated(ghosts: &Vec<String>, hydrated: &Vec<String>) -> (r: Vec<String>)
    ensures
        r.deep_view() == without(ghosts.deep_view(), hydrated.deep_view()),
{
    filter_out(ghosts, hydrated)
}

/// The ghost directory Finder shows, if it newly shows one: a path other
/// than the last one seen, inside the repository, naming a ghost once the
/// repository prefix and trailing slashes are taken off.
pub open spec fn navigated_dir(
    finder_path: Seq<char>,
    last_path: Seq<char>,
    repo_prefix: Seq<char>,
    ghosts: Seq<Seq<char>>,
) -> Option<Seq<char>> {
    let dir = trim_end_char(finder_path.skip(repo_prefix.len() as int), '/');
    if finder_path != last_path && repo_prefix.is_prefix_of(finder_path) && dir.len() > 0
        && ghosts.contains(dir) {
        Some(dir)
    } else {
        None
    }
}

/// The ghost directory that Finder has navigated into, if any; the watch
/// loop hydrates it.
pub fn navigated_ghost(
    finder_path: &str,
    last_path: &str,
    repo_prefix: &str,
    ghosts: &Vec<String>,
) -> (r: Option<String>)
    ensures
        match r {
            Some(d) => navigated_dir(finder_path@, last_path@, repo_prefix@, ghosts.deep_view())
                == Some(d@),
            None => navigated_dir(finder_path@, last_path@, repo_prefix@, ghosts.deep_view()) is None,
        },
{
    if str_eq(finder_path, last_path) || !starts_with(finder_path, repo_prefix) {
        return None;
    }
    let cs = chars_of(finder_path);
    let pl = chars_of(repo_prefix).len();
    let rest = string_from_range(&cs, pl, cs.len());
    assert(rest@ =~= finder_path@.skip(repo_prefix@.len() as int));
    let dir = trim_end_char_str(rest.as_str(), '/');
    if !dir.as_str().is_empty() && contains_string(ghosts, dir.as_str()) {
        Some(dir)
    } else {
        None
    }
}

/// What the watch loop remembers between polls: the last Finder path it
/// acted on and the directories that are still ghosts.
#[derive(Debug, Clone)]
pub struct WatchState {
    pub last_path: String,
    pub ghosts: Vec<String>,
}

/// The last path after Finder shows `finder_path`: it is taken when it is
/// new and inside the repository.
pub open spec fn next_last_path(last_path: Seq<char>, finder_path: Seq<char>, repo_prefix: Seq<char>) -> Seq<char> {
    if finder_path != last_path && repo_prefix.is_prefix_of(finder_path) {
        finder_path
    } else {
        last_path
    }
}

impl WatchState {
    /// The state the loop starts in: no path seen, the unhydrated listed
    /// directories as ghosts.
    pub fn new(all_dirs: &Vec<String>, ws: &State) -> (r: WatchState)
        ensures
            r.last_path@ == Seq::<char>::empty(),
            r.ghosts.deep_view() == without(all_dirs.deep_view(), ws.domains()),
    {
        WatchState { last_path: String::new(), ghosts: rebuild_ghosts(all_dirs, ws) }
    }

    /// The periodic refresh: the ghosts are recomputed from the workspace
    /// state; the last path is kept.
    pub fn refresh(&mut self, all_dirs: &Vec<String>, ws: &State)
        ensures
            final(self).last_path == old(self).last_path,
            final(self).ghosts.deep_view() == without(all_dirs.deep_view(), ws.domains()),
    {
        self.ghosts = rebuild_ghosts(all_dirs, ws);
    }

    /// Finder shows `finder_path`: the ghost to hydrate, if it newly shows
    /// one, and the path remembered.
    pub fn observe(&mut self, finder_path: &str, repo_prefix: &str) -> (r: Option<String>)
        ensures
            final(self).ghosts == old(self).ghosts,
            final(self).last_path@ == next_last_path(old(self).last_path@, finder_path@, repo_prefix@),
            match r {
                Some(d) => navigated_dir(finder_path@, old(self).last_path@, repo_prefix@, old(self).ghosts.deep_view())
                    == Some(d@),
                None => navigated_dir(finder_path@, old(self).last_path@, repo_prefix@, old(self).ghosts.deep_view()) is None,
            },
    {
        let r = navigated_ghost(finder_path, self.last_path.as_str(), repo_prefix, &self.ghosts);
        if !str_eq(finder_path, self.last_path.as_str()) && starts_with(finder_path, repo_prefix) {
            self.last_path = String::from_str(finder_path);
        }
        r
    }

    /// `domains` were hydrated: they are ghosts no more.
    pub fn hydrated(&mut self, domains: &Vec<String>)
        ensures
            final(self).last_path == old(self).last_path,
            final(self).ghosts.deep_view() == without(old(self).ghosts.deep_view(), domains.deep_view()),
    {
        self.ghosts = remove_hydrated(&self.ghosts, domains);
    }
}

/// Finder showing the same path again hydrates nothing: once a path has
/// been observed, observing it again finds no ghost.
pub proof fn lemma_observe_same_path_again(
    last_path: Seq<char>,
    finder_path: Seq<char>,
    repo_prefix: Seq<char>,
    ghosts: Seq<Seq<char>>,
)
    requires
        navigated_dir(finder_path, last_path, repo_prefix, ghosts) is Some,
    ensures
        navigated_dir(finder_path, next_last_path(last_path, finder_path, repo_prefix), repo_prefix, ghosts) is None,
{
}

/// After hydration, none of the hydrated domains is a ghost, and every
/// ghost left was a ghost before.
pub proof fn lemma_hydrated_not_ghosts(ghosts: Seq<Seq<char>>, domains: Seq<Seq<char>>)
    ensures
        forall|d: Seq<char>| #[trigger] domains.contains(d) ==> !without(ghosts, domains).contains(d),
        forall|g: Seq<char>| #[trigger] without(ghosts, domains).contains(g) ==> ghosts.contains(g),
{
    let pred = |d: Seq<char>| !domains.contains(d);
    assert forall|d: Seq<char>| #[trigger] domains.contains(d) implies !without(ghosts, domains).contains(d) by {
        if without(ghosts, domains).contains(d) {
            ghosts.lemma_filter_contains_rev(pred, d);
        }
    }
    assert forall|g: Seq<char>| #[trigger] without(ghosts, domains).contains(g) implies ghosts.contains(g) by {
        ghosts.lemma_filter_contains_rev(pred, g);
    }
}

/// The query for `domain` when it is navigated into or planned: that
/// domain alone, with AI inference on, and the domains the active profile
/// always includes (none when profiles or state could not be read, or no
/// profile is active).
pub fn active_domain_query(domain: &str, profiles: &Option<ProfilesConfig>, ws: &Option<State>) -> (q:
    ResolveQuery)
    ensures
        q.domains.deep_view() == seq![domain@],
        q.auto_include.deep_view() == active_auto_include_spec(*profiles, *ws),
        q.ai_infer,
{
    let auto = active_auto_include(profiles, ws);
    domain_query(domain, &auto, true)
}

/// The ghosts under `d`: those starting with `d/`.
pub open spec fn is_under(g: Seq<char>, d: Seq<char>) -> bool {
    (d + "/"@).is_prefix_of(g)
}

/// The domains to hydrate with every ghost below any of them, once each,
/// sorted.
pub open spec fn with_children_set(domains: Seq<Seq<char>>, ghosts: Seq<Seq<char>>) -> Set<Seq<char>> {
    domains.to_set().union(
        ghosts.to_set().filter(|g: Seq<char>| exists|i: int| 0 <= i < domains.len() && is_under(g, #[trigger] domains[i])),
    )
}

/// The domains together with all the ghost directories below them, once
/// each, sorted.
pub fn with_ghost_children(domains: &Vec<String>, ghosts: &Vec<String>) -> (r: Vec<String>)
    ensures
        sorted_listing(r.deep_view(), with_children_set(domains.deep_view(), ghosts.deep_view())),
{
    let ghost dv = domains.deep_view();
    let ghost gv = ghosts.deep_view();
    let mut all: Vec<String> = Vec::new();
    let mut i: usize = 0;
    while i < domains.len()
        invariant
            dv == domains.deep_view(),
            gv == ghosts.deep_view(),
            i <= dv.len(),
            forall|x: Seq<char>| #[trigger] all.deep_view().contains(x) <==> (dv.take(i as int).contains(x) || (gv.contains(x) && exists|j: int| 0 <= j < i && is_under(x, #[trigger] dv[j]))),
        decreases dv.len() - i,
    {
        let d = domains[i].as_str();
        assert(dv[i as int] == d@);
        let mut prefix = String::from_str(d);
        prefix.append("/");
        let ghost before = all.deep_view();
        all.push(String::from_str(d));
        assert(all.deep_view() =~= before.push(d@));
        let ghost mid = all.deep_view();
        let mut k: usize = 0;
        while k < ghosts.len()
            invariant
                gv == ghosts.deep_view(),
                prefix@ == d@ + "/"@,
                k <= gv.len(),
                forall|x: Seq<char>| #[trigger] all.deep_view().contains(x) <==> (mid.contains(x) || (gv.take(k as int).contains(x) && is_under(x, d@))),
            decreases gv.len() - k,
        {
            let ghost b2 = all.deep_view();
            assert(gv[k as int] == ghosts@[k as int]@);
            if starts_with(ghosts[k].as_str(), prefix.as_str()) {
                all.push(ghosts[k].clone());
                assert(all.deep_view() =~= b2.push(gv[k as int]));
            }
            proof {
                assert(gv.take(k + 1) =~= gv.take(k as int).push(gv[k as int]));
                assert forall|x: Seq<char>| #[trigger] all.deep_view().contains(x) <==> (mid.contains(x) || (gv.take(k + 1).contains(x) && is_under(x, d@))) by {
                    crate::text::lemma_push_contains_any(b2, gv[k as int], x);
                    crate::text::lemma_push_contains_any(gv.take(k as int), gv[k as int], x);
                }
            }
            k = k + 1;
        }
        proof {
            assert(gv.take(k as int) =~= gv);
            assert(dv.take(i + 1) =~= dv.take(i as int).push(d@));
            assert forall|x: Seq<char>| #[trigger] all.deep_view().contains(x) <==> (dv.take(i + 1).contains(x) || (gv.contains(x) && exists|j: int| 0 <= j < i + 1 && is_under(x, #[trigger] dv[j]))) by {
                crate::text::lemma_push_contains_any(before, d@, x);
                crate::text::lemma_push_contains_any(dv.take(i as int), d@, x);
                if gv.contains(x) && is_under(x, d@) {
                    assert(is_under(x, dv[i as int]));
                }
                if exists|j: int| 0 <= j < i + 1 && is_under(x, #[trigger] dv[j]) {
                    let j = choose|j: int| 0 <= j < i + 1 && is_under(x, #[trigger] dv[j]);
                    if j == i {
                        assert(is_under(x, d@));
                    }
                }
            }
        }
        i = i + 1;
    }
    let r = sort_dedup(&all);
    proof {
        assert(dv.take(i as int) =~= dv);
        assert(all.deep_view().to_set() =~= with_children_set(dv, gv));
    }
    r
}

/// The domains to hydrate with `domain` from MonoGraph's answer: its paths,
/// or `domain` alone when MonoGraph gave none, was unreachable or failed.
pub open spec fn deps_or_self(domain: Seq<char>, answer: Option<ResolveResponse>) -> Seq<Seq<char>> {
    match answer {
        Some(resp) => if resp.domains@.len() > 0 {
            resp.domains@.map_values(|d: ResolvedDomain| d.path@)
        } else {
            seq![domain]
        },
        None => seq![domain],
    }
}

/// The domains the watch loop hydrates for `domain`: MonoGraph's
/// resolution (`None` when it is unreachable or failed), or `domain` alone.
pub fn resolve_with_deps(domain: &str, answer: &Option<ResolveResponse>) -> (r: Vec<String>)
    ensures
        r.deep_view() == deps_or_self(domain@, *answer),
{
    match answer {
        Some(resp) => {
            if resp.domains.len() > 0 {
                return response_paths(resp);
            }
        },
        None => {},
    }
    let mut r: Vec<String> = Vec::new();
    r.push(String::from_str(domain));
    assert(r.deep_view() =~= seq![domain@]);
    r
}

/// The `auto_include` list of the active profile, or nothing when profiles
/// or state could not be read, no profile is active, or it selects none.
pub open spec fn active_auto_include_spec(
    profiles: Option<ProfilesConfig>,
    ws: Option<State>,
) -> Seq<Seq<char>> {
    match (profiles, ws) {
        (Some(pc), Some(st)) => match st.active_profile {
            Some(name) => match crate::profile::selected_name(pc.profile_map(), name@) {
                Some(k) => pc.profile_map()[k].auto_include.deep_view(),
                None => Seq::empty(),
            },
            None => Seq::empty(),
        },
        _ => Seq::empty(),
    }
}

/// The domains the active profile always includes.
pub fn active_auto_include(profiles: &Option<ProfilesConfig>, ws: &Option<State>) -> (r: Vec<
    String,
>)
    ensures
        r.deep_view() == active_auto_include_spec(*profiles, *ws),
{
    match (profiles, ws) {
        (Some(pc), Some(st)) => match &st.active_profile {
            Some(name) => match pc.get_profile(name.as_str()) {
                Ok(p) => {
                    let r = p.auto_include.clone();
                    assert(r.deep_view() =~= p.auto_include.deep_view());
                    r
                },
                Err(_) => {
                    let r: Vec<String> = Vec::new();
                    assert(r.deep_view() =~= Seq::<Seq<char>>::empty());
                    r
                },
            },
            None => {
                let r: Vec<String> = Vec::new();
                assert(r.deep_view() =~= Seq::<Seq<char>>::empty());
                r
            },
        },
        _ => {
            let r: Vec<String> = Vec::new();
            assert(r.deep_view() =~= Seq::<Seq<char>>::empty());
            r
        },
    }
}

/// `g` lies strictly below `d` in the tree: it starts with `d`, then `/`.
proof fn lemma_is_under_explicit(g: Seq<char>, d: Seq<char>)
    ensures
        is_under(g, d) <==> (g.len() > d.len() && g.subrange(0, d.len() as int) == d && g[d.len() as int]
            == '/'),
{
    reveal_strlit("/");
    let p = d + "/"@;
    if is_under(g, d) {
        assert(g.subrange(0, p.len() as int) == p);
        assert(g.subrange(0, d.len() as int) =~= p.subrange(0, d.len() as int));
        assert(p.subrange(0, d.len() as int) =~= d);
        assert(g[d.len() as int] == g.subrange(0, p.len() as int)[d.len() as int]);
    }
    if g.len() > d.len() && g.subrange(0, d.len() as int) == d && g[d.len() as int] == '/' {
        assert forall|j: int| 0 <= j < p.len() implies g.subrange(0, p.len() as int)[j] == p[j] by {
            if j < d.len() {
                assert(g.subrange(0, d.len() as int)[j] == d[j]);
            }
        }
        assert(g.subrange(0, p.len() as int) =~= p);
    }
}

/// What the watch loop hydrates for `domains`: exactly the domains and the
/// ghosts that lie below one of them (starting with the domain and `/`).
/// In particular a ghost above a domain, such as its parent, is not
/// hydrated unless it is itself one of the domains.
pub proof fn lemma_ghost_children_exact(domains: Seq<Seq<char>>, ghosts: Seq<Seq<char>>)
    ensures
        forall|x: Seq<char>|
            #[trigger] with_children_set(domains, ghosts).contains(x) <==> (domains.contains(x) || (
            ghosts.contains(x) && exists|i: int|
                0 <= i < domains.len() && x.len() > (#[trigger] domains[i]).len() && x.subrange(
                    0,
                    domains[i].len() as int,
                ) == domains[i] && x[domains[i].len() as int] == '/')),
{
    assert forall|x: Seq<char>|
        #[trigger] with_children_set(domains, ghosts).contains(x) <==> (domains.contains(x) || (
        ghosts.contains(x) && exists|i: int|
            0 <= i < domains.len() && x.len() > (#[trigger] domains[i]).len() && x.subrange(
                0,
                domains[i].len() as int,
            ) == domains[i] && x[domains[i].len() as int] == '/')) by {
        if exists|i: int| 0 <= i < domains.len() && is_under(x, #[trigger] domains[i]) {
            let i = choose|i: int| 0 <= i < domains.len() && is_under(x, #[trigger] domains[i]);
            lemma_is_under_explicit(x, domains[i]);
        }
        if exists|i: int|
            0 <= i < domains.len() && x.len() > (#[trigger] domains[i]).len() && x.subrange(
                0,
                domains[i].len() as int,
            ) == domains[i] && x[domains[i].len() as int] == '/' {
            let i = choose|i: int|
                0 <= i < domains.len() && x.len() > (#[trigger] domains[i]).len() && x.subrange(
                    0,
                    domains[i].len() as int,
                ) == domains[i] && x[domains[i].len() as int] == '/';
            lemma_is_under_explicit(x, domains[i]);
        }
    }
}

/// Whether `acts` holds the action with tag `t` on `d`.
proof fn lemma_tagged_in_add(a: Seq<(int, Seq<char>)>, b: Seq<(int, Seq<char>)>, x: (int, Seq<char>))
    ensures
        a.contains(x) ==> (a + b).contains(x),
        b.contains(x) ==> (a + b).contains(x),
{
    if a.contains(x) {
        let j = choose|j: int| 0 <= j < a.len() && a[j] == x;
        assert((a + b)[j] == x);
    }
    if b.contains(x) {
        let j = choose|j: int| 0 <= j < b.len() && b[j] == x;
        assert((a + b)[a.len() + j] == x);
    }
}

/// What the ghost-folder setup does to each listed directory: it hides
/// exactly the unhydrated directories that hold files, whether or not they
/// had to be created (a directory that holds only directories stays
/// visible); it creates exactly the unhydrated directories not on disk; it
/// unhides each hydrated directory, and unhides nothing but hydrated
/// directories and their parents.
pub proof fn lemma_setup_actions_per_dir(
    dirs: Seq<Seq<char>>,
    hydrated: Seq<Seq<char>>,
    exists: Seq<bool>,
    is_leaf: Seq<bool>,
    k: int,
)
    requires
        0 <= k <= dirs.len(),
        exists.len() == dirs.len(),
        is_leaf.len() == dirs.len(),
    ensures
        ({
            let acts = setup_actions(dirs, hydrated, exists, is_leaf, k);
            &&& forall|j: int|
                0 <= j < acts.len() && (#[trigger] acts[j]).0 == 1 ==> exists|i: int|
                    0 <= i < k && #[trigger] dirs[i] == acts[j].1 && is_leaf[i] && !hydrated.contains(dirs[i])
            &&& forall|i: int|
                0 <= i < k && is_leaf[i] && !hydrated.contains(#[trigger] dirs[i]) ==> acts.contains((1int, dirs[i]))
            &&& forall|j: int|
                0 <= j < acts.len() && (#[trigger] acts[j]).0 == 0 ==> exists|i: int|
                    0 <= i < k && #[trigger] dirs[i] == acts[j].1 && !exists[i] && !hydrated.contains(dirs[i])
            &&& forall|i: int|
                0 <= i < k && !exists[i] && !hydrated.contains(#[trigger] dirs[i]) ==> acts.contains((0int, dirs[i]))
            &&& forall|j: int|
                0 <= j < acts.len() && (#[trigger] acts[j]).0 == 2 ==> exists|i: int|
                    0 <= i < k && hydrated.contains(#[trigger] dirs[i]) && dir_and_parents(dirs[i]).contains(acts[j].1)
            &&& forall|i: int|
                0 <= i < k && hydrated.contains(#[trigger] dirs[i]) ==> acts.contains((2int, dirs[i]))
            &&& forall|j: int| 0 <= j < acts.len() ==> 0 <= (#[trigger] acts[j]).0 <= 2
        }),
    decreases k,
{
    if k > 0 {
        lemma_setup_actions_per_dir(dirs, hydrated, exists, is_leaf, k - 1);
        let before = setup_actions(dirs, hydrated, exists, is_leaf, k - 1);
        let acts = setup_actions(dirs, hydrated, exists, is_leaf, k);
        let d = dirs[k - 1];
        if hydrated.contains(d) {
            let u = unhide_all(dir_and_parents(d));
            assert(acts == before + u);
            assert(u[0] == (2int, d));
            assert forall|x: (int, Seq<char>)| before.contains(x) implies acts.contains(x) by {
                lemma_tagged_in_add(before, u, x);
            }
            lemma_tagged_in_add(before, u, (2int, d));
            assert(u.contains((2int, d)));
            assert forall|j: int| 0 <= j < acts.len() && (#[trigger] acts[j]).0 == 2 implies exists|i: int|
                0 <= i < k && hydrated.contains(#[trigger] dirs[i]) && dir_and_parents(dirs[i]).contains(acts[j].1) by {
                if j >= before.len() {
                    let q = j - before.len();
                    assert(acts[j] == u[q]);
                    assert(dir_and_parents(d)[q] == acts[j].1);
                    assert(dir_and_parents(dirs[k - 1]).contains(acts[j].1));
                } else {
                    assert(acts[j] == before[j]);
                }
            }
            assert forall|j: int| 0 <= j < acts.len() && (#[trigger] acts[j]).0 == 1 implies exists|i: int|
                0 <= i < k && #[trigger] dirs[i] == acts[j].1 && is_leaf[i] && !hydrated.contains(dirs[i]) by {
                if j >= before.len() {
                    assert(acts[j] == u[j - before.len()]);
                } else {
                    assert(acts[j] == before[j]);
                }
            }
            assert forall|j: int| 0 <= j < acts.len() && (#[trigger] acts[j]).0 == 0 implies exists|i: int|
                0 <= i < k && #[trigger] dirs[i] == acts[j].1 && !exists[i] && !hydrated.contains(dirs[i]) by {
                if j >= before.len() {
                    assert(acts[j] == u[j - before.len()]);
                } else {
                    assert(acts[j] == before[j]);
                }
            }
            assert forall|j: int| 0 <= j < acts.len() implies 0 <= (#[trigger] acts[j]).0 <= 2 by {
                if j >= before.len() {
                    assert(acts[j] == u[j - before.len()]);
                } else {
                    assert(acts[j] == before[j]);
                }
            }
        } else {
            let created = if exists[k - 1] {
                before
            } else {
                before.push((0int, d))
            };
            assert forall|x: (int, Seq<char>)| before.contains(x) implies created.contains(x) by {
                if !exists[k - 1] {
                    let j = choose|j: int| 0 <= j < before.len() && before[j] == x;
                    assert(created[j] == x);
                }
            }
            if !exists[k - 1] {
                assert(created[before.len() as int] == (0int, d));
            }
            assert forall|x: (int, Seq<char>)| created.contains(x) implies acts.contains(x) by {
                if is_leaf[k - 1] {
                    let j = choose|j: int| 0 <= j < created.len() && created[j] == x;
                    assert(acts[j] == x);
                }
            }
            if is_leaf[k - 1] {
                assert(acts[created.len() as int] == (1int, d));
            }
            assert forall|j: int| 0 <= j < acts.len() implies (#[trigger] acts[j]) == before[j] || acts[j] == (0int, d)
                || acts[j] == (1int, d) by {
                if j < before.len() {
                    assert(created[j] == before[j]);
                } else if j < created.len() {
                } else {
                }
            }
            assert forall|j: int| 0 <= j < acts.len() && (#[trigger] acts[j]).0 == 1 implies exists|i: int|
                0 <= i < k && #[trigger] dirs[i] == acts[j].1 && is_leaf[i] && !hydrated.contains(dirs[i]) by {
                if acts[j] != before[j] || j >= before.len() {
                    assert(dirs[k - 1] == acts[j].1);
                }
            }
            assert forall|j: int| 0 <= j < acts.len() && (#[trigger] acts[j]).0 == 0 implies exists|i: int|
                0 <= i < k && #[trigger] dirs[i] == acts[j].1 && !exists[i] && !hydrated.contains(dirs[i]) by {
                if acts[j] != before[j] || j >= before.len() {
                    assert(dirs[k - 1] == acts[j].1);
                }
            }
            assert forall|j: int| 0 <= j < acts.len() && (#[trigger] acts[j]).0 == 2 implies exists|i: int|
                0 <= i < k && hydrated.contains(#[trigger] dirs[i]) && dir_and_parents(dirs[i]).contains(acts[j].1) by {
                assert(acts[j] == before[j]);
            }
        }
    }
}

/// What refreshing the hidden flags does to each listed directory: it
/// touches only directories on disk, hides exactly the unhydrated ones that
/// hold files (a directory of directories stays visible), creates nothing,
/// unhides each hydrated one, and unhides nothing but hydrated directories
/// and their parents.
pub proof fn lemma_refresh_actions_per_dir(
    dirs: Seq<Seq<char>>,
    hydrated: Seq<Seq<char>>,
    exists: Seq<bool>,
    is_leaf: Seq<bool>,
    k: int,
)
    requires
        0 <= k <= dirs.len(),
        exists.len() == dirs.len(),
        is_leaf.len() == dirs.len(),
    ensures
        ({
            let acts = refresh_actions(dirs, hydrated, exists, is_leaf, k);
            &&& forall|j: int|
                0 <= j < acts.len() && (#[trigger] acts[j]).0 == 1 ==> exists|i: int|
                    0 <= i < k && #[trigger] dirs[i] == acts[j].1 && exists[i] && is_leaf[i] && !hydrated.contains(dirs[i])
            &&& forall|i: int|
                0 <= i < k && exists[i] && is_leaf[i] && !hydrated.contains(#[trigger] dirs[i]) ==> acts.contains((1int, dirs[i]))
            &&& forall|j: int|
                0 <= j < acts.len() && (#[trigger] acts[j]).0 == 2 ==> exists|i: int|
                    0 <= i < k && exists[i] && hydrated.contains(#[trigger] dirs[i]) && dir_and_parents(dirs[i]).contains(acts[j].1)
            &&& forall|i: int|
                0 <= i < k && exists[i] && hydrated.contains(#[trigger] dirs[i]) ==> acts.contains((2int, dirs[i]))
            &&& forall|j: int| 0 <= j < acts.len() ==> 1 <= (#[trigger] acts[j]).0 <= 2
        }),
    decreases k,
{
    if k > 0 {
        lemma_refresh_actions_per_dir(dirs, hydrated, exists, is_leaf, k - 1);
        let before = refresh_actions(dirs, hydrated, exists, is_leaf, k - 1);
        let acts = refresh_actions(dirs, hydrated, exists, is_leaf, k);
        let d = dirs[k - 1];
        if !exists[k - 1] {
            assert(acts == before);
        } else if hydrated.contains(d) {
            let u = unhide_all(dir_and_parents(d));
            assert(acts == before + u);
            assert(u[0] == (2int, d));
            assert forall|x: (int, Seq<char>)| before.contains(x) implies acts.contains(x) by {
                lemma_tagged_in_add(before, u, x);
            }
            lemma_tagged_in_add(before, u, (2int, d));
            assert(u.contains((2int, d)));
            assert forall|j: int| 0 <= j < acts.len() && (#[trigger] acts[j]).0 == 2 implies exists|i: int|
                0 <= i < k && exists[i] && hydrated.contains(#[trigger] dirs[i]) && dir_and_parents(dirs[i]).contains(acts[j].1) by {
                if j >= before.len() {
                    let q = j - before.len();
                    assert(acts[j] == u[q]);
                    assert(dir_and_parents(d)[q] == acts[j].1);
                    assert(dir_and_parents(dirs[k - 1]).contains(acts[j].1));
                } else {
                    assert(acts[j] == before[j]);
                }
            }
            assert forall|j: int| 0 <= j < acts.len() && (#[trigger] acts[j]).0 == 1 implies exists|i: int|
                0 <= i < k && #[trigger] dirs[i] == acts[j].1 && exists[i] && is_leaf[i] && !hydrated.contains(dirs[i]) by {
                if j >= before.len() {
                    assert(acts[j] == u[j - before.len()]);
                } else {
                    assert(acts[j] == before[j]);
                }
            }
            assert forall|j: int| 0 <= j < acts.len() implies 1 <= (#[trigger] acts[j]).0 <= 2 by {
                if j >= before.len() {
                    assert(acts[j] == u[j - before.len()]);
                } else {
                    assert(acts[j] == before[j]);
                }
            }
        } else if is_leaf[k - 1] {
            assert(acts == before.push((1int, d)));
            assert forall|x: (int, Seq<char>)| before.contains(x) implies acts.contains(x) by {
                let j = choose|j: int| 0 <= j < before.len() && before[j] == x;
                assert(acts[j] == x);
            }
            assert(acts[before.len() as int] == (1int, d));
            assert forall|j: int| 0 <= j < acts.len() && (#[trigger] acts[j]).0 == 1 implies exists|i: int|
                0 <= i < k && #[trigger] dirs[i] == acts[j].1 && exists[i] && is_leaf[i] && !hydrated.contains(dirs[i]) by {
                if j == before.len() {
                    assert(dirs[k - 1] == acts[j].1);
                } else {
                    assert(acts[j] == before[j]);
                }
            }
            assert forall|j: int| 0 <= j < acts.len() && (#[trigger] acts[j]).0 == 2 implies exists|i: int|
                0 <= i < k && exists[i] && hydrated.contains(#[trigger] dirs[i]) && dir_and_parents(dirs[i]).contains(acts[j].1) by {
                assert(acts[j] == before[j]);
            }
            assert forall|j: int| 0 <= j < acts.len() implies 1 <= (#[trigger] acts[j]).0 <= 2 by {
                if j < before.len() {
                    assert(acts[j] == before[j]);
                }
            }
        } else {
            assert(acts == before);
        }
    }
}

} // verus!
