//! Team profiles (`.sam/profiles.yaml`), repository settings, and finding the
//! repository root.
use vstd::prelude::*;
use crate::error::SamError;
use crate::text::{
    contains_string, lemma_sorted_distinct, lemma_sorted_listing_unique, sort_dedup, sorted_listing, starts_with, str_eq,
};

verus! {

/// The domains of a profile: every domain (`"*"`), or a list of them.
#[derive(Debug, Clone)]
pub enum Domains {
    All,
    List(Vec<String>),
}

/// Whether the domains include `x`; `All` includes every domain.
pub open spec fn domains_include(d: Domains, x: Seq<char>) -> bool {
    match d {
        Domains::All => true,
        Domains::List(v) => v.deep_view().contains(x),
    }
}

impl Domains {
    /// The domains given as one string: `"*"` means all, any other string is
    /// a list of that one domain.
    pub fn from_scalar(s: String) -> (d: Domains)
        ensures
            s@ == "*"@ ==> d is All,
            s@ != "*"@ ==> (d matches Domains::List(v) && v.deep_view() == seq![s@]),
    {
        if str_eq(s.as_str(), "*") {
            Domains::All
        } else {
            let mut v: Vec<String> = Vec::new();
            v.push(s);
            assert(v.deep_view() =~= seq![v@[0]@]);
            Domains::List(v)
        }
    }

    /// Whether these domains include `domain`; `All` includes every domain.
    pub fn includes(&self, domain: &str) -> (r: bool)
        ensures
            r == domains_include(*self, domain@),
    {
        match self {
            Domains::All => true,
            Domains::List(v) => contains_string(v, domain),
        }
    }
}

/// How a profile is deployed.
#[derive(Debug, Clone)]
pub struct DeployConfig {
    pub command: String,
    pub per_domain: bool,
    pub pre_deploy_impact: bool,
}

/// A team profile.
#[derive(Debug, Clone)]
pub struct Profile {
    pub domains: Domains,
    pub auto_include: Vec<String>,
    pub ai_infer: bool,
    pub watch: Vec<String>,
    pub owners: Vec<String>,
    pub deploy: Option<DeployConfig>,
}

/// The profiles by name. A name given twice keeps its last profile.
#[derive(Debug, Clone)]
pub struct ProfilesConfig {
    pub profiles: Vec<(String, Profile)>,
}

/// MonoWatch settings.
#[derive(Debug, Clone)]
pub struct MonoWatchConfig {
    pub block_on_critical: bool,
}

/// Default deployment settings of the repository.
#[derive(Debug, Clone)]
pub struct DeployDefaults {
    pub command: Option<String>,
    pub per_domain: bool,
    pub pre_deploy_impact: bool,
}

/// The default of a profile's `ai_infer`.
pub fn default_true() -> (r: bool)
    ensures
        r,
{
    true
}

/// The default MonoGraph address.
pub fn default_monograph_addr() -> (r: String)
    ensures
        r@ == "127.0.0.1:7474"@,
{
    String::from_str("127.0.0.1:7474")
}

/// The default number of commits mined for co-changes.
pub fn default_commits() -> (r: u32)
    ensures
        r == 500,
{
    500
}

/// The names of the entries, in order.
pub open spec fn entry_names(e: Seq<(String, Profile)>) -> Seq<Seq<char>> {
    Seq::new(e.len(), |i: int| e[i].0@)
}

/// The position of the last entry named `k`, or -1.
pub open spec fn last_named(e: Seq<(String, Profile)>, k: Seq<char>) -> int
    decreases e.len(),
{
    if e.len() == 0 {
        -1
    } else if e.last().0@ == k {
        e.len() - 1
    } else {
        last_named(e.drop_last(), k)
    }
}

/// The names that start with `name`.
pub open spec fn prefix_matches(m: Map<Seq<char>, Profile>, name: Seq<char>) -> Set<Seq<char>> {
    m.dom().filter(|k: Seq<char>| name.is_prefix_of(k))
}

/// The profile name that `name` selects: the name itself if a profile has
/// it, else the only profile name that starts with it, else none.
pub open spec fn selected_name(m: Map<Seq<char>, Profile>, name: Seq<char>) -> Option<Seq<char>> {
    if m.contains_key(name) {
        Some(name)
    } else if prefix_matches(m, name).len() == 1 {
        Some(prefix_matches(m, name).choose())
    } else {
        None
    }
}

/// The names listed when no profile is selected: all of them when none
/// starts with `name`, else the several that do.
pub open spec fn listed_names(m: Map<Seq<char>, Profile>, name: Seq<char>) -> Set<Seq<char>> {
    if prefix_matches(m, name).len() == 0 {
        m.dom()
    } else {
        prefix_matches(m, name)
    }
}

/// The error for a name that selects no profile.
pub open spec fn is_not_found(e: SamError, m: Map<Seq<char>, Profile>, name: Seq<char>) -> bool {
    e matches SamError::ProfileNotFound { name: n, available } && n@ == name && sorted_listing(
        available.deep_view(),
        listed_names(m, name),
    )
}

/// What `get_profile` gives for `name`: the selected profile, or when
/// none is selected a `ProfileNotFound` listing names.
pub open spec fn profile_found(config: ProfilesConfig, name: Seq<char>, r: Result<Profile, SamError>) -> bool {
    let m = config.profile_map();
    match selected_name(m, name) {
        Some(k) => r == Ok::<Profile, SamError>(m[k]),
        None => r matches Err(e) && is_not_found(e, m, name),
    }
}

/// What `resolve_profile_name` gives for `name`: the selected name, or
/// when none is selected a `ProfileNotFound` listing names.
pub open spec fn name_found(config: ProfilesConfig, name: Seq<char>, r: Result<Seq<char>, SamError>) -> bool {
    let m = config.profile_map();
    match selected_name(m, name) {
        Some(k) => r == Ok::<Seq<char>, SamError>(k),
        None => r matches Err(e) && is_not_found(e, m, name),
    }
}

impl ProfilesConfig {
    /// Whether some profile's domains include `domain`.
    pub open spec fn profile_containing_spec(&self, domain: Seq<char>) -> bool {
        exists|k: Seq<char>|
            #[trigger] self.profile_map().contains_key(k) && domains_include(
                self.profile_map()[k].domains,
                domain,
            )
    }

    /// The profiles by name.
    pub open spec fn profile_map(&self) -> Map<Seq<char>, Profile> {
        entry_names(self.profiles@).to_set().mk_map(
            |k: Seq<char>| self.profiles@[last_named(self.profiles@, k)].1,
        )
    }

    /// The names of all profiles, sorted.
    pub fn sorted_keys(&self) -> (r: Vec<String>)
        ensures
            sorted_listing(r.deep_view(), self.profile_map().dom()),
    {
        let mut names: Vec<String> = Vec::new();
        let mut i: usize = 0;
        while i < self.profiles.len()
            invariant
                i <= self.profiles@.len(),
                names.deep_view() == entry_names(self.profiles@).take(i as int),
            decreases self.profiles@.len() - i,
        {
            let ghost old_n = names.deep_view();
            names.push(self.profiles[i].0.clone());
            assert(names.deep_view() =~= old_n.push(self.profiles@[i as int].0@));
            assert(names.deep_view() =~= entry_names(self.profiles@).take(i + 1));
            i = i + 1;
        }
        assert(entry_names(self.profiles@).take(i as int) =~= entry_names(self.profiles@));
        sort_dedup(&names)
    }

    /// The position of the last entry with the given name, if any.
    fn find_last(&self, name: &str) -> (r: Option<usize>)
        ensures
            match r {
                Some(i) => i < self.profiles@.len() && i == last_named(self.profiles@, name@),
                None => !entry_names(self.profiles@).contains(name@),
            },
    {
        let mut i: usize = self.profiles.len();
        while i > 0
            invariant
                i <= self.profiles@.len(),
                forall|j: int| i <= j < self.profiles@.len() ==> self.profiles@[j].0@ != name@,
            decreases i,
        {
            i = i - 1;
            if str_eq(self.profiles[i].0.as_str(), name) {
                proof {
                    lemma_last_named_at(self.profiles@, name@, i as int);
                }
                return Some(i);
            }
        }
        proof {
            assert forall|j: int| 0 <= j < entry_names(self.profiles@).len() implies entry_names(
                self.profiles@,
            )[j] != name@ by {
                assert(self.profiles@[j].0@ != name@);
            }
        }
        None
    }

    /// The position of the profile that `name` selects.
    fn select(&self, name: &str) -> (r: Result<usize, SamError>)
        ensures
            match r {
                Ok(i) => selected_name(self.profile_map(), name@) matches Some(k) && i
                    < self.profiles@.len() && i == last_named(self.profiles@, k)
                    && self.profiles@[i as int].0@ == k,
                Err(e) => selected_name(self.profile_map(), name@) is None && is_not_found(
                    e,
                    self.profile_map(),
                    name@,
                ),
            },
    {
        let ghost e = self.profiles@;
        let ghost m = self.profile_map();
        proof {
            lemma_profile_map_dom(e);
        }
        match self.find_last(name) {
            Some(i) => {
                proof {
                    lemma_last_named_valid(e, name@);
                    assert(entry_names(e)[i as int] == name@);
                    assert(entry_names(e).to_set().contains(name@));
                }
                return Ok(i);
            },
            None => {},
        }
        assert(!m.contains_key(name@));
        let mut matching: Vec<String> = Vec::new();
        let mut i: usize = 0;
        while i < self.profiles.len()
            invariant
                e == self.profiles@,
                i <= e.len(),
                matching.deep_view().to_set() == entry_names(e).take(i as int).to_set().filter(
                    |k: Seq<char>| name@.is_prefix_of(k),
                ),
            decreases e.len() - i,
        {
            let ghost before = matching.deep_view();
            if starts_with(self.profiles[i].0.as_str(), name) {
                matching.push(self.profiles[i].0.clone());
                assert(matching.deep_view() =~= before.push(e[i as int].0@));
            }
            proof {
                let t = entry_names(e).take(i as int);
                assert(entry_names(e).take(i + 1) =~= t.push(e[i as int].0@));
                assert(matching.deep_view().to_set() =~= entry_names(e).take(i + 1).to_set().filter(
                    |k: Seq<char>| name@.is_prefix_of(k),
                )) by {
                    assert forall|x: Seq<char>|
                        matching.deep_view().to_set().contains(x) <==> entry_names(e).take(
                            i + 1,
                        ).to_set().filter(|k: Seq<char>| name@.is_prefix_of(k)).contains(x) by {
                        lemma_push_contains(before, e[i as int].0@, x);
                        lemma_push_contains(t, e[i as int].0@, x);
                    }
                }
            }
            i = i + 1;
        }
        assert(entry_names(e).take(i as int) =~= entry_names(e));
        let distinct = sort_dedup(&matching);
        let ghost pm = prefix_matches(m, name@);
        proof {
            lemma_sorted_distinct(matching.deep_view());
            assert(pm =~= entry_names(e).to_set().filter(|k: Seq<char>| name@.is_prefix_of(k)));
            distinct.deep_view().unique_seq_to_set();
            assert(distinct.deep_view().len() == pm.len());
        }
        if distinct.len() == 1 {
            let key = distinct[0].as_str();
            proof {
                assert(distinct.deep_view()[0] == key@);
                assert(distinct.deep_view().to_set().contains(key@));
                assert(pm.contains(key@));
                assert(pm =~= set![key@]) by {
                    assert forall|x: Seq<char>| pm.contains(x) implies x == key@ by {
                        assert(distinct.deep_view().to_set().contains(x));
                        let j = choose|j: int| 0 <= j < distinct.deep_view().len() && distinct.deep_view()[j] == x;
                        assert(j == 0);
                    }
                }
                assert(pm.choose() == key@) by {
                    assert(pm.contains(pm.choose()));
                }
                assert(entry_names(e).contains(key@));
            }
            match self.find_last(key) {
                Some(j) => {
                    proof {
                        lemma_last_named_valid(e, key@);
                        assert(selected_name(m, name@) == Some(key@));
                    }
                    return Ok(j);
                },
                None => {
                    return Err(SamError::NoRepoFound);
                },
            }
        }
        if distinct.len() == 0 {
            let available = self.sorted_keys();
            proof {
                assert(pm.len() == 0);
            }
            Err(SamError::ProfileNotFound { name: String::from_str(name), available })
        } else {
            Err(SamError::ProfileNotFound { name: String::from_str(name), available: distinct })
        }
    }
}

proof fn lemma_push_contains(s: Seq<Seq<char>>, a: Seq<char>, x: Seq<char>)
    ensures
        s.push(a).to_set().contains(x) <==> (s.to_set().contains(x) || x == a),
{
    if s.push(a).contains(x) {
        let k = choose|k: int| 0 <= k < s.push(a).len() && s.push(a)[k] == x;
        if k < s.len() {
            assert(s[k] == x);
        }
    }
    if s.contains(x) {
        let k = choose|k: int| 0 <= k < s.len() && s[k] == x;
        assert(s.push(a)[k] == x);
    }
    assert(s.push(a)[s.len() as int] == a);
}

proof fn lemma_last_named_at(e: Seq<(String, Profile)>, k: Seq<char>, i: int)
    requires
        0 <= i < e.len(),
        e[i].0@ == k,
        forall|j: int| i < j < e.len() ==> e[j].0@ != k,
    ensures
        last_named(e, k) == i,
    decreases e.len(),
{
    if i < e.len() - 1 {
        lemma_last_named_at(e.drop_last(), k, i);
    }
}

proof fn lemma_last_named_valid(e: Seq<(String, Profile)>, k: Seq<char>)
    ensures
        entry_names(e).contains(k) ==> 0 <= last_named(e, k) < e.len() && e[last_named(e, k)].0@
            == k,
        !entry_names(e).contains(k) ==> last_named(e, k) == -1,
    decreases e.len(),
{
    if e.len() > 0 {
        let t = e.drop_last();
        lemma_last_named_valid(t, k);
        if entry_names(e).contains(k) && e.last().0@ != k {
            let j = choose|j: int| 0 <= j < entry_names(e).len() && entry_names(e)[j] == k;
            assert(j < t.len());
            assert(entry_names(t)[j] == k);
        }
        if entry_names(t).contains(k) {
            let j = choose|j: int| 0 <= j < entry_names(t).len() && entry_names(t)[j] == k;
            assert(entry_names(e)[j] == k);
        }
        if e.last().0@ == k {
            assert(entry_names(e)[e.len() - 1] == k);
        }
    }
}

proof fn lemma_profile_map_dom(e: Seq<(String, Profile)>)
    ensures
        entry_names(e).to_set().finite(),
{
    vstd::seq_lib::seq_to_set_is_finite(entry_names(e));
}

impl ProfilesConfig {
    /// The profile that `name` selects: the profile of that exact name, or
    /// else the only profile whose name starts with `name`. When none or
    /// several start with it, a `ProfileNotFound` that lists, sorted, all
    /// profile names or the several matching ones.
    pub fn get_profile(&self, name: &str) -> (r: Result<&Profile, SamError>)
        ensures
            profile_found(
                *self,
                name@,
                match r {
                    Ok(p) => Ok::<Profile, SamError>(*p),
                    Err(e) => Err(e),
                },
            ),
    {
        match self.select(name) {
            Ok(i) => {
                proof {
                    lemma_last_named_valid(self.profiles@, self.profiles@[i as int].0@);
                    assert(entry_names(self.profiles@)[i as int] == self.profiles@[i as int].0@);
                }
                Ok(&self.profiles[i].1)
            },
            Err(e) => Err(e),
        }
    }

    /// The full name of the profile that `name` selects, by the same rule as
    /// `get_profile`.
    pub fn resolve_profile_name(&self, name: &str) -> (r: Result<&str, SamError>)
        ensures
            name_found(
                *self,
                name@,
                match r {
                    Ok(k) => Ok::<Seq<char>, SamError>(k@),
                    Err(e) => Err(e),
                },
            ),
    {
        match self.select(name) {
            Ok(i) => Ok(self.profiles[i].0.as_str()),
            Err(e) => Err(e),
        }
    }

    /// A profile whose domains include `domain` (every profile of all
    /// domains does), or none when there is no such profile. Which one of
    /// several is not fixed.
    pub fn profile_containing(&self, domain: &str) -> (r: Option<&Profile>)
        ensures
            r matches Some(p) ==> domains_include(p.domains, domain@) && exists|k: Seq<char>|
                #[trigger] self.profile_map().contains_key(k) && self.profile_map()[k] == *p,
            r is None ==> forall|k: Seq<char>|
                #[trigger] self.profile_map().contains_key(k) ==> !domains_include(
                    self.profile_map()[k].domains,
                    domain@,
                ),
    {
        let ghost e = self.profiles@;
        let ghost m = self.profile_map();
        let mut i: usize = self.profiles.len();
        while i > 0
            invariant
                e == self.profiles@,
                m == self.profile_map(),
                i <= e.len(),
                forall|j: int|
                    i <= j < e.len() && last_named(e, e[j].0@) == j ==> !domains_include(
                        #[trigger] e[j].1.domains,
                        domain@,
                    ),
            decreases i,
        {
            i = i - 1;
            if self.profiles[i].1.domains.includes(domain) {
                let last = self.find_last(self.profiles[i].0.as_str());
                let is_last = match last {
                    Some(l) => l == i,
                    None => false,
                };
                proof {
                    assert(entry_names(e)[i as int] == e[i as int].0@);
                }
                if is_last {
                    proof {
                        let k = e[i as int].0@;
                        assert(entry_names(e)[i as int] == k);
                        assert(entry_names(e).to_set().contains(k));
                        assert(m.contains_key(k));
                    }
                    return Some(&self.profiles[i].1);
                }
            }
        }
        proof {
            assert forall|k: Seq<char>| #[trigger] m.contains_key(k) implies !domains_include(
                m[k].domains,
                domain@,
            ) by {
                lemma_last_named_valid(e, k);
                assert(entry_names(e).to_set().contains(k));
                assert(entry_names(e).contains(k));
                let l = last_named(e, k);
                assert(last_named(e, e[l].0@) == l);
            }
        }
        None
    }
}

proof fn lemma_last_named_after(e: Seq<(String, Profile)>, k: Seq<char>, i: int)
    requires
        0 <= i < e.len(),
        e[i].0@ == k,
    ensures
        i <= last_named(e, k) < e.len(),
    decreases e.len(),
{
    if e.last().0@ != k {
        lemma_last_named_after(e.drop_last(), k, i);
    }
}

/// The profile a name selects is the profile of that very name when there
/// is one, and otherwise one whose name starts with the given name; a name
/// that selects a profile selects one that exists.
pub proof fn lemma_selection_sound(config: ProfilesConfig, name: Seq<char>)
    ensures
        config.profile_map().contains_key(name) ==> selected_name(config.profile_map(), name)
            == Some(name),
        selected_name(config.profile_map(), name) matches Some(k) ==> config.profile_map().contains_key(k)
            && name.is_prefix_of(k),
        selected_name(config.profile_map(), name) is None ==> prefix_matches(
            config.profile_map(),
            name,
        ).len() != 1 && !config.profile_map().contains_key(name),
{
    let m = config.profile_map();
    let pm = prefix_matches(m, name);
    if !m.contains_key(name) && pm.len() == 1 {
        lemma_profile_map_dom(config.profiles@);
        assert(pm.finite());
        assert(pm.len() != 0);
        assert(pm.contains(pm.choose()));
    }
    if m.contains_key(name) {
        assert(name.is_prefix_of(name)) by {
            assert(name =~= name.subrange(0, name.len() as int));
        }
    }
}

/// `get_profile` and `resolve_profile_name` agree: one succeeds exactly when
/// the other does, the profile found is the one under the name found, and
/// on failure both report the same name and the same list of names.
pub proof fn lemma_get_and_resolve_agree(
    config: ProfilesConfig,
    name: Seq<char>,
    g: Result<Profile, SamError>,
    n: Result<Seq<char>, SamError>,
)
    requires
        profile_found(config, name, g),
        name_found(config, name, n),
    ensures
        g is Ok <==> n is Ok,
        g matches Ok(p) ==> config.profile_map().contains_key(n->Ok_0) && p == config.profile_map()[n->Ok_0],
        g matches Err(SamError::ProfileNotFound { name: n1, available: a1 }) ==> (n matches Err(
            SamError::ProfileNotFound { name: n2, available: a2 },
        ) && n1@ == n2@ && a1.deep_view() == a2.deep_view()),
{
    lemma_selection_sound(config, name);
    let m = config.profile_map();
    if selected_name(m, name) is None {
        if let Err(SamError::ProfileNotFound { name: n1, available: a1 }) = g {
            if let Err(SamError::ProfileNotFound { name: n2, available: a2 }) = n {
                lemma_sorted_listing_unique(a1.deep_view(), a2.deep_view(), listed_names(m, name));
            }
        }
    }
}

/// The first candidate directory whose `.sam` directory exists.
pub open spec fn first_marked(candidates: Seq<Seq<char>>, marks: Seq<bool>) -> Option<int>
    decreases candidates.len(),
{
    if candidates.len() == 0 || marks.len() == 0 {
        None
    } else if marks[0] {
        Some(0)
    } else {
        match first_marked(candidates.drop_first(), marks.drop_first()) {
            Some(i) => Some(i + 1),
            None => None,
        }
    }
}

/// The repository root: the first of the directories from `from` up to
/// the file system root (`candidates`, nearest first) that holds a `.sam`
/// directory (`has_sam_dir`), or `NoRepoFound`.
pub fn find_repo_root(candidates: &Vec<String>, has_sam_dir: &Vec<bool>) -> (r: Result<
    String,
    SamError,
>)
    requires
        candidates@.len() == has_sam_dir@.len(),
    ensures
        match first_marked(candidates.deep_view(), has_sam_dir@) {
            Some(i) => r matches Ok(root) && root@ == candidates.deep_view()[i],
            None => r matches Err(SamError::NoRepoFound),
        },
{
    let ghost c = candidates.deep_view();
    let mut i: usize = 0;
    assert(c.skip(0) =~= c);
    assert(has_sam_dir@.skip(0) =~= has_sam_dir@);
    while i < candidates.len()
        invariant
            c == candidates.deep_view(),
            c.len() == has_sam_dir@.len(),
            i <= c.len(),
            forall|j: int| 0 <= j < i ==> !has_sam_dir@[j],
            first_marked(c, has_sam_dir@) == match first_marked(c.skip(i as int), has_sam_dir@.skip(i as int)) {
                Some(j) => Some(j + i),
                None => None::<int>,
            },
        decreases c.len() - i,
    {
        if has_sam_dir[i] {
            proof {
                assert(has_sam_dir@.skip(i as int)[0]);
            }
            return Ok(candidates[i].clone());
        }
        proof {
            assert(c.skip(i as int).drop_first() =~= c.skip(i + 1));
            assert(has_sam_dir@.skip(i as int).drop_first() =~= has_sam_dir@.skip(i + 1));
        }
        i = i + 1;
    }
    Err(SamError::NoRepoFound)
}

} // verus!
