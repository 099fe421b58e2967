//! The local workspace state kept in `.sam/workspace.yaml`: the active
//! profile and the hydrated domains.
use vstd::prelude::*;
use vstd::relations::sorted_by;
use crate::text::{
    contains_string, dedup_adjacent, lemma_lex_le_total_ordering, lemma_sorted_distinct, lex_leq,
    lex_lt, sort_dedup, sorted_distinct, sorted_listing, trim, trim_str,
};

verus! {

/// The workspace state.
#[derive(Debug, Clone)]
pub struct State {
    pub active_profile: Option<String>,
    pub hydrated_domains: Vec<String>,
    pub last_updated: Option<String>,
}

/// The hydrated domains after adding `d` once: unchanged if it is there.
pub open spec fn with_domain(s: Seq<Seq<char>>, d: Seq<char>) -> Seq<Seq<char>> {
    if s.contains(d) {
        s
    } else {
        s.push(d)
    }
}

/// The text of an optional string.
pub open spec fn opt_view(o: Option<String>) -> Option<Seq<char>> {
    match o {
        Some(s) => Some(s@),
        None => None,
    }
}

impl State {
    /// The hydrated domains as text.
    pub open spec fn domains(&self) -> Seq<Seq<char>> {
        self.hydrated_domains.deep_view()
    }

    /// The empty state: no profile, no domains, never saved.
    pub fn new() -> (s: State)
        ensures
            s.active_profile is None,
            s.domains() == Seq::<Seq<char>>::empty(),
            s.last_updated is None,
    {
        let s = State { active_profile: None, hydrated_domains: Vec::new(), last_updated: None };
        assert(s.domains() =~= Seq::<Seq<char>>::empty());
        s
    }

    /// Whether a domain is in the hydrated set.
    pub fn has_domain(&self, domain: &str) -> (r: bool)
        ensures
            r == self.domains().contains(domain@),
    {
        contains_string(&self.hydrated_domains, domain)
    }

    /// Adds a domain to the hydrated set; adding one that is there changes
    /// nothing.
    pub fn add_domain(&mut self, domain: &str)
        ensures
            final(self).domains() == with_domain(old(self).domains(), domain@),
            final(self).active_profile == old(self).active_profile,
            final(self).last_updated == old(self).last_updated,
    {
        if !self.has_domain(domain) {
            let ghost old_d = self.domains();
            self.hydrated_domains.push(String::from_str(domain));
            assert(self.domains() =~= old_d.push(domain@));
        }
    }

    /// Sets the active profile name.
    pub fn set_profile(&mut self, name: &str)
        ensures
            opt_view(final(self).active_profile) == Some(name@),
            final(self).hydrated_domains == old(self).hydrated_domains,
            final(self).last_updated == old(self).last_updated,
    {
        self.active_profile = Some(String::from_str(name));
    }
}

/// Adding a domain twice is the same as adding it once, and afterwards the
/// domain is hydrated.
pub proof fn lemma_add_domain_idempotent(s: Seq<Seq<char>>, d: Seq<char>)
    ensures
        with_domain(with_domain(s, d), d) == with_domain(s, d),
        with_domain(s, d).contains(d),
        forall|x: Seq<char>| s.contains(x) ==> with_domain(s, d).contains(x),
{
    if !s.contains(d) {
        assert(s.push(d)[s.len() as int] == d);
        assert forall|x: Seq<char>| s.contains(x) implies s.push(d).contains(x) by {
            let k = choose|k: int| 0 <= k < s.len() && s[k] == x;
            assert(s.push(d)[k] == x);
        }
    }
}

/// The hydrated domains as they are saved: sorted, then with repeats removed.
pub open spec fn saved_domains(s: Seq<Seq<char>>) -> Seq<Seq<char>> {
    sorted_distinct(s)
}

/// The state as it is written to disk: domains sorted and deduplicated,
/// the time of saving recorded.
pub fn normalize_for_save(state: &State, now: String) -> (r: State)
    ensures
        r.active_profile == state.active_profile,
        r.domains() == saved_domains(state.domains()),
        opt_view(r.last_updated) == Some(now@),
{
    let domains = sort_dedup(&state.hydrated_domains);
    State {
        active_profile: state.active_profile.clone(),
        hydrated_domains: domains,
        last_updated: Some(now),
    }
}

/// Saving keeps exactly the set of hydrated domains, without repeats and in
/// increasing order.
pub proof fn lemma_saved_domains(s: Seq<Seq<char>>)
    ensures
        sorted_listing(saved_domains(s), s.to_set()),
        saved_domains(s).no_duplicates(),
{
    lemma_sorted_distinct(s);
}

/// Saving a saved state again changes nothing in its domains.
pub proof fn lemma_saved_domains_idempotent(s: Seq<Seq<char>>)
    ensures
        saved_domains(saved_domains(s)) == saved_domains(s),
{
    let d = saved_domains(s);
    lemma_sorted_distinct(s);
    lemma_lex_le_total_ordering();
    assert(sorted_by(d, lex_leq())) by {
        assert forall|i: int, j: int| 0 <= i < j < d.len() implies #[trigger] lex_leq()(d[i], d[j]) by {
            assert(lex_lt(d[i], d[j]));
        }
    }
    d.lemma_sort_by_ensures(lex_leq());
    vstd::seq_lib::lemma_sorted_unique(d.sort_by(lex_leq()), d, lex_leq());
    lemma_dedup_no_adjacent(d);
}

proof fn lemma_dedup_no_adjacent(d: Seq<Seq<char>>)
    requires
        d.no_duplicates(),
    ensures
        dedup_adjacent(d) == d,
    decreases d.len(),
{
    if d.len() > 1 {
        assert(d.drop_last().no_duplicates());
        lemma_dedup_no_adjacent(d.drop_last());
        assert(d.last() != d[d.len() - 2]);
        assert(d.drop_last().push(d.last()) =~= d);
    }
}

/// Whether file content holds nothing but white space; such a file loads
/// as the empty state.
pub fn content_is_blank(content: &str) -> (r: bool)
    ensures
        r == (trim(content@).len() == 0),
{
    let t = trim_str(content);
    t.as_str().is_empty()
}

} // verus!
