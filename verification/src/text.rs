//! Character-level string helpers with exact specifications: lexicographic
//! order (the order of `String`'s `Ord`), sorting, prefixes and searching.
use vstd::prelude::*;
use vstd::relations::*;
use vstd::seq_lib::*;

verus! {

/// Strict lexicographic order on character sequences, comparing characters
/// by code point. This is the order of `str`'s `Ord`: UTF-8 keeps code-point
/// order byte by byte.
pub open spec fn lex_lt(a: Seq<char>, b: Seq<char>) -> bool
    decreases a.len(),
{
    if a.len() == 0 {
        b.len() > 0
    } else if b.len() == 0 {
        false
    } else if a[0] != b[0] {
        (a[0] as int) < (b[0] as int)
    } else {
        lex_lt(a.drop_first(), b.drop_first())
    }
}

/// Non-strict lexicographic order.
pub open spec fn lex_le(a: Seq<char>, b: Seq<char>) -> bool {
    a == b || lex_lt(a, b)
}

pub open spec fn lex_leq() -> spec_fn(Seq<char>, Seq<char>) -> bool {
    |a: Seq<char>, b: Seq<char>| lex_le(a, b)
}

proof fn lemma_lex_lt_irreflexive(a: Seq<char>)
    ensures
        !lex_lt(a, a),
    decreases a.len(),
{
    if a.len() > 0 {
        lemma_lex_lt_irreflexive(a.drop_first());
    }
}

proof fn lemma_lex_lt_asymmetric(a: Seq<char>, b: Seq<char>)
    requires
        lex_lt(a, b),
    ensures
        !lex_lt(b, a),
        a != b,
    decreases a.len(),
{
    if a.len() > 0 && b.len() > 0 && a[0] == b[0] {
        lemma_lex_lt_asymmetric(a.drop_first(), b.drop_first());
    }
    if a == b {
        lemma_lex_lt_irreflexive(a);
    }
}

proof fn lemma_lex_lt_transitive(a: Seq<char>, b: Seq<char>, c: Seq<char>)
    requires
        lex_lt(a, b),
        lex_lt(b, c),
    ensures
        lex_lt(a, c),
    decreases a.len(),
{
    if a.len() > 0 && b.len() > 0 && c.len() > 0 && a[0] == b[0] && b[0] == c[0] {
        lemma_lex_lt_transitive(a.drop_first(), b.drop_first(), c.drop_first());
    }
}

proof fn lemma_lex_lt_total(a: Seq<char>, b: Seq<char>)
    ensures
        a == b || lex_lt(a, b) || lex_lt(b, a),
    decreases a.len(),
{
    if a.len() > 0 && b.len() > 0 && a[0] == b[0] {
        lemma_lex_lt_total(a.drop_first(), b.drop_first());
        if a.drop_first() == b.drop_first() {
            assert(a =~= seq![a[0]] + a.drop_first());
            assert(b =~= seq![b[0]] + b.drop_first());
        }
    } else if a.len() > 0 && b.len() > 0 {
        assert((a[0] as int) != (b[0] as int));
    } else if a.len() == 0 && b.len() == 0 {
        assert(a =~= b);
    }
}

/// Lexicographic order is a total order.
pub proof fn lemma_lex_le_total_ordering()
    ensures
        total_ordering(lex_leq()),
{
    assert forall|x: Seq<char>| #[trigger] lex_leq()(x, x) by {}
    assert forall|x: Seq<char>, y: Seq<char>|
        #[trigger] lex_leq()(x, y) && #[trigger] lex_leq()(y, x) implies x == y by {
        if x != y {
            lemma_lex_lt_asymmetric(x, y);
        }
    }
    assert forall|x: Seq<char>, y: Seq<char>, z: Seq<char>|
        #[trigger] lex_leq()(x, y) && #[trigger] lex_leq()(y, z) implies lex_leq()(x, z) by {
        if x != y && y != z {
            lemma_lex_lt_transitive(x, y, z);
        }
    }
    assert forall|x: Seq<char>, y: Seq<char>|
        #[trigger] lex_leq()(x, y) || #[trigger] lex_leq()(y, x) by {
        lemma_lex_lt_total(x, y);
    }
}

proof fn lemma_lex_lt_common_prefix(a: Seq<char>, b: Seq<char>, i: int)
    requires
        0 <= i <= a.len(),
        i <= b.len(),
        a.take(i) == b.take(i),
    ensures
        lex_lt(a, b) == lex_lt(a.skip(i), b.skip(i)),
    decreases i,
{
    if i > 0 {
        assert(a[0] == a.take(i)[0]);
        assert(b[0] == b.take(i)[0]);
        assert(a.drop_first().take(i - 1) =~= a.take(i).drop_first());
        assert(b.drop_first().take(i - 1) =~= b.take(i).drop_first());
        lemma_lex_lt_common_prefix(a.drop_first(), b.drop_first(), i - 1);
        assert(a.drop_first().skip(i - 1) =~= a.skip(i));
        assert(b.drop_first().skip(i - 1) =~= b.skip(i));
    } else {
        assert(a.skip(0) =~= a);
        assert(b.skip(0) =~= b);
    }
}

/// `String::push`: the string afterwards is the old one followed by `c`.
#[verifier::external_body]
pub(crate) fn push_char(s: &mut String, c: char)
    ensures
        final(s)@ == old(s)@.push(c),
{
    s.push(c);
}

/// The characters of a string, one by one.
pub fn chars_of(s: &str) -> (r: Vec<char>)
    ensures
        r@ == s@,
{
    let n = s.unicode_len();
    let mut v: Vec<char> = Vec::new();
    let mut i: usize = 0;
    while i < n
        invariant
            n == s@.len(),
            i <= n,
            v@ == s@.take(i as int),
        decreases n - i,
    {
        let c = s.get_char(i);
        v.push(c);
        i = i + 1;
        assert(v@ =~= s@.take(i as int));
    }
    assert(v@ =~= s@);
    v
}

/// Builds a string from a sequence of characters.
pub fn string_from_chars(cs: &[char]) -> (r: String)
    ensures
        r@ == cs@,
{
    let mut r = String::new();
    let mut i: usize = 0;
    while i < cs.len()
        invariant
            i <= cs@.len(),
            r@ == cs@.take(i as int),
        decreases cs@.len() - i,
    {
        push_char(&mut r, cs[i]);
        i = i + 1;
        assert(r@ =~= cs@.take(i as int));
    }
    assert(r@ =~= cs@);
    r
}

/// `a < b` in lexicographic order.
pub fn str_lt(a: &str, b: &str) -> (r: bool)
    ensures
        r == lex_lt(a@, b@),
{
    let x = chars_of(a);
    let y = chars_of(b);
    let mut i: usize = 0;
    while i < x.len() && i < y.len() && x[i] == y[i]
        invariant
            x@ == a@,
            y@ == b@,
            i <= x@.len(),
            i <= y@.len(),
            x@.take(i as int) == y@.take(i as int),
        decreases x@.len() - i,
    {
        assert(x@.take(i + 1) =~= x@.take(i as int).push(x@[i as int]));
        assert(y@.take(i + 1) =~= y@.take(i as int).push(y@[i as int]));
        i = i + 1;
    }
    proof {
        lemma_lex_lt_common_prefix(x@, y@, i as int);
    }
    if i == x.len() {
        i < y.len()
    } else if i == y.len() {
        false
    } else {
        proof {
            assert(x@.skip(i as int)[0] == x@[i as int]);
            assert(y@.skip(i as int)[0] == y@[i as int]);
        }
        x[i] < y[i]
    }
}

/// Equality of two strings.
pub fn str_eq(a: &str, b: &str) -> (r: bool)
    ensures
        r == (a@ == b@),
{
    let x = chars_of(a);
    let y = chars_of(b);
    if x.len() != y.len() {
        return false;
    }
    let mut i: usize = 0;
    while i < x.len()
        invariant
            x@ == a@,
            y@ == b@,
            x@.len() == y@.len(),
            i <= x@.len(),
            forall|j: int| 0 <= j < i ==> x@[j] == y@[j],
        decreases x@.len() - i,
    {
        if x[i] != y[i] {
            return false;
        }
        i = i + 1;
    }
    assert(x@ =~= y@);
    true
}

/// Sorts strings in lexicographic order, as `sort` does on a `Vec<String>`.
pub fn sort_strings(v: &Vec<String>) -> (r: Vec<String>)
    ensures
        r.deep_view() == v.deep_view().sort_by(lex_leq()),
{
    let ghost dv = v.deep_view();
    proof {
        lemma_lex_le_total_ordering();
    }
    let mut r: Vec<String> = Vec::new();
    let mut i: usize = 0;
    assert(r.deep_view() =~= dv.take(0));
    while i < v.len()
        invariant
            dv == v.deep_view(),
            total_ordering(lex_leq()),
            i <= v@.len(),
            sorted_by(r.deep_view(), lex_leq()),
            r.deep_view().to_multiset() == dv.take(i as int).to_multiset(),
        decreases v@.len() - i,
    {
        let x = v[i].clone();
        let mut j: usize = 0;
        while j < r.len() && !str_lt(x.as_str(), r[j].as_str())
            invariant
                total_ordering(lex_leq()),
                j <= r@.len(),
                sorted_by(r.deep_view(), lex_leq()),
                forall|k: int| 0 <= k < j ==> lex_leq()(#[trigger] r.deep_view()[k], x@),
            decreases r@.len() - j,
        {
            proof {
                assert(r.deep_view()[j as int] == r@[j as int]@);
                lemma_lex_lt_total(x@, r@[j as int]@);
            }
            j = j + 1;
        }
        assert(x@ == dv[i as int]);
        let ghost old_r = r.deep_view();
        proof {
            if j < r@.len() {
                assert(old_r[j as int] == r@[j as int]@);
                assert(lex_lt(x@, r@[j as int]@));
            }
        }
        r.insert(j, x);
        proof {
            assert(r.deep_view() =~= old_r.insert(j as int, dv[i as int]));
            assert forall|a: int, b: int| 0 <= a < b < r.deep_view().len() implies
                #[trigger] lex_leq()(r.deep_view()[a], r.deep_view()[b]) by {
                let s = r.deep_view();
                if b < j {
                } else if b == j {
                } else if a < j {
                    assert(lex_leq()(old_r[a], dv[i as int]));
                    assert(lex_leq()(dv[i as int], old_r[j as int]));
                    assert(lex_leq()(old_r[j as int], old_r[b - 1]));
                } else if a == j {
                    assert(lex_leq()(dv[i as int], old_r[j as int]));
                    if b - 1 > j {
                        assert(lex_leq()(old_r[j as int], old_r[b - 1]));
                    }
                } else {
                    assert(lex_leq()(old_r[a - 1], old_r[b - 1]));
                }
            }
            to_multiset_insert(old_r, j as int, dv[i as int]);
            assert(dv.take(i + 1) =~= dv.take(i as int).push(dv[i as int]));
            to_multiset_build(dv.take(i as int), dv[i as int]);
        }
        i = i + 1;
    }
    proof {
        assert(dv.take(i as int) =~= dv);
        dv.lemma_sort_by_ensures(lex_leq());
        lemma_sorted_unique(r.deep_view(), dv.sort_by(lex_leq()), lex_leq());
    }
    r
}

/// Removes consecutive repeated elements, as `Vec::dedup` does.
pub open spec fn dedup_adjacent<A>(s: Seq<A>) -> Seq<A>
    decreases s.len(),
{
    if s.len() <= 1 {
        s
    } else if s.last() == s[s.len() - 2] {
        dedup_adjacent(s.drop_last())
    } else {
        dedup_adjacent(s.drop_last()).push(s.last())
    }
}

proof fn lemma_dedup_adjacent_last<A>(s: Seq<A>)
    requires
        s.len() > 0,
    ensures
        dedup_adjacent(s).len() > 0,
        dedup_adjacent(s).last() == s.last(),
    decreases s.len(),
{
    if s.len() > 1 && s.last() == s[s.len() - 2] {
        lemma_dedup_adjacent_last(s.drop_last());
    }
}

/// On a sorted sequence, removing adjacent repeats leaves a strictly
/// increasing sequence with the same elements.
pub proof fn lemma_dedup_sorted(s: Seq<Seq<char>>)
    requires
        sorted_by(s, lex_leq()),
    ensures
        dedup_adjacent(s).to_set() == s.to_set(),
        forall|i: int, j: int|
            0 <= i < j < dedup_adjacent(s).len() ==> lex_lt(
                #[trigger] dedup_adjacent(s)[i],
                #[trigger] dedup_adjacent(s)[j],
            ),
        dedup_adjacent(s).no_duplicates(),
    decreases s.len(),
{
    let d = dedup_adjacent(s);
    if s.len() <= 1 {
        if s.len() == 1 {
            assert(s.to_set() =~= set![s[0]]) by {
                assert forall|x: Seq<char>| s.to_set().contains(x) implies x == s[0] by {
                    assert(s.contains(x));
                }
                assert(s.contains(s[0]));
            }
        } else {
            assert(s.to_set() =~= Set::empty());
        }
    } else {
        let t = s.drop_last();
        assert forall|i: int, j: int| 0 <= i < j < t.len() implies #[trigger] lex_leq()(t[i], t[j]) by {
            assert(lex_leq()(s[i], s[j]));
        }
        lemma_dedup_sorted(t);
        let dt = dedup_adjacent(t);
        lemma_dedup_adjacent_last(t);
        assert(s =~= t.push(s.last()));
        assert(s.to_set() =~= t.to_set().insert(s.last())) by {
            assert forall|x: Seq<char>| s.to_set().contains(x) <==> t.to_set().insert(s.last()).contains(x) by {
                if s.contains(x) {
                    let k = choose|k: int| 0 <= k < s.len() && s[k] == x;
                    if k < t.len() {
                        assert(t[k] == x);
                        assert(t.contains(x));
                    }
                }
                if t.contains(x) {
                    let k = choose|k: int| 0 <= k < t.len() && t[k] == x;
                    assert(s[k] == x);
                }
                assert(s[s.len() - 1] == s.last());
            }
        }
        if s.last() == s[s.len() - 2] {
            assert(t.contains(t.last()));
            assert(t.to_set().contains(s.last()));
        } else {
            assert(lex_leq()(s[s.len() - 2], s[s.len() - 1]));
            assert(lex_lt(dt.last(), s.last()));
            assert(d =~= dt.push(s.last()));
            assert forall|x: Seq<char>| dt.to_set().contains(x) implies lex_le(x, dt.last()) by {
                assert(dt.contains(x));
                let k = choose|k: int| 0 <= k < dt.len() && dt[k] == x;
                if k < dt.len() - 1 {
                    assert(lex_lt(dt[k], dt[dt.len() - 1]));
                }
            }
            assert forall|i: int, j: int| 0 <= i < j < d.len() implies lex_lt(
                #[trigger] d[i],
                #[trigger] d[j],
            ) by {
                if j == d.len() - 1 {
                    if i < dt.len() - 1 {
                        assert(lex_lt(dt[i], dt[dt.len() - 1]));
                    }
                    lemma_lex_lt_transitive_le(d[i], dt.last(), s.last());
                } else {
                    assert(d[i] == dt[i] && d[j] == dt[j]);
                }
            }
            assert forall|i: int, j: int| 0 <= i < d.len() && 0 <= j < d.len() && i != j implies d[i]
                != d[j] by {
                if i < j {
                    assert(lex_lt(d[i], d[j]));
                    lemma_lex_lt_irreflexive(d[i]);
                } else {
                    assert(lex_lt(d[j], d[i]));
                    lemma_lex_lt_irreflexive(d[j]);
                }
            }
            assert(d.to_set() =~= dt.to_set().insert(s.last())) by {
                assert forall|x: Seq<char>| d.to_set().contains(x) <==> dt.to_set().insert(s.last()).contains(x) by {
                    if d.contains(x) {
                        let k = choose|k: int| 0 <= k < d.len() && d[k] == x;
                        if k < dt.len() {
                            assert(dt[k] == x);
                        }
                    }
                    if dt.contains(x) {
                        let k = choose|k: int| 0 <= k < dt.len() && dt[k] == x;
                        assert(d[k] == x);
                    }
                    assert(d[d.len() - 1] == s.last());
                }
            }
        }
    }
}

proof fn lemma_lex_lt_transitive_le(a: Seq<char>, b: Seq<char>, c: Seq<char>)
    requires
        lex_le(a, b),
        lex_lt(b, c),
    ensures
        lex_lt(a, c),
{
    if a != b {
        lemma_lex_lt_transitive(a, b, c);
    }
}

/// Removes consecutive repeated strings, as `Vec::dedup` does.
pub fn dedup_strings(v: &Vec<String>) -> (r: Vec<String>)
    ensures
        r.deep_view() == dedup_adjacent(v.deep_view()),
{
    let ghost dv = v.deep_view();
    let mut r: Vec<String> = Vec::new();
    let mut i: usize = 0;
    assert(r.deep_view() =~= dedup_adjacent(dv.take(0)));
    while i < v.len()
        invariant
            dv == v.deep_view(),
            i <= v@.len(),
            r.deep_view() == dedup_adjacent(dv.take(i as int)),
            i > 0 ==> r@.len() > 0 && r@.last()@ == dv[i - 1],
        decreases v@.len() - i,
    {
        let ghost old_r = r.deep_view();
        assert(dv.take(i + 1).drop_last() =~= dv.take(i as int));
        assert(dv.take(i + 1).last() == dv[i as int]);
        if i == 0 {
            r.push(v[i].clone());
            assert(r.deep_view() =~= dv.take(1));
        } else {
            assert(dv.take(i + 1)[i - 1] == dv[i - 1]);
            if !str_eq(r[r.len() - 1].as_str(), v[i].as_str()) {
                r.push(v[i].clone());
                assert(r.deep_view() =~= old_r.push(dv[i as int]));
            }
        }
        i = i + 1;
        proof {
            lemma_dedup_adjacent_last(dv.take(i as int));
        }
    }
    assert(dv.take(i as int) =~= dv);
    r
}

/// Position of the first `c` in `s`, or `s.len()` when there is none.
pub open spec fn find_char(s: Seq<char>, c: char) -> nat
    decreases s.len(),
{
    if s.len() == 0 {
        0
    } else if s[0] == c {
        0
    } else {
        1 + find_char(s.drop_first(), c)
    }
}

/// The pieces of `s` between occurrences of `c`, as `str::split(c)` yields them.
pub open spec fn split_on(s: Seq<char>, c: char) -> Seq<Seq<char>>
    decreases s.len(),
{
    let k = find_char(s, c);
    if k >= s.len() {
        seq![s]
    } else {
        seq![s.take(k as int)] + split_on(s.skip(k + 1int), c)
    }
}

pub proof fn lemma_find_char_at(s: Seq<char>, c: char, q: int)
    requires
        0 <= q <= s.len(),
        forall|j: int| 0 <= j < q ==> s[j] != c,
        q == s.len() || s[q] == c,
    ensures
        find_char(s, c) == q,
    decreases q,
{
    if q > 0 {
        lemma_find_char_at(s.drop_first(), c, q - 1);
    }
}

/// The characters `cs[lo..hi]` as a string.
pub fn string_from_range(cs: &Vec<char>, lo: usize, hi: usize) -> (r: String)
    requires
        lo <= hi <= cs@.len(),
    ensures
        r@ == cs@.subrange(lo as int, hi as int),
{
    let mut r = String::new();
    let mut i: usize = lo;
    while i < hi
        invariant
            lo <= i <= hi,
            hi <= cs@.len(),
            r@ == cs@.subrange(lo as int, i as int),
        decreases hi - i,
    {
        push_char(&mut r, cs[i]);
        i = i + 1;
        assert(r@ =~= cs@.subrange(lo as int, i as int));
    }
    r
}

/// Splits a string at every occurrence of `c` (`str::split`).
pub fn split_char(s: &str, c: char) -> (r: Vec<String>)
    ensures
        r.deep_view() == split_on(s@, c),
{
    let cs = chars_of(s);
    let n = cs.len();
    let mut r: Vec<String> = Vec::new();
    let mut start: usize = 0;
    let mut p: usize = 0;
    assert(cs@.skip(0) =~= cs@);
    assert(r.deep_view() + split_on(cs@.skip(0), c) =~= split_on(cs@, c));
    while p < n
        invariant
            n == cs@.len(),
            cs@ == s@,
            start <= p <= n,
            forall|q: int| start <= q < p ==> cs@[q] != c,
            split_on(cs@, c) == r.deep_view() + split_on(cs@.skip(start as int), c),
        decreases n - p,
    {
        if cs[p] == c {
            let ghost t = cs@.skip(start as int);
            proof {
                lemma_find_char_at(t, c, p - start);
                assert(t.skip(p - start + 1) =~= cs@.skip(p + 1));
                assert(t.take(p - start) =~= cs@.subrange(start as int, p as int));
            }
            let piece = string_from_range(&cs, start, p);
            let ghost old_r = r.deep_view();
            r.push(piece);
            assert(r.deep_view() =~= old_r.push(cs@.subrange(start as int, p as int)));
            assert(split_on(cs@, c) =~= r.deep_view() + split_on(cs@.skip(p + 1), c));
            start = p + 1;
        }
        p = p + 1;
    }
    let ghost t = cs@.skip(start as int);
    proof {
        lemma_find_char_at(t, c, t.len() as int);
        assert(t =~= cs@.subrange(start as int, n as int));
    }
    let piece = string_from_range(&cs, start, n);
    let ghost old_r = r.deep_view();
    r.push(piece);
    assert(r.deep_view() =~= old_r.push(t));
    assert(split_on(cs@, c) =~= r.deep_view());
    r
}

/// A line without the `\r` of a `\r\n` ending.
pub open spec fn strip_cr(x: Seq<char>) -> Seq<char> {
    if x.len() > 0 && x.last() == '\r' {
        x.drop_last()
    } else {
        x
    }
}

/// The lines of `s`, as `str::lines` yields them: split at `\n`, a `\r`
/// before a `\n` dropped, and no empty line after a final line ending.
pub open spec fn lines(s: Seq<char>) -> Seq<Seq<char>> {
    let p = split_on(s, '\n');
    let body = if p.last().len() == 0 {
        p.drop_last()
    } else {
        p
    };
    Seq::new(body.len(), |i: int| if i < p.len() - 1 { strip_cr(body[i]) } else { body[i] })
}

pub proof fn lemma_split_on_nonempty(s: Seq<char>, c: char)
    ensures
        split_on(s, c).len() > 0,
    decreases s.len(),
{
    let k = find_char(s, c);
    if k < s.len() {
        lemma_split_on_nonempty(s.skip(k + 1int), c);
    }
}

/// Drops a trailing `\r`.
pub fn strip_cr_string(x: String) -> (r: String)
    ensures
        r@ == strip_cr(x@),
{
    let cs = chars_of(x.as_str());
    if cs.len() > 0 && cs[cs.len() - 1] == '\r' {
        let r = string_from_range(&cs, 0, cs.len() - 1);
        assert(r@ =~= x@.drop_last());
        r
    } else {
        x
    }
}

/// The lines of a string (`str::lines`).
pub fn lines_of(s: &str) -> (r: Vec<String>)
    ensures
        r.deep_view() == lines(s@),
{
    let mut p = split_char(s, '\n');
    proof {
        lemma_split_on_nonempty(s@, '\n');
    }
    let ghost pv = p.deep_view();
    let total = p.len();
    let last_empty = p[p.len() - 1].as_str().is_empty();
    assert(last_empty == (pv.last().len() == 0));
    if last_empty {
        p.pop();
    }
    let ghost body = p.deep_view();
    assert(body =~= if pv.last().len() == 0 { pv.drop_last() } else { pv });
    let mut r: Vec<String> = Vec::new();
    let mut i: usize = 0;
    while i < p.len()
        invariant
            p.deep_view() == body,
            total == pv.len(),
            body.len() <= pv.len(),
            i <= body.len(),
            r.deep_view() =~= Seq::new(
                i as nat,
                |j: int| if j < pv.len() - 1 { strip_cr(body[j]) } else { body[j] },
            ),
        decreases body.len() - i,
    {
        let x = p[i].clone();
        let ghost old_r = r.deep_view();
        assert(x@ == body[i as int]);
        if i < total - 1 {
            r.push(strip_cr_string(x));
        } else {
            r.push(x);
        }
        assert(r.deep_view() =~= old_r.push(
            if i < pv.len() - 1 { strip_cr(body[i as int]) } else { body[i as int] },
        ));
        i = i + 1;
    }
    r
}

/// Joins pieces with a separator (`[String]::join`).
pub open spec fn join(parts: Seq<Seq<char>>, sep: Seq<char>) -> Seq<char>
    decreases parts.len(),
{
    if parts.len() == 0 {
        Seq::empty()
    } else if parts.len() == 1 {
        parts[0]
    } else {
        join(parts.drop_last(), sep) + sep + parts.last()
    }
}

/// Joins strings with a separator (`[String]::join`).
pub fn join_strings(v: &Vec<String>, sep: &str) -> (r: String)
    ensures
        r@ == join(v.deep_view(), sep@),
{
    let ghost dv = v.deep_view();
    let mut r = String::new();
    let mut i: usize = 0;
    while i < v.len()
        invariant
            dv == v.deep_view(),
            i <= v@.len(),
            r@ == join(dv.take(i as int), sep@),
        decreases v@.len() - i,
    {
        assert(dv.take(i + 1).drop_last() =~= dv.take(i as int));
        if i > 0 {
            r.append(sep);
        }
        r.append(v[i].as_str());
        i = i + 1;
        assert(i == 1 ==> dv.take(i as int) =~= seq![dv[0]]);
    }
    assert(dv.take(i as int) =~= dv);
    r
}

/// The characters with the Unicode `White_Space` property, which is what
/// `char::is_whitespace` tests.
pub open spec fn is_ws(c: char) -> bool {
    let x = c as int;
    ||| 0x09 <= x <= 0x0D
    ||| x == 0x20
    ||| x == 0x85
    ||| x == 0xA0
    ||| x == 0x1680
    ||| 0x2000 <= x <= 0x200A
    ||| x == 0x2028
    ||| x == 0x2029
    ||| x == 0x202F
    ||| x == 0x205F
    ||| x == 0x3000
}

/// Whether a character is white space (`char::is_whitespace`).
pub fn is_ws_char(c: char) -> (r: bool)
    ensures
        r == is_ws(c),
{
    let x = c as u32;
    (0x09 <= x && x <= 0x0D) || x == 0x20 || x == 0x85 || x == 0xA0 || x == 0x1680 || (0x2000 <= x
        && x <= 0x200A) || x == 0x2028 || x == 0x2029 || x == 0x202F || x == 0x205F || x == 0x3000
}

/// `s` without its leading white space.
pub open spec fn trim_start(s: Seq<char>) -> Seq<char>
    decreases s.len(),
{
    if s.len() > 0 && is_ws(s[0]) {
        trim_start(s.drop_first())
    } else {
        s
    }
}

/// `s` without its trailing white space.
pub open spec fn trim_end(s: Seq<char>) -> Seq<char>
    decreases s.len(),
{
    if s.len() > 0 && is_ws(s.last()) {
        trim_end(s.drop_last())
    } else {
        s
    }
}

/// `s` without leading and trailing white space (`str::trim`).
pub open spec fn trim(s: Seq<char>) -> Seq<char> {
    trim_end(trim_start(s))
}

proof fn lemma_trim_start_at(s: Seq<char>, i: int)
    requires
        0 <= i <= s.len(),
        forall|j: int| 0 <= j < i ==> is_ws(s[j]),
    ensures
        trim_start(s) == trim_start(s.skip(i)),
    decreases i,
{
    if i > 0 {
        assert(s.drop_first().skip(i - 1) =~= s.skip(i));
        lemma_trim_start_at(s.drop_first(), i - 1);
    } else {
        assert(s.skip(0) =~= s);
    }
}

proof fn lemma_trim_end_at(s: Seq<char>, k: int)
    requires
        0 <= k <= s.len(),
        forall|j: int| k <= j < s.len() ==> is_ws(s[j]),
    ensures
        trim_end(s) == trim_end(s.take(k)),
    decreases s.len() - k,
{
    if k < s.len() {
        assert(s.drop_last().take(k) =~= s.take(k));
        lemma_trim_end_at(s.drop_last(), k);
    } else {
        assert(s.take(k) =~= s);
    }
}

/// Trims white space at both ends (`str::trim`).
pub fn trim_str(s: &str) -> (r: String)
    ensures
        r@ == trim(s@),
{
    let cs = chars_of(s);
    let mut i: usize = 0;
    while i < cs.len() && is_ws_char(cs[i])
        invariant
            cs@ == s@,
            i <= cs@.len(),
            forall|j: int| 0 <= j < i ==> is_ws(cs@[j]),
        decreases cs@.len() - i,
    {
        i = i + 1;
    }
    proof {
        lemma_trim_start_at(cs@, i as int);
    }
    let ghost t = cs@.skip(i as int);
    assert(trim_start(t) == t);
    let mut k: usize = cs.len();
    while k > i && is_ws_char(cs[k - 1])
        invariant
            cs@ == s@,
            i <= k <= cs@.len(),
            t == cs@.skip(i as int),
            forall|j: int| k <= j < cs@.len() ==> is_ws(cs@[j]),
        decreases k,
    {
        k = k - 1;
    }
    proof {
        let kk = k - i;
        assert forall|j: int| kk <= j < t.len() implies is_ws(t[j]) by {
            assert(t[j] == cs@[j + i]);
        }
        lemma_trim_end_at(t, kk);
        assert(t.take(kk) =~= cs@.subrange(i as int, k as int));
        if kk > 0 {
            assert(t.take(kk).last() == cs@[k - 1]);
        }
    }
    string_from_range(&cs, i, k)
}

/// Whether `p` is a prefix of `s` (`str::starts_with`).
pub fn starts_with(s: &str, p: &str) -> (r: bool)
    ensures
        r == p@.is_prefix_of(s@),
{
    let cs = chars_of(s);
    let ps = chars_of(p);
    if ps.len() > cs.len() {
        return false;
    }
    let mut i: usize = 0;
    while i < ps.len()
        invariant
            cs@ == s@,
            ps@ == p@,
            ps@.len() <= cs@.len(),
            i <= ps@.len(),
            forall|j: int| 0 <= j < i ==> ps@[j] == cs@[j],
        decreases ps@.len() - i,
    {
        if ps[i] != cs[i] {
            assert(ps@[i as int] != cs@.subrange(0, ps@.len() as int)[i as int]);
            return false;
        }
        i = i + 1;
    }
    assert(ps@ =~= cs@.subrange(0, ps@.len() as int));
    true
}

/// The decimal digit character for `d` in `0..10`.
pub open spec fn digit_char(d: int) -> char {
    (48 + d) as char
}

/// The decimal representation of `n`, as `to_string` writes it.
pub open spec fn decimal(n: nat) -> Seq<char>
    decreases n,
{
    if n < 10 {
        seq![digit_char(n as int)]
    } else {
        decimal(n / 10).push(digit_char((n % 10) as int))
    }
}

/// The decimal representation of a number.
pub fn decimal_string(n: usize) -> (r: String)
    ensures
        r@ == decimal(n as nat),
    decreases n,
{
    let d = (48u8 + (n % 10) as u8) as char;
    if n < 10 {
        let mut r = String::new();
        push_char(&mut r, d);
        assert(r@ =~= decimal(n as nat));
        r
    } else {
        let mut r = decimal_string(n / 10);
        push_char(&mut r, d);
        r
    }
}

/// The replacement of every non-overlapping match of `pat`, scanning from
/// the left, by `to` (`str::replace` with a non-empty pattern).
pub open spec fn replace_all(s: Seq<char>, pat: Seq<char>, to: Seq<char>) -> Seq<char>
    decreases s.len(),
{
    if s.len() == 0 || pat.len() == 0 {
        s
    } else if pat.is_prefix_of(s) {
        to + replace_all(s.skip(pat.len() as int), pat, to)
    } else {
        seq![s[0]] + replace_all(s.drop_first(), pat, to)
    }
}

/// Replaces every match of a non-empty pattern (`str::replace`).
pub fn replace_str(s: &str, pat: &str, to: &str) -> (r: String)
    requires
        pat@.len() > 0,
    ensures
        r@ == replace_all(s@, pat@, to@),
{
    let cs = chars_of(s);
    let ps = chars_of(pat);
    let n = cs.len();
    let m = ps.len();
    let mut r = String::new();
    let mut i: usize = 0;
    assert(cs@.skip(0) =~= cs@);
    while i < n
        invariant
            cs@ == s@,
            ps@ == pat@,
            n == cs@.len(),
            m == ps@.len(),
            m > 0,
            i <= n,
            replace_all(s@, pat@, to@) == r@ + replace_all(cs@.skip(i as int), pat@, to@),
        decreases n - i,
    {
        let ghost t = cs@.skip(i as int);
        let mut matched = m <= n - i;
        let mut j: usize = 0;
        while matched && j < m
            invariant
                cs@ == s@,
                ps@ == pat@,
                n == cs@.len(),
                m == ps@.len(),
                i < n,
                j <= m,
                matched ==> m <= n - i,
                matched ==> forall|q: int| 0 <= q < j ==> ps@[q] == cs@[i + q],
                !matched ==> !pat@.is_prefix_of(t),
                t == cs@.skip(i as int),
            decreases m - j + if matched { 1int } else { 0int },
        {
            if ps[j] != cs[i + j] {
                assert(t.subrange(0, m as int)[j as int] == cs@[i + j]);
                matched = false;
            } else {
                j = j + 1;
            }
        }
        if matched {
            assert(pat@ =~= t.subrange(0, m as int));
            r.append(to);
            assert(t.skip(m as int) =~= cs@.skip(i + m));
            assert(replace_all(t, pat@, to@) == to@ + replace_all(cs@.skip(i + m), pat@, to@));
            assert(replace_all(s@, pat@, to@) =~= r@ + replace_all(cs@.skip(i + m), pat@, to@));
            i = i + m;
        } else {
            assert(t.drop_first() =~= cs@.skip(i + 1));
            assert(t[0] == cs@[i as int]);
            push_char(&mut r, cs[i]);
            assert(replace_all(s@, pat@, to@) =~= r@ + replace_all(cs@.skip(i + 1), pat@, to@));
            i = i + 1;
        }
    }
    assert(cs@.skip(n as int).len() == 0);
    assert(r@ + replace_all(cs@.skip(n as int), pat@, to@) =~= r@);
    r
}

/// `n` copies of `c`.
pub open spec fn repeat_char(c: char, n: nat) -> Seq<char> {
    Seq::new(n, |i: int| c)
}

/// Appends `n` copies of `c` to `s`.
pub fn push_repeated(s: &mut String, c: char, n: usize)
    ensures
        final(s)@ == old(s)@ + repeat_char(c, n as nat),
{
    let ghost start = s@;
    let mut i: usize = 0;
    while i < n
        invariant
            i <= n,
            s@ == start + repeat_char(c, i as nat),
        decreases n - i,
    {
        push_char(s, c);
        i = i + 1;
        assert(s@ =~= start + repeat_char(c, i as nat));
    }
}

/// What `str::to_uppercase` returns for `s`: each character replaced by its
/// Unicode uppercase mapping, which may be several characters.
pub uninterp spec fn spec_to_uppercase(s: Seq<char>) -> Seq<char>;

/// `str::to_uppercase`. Its result is named by `spec_to_uppercase` and not
/// spelled out: the Unicode case tables are not restated here.
#[verifier::external_body]
pub(crate) fn to_uppercase(s: &str) -> (r: String)
    ensures
        r@ == spec_to_uppercase(s@),
{
    s.to_uppercase()
}

/// Whether a list of strings holds `x`.
pub fn contains_string(v: &Vec<String>, x: &str) -> (r: bool)
    ensures
        r == v.deep_view().contains(x@),
{
    let mut i: usize = 0;
    while i < v.len()
        invariant
            i <= v.deep_view().len(),
            forall|j: int| 0 <= j < i ==> v.deep_view()[j] != x@,
        decreases v.deep_view().len() - i,
    {
        if str_eq(v[i].as_str(), x) {
            assert(v.deep_view()[i as int] == x@);
            return true;
        }
        i = i + 1;
    }
    false
}

/// `v` lists the set `s` in strictly increasing order.
pub open spec fn sorted_listing(v: Seq<Seq<char>>, s: Set<Seq<char>>) -> bool {
    &&& v.to_set() == s
    &&& forall|i: int, j: int| 0 <= i < j < v.len() ==> lex_lt(#[trigger] v[i], #[trigger] v[j])
}

/// The elements of `s` sorted, with repeats removed.
pub open spec fn sorted_distinct(s: Seq<Seq<char>>) -> Seq<Seq<char>> {
    dedup_adjacent(s.sort_by(lex_leq()))
}

/// Sorting and removing repeats lists the elements once each, in
/// increasing order.
pub proof fn lemma_sorted_distinct(s: Seq<Seq<char>>)
    ensures
        sorted_listing(sorted_distinct(s), s.to_set()),
        sorted_distinct(s).no_duplicates(),
{
    lemma_lex_le_total_ordering();
    s.lemma_sort_by_ensures(lex_leq());
    let t = s.sort_by(lex_leq());
    lemma_dedup_sorted(t);
    assert(t.to_set() =~= s.to_set()) by {
        assert forall|x: Seq<char>| t.to_set().contains(x) <==> s.to_set().contains(x) by {
            broadcast use vstd::seq_lib::group_to_multiset_ensures;

            assert(t.contains(x) <==> t.to_multiset().count(x) > 0);
            assert(s.contains(x) <==> s.to_multiset().count(x) > 0);
        }
    }
}

/// Sorts strings and removes repeats (`sort` then `dedup`).
pub fn sort_dedup(v: &Vec<String>) -> (r: Vec<String>)
    ensures
        r.deep_view() == sorted_distinct(v.deep_view()),
        sorted_listing(r.deep_view(), v.deep_view().to_set()),
{
    let sorted = sort_strings(v);
    let r = dedup_strings(&sorted);
    proof {
        lemma_sorted_distinct(v.deep_view());
    }
    r
}

/// Mapping after a push is pushing the mapped element.
pub proof fn lemma_map_values_push<A, B>(s: Seq<A>, x: A, f: spec_fn(A) -> B)
    ensures
        s.push(x).map_values(f) == s.map_values(f).push(f(x)),
{
    assert(s.push(x).map_values(f) =~= s.map_values(f).push(f(x)));
}

/// What a pushed sequence contains.
pub proof fn lemma_push_contains_any<A>(s: Seq<A>, a: A, x: A)
    ensures
        s.push(a).contains(x) <==> (s.contains(x) || x == a),
{
    if s.push(a).contains(x) {
        let k = choose|k: int| 0 <= k < s.push(a).len() && s.push(a)[k] == x;
        if k < s.len() {
            assert(s[k] == x);
        }
    }
    if s.contains(x) {
        let k = choose|k: int| 0 <= k < s.len() && s[k] == x;
        assert(s.push(a)[k] == x);
    }
    assert(s.push(a)[s.len() as int] == a);
}

/// A set has only one strictly increasing listing.
pub proof fn lemma_sorted_listing_unique(v: Seq<Seq<char>>, w: Seq<Seq<char>>, s: Set<Seq<char>>)
    requires
        sorted_listing(v, s),
        sorted_listing(w, s),
    ensures
        v == w,
{
    broadcast use vstd::seq_lib::group_to_multiset_ensures;

    lemma_lex_le_total_ordering();
    lemma_strict_no_duplicates(v);
    lemma_strict_no_duplicates(w);
    v.lemma_multiset_has_no_duplicates();
    w.lemma_multiset_has_no_duplicates();
    assert(v.to_multiset() =~= w.to_multiset()) by {
        assert forall|x: Seq<char>| v.to_multiset().count(x) == w.to_multiset().count(x) by {
            assert(v.contains(x) <==> v.to_set().contains(x));
            assert(w.contains(x) <==> w.to_set().contains(x));
            if v.contains(x) {
                assert(v.to_multiset().contains(x));
                assert(w.to_multiset().contains(x));
            }
        }
    }
    assert(sorted_by(v, lex_leq())) by {
        assert forall|i: int, j: int| 0 <= i < j < v.len() implies #[trigger] lex_leq()(v[i], v[j]) by {
            assert(lex_lt(v[i], v[j]));
        }
    }
    assert(sorted_by(w, lex_leq())) by {
        assert forall|i: int, j: int| 0 <= i < j < w.len() implies #[trigger] lex_leq()(w[i], w[j]) by {
            assert(lex_lt(w[i], w[j]));
        }
    }
    lemma_sorted_unique(v, w, lex_leq());
}

/// A strictly increasing sequence has no repeats.
pub proof fn lemma_strict_no_duplicates(v: Seq<Seq<char>>)
    requires
        forall|i: int, j: int| 0 <= i < j < v.len() ==> lex_lt(#[trigger] v[i], #[trigger] v[j]),
    ensures
        v.no_duplicates(),
{
    assert forall|i: int, j: int| 0 <= i < v.len() && 0 <= j < v.len() && i != j implies v[i] != v[j] by {
        if i < j {
            assert(lex_lt(v[i], v[j]));
            lemma_lex_lt_irreflexive(v[i]);
        } else {
            assert(lex_lt(v[j], v[i]));
            lemma_lex_lt_irreflexive(v[j]);
        }
    }
}

} // verus!
