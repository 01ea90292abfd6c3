//! Wildcard queries with exactly one `*`: splitting a query, and checking a
//! candidate word against both sides of the wildcard.

use crate::text::{chars_of, push_char, reverse};
use vstd::prelude::*;

verus! {

/// The characters `cs[from..to]` as a string.
fn string_of(cs: &Vec<char>, from: usize, to: usize) -> (r: String)
    requires
        from <= to <= cs@.len(),
    ensures
        r@ == cs@.subrange(from as int, to as int),
{
    let mut r = String::new();
    let mut i = from;
    while i < to
        invariant
            from <= i <= to,
            to <= cs@.len(),
            r@ == cs@.subrange(from as int, i as int),
        decreases to - i,
    {
        push_char(&mut r, cs[i]);
        i += 1;
        assert(r@ =~= cs@.subrange(from as int, i as int));
    }
    r
}

/// `q` holds exactly one `*`, at position `i`.
pub open spec fn single_star_at(q: Seq<char>, i: int) -> bool {
    0 <= i < q.len() && q[i] == '*' && forall|j: int| 0 <= j < q.len() && j != i ==> q[j] != '*'
}

/// Split a query at its wildcard: the parts before and after the `*`, or
/// `None` unless the query holds exactly one `*`.
pub fn split_wildcard(query: &str) -> (r: Option<(String, String)>)
    ensures
        match r {
            Some((before, after)) => exists|i: int|
                single_star_at(query@, i) && before@ == query@.subrange(0, i) && after@
                    == query@.subrange(i + 1, query@.len() as int),
            None => forall|i: int| !single_star_at(query@, i),
        },
{
    let cs = chars_of(query);
    let mut star: usize = 0;
    let mut count: usize = 0;
    let mut i: usize = 0;
    while i < cs.len()
        invariant
            i <= cs@.len(),
            cs@ == query@,
            count <= 2,
            count == 0 ==> forall|j: int| 0 <= j < i ==> cs@[j] != '*',
            count == 1 ==> star < i && cs@[star as int] == '*' && forall|j: int|
                0 <= j < i && j != star ==> cs@[j] != '*',
            count == 2 ==> star < i && cs@[star as int] == '*' && exists|j: int|
                0 <= j < i && j != star && cs@[j] == '*',
        decreases cs@.len() - i,
    {
        if cs[i] == '*' {
            if count == 0 {
                star = i;
                count = 1;
            } else if count == 1 {
                assert(cs@[i as int] == '*' && i != star);
                count = 2;
            }
        }
        i += 1;
    }
    if count == 1 {
        let before = string_of(&cs, 0, star);
        let after = string_of(&cs, star + 1, cs.len());
        assert(single_star_at(query@, star as int));
        Some((before, after))
    } else {
        assert forall|k: int| !single_star_at(query@, k) by {
            if count == 2 && single_star_at(query@, k) {
                let j = choose|j: int| 0 <= j < i && j != star && cs@[j] == '*';
                assert(j == k);
                assert(star as int == k);
            }
        }
        None
    }
}

/// A word found under the prefix of a query matches the whole query when
/// it ends with the suffix, and prefix and suffix do not overlap in it.
pub open spec fn fits_wildcard(word: Seq<char>, prefix: Seq<char>, suffix: Seq<char>) -> bool {
    word.len() >= prefix.len() + suffix.len() && word.subrange(
        word.len() - suffix.len(),
        word.len() as int,
    ) == suffix
}

/// Whether `word` ends with `suffix` after at least the length of `prefix`.
pub fn wildcard_fits(word: &str, prefix: &str, suffix: &str) -> (r: bool)
    ensures
        r == fits_wildcard(word@, prefix@, suffix@),
{
    let w = chars_of(word);
    let p = chars_of(prefix);
    let s = chars_of(suffix);
    if w.len() < p.len() || w.len() - p.len() < s.len() {
        return false;
    }
    let start = w.len() - s.len();
    let mut k: usize = 0;
    while k < s.len()
        invariant
            w@ == word@,
            s@ == suffix@,
            p@ == prefix@,
            w@.len() >= p@.len() + s@.len(),
            start + s@.len() == w@.len(),
            w@.len() <= usize::MAX,
            k <= s@.len(),
            forall|q: int| 0 <= q < k ==> w@[start + q] == s@[q],
        decreases s@.len() - k,
    {
        if w[start + k] != s[k] {
            assert(w@.subrange(start as int, w@.len() as int)[k as int] != s@[k as int]);
            return false;
        }
        k += 1;
    }
    assert(w@.subrange(start as int, w@.len() as int) =~= s@);
    true
}

/// How to answer a wildcard query with two tries, one of the words and one
/// of the reversed words.
pub enum QueryPlan {
    /// `p*`: list the words that start with `p`.
    Prefix(String),
    /// `*s`: list the reversed words that start with the reversed `s`, and
    /// reverse them back.
    Suffix(String),
    /// `p*s`: list the words that start with `p` and keep those that
    /// `wildcard_fits` accepts for `p` and `s`.
    Infix(String, String),
}

/// The plan for the parts `before` and `after` the `*` of a query.
pub open spec fn plan_for(plan: QueryPlan, before: Seq<char>, after: Seq<char>) -> bool {
    match plan {
        QueryPlan::Prefix(p) => after.len() == 0 && p@ == before,
        QueryPlan::Suffix(rs) => after.len() > 0 && before.len() == 0 && rs@ == after.reverse(),
        QueryPlan::Infix(p, sfx) => after.len() > 0 && before.len() > 0 && p@ == before && sfx@
            == after,
    }
}

/// Decide how to answer a query, or `None` unless it holds exactly one `*`.
pub fn plan_query(query: &str) -> (r: Option<QueryPlan>)
    ensures
        match r {
            None => forall|i: int| !single_star_at(query@, i),
            Some(plan) => exists|i: int|
                single_star_at(query@, i) && plan_for(
                    plan,
                    query@.subrange(0, i),
                    query@.subrange(i + 1, query@.len() as int),
                ),
        },
{
    match split_wildcard(query) {
        None => None,
        Some((before, after)) => {
            let ghost i = choose|i: int|
                single_star_at(query@, i) && before@ == query@.subrange(0, i) && after@
                    == query@.subrange(i + 1, query@.len() as int);
            if after.as_str().is_empty() {
                Some(QueryPlan::Prefix(before))
            } else if before.as_str().is_empty() {
                let rev = reverse(after.as_str());
                assert(plan_for(QueryPlan::Suffix(rev), before@, after@));
                Some(QueryPlan::Suffix(rev))
            } else {
                Some(QueryPlan::Infix(before, after))
            }
        },
    }
}

} // verus!
