//! Fuzzy search over the entries: which entries match a query, with what score and
//! which characters, and in what order they are listed.
use vstd::prelude::*;

use crate::model::Entry;

use fuzzy_matcher::skim::SkimMatcherV2;
use fuzzy_matcher::FuzzyMatcher;

verus! {

/// An entry that matches the query: its position among the entries, its score, and
/// the positions of the matched characters.
pub struct SearchMatch {
    pub index: usize,
    pub score: i64,
    pub indices: Vec<usize>,
}

impl View for SearchMatch {
    type V = (usize, i64, Seq<usize>);

    open spec fn view(&self) -> (usize, i64, Seq<usize>) {
        (self.index, self.score, self.indices@)
    }
}

/// The views of a sequence of matches.
pub open spec fn match_views(v: Seq<SearchMatch>) -> Seq<(usize, i64, Seq<usize>)> {
    v.map_values(|m: SearchMatch| m@)
}

/// What `SkimMatcherV2::default().fuzzy_indices(choice, pattern)` returns: the score of
/// the best alignment of `pattern` in `choice` and the positions of the matched
/// characters, or `None` where `pattern` does not occur in `choice` as a subsequence.
pub uninterp spec fn skim_fuzzy_indices(choice: Seq<char>, pattern: Seq<char>) -> Option<
    (i64, Seq<usize>),
>;

/// `SkimMatcherV2::default()` then `FuzzyMatcher::fuzzy_indices`. The result is
/// `skim_fuzzy_indices` of the two texts. The source shows that with default features
/// the score is an `i32` widened to `i64`; nothing else of the algorithm is claimed
/// here.
#[verifier::external_body]
fn fuzzy_indices(choice: &str, pattern: &str) -> (r: Option<(i64, Vec<usize>)>)
    ensures
        r is Some <==> skim_fuzzy_indices(choice@, pattern@) is Some,
        r matches Some(found) ==> skim_fuzzy_indices(choice@, pattern@) == Some(
            (found.0, found.1@),
        ) && i32::MIN <= found.0 <= i32::MAX,
{
    SkimMatcherV2::default().fuzzy_indices(choice, pattern)
}

/// `x` clamped to the `i64` range (`i64::saturating_mul` of the factors).
pub open spec fn clamp_i64(x: int) -> int {
    if x > i64::MAX {
        i64::MAX as int
    } else if x < i64::MIN {
        i64::MIN as int
    } else {
        x
    }
}

/// `x / d` rounded towards zero, as Rust divides integers.
pub open spec fn div_toward_zero(x: int, d: int) -> int {
    if x >= 0 {
        x / d
    } else {
        -((-x) / d)
    }
}

/// The score of a match: the fuzzy score raised by `history` percent of itself.
pub open spec fn combined_score(score: i64, history: i64) -> int {
    score + div_toward_zero(clamp_i64(score * history), 100)
}

/// The match that an entry yields, if any: with an empty query every entry matches
/// with its history score and no highlighted characters; otherwise the entry matches
/// where the query fuzzy-matches its search text, scored from that match, with the
/// characters matched in its displayed text where those match too.
pub open spec fn match_of(index: usize, entry: Entry, query: Seq<char>, history: i64) -> Option<
    (usize, i64, Seq<usize>),
> {
    if query.len() == 0 {
        Some((index, history, Seq::<usize>::empty()))
    } else {
        match skim_fuzzy_indices(entry.search_text_view(), query) {
            None => None,
            Some(found) => Some(
                (
                    index,
                    combined_score(found.0, history) as i64,
                    match skim_fuzzy_indices(entry.display_search_text_view(), query) {
                        Some(shown) => shown.1,
                        None => found.1,
                    },
                ),
            ),
        }
    }
}

/// The matches of the first `n` entries, in entry order.
pub open spec fn matches_in_order(
    entries: Seq<Entry>,
    query: Seq<char>,
    scores: Seq<i64>,
    n: int,
) -> Seq<(usize, i64, Seq<usize>)>
    decreases n,
{
    if n <= 0 {
        Seq::empty()
    } else {
        let prev = matches_in_order(entries, query, scores, n - 1);
        match match_of((n - 1) as usize, entries[n - 1], query, scores[n - 1]) {
            Some(m) => prev.push(m),
            None => prev,
        }
    }
}

/// `a` is listed before `b`: higher score first, then entries with a running tmux
/// session, then the higher kind rank, then the earlier entry.
pub open spec fn listed_before(
    entries: Seq<Entry>,
    a: (usize, i64, Seq<usize>),
    b: (usize, i64, Seq<usize>),
) -> bool {
    let ea = entries[a.0 as int];
    let eb = entries[b.0 as int];
    if a.1 != b.1 {
        a.1 > b.1
    } else if ea.is_active_tmux_view() != eb.is_active_tmux_view() {
        ea.is_active_tmux_view()
    } else if ea.type_rank_view() != eb.type_rank_view() {
        ea.type_rank_view() > eb.type_rank_view()
    } else {
        a.0 < b.0
    }
}

/// `s` is in listing order.
pub open spec fn in_listing_order(entries: Seq<Entry>, s: Seq<(usize, i64, Seq<usize>)>) -> bool {
    forall|i: int, j: int|
        0 <= i < j < s.len() ==> listed_before(entries, #[trigger] s[i], #[trigger] s[j])
}

/// `a` and `b` hold the same matches.
pub open spec fn same_matches(a: Seq<(usize, i64, Seq<usize>)>, b: Seq<(usize, i64, Seq<usize>)>) -> bool {
    &&& a.len() == b.len()
    &&& forall|x: (usize, i64, Seq<usize>)| a.contains(x) <==> b.contains(x)
}

/// The matches of all entries in listing order.
pub open spec fn listed_matches(entries: Seq<Entry>, query: Seq<char>, scores: Seq<i64>) -> Seq<
    (usize, i64, Seq<usize>),
> {
    let found = matches_in_order(entries, query, scores, entries.len() as int);
    choose|s: Seq<(usize, i64, Seq<usize>)>|
        same_matches(s, found) && in_listing_order(entries, s)
}

/// Law: the listing order is determined: two sequences that hold the same matches,
/// both in listing order, are equal.
pub proof fn lemma_listing_order_unique(
    entries: Seq<Entry>,
    a: Seq<(usize, i64, Seq<usize>)>,
    b: Seq<(usize, i64, Seq<usize>)>,
)
    requires
        same_matches(a, b),
        in_listing_order(entries, a),
        in_listing_order(entries, b),
    ensures
        a == b,
{
    assert forall|i: int| 0 <= i < a.len() implies a[i] == b[i] by {
        lemma_listing_prefix_equal(entries, a, b, i + 1);
    }
    assert(a =~= b);
}

proof fn lemma_listing_prefix_equal(
    entries: Seq<Entry>,
    a: Seq<(usize, i64, Seq<usize>)>,
    b: Seq<(usize, i64, Seq<usize>)>,
    n: int,
)
    requires
        same_matches(a, b),
        in_listing_order(entries, a),
        in_listing_order(entries, b),
        0 <= n <= a.len(),
    ensures
        forall|i: int| 0 <= i < n ==> a[i] == b[i],
    decreases n,
{
    if n > 0 {
        lemma_listing_prefix_equal(entries, a, b, n - 1);
        let i = n - 1;
        if a[i] != b[i] {
            assert(b.contains(a[i]));
            let j = choose|j: int| 0 <= j < b.len() && b[j] == a[i];
            assert(a.contains(b[i]));
            let k = choose|k: int| 0 <= k < a.len() && a[k] == b[i];
            if j < i {
                assert(a[j] == b[j]);
                assert(listed_before(entries, a[j], a[i]));
            }
            if k < i {
                assert(a[k] == b[k]);
                assert(listed_before(entries, b[k], b[i]));
            }
            assert(listed_before(entries, b[i], b[j]));
            assert(listed_before(entries, a[i], a[k]));
        }
    }
}

/// The entry positions of the matches are distinct and within `n`.
pub open spec fn distinct_entries(s: Seq<(usize, i64, Seq<usize>)>, n: int) -> bool {
    &&& forall|i: int| 0 <= i < s.len() ==> (#[trigger] s[i]).0 < n
    &&& forall|i: int, j: int| 0 <= i < s.len() && 0 <= j < s.len() && i != j ==> (#[trigger] s[i]).0 != (#[trigger] s[j]).0
}

/// The score `score + score.saturating_mul(history) / 100`.
pub fn combine_score(score: i64, history: i64) -> (r: i64)
    requires
        i64::MIN <= combined_score(score, history) <= i64::MAX,
    ensures
        r == combined_score(score, history),
{
    assert(-85070591730234615865843651857942052864 <= (score as int) * (history as int)
        <= 85070591730234615865843651857942052864) by (nonlinear_arith)
        requires
            -9223372036854775808 <= score as int <= 9223372036854775808,
            -9223372036854775808 <= history as int <= 9223372036854775808,
    ;
    let product: i128 = (score as i128) * (history as i128);
    let clamped: i128 = if product > i64::MAX as i128 {
        i64::MAX as i128
    } else if product < i64::MIN as i128 {
        i64::MIN as i128
    } else {
        product
    };
    let quotient: i128 = if clamped >= 0 {
        clamped / 100
    } else {
        -((-clamped) / 100)
    };
    assert(-9223372036854775808i128 <= clamped <= 9223372036854775807i128);
    (score as i128 + quotient) as i64
}

/// What follows the fuzzy matching of one entry: `found` is the match against the
/// entry's search text, `shown` the one against its displayed text.
pub fn match_from_results(
    index: usize,
    history_score: i64,
    found: Option<(i64, Vec<usize>)>,
    shown: Option<(i64, Vec<usize>)>,
) -> (r: Option<SearchMatch>)
    requires
        found matches Some(f) ==> i64::MIN <= combined_score(f.0, history_score) <= i64::MAX,
    ensures
        match found {
            None => r is None,
            Some(f) => r matches Some(m) && m@ == (
                index,
                combined_score(f.0, history_score) as i64,
                match shown {
                    Some(s) => s.1@,
                    None => f.1@,
                },
            ),
        },
{
    match found {
        None => None,
        Some((score, indices)) => {
            let shown_indices = match shown {
                Some((_, s)) => s,
                None => indices,
            };
            Some(
                SearchMatch {
                    index,
                    score: combine_score(score, history_score),
                    indices: shown_indices,
                },
            )
        },
    }
}

/// The match of one entry for `query`, if it matches.
pub fn match_entry(index: usize, entry: &Entry, query: &str, history_score: i64) -> (r: Option<
    SearchMatch,
>)
    ensures
        match match_of(index, *entry, query@, history_score) {
            Some(v) => r matches Some(m) && m@ == v,
            None => r is None,
        },
{
    let query_chars = crate::text::chars_of(query);
    if query_chars.len() == 0 {
        return Some(SearchMatch { index, score: history_score, indices: Vec::new() });
    }
    let text = entry.search_text();
    let found = fuzzy_indices(text.as_str(), query);
    match found {
        None => None,
        Some(f) => {
            let display_text = entry.display_search_text();
            let shown = fuzzy_indices(display_text.as_str(), query);
            proof {
                let s = f.0 as int;
                let h = history_score as int;
                assert(i64::MIN <= combined_score(f.0, history_score) <= i64::MAX) by {
                    let c = clamp_i64(s * h);
                    assert(i64::MIN <= c <= i64::MAX);
                    assert(-92233720368547759 <= div_toward_zero(c, 100) <= 92233720368547758);
                }
            }
            match_from_results(index, history_score, Some(f), shown)
        },
    }
}

/// Whether match `a` is listed before match `b`.
fn listed_before_exec(entries: &Vec<Entry>, a: &SearchMatch, b: &SearchMatch) -> (r: bool)
    requires
        a.index < entries.len(),
        b.index < entries.len(),
    ensures
        r == listed_before(entries@, a@, b@),
{
    let ea = &entries[a.index];
    let eb = &entries[b.index];
    if a.score != b.score {
        a.score > b.score
    } else if ea.is_active_tmux() != eb.is_active_tmux() {
        ea.is_active_tmux()
    } else if ea.type_rank() != eb.type_rank() {
        ea.type_rank() > eb.type_rank()
    } else {
        a.index < b.index
    }
}

/// The matches in listing order: higher score first, then entries with a running
/// tmux session, then tmux before SSH before Docker, then entry order.
pub fn sort_matches(entries: &Vec<Entry>, matches: Vec<SearchMatch>) -> (r: Vec<SearchMatch>)
    requires
        distinct_entries(match_views(matches@), entries.len() as int),
    ensures
        same_matches(match_views(r@), match_views(matches@)),
        in_listing_order(entries@, match_views(r@)),
{
    let ghost src = match_views(matches@);
    let ghost es = entries@;
    let mut input = matches;
    let mut out: Vec<SearchMatch> = Vec::new();
    let n = input.len();
    // Matches are taken from the back of `input` and inserted into `out` in listing order.
    while input.len() > 0
        invariant
            src.len() == n,
            es == entries@,
            distinct_entries(src, entries.len() as int),
            input.len() + out.len() == n,
            match_views(input@) == src.take(input.len() as int),
            same_matches(match_views(out@), src.skip(input.len() as int)),
            in_listing_order(es, match_views(out@)),
            forall|i: int| 0 <= i < out.len() ==> (#[trigger] out@[i]).index < entries.len(),
        decreases input.len(),
    {
        let ghost k = input.len() - 1;
        let ghost old_in = input@;
        let x = input.pop().unwrap();
        assert(match_views(old_in)[k] == old_in[k]@);
        assert(x@ == src[k]);
        assert(match_views(input@) =~= src.take(k));
        let ghost before = match_views(out@);
        let ghost xv = x@;
        assert(src.contains(xv));
        let mut p: usize = 0;
        while p < out.len() && !listed_before_exec(entries, &x, &out[p])
            invariant
                p <= out.len(),
                x.index < entries.len(),
                before == match_views(out@),
                xv == x@,
                es == entries@,
                forall|i: int| 0 <= i < out.len() ==> (#[trigger] out@[i]).index < entries.len(),
                forall|q: int| 0 <= q < p ==> !listed_before(es, xv, #[trigger] before[q]),
            decreases out.len() - p,
        {
            assert(before[p as int] == out@[p as int]@);
            p = p + 1;
        }
        proof {
            assert(xv.0 < entries.len());
            assert(!before.contains(xv)) by {
                if before.contains(xv) {
                    let q = choose|q: int| 0 <= q < before.len() && before[q] == xv;
                    assert(src.skip(k + 1).contains(xv));
                    let tail = src.skip(k + 1);
                    let m = choose|m: int| 0 <= m < tail.len() && #[trigger] tail[m] == xv;
                    assert(src[k + 1 + m] == xv);
                    assert(src[k] == xv);
                }
            }
            assert forall|q: int| 0 <= q < before.len() implies (#[trigger] before[q]).0 != xv.0 by {
                assert(src.skip(k + 1).contains(before[q]));
                let tail = src.skip(k + 1);
                let m = choose|m: int| 0 <= m < tail.len() && #[trigger] tail[m] == before[q];
                assert(src[k + 1 + m] == before[q]);
            }
            assert forall|q: int| 0 <= q < p implies listed_before(es, #[trigger] before[q], xv) by {
                assert(before[q].0 != xv.0);
            }
            assert forall|q: int| p <= q < before.len() implies listed_before(es, xv, #[trigger] before[q]) by {
                if q > p {
                    assert(listed_before(es, xv, before[p as int]));
                    assert(listed_before(es, before[p as int], before[q]));
                }
            }
        }
        out.insert(p, x);
        proof {
            let after = match_views(out@);
            assert(after =~= before.insert(p as int, xv));
            assert forall|i: int| 0 <= i < out.len() implies (#[trigger] out@[i]).index < entries.len() by {
                assert(after[i] == out@[i]@);
                if i < p {
                    assert(after[i] == before[i]);
                } else if i > p {
                    assert(after[i] == before[i - 1]);
                }
            }
            before.insert_ensures(p as int, xv);
            let rest = src.skip(k);
            assert(rest =~= seq![xv] + src.skip(k + 1));
            assert forall|y: (usize, i64, Seq<usize>)| after.contains(y) <==> rest.contains(y) by {
                if after.contains(y) {
                    let q = choose|q: int| 0 <= q < after.len() && after[q] == y;
                    if q == p {
                        assert(rest[0] == y);
                    } else {
                        if q < p {
                            assert(before[q] == y);
                        } else {
                            assert(before[q - 1] == y);
                        }
                        assert(before.contains(y));
                        let tail = src.skip(k + 1);
                        let m = choose|m: int| 0 <= m < tail.len() && #[trigger] tail[m] == y;
                        assert(rest[m + 1] == y);
                    }
                }
                if rest.contains(y) {
                    let m = choose|m: int| 0 <= m < rest.len() && rest[m] == y;
                    if m == 0 {
                        assert(after[p as int] == y);
                    } else {
                        assert(src.skip(k + 1)[m - 1] == y);
                        assert(src.skip(k + 1).contains(y));
                        assert(before.contains(y));
                        let q = choose|q: int| 0 <= q < before.len() && before[q] == y;
                        if q < p {
                            assert(after[q] == y);
                        } else {
                            assert(after[q + 1] == y);
                        }
                    }
                }
            }
            assert forall|a: int, b: int| 0 <= a < b < after.len() implies listed_before(es, #[trigger] after[a], #[trigger] after[b]) by {
                if b < p {
                } else if b == p {
                } else if a < p {
                    assert(after[b] == before[b - 1]);
                    assert(listed_before(es, before[a], xv));
                    assert(listed_before(es, xv, before[b - 1]));
                } else if a == p {
                    assert(after[b] == before[b - 1]);
                } else {
                    assert(after[a] == before[a - 1]);
                    assert(after[b] == before[b - 1]);
                }
            }
        }
    }
    assert(src.skip(0) =~= src);
    out
}

/// The entries that match `query`, in listing order. `history_scores[i]` is the
/// history score of `entries[i]`.
pub fn filtered_matches(entries: &Vec<Entry>, query: &str, history_scores: &Vec<i64>) -> (r: Vec<
    SearchMatch,
>)
    requires
        history_scores.len() == entries.len(),
    ensures
        same_matches(
            match_views(r@),
            matches_in_order(entries@, query@, history_scores@, entries.len() as int),
        ),
        in_listing_order(entries@, match_views(r@)),
        match_views(r@) == listed_matches(entries@, query@, history_scores@),
        forall|i: int| 0 <= i < r.len() ==> (#[trigger] r@[i]).index < entries.len(),
        forall|i: int, j: int|
            0 <= i < r.len() && 0 <= j < r.len() && i != j ==> (#[trigger] r@[i]).index
                != (#[trigger] r@[j]).index,
{
    let mut found: Vec<SearchMatch> = Vec::new();
    let mut i: usize = 0;
    while i < entries.len()
        invariant
            i <= entries.len() == history_scores.len(),
            match_views(found@) == matches_in_order(entries@, query@, history_scores@, i as int),
            distinct_entries(match_views(found@), i as int),
        decreases entries.len() - i,
    {
        let ghost before = match_views(found@);
        match match_entry(i, &entries[i], query, history_scores[i]) {
            Some(m) => {
                found.push(m);
                assert(match_views(found@) =~= before.push(m@));
            },
            None => {},
        }
        i = i + 1;
    }
    let r = sort_matches(entries, found);
    proof {
        let found_all = matches_in_order(entries@, query@, history_scores@, entries.len() as int);
        let rv = match_views(r@);
        assert(same_matches(rv, found_all) && in_listing_order(entries@, rv));
        let c = listed_matches(entries@, query@, history_scores@);
        assert(same_matches(c, found_all) && in_listing_order(entries@, c));
        assert(same_matches(c, rv));
        lemma_listing_order_unique(entries@, c, rv);
        assert forall|i: int| 0 <= i < r.len() implies (#[trigger] r@[i]).index < entries.len() by {
            assert(rv[i] == r@[i]@);
            assert(rv.contains(rv[i]));
            assert(found_all.contains(rv[i]));
        }
        assert(distinct_entries(found_all, entries.len() as int));
        assert forall|i: int, j: int|
            0 <= i < r.len() && 0 <= j < r.len() && i != j implies (#[trigger] r@[i]).index
                != (#[trigger] r@[j]).index by {
            assert(rv[i] == r@[i]@);
            assert(rv[j] == r@[j]@);
            if rv[i].0 == rv[j].0 {
                assert(rv.contains(rv[i]));
                assert(rv.contains(rv[j]));
                assert(found_all.contains(rv[i]));
                assert(found_all.contains(rv[j]));
                let a = choose|a: int| 0 <= a < found_all.len() && found_all[a] == rv[i];
                let b = choose|b: int| 0 <= b < found_all.len() && found_all[b] == rv[j];
                assert(found_all[a].0 == found_all[b].0);
                assert(a == b);
                if i < j {
                    assert(listed_before(entries@, rv[i], rv[j]));
                } else {
                    assert(listed_before(entries@, rv[j], rv[i]));
                }
            }
        }
    }
    r
}

/// Law: with an empty query every entry matches, in entry order, scored by its
/// history score and with nothing highlighted.
pub proof fn lemma_empty_query_matches_all(entries: Seq<Entry>, scores: Seq<i64>, n: int)
    requires
        0 <= n <= entries.len(),
        n <= scores.len(),
        n <= usize::MAX,
    ensures
        matches_in_order(entries, Seq::<char>::empty(), scores, n) == Seq::new(
            n as nat,
            |i: int| (i as usize, scores[i], Seq::<usize>::empty()),
        ),
    decreases n,
{
    if n > 0 {
        lemma_empty_query_matches_all(entries, scores, n - 1);
    }
    assert(matches_in_order(entries, Seq::<char>::empty(), scores, n) =~= Seq::new(
        n as nat,
        |i: int| (i as usize, scores[i], Seq::<usize>::empty()),
    ));
}

/// Law: a history score of zero leaves the fuzzy score as it is.
pub proof fn lemma_zero_history_keeps_score(score: i64)
    ensures
        combined_score(score, 0) == score,
{
}

} // verus!
