//! Access history: for each entry key, the times (in seconds since the Unix epoch)
//! at which it was opened, kept for thirty days and at most 128 per key; read from
//! and written to a tab-separated text.
use vstd::prelude::*;

use std::collections::VecDeque;

use crate::text::{
    append_str, chars_of, decimal, is_digit, join, join_strings, lacks, lemma_lex_lt_irreflexive,
    lemma_lines_of_join, lemma_parse_decimal, lemma_split_on_join, lemma_strictly_sorted_unique, lines_of, parse_u64,
    parse_u64_spec, push_char, sort_strings, split_char, split_lines, split_on, str_eq,
    strictly_sorted, to_owned_string, u64_to_decimal,
};

verus! {

/// How many timestamps a key keeps at most.
pub const MAX_TIMESTAMPS_PER_ENTRY: usize = 128;

/// Thirty days, in seconds: accesses older than this are forgotten.
pub const HISTORY_WINDOW_SECS: u64 = 2592000;

/// `a - b`, or 0 where `b` is larger.
pub open spec fn sat_sub(a: u64, b: u64) -> u64 {
    if a >= b {
        (a - b) as u64
    } else {
        0
    }
}

/// The oldest access time still kept at time `now`.
pub open spec fn history_cutoff(now: u64) -> u64 {
    sat_sub(now, HISTORY_WINDOW_SECS)
}

/// `q` with its oldest accesses dropped while they are older than `cutoff` or while
/// there are 128 or more.
pub open spec fn pruned(q: Seq<u64>, cutoff: u64) -> Seq<u64>
    decreases q.len(),
{
    if q.len() > 0 && (q[0] < cutoff || q.len() >= MAX_TIMESTAMPS_PER_ENTRY) {
        pruned(q.drop_first(), cutoff)
    } else {
        q
    }
}

/// The accesses of a key after one more access at `now`.
pub open spec fn recorded(q: Seq<u64>, now: u64) -> Seq<u64> {
    pruned(q, history_cutoff(now)).push(now)
}

/// The accesses that `m` holds for `k`, none where it holds nothing.
pub open spec fn accesses_of(m: Map<Seq<char>, Seq<u64>>, k: Seq<char>) -> Seq<u64> {
    if m.contains_key(k) {
        m[k]
    } else {
        Seq::<u64>::empty()
    }
}

/// The ages, in seconds at time `now`, of the most recent run of accesses of `q`
/// not older than the cutoff, newest first (the accesses that count towards a
/// score).
pub open spec fn recent_ages(q: Seq<u64>, now: u64) -> Seq<u64>
    decreases q.len(),
{
    if q.len() == 0 || q.last() < history_cutoff(now) {
        Seq::<u64>::empty()
    } else {
        seq![sat_sub(now, q.last())] + recent_ages(q.drop_last(), now)
    }
}

/// The timestamps of a history line's second field: each comma-separated piece that
/// reads as a `u64`, in order.
pub open spec fn parsed_timestamps(field: Seq<char>) -> Seq<u64> {
    split_on(field, ',').filter_map(|t: Seq<char>| parse_u64_spec(t))
}

/// A history line: the key, a tab, and the timestamps; `None` where there is no tab,
/// the key is empty or no timestamp reads.
pub open spec fn parse_history_line_spec(line: Seq<char>) -> Option<(Seq<char>, Seq<u64>)> {
    let parts = split_on(line, '\t');
    if parts.len() < 2 {
        None
    } else {
        let key = parts[0];
        let ts = parsed_timestamps(parts[1]);
        if key.len() == 0 || ts.len() == 0 {
            None
        } else {
            Some((key, ts))
        }
    }
}

/// The history that a sequence of lines describes; a later line for a key replaces
/// an earlier one.
pub open spec fn history_of_lines(ls: Seq<Seq<char>>) -> Map<Seq<char>, Seq<u64>>
    decreases ls.len(),
{
    if ls.len() == 0 {
        Map::<Seq<char>, Seq<u64>>::empty()
    } else {
        let prev = history_of_lines(ls.drop_last());
        match parse_history_line_spec(ls.last()) {
            Some(kv) => prev.insert(kv.0, kv.1),
            None => prev,
        }
    }
}

/// The history that a text describes, line by line.
pub open spec fn history_of_text(text: Seq<char>) -> Map<Seq<char>, Seq<u64>> {
    history_of_lines(lines_of(text))
}

/// The decimal notations of the timestamps joined by commas.
pub open spec fn timestamps_text(ts: Seq<u64>) -> Seq<char> {
    join(ts.map_values(|t: u64| decimal(t as nat)), seq![','])
}

/// The line that stores key `k` with timestamps `ts`.
pub open spec fn history_line(k: Seq<char>, ts: Seq<u64>) -> Seq<char> {
    k + seq!['\t'] + timestamps_text(ts)
}

/// `ls` holds one line per key of `m` and nothing else, in increasing order.
pub open spec fn is_history_listing(m: Map<Seq<char>, Seq<u64>>, ls: Seq<Seq<char>>) -> bool {
    &&& forall|k: Seq<char>| #[trigger] m.contains_key(k) ==> ls.contains(history_line(k, m[k]))
    &&& forall|i: int| 0 <= i < ls.len() ==> is_line_of(m, #[trigger] ls[i])
    &&& strictly_sorted(ls)
}

/// `l` is the line of some key of `m`.
pub open spec fn is_line_of(m: Map<Seq<char>, Seq<u64>>, l: Seq<char>) -> bool {
    exists|k: Seq<char>| #[trigger] m.contains_key(k) && l == history_line(k, m[k])
}

/// How often and how recently each entry was opened.
pub struct History {
    entries: Vec<(String, VecDeque<u64>)>,
}

/// The key stored at position `i`.
pub open spec fn key_at(entries: Seq<(String, VecDeque<u64>)>, i: int) -> Seq<char> {
    entries[i].0@
}

/// Some position of `entries` holds key `k`.
pub open spec fn has_key(entries: Seq<(String, VecDeque<u64>)>, k: Seq<char>) -> bool {
    exists|i: int| 0 <= i < entries.len() && #[trigger] key_at(entries, i) == k
}

/// No key occurs twice.
pub open spec fn keys_unique(entries: Seq<(String, VecDeque<u64>)>) -> bool {
    forall|i: int, j: int|
        0 <= i < entries.len() && 0 <= j < entries.len() && i != j ==> key_at(entries, i)
            != key_at(entries, j)
}

/// The map from each stored key to its accesses.
pub open spec fn entries_view(entries: Seq<(String, VecDeque<u64>)>) -> Map<Seq<char>, Seq<u64>> {
    Map::new(
        |k: Seq<char>| has_key(entries, k),
        |k: Seq<char>|
            entries[choose|i: int| 0 <= i < entries.len() && #[trigger] key_at(entries, i) == k].1@,
    )
}

proof fn lemma_entries_view_at(entries: Seq<(String, VecDeque<u64>)>, i: int)
    requires
        keys_unique(entries),
        0 <= i < entries.len(),
    ensures
        entries_view(entries).contains_key(key_at(entries, i)),
        entries_view(entries)[key_at(entries, i)] == entries[i].1@,
{
    let k = key_at(entries, i);
    assert(has_key(entries, k));
    let j = choose|j: int| 0 <= j < entries.len() && #[trigger] key_at(entries, j) == k;
    assert(j == i);
}

proof fn lemma_entries_view_update(
    entries: Seq<(String, VecDeque<u64>)>,
    i: int,
    e: (String, VecDeque<u64>),
)
    requires
        keys_unique(entries),
        0 <= i < entries.len(),
        e.0@ == key_at(entries, i),
    ensures
        keys_unique(entries.update(i, e)),
        entries_view(entries.update(i, e)) == entries_view(entries).insert(e.0@, e.1@),
{
    let n = entries.update(i, e);
    assert forall|a: int, b: int|
        0 <= a < n.len() && 0 <= b < n.len() && a != b implies key_at(n, a) != key_at(n, b) by {
        assert(key_at(n, a) == key_at(entries, a));
        assert(key_at(n, b) == key_at(entries, b));
    }
    let m1 = entries_view(n);
    let m2 = entries_view(entries).insert(e.0@, e.1@);
    assert forall|k: Seq<char>| m1.contains_key(k) <==> m2.contains_key(k) by {
        if has_key(n, k) {
            let j = choose|j: int| 0 <= j < n.len() && #[trigger] key_at(n, j) == k;
            assert(key_at(entries, j) == k);
        }
        if has_key(entries, k) {
            let j = choose|j: int| 0 <= j < entries.len() && #[trigger] key_at(entries, j) == k;
            assert(key_at(n, j) == k);
        }
        if k == e.0@ {
            assert(key_at(n, i) == k);
        }
    }
    assert forall|k: Seq<char>| m1.contains_key(k) implies m1[k] == m2[k] by {
        let j = choose|j: int| 0 <= j < n.len() && #[trigger] key_at(n, j) == k;
        lemma_entries_view_at(n, j);
        if j == i {
        } else {
            lemma_entries_view_at(entries, j);
        }
    }
    assert(m1 =~= m2);
}

proof fn lemma_entries_view_push(entries: Seq<(String, VecDeque<u64>)>, e: (String, VecDeque<u64>))
    requires
        keys_unique(entries),
        !has_key(entries, e.0@),
    ensures
        keys_unique(entries.push(e)),
        entries_view(entries.push(e)) == entries_view(entries).insert(e.0@, e.1@),
{
    let n = entries.push(e);
    let last = entries.len() as int;
    assert forall|a: int, b: int|
        0 <= a < n.len() && 0 <= b < n.len() && a != b implies key_at(n, a) != key_at(n, b) by {
        if a < last && b < last {
            assert(key_at(n, a) == key_at(entries, a));
            assert(key_at(n, b) == key_at(entries, b));
        } else if a == last {
            assert(key_at(n, b) == key_at(entries, b));
        } else {
            assert(key_at(n, a) == key_at(entries, a));
        }
    }
    let m1 = entries_view(n);
    let m2 = entries_view(entries).insert(e.0@, e.1@);
    assert forall|k: Seq<char>| m1.contains_key(k) <==> m2.contains_key(k) by {
        if has_key(n, k) {
            let j = choose|j: int| 0 <= j < n.len() && #[trigger] key_at(n, j) == k;
            if j < last {
                assert(key_at(entries, j) == k);
            }
        }
        if has_key(entries, k) {
            let j = choose|j: int| 0 <= j < entries.len() && #[trigger] key_at(entries, j) == k;
            assert(key_at(n, j) == k);
        }
        if k == e.0@ {
            assert(key_at(n, last) == k);
        }
    }
    assert forall|k: Seq<char>| m1.contains_key(k) implies m1[k] == m2[k] by {
        let j = choose|j: int| 0 <= j < n.len() && #[trigger] key_at(n, j) == k;
        lemma_entries_view_at(n, j);
        if j < last {
            assert(key_at(entries, j) == k);
            lemma_entries_view_at(entries, j);
        }
    }
    assert(m1 =~= m2);
}

impl Default for History {
    /// An empty history.
    fn default() -> (r: History)
        ensures
            r@ == Map::<Seq<char>, Seq<u64>>::empty(),
    {
        History::new()
    }
}

impl View for History {
    type V = Map<Seq<char>, Seq<u64>>;

    closed spec fn view(&self) -> Map<Seq<char>, Seq<u64>> {
        entries_view(self.entries@)
    }
}

impl History {
    #[verifier::type_invariant]
    spec fn inv(self) -> bool {
        keys_unique(self.entries@)
    }

    /// An empty history.
    pub fn new() -> (r: History)
        ensures
            r@ == Map::<Seq<char>, Seq<u64>>::empty(),
    {
        let r = History { entries: Vec::new() };
        assert(r@ =~= Map::<Seq<char>, Seq<u64>>::empty());
        r
    }

    /// The history that a text in the stored format describes.
    pub fn from_text(text: &str) -> (r: History)
        ensures
            r@ == history_of_text(text@),
    {
        let lines = split_lines(text);
        let mut h = History::new();
        let mut i: usize = 0;
        assert(lines.deep_view().take(0) =~= Seq::<Seq<char>>::empty());
        while i < lines.len()
            invariant
                i <= lines.len(),
                lines.deep_view() == lines_of(text@),
                h@ == history_of_lines(lines.deep_view().take(i as int)),
            decreases lines.len() - i,
        {
            assert(lines.deep_view().take(i + 1).drop_last() =~= lines.deep_view().take(i as int));
            assert(lines.deep_view().take(i + 1).last() == lines@[i as int]@);
            match parse_history_line(lines[i].as_str()) {
                Some((key, accesses)) => {
                    h.put(key, accesses);
                },
                None => {},
            }
            i = i + 1;
        }
        assert(lines.deep_view().take(i as int) =~= lines.deep_view());
        h
    }

    /// Position of `key`, if stored.
    fn find(&self, key: &str) -> (r: Option<usize>)
        ensures
            match r {
                Some(i) => i < self.entries@.len() && key_at(self.entries@, i as int) == key@,
                None => !has_key(self.entries@, key@),
            },
    {
        let mut i: usize = 0;
        while i < self.entries.len()
            invariant
                i <= self.entries.len(),
                forall|j: int| 0 <= j < i ==> key_at(self.entries@, j) != key@,
            decreases self.entries.len() - i,
        {
            if str_eq(self.entries[i].0.as_str(), key) {
                return Some(i);
            }
            i = i + 1;
        }
        None
    }

    /// Stores `accesses` for `key`, replacing what was stored.
    fn put(&mut self, key: String, accesses: VecDeque<u64>)
        ensures
            final(self)@ == old(self)@.insert(key@, accesses@),
    {
        proof {
            use_type_invariant(&*self);
        }
        match self.find(key.as_str()) {
            Some(i) => {
                proof {
                    lemma_entries_view_update(self.entries@, i as int, (key, accesses));
                }
                let mut entries: Vec<(String, VecDeque<u64>)> = Vec::new();
                std::mem::swap(&mut entries, &mut self.entries);
                entries.set(i, (key, accesses));
                self.entries = entries;
            },
            None => {
                proof {
                    lemma_entries_view_push(self.entries@, (key, accesses));
                }
                let mut entries: Vec<(String, VecDeque<u64>)> = Vec::new();
                std::mem::swap(&mut entries, &mut self.entries);
                entries.push((key, accesses));
                self.entries = entries;
            },
        }
    }

    /// Records an access to `key` at time `now`: accesses older than thirty days
    /// before `now` are dropped from the front, as are the oldest while 128 or more
    /// are kept, and `now` is appended.
    pub fn record_access(&mut self, key: &str, now: u64)
        ensures
            final(self)@ == old(self)@.insert(key@, recorded(accesses_of(old(self)@, key@), now)),
    {
        proof {
            use_type_invariant(&*self);
        }
        let cutoff = now.saturating_sub(HISTORY_WINDOW_SECS);
        match self.find(key) {
            Some(i) => {
                let mut accesses = self.entries[i].1.clone();
                proof {
                    lemma_entries_view_at(self.entries@, i as int);
                }
                prune_front(&mut accesses, cutoff);
                accesses.push_back(now);
                let k = to_owned_string(key);
                proof {
                    lemma_entries_view_update(self.entries@, i as int, (k, accesses));
                }
                let mut entries: Vec<(String, VecDeque<u64>)> = Vec::new();
                std::mem::swap(&mut entries, &mut self.entries);
                entries.set(i, (k, accesses));
                self.entries = entries;
            },
            None => {
                let mut accesses: VecDeque<u64> = VecDeque::new();
                accesses.push_back(now);
                assert(accesses@ =~= recorded(Seq::<u64>::empty(), now));
                let k = to_owned_string(key);
                proof {
                    lemma_entries_view_push(self.entries@, (k, accesses));
                }
                let mut entries: Vec<(String, VecDeque<u64>)> = Vec::new();
                std::mem::swap(&mut entries, &mut self.entries);
                entries.push((k, accesses));
                self.entries = entries;
            },
        }
    }

    /// The ages at `now` of the accesses of `key` that count towards its score,
    /// newest first.
    pub fn recent_access_ages(&self, key: &str, now: u64) -> (r: Vec<u64>)
        ensures
            r@ == recent_ages(accesses_of(self@, key@), now),
    {
        proof {
            use_type_invariant(self);
        }
        let cutoff = now.saturating_sub(HISTORY_WINDOW_SECS);
        let mut r: Vec<u64> = Vec::new();
        match self.find(key) {
            None => {
                r
            },
            Some(idx) => {
                proof {
                    lemma_entries_view_at(self.entries@, idx as int);
                }
                let q = &self.entries[idx].1;
                let ghost qs = q@;
                let mut j: usize = q.len();
                assert(qs.take(j as int) =~= qs);
                while j > 0 && q[j - 1] >= cutoff
                    invariant
                        j <= q@.len(),
                        qs == q@,
                        cutoff == history_cutoff(now),
                        r@ + recent_ages(qs.take(j as int), now) == recent_ages(qs, now),
                    decreases j,
                {
                    assert(qs.take(j as int).drop_last() =~= qs.take(j - 1));
                    assert(qs.take(j as int).last() == q@[j - 1]);
                    r.push(now.saturating_sub(q[j - 1]));
                    j = j - 1;
                    assert(r@ + recent_ages(qs.take(j as int), now) =~= recent_ages(qs, now));
                }
                assert(recent_ages(qs.take(j as int), now) =~= Seq::<u64>::empty());
                assert(r@ =~= recent_ages(qs, now));
                r
            },
        }
    }

    /// The stored text: one line per key, the key, a tab and the timestamps joined by
    /// commas, the lines in increasing order and joined by newlines.
    pub fn to_text(&self) -> (r: String)
        ensures
            exists|ls: Seq<Seq<char>>| is_history_listing(self@, ls) && r@ == join(ls, seq!['\n']),
    {
        proof {
            use_type_invariant(self);
        }
        let mut lines: Vec<String> = Vec::new();
        let mut i: usize = 0;
        while i < self.entries.len()
            invariant
                i <= self.entries.len(),
                keys_unique(self.entries@),
                lines.len() == i,
                forall|j: int|
                    0 <= j < i ==> #[trigger] lines.deep_view()[j] == history_line(
                        key_at(self.entries@, j),
                        self.entries@[j].1@,
                    ),
            decreases self.entries.len() - i,
        {
            let mut line = to_owned_string(self.entries[i].0.as_str());
            push_char(&mut line, '\t');
            let stamps = timestamps_string(&self.entries[i].1);
            append_str(&mut line, stamps.as_str());
            let ghost before = lines.deep_view();
            lines.push(line);
            assert(lines.deep_view() =~= before.push(line@));
            i = i + 1;
        }
        let ghost all = lines.deep_view();
        proof {
            assert forall|a: int, b: int| 0 <= a < all.len() && 0 <= b < all.len() && a != b implies all[a] != all[b] by {
                lemma_history_line_injective(
                    key_at(self.entries@, a),
                    self.entries@[a].1@,
                    key_at(self.entries@, b),
                    self.entries@[b].1@,
                );
            }
        }
        let sorted = sort_strings(lines);
        proof {
            reveal_strlit("\n");
            let m = self@;
            let ls = sorted.deep_view();
            assert forall|k: Seq<char>| #[trigger] m.contains_key(k) implies ls.contains(history_line(k, m[k])) by {
                let j = choose|j: int| 0 <= j < self.entries@.len() && #[trigger] key_at(self.entries@, j) == k;
                lemma_entries_view_at(self.entries@, j);
                assert(all[j] == history_line(k, m[k]));
                assert(all.contains(history_line(k, m[k])));
            }
            assert forall|i: int| 0 <= i < ls.len() implies is_line_of(m, #[trigger] ls[i]) by {
                assert(ls.contains(ls[i]));
                assert(all.contains(ls[i]));
                let j = choose|j: int| 0 <= j < all.len() && all[j] == ls[i];
                lemma_entries_view_at(self.entries@, j);
                let k = key_at(self.entries@, j);
                assert(m.contains_key(k) && ls[i] == history_line(k, m[k]));
            }
            assert("\n"@ =~= seq!['\n']);
        }
        let r = join_strings(&sorted, "\n");
        assert(is_history_listing(self@, sorted.deep_view()) && r@ == join(sorted.deep_view(), seq!['\n']));
        r
    }
}

/// Drops the oldest accesses while they are older than `cutoff` or while 128 or more
/// are kept.
fn prune_front(q: &mut VecDeque<u64>, cutoff: u64)
    ensures
        final(q)@ == pruned(old(q)@, cutoff),
{
    while q.len() > 0 && (q[0] < cutoff || q.len() >= MAX_TIMESTAMPS_PER_ENTRY)
        invariant
            pruned(q@, cutoff) == pruned(old(q)@, cutoff),
        decreases q@.len(),
    {
        let ghost before = q@;
        let _ = q.pop_front();
        assert(q@ =~= before.drop_first());
    }
}

/// The timestamps in decimal, joined by commas.
fn timestamps_string(q: &VecDeque<u64>) -> (r: String)
    ensures
        r@ == timestamps_text(q@),
{
    let ghost ds = q@.map_values(|t: u64| decimal(t as nat));
    let mut r = String::new();
    let mut i: usize = 0;
    while i < q.len()
        invariant
            i <= q@.len(),
            ds == q@.map_values(|t: u64| decimal(t as nat)),
            r@ == join(ds.take(i as int), seq![',']),
        decreases q@.len() - i,
    {
        assert(ds.take(i + 1).drop_last() =~= ds.take(i as int));
        if i > 0 {
            push_char(&mut r, ',');
        }
        let d = u64_to_decimal(q[i]);
        append_str(&mut r, d.as_str());
        i = i + 1;
        assert(r@ =~= join(ds.take(i as int), seq![',']));
    }
    assert(ds.take(i as int) =~= ds);
    r
}

/// Reads one stored line: the key before the first tab and the timestamps after it
/// (up to a second tab), of which the pieces that do not read as numbers are skipped.
pub fn parse_history_line(line: &str) -> (r: Option<(String, VecDeque<u64>)>)
    ensures
        match parse_history_line_spec(line@) {
            Some(kv) => r matches Some(found) && found.0@ == kv.0 && found.1@ == kv.1,
            None => r is None,
        },
{
    let parts = split_char(line, '\t');
    if parts.len() < 2 {
        return None;
    }
    let pieces = split_char(parts[1].as_str(), ',');
    let mut ts: VecDeque<u64> = VecDeque::new();
    let mut i: usize = 0;
    let ghost f = |t: Seq<char>| parse_u64_spec(t);
    assert(pieces.deep_view().take(0) =~= Seq::<Seq<char>>::empty());
    while i < pieces.len()
        invariant
            i <= pieces.len(),
            f == (|t: Seq<char>| parse_u64_spec(t)),
            ts@ == pieces.deep_view().take(i as int).filter_map(f),
        decreases pieces.len() - i,
    {
        assert(pieces.deep_view().take(i + 1).drop_last() =~= pieces.deep_view().take(i as int));
        assert(pieces.deep_view().take(i + 1).last() == pieces@[i as int]@);
        match parse_u64(pieces[i].as_str()) {
            Some(t) => {
                ts.push_back(t);
            },
            None => {},
        }
        i = i + 1;
    }
    assert(pieces.deep_view().take(i as int) =~= pieces.deep_view());
    let key = parts[0].clone();
    let nkey = chars_of(key.as_str()).len();
    if nkey == 0 || ts.len() == 0 {
        return None;
    }
    Some((key, ts))
}

// ---------------------------------------------------------------------------
// What a stored text gives back
// ---------------------------------------------------------------------------

/// Every character of `s` satisfies `p`.
pub open spec fn all_chars(s: Seq<char>, p: spec_fn(char) -> bool) -> bool {
    forall|i: int| 0 <= i < s.len() ==> p(#[trigger] s[i])
}

proof fn lemma_join_all_chars(parts: Seq<Seq<char>>, sep: Seq<char>, p: spec_fn(char) -> bool)
    requires
        forall|i: int| 0 <= i < parts.len() ==> all_chars(#[trigger] parts[i], p),
        all_chars(sep, p),
    ensures
        all_chars(join(parts, sep), p),
    decreases parts.len(),
{
    if parts.len() > 1 {
        lemma_join_all_chars(parts.drop_last(), sep, p);
        let a = join(parts.drop_last(), sep);
        let b = parts.last();
        assert(all_chars(b, p));
        assert forall|i: int| 0 <= i < join(parts, sep).len() implies p(
            #[trigger] join(parts, sep)[i],
        ) by {
            if i < a.len() {
                assert(join(parts, sep)[i] == a[i]);
            } else if i < a.len() + sep.len() {
                assert(join(parts, sep)[i] == sep[i - a.len()]);
            } else {
                assert(join(parts, sep)[i] == b[i - a.len() - sep.len()]);
            }
        }
    } else if parts.len() == 1 {
        assert(all_chars(parts[0], p));
    }
}

proof fn lemma_decimal_digits(n: nat)
    ensures
        all_chars(decimal(n), |c: char| is_digit(c)),
        decimal(n).len() > 0,
    decreases n,
{
    if n >= 10 {
        lemma_decimal_digits(n / 10);
    }
}

proof fn lemma_timestamps_text_no_tab(ts: Seq<u64>)
    ensures
        all_chars(timestamps_text(ts), |c: char| c != '\t' && c != '\n' && c != '\r'),
{
    let p = |c: char| c != '\t' && c != '\n' && c != '\r';
    let ds = ts.map_values(|t: u64| decimal(t as nat));
    assert forall|i: int| 0 <= i < ds.len() implies all_chars(#[trigger] ds[i], p) by {
        lemma_decimal_digits(ts[i] as nat);
        assert forall|j: int| 0 <= j < ds[i].len() implies p(#[trigger] ds[i][j]) by {
            assert(is_digit(ds[i][j]));
        }
    }
    lemma_join_all_chars(ds, seq![','], p);
}

/// Lines of different keys differ.
proof fn lemma_history_line_injective(k1: Seq<char>, t1: Seq<u64>, k2: Seq<char>, t2: Seq<u64>)
    requires
        k1 != k2,
    ensures
        history_line(k1, t1) != history_line(k2, t2),
{
    let l1 = history_line(k1, t1);
    let l2 = history_line(k2, t2);
    lemma_timestamps_text_no_tab(t1);
    lemma_timestamps_text_no_tab(t2);
    if l1 == l2 {
        let p = |c: char| c != '\t' && c != '\n' && c != '\r';
        let a1 = k1 + seq!['\t'];
        let a2 = k2 + seq!['\t'];
        let s1 = timestamps_text(t1);
        let s2 = timestamps_text(t2);
        assert(l1 == a1 + s1);
        assert(l2 == a2 + s2);
        if k1.len() < k2.len() {
            let x = k2.len() as int;
            assert(l2[x] == '\t');
            assert(l1[x] == s1[x - a1.len()]);
            assert(p(s1[x - a1.len()]));
        } else if k2.len() < k1.len() {
            let x = k1.len() as int;
            assert(l1[x] == '\t');
            assert(l2[x] == s2[x - a2.len()]);
            assert(p(s2[x - a2.len()]));
        } else {
            assert forall|i: int| 0 <= i < k1.len() implies k1[i] == k2[i] by {
                assert(l1[i] == k1[i]);
                assert(l2[i] == k2[i]);
            }
            assert(k1 =~= k2);
        }
    }
}

proof fn lemma_join_last(parts: Seq<Seq<char>>, sep: Seq<char>)
    requires
        parts.len() > 0,
        parts.last().len() > 0,
    ensures
        join(parts, sep).len() > 0,
        join(parts, sep).last() == parts.last().last(),
{
}

/// A key that a stored line can hold: not empty, without tab or newline.
pub open spec fn storable_key(k: Seq<char>) -> bool {
    k.len() > 0 && lacks(k, '\t') && lacks(k, '\n')
}

proof fn lemma_timestamps_read_back(ts: Seq<u64>)
    ensures
        split_on(timestamps_text(ts), ',').len() >= 1,
        ts.len() > 0 ==> parsed_timestamps(timestamps_text(ts)) == ts,
{
    let ds = ts.map_values(|t: u64| decimal(t as nat));
    crate::text::lemma_split_on_nonempty(timestamps_text(ts), ',');
    if ts.len() > 0 {
        assert forall|i: int| 0 <= i < ds.len() implies lacks(#[trigger] ds[i], ',') by {
            lemma_decimal_digits(ts[i] as nat);
            assert forall|j: int| 0 <= j < ds[i].len() implies #[trigger] ds[i][j] != ',' by {
                assert(is_digit(ds[i][j]));
            }
        }
        lemma_split_on_join(ds, ',');
        lemma_decimals_read_back(ts);
    }
}

proof fn lemma_decimals_read_back(ts: Seq<u64>)
    ensures
        ts.map_values(|t: u64| decimal(t as nat)).filter_map(|t: Seq<char>| parse_u64_spec(t))
            == ts,
    decreases ts.len(),
{
    let ds = ts.map_values(|t: u64| decimal(t as nat));
    if ts.len() > 0 {
        lemma_decimals_read_back(ts.drop_last());
        assert(ds.drop_last() =~= ts.drop_last().map_values(|t: u64| decimal(t as nat)));
        lemma_parse_decimal(ts.last());
        assert(ds.filter_map(|t: Seq<char>| parse_u64_spec(t)) =~= ts.drop_last() + seq![ts.last()]);
        assert(ts.drop_last() + seq![ts.last()] =~= ts);
    } else {
        assert(ds.filter_map(|t: Seq<char>| parse_u64_spec(t)) =~= ts);
    }
}

/// A stored line reads back as its key and timestamps.
proof fn lemma_history_line_read_back(k: Seq<char>, ts: Seq<u64>)
    requires
        storable_key(k),
        ts.len() > 0,
    ensures
        parse_history_line_spec(history_line(k, ts)) == Some((k, ts)),
{
    let tt = timestamps_text(ts);
    lemma_timestamps_text_no_tab(ts);
    assert(lacks(tt, '\t')) by {
        assert forall|i: int| 0 <= i < tt.len() implies #[trigger] tt[i] != '\t' by {
            let p = |c: char| c != '\t' && c != '\n' && c != '\r';
            assert(p(tt[i]));
        }
    }
    let parts = seq![k, tt];
    assert(join(parts, seq!['\t']) =~= history_line(k, ts)) by {
        assert(parts.drop_last() =~= seq![k]);
        assert(join(seq![k], seq!['\t']) == k);
        assert(parts.last() == tt);
        assert(join(parts, seq!['\t']) == k + seq!['\t'] + tt);
    }
    lemma_split_on_join(parts, '\t');
    lemma_timestamps_read_back(ts);
}

/// Reading lines of distinct keys collects each key with its timestamps.
proof fn lemma_history_of_parsed_lines(ls: Seq<Seq<char>>)
    requires
        forall|i: int| 0 <= i < ls.len() ==> (#[trigger] parse_history_line_spec(ls[i])) is Some,
        forall|i: int, j: int|
            0 <= i < ls.len() && 0 <= j < ls.len() && i != j ==> (#[trigger] parse_history_line_spec(
                ls[i],
            )).unwrap().0 != (#[trigger] parse_history_line_spec(ls[j])).unwrap().0,
    ensures
        forall|k: Seq<char>|
            #[trigger] history_of_lines(ls).contains_key(k) <==> exists|i: int|
                0 <= i < ls.len() && (#[trigger] parse_history_line_spec(ls[i])).unwrap().0 == k,
        forall|i: int|
            0 <= i < ls.len() ==> history_of_lines(ls)[(#[trigger] parse_history_line_spec(
                ls[i],
            )).unwrap().0] == parse_history_line_spec(ls[i]).unwrap().1,
    decreases ls.len(),
{
    if ls.len() > 0 {
        let front = ls.drop_last();
        assert forall|i: int| 0 <= i < front.len() implies (#[trigger] parse_history_line_spec(
            front[i],
        )) is Some by {
            assert(front[i] == ls[i]);
        }
        assert forall|i: int, j: int|
            0 <= i < front.len() && 0 <= j < front.len() && i != j implies (#[trigger] parse_history_line_spec(
                front[i],
            )).unwrap().0 != (#[trigger] parse_history_line_spec(front[j])).unwrap().0 by {
            assert(front[i] == ls[i]);
            assert(front[j] == ls[j]);
        }
        lemma_history_of_parsed_lines(front);
        let last = ls.len() - 1;
        let kv = parse_history_line_spec(ls[last]).unwrap();
        assert(parse_history_line_spec(ls[last]) is Some);
        let h = history_of_lines(ls);
        assert(h == history_of_lines(front).insert(kv.0, kv.1));
        assert forall|k: Seq<char>| #[trigger] h.contains_key(k) <==> exists|i: int|
            0 <= i < ls.len() && (#[trigger] parse_history_line_spec(ls[i])).unwrap().0 == k by {
            if h.contains_key(k) && k != kv.0 {
                let i = choose|i: int|
                    0 <= i < front.len() && (#[trigger] parse_history_line_spec(front[i])).unwrap().0 == k;
                assert(front[i] == ls[i]);
            }
            if exists|i: int| 0 <= i < ls.len() && (#[trigger] parse_history_line_spec(ls[i])).unwrap().0 == k {
                let i = choose|i: int| 0 <= i < ls.len() && (#[trigger] parse_history_line_spec(ls[i])).unwrap().0 == k;
                if i < last {
                    assert(front[i] == ls[i]);
                    assert(parse_history_line_spec(front[i]).unwrap().0 == k);
                }
            }
        }
        assert forall|i: int| 0 <= i < ls.len() implies h[(#[trigger] parse_history_line_spec(
            ls[i],
        )).unwrap().0] == parse_history_line_spec(ls[i]).unwrap().1 by {
            if i < last {
                assert(front[i] == ls[i]);
                assert(parse_history_line_spec(front[i]).unwrap().0 != kv.0);
            }
        }
    }
}

/// Law: the text that `History::to_text` writes for a history reads back, through
/// `History::from_text`, as the same history, for histories whose keys are non-empty
/// and hold no tab or newline and whose keys each hold at least one timestamp.
pub proof fn lemma_history_text_round_trip(m: Map<Seq<char>, Seq<u64>>, ls: Seq<Seq<char>>)
    requires
        is_history_listing(m, ls),
        forall|k: Seq<char>| #[trigger] m.contains_key(k) ==> storable_key(k) && m[k].len() > 0,
    ensures
        history_of_text(join(ls, seq!['\n'])) == m,
{
    let p = |c: char| c != '\t' && c != '\n' && c != '\r';
    assert forall|i: int| 0 <= i < ls.len() implies lacks(#[trigger] ls[i], '\n') && ls[i].len()
        > 0 && ls[i].last() != '\r' && parse_history_line_spec(ls[i]) == Some(
        (
            choose|k: Seq<char>| #[trigger] m.contains_key(k) && ls[i] == history_line(k, m[k]),
            m[choose|k: Seq<char>| #[trigger] m.contains_key(k) && ls[i] == history_line(k, m[k])],
        ),
    ) by {
        assert(is_line_of(m, ls[i]));
        let k = choose|k: Seq<char>| #[trigger] m.contains_key(k) && ls[i] == history_line(k, m[k]);
        let tt = timestamps_text(m[k]);
        lemma_timestamps_text_no_tab(m[k]);
        lemma_history_line_read_back(k, m[k]);
        let l = ls[i];
        assert(l == k + seq!['\t'] + tt);
        assert forall|j: int| 0 <= j < l.len() implies #[trigger] l[j] != '\n' by {
            if j < k.len() {
                assert(l[j] == k[j]);
            } else if j > k.len() {
                assert(l[j] == tt[j - k.len() - 1]);
                assert(p(tt[j - k.len() - 1]));
            }
        }
        let ds = m[k].map_values(|t: u64| decimal(t as nat));
        lemma_decimal_digits(m[k].last() as nat);
        assert(ds.last() == decimal(m[k].last() as nat));
        lemma_join_last(ds, seq![',']);
        assert(is_digit(ds.last().last()));
        assert(l.last() == tt.last());
    }
    let text = join(ls, seq!['\n']);
    lemma_lines_of_join(ls);
    assert forall|i: int| 0 <= i < ls.len() implies (#[trigger] parse_history_line_spec(ls[i])) is Some by {
    }
    assert forall|i: int, j: int|
        0 <= i < ls.len() && 0 <= j < ls.len() && i != j implies (#[trigger] parse_history_line_spec(
            ls[i],
        )).unwrap().0 != (#[trigger] parse_history_line_spec(ls[j])).unwrap().0 by {
        let ki = parse_history_line_spec(ls[i]).unwrap().0;
        let kj = parse_history_line_spec(ls[j]).unwrap().0;
        if ki == kj {
            assert(ls[i] == history_line(ki, m[ki]));
            assert(ls[j] == history_line(kj, m[kj]));
            lemma_lex_lt_irreflexive(ls[i]);
            if i < j {
                assert(crate::text::lex_lt(ls[i], ls[j]));
            } else {
                assert(crate::text::lex_lt(ls[j], ls[i]));
            }
        }
    }
    lemma_history_of_parsed_lines(ls);
    let h = history_of_lines(ls);
    assert forall|k: Seq<char>| h.contains_key(k) <==> m.contains_key(k) by {
        if m.contains_key(k) {
            assert(ls.contains(history_line(k, m[k])));
            let i = choose|i: int| 0 <= i < ls.len() && ls[i] == history_line(k, m[k]);
            lemma_history_line_read_back(k, m[k]);
            assert(parse_history_line_spec(ls[i]).unwrap().0 == k);
        }
        if h.contains_key(k) {
            let i = choose|i: int| 0 <= i < ls.len() && (#[trigger] parse_history_line_spec(ls[i])).unwrap().0 == k;
            assert(is_line_of(m, ls[i]));
        }
    }
    assert forall|k: Seq<char>| h.contains_key(k) implies h[k] == m[k] by {
        let i = choose|i: int| 0 <= i < ls.len() && (#[trigger] parse_history_line_spec(ls[i])).unwrap().0 == k;
        assert(is_line_of(m, ls[i]));
    }
    assert(h =~= m);
}

/// Law: the stored text of a history is determined: a history has one listing only,
/// so `History::to_text` gives one text for it.
pub proof fn lemma_history_listing_unique(
    m: Map<Seq<char>, Seq<u64>>,
    a: Seq<Seq<char>>,
    b: Seq<Seq<char>>,
)
    requires
        is_history_listing(m, a),
        is_history_listing(m, b),
    ensures
        a == b,
{
    assert forall|x: Seq<char>| a.contains(x) <==> b.contains(x) by {
        if a.contains(x) {
            let i = choose|i: int| 0 <= i < a.len() && a[i] == x;
            assert(is_line_of(m, a[i]));
        }
        if b.contains(x) {
            let i = choose|i: int| 0 <= i < b.len() && b[i] == x;
            assert(is_line_of(m, b[i]));
        }
    }
    lemma_strictly_sorted_unique(a, b);
}

/// Law: after an access is recorded, a key holds at most 128 timestamps, the last of
/// them the time of that access, and the others are the most recent of those it
/// held before, in the same order.
pub proof fn lemma_recorded_bounded(q: Seq<u64>, now: u64)
    ensures
        recorded(q, now).len() <= MAX_TIMESTAMPS_PER_ENTRY,
        recorded(q, now).last() == now,
        exists|k: int| 0 <= k <= q.len() && #[trigger] q.skip(k) == recorded(q, now).drop_last(),
{
    lemma_pruned_suffix(q, history_cutoff(now));
    let k = choose|k: int| 0 <= k <= q.len() && #[trigger] q.skip(k) == pruned(q, history_cutoff(now));
    assert(recorded(q, now).drop_last() =~= pruned(q, history_cutoff(now)));
    assert(q.skip(k) == recorded(q, now).drop_last());
}

/// Law: recording an access at `now` keeps every access made in the thirty days
/// (2 592 000 seconds) before `now` while fewer than 128 are held: the key's
/// accesses become the old ones followed by `now`. Accesses all older than that are
/// all dropped.
pub proof fn lemma_record_keeps_thirty_days(q: Seq<u64>, now: u64)
    ensures
        (q.len() < 128 && forall|i: int| 0 <= i < q.len() ==> q[i] as int >= now as int - 2592000)
            ==> recorded(q, now) == q.push(now),
        (forall|i: int| 0 <= i < q.len() ==> (q[i] as int) < now as int - 2592000) ==> recorded(q, now)
            == seq![now],
    decreases q.len(),
{
    let cutoff = history_cutoff(now);
    assert(cutoff as int == if now as int >= 2592000 { now as int - 2592000 } else { 0 });
    if q.len() < 128 && forall|i: int| 0 <= i < q.len() ==> q[i] as int >= now as int - 2592000 {
        if q.len() > 0 {
            assert(q[0] as int >= now as int - 2592000);
        }
        assert(pruned(q, cutoff) == q);
    }
    if forall|i: int| 0 <= i < q.len() ==> (q[i] as int) < now as int - 2592000 {
        lemma_pruned_all_old(q, cutoff, now);
        assert(recorded(q, now) =~= seq![now]);
    }
}

proof fn lemma_pruned_all_old(q: Seq<u64>, cutoff: u64, now: u64)
    requires
        cutoff == history_cutoff(now),
        forall|i: int| 0 <= i < q.len() ==> (q[i] as int) < now as int - 2592000,
    ensures
        pruned(q, cutoff) == Seq::<u64>::empty(),
    decreases q.len(),
{
    if q.len() > 0 {
        assert((q[0] as int) < now as int - 2592000);
        assert forall|i: int| 0 <= i < q.drop_first().len() implies (q.drop_first()[i] as int) < now as int
            - 2592000 by {
            assert(q.drop_first()[i] == q[i + 1]);
        }
        lemma_pruned_all_old(q.drop_first(), cutoff, now);
    }
}

/// Law: the accesses that score a key at `now` are, when all of them lie within the
/// thirty days (2 592 000 seconds) before `now`, every one of them, newest first, as
/// ages `now - t`; when the newest is older than that, none.
pub proof fn lemma_recent_ages_thirty_days(q: Seq<u64>, now: u64)
    ensures
        (forall|i: int| 0 <= i < q.len() ==> now as int - 2592000 <= #[trigger] q[i] as int <= now as int)
            ==> {
            &&& recent_ages(q, now).len() == q.len()
            &&& forall|i: int| 0 <= i < q.len() ==> #[trigger] recent_ages(q, now)[i] as int == now as int
                - q[q.len() - 1 - i] as int
        },
        (q.len() > 0 && (q.last() as int) < now as int - 2592000) ==> recent_ages(q, now).len() == 0,
    decreases q.len(),
{
    let cutoff = history_cutoff(now);
    assert(cutoff as int == if now as int >= 2592000 { now as int - 2592000 } else { 0 });
    if q.len() > 0 {
        let front = q.drop_last();
        lemma_recent_ages_thirty_days(front, now);
        if forall|i: int| 0 <= i < q.len() ==> now as int - 2592000 <= #[trigger] q[i] as int <= now as int {
            assert(now as int - 2592000 <= q[q.len() - 1] as int <= now as int);
            assert forall|i: int| 0 <= i < front.len() implies now as int - 2592000 <= #[trigger] front[i] as int
                <= now as int by {
                assert(front[i] == q[i]);
            }
            let r = recent_ages(q, now);
            assert(r == seq![sat_sub(now, q.last())] + recent_ages(front, now));
            assert forall|i: int| 0 <= i < q.len() implies #[trigger] r[i] as int == now as int - q[q.len() - 1
                - i] as int by {
                if i > 0 {
                    assert(r[i] == recent_ages(front, now)[i - 1]);
                    assert(front[front.len() - 1 - (i - 1)] == q[q.len() - 1 - i]);
                }
            }
        }
    }
}

proof fn lemma_pruned_suffix(q: Seq<u64>, cutoff: u64)
    ensures
        pruned(q, cutoff).len() < MAX_TIMESTAMPS_PER_ENTRY,
        exists|k: int| 0 <= k <= q.len() && #[trigger] q.skip(k) == pruned(q, cutoff),
    decreases q.len(),
{
    if q.len() > 0 && (q[0] < cutoff || q.len() >= MAX_TIMESTAMPS_PER_ENTRY) {
        lemma_pruned_suffix(q.drop_first(), cutoff);
        let k = choose|k: int| 0 <= k <= q.drop_first().len() && #[trigger] q.drop_first().skip(k) == pruned(q.drop_first(), cutoff);
        assert(q.skip(k + 1) =~= q.drop_first().skip(k));
    } else {
        assert(q.skip(0) =~= q);
    }
}

} // verus!
