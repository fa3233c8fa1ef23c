use allmux::model::{DockerContainer, Entry, SshHost, TmuxSession};
use allmux::search::{combine_score, filtered_matches, match_entry, match_from_results, sort_matches, SearchMatch};
use fuzzy_matcher::skim::SkimMatcherV2;
use fuzzy_matcher::FuzzyMatcher;

fn ssh(alias: &str, active: bool) -> Entry {
    Entry::Ssh(SshHost {
        alias: alias.to_string(),
        hostname: format!("{alias}.example"),
        user: String::new(),
        description: None,
        is_active_tmux: active,
    })
}

fn docker(name: &str) -> Entry {
    Entry::Docker(DockerContainer {
        id: "1".to_string(),
        name: name.to_string(),
        image: "img".to_string(),
        command: String::new(),
        created_at: String::new(),
        status_text: String::new(),
        ports: String::new(),
        status: false,
        is_active_tmux: false,
    })
}

fn tmux(name: &str, active: bool) -> Entry {
    Entry::Tmux(TmuxSession {
        full_path: None,
        session_name: name.to_string(),
        is_active: active,
        preview: None,
    })
}

fn order(matches: &[SearchMatch]) -> Vec<usize> {
    matches.iter().map(|m| m.index).collect()
}

#[test]
fn combined_score_formula() {
    assert_eq!(combine_score(100, 0), 100);
    assert_eq!(combine_score(100, 5), 105);
    assert_eq!(combine_score(7, 3), 7); // 21 / 100 rounds to zero
    assert_eq!(combine_score(-150, 1), -151); // -150 / 100 rounds towards zero
    assert_eq!(combine_score(-150, -1), -149);
    assert_eq!(combine_score(1 << 31, i64::MAX), (1i64 << 31) + i64::MAX / 100);
}

#[test]
fn empty_query_lists_every_entry_by_history_then_activity_then_kind() {
    let entries = vec![docker("d"), ssh("s", false), tmux("t", false), ssh("a", true), tmux("u", false)];
    let scores = vec![0, 0, 0, 0, 5];
    let matches = filtered_matches(&entries, "", &scores);
    assert_eq!(order(&matches), vec![4, 3, 2, 1, 0]);
    assert_eq!(matches[0].score, 5);
    assert!(matches.iter().all(|m| m.indices.is_empty()));
}

#[test]
fn equal_keys_keep_entry_order() {
    let entries = vec![ssh("x", false), ssh("y", false), ssh("z", false)];
    let matches = filtered_matches(&entries, "", &vec![0, 0, 0]);
    assert_eq!(order(&matches), vec![0, 1, 2]);
}

#[test]
fn query_matches_through_the_fuzzy_matcher() {
    let entries = vec![ssh("web", false), docker("postgres"), tmux("website", false)];
    let scores = vec![0, 0, 10];
    let matches = filtered_matches(&entries, "web", &scores);
    let matcher = SkimMatcherV2::default();
    let mut expected: Vec<(usize, i64)> = Vec::new();
    for (i, e) in entries.iter().enumerate() {
        if let Some((s, _)) = matcher.fuzzy_indices(&e.search_text(), "web") {
            expected.push((i, s + s.saturating_mul(scores[i]) / 100));
        }
    }
    assert!(!expected.is_empty());
    assert_eq!(matches.len(), expected.len());
    for m in &matches {
        assert!(expected.contains(&(m.index, m.score)));
    }
    for w in matches.windows(2) {
        assert!(w[0].score >= w[1].score);
    }
    assert!(!order(&matches).contains(&1));
}

#[test]
fn match_entry_highlights_in_the_displayed_text() {
    let entry = ssh("web", false);
    let m = match_entry(0, &entry, "web", 0).unwrap();
    let matcher = SkimMatcherV2::default();
    let (score, _) = matcher.fuzzy_indices(&entry.search_text(), "web").unwrap();
    let (_, shown) = matcher.fuzzy_indices(&entry.display_search_text(), "web").unwrap();
    assert_eq!(m.score, score);
    assert_eq!(m.indices, shown);
    assert!(match_entry(0, &entry, "zzz", 0).is_none());
}

#[test]
fn match_from_results_cases() {
    assert!(match_from_results(3, 0, None, Some((1, vec![0]))).is_none());
    let m = match_from_results(3, 50, Some((10, vec![4, 5])), None).unwrap();
    assert_eq!((m.index, m.score, m.indices), (3, 15, vec![4, 5]));
    let m = match_from_results(3, 0, Some((10, vec![4, 5])), Some((2, vec![0]))).unwrap();
    assert_eq!(m.indices, vec![0]);
}

#[test]
fn sort_matches_orders_by_score_then_activity_then_rank_then_index() {
    let entries = vec![ssh("a", false), tmux("b", false), ssh("c", true), docker("d")];
    let matches = vec![
        SearchMatch { index: 0, score: 1, indices: vec![] },
        SearchMatch { index: 1, score: 1, indices: vec![] },
        SearchMatch { index: 2, score: 1, indices: vec![] },
        SearchMatch { index: 3, score: 9, indices: vec![] },
    ];
    assert_eq!(order(&sort_matches(&entries, matches)), vec![3, 2, 1, 0]);
}
