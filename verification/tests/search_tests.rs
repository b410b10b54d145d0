use findit::cache::{ChangeKind, SearchSystem};
use findit::files::is_application_from;
use findit::engine::{search_files, ScoredResult, SCORE_FLOOR};
use findit::ignore::IgnorePolicy;
use findit::index::{IndexEntry, IndexStore};
use findit::lookup::{find, find_file, find_file_btree, find_paths_containing};
use findit::recent::find_recent_files;
use findit::text::parse_query;
use findit::SCORE_SCALE;

fn entry(path: &str, mtime: u64) -> IndexEntry {
    let name = path.rsplit('/').next().unwrap_or(path).to_string();
    IndexEntry { path: path.to_string(), name, modified_at: mtime, is_directory: false }
}

fn build_store(paths: &[&str]) -> IndexStore {
    let mut store = IndexStore::new();
    for (i, p) in paths.iter().enumerate() {
        store.upsert(&entry(p, 1000 + i as u64));
    }
    store
}

fn paths_of(results: &[ScoredResult]) -> Vec<String> {
    results.iter().map(|r| r.path.clone()).collect()
}

#[test]
fn rebuild_indexes_every_eligible_entry() {
    let policy = IgnorePolicy::defaults(false);
    let mut store = IndexStore::new();
    let entries = vec![
        entry("/home/user/notes.txt", 1),
        entry("/home/user/.hidden", 2),
        entry("/home/user/project/.git/config", 3),
        entry("/home/user/Music/song.mp3", 4),
    ];
    store.rebuild(&policy, &entries, 1000);
    // the two eligible files are found under their full lowercased names
    assert_eq!(
        store.lookup_by_token(&"notes.txt".to_string()),
        vec!["/home/user/notes.txt".to_string()]
    );
    assert_eq!(
        store.lookup_by_token(&"song.mp3".to_string()),
        vec!["/home/user/Music/song.mp3".to_string()]
    );
    assert_eq!(
        store.lookup_exact(&"notes.txt".to_string()),
        Some("/home/user/notes.txt".to_string())
    );
    // hidden and version-control entries never enter the index
    assert!(store.lookup_by_token(&".hidden".to_string()).is_empty());
    assert!(store.lookup_by_token(&"config".to_string()).is_empty());
}

#[test]
fn rebuild_within_freshness_window_is_a_noop() {
    let policy = IgnorePolicy::defaults(false);
    let mut store = IndexStore::new();
    store.rebuild(&policy, &vec![entry("/a/one.txt", 1)], 1000);
    // a second rebuild 100 time units later changes nothing
    store.rebuild(&policy, &vec![entry("/a/two.txt", 2)], 1100);
    assert!(store.lookup_exact(&"two.txt".to_string()).is_none());
    // after the staleness interval the rebuild goes through
    store.rebuild(&policy, &vec![entry("/a/two.txt", 2)], 1300);
    assert!(store.lookup_exact(&"two.txt".to_string()).is_some());
    assert!(store.lookup_exact(&"one.txt".to_string()).is_none());
}

#[test]
fn upsert_same_mtime_is_idempotent() {
    let mut store = build_store(&["/docs/alpha.txt", "/docs/beta.txt"]);
    let e = entry("/docs/alpha.txt", 1000);
    store.upsert(&e);
    let terms = parse_query("alpha");
    let before = search_files(&store, &terms);
    // same path, same modification time: no re-tokenization, same results
    store.upsert(&e);
    let after = search_files(&store, &terms);
    assert_eq!(paths_of(&before), paths_of(&after));
    assert_eq!(
        before.iter().map(|r| r.score).collect::<Vec<_>>(),
        after.iter().map(|r| r.score).collect::<Vec<_>>()
    );
    assert_eq!(before[0].path, "/docs/alpha.txt");
}

#[test]
fn upsert_new_mtime_updates_the_stored_time() {
    let mut store = IndexStore::new();
    store.upsert(&entry("/docs/alpha.txt", 1));
    store.upsert(&IndexEntry {
        path: "/docs/alpha.txt".to_string(),
        name: "alpha_renamed.txt".to_string(),
        modified_at: 2,
        is_directory: false,
    });
    // the new tokens replace the old ones
    assert!(store.lookup_by_token(&"alpha.txt".to_string()).is_empty());
    assert_eq!(
        store.lookup_by_token(&"alpha_renamed.txt".to_string()),
        vec!["/docs/alpha.txt".to_string()]
    );
}

#[test]
fn remove_clears_every_structure() {
    let mut store = build_store(&["/docs/alpha.txt", "/docs/beta.txt"]);
    store.remove(&"/docs/alpha.txt".to_string());
    assert!(store.lookup_by_token(&"alpha.txt".to_string()).is_empty());
    assert!(store.lookup_exact(&"alpha.txt".to_string()).is_none());
    // a search for the exact name no longer returns the path
    let results = search_files(&store, &parse_query("alpha.txt"));
    assert!(!paths_of(&results).contains(&"/docs/alpha.txt".to_string()));
    // the other entry is untouched
    assert_eq!(
        store.lookup_exact(&"beta.txt".to_string()),
        Some("/docs/beta.txt".to_string())
    );
}

#[test]
fn prefix_scan_returns_name_order() {
    let store = build_store(&["/d/beta.txt", "/d/alpha.txt", "/d/alpine.txt", "/d/gamma.md"]);
    let hits = store.lookup_prefix(&"alp".to_string());
    assert_eq!(hits, vec!["/d/alpha.txt".to_string(), "/d/alpine.txt".to_string()]);
    assert!(store.lookup_prefix(&"zz".to_string()).is_empty());
}

#[test]
fn regex_mode_matches_and_scores() {
    let store = build_store(&["/w/report.txt", "/w/report_final.txt", "/w/readme.md"]);
    let terms = parse_query("/report.*\\.txt/");
    let results = search_files(&store, &terms);
    let got = paths_of(&results);
    assert!(got.contains(&"/w/report.txt".to_string()));
    assert!(got.contains(&"/w/report_final.txt".to_string()));
    assert!(!got.contains(&"/w/readme.md".to_string()));
    for r in &results {
        assert!(r.score > 0);
        assert!(r.score <= SCORE_SCALE);
    }
}

#[test]
fn invalid_pattern_matches_nothing() {
    let store = build_store(&["/w/report.txt"]);
    let results = search_files(&store, &parse_query("/repo(rt/"));
    assert!(results.is_empty());
}

#[test]
fn fuzzy_mode_finds_misspelled_names() {
    let store = build_store(&["/home/user/Documents/Documents_plan.pdf", "/home/user/xyz123.tmp"]);
    let results = search_files(&store, &parse_query("Documants"));
    let got = paths_of(&results);
    assert!(got.contains(&"/home/user/Documents/Documents_plan.pdf".to_string()));
    let plan = results
        .iter()
        .position(|r| r.path == "/home/user/Documents/Documents_plan.pdf")
        .unwrap();
    assert!(results[plan].score >= SCORE_FLOOR);
    // the unrelated file either misses entirely or ranks strictly below
    match results.iter().position(|r| r.path == "/home/user/xyz123.tmp") {
        None => {}
        Some(other) => assert!(plan < other),
    }
}

#[test]
fn results_are_sorted_deduplicated_and_capped() {
    let mut names: Vec<String> = Vec::new();
    for i in 0..150 {
        names.push(format!("/big/report{:03}.txt", i));
    }
    let refs: Vec<&str> = names.iter().map(|s| s.as_str()).collect();
    let store = build_store(&refs);
    let results = search_files(&store, &parse_query("report"));
    assert_eq!(results.len(), 100);
    for w in results.windows(2) {
        assert!(w[0].score >= w[1].score);
    }
    for i in 0..results.len() {
        for j in (i + 1)..results.len() {
            assert_ne!(results[i].path, results[j].path);
        }
    }
    for r in &results {
        assert!(r.score >= SCORE_FLOOR);
    }
}

#[test]
fn empty_query_returns_nothing() {
    let store = build_store(&["/w/report.txt"]);
    let results = search_files(&store, &parse_query(""));
    assert!(results.is_empty());
}

#[test]
fn cache_serves_identical_results_without_rescoring() {
    let policy = IgnorePolicy::defaults(false);
    let mut system = SearchSystem::new(policy);
    let crawl = vec![entry("/c/alpha.txt", 1), entry("/c/beta.txt", 2)];
    let scope = "/c".to_string();
    let terms = parse_query("alpha");
    let first = system.get_or_compute(&scope, &terms, &crawl, 1000);
    assert_eq!(system.engine_runs, 1);
    // same scope and query, 30 time units later: bit-identical, no new run
    let second = system.get_or_compute(&scope, &terms, &crawl, 1030);
    assert_eq!(system.engine_runs, 1);
    assert_eq!(paths_of(&first), paths_of(&second));
    assert_eq!(
        first.iter().map(|r| r.score).collect::<Vec<_>>(),
        second.iter().map(|r| r.score).collect::<Vec<_>>()
    );
    // past the freshness window the engine runs again
    let third = system.get_or_compute(&scope, &terms, &crawl, 1100);
    assert_eq!(system.engine_runs, 2);
    assert_eq!(paths_of(&first), paths_of(&third));
}

#[test]
fn cache_keys_include_the_scope() {
    let policy = IgnorePolicy::defaults(false);
    let mut system = SearchSystem::new(policy);
    let crawl = vec![entry("/c/alpha.txt", 1)];
    let terms = parse_query("alpha");
    system.get_or_compute(&"/c".to_string(), &terms, &crawl, 1000);
    assert_eq!(system.engine_runs, 1);
    // a different scope misses the cache even within the window
    system.get_or_compute(&"/d".to_string(), &terms, &crawl, 1010);
    assert_eq!(system.engine_runs, 2);
}

#[test]
fn top_k_with_zero_keeps_nothing() {
    let entries = vec![(5u64, "/a".to_string()), (7u64, "/b".to_string())];
    assert!(find_recent_files(&entries, 0).is_empty());
}

#[test]
fn change_events_drive_the_index() {
    let policy = IgnorePolicy::defaults(false);
    let mut system = SearchSystem::new(policy);
    system.notify_change(&entry("/n/new.txt", 5), &ChangeKind::Created);
    assert_eq!(
        system.store.lookup_exact(&"new.txt".to_string()),
        Some("/n/new.txt".to_string())
    );
    system.notify_change(&entry("/n/new.txt", 9), &ChangeKind::Modified);
    system.notify_change(&entry("/n/new.txt", 9), &ChangeKind::Removed);
    assert!(system.store.lookup_exact(&"new.txt".to_string()).is_none());
}

#[test]
fn top_k_recency_keeps_the_newest_in_order() {
    let mut entries: Vec<(u64, String)> = Vec::new();
    for i in 0..120u64 {
        // shuffled discovery order: times are distinct
        let t = (i * 37) % 120;
        entries.push((t, format!("/r/f{:03}", t)));
    }
    let top = find_recent_files(&entries, 50);
    assert_eq!(top.len(), 50);
    for w in top.windows(2) {
        assert!(w[0].0 >= w[1].0);
    }
    // exactly the 50 largest timestamps 70..=119
    for (i, item) in top.iter().enumerate() {
        assert_eq!(item.0, 119 - i as u64);
    }
    // fewer entries than k: everything comes back
    let small = vec![(3u64, "/a".to_string()), (9u64, "/b".to_string())];
    let all = find_recent_files(&small, 50);
    assert_eq!(all.len(), 2);
    assert_eq!(all[0].0, 9);
}

#[test]
fn tiered_find_falls_back_in_order() {
    let rows = vec![
        ("notes.txt".to_string(), "/p/notes.txt".to_string()),
        ("notes.txt".to_string(), "/q/notes.txt".to_string()),
        ("readme.md".to_string(), "/p/readme.md".to_string()),
    ];
    // tier one: exact name match, every row with that name
    let exact = find(&rows, &"notes.txt".to_string());
    assert_eq!(exact, vec!["/p/notes.txt".to_string(), "/q/notes.txt".to_string()]);
    // tier two: regular-expression fallback
    let rx = find(&rows, &"read.*".to_string());
    assert_eq!(rx, vec!["/p/readme.md".to_string()]);
    // tier three: edit distance at most two
    let close = find(&rows, &"notes txt".to_string());
    assert_eq!(close, vec!["/p/notes.txt".to_string(), "/q/notes.txt".to_string()]);
    // an invalid pattern matches nothing and falls through to distance,
    // which still catches the one-edit-away name
    let bad = find(&rows, &"readme(md".to_string());
    assert_eq!(bad, vec!["/p/readme.md".to_string()]);
}

#[test]
fn btree_lookup_prefers_the_exact_key() {
    let tree = vec![
        ("plan.pdf".to_string(), "/d/plan.pdf".to_string()),
        ("plans.pdf".to_string(), "/d/plans.pdf".to_string()),
        ("other.doc".to_string(), "/d/other.doc".to_string()),
    ];
    let hit = find_file_btree(&"plan.pdf".to_string(), &tree);
    assert_eq!(hit, vec!["/d/plan.pdf".to_string()]);
    // no exact key: only names strictly above eighty percent similarity;
    // "plans.pdf" sits exactly at the boundary and stays out
    let close = find_file_btree(&"plan.pdf2".to_string(), &tree);
    assert_eq!(close, vec!["/d/plan.pdf".to_string()]);
}

#[test]
fn file_scan_honors_case_insensitive_exact_match() {
    let entries = vec![
        ("Plan.PDF".to_string(), "/d/Plan.PDF".to_string()),
        ("plan.pdf".to_string(), "/e/plan.pdf".to_string()),
    ];
    let hit = find_file(&entries, &"plan.pdf".to_string());
    // the first case-insensitive match wins and is returned alone
    assert_eq!(hit, vec!["/d/Plan.PDF".to_string()]);
}

#[test]
fn path_substring_search_ignores_case() {
    let tree = vec![
        ("notes.txt".to_string(), "/home/User/Docs/notes.txt".to_string()),
        ("song.mp3".to_string(), "/media/Music/song.mp3".to_string()),
    ];
    let hits = find_paths_containing(&"user/docs".to_string(), &tree);
    assert_eq!(hits, vec!["/home/User/Docs/notes.txt".to_string()]);
    assert!(find_paths_containing(&"video".to_string(), &tree).is_empty());
}

#[test]
fn application_decision_from_plain_values() {
    assert!(is_application_from(true, 0o755, None));
    assert!(is_application_from(true, 0o644, Some((0x7f, b'E', b'L', b'F'))));
    assert!(is_application_from(true, 0o644, Some((b'#', b'!', b'/', b'b'))));
    assert!(!is_application_from(true, 0o644, Some((b'h', b'i', b'!', b'!'))));
    assert!(!is_application_from(true, 0o644, None));
    assert!(!is_application_from(false, 0o755, None));
}

#[test]
fn eligibility_prunes_applications_and_bundles() {
    let policy = IgnorePolicy::defaults(false);
    assert!(policy.is_eligible("/home/user/notes.txt", "notes.txt"));
    assert!(!policy.is_eligible("/home/user/.config", ".config"));
    assert!(!policy.is_eligible("/Applications/Tool.app/bin", "bin"));
    assert!(!policy.is_eligible("/home/user/Tool.app", "Tool.app"));
    assert!(!policy.is_eligible("/home/user/project/.git/HEAD", "HEAD"));
    assert!(!policy.is_eligible("/home/user/GitHub/repo.txt", "repo.txt"));
    let show_hidden = IgnorePolicy::defaults(true);
    assert!(show_hidden.is_eligible("/home/user/.config", ".config"));
    // the vendor directories are denylisted, matched case-insensitively
    assert!(!policy.is_eligible("/home/user/JetBrains/settings.txt", "settings.txt"));
    assert!(!policy.is_eligible("/opt/Android Studio/bin/tool", "tool"));
    assert!(!policy.is_eligible("/home/user/Microsoft Office/doc.docx", "doc.docx"));
}
