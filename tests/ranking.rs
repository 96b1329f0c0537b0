use hyperfind::catalog::{build_catalog, usage_key, usage_label_text};
use hyperfind::ranking::{query_is_idle, rank, score_apps, score_folded, score_match, AppEntry, Ranked};
use hyperfind::similarity::similarity_score;
use hyperfind::text::{contains_chars, text_lt};
use hyperfind::usage::{UsageEntry, UsageMap};

fn entry(key: &str, name: &str, slot: usize) -> AppEntry {
    AppEntry { key: key.to_string(), name: name.to_string(), slot }
}

fn catalog(names: &[&str]) -> Vec<AppEntry> {
    names.iter().enumerate().map(|(i, n)| entry(&format!("{}.desktop", n.to_lowercase()), n, i)).collect()
}

fn usage_of(records: &[(&str, u64, u64)]) -> UsageMap {
    let mut u = UsageMap::new();
    for (k, c, t) in records {
        u.insert(k.to_string(), UsageEntry { count: *c, last_used: *t });
    }
    u
}

fn names_of(apps: &[AppEntry], ranked: &[Ranked]) -> Vec<String> {
    ranked.iter().map(|r| apps[r.index].name.clone()).collect()
}

#[test]
fn fire_ranks_firefox_first_and_drops_gimp() {
    let apps = catalog(&["Firefox", "GIMP", "Files"]);
    let ranked = rank(&apps, "fire", &UsageMap::new());
    let names = names_of(&apps, &ranked);
    assert_eq!(names[0], "Firefox");
    assert_eq!(ranked[0].score, 997);
    assert!(!names.contains(&"GIMP".to_string()));
    let files_similar = strsim::jaro_winkler("files", "fire") >= 0.75;
    assert_eq!(names.contains(&"Files".to_string()), files_similar);
}

#[test]
fn substring_score_is_penalised_by_extra_length() {
    assert_eq!(score_match("Firefox", "fire"), Some(997));
    assert_eq!(score_match("Fire", "fire"), Some(1000));
    assert_eq!(score_match("Files", "fi"), Some(997));
}

#[test]
fn matching_ignores_case_of_both_sides() {
    assert_eq!(score_match("FIREFOX", "fire"), Some(997));
    assert_eq!(score_match("firefox", "FIRE"), Some(997));
}

#[test]
fn query_is_trimmed_before_matching() {
    assert_eq!(score_match("Firefox", "  fire  "), Some(997));
    assert_eq!(score_match("Firefox", "   "), Some(0));
    assert!(query_is_idle(" \t "));
    assert!(query_is_idle(""));
    assert!(!query_is_idle(" a "));
    assert!(query_is_idle("\u{3000}\u{a0}\n"));
    assert_eq!(score_match("Firefox", "\u{3000}fire\u{a0}"), Some(997));
}

#[test]
fn dissimilar_name_is_excluded() {
    assert_eq!(score_match("GIMP", "fire"), None);
    assert_eq!(score_match("Terminal", "xyz"), None);
}

#[test]
fn similar_name_scores_a_thousand_times_its_similarity() {
    let sim = strsim::jaro_winkler("firefix", "firefox");
    assert!(sim >= 0.75);
    let expected = similarity_score(sim.to_bits());
    assert_eq!(score_match("Firefix", "firefox"), expected);
    let got = expected.unwrap();
    assert!(got >= 750 && got <= 1000);
    assert!((got as f64 - sim * 1000.0).abs() < 1.0);
}

#[test]
fn similarity_threshold_and_scaling() {
    assert_eq!(similarity_score(0.75f64.to_bits()), Some(750));
    assert_eq!(similarity_score(0.8f64.to_bits()), Some(800));
    assert_eq!(similarity_score(1.0f64.to_bits()), Some(1000));
    assert_eq!(similarity_score(0.9999f64.to_bits()), Some(999));
    assert_eq!(similarity_score(0.7499f64.to_bits()), None);
    assert_eq!(similarity_score(0.0f64.to_bits()), None);
}

#[test]
fn similarity_outside_unit_range_is_not_accepted() {
    assert_eq!(similarity_score((-0.9f64).to_bits()), None);
    assert_eq!(similarity_score(f64::NAN.to_bits()), None);
    assert_eq!(similarity_score(f64::INFINITY.to_bits()), None);
    assert_eq!(similarity_score(1.5f64.to_bits()), None);
}

#[test]
fn similarity_score_follows_float_product() {
    for s in [0.84f64, 0.815, 0.825, 0.845, 0.95, 0.97, 0.75, 0.7500001, 0.999999, 0.9, 0.8] {
        assert_eq!(similarity_score(s.to_bits()), Some((s * 1000.0) as i64 as i128), "{}", s);
    }
    assert_eq!(similarity_score(0x3FEA_E147_AE14_7AE1), Some(840));
    let mut bits: u64 = 0x3FE8_0000_0000_0000;
    while bits <= 0x3FF0_0000_0000_0000 {
        let s = f64::from_bits(bits);
        assert_eq!(similarity_score(bits), Some((s * 1000.0) as i64 as i128), "{}", s);
        bits += 0x0000_0123_4567_89AB;
    }
}

#[test]
fn short_name_against_long_query_scores_float_product() {
    let sim = strsim::jaro_winkler("aa", "aaaaa");
    assert_eq!(score_match("AA", "aaaaa"), Some((sim * 1000.0) as i64 as i128));
    assert_eq!(score_folded("aa", "aaaaa", sim.to_bits()), Some((sim * 1000.0) as i64 as i128));
}

#[test]
fn folded_score_uses_given_similarity_only_without_substring() {
    assert_eq!(score_folded("firefox", "fire", 0), Some(997));
    assert_eq!(score_folded("gimp", "fire", 0.8f64.to_bits()), Some(800));
    assert_eq!(score_folded("gimp", "fire", 0.5f64.to_bits()), None);
    assert_eq!(score_folded("héllo", "llo", 0), Some(997));
}

#[test]
fn usage_nudges_query_scores() {
    let apps = catalog(&["Firefox", "Firewall"]);
    let usage = usage_of(&[("firewall.desktop", 3, 100)]);
    let ranked = rank(&apps, "fire", &usage);
    assert_eq!(ranked.len(), 2);
    assert_eq!(names_of(&apps, &ranked), vec!["Firewall", "Firefox"]);
    assert_eq!(ranked[0].score, 996 + 30);
    assert_eq!(ranked[1].score, 997);
}

#[test]
fn ties_break_by_case_insensitive_name() {
    let apps = catalog(&["beta", "Alpha", "ALPHA"]);
    let ranked = rank(&apps, "zzzz", &UsageMap::new());
    assert!(ranked.is_empty());
    let apps = catalog(&["bxa", "Axa", "cxa"]);
    let ranked = rank(&apps, "xa", &UsageMap::new());
    assert_eq!(names_of(&apps, &ranked), vec!["Axa", "bxa", "cxa"]);
}

#[test]
fn equal_folded_names_keep_catalog_order() {
    let apps = vec![entry("b", "Term", 0), entry("a", "term", 1)];
    let ranked = rank(&apps, "term", &UsageMap::new());
    assert_eq!(ranked, vec![Ranked { score: 1000, index: 0 }, Ranked { score: 1000, index: 1 }]);
}

#[test]
fn query_mode_results_are_not_truncated() {
    let names: Vec<String> = (0..30).map(|i| format!("App{:02}", i)).collect();
    let refs: Vec<&str> = names.iter().map(|s| s.as_str()).collect();
    let apps = catalog(&refs);
    let ranked = rank(&apps, "app", &UsageMap::new());
    assert_eq!(ranked.len(), 30);
    assert_eq!(apps[ranked[0].index].name, "App00");
    assert_eq!(apps[ranked[29].index].name, "App29");
}

#[test]
fn ranking_is_deterministic() {
    let apps = catalog(&["Files", "Firefox", "Fire Alarm", "GIMP", "Terminal", "Firewall"]);
    let usage = usage_of(&[("gimp.desktop", 4, 10), ("files.desktop", 1, 20)]);
    for q in ["fire", "fi", "", "term", "gmp"] {
        let a = rank(&apps, q, &usage);
        let b = rank(&apps, q, &usage);
        assert_eq!(a, b);
    }
}

#[test]
fn every_ranked_entry_matches_and_every_other_does_not() {
    let apps = catalog(&["Files", "Firefox", "GIMP", "Terminal", "Fire Alarm", "Calculator"]);
    let ranked = rank(&apps, "fire", &UsageMap::new());
    for (i, app) in apps.iter().enumerate() {
        let name = app.name.to_lowercase();
        let admitted = name.contains("fire") || strsim::jaro_winkler(&name, "fire") >= 0.75;
        assert_eq!(ranked.iter().any(|r| r.index == i), admitted, "{}", app.name);
    }
}

#[test]
fn idle_scores_use_count_and_recency() {
    let apps = catalog(&["A", "B", "C"]);
    let usage = usage_of(&[("a.desktop", 2, 500), ("c.desktop", 2, 700)]);
    let scored = score_apps(&apps, "", &usage);
    assert_eq!(scored, vec![Ranked { score: 2500, index: 0 }, Ranked { score: 2700, index: 2 }]);
    let ranked = rank(&apps, "  ", &usage);
    assert_eq!(ranked, vec![Ranked { score: 2700, index: 2 }, Ranked { score: 2500, index: 0 }]);
}

#[test]
fn idle_scores_do_not_overflow_on_large_counts() {
    let apps = catalog(&["A"]);
    let usage = usage_of(&[("a.desktop", u64::MAX, u64::MAX)]);
    let ranked = rank(&apps, "", &usage);
    assert_eq!(ranked[0].score, u64::MAX as i128 * 1000 + u64::MAX as i128);
}

#[test]
fn score_apps_keeps_catalog_order() {
    let apps = catalog(&["Zed Fire", "Fire"]);
    let scored = score_apps(&apps, "fire", &UsageMap::new());
    assert_eq!(scored, vec![Ranked { score: 996, index: 0 }, Ranked { score: 1000, index: 1 }]);
}

#[test]
fn catalog_drops_blank_names_and_sorts_case_insensitively() {
    let found = vec![
        entry("z", "zeta", 0),
        entry("blank", "   ", 1),
        entry("a", "Alpha", 2),
        entry("empty", "", 3),
        entry("b", "beta", 4),
        entry("a2", "ALPHA", 5),
    ];
    let apps = build_catalog(&found);
    let names: Vec<&str> = apps.iter().map(|a| a.name.as_str()).collect();
    assert_eq!(names, vec!["Alpha", "ALPHA", "beta", "zeta"]);
    assert_eq!(apps[0].slot, 2);
    assert_eq!(apps[1].slot, 5);
    assert_eq!(apps[3].key, "z");
}

#[test]
fn identity_prefers_registry_id() {
    assert_eq!(usage_key(Some("org.app.desktop".to_string()), &"App".to_string()), "org.app.desktop");
    assert_eq!(usage_key(None, &"App".to_string()), "App");
}

#[test]
fn label_shows_counts_only_when_asked() {
    let app = entry("x", "Xterm", 0);
    let usage = usage_of(&[("x", 12, 5)]);
    assert_eq!(usage_label_text(&app, &usage, false), "Xterm");
    assert_eq!(usage_label_text(&app, &usage, true), "Xterm  (12 uses)");
    assert_eq!(usage_label_text(&app, &UsageMap::new(), true), "Xterm  (0 uses)");
}

#[test]
fn text_order_and_containment() {
    let a: Vec<char> = "abc".chars().collect();
    let b: Vec<char> = "abd".chars().collect();
    let ab: Vec<char> = "ab".chars().collect();
    assert!(text_lt(&a, &b));
    assert!(!text_lt(&b, &a));
    assert!(text_lt(&ab, &a));
    assert!(!text_lt(&a, &a));
    assert!(contains_chars(&a, &ab));
    assert!(!contains_chars(&ab, &a));
    assert!(contains_chars(&a, &Vec::new()));
    let bc: Vec<char> = "bc".chars().collect();
    assert!(contains_chars(&a, &bc));
    assert!(!contains_chars(&b, &bc));
}
