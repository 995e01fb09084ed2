use aur_guard::config::FeedConfig;
use aur_guard::feeds::{
    add_names, baseline_names, baseline_text, stored_baseline, baseline_needs_save, campaign_sources, cache_fresh, feed_alert,
    feed_kind, feed_verdict, finalize, index_url, lenucksi_base, malware_set, merge_downloads,
    new_malware, normalize, parse_list, plain_url, reasons_text, unknown_kind_message, valid_name,
    Campaign, Download, FeedEntry, FeedKind, FeedState,
};

fn s(v: &[&str]) -> Vec<String> {
    v.iter().map(|x| x.to_string()).collect()
}

fn state(entries: &[(&str, &[&str])]) -> FeedState {
    FeedState {
        updated_at: 0,
        packages: entries
            .iter()
            .map(|(n, c)| FeedEntry { name: n.to_string(), campaigns: s(c) })
            .collect(),
    }
}

#[test]
fn parse_list_skips_noise() {
    let text = "# comment\nalvr\n\n  foo-bin  extra words\n```\n`code`\n-bad\nok@1.2_3+4:5-6\nwith space\r\n";
    assert_eq!(parse_list(text), s(&["alvr", "foo-bin", "ok@1.2_3+4:5-6", "with"]));
}

#[test]
fn parse_list_empty_and_crlf() {
    assert_eq!(parse_list(""), Vec::<String>::new());
    assert_eq!(parse_list("a\r\nb\r\n"), s(&["a", "b"]));
    assert_eq!(parse_list("\u{a0}pkg\u{2003}tail\n"), s(&["pkg"]));
}

#[test]
fn valid_name_rules() {
    assert!(valid_name("alvr"));
    assert!(valid_name("lib32-foo_bar.2+x:y@z"));
    assert!(!valid_name(""));
    assert!(!valid_name("-foo"));
    assert!(!valid_name(".foo"));
    assert!(!valid_name("foo bar"));
    assert!(!valid_name("ñandu"));
    assert!(!valid_name("foo/bar"));
}

#[test]
fn normalize_strips_variant_suffixes() {
    assert_eq!(normalize("foo-git"), s(&["foo-git", "foo"]));
    assert_eq!(normalize("foo-bin"), s(&["foo-bin", "foo"]));
    assert_eq!(normalize("foo"), s(&["foo"]));
    assert_eq!(normalize("-git"), s(&["-git", ""]));
    assert_eq!(normalize("x-dev"), s(&["x-dev", "x"]));
}

#[test]
fn feed_verdict_matches_name_and_variants() {
    let st = state(&[("alvr", &["aur-infected"]), ("evil", &["chaos-rat", "x"])]);
    assert_eq!(feed_verdict(&st, "alvr"), (true, s(&["aur-infected"])));
    assert_eq!(feed_verdict(&st, "evil-git"), (true, s(&["chaos-rat", "x"])));
    assert_eq!(feed_verdict(&st, "good"), (false, vec![]));
    assert_eq!(feed_verdict(&st, "alv"), (false, vec![]));
}

#[test]
fn feed_verdict_prefers_exact_name() {
    let st = state(&[("foo", &["base"]), ("foo-git", &["vcs"])]);
    assert_eq!(feed_verdict(&st, "foo-git"), (true, s(&["vcs"])));
}

#[test]
fn malware_set_sorted_unique() {
    let st = state(&[("zeta", &[]), ("alpha", &[]), ("mid", &[]), ("alpha", &[])]);
    assert_eq!(malware_set(&st), s(&["alpha", "mid", "zeta"]));
}

#[test]
fn add_names_and_finalize() {
    let mut m: Vec<FeedEntry> = Vec::new();
    add_names(&mut m, &s(&["a", "b"]), "c2");
    add_names(&mut m, &s(&["b", "c", "b"]), "c1");
    assert_eq!(m.len(), 3);
    assert_eq!(m[0].name, "a");
    assert_eq!(m[0].campaigns, s(&["c2"]));
    assert_eq!(m[1].name, "b");
    assert_eq!(m[1].campaigns, s(&["c2", "c1", "c1"]));
    assert_eq!(m[2].name, "c");
    finalize(&mut m);
    assert_eq!(m[1].campaigns, s(&["c1", "c2"]));
    assert_eq!(m[0].campaigns, s(&["c2"]));
}

#[test]
fn cache_freshness() {
    assert!(cache_fresh(1000, 1500, 3600));
    assert!(!cache_fresh(1000, 4600, 3600));
    assert!(cache_fresh(1000, 4599, 3600));
    assert!(!cache_fresh(0, 10, 0));
    assert!(!cache_fresh(0, 1, u64::MAX));
}

fn feed(kind: &str, enabled: Option<bool>) -> FeedConfig {
    FeedConfig {
        name: "n".to_string(),
        kind: kind.to_string(),
        base_url: Some("https://example.com/base//".to_string()),
        url: None,
        enabled,
    }
}

#[test]
fn feed_kinds() {
    assert_eq!(feed_kind(&feed("lenucksi", None)), FeedKind::Lenucksi);
    assert_eq!(feed_kind(&feed("plain", Some(true))), FeedKind::Plain);
    assert_eq!(feed_kind(&feed("plain", Some(false))), FeedKind::Disabled);
    assert_eq!(feed_kind(&feed("other", None)), FeedKind::Unknown);
    assert_eq!(unknown_kind_message("other"), "tipo de feed desconocido: other");
}

#[test]
fn lenucksi_urls() {
    let f = feed("lenucksi", None);
    let base = lenucksi_base(&f);
    assert_eq!(base, "https://example.com/base");
    assert_eq!(index_url(&base), "https://example.com/base/data/campaigns.json");
    assert_eq!(plain_url(&f), "");
    let camps = vec![
        Campaign {
            id: "aur-infected".into(),
            type_: "aur".into(),
            lists: s(&["/lists/a.txt", "b.txt"]),
            refresh_url: Some("https://r/x".into()),
        },
        Campaign { id: "npm".into(), type_: "npm".into(), lists: s(&["z"]), refresh_url: None },
    ];
    let src = campaign_sources(&base, &camps);
    let got: Vec<(String, String)> = src.into_iter().map(|x| (x.url, x.campaign)).collect();
    assert_eq!(
        got,
        vec![
            ("https://example.com/base/lists/a.txt".to_string(), "aur-infected".to_string()),
            ("https://example.com/base/b.txt".to_string(), "aur-infected".to_string()),
            ("https://r/x".to_string(), "aur-infected".to_string()),
        ]
    );
}

#[test]
fn baseline_and_news() {
    assert_eq!(baseline_names(&s(&["b", "-x", "a", "b"])), s(&["a", "b"]));
    assert_eq!(new_malware(&s(&["a", "b", "c"]), &s(&["b"])), s(&["a", "c"]));
    let set = s(&["x", "y"]);
    assert_eq!(new_malware(&set, &set), Vec::<String>::new());
    assert!(baseline_needs_save(1, true));
    assert!(baseline_needs_save(0, false));
    assert!(!baseline_needs_save(0, true));
}

#[test]
fn alerts() {
    let a = feed_alert("foo", "c1, c2", true, true).unwrap();
    assert_eq!(a.title, "AUR: paquete marcado como malware — ¡INSTALADO EN TU SISTEMA!");
    assert_eq!(a.body, "foo [c1, c2]");
    let a = feed_alert("foo", "", true, false).unwrap();
    assert_eq!(a.title, "AUR: paquete marcado como malware");
    let a = feed_alert("foo", "c", false, true).unwrap();
    assert_eq!(a.title, "AUR: paquete instalado y marcado como malware");
    assert!(feed_alert("foo", "c", false, false).is_none());
    let st = state(&[("foo", &["c1", "c2"])]);
    assert_eq!(reasons_text(&st, "foo"), "c1, c2");
    assert_eq!(reasons_text(&st, "bar"), "");
}

#[test]
fn merged_downloads_flag_every_listed_name() {
    let d = |c: &str, t: &str| Download { campaign: c.to_string(), text: t.to_string() };
    let merged = merge_downloads(&vec![
        d("chaos-rat", "# list\nalvr\nfoo-bin extra words\n"),
        d("aur-infected", "alvr\n```\nbar\n"),
        d("chaos-rat", "alvr\n"),
    ]);
    let got: Vec<(String, Vec<String>)> =
        merged.iter().map(|e| (e.name.clone(), e.campaigns.clone())).collect();
    assert_eq!(
        got,
        vec![
            ("alvr".to_string(), s(&["aur-infected", "chaos-rat"])),
            ("foo-bin".to_string(), s(&["chaos-rat"])),
            ("bar".to_string(), s(&["aur-infected"])),
        ]
    );
    let st = FeedState { updated_at: 1, packages: merged };
    assert!(feed_verdict(&st, "foo-bin").0);
    assert!(feed_verdict(&st, "bar-git").0);
    assert!(!feed_verdict(&st, "list").0);
    assert!(merge_downloads(&vec![]).is_empty());
}

#[test]
fn malware_set_has_one_name_per_entry() {
    let st = state(&[("b", &["c"]), ("a", &["c"]), ("c-git", &["x"])]);
    let set = malware_set(&st);
    assert_eq!(set.len(), st.packages.len());
    assert_eq!(set, s(&["a", "b", "c-git"]));
}

#[test]
fn lists_joined_by_a_newline_parse_to_both() {
    let cases = [("alvr\nfoo", "bar\n"), ("alvr\r", "bar"), ("", "x"), ("a\n", "\nb"), ("# c", "")];
    for (a, b) in cases {
        let mut both = parse_list(a);
        both.extend(parse_list(b));
        assert_eq!(parse_list(&format!("{}\n{}", a, b)), both);
    }
}

#[test]
fn baseline_file_text() {
    assert_eq!(stored_baseline(Some("[\"a\",\"b-git\"]")), s(&["a", "b-git"]));
    assert_eq!(stored_baseline(Some("{\"a\":1}")), Vec::<String>::new());
    assert_eq!(stored_baseline(Some("not json")), Vec::<String>::new());
    assert_eq!(stored_baseline(None), Vec::<String>::new());
    let names = s(&["alvr", "qu\"ote", "ñ"]);
    let text = baseline_text(&names).unwrap();
    assert_eq!(text, "[\"alvr\",\"qu\\\"ote\",\"ñ\"]");
    assert_eq!(stored_baseline(Some(&text)), names);
    assert_eq!(baseline_text(&vec![]).unwrap(), "[]");
}
