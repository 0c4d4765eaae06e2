use buzz::appimage_env::{
    appdir_scoped_action, child_env_plan, KeyObservation, filter_appdir_entries, is_under_app_mount, is_under_or_equal,
    original_key, path_like_action, sibling_mount_pattern, value_references_appdir, EnvAction,
    APPDIR_SCOPED_KEYS, PATH_LIKE_KEYS,
};
use buzz::path::{parse_path, path_eq};

#[test]
fn filter_drops_appdir_entries_keeps_system() {
    let appdir = "/tmp/.mount_Buzz_abc/usr";
    let input = "/tmp/.mount_Buzz_abc/usr/lib:/usr/lib:/tmp/.mount_Buzz_abc/usr/bin:/bin";
    let cleaned = filter_appdir_entries(input, appdir);
    assert!(cleaned.contains("/usr/lib"), "{cleaned}");
    assert!(cleaned.contains("/bin"), "{cleaned}");
    assert!(
        !cleaned.contains(".mount_Buzz"),
        "appdir entries must be stripped: {cleaned}"
    );
    assert_eq!(cleaned, "/usr/lib:/bin");
}

#[test]
fn value_references_detects_appdir_substring() {
    let appdir = "/tmp/.mount_Buzz_x";
    assert!(value_references_appdir("/tmp/.mount_Buzz_x/usr/lib/python3", appdir));
    assert!(!value_references_appdir("/usr/lib/python3", appdir));
}

#[test]
fn pythonpath_is_filtered_per_entry_not_unset() {
    assert!(PATH_LIKE_KEYS.contains(&"PYTHONPATH"));
    assert!(!APPDIR_SCOPED_KEYS.contains(&"PYTHONPATH"));
    assert!(APPDIR_SCOPED_KEYS.contains(&"PYTHONHOME"));
}

#[test]
fn filter_drops_sibling_mount_entries() {
    let appdir = "/tmp/.mount_Buzz.AmOPMHe";
    let input = "/tmp/.mount_Buzz.AmOPMHe/usr/lib:/tmp/.mount_Buzz.AkBFKAC/usr/lib:/usr/lib/x86_64-linux-gnu";
    let cleaned = filter_appdir_entries(input, appdir);
    assert!(cleaned.contains("/usr/lib/x86_64-linux-gnu"), "{cleaned}");
    assert!(
        !cleaned.contains(".mount_Buzz."),
        "sibling mount entries must be stripped: {cleaned}"
    );
}

#[test]
fn filter_keeps_unrelated_entries_under_the_mount_root() {
    let appdir = "/tmp/.mount_Buzz.AmOPMHe";
    let input = "/tmp/my-own-libs:/tmp/.mount_OtherApp.QQQQQQ/usr/lib";
    let cleaned = filter_appdir_entries(input, appdir);
    assert!(cleaned.contains("/tmp/my-own-libs"), "{cleaned}");
    assert!(cleaned.contains(".mount_OtherApp."), "{cleaned}");
}

#[test]
fn sibling_mount_pattern_derives_root_and_prefix_from_appdir() {
    let appdir = parse_path("/tmp/.mount_Buzz.AmOPMHe");
    let (root, prefix) = sibling_mount_pattern(&appdir).expect("pattern");
    assert_eq!(root, parse_path("/tmp"));
    assert_eq!(prefix, ".mount_Buzz.");

    let elsewhere = parse_path("/run/user/1000/.mount_Buzz.ZZZZZZ");
    let (root, prefix) = sibling_mount_pattern(&elsewhere).expect("pattern");
    assert_eq!(root, parse_path("/run/user/1000"));
    assert_eq!(prefix, ".mount_Buzz.");
}

#[test]
fn sibling_mount_pattern_rejects_names_that_would_over_match() {
    assert!(sibling_mount_pattern(&parse_path("/tmp/appdir")).is_none());
    assert!(sibling_mount_pattern(&parse_path("/tmp/.mount_Buzz_x")).is_none());
}

#[test]
fn sibling_mount_pattern_needs_parent_and_name() {
    assert!(sibling_mount_pattern(&parse_path("/")).is_none());
    assert!(sibling_mount_pattern(&parse_path("")).is_none());
    assert!(sibling_mount_pattern(&parse_path("/tmp/x.y/..")).is_none());
    let (root, prefix) = sibling_mount_pattern(&parse_path("a.b")).expect("pattern");
    assert_eq!(root, parse_path(""));
    assert_eq!(prefix, "a.");
}

#[test]
fn paths_compare_by_components() {
    assert!(path_eq(&parse_path("//tmp/./x/"), &parse_path("/tmp/x")));
    assert!(!path_eq(&parse_path("./x"), &parse_path("x")));
    assert!(!path_eq(&parse_path("/tmp/x"), &parse_path("tmp/x")));
    assert!(path_eq(&parse_path("./"), &parse_path(".")));
}

#[test]
fn under_or_equal_follows_components() {
    assert!(is_under_or_equal(&parse_path("/tmp/a/b"), &parse_path("/tmp/a")));
    assert!(is_under_or_equal(&parse_path("/tmp/a/"), &parse_path("/tmp/a")));
    assert!(!is_under_or_equal(&parse_path("/tmp/ab"), &parse_path("/tmp/a")));
    assert!(!is_under_or_equal(&parse_path("/tmp"), &parse_path("/tmp/a")));
}

#[test]
fn app_mount_includes_siblings_only() {
    let appdir = parse_path("/tmp/.mount_Buzz.AmOPMHe");
    assert!(is_under_app_mount(&parse_path("/tmp/.mount_Buzz.AmOPMHe/usr"), &appdir));
    assert!(is_under_app_mount(&parse_path("/tmp/.mount_Buzz.Other"), &appdir));
    assert!(!is_under_app_mount(&parse_path("/tmp"), &appdir));
    assert!(!is_under_app_mount(&parse_path("/tmp/.mount_Buzz"), &appdir));
    assert!(!is_under_app_mount(&parse_path("/var/.mount_Buzz.A"), &appdir));
}

#[test]
fn filter_keeps_order_and_empty_entries() {
    let appdir = "/opt/app";
    assert_eq!(filter_appdir_entries("a::/opt/app/lib:b", appdir), "a::b");
    assert_eq!(filter_appdir_entries("", appdir), "");
    assert_eq!(filter_appdir_entries("/opt/app", appdir), "");
    let once = filter_appdir_entries("/opt/app/x:/usr/lib:/opt/app/y", appdir);
    assert_eq!(once, "/usr/lib");
    assert_eq!(filter_appdir_entries(&once, appdir), once);
}

#[test]
fn original_key_names_saved_value() {
    assert_eq!(original_key("PATH"), "ORIGINAL_PATH");
}

#[test]
fn path_like_action_prefers_saved_original() {
    let appdir = "/tmp/.mount_Buzz.A";
    assert_eq!(path_like_action(Some(true), Some("/tmp/.mount_Buzz.A/lib"), appdir, true), EnvAction::Remove);
    assert_eq!(path_like_action(Some(false), Some("/usr/lib"), appdir, true), EnvAction::Restore);
    assert_eq!(path_like_action(None, None, appdir, true), EnvAction::Keep);
    assert_eq!(path_like_action(None, Some("/tmp/.mount_Buzz.A/lib"), appdir, true), EnvAction::Remove);
    assert_eq!(
        path_like_action(None, Some("/tmp/.mount_Buzz.A/share/pyshared/:/home/u/py"), appdir, true),
        EnvAction::SetTo("/home/u/py".to_string())
    );
}

#[test]
fn appdir_scoped_action_removes_mount_references() {
    let appdir = "/tmp/.mount_Buzz.A";
    assert_eq!(appdir_scoped_action(Some(true), None, appdir, true), EnvAction::Remove);
    assert_eq!(appdir_scoped_action(Some(false), None, appdir, true), EnvAction::Restore);
    assert_eq!(appdir_scoped_action(None, None, appdir, true), EnvAction::Keep);
    assert_eq!(appdir_scoped_action(None, Some("/tmp/.mount_Buzz.A/usr"), appdir, true), EnvAction::Remove);
    assert_eq!(appdir_scoped_action(None, Some("/tmp/.mount_Buzz.B/usr"), appdir, true), EnvAction::Remove);
    assert_eq!(appdir_scoped_action(None, Some("/usr"), appdir, true), EnvAction::Keep);
}

fn observe(key: &str, saved_is_empty: Option<bool>, current: Option<&str>) -> KeyObservation {
    KeyObservation {
        key: key.to_string(),
        saved_is_empty,
        current: current.map(|c| c.to_string()),
    }
}

#[test]
fn no_mount_no_changes() {
    let observed = vec![observe("PYTHONHOME", None, Some("/tmp/.mount_Buzz.A/usr"))];
    assert!(child_env_plan(None, true, &observed).is_empty());
}

#[test]
fn plan_covers_exactly_the_watched_keys() {
    let appdir = "/tmp/.mount_Buzz.A";
    let observed = vec![
        observe("PATH", None, Some("/tmp/.mount_Buzz.A/usr/bin:/usr/bin")),
        observe("LD_LIBRARY_PATH", Some(false), Some("/tmp/.mount_Buzz.A/lib")),
        observe("PYTHONHOME", None, Some("/tmp/.mount_Buzz.A/usr")),
        observe("GTK_PATH", Some(true), None),
        observe("HOME", None, Some("/tmp/.mount_Buzz.A")),
    ];
    let plan = child_env_plan(Some(appdir), true, &observed);
    let keys: Vec<&str> = plan.iter().map(|(k, _)| *k).collect();
    assert_eq!(
        keys,
        vec![
            "LD_LIBRARY_PATH",
            "PATH",
            "PYTHONPATH",
            "PYTHONHOME",
            "PERLLIB",
            "GTK_PATH",
            "QT_PLUGIN_PATH",
            "GST_PLUGIN_SYSTEM_PATH",
            "GST_PLUGIN_SYSTEM_PATH_1_0"
        ]
    );
    assert_eq!(plan[0].1, EnvAction::Restore);
    assert_eq!(plan[1].1, EnvAction::SetTo("/usr/bin".to_string()));
    assert_eq!(plan[2].1, EnvAction::Keep);
    assert_eq!(plan[3].1, EnvAction::Remove);
    assert_eq!(plan[4].1, EnvAction::Keep);
    assert_eq!(plan[5].1, EnvAction::Remove);
}

#[test]
fn mount_path_that_is_not_unicode_matches_no_entry() {
    let lossy = "/tmp/.mount_Buzz.\u{FFFD}A";
    assert_eq!(
        path_like_action(None, Some("/tmp/.mount_Buzz.\u{FFFD}A/lib:/usr/lib"), lossy, false),
        EnvAction::SetTo("/tmp/.mount_Buzz.\u{FFFD}A/lib:/usr/lib".to_string())
    );
    assert_eq!(path_like_action(None, Some(""), lossy, false), EnvAction::Remove);
    assert_eq!(appdir_scoped_action(None, Some("/tmp/.mount_Buzz.B/usr"), lossy, false), EnvAction::Keep);
    assert_eq!(
        appdir_scoped_action(None, Some("/tmp/.mount_Buzz.\u{FFFD}A/usr"), lossy, false),
        EnvAction::Remove
    );
}
