use mac_app_remover::{
    application_roots, find_app, get_bundle_id, get_home, get_installed_app_infos,
    get_installed_apps, info_plist_path, search_apps, sort_by_stem, AppInfo, BundleScan,
    DirListing, FsNode, MetadataRead,
};

fn strings(items: &[&str]) -> Vec<String> {
    items.iter().map(|s| s.to_string()).collect()
}

fn listing(dir: &str, entries: &[&str]) -> DirListing {
    DirListing { dir: dir.to_string(), entries: strings(entries) }
}

fn two_roots(system: &[&str], user: &[&str]) -> Vec<DirListing> {
    vec![listing("/Applications", system), listing("/Users/ana/Applications", user)]
}

#[test]
fn home_is_what_the_environment_gives() {
    assert_eq!(get_home(Some("/Users/ana".to_string())), "/Users/ana");
}

#[test]
fn home_falls_back_to_a_placeholder() {
    assert_eq!(get_home(None), "/Users/unknown");
}

#[test]
fn application_roots_are_the_system_one_and_the_users_own() {
    assert_eq!(
        application_roots("/Users/ana"),
        strings(&["/Applications", "/Users/ana/Applications"])
    );
}

#[test]
fn installed_apps_are_the_bundles_only() {
    let roots = two_roots(&["Safari.app", "notes.txt", ".app", "Mail.App", "Xcode.app"], &[]);
    assert_eq!(
        get_installed_apps(&roots),
        strings(&["/Applications/Safari.app", "/Applications/Xcode.app"])
    );
}

#[test]
fn installed_apps_are_sorted_without_regard_to_case() {
    let roots = two_roots(&["zoom.app", "Safari.app", "calendar.app"], &["Xcode.app", "atom.app"]);
    assert_eq!(
        get_installed_apps(&roots),
        strings(&[
            "/Users/ana/Applications/atom.app",
            "/Applications/calendar.app",
            "/Applications/Safari.app",
            "/Users/ana/Applications/Xcode.app",
            "/Applications/zoom.app",
        ])
    );
}

#[test]
fn installed_apps_with_the_same_stem_stay_in_listing_order() {
    let roots = two_roots(&["foo.app", "Bar.app", "FOO.app"], &["Foo.app", "bar.app"]);
    assert_eq!(
        get_installed_apps(&roots),
        strings(&[
            "/Applications/Bar.app",
            "/Users/ana/Applications/bar.app",
            "/Applications/foo.app",
            "/Applications/FOO.app",
            "/Users/ana/Applications/Foo.app",
        ])
    );
}

#[test]
fn installed_apps_hold_each_bundle_once() {
    let roots = two_roots(&["B.app", "A.app", "C.app"], &["D.app"]);
    let apps = get_installed_apps(&roots);
    assert_eq!(apps.len(), 4);
    for (i, a) in apps.iter().enumerate() {
        for b in &apps[i + 1..] {
            assert_ne!(a, b);
        }
    }
}

#[test]
fn installed_apps_of_missing_directories_are_none() {
    assert_eq!(get_installed_apps(&two_roots(&[], &[])), Vec::<String>::new());
    assert_eq!(get_installed_apps(&Vec::new()), Vec::<String>::new());
}

#[test]
fn a_shorter_stem_comes_before_a_longer_one() {
    let sorted = sort_by_stem(&strings(&["/a/Notes 2.app", "/a/Notes.app", "/a/Note.app"]));
    assert_eq!(sorted, strings(&["/a/Note.app", "/a/Notes.app", "/a/Notes 2.app"]));
}

#[test]
fn find_app_takes_the_exact_name_first() {
    let roots = two_roots(&["chrome.app", "Chrome.app"], &[]);
    assert_eq!(find_app("Chrome", &roots), Some("/Applications/Chrome.app".to_string()));
    assert_eq!(find_app("chrome", &roots), Some("/Applications/chrome.app".to_string()));
}

#[test]
fn find_app_accepts_the_name_with_its_suffix() {
    let roots = two_roots(&["Safari.app"], &[]);
    assert_eq!(find_app("Safari.app", &roots), Some("/Applications/Safari.app".to_string()));
    assert_eq!(find_app("Safari", &roots), Some("/Applications/Safari.app".to_string()));
}

#[test]
fn find_app_prefers_the_system_directory() {
    let roots = two_roots(&["Foo.app"], &["Foo.app"]);
    assert_eq!(find_app("Foo", &roots), Some("/Applications/Foo.app".to_string()));
}

#[test]
fn find_app_prefers_an_exact_name_in_the_second_directory_to_a_folded_one_in_the_first() {
    let roots = two_roots(&["FOO.app"], &["Foo.app"]);
    assert_eq!(find_app("Foo", &roots), Some("/Users/ana/Applications/Foo.app".to_string()));
}

#[test]
fn find_app_ignores_case_where_no_name_is_exact() {
    let roots = two_roots(&["Safari.app"], &["Google Chrome.app"]);
    assert_eq!(
        find_app("google chrome", &roots),
        Some("/Users/ana/Applications/Google Chrome.app".to_string())
    );
    assert_eq!(find_app("SAFARI", &roots), Some("/Applications/Safari.app".to_string()));
}

#[test]
fn find_app_gives_the_same_path_however_the_name_is_written() {
    let roots = two_roots(&["Mail.app", "Chrome.app"], &["Notes.app"]);
    let capital = find_app("Chrome", &roots);
    let small = find_app("chrome", &roots);
    assert_eq!(capital, Some("/Applications/Chrome.app".to_string()));
    assert_eq!(small, capital);
}

#[test]
fn find_app_takes_the_first_of_several_folded_matches() {
    let roots = two_roots(&["aPP.app", "App.app"], &["APP.app"]);
    assert_eq!(find_app("app", &roots), Some("/Applications/aPP.app".to_string()));
}

#[test]
fn find_app_folds_letters_beyond_ascii() {
    let roots = two_roots(&["ÉDITEUR.app"], &[]);
    assert_eq!(find_app("éditeur", &roots), Some("/Applications/ÉDITEUR.app".to_string()));
}

#[test]
fn find_app_finds_nothing_where_nothing_matches() {
    let roots = two_roots(&["Safari.app"], &["Notes.app"]);
    assert_eq!(find_app("Chrome", &roots), None);
    assert_eq!(find_app("Safar", &roots), None);
    assert_eq!(find_app("", &roots), None);
}

#[test]
fn find_app_adds_the_suffix_unless_it_is_there_exactly() {
    let roots = two_roots(&["Foo.APP.app", "Bar.app"], &[]);
    assert_eq!(find_app("Foo.APP", &roots), Some("/Applications/Foo.APP.app".to_string()));
    assert_eq!(find_app("Bar.APP", &roots), None);
}

#[test]
fn search_finds_names_that_hold_the_query_in_any_case() {
    let names = strings(&["Google Chrome", "Safari", "Chromium", "Mail"]);
    assert_eq!(search_apps(&names, "chrom"), vec![0, 2]);
    assert_eq!(search_apps(&names, "MAIL"), vec![3]);
    assert_eq!(search_apps(&names, "a"), vec![1, 3]);
}

#[test]
fn search_with_an_empty_query_finds_all() {
    let names = strings(&["B", "a", "C"]);
    assert_eq!(search_apps(&names, ""), vec![0, 1, 2]);
}

#[test]
fn search_finds_nothing_where_no_name_holds_the_query() {
    let names = strings(&["Safari", "Mail"]);
    assert_eq!(search_apps(&names, "chrome"), Vec::<usize>::new());
    assert_eq!(search_apps(&Vec::new(), "x"), Vec::<usize>::new());
}

#[test]
fn bundle_id_is_what_the_reader_printed_without_white_space() {
    let read = MetadataRead::Output("com.example.foo\n".to_string());
    assert_eq!(get_bundle_id(&read), Some("com.example.foo".to_string()));
    let padded = MetadataRead::Output("  com.example.bar \r\n".to_string());
    assert_eq!(get_bundle_id(&padded), Some("com.example.bar".to_string()));
}

#[test]
fn bundle_id_of_empty_output_is_the_empty_text() {
    assert_eq!(get_bundle_id(&MetadataRead::Output("\n".to_string())), Some(String::new()));
}

#[test]
fn bundle_id_is_absent_without_a_metadata_file() {
    assert_eq!(get_bundle_id(&MetadataRead::Missing), None);
}

#[test]
fn bundle_id_is_absent_where_the_read_failed() {
    assert_eq!(get_bundle_id(&MetadataRead::Failed), None);
}

#[test]
fn metadata_file_lies_inside_the_bundle() {
    assert_eq!(info_plist_path("/Applications/Foo.app"), "/Applications/Foo.app/Contents/Info.plist");
}

#[test]
fn app_infos_say_what_the_scans_found() {
    let scans = vec![
        BundleScan {
            path: "/Applications/Foo.app".to_string(),
            tree: FsNode::Dir { children: vec![FsNode::File { size: 20 }, FsNode::File { size: 30 }] },
            metadata: MetadataRead::Output("com.example.foo\n".to_string()),
        },
        BundleScan {
            path: "/Users/ana/Applications/Bar Baz.app".to_string(),
            tree: FsNode::Unreadable,
            metadata: MetadataRead::Missing,
        },
    ];
    let infos = get_installed_app_infos(&scans);
    assert_eq!(
        infos,
        vec![
            AppInfo {
                name: "Foo".to_string(),
                path: "/Applications/Foo.app".to_string(),
                size: 50,
                bundle_id: Some("com.example.foo".to_string()),
            },
            AppInfo {
                name: "Bar Baz".to_string(),
                path: "/Users/ana/Applications/Bar Baz.app".to_string(),
                size: 0,
                bundle_id: None,
            },
        ]
    );
}

#[test]
fn app_infos_of_no_scans_are_none() {
    assert_eq!(get_installed_app_infos(&Vec::new()), Vec::<AppInfo>::new());
}
