//! The data that an application leaves behind: which entries of the
//! per-user library directories belong to it, by its name and by its
//! identifier.

use vstd::prelude::*;
use crate::listing::{
    all_kept_paths, is_kept, kept_paths, lemma_all_kept_paths_members, listing_views, DirListing,
    ListingView,
};
use crate::order::{lemma_strictly_increasing_unique, sort_dedup, strictly_increasing};
use crate::paths::{join, joined};
use crate::text::{
    contains, is_substring, lemma_empty_is_substring, lemma_texts_push, lowercase, same_text,
    texts, to_chars, unicode_lowercase,
};

verus! {

/// An entry name matches a search term where the two are equal, or equal
/// once both are folded to lower case, or where the term is a part of the
/// name, as it stands or once both are folded.
pub open spec fn term_matches(entry: Seq<char>, term: Seq<char>) -> bool {
    ||| entry == term
    ||| unicode_lowercase(entry) == unicode_lowercase(term)
    ||| is_substring(term, entry)
    ||| is_substring(unicode_lowercase(term), unicode_lowercase(entry))
}

/// An entry belongs to an application where its name matches the
/// application's name or, where there is one, its identifier.
pub open spec fn entry_matches(
    entry: Seq<char>,
    app_name: Seq<char>,
    bundle_id: Option<Seq<char>>,
) -> bool {
    term_matches(entry, app_name) || match bundle_id {
        Some(id) => term_matches(entry, id),
        None => false,
    }
}

/// The text of an identifier that may be absent.
pub open spec fn option_text(s: Option<&str>) -> Option<Seq<char>> {
    match s {
        Some(t) => Some(t@),
        None => None,
    }
}

/// The per-user data directories that are searched, relative to the home
/// directory, in the order of the search.
pub open spec fn residual_dir_names() -> Seq<Seq<char>> {
    seq![
        "Library/Application Support"@,
        "Library/Caches"@,
        "Library/Preferences"@,
        "Library/Logs"@,
        "Library/Containers"@,
        "Library/Group Containers"@,
        "Library/Saved Application State"@,
        "Library/WebKit"@,
        "Library/HTTPStorages"@,
        "Library/Cookies"@,
    ]
}

/// The directories that are searched for the data of an application.
pub open spec fn residual_dirs(home: Seq<char>) -> Seq<Seq<char>> {
    Seq::new(10, |i: int| joined(home, residual_dir_names()[i]))
}

/// The preferences file that an application with this identifier keeps.
pub open spec fn preferences_file(home: Seq<char>, bundle_id: Seq<char>) -> Seq<char> {
    joined(joined(home, "Library/Preferences"@), bundle_id + ".plist"@)
}

/// What is asked of each entry of the directories searched: whether its
/// name matches the application's name or identifier.
pub open spec fn matching(app_name: Seq<char>, bundle_id: Option<Seq<char>>) -> spec_fn(
    Seq<char>,
    Seq<char>,
) -> bool {
    |dir: Seq<char>, entry: Seq<char>| entry_matches(entry, app_name, bundle_id)
}

/// A path is residual data of an application where it is the path of an
/// entry, in one of the directories searched, whose name matches, or where
/// it is the preferences file of the application's identifier and that file
/// exists.
pub open spec fn is_residual(
    path: Seq<char>,
    listings: Seq<ListingView>,
    app_name: Seq<char>,
    bundle_id: Option<Seq<char>>,
    home: Seq<char>,
    preferences_file_exists: bool,
) -> bool {
    ||| is_kept(path, listings, matching(app_name, bundle_id))
    ||| preferences_file_exists && bundle_id is Some && path == preferences_file(
        home,
        bundle_id->0,
    )
}

/// What `find_related_files` returns for these inputs: the residual paths
/// and no others, in ascending order, each of them once.
pub open spec fn is_residual_report(
    report: Seq<Seq<char>>,
    listings: Seq<ListingView>,
    app_name: Seq<char>,
    bundle_id: Option<Seq<char>>,
    home: Seq<char>,
    preferences_file_exists: bool,
) -> bool {
    &&& strictly_increasing(report)
    &&& forall|path: Seq<char>| #[trigger]
        report.contains(path) <==> is_residual(
            path,
            listings,
            app_name,
            bundle_id,
            home,
            preferences_file_exists,
        )
}

/// The result of the search is fixed by what the directories hold: two
/// reports for the same listings, name, identifier and preferences file are
/// the same sequence, path for path.
pub proof fn lemma_residual_report_is_unique(
    first: Seq<Seq<char>>,
    second: Seq<Seq<char>>,
    listings: Seq<ListingView>,
    app_name: Seq<char>,
    bundle_id: Option<Seq<char>>,
    home: Seq<char>,
    preferences_file_exists: bool,
)
    requires
        is_residual_report(first, listings, app_name, bundle_id, home, preferences_file_exists),
        is_residual_report(second, listings, app_name, bundle_id, home, preferences_file_exists),
    ensures
        first == second,
{
    assert forall|path: Seq<char>| first.to_set().contains(path) <==> second.to_set().contains(
        path,
    ) by {
        assert(first.contains(path) <==> second.contains(path));
    }
    assert(first.to_set() =~= second.to_set());
    lemma_strictly_increasing_unique(first, second);
}

/// With the empty text as the application's name every entry of every
/// directory searched is residual data: the empty text is a part of every
/// name.
pub proof fn lemma_empty_name_matches_every_entry(
    listings: Seq<ListingView>,
    bundle_id: Option<Seq<char>>,
    home: Seq<char>,
    preferences_file_exists: bool,
    i: int,
    j: int,
)
    requires
        0 <= i < listings.len(),
        0 <= j < listings[i].entries.len(),
    ensures
        is_residual(
            joined(listings[i].dir, listings[i].entries[j]),
            listings,
            Seq::<char>::empty(),
            bundle_id,
            home,
            preferences_file_exists,
        ),
{
    lemma_empty_is_substring(listings[i].entries[j]);
    assert(matching(Seq::<char>::empty(), bundle_id)(listings[i].dir, listings[i].entries[j]));
}

/// The directories that are searched for the data of an application.
pub fn residual_search_dirs(home: &str) -> (r: Vec<String>)
    ensures
        texts(r@) == residual_dirs(home@),
{
    let mut dirs: Vec<String> = Vec::new();
    dirs.push(join(home, "Library/Application Support"));
    dirs.push(join(home, "Library/Caches"));
    dirs.push(join(home, "Library/Preferences"));
    dirs.push(join(home, "Library/Logs"));
    dirs.push(join(home, "Library/Containers"));
    dirs.push(join(home, "Library/Group Containers"));
    dirs.push(join(home, "Library/Saved Application State"));
    dirs.push(join(home, "Library/WebKit"));
    dirs.push(join(home, "Library/HTTPStorages"));
    dirs.push(join(home, "Library/Cookies"));
    assert(texts(dirs@) =~= residual_dirs(home@));
    dirs
}

/// The preferences file that an application with this identifier keeps.
pub fn preferences_file_path(home: &str, bundle_id: &str) -> (r: String)
    ensures
        r@ == preferences_file(home@, bundle_id@),
{
    let dir = join(home, "Library/Preferences");
    let mut name = String::from_str(bundle_id);
    name.append(".plist");
    join(dir.as_str(), name.as_str())
}

/// A search term with its folded form, both ready to be compared.
struct Term {
    plain: Vec<char>,
    folded: Vec<char>,
}

impl Term {
    spec fn wf(self) -> bool {
        self.folded@ == unicode_lowercase(self.plain@)
    }

    fn new(s: &str) -> (r: Term)
        ensures
            r.wf(),
            r.plain@ == s@,
    {
        let folded = lowercase(s);
        Term { plain: to_chars(s), folded: to_chars(folded.as_str()) }
    }

    fn matches(&self, term: &Term) -> (r: bool)
        requires
            self.wf(),
            term.wf(),
        ensures
            r == term_matches(self.plain@, term.plain@),
    {
        same_text(&self.plain, &term.plain) || same_text(&self.folded, &term.folded) || contains(
            &self.plain,
            &term.plain,
        ) || contains(&self.folded, &term.folded)
    }
}

/// Whether an entry name matches a search term.
pub fn matches_term(entry: &str, term: &str) -> (r: bool)
    ensures
        r == term_matches(entry@, term@),
{
    Term::new(entry).matches(&Term::new(term))
}

/// The residual data of an application: the paths of the entries of the
/// listed directories whose names match its name or its identifier, and the
/// preferences file of its identifier where that file exists; in ascending
/// order, each path once.
pub fn find_related_files(
    app_name: &str,
    bundle_id: Option<&str>,
    home: &str,
    listings: &Vec<DirListing>,
    preferences_file_exists: bool,
) -> (r: Vec<String>)
    ensures
        is_residual_report(
            texts(r@),
            listing_views(listings@),
            app_name@,
            option_text(bundle_id),
            home@,
            preferences_file_exists,
        ),
{
    let ghost views = listing_views(listings@);
    let ghost id = option_text(bundle_id);
    let ghost keep = matching(app_name@, id);
    let name_term = Term::new(app_name);
    let id_term: Option<Term> = match bundle_id {
        Some(text) => Some(Term::new(text)),
        None => None,
    };
    let mut found: Vec<String> = Vec::new();
    let mut i: usize = 0;
    assert(texts(found@) =~= all_kept_paths(views.take(0), keep));
    while i < listings.len()
        invariant
            i <= listings.len(),
            views == listing_views(listings@),
            id == option_text(bundle_id),
            keep == matching(app_name@, id),
            name_term.wf(),
            name_term.plain@ == app_name@,
            match id_term {
                Some(term) => bundle_id is Some && term.wf() && term.plain@ == bundle_id->0@,
                None => bundle_id is None,
            },
            texts(found@) == all_kept_paths(views.take(i as int), keep),
        decreases listings.len() - i,
    {
        let listing = &listings[i];
        let ghost before = texts(found@);
        let ghost names = texts(listing.entries@);
        let mut j: usize = 0;
        assert(before + kept_paths(listing.dir@, names.take(0), keep) =~= before);
        while j < listing.entries.len()
            invariant
                j <= listing.entries.len(),
                names == texts(listing.entries@),
                id == option_text(bundle_id),
                keep == matching(app_name@, id),
                name_term.wf(),
                name_term.plain@ == app_name@,
                match id_term {
                    Some(term) => bundle_id is Some && term.wf() && term.plain@ == bundle_id->0@,
                    None => bundle_id is None,
                },
                texts(found@) == before + kept_paths(listing.dir@, names.take(j as int), keep),
            decreases listing.entries.len() - j,
        {
            let entry = Term::new(listing.entries[j].as_str());
            let hit = entry.matches(&name_term) || match &id_term {
                Some(term) => entry.matches(term),
                None => false,
            };
            assert(names.take(j + 1).drop_last() =~= names.take(j as int));
            assert(names.take(j + 1).last() == names[j as int]);
            assert(hit == keep(listing.dir@, names[j as int]));
            if hit {
                let path = join(listing.dir.as_str(), listing.entries[j].as_str());
                proof {
                    lemma_texts_push(found@, path);
                    assert(before + kept_paths(listing.dir@, names.take(j + 1), keep) =~= (before
                        + kept_paths(listing.dir@, names.take(j as int), keep)).push(path@));
                }
                found.push(path);
            }
            j += 1;
        }
        assert(names.take(j as int) =~= names);
        assert(views.take(i + 1).drop_last() =~= views.take(i as int));
        assert(views.take(i + 1).last() == listing@);
        i += 1;
    }
    assert(views.take(i as int) =~= views);
    let ghost hits = texts(found@);
    match bundle_id {
        Some(text) => {
            if preferences_file_exists {
                let probe = preferences_file_path(home, text);
                proof {
                    lemma_texts_push(found@, probe);
                }
                found.push(probe);
            }
        },
        None => {},
    }
    let report = sort_dedup(&found);
    proof {
        let all = texts(found@);
        assert forall|path: Seq<char>| #[trigger]
            texts(report@).contains(path) <==> is_residual(
                path,
                views,
                app_name@,
                id,
                home@,
                preferences_file_exists,
            ) by {
            lemma_all_kept_paths_members(views, keep, path);
            assert(texts(report@).contains(path) <==> texts(report@).to_set().contains(path));
            assert(all.to_set().contains(path) <==> all.contains(path));
            if all.len() > hits.len() {
                assert(all == hits.push(preferences_file(home@, id->0)));
                if hits.contains(path) {
                    let k = choose|k: int| 0 <= k < hits.len() && hits[k] == path;
                    assert(all[k] == path);
                }
                if path == preferences_file(home@, id->0) {
                    assert(all[hits.len() as int] == path);
                }
                if all.contains(path) {
                    let k = choose|k: int| 0 <= k < all.len() && all[k] == path;
                    if k < hits.len() {
                        assert(hits[k] == path);
                    }
                }
            }
        }
    }
    report
}

} // verus!
