//! The application bundles of the application directories: which entries
//! are bundles, in what order they are listed, and how a bundle is found by
//! its name.

use vstd::prelude::*;
use crate::listing::{
    all_kept_paths, kept_paths, lemma_all_kept_paths_distinct, listing_views, well_formed,
    DirListing, ListingView,
};
use crate::order::{
    lemma_precedes_irreflexive, lemma_precedes_transitive, precedes, text_precedes,
};
use crate::paths::{file_stem, has_bundle_extension, is_bundle_path, join, joined, stem_of};
use crate::text::{
    ascii_lowered, contains, ends_with, is_substring, is_suffix, lemma_texts_push, lowercase,
    optional_text, same_text, texts, to_ascii_lowered, to_chars, unicode_lowercase,
};

verus! {

/// The home directory: what the environment gives, or a fixed placeholder
/// where it gives nothing.
pub open spec fn home_or_placeholder(home: Option<String>) -> Seq<char> {
    match home {
        Some(dir) => dir@,
        None => "/Users/unknown"@,
    }
}

/// The home directory, given the value of the environment's variable for
/// it, if it has one.
pub fn get_home(home: Option<String>) -> (r: String)
    ensures
        r@ == home_or_placeholder(home),
{
    match home {
        Some(dir) => dir,
        None => String::from_str("/Users/unknown"),
    }
}

/// The two directories that hold application bundles: the one of the
/// system first, then the user's own.
pub open spec fn bundle_roots(home: Seq<char>) -> Seq<Seq<char>> {
    seq!["/Applications"@, joined(home, "Applications"@)]
}

/// The two directories that hold application bundles, in the order in which
/// they are searched.
pub fn application_roots(home: &str) -> (r: Vec<String>)
    ensures
        texts(r@) == bundle_roots(home@),
{
    let mut roots: Vec<String> = Vec::new();
    roots.push(String::from_str("/Applications"));
    roots.push(join(home, "Applications"));
    assert(texts(roots@) =~= bundle_roots(home@));
    roots
}

/// What is asked of each entry of the application directories: whether
/// its path names a bundle.
pub open spec fn bundles() -> spec_fn(Seq<char>, Seq<char>) -> bool {
    |dir: Seq<char>, entry: Seq<char>| is_bundle_path(joined(dir, entry))
}

/// The paths of the bundles of all the directories, in the order in which
/// the file system gave them, the directories in the order given.
pub open spec fn bundle_paths(listings: Seq<ListingView>) -> Seq<Seq<char>> {
    all_kept_paths(listings, bundles())
}

/// What a bundle is ordered by: its stem, capital ASCII letters taken as
/// small ones.
pub open spec fn stem_key(path: Seq<char>) -> Seq<char> {
    ascii_lowered(file_stem(path))
}

/// No path stands before one whose key comes before its own.
pub open spec fn sorted_by_stem(s: Seq<Seq<char>>) -> bool {
    forall|i: int, j: int|
        0 <= i < j < s.len() ==> !precedes(stem_key(#[trigger] s[j]), stem_key(#[trigger] s[i]))
}

/// The paths whose key is `key`.
pub open spec fn has_stem_key(key: Seq<char>) -> spec_fn(Seq<char>) -> bool {
    |path: Seq<char>| stem_key(path) == key
}

/// The paths with one and the same key stand in `s` as they stand in `of`:
/// the same paths, as often, in the same order.
pub open spec fn keeps_order_within_stems(s: Seq<Seq<char>>, of: Seq<Seq<char>>) -> bool {
    forall|key: Seq<char>| #[trigger] s.filter(has_stem_key(key)) == of.filter(has_stem_key(key))
}

/// A path put into a sequence sorted by key, behind the paths whose key
/// does not come after its own and before the first whose key does, leaves
/// the sequence sorted; and no path behind it has its key.
proof fn lemma_sorted_insert(s: Seq<Seq<char>>, at: int, x: Seq<char>)
    requires
        sorted_by_stem(s),
        0 <= at <= s.len(),
        forall|k: int| 0 <= k < at ==> !precedes(stem_key(x), stem_key(#[trigger] s[k])),
        at < s.len() ==> precedes(stem_key(x), stem_key(s[at])),
    ensures
        sorted_by_stem(s.insert(at, x)),
        forall|j: int| at <= j < s.len() ==> stem_key(#[trigger] s[j]) != stem_key(x),
{
    let t = s.insert(at, x);
    let kx = stem_key(x);
    assert forall|j: int| at <= j < s.len() implies !precedes(stem_key(#[trigger] s[j]), kx)
        && stem_key(s[j]) != kx by {
        let kj = stem_key(s[j]);
        let ka = stem_key(s[at]);
        lemma_precedes_irreflexive(ka, 0);
        if j > at {
            assert(!precedes(stem_key(s[j]), stem_key(s[at])));
        }
        if precedes(kj, kx) {
            lemma_precedes_transitive(kj, kx, ka, 0);
        }
    }
    assert forall|i: int, j: int| 0 <= i < j < t.len() implies !precedes(
        stem_key(#[trigger] t[j]),
        stem_key(#[trigger] t[i]),
    ) by {
        if j < at {
            assert(t[i] == s[i] && t[j] == s[j]);
        } else if j == at {
            assert(t[i] == s[i] && t[j] == x);
        } else {
            assert(t[j] == s[j - 1]);
            if i < at {
                assert(t[i] == s[i]);
                assert(!precedes(stem_key(s[j - 1]), stem_key(s[i])));
            } else if i == at {
                assert(t[i] == x);
            } else {
                assert(t[i] == s[i - 1]);
                assert(!precedes(stem_key(s[j - 1]), stem_key(s[i - 1])));
            }
        }
    }
}

/// A path put into `s` before paths that all have other keys, and added at
/// the end of `of`, leaves the order within each key as it is in `of`.
proof fn lemma_stable_insert(s: Seq<Seq<char>>, at: int, x: Seq<char>, of: Seq<Seq<char>>)
    requires
        0 <= at <= s.len(),
        forall|j: int| at <= j < s.len() ==> stem_key(#[trigger] s[j]) != stem_key(x),
        keeps_order_within_stems(s, of),
    ensures
        keeps_order_within_stems(s.insert(at, x), of.push(x)),
{
    let t = s.insert(at, x);
    let head = s.subrange(0, at);
    let tail = s.subrange(at, s.len() as int);
    assert(s =~= head + tail);
    assert(t =~= head.push(x) + tail);
    assert forall|key: Seq<char>| #[trigger]
        t.filter(has_stem_key(key)) == of.push(x).filter(has_stem_key(key)) by {
        let pred = has_stem_key(key);
        assert(s.filter(pred) == of.filter(pred));
        Seq::filter_distributes_over_add(head, tail, pred);
        Seq::filter_distributes_over_add(head.push(x), tail, pred);
        head.lemma_filter_push(x, pred);
        of.lemma_filter_push(x, pred);
        if pred(x) {
            let kept = tail.filter(pred);
            if kept.len() > 0 {
                tail.lemma_filter_pred(pred, 0);
                tail.lemma_filter_contains_rev(pred, kept[0]);
                assert(kept.contains(kept[0]));
                let j = choose|j: int| 0 <= j < tail.len() && tail[j] == kept[0];
                assert(tail[j] == s[at + j]);
            }
            assert(kept =~= Seq::empty());
            assert(head.filter(pred).push(x) + kept =~= (head.filter(pred) + kept).push(x));
        }
    }
}

/// The key of a path, ready to be compared.
fn stem_key_of(path: &str) -> (r: Vec<char>)
    ensures
        r@ == stem_key(path@),
{
    let stem = stem_of(path);
    to_ascii_lowered(&to_chars(stem.as_str()))
}

/// The paths ordered by their keys. Paths with the same key stay in the
/// order in which they came.
pub fn sort_by_stem(paths: &Vec<String>) -> (r: Vec<String>)
    ensures
        sorted_by_stem(texts(r@)),
        keeps_order_within_stems(texts(r@), texts(paths@)),
        texts(r@).to_multiset() == texts(paths@).to_multiset(),
{
    let mut out: Vec<String> = Vec::new();
    let mut keys: Vec<Vec<char>> = Vec::new();
    let mut i: usize = 0;
    assert(texts(out@) =~= texts(paths@).take(0));
    while i < paths.len()
        invariant
            i <= paths.len(),
            keys@.len() == out@.len(),
            forall|k: int| 0 <= k < keys@.len() ==> (#[trigger] keys@[k])@ == stem_key(out@[k]@),
            sorted_by_stem(texts(out@)),
            keeps_order_within_stems(texts(out@), texts(paths@).take(i as int)),
            texts(out@).to_multiset() == texts(paths@).take(i as int).to_multiset(),
        decreases paths.len() - i,
    {
        let key = stem_key_of(paths[i].as_str());
        let ghost sorted = texts(out@);
        let ghost x = paths@[i as int]@;
        let mut at: usize = 0;
        while at < keys.len() && !text_precedes(&key, &keys[at])
            invariant
                at <= keys.len(),
                keys@.len() == out@.len(),
                sorted == texts(out@),
                key@ == stem_key(x),
                forall|k: int|
                    0 <= k < keys@.len() ==> (#[trigger] keys@[k])@ == stem_key(out@[k]@),
                forall|k: int| 0 <= k < at ==> !precedes(stem_key(x), stem_key(#[trigger] sorted[k])),
            decreases keys.len() - at,
        {
            at += 1;
        }
        let next = paths[i].clone();
        proof {
            let seen = texts(paths@).take(i as int);
            lemma_sorted_insert(sorted, at as int, x);
            lemma_stable_insert(sorted, at as int, x, seen);
            assert(texts(paths@).take(i + 1) =~= seen.push(x));
            vstd::seq_lib::to_multiset_insert(sorted, at as int, x);
            vstd::seq_lib::to_multiset_build(seen, x);
            assert(texts(out@.insert(at as int, next)) =~= sorted.insert(at as int, x));
        }
        out.insert(at, next);
        keys.insert(at, key);
        i += 1;
    }
    assert(texts(paths@).take(i as int) =~= texts(paths@));
    out
}

/// The paths of the bundles of all the directories, in the order in which
/// the file system gave them.
pub fn bundle_candidates(listings: &Vec<DirListing>) -> (r: Vec<String>)
    ensures
        texts(r@) == bundle_paths(listing_views(listings@)),
{
    let ghost views = listing_views(listings@);
    let ghost keep = bundles();
    let mut found: Vec<String> = Vec::new();
    let mut i: usize = 0;
    assert(texts(found@) =~= all_kept_paths(views.take(0), keep));
    while i < listings.len()
        invariant
            i <= listings.len(),
            views == listing_views(listings@),
            keep == bundles(),
            texts(found@) == all_kept_paths(views.take(i as int), keep),
        decreases listings.len() - i,
    {
        let listing = &listings[i];
        let ghost before = texts(found@);
        let ghost names = texts(listing.entries@);
        let mut j: usize = 0;
        assert(before + kept_paths(listing.dir@, names.take(0), keep) =~= before);
        while j < listing.entries.len()
            invariant
                j <= listing.entries.len(),
                names == texts(listing.entries@),
                keep == bundles(),
                texts(found@) == before + kept_paths(listing.dir@, names.take(j as int), keep),
            decreases listing.entries.len() - j,
        {
            let path = join(listing.dir.as_str(), listing.entries[j].as_str());
            assert(names.take(j + 1).drop_last() =~= names.take(j as int));
            assert(names.take(j + 1).last() == names[j as int]);
            let hit = has_bundle_extension(path.as_str());
            assert(hit == keep(listing.dir@, names[j as int]));
            if hit {
                proof {
                    lemma_texts_push(found@, path);
                    assert(before + kept_paths(listing.dir@, names.take(j + 1), keep) =~= (before
                        + kept_paths(listing.dir@, names.take(j as int), keep)).push(path@));
                }
                found.push(path);
            }
            j += 1;
        }
        assert(names.take(j as int) =~= names);
        assert(views.take(i + 1).drop_last() =~= views.take(i as int));
        assert(views.take(i + 1).last() == listing@);
        i += 1;
    }
    assert(views.take(i as int) =~= views);
    found
}

/// A sequence that holds the same members as often as a sequence without
/// repetitions has no repetitions either.
pub proof fn lemma_rearrangement_keeps_distinct(a: Seq<Seq<char>>, b: Seq<Seq<char>>)
    requires
        a.to_multiset() == b.to_multiset(),
        a.no_duplicates(),
    ensures
        b.no_duplicates(),
{
    a.lemma_multiset_has_no_duplicates();
    b.lemma_multiset_has_no_duplicates_conv();
}

/// The installed applications: the path of each bundle that the listed
/// directories hold, once for each time it is listed, ordered by stem
/// without regard to the case of ASCII letters. Bundles whose stems are the
/// same but for case stay in the order of the listings.
pub fn get_installed_apps(listings: &Vec<DirListing>) -> (r: Vec<String>)
    ensures
        sorted_by_stem(texts(r@)),
        keeps_order_within_stems(texts(r@), bundle_paths(listing_views(listings@))),
        texts(r@).to_multiset() == bundle_paths(listing_views(listings@)).to_multiset(),
        well_formed(listing_views(listings@)) ==> texts(r@).no_duplicates(),
{
    let found = bundle_candidates(listings);
    let sorted = sort_by_stem(&found);
    proof {
        if well_formed(listing_views(listings@)) {
            lemma_all_kept_paths_distinct(listing_views(listings@), bundles());
            lemma_rearrangement_keeps_distinct(texts(found@), texts(sorted@));
        }
    }
    sorted
}

/// The file name of the bundle that a name stands for: the name itself where
/// it ends in `.app`, else the name with `.app` added.
pub open spec fn bundle_file_name(name: Seq<char>) -> Seq<char> {
    if is_suffix(".app"@, name) {
        name
    } else {
        name + ".app"@
    }
}

/// The path of `file_name` in the first directory that holds an entry of
/// exactly that name.
pub open spec fn exact_match(listings: Seq<ListingView>, file_name: Seq<char>) -> Option<
    Seq<char>,
>
    decreases listings.len(),
{
    if listings.len() == 0 {
        None
    } else if listings[0].entries.contains(file_name) {
        Some(joined(listings[0].dir, file_name))
    } else {
        exact_match(listings.drop_first(), file_name)
    }
}

/// The path of the first entry of a directory whose name folds to `folded`.
pub open spec fn first_folded(dir: Seq<char>, entries: Seq<Seq<char>>, folded: Seq<char>) -> Option<
    Seq<char>,
>
    decreases entries.len(),
{
    if entries.len() == 0 {
        None
    } else if unicode_lowercase(entries[0]) == folded {
        Some(joined(dir, entries[0]))
    } else {
        first_folded(dir, entries.drop_first(), folded)
    }
}

/// The path of the first entry whose name folds to `folded`: the
/// directories in the order given, the entries of each in the order of its
/// listing.
pub open spec fn folded_match(listings: Seq<ListingView>, folded: Seq<char>) -> Option<Seq<char>>
    decreases listings.len(),
{
    if listings.len() == 0 {
        None
    } else {
        match first_folded(listings[0].dir, listings[0].entries, folded) {
            Some(path) => Some(path),
            None => folded_match(listings.drop_first(), folded),
        }
    }
}

/// The bundle that a name stands for: the one of exactly that file name, in
/// the first directory that has it; failing that, the first whose file name
/// is the same but for case.
pub open spec fn found_app(listings: Seq<ListingView>, name: Seq<char>) -> Option<Seq<char>> {
    let file_name = bundle_file_name(name);
    match exact_match(listings, file_name) {
        Some(path) => Some(path),
        None => folded_match(listings, unicode_lowercase(file_name)),
    }
}

/// The entry at `(i, j)` exists and its name folds to `folded`.
pub open spec fn folds_to(listings: Seq<ListingView>, i: int, j: int, folded: Seq<char>) -> bool {
    &&& 0 <= i < listings.len()
    &&& 0 <= j < listings[i].entries.len()
    &&& unicode_lowercase(listings[i].entries[j]) == folded
}

/// An exact match is the path of the name looked for in the first
/// directory that holds an entry of that name; there is none where no
/// directory does.
pub proof fn lemma_exact_match_is_first(listings: Seq<ListingView>, file_name: Seq<char>)
    ensures
        match exact_match(listings, file_name) {
            Some(path) => exists|i: int, j: int|
                0 <= i < listings.len() && 0 <= j < listings[i].entries.len()
                    && #[trigger] listings[i].entries[j] == file_name && path == joined(
                    listings[i].dir,
                    file_name,
                ) && forall|a: int|
                    0 <= a < i ==> !(#[trigger] listings[a]).entries.contains(file_name),
            None => forall|i: int, j: int|
                0 <= i < listings.len() && 0 <= j < listings[i].entries.len()
                    ==> #[trigger] listings[i].entries[j] != file_name,
        },
    decreases listings.len(),
{
    if listings.len() > 0 {
        let rest = listings.drop_first();
        if listings[0].entries.contains(file_name) {
            let j = choose|j: int|
                0 <= j < listings[0].entries.len() && listings[0].entries[j] == file_name;
            assert(listings[0].entries[j] == file_name);
        } else {
            lemma_exact_match_is_first(rest, file_name);
            match exact_match(rest, file_name) {
                Some(path) => {
                    let (i, j) = choose|i: int, j: int|
                        0 <= i < rest.len() && 0 <= j < rest[i].entries.len()
                            && #[trigger] rest[i].entries[j] == file_name && path == joined(
                            rest[i].dir,
                            file_name,
                        ) && forall|a: int|
                            0 <= a < i ==> !(#[trigger] rest[a]).entries.contains(file_name);
                    assert(listings[i + 1] == rest[i]);
                    assert(listings[i + 1].entries[j] == file_name);
                    assert forall|a: int| 0 <= a < i + 1 implies !(
                    #[trigger] listings[a]).entries.contains(file_name) by {
                        if a > 0 {
                            assert(listings[a] == rest[a - 1]);
                        }
                    }
                },
                None => {
                    assert forall|i: int, j: int|
                        0 <= i < listings.len() && 0 <= j < listings[i].entries.len()
                        implies #[trigger] listings[i].entries[j] != file_name by {
                        if i == 0 {
                            assert(listings[0].entries.contains(listings[0].entries[j]));
                        } else {
                            assert(listings[i] == rest[i - 1]);
                            assert(rest[i - 1].entries[j] != file_name);
                        }
                    }
                },
            }
        }
    }
}

/// A match within one directory is the path of its first entry whose name
/// folds to the text looked for; there is none where no name does.
pub proof fn lemma_first_folded_is_first(dir: Seq<char>, entries: Seq<Seq<char>>, folded: Seq<char>)
    ensures
        match first_folded(dir, entries, folded) {
            Some(path) => exists|j: int|
                0 <= j < entries.len() && unicode_lowercase(#[trigger] entries[j]) == folded
                    && path == joined(dir, entries[j]) && forall|k: int|
                    0 <= k < j ==> unicode_lowercase(#[trigger] entries[k]) != folded,
            None => forall|j: int|
                0 <= j < entries.len() ==> unicode_lowercase(#[trigger] entries[j]) != folded,
        },
    decreases entries.len(),
{
    if entries.len() > 0 {
        let rest = entries.drop_first();
        if unicode_lowercase(entries[0]) == folded {
            assert(unicode_lowercase(entries[0]) == folded && forall|k: int|
                0 <= k < 0 ==> unicode_lowercase(#[trigger] entries[k]) != folded);
        } else {
            lemma_first_folded_is_first(dir, rest, folded);
            match first_folded(dir, rest, folded) {
                Some(path) => {
                    let j = choose|j: int|
                        0 <= j < rest.len() && unicode_lowercase(#[trigger] rest[j]) == folded
                            && path == joined(dir, rest[j]) && forall|k: int|
                            0 <= k < j ==> unicode_lowercase(#[trigger] rest[k]) != folded;
                    assert(entries[j + 1] == rest[j]);
                    assert forall|k: int| 0 <= k < j + 1 implies unicode_lowercase(
                        #[trigger] entries[k],
                    ) != folded by {
                        if k > 0 {
                            assert(entries[k] == rest[k - 1]);
                        }
                    }
                },
                None => {
                    assert forall|j: int| 0 <= j < entries.len() implies unicode_lowercase(
                        #[trigger] entries[j],
                    ) != folded by {
                        if j > 0 {
                            assert(entries[j] == rest[j - 1]);
                        }
                    }
                },
            }
        }
    }
}

/// A match by folded name is the path of the first entry whose name folds
/// to the text looked for, directory by directory; there is none where no
/// name does.
pub proof fn lemma_folded_match_is_first(listings: Seq<ListingView>, folded: Seq<char>)
    ensures
        match folded_match(listings, folded) {
            Some(path) => exists|i: int, j: int|
                #![trigger folds_to(listings, i, j, folded)]
                folds_to(listings, i, j, folded) && path == joined(
                    listings[i].dir,
                    listings[i].entries[j],
                ) && forall|a: int, b: int|
                    #![trigger folds_to(listings, a, b, folded)]
                    folds_to(listings, a, b, folded) ==> i < a || (i == a && j <= b),
            None => forall|i: int, j: int| !folds_to(listings, i, j, folded),
        },
    decreases listings.len(),
{
    if listings.len() > 0 {
        let rest = listings.drop_first();
        let head = listings[0];
        lemma_first_folded_is_first(head.dir, head.entries, folded);
        match first_folded(head.dir, head.entries, folded) {
            Some(path) => {
                let j = choose|j: int|
                    0 <= j < head.entries.len() && unicode_lowercase(#[trigger] head.entries[j])
                        == folded && path == joined(head.dir, head.entries[j]) && forall|k: int|
                        0 <= k < j ==> unicode_lowercase(#[trigger] head.entries[k]) != folded;
                assert(folds_to(listings, 0, j, folded));
            },
            None => {
                lemma_folded_match_is_first(rest, folded);
                match folded_match(rest, folded) {
                    Some(path) => {
                        let (i, j) = choose|i: int, j: int|
                            #![trigger folds_to(rest, i, j, folded)]
                            folds_to(rest, i, j, folded) && path == joined(
                                rest[i].dir,
                                rest[i].entries[j],
                            ) && forall|a: int, b: int|
                                #![trigger folds_to(rest, a, b, folded)]
                                folds_to(rest, a, b, folded) ==> i < a || (i == a && j <= b);
                        assert(listings[i + 1] == rest[i]);
                        assert(folds_to(listings, i + 1, j, folded));
                        assert forall|a: int, b: int|
                            #![trigger folds_to(listings, a, b, folded)]
                            folds_to(listings, a, b, folded) implies i + 1 < a || (i + 1 == a && j
                            <= b) by {
                            if a > 0 {
                                assert(listings[a] == rest[a - 1]);
                                assert(folds_to(rest, a - 1, b, folded));
                            }
                        }
                    },
                    None => {
                        assert forall|i: int, j: int| !folds_to(listings, i, j, folded) by {
                            if folds_to(listings, i, j, folded) && i > 0 {
                                assert(listings[i] == rest[i - 1]);
                                assert(folds_to(rest, i - 1, j, folded));
                            }
                        }
                    },
                }
            },
        }
    }
}

/// Where exactly one entry has a file name that is, but for case, the one
/// looked for, every name that folds to the same text finds that entry,
/// however the name itself is written.
pub proof fn lemma_find_app_ignores_case(
    listings: Seq<ListingView>,
    first: Seq<char>,
    second: Seq<char>,
    i: int,
    j: int,
)
    requires
        unicode_lowercase(bundle_file_name(first)) == unicode_lowercase(bundle_file_name(second)),
        folds_to(listings, i, j, unicode_lowercase(bundle_file_name(first))),
        forall|a: int, b: int|
            #![trigger folds_to(listings, a, b, unicode_lowercase(bundle_file_name(first)))]
            folds_to(listings, a, b, unicode_lowercase(bundle_file_name(first))) ==> a == i && b
                == j,
    ensures
        found_app(listings, first) == Some(joined(listings[i].dir, listings[i].entries[j])),
        found_app(listings, second) == found_app(listings, first),
{
    let folded = unicode_lowercase(bundle_file_name(first));
    lemma_folded_match_is_first(listings, folded);
    lemma_exact_match_is_first(listings, bundle_file_name(first));
    lemma_exact_match_is_first(listings, bundle_file_name(second));
    match exact_match(listings, bundle_file_name(first)) {
        Some(path) => {
            let (a, b) = choose|a: int, b: int|
                0 <= a < listings.len() && 0 <= b < listings[a].entries.len()
                    && #[trigger] listings[a].entries[b] == bundle_file_name(first) && path
                    == joined(listings[a].dir, bundle_file_name(first)) && forall|c: int|
                    0 <= c < a ==> !(#[trigger] listings[c]).entries.contains(
                        bundle_file_name(first),
                    );
            assert(folds_to(listings, a, b, folded));
        },
        None => {},
    }
    match exact_match(listings, bundle_file_name(second)) {
        Some(path) => {
            let (a, b) = choose|a: int, b: int|
                0 <= a < listings.len() && 0 <= b < listings[a].entries.len()
                    && #[trigger] listings[a].entries[b] == bundle_file_name(second) && path
                    == joined(listings[a].dir, bundle_file_name(second)) && forall|c: int|
                    0 <= c < a ==> !(#[trigger] listings[c]).entries.contains(
                        bundle_file_name(second),
                    );
            assert(folds_to(listings, a, b, folded));
        },
        None => {},
    }
}

/// The file name of the bundle that a name stands for.
pub fn bundle_file_name_of(name: &str) -> (r: String)
    ensures
        r@ == bundle_file_name(name@),
{
    let mut file_name = String::from_str(name);
    if !ends_with(&to_chars(name), &to_chars(".app")) {
        file_name.append(".app");
    }
    file_name
}

/// Whether one of the names is exactly the text looked for.
fn holds_name(names: &Vec<String>, wanted: &Vec<char>) -> (r: bool)
    ensures
        r == texts(names@).contains(wanted@),
{
    let mut k: usize = 0;
    while k < names.len()
        invariant
            k <= names.len(),
            forall|m: int| 0 <= m < k ==> texts(names@)[m] != wanted@,
        decreases names.len() - k,
    {
        if same_text(&to_chars(names[k].as_str()), wanted) {
            assert(texts(names@)[k as int] == wanted@);
            return true;
        }
        k += 1;
    }
    false
}

/// The bundle that a name stands for, among the entries of the listed
/// directories: the one of exactly the file name, from the first directory
/// that has it; failing that, the first entry whose file name is the same
/// but for case; nothing where there is neither.
pub fn find_app(name: &str, listings: &Vec<DirListing>) -> (r: Option<String>)
    ensures
        optional_text(r) == found_app(listing_views(listings@), name@),
{
    let ghost views = listing_views(listings@);
    let file_name = bundle_file_name_of(name);
    let wanted = to_chars(file_name.as_str());
    let mut i: usize = 0;
    assert(views.skip(0) =~= views);
    while i < listings.len()
        invariant
            i <= listings.len(),
            views == listing_views(listings@),
            wanted@ == file_name@,
            file_name@ == bundle_file_name(name@),
            exact_match(views, file_name@) == exact_match(views.skip(i as int), file_name@),
        decreases listings.len() - i,
    {
        assert(views.skip(i as int)[0] == listings@[i as int]@);
        assert(views.skip(i as int).drop_first() =~= views.skip(i + 1));
        if holds_name(&listings[i].entries, &wanted) {
            return Some(join(listings[i].dir.as_str(), file_name.as_str()));
        }
        i += 1;
    }
    assert(exact_match(views, file_name@) is None);
    let folded_name = lowercase(file_name.as_str());
    let folded = to_chars(folded_name.as_str());
    let mut i: usize = 0;
    while i < listings.len()
        invariant
            i <= listings.len(),
            views == listing_views(listings@),
            file_name@ == bundle_file_name(name@),
            exact_match(views, file_name@) is None,
            folded@ == unicode_lowercase(file_name@),
            folded_match(views, folded@) == folded_match(views.skip(i as int), folded@),
        decreases listings.len() - i,
    {
        let listing = &listings[i];
        let ghost names = texts(listing.entries@);
        assert(views.skip(i as int)[0] == listing@);
        assert(views.skip(i as int).drop_first() =~= views.skip(i + 1));
        let mut j: usize = 0;
        assert(names.skip(0) =~= names);
        while j < listing.entries.len()
            invariant
                j <= listing.entries.len(),
                names == texts(listing.entries@),
                views == listing_views(listings@),
                file_name@ == bundle_file_name(name@),
                exact_match(views, file_name@) is None,
                folded@ == unicode_lowercase(file_name@),
                i < listings.len(),
                listing == &listings[i as int],
                folded_match(views, folded@) == folded_match(views.skip(i as int), folded@),
                first_folded(listing.dir@, names, folded@) == first_folded(
                    listing.dir@,
                    names.skip(j as int),
                    folded@,
                ),
            decreases listing.entries.len() - j,
        {
            assert(names.skip(j as int)[0] == names[j as int]);
            assert(names.skip(j as int).drop_first() =~= names.skip(j + 1));
            let entry = lowercase(listing.entries[j].as_str());
            if same_text(&to_chars(entry.as_str()), &folded) {
                return Some(join(listing.dir.as_str(), listing.entries[j].as_str()));
            }
            j += 1;
        }
        i += 1;
    }
    None
}

/// A name answers a query where the query is empty or is, both folded to
/// lower case, a part of the name.
pub open spec fn answers_query(name: Seq<char>, query: Seq<char>) -> bool {
    query.len() == 0 || is_substring(unicode_lowercase(query), unicode_lowercase(name))
}

/// The positions of the names that answer the query, in ascending order.
pub fn search_apps(names: &Vec<String>, query: &str) -> (r: Vec<usize>)
    ensures
        forall|a: int, b: int| 0 <= a < b < r@.len() ==> r@[a] < r@[b],
        forall|a: int| 0 <= a < r@.len() ==> r@[a] < names@.len(),
        forall|i: int|
            0 <= i < names@.len() ==> (r@.contains(i as usize) <==> answers_query(
                #[trigger] names@[i]@,
                query@,
            )),
{
    let mut hits: Vec<usize> = Vec::new();
    let folded_query = lowercase(query);
    let wanted = to_chars(folded_query.as_str());
    let every = query.unicode_len() == 0;
    let mut i: usize = 0;
    while i < names.len()
        invariant
            i <= names.len(),
            wanted@ == unicode_lowercase(query@),
            every == (query@.len() == 0),
            forall|a: int, b: int| 0 <= a < b < hits@.len() ==> hits@[a] < hits@[b],
            forall|a: int| 0 <= a < hits@.len() ==> hits@[a] < i,
            forall|k: int|
                0 <= k < i ==> (hits@.contains(k as usize) <==> answers_query(
                    #[trigger] names@[k]@,
                    query@,
                )),
        decreases names.len() - i,
    {
        let folded = lowercase(names[i].as_str());
        let hit = every || contains(&to_chars(folded.as_str()), &wanted);
        let ghost before = hits@;
        if hit {
            hits.push(i);
            assert(hits@[before.len() as int] == i);
        }
        assert forall|k: int| 0 <= k < i + 1 implies (hits@.contains(k as usize) <==> answers_query(
            #[trigger] names@[k]@,
            query@,
        )) by {
            if before.contains(k as usize) {
                let m = choose|m: int| 0 <= m < before.len() && before[m] == k as usize;
                assert(hits@[m] == k as usize);
            }
            if hits@.contains(k as usize) {
                let m = choose|m: int| 0 <= m < hits@.len() && hits@[m] == k as usize;
                if m < before.len() {
                    assert(before[m] == k as usize);
                }
            }
        }
        i += 1;
    }
    hits
}

} // verus!
