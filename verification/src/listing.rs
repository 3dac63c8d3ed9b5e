//! What a directory was found to hold when it was read, and the paths of
//! the entries that are picked from such listings.

use vstd::prelude::*;
use crate::paths::{joined, last_index_of};
use crate::text::texts;

verus! {

/// A directory and the names of its entries, in the order in which the
/// file system gave them. A directory that is missing or cannot be read has
/// no entries.
#[derive(Debug, PartialEq, Eq)]
pub struct DirListing {
    pub dir: String,
    pub entries: Vec<String>,
}

/// A listing as a mathematical value.
pub struct ListingView {
    pub dir: Seq<char>,
    pub entries: Seq<Seq<char>>,
}

impl View for DirListing {
    type V = ListingView;

    open spec fn view(&self) -> ListingView {
        ListingView { dir: self.dir@, entries: texts(self.entries@) }
    }
}

/// The listings that a sequence of records holds.
pub open spec fn listing_views(v: Seq<DirListing>) -> Seq<ListingView> {
    Seq::new(v.len(), |i: int| v[i]@)
}

/// The paths of the entries of one directory that `keep` accepts, in the
/// order of the listing. `keep` is asked with the directory and the name.
pub open spec fn kept_paths(
    dir: Seq<char>,
    entries: Seq<Seq<char>>,
    keep: spec_fn(Seq<char>, Seq<char>) -> bool,
) -> Seq<Seq<char>>
    decreases entries.len(),
{
    if entries.len() == 0 {
        Seq::empty()
    } else {
        let before = kept_paths(dir, entries.drop_last(), keep);
        if keep(dir, entries.last()) {
            before.push(joined(dir, entries.last()))
        } else {
            before
        }
    }
}

/// The paths of the entries that `keep` accepts, directory by directory in
/// the order given, the entries of each in the order of its listing.
pub open spec fn all_kept_paths(
    listings: Seq<ListingView>,
    keep: spec_fn(Seq<char>, Seq<char>) -> bool,
) -> Seq<Seq<char>>
    decreases listings.len(),
{
    if listings.len() == 0 {
        Seq::empty()
    } else {
        all_kept_paths(listings.drop_last(), keep) + kept_paths(
            listings.last().dir,
            listings.last().entries,
            keep,
        )
    }
}

/// `path` is the path of an entry of one of the listings that `keep`
/// accepts.
pub open spec fn is_kept(
    path: Seq<char>,
    listings: Seq<ListingView>,
    keep: spec_fn(Seq<char>, Seq<char>) -> bool,
) -> bool {
    exists|i: int, j: int|
        0 <= i < listings.len() && 0 <= j < listings[i].entries.len() && keep(
            listings[i].dir,
            #[trigger] listings[i].entries[j],
        ) && path == joined(listings[i].dir, listings[i].entries[j])
}

/// A name of one component: it holds no slash.
pub open spec fn is_component(name: Seq<char>) -> bool {
    !name.contains('/')
}

/// Listings as a file system gives them: every name is one component, no
/// directory holds a name twice, and no directory is listed twice.
pub open spec fn well_formed(listings: Seq<ListingView>) -> bool {
    &&& forall|i: int, j: int|
        0 <= i < listings.len() && 0 <= j < listings[i].entries.len() ==> is_component(
            #[trigger] listings[i].entries[j],
        )
    &&& forall|i: int| 0 <= i < listings.len() ==> (#[trigger] listings[i]).entries.no_duplicates()
    &&& forall|i: int, k: int|
        0 <= i < k < listings.len() ==> (#[trigger] listings[i]).dir != (#[trigger] listings[k]).dir
}

/// The paths kept of one directory are the paths of its entries that `keep`
/// accepts.
pub proof fn lemma_kept_paths_members(
    dir: Seq<char>,
    entries: Seq<Seq<char>>,
    keep: spec_fn(Seq<char>, Seq<char>) -> bool,
    path: Seq<char>,
)
    ensures
        kept_paths(dir, entries, keep).contains(path) <==> exists|j: int|
            0 <= j < entries.len() && keep(dir, #[trigger] entries[j]) && path == joined(
                dir,
                entries[j],
            ),
    decreases entries.len(),
{
    let kept = kept_paths(dir, entries, keep);
    if entries.len() > 0 {
        let rest = entries.drop_last();
        let before = kept_paths(dir, rest, keep);
        lemma_kept_paths_members(dir, rest, keep, path);
        if kept.contains(path) {
            let k = choose|k: int| 0 <= k < kept.len() && kept[k] == path;
            if k < before.len() {
                assert(before[k] == path);
                assert(before.contains(path));
                let j = choose|j: int|
                    0 <= j < rest.len() && keep(dir, #[trigger] rest[j]) && path == joined(
                        dir,
                        rest[j],
                    );
                assert(entries[j] == rest[j]);
            } else {
                assert(keep(dir, entries[entries.len() - 1]));
            }
        }
        if exists|j: int|
            0 <= j < entries.len() && keep(dir, #[trigger] entries[j]) && path == joined(
                dir,
                entries[j],
            ) {
            let j = choose|j: int|
                0 <= j < entries.len() && keep(dir, #[trigger] entries[j]) && path == joined(
                    dir,
                    entries[j],
                );
            if j < rest.len() {
                assert(rest[j] == entries[j]);
                assert(before.contains(path));
                let k = choose|k: int| 0 <= k < before.len() && before[k] == path;
                assert(kept[k] == path);
            } else {
                assert(kept[kept.len() - 1] == path);
            }
        }
    }
}

/// The paths kept of all the directories are the paths of the entries that
/// `keep` accepts.
pub proof fn lemma_all_kept_paths_members(
    listings: Seq<ListingView>,
    keep: spec_fn(Seq<char>, Seq<char>) -> bool,
    path: Seq<char>,
)
    ensures
        all_kept_paths(listings, keep).contains(path) <==> is_kept(path, listings, keep),
    decreases listings.len(),
{
    let kept = all_kept_paths(listings, keep);
    if listings.len() > 0 {
        let rest = listings.drop_last();
        let last = listings.last();
        let before = all_kept_paths(rest, keep);
        let here = kept_paths(last.dir, last.entries, keep);
        lemma_all_kept_paths_members(rest, keep, path);
        lemma_kept_paths_members(last.dir, last.entries, keep, path);
        if kept.contains(path) {
            let k = choose|k: int| 0 <= k < kept.len() && kept[k] == path;
            if k < before.len() {
                assert(before[k] == path);
                assert(before.contains(path));
                let (i, j) = choose|i: int, j: int|
                    0 <= i < rest.len() && 0 <= j < rest[i].entries.len() && keep(
                        rest[i].dir,
                        #[trigger] rest[i].entries[j],
                    ) && path == joined(rest[i].dir, rest[i].entries[j]);
                assert(listings[i] == rest[i]);
                assert(keep(listings[i].dir, listings[i].entries[j]));
            } else {
                assert(here[k - before.len()] == path);
                assert(here.contains(path));
                let j = choose|j: int|
                    0 <= j < last.entries.len() && keep(last.dir, #[trigger] last.entries[j])
                        && path == joined(last.dir, last.entries[j]);
                let i = listings.len() - 1;
                assert(listings[i] == last);
                assert(keep(listings[i].dir, listings[i].entries[j]));
            }
        }
        if is_kept(path, listings, keep) {
            let (i, j) = choose|i: int, j: int|
                0 <= i < listings.len() && 0 <= j < listings[i].entries.len() && keep(
                    listings[i].dir,
                    #[trigger] listings[i].entries[j],
                ) && path == joined(listings[i].dir, listings[i].entries[j]);
            if i < rest.len() {
                assert(rest[i] == listings[i]);
                assert(keep(rest[i].dir, rest[i].entries[j]));
                assert(before.contains(path));
                let k = choose|k: int| 0 <= k < before.len() && before[k] == path;
                assert(kept[k] == path);
            } else {
                assert(keep(last.dir, last.entries[j]));
                assert(here.contains(path));
                let k = choose|k: int| 0 <= k < here.len() && here[k] == path;
                assert(kept[before.len() + k] == path);
            }
        }
    }
}

/// The last slash of the path of an entry whose name is one component is
/// the one between the directory and the name.
pub proof fn lemma_joined_splits_at_last_slash(dir: Seq<char>, name: Seq<char>)
    requires
        is_component(name),
    ensures
        last_index_of(joined(dir, name), '/') == dir.len(),
    decreases name.len(),
{
    let path = joined(dir, name);
    if name.len() == 0 {
        assert(path.last() == '/');
    } else {
        let rest = name.drop_last();
        assert(path.last() == name.last());
        assert(name.contains(name.last()));
        assert(path.drop_last() =~= joined(dir, rest));
        assert forall|k: int| 0 <= k < rest.len() implies rest[k] != '/' by {
            assert(name.contains(name[k]));
        }
        lemma_joined_splits_at_last_slash(dir, rest);
    }
}

/// Two entries with the same path, both of one component, have the same
/// directory and the same name.
pub proof fn lemma_joined_is_injective(
    dir: Seq<char>,
    name: Seq<char>,
    other_dir: Seq<char>,
    other_name: Seq<char>,
)
    requires
        is_component(name),
        is_component(other_name),
        joined(dir, name) == joined(other_dir, other_name),
    ensures
        dir == other_dir,
        name == other_name,
{
    lemma_joined_splits_at_last_slash(dir, name);
    lemma_joined_splits_at_last_slash(other_dir, other_name);
    let path = joined(dir, name);
    assert(dir =~= path.take(dir.len() as int));
    assert(other_dir =~= path.take(dir.len() as int));
    assert(name =~= path.skip(dir.len() as int + 1));
    assert(other_name =~= path.skip(dir.len() as int + 1));
}

/// Of one directory whose names are of one component each and all
/// different, no path is kept twice.
pub proof fn lemma_kept_paths_distinct(
    dir: Seq<char>,
    entries: Seq<Seq<char>>,
    keep: spec_fn(Seq<char>, Seq<char>) -> bool,
)
    requires
        entries.no_duplicates(),
        forall|j: int| 0 <= j < entries.len() ==> is_component(#[trigger] entries[j]),
    ensures
        kept_paths(dir, entries, keep).no_duplicates(),
    decreases entries.len(),
{
    if entries.len() > 0 {
        let rest = entries.drop_last();
        let last = entries.last();
        let before = kept_paths(dir, rest, keep);
        assert forall|j: int| 0 <= j < rest.len() implies is_component(#[trigger] rest[j]) by {
            assert(rest[j] == entries[j]);
        }
        lemma_kept_paths_distinct(dir, rest, keep);
        if keep(dir, last) {
            let path = joined(dir, last);
            lemma_kept_paths_members(dir, rest, keep, path);
            if before.contains(path) {
                let j = choose|j: int|
                    0 <= j < rest.len() && keep(dir, #[trigger] rest[j]) && path == joined(
                        dir,
                        rest[j],
                    );
                assert(is_component(entries[j]));
                assert(is_component(entries[entries.len() - 1]));
                lemma_joined_is_injective(dir, last, dir, rest[j]);
                assert(entries[j] == entries[entries.len() - 1]);
            }
            assert forall|a: int, b: int|
                0 <= a < before.push(path).len() && 0 <= b < before.push(path).len() && a
                    != b implies before.push(path)[a] != before.push(path)[b] by {
                if a == before.len() {
                    assert(before.contains(before[b]));
                } else if b == before.len() {
                    assert(before.contains(before[a]));
                }
            }
        }
    }
}

/// Of listings as a file system gives them no path is kept twice.
pub proof fn lemma_all_kept_paths_distinct(
    listings: Seq<ListingView>,
    keep: spec_fn(Seq<char>, Seq<char>) -> bool,
)
    requires
        well_formed(listings),
    ensures
        all_kept_paths(listings, keep).no_duplicates(),
    decreases listings.len(),
{
    if listings.len() > 0 {
        let rest = listings.drop_last();
        let last = listings.last();
        let before = all_kept_paths(rest, keep);
        let here = kept_paths(last.dir, last.entries, keep);
        let n = listings.len() - 1;
        assert(well_formed(rest)) by {
            assert forall|i: int, j: int|
                0 <= i < rest.len() && 0 <= j < rest[i].entries.len() implies is_component(
                #[trigger] rest[i].entries[j],
            ) by {
                assert(rest[i] == listings[i]);
                assert(is_component(listings[i].entries[j]));
            }
            assert forall|i: int| 0 <= i < rest.len() implies (#[trigger] rest[i]).entries.no_duplicates() by {
                assert(rest[i] == listings[i]);
            }
            assert forall|i: int, k: int| 0 <= i < k < rest.len() implies (#[trigger] rest[i]).dir != (
            #[trigger] rest[k]).dir by {
                assert(rest[i] == listings[i] && rest[k] == listings[k]);
            }
        }
        lemma_all_kept_paths_distinct(rest, keep);
        assert(listings[n] == last);
        assert forall|j: int| 0 <= j < last.entries.len() implies is_component(
            #[trigger] last.entries[j],
        ) by {
            assert(is_component(listings[n].entries[j]));
        }
        lemma_kept_paths_distinct(last.dir, last.entries, keep);
        assert forall|a: int, b: int| 0 <= a < before.len() && 0 <= b < here.len() implies before[a]
            != here[b] by {
            let path = before[a];
            if path == here[b] {
                assert(before.contains(path));
                assert(here.contains(path));
                lemma_all_kept_paths_members(rest, keep, path);
                lemma_kept_paths_members(last.dir, last.entries, keep, path);
                let (i, j) = choose|i: int, j: int|
                    0 <= i < rest.len() && 0 <= j < rest[i].entries.len() && keep(
                        rest[i].dir,
                        #[trigger] rest[i].entries[j],
                    ) && path == joined(rest[i].dir, rest[i].entries[j]);
                let m = choose|m: int|
                    0 <= m < last.entries.len() && keep(last.dir, #[trigger] last.entries[m])
                        && path == joined(last.dir, last.entries[m]);
                assert(rest[i] == listings[i]);
                assert(is_component(listings[i].entries[j]));
                assert(is_component(listings[n].entries[m]));
                lemma_joined_is_injective(
                    rest[i].dir,
                    rest[i].entries[j],
                    last.dir,
                    last.entries[m],
                );
                assert(listings[i].dir != listings[n].dir);
            }
        }
        let all = before + here;
        assert forall|a: int, b: int| 0 <= a < all.len() && 0 <= b < all.len() && a != b implies all[a]
            != all[b] by {
            if a < before.len() && b >= before.len() {
                assert(all[a] == before[a] && all[b] == here[b - before.len()]);
            } else if b < before.len() && a >= before.len() {
                assert(all[b] == before[b] && all[a] == here[a - before.len()]);
            } else if a < before.len() {
                assert(all[a] == before[a] && all[b] == before[b]);
            } else {
                assert(all[a] == here[a - before.len()] && all[b] == here[b - before.len()]);
            }
        }
    }
}

} // verus!
