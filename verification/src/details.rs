//! What is shown of an application before it is removed: the bundle, its
//! residual data, and what all of it weighs.

use vstd::prelude::*;
use crate::identity::{bundle_id_of, get_bundle_id, MetadataRead};
use crate::paths::{file_stem, stem_of};
use crate::size::{size_or_zero, FsNode};
use crate::text::optional_text;

verus! {

/// An installed application.
#[derive(Debug, PartialEq, Eq)]
pub struct AppInfo {
    pub name: String,
    pub path: String,
    pub size: u64,
    pub bundle_id: Option<String>,
}

/// What was found of one bundle on disk: its path, its tree and the read of
/// its metadata.
#[derive(Debug, PartialEq, Eq)]
pub struct BundleScan {
    pub path: String,
    pub tree: FsNode,
    pub metadata: MetadataRead,
}

/// A path that belongs to an application's residual data, and its size.
#[derive(Debug, PartialEq, Eq)]
pub struct ResidualEntry {
    pub path: String,
    pub size: u64,
}

/// An application chosen for removal, with its residual data and the size
/// of all that would be deleted.
#[derive(Debug, PartialEq, Eq)]
pub struct SelectedDetails {
    pub name: String,
    pub path: String,
    pub size: u64,
    pub bundle_id: Option<String>,
    pub related: Vec<ResidualEntry>,
    pub total_size: u64,
}

/// `info` says of a bundle what `scan` found: its stem as the name, its
/// path, the weight of its tree (nothing where it could not be read) and
/// its identifier.
pub open spec fn describes(info: AppInfo, scan: BundleScan) -> bool {
    &&& info.name@ == file_stem(scan.path@)
    &&& info.path@ == scan.path@
    &&& info.size == scan.tree.total()
    &&& optional_text(info.bundle_id) == bundle_id_of(scan.metadata)
}

/// The sum of the sizes of the entries.
pub open spec fn sizes_sum(entries: Seq<ResidualEntry>) -> nat
    decreases entries.len(),
{
    if entries.len() == 0 {
        0
    } else {
        sizes_sum(entries.drop_last()) + entries.last().size as nat
    }
}

/// The first entries never weigh more than all of them.
pub proof fn lemma_sizes_sum_grows(entries: Seq<ResidualEntry>, n: int)
    requires
        0 <= n <= entries.len(),
    ensures
        sizes_sum(entries.take(n)) <= sizes_sum(entries),
    decreases entries.len() - n,
{
    if n < entries.len() {
        lemma_sizes_sum_grows(entries, n + 1);
        assert(entries.take(n + 1).drop_last() =~= entries.take(n));
    } else {
        assert(entries.take(n) =~= entries);
    }
}

/// The installed applications, one for each bundle scanned and in the same
/// order.
pub fn get_installed_app_infos(scans: &Vec<BundleScan>) -> (r: Vec<AppInfo>)
    requires
        forall|i: int| 0 <= i < scans@.len() ==> (#[trigger] scans@[i]).tree.total() <= u64::MAX,
    ensures
        r@.len() == scans@.len(),
        forall|i: int| 0 <= i < r@.len() ==> describes(#[trigger] r@[i], scans@[i]),
{
    let mut infos: Vec<AppInfo> = Vec::new();
    let mut i: usize = 0;
    while i < scans.len()
        invariant
            i <= scans.len(),
            infos@.len() == i,
            forall|k: int| 0 <= k < scans@.len() ==> (#[trigger] scans@[k]).tree.total() <= u64::MAX,
            forall|k: int| 0 <= k < i ==> describes(#[trigger] infos@[k], scans@[k]),
        decreases scans.len() - i,
    {
        let scan = &scans[i];
        let info = AppInfo {
            name: stem_of(scan.path.as_str()),
            path: scan.path.clone(),
            size: size_or_zero(&scan.tree),
            bundle_id: get_bundle_id(&scan.metadata),
        };
        infos.push(info);
        i += 1;
    }
    infos
}

/// The size of the bundle and of all its residual data together, where
/// that sum can be written in 64 bits.
pub fn total_size(app_size: u64, related: &Vec<ResidualEntry>) -> (r: Option<u64>)
    ensures
        r == if app_size + sizes_sum(related@) <= u64::MAX {
            Some((app_size + sizes_sum(related@)) as u64)
        } else {
            None::<u64>
        },
{
    let mut total: u64 = app_size;
    let mut i: usize = 0;
    assert(related@.take(0) =~= Seq::empty());
    while i < related.len()
        invariant
            i <= related.len(),
            total == app_size + sizes_sum(related@.take(i as int)),
        decreases related.len() - i,
    {
        proof {
            assert(related@.take(i + 1).drop_last() =~= related@.take(i as int));
            lemma_sizes_sum_grows(related@, i + 1);
        }
        let size: u64 = related[i].size;
        if size > u64::MAX - total {
            return None;
        }
        total = total + size;
        i += 1;
    }
    assert(related@.take(i as int) =~= related@);
    Some(total)
}

/// The details of an application chosen for removal: what is known of the
/// application, its residual data as given, and the size of both together.
/// There are none where that size cannot be written in 64 bits.
pub fn select_app(app: &AppInfo, related: Vec<ResidualEntry>) -> (r: Option<SelectedDetails>)
    ensures
        (r is Some) == (app.size + sizes_sum(related@) <= u64::MAX),
        r is Some ==> {
            &&& r->0.name@ == app.name@
            &&& r->0.path@ == app.path@
            &&& r->0.size == app.size
            &&& optional_text(r->0.bundle_id) == optional_text(app.bundle_id)
            &&& r->0.related == related
            &&& r->0.total_size == app.size + sizes_sum(related@)
        },
{
    match total_size(app.size, &related) {
        Some(total) => {
            let bundle_id = match &app.bundle_id {
                Some(id) => Some(id.clone()),
                None => None,
            };
            Some(
                SelectedDetails {
                    name: app.name.clone(),
                    path: app.path.clone(),
                    size: app.size,
                    bundle_id,
                    related,
                    total_size: total,
                },
            )
        },
        None => None,
    }
}

} // verus!
