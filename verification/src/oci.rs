//! Choosing the manifest of an OCI image index for a platform.
//!
//! The index and any nested indexes are read outside the library; each
//! level reaches [`plan_index`] as the list of its descriptors, reduced to
//! what the choice reads (the media type's kind and the platform).
use vstd::prelude::*;

use crate::convert::Platform;
use crate::error::Error;

verus! {

/// What a descriptor's media type is, as far as manifest choice tells.
#[derive(Clone, Copy, Debug, PartialEq, Eq, Structural)]
pub enum MediaKind {
    /// An OCI image index or Docker manifest list.
    Index,
    /// An OCI image manifest or Docker v2 manifest.
    Manifest,
    /// Anything else.
    Other,
}

/// What manifest choice reads of an index entry.
pub struct DescriptorInfo {
    /// The kind of the entry's media type.
    pub kind: MediaKind,
    /// The entry's platform as `(os, architecture)`, if it names one.
    pub platform: Option<(String, String)>,
}

/// The entry `d` is for the platform `(os, arch)` (any variant).
pub open spec fn matches_platform(d: DescriptorInfo, os: Seq<char>, arch: Seq<char>) -> bool {
    match d.platform {
        Some(p) => p.0@ == os && p.1@ == arch,
        None => false,
    }
}

/// The first entry for the platform, as `ImageIndex::find_platform` with no
/// variant picks it.
pub open spec fn first_platform_match(ds: Seq<DescriptorInfo>, os: Seq<char>, arch: Seq<char>) -> Option<
    int,
>
    decreases ds.len(),
{
    if ds.len() == 0 {
        None
    } else {
        match first_platform_match(ds.drop_last(), os, arch) {
            Some(i) => Some(i),
            None => if matches_platform(ds.last(), os, arch) {
                Some(ds.len() - 1)
            } else {
                None
            },
        }
    }
}

proof fn lemma_first_match_bounds(ds: Seq<DescriptorInfo>, os: Seq<char>, arch: Seq<char>)
    ensures
        first_platform_match(ds, os, arch) matches Some(i) ==> 0 <= i < ds.len(),
    decreases ds.len(),
{
    if ds.len() > 0 {
        lemma_first_match_bounds(ds.drop_last(), os, arch);
    }
}

/// What to do with one level of an image index.
pub enum IndexPlan {
    /// Take entry `i` as the manifest.
    Take(usize),
    /// Entry `i` is a nested index for the platform: choose within it.
    Descend(usize),
    /// No entry names the platform: try the nested indexes at `nested`, in
    /// order, and take the first choice made within one; failing that, take
    /// entry `fallback` (the first manifest), or report that no manifest
    /// matches.
    Search { nested: Vec<usize>, fallback: Option<usize> },
}

/// The indexes of the entries of kind `k`, in order.
pub open spec fn kind_positions(ds: Seq<DescriptorInfo>, k: MediaKind) -> Seq<int>
    decreases ds.len(),
{
    if ds.len() == 0 {
        seq![]
    } else if ds.last().kind == k {
        kind_positions(ds.drop_last(), k).push(ds.len() - 1)
    } else {
        kind_positions(ds.drop_last(), k)
    }
}

/// The plan for one index level: a lone entry that is no index is taken;
/// else the first entry for the platform is taken (or descended into when
/// it is an index); else every nested index is searched, and the first
/// manifest is the fallback.
pub open spec fn plan_spec(ds: Seq<DescriptorInfo>, os: Seq<char>, arch: Seq<char>, plan: IndexPlan) -> bool {
    if ds.len() == 1 && ds[0].kind != MediaKind::Index {
        plan matches IndexPlan::Take(i) && i == 0
    } else {
        match first_platform_match(ds, os, arch) {
            Some(i) => if ds[i].kind == MediaKind::Index {
                plan matches IndexPlan::Descend(j) && j == i
            } else {
                plan matches IndexPlan::Take(j) && j == i
            },
            None => plan matches IndexPlan::Search { nested, fallback } && nested@.map_values(
                |x: usize| x as int,
            ) == kind_positions(ds, MediaKind::Index) && fallback == (if kind_positions(
                ds,
                MediaKind::Manifest,
            ).len() > 0 {
                Some(kind_positions(ds, MediaKind::Manifest)[0] as usize)
            } else {
                None::<usize>
            }),
        }
    }
}

/// Whether the descriptor names the platform.
fn descriptor_matches(d: &DescriptorInfo, os: &str, arch: &str) -> (b: bool)
    ensures
        b == matches_platform(*d, os@, arch@),
{
    match &d.platform {
        Some(p) => crate::text::str_eq(p.0.as_str(), os) && crate::text::str_eq(p.1.as_str(), arch),
        None => false,
    }
}

/// `ImageIndex::find_platform(arch, os, None)`: the first entry for the
/// platform.
pub fn find_platform(ds: &[DescriptorInfo], os: &str, arch: &str) -> (r: Option<usize>)
    ensures
        match first_platform_match(ds@, os@, arch@) {
            Some(i) => r == Some(i as usize),
            None => r is None,
        },
        r matches Some(i) ==> i < ds@.len(),
{
    let mut i: usize = 0;
    assert(ds@.take(0) =~= Seq::<DescriptorInfo>::empty());
    while i < ds.len()
        invariant
            i <= ds@.len(),
            first_platform_match(ds@.take(i as int), os@, arch@) is None,
        decreases ds.len() - i,
    {
        proof {
            assert(ds@.take(i + 1).drop_last() =~= ds@.take(i as int));
            assert(ds@.take(i + 1).last() == ds@[i as int]);
        }
        if descriptor_matches(&ds[i], os, arch) {
            proof {
                lemma_first_match_prefix(ds@, i + 1, os@, arch@);
            }
            return Some(i);
        }
        i = i + 1;
    }
    assert(ds@.take(ds@.len() as int) =~= ds@);
    None
}

/// A match found in a prefix is the first match of the whole list.
proof fn lemma_first_match_prefix(ds: Seq<DescriptorInfo>, n: int, os: Seq<char>, arch: Seq<char>)
    requires
        0 <= n <= ds.len(),
        first_platform_match(ds.take(n), os, arch) is Some,
    ensures
        first_platform_match(ds, os, arch) == first_platform_match(ds.take(n), os, arch),
    decreases ds.len() - n,
{
    if n < ds.len() {
        assert(ds.take(n + 1).drop_last() =~= ds.take(n));
        lemma_first_match_prefix(ds, n + 1, os, arch);
    } else {
        assert(ds.take(n) =~= ds);
    }
}

/// The positions of the entries of kind `k`, in order.
fn positions_of(ds: &[DescriptorInfo], k: MediaKind) -> (r: Vec<usize>)
    ensures
        r@.map_values(|x: usize| x as int) == kind_positions(ds@, k),
{
    let mut out: Vec<usize> = Vec::new();
    let mut i: usize = 0;
    assert(ds@.take(0) =~= Seq::<DescriptorInfo>::empty());
    while i < ds.len()
        invariant
            i <= ds@.len(),
            out@.map_values(|x: usize| x as int) == kind_positions(ds@.take(i as int), k),
        decreases ds.len() - i,
    {
        proof {
            assert(ds@.take(i + 1).drop_last() =~= ds@.take(i as int));
            assert(ds@.take(i + 1).last() == ds@[i as int]);
        }
        if ds[i].kind == k {
            let ghost before = out@;
            out.push(i);
            assert(out@.map_values(|x: usize| x as int) =~= before.map_values(|x: usize| x as int).push(
                i as int,
            ));
        }
        i = i + 1;
    }
    assert(ds@.take(ds@.len() as int) =~= ds@);
    out
}

/// Decide what to do with one level of an image index for `platform`.
pub fn plan_index(ds: &[DescriptorInfo], platform: &Platform) -> (plan: IndexPlan)
    ensures
        plan_spec(ds@, platform.os_view(), platform.arch_view(), plan),
{
    if ds.len() == 1 && ds[0].kind != MediaKind::Index {
        return IndexPlan::Take(0);
    }
    proof {
        lemma_first_match_bounds(ds@, platform.os_view(), platform.arch_view());
    }
    match find_platform(ds, platform.os(), platform.arch()) {
        Some(i) => if ds[i].kind == MediaKind::Index {
            IndexPlan::Descend(i)
        } else {
            IndexPlan::Take(i)
        },
        None => {
            let nested = positions_of(ds, MediaKind::Index);
            let manifests = positions_of(ds, MediaKind::Manifest);
            let ghost mp = kind_positions(ds@, MediaKind::Manifest);
            let fallback = if manifests.len() > 0 {
                assert(manifests@.map_values(|x: usize| x as int)[0] == manifests@[0] as int);
                assert(mp.len() > 0);
                assert(mp[0] as usize == manifests@[0]);
                Some(manifests[0])
            } else {
                assert(mp.len() == 0);
                None
            };
            IndexPlan::Search { nested, fallback }
        },
    }
}

/// An index entry is chosen for a platform exactly when both its
/// operating system and its architecture are the requested ones, and it is
/// the first such entry: the chosen entry names `(os, arch)`, no earlier
/// entry does, and where none is chosen no entry does.
pub proof fn law_chosen_entry_names_platform(ds: Seq<DescriptorInfo>, os: Seq<char>, arch: Seq<char>)
    ensures
        first_platform_match(ds, os, arch) matches Some(i) ==> {
            &&& 0 <= i < ds.len()
            &&& ds[i].platform matches Some(p) && p.0@ == os && p.1@ == arch
            &&& forall|j: int|
                0 <= j < i ==> !(#[trigger] ds[j].platform matches Some(q) && q.0@ == os && q.1@ == arch)
        },
        first_platform_match(ds, os, arch) is None ==> forall|j: int|
            0 <= j < ds.len() ==> !(#[trigger] ds[j].platform matches Some(q) && q.0@ == os && q.1@
                == arch),
    decreases ds.len(),
{
    if ds.len() > 0 {
        law_chosen_entry_names_platform(ds.drop_last(), os, arch);
        assert forall|j: int| 0 <= j < ds.len() - 1 implies #[trigger] ds[j] == ds.drop_last()[j] by {}
    }
}

/// The plan takes or descends into an entry for the platform whenever the
/// index is more than a lone manifest: a taken or descended entry names
/// exactly the requested operating system and architecture.
pub proof fn law_plan_follows_platform(ds: Seq<DescriptorInfo>, os: Seq<char>, arch: Seq<char>, plan: IndexPlan)
    requires
        plan_spec(ds, os, arch, plan),
        !(ds.len() == 1 && ds[0].kind != MediaKind::Index),
    ensures
        plan matches IndexPlan::Take(i) ==> ds[i as int].platform matches Some(p) && p.0@ == os && p.1@
            == arch,
        plan matches IndexPlan::Descend(i) ==> ds[i as int].platform matches Some(p) && p.0@ == os && p.1@
            == arch,
{
    law_chosen_entry_names_platform(ds, os, arch);
}

/// The error for a platform that no manifest of the image matches.
pub fn no_manifest_error(platform: &Platform) -> (e: Error)
    ensures
        e matches Error::NoManifest(m) && m@ == platform.os_view() + "/"@ + platform.arch_view(),
{
    let mut m = String::from_str(platform.os());
    m.append("/");
    m.append(platform.arch());
    Error::NoManifest(m)
}

} // verus!
