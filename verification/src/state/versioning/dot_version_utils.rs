//! Utility functions over contract state versions: ordering, ancestry,
//! ranges and upgrade compatibility.
use vstd::prelude::*;

use core::cmp::Ordering;

use crate::seq_util::{first_match, last_match, lemma_first_match_hit, lemma_first_match_skip};
use crate::state::dot_storage_layout::DotAddress;
use crate::state::versioning::{
    has_id, id_le, id_lt, refs_to, DotStateVersion, DotVersionManager, LayoutChange, LayoutChangeType,
    StateVersionId, UpgradeType,
};

verus! {

/// Compare two contract state versions: by logical version, then timestamp.
pub fn compare_versions(v1: StateVersionId, v2: StateVersionId) -> (r: Ordering)
    ensures
        (r == Ordering::Less) == id_lt(v1, v2),
        (r == Ordering::Equal) == (v1 == v2),
        (r == Ordering::Greater) == id_lt(v2, v1),
{
    if v1.logical_version < v2.logical_version {
        Ordering::Less
    } else if v1.logical_version > v2.logical_version {
        Ordering::Greater
    } else if v1.timestamp < v2.timestamp {
        Ordering::Less
    } else if v1.timestamp > v2.timestamp {
        Ordering::Greater
    } else {
        Ordering::Equal
    }
}

/// Check if version v1 is newer than v2
pub fn is_newer(v1: StateVersionId, v2: StateVersionId) -> (r: bool)
    ensures
        r == id_lt(v2, v1),
{
    v1.logical_version > v2.logical_version || (v1.logical_version == v2.logical_version && v1.timestamp
        > v2.timestamp)
}

/// Calculate the time difference between versions
pub fn version_time_diff(v1: StateVersionId, v2: StateVersionId) -> (r: u64)
    ensures
        r == (if v1.timestamp >= v2.timestamp {
            v1.timestamp - v2.timestamp
        } else {
            v2.timestamp - v1.timestamp
        }),
{
    if v1.timestamp >= v2.timestamp {
        v1.timestamp - v2.timestamp
    } else {
        v2.timestamp - v1.timestamp
    }
}

/// The chain of version identifiers from `v` back through its parents, as
/// far as the parents are found in `s` (each parent older than its child).
pub open spec fn version_chain(s: Seq<DotStateVersion>, v: DotStateVersion) -> Seq<StateVersionId>
    decreases v.version_id.logical_version,
{
    let rest = match v.parent_version {
        Some(p) => match last_match(s, has_id(p)) {
            Some(pv) => if pv.version_id.logical_version < v.version_id.logical_version {
                version_chain(s, pv)
            } else {
                Seq::empty()
            },
            None => Seq::empty(),
        },
        None => Seq::empty(),
    };
    seq![v.version_id] + rest
}

/// The chain starting at the version with identifier `vid`, empty when absent.
pub open spec fn chain_of(s: Seq<DotStateVersion>, vid: StateVersionId) -> Seq<StateVersionId> {
    match last_match(s, has_id(vid)) {
        Some(v) => version_chain(s, v),
        None => Seq::empty(),
    }
}

/// Whether an identifier occurs in `c`.
pub open spec fn in_chain(c: Seq<StateVersionId>) -> spec_fn(StateVersionId) -> bool {
    |id: StateVersionId| c.contains(id)
}

/// The first identifier of the chain of `v1` that is on the chain of `v2`.
pub open spec fn common_ancestor(s: Seq<DotStateVersion>, v1: StateVersionId, v2: StateVersionId) -> Option<
    StateVersionId,
> {
    first_match(chain_of(s, v1), in_chain(chain_of(s, v2)))
}

/// A chain starts at the version's own identifier, and the logical versions
/// along it strictly decrease.
proof fn lemma_chain_descends(s: Seq<DotStateVersion>, v: DotStateVersion)
    ensures
        version_chain(s, v).len() > 0,
        version_chain(s, v)[0] == v.version_id,
        forall|i: int, j: int|
            #![trigger version_chain(s, v)[i], version_chain(s, v)[j]]
            0 <= i < j < version_chain(s, v).len() ==> version_chain(s, v)[j].logical_version
                < version_chain(s, v)[i].logical_version,
    decreases v.version_id.logical_version,
{
    let c = version_chain(s, v);
    if let Some(p) = v.parent_version {
        if let Some(pv) = last_match(s, has_id(p)) {
            if pv.version_id.logical_version < v.version_id.logical_version {
                lemma_chain_descends(s, pv);
                let r = version_chain(s, pv);
                assert(c == seq![v.version_id] + r);
                assert forall|i: int, j: int| 0 <= i < j < c.len() implies #[trigger] c[j].logical_version
                    < #[trigger] c[i].logical_version by {
                    assert(c[j] == r[j - 1]);
                    if i == 0 {
                        if j - 1 > 0 {
                            assert(r[j - 1].logical_version < r[0].logical_version);
                        }
                    } else {
                        assert(c[i] == r[i - 1]);
                    }
                }
            }
        }
    }
}

/// The chain of an identifier, where it is present, starts at it and
/// descends.
proof fn lemma_chain_of_descends(s: Seq<DotStateVersion>, vid: StateVersionId)
    ensures
        chain_of(s, vid).len() > 0 ==> chain_of(s, vid)[0] == vid,
        forall|i: int, j: int|
            #![trigger chain_of(s, vid)[i], chain_of(s, vid)[j]]
            0 <= i < j < chain_of(s, vid).len() ==> chain_of(s, vid)[j].logical_version
                < chain_of(s, vid)[i].logical_version,
{
    if let Some(v) = last_match(s, has_id(vid)) {
        crate::seq_util::lemma_last_match_is_last(s, has_id(vid));
        lemma_chain_descends(s, v);
    }
}

/// The common ancestor of `v1` and `v2` lies on the chains of both, and no
/// identifier before it on the chain of `v1` lies on the chain of `v2`; there
/// is none exactly when the two chains share no identifier. A present version
/// is its own common ancestor with itself, and where `v2` is present and lies
/// on the chain of `v1`, the common ancestor is `v2`.
pub proof fn lemma_common_ancestor(s: Seq<DotStateVersion>, v1: StateVersionId, v2: StateVersionId)
    ensures
        common_ancestor(s, v1, v2) matches Some(a) ==> {
            &&& chain_of(s, v2).contains(a)
            &&& exists|k: int|
                0 <= k < chain_of(s, v1).len() && chain_of(s, v1)[k] == a && forall|i: int|
                    0 <= i < k ==> !chain_of(s, v2).contains(#[trigger] chain_of(s, v1)[i])
        },
        common_ancestor(s, v1, v2) is None ==> forall|i: int|
            0 <= i < chain_of(s, v1).len() ==> !chain_of(s, v2).contains(#[trigger] chain_of(s, v1)[i]),
        v1 == v2 && chain_of(s, v1).len() > 0 ==> common_ancestor(s, v1, v2) == Some(v1),
        chain_of(s, v2).len() > 0 && chain_of(s, v1).contains(v2) ==> common_ancestor(s, v1, v2) == Some(v2),
{
    let c1 = chain_of(s, v1);
    let c2 = chain_of(s, v2);
    let p = in_chain(c2);
    let k = crate::seq_util::lemma_first_match_is_first(c1, p);
    lemma_chain_of_descends(s, v1);
    lemma_chain_of_descends(s, v2);
    if c2.len() > 0 && c1.contains(v2) {
        let m = choose|m: int| 0 <= m < c1.len() && c1[m] == v2;
        assert(c2[0] == v2);
        assert(p(c1[m]));
        assert(k <= m);
        if k < m {
            assert(c1[m].logical_version < c1[k].logical_version);
            let j = choose|j: int| 0 <= j < c2.len() && c2[j] == c1[k];
            if j > 0 {
                assert(c2[j].logical_version < c2[0].logical_version);
            }
            assert(false);
        }
    }
    if v1 == v2 && c1.len() > 0 {
        assert(c1[0] == v1);
        assert(c1.contains(v2));
    }
}

/// Whether an identifier lies within `[start, end]`.
pub open spec fn id_between(start: StateVersionId, end: StateVersionId) -> spec_fn(DotStateVersion) -> bool {
    |v: DotStateVersion| id_le(start, v.version_id) && id_le(v.version_id, end)
}

/// Index of the version with identifier `vid`, as `last_match` picks it.
fn find_index(list: &Vec<&DotStateVersion>, vid: StateVersionId, s: Ghost<Seq<DotStateVersion>>) -> (r: Option<usize>)
    requires
        refs_to(list@, s@),
    ensures
        r is None ==> last_match(s@, has_id(vid)) is None,
        r is Some ==> r->0 < s@.len() && last_match(s@, has_id(vid)) == Some(s@[r->0 as int]),
{
    let mut i: usize = list.len();
    assert(s@.take(s@.len() as int) =~= s@);
    while i > 0
        invariant
            i <= s@.len(),
            refs_to(list@, s@),
            last_match(s@, has_id(vid)) == last_match(s@.take(i as int), has_id(vid)),
        decreases i,
    {
        proof {
            crate::seq_util::lemma_last_match_take(s@, i - 1, has_id(vid));
        }
        let v: &DotStateVersion = list[i - 1];
        assert(*v == s@[i - 1]);
        if v.version_id.logical_version == vid.logical_version && v.version_id.timestamp == vid.timestamp {
            return Some(i - 1);
        }
        i = i - 1;
    }
    assert(s@.take(0) =~= Seq::<DotStateVersion>::empty());
    None
}

/// Build the version chain from a version back to the root.
fn build_version_chain(start: usize, list: &Vec<&DotStateVersion>, s: Ghost<Seq<DotStateVersion>>) -> (r: Vec<
    StateVersionId,
>)
    requires
        refs_to(list@, s@),
        start < s@.len(),
    ensures
        r@ == version_chain(s@, s@[start as int]),
{
    let mut chain: Vec<StateVersionId> = Vec::new();
    let mut cur: usize = start;
    loop
        invariant
            refs_to(list@, s@),
            cur < s@.len(),
            version_chain(s@, s@[start as int]) == chain@ + version_chain(s@, s@[cur as int]),
        decreases s@[cur as int].version_id.logical_version,
    {
        let v: &DotStateVersion = list[cur];
        assert(*v == s@[cur as int]);
        let ghost old_chain = chain@;
        chain.push(v.version_id);
        let next = match v.parent_version {
            Some(p) => match find_index(list, p, s) {
                Some(j) => if list[j].version_id.logical_version < v.version_id.logical_version {
                    Some(j)
                } else {
                    None
                },
                None => None,
            },
            None => None,
        };
        match next {
            Some(j) => {
                assert(version_chain(s@, s@[cur as int]) =~= seq![s@[cur as int].version_id] + version_chain(
                    s@,
                    s@[j as int],
                ));
                assert(old_chain + version_chain(s@, s@[cur as int]) =~= chain@ + version_chain(s@, s@[j as int]));
                cur = j;
            },
            None => {
                assert(version_chain(s@, s@[cur as int]) =~= seq![s@[cur as int].version_id]);
                assert(old_chain + version_chain(s@, s@[cur as int]) =~= chain@);
                assert(chain@ + Seq::<StateVersionId>::empty() =~= chain@);
                return chain;
            },
        }
    }
}

/// The chain of the version with identifier `vid`, empty when absent.
fn chain_for(list: &Vec<&DotStateVersion>, vid: StateVersionId, s: Ghost<Seq<DotStateVersion>>) -> (r: Vec<StateVersionId>)
    requires
        refs_to(list@, s@),
    ensures
        r@ == chain_of(s@, vid),
{
    match find_index(list, vid, s) {
        Some(i) => build_version_chain(i, list, s),
        None => Vec::new(),
    }
}

/// Find the common ancestor version between two versions: the first version
/// on the parent chain of `v1` that is also on the parent chain of `v2`.
pub fn find_common_ancestor(
    v1: StateVersionId,
    v2: StateVersionId,
    dot_address: DotAddress,
    manager: &DotVersionManager,
) -> (r: Option<StateVersionId>)
    requires
        manager.inv(),
    ensures
        r == common_ancestor(manager.dot_versions(dot_address@), v1, v2),
{
    let versions = manager.get_all_versions(dot_address);
    let ghost s = manager.dot_versions(dot_address@);
    let v1_chain = chain_for(&versions, v1, Ghost(s));
    let v2_chain = chain_for(&versions, v2, Ghost(s));
    let ghost p = in_chain(v2_chain@);
    let mut i: usize = 0;
    assert(v1_chain@.subrange(0, v1_chain@.len() as int) =~= v1_chain@);
    while i < v1_chain.len()
        invariant
            i <= v1_chain@.len(),
            p == in_chain(v2_chain@),
            s == manager.dot_versions(dot_address@),
            v1_chain@ == chain_of(s, v1),
            v2_chain@ == chain_of(s, v2),
            first_match(v1_chain@, p) == first_match(v1_chain@.subrange(i as int, v1_chain@.len() as int), p),
        decreases v1_chain@.len() - i,
    {
        let a = v1_chain[i];
        let mut found = false;
        let mut j: usize = 0;
        while j < v2_chain.len()
            invariant
                j <= v2_chain@.len(),
                found == (exists|k: int| 0 <= k < j && v2_chain@[k] == a),
            decreases v2_chain@.len() - j,
        {
            if v2_chain[j].logical_version == a.logical_version && v2_chain[j].timestamp == a.timestamp {
                found = true;
            }
            j = j + 1;
        }
        assert(found == v2_chain@.contains(a));
        if found {
            proof {
                lemma_first_match_hit(v1_chain@, i as int, p);
            }
            return Some(a);
        }
        proof {
            lemma_first_match_skip(v1_chain@, i as int, p);
        }
        i = i + 1;
    }
    None
}

/// Get the identifiers of the versions between two versions, both included.
pub fn get_versions_between(
    start: StateVersionId,
    end: StateVersionId,
    dot_address: DotAddress,
    manager: &DotVersionManager,
) -> (r: Vec<StateVersionId>)
    requires
        manager.inv(),
    ensures
        r@ == manager.dot_versions(dot_address@).filter(id_between(start, end)).map_values(
            |v: DotStateVersion| v.version_id,
        ),
{
    let versions = manager.get_all_versions(dot_address);
    let ghost s = manager.dot_versions(dot_address@);
    let ghost p = id_between(start, end);
    let mut r: Vec<StateVersionId> = Vec::new();
    let mut i: usize = 0;
    while i < versions.len()
        invariant
            i <= s.len(),
            refs_to(versions@, s),
            p == id_between(start, end),
            r@ == s.take(i as int).filter(p).map_values(|v: DotStateVersion| v.version_id),
        decreases s.len() - i,
    {
        proof {
            crate::seq_util::lemma_filter_take(s, i as int, p);
        }
        let v: &DotStateVersion = versions[i];
        assert(*v == s[i as int]);
        let id = v.version_id;
        let after_start = start.logical_version < id.logical_version || (start.logical_version == id.logical_version
            && start.timestamp <= id.timestamp);
        let before_end = id.logical_version < end.logical_version || (id.logical_version == end.logical_version
            && id.timestamp <= end.timestamp);
        assert((after_start && before_end) == p(s[i as int]));
        if after_start && before_end {
            r.push(id);
            assert(r@ =~= s.take(i + 1).filter(p).map_values(|v: DotStateVersion| v.version_id));
        } else {
            assert(r@ =~= s.take(i + 1).filter(p).map_values(|v: DotStateVersion| v.version_id));
        }
        i = i + 1;
    }
    assert(s.take(s.len() as int) =~= s);
    r
}

/// Whether a layout change breaks compatibility.
pub open spec fn is_breaking_change(c: LayoutChange) -> bool {
    c.change_type == LayoutChangeType::Removed || c.change_type == LayoutChangeType::TypeChanged
}

/// Whether moving to `to_version` is compatible: plain versions, minor
/// upgrades and security patches are; major upgrades are when no layout
/// change removes a variable or changes its type; storage migrations and
/// replacements never are.
pub open spec fn upgrade_compatible(to_version: DotStateVersion) -> bool {
    match to_version.upgrade_info {
        None => true,
        Some(info) => match info.upgrade_type {
            UpgradeType::Minor => true,
            UpgradeType::SecurityPatch => true,
            UpgradeType::Major => forall|i: int|
                0 <= i < info.layout_changes@.len() ==> !is_breaking_change(#[trigger] info.layout_changes@[i]),
            UpgradeType::StorageMigration => false,
            UpgradeType::Replacement => false,
        },
    }
}

/// Upgrade compatibility by upgrade type and layout changes: a version
/// without upgrade information, a minor upgrade and a security patch are
/// compatible; a storage migration and a replacement are not; a major
/// upgrade is not when one of its layout changes removes a variable or
/// changes a variable's type, and is when every change adds, moves or
/// renames a variable.
pub proof fn lemma_upgrade_compatibility(v: DotStateVersion)
    ensures
        v.upgrade_info is None ==> upgrade_compatible(v),
        v.upgrade_info matches Some(info) && (info.upgrade_type is Minor || info.upgrade_type is SecurityPatch)
            ==> upgrade_compatible(v),
        v.upgrade_info matches Some(info) && (info.upgrade_type is StorageMigration || info.upgrade_type is Replacement)
            ==> !upgrade_compatible(v),
        v.upgrade_info matches Some(info) && info.upgrade_type is Major && (exists|i: int|
            0 <= i < info.layout_changes@.len() && ((#[trigger] info.layout_changes@[i]).change_type is Removed
                || info.layout_changes@[i].change_type is TypeChanged)) ==> !upgrade_compatible(v),
        v.upgrade_info matches Some(info) && info.upgrade_type is Major && (forall|i: int|
            0 <= i < info.layout_changes@.len() ==> ((#[trigger] info.layout_changes@[i]).change_type is Added
                || info.layout_changes@[i].change_type is SlotChanged || info.layout_changes@[i].change_type is Renamed))
            ==> upgrade_compatible(v),
{
}

/// Check if an upgrade is compatible
pub fn is_upgrade_compatible(from_version: &DotStateVersion, to_version: &DotStateVersion) -> (r: bool)
    ensures
        r == upgrade_compatible(*to_version),
        to_version.upgrade_info matches Some(info) && info.upgrade_type is Major && (exists|i: int|
            0 <= i < info.layout_changes@.len() && ((#[trigger] info.layout_changes@[i]).change_type is Removed
                || info.layout_changes@[i].change_type is TypeChanged)) ==> !r,
        to_version.upgrade_info matches Some(info) && info.upgrade_type is Major && (forall|i: int|
            0 <= i < info.layout_changes@.len() ==> ((#[trigger] info.layout_changes@[i]).change_type is Added
                || info.layout_changes@[i].change_type is SlotChanged || info.layout_changes@[i].change_type is Renamed))
            ==> r,
{
    proof {
        lemma_upgrade_compatibility(*to_version);
    }
    match &to_version.upgrade_info {
        None => true,
        Some(info) => match info.upgrade_type {
            UpgradeType::Minor => true,
            UpgradeType::SecurityPatch => true,
            UpgradeType::Major => {
                let changes = &info.layout_changes;
                let mut i: usize = 0;
                while i < changes.len()
                    invariant
                        i <= changes@.len(),
                        to_version.upgrade_info is Some,
                        to_version.upgrade_info->0.upgrade_type == UpgradeType::Major,
                        changes@ == to_version.upgrade_info->0.layout_changes@,
                        forall|k: int| 0 <= k < i ==> !is_breaking_change(#[trigger] changes@[k]),
                    decreases changes@.len() - i,
                {
                    match changes[i].change_type {
                        LayoutChangeType::Removed => {
                            assert(is_breaking_change(changes@[i as int]));
                            return false;
                        },
                        LayoutChangeType::TypeChanged => {
                            assert(is_breaking_change(changes@[i as int]));
                            return false;
                        },
                        _ => {},
                    }
                    i = i + 1;
                }
                true
            },
            UpgradeType::StorageMigration => false,
            UpgradeType::Replacement => false,
        },
    }
}

} // verus!
