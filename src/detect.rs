//! Grouping the stored records by content digest.

use vstd::prelude::*;
use crate::record::{EntryView, FileEntry, decode_entry};

verus! {

broadcast use vstd::seq::group_seq_axioms;

/// The paths of the files that share one content digest.
#[derive(Debug, Clone)]
pub struct DuplicateGroup {
    pub hash: String,
    pub paths: Vec<String>,
}

impl DuplicateGroup {
    /// The paths of the group, as sequences of characters.
    pub open spec fn path_views(&self) -> Seq<Seq<char>> {
        self.paths@.map_values(|p: String| p@)
    }
}

/// The stored values as byte sequences.
pub open spec fn values_view(values: Seq<Vec<u8>>) -> Seq<Seq<u8>> {
    values.map_values(|v: Vec<u8>| v@)
}

/// The readable records among the stored values, in their order; malformed
/// values are left out.
pub open spec fn decoded(values: Seq<Seq<u8>>) -> Seq<EntryView>
    decreases values.len(),
{
    if values.len() == 0 {
        Seq::empty()
    } else {
        let r = decoded(values.drop_last());
        match decode_entry(values.last()) {
            Some(e) => r.push(e),
            None => r,
        }
    }
}

/// The paths of the records whose digest is `h`, in their order.
pub open spec fn paths_with_hash(entries: Seq<EntryView>, h: Seq<char>) -> Seq<Seq<char>>
    decreases entries.len(),
{
    if entries.len() == 0 {
        Seq::empty()
    } else {
        let r = paths_with_hash(entries.drop_last(), h);
        if entries.last().hash == h {
            r.push(entries.last().path)
        } else {
            r
        }
    }
}

/// Every group holds all paths with its digest, and there are two or more.
pub open spec fn groups_exact(groups: Seq<DuplicateGroup>, entries: Seq<EntryView>) -> bool {
    forall|x: int|
        0 <= x < groups.len() ==> (#[trigger] groups[x]).path_views() == paths_with_hash(
            entries,
            groups[x].hash@,
        ) && groups[x].paths.len() >= 2
}

/// No digest has two groups.
pub open spec fn hashes_distinct(groups: Seq<DuplicateGroup>) -> bool {
    forall|x: int, y: int|
        0 <= x < y < groups.len() ==> (#[trigger] groups[x]).hash@ != (#[trigger] groups[y]).hash@
}

/// Every digest that two or more records share has a group.
pub open spec fn groups_complete(groups: Seq<DuplicateGroup>, entries: Seq<EntryView>) -> bool {
    forall|e: EntryView|
        #[trigger] entries.contains(e) && paths_with_hash(entries, e.hash).len() >= 2 ==> exists|
            x: int,
        |
            0 <= x < groups.len() && (#[trigger] groups[x]).hash@ == e.hash
}

/// Groups the paths of the readable stored records by digest and keeps the
/// digests that two or more records share. Malformed values are skipped.
pub fn find_duplicates(values: &Vec<Vec<u8>>) -> (r: Vec<DuplicateGroup>)
    ensures
        groups_exact(r@, decoded(values_view(values@))),
        hashes_distinct(r@),
        groups_complete(r@, decoded(values_view(values@))),
{
    let ghost vals = values_view(values@);
    let mut groups: Vec<DuplicateGroup> = Vec::new();
    let mut i: usize = 0;
    assert(vals.subrange(0, 0) =~= Seq::<Seq<u8>>::empty());
    while i < values.len()
        invariant
            i <= values.len(),
            vals == values_view(values@),
            forall|x: int|
                0 <= x < groups.len() ==> (#[trigger] groups@[x]).path_views() == paths_with_hash(
                    decoded(vals.subrange(0, i as int)),
                    groups@[x].hash@,
                ),
            hashes_distinct(groups@),
            forall|e: EntryView|
                #[trigger] decoded(vals.subrange(0, i as int)).contains(e) ==> exists|x: int|
                    0 <= x < groups.len() && (#[trigger] groups@[x]).hash@ == e.hash,
        decreases values.len() - i,
    {
        let ghost before = decoded(vals.subrange(0, i as int));
        assert(vals.subrange(0, i + 1).drop_last() =~= vals.subrange(0, i as int));
        assert(vals.subrange(0, i + 1).last() == values@[i as int]@);
        match FileEntry::from_bytes(values[i].as_slice()) {
            None => {},
            Some(e) => {
                let ghost after = before.push(e@);
                assert(decoded(vals.subrange(0, i + 1)) == after);
                assert forall|h: Seq<char>|
                    #[trigger] paths_with_hash(after, h) == if e.hash@ == h {
                        paths_with_hash(before, h).push(e.path@)
                    } else {
                        paths_with_hash(before, h)
                    } by {
                    assert(after.drop_last() =~= before);
                }
                let mut j: usize = 0;
                let mut found = false;
                while j < groups.len() && !found
                    invariant
                        j <= groups.len(),
                        found ==> j < groups.len() && groups@[j as int].hash@ == e.hash@,
                        !found ==> forall|x: int| 0 <= x < j ==> (#[trigger] groups@[x]).hash@ != e.hash@,
                    decreases (groups.len() - j) * 2 + if found { 0int } else { 1int },
                {
                    if groups[j].hash == e.hash {
                        found = true;
                    } else {
                        j += 1;
                    }
                }
                let ghost old_groups = groups@;
                if found {
                    let mut g = groups.remove(j);
                    let ghost old_paths = g.path_views();
                    g.paths.push(e.path);
                    assert(g.path_views() =~= old_paths.push(e@.path));
                    groups.insert(j, g);
                    assert(groups@ =~= old_groups.update(j as int, g));
                    assert forall|x: int|
                        0 <= x < groups.len() implies (#[trigger] groups@[x]).path_views()
                        == paths_with_hash(after, groups@[x].hash@) by {
                        if x != j {
                            assert(groups@[x] == old_groups[x]);
                        }
                    }
                    assert forall|ee: EntryView| #[trigger] after.contains(ee) implies exists|x: int|
                        0 <= x < groups.len() && (#[trigger] groups@[x]).hash@ == ee.hash by {
                        if ee != e@ {
                            let k = choose|k: int| 0 <= k < after.len() && after[k] == ee;
                            assert(before[k] == ee);
                            assert(before.contains(ee));
                            let x = choose|x: int| 0 <= x < old_groups.len() && (#[trigger] old_groups[x]).hash@ == ee.hash;
                            assert(groups@[x].hash@ == ee.hash);
                        } else {
                            assert(groups@[j as int].hash@ == ee.hash);
                        }
                    }
                } else {
                    let mut paths: Vec<String> = Vec::new();
                    let ghost hash_view = e.hash@;
                    let ghost path_view = e.path@;
                    paths.push(e.path);
                    let g = DuplicateGroup { hash: e.hash, paths };
                    assert(paths_with_hash(before, hash_view) =~= Seq::<Seq<char>>::empty()) by {
                        if paths_with_hash(before, hash_view).len() > 0 {
                            lemma_has_path_has_entry(before, hash_view);
                            let k = choose|k: int| 0 <= k < before.len() && before[k].hash == hash_view;
                            assert(before.contains(before[k]));
                            let x = choose|x: int| 0 <= x < old_groups.len() && (#[trigger] old_groups[x]).hash@ == before[k].hash;
                            assert(old_groups[x].hash@ != hash_view);
                        }
                    }
                    assert(g.path_views() =~= seq![path_view]);
                    groups.push(g);
                    assert forall|x: int|
                        0 <= x < groups.len() implies (#[trigger] groups@[x]).path_views()
                        == paths_with_hash(after, groups@[x].hash@) by {
                        if x < old_groups.len() {
                            assert(groups@[x] == old_groups[x]);
                        }
                    }
                    assert forall|ee: EntryView| #[trigger] after.contains(ee) implies exists|x: int|
                        0 <= x < groups.len() && (#[trigger] groups@[x]).hash@ == ee.hash by {
                        if ee != e@ {
                            let k = choose|k: int| 0 <= k < after.len() && after[k] == ee;
                            assert(before[k] == ee);
                            assert(before.contains(ee));
                            let x = choose|x: int| 0 <= x < old_groups.len() && (#[trigger] old_groups[x]).hash@ == ee.hash;
                            assert(groups@[x].hash@ == ee.hash);
                        } else {
                            assert(groups@[old_groups.len() as int].hash@ == ee.hash);
                        }
                    }
                }
            },
        }
        i += 1;
    }
    assert(vals.subrange(0, values.len() as int) =~= vals);
    let ghost entries = decoded(vals);
    let ghost all = groups@;
    assert forall|e: EntryView| #[trigger] entries.contains(e) implies exists|k: int|
        0 <= k < all.len() && (#[trigger] all[k]).hash@ == e.hash by {
        assert(decoded(vals.subrange(0, values.len() as int)).contains(e));
    }
    let mut result: Vec<DuplicateGroup> = Vec::new();
    while groups.len() > 0
        invariant
            groups.len() <= all.len(),
            groups@ == all.subrange(0, groups.len() as int),
            forall|e: EntryView|
                #[trigger] entries.contains(e) ==> exists|k: int|
                    0 <= k < all.len() && (#[trigger] all[k]).hash@ == e.hash,
            forall|x: int|
                0 <= x < all.len() ==> (#[trigger] all[x]).path_views() == paths_with_hash(
                    entries,
                    all[x].hash@,
                ),
            hashes_distinct(all),
            groups_exact(result@, entries),
            hashes_distinct(result@),
            forall|x: int|
                0 <= x < result.len() ==> exists|k: int|
                    groups.len() <= k < all.len() && (#[trigger] all[k]).hash@ == (#[trigger] result@[x]).hash@,
            forall|k: int|
                groups.len() <= k < all.len() && (#[trigger] all[k]).paths.len() >= 2 ==> exists|x: int|
                    0 <= x < result.len() && (#[trigger] result@[x]).hash@ == all[k].hash@,
        decreases groups.len(),
    {
        let ghost n = groups.len() as int;
        let g = groups.pop().unwrap();
        assert(g == all[n - 1]);
        assert(groups@ =~= all.subrange(0, n - 1));
        if g.paths.len() >= 2 {
            let ghost old_result = result@;
            assert forall|x: int| 0 <= x < old_result.len() implies old_result[x].hash@ != g.hash@ by {
                let k = choose|k: int| n <= k < all.len() && (#[trigger] all[k]).hash@ == (#[trigger] old_result[x]).hash@;
                assert(all[n - 1].hash@ != all[k].hash@);
            }
            result.push(g);
            assert forall|x: int|
                0 <= x < result.len() implies exists|k: int|
                    groups.len() <= k < all.len() && (#[trigger] all[k]).hash@ == (#[trigger] result@[x]).hash@ by {
                if x < old_result.len() {
                    assert(result@[x] == old_result[x]);
                    let k = choose|k: int| n <= k < all.len() && (#[trigger] all[k]).hash@ == (#[trigger] old_result[x]).hash@;
                    assert(all[k].hash@ == result@[x].hash@);
                } else {
                    assert(all[n - 1].hash@ == result@[x].hash@);
                }
            }
            assert forall|k: int|
                groups.len() <= k < all.len() && (#[trigger] all[k]).paths.len() >= 2 implies exists|x: int|
                    0 <= x < result.len() && (#[trigger] result@[x]).hash@ == all[k].hash@ by {
                if k >= n {
                    let x = choose|x: int| 0 <= x < old_result.len() && (#[trigger] old_result[x]).hash@ == all[k].hash@;
                    assert(result@[x] == old_result[x]);
                } else {
                    assert(result@[old_result.len() as int].hash@ == all[k].hash@);
                }
            }
        }
    }
    assert forall|e: EntryView|
        #[trigger] entries.contains(e) && paths_with_hash(entries, e.hash).len() >= 2 implies exists|
            x: int,
        | 0 <= x < result.len() && (#[trigger] result@[x]).hash@ == e.hash by {
        let k = choose|k: int| 0 <= k < all.len() && (#[trigger] all[k]).hash@ == e.hash;
        assert(all[k].path_views().len() == all[k].paths.len());
        assert(all[k].paths.len() >= 2);
    }
    result
}

proof fn lemma_has_path_has_entry(entries: Seq<EntryView>, h: Seq<char>)
    requires
        paths_with_hash(entries, h).len() > 0,
    ensures
        exists|k: int| 0 <= k < entries.len() && entries[k].hash == h,
    decreases entries.len(),
{
    if entries.last().hash != h {
        lemma_has_path_has_entry(entries.drop_last(), h);
        let k = choose|k: int| 0 <= k < entries.drop_last().len() && entries.drop_last()[k].hash == h;
        assert(entries[k] == entries.drop_last()[k]);
    } else {
        assert(entries[entries.len() - 1].hash == h);
    }
}

} // verus!
