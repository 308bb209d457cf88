//! What a scan does to the index, and the laws that follow from the cache
//! decision and the keys.
//!
//! The index is a map from keys to stored bytes. A scan goes through the
//! walk's tasks, a path with its modification time each; `content` gives
//! the digest that hashing a path yields. The workers hand tasks out in any
//! order, and tasks on different keys touch different entries, so the order
//! of one walk is as good as any.

use vstd::prelude::*;
use crate::record::{EntryView, decode_entry, encode_entry, lemma_entry_round_trip, storable};
use crate::index::{cache_hit, key_of, lemma_key_injective};

verus! {

/// What the index holds under `k`.
pub open spec fn lookup(store: Map<Seq<u8>, Seq<u8>>, k: Seq<u8>) -> Option<Seq<u8>> {
    if store.dom().contains(k) {
        Some(store[k])
    } else {
        None
    }
}

/// One task: on a cache hit the index stays as it is; otherwise the file's
/// fresh record is written under its key.
pub open spec fn apply_task(
    store: Map<Seq<u8>, Seq<u8>>,
    path: Seq<char>,
    mtime: u64,
    digest: Seq<char>,
) -> Map<Seq<u8>, Seq<u8>> {
    if cache_hit(lookup(store, key_of(path)), mtime) {
        store
    } else {
        store.insert(key_of(path), encode_entry(EntryView { path, hash: digest, mtime }))
    }
}

/// The index after the tasks, taken in the given order.
pub open spec fn run_scan(
    store: Map<Seq<u8>, Seq<u8>>,
    tasks: Seq<(Seq<char>, u64)>,
    content: spec_fn(Seq<char>) -> Seq<char>,
) -> Map<Seq<u8>, Seq<u8>>
    decreases tasks.len(),
{
    if tasks.len() == 0 {
        store
    } else {
        let t = tasks.last();
        apply_task(run_scan(store, tasks.drop_last(), content), t.0, t.1, content(t.0))
    }
}

/// How many of the tasks hash their file.
pub open spec fn rehash_count(
    store: Map<Seq<u8>, Seq<u8>>,
    tasks: Seq<(Seq<char>, u64)>,
    content: spec_fn(Seq<char>) -> Seq<char>,
) -> nat
    decreases tasks.len(),
{
    if tasks.len() == 0 {
        0
    } else {
        let t = tasks.last();
        let before = run_scan(store, tasks.drop_last(), content);
        rehash_count(store, tasks.drop_last(), content) + if cache_hit(
            lookup(before, key_of(t.0)),
            t.1,
        ) {
            0nat
        } else {
            1nat
        }
    }
}

/// No path occurs in two tasks, as in one walk of a tree.
pub open spec fn distinct_paths(tasks: Seq<(Seq<char>, u64)>) -> bool {
    forall|i: int, j: int| 0 <= i < j < tasks.len() ==> #[trigger] tasks[i].0 != #[trigger] tasks[j].0
}

/// Every path, and the digest of every file, can be stored.
pub open spec fn storable_tasks(
    tasks: Seq<(Seq<char>, u64)>,
    content: spec_fn(Seq<char>) -> Seq<char>,
) -> bool {
    forall|i: int|
        0 <= i < tasks.len() ==> storable(#[trigger] tasks[i].0) && storable(content(tasks[i].0))
}

proof fn lemma_scan_hits(
    store: Map<Seq<u8>, Seq<u8>>,
    tasks: Seq<(Seq<char>, u64)>,
    content: spec_fn(Seq<char>) -> Seq<char>,
)
    requires
        distinct_paths(tasks),
        storable_tasks(tasks, content),
    ensures
        forall|i: int|
            0 <= i < tasks.len() ==> cache_hit(
                lookup(run_scan(store, tasks, content), key_of(#[trigger] tasks[i].0)),
                tasks[i].1,
            ),
    decreases tasks.len(),
{
    if tasks.len() > 0 {
        let prev = tasks.drop_last();
        let t = tasks.last();
        assert forall|i: int, j: int| 0 <= i < j < prev.len() implies prev[i].0 != prev[j].0 by {
            assert(prev[i] == tasks[i] && prev[j] == tasks[j]);
        }
        assert forall|i: int| 0 <= i < prev.len() implies storable(#[trigger] prev[i].0) && storable(
            content(prev[i].0),
        ) by {
            assert(prev[i] == tasks[i]);
        }
        lemma_scan_hits(store, prev, content);
        let s = run_scan(store, prev, content);
        assert(t == tasks[tasks.len() - 1]);
        if !cache_hit(lookup(s, key_of(t.0)), t.1) {
            lemma_entry_round_trip(EntryView { path: t.0, hash: content(t.0), mtime: t.1 });
        }
        assert forall|i: int| 0 <= i < tasks.len() implies cache_hit(
            lookup(run_scan(store, tasks, content), key_of(#[trigger] tasks[i].0)),
            tasks[i].1,
        ) by {
            if i < tasks.len() - 1 {
                assert(prev[i] == tasks[i]);
                lemma_key_injective(tasks[i].0, t.0);
            }
        }
    }
}

proof fn lemma_scan_of_hits(
    store: Map<Seq<u8>, Seq<u8>>,
    tasks: Seq<(Seq<char>, u64)>,
    content: spec_fn(Seq<char>) -> Seq<char>,
)
    requires
        forall|i: int|
            0 <= i < tasks.len() ==> cache_hit(
                lookup(store, key_of(#[trigger] tasks[i].0)),
                tasks[i].1,
            ),
    ensures
        run_scan(store, tasks, content) == store,
        rehash_count(store, tasks, content) == 0,
    decreases tasks.len(),
{
    if tasks.len() > 0 {
        let prev = tasks.drop_last();
        assert forall|i: int| 0 <= i < prev.len() implies cache_hit(
            lookup(store, key_of(#[trigger] prev[i].0)),
            prev[i].1,
        ) by {
            assert(prev[i] == tasks[i]);
        }
        lemma_scan_of_hits(store, prev, content);
        assert(tasks.last() == tasks[tasks.len() - 1]);
    }
}

/// A second scan of an unchanged tree hashes nothing and leaves every
/// record as the first scan wrote it.
pub proof fn lemma_rescan_idempotent(
    store: Map<Seq<u8>, Seq<u8>>,
    tasks: Seq<(Seq<char>, u64)>,
    content: spec_fn(Seq<char>) -> Seq<char>,
)
    requires
        distinct_paths(tasks),
        storable_tasks(tasks, content),
    ensures
        run_scan(run_scan(store, tasks, content), tasks, content) == run_scan(
            store,
            tasks,
            content,
        ),
        rehash_count(run_scan(store, tasks, content), tasks, content) == 0,
{
    lemma_scan_hits(store, tasks, content);
    lemma_scan_of_hits(run_scan(store, tasks, content), tasks, content);
}

/// A file whose modification time differs from the stored one (or that has
/// no readable record) gets a fresh record with the new digest; one whose
/// modification time is unchanged keeps its record, whatever its content
/// now is.
pub proof fn lemma_change_detection(
    store: Map<Seq<u8>, Seq<u8>>,
    path: Seq<char>,
    mtime: u64,
    digest: Seq<char>,
)
    requires
        storable(path),
        storable(digest),
    ensures
        !cache_hit(lookup(store, key_of(path)), mtime) ==> (lookup(
            apply_task(store, path, mtime, digest),
            key_of(path),
        ) matches Some(v) && decode_entry(v) == Some(EntryView { path, hash: digest, mtime })),
        cache_hit(lookup(store, key_of(path)), mtime) ==> apply_task(store, path, mtime, digest)
            == store,
{
    lemma_entry_round_trip(EntryView { path, hash: digest, mtime });
}

proof fn lemma_scan_at(
    store: Map<Seq<u8>, Seq<u8>>,
    tasks: Seq<(Seq<char>, u64)>,
    content: spec_fn(Seq<char>) -> Seq<char>,
    k: Seq<u8>,
)
    requires
        distinct_paths(tasks),
    ensures
        forall|t: (Seq<char>, u64)|
            tasks.contains(t) && key_of(t.0) == k ==> lookup(run_scan(store, tasks, content), k)
                == lookup(#[trigger] apply_task(store, t.0, t.1, content(t.0)), k),
        (forall|t: (Seq<char>, u64)| tasks.contains(t) ==> key_of(t.0) != k) ==> lookup(
            run_scan(store, tasks, content),
            k,
        ) == lookup(store, k),
    decreases tasks.len(),
{
    if tasks.len() > 0 {
        let prev = tasks.drop_last();
        let last = tasks.last();
        assert(last == tasks[tasks.len() - 1]);
        assert(tasks.contains(last));
        assert forall|i: int, j: int| 0 <= i < j < prev.len() implies prev[i].0 != prev[j].0 by {
            assert(prev[i] == tasks[i] && prev[j] == tasks[j]);
        }
        lemma_scan_at(store, prev, content, k);
        let s = run_scan(store, prev, content);
        if key_of(last.0) == k {
            // no earlier task writes under k
            assert forall|t: (Seq<char>, u64)| prev.contains(t) implies key_of(t.0) != k by {
                let i = choose|i: int| 0 <= i < prev.len() && prev[i] == t;
                assert(prev[i] == tasks[i]);
                lemma_key_injective(t.0, last.0);
            }
            assert forall|t: (Seq<char>, u64)|
                tasks.contains(t) && key_of(t.0) == k implies lookup(
                run_scan(store, tasks, content),
                k,
            ) == lookup(#[trigger] apply_task(store, t.0, t.1, content(t.0)), k) by {
                let i = choose|i: int| 0 <= i < tasks.len() && tasks[i] == t;
                lemma_key_injective(t.0, last.0);
                if i < tasks.len() - 1 {
                    assert(tasks[i].0 != tasks[tasks.len() - 1].0);
                }
            }
        } else {
            assert forall|t: (Seq<char>, u64)|
                tasks.contains(t) && key_of(t.0) == k implies lookup(
                run_scan(store, tasks, content),
                k,
            ) == lookup(#[trigger] apply_task(store, t.0, t.1, content(t.0)), k) by {
                let i = choose|i: int| 0 <= i < tasks.len() && tasks[i] == t;
                assert(i < tasks.len() - 1);
                assert(prev[i] == t);
            }
            if forall|t: (Seq<char>, u64)| tasks.contains(t) ==> key_of(t.0) != k {
                assert forall|t: (Seq<char>, u64)| prev.contains(t) implies key_of(t.0) != k by {
                    let i = choose|i: int| 0 <= i < prev.len() && prev[i] == t;
                    assert(tasks[i] == t);
                    assert(tasks.contains(t));
                }
            }
        }
    }
}

/// The index after a scan does not depend on the order in which the walk
/// listed the files: two listings of the same files give the same index.
pub proof fn lemma_scan_order_irrelevant(
    store: Map<Seq<u8>, Seq<u8>>,
    tasks1: Seq<(Seq<char>, u64)>,
    tasks2: Seq<(Seq<char>, u64)>,
    content: spec_fn(Seq<char>) -> Seq<char>,
)
    requires
        distinct_paths(tasks1),
        distinct_paths(tasks2),
        forall|t: (Seq<char>, u64)| tasks1.contains(t) <==> tasks2.contains(t),
    ensures
        run_scan(store, tasks1, content) == run_scan(store, tasks2, content),
{
    let m1 = run_scan(store, tasks1, content);
    let m2 = run_scan(store, tasks2, content);
    assert forall|k: Seq<u8>| lookup(m1, k) == lookup(m2, k) by {
        lemma_scan_at(store, tasks1, content, k);
        lemma_scan_at(store, tasks2, content, k);
        if exists|t: (Seq<char>, u64)| tasks1.contains(t) && key_of(t.0) == k {
            let t = choose|t: (Seq<char>, u64)| tasks1.contains(t) && key_of(t.0) == k;
            assert(lookup(m1, k) == lookup(apply_task(store, t.0, t.1, content(t.0)), k));
            assert(lookup(m2, k) == lookup(apply_task(store, t.0, t.1, content(t.0)), k));
        }
    }
    assert forall|k: Seq<u8>| #[trigger] m1.dom().contains(k) <==> m2.dom().contains(k) by {
        assert(lookup(m1, k) == lookup(m2, k));
    }
    assert forall|k: Seq<u8>| m1.dom().contains(k) implies m1[k] == m2[k] by {
        assert(lookup(m1, k) == lookup(m2, k));
    }
    assert(m1 =~= m2);
}

} // verus!
