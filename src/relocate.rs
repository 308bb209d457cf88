//! Which files move where when duplicates are relocated, and how the
//! outcomes of the moves are reported.
//!
//! The first path of each group stays; every other path moves into the
//! destination folder under its own file name.

use vstd::prelude::*;
use crate::detect::DuplicateGroup;

verus! {

broadcast use vstd::seq::group_seq_axioms;

/// The last component of a path, where it names a file or directory.
pub uninterp spec fn file_name_of(path: Seq<char>) -> Option<Seq<char>>;

/// `name` appended to the directory path `dir`.
pub uninterp spec fn joined_path(dir: Seq<char>, name: Seq<char>) -> Seq<char>;

/// Relies on `std::path::Path::file_name`: the last component of the path,
/// `None` where the path ends in `..` or is a root.
#[verifier::external_body]
fn file_name(path: &str) -> (r: Option<String>)
    ensures
        match r {
            Some(n) => file_name_of(path@) == Some(n@),
            None => file_name_of(path@) is None,
        },
{
    std::path::Path::new(path).file_name().map(|n| n.to_string_lossy().into_owned())
}

/// Relies on `std::path::Path::join`: `name` appended to `dir`.
#[verifier::external_body]
fn join_path(dir: &str, name: &str) -> (r: String)
    ensures
        r@ == joined_path(dir@, name@),
{
    std::path::Path::new(dir).join(name).to_string_lossy().into_owned()
}

/// One move: a duplicate and the path it goes to; no target where the
/// duplicate's path has no file name.
#[derive(Debug, Clone)]
pub struct Relocation {
    pub source: String,
    pub target: Option<String>,
}

impl Relocation {
    pub open spec fn view_pair(&self) -> (Seq<char>, Option<Seq<char>>) {
        (
            self.source@,
            match self.target {
                Some(t) => Some(t@),
                None => None,
            },
        )
    }
}

/// The first move that failed.
#[derive(Debug, Clone)]
pub struct RelocationError {
    pub source: String,
}

/// Where the file at `path` goes in the folder `dest`.
pub open spec fn move_target(dest: Seq<char>, path: Seq<char>) -> Option<Seq<char>> {
    match file_name_of(path) {
        Some(n) => Some(joined_path(dest, n)),
        None => None,
    }
}

/// The moves of one group: all its paths but the first.
pub open spec fn group_moves(paths: Seq<Seq<char>>, dest: Seq<char>) -> Seq<
    (Seq<char>, Option<Seq<char>>),
> {
    if paths.len() <= 1 {
        Seq::empty()
    } else {
        paths.subrange(1, paths.len() as int).map_values(
            |p: Seq<char>| (p, move_target(dest, p)),
        )
    }
}

/// The moves of all groups, group after group.
pub open spec fn planned_moves(groups: Seq<Seq<Seq<char>>>, dest: Seq<char>) -> Seq<
    (Seq<char>, Option<Seq<char>>),
>
    decreases groups.len(),
{
    if groups.len() == 0 {
        Seq::empty()
    } else {
        planned_moves(groups.drop_last(), dest) + group_moves(groups.last(), dest)
    }
}

pub open spec fn groups_view(groups: Seq<DuplicateGroup>) -> Seq<Seq<Seq<char>>> {
    groups.map_values(|g: DuplicateGroup| g.path_views())
}

pub open spec fn plan_view(plan: Seq<Relocation>) -> Seq<(Seq<char>, Option<Seq<char>>)> {
    plan.map_values(|m: Relocation| m.view_pair())
}

/// The moves that relocate the duplicates of `groups` into `dest`.
pub fn plan_relocation(groups: &Vec<DuplicateGroup>, dest: &str) -> (r: Vec<Relocation>)
    ensures
        plan_view(r@) == planned_moves(groups_view(groups@), dest@),
{
    let mut out: Vec<Relocation> = Vec::new();
    let mut i: usize = 0;
    assert(groups_view(groups@).subrange(0, 0) =~= Seq::<Seq<Seq<char>>>::empty());
    while i < groups.len()
        invariant
            i <= groups.len(),
            plan_view(out@) == planned_moves(groups_view(groups@).subrange(0, i as int), dest@),
        decreases groups.len() - i,
    {
        let paths = &groups[i].paths;
        let ghost pv = groups@[i as int].path_views();
        let ghost start = plan_view(out@);
        if paths.len() > 1 {
            let mut k: usize = 1;
            proof {
                lemma_group_moves_prefix(pv, dest@, 1);
            }
            assert(plan_view(out@) =~= start + group_moves(pv.subrange(0, 1), dest@));
            while k < paths.len()
                invariant
                    1 <= k <= paths.len(),
                    paths == &groups@[i as int].paths,
                    pv == groups@[i as int].path_views(),
                    plan_view(out@) == start + group_moves(pv.subrange(0, k as int), dest@),
                decreases paths.len() - k,
            {
                let source = paths[k].clone();
                let target = match file_name(source.as_str()) {
                    Some(n) => Some(join_path(dest, n.as_str())),
                    None => None,
                };
                let m = Relocation { source, target };
                assert(m.view_pair() == (pv[k as int], move_target(dest@, pv[k as int])));
                let ghost before = plan_view(out@);
                out.push(m);
                assert(plan_view(out@) =~= before.push(m.view_pair()));
                proof {
                    lemma_group_moves_prefix(pv, dest@, k as int);
                    lemma_group_moves_prefix(pv, dest@, k + 1);
                }
                assert(group_moves(pv.subrange(0, k + 1), dest@) =~= group_moves(
                    pv.subrange(0, k as int),
                    dest@,
                ).push((pv[k as int], move_target(dest@, pv[k as int]))));
                assert(plan_view(out@) =~= start + group_moves(pv.subrange(0, k + 1), dest@));
                k += 1;
            }
            assert(pv.subrange(0, paths.len() as int) =~= pv);
        } else {
            assert(plan_view(out@) =~= start + group_moves(pv, dest@));
        }
        assert(groups_view(groups@).subrange(0, i + 1).drop_last() =~= groups_view(
            groups@,
        ).subrange(0, i as int));
        i += 1;
    }
    assert(groups_view(groups@).subrange(0, groups.len() as int) =~= groups_view(groups@));
    out
}

proof fn lemma_group_moves_prefix(pv: Seq<Seq<char>>, dest: Seq<char>, k: int)
    requires
        1 <= k <= pv.len(),
    ensures
        group_moves(pv.subrange(0, k), dest) =~= pv.subrange(1, k).map_values(
            |p: Seq<char>| (p, move_target(dest, p)),
        ),
{
    assert(pv.subrange(0, k).subrange(1, k) =~= pv.subrange(1, k));
}

/// The result of a relocation once every move has finished: success when
/// all moves succeeded, else the first move of the plan that failed.
pub fn relocation_outcome(plan: &Vec<Relocation>, succeeded: &Vec<bool>) -> (r: Result<
    (),
    RelocationError,
>)
    requires
        plan.len() == succeeded.len(),
    ensures
        match r {
            Ok(()) => forall|i: int| 0 <= i < succeeded.len() ==> #[trigger] succeeded@[i],
            Err(e) => exists|i: int|
                0 <= i < succeeded.len() && !succeeded@[i] && e.source@ == plan@[i].source@ && (
                forall|j: int| 0 <= j < i ==> #[trigger] succeeded@[j]),
        },
{
    let mut i: usize = 0;
    while i < succeeded.len()
        invariant
            i <= succeeded.len(),
            plan.len() == succeeded.len(),
            forall|j: int| 0 <= j < i ==> #[trigger] succeeded@[j],
        decreases succeeded.len() - i,
    {
        if !succeeded[i] {
            return Err(RelocationError { source: plan[i].source.clone() });
        }
        i += 1;
    }
    Ok(())
}

/// Relocating a group of paths leaves its first path in place and moves
/// each of the others, in order, to its file name under the destination;
/// a group of `n` paths gives `n - 1` moves.
pub proof fn lemma_relocation_keeps_first(paths: Seq<Seq<char>>, dest: Seq<char>)
    requires
        paths.len() >= 1,
        forall|i: int, j: int| 0 <= i < j < paths.len() ==> paths[i] != paths[j],
    ensures
        planned_moves(seq![paths], dest).len() == paths.len() - 1,
        forall|i: int|
            0 <= i < paths.len() - 1 ==> #[trigger] planned_moves(seq![paths], dest)[i] == (
                paths[i + 1],
                move_target(dest, paths[i + 1]),
            ),
        forall|i: int|
            0 <= i < paths.len() - 1 ==> #[trigger] planned_moves(seq![paths], dest)[i].0
                != paths[0],
{
    let g = seq![paths];
    assert(g.drop_last() =~= Seq::<Seq<Seq<char>>>::empty());
    assert(g.last() == paths);
    assert(planned_moves(g.drop_last(), dest) =~= Seq::empty());
    assert(planned_moves(g, dest) =~= group_moves(paths, dest));
    assert forall|i: int| 0 <= i < paths.len() - 1 implies #[trigger] planned_moves(
        seq![paths],
        dest,
    )[i].0 != paths[0] by {
        assert(planned_moves(seq![paths], dest)[i].0 == paths[i + 1]);
    }
}

} // verus!
