use vstd::prelude::*;

use crate::bytes::{bytes_eq, clone_bytes, paths_of, views_of};
use crate::naming::{policy_ok, ExtensionPolicy};
use crate::renamer::{
    apply_steps, dedup_names, files_after, files_before, plan_renames, renames_sequential,
    sources_of, spec_temp_dir, staged_steps_ok, steps_safe, targets_distinct, RenameOp, RenameStep,
};
use crate::timestamp::{draw_mtime, in_window, timestamp_policy_valid, TimestampPolicy};
use crate::tree::{
    all_file_paths, lemma_file_paths_nonempty, plan_flatten, removal_paths, DirTree, Subdir,
};

verus! {

/// One planned timestamp assignment: the file named `name` at the category
/// root receives modification time `time`.
pub struct MtimeOp {
    pub name: Vec<u8>,
    pub time: u64,
}

/// The full plan for one category directory, in execution order: relocate
/// every nested file to the category root, remove the drained
/// subdirectories, rename the collocated survivors to their sequence names
/// by running `steps` front to back (with `temp_dir` created first and
/// removed afterwards), then stamp each renamed file with a fresh
/// randomized time. `renames` is the logical assignment the steps realise.
pub struct CategoryPlan {
    pub name: Vec<u8>,
    pub moves: Vec<Vec<Vec<u8>>>,
    pub removals: Vec<Vec<Vec<u8>>>,
    pub temp_dir: Vec<u8>,
    pub renames: Vec<RenameOp>,
    pub steps: Vec<RenameStep>,
    pub mtimes: Vec<MtimeOp>,
}

/// The names the tree's files bear once collocated at the category root:
/// the final segment of each file path.
pub open spec fn collocated_names(t: DirTree) -> Seq<Seq<u8>> {
    all_file_paths(t).map_values(|p: Seq<Seq<u8>>| p.last())
}

/// What a correct plan for one category directory states, against the
/// snapshot `t` it was computed from.
pub open spec fn category_plan_ok(
    c: CategoryPlan,
    t: DirTree,
    p: ExtensionPolicy,
    ts: TimestampPolicy,
) -> bool {
    &&& paths_of(c.moves@) == all_file_paths(t)
    &&& paths_of(c.removals@) == removal_paths(t)
    &&& sources_of(c.renames@).no_duplicates()
    &&& (forall|x: Seq<u8>|
        sources_of(c.renames@).contains(x) <==> collocated_names(t).contains(x))
    &&& renames_sequential(c.renames@, p)
    &&& targets_distinct(c.renames@)
    &&& c.temp_dir@ == spec_temp_dir()
    &&& staged_steps_ok(c.steps@, c.renames@)
    &&& steps_safe(files_before(sources_of(c.renames@)), c.steps@, 0)
    &&& apply_steps(files_before(sources_of(c.renames@)), c.steps@, 0) == files_after(c.renames@)
    &&& c.mtimes@.len() == c.renames@.len()
    &&& (forall|k: int| 0 <= k < c.mtimes@.len() ==> c.mtimes@[k].name@ == c.renames@[k].to@)
    &&& (forall|k: int| 0 <= k < c.mtimes@.len() ==> in_window(ts, c.mtimes@[k].time))
}

/// Plans one category directory: flatten, shuffle-rename, re-stamp.
pub fn plan_category(
    name: &Vec<u8>,
    t: &DirTree,
    p: &ExtensionPolicy,
    ts: &TimestampPolicy,
) -> (r: CategoryPlan)
    requires
        policy_ok(*p),
        timestamp_policy_valid(*ts),
    ensures
        r.name@ == name@,
        category_plan_ok(r, *t, *p, *ts),
{
    let fp = plan_flatten(t);
    proof {
        lemma_file_paths_nonempty(*t);
    }
    let n: usize = fp.moves.len();
    let mut names: Vec<Vec<u8>> = Vec::new();
    let mut i: usize = 0;
    while i < n
        invariant
            n == fp.moves@.len(),
            0 <= i <= n,
            paths_of(fp.moves@) == all_file_paths(*t),
            forall|k: int| 0 <= k < all_file_paths(*t).len() ==> all_file_paths(*t)[k].len() >= 1,
            views_of(names@) =~= collocated_names(*t).take(i as int),
        decreases n - i,
    {
        let path = &fp.moves[i];
        proof {
            assert(paths_of(fp.moves@).len() == fp.moves@.len());
            assert(collocated_names(*t).len() == all_file_paths(*t).len());
            assert(paths_of(fp.moves@)[i as int] == views_of(path@));
            assert(views_of(path@).len() == path@.len());
            assert(all_file_paths(*t)[i as int].len() >= 1);
            assert(views_of(names@).len() == names@.len());
            assert(collocated_names(*t).take(i as int).len() == i);
            assert(names@.len() == i);
        }
        let last = path.len() - 1;
        names.push(clone_bytes(&path[last]));
        proof {
            assert(views_of(names@).len() == i + 1);
            assert(views_of(names@)[i as int] == names@[i as int]@);
            assert(views_of(path@)[last as int] == all_file_paths(*t)[i as int].last());
            assert(names@[i as int]@ == path@[last as int]@);
            assert(collocated_names(*t)[i as int] == all_file_paths(*t)[i as int].last());
            assert(views_of(names@) =~= collocated_names(*t).take(i + 1));
        }
        i = i + 1;
    }
    proof {
        assert(collocated_names(*t).take(n as int) =~= collocated_names(*t));
    }
    let survivors = dedup_names(&names);
    let rp = plan_renames(survivors, p);
    let renames = rp.renames;
    proof {
        broadcast use vstd::seq_lib::group_to_multiset_ensures;

        assert(views_of(names@) == collocated_names(*t));
        assert forall|x: Seq<u8>| sources_of(renames@).contains(x) <==> collocated_names(
            *t,
        ).contains(x) by {
            assert(sources_of(renames@).contains(x) <==> sources_of(
                renames@,
            ).to_multiset().count(x) > 0);
        }
    }
    let rn: usize = renames.len();
    let mut mtimes: Vec<MtimeOp> = Vec::new();
    let mut k: usize = 0;
    while k < rn
        invariant
            rn == renames@.len(),
            0 <= k <= rn,
            timestamp_policy_valid(*ts),
            mtimes@.len() == k,
            forall|m: int| 0 <= m < k ==> mtimes@[m].name@ == renames@[m].to@,
            forall|m: int| 0 <= m < k ==> in_window(*ts, mtimes@[m].time),
        decreases rn - k,
    {
        let stamp_name = clone_bytes(&renames[k].to);
        let time = draw_mtime(ts);
        mtimes.push(MtimeOp { name: stamp_name, time });
        k = k + 1;
    }
    CategoryPlan {
        name: clone_bytes(name),
        moves: fp.moves,
        removals: fp.removals,
        temp_dir: rp.temp_dir,
        renames,
        steps: rp.steps,
        mtimes,
    }
}

/// Membership of a directory name in the category allow-list.
pub open spec fn allowed(allow: Seq<Seq<u8>>, name: Seq<u8>) -> bool {
    exists|i: int| 0 <= i < allow.len() && allow[i] == name
}

/// Whether `name` stands in the allow-list.
pub fn name_allowed(allow: &Vec<Vec<u8>>, name: &Vec<u8>) -> (r: bool)
    ensures
        r == allowed(views_of(allow@), name@),
{
    let n: usize = allow.len();
    let mut i: usize = 0;
    while i < n
        invariant
            n == allow@.len(),
            0 <= i <= n,
            forall|j: int| 0 <= j < i ==> views_of(allow@)[j] != name@,
        decreases n - i,
    {
        if bytes_eq(&allow[i], name) {
            proof {
                assert(views_of(allow@)[i as int] == name@);
            }
            return true;
        }
        proof {
            assert(views_of(allow@)[i as int] == allow@[i as int]@);
        }
        i = i + 1;
    }
    false
}

/// The subdirectories of the root whose names stand in the allow-list,
/// from position `i` on, in order: the category directories a pass works
/// on.
pub open spec fn selected_subdirs(s: Seq<Subdir>, allow: Seq<Seq<u8>>, i: int) -> Seq<Subdir>
    decreases s.len() - i,
{
    if i < 0 || i >= s.len() {
        Seq::<Subdir>::empty()
    } else if allowed(allow, s[i].name@) {
        seq![s[i]] + selected_subdirs(s, allow, i + 1)
    } else {
        selected_subdirs(s, allow, i + 1)
    }
}

/// Plans one full pass: one category plan for each immediate subdirectory
/// of the root whose name stands in the allow-list, in directory order.
/// Other entries of the root, files among them, are left untouched.
pub fn plan_run(
    root: &DirTree,
    allow: &Vec<Vec<u8>>,
    p: &ExtensionPolicy,
    ts: &TimestampPolicy,
) -> (r: Vec<CategoryPlan>)
    requires
        policy_ok(*p),
        timestamp_policy_valid(*ts),
    ensures
        r@.len() == selected_subdirs(root.subdirs@, views_of(allow@), 0).len(),
        forall|k: int|
            0 <= k < r@.len() ==> r@[k].name@ == selected_subdirs(
                root.subdirs@,
                views_of(allow@),
                0,
            )[k].name@,
        forall|k: int|
            0 <= k < r@.len() ==> category_plan_ok(
                r@[k],
                selected_subdirs(root.subdirs@, views_of(allow@), 0)[k].tree,
                *p,
                *ts,
            ),
{
    let ghost s = root.subdirs@;
    let ghost a = views_of(allow@);
    let ghost sel = selected_subdirs(s, a, 0);
    let ns: usize = root.subdirs.len();
    let mut r: Vec<CategoryPlan> = Vec::new();
    let mut d: usize = 0;
    while d < ns
        invariant
            ns == root.subdirs@.len(),
            0 <= d <= ns,
            s == root.subdirs@,
            a == views_of(allow@),
            sel == selected_subdirs(s, a, 0),
            policy_ok(*p),
            timestamp_policy_valid(*ts),
            r@.len() <= sel.len(),
            sel.skip(r@.len() as int) =~= selected_subdirs(s, a, d as int),
            forall|k: int| 0 <= k < r@.len() ==> r@[k].name@ == sel[k].name@,
            forall|k: int| 0 <= k < r@.len() ==> category_plan_ok(r@[k], sel[k].tree, *p, *ts),
        decreases ns - d,
    {
        let sub = &root.subdirs[d];
        if name_allowed(allow, &sub.name) {
            let ghost oldlen = r@.len() as int;
            proof {
                assert(selected_subdirs(s, a, d as int) == seq![s[d as int]] + selected_subdirs(
                    s,
                    a,
                    d + 1,
                ));
                assert(selected_subdirs(s, a, d as int).len() >= 1);
                assert(sel.skip(oldlen).len() == sel.len() - oldlen);
                assert(oldlen < sel.len());
                assert(sel.skip(oldlen)[0] == s[d as int]);
                assert(sel[oldlen] == s[d as int]);
            }
            let plan = plan_category(&sub.name, &sub.tree, p, ts);
            r.push(plan);
            proof {
                assert(sel.skip(oldlen + 1).len() == selected_subdirs(s, a, d + 1).len());
                assert(forall|m: int|
                    0 <= m < sel.skip(oldlen + 1).len() ==> #[trigger] sel.skip(oldlen + 1)[m]
                        == sel.skip(oldlen)[m + 1]);
                assert(sel.skip(oldlen + 1) =~= selected_subdirs(s, a, d + 1));
            }
        } else {
            proof {
                assert(selected_subdirs(s, a, d as int) == selected_subdirs(s, a, d + 1));
            }
        }
        d = d + 1;
    }
    proof {
        assert(selected_subdirs(s, a, ns as int) =~= Seq::<Subdir>::empty());
        assert(sel.skip(r@.len() as int).len() == 0);
        assert(r@.len() == sel.len());
    }
    r
}

} // verus!
