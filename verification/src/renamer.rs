use vstd::prelude::*;

use crate::bytes::{bytes_eq, clone_bytes, views_of};
use crate::naming::{
    lemma_target_names_distinct, policy_ok, spec_target_name, target_name, ExtensionPolicy,
};
use crate::rng::shuffle_names;

verus! {

/// One planned rename inside a directory: the file now called `from` is to
/// be called `to`.
pub struct RenameOp {
    pub from: Vec<u8>,
    pub to: Vec<u8>,
}

/// One executable rename step inside a category directory, by paths
/// relative to its root. The staging steps pass through the `temp`
/// subdirectory, so a step never overwrites a file a later step still
/// needs.
pub struct RenameStep {
    pub from: Vec<Vec<u8>>,
    pub to: Vec<Vec<u8>>,
}

/// The shuffle-rename plan for one directory: the logical assignment in
/// `renames`, and the staged steps that realise it, to be executed front
/// to back with `temp_dir` created first and removed afterwards.
pub struct RenamePlan {
    pub temp_dir: Vec<u8>,
    pub renames: Vec<RenameOp>,
    pub steps: Vec<RenameStep>,
}

/// The original names of a rename list.
pub open spec fn sources_of(r: Seq<RenameOp>) -> Seq<Seq<u8>> {
    r.map_values(|op: RenameOp| op.from@)
}

/// A rename list is sequential under policy `p` when the file in position
/// `k` receives the name built from counter `k + 1` and its own extension.
pub open spec fn renames_sequential(r: Seq<RenameOp>, p: ExtensionPolicy) -> bool {
    forall|k: int|
        0 <= k < r.len() ==> r[k].to@ == spec_target_name((k + 1) as nat, r[k].from@, p)
}

/// No two renames share a source.
pub open spec fn sources_distinct(r: Seq<RenameOp>) -> bool {
    forall|k: int, l: int| 0 <= k < l < r.len() ==> r[k].from@ != r[l].from@
}

/// No two renames share a target.
pub open spec fn targets_distinct(r: Seq<RenameOp>) -> bool {
    forall|k: int, l: int| 0 <= k < l < r.len() ==> r[k].to@ != r[l].to@
}

/// The name of the staging directory.
pub open spec fn spec_temp_dir() -> Seq<u8> {
    seq![116u8, 101u8, 109u8, 112u8]
}

/// The view of one step's source path.
pub open spec fn step_from(s: RenameStep) -> Seq<Seq<u8>> {
    views_of(s.from@)
}

/// The view of one step's target path.
pub open spec fn step_to(s: RenameStep) -> Seq<Seq<u8>> {
    views_of(s.to@)
}

/// A step list stages each rename through the `temp` directory: step `k`
/// parks the file named `from` under its new name inside `temp`, and step
/// `n + k` brings it back to the root under that name.
pub open spec fn staged_steps_ok(s: Seq<RenameStep>, r: Seq<RenameOp>) -> bool {
    &&& s.len() == 2 * r.len()
    &&& (forall|k: int|
        #![trigger s[k]]
        0 <= k < r.len() ==> step_from(s[k]) == seq![r[k].from@] && step_to(s[k]) == seq![
            spec_temp_dir(),
            r[k].to@,
        ])
    &&& (forall|m: int|
        #![trigger s[m]]
        r.len() <= m < 2 * r.len() ==> step_from(s[m]) == seq![spec_temp_dir(), r[m - r.len()].to@]
            && step_to(s[m]) == seq![r[m - r.len()].to@])
}

/// The directory before the pass, as a map from path to the name the file
/// bore at the start: the model on which rename safety is stated.
pub open spec fn files_before(names: Seq<Seq<u8>>) -> Map<Seq<Seq<u8>>, Seq<u8>> {
    Map::new(
        |p: Seq<Seq<u8>>| exists|k: int| 0 <= k < names.len() && p == seq![names[k]],
        |p: Seq<Seq<u8>>| p[0],
    )
}

/// The directory after the pass: each assigned name holds the file that
/// bore the matching source name.
pub open spec fn files_after(r: Seq<RenameOp>) -> Map<Seq<Seq<u8>>, Seq<u8>> {
    Map::new(
        |p: Seq<Seq<u8>>| exists|k: int| 0 <= k < r.len() && p == seq![r[k].to@],
        |p: Seq<Seq<u8>>| r[choose|k: int| 0 <= k < r.len() && r[k].to@ == p[0]].from@,
    )
}

/// One rename applied to the model: the file at `from` now stands at `to`.
pub open spec fn apply_step(
    m: Map<Seq<Seq<u8>>, Seq<u8>>,
    from: Seq<Seq<u8>>,
    to: Seq<Seq<u8>>,
) -> Map<Seq<Seq<u8>>, Seq<u8>> {
    m.remove(from).insert(to, m[from])
}

/// The model after executing the steps from position `i` on, in order.
pub open spec fn apply_steps(
    m: Map<Seq<Seq<u8>>, Seq<u8>>,
    s: Seq<RenameStep>,
    i: int,
) -> Map<Seq<Seq<u8>>, Seq<u8>>
    decreases s.len() - i,
{
    if i < 0 || i >= s.len() {
        m
    } else {
        apply_steps(apply_step(m, step_from(s[i]), step_to(s[i])), s, i + 1)
    }
}

/// Executing the steps from position `i` on is safe: every step finds its
/// source present and its target name free, so no rename ever unlinks a
/// file a later rename still needs.
pub open spec fn steps_safe(m: Map<Seq<Seq<u8>>, Seq<u8>>, s: Seq<RenameStep>, i: int) -> bool
    decreases s.len() - i,
{
    if i < 0 || i >= s.len() {
        true
    } else {
        &&& m.dom().contains(step_from(s[i]))
        &&& !m.remove(step_from(s[i])).dom().contains(step_to(s[i]))
        &&& steps_safe(apply_step(m, step_from(s[i]), step_to(s[i])), s, i + 1)
    }
}

/// The model part-way through the staged pass: renames at `i` and beyond
/// still sit at the root under their source names, renames in `[j, i)` are
/// parked in `temp` under their target names, and renames before `j` stand
/// at the root under their target names.
spec fn mid_state(r: Seq<RenameOp>, i: int, j: int) -> Map<Seq<Seq<u8>>, Seq<u8>> {
    Map::new(
        |p: Seq<Seq<u8>>|
            (exists|k: int| i <= k < r.len() && p == seq![r[k].from@]) || (exists|k: int|
                j <= k < i && p == seq![spec_temp_dir(), r[k].to@]) || (exists|k: int|
                0 <= k < j && p == seq![r[k].to@]),
        |p: Seq<Seq<u8>>|
            if p.len() == 2 {
                r[choose|k: int| j <= k < i && r[k].to@ == p[1]].from@
            } else if exists|k: int| i <= k < r.len() && p == seq![r[k].from@] {
                p[0]
            } else {
                r[choose|k: int| 0 <= k < j && r[k].to@ == p[0]].from@
            },
    )
}

proof fn lemma_from_unique(r: Seq<RenameOp>, a: int, b: int)
    requires
        sources_distinct(r),
        0 <= a < r.len(),
        0 <= b < r.len(),
        r[a].from@ == r[b].from@,
    ensures
        a == b,
{
}

proof fn lemma_to_unique(r: Seq<RenameOp>, a: int, b: int)
    requires
        targets_distinct(r),
        0 <= a < r.len(),
        0 <= b < r.len(),
        r[a].to@ == r[b].to@,
    ensures
        a == b,
{
}

/// The staging phase, from rename `i` on, runs safely out of the state
/// where the first `i` renames are already parked, and ends in the final
/// state.
proof fn lemma_phase1(r: Seq<RenameOp>, s: Seq<RenameStep>, i: int)
    requires
        staged_steps_ok(s, r),
        sources_distinct(r),
        targets_distinct(r),
        0 <= i <= r.len(),
    ensures
        steps_safe(mid_state(r, i, 0), s, i),
        apply_steps(mid_state(r, i, 0), s, i) == files_after(r),
    decreases r.len() - i,
{
    let n = r.len() as int;
    if i < n {
        let m0 = mid_state(r, i, 0);
        let from_p = seq![r[i].from@];
        let to_p = seq![spec_temp_dir(), r[i].to@];
        assert(step_from(s[i]) == from_p && step_to(s[i]) == to_p);
        assert(m0.dom().contains(from_p)) by {
            assert(i <= i < r.len() && from_p == seq![r[i].from@]);
        }
        assert(!m0.dom().contains(to_p)) by {
            if m0.dom().contains(to_p) {
                if exists|k: int| i <= k < r.len() && to_p == seq![r[k].from@] {
                    let k = choose|k: int| i <= k < r.len() && to_p == seq![r[k].from@];
                    assert(to_p.len() == 2 && seq![r[k].from@].len() == 1);
                }
            }
        }
        assert(!m0.remove(from_p).dom().contains(to_p));
        let m1 = apply_step(m0, from_p, to_p);
        let m2 = mid_state(r, i + 1, 0);
        assert(m0[from_p] == r[i].from@) by {
            assert(from_p.len() == 1 && from_p[0] == r[i].from@);
        }
        assert forall|p: Seq<Seq<u8>>| #[trigger] m1.dom().contains(p) implies m2.dom().contains(
            p,
        ) && m1[p] == m2[p] by {
            if p == to_p {
                assert(m1[p] == r[i].from@);
                assert(m2.dom().contains(p)) by {
                    assert(0 <= i < i + 1 && p == seq![spec_temp_dir(), r[i].to@]);
                }
                assert(p.len() == 2 && p[1] == r[i].to@);
                let k = choose|k: int| 0 <= k < i + 1 && r[k].to@ == p[1];
                assert(r[i].to@ == p[1]);
                lemma_to_unique(r, k, i);
                assert(m2[p] == r[i].from@);
            } else {
                assert(m0.dom().contains(p) && p != from_p);
                assert(m1[p] == m0[p]);
                if exists|k: int| i <= k < r.len() && p == seq![r[k].from@] {
                    let k = choose|k: int| i <= k < r.len() && p == seq![r[k].from@];
                    assert(k != i) by {
                        if k == i {
                            assert(p == from_p);
                        }
                    }
                    assert(i + 1 <= k < r.len() && p == seq![r[k].from@]);
                    assert(m2.dom().contains(p));
                    assert(p.len() == 1 && p[0] == r[k].from@);
                    assert(m0[p] == p[0]);
                    assert(m2[p] == p[0]);
                } else if exists|k: int| 0 <= k < i && p == seq![spec_temp_dir(), r[k].to@] {
                    let k = choose|k: int| 0 <= k < i && p == seq![spec_temp_dir(), r[k].to@];
                    assert(0 <= k < i + 1 && p == seq![spec_temp_dir(), r[k].to@]);
                    assert(m2.dom().contains(p));
                    assert(p.len() == 2 && p[1] == r[k].to@);
                    let k0 = choose|k0: int| 0 <= k0 < i && r[k0].to@ == p[1];
                    let k2 = choose|k2: int| 0 <= k2 < i + 1 && r[k2].to@ == p[1];
                    lemma_to_unique(r, k0, k);
                    lemma_to_unique(r, k2, k);
                    assert(m0[p] == r[k].from@);
                    assert(m2[p] == r[k].from@);
                }
            }
        }
        assert forall|p: Seq<Seq<u8>>| #[trigger] m2.dom().contains(p) implies m1.dom().contains(
            p,
        ) by {
            if exists|k: int| i + 1 <= k < r.len() && p == seq![r[k].from@] {
                let k = choose|k: int| i + 1 <= k < r.len() && p == seq![r[k].from@];
                assert(m0.dom().contains(p));
                assert(p != from_p) by {
                    if p == from_p {
                        assert(r[k].from@ == p[0] && r[i].from@ == p[0]);
                        lemma_from_unique(r, k, i);
                    }
                }
            } else if exists|k: int| 0 <= k < i + 1 && p == seq![spec_temp_dir(), r[k].to@] {
                let k = choose|k: int| 0 <= k < i + 1 && p == seq![spec_temp_dir(), r[k].to@];
                if k == i {
                    assert(p == to_p);
                } else {
                    assert(m0.dom().contains(p));
                    assert(p != from_p) by {
                        assert(p.len() == 2 && from_p.len() == 1);
                    }
                }
            }
        }
        assert(m1 =~= m2);
        lemma_phase1(r, s, i + 1);
    } else {
        lemma_phase2(r, s, 0);
        assert(mid_state(r, n, 0) == mid_state(r, r.len() as int, 0));
    }
}

/// The unstaging phase, from rename `j` on, runs safely out of the state
/// where the first `j` renames already stand at the root under their new
/// names, and ends in the final state.
proof fn lemma_phase2(r: Seq<RenameOp>, s: Seq<RenameStep>, j: int)
    requires
        staged_steps_ok(s, r),
        sources_distinct(r),
        targets_distinct(r),
        0 <= j <= r.len(),
    ensures
        steps_safe(mid_state(r, r.len() as int, j), s, r.len() + j),
        apply_steps(mid_state(r, r.len() as int, j), s, r.len() + j) == files_after(r),
    decreases r.len() - j,
{
    let n = r.len() as int;
    if j < n {
        let m0 = mid_state(r, n, j);
        let from_p = seq![spec_temp_dir(), r[j].to@];
        let to_p = seq![r[j].to@];
        assert(step_from(s[n + j]) == from_p && step_to(s[n + j]) == to_p) by {
            assert(n <= n + j < 2 * r.len());
            assert((n + j) - r.len() == j);
        }
        assert(m0.dom().contains(from_p)) by {
            assert(j <= j < n && from_p == seq![spec_temp_dir(), r[j].to@]);
        }
        assert(!m0.dom().contains(to_p)) by {
            if m0.dom().contains(to_p) {
                if exists|k: int| n <= k < r.len() && to_p == seq![r[k].from@] {
                    let k = choose|k: int| n <= k < r.len() && to_p == seq![r[k].from@];
                    assert(k < n);
                } else if exists|k: int| j <= k < n && to_p == seq![spec_temp_dir(), r[k].to@] {
                    let k = choose|k: int| j <= k < n && to_p == seq![spec_temp_dir(), r[k].to@];
                    assert(to_p.len() == 1 && seq![spec_temp_dir(), r[k].to@].len() == 2);
                } else {
                    let k = choose|k: int| 0 <= k < j && to_p == seq![r[k].to@];
                    assert(r[k].to@ == to_p[0] && r[j].to@ == to_p[0]);
                    lemma_to_unique(r, k, j);
                }
            }
        }
        assert(!m0.remove(from_p).dom().contains(to_p));
        let m1 = apply_step(m0, from_p, to_p);
        let m2 = mid_state(r, n, j + 1);
        assert(m0[from_p] == r[j].from@) by {
            assert(from_p.len() == 2 && from_p[1] == r[j].to@);
            let k = choose|k: int| j <= k < n && r[k].to@ == from_p[1];
            lemma_to_unique(r, k, j);
        }
        assert forall|p: Seq<Seq<u8>>| #[trigger] m1.dom().contains(p) implies m2.dom().contains(
            p,
        ) && m1[p] == m2[p] by {
            if p == to_p {
                assert(m1[p] == r[j].from@);
                assert(m2.dom().contains(p)) by {
                    assert(0 <= j < j + 1 && p == seq![r[j].to@]);
                }
                assert(p.len() == 1 && p[0] == r[j].to@);
                assert(!(exists|k: int| n <= k < r.len() && p == seq![r[k].from@]));
                let k = choose|k: int| 0 <= k < j + 1 && r[k].to@ == p[0];
                lemma_to_unique(r, k, j);
                assert(m2[p] == r[j].from@);
            } else {
                assert(m0.dom().contains(p) && p != from_p);
                assert(m1[p] == m0[p]);
                if exists|k: int| j <= k < n && p == seq![spec_temp_dir(), r[k].to@] {
                    let k = choose|k: int| j <= k < n && p == seq![spec_temp_dir(), r[k].to@];
                    assert(k != j) by {
                        if k == j {
                            assert(p == from_p);
                        }
                    }
                    assert(j + 1 <= k < n && p == seq![spec_temp_dir(), r[k].to@]);
                    assert(m2.dom().contains(p));
                    assert(p.len() == 2 && p[1] == r[k].to@);
                    let k0 = choose|k0: int| j <= k0 < n && r[k0].to@ == p[1];
                    let k2 = choose|k2: int| j + 1 <= k2 < n && r[k2].to@ == p[1];
                    lemma_to_unique(r, k0, k);
                    lemma_to_unique(r, k2, k);
                    assert(m0[p] == r[k].from@);
                    assert(m2[p] == r[k].from@);
                } else if exists|k: int| 0 <= k < j && p == seq![r[k].to@] {
                    let k = choose|k: int| 0 <= k < j && p == seq![r[k].to@];
                    assert(0 <= k < j + 1 && p == seq![r[k].to@]);
                    assert(m2.dom().contains(p));
                    assert(p.len() == 1 && p[0] == r[k].to@);
                    assert(!(exists|m: int| n <= m < r.len() && p == seq![r[m].from@]));
                    let k0 = choose|k0: int| 0 <= k0 < j && r[k0].to@ == p[0];
                    let k2 = choose|k2: int| 0 <= k2 < j + 1 && r[k2].to@ == p[0];
                    lemma_to_unique(r, k0, k);
                    lemma_to_unique(r, k2, k);
                    assert(m0[p] == r[k].from@);
                    assert(m2[p] == r[k].from@);
                }
            }
        }
        assert forall|p: Seq<Seq<u8>>| #[trigger] m2.dom().contains(p) implies m1.dom().contains(
            p,
        ) by {
            if exists|k: int| j + 1 <= k < n && p == seq![spec_temp_dir(), r[k].to@] {
                let k = choose|k: int| j + 1 <= k < n && p == seq![spec_temp_dir(), r[k].to@];
                assert(m0.dom().contains(p));
                assert(p != from_p) by {
                    if p == from_p {
                        assert(r[k].to@ == p[1] && r[j].to@ == p[1]);
                        lemma_to_unique(r, k, j);
                    }
                }
            } else if exists|k: int| 0 <= k < j + 1 && p == seq![r[k].to@] {
                let k = choose|k: int| 0 <= k < j + 1 && p == seq![r[k].to@];
                if k == j {
                    assert(p == to_p);
                } else {
                    assert(m0.dom().contains(p));
                    assert(p != from_p) by {
                        assert(p.len() == 1 && from_p.len() == 2);
                    }
                }
            }
        }
        assert(m1 =~= m2);
        lemma_phase2(r, s, j + 1);
    } else {
        let mfin = mid_state(r, n, n);
        let fin = files_after(r);
        assert forall|p: Seq<Seq<u8>>| #[trigger] mfin.dom().contains(p)
            <==> fin.dom().contains(p) by {}
        assert forall|p: Seq<Seq<u8>>| #[trigger] fin.dom().contains(p) implies mfin[p]
            == fin[p] by {
            let k = choose|k: int| 0 <= k < r.len() && p == seq![r[k].to@];
            assert(p.len() == 1 && p[0] == r[k].to@);
            assert(!(exists|m: int| n <= m < r.len() && p == seq![r[m].from@]));
            let k0 = choose|k0: int| 0 <= k0 < n && r[k0].to@ == p[0];
            let k2 = choose|k2: int| 0 <= k2 < r.len() && r[k2].to@ == p[0];
            lemma_to_unique(r, k0, k);
            lemma_to_unique(r, k2, k);
            assert(mfin[p] == r[k].from@);
            assert(fin[p] == r[k].from@);
        }
        assert(mfin =~= fin);
    }
}

/// Executing a staged step list front to back is safe — every step finds
/// its source present and its target free — and ends with exactly the
/// assigned names, each holding the file that bore the matching source.
pub proof fn lemma_steps_sound(r: Seq<RenameOp>, s: Seq<RenameStep>)
    requires
        staged_steps_ok(s, r),
        sources_distinct(r),
        targets_distinct(r),
    ensures
        steps_safe(files_before(sources_of(r)), s, 0),
        apply_steps(files_before(sources_of(r)), s, 0) == files_after(r),
{
    let m0 = files_before(sources_of(r));
    let mid0 = mid_state(r, 0, 0);
    assert forall|p: Seq<Seq<u8>>| #[trigger] m0.dom().contains(p) <==> mid0.dom().contains(
        p,
    ) by {
        if exists|k: int| 0 <= k < sources_of(r).len() && p == seq![sources_of(r)[k]] {
            let k = choose|k: int| 0 <= k < sources_of(r).len() && p == seq![sources_of(r)[k]];
            assert(sources_of(r)[k] == r[k].from@);
        }
        if exists|k: int| 0 <= k < r.len() && p == seq![r[k].from@] {
            let k = choose|k: int| 0 <= k < r.len() && p == seq![r[k].from@];
            assert(sources_of(r)[k] == r[k].from@);
            assert(p == seq![sources_of(r)[k]]);
        }
    }
    assert forall|p: Seq<Seq<u8>>| #[trigger] m0.dom().contains(p) implies m0[p] == mid0[p] by {
        let k = choose|k: int| 0 <= k < sources_of(r).len() && p == seq![sources_of(r)[k]];
        assert(sources_of(r)[k] == r[k].from@);
        assert(p == seq![r[k].from@]);
        assert(p.len() == 1);
    }
    assert(m0 =~= mid0);
    lemma_phase1(r, s, 0);
}

/// When the names handed to the renamer are distinct, the drawn assignment
/// is a bijection: no name is the source of two renames.
pub proof fn lemma_sources_distinct(r: Seq<RenameOp>, names: Seq<Seq<u8>>)
    requires
        sources_of(r).to_multiset() == names.to_multiset(),
        names.no_duplicates(),
    ensures
        sources_of(r).no_duplicates(),
        sources_distinct(r),
{
    names.lemma_multiset_has_no_duplicates();
    sources_of(r).lemma_multiset_has_no_duplicates_conv();
    assert forall|i: int, j: int| 0 <= i < j < r.len() implies r[i].from@ != r[j].from@ by {
        assert(sources_of(r)[i] == r[i].from@);
        assert(sources_of(r)[j] == r[j].from@);
    }
}

/// Whether `name` stands among the byte vectors of `v`.
fn holds_name(v: &Vec<Vec<u8>>, name: &Vec<u8>) -> (r: bool)
    ensures
        r == views_of(v@).contains(name@),
{
    let n: usize = v.len();
    let mut i: usize = 0;
    while i < n
        invariant
            n == v@.len(),
            0 <= i <= n,
            forall|j: int| 0 <= j < i ==> views_of(v@)[j] != name@,
        decreases n - i,
    {
        if bytes_eq(&v[i], name) {
            proof {
                assert(views_of(v@)[i as int] == name@);
            }
            return true;
        }
        proof {
            assert(views_of(v@)[i as int] == v@[i as int]@);
        }
        i = i + 1;
    }
    proof {
        assert(forall|j: int| 0 <= j < views_of(v@).len() ==> views_of(v@)[j] != name@);
    }
    false
}

/// The distinct names among `names`, first occurrences first: the survivor
/// set once colliding relocations have overwritten one another, which is
/// what a directory actually holds when the rename pass begins.
pub fn dedup_names(names: &Vec<Vec<u8>>) -> (r: Vec<Vec<u8>>)
    ensures
        views_of(r@).no_duplicates(),
        forall|x: Seq<u8>| views_of(r@).contains(x) <==> views_of(names@).contains(x),
{
    let n: usize = names.len();
    let mut r: Vec<Vec<u8>> = Vec::new();
    let mut i: usize = 0;
    while i < n
        invariant
            n == names@.len(),
            0 <= i <= n,
            views_of(r@).no_duplicates(),
            forall|x: Seq<u8>|
                views_of(r@).contains(x) <==> views_of(names@).take(i as int).contains(x),
        decreases n - i,
    {
        let ghost old_r = views_of(r@);
        let ghost pre = views_of(names@).take(i as int);
        let ghost pre1 = views_of(names@).take(i + 1);
        let present = holds_name(&r, &names[i]);
        if !present {
            r.push(clone_bytes(&names[i]));
            proof {
                assert(views_of(r@) =~= old_r.push(names@[i as int]@));
            }
        }
        proof {
            let x0 = names@[i as int]@;
            assert(views_of(names@)[i as int] == x0);
            assert(pre1[i as int] == x0);
            assert(pre1.contains(x0));
            assert forall|x: Seq<u8>| pre1.contains(x) implies (pre.contains(x) || x == x0) by {
                let j = choose|j: int| 0 <= j < pre1.len() && pre1[j] == x;
                if j < i {
                    assert(pre[j] == x);
                }
            }
            assert forall|x: Seq<u8>| pre.contains(x) implies pre1.contains(x) by {
                let j = choose|j: int| 0 <= j < pre.len() && pre[j] == x;
                assert(pre1[j] == x);
            }
            if !present {
                assert forall|x: Seq<u8>| views_of(r@).contains(x) implies pre1.contains(x) by {
                    let j = choose|j: int| 0 <= j < views_of(r@).len() && views_of(r@)[j] == x;
                    if j < old_r.len() {
                        assert(views_of(r@)[j] == old_r[j]);
                        assert(old_r.contains(x));
                        assert(pre.contains(x));
                    } else {
                        assert(views_of(r@)[j] == x0);
                    }
                }
                assert forall|x: Seq<u8>| pre1.contains(x) implies views_of(r@).contains(x) by {
                    if x == x0 {
                        assert(views_of(r@)[old_r.len() as int] == x0);
                    } else {
                        assert(pre.contains(x));
                        assert(old_r.contains(x));
                        let j = choose|j: int| 0 <= j < old_r.len() && old_r[j] == x;
                        assert(views_of(r@)[j] == old_r[j]);
                        assert(views_of(r@)[j] == x);
                    }
                }
                assert(views_of(r@).no_duplicates()) by {
                    assert forall|a: int, b: int|
                        0 <= a < views_of(r@).len() && 0 <= b < views_of(r@).len() && a
                            != b implies views_of(r@)[a] != views_of(r@)[b] by {
                        if a < old_r.len() && b < old_r.len() {
                        } else if a < old_r.len() {
                            if old_r[a] == x0 {
                                assert(old_r.contains(x0));
                            }
                        } else if b < old_r.len() {
                            if old_r[b] == x0 {
                                assert(old_r.contains(x0));
                            }
                        }
                    }
                }
            } else {
                assert(old_r.contains(x0));
            }
        }
        i = i + 1;
    }
    proof {
        assert(views_of(names@).take(n as int) =~= views_of(names@));
    }
    r
}

/// The staging directory's name as a byte vector.
fn temp_dir_vec() -> (r: Vec<u8>)
    ensures
        r@ == spec_temp_dir(),
{
    let mut v: Vec<u8> = Vec::new();
    v.push(116);
    v.push(101);
    v.push(109);
    v.push(112);
    proof {
        assert(v@ =~= spec_temp_dir());
    }
    v
}

/// Draws a uniformly random order for the given distinct file names,
/// assigns the zero-padded sequence names `001`, `002`, ... in that order,
/// and stages the renames through the `temp` directory so that the step
/// list can run front to back without ever overwriting a pending source.
pub fn plan_renames(names: Vec<Vec<u8>>, p: &ExtensionPolicy) -> (rp: RenamePlan)
    requires
        policy_ok(*p),
        views_of(names@).no_duplicates(),
    ensures
        rp.renames@.len() == names@.len(),
        sources_of(rp.renames@).to_multiset() == views_of(names@).to_multiset(),
        sources_of(rp.renames@).no_duplicates(),
        renames_sequential(rp.renames@, *p),
        sources_distinct(rp.renames@),
        targets_distinct(rp.renames@),
        rp.temp_dir@ == spec_temp_dir(),
        staged_steps_ok(rp.steps@, rp.renames@),
        steps_safe(files_before(sources_of(rp.renames@)), rp.steps@, 0),
        apply_steps(files_before(sources_of(rp.renames@)), rp.steps@, 0) == files_after(
            rp.renames@,
        ),
{
    let mut shuffled = names;
    shuffle_names(&mut shuffled);
    let n: usize = shuffled.len();
    let mut r: Vec<RenameOp> = Vec::new();
    let mut k: usize = 0;
    while k < n
        invariant
            n == shuffled@.len(),
            0 <= k <= n,
            r@.len() == k,
            policy_ok(*p),
            sources_of(r@) =~= views_of(shuffled@).take(k as int),
            renames_sequential(r@, *p),
        decreases n - k,
    {
        let from = clone_bytes(&shuffled[k]);
        let to = target_name((k + 1) as u64, &from, p);
        r.push(RenameOp { from, to });
        proof {
            assert(sources_of(r@) =~= views_of(shuffled@).take(k + 1));
        }
        k = k + 1;
    }
    proof {
        assert(views_of(shuffled@).take(n as int) =~= views_of(shuffled@));
        assert(sources_of(r@).to_multiset() == views_of(names@).to_multiset());
        assert forall|a: int, b: int| 0 <= a < b < r@.len() implies r@[a].to@ != r@[b].to@ by {
            lemma_target_names_distinct(
                (a + 1) as nat,
                (b + 1) as nat,
                r@[a].from@,
                r@[b].from@,
                *p,
            );
        }
        lemma_sources_distinct(r@, views_of(names@));
    }
    let tmp = temp_dir_vec();
    let mut steps: Vec<RenameStep> = Vec::new();
    let mut k: usize = 0;
    while k < n
        invariant
            n == r@.len(),
            0 <= k <= n,
            steps@.len() == k,
            forall|m: int|
                0 <= m < k ==> #[trigger] step_from(steps@[m]) == seq![r@[m].from@] && step_to(
                    steps@[m],
                ) == seq![spec_temp_dir(), r@[m].to@],
        decreases n - k,
    {
        let mut from_path: Vec<Vec<u8>> = Vec::new();
        from_path.push(clone_bytes(&r[k].from));
        let mut to_path: Vec<Vec<u8>> = Vec::new();
        to_path.push(temp_dir_vec());
        to_path.push(clone_bytes(&r[k].to));
        let ghost fv = views_of(from_path@);
        let ghost tv = views_of(to_path@);
        steps.push(RenameStep { from: from_path, to: to_path });
        proof {
            assert(fv =~= seq![r@[k as int].from@]);
            assert(tv =~= seq![spec_temp_dir(), r@[k as int].to@]);
        }
        k = k + 1;
    }
    let mut k: usize = 0;
    while k < n
        invariant
            n == r@.len(),
            0 <= k <= n,
            steps@.len() == n + k,
            forall|m: int|
                0 <= m < n ==> #[trigger] step_from(steps@[m]) == seq![r@[m].from@] && step_to(
                    steps@[m],
                ) == seq![spec_temp_dir(), r@[m].to@],
            forall|m: int|
                n <= m < n + k ==> #[trigger] step_from(steps@[m]) == seq![
                    spec_temp_dir(),
                    r@[m - n].to@,
                ] && step_to(steps@[m]) == seq![r@[m - n].to@],
        decreases n - k,
    {
        let mut from_path: Vec<Vec<u8>> = Vec::new();
        from_path.push(temp_dir_vec());
        from_path.push(clone_bytes(&r[k].to));
        let mut to_path: Vec<Vec<u8>> = Vec::new();
        to_path.push(clone_bytes(&r[k].to));
        let ghost fv = views_of(from_path@);
        let ghost tv = views_of(to_path@);
        let ghost at = steps@.len() as int;
        steps.push(RenameStep { from: from_path, to: to_path });
        proof {
            assert(fv =~= seq![spec_temp_dir(), r@[k as int].to@]);
            assert(tv =~= seq![r@[k as int].to@]);
            assert(step_from(steps@[at]) == fv && step_to(steps@[at]) == tv);
            assert(at - n == k as int);
        }
        k = k + 1;
    }
    proof {
        assert(staged_steps_ok(steps@, r@));
        lemma_steps_sound(r@, steps@);
    }
    RenamePlan { temp_dir: tmp, renames: r, steps }
}

} // verus!
