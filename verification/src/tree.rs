use vstd::prelude::*;

use crate::bytes::{clone_bytes, paths_of, views_of};

verus! {

/// A snapshot of one directory: the names of its regular files and its
/// named subdirectories, as plain byte strings.
pub struct DirTree {
    pub files: Vec<Vec<u8>>,
    pub subdirs: Vec<Subdir>,
}

/// A named subdirectory inside a `DirTree` snapshot.
pub struct Subdir {
    pub name: Vec<u8>,
    pub tree: DirTree,
}

/// Each path of `paths`, led by one more segment `name`.
pub open spec fn prefixed(name: Seq<u8>, paths: Seq<Seq<Seq<u8>>>) -> Seq<Seq<Seq<u8>>> {
    paths.map_values(|p: Seq<Seq<u8>>| seq![name] + p)
}

/// The relative paths, as segment sequences, of every regular file anywhere
/// in the tree: the directory's own files first, then each subdirectory's
/// files in turn.
pub open spec fn all_file_paths(t: DirTree) -> Seq<Seq<Seq<u8>>>
    decreases t, 0int,
{
    t.files@.map_values(|f: Vec<u8>| seq![f@]) + subdir_file_paths(t.subdirs@, 0)
}

/// The file paths contributed by the subdirectories from position `i` on.
pub open spec fn subdir_file_paths(s: Seq<Subdir>, i: int) -> Seq<Seq<Seq<u8>>>
    decreases s, s.len() - i,
{
    if i < 0 || i >= s.len() {
        Seq::<Seq<Seq<u8>>>::empty()
    } else {
        prefixed(s[i].name@, all_file_paths(s[i].tree)) + subdir_file_paths(s, i + 1)
    }
}

/// The relative paths of every subdirectory anywhere below the tree's root,
/// ordered so that each directory's descendants all come before it: the
/// order in which emptied directories can be removed.
pub open spec fn removal_paths(t: DirTree) -> Seq<Seq<Seq<u8>>>
    decreases t, 0int,
{
    subdir_removal_paths(t.subdirs@, 0)
}

/// The removal paths contributed by the subdirectories from position `i` on.
pub open spec fn subdir_removal_paths(s: Seq<Subdir>, i: int) -> Seq<Seq<Seq<u8>>>
    decreases s, s.len() - i,
{
    if i < 0 || i >= s.len() {
        Seq::<Seq<Seq<u8>>>::empty()
    } else {
        prefixed(s[i].name@, removal_paths(s[i].tree)) + seq![seq![s[i].name@]]
            + subdir_removal_paths(s, i + 1)
    }
}

/// Every file path the tree yields holds at least its final segment, the
/// file's own name.
pub proof fn lemma_file_paths_nonempty(t: DirTree)
    ensures
        forall|k: int| 0 <= k < all_file_paths(t).len() ==> all_file_paths(t)[k].len() >= 1,
    decreases t, 0int,
{
    let own = t.files@.map_values(|f: Vec<u8>| seq![f@]);
    lemma_subdir_file_paths_nonempty(t.subdirs@, 0);
    assert forall|k: int| 0 <= k < all_file_paths(t).len() implies all_file_paths(t)[k].len()
        >= 1 by {
        if k < own.len() {
            assert(all_file_paths(t)[k] == seq![t.files@[k]@]);
        } else {
            assert(all_file_paths(t)[k] == subdir_file_paths(t.subdirs@, 0)[k - own.len()]);
        }
    }
}

proof fn lemma_subdir_file_paths_nonempty(s: Seq<Subdir>, i: int)
    ensures
        forall|k: int|
            0 <= k < subdir_file_paths(s, i).len() ==> subdir_file_paths(s, i)[k].len() >= 1,
    decreases s, s.len() - i,
{
    if 0 <= i < s.len() {
        let pre = prefixed(s[i].name@, all_file_paths(s[i].tree));
        lemma_file_paths_nonempty(s[i].tree);
        lemma_subdir_file_paths_nonempty(s, i + 1);
        assert forall|k: int| 0 <= k < subdir_file_paths(s, i).len() implies subdir_file_paths(
            s,
            i,
        )[k].len() >= 1 by {
            if k < pre.len() {
                assert(subdir_file_paths(s, i)[k] == seq![s[i].name@]
                    + all_file_paths(s[i].tree)[k]);
            } else {
                assert(subdir_file_paths(s, i)[k] == subdir_file_paths(s, i + 1)[k - pre.len()]);
            }
        }
    }
}

/// The flattening plan for one category directory: `moves` lists the
/// relative path of every file to be relocated to the category root under
/// its own (final-segment) name, and `removals` lists every subdirectory,
/// descendants before ancestors.
pub struct FlattenPlan {
    pub moves: Vec<Vec<Vec<u8>>>,
    pub removals: Vec<Vec<Vec<u8>>>,
}

/// A copy of a segment path.
pub fn clone_path(p: &Vec<Vec<u8>>) -> (r: Vec<Vec<u8>>)
    ensures
        views_of(r@) == views_of(p@),
        r@.len() == p@.len(),
{
    let mut r: Vec<Vec<u8>> = Vec::new();
    let n: usize = p.len();
    let mut j: usize = 0;
    while j < n
        invariant
            n == p@.len(),
            0 <= j <= n,
            r@.len() == j,
            views_of(r@) =~= views_of(p@).take(j as int),
        decreases n - j,
    {
        r.push(clone_bytes(&p[j]));
        proof {
            assert(views_of(r@) =~= views_of(p@).take(j + 1));
        }
        j = j + 1;
    }
    proof {
        assert(views_of(p@).take(n as int) =~= views_of(p@));
    }
    r
}

/// Appends to `out` each path of `paths`, led by the extra segment `name`.
fn prefix_all(name: &Vec<u8>, paths: &Vec<Vec<Vec<u8>>>, out: &mut Vec<Vec<Vec<u8>>>)
    ensures
        paths_of(final(out)@) == paths_of(old(out)@) + prefixed(name@, paths_of(paths@)),
{
    let n: usize = paths.len();
    let mut j: usize = 0;
    while j < n
        invariant
            n == paths@.len(),
            0 <= j <= n,
            paths_of(out@) =~~= paths_of(old(out)@) + prefixed(name@, paths_of(paths@)).take(
                j as int,
            ),
        decreases n - j,
    {
        let mut p: Vec<Vec<u8>> = Vec::new();
        p.push(clone_bytes(name));
        let mut rest = clone_path(&paths[j]);
        p.append(&mut rest);
        proof {
            assert(views_of(p@) =~~= seq![name@] + views_of(paths@[j as int]@));
            assert(paths_of(out@).len() == out@.len());
            assert(prefixed(name@, paths_of(paths@)).len() == paths@.len());
            assert(prefixed(name@, paths_of(paths@)).take(j as int).len() == j);
            assert(out@.len() == old(out)@.len() + j);
        }
        let ghost pv = p@;
        let ghost out_before = out@;
        out.push(p);
        proof {
            let base = paths_of(old(out)@);
            let pre = prefixed(name@, paths_of(paths@));
            assert(out@ == out_before.push(out@[base.len() + j]));
            assert(out@[base.len() + j]@ == pv);
            assert(paths_of(out@).len() == base.len() + j + 1);
            assert(forall|m: int|
                0 <= m < base.len() + j ==> paths_of(out@)[m] == paths_of(out_before)[m]);
            assert(paths_of(out@)[base.len() + j] == views_of(pv));
            assert(pre[j as int] == seq![name@] + paths_of(paths@)[j as int]);
            assert(paths_of(paths@)[j as int] == views_of(paths@[j as int]@));
            assert((base + pre.take(j + 1))[base.len() + j] == pre[j as int]);
            assert(forall|m: int|
                0 <= m < base.len() + j ==> (base + pre.take(j as int))[m] == (base + pre.take(
                    j + 1,
                ))[m]);
            assert(paths_of(out_before) == base + pre.take(j as int));
            assert(pre.take(j + 1).len() == j + 1);
            assert((base + pre.take(j + 1)).len() == base.len() + j + 1);
            assert forall|m: int| 0 <= m < base.len() + j + 1 implies paths_of(out@)[m] == (base
                + pre.take(j + 1))[m] by {
                if m < base.len() + j {
                    assert(paths_of(out@)[m] == paths_of(out_before)[m]);
                    assert(paths_of(out_before)[m] == (base + pre.take(j as int))[m]);
                } else {
                    assert(paths_of(out@)[m] == views_of(pv));
                }
            }
            assert(paths_of(out@) =~~= base + pre.take(j + 1));
        }
        j = j + 1;
    }
    proof {
        assert(prefixed(name@, paths_of(paths@)).take(n as int) =~~= prefixed(
            name@,
            paths_of(paths@),
        ));
        assert(paths_of(out@) =~~= paths_of(old(out)@) + prefixed(name@, paths_of(paths@)));
    }
}

/// Computes the flattening plan for a directory tree: one move for every
/// file anywhere below the root, in depth-first order, and one removal for
/// every subdirectory, each after all its descendants.
pub fn plan_flatten(t: &DirTree) -> (r: FlattenPlan)
    ensures
        paths_of(r.moves@) == all_file_paths(*t),
        paths_of(r.removals@) == removal_paths(*t),
    decreases *t,
{
    let ghost own_files: Seq<Seq<Seq<u8>>> = t.files@.map_values(|f: Vec<u8>| seq![f@]);
    let mut moves: Vec<Vec<Vec<u8>>> = Vec::new();
    let nf: usize = t.files.len();
    let mut i: usize = 0;
    while i < nf
        invariant
            nf == t.files@.len(),
            0 <= i <= nf,
            own_files == t.files@.map_values(|f: Vec<u8>| seq![f@]),
            paths_of(moves@) =~~= own_files.take(i as int),
        decreases nf - i,
    {
        let mut p: Vec<Vec<u8>> = Vec::new();
        p.push(clone_bytes(&t.files[i]));
        let ghost pv = p@;
        let ghost moves_before = moves@;
        proof {
            assert(own_files.len() == nf);
            assert(paths_of(moves@).len() == moves@.len());
            assert(own_files.take(i as int).len() == i);
            assert(moves@.len() == i);
        }
        moves.push(p);
        proof {
            assert(moves@ == moves_before.push(moves@[i as int]));
            assert(moves@[i as int]@ == pv);
            assert(paths_of(moves@).len() == i + 1);
            assert(paths_of(moves@)[i as int] == views_of(pv));
            assert(views_of(pv) =~= seq![t.files@[i as int]@]);
            assert(own_files[i as int] == seq![t.files@[i as int]@]);
            assert(forall|m: int|
                0 <= m < i ==> paths_of(moves@)[m] == paths_of(moves_before)[m]);
            assert(paths_of(moves@) =~~= own_files.take(i + 1));
        }
        i = i + 1;
    }
    proof {
        assert(paths_of(moves@) =~~= own_files);
    }
    let mut removals: Vec<Vec<Vec<u8>>> = Vec::new();
    let ns: usize = t.subdirs.len();
    let mut d: usize = 0;
    while d < ns
        invariant
            ns == t.subdirs@.len(),
            0 <= d <= ns,
            own_files == t.files@.map_values(|f: Vec<u8>| seq![f@]),
            paths_of(moves@) + subdir_file_paths(t.subdirs@, d as int) =~~= own_files
                + subdir_file_paths(t.subdirs@, 0),
            paths_of(removals@) + subdir_removal_paths(t.subdirs@, d as int)
                =~~= subdir_removal_paths(t.subdirs@, 0),
        decreases ns - d,
    {
        let sub = plan_flatten(&t.subdirs[d].tree);
        let ghost moves_before = paths_of(moves@);
        let ghost removals_before = paths_of(removals@);
        prefix_all(&t.subdirs[d].name, &sub.moves, &mut moves);
        prefix_all(&t.subdirs[d].name, &sub.removals, &mut removals);
        let mut selfpath: Vec<Vec<u8>> = Vec::new();
        selfpath.push(clone_bytes(&t.subdirs[d].name));
        removals.push(selfpath);
        proof {
            let s = t.subdirs@;
            let dd = d as int;
            assert(subdir_file_paths(s, dd) == prefixed(s[dd].name@, all_file_paths(s[dd].tree))
                + subdir_file_paths(s, dd + 1));
            assert(paths_of(moves@) =~~= moves_before + prefixed(
                s[dd].name@,
                all_file_paths(s[dd].tree),
            ));
            assert(paths_of(moves@) + subdir_file_paths(s, dd + 1) =~~= moves_before
                + subdir_file_paths(s, dd));
            assert(subdir_removal_paths(s, dd) == prefixed(s[dd].name@, removal_paths(s[dd].tree))
                + seq![seq![s[dd].name@]] + subdir_removal_paths(s, dd + 1));
            assert(views_of(selfpath@) =~~= seq![s[dd].name@]);
            assert(paths_of(removals@) =~~= removals_before + prefixed(
                s[dd].name@,
                removal_paths(s[dd].tree),
            ) + seq![seq![s[dd].name@]]);
            assert(paths_of(removals@) + subdir_removal_paths(s, dd + 1) =~~= removals_before
                + subdir_removal_paths(s, dd));
        }
        d = d + 1;
    }
    proof {
        assert(subdir_file_paths(t.subdirs@, ns as int) =~~= Seq::<Seq<Seq<u8>>>::empty());
        assert(subdir_removal_paths(t.subdirs@, ns as int) =~~= Seq::<Seq<Seq<u8>>>::empty());
        assert(paths_of(moves@) =~~= own_files + subdir_file_paths(t.subdirs@, 0));
        assert(paths_of(removals@) =~~= subdir_removal_paths(t.subdirs@, 0));
    }
    FlattenPlan { moves, removals }
}

} // verus!


verus! {

/// A strict ancestor: a proper aligned prefix of a longer path.
pub open spec fn strict_prefix_of(a: Seq<Seq<u8>>, b: Seq<Seq<u8>>) -> bool {
    a.len() < b.len() && a == b.take(a.len() as int)
}

/// Sibling directories carry distinct names, as a filesystem guarantees.
pub open spec fn distinct_names(s: Seq<Subdir>) -> bool {
    forall|i: int, j: int| 0 <= i < j < s.len() ==> s[i].name@ != s[j].name@
}

/// A well-formed snapshot: at every level, sibling directory names are
/// distinct.
pub open spec fn tree_wf(t: DirTree) -> bool
    decreases t, 0int,
{
    distinct_names(t.subdirs@) && subtrees_wf(t.subdirs@, 0)
}

/// Well-formedness of the subtrees from position `i` on.
pub open spec fn subtrees_wf(s: Seq<Subdir>, i: int) -> bool
    decreases s, s.len() - i,
{
    if i < 0 || i >= s.len() {
        true
    } else {
        tree_wf(s[i].tree) && subtrees_wf(s, i + 1)
    }
}

/// Every removal path holds at least one segment, and its first segment
/// names one of the subdirectories it was collected from.
proof fn lemma_removal_elems(s: Seq<Subdir>, d: int)
    ensures
        forall|k: int|
            0 <= k < subdir_removal_paths(s, d).len() ==> #[trigger] subdir_removal_paths(
                s,
                d,
            )[k].len() >= 1 && (exists|m: int|
                d <= m < s.len() && subdir_removal_paths(s, d)[k][0] == s[m].name@),
    decreases s.len() - d,
{
    if 0 <= d < s.len() {
        lemma_removal_elems(s, d + 1);
        let pre = prefixed(s[d].name@, removal_paths(s[d].tree));
        let srpd = subdir_removal_paths(s, d);
        assert forall|k: int| 0 <= k < srpd.len() implies #[trigger] srpd[k].len() >= 1 && (
        exists|m: int| d <= m < s.len() && srpd[k][0] == s[m].name@) by {
            if k < pre.len() {
                assert(srpd[k] == seq![s[d].name@] + removal_paths(s[d].tree)[k]);
                assert(srpd[k][0] == s[d].name@);
            } else if k == pre.len() {
                assert(srpd[k] == seq![s[d].name@]);
                assert(srpd[k][0] == s[d].name@);
            } else {
                let k2 = k - pre.len() - 1;
                assert(srpd[k] == subdir_removal_paths(s, d + 1)[k2]);
                assert(subdir_removal_paths(s, d + 1)[k2].len() >= 1);
                let m = choose|m: int|
                    d + 1 <= m < s.len() && subdir_removal_paths(s, d + 1)[k2][0] == s[m].name@;
                assert(d <= m < s.len() && srpd[k][0] == s[m].name@);
            }
        }
    }
}

/// The removal order is safe to execute front to back: no directory stands
/// before any directory below it, so each is empty when its turn comes.
/// Together with the completeness of `removal_paths` this is the law that
/// no subdirectory outlives a pass.
pub proof fn lemma_removals_bottom_up(t: DirTree)
    requires
        tree_wf(t),
    ensures
        forall|i: int, j: int|
            0 <= i < j < removal_paths(t).len() ==> !strict_prefix_of(
                #[trigger] removal_paths(t)[i],
                #[trigger] removal_paths(t)[j],
            ),
    decreases t, 0int,
{
    lemma_sub_bottom_up(t.subdirs@, 0);
    assert(removal_paths(t) == subdir_removal_paths(t.subdirs@, 0));
    assert forall|i: int, j: int| 0 <= i < j < removal_paths(t).len() implies !strict_prefix_of(
        #[trigger] removal_paths(t)[i],
        #[trigger] removal_paths(t)[j],
    ) by {
        assert(removal_paths(t)[i] == subdir_removal_paths(t.subdirs@, 0)[i]);
        assert(removal_paths(t)[j] == subdir_removal_paths(t.subdirs@, 0)[j]);
    }
}

proof fn lemma_sub_bottom_up(s: Seq<Subdir>, d: int)
    requires
        distinct_names(s),
        subtrees_wf(s, d),
    ensures
        forall|i: int, j: int|
            0 <= i < j < subdir_removal_paths(s, d).len() ==> !strict_prefix_of(
                #[trigger] subdir_removal_paths(s, d)[i],
                #[trigger] subdir_removal_paths(s, d)[j],
            ),
    decreases s, s.len() - d,
{
    if 0 <= d < s.len() {
        let srpd = subdir_removal_paths(s, d);
        let n = s[d].name@;
        let rp = removal_paths(s[d].tree);
        let pre = prefixed(n, rp);
        let rest = subdir_removal_paths(s, d + 1);
        lemma_removals_bottom_up(s[d].tree);
        lemma_sub_bottom_up(s, d + 1);
        lemma_removal_elems(s, d + 1);
        lemma_removal_elems(s[d].tree.subdirs@, 0);
        assert(rp == subdir_removal_paths(s[d].tree.subdirs@, 0));
        assert forall|k: int| 0 <= k < rp.len() implies #[trigger] rp[k].len() >= 1 by {
            assert(rp[k] == subdir_removal_paths(s[d].tree.subdirs@, 0)[k]);
        }
        assert forall|i: int, j: int| 0 <= i < j < srpd.len() implies !strict_prefix_of(
            #[trigger] srpd[i],
            #[trigger] srpd[j],
        ) by {
            if j < pre.len() {
                assert(srpd[i] == seq![n] + rp[i]);
                assert(srpd[j] == seq![n] + rp[j]);
                assert(rp[i].len() >= 1);
                if strict_prefix_of(srpd[i], srpd[j]) {
                    assert forall|x: int| 0 <= x < rp[i].len() implies rp[i][x] == rp[j][x] by {
                        assert(srpd[i][x + 1] == rp[i][x]);
                        assert(srpd[j].take(srpd[i].len() as int)[x + 1] == rp[j][x]);
                    }
                    assert(rp[i] =~= rp[j].take(rp[i].len() as int));
                    assert(strict_prefix_of(rp[i], rp[j]));
                    assert(false);
                }
            } else if j == pre.len() {
                assert(srpd[j] == seq![n]);
                assert(srpd[i] == seq![n] + rp[i]);
                assert(rp[i].len() >= 1);
                assert(srpd[i].len() >= 2);
            } else {
                let j2 = j - pre.len() - 1;
                assert(srpd[j] == rest[j2]);
                if i > pre.len() {
                    let i2 = i - pre.len() - 1;
                    assert(srpd[i] == rest[i2]);
                    assert(!strict_prefix_of(rest[i2], rest[j2]));
                } else {
                    if i < pre.len() {
                        assert(srpd[i] == seq![n] + rp[i]);
                        assert(srpd[i][0] == n);
                    } else {
                        assert(srpd[i] == seq![n]);
                        assert(srpd[i][0] == n);
                    }
                    if strict_prefix_of(srpd[i], srpd[j]) {
                        assert(srpd[i].len() >= 1);
                        assert(srpd[j].take(srpd[i].len() as int)[0] == srpd[j][0]);
                        assert(srpd[j][0] == n);
                        let m = choose|m: int|
                            d + 1 <= m < s.len() && rest[j2][0] == s[m].name@;
                        assert(s[m].name@ != n);
                        assert(false);
                    }
                }
            }
        }
    }
}

} // verus!
