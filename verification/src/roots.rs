//! Which search directory an entry belongs to.

use crate::paths;
use crate::text;
use vstd::prelude::*;

verus! {

/// Whether `index` is the search directory that `path` belongs to: of those
/// that contain it the one with the most components, and of several such the
/// first.
pub open spec fn is_best_root(path: Seq<char>, roots: Seq<Seq<char>>, index: int) -> bool {
    &&& 0 <= index < roots.len()
    &&& paths::lies_under(path, roots[index])
    &&& forall|other: int|
        #![trigger roots[other]]
        0 <= other < roots.len() && paths::lies_under(path, roots[other]) ==> {
            let depth = paths::components(roots[index]).len();
            let other_depth = paths::components(roots[other]).len();
            other_depth < depth || (other_depth == depth && index <= other)
        }
}

/// Whether some search directory contains `path`.
pub open spec fn is_under_some_root(path: Seq<char>, roots: Seq<Seq<char>>) -> bool {
    exists|index: int|
        #![trigger roots[index]]
        0 <= index < roots.len() && paths::lies_under(path, roots[index])
}

/// The search directory that `path` belongs to.
pub open spec fn best_root(path: Seq<char>, roots: Seq<Seq<char>>) -> int {
    choose|index: int| is_best_root(path, roots, index)
}

/// Finds the search directory that `path` belongs to, and the path relative to
/// it.
///
/// Where several search directories contain the path, the deepest one wins,
/// and of equally deep ones the first.
pub fn get_file_path(path: &str, search_directories: &Vec<String>) -> (found: Option<
    (usize, String),
>)
    ensures
        ({
            let roots = text::texts(search_directories@);
            match found {
                Some((index, relative)) => {
                    &&& is_best_root(path@, roots, index as int)
                    &&& paths::stripped(path@, roots[index as int]) == Some(relative@)
                },
                None => !is_under_some_root(path@, roots),
            }
        }),
{
    let mut best: Option<(usize, String)> = None;
    let ghost roots = text::texts(search_directories@);
    for i in 0..search_directories.len()
        invariant
            roots == text::texts(search_directories@),
            match best {
                Some((index, relative)) => {
                    &&& is_best_root(path@, roots.take(i as int), index as int)
                    &&& index < i
                    &&& paths::stripped(path@, roots[index as int]) == Some(relative@)
                },
                None => !is_under_some_root(path@, roots.take(i as int)),
            },
    {
        let ghost seen = roots.take(i as int);
        let ghost more = roots.take(i + 1);
        assert(more =~= seen.push(roots[i as int]));
        let root = &search_directories[i];
        let replaced: bool = match paths::strip_prefix(path, root) {
            Some(relative) => {
                let depth: usize = paths::depth_of(root);
                let better: bool = match &best {
                    Some((index, _)) => paths::depth_of(&search_directories[*index]) < depth,
                    None => true,
                };
                if better {
                    let ghost previous = best;
                    best = Some((i, relative));
                    proof {
                        assert forall|other: int|
                            #![trigger more[other]]
                            0 <= other < more.len() && paths::lies_under(
                                path@,
                                more[other],
                            ) implies {
                            let here = paths::components(more[i as int]).len();
                            let there = paths::components(more[other]).len();
                            there < here || (there == here && i <= other)
                        } by {
                            if other < i {
                                assert(more[other] == seen[other]);
                            }
                        }
                    }
                }
                better
            },
            None => false,
        };
        proof {
            if !replaced {
                match best {
                    Some((index, _)) => {
                        assert forall|other: int|
                            #![trigger more[other]]
                            0 <= other < more.len() && paths::lies_under(
                                path@,
                                more[other],
                            ) implies {
                            let here = paths::components(more[index as int]).len();
                            let there = paths::components(more[other]).len();
                            there < here || (there == here && index <= other)
                        } by {
                            assert(more[index as int] == seen[index as int]);
                            if other < i {
                                assert(more[other] == seen[other]);
                            }
                        }
                    },
                    None => {
                        assert forall|other: int|
                            #![trigger more[other]]
                            0 <= other < more.len() implies !paths::lies_under(
                            path@,
                            more[other],
                        ) by {
                            if other < i {
                                assert(more[other] == seen[other]);
                            }
                        }
                    },
                }
            }
        }
    }
    assert(roots.take(roots.len() as int) =~= roots);
    best
}

/// A path that lies under some search directory belongs to exactly one.
pub proof fn law_best_root_is_unique(path: Seq<char>, roots: Seq<Seq<char>>, index: int, other: int)
    requires
        is_best_root(path, roots, index),
        is_best_root(path, roots, other),
    ensures
        index == other,
        best_root(path, roots) == index,
{
    let chosen = best_root(path, roots);
    assert(is_best_root(path, roots, chosen));
    assert(roots[index] == roots[index]);
    assert(roots[other] == roots[other]);
    assert(roots[chosen] == roots[chosen]);
}

/// A path that lies under some search directory belongs to one: the best root
/// contains it.
pub proof fn law_some_root_is_best(path: Seq<char>, roots: Seq<Seq<char>>)
    requires
        is_under_some_root(path, roots),
    ensures
        is_best_root(path, roots, best_root(path, roots)),
{
    lemma_best_root_exists(path, roots);
}

proof fn lemma_best_root_exists(path: Seq<char>, roots: Seq<Seq<char>>)
    requires
        is_under_some_root(path, roots),
    ensures
        exists|index: int| is_best_root(path, roots, index),
    decreases roots.len(),
{
    let last = roots.len() - 1;
    let fewer = roots.drop_last();
    assert forall|other: int| 0 <= other < last implies #[trigger] roots[other] == fewer[other] by {}
    if is_under_some_root(path, fewer) {
        lemma_best_root_exists(path, fewer);
        let best = choose|index: int| is_best_root(path, fewer, index);
        assert(fewer[best] == roots[best]);
        if paths::lies_under(path, roots[last]) && paths::components(roots[last]).len()
            > paths::components(roots[best]).len() {
            assert(is_best_root(path, roots, last));
        } else {
            assert(is_best_root(path, roots, best));
        }
    } else {
        let some = choose|index: int|
            #![trigger roots[index]]
            0 <= index < roots.len() && paths::lies_under(path, roots[index]);
        if some < last {
            assert(fewer[some] == roots[some]);
        }
        assert(is_best_root(path, roots, last));
    }
}

/// Of the search directories above a path the one with the most components is
/// the best, and of several such the one that comes first.
pub proof fn law_deepest_root_is_best(path: Seq<char>, roots: Seq<Seq<char>>, best: int, other: int)
    requires
        is_best_root(path, roots, best),
        0 <= other < roots.len(),
        paths::components(roots[other]).is_prefix_of(paths::components(path)),
    ensures
        0 <= best < roots.len(),
        paths::components(roots[best]).is_prefix_of(paths::components(path)),
        paths::components(roots[other]).len() <= paths::components(roots[best]).len(),
        other < best ==> paths::components(roots[other]).len() < paths::components(
            roots[best],
        ).len(),
{
    assert(paths::lies_under(path, roots[other]));
}

/// A path is below some search directory exactly where the components of one are
/// its first ones, and only there does one of them count as best.
pub proof fn law_some_root_is_above(path: Seq<char>, roots: Seq<Seq<char>>, root: int)
    ensures
        0 <= root < roots.len() && paths::components(roots[root]).is_prefix_of(
            paths::components(path),
        ) ==> is_under_some_root(path, roots),
        is_under_some_root(path, roots) ==> exists|index: int|
            0 <= index < roots.len() && paths::components(
                #[trigger] roots[index],
            ).is_prefix_of(paths::components(path)),
        is_best_root(path, roots, root) ==> is_under_some_root(path, roots),
{
    if 0 <= root < roots.len() && paths::components(roots[root]).is_prefix_of(
        paths::components(path),
    ) {
        assert(paths::lies_under(path, roots[root]));
    }
    if is_under_some_root(path, roots) {
        let index = choose|index: int|
            #![trigger roots[index]]
            0 <= index < roots.len() && paths::lies_under(path, roots[index]);
        assert(paths::components(roots[index]).is_prefix_of(paths::components(path)));
    }
}

/// One more search directory takes a path over only where it lies above the path
/// and deeper than the best so far.
pub proof fn law_deeper_root_takes_over(path: Seq<char>, roots: Seq<Seq<char>>, root: Seq<char>)
    requires
        is_under_some_root(path, roots),
    ensures
        ({
            let best = best_root(path, roots);
            let takes_over = paths::lies_under(path, root) && paths::components(root).len()
                > paths::components(roots[best]).len();
            best_root(path, roots.push(root)) == (if takes_over {
                roots.len() as int
            } else {
                best
            })
        }),
{
    let more = roots.push(root);
    let best = best_root(path, roots);
    law_some_root_is_best(path, roots);
    assert forall|i: int| 0 <= i < roots.len() implies #[trigger] more[i] == roots[i] by {}
    let takes_over = paths::lies_under(path, root) && paths::components(root).len()
        > paths::components(roots[best]).len();
    let expected: int = if takes_over {
        roots.len() as int
    } else {
        best
    };
    assert forall|other: int|
        #![trigger more[other]]
        0 <= other < more.len() && paths::lies_under(path, more[other]) implies {
        let depth = paths::components(more[expected]).len();
        let other_depth = paths::components(more[other]).len();
        other_depth < depth || (other_depth == depth && expected <= other)
    } by {
        if other < roots.len() {
            assert(more[other] == roots[other]);
        }
        assert(more[best] == roots[best]);
    }
    assert(more[best] == roots[best]);
    assert(is_best_root(path, more, expected));
    law_best_root_is_unique(path, more, expected, expected);
}

} // verus!
