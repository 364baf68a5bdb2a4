//! The order of matches, and of the character indices inside a match.

use crate::text::{chars_of, same_text};
use std::cmp::Ordering;
use vstd::prelude::*;

verus! {

/// Whether `left` comes before `right` in the order of their characters' code
/// points: at the first place where they differ `left` has the lower one, or
/// `left` ends there.
pub open spec fn text_before(left: Seq<char>, right: Seq<char>) -> bool {
    exists|same: int| #[trigger] differs_first_at(left, right, same)
}

/// Whether the first `same` characters agree and `left` is lower behind them.
pub open spec fn differs_first_at(left: Seq<char>, right: Seq<char>, same: int) -> bool {
    &&& 0 <= same <= left.len()
    &&& same < right.len()
    &&& left.subrange(0, same) == right.subrange(0, same)
    &&& same == left.len() || left[same] < right[same]
}

/// Whether a match with the first score and path ranks ahead of one with the
/// second: the higher score first, and of equal scores the lower path.
pub open spec fn ranks_ahead(score: u32, path: Seq<char>, other_score: u32, other_path: Seq<char>) -> bool {
    score > other_score || (score == other_score && text_before(path, other_path))
}

/// How two texts compare, character by character.
pub open spec fn text_order(left: Seq<char>, right: Seq<char>) -> Ordering {
    if left == right {
        Ordering::Equal
    } else if text_before(left, right) {
        Ordering::Less
    } else {
        Ordering::Greater
    }
}

/// Whether `left` comes before `right`.
fn comes_before(left: &str, right: &str) -> (before: bool)
    ensures
        before == text_before(left@, right@),
{
    let left_chars = chars_of(left);
    let right_chars = chars_of(right);
    let mut i: usize = 0;
    while i < left_chars.len() && i < right_chars.len()
        invariant
            left_chars@ == left@,
            right_chars@ == right@,
            i <= left@.len(),
            i <= right@.len(),
            left@.subrange(0, i as int) == right@.subrange(0, i as int),
        decreases left@.len() - i,
    {
        if left_chars[i] < right_chars[i] {
            assert(differs_first_at(left@, right@, i as int));
            return true;
        }
        if right_chars[i] < left_chars[i] {
            proof {
                assert(differs_first_at(right@, left@, i as int));
                lemma_text_before_is_asymmetric(right@, left@);
            }
            return false;
        }
        assert(left@.subrange(0, i + 1) =~= left@.subrange(0, i as int).push(left@[i as int]));
        assert(right@.subrange(0, i + 1) =~= right@.subrange(0, i as int).push(right@[i as int]));
        i += 1;
    }
    assert(left@.subrange(0, left@.len() as int) =~= left@);
    assert(right@.subrange(0, right@.len() as int) =~= right@);
    if i < right_chars.len() {
        assert(differs_first_at(left@, right@, i as int));
        true
    } else {
        proof {
            if i < left@.len() {
                assert(differs_first_at(right@, left@, i as int));
                lemma_text_before_is_asymmetric(right@, left@);
            } else if text_before(left@, right@) {
                lemma_text_before_is_asymmetric(left@, right@);
            }
        }
        false
    }
}

/// Compares two texts by the code points of their characters.
pub fn compare_text(left: &str, right: &str) -> (order: Ordering)
    ensures
        order == text_order(left@, right@),
{
    if same_text(left, right) {
        Ordering::Equal
    } else if comes_before(left, right) {
        Ordering::Less
    } else {
        Ordering::Greater
    }
}

proof fn lemma_text_before_is_asymmetric(left: Seq<char>, right: Seq<char>)
    requires
        text_before(left, right),
    ensures
        left != right,
        !text_before(right, left),
{
    let here = choose|same: int| differs_first_at(left, right, same);
    if left == right {
        assert(left[here] == right[here]);
    }
    if text_before(right, left) {
        let there = choose|same: int| differs_first_at(right, left, same);
        if here < there {
            assert(left.subrange(0, there)[here] == right.subrange(0, there)[here]);
        } else if there < here {
            assert(left.subrange(0, here)[there] == right.subrange(0, here)[there]);
        }
    }
}

proof fn lemma_text_before_is_transitive(left: Seq<char>, middle: Seq<char>, right: Seq<char>)
    requires
        text_before(left, middle),
        text_before(middle, right),
    ensures
        text_before(left, right),
{
    let first = choose|same: int| differs_first_at(left, middle, same);
    let second = choose|same: int| differs_first_at(middle, right, same);
    let same = if first <= second {
        first
    } else {
        second
    };
    assert(left.subrange(0, same) =~= right.subrange(0, same)) by {
        assert forall|i: int| 0 <= i < same implies left.subrange(0, same)[i] == right.subrange(
            0,
            same,
        )[i] by {
            assert(left.subrange(0, first)[i] == middle.subrange(0, first)[i]);
            assert(middle.subrange(0, second)[i] == right.subrange(0, second)[i]);
        }
    }
    if first < second {
        assert(middle.subrange(0, second)[first] == right.subrange(0, second)[first]);
    } else if second < first {
        assert(left.subrange(0, first)[second] == middle.subrange(0, first)[second]);
    }
    assert(differs_first_at(left, right, same));
}

proof fn lemma_text_before_is_total(left: Seq<char>, right: Seq<char>)
    ensures
        left == right || text_before(left, right) || text_before(right, left),
{
    assert(left.subrange(0, 0) =~= right.subrange(0, 0));
    lemma_first_difference(left, right, 0);
}

proof fn lemma_first_difference(left: Seq<char>, right: Seq<char>, same: int)
    requires
        0 <= same <= left.len(),
        same <= right.len(),
        left.subrange(0, same) == right.subrange(0, same),
    ensures
        left == right || text_before(left, right) || text_before(right, left),
    decreases left.len() - same,
{
    if same == left.len() && same == right.len() {
        assert(left.subrange(0, same) =~= left);
        assert(right.subrange(0, same) =~= right);
    } else if same == left.len() {
        assert(differs_first_at(left, right, same));
    } else if same == right.len() {
        assert(differs_first_at(right, left, same));
    } else if left[same] < right[same] {
        assert(differs_first_at(left, right, same));
    } else if right[same] < left[same] {
        assert(differs_first_at(right, left, same));
    } else {
        assert(left.subrange(0, same + 1) =~= left.subrange(0, same).push(left[same]));
        assert(right.subrange(0, same + 1) =~= right.subrange(0, same).push(right[same]));
        lemma_first_difference(left, right, same + 1);
    }
}

/// The ranking is a strict total order on pairs of score and path: of two
/// different pairs exactly one ranks ahead, and the relation is transitive.
pub proof fn law_ranking_is_a_strict_total_order(
    first: (u32, Seq<char>),
    second: (u32, Seq<char>),
    third: (u32, Seq<char>),
)
    ensures
        !ranks_ahead(first.0, first.1, first.0, first.1),
        ranks_ahead(first.0, first.1, second.0, second.1) ==> !ranks_ahead(
            second.0,
            second.1,
            first.0,
            first.1,
        ),
        first != second ==> ranks_ahead(first.0, first.1, second.0, second.1) || ranks_ahead(
            second.0,
            second.1,
            first.0,
            first.1,
        ),
        ranks_ahead(first.0, first.1, second.0, second.1) && ranks_ahead(
            second.0,
            second.1,
            third.0,
            third.1,
        ) ==> ranks_ahead(first.0, first.1, third.0, third.1),
{
    if text_before(first.1, first.1) {
        lemma_text_before_is_asymmetric(first.1, first.1);
    }
    if text_before(first.1, second.1) {
        lemma_text_before_is_asymmetric(first.1, second.1);
        if text_before(second.1, third.1) {
            lemma_text_before_is_transitive(first.1, second.1, third.1);
        }
    }
    lemma_text_before_is_total(first.1, second.1);
}

/// Returns a comparator suitable for `slice.sort_by(...)` that orders items by
/// descending score and then ascending path using the provided accessors.
pub fn cmp_by_score_desc_then_path_asc<T, FScore, FPath>(
    score_of: FScore,
    path_of: FPath,
) -> (compare: impl Fn(&T, &T) -> Ordering) where
    FScore: Fn(&T) -> u32,
    FPath: Fn(&T) -> &str,

    requires
        forall|item: &T| score_of.requires((item,)),
        forall|item: &T| path_of.requires((item,)),
    ensures
        forall|a: &T, b: &T| #[trigger] compare.requires((a, b)),
        forall|a: &T, b: &T, order: Ordering| #[trigger]
            compare.ensures((a, b), order) ==> exists|score: u32, other_score: u32| #[trigger]
                score_of.ensures((a,), score) && #[trigger] score_of.ensures((b,), other_score) && {
                    &&& score > other_score ==> order == Ordering::Less
                    &&& score < other_score ==> order == Ordering::Greater
                    &&& score == other_score ==> exists|path: &str, other_path: &str| #[trigger]
                        path_of.ensures((a,), path) && #[trigger] path_of.ensures((b,), other_path)
                            && order == text_order(path@, other_path@) && {
                            &&& order == Ordering::Less <==> ranks_ahead(
                                score,
                                path@,
                                other_score,
                                other_path@,
                            )
                            &&& order == Ordering::Greater <==> ranks_ahead(
                                other_score,
                                other_path@,
                                score,
                                path@,
                            )
                            &&& order == Ordering::Equal <==> path@ == other_path@
                        }
                },
{
    move |a: &T, b: &T| -> (order: Ordering)
        ensures
            exists|score: u32, other_score: u32| #[trigger]
                score_of.ensures((a,), score) && #[trigger] score_of.ensures((b,), other_score) && {
                    &&& score > other_score ==> order == Ordering::Less
                    &&& score < other_score ==> order == Ordering::Greater
                    &&& score == other_score ==> exists|path: &str, other_path: &str| #[trigger]
                        path_of.ensures((a,), path) && #[trigger] path_of.ensures((b,), other_path)
                            && order == text_order(path@, other_path@) && {
                            &&& order == Ordering::Less <==> ranks_ahead(
                                score,
                                path@,
                                other_score,
                                other_path@,
                            )
                            &&& order == Ordering::Greater <==> ranks_ahead(
                                other_score,
                                other_path@,
                                score,
                                path@,
                            )
                            &&& order == Ordering::Equal <==> path@ == other_path@
                        }
                },
        {
            let score: u32 = score_of(a);
            let other_score: u32 = score_of(b);
            if score > other_score {
                Ordering::Less
            } else if score < other_score {
                Ordering::Greater
            } else {
                let path = path_of(a);
                let other_path = path_of(b);
                proof {
                    law_comparing_backwards_turns_the_order(path@, other_path@);
                }
                compare_text(path, other_path)
            }
        }
}

/// The scores and paths of a sequence of matches.
pub open spec fn ranked(matches: Seq<(u32, String)>) -> Seq<(u32, Seq<char>)> {
    Seq::new(matches.len(), |i: int| (matches[i].0, matches[i].1@))
}

/// Whether no match ranks ahead of one that stands before it.
pub open spec fn is_ranked(matches: Seq<(u32, Seq<char>)>) -> bool {
    forall|i: int, j: int|
        #![trigger matches[i], matches[j]]
        0 <= i < j < matches.len() ==> !ranks_ahead(
            matches[j].0,
            matches[j].1,
            matches[i].0,
            matches[i].1,
        )
}

fn score_of_pair(item: &(u32, String)) -> (score: u32)
    ensures
        score == item.0,
{
    item.0
}

fn path_of_pair(item: &(u32, String)) -> (path: &str)
    ensures
        path@ == item.1@,
{
    item.1.as_str()
}

/// Whether `item` ranks ahead of `other`.
fn goes_ahead(item: &(u32, String), other: &(u32, String)) -> (ahead: bool)
    ensures
        ahead == ranks_ahead(item.0, item.1@, other.0, other.1@),
{
    let compare = cmp_by_score_desc_then_path_asc(score_of_pair, path_of_pair);
    let order = compare(item, other);
    proof {
        law_ranking_is_a_strict_total_order(
            (item.0, item.1@),
            (other.0, other.1@),
            (item.0, item.1@),
        );
    }
    match order {
        Ordering::Less => true,
        Ordering::Equal => false,
        Ordering::Greater => false,
    }
}

/// Sort matches in-place by descending score, then ascending path.
pub fn sort_matches(matches: &mut Vec<(u32, String)>)
    ensures
        is_ranked(ranked(final(matches)@)),
        final(matches)@.to_multiset() == old(matches)@.to_multiset(),
        forall|i: int, j: int|
            #![trigger final(matches)@[i], final(matches)@[j]]
            0 <= i < j < final(matches)@.len() ==> final(matches)@[i].0 >= final(matches)@[j].0 && (
            final(matches)@[i].0 == final(matches)@[j].0 ==> final(matches)@[i].1@
                == final(matches)@[j].1@ || text_before(
                final(matches)@[i].1@,
                final(matches)@[j].1@,
            )),
{
    let count: usize = matches.len();
    let mut sorted: usize = 0;
    while sorted < count
        invariant
            sorted <= count == matches@.len(),
            is_ranked(ranked(matches@.take(sorted as int))),
            matches@.to_multiset() == old(matches)@.to_multiset(),
        decreases count - sorted,
    {
        move_into_place(matches, sorted);
        sorted += 1;
    }
    assert(matches@.take(count as int) =~= matches@);
    proof {
        lemma_ranked_pairs(matches@);
    }
}

proof fn lemma_ranked_pairs(matches: Seq<(u32, String)>)
    requires
        is_ranked(ranked(matches)),
    ensures
        forall|i: int, j: int|
            #![trigger matches[i], matches[j]]
            0 <= i < j < matches.len() ==> matches[i].0 >= matches[j].0 && (matches[i].0
                == matches[j].0 ==> matches[i].1@ == matches[j].1@ || text_before(
                matches[i].1@,
                matches[j].1@,
            )),
{
    assert forall|i: int, j: int|
        #![trigger matches[i], matches[j]]
        0 <= i < j < matches.len() implies matches[i].0 >= matches[j].0 && (matches[i].0
        == matches[j].0 ==> matches[i].1@ == matches[j].1@ || text_before(
            matches[i].1@,
            matches[j].1@,
        )) by {
        assert(ranked(matches)[i] == (matches[i].0, matches[i].1@));
        assert(ranked(matches)[j] == (matches[j].0, matches[j].1@));
        lemma_text_before_is_total(matches[i].1@, matches[j].1@);
    }
}

/// Moves the match behind the first `sorted` ones to its place among them.
fn move_into_place(matches: &mut Vec<(u32, String)>, sorted: usize)
    requires
        sorted < old(matches)@.len(),
        is_ranked(ranked(old(matches)@.take(sorted as int))),
    ensures
        final(matches)@.len() == old(matches)@.len(),
        is_ranked(ranked(final(matches)@.take(sorted + 1))),
        final(matches)@.to_multiset() == old(matches)@.to_multiset(),
{
    let ghost before = matches@;
    let ghost moved = matches@[sorted as int];
    let mut place: usize = sorted;
    while place > 0 && goes_ahead(&matches[sorted], &matches[place - 1])
        invariant
            place <= sorted < matches@.len(),
            matches@ == before,
            forall|i: int|
                place <= i < sorted ==> ranks_ahead(
                    before[sorted as int].0,
                    before[sorted as int].1@,
                    (#[trigger] before[i]).0,
                    before[i].1@,
                ),
        decreases place,
    {
        place -= 1;
    }
    let item = matches.remove(sorted);
    let ghost without = matches@;
    matches.insert(place, item);
    proof {
        vstd::seq_lib::to_multiset_remove(before, sorted as int);
        vstd::seq_lib::to_multiset_insert(without, place as int, moved);
        assert(before.to_multiset().remove(moved).insert(moved) =~= before.to_multiset()) by {
            broadcast use vstd::seq_lib::group_to_multiset_ensures;
            assert(before.to_multiset().count(moved) > 0) by {
                assert(before.contains(moved));
            }
        }
        let old_ranked = ranked(before.take(sorted as int));
        let new_ranked = ranked(matches@.take(sorted + 1));
        assert forall|i: int, j: int|
            #![trigger new_ranked[i], new_ranked[j]]
            0 <= i < j < new_ranked.len() implies !ranks_ahead(
            new_ranked[j].0,
            new_ranked[j].1,
            new_ranked[i].0,
            new_ranked[i].1,
        ) by {
            let x = (moved.0, moved.1@);
            let i_old = if i < place {
                i
            } else {
                i - 1
            };
            let j_old = if j < place {
                j
            } else {
                j - 1
            };
            if i != place {
                assert(new_ranked[i] == old_ranked[i_old]);
            }
            if j != place {
                assert(new_ranked[j] == old_ranked[j_old]);
            }
            if i == place {
                assert(new_ranked[i] == x);
                let y = old_ranked[j_old];
                assert(before[j_old] == before.take(sorted as int)[j_old]);
                law_ranking_is_a_strict_total_order(x, y, x);
            } else if j == place {
                assert(new_ranked[j] == x);
                let y = old_ranked[i];
                let near = old_ranked[place - 1];
                law_ranking_is_a_strict_total_order(x, y, near);
                law_ranking_is_a_strict_total_order(y, near, x);
                law_ranking_is_a_strict_total_order(near, y, x);
                assert(before[place - 1] == before.take(sorted as int)[place - 1]);
            }
        }
    }
}

/// Whether each number is greater than the one before it.
pub open spec fn is_ascending(numbers: Seq<u32>) -> bool {
    forall|i: int, j: int|
        #![trigger numbers[i], numbers[j]]
        0 <= i < j < numbers.len() ==> numbers[i] < numbers[j]
}

/// Whether `unique` lists the numbers that occur in `numbers`, each once and in
/// ascending order.
pub open spec fn lists_once(unique: Seq<u32>, numbers: Seq<u32>) -> bool {
    &&& is_ascending(unique)
    &&& forall|number: u32| #[trigger] unique.contains(number) <==> numbers.contains(number)
}

/// The numbers of `numbers`, each once and in ascending order.
pub fn ascending_unique(numbers: &Vec<u32>) -> (unique: Vec<u32>)
    ensures
        lists_once(unique@, numbers@),
{
    let mut unique: Vec<u32> = Vec::new();
    for i in 0..numbers.len()
        invariant
            lists_once(unique@, numbers@.take(i as int)),
    {
        let ghost seen = numbers@.take(i as int);
        let number: u32 = numbers[i];
        insert_ascending(&mut unique, number);
        proof {
            let more = numbers@.take(i + 1);
            assert(more =~= seen.push(number));
            assert forall|other: u32| #[trigger]
                unique@.contains(other) <==> more.contains(other) by {
                if more.contains(other) && other != number {
                    let at = choose|at: int| 0 <= at < more.len() && more[at] == other;
                    assert(seen[at] == other);
                }
                if seen.contains(other) {
                    let at = choose|at: int| 0 <= at < seen.len() && seen[at] == other;
                    assert(more[at] == other);
                }
                assert(more[i as int] == number);
            }
        }
    }
    assert(numbers@.take(numbers@.len() as int) =~= numbers@);
    unique
}

/// Puts `number` in its place, unless it is there already.
fn insert_ascending(numbers: &mut Vec<u32>, number: u32)
    requires
        is_ascending(old(numbers)@),
    ensures
        is_ascending(final(numbers)@),
        forall|other: u32| #[trigger]
            final(numbers)@.contains(other) <==> old(numbers)@.contains(other) || other == number,
{
    let ghost before = numbers@;
    let mut place: usize = numbers.len();
    while place > 0 && numbers[place - 1] >= number
        invariant
            place <= numbers@.len(),
            numbers@ == before,
            is_ascending(before),
            forall|i: int| place <= i < numbers@.len() ==> before[i] >= number,
        decreases place,
    {
        place -= 1;
    }
    if place < numbers.len() && numbers[place] == number {
        assert(before[place as int] == number);
        return ;
    }
    numbers.insert(place, number);
    proof {
        let after = numbers@;
        assert forall|i: int, j: int|
            #![trigger after[i], after[j]]
            0 <= i < j < after.len() implies after[i] < after[j] by {
            if j > place {
                assert(after[j] == before[j - 1]);
                assert(before[place as int] > number);
            }
            if i < place {
                assert(after[i] == before[i]);
                assert(before[i] <= before[place - 1]);
            }
            if i > place {
                assert(after[i] == before[i - 1]);
            }
        }
        assert forall|other: u32| #[trigger]
            after.contains(other) <==> before.contains(other) || other == number by {
            if before.contains(other) {
                let at = choose|at: int| 0 <= at < before.len() && before[at] == other;
                if at < place {
                    assert(after[at] == other);
                } else {
                    assert(after[at + 1] == other);
                }
            }
            if after.contains(other) && other != number {
                let at = choose|at: int| 0 <= at < after.len() && after[at] == other;
                if at < place {
                    assert(before[at] == other);
                } else {
                    assert(before[at - 1] == other);
                }
            }
            assert(after[place as int] == number);
        }
    }
}

/// There is only one way to list the numbers of a sequence once and in
/// ascending order.
pub proof fn law_listing_is_unique(left: Seq<u32>, right: Seq<u32>, numbers: Seq<u32>)
    requires
        lists_once(left, numbers),
        lists_once(right, numbers),
    ensures
        left == right,
    decreases left.len(),
{
    assert forall|number: u32| left.contains(number) == right.contains(number) by {}
    lemma_same_members_same_listing(left, right);
}

/// The numbers of a sequence can be listed once and in ascending order.
pub proof fn law_listing_exists(numbers: Seq<u32>)
    ensures
        exists|unique: Seq<u32>| #[trigger] lists_once(unique, numbers),
    decreases numbers.len(),
{
    if numbers.len() == 0 {
        assert(lists_once(Seq::empty(), numbers));
    } else {
        let fewer = numbers.drop_last();
        let number = numbers.last();
        law_listing_exists(fewer);
        let unique = choose|unique: Seq<u32>| #[trigger] lists_once(unique, fewer);
        assert(numbers =~= fewer.push(number));
        lemma_contains_pushed(fewer, number);
        if unique.contains(number) {
            assert(lists_once(unique, numbers));
        } else {
            lemma_listing_takes_one_more(unique, number, unique.len() as int);
            let more = choose|more: Seq<u32>| #[trigger] is_ascending(more) && forall|other: u32|
                more.contains(other) <==> unique.contains(other) || other == number;
            assert(lists_once(more, numbers));
        }
    }
}

proof fn lemma_contains_pushed(numbers: Seq<u32>, number: u32)
    ensures
        forall|other: u32| #[trigger]
            numbers.push(number).contains(other) <==> numbers.contains(other) || other == number,
{
    assert forall|other: u32| #[trigger]
        numbers.push(number).contains(other) <==> numbers.contains(other) || other == number by {
        let more = numbers.push(number);
        if numbers.contains(other) {
            let at = choose|at: int| 0 <= at < numbers.len() && numbers[at] == other;
            assert(more[at] == other);
        }
        assert(more[numbers.len() as int] == number);
        if more.contains(other) && other != number {
            let at = choose|at: int| 0 <= at < more.len() && more[at] == other;
            assert(numbers[at] == other);
        }
    }
}

/// A number that an ascending sequence lacks has a place in it, looked for from
/// `place` downwards.
proof fn lemma_listing_takes_one_more(unique: Seq<u32>, number: u32, place: int)
    requires
        is_ascending(unique),
        !unique.contains(number),
        0 <= place <= unique.len(),
        forall|i: int| place <= i < unique.len() ==> unique[i] > number,
    ensures
        exists|more: Seq<u32>| #[trigger] is_ascending(more) && forall|other: u32|
            more.contains(other) <==> unique.contains(other) || other == number,
    decreases place,
{
    if place > 0 && unique[place - 1] > number {
        lemma_listing_takes_one_more(unique, number, place - 1);
    } else {
        if place > 0 {
            assert(unique.contains(unique[place - 1]));
        }
        let more = unique.insert(place, number);
        assert forall|i: int, j: int|
            #![trigger more[i], more[j]]
            0 <= i < j < more.len() implies more[i] < more[j] by {
            if i < place && j >= place && place > 0 {
                assert(unique[i] <= unique[place - 1]);
            }
        }
        assert forall|other: u32|
            more.contains(other) <==> unique.contains(other) || other == number by {
            if unique.contains(other) {
                let at = choose|at: int| 0 <= at < unique.len() && unique[at] == other;
                if at < place {
                    assert(more[at] == other);
                } else {
                    assert(more[at + 1] == other);
                }
            }
            assert(more[place] == number);
            if more.contains(other) && other != number {
                let at = choose|at: int| 0 <= at < more.len() && more[at] == other;
                if at < place {
                    assert(unique[at] == other);
                } else {
                    assert(unique[at - 1] == other);
                }
            }
        }
        assert(is_ascending(more));
    }
}

proof fn lemma_same_members_same_listing(left: Seq<u32>, right: Seq<u32>)
    requires
        is_ascending(left),
        is_ascending(right),
        forall|number: u32| #![auto] left.contains(number) == right.contains(number),
    ensures
        left == right,
    decreases left.len(),
{
    if left.len() == 0 {
        if right.len() > 0 {
            assert(right.contains(right[0]));
        }
        assert(left =~= right);
    } else {
        assert(left.contains(left.last()));
        assert(right.len() > 0);
        let at = choose|at: int| 0 <= at < right.len() && right[at] == left.last();
        assert(right.contains(right.last()));
        let there = choose|there: int| 0 <= there < left.len() && left[there] == right.last();
        assert(left.last() == right.last());
        let left_rest = left.drop_last();
        let right_rest = right.drop_last();
        assert forall|number: u32| #![auto]
            left_rest.contains(number) == right_rest.contains(number) by {
            if left_rest.contains(number) {
                let i = choose|i: int| 0 <= i < left_rest.len() && left_rest[i] == number;
                assert(left[i] == number);
                assert(left.contains(number));
                let j = choose|j: int| 0 <= j < right.len() && right[j] == number;
                assert(number < left.last());
                assert(right_rest[j] == number);
            }
            if right_rest.contains(number) {
                let i = choose|i: int| 0 <= i < right_rest.len() && right_rest[i] == number;
                assert(right[i] == number);
                assert(right.contains(number));
                let j = choose|j: int| 0 <= j < left.len() && left[j] == number;
                assert(number < right.last());
                assert(left_rest[j] == number);
            }
        }
        lemma_same_members_same_listing(left_rest, right_rest);
        assert(left =~= left_rest.push(left.last()));
        assert(right =~= right_rest.push(right.last()));
    }
}

/// Texts are compared at the first place where they differ: the one with the
/// lower character there, or the one that ends there, is less. They compare as
/// equal only where nothing differs.
pub proof fn law_first_difference_decides(left: Seq<char>, right: Seq<char>, same: int)
    requires
        0 <= same <= left.len(),
        same <= right.len(),
        forall|i: int| 0 <= i < same ==> left[i] == #[trigger] right[i],
    ensures
        same < left.len() && same < right.len() && left[same] < right[same] ==> text_order(
            left,
            right,
        ) == Ordering::Less,
        same < left.len() && same < right.len() && left[same] > right[same] ==> text_order(
            left,
            right,
        ) == Ordering::Greater,
        same == left.len() && same < right.len() ==> text_order(left, right) == Ordering::Less,
        same < left.len() && same == right.len() ==> text_order(left, right) == Ordering::Greater,
        same == left.len() && same == right.len() ==> text_order(left, right) == Ordering::Equal,
{
    assert(left.subrange(0, same) =~= right.subrange(0, same));
    if same < right.len() && (same == left.len() || left[same] < right[same]) {
        assert(differs_first_at(left, right, same));
        lemma_text_before_is_asymmetric(left, right);
    } else if same < left.len() && (same == right.len() || left[same] > right[same]) {
        assert(differs_first_at(right, left, same));
        lemma_text_before_is_asymmetric(right, left);
    } else if same == left.len() && same == right.len() {
        assert(left =~= right);
    }
}

/// Comparing two texts the other way round turns the answer round, and they
/// compare as equal only where they are the same text.
pub proof fn law_comparing_backwards_turns_the_order(left: Seq<char>, right: Seq<char>)
    ensures
        text_order(left, right) == Ordering::Equal <==> left == right,
        text_order(left, right) == Ordering::Less <==> text_order(right, left)
            == Ordering::Greater,
        text_order(left, right) == Ordering::Less <==> text_before(left, right),
        text_order(left, right) == Ordering::Greater <==> text_before(right, left),
{
    lemma_text_before_is_total(left, right);
    if text_before(left, right) {
        lemma_text_before_is_asymmetric(left, right);
    }
    if text_before(right, left) {
        lemma_text_before_is_asymmetric(right, left);
    }
}

/// What two texts begin with in common has no say in how they compare.
pub proof fn law_common_beginning_has_no_say(
    beginning: Seq<char>,
    left: Seq<char>,
    right: Seq<char>,
)
    ensures
        text_order(beginning + left, beginning + right) == text_order(left, right),
{
    law_comparing_backwards_turns_the_order(left, right);
    law_comparing_backwards_turns_the_order(beginning + left, beginning + right);
    if text_before(left, right) {
        lemma_longer_beginning(beginning, left, right);
    }
    if text_before(right, left) {
        lemma_longer_beginning(beginning, right, left);
    }
}

proof fn lemma_longer_beginning(beginning: Seq<char>, left: Seq<char>, right: Seq<char>)
    requires
        text_before(left, right),
    ensures
        text_before(beginning + left, beginning + right),
{
    let same = choose|same: int| differs_first_at(left, right, same);
    let further = beginning.len() + same;
    let longer = beginning + left;
    let other = beginning + right;
    assert forall|i: int| 0 <= i < further implies longer.subrange(0, further)[i]
        == other.subrange(0, further)[i] by {
        if i >= beginning.len() {
            assert(left.subrange(0, same)[i - beginning.len()] == right.subrange(0, same)[i
                - beginning.len()]);
        }
    }
    assert(longer.subrange(0, further) =~= other.subrange(0, further));
    assert(differs_first_at(longer, other, further));
}

/// A higher score ranks ahead whatever the paths are. Of equal scores the path
/// that is less ranks ahead.
pub proof fn law_score_ranks_before_path(
    score: u32,
    path: Seq<char>,
    other_score: u32,
    other_path: Seq<char>,
)
    ensures
        score > other_score ==> ranks_ahead(score, path, other_score, other_path),
        score < other_score ==> !ranks_ahead(score, path, other_score, other_path),
        score == other_score ==> (ranks_ahead(score, path, other_score, other_path)
            <==> text_order(path, other_path) == Ordering::Less),
{
    law_comparing_backwards_turns_the_order(path, other_path);
}

/// In ranked matches scores never rise, and matches of equal score have their
/// paths in ascending order.
pub proof fn law_ranked_matches_are_best_first(
    matches: Seq<(u32, Seq<char>)>,
    earlier: int,
    later: int,
)
    requires
        is_ranked(matches),
        0 <= earlier < later < matches.len(),
    ensures
        matches[earlier].0 >= matches[later].0,
        matches[earlier].0 == matches[later].0 ==> text_order(
            matches[earlier].1,
            matches[later].1,
        ) != Ordering::Greater,
{
    assert(!ranks_ahead(
        matches[later].0,
        matches[later].1,
        matches[earlier].0,
        matches[earlier].1,
    ));
    law_comparing_backwards_turns_the_order(matches[earlier].1, matches[later].1);
}

/// A listing rises from each number to the next, and holds exactly the numbers
/// that it was made of.
pub proof fn law_listing_rises_and_leaves_nothing_out(unique: Seq<u32>, numbers: Seq<u32>)
    requires
        lists_once(unique, numbers),
    ensures
        forall|i: int, j: int|
            #![trigger unique[i], unique[j]]
            0 <= i < j < unique.len() ==> unique[i] < unique[j],
        forall|i: int| 0 <= i < numbers.len() ==> unique.contains(#[trigger] numbers[i]),
        forall|i: int| 0 <= i < unique.len() ==> numbers.contains(#[trigger] unique[i]),
        unique.len() <= numbers.len(),
{
    assert forall|i: int| 0 <= i < numbers.len() implies unique.contains(#[trigger] numbers[i]) by {
        assert(numbers.contains(numbers[i]));
    }
    assert forall|i: int| 0 <= i < unique.len() implies numbers.contains(#[trigger] unique[i]) by {
        assert(unique.contains(unique[i]));
    }
    assert(unique.no_duplicates());
    unique.unique_seq_to_set();
    vstd::seq_lib::seq_to_set_is_finite(numbers);
    numbers.lemma_cardinality_of_set();
    assert(unique.to_set().subset_of(numbers.to_set()));
    vstd::set_lib::lemma_len_subset(unique.to_set(), numbers.to_set());
}

} // verus!
