//! Every way to split a pool of soldiers over a row of battles, in the one
//! order from which strategy ids are taken.

use vstd::prelude::*;
use crate::allocation::{is_split, lemma_lex_less_irreflexive, lex_less, total};

verus! {

/// The binomial coefficient, by Pascal's rule.
pub open spec fn binomial(n: nat, k: nat) -> nat
    decreases n, k,
{
    if k == 0 {
        1
    } else if n == 0 {
        0
    } else {
        binomial((n - 1) as nat, (k - 1) as nat) + binomial((n - 1) as nat, k)
    }
}

/// Each of `tails` with `prefix` put in front of it.
pub open spec fn prefixed(prefix: Seq<usize>, tails: Seq<Seq<usize>>) -> Seq<Seq<usize>> {
    Seq::new(tails.len(), |i: int| prefix + tails[i])
}

/// The splits of `balls` over `boxes` that put fewer than `upto` into the
/// first box, fewest first.
pub open spec fn allocations_below(boxes: nat, balls: nat, upto: nat) -> Seq<Seq<usize>>
    recommends
        boxes >= 2,
        upto <= balls + 1,
    decreases boxes, upto,
{
    if boxes < 2 || upto == 0 {
        Seq::empty()
    } else {
        let first = (upto - 1) as nat;
        allocations_below(boxes, balls, first) + prefixed(
            seq![first as usize],
            allocations((boxes - 1) as nat, (balls - first) as nat),
        )
    }
}

/// All splits of `balls` over `boxes`: by what the first box holds, fewest
/// first, then in the same way by the boxes after it.
pub open spec fn allocations(boxes: nat, balls: nat) -> Seq<Seq<usize>>
    decreases boxes, balls + 2,
{
    if boxes == 0 {
        Seq::empty()
    } else if boxes == 1 {
        seq![seq![balls as usize]]
    } else {
        allocations_below(boxes, balls, balls + 1)
    }
}

/// What a vector of rows holds, row by row.
pub open spec fn rows(v: Seq<Vec<usize>>) -> Seq<Seq<usize>> {
    Seq::new(v.len(), |i: int| v[i]@)
}

proof fn lemma_total_of_prepended(first: usize, tail: Seq<usize>)
    ensures
        (seq![first] + tail).len() == tail.len() + 1,
        (seq![first] + tail)[0] == first,
        (seq![first] + tail).drop_first() == tail,
        total(seq![first] + tail) == first + total(tail),
{
    assert((seq![first] + tail).drop_first() =~= tail);
}

/// Every listed split has the asked length and total.
pub proof fn lemma_allocations_are_splits(boxes: nat, balls: nat)
    requires
        boxes >= 1,
        balls <= usize::MAX,
    ensures
        forall|i: int|
            0 <= i < allocations(boxes, balls).len() ==> is_split(
                #[trigger] allocations(boxes, balls)[i],
                boxes,
                balls,
            ),
    decreases boxes, balls + 2,
{
    if boxes == 1 {
        let only = seq![balls as usize];
        assert(only.drop_first() =~= Seq::<usize>::empty());
        assert(total(only.drop_first()) == 0);
        assert(total(only) == balls);
        assert(allocations(boxes, balls) =~= seq![only]);
        assert(allocations(boxes, balls).len() == 1);
        assert(is_split(allocations(boxes, balls)[0], boxes, balls));
    } else {
        lemma_allocations_below_are_splits(boxes, balls, balls + 1);
        assert(allocations(boxes, balls) == allocations_below(boxes, balls, balls + 1));
    }
}

proof fn lemma_allocations_below_are_splits(boxes: nat, balls: nat, upto: nat)
    requires
        boxes >= 2,
        upto <= balls + 1,
        balls <= usize::MAX,
    ensures
        forall|i: int|
            0 <= i < allocations_below(boxes, balls, upto).len() ==> {
                let s = #[trigger] allocations_below(boxes, balls, upto)[i];
                is_split(s, boxes, balls) && s[0] < upto
            },
    decreases boxes, upto,
{
    if upto > 0 {
        let first = (upto - 1) as nat;
        let before = allocations_below(boxes, balls, first);
        let tails = allocations((boxes - 1) as nat, (balls - first) as nat);
        lemma_allocations_below_are_splits(boxes, balls, first);
        lemma_allocations_are_splits((boxes - 1) as nat, (balls - first) as nat);
        assert forall|i: int| 0 <= i < allocations_below(boxes, balls, upto).len() implies {
            let s = #[trigger] allocations_below(boxes, balls, upto)[i];
            is_split(s, boxes, balls) && s[0] < upto
        } by {
            if i < before.len() {
                assert(allocations_below(boxes, balls, upto)[i] == before[i]);
            } else {
                let tail = tails[i - before.len()];
                assert(allocations_below(boxes, balls, upto)[i] == seq![first as usize] + tail);
                lemma_total_of_prepended(first as usize, tail);
            }
        }
    }
}

/// The list ascends in dictionary order.
pub proof fn lemma_allocations_ascend(boxes: nat, balls: nat)
    requires
        boxes >= 1,
        balls <= usize::MAX,
    ensures
        forall|i: int, j: int|
            #![trigger allocations(boxes, balls)[i], allocations(boxes, balls)[j]]
            0 <= i < j < allocations(boxes, balls).len() ==> lex_less(
                allocations(boxes, balls)[i],
                allocations(boxes, balls)[j],
            ),
    decreases boxes, balls + 2,
{
    if boxes == 1 {
        assert(allocations(boxes, balls).len() == 1);
    } else {
        lemma_allocations_below_ascend(boxes, balls, balls + 1);
        assert(allocations(boxes, balls) == allocations_below(boxes, balls, balls + 1));
    }
}

proof fn lemma_allocations_below_ascend(boxes: nat, balls: nat, upto: nat)
    requires
        boxes >= 2,
        upto <= balls + 1,
        balls <= usize::MAX,
    ensures
        forall|i: int, j: int|
            #![trigger allocations_below(boxes, balls, upto)[i], allocations_below(boxes, balls, upto)[j]]
            0 <= i < j < allocations_below(boxes, balls, upto).len() ==> lex_less(
                allocations_below(boxes, balls, upto)[i],
                allocations_below(boxes, balls, upto)[j],
            ),
    decreases boxes, upto,
{
    if upto > 0 {
        let first = (upto - 1) as nat;
        let all = allocations_below(boxes, balls, upto);
        let before = allocations_below(boxes, balls, first);
        let tails = allocations((boxes - 1) as nat, (balls - first) as nat);
        lemma_allocations_below_ascend(boxes, balls, first);
        lemma_allocations_below_are_splits(boxes, balls, first);
        lemma_allocations_ascend((boxes - 1) as nat, (balls - first) as nat);
        assert forall|i: int, j: int| 0 <= i < j < all.len() implies lex_less(
            #[trigger] all[i],
            #[trigger] all[j],
        ) by {
            if j < before.len() {
                assert(all[i] == before[i]);
                assert(all[j] == before[j]);
            } else {
                let tail_j = tails[j - before.len()];
                assert(all[j] == seq![first as usize] + tail_j);
                lemma_total_of_prepended(first as usize, tail_j);
                if i < before.len() {
                    assert(all[i] == before[i]);
                    assert(is_split(before[i], boxes, balls) && before[i][0] < first);
                } else {
                    let tail_i = tails[i - before.len()];
                    assert(all[i] == seq![first as usize] + tail_i);
                    lemma_total_of_prepended(first as usize, tail_i);
                    assert(lex_less(tail_i, tail_j));
                }
            }
        }
    }
}

/// No split of the asked length and total is missing from the list.
pub proof fn lemma_allocations_hold_every_split(boxes: nat, balls: nat)
    requires
        boxes >= 1,
        balls <= usize::MAX,
    ensures
        forall|s: Seq<usize>| #[trigger]
            is_split(s, boxes, balls) ==> allocations(boxes, balls).contains(s),
    decreases boxes, balls + 2,
{
    if boxes == 1 {
        assert forall|s: Seq<usize>| #[trigger] is_split(s, boxes, balls) implies allocations(
            boxes,
            balls,
        ).contains(s) by {
            assert(s.drop_first() =~= Seq::<usize>::empty());
            assert(total(s.drop_first()) == 0);
            assert(s =~= seq![balls as usize]);
            assert(allocations(boxes, balls)[0] == s);
        }
    } else {
        lemma_allocations_below_hold_every_split(boxes, balls, balls + 1);
        assert(allocations(boxes, balls) == allocations_below(boxes, balls, balls + 1));
    }
}

proof fn lemma_allocations_below_hold_every_split(boxes: nat, balls: nat, upto: nat)
    requires
        boxes >= 2,
        upto <= balls + 1,
        balls <= usize::MAX,
    ensures
        forall|s: Seq<usize>|
            #[trigger] is_split(s, boxes, balls) && s[0] < upto ==> allocations_below(
                boxes,
                balls,
                upto,
            ).contains(s),
    decreases boxes, upto,
{
    if upto > 0 {
        let first = (upto - 1) as nat;
        let all = allocations_below(boxes, balls, upto);
        let before = allocations_below(boxes, balls, first);
        let tails = allocations((boxes - 1) as nat, (balls - first) as nat);
        lemma_allocations_below_hold_every_split(boxes, balls, first);
        lemma_allocations_hold_every_split((boxes - 1) as nat, (balls - first) as nat);
        assert forall|s: Seq<usize>| #[trigger]
            is_split(s, boxes, balls) && s[0] < upto implies all.contains(s) by {
            if s[0] < first {
                let k = before.index_of(s);
                assert(all[k] == s);
            } else {
                let tail = s.drop_first();
                assert(is_split(tail, (boxes - 1) as nat, (balls - first) as nat));
                let k = tails.index_of(tail);
                assert(seq![first as usize] + tail =~= s);
                assert(all[before.len() + k] == s);
            }
        }
    }
}

/// A coefficient that picks more than there is to pick from is zero.
pub proof fn lemma_binomial_zero(n: nat, k: nat)
    requires
        n < k,
    ensures
        binomial(n, k) == 0,
    decreases n,
{
    if n > 0 {
        lemma_binomial_zero((n - 1) as nat, (k - 1) as nat);
        lemma_binomial_zero((n - 1) as nat, k);
    }
}

/// The list is as long as stars and bars say.
pub proof fn lemma_allocations_count(boxes: nat, balls: nat)
    requires
        boxes >= 1,
    ensures
        allocations(boxes, balls).len() == binomial(
            (balls + boxes - 1) as nat,
            (boxes - 1) as nat,
        ),
    decreases boxes, balls + 2,
{
    if boxes == 1 {
        assert(allocations(boxes, balls).len() == 1);
    } else {
        lemma_allocations_below_count(boxes, balls, balls + 1);
        lemma_binomial_zero((boxes - 2) as nat, (boxes - 1) as nat);
        assert(allocations(boxes, balls) == allocations_below(boxes, balls, balls + 1));
    }
}

proof fn lemma_allocations_below_count(boxes: nat, balls: nat, upto: nat)
    requires
        boxes >= 2,
        upto <= balls + 1,
    ensures
        allocations_below(boxes, balls, upto).len() + binomial(
            (balls + boxes - 1 - upto) as nat,
            (boxes - 1) as nat,
        ) == binomial((balls + boxes - 1) as nat, (boxes - 1) as nat),
    decreases boxes, upto,
{
    if upto > 0 {
        let first = (upto - 1) as nat;
        lemma_allocations_below_count(boxes, balls, first);
        lemma_allocations_count((boxes - 1) as nat, (balls - first) as nat);
        let n = (balls + boxes - 1 - first) as nat;
        let k = (boxes - 1) as nat;
        assert(binomial(n, k) == binomial((n - 1) as nat, (k - 1) as nat) + binomial(
            (n - 1) as nat,
            k,
        ));
    }
}

proof fn lemma_prefixed_append(prefix: Seq<usize>, x: Seq<Seq<usize>>, y: Seq<Seq<usize>>)
    ensures
        prefixed(prefix, x + y) == prefixed(prefix, x) + prefixed(prefix, y),
{
    assert(prefixed(prefix, x + y) =~= prefixed(prefix, x) + prefixed(prefix, y));
}

proof fn lemma_prefixed_twice(prefix: Seq<usize>, first: usize, tails: Seq<Seq<usize>>)
    ensures
        prefixed(prefix.push(first), tails) == prefixed(prefix, prefixed(seq![first], tails)),
{
    assert forall|i: int| 0 <= i < tails.len() implies prefix.push(first) + tails[i] == prefix + (
    seq![first] + tails[i]) by {
        assert(prefix.push(first) + tails[i] =~= prefix + (seq![first] + tails[i]));
    }
    assert(prefixed(prefix.push(first), tails) =~= prefixed(
        prefix,
        prefixed(seq![first], tails),
    ));
}

/// Fills the boxes from `box_index` on with `balls` in every possible way and
/// appends each filled row to `result`; the boxes before `box_index` stay as
/// they are.
fn helper(result: &mut Vec<Vec<usize>>, arr: &mut Vec<usize>, box_index: usize, balls: usize)
    requires
        box_index < old(arr)@.len(),
    ensures
        final(arr)@.len() == old(arr)@.len(),
        final(arr)@.take(box_index as int) == old(arr)@.take(box_index as int),
        rows(final(result)@) == rows(old(result)@) + prefixed(
            old(arr)@.take(box_index as int),
            allocations((old(arr)@.len() - box_index) as nat, balls as nat),
        ),
    decreases old(arr)@.len() - box_index,
{
    let ghost prefix = arr@.take(box_index as int);
    let ghost boxes = (arr@.len() - box_index) as nat;
    let ghost before = rows(result@);
    if box_index == arr.len() - 1 {
        // push all remaining balls into the last box
        arr[box_index] = balls;
        result.push(arr.clone());
        proof {
            assert(arr@ =~= prefix + seq![balls]);
            assert(arr@.take(box_index as int) =~= prefix);
            assert(rows(result@) =~= before + prefixed(prefix, seq![seq![balls]]));
        }
        return ;
    }
    // try to place 0 to `balls` balls into the current box, and move to the next box

    let mut i: usize = 0;
    loop
        invariant_except_break
            rows(result@) == before + prefixed(
                prefix,
                allocations_below(boxes, balls as nat, i as nat),
            ),
        invariant
            i <= balls,
            boxes >= 2,
            box_index + boxes == arr@.len() <= usize::MAX,
            arr@.len() == old(arr)@.len(),
            arr@.take(box_index as int) == prefix,
        ensures
            rows(result@) == before + prefixed(
                prefix,
                allocations_below(boxes, balls as nat, (balls + 1) as nat),
            ),
        decreases balls - i,
    {
        let ghost listed = allocations_below(boxes, balls as nat, i as nat);
        let ghost tails = allocations((boxes - 1) as nat, (balls - i) as nat);
        arr[box_index] = i;
        proof {
            assert(arr@.take(box_index + 1) =~= prefix.push(i));
            assert(arr@.take(box_index as int) =~= prefix);
        }
        helper(result, arr, box_index + 1, balls - i);
        proof {
            assert(arr@.take(box_index as int) =~= arr@.take(box_index + 1).take(
                box_index as int,
            ));
            lemma_prefixed_twice(prefix, i, tails);
            lemma_prefixed_append(prefix, listed, prefixed(seq![i], tails));
            assert(allocations_below(boxes, balls as nat, (i + 1) as nat) == listed + prefixed(
                seq![i],
                tails,
            ));
            assert(rows(result@) =~= before + prefixed(
                prefix,
                allocations_below(boxes, balls as nat, (i + 1) as nat),
            ));
        }
        if i == balls {
            break ;
        }
        i += 1;
    }
}

/// Lists every way to place `ball_count` balls into `box_count` boxes.
///
/// The list is in dictionary order, so it holds no row twice; it holds
/// every row of `box_count` entries that add up to `ball_count`, and no
/// other; and there are `C(ball_count + box_count - 1, box_count - 1)` of
/// them.
pub fn get_all_allocations(box_count: usize, ball_count: usize) -> (result: Vec<Vec<usize>>)
    requires
        box_count >= 1,
    ensures
        rows(result@) == allocations(box_count as nat, ball_count as nat),
        result@.len() == binomial(
            (ball_count + box_count - 1) as nat,
            (box_count - 1) as nat,
        ),
        forall|i: int|
            0 <= i < result@.len() ==> is_split(
                (#[trigger] result@[i])@,
                box_count as nat,
                ball_count as nat,
            ),
        forall|i: int, j: int|
            0 <= i < j < result@.len() ==> lex_less(
                (#[trigger] result@[i])@,
                (#[trigger] result@[j])@,
            ),
        forall|i: int, j: int|
            0 <= i < result@.len() && 0 <= j < result@.len() && i != j ==> (
            #[trigger] result@[i])@ != (#[trigger] result@[j])@,
        forall|s: Seq<usize>| #[trigger]
            is_split(s, box_count as nat, ball_count as nat) ==> exists|i: int|
                0 <= i < result@.len() && (#[trigger] result@[i])@ == s,
{
    let mut arr: Vec<usize> = vec![0; box_count];
    let mut result = Vec::<Vec<usize>>::new();

    helper(&mut result, &mut arr, 0, ball_count);

    proof {
        let listed = allocations(box_count as nat, ball_count as nat);
        assert(rows(result@) =~= listed) by {
            assert(prefixed(Seq::<usize>::empty(), listed) =~= listed) by {
                assert forall|i: int| 0 <= i < listed.len() implies Seq::<usize>::empty()
                    + listed[i] == listed[i] by {
                    assert(Seq::<usize>::empty() + listed[i] =~= listed[i]);
                }
            }
        }
        lemma_listing_facts(result@, box_count as nat, ball_count as nat);
    }
    result
}

/// What holds of any vector of rows that is the list of all splits.
pub proof fn lemma_listing_facts(listing: Seq<Vec<usize>>, boxes: nat, balls: nat)
    requires
        boxes >= 1,
        balls <= usize::MAX,
        rows(listing) == allocations(boxes, balls),
    ensures
        listing.len() == binomial((balls + boxes - 1) as nat, (boxes - 1) as nat),
        forall|i: int|
            0 <= i < listing.len() ==> is_split((#[trigger] listing[i])@, boxes, balls),
        forall|i: int, j: int|
            0 <= i < j < listing.len() ==> lex_less(
                (#[trigger] listing[i])@,
                (#[trigger] listing[j])@,
            ),
        forall|i: int, j: int|
            0 <= i < listing.len() && 0 <= j < listing.len() && i != j ==> (
            #[trigger] listing[i])@ != (#[trigger] listing[j])@,
        forall|s: Seq<usize>| #[trigger]
            is_split(s, boxes, balls) ==> exists|i: int|
                0 <= i < listing.len() && (#[trigger] listing[i])@ == s,
{
    let listed = allocations(boxes, balls);
    lemma_allocations_count(boxes, balls);
    lemma_allocations_are_splits(boxes, balls);
    lemma_allocations_ascend(boxes, balls);
    lemma_allocations_hold_every_split(boxes, balls);
    assert(listing.len() == listed.len());
    assert forall|i: int| 0 <= i < listing.len() implies (#[trigger] listing[i])@ == listed[i] by {
        assert(rows(listing)[i] == listing[i]@);
    }
    assert forall|i: int, j: int| 0 <= i < j < listing.len() implies lex_less(
        (#[trigger] listing[i])@,
        (#[trigger] listing[j])@,
    ) by {
        assert(lex_less(listed[i], listed[j]));
    }
    assert forall|i: int, j: int|
        0 <= i < listing.len() && 0 <= j < listing.len() && i != j implies (
    #[trigger] listing[i])@ != (#[trigger] listing[j])@ by {
        lemma_lex_less_irreflexive(listing[i]@);
        if i < j {
            assert(lex_less(listing[i]@, listing[j]@));
        } else {
            assert(lex_less(listing[j]@, listing[i]@));
        }
    }
    assert forall|s: Seq<usize>| #[trigger] is_split(s, boxes, balls) implies exists|i: int|
        0 <= i < listing.len() && (#[trigger] listing[i])@ == s by {
        let k = listed.index_of(s);
        assert(listing[k]@ == s);
    }
}

} // verus!
