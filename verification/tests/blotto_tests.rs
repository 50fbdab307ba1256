use blotto::allocation::{Allocation, BattleResult};
use blotto::enumeration::get_all_allocations;
use blotto::game::BlottoGame;

#[test]
fn test_compare() {
    let mut alloc1 = Allocation::new(vec![5, 0, 0]);
    let mut alloc2 = Allocation::new(vec![5, 0, 0]);
    assert_eq!(alloc1.compare(&alloc2), BattleResult::Draw);

    alloc1.soldiers[0] = 2;
    alloc1.soldiers[1] = 2;
    alloc1.soldiers[2] = 1;
    // alloc1 lose battle 0, win 1 and 2
    assert_eq!(alloc1.compare(&alloc2), BattleResult::Win);

    alloc2.soldiers[0] = 1;
    alloc2.soldiers[1] = 2;
    alloc2.soldiers[2] = 2;
    // alloc1 win battle 0, draw 1 and lose 2
    assert_eq!(alloc1.compare(&alloc2), BattleResult::Draw);

    alloc2.soldiers[0] = 3;
    alloc2.soldiers[1] = 0;
    alloc2.soldiers[2] = 2;
    // alloc1 lose battle 0, win 1 and lose 2
    assert_eq!(alloc1.compare(&alloc2), BattleResult::Lose);
}

#[test]
fn test_all_allocation() {
    let allocs = get_all_allocations(3, 5);
    assert_eq!(
        allocs,
        vec![
            [0, 0, 5],
            [0, 1, 4],
            [0, 2, 3],
            [0, 3, 2],
            [0, 4, 1],
            [0, 5, 0],
            [1, 0, 4],
            [1, 1, 3],
            [1, 2, 2],
            [1, 3, 1],
            [1, 4, 0],
            [2, 0, 3],
            [2, 1, 2],
            [2, 2, 1],
            [2, 3, 0],
            [3, 0, 2],
            [3, 1, 1],
            [3, 2, 0],
            [4, 0, 1],
            [4, 1, 0],
            [5, 0, 0],
        ]
    );
}

#[test]
fn test_game_construction() {
    let game: BlottoGame = BlottoGame::new(3, 5);
    assert_eq!(game.game_meta.battle_count, 3);
    assert_eq!(game.game_meta.soldier_count, 5);
}

fn binomial(n: usize, k: usize) -> usize {
    if k == 0 {
        1
    } else if n == 0 {
        0
    } else {
        binomial(n - 1, k - 1) + binomial(n - 1, k)
    }
}

#[test]
fn test_allocation_count_is_stars_and_bars() {
    assert_eq!(get_all_allocations(1, 0).len(), 1);
    assert_eq!(get_all_allocations(2, 3).len(), 4);
    assert_eq!(get_all_allocations(3, 5).len(), 21);
    assert_eq!(get_all_allocations(4, 4).len(), 35);
    assert_eq!(get_all_allocations(5, 3).len(), 35);
    assert_eq!(get_all_allocations(6, 6).len(), 462);
    for boxes in 1..6 {
        for balls in 0..7 {
            assert_eq!(
                get_all_allocations(boxes, balls).len(),
                binomial(balls + boxes - 1, boxes - 1)
            );
        }
    }
}

#[test]
fn test_allocations_have_length_and_sum_and_ascend() {
    for boxes in 1..6 {
        for balls in 0..7 {
            let allocs = get_all_allocations(boxes, balls);
            for row in allocs.iter() {
                assert_eq!(row.len(), boxes);
                assert_eq!(row.iter().sum::<usize>(), balls);
            }
            // dictionary order, strictly: so no row comes twice
            for pair in allocs.windows(2) {
                assert!(pair[0] < pair[1]);
            }
        }
    }
}

#[test]
fn test_allocations_hold_every_split() {
    let allocs = get_all_allocations(3, 4);
    for a in 0..5 {
        for b in 0..(5 - a) {
            let row = vec![a, b, 4 - a - b];
            assert!(allocs.contains(&row));
        }
    }
}

#[test]
fn test_one_box_takes_all_balls() {
    assert_eq!(get_all_allocations(1, 7), vec![vec![7]]);
    assert_eq!(get_all_allocations(1, 0), vec![vec![0]]);
}

#[test]
fn test_no_balls_gives_the_one_empty_split() {
    assert_eq!(get_all_allocations(4, 0), vec![vec![0, 0, 0, 0]]);
    assert_eq!(get_all_allocations(2, 0), vec![vec![0, 0]]);
}

#[test]
fn test_two_boxes() {
    assert_eq!(get_all_allocations(2, 3), vec![[0, 3], [1, 2], [2, 1], [3, 0]]);
}

#[test]
fn test_compare_examples() {
    let mine = Allocation::new(vec![2, 2, 1]);
    assert_eq!(mine.compare(&Allocation::new(vec![5, 0, 0])), BattleResult::Win);
    assert_eq!(mine.compare(&Allocation::new(vec![1, 2, 2])), BattleResult::Draw);
    assert_eq!(mine.compare(&Allocation::new(vec![3, 0, 2])), BattleResult::Lose);
}

#[test]
fn test_compare_counts_battles_not_soldiers() {
    // nine soldiers lose to three that are spread better
    let heavy = Allocation::new(vec![9, 0, 0]);
    let spread = Allocation::new(vec![0, 2, 1]);
    assert_eq!(heavy.compare(&spread), BattleResult::Lose);
    assert_eq!(spread.compare(&heavy), BattleResult::Win);
}

#[test]
fn test_compare_of_nothing_is_a_draw() {
    let none = Allocation::new(vec![]);
    assert_eq!(none.compare(&Allocation::new(vec![])), BattleResult::Draw);
}

#[test]
fn test_compare_with_itself_is_a_draw() {
    for row in get_all_allocations(4, 5) {
        let a = Allocation::new(row);
        assert_eq!(a.compare(&a), BattleResult::Draw);
    }
}

#[test]
fn test_compare_swapped_is_inverse() {
    let all = get_all_allocations(3, 5);
    for x in all.iter() {
        for y in all.iter() {
            let a = Allocation::new(x.clone());
            let b = Allocation::new(y.clone());
            let expected = match a.compare(&b) {
                BattleResult::Win => BattleResult::Lose,
                BattleResult::Lose => BattleResult::Win,
                BattleResult::Draw => BattleResult::Draw,
            };
            assert_eq!(b.compare(&a), expected);
        }
    }
}

#[test]
fn test_same_as_and_clone() {
    let a = Allocation::new(vec![2, 2, 1]);
    let b = a.clone();
    assert!(a.same_as(&b));
    assert_eq!(a, b);
    assert!(!a.same_as(&Allocation::new(vec![2, 2, 2])));
    assert!(!a.same_as(&Allocation::new(vec![2, 2])));
    assert!(!a.same_as(&Allocation::new(vec![2, 2, 1, 0])));
}

#[test]
fn test_comes_before_is_dictionary_order() {
    let a = Allocation::new(vec![1, 4, 0]);
    assert!(a.comes_before(&Allocation::new(vec![2, 0, 3])));
    assert!(a.comes_before(&Allocation::new(vec![1, 4, 1])));
    assert!(!a.comes_before(&Allocation::new(vec![1, 3, 9])));
    assert!(!a.comes_before(&Allocation::new(vec![0, 9, 9])));
    assert!(!a.comes_before(&a));
    let none = Allocation::new(vec![]);
    assert!(!none.comes_before(&none));
    let all = get_all_allocations(3, 5);
    for i in 0..all.len() {
        for j in 0..all.len() {
            let x = Allocation::new(all[i].clone());
            let y = Allocation::new(all[j].clone());
            assert_eq!(x.comes_before(&y), i < j);
        }
    }
}
