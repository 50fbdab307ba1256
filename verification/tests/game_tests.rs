use blotto::allocation::BattleResult::{Draw as D, Lose as L};
use blotto::allocation::{Allocation, BattleResult};
use blotto::enumeration::get_all_allocations;
use blotto::game::BlottoGame;
use blotto::players::cfr_player::CfrPlayer;

fn inverse(result: BattleResult) -> BattleResult {
    match result {
        BattleResult::Win => BattleResult::Lose,
        BattleResult::Lose => BattleResult::Win,
        BattleResult::Draw => BattleResult::Draw,
    }
}

#[test]
fn test_game_matrix_is_square_and_mirrors() {
    let game: BlottoGame<CfrPlayer> = BlottoGame::new(3, 5);
    let matrix = &game.game_meta.game_matrix;
    assert_eq!(matrix.len(), 21);
    for i in 0..21 {
        assert_eq!(matrix[i].len(), 21);
        assert_eq!(matrix[i][i], BattleResult::Draw);
        for j in 0..21 {
            assert_eq!(matrix[j][i], inverse(matrix[i][j]));
        }
    }
}

#[test]
fn test_game_matrix_holds_every_round() {
    let game: BlottoGame<CfrPlayer> = BlottoGame::new(3, 5);
    let meta = &game.game_meta;
    for i in 0..21 {
        for j in 0..21 {
            assert_eq!(
                meta.game_matrix[i][j],
                meta.strategies[i].compare(&meta.strategies[j])
            );
        }
    }
    // the row of [5, 0, 0], the last strategy
    assert_eq!(
        meta.game_matrix[20],
        vec![D, L, L, L, L, D, D, L, L, L, D, D, L, L, D, D, L, D, D, D, D]
    );
    // the row of [0, 0, 5], the first strategy
    assert_eq!(
        meta.game_matrix[0],
        vec![D, D, D, D, D, D, D, L, L, L, L, D, L, L, L, D, L, L, D, L, D]
    );
    assert_eq!(meta.game_matrix[13][20], BattleResult::Win);
}

#[test]
fn test_strategies_are_the_allocations_in_order() {
    let game: BlottoGame<CfrPlayer> = BlottoGame::new(3, 5);
    let meta = &game.game_meta;
    let listing = get_all_allocations(3, 5);
    assert_eq!(meta.strategies.len(), 21);
    assert_eq!(meta.id_to_strategy.len(), 21);
    for id in 0..21 {
        assert_eq!(meta.strategies[id].soldiers, listing[id]);
        assert_eq!(meta.id_to_strategy[&id].soldiers, listing[id]);
    }
}

#[test]
fn test_strategy_to_id_is_the_inverse_of_id_to_strategy() {
    let game: BlottoGame<CfrPlayer> = BlottoGame::new(3, 5);
    let meta = &game.game_meta;
    for id in 0..21 {
        assert_eq!(meta.strategy_to_id(&meta.id_to_strategy[&id]), Some(id));
    }
    assert_eq!(meta.strategy_to_id(&Allocation::new(vec![0, 0, 5])), Some(0));
    assert_eq!(meta.strategy_to_id(&Allocation::new(vec![2, 2, 1])), Some(13));
    assert_eq!(meta.strategy_to_id(&Allocation::new(vec![5, 0, 0])), Some(20));
}

#[test]
fn test_strategy_to_id_knows_no_illegal_allocation() {
    let game: BlottoGame<CfrPlayer> = BlottoGame::new(3, 5);
    let meta = &game.game_meta;
    // wrong sum
    assert_eq!(meta.strategy_to_id(&Allocation::new(vec![2, 2, 2])), None);
    assert_eq!(meta.strategy_to_id(&Allocation::new(vec![0, 0, 0])), None);
    // wrong length
    assert_eq!(meta.strategy_to_id(&Allocation::new(vec![5, 0])), None);
    assert_eq!(meta.strategy_to_id(&Allocation::new(vec![5, 0, 0, 0])), None);
    assert_eq!(meta.strategy_to_id(&Allocation::new(vec![])), None);
}

#[test]
fn test_smallest_games() {
    let game: BlottoGame<CfrPlayer> = BlottoGame::new(1, 0);
    assert_eq!(game.game_meta.strategies.len(), 1);
    assert_eq!(game.game_meta.strategies[0].soldiers, vec![0]);
    assert_eq!(game.game_meta.game_matrix, vec![vec![BattleResult::Draw]]);

    let game: BlottoGame<CfrPlayer> = BlottoGame::new(1, 9);
    assert_eq!(game.game_meta.strategies.len(), 1);
    assert_eq!(game.game_meta.strategies[0].soldiers, vec![9]);

    let game: BlottoGame<CfrPlayer> = BlottoGame::new(2, 1);
    assert_eq!(game.game_meta.game_matrix, vec![vec![D, D], vec![D, D]]);
}

#[test]
fn test_strategy_to_id_finds_every_strategy_of_larger_games() {
    let game: BlottoGame<CfrPlayer> = BlottoGame::new(4, 6);
    let meta = &game.game_meta;
    assert_eq!(meta.strategies.len(), 84);
    for id in 0..84 {
        assert_eq!(meta.strategy_to_id(&meta.strategies[id]), Some(id));
    }
    // between two strategies, before the first and after the last there is nothing
    assert_eq!(meta.strategy_to_id(&Allocation::new(vec![0, 0, 0, 5])), None);
    assert_eq!(meta.strategy_to_id(&Allocation::new(vec![0, 0, 0, 7])), None);
    assert_eq!(meta.strategy_to_id(&Allocation::new(vec![3, 1, 1, 2])), None);
    assert_eq!(meta.strategy_to_id(&Allocation::new(vec![6, 0, 0, 1])), None);
    assert_eq!(meta.strategy_to_id(&Allocation::new(vec![7, 0, 0, 0])), None);
}
