use blotto::allocation::Allocation;
use blotto::game::{
    BlottoGame, BlottoGameMeta, BlottoGameResult, BlottoPlayer, History, RegretReport,
};
use blotto::players::cfr_player::CfrPlayer;
use std::cell::{Cell, RefCell};
use std::rc::Rc;

/// What was called, on which player, in which round.
#[derive(Debug, PartialEq, Clone)]
enum Call {
    Register(usize),
    Decide(usize, usize),
    Handle(usize, Vec<Vec<usize>>),
    Exit(usize),
}

/// A player that always sends everything to the last battle and writes down
/// every call that it gets.
struct RecordingPlayer {
    id: Cell<usize>,
    calls: Rc<RefCell<Vec<Call>>>,
}

impl RecordingPlayer {
    fn new(calls: &Rc<RefCell<Vec<Call>>>) -> Self {
        RecordingPlayer { id: Cell::new(usize::MAX), calls: calls.clone() }
    }
}

impl BlottoPlayer for RecordingPlayer {
    fn id(&self) -> usize {
        unreachable!()
    }

    fn seen(&self) -> History {
        unreachable!()
    }

    fn fits(&self, _game: &BlottoGameMeta) -> bool {
        unreachable!()
    }

    fn may_decide(&self, _game: &BlottoGameMeta, _round: usize, _allocation: &Allocation) -> bool {
        unreachable!()
    }

    fn may_report(&self, _game: &BlottoGameMeta, _report: &Vec<RegretReport>) -> bool {
        unreachable!()
    }

    fn on_register(&mut self, player_id: usize, _game: &BlottoGameMeta) {
        self.id.set(player_id);
        self.calls.borrow_mut().push(Call::Register(player_id));
    }

    fn decide_allocation(&self, game: &BlottoGameMeta, round: usize) -> Allocation {
        self.calls.borrow_mut().push(Call::Decide(self.id.get(), round));
        let mut soldiers = vec![0; game.battle_count];
        soldiers[game.battle_count - 1] = game.soldier_count;
        Allocation::new(soldiers)
    }

    fn handle_result(&mut self, _game: &BlottoGameMeta, result: &BlottoGameResult) {
        let mut seen = Vec::new();
        for id in 0..result.allocations.len() {
            seen.push(result.allocations[&id].soldiers.clone());
        }
        self.calls.borrow_mut().push(Call::Handle(self.id.get(), seen));
    }

    fn on_exit_game(&self, _game: &BlottoGameMeta) -> Vec<RegretReport> {
        self.calls.borrow_mut().push(Call::Exit(self.id.get()));
        Vec::new()
    }
}

fn count(calls: &Vec<Call>, wanted: fn(&Call) -> bool) -> usize {
    calls.iter().filter(|call| wanted(call)).count()
}

#[test]
fn test_every_player_is_called_once_per_round() {
    let calls = Rc::new(RefCell::new(Vec::new()));
    let mut game: BlottoGame<RecordingPlayer> = BlottoGame::new(3, 5);
    for _ in 0..3 {
        game.add_player(RecordingPlayer::new(&calls));
    }
    let reports = game.start(4);
    assert_eq!(reports.len(), 0);
    let calls = calls.borrow();
    assert_eq!(count(&calls, |call| matches!(call, Call::Register(_))), 3);
    assert_eq!(count(&calls, |call| matches!(call, Call::Decide(_, _))), 12);
    assert_eq!(count(&calls, |call| matches!(call, Call::Handle(_, _))), 12);
    assert_eq!(count(&calls, |call| matches!(call, Call::Exit(_))), 3);
    assert_eq!(calls.len(), 30);
}

#[test]
fn test_calls_come_in_the_order_of_the_protocol() {
    let calls = Rc::new(RefCell::new(Vec::new()));
    let mut game: BlottoGame<RecordingPlayer> = BlottoGame::new(2, 3);
    game.add_player(RecordingPlayer::new(&calls));
    game.add_player(RecordingPlayer::new(&calls));
    game.start(2);
    let seen = vec![vec![0, 3], vec![0, 3]];
    assert_eq!(
        *calls.borrow(),
        vec![
            Call::Register(0),
            Call::Register(1),
            Call::Decide(0, 0),
            Call::Decide(1, 0),
            Call::Handle(0, seen.clone()),
            Call::Handle(1, seen.clone()),
            Call::Decide(0, 1),
            Call::Decide(1, 1),
            Call::Handle(0, seen.clone()),
            Call::Handle(1, seen.clone()),
            Call::Exit(0),
            Call::Exit(1),
        ]
    );
}

#[test]
fn test_no_rounds_means_setup_and_teardown_only() {
    let calls = Rc::new(RefCell::new(Vec::new()));
    let mut game: BlottoGame<RecordingPlayer> = BlottoGame::new(2, 3);
    game.add_player(RecordingPlayer::new(&calls));
    game.add_player(RecordingPlayer::new(&calls));
    let reports = game.start(0);
    assert_eq!(reports.len(), 0);
    assert_eq!(
        *calls.borrow(),
        vec![Call::Register(0), Call::Register(1), Call::Exit(0), Call::Exit(1)]
    );
}

#[test]
fn test_play_round_returns_what_the_players_decided() {
    let calls = Rc::new(RefCell::new(Vec::new()));
    let mut game: BlottoGame<RecordingPlayer> = BlottoGame::new(3, 5);
    game.add_player(RecordingPlayer::new(&calls));
    game.add_player(RecordingPlayer::new(&calls));
    let result = game.play_round(7);
    assert_eq!(result.allocations.len(), 2);
    assert_eq!(result.allocations[&0].soldiers, vec![0, 0, 5]);
    assert_eq!(result.allocations[&1].soldiers, vec![0, 0, 5]);
    assert_eq!(calls.borrow()[2], Call::Decide(0, 7));
    assert_eq!(calls.borrow().len(), 6);
}

#[test]
fn test_game_without_players() {
    let mut game: BlottoGame = BlottoGame::new(3, 5);
    assert_eq!(game.start(3).len(), 0);
    assert_eq!(game.play_round(0).allocations.len(), 0);
}

#[test]
fn test_two_regret_players() {
    let mut game: BlottoGame<CfrPlayer> = BlottoGame::new(3, 5);
    game.add_player(CfrPlayer::new());
    game.add_player(CfrPlayer::new());
    let reports = game.start(50);
    // each of the two reports on its one opponent, in the order of the ids
    assert_eq!(reports.len(), 2);
    assert_eq!((reports[0].player_id, reports[0].opponent_id), (0, 1));
    assert_eq!((reports[1].player_id, reports[1].opponent_id), (1, 0));
    for report in reports.iter() {
        assert_eq!(report.regret_sum.len(), 21);
        for regret in report.regret_sum.iter() {
            assert!(-100 <= *regret && *regret <= 100);
        }
        let regretted = report.regret_sum.iter().filter(|regret| **regret > 0).count();
        assert_eq!(report.action_candidates.len(), regretted);
    }
}

#[test]
fn test_first_round_of_two_regret_players_is_a_draw_of_defaults() {
    let mut game: BlottoGame<CfrPlayer> = BlottoGame::new(3, 5);
    game.add_player(CfrPlayer::new());
    game.add_player(CfrPlayer::new());
    let reports = game.start(1);
    let expected = vec![0, 1, 1, 1, 1, 0, 0, 1, 1, 1, 0, 0, 1, 1, 0, 0, 1, 0, 0, 0, 0];
    assert_eq!(reports[0].regret_sum, expected);
    assert_eq!(reports[1].regret_sum, expected);
}

#[test]
fn test_boxed_players_of_two_kinds_at_one_table() {
    let calls = Rc::new(RefCell::new(Vec::new()));
    let mut game: BlottoGame = BlottoGame::new(3, 5);
    game.add_player(Box::new(CfrPlayer::new()));
    game.add_player(Box::new(RecordingPlayer::new(&calls)));
    let reports = game.start(3);
    assert_eq!(count(&calls.borrow(), |call| matches!(call, Call::Decide(1, _))), 3);
    assert_eq!(count(&calls.borrow(), |call| matches!(call, Call::Handle(1, _))), 3);
    // the regret player reports on the recording player, who always plays [0, 0, 5]
    assert_eq!(reports.len(), 1);
    assert_eq!((reports[0].player_id, reports[0].opponent_id), (0, 1));
    assert_eq!(reports[0].regret_sum.len(), 21);
}
