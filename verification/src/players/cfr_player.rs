//! A player that learns by regret matching: for each opponent it keeps, for
//! every strategy, how much better that strategy would have done so far than
//! what it actually played, and it plays a strategy the more often the more
//! it regrets not having played it.

use vstd::prelude::*;
use std::collections::HashMap;
use crate::allocation::{outcome, total, Allocation, BattleResult};
use crate::game::{
    lemma_strategies, splits, BlottoGameMeta, BlottoGameResult, BlottoPlayer, History,
    RegretReport, MAX_ROUNDS,
};
use crate::random::draw_below;

verus! {

broadcast use vstd::std_specs::hash::group_hash_axioms;

/// What of a regret counts when actions are drawn: the regret itself where it
/// is above zero, else nothing.
pub open spec fn positive_part(regret: i64) -> nat {
    if regret > 0 {
        regret as nat
    } else {
        0
    }
}

/// The positive parts of the first `upto` regrets, added up.
pub open spec fn positive_sum(regrets: Seq<i64>, upto: nat) -> nat
    decreases upto,
{
    if upto == 0 {
        0
    } else {
        positive_sum(regrets, (upto - 1) as nat) + positive_part(regrets[upto - 1])
    }
}

/// Whether the draw `draw` falls on the action `action`: lay the positive
/// regrets end to end, in id order; the action is the one on whose stretch
/// the draw lands.
pub open spec fn is_pick(regrets: Seq<i64>, draw: nat, action: int) -> bool {
    &&& 0 <= action < regrets.len()
    &&& positive_sum(regrets, action as nat) <= draw < positive_sum(regrets, (action + 1) as nat)
}

/// The positive sums grow with the number of regrets added up.
pub proof fn lemma_positive_sum_grows(regrets: Seq<i64>, fewer: nat, more: nat)
    requires
        fewer <= more,
    ensures
        positive_sum(regrets, fewer) <= positive_sum(regrets, more),
    decreases more,
{
    if fewer < more {
        lemma_positive_sum_grows(regrets, fewer, (more - 1) as nat);
    }
}

/// A sum of regrets, each below `2^63`, of which a vector holds fewer than
/// `2^64`, is below `2^127`.
proof fn lemma_positive_sum_bound(regrets: Seq<i64>, upto: nat)
    ensures
        positive_sum(regrets, upto) <= upto * 0x8000_0000_0000_0000,
    decreases upto,
{
    if upto > 0 {
        lemma_positive_sum_bound(regrets, (upto - 1) as nat);
        assert(upto * 0x8000_0000_0000_0000 == (upto - 1) * 0x8000_0000_0000_0000
            + 0x8000_0000_0000_0000) by (nonlinear_arith);
    }
}

/// A draw lands on at most one action.
pub proof fn lemma_pick_is_unique(regrets: Seq<i64>, draw: nat, one: int, other: int)
    requires
        is_pick(regrets, draw, one),
        is_pick(regrets, draw, other),
    ensures
        one == other,
{
    if one < other {
        lemma_positive_sum_grows(regrets, (one + 1) as nat, other as nat);
    } else if other < one {
        lemma_positive_sum_grows(regrets, (other + 1) as nat, one as nat);
    }
}

/// The sum of all positive regrets: the bound under which a draw is made.
pub fn positive_total(regrets: &Vec<i64>) -> (sum: u128)
    ensures
        sum == positive_sum(regrets@, regrets@.len()),
{
    let mut regret_sum: u128 = 0;
    for action_id in 0..regrets.len()
        invariant
            regret_sum == positive_sum(regrets@, action_id as nat),
    {
        proof {
            lemma_positive_sum_bound(regrets@, action_id as nat);
            assert(action_id * 0x8000_0000_0000_0000 <= 0xffff_ffff_ffff_ffff
                * 0x8000_0000_0000_0000) by (nonlinear_arith)
                requires
                    action_id <= 0xffff_ffff_ffff_ffff,
            ;
        }
        let regret: i64 = regrets[action_id];
        if regret > 0 {
            regret_sum += regret as u128;
        }
    }
    regret_sum
}

/// The action on which the draw `draw` lands, if it lands on any: the draw
/// must lie below the sum of all positive regrets.
pub fn pick_by_draw(regrets: &Vec<i64>, draw: u128) -> (action: Option<usize>)
    ensures
        action is None <==> draw >= positive_sum(regrets@, regrets@.len()),
        action matches Some(id) ==> is_pick(regrets@, draw as nat, id as int) && regrets@[id as int]
            > 0,
{
    let mut s: u128 = 0;
    for action_id in 0..regrets.len()
        invariant
            s == positive_sum(regrets@, action_id as nat),
            s <= draw,
    {
        proof {
            lemma_positive_sum_bound(regrets@, action_id as nat);
            assert(action_id * 0x8000_0000_0000_0000 <= 0xffff_ffff_ffff_ffff
                * 0x8000_0000_0000_0000) by (nonlinear_arith)
                requires
                    action_id <= 0xffff_ffff_ffff_ffff,
            ;
        }
        let regret: i64 = regrets[action_id];
        if regret > 0 {
            s += regret as u128;
            if s > draw {
                proof {
                    lemma_positive_sum_grows(
                        regrets@,
                        (action_id + 1) as nat,
                        regrets@.len() as nat,
                    );
                }
                return Some(action_id);
            }
        }
    }
    None
}

/// No regret above zero means a positive sum of zero, and the other way
/// round.
pub proof fn lemma_positive_sum_zero(regrets: Seq<i64>, upto: nat)
    requires
        upto <= regrets.len(),
    ensures
        positive_sum(regrets, upto) == 0 <==> forall|s: int|
            0 <= s < upto ==> #[trigger] regrets[s] <= 0,
    decreases upto,
{
    if upto > 0 {
        lemma_positive_sum_zero(regrets, (upto - 1) as nat);
    }
}

/// Whether drawing from `regrets` can end in `action`: in no action where no
/// regret is above zero, else in any action whose regret is.
pub open spec fn may_pick(regrets: Seq<i64>, action: Option<usize>) -> bool {
    match action {
        None => forall|s: int| 0 <= s < regrets.len() ==> #[trigger] regrets[s] <= 0,
        Some(id) => id < regrets.len() && regrets[id as int] > 0,
    }
}

/// Draws an action from `regrets`: none where no regret is above zero, else
/// one with a regret above zero, each with a chance in proportion to its
/// regret.
pub fn get_action_from_regrets(regrets: &Vec<i64>) -> (action: Option<usize>)
    ensures
        may_pick(regrets@, action),
{
    let regret_sum: u128 = positive_total(regrets);
    proof {
        lemma_positive_sum_zero(regrets@, regrets@.len());
    }
    if regret_sum == 0 {
        // no positive regret
        return None;
    }
    let mut rng = rand::thread_rng();
    let n: u128 = draw_below(&mut rng, regret_sum);
    pick_by_draw(regrets, n)
}

/// What a round is worth to me, read off the result that it has for my
/// opponent.
pub open spec fn payoff(oppo_result: BattleResult) -> int {
    match oppo_result {
        BattleResult::Win => -1,
        BattleResult::Draw => 0,
        BattleResult::Lose => 1,
    }
}

/// What the strategy `strategy` would have been worth over the strategy
/// `played`, against the opponent's move whose row of the game matrix is
/// `row`.
pub open spec fn regret_delta(row: Seq<BattleResult>, played: int, strategy: int) -> int {
    payoff(row[strategy]) - payoff(row[played])
}

/// The regrets `before`, each moved by what the round has shown.
pub open spec fn regrets_moved(before: Seq<i64>, row: Seq<BattleResult>, played: int) -> Seq<i64> {
    Seq::new(before.len(), |s: int| (before[s] + regret_delta(row, played, s)) as i64)
}

/// The split that a player falls back on: everything into the first battle.
pub open spec fn default_split(battles: nat, soldiers: nat) -> Seq<usize> {
    Seq::new(
        battles,
        |i: int|
            if i == 0 {
                soldiers as usize
            } else {
                0usize
            },
    )
}

/// The regrets against an opponent met for the first time: none.
pub open spec fn no_regrets(strategies: nat) -> Seq<i64> {
    Seq::new(strategies, |s: int| 0i64)
}

/// The regrets against one opponent are one for each strategy, and none has
/// moved by more than two for each round played.
pub open spec fn regrets_fit(regrets: Seq<i64>, strategies: nat, rounds: nat) -> bool {
    &&& regrets.len() == strategies
    &&& forall|s: int| 0 <= s < regrets.len() ==> -2 * rounds <= #[trigger] regrets[s] <= 2 * rounds
}

/// The regrets after a round, from those before it: against each player in
/// `result` but `me`, the regret of each strategy moves by what that
/// strategy would have gained over the one I played; a player met for the
/// first time starts from zero regrets; what I know of players who are not
/// in `result` stays.
pub open spec fn regrets_after_round(
    before: Map<usize, Seq<i64>>,
    game: BlottoGameMeta,
    result: Map<usize, Allocation>,
    me: usize,
) -> Map<usize, Seq<i64>> {
    Map::new(
        |opponent: usize|
            before.contains_key(opponent) || (result.contains_key(opponent) && opponent != me),
        |opponent: usize|
            if result.contains_key(opponent) && opponent != me {
                let known = if before.contains_key(opponent) {
                    before[opponent]
                } else {
                    no_regrets(game.strategies@.len())
                };
                regrets_moved(
                    known,
                    game.game_matrix@[game.id_of(result[opponent]@)]@,
                    game.id_of(result[me]@),
                )
            } else {
                before[opponent]
            },
    )
}

/// The regrets that the rounds `seen` leave in a player with the id `me` who
/// knew nothing before them.
pub open spec fn regrets_from(seen: History, game: BlottoGameMeta, me: usize) -> Map<
    usize,
    Seq<i64>,
>
    decreases seen.len(),
{
    if seen.len() == 0 {
        Map::empty()
    } else {
        regrets_after_round(
            regrets_from(seen.drop_last(), game, me),
            game,
            seen.last().allocations@,
            me,
        )
    }
}

/// Where my move lost the round, no strategy would have done worse, and one
/// that would have won the round gains the most regret there is to gain.
pub proof fn lemma_regret_after_a_loss(row: Seq<BattleResult>, played: int, strategy: int)
    requires
        0 <= played < row.len(),
        0 <= strategy < row.len(),
        row[played] == BattleResult::Win,
    ensures
        regret_delta(row, played, strategy) >= 0,
        row[strategy] == BattleResult::Lose ==> regret_delta(row, played, strategy) == 2,
        row[strategy] == BattleResult::Win ==> regret_delta(row, played, strategy) == 0,
{
}

/// After a player's first round its regrets against an opponent are, for
/// each strategy, what that strategy would have gained over the one played.
/// Where the round was lost, none of them is below zero, and those of the
/// strategies that would have won the round are above.
pub proof fn lemma_regrets_after_first_round(
    game: BlottoGameMeta,
    result: Map<usize, Allocation>,
    me: usize,
    opponent: usize,
)
    requires
        game.wf(),
        me != opponent,
        result.contains_key(me),
        result.contains_key(opponent),
        game.is_strategy(result[me]@),
        game.is_strategy(result[opponent]@),
    ensures
        ({
            let learnt = regrets_after_round(Map::empty(), game, result, me);
            let mine = result[me]@;
            let theirs = result[opponent]@;
            &&& learnt.contains_key(opponent)
            &&& learnt[opponent].len() == game.strategies@.len()
            &&& forall|s: int|
                0 <= s < game.strategies@.len() ==> #[trigger] learnt[opponent][s] == payoff(
                    outcome(theirs, game.strategies@[s]@),
                ) - payoff(outcome(theirs, mine))
            &&& outcome(theirs, mine) == BattleResult::Win ==> forall|s: int|
                0 <= s < game.strategies@.len() ==> #[trigger] learnt[opponent][s] >= 0 && (outcome(
                    theirs,
                    game.strategies@[s]@,
                ) == BattleResult::Lose ==> learnt[opponent][s] == 2)
        }),
{
    lemma_strategies(game);
    let row = game.game_matrix@[game.id_of(result[opponent]@)]@;
    let played = game.id_of(result[me]@);
    assert forall|s: int| 0 <= s < game.strategies@.len() implies regret_delta(row, played, s)
        == payoff(outcome(result[opponent]@, game.strategies@[s]@)) - payoff(
        outcome(result[opponent]@, result[me]@),
    ) by {
        assert(row[s] == outcome(result[opponent]@, game.strategies@[s]@));
        assert(row[played] == outcome(result[opponent]@, result[me]@));
    }
}

/// What a round is worth to me, computed.
pub fn payoff_of(oppo_result: BattleResult) -> (value: i64)
    ensures
        value == payoff(oppo_result),
{
    match oppo_result {
        // oppo wins
        BattleResult::Win => -1,
        BattleResult::Draw => 0,
        // oppo loses
        BattleResult::Lose => 1,
    }
}

/// Moves every regret by what the round has shown: `row` is the row of the
/// game matrix for the opponent's move, `played` the id of my own.
pub fn move_regrets(regrets: &mut Vec<i64>, row: &Vec<BattleResult>, played: usize)
    requires
        old(regrets)@.len() == row@.len(),
        played < row@.len(),
        forall|s: int|
            0 <= s < old(regrets)@.len() ==> i64::MIN + 2 <= #[trigger] old(regrets)@[s] <= i64::MAX
                - 2,
    ensures
        final(regrets)@ == regrets_moved(old(regrets)@, row@, played as int),
{
    let my_action_payoff: i64 = payoff_of(row[played]);
    for strategy_id in 0..row.len()
        invariant
            regrets@.len() == row@.len() == old(regrets)@.len(),
            played < row@.len(),
            my_action_payoff == payoff(row@[played as int]),
            forall|s: int|
                0 <= s < old(regrets)@.len() ==> i64::MIN + 2 <= #[trigger] old(regrets)@[s]
                    <= i64::MAX - 2,
            forall|s: int|
                0 <= s < strategy_id ==> #[trigger] regrets@[s] == old(regrets)@[s] + regret_delta(
                    row@,
                    played as int,
                    s,
                ),
            forall|s: int| strategy_id <= s < regrets@.len() ==> regrets@[s] == old(regrets)@[s],
    {
        // reverse the payoff because we use "oppo to me" result
        let payoff: i64 = payoff_of(row[strategy_id]);
        regrets[strategy_id] = regrets[strategy_id] + (payoff - my_action_payoff);
    }
    assert(regrets@ =~= regrets_moved(old(regrets)@, row@, played as int));
}

/// The allocation that stands for `action`: the strategy of that id, or the
/// default split where there is no action.
pub open spec fn decision(game: BlottoGameMeta, action: Option<usize>) -> Seq<usize> {
    match action {
        Some(id) => game.strategies@[id as int]@,
        None => default_split(game.battle_count as nat, game.soldier_count as nat),
    }
}

/// The strategies among the first `upto` whose regret is above zero, in id
/// order.
pub open spec fn candidates(game: BlottoGameMeta, regrets: Seq<i64>, upto: nat) -> Seq<Seq<usize>>
    decreases upto,
{
    if upto == 0 {
        Seq::empty()
    } else {
        let before = candidates(game, regrets, (upto - 1) as nat);
        if regrets[upto - 1] > 0 {
            before.push(game.strategies@[upto - 1]@)
        } else {
            before
        }
    }
}

proof fn lemma_total_of_zeros(s: Seq<usize>)
    requires
        forall|i: int| 0 <= i < s.len() ==> s[i] == 0,
    ensures
        total(s) == 0,
    decreases s.len(),
{
    if s.len() > 0 {
        lemma_total_of_zeros(s.drop_first());
    }
}

/// The default split is a legal allocation.
pub proof fn lemma_default_split_is_split(battles: nat, soldiers: nat)
    requires
        battles >= 1,
        soldiers <= usize::MAX,
    ensures
        crate::allocation::is_split(default_split(battles, soldiers), battles, soldiers),
{
    lemma_total_of_zeros(default_split(battles, soldiers).drop_first());
}

/// The allocation to play for the action drawn: the strategy with that id,
/// or, with no action, all soldiers in the first battle.
pub fn allocation_of_action(game: &BlottoGameMeta, action: Option<usize>) -> (allocation:
    Allocation)
    requires
        game.wf(),
        action matches Some(id) ==> id < game.strategies@.len(),
    ensures
        allocation@ == decision(*game, action),
        game.is_strategy(allocation@),
{
    proof {
        lemma_strategies(*game);
        lemma_default_split_is_split(game.battle_count as nat, game.soldier_count as nat);
    }
    match action {
        Some(id) => {
            let strategy = game.id_to_strategy.get(&id);
            strategy.unwrap().clone()
        },
        None => {
            // no valid cfr action, use default
            let mut alloc: Vec<usize> = vec![0; game.battle_count];
            alloc[0] = game.soldier_count;
            assert(alloc@ =~= default_split(game.battle_count as nat, game.soldier_count as nat));
            Allocation { soldiers: alloc }
        },
    }
}

/// The strategies that `regrets` puts forward: those with a regret above
/// zero, in id order.
pub fn action_candidates(game: &BlottoGameMeta, regrets: &Vec<i64>) -> (found: Vec<Allocation>)
    requires
        game.wf(),
        regrets@.len() == game.strategies@.len(),
    ensures
        splits(found@) == candidates(*game, regrets@, regrets@.len()),
{
    let mut found: Vec<Allocation> = Vec::new();
    for action_id in 0..regrets.len()
        invariant
            game.wf(),
            regrets@.len() == game.strategies@.len(),
            splits(found@) == candidates(*game, regrets@, action_id as nat),
    {
        if regrets[action_id] > 0 {
            let strategy = game.id_to_strategy.get(&action_id);
            found.push(strategy.unwrap().clone());
            assert(splits(found@) =~= candidates(*game, regrets@, (action_id + 1) as nat));
        }
    }
    found
}

/// Whether `report` is what `player` knows about one of its opponents.
pub open spec fn report_says(report: RegretReport, player: CfrPlayer, game: BlottoGameMeta) -> bool {
    &&& report.player_id == player.id()
    &&& player.regrets().contains_key(report.opponent_id)
    &&& report.regret_sum@ == player.regrets()[report.opponent_id]
    &&& splits(report.action_candidates@) == candidates(
        game,
        report.regret_sum@,
        report.regret_sum@.len(),
    )
}

/// A player that learns which strategies it should have played.
///
/// It is written for a game of two: with more than one opponent it draws
/// its action from the regrets against one of them, and which one is not
/// fixed.
pub struct CfrPlayer {
    player_id: usize,
    // key: player id, value: regret sum for each strategy id
    regret_sum: HashMap<usize, Vec<i64>>,
    /// The results that have gone into the regrets, oldest first.
    seen: Ghost<History>,
}

impl CfrPlayer {
    /// The regrets that the player holds, by opponent and strategy id.
    pub closed spec fn regrets(&self) -> Map<usize, Seq<i64>> {
        self.regret_sum@.map_values(|regrets: Vec<i64>| regrets@)
    }

    /// Whether the player's next draw can end in `action`: in none while it
    /// knows no opponent, else in what the regrets against one of its
    /// opponents allow.
    pub open spec fn may_play(&self, action: Option<usize>) -> bool {
        ||| self.regrets() == Map::<usize, Seq<i64>>::empty() && action is None
        ||| exists|opponent: usize| #[trigger]
            self.regrets().contains_key(opponent) && may_pick(self.regrets()[opponent], action)
    }

    /// The regrets are what the map holds, vector by vector.
    proof fn lemma_regrets(self)
        ensures
            forall|opponent: usize|
                self.regrets().contains_key(opponent) <==> self.regret_sum@.contains_key(opponent),
            forall|opponent: usize|
                self.regret_sum@.contains_key(opponent) ==> #[trigger] self.regrets()[opponent]
                    == self.regret_sum@[opponent]@,
    {
    }

    /// A player that knows no opponent yet.
    pub fn new() -> (player: Self)
        ensures
            player.id() == 0,
            player.seen() == History::empty(),
            player.regrets() == Map::<usize, Seq<i64>>::empty(),
    {
        let player = Self { player_id: 0, regret_sum: HashMap::new(), seen: Ghost(Seq::empty()) };
        assert(player.regrets() =~= Map::<usize, Seq<i64>>::empty());
        player
    }

    /// Draws the id of the strategy to play next, if the regrets name any.
    fn get_cfr_action(&self) -> (action: Option<usize>)
        ensures
            self.may_play(action),
            self.regrets() == Map::<usize, Seq<i64>>::empty() ==> action is None,
    {
        for entry in it: self.regret_sum.iter()
            invariant
                it.index() == 0,
        {
            // assumption: only 1 opponent
            let action = get_action_from_regrets(entry.1);
            proof {
                assert(entry == it.seq()[0]);
                assert(self.regret_sum@.contains_key(*entry.0));
                assert(self.regrets().contains_key(*entry.0));
                assert(self.regrets()[*entry.0] == entry.1@);
            }
            return action;
        }
        assert(self.regrets() =~= Map::<usize, Seq<i64>>::empty());
        None
    }
}

impl BlottoPlayer for CfrPlayer {
    closed spec fn id(&self) -> usize {
        self.player_id
    }

    closed spec fn seen(&self) -> History {
        self.seen@
    }

    /// The regrets are what the rounds seen have left, and none has grown
    /// beyond what that many rounds can do.
    open spec fn fits(&self, game: &BlottoGameMeta) -> bool {
        &&& self.regrets() == regrets_from(self.seen(), *game, self.id())
        &&& forall|opponent: usize| #[trigger]
            self.regrets().contains_key(opponent) ==> regrets_fit(
                self.regrets()[opponent],
                game.strategies@.len(),
                self.seen().len(),
            )
    }

    open spec fn may_decide(
        &self,
        game: &BlottoGameMeta,
        round: usize,
        allocation: &Allocation,
    ) -> bool {
        exists|action: Option<usize>| self.may_play(action) && allocation@ == decision(*game, action)
    }

    /// One report for each opponent, the opponents in any order.
    open spec fn may_report(&self, game: &BlottoGameMeta, report: &Vec<RegretReport>) -> bool {
        &&& report@.len() == self.regrets().dom().len()
        &&& forall|i: int|
            0 <= i < report@.len() ==> report_says(#[trigger] report@[i], *self, *game)
        &&& forall|i: int, j: int|
            0 <= i < j < report@.len() ==> (#[trigger] report@[i]).opponent_id != (
            #[trigger] report@[j]).opponent_id
    }

    fn on_register(&mut self, player_id: usize, _game: &BlottoGameMeta)
        ensures
            final(self).regrets() == old(self).regrets(),
    {
        self.player_id = player_id;
        assert(self.regrets() == old(self).regrets());
        assert(self.seen() =~= History::empty());
    }

    /// Plays the default split while no regret is above zero, else a
    /// strategy drawn in proportion to the regrets.
    fn decide_allocation(&self, game: &BlottoGameMeta, _round: usize) -> (allocation: Allocation)
        ensures
            self.regrets() == Map::<usize, Seq<i64>>::empty() ==> allocation@ == default_split(
                game.battle_count as nat,
                game.soldier_count as nat,
            ),
    {
        let cfr_action_id = self.get_cfr_action();
        let allocation = allocation_of_action(game, cfr_action_id);
        assert(self.may_play(cfr_action_id) && allocation@ == decision(*game, cfr_action_id));
        allocation
    }

    /// Moves the regrets against every other player in `result` by what the
    /// round has shown.
    fn handle_result(&mut self, game: &BlottoGameMeta, result: &BlottoGameResult)
        ensures
            final(self).regrets() == regrets_after_round(
                old(self).regrets(),
                *game,
                result.allocations@,
                old(self).id(),
            ),
    {
        let me: usize = self.player_id;
        let my_action = result.allocations.get(&me);
        let my_action_id: usize = game.strategy_to_id(my_action.unwrap()).unwrap();
        let strategy_count: usize = game.game_matrix.len();
        let ghost before = self.regret_sum@;
        let ghost rounds = self.seen@.len();
        let ghost mut met: Set<usize> = Set::empty();
        proof {
            self.lemma_regrets();
            assert forall|opponent: usize| before.contains_key(opponent) implies regrets_fit(
                (#[trigger] before[opponent])@,
                strategy_count as nat,
                rounds,
            ) by {
                assert(self.regrets().contains_key(opponent));
            }
        }

        for entry in it: result.allocations.iter()
            invariant
                game.wf(),
                result.is_legal(game),
                rounds < MAX_ROUNDS,
                self.player_id == me,
                self.seen@ == old(self).seen@,
                strategy_count == game.strategies@.len(),
                my_action_id < strategy_count,
                it.seq().no_duplicates(),
                forall|i: int|
                    0 <= i < it.seq().len() ==> {
                        let (id, action) = #[trigger] it.seq()[i];
                        result.allocations@.contains_key(*id) && result.allocations@[*id]
                            == *action
                    },
                forall|id: usize|
                    result.allocations@.contains_key(id) ==> met.contains(id) || exists|i: int|
                        it.index() <= i < it.seq().len() && *(#[trigger] it.seq()[i]).0 == id,
                forall|i: int|
                    it.index() <= i < it.seq().len() ==> !met.contains(
                        *(#[trigger] it.seq()[i]).0,
                    ),
                forall|opponent: usize| #[trigger]
                    self.regret_sum@.contains_key(opponent) <==> before.contains_key(opponent) || (
                    met.contains(opponent) && opponent != me),
                forall|opponent: usize|
                    before.contains_key(opponent) ==> regrets_fit(
                        (#[trigger] before[opponent])@,
                        strategy_count as nat,
                        rounds,
                    ),
                forall|opponent: usize|
                    before.contains_key(opponent) && !(met.contains(opponent) && opponent != me)
                        ==> #[trigger] self.regret_sum@[opponent] == before[opponent],
                forall|opponent: usize| #[trigger]
                    met.contains(opponent) ==> result.allocations@.contains_key(opponent),
                forall|opponent: usize|
                    met.contains(opponent) && opponent != me ==> (
                    #[trigger] self.regret_sum@[opponent])@ == regrets_moved(
                        if before.contains_key(opponent) {
                            before[opponent]@
                        } else {
                            no_regrets(strategy_count as nat)
                        },
                        game.game_matrix@[game.id_of(result.allocations@[opponent]@)]@,
                        my_action_id as int,
                    ),
        {
            let (oppo_id, action) = entry;
            let ghost held = self.regret_sum@;
            proof {
                assert(entry == it.seq()[it.index() as int]);
                assert(!met.contains(*oppo_id));
                assert forall|i: int| it.index() < i < it.seq().len() implies *(
                #[trigger] it.seq()[i]).0 != *oppo_id by {
                    if *it.seq()[i].0 == *oppo_id {
                        assert(*it.seq()[i].1 == *action);
                        assert(it.seq()[i] == it.seq()[it.index() as int]);
                    }
                }
            }
            if *oppo_id != me {
                let oppo_action_id: usize = game.strategy_to_id(action).unwrap();
                let mut regrets = match self.regret_sum.remove(oppo_id) {
                    Some(known) => known,
                    None => vec![0; strategy_count],
                };
                proof {
                    if before.contains_key(*oppo_id) {
                        assert(regrets == before[*oppo_id]);
                        assert(regrets_fit(regrets@, strategy_count as nat, rounds));
                    } else {
                        assert(regrets@ =~= no_regrets(strategy_count as nat));
                    }
                }
                let ghost known = regrets@;
                move_regrets(&mut regrets, &game.game_matrix[oppo_action_id], my_action_id);
                self.regret_sum.insert(*oppo_id, regrets);
                proof {
                    assert(self.regret_sum@ == held.remove(*oppo_id).insert(*oppo_id, regrets));
                    assert(result.allocations@[*oppo_id] == *action);
                    assert(oppo_action_id == game.id_of(result.allocations@[*oppo_id]@));
                    assert(self.regret_sum@[*oppo_id]@ == regrets_moved(
                        known,
                        game.game_matrix@[oppo_action_id as int]@,
                        my_action_id as int,
                    ));
                }
            }
            proof {
                met = met.insert(*oppo_id);
                assert forall|opponent: usize| #[trigger]
                    self.regret_sum@.contains_key(opponent) <==> before.contains_key(opponent) || (
                    met.contains(opponent) && opponent != me) by {
                    if opponent != *oppo_id || *oppo_id == me {
                        assert(self.regret_sum@.contains_key(opponent) <==> held.contains_key(
                            opponent,
                        ));
                    }
                }
                assert forall|opponent: usize|
                    met.contains(opponent) && opponent != me implies (
                #[trigger] self.regret_sum@[opponent])@ == regrets_moved(
                    if before.contains_key(opponent) {
                        before[opponent]@
                    } else {
                        no_regrets(strategy_count as nat)
                    },
                    game.game_matrix@[game.id_of(result.allocations@[opponent]@)]@,
                    my_action_id as int,
                ) by {
                    if opponent != *oppo_id {
                        assert(self.regret_sum@[opponent] == held[opponent]);
                    }
                }
            }
        }
        self.seen = Ghost(self.seen@.push(*result));
        proof {
            self.lemma_regrets();
            let after = regrets_after_round(
                old(self).regrets(),
                *game,
                result.allocations@,
                old(self).id(),
            );
            assert forall|opponent: usize| #[trigger]
                self.regrets().contains_key(opponent) implies regrets_fit(
                self.regrets()[opponent],
                game.strategies@.len(),
                self.seen().len(),
            ) && after[opponent] == self.regrets()[opponent] by {
                if met.contains(opponent) && opponent != me {
                } else {
                    assert(self.regret_sum@[opponent] == before[opponent]);
                    assert(regrets_fit(before[opponent]@, strategy_count as nat, rounds));
                }
            }
            assert(self.regrets() =~= after);
            assert(self.seen().drop_last() =~= old(self).seen());
        }
    }

    /// Reports, for each opponent once, the regrets against it and the
    /// strategies that they put forward. The opponents come in no fixed order.
    fn on_exit_game(&self, game: &BlottoGameMeta) -> (report: Vec<RegretReport>) {
        let mut report: Vec<RegretReport> = Vec::new();
        proof {
            self.lemma_regrets();
            assert(self.regrets().dom() =~= self.regret_sum@.dom());
        }
        for entry in it: self.regret_sum.iter()
            invariant
                game.wf(),
                self.fits(game),
                it.seq().len() == self.regret_sum@.dom().len(),
                it.seq().no_duplicates(),
                forall|i: int|
                    0 <= i < it.seq().len() ==> {
                        let (id, regrets) = #[trigger] it.seq()[i];
                        self.regret_sum@.contains_key(*id) && self.regret_sum@[*id] == *regrets
                    },
                report@.len() == it.index(),
                forall|i: int|
                    0 <= i < report@.len() ==> (#[trigger] report@[i]).opponent_id == *it.seq()[i].0,
                forall|i: int|
                    0 <= i < report@.len() ==> report_says(#[trigger] report@[i], *self, *game),
                forall|i: int, j: int|
                    0 <= i < j < report@.len() ==> (#[trigger] report@[i]).opponent_id != (
                    #[trigger] report@[j]).opponent_id,
        {
            let (oppo_id, action_regrets) = entry;
            proof {
                self.lemma_regrets();
                assert(entry == it.seq()[it.index() as int]);
                assert(self.regrets().contains_key(*oppo_id));
                assert forall|i: int| 0 <= i < it.index() implies *(#[trigger] it.seq()[i]).0
                    != *oppo_id by {
                    if *it.seq()[i].0 == *oppo_id {
                        assert(*it.seq()[i].1 == *action_regrets);
                        assert(it.seq()[i] == it.seq()[it.index() as int]);
                    }
                }
            }
            let found = action_candidates(game, action_regrets);
            report.push(
                RegretReport {
                    player_id: self.player_id,
                    opponent_id: *oppo_id,
                    regret_sum: action_regrets.clone(),
                    action_candidates: found,
                },
            );
        }
        report
    }
}

} // verus!
