//! The game: its strategies and the table of every round between two of
//! them, the players' protocol, and the loop that plays the rounds.

use vstd::prelude::*;
use std::collections::HashMap;
use crate::allocation::{
    is_split, lemma_compare_swapped_is_inverse, lemma_lex_less_irreflexive,
    lemma_lex_less_total, lemma_lex_less_transitive, lex_less, outcome, Allocation, BattleResult,
};
use crate::enumeration::{allocations, get_all_allocations, lemma_listing_facts, rows};

verus! {

broadcast use vstd::std_specs::hash::group_hash_axioms;

/// What every player of one game shares; nothing changes it once it is built.
pub struct BlottoGameMeta {
    pub battle_count: usize,
    pub soldier_count: usize,
    /// Every strategy, at the index that is its id. An allocation is looked
    /// up in it with [`BlottoGameMeta::strategy_to_id`].
    pub strategies: Vec<Allocation>,
    /// key: strategy id, value: strategy
    pub id_to_strategy: HashMap<usize, Allocation>,
    /// `game_matrix[i][j]` is the round of strategy `i` against strategy `j`.
    pub game_matrix: Vec<Vec<BattleResult>>,
}

/// What a list of allocations holds, one by one.
pub open spec fn splits(v: Seq<Allocation>) -> Seq<Seq<usize>> {
    Seq::new(v.len(), |i: int| v[i]@)
}

impl BlottoGameMeta {
    /// Whether `s` is a legal allocation of this game.
    pub open spec fn is_strategy(&self, s: Seq<usize>) -> bool {
        is_split(s, self.battle_count as nat, self.soldier_count as nat)
    }

    /// The id of the strategy `s`.
    pub open spec fn id_of(&self, s: Seq<usize>) -> int
        recommends
            self.is_strategy(s),
    {
        choose|id: int| 0 <= id < self.strategies@.len() && (#[trigger] self.strategies@[id])@ == s
    }

    /// The strategies are all the splits in their fixed order, the map gives
    /// each id its strategy, and the table holds every round.
    pub open spec fn wf(&self) -> bool {
        let count = self.strategies@.len();
        &&& self.battle_count >= 1
        &&& splits(self.strategies@) == allocations(
            self.battle_count as nat,
            self.soldier_count as nat,
        )
        &&& forall|id: usize| self.id_to_strategy@.contains_key(id) <==> id < count
        &&& forall|id: usize|
            id < count ==> (#[trigger] self.id_to_strategy@[id])@ == self.strategies@[id as int]@
        &&& self.game_matrix@.len() == count
        &&& forall|i: int| 0 <= i < count ==> (#[trigger] self.game_matrix@[i])@.len() == count
        &&& forall|i: int, j: int|
            0 <= i < count && 0 <= j < count ==> #[trigger] self.game_matrix@[i]@[j] == outcome(
                self.strategies@[i]@,
                self.strategies@[j]@,
            )
    }

    /// Looks an allocation up among the strategies: its id, or `None` where
    /// it is no legal allocation of this game.
    ///
    /// The strategies stand in dictionary order, so the search halves what
    /// is left to search with every step.
    pub fn strategy_to_id(&self, allocation: &Allocation) -> (id: Option<usize>)
        requires
            self.wf(),
        ensures
            id is Some <==> self.is_strategy(allocation@),
            id matches Some(found) ==> found == self.id_of(allocation@) && found
                < self.strategies@.len() && self.strategies@[found as int]@ == allocation@,
    {
        proof {
            lemma_strategies(*self);
        }
        if allocation.soldiers.len() != self.battle_count {
            return None;
        }
        let mut low: usize = 0;
        let mut high: usize = self.strategies.len();
        while low < high
            invariant
                self.wf(),
                allocation@.len() == self.battle_count,
                low <= high <= self.strategies@.len(),
                forall|k: int| 0 <= k < low ==> lex_less((#[trigger] self.strategies@[k])@, allocation@),
                forall|k: int|
                    high <= k < self.strategies@.len() ==> lex_less(
                        allocation@,
                        (#[trigger] self.strategies@[k])@,
                    ),
            decreases high - low,
        {
            let middle: usize = low + (high - low) / 2;
            let strategy = &self.strategies[middle];
            proof {
                lemma_strategies(*self);
                assert(self.is_strategy(self.strategies@[middle as int]@));
            }
            if strategy.same_as(allocation) {
                return Some(middle);
            }
            if strategy.comes_before(allocation) {
                proof {
                    assert forall|k: int| 0 <= k < middle + 1 implies lex_less(
                        (#[trigger] self.strategies@[k])@,
                        allocation@,
                    ) by {
                        if k < middle {
                            lemma_lex_less_transitive(
                                self.strategies@[k]@,
                                strategy@,
                                allocation@,
                            );
                        }
                    }
                }
                low = middle + 1;
            } else {
                proof {
                    lemma_lex_less_total(strategy@, allocation@);
                    assert forall|k: int| middle <= k < self.strategies@.len() implies lex_less(
                        allocation@,
                        (#[trigger] self.strategies@[k])@,
                    ) by {
                        if middle < k {
                            lemma_lex_less_transitive(
                                allocation@,
                                strategy@,
                                self.strategies@[k]@,
                            );
                        }
                    }
                }
                high = middle;
            }
        }
        proof {
            lemma_strategies(*self);
            if self.is_strategy(allocation@) {
                let k = self.id_of(allocation@);
                lemma_lex_less_irreflexive(allocation@);
            }
        }
        None
    }
}

/// What follows for the strategies of a game from their being all the
/// splits in order: their number is the binomial coefficient of stars and
/// bars, each is legal, no two are the same, none is missing, and a
/// strategy's id leads back to the strategy and the other way round.
pub proof fn lemma_strategies(game: BlottoGameMeta)
    requires
        game.wf(),
    ensures
        game.strategies@.len() == crate::enumeration::binomial(
            (game.soldier_count + game.battle_count - 1) as nat,
            (game.battle_count - 1) as nat,
        ),
        forall|i: int|
            0 <= i < game.strategies@.len() ==> game.is_strategy((#[trigger] game.strategies@[i])@),
        forall|i: int, j: int|
            0 <= i < j < game.strategies@.len() ==> lex_less(
                (#[trigger] game.strategies@[i])@,
                (#[trigger] game.strategies@[j])@,
            ),
        forall|i: int, j: int|
            0 <= i < game.strategies@.len() && 0 <= j < game.strategies@.len() && i != j ==> (
            #[trigger] game.strategies@[i])@ != (#[trigger] game.strategies@[j])@,
        forall|s: Seq<usize>| #[trigger]
            game.is_strategy(s) ==> 0 <= game.id_of(s) < game.strategies@.len()
                && game.strategies@[game.id_of(s)]@ == s,
        forall|id: int|
            0 <= id < game.strategies@.len() ==> game.id_of((#[trigger] game.strategies@[id])@)
                == id,
{
    let listing = Seq::new(game.strategies@.len(), |i: int| game.strategies@[i].soldiers);
    assert(rows(listing) =~= splits(game.strategies@));
    lemma_listing_facts(listing, game.battle_count as nat, game.soldier_count as nat);
    assert forall|i: int| 0 <= i < game.strategies@.len() implies game.is_strategy(
        (#[trigger] game.strategies@[i])@,
    ) by {
        assert(listing[i]@ == game.strategies@[i]@);
    }
    assert forall|i: int, j: int| 0 <= i < j < game.strategies@.len() implies lex_less(
        (#[trigger] game.strategies@[i])@,
        (#[trigger] game.strategies@[j])@,
    ) by {
        assert(lex_less(listing[i]@, listing[j]@));
    }
    assert forall|i: int, j: int|
        0 <= i < game.strategies@.len() && 0 <= j < game.strategies@.len() && i != j implies (
    #[trigger] game.strategies@[i])@ != (#[trigger] game.strategies@[j])@ by {
        assert(listing[i]@ == game.strategies@[i]@);
        assert(listing[j]@ == game.strategies@[j]@);
    }
    assert forall|s: Seq<usize>| #[trigger] game.is_strategy(s) implies 0 <= game.id_of(s)
        < game.strategies@.len() && game.strategies@[game.id_of(s)]@ == s by {
        let k = choose|k: int| 0 <= k < listing.len() && (#[trigger] listing[k])@ == s;
        assert(game.strategies@[k]@ == s);
    }
}

/// The table is its own mirror image with win and loss swapped, and every
/// strategy draws against itself.
pub proof fn lemma_game_matrix_mirrors(game: BlottoGameMeta, i: int, j: int)
    requires
        game.wf(),
        0 <= i < game.strategies@.len(),
        0 <= j < game.strategies@.len(),
    ensures
        game.game_matrix@[j]@[i] == game.game_matrix@[i]@[j].inverse(),
        game.game_matrix@[i]@[i] == BattleResult::Draw,
{
    lemma_strategies(game);
    lemma_compare_swapped_is_inverse(game.strategies@[i]@, game.strategies@[j]@);
}

/// The allocations of one round, by player id.
pub struct BlottoGameResult {
    /// key: player id, value: allocation
    pub allocations: HashMap<usize, Allocation>,
}

impl BlottoGameResult {
    /// Whether every allocation in the result is a strategy of `game`.
    pub open spec fn is_legal(&self, game: &BlottoGameMeta) -> bool {
        forall|id: usize|
            self.allocations@.contains_key(id) ==> game.is_strategy(
                (#[trigger] self.allocations@[id])@,
            )
    }
}

/// The results of the rounds of a game, oldest first.
pub type History = Seq<BlottoGameResult>;

/// The most rounds that a player takes in over its life. A regret moves by
/// at most two in a round, so within this many rounds it stays an `i64`.
pub const MAX_ROUNDS: u64 = 0x3fff_ffff_ffff_ffff;

/// What a player knows about one opponent when the game ends.
#[derive(Debug)]
pub struct RegretReport {
    pub player_id: usize,
    pub opponent_id: usize,
    /// The regret of each strategy, by id.
    pub regret_sum: Vec<i64>,
    /// The strategies with a regret above zero, in id order.
    pub action_candidates: Vec<Allocation>,
}

/// What the game asks of a player.
///
/// Beside the four calls of the protocol the trait names what the contracts
/// of those calls speak of: the player's id, the rounds it has taken in,
/// whether its state belongs to a given game, and which allocations and
/// reports it may answer with.
pub trait BlottoPlayer {
    /// The id under which the player sits at the table.
    spec fn id(&self) -> usize;

    /// The results that the player has taken in so far, oldest first.
    spec fn seen(&self) -> History;

    /// Whether what the player has learnt so far belongs to `game`.
    spec fn fits(&self, game: &BlottoGameMeta) -> bool;

    /// Whether the player, as it is, may answer with `allocation` when it is
    /// asked in round `round`.
    spec fn may_decide(&self, game: &BlottoGameMeta, round: usize, allocation: &Allocation) -> bool;

    /// Whether the player, as it is, may hand in `report` when the game is
    /// over.
    spec fn may_report(&self, game: &BlottoGameMeta, report: &Vec<RegretReport>) -> bool;

    /// Tells the player its id, before it has seen any round.
    fn on_register(&mut self, player_id: usize, game: &BlottoGameMeta)
        requires
            game.wf(),
            old(self).fits(game),
            old(self).seen().len() == 0,
        ensures
            final(self).fits(game),
            final(self).id() == player_id,
            final(self).seen() == old(self).seen(),
    ;

    /// Asks the player for its allocation in round `round`.
    fn decide_allocation(&self, game: &BlottoGameMeta, round: usize) -> (allocation: Allocation)
        requires
            game.wf(),
            self.fits(game),
        ensures
            game.is_strategy(allocation@),
            self.may_decide(game, round, &allocation),
    ;

    /// Shows the player what everyone, itself included, sent out this round.
    fn handle_result(&mut self, game: &BlottoGameMeta, result: &BlottoGameResult)
        requires
            game.wf(),
            old(self).fits(game),
            old(self).seen().len() < MAX_ROUNDS,
            result.is_legal(game),
            result.allocations@.contains_key(old(self).id()),
        ensures
            final(self).fits(game),
            final(self).id() == old(self).id(),
            final(self).seen() == old(self).seen().push(*result),
    ;

    /// Asks the player what it has to report now that the game is over.
    fn on_exit_game(&self, game: &BlottoGameMeta) -> (report: Vec<RegretReport>)
        requires
            game.wf(),
            self.fits(game),
        ensures
            self.may_report(game, &report),
    ;
}

/// The reports of several players, one player's after the other's.
pub open spec fn joined(parts: Seq<Vec<RegretReport>>) -> Seq<RegretReport>
    decreases parts.len(),
{
    if parts.len() == 0 {
        Seq::empty()
    } else {
        joined(parts.drop_last()) + parts.last()@
    }
}

/// A boxed player plays as the player in the box does, so that players of
/// different kinds can sit at one table.
impl BlottoPlayer for Box<dyn BlottoPlayer> {
    open spec fn id(&self) -> usize {
        (**self).id()
    }

    open spec fn seen(&self) -> History {
        (**self).seen()
    }

    open spec fn fits(&self, game: &BlottoGameMeta) -> bool {
        (**self).fits(game)
    }

    open spec fn may_decide(
        &self,
        game: &BlottoGameMeta,
        round: usize,
        allocation: &Allocation,
    ) -> bool {
        (**self).may_decide(game, round, allocation)
    }

    open spec fn may_report(&self, game: &BlottoGameMeta, report: &Vec<RegretReport>) -> bool {
        (**self).may_report(game, report)
    }

    fn on_register(&mut self, player_id: usize, game: &BlottoGameMeta) {
        (**self).on_register(player_id, game)
    }

    fn decide_allocation(&self, game: &BlottoGameMeta, round: usize) -> (allocation: Allocation) {
        (**self).decide_allocation(game, round)
    }

    fn handle_result(&mut self, game: &BlottoGameMeta, result: &BlottoGameResult) {
        (**self).handle_result(game, result)
    }

    fn on_exit_game(&self, game: &BlottoGameMeta) -> (report: Vec<RegretReport>) {
        (**self).on_exit_game(game)
    }
}

/// One game and the players at its table, in the order of their ids.
///
/// The table holds players of one type. Left to its default, that type is
/// the boxed player, and the table takes any mix of players.
pub struct BlottoGame<P: BlottoPlayer = Box<dyn BlottoPlayer>> {
    /// not changed throughout the game
    pub game_meta: BlottoGameMeta,
    players: Vec<P>,
}

impl<P: BlottoPlayer> BlottoGame<P> {
    /// The game that is played; nothing changes it.
    pub closed spec fn meta(&self) -> BlottoGameMeta {
        self.game_meta
    }

    /// The players at the table, each at the index that is its id.
    pub closed spec fn players(&self) -> Seq<P> {
        self.players@
    }

    /// The game is well formed, and each player fits it and knows its id.
    pub open spec fn wf(&self) -> bool {
        &&& self.meta().wf()
        &&& forall|id: int|
            0 <= id < self.players().len() ==> {
                let player = #[trigger] self.players()[id];
                player.fits(&self.meta()) && player.id() == id
            }
    }

    /// Builds the game of `battle_count` battles and `soldier_count`
    /// soldiers, with nobody at the table yet.
    pub fn new(battle_count: usize, soldier_count: usize) -> (game: BlottoGame<P>)
        requires
            battle_count >= 1,
        ensures
            game.wf(),
            game.meta().battle_count == battle_count,
            game.meta().soldier_count == soldier_count,
            game.players().len() == 0,
    {
        let listing = get_all_allocations(battle_count, soldier_count);
        let ghost listed = rows(listing@);
        let mut strategies: Vec<Allocation> = Vec::new();
        for soldiers in rest: listing
            invariant
                listed.len() == rest.seq().len(),
                forall|k: int| 0 <= k < listed.len() ==> listed[k] == (#[trigger] rest.seq()[k])@,
                strategies@.len() == rest.index(),
                forall|k: int|
                    0 <= k < strategies@.len() ==> (#[trigger] strategies@[k])@ == listed[k],
        {
            strategies.push(Allocation { soldiers: soldiers });
        }
        assert(splits(strategies@) =~= listed);
        let count: usize = strategies.len();

        let mut game_matrix: Vec<Vec<BattleResult>> = Vec::new();
        for filled in 0..count
            invariant
                game_matrix@.len() == filled,
                forall|i: int| 0 <= i < filled ==> (#[trigger] game_matrix@[i])@.len() == count,
        {
            game_matrix.push(vec![BattleResult::Draw; count]);
        }
        for i in 0..count
            invariant
                count == strategies@.len(),
                battle_count >= 1,
                splits(strategies@) == allocations(battle_count as nat, soldier_count as nat),
                game_matrix@.len() == count,
                forall|a: int| 0 <= a < count ==> (#[trigger] game_matrix@[a])@.len() == count,
                forall|a: int, b: int|
                    0 <= a < count && 0 <= b < count && (a < i || b < i)
                        ==> #[trigger] game_matrix@[a]@[b] == outcome(
                        strategies@[a]@,
                        strategies@[b]@,
                    ),
        {
            for j in i..count
                invariant
                    i < count,
                    count == strategies@.len(),
                    battle_count >= 1,
                    splits(strategies@) == allocations(
                        battle_count as nat,
                        soldier_count as nat,
                    ),
                    game_matrix@.len() == count,
                    forall|a: int|
                        0 <= a < count ==> (#[trigger] game_matrix@[a])@.len() == count,
                    forall|a: int, b: int|
                        0 <= a < count && 0 <= b < count && (a < i || b < i || (a == i && b < j)
                            || (b == i && a < j)) ==> #[trigger] game_matrix@[a]@[b] == outcome(
                            strategies@[a]@,
                            strategies@[b]@,
                        ),
            {
                proof {
                    lemma_split_lengths(strategies@, battle_count as nat, soldier_count as nat);
                    lemma_compare_swapped_is_inverse(strategies@[i as int]@, strategies@[j as int]@);
                }
                let strategy_i = &strategies[i];
                let strategy_j = &strategies[j];
                let ij = strategy_i.compare(strategy_j);
                game_matrix[i][j] = ij;
                game_matrix[j][i] = match ij {
                    BattleResult::Win => BattleResult::Lose,
                    BattleResult::Lose => BattleResult::Win,
                    BattleResult::Draw => BattleResult::Draw,
                };
            }
        }

        let mut id_to_strategy: HashMap<usize, Allocation> = HashMap::new();
        for idx in 0..count
            invariant
                count == strategies@.len(),
                forall|id: usize| id_to_strategy@.contains_key(id) <==> id < idx,
                forall|id: usize|
                    id < idx ==> (#[trigger] id_to_strategy@[id])@ == strategies@[id as int]@,
        {
            id_to_strategy.insert(idx, strategies[idx].clone());
        }

        BlottoGame {
            game_meta: BlottoGameMeta {
                battle_count: battle_count,
                soldier_count: soldier_count,
                strategies: strategies,
                id_to_strategy: id_to_strategy,
                game_matrix: game_matrix,
            },
            players: Vec::new(),
        }
    }

    /// Whether `result` is a round that the table, as it is, may play as its
    /// round number `round`: it holds one allocation for each player, and
    /// that is a legal one with which this player may answer.
    pub open spec fn allows(&self, round: usize, result: BlottoGameResult) -> bool {
        &&& forall|id: usize| result.allocations@.contains_key(id) <==> id < self.players().len()
        &&& result.is_legal(&self.meta())
        &&& forall|id: usize|
            id < self.players().len() ==> (#[trigger] self.players()[id as int]).may_decide(
                &self.meta(),
                round,
                &result.allocations@[id],
            )
    }

    /// Whether the table is what `before` becomes when every player at it
    /// takes in `result`.
    pub open spec fn follows(&self, before: BlottoGame<P>, result: BlottoGameResult) -> bool {
        &&& self.meta() == before.meta()
        &&& self.players().len() == before.players().len()
        &&& forall|id: int|
            0 <= id < self.players().len() ==> (#[trigger] self.players()[id]).seen()
                == before.players()[id].seen().push(result)
    }

    /// Whether `tables` are the states of a table before, between and after
    /// the rounds `rounds`, played in this order as the rounds number 0, 1
    /// and so on: each round is one that the table before it allows, and the
    /// table after it is what follows.
    pub open spec fn is_run(tables: Seq<BlottoGame<P>>, rounds: History) -> bool {
        &&& tables.len() == rounds.len() + 1
        &&& forall|round: int|
            0 <= round < rounds.len() ==> {
                &&& (#[trigger] tables[round]).wf()
                &&& tables[round].allows(round as usize, rounds[round])
                &&& tables[round + 1].follows(tables[round], rounds[round])
            }
    }

    /// Whether `parts` holds, for each player in the order of the ids, a
    /// report that this player may hand in.
    pub open spec fn reported(&self, parts: Seq<Vec<RegretReport>>) -> bool {
        &&& parts.len() == self.players().len()
        &&& forall|id: int|
            0 <= id < parts.len() ==> self.players()[id].may_report(
                &self.meta(),
                &#[trigger] parts[id],
            )
    }

    /// Seats a player: tells it its id, the number of players seated before
    /// it, and keeps it.
    pub fn add_player(&mut self, mut player: P)
        requires
            old(self).wf(),
            player.fits(&old(self).meta()),
            player.seen().len() == 0,
        ensures
            final(self).wf(),
            final(self).meta() == old(self).meta(),
            final(self).players().len() == old(self).players().len() + 1,
            final(self).players().take(old(self).players().len() as int) == old(self).players(),
            final(self).players().last().seen() == player.seen(),
    {
        let ghost before = *self;
        player.on_register(self.players.len(), &self.game_meta);
        self.players.push(player);
        proof {
            assert(self.players().take(before.players().len() as int) =~= before.players());
            assert forall|id: int| 0 <= id < self.players().len() implies {
                let player = #[trigger] self.players()[id];
                player.fits(&self.meta()) && player.id() == id
            } by {
                if id < before.players().len() {
                    assert(self.players()[id] == before.players()[id]);
                }
            }
        }
    }

    /// Plays one round: every player, in the order of the ids, decides on
    /// its allocation; only when all have decided does each of them, in the
    /// same order, get to see the round's result, which is returned.
    pub fn play_round(&mut self, round: usize) -> (result: BlottoGameResult)
        requires
            old(self).wf(),
            forall|id: int|
                0 <= id < old(self).players().len() ==> (#[trigger] old(
                    self,
                ).players()[id]).seen().len() < MAX_ROUNDS,
        ensures
            final(self).wf(),
            old(self).allows(round, result),
            final(self).follows(*old(self), result),
    {
        let count: usize = self.players.len();
        let mut result = BlottoGameResult { allocations: HashMap::new() };

        for player_id in 0..count
            invariant
                self.wf(),
                *self == *old(self),
                self.players().len() == count,
                forall|id: usize| result.allocations@.contains_key(id) <==> id < player_id,
                result.is_legal(&self.game_meta),
                forall|id: usize|
                    id < player_id ==> (#[trigger] self.players()[id as int]).may_decide(
                        &self.game_meta,
                        round,
                        &result.allocations@[id],
                    ),
        {
            assert(self.players()[player_id as int].fits(&self.meta()));
            let allocation = self.players[player_id].decide_allocation(&self.game_meta, round);
            result.allocations.insert(player_id, allocation);
        }

        for player_id in 0..count
            invariant
                self.wf(),
                self.game_meta == old(self).game_meta,
                self.players().len() == count == old(self).players().len(),
                forall|id: usize| result.allocations@.contains_key(id) <==> id < count,
                result.is_legal(&self.game_meta),
                forall|id: int|
                    0 <= id < count ==> (#[trigger] old(self).players()[id]).seen().len()
                        < MAX_ROUNDS,
                forall|id: int|
                    0 <= id < player_id ==> (#[trigger] self.players()[id]).seen() == old(
                        self,
                    ).players()[id].seen().push(result),
                forall|id: int|
                    player_id <= id < count ==> #[trigger] self.players()[id] == old(
                        self,
                    ).players()[id],
        {
            let ghost before = *self;
            assert(self.players()[player_id as int].fits(&self.meta()));
            self.players[player_id].handle_result(&self.game_meta, &result);
            proof {
                assert forall|id: int| 0 <= id < self.players().len() implies {
                    let player = #[trigger] self.players()[id];
                    player.fits(&self.meta()) && player.id() == id
                } by {
                    if id != player_id {
                        assert(self.players()[id] == before.players()[id]);
                    }
                }
            }
        }
        result
    }

    /// Plays `total_round` rounds, one after the other, and then asks every
    /// player, in the order of the ids, for its report; the reports come
    /// back in that order.
    ///
    /// The rounds are a run of the table: each is played as
    /// [`BlottoGame::play_round`] plays it, from the table as the round
    /// before has left it, and in the end every player has seen them all.
    pub fn start(&mut self, total_round: usize) -> (reports: Vec<RegretReport>)
        requires
            old(self).wf(),
            forall|id: int|
                0 <= id < old(self).players().len() ==> (#[trigger] old(
                    self,
                ).players()[id]).seen().len() + total_round <= MAX_ROUNDS,
        ensures
            final(self).wf(),
            final(self).meta() == old(self).meta(),
            final(self).players().len() == old(self).players().len(),
            exists|tables: Seq<BlottoGame<P>>, rounds: History|
                #![trigger Self::is_run(tables, rounds)]
                {
                    &&& rounds.len() == total_round
                    &&& Self::is_run(tables, rounds)
                    &&& tables.first() == *old(self)
                    &&& tables.last() == *final(self)
                    &&& forall|id: int|
                        0 <= id < old(self).players().len() ==> (
                        #[trigger] final(self).players()[id]).seen() == old(
                            self,
                        ).players()[id].seen() + rounds
                },
            exists|parts: Seq<Vec<RegretReport>>|
                #![trigger joined(parts)]
                final(self).reported(parts) && reports@ == joined(parts),
    {
        let count: usize = self.players.len();
        let ghost tables: Seq<BlottoGame<P>> = seq![*self];
        let ghost rounds: History = Seq::empty();
        for round in 0..total_round
            invariant
                self.wf(),
                self.players().len() == count == old(self).players().len(),
                rounds.len() == round,
                Self::is_run(tables, rounds),
                tables.first() == *old(self),
                tables.last() == *self,
                forall|id: int|
                    0 <= id < count ==> (#[trigger] old(self).players()[id]).seen().len()
                        + total_round <= MAX_ROUNDS,
                forall|id: int|
                    0 <= id < count ==> (#[trigger] self.players()[id]).seen().len() == old(
                        self,
                    ).players()[id].seen().len() + round,
        {
            let ghost before = *self;
            let result = self.play_round(round);
            proof {
                assert forall|id: int| 0 <= id < count implies (
                #[trigger] self.players()[id]).seen().len() == old(self).players()[id].seen().len()
                    + round + 1 by {
                    assert(self.players()[id].seen() == before.players()[id].seen().push(result));
                }
                let longer = tables.push(*self);
                let played = rounds.push(result);
                assert forall|earlier: int| 0 <= earlier < played.len() implies {
                    &&& (#[trigger] longer[earlier]).wf()
                    &&& longer[earlier].allows(earlier as usize, played[earlier])
                    &&& longer[earlier + 1].follows(longer[earlier], played[earlier])
                } by {
                    if earlier < rounds.len() {
                        assert(longer[earlier] == tables[earlier]);
                        assert(longer[earlier + 1] == tables[earlier + 1]);
                    }
                }
                tables = longer;
                rounds = played;
            }
        }

        let mut reports: Vec<RegretReport> = Vec::new();
        let ghost parts: Seq<Vec<RegretReport>> = Seq::empty();
        for player_id in 0..count
            invariant
                self.wf(),
                self.players().len() == count,
                parts.len() == player_id,
                forall|id: int|
                    0 <= id < player_id ==> self.players()[id].may_report(
                        &self.game_meta,
                        &#[trigger] parts[id],
                    ),
                reports@ == joined(parts),
        {
            assert(self.players()[player_id as int].fits(&self.meta()));
            let mut report = self.players[player_id].on_exit_game(&self.game_meta);
            proof {
                assert(parts.push(report).drop_last() =~= parts);
                parts = parts.push(report);
            }
            reports.append(&mut report);
        }
        proof {
            assert(self.reported(parts));
            lemma_run_is_seen(tables, rounds);
        }
        reports
    }
}

/// What a run leaves in the players: each has seen, after what it had seen
/// before, the rounds of the run, and the game is the same.
pub proof fn lemma_run_is_seen<P: BlottoPlayer>(tables: Seq<BlottoGame<P>>, rounds: History)
    requires
        BlottoGame::<P>::is_run(tables, rounds),
    ensures
        tables.last().meta() == tables.first().meta(),
        tables.last().players().len() == tables.first().players().len(),
        forall|id: int|
            0 <= id < tables.first().players().len() ==> (
            #[trigger] tables.last().players()[id]).seen() == tables.first().players()[id].seen()
                + rounds,
{
    lemma_run_is_seen_so_far(tables, rounds, rounds.len() as int);
    assert(rounds.take(rounds.len() as int) =~= rounds);
}

proof fn lemma_run_is_seen_so_far<P: BlottoPlayer>(
    tables: Seq<BlottoGame<P>>,
    rounds: History,
    played: int,
)
    requires
        BlottoGame::<P>::is_run(tables, rounds),
        0 <= played <= rounds.len(),
    ensures
        tables[played].meta() == tables[0].meta(),
        tables[played].players().len() == tables[0].players().len(),
        forall|id: int|
            0 <= id < tables[0].players().len() ==> (#[trigger] tables[played].players()[id]).seen()
                == tables[0].players()[id].seen() + rounds.take(played),
    decreases played,
{
    if played == 0 {
        assert forall|id: int| 0 <= id < tables[0].players().len() implies (
        #[trigger] tables[played].players()[id]).seen() == tables[0].players()[id].seen()
            + rounds.take(played) by {
            assert(tables[0].players()[id].seen() + rounds.take(0) =~= tables[0].players()[id].seen());
        }
    } else {
        let before = played - 1;
        lemma_run_is_seen_so_far(tables, rounds, before);
        assert(tables[before].wf());
        assert(tables[before + 1].follows(tables[before], rounds[before]));
        assert(rounds.take(played) =~= rounds.take(before).push(rounds[before]));
        assert forall|id: int| 0 <= id < tables[0].players().len() implies (
        #[trigger] tables[played].players()[id]).seen() == tables[0].players()[id].seen()
            + rounds.take(played) by {
            let start = tables[0].players()[id].seen();
            assert(tables[before].players()[id].seen() == start + rounds.take(before));
            assert((start + rounds.take(before)).push(rounds[before]) =~= start + rounds.take(
                before,
            ).push(rounds[before]));
        }
    }
}

/// The ids below `count` are `count` many.
proof fn lemma_ids_count(ids: Set<usize>, count: nat)
    requires
        count <= usize::MAX,
        forall|id: usize| ids.contains(id) <==> id < count,
    ensures
        ids.finite(),
        ids.len() == count,
    decreases count,
{
    if count == 0 {
        assert(ids =~= Set::empty());
    } else {
        let last = (count - 1) as usize;
        lemma_ids_count(ids.remove(last), (count - 1) as nat);
        assert(ids =~= ids.remove(last).insert(last));
    }
}

/// How much is decided and taken in over a run of rounds with a number of
/// players: each round holds one allocation for each player, and each
/// player sees each round once.
pub proof fn lemma_run_counts<P: BlottoPlayer>(tables: Seq<BlottoGame<P>>, rounds: History)
    requires
        BlottoGame::<P>::is_run(tables, rounds),
    ensures
        forall|round: int|
            0 <= round < rounds.len() ==> (#[trigger] rounds[round]).allocations@.len()
                == tables.first().players().len(),
        forall|id: int|
            0 <= id < tables.first().players().len() ==> (
            #[trigger] tables.last().players()[id]).seen().len() == tables.first().players()[id].seen().len()
                + rounds.len(),
{
    lemma_run_is_seen(tables, rounds);
    assert forall|round: int| 0 <= round < rounds.len() implies (
    #[trigger] rounds[round]).allocations@.len() == tables.first().players().len() by {
        lemma_run_is_seen_so_far(tables, rounds, round);
        assert(tables[round].allows(round as usize, rounds[round]));
        assert(tables[round].players().len() == tables[round].players.len());
        lemma_ids_count(rounds[round].allocations@.dom(), tables[round].players().len());
    }
}

/// Every one of the listed splits has as many entries as there are battles.
proof fn lemma_split_lengths(strategies: Seq<Allocation>, battles: nat, soldiers: nat)
    requires
        battles >= 1,
        soldiers <= usize::MAX,
        splits(strategies) == allocations(battles, soldiers),
    ensures
        forall|i: int|
            0 <= i < strategies.len() ==> (#[trigger] strategies[i])@.len() == battles,
{
    crate::enumeration::lemma_allocations_are_splits(battles, soldiers);
    assert forall|i: int| 0 <= i < strategies.len() implies (#[trigger] strategies[i])@.len()
        == battles by {
        assert(splits(strategies)[i] == strategies[i]@);
    }
}

} // verus!
