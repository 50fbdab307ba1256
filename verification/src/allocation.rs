//! One split of the soldiers over the battles, and the rule that decides a
//! round between two splits.

use vstd::prelude::*;

verus! {

/// How a round ended, seen from the side of the first of two allocations.
#[derive(Debug, PartialEq, Eq, Copy, Clone, Structural)]
pub enum BattleResult {
    Win,
    Lose,
    Draw,
}

impl BattleResult {
    /// The same round seen from the other side.
    pub open spec fn inverse(self) -> BattleResult {
        match self {
            BattleResult::Win => BattleResult::Lose,
            BattleResult::Lose => BattleResult::Win,
            BattleResult::Draw => BattleResult::Draw,
        }
    }
}

/// The soldiers a player sends to each battle, one entry per battle.
///
/// Nothing here checks that the entries add up to the pool of the game: a
/// caller builds only splits that do.
#[derive(Hash, PartialEq, Eq, Debug)]
pub struct Allocation {
    pub soldiers: Vec<usize>,
}

impl View for Allocation {
    type V = Seq<usize>;

    open spec fn view(&self) -> Seq<usize> {
        self.soldiers@
    }
}

impl Clone for Allocation {
    fn clone(&self) -> (copy: Allocation)
        ensures
            copy@ == self@,
    {
        Allocation { soldiers: self.soldiers.clone() }
    }
}

/// The soldiers that a split sends out in all.
pub open spec fn total(s: Seq<usize>) -> nat
    decreases s.len(),
{
    if s.len() == 0 {
        0
    } else {
        s[0] as nat + total(s.drop_first())
    }
}

/// Whether `s` splits exactly `soldiers` soldiers over `battles` battles.
pub open spec fn is_split(s: Seq<usize>, battles: nat, soldiers: nat) -> bool {
    s.len() == battles && total(s) == soldiers
}

/// The number of battles among the first `upto` in which `a` sends strictly
/// more soldiers than `b`.
pub open spec fn battles_won(a: Seq<usize>, b: Seq<usize>, upto: nat) -> nat
    decreases upto,
{
    if upto == 0 {
        0
    } else {
        let last = (upto - 1) as nat;
        battles_won(a, b, last) + if a[last as int] > b[last as int] {
            1nat
        } else {
            0nat
        }
    }
}

/// The round between `a` and `b`, from the side of `a`: whoever wins more
/// battles wins, whatever the soldiers add up to.
pub open spec fn outcome(a: Seq<usize>, b: Seq<usize>) -> BattleResult {
    let won = battles_won(a, b, a.len());
    let lost = battles_won(b, a, a.len());
    if won == lost {
        BattleResult::Draw
    } else if won > lost {
        BattleResult::Win
    } else {
        BattleResult::Lose
    }
}

/// Dictionary order on splits of one length: the first battle in which they
/// differ decides.
pub open spec fn lex_less(a: Seq<usize>, b: Seq<usize>) -> bool
    decreases a.len(),
{
    a.len() > 0 && b.len() > 0 && (a[0] < b[0] || (a[0] == b[0] && lex_less(
        a.drop_first(),
        b.drop_first(),
    )))
}

/// A split does not come before itself.
pub proof fn lemma_lex_less_irreflexive(a: Seq<usize>)
    ensures
        !lex_less(a, a),
    decreases a.len(),
{
    if a.len() > 0 {
        lemma_lex_less_irreflexive(a.drop_first());
    }
}

/// Dictionary order passes on: what comes before a split comes before all
/// that this split comes before.
pub proof fn lemma_lex_less_transitive(a: Seq<usize>, b: Seq<usize>, c: Seq<usize>)
    requires
        lex_less(a, b),
        lex_less(b, c),
    ensures
        lex_less(a, c),
    decreases a.len(),
{
    if a[0] == b[0] && b[0] == c[0] {
        lemma_lex_less_transitive(a.drop_first(), b.drop_first(), c.drop_first());
    }
}

/// Of two different splits of one length, one comes before the other.
pub proof fn lemma_lex_less_total(a: Seq<usize>, b: Seq<usize>)
    requires
        a.len() == b.len(),
        a != b,
    ensures
        lex_less(a, b) || lex_less(b, a),
    decreases a.len(),
{
    if a.len() == 0 {
        assert(a =~= b);
    } else if a[0] == b[0] {
        if a.drop_first() == b.drop_first() {
            assert(a =~= seq![a[0]] + a.drop_first());
            assert(b =~= seq![b[0]] + b.drop_first());
        }
        lemma_lex_less_total(a.drop_first(), b.drop_first());
    }
}

/// Where two splits agree on their first `agreed` battles, the battles after
/// these decide which comes first.
pub proof fn lemma_lex_less_skips(a: Seq<usize>, b: Seq<usize>, agreed: int)
    requires
        0 <= agreed <= a.len(),
        agreed <= b.len(),
        forall|k: int| 0 <= k < agreed ==> a[k] == b[k],
    ensures
        lex_less(a, b) == lex_less(a.skip(agreed), b.skip(agreed)),
    decreases agreed,
{
    if agreed == 0 {
        assert(a.skip(0) =~= a);
        assert(b.skip(0) =~= b);
    } else {
        lemma_lex_less_skips(a, b, agreed - 1);
        let x = a.skip(agreed - 1);
        let y = b.skip(agreed - 1);
        assert(x[0] == y[0]);
        assert(x.drop_first() =~= a.skip(agreed));
        assert(y.drop_first() =~= b.skip(agreed));
    }
}

/// An allocation draws against itself.
pub proof fn lemma_compare_self_is_draw(a: Seq<usize>)
    ensures
        outcome(a, a) == BattleResult::Draw,
{
}

/// Swapping the two sides of a round swaps win and loss and keeps a draw.
pub proof fn lemma_compare_swapped_is_inverse(a: Seq<usize>, b: Seq<usize>)
    requires
        a.len() == b.len(),
    ensures
        outcome(b, a) == outcome(a, b).inverse(),
{
}

impl Allocation {
    /// The allocation that sends `alloc[i]` soldiers to battle `i`.
    pub fn new(alloc: Vec<usize>) -> (allocation: Allocation)
        ensures
            allocation@ == alloc@,
    {
        Allocation { soldiers: alloc }
    }

    /// Whether the two allocations send the same soldiers to every battle.
    pub fn same_as(&self, another: &Allocation) -> (same: bool)
        ensures
            same == (self@ == another@),
    {
        if self.soldiers.len() != another.soldiers.len() {
            return false;
        }
        for i in 0..self.soldiers.len()
            invariant
                self@.len() == another@.len(),
                forall|k: int| 0 <= k < i ==> self@[k] == another@[k],
        {
            if self.soldiers[i] != another.soldiers[i] {
                return false;
            }
        }
        assert(self@ =~= another@);
        true
    }

    /// Whether this allocation comes before `another` in dictionary order.
    pub fn comes_before(&self, another: &Allocation) -> (before: bool)
        requires
            self@.len() == another@.len(),
        ensures
            before == lex_less(self@, another@),
    {
        for i in 0..self.soldiers.len()
            invariant
                self@.len() == another@.len(),
                forall|k: int| 0 <= k < i ==> self@[k] == another@[k],
        {
            if self.soldiers[i] != another.soldiers[i] {
                proof {
                    lemma_lex_less_skips(self@, another@, i as int);
                }
                return self.soldiers[i] < another.soldiers[i];
            }
        }
        proof {
            assert(self@ =~= another@);
            lemma_lex_less_irreflexive(self@);
        }
        false
    }

    /// Decides the round between this allocation and `another`.
    pub fn compare(&self, another: &Allocation) -> (result: BattleResult)
        requires
            self@.len() == another@.len(),
        ensures
            result == outcome(self@, another@),
    {
        let mut win: usize = 0;
        let mut lose: usize = 0;
        for i in 0..self.soldiers.len()
            invariant
                self@.len() == another@.len(),
                win == battles_won(self@, another@, i as nat),
                lose == battles_won(another@, self@, i as nat),
                win <= i,
                lose <= i,
        {
            if self.soldiers[i] > another.soldiers[i] {
                win += 1;
            } else if self.soldiers[i] < another.soldiers[i] {
                lose += 1;
            }
        }

        if win == lose {
            return BattleResult::Draw;
        }
        if win > lose {
            return BattleResult::Win;
        }
        BattleResult::Lose
    }
}

} // verus!
