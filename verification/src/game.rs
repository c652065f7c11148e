//! The per-session game state machine: turn alternation, move validation,
//! win and draw detection, and the opponent's random reply.

use vstd::prelude::*;
use vstd::set_lib::lemma_len_subset;

use crate::numbers::has_winning_triple;
use crate::numbers::wins;
use crate::numbers::Numbers;
use crate::parse::parse_move;
use crate::parse::parsed;

verus! {

/// The fixed pool of game numbers: 1 through 9.
pub open spec fn universe() -> Set<u64> {
    set![1u64, 2, 3, 4, 5, 6, 7, 8, 9]
}

/// The pool of game numbers holds exactly nine numbers.
pub proof fn lemma_universe_len()
    ensures
        universe().finite(),
        universe().len() == 9,
{
    let s0 = Set::<u64>::empty();
    let s1 = s0.insert(1);
    let s2 = s1.insert(2);
    let s3 = s2.insert(3);
    let s4 = s3.insert(4);
    let s5 = s4.insert(5);
    let s6 = s5.insert(6);
    let s7 = s6.insert(7);
    let s8 = s7.insert(8);
    let s9 = s8.insert(9);
    assert(s1.len() == 1) by {
        assert(!s0.contains(1u64));
    };
    assert(s2.len() == 2) by {
        assert(!s1.contains(2u64));
    };
    assert(s3.len() == 3) by {
        assert(!s2.contains(3u64));
    };
    assert(s4.len() == 4) by {
        assert(!s3.contains(4u64));
    };
    assert(s5.len() == 5) by {
        assert(!s4.contains(5u64));
    };
    assert(s6.len() == 6) by {
        assert(!s5.contains(6u64));
    };
    assert(s7.len() == 7) by {
        assert(!s6.contains(7u64));
    };
    assert(s8.len() == 8) by {
        assert(!s7.contains(8u64));
    };
    assert(s9.len() == 9) by {
        assert(!s8.contains(9u64));
    };
    assert(universe() =~= s9);
}

/// Where a game stands.
#[derive(Clone, Copy, PartialEq, Eq, Structural, Debug)]
pub enum Status {
    InProgress,
    HumanWon,
    OpponentWon,
    Drawn,
}

/// How one side's single move was answered.
pub enum MoveOutcome {
    /// The number is not available: the move is rejected, nothing changes.
    Unavailable,
    /// The mover now holds three numbers summing to 15.
    Win(Numbers),
    /// No win, and no number is left to claim.
    Drawn,
    /// The game goes on.
    Continue,
}

/// What one full turn of the session answered.
pub enum StepOutcome {
    /// The line does not name a number: the client is asked again.
    BadChoice,
    /// The number is not available: the client is asked again.
    Unavailable,
    /// The human now holds a triple summing to 15.
    HumanWin { triple: Vec<u64> },
    /// The human's move left nothing to claim, and no one won.
    Draw,
    /// The opponent claimed `choice` and now holds a winning triple.
    OpponentWin { choice: u64, triple: Vec<u64> },
    /// The opponent claimed `choice`, leaving nothing, and no one won.
    OpponentDraw { choice: u64 },
    /// The opponent claimed `choice`; the game goes on.
    Continue { choice: u64 },
}

/// One game: three pools that partition the numbers 1 through 9, and where
/// the game stands.
pub struct Game {
    available: Numbers,
    you: Numbers,
    me: Numbers,
    status: Status,
}

/// Nothing about the game changed.
pub open spec fn same_state(a: &Game, b: &Game) -> bool {
    &&& b.avail() == a.avail()
    &&& b.human() == a.human()
    &&& b.opponent() == a.opponent()
    &&& b.avail_ordered() == a.avail_ordered()
    &&& b.human_ordered() == a.human_ordered()
    &&& b.opponent_ordered() == a.opponent_ordered()
    &&& b.status() == a.status()
}

/// The accepted move `n` went from the available pool to the mover's pool
/// (`human` says whose), the other claimed pool untouched.
pub open spec fn claims(a: &Game, b: &Game, n: u64, human: bool) -> bool {
    &&& b.avail() == a.avail().remove(n)
    &&& b.avail().len() == a.avail().len() - 1
    &&& (if human {
        &&& b.human() == a.human().insert(n)
        &&& b.human().len() == a.human().len() + 1
        &&& b.opponent() == a.opponent()
        &&& b.opponent_ordered() == a.opponent_ordered()
    } else {
        &&& b.opponent() == a.opponent().insert(n)
        &&& b.opponent().len() == a.opponent().len() + 1
        &&& b.human() == a.human()
        &&& b.human_ordered() == a.human_ordered()
    })
}

/// How an accepted move's outcome reflects the state it produced: a win
/// exactly when the mover now holds a winning triple; otherwise a draw
/// exactly when nothing is left to claim; and the status records it.
pub open spec fn outcome_reflects(b: &Game, r: MoveOutcome, human: bool) -> bool {
    let mover = if human {
        b.human()
    } else {
        b.opponent()
    };
    &&& !(r is Unavailable)
    &&& (r is Win <==> has_winning_triple(mover))
    &&& (r matches MoveOutcome::Win(t) ==> t.wf() && t@.subset_of(mover) && wins(t))
    &&& (r is Drawn <==> !has_winning_triple(mover) && b.avail().len() == 0)
    &&& (r is Continue <==> !has_winning_triple(mover) && b.avail().len() > 0)
    &&& (r is Win ==> b.status() == (if human {
        Status::HumanWon
    } else {
        Status::OpponentWon
    }))
    &&& (r is Drawn ==> b.status() is Drawn)
    &&& (r is Continue ==> b.status() is InProgress)
}

/// After the human took `n`, the opponent took `choice` from what was left.
pub open spec fn opponent_followed(a: &Game, b: &Game, n: u64, choice: u64) -> bool {
    &&& a.avail().remove(n).contains(choice)
    &&& b.avail() == a.avail().remove(n).remove(choice)
    &&& b.human() == a.human().insert(n)
    &&& b.opponent() == a.opponent().insert(choice)
}

/// Everything one call of `step` ensures, as a relation between the state
/// before the turn, the client's line, the state after, and the answer: a
/// retry (bad or unavailable choice) exactly when owed, leaving the state
/// untouched; otherwise the human's claim, and then either the game's end
/// or the opponent's claim, with every emitted triple ascending and
/// summing to 15.
pub open spec fn step_rel(pre: Game, line: Seq<u8>, post: Game, r: StepOutcome) -> bool {
    &&& post.wf()
    &&& (r is BadChoice <==> parsed(line) is None)
    &&& (r is BadChoice ==> same_state(&pre, &post))
    &&& (r is Unavailable <==> (parsed(line) matches Some(n) && !pre.avail().contains(n)))
    &&& (r is Unavailable ==> same_state(&pre, &post))
    &&& (parsed(line) matches Some(n) ==> pre.avail().contains(n) ==> {
        let you2 = pre.human().insert(n);
        &&& post.human().len() == pre.human().len() + 1
        &&& (r is HumanWin || r is Draw ==> post.avail().len() == pre.avail().len() - 1)
        &&& (!(r is HumanWin) && !(r is Draw) ==> post.avail().len() == pre.avail().len() - 2
            && post.opponent().len() == pre.opponent().len() + 1)
        &&& (r is HumanWin <==> has_winning_triple(you2))
        &&& (r matches StepOutcome::HumanWin { triple } ==> {
            &&& post.status() == Status::HumanWon
            &&& post.human() == you2
            &&& post.avail() == pre.avail().remove(n)
            &&& post.opponent() == pre.opponent()
            &&& triple@.len() == 3
            &&& triple@[0] < triple@[1] < triple@[2]
            &&& triple@[0] + triple@[1] + triple@[2] == 15
            &&& you2.contains(triple@[0])
            &&& you2.contains(triple@[1])
            &&& you2.contains(triple@[2])
        })
        &&& (r is Draw <==> !has_winning_triple(you2) && pre.avail().remove(n).len() == 0)
        &&& (r is Draw ==> {
            &&& post.status() is Drawn
            &&& post.human() == you2
            &&& post.avail() == pre.avail().remove(n)
            &&& post.opponent() == pre.opponent()
        })
        &&& (r matches StepOutcome::OpponentWin { choice, triple } ==> {
            &&& opponent_followed(&pre, &post, n, choice)
            &&& post.status() == Status::OpponentWon
            &&& has_winning_triple(post.opponent())
            &&& triple@.len() == 3
            &&& triple@[0] < triple@[1] < triple@[2]
            &&& triple@[0] + triple@[1] + triple@[2] == 15
            &&& post.opponent().contains(triple@[0])
            &&& post.opponent().contains(triple@[1])
            &&& post.opponent().contains(triple@[2])
        })
        &&& (r matches StepOutcome::OpponentDraw { choice } ==> {
            &&& opponent_followed(&pre, &post, n, choice)
            &&& post.status() is Drawn
            &&& post.avail().len() == 0
            &&& !has_winning_triple(post.opponent())
        })
        &&& (r matches StepOutcome::Continue { choice } ==> {
            &&& opponent_followed(&pre, &post, n, choice)
            &&& post.status() is InProgress
            &&& !has_winning_triple(post.human())
            &&& !has_winning_triple(post.opponent())
            &&& post.avail().len() > 0
        })
    })
}

/// A whole session, turn by turn: `gs` is the chain of states the game
/// went through, starting from a fresh game; each answered line relates
/// its state to the next exactly as `step` promises; and every state but
/// the last is still in progress, as `step` demands.
pub open spec fn session_trace(
    gs: Seq<Game>,
    lines: Seq<Vec<u8>>,
    outs: Seq<StepOutcome>,
    last: Game,
) -> bool {
    &&& gs.len() == outs.len() + 1
    &&& outs.len() <= lines.len()
    &&& gs[0].avail() == universe()
    &&& gs[0].human() == Set::<u64>::empty()
    &&& gs[0].opponent() == Set::<u64>::empty()
    &&& gs[0].status() is InProgress
    &&& gs.last() == last
    &&& forall|j: int| 0 <= j < outs.len() ==> #[trigger] step_rel(gs[j], lines[j]@, gs[j + 1], outs[j])
    &&& forall|j: int| 0 <= j < gs.len() - 1 ==> (#[trigger] gs[j]).status() is InProgress
}

/// How many of a session's answers were accepted moves rather than
/// retries.
pub open spec fn accepted_count(outs: Seq<StepOutcome>) -> nat
    decreases outs.len(),
{
    if outs.len() == 0 {
        0
    } else if outs.last() is BadChoice || outs.last() is Unavailable {
        accepted_count(outs.drop_last())
    } else {
        accepted_count(outs.drop_last()) + 1
    }
}

/// A session's trace shortened by its last answered line is itself a
/// session trace.
proof fn lemma_trace_prefix(gs: Seq<Game>, lines: Seq<Vec<u8>>, outs: Seq<StepOutcome>, last: Game)
    requires
        session_trace(gs, lines, outs, last),
        outs.len() >= 1,
    ensures
        session_trace(gs.drop_last(), lines, outs.drop_last(), gs[gs.len() - 2]),
{
    let prefix = gs.drop_last();
    assert(prefix.last() == gs[gs.len() - 2]);
    assert forall|j: int|
        0 <= j < outs.drop_last().len() implies #[trigger] step_rel(
        prefix[j],
        lines[j]@,
        prefix[j + 1],
        outs.drop_last()[j],
    ) by {
        assert(prefix[j] == gs[j]);
        assert(prefix[j + 1] == gs[j + 1]);
        assert(outs.drop_last()[j] == outs[j]);
        assert(step_rel(gs[j], lines[j]@, gs[j + 1], outs[j]));
    };
    assert forall|j: int|
        0 <= j < prefix.len() - 1 implies (#[trigger] prefix[j]).status() is InProgress by {
        assert(prefix[j] == gs[j]);
    };
}

/// While a session is still in progress every accepted turn has cost two
/// numbers of the pool — the human's claim and the opponent's reply — so
/// the pool size plus twice the accepted turns never exceeds nine.
proof fn lemma_trace_measure(gs: Seq<Game>, lines: Seq<Vec<u8>>, outs: Seq<StepOutcome>, last: Game)
    requires
        session_trace(gs, lines, outs, last),
        last.status() is InProgress,
    ensures
        last.avail().len() + 2 * accepted_count(outs) <= 9,
    decreases outs.len(),
{
    lemma_universe_len();
    if outs.len() == 0 {
        assert(last == gs[0]);
    } else {
        let k = outs.len() as int;
        let pre = gs[gs.len() - 2];
        let out = outs.last();
        lemma_trace_prefix(gs, lines, outs, last);
        assert(pre.status() is InProgress);
        lemma_trace_measure(gs.drop_last(), lines, outs.drop_last(), pre);
        let j = k - 1;
        assert(step_rel(gs[j], lines[j]@, gs[j + 1], outs[j]));
        assert(gs[j] == pre);
        assert(gs[j + 1] == last);
        if out is BadChoice || out is Unavailable {
            assert(last.avail() == pre.avail());
        } else {
            // the line parsed to an available number
            let n = choose|n: u64| parsed(lines[j]@) == Some(n);
            assert(parsed(lines[j]@) == Some(n));
            assert(pre.avail().contains(n));
            // the game stayed in progress, so the turn was a full exchange
            assert(!(out is HumanWin) && !(out is Draw));
            assert(last.avail().len() == pre.avail().len() - 2);
        }
    }
}

/// A session makes at most five accepted moves: the human claims five of
/// the nine numbers at most, since the opponent answers every claim that
/// does not already end the game.
pub proof fn lemma_session_accepted_bound(
    gs: Seq<Game>,
    lines: Seq<Vec<u8>>,
    outs: Seq<StepOutcome>,
    last: Game,
)
    requires
        session_trace(gs, lines, outs, last),
    ensures
        accepted_count(outs) <= 5,
{
    if last.status() is InProgress {
        lemma_trace_measure(gs, lines, outs, last);
    } else {
        assert(outs.len() >= 1) by {
            if outs.len() == 0 {
                assert(last == gs[0]);
            }
        };
        let pre = gs[gs.len() - 2];
        lemma_trace_prefix(gs, lines, outs, last);
        assert(pre.status() is InProgress);
        lemma_trace_measure(gs.drop_last(), lines, outs.drop_last(), pre);
        assert(accepted_count(outs) <= accepted_count(outs.drop_last()) + 1);
    }
}

/// Two states are linked by an accepted move: one side or the other
/// claimed some number, as `human_move` and `opponent_move` ensure.
pub open spec fn linked_by_move(a: Game, b: Game) -> bool {
    exists|n: u64, human: bool| claims(&a, &b, n, human)
}

/// Termination of play: in a chain of well-formed states linked by
/// accepted moves — each state claiming some number for one side or the
/// other, as `human_move` and `opponent_move` ensure — the moves never
/// outnumber the first state's available pool; and a chain that spends the
/// whole pool ends in a terminal status, because a well-formed game with
/// nothing left to claim is never in progress.  With
/// `lemma_termination_measure`, which says an in-progress game always
/// offers a valid move, repeated valid moves therefore always reach a
/// terminal state.
pub proof fn lemma_play_terminates(states: Seq<Game>)
    requires
        states.len() > 0,
        forall|i: int| 0 <= i < states.len() ==> (#[trigger] states[i]).wf(),
        forall|i: int|
            0 <= i < states.len() - 1 ==> #[trigger] linked_by_move(states[i], states[i + 1]),
    ensures
        states.len() <= states[0].avail().len() + 1,
        states.len() == states[0].avail().len() + 1 ==> !(states.last().status() is InProgress),
    decreases states.len(),
{
    if states.len() == 1 {
        assert(states[0].wf());
    } else {
        let tail = states.drop_first();
        assert forall|i: int| 0 <= i < tail.len() implies (#[trigger] tail[i]).wf() by {
            assert(tail[i] == states[i + 1]);
        };
        assert forall|i: int| 0 <= i < tail.len() - 1 implies #[trigger] linked_by_move(
            tail[i],
            tail[i + 1],
        ) by {
            assert(tail[i] == states[i + 1]);
            assert(tail[i + 1] == states[i + 2]);
            assert(linked_by_move(states[i + 1], states[i + 2]));
        };
        lemma_play_terminates(tail);
        assert(linked_by_move(states[0], states[1]));
        let (n, human) = choose|n: u64, human: bool| claims(&states[0], &states[1], n, human);
        assert(tail[0] == states[1]);
        assert(states[1].avail().len() == states[0].avail().len() - 1);
        assert(tail.last() == states.last());
    }
}

impl Game {
    /// The numbers no one has claimed yet.
    pub closed spec fn avail(&self) -> Set<u64> {
        self.available@
    }

    /// The numbers the human has claimed.
    pub closed spec fn human(&self) -> Set<u64> {
        self.you@
    }

    /// The numbers the opponent has claimed.
    pub closed spec fn opponent(&self) -> Set<u64> {
        self.me@
    }

    /// Where the game stands.
    pub closed spec fn status(&self) -> Status {
        self.status
    }

    /// The available pool in ascending order, as shown to the client.
    pub closed spec fn avail_ordered(&self) -> Seq<u64> {
        self.available.ordered()
    }

    /// The human's pool in ascending order, as shown to the client.
    pub closed spec fn human_ordered(&self) -> Seq<u64> {
        self.you.ordered()
    }

    /// The opponent's pool in ascending order, as shown to the client.
    pub closed spec fn opponent_ordered(&self) -> Seq<u64> {
        self.me.ordered()
    }

    /// The three pools are pairwise disjoint and together hold exactly the
    /// numbers 1 through 9.
    pub open spec fn partitioned(&self) -> bool {
        &&& self.avail().disjoint(self.human())
        &&& self.avail().disjoint(self.opponent())
        &&& self.human().disjoint(self.opponent())
        &&& self.avail().union(self.human()).union(self.opponent()) == universe()
    }

    /// Every reachable game state keeps this: the pools are well formed and
    /// partition the numbers 1 through 9, and a game still in progress has
    /// a number left to claim.
    pub closed spec fn wf(&self) -> bool {
        &&& self.available.wf()
        &&& self.you.wf()
        &&& self.me.wf()
        &&& self.partitioned()
        &&& (self.status is InProgress ==> self.avail().len() > 0)
    }

    /// The partition invariant, published: any well-formed game state keeps
    /// the three pools pairwise disjoint with union {1..9}, and offers a
    /// move whenever the game is still in progress.
    pub proof fn lemma_partition(&self)
        requires
            self.wf(),
        ensures
            self.partitioned(),
            self.status() is InProgress ==> self.avail().len() > 0,
    {
    }

    /// The termination measure, published: an in-progress game always
    /// offers a valid move, and its available pool holds at most nine
    /// numbers.  Together with the contracts of `human_move` and
    /// `opponent_move` — every accepted move shrinks the pool by exactly
    /// one, and a game whose pool is empty is never in progress — repeated
    /// valid moves reach a terminal status after at most as many accepted
    /// moves as numbers remain.
    pub proof fn lemma_termination_measure(&self)
        requires
            self.wf(),
            self.status() is InProgress,
        ensures
            0 < self.avail().len() <= 9,
            exists|n: u64| self.avail().contains(n),
    {
        lemma_universe_len();
        assert(self.avail().subset_of(universe())) by {
            assert forall|x: u64| #[trigger] self.avail().contains(x) implies universe().contains(
                x,
            ) by {
                assert(self.avail().union(self.human()).union(self.opponent()).contains(x));
            };
        };
        lemma_len_subset(self.avail(), universe());
        if !(exists|n: u64| self.avail().contains(n)) {
            assert(self.avail() =~= Set::<u64>::empty());
        }
    }

    /// A fresh game: every number available, neither side holding any.
    #[verifier::loop_isolation(false)]
    pub fn new() -> (g: Game)
        ensures
            g.wf(),
            g.avail() == universe(),
            g.human() == Set::<u64>::empty(),
            g.opponent() == Set::<u64>::empty(),
            g.status() is InProgress,
    {
        let mut unused = Numbers::new();
        let mut i: u64 = 1;
        while i <= 9
            invariant
                1 <= i <= 10,
                unused.wf(),
                forall|x: u64| #[trigger] unused@.contains(x) <==> 1 <= x < i,
            decreases 10 - i,
        {
            unused.insert(i);
            i += 1;
        }
        let g = Game {
            available: unused,
            you: Numbers::new(),
            me: Numbers::new(),
            status: Status::InProgress,
        };
        proof {
            assert(g.avail() =~= universe());
            assert(g.avail().union(g.human()).union(g.opponent()) =~= universe());
            lemma_universe_len();
        }
        g
    }

    /// The human claims `n`.  An unavailable number is rejected with
    /// nothing changed; an accepted move takes `n` from the available pool
    /// into the human's, then ends the game on a win or a draw, or leaves
    /// it in progress.
    pub fn human_move(&mut self, n: u64) -> (r: MoveOutcome)
        requires
            old(self).wf(),
            old(self).status() is InProgress,
        ensures
            final(self).wf(),
            !old(self).avail().contains(n) ==> r is Unavailable && same_state(
                old(self),
                final(self),
            ),
            old(self).avail().contains(n) ==> claims(old(self), final(self), n, true)
                && outcome_reflects(final(self), r, true),
    {
        proof {
            self.available.lemma_wf_facts();
        }
        if !self.available.remove(n) {
            proof {
                assert(old(self).avail().remove(n) =~= old(self).avail());
            }
            return MoveOutcome::Unavailable;
        }
        proof {
            assert(!old(self).you@.contains(n));
            old(self).you.lemma_wf_facts();
        }
        self.you.insert(n);
        proof {
            self.restore_partition_after(*old(self), n, true);
        }
        match self.you.won() {
            Option::Some(t) => {
                self.status = Status::HumanWon;
                MoveOutcome::Win(t)
            },
            Option::None => {
                if self.available.is_empty() {
                    self.status = Status::Drawn;
                    MoveOutcome::Drawn
                } else {
                    MoveOutcome::Continue
                }
            },
        }
    }

    /// The opponent claims `n`.  The same validation, accounting, and win
    /// and draw detection as for the human, on the opponent's pool.
    pub fn opponent_move(&mut self, n: u64) -> (r: MoveOutcome)
        requires
            old(self).wf(),
            old(self).status() is InProgress,
        ensures
            final(self).wf(),
            !old(self).avail().contains(n) ==> r is Unavailable && same_state(
                old(self),
                final(self),
            ),
            old(self).avail().contains(n) ==> claims(old(self), final(self), n, false)
                && outcome_reflects(final(self), r, false),
    {
        proof {
            self.available.lemma_wf_facts();
        }
        if !self.available.remove(n) {
            proof {
                assert(old(self).avail().remove(n) =~= old(self).avail());
            }
            return MoveOutcome::Unavailable;
        }
        proof {
            assert(!old(self).me@.contains(n));
            old(self).me.lemma_wf_facts();
        }
        self.me.insert(n);
        proof {
            self.restore_partition_after(*old(self), n, false);
        }
        match self.me.won() {
            Option::Some(t) => {
                self.status = Status::OpponentWon;
                MoveOutcome::Win(t)
            },
            Option::None => {
                if self.available.is_empty() {
                    self.status = Status::Drawn;
                    MoveOutcome::Drawn
                } else {
                    MoveOutcome::Continue
                }
            },
        }
    }

    /// Moving one available number into a claimed pool keeps the pools
    /// pairwise disjoint with union {1..9}.
    proof fn restore_partition_after(&self, prev: Game, n: u64, human: bool)
        requires
            prev.wf(),
            prev.avail().contains(n),
            self.avail() == prev.avail().remove(n),
            human ==> self.human() == prev.human().insert(n) && self.opponent() == prev.opponent(),
            !human ==> self.opponent() == prev.opponent().insert(n) && self.human()
                == prev.human(),
        ensures
            self.partitioned(),
            self.avail().len() == prev.avail().len() - 1,
            human ==> self.human().len() == prev.human().len() + 1,
            !human ==> self.opponent().len() == prev.opponent().len() + 1,
    {
        lemma_universe_len();
        assert(self.avail().union(self.human()).union(self.opponent()) =~= prev.avail().union(
            prev.human(),
        ).union(prev.opponent()));
        assert(self.avail().disjoint(self.human()));
        assert(self.avail().disjoint(self.opponent()));
        assert(self.human().disjoint(self.opponent()));
        assert(prev.avail().finite() && prev.human().finite() && prev.opponent().finite()) by {
            lemma_len_subset(
                prev.avail(),
                prev.avail().union(prev.human()).union(prev.opponent()),
            );
            lemma_len_subset(
                prev.human(),
                prev.avail().union(prev.human()).union(prev.opponent()),
            );
            lemma_len_subset(
                prev.opponent(),
                prev.avail().union(prev.human()).union(prev.opponent()),
            );
        };
        if human {
            assert(!prev.human().contains(n));
        } else {
            assert(!prev.opponent().contains(n));
        }
    }

    /// One full turn from one client line: parse it, make the human's move,
    /// and — when the game goes on — answer with the opponent's random
    /// reply.
    pub fn step(&mut self, line: &[u8]) -> (r: StepOutcome)
        requires
            old(self).wf(),
            old(self).status() is InProgress,
        ensures
            final(self).wf(),
            step_rel(*old(self), line@, *final(self), r),
    {
        let n = match parse_move(line) {
            Option::None => {
                return StepOutcome::BadChoice;
            },
            Option::Some(n) => n,
        };
        match self.human_move(n) {
            MoveOutcome::Unavailable => StepOutcome::Unavailable,
            MoveOutcome::Win(t) => {
                proof {
                    t.lemma_wf_facts();
                    assert(t.ordered().contains(t.ordered()[0]));
                    assert(t.ordered().contains(t.ordered()[1]));
                    assert(t.ordered().contains(t.ordered()[2]));
                    assert(t.ordered()[0] < t.ordered()[1] < t.ordered()[2]);
                }
                StepOutcome::HumanWin { triple: t.elements() }
            },
            MoveOutcome::Drawn => StepOutcome::Draw,
            MoveOutcome::Continue => {
                let choice = self.available.random_choice();
                match self.opponent_move(choice) {
                    MoveOutcome::Win(t) => {
                        proof {
                            t.lemma_wf_facts();
                            assert(t.ordered().contains(t.ordered()[0]));
                            assert(t.ordered().contains(t.ordered()[1]));
                            assert(t.ordered().contains(t.ordered()[2]));
                            assert(t.ordered()[0] < t.ordered()[1] < t.ordered()[2]);
                        }
                        StepOutcome::OpponentWin { choice, triple: t.elements() }
                    },
                    MoveOutcome::Drawn => StepOutcome::OpponentDraw { choice },
                    MoveOutcome::Continue => StepOutcome::Continue { choice },
                    MoveOutcome::Unavailable => {
                        proof {
                            assert(false);
                        }
                        StepOutcome::BadChoice
                    },
                }
            },
        }
    }

    /// The opponent's claimed numbers, ascending.
    pub fn opponent_numbers(&self) -> (r: Vec<u64>)
        ensures
            r@ == self.opponent_ordered(),
    {
        self.me.elements()
    }

    /// The human's claimed numbers, ascending.
    pub fn human_numbers(&self) -> (r: Vec<u64>)
        ensures
            r@ == self.human_ordered(),
    {
        self.you.elements()
    }

    /// The unclaimed numbers, ascending.
    pub fn available_numbers(&self) -> (r: Vec<u64>)
        ensures
            r@ == self.avail_ordered(),
    {
        self.available.elements()
    }

    /// Whether the game is still in progress.
    pub fn in_progress(&self) -> (r: bool)
        ensures
            r <==> self.status() is InProgress,
    {
        match self.status {
            Status::InProgress => true,
            _ => false,
        }
    }

    /// Where the game stands.
    pub fn current_status(&self) -> (r: Status)
        ensures
            r == self.status(),
    {
        self.status
    }
}

/// Runs one session against a fixed list of client lines: each line is one
/// turn, and play stops as soon as the game reaches a terminal status or
/// the lines run out.  What each turn answered is returned beside the
/// final state, and a `session_trace` witnesses that the whole run went,
/// state by state, exactly as `step` promises from a fresh game.  At most
/// five of the answers are accepted moves: the pool holds nine numbers and
/// the opponent answers every claim that does not already end the game.
#[verifier::loop_isolation(false)]
pub fn game_loop(lines: &Vec<Vec<u8>>) -> (r: (Game, Vec<StepOutcome>))
    ensures
        r.0.wf(),
        r.1@.len() <= lines@.len(),
        r.1@.len() < lines@.len() ==> !(r.0.status() is InProgress),
        exists|gs: Seq<Game>| session_trace(gs, lines@, r.1@, r.0),
        accepted_count(r.1@) <= 5,
{
    let mut g = Game::new();
    let ghost g0 = g;
    let ghost mut gs: Seq<Game> = seq![g];
    let mut outs: Vec<StepOutcome> = Vec::new();
    let mut i: usize = 0;
    while i < lines.len()
        invariant
            i <= lines@.len(),
            outs@.len() == i,
            g.wf(),
            g.status() is InProgress,
            gs.len() == i + 1,
            gs[0] == g0,
            gs.last() == g,
            forall|j: int|
                0 <= j < i ==> #[trigger] step_rel(gs[j], lines@[j]@, gs[j + 1], outs@[j]),
            forall|j: int| 0 <= j < gs.len() - 1 ==> (#[trigger] gs[j]).status() is InProgress,
        decreases lines@.len() - i,
    {
        let ghost pre = g;
        let out = g.step(lines[i].as_slice());
        outs.push(out);
        proof {
            gs = gs.push(g);
        }
        i += 1;
        if !g.in_progress() {
            proof {
                assert(session_trace(gs, lines@, outs@, g));
                lemma_session_accepted_bound(gs, lines@, outs@, g);
            }
            return (g, outs);
        }
    }
    proof {
        assert(session_trace(gs, lines@, outs@, g));
        lemma_session_accepted_bound(gs, lines@, outs@, g);
    }
    (g, outs)
}


} // verus!
