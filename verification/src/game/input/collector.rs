//! `InputCollector`: gathers a tick's inputs, coalescing moves.
//!
//! In a MOBA inputs are sparse events. If a player clicks to move five times
//! in one tick only the last click matters; abilities never coalesce.
use vstd::prelude::*;

use crate::game::input::events::{InputEvent, player_of};

verus! {

/// Moves, attack-moves and stops replace one another.
pub open spec fn is_move(e: InputEvent) -> bool {
    e is MoveGround || e is AttackMove || e is Stop
}

/// The buffer after pushing `e`: a move first drops the earlier moves of the
/// same player; any other input is simply appended.
pub open spec fn coalesce(s: Seq<InputEvent>, e: InputEvent) -> Seq<InputEvent> {
    if is_move(e) {
        s.filter(|x: InputEvent| !is_move(x) || player_of(x) != player_of(e)).push(e)
    } else {
        s.push(e)
    }
}

fn is_move_event(event: &InputEvent) -> (r: bool)
    ensures
        r == is_move(*event),
{
    match event {
        InputEvent::MoveGround { .. } => true,
        InputEvent::AttackMove { .. } => true,
        InputEvent::Stop { .. } => true,
        _ => false,
    }
}

/// One tick's inputs, with coalescing.
pub struct InputCollector {
    events: Vec<InputEvent>,
}

impl InputCollector {
    pub closed spec fn view(&self) -> Seq<InputEvent> {
        self.events@
    }

    pub fn new() -> (r: InputCollector)
        ensures
            r@ == Seq::<InputEvent>::empty(),
    {
        InputCollector { events: Vec::with_capacity(8) }
    }

    /// Adds an input; a move replaces the pending move of the same player.
    pub fn push(&mut self, event: InputEvent)
        ensures
            final(self)@ == coalesce(old(self)@, event),
    {
        if is_move_event(&event) {
            let pid = event.player_id();
            let ghost pred = |x: InputEvent| !is_move(x) || player_of(x) != player_of(event);
            let ghost old_events = self.events@;
            let mut kept: Vec<InputEvent> = Vec::new();
            let mut i: usize = 0;
            while i < self.events.len()
                invariant
                    self.events@ == old_events,
                    i <= old_events.len(),
                    pid == player_of(event),
                    pred == (|x: InputEvent| !is_move(x) || player_of(x) != player_of(event)),
                    kept@ == old_events.subrange(0, i as int).filter(pred),
                decreases old_events.len() - i,
            {
                let e = self.events[i];
                proof {
                    reveal(Seq::filter);
                    assert(old_events.subrange(0, i + 1).drop_last() =~= old_events.subrange(
                        0,
                        i as int,
                    ));
                }
                if !is_move_event(&e) || e.player_id() != pid {
                    kept.push(e);
                }
                i = i + 1;
            }
            proof {
                assert(old_events.subrange(0, old_events.len() as int) =~= old_events);
            }
            kept.push(event);
            self.events = kept;
        } else {
            self.events.push(event);
        }
    }

    /// Takes every input of the tick and empties the buffer.
    pub fn drain(&mut self) -> (r: Vec<InputEvent>)
        ensures
            r@ == old(self)@,
            final(self)@ == Seq::<InputEvent>::empty(),
    {
        let mut out: Vec<InputEvent> = Vec::new();
        std::mem::swap(&mut out, &mut self.events);
        out
    }

    /// No input this tick: no network packet needs to be sent.
    pub fn is_empty(&self) -> (r: bool)
        ensures
            r == (self@.len() == 0),
    {
        self.events.len() == 0
    }

    pub fn len(&self) -> (r: usize)
        ensures
            r == self@.len(),
    {
        self.events.len()
    }
}

/// At most one pending move per player.
pub open spec fn one_move_each(s: Seq<InputEvent>) -> bool {
    forall|i: int, j: int|
        #![trigger s[i], s[j]]
        0 <= i < j < s.len() && is_move(s[i]) && is_move(s[j]) ==> player_of(s[i]) != player_of(
            s[j],
        )
}

proof fn lemma_filter_from(s: Seq<InputEvent>, pred: spec_fn(InputEvent) -> bool, k: int)
    requires
        0 <= k < s.filter(pred).len(),
    ensures
        exists|j: int| 0 <= j < s.len() && s[j] == s.filter(pred)[k],
    decreases s.len(),
{
    reveal(Seq::filter);
    let t = s.drop_last();
    if k < t.filter(pred).len() {
        lemma_filter_from(t, pred, k);
        let j = choose|j: int| 0 <= j < t.len() && t[j] == t.filter(pred)[k];
        assert(s[j] == s.filter(pred)[k]);
    } else {
        assert(s[s.len() - 1] == s.filter(pred)[k]);
    }
}

proof fn lemma_filter_keeps_one_move_each(s: Seq<InputEvent>, pred: spec_fn(InputEvent) -> bool)
    requires
        one_move_each(s),
    ensures
        one_move_each(s.filter(pred)),
    decreases s.len(),
{
    reveal(Seq::filter);
    if s.len() > 0 {
        let t = s.drop_last();
        assert(one_move_each(t)) by {
            assert forall|i: int, j: int|
                0 <= i < j < t.len() && is_move(t[i]) && is_move(t[j]) implies player_of(t[i])
                != player_of(t[j]) by {
                assert(t[i] == s[i] && t[j] == s[j]);
            }
        }
        lemma_filter_keeps_one_move_each(t, pred);
        if pred(s.last()) {
            let f = s.filter(pred);
            let g = t.filter(pred);
            assert(f == g.push(s.last()));
            assert forall|i: int, j: int|
                0 <= i < j < f.len() && is_move(f[i]) && is_move(f[j]) implies player_of(f[i])
                != player_of(f[j]) by {
                if j < g.len() {
                    assert(f[i] == g[i] && f[j] == g[j]);
                } else {
                    lemma_filter_from(t, pred, i);
                    let a = choose|a: int| 0 <= a < t.len() && t[a] == g[i];
                    assert(s[a] == f[i]);
                    assert(s[s.len() - 1] == f[j]);
                }
            }
        }
    }
}

/// Pushing an input keeps at most one pending move per player, and a move
/// pushed is the one its player keeps: only the last click of a tick counts.
pub proof fn law_one_move_per_player(s: Seq<InputEvent>, e: InputEvent)
    requires
        one_move_each(s),
    ensures
        one_move_each(coalesce(s, e)),
        coalesce(s, e).last() == e,
{
    let c = coalesce(s, e);
    if is_move(e) {
        let pred = |x: InputEvent| !is_move(x) || player_of(x) != player_of(e);
        let f = s.filter(pred);
        lemma_filter_keeps_one_move_each(s, pred);
        assert(c == f.push(e));
        assert forall|i: int, j: int|
            0 <= i < j < c.len() && is_move(c[i]) && is_move(c[j]) implies player_of(c[i])
            != player_of(c[j]) by {
            if j < f.len() {
                assert(c[i] == f[i] && c[j] == f[j]);
            } else {
                s.lemma_filter_pred(pred, i);
                assert(c[i] == f[i]);
            }
        }
    } else {
        assert forall|i: int, j: int|
            0 <= i < j < c.len() && is_move(c[i]) && is_move(c[j]) implies player_of(c[i])
            != player_of(c[j]) by {
            assert(c[i] == s[i]);
            assert(j < s.len());
            assert(c[j] == s[j]);
        }
    }
}

} // verus!
