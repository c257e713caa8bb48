use std::collections::VecDeque;

use vstd::prelude::*;

verus! {

/// The undo and redo stacks after `current` is recorded: it goes on top of `undo`, and `redo`
/// is emptied.
pub open spec fn applied(undo: Seq<String>, redo: Seq<String>, current: String) -> (
    Seq<String>,
    Seq<String>,
) {
    (seq![current] + undo, Seq::empty())
}

/// One step back through the stack `from`, leaving `current` on top of the stack `to`: the new
/// `from`, the new `to`, and the snapshot handed back (none when `from` is empty, in which case
/// nothing changes).
pub open spec fn stepped(from: Seq<String>, to: Seq<String>, current: String) -> (
    Seq<String>,
    Seq<String>,
    Option<String>,
) {
    if from.len() == 0 {
        (from, to, None)
    } else {
        (from.drop_first(), seq![current] + to, Some(from[0]))
    }
}

/// Snapshots of the whole state for undo and redo, most recent first.
pub struct History {
    pub undo_stack: VecDeque<String>,
    pub redo_stack: VecDeque<String>,
}

impl Default for History {
    fn default() -> (r: Self)
        ensures
            r.undo_stack@.len() == 0,
            r.redo_stack@.len() == 0,
    {
        History { undo_stack: VecDeque::new(), redo_stack: VecDeque::new() }
    }
}

impl History {
    pub fn new() -> (r: History)
        ensures
            r.undo_stack@.len() == 0,
            r.redo_stack@.len() == 0,
    {
        History { undo_stack: VecDeque::new(), redo_stack: VecDeque::new() }
    }

    /// Records the state as it is before a change; what could have been redone is dropped.
    pub fn apply(&mut self, current_state: String)
        ensures
            (final(self).undo_stack@, final(self).redo_stack@) == applied(
                old(self).undo_stack@,
                old(self).redo_stack@,
                current_state,
            ),
    {
        self.undo_stack.push_front(current_state);
        self.redo_stack.clear();
        proof {
            assert(self.redo_stack@ =~= Seq::<String>::empty());
        }
    }

    /// Hands back the most recent recorded state and keeps `current_state` for redo; fails
    /// with `true`, changing nothing, when there is nothing to undo.
    pub fn undo(&mut self, current_state: String) -> (r: Result<String, bool>)
        ensures
            ({
                let (u, d, back) = stepped(old(self).undo_stack@, old(self).redo_stack@, current_state);
                &&& final(self).undo_stack@ == u
                &&& final(self).redo_stack@ == d
                &&& match r {
                    Ok(s) => back == Some(s),
                    Err(e) => back is None && e,
                }
            }),
    {
        if self.undo_stack.len() == 0 {
            return Err(true);
        }
        self.redo_stack.push_front(current_state);
        let state = self.undo_stack.pop_front().unwrap();
        proof {
            assert(self.undo_stack@ =~= old(self).undo_stack@.drop_first());
        }
        Ok(state)
    }

    /// Hands back the most recently undone state and keeps `current_state` for undo; fails
    /// with `true`, changing nothing, when there is nothing to redo.
    pub fn redo(&mut self, current_state: String) -> (r: Result<String, bool>)
        ensures
            ({
                let (d, u, fwd) = stepped(old(self).redo_stack@, old(self).undo_stack@, current_state);
                &&& final(self).undo_stack@ == u
                &&& final(self).redo_stack@ == d
                &&& match r {
                    Ok(s) => fwd == Some(s),
                    Err(e) => fwd is None && e,
                }
            }),
    {
        if self.redo_stack.len() == 0 {
            return Err(true);
        }
        self.undo_stack.push_front(current_state);
        let state = self.redo_stack.pop_front().unwrap();
        proof {
            assert(self.redo_stack@ =~= old(self).redo_stack@.drop_first());
        }
        Ok(state)
    }
}

/// Undo and redo mirror each other: after recording `s0` and moving on to `s1`, undo hands
/// back `s0`; a redo right after hands back `s1` and restores both stacks as they were after
/// the recording; and recording `s2` after the undo leaves nothing to redo.
pub proof fn law_undo_redo(
    undo: Seq<String>,
    redo: Seq<String>,
    s0: String,
    s1: String,
    s2: String,
)
    ensures
        ({
            let (u1, r1) = applied(undo, redo, s0);
            let (u2, r2, back) = stepped(u1, r1, s1);
            let (r3, u3, fwd) = stepped(r2, u2, s0);
            let (u4, r4) = applied(u2, r2, s2);
            &&& back == Some(s0)
            &&& u2 == undo
            &&& fwd == Some(s1)
            &&& u3 == u1
            &&& r3 == r1
            &&& r2.len() == 1
            &&& r4.len() == 0
            &&& u4 == seq![s2] + undo
        }),
{
    let (u1, r1) = applied(undo, redo, s0);
    assert(u1.drop_first() =~= undo);
    let (u2, r2, back) = stepped(u1, r1, s1);
    assert(r2 =~= seq![s1]);
    let (r3, u3, fwd) = stepped(r2, u2, s0);
    assert(u3 =~= u1);
    assert(r3 =~= r1);
}

} // verus!
