//! Undo and redo.

use crate::genome::Genome;
use vstd::prelude::*;

verus! {

/// How many edits can be undone.
pub const MAX_UNDO: usize = 64;

/// A patch: the knobs and the note.
#[derive(Clone, Copy, Debug)]
pub struct Slot {
    pub genome: Genome<u32>,
    pub note: i32,
}

/// The patch and what can be undone and redone, the newest last.
pub struct History {
    pub now: Slot,
    pub undo: Seq<Slot>,
    pub redo: Seq<Slot>,
}

/// A stack of edits keeps the newest.
pub open spec fn kept(s: Seq<Slot>) -> Seq<Slot> {
    if s.len() > MAX_UNDO {
        s.remove(0)
    } else {
        s
    }
}

/// An edit: the patch can be undone to, and nothing can be redone.
pub open spec fn edited(h: History, to: Slot) -> History {
    History { now: to, undo: kept(h.undo.push(h.now)), redo: Seq::empty() }
}

pub open spec fn undone(h: History) -> History {
    if h.undo.len() == 0 {
        h
    } else {
        History { now: h.undo.last(), undo: h.undo.drop_last(), redo: h.redo.push(h.now) }
    }
}

pub open spec fn redone(h: History) -> History {
    if h.redo.len() == 0 {
        h
    } else {
        History { now: h.redo.last(), undo: h.undo.push(h.now), redo: h.redo.drop_last() }
    }
}

/// Never more than `MAX_UNDO` edits are remembered.
pub open spec fn is_history(h: History) -> bool {
    h.undo.len() + h.redo.len() <= MAX_UNDO
}

/// An edit, an undo and a redo keep the history within its bounds.
pub proof fn law_history_is_bounded(h: History, to: Slot)
    requires
        is_history(h),
    ensures
        is_history(edited(h, to)),
        is_history(undone(h)),
        is_history(redone(h)),
{
}

/// Undo takes back an edit: the patch is what it was, and redo brings the edit
/// back.
pub proof fn law_undo_takes_back_an_edit(h: History, to: Slot)
    requires
        is_history(h),
    ensures
        undone(edited(h, to)).now == h.now,
        redone(undone(edited(h, to))) == edited(h, to),
        h.undo.len() < MAX_UNDO ==> undone(edited(h, to)).undo == h.undo,
{
    let e = edited(h, to);
    let u = undone(e);
    assert(e.undo.last() == h.now);
    assert(u.undo.push(u.now) =~= e.undo);
    assert(u.redo.drop_last() =~= e.redo);
    if h.undo.len() < MAX_UNDO {
        assert(e.undo.drop_last() =~= h.undo);
    }
}

/// Redo takes back an undo, and undo takes back a redo.
pub proof fn law_redo_takes_back_an_undo(h: History)
    ensures
        h.undo.len() > 0 ==> redone(undone(h)) == h,
        h.redo.len() > 0 ==> undone(redone(h)) == h,
{
    if h.undo.len() > 0 {
        let u = undone(h);
        assert(u.undo.push(u.now) =~= h.undo);
        assert(u.redo.drop_last() =~= h.redo);
    }
    if h.redo.len() > 0 {
        let r = redone(h);
        assert(r.redo.push(r.now) =~= h.redo);
        assert(r.undo.drop_last() =~= h.undo);
    }
}

/// An edit is remembered as the newest of at most 64: the patch is what was asked for, what
/// it was stands on top, below it stand the edits before it, of which the oldest makes room
/// where there are 64 already, and nothing can be redone.
pub proof fn law_the_newest_edits_are_remembered(h: History, to: Slot, i: int)
    requires
        is_history(h),
    ensures
        ({
            let e = edited(h, to);
            &&& e.now == to
            &&& e.redo.len() == 0
            &&& e.undo.len() == if h.undo.len() < 64 {
                h.undo.len() + 1
            } else {
                64
            }
            &&& e.undo.last() == h.now
            &&& 0 < i < e.undo.len() ==> e.undo[e.undo.len() - 1 - i] == h.undo[h.undo.len() - i]
        }),
        h.undo.len() > 0 ==> undone(h).now == h.undo.last() && undone(h).redo.last() == h.now,
        h.undo.len() == 0 ==> undone(h) == h,
        h.redo.len() > 0 ==> redone(h).now == h.redo.last() && redone(h).undo.last() == h.now,
        h.redo.len() == 0 ==> redone(h) == h,
{
}

} // verus!
