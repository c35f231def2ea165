//! The most recent turns of a conversation, oldest first, as context for the
//! turn that comes next.

use crate::text;
use std::collections::VecDeque;
use vstd::prelude::*;
use vstd::string::*;

verus! {

/// How many turns a window holds by default.
pub const DEFAULT_WINDOW: usize = 4;

/// A bounded window of recent turns. A window of capacity 0 stays empty.
#[derive(Clone, Debug)]
pub struct TurnWindow {
    capacity: usize,
    turns: VecDeque<String>,
}

impl View for TurnWindow {
    type V = Seq<Seq<char>>;

    /// The turns, oldest first.
    closed spec fn view(&self) -> Seq<Seq<char>> {
        text::views(self.turns@)
    }
}

/// The last `n` items of a list, or all of them where there are fewer.
pub open spec fn last_items(v: Seq<Seq<char>>, n: nat) -> Seq<Seq<char>> {
    if v.len() <= n {
        v
    } else {
        v.skip(v.len() - n)
    }
}

impl TurnWindow {
    /// How many turns the window holds at most.
    pub closed spec fn limit(&self) -> nat {
        self.capacity as nat
    }

    /// Never more turns than the capacity.
    pub open spec fn valid(&self) -> bool {
        self@.len() <= self.limit()
    }

    /// An empty window for at most `capacity` turns.
    pub fn new(capacity: usize) -> (r: Self)
        ensures
            r.valid(),
            r.limit() == capacity,
            r@ == Seq::<Seq<char>>::empty(),
    {
        let r = TurnWindow { capacity, turns: VecDeque::new() };
        assert(r@ =~= Seq::<Seq<char>>::empty());
        r
    }

    /// An empty window of the default capacity.
    pub fn with_default() -> (r: Self)
        ensures
            r.valid(),
            r.limit() == DEFAULT_WINDOW,
            r@ == Seq::<Seq<char>>::empty(),
    {
        TurnWindow::new(DEFAULT_WINDOW)
    }

    /// The turns before the one that comes next, oldest first.
    pub fn context(&self) -> (r: Vec<String>)
        ensures
            text::views(r@) == self@,
    {
        let mut out: Vec<String> = Vec::new();
        let mut i: usize = 0;
        assert(text::views(out@) =~= self@.take(0));
        while i < self.turns.len()
            invariant
                i <= self.turns@.len(),
                text::views(out@) == self@.take(i as int),
            decreases self.turns@.len() - i,
        {
            let ghost before = text::views(out@);
            out.push(self.turns[i].clone());
            assert(text::views(out@) =~= before.push(self@[i as int]));
            assert(self@.take(i + 1) =~= self@.take(i as int).push(self@[i as int]));
            i += 1;
        }
        assert(self@.take(i as int) =~= self@);
        out
    }

    /// Appends a turn; the oldest one makes room where there is none.
    pub fn push(&mut self, turn: &str)
        requires
            old(self).valid(),
        ensures
            final(self).valid(),
            final(self).limit() == old(self).limit(),
            final(self)@ == last_items(old(self)@.push(turn@), old(self).limit()),
    {
        let ghost before = self@;
        if self.capacity == 0 {
            assert(before.push(turn@).skip(1) =~= before);
            return;
        }
        if self.turns.len() == self.capacity {
            let _ = self.turns.pop_front();
            assert(self@ =~= before.skip(1));
        }
        let ghost kept = self@;
        self.turns.push_back(turn.to_string());
        assert(self@ =~= kept.push(turn@));
        assert(self@ =~= last_items(before.push(turn@), self.limit()));
    }

    /// Drops all turns, so that nothing carries over to another conversation.
    pub fn clear(&mut self)
        ensures
            final(self).valid(),
            final(self).limit() == old(self).limit(),
            final(self)@ == Seq::<Seq<char>>::empty(),
    {
        self.turns.clear();
        assert(self@ =~= Seq::<Seq<char>>::empty());
    }

    /// Number of turns in the window.
    pub fn len(&self) -> (r: usize)
        ensures
            r == self@.len(),
    {
        self.turns.len()
    }

    /// Whether the window holds no turns.
    pub fn is_empty(&self) -> (r: bool)
        ensures
            r == (self@.len() == 0),
    {
        self.turns.len() == 0
    }

    /// How many turns the window holds at most.
    pub fn capacity(&self) -> (r: usize)
        ensures
            r == self.limit(),
    {
        self.capacity
    }
}

/// What a window of the given capacity holds after a conversation.
pub open spec fn window_after(turns: Seq<Seq<char>>, capacity: nat) -> Seq<Seq<char>>
    decreases turns.len(),
{
    if turns.len() == 0 {
        Seq::empty()
    } else {
        last_items(window_after(turns.drop_last(), capacity).push(turns.last()), capacity)
    }
}

/// A window that began empty holds the most recent turns of the conversation,
/// oldest first.
pub proof fn law_holds_most_recent(turns: Seq<Seq<char>>, capacity: nat)
    ensures
        window_after(turns, capacity) == last_items(turns, capacity),
    decreases turns.len(),
{
    if turns.len() > 0 {
        law_holds_most_recent(turns.drop_last(), capacity);
        assert(turns.drop_last().push(turns.last()) =~= turns);
        assert(window_after(turns, capacity) =~= last_items(turns, capacity));
    } else {
        assert(turns =~= Seq::<Seq<char>>::empty());
    }
}

/// A window of capacity 0 never holds anything.
pub proof fn law_no_capacity_no_context(turns: Seq<Seq<char>>)
    ensures
        window_after(turns, 0).len() == 0,
{
    law_holds_most_recent(turns, 0);
}

/// The window holds the latest turns: as many as fit, in order, up to the last.
pub proof fn law_window_ends_with_the_latest(turns: Seq<Seq<char>>, capacity: nat, back: int)
    ensures
        window_after(turns, capacity).len() == if turns.len() < capacity {
            turns.len()
        } else {
            capacity
        },
        0 < back <= capacity && back <= turns.len() ==> window_after(
            turns,
            capacity,
        )[window_after(turns, capacity).len() - back] == turns[turns.len() - back],
{
    law_holds_most_recent(turns, capacity);
}

} // verus!
