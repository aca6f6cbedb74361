//! The waypoint queue of one agent: the planned route is assigned once at
//! creation and then only consumed from the front, one cell per arrival. The
//! current target is always the head of the queue.

use vstd::prelude::*;

verus! {

/// Remaining waypoints of one agent, in travel order.
pub struct Waypoints {
    cells: Vec<(usize, usize)>,
}

impl View for Waypoints {
    type V = Seq<(usize, usize)>;

    closed spec fn view(&self) -> Seq<(usize, usize)> {
        self.cells@
    }
}

impl Waypoints {
    /// The cell the agent currently steers toward: the head of the queue.
    pub open spec fn target_spec(self) -> Option<(usize, usize)> {
        if self@.len() == 0 {
            None
        } else {
            Some(self@[0])
        }
    }

    /// Takes the planned route, assigned exactly once at creation.
    pub fn new(cells: Vec<(usize, usize)>) -> (w: Self)
        ensures
            w@ == cells@,
    {
        Waypoints { cells }
    }

    pub fn current_target(&self) -> (target: Option<(usize, usize)>)
        ensures
            target == self.target_spec(),
    {
        if self.cells.len() == 0 {
            None
        } else {
            let head = self.cells[0];
            Some(head)
        }
    }

    pub fn len(&self) -> (n: usize)
        ensures
            n == self@.len(),
    {
        self.cells.len()
    }

    /// The remaining waypoints, front first.
    pub fn cells(&self) -> (cells: &Vec<(usize, usize)>)
        ensures
            cells@ == self@,
    {
        &self.cells
    }

    /// Pops the waypoint just reached; the next cell, if any, becomes the
    /// current target. The queue only ever shrinks, from the front.
    pub fn advance(&mut self)
        requires
            old(self)@.len() >= 1,
        ensures
            final(self)@ == old(self)@.drop_first(),
            final(self).target_spec() == (if old(self)@.len() >= 2 {
                Some(old(self)@[1])
            } else {
                None::<(usize, usize)>
            }),
    {
        self.cells.remove(0);
        proof {
            assert(self.cells@ =~= old(self).cells@.drop_first());
        }
    }
}

} // verus!
