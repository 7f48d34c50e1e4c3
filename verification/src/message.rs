//! The bounded message log.

use vstd::prelude::*;
use crate::color::Color;

verus! {

/// One line of the log: its text and the colour it is shown in.
pub type Line = (Seq<char>, Color);

/// The bounded message log. Lines are kept in the order they were written; once the
/// log holds as many lines as its limit allows, writing another drops the oldest.
pub struct Messages {
    lines: Vec<(String, Color)>,
    limit: usize,
}

impl View for Messages {
    type V = Seq<Line>;

    closed spec fn view(&self) -> Seq<Line> {
        Seq::new(self.lines@.len(), |i: int| (self.lines@[i].0@, self.lines@[i].1))
    }
}

/// The log after `line` is written to a log that holds `log` and keeps at most `limit` lines.
pub open spec fn logged(log: Seq<Line>, limit: nat, line: Line) -> Seq<Line> {
    if log.len() == limit {
        log.drop_first().push(line)
    } else {
        log.push(line)
    }
}

impl Messages {
    /// The log holds no more lines than its limit.
    pub open spec fn wf(&self) -> bool {
        self@.len() <= self.limit()
    }

    /// The greatest number of lines the log keeps.
    pub closed spec fn limit(&self) -> nat {
        self.limit as nat
    }

    /// An empty log that keeps at most `capacity` lines.
    pub fn new(capacity: usize) -> (log: Messages)
        ensures
            log.wf(),
            log@ == Seq::<Line>::empty(),
            log.limit() == capacity,
    {
        let log = Messages { lines: Vec::with_capacity(capacity), limit: capacity };
        assert(log@ =~= Seq::<Line>::empty());
        log
    }

    /// Writes a line. If the log is full, the oldest line makes room for it.
    pub fn message(&mut self, message: String, color: Color)
        requires
            old(self).wf(),
            old(self).limit() > 0,
        ensures
            final(self).wf(),
            final(self)@ == logged(old(self)@, old(self).limit(), (message@, color)),
            final(self).limit() == old(self).limit(),
    {
        if self.lines.len() == self.limit {
            self.lines.remove(0);
        }
        self.lines.push((message, color));
        assert(self@ =~= logged(old(self)@, old(self).limit(), (message@, color)));
    }

    /// The number of lines in the log.
    pub fn len(&self) -> (n: usize)
        ensures
            n == self@.len(),
    {
        self.lines.len()
    }

    /// The greatest number of lines the log keeps.
    pub fn capacity(&self) -> (n: usize)
        ensures
            n == self.limit(),
    {
        self.limit
    }

    /// The text of line `index`, counted from the oldest.
    pub fn text(&self, index: usize) -> (text: &String)
        requires
            index < self@.len(),
        ensures
            text@ == self@[index as int].0,
    {
        &self.lines[index].0
    }

    /// The colour of line `index`, counted from the oldest.
    pub fn color(&self, index: usize) -> (color: Color)
        requires
            index < self@.len(),
        ensures
            color == self@[index as int].1,
    {
        self.lines[index].1
    }
}

} // verus!
