//! Named diagnostic counters. The shell prints them; this side only counts.

use vstd::prelude::*;

use crate::assoc::{assoc_get, assoc_insert, assoc_view, distinct_keys};

verus! {

/// Named counters for diagnostics: a counter is opened at zero, stepped, and
/// read out for printing by the shell.
#[derive(Debug)]
pub struct Console {
    pub counters: Vec<(String, u32)>,
}

impl Console {
    pub open spec fn wf(&self) -> bool {
        distinct_keys(self.counters@)
    }

    pub open spec fn counters_view(&self) -> Map<Seq<char>, u32> {
        assoc_view(self.counters@)
    }

    pub fn new() -> (r: Console)
        ensures
            r.wf(),
            r.counters_view() == Map::<Seq<char>, u32>::empty(),
    {
        Console { counters: Vec::new() }
    }

    /// Opens (or resets) a named counter at zero.
    pub fn count_start(&mut self, name: String)
        requires
            old(self).wf(),
        ensures
            final(self).wf(),
            final(self).counters_view() == old(self).counters_view().insert(name@, 0u32),
    {
        assoc_insert(&mut self.counters, name, 0);
    }

    /// Steps a named counter; a name never opened is left alone.
    pub fn count(&mut self, name: String)
        requires
            old(self).wf(),
        ensures
            final(self).wf(),
            old(self).counters_view().contains_key(name@) && old(self).counters_view()[name@]
                < u32::MAX ==> final(self).counters_view() == old(self).counters_view().insert(
                name@,
                (old(self).counters_view()[name@] + 1) as u32,
            ),
            !old(self).counters_view().contains_key(name@) ==> final(self).counters_view() == old(
                self,
            ).counters_view(),
    {
        let current: Option<u32> = match assoc_get(&self.counters, &name) {
            Some(v) => Some(*v),
            None => None,
        };
        match current {
            Some(v) => {
                if v < u32::MAX {
                    assoc_insert(&mut self.counters, name, v + 1);
                }
            },
            None => (),
        }
    }

    /// Closes a named counter and hands its tally out for the shell to print;
    /// `None` for a name never opened.
    pub fn count_end(&mut self, name: String) -> (r: Option<u32>)
        requires
            old(self).wf(),
        ensures
            final(self).wf(),
            old(self).counters_view().contains_key(name@) ==> r == Some(
                old(self).counters_view()[name@],
            ),
            !old(self).counters_view().contains_key(name@) ==> r is None && *final(self)
                == *old(self),
    {
        match assoc_get(&self.counters, &name) {
            Some(v) => Some(*v),
            None => None,
        }
    }
}

/// How many children a widget accepts.
#[derive(Clone, Copy, Debug, PartialEq, Eq, Structural)]
pub enum ParentType {
    /// No children can be added to the widget.
    Leaf,
    /// Only one child can be added to the widget.
    Single,
    /// Multiple children can be added to the widget.
    Multi,
}

} // verus!
