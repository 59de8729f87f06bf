//! What a server is told to do, and who is looking at it.

use vstd::prelude::*;

verus! {

/// What a server is told to do.
#[derive(Debug)]
pub struct Settings {
    latency: u64,
    preparse: bool,
}

/// What a server is told to do.
pub struct SettingsV {
    /// How long it waits before it answers for an annotation, in milliseconds.
    pub latency: u64,
    /// Whether documents are read for their titles.
    pub preparse: bool,
}

impl View for Settings {
    type V = SettingsV;

    closed spec fn view(&self) -> SettingsV {
        SettingsV { latency: self.latency, preparse: self.preparse }
    }
}

impl Settings {
    /// What a server does that is told nothing: it waits for nothing, and reads
    /// documents for their titles.
    pub fn new() -> (r: Self)
        ensures
            r@ == (SettingsV { latency: 0, preparse: true }),
    {
        Settings { latency: 0, preparse: true }
    }

    /// Sets how long a server waits before it answers for an annotation. A page shows an
    /// annotation that is on its way, and on a fast machine that is not to be seen.
    pub fn set_annotate_latency(&mut self, ms: u64)
        ensures
            final(self)@ == (SettingsV { latency: ms, ..old(self)@ }),
    {
        self.latency = ms;
    }

    /// How long a server waits before it answers for an annotation.
    pub fn annotate_latency(&self) -> (r: u64)
        ensures
            r == self@.latency,
    {
        self.latency
    }

    /// Says whether documents are read for their titles.
    pub fn set_preparse(&mut self, on: bool)
        ensures
            final(self)@ == (SettingsV { preparse: on, ..old(self)@ }),
    {
        self.preparse = on;
    }

    /// Whether documents are read for their titles.
    pub fn preparse(&self) -> (r: bool)
        ensures
            r == self@.preparse,
    {
        self.preparse
    }
}

/// The pages that hold their event stream open.
#[derive(Debug)]
pub struct Watchers {
    live: usize,
    next: usize,
    served: bool,
}

/// The pages that hold their event stream open.
pub struct WatchersV {
    /// How many there are.
    pub live: usize,
    /// The number the next one gets.
    pub next: usize,
    /// Whether there ever was one.
    pub served: bool,
}

impl View for Watchers {
    type V = WatchersV;

    closed spec fn view(&self) -> WatchersV {
        WatchersV { live: self.live, next: self.next, served: self.served }
    }
}

impl Watchers {
    /// No page yet.
    pub fn new() -> (r: Self)
        ensures
            r@ == (WatchersV { live: 0, next: 0, served: false }),
    {
        Watchers { live: 0, next: 0, served: false }
    }

    /// A page opens its stream: the number it gets, and how many there are with it. After the
    /// last number the first comes again.
    pub fn arrive(&mut self) -> (r: (usize, usize))
        requires
            old(self)@.live < usize::MAX,
        ensures
            r.0 == old(self)@.next,
            r.1 == old(self)@.live + 1,
            final(self)@.live == old(self)@.live + 1,
            final(self)@.next == if old(self)@.next < usize::MAX {
                old(self)@.next + 1
            } else {
                0
            },
            final(self)@.served,
    {
        let id: usize = self.next;
        self.live = self.live + 1;
        self.next = if id < usize::MAX {
            id + 1
        } else {
            0
        };
        self.served = true;
        (id, self.live)
    }

    /// A page closes its stream: how many are left.
    pub fn leave(&mut self) -> (r: usize)
        ensures
            r == final(self)@.live,
            final(self)@.live == if old(self)@.live > 0 {
                old(self)@.live - 1
            } else {
                0
            },
            final(self)@.next == old(self)@.next,
            final(self)@.served == old(self)@.served,
    {
        if self.live > 0 {
            self.live = self.live - 1;
        }
        self.live
    }

    /// How many pages hold their stream open.
    pub fn live_clients(&self) -> (r: usize)
        ensures
            r == self@.live,
    {
        self.live
    }

    /// Whether there ever was a page.
    pub fn served(&self) -> (r: bool)
        ensures
            r == self@.served,
    {
        self.served
    }
}

} // verus!
