use vstd::prelude::*;

verus! {

/// Where a long-running step says how far it has got, supplied by whoever called it.
///
/// The library reports to a sink it is given and never to a stream it chose, so nothing here names a
/// destination. `total` comes on every call rather than at construction because the sink is the
/// caller's value, built before it knows what it will be handed.
pub trait Progress {
    /// Whether the sink keeps what it hears; one that discards every call keeps nothing.
    open spec fn keeps(&self) -> bool {
        false
    }

    /// Every call a keeping sink has heard, oldest first.
    open spec fn heard(&self) -> Seq<(u64, u64)> {
        Seq::empty()
    }

    /// `done` of `total` units finished, both absolute, so a sink that missed a call still reports the
    /// right position. A keeping sink hears exactly this call and goes on keeping.
    fn advance(&mut self, done: u64, total: u64)
        ensures
            old(self).keeps() ==> final(self).keeps() && final(self).heard() == old(self).heard().push(
                (done, total),
            ),
    ;
}

/// The sink for a caller that wants no reporting, so a step takes `()` instead of growing a second
/// signature without the parameter. It keeps nothing.
impl Progress for () {
    fn advance(&mut self, done: u64, total: u64) {
    }
}

/// A sink that keeps every call it hears, oldest first: what a caller reads back to see how a step
/// reported.
impl Progress for Vec<(u64, u64)> {
    open spec fn keeps(&self) -> bool {
        true
    }

    open spec fn heard(&self) -> Seq<(u64, u64)> {
        self@
    }

    fn advance(&mut self, done: u64, total: u64) {
        self.push((done, total));
    }
}

} // verus!
