use vstd::prelude::*;

use crate::text::{push_decimal, push_str, decimal};

verus! {

/// A `debug` pair: two records carrying one operation name, so a duration is a subtraction over their
/// elapsed prefixes rather than a stopwatch run by hand.
///
/// `target` is the caller's, the module the work happened in, so both records name it rather than the
/// module that renders them. The end record is the one a guard emits when its scope ends, whichever exit
/// the scope took, with the figure set by then if one was.
#[derive(Debug, Clone, PartialEq, Eq)]
pub struct Bracket {
    target: &'static str,
    operation: String,
    figure: Option<(&'static str, u64)>,
}

impl Bracket {
    pub closed spec fn spec_target(&self) -> Seq<char> {
        self.target@
    }

    pub closed spec fn spec_operation(&self) -> Seq<char> {
        self.operation@
    }

    pub closed spec fn spec_figure(&self) -> Option<(Seq<char>, u64)> {
        match self.figure {
            Some((name, value)) => Some((name@, value)),
            None => None,
        }
    }

    /// Opens the pair; the begin record is [`Self::begin_record`].
    pub fn open(target: &'static str, operation: &str) -> (bracket: Self)
        ensures
            bracket.spec_target() == target@,
            bracket.spec_operation() == operation@,
            bracket.spec_figure() is None,
    {
        Bracket { target, operation: operation.to_owned(), figure: None }
    }

    /// A figure the end record carries, set any time before the scope ends; a later one replaces an
    /// earlier one.
    pub fn figure(&mut self, name: &'static str, value: u64)
        ensures
            final(self).spec_figure() == Some((name@, value)),
            final(self).spec_target() == old(self).spec_target(),
            final(self).spec_operation() == old(self).spec_operation(),
    {
        self.figure = Some((name, value));
    }

    /// The module both records name.
    pub fn target(&self) -> (target: &'static str)
        ensures
            target@ == self.spec_target(),
    {
        self.target
    }

    /// The record that opens the pair: `<operation> begins`.
    pub fn begin_record(&self) -> (record: String)
        ensures
            record@ == self.spec_operation() + " begins"@,
    {
        let mut record = self.operation.clone();
        push_str(&mut record, " begins");
        record
    }

    /// The record that closes the pair: `<operation> ends`, and `, <name> <value>` when a figure was set.
    pub fn end_record(&self) -> (record: String)
        ensures
            record@ == match self.spec_figure() {
                Some((name, value)) => self.spec_operation() + " ends, "@ + name + " "@ + decimal(value as nat),
                None => self.spec_operation() + " ends"@,
            },
    {
        let mut record = self.operation.clone();
        match self.figure {
            Some((name, value)) => {
                push_str(&mut record, " ends, ");
                push_str(&mut record, name);
                push_str(&mut record, " ");
                push_decimal(&mut record, value);
            },
            None => {
                push_str(&mut record, " ends");
            },
        }
        record
    }
}

} // verus!
