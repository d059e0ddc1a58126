use vstd::prelude::*;

use crate::table::cache::{HeaderRefusal, LengthError};
use crate::smallest::cache::LedgerRefusal;
use crate::table::TableError;
use crate::text::{decimal, push_char, push_decimal, push_str};

verus! {

/// A run that failed for a reason that is neither the caller's input nor missing data.
pub const EXIT_FAILURE: u8 = 1;

/// Input the caller gave that cannot be acted on.
pub const EXIT_BAD_INPUT: u8 = 2;

/// Data that is not there: a cache or a ledger of another table, or none at all.
pub const EXIT_MISSING_DATA: u8 = 3;

/// A failure and the exit-code class it falls in, so every command reports through one path.
#[derive(Debug, Clone, PartialEq, Eq)]
pub struct Failure {
    pub code: u8,
    pub message: String,
}

/// The messages of an error and of every error beneath it, joined the way a reader follows a chain:
/// each link, then `: ` and the next.
pub open spec fn joined(chain: Seq<Seq<char>>) -> Seq<char>
    decreases chain.len(),
{
    if chain.len() == 0 {
        seq![]
    } else if chain.len() == 1 {
        chain[0]
    } else {
        joined(chain.drop_last()) + ": "@ + chain.last()
    }
}

impl Failure {
    /// The whole source chain, because one link is one sentence and the one naming the file or the
    /// call is usually the one beneath it. `chain` holds the error's own message and then each
    /// source's, outermost first.
    pub fn new(code: u8, chain: &Vec<String>) -> (failure: Self)
        ensures
            failure.code == code,
            failure.message@ == joined(chain@.map_values(|link: String| link@)),
    {
        let ghost links = chain@.map_values(|link: String| link@);
        let mut message = String::new();
        let mut i: usize = 0;
        while i < chain.len()
            invariant
                0 <= i <= chain@.len(),
                links == chain@.map_values(|link: String| link@),
                message@ == joined(links.take(i as int)),
            decreases chain@.len() - i,
        {
            proof {
                assert(links.take(i + 1).drop_last() =~= links.take(i as int));
                assert(links.take(i + 1).last() == chain@[i as int]@);
                reveal_strlit(": ");
            }
            if i > 0 {
                push_str(&mut message, ": ");
            } else {
                proof {
                    assert(links.take(1) =~= seq![chain@[0]@]);
                    assert(message@ =~= Seq::<char>::empty());
                }
            }
            push_str(&mut message, chain[i].as_str());
            proof {
                if i == 0 {
                    assert(message@ =~= links.take(1)[0]);
                }
            }
            i = i + 1;
        }
        proof {
            assert(links.take(chain@.len() as int) =~= links);
        }
        Failure { code, message }
    }

    /// Bad input this crate has diagnosed itself, where there is no error to carry the sentence.
    pub fn bad_input(message: String) -> (failure: Self)
        ensures
            failure.code == EXIT_BAD_INPUT,
            failure.message == message,
    {
        Failure { code: EXIT_BAD_INPUT, message }
    }

    /// A table payload that is not the grid's padded product.
    pub fn table(error: &TableError) -> (failure: Self)
        ensures
            failure.code == (if error is Decimation { EXIT_BAD_INPUT } else { EXIT_FAILURE }),
            failure.message@ == table_error_text(*error),
    {
        Failure { code: exit_code_for_table_error(error), message: table_error_message(error) }
    }
}

/// The factor is a flag, so a factor that does not divide the grid is bad input. A payload that is not
/// the grid's padded product is not: nothing the caller said produced it.
pub fn exit_code_for_table_error(error: &TableError) -> (code: u8)
    ensures
        code == (if error is Decimation { EXIT_BAD_INPUT } else { EXIT_FAILURE }),
{
    match error {
        TableError::Decimation { .. } => EXIT_BAD_INPUT,
        TableError::PayloadLength { .. } => EXIT_FAILURE,
    }
}

/// What a table error reads as.
pub open spec fn table_error_text(error: TableError) -> Seq<char> {
    match error {
        TableError::Decimation { factor, width, height } => "a decimation factor of "@ + decimal(
            factor as nat,
        ) + " does not divide a "@ + decimal(width as nat) + " x "@ + decimal(height as nat)
            + " grid"@,
        TableError::PayloadLength { expected, found } => "a padded table over this grid holds "@
            + decimal(expected as nat) + " cells; the payload holds "@ + decimal(found as nat),
    }
}

pub fn table_error_message(error: &TableError) -> (text: String)
    ensures
        text@ == table_error_text(*error),
{
    match error {
        TableError::Decimation { factor, width, height } => {
            let mut text = "a decimation factor of ".to_owned();
            push_decimal(&mut text, *factor as u64);
            push_str(&mut text, " does not divide a ");
            push_decimal(&mut text, *width as u64);
            push_str(&mut text, " x ");
            push_decimal(&mut text, *height as u64);
            push_str(&mut text, " grid");
            text
        },
        TableError::PayloadLength { expected, found } => {
            let mut text = "a padded table over this grid holds ".to_owned();
            push_decimal(&mut text, *expected as u64);
            push_str(&mut text, " cells; the payload holds ");
            push_decimal(&mut text, *found as u64);
            text
        },
    }
}

/// A cache of another table, or of another version or byte order, is answered by building it: missing
/// data.
pub fn exit_code_for_header_refusal(refusal: &HeaderRefusal) -> (code: u8)
    ensures
        code == EXIT_MISSING_DATA,
{
    match refusal {
        HeaderRefusal::FormatVersion { .. }
        | HeaderRefusal::ByteOrderMismatch { .. }
        | HeaderRefusal::NotThisTable(_) => EXIT_MISSING_DATA,
    }
}

/// A payload that is there and is not the length its header describes is broken, not missing.
pub fn exit_code_for_length_error(error: &LengthError) -> (code: u8)
    ensures
        code == EXIT_FAILURE,
{
    match error {
        LengthError::Truncated { .. } | LengthError::Trailing { .. } => EXIT_FAILURE,
    }
}

/// A ledger of another table or version is answered by starting afresh, so it shares the class that
/// names a rebuild; one that does not hold together is a plain failure.
pub fn exit_code_for_ledger_refusal<P>(refusal: &LedgerRefusal<P>) -> (code: u8)
    ensures
        (refusal is FormatVersion || refusal is NotThisTable) <==> code == EXIT_MISSING_DATA,
        (refusal is CentreOffGrid || refusal is DuplicateRadius) <==> code == EXIT_FAILURE,
{
    match refusal {
        LedgerRefusal::FormatVersion { .. } | LedgerRefusal::NotThisTable(_) => EXIT_MISSING_DATA,
        LedgerRefusal::CentreOffGrid { .. } | LedgerRefusal::DuplicateRadius { .. } => EXIT_FAILURE,
    }
}

/// The level of a diagnostic record, most severe first.
#[derive(Debug, Clone, Copy, PartialEq, Eq, Structural)]
pub enum Level {
    Error,
    Warn,
    Info,
    Debug,
    Trace,
}

/// Where a level stands, most severe first.
pub open spec fn rank(level: Level) -> int {
    match level {
        Level::Error => 1,
        Level::Warn => 2,
        Level::Info => 3,
        Level::Debug => 4,
        Level::Trace => 5,
    }
}

/// What a run may be asked to report: the four thresholds a reader asks for, and no others.
pub open spec fn spec_parse_log_level(value: Seq<char>) -> Option<Level> {
    if value == "error"@ {
        Some(Level::Error)
    } else if value == "warn"@ {
        Some(Level::Warn)
    } else if value == "info"@ {
        Some(Level::Info)
    } else if value == "debug"@ {
        Some(Level::Debug)
    } else {
        None
    }
}

fn same_text(a: &str, b: &str) -> (same: bool)
    ensures
        same <==> a@ == b@,
{
    let n = a.unicode_len();
    if n != b.unicode_len() {
        return false;
    }
    let mut i: usize = 0;
    while i < n
        invariant
            0 <= i <= n,
            n == a@.len(),
            n == b@.len(),
            a@.subrange(0, i as int) == b@.subrange(0, i as int),
        decreases n - i,
    {
        if a.get_char(i) != b.get_char(i) {
            return false;
        }
        proof {
            assert(a@.subrange(0, i + 1) =~= a@.subrange(0, i as int).push(a@[i as int]));
            assert(b@.subrange(0, i + 1) =~= b@.subrange(0, i as int).push(b@[i as int]));
        }
        i = i + 1;
    }
    proof {
        assert(a@.subrange(0, n as int) =~= a@);
        assert(b@.subrange(0, n as int) =~= b@);
    }
    true
}

/// The message a level that is not one of the four is refused with.
pub open spec fn level_refusal(value: Seq<char>) -> Seq<char> {
    "`"@ + value + "` is not a level; the levels are error, warn, info and debug"@
}

/// The four names a run's threshold can be given by, and no others: `trace` adds no record a reader
/// asks for, and `off` is not a threshold.
pub fn parse_log_level(value: &str) -> (level: Result<Level, String>)
    ensures
        match spec_parse_log_level(value@) {
            Some(l) => level == Ok::<Level, String>(l),
            None => (level matches Err(message) && message@ == level_refusal(value@)),
        },
{
    if same_text(value, "error") {
        Ok(Level::Error)
    } else if same_text(value, "warn") {
        Ok(Level::Warn)
    } else if same_text(value, "info") {
        Ok(Level::Info)
    } else if same_text(value, "debug") {
        Ok(Level::Debug)
    } else {
        let mut message = "`".to_owned();
        push_str(&mut message, value);
        push_str(&mut message, "` is not a level; the levels are error, warn, info and debug");
        Err(message)
    }
}

/// Whether a record at `level` passes a threshold of `filter`: it is at least as severe.
pub open spec fn spec_enabled(level: Level, filter: Level) -> bool {
    rank(level) <= rank(filter)
}

fn rank_of(level: Level) -> (r: u8)
    ensures
        r == rank(level),
{
    match level {
        Level::Error => 1,
        Level::Warn => 2,
        Level::Info => 3,
        Level::Debug => 4,
        Level::Trace => 5,
    }
}

pub fn enabled(level: Level, filter: Level) -> (on: bool)
    ensures
        on == spec_enabled(level, filter),
{
    rank_of(level) <= rank_of(filter)
}

/// How a level reads in a record.
pub open spec fn level_name(level: Level) -> Seq<char> {
    match level {
        Level::Error => "ERROR"@,
        Level::Warn => "WARN"@,
        Level::Info => "INFO"@,
        Level::Debug => "DEBUG"@,
        Level::Trace => "TRACE"@,
    }
}

pub fn level_text(level: Level) -> (text: &'static str)
    ensures
        text@ == level_name(level),
{
    match level {
        Level::Error => "ERROR",
        Level::Warn => "WARN",
        Level::Info => "INFO",
        Level::Debug => "DEBUG",
        Level::Trace => "TRACE",
    }
}

/// `n` spaces.
pub open spec fn spaces(n: int) -> Seq<char> {
    Seq::new(if n > 0 { n as nat } else { 0 }, |i: int| ' ')
}

fn push_spaces(out: &mut String, n: usize)
    ensures
        final(out)@ == old(out)@ + spaces(n as int),
{
    let mut k: usize = 0;
    while k < n
        invariant
            0 <= k <= n,
            out@ == old(out)@ + spaces(k as int),
        decreases n - k,
    {
        push_char(out, ' ');
        proof {
            assert(old(out)@ + spaces(k + 1) =~= (old(out)@ + spaces(k as int)).push(' '));
        }
        k = k + 1;
    }
}

/// A record as it reads on a line: milliseconds since the process started, right-aligned in six
/// columns; the level, left-aligned in five; the target; and the message.
pub open spec fn spec_line(elapsed_ms: u64, level: Level, target: Seq<char>, message: Seq<char>) -> Seq<char> {
    let digits = decimal(elapsed_ms as nat);
    let name = level_name(level);
    spaces(6 - digits.len()) + digits + "ms "@ + name + spaces(5 - name.len()) + " "@ + target + ": "@
        + message
}

proof fn lemma_decimal_len(n: nat)
    ensures
        decimal(n).len() >= 1,
    decreases n,
{
    if n >= 10 {
        lemma_decimal_len(n / 10);
    }
}

/// A record rendered, split from the writing so the format is the library's: the elapsed figure is
/// what makes a duration a subtraction over two lines.
pub fn line(elapsed_ms: u64, level: Level, target: &str, message: &str) -> (text: String)
    ensures
        text@ == spec_line(elapsed_ms, level, target@, message@),
{
    let digits = crate::text::decimal_text(elapsed_ms);
    let width = digits.as_str().unicode_len();
    let mut text = String::new();
    push_spaces(&mut text, if width < 6 { 6 - width } else { 0 });
    push_str(&mut text, digits.as_str());
    push_str(&mut text, "ms ");
    let name = level_text(level);
    push_str(&mut text, name);
    let name_width = name.unicode_len();
    push_spaces(&mut text, if name_width < 5 { 5 - name_width } else { 0 });
    push_str(&mut text, " ");
    push_str(&mut text, target);
    push_str(&mut text, ": ");
    push_str(&mut text, message);
    proof {
        let d = decimal(elapsed_ms as nat);
        let nm = level_name(level);
        assert(spaces(if width < 6 { 6 - width } else { 0 }) =~= spaces(6 - d.len()));
        assert(spaces(if name_width < 5 { 5 - name_width } else { 0 }) =~= spaces(5 - nm.len()));
        assert(text@ =~= spec_line(elapsed_ms, level, target@, message@));
    }
    text
}

/// The percent a progress meter last drew, so it redraws once per whole percent and not once per
/// step.
#[derive(Debug, Clone, Copy, PartialEq, Eq, Structural)]
pub struct Meter {
    pub percent: Option<u64>,
}

impl Meter {
    pub fn new() -> (meter: Self)
        ensures
            meter.percent is None,
    {
        Meter { percent: None }
    }

    /// The percent to draw for `done` of `total`, or nothing when there is no total or the whole
    /// percent has not moved since the last one drawn.
    pub fn advance(&mut self, done: u64, total: u64) -> (draw: Option<u64>)
        requires
            done * 100 <= u64::MAX,
        ensures
            total == 0 ==> draw is None && *final(self) == *old(self),
            total != 0 ==> {
                let percent = ((done * 100) as u64 / total) as u64;
                &&& final(self).percent == Some(percent)
                &&& draw == (if old(self).percent == Some(percent) {
                    None::<u64>
                } else {
                    Some(percent)
                })
            },
    {
        if total == 0 {
            return None;
        }
        let percent = done * 100 / total;
        if self.percent == Some(percent) {
            return None;
        }
        self.percent = Some(percent);
        Some(percent)
    }
}

/// Why a range of shares is not a sweep.
#[derive(Debug, Clone, Copy, PartialEq, Eq, Structural)]
pub enum SweepRefusal {
    /// A step of zero never reaches its end.
    NoStep,
    /// The range runs from the larger share to the smaller.
    Backwards { from: u32, to: u32 },
    /// A percent the walk reaches that is not a share: zero, or past a hundred.
    NotAShare { percent: u32 },
}

/// `percent + step`, saturating, so a step near `u32::MAX` ends a walk rather than wrapping back.
pub open spec fn stepped(percent: u32, step: u32) -> u32 {
    if percent + step > u32::MAX {
        u32::MAX
    } else {
        (percent + step) as u32
    }
}

/// The percents a sweep walks: `from`, then each step on, while it does not pass `to`.
pub open spec fn walk(from: u32, to: u32, step: u32) -> Seq<u32>
    decreases to - from,
{
    if step == 0 || from > to {
        seq![]
    } else if stepped(from, step) > to || stepped(from, step) <= from {
        seq![from]
    } else {
        seq![from] + walk(stepped(from, step), to, step)
    }
}

/// Whether a percent is a share: above zero and not past a hundred.
pub open spec fn is_share(percent: u32) -> bool {
    0 < percent <= 100
}

/// How a sweep is refused: the two relations between the flags first, then the first percent of the walk
/// that is not a share.
pub open spec fn spec_sweep(from: u32, to: u32, step: u32) -> Result<Seq<u32>, SweepRefusal> {
    if step == 0 {
        Err(SweepRefusal::NoStep)
    } else if from > to {
        Err(SweepRefusal::Backwards { from, to })
    } else if exists|i: int| 0 <= i < walk(from, to, step).len() && !is_share(#[trigger] walk(from, to, step)[i]) {
        let i = choose|i: int|
            0 <= i < walk(from, to, step).len() && !is_share(#[trigger] walk(from, to, step)[i])
                && forall|j: int| 0 <= j < i ==> is_share(#[trigger] walk(from, to, step)[j]);
        Err(SweepRefusal::NotAShare { percent: walk(from, to, step)[i] })
    } else {
        Ok(walk(from, to, step))
    }
}

proof fn lemma_walk_shape(from: u32, to: u32, step: u32)
    requires
        step > 0,
        from <= to,
    ensures
        walk(from, to, step).len() >= 1,
        walk(from, to, step)[0] == from,
        forall|i: int, j: int| 0 <= i < j < walk(from, to, step).len() ==> #[trigger] walk(from, to, step)[i]
            < #[trigger] walk(from, to, step)[j],
        forall|i: int| 0 <= i < walk(from, to, step).len() ==> from <= #[trigger] walk(from, to, step)[i] <= to,
    decreases to - from,
{
    let next = stepped(from, step);
    if next > to || next <= from {
    } else {
        lemma_walk_shape(next, to, step);
        let w = walk(from, to, step);
        let rest = walk(next, to, step);
        assert(w == seq![from] + rest);
        assert forall|i: int, j: int| 0 <= i < j < w.len() implies #[trigger] w[i] < #[trigger] w[j] by {
            if i == 0 {
                assert(w[j] == rest[j - 1]);
            } else {
                assert(w[i] == rest[i - 1] && w[j] == rest[j - 1]);
            }
        }
        assert forall|i: int| 0 <= i < w.len() implies from <= #[trigger] w[i] <= to by {
            if i > 0 {
                assert(w[i] == rest[i - 1]);
            }
        }
    }
}

/// The percents a sweep walks, ascending, each a share.
///
/// # Errors
/// [`SweepRefusal::NoStep`] for a step of zero, [`SweepRefusal::Backwards`] for a range that runs
/// backwards, and [`SweepRefusal::NotAShare`] for the first percent the walk reaches that is not a
/// share.
pub fn sweep_percents(from: u32, to: u32, step: u32) -> (percents: Result<Vec<u32>, SweepRefusal>)
    ensures
        match percents {
            Ok(p) => spec_sweep(from, to, step) == Ok::<Seq<u32>, SweepRefusal>(p@),
            Err(e) => spec_sweep(from, to, step) == Err::<Seq<u32>, SweepRefusal>(e),
        },
{
    if step == 0 {
        return Err(SweepRefusal::NoStep);
    }
    if from > to {
        return Err(SweepRefusal::Backwards { from, to });
    }
    let ghost whole = walk(from, to, step);
    proof {
        lemma_walk_shape(from, to, step);
    }
    let mut percents: Vec<u32> = Vec::new();
    let mut percent = from;
    loop
        invariant
            step > 0,
            from <= percent <= to,
            whole == walk(from, to, step),
            percents@ + walk(percent, to, step) == whole,
            forall|j: int| 0 <= j < percents@.len() ==> is_share(#[trigger] percents@[j]),
        decreases to - percent,
    {
        proof {
            lemma_walk_shape(percent, to, step);
        }
        if percent == 0 || percent > 100 {
            proof {
                let i = percents@.len() as int;
                assert(whole[i] == percent);
                assert forall|j: int| 0 <= j < i implies is_share(#[trigger] whole[j]) by {
                    assert(whole[j] == percents@[j]);
                }
                let k = choose|k: int|
                    0 <= k < whole.len() && !is_share(#[trigger] whole[k]) && forall|j: int|
                        0 <= j < k ==> is_share(#[trigger] whole[j]);
                if k < i {
                    assert(!is_share(whole[k]));
                    assert(is_share(whole[k]));
                } else if k > i {
                    assert(is_share(whole[i]));
                }
            }
            return Err(SweepRefusal::NotAShare { percent });
        }
        percents.push(percent);
        let next = percent.saturating_add(step);
        if next > to || next <= percent {
            proof {
                assert(walk(percent, to, step) == seq![percent]);
                assert(percents@ =~= whole);
                assert forall|j: int| 0 <= j < whole.len() implies is_share(#[trigger] whole[j]) by {
                    assert(whole[j] == percents@[j]);
                }
            }
            return Ok(percents);
        }
        proof {
            assert(walk(percent, to, step) == seq![percent] + walk(next, to, step));
            assert(percents@ + walk(next, to, step) =~= whole);
        }
        percent = next;
    }
}

/// The failure a refused sweep is reported with, for the two refusals that are relations between the
/// flags; a percent that is not a share is reported with the share's own reason.
pub fn sweep_failure(refusal: &SweepRefusal) -> (failure: Option<Failure>)
    ensures
        refusal is NotAShare <==> failure is None,
        failure matches Some(f) ==> f.code == EXIT_BAD_INPUT,
        refusal is NoStep ==> (failure matches Some(f) && f.message@
            == "a sweep's step must be at least one percent; a step of zero never reaches its end"@),
        refusal matches SweepRefusal::Backwards { from, to } ==> (failure matches Some(f) && f.message@
            == "a sweep runs from the smaller share to the larger; "@ + decimal(from as nat) + "% is above "@
            + decimal(to as nat) + "%"@),
{
    match refusal {
        SweepRefusal::NoStep => Some(
            Failure::bad_input(
                "a sweep's step must be at least one percent; a step of zero never reaches its end".to_owned(),
            ),
        ),
        SweepRefusal::Backwards { from, to } => {
            let mut message = "a sweep runs from the smaller share to the larger; ".to_owned();
            push_decimal(&mut message, *from as u64);
            push_str(&mut message, "% is above ");
            push_decimal(&mut message, *to as u64);
            push_str(&mut message, "%");
            Some(Failure::bad_input(message))
        },
        SweepRefusal::NotAShare { .. } => None,
    }
}

} // verus!
