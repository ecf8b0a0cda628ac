//! The pool of log records shown by the editor's log section.
use vstd::prelude::*;

verus! {

/// Severity of a log record, from the most to the least severe.
#[derive(Clone, Copy, PartialEq, Eq, Debug)]
pub enum LogLevel {
    Error,
    Warn,
    Info,
    Debug,
    Trace,
}

/// The records kept so far, oldest first.
pub struct LogPool {
    entries: Vec<(LogLevel, String)>,
}

/// The plain value of one record.
pub open spec fn record_view(e: (LogLevel, String)) -> (LogLevel, Seq<char>) {
    (e.0, e.1@)
}

/// The plain values of a list of records.
pub open spec fn records_view(v: Seq<(LogLevel, String)>) -> Seq<(LogLevel, Seq<char>)> {
    v.map_values(|e: (LogLevel, String)| record_view(e))
}

impl View for LogPool {
    type V = Seq<(LogLevel, Seq<char>)>;

    closed spec fn view(&self) -> Seq<(LogLevel, Seq<char>)> {
        records_view(self.entries@)
    }
}

impl LogPool {
    /// An empty pool.
    pub fn new() -> (r: Self)
        ensures
            r@ == Seq::<(LogLevel, Seq<char>)>::empty(),
    {
        let r = LogPool { entries: Vec::new() };
        proof {
            assert(r@ =~= Seq::<(LogLevel, Seq<char>)>::empty());
        }
        r
    }

    /// Adds a record at the end of the pool.
    pub fn record(&mut self, level: LogLevel, message: String)
        ensures
            final(self)@ == old(self)@.push((level, message@)),
    {
        self.entries.push((level, message));
        proof {
            assert(self@ =~= old(self)@.push((level, message@)));
        }
    }
}

/// Reads the logs. Read triggers a copy of the log.
pub fn read_logs(pool: &LogPool) -> (r: Vec<(LogLevel, String)>)
    ensures
        records_view(r@) == pool@,
{
    let mut copy: Vec<(LogLevel, String)> = Vec::new();
    let mut i: usize = 0;
    while i < pool.entries.len()
        invariant
            i <= pool.entries@.len(),
            records_view(copy@) =~= records_view(pool.entries@.take(i as int)),
        decreases pool.entries@.len() - i,
    {
        let ghost before = copy@;
        let entry = &pool.entries[i];
        let level: LogLevel = entry.0;
        let message: String = entry.1.clone();
        copy.push((level, message));
        proof {
            assert(record_view(copy@.last()) == record_view(pool.entries@[i as int]));
            assert(copy@ == before.push(copy@.last()));
            assert(records_view(copy@) =~= records_view(before).push(record_view(copy@.last())));
            assert(pool.entries@.take(i + 1) =~= pool.entries@.take(i as int).push(
                pool.entries@[i as int],
            ));
            assert(records_view(copy@) =~= records_view(pool.entries@.take(i + 1)));
        }
        i = i + 1;
    }
    proof {
        assert(pool.entries@.take(i as int) =~= pool.entries@);
    }
    copy
}

/// Removes all the logs from the pool.
pub fn clean_logs(pool: &mut LogPool)
    ensures
        final(pool)@ == Seq::<(LogLevel, Seq<char>)>::empty(),
{
    pool.entries.clear();
    proof {
        assert(pool@ =~= Seq::<(LogLevel, Seq<char>)>::empty());
    }
}

/// Rank of a level: 1 for errors up to 5 for traces.
pub open spec fn level_rank(level: LogLevel) -> int {
    match level {
        LogLevel::Error => 1,
        LogLevel::Warn => 2,
        LogLevel::Info => 3,
        LogLevel::Debug => 4,
        LogLevel::Trace => 5,
    }
}

/// Whether a record of `level` passes the maximum level `max_level`
/// (`None` when logging is switched off): it passes when it is at least as
/// severe as the maximum.
pub open spec fn passes(level: LogLevel, max_level: Option<LogLevel>) -> bool {
    match max_level {
        Some(m) => level_rank(level) <= level_rank(m),
        None => false,
    }
}

/// The levels are ordered Error, Warn, Info, Debug, Trace, from the most to
/// the least severe: a record passes a maximum level exactly when it is at
/// least as severe; an error passes every maximum, every record passes
/// Trace, nothing passes when logging is off, and each level is strictly
/// more severe than the next.
pub proof fn law_level_order()
    ensures
        forall|m: LogLevel| passes(LogLevel::Error, Some(m)),
        forall|l: LogLevel| passes(l, Some(LogLevel::Trace)),
        forall|l: LogLevel| passes(l, Some(l)),
        forall|l: LogLevel| !passes(l, None),
        !passes(LogLevel::Warn, Some(LogLevel::Error)),
        !passes(LogLevel::Info, Some(LogLevel::Warn)),
        !passes(LogLevel::Debug, Some(LogLevel::Info)),
        !passes(LogLevel::Trace, Some(LogLevel::Debug)),
        forall|a: LogLevel, b: LogLevel, c: LogLevel|
            passes(a, Some(b)) && passes(b, Some(c)) ==> passes(a, Some(c)),
        forall|a: LogLevel, b: LogLevel| passes(a, Some(b)) || passes(b, Some(a)),
{
}

fn rank(level: LogLevel) -> (r: u8)
    ensures
        r == level_rank(level),
{
    match level {
        LogLevel::Error => 1,
        LogLevel::Warn => 2,
        LogLevel::Info => 3,
        LogLevel::Debug => 4,
        LogLevel::Trace => 5,
    }
}

/// The logger that feeds the editor's log section.
pub struct GuiLogger;

impl GuiLogger {
    /// Whether a record of `level` is kept, given the maximum level the
    /// logging facade was built with (`None` when it was built with logging
    /// off).
    pub fn enabled(&self, level: LogLevel, max_level: Option<LogLevel>) -> (r: bool)
        ensures
            r == passes(level, max_level),
    {
        match max_level {
            Some(m) => rank(level) <= rank(m),
            None => false,
        }
    }

    /// Records the message in the pool when its level is enabled, and
    /// leaves the pool as it was otherwise.
    pub fn log(&self, pool: &mut LogPool, level: LogLevel, max_level: Option<LogLevel>, message: String)
        ensures
            passes(level, max_level) ==> final(pool)@ == old(pool)@.push((level, message@)),
            !passes(level, max_level) ==> final(pool)@ == old(pool)@,
    {
        if self.enabled(level, max_level) {
            pool.record(level, message);
        }
    }
}

/// Color of the level label of a record in the log section; `None` keeps
/// the default text color.
#[derive(Clone, Copy, PartialEq, Eq, Debug)]
pub enum LabelColor {
    Red,
    Yellow,
    Brown,
    Blue,
}

/// The color of the level label: red for errors, yellow for warnings,
/// brown for debug records, blue for traces, and the default for
/// information.
pub fn label_color(level: LogLevel) -> (r: Option<LabelColor>)
    ensures
        level == LogLevel::Error ==> r == Some(LabelColor::Red),
        level == LogLevel::Warn ==> r == Some(LabelColor::Yellow),
        level == LogLevel::Info ==> r == None::<LabelColor>,
        level == LogLevel::Debug ==> r == Some(LabelColor::Brown),
        level == LogLevel::Trace ==> r == Some(LabelColor::Blue),
{
    match level {
        LogLevel::Error => Some(LabelColor::Red),
        LogLevel::Warn => Some(LabelColor::Yellow),
        LogLevel::Info => None,
        LogLevel::Debug => Some(LabelColor::Brown),
        LogLevel::Trace => Some(LabelColor::Blue),
    }
}

/// A record written to the pool is read back last, after the records that
/// were there before, and the copy has one record more: `after` is the pool
/// once `record` has added the record, `read` what `read_logs` gives of it.
pub proof fn law_read_after_record(
    before: Seq<(LogLevel, Seq<char>)>,
    level: LogLevel,
    message: Seq<char>,
    after: Seq<(LogLevel, Seq<char>)>,
    read: Seq<(LogLevel, String)>,
)
    requires
        after == before.push((level, message)),
        records_view(read) == after,
    ensures
        read.len() == before.len() + 1,
        read.last().0 == level,
        read.last().1@ == message,
        records_view(read.drop_last()) == before,
{
    assert(records_view(read).len() == read.len());
    assert(records_view(read)[read.len() - 1] == record_view(read.last()));
    assert(records_view(read.drop_last()) =~= records_view(read).drop_last());
    assert(before.push((level, message)).drop_last() =~= before);
}

/// Nothing is read back from a pool that was cleaned: `read` is what
/// `read_logs` gives of the pool once `clean_logs` has emptied it.
pub proof fn law_read_after_clean(cleaned: Seq<(LogLevel, Seq<char>)>, read: Seq<(LogLevel, String)>)
    requires
        cleaned == Seq::<(LogLevel, Seq<char>)>::empty(),
        records_view(read) == cleaned,
    ensures
        read.len() == 0,
{
    assert(records_view(read).len() == read.len());
}

} // verus!
