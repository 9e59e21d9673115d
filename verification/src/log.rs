//! Log lines of the form `[LEVEL] message\n`, kept as bytes in a ring buffer.

use vstd::prelude::*;
use crate::model::{fill, lemma_fill_concat, lemma_fill_push};
use vstd::string::StringSliceAdditionalSpecFns;
use vstd::utf8::{is_ascii_chars, is_ascii_chars_encode_utf8};
use crate::ringbuf::{counter_span, wraps_evenly, SpscRingBuf};

verus! {

/// Number of bytes a `RingLogger` keeps.
pub const LOG_CAPACITY: usize = 1024;

/// Something that records log messages.
pub trait Logger: Send + Sync {
    /// The condition the logger's state keeps between calls.
    spec fn inv(&self) -> bool;

    /// Records `msg` at `level`.
    fn log(&mut self, level: Level, msg: &str)
        requires
            old(self).inv(),
        ensures
            final(self).inv(),
    ;
}

/// Severity of a log message, most severe first.
#[derive(Debug, Clone, Copy, PartialEq, Eq, PartialOrd, Ord)]
pub enum Level {
    Error,
    Warn,
    Info,
    Debug,
}

/// The name a level is written with.
pub open spec fn level_name(level: Level) -> &'static str {
    match level {
        Level::Error => "ERROR",
        Level::Warn => "WARN",
        Level::Info => "INFO",
        Level::Debug => "DEBUG",
    }
}

impl Level {
    /// The upper-case name of the level.
    pub fn as_str(&self) -> (r: &'static str)
        ensures
            r@ == level_name(*self)@,
    {
        match self {
            Level::Error => "ERROR",
            Level::Warn => "WARN",
            Level::Info => "INFO",
            Level::Debug => "DEBUG",
        }
    }
}

/// Different levels are written with different names.
pub proof fn lemma_level_names_distinct(a: Level, b: Level)
    requires
        a != b,
    ensures
        level_name(a)@ != level_name(b)@,
{
    reveal_strlit("ERROR");
    reveal_strlit("WARN");
    reveal_strlit("INFO");
    reveal_strlit("DEBUG");
    assert(level_name(a)@.len() != level_name(b)@.len() || level_name(a)@[0] != level_name(b)@[0]);
}

/// The `usize` counter range is a whole number of `LOG_CAPACITY` blocks.
proof fn lemma_log_capacity_wraps_evenly()
    ensures
        wraps_evenly(LOG_CAPACITY as int),
{
    assert(usize::MAX as int == 0xffff_ffff || usize::MAX as int == 0xffff_ffff_ffff_ffff);
    assert(counter_span() % 1024 == 0);
}

/// The bytes of one log line: `[`, the level name, `] `, the message and a
/// line feed.
pub open spec fn log_line(level: Level, msg: &str) -> Seq<u8> {
    "[".spec_bytes() + level_name(level).spec_bytes() + "] ".spec_bytes() + msg.spec_bytes()
        + "\n".spec_bytes()
}

/// A logger that keeps the bytes it is given in a ring of `LOG_CAPACITY`
/// bytes; bytes that find the ring full are dropped.
pub struct RingLogger {
    ring: SpscRingBuf<u8, LOG_CAPACITY>,
}

impl View for RingLogger {
    type V = Seq<u8>;

    /// The kept bytes, oldest first.
    closed spec fn view(&self) -> Seq<u8> {
        self.ring@
    }
}

impl RingLogger {
    /// The ring is valid.
    pub closed spec fn wf(&self) -> bool {
        self.ring.wf()
    }

    /// A logger with an empty ring.
    pub fn new() -> (r: Self)
        ensures
            r.wf(),
            r@ == Seq::<u8>::empty(),
    {
        RingLogger { ring: SpscRingBuf::new() }
    }

    /// Hands over the ring with the kept bytes.
    pub fn into_ring(self) -> (r: SpscRingBuf<u8, LOG_CAPACITY>)
        requires
            self.wf(),
        ensures
            r.wf(),
            r@ == self@,
    {
        self.ring
    }

    /// Appends `bytes` to the ring, as many as fit; the rest are dropped.
    pub fn write_bytes(&mut self, bytes: &[u8])
        requires
            old(self).wf(),
        ensures
            final(self).wf(),
            final(self)@ == fill(old(self)@, LOG_CAPACITY as nat, bytes@),
    {
        let ghost start = self.ring@;
        proof {
            lemma_log_capacity_wraps_evenly();
            self.ring.lemma_len_at_most_capacity();
            assert(bytes@.take(0) =~= Seq::<u8>::empty());
            assert(fill(start, LOG_CAPACITY as nat, bytes@.take(0)) =~= start);
        }
        let mut i: usize = 0;
        while i < bytes.len()
            invariant
                i <= bytes@.len(),
                self.ring.wf(),
                start.len() <= LOG_CAPACITY,
                wraps_evenly(LOG_CAPACITY as int),
                self.ring@ == fill(start, LOG_CAPACITY as nat, bytes@.take(i as int)),
            decreases bytes@.len() - i,
        {
            let b = bytes[i];
            let _ = self.ring.push(b);
            proof {
                lemma_fill_push(start, LOG_CAPACITY as nat, bytes@.take(i as int), b);
                assert(bytes@.take(i as int).push(b) =~= bytes@.take(i + 1));
            }
            i = i + 1;
        }
        proof {
            assert(bytes@.take(i as int) =~= bytes@);
        }
    }
}

impl Logger for RingLogger {
    open spec fn inv(&self) -> bool {
        self.wf()
    }

    /// Writes `[LEVEL] msg` and a line feed, as far as the ring has room.
    fn log(&mut self, level: Level, msg: &str)
        ensures
            final(self)@ == fill(old(self)@, LOG_CAPACITY as nat, log_line(level, msg)),
            final(self)@ == fill(
                old(self)@,
                LOG_CAPACITY as nat,
                seq![91u8] + level_code(level) + seq![93u8, 32u8] + msg.spec_bytes() + seq![10u8],
            ),
    {
        let ghost start = self@;
        proof {
            self.ring.lemma_len_at_most_capacity();
        }
        let open = "[";
        let name = level.as_str();
        let close = "] ";
        let end = "\n";
        self.write_bytes(open.as_bytes());
        self.write_bytes(name.as_bytes());
        self.write_bytes(close.as_bytes());
        self.write_bytes(msg.as_bytes());
        self.write_bytes(end.as_bytes());
        proof {
            let cap = LOG_CAPACITY as nat;
            let a = open.spec_bytes();
            let b = name.spec_bytes();
            let c = close.spec_bytes();
            let d = msg.spec_bytes();
            let e = end.spec_bytes();
            assert(b == level_name(level).spec_bytes());
            lemma_fill_concat(start, cap, a, b);
            lemma_fill_concat(start, cap, a + b, c);
            lemma_fill_concat(start, cap, a + b + c, d);
            lemma_fill_concat(start, cap, a + b + c + d, e);
            lemma_log_line_layout(level, msg);
        }
    }
}

/// The ASCII codes of a level's name: `ERROR`, `WARN`, `INFO`, `DEBUG`.
pub open spec fn level_code(level: Level) -> Seq<u8> {
    match level {
        Level::Error => seq![69u8, 82u8, 82u8, 79u8, 82u8],
        Level::Warn => seq![87u8, 65u8, 82u8, 78u8],
        Level::Info => seq![73u8, 78u8, 70u8, 79u8],
        Level::Debug => seq![68u8, 69u8, 66u8, 85u8, 71u8],
    }
}

/// The name `as_str` returns for a level is written as the bytes of
/// `level_code`.
pub proof fn lemma_level_name_bytes(level: Level)
    ensures
        level_name(level).spec_bytes() == level_code(level),
{
    reveal_strlit("ERROR");
    reveal_strlit("WARN");
    reveal_strlit("INFO");
    reveal_strlit("DEBUG");
    let chars = level_name(level)@;
    assert(is_ascii_chars(chars));
    is_ascii_chars_encode_utf8(chars);
    assert(level_name(level).spec_bytes() =~= level_code(level));
}

/// A log line is `[` (code 91), the level's name, `]` and a space (codes
/// 93 and 32), every byte of the message in order, and a line feed (code
/// 10).
pub proof fn lemma_log_line_layout(level: Level, msg: &str)
    ensures
        log_line(level, msg) == seq![91u8] + level_code(level) + seq![93u8, 32u8] + msg.spec_bytes()
            + seq![10u8],
        log_line(level, msg).len() == level_code(level).len() + msg.spec_bytes().len() + 4,
{
    lemma_level_name_bytes(level);
    reveal_strlit("[");
    reveal_strlit("] ");
    reveal_strlit("\n");
    assert(is_ascii_chars("["@));
    assert(is_ascii_chars("] "@));
    assert(is_ascii_chars("\n"@));
    is_ascii_chars_encode_utf8("["@);
    is_ascii_chars_encode_utf8("] "@);
    is_ascii_chars_encode_utf8("\n"@);
    assert("[".spec_bytes() =~= seq![91u8]);
    assert("] ".spec_bytes() =~= seq![93u8, 32u8]);
    assert("\n".spec_bytes() =~= seq![10u8]);
}

/// When the line fits, `log` appends exactly the line: `[`, the level's
/// name, `] `, the whole message and a line feed, after the bytes already
/// kept; the message bytes stand in full between `] ` and the line feed.
pub proof fn lemma_log_appends_line(before: Seq<u8>, after: Seq<u8>, level: Level, msg: &str)
    requires
        after == fill(before, LOG_CAPACITY as nat, log_line(level, msg)),
        before.len() + log_line(level, msg).len() <= LOG_CAPACITY,
    ensures
        after == before + seq![91u8] + level_code(level) + seq![93u8, 32u8] + msg.spec_bytes()
            + seq![10u8],
        after.len() == before.len() + level_code(level).len() + msg.spec_bytes().len() + 4,
        after.subrange(
            (before.len() + level_code(level).len() + 3) as int,
            (before.len() + level_code(level).len() + 3 + msg.spec_bytes().len()) as int,
        ) == msg.spec_bytes(),
        after.subrange(before.len() as int, (before.len() + level_code(level).len() + 3) as int)
            == seq![91u8] + level_code(level) + seq![93u8, 32u8],
        after.last() == 10u8,
{
    lemma_log_line_layout(level, msg);
    let line = log_line(level, msg);
    assert(after == before + line);
    let k = level_code(level).len() as int;
    let b = before.len() as int;
    let m = msg.spec_bytes();
    assert(after =~= before + seq![91u8] + level_code(level) + seq![93u8, 32u8] + m + seq![10u8]);
    assert(after.subrange(b + k + 3, b + k + 3 + m.len()) =~= m);
    assert(after.subrange(b, b + k + 3) =~= seq![91u8] + level_code(level) + seq![93u8, 32u8]);
}

} // verus!
