use vstd::prelude::*;
use vstd::slice::slice_subrange;
use vstd::string::StringSliceAdditionalSpecFns;
use vstd::utf8::is_continuation_byte;

verus! {

/// The most bytes of a message that one record carries.
pub const MAX_MSG_LEN: usize = 960;

/// The size of the buffer: a full record, the mark that it goes on, and the closing zero.
pub const BUFSZ: usize = 967;

/// The mark at the start of a record that continues the one before.
pub open spec fn dots_start() -> Seq<u8> {
    "[...] ".spec_bytes()
}

/// The mark at the end of a record that the next one continues.
pub open spec fn dots_end() -> Seq<u8> {
    " [...]".spec_bytes()
}

/// Both marks are six bytes long.
pub proof fn lemma_marks()
    ensures
        dots_start().len() == 6,
        dots_end().len() == 6,
{
    reveal_strlit("[...] ");
    reveal_strlit(" [...]");
    broadcast use vstd::string::is_ascii_spec_bytes;

    assert(vstd::string::is_ascii("[...] "));
    assert(vstd::string::is_ascii(" [...]"));
}

/// Whether `index` is where a character of UTF-8 text starts or where the text ends: the
/// start, the end, or a byte within that is no continuation byte.
pub open spec fn is_boundary(bytes: Seq<u8>, index: int) -> bool {
    index == 0 || index == bytes.len() || (0 < index < bytes.len() && !is_continuation_byte(
        bytes[index],
    ))
}

/// The last boundary at or before `max`.
pub open spec fn floor_boundary(bytes: Seq<u8>, max: int) -> int
    decreases max,
{
    if max <= 0 || is_boundary(bytes, max) {
        max
    } else {
        floor_boundary(bytes, max - 1)
    }
}

/// Blank, tab, line feed, form feed and carriage return.
pub open spec fn is_ascii_space(b: u8) -> bool {
    b == 0x20 || b == 0x09 || b == 0x0a || b == 0x0c || b == 0x0d
}

/// The position of the last white space before `end`, or `end` where there is none.
pub open spec fn last_space(bytes: Seq<u8>, end: int) -> int
    decreases end,
{
    if end <= 0 || end > bytes.len() {
        end
    } else if is_ascii_space(bytes[end - 1]) {
        end - 1
    } else {
        let found = last_space(bytes, end - 1);
        if found == end - 1 {
            end
        } else {
            found
        }
    }
}

/// Where a message that does not fit into `max_size` bytes is best broken.
///
/// The break is at the last white space before the last character boundary within
/// `max_size`, so that no word is cut; at that boundary where there is no white space; and
/// at `max_size` itself where this would leave nothing before the break.
pub open spec fn suggested_break_at(bytes: Seq<u8>, max_size: int) -> int {
    let boundary = floor_boundary(bytes, max_size);
    let found = last_space(bytes, boundary);
    if found == 0 {
        max_size
    } else {
        found
    }
}

/// The last boundary at or before `max` is a boundary within the text, and no boundary lies
/// between it and `max`.
pub proof fn lemma_floor_boundary(bytes: Seq<u8>, max: int)
    requires
        0 <= max,
    ensures
        0 <= floor_boundary(bytes, max) <= max,
        floor_boundary(bytes, max) <= bytes.len(),
        is_boundary(bytes, floor_boundary(bytes, max)),
        forall|i: int| floor_boundary(bytes, max) < i <= max ==> !is_boundary(bytes, i),
    decreases max,
{
    if max > 0 && !is_boundary(bytes, max) {
        lemma_floor_boundary(bytes, max - 1);
    }
}

/// The position found is that of a white space after which none follows before `end`; it is
/// `end` exactly where no white space stands before `end`.
pub proof fn lemma_last_space(bytes: Seq<u8>, end: int)
    requires
        0 <= end <= bytes.len(),
    ensures
        0 <= last_space(bytes, end) <= end,
        last_space(bytes, end) < end ==> is_ascii_space(bytes[last_space(bytes, end)]),
        forall|i: int| last_space(bytes, end) < i < end ==> !is_ascii_space(bytes[i]),
        last_space(bytes, end) == end ==> forall|i: int|
            0 <= i < end ==> !is_ascii_space(bytes[i]),
    decreases end,
{
    if end > 0 && !is_ascii_space(bytes[end - 1]) {
        lemma_last_space(bytes, end - 1);
    }
}

/// A break lies within `max_size`, and is at 0 only where `max_size` is 0.
pub proof fn lemma_suggested_break(bytes: Seq<u8>, max_size: int)
    requires
        0 <= max_size,
    ensures
        0 <= suggested_break_at(bytes, max_size) <= max_size,
        suggested_break_at(bytes, max_size) == 0 ==> max_size == 0,
{
    lemma_floor_boundary(bytes, max_size);
    lemma_last_space(bytes, floor_boundary(bytes, max_size));
}

fn continuation(b: u8) -> (out: bool)
    ensures
        out == is_continuation_byte(b),
{
    0x80 <= b && b <= 0xbf
}

fn ascii_space(b: u8) -> (out: bool)
    ensures
        out == is_ascii_space(b),
{
    b == 0x20 || b == 0x09 || b == 0x0a || b == 0x0c || b == 0x0d
}

/// Where the bytes of a message are best broken so that at most `max_size` of them come
/// before the break.
pub fn suggested_break_bytes(bytes: &[u8], max_size: usize) -> (at: usize)
    ensures
        at == suggested_break_at(bytes@, max_size as int),
        at <= max_size,
        at == 0 ==> max_size == 0,
{
    proof {
        lemma_suggested_break(bytes@, max_size as int);
    }
    let mut boundary: usize = max_size;
    while boundary > 0 && !(boundary == bytes.len() || (boundary < bytes.len() && !continuation(
        bytes[boundary],
    )))
        invariant
            boundary <= max_size,
            floor_boundary(bytes@, max_size as int) == floor_boundary(bytes@, boundary as int),
        decreases boundary,
    {
        boundary -= 1;
    }
    proof {
        lemma_floor_boundary(bytes@, max_size as int);
    }
    let mut found: usize = boundary;
    let mut seen: usize = boundary;
    while seen > 0 && found == boundary
        invariant
            seen <= boundary <= bytes.len(),
            found == boundary || found == seen < boundary,
            found == boundary ==> last_space(bytes@, boundary as int) == (if last_space(
                bytes@,
                seen as int,
            ) == seen {
                boundary as int
            } else {
                last_space(bytes@, seen as int)
            }),
            found < boundary ==> last_space(bytes@, boundary as int) == found,
        decreases seen, (if found == boundary { 1int } else { 0int }),
    {
        proof {
            lemma_last_space(bytes@, seen as int);
            lemma_last_space(bytes@, seen as int - 1);
        }
        seen -= 1;
        if ascii_space(bytes[seen]) {
            found = seen;
        }
    }
    proof {
        lemma_last_space(bytes@, seen as int);
    }
    if found == 0 {
        max_size
    } else {
        found
    }
}

/// Where a message that does not fit into `max_size` bytes is best broken: a position in
/// the bytes of its UTF-8 encoding.
pub fn suggested_break(message: &str, max_size: usize) -> (at: usize)
    ensures
        at == suggested_break_at(message.spec_bytes(), max_size as int),
        at <= max_size,
        at == 0 ==> max_size == 0,
{
    suggested_break_bytes(message.as_bytes(), max_size)
}

/// The records that writing `message` after `content` completes, in order, and what is
/// left in the buffer after it.
///
/// While the message does not fit into what is left of a record, the part before the
/// suggested break is written, the record is closed with the mark that it goes on and a
/// zero byte, and the next record starts with the mark that it continues.
pub open spec fn write_plan(content: Seq<u8>, message: Seq<u8>) -> (Seq<Seq<u8>>, Seq<u8>)
    decreases message.len(), content.len(),
{
    let room = MAX_MSG_LEN - content.len();
    if room < 0 || message.len() <= room {
        (Seq::empty(), content + message)
    } else {
        let at = suggested_break_at(message, room);
        proof {
            lemma_suggested_break(message, room);
            lemma_marks();
        }
        let record = content + message.subrange(0, at) + dots_end() + seq![0u8];
        let rest = write_plan(dots_start(), message.subrange(at, message.len() as int));
        (seq![record] + rest.0, rest.1)
    }
}

/// A buffer that gathers the bytes of one log record at a time.
pub struct SysLogWriter {
    buffer: [u8; 967],
    cursor: usize,
    facility: i32,
    priority: i32,
}

impl SysLogWriter {
    /// The bytes gathered for the record under way.
    pub closed spec fn content(&self) -> Seq<u8> {
        self.buffer@.subrange(0, self.cursor as int)
    }

    /// The record under way holds no more than a record may carry.
    pub closed spec fn wf(&self) -> bool {
        self.cursor <= MAX_MSG_LEN
    }

    /// The priority that the records are sent with.
    pub closed spec fn priority(&self) -> i32 {
        self.priority
    }

    /// The facility that the records are sent with.
    pub closed spec fn facility(&self) -> i32 {
        self.facility
    }

    /// A writer with nothing gathered yet.
    pub fn new(priority: i32, facility: i32) -> (writer: SysLogWriter)
        ensures
            writer.wf(),
            writer.content() == Seq::<u8>::empty(),
            writer.priority() == priority,
            writer.facility() == facility,
    {
        let writer = SysLogWriter { buffer: [0u8; 967], cursor: 0, facility, priority };
        proof {
            assert(writer.content() =~= Seq::<u8>::empty());
        }
        writer
    }

    /// The priority that the records are sent with.
    pub fn get_priority(&self) -> (out: i32)
        ensures
            out == self.priority(),
    {
        self.priority
    }

    /// The facility that the records are sent with.
    pub fn get_facility(&self) -> (out: i32)
        ensures
            out == self.facility(),
    {
        self.facility
    }

    /// Adds bytes to the buffer, which has to have room for them.
    fn put(&mut self, bytes: &[u8])
        requires
            old(self).cursor + bytes@.len() <= BUFSZ,
        ensures
            final(self).content() == old(self).content() + bytes@,
            final(self).cursor == old(self).cursor + bytes@.len(),
            final(self).priority == old(self).priority,
            final(self).facility == old(self).facility,
    {
        let ghost before = self.content();
        let start = self.cursor;
        let mut i: usize = 0;
        while i < bytes.len()
            invariant
                i <= bytes.len(),
                start + bytes@.len() <= BUFSZ,
                self.cursor == start,
                self.priority == old(self).priority,
                self.facility == old(self).facility,
                self.buffer@.subrange(0, start as int) == before,
                self.buffer@.subrange(start as int, start + i) == bytes@.subrange(0, i as int),
            decreases bytes.len() - i,
        {
            let ghost held = self.buffer@;
            self.buffer[start + i] = bytes[i];
            proof {
                assert(self.buffer@.subrange(0, start as int) =~= held.subrange(0, start as int));
                assert(self.buffer@.subrange(start as int, start + i + 1) =~= bytes@.subrange(
                    0,
                    i + 1,
                ));
            }
            i += 1;
        }
        self.cursor = start + bytes.len();
        proof {
            assert(bytes@.subrange(0, bytes@.len() as int) =~= bytes@);
            assert(self.content() =~= before + bytes@);
        }
    }

    /// Adds bytes to the record under way. The bytes have to fit: no more of them than
    /// `available` says.
    pub fn append(&mut self, bytes: &[u8])
        requires
            old(self).wf(),
            old(self).content().len() + bytes@.len() <= MAX_MSG_LEN,
        ensures
            final(self).wf(),
            final(self).content() == old(self).content() + bytes@,
            final(self).priority() == old(self).priority(),
            final(self).facility() == old(self).facility(),
    {
        self.put(bytes);
    }

    /// Closes the record under way: hands out its bytes, closed by a zero byte, and leaves
    /// the buffer empty.
    fn commit(&mut self) -> (record: Vec<u8>)
        requires
            old(self).cursor < BUFSZ,
        ensures
            record@ == old(self).content() + seq![0u8],
            final(self).cursor == 0,
            final(self).content() == Seq::<u8>::empty(),
            final(self).priority == old(self).priority,
            final(self).facility == old(self).facility,
    {
        let ghost before = self.content();
        let mut record: Vec<u8> = Vec::new();
        let mut i: usize = 0;
        while i < self.cursor
            invariant
                i <= self.cursor < BUFSZ,
                self.cursor == old(self).cursor,
                self.buffer == old(self).buffer,
                record@ == self.buffer@.subrange(0, i as int),
            decreases self.cursor - i,
        {
            record.push(self.buffer[i]);
            i += 1;
            proof {
                assert(record@ =~= self.buffer@.subrange(0, i as int));
            }
        }
        record.push(0);
        self.cursor = 0;
        proof {
            assert(self.content() =~= Seq::<u8>::empty());
        }
        record
    }

    /// Breaks the record off: closes it with the mark that it goes on, hands it out with its
    /// closing zero byte, and starts the next record with the mark that it continues.
    pub fn line_break(&mut self) -> (record: Vec<u8>)
        requires
            old(self).wf(),
        ensures
            final(self).wf(),
            record@ == old(self).content() + dots_end() + seq![0u8],
            final(self).content() == dots_start(),
            final(self).priority() == old(self).priority(),
            final(self).facility() == old(self).facility(),
    {
        proof {
            lemma_marks();
        }
        self.put(" [...]".as_bytes());
        let record = self.commit();
        self.put("[...] ".as_bytes());
        proof {
            assert(self.content() =~= dots_start());
        }
        record
    }

    /// Closes the last record and hands it out with its closing zero byte.
    pub fn finish(self) -> (record: Vec<u8>)
        requires
            self.wf(),
        ensures
            record@ == self.content() + seq![0u8],
    {
        let mut writer = self;
        writer.commit()
    }

    /// How many more bytes the record under way can take.
    pub fn available(&self) -> (room: usize)
        requires
            self.wf(),
        ensures
            room == MAX_MSG_LEN - self.content().len(),
    {
        MAX_MSG_LEN - self.cursor
    }

    /// Writes a message, breaking it into records where it does not fit, and hands out the
    /// records that were completed, in order.
    pub fn write_str(&mut self, message: &str) -> (records: Vec<Vec<u8>>)
        requires
            old(self).wf(),
        ensures
            final(self).wf(),
            records.deep_view() == write_plan(old(self).content(), message.spec_bytes()).0,
            final(self).content() == write_plan(old(self).content(), message.spec_bytes()).1,
            final(self).priority() == old(self).priority(),
            final(self).facility() == old(self).facility(),
    {
        let bytes = message.as_bytes();
        let ghost whole = write_plan(self.content(), bytes@);
        let mut records: Vec<Vec<u8>> = Vec::new();
        let mut start: usize = 0;
        proof {
            assert(bytes@.subrange(0, bytes@.len() as int) =~= bytes@);
            assert(records.deep_view() + whole.0 =~= whole.0);
        }
        loop
            invariant
                start <= bytes.len(),
                self.wf(),
                self.priority == old(self).priority,
                self.facility == old(self).facility,
                bytes@ == message.spec_bytes(),
                whole == write_plan(old(self).content(), bytes@),
                whole.0 == records.deep_view() + write_plan(
                    self.content(),
                    bytes@.subrange(start as int, bytes@.len() as int),
                ).0,
                whole.1 == write_plan(
                    self.content(),
                    bytes@.subrange(start as int, bytes@.len() as int),
                ).1,
            decreases bytes.len() - start, self.cursor,
        {
            let rest = slice_subrange(bytes, start, bytes.len());
            let room = self.available();
            if rest.len() > room {
                let ghost content = self.content();
                let ghost done = records.deep_view();
                let at = suggested_break_bytes(rest, room);
                self.put(slice_subrange(rest, 0, at));
                let record = self.line_break();
                let ghost r = record@;
                proof {
                    assert(record.deep_view() =~= r);
                }
                records.push(record);
                start = start + at;
                proof {
                    let after = write_plan(dots_start(), rest@.subrange(at as int, rest@.len() as int));
                    assert(rest@.subrange(at as int, rest@.len() as int) =~= bytes@.subrange(
                        start as int,
                        bytes@.len() as int,
                    ));
                    assert(records.deep_view() =~= done.push(r));
                    assert(done + (seq![r] + after.0) =~= done.push(r) + after.0);
                    lemma_marks();
                }
            } else {
                self.put(rest);
                proof {
                    assert(records.deep_view() + Seq::<Seq<u8>>::empty() =~= records.deep_view());
                }
                return records;
            }
        }
    }
}

/// The levels of a log record, most severe first.
#[derive(Clone, Copy, PartialEq, Eq, Structural, Debug)]
pub enum Level {
    Error,
    Warn,
    Info,
    Debug,
    Trace,
}

/// The most verbose level that is let through; `Off` lets nothing through.
#[derive(Clone, Copy, PartialEq, Eq, Structural, Debug)]
pub enum LevelFilter {
    Off,
    Error,
    Warn,
    Info,
    Debug,
    Trace,
}

/// The rank of a level: 1 for `Error` up to 5 for `Trace`.
pub open spec fn level_rank(level: Level) -> int {
    match level {
        Level::Error => 1,
        Level::Warn => 2,
        Level::Info => 3,
        Level::Debug => 4,
        Level::Trace => 5,
    }
}

/// The rank of a filter: 0 for `Off`, then as the levels.
pub open spec fn filter_rank(filter: LevelFilter) -> int {
    match filter {
        LevelFilter::Off => 0,
        LevelFilter::Error => 1,
        LevelFilter::Warn => 2,
        LevelFilter::Info => 3,
        LevelFilter::Debug => 4,
        LevelFilter::Trace => 5,
    }
}

/// The priority that a level is sent with: errors as errors, warnings as warnings,
/// information as information, and both debug and trace records as debug records.
pub open spec fn priority_of(level: Level) -> i32 {
    match level {
        Level::Error => 3,
        Level::Warn => 4,
        Level::Info => 6,
        Level::Debug => 7,
        Level::Trace => 7,
    }
}

/// The facility that all records are sent to: security and authorization.
pub open spec fn auth_facility() -> i32 {
    32
}

/// `libc::LOG_ERR`, which libc defines as 3.
#[verifier::external_body]
fn log_err() -> (priority: i32)
    ensures
        priority == 3,
{
    libc::LOG_ERR
}

/// `libc::LOG_WARNING`, which libc defines as 4.
#[verifier::external_body]
fn log_warning() -> (priority: i32)
    ensures
        priority == 4,
{
    libc::LOG_WARNING
}

/// `libc::LOG_INFO`, which libc defines as 6.
#[verifier::external_body]
fn log_info() -> (priority: i32)
    ensures
        priority == 6,
{
    libc::LOG_INFO
}

/// `libc::LOG_DEBUG`, which libc defines as 7.
#[verifier::external_body]
fn log_debug() -> (priority: i32)
    ensures
        priority == 7,
{
    libc::LOG_DEBUG
}

/// `libc::LOG_AUTH`, which libc defines as 4 shifted left by 3, that is 32.
#[verifier::external_body]
fn log_auth() -> (facility: i32)
    ensures
        facility == 32,
{
    libc::LOG_AUTH
}

/// What a logger hands over for one log record: the records to send, in order, each closed
/// by a zero byte, and the priority and facility to send them with.
#[derive(Debug, PartialEq, Eq)]
pub struct LogOutput {
    pub priority: i32,
    pub facility: i32,
    pub records: Vec<Vec<u8>>,
}

/// The records that a message makes: those completed while it is written, then the last.
pub open spec fn records_of(message: Seq<u8>) -> Seq<Seq<u8>> {
    let plan = write_plan(Seq::empty(), message);
    plan.0.push(plan.1 + seq![0u8])
}

/// The logger that sends to the system log.
#[derive(Clone, Copy, Debug)]
pub struct Syslog;

impl Syslog {
    /// Whether a record of `level` is let through by both filters.
    pub fn enabled(&self, level: Level, max_level: LevelFilter, static_max_level: LevelFilter)
        -> (out: bool)
        ensures
            out == (level_rank(level) <= filter_rank(max_level) && level_rank(level)
                <= filter_rank(static_max_level)),
    {
        let rank: u8 = match level {
            Level::Error => 1,
            Level::Warn => 2,
            Level::Info => 3,
            Level::Debug => 4,
            Level::Trace => 5,
        };
        rank <= Self::rank_of(max_level) && rank <= Self::rank_of(static_max_level)
    }

    fn rank_of(filter: LevelFilter) -> (rank: u8)
        ensures
            rank == filter_rank(filter),
    {
        match filter {
            LevelFilter::Off => 0,
            LevelFilter::Error => 1,
            LevelFilter::Warn => 2,
            LevelFilter::Info => 3,
            LevelFilter::Debug => 4,
            LevelFilter::Trace => 5,
        }
    }

    /// The priority that a record of `level` is sent with.
    pub fn priority(level: Level) -> (out: i32)
        ensures
            out == priority_of(level),
    {
        match level {
            Level::Error => log_err(),
            Level::Warn => log_warning(),
            Level::Info => log_info(),
            Level::Debug => log_debug(),
            Level::Trace => log_debug(),
        }
    }

    /// Turns one log record into the records to send.
    pub fn log(&self, level: Level, message: &str) -> (out: LogOutput)
        ensures
            out.priority == priority_of(level),
            out.facility == auth_facility(),
            out.records.deep_view() == records_of(message.spec_bytes()),
    {
        let mut writer = SysLogWriter::new(Self::priority(level), log_auth());
        let mut records = writer.write_str(message);
        let ghost done = records.deep_view();
        let priority = writer.get_priority();
        let facility = writer.get_facility();
        let last = writer.finish();
        let ghost l = last@;
        proof {
            assert(last.deep_view() =~= l);
        }
        records.push(last);
        proof {
            assert(records.deep_view() =~= done.push(l));
        }
        LogOutput { priority, facility, records }
    }
}

/// On the bytes of a text, the boundaries are the character boundaries of the text.
pub proof fn lemma_boundary_of_text(message: &str, index: int)
    ensures
        is_boundary(message.spec_bytes(), index) == vstd::utf8::is_char_boundary(
            message.spec_bytes(),
            index,
        ),
{
    let bytes = message.spec_bytes();
    vstd::utf8::encode_utf8_valid_utf8(message@);
    vstd::utf8::is_char_boundary_start_end_of_seq(bytes);
    if 0 < index < bytes.len() {
        vstd::utf8::is_char_boundary_iff_not_is_continuation_byte(bytes, index);
    }
}

/// Every record that a write completes fits the buffer and ends with a zero byte, and what
/// is left in the buffer is no more than a record may carry.
pub proof fn lemma_write_plan_fits(content: Seq<u8>, message: Seq<u8>)
    requires
        content.len() <= MAX_MSG_LEN,
    ensures
        write_plan(content, message).1.len() <= MAX_MSG_LEN,
        forall|k: int|
            0 <= k < write_plan(content, message).0.len() ==> {
                let record = #[trigger] write_plan(content, message).0[k];
                0 < record.len() <= BUFSZ && record.last() == 0
            },
    decreases message.len(), content.len(),
{
    let room = MAX_MSG_LEN - content.len();
    if message.len() > room {
        let at = suggested_break_at(message, room);
        lemma_suggested_break(message, room);
        lemma_marks();
        let rest = write_plan(dots_start(), message.subrange(at, message.len() as int));
        lemma_write_plan_fits(dots_start(), message.subrange(at, message.len() as int));
        let record = content + message.subrange(0, at) + dots_end() + seq![0u8];
        assert forall|k: int| 0 <= k < write_plan(content, message).0.len() implies {
            let r = #[trigger] write_plan(content, message).0[k];
            0 < r.len() <= BUFSZ && r.last() == 0
        } by {
            if k == 0 {
                assert(write_plan(content, message).0[0] == record);
            } else {
                assert(write_plan(content, message).0[k] == rest.0[k - 1]);
            }
        }
    }
}

} // verus!
