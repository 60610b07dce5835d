use sudo_policy::syslog::{
    suggested_break, Level, LevelFilter, LogOutput, SysLogWriter, Syslog, BUFSZ, MAX_MSG_LEN,
};

const LOG_ERR: i32 = 3;
const LOG_WARNING: i32 = 4;
const LOG_INFO: i32 = 6;
const LOG_DEBUG: i32 = 7;
const FACILITY: i32 = 32;

const DOTDOTDOT_START: &[u8] = b"[...] ";
const DOTDOTDOT_END: &[u8] = b" [...]";

/// What the records carry once the marks and the closing zero bytes are taken away.
fn payload(records: &[Vec<u8>]) -> Vec<u8> {
    let mut out = Vec::new();
    for (i, record) in records.iter().enumerate() {
        let mut body = &record[..];
        assert_eq!(body.last(), Some(&0));
        body = &body[..body.len() - 1];
        if i > 0 {
            assert!(body.starts_with(DOTDOTDOT_START));
            body = &body[DOTDOTDOT_START.len()..];
        }
        if i + 1 < records.len() {
            assert!(body.ends_with(DOTDOTDOT_END));
            body = &body[..body.len() - DOTDOTDOT_END.len()];
        }
        out.extend_from_slice(body);
    }
    out
}

fn check_records(output: &LogOutput) {
    assert!(!output.records.is_empty());
    for record in &output.records {
        assert!(record.len() <= BUFSZ);
        assert_eq!(record.iter().filter(|b| **b == 0).count(), 1);
    }
}

#[test]
fn can_write_to_syslog() {
    let logger = Syslog;
    let output = logger.log(Level::Info, "Hello World!");

    assert_eq!(
        output,
        LogOutput {
            priority: LOG_INFO,
            facility: FACILITY,
            records: vec![b"Hello World!\0".to_vec()],
        }
    );
}

#[test]
fn can_handle_multiple_writes() {
    let mut writer = SysLogWriter::new(LOG_DEBUG, FACILITY);
    let mut records: Vec<Vec<u8>> = Vec::new();
    let mut written = String::new();

    for i in 1..20 {
        let text = "Test 123 ".repeat(i);
        records.extend(writer.write_str(&text));
        written.push_str(&text);
    }
    records.push(writer.finish());

    assert_eq!(records.len(), 2);
    for record in &records {
        assert!(record.len() <= BUFSZ);
    }
    // the break falls on a blank, and no byte is lost at it
    assert!(records[1].starts_with(b"[...]  "));
    assert_eq!(payload(&records), written.as_bytes());
}

#[test]
fn can_truncate_syslog() {
    let logger = Syslog;
    let message = "This is supposed to be a very long syslog message but idk what to write, so I am just going to tell you about the time I tried to make coffee with a teapot. So I woke up one morning and decided to make myself a pot of coffee, however after all the wild coffee parties and mishaps the coffee pot had evetually given it's last cup on a tragic morning I call wednsday. So it came to, that the only object capable of giving me hope for the day was my teapot. As I stood in the kitchen and reached for my teapot it, as if sensing the impending horrors that awaited the innocent little teapot, emmited a horse sheak of desperation. \"three hundred and seven\", it said. \"What?\" I asked with a voice of someone who clearly did not want to be bothered until he had his daily almost medically necessary dose of caffine. \"I am a teapot\" it responded with a voice of increasing forcefulness. \"I am a teapot, not a coffee pot\". It was then, in my moments of confusion that my brain finally understood, this was a teapot.";

    let output = logger.log(Level::Info, message);

    check_records(&output);
    assert_eq!(output.priority, LOG_INFO);
    assert_eq!(output.records.len(), 2);
    // the break is at the last blank within the first 960 bytes
    let at = message[..MAX_MSG_LEN].rfind(' ').unwrap();
    let mut first = message.as_bytes()[..at].to_vec();
    first.extend_from_slice(b" [...]\0");
    let mut second = b"[...] ".to_vec();
    second.extend_from_slice(&message.as_bytes()[at..]);
    second.push(0);
    assert_eq!(output.records, vec![first, second]);
}

#[test]
fn can_truncate_syslog_with_no_spaces() {
    let logger = Syslog;
    let message = "iwillhandlecornercases".repeat(95);
    assert_eq!(message.len(), 2090);

    let output = logger.log(Level::Info, &message);

    check_records(&output);
    assert_eq!(output.records.len(), 3);
    assert_eq!(output.records[0].len(), 960 + 6 + 1);
    assert_eq!(output.records[1].len(), 6 + 954 + 6 + 1);
    assert_eq!(output.records[2].len(), 6 + (2090 - 960 - 954) + 1);
    assert_eq!(payload(&output.records), message.as_bytes());
}

#[test]
fn priority_follows_level() {
    assert_eq!(Syslog::priority(Level::Error), LOG_ERR);
    assert_eq!(Syslog::priority(Level::Warn), LOG_WARNING);
    assert_eq!(Syslog::priority(Level::Info), LOG_INFO);
    assert_eq!(Syslog::priority(Level::Debug), LOG_DEBUG);
    assert_eq!(Syslog::priority(Level::Trace), LOG_DEBUG);
    assert_eq!(Syslog.log(Level::Error, "x").facility, FACILITY);
}

#[test]
fn enabled_asks_both_filters() {
    let logger = Syslog;
    assert!(logger.enabled(Level::Info, LevelFilter::Info, LevelFilter::Trace));
    assert!(logger.enabled(Level::Error, LevelFilter::Error, LevelFilter::Error));
    assert!(!logger.enabled(Level::Debug, LevelFilter::Info, LevelFilter::Trace));
    assert!(!logger.enabled(Level::Debug, LevelFilter::Trace, LevelFilter::Info));
    assert!(!logger.enabled(Level::Error, LevelFilter::Off, LevelFilter::Trace));
}

#[test]
fn break_at_last_blank() {
    assert_eq!(suggested_break("hello brave world", 13), 11);
    assert_eq!(suggested_break("hello brave world", 11), 5);
    assert_eq!(suggested_break("hello\tbrave", 8), 5);
    assert_eq!(suggested_break("hello\nbrave", 8), 5);
}

#[test]
fn break_without_blank_is_at_the_boundary() {
    assert_eq!(suggested_break("helloworld", 4), 4);
    // "é" takes two bytes: 3 is inside the second one
    assert_eq!(suggested_break("éé", 3), 2);
    assert_eq!(suggested_break("éé", 4), 4);
    // beyond the end, the end is the boundary
    assert_eq!(suggested_break("abc", 10), 3);
}

#[test]
fn break_never_leaves_nothing() {
    // the only blank is at the start
    assert_eq!(suggested_break(" abc", 2), 2);
    // no boundary but the start
    assert_eq!(suggested_break("é", 1), 1);
    assert_eq!(suggested_break("abc", 0), 0);
    assert_eq!(suggested_break("", 5), 5);
}

#[test]
fn writer_keeps_count() {
    let mut writer = SysLogWriter::new(LOG_INFO, FACILITY);
    assert_eq!(writer.available(), MAX_MSG_LEN);
    assert_eq!(writer.get_priority(), LOG_INFO);
    assert_eq!(writer.get_facility(), FACILITY);
    writer.append(b"abc");
    assert_eq!(writer.available(), MAX_MSG_LEN - 3);
    let record = writer.line_break();
    assert_eq!(record, b"abc [...]\0".to_vec());
    assert_eq!(writer.available(), MAX_MSG_LEN - 6);
    writer.append(b"def");
    assert_eq!(writer.finish(), b"[...] def\0".to_vec());
}

#[test]
fn full_buffer_breaks_before_the_message() {
    let mut writer = SysLogWriter::new(LOG_INFO, FACILITY);
    let filler = "x".repeat(MAX_MSG_LEN);
    assert!(writer.write_str(&filler).is_empty());
    assert_eq!(writer.available(), 0);
    let records = writer.write_str("more");
    assert_eq!(records.len(), 1);
    assert_eq!(records[0].len(), BUFSZ);
    assert_eq!(writer.finish(), b"[...] more\0".to_vec());
}
