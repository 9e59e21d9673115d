use buffers::log::LOG_CAPACITY;
use buffers::{Level, Logger, RingLogger};

fn drain(logger: RingLogger) -> String {
    let mut ring = logger.into_ring();
    let mut output = String::new();
    while let Some(b) = ring.pop() {
        output.push(b as char);
    }
    output
}

#[test]
fn write_and_read() {
    let mut logger = RingLogger::new();

    logger.write_bytes(b"[INFO] Hello, World!\n");
    logger.write_bytes(b"[DEBUG] x = 42\n");
    logger.write_bytes(b"[ERROR] Something went wrong\n");

    let output = drain(logger);
    println!("{}", &output);

    assert_eq!(output, "[INFO] Hello, World!\n[DEBUG] x = 42\n[ERROR] Something went wrong\n");
}

#[test]
fn level_names() {
    assert_eq!(Level::Error.as_str(), "ERROR");
    assert_eq!(Level::Warn.as_str(), "WARN");
    assert_eq!(Level::Info.as_str(), "INFO");
    assert_eq!(Level::Debug.as_str(), "DEBUG");
}

#[test]
fn level_order_most_severe_first() {
    assert!(Level::Error < Level::Warn);
    assert!(Level::Warn < Level::Info);
    assert!(Level::Info < Level::Debug);
}

#[test]
fn log_writes_level_and_message() {
    let mut logger = RingLogger::new();
    logger.log(Level::Warn, "disk at 91%");
    logger.log(Level::Debug, "x = 42");
    assert_eq!(drain(logger), "[WARN] disk at 91%\n[DEBUG] x = 42\n");
}

#[test]
fn full_ring_drops_the_rest() {
    let mut logger = RingLogger::new();
    let first = vec![b'a'; LOG_CAPACITY - 3];
    logger.write_bytes(&first);
    logger.write_bytes(b"xyz-dropped");
    logger.write_bytes(b"also dropped");
    let out = drain(logger);
    assert_eq!(out.len(), LOG_CAPACITY);
    assert!(out.ends_with("aaxyz"));
}

#[test]
fn split_writes_equal_one_write() {
    let mut a = RingLogger::new();
    a.write_bytes(b"hello ");
    a.write_bytes(b"world");
    let mut b = RingLogger::new();
    b.write_bytes(b"hello world");
    assert_eq!(drain(a), drain(b));
}
