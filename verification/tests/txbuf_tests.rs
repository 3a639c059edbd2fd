use txbuf::IoSink;
use txbuf::MemSink;
use txbuf::RawWrite;
use txbuf::Sink;
use txbuf::TX_BUF_SIZE;
use txbuf::TxBuf;
use txbuf::TxBufFlush;
use txbuf::TxBufFull;

#[test]
fn test_push_nowrap() {
    let mut txbuf = TxBuf::new();
    let mut sink = MemSink::new(2 * TX_BUF_SIZE);
    assert!(txbuf.is_empty());

    assert!(!txbuf.is_allocated());

    txbuf.push(&[1, 2, 3, 4]).unwrap();
    txbuf.push(&[5, 6, 7, 8]).unwrap();
    txbuf.flush_to(&mut sink).unwrap();
    assert_eq!(*sink.contents(), [1, 2, 3, 4, 5, 6, 7, 8]);
    sink.clear();

    txbuf.write(&[10, 11, 12, 13]).unwrap();
    txbuf.write(&[14, 15, 16, 17]).unwrap();

    txbuf.flush_to(&mut sink).unwrap();
    assert_eq!(*sink.contents(), [10, 11, 12, 13, 14, 15, 16, 17]);
    sink.clear();
}

#[test]
fn test_push_wrap() {
    let mut txbuf = TxBuf::new();
    let mut sink = MemSink::new(2 * TX_BUF_SIZE);
    let tmp: Vec<u8> = vec![0; TX_BUF_SIZE - 2];
    txbuf.push(tmp.as_slice()).unwrap();
    txbuf.flush_to(&mut sink).unwrap();
    sink.clear();

    txbuf.push(&[1, 2, 3, 4]).unwrap();
    assert_eq!(txbuf.flush_to(&mut sink).unwrap(), 4);
    assert_eq!(*sink.contents(), [1, 2, 3, 4]);

    sink.clear();

    txbuf.write(&[5, 6, 7, 8]).unwrap();
    assert_eq!(txbuf.flush_to(&mut sink).unwrap(), 4);
    assert_eq!(*sink.contents(), [5, 6, 7, 8]);
}

#[test]
fn test_push_error() {
    let mut txbuf = TxBuf::new();
    let mut tmp: Vec<u8> = Vec::with_capacity(TX_BUF_SIZE);

    tmp.resize(TX_BUF_SIZE - 1, 0);
    txbuf.push(tmp.as_slice()).unwrap();
    match txbuf.push(&[1, 2]) {
        Err(TxBufFull) => (),
        other => panic!("Unexpected result: {:?}", other),
    }
    match txbuf.write(&[1, 2]) {
        Err(err) => {
            assert_eq!(err.message(), "Attempted to push data to a full TX buffer");
        }
        other => panic!("Unexpected result: {:?}", other),
    }
}

#[test]
fn test_incomplete_flush() {
    let mut txbuf = TxBuf::new();
    let mut sink = MemSink::new(2 * TX_BUF_SIZE);

    sink.set_capacity(2);
    txbuf.push(&[1, 2, 3, 4]).unwrap();
    assert_eq!(txbuf.flush_to(&mut sink).unwrap(), 2);
    assert_eq!(txbuf.len(), 2);
    assert_eq!(*sink.contents(), [1, 2]);

    sink.set_capacity(4);
    assert_eq!(txbuf.flush_to(&mut sink).unwrap(), 2);
    assert!(txbuf.is_empty());
    assert_eq!(*sink.contents(), [1, 2, 3, 4]);
}

#[test]
fn test_flush_error() {
    let eaccess: i32 = 13;

    let mut txbuf = TxBuf::new();
    let mut failing = FailingWriter { err: Some(std::io::Error::from_raw_os_error(eaccess)) };

    txbuf.push(&[1, 2, 3, 4]).unwrap();
    let mut sink = IoSink::new(&mut failing);
    match txbuf.flush_to(&mut sink) {
        Err(TxBufFlush(ref err)) if err.kind() == std::io::ErrorKind::PermissionDenied => {}
        other => panic!("Unexpected result: {:?}", other),
    }
}

/// A writer that fails its next write with a configured error.
struct FailingWriter {
    err: Option<std::io::Error>,
}

impl RawWrite for &mut FailingWriter {
    type Error = std::io::Error;

    fn raw_write(&mut self, _src: &[u8]) -> Result<usize, std::io::Error> {
        match self.err.take() {
            Some(e) => Err(e),
            None => Ok(0),
        }
    }
}

#[test]
fn test_lazy_allocation() {
    let mut txbuf = TxBuf::new();
    assert!(txbuf.is_empty());
    assert!(!txbuf.is_allocated());

    // A rejected push must not allocate storage either.
    let oversized: Vec<u8> = vec![0; TX_BUF_SIZE + 1];
    assert!(txbuf.push(oversized.as_slice()).is_err());
    assert!(!txbuf.is_allocated());

    // An empty push succeeds but pushes no byte, so storage stays absent.
    txbuf.push(&[]).unwrap();
    assert!(txbuf.is_empty());
    assert!(!txbuf.is_allocated());

    // Storage materializes when the first byte is pushed, and stays.
    txbuf.push(&[1]).unwrap();
    assert!(txbuf.is_allocated());
    let mut sink = MemSink::new(2 * TX_BUF_SIZE);
    txbuf.flush_to(&mut sink).unwrap();
    assert!(txbuf.is_empty());
    assert!(txbuf.is_allocated());
}

#[test]
fn test_oversized_push_rejected() {
    let mut txbuf = TxBuf::new();
    let oversized: Vec<u8> = vec![7; TX_BUF_SIZE + 1];
    match txbuf.push(oversized.as_slice()) {
        Err(TxBufFull) => (),
        other => panic!("Unexpected result: {:?}", other),
    }
    assert!(txbuf.is_empty());
    assert_eq!(txbuf.len(), 0);
}

#[test]
fn test_full_push_all_or_nothing() {
    let mut txbuf = TxBuf::new();
    let big: Vec<u8> = vec![3; TX_BUF_SIZE - 6];
    txbuf.push(big.as_slice()).unwrap();
    txbuf.push(&[1, 2, 3, 4]).unwrap();
    assert_eq!(txbuf.len(), TX_BUF_SIZE - 2);

    // Three bytes would still fit; four must be rejected without any
    // partial copy.
    match txbuf.push(&[9, 9, 9, 9]) {
        Err(TxBufFull) => (),
        other => panic!("Unexpected result: {:?}", other),
    }
    assert_eq!(txbuf.len(), TX_BUF_SIZE - 2);

    // The buffered bytes are intact: drain and check the tail end.
    let mut sink = MemSink::new(2 * TX_BUF_SIZE);
    assert_eq!(txbuf.flush_to(&mut sink).unwrap(), TX_BUF_SIZE - 2);
    let drained = sink.contents();
    assert_eq!(drained.len(), TX_BUF_SIZE - 2);
    assert_eq!(drained[TX_BUF_SIZE - 6..], [1, 2, 3, 4]);
}

#[test]
fn test_flush_error_leaves_state_unchanged() {
    let mut txbuf = TxBuf::new();
    let mut sink = MemSink::new(2 * TX_BUF_SIZE);
    txbuf.push(&[1, 2, 3, 4]).unwrap();

    sink.set_fault(13);
    assert!(txbuf.flush_to(&mut sink).is_err());
    assert_eq!(txbuf.len(), 4);
    assert_eq!(sink.contents().len(), 0);

    // The fault was one-shot: the retry drains everything.
    assert_eq!(txbuf.flush_to(&mut sink).unwrap(), 4);
    assert!(txbuf.is_empty());
    assert_eq!(*sink.contents(), [1, 2, 3, 4]);
}

#[test]
fn test_fifo_across_interleaved_calls() {
    let mut txbuf = TxBuf::new();
    let mut sink = MemSink::new(2 * TX_BUF_SIZE);

    sink.set_capacity(3);
    txbuf.push(&[1, 2, 3, 4, 5]).unwrap();
    assert_eq!(txbuf.flush_to(&mut sink).unwrap(), 3);
    txbuf.push(&[6, 7]).unwrap();
    sink.set_capacity(10);
    assert_eq!(txbuf.flush_to(&mut sink).unwrap(), 4);
    assert!(txbuf.is_empty());
    // Concatenated in flush order, the drained bytes reproduce the pushed
    // bytes in push order.
    assert_eq!(*sink.contents(), [1, 2, 3, 4, 5, 6, 7]);
}

#[test]
fn test_wraparound_preserves_bytes() {
    let mut txbuf = TxBuf::new();
    let mut sink = MemSink::new(2 * TX_BUF_SIZE);

    // Fill almost to the physical end, drain, then push a chunk that wraps
    // across it.
    let filler: Vec<u8> = (0..TX_BUF_SIZE - 2).map(|i| (i % 251) as u8).collect();
    txbuf.push(filler.as_slice()).unwrap();
    assert_eq!(txbuf.flush_to(&mut sink).unwrap(), TX_BUF_SIZE - 2);
    assert_eq!(*sink.contents(), filler);
    sink.clear();

    txbuf.push(&[9, 8, 7, 6]).unwrap();
    assert_eq!(txbuf.len(), 4);
    assert_eq!(txbuf.flush_to(&mut sink).unwrap(), 4);
    assert_eq!(*sink.contents(), [9, 8, 7, 6]);
    assert!(txbuf.is_empty());
}

#[test]
fn test_fill_to_exact_capacity() {
    let mut txbuf = TxBuf::new();
    let big: Vec<u8> = vec![5; TX_BUF_SIZE - 2];
    txbuf.push(big.as_slice()).unwrap();
    // An exactly-fitting chunk is accepted; the occupied length caps out at
    // the capacity and one more byte is rejected.
    txbuf.push(&[1, 2]).unwrap();
    assert_eq!(txbuf.len(), TX_BUF_SIZE);
    match txbuf.push(&[3]) {
        Err(TxBufFull) => (),
        other => panic!("Unexpected result: {:?}", other),
    }
    assert_eq!(txbuf.len(), TX_BUF_SIZE);
}

#[test]
fn test_mem_sink_capacity_shrink() {
    let mut txbuf = TxBuf::new();
    let mut sink = MemSink::new(4);
    txbuf.push(&[1, 2, 3, 4]).unwrap();
    assert_eq!(txbuf.flush_to(&mut sink).unwrap(), 4);
    // Shrinking the sink discards what it holds beyond the new capacity.
    sink.set_capacity(2);
    assert_eq!(*sink.contents(), [1, 2]);
}

#[test]
fn test_buffer_chains_into_buffer() {
    // A buffer is itself a sink: flushing one buffer into another moves the
    // bytes unchanged.
    let mut upstream = TxBuf::new();
    let mut downstream = TxBuf::new();
    upstream.push(&[1, 2, 3, 4]).unwrap();
    assert_eq!(upstream.flush_to(&mut downstream).unwrap(), 4);
    assert!(upstream.is_empty());
    assert_eq!(downstream.len(), 4);

    let mut sink = MemSink::new(2 * TX_BUF_SIZE);
    assert_eq!(downstream.flush_to(&mut sink).unwrap(), 4);
    assert_eq!(*sink.contents(), [1, 2, 3, 4]);
}
