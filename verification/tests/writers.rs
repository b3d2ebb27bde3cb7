use amplify::WriteCounter;
use std::io::Sink;
use strict_writer::sink::{progress, Progress};
use strict_writer::{
    ByteWrite, CountingWriter, Lent, StrictEncode, StrictWriter, WriteError, WriterModel,
};

/// A writer that takes at most `step` bytes in a call, after as many interruptions as it is told.
struct Trickle {
    out: Vec<u8>,
    step: usize,
    interruptions: usize,
    broken: bool,
}

impl WriterModel for Trickle {
    type Loan = ();
}

impl ByteWrite for Trickle {
    fn write(&mut self, buf: &[u8]) -> Result<usize, WriteError> {
        if self.interruptions > 0 {
            self.interruptions -= 1;
            return Err(interrupted());
        }
        if self.broken {
            return Err(WriteError::Io(std::io::Error::from(std::io::ErrorKind::BrokenPipe)));
        }
        let n = buf.len().min(self.step);
        self.out.extend_from_slice(&buf[..n]);
        Ok(n)
    }

    fn flush(&mut self) -> Result<(), WriteError> {
        Ok(())
    }
}

fn interrupted() -> WriteError {
    WriteError::Interrupted(std::io::Error::from(std::io::ErrorKind::Interrupted))
}

fn trickle(step: usize, interruptions: usize) -> Trickle {
    Trickle { out: vec![], step, interruptions, broken: false }
}

#[test]
fn write_within_limit_is_handed_on() {
    let mut w = CountingWriter::with(4, Vec::new());
    assert_eq!(w.write(&[1, 2, 3]).unwrap(), 3);
    assert_eq!(w.count(), 3);
    assert_eq!(w.write(&[4]).unwrap(), 1);
    assert_eq!(w.count(), 4);
    assert_eq!(w.unbox(), vec![1, 2, 3, 4]);
}

#[test]
fn write_over_limit_is_turned_down_and_changes_nothing() {
    let mut w = CountingWriter::with(2, Vec::new());
    assert_eq!(w.write(&[1]).unwrap(), 1);
    assert!(matches!(w.write(&[2, 3]), Err(WriteError::InvalidInput)));
    assert_eq!(w.count(), 1);
    assert_eq!(w.write(&[2]).unwrap(), 1);
    assert_eq!(w.write(&[]).unwrap(), 0);
    assert!(matches!(w.write(&[3]), Err(WriteError::InvalidInput)));
    assert_eq!(w.unbox(), vec![1, 2]);
}

#[test]
fn from_has_no_limit() {
    let mut w: CountingWriter<WriteCounter> = CountingWriter::from(WriteCounter { count: 0 });
    for _ in 0..10 {
        assert_eq!(w.write(&[0; 1000]).unwrap(), 1000);
    }
    assert_eq!(w.count(), 10_000);
    assert_eq!(w.unbox().count, 10_000);
}

#[test]
fn strict_writer_from_counting_writer() {
    let w: StrictWriter<Vec<u8>> = StrictWriter::from(CountingWriter::with(1, vec![9]));
    let w = w._write_raw::<1>(&[1]).unwrap();
    assert_eq!(w.unbox(), vec![9, 1]);
}

#[test]
fn flush_succeeds_on_known_writers() {
    let mut vec = CountingWriter::with(3, vec![7u8]);
    assert!(vec.flush().is_ok());
    assert_eq!(vec.unbox(), vec![7]);
    let mut counter = CountingWriter::with(3, WriteCounter { count: 5 });
    assert!(counter.flush().is_ok());
    assert_eq!(counter.unbox().count, 5);
    let mut sink = CountingWriter::with(3, Sink::default());
    assert!(sink.flush().is_ok());
    assert_eq!(sink.count(), 0);
}

#[test]
fn in_memory_holds_what_was_written() {
    let w = StrictWriter::in_memory(6);
    let w = w._write_raw::<3>(&[1, 2, 3]).unwrap();
    let w = w._write_raw::<0>(&[]).unwrap();
    let w = w._write_raw::<2>(&[4, 5]).unwrap();
    assert_eq!(w.unbox(), vec![1, 2, 3, 4, 5]);
}

#[test]
fn in_memory_fails_past_its_limit() {
    assert!(matches!(
        StrictWriter::in_memory(2)._write_raw::<3>(&[1, 2, 3]),
        Err(WriteError::InvalidInput)
    ));
    assert_eq!(StrictWriter::in_memory(0)._write_raw::<0>(&[]).unwrap().unbox(), Vec::<u8>::new());
    assert!(matches!(
        StrictWriter::in_memory(0)._write_raw::<1>(&[1]),
        Err(WriteError::InvalidInput)
    ));
}

#[test]
fn counter_counts_and_sink_drops() {
    let counter = StrictWriter::counter()._write_raw::<5>(&[0; 5]).unwrap();
    let counter = counter._write_raw::<2>(&[1; 2]).unwrap();
    assert_eq!(counter.unbox().count, 7);
    let sink = StrictWriter::sink()._write_raw::<5>(&[0; 5]).unwrap();
    let _: Sink = sink.unbox();
}

#[test]
fn counter_tells_length_of_memory() {
    let bytes: [u8; 4] = [9, 8, 7, 6];
    let counter = StrictWriter::counter()._write_raw::<4>(&bytes).unwrap();
    let memory = StrictWriter::in_memory(100)._write_raw::<4>(&bytes).unwrap();
    assert_eq!(counter.unbox().count, memory.unbox().len());
}

#[test]
fn with_keeps_what_the_writer_held() {
    let w = StrictWriter::with(1, vec![5u8, 6]);
    let w = 7u8.strict_encode(w).unwrap();
    assert_eq!(w.unbox(), vec![5, 6, 7]);
}

#[test]
fn write_all_goes_on_after_short_writes() {
    let w = StrictWriter::with(5, trickle(2, 0));
    let w = w._write_raw::<5>(&[1, 2, 3, 4, 5]).unwrap();
    assert_eq!(w.unbox().out, vec![1, 2, 3, 4, 5]);
}

#[test]
fn write_all_repeats_after_interruption() {
    let mut w = CountingWriter::with(5, trickle(5, 3));
    assert!(w.write_all(&[1, 2, 3]).is_ok());
    assert_eq!(w.count(), 3);
    assert_eq!(w.unbox().out, vec![1, 2, 3]);
}

#[test]
fn write_all_stops_when_nothing_is_taken() {
    let mut w = CountingWriter::with(5, trickle(0, 0));
    assert!(matches!(w.write_all(&[1, 2, 3]), Err(WriteError::WriteZero)));
    assert_eq!(w.count(), 0);
    assert!(w.write_all(&[]).is_ok());
}

#[test]
fn write_all_hands_on_other_errors() {
    let mut w = CountingWriter::with(5, Trickle { out: vec![], step: 1, interruptions: 0, broken: true });
    match w.write_all(&[1]) {
        Err(WriteError::Io(e)) => assert_eq!(e.kind(), std::io::ErrorKind::BrokenPipe),
        _ => panic!("the writer is broken"),
    }
}

#[test]
fn write_over_limit_does_not_reach_the_writer() {
    let mut w = CountingWriter::with(2, trickle(1, 1));
    assert!(matches!(w.write_all(&[1, 2, 3]), Err(WriteError::InvalidInput)));
    assert_eq!(w.unbox().interruptions, 1);
}

#[test]
fn progress_of_each_answer() {
    assert!(matches!(progress(Ok(0)), Progress::Stop(WriteError::WriteZero)));
    assert!(matches!(progress(Ok(3)), Progress::Advance(3)));
    assert!(matches!(progress(Err(interrupted())), Progress::Again));
    assert!(matches!(
        progress(Err(WriteError::InvalidInput)),
        Progress::Stop(WriteError::InvalidInput)
    ));
}

#[test]
fn a_byte_is_encoded_as_itself() {
    let w = 0xABu8.strict_encode(StrictWriter::in_memory(1)).unwrap();
    assert_eq!(w.unbox(), vec![0xAB]);
    assert!(matches!(
        0xABu8.strict_encode(StrictWriter::in_memory(0)),
        Err(WriteError::InvalidInput)
    ));
}

#[test]
fn interruption_is_handed_on_by_write() {
    let mut w = CountingWriter::with(5, trickle(5, 1));
    match w.write(&[1]) {
        Err(WriteError::Interrupted(e)) => assert_eq!(e.kind(), std::io::ErrorKind::Interrupted),
        _ => panic!("the writer is interrupted"),
    }
    assert_eq!(w.count(), 0);
    assert_eq!(w.write(&[1]).unwrap(), 1);
}

#[test]
fn lent_writer_is_its_owners_again() {
    let mut v: Vec<u8> = vec![3];
    let w = StrictWriter::with(2, Lent(&mut v))._write_raw::<2>(&[1, 2]).unwrap();
    assert!(matches!(w._write_raw::<1>(&[9]), Err(WriteError::InvalidInput)));
    assert_eq!(v, vec![3, 1, 2]);
    let mut lent = Lent(&mut v);
    assert!(lent.flush().is_ok());
    assert_eq!(lent.write(&[4]).unwrap(), 1);
    assert_eq!(v, vec![3, 1, 2, 4]);
    let mut t = trickle(2, 1);
    assert!(Lent(&mut t).write_all(&[1, 2, 3]).is_ok());
    assert_eq!(t.out, vec![1, 2, 3]);
}

#[test]
fn lent_writer_keeps_what_a_broken_attempt_has_written() {
    let mut t = trickle(0, 0);
    assert!(matches!(
        StrictWriter::with(9, Lent(&mut t))._write_raw::<1>(&[1]),
        Err(WriteError::WriteZero)
    ));
    assert_eq!(t.out, Vec::<u8>::new());
}

#[test]
fn counts_add_up_over_calls() {
    let mut w = CountingWriter::with(6, trickle(2, 1));
    assert!(matches!(w.write(&[1, 2, 3]), Err(WriteError::Interrupted(_))));
    let mut sum = w.write(&[1, 2, 3]).unwrap();
    assert!(w.flush().is_ok());
    sum += w.write(&[4]).unwrap();
    assert!(matches!(w.write(&[5, 6, 7, 8]), Err(WriteError::InvalidInput)));
    sum += w.write(&[5, 6, 7]).unwrap();
    assert_eq!(sum, 5);
    assert_eq!(w.count(), 5);
    assert_eq!(w.unbox().out, vec![1, 2, 4, 5, 6]);
}

#[test]
fn refused_attempt_takes_nothing() {
    let mut v: Vec<u8> = vec![];
    assert!(matches!(
        StrictWriter::with(1, Lent(&mut v))._write_raw::<2>(&[1, 2]),
        Err(WriteError::InvalidInput)
    ));
    assert_eq!(v, Vec::<u8>::new());
    let mut inner = CountingWriter::with(1, vec![8u8]);
    assert!(matches!(
        StrictWriter::with(5, Lent(&mut inner))._write_raw::<2>(&[1, 2]),
        Err(WriteError::InvalidInput)
    ));
    assert_eq!(inner.count(), 0);
    assert_eq!(inner.unbox(), vec![8]);
}
