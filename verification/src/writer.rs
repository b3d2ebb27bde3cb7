//! Writers with a limit: `CountingWriter`, and `StrictWriter` on top of it.
use vstd::prelude::*;
use amplify::WriteCounter;
use std::io::Sink;
use crate::error::WriteError;
use crate::sink::{
    counter_default, gives_up, sink_default, takes, takes_nothing, ByteWrite, Seen, WriterModel,
};

verus! {

/// A writer that counts what passes through it and turns down what would exceed its limit.
#[derive(Debug)]
pub struct CountingWriter<W: ByteWrite> {
    count: usize,
    limit: usize,
    writer: W,
}

impl<W: ByteWrite> CountingWriter<W> {
    /// How many bytes have passed through.
    pub closed spec fn taken(self) -> nat {
        self.count as nat
    }

    /// How many bytes may pass through in all.
    pub closed spec fn max(self) -> nat {
        self.limit as nat
    }

    /// The writer underneath.
    pub closed spec fn inner(self) -> W {
        self.writer
    }

    /// The counting writer around `writer` through which nothing has passed.
    pub closed spec fn fresh(limit: usize, writer: W) -> Self {
        CountingWriter { count: 0, limit, writer }
    }

    /// A counting writer that is done with is done with the writer underneath.
    pub proof fn lemma_resolved(self)
        ensures
            has_resolved(self) ==> has_resolved(self.inner()),
    {
        assert(has_resolved(self) ==> has_resolved(self.writer));
    }

    /// Puts `writer` behind a limit.
    pub fn with(limit: usize, writer: W) -> (r: Self)
        requires
            writer.wf(),
        ensures
            r == Self::fresh(limit, writer),
            r.wf(),
            r.taken() == 0,
            r.max() == limit,
            r.inner() == writer,
    {
        CountingWriter { count: 0, limit, writer }
    }

    /// Gives the writer underneath back.
    pub fn unbox(self) -> (r: W)
        ensures
            r == self.inner(),
    {
        self.writer
    }

    /// How many bytes have passed through.
    pub fn count(&self) -> (r: usize)
        ensures
            r == self.taken(),
    {
        self.count
    }
}

/// How many bytes were taken, according to an answer.
pub open spec fn taken_by(r: Result<usize, WriteError>) -> nat {
    match r {
        Ok(n) => n as nat,
        Err(_) => 0,
    }
}

/// Puts a writer behind no limit but that of the counter.
impl<W: ByteWrite> From<W> for CountingWriter<W> {
    fn from(writer: W) -> (r: Self)
        ensures
            r.taken() == 0,
            r.max() == usize::MAX,
            r.inner() == writer,
    {
        CountingWriter { count: 0, limit: usize::MAX, writer }
    }
}

impl<W: ByteWrite> vstd::std_specs::convert::FromSpecImpl<W> for CountingWriter<W> {
    open spec fn obeys_from_spec() -> bool {
        true
    }

    open spec fn from_spec(writer: W) -> Self {
        Self::fresh(usize::MAX, writer)
    }
}

/// A counting writer shows its count and its limit, and what can be seen behind.
impl<W: ByteWrite> WriterModel for CountingWriter<W> {
    type Loan = W::Loan;

    open spec fn loan(&self) -> &mut W::Loan {
        self.inner().loan()
    }

    open spec fn wf(&self) -> bool {
        &&& self.taken() <= self.max()
        &&& self.max() <= usize::MAX
        &&& self.inner().wf()
    }

    open spec fn seen(&self) -> Seen {
        Seen::Counted {
            taken: self.taken(),
            max: self.max(),
            inner: Box::new(self.inner().seen()),
        }
    }

    open spec fn can_count(&self, n: nat) -> bool {
        &&& self.taken() + n <= usize::MAX
        &&& self.taken() + n <= self.max() ==> self.inner().can_count(n)
    }

    open spec fn over_limit(&self, n: nat) -> bool {
        self.taken() + n > self.max() || self.inner().over_limit(n)
    }

    open spec fn accepts(&self, n: nat) -> bool {
        self.taken() + n <= self.max() && self.inner().accepts(n)
    }

    open spec fn flushes(&self) -> bool {
        self.inner().flushes()
    }

    /// What exceeds the limit is turned down, and nothing changes; for the rest the writer
    /// underneath gives the answer, and what it has taken is counted.
    open spec fn answers(
        before: Self,
        buf: Seq<u8>,
        after: Self,
        r: Result<usize, WriteError>,
    ) -> bool {
        if before.taken() + buf.len() > before.max() {
            after == before && r matches Err(WriteError::InvalidInput)
        } else {
            &&& W::answers(before.inner(), buf, after.inner(), r)
            &&& after.taken() == before.taken() + taken_by(r)
            &&& after.max() == before.max()
        }
    }

    /// The writer underneath gives the answer; the count stays.
    open spec fn answers_flush(before: Self, after: Self, r: Result<(), WriteError>) -> bool {
        &&& W::answers_flush(before.inner(), after.inner(), r)
        &&& after.taken() == before.taken()
        &&& after.max() == before.max()
    }

    open spec fn interruptions(&self) -> nat {
        self.inner().interruptions()
    }
}

impl<W: ByteWrite> ByteWrite for CountingWriter<W> {
    /// Hands `buf` to the writer underneath, unless it would exceed the limit: then nothing is
    /// written and nothing changes.
    fn write(&mut self, buf: &[u8]) -> (r: Result<usize, WriteError>) {
        if self.count + buf.len() > self.limit {
            proof {
                takes_nothing(*self);
            }
            return Err(WriteError::InvalidInput);
        }
        let answer = self.writer.write(buf);
        proof {
            reveal(takes);
            assert(self.interruptions() == self.inner().interruptions());
        }
        match answer {
            Ok(n) => {
                self.count = self.count + n;
                Ok(n)
            },
            Err(e) => Err(e),
        }
    }

    fn flush(&mut self) -> (r: Result<(), WriteError>) {
        let r = self.writer.flush();
        proof {
            reveal(takes);
        }
        r
    }
}

/// The writer that values are encoded to.
#[derive(Debug)]
pub struct StrictWriter<W: ByteWrite>(CountingWriter<W>);

impl<W: ByteWrite> StrictWriter<W> {
    /// The counting writer inside.
    pub closed spec fn counting(self) -> CountingWriter<W> {
        self.0
    }

    /// The strict writer around a counting writer.
    pub closed spec fn around(writer: CountingWriter<W>) -> Self {
        StrictWriter(writer)
    }

    /// The writer underneath.
    pub open spec fn inner(self) -> W {
        self.counting().inner()
    }

    /// The invariant.
    pub open spec fn wf(self) -> bool {
        self.counting().wf()
    }

    /// The loan that the writer underneath holds.
    pub open spec fn loan(&self) -> &mut W::Loan {
        self.inner().loan()
    }

    /// Whether `before` may turn into `after` by taking in `bytes`.
    pub open spec fn takes(before: Self, bytes: Seq<u8>, after: Self) -> bool {
        &&& takes(before.counting(), bytes, after.counting())
        &&& after.counting().taken() == before.counting().taken() + bytes.len()
        &&& after.counting().max() == before.counting().max()
        &&& after.inner().seen() == before.inner().seen().then_taking(bytes)
    }

    /// What the counting writer inside takes in, the strict writer takes in.
    pub proof fn lemma_takes(before: Self, bytes: Seq<u8>, after: Self)
        requires
            takes(before.counting(), bytes, after.counting()),
        ensures
            Self::takes(before, bytes, after),
    {
        reveal(takes);
    }
}

/// A counting writer is a strict writer.
impl<W: ByteWrite> From<CountingWriter<W>> for StrictWriter<W> {
    fn from(writer: CountingWriter<W>) -> (r: Self)
        ensures
            r.counting() == writer,
    {
        StrictWriter(writer)
    }
}

impl<W: ByteWrite> vstd::std_specs::convert::FromSpecImpl<CountingWriter<W>> for StrictWriter<W> {
    open spec fn obeys_from_spec() -> bool {
        true
    }

    open spec fn from_spec(writer: CountingWriter<W>) -> Self {
        Self::around(writer)
    }
}

impl StrictWriter<Vec<u8>> {
    /// Writes to memory, no more than `limit` bytes.
    pub fn in_memory(limit: usize) -> (r: Self)
        ensures
            r.wf(),
            r.counting().taken() == 0,
            r.counting().max() == limit,
            r.inner()@ == Seq::<u8>::empty(),
    {
        StrictWriter(CountingWriter::with(limit, vec![]))
    }
}

impl StrictWriter<WriteCounter> {
    /// Counts bytes and keeps none.
    pub fn counter() -> (r: Self)
        ensures
            r.wf(),
            r.counting().taken() == 0,
            r.counting().max() == usize::MAX,
            r.inner().count == 0,
    {
        StrictWriter(CountingWriter::from(counter_default()))
    }
}

impl StrictWriter<Sink> {
    /// Drops every byte.
    pub fn sink() -> (r: Self)
        ensures
            r.wf(),
            r.counting().taken() == 0,
            r.counting().max() == usize::MAX,
    {
        StrictWriter(CountingWriter::from(sink_default()))
    }
}

impl<W: ByteWrite> StrictWriter<W> {
    /// Puts `writer` behind a limit.
    pub fn with(limit: usize, writer: W) -> (r: Self)
        requires
            writer.wf(),
        ensures
            r.wf(),
            r.counting() == CountingWriter::fresh(limit, writer),
            r.counting().taken() == 0,
            r.counting().max() == limit,
            r.inner() == writer,
    {
        StrictWriter(CountingWriter::with(limit, writer))
    }

    /// Gives the writer underneath back.
    pub fn unbox(self) -> (r: W)
        ensures
            r == self.inner(),
    {
        self.0.unbox()
    }

    /// Writes `bytes` as they are, all of them.
    pub fn _write_raw<const LEN: usize>(self, bytes: &[u8]) -> (r: Result<Self, WriteError>)
        requires
            self.wf(),
            self.counting().can_count(bytes@.len()),
        ensures
            r matches Ok(w) ==> w.wf() && Self::takes(self, bytes@, w),
            r matches Ok(w) ==> *final(w.loan()) == *final(self.loan()),
            bytes@.len() == 0 ==> r == Ok::<Self, WriteError>(self),
            bytes@.len() > 0 && self.counting().over_limit(bytes@.len()) ==> r matches Err(
                WriteError::InvalidInput,
            ),
            self.counting().accepts(bytes@.len()) ==> r is Ok,
            r matches Err(e) ==> exists|end: CountingWriter<W>|
                {
                    &&& has_resolved(end)
                    &&& *final(end.loan()) == *final(self.loan())
                    &&& #[trigger] gives_up(self.counting(), bytes@, end, e)
                },
            !(r matches Err(WriteError::Interrupted(_))),
    {
        let mut writer = self.0;
        match writer.write_all(bytes) {
            Ok(()) => {
                let r = StrictWriter(writer);
                proof {
                    Self::lemma_takes(self, bytes@, r);
                }
                Ok(r)
            },
            Err(e) => {
                assert(gives_up(self.counting(), bytes@, writer, e));
                Err(e)
            },
        }
    }
}

} // verus!
