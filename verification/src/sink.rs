//! Byte writers: what a writer promises, and the writers that the library knows.
use vstd::prelude::*;
use vstd::slice::slice_subrange;
use amplify::WriteCounter;
use std::io::Sink;
use crate::error::WriteError;

verus! {

/// `amplify::WriteCounter`: a writer that keeps nothing but the number of bytes it was given.
#[verifier::external_type_specification]
pub struct ExWriteCounter(WriteCounter);

/// `std::io::Sink`: a writer that drops whatever it is given.
#[verifier::external_type_specification]
#[verifier::external_body]
pub struct ExSink(Sink);

/// How an attempt to write a whole buffer goes on.
#[derive(Debug)]
pub enum Progress {
    /// So many bytes were taken.
    Advance(usize),
    /// Nothing was taken, and the same bytes are offered again.
    Again,
    /// The attempt has failed.
    Stop(WriteError),
}

/// How an attempt to write a whole buffer goes on after one call of `write` that was offered at
/// least one byte: a call that takes nothing ends it, and so does any error but an interruption.
pub fn progress(answer: Result<usize, WriteError>) -> (r: Progress)
    ensures
        r == (match answer {
            Ok(0) => Progress::Stop(WriteError::WriteZero),
            Ok(n) => Progress::Advance(n),
            Err(WriteError::Interrupted(_)) => Progress::Again,
            Err(e) => Progress::Stop(e),
        }),
{
    match answer {
        Ok(n) => if n == 0 {
            Progress::Stop(WriteError::WriteZero)
        } else {
            Progress::Advance(n)
        },
        Err(WriteError::Interrupted(_)) => Progress::Again,
        Err(e) => Progress::Stop(e),
    }
}

/// What can be seen of a writer.
#[verifier::ext_equal]
pub enum Seen {
    /// Nothing.
    Nothing,
    /// How many bytes it was given.
    Length(nat),
    /// The bytes that it holds.
    Bytes(Seq<u8>),
    /// How many bytes have passed, how many may pass in all, and what can be seen of the writer
    /// behind.
    Counted { taken: nat, max: nat, inner: Box<Seen> },
}

impl Seen {
    /// What can be seen once `bytes` have been taken in as well.
    pub open spec fn then_taking(self, bytes: Seq<u8>) -> Seen
        decreases self,
    {
        match self {
            Seen::Nothing => Seen::Nothing,
            Seen::Length(n) => Seen::Length(n + bytes.len()),
            Seen::Bytes(held) => Seen::Bytes(held + bytes),
            Seen::Counted { taken, max, inner } => Seen::Counted {
                taken: taken + bytes.len(),
                max,
                inner: Box::new(inner.then_taking(bytes)),
            },
        }
    }

    /// Taking in nothing shows nothing.
    pub proof fn lemma_taking_nothing(self)
        ensures
            self.then_taking(Seq::empty()) == self,
        decreases self,
    {
        match self {
            Seen::Bytes(held) => {
                assert(held + Seq::<u8>::empty() =~= held);
            },
            Seen::Counted { taken, max, inner } => {
                inner.lemma_taking_nothing();
            },
            _ => {},
        }
    }

    /// What is taken in one after the other is seen as a whole.
    pub proof fn lemma_taking_in_turn(self, x: Seq<u8>, y: Seq<u8>)
        ensures
            self.then_taking(x).then_taking(y) == self.then_taking(x + y),
        decreases self,
    {
        match self {
            Seen::Bytes(held) => {
                assert(held + x + y =~= held + (x + y));
            },
            Seen::Counted { taken, max, inner } => {
                inner.lemma_taking_in_turn(x, y);
            },
            _ => {},
        }
    }
}

/// A description of a writer of bytes.
///
/// A writer is described by what can be seen of it, by the sizes that it turns down, and by the
/// sizes that it is bound to take. A writer that says nothing of these is one of which nothing is
/// seen and nothing is promised. A writer may stand for one that is owned elsewhere: then it holds a
/// loan of it.
pub trait WriterModel: Sized {
    /// What the writer has on loan; `()` if it owns what it writes to.
    type Loan;

    /// The loan that the writer holds. One that does not tell may have any, always the same.
    open spec fn loan(&self) -> &mut Self::Loan {
        arbitrary()
    }

    /// The writer's own invariant.
    open spec fn wf(&self) -> bool {
        true
    }

    /// What can be seen of the writer.
    open spec fn seen(&self) -> Seen {
        Seen::Nothing
    }

    /// Whether a buffer of `n` bytes leaves the writer's counters within their range.
    open spec fn can_count(&self, n: nat) -> bool {
        true
    }

    /// Whether `n` bytes are more than what the writer may still take.
    open spec fn over_limit(&self, n: nat) -> bool {
        false
    }

    /// Whether the writer is bound to take a buffer of `n` bytes, and to take it whole.
    open spec fn accepts(&self, n: nat) -> bool {
        false
    }

    /// Whether the writer is bound to flush without an error.
    open spec fn flushes(&self) -> bool {
        false
    }

    /// Whether a writer that is offered `buf` as `before` and left as `after` may answer `r`, beyond
    /// what holds of every writer.
    open spec fn answers(
        before: Self,
        buf: Seq<u8>,
        after: Self,
        r: Result<usize, WriteError>,
    ) -> bool {
        true
    }

    /// Whether a writer that is flushed as `before` and left as `after` may answer `r`, beyond what
    /// holds of every writer.
    open spec fn answers_flush(before: Self, after: Self, r: Result<(), WriteError>) -> bool {
        true
    }

    /// How many more times the writer may report that it was interrupted; for a type that does not
    /// tell it may be any number.
    open spec fn interruptions(&self) -> nat {
        arbitrary::<spec_fn(&Self) -> nat>()(self)
    }
}

/// Whether `before` may turn into `after` by taking in `bytes`, all of them and nothing else. What
/// it could count, and what it was bound to take, it can count and is bound to take still, less
/// the bytes.
#[verifier::opaque]
pub open spec fn takes<W: WriterModel>(before: W, bytes: Seq<u8>, after: W) -> bool {
    &&& after.seen() == before.seen().then_taking(bytes)
    &&& forall|n: nat| before.can_count(bytes.len() + n) ==> #[trigger] after.can_count(n)
    &&& forall|n: nat| before.accepts(bytes.len() + n) ==> #[trigger] after.accepts(n)
}

/// A writer that is left alone has taken in nothing.
pub proof fn takes_nothing<W: WriterModel>(w: W)
    ensures
        takes(w, Seq::empty(), w),
{
    reveal(takes);
    w.seen().lemma_taking_nothing();
}

/// What is taken in one after the other is taken in as a whole.
pub proof fn takes_in_turn<W: WriterModel>(a: W, x: Seq<u8>, b: W, y: Seq<u8>, c: W)
    requires
        takes(a, x, b),
        takes(b, y, c),
    ensures
        takes(a, x + y, c),
{
    reveal(takes);
    a.seen().lemma_taking_in_turn(x, y);
    assert forall|n: nat| a.can_count((x + y).len() + n) implies #[trigger] c.can_count(n) by {
        assert((x + y).len() + n == x.len() + (y.len() + n));
        assert(b.can_count(y.len() + n));
    }
    assert forall|n: nat| a.accepts((x + y).len() + n) implies #[trigger] c.accepts(n) by {
        assert((x + y).len() + n == x.len() + (y.len() + n));
        assert(b.accepts(y.len() + n));
    }
}

/// What a writer could count and was bound to take it can count and is bound to take, less what it
/// has taken.
pub proof fn takes_leaves<W: WriterModel>(a: W, x: Seq<u8>, b: W, n: nat)
    requires
        takes(a, x, b),
    ensures
        a.can_count(x.len() + n) ==> b.can_count(n),
        a.accepts(x.len() + n) ==> b.accepts(n),
{
    reveal(takes);
}

/// One step of writing a buffer to `first`: of the bytes from `pos` on `before` has taken some more.
proof fn lemma_step<W: WriterModel>(
    first: W,
    buf: Seq<u8>,
    pos: int,
    before: W,
    taken: Seq<u8>,
    after: W,
)
    requires
        0 <= pos <= pos + taken.len() <= buf.len(),
        taken == buf.subrange(pos, pos + taken.len()),
        takes(first, buf.take(pos), before),
        takes(before, taken, after),
        before.can_count((buf.len() - pos) as nat),
        first.accepts(buf.len()) ==> before.accepts((buf.len() - pos) as nat),
    ensures
        takes(first, buf.take(pos + taken.len()), after),
        after.can_count((buf.len() - pos - taken.len()) as nat),
        first.accepts(buf.len()) ==> after.accepts((buf.len() - pos - taken.len()) as nat),
{
    takes_in_turn(first, buf.take(pos), before, taken, after);
    assert(buf.take(pos) + taken =~= buf.take(pos + taken.len()));
    takes_leaves(before, taken, after, (buf.len() - pos - taken.len()) as nat);
}

/// Whether an attempt to write all of `buf` to `first` may fail with `error` and leave the writer as
/// `end`: it has taken in some bytes, and answers to the rest of them in a way that stops the
/// attempt. An attempt over the limit is turned down as a whole, before anything has happened.
pub open spec fn gives_up<W: WriterModel>(
    first: W,
    buf: Seq<u8>,
    end: W,
    error: WriteError,
) -> bool {
    exists|k: int, before: W, answer: Result<usize, WriteError>|
        {
            &&& 0 <= k < buf.len()
            &&& takes(first, #[trigger] buf.take(k), before)
            &&& takes(first, buf.take(k), end)
            &&& #[trigger] W::answers(before, buf.skip(k), end, answer)
            &&& first.over_limit(buf.len()) ==> error is InvalidInput && k == 0 && before == first
            &&& match answer {
                Ok(n) => n == 0 && error is WriteZero,
                Err(e) => e !is Interrupted && error == e,
            }
        }
}

/// Whether an attempt that goes on to write to `first` may end with `error` and leave the writer as
/// `end`: `done` has been taken in, and then either the writer gives up on the bytes that it is
/// offered next, or the attempt is broken off without any being offered.
pub open spec fn breaks_off<W: WriterModel>(
    first: W,
    done: Seq<u8>,
    offered: Option<Seq<u8>>,
    end: W,
    error: WriteError,
) -> bool {
    match offered {
        Some(bytes) => exists|before: W|
            {
                &&& #[trigger] takes(first, done, before)
                &&& done.len() == 0 ==> before == first
                &&& gives_up(before, bytes, end, error)
            },
        None => takes(first, done, end),
    }
}

/// A writer of bytes, as its description says.
pub trait ByteWrite: WriterModel {
    /// Writes some of `buf`, from its start, and returns how many bytes were taken.
    fn write(&mut self, buf: &[u8]) -> (r: Result<usize, WriteError>)
        requires
            old(self).wf(),
            old(self).can_count(buf@.len()),
        ensures
            final(self).wf(),
            r matches Ok(n) ==> n <= buf@.len() && takes(
                *old(self),
                buf@.take(n as int),
                *final(self),
            ),
            r is Err ==> takes(*old(self), Seq::empty(), *final(self)),
            r matches Err(WriteError::Interrupted(_)) ==> final(self).interruptions() < old(
                self,
            ).interruptions(),
            old(self).over_limit(buf@.len()) ==> r matches Err(WriteError::InvalidInput),
            old(self).accepts(buf@.len()) ==> r is Ok && r->Ok_0 == buf@.len(),
            Self::answers(*old(self), buf@, *final(self), r),
            *final(final(self).loan()) == *final(old(self).loan()),
    ;

    /// Sends on whatever the writer holds back.
    fn flush(&mut self) -> (r: Result<(), WriteError>)
        requires
            old(self).wf(),
        ensures
            final(self).wf(),
            takes(*old(self), Seq::empty(), *final(self)),
            old(self).flushes() ==> r is Ok,
            Self::answers_flush(*old(self), *final(self), r),
            *final(final(self).loan()) == *final(old(self).loan()),
    ;

    /// Writes the whole of `buf`, in as many calls of `write` as it takes. An interrupted call is
    /// repeated; any other error ends the attempt, and so does a call that takes nothing.
    fn write_all(&mut self, buf: &[u8]) -> (r: Result<(), WriteError>)
        requires
            old(self).wf(),
            old(self).can_count(buf@.len()),
        ensures
            final(self).wf(),
            r is Ok ==> takes(*old(self), buf@, *final(self)),
            r matches Err(e) ==> gives_up(*old(self), buf@, *final(self), e),
            !(r matches Err(WriteError::Interrupted(_))),
            buf@.len() == 0 ==> r is Ok && *final(self) == *old(self),
            buf@.len() > 0 && old(self).over_limit(buf@.len()) ==> r matches Err(
                WriteError::InvalidInput,
            ),
            old(self).accepts(buf@.len()) ==> r is Ok,
            *final(final(self).loan()) == *final(old(self).loan()),
    {
        let mut pos: usize = 0;
        proof {
            takes_nothing(*self);
            assert(buf@.take(0) =~= Seq::empty());
        }
        while pos < buf.len()
            invariant
                pos <= buf@.len(),
                self.wf(),
                takes(*old(self), buf@.take(pos as int), *self),
                self.can_count((buf@.len() - pos) as nat),
                *final(self.loan()) == *final(old(self).loan()),
                old(self).accepts(buf@.len()) ==> self.accepts((buf@.len() - pos) as nat),
                old(self).over_limit(buf@.len()) || buf@.len() == 0 ==> *self == *old(self) && pos
                    == 0,
            decreases buf@.len() - pos, self.interruptions(),
        {
            let ghost before = *self;
            let rest = slice_subrange(buf, pos, buf.len());
            let r = self.write(rest);
            proof {
                let taken = match r {
                    Ok(n) => rest@.take(n as int),
                    Err(_) => Seq::empty(),
                };
                assert(taken =~= buf@.subrange(pos as int, pos + taken.len()));
                lemma_step(*old(self), buf@, pos as int, before, taken, *self);
            }
            match progress(r) {
                Progress::Advance(n) => {
                    pos = pos + n;
                },
                Progress::Again => {},
                Progress::Stop(e) => {
                    assert(rest@ =~= buf@.skip(pos as int));
                    assert(Self::answers(before, buf@.skip(pos as int), *self, r));
                    assert(gives_up(*old(self), buf@, *self, e));
                    return Err(e);
                },
            }
        }
        proof {
            assert(buf@.take(pos as int) =~= buf@);
        }
        Ok(())
    }
}

/// Whether the writer's counters stay within their range for any buffer of at most `n` bytes.
pub open spec fn can_count_up_to<W: WriterModel>(w: W, n: nat) -> bool {
    forall|m: nat| m <= n ==> #[trigger] w.can_count(m)
}

/// Whether the writer is bound to take any buffer of at most `n` bytes.
pub open spec fn accepts_up_to<W: WriterModel>(w: W, n: nat) -> bool {
    forall|m: nat| m <= n ==> #[trigger] w.accepts(m)
}

/// A vector shows what it holds, and takes everything.
impl WriterModel for Vec<u8> {
    type Loan = ();

    open spec fn seen(&self) -> Seen {
        Seen::Bytes(self@)
    }

    open spec fn accepts(&self, n: nat) -> bool {
        true
    }

    open spec fn flushes(&self) -> bool {
        true
    }

    open spec fn answers(
        before: Self,
        buf: Seq<u8>,
        after: Self,
        r: Result<usize, WriteError>,
    ) -> bool {
        r is Ok && r->Ok_0 == buf.len()
    }

    open spec fn answers_flush(before: Self, after: Self, r: Result<(), WriteError>) -> bool {
        r is Ok && after == before
    }
}

/// Bytes written to a vector go to its end.
impl ByteWrite for Vec<u8> {
    fn write(&mut self, buf: &[u8]) -> (r: Result<usize, WriteError>) {
        self.extend_from_slice(buf);
        proof {
            reveal(takes);
            assert(self@ =~= old(self)@ + buf@);
            assert(buf@.take(buf@.len() as int) =~= buf@);
        }
        Ok(buf.len())
    }

    fn flush(&mut self) -> (r: Result<(), WriteError>) {
        proof {
            takes_nothing(*self);
        }
        Ok(())
    }
}

/// Makes a counter, by `WriteCounter::default`: it has counted nothing.
#[verifier::external_body]
pub(crate) fn counter_default() -> (r: WriteCounter)
    ensures
        r.count == 0,
{
    WriteCounter::default()
}

/// Gives `buf` to a counter, by its `std::io::Write::write`: the counter adds the number of bytes
/// and reports that it has taken them all. The sum must fit the counter.
#[verifier::external_body]
fn counter_write(counter: &mut WriteCounter, buf: &[u8]) -> (r: Result<usize, std::io::Error>)
    requires
        old(counter).count + buf@.len() <= usize::MAX,
    ensures
        final(counter).count == old(counter).count + buf@.len(),
        r is Ok && r->Ok_0 == buf@.len(),
{
    std::io::Write::write(counter, buf)
}

/// Flushes a counter, by its `std::io::Write::flush`: it succeeds and changes nothing.
#[verifier::external_body]
fn counter_flush(counter: &mut WriteCounter) -> (r: Result<(), std::io::Error>)
    ensures
        *final(counter) == *old(counter),
        r is Ok,
{
    std::io::Write::flush(counter)
}

/// A counter shows how many bytes it was given, and takes what it can count.
impl WriterModel for WriteCounter {
    type Loan = ();

    open spec fn seen(&self) -> Seen {
        Seen::Length(self.count as nat)
    }

    open spec fn can_count(&self, n: nat) -> bool {
        self.count + n <= usize::MAX
    }

    open spec fn accepts(&self, n: nat) -> bool {
        self.count + n <= usize::MAX
    }

    open spec fn flushes(&self) -> bool {
        true
    }

    open spec fn answers(
        before: Self,
        buf: Seq<u8>,
        after: Self,
        r: Result<usize, WriteError>,
    ) -> bool {
        r is Ok && r->Ok_0 == buf.len()
    }

    open spec fn answers_flush(before: Self, after: Self, r: Result<(), WriteError>) -> bool {
        r is Ok && after == before
    }
}

/// A counter adds up the sizes of what it is given.
impl ByteWrite for WriteCounter {
    fn write(&mut self, buf: &[u8]) -> (r: Result<usize, WriteError>) {
        proof {
            reveal(takes);
            assert(buf@.take(buf@.len() as int) =~= buf@);
        }
        match counter_write(self, buf) {
            Ok(n) => Ok(n),
            Err(e) => Err(WriteError::Io(e)),
        }
    }

    fn flush(&mut self) -> (r: Result<(), WriteError>) {
        proof {
            takes_nothing(*self);
            reveal(takes);
        }
        match counter_flush(self) {
            Ok(()) => Ok(()),
            Err(e) => Err(WriteError::Io(e)),
        }
    }
}

/// Makes a sink, by `std::io::Sink::default`. A sink has no contents to speak of.
#[verifier::external_body]
pub(crate) fn sink_default() -> Sink {
    Sink::default()
}

/// Gives `buf` to a sink, by its `std::io::Write::write`: the sink reports that it has taken all
/// of it.
#[verifier::external_body]
fn sink_write(sink: &mut Sink, buf: &[u8]) -> (r: Result<usize, std::io::Error>)
    ensures
        r is Ok && r->Ok_0 == buf@.len(),
{
    std::io::Write::write(sink, buf)
}

/// Flushes a sink, by its `std::io::Write::flush`, of whose answer nothing is claimed.
#[verifier::external_body]
fn sink_flush(sink: &mut Sink) -> Result<(), std::io::Error> {
    std::io::Write::flush(sink)
}

/// A sink shows nothing, and takes everything.
impl WriterModel for Sink {
    type Loan = ();

    open spec fn accepts(&self, n: nat) -> bool {
        true
    }

    open spec fn answers(
        before: Self,
        buf: Seq<u8>,
        after: Self,
        r: Result<usize, WriteError>,
    ) -> bool {
        r is Ok && r->Ok_0 == buf.len()
    }
}

/// A sink takes everything and shows no trace of it.
impl ByteWrite for Sink {
    fn write(&mut self, buf: &[u8]) -> (r: Result<usize, WriteError>) {
        proof {
            reveal(takes);
            assert(buf@.take(buf@.len() as int) =~= buf@);
        }
        match sink_write(self, buf) {
            Ok(n) => Ok(n),
            Err(e) => Err(WriteError::Io(e)),
        }
    }

    fn flush(&mut self) -> (r: Result<(), WriteError>) {
        proof {
            takes_nothing(*self);
            reveal(takes);
        }
        match sink_flush(self) {
            Ok(()) => Ok(()),
            Err(e) => Err(WriteError::Io(e)),
        }
    }
}

/// A writer that is lent by reference: what is written to it goes to the writer behind, which is its
/// owner's again when the loan ends.
#[derive(Debug)]
pub struct Lent<'a, W: ByteWrite>(pub &'a mut W);

/// A lent writer shows what the writer behind shows, and promises what that one promises.
impl<'a, W: ByteWrite> WriterModel for Lent<'a, W> {
    type Loan = W;

    open spec fn loan(&self) -> &mut W {
        self.0
    }

    open spec fn wf(&self) -> bool {
        self.0.wf()
    }

    open spec fn seen(&self) -> Seen {
        self.0.seen()
    }

    open spec fn can_count(&self, n: nat) -> bool {
        self.0.can_count(n)
    }

    open spec fn over_limit(&self, n: nat) -> bool {
        self.0.over_limit(n)
    }

    open spec fn accepts(&self, n: nat) -> bool {
        self.0.accepts(n)
    }

    open spec fn flushes(&self) -> bool {
        self.0.flushes()
    }

    open spec fn answers(
        before: Self,
        buf: Seq<u8>,
        after: Self,
        r: Result<usize, WriteError>,
    ) -> bool {
        W::answers(*before.0, buf, *after.0, r)
    }

    open spec fn answers_flush(before: Self, after: Self, r: Result<(), WriteError>) -> bool {
        W::answers_flush(*before.0, *after.0, r)
    }

    open spec fn interruptions(&self) -> nat {
        self.0.interruptions()
    }
}

/// The writer behind does the work.
impl<'a, W: ByteWrite> ByteWrite for Lent<'a, W> {
    fn write(&mut self, buf: &[u8]) -> (r: Result<usize, WriteError>) {
        let r = self.0.write(buf);
        proof {
            reveal(takes);
        }
        r
    }

    fn flush(&mut self) -> (r: Result<(), WriteError>) {
        let r = self.0.flush();
        proof {
            reveal(takes);
        }
        r
    }
}

} // verus!
