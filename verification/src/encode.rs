//! Values that can be encoded, and what struct writers can stand on.
use vstd::prelude::*;
use crate::error::WriteError;
use crate::sink::{
    accepts_up_to, breaks_off, can_count_up_to, gives_up, takes_nothing, ByteWrite, WriterModel,
};
use crate::writer::{CountingWriter, StrictWriter};

verus! {

/// A value with a strict encoding.
pub trait StrictEncode {
    /// The bytes that stand for the value; for a type that does not tell they may be any.
    open spec fn encoding(&self) -> Seq<u8> {
        arbitrary::<spec_fn(&Self) -> Seq<u8>>()(self)
    }

    /// Whether nothing in the value itself stands against encoding it, as far as its type tells.
    open spec fn encodable(&self) -> bool {
        false
    }

    /// Whether encoding the value may end with `error` when `done` has been written of it: as the
    /// writer is offered the bytes that are to be written next, or, if there are none, for a reason
    /// of the value's own.
    open spec fn fails_at(
        &self,
        done: Seq<u8>,
        offered: Option<Seq<u8>>,
        error: WriteError,
    ) -> bool {
        true
    }

    /// Writes the encoding of the value.
    fn strict_encode<W: ByteWrite>(&self, writer: StrictWriter<W>) -> (r: Result<
        StrictWriter<W>,
        WriteError,
    >)
        requires
            writer.wf(),
            can_count_up_to(writer.counting(), self.encoding().len()),
        ensures
            r matches Ok(w) ==> w.wf() && StrictWriter::takes(writer, self.encoding(), w),
            self.encodable() && accepts_up_to(writer.counting(), self.encoding().len()) ==> r is Ok,
            r matches Ok(w) ==> *final(w.loan()) == *final(writer.loan()),
            r matches Err(e) ==> exists|
                done: Seq<u8>,
                offered: Option<Seq<u8>>,
                end: CountingWriter<W>,
            |
                {
                    &&& has_resolved(end)
                    &&& *final(end.loan()) == *final(writer.loan())
                    &&& self.fails_at(done, offered, e)
                    &&& #[trigger] breaks_off(writer.counting(), done, offered, end, e)
                },
    ;
}

/// A byte stands for itself.
impl StrictEncode for u8 {
    open spec fn encoding(&self) -> Seq<u8> {
        seq![*self]
    }

    open spec fn encodable(&self) -> bool {
        true
    }

    open spec fn fails_at(
        &self,
        done: Seq<u8>,
        offered: Option<Seq<u8>>,
        error: WriteError,
    ) -> bool {
        done == Seq::<u8>::empty() && offered == Some(seq![*self])
    }

    fn strict_encode<W: ByteWrite>(&self, writer: StrictWriter<W>) -> (r: Result<
        StrictWriter<W>,
        WriteError,
    >)
        ensures
            writer.counting().over_limit(1) ==> r is Err,
            writer.counting().accepts(1) ==> r is Ok,
    {
        let bytes: [u8; 1] = [*self];
        assert(bytes@ =~= seq![*self]);
        let r = writer._write_raw::<1>(&bytes);
        proof {
            takes_nothing(writer.counting());
            assert forall|end: CountingWriter<W>, e: WriteError| #[trigger]
                gives_up(writer.counting(), bytes@, end, e) implies breaks_off(
                writer.counting(),
                Seq::empty(),
                Some(seq![*self]),
                end,
                e,
            ) by {}
        }
        r
    }
}

/// What can be the parent of a value that is being written.
pub trait TypedParent {

}

/// A parent that a struct writer can take a strict writer from, and give it back to.
pub trait StrictParent<W: ByteWrite>: TypedParent + Sized {
    /// What is left of the parent while its writer is away.
    type Remnant;

    /// The invariant.
    spec fn wf(&self) -> bool;

    /// The writer of the parent.
    spec fn writer(&self) -> StrictWriter<W>;

    /// The parent with another writer in place of its own.
    spec fn with_writer(self, writer: StrictWriter<W>) -> Self;

    /// Whether `remnant` is what is left of the parent without its writer.
    spec fn leaves(&self, remnant: Self::Remnant) -> bool;

    /// The writer of a parent is in order if the parent is; another one can take its place; with
    /// its own the parent is what it was.
    proof fn writer_is_apart(parent: Self, writer: StrictWriter<W>)
        ensures
            parent.wf() ==> parent.writer().wf(),
            parent.wf() && writer.wf() ==> parent.with_writer(writer).wf(),
            parent.with_writer(writer).writer() == writer,
            parent.with_writer(parent.writer()) == parent,
    ;

    /// Of two writers that take the place of a parent's own one after the other the second stays.
    proof fn writer_is_replaced(parent: Self, first: StrictWriter<W>, second: StrictWriter<W>)
        ensures
            parent.with_writer(first).with_writer(second) == parent.with_writer(second),
    ;

    /// Puts a parent together.
    fn from_split(writer: StrictWriter<W>, remnant: Self::Remnant) -> (r: Self)
        ensures
            r.writer() == writer,
            r.leaves(remnant),
            forall|parent: Self| #[trigger]
                parent.leaves(remnant) ==> r == parent.with_writer(writer),
    ;

    /// Takes a parent apart.
    fn split_typed_write(self) -> (r: (StrictWriter<W>, Self::Remnant))
        ensures
            r.0 == self.writer(),
            self.leaves(r.1),
    ;
}

impl<W: ByteWrite> TypedParent for StrictWriter<W> {

}

/// A strict writer is its own writer, and nothing is left without it.
impl<W: ByteWrite> StrictParent<W> for StrictWriter<W> {
    type Remnant = ();

    open spec fn wf(&self) -> bool {
        StrictWriter::wf(*self)
    }

    open spec fn writer(&self) -> StrictWriter<W> {
        *self
    }

    open spec fn with_writer(self, writer: StrictWriter<W>) -> Self {
        writer
    }

    open spec fn leaves(&self, remnant: ()) -> bool {
        true
    }

    proof fn writer_is_apart(parent: Self, writer: StrictWriter<W>) {
    }

    proof fn writer_is_replaced(parent: Self, first: StrictWriter<W>, second: StrictWriter<W>) {
    }

    fn from_split(writer: StrictWriter<W>, remnant: ()) -> (r: Self)
        ensures
            r == writer,
    {
        writer
    }

    fn split_typed_write(self) -> (r: (StrictWriter<W>, ()))
        ensures
            r.0 == self,
    {
        (self, ())
    }
}

} // verus!
