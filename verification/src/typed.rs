//! What can be started on a strict writer.
use vstd::prelude::*;
use crate::encode::StrictParent;
use crate::ident::{ToIdent, ToMaybeIdent};
use crate::sink::ByteWrite;
use crate::structure::{FieldWriter, StructState, StructWriter};
use crate::variant::{UnionState, UnionWriter};
use crate::writer::StrictWriter;

verus! {

impl<W: ByteWrite> StrictWriter<W> {
    /// Starts a union.
    pub fn define_union<N: ToIdent>(self, name: Option<N>) -> (r: UnionWriter<W>)
        requires
            self.wf(),
        ensures
            r.wf(),
            r.state() == UnionState::fresh(name.maybe_ident(), None),
            r.writer() == self,
    {
        UnionWriter::with(name, self)
    }

    /// Starts an enum.
    pub fn define_enum<N: ToIdent>(self, name: Option<N>) -> (r: UnionWriter<W>)
        requires
            self.wf(),
        ensures
            r.wf(),
            r.state() == UnionState::fresh(name.maybe_ident(), None),
            r.writer() == self,
    {
        UnionWriter::with(name, self)
    }

    /// Starts a tuple.
    pub fn write_tuple<N: ToIdent>(self, name: Option<N>) -> (r: StructWriter<W, Self>)
        requires
            self.wf(),
        ensures
            r.wf(),
            r.state() == StructState::fresh(name.maybe_ident()),
            r.parent() == self,
    {
        StructWriter::with(name, self)
    }

    /// Starts a struct.
    pub fn write_struct<N: ToIdent>(self, name: Option<N>) -> (r: StructWriter<W, Self>)
        requires
            self.wf(),
        ensures
            r.wf(),
            r.state() == StructState::fresh(name.maybe_ident()),
            r.parent() == self,
    {
        StructWriter::with(name, self)
    }
}

} // verus!
