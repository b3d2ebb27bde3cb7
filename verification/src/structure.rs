//! Structs and tuples: `StructWriter`, and the ways to define and to write fields.
use vstd::prelude::*;
use std::collections::BTreeSet;
use std::marker::PhantomData;
use crate::encode::{StrictEncode, StrictParent};
use crate::error::WriteError;
use crate::field::{has_name, is_ord_of, lemma_next_is_new, next_ord, Field, FieldNames, FieldSet};
use crate::ident::{text_of, FieldName, Ident, ToIdent, ToMaybeIdent};
use crate::sink::{
    accepts_up_to, breaks_off, can_count_up_to, gives_up, takes_in_turn, takes_leaves, ByteWrite,
    WriterModel,
};
use crate::writer::{CountingWriter, StrictWriter};

verus! {

/// What a struct writer knows about its struct.
#[verifier::ext_equal]
pub struct StructState {
    /// The name of the struct, if it has one.
    pub name: Option<Seq<char>>,
    /// The fields that are known.
    pub fields: FieldNames,
    /// The ordinals of the fields that are still to be written.
    pub pending: Set<u8>,
    /// Whether the definition is complete.
    pub defined: bool,
}

impl StructState {
    /// A struct of which nothing is known but its name.
    pub open spec fn fresh(name: Option<Seq<char>>) -> Self {
        StructState { name, fields: Map::empty(), pending: Set::empty(), defined: false }
    }

    /// The invariant: what is to be written is known.
    pub open spec fn wf(self) -> bool {
        self.pending.subset_of(self.fields.dom())
    }

    /// The struct with one more field to be written.
    pub open spec fn with_field(self, text: Option<Seq<char>>, ord: u8) -> Self {
        StructState {
            fields: self.fields.insert(ord, text),
            pending: self.pending.insert(ord),
            ..self
        }
    }

    /// Whether a field may be written: one that waits for it if the struct has been defined, one
    /// that is new if it has not.
    pub open spec fn can_write(self, ord: u8) -> bool {
        if self.defined {
            self.fields.contains_key(ord) && self.pending.contains(ord)
        } else {
            !self.fields.contains_key(ord)
        }
    }

    /// The struct after a field has been written.
    pub open spec fn after_write(self, text: Option<Seq<char>>, ord: u8) -> Self {
        let known = if self.defined {
            self
        } else {
            self.with_field(text, ord)
        };
        StructState { pending: known.pending.remove(ord), ..known }
    }
}

/// A writer of the fields of a struct, with a parent that it hands back when it is done.
pub trait FieldWriter: Sized {
    /// Where the bytes go.
    type Out: ByteWrite;

    /// What the writer stands on.
    type Parent: StrictParent<Self::Out>;

    /// The invariant.
    spec fn wf(&self) -> bool;

    /// What is known about the struct.
    spec fn state(&self) -> StructState;

    /// The parent.
    spec fn parent(&self) -> Self::Parent;
}

/// The bytes of a field: its ordinal, and the encoding of its value.
pub open spec fn field_bytes<T: StrictEncode + ?Sized>(ord: u8, value: &T) -> Seq<u8> {
    seq![ord] + value.encoding()
}

/// The bytes of a struct: those of its fields, each given as its ordinal and the encoding of its
/// value, in the order in which they are written.
pub open spec fn struct_bytes(items: Seq<(u8, Seq<u8>)>) -> Seq<u8>
    decreases items.len(),
{
    if items.len() == 0 {
        Seq::empty()
    } else {
        struct_bytes(items.drop_last()) + (seq![items.last().0] + items.last().1)
    }
}

/// Whether writing a field to `writer` may fail with `error` and leave the writer as `end`: because
/// the ordinal is not taken, or because the value then fails to be encoded to the writer that has
/// taken it, which is not undone.
pub open spec fn field_fails_with<W: ByteWrite, T: StrictEncode>(
    writer: StrictWriter<W>,
    ord: u8,
    value: &T,
    end: CountingWriter<W>,
    error: WriteError,
) -> bool {
    let len = value.encoding().len();
    ||| !writer.counting().accepts(1) && gives_up(writer.counting(), seq![ord], end, error)
    ||| exists|mid: StrictWriter<W>, done: Seq<u8>, offered: Option<Seq<u8>>|
        {
            &&& #[trigger] StrictWriter::takes(writer, seq![ord], mid)
            &&& mid.wf()
            &&& !(value.encodable() && accepts_up_to(mid.counting(), len))
            &&& value.fails_at(done, offered, error)
            &&& #[trigger] breaks_off(mid.counting(), done, offered, end, error)
        }
}

/// Whether `before` may turn into `after` by a field that is written.
pub open spec fn wrote_field<F: FieldWriter>(
    before: F,
    text: Option<Seq<char>>,
    ord: u8,
    encoding: Seq<u8>,
    after: F,
) -> bool {
    &&& after.wf()
    &&& after.state() == before.state().after_write(text, ord)
    &&& after.parent() == before.parent().with_writer(after.parent().writer())
    &&& after.parent().writer().wf()
    &&& StrictWriter::takes(before.parent().writer(), seq![ord] + encoding, after.parent().writer())
}

/// What becomes of `before` when a field is written, as `r` tells, and when it is bound to be
/// written or to be turned down.
pub open spec fn writes_field<F: FieldWriter, T: StrictEncode>(
    before: F,
    text: Option<Seq<char>>,
    ord: u8,
    value: &T,
    r: Result<F, WriteError>,
) -> bool {
    let writer = before.parent().writer();
    &&& r matches Ok(after) ==> wrote_field(before, text, ord, value.encoding(), after)
    &&& writer.counting().over_limit(1) ==> (r matches Err(WriteError::InvalidInput))
    &&& value.encodable() && accepts_up_to(
        writer.counting(),
        field_bytes(ord, value).len(),
    ) ==> r is Ok
}

/// What is known about a struct: its name, its fields, and which of them are to be written.
struct Outline {
    name: Option<Ident>,
    fields: FieldSet,
    ords: BTreeSet<u8>,
    defined: bool,
}

impl Outline {
    spec fn wf(self) -> bool {
        &&& self.fields.wf()
        &&& self.state().wf()
    }

    spec fn state(self) -> StructState {
        StructState {
            name: text_of(self.name),
            fields: self.fields@,
            pending: self.ords@,
            defined: self.defined,
        }
    }

    fn new(name: Option<Ident>) -> (r: Self)
        ensures
            r.wf(),
            r.state() == StructState::fresh(text_of(name)),
    {
        Outline { name, fields: FieldSet::new(), ords: BTreeSet::new(), defined: false }
    }

    /// Adds a field that is to be written.
    fn define(&mut self, field: Field)
        requires
            old(self).wf(),
            !old(self).state().fields.contains_key(field.ord),
        ensures
            final(self).wf(),
            final(self).state() == old(self).state().with_field(field.text(), field.ord),
    {
        let ord: u8 = field.ord;
        self.fields.insert(field);
        self.ords.insert(ord);
    }

    /// Notes that a field is being written, which is defined by that unless the definition is
    /// complete.
    fn mark(&mut self, field: Field)
        requires
            old(self).wf(),
            old(self).state().can_write(field.ord),
        ensures
            final(self).wf(),
            final(self).state() == old(self).state().after_write(field.text(), field.ord),
    {
        let ord: u8 = field.ord;
        if !self.defined {
            self.define(field);
        }
        self.ords.remove(&ord);
    }
}

/// The writer of a struct or a tuple.
pub struct StructWriter<W: ByteWrite, P: StrictParent<W>> {
    outline: Outline,
    parent: P,
    _phantom: PhantomData<W>,
}

impl<W: ByteWrite, P: StrictParent<W>> FieldWriter for StructWriter<W, P> {
    type Out = W;

    type Parent = P;

    closed spec fn wf(&self) -> bool {
        self.outline.wf() && self.parent.wf()
    }

    closed spec fn state(&self) -> StructState {
        self.outline.state()
    }

    closed spec fn parent(&self) -> P {
        self.parent
    }
}

impl<W: ByteWrite, P: StrictParent<W>> StructWriter<W, P> {
    /// What is known about the struct of a writer in order is in order.
    pub proof fn lemma_state(self)
        ensures
            self.wf() ==> self.state().wf(),
    {
    }

    /// Starts a struct on top of `parent`.
    pub fn with<N: ToIdent>(name: Option<N>, parent: P) -> (r: Self)
        requires
            parent.wf(),
        ensures
            r.wf(),
            r.state() == StructState::fresh(name.maybe_ident()),
            r.parent() == parent,
    {
        StructWriter {
            outline: Outline::new(name.to_maybe_ident()),
            parent,
            _phantom: PhantomData,
        }
    }

    /// Whether the definition of the struct is complete.
    pub fn is_defined(&self) -> (r: bool)
        ensures
            r == self.state().defined,
    {
        self.outline.defined
    }

    /// Whether nothing is left to be written.
    pub fn is_written(&self) -> (r: bool)
        ensures
            r == (self.state().pending == Set::<u8>::empty()),
    {
        self.outline.ords.is_empty()
    }

    /// The parent, to be changed in place.
    pub fn as_parent_mut(&mut self) -> (r: &mut P)
        ensures
            *r == old(self).parent(),
            final(self).parent() == *final(r),
            final(self).state() == old(self).state(),
            old(self).wf() && (*final(r)).wf() ==> final(self).wf(),
    {
        &mut self.parent
    }

    /// The ordinal of the field with the given name; of several, the lowest.
    pub fn field_ord(&self, field_name: &FieldName) -> (r: Option<u8>)
        requires
            self.wf(),
        ensures
            r is None <==> !has_name(self.state().fields, field_name@),
            r matches Some(ord) ==> is_ord_of(self.state().fields, field_name@, ord),
    {
        match self.outline.fields.find(field_name) {
            Some(field) => Some(field.ord),
            None => None,
        }
    }

    /// The fields that are known.
    pub fn fields(&self) -> (r: &FieldSet)
        requires
            self.wf(),
        ensures
            r.wf(),
            r@ == self.state().fields,
    {
        &self.outline.fields
    }

    /// The name of the struct, or what stands for it.
    pub fn name(&self) -> (r: &str)
        ensures
            r@ == (match self.state().name {
                Some(name) => name,
                None => "<unnamed>"@,
            }),
    {
        match &self.outline.name {
            Some(name) => name.as_str(),
            None => "<unnamed>",
        }
    }

    /// The ordinal after the last one in use, or 0 if none is.
    pub fn next_ord(&self) -> (r: u8)
        requires
            self.wf(),
            next_ord(self.state().fields) <= 255,
        ensures
            r == next_ord(self.state().fields),
    {
        self.outline.fields.next_ord()
    }

    /// Adds a field that is to be written.
    fn _define_field(self, field: Field) -> (r: Self)
        requires
            self.wf(),
            !self.state().fields.contains_key(field.ord),
        ensures
            r.wf(),
            r.state() == self.state().with_field(field.text(), field.ord),
            r.parent() == self.parent(),
    {
        let mut outline = self.outline;
        outline.define(field);
        StructWriter { outline, parent: self.parent, _phantom: PhantomData }
    }

    /// Takes up the struct again when the encoders have answered: with the writer that they give
    /// back, or not at all if they failed.
    fn resume(
        outline: Outline,
        remnant: P::Remnant,
        answer: Result<StrictWriter<W>, WriteError>,
    ) -> (r: Result<Self, WriteError>)
        ensures
            match answer {
                Ok(writer) => {
                    &&& r is Ok
                    &&& r->Ok_0.outline == outline
                    &&& r->Ok_0.parent.writer() == writer
                    &&& forall|parent: P| #[trigger]
                        parent.leaves(remnant) ==> r->Ok_0.parent == parent.with_writer(writer)
                },
                Err(e) => r == Err::<Self, WriteError>(e),
            },
    {
        match answer {
            Ok(writer) => Ok(
                StructWriter {
                    outline,
                    parent: P::from_split(writer, remnant),
                    _phantom: PhantomData,
                },
            ),
            Err(e) => Err(e),
        }
    }

    /// Writes a field: its ordinal, then its value.
    fn _write_field<T: StrictEncode>(self, field: Field, value: &T) -> (r: Result<Self, WriteError>)
        requires
            self.wf(),
            self.state().can_write(field.ord),
            can_count_up_to(
                self.parent().writer().counting(),
                field_bytes(field.ord, value).len(),
            ),
        ensures
            writes_field(self, field.text(), field.ord, value, r),
            r matches Ok(after) ==> *final(after.parent().writer().loan()) == *final(
                self.parent().writer().loan()
            ),
            r matches Err(error) ==> exists|end: CountingWriter<W>|
                {
                    &&& has_resolved(end)
                    &&& *final(end.loan()) == *final(self.parent().writer().loan())
                    &&& #[trigger] field_fails_with(
                        self.parent().writer(),
                        field.ord,
                        value,
                        end,
                        error,
                    )
                },
    {
        let mut outline = self.outline;
        let ord: u8 = field.ord;
        outline.mark(field);
        let ghost parent = self.parent;
        let ghost start = self.parent.writer();
        proof {
            assert(field_bytes(ord, value).len() == 1 + value.encoding().len());
            P::writer_is_apart(parent, start);
        }
        let (writer, remnant) = self.parent.split_typed_write();
        let answer = match ord.strict_encode(writer) {
            Ok(writer) => {
                proof {
                    let bytes = seq![ord];
                    let len = value.encoding().len();
                    assert forall|m: nat|
                        m <= len implies #[trigger] writer.counting().can_count(m) by {
                        takes_leaves(start.counting(), bytes, writer.counting(), m);
                        assert(start.counting().can_count(bytes.len() + m));
                    }
                    if accepts_up_to(start.counting(), 1 + len) {
                        assert forall|m: nat|
                            m <= len implies #[trigger] writer.counting().accepts(m) by {
                            takes_leaves(start.counting(), bytes, writer.counting(), m);
                            assert(start.counting().accepts(bytes.len() + m));
                        }
                    }
                }
                let answer = value.strict_encode(writer);
                proof {
                    if answer is Ok {
                        takes_in_turn(
                            start.counting(),
                            seq![ord],
                            writer.counting(),
                            value.encoding(),
                            answer->Ok_0.counting(),
                        );
                        StrictWriter::lemma_takes(
                            start,
                            field_bytes(ord, value),
                            answer->Ok_0,
                        );
                    } else {
                        assert forall|
                            done: Seq<u8>,
                            offered: Option<Seq<u8>>,
                            end: CountingWriter<W>,
                        |
                            value.fails_at(done, offered, answer->Err_0) && #[trigger] breaks_off(
                                writer.counting(),
                                done,
                                offered,
                                end,
                                answer->Err_0,
                            ) implies field_fails_with(start, ord, value, end, answer->Err_0) by {}
                    }
                }
                answer
            },
            Err(e) => {
                proof {
                    assert forall|
                        done: Seq<u8>,
                        offered: Option<Seq<u8>>,
                        end: CountingWriter<W>,
                    |
                        ord.fails_at(done, offered, e) && #[trigger] breaks_off(
                            start.counting(),
                            done,
                            offered,
                            end,
                            e,
                        ) implies field_fails_with(start, ord, value, end, e) by {}
                }
                Err(e)
            },
        };
        let r = Self::resume(outline, remnant, answer);
        proof {
            if answer is Ok {
                P::writer_is_apart(parent, answer->Ok_0);
            }
        }
        r
    }

    /// Ends the definition of the struct, which has a field, and gives the parent back.
    fn _complete_definition(self) -> (r: P)
        requires
            self.wf(),
            self.state().fields != FieldNames::empty(),
        ensures
            r == self.parent(),
            r.wf(),
    {
        self.parent
    }

    /// Ends the writing of the struct, of which nothing is left to be written, and gives the parent
    /// back.
    fn _complete_write(self) -> (r: P)
        requires
            self.wf(),
            self.state().pending == Set::<u8>::empty(),
        ensures
            r == self.parent(),
            r.wf(),
    {
        self.parent
    }
}

/// Defines the fields of a struct.
pub trait DefineStruct: FieldWriter {
    /// Defines the next field.
    fn define_field<T: StrictEncode, N: ToIdent>(self, name: N) -> (r: Self)
        requires
            self.wf(),
            next_ord(self.state().fields) <= 255,
        ensures
            r.wf(),
            r.state() == self.state().with_field(
                Some(name.ident()),
                next_ord(self.state().fields) as u8,
            ),
            r.parent() == self.parent(),
    ;

    /// Defines a field with an ordinal of its own.
    fn define_field_ord<T: StrictEncode, N: ToIdent>(self, name: N, ord: u8) -> (r: Self)
        requires
            self.wf(),
            !self.state().fields.contains_key(ord),
        ensures
            r.wf(),
            r.state() == self.state().with_field(Some(name.ident()), ord),
            r.parent() == self.parent(),
    ;

    /// Ends the definition, which has a field.
    fn complete(self) -> (r: Self::Parent)
        requires
            self.wf(),
            self.state().fields != FieldNames::empty(),
        ensures
            r == self.parent(),
            r.wf(),
    ;
}

/// Writes the fields of a struct.
pub trait WriteStruct: FieldWriter {
    /// Writes the next field, which is new.
    fn write_field<T: StrictEncode, N: ToIdent>(self, name: N, value: &T) -> (r: Result<
        Self,
        WriteError,
    >)
        requires
            self.wf(),
            next_ord(self.state().fields) <= 255,
            !self.state().defined,
            can_count_up_to(self.parent().writer().counting(), 1 + value.encoding().len()),
        ensures
            writes_field(self, Some(name.ident()), next_ord(self.state().fields) as u8, value, r),
            r matches Ok(after) ==> *final(after.parent().writer().loan()) == *final(
                self.parent().writer().loan()
            ),
            r matches Err(error) ==> exists|end: CountingWriter<Self::Out>|
                {
                    &&& has_resolved(end)
                    &&& *final(end.loan()) == *final(self.parent().writer().loan())
                    &&& #[trigger] field_fails_with(
                        self.parent().writer(),
                        next_ord(self.state().fields) as u8,
                        value,
                        end,
                        error,
                    )
                },
    ;

    /// Writes a field with an ordinal of its own.
    fn write_field_ord<T: StrictEncode, N: ToIdent>(
        self,
        name: N,
        ord: u8,
        value: &T,
    ) -> (r: Result<Self, WriteError>)
        requires
            self.wf(),
            self.state().can_write(ord),
            can_count_up_to(self.parent().writer().counting(), 1 + value.encoding().len()),
        ensures
            writes_field(self, Some(name.ident()), ord, value, r),
            r matches Ok(after) ==> *final(after.parent().writer().loan()) == *final(
                self.parent().writer().loan()
            ),
            r matches Err(error) ==> exists|end: CountingWriter<Self::Out>|
                {
                    &&& has_resolved(end)
                    &&& *final(end.loan()) == *final(self.parent().writer().loan())
                    &&& #[trigger] field_fails_with(
                        self.parent().writer(),
                        ord,
                        value,
                        end,
                        error,
                    )
                },
    ;

    /// Ends the writing, with nothing left to be written.
    fn complete(self) -> (r: Self::Parent)
        requires
            self.wf(),
            self.state().pending == Set::<u8>::empty(),
        ensures
            r == self.parent(),
            r.wf(),
    ;
}

/// Defines the fields of a tuple.
pub trait DefineTuple: FieldWriter {
    /// Defines the next field.
    fn define_field<T: StrictEncode>(self) -> (r: Self)
        requires
            self.wf(),
            next_ord(self.state().fields) <= 255,
        ensures
            r.wf(),
            r.state() == self.state().with_field(None, next_ord(self.state().fields) as u8),
            r.parent() == self.parent(),
    ;

    /// Defines a field with an ordinal of its own.
    fn define_field_ord<T: StrictEncode>(self, ord: u8) -> (r: Self)
        requires
            self.wf(),
            !self.state().fields.contains_key(ord),
        ensures
            r.wf(),
            r.state() == self.state().with_field(None, ord),
            r.parent() == self.parent(),
    ;

    /// Ends the definition, which has a field.
    fn complete(self) -> (r: Self::Parent)
        requires
            self.wf(),
            self.state().fields != FieldNames::empty(),
        ensures
            r == self.parent(),
            r.wf(),
    ;
}

/// Writes the fields of a tuple.
pub trait WriteTuple: FieldWriter {
    /// Writes the next field, which is new.
    fn write_field<T: StrictEncode>(self, value: &T) -> (r: Result<Self, WriteError>)
        requires
            self.wf(),
            next_ord(self.state().fields) <= 255,
            !self.state().defined,
            can_count_up_to(self.parent().writer().counting(), 1 + value.encoding().len()),
        ensures
            writes_field(self, None, next_ord(self.state().fields) as u8, value, r),
            r matches Ok(after) ==> *final(after.parent().writer().loan()) == *final(
                self.parent().writer().loan()
            ),
            r matches Err(error) ==> exists|end: CountingWriter<Self::Out>|
                {
                    &&& has_resolved(end)
                    &&& *final(end.loan()) == *final(self.parent().writer().loan())
                    &&& #[trigger] field_fails_with(
                        self.parent().writer(),
                        next_ord(self.state().fields) as u8,
                        value,
                        end,
                        error,
                    )
                },
    ;

    /// Writes a field with an ordinal of its own.
    fn write_field_ord<T: StrictEncode>(self, ord: u8, value: &T) -> (r: Result<
        Self,
        WriteError,
    >)
        requires
            self.wf(),
            self.state().can_write(ord),
            can_count_up_to(self.parent().writer().counting(), 1 + value.encoding().len()),
        ensures
            writes_field(self, None, ord, value, r),
            r matches Ok(after) ==> *final(after.parent().writer().loan()) == *final(
                self.parent().writer().loan()
            ),
            r matches Err(error) ==> exists|end: CountingWriter<Self::Out>|
                {
                    &&& has_resolved(end)
                    &&& *final(end.loan()) == *final(self.parent().writer().loan())
                    &&& #[trigger] field_fails_with(
                        self.parent().writer(),
                        ord,
                        value,
                        end,
                        error,
                    )
                },
    ;

    /// Ends the writing, with nothing left to be written.
    fn complete(self) -> (r: Self::Parent)
        requires
            self.wf(),
            self.state().pending == Set::<u8>::empty(),
        ensures
            r == self.parent(),
            r.wf(),
    ;
}

impl<W: ByteWrite, P: StrictParent<W>> DefineStruct for StructWriter<W, P> {
    fn define_field<T: StrictEncode, N: ToIdent>(self, name: N) -> (r: Self) {
        let ord: u8 = self.next_ord();
        proof {
            lemma_next_is_new(self.state().fields);
        }
        DefineStruct::define_field_ord::<T, N>(self, name, ord)
    }

    fn define_field_ord<T: StrictEncode, N: ToIdent>(self, name: N, ord: u8) -> (r: Self) {
        let field = Field::named(name.to_ident(), ord);
        self._define_field(field)
    }

    fn complete(self) -> (r: P) {
        self._complete_definition()
    }
}

impl<W: ByteWrite, P: StrictParent<W>> WriteStruct for StructWriter<W, P> {
    fn write_field<T: StrictEncode, N: ToIdent>(self, name: N, value: &T) -> (r: Result<
        Self,
        WriteError,
    >) {
        let ord: u8 = self.next_ord();
        proof {
            lemma_next_is_new(self.state().fields);
        }
        WriteStruct::write_field_ord(self, name, ord, value)
    }

    fn write_field_ord<T: StrictEncode, N: ToIdent>(
        self,
        name: N,
        ord: u8,
        value: &T,
    ) -> (r: Result<Self, WriteError>) {
        let field = Field::named(name.to_ident(), ord);
        self._write_field(field, value)
    }

    fn complete(self) -> (r: P) {
        self._complete_write()
    }
}

impl<W: ByteWrite, P: StrictParent<W>> DefineTuple for StructWriter<W, P> {
    fn define_field<T: StrictEncode>(self) -> (r: Self) {
        let ord: u8 = self.next_ord();
        proof {
            lemma_next_is_new(self.state().fields);
        }
        DefineTuple::define_field_ord::<T>(self, ord)
    }

    fn define_field_ord<T: StrictEncode>(self, ord: u8) -> (r: Self) {
        let field = Field::unnamed(ord);
        self._define_field(field)
    }

    fn complete(self) -> (r: P) {
        self._complete_definition()
    }
}

impl<W: ByteWrite, P: StrictParent<W>> WriteTuple for StructWriter<W, P> {
    fn write_field<T: StrictEncode>(self, value: &T) -> (r: Result<Self, WriteError>) {
        let ord: u8 = self.next_ord();
        proof {
            lemma_next_is_new(self.state().fields);
        }
        WriteTuple::write_field_ord(self, ord, value)
    }

    fn write_field_ord<T: StrictEncode>(self, ord: u8, value: &T) -> (r: Result<
        Self,
        WriteError,
    >) {
        let field = Field::unnamed(ord);
        self._write_field(field, value)
    }

    fn complete(self) -> (r: P) {
        self._complete_write()
    }
}

} // verus!
