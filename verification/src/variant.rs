//! Unions and enums: `UnionWriter`, and the ways to define and to write variants.
use vstd::prelude::*;
use std::collections::BTreeMap;
use crate::encode::{StrictEncode, StrictParent, TypedParent};
use crate::error::WriteError;
use crate::field::{
    has_name, lemma_next_is_new, lemma_ord_of, next_ord, ord_of, Field, FieldNames, FieldSet,
};
use crate::ident::{text_of, Ident, ToIdent, ToMaybeIdent};
use crate::sink::{can_count_up_to, gives_up, ByteWrite, WriterModel};
use crate::structure::{FieldWriter, StructState, StructWriter};
use crate::writer::{CountingWriter, StrictWriter};

verus! {

/// What a variant holds.
#[derive(Copy, Clone, Debug, PartialEq, Eq, Structural)]
pub enum FieldType {
    Unit,
    Tuple,
    Struct,
}

/// What a union writer knows about its union.
#[verifier::ext_equal]
pub struct UnionState {
    /// The name of the union, if it has one.
    pub name: Option<Seq<char>>,
    /// The variants that are defined.
    pub variants: FieldNames,
    /// What each of them holds.
    pub kinds: Map<u8, FieldType>,
    /// Whether one of them has been written.
    pub written: bool,
    /// The name of the union that this one stands in, if it has one.
    pub parent_ident: Option<Seq<char>>,
}

impl UnionState {
    /// A union of which nothing is known but its name, and that of the union around it.
    pub open spec fn fresh(name: Option<Seq<char>>, parent_ident: Option<Seq<char>>) -> Self {
        UnionState {
            name,
            variants: Map::empty(),
            kinds: Map::empty(),
            written: false,
            parent_ident,
        }
    }

    /// The invariant: it is known of each variant what it holds.
    pub open spec fn wf(self) -> bool {
        self.kinds.dom() == self.variants.dom()
    }

    /// The union with one more variant.
    pub open spec fn with_variant(self, name: Seq<char>, ord: u8, kind: FieldType) -> Self {
        UnionState {
            variants: self.variants.insert(ord, Some(name)),
            kinds: self.kinds.insert(ord, kind),
            ..self
        }
    }

    /// Whether the variant with the given name may be written as one that holds `kind`.
    pub open spec fn can_write(self, name: Seq<char>, kind: FieldType) -> bool {
        &&& has_name(self.variants, name)
        &&& self.kinds[ord_of(self.variants, name)] == kind
        &&& !self.written
    }

    /// The union after a variant has been written.
    pub open spec fn after_write(self) -> Self {
        UnionState { written: true, ..self }
    }
}

/// The writer of a union or an enum.
pub struct UnionWriter<W: ByteWrite> {
    name: Option<Ident>,
    fields: FieldSet,
    kinds: BTreeMap<u8, FieldType>,
    writer: StrictWriter<W>,
    written: bool,
    parent_ident: Option<Ident>,
}

impl<W: ByteWrite> TypedParent for UnionWriter<W> {

}

/// A union lends its writer to the struct or the tuple in one of its variants.
impl<W: ByteWrite> StrictParent<W> for UnionWriter<W> {
    type Remnant = UnionWriter<Vec<u8>>;

    closed spec fn wf(&self) -> bool {
        &&& self.fields.wf()
        &&& self.kinds@.dom() == self.fields@.dom()
        &&& self.writer.wf()
    }

    closed spec fn writer(&self) -> StrictWriter<W> {
        self.writer
    }

    closed spec fn with_writer(self, writer: StrictWriter<W>) -> Self {
        UnionWriter { writer, ..self }
    }

    closed spec fn leaves(&self, remnant: UnionWriter<Vec<u8>>) -> bool {
        &&& remnant.name == self.name
        &&& remnant.fields == self.fields
        &&& remnant.kinds == self.kinds
        &&& remnant.written == self.written
        &&& remnant.parent_ident == self.parent_ident
    }

    proof fn writer_is_apart(parent: Self, writer: StrictWriter<W>) {
    }

    proof fn writer_is_replaced(parent: Self, first: StrictWriter<W>, second: StrictWriter<W>) {
    }

    fn from_split(writer: StrictWriter<W>, remnant: UnionWriter<Vec<u8>>) -> (r: Self)
        ensures
            r.state() == remnant.state(),
    {
        UnionWriter {
            name: remnant.name,
            fields: remnant.fields,
            kinds: remnant.kinds,
            writer,
            written: remnant.written,
            parent_ident: remnant.parent_ident,
        }
    }

    fn split_typed_write(self) -> (r: (StrictWriter<W>, UnionWriter<Vec<u8>>))
        ensures
            r.1.state() == self.state(),
            r.1.writer().counting().max() == 0,
            r.1.writer().inner()@ == Seq::<u8>::empty(),
            self.wf() ==> r.1.wf(),
    {
        let remnant = UnionWriter {
            name: self.name,
            fields: self.fields,
            kinds: self.kinds,
            writer: StrictWriter::<Vec<u8>>::in_memory(0),
            written: self.written,
            parent_ident: self.parent_ident,
        };
        (self.writer, remnant)
    }
}

impl<W: ByteWrite> UnionWriter<W> {
    /// What is known about the union.
    pub closed spec fn state(self) -> UnionState {
        UnionState {
            name: text_of(self.name),
            variants: self.fields@,
            kinds: self.kinds@,
            written: self.written,
            parent_ident: text_of(self.parent_ident),
        }
    }

    /// What is known about the union of a writer in order is in order.
    pub proof fn lemma_state(self)
        ensures
            self.wf() ==> self.state().wf(),
    {
    }

    /// What is known about the union does not depend on its writer.
    pub proof fn lemma_with_writer(self, writer: StrictWriter<W>)
        ensures
            self.with_writer(writer).state() == self.state(),
    {
    }

    /// Starts a union on top of `writer`.
    pub(crate) fn with<N: ToIdent>(name: Option<N>, writer: StrictWriter<W>) -> (r: Self)
        requires
            writer.wf(),
        ensures
            r.wf(),
            r.state() == UnionState::fresh(name.maybe_ident(), None),
            r.writer() == writer,
    {
        UnionWriter {
            name: name.to_maybe_ident(),
            fields: FieldSet::new(),
            kinds: BTreeMap::new(),
            writer,
            written: false,
            parent_ident: None,
        }
    }

    /// Starts a union inside another one, whose writer and name it takes over.
    pub fn inline<N: ToIdent>(name: Option<N>, uw: UnionWriter<W>) -> (r: Self)
        requires
            uw.wf(),
        ensures
            r.wf(),
            r.state() == UnionState::fresh(name.maybe_ident(), uw.state().name),
            r.writer() == uw.writer(),
    {
        UnionWriter {
            name: name.to_maybe_ident(),
            fields: FieldSet::new(),
            kinds: BTreeMap::new(),
            writer: uw.writer,
            written: false,
            parent_ident: uw.name,
        }
    }

    /// The name of the union, or what stands for it.
    pub fn name(&self) -> (r: &str)
        ensures
            r@ == (match self.state().name {
                Some(name) => name,
                None => "unnamed"@,
            }),
    {
        match &self.name {
            Some(name) => name.as_str(),
            None => "unnamed",
        }
    }

    /// The variants that are defined.
    pub fn fields(&self) -> (r: &FieldSet)
        requires
            self.wf(),
        ensures
            r.wf(),
            r@ == self.state().variants,
    {
        &self.fields
    }

    /// What the variant with the given name holds, if there is one; of several, the one with the
    /// lowest ordinal.
    pub fn kind_of(&self, name: &Ident) -> (r: Option<FieldType>)
        requires
            self.wf(),
        ensures
            r is Some <==> has_name(self.state().variants, name@),
            r matches Some(kind) ==> kind == self.state().kinds[ord_of(
                self.state().variants,
                name@,
            )],
    {
        match self.fields.find(name) {
            Some(field) => {
                proof {
                    lemma_ord_of(self.fields@, name@, field.ord);
                }
                match self.kinds.get(&field.ord) {
                    Some(kind) => Some(*kind),
                    None => None,
                }
            },
            None => None,
        }
    }

    /// Whether a variant has been written.
    pub fn is_written(&self) -> (r: bool)
        ensures
            r == self.state().written,
    {
        self.written
    }

    /// The ordinal after the last one in use, or 0 if none is.
    pub fn next_ord(&self) -> (r: u8)
        requires
            self.wf(),
            next_ord(self.state().variants) <= 255,
        ensures
            r == next_ord(self.state().variants),
    {
        self.fields.next_ord()
    }

    /// Adds a variant.
    fn _define_field(self, field: Field, field_type: FieldType) -> (r: Self)
        requires
            self.wf(),
            !self.state().variants.contains_key(field.ord),
            field.text() is Some,
        ensures
            r.wf(),
            r.state() == self.state().with_variant(field.text()->0, field.ord, field_type),
            r.writer() == self.writer(),
    {
        let mut fields = self.fields;
        let mut kinds = self.kinds;
        kinds.insert(field.ord, field_type);
        fields.insert(field);
        UnionWriter {
            name: self.name,
            fields,
            kinds,
            writer: self.writer,
            written: self.written,
            parent_ident: self.parent_ident,
        }
    }

    /// Writes a variant: the ordinal that its name stands for.
    fn _write_field(self, name: Ident, field_type: FieldType) -> (r: Result<Self, WriteError>)
        requires
            self.wf(),
            self.state().can_write(name@, field_type),
            can_count_up_to(self.writer().counting(), 1),
        ensures
            writes_variant::<W, Self>(self, name@, r),
            r matches Ok(after) ==> *final(after.writer().loan()) == *final(self.writer().loan()),
            r matches Err(error) ==> exists|end: CountingWriter<W>|
                {
                    &&& has_resolved(end)
                    &&& *final(end.loan()) == *final(self.writer().loan())
                    &&& #[trigger] gives_up(
                        self.writer().counting(),
                        seq![ord_of(self.state().variants, name@)],
                        end,
                        error,
                    )
                },
    {
        let ord: u8 = self.fields.find(&name).unwrap().ord;
        proof {
            lemma_ord_of(self.fields@, name@, ord);
        }
        match ord.strict_encode(self.writer) {
            Ok(writer) => Ok(
                UnionWriter {
                    name: self.name,
                    fields: self.fields,
                    kinds: self.kinds,
                    writer,
                    written: true,
                    parent_ident: self.parent_ident,
                },
            ),
            Err(e) => Err(e),
        }
    }

    /// Ends the definition of the union, which has a variant.
    fn _complete_definition(self) -> (r: Self)
        requires
            self.wf(),
            self.state().variants != FieldNames::empty(),
        ensures
            r == self,
    {
        self
    }

    /// Ends the writing of the union, of which a variant has been written, and gives the writer
    /// back.
    fn _complete_write(self) -> (r: StrictWriter<W>)
        requires
            self.wf(),
            self.state().written,
        ensures
            r == self.writer(),
            r.wf(),
    {
        self.writer
    }
}

/// A writer of the variants of a union.
pub trait VariantWriter<W: ByteWrite>: StrictParent<W> {
    /// What is known about the union.
    spec fn state(&self) -> UnionState;
}

impl<W: ByteWrite> VariantWriter<W> for UnionWriter<W> {
    open spec fn state(&self) -> UnionState {
        UnionWriter::state(*self)
    }
}

/// What becomes of `before` when a variant is written, as `r` tells, and when it is bound to be
/// written or to be turned down.
pub open spec fn writes_variant<W: ByteWrite, U: VariantWriter<W>>(
    before: U,
    name: Seq<char>,
    r: Result<U, WriteError>,
) -> bool {
    let writer = before.writer();
    let ord = ord_of(before.state().variants, name);
    &&& r matches Ok(after) ==> {
        &&& after.wf()
        &&& after.state() == before.state().after_write()
        &&& StrictWriter::takes(writer, seq![ord], after.writer())
    }
    &&& writer.counting().over_limit(1) ==> (r matches Err(WriteError::InvalidInput))
    &&& writer.counting().accepts(1) ==> r is Ok
}

/// What becomes of `before` when a variant is written that holds fields of its own, as `r` tells:
/// a writer for them.
pub open spec fn opens_variant<W: ByteWrite, U: VariantWriter<W>>(
    before: U,
    name: Seq<char>,
    r: Result<StructWriter<W, U>, WriteError>,
) -> bool {
    &&& r matches Ok(inside) ==> {
        &&& inside.wf()
        &&& inside.state() == StructState::fresh(Some(name))
    }
    &&& writes_variant::<W, U>(
        before,
        name,
        match r {
            Ok(inside) => Ok(inside.parent()),
            Err(e) => Err(e),
        },
    )
}

/// Defines the variants of a union.
pub trait DefineUnion<W: ByteWrite>: VariantWriter<W> {
    /// Defines the next variant, which holds nothing.
    fn define_unit<N: ToIdent>(self, name: N) -> (r: Self)
        requires
            self.wf(),
            next_ord(self.state().variants) <= 255,
        ensures
            r.wf(),
            r.state() == self.state().with_variant(
                name.ident(),
                next_ord(self.state().variants) as u8,
                FieldType::Unit,
            ),
            r.writer() == self.writer(),
    ;

    /// Defines the next variant, which holds the tuple that is defined through the result.
    fn define_tuple<N: ToIdent>(self, name: N) -> (r: StructWriter<W, Self>)
        requires
            self.wf(),
            next_ord(self.state().variants) <= 255,
        ensures
            r.wf(),
            r.state() == StructState::fresh(Some(name.ident())),
            r.parent().state() == self.state().with_variant(
                name.ident(),
                next_ord(self.state().variants) as u8,
                FieldType::Tuple,
            ),
            r.parent().writer() == self.writer(),
            r.parent().wf(),
    ;

    /// Defines the next variant, which holds the struct that is defined through the result.
    fn define_struct<N: ToIdent>(self, name: N) -> (r: StructWriter<W, Self>)
        requires
            self.wf(),
            next_ord(self.state().variants) <= 255,
        ensures
            r.wf(),
            r.state() == StructState::fresh(Some(name.ident())),
            r.parent().state() == self.state().with_variant(
                name.ident(),
                next_ord(self.state().variants) as u8,
                FieldType::Struct,
            ),
            r.parent().writer() == self.writer(),
            r.parent().wf(),
    ;

    /// Ends the definition, which has a variant.
    fn complete(self) -> (r: Self)
        requires
            self.wf(),
            self.state().variants != FieldNames::empty(),
        ensures
            r == self,
    ;
}

/// Writes a variant of a union.
pub trait WriteUnion<W: ByteWrite>: VariantWriter<W> {
    /// Writes a variant that holds nothing.
    fn write_unit<N: ToIdent>(self, name: N) -> (r: Result<Self, WriteError>)
        requires
            self.wf(),
            self.state().can_write(name.ident(), FieldType::Unit),
            can_count_up_to(self.writer().counting(), 1),
        ensures
            writes_variant::<W, Self>(self, name.ident(), r),
            r matches Ok(after) ==> *final(after.writer().loan()) == *final(self.writer().loan()),
            r matches Err(error) ==> exists|end: CountingWriter<W>|
                {
                    &&& has_resolved(end)
                    &&& *final(end.loan()) == *final(self.writer().loan())
                    &&& #[trigger] gives_up(
                        self.writer().counting(),
                        seq![ord_of(self.state().variants, name.ident())],
                        end,
                        error,
                    )
                },
    ;

    /// Writes a variant that holds a tuple, which is written through the result.
    fn write_tuple<N: ToIdent>(self, name: N) -> (r: Result<StructWriter<W, Self>, WriteError>)
        requires
            self.wf(),
            self.state().can_write(name.ident(), FieldType::Tuple),
            can_count_up_to(self.writer().counting(), 1),
        ensures
            opens_variant::<W, Self>(self, name.ident(), r),
            r matches Ok(inside) ==> *final(inside.parent().writer().loan()) == *final(
                self.writer().loan()
            ),
            r matches Err(error) ==> exists|end: CountingWriter<W>|
                {
                    &&& has_resolved(end)
                    &&& *final(end.loan()) == *final(self.writer().loan())
                    &&& #[trigger] gives_up(
                        self.writer().counting(),
                        seq![ord_of(self.state().variants, name.ident())],
                        end,
                        error,
                    )
                },
    ;

    /// Writes a variant that holds a struct, which is written through the result.
    fn write_struct<N: ToIdent>(self, name: N) -> (r: Result<StructWriter<W, Self>, WriteError>)
        requires
            self.wf(),
            self.state().can_write(name.ident(), FieldType::Struct),
            can_count_up_to(self.writer().counting(), 1),
        ensures
            opens_variant::<W, Self>(self, name.ident(), r),
            r matches Ok(inside) ==> *final(inside.parent().writer().loan()) == *final(
                self.writer().loan()
            ),
            r matches Err(error) ==> exists|end: CountingWriter<W>|
                {
                    &&& has_resolved(end)
                    &&& *final(end.loan()) == *final(self.writer().loan())
                    &&& #[trigger] gives_up(
                        self.writer().counting(),
                        seq![ord_of(self.state().variants, name.ident())],
                        end,
                        error,
                    )
                },
    ;

    /// Ends the writing: a variant has been written.
    fn complete(self) -> (r: StrictWriter<W>)
        requires
            self.wf(),
            self.state().written,
        ensures
            r == self.writer(),
            r.wf(),
    ;
}

/// Defines the variants of an enum.
pub trait DefineEnum<W: ByteWrite>: VariantWriter<W> {
    /// Defines a variant that stands for `value`.
    fn define_variant<N: ToIdent>(self, name: N, value: u8) -> (r: Self)
        requires
            self.wf(),
            !self.state().variants.contains_key(value),
        ensures
            r.wf(),
            r.state() == self.state().with_variant(name.ident(), value, FieldType::Unit),
            r.writer() == self.writer(),
    ;

    /// Ends the definition, which has a variant.
    fn complete(self) -> (r: Self)
        requires
            self.wf(),
            self.state().variants != FieldNames::empty(),
        ensures
            r == self,
    ;
}

/// Writes a variant of an enum.
pub trait WriteEnum<W: ByteWrite>: VariantWriter<W> {
    /// Writes a variant.
    fn write_variant<N: ToIdent>(self, name: N) -> (r: Result<Self, WriteError>)
        requires
            self.wf(),
            self.state().can_write(name.ident(), FieldType::Unit),
            can_count_up_to(self.writer().counting(), 1),
        ensures
            writes_variant::<W, Self>(self, name.ident(), r),
            r matches Ok(after) ==> *final(after.writer().loan()) == *final(self.writer().loan()),
            r matches Err(error) ==> exists|end: CountingWriter<W>|
                {
                    &&& has_resolved(end)
                    &&& *final(end.loan()) == *final(self.writer().loan())
                    &&& #[trigger] gives_up(
                        self.writer().counting(),
                        seq![ord_of(self.state().variants, name.ident())],
                        end,
                        error,
                    )
                },
    ;

    /// Ends the writing: a variant has been written.
    fn complete(self) -> (r: StrictWriter<W>)
        requires
            self.wf(),
            self.state().written,
        ensures
            r == self.writer(),
            r.wf(),
    ;
}

impl<W: ByteWrite> DefineUnion<W> for UnionWriter<W> {
    fn define_unit<N: ToIdent>(self, name: N) -> (r: Self) {
        proof {
            lemma_next_is_new(self.state().variants);
        }
        let field = Field::named(name.to_ident(), self.next_ord());
        self._define_field(field, FieldType::Unit)
    }

    fn define_tuple<N: ToIdent>(self, name: N) -> (r: StructWriter<W, Self>) {
        proof {
            lemma_next_is_new(self.state().variants);
        }
        let field = Field::named(name.to_ident(), self.next_ord());
        let union = self._define_field(field, FieldType::Tuple);
        StructWriter::with(Some(name), union)
    }

    fn define_struct<N: ToIdent>(self, name: N) -> (r: StructWriter<W, Self>) {
        proof {
            lemma_next_is_new(self.state().variants);
        }
        let field = Field::named(name.to_ident(), self.next_ord());
        let union = self._define_field(field, FieldType::Struct);
        StructWriter::with(Some(name), union)
    }

    fn complete(self) -> (r: Self) {
        self._complete_definition()
    }
}

impl<W: ByteWrite> WriteUnion<W> for UnionWriter<W> {
    fn write_unit<N: ToIdent>(self, name: N) -> (r: Result<Self, WriteError>) {
        self._write_field(name.to_ident(), FieldType::Unit)
    }

    fn write_tuple<N: ToIdent>(self, name: N) -> (r: Result<StructWriter<W, Self>, WriteError>) {
        match self._write_field(name.to_ident(), FieldType::Tuple) {
            Ok(union) => Ok(StructWriter::with(Some(name), union)),
            Err(e) => Err(e),
        }
    }

    fn write_struct<N: ToIdent>(self, name: N) -> (r: Result<StructWriter<W, Self>, WriteError>) {
        match self._write_field(name.to_ident(), FieldType::Struct) {
            Ok(union) => Ok(StructWriter::with(Some(name), union)),
            Err(e) => Err(e),
        }
    }

    fn complete(self) -> (r: StrictWriter<W>) {
        self._complete_write()
    }
}

impl<W: ByteWrite> DefineEnum<W> for UnionWriter<W> {
    fn define_variant<N: ToIdent>(self, name: N, value: u8) -> (r: Self) {
        let field = Field::named(name.to_ident(), value);
        self._define_field(field, FieldType::Unit)
    }

    fn complete(self) -> (r: Self) {
        self._complete_definition()
    }
}

impl<W: ByteWrite> WriteEnum<W> for UnionWriter<W> {
    fn write_variant<N: ToIdent>(self, name: N) -> (r: Result<Self, WriteError>) {
        self._write_field(name.to_ident(), FieldType::Unit)
    }

    fn complete(self) -> (r: StrictWriter<W>) {
        self._complete_write()
    }
}

} // verus!
