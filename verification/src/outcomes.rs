//! What comes out of the writers, told by what goes in: bytes, names, ordinals and lengths.
use vstd::prelude::*;
use vstd::std_specs::cmp::PartialEqSpec;
use amplify::WriteCounter;
use std::io::Sink;
use crate::encode::{StrictEncode, StrictParent};
use crate::error::WriteError;
use crate::field::{
    has_name, in_order, is_ord_of, lemma_next_is_new, lemma_ord_of, names_of, next_ord, ord_of,
    Field, FieldNames,
};
use crate::ident::{text_of, Ident, ToIdent, ToMaybeIdent};
use crate::laws::{
    a_failed_byte_leaves_its_ordinal, a_failed_field_breaks_off, a_name_in_use_has_an_ordinal,
    a_refused_attempt_takes_nothing, ordinals_run_up, portions_make_the_whole,
};
use crate::sink::{
    accepts_up_to, breaks_off, can_count_up_to, gives_up, takes, takes_in_turn, takes_nothing,
    ByteWrite, Lent, WriterModel,
};
use crate::structure::{
    field_bytes, field_fails_with, struct_bytes, writes_field, wrote_field, FieldWriter,
    StructState, StructWriter,
};
use crate::variant::{opens_variant, writes_variant, FieldType, UnionState, VariantWriter};
use crate::writer::{CountingWriter, StrictWriter};

verus! {

/// A string names what it spells, so different strings are different names.
pub proof fn a_string_names_what_it_spells(x: &str, y: &str)
    ensures
        x.ident() == x@,
        x@ != y@ ==> x.ident() != y.ident(),
{
}

/// An identifier names what it spells, and names the same as a string that spells the same.
pub proof fn an_identifier_names_what_it_spells(x: Ident, y: Ident, s: &str)
    ensures
        x.ident() == x@,
        x@ != y@ ==> x.ident() != y.ident(),
        x.ident() == s.ident() <==> x@ == s@,
{
}

/// Identifiers compare as equal when they spell the same, and only then.
pub proof fn identifiers_compare_by_their_text(x: Ident, y: Ident)
    ensures
        Ident::obeys_eq_spec(),
        x.eq_spec(&y) <==> x@ == y@,
{
}

/// What may have a name has it if there is one.
pub proof fn a_missing_name_is_no_name<N: ToIdent>(name: N, ident: Ident)
    ensures
        Some(name).maybe_ident() == Some(name.ident()),
        None::<N>.maybe_ident() is None,
        text_of(Some(ident)) == Some(ident@),
        text_of(None) is None,
{
}

/// A field has the text of its name, if it has one.
pub proof fn a_field_has_the_text_of_its_name(field: Field)
    ensures
        field.name is None ==> field.text() is None,
        field.name is Some ==> field.text() == Some(field.name->0@),
{
}

/// Fields in order amount to their ordinals, each with the name of its field, and nothing else.
pub proof fn fields_amount_to_their_ordinals_and_names(fields: Seq<Field>)
    requires
        forall|i: int, j: int| 0 <= i < j < fields.len() ==> fields[i].ord < fields[j].ord,
    ensures
        in_order(fields),
        forall|i: int|
            0 <= i < fields.len() ==> {
                &&& names_of(fields).contains_key((#[trigger] fields[i]).ord)
                &&& names_of(fields)[fields[i].ord] == fields[i].text()
            },
        forall|ord: u8| #[trigger]
            names_of(fields).contains_key(ord) ==> exists|i: int|
                0 <= i < fields.len() && (#[trigger] fields[i]).ord == ord,
{
    assert forall|i: int| 0 <= i < fields.len() implies {
        &&& names_of(fields).contains_key((#[trigger] fields[i]).ord)
        &&& names_of(fields)[fields[i].ord] == fields[i].text()
    } by {
        let k = choose|k: int| 0 <= k < fields.len() && (#[trigger] fields[k]).ord == fields[i].ord;
        assert(0 <= k < fields.len() && fields[k].ord == fields[i].ord);
        assert(k < i ==> fields[k].ord < fields[i].ord);
        assert(i < k ==> fields[i].ord < fields[k].ord);
    }
}

/// The next ordinal is the least one above all that are in use: 0 if none is, and else one more than
/// the highest.
pub proof fn next_ordinal_is_one_above_the_highest(names: FieldNames, highest: u8)
    ensures
        forall|ord: u8| #[trigger] names.contains_key(ord) ==> ord < next_ord(names),
        names == FieldNames::empty() <==> next_ord(names) == 0,
        next_ord(names) == highest + 1 <==> {
            &&& names.contains_key(highest)
            &&& forall|ord: u8| #[trigger] names.contains_key(ord) ==> ord <= highest
        },
{
    lemma_next_is_new(names);
    let n = next_ord(names);
    if n == 0 {
        assert(names =~= FieldNames::empty());
    } else {
        assert(names.contains_key((n - 1) as u8));
    }
    if n == highest + 1 {
        assert((n - 1) as u8 == highest);
    }
}

/// A name is in use where a field bears it, and stands for the lowest ordinal of those that do.
pub proof fn a_name_stands_for_the_lowest_ordinal(names: FieldNames, name: Seq<char>, ord: u8)
    ensures
        names.contains_key(ord) && names[ord] == Some(name) ==> {
            &&& has_name(names, name)
            &&& ord_of(names, name) <= ord
        },
        has_name(names, name) ==> {
            &&& names.contains_key(ord_of(names, name))
            &&& names[ord_of(names, name)] == Some(name)
        },
        is_ord_of(names, name, ord) <==> has_name(names, name) && ord_of(names, name) == ord,
{
    if has_name(names, name) {
        a_name_in_use_has_an_ordinal(names, name);
    }
    if is_ord_of(names, name, ord) {
        assert(names.contains_key(ord));
        lemma_ord_of(names, name, ord);
    }
}

/// A struct starts with its name and nothing else.
pub proof fn a_struct_starts_with_its_name_alone(name: Option<Seq<char>>)
    ensures
        StructState::fresh(name).name == name,
        StructState::fresh(name).fields == FieldNames::empty(),
        StructState::fresh(name).pending == Set::<u8>::empty(),
        !StructState::fresh(name).defined,
{
}

/// To define a field is to make it known under its name and to leave it to be written, and to change
/// nothing about any other.
pub proof fn to_define_a_field_is_to_know_it(
    s: StructState,
    text: Option<Seq<char>>,
    ord: u8,
    other: u8,
)
    ensures
        s.with_field(text, ord).fields.contains_key(ord),
        s.with_field(text, ord).fields[ord] == text,
        s.with_field(text, ord).pending.contains(ord),
        other != ord ==> {
            &&& s.with_field(text, ord).fields.contains_key(other) <==> s.fields.contains_key(other)
            &&& s.with_field(text, ord).fields[other] == s.fields[other]
            &&& s.with_field(text, ord).pending.contains(other) <==> s.pending.contains(other)
        },
        s.with_field(text, ord).fields == s.fields.insert(ord, text),
        s.with_field(text, ord).pending == s.pending.insert(ord),
        s.with_field(text, ord).name == s.name,
        s.with_field(text, ord).defined == s.defined,
{
}

/// A field that is defined under a new name is found by that name, at its ordinal.
pub proof fn a_defined_field_is_found_by_its_name(s: StructState, name: Seq<char>, ord: u8)
    requires
        forall|o: u8| #[trigger] s.fields.contains_key(o) ==> s.fields[o] != Some(name),
    ensures
        has_name(s.with_field(Some(name), ord).fields, name),
        is_ord_of(s.with_field(Some(name), ord).fields, name, ord),
        ord_of(s.with_field(Some(name), ord).fields, name) == ord,
{
    let more = s.with_field(Some(name), ord).fields;
    assert(more.contains_key(ord) && more[ord] == Some(name));
    assert forall|o: u8| #[trigger] more.contains_key(o) && more[o] == Some(name) implies ord
        <= o by {
        assert(o != ord ==> s.fields.contains_key(o));
    }
    lemma_ord_of(more, name, ord);
}

/// To write a field is to know it, if it was new, and to have it no more to be written; nothing
/// changes about any other.
pub proof fn to_write_a_field_is_to_be_done_with_it(
    s: StructState,
    text: Option<Seq<char>>,
    ord: u8,
    other: u8,
)
    ensures
        !s.after_write(text, ord).pending.contains(ord),
        other != ord ==> {
            &&& s.after_write(text, ord).fields.contains_key(other) <==> s.fields.contains_key(other)
            &&& s.after_write(text, ord).fields[other] == s.fields[other]
            &&& s.after_write(text, ord).pending.contains(other) <==> s.pending.contains(other)
        },
        !s.defined ==> s.after_write(text, ord).fields == s.fields.insert(ord, text),
        s.defined ==> s.after_write(text, ord).fields == s.fields,
        s.after_write(text, ord).pending == s.pending.remove(ord),
        s.after_write(text, ord).name == s.name,
        s.after_write(text, ord).defined == s.defined,
{
    assert(s.pending.insert(ord).remove(ord) =~= s.pending.remove(ord));
}

/// A field may be written once: when it is new, or when it was defined and is still to be written.
pub proof fn a_field_may_be_written_once(s: StructState, ord: u8)
    ensures
        !s.defined ==> (s.can_write(ord) <==> !s.fields.contains_key(ord)),
        s.defined ==> (s.can_write(ord) <==> s.fields.contains_key(ord) && s.pending.contains(ord)),
        s.wf() <==> forall|o: u8| #[trigger] s.pending.contains(o) ==> s.fields.contains_key(o),
{
}

/// A union starts with its name, and that of the union around it, and nothing else.
pub proof fn a_union_starts_with_its_name_alone(
    name: Option<Seq<char>>,
    around: Option<Seq<char>>,
)
    ensures
        UnionState::fresh(name, around).name == name,
        UnionState::fresh(name, around).parent_ident == around,
        UnionState::fresh(name, around).variants == FieldNames::empty(),
        UnionState::fresh(name, around).kinds == Map::<u8, FieldType>::empty(),
        !UnionState::fresh(name, around).written,
{
}

/// To define a variant is to know it under its name, with what it holds, and to change nothing about
/// any other.
pub proof fn to_define_a_variant_is_to_know_it(
    s: UnionState,
    name: Seq<char>,
    ord: u8,
    kind: FieldType,
    other: u8,
)
    ensures
        s.with_variant(name, ord, kind).variants.contains_key(ord),
        s.with_variant(name, ord, kind).variants[ord] == Some(name),
        s.with_variant(name, ord, kind).kinds.contains_key(ord),
        s.with_variant(name, ord, kind).kinds[ord] == kind,
        other != ord ==> {
            let more = s.with_variant(name, ord, kind);
            &&& more.variants.contains_key(other) <==> s.variants.contains_key(other)
            &&& more.variants[other] == s.variants[other]
            &&& more.kinds.contains_key(other) <==> s.kinds.contains_key(other)
            &&& more.kinds[other] == s.kinds[other]
        },
        s.with_variant(name, ord, kind).variants == s.variants.insert(ord, Some(name)),
        s.with_variant(name, ord, kind).kinds == s.kinds.insert(ord, kind),
        s.with_variant(name, ord, kind).name == s.name,
        s.with_variant(name, ord, kind).written == s.written,
        s.with_variant(name, ord, kind).parent_ident == s.parent_ident,
{
}

/// A variant may be written when none has been: the one that its name stands for, as what it holds.
/// To write it changes nothing else.
pub proof fn a_variant_may_be_written_once(s: UnionState, name: Seq<char>, kind: FieldType)
    ensures
        s.can_write(name, kind) <==> {
            &&& !s.written
            &&& exists|ord: u8|
                {
                    &&& #[trigger] s.variants.contains_key(ord)
                    &&& s.variants[ord] == Some(name)
                    &&& s.kinds[ord] == kind
                    &&& forall|o: u8| #[trigger]
                        s.variants.contains_key(o) && s.variants[o] == Some(name) ==> ord <= o
                }
        },
        s.after_write().written,
        s.after_write().variants == s.variants,
        s.after_write().kinds == s.kinds,
        s.after_write().name == s.name,
        s.after_write().parent_ident == s.parent_ident,
        s.wf() <==> forall|o: u8|
            s.kinds.contains_key(o) <==> #[trigger] s.variants.contains_key(o),
{
    if has_name(s.variants, name) {
        a_name_in_use_has_an_ordinal(s.variants, name);
        let found = ord_of(s.variants, name);
        assert(s.variants.contains_key(found));
        assert forall|ord: u8|
            #![trigger s.variants.contains_key(ord)]
            s.variants.contains_key(ord) && s.variants[ord] == Some(name) && (forall|o: u8| #[trigger]
                s.variants.contains_key(o) && s.variants[o] == Some(name) ==> ord <= o) implies ord
            == found by {
            assert(ord <= found && found <= ord);
        }
    }
    if forall|o: u8| s.kinds.contains_key(o) <==> #[trigger] s.variants.contains_key(o) {
        assert(s.kinds.dom() =~= s.variants.dom());
    }
    if s.wf() {
        assert forall|o: u8| s.kinds.contains_key(o) <==> #[trigger] s.variants.contains_key(o) by {
            assert(s.kinds.dom().contains(o) <==> s.variants.dom().contains(o));
        }
    }
}

/// A byte is encoded as itself, so different bytes are encoded differently; nothing in it stands
/// against that, and it can fail only as it is offered to the writer.
pub proof fn a_byte_is_encoded_as_itself(x: u8, y: u8)
    ensures
        x.encoding() == seq![x],
        x != y ==> x.encoding() != y.encoding(),
        x.encodable(),
        forall|done: Seq<u8>, offered: Option<Seq<u8>>, error: WriteError| #[trigger]
            x.fails_at(done, offered, error) <==> done.len() == 0 && offered == Some(seq![x]),
{
    assert forall|done: Seq<u8>, offered: Option<Seq<u8>>, error: WriteError| #[trigger]
        x.fails_at(done, offered, error) <==> done.len() == 0 && offered == Some(seq![x]) by {
        assert(done.len() == 0 ==> done =~= Seq::empty());
    }
    assert(x.encoding()[0] == x && y.encoding()[0] == y);
}

/// The bytes of a struct are those of its fields one after the other, each its ordinal and then the
/// encoding of its value.
pub proof fn a_struct_is_its_ordinals_and_encodings(items: Seq<(u8, Seq<u8>)>)
    ensures
        struct_bytes(items) == items.map(
            |i: int, item: (u8, Seq<u8>)| seq![item.0] + item.1,
        ).flatten(),
    decreases items.len(),
{
    let parts = items.map(|i: int, item: (u8, Seq<u8>)| seq![item.0] + item.1);
    if items.len() > 0 {
        let fewer = items.drop_last();
        a_struct_is_its_ordinals_and_encodings(fewer);
        let first = fewer.map(|i: int, item: (u8, Seq<u8>)| seq![item.0] + item.1);
        assert(parts =~= first.push(seq![items.last().0] + items.last().1));
        first.lemma_flatten_push(seq![items.last().0] + items.last().1);
    }
}

/// A vector that takes in bytes holds them behind what it held; it takes what it is given, whole.
pub proof fn a_vector_takes_everything(before: Vec<u8>, bytes: Seq<u8>, after: Vec<u8>, n: nat)
    ensures
        takes(before, bytes, after) <==> after@ == before@ + bytes,
        before.wf() && before.can_count(n) && before.accepts(n) && before.flushes(),
        !before.over_limit(n),
        forall|r: Result<usize, WriteError>| #[trigger]
            <Vec<u8> as WriterModel>::answers(before, bytes, after, r) <==> r is Ok && r->Ok_0
                == bytes.len(),
        forall|r: Result<(), WriteError>| #[trigger]
            <Vec<u8> as WriterModel>::answers_flush(before, after, r) <==> r is Ok && after
                == before,
{
    reveal(takes);
}

/// A counter that takes in bytes adds their number; it takes what it can count, whole.
pub proof fn a_counter_adds_up(before: WriteCounter, bytes: Seq<u8>, after: WriteCounter, n: nat)
    ensures
        takes(before, bytes, after) ==> after.count == before.count + bytes.len(),
        before.wf() && before.flushes(),
        before.can_count(n) <==> before.count + n <= usize::MAX,
        before.accepts(n) <==> before.count + n <= usize::MAX,
        !before.over_limit(n),
        forall|r: Result<usize, WriteError>| #[trigger]
            <WriteCounter as WriterModel>::answers(before, bytes, after, r) <==> r is Ok
                && r->Ok_0 == bytes.len(),
        forall|r: Result<(), WriteError>| #[trigger]
            <WriteCounter as WriterModel>::answers_flush(before, after, r) <==> r is Ok && after
                == before,
{
    reveal(takes);
}

/// A sink takes what it is given, whole.
pub proof fn a_sink_takes_everything(before: Sink, bytes: Seq<u8>, after: Sink, n: nat)
    ensures
        before.wf() && before.can_count(n) && before.accepts(n),
        !before.over_limit(n),
        forall|r: Result<usize, WriteError>| #[trigger]
            <Sink as WriterModel>::answers(before, bytes, after, r) <==> r is Ok && r->Ok_0
                == bytes.len(),
{
}

/// A lent writer takes what the writer behind takes, and turns down what that one turns down.
pub proof fn a_lent_writer_is_the_writer_behind<W: ByteWrite>(
    before: Lent<W>,
    bytes: Seq<u8>,
    after: Lent<W>,
    n: nat,
)
    ensures
        ({
            let (x, y) = (*old(before.0), *old(after.0));
            &&& takes(before, bytes, after) <==> takes(x, bytes, y)
            &&& before.wf() <==> x.wf()
            &&& before.can_count(n) <==> x.can_count(n)
            &&& before.accepts(n) <==> x.accepts(n)
            &&& before.over_limit(n) <==> x.over_limit(n)
            &&& before.flushes() <==> x.flushes()
            &&& before.interruptions() == x.interruptions()
            &&& forall|r: Result<usize, WriteError>| #[trigger]
                <Lent<W> as WriterModel>::answers(before, bytes, after, r) <==> W::answers(
                    x,
                    bytes,
                    y,
                    r,
                )
            &&& forall|r: Result<(), WriteError>| #[trigger]
                <Lent<W> as WriterModel>::answers_flush(before, after, r) <==> W::answers_flush(
                    x,
                    y,
                    r,
                )
        }),
        before.loan() == before.0,
{
    reveal(takes);
    let (x, y) = (*before.0, *after.0);
    if takes(before, bytes, after) {
        assert forall|m: nat| x.can_count(bytes.len() + m) implies #[trigger] y.can_count(m) by {
            assert(before.can_count(bytes.len() + m) && after.can_count(m));
        }
        assert forall|m: nat| x.accepts(bytes.len() + m) implies #[trigger] y.accepts(m) by {
            assert(before.accepts(bytes.len() + m) && after.accepts(m));
        }
    }
    if takes(x, bytes, y) {
        assert forall|m: nat| before.can_count(bytes.len() + m) implies #[trigger] after.can_count(
            m,
        ) by {
            assert(x.can_count(bytes.len() + m) && y.can_count(m));
        }
        assert forall|m: nat| before.accepts(bytes.len() + m) implies #[trigger] after.accepts(
            m,
        ) by {
            assert(x.accepts(bytes.len() + m) && y.accepts(m));
        }
    }
}

/// A counting writer takes what its limit leaves room for and the writer underneath takes, and turns
/// down the rest.
pub proof fn a_counting_writer_adds_a_limit<W: ByteWrite>(
    before: CountingWriter<W>,
    bytes: Seq<u8>,
    after: CountingWriter<W>,
    n: nat,
)
    ensures
        takes(before, bytes, after) ==> {
            &&& after.taken() == before.taken() + bytes.len()
            &&& after.max() == before.max()
            &&& after.inner().seen() == before.inner().seen().then_taking(bytes)
        },
        before.wf() <==> before.inner().wf() && before.taken() <= before.max() <= usize::MAX,
        before.accepts(n) <==> before.taken() + n <= before.max() && before.inner().accepts(n),
        before.over_limit(n) <==> before.taken() + n > before.max() || before.inner().over_limit(n),
        before.can_count(n) <==> {
            &&& before.taken() + n <= usize::MAX
            &&& before.taken() + n > before.max() || before.inner().can_count(n)
        },
        before.flushes() <==> before.inner().flushes(),
        before.interruptions() == before.inner().interruptions(),
        before.loan() == before.inner().loan(),
{
    reveal(takes);
}

/// A counting writer turns down a buffer that exceeds its limit and stays as it was; else it answers
/// as the writer underneath does, and counts what that one takes. A flush is passed on.
pub proof fn a_counting_writer_passes_answers_on<W: ByteWrite>(
    before: CountingWriter<W>,
    buf: Seq<u8>,
    after: CountingWriter<W>,
    r: Result<usize, WriteError>,
    f: Result<(), WriteError>,
)
    ensures
        <CountingWriter<W> as WriterModel>::answers(before, buf, after, r) ==> {
            &&& before.taken() + buf.len() > before.max() ==> {
                &&& r is Err
                &&& r->Err_0 is InvalidInput
                &&& after == before
            }
            &&& before.taken() + buf.len() <= before.max() ==> {
                &&& W::answers(before.inner(), buf, after.inner(), r)
                &&& r is Ok ==> after.taken() == before.taken() + r->Ok_0
                &&& r is Err ==> after.taken() == before.taken()
                &&& after.max() == before.max()
            }
        },
        <CountingWriter<W> as WriterModel>::answers_flush(before, after, f) ==> {
            &&& W::answers_flush(before.inner(), after.inner(), f)
            &&& after.taken() == before.taken()
            &&& after.max() == before.max()
        },
{
}

/// A strict writer takes what its counting writer takes, and holds the loan that it holds.
pub proof fn a_strict_writer_is_its_counting_writer<W: ByteWrite>(
    before: StrictWriter<W>,
    bytes: Seq<u8>,
    after: StrictWriter<W>,
)
    ensures
        StrictWriter::takes(before, bytes, after) <==> takes(
            before.counting(),
            bytes,
            after.counting(),
        ),
        before.wf() <==> before.counting().wf(),
        before.inner() == before.counting().inner(),
        before.loan() == before.inner().loan(),
{
    if takes(before.counting(), bytes, after.counting()) {
        StrictWriter::lemma_takes(before, bytes, after);
    }
}

/// An attempt that fails has taken in a beginning of the bytes and not all of them. Its error is what
/// the writer answered to the rest, or that the writer took nothing of it, and none that asks to try
/// again.
pub proof fn a_failed_attempt_took_a_beginning<W: ByteWrite>(
    first: W,
    buf: Seq<u8>,
    end: W,
    error: WriteError,
)
    requires
        gives_up(first, buf, end, error),
    ensures
        error !is Interrupted,
        first.over_limit(buf.len()) ==> error is InvalidInput,
        exists|k: int| 0 <= k < buf.len() && takes(first, #[trigger] buf.take(k), end),
        exists|k: int, before: W, answer: Result<usize, WriteError>|
            {
                &&& 0 <= k < buf.len()
                &&& takes(first, #[trigger] buf.take(k), before)
                &&& #[trigger] W::answers(before, buf.skip(k), end, answer)
                &&& {
                    ||| answer == Err::<usize, WriteError>(error)
                    ||| answer == Ok::<usize, WriteError>(0) && error is WriteZero
                }
            },
{
}

/// An attempt that breaks off has taken in what was done before, and of the bytes that were offered
/// last, if any were, a beginning and not all.
pub proof fn a_broken_attempt_took_what_was_done<W: ByteWrite>(
    first: W,
    done: Seq<u8>,
    bytes: Seq<u8>,
    end: W,
    error: WriteError,
)
    ensures
        breaks_off(first, done, None, end, error) <==> takes(first, done, end),
        breaks_off(first, done, Some(bytes), end, error) ==> {
            &&& error !is Interrupted
            &&& exists|k: int|
                0 <= k < bytes.len() && takes(first, done + #[trigger] bytes.take(k), end)
        },
        done.len() == 0 && breaks_off(first, done, Some(bytes), end, error) ==> gives_up(
            first,
            bytes,
            end,
            error,
        ),
{
    if breaks_off(first, done, Some(bytes), end, error) {
        let before = choose|before: W|
            {
                &&& #[trigger] takes(first, done, before)
                &&& done.len() == 0 ==> before == first
                &&& gives_up(before, bytes, end, error)
            };
        let k = choose|k: int| 0 <= k < bytes.len() && takes(before, #[trigger] bytes.take(k), end);
        takes_in_turn(first, done, before, bytes.take(k), end);
    }
}

/// A writer to memory, a counter in step and a sink take up to what their limit leaves room for, and
/// count up to what `usize` can tell.
pub proof fn room_is_what_the_limit_leaves(
    memory: StrictWriter<Vec<u8>>,
    counter: StrictWriter<WriteCounter>,
    sink: StrictWriter<Sink>,
    n: nat,
)
    requires
        memory.wf(),
        counter.wf(),
        sink.wf(),
        counter.inner().count == counter.counting().taken(),
    ensures
        accepts_up_to(memory.counting(), n) <==> memory.counting().taken() + n
            <= memory.counting().max(),
        accepts_up_to(counter.counting(), n) <==> counter.counting().taken() + n
            <= counter.counting().max(),
        accepts_up_to(sink.counting(), n) <==> sink.counting().taken() + n
            <= sink.counting().max(),
        can_count_up_to(memory.counting(), n) <==> memory.counting().taken() + n <= usize::MAX,
        can_count_up_to(counter.counting(), n) <==> counter.counting().taken() + n <= usize::MAX,
        can_count_up_to(sink.counting(), n) <==> sink.counting().taken() + n <= usize::MAX,
{
    assert(accepts_up_to(memory.counting(), n) ==> memory.counting().accepts(n));
    assert(accepts_up_to(counter.counting(), n) ==> counter.counting().accepts(n));
    assert(accepts_up_to(sink.counting(), n) ==> sink.counting().accepts(n));
    assert(can_count_up_to(memory.counting(), n) ==> memory.counting().can_count(n));
    assert(can_count_up_to(counter.counting(), n) ==> counter.counting().can_count(n));
    assert(can_count_up_to(sink.counting(), n) ==> sink.counting().can_count(n));
}

/// A field that is written changes the struct by that field alone, and the parent by its writer
/// alone, which takes in the ordinal and then the encoding of the value.
pub proof fn to_write_a_field_is_to_write_ordinal_and_value<F: FieldWriter, T: StrictEncode>(
    before: F,
    text: Option<Seq<char>>,
    ord: u8,
    value: &T,
    r: Result<F, WriteError>,
)
    requires
        writes_field(before, text, ord, value, r),
    ensures
        r is Ok ==> {
            let (s, t) = (before.state(), r->Ok_0.state());
            let end = r->Ok_0.parent();
            &&& r->Ok_0.wf()
            &&& t.fields == (if s.defined {
                s.fields
            } else {
                s.fields.insert(ord, text)
            })
            &&& t.pending == s.pending.remove(ord)
            &&& t.name == s.name
            &&& t.defined == s.defined
            &&& end == before.parent().with_writer(end.writer())
            &&& end.writer().wf()
            &&& StrictWriter::takes(
                before.parent().writer(),
                seq![ord] + value.encoding(),
                end.writer(),
            )
            &&& wrote_field(before, text, ord, value.encoding(), r->Ok_0)
        },
        before.parent().writer().counting().over_limit(1) ==> r is Err && r->Err_0 is InvalidInput,
        value.encodable() && accepts_up_to(
            before.parent().writer().counting(),
            1 + value.encoding().len(),
        ) ==> r is Ok,
{
    to_write_a_field_is_to_be_done_with_it(before.state(), text, ord, ord);
    assert(field_bytes(ord, value).len() == 1 + value.encoding().len());
}

/// Fields that are written one after the other to a struct that knows none have the ordinals from 0
/// on, and are known under the names that they were given. What the writer takes in is each ordinal
/// followed by the encoding of its value.
pub proof fn fields_written_in_turn_are_numbered_from_zero<F: FieldWriter, T: StrictEncode>(
    name: Option<Seq<char>>,
    steps: Seq<F>,
    texts: Seq<Option<Seq<char>>>,
    values: Seq<T>,
)
    requires
        steps.len() == values.len() + 1,
        texts.len() == values.len() <= 256,
        steps[0].state() == StructState::fresh(name),
        forall|i: int|
            0 <= i < values.len() ==> #[trigger] writes_next(
                steps[i],
                texts[i],
                values[i],
                steps[i + 1],
            ),
    ensures
        steps.last().state().fields == Map::new(
            |ord: u8| ord < values.len(),
            |ord: u8| texts[ord as int],
        ),
        next_ord(steps.last().state().fields) == values.len(),
        steps.last().state().pending == Set::<u8>::empty(),
        steps.last().state().name == name,
        !steps.last().state().defined,
        StrictWriter::takes(
            steps[0].parent().writer(),
            Seq::new(values.len(), |i: int| seq![i as u8] + values[i].encoding()).flatten(),
            steps.last().parent().writer(),
        ),
    decreases values.len(),
{
    let known = Map::new(|ord: u8| ord < values.len(), |ord: u8| texts[ord as int]);
    let parts = Seq::new(values.len(), |i: int| seq![i as u8] + values[i].encoding());
    ordinals_run_up(FieldNames::empty(), None);
    if values.len() == 0 {
        assert(known =~= FieldNames::empty());
        assert(parts =~= Seq::empty());
        assert(parts.flatten() =~= Seq::empty());
        takes_nothing(steps[0].parent().writer().counting());
        StrictWriter::lemma_takes(
            steps[0].parent().writer(),
            Seq::empty(),
            steps[0].parent().writer(),
        );
    } else {
        let n = values.len() - 1;
        let earlier = steps.drop_last();
        let fewer = values.drop_last();
        assert forall|i: int| 0 <= i < n implies #[trigger] writes_next(
            earlier[i],
            texts.drop_last()[i],
            fewer[i],
            earlier[i + 1],
        ) by {
            assert(writes_next(steps[i], texts[i], values[i], steps[i + 1]));
        }
        fields_written_in_turn_are_numbered_from_zero(name, earlier, texts.drop_last(), fewer);
        assert(writes_next(steps[n], texts[n], values[n], steps[n + 1]));
        let first = Seq::new(fewer.len(), |i: int| seq![i as u8] + fewer[i].encoding());
        let part = seq![n as u8] + values[n].encoding();
        to_write_a_field_is_to_write_ordinal_and_value(
            steps[n],
            texts[n],
            n as u8,
            &values[n],
            Ok(steps[n + 1]),
        );
        ordinals_run_up(steps[n].state().fields, texts[n]);
        assert(steps[n + 1].state().fields =~= known);
        assert(steps[n + 1].state().pending =~= Set::<u8>::empty());
        assert(parts =~= first.push(part));
        first.lemma_flatten_push(part);
        portions_make_the_whole(
            steps[0].parent().writer(),
            first.flatten(),
            steps[n].parent().writer(),
            part,
            steps[n + 1].parent().writer(),
        );
    }
}

/// One field that is written with the next ordinal.
pub open spec fn writes_next<F: FieldWriter, T: StrictEncode>(
    before: F,
    text: Option<Seq<char>>,
    value: T,
    after: F,
) -> bool {
    writes_field(before, text, next_ord(before.state().fields) as u8, &value, Ok(after))
}

/// What memory holds after fields have been written one after the other: what it held, and then each
/// ordinal from 0 on followed by the encoding of its value.
pub proof fn memory_holds_the_fields_in_turn<F: FieldWriter<Out = Vec<u8>>, T: StrictEncode>(
    name: Option<Seq<char>>,
    steps: Seq<F>,
    texts: Seq<Option<Seq<char>>>,
    values: Seq<T>,
)
    requires
        steps.len() == values.len() + 1,
        texts.len() == values.len() <= 256,
        steps[0].state() == StructState::fresh(name),
        forall|i: int|
            0 <= i < values.len() ==> #[trigger] writes_next(
                steps[i],
                texts[i],
                values[i],
                steps[i + 1],
            ),
    ensures
        steps.last().parent().writer().inner()@ == steps[0].parent().writer().inner()@ + Seq::new(
            values.len(),
            |i: int| seq![i as u8] + values[i].encoding(),
        ).flatten(),
{
    fields_written_in_turn_are_numbered_from_zero(name, steps, texts, values);
}

/// What memory holds after bytes have been written as the fields of a struct or a tuple: their
/// ordinals from 0 on and the bytes themselves, by turns.
pub proof fn memory_holds_ordinals_and_bytes_by_turns<F: FieldWriter<Out = Vec<u8>>>(
    name: Option<Seq<char>>,
    steps: Seq<F>,
    texts: Seq<Option<Seq<char>>>,
    values: Seq<u8>,
)
    requires
        steps.len() == values.len() + 1,
        texts.len() == values.len() <= 256,
        steps[0].state() == StructState::fresh(name),
        forall|i: int|
            0 <= i < values.len() ==> #[trigger] writes_next(
                steps[i],
                texts[i],
                values[i],
                steps[i + 1],
            ),
    ensures
        ({
            let held = steps[0].parent().writer().inner()@;
            let holds = steps.last().parent().writer().inner()@;
            &&& holds.len() == held.len() + 2 * values.len()
            &&& forall|j: int| 0 <= j < held.len() ==> #[trigger] holds[j] == held[j]
            &&& forall|i: int|
                0 <= i < values.len() ==> #[trigger] values[i] == holds[held.len() + 2 * i + 1]
                    && holds[held.len() + 2 * i] == i
        }),
    decreases values.len(),
{
    if values.len() > 0 {
        let n = values.len() - 1;
        let earlier = steps.drop_last();
        let fewer = values.drop_last();
        assert forall|i: int| 0 <= i < n implies #[trigger] writes_next(
            earlier[i],
            texts.drop_last()[i],
            fewer[i],
            earlier[i + 1],
        ) by {
            assert(writes_next(steps[i], texts[i], values[i], steps[i + 1]));
        }
        memory_holds_ordinals_and_bytes_by_turns(name, earlier, texts.drop_last(), fewer);
        fields_written_in_turn_are_numbered_from_zero(name, earlier, texts.drop_last(), fewer);
        assert(writes_next(steps[n], texts[n], values[n], steps[n + 1]));
        let held = steps[0].parent().writer().inner()@;
        let last = steps[n + 1].parent().writer().inner()@;
        let before = steps[n].parent().writer().inner()@;
        assert(earlier.last() == steps[n] && earlier[0] == steps[0]);
        assert(last =~= before + seq![n as u8, values[n]]);
        assert forall|j: int| 0 <= j < held.len() implies #[trigger] last[j] == held[j] by {
            assert(before[j] == held[j]);
        }
        assert forall|i: int| 0 <= i < values.len() implies #[trigger] values[i] == last[held.len()
            + 2 * i + 1] && last[held.len() + 2 * i] == i by {
            if i < n {
                assert(fewer[i] == values[i]);
            }
        }
    }
}

/// A byte is written to memory as a field where there is room for two bytes: then its ordinal and
/// itself are added. Where there is room for one, its ordinal is; else nothing is.
pub proof fn a_byte_in_memory_is_its_ordinal_and_itself<F: FieldWriter<Out = Vec<u8>>>(
    before: F,
    text: Option<Seq<char>>,
    ord: u8,
    value: u8,
    r: Result<F, WriteError>,
)
    requires
        before.parent().writer().wf(),
        writes_field(before, text, ord, &value, r),
    ensures
        ({
            let start = before.parent().writer();
            let room = start.counting().max() - start.counting().taken();
            &&& r is Ok <==> room >= 2
            &&& r is Ok ==> r->Ok_0.parent().writer().inner()@ == start.inner()@ + seq![ord, value]
            &&& r is Err ==> forall|end: CountingWriter<Vec<u8>>| #[trigger]
                field_fails_with(start, ord, &value, end, r->Err_0) ==> {
                    &&& r->Err_0 is InvalidInput
                    &&& end.inner()@ == start.inner()@ + (if room >= 1 {
                        seq![ord]
                    } else {
                        Seq::empty()
                    })
                }
        }),
{
    let start = before.parent().writer();
    let (taken, max) = (start.counting().taken(), start.counting().max());
    to_write_a_field_is_to_write_ordinal_and_value(before, text, ord, &value, r);
    assert(accepts_up_to(start.counting(), 2) <==> taken + 2 <= max) by {
        assert(accepts_up_to(start.counting(), 2) ==> start.counting().accepts(2));
    }
    if r is Ok {
        assert(seq![ord] + seq![value] =~= seq![ord, value]);
    } else {
        assert forall|end: CountingWriter<Vec<u8>>| #[trigger]
            field_fails_with(start, ord, &value, end, r->Err_0) implies {
            &&& r->Err_0 is InvalidInput
            &&& end.inner()@ == start.inner()@ + (if taken + 1 <= max {
                seq![ord]
            } else {
                Seq::empty()
            })
        } by {
            lemma_failed_byte(start, ord, value, end, r->Err_0);
        }
    }
}

proof fn lemma_failed_byte(
    start: StrictWriter<Vec<u8>>,
    ord: u8,
    value: u8,
    end: CountingWriter<Vec<u8>>,
    error: WriteError,
)
    requires
        start.wf(),
        start.counting().taken() + 2 > start.counting().max(),
        field_fails_with(start, ord, &value, end, error),
    ensures
        error is InvalidInput,
        start.counting().accepts(1) ==> end.inner()@ == start.inner()@ + seq![ord],
        !start.counting().accepts(1) ==> end.inner()@ == start.inner()@ + Seq::<u8>::empty(),
{
    if start.counting().accepts(1) {
        a_failed_byte_leaves_its_ordinal(start, ord, value, end, error);
    }
    let (done, offered) = a_failed_field_breaks_off(start, ord, &value, end, error);
    let bytes = offered->0;
    let before = choose|before: CountingWriter<Vec<u8>>|
        {
            &&& #[trigger] takes(start.counting(), done, before)
            &&& done.len() == 0 ==> before == start.counting()
            &&& gives_up(before, bytes, end, error)
        };
    reveal(takes);
    assert(before.over_limit(bytes.len()));
    if done.len() == 0 {
        a_refused_attempt_takes_nothing(before, bytes, end, error);
    }
}

/// Fields that are defined one after the other in a struct that knows none have the ordinals from 0
/// on, are all left to be written, and are each found by their names if these differ.
pub proof fn fields_defined_in_turn_are_numbered_from_zero(
    name: Option<Seq<char>>,
    states: Seq<StructState>,
    texts: Seq<Option<Seq<char>>>,
)
    requires
        states.len() == texts.len() + 1,
        texts.len() <= 256,
        states[0] == StructState::fresh(name),
        forall|i: int|
            0 <= i < texts.len() ==> #[trigger] states[i + 1] == states[i].with_field(
                texts[i],
                next_ord(states[i].fields) as u8,
            ),
    ensures
        states.last().fields == Map::new(
            |ord: u8| ord < texts.len(),
            |ord: u8| texts[ord as int],
        ),
        states.last().pending == Set::new(|ord: u8| ord < texts.len()),
        next_ord(states.last().fields) == texts.len(),
        states.last().name == name,
        !states.last().defined,
        forall|i: int|
            0 <= i < texts.len() && texts[i] is Some && (forall|j: int|
                0 <= j < texts.len() && j != i ==> texts[j] != texts[i]) ==> is_ord_of(
                states.last().fields,
                (#[trigger] texts[i])->0,
                i as u8,
            ),
    decreases texts.len(),
{
    let known = Map::new(|ord: u8| ord < texts.len(), |ord: u8| texts[ord as int]);
    ordinals_run_up(FieldNames::empty(), None);
    if texts.len() == 0 {
        assert(known =~= FieldNames::empty());
        assert(states[0].pending =~= Set::new(|ord: u8| ord < texts.len()));
    } else {
        let n = texts.len() - 1;
        assert forall|i: int| 0 <= i < n implies #[trigger] states.drop_last()[i + 1]
            == states.drop_last()[i].with_field(
            texts.drop_last()[i],
            next_ord(states.drop_last()[i].fields) as u8,
        ) by {
            assert(states[i + 1] == states[i].with_field(
                texts[i],
                next_ord(states[i].fields) as u8,
            ));
        }
        fields_defined_in_turn_are_numbered_from_zero(name, states.drop_last(), texts.drop_last());
        assert(states[n + 1] == states[n].with_field(texts[n], next_ord(states[n].fields) as u8));
        ordinals_run_up(states[n].fields, texts[n]);
        assert(states.last().fields =~= known);
        assert(states.last().pending =~= Set::new(|ord: u8| ord < texts.len()));
    }
    assert forall|i: int|
        0 <= i < texts.len() && texts[i] is Some && (forall|j: int|
            0 <= j < texts.len() && j != i ==> texts[j] != texts[i]) implies is_ord_of(
        known,
        (#[trigger] texts[i])->0,
        i as u8,
    ) by {
        assert(known.contains_key(i as u8) && known[i as u8] == texts[i]);
        assert forall|o: u8| #[trigger]
            known.contains_key(o) && known[o] == Some(texts[i]->0) implies i as u8 <= o by {
            assert(texts[o as int] == texts[i]);
        }
    }
}

/// A variant that is written changes the union by that alone, and the writer takes in the lowest
/// ordinal that its name stands for.
pub proof fn to_write_a_variant_is_to_write_its_ordinal<W: ByteWrite, U: VariantWriter<W>>(
    before: U,
    name: Seq<char>,
    ord: u8,
    r: Result<U, WriteError>,
)
    requires
        before.state().variants.contains_key(ord),
        before.state().variants[ord] == Some(name),
        forall|o: u8| #[trigger]
            before.state().variants.contains_key(o) && before.state().variants[o] == Some(name)
                ==> ord <= o,
        writes_variant::<W, U>(before, name, r),
    ensures
        r is Ok ==> {
            let (s, t) = (before.state(), r->Ok_0.state());
            &&& r->Ok_0.wf()
            &&& t.written
            &&& t.variants == s.variants
            &&& t.kinds == s.kinds
            &&& t.name == s.name
            &&& t.parent_ident == s.parent_ident
            &&& StrictWriter::takes(before.writer(), seq![ord], r->Ok_0.writer())
        },
        before.writer().counting().over_limit(1) ==> r is Err && r->Err_0 is InvalidInput,
        before.writer().counting().accepts(1) ==> r is Ok,
{
    lemma_ord_of(before.state().variants, name, ord);
}

/// A variant that holds fields is opened as one that holds none is written, with a struct of its name
/// to go on with.
pub proof fn to_open_a_variant_is_to_write_its_ordinal<W: ByteWrite, U: VariantWriter<W>>(
    before: U,
    name: Seq<char>,
    r: Result<StructWriter<W, U>, WriteError>,
)
    requires
        opens_variant::<W, U>(before, name, r),
    ensures
        r is Ok ==> {
            &&& r->Ok_0.wf()
            &&& r->Ok_0.state().name == Some(name)
            &&& r->Ok_0.state().fields == FieldNames::empty()
            &&& r->Ok_0.state().pending == Set::<u8>::empty()
            &&& !r->Ok_0.state().defined
            &&& writes_variant::<W, U>(before, name, Ok(r->Ok_0.parent()))
        },
        r is Err ==> writes_variant::<W, U>(before, name, Err(r->Err_0)),
{
}

/// A variant is written to memory where there is room for a byte: then the lowest ordinal that its
/// name stands for is added.
pub proof fn a_variant_in_memory_is_its_ordinal<U: VariantWriter<Vec<u8>>>(
    before: U,
    name: Seq<char>,
    ord: u8,
    r: Result<U, WriteError>,
)
    requires
        before.writer().wf(),
        before.state().variants.contains_key(ord),
        before.state().variants[ord] == Some(name),
        forall|o: u8| #[trigger]
            before.state().variants.contains_key(o) && before.state().variants[o] == Some(name)
                ==> ord <= o,
        writes_variant::<Vec<u8>, U>(before, name, r),
    ensures
        r is Ok <==> before.writer().counting().taken() < before.writer().counting().max(),
        r is Ok ==> r->Ok_0.writer().inner()@ == before.writer().inner()@ + seq![ord],
        r is Err ==> r->Err_0 is InvalidInput,
{
    to_write_a_variant_is_to_write_its_ordinal::<Vec<u8>, U>(before, name, ord, r);
}

/// Variants that are defined one after the other in a union that knows none have the ordinals from 0
/// on. Each can be written by its name, as what it holds and as nothing else, if the names differ.
pub proof fn variants_defined_in_turn_are_numbered_from_zero(
    name: Option<Seq<char>>,
    around: Option<Seq<char>>,
    states: Seq<UnionState>,
    names: Seq<Seq<char>>,
    kinds: Seq<FieldType>,
)
    requires
        states.len() == names.len() + 1,
        kinds.len() == names.len() <= 256,
        states[0] == UnionState::fresh(name, around),
        forall|i: int|
            0 <= i < names.len() ==> #[trigger] states[i + 1] == states[i].with_variant(
                names[i],
                next_ord(states[i].variants) as u8,
                kinds[i],
            ),
    ensures
        states.last().variants == Map::new(
            |ord: u8| ord < names.len(),
            |ord: u8| Some(names[ord as int]),
        ),
        states.last().kinds == Map::new(
            |ord: u8| ord < names.len(),
            |ord: u8| kinds[ord as int],
        ),
        next_ord(states.last().variants) == names.len(),
        states.last().name == name,
        states.last().parent_ident == around,
        !states.last().written,
        forall|i: int, kind: FieldType|
            0 <= i < names.len() && (forall|j: int|
                0 <= j < names.len() && j != i ==> names[j] != names[i]) ==> {
                &&& is_ord_of(states.last().variants, names[i], i as u8)
                &&& #[trigger] states.last().can_write(names[i], kind) <==> kind == kinds[i]
            },
    decreases names.len(),
{
    let last = states.last();
    let known = Map::new(|ord: u8| ord < names.len(), |ord: u8| Some(names[ord as int]));
    let held = Map::new(|ord: u8| ord < names.len(), |ord: u8| kinds[ord as int]);
    ordinals_run_up(FieldNames::empty(), None);
    if names.len() == 0 {
        assert(known =~= FieldNames::empty());
        assert(held =~= Map::<u8, FieldType>::empty());
    } else {
        let n = names.len() - 1;
        assert forall|i: int| 0 <= i < n implies #[trigger] states.drop_last()[i + 1]
            == states.drop_last()[i].with_variant(
            names.drop_last()[i],
            next_ord(states.drop_last()[i].variants) as u8,
            kinds.drop_last()[i],
        ) by {
            assert(states[i + 1] == states[i].with_variant(
                names[i],
                next_ord(states[i].variants) as u8,
                kinds[i],
            ));
        }
        variants_defined_in_turn_are_numbered_from_zero(
            name,
            around,
            states.drop_last(),
            names.drop_last(),
            kinds.drop_last(),
        );
        assert(states[n + 1] == states[n].with_variant(
            names[n],
            next_ord(states[n].variants) as u8,
            kinds[n],
        ));
        ordinals_run_up(states[n].variants, Some(names[n]));
        assert(last.variants =~= known);
        assert(last.kinds =~= held);
    }
    assert forall|i: int, kind: FieldType|
        0 <= i < names.len() && (forall|j: int|
            0 <= j < names.len() && j != i ==> names[j] != names[i]) implies {
        &&& is_ord_of(last.variants, names[i], i as u8)
        &&& #[trigger] last.can_write(names[i], kind) <==> kind == kinds[i]
    } by {
        assert(known.contains_key(i as u8) && known[i as u8] == Some(names[i]));
        assert forall|o: u8| #[trigger]
            known.contains_key(o) && known[o] == Some(names[i]) implies i as u8 <= o by {
            assert(names[o as int] == names[i]);
        }
        lemma_ord_of(known, names[i], i as u8);
    }
}

/// Variants of an enum that are defined under strings that differ, for values that differ, each stand
/// for their own value: that is what writing one by its string adds to memory.
pub proof fn variants_of_an_enum_stand_for_their_values<U: VariantWriter<Vec<u8>>>(
    name: Option<Seq<char>>,
    states: Seq<UnionState>,
    names: Seq<&str>,
    values: Seq<u8>,
    before: U,
    i: int,
    r: Result<U, WriteError>,
)
    requires
        states.len() == names.len() + 1,
        values.len() == names.len(),
        states[0] == UnionState::fresh(name, None),
        forall|j: int|
            0 <= j < names.len() ==> #[trigger] states[j + 1] == states[j].with_variant(
                names[j].ident(),
                values[j],
                FieldType::Unit,
            ),
        forall|j: int, k: int| 0 <= j < k < names.len() ==> names[j]@ != names[k]@,
        forall|j: int, k: int| 0 <= j < k < names.len() ==> values[j] != values[k],
        before.state() == states.last(),
        before.writer().wf(),
        0 <= i < names.len(),
        writes_variant::<Vec<u8>, U>(before, names[i].ident(), r),
    ensures
        before.state().can_write(names[i].ident(), FieldType::Unit),
        !before.state().can_write(names[i].ident(), FieldType::Tuple),
        !before.state().can_write(names[i].ident(), FieldType::Struct),
        r is Ok <==> before.writer().counting().taken() < before.writer().counting().max(),
        r is Ok ==> r->Ok_0.writer().inner()@ == before.writer().inner()@ + seq![values[i]],
        r is Err ==> r->Err_0 is InvalidInput,
{
    lemma_values(name, states, names, values);
    let s = states.last();
    assert(s.variants.contains_key(values[i]) && s.variants[values[i]] == Some(names[i]@));
    assert forall|o: u8| #[trigger]
        s.variants.contains_key(o) && s.variants[o] == Some(names[i]@) implies values[i] <= o by {
        let k = choose|k: int| 0 <= k < names.len() && #[trigger] values[k] == o;
        assert(s.variants[values[k]] == Some(names[k]@));
        assert(k < i ==> names[k]@ != names[i]@);
        assert(i < k ==> names[i]@ != names[k]@);
    }
    lemma_ord_of(s.variants, names[i]@, values[i]);
    a_variant_in_memory_is_its_ordinal(before, names[i]@, values[i], r);
}

proof fn lemma_values(
    name: Option<Seq<char>>,
    states: Seq<UnionState>,
    names: Seq<&str>,
    values: Seq<u8>,
)
    requires
        states.len() == names.len() + 1,
        values.len() == names.len(),
        states[0] == UnionState::fresh(name, None),
        forall|j: int|
            0 <= j < names.len() ==> #[trigger] states[j + 1] == states[j].with_variant(
                names[j].ident(),
                values[j],
                FieldType::Unit,
            ),
        forall|j: int, k: int| 0 <= j < k < names.len() ==> values[j] != values[k],
    ensures
        !states.last().written,
        forall|j: int|
            0 <= j < names.len() ==> {
                &&& states.last().variants.contains_key(#[trigger] values[j])
                &&& states.last().variants[values[j]] == Some(names[j]@)
                &&& states.last().kinds[values[j]] == FieldType::Unit
            },
        forall|o: u8| #[trigger]
            states.last().variants.contains_key(o) ==> exists|k: int|
                0 <= k < names.len() && #[trigger] values[k] == o,
    decreases names.len(),
{
    if names.len() > 0 {
        let n = names.len() - 1;
        assert forall|j: int| 0 <= j < n implies #[trigger] states.drop_last()[j + 1]
            == states.drop_last()[j].with_variant(
            names.drop_last()[j].ident(),
            values.drop_last()[j],
            FieldType::Unit,
        ) by {
            assert(states[j + 1] == states[j].with_variant(
                names[j].ident(),
                values[j],
                FieldType::Unit,
            ));
        }
        lemma_values(name, states.drop_last(), names.drop_last(), values.drop_last());
        assert(states[n + 1] == states[n].with_variant(
            names[n].ident(),
            values[n],
            FieldType::Unit,
        ));
        assert forall|j: int| 0 <= j < names.len() implies {
            &&& states.last().variants.contains_key(#[trigger] values[j])
            &&& states.last().variants[values[j]] == Some(names[j]@)
            &&& states.last().kinds[values[j]] == FieldType::Unit
        } by {
            if j < n {
                assert(values.drop_last()[j] == values[j]);
            }
        }
        assert forall|o: u8| #[trigger]
            states.last().variants.contains_key(o) implies exists|k: int|
            0 <= k < names.len() && #[trigger] values[k] == o by {
            if o == values[n] {
            } else {
                let k = choose|k: int| 0 <= k < n && #[trigger] values.drop_last()[k] == o;
                assert(values[k] == o);
            }
        }
    }
}

} // verus!
