//! What holds of the writers as a whole.
use vstd::prelude::*;
use amplify::WriteCounter;
use crate::encode::{StrictEncode, StrictParent};
use crate::error::WriteError;
use crate::field::{
    follows_last, has_name, is_ord_of, lemma_next_is_new, lemma_next_ord, lemma_ord_of, next_ord,
    ord_of, FieldNames,
};
use crate::sink::{
    accepts_up_to, breaks_off, gives_up, takes, takes_in_turn, takes_nothing, ByteWrite, Lent,
    WriterModel,
};
use crate::structure::{
    field_bytes, field_fails_with, struct_bytes, writes_field, wrote_field, FieldWriter,
    StructState, StructWriter,
};
use crate::variant::{opens_variant, FieldType, UnionState, UnionWriter, VariantWriter};
use crate::writer::{taken_by, CountingWriter, StrictWriter};

verus! {

/// No more bytes pass through a counting writer than its limit allows, however many writes there
/// are.
pub proof fn limit_is_kept<W: ByteWrite>(
    before: CountingWriter<W>,
    bytes: Seq<u8>,
    after: CountingWriter<W>,
)
    requires
        before.wf(),
        after.wf(),
        takes(before, bytes, after),
    ensures
        before.taken() + bytes.len() <= before.max(),
        after.max() == before.max(),
{
    reveal(takes);
}

/// One call of a counting writer: of `buf` it takes in as much as its answer says. A flush is a call
/// on no bytes.
pub open spec fn one_call<W: ByteWrite>(
    before: CountingWriter<W>,
    buf: Seq<u8>,
    answer: Result<usize, WriteError>,
    after: CountingWriter<W>,
) -> bool {
    &&& taken_by(answer) <= buf.len()
    &&& takes(before, buf.take(taken_by(answer) as int), after)
}

/// The sum of the lengths that calls report to have taken in.
pub open spec fn sum_of(answers: Seq<Result<usize, WriteError>>) -> nat
    decreases answers.len(),
{
    if answers.len() == 0 {
        0
    } else {
        sum_of(answers.drop_last()) + taken_by(answers.last())
    }
}

/// The bytes that calls report to have taken in, in the order of the calls.
pub open spec fn bytes_of(
    bufs: Seq<Seq<u8>>,
    answers: Seq<Result<usize, WriteError>>,
) -> Seq<u8>
    decreases answers.len(),
{
    if answers.len() == 0 {
        Seq::empty()
    } else {
        bytes_of(bufs.drop_last(), answers.drop_last()) + bufs.last().take(
            taken_by(answers.last()) as int,
        )
    }
}

/// Over any number of calls of `write` and `flush`, what a counting writer reports to have taken in
/// is what it has counted and what the writer underneath has taken in, and is within the limit.
pub proof fn counts_add_up<W: ByteWrite>(
    writers: Seq<CountingWriter<W>>,
    bufs: Seq<Seq<u8>>,
    answers: Seq<Result<usize, WriteError>>,
)
    requires
        writers.len() == answers.len() + 1,
        bufs.len() == answers.len(),
        writers.last().wf(),
        forall|i: int|
            0 <= i < answers.len() ==> #[trigger] one_call(
                writers[i],
                bufs[i],
                answers[i],
                writers[i + 1],
            ),
    ensures
        writers.last().taken() == writers[0].taken() + sum_of(answers),
        writers.last().max() == writers[0].max(),
        writers[0].taken() + sum_of(answers) <= writers[0].max(),
        bytes_of(bufs, answers).len() == sum_of(answers),
        takes(writers[0], bytes_of(bufs, answers), writers.last()),
        writers.last().inner().seen() == writers[0].inner().seen().then_taking(
            bytes_of(bufs, answers),
        ),
{
    lemma_calls(writers, bufs, answers);
    reveal(takes);
}

proof fn lemma_calls<W: ByteWrite>(
    writers: Seq<CountingWriter<W>>,
    bufs: Seq<Seq<u8>>,
    answers: Seq<Result<usize, WriteError>>,
)
    requires
        writers.len() == answers.len() + 1,
        bufs.len() == answers.len(),
        forall|i: int|
            0 <= i < answers.len() ==> #[trigger] one_call(
                writers[i],
                bufs[i],
                answers[i],
                writers[i + 1],
            ),
    ensures
        bytes_of(bufs, answers).len() == sum_of(answers),
        takes(writers[0], bytes_of(bufs, answers), writers.last()),
    decreases answers.len(),
{
    if answers.len() == 0 {
        takes_nothing(writers[0]);
    } else {
        let n = answers.len() - 1;
        let earlier = writers.drop_last();
        assert forall|i: int| 0 <= i < n implies #[trigger] one_call(
            earlier[i],
            bufs.drop_last()[i],
            answers.drop_last()[i],
            earlier[i + 1],
        ) by {
            assert(one_call(writers[i], bufs[i], answers[i], writers[i + 1]));
        }
        lemma_calls(earlier, bufs.drop_last(), answers.drop_last());
        assert(one_call(writers[n], bufs[n], answers[n], writers[n + 1]));
        takes_in_turn(
            writers[0],
            bytes_of(bufs.drop_last(), answers.drop_last()),
            writers[n],
            bufs[n].take(taken_by(answers[n]) as int),
            writers[n + 1],
        );
    }
}

/// When a writer on loan is done with, what it was lent from is what it was left as.
pub proof fn a_loan_ends_as_it_was_left<W: ByteWrite>(end: CountingWriter<Lent<W>>)
    ensures
        has_resolved(end) ==> *final(end.loan()) == *end.inner().0,
{
    end.lemma_resolved();
    assert(has_resolved(end.inner()) ==> has_resolved(end.inner().0));
}

/// Writing in portions is writing at once.
pub proof fn portions_make_the_whole<W: ByteWrite>(
    a: StrictWriter<W>,
    x: Seq<u8>,
    b: StrictWriter<W>,
    y: Seq<u8>,
    c: StrictWriter<W>,
)
    requires
        StrictWriter::takes(a, x, b),
        StrictWriter::takes(b, y, c),
    ensures
        StrictWriter::takes(a, x + y, c),
{
    takes_in_turn(a.counting(), x, b.counting(), y, c.counting());
    StrictWriter::lemma_takes(a, x + y, c);
}

/// A writer to memory holds exactly what was written, in the order in which it was written.
pub proof fn memory_holds_what_was_written(
    before: StrictWriter<Vec<u8>>,
    bytes: Seq<u8>,
    after: StrictWriter<Vec<u8>>,
)
    requires
        StrictWriter::takes(before, bytes, after),
    ensures
        after.inner()@ == before.inner()@ + bytes,
        after.inner()@.len() - before.inner()@.len() == after.counting().taken()
            - before.counting().taken(),
{
}

/// Writing to memory fails for want of room and for nothing else.
pub proof fn memory_is_bounded_by_its_limit(w: StrictWriter<Vec<u8>>, n: nat)
    ensures
        w.counting().accepts(n) <==> w.counting().taken() + n <= w.counting().max(),
        w.counting().over_limit(n) <==> w.counting().taken() + n > w.counting().max(),
{
}

/// An attempt to write to memory that fails does so because all of it together is over the limit, and
/// says so.
pub proof fn memory_gives_up_over_its_limit_alone(
    w: StrictWriter<Vec<u8>>,
    bytes: Seq<u8>,
    end: CountingWriter<Vec<u8>>,
    error: WriteError,
)
    requires
        gives_up(w.counting(), bytes, end, error),
    ensures
        error is InvalidInput,
        w.counting().over_limit(bytes.len()),
{
    reveal(takes);
}

/// An attempt over the limit is turned down and takes nothing; over the writer's own limit it leaves
/// the writer as it was.
pub proof fn a_refused_attempt_takes_nothing<W: ByteWrite>(
    first: CountingWriter<W>,
    bytes: Seq<u8>,
    end: CountingWriter<W>,
    error: WriteError,
)
    requires
        first.over_limit(bytes.len()),
        gives_up(first, bytes, end, error),
    ensures
        error is InvalidInput,
        takes(first, Seq::empty(), end),
        end.inner().seen() == first.inner().seen(),
        end.taken() == first.taken(),
        first.taken() + bytes.len() > first.max() ==> end == first,
{
    assert(bytes.take(0) =~= Seq::empty());
    assert(bytes.skip(0) =~= bytes);
    first.inner().seen().lemma_taking_nothing();
    reveal(takes);
}

/// A counter tells how long the encoding is that a writer to memory would hold.
pub proof fn counter_tells_the_length(
    counter: StrictWriter<WriteCounter>,
    counted: StrictWriter<WriteCounter>,
    memory: StrictWriter<Vec<u8>>,
    filled: StrictWriter<Vec<u8>>,
    bytes: Seq<u8>,
)
    requires
        StrictWriter::takes(counter, bytes, counted),
        StrictWriter::takes(memory, bytes, filled),
    ensures
        counted.inner().count - counter.inner().count == filled.inner()@.len()
            - memory.inner()@.len(),
{
}

/// A counter that has counted all that passed through its writer takes anything within the limit.
pub proof fn counter_is_bounded_by_its_limit(w: StrictWriter<WriteCounter>, n: nat)
    requires
        w.wf(),
        w.inner().count == w.counting().taken(),
    ensures
        w.counting().accepts(n) <==> w.counting().taken() + n <= w.counting().max(),
        w.counting().over_limit(n) <==> w.counting().taken() + n > w.counting().max(),
{
}

/// A parent that is taken apart and put together again with the writer that it had is what it was.
pub proof fn joining_undoes_splitting<W: ByteWrite, P: StrictParent<W>>(
    parent: P,
    remnant: P::Remnant,
    joined: P,
)
    requires
        parent.leaves(remnant),
        forall|p: P| #[trigger] p.leaves(remnant) ==> joined == p.with_writer(parent.writer()),
    ensures
        joined == parent,
{
    P::writer_is_apart(parent, parent.writer());
}

/// A union knows the same about itself whichever writer it holds.
pub proof fn lending_keeps_the_union<W: ByteWrite>(union: UnionWriter<W>, writer: StrictWriter<W>)
    ensures
        union.with_writer(writer).state() == union.state(),
{
    union.lemma_with_writer(writer);
}

/// Fields that are defined without an ordinal are numbered from 0, and each gets the number after
/// that of the last one.
pub proof fn ordinals_run_up(names: FieldNames, text: Option<Seq<char>>)
    ensures
        next_ord(FieldNames::empty()) == 0,
        next_ord(names) <= 255 ==> next_ord(names.insert(next_ord(names) as u8, text)) == next_ord(
            names,
        ) + 1,
{
    lemma_next_ord(FieldNames::empty(), 0);
    lemma_next_is_new(names);
    let n = next_ord(names);
    if n <= 255 {
        let more = names.insert(n as u8, text);
        assert(follows_last(more, n + 1));
        lemma_next_ord(more, n + 1);
    }
}

/// A name that some field bears has a lowest ordinal.
pub proof fn a_name_in_use_has_an_ordinal(names: FieldNames, name: Seq<char>)
    requires
        has_name(names, name),
    ensures
        is_ord_of(names, name, ord_of(names, name)),
{
    let ord = choose|ord: u8| #[trigger] names.contains_key(ord) && names[ord] == Some(name);
    lemma_lowest(names, name, ord);
}

proof fn lemma_lowest(names: FieldNames, name: Seq<char>, ord: u8)
    requires
        names.contains_key(ord),
        names[ord] == Some(name),
    ensures
        is_ord_of(names, name, ord_of(names, name)),
    decreases ord,
{
    if !is_ord_of(names, name, ord) {
        let lower = choose|lower: u8| #[trigger]
            names.contains_key(lower) && names[lower] == Some(name) && lower < ord;
        lemma_lowest(names, name, lower);
    }
}

/// A field whose name is new is found by that name.
pub proof fn a_new_name_is_found(names: FieldNames, name: Seq<char>, ord: u8)
    requires
        !has_name(names, name),
        !names.contains_key(ord),
    ensures
        is_ord_of(names.insert(ord, Some(name)), name, ord),
        ord_of(names.insert(ord, Some(name)), name) == ord,
{
    let more = names.insert(ord, Some(name));
    assert forall|other: u8| #[trigger]
        more.contains_key(other) && more[other] == Some(name) implies ord <= other by {
        if other != ord {
            assert(names.contains_key(other));
        }
    }
    lemma_ord_of(more, name, ord);
}

/// A field under another name does not change what a name stands for.
pub proof fn other_names_do_not_interfere(
    names: FieldNames,
    name: Seq<char>,
    text: Option<Seq<char>>,
    ord: u8,
)
    requires
        has_name(names, name),
        !names.contains_key(ord),
        text != Some(name),
    ensures
        has_name(names.insert(ord, text), name),
        ord_of(names.insert(ord, text), name) == ord_of(names, name),
{
    a_name_in_use_has_an_ordinal(names, name);
    let more = names.insert(ord, text);
    let found = ord_of(names, name);
    assert(more.contains_key(found) && more[found] == Some(name));
    assert forall|other: u8| #[trigger]
        more.contains_key(other) && more[other] == Some(name) implies found <= other by {
        assert(names.contains_key(other));
    }
    lemma_ord_of(more, name, found);
}

/// A field that has been written cannot be written again.
pub proof fn no_field_is_written_twice(s: StructState, text: Option<Seq<char>>, ord: u8)
    requires
        s.can_write(ord),
    ensures
        !s.after_write(text, ord).can_write(ord),
{
}

/// A struct that is written field by field leaves nothing to be written; a field that was defined
/// ahead stays to be written.
pub proof fn writing_leaves_the_rest(s: StructState, text: Option<Seq<char>>, ord: u8)
    requires
        s.wf(),
        !s.defined,
        s.can_write(ord),
    ensures
        s.after_write(text, ord).pending == s.pending,
        s.after_write(text, ord).wf(),
{
    assert(s.pending.insert(ord).remove(ord) =~= s.pending);
}

/// A struct starts out undefined, and no field that is defined or written changes that.
pub proof fn definition_stays_open(
    s: StructState,
    name: Option<Seq<char>>,
    text: Option<Seq<char>>,
    ord: u8,
)
    ensures
        !StructState::fresh(name).defined,
        s.with_field(text, ord).defined == s.defined,
        s.after_write(text, ord).defined == s.defined,
{
}

/// A struct is its fields in turn: when `items` have been written, the next field adds its bytes to
/// theirs, and the parent stays what it was when the struct was started but for what its writer has
/// taken in.
pub proof fn a_struct_is_its_fields_in_turn<F: FieldWriter, T: StrictEncode>(
    start: F,
    items: Seq<(u8, Seq<u8>)>,
    before: F,
    text: Option<Seq<char>>,
    ord: u8,
    value: &T,
    after: F,
)
    requires
        StrictWriter::takes(start.parent().writer(), struct_bytes(items), before.parent().writer()),
        before.parent() == start.parent().with_writer(before.parent().writer()),
        writes_field(before, text, ord, value, Ok(after)),
    ensures
        StrictWriter::takes(
            start.parent().writer(),
            struct_bytes(items.push((ord, value.encoding()))),
            after.parent().writer(),
        ),
        after.parent() == start.parent().with_writer(after.parent().writer()),
{
    portions_make_the_whole(
        start.parent().writer(),
        struct_bytes(items),
        before.parent().writer(),
        field_bytes(ord, value),
        after.parent().writer(),
    );
    assert(items.push((ord, value.encoding())).drop_last() =~= items);
    F::Parent::writer_is_replaced(
        start.parent(),
        before.parent().writer(),
        after.parent().writer(),
    );
}

/// One field that may be written, and is: `item` is its ordinal and the encoding of its value.
pub open spec fn one_field<F: FieldWriter>(
    before: F,
    text: Option<Seq<char>>,
    item: (u8, Seq<u8>),
    after: F,
) -> bool {
    before.state().can_write(item.0) && wrote_field(before, text, item.0, item.1, after)
}

/// To write the next field is to write a field with the next ordinal: one may be written where the
/// other may, both are bound to succeed and bound to fail on the same writers, and where both are
/// written the same is known of the struct, the same bytes have been taken in, and the parent is the
/// same but for its writer.
pub proof fn next_field_is_the_field_at_the_next_ordinal<F: FieldWriter, T: StrictEncode>(
    before: F,
    text: Option<Seq<char>>,
    value: &T,
    by_next: Result<F, WriteError>,
    by_ord: Result<F, WriteError>,
)
    requires
        next_ord(before.state().fields) <= 255,
        !before.state().defined,
        writes_field(before, text, next_ord(before.state().fields) as u8, value, by_next),
        writes_field(before, text, next_ord(before.state().fields) as u8, value, by_ord),
    ensures
        before.state().can_write(next_ord(before.state().fields) as u8),
        by_next is Ok && by_ord is Ok ==> {
            let (x, y) = (by_next->Ok_0, by_ord->Ok_0);
            &&& x.state() == y.state()
            &&& x.parent().writer().counting().seen() == y.parent().writer().counting().seen()
            &&& x.parent() == y.parent().with_writer(x.parent().writer())
        },
        ({
            let writer = before.parent().writer().counting();
            let len = 1 + value.encoding().len();
            &&& value.encodable() && accepts_up_to(writer, len) ==> by_next is Ok && by_ord is Ok
            &&& writer.taken() + len > writer.max() ==> by_next is Err && by_ord is Err
            &&& writer.over_limit(1) ==> {
                &&& by_next matches Err(WriteError::InvalidInput)
                &&& by_ord matches Err(WriteError::InvalidInput)
            }
        }),
{
    lemma_next_is_new(before.state().fields);
    assert(field_bytes(next_ord(before.state().fields) as u8, value).len() == 1
        + value.encoding().len());
    if by_next is Ok && by_ord is Ok {
        F::Parent::writer_is_replaced(
            before.parent(),
            by_ord->Ok_0.parent().writer(),
            by_next->Ok_0.parent().writer(),
        );
    }
    reveal(takes);
}

/// A struct that is written field by field, be it of no fields at all, can be completed: nothing is
/// left to be written, its writer has taken in its fields in the order in which they were written,
/// and the parent is what it was but for that.
pub proof fn a_written_struct_is_complete<F: FieldWriter>(
    name: Option<Seq<char>>,
    steps: Seq<F>,
    texts: Seq<Option<Seq<char>>>,
    items: Seq<(u8, Seq<u8>)>,
)
    requires
        steps.len() == items.len() + 1,
        texts.len() == items.len(),
        steps[0].wf(),
        steps[0].state() == StructState::fresh(name),
        forall|i: int|
            0 <= i < items.len() ==> #[trigger] one_field(
                steps[i],
                texts[i],
                items[i],
                steps[i + 1],
            ),
    ensures
        steps.last().wf(),
        !steps.last().state().defined,
        steps.last().state().pending == Set::<u8>::empty(),
        StrictWriter::takes(
            steps[0].parent().writer(),
            struct_bytes(items),
            steps.last().parent().writer(),
        ),
        steps.last().parent() == steps[0].parent().with_writer(steps.last().parent().writer()),
    decreases items.len(),
{
    let parent = steps[0].parent();
    if items.len() == 0 {
        a_struct_starts_empty(parent.writer());
        assert(items =~= Seq::empty());
        F::Parent::writer_is_apart(parent, parent.writer());
    } else {
        let n = items.len() - 1;
        let earlier = steps.drop_last();
        assert forall|i: int| 0 <= i < n implies #[trigger] one_field(
            earlier[i],
            texts.drop_last()[i],
            items.drop_last()[i],
            earlier[i + 1],
        ) by {
            assert(one_field(steps[i], texts[i], items[i], steps[i + 1]));
        }
        a_written_struct_is_complete(name, earlier, texts.drop_last(), items.drop_last());
        assert(one_field(steps[n], texts[n], items[n], steps[n + 1]));
        writing_leaves_the_rest(steps[n].state(), texts[n], items[n].0);
        portions_make_the_whole(
            parent.writer(),
            struct_bytes(items.drop_last()),
            steps[n].parent().writer(),
            seq![items[n].0] + items[n].1,
            steps[n + 1].parent().writer(),
        );
        F::Parent::writer_is_replaced(
            parent,
            steps[n].parent().writer(),
            steps[n + 1].parent().writer(),
        );
    }
}

/// A field that fails breaks off at its ordinal, or where its value breaks off behind that.
pub proof fn a_failed_field_breaks_off<W: ByteWrite, T: StrictEncode>(
    writer: StrictWriter<W>,
    ord: u8,
    value: &T,
    end: CountingWriter<W>,
    error: WriteError,
) -> (r: (Seq<u8>, Option<Seq<u8>>))
    requires
        field_fails_with(writer, ord, value, end, error),
    ensures
        breaks_off(writer.counting(), r.0, r.1, end, error),
        ({
            ||| r.0 == Seq::<u8>::empty() && r.1 == Some(seq![ord])
            ||| r.0 == seq![ord] + r.0.skip(1) && value.fails_at(r.0.skip(1), r.1, error)
        }),
        writer.counting().accepts(1) ==> r.0.len() > 0,
{
    if !writer.counting().accepts(1) && gives_up(writer.counting(), seq![ord], end, error) {
        takes_nothing(writer.counting());
        (Seq::empty(), Some(seq![ord]))
    } else {
        let (mid, done, offered) = choose|
            mid: StrictWriter<W>,
            done: Seq<u8>,
            offered: Option<Seq<u8>>,
        |
            {
                &&& #[trigger] StrictWriter::takes(writer, seq![ord], mid)
                &&& value.fails_at(done, offered, error)
                &&& #[trigger] breaks_off(mid.counting(), done, offered, end, error)
            };
        match offered {
            Some(bytes) => {
                let before = choose|before: CountingWriter<W>|
                    {
                        &&& #[trigger] takes(mid.counting(), done, before)
                        &&& gives_up(before, bytes, end, error)
                    };
                takes_in_turn(writer.counting(), seq![ord], mid.counting(), done, before);
            },
            None => {
                takes_in_turn(writer.counting(), seq![ord], mid.counting(), done, end);
            },
        }
        assert((seq![ord] + done).skip(1) =~= done);
        (seq![ord] + done, offered)
    }
}

/// A field that fails once its ordinal is taken leaves the ordinal behind, and what was written of
/// the value.
pub proof fn a_failed_field_is_not_taken_back<W: ByteWrite, T: StrictEncode>(
    writer: StrictWriter<W>,
    ord: u8,
    value: &T,
    end: CountingWriter<W>,
    error: WriteError,
) -> (rest: Seq<u8>)
    requires
        writer.counting().accepts(1),
        field_fails_with(writer, ord, value, end, error),
    ensures
        takes(writer.counting(), seq![ord] + rest, end),
{
    let (done, offered) = a_failed_field_breaks_off(writer, ord, value, end, error);
    match offered {
        Some(bytes) => {
            let before = choose|before: CountingWriter<W>|
                {
                    &&& #[trigger] takes(writer.counting(), done, before)
                    &&& gives_up(before, bytes, end, error)
                };
            let k = choose|k: int|
                0 <= k < bytes.len() && takes(before, #[trigger] bytes.take(k), end);
            takes_in_turn(writer.counting(), done, before, bytes.take(k), end);
            assert(done + bytes.take(k) =~= seq![ord] + (done.skip(1) + bytes.take(k)));
            done.skip(1) + bytes.take(k)
        },
        None => done.skip(1),
    }
}

/// A field of one byte that fails once its ordinal is taken leaves the ordinal behind and nothing
/// else.
pub proof fn a_failed_byte_leaves_its_ordinal<W: ByteWrite>(
    writer: StrictWriter<W>,
    ord: u8,
    value: u8,
    end: CountingWriter<W>,
    error: WriteError,
)
    requires
        writer.counting().accepts(1),
        field_fails_with(writer, ord, &value, end, error),
    ensures
        takes(writer.counting(), seq![ord], end),
        end.inner().seen() == writer.inner().seen().then_taking(seq![ord]),
{
    let (mid, done, offered) = choose|
        mid: StrictWriter<W>,
        done: Seq<u8>,
        offered: Option<Seq<u8>>,
    |
        {
            &&& #[trigger] StrictWriter::takes(writer, seq![ord], mid)
            &&& value.fails_at(done, offered, error)
            &&& #[trigger] breaks_off(mid.counting(), done, offered, end, error)
        };
    assert(gives_up(mid.counting(), seq![value], end, error));
    assert(seq![value].take(0) =~= Seq::empty());
    takes_in_turn(writer.counting(), seq![ord], mid.counting(), Seq::empty(), end);
    assert(seq![ord] + Seq::empty() =~= seq![ord]);
    reveal(takes);
}

/// A struct of which no field has been written has taken nothing.
pub proof fn a_struct_starts_empty<W: ByteWrite>(writer: StrictWriter<W>)
    ensures
        StrictWriter::takes(writer, struct_bytes(Seq::empty()), writer),
{
    takes_nothing(writer.counting());
    StrictWriter::lemma_takes(writer, Seq::empty(), writer);
}

/// A variant with fields of its own is its ordinal, followed by what a struct or a tuple of them
/// is.
pub proof fn a_variant_is_its_ordinal_and_its_fields<W: ByteWrite>(
    union: UnionWriter<W>,
    name: Seq<char>,
    inside: StructWriter<W, UnionWriter<W>>,
    items: Seq<(u8, Seq<u8>)>,
    end: StrictWriter<W>,
)
    requires
        opens_variant::<W, UnionWriter<W>>(union, name, Ok(inside)),
        StrictWriter::takes(inside.parent().writer(), struct_bytes(items), end),
    ensures
        StrictWriter::takes(
            union.writer(),
            seq![ord_of(union.state().variants, name)] + struct_bytes(items),
            end,
        ),
        inside.parent().with_writer(end).state() == union.state().after_write(),
{
    portions_make_the_whole(
        union.writer(),
        seq![ord_of(union.state().variants, name)],
        inside.parent().writer(),
        struct_bytes(items),
        end,
    );
    lending_keeps_the_union(inside.parent(), end);
}

/// A union holds one variant: after one has been written no other can be.
pub proof fn one_variant_is_written(s: UnionState, name: Seq<char>, kind: FieldType)
    ensures
        !s.after_write().can_write(name, kind),
        s.after_write().written,
{
}

/// A variant that was defined under a new name can be written, as what it was defined to hold and
/// as nothing else, as long as no variant has been.
pub proof fn a_defined_variant_can_be_written(
    s: UnionState,
    name: Seq<char>,
    ord: u8,
    kind: FieldType,
    as_kind: FieldType,
)
    requires
        !s.written,
        !has_name(s.variants, name),
        !s.variants.contains_key(ord),
    ensures
        s.with_variant(name, ord, kind).can_write(name, as_kind) <==> as_kind == kind,
        ord_of(s.with_variant(name, ord, kind).variants, name) == ord,
{
    a_new_name_is_found(s.variants, name, ord);
    assert(s.with_variant(name, ord, kind).variants.contains_key(ord));
}

/// A variant stays what it is when others are defined under other names.
pub proof fn other_variants_do_not_interfere(
    s: UnionState,
    name: Seq<char>,
    kind: FieldType,
    other: Seq<char>,
    ord: u8,
    other_kind: FieldType,
)
    requires
        s.can_write(name, kind),
        !s.variants.contains_key(ord),
        other != name,
    ensures
        s.with_variant(other, ord, other_kind).can_write(name, kind),
        ord_of(s.with_variant(other, ord, other_kind).variants, name) == ord_of(s.variants, name),
{
    other_names_do_not_interfere(s.variants, name, Some(other), ord);
    a_name_in_use_has_an_ordinal(s.variants, name);
}

} // verus!
