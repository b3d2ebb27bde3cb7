//! Fields, and the sorted collections that hold them.
use vstd::prelude::*;
use crate::ident::{text_of, FieldName};

verus! {

/// A field of a struct or a tuple, or a variant of a union or an enum: an ordinal, and a name
/// unless it stands in a tuple.
#[derive(Debug)]
pub struct Field {
    pub name: Option<FieldName>,
    pub ord: u8,
}

impl Field {
    /// The text of the name, if there is one.
    pub open spec fn text(self) -> Option<Seq<char>> {
        text_of(self.name)
    }

    /// A field with a name.
    pub fn named(name: FieldName, ord: u8) -> (r: Self)
        ensures
            r.text() == Some(name@),
            r.ord == ord,
    {
        Field { name: Some(name), ord }
    }

    /// A field without a name.
    pub fn unnamed(ord: u8) -> (r: Self)
        ensures
            r.text() == None::<Seq<char>>,
            r.ord == ord,
    {
        Field { name: None, ord }
    }

    /// Whether the field bears the given name.
    pub fn is_named(&self, name: &FieldName) -> (r: bool)
        ensures
            r == (self.text() == Some(name@)),
    {
        match &self.name {
            Some(own) => *own == *name,
            None => false,
        }
    }
}

/// What a set of fields amounts to: the name, if any, at each ordinal in use.
pub type FieldNames = Map<u8, Option<Seq<char>>>;

/// Whether `n` is the ordinal after the last one in use, or 0 if none is.
pub open spec fn follows_last(names: FieldNames, n: nat) -> bool {
    &&& n <= 256
    &&& forall|ord: u8| #[trigger] names.contains_key(ord) ==> ord < n
    &&& n > 0 ==> names.contains_key((n - 1) as u8)
}

/// The ordinal after the last one in use, or 0 if none is; 256 when there is none left.
pub open spec fn next_ord(names: FieldNames) -> nat {
    choose|n: nat| follows_last(names, n)
}

/// Whether some field bears the given name.
pub open spec fn has_name(names: FieldNames, name: Seq<char>) -> bool {
    exists|ord: u8| #[trigger] names.contains_key(ord) && names[ord] == Some(name)
}

/// Whether `ord` is the lowest ordinal at which a field bears the given name.
pub open spec fn is_ord_of(names: FieldNames, name: Seq<char>, ord: u8) -> bool {
    &&& names.contains_key(ord)
    &&& names[ord] == Some(name)
    &&& forall|other: u8| #[trigger]
        names.contains_key(other) && names[other] == Some(name) ==> ord <= other
}

/// The lowest ordinal at which a field bears the given name.
pub open spec fn ord_of(names: FieldNames, name: Seq<char>) -> u8 {
    choose|ord: u8| is_ord_of(names, name, ord)
}

/// There is one ordinal after the last one in use.
pub proof fn lemma_next_ord(names: FieldNames, n: nat)
    requires
        follows_last(names, n),
    ensures
        next_ord(names) == n,
{
    let other = next_ord(names);
    assert(follows_last(names, other));
    if n < other {
        assert(names.contains_key((other - 1) as u8));
    }
    if other < n {
        assert(names.contains_key((n - 1) as u8));
    }
}

/// There is an ordinal after the last one below `bound`.
proof fn lemma_some_follows(names: FieldNames, bound: nat) -> (n: nat)
    requires
        bound <= 256,
        forall|ord: u8| #[trigger] names.contains_key(ord) ==> ord < bound,
    ensures
        follows_last(names, n),
    decreases bound,
{
    if bound == 0 || names.contains_key((bound - 1) as u8) {
        bound
    } else {
        assert forall|ord: u8| #[trigger] names.contains_key(ord) implies ord < bound - 1 by {
            assert(ord != (bound - 1) as u8);
        }
        lemma_some_follows(names, (bound - 1) as nat)
    }
}

/// The next ordinal comes after all that are in use, so it is not one of them.
pub proof fn lemma_next_is_new(names: FieldNames)
    ensures
        follows_last(names, next_ord(names)),
        next_ord(names) <= 255 ==> !names.contains_key(next_ord(names) as u8),
{
    let n = lemma_some_follows(names, 256);
    lemma_next_ord(names, n);
}

/// A name has one lowest ordinal.
pub proof fn lemma_ord_of(names: FieldNames, name: Seq<char>, ord: u8)
    requires
        is_ord_of(names, name, ord),
    ensures
        ord_of(names, name) == ord,
{
    let other = ord_of(names, name);
    assert(is_ord_of(names, name, other));
    assert(names.contains_key(ord) && names.contains_key(other));
}

/// A set of fields, one for an ordinal, in the order of their ordinals.
#[derive(Debug)]
pub struct FieldSet {
    fields: Vec<Field>,
}

/// Whether fields stand in the order of their ordinals, each ordinal once.
pub open spec fn in_order(fields: Seq<Field>) -> bool {
    forall|i: int, j: int| 0 <= i < j < fields.len() ==> fields[i].ord < fields[j].ord
}

/// What a sequence of fields amounts to.
pub open spec fn names_of(fields: Seq<Field>) -> FieldNames {
    Map::new(
        |ord: u8| exists|i: int| 0 <= i < fields.len() && (#[trigger] fields[i]).ord == ord,
        |ord: u8|
            fields[choose|i: int| 0 <= i < fields.len() && (#[trigger] fields[i]).ord == ord].text(),
    )
}

proof fn lemma_names_of(fields: Seq<Field>)
    requires
        in_order(fields),
    ensures
        forall|i: int|
            0 <= i < fields.len() ==> names_of(fields).contains_key((#[trigger] fields[i]).ord)
                && names_of(fields)[fields[i].ord] == fields[i].text(),
{
    assert forall|i: int| 0 <= i < fields.len() implies names_of(fields).contains_key(
        (#[trigger] fields[i]).ord,
    ) && names_of(fields)[fields[i].ord] == fields[i].text() by {
        let k = choose|k: int| 0 <= k < fields.len() && (#[trigger] fields[k]).ord == fields[i].ord;
        assert(0 <= k < fields.len() && fields[k].ord == fields[i].ord);
        if k < i {
            assert(fields[k].ord < fields[i].ord);
        }
        if i < k {
            assert(fields[i].ord < fields[k].ord);
        }
    }
}

/// A field put where it belongs keeps the order and adds its ordinal, with its name.
proof fn lemma_insert(fields: Seq<Field>, at: int, field: Field)
    requires
        in_order(fields),
        0 <= at <= fields.len(),
        forall|i: int| 0 <= i < at ==> (#[trigger] fields[i]).ord < field.ord,
        forall|i: int| at <= i < fields.len() ==> (#[trigger] fields[i]).ord > field.ord,
    ensures
        in_order(fields.insert(at, field)),
        names_of(fields.insert(at, field)) == names_of(fields).insert(field.ord, field.text()),
        !names_of(fields).contains_key(field.ord),
{
    let more = fields.insert(at, field);
    assert forall|i: int, j: int| 0 <= i < j < more.len() implies more[i].ord < more[j].ord by {
        let k = if i < at { i } else { i - 1 };
        let l = if j < at { j } else { j - 1 };
        assert(i != at ==> more[i] == fields[k]);
        assert(j != at ==> more[j] == fields[l]);
    }
    lemma_names_of(fields);
    lemma_names_of(more);
    let sum = names_of(fields).insert(field.ord, field.text());
    assert forall|ord: u8| names_of(more).contains_key(ord) implies sum.contains_key(ord)
        && sum[ord] == #[trigger] names_of(more)[ord] by {
        let i = choose|i: int| 0 <= i < more.len() && (#[trigger] more[i]).ord == ord;
        let k = if i < at { i } else { i - 1 };
        assert(i != at ==> more[i] == fields[k]);
    }
    assert forall|ord: u8| sum.contains_key(ord) implies #[trigger] names_of(more).contains_key(
        ord,
    ) by {
        assert(more[at] == field);
        if ord != field.ord {
            let i = choose|i: int| 0 <= i < fields.len() && (#[trigger] fields[i]).ord == ord;
            let k = if i < at { i } else { i + 1 };
            assert(more[k] == fields[i]);
        }
    }
    assert(names_of(more) =~= sum);
}

impl View for FieldSet {
    type V = FieldNames;

    closed spec fn view(&self) -> FieldNames {
        names_of(self.fields@)
    }
}

impl FieldSet {
    /// The invariant: the fields stand in order.
    pub closed spec fn wf(self) -> bool {
        in_order(self.fields@)
    }

    /// The set of no fields.
    pub fn new() -> (r: Self)
        ensures
            r.wf(),
            r@ == FieldNames::empty(),
    {
        let r = FieldSet { fields: Vec::new() };
        assert(r@ =~= FieldNames::empty());
        r
    }

    /// The fields, in the order of their ordinals.
    pub fn as_slice(&self) -> (r: &[Field])
        requires
            self.wf(),
        ensures
            in_order(r@),
            names_of(r@) == self@,
    {
        self.fields.as_slice()
    }

    /// Where the field with the given ordinal stands, or would stand.
    fn place(&self, ord: u8) -> (r: usize)
        requires
            self.wf(),
        ensures
            r <= self.fields@.len(),
            forall|i: int| 0 <= i < r ==> (#[trigger] self.fields@[i]).ord < ord,
            forall|i: int| r <= i < self.fields@.len() ==> (#[trigger] self.fields@[i]).ord >= ord,
    {
        let mut low: usize = 0;
        let mut high: usize = self.fields.len();
        while low < high
            invariant
                self.wf(),
                low <= high <= self.fields@.len(),
                forall|i: int| 0 <= i < low ==> (#[trigger] self.fields@[i]).ord < ord,
                forall|i: int|
                    high <= i < self.fields@.len() ==> (#[trigger] self.fields@[i]).ord >= ord,
            decreases high - low,
        {
            let mid: usize = low + (high - low) / 2;
            if self.fields[mid].ord < ord {
                low = mid + 1;
            } else {
                high = mid;
            }
        }
        low
    }

    /// Adds a field, unless there is one with its ordinal. Returns whether it was added.
    pub fn insert(&mut self, field: Field) -> (r: bool)
        requires
            old(self).wf(),
        ensures
            final(self).wf(),
            r == !old(self)@.contains_key(field.ord),
            r ==> final(self)@ == old(self)@.insert(field.ord, field.text()),
            !r ==> *final(self) == *old(self),
    {
        let at: usize = self.place(field.ord);
        proof {
            lemma_names_of(self.fields@);
        }
        if at < self.fields.len() && self.fields[at].ord == field.ord {
            return false;
        }
        self.fields.insert(at, field);
        proof {
            lemma_insert(old(self).fields@, at as int, field);
        }
        true
    }

    /// The ordinal after the last one in use, or 0 if none is.
    pub fn next_ord(&self) -> (r: u8)
        requires
            self.wf(),
            next_ord(self@) <= 255,
        ensures
            r == next_ord(self@),
    {
        let len: usize = self.fields.len();
        proof {
            let n: nat = if len == 0 {
                0
            } else {
                (self.fields@[len - 1].ord + 1) as nat
            };
            lemma_names_of(self.fields@);
            assert(follows_last(self@, n));
            lemma_next_ord(self@, n);
        }
        if len == 0 {
            0
        } else {
            self.fields[len - 1].ord + 1
        }
    }

    /// The first field with the given name.
    pub fn find(&self, name: &FieldName) -> (r: Option<&Field>)
        requires
            self.wf(),
        ensures
            r is Some <==> has_name(self@, name@),
            r matches Some(field) ==> is_ord_of(self@, name@, field.ord) && field.text() == Some(
                name@,
            ),
    {
        let mut i: usize = 0;
        proof {
            lemma_names_of(self.fields@);
        }
        while i < self.fields.len()
            invariant
                self.wf(),
                i <= self.fields@.len(),
                forall|k: int| 0 <= k < i ==> (#[trigger] self.fields@[k]).text() != Some(name@),
                forall|k: int|
                    0 <= k < self.fields@.len() ==> self@.contains_key(
                        (#[trigger] self.fields@[k]).ord,
                    ) && self@[self.fields@[k].ord] == self.fields@[k].text(),
            decreases self.fields@.len() - i,
        {
            if self.fields[i].is_named(name) {
                return Some(&self.fields[i]);
            }
            i = i + 1;
        }
        None
    }
}

} // verus!
