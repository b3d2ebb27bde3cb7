//! Identifiers: the names of types, fields and variants.
use vstd::prelude::*;

verus! {

/// The name of a type, a field or a variant.
#[derive(Debug)]
pub struct Ident {
    text: String,
}

/// The name of a field.
pub type FieldName = Ident;

impl View for Ident {
    type V = Seq<char>;

    closed spec fn view(&self) -> Seq<char> {
        self.text@
    }
}

impl Ident {
    /// The identifier with the given text.
    pub fn new(text: &str) -> (r: Self)
        ensures
            r@ == text@,
    {
        Ident { text: text.to_owned() }
    }

    /// The text of the identifier.
    pub fn as_str(&self) -> (r: &str)
        ensures
            r@ == self@,
    {
        self.text.as_str()
    }
}

impl Clone for Ident {
    fn clone(&self) -> (r: Self)
        ensures
            r@ == self@,
    {
        Ident { text: self.text.clone() }
    }
}

/// Identifiers are equal when their texts are.
impl PartialEq for Ident {
    fn eq(&self, other: &Self) -> (r: bool) {
        self.text == other.text
    }
}

impl vstd::std_specs::cmp::PartialEqSpecImpl for Ident {
    open spec fn obeys_eq_spec() -> bool {
        true
    }

    open spec fn eq_spec(&self, other: &Self) -> bool {
        self@ == other@
    }
}

/// A value that names something.
pub trait ToIdent {
    /// The text of the name; a type that does not tell may have any.
    open spec fn ident(&self) -> Seq<char> {
        arbitrary::<spec_fn(&Self) -> Seq<char>>()(self)
    }

    /// The name as an identifier.
    fn to_ident(&self) -> (r: Ident)
        ensures
            r@ == self.ident(),
    ;
}

impl ToIdent for Ident {
    open spec fn ident(&self) -> Seq<char> {
        self@
    }

    fn to_ident(&self) -> (r: Ident) {
        self.clone()
    }
}

impl ToIdent for &str {
    open spec fn ident(&self) -> Seq<char> {
        self@
    }

    fn to_ident(&self) -> (r: Ident) {
        Ident::new(self)
    }
}

/// A value that may name something.
pub trait ToMaybeIdent {
    /// The text of the name, if there is one.
    spec fn maybe_ident(&self) -> Option<Seq<char>>;

    /// The name as an identifier, if there is one.
    fn to_maybe_ident(&self) -> (r: Option<Ident>)
        ensures
            text_of(r) == self.maybe_ident(),
    ;
}

/// The text of an identifier that may be missing.
pub open spec fn text_of(ident: Option<Ident>) -> Option<Seq<char>> {
    match ident {
        Some(ident) => Some(ident@),
        None => None,
    }
}

impl<N: ToIdent> ToMaybeIdent for Option<N> {
    open spec fn maybe_ident(&self) -> Option<Seq<char>> {
        match *self {
            Some(name) => Some(name.ident()),
            None => None,
        }
    }

    fn to_maybe_ident(&self) -> (r: Option<Ident>) {
        match self {
            Some(name) => Some(name.to_ident()),
            None => None,
        }
    }
}

} // verus!
