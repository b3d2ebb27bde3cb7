use strict_writer::{
    ByteWrite, DefineStruct, DefineTuple, Field, Ident, Lent, StrictEncode, StrictParent,
    StrictWriter, StructWriter, ToIdent, ToMaybeIdent, WriteError, WriteStruct, WriteTuple,
};

/// A value of two fields.
struct Point {
    x: u8,
    y: u8,
}

impl StrictEncode for Point {
    fn strict_encode<W: ByteWrite>(&self, writer: StrictWriter<W>) -> Result<StrictWriter<W>, WriteError> {
        let w = writer.write_struct(Some("Point"));
        let w = WriteStruct::write_field(w, "x", &self.x)?;
        let w = WriteStruct::write_field(w, "y", &self.y)?;
        Ok(WriteStruct::complete(w))
    }
}

/// A value that cannot be encoded.
struct Never;

impl StrictEncode for Never {
    fn strict_encode<W: ByteWrite>(&self, _: StrictWriter<W>) -> Result<StrictWriter<W>, WriteError> {
        Err(WriteError::Io(std::io::Error::from(std::io::ErrorKind::InvalidData)))
    }
}

fn ords(fields: &[Field]) -> Vec<u8> {
    fields.iter().map(|f| f.ord).collect()
}

#[test]
fn struct_fields_are_written_with_their_ordinals() {
    let w = (Point { x: 7, y: 9 }).strict_encode(StrictWriter::in_memory(4)).unwrap();
    assert_eq!(w.unbox(), vec![0, 7, 1, 9]);
}

#[test]
fn struct_in_struct() {
    let w = StrictWriter::in_memory(100).write_struct(Some("Line"));
    let w = WriteStruct::write_field(w, "from", &Point { x: 1, y: 2 }).unwrap();
    let w = WriteStruct::write_field_ord(w, "to", 5, &Point { x: 3, y: 4 }).unwrap();
    let w = WriteStruct::complete(w);
    assert_eq!(w.unbox(), vec![0, 0, 1, 1, 2, 5, 0, 3, 1, 4]);
}

#[test]
fn tuple_fields_have_no_names() {
    let w = StrictWriter::in_memory(100).write_tuple(None::<&str>);
    let w = WriteTuple::write_field(w, &1u8).unwrap();
    let w = WriteTuple::write_field_ord(w, 9, &2u8).unwrap();
    let w = WriteTuple::write_field(w, &3u8).unwrap();
    assert_eq!(ords(w.fields().as_slice()), vec![0, 9, 10]);
    assert!(w.fields().as_slice().iter().all(|f| f.name.is_none()));
    assert_eq!(WriteTuple::complete(w).unbox(), vec![0, 1, 9, 2, 10, 3]);
}

#[test]
fn limit_is_met_at_the_ordinal_or_at_the_value() {
    let w = StrictWriter::in_memory(0).write_struct(Some("S"));
    assert!(matches!(WriteStruct::write_field(w, "a", &1u8), Err(WriteError::InvalidInput)));
    let w = StrictWriter::in_memory(1).write_struct(Some("S"));
    assert!(matches!(WriteStruct::write_field(w, "a", &1u8), Err(WriteError::InvalidInput)));
    let w = StrictWriter::in_memory(2).write_struct(Some("S"));
    let w = WriteStruct::write_field(w, "a", &1u8).unwrap();
    assert!(matches!(WriteStruct::write_field(w, "b", &1u8), Err(WriteError::InvalidInput)));
}

#[test]
fn error_of_the_value_is_handed_on() {
    let w = StrictWriter::in_memory(10).write_struct(Some("S"));
    match WriteStruct::write_field(w, "a", &Never) {
        Err(WriteError::Io(e)) => assert_eq!(e.kind(), std::io::ErrorKind::InvalidData),
        _ => panic!("the value cannot be encoded"),
    }
}

#[test]
fn defined_fields_are_numbered_and_found() {
    let w = StructWriter::with(Some("S"), StrictWriter::in_memory(0));
    assert_eq!(w.next_ord(), 0);
    assert_eq!(w.field_ord(&Ident::new("a")), None);
    let w = DefineStruct::define_field::<u8, _>(w, "a");
    let w = DefineStruct::define_field_ord::<u8, _>(w, "c", 7);
    let w = DefineStruct::define_field_ord::<u8, _>(w, "b", 3);
    let w = DefineStruct::define_field::<u8, _>(w, Ident::new("d"));
    assert_eq!(ords(w.fields().as_slice()), vec![0, 3, 7, 8]);
    assert_eq!(w.next_ord(), 9);
    assert_eq!(w.field_ord(&Ident::new("a")), Some(0));
    assert_eq!(w.field_ord(&Ident::new("b")), Some(3));
    assert_eq!(w.field_ord(&Ident::new("c")), Some(7));
    assert_eq!(w.field_ord(&Ident::new("d")), Some(8));
    assert_eq!(w.field_ord(&Ident::new("e")), None);
    assert!(!w.is_defined());
    assert_eq!(DefineStruct::complete(w).unbox(), Vec::<u8>::new());
}

#[test]
fn of_fields_with_one_name_the_lowest_is_found() {
    let w = StructWriter::with(Some("S"), StrictWriter::in_memory(0));
    let w = DefineStruct::define_field_ord::<u8, _>(w, "a", 200);
    let w = DefineStruct::define_field_ord::<u8, _>(w, "a", 20);
    let w = DefineStruct::define_field_ord::<u8, _>(w, "a", 100);
    assert_eq!(w.field_ord(&Ident::new("a")), Some(20));
    assert_eq!(w.next_ord(), 201);
}

#[test]
fn defined_tuple() {
    let w = StructWriter::with(None::<Ident>, StrictWriter::in_memory(0));
    let w = DefineTuple::define_field::<u8>(w);
    let w = DefineTuple::define_field::<Point>(w);
    let w = DefineTuple::define_field_ord::<u8>(w, 254);
    assert_eq!(ords(w.fields().as_slice()), vec![0, 1, 254]);
    assert_eq!(w.next_ord(), 255);
    assert_eq!(DefineTuple::complete(w).unbox(), Vec::<u8>::new());
}

#[test]
fn names_of_structs() {
    let w = StructWriter::with(Some("S"), StrictWriter::in_memory(0));
    assert_eq!(w.name(), "S");
    let w = StructWriter::with(None::<&str>, StrictWriter::in_memory(0));
    assert_eq!(w.name(), "<unnamed>");
}

#[test]
fn parent_can_be_changed_in_place() {
    let mut w = StrictWriter::in_memory(0).write_struct(Some("S"));
    *w.as_parent_mut() = StrictWriter::in_memory(2);
    let w = WriteStruct::write_field(w, "a", &4u8).unwrap();
    assert_eq!(WriteStruct::complete(w).unbox(), vec![0, 4]);
}

#[test]
fn a_strict_writer_is_its_own_parent() {
    let w = StrictWriter::in_memory(3)._write_raw::<1>(&[8]).unwrap();
    let (w, rest) = w.split_typed_write();
    let w: StrictWriter<Vec<u8>> = StrictParent::from_split(w, rest);
    assert_eq!(w.unbox(), vec![8]);
}

#[test]
fn identifiers() {
    assert_eq!(Ident::new("abc"), "abc".to_ident());
    assert_eq!(Ident::new("abc").to_ident().as_str(), "abc");
    assert_ne!(Ident::new("abc"), Ident::new("abd"));
    assert_eq!(Some("x").to_maybe_ident(), Some(Ident::new("x")));
    assert_eq!(None::<&str>.to_maybe_ident(), None);
}

#[test]
fn failed_field_leaves_its_ordinal() {
    let mut v: Vec<u8> = vec![];
    let w = StructWriter::with(None::<&str>, StrictWriter::with(1, Lent(&mut v)));
    assert!(matches!(WriteTuple::write_field_ord(w, 4, &9u8), Err(WriteError::InvalidInput)));
    assert_eq!(v, vec![4]);
    let mut v: Vec<u8> = vec![];
    let w = StructWriter::with(None::<&str>, StrictWriter::with(5, Lent(&mut v)));
    assert!(matches!(
        WriteTuple::write_field_ord(w, 4, &Never),
        Err(WriteError::Io(_))
    ));
    assert_eq!(v, vec![4]);
    let mut v: Vec<u8> = vec![];
    let w = StructWriter::with(None::<&str>, StrictWriter::with(4, Lent(&mut v)));
    assert!(matches!(
        WriteTuple::write_field(w, &Point { x: 7, y: 9 }),
        Err(WriteError::InvalidInput)
    ));
    assert_eq!(v, vec![0, 0, 7, 1]);
}

#[test]
fn written_struct_of_no_fields_is_complete() {
    let w = StrictWriter::in_memory(3)._write_raw::<1>(&[6]).unwrap().write_struct(Some("S"));
    assert!(w.is_written());
    assert_eq!(WriteStruct::complete(w).unbox(), vec![6]);
}

#[test]
fn fields_that_are_defined_ahead_are_left_to_be_written() {
    let w = StrictWriter::in_memory(3).write_struct(Some("S"));
    let w = WriteStruct::write_field(w, "a", &1u8).unwrap();
    assert!(w.is_written());
    let w = DefineStruct::define_field::<u8, _>(w, "b");
    assert!(!w.is_written());
}

#[test]
fn next_field_is_the_field_at_the_next_ordinal() {
    for limit in 0..4 {
        let start = || {
            let w = StrictWriter::in_memory(limit).write_struct(Some("S"));
            DefineStruct::define_field_ord::<u8, _>(w, "a", 6)
        };
        let by_next = WriteStruct::write_field(start(), "b", &3u8);
        let by_ord = WriteStruct::write_field_ord(start(), "b", start().next_ord(), &3u8);
        match (by_next, by_ord) {
            (Ok(x), Ok(y)) => {
                assert!(limit >= 2);
                assert_eq!(ords(x.fields().as_slice()), vec![6, 7]);
                assert_eq!(ords(y.fields().as_slice()), vec![6, 7]);
            }
            (Err(x), Err(y)) => {
                assert!(limit < 2);
                assert!(matches!(x, WriteError::InvalidInput));
                assert!(matches!(y, WriteError::InvalidInput));
            }
            _ => panic!("the two do not agree"),
        }
    }
}
