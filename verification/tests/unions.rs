use strict_writer::{
    DefineEnum, DefineStruct, DefineTuple, DefineUnion, FieldType, Ident, Lent, StrictParent,
    StrictWriter, UnionWriter, WriteEnum, WriteError, WriteStruct, WriteTuple, WriteUnion,
};

/// A union of a variant of each kind.
fn shapes(limit: usize) -> UnionWriter<Vec<u8>> {
    let u = StrictWriter::in_memory(limit).define_union(Some("Shape"));
    let u = DefineUnion::define_unit(u, "none");
    let t = DefineUnion::define_tuple(u, "circle");
    let u = DefineTuple::complete(DefineTuple::define_field::<u8>(t));
    let s = DefineUnion::define_struct(u, "rect");
    let s = DefineStruct::define_field::<u8, _>(s, "a");
    let u = DefineStruct::complete(DefineStruct::define_field::<u8, _>(s, "b"));
    DefineUnion::complete(u)
}

#[test]
fn unit_variant() {
    let u = WriteUnion::write_unit(shapes(10), "none").unwrap();
    assert_eq!(WriteUnion::complete(u).unbox(), vec![0]);
}

#[test]
fn tuple_variant() {
    let t = WriteUnion::write_tuple(shapes(10), "circle").unwrap();
    assert_eq!(t.name(), "circle");
    let t = WriteTuple::write_field(t, &5u8).unwrap();
    let u = WriteTuple::complete(t);
    assert_eq!(WriteUnion::complete(u).unbox(), vec![1, 0, 5]);
}

#[test]
fn struct_variant() {
    let s = WriteUnion::write_struct(shapes(10), "rect").unwrap();
    let s = WriteStruct::write_field(s, "a", &5u8).unwrap();
    let s = WriteStruct::write_field(s, "b", &6u8).unwrap();
    let u = WriteStruct::complete(s);
    assert_eq!(WriteUnion::complete(u).unbox(), vec![2, 0, 5, 1, 6]);
}

#[test]
fn variant_over_limit() {
    assert!(matches!(WriteUnion::write_unit(shapes(0), "none"), Err(WriteError::InvalidInput)));
    assert!(matches!(WriteUnion::write_tuple(shapes(0), "circle"), Err(WriteError::InvalidInput)));
    assert!(matches!(WriteUnion::write_struct(shapes(0), "rect"), Err(WriteError::InvalidInput)));
    let t = WriteUnion::write_tuple(shapes(2), "circle").unwrap();
    assert!(matches!(WriteTuple::write_field(t, &5u8), Err(WriteError::InvalidInput)));
}

#[test]
fn enum_variants_stand_for_their_values() {
    let u = StrictWriter::in_memory(1).define_enum(Some("Color"));
    assert_eq!(u.name(), "Color");
    let u = DefineEnum::define_variant(u, "red", 10);
    let u = DefineEnum::define_variant(u, "green", 4);
    let u = DefineEnum::define_variant(u, "blue", 255);
    let u = DefineEnum::complete(u);
    let u = WriteEnum::write_variant(u, "green").unwrap();
    assert_eq!(WriteEnum::complete(u).unbox(), vec![4]);
}

#[test]
fn of_variants_with_one_name_the_lowest_is_written() {
    let u = StrictWriter::in_memory(1).define_enum(None::<&str>);
    assert_eq!(u.name(), "unnamed");
    let u = DefineEnum::define_variant(u, "a", 9);
    let u = DefineEnum::define_variant(u, "a", 8);
    assert_eq!(u.next_ord(), 10);
    let u = WriteEnum::write_variant(DefineEnum::complete(u), "a").unwrap();
    assert_eq!(WriteEnum::complete(u).unbox(), vec![8]);
}

#[test]
fn joining_undoes_splitting() {
    let u = WriteUnion::write_unit(shapes(10), "none").unwrap();
    let (writer, rest) = u.split_typed_write();
    assert_eq!(rest.name(), "Shape");
    assert_eq!(rest.next_ord(), 3);
    let u: UnionWriter<Vec<u8>> = StrictParent::from_split(writer, rest);
    assert_eq!(u.name(), "Shape");
    assert_eq!(u.next_ord(), 3);
    assert_eq!(WriteUnion::complete(u).unbox(), vec![0]);
}

#[test]
fn inline_union_takes_the_writer_over() {
    let outer = StrictWriter::in_memory(5)._write_raw::<1>(&[77]).unwrap().define_union(Some("A"));
    let inner = UnionWriter::inline(Some("B"), outer);
    assert_eq!(inner.name(), "B");
    assert_eq!(inner.next_ord(), 0);
    let inner = DefineUnion::define_unit(inner, "x");
    let inner = WriteUnion::write_unit(DefineUnion::complete(inner), "x").unwrap();
    assert_eq!(WriteUnion::complete(inner).unbox(), vec![77, 0]);
}

#[test]
fn variants_can_be_asked_for() {
    let u = shapes(10);
    assert_eq!(u.kind_of(&Ident::new("none")), Some(FieldType::Unit));
    assert_eq!(u.kind_of(&Ident::new("circle")), Some(FieldType::Tuple));
    assert_eq!(u.kind_of(&Ident::new("rect")), Some(FieldType::Struct));
    assert_eq!(u.kind_of(&Ident::new("square")), None);
    assert_eq!(u.fields().as_slice().len(), 3);
    assert!(!u.is_written());
    let u = WriteUnion::write_unit(u, "none").unwrap();
    assert!(u.is_written());
    assert_eq!(StrictWriter::in_memory(0).define_enum(Some("E")).fields().as_slice().len(), 0);
}

#[test]
fn failed_variant_leaves_what_was_written() {
    let mut v: Vec<u8> = vec![];
    let u = StrictWriter::with(2, Lent(&mut v)).define_union(Some("U"));
    let t = DefineUnion::define_tuple(u, "a");
    let u = DefineTuple::complete(DefineTuple::define_field::<u8>(t));
    let t = WriteUnion::write_tuple(DefineUnion::complete(u), "a").unwrap();
    assert!(matches!(WriteTuple::write_field_ord(t, 8, &5u8), Err(WriteError::InvalidInput)));
    assert_eq!(v, vec![0, 8]);
}
