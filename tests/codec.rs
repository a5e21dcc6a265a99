use wasmbin::blob::{Blob, Lazy, LazyState};
use wasmbin::codec::{read_varint, write_varint, Codec};
use wasmbin::error::DecodeError;
use wasmbin::indices::{FuncId, LocalId, MemId, TableId, TypeId};
use wasmbin::module::{decode_sections, encode_sections};
use wasmbin::sections::{
    CustomSection, Data, Element, Export, ExportDesc, Func, Import, ImportDesc, ImportPath, Kind,
    NameAssoc, NameMap, NameSubSection, Payload, RawCustomSection, Section,
};
use wasmbin::stream::Stream;
use wasmbin::types::{Expression, ValueType};
use wasmbin::visit::WasmbinVisit;

fn enc<T: Codec>(v: &T) -> Vec<u8> {
    let mut out = Vec::new();
    v.encode(&mut out);
    out
}

fn expr(bytes: &[u8]) -> Expression {
    Expression { bytes: bytes.to_vec() }
}

fn name_payload() -> Vec<u8> {
    let subs = Stream {
        items: vec![
            NameSubSection::Module(Blob::from_value("demo".to_string())),
            NameSubSection::Func(Blob::from_value(NameMap {
                items: vec![
                    NameAssoc { index: FuncId { index: 3 }, value: "c".to_string() },
                    NameAssoc { index: FuncId { index: 1 }, value: "a".to_string() },
                ],
            })),
        ],
    };
    enc(&subs)
}

fn custom_bytes(name: &str, data: &[u8]) -> Vec<u8> {
    let raw = RawCustomSection { name: name.to_string(), data: data.to_vec() };
    enc(&raw)
}

fn sample_stream() -> Vec<u8> {
    let mut out = Vec::new();
    // custom "name" section
    let body = custom_bytes("name", &name_payload());
    out.push(0);
    write_varint(body.len() as u64, &mut out);
    out.extend_from_slice(&body);
    // type-index section: two functions
    let funcs = vec![TypeId { index: 0 }, TypeId { index: 200 }];
    let body = enc(&funcs);
    out.push(3);
    write_varint(body.len() as u64, &mut out);
    out.extend_from_slice(&body);
    // start section
    let body = enc(&FuncId { index: 9 });
    out.push(8);
    write_varint(body.len() as u64, &mut out);
    out.extend_from_slice(&body);
    out
}

#[test]
fn varint_known_encoding() {
    let mut out = Vec::new();
    write_varint(624485, &mut out);
    assert_eq!(out, vec![0xE5, 0x8E, 0x26]);
    assert_eq!(read_varint(&out, 0), Ok((624485, 3)));
    let mut small = Vec::new();
    write_varint(127, &mut small);
    assert_eq!(small, vec![0x7F]);
}

#[test]
fn varint_padded_form_is_malformed() {
    assert_eq!(read_varint(&[0x80, 0x00], 0), Err(DecodeError::MalformedPrimitive));
}

#[test]
fn varint_over_u32_is_malformed() {
    assert_eq!(read_varint(&[0xFF, 0xFF, 0xFF, 0xFF, 0x10], 0), Err(DecodeError::MalformedPrimitive));
    assert_eq!(read_varint(&[0xFF, 0xFF, 0xFF, 0xFF, 0x0F], 0), Ok((u32::MAX, 5)));
}

#[test]
fn varint_cut_short() {
    assert_eq!(read_varint(&[0x80], 0), Err(DecodeError::UnexpectedEof));
}

#[test]
fn string_must_be_utf8() {
    assert_eq!(String::decode(&[2, 0xC3, 0x28], 0), Err(DecodeError::MalformedPrimitive));
    assert_eq!(String::decode(&[2, 0xC3, 0xA9], 0), Ok(("é".to_string(), 3)));
}

#[test]
fn empty_input_gives_no_sections() {
    assert_eq!(decode_sections(&[]), Ok(vec![]));
}

#[test]
fn unknown_discriminant_first() {
    assert_eq!(decode_sections(&[0x7F, 0x00]), Err(DecodeError::UnknownDiscriminant(0x7F)));
}

#[test]
fn unknown_discriminant_after_a_section() {
    let mut data = sample_stream();
    data.push(0x7F);
    data.push(0x00);
    assert_eq!(decode_sections(&data), Err(DecodeError::UnknownDiscriminant(0x7F)));
}

#[test]
fn section_cut_short() {
    let mut data = sample_stream();
    data.push(3);
    assert_eq!(decode_sections(&data), Err(DecodeError::UnexpectedEof));
    data.push(5);
    data.push(1);
    assert_eq!(decode_sections(&data), Err(DecodeError::UnexpectedEof));
}

#[test]
fn round_trip_unforced() {
    let data = sample_stream();
    let sections = decode_sections(&data).unwrap();
    assert_eq!(sections.len(), 3);
    assert_eq!(sections[0].kind(), Kind::Custom);
    assert_eq!(sections[1].kind(), Kind::Function);
    assert_eq!(sections[2].kind(), Kind::Start);
    assert_eq!(encode_sections(&sections), data);
}

#[test]
fn round_trip_after_forcing() {
    let data = sample_stream();
    let mut sections = decode_sections(&data).unwrap();
    let ids = wasmbin::module::func_ids(&mut sections).unwrap();
    assert_eq!(ids, vec![FuncId { index: 3 }, FuncId { index: 1 }, FuncId { index: 9 }]);
    assert_eq!(encode_sections(&sections), data);
}

#[test]
fn name_section_is_recognised_and_left_raw() {
    let data = sample_stream();
    let sections = decode_sections(&data).unwrap();
    let mut custom = sections[0].try_as::<CustomSection>().unwrap().clone();
    assert!(custom.force_all().is_ok());
    let cs = custom.contents.value().unwrap();
    match cs {
        CustomSection::Name(l) => {
            assert!(matches!(l.state, LazyState::Decoded(_)));
            let subs = l.value().unwrap();
            assert_eq!(subs.items.len(), 2);
        }
        CustomSection::Other(_) => panic!("expected the name section"),
    }
}

#[test]
fn weird_custom_section_stays_raw() {
    let body = custom_bytes("weird", &[0xDE, 0xAD, 0x00, 0xFF]);
    let mut data = vec![0u8];
    write_varint(body.len() as u64, &mut data);
    data.extend_from_slice(&body);
    let mut sections = decode_sections(&data).unwrap();
    let blob = sections[0].try_as_mut::<CustomSection>().unwrap();
    assert!(blob.contents.force().is_ok());
    match blob.contents.value().unwrap() {
        CustomSection::Other(raw) => {
            assert_eq!(raw.name, "weird");
            assert_eq!(raw.data, vec![0xDE, 0xAD, 0x00, 0xFF]);
        }
        CustomSection::Name(_) => panic!("expected a raw section"),
    }
    assert_eq!(encode_sections(&sections), data);
}

#[test]
fn custom_from_raw_dispatches_on_name() {
    let named = CustomSection::from_raw(RawCustomSection { name: "name".to_string(), data: vec![1, 2] });
    assert!(matches!(named, CustomSection::Name(_)));
    let other = CustomSection::from_raw(RawCustomSection { name: "Name".to_string(), data: vec![1, 2] });
    assert!(matches!(other, CustomSection::Other(_)));
}

#[test]
fn force_twice_gives_the_same_value() {
    let bytes = enc(&vec![FuncId { index: 4 }, FuncId { index: 5 }]);
    let mut lazy: Lazy<Vec<FuncId>> = Lazy::from_raw(bytes.clone());
    assert!(lazy.value().is_none());
    assert!(lazy.force().is_ok());
    let first = lazy.clone();
    assert!(lazy.force().is_ok());
    assert_eq!(lazy, first);
    assert_eq!(lazy.value().unwrap(), &vec![FuncId { index: 4 }, FuncId { index: 5 }]);
    assert_eq!(enc(&lazy), bytes);
}

#[test]
fn force_rejects_trailing_bytes() {
    let mut lazy: Lazy<FuncId> = Lazy::from_raw(vec![1, 2]);
    assert_eq!(lazy.force(), Err(DecodeError::TrailingBytes));
    assert!(lazy.value().is_none());
}

#[test]
fn typed_access_matches_kind() {
    let import = Import {
        path: ImportPath { module: "env".to_string(), name: "f".to_string() },
        desc: ImportDesc::Func(TypeId { index: 0 }),
    };
    let s = Section::Import(Blob::from_value(vec![import]));
    assert!(s.try_as::<Vec<Import>>().is_some());
    assert!(s.try_as::<Vec<Export>>().is_none());
    assert_eq!(<Vec<Import> as Payload>::kind(), s.kind());
    let back = <Vec<Export> as Payload>::try_from(s.clone());
    assert_eq!(back, Err(s.clone()));
    assert!(<Vec<Import> as Payload>::try_from(s).is_ok());
}

#[test]
fn kinds_order_by_tag() {
    assert!(Kind::Custom < Kind::Type);
    assert!(Kind::Code < Kind::Data);
    assert_eq!(Kind::Data.discriminant(), 11);
    assert_eq!(Kind::Start.discriminant(), 8);
}

#[test]
fn records_round_trip() {
    let data = Data { memory: MemId { index: 0 }, offset: expr(&[0x41, 0x00, 0x0B]), init: vec![1, 2, 3] };
    let bytes = enc(&data);
    assert_eq!(Data::decode(&bytes, 0), Ok((data, bytes.len())));
    let func = Func { locals: vec![], body: expr(&[0x0B]) };
    let bytes = enc(&func);
    assert_eq!(Func::decode(&bytes, 0), Ok((func, bytes.len())));
    let el = Element { table: TableId { index: 0 }, offset: expr(&[0x0B]), init: vec![FuncId { index: 2 }] };
    let bytes = enc(&el);
    assert_eq!(Element::decode(&bytes, 0), Ok((el, bytes.len())));
    let names: NameMap<FuncId, NameMap<LocalId, String>> = NameMap { items: vec![] };
    let bytes = enc(&names);
    assert_eq!(bytes, vec![0]);
    let vt = ValueType { code: 0x7F };
    assert_eq!(enc(&vt), vec![0x7F]);
}

#[test]
fn export_desc_unknown_tag() {
    assert_eq!(ExportDesc::decode(&[4, 0], 0), Err(DecodeError::UnknownDiscriminant(4)));
    assert_eq!(ExportDesc::decode(&[0, 7], 0), Ok((ExportDesc::Func(FuncId { index: 7 }), 2)));
}

#[test]
fn frame_cut_short_is_unexpected_eof() {
    assert_eq!(decode_sections(&[0x08]), Err(DecodeError::UnexpectedEof));
    assert_eq!(decode_sections(&[0x08, 0x05, 0x00]), Err(DecodeError::UnexpectedEof));
}

#[test]
fn decoded_sections_keep_payloads_raw() {
    let data = sample_stream();
    let sections = decode_sections(&data).unwrap();
    for s in &sections {
        match s {
            Section::Custom(b) => assert!(b.contents.value().is_none()),
            Section::Function(b) => assert!(b.contents.value().is_none()),
            Section::Start(b) => assert!(b.contents.value().is_none()),
            _ => panic!("unexpected section"),
        }
    }
}
