use wasmbin::blob::Blob;
use wasmbin::codec::{write_varint, Codec};
use wasmbin::error::DecodeError;
use wasmbin::indices::{FuncId, MemId, TableId};
use wasmbin::module::{decode_sections, encode_sections, func_ids, visit, visit_each, visit_mut};
use wasmbin::sections::{Element, Export, ExportDesc, RawCustomSection, Section};
use wasmbin::types::Expression;
use wasmbin::visit::{FuncIdVisitor, FuncIdVisitorMut, Traced, TracedMut, VisitError, VisitResult};

fn three_func_ids() -> Vec<Section> {
    vec![
        Section::Export(Blob::from_value(vec![
            Export { name: "main".to_string(), desc: ExportDesc::Func(FuncId { index: 5 }) },
            Export { name: "mem".to_string(), desc: ExportDesc::Mem(MemId { index: 0 }) },
        ])),
        Section::Start(Blob::from_value(FuncId { index: 9 })),
        Section::Element(Blob::from_value(vec![Element {
            table: TableId { index: 0 },
            offset: Expression { bytes: vec![0x41, 0x00, 0x0B] },
            init: vec![FuncId { index: 7 }],
        }])),
    ]
}

struct Recorder {
    seen: Vec<u32>,
}

impl FuncIdVisitor for Recorder {
    type Output = ();
    fn visit_func_id(&mut self, id: &FuncId) {
        self.seen.push(id.index);
    }
}

struct StopAt {
    seen: Vec<u32>,
    stop_at: usize,
}

impl FuncIdVisitor for StopAt {
    type Output = bool;
    fn visit_func_id(&mut self, id: &FuncId) -> bool {
        self.seen.push(id.index);
        self.seen.len() != self.stop_at
    }
}

struct Find {
    target: u32,
    calls: usize,
}

impl FuncIdVisitor for Find {
    type Output = Result<(), u32>;
    fn visit_func_id(&mut self, id: &FuncId) -> Result<(), u32> {
        self.calls += 1;
        if id.index == self.target {
            Err(id.index)
        } else {
            Ok(())
        }
    }
}

struct Renumber {
    calls: usize,
    stop_after: usize,
}

impl FuncIdVisitorMut for Renumber {
    type Output = Result<(), String>;
    fn visit_func_id_mut(&mut self, id: &mut FuncId) -> Result<(), String> {
        self.calls += 1;
        id.index += 100;
        if self.calls == self.stop_after {
            Err("enough".to_string())
        } else {
            Ok(())
        }
    }
}

struct Count {
    n: usize,
}

impl FuncIdVisitor for Count {
    type Output = ();
    fn visit_func_id(&mut self, _id: &FuncId) {
        self.n += 1;
    }
}

fn recorder() -> Traced<Recorder> {
    Traced::new(Recorder { seen: vec![] })
}

fn section_bytes(tag: u8, body: &[u8]) -> Vec<u8> {
    let mut out = vec![tag];
    write_varint(body.len() as u64, &mut out);
    out.extend_from_slice(body);
    out
}

fn custom_body(name: &str, data: &[u8]) -> Vec<u8> {
    let mut out = Vec::new();
    RawCustomSection { name: name.to_string(), data: data.to_vec() }.encode(&mut out);
    out
}

#[test]
fn visits_every_func_id_in_order() {
    let mut sections = three_func_ids();
    let mut rec = recorder();
    assert!(visit(&mut sections, &mut rec).is_ok());
    assert_eq!(rec.inner.seen, vec![5, 9, 7]);
}

#[test]
fn visit_stops_at_the_second() {
    let mut sections = three_func_ids();
    let mut stop = Traced::new(StopAt { seen: vec![], stop_at: 2 });
    let r = visit(&mut sections, &mut stop);
    assert!(matches!(r, Err(VisitError::Custom(()))));
    assert_eq!(stop.inner.seen, vec![5, 9]);
}

#[test]
fn visit_with_result_reports_callers_error() {
    let mut sections = three_func_ids();
    let mut find = Traced::new(Find { target: 9, calls: 0 });
    let r = visit(&mut sections, &mut find);
    assert_eq!(find.inner.calls, 2);
    assert!(matches!(r, Err(VisitError::Custom(9))));
}

#[test]
fn visit_forces_raw_payloads() {
    let bytes = encode_sections(&three_func_ids());
    let mut sections = decode_sections(&bytes).unwrap();
    let mut rec = recorder();
    assert!(visit(&mut sections, &mut rec).is_ok());
    assert_eq!(rec.inner.seen, vec![5, 9, 7]);
    assert_eq!(encode_sections(&sections), bytes);
}

#[test]
fn second_visit_hands_out_the_same_ids() {
    let bytes = encode_sections(&three_func_ids());
    let mut sections = decode_sections(&bytes).unwrap();
    let mut first = recorder();
    assert!(visit(&mut sections, &mut first).is_ok());
    let after_first = sections.clone();
    let mut second = recorder();
    assert!(visit(&mut sections, &mut second).is_ok());
    assert_eq!(first.inner.seen, second.inner.seen);
    assert_eq!(sections, after_first);
}

#[test]
fn visit_reports_bad_payload_as_lazy_decode() {
    // start section whose payload has a byte left over
    let data = vec![8u8, 2, 1, 1];
    let mut sections = decode_sections(&data).unwrap();
    let mut rec = recorder();
    let r = visit(&mut sections, &mut rec);
    assert!(matches!(r, Err(VisitError::LazyDecode(DecodeError::TrailingBytes))));
    assert!(rec.inner.seen.is_empty());
    assert_eq!(encode_sections(&sections), data);
}

#[test]
fn malformed_name_section_gives_lazy_decode_without_calls() {
    let data = section_bytes(0, &custom_body("name", &[0x7F]));
    let mut sections = decode_sections(&data).unwrap();
    let mut count = Traced::new(Count { n: 0 });
    let r = visit(&mut sections, &mut count);
    assert!(matches!(r, Err(VisitError::LazyDecode(DecodeError::UnknownDiscriminant(0x7F)))));
    assert_eq!(count.inner.n, 0);
}

#[test]
fn walk_stops_before_a_later_malformed_payload() {
    let mut start = Vec::new();
    FuncId { index: 4 }.encode(&mut start);
    let mut data = section_bytes(8, &start);
    data.extend(section_bytes(0, &custom_body("name", &[0x7F])));
    let mut sections = decode_sections(&data).unwrap();
    let mut stop = Traced::new(StopAt { seen: vec![], stop_at: 1 });
    let r = visit(&mut sections, &mut stop);
    assert!(matches!(r, Err(VisitError::Custom(()))));
    assert_eq!(stop.inner.seen, vec![4]);
    assert_eq!(encode_sections(&sections), data);
}

#[test]
fn visit_mut_changes_every_func_id() {
    let mut sections = three_func_ids();
    let mut renumber = TracedMut::new(Renumber { calls: 0, stop_after: 0 });
    assert!(visit_mut(&mut sections, &mut renumber).is_ok());
    assert_eq!(renumber.inner.calls, 3);
    let ids = func_ids(&mut sections).unwrap();
    assert_eq!(ids, vec![FuncId { index: 105 }, FuncId { index: 109 }, FuncId { index: 107 }]);
}

#[test]
fn visit_mut_stops_at_refusal() {
    let bytes = encode_sections(&three_func_ids());
    let mut sections = decode_sections(&bytes).unwrap();
    let mut renumber = TracedMut::new(Renumber { calls: 0, stop_after: 2 });
    let r = visit_mut(&mut sections, &mut renumber);
    assert!(matches!(r, Err(VisitError::Custom(ref m)) if m == "enough"));
    assert_eq!(renumber.inner.calls, 2);
    let ids = func_ids(&mut sections).unwrap();
    assert_eq!(ids, vec![FuncId { index: 105 }, FuncId { index: 109 }, FuncId { index: 7 }]);
}

#[test]
fn infallible_visit_converts_to_decode_error() {
    let data = vec![8u8, 2, 1, 1];
    let mut sections = decode_sections(&data).unwrap();
    let mut count = Traced::new(Count { n: 0 });
    let err = visit(&mut sections, &mut count).unwrap_err();
    assert_eq!(err.into_decode_error(), DecodeError::TrailingBytes);
    let mut ok_sections = three_func_ids();
    assert!(visit(&mut ok_sections, &mut count).is_ok());
    assert_eq!(count.inner.n, 3);
}

#[test]
fn visit_each_on_no_ids() {
    let mut count = Traced::new(Count { n: 0 });
    assert!(visit_each(&vec![], &mut count).is_ok());
    assert_eq!(count.inner.n, 0);
}

#[test]
fn as_result_is_exact() {
    assert_eq!(true.as_result(), Ok(()));
    assert_eq!(false.as_result(), Err(()));
    assert_eq!(Err::<(), u8>(3).as_result(), Err(3));
    assert_eq!(Ok::<(), u8>(()).as_result(), Ok(()));
    assert!(().as_result().is_ok());
}

struct SetSeven;

impl FuncIdVisitorMut for SetSeven {
    type Output = ();
    fn visit_func_id_mut(&mut self, id: &mut FuncId) {
        *id = FuncId { index: 7 };
    }
}

#[test]
fn visit_mut_changes_only_the_indices() {
    let mut sections = three_func_ids();
    let mut seven = TracedMut::new(SetSeven);
    assert!(visit_mut(&mut sections, &mut seven).is_ok());
    let expected = vec![
        Section::Export(Blob::from_value(vec![
            Export { name: "main".to_string(), desc: ExportDesc::Func(FuncId { index: 7 }) },
            Export { name: "mem".to_string(), desc: ExportDesc::Mem(MemId { index: 0 }) },
        ])),
        Section::Start(Blob::from_value(FuncId { index: 7 })),
        Section::Element(Blob::from_value(vec![Element {
            table: TableId { index: 0 },
            offset: Expression { bytes: vec![0x41, 0x00, 0x0B] },
            init: vec![FuncId { index: 7 }],
        }])),
    ];
    assert_eq!(sections, expected);
}
