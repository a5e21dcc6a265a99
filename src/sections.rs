//! The sections of a module, the records they hold, the name section, and
//! typed access to a section's payload.
use vstd::prelude::*;
use vstd::string::*;
use vstd::utf8::*;
use crate::blob::{Blob, Lazy};
use crate::codec::{Codec, Tagged, bytes_at, leb, lemma_join, push_all, read_string, string_at,
    tag_at};
use crate::error::DecodeError;
use crate::indices::{FuncId, GlobalId, LocalId, MemId, TableId, TypeId};
use crate::stream::Stream;
use crate::types::{Expression, FuncType, GlobalType, MemType, TableType, ValueType};
use crate::visit::WasmbinVisit;

verus! {

/// The name of the module, as the name section gives it.
#[derive(Debug, Clone, PartialEq, Eq, Hash)]
pub struct ModuleNameSubSection {
    pub name: String,
}

impl Codec for ModuleNameSubSection {
    open spec fn enc(&self) -> Seq<u8> {
        self.name.enc()
    }

    open spec fn is_tail() -> bool {
        <String>::is_tail()
    }

    open spec fn rejects(data: Seq<u8>, pos: int, e: DecodeError) -> bool {
        false
    }

    open spec fn fits(&self) -> bool {
        &&& self.name.fits()
    }

    fn encode(&self, out: &mut Vec<u8>) {
        self.name.encode(out);
        assert(out@ =~= old(out)@ + self.enc());
    }

    fn decode(data: &[u8], pos: usize) -> (r: Result<(ModuleNameSubSection, usize), DecodeError>) {
        proof {
            assert forall|v: ModuleNameSubSection| #[trigger] bytes_at(data@, pos as int, v.enc(),
                v.fits(), <ModuleNameSubSection>::is_tail())
                implies bytes_at(
                data@,
                pos as int,
                v.name.enc(),
                v.name.fits(),
                <String>::is_tail(),
            ) by {
                let off: int = 0;
                let b: int = v.name.enc().len() as int;
                assert(data@.subrange(pos as int, pos + b) =~= v.enc().subrange(off, off + b));
                assert(v.enc().subrange(off, off + b) =~= v.name.enc());
            }
        }
        let (name, p0) = <String>::decode(data, pos)?;
        proof {
            assert forall|v: ModuleNameSubSection| #[trigger] bytes_at(data@, pos as int, v.enc(),
                v.fits(), <ModuleNameSubSection>::is_tail())
                implies p0 == pos + v.enc().len() by {
                assert(bytes_at(data@, pos as int, v.name.enc(), v.name.fits(),
                    <String>::is_tail()));
            }
        }
        Ok((ModuleNameSubSection { name }, p0))
    }
}

impl WasmbinVisit for ModuleNameSubSection {
    open spec fn is_forced(&self) -> bool {
        self.name.is_forced()
    }

    open spec fn agrees(&self, old: Self) -> bool {
        self.name.agrees(old.name)
    }

    proof fn lemma_agrees_refl(&self) {
        self.name.lemma_agrees_refl();
    }

    proof fn lemma_agrees_trans(&self, mid: Self, old: Self) {
        self.name.lemma_agrees_trans(mid.name, old.name);
    }

    open spec fn decodable(&self) -> bool {
        self.name.decodable()
    }

    open spec fn func_ids(&self) -> Seq<FuncId> {
        self.name.func_ids()
    }

    fn force_all(&mut self) -> (r: Result<(), DecodeError>) {
        self.name.force_all()?;
        Ok(())
    }

    fn set_func_ids(&mut self, ids: &Vec<FuncId>, pos: usize) -> (r: usize) {
        let p0 = self.name.set_func_ids(ids, pos);
        assert(self.func_ids() =~= ids@.subrange(pos as int, p0 as int));
        p0
    }

    fn collect_func_ids(&self, out: &mut Vec<FuncId>) {
        self.name.collect_func_ids(out);
        assert(out@ =~= old(out)@ + self.func_ids());
    }
}

/// One entry of a name map: an index and what is associated with it.
#[derive(Debug, Clone, PartialEq, Eq, Hash)]
pub struct NameAssoc<I, V> {
    pub index: I,
    pub value: V,
}

impl<I: Codec + WasmbinVisit, V: Codec + WasmbinVisit> Codec for NameAssoc<I, V> {
    open spec fn enc(&self) -> Seq<u8> {
        self.index.enc() + self.value.enc()
    }

    open spec fn is_tail() -> bool {
        <V>::is_tail()
    }

    open spec fn rejects(data: Seq<u8>, pos: int, e: DecodeError) -> bool {
        false
    }

    open spec fn fits(&self) -> bool {
        &&& self.index.fits()
        &&& self.value.fits()
        &&& !<I>::is_tail()
    }

    fn encode(&self, out: &mut Vec<u8>) {
        self.index.encode(out);
        self.value.encode(out);
        assert(out@ =~= old(out)@ + self.enc());
    }

    fn decode(data: &[u8], pos: usize) -> (r: Result<(NameAssoc<I, V>, usize), DecodeError>) {
        proof {
            assert forall|v: NameAssoc<I,
                V>| #[trigger] bytes_at(data@, pos as int, v.enc(), v.fits(), <NameAssoc<I,
                    V>>::is_tail())
                implies bytes_at(
                data@,
                pos as int,
                v.index.enc(),
                v.index.fits(),
                <I>::is_tail(),
            ) by {
                let off: int = 0;
                let b: int = v.index.enc().len() as int;
                assert(data@.subrange(pos as int, pos + b) =~= v.enc().subrange(off, off + b));
                assert(v.enc().subrange(off, off + b) =~= v.index.enc());
            }
        }
        let (index, p0) = <I>::decode(data, pos)?;
        proof {
            assert forall|v: NameAssoc<I,
                V>| #[trigger] bytes_at(data@, pos as int, v.enc(), v.fits(), <NameAssoc<I,
                    V>>::is_tail())
                implies bytes_at(
                data@,
                p0 as int,
                v.value.enc(),
                v.value.fits(),
                <V>::is_tail(),
            ) && p0 == pos + v.index.enc().len() by {
                assert(bytes_at(data@, pos as int, v.index.enc(), v.index.fits(), <I>::is_tail()));
                let off: int = v.index.enc().len() as int;
                let b: int = v.value.enc().len() as int;
                assert(data@.subrange(p0 as int, p0 + b) =~= v.enc().subrange(off, off + b));
                assert(v.enc().subrange(off, off + b) =~= v.value.enc());
            }
        }
        let (value, p1) = <V>::decode(data, p0)?;
        proof {
            lemma_join(data@, pos as int, p0 as int, p1 as int);
            assert forall|v: NameAssoc<I,
                V>| #[trigger] bytes_at(data@, pos as int, v.enc(), v.fits(), <NameAssoc<I,
                    V>>::is_tail())
                implies p1 == pos
                + v.enc().len() by {
                assert(bytes_at(data@, p0 as int, v.value.enc(), v.value.fits(), <V>::is_tail()));
            }
        }
        Ok((NameAssoc { index, value }, p1))
    }
}

impl<I: Codec + WasmbinVisit, V: Codec + WasmbinVisit> WasmbinVisit for NameAssoc<I, V> {
    open spec fn is_forced(&self) -> bool {
        self.index.is_forced()
        && self.value.is_forced()
    }

    open spec fn agrees(&self, old: Self) -> bool {
        self.index.agrees(old.index)
        && self.value.agrees(old.value)
    }

    proof fn lemma_agrees_refl(&self) {
        self.index.lemma_agrees_refl();
        self.value.lemma_agrees_refl();
    }

    proof fn lemma_agrees_trans(&self, mid: Self, old: Self) {
        self.index.lemma_agrees_trans(mid.index, old.index);
        self.value.lemma_agrees_trans(mid.value, old.value);
    }

    open spec fn decodable(&self) -> bool {
        self.index.decodable()
        && self.value.decodable()
    }

    open spec fn func_ids(&self) -> Seq<FuncId> {
        self.index.func_ids() + self.value.func_ids()
    }

    fn force_all(&mut self) -> (r: Result<(), DecodeError>) {
        proof {
            self.index.lemma_agrees_refl();
            self.value.lemma_agrees_refl();
        }
        self.index.force_all()?;
        self.value.force_all()?;
        Ok(())
    }

    fn set_func_ids(&mut self, ids: &Vec<FuncId>, pos: usize) -> (r: usize) {
        let p0 = self.index.set_func_ids(ids, pos);
        let p1 = self.value.set_func_ids(ids, p0);
        assert(self.func_ids() =~= ids@.subrange(pos as int, p1 as int));
        p1
    }

    fn collect_func_ids(&self, out: &mut Vec<FuncId>) {
        self.index.collect_func_ids(out);
        self.value.collect_func_ids(out);
        assert(out@ =~= old(out)@ + self.func_ids());
    }
}

/// Entries as they were written: neither sorted nor deduplicated here.
#[derive(Debug, Clone, PartialEq, Eq, Hash)]
pub struct NameMap<I, V> {
    pub items: Vec<NameAssoc<I, V>>,
}

impl<I: Codec + WasmbinVisit, V: Codec + WasmbinVisit> Codec for NameMap<I, V> {
    open spec fn enc(&self) -> Seq<u8> {
        self.items.enc()
    }

    open spec fn is_tail() -> bool {
        <Vec<NameAssoc<I, V>>>::is_tail()
    }

    open spec fn rejects(data: Seq<u8>, pos: int, e: DecodeError) -> bool {
        false
    }

    open spec fn fits(&self) -> bool {
        &&& self.items.fits()
    }

    fn encode(&self, out: &mut Vec<u8>) {
        self.items.encode(out);
        assert(out@ =~= old(out)@ + self.enc());
    }

    fn decode(data: &[u8], pos: usize) -> (r: Result<(NameMap<I, V>, usize), DecodeError>) {
        proof {
            assert forall|v: NameMap<I,
                V>| #[trigger] bytes_at(data@, pos as int, v.enc(), v.fits(), <NameMap<I,
                    V>>::is_tail())
                implies bytes_at(
                data@,
                pos as int,
                v.items.enc(),
                v.items.fits(),
                <Vec<NameAssoc<I, V>>>::is_tail(),
            ) by {
                let off: int = 0;
                let b: int = v.items.enc().len() as int;
                assert(data@.subrange(pos as int, pos + b) =~= v.enc().subrange(off, off + b));
                assert(v.enc().subrange(off, off + b) =~= v.items.enc());
            }
        }
        let (items, p0) = <Vec<NameAssoc<I, V>>>::decode(data, pos)?;
        proof {
            assert forall|v: NameMap<I,
                V>| #[trigger] bytes_at(data@, pos as int, v.enc(), v.fits(), <NameMap<I,
                    V>>::is_tail())
                implies p0 == pos + v.enc().len() by {
                assert(bytes_at(data@, pos as int, v.items.enc(), v.items.fits(), <Vec<NameAssoc<I,
                    V>>>::is_tail()));
            }
        }
        Ok((NameMap { items }, p0))
    }
}

impl<I: Codec + WasmbinVisit, V: Codec + WasmbinVisit> WasmbinVisit for NameMap<I, V> {
    open spec fn is_forced(&self) -> bool {
        self.items.is_forced()
    }

    open spec fn agrees(&self, old: Self) -> bool {
        self.items.agrees(old.items)
    }

    proof fn lemma_agrees_refl(&self) {
        self.items.lemma_agrees_refl();
    }

    proof fn lemma_agrees_trans(&self, mid: Self, old: Self) {
        self.items.lemma_agrees_trans(mid.items, old.items);
    }

    open spec fn decodable(&self) -> bool {
        self.items.decodable()
    }

    open spec fn func_ids(&self) -> Seq<FuncId> {
        self.items.func_ids()
    }

    fn force_all(&mut self) -> (r: Result<(), DecodeError>) {
        self.items.force_all()?;
        Ok(())
    }

    fn set_func_ids(&mut self, ids: &Vec<FuncId>, pos: usize) -> (r: usize) {
        let p0 = self.items.set_func_ids(ids, pos);
        assert(self.func_ids() =~= ids@.subrange(pos as int, p0 as int));
        p0
    }

    fn collect_func_ids(&self, out: &mut Vec<FuncId>) {
        self.items.collect_func_ids(out);
        assert(out@ =~= old(out)@ + self.func_ids());
    }
}

/// A sub-section of the name section, tagged by a byte.
#[derive(Debug, Clone, PartialEq, Eq, Hash)]
pub enum NameSubSection {
    /// The module's name.
    Module(Blob<String>),
    /// Names of functions.
    Func(Blob<NameMap<FuncId, String>>),
    /// Names of the locals of each function.
    Local(Blob<NameMap<FuncId, NameMap<LocalId, String>>>),
}

impl Codec for NameSubSection {
    open spec fn enc(&self) -> Seq<u8> {
        match self {
            NameSubSection::Module(x) => seq![0u8] + x.enc(),
            NameSubSection::Func(x) => seq![1u8] + x.enc(),
            NameSubSection::Local(x) => seq![2u8] + x.enc(),
        }
    }

    open spec fn is_tail() -> bool {
        false
    }

    open spec fn rejects(data: Seq<u8>, pos: int, e: DecodeError) -> bool {
        false
    }

    open spec fn fits(&self) -> bool {
        match self {
            NameSubSection::Module(x) => x.fits() && !<Blob<String>>::is_tail(),
            NameSubSection::Func(x) => x.fits() && !<Blob<NameMap<FuncId, String>>>::is_tail(),
            NameSubSection::Local(x) => x.fits()
                && !<Blob<NameMap<FuncId, NameMap<LocalId, String>>>>::is_tail(),
        }
    }

    fn encode(&self, out: &mut Vec<u8>) {
        match self {
            NameSubSection::Module(x) => {
                out.push(0u8);
                x.encode(out);
            },
            NameSubSection::Func(x) => {
                out.push(1u8);
                x.encode(out);
            },
            NameSubSection::Local(x) => {
                out.push(2u8);
                x.encode(out);
            },
        }
        assert(out@ =~= old(out)@ + self.enc());
    }

    fn decode(data: &[u8], pos: usize) -> (r: Result<(NameSubSection, usize), DecodeError>) {
        if pos >= data.len() {
            return Err(DecodeError::UnexpectedEof);
        }
        let tag = data[pos];
        proof {
            assert forall|v: NameSubSection| #[trigger] bytes_at(data@, pos as int, v.enc(),
                v.fits(), <NameSubSection>::is_tail())
                implies tag_at(
                tag,
                data@,
                pos + 1,
                v.enc(),
                v.fits(),
                <NameSubSection>::is_tail(),
            ) by {
                assert(data@.subrange(pos as int, pos + v.enc().len())[0] == tag);
                assert(data@.subrange(pos + 1, pos + v.enc().len()) =~= v.enc().drop_first());
            }
        }
        let (v, end) = Self::decode_with_discriminant(tag, data, pos + 1)?;
        proof {
            lemma_join(data@, pos as int, pos + 1, end as int);
            assert(data@.subrange(pos as int, pos + 1) =~= seq![tag]);
        }
        Ok((v, end))
    }
}

impl Tagged for NameSubSection {
    open spec fn known_tag(tag: u8) -> bool {
        tag < 3
    }

    open spec fn framed() -> bool {
        true
    }

    open spec fn is_raw(&self) -> bool {
        match self {
            NameSubSection::Module(b) => !b.contents.is_decoded(),
            NameSubSection::Func(b) => !b.contents.is_decoded(),
            NameSubSection::Local(b) => !b.contents.is_decoded(),
        }
    }

    proof fn lemma_tag_first(v: Self) {
    }

    fn decode_with_discriminant(tag: u8, data: &[u8],
        pos: usize) -> (r: Result<(NameSubSection, usize), DecodeError>) {
        if tag == 0u8 {
            proof {
                assert forall|v: NameSubSection| #[trigger] tag_at(tag, data@, pos as int, v.enc(),
                    v.fits(), <NameSubSection>::is_tail())
                    implies v is Module
                    && bytes_at(data@, pos as int, v->Module_0.enc(), v->Module_0.fits(),
                        <Blob<String>>::is_tail()) by {
                    match v {
                        NameSubSection::Module(x) => {
                            assert(v.enc().drop_first() =~= x.enc());
                        },
                        _ => {},
                    }
                }
            }
            let (x, end) = Blob::<String>::decode_frame(data, pos)?;
            assert(seq![tag] + data@.subrange(pos as int,
                end as int) == (NameSubSection::Module(x)).enc());
            Ok((NameSubSection::Module(x), end))
        } else if tag == 1u8 {
            proof {
                assert forall|v: NameSubSection| #[trigger] tag_at(tag, data@, pos as int, v.enc(),
                    v.fits(), <NameSubSection>::is_tail())
                    implies v is Func
                    && bytes_at(data@, pos as int, v->Func_0.enc(), v->Func_0.fits(),
                        <Blob<NameMap<FuncId, String>>>::is_tail()) by {
                    match v {
                        NameSubSection::Func(x) => {
                            assert(v.enc().drop_first() =~= x.enc());
                        },
                        _ => {},
                    }
                }
            }
            let (x, end) = Blob::<NameMap<FuncId, String>>::decode_frame(data, pos)?;
            assert(seq![tag] + data@.subrange(pos as int,
                end as int) == (NameSubSection::Func(x)).enc());
            Ok((NameSubSection::Func(x), end))
        } else if tag == 2u8 {
            proof {
                assert forall|v: NameSubSection| #[trigger] tag_at(tag, data@, pos as int, v.enc(),
                    v.fits(), <NameSubSection>::is_tail())
                    implies v is Local
                    && bytes_at(data@, pos as int, v->Local_0.enc(), v->Local_0.fits(),
                        <Blob<NameMap<FuncId, NameMap<LocalId, String>>>>::is_tail()) by {
                    match v {
                        NameSubSection::Local(x) => {
                            assert(v.enc().drop_first() =~= x.enc());
                        },
                        _ => {},
                    }
                }
            }
            let (x, end) = Blob::<NameMap<FuncId, NameMap<LocalId,
                String>>>::decode_frame(data, pos)?;
            assert(seq![tag] + data@.subrange(pos as int,
                end as int) == (NameSubSection::Local(x)).enc());
            Ok((NameSubSection::Local(x), end))
        } else {
            proof {
                assert forall|v: NameSubSection| #[trigger] tag_at(tag, data@, pos as int, v.enc(),
                    v.fits(), <NameSubSection>::is_tail())
                    implies false by {
                    match v {
                        NameSubSection::Module(x) => {},
                        NameSubSection::Func(x) => {},
                        NameSubSection::Local(x) => {},
                    }
                }
            }
            Err(DecodeError::UnknownDiscriminant(tag))
        }
    }
}

impl WasmbinVisit for NameSubSection {
    open spec fn is_forced(&self) -> bool {
        match self {
            NameSubSection::Module(x) => x.is_forced(),
            NameSubSection::Func(x) => x.is_forced(),
            NameSubSection::Local(x) => x.is_forced(),
        }
    }

    open spec fn agrees(&self, old: Self) -> bool {
        match (*self, old) {
            (NameSubSection::Module(x), NameSubSection::Module(y)) => x.agrees(y),
            (NameSubSection::Func(x), NameSubSection::Func(y)) => x.agrees(y),
            (NameSubSection::Local(x), NameSubSection::Local(y)) => x.agrees(y),
            _ => false,
        }
    }

    proof fn lemma_agrees_refl(&self) {
        match *self {
            NameSubSection::Module(x) => x.lemma_agrees_refl(),
            NameSubSection::Func(x) => x.lemma_agrees_refl(),
            NameSubSection::Local(x) => x.lemma_agrees_refl(),
        }
    }

    proof fn lemma_agrees_trans(&self, mid: Self, old: Self) {
        match (*self, mid, old) {
            (NameSubSection::Module(x), NameSubSection::Module(m), NameSubSection::Module(o)) => x.lemma_agrees_trans(m, o),
            (NameSubSection::Func(x), NameSubSection::Func(m), NameSubSection::Func(o)) => x.lemma_agrees_trans(m, o),
            (NameSubSection::Local(x), NameSubSection::Local(m), NameSubSection::Local(o)) => x.lemma_agrees_trans(m, o),
            _ => {},
        }
    }

    open spec fn decodable(&self) -> bool {
        match self {
            NameSubSection::Module(x) => x.decodable(),
            NameSubSection::Func(x) => x.decodable(),
            NameSubSection::Local(x) => x.decodable(),
        }
    }

    open spec fn func_ids(&self) -> Seq<FuncId> {
        match self {
            NameSubSection::Module(x) => x.func_ids(),
            NameSubSection::Func(x) => x.func_ids(),
            NameSubSection::Local(x) => x.func_ids(),
        }
    }

    fn force_all(&mut self) -> (r: Result<(), DecodeError>) {
        match self {
            NameSubSection::Module(x) => x.force_all(),
            NameSubSection::Func(x) => x.force_all(),
            NameSubSection::Local(x) => x.force_all(),
        }
    }

    fn set_func_ids(&mut self, ids: &Vec<FuncId>, pos: usize) -> (r: usize) {
        match self {
            NameSubSection::Module(x) => x.set_func_ids(ids, pos),
            NameSubSection::Func(x) => x.set_func_ids(ids, pos),
            NameSubSection::Local(x) => x.set_func_ids(ids, pos),
        }
    }

    fn collect_func_ids(&self, out: &mut Vec<FuncId>) {
        match self {
            NameSubSection::Module(x) => x.collect_func_ids(out),
            NameSubSection::Func(x) => x.collect_func_ids(out),
            NameSubSection::Local(x) => x.collect_func_ids(out),
        }
    }
}

/// What an import brings in.
#[derive(Debug, Clone, PartialEq, Eq, Hash)]
pub enum ImportDesc {
    /// A function of the given type.
    Func(TypeId),
    /// A table.
    Table(TableType),
    /// A memory.
    Mem(MemType),
    /// A global.
    Global(GlobalType),
}

impl Codec for ImportDesc {
    open spec fn enc(&self) -> Seq<u8> {
        match self {
            ImportDesc::Func(x) => seq![0u8] + x.enc(),
            ImportDesc::Table(x) => seq![1u8] + x.enc(),
            ImportDesc::Mem(x) => seq![2u8] + x.enc(),
            ImportDesc::Global(x) => seq![3u8] + x.enc(),
        }
    }

    open spec fn is_tail() -> bool {
        false
    }

    open spec fn rejects(data: Seq<u8>, pos: int, e: DecodeError) -> bool {
        false
    }

    open spec fn fits(&self) -> bool {
        match self {
            ImportDesc::Func(x) => x.fits() && !<TypeId>::is_tail(),
            ImportDesc::Table(x) => x.fits() && !<TableType>::is_tail(),
            ImportDesc::Mem(x) => x.fits() && !<MemType>::is_tail(),
            ImportDesc::Global(x) => x.fits() && !<GlobalType>::is_tail(),
        }
    }

    fn encode(&self, out: &mut Vec<u8>) {
        match self {
            ImportDesc::Func(x) => {
                out.push(0u8);
                x.encode(out);
            },
            ImportDesc::Table(x) => {
                out.push(1u8);
                x.encode(out);
            },
            ImportDesc::Mem(x) => {
                out.push(2u8);
                x.encode(out);
            },
            ImportDesc::Global(x) => {
                out.push(3u8);
                x.encode(out);
            },
        }
        assert(out@ =~= old(out)@ + self.enc());
    }

    fn decode(data: &[u8], pos: usize) -> (r: Result<(ImportDesc, usize), DecodeError>) {
        if pos >= data.len() {
            return Err(DecodeError::UnexpectedEof);
        }
        let tag = data[pos];
        proof {
            assert forall|v: ImportDesc| #[trigger] bytes_at(data@, pos as int, v.enc(), v.fits(),
                <ImportDesc>::is_tail())
                implies tag_at(
                tag,
                data@,
                pos + 1,
                v.enc(),
                v.fits(),
                <ImportDesc>::is_tail(),
            ) by {
                assert(data@.subrange(pos as int, pos + v.enc().len())[0] == tag);
                assert(data@.subrange(pos + 1, pos + v.enc().len()) =~= v.enc().drop_first());
            }
        }
        let (v, end) = Self::decode_with_discriminant(tag, data, pos + 1)?;
        proof {
            lemma_join(data@, pos as int, pos + 1, end as int);
            assert(data@.subrange(pos as int, pos + 1) =~= seq![tag]);
        }
        Ok((v, end))
    }
}

impl Tagged for ImportDesc {
    open spec fn known_tag(tag: u8) -> bool {
        tag < 4
    }

    open spec fn framed() -> bool {
        false
    }

    open spec fn is_raw(&self) -> bool {
        true
    }

    proof fn lemma_tag_first(v: Self) {
    }

    fn decode_with_discriminant(tag: u8, data: &[u8], pos: usize) -> (r: Result<(ImportDesc, usize),
        DecodeError>) {
        if tag == 0u8 {
            proof {
                assert forall|v: ImportDesc| #[trigger] tag_at(tag, data@, pos as int, v.enc(),
                    v.fits(), <ImportDesc>::is_tail())
                    implies v is Func
                    && bytes_at(data@, pos as int, v->Func_0.enc(), v->Func_0.fits(),
                        <TypeId>::is_tail()) by {
                    match v {
                        ImportDesc::Func(x) => {
                            assert(v.enc().drop_first() =~= x.enc());
                        },
                        _ => {},
                    }
                }
            }
            let (x, end) = <TypeId>::decode(data, pos)?;
            assert(seq![tag] + data@.subrange(pos as int,
                end as int) == (ImportDesc::Func(x)).enc());
            Ok((ImportDesc::Func(x), end))
        } else if tag == 1u8 {
            proof {
                assert forall|v: ImportDesc| #[trigger] tag_at(tag, data@, pos as int, v.enc(),
                    v.fits(), <ImportDesc>::is_tail())
                    implies v is Table
                    && bytes_at(data@, pos as int, v->Table_0.enc(), v->Table_0.fits(),
                        <TableType>::is_tail()) by {
                    match v {
                        ImportDesc::Table(x) => {
                            assert(v.enc().drop_first() =~= x.enc());
                        },
                        _ => {},
                    }
                }
            }
            let (x, end) = <TableType>::decode(data, pos)?;
            assert(seq![tag] + data@.subrange(pos as int,
                end as int) == (ImportDesc::Table(x)).enc());
            Ok((ImportDesc::Table(x), end))
        } else if tag == 2u8 {
            proof {
                assert forall|v: ImportDesc| #[trigger] tag_at(tag, data@, pos as int, v.enc(),
                    v.fits(), <ImportDesc>::is_tail())
                    implies v is Mem
                    && bytes_at(data@, pos as int, v->Mem_0.enc(), v->Mem_0.fits(),
                        <MemType>::is_tail()) by {
                    match v {
                        ImportDesc::Mem(x) => {
                            assert(v.enc().drop_first() =~= x.enc());
                        },
                        _ => {},
                    }
                }
            }
            let (x, end) = <MemType>::decode(data, pos)?;
            assert(seq![tag] + data@.subrange(pos as int,
                end as int) == (ImportDesc::Mem(x)).enc());
            Ok((ImportDesc::Mem(x), end))
        } else if tag == 3u8 {
            proof {
                assert forall|v: ImportDesc| #[trigger] tag_at(tag, data@, pos as int, v.enc(),
                    v.fits(), <ImportDesc>::is_tail())
                    implies v is Global
                    && bytes_at(data@, pos as int, v->Global_0.enc(), v->Global_0.fits(),
                        <GlobalType>::is_tail()) by {
                    match v {
                        ImportDesc::Global(x) => {
                            assert(v.enc().drop_first() =~= x.enc());
                        },
                        _ => {},
                    }
                }
            }
            let (x, end) = <GlobalType>::decode(data, pos)?;
            assert(seq![tag] + data@.subrange(pos as int,
                end as int) == (ImportDesc::Global(x)).enc());
            Ok((ImportDesc::Global(x), end))
        } else {
            proof {
                assert forall|v: ImportDesc| #[trigger] tag_at(tag, data@, pos as int, v.enc(),
                    v.fits(), <ImportDesc>::is_tail())
                    implies false by {
                    match v {
                        ImportDesc::Func(x) => {},
                        ImportDesc::Table(x) => {},
                        ImportDesc::Mem(x) => {},
                        ImportDesc::Global(x) => {},
                    }
                }
            }
            Err(DecodeError::UnknownDiscriminant(tag))
        }
    }
}

impl WasmbinVisit for ImportDesc {
    open spec fn is_forced(&self) -> bool {
        match self {
            ImportDesc::Func(x) => x.is_forced(),
            ImportDesc::Table(x) => x.is_forced(),
            ImportDesc::Mem(x) => x.is_forced(),
            ImportDesc::Global(x) => x.is_forced(),
        }
    }

    open spec fn agrees(&self, old: Self) -> bool {
        match (*self, old) {
            (ImportDesc::Func(x), ImportDesc::Func(y)) => x.agrees(y),
            (ImportDesc::Table(x), ImportDesc::Table(y)) => x.agrees(y),
            (ImportDesc::Mem(x), ImportDesc::Mem(y)) => x.agrees(y),
            (ImportDesc::Global(x), ImportDesc::Global(y)) => x.agrees(y),
            _ => false,
        }
    }

    proof fn lemma_agrees_refl(&self) {
        match *self {
            ImportDesc::Func(x) => x.lemma_agrees_refl(),
            ImportDesc::Table(x) => x.lemma_agrees_refl(),
            ImportDesc::Mem(x) => x.lemma_agrees_refl(),
            ImportDesc::Global(x) => x.lemma_agrees_refl(),
        }
    }

    proof fn lemma_agrees_trans(&self, mid: Self, old: Self) {
        match (*self, mid, old) {
            (ImportDesc::Func(x), ImportDesc::Func(m), ImportDesc::Func(o)) => x.lemma_agrees_trans(m, o),
            (ImportDesc::Table(x), ImportDesc::Table(m), ImportDesc::Table(o)) => x.lemma_agrees_trans(m, o),
            (ImportDesc::Mem(x), ImportDesc::Mem(m), ImportDesc::Mem(o)) => x.lemma_agrees_trans(m, o),
            (ImportDesc::Global(x), ImportDesc::Global(m), ImportDesc::Global(o)) => x.lemma_agrees_trans(m, o),
            _ => {},
        }
    }

    open spec fn decodable(&self) -> bool {
        match self {
            ImportDesc::Func(x) => x.decodable(),
            ImportDesc::Table(x) => x.decodable(),
            ImportDesc::Mem(x) => x.decodable(),
            ImportDesc::Global(x) => x.decodable(),
        }
    }

    open spec fn func_ids(&self) -> Seq<FuncId> {
        match self {
            ImportDesc::Func(x) => x.func_ids(),
            ImportDesc::Table(x) => x.func_ids(),
            ImportDesc::Mem(x) => x.func_ids(),
            ImportDesc::Global(x) => x.func_ids(),
        }
    }

    fn force_all(&mut self) -> (r: Result<(), DecodeError>) {
        match self {
            ImportDesc::Func(x) => x.force_all(),
            ImportDesc::Table(x) => x.force_all(),
            ImportDesc::Mem(x) => x.force_all(),
            ImportDesc::Global(x) => x.force_all(),
        }
    }

    fn set_func_ids(&mut self, ids: &Vec<FuncId>, pos: usize) -> (r: usize) {
        match self {
            ImportDesc::Func(x) => x.set_func_ids(ids, pos),
            ImportDesc::Table(x) => x.set_func_ids(ids, pos),
            ImportDesc::Mem(x) => x.set_func_ids(ids, pos),
            ImportDesc::Global(x) => x.set_func_ids(ids, pos),
        }
    }

    fn collect_func_ids(&self, out: &mut Vec<FuncId>) {
        match self {
            ImportDesc::Func(x) => x.collect_func_ids(out),
            ImportDesc::Table(x) => x.collect_func_ids(out),
            ImportDesc::Mem(x) => x.collect_func_ids(out),
            ImportDesc::Global(x) => x.collect_func_ids(out),
        }
    }
}

/// Where an import comes from: a module name and an item name.
#[derive(Debug, Clone, PartialEq, Eq, Hash)]
pub struct ImportPath {
    pub module: String,
    pub name: String,
}

impl Codec for ImportPath {
    open spec fn enc(&self) -> Seq<u8> {
        self.module.enc() + self.name.enc()
    }

    open spec fn is_tail() -> bool {
        <String>::is_tail()
    }

    open spec fn rejects(data: Seq<u8>, pos: int, e: DecodeError) -> bool {
        false
    }

    open spec fn fits(&self) -> bool {
        &&& self.module.fits()
        &&& self.name.fits()
        &&& !<String>::is_tail()
    }

    fn encode(&self, out: &mut Vec<u8>) {
        self.module.encode(out);
        self.name.encode(out);
        assert(out@ =~= old(out)@ + self.enc());
    }

    fn decode(data: &[u8], pos: usize) -> (r: Result<(ImportPath, usize), DecodeError>) {
        proof {
            assert forall|v: ImportPath| #[trigger] bytes_at(data@, pos as int, v.enc(), v.fits(),
                <ImportPath>::is_tail())
                implies bytes_at(
                data@,
                pos as int,
                v.module.enc(),
                v.module.fits(),
                <String>::is_tail(),
            ) by {
                let off: int = 0;
                let b: int = v.module.enc().len() as int;
                assert(data@.subrange(pos as int, pos + b) =~= v.enc().subrange(off, off + b));
                assert(v.enc().subrange(off, off + b) =~= v.module.enc());
            }
        }
        let (module, p0) = <String>::decode(data, pos)?;
        proof {
            assert forall|v: ImportPath| #[trigger] bytes_at(data@, pos as int, v.enc(), v.fits(),
                <ImportPath>::is_tail())
                implies bytes_at(
                data@,
                p0 as int,
                v.name.enc(),
                v.name.fits(),
                <String>::is_tail(),
            ) && p0 == pos + v.module.enc().len() by {
                assert(bytes_at(data@, pos as int, v.module.enc(), v.module.fits(),
                    <String>::is_tail()));
                let off: int = v.module.enc().len() as int;
                let b: int = v.name.enc().len() as int;
                assert(data@.subrange(p0 as int, p0 + b) =~= v.enc().subrange(off, off + b));
                assert(v.enc().subrange(off, off + b) =~= v.name.enc());
            }
        }
        let (name, p1) = <String>::decode(data, p0)?;
        proof {
            lemma_join(data@, pos as int, p0 as int, p1 as int);
            assert forall|v: ImportPath| #[trigger] bytes_at(data@, pos as int, v.enc(), v.fits(),
                <ImportPath>::is_tail())
                implies p1 == pos
                + v.enc().len() by {
                assert(bytes_at(data@, p0 as int, v.name.enc(), v.name.fits(),
                    <String>::is_tail()));
            }
        }
        Ok((ImportPath { module, name }, p1))
    }
}

impl WasmbinVisit for ImportPath {
    open spec fn is_forced(&self) -> bool {
        self.module.is_forced()
        && self.name.is_forced()
    }

    open spec fn agrees(&self, old: Self) -> bool {
        self.module.agrees(old.module)
        && self.name.agrees(old.name)
    }

    proof fn lemma_agrees_refl(&self) {
        self.module.lemma_agrees_refl();
        self.name.lemma_agrees_refl();
    }

    proof fn lemma_agrees_trans(&self, mid: Self, old: Self) {
        self.module.lemma_agrees_trans(mid.module, old.module);
        self.name.lemma_agrees_trans(mid.name, old.name);
    }

    open spec fn decodable(&self) -> bool {
        self.module.decodable()
        && self.name.decodable()
    }

    open spec fn func_ids(&self) -> Seq<FuncId> {
        self.module.func_ids() + self.name.func_ids()
    }

    fn force_all(&mut self) -> (r: Result<(), DecodeError>) {
        proof {
            self.module.lemma_agrees_refl();
            self.name.lemma_agrees_refl();
        }
        self.module.force_all()?;
        self.name.force_all()?;
        Ok(())
    }

    fn set_func_ids(&mut self, ids: &Vec<FuncId>, pos: usize) -> (r: usize) {
        let p0 = self.module.set_func_ids(ids, pos);
        let p1 = self.name.set_func_ids(ids, p0);
        assert(self.func_ids() =~= ids@.subrange(pos as int, p1 as int));
        p1
    }

    fn collect_func_ids(&self, out: &mut Vec<FuncId>) {
        self.module.collect_func_ids(out);
        self.name.collect_func_ids(out);
        assert(out@ =~= old(out)@ + self.func_ids());
    }
}

/// One import.
#[derive(Debug, Clone, PartialEq, Eq, Hash)]
pub struct Import {
    pub path: ImportPath,
    pub desc: ImportDesc,
}

impl Codec for Import {
    open spec fn enc(&self) -> Seq<u8> {
        self.path.enc() + self.desc.enc()
    }

    open spec fn is_tail() -> bool {
        <ImportDesc>::is_tail()
    }

    open spec fn rejects(data: Seq<u8>, pos: int, e: DecodeError) -> bool {
        false
    }

    open spec fn fits(&self) -> bool {
        &&& self.path.fits()
        &&& self.desc.fits()
        &&& !<ImportPath>::is_tail()
    }

    fn encode(&self, out: &mut Vec<u8>) {
        self.path.encode(out);
        self.desc.encode(out);
        assert(out@ =~= old(out)@ + self.enc());
    }

    fn decode(data: &[u8], pos: usize) -> (r: Result<(Import, usize), DecodeError>) {
        proof {
            assert forall|v: Import| #[trigger] bytes_at(data@, pos as int, v.enc(), v.fits(),
                <Import>::is_tail())
                implies bytes_at(
                data@,
                pos as int,
                v.path.enc(),
                v.path.fits(),
                <ImportPath>::is_tail(),
            ) by {
                let off: int = 0;
                let b: int = v.path.enc().len() as int;
                assert(data@.subrange(pos as int, pos + b) =~= v.enc().subrange(off, off + b));
                assert(v.enc().subrange(off, off + b) =~= v.path.enc());
            }
        }
        let (path, p0) = <ImportPath>::decode(data, pos)?;
        proof {
            assert forall|v: Import| #[trigger] bytes_at(data@, pos as int, v.enc(), v.fits(),
                <Import>::is_tail())
                implies bytes_at(
                data@,
                p0 as int,
                v.desc.enc(),
                v.desc.fits(),
                <ImportDesc>::is_tail(),
            ) && p0 == pos + v.path.enc().len() by {
                assert(bytes_at(data@, pos as int, v.path.enc(), v.path.fits(),
                    <ImportPath>::is_tail()));
                let off: int = v.path.enc().len() as int;
                let b: int = v.desc.enc().len() as int;
                assert(data@.subrange(p0 as int, p0 + b) =~= v.enc().subrange(off, off + b));
                assert(v.enc().subrange(off, off + b) =~= v.desc.enc());
            }
        }
        let (desc, p1) = <ImportDesc>::decode(data, p0)?;
        proof {
            lemma_join(data@, pos as int, p0 as int, p1 as int);
            assert forall|v: Import| #[trigger] bytes_at(data@, pos as int, v.enc(), v.fits(),
                <Import>::is_tail())
                implies p1 == pos
                + v.enc().len() by {
                assert(bytes_at(data@, p0 as int, v.desc.enc(), v.desc.fits(),
                    <ImportDesc>::is_tail()));
            }
        }
        Ok((Import { path, desc }, p1))
    }
}

impl WasmbinVisit for Import {
    open spec fn is_forced(&self) -> bool {
        self.path.is_forced()
        && self.desc.is_forced()
    }

    open spec fn agrees(&self, old: Self) -> bool {
        self.path.agrees(old.path)
        && self.desc.agrees(old.desc)
    }

    proof fn lemma_agrees_refl(&self) {
        self.path.lemma_agrees_refl();
        self.desc.lemma_agrees_refl();
    }

    proof fn lemma_agrees_trans(&self, mid: Self, old: Self) {
        self.path.lemma_agrees_trans(mid.path, old.path);
        self.desc.lemma_agrees_trans(mid.desc, old.desc);
    }

    open spec fn decodable(&self) -> bool {
        self.path.decodable()
        && self.desc.decodable()
    }

    open spec fn func_ids(&self) -> Seq<FuncId> {
        self.path.func_ids() + self.desc.func_ids()
    }

    fn force_all(&mut self) -> (r: Result<(), DecodeError>) {
        proof {
            self.path.lemma_agrees_refl();
            self.desc.lemma_agrees_refl();
        }
        self.path.force_all()?;
        self.desc.force_all()?;
        Ok(())
    }

    fn set_func_ids(&mut self, ids: &Vec<FuncId>, pos: usize) -> (r: usize) {
        let p0 = self.path.set_func_ids(ids, pos);
        let p1 = self.desc.set_func_ids(ids, p0);
        assert(self.func_ids() =~= ids@.subrange(pos as int, p1 as int));
        p1
    }

    fn collect_func_ids(&self, out: &mut Vec<FuncId>) {
        self.path.collect_func_ids(out);
        self.desc.collect_func_ids(out);
        assert(out@ =~= old(out)@ + self.func_ids());
    }
}

/// A global: its type and its initial value.
#[derive(Debug, Clone, PartialEq, Eq, Hash)]
pub struct Global {
    pub ty: GlobalType,
    pub init: Expression,
}

impl Codec for Global {
    open spec fn enc(&self) -> Seq<u8> {
        self.ty.enc() + self.init.enc()
    }

    open spec fn is_tail() -> bool {
        <Expression>::is_tail()
    }

    open spec fn rejects(data: Seq<u8>, pos: int, e: DecodeError) -> bool {
        false
    }

    open spec fn fits(&self) -> bool {
        &&& self.ty.fits()
        &&& self.init.fits()
        &&& !<GlobalType>::is_tail()
    }

    fn encode(&self, out: &mut Vec<u8>) {
        self.ty.encode(out);
        self.init.encode(out);
        assert(out@ =~= old(out)@ + self.enc());
    }

    fn decode(data: &[u8], pos: usize) -> (r: Result<(Global, usize), DecodeError>) {
        proof {
            assert forall|v: Global| #[trigger] bytes_at(data@, pos as int, v.enc(), v.fits(),
                <Global>::is_tail())
                implies bytes_at(
                data@,
                pos as int,
                v.ty.enc(),
                v.ty.fits(),
                <GlobalType>::is_tail(),
            ) by {
                let off: int = 0;
                let b: int = v.ty.enc().len() as int;
                assert(data@.subrange(pos as int, pos + b) =~= v.enc().subrange(off, off + b));
                assert(v.enc().subrange(off, off + b) =~= v.ty.enc());
            }
        }
        let (ty, p0) = <GlobalType>::decode(data, pos)?;
        proof {
            assert forall|v: Global| #[trigger] bytes_at(data@, pos as int, v.enc(), v.fits(),
                <Global>::is_tail())
                implies bytes_at(
                data@,
                p0 as int,
                v.init.enc(),
                v.init.fits(),
                <Expression>::is_tail(),
            ) && p0 == pos + v.ty.enc().len() by {
                assert(bytes_at(data@, pos as int, v.ty.enc(), v.ty.fits(),
                    <GlobalType>::is_tail()));
                let off: int = v.ty.enc().len() as int;
                let b: int = v.init.enc().len() as int;
                assert(data@.subrange(p0 as int, p0 + b) =~= v.enc().subrange(off, off + b));
                assert(v.enc().subrange(off, off + b) =~= v.init.enc());
            }
        }
        let (init, p1) = <Expression>::decode(data, p0)?;
        proof {
            lemma_join(data@, pos as int, p0 as int, p1 as int);
            assert forall|v: Global| #[trigger] bytes_at(data@, pos as int, v.enc(), v.fits(),
                <Global>::is_tail())
                implies p1 == pos
                + v.enc().len() by {
                assert(bytes_at(data@, p0 as int, v.init.enc(), v.init.fits(),
                    <Expression>::is_tail()));
            }
        }
        Ok((Global { ty, init }, p1))
    }
}

impl WasmbinVisit for Global {
    open spec fn is_forced(&self) -> bool {
        self.ty.is_forced()
        && self.init.is_forced()
    }

    open spec fn agrees(&self, old: Self) -> bool {
        self.ty.agrees(old.ty)
        && self.init.agrees(old.init)
    }

    proof fn lemma_agrees_refl(&self) {
        self.ty.lemma_agrees_refl();
        self.init.lemma_agrees_refl();
    }

    proof fn lemma_agrees_trans(&self, mid: Self, old: Self) {
        self.ty.lemma_agrees_trans(mid.ty, old.ty);
        self.init.lemma_agrees_trans(mid.init, old.init);
    }

    open spec fn decodable(&self) -> bool {
        self.ty.decodable()
        && self.init.decodable()
    }

    open spec fn func_ids(&self) -> Seq<FuncId> {
        self.ty.func_ids() + self.init.func_ids()
    }

    fn force_all(&mut self) -> (r: Result<(), DecodeError>) {
        proof {
            self.ty.lemma_agrees_refl();
            self.init.lemma_agrees_refl();
        }
        self.ty.force_all()?;
        self.init.force_all()?;
        Ok(())
    }

    fn set_func_ids(&mut self, ids: &Vec<FuncId>, pos: usize) -> (r: usize) {
        let p0 = self.ty.set_func_ids(ids, pos);
        let p1 = self.init.set_func_ids(ids, p0);
        assert(self.func_ids() =~= ids@.subrange(pos as int, p1 as int));
        p1
    }

    fn collect_func_ids(&self, out: &mut Vec<FuncId>) {
        self.ty.collect_func_ids(out);
        self.init.collect_func_ids(out);
        assert(out@ =~= old(out)@ + self.func_ids());
    }
}

/// What an export makes visible.
#[derive(Debug, Clone, PartialEq, Eq, Hash)]
pub enum ExportDesc {
    /// A function.
    Func(FuncId),
    /// A table.
    Table(TableId),
    /// A memory.
    Mem(MemId),
    /// A global.
    Global(GlobalId),
}

impl Codec for ExportDesc {
    open spec fn enc(&self) -> Seq<u8> {
        match self {
            ExportDesc::Func(x) => seq![0u8] + x.enc(),
            ExportDesc::Table(x) => seq![1u8] + x.enc(),
            ExportDesc::Mem(x) => seq![2u8] + x.enc(),
            ExportDesc::Global(x) => seq![3u8] + x.enc(),
        }
    }

    open spec fn is_tail() -> bool {
        false
    }

    open spec fn rejects(data: Seq<u8>, pos: int, e: DecodeError) -> bool {
        false
    }

    open spec fn fits(&self) -> bool {
        match self {
            ExportDesc::Func(x) => x.fits() && !<FuncId>::is_tail(),
            ExportDesc::Table(x) => x.fits() && !<TableId>::is_tail(),
            ExportDesc::Mem(x) => x.fits() && !<MemId>::is_tail(),
            ExportDesc::Global(x) => x.fits() && !<GlobalId>::is_tail(),
        }
    }

    fn encode(&self, out: &mut Vec<u8>) {
        match self {
            ExportDesc::Func(x) => {
                out.push(0u8);
                x.encode(out);
            },
            ExportDesc::Table(x) => {
                out.push(1u8);
                x.encode(out);
            },
            ExportDesc::Mem(x) => {
                out.push(2u8);
                x.encode(out);
            },
            ExportDesc::Global(x) => {
                out.push(3u8);
                x.encode(out);
            },
        }
        assert(out@ =~= old(out)@ + self.enc());
    }

    fn decode(data: &[u8], pos: usize) -> (r: Result<(ExportDesc, usize), DecodeError>) {
        if pos >= data.len() {
            return Err(DecodeError::UnexpectedEof);
        }
        let tag = data[pos];
        proof {
            assert forall|v: ExportDesc| #[trigger] bytes_at(data@, pos as int, v.enc(), v.fits(),
                <ExportDesc>::is_tail())
                implies tag_at(
                tag,
                data@,
                pos + 1,
                v.enc(),
                v.fits(),
                <ExportDesc>::is_tail(),
            ) by {
                assert(data@.subrange(pos as int, pos + v.enc().len())[0] == tag);
                assert(data@.subrange(pos + 1, pos + v.enc().len()) =~= v.enc().drop_first());
            }
        }
        let (v, end) = Self::decode_with_discriminant(tag, data, pos + 1)?;
        proof {
            lemma_join(data@, pos as int, pos + 1, end as int);
            assert(data@.subrange(pos as int, pos + 1) =~= seq![tag]);
        }
        Ok((v, end))
    }
}

impl Tagged for ExportDesc {
    open spec fn known_tag(tag: u8) -> bool {
        tag < 4
    }

    open spec fn framed() -> bool {
        false
    }

    open spec fn is_raw(&self) -> bool {
        true
    }

    proof fn lemma_tag_first(v: Self) {
    }

    fn decode_with_discriminant(tag: u8, data: &[u8], pos: usize) -> (r: Result<(ExportDesc, usize),
        DecodeError>) {
        if tag == 0u8 {
            proof {
                assert forall|v: ExportDesc| #[trigger] tag_at(tag, data@, pos as int, v.enc(),
                    v.fits(), <ExportDesc>::is_tail())
                    implies v is Func
                    && bytes_at(data@, pos as int, v->Func_0.enc(), v->Func_0.fits(),
                        <FuncId>::is_tail()) by {
                    match v {
                        ExportDesc::Func(x) => {
                            assert(v.enc().drop_first() =~= x.enc());
                        },
                        _ => {},
                    }
                }
            }
            let (x, end) = <FuncId>::decode(data, pos)?;
            assert(seq![tag] + data@.subrange(pos as int,
                end as int) == (ExportDesc::Func(x)).enc());
            Ok((ExportDesc::Func(x), end))
        } else if tag == 1u8 {
            proof {
                assert forall|v: ExportDesc| #[trigger] tag_at(tag, data@, pos as int, v.enc(),
                    v.fits(), <ExportDesc>::is_tail())
                    implies v is Table
                    && bytes_at(data@, pos as int, v->Table_0.enc(), v->Table_0.fits(),
                        <TableId>::is_tail()) by {
                    match v {
                        ExportDesc::Table(x) => {
                            assert(v.enc().drop_first() =~= x.enc());
                        },
                        _ => {},
                    }
                }
            }
            let (x, end) = <TableId>::decode(data, pos)?;
            assert(seq![tag] + data@.subrange(pos as int,
                end as int) == (ExportDesc::Table(x)).enc());
            Ok((ExportDesc::Table(x), end))
        } else if tag == 2u8 {
            proof {
                assert forall|v: ExportDesc| #[trigger] tag_at(tag, data@, pos as int, v.enc(),
                    v.fits(), <ExportDesc>::is_tail())
                    implies v is Mem
                    && bytes_at(data@, pos as int, v->Mem_0.enc(), v->Mem_0.fits(),
                        <MemId>::is_tail()) by {
                    match v {
                        ExportDesc::Mem(x) => {
                            assert(v.enc().drop_first() =~= x.enc());
                        },
                        _ => {},
                    }
                }
            }
            let (x, end) = <MemId>::decode(data, pos)?;
            assert(seq![tag] + data@.subrange(pos as int,
                end as int) == (ExportDesc::Mem(x)).enc());
            Ok((ExportDesc::Mem(x), end))
        } else if tag == 3u8 {
            proof {
                assert forall|v: ExportDesc| #[trigger] tag_at(tag, data@, pos as int, v.enc(),
                    v.fits(), <ExportDesc>::is_tail())
                    implies v is Global
                    && bytes_at(data@, pos as int, v->Global_0.enc(), v->Global_0.fits(),
                        <GlobalId>::is_tail()) by {
                    match v {
                        ExportDesc::Global(x) => {
                            assert(v.enc().drop_first() =~= x.enc());
                        },
                        _ => {},
                    }
                }
            }
            let (x, end) = <GlobalId>::decode(data, pos)?;
            assert(seq![tag] + data@.subrange(pos as int,
                end as int) == (ExportDesc::Global(x)).enc());
            Ok((ExportDesc::Global(x), end))
        } else {
            proof {
                assert forall|v: ExportDesc| #[trigger] tag_at(tag, data@, pos as int, v.enc(),
                    v.fits(), <ExportDesc>::is_tail())
                    implies false by {
                    match v {
                        ExportDesc::Func(x) => {},
                        ExportDesc::Table(x) => {},
                        ExportDesc::Mem(x) => {},
                        ExportDesc::Global(x) => {},
                    }
                }
            }
            Err(DecodeError::UnknownDiscriminant(tag))
        }
    }
}

impl WasmbinVisit for ExportDesc {
    open spec fn is_forced(&self) -> bool {
        match self {
            ExportDesc::Func(x) => x.is_forced(),
            ExportDesc::Table(x) => x.is_forced(),
            ExportDesc::Mem(x) => x.is_forced(),
            ExportDesc::Global(x) => x.is_forced(),
        }
    }

    open spec fn agrees(&self, old: Self) -> bool {
        match (*self, old) {
            (ExportDesc::Func(x), ExportDesc::Func(y)) => x.agrees(y),
            (ExportDesc::Table(x), ExportDesc::Table(y)) => x.agrees(y),
            (ExportDesc::Mem(x), ExportDesc::Mem(y)) => x.agrees(y),
            (ExportDesc::Global(x), ExportDesc::Global(y)) => x.agrees(y),
            _ => false,
        }
    }

    proof fn lemma_agrees_refl(&self) {
        match *self {
            ExportDesc::Func(x) => x.lemma_agrees_refl(),
            ExportDesc::Table(x) => x.lemma_agrees_refl(),
            ExportDesc::Mem(x) => x.lemma_agrees_refl(),
            ExportDesc::Global(x) => x.lemma_agrees_refl(),
        }
    }

    proof fn lemma_agrees_trans(&self, mid: Self, old: Self) {
        match (*self, mid, old) {
            (ExportDesc::Func(x), ExportDesc::Func(m), ExportDesc::Func(o)) => x.lemma_agrees_trans(m, o),
            (ExportDesc::Table(x), ExportDesc::Table(m), ExportDesc::Table(o)) => x.lemma_agrees_trans(m, o),
            (ExportDesc::Mem(x), ExportDesc::Mem(m), ExportDesc::Mem(o)) => x.lemma_agrees_trans(m, o),
            (ExportDesc::Global(x), ExportDesc::Global(m), ExportDesc::Global(o)) => x.lemma_agrees_trans(m, o),
            _ => {},
        }
    }

    open spec fn decodable(&self) -> bool {
        match self {
            ExportDesc::Func(x) => x.decodable(),
            ExportDesc::Table(x) => x.decodable(),
            ExportDesc::Mem(x) => x.decodable(),
            ExportDesc::Global(x) => x.decodable(),
        }
    }

    open spec fn func_ids(&self) -> Seq<FuncId> {
        match self {
            ExportDesc::Func(x) => x.func_ids(),
            ExportDesc::Table(x) => x.func_ids(),
            ExportDesc::Mem(x) => x.func_ids(),
            ExportDesc::Global(x) => x.func_ids(),
        }
    }

    fn force_all(&mut self) -> (r: Result<(), DecodeError>) {
        match self {
            ExportDesc::Func(x) => x.force_all(),
            ExportDesc::Table(x) => x.force_all(),
            ExportDesc::Mem(x) => x.force_all(),
            ExportDesc::Global(x) => x.force_all(),
        }
    }

    fn set_func_ids(&mut self, ids: &Vec<FuncId>, pos: usize) -> (r: usize) {
        match self {
            ExportDesc::Func(x) => x.set_func_ids(ids, pos),
            ExportDesc::Table(x) => x.set_func_ids(ids, pos),
            ExportDesc::Mem(x) => x.set_func_ids(ids, pos),
            ExportDesc::Global(x) => x.set_func_ids(ids, pos),
        }
    }

    fn collect_func_ids(&self, out: &mut Vec<FuncId>) {
        match self {
            ExportDesc::Func(x) => x.collect_func_ids(out),
            ExportDesc::Table(x) => x.collect_func_ids(out),
            ExportDesc::Mem(x) => x.collect_func_ids(out),
            ExportDesc::Global(x) => x.collect_func_ids(out),
        }
    }
}

/// One export: its name and what it names.
#[derive(Debug, Clone, PartialEq, Eq, Hash)]
pub struct Export {
    pub name: String,
    pub desc: ExportDesc,
}

impl Codec for Export {
    open spec fn enc(&self) -> Seq<u8> {
        self.name.enc() + self.desc.enc()
    }

    open spec fn is_tail() -> bool {
        <ExportDesc>::is_tail()
    }

    open spec fn rejects(data: Seq<u8>, pos: int, e: DecodeError) -> bool {
        false
    }

    open spec fn fits(&self) -> bool {
        &&& self.name.fits()
        &&& self.desc.fits()
        &&& !<String>::is_tail()
    }

    fn encode(&self, out: &mut Vec<u8>) {
        self.name.encode(out);
        self.desc.encode(out);
        assert(out@ =~= old(out)@ + self.enc());
    }

    fn decode(data: &[u8], pos: usize) -> (r: Result<(Export, usize), DecodeError>) {
        proof {
            assert forall|v: Export| #[trigger] bytes_at(data@, pos as int, v.enc(), v.fits(),
                <Export>::is_tail())
                implies bytes_at(
                data@,
                pos as int,
                v.name.enc(),
                v.name.fits(),
                <String>::is_tail(),
            ) by {
                let off: int = 0;
                let b: int = v.name.enc().len() as int;
                assert(data@.subrange(pos as int, pos + b) =~= v.enc().subrange(off, off + b));
                assert(v.enc().subrange(off, off + b) =~= v.name.enc());
            }
        }
        let (name, p0) = <String>::decode(data, pos)?;
        proof {
            assert forall|v: Export| #[trigger] bytes_at(data@, pos as int, v.enc(), v.fits(),
                <Export>::is_tail())
                implies bytes_at(
                data@,
                p0 as int,
                v.desc.enc(),
                v.desc.fits(),
                <ExportDesc>::is_tail(),
            ) && p0 == pos + v.name.enc().len() by {
                assert(bytes_at(data@, pos as int, v.name.enc(), v.name.fits(),
                    <String>::is_tail()));
                let off: int = v.name.enc().len() as int;
                let b: int = v.desc.enc().len() as int;
                assert(data@.subrange(p0 as int, p0 + b) =~= v.enc().subrange(off, off + b));
                assert(v.enc().subrange(off, off + b) =~= v.desc.enc());
            }
        }
        let (desc, p1) = <ExportDesc>::decode(data, p0)?;
        proof {
            lemma_join(data@, pos as int, p0 as int, p1 as int);
            assert forall|v: Export| #[trigger] bytes_at(data@, pos as int, v.enc(), v.fits(),
                <Export>::is_tail())
                implies p1 == pos
                + v.enc().len() by {
                assert(bytes_at(data@, p0 as int, v.desc.enc(), v.desc.fits(),
                    <ExportDesc>::is_tail()));
            }
        }
        Ok((Export { name, desc }, p1))
    }
}

impl WasmbinVisit for Export {
    open spec fn is_forced(&self) -> bool {
        self.name.is_forced()
        && self.desc.is_forced()
    }

    open spec fn agrees(&self, old: Self) -> bool {
        self.name.agrees(old.name)
        && self.desc.agrees(old.desc)
    }

    proof fn lemma_agrees_refl(&self) {
        self.name.lemma_agrees_refl();
        self.desc.lemma_agrees_refl();
    }

    proof fn lemma_agrees_trans(&self, mid: Self, old: Self) {
        self.name.lemma_agrees_trans(mid.name, old.name);
        self.desc.lemma_agrees_trans(mid.desc, old.desc);
    }

    open spec fn decodable(&self) -> bool {
        self.name.decodable()
        && self.desc.decodable()
    }

    open spec fn func_ids(&self) -> Seq<FuncId> {
        self.name.func_ids() + self.desc.func_ids()
    }

    fn force_all(&mut self) -> (r: Result<(), DecodeError>) {
        proof {
            self.name.lemma_agrees_refl();
            self.desc.lemma_agrees_refl();
        }
        self.name.force_all()?;
        self.desc.force_all()?;
        Ok(())
    }

    fn set_func_ids(&mut self, ids: &Vec<FuncId>, pos: usize) -> (r: usize) {
        let p0 = self.name.set_func_ids(ids, pos);
        let p1 = self.desc.set_func_ids(ids, p0);
        assert(self.func_ids() =~= ids@.subrange(pos as int, p1 as int));
        p1
    }

    fn collect_func_ids(&self, out: &mut Vec<FuncId>) {
        self.name.collect_func_ids(out);
        self.desc.collect_func_ids(out);
        assert(out@ =~= old(out)@ + self.func_ids());
    }
}

/// An element segment: a table, an offset, and the functions placed there.
#[derive(Debug, Clone, PartialEq, Eq, Hash)]
pub struct Element {
    pub table: TableId,
    pub offset: Expression,
    pub init: Vec<FuncId>,
}

impl Codec for Element {
    open spec fn enc(&self) -> Seq<u8> {
        self.table.enc() + self.offset.enc() + self.init.enc()
    }

    open spec fn is_tail() -> bool {
        <Vec<FuncId>>::is_tail()
    }

    open spec fn rejects(data: Seq<u8>, pos: int, e: DecodeError) -> bool {
        false
    }

    open spec fn fits(&self) -> bool {
        &&& self.table.fits()
        &&& self.offset.fits()
        &&& self.init.fits()
        &&& !<TableId>::is_tail()
        &&& !<Expression>::is_tail()
    }

    fn encode(&self, out: &mut Vec<u8>) {
        self.table.encode(out);
        self.offset.encode(out);
        self.init.encode(out);
        assert(out@ =~= old(out)@ + self.enc());
    }

    fn decode(data: &[u8], pos: usize) -> (r: Result<(Element, usize), DecodeError>) {
        proof {
            assert forall|v: Element| #[trigger] bytes_at(data@, pos as int, v.enc(), v.fits(),
                <Element>::is_tail())
                implies bytes_at(
                data@,
                pos as int,
                v.table.enc(),
                v.table.fits(),
                <TableId>::is_tail(),
            ) by {
                let off: int = 0;
                let b: int = v.table.enc().len() as int;
                assert(data@.subrange(pos as int, pos + b) =~= v.enc().subrange(off, off + b));
                assert(v.enc().subrange(off, off + b) =~= v.table.enc());
            }
        }
        let (table, p0) = <TableId>::decode(data, pos)?;
        proof {
            assert forall|v: Element| #[trigger] bytes_at(data@, pos as int, v.enc(), v.fits(),
                <Element>::is_tail())
                implies bytes_at(
                data@,
                p0 as int,
                v.offset.enc(),
                v.offset.fits(),
                <Expression>::is_tail(),
            ) && p0 == pos + v.table.enc().len() by {
                assert(bytes_at(data@, pos as int, v.table.enc(), v.table.fits(),
                    <TableId>::is_tail()));
                let off: int = v.table.enc().len() as int;
                let b: int = v.offset.enc().len() as int;
                assert(data@.subrange(p0 as int, p0 + b) =~= v.enc().subrange(off, off + b));
                assert(v.enc().subrange(off, off + b) =~= v.offset.enc());
            }
        }
        let (offset, p1) = <Expression>::decode(data, p0)?;
        proof {
            assert forall|v: Element| #[trigger] bytes_at(data@, pos as int, v.enc(), v.fits(),
                <Element>::is_tail())
                implies bytes_at(
                data@,
                p1 as int,
                v.init.enc(),
                v.init.fits(),
                <Vec<FuncId>>::is_tail(),
            ) && p1 == pos + v.table.enc().len() + v.offset.enc().len() by {
                assert(bytes_at(data@, p0 as int, v.offset.enc(), v.offset.fits(),
                    <Expression>::is_tail()));
                let off: int = (v.table.enc().len() + v.offset.enc().len()) as int;
                let b: int = v.init.enc().len() as int;
                assert(data@.subrange(p1 as int, p1 + b) =~= v.enc().subrange(off, off + b));
                assert(v.enc().subrange(off, off + b) =~= v.init.enc());
            }
        }
        let (init, p2) = <Vec<FuncId>>::decode(data, p1)?;
        proof {
            lemma_join(data@, pos as int, p0 as int, p1 as int);
            lemma_join(data@, pos as int, p1 as int, p2 as int);
            assert forall|v: Element| #[trigger] bytes_at(data@, pos as int, v.enc(), v.fits(),
                <Element>::is_tail())
                implies p2 == pos
                + v.enc().len() by {
                assert(bytes_at(data@, p1 as int, v.init.enc(), v.init.fits(),
                    <Vec<FuncId>>::is_tail()));
            }
        }
        Ok((Element { table, offset, init }, p2))
    }
}

impl WasmbinVisit for Element {
    open spec fn is_forced(&self) -> bool {
        self.table.is_forced()
        && self.offset.is_forced()
        && self.init.is_forced()
    }

    open spec fn agrees(&self, old: Self) -> bool {
        self.table.agrees(old.table)
        && self.offset.agrees(old.offset)
        && self.init.agrees(old.init)
    }

    proof fn lemma_agrees_refl(&self) {
        self.table.lemma_agrees_refl();
        self.offset.lemma_agrees_refl();
        self.init.lemma_agrees_refl();
    }

    proof fn lemma_agrees_trans(&self, mid: Self, old: Self) {
        self.table.lemma_agrees_trans(mid.table, old.table);
        self.offset.lemma_agrees_trans(mid.offset, old.offset);
        self.init.lemma_agrees_trans(mid.init, old.init);
    }

    open spec fn decodable(&self) -> bool {
        self.table.decodable()
        && self.offset.decodable()
        && self.init.decodable()
    }

    open spec fn func_ids(&self) -> Seq<FuncId> {
        self.table.func_ids() + self.offset.func_ids() + self.init.func_ids()
    }

    fn force_all(&mut self) -> (r: Result<(), DecodeError>) {
        proof {
            self.table.lemma_agrees_refl();
            self.offset.lemma_agrees_refl();
            self.init.lemma_agrees_refl();
        }
        self.table.force_all()?;
        self.offset.force_all()?;
        self.init.force_all()?;
        Ok(())
    }

    fn set_func_ids(&mut self, ids: &Vec<FuncId>, pos: usize) -> (r: usize) {
        let p0 = self.table.set_func_ids(ids, pos);
        let p1 = self.offset.set_func_ids(ids, p0);
        let p2 = self.init.set_func_ids(ids, p1);
        assert(self.func_ids() =~= ids@.subrange(pos as int, p2 as int));
        p2
    }

    fn collect_func_ids(&self, out: &mut Vec<FuncId>) {
        self.table.collect_func_ids(out);
        self.offset.collect_func_ids(out);
        self.init.collect_func_ids(out);
        assert(out@ =~= old(out)@ + self.func_ids());
    }
}

/// A run of locals of one type.
#[derive(Debug, Clone, PartialEq, Eq, Hash)]
pub struct Locals {
    pub repeat: u32,
    pub ty: ValueType,
}

impl Codec for Locals {
    open spec fn enc(&self) -> Seq<u8> {
        self.repeat.enc() + self.ty.enc()
    }

    open spec fn is_tail() -> bool {
        <ValueType>::is_tail()
    }

    open spec fn rejects(data: Seq<u8>, pos: int, e: DecodeError) -> bool {
        false
    }

    open spec fn fits(&self) -> bool {
        &&& self.repeat.fits()
        &&& self.ty.fits()
        &&& !<u32>::is_tail()
    }

    fn encode(&self, out: &mut Vec<u8>) {
        self.repeat.encode(out);
        self.ty.encode(out);
        assert(out@ =~= old(out)@ + self.enc());
    }

    fn decode(data: &[u8], pos: usize) -> (r: Result<(Locals, usize), DecodeError>) {
        proof {
            assert forall|v: Locals| #[trigger] bytes_at(data@, pos as int, v.enc(), v.fits(),
                <Locals>::is_tail())
                implies bytes_at(
                data@,
                pos as int,
                v.repeat.enc(),
                v.repeat.fits(),
                <u32>::is_tail(),
            ) by {
                let off: int = 0;
                let b: int = v.repeat.enc().len() as int;
                assert(data@.subrange(pos as int, pos + b) =~= v.enc().subrange(off, off + b));
                assert(v.enc().subrange(off, off + b) =~= v.repeat.enc());
            }
        }
        let (repeat, p0) = <u32>::decode(data, pos)?;
        proof {
            assert forall|v: Locals| #[trigger] bytes_at(data@, pos as int, v.enc(), v.fits(),
                <Locals>::is_tail())
                implies bytes_at(
                data@,
                p0 as int,
                v.ty.enc(),
                v.ty.fits(),
                <ValueType>::is_tail(),
            ) && p0 == pos + v.repeat.enc().len() by {
                assert(bytes_at(data@, pos as int, v.repeat.enc(), v.repeat.fits(),
                    <u32>::is_tail()));
                let off: int = v.repeat.enc().len() as int;
                let b: int = v.ty.enc().len() as int;
                assert(data@.subrange(p0 as int, p0 + b) =~= v.enc().subrange(off, off + b));
                assert(v.enc().subrange(off, off + b) =~= v.ty.enc());
            }
        }
        let (ty, p1) = <ValueType>::decode(data, p0)?;
        proof {
            lemma_join(data@, pos as int, p0 as int, p1 as int);
            assert forall|v: Locals| #[trigger] bytes_at(data@, pos as int, v.enc(), v.fits(),
                <Locals>::is_tail())
                implies p1 == pos
                + v.enc().len() by {
                assert(bytes_at(data@, p0 as int, v.ty.enc(), v.ty.fits(), <ValueType>::is_tail()));
            }
        }
        Ok((Locals { repeat, ty }, p1))
    }
}

impl WasmbinVisit for Locals {
    open spec fn is_forced(&self) -> bool {
        self.repeat.is_forced()
        && self.ty.is_forced()
    }

    open spec fn agrees(&self, old: Self) -> bool {
        self.repeat.agrees(old.repeat)
        && self.ty.agrees(old.ty)
    }

    proof fn lemma_agrees_refl(&self) {
        self.repeat.lemma_agrees_refl();
        self.ty.lemma_agrees_refl();
    }

    proof fn lemma_agrees_trans(&self, mid: Self, old: Self) {
        self.repeat.lemma_agrees_trans(mid.repeat, old.repeat);
        self.ty.lemma_agrees_trans(mid.ty, old.ty);
    }

    open spec fn decodable(&self) -> bool {
        self.repeat.decodable()
        && self.ty.decodable()
    }

    open spec fn func_ids(&self) -> Seq<FuncId> {
        self.repeat.func_ids() + self.ty.func_ids()
    }

    fn force_all(&mut self) -> (r: Result<(), DecodeError>) {
        proof {
            self.repeat.lemma_agrees_refl();
            self.ty.lemma_agrees_refl();
        }
        self.repeat.force_all()?;
        self.ty.force_all()?;
        Ok(())
    }

    fn set_func_ids(&mut self, ids: &Vec<FuncId>, pos: usize) -> (r: usize) {
        let p0 = self.repeat.set_func_ids(ids, pos);
        let p1 = self.ty.set_func_ids(ids, p0);
        assert(self.func_ids() =~= ids@.subrange(pos as int, p1 as int));
        p1
    }

    fn collect_func_ids(&self, out: &mut Vec<FuncId>) {
        self.repeat.collect_func_ids(out);
        self.ty.collect_func_ids(out);
        assert(out@ =~= old(out)@ + self.func_ids());
    }
}

/// The body of a function: its locals and its code.
#[derive(Debug, Clone, PartialEq, Eq, Hash)]
pub struct Func {
    pub locals: Vec<Locals>,
    pub body: Expression,
}

impl Codec for Func {
    open spec fn enc(&self) -> Seq<u8> {
        self.locals.enc() + self.body.enc()
    }

    open spec fn is_tail() -> bool {
        <Expression>::is_tail()
    }

    open spec fn rejects(data: Seq<u8>, pos: int, e: DecodeError) -> bool {
        false
    }

    open spec fn fits(&self) -> bool {
        &&& self.locals.fits()
        &&& self.body.fits()
        &&& !<Vec<Locals>>::is_tail()
    }

    fn encode(&self, out: &mut Vec<u8>) {
        self.locals.encode(out);
        self.body.encode(out);
        assert(out@ =~= old(out)@ + self.enc());
    }

    fn decode(data: &[u8], pos: usize) -> (r: Result<(Func, usize), DecodeError>) {
        proof {
            assert forall|v: Func| #[trigger] bytes_at(data@, pos as int, v.enc(), v.fits(),
                <Func>::is_tail())
                implies bytes_at(
                data@,
                pos as int,
                v.locals.enc(),
                v.locals.fits(),
                <Vec<Locals>>::is_tail(),
            ) by {
                let off: int = 0;
                let b: int = v.locals.enc().len() as int;
                assert(data@.subrange(pos as int, pos + b) =~= v.enc().subrange(off, off + b));
                assert(v.enc().subrange(off, off + b) =~= v.locals.enc());
            }
        }
        let (locals, p0) = <Vec<Locals>>::decode(data, pos)?;
        proof {
            assert forall|v: Func| #[trigger] bytes_at(data@, pos as int, v.enc(), v.fits(),
                <Func>::is_tail())
                implies bytes_at(
                data@,
                p0 as int,
                v.body.enc(),
                v.body.fits(),
                <Expression>::is_tail(),
            ) && p0 == pos + v.locals.enc().len() by {
                assert(bytes_at(data@, pos as int, v.locals.enc(), v.locals.fits(),
                    <Vec<Locals>>::is_tail()));
                let off: int = v.locals.enc().len() as int;
                let b: int = v.body.enc().len() as int;
                assert(data@.subrange(p0 as int, p0 + b) =~= v.enc().subrange(off, off + b));
                assert(v.enc().subrange(off, off + b) =~= v.body.enc());
            }
        }
        let (body, p1) = <Expression>::decode(data, p0)?;
        proof {
            lemma_join(data@, pos as int, p0 as int, p1 as int);
            assert forall|v: Func| #[trigger] bytes_at(data@, pos as int, v.enc(), v.fits(),
                <Func>::is_tail())
                implies p1 == pos
                + v.enc().len() by {
                assert(bytes_at(data@, p0 as int, v.body.enc(), v.body.fits(),
                    <Expression>::is_tail()));
            }
        }
        Ok((Func { locals, body }, p1))
    }
}

impl WasmbinVisit for Func {
    open spec fn is_forced(&self) -> bool {
        self.locals.is_forced()
        && self.body.is_forced()
    }

    open spec fn agrees(&self, old: Self) -> bool {
        self.locals.agrees(old.locals)
        && self.body.agrees(old.body)
    }

    proof fn lemma_agrees_refl(&self) {
        self.locals.lemma_agrees_refl();
        self.body.lemma_agrees_refl();
    }

    proof fn lemma_agrees_trans(&self, mid: Self, old: Self) {
        self.locals.lemma_agrees_trans(mid.locals, old.locals);
        self.body.lemma_agrees_trans(mid.body, old.body);
    }

    open spec fn decodable(&self) -> bool {
        self.locals.decodable()
        && self.body.decodable()
    }

    open spec fn func_ids(&self) -> Seq<FuncId> {
        self.locals.func_ids() + self.body.func_ids()
    }

    fn force_all(&mut self) -> (r: Result<(), DecodeError>) {
        proof {
            self.locals.lemma_agrees_refl();
            self.body.lemma_agrees_refl();
        }
        self.locals.force_all()?;
        self.body.force_all()?;
        Ok(())
    }

    fn set_func_ids(&mut self, ids: &Vec<FuncId>, pos: usize) -> (r: usize) {
        let p0 = self.locals.set_func_ids(ids, pos);
        let p1 = self.body.set_func_ids(ids, p0);
        assert(self.func_ids() =~= ids@.subrange(pos as int, p1 as int));
        p1
    }

    fn collect_func_ids(&self, out: &mut Vec<FuncId>) {
        self.locals.collect_func_ids(out);
        self.body.collect_func_ids(out);
        assert(out@ =~= old(out)@ + self.func_ids());
    }
}

/// A data segment: a memory, an offset, and the bytes placed there.
#[derive(Debug, Clone, PartialEq, Eq, Hash)]
pub struct Data {
    pub memory: MemId,
    pub offset: Expression,
    pub init: Vec<u8>,
}

impl Codec for Data {
    open spec fn enc(&self) -> Seq<u8> {
        self.memory.enc() + self.offset.enc() + self.init.enc()
    }

    open spec fn is_tail() -> bool {
        <Vec<u8>>::is_tail()
    }

    open spec fn rejects(data: Seq<u8>, pos: int, e: DecodeError) -> bool {
        false
    }

    open spec fn fits(&self) -> bool {
        &&& self.memory.fits()
        &&& self.offset.fits()
        &&& self.init.fits()
        &&& !<MemId>::is_tail()
        &&& !<Expression>::is_tail()
    }

    fn encode(&self, out: &mut Vec<u8>) {
        self.memory.encode(out);
        self.offset.encode(out);
        self.init.encode(out);
        assert(out@ =~= old(out)@ + self.enc());
    }

    fn decode(data: &[u8], pos: usize) -> (r: Result<(Data, usize), DecodeError>) {
        proof {
            assert forall|v: Data| #[trigger] bytes_at(data@, pos as int, v.enc(), v.fits(),
                <Data>::is_tail())
                implies bytes_at(
                data@,
                pos as int,
                v.memory.enc(),
                v.memory.fits(),
                <MemId>::is_tail(),
            ) by {
                let off: int = 0;
                let b: int = v.memory.enc().len() as int;
                assert(data@.subrange(pos as int, pos + b) =~= v.enc().subrange(off, off + b));
                assert(v.enc().subrange(off, off + b) =~= v.memory.enc());
            }
        }
        let (memory, p0) = <MemId>::decode(data, pos)?;
        proof {
            assert forall|v: Data| #[trigger] bytes_at(data@, pos as int, v.enc(), v.fits(),
                <Data>::is_tail())
                implies bytes_at(
                data@,
                p0 as int,
                v.offset.enc(),
                v.offset.fits(),
                <Expression>::is_tail(),
            ) && p0 == pos + v.memory.enc().len() by {
                assert(bytes_at(data@, pos as int, v.memory.enc(), v.memory.fits(),
                    <MemId>::is_tail()));
                let off: int = v.memory.enc().len() as int;
                let b: int = v.offset.enc().len() as int;
                assert(data@.subrange(p0 as int, p0 + b) =~= v.enc().subrange(off, off + b));
                assert(v.enc().subrange(off, off + b) =~= v.offset.enc());
            }
        }
        let (offset, p1) = <Expression>::decode(data, p0)?;
        proof {
            assert forall|v: Data| #[trigger] bytes_at(data@, pos as int, v.enc(), v.fits(),
                <Data>::is_tail())
                implies bytes_at(
                data@,
                p1 as int,
                v.init.enc(),
                v.init.fits(),
                <Vec<u8>>::is_tail(),
            ) && p1 == pos + v.memory.enc().len() + v.offset.enc().len() by {
                assert(bytes_at(data@, p0 as int, v.offset.enc(), v.offset.fits(),
                    <Expression>::is_tail()));
                let off: int = (v.memory.enc().len() + v.offset.enc().len()) as int;
                let b: int = v.init.enc().len() as int;
                assert(data@.subrange(p1 as int, p1 + b) =~= v.enc().subrange(off, off + b));
                assert(v.enc().subrange(off, off + b) =~= v.init.enc());
            }
        }
        let (init, p2) = <Vec<u8>>::decode(data, p1)?;
        proof {
            lemma_join(data@, pos as int, p0 as int, p1 as int);
            lemma_join(data@, pos as int, p1 as int, p2 as int);
            assert forall|v: Data| #[trigger] bytes_at(data@, pos as int, v.enc(), v.fits(),
                <Data>::is_tail())
                implies p2 == pos
                + v.enc().len() by {
                assert(bytes_at(data@, p1 as int, v.init.enc(), v.init.fits(),
                    <Vec<u8>>::is_tail()));
            }
        }
        Ok((Data { memory, offset, init }, p2))
    }
}

impl WasmbinVisit for Data {
    open spec fn is_forced(&self) -> bool {
        self.memory.is_forced()
        && self.offset.is_forced()
        && self.init.is_forced()
    }

    open spec fn agrees(&self, old: Self) -> bool {
        self.memory.agrees(old.memory)
        && self.offset.agrees(old.offset)
        && self.init.agrees(old.init)
    }

    proof fn lemma_agrees_refl(&self) {
        self.memory.lemma_agrees_refl();
        self.offset.lemma_agrees_refl();
        self.init.lemma_agrees_refl();
    }

    proof fn lemma_agrees_trans(&self, mid: Self, old: Self) {
        self.memory.lemma_agrees_trans(mid.memory, old.memory);
        self.offset.lemma_agrees_trans(mid.offset, old.offset);
        self.init.lemma_agrees_trans(mid.init, old.init);
    }

    open spec fn decodable(&self) -> bool {
        self.memory.decodable()
        && self.offset.decodable()
        && self.init.decodable()
    }

    open spec fn func_ids(&self) -> Seq<FuncId> {
        self.memory.func_ids() + self.offset.func_ids() + self.init.func_ids()
    }

    fn force_all(&mut self) -> (r: Result<(), DecodeError>) {
        proof {
            self.memory.lemma_agrees_refl();
            self.offset.lemma_agrees_refl();
            self.init.lemma_agrees_refl();
        }
        self.memory.force_all()?;
        self.offset.force_all()?;
        self.init.force_all()?;
        Ok(())
    }

    fn set_func_ids(&mut self, ids: &Vec<FuncId>, pos: usize) -> (r: usize) {
        let p0 = self.memory.set_func_ids(ids, pos);
        let p1 = self.offset.set_func_ids(ids, p0);
        let p2 = self.init.set_func_ids(ids, p1);
        assert(self.func_ids() =~= ids@.subrange(pos as int, p2 as int));
        p2
    }

    fn collect_func_ids(&self, out: &mut Vec<FuncId>) {
        self.memory.collect_func_ids(out);
        self.offset.collect_func_ids(out);
        self.init.collect_func_ids(out);
        assert(out@ =~= old(out)@ + self.func_ids());
    }
}
/// A custom section as read: its name and the bytes after the name.
#[derive(Debug, Clone, PartialEq, Eq, Hash)]
pub struct RawCustomSection {
    pub name: String,
    pub data: Vec<u8>,
}

impl Codec for RawCustomSection {
    open spec fn enc(&self) -> Seq<u8> {
        self.name.enc() + self.data@
    }

    fn encode(&self, out: &mut Vec<u8>) {
        self.name.encode(out);
        push_all(out, self.data.as_slice());
        assert(out@ =~= old(out)@ + self.enc());
    }

    open spec fn is_tail() -> bool {
        true
    }

    open spec fn rejects(data: Seq<u8>, pos: int, e: DecodeError) -> bool {
        false
    }

    open spec fn fits(&self) -> bool {
        self.name.fits()
    }

    /// The data runs to the end of the input.
    fn decode(data: &[u8], pos: usize) -> (r: Result<(RawCustomSection, usize), DecodeError>) {
        let r = RawCustomSection::read(data, pos);
        proof {
            assert forall|v: RawCustomSection| #[trigger] bytes_at(data@, pos as int, v.enc(),
                v.fits(), <RawCustomSection>::is_tail())
                implies string_at(
                data@,
                pos as int,
                v.name@,
            ) by {
                let e = encode_utf8(v.name@);
                let k: int = leb(e.len()).len() as int;
                assert(data@.subrange(pos as int, pos + k) =~= v.enc().subrange(0, k as int));
                assert(v.enc().subrange(0, k as int) =~= leb(e.len()));
                assert(data@.subrange(pos + k, pos + k + e.len()) =~= v.enc().subrange(
                    k as int,
                    k + e.len(),
                ));
                assert(v.enc().subrange(k as int, k + e.len()) =~= e);
            }
        }
        r
    }
}

impl RawCustomSection {
    /// Reads a name, then takes every byte after it as the data.
    pub fn read(data: &[u8], pos: usize) -> (r: Result<(RawCustomSection, usize), DecodeError>)
        requires
            pos <= data@.len(),
        ensures
            r matches Ok((v, end)) ==> end == data@.len() && data@.subrange(pos as int, end as int)
                == v.enc(),
            forall|cs: Seq<char>| #[trigger]
                string_at(data@, pos as int, cs) ==> (r matches Ok((v, _)) && v.name@ == cs),
    {
        let (name, start) = read_string(data, pos)?;
        let mut rest: Vec<u8> = Vec::new();
        push_all(&mut rest, vstd::slice::slice_subrange(data, start, data.len()));
        proof {
            lemma_join(data@, pos as int, start as int, data@.len() as int);
            assert(rest@ =~= data@.subrange(start as int, data@.len() as int));
        }
        Ok((RawCustomSection { name, data: rest }, data.len()))
    }
}

/// The characters of the one custom-section name this library knows.
pub open spec fn name_section_name() -> Seq<char> {
    seq!['n', 'a', 'm', 'e']
}

/// A custom section, told apart by its name.
#[derive(Debug, Clone, PartialEq, Eq, Hash)]
pub enum CustomSection {
    /// The section named "name": names for the module, its functions and
    /// their locals, decoded on first demand.
    Name(Lazy<Stream<NameSubSection>>),
    /// Any other custom section, kept as read.
    Other(RawCustomSection),
}

impl CustomSection {
    /// Sorts a custom section by its name: the known name gives its typed
    /// variant over the same bytes, undecoded; any other stays raw.
    pub fn from_raw(raw: RawCustomSection) -> (r: CustomSection)
        ensures
            raw.name@ == name_section_name() ==> r == CustomSection::Name(
                Lazy::<Stream<NameSubSection>>::from_raw_spec(raw.data),
            ),
            raw.name@ != name_section_name() ==> r == CustomSection::Other(raw),
            r.enc() == raw.enc(),
    {
        let known = "name".to_owned();
        proof {
            reveal_strlit("name");
            assert(known@ =~= name_section_name());
        }
        if raw.name == known {
            let RawCustomSection { name, data } = raw;
            CustomSection::Name(Lazy::from_raw(data))
        } else {
            CustomSection::Other(raw)
        }
    }
}

impl Codec for CustomSection {
    open spec fn enc(&self) -> Seq<u8> {
        match self {
            CustomSection::Name(l) => leb(encode_utf8(name_section_name()).len()) + encode_utf8(
                name_section_name(),
            ) + l.enc(),
            CustomSection::Other(raw) => raw.enc(),
        }
    }

    fn encode(&self, out: &mut Vec<u8>) {
        match self {
            CustomSection::Name(l) => {
                let known = "name".to_owned();
                proof {
                    reveal_strlit("name");
                    assert(known@ =~= name_section_name());
                }
                known.encode(out);
                l.encode(out);
            },
            CustomSection::Other(raw) => raw.encode(out),
        }
        assert(out@ =~= old(out)@ + self.enc());
    }

    open spec fn is_tail() -> bool {
        true
    }

    open spec fn rejects(data: Seq<u8>, pos: int, e: DecodeError) -> bool {
        false
    }

    open spec fn fits(&self) -> bool {
        match self {
            CustomSection::Name(_) => encode_utf8(name_section_name()).len() <= u32::MAX,
            CustomSection::Other(raw) => raw.fits(),
        }
    }

    fn decode(data: &[u8], pos: usize) -> (r: Result<(CustomSection, usize), DecodeError>) {
        proof {
            assert forall|v: CustomSection| #[trigger] bytes_at(data@, pos as int, v.enc(),
                v.fits(), <CustomSection>::is_tail())
                implies (exists|
                cs: Seq<char>,
            | #[trigger] string_at(data@, pos as int, cs)) by {
                let cs = match v {
                    CustomSection::Name(_) => name_section_name(),
                    CustomSection::Other(raw) => raw.name@,
                };
                let e = encode_utf8(cs);
                let k: int = leb(e.len()).len() as int;
                assert(data@.subrange(pos as int, pos + k) =~= v.enc().subrange(0, k as int));
                assert(v.enc().subrange(0, k as int) =~= leb(e.len()));
                assert(data@.subrange(pos + k, pos + k + e.len()) =~= v.enc().subrange(
                    k as int,
                    k + e.len(),
                ));
                assert(v.enc().subrange(k as int, k + e.len()) =~= e);
                assert(string_at(data@, pos as int, cs));
            }
        }
        let (raw, end) = RawCustomSection::read(data, pos)?;
        Ok((CustomSection::from_raw(raw), end))
    }
}

impl WasmbinVisit for RawCustomSection {
    open spec fn is_forced(&self) -> bool {
        true
    }

    open spec fn agrees(&self, old: Self) -> bool {
        *self == old
    }

    proof fn lemma_agrees_refl(&self) {
    }

    proof fn lemma_agrees_trans(&self, mid: Self, old: Self) {
    }

    open spec fn decodable(&self) -> bool {
        true
    }

    open spec fn func_ids(&self) -> Seq<FuncId> {
        Seq::empty()
    }

    fn force_all(&mut self) -> (r: Result<(), DecodeError>) {
        Ok(())
    }

    fn set_func_ids(&mut self, ids: &Vec<FuncId>, pos: usize) -> (r: usize) {
        assert(self.func_ids() =~= ids@.subrange(pos as int, pos as int));
        pos
    }

    fn collect_func_ids(&self, out: &mut Vec<FuncId>) {
        assert(out@ =~= old(out)@ + self.func_ids());
    }
}

impl WasmbinVisit for CustomSection {
    open spec fn is_forced(&self) -> bool {
        match self {
            CustomSection::Name(l) => l.is_forced(),
            CustomSection::Other(raw) => raw.is_forced(),
        }
    }

    open spec fn agrees(&self, old: Self) -> bool {
        match (*self, old) {
            (CustomSection::Name(x), CustomSection::Name(y)) => x.agrees(y),
            (CustomSection::Other(x), CustomSection::Other(y)) => x.agrees(y),
            _ => false,
        }
    }

    proof fn lemma_agrees_refl(&self) {
        match *self {
            CustomSection::Name(x) => x.lemma_agrees_refl(),
            CustomSection::Other(x) => x.lemma_agrees_refl(),
        }
    }

    proof fn lemma_agrees_trans(&self, mid: Self, old: Self) {
        match (*self, mid, old) {
            (CustomSection::Name(x), CustomSection::Name(m), CustomSection::Name(o)) => x.lemma_agrees_trans(m, o),
            (CustomSection::Other(x), CustomSection::Other(m), CustomSection::Other(o)) => x.lemma_agrees_trans(m, o),
            _ => {},
        }
    }

    open spec fn decodable(&self) -> bool {
        match self {
            CustomSection::Name(l) => l.decodable(),
            CustomSection::Other(raw) => raw.decodable(),
        }
    }

    open spec fn func_ids(&self) -> Seq<FuncId> {
        match self {
            CustomSection::Name(l) => l.func_ids(),
            CustomSection::Other(raw) => raw.func_ids(),
        }
    }

    fn force_all(&mut self) -> (r: Result<(), DecodeError>) {
        match self {
            CustomSection::Name(l) => l.force_all(),
            CustomSection::Other(raw) => raw.force_all(),
        }
    }

    fn set_func_ids(&mut self, ids: &Vec<FuncId>, pos: usize) -> (r: usize) {
        match self {
            CustomSection::Name(l) => l.set_func_ids(ids, pos),
            CustomSection::Other(raw) => raw.set_func_ids(ids, pos),
        }
    }

    fn collect_func_ids(&self, out: &mut Vec<FuncId>) {
        match self {
            CustomSection::Name(l) => l.collect_func_ids(out),
            CustomSection::Other(raw) => raw.collect_func_ids(out),
        }
    }
}

/// One section of a module: a tag byte and a length-delimited payload that
/// is decoded on first demand.
#[derive(Debug, Clone, PartialEq, Eq, Hash)]
pub enum Section {
    /// The custom section, named rather than numbered.
    Custom(Blob<CustomSection>),
    /// The function types.
    Type(Blob<Vec<FuncType>>),
    /// The imports.
    Import(Blob<Vec<Import>>),
    /// The type of each function.
    Function(Blob<Vec<TypeId>>),
    /// The tables.
    Table(Blob<Vec<TableType>>),
    /// The memories.
    Memory(Blob<Vec<MemType>>),
    /// The globals.
    Global(Blob<Vec<Global>>),
    /// The exports.
    Export(Blob<Vec<Export>>),
    /// The start function.
    Start(Blob<FuncId>),
    /// The element segments.
    Element(Blob<Vec<Element>>),
    /// The function bodies.
    Code(Blob<Vec<Blob<Func>>>),
    /// The data segments.
    Data(Blob<Vec<Data>>),
}

impl Codec for Section {
    open spec fn enc(&self) -> Seq<u8> {
        match self {
            Section::Custom(x) => seq![0u8] + x.enc(),
            Section::Type(x) => seq![1u8] + x.enc(),
            Section::Import(x) => seq![2u8] + x.enc(),
            Section::Function(x) => seq![3u8] + x.enc(),
            Section::Table(x) => seq![4u8] + x.enc(),
            Section::Memory(x) => seq![5u8] + x.enc(),
            Section::Global(x) => seq![6u8] + x.enc(),
            Section::Export(x) => seq![7u8] + x.enc(),
            Section::Start(x) => seq![8u8] + x.enc(),
            Section::Element(x) => seq![9u8] + x.enc(),
            Section::Code(x) => seq![10u8] + x.enc(),
            Section::Data(x) => seq![11u8] + x.enc(),
        }
    }

    open spec fn is_tail() -> bool {
        false
    }

    open spec fn rejects(data: Seq<u8>, pos: int, e: DecodeError) -> bool {
        false
    }

    open spec fn fits(&self) -> bool {
        match self {
            Section::Custom(x) => x.fits() && !<Blob<CustomSection>>::is_tail(),
            Section::Type(x) => x.fits() && !<Blob<Vec<FuncType>>>::is_tail(),
            Section::Import(x) => x.fits() && !<Blob<Vec<Import>>>::is_tail(),
            Section::Function(x) => x.fits() && !<Blob<Vec<TypeId>>>::is_tail(),
            Section::Table(x) => x.fits() && !<Blob<Vec<TableType>>>::is_tail(),
            Section::Memory(x) => x.fits() && !<Blob<Vec<MemType>>>::is_tail(),
            Section::Global(x) => x.fits() && !<Blob<Vec<Global>>>::is_tail(),
            Section::Export(x) => x.fits() && !<Blob<Vec<Export>>>::is_tail(),
            Section::Start(x) => x.fits() && !<Blob<FuncId>>::is_tail(),
            Section::Element(x) => x.fits() && !<Blob<Vec<Element>>>::is_tail(),
            Section::Code(x) => x.fits() && !<Blob<Vec<Blob<Func>>>>::is_tail(),
            Section::Data(x) => x.fits() && !<Blob<Vec<Data>>>::is_tail(),
        }
    }

    fn encode(&self, out: &mut Vec<u8>) {
        match self {
            Section::Custom(x) => {
                out.push(0u8);
                x.encode(out);
            },
            Section::Type(x) => {
                out.push(1u8);
                x.encode(out);
            },
            Section::Import(x) => {
                out.push(2u8);
                x.encode(out);
            },
            Section::Function(x) => {
                out.push(3u8);
                x.encode(out);
            },
            Section::Table(x) => {
                out.push(4u8);
                x.encode(out);
            },
            Section::Memory(x) => {
                out.push(5u8);
                x.encode(out);
            },
            Section::Global(x) => {
                out.push(6u8);
                x.encode(out);
            },
            Section::Export(x) => {
                out.push(7u8);
                x.encode(out);
            },
            Section::Start(x) => {
                out.push(8u8);
                x.encode(out);
            },
            Section::Element(x) => {
                out.push(9u8);
                x.encode(out);
            },
            Section::Code(x) => {
                out.push(10u8);
                x.encode(out);
            },
            Section::Data(x) => {
                out.push(11u8);
                x.encode(out);
            },
        }
        assert(out@ =~= old(out)@ + self.enc());
    }

    fn decode(data: &[u8], pos: usize) -> (r: Result<(Section, usize), DecodeError>) {
        if pos >= data.len() {
            return Err(DecodeError::UnexpectedEof);
        }
        let tag = data[pos];
        proof {
            assert forall|v: Section| #[trigger] bytes_at(data@, pos as int, v.enc(), v.fits(),
                <Section>::is_tail())
                implies tag_at(
                tag,
                data@,
                pos + 1,
                v.enc(),
                v.fits(),
                <Section>::is_tail(),
            ) by {
                assert(data@.subrange(pos as int, pos + v.enc().len())[0] == tag);
                assert(data@.subrange(pos + 1, pos + v.enc().len()) =~= v.enc().drop_first());
            }
        }
        let (v, end) = Self::decode_with_discriminant(tag, data, pos + 1)?;
        proof {
            lemma_join(data@, pos as int, pos + 1, end as int);
            assert(data@.subrange(pos as int, pos + 1) =~= seq![tag]);
        }
        Ok((v, end))
    }
}

impl Tagged for Section {
    open spec fn known_tag(tag: u8) -> bool {
        tag < 12
    }

    open spec fn framed() -> bool {
        true
    }

    open spec fn is_raw(&self) -> bool {
        match self {
            Section::Custom(b) => !b.contents.is_decoded(),
            Section::Type(b) => !b.contents.is_decoded(),
            Section::Import(b) => !b.contents.is_decoded(),
            Section::Function(b) => !b.contents.is_decoded(),
            Section::Table(b) => !b.contents.is_decoded(),
            Section::Memory(b) => !b.contents.is_decoded(),
            Section::Global(b) => !b.contents.is_decoded(),
            Section::Export(b) => !b.contents.is_decoded(),
            Section::Start(b) => !b.contents.is_decoded(),
            Section::Element(b) => !b.contents.is_decoded(),
            Section::Code(b) => !b.contents.is_decoded(),
            Section::Data(b) => !b.contents.is_decoded(),
        }
    }

    proof fn lemma_tag_first(v: Self) {
    }

    fn decode_with_discriminant(tag: u8, data: &[u8], pos: usize) -> (r: Result<(Section, usize),
        DecodeError>) {
        if tag == 0u8 {
            proof {
                assert forall|v: Section| #[trigger] tag_at(tag, data@, pos as int, v.enc(),
                    v.fits(), <Section>::is_tail())
                    implies v is Custom
                    && bytes_at(data@, pos as int, v->Custom_0.enc(), v->Custom_0.fits(),
                        <Blob<CustomSection>>::is_tail()) by {
                    match v {
                        Section::Custom(x) => {
                            assert(v.enc().drop_first() =~= x.enc());
                        },
                        _ => {},
                    }
                }
            }
            let (x, end) = Blob::<CustomSection>::decode_frame(data, pos)?;
            assert(seq![tag] + data@.subrange(pos as int,
                end as int) == (Section::Custom(x)).enc());
            Ok((Section::Custom(x), end))
        } else if tag == 1u8 {
            proof {
                assert forall|v: Section| #[trigger] tag_at(tag, data@, pos as int, v.enc(),
                    v.fits(), <Section>::is_tail())
                    implies v is Type
                    && bytes_at(data@, pos as int, v->Type_0.enc(), v->Type_0.fits(),
                        <Blob<Vec<FuncType>>>::is_tail()) by {
                    match v {
                        Section::Type(x) => {
                            assert(v.enc().drop_first() =~= x.enc());
                        },
                        _ => {},
                    }
                }
            }
            let (x, end) = Blob::<Vec<FuncType>>::decode_frame(data, pos)?;
            assert(seq![tag] + data@.subrange(pos as int, end as int) == (Section::Type(x)).enc());
            Ok((Section::Type(x), end))
        } else if tag == 2u8 {
            proof {
                assert forall|v: Section| #[trigger] tag_at(tag, data@, pos as int, v.enc(),
                    v.fits(), <Section>::is_tail())
                    implies v is Import
                    && bytes_at(data@, pos as int, v->Import_0.enc(), v->Import_0.fits(),
                        <Blob<Vec<Import>>>::is_tail()) by {
                    match v {
                        Section::Import(x) => {
                            assert(v.enc().drop_first() =~= x.enc());
                        },
                        _ => {},
                    }
                }
            }
            let (x, end) = Blob::<Vec<Import>>::decode_frame(data, pos)?;
            assert(seq![tag] + data@.subrange(pos as int,
                end as int) == (Section::Import(x)).enc());
            Ok((Section::Import(x), end))
        } else if tag == 3u8 {
            proof {
                assert forall|v: Section| #[trigger] tag_at(tag, data@, pos as int, v.enc(),
                    v.fits(), <Section>::is_tail())
                    implies v is Function
                    && bytes_at(data@, pos as int, v->Function_0.enc(), v->Function_0.fits(),
                        <Blob<Vec<TypeId>>>::is_tail()) by {
                    match v {
                        Section::Function(x) => {
                            assert(v.enc().drop_first() =~= x.enc());
                        },
                        _ => {},
                    }
                }
            }
            let (x, end) = Blob::<Vec<TypeId>>::decode_frame(data, pos)?;
            assert(seq![tag] + data@.subrange(pos as int,
                end as int) == (Section::Function(x)).enc());
            Ok((Section::Function(x), end))
        } else if tag == 4u8 {
            proof {
                assert forall|v: Section| #[trigger] tag_at(tag, data@, pos as int, v.enc(),
                    v.fits(), <Section>::is_tail())
                    implies v is Table
                    && bytes_at(data@, pos as int, v->Table_0.enc(), v->Table_0.fits(),
                        <Blob<Vec<TableType>>>::is_tail()) by {
                    match v {
                        Section::Table(x) => {
                            assert(v.enc().drop_first() =~= x.enc());
                        },
                        _ => {},
                    }
                }
            }
            let (x, end) = Blob::<Vec<TableType>>::decode_frame(data, pos)?;
            assert(seq![tag] + data@.subrange(pos as int, end as int) == (Section::Table(x)).enc());
            Ok((Section::Table(x), end))
        } else if tag == 5u8 {
            proof {
                assert forall|v: Section| #[trigger] tag_at(tag, data@, pos as int, v.enc(),
                    v.fits(), <Section>::is_tail())
                    implies v is Memory
                    && bytes_at(data@, pos as int, v->Memory_0.enc(), v->Memory_0.fits(),
                        <Blob<Vec<MemType>>>::is_tail()) by {
                    match v {
                        Section::Memory(x) => {
                            assert(v.enc().drop_first() =~= x.enc());
                        },
                        _ => {},
                    }
                }
            }
            let (x, end) = Blob::<Vec<MemType>>::decode_frame(data, pos)?;
            assert(seq![tag] + data@.subrange(pos as int,
                end as int) == (Section::Memory(x)).enc());
            Ok((Section::Memory(x), end))
        } else if tag == 6u8 {
            proof {
                assert forall|v: Section| #[trigger] tag_at(tag, data@, pos as int, v.enc(),
                    v.fits(), <Section>::is_tail())
                    implies v is Global
                    && bytes_at(data@, pos as int, v->Global_0.enc(), v->Global_0.fits(),
                        <Blob<Vec<Global>>>::is_tail()) by {
                    match v {
                        Section::Global(x) => {
                            assert(v.enc().drop_first() =~= x.enc());
                        },
                        _ => {},
                    }
                }
            }
            let (x, end) = Blob::<Vec<Global>>::decode_frame(data, pos)?;
            assert(seq![tag] + data@.subrange(pos as int,
                end as int) == (Section::Global(x)).enc());
            Ok((Section::Global(x), end))
        } else if tag == 7u8 {
            proof {
                assert forall|v: Section| #[trigger] tag_at(tag, data@, pos as int, v.enc(),
                    v.fits(), <Section>::is_tail())
                    implies v is Export
                    && bytes_at(data@, pos as int, v->Export_0.enc(), v->Export_0.fits(),
                        <Blob<Vec<Export>>>::is_tail()) by {
                    match v {
                        Section::Export(x) => {
                            assert(v.enc().drop_first() =~= x.enc());
                        },
                        _ => {},
                    }
                }
            }
            let (x, end) = Blob::<Vec<Export>>::decode_frame(data, pos)?;
            assert(seq![tag] + data@.subrange(pos as int,
                end as int) == (Section::Export(x)).enc());
            Ok((Section::Export(x), end))
        } else if tag == 8u8 {
            proof {
                assert forall|v: Section| #[trigger] tag_at(tag, data@, pos as int, v.enc(),
                    v.fits(), <Section>::is_tail())
                    implies v is Start
                    && bytes_at(data@, pos as int, v->Start_0.enc(), v->Start_0.fits(),
                        <Blob<FuncId>>::is_tail()) by {
                    match v {
                        Section::Start(x) => {
                            assert(v.enc().drop_first() =~= x.enc());
                        },
                        _ => {},
                    }
                }
            }
            let (x, end) = Blob::<FuncId>::decode_frame(data, pos)?;
            assert(seq![tag] + data@.subrange(pos as int, end as int) == (Section::Start(x)).enc());
            Ok((Section::Start(x), end))
        } else if tag == 9u8 {
            proof {
                assert forall|v: Section| #[trigger] tag_at(tag, data@, pos as int, v.enc(),
                    v.fits(), <Section>::is_tail())
                    implies v is Element
                    && bytes_at(data@, pos as int, v->Element_0.enc(), v->Element_0.fits(),
                        <Blob<Vec<Element>>>::is_tail()) by {
                    match v {
                        Section::Element(x) => {
                            assert(v.enc().drop_first() =~= x.enc());
                        },
                        _ => {},
                    }
                }
            }
            let (x, end) = Blob::<Vec<Element>>::decode_frame(data, pos)?;
            assert(seq![tag] + data@.subrange(pos as int,
                end as int) == (Section::Element(x)).enc());
            Ok((Section::Element(x), end))
        } else if tag == 10u8 {
            proof {
                assert forall|v: Section| #[trigger] tag_at(tag, data@, pos as int, v.enc(),
                    v.fits(), <Section>::is_tail())
                    implies v is Code
                    && bytes_at(data@, pos as int, v->Code_0.enc(), v->Code_0.fits(),
                        <Blob<Vec<Blob<Func>>>>::is_tail()) by {
                    match v {
                        Section::Code(x) => {
                            assert(v.enc().drop_first() =~= x.enc());
                        },
                        _ => {},
                    }
                }
            }
            let (x, end) = Blob::<Vec<Blob<Func>>>::decode_frame(data, pos)?;
            assert(seq![tag] + data@.subrange(pos as int, end as int) == (Section::Code(x)).enc());
            Ok((Section::Code(x), end))
        } else if tag == 11u8 {
            proof {
                assert forall|v: Section| #[trigger] tag_at(tag, data@, pos as int, v.enc(),
                    v.fits(), <Section>::is_tail())
                    implies v is Data
                    && bytes_at(data@, pos as int, v->Data_0.enc(), v->Data_0.fits(),
                        <Blob<Vec<Data>>>::is_tail()) by {
                    match v {
                        Section::Data(x) => {
                            assert(v.enc().drop_first() =~= x.enc());
                        },
                        _ => {},
                    }
                }
            }
            let (x, end) = Blob::<Vec<Data>>::decode_frame(data, pos)?;
            assert(seq![tag] + data@.subrange(pos as int, end as int) == (Section::Data(x)).enc());
            Ok((Section::Data(x), end))
        } else {
            proof {
                assert forall|v: Section| #[trigger] tag_at(tag, data@, pos as int, v.enc(),
                    v.fits(), <Section>::is_tail())
                    implies false by {
                    match v {
                        Section::Custom(x) => {},
                        Section::Type(x) => {},
                        Section::Import(x) => {},
                        Section::Function(x) => {},
                        Section::Table(x) => {},
                        Section::Memory(x) => {},
                        Section::Global(x) => {},
                        Section::Export(x) => {},
                        Section::Start(x) => {},
                        Section::Element(x) => {},
                        Section::Code(x) => {},
                        Section::Data(x) => {},
                    }
                }
            }
            Err(DecodeError::UnknownDiscriminant(tag))
        }
    }
}

impl WasmbinVisit for Section {
    open spec fn is_forced(&self) -> bool {
        match self {
            Section::Custom(x) => x.is_forced(),
            Section::Type(x) => x.is_forced(),
            Section::Import(x) => x.is_forced(),
            Section::Function(x) => x.is_forced(),
            Section::Table(x) => x.is_forced(),
            Section::Memory(x) => x.is_forced(),
            Section::Global(x) => x.is_forced(),
            Section::Export(x) => x.is_forced(),
            Section::Start(x) => x.is_forced(),
            Section::Element(x) => x.is_forced(),
            Section::Code(x) => x.is_forced(),
            Section::Data(x) => x.is_forced(),
        }
    }

    open spec fn agrees(&self, old: Self) -> bool {
        match (*self, old) {
            (Section::Custom(x), Section::Custom(y)) => x.agrees(y),
            (Section::Type(x), Section::Type(y)) => x.agrees(y),
            (Section::Import(x), Section::Import(y)) => x.agrees(y),
            (Section::Function(x), Section::Function(y)) => x.agrees(y),
            (Section::Table(x), Section::Table(y)) => x.agrees(y),
            (Section::Memory(x), Section::Memory(y)) => x.agrees(y),
            (Section::Global(x), Section::Global(y)) => x.agrees(y),
            (Section::Export(x), Section::Export(y)) => x.agrees(y),
            (Section::Start(x), Section::Start(y)) => x.agrees(y),
            (Section::Element(x), Section::Element(y)) => x.agrees(y),
            (Section::Code(x), Section::Code(y)) => x.agrees(y),
            (Section::Data(x), Section::Data(y)) => x.agrees(y),
            _ => false,
        }
    }

    proof fn lemma_agrees_refl(&self) {
        match *self {
            Section::Custom(x) => x.lemma_agrees_refl(),
            Section::Type(x) => x.lemma_agrees_refl(),
            Section::Import(x) => x.lemma_agrees_refl(),
            Section::Function(x) => x.lemma_agrees_refl(),
            Section::Table(x) => x.lemma_agrees_refl(),
            Section::Memory(x) => x.lemma_agrees_refl(),
            Section::Global(x) => x.lemma_agrees_refl(),
            Section::Export(x) => x.lemma_agrees_refl(),
            Section::Start(x) => x.lemma_agrees_refl(),
            Section::Element(x) => x.lemma_agrees_refl(),
            Section::Code(x) => x.lemma_agrees_refl(),
            Section::Data(x) => x.lemma_agrees_refl(),
        }
    }

    proof fn lemma_agrees_trans(&self, mid: Self, old: Self) {
        match (*self, mid, old) {
            (Section::Custom(x), Section::Custom(m), Section::Custom(o)) => x.lemma_agrees_trans(m, o),
            (Section::Type(x), Section::Type(m), Section::Type(o)) => x.lemma_agrees_trans(m, o),
            (Section::Import(x), Section::Import(m), Section::Import(o)) => x.lemma_agrees_trans(m, o),
            (Section::Function(x), Section::Function(m), Section::Function(o)) => x.lemma_agrees_trans(m, o),
            (Section::Table(x), Section::Table(m), Section::Table(o)) => x.lemma_agrees_trans(m, o),
            (Section::Memory(x), Section::Memory(m), Section::Memory(o)) => x.lemma_agrees_trans(m, o),
            (Section::Global(x), Section::Global(m), Section::Global(o)) => x.lemma_agrees_trans(m, o),
            (Section::Export(x), Section::Export(m), Section::Export(o)) => x.lemma_agrees_trans(m, o),
            (Section::Start(x), Section::Start(m), Section::Start(o)) => x.lemma_agrees_trans(m, o),
            (Section::Element(x), Section::Element(m), Section::Element(o)) => x.lemma_agrees_trans(m, o),
            (Section::Code(x), Section::Code(m), Section::Code(o)) => x.lemma_agrees_trans(m, o),
            (Section::Data(x), Section::Data(m), Section::Data(o)) => x.lemma_agrees_trans(m, o),
            _ => {},
        }
    }

    open spec fn decodable(&self) -> bool {
        match self {
            Section::Custom(x) => x.decodable(),
            Section::Type(x) => x.decodable(),
            Section::Import(x) => x.decodable(),
            Section::Function(x) => x.decodable(),
            Section::Table(x) => x.decodable(),
            Section::Memory(x) => x.decodable(),
            Section::Global(x) => x.decodable(),
            Section::Export(x) => x.decodable(),
            Section::Start(x) => x.decodable(),
            Section::Element(x) => x.decodable(),
            Section::Code(x) => x.decodable(),
            Section::Data(x) => x.decodable(),
        }
    }

    open spec fn func_ids(&self) -> Seq<FuncId> {
        match self {
            Section::Custom(x) => x.func_ids(),
            Section::Type(x) => x.func_ids(),
            Section::Import(x) => x.func_ids(),
            Section::Function(x) => x.func_ids(),
            Section::Table(x) => x.func_ids(),
            Section::Memory(x) => x.func_ids(),
            Section::Global(x) => x.func_ids(),
            Section::Export(x) => x.func_ids(),
            Section::Start(x) => x.func_ids(),
            Section::Element(x) => x.func_ids(),
            Section::Code(x) => x.func_ids(),
            Section::Data(x) => x.func_ids(),
        }
    }

    fn force_all(&mut self) -> (r: Result<(), DecodeError>) {
        match self {
            Section::Custom(x) => x.force_all(),
            Section::Type(x) => x.force_all(),
            Section::Import(x) => x.force_all(),
            Section::Function(x) => x.force_all(),
            Section::Table(x) => x.force_all(),
            Section::Memory(x) => x.force_all(),
            Section::Global(x) => x.force_all(),
            Section::Export(x) => x.force_all(),
            Section::Start(x) => x.force_all(),
            Section::Element(x) => x.force_all(),
            Section::Code(x) => x.force_all(),
            Section::Data(x) => x.force_all(),
        }
    }

    fn set_func_ids(&mut self, ids: &Vec<FuncId>, pos: usize) -> (r: usize) {
        match self {
            Section::Custom(x) => x.set_func_ids(ids, pos),
            Section::Type(x) => x.set_func_ids(ids, pos),
            Section::Import(x) => x.set_func_ids(ids, pos),
            Section::Function(x) => x.set_func_ids(ids, pos),
            Section::Table(x) => x.set_func_ids(ids, pos),
            Section::Memory(x) => x.set_func_ids(ids, pos),
            Section::Global(x) => x.set_func_ids(ids, pos),
            Section::Export(x) => x.set_func_ids(ids, pos),
            Section::Start(x) => x.set_func_ids(ids, pos),
            Section::Element(x) => x.set_func_ids(ids, pos),
            Section::Code(x) => x.set_func_ids(ids, pos),
            Section::Data(x) => x.set_func_ids(ids, pos),
        }
    }

    fn collect_func_ids(&self, out: &mut Vec<FuncId>) {
        match self {
            Section::Custom(x) => x.collect_func_ids(out),
            Section::Type(x) => x.collect_func_ids(out),
            Section::Import(x) => x.collect_func_ids(out),
            Section::Function(x) => x.collect_func_ids(out),
            Section::Table(x) => x.collect_func_ids(out),
            Section::Memory(x) => x.collect_func_ids(out),
            Section::Global(x) => x.collect_func_ids(out),
            Section::Export(x) => x.collect_func_ids(out),
            Section::Start(x) => x.collect_func_ids(out),
            Section::Element(x) => x.collect_func_ids(out),
            Section::Code(x) => x.collect_func_ids(out),
            Section::Data(x) => x.collect_func_ids(out),
        }
    }
}

/// Which variant a section is, without its payload. Ordered as the tag bytes
/// are.
#[derive(Debug, Clone, Copy, PartialEq, Eq, PartialOrd, Ord, Hash, Structural)]
pub enum Kind {
    Custom,
    Type,
    Import,
    Function,
    Table,
    Memory,
    Global,
    Export,
    Start,
    Element,
    Code,
    Data,
}

impl Kind {
    pub open spec fn spec_discriminant(self) -> u8 {
        match self {
            Kind::Custom => 0,
            Kind::Type => 1,
            Kind::Import => 2,
            Kind::Function => 3,
            Kind::Table => 4,
            Kind::Memory => 5,
            Kind::Global => 6,
            Kind::Export => 7,
            Kind::Start => 8,
            Kind::Element => 9,
            Kind::Code => 10,
            Kind::Data => 11,
        }
    }

    /// The tag byte of sections of this kind.
    pub fn discriminant(self) -> (r: u8)
        ensures
            r == self.spec_discriminant(),
    {
        match self {
            Kind::Custom => 0,
            Kind::Type => 1,
            Kind::Import => 2,
            Kind::Function => 3,
            Kind::Table => 4,
            Kind::Memory => 5,
            Kind::Global => 6,
            Kind::Export => 7,
            Kind::Start => 8,
            Kind::Element => 9,
            Kind::Code => 10,
            Kind::Data => 11,
        }
    }
}

impl Section {
    pub open spec fn spec_kind(&self) -> Kind {
        match self {
            Section::Custom(_) => Kind::Custom,
            Section::Type(_) => Kind::Type,
            Section::Import(_) => Kind::Import,
            Section::Function(_) => Kind::Function,
            Section::Table(_) => Kind::Table,
            Section::Memory(_) => Kind::Memory,
            Section::Global(_) => Kind::Global,
            Section::Export(_) => Kind::Export,
            Section::Start(_) => Kind::Start,
            Section::Element(_) => Kind::Element,
            Section::Code(_) => Kind::Code,
            Section::Data(_) => Kind::Data,
        }
    }

    /// The kind of this section; the payload is not looked at.
    pub fn kind(&self) -> (k: Kind)
        ensures
            k == self.spec_kind(),
    {
        match self {
            Section::Custom(_) => Kind::Custom,
            Section::Type(_) => Kind::Type,
            Section::Import(_) => Kind::Import,
            Section::Function(_) => Kind::Function,
            Section::Table(_) => Kind::Table,
            Section::Memory(_) => Kind::Memory,
            Section::Global(_) => Kind::Global,
            Section::Export(_) => Kind::Export,
            Section::Start(_) => Kind::Start,
            Section::Element(_) => Kind::Element,
            Section::Code(_) => Kind::Code,
            Section::Data(_) => Kind::Data,
        }
    }

    /// The payload, where this section holds one of type `T`.
    pub fn try_as<T: Payload>(&self) -> (r: Option<&Blob<T>>)
        ensures
            r matches Some(b) ==> T::from_section(*self) == Some(*b),
            r is None ==> T::from_section(*self) is None,
            r is Some <==> self.spec_kind() == T::spec_kind(),
    {
        proof {
            T::lemma_kind(*self);
        }
        T::try_from_ref(self)
    }

    /// The payload, where this section holds one of type `T`, for changing it.
    pub fn try_as_mut<T: Payload>(&mut self) -> (r: Option<&mut Blob<T>>)
        ensures
            r matches Some(b) ==> T::from_section(*old(self)) == Some(*b) && *final(self)
                == T::into_section(*final(b)),
            r is None ==> T::from_section(*old(self)) is None && *final(self) == *old(self),
            r is Some <==> old(self).spec_kind() == T::spec_kind(),
    {
        proof {
            T::lemma_kind(*self);
        }
        T::try_from_mut(self)
    }
}

/// The first byte of an encoded section is the tag of its kind.
pub proof fn lemma_section_tag(s: Section)
    ensures
        s.enc().len() > 0,
        s.enc()[0] == s.spec_kind().spec_discriminant(),
{
}

/// A type that a standard or custom section holds, with typed access to it.
pub trait Payload: WasmbinVisit {
    spec fn spec_kind() -> Kind;

    /// The payload of `s`, where it is of this type.
    spec fn from_section(s: Section) -> Option<Blob<Self>>;

    /// The section that holds `b`.
    spec fn into_section(b: Blob<Self>) -> Section;

    /// A section holds this type exactly when it is of this type's kind.
    proof fn lemma_kind(s: Section)
        ensures
            Self::from_section(s) is Some <==> s.spec_kind() == Self::spec_kind(),
            Self::from_section(s) matches Some(b) ==> Self::into_section(b) == s,
    ;

    /// Wrapping a payload and taking it out again gives it back.
    proof fn lemma_into(b: Blob<Self>)
        ensures
            Self::into_section(b).spec_kind() == Self::spec_kind(),
            Self::from_section(Self::into_section(b)) == Some(b),
    ;

    /// The kind of the sections that hold this type.
    fn kind() -> (k: Kind)
        ensures
            k == Self::spec_kind(),
    ;

    /// The section that holds `b`.
    fn wrap(b: Blob<Self>) -> (s: Section)
        ensures
            s == Self::into_section(b),
    ;

    fn try_from_ref(section: &Section) -> (r: Option<&Blob<Self>>)
        ensures
            r matches Some(b) ==> Self::from_section(*section) == Some(*b),
            r is None ==> Self::from_section(*section) is None,
    ;

    fn try_from_mut(section: &mut Section) -> (r: Option<&mut Blob<Self>>)
        ensures
            r matches Some(b) ==> Self::from_section(*old(section)) == Some(*b) && *final(section)
                == Self::into_section(*final(b)),
            r is None ==> Self::from_section(*old(section)) is None && *final(section) == *old(
                section,
            ),
    ;

    /// The payload, or the section itself, unchanged, where it holds another
    /// type.
    fn try_from(section: Section) -> (r: Result<Blob<Self>, Section>)
        ensures
            r matches Ok(b) ==> Self::from_section(section) == Some(b),
            r matches Err(s) ==> Self::from_section(section) is None && s == section,
    ;
}

/// The payload types of the standard sections: all but the custom section.
pub trait StdPayload: Payload {

}

/// Typed access agrees with the kind: a section yields a payload of type `T`
/// exactly when its kind is `T`'s kind, and wrapping that payload again gives
/// back the section.
pub proof fn lemma_accessor_symmetry<T: Payload>(s: Section)
    ensures
        T::from_section(s) is Some <==> s.spec_kind() == T::spec_kind(),
        T::from_section(s) matches Some(b) ==> T::into_section(b) == s,
{
    T::lemma_kind(s);
}

impl Payload for CustomSection {
    open spec fn spec_kind() -> Kind {
        Kind::Custom
    }

    open spec fn from_section(s: Section) -> Option<Blob<CustomSection>> {
        match s {
            Section::Custom(b) => Some(b),
            _ => None,
        }
    }

    open spec fn into_section(b: Blob<CustomSection>) -> Section {
        Section::Custom(b)
    }

    proof fn lemma_kind(s: Section) {
    }

    proof fn lemma_into(b: Blob<CustomSection>) {
    }

    fn kind() -> (k: Kind) {
        Kind::Custom
    }

    fn wrap(b: Blob<CustomSection>) -> (s: Section) {
        Section::Custom(b)
    }

    fn try_from_ref(section: &Section) -> (r: Option<&Blob<CustomSection>>) {
        match section {
            Section::Custom(b) => Some(b),
            _ => None,
        }
    }

    fn try_from_mut(section: &mut Section) -> (r: Option<&mut Blob<CustomSection>>) {
        match section {
            Section::Custom(b) => Some(b),
            _ => None,
        }
    }

    fn try_from(section: Section) -> (r: Result<Blob<CustomSection>, Section>) {
        match section {
            Section::Custom(b) => Ok(b),
            _ => Err(section),
        }
    }
}

impl Payload for Vec<FuncType> {
    open spec fn spec_kind() -> Kind {
        Kind::Type
    }

    open spec fn from_section(s: Section) -> Option<Blob<Vec<FuncType>>> {
        match s {
            Section::Type(b) => Some(b),
            _ => None,
        }
    }

    open spec fn into_section(b: Blob<Vec<FuncType>>) -> Section {
        Section::Type(b)
    }

    proof fn lemma_kind(s: Section) {
    }

    proof fn lemma_into(b: Blob<Vec<FuncType>>) {
    }

    fn kind() -> (k: Kind) {
        Kind::Type
    }

    fn wrap(b: Blob<Vec<FuncType>>) -> (s: Section) {
        Section::Type(b)
    }

    fn try_from_ref(section: &Section) -> (r: Option<&Blob<Vec<FuncType>>>) {
        match section {
            Section::Type(b) => Some(b),
            _ => None,
        }
    }

    fn try_from_mut(section: &mut Section) -> (r: Option<&mut Blob<Vec<FuncType>>>) {
        match section {
            Section::Type(b) => Some(b),
            _ => None,
        }
    }

    fn try_from(section: Section) -> (r: Result<Blob<Vec<FuncType>>, Section>) {
        match section {
            Section::Type(b) => Ok(b),
            _ => Err(section),
        }
    }
}

impl StdPayload for Vec<FuncType> {

}

impl Payload for Vec<Import> {
    open spec fn spec_kind() -> Kind {
        Kind::Import
    }

    open spec fn from_section(s: Section) -> Option<Blob<Vec<Import>>> {
        match s {
            Section::Import(b) => Some(b),
            _ => None,
        }
    }

    open spec fn into_section(b: Blob<Vec<Import>>) -> Section {
        Section::Import(b)
    }

    proof fn lemma_kind(s: Section) {
    }

    proof fn lemma_into(b: Blob<Vec<Import>>) {
    }

    fn kind() -> (k: Kind) {
        Kind::Import
    }

    fn wrap(b: Blob<Vec<Import>>) -> (s: Section) {
        Section::Import(b)
    }

    fn try_from_ref(section: &Section) -> (r: Option<&Blob<Vec<Import>>>) {
        match section {
            Section::Import(b) => Some(b),
            _ => None,
        }
    }

    fn try_from_mut(section: &mut Section) -> (r: Option<&mut Blob<Vec<Import>>>) {
        match section {
            Section::Import(b) => Some(b),
            _ => None,
        }
    }

    fn try_from(section: Section) -> (r: Result<Blob<Vec<Import>>, Section>) {
        match section {
            Section::Import(b) => Ok(b),
            _ => Err(section),
        }
    }
}

impl StdPayload for Vec<Import> {

}

impl Payload for Vec<TypeId> {
    open spec fn spec_kind() -> Kind {
        Kind::Function
    }

    open spec fn from_section(s: Section) -> Option<Blob<Vec<TypeId>>> {
        match s {
            Section::Function(b) => Some(b),
            _ => None,
        }
    }

    open spec fn into_section(b: Blob<Vec<TypeId>>) -> Section {
        Section::Function(b)
    }

    proof fn lemma_kind(s: Section) {
    }

    proof fn lemma_into(b: Blob<Vec<TypeId>>) {
    }

    fn kind() -> (k: Kind) {
        Kind::Function
    }

    fn wrap(b: Blob<Vec<TypeId>>) -> (s: Section) {
        Section::Function(b)
    }

    fn try_from_ref(section: &Section) -> (r: Option<&Blob<Vec<TypeId>>>) {
        match section {
            Section::Function(b) => Some(b),
            _ => None,
        }
    }

    fn try_from_mut(section: &mut Section) -> (r: Option<&mut Blob<Vec<TypeId>>>) {
        match section {
            Section::Function(b) => Some(b),
            _ => None,
        }
    }

    fn try_from(section: Section) -> (r: Result<Blob<Vec<TypeId>>, Section>) {
        match section {
            Section::Function(b) => Ok(b),
            _ => Err(section),
        }
    }
}

impl StdPayload for Vec<TypeId> {

}

impl Payload for Vec<TableType> {
    open spec fn spec_kind() -> Kind {
        Kind::Table
    }

    open spec fn from_section(s: Section) -> Option<Blob<Vec<TableType>>> {
        match s {
            Section::Table(b) => Some(b),
            _ => None,
        }
    }

    open spec fn into_section(b: Blob<Vec<TableType>>) -> Section {
        Section::Table(b)
    }

    proof fn lemma_kind(s: Section) {
    }

    proof fn lemma_into(b: Blob<Vec<TableType>>) {
    }

    fn kind() -> (k: Kind) {
        Kind::Table
    }

    fn wrap(b: Blob<Vec<TableType>>) -> (s: Section) {
        Section::Table(b)
    }

    fn try_from_ref(section: &Section) -> (r: Option<&Blob<Vec<TableType>>>) {
        match section {
            Section::Table(b) => Some(b),
            _ => None,
        }
    }

    fn try_from_mut(section: &mut Section) -> (r: Option<&mut Blob<Vec<TableType>>>) {
        match section {
            Section::Table(b) => Some(b),
            _ => None,
        }
    }

    fn try_from(section: Section) -> (r: Result<Blob<Vec<TableType>>, Section>) {
        match section {
            Section::Table(b) => Ok(b),
            _ => Err(section),
        }
    }
}

impl StdPayload for Vec<TableType> {

}

impl Payload for Vec<MemType> {
    open spec fn spec_kind() -> Kind {
        Kind::Memory
    }

    open spec fn from_section(s: Section) -> Option<Blob<Vec<MemType>>> {
        match s {
            Section::Memory(b) => Some(b),
            _ => None,
        }
    }

    open spec fn into_section(b: Blob<Vec<MemType>>) -> Section {
        Section::Memory(b)
    }

    proof fn lemma_kind(s: Section) {
    }

    proof fn lemma_into(b: Blob<Vec<MemType>>) {
    }

    fn kind() -> (k: Kind) {
        Kind::Memory
    }

    fn wrap(b: Blob<Vec<MemType>>) -> (s: Section) {
        Section::Memory(b)
    }

    fn try_from_ref(section: &Section) -> (r: Option<&Blob<Vec<MemType>>>) {
        match section {
            Section::Memory(b) => Some(b),
            _ => None,
        }
    }

    fn try_from_mut(section: &mut Section) -> (r: Option<&mut Blob<Vec<MemType>>>) {
        match section {
            Section::Memory(b) => Some(b),
            _ => None,
        }
    }

    fn try_from(section: Section) -> (r: Result<Blob<Vec<MemType>>, Section>) {
        match section {
            Section::Memory(b) => Ok(b),
            _ => Err(section),
        }
    }
}

impl StdPayload for Vec<MemType> {

}

impl Payload for Vec<Global> {
    open spec fn spec_kind() -> Kind {
        Kind::Global
    }

    open spec fn from_section(s: Section) -> Option<Blob<Vec<Global>>> {
        match s {
            Section::Global(b) => Some(b),
            _ => None,
        }
    }

    open spec fn into_section(b: Blob<Vec<Global>>) -> Section {
        Section::Global(b)
    }

    proof fn lemma_kind(s: Section) {
    }

    proof fn lemma_into(b: Blob<Vec<Global>>) {
    }

    fn kind() -> (k: Kind) {
        Kind::Global
    }

    fn wrap(b: Blob<Vec<Global>>) -> (s: Section) {
        Section::Global(b)
    }

    fn try_from_ref(section: &Section) -> (r: Option<&Blob<Vec<Global>>>) {
        match section {
            Section::Global(b) => Some(b),
            _ => None,
        }
    }

    fn try_from_mut(section: &mut Section) -> (r: Option<&mut Blob<Vec<Global>>>) {
        match section {
            Section::Global(b) => Some(b),
            _ => None,
        }
    }

    fn try_from(section: Section) -> (r: Result<Blob<Vec<Global>>, Section>) {
        match section {
            Section::Global(b) => Ok(b),
            _ => Err(section),
        }
    }
}

impl StdPayload for Vec<Global> {

}

impl Payload for Vec<Export> {
    open spec fn spec_kind() -> Kind {
        Kind::Export
    }

    open spec fn from_section(s: Section) -> Option<Blob<Vec<Export>>> {
        match s {
            Section::Export(b) => Some(b),
            _ => None,
        }
    }

    open spec fn into_section(b: Blob<Vec<Export>>) -> Section {
        Section::Export(b)
    }

    proof fn lemma_kind(s: Section) {
    }

    proof fn lemma_into(b: Blob<Vec<Export>>) {
    }

    fn kind() -> (k: Kind) {
        Kind::Export
    }

    fn wrap(b: Blob<Vec<Export>>) -> (s: Section) {
        Section::Export(b)
    }

    fn try_from_ref(section: &Section) -> (r: Option<&Blob<Vec<Export>>>) {
        match section {
            Section::Export(b) => Some(b),
            _ => None,
        }
    }

    fn try_from_mut(section: &mut Section) -> (r: Option<&mut Blob<Vec<Export>>>) {
        match section {
            Section::Export(b) => Some(b),
            _ => None,
        }
    }

    fn try_from(section: Section) -> (r: Result<Blob<Vec<Export>>, Section>) {
        match section {
            Section::Export(b) => Ok(b),
            _ => Err(section),
        }
    }
}

impl StdPayload for Vec<Export> {

}

impl Payload for FuncId {
    open spec fn spec_kind() -> Kind {
        Kind::Start
    }

    open spec fn from_section(s: Section) -> Option<Blob<FuncId>> {
        match s {
            Section::Start(b) => Some(b),
            _ => None,
        }
    }

    open spec fn into_section(b: Blob<FuncId>) -> Section {
        Section::Start(b)
    }

    proof fn lemma_kind(s: Section) {
    }

    proof fn lemma_into(b: Blob<FuncId>) {
    }

    fn kind() -> (k: Kind) {
        Kind::Start
    }

    fn wrap(b: Blob<FuncId>) -> (s: Section) {
        Section::Start(b)
    }

    fn try_from_ref(section: &Section) -> (r: Option<&Blob<FuncId>>) {
        match section {
            Section::Start(b) => Some(b),
            _ => None,
        }
    }

    fn try_from_mut(section: &mut Section) -> (r: Option<&mut Blob<FuncId>>) {
        match section {
            Section::Start(b) => Some(b),
            _ => None,
        }
    }

    fn try_from(section: Section) -> (r: Result<Blob<FuncId>, Section>) {
        match section {
            Section::Start(b) => Ok(b),
            _ => Err(section),
        }
    }
}

impl StdPayload for FuncId {

}

impl Payload for Vec<Element> {
    open spec fn spec_kind() -> Kind {
        Kind::Element
    }

    open spec fn from_section(s: Section) -> Option<Blob<Vec<Element>>> {
        match s {
            Section::Element(b) => Some(b),
            _ => None,
        }
    }

    open spec fn into_section(b: Blob<Vec<Element>>) -> Section {
        Section::Element(b)
    }

    proof fn lemma_kind(s: Section) {
    }

    proof fn lemma_into(b: Blob<Vec<Element>>) {
    }

    fn kind() -> (k: Kind) {
        Kind::Element
    }

    fn wrap(b: Blob<Vec<Element>>) -> (s: Section) {
        Section::Element(b)
    }

    fn try_from_ref(section: &Section) -> (r: Option<&Blob<Vec<Element>>>) {
        match section {
            Section::Element(b) => Some(b),
            _ => None,
        }
    }

    fn try_from_mut(section: &mut Section) -> (r: Option<&mut Blob<Vec<Element>>>) {
        match section {
            Section::Element(b) => Some(b),
            _ => None,
        }
    }

    fn try_from(section: Section) -> (r: Result<Blob<Vec<Element>>, Section>) {
        match section {
            Section::Element(b) => Ok(b),
            _ => Err(section),
        }
    }
}

impl StdPayload for Vec<Element> {

}

impl Payload for Vec<Blob<Func>> {
    open spec fn spec_kind() -> Kind {
        Kind::Code
    }

    open spec fn from_section(s: Section) -> Option<Blob<Vec<Blob<Func>>>> {
        match s {
            Section::Code(b) => Some(b),
            _ => None,
        }
    }

    open spec fn into_section(b: Blob<Vec<Blob<Func>>>) -> Section {
        Section::Code(b)
    }

    proof fn lemma_kind(s: Section) {
    }

    proof fn lemma_into(b: Blob<Vec<Blob<Func>>>) {
    }

    fn kind() -> (k: Kind) {
        Kind::Code
    }

    fn wrap(b: Blob<Vec<Blob<Func>>>) -> (s: Section) {
        Section::Code(b)
    }

    fn try_from_ref(section: &Section) -> (r: Option<&Blob<Vec<Blob<Func>>>>) {
        match section {
            Section::Code(b) => Some(b),
            _ => None,
        }
    }

    fn try_from_mut(section: &mut Section) -> (r: Option<&mut Blob<Vec<Blob<Func>>>>) {
        match section {
            Section::Code(b) => Some(b),
            _ => None,
        }
    }

    fn try_from(section: Section) -> (r: Result<Blob<Vec<Blob<Func>>>, Section>) {
        match section {
            Section::Code(b) => Ok(b),
            _ => Err(section),
        }
    }
}

impl StdPayload for Vec<Blob<Func>> {

}

impl Payload for Vec<Data> {
    open spec fn spec_kind() -> Kind {
        Kind::Data
    }

    open spec fn from_section(s: Section) -> Option<Blob<Vec<Data>>> {
        match s {
            Section::Data(b) => Some(b),
            _ => None,
        }
    }

    open spec fn into_section(b: Blob<Vec<Data>>) -> Section {
        Section::Data(b)
    }

    proof fn lemma_kind(s: Section) {
    }

    proof fn lemma_into(b: Blob<Vec<Data>>) {
    }

    fn kind() -> (k: Kind) {
        Kind::Data
    }

    fn wrap(b: Blob<Vec<Data>>) -> (s: Section) {
        Section::Data(b)
    }

    fn try_from_ref(section: &Section) -> (r: Option<&Blob<Vec<Data>>>) {
        match section {
            Section::Data(b) => Some(b),
            _ => None,
        }
    }

    fn try_from_mut(section: &mut Section) -> (r: Option<&mut Blob<Vec<Data>>>) {
        match section {
            Section::Data(b) => Some(b),
            _ => None,
        }
    }

    fn try_from(section: Section) -> (r: Result<Blob<Vec<Data>>, Section>) {
        match section {
            Section::Data(b) => Ok(b),
            _ => Err(section),
        }
    }
}

impl StdPayload for Vec<Data> {

}
} // verus!
