//! Types of values, functions, tables, memories and globals, and constant
//! expressions. Their inner rules belong to the instruction and type
//! sub-language; here they are carried with the simplest faithful encoding.
use vstd::prelude::*;
use crate::codec::{Codec, bytes_at, lemma_join};
use crate::error::DecodeError;
use crate::indices::FuncId;
use crate::visit::WasmbinVisit;

verus! {

/// The type of a value, by its one-byte code.
#[derive(Debug, Clone, PartialEq, Eq, Hash)]
pub struct ValueType {
    pub code: u8,
}

impl Codec for ValueType {
    open spec fn enc(&self) -> Seq<u8> {
        self.code.enc()
    }

    open spec fn is_tail() -> bool {
        <u8>::is_tail()
    }

    open spec fn rejects(data: Seq<u8>, pos: int, e: DecodeError) -> bool {
        false
    }

    open spec fn fits(&self) -> bool {
        &&& self.code.fits()
    }

    fn encode(&self, out: &mut Vec<u8>) {
        self.code.encode(out);
        assert(out@ =~= old(out)@ + self.enc());
    }

    fn decode(data: &[u8], pos: usize) -> (r: Result<(ValueType, usize), DecodeError>) {
        proof {
            assert forall|v: ValueType| #[trigger] bytes_at(data@, pos as int, v.enc(), v.fits(),
                <ValueType>::is_tail())
                implies bytes_at(
                data@,
                pos as int,
                v.code.enc(),
                v.code.fits(),
                <u8>::is_tail(),
            ) by {
                let off: int = 0;
                let b: int = v.code.enc().len() as int;
                assert(data@.subrange(pos as int, pos + b) =~= v.enc().subrange(off, off + b));
                assert(v.enc().subrange(off, off + b) =~= v.code.enc());
            }
        }
        let (code, p0) = <u8>::decode(data, pos)?;
        proof {
            assert forall|v: ValueType| #[trigger] bytes_at(data@, pos as int, v.enc(), v.fits(),
                <ValueType>::is_tail())
                implies p0 == pos + v.enc().len() by {
                assert(bytes_at(data@, pos as int, v.code.enc(), v.code.fits(), <u8>::is_tail()));
            }
        }
        Ok((ValueType { code }, p0))
    }
}

impl WasmbinVisit for ValueType {
    open spec fn is_forced(&self) -> bool {
        self.code.is_forced()
    }

    open spec fn agrees(&self, old: Self) -> bool {
        self.code.agrees(old.code)
    }

    proof fn lemma_agrees_refl(&self) {
        self.code.lemma_agrees_refl();
    }

    proof fn lemma_agrees_trans(&self, mid: Self, old: Self) {
        self.code.lemma_agrees_trans(mid.code, old.code);
    }

    open spec fn decodable(&self) -> bool {
        self.code.decodable()
    }

    open spec fn func_ids(&self) -> Seq<FuncId> {
        self.code.func_ids()
    }

    fn force_all(&mut self) -> (r: Result<(), DecodeError>) {
        self.code.force_all()?;
        Ok(())
    }

    fn set_func_ids(&mut self, ids: &Vec<FuncId>, pos: usize) -> (r: usize) {
        let p0 = self.code.set_func_ids(ids, pos);
        assert(self.func_ids() =~= ids@.subrange(pos as int, p0 as int));
        p0
    }

    fn collect_func_ids(&self, out: &mut Vec<FuncId>) {
        self.code.collect_func_ids(out);
        assert(out@ =~= old(out)@ + self.func_ids());
    }
}

/// The type of a function: its parameter and result types.
#[derive(Debug, Clone, PartialEq, Eq, Hash)]
pub struct FuncType {
    pub params: Vec<ValueType>,
    pub results: Vec<ValueType>,
}

impl Codec for FuncType {
    open spec fn enc(&self) -> Seq<u8> {
        self.params.enc() + self.results.enc()
    }

    open spec fn is_tail() -> bool {
        <Vec<ValueType>>::is_tail()
    }

    open spec fn rejects(data: Seq<u8>, pos: int, e: DecodeError) -> bool {
        false
    }

    open spec fn fits(&self) -> bool {
        &&& self.params.fits()
        &&& self.results.fits()
        &&& !<Vec<ValueType>>::is_tail()
    }

    fn encode(&self, out: &mut Vec<u8>) {
        self.params.encode(out);
        self.results.encode(out);
        assert(out@ =~= old(out)@ + self.enc());
    }

    fn decode(data: &[u8], pos: usize) -> (r: Result<(FuncType, usize), DecodeError>) {
        proof {
            assert forall|v: FuncType| #[trigger] bytes_at(data@, pos as int, v.enc(), v.fits(),
                <FuncType>::is_tail())
                implies bytes_at(
                data@,
                pos as int,
                v.params.enc(),
                v.params.fits(),
                <Vec<ValueType>>::is_tail(),
            ) by {
                let off: int = 0;
                let b: int = v.params.enc().len() as int;
                assert(data@.subrange(pos as int, pos + b) =~= v.enc().subrange(off, off + b));
                assert(v.enc().subrange(off, off + b) =~= v.params.enc());
            }
        }
        let (params, p0) = <Vec<ValueType>>::decode(data, pos)?;
        proof {
            assert forall|v: FuncType| #[trigger] bytes_at(data@, pos as int, v.enc(), v.fits(),
                <FuncType>::is_tail())
                implies bytes_at(
                data@,
                p0 as int,
                v.results.enc(),
                v.results.fits(),
                <Vec<ValueType>>::is_tail(),
            ) && p0 == pos + v.params.enc().len() by {
                assert(bytes_at(data@, pos as int, v.params.enc(), v.params.fits(),
                    <Vec<ValueType>>::is_tail()));
                let off: int = v.params.enc().len() as int;
                let b: int = v.results.enc().len() as int;
                assert(data@.subrange(p0 as int, p0 + b) =~= v.enc().subrange(off, off + b));
                assert(v.enc().subrange(off, off + b) =~= v.results.enc());
            }
        }
        let (results, p1) = <Vec<ValueType>>::decode(data, p0)?;
        proof {
            lemma_join(data@, pos as int, p0 as int, p1 as int);
            assert forall|v: FuncType| #[trigger] bytes_at(data@, pos as int, v.enc(), v.fits(),
                <FuncType>::is_tail())
                implies p1 == pos
                + v.enc().len() by {
                assert(bytes_at(data@, p0 as int, v.results.enc(), v.results.fits(),
                    <Vec<ValueType>>::is_tail()));
            }
        }
        Ok((FuncType { params, results }, p1))
    }
}

impl WasmbinVisit for FuncType {
    open spec fn is_forced(&self) -> bool {
        self.params.is_forced()
        && self.results.is_forced()
    }

    open spec fn agrees(&self, old: Self) -> bool {
        self.params.agrees(old.params)
        && self.results.agrees(old.results)
    }

    proof fn lemma_agrees_refl(&self) {
        self.params.lemma_agrees_refl();
        self.results.lemma_agrees_refl();
    }

    proof fn lemma_agrees_trans(&self, mid: Self, old: Self) {
        self.params.lemma_agrees_trans(mid.params, old.params);
        self.results.lemma_agrees_trans(mid.results, old.results);
    }

    open spec fn decodable(&self) -> bool {
        self.params.decodable()
        && self.results.decodable()
    }

    open spec fn func_ids(&self) -> Seq<FuncId> {
        self.params.func_ids() + self.results.func_ids()
    }

    fn force_all(&mut self) -> (r: Result<(), DecodeError>) {
        proof {
            self.params.lemma_agrees_refl();
            self.results.lemma_agrees_refl();
        }
        self.params.force_all()?;
        self.results.force_all()?;
        Ok(())
    }

    fn set_func_ids(&mut self, ids: &Vec<FuncId>, pos: usize) -> (r: usize) {
        let p0 = self.params.set_func_ids(ids, pos);
        let p1 = self.results.set_func_ids(ids, p0);
        assert(self.func_ids() =~= ids@.subrange(pos as int, p1 as int));
        p1
    }

    fn collect_func_ids(&self, out: &mut Vec<FuncId>) {
        self.params.collect_func_ids(out);
        self.results.collect_func_ids(out);
        assert(out@ =~= old(out)@ + self.func_ids());
    }
}

/// A size range: a minimum and an optional maximum.
#[derive(Debug, Clone, PartialEq, Eq, Hash)]
pub struct Limits {
    pub min: u32,
    pub max: Option<u32>,
}

impl Codec for Limits {
    open spec fn enc(&self) -> Seq<u8> {
        self.min.enc() + self.max.enc()
    }

    open spec fn is_tail() -> bool {
        <Option<u32>>::is_tail()
    }

    open spec fn rejects(data: Seq<u8>, pos: int, e: DecodeError) -> bool {
        false
    }

    open spec fn fits(&self) -> bool {
        &&& self.min.fits()
        &&& self.max.fits()
        &&& !<u32>::is_tail()
    }

    fn encode(&self, out: &mut Vec<u8>) {
        self.min.encode(out);
        self.max.encode(out);
        assert(out@ =~= old(out)@ + self.enc());
    }

    fn decode(data: &[u8], pos: usize) -> (r: Result<(Limits, usize), DecodeError>) {
        proof {
            assert forall|v: Limits| #[trigger] bytes_at(data@, pos as int, v.enc(), v.fits(),
                <Limits>::is_tail())
                implies bytes_at(
                data@,
                pos as int,
                v.min.enc(),
                v.min.fits(),
                <u32>::is_tail(),
            ) by {
                let off: int = 0;
                let b: int = v.min.enc().len() as int;
                assert(data@.subrange(pos as int, pos + b) =~= v.enc().subrange(off, off + b));
                assert(v.enc().subrange(off, off + b) =~= v.min.enc());
            }
        }
        let (min, p0) = <u32>::decode(data, pos)?;
        proof {
            assert forall|v: Limits| #[trigger] bytes_at(data@, pos as int, v.enc(), v.fits(),
                <Limits>::is_tail())
                implies bytes_at(
                data@,
                p0 as int,
                v.max.enc(),
                v.max.fits(),
                <Option<u32>>::is_tail(),
            ) && p0 == pos + v.min.enc().len() by {
                assert(bytes_at(data@, pos as int, v.min.enc(), v.min.fits(), <u32>::is_tail()));
                let off: int = v.min.enc().len() as int;
                let b: int = v.max.enc().len() as int;
                assert(data@.subrange(p0 as int, p0 + b) =~= v.enc().subrange(off, off + b));
                assert(v.enc().subrange(off, off + b) =~= v.max.enc());
            }
        }
        let (max, p1) = <Option<u32>>::decode(data, p0)?;
        proof {
            lemma_join(data@, pos as int, p0 as int, p1 as int);
            assert forall|v: Limits| #[trigger] bytes_at(data@, pos as int, v.enc(), v.fits(),
                <Limits>::is_tail())
                implies p1 == pos
                + v.enc().len() by {
                assert(bytes_at(data@, p0 as int, v.max.enc(), v.max.fits(),
                    <Option<u32>>::is_tail()));
            }
        }
        Ok((Limits { min, max }, p1))
    }
}

impl WasmbinVisit for Limits {
    open spec fn is_forced(&self) -> bool {
        self.min.is_forced()
        && self.max.is_forced()
    }

    open spec fn agrees(&self, old: Self) -> bool {
        self.min.agrees(old.min)
        && self.max.agrees(old.max)
    }

    proof fn lemma_agrees_refl(&self) {
        self.min.lemma_agrees_refl();
        self.max.lemma_agrees_refl();
    }

    proof fn lemma_agrees_trans(&self, mid: Self, old: Self) {
        self.min.lemma_agrees_trans(mid.min, old.min);
        self.max.lemma_agrees_trans(mid.max, old.max);
    }

    open spec fn decodable(&self) -> bool {
        self.min.decodable()
        && self.max.decodable()
    }

    open spec fn func_ids(&self) -> Seq<FuncId> {
        self.min.func_ids() + self.max.func_ids()
    }

    fn force_all(&mut self) -> (r: Result<(), DecodeError>) {
        proof {
            self.min.lemma_agrees_refl();
            self.max.lemma_agrees_refl();
        }
        self.min.force_all()?;
        self.max.force_all()?;
        Ok(())
    }

    fn set_func_ids(&mut self, ids: &Vec<FuncId>, pos: usize) -> (r: usize) {
        let p0 = self.min.set_func_ids(ids, pos);
        let p1 = self.max.set_func_ids(ids, p0);
        assert(self.func_ids() =~= ids@.subrange(pos as int, p1 as int));
        p1
    }

    fn collect_func_ids(&self, out: &mut Vec<FuncId>) {
        self.min.collect_func_ids(out);
        self.max.collect_func_ids(out);
        assert(out@ =~= old(out)@ + self.func_ids());
    }
}

/// The type of a table: its element type and size range.
#[derive(Debug, Clone, PartialEq, Eq, Hash)]
pub struct TableType {
    pub elem_type: ValueType,
    pub limits: Limits,
}

impl Codec for TableType {
    open spec fn enc(&self) -> Seq<u8> {
        self.elem_type.enc() + self.limits.enc()
    }

    open spec fn is_tail() -> bool {
        <Limits>::is_tail()
    }

    open spec fn rejects(data: Seq<u8>, pos: int, e: DecodeError) -> bool {
        false
    }

    open spec fn fits(&self) -> bool {
        &&& self.elem_type.fits()
        &&& self.limits.fits()
        &&& !<ValueType>::is_tail()
    }

    fn encode(&self, out: &mut Vec<u8>) {
        self.elem_type.encode(out);
        self.limits.encode(out);
        assert(out@ =~= old(out)@ + self.enc());
    }

    fn decode(data: &[u8], pos: usize) -> (r: Result<(TableType, usize), DecodeError>) {
        proof {
            assert forall|v: TableType| #[trigger] bytes_at(data@, pos as int, v.enc(), v.fits(),
                <TableType>::is_tail())
                implies bytes_at(
                data@,
                pos as int,
                v.elem_type.enc(),
                v.elem_type.fits(),
                <ValueType>::is_tail(),
            ) by {
                let off: int = 0;
                let b: int = v.elem_type.enc().len() as int;
                assert(data@.subrange(pos as int, pos + b) =~= v.enc().subrange(off, off + b));
                assert(v.enc().subrange(off, off + b) =~= v.elem_type.enc());
            }
        }
        let (elem_type, p0) = <ValueType>::decode(data, pos)?;
        proof {
            assert forall|v: TableType| #[trigger] bytes_at(data@, pos as int, v.enc(), v.fits(),
                <TableType>::is_tail())
                implies bytes_at(
                data@,
                p0 as int,
                v.limits.enc(),
                v.limits.fits(),
                <Limits>::is_tail(),
            ) && p0 == pos + v.elem_type.enc().len() by {
                assert(bytes_at(data@, pos as int, v.elem_type.enc(), v.elem_type.fits(),
                    <ValueType>::is_tail()));
                let off: int = v.elem_type.enc().len() as int;
                let b: int = v.limits.enc().len() as int;
                assert(data@.subrange(p0 as int, p0 + b) =~= v.enc().subrange(off, off + b));
                assert(v.enc().subrange(off, off + b) =~= v.limits.enc());
            }
        }
        let (limits, p1) = <Limits>::decode(data, p0)?;
        proof {
            lemma_join(data@, pos as int, p0 as int, p1 as int);
            assert forall|v: TableType| #[trigger] bytes_at(data@, pos as int, v.enc(), v.fits(),
                <TableType>::is_tail())
                implies p1 == pos
                + v.enc().len() by {
                assert(bytes_at(data@, p0 as int, v.limits.enc(), v.limits.fits(),
                    <Limits>::is_tail()));
            }
        }
        Ok((TableType { elem_type, limits }, p1))
    }
}

impl WasmbinVisit for TableType {
    open spec fn is_forced(&self) -> bool {
        self.elem_type.is_forced()
        && self.limits.is_forced()
    }

    open spec fn agrees(&self, old: Self) -> bool {
        self.elem_type.agrees(old.elem_type)
        && self.limits.agrees(old.limits)
    }

    proof fn lemma_agrees_refl(&self) {
        self.elem_type.lemma_agrees_refl();
        self.limits.lemma_agrees_refl();
    }

    proof fn lemma_agrees_trans(&self, mid: Self, old: Self) {
        self.elem_type.lemma_agrees_trans(mid.elem_type, old.elem_type);
        self.limits.lemma_agrees_trans(mid.limits, old.limits);
    }

    open spec fn decodable(&self) -> bool {
        self.elem_type.decodable()
        && self.limits.decodable()
    }

    open spec fn func_ids(&self) -> Seq<FuncId> {
        self.elem_type.func_ids() + self.limits.func_ids()
    }

    fn force_all(&mut self) -> (r: Result<(), DecodeError>) {
        proof {
            self.elem_type.lemma_agrees_refl();
            self.limits.lemma_agrees_refl();
        }
        self.elem_type.force_all()?;
        self.limits.force_all()?;
        Ok(())
    }

    fn set_func_ids(&mut self, ids: &Vec<FuncId>, pos: usize) -> (r: usize) {
        let p0 = self.elem_type.set_func_ids(ids, pos);
        let p1 = self.limits.set_func_ids(ids, p0);
        assert(self.func_ids() =~= ids@.subrange(pos as int, p1 as int));
        p1
    }

    fn collect_func_ids(&self, out: &mut Vec<FuncId>) {
        self.elem_type.collect_func_ids(out);
        self.limits.collect_func_ids(out);
        assert(out@ =~= old(out)@ + self.func_ids());
    }
}

/// The type of a memory: its size range in pages.
#[derive(Debug, Clone, PartialEq, Eq, Hash)]
pub struct MemType {
    pub limits: Limits,
}

impl Codec for MemType {
    open spec fn enc(&self) -> Seq<u8> {
        self.limits.enc()
    }

    open spec fn is_tail() -> bool {
        <Limits>::is_tail()
    }

    open spec fn rejects(data: Seq<u8>, pos: int, e: DecodeError) -> bool {
        false
    }

    open spec fn fits(&self) -> bool {
        &&& self.limits.fits()
    }

    fn encode(&self, out: &mut Vec<u8>) {
        self.limits.encode(out);
        assert(out@ =~= old(out)@ + self.enc());
    }

    fn decode(data: &[u8], pos: usize) -> (r: Result<(MemType, usize), DecodeError>) {
        proof {
            assert forall|v: MemType| #[trigger] bytes_at(data@, pos as int, v.enc(), v.fits(),
                <MemType>::is_tail())
                implies bytes_at(
                data@,
                pos as int,
                v.limits.enc(),
                v.limits.fits(),
                <Limits>::is_tail(),
            ) by {
                let off: int = 0;
                let b: int = v.limits.enc().len() as int;
                assert(data@.subrange(pos as int, pos + b) =~= v.enc().subrange(off, off + b));
                assert(v.enc().subrange(off, off + b) =~= v.limits.enc());
            }
        }
        let (limits, p0) = <Limits>::decode(data, pos)?;
        proof {
            assert forall|v: MemType| #[trigger] bytes_at(data@, pos as int, v.enc(), v.fits(),
                <MemType>::is_tail())
                implies p0 == pos + v.enc().len() by {
                assert(bytes_at(data@, pos as int, v.limits.enc(), v.limits.fits(),
                    <Limits>::is_tail()));
            }
        }
        Ok((MemType { limits }, p0))
    }
}

impl WasmbinVisit for MemType {
    open spec fn is_forced(&self) -> bool {
        self.limits.is_forced()
    }

    open spec fn agrees(&self, old: Self) -> bool {
        self.limits.agrees(old.limits)
    }

    proof fn lemma_agrees_refl(&self) {
        self.limits.lemma_agrees_refl();
    }

    proof fn lemma_agrees_trans(&self, mid: Self, old: Self) {
        self.limits.lemma_agrees_trans(mid.limits, old.limits);
    }

    open spec fn decodable(&self) -> bool {
        self.limits.decodable()
    }

    open spec fn func_ids(&self) -> Seq<FuncId> {
        self.limits.func_ids()
    }

    fn force_all(&mut self) -> (r: Result<(), DecodeError>) {
        self.limits.force_all()?;
        Ok(())
    }

    fn set_func_ids(&mut self, ids: &Vec<FuncId>, pos: usize) -> (r: usize) {
        let p0 = self.limits.set_func_ids(ids, pos);
        assert(self.func_ids() =~= ids@.subrange(pos as int, p0 as int));
        p0
    }

    fn collect_func_ids(&self, out: &mut Vec<FuncId>) {
        self.limits.collect_func_ids(out);
        assert(out@ =~= old(out)@ + self.func_ids());
    }
}

/// The type of a global: its value type and whether it may change.
#[derive(Debug, Clone, PartialEq, Eq, Hash)]
pub struct GlobalType {
    pub value_type: ValueType,
    pub mutable: bool,
}

impl Codec for GlobalType {
    open spec fn enc(&self) -> Seq<u8> {
        self.value_type.enc() + self.mutable.enc()
    }

    open spec fn is_tail() -> bool {
        <bool>::is_tail()
    }

    open spec fn rejects(data: Seq<u8>, pos: int, e: DecodeError) -> bool {
        false
    }

    open spec fn fits(&self) -> bool {
        &&& self.value_type.fits()
        &&& self.mutable.fits()
        &&& !<ValueType>::is_tail()
    }

    fn encode(&self, out: &mut Vec<u8>) {
        self.value_type.encode(out);
        self.mutable.encode(out);
        assert(out@ =~= old(out)@ + self.enc());
    }

    fn decode(data: &[u8], pos: usize) -> (r: Result<(GlobalType, usize), DecodeError>) {
        proof {
            assert forall|v: GlobalType| #[trigger] bytes_at(data@, pos as int, v.enc(), v.fits(),
                <GlobalType>::is_tail())
                implies bytes_at(
                data@,
                pos as int,
                v.value_type.enc(),
                v.value_type.fits(),
                <ValueType>::is_tail(),
            ) by {
                let off: int = 0;
                let b: int = v.value_type.enc().len() as int;
                assert(data@.subrange(pos as int, pos + b) =~= v.enc().subrange(off, off + b));
                assert(v.enc().subrange(off, off + b) =~= v.value_type.enc());
            }
        }
        let (value_type, p0) = <ValueType>::decode(data, pos)?;
        proof {
            assert forall|v: GlobalType| #[trigger] bytes_at(data@, pos as int, v.enc(), v.fits(),
                <GlobalType>::is_tail())
                implies bytes_at(
                data@,
                p0 as int,
                v.mutable.enc(),
                v.mutable.fits(),
                <bool>::is_tail(),
            ) && p0 == pos + v.value_type.enc().len() by {
                assert(bytes_at(data@, pos as int, v.value_type.enc(), v.value_type.fits(),
                    <ValueType>::is_tail()));
                let off: int = v.value_type.enc().len() as int;
                let b: int = v.mutable.enc().len() as int;
                assert(data@.subrange(p0 as int, p0 + b) =~= v.enc().subrange(off, off + b));
                assert(v.enc().subrange(off, off + b) =~= v.mutable.enc());
            }
        }
        let (mutable, p1) = <bool>::decode(data, p0)?;
        proof {
            lemma_join(data@, pos as int, p0 as int, p1 as int);
            assert forall|v: GlobalType| #[trigger] bytes_at(data@, pos as int, v.enc(), v.fits(),
                <GlobalType>::is_tail())
                implies p1 == pos
                + v.enc().len() by {
                assert(bytes_at(data@, p0 as int, v.mutable.enc(), v.mutable.fits(),
                    <bool>::is_tail()));
            }
        }
        Ok((GlobalType { value_type, mutable }, p1))
    }
}

impl WasmbinVisit for GlobalType {
    open spec fn is_forced(&self) -> bool {
        self.value_type.is_forced()
        && self.mutable.is_forced()
    }

    open spec fn agrees(&self, old: Self) -> bool {
        self.value_type.agrees(old.value_type)
        && self.mutable.agrees(old.mutable)
    }

    proof fn lemma_agrees_refl(&self) {
        self.value_type.lemma_agrees_refl();
        self.mutable.lemma_agrees_refl();
    }

    proof fn lemma_agrees_trans(&self, mid: Self, old: Self) {
        self.value_type.lemma_agrees_trans(mid.value_type, old.value_type);
        self.mutable.lemma_agrees_trans(mid.mutable, old.mutable);
    }

    open spec fn decodable(&self) -> bool {
        self.value_type.decodable()
        && self.mutable.decodable()
    }

    open spec fn func_ids(&self) -> Seq<FuncId> {
        self.value_type.func_ids() + self.mutable.func_ids()
    }

    fn force_all(&mut self) -> (r: Result<(), DecodeError>) {
        proof {
            self.value_type.lemma_agrees_refl();
            self.mutable.lemma_agrees_refl();
        }
        self.value_type.force_all()?;
        self.mutable.force_all()?;
        Ok(())
    }

    fn set_func_ids(&mut self, ids: &Vec<FuncId>, pos: usize) -> (r: usize) {
        let p0 = self.value_type.set_func_ids(ids, pos);
        let p1 = self.mutable.set_func_ids(ids, p0);
        assert(self.func_ids() =~= ids@.subrange(pos as int, p1 as int));
        p1
    }

    fn collect_func_ids(&self, out: &mut Vec<FuncId>) {
        self.value_type.collect_func_ids(out);
        self.mutable.collect_func_ids(out);
        assert(out@ =~= old(out)@ + self.func_ids());
    }
}

/// A constant expression, kept as its instruction bytes.
#[derive(Debug, Clone, PartialEq, Eq, Hash)]
pub struct Expression {
    pub bytes: Vec<u8>,
}

impl Codec for Expression {
    open spec fn enc(&self) -> Seq<u8> {
        self.bytes.enc()
    }

    open spec fn is_tail() -> bool {
        <Vec<u8>>::is_tail()
    }

    open spec fn rejects(data: Seq<u8>, pos: int, e: DecodeError) -> bool {
        false
    }

    open spec fn fits(&self) -> bool {
        &&& self.bytes.fits()
    }

    fn encode(&self, out: &mut Vec<u8>) {
        self.bytes.encode(out);
        assert(out@ =~= old(out)@ + self.enc());
    }

    fn decode(data: &[u8], pos: usize) -> (r: Result<(Expression, usize), DecodeError>) {
        proof {
            assert forall|v: Expression| #[trigger] bytes_at(data@, pos as int, v.enc(), v.fits(),
                <Expression>::is_tail())
                implies bytes_at(
                data@,
                pos as int,
                v.bytes.enc(),
                v.bytes.fits(),
                <Vec<u8>>::is_tail(),
            ) by {
                let off: int = 0;
                let b: int = v.bytes.enc().len() as int;
                assert(data@.subrange(pos as int, pos + b) =~= v.enc().subrange(off, off + b));
                assert(v.enc().subrange(off, off + b) =~= v.bytes.enc());
            }
        }
        let (bytes, p0) = <Vec<u8>>::decode(data, pos)?;
        proof {
            assert forall|v: Expression| #[trigger] bytes_at(data@, pos as int, v.enc(), v.fits(),
                <Expression>::is_tail())
                implies p0 == pos + v.enc().len() by {
                assert(bytes_at(data@, pos as int, v.bytes.enc(), v.bytes.fits(),
                    <Vec<u8>>::is_tail()));
            }
        }
        Ok((Expression { bytes }, p0))
    }
}

impl WasmbinVisit for Expression {
    open spec fn is_forced(&self) -> bool {
        self.bytes.is_forced()
    }

    open spec fn agrees(&self, old: Self) -> bool {
        self.bytes.agrees(old.bytes)
    }

    proof fn lemma_agrees_refl(&self) {
        self.bytes.lemma_agrees_refl();
    }

    proof fn lemma_agrees_trans(&self, mid: Self, old: Self) {
        self.bytes.lemma_agrees_trans(mid.bytes, old.bytes);
    }

    open spec fn decodable(&self) -> bool {
        self.bytes.decodable()
    }

    open spec fn func_ids(&self) -> Seq<FuncId> {
        self.bytes.func_ids()
    }

    fn force_all(&mut self) -> (r: Result<(), DecodeError>) {
        self.bytes.force_all()?;
        Ok(())
    }

    fn set_func_ids(&mut self, ids: &Vec<FuncId>, pos: usize) -> (r: usize) {
        let p0 = self.bytes.set_func_ids(ids, pos);
        assert(self.func_ids() =~= ids@.subrange(pos as int, p0 as int));
        p0
    }

    fn collect_func_ids(&self, out: &mut Vec<FuncId>) {
        self.bytes.collect_func_ids(out);
        assert(out@ =~= old(out)@ + self.func_ids());
    }
}
} // verus!
