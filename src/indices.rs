//! Indices into the index spaces of a module.
use vstd::prelude::*;
use crate::codec::{Codec, bytes_at};
use crate::error::DecodeError;
use crate::visit::WasmbinVisit;

verus! {

/// The index of a function type.
#[derive(Debug, Clone, Copy, PartialEq, Eq, PartialOrd, Ord, Hash, Structural)]
pub struct TypeId {
    pub index: u32,
}

impl Codec for TypeId {
    open spec fn enc(&self) -> Seq<u8> {
        self.index.enc()
    }

    fn encode(&self, out: &mut Vec<u8>) {
        self.index.encode(out);
    }

    open spec fn is_tail() -> bool {
        false
    }

    open spec fn rejects(data: Seq<u8>, pos: int, e: DecodeError) -> bool {
        false
    }

    open spec fn fits(&self) -> bool {
        true
    }

    fn decode(data: &[u8], pos: usize) -> (r: Result<(TypeId, usize), DecodeError>) {
        proof {
            assert forall|v: TypeId| #[trigger] bytes_at(data@, pos as int, v.enc(), v.fits(),
                <TypeId>::is_tail())
                implies bytes_at(data@, pos as int, v.index.enc(), v.index.fits(),
                    <u32>::is_tail()) by {}
        }
        let (index, end) = u32::decode(data, pos)?;
        Ok((TypeId { index }, end))
    }
}

impl WasmbinVisit for TypeId {
    open spec fn is_forced(&self) -> bool {
        true
    }

    open spec fn agrees(&self, old: Self) -> bool {
        *self == old
    }

    proof fn lemma_agrees_refl(&self) {
    }

    proof fn lemma_agrees_trans(&self, mid: Self, old: Self) {
    }

    open spec fn decodable(&self) -> bool {
        true
    }

    open spec fn func_ids(&self) -> Seq<FuncId> {
        Seq::empty()
    }

    fn force_all(&mut self) -> (r: Result<(), DecodeError>) {
        Ok(())
    }

    fn set_func_ids(&mut self, ids: &Vec<FuncId>, pos: usize) -> (r: usize) {
        assert(self.func_ids() =~= ids@.subrange(pos as int, pos as int));
        pos
    }

    fn collect_func_ids(&self, out: &mut Vec<FuncId>) {
        assert(out@ =~= old(out)@ + self.func_ids());
    }
}

/// The index of a function.
#[derive(Debug, Clone, Copy, PartialEq, Eq, PartialOrd, Ord, Hash, Structural)]
pub struct FuncId {
    pub index: u32,
}

impl Codec for FuncId {
    open spec fn enc(&self) -> Seq<u8> {
        self.index.enc()
    }

    fn encode(&self, out: &mut Vec<u8>) {
        self.index.encode(out);
    }

    open spec fn is_tail() -> bool {
        false
    }

    open spec fn rejects(data: Seq<u8>, pos: int, e: DecodeError) -> bool {
        false
    }

    open spec fn fits(&self) -> bool {
        true
    }

    fn decode(data: &[u8], pos: usize) -> (r: Result<(FuncId, usize), DecodeError>) {
        proof {
            assert forall|v: FuncId| #[trigger] bytes_at(data@, pos as int, v.enc(), v.fits(),
                <FuncId>::is_tail())
                implies bytes_at(data@, pos as int, v.index.enc(), v.index.fits(),
                    <u32>::is_tail()) by {}
        }
        let (index, end) = u32::decode(data, pos)?;
        Ok((FuncId { index }, end))
    }
}

impl WasmbinVisit for FuncId {
    open spec fn is_forced(&self) -> bool {
        true
    }

    open spec fn agrees(&self, old: Self) -> bool {
        true
    }

    proof fn lemma_agrees_refl(&self) {
    }

    proof fn lemma_agrees_trans(&self, mid: Self, old: Self) {
    }

    open spec fn decodable(&self) -> bool {
        true
    }

    open spec fn func_ids(&self) -> Seq<FuncId> {
        seq![*self]
    }

    fn force_all(&mut self) -> (r: Result<(), DecodeError>) {
        Ok(())
    }

    fn set_func_ids(&mut self, ids: &Vec<FuncId>, pos: usize) -> (r: usize) {
        assert(self.func_ids().len() == 1);
        let len = ids.len();
        assert(pos < len);
        *self = ids[pos];
        assert(self.func_ids() =~= ids@.subrange(pos as int, pos + 1));
        pos + 1
    }

    fn collect_func_ids(&self, out: &mut Vec<FuncId>) {
        out.push(*self);
        assert(out@ =~= old(out)@ + self.func_ids());
    }
}

/// The index of a table.
#[derive(Debug, Clone, Copy, PartialEq, Eq, PartialOrd, Ord, Hash, Structural)]
pub struct TableId {
    pub index: u32,
}

impl Codec for TableId {
    open spec fn enc(&self) -> Seq<u8> {
        self.index.enc()
    }

    fn encode(&self, out: &mut Vec<u8>) {
        self.index.encode(out);
    }

    open spec fn is_tail() -> bool {
        false
    }

    open spec fn rejects(data: Seq<u8>, pos: int, e: DecodeError) -> bool {
        false
    }

    open spec fn fits(&self) -> bool {
        true
    }

    fn decode(data: &[u8], pos: usize) -> (r: Result<(TableId, usize), DecodeError>) {
        proof {
            assert forall|v: TableId| #[trigger] bytes_at(data@, pos as int, v.enc(), v.fits(),
                <TableId>::is_tail())
                implies bytes_at(data@, pos as int, v.index.enc(), v.index.fits(),
                    <u32>::is_tail()) by {}
        }
        let (index, end) = u32::decode(data, pos)?;
        Ok((TableId { index }, end))
    }
}

impl WasmbinVisit for TableId {
    open spec fn is_forced(&self) -> bool {
        true
    }

    open spec fn agrees(&self, old: Self) -> bool {
        *self == old
    }

    proof fn lemma_agrees_refl(&self) {
    }

    proof fn lemma_agrees_trans(&self, mid: Self, old: Self) {
    }

    open spec fn decodable(&self) -> bool {
        true
    }

    open spec fn func_ids(&self) -> Seq<FuncId> {
        Seq::empty()
    }

    fn force_all(&mut self) -> (r: Result<(), DecodeError>) {
        Ok(())
    }

    fn set_func_ids(&mut self, ids: &Vec<FuncId>, pos: usize) -> (r: usize) {
        assert(self.func_ids() =~= ids@.subrange(pos as int, pos as int));
        pos
    }

    fn collect_func_ids(&self, out: &mut Vec<FuncId>) {
        assert(out@ =~= old(out)@ + self.func_ids());
    }
}

/// The index of a memory.
#[derive(Debug, Clone, Copy, PartialEq, Eq, PartialOrd, Ord, Hash, Structural)]
pub struct MemId {
    pub index: u32,
}

impl Codec for MemId {
    open spec fn enc(&self) -> Seq<u8> {
        self.index.enc()
    }

    fn encode(&self, out: &mut Vec<u8>) {
        self.index.encode(out);
    }

    open spec fn is_tail() -> bool {
        false
    }

    open spec fn rejects(data: Seq<u8>, pos: int, e: DecodeError) -> bool {
        false
    }

    open spec fn fits(&self) -> bool {
        true
    }

    fn decode(data: &[u8], pos: usize) -> (r: Result<(MemId, usize), DecodeError>) {
        proof {
            assert forall|v: MemId| #[trigger] bytes_at(data@, pos as int, v.enc(), v.fits(),
                <MemId>::is_tail())
                implies bytes_at(data@, pos as int, v.index.enc(), v.index.fits(),
                    <u32>::is_tail()) by {}
        }
        let (index, end) = u32::decode(data, pos)?;
        Ok((MemId { index }, end))
    }
}

impl WasmbinVisit for MemId {
    open spec fn is_forced(&self) -> bool {
        true
    }

    open spec fn agrees(&self, old: Self) -> bool {
        *self == old
    }

    proof fn lemma_agrees_refl(&self) {
    }

    proof fn lemma_agrees_trans(&self, mid: Self, old: Self) {
    }

    open spec fn decodable(&self) -> bool {
        true
    }

    open spec fn func_ids(&self) -> Seq<FuncId> {
        Seq::empty()
    }

    fn force_all(&mut self) -> (r: Result<(), DecodeError>) {
        Ok(())
    }

    fn set_func_ids(&mut self, ids: &Vec<FuncId>, pos: usize) -> (r: usize) {
        assert(self.func_ids() =~= ids@.subrange(pos as int, pos as int));
        pos
    }

    fn collect_func_ids(&self, out: &mut Vec<FuncId>) {
        assert(out@ =~= old(out)@ + self.func_ids());
    }
}

/// The index of a global.
#[derive(Debug, Clone, Copy, PartialEq, Eq, PartialOrd, Ord, Hash, Structural)]
pub struct GlobalId {
    pub index: u32,
}

impl Codec for GlobalId {
    open spec fn enc(&self) -> Seq<u8> {
        self.index.enc()
    }

    fn encode(&self, out: &mut Vec<u8>) {
        self.index.encode(out);
    }

    open spec fn is_tail() -> bool {
        false
    }

    open spec fn rejects(data: Seq<u8>, pos: int, e: DecodeError) -> bool {
        false
    }

    open spec fn fits(&self) -> bool {
        true
    }

    fn decode(data: &[u8], pos: usize) -> (r: Result<(GlobalId, usize), DecodeError>) {
        proof {
            assert forall|v: GlobalId| #[trigger] bytes_at(data@, pos as int, v.enc(), v.fits(),
                <GlobalId>::is_tail())
                implies bytes_at(data@, pos as int, v.index.enc(), v.index.fits(),
                    <u32>::is_tail()) by {}
        }
        let (index, end) = u32::decode(data, pos)?;
        Ok((GlobalId { index }, end))
    }
}

impl WasmbinVisit for GlobalId {
    open spec fn is_forced(&self) -> bool {
        true
    }

    open spec fn agrees(&self, old: Self) -> bool {
        *self == old
    }

    proof fn lemma_agrees_refl(&self) {
    }

    proof fn lemma_agrees_trans(&self, mid: Self, old: Self) {
    }

    open spec fn decodable(&self) -> bool {
        true
    }

    open spec fn func_ids(&self) -> Seq<FuncId> {
        Seq::empty()
    }

    fn force_all(&mut self) -> (r: Result<(), DecodeError>) {
        Ok(())
    }

    fn set_func_ids(&mut self, ids: &Vec<FuncId>, pos: usize) -> (r: usize) {
        assert(self.func_ids() =~= ids@.subrange(pos as int, pos as int));
        pos
    }

    fn collect_func_ids(&self, out: &mut Vec<FuncId>) {
        assert(out@ =~= old(out)@ + self.func_ids());
    }
}

/// The index of a local of a function.
#[derive(Debug, Clone, Copy, PartialEq, Eq, PartialOrd, Ord, Hash, Structural)]
pub struct LocalId {
    pub index: u32,
}

impl Codec for LocalId {
    open spec fn enc(&self) -> Seq<u8> {
        self.index.enc()
    }

    fn encode(&self, out: &mut Vec<u8>) {
        self.index.encode(out);
    }

    open spec fn is_tail() -> bool {
        false
    }

    open spec fn rejects(data: Seq<u8>, pos: int, e: DecodeError) -> bool {
        false
    }

    open spec fn fits(&self) -> bool {
        true
    }

    fn decode(data: &[u8], pos: usize) -> (r: Result<(LocalId, usize), DecodeError>) {
        proof {
            assert forall|v: LocalId| #[trigger] bytes_at(data@, pos as int, v.enc(), v.fits(),
                <LocalId>::is_tail())
                implies bytes_at(data@, pos as int, v.index.enc(), v.index.fits(),
                    <u32>::is_tail()) by {}
        }
        let (index, end) = u32::decode(data, pos)?;
        Ok((LocalId { index }, end))
    }
}

impl WasmbinVisit for LocalId {
    open spec fn is_forced(&self) -> bool {
        true
    }

    open spec fn agrees(&self, old: Self) -> bool {
        *self == old
    }

    proof fn lemma_agrees_refl(&self) {
    }

    proof fn lemma_agrees_trans(&self, mid: Self, old: Self) {
    }

    open spec fn decodable(&self) -> bool {
        true
    }

    open spec fn func_ids(&self) -> Seq<FuncId> {
        Seq::empty()
    }

    fn force_all(&mut self) -> (r: Result<(), DecodeError>) {
        Ok(())
    }

    fn set_func_ids(&mut self, ids: &Vec<FuncId>, pos: usize) -> (r: usize) {
        assert(self.func_ids() =~= ids@.subrange(pos as int, pos as int));
        pos
    }

    fn collect_func_ids(&self, out: &mut Vec<FuncId>) {
        assert(out@ =~= old(out)@ + self.func_ids());
    }
}
} // verus!
