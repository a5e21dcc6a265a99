//! Deferred decoding: a payload kept as raw bytes until it is first needed.
use vstd::prelude::*;
use vstd::slice::{slice_subrange, slice_to_vec};
use crate::codec::{Codec, decode_exact, bytes_at, frame_at, leb, varint_at, lemma_assoc, lemma_join, push_all,
    read_varint, write_varint};
use crate::error::DecodeError;

verus! {

/// The two states of a deferred payload.
#[derive(Debug, Clone, PartialEq, Eq, Hash)]
pub enum LazyState<T> {
    /// Bytes as read, not decoded yet.
    Raw(Vec<u8>),
    /// The decoded value; the bytes it came from are its encoding.
    Decoded(T),
}

/// A payload that is decoded on first demand and then kept decoded.
///
/// Its encoding takes the rest of the enclosing frame, with no length in front.
/// While raw it encodes to the bytes it was read from.
#[derive(Debug, Clone, PartialEq, Eq, Hash)]
pub struct Lazy<T> {
    pub state: LazyState<T>,
}

/// What forcing a lazy payload guarantees: the encoding is unchanged, success
/// leaves it decoded, a decoded payload is left as it is, and a failure leaves
/// it untouched.
pub open spec fn force_post<T: Codec>(
    before: Lazy<T>,
    after: Lazy<T>,
    r: Result<(), DecodeError>,
) -> bool {
    &&& after.enc() == before.enc()
    &&& (r is Ok <==> after.is_decoded())
    &&& (before.is_decoded() ==> after == before && r is Ok)
    &&& (r is Err ==> after == before)
}

/// Forcing twice gives what forcing once gave: the second force succeeds and
/// changes nothing.
pub proof fn lemma_force_idempotent<T: Codec>(
    l0: Lazy<T>,
    l1: Lazy<T>,
    l2: Lazy<T>,
    r1: Result<(), DecodeError>,
    r2: Result<(), DecodeError>,
)
    requires
        force_post(l0, l1, r1),
        r1 is Ok,
        force_post(l1, l2, r2),
    ensures
        l2 == l1,
        r2 is Ok,
        l2.enc() == l0.enc(),
{
}

impl<T: Codec> Lazy<T> {
    pub open spec fn is_decoded(&self) -> bool {
        self.state is Decoded
    }

    pub open spec fn from_raw_spec(raw: Vec<u8>) -> Lazy<T> {
        Lazy { state: LazyState::Raw(raw) }
    }

    /// A lazy payload over bytes that have not been decoded.
    pub fn from_raw(raw: Vec<u8>) -> (r: Lazy<T>)
        ensures
            r == Self::from_raw_spec(raw),
            r.enc() == raw@,
    {
        Lazy { state: LazyState::Raw(raw) }
    }

    /// A lazy payload that already holds its value.
    pub fn from_value(value: T) -> (r: Lazy<T>)
        ensures
            r.state == LazyState::Decoded(value),
            r.enc() == value.enc(),
    {
        Lazy { state: LazyState::Decoded(value) }
    }

    /// Decodes the raw bytes, if that has not happened yet, and keeps the value.
    /// Raw bytes that are the encoding of some value always decode.
    pub fn force(&mut self) -> (r: Result<(), DecodeError>)
        ensures
            force_post(*old(self), *final(self), r),
            old(self).state matches LazyState::Raw(raw) ==> ((exists|v: T|
                v.fits() && v.enc() == raw@) ==> r is Ok),
            old(self).state matches LazyState::Raw(raw) ==> (forall|e: DecodeError| #[trigger]
                T::rejects(raw@, 0, e) ==> r == Err::<(), DecodeError>(e)),
    {
        let decoded = match &self.state {
            LazyState::Decoded(_) => {
                return Ok(());
            },
            LazyState::Raw(raw) => decode_exact::<T>(raw.as_slice()),
        };
        match decoded {
            Ok(v) => {
                self.state = LazyState::Decoded(v);
                Ok(())
            },
            Err(e) => Err(e),
        }
    }

    /// The value, where the payload has been decoded.
    pub fn value(&self) -> (r: Option<&T>)
        ensures
            r is Some <==> self.is_decoded(),
            r matches Some(v) ==> self.state == LazyState::Decoded(*v),
    {
        match &self.state {
            LazyState::Decoded(v) => Some(v),
            LazyState::Raw(_) => None,
        }
    }

    /// The value, where the payload has been decoded, for changing it.
    pub fn value_mut(&mut self) -> (r: Option<&mut T>)
        ensures
            r is Some <==> old(self).is_decoded(),
            r matches Some(v) ==> old(self).state == LazyState::Decoded(*v) && final(self).state
                == LazyState::Decoded(*final(v)),
            r is None ==> *final(self) == *old(self),
    {
        match &mut self.state {
            LazyState::Decoded(v) => Some(v),
            LazyState::Raw(_) => None,
        }
    }
}

impl<T: Codec> Codec for Lazy<T> {
    open spec fn enc(&self) -> Seq<u8> {
        match self.state {
            LazyState::Raw(raw) => raw@,
            LazyState::Decoded(v) => v.enc(),
        }
    }

    fn encode(&self, out: &mut Vec<u8>) {
        match &self.state {
            LazyState::Raw(raw) => push_all(out, raw.as_slice()),
            LazyState::Decoded(v) => v.encode(out),
        }
    }

    open spec fn is_tail() -> bool {
        true
    }

    open spec fn rejects(data: Seq<u8>, pos: int, e: DecodeError) -> bool {
        false
    }

    open spec fn fits(&self) -> bool {
        true
    }

    /// Takes all bytes from `pos` to the end, undecoded.
    fn decode(data: &[u8], pos: usize) -> (r: Result<(Lazy<T>, usize), DecodeError>) {
        let raw = slice_to_vec(slice_subrange(data, pos, data.len()));
        Ok((Lazy::from_raw(raw), data.len()))
    }
}

/// A payload with its byte length in front, decoded on first demand.
#[derive(Debug, Clone, PartialEq, Eq, Hash)]
pub struct Blob<T> {
    pub contents: Lazy<T>,
}

impl<T: Codec> Blob<T> {
    /// A blob that holds `value`.
    pub fn from_value(value: T) -> (r: Blob<T>)
        ensures
            r.contents.state == LazyState::Decoded(value),
    {
        Blob { contents: Lazy::from_value(value) }
    }
}

impl<T: Codec> Codec for Blob<T> {
    open spec fn enc(&self) -> Seq<u8> {
        leb(self.contents.enc().len()) + self.contents.enc()
    }

    fn encode(&self, out: &mut Vec<u8>) {
        let mut body: Vec<u8> = Vec::new();
        self.contents.encode(&mut body);
        assert(body@ =~= self.contents.enc());
        write_varint(body.len() as u64, out);
        push_all(out, body.as_slice());
        proof {
            lemma_assoc(old(out)@, leb(body@.len()), body@);
        }
    }

    open spec fn is_tail() -> bool {
        false
    }

    open spec fn rejects(data: Seq<u8>, pos: int, e: DecodeError) -> bool {
        false
    }

    open spec fn fits(&self) -> bool {
        self.contents.enc().len() <= u32::MAX
    }

    fn decode(data: &[u8], pos: usize) -> (r: Result<(Blob<T>, usize), DecodeError>) {
        Blob::decode_frame(data, pos)
    }
}

impl<T: Codec> Blob<T> {
    /// Reads a length and then that many bytes, kept undecoded. Any such
    /// frame is accepted.
    pub fn decode_frame(data: &[u8], pos: usize) -> (r: Result<(Blob<T>, usize), DecodeError>)
        requires
            pos <= data@.len(),
        ensures
            r matches Ok((v, end)) ==> pos <= end <= data@.len() && data@.subrange(
                pos as int,
                end as int,
            ) == v.enc(),
            forall|n: nat| #[trigger]
                frame_at(data@, pos as int, n) ==> (r matches Ok((_, end)) && end == pos + leb(
                    n,
                ).len() + n),
            forall|v: Blob<T>| #[trigger]
                bytes_at(data@, pos as int, v.enc(), v.fits(), <Blob<T>>::is_tail())
                    ==> (r matches Ok((_, end)) && end == pos
                    + v.enc().len()),
            r matches Ok((v, _)) ==> !v.contents.is_decoded(),
            pos == data@.len() ==> r == Err::<(Blob<T>, usize), DecodeError>(
                DecodeError::UnexpectedEof,
            ),
            forall|n: nat| #[trigger]
                varint_at(data@, pos as int, n) && pos + leb(n).len() + n > data@.len() ==> r
                    == Err::<(Blob<T>, usize), DecodeError>(DecodeError::UnexpectedEof),
    {
        proof {
            assert forall|v: Blob<T>| #[trigger] bytes_at(data@, pos as int, v.enc(), v.fits(),
                <Blob<T>>::is_tail())
                implies frame_at(
                data@,
                pos as int,
                v.contents.enc().len(),
            ) by {
                let k: int = leb(v.contents.enc().len()).len() as int;
                assert(data@.subrange(pos as int, pos + k) =~= v.enc().subrange(0, k as int));
                assert(v.enc().subrange(0, k as int) =~= leb(v.contents.enc().len()));
            }
        }
        let (n, start) = read_varint(data, pos)?;
        if n as usize > data.len() - start {
            return Err(DecodeError::UnexpectedEof);
        }
        let end: usize = start + n as usize;
        let raw = slice_to_vec(slice_subrange(data, start, end));
        proof {
            lemma_join(data@, pos as int, start as int, end as int);
        }
        Ok((Blob { contents: Lazy::from_raw(raw) }, end))
    }
}

} // verus!
