//! The byte-level codec: a trait that ties each value to its encoding, and the
//! primitive encodings (varint, byte, flag, string, counted sequence).
use vstd::prelude::*;
use vstd::utf8::*;
use vstd::slice::slice_subrange;
use vstd::string::*;
use crate::error::DecodeError;

verus! {

/// A value with a binary encoding.
///
/// `decode` is exact: when it succeeds, the bytes it consumed are the encoding
/// of the value it returns, so encoding that value reproduces them. It is also
/// complete: where the input holds the encoding of a value that fits the
/// encoding's limits, it succeeds and consumes exactly that encoding.
pub trait Codec: Sized {
    /// The encoding of this value.
    spec fn enc(&self) -> Seq<u8>;

    /// Whether a value of this type runs to the end of its input rather than
    /// carrying its own extent.
    spec fn is_tail() -> bool;

    /// Inputs on which decoding is known to fail with the error `e`, before any
    /// value is read.
    spec fn rejects(data: Seq<u8>, pos: int, e: DecodeError) -> bool;

    /// Whether the counts and lengths in this value fit the encoding (a varint
    /// is read into `u32`), and every part that runs to the end stands last.
    spec fn fits(&self) -> bool;

    /// Appends the encoding of `self` to `out`.
    fn encode(&self, out: &mut Vec<u8>)
        ensures
            final(out)@ == old(out)@ + self.enc(),
    ;

    /// Decodes one value from `data` starting at `pos`; returns it with the
    /// position just past it.
    fn decode(data: &[u8], pos: usize) -> (r: Result<(Self, usize), DecodeError>)
        requires
            pos <= data@.len(),
        ensures
            r matches Ok((v, end)) ==> pos <= end <= data@.len() && data@.subrange(
                pos as int,
                end as int,
            ) == v.enc(),
            forall|v: Self| #[trigger]
                bytes_at(data@, pos as int, v.enc(), v.fits(), Self::is_tail()) ==> (r matches Ok(
                    (_, end),
                ) && end == pos + v.enc().len()),
            forall|e: DecodeError| #[trigger]
                Self::rejects(data@, pos as int, e) ==> r == Err::<(Self, usize), DecodeError>(e),
    ;
}

/// `data` holds the encoding `enc` of a value at `pos` (running to the end of
/// `data` where `tail` says so), and the value fits the encoding.
pub open spec fn bytes_at(data: Seq<u8>, pos: int, enc: Seq<u8>, fits: bool, tail: bool) -> bool {
    &&& fits
    &&& 0 <= pos
    &&& pos + enc.len() <= data.len()
    &&& data.subrange(pos, pos + enc.len()) == enc
    &&& (tail ==> pos + enc.len() == data.len())
}

/// Two adjacent slices of a sequence join into one.
pub proof fn lemma_join(data: Seq<u8>, a: int, b: int, c: int)
    requires
        0 <= a <= b <= c <= data.len(),
    ensures
        data.subrange(a, c) == data.subrange(a, b) + data.subrange(b, c),
{
    assert(data.subrange(a, c) =~= data.subrange(a, b) + data.subrange(b, c));
}

/// Concatenation is associative.
pub proof fn lemma_assoc(x: Seq<u8>, y: Seq<u8>, z: Seq<u8>)
    ensures
        x + y + z == x + (y + z),
{
    assert(x + y + z =~= x + (y + z));
}

/// The unsigned LEB128 encoding of `v`, shortest form.
pub open spec fn leb(v: nat) -> Seq<u8>
    decreases v,
{
    if v < 128 {
        seq![v as u8]
    } else {
        seq![((v % 128) + 128) as u8] + leb(v / 128)
    }
}

proof fn lemma_leb_step(low: nat, rest: nat)
    requires
        low < 128,
        rest >= 1,
    ensures
        leb(low + 128 * rest) == seq![(low + 128) as u8] + leb(rest),
{
    let v = low + 128 * rest;
    assert(v % 128 == low && v / 128 == rest) by (nonlinear_arith)
        requires
            v == low + 128 * rest,
            low < 128,
    ;
}

/// Appends `v` as a varint.
pub fn write_varint(v: u64, out: &mut Vec<u8>)
    ensures
        final(out)@ == old(out)@ + leb(v as nat),
    decreases v,
{
    if v < 128 {
        out.push(v as u8);
        assert(out@ =~= old(out)@ + leb(v as nat));
    } else {
        let b: u8 = (v % 128 + 128) as u8;
        out.push(b);
        let ghost mid = out@;
        write_varint(v / 128, out);
        proof {
            lemma_assoc(old(out)@, seq![b], leb((v / 128) as nat));
            assert(old(out)@.push(b) =~= old(out)@ + seq![b]);
        }
    }
}

proof fn lemma_leb_first(n: nat)
    ensures
        leb(n).len() >= 1,
        n < 128 ==> leb(n) == seq![n as u8],
        n >= 128 ==> leb(n)[0] >= 128,
        n >= 128 ==> leb(n) == seq![((n % 128) + 128) as u8] + leb(n / 128),
        n >= 128 ==> n / 128 >= 1,
        n >= 128 ==> n == n % 128 + 128 * (n / 128),
{
    if n >= 128 {
        assert(n / 128 >= 1 && n == n % 128 + 128 * (n / 128)) by (nonlinear_arith)
            requires
                n >= 128,
        ;
    }
}

proof fn lemma_rest_bound(n: nat, low: nat, rest: nat)
    requires
        n == low + 128 * rest,
        n <= u32::MAX,
        low < 128,
    ensures
        rest <= (u32::MAX - low) / 128,
{
    assert(rest <= (u32::MAX - low) / 128) by (nonlinear_arith)
        requires
            low + 128 * rest <= u32::MAX,
            low < 128,
    ;
}

/// `data` holds the varint `leb(n)` at `pos`, for an `n` that fits in `u32`.
pub open spec fn varint_at(data: Seq<u8>, pos: int, n: nat) -> bool {
    &&& n <= u32::MAX
    &&& 0 <= pos
    &&& pos + leb(n).len() <= data.len()
    &&& data.subrange(pos, pos + leb(n).len()) == leb(n)
}

/// `data` holds, at `pos`, a varint `n` followed by at least `n` more bytes.
pub open spec fn frame_at(data: Seq<u8>, pos: int, n: nat) -> bool {
    &&& varint_at(data, pos, n)
    &&& pos + leb(n).len() + n <= data.len()
}

/// Reads a varint in its shortest form; a padded form or one that exceeds
/// `u32` is malformed.
pub fn read_varint(data: &[u8], pos: usize) -> (r: Result<(u32, usize), DecodeError>)
    requires
        pos <= data@.len(),
    ensures
        r matches Ok((v, end)) ==> pos < end <= data@.len() && data@.subrange(
            pos as int,
            end as int,
        ) == leb(v as nat),
        pos == data@.len() ==> r == Err::<(u32, usize), DecodeError>(DecodeError::UnexpectedEof),
        forall|n: nat|
            #[trigger] varint_at(data@, pos as int, n) ==> r == Ok::<(u32, usize), DecodeError>(
                (n as u32, (pos + leb(n).len()) as usize),
            ),
    decreases data@.len() - pos,
{
    if pos >= data.len() {
        proof {
            assert forall|n: nat| #[trigger] varint_at(data@, pos as int, n) implies false by {
                lemma_leb_first(n);
            }
        }
        return Err(DecodeError::UnexpectedEof);
    }
    let b = data[pos];
    if b < 128 {
        assert(data@.subrange(pos as int, pos + 1) =~= seq![b]);
        proof {
            assert forall|n: nat| #[trigger] varint_at(data@, pos as int, n) implies n == b as nat
                && leb(n).len() == 1 by {
                lemma_leb_first(n);
                assert(data@.subrange(pos as int, pos + leb(n).len())[0] == b);
            }
        }
        return Ok((b as u32, pos + 1));
    }
    proof {
        assert forall|n: nat| #[trigger] varint_at(data@, pos as int, n) implies n >= 128
            && varint_at(data@, pos + 1, n / 128) && n % 128 == (b - 128) as nat && leb(n).len()
            == 1 + leb(n / 128).len() by {
            lemma_leb_first(n);
            assert(data@.subrange(pos as int, pos + leb(n).len())[0] == b);
            if n >= 128 {
                assert(data@.subrange(pos + 1, pos + 1 + leb(n / 128).len()) =~= data@.subrange(
                    pos as int,
                    pos + leb(n).len(),
                ).subrange(1, leb(n).len() as int));
                assert(leb(n).subrange(1, leb(n).len() as int) =~= leb(n / 128));
            }
        }
    }
    match read_varint(data, pos + 1) {
        Err(e) => Err(e),
        Ok((rest, end)) => {
            let low: u32 = (b - 128) as u32;
            if rest == 0 || rest > (u32::MAX - low) / 128 {
                proof {
                    assert forall|n: nat| #[trigger] varint_at(data@, pos as int, n)
                        implies false by {
                        assert(varint_at(data@, pos + 1, n / 128));
                        lemma_leb_first(n);
                        lemma_rest_bound(n, low as nat, (n / 128) as nat);
                    }
                }
                return Err(DecodeError::MalformedPrimitive);
            }
            let v: u32 = low + 128 * rest;
            proof {
                lemma_leb_step(low as nat, rest as nat);
                lemma_join(data@, pos as int, pos + 1, end as int);
                assert(data@.subrange(pos as int, pos + 1) =~= seq![b]);
                assert forall|n: nat| #[trigger] varint_at(data@, pos as int, n)
                    implies n == v as nat
                    && pos + leb(n).len() == end by {
                    assert(varint_at(data@, pos + 1, n / 128));
                    lemma_leb_first(n);
                }
            }
            Ok((v, end))
        },
    }
}

impl Codec for u32 {
    open spec fn enc(&self) -> Seq<u8> {
        leb(*self as nat)
    }

    fn encode(&self, out: &mut Vec<u8>) {
        write_varint(*self as u64, out);
    }

    open spec fn is_tail() -> bool {
        false
    }

    open spec fn rejects(data: Seq<u8>, pos: int, e: DecodeError) -> bool {
        false
    }

    open spec fn fits(&self) -> bool {
        true
    }

    fn decode(data: &[u8], pos: usize) -> (r: Result<(u32, usize), DecodeError>) {
        let r = read_varint(data, pos);
        assert forall|v: u32| #[trigger] bytes_at(data@, pos as int, v.enc(), v.fits(),
            <u32>::is_tail())
            implies (r matches Ok(
            (_, end),
        ) && end == pos + v.enc().len()) by {
            assert(varint_at(data@, pos as int, v as nat));
        }
        r
    }
}

impl Codec for u8 {
    open spec fn enc(&self) -> Seq<u8> {
        seq![*self]
    }

    fn encode(&self, out: &mut Vec<u8>) {
        out.push(*self);
        assert(out@ =~= old(out)@ + seq![*self]);
    }

    open spec fn is_tail() -> bool {
        false
    }

    open spec fn rejects(data: Seq<u8>, pos: int, e: DecodeError) -> bool {
        false
    }

    open spec fn fits(&self) -> bool {
        true
    }

    fn decode(data: &[u8], pos: usize) -> (r: Result<(u8, usize), DecodeError>) {
        if pos >= data.len() {
            return Err(DecodeError::UnexpectedEof);
        }
        assert(data@.subrange(pos as int, pos + 1) =~= seq![data@[pos as int]]);
        Ok((data[pos], pos + 1))
    }
}

impl Codec for bool {
    open spec fn enc(&self) -> Seq<u8> {
        if *self {
            seq![1u8]
        } else {
            seq![0u8]
        }
    }

    fn encode(&self, out: &mut Vec<u8>) {
        let b: u8 = if *self {
            1
        } else {
            0
        };
        out.push(b);
        assert(out@ =~= old(out)@ + self.enc());
    }

    open spec fn is_tail() -> bool {
        false
    }

    open spec fn rejects(data: Seq<u8>, pos: int, e: DecodeError) -> bool {
        false
    }

    open spec fn fits(&self) -> bool {
        true
    }

    fn decode(data: &[u8], pos: usize) -> (r: Result<(bool, usize), DecodeError>) {
        if pos >= data.len() {
            return Err(DecodeError::UnexpectedEof);
        }
        let b = data[pos];
        assert(data@.subrange(pos as int, pos + 1) =~= seq![b]);
        assert forall|v: bool| #[trigger] bytes_at(data@, pos as int, v.enc(), v.fits(),
            <bool>::is_tail())
            implies (b == 1 && v) || (b
            == 0 && !v) by {
            assert(data@.subrange(pos as int, pos + 1)[0] == b);
        }
        if b == 0 {
            Ok((false, pos + 1))
        } else if b == 1 {
            Ok((true, pos + 1))
        } else {
            Err(DecodeError::MalformedPrimitive)
        }
    }
}

/// Appends every byte of `bytes` to `out`.
pub fn push_all(out: &mut Vec<u8>, bytes: &[u8])
    ensures
        final(out)@ == old(out)@ + bytes@,
{
    let mut i: usize = 0;
    while i < bytes.len()
        invariant
            i <= bytes@.len(),
            out@ == old(out)@ + bytes@.subrange(0, i as int),
        decreases bytes@.len() - i,
    {
        out.push(bytes[i]);
        i = i + 1;
        assert(out@ =~= old(out)@ + bytes@.subrange(0, i as int));
    }
    assert(bytes@.subrange(0, i as int) =~= bytes@);
}

/// Relies on std::str::from_utf8: it succeeds exactly on valid UTF-8, and the
/// string it gives holds those bytes.
#[verifier::external_body]
fn utf8_str(b: &[u8]) -> (r: Option<&str>)
    ensures
        r is Some <==> valid_utf8(b@),
        r matches Some(s) ==> s.spec_bytes() == b@,
{
    match std::str::from_utf8(b) {
        Ok(s) => Some(s),
        Err(_) => None,
    }
}

impl Codec for String {
    open spec fn enc(&self) -> Seq<u8> {
        leb(encode_utf8(self@).len()) + encode_utf8(self@)
    }

    fn encode(&self, out: &mut Vec<u8>) {
        let bytes = self.as_str().as_bytes();
        write_varint(bytes.len() as u64, out);
        push_all(out, bytes);
        proof {
            lemma_assoc(old(out)@, leb(bytes@.len()), bytes@);
        }
    }

    open spec fn is_tail() -> bool {
        false
    }

    open spec fn rejects(data: Seq<u8>, pos: int, e: DecodeError) -> bool {
        false
    }

    open spec fn fits(&self) -> bool {
        encode_utf8(self@).len() <= u32::MAX
    }

    fn decode(data: &[u8], pos: usize) -> (r: Result<(String, usize), DecodeError>) {
        let r = read_string(data, pos);
        proof {
            assert forall|v: String| #[trigger] bytes_at(data@, pos as int, v.enc(), v.fits(),
                <String>::is_tail())
                implies string_at(
                data@,
                pos as int,
                v@,
            ) by {
                let e = encode_utf8(v@);
                let k: int = leb(e.len()).len() as int;
                assert(data@.subrange(pos as int, pos + k) =~= v.enc().subrange(0, k as int));
                assert(v.enc().subrange(0, k as int) =~= leb(e.len()));
                assert(data@.subrange(pos + k, pos + v.enc().len()) =~= v.enc().subrange(
                    k as int,
                    v.enc().len() as int,
                ));
                assert(v.enc().subrange(k as int, v.enc().len() as int) =~= e);
            }
        }
        r
    }
}

/// `data` holds at `pos` the string with characters `cs`: its UTF-8 length
/// as a varint, then its UTF-8 bytes.
pub open spec fn string_at(data: Seq<u8>, pos: int, cs: Seq<char>) -> bool {
    &&& varint_at(data, pos, encode_utf8(cs).len())
    &&& pos + leb(encode_utf8(cs).len()).len() + encode_utf8(cs).len() <= data.len()
    &&& data.subrange(
        pos + leb(encode_utf8(cs).len()).len(),
        pos + leb(encode_utf8(cs).len()).len() + encode_utf8(cs).len(),
    ) == encode_utf8(cs)
}

/// Reads a string: a byte length, then that many bytes of UTF-8.
pub fn read_string(data: &[u8], pos: usize) -> (r: Result<(String, usize), DecodeError>)
    requires
        pos <= data@.len(),
    ensures
        r matches Ok((v, end)) ==> pos <= end <= data@.len() && data@.subrange(
            pos as int,
            end as int,
        ) == v.enc(),
        forall|cs: Seq<char>| #[trigger]
            string_at(data@, pos as int, cs) ==> (r matches Ok((v, end)) && v@ == cs && end == pos
                + leb(encode_utf8(cs).len()).len() + encode_utf8(cs).len()),
{
    proof {
        assert forall|cs: Seq<char>| #[trigger] string_at(data@, pos as int, cs) implies valid_utf8(
            encode_utf8(cs),
        ) by {
            encode_utf8_valid_utf8(cs);
        }
    }
    let (n, start) = read_varint(data, pos)?;
    if n as usize > data.len() - start {
        return Err(DecodeError::UnexpectedEof);
    }
    let end: usize = start + n as usize;
    let bytes = slice_subrange(data, start, end);
    match utf8_str(bytes) {
        None => Err(DecodeError::MalformedPrimitive),
        Some(s) => {
            let owned = s.to_owned();
            proof {
                decode_utf8_encode_utf8(bytes@);
                lemma_join(data@, pos as int, start as int, end as int);
                assert forall|cs: Seq<char>| #[trigger] string_at(data@, pos as int, cs)
                    implies owned@
                    == cs by {
                    assert(varint_at(data@, pos as int, encode_utf8(cs).len()));
                    assert(bytes@ == encode_utf8(cs));
                    assert(encode_utf8(owned@) == bytes@);
                    encode_utf8_decode_utf8(cs);
                    encode_utf8_decode_utf8(owned@);
                }
            }
            Ok((owned, end))
        },
    }
}

/// The encodings of the items of `s`, one after another.
pub open spec fn enc_all<T: Codec>(s: Seq<T>) -> Seq<u8>
    decreases s.len(),
{
    if s.len() == 0 {
        Seq::empty()
    } else {
        enc_all(s.drop_last()) + s.last().enc()
    }
}

/// Encoding one more item appends its encoding.
pub proof fn lemma_enc_all_push<T: Codec>(s: Seq<T>, x: T)
    ensures
        enc_all(s.push(x)) == enc_all(s) + x.enc(),
{
    assert(s.push(x).drop_last() =~= s);
}

/// The encoding of a prefix of a sequence is a prefix of its encoding.
pub proof fn lemma_enc_all_prefix<T: Codec>(s: Seq<T>, j: int)
    requires
        0 <= j <= s.len(),
    ensures
        enc_all(s.subrange(0, j)).len() <= enc_all(s).len(),
        enc_all(s).subrange(0, enc_all(s.subrange(0, j)).len() as int) == enc_all(s.subrange(0, j)),
    decreases s.len(),
{
    if j == s.len() {
        assert(s.subrange(0, j) =~= s);
        assert(enc_all(s).subrange(0, enc_all(s).len() as int) =~= enc_all(s));
    } else {
        lemma_enc_all_prefix(s.drop_last(), j);
        assert(s.drop_last().subrange(0, j) =~= s.subrange(0, j));
        let p = enc_all(s.subrange(0, j));
        assert(enc_all(s).subrange(0, p.len() as int) =~= enc_all(s.drop_last()).subrange(
            0,
            p.len() as int,
        ));
    }
}

/// Appends the encodings of all items of `items`, with no count in front.
pub fn encode_items<T: Codec>(items: &Vec<T>, out: &mut Vec<u8>)
    ensures
        final(out)@ == old(out)@ + enc_all(items@),
{
    let mut i: usize = 0;
    while i < items.len()
        invariant
            i <= items@.len(),
            out@ == old(out)@ + enc_all(items@.subrange(0, i as int)),
        decreases items@.len() - i,
    {
        let ghost before = out@;
        items[i].encode(out);
        proof {
            lemma_enc_all_push(items@.subrange(0, i as int), items@[i as int]);
            assert(items@.subrange(0, i as int).push(items@[i as int]) =~= items@.subrange(
                0,
                i + 1,
            ));
            lemma_assoc(
                old(out)@,
                enc_all(items@.subrange(0, i as int)),
                items@[i as int].enc(),
            );
        }
        i = i + 1;
    }
    assert(items@.subrange(0, i as int) =~= items@);
}

/// A sequence is written as its item count followed by its items.
impl<T: Codec> Codec for Vec<T> {
    open spec fn enc(&self) -> Seq<u8> {
        leb(self@.len()) + enc_all(self@)
    }

    fn encode(&self, out: &mut Vec<u8>) {
        write_varint(self.len() as u64, out);
        encode_items(self, out);
        proof {
            lemma_assoc(old(out)@, leb(self@.len()), enc_all(self@));
        }
    }

    open spec fn is_tail() -> bool {
        false
    }

    open spec fn rejects(data: Seq<u8>, pos: int, e: DecodeError) -> bool {
        false
    }

    open spec fn fits(&self) -> bool {
        &&& self@.len() <= u32::MAX
        &&& !T::is_tail()
        &&& forall|i: int| 0 <= i < self@.len() ==> #[trigger] self@[i].fits()
    }

    fn decode(data: &[u8], pos: usize) -> (r: Result<(Vec<T>, usize), DecodeError>) {
        proof {
            assert forall|v: Vec<T>| #[trigger] bytes_at(data@, pos as int, v.enc(), v.fits(),
                <Vec<T>>::is_tail())
                implies varint_at(
                data@,
                pos as int,
                v@.len(),
            ) && data@.subrange(
                pos + leb(v@.len()).len(),
                pos + leb(v@.len()).len() + enc_all(v@).len(),
            ) == enc_all(v@) by {
                let k: int = leb(v@.len()).len() as int;
                assert(data@.subrange(pos as int, pos + k) =~= v.enc().subrange(0, k as int));
                assert(v.enc().subrange(0, k as int) =~= leb(v@.len()));
                assert(data@.subrange(pos + k, pos + v.enc().len()) =~= v.enc().subrange(
                    k as int,
                    v.enc().len() as int,
                ));
                assert(v.enc().subrange(k as int, v.enc().len() as int) =~= enc_all(v@));
            }
        }
        let (n, start) = read_varint(data, pos)?;
        let mut items: Vec<T> = Vec::new();
        let mut cur: usize = start;
        let mut i: u32 = 0;
        assert(data@.subrange(start as int, start as int) =~= enc_all(items@));
        proof {
            assert forall|v: Vec<T>| #[trigger] bytes_at(data@, pos as int, v.enc(), v.fits(),
                <Vec<T>>::is_tail())
                implies cur == start
                + enc_all(v@.subrange(0, 0)).len() by {
                assert(varint_at(data@, pos as int, v@.len()));
                assert(v@.subrange(0, 0) =~= Seq::<T>::empty());
            }
        }
        while i < n
            invariant
                pos < start <= cur <= data@.len(),
                data@.subrange(pos as int, start as int) == leb(n as nat),
                i <= n,
                items@.len() == i,
                data@.subrange(start as int, cur as int) == enc_all(items@),
                forall|v: Vec<T>| #[trigger]
                    bytes_at(data@, pos as int, v.enc(), v.fits(), <Vec<T>>::is_tail())
                        ==> v@.len() == n && start == pos + leb(
                        v@.len(),
                    ).len() && cur == start + enc_all(v@.subrange(0, i as int)).len()
                        && data@.subrange(start as int, start + enc_all(v@).len()) == enc_all(v@),
            decreases n - i,
        {
            proof {
                assert forall|v: Vec<T>| #[trigger] bytes_at(data@, pos as int, v.enc(), v.fits(),
                    <Vec<T>>::is_tail())
                    implies bytes_at(data@, cur as int, v@[i as int].enc(), v@[i as int].fits(),
                        <T>::is_tail())
                        && enc_all(v@.subrange(0, i + 1)).len() == enc_all(v@.subrange(0,
                            i as int)).len()
                    + v@[i as int].enc().len() by {
                    lemma_enc_all_push(v@.subrange(0, i as int), v@[i as int]);
                    assert(v@.subrange(0, i as int).push(v@[i as int]) =~= v@.subrange(0, i + 1));
                    lemma_enc_all_prefix(v@, i + 1);
                    let a: int = enc_all(v@.subrange(0, i as int)).len() as int;
                    let b: int = v@[i as int].enc().len() as int;
                    let whole = enc_all(v@);
                    let upto = enc_all(v@.subrange(0, i + 1));
                    assert(upto == enc_all(v@.subrange(0, i as int)) + v@[i as int].enc());
                    assert(upto.subrange(a, a + b) =~= v@[i as int].enc());
                    assert(whole.subrange(0, a + b) == upto);
                    assert(whole.subrange(a, a + b) =~= whole.subrange(0, a + b).subrange(a,
                        a + b));
                    assert(data@.subrange(start as int, start + whole.len()) == whole);
                    assert(data@.subrange(cur as int, cur + b) =~= data@.subrange(
                        start as int,
                        start + whole.len(),
                    ).subrange(a, a + b));
                }
            }
            let (item, next) = T::decode(data, cur)?;
            proof {
                lemma_join(data@, start as int, cur as int, next as int);
                lemma_enc_all_push(items@, item);
            }
            items.push(item);
            cur = next;
            i = i + 1;
        }
        proof {
            lemma_join(data@, pos as int, start as int, cur as int);
            assert forall|v: Vec<T>| #[trigger] bytes_at(data@, pos as int, v.enc(), v.fits(),
                <Vec<T>>::is_tail())
                implies cur == pos
                + v.enc().len() by {
                assert(v@.subrange(0, i as int) =~= v@);
            }
        }
        Ok((items, cur))
    }
}

/// Decodes one value that must take up all of `data`.
pub fn decode_exact<T: Codec>(data: &[u8]) -> (r: Result<T, DecodeError>)
    ensures
        r matches Ok(v) ==> v.enc() == data@,
        (exists|v: T| v.fits() && v.enc() == data@) ==> r is Ok,
        forall|e: DecodeError| #[trigger] T::rejects(data@, 0, e) ==> r == Err::<T, DecodeError>(e),
{
    let ghost exists_v = exists|v: T| v.fits() && v.enc() == data@;
    proof {
        if exists_v {
            let w = choose|w: T| w.fits() && w.enc() == data@;
            assert(data@.subrange(0, w.enc().len() as int) =~= data@);
            assert(bytes_at(data@, 0, w.enc(), w.fits(), T::is_tail()));
        }
    }
    let (v, end) = T::decode(data, 0)?;
    if end != data.len() {
        return Err(DecodeError::TrailingBytes);
    }
    assert(data@.subrange(0, end as int) =~= data@);
    Ok(v)
}

/// An optional value is a flag byte, 0 or 1, followed by the value when the
/// flag is 1.
impl<T: Codec> Codec for Option<T> {
    open spec fn enc(&self) -> Seq<u8> {
        match self {
            None => seq![0u8],
            Some(v) => seq![1u8] + v.enc(),
        }
    }

    fn encode(&self, out: &mut Vec<u8>) {
        match self {
            None => out.push(0u8),
            Some(v) => {
                out.push(1u8);
                v.encode(out);
            },
        }
        assert(out@ =~= old(out)@ + self.enc());
    }

    open spec fn is_tail() -> bool {
        T::is_tail()
    }

    open spec fn rejects(data: Seq<u8>, pos: int, e: DecodeError) -> bool {
        false
    }

    open spec fn fits(&self) -> bool {
        match self {
            None => true,
            Some(v) => v.fits(),
        }
    }

    fn decode(data: &[u8], pos: usize) -> (r: Result<(Option<T>, usize), DecodeError>) {
        if pos >= data.len() {
            return Err(DecodeError::UnexpectedEof);
        }
        let flag = data[pos];
        assert(data@.subrange(pos as int, pos + 1) =~= seq![flag]);
        proof {
            assert forall|v: Option<T>| #[trigger] bytes_at(data@, pos as int, v.enc(), v.fits(),
                <Option<T>>::is_tail())
                implies (flag == 0
                && v is None) || (flag == 1 && v is Some
                    && bytes_at(data@, pos + 1, v->0.enc(), v->0.fits(), <T>::is_tail())) by {
                assert(data@.subrange(pos as int, pos + v.enc().len())[0] == flag);
                if let Some(x) = v {
                    assert(data@.subrange(pos + 1, pos + 1 + x.enc().len()) =~= v.enc().subrange(
                        1,
                        v.enc().len() as int,
                    ));
                    assert(v.enc().subrange(1, v.enc().len() as int) =~= x.enc());
                }
            }
        }
        if flag == 0 {
            Ok((None, pos + 1))
        } else if flag == 1 {
            let (v, end) = T::decode(data, pos + 1)?;
            proof {
                lemma_join(data@, pos as int, pos + 1, end as int);
            }
            Ok((Some(v), end))
        } else {
            Err(DecodeError::MalformedPrimitive)
        }
    }
}

/// `data` holds, from `pos`, the encoding `enc` of a value after its first
/// byte, which is `tag`; and the value fits the encoding.
pub open spec fn tag_at(
    tag: u8,
    data: Seq<u8>,
    pos: int,
    enc: Seq<u8>,
    fits: bool,
    tail: bool,
) -> bool {
    &&& fits
    &&& enc.len() >= 1
    &&& enc[0] == tag
    &&& 1 <= pos
    &&& pos + enc.len() - 1 <= data.len()
    &&& data.subrange(pos, pos + enc.len() - 1) == enc.drop_first()
    &&& (tail ==> pos + enc.len() - 1 == data.len())
}

/// A union whose encoding is a tag byte followed by the chosen variant's
/// payload.
pub trait Tagged: Codec {
    /// Whether `tag` names a variant.
    spec fn known_tag(tag: u8) -> bool;

    /// Whether every variant's payload is length-delimited, so that any frame
    /// after a known tag decodes.
    spec fn framed() -> bool;

    /// Whether this value is as decoding leaves it: for a length-delimited
    /// union, with its payload still undecoded.
    spec fn is_raw(&self) -> bool;

    /// Every encoding starts with a known tag and carries its own extent.
    proof fn lemma_tag_first(v: Self)
        ensures
            v.enc().len() >= 1,
            Self::known_tag(v.enc()[0]),
            !Self::is_tail(),
    ;

    /// Decodes the variant that `tag` names from `data` at `pos`, where the
    /// tag itself has already been read.
    fn decode_with_discriminant(tag: u8, data: &[u8], pos: usize) -> (r: Result<
        (Self, usize),
        DecodeError,
    >)
        requires
            pos <= data@.len(),
        ensures
            r matches Ok((v, end)) ==> pos <= end <= data@.len() && seq![tag] + data@.subrange(
                pos as int,
                end as int,
            ) == v.enc(),
            !Self::known_tag(tag) ==> r == Err::<(Self, usize), DecodeError>(
                DecodeError::UnknownDiscriminant(tag),
            ),
            r matches Ok((v, _)) ==> v.is_raw(),
            forall|n: nat|
                Self::framed() && Self::known_tag(tag) && #[trigger] frame_at(data@, pos as int, n)
                    ==> (r matches Ok((_, end)) && end == pos + leb(n).len() + n),
            Self::framed() && Self::known_tag(tag) && pos == data@.len() ==> r == Err::<
                (Self, usize),
                DecodeError,
            >(DecodeError::UnexpectedEof),
            forall|n: nat|
                Self::framed() && Self::known_tag(tag) && #[trigger] varint_at(data@, pos as int, n)
                    && pos + leb(n).len() + n > data@.len() ==> r == Err::<(Self, usize), DecodeError>(
                    DecodeError::UnexpectedEof,
                ),
            forall|v: Self| #[trigger]
                tag_at(tag, data@, pos as int, v.enc(), v.fits(), <Self>::is_tail())
                    ==> (r matches Ok((_, end)) && end == pos
                    + v.enc().len() - 1),
    ;
}

} // verus!
