//! The top level: a module is a stream of sections, decoded and encoded whole,
//! and walked to find its function indices.
use vstd::prelude::*;
use crate::codec::{Codec, Tagged, bytes_at, enc_all, lemma_enc_all_prefix, lemma_enc_all_push};
use crate::error::DecodeError;
use crate::indices::FuncId;
use crate::sections::{Section, lemma_section_tag};
use crate::stream::{Stream, cut_after, decode_stream, tagged_frames, unknown_after};
use crate::visit::{
    FuncIdVisitor, FuncIdVisitorMut, Traced, TracedMut, VisitError, VisitResult, WasmbinVisit, ids_all, lemma_enc_all_same,
    lemma_ids_all_len, lemma_ids_all_prefix, lemma_ids_all_same, lemma_ids_all_split, lemma_ids_all_push, walk_post,
};

verus! {

/// What decoding a section stream guarantees: success gives sections whose
/// encodings, one after another, are exactly the input, with every payload
/// still undecoded; input that is a run of
/// frames (a section tag, a length, that many bytes), or the encoding of any
/// sections that fit, always succeeds; empty input gives no sections; a byte
/// that is no section tag, where a section would start, is refused as such;
/// a section frame cut short by the end of input gives `UnexpectedEof`.
pub open spec fn decode_sections_post(data: Seq<u8>, r: Result<Vec<Section>, DecodeError>) -> bool {
    &&& (r matches Ok(v) ==> enc_all(v@) == data)
    &&& (r matches Ok(v) ==> forall|i: int| 0 <= i < v@.len() ==> #[trigger] v@[i].is_raw())
    &&& (tagged_frames::<Section>(data, 0) ==> r is Ok)
    &&& (forall|v: Vec<Section>|
        sections_fit(v@) && #[trigger] enc_all(v@) == data ==> r is Ok)
    &&& (data.len() == 0 ==> (r matches Ok(v) && v@.len() == 0))
    &&& (data.len() > 0 && data[0] > 11 ==> r == Err::<Vec<Section>, DecodeError>(
        DecodeError::UnknownDiscriminant(data[0]),
    ))
    &&& (forall|v: Seq<Section>| #[trigger]
        cut_after(data, 0, v) ==> r == Err::<Vec<Section>, DecodeError>(DecodeError::UnexpectedEof))
    &&& (forall|v: Seq<Section>| #[trigger]
        unknown_after(data, 0, v) ==> r == Err::<Vec<Section>, DecodeError>(
            DecodeError::UnknownDiscriminant(data[enc_all(v).len() as int]),
        ))
}

/// Every section fits the encoding: its payload is at most `u32::MAX` bytes.
pub open spec fn sections_fit(s: Seq<Section>) -> bool {
    forall|i: int| 0 <= i < s.len() ==> #[trigger] s[i].fits()
}

/// Decodes a whole section stream. The payloads are left undecoded.
pub fn decode_sections(data: &[u8]) -> (r: Result<Vec<Section>, DecodeError>)
    ensures
        decode_sections_post(data@, r),
{
    let r = decode_stream::<Section>(data, 0);
    assert(data@.subrange(0, data@.len() as int) =~= data@);
    proof {
        assert forall|v: Vec<Section>| sections_fit(v@) && #[trigger] enc_all(v@) == data@
            implies r is Ok by {
            let st = Stream { items: v };
            assert(bytes_at(data@, 0, st.enc(), st.fits(), Stream::<Section>::is_tail()));
        }
    }
    r
}

/// Encodes sections one after another, each as its tag and its payload with
/// the payload's length in front; payloads never decoded are written as read.
pub fn encode_sections(sections: &Vec<Section>) -> (r: Vec<u8>)
    ensures
        r@ == enc_all(sections@),
{
    let mut out: Vec<u8> = Vec::new();
    crate::codec::encode_items(sections, &mut out);
    assert(out@ =~= enc_all(sections@));
    out
}

/// Decoding a section stream and encoding the result gives back the input,
/// byte for byte.
pub proof fn lemma_round_trip(data: Seq<u8>, sections: Vec<Section>, out: Vec<u8>)
    requires
        decode_sections_post(data, Ok(sections)),
        out@ == enc_all(sections@),
    ensures
        out@ == data,
{
}

/// A byte that names no section, standing where a section would start, makes
/// decoding fail with that byte as the unknown discriminant; it is neither
/// skipped nor a panic.
pub proof fn lemma_unknown_discriminant(
    prefix: Seq<Section>,
    bad: u8,
    rest: Seq<u8>,
    r: Result<Vec<Section>, DecodeError>,
)
    requires
        sections_fit(prefix),
        bad > 11,
        decode_sections_post(enc_all(prefix) + seq![bad] + rest, r),
    ensures
        r == Err::<Vec<Section>, DecodeError>(DecodeError::UnknownDiscriminant(bad)),
{
    let data = enc_all(prefix) + seq![bad] + rest;
    assert(data.subrange(0, enc_all(prefix).len() as int) =~= enc_all(prefix));
    assert(data[enc_all(prefix).len() as int] == bad);
    assert(unknown_after(data, 0, prefix));
}

/// A section tag with nothing after it, where a section would start, makes
/// decoding fail with `UnexpectedEof`: the end of input is fatal anywhere but
/// at a section boundary.
pub proof fn lemma_tag_at_end(prefix: Seq<Section>, tag: u8, r: Result<Vec<Section>, DecodeError>)
    requires
        sections_fit(prefix),
        tag <= 11,
        decode_sections_post(enc_all(prefix) + seq![tag], r),
    ensures
        r == Err::<Vec<Section>, DecodeError>(DecodeError::UnexpectedEof),
{
    let data = enc_all(prefix) + seq![tag];
    assert(data.subrange(0, enc_all(prefix).len() as int) =~= enc_all(prefix));
    assert(data[enc_all(prefix).len() as int] == tag);
    assert(cut_after(data, 0, prefix));
}

/// In a decoded stream, the tag byte where section `i` starts is the tag of
/// that section's kind; so typed access to section `i` succeeds exactly for
/// the payload type whose kind that byte names.
pub proof fn lemma_decoded_tag(data: Seq<u8>, v: Vec<Section>, i: int)
    requires
        decode_sections_post(data, Ok(v)),
        0 <= i < v@.len(),
    ensures
        enc_all(v@.subrange(0, i)).len() < data.len(),
        data[enc_all(v@.subrange(0, i)).len() as int] == v@[i].spec_kind().spec_discriminant(),
{
    let s = v@;
    lemma_enc_all_push(s.subrange(0, i), s[i]);
    assert(s.subrange(0, i).push(s[i]) =~= s.subrange(0, i + 1));
    lemma_enc_all_prefix(s, i + 1);
    lemma_section_tag(s[i]);
    let a = enc_all(s.subrange(0, i)).len() as int;
    assert(enc_all(s).subrange(0, a + s[i].enc().len())[a] == enc_all(s)[a]);
}

/// Any sections that fit the encoding encode to bytes that decode
/// successfully.
pub proof fn lemma_encoded_sections_decode(
    sections: Vec<Section>,
    out: Vec<u8>,
    r: Result<Vec<Section>, DecodeError>,
)
    requires
        sections_fit(sections@),
        out@ == enc_all(sections@),
        decode_sections_post(out@, r),
    ensures
        r is Ok,
{
}

/// Forcing payloads does not change what the sections encode to, so a stream
/// still round-trips after its payloads have been inspected.
pub proof fn lemma_round_trip_after_force(
    data: Seq<u8>,
    before: Vec<Section>,
    after: Vec<Section>,
    out: Vec<u8>,
)
    requires
        decode_sections_post(data, Ok(before)),
        after@.len() == before@.len(),
        enc_all(after@) == enc_all(before@),
        out@ == enc_all(after@),
    ensures
        out@ == data,
{
}

/// The function indices under `node`, in declaration order; every deferred
/// payload under it is decoded on the way and kept decoded.
pub fn func_ids<N: WasmbinVisit>(node: &mut N) -> (r: Result<Vec<FuncId>, DecodeError>)
    ensures
        final(node).enc() == old(node).enc(),
        r matches Ok(v) ==> final(node).is_forced() && v@ == final(node).func_ids(),
        old(node).is_forced() ==> r is Ok,
        old(node).decodable() ==> r is Ok,
{
    node.force_all()?;
    let mut ids: Vec<FuncId> = Vec::new();
    node.collect_func_ids(&mut ids);
    assert(ids@ =~= node.func_ids());
    Ok(ids)
}

/// A walk over `before` that ended as `after` stopped at item `s`: the items
/// before it are fully decoded and the items after it are as they were.
pub open spec fn stopped_at<T: WasmbinVisit>(before: Seq<T>, after: Seq<T>, s: int) -> bool {
    &&& 0 <= s <= before.len()
    &&& after.len() == before.len()
    &&& forall|j: int| 0 <= j < s ==> #[trigger] after[j].is_forced()
    &&& forall|j: int| s < j < before.len() ==> #[trigger] after[j] == before[j]
}

/// Hands each of `ids`, in order, to `visitor`, and stops at the first that it
/// refuses.
pub fn visit_each<V: FuncIdVisitor>(ids: &Vec<FuncId>, visitor: &mut Traced<V>) -> (r: Result<
    (),
    VisitError<<V::Output as VisitResult>::Error>,
>)
    ensures
        walk_post(
            old(visitor).seen@,
            old(visitor).outputs@,
            final(visitor).seen@,
            final(visitor).outputs@,
            ids@,
            r,
        ),
        !(r matches Err(VisitError::LazyDecode(_))),
{
    let ghost s0 = visitor.seen@;
    let ghost o0 = visitor.outputs@;
    let mut i: usize = 0;
    assert(ids@.subrange(0, 0) =~= Seq::<FuncId>::empty());
    assert(s0 + ids@.subrange(0, 0) =~= s0);
    assert(visitor.outputs@.subrange(0, o0.len() as int) =~= o0);
    while i < ids.len()
        invariant
            i <= ids@.len(),
            s0 == old(visitor).seen@,
            o0 == old(visitor).outputs@,
            visitor.seen@ == s0 + ids@.subrange(0, i as int),
            visitor.outputs@.len() == o0.len() + i,
            visitor.outputs@.subrange(0, o0.len() as int) == o0,
            forall|j: int|
                o0.len() <= j < visitor.outputs@.len() ==> #[trigger] visitor.outputs@[j].spec_result() is Ok,
        decreases ids@.len() - i,
    {
        let ghost prev = visitor.outputs@;
        let out = visitor.call(&ids[i]);
        let ghost last = out;
        let res = out.as_result();
        proof {
            assert(visitor.seen@ =~= s0 + ids@.subrange(0, i + 1));
            assert(visitor.outputs@.subrange(0, o0.len() as int) =~= o0);
            assert(visitor.outputs@[visitor.outputs@.len() - 1] == last);
        }
        match res {
            Ok(()) => {},
            Err(e) => {
                proof {
                    let k = visitor.seen@.len() - s0.len();
                    assert(k == i + 1);
                    assert(visitor.seen@ == s0 + ids@.subrange(0, k));
                    assert(visitor.outputs@.len() == o0.len() + k);
                    assert(visitor.outputs@[visitor.outputs@.len() - 1].spec_result() == Err::<(), <V::Output as VisitResult>::Error>(e));
                    assert forall|j: int|
                        o0.len() <= j < visitor.outputs@.len() - 1 implies #[trigger] visitor.outputs@[j].spec_result() is Ok by {
                        assert(visitor.outputs@[j] == prev[j]);
                    }
                }
                return Err(VisitError::Custom(e));
            },
        }
        i = i + 1;
    }
    Ok(())
}

/// Walks the items in order, handing every function index to `visitor`, left
/// to right in declaration order. Each item's deferred payloads are decoded,
/// and kept decoded, when the walk reaches that item, and not before; a walk
/// that stops leaves later items as they were. A payload that fails to decode
/// stops the walk with `LazyDecode`; a refusal by the visitor stops it with
/// `Custom`, carrying the visitor's error.
pub fn visit<T: WasmbinVisit, V: FuncIdVisitor>(items: &mut Vec<T>, visitor: &mut Traced<V>) -> (r: Result<
    (),
    VisitError<<V::Output as VisitResult>::Error>,
>)
    ensures
        final(items)@.len() == old(items)@.len(),
        enc_all(final(items)@) == enc_all(old(items)@),
        walk_post(
            old(visitor).seen@,
            old(visitor).outputs@,
            final(visitor).seen@,
            final(visitor).outputs@,
            final(items).func_ids(),
            r,
        ),
        r is Ok ==> final(items).is_forced(),
        old(items).decodable() ==> !(r matches Err(VisitError::LazyDecode(_))),
        old(items).is_forced() ==> !(r matches Err(VisitError::LazyDecode(_))),
        old(items).is_forced() ==> final(items).func_ids() == old(items).func_ids(),
        forall|j: int| 0 <= j < old(items)@.len() ==> #[trigger] final(items)@[j].agrees(old(items)@[j]),
        exists|s: int|
            #[trigger] stopped_at(old(items)@, final(items)@, s) && (r is Ok ==> s == old(items)@.len()),
{
    let ghost s0 = visitor.seen@;
    let ghost o0 = visitor.outputs@;
    let n = items.len();
    let mut i: usize = 0;
    assert(items@.subrange(0, 0) =~= Seq::<T>::empty());
    assert(s0 + ids_all(items@.subrange(0, 0)) =~= s0);
    assert(visitor.outputs@.subrange(0, o0.len() as int) =~= o0);
    while i < n
        invariant
            i <= n == items@.len() == old(items)@.len(),
            s0 == old(visitor).seen@,
            o0 == old(visitor).outputs@,
            forall|j: int| 0 <= j < i ==> #[trigger] items@[j].is_forced(),
            forall|j: int| i <= j < n ==> #[trigger] items@[j] == old(items)@[j],
            forall|j: int| 0 <= j < n ==> #[trigger] items@[j].enc() == old(items)@[j].enc(),
            visitor.seen@ == s0 + ids_all(items@.subrange(0, i as int)),
            visitor.outputs@.len() == o0.len() + ids_all(items@.subrange(0, i as int)).len(),
            visitor.outputs@.subrange(0, o0.len() as int) == o0,
            forall|j: int|
                o0.len() <= j < visitor.outputs@.len() ==> #[trigger] visitor.outputs@[j].spec_result() is Ok,
        old(items).is_forced() ==> forall|j: int| 0 <= j < n ==> #[trigger] items@[j].func_ids() == old(items)@[j].func_ids(),
            forall|j: int| 0 <= j < i ==> #[trigger] items@[j].agrees(old(items)@[j]),
            decreases n - i,
    {
        let ghost before = items@.subrange(0, i as int);
        let ghost orig = items@[i as int];
        let forced = items[i].force_all();
        proof {
            assert(items@.subrange(0, i as int) =~= before);
        }
        match forced {
            Err(e) => {
                proof {
                    lemma_enc_all_same(items@, old(items)@);
                    lemma_ids_all_prefix(items@, i as int);
                    assert(visitor.seen@ =~= s0 + items.func_ids().subrange(0, ids_all(before).len() as int));
                }
                proof {
                    assert forall|j: int| 0 <= j < n implies #[trigger] items@[j].agrees(old(items)@[j]) by {
                        if j > i {
                            items@[j].lemma_agrees_refl();
                        }
                    }
                    assert(stopped_at(old(items)@, items@, i as int));
                }
                return Err(VisitError::LazyDecode(e));
            },
            Ok(()) => {},
        }
        let mut ids: Vec<FuncId> = Vec::new();
        items[i].collect_func_ids(&mut ids);
        assert(ids@ =~= items@[i as int].func_ids());
        let ghost s1 = visitor.seen@;
        let ghost o1 = visitor.outputs@;
        let walked = visit_each(&ids, visitor);
        proof {
            lemma_ids_all_push(before, items@[i as int]);
            assert(before.push(items@[i as int]) =~= items@.subrange(0, i + 1));
            lemma_ids_all_prefix(items@, i + 1);
            let a = ids_all(before);
            let b = items@[i as int].func_ids();
            let k = visitor.seen@.len() - s1.len();
            assert(items.func_ids().subrange(0, (a + b).len() as int) == a + b);
            assert(visitor.seen@ =~= s0 + (a + b).subrange(0, a.len() + k));
            assert((a + b).subrange(0, a.len() + k) =~= items.func_ids().subrange(0, a.len() + k));
            assert(visitor.outputs@.subrange(0, o0.len() as int) =~= o1.subrange(0, o0.len() as int));
            assert forall|j: int|
                o0.len() <= j < visitor.outputs@.len() && !(walked is Err && j == visitor.outputs@.len() - 1
                    && walked matches Err(VisitError::Custom(_))) implies #[trigger] visitor.outputs@[j].spec_result() is Ok by {
                if j < o1.len() {
                    assert(visitor.outputs@[j] == visitor.outputs@.subrange(0, o1.len() as int)[j]);
                }
            }
        }
        match walked {
            Err(e) => {
                proof {
                    lemma_enc_all_same(items@, old(items)@);
                    if old(items).is_forced() {
                        lemma_ids_all_same(items@, old(items)@);
                    }
                }
                proof {
                    assert forall|j: int| 0 <= j < n implies #[trigger] items@[j].agrees(old(items)@[j]) by {
                        if j > i {
                            items@[j].lemma_agrees_refl();
                        }
                    }
                    assert(stopped_at(old(items)@, items@, i + 1));
                }
                return Err(e);
            },
            Ok(()) => {},
        }
        i = i + 1;
    }
    proof {
        lemma_enc_all_same(items@, old(items)@);
        assert(items@.subrange(0, i as int) =~= items@);
        if old(items).is_forced() {
            lemma_ids_all_same(items@, old(items)@);
        }
        assert(items.func_ids().subrange(0, items.func_ids().len() as int) =~= items.func_ids());
    }
    assert(stopped_at(old(items)@, items@, n as int));
    Ok(())
}

/// Hands each of `ids`, in order, to `visitor`, which may change it in place;
/// stops at the first that it refuses. The indices not reached stay as they
/// were.
pub fn visit_each_mut<V: FuncIdVisitorMut>(ids: &mut Vec<FuncId>, visitor: &mut TracedMut<V>) -> (r: Result<
    (),
    VisitError<<V::Output as VisitResult>::Error>,
>)
    ensures
        final(ids)@.len() == old(ids)@.len(),
        walk_post(
            old(visitor).seen@,
            old(visitor).outputs@,
            final(visitor).seen@,
            final(visitor).outputs@,
            old(ids)@,
            r,
        ),
        walk_post(
            old(visitor).wrote@,
            old(visitor).outputs@,
            final(visitor).wrote@,
            final(visitor).outputs@,
            final(ids)@,
            r,
        ),
        final(visitor).seen@.len() - old(visitor).seen@.len() == final(visitor).wrote@.len()
            - old(visitor).wrote@.len(),
        final(ids)@.subrange(final(visitor).seen@.len() - old(visitor).seen@.len(), old(ids)@.len() as int)
            == old(ids)@.subrange(final(visitor).seen@.len() - old(visitor).seen@.len(), old(ids)@.len() as int),
        !(r matches Err(VisitError::LazyDecode(_))),
{
    let ghost s0 = visitor.seen@;
    let ghost w0 = visitor.wrote@;
    let ghost o0 = visitor.outputs@;
    let ghost ids0 = ids@;
    let n = ids.len();
    let mut i: usize = 0;
    assert(s0 + ids@.subrange(0, 0) =~= s0);
    assert(w0 + ids@.subrange(0, 0) =~= w0);
    assert(visitor.outputs@.subrange(0, o0.len() as int) =~= o0);
    while i < n
        invariant
            i <= n == ids@.len() == ids0.len(),
            s0 == old(visitor).seen@,
            w0 == old(visitor).wrote@,
            o0 == old(visitor).outputs@,
            ids0 == old(ids)@,
            visitor.seen@ == s0 + ids0.subrange(0, i as int),
            visitor.wrote@ == w0 + ids@.subrange(0, i as int),
            ids@.subrange(i as int, n as int) == ids0.subrange(i as int, n as int),
            visitor.outputs@.len() == o0.len() + i,
            visitor.outputs@.subrange(0, o0.len() as int) == o0,
            forall|j: int|
                o0.len() <= j < visitor.outputs@.len() ==> #[trigger] visitor.outputs@[j].spec_result() is Ok,
        decreases n - i,
    {
        let ghost prev = visitor.outputs@;
        let ghost before = ids@;
        let mut id = ids[i];
        assert(id == ids0[i as int]) by {
            assert(ids@.subrange(i as int, n as int)[0] == ids0.subrange(i as int, n as int)[0]);
        }
        let out = visitor.call(&mut id);
        let ghost last = out;
        ids.set(i, id);
        let res = out.as_result();
        proof {
            assert(visitor.seen@ =~= s0 + ids0.subrange(0, i + 1));
            assert(visitor.wrote@ =~= w0 + ids@.subrange(0, i + 1));
            assert(ids@.subrange(i + 1, n as int) =~= before.subrange(i + 1, n as int));
            assert(before.subrange(i + 1, n as int) =~= before.subrange(i as int, n as int).subrange(
                1,
                n - i,
            ));
            assert(ids0.subrange(i + 1, n as int) =~= ids0.subrange(i as int, n as int).subrange(
                1,
                n - i,
            ));
            assert(visitor.outputs@.subrange(0, o0.len() as int) =~= o0);
            assert(visitor.outputs@[visitor.outputs@.len() - 1] == last);
            assert forall|j: int|
                o0.len() <= j < visitor.outputs@.len() - 1 implies #[trigger] visitor.outputs@[j].spec_result() is Ok by {
                assert(visitor.outputs@[j] == prev[j]);
            }
        }
        match res {
            Ok(()) => {},
            Err(e) => {
                proof {
                    assert(ids@.subrange(i + 1, n as int) == ids0.subrange(i + 1, n as int));
                }
                return Err(VisitError::Custom(e));
            },
        }
        i = i + 1;
    }
    proof {
        assert(ids0.subrange(0, n as int) =~= ids0);
        assert(ids@.subrange(0, n as int) =~= ids@);
    }
    Ok(())
}

/// Walks the items in order, handing every function index to `visitor`, left
/// to right in declaration order, for changing. Each item's deferred payloads
/// are decoded, and kept decoded, when the walk reaches that item; a walk that
/// stops leaves later items as they were. The visitor's record of what it left
/// is a prefix of the final indices, one call per index; the rest were not
/// reached. A payload that fails to decode stops the walk with `LazyDecode`;
/// a refusal stops it with `Custom`, carrying the visitor's error.
pub fn visit_mut<T: WasmbinVisit, V: FuncIdVisitorMut>(items: &mut Vec<T>, visitor: &mut TracedMut<V>) -> (r: Result<
    (),
    VisitError<<V::Output as VisitResult>::Error>,
>)
    ensures
        final(items)@.len() == old(items)@.len(),
        walk_post(
            old(visitor).wrote@,
            old(visitor).outputs@,
            final(visitor).wrote@,
            final(visitor).outputs@,
            final(items).func_ids(),
            r,
        ),
        final(visitor).seen@.len() - old(visitor).seen@.len() == final(visitor).wrote@.len()
            - old(visitor).wrote@.len(),
        r is Ok ==> final(items).is_forced(),
        old(items).decodable() ==> !(r matches Err(VisitError::LazyDecode(_))),
        old(items).is_forced() ==> !(r matches Err(VisitError::LazyDecode(_))),
        old(items).is_forced() ==> final(visitor).seen@ == old(visitor).seen@ + old(items).func_ids().subrange(
            0,
            final(visitor).seen@.len() - old(visitor).seen@.len(),
        ),
        old(items).is_forced() ==> final(items).func_ids().len() == old(items).func_ids().len(),
        old(items).is_forced() ==> final(items).func_ids().subrange(
            final(visitor).seen@.len() - old(visitor).seen@.len(),
            old(items).func_ids().len() as int,
        ) == old(items).func_ids().subrange(
            final(visitor).seen@.len() - old(visitor).seen@.len(),
            old(items).func_ids().len() as int,
        ),
        forall|j: int| 0 <= j < old(items)@.len() ==> #[trigger] final(items)@[j].agrees(old(items)@[j]),
        exists|s: int|
            #[trigger] stopped_at(old(items)@, final(items)@, s) && (r is Ok ==> s == old(items)@.len()),
{
    let ghost s0 = visitor.seen@;
    let ghost w0 = visitor.wrote@;
    let ghost o0 = visitor.outputs@;
    let n = items.len();
    let mut i: usize = 0;
    assert(items@.subrange(0, 0) =~= Seq::<T>::empty());
    assert(w0 + ids_all(items@.subrange(0, 0)) =~= w0);
    assert(visitor.outputs@.subrange(0, o0.len() as int) =~= o0);
    while i < n
        invariant
            i <= n == items@.len() == old(items)@.len(),
            s0 == old(visitor).seen@,
            w0 == old(visitor).wrote@,
            o0 == old(visitor).outputs@,
            forall|j: int| 0 <= j < i ==> #[trigger] items@[j].is_forced(),
            forall|j: int| i <= j < n ==> #[trigger] items@[j] == old(items)@[j],
            visitor.wrote@ == w0 + ids_all(items@.subrange(0, i as int)),
            visitor.seen@.len() - s0.len() == visitor.wrote@.len() - w0.len(),
            visitor.outputs@.len() == o0.len() + ids_all(items@.subrange(0, i as int)).len(),
            visitor.outputs@.subrange(0, o0.len() as int) == o0,
            forall|j: int|
                o0.len() <= j < visitor.outputs@.len() ==> #[trigger] visitor.outputs@[j].spec_result() is Ok,
        old(items).is_forced() ==> visitor.seen@ == s0 + ids_all(old(items)@.subrange(0, i as int)),
            old(items).is_forced() ==> forall|j: int|
                0 <= j < n ==> #[trigger] items@[j].func_ids().len() == old(items)@[j].func_ids().len(),
            forall|j: int| 0 <= j < i ==> #[trigger] items@[j].agrees(old(items)@[j]),
            decreases n - i,
    {
        let ghost before = items@.subrange(0, i as int);
        let ghost orig = items@[i as int];
        let forced = items[i].force_all();
        proof {
            assert(items@.subrange(0, i as int) =~= before);
        }
        match forced {
            Err(e) => {
                proof {
                    lemma_ids_all_prefix(items@, i as int);
                    assert(visitor.wrote@ =~= w0 + items.func_ids().subrange(0, ids_all(before).len() as int));
                }
                proof {
                    assert forall|j: int| 0 <= j < n implies #[trigger] items@[j].agrees(old(items)@[j]) by {
                        if j > i {
                            items@[j].lemma_agrees_refl();
                        }
                    }
                    assert(stopped_at(old(items)@, items@, i as int));
                }
                return Err(VisitError::LazyDecode(e));
            },
            Ok(()) => {},
        }
        let mut ids: Vec<FuncId> = Vec::new();
        items[i].collect_func_ids(&mut ids);
        assert(ids@ =~= items@[i as int].func_ids());
        let ghost w1 = visitor.wrote@;
        let ghost s1 = visitor.seen@;
        let ghost oldids = ids@;
        let ghost o1 = visitor.outputs@;
        let walked = visit_each_mut(&mut ids, visitor);
        let ghost mid = items@;
        let ghost forced_i = items@[i as int];
        let _ = items[i].set_func_ids(&ids, 0);
        proof {
            items@[i as int].lemma_agrees_trans(forced_i, orig);
        }
        proof {
            assert(items@.subrange(0, i as int) =~= before);
            assert(ids@.subrange(0, ids@.len() as int) =~= ids@);
            lemma_ids_all_push(before, items@[i as int]);
            assert(before.push(items@[i as int]) =~= items@.subrange(0, i + 1));
            lemma_ids_all_prefix(items@, i + 1);
            let a = ids_all(before);
            let b = items@[i as int].func_ids();
            let k = visitor.wrote@.len() - w1.len();
            assert(items.func_ids().subrange(0, (a + b).len() as int) == a + b);
            assert(visitor.wrote@ =~= w0 + (a + b).subrange(0, a.len() + k));
            assert((a + b).subrange(0, a.len() + k) =~= items.func_ids().subrange(0, a.len() + k));
            assert(visitor.outputs@.subrange(0, o0.len() as int) =~= o1.subrange(0, o0.len() as int));
            assert forall|j: int|
                o0.len() <= j < visitor.outputs@.len() && !(walked is Err && j == visitor.outputs@.len() - 1
                    && walked matches Err(VisitError::Custom(_))) implies #[trigger] visitor.outputs@[j].spec_result() is Ok by {
                if j < o1.len() {
                    assert(visitor.outputs@[j] == visitor.outputs@.subrange(0, o1.len() as int)[j]);
                }
            }
        }
        proof {
            if old(items).is_forced() {
                let p = old(items)@;
                let q = items@;
                let k2 = visitor.seen@.len() - s1.len();
                lemma_ids_all_push(p.subrange(0, i as int), p[i as int]);
                assert(p.subrange(0, i as int).push(p[i as int]) =~= p.subrange(0, i + 1));
                lemma_ids_all_prefix(p, i + 1);
                let pa = ids_all(p.subrange(0, i as int));
                let pb = p[i as int].func_ids();
                assert(ids_all(p).subrange(0, (pa + pb).len() as int) == pa + pb);
                assert(visitor.seen@ =~= s0 + (pa + pb).subrange(0, pa.len() + k2));
                assert((pa + pb).subrange(0, pa.len() + k2) =~= ids_all(p).subrange(0, pa.len() + k2));
                lemma_ids_all_len(q.subrange(0, i as int), p.subrange(0, i as int));
                lemma_ids_all_split(q, i + 1);
                lemma_ids_all_split(p, i + 1);
                lemma_ids_all_push(q.subrange(0, i as int), q[i as int]);
                assert(q.subrange(0, i as int).push(q[i as int]) =~= q.subrange(0, i + 1));
                assert(q.subrange(i + 1, n as int) =~= p.subrange(i + 1, n as int));
                let qa = ids_all(q.subrange(0, i as int));
                let qb = q[i as int].func_ids();
                let rest = ids_all(p.subrange(i + 1, n as int));
                assert(qa.len() == pa.len());
                assert(qb == ids@);
                assert(pb == oldids);
                assert(ids_all(q) == qa + qb + rest);
                assert(ids_all(p) == pa + pb + rest);
                assert(qb.subrange(k2, qb.len() as int) == pb.subrange(k2, pb.len() as int));
                assert(k2 <= pb.len());
                assert forall|x: int| pa.len() + k2 <= x < ids_all(p).len() implies #[trigger] ids_all(q)[x]
                    == ids_all(p)[x] by {
                    if x < pa.len() + qb.len() {
                        assert(qb.subrange(k2, qb.len() as int)[x - pa.len() - k2] == pb.subrange(
                            k2,
                            pb.len() as int,
                        )[x - pa.len() - k2]);
                    }
                }
                assert(ids_all(q).subrange(pa.len() + k2, ids_all(p).len() as int) =~= ids_all(p).subrange(
                    pa.len() + k2,
                    ids_all(p).len() as int,
                ));
            }
        }
        match walked {
            Err(e) => {
                proof {
                    assert forall|j: int| 0 <= j < n implies #[trigger] items@[j].agrees(old(items)@[j]) by {
                        if j > i {
                            items@[j].lemma_agrees_refl();
                        }
                    }
                    assert(stopped_at(old(items)@, items@, i + 1));
                }
                return Err(e);
            },
            Ok(()) => {},
        }
        i = i + 1;
    }
    proof {
        assert(items@.subrange(0, i as int) =~= items@);
        assert(items.func_ids().subrange(0, items.func_ids().len() as int) =~= items.func_ids());
        if old(items).is_forced() {
            assert(old(items)@.subrange(0, i as int) =~= old(items)@);
            lemma_ids_all_len(items@, old(items)@);
            assert(old(items).func_ids().subrange(0, old(items).func_ids().len() as int) =~= old(
                items,
            ).func_ids());
        }
    }
    assert(stopped_at(old(items)@, items@, n as int));
    Ok(())
}

} // verus!
