//! A stream of tagged items that runs to the end of its input, with no count
//! in front. Both the section stream of a module and the sub-section stream of
//! the name section have this form.
use vstd::prelude::*;
use crate::codec::{Codec, Tagged, enc_all, encode_items, bytes_at, frame_at, leb, varint_at,
    lemma_enc_all_prefix, lemma_enc_all_push, lemma_join, tag_at};
use crate::error::DecodeError;
use crate::indices::FuncId;
use crate::visit::{WasmbinVisit, force_items, ids_all, set_items_func_ids};

verus! {

/// Items one after another until the input ends.
#[derive(Debug, Clone, PartialEq, Eq, Hash)]
pub struct Stream<T> {
    pub items: Vec<T>,
}

/// From `pos` to the end, `data` is a run of frames, each a known tag, a
/// length, and that many bytes.
pub open spec fn tagged_frames<T: Tagged>(data: Seq<u8>, pos: int) -> bool
    decreases data.len() - pos,
{
    if pos < 0 || pos > data.len() {
        false
    } else if pos == data.len() {
        true
    } else {
        T::known_tag(data[pos]) && exists|n: nat|
            #[trigger] frame_at(data, pos + 1, n) && tagged_frames::<T>(
                data,
                pos + 1 + leb(n).len() + n,
            )
    }
}

/// `data` holds from `pos` the encodings of `items`, which fit, and then a
/// byte that is no known tag.
pub open spec fn unknown_after<T: Tagged>(data: Seq<u8>, pos: int, items: Seq<T>) -> bool {
    &&& forall|i: int| 0 <= i < items.len() ==> #[trigger] items[i].fits()
    &&& 0 <= pos
    &&& pos + enc_all(items).len() < data.len()
    &&& data.subrange(pos, pos + enc_all(items).len()) == enc_all(items)
    &&& !T::known_tag(data[pos + enc_all(items).len()])
}

/// `data` holds from `pos` the encodings of `items`, which fit, and then a
/// known tag of a length-delimited union whose frame the input cuts short:
/// nothing follows the tag, or the length after it runs past the end.
pub open spec fn cut_after<T: Tagged>(data: Seq<u8>, pos: int, items: Seq<T>) -> bool {
    &&& forall|i: int| 0 <= i < items.len() ==> #[trigger] items[i].fits()
    &&& 0 <= pos
    &&& pos + enc_all(items).len() < data.len()
    &&& data.subrange(pos, pos + enc_all(items).len()) == enc_all(items)
    &&& T::framed()
    &&& T::known_tag(data[pos + enc_all(items).len()])
    &&& (pos + enc_all(items).len() + 1 == data.len() || exists|n: nat|
        #[trigger] varint_at(data, pos + enc_all(items).len() + 1, n) && pos + enc_all(items).len()
            + 1 + leb(n).len() + n > data.len())
}

/// Where `data` holds the encodings of `items` from `pos`, the item at index
/// `i` stands at its place, after its tag byte.
proof fn lemma_item_at<T: Tagged>(data: Seq<u8>, pos: int, cur: int, items: Seq<T>, i: int)
    requires
        0 <= pos,
        0 <= i < items.len(),
        pos + enc_all(items).len() <= data.len(),
        data.subrange(pos, pos + enc_all(items).len()) == enc_all(items),
        cur == pos + enc_all(items.subrange(0, i)).len(),
        forall|j: int| 0 <= j < items.len() ==> #[trigger] items[j].fits(),
    ensures
        tag_at(data[cur], data, cur + 1, items[i].enc(), items[i].fits(), <T>::is_tail()),
        enc_all(items.subrange(0, i + 1)).len() == enc_all(items.subrange(0, i)).len()
            + items[i].enc().len(),
        cur + items[i].enc().len() <= pos + enc_all(items).len(),
{
    let whole = enc_all(items);
    let x = items[i];
    T::lemma_tag_first(x);
    lemma_enc_all_push(items.subrange(0, i), x);
    assert(items.subrange(0, i).push(x) =~= items.subrange(0, i + 1));
    lemma_enc_all_prefix(items, i + 1);
    let a: int = enc_all(items.subrange(0, i)).len() as int;
    let b: int = x.enc().len() as int;
    let upto = enc_all(items.subrange(0, i + 1));
    assert(upto == enc_all(items.subrange(0, i)) + x.enc());
    assert(upto.subrange(a, a + b) =~= x.enc());
    assert(whole.subrange(0, a + b) == upto);
    assert(whole.subrange(a, a + b) =~= whole.subrange(0, a + b).subrange(a, a + b));
    assert(data.subrange(cur, cur + b) =~= data.subrange(pos, pos + whole.len()).subrange(a,
        a + b));
    assert(data.subrange(cur, cur + b) == x.enc());
    assert(data.subrange(cur + 1, cur + b) =~= x.enc().drop_first());
    assert(data[cur] == data.subrange(cur, cur + b)[0]);
}

/// Reads tagged items from `pos` until the input ends exactly where a tag
/// would be read. Any failure at or after a tag byte is returned as it is.
pub fn decode_stream<T: Tagged>(data: &[u8], pos: usize) -> (r: Result<Vec<T>, DecodeError>)
    requires
        pos <= data@.len(),
    ensures
        r matches Ok(v) ==> enc_all(v@) == data@.subrange(pos as int, data@.len() as int),
        r matches Ok(v) ==> forall|i: int| 0 <= i < v@.len() ==> #[trigger] v@[i].is_raw(),
        pos == data@.len() ==> (r matches Ok(v) && v@.len() == 0),
        pos < data@.len() && !T::known_tag(data@[pos as int]) ==> r == Err::<Vec<T>, DecodeError>(
            DecodeError::UnknownDiscriminant(data@[pos as int]),
        ),
        T::framed() && tagged_frames::<T>(data@, pos as int) ==> r is Ok,
        forall|v: Stream<T>| #[trigger] bytes_at(data@, pos as int, v.enc(), v.fits(),
            <Stream<T>>::is_tail())
            ==> r is Ok,
        forall|v: Seq<T>| #[trigger]
            unknown_after(data@, pos as int, v) ==> r == Err::<Vec<T>, DecodeError>(
                DecodeError::UnknownDiscriminant(data@[pos + enc_all(v).len()]),
            ),
        forall|v: Seq<T>| #[trigger]
            cut_after(data@, pos as int, v) ==> r == Err::<Vec<T>, DecodeError>(
                DecodeError::UnexpectedEof,
            ),
{
    proof {
        assert forall|v: Seq<T>| #[trigger] cut_after(data@, pos as int, v) implies pos
            == pos + enc_all(v.subrange(0, 0)).len() by {
            assert(v.subrange(0, 0) =~= Seq::<T>::empty());
        }
        assert forall|v: Seq<T>| #[trigger] unknown_after(data@, pos as int, v) implies pos
            == pos + enc_all(v.subrange(0, 0)).len() by {
            assert(v.subrange(0, 0) =~= Seq::<T>::empty());
        }
    }
    let mut items: Vec<T> = Vec::new();
    let mut cur: usize = pos;
    assert(data@.subrange(pos as int, pos as int) =~= enc_all(items@));
    while cur < data.len()
        invariant
            pos <= cur <= data@.len(),
            data@.subrange(pos as int, cur as int) == enc_all(items@),
            cur == pos ==> items@.len() == 0,
            forall|i: int| 0 <= i < items@.len() ==> #[trigger] items@[i].is_raw(),
            cur > pos ==> T::known_tag(data@[pos as int]),
            T::framed() && tagged_frames::<T>(data@, pos as int) ==> tagged_frames::<T>(
                data@,
                cur as int,
            ),
            forall|v: Stream<T>| #[trigger]
                bytes_at(data@, pos as int, v.enc(), v.fits(), <Stream<T>>::is_tail())
                    ==> items@.len() <= v.items@.len() && cur == pos
                    + enc_all(v.items@.subrange(0, items@.len() as int)).len(),
            forall|v: Seq<T>| #[trigger]
                unknown_after(data@, pos as int, v) ==> items@.len() <= v.len() && cur == pos
                    + enc_all(v.subrange(0, items@.len() as int)).len()
                        && cur <= pos + enc_all(v).len(),
            forall|v: Seq<T>| #[trigger]
                cut_after(data@, pos as int, v) ==> items@.len() <= v.len() && cur == pos
                    + enc_all(v.subrange(0, items@.len() as int)).len()
                        && cur <= pos + enc_all(v).len(),
        decreases data@.len() - cur,
    {
        proof {
            assert forall|v: Stream<T>| #[trigger] bytes_at(data@, pos as int, v.enc(), v.fits(),
                <Stream<T>>::is_tail())
                implies items@.len()
                < v.items@.len()
                    && tag_at(data@[cur as int], data@, cur + 1,
                        v.items@[items@.len() as int].enc(), v.items@[items@.len() as int].fits(),
                            <T>::is_tail())
                        && enc_all(v.items@.subrange(0, items@.len() as int + 1)).len() == enc_all(
                v.items@.subrange(0, items@.len() as int),
            ).len() + v.items@[items@.len() as int].enc().len() by {
                if items@.len() == v.items@.len() {
                    assert(v.items@.subrange(0, items@.len() as int) =~= v.items@);
                }
                lemma_item_at(data@, pos as int, cur as int, v.items@, items@.len() as int);
            }
            assert forall|v: Seq<T>| #[trigger] unknown_after(data@, pos as int, v)
                implies (items@.len()
                == v.len() && cur == pos + enc_all(v).len()
                    && !T::known_tag(data@[cur as int])) || (items@.len() < v.len() && tag_at(
                data@[cur as int],
                data@,
                cur + 1,
                v[items@.len() as int].enc(),
                v[items@.len() as int].fits(),
                <T>::is_tail(),
            ) && enc_all(v.subrange(0, items@.len() as int + 1)).len() == enc_all(
                v.subrange(0, items@.len() as int),
            ).len() + v[items@.len() as int].enc().len() && cur + v[items@.len() as int].enc().len()
                <= pos + enc_all(v).len()) by {
                if items@.len() == v.len() {
                    assert(v.subrange(0, items@.len() as int) =~= v);
                } else {
                    lemma_item_at(data@, pos as int, cur as int, v, items@.len() as int);
                }
            }
            assert forall|v: Seq<T>| #[trigger] cut_after(data@, pos as int, v)
                implies (items@.len()
                == v.len() && cur == pos + enc_all(v).len()
                    && T::known_tag(data@[cur as int])) || (items@.len() < v.len() && tag_at(
                data@[cur as int],
                data@,
                cur + 1,
                v[items@.len() as int].enc(),
                v[items@.len() as int].fits(),
                <T>::is_tail(),
            ) && enc_all(v.subrange(0, items@.len() as int + 1)).len() == enc_all(
                v.subrange(0, items@.len() as int),
            ).len() + v[items@.len() as int].enc().len() && cur + v[items@.len() as int].enc().len()
                <= pos + enc_all(v).len()) by {
                if items@.len() == v.len() {
                    assert(v.subrange(0, items@.len() as int) =~= v);
                } else {
                    lemma_item_at(data@, pos as int, cur as int, v, items@.len() as int);
                }
            }
             }
        let tag = data[cur];
        let ghost framed = T::framed() && tagged_frames::<T>(data@, cur as int);
        let ghost n: nat = if framed {
            choose|n: nat|
                #[trigger] frame_at(data@, cur + 1, n) && tagged_frames::<T>(
                    data@,
                    cur + 1 + leb(n).len() + n,
                )
        } else {
            0
        };
        let (item, next) = T::decode_with_discriminant(tag, data, cur + 1)?;
        proof {
            if framed {
                assert(frame_at(data@, cur + 1, n));
            }
            lemma_join(data@, cur as int, cur + 1, next as int);
            assert(data@.subrange(cur as int, cur + 1) =~= seq![tag]);
            lemma_join(data@, pos as int, cur as int, next as int);
            lemma_enc_all_push(items@, item);
        }
        items.push(item);
        cur = next;
    }
    Ok(items)
}

/// A stream's encoding is its items' encodings with nothing between them.
impl<T: Tagged> Codec for Stream<T> {
    open spec fn enc(&self) -> Seq<u8> {
        enc_all(self.items@)
    }

    fn encode(&self, out: &mut Vec<u8>) {
        encode_items(&self.items, out);
    }

    open spec fn is_tail() -> bool {
        true
    }

    /// An unknown tag where the first item would start.
    open spec fn rejects(data: Seq<u8>, pos: int, e: DecodeError) -> bool {
        0 <= pos < data.len() && !T::known_tag(data[pos]) && e == DecodeError::UnknownDiscriminant(
            data[pos],
        )
    }

    open spec fn fits(&self) -> bool {
        forall|i: int| 0 <= i < self.items@.len() ==> #[trigger] self.items@[i].fits()
    }

    /// Takes the rest of the input.
    fn decode(data: &[u8], pos: usize) -> (r: Result<(Stream<T>, usize), DecodeError>) {
        let items = decode_stream(data, pos)?;
        Ok((Stream { items }, data.len()))
    }
}

impl<T: WasmbinVisit + Tagged> WasmbinVisit for Stream<T> {
    open spec fn is_forced(&self) -> bool {
        self.items.is_forced()
    }

    open spec fn agrees(&self, old: Self) -> bool {
        self.items.agrees(old.items)
    }

    proof fn lemma_agrees_refl(&self) {
        self.items.lemma_agrees_refl();
    }

    proof fn lemma_agrees_trans(&self, mid: Self, old: Self) {
        self.items.lemma_agrees_trans(mid.items, old.items);
    }

    open spec fn decodable(&self) -> bool {
        self.items.decodable()
    }

    open spec fn func_ids(&self) -> Seq<FuncId> {
        ids_all(self.items@)
    }

    fn force_all(&mut self) -> (r: Result<(), DecodeError>) {
        force_items(&mut self.items)
    }

    fn set_func_ids(&mut self, ids: &Vec<FuncId>, pos: usize) -> (r: usize) {
        set_items_func_ids(&mut self.items, ids, pos)
    }

    fn collect_func_ids(&self, out: &mut Vec<FuncId>) {
        self.items.collect_func_ids(out)
    }
}

} // verus!
