//! Traversal of a decoded tree: forcing deferred payloads, and finding the
//! function indices in declaration order. The traversal's target is fixed to
//! the function index: the tree's node types form a closed set, and there is
//! no run-time type identity to compare against a type the caller picks.
use vstd::prelude::*;
use crate::blob::{Blob, Lazy, LazyState};
use crate::codec::{Codec, enc_all};
use crate::error::DecodeError;
use crate::indices::FuncId;

verus! {

/// Why a traversal stopped early.
#[derive(Debug, Clone, PartialEq, Eq)]
pub enum VisitError<E> {
    /// A deferred payload turned out to be malformed when it was forced.
    LazyDecode(DecodeError),
    /// The callback asked to stop, with its own reason.
    Custom(E),
}

/// The error of a callback that always continues. No value of it can be
/// made: its one field is private and its invariant is false.
#[derive(Debug, Clone, Copy, PartialEq, Eq)]
pub struct NeverError {
    never: (),
}

impl NeverError {
    #[verifier::type_invariant]
    spec fn inv(&self) -> bool {
        false
    }
}

impl VisitError<NeverError> {
    /// The decode error that stopped a traversal whose callback cannot fail.
    pub fn into_decode_error(self) -> (r: DecodeError)
        ensures
            self == VisitError::<NeverError>::LazyDecode(r),
    {
        match self {
            VisitError::LazyDecode(e) => e,
            VisitError::Custom(never) => {
                proof {
                    use_type_invariant(&never);
                }
                DecodeError::UnexpectedEof
            },
        }
    }
}

/// The values a callback may return, each read as "continue" (`Ok`) or
/// "stop" (`Err`, with the callback's reason).
pub trait VisitResult: Sized {
    type Error;

    /// What this value says.
    spec fn spec_result(&self) -> Result<(), Self::Error>;

    fn as_result(self) -> (r: Result<(), Self::Error>)
        ensures
            r == self.spec_result(),
    ;
}

/// A callback that returns nothing always continues.
impl VisitResult for () {
    type Error = NeverError;

    open spec fn spec_result(&self) -> Result<(), NeverError> {
        Ok(())
    }

    fn as_result(self) -> (r: Result<(), NeverError>) {
        Ok(())
    }
}

/// `true` continues; `false` stops.
impl VisitResult for bool {
    type Error = ();

    open spec fn spec_result(&self) -> Result<(), ()> {
        if *self {
            Ok(())
        } else {
            Err(())
        }
    }

    fn as_result(self) -> (r: Result<(), ()>) {
        if self {
            Ok(())
        } else {
            Err(())
        }
    }
}

/// `Ok` continues; `Err` stops with that error.
impl<E> VisitResult for Result<(), E> {
    type Error = E;

    open spec fn spec_result(&self) -> Result<(), E> {
        *self
    }

    fn as_result(self) -> (r: Result<(), E>) {
        self
    }
}

/// What a caller runs on each function index that a traversal finds.
pub trait FuncIdVisitor {
    type Output: VisitResult;

    fn visit_func_id(&mut self, id: &FuncId) -> Self::Output;
}

/// What a caller runs on each function index that a mutating traversal
/// finds; it may change the index.
pub trait FuncIdVisitorMut {
    type Output: VisitResult;

    fn visit_func_id_mut(&mut self, id: &mut FuncId) -> Self::Output;
}

/// A callback together with a record of its calls: the indices it was handed
/// and what it returned, one entry per call, in order.
pub struct Traced<V: FuncIdVisitor> {
    pub inner: V,
    pub seen: Ghost<Seq<FuncId>>,
    pub outputs: Ghost<Seq<V::Output>>,
}

impl<V: FuncIdVisitor> Traced<V> {
    /// A callback with no calls recorded yet.
    pub fn new(inner: V) -> (t: Traced<V>)
        ensures
            t.inner == inner,
            t.seen@ == Seq::<FuncId>::empty(),
            t.outputs@ == Seq::<V::Output>::empty(),
    {
        Traced { inner, seen: Ghost(Seq::empty()), outputs: Ghost(Seq::empty()) }
    }

    /// Runs the callback on `id` and records the call.
    pub fn call(&mut self, id: &FuncId) -> (r: V::Output)
        ensures
            final(self).seen@ == old(self).seen@.push(*id),
            final(self).outputs@ == old(self).outputs@.push(r),
    {
        let r = self.inner.visit_func_id(id);
        self.seen = Ghost(self.seen@.push(*id));
        self.outputs = Ghost(self.outputs@.push(r));
        r
    }
}

/// A mutating callback together with a record of its calls: each index as
/// handed over, as the callback left it, and what it returned, in order.
pub struct TracedMut<V: FuncIdVisitorMut> {
    pub inner: V,
    pub seen: Ghost<Seq<FuncId>>,
    pub wrote: Ghost<Seq<FuncId>>,
    pub outputs: Ghost<Seq<V::Output>>,
}

impl<V: FuncIdVisitorMut> TracedMut<V> {
    /// A callback with no calls recorded yet.
    pub fn new(inner: V) -> (t: TracedMut<V>)
        ensures
            t.inner == inner,
            t.seen@ == Seq::<FuncId>::empty(),
            t.wrote@ == Seq::<FuncId>::empty(),
            t.outputs@ == Seq::<V::Output>::empty(),
    {
        TracedMut {
            inner,
            seen: Ghost(Seq::empty()),
            wrote: Ghost(Seq::empty()),
            outputs: Ghost(Seq::empty()),
        }
    }

    /// Runs the callback on `id`, which it may change, and records the call.
    pub fn call(&mut self, id: &mut FuncId) -> (r: V::Output)
        ensures
            final(self).seen@ == old(self).seen@.push(*old(id)),
            final(self).wrote@ == old(self).wrote@.push(*final(id)),
            final(self).outputs@ == old(self).outputs@.push(r),
    {
        let ghost before = *id;
        let r = self.inner.visit_func_id_mut(id);
        self.seen = Ghost(self.seen@.push(before));
        self.wrote = Ghost(self.wrote@.push(*id));
        self.outputs = Ghost(self.outputs@.push(r));
        r
    }
}

/// What a walk that hands `ids` to a callback guarantees about the callback's
/// record, from `seen0`/`out0` before to `seen1`/`out1` after: the callback
/// got a prefix of `ids` in order, one call each; every call but a refused
/// last one said to continue; `Ok` means all of `ids` were handed over; a
/// refusal `Custom(e)` carries the error of the last call.
pub open spec fn walk_post<R: VisitResult>(
    seen0: Seq<FuncId>,
    out0: Seq<R>,
    seen1: Seq<FuncId>,
    out1: Seq<R>,
    ids: Seq<FuncId>,
    r: Result<(), VisitError<R::Error>>,
) -> bool {
    let k = seen1.len() - seen0.len();
    &&& 0 <= k <= ids.len()
    &&& seen1 == seen0 + ids.subrange(0, k)
    &&& out1.len() == out0.len() + k
    &&& out1.subrange(0, out0.len() as int) == out0
    &&& forall|j: int|
        out0.len() <= j < out1.len() && !(r is Err && j == out1.len() - 1 && r matches Err(VisitError::Custom(_))) ==> #[trigger] out1[j].spec_result() is Ok
    &&& (r is Ok ==> k == ids.len())
    &&& (r matches Err(VisitError::Custom(e)) ==> k >= 1 && out1[out1.len() - 1].spec_result() == Err::<(), R::Error>(e))
}

/// A node of the decoded tree.
pub trait WasmbinVisit: Codec {
    /// Every deferred payload under this node has been decoded.
    spec fn is_forced(&self) -> bool;

    /// This node is `old` with at most its function indices changed, and
    /// some raw payloads decoded: a payload decoded here, and raw in `old`,
    /// holds a value whose encoding is the raw bytes, again with at most its
    /// function indices changed.
    spec fn agrees(&self, old: Self) -> bool;

    /// Every node agrees with itself.
    proof fn lemma_agrees_refl(&self)
        ensures
            self.agrees(*self),
    ;

    /// Agreement chains: a node that agrees with one that agrees with `old`
    /// agrees with `old`.
    proof fn lemma_agrees_trans(&self, mid: Self, old: Self)
        requires
            self.agrees(mid),
            mid.agrees(old),
        ensures
            self.agrees(old),
    ;

    /// Every deferred payload under this node that is still raw holds the
    /// encoding of some value that fits, and any value with that encoding is
    /// itself decodable: forcing it cannot fail.
    spec fn decodable(&self) -> bool;

    /// The function indices under this node, left to right in declaration
    /// order; deferred payloads that are still raw contribute none.
    spec fn func_ids(&self) -> Seq<FuncId>;

    /// Decodes every deferred payload under this node, and keeps the values.
    fn force_all(&mut self) -> (r: Result<(), DecodeError>)
        ensures
            final(self).enc() == old(self).enc(),
            r is Ok ==> final(self).is_forced(),
            old(self).is_forced() ==> r is Ok,
            old(self).decodable() ==> r is Ok,
            old(self).is_forced() ==> final(self).func_ids() == old(self).func_ids(),
            final(self).agrees(*old(self)),
    ;

    /// Overwrites the function indices under this node, left to right, with
    /// `ids[pos..]`, one each; returns the position after the last one used.
    fn set_func_ids(&mut self, ids: &Vec<FuncId>, pos: usize) -> (r: usize)
        requires
            old(self).is_forced(),
            pos + old(self).func_ids().len() <= ids@.len(),
        ensures
            r == pos + old(self).func_ids().len(),
            final(self).is_forced(),
            final(self).func_ids() == ids@.subrange(pos as int, r as int),
            final(self).agrees(*old(self)),
    ;

    /// Appends the function indices under this node to `out`.
    fn collect_func_ids(&self, out: &mut Vec<FuncId>)
        requires
            self.is_forced(),
        ensures
            final(out)@ == old(out)@ + self.func_ids(),
    ;
}

/// The function indices of the items of `s`, one after another.
pub open spec fn ids_all<T: WasmbinVisit>(s: Seq<T>) -> Seq<FuncId>
    decreases s.len(),
{
    if s.len() == 0 {
        Seq::empty()
    } else {
        ids_all(s.drop_last()) + s.last().func_ids()
    }
}

/// Adding one more item appends its function indices.
pub proof fn lemma_ids_all_push<T: WasmbinVisit>(s: Seq<T>, x: T)
    ensures
        ids_all(s.push(x)) == ids_all(s) + x.func_ids(),
{
    assert(s.push(x).drop_last() =~= s);
}

/// The function indices of a prefix of a sequence are a prefix of its
/// function indices.
pub proof fn lemma_ids_all_prefix<T: WasmbinVisit>(s: Seq<T>, j: int)
    requires
        0 <= j <= s.len(),
    ensures
        ids_all(s.subrange(0, j)).len() <= ids_all(s).len(),
        ids_all(s).subrange(0, ids_all(s.subrange(0, j)).len() as int) == ids_all(s.subrange(0, j)),
    decreases s.len(),
{
    if j == s.len() {
        assert(s.subrange(0, j) =~= s);
        assert(ids_all(s).subrange(0, ids_all(s).len() as int) =~= ids_all(s));
    } else {
        lemma_ids_all_prefix(s.drop_last(), j);
        assert(s.drop_last().subrange(0, j) =~= s.subrange(0, j));
        let p = ids_all(s.subrange(0, j));
        assert(ids_all(s).subrange(0, p.len() as int) =~= ids_all(s.drop_last()).subrange(
            0,
            p.len() as int,
        ));
    }
}

/// Items whose function indices agree one by one have the same function
/// indices.
pub proof fn lemma_ids_all_same<T: WasmbinVisit>(a: Seq<T>, b: Seq<T>)
    requires
        a.len() == b.len(),
        forall|j: int| 0 <= j < a.len() ==> #[trigger] a[j].func_ids() == b[j].func_ids(),
    ensures
        ids_all(a) == ids_all(b),
    decreases a.len(),
{
    if a.len() > 0 {
        lemma_ids_all_same(a.drop_last(), b.drop_last());
    }
}

/// The function indices of a sequence are those of its first `j` items
/// followed by those of the rest.
pub proof fn lemma_ids_all_split<T: WasmbinVisit>(s: Seq<T>, j: int)
    requires
        0 <= j <= s.len(),
    ensures
        ids_all(s) == ids_all(s.subrange(0, j)) + ids_all(s.subrange(j, s.len() as int)),
    decreases s.len(),
{
    if j == s.len() {
        assert(s.subrange(0, j) =~= s);
        assert(s.subrange(j, s.len() as int) =~= Seq::<T>::empty());
        assert(ids_all(s) + Seq::<FuncId>::empty() =~= ids_all(s));
    } else {
        lemma_ids_all_split(s.drop_last(), j);
        assert(s.drop_last().subrange(0, j) =~= s.subrange(0, j));
        assert(s.subrange(j, s.len() as int).drop_last() =~= s.drop_last().subrange(
            j,
            s.len() - 1,
        ));
        assert(s.subrange(j, s.len() as int).last() == s.last());
        assert(ids_all(s) =~= ids_all(s.subrange(0, j)) + ids_all(s.subrange(j, s.len() as int)));
    }
}

/// Items whose encodings agree one by one encode alike.
pub proof fn lemma_enc_all_same<T: Codec>(a: Seq<T>, b: Seq<T>)
    requires
        a.len() == b.len(),
        forall|j: int| 0 <= j < a.len() ==> #[trigger] a[j].enc() == b[j].enc(),
    ensures
        enc_all(a) == enc_all(b),
    decreases a.len(),
{
    if a.len() > 0 {
        lemma_enc_all_same(a.drop_last(), b.drop_last());
    }
}

/// Forces every item of `items` in turn, stopping at the first failure.
pub fn force_items<T: WasmbinVisit>(items: &mut Vec<T>) -> (r: Result<(), DecodeError>)
    ensures
        final(items)@.len() == old(items)@.len(),
        enc_all(final(items)@) == enc_all(old(items)@),
        r is Ok ==> final(items).is_forced(),
        old(items).is_forced() ==> r is Ok,
        old(items).decodable() ==> r is Ok,
        old(items).is_forced() ==> ids_all(final(items)@) == ids_all(old(items)@),
        forall|j: int| 0 <= j < old(items)@.len() ==> #[trigger] final(items)@[j].agrees(old(items)@[j]),
{
    let n = items.len();
    let mut i: usize = 0;
    while i < n
        invariant
            i <= n == items@.len() == old(items)@.len(),
            forall|j: int| 0 <= j < i ==> #[trigger] items@[j].is_forced(),
            forall|j: int| i <= j < n ==> #[trigger] items@[j] == old(items)@[j],
            forall|j: int| 0 <= j < n ==> #[trigger] items@[j].enc() == old(items)@[j].enc(),
        old(items).is_forced() ==> forall|j: int| 0 <= j < n ==> #[trigger] items@[j].func_ids() == old(items)@[j].func_ids(),
        forall|j: int| 0 <= j < i ==> #[trigger] items@[j].agrees(old(items)@[j]),
        decreases n - i,
    {
        let res = items[i].force_all();
        if res.is_err() {
            proof {
                assert forall|j: int| 0 <= j < n implies #[trigger] items@[j].agrees(old(items)@[j]) by {
                    if j > i {
                        items@[j].lemma_agrees_refl();
                    }
                }
                lemma_enc_all_same(items@, old(items)@);
            }
            return res;
        }
        i = i + 1;
    }
    proof {
        lemma_enc_all_same(items@, old(items)@);
        if old(items).is_forced() {
            lemma_ids_all_same(items@, old(items)@);
        }
    }
    Ok(())
}

/// Items whose index counts agree one by one have as many indices.
pub proof fn lemma_ids_all_len<T: WasmbinVisit>(a: Seq<T>, b: Seq<T>)
    requires
        a.len() == b.len(),
        forall|j: int| 0 <= j < a.len()
            ==> #[trigger] a[j].func_ids().len() == b[j].func_ids().len(),
    ensures
        ids_all(a).len() == ids_all(b).len(),
    decreases a.len(),
{
    if a.len() > 0 {
        lemma_ids_all_len(a.drop_last(), b.drop_last());
    }
}

/// Overwrites the function indices of the items in turn with `ids[pos..]`.
pub fn set_items_func_ids<T: WasmbinVisit>(items: &mut Vec<T>, ids: &Vec<FuncId>, pos: usize) -> (r:
    usize)
    requires
        old(items).is_forced(),
        pos + ids_all(old(items)@).len() <= ids@.len(),
    ensures
        r == pos + ids_all(old(items)@).len(),
        final(items)@.len() == old(items)@.len(),
        final(items).is_forced(),
        ids_all(final(items)@) == ids@.subrange(pos as int, r as int),
        forall|j: int| 0 <= j < old(items)@.len() ==> #[trigger] final(items)@[j].agrees(old(items)@[j]),
{
    let n = items.len();
    let mut i: usize = 0;
    let mut cur: usize = pos;
    assert(items@.subrange(0, 0) =~= Seq::<T>::empty());
    assert(ids_all(items@.subrange(0, 0)) =~= ids@.subrange(pos as int, pos as int));
    while i < n
        invariant
            i <= n == items@.len() == old(items)@.len(),
            forall|j: int| 0 <= j < n ==> #[trigger] items@[j].is_forced(),
            forall|j: int| i <= j < n ==> #[trigger] items@[j] == old(items)@[j],
            cur == pos + ids_all(old(items)@.subrange(0, i as int)).len(),
            ids_all(items@.subrange(0, i as int)) == ids@.subrange(pos as int, cur as int),
            pos + ids_all(old(items)@).len() <= ids@.len(),
        forall|j: int| 0 <= j < i ==> #[trigger] items@[j].agrees(old(items)@[j]),
        decreases n - i,
    {
        proof {
            lemma_ids_all_prefix(old(items)@, i + 1);
            lemma_ids_all_push(old(items)@.subrange(0, i as int), old(items)@[i as int]);
            assert(old(items)@.subrange(0, i as int).push(old(items)@[i as int]) =~= old(items)@.subrange(0, i + 1));
        }
        let ghost before = items@.subrange(0, i as int);
        let next = items[i].set_func_ids(ids, cur);
        proof {
            assert(items@.subrange(0, i as int) =~= before);
            lemma_ids_all_push(before, items@[i as int]);
            assert(before.push(items@[i as int]) =~= items@.subrange(0, i + 1));
            assert(ids_all(items@.subrange(0, i + 1)) =~= ids@.subrange(pos as int, next as int));
        }
        cur = next;
        i = i + 1;
    }
    proof {
        assert(items@.subrange(0, i as int) =~= items@);
        assert(old(items)@.subrange(0, i as int) =~= old(items)@);
    }
    cur
}

impl<T: WasmbinVisit> WasmbinVisit for Vec<T> {
    open spec fn is_forced(&self) -> bool {
        forall|j: int| 0 <= j < self@.len() ==> #[trigger] self@[j].is_forced()
    }

    open spec fn agrees(&self, old: Self) -> bool {
        self@.len() == old@.len() && forall|j: int| 0 <= j < self@.len() ==> #[trigger] self@[j].agrees(old@[j])
    }

    proof fn lemma_agrees_refl(&self) {
        assert forall|j: int| 0 <= j < self@.len() implies #[trigger] self@[j].agrees(self@[j]) by {
            self@[j].lemma_agrees_refl();
        }
    }

    proof fn lemma_agrees_trans(&self, mid: Self, old: Self) {
        assert forall|j: int| 0 <= j < self@.len() implies #[trigger] self@[j].agrees(old@[j]) by {
            self@[j].lemma_agrees_trans(mid@[j], old@[j]);
        }
    }

    open spec fn decodable(&self) -> bool {
        forall|j: int| 0 <= j < self@.len() ==> #[trigger] self@[j].decodable()
    }

    open spec fn func_ids(&self) -> Seq<FuncId> {
        ids_all(self@)
    }

    fn force_all(&mut self) -> (r: Result<(), DecodeError>) {
        force_items(self)
    }

    fn set_func_ids(&mut self, ids: &Vec<FuncId>, pos: usize) -> (r: usize) {
        set_items_func_ids(self, ids, pos)
    }

    fn collect_func_ids(&self, out: &mut Vec<FuncId>) {
        let mut i: usize = 0;
        while i < self.len()
            invariant
                self.is_forced(),
                i <= self@.len(),
                out@ == old(out)@ + ids_all(self@.subrange(0, i as int)),
            decreases self@.len() - i,
        {
            self[i].collect_func_ids(out);
            proof {
                lemma_ids_all_push(self@.subrange(0, i as int), self@[i as int]);
                assert(self@.subrange(0, i as int).push(self@[i as int]) =~= self@.subrange(
                    0,
                    i + 1,
                ));
                assert(out@ =~= old(out)@ + ids_all(self@.subrange(0, i + 1)));
            }
            i = i + 1;
        }
        assert(self@.subrange(0, i as int) =~= self@);
    }
}

impl<T: WasmbinVisit> WasmbinVisit for Option<T> {
    open spec fn is_forced(&self) -> bool {
        match self {
            None => true,
            Some(v) => v.is_forced(),
        }
    }

    open spec fn agrees(&self, old: Self) -> bool {
        match (*self, old) {
            (None, None) => true,
            (Some(x), Some(y)) => x.agrees(y),
            _ => false,
        }
    }

    proof fn lemma_agrees_refl(&self) {
        match *self {
            Some(v) => v.lemma_agrees_refl(),
            None => {},
        }
    }

    proof fn lemma_agrees_trans(&self, mid: Self, old: Self) {
        match (*self, mid, old) {
            (Some(x), Some(m), Some(o)) => x.lemma_agrees_trans(m, o),
            _ => {},
        }
    }

    open spec fn decodable(&self) -> bool {
        match self {
            None => true,
            Some(v) => v.decodable(),
        }
    }

    open spec fn func_ids(&self) -> Seq<FuncId> {
        match self {
            None => Seq::empty(),
            Some(v) => v.func_ids(),
        }
    }

    fn force_all(&mut self) -> (r: Result<(), DecodeError>) {
        match self {
            None => Ok(()),
            Some(v) => v.force_all(),
        }
    }

    fn set_func_ids(&mut self, ids: &Vec<FuncId>, pos: usize) -> (r: usize) {
        match self {
            None => {
                assert(Seq::<FuncId>::empty() =~= ids@.subrange(pos as int, pos as int));
                pos
            },
            Some(v) => v.set_func_ids(ids, pos),
        }
    }

    fn collect_func_ids(&self, out: &mut Vec<FuncId>) {
        match self {
            None => {
                assert(out@ =~= old(out)@ + self.func_ids());
            },
            Some(v) => v.collect_func_ids(out),
        }
    }
}

impl<T: WasmbinVisit> WasmbinVisit for Lazy<T> {
    open spec fn is_forced(&self) -> bool {
        match self.state {
            LazyState::Raw(_) => false,
            LazyState::Decoded(v) => v.is_forced(),
        }
    }

    open spec fn agrees(&self, old: Self) -> bool {
        match (self.state, old.state) {
            (LazyState::Raw(a), LazyState::Raw(b)) => a == b,
            (LazyState::Decoded(x), LazyState::Decoded(y)) => x.agrees(y),
            (LazyState::Decoded(x), LazyState::Raw(b)) => exists|y: T| y.enc() == b@ && #[trigger] x.agrees(y),
            (LazyState::Raw(_), LazyState::Decoded(_)) => false,
        }
    }

    proof fn lemma_agrees_refl(&self) {
        match self.state {
            LazyState::Decoded(v) => v.lemma_agrees_refl(),
            LazyState::Raw(_) => {},
        }
    }

    proof fn lemma_agrees_trans(&self, mid: Self, old: Self) {
        match (self.state, mid.state, old.state) {
            (LazyState::Decoded(x), LazyState::Decoded(m), LazyState::Decoded(o)) => {
                x.lemma_agrees_trans(m, o);
            },
            (LazyState::Decoded(x), LazyState::Decoded(m), LazyState::Raw(b)) => {
                let y = choose|y: T| y.enc() == b@ && #[trigger] m.agrees(y);
                x.lemma_agrees_trans(m, y);
            },
            _ => {},
        }
    }

    open spec fn decodable(&self) -> bool {
        match self.state {
            LazyState::Raw(raw) => (exists|v: T| v.fits() && v.enc() == raw@) && (forall|v: T|
                #[trigger] v.enc() == raw@ ==> v.decodable()),
            LazyState::Decoded(v) => v.decodable(),
        }
    }

    open spec fn func_ids(&self) -> Seq<FuncId> {
        match self.state {
            LazyState::Raw(_) => Seq::empty(),
            LazyState::Decoded(v) => v.func_ids(),
        }
    }

    fn force_all(&mut self) -> (r: Result<(), DecodeError>) {
        let ghost start = *self;
        let forced = self.force();
        if forced.is_err() {
            proof {
                self.lemma_agrees_refl();
            }
            return forced;
        }
        let ghost mid = *self;
        let r = match &mut self.state {
            LazyState::Decoded(v) => v.force_all(),
            LazyState::Raw(_) => Ok(()),
        };
        proof {
            let fin = *self;
            match (fin.state, mid.state, start.state) {
                (LazyState::Decoded(x), LazyState::Decoded(m), LazyState::Raw(b)) => {
                    assert(m.enc() == b@);
                    assert(x.agrees(m));
                },
                _ => {},
            }
        }
        r
    }

    fn set_func_ids(&mut self, ids: &Vec<FuncId>, pos: usize) -> (r: usize) {
        match &mut self.state {
            LazyState::Decoded(v) => v.set_func_ids(ids, pos),
            LazyState::Raw(_) => pos,
        }
    }

    fn collect_func_ids(&self, out: &mut Vec<FuncId>) {
        match &self.state {
            LazyState::Decoded(v) => v.collect_func_ids(out),
            LazyState::Raw(_) => {},
        }
    }
}

impl<T: WasmbinVisit> WasmbinVisit for Blob<T> {
    open spec fn is_forced(&self) -> bool {
        self.contents.is_forced()
    }

    open spec fn agrees(&self, old: Self) -> bool {
        self.contents.agrees(old.contents)
    }

    proof fn lemma_agrees_refl(&self) {
        self.contents.lemma_agrees_refl();
    }

    proof fn lemma_agrees_trans(&self, mid: Self, old: Self) {
        self.contents.lemma_agrees_trans(mid.contents, old.contents);
    }

    open spec fn decodable(&self) -> bool {
        self.contents.decodable()
    }

    open spec fn func_ids(&self) -> Seq<FuncId> {
        self.contents.func_ids()
    }

    fn force_all(&mut self) -> (r: Result<(), DecodeError>) {
        self.contents.force_all()
    }

    fn set_func_ids(&mut self, ids: &Vec<FuncId>, pos: usize) -> (r: usize) {
        self.contents.set_func_ids(ids, pos)
    }

    fn collect_func_ids(&self, out: &mut Vec<FuncId>) {
        self.contents.collect_func_ids(out)
    }
}

impl WasmbinVisit for u8 {
    open spec fn is_forced(&self) -> bool {
        true
    }

    open spec fn agrees(&self, old: Self) -> bool {
        *self == old
    }

    proof fn lemma_agrees_refl(&self) {
    }

    proof fn lemma_agrees_trans(&self, mid: Self, old: Self) {
    }

    open spec fn decodable(&self) -> bool {
        true
    }

    open spec fn func_ids(&self) -> Seq<FuncId> {
        Seq::empty()
    }

    fn force_all(&mut self) -> (r: Result<(), DecodeError>) {
        Ok(())
    }

    fn set_func_ids(&mut self, ids: &Vec<FuncId>, pos: usize) -> (r: usize) {
        assert(self.func_ids() =~= ids@.subrange(pos as int, pos as int));
        pos
    }

    fn collect_func_ids(&self, out: &mut Vec<FuncId>) {
        assert(out@ =~= old(out)@ + self.func_ids());
    }
}

impl WasmbinVisit for u32 {
    open spec fn is_forced(&self) -> bool {
        true
    }

    open spec fn agrees(&self, old: Self) -> bool {
        *self == old
    }

    proof fn lemma_agrees_refl(&self) {
    }

    proof fn lemma_agrees_trans(&self, mid: Self, old: Self) {
    }

    open spec fn decodable(&self) -> bool {
        true
    }

    open spec fn func_ids(&self) -> Seq<FuncId> {
        Seq::empty()
    }

    fn force_all(&mut self) -> (r: Result<(), DecodeError>) {
        Ok(())
    }

    fn set_func_ids(&mut self, ids: &Vec<FuncId>, pos: usize) -> (r: usize) {
        assert(self.func_ids() =~= ids@.subrange(pos as int, pos as int));
        pos
    }

    fn collect_func_ids(&self, out: &mut Vec<FuncId>) {
        assert(out@ =~= old(out)@ + self.func_ids());
    }
}

impl WasmbinVisit for bool {
    open spec fn is_forced(&self) -> bool {
        true
    }

    open spec fn agrees(&self, old: Self) -> bool {
        *self == old
    }

    proof fn lemma_agrees_refl(&self) {
    }

    proof fn lemma_agrees_trans(&self, mid: Self, old: Self) {
    }

    open spec fn decodable(&self) -> bool {
        true
    }

    open spec fn func_ids(&self) -> Seq<FuncId> {
        Seq::empty()
    }

    fn force_all(&mut self) -> (r: Result<(), DecodeError>) {
        Ok(())
    }

    fn set_func_ids(&mut self, ids: &Vec<FuncId>, pos: usize) -> (r: usize) {
        assert(self.func_ids() =~= ids@.subrange(pos as int, pos as int));
        pos
    }

    fn collect_func_ids(&self, out: &mut Vec<FuncId>) {
        assert(out@ =~= old(out)@ + self.func_ids());
    }
}

impl WasmbinVisit for String {
    open spec fn is_forced(&self) -> bool {
        true
    }

    open spec fn agrees(&self, old: Self) -> bool {
        *self == old
    }

    proof fn lemma_agrees_refl(&self) {
    }

    proof fn lemma_agrees_trans(&self, mid: Self, old: Self) {
    }

    open spec fn decodable(&self) -> bool {
        true
    }

    open spec fn func_ids(&self) -> Seq<FuncId> {
        Seq::empty()
    }

    fn force_all(&mut self) -> (r: Result<(), DecodeError>) {
        Ok(())
    }

    fn set_func_ids(&mut self, ids: &Vec<FuncId>, pos: usize) -> (r: usize) {
        assert(self.func_ids() =~= ids@.subrange(pos as int, pos as int));
        pos
    }

    fn collect_func_ids(&self, out: &mut Vec<FuncId>) {
        assert(out@ =~= old(out)@ + self.func_ids());
    }
}

} // verus!
