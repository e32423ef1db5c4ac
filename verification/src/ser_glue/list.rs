//! The list codecs. A self-delimited list carries its length as a prefix; an
//! extra-driven list learns its shape from out-of-band input instead, which
//! lets the elements themselves need extras.

use vstd::prelude::*;

use crate::integer::{
    le_bytes, lemma_le_bytes_props, lemma_pow256_monotone, lemma_usize_width,
    lemma_vli_unsigned_canon, spec_dec_content, spec_ser_int, spec_vli_unsigned, Integer,
    IntegerDeserialiser, IntegerReadError, SignedState,
};
use crate::ser_glue::tuple::{spec_ser_pair, TupleDeserialiser, TupleReadError};
use crate::ser_glue::uuid::Uuid;
use crate::ser_glue::{DeserMachine, DesiredInput, FsmResult, Serable};

verus! {

/// The concatenated encodings of a sequence of values.
pub open spec fn spec_ser_seq<T: Serable>(s: Seq<T>) -> Seq<u8>
    decreases s.len(),
{
    if s.len() == 0 {
        Seq::empty()
    } else {
        s[0].spec_ser() + spec_ser_seq(s.drop_first())
    }
}

/// Concatenated encodings grow one element's bytes at a time.
pub proof fn lemma_spec_ser_seq_take<T: Serable>(s: Seq<T>, i: int)
    requires
        0 <= i < s.len(),
    ensures
        spec_ser_seq(s.take(i + 1)) == spec_ser_seq(s.take(i)) + s[i].spec_ser(),
    decreases i,
{
    if i == 0 {
        assert(s.take(1).drop_first() =~= Seq::<T>::empty());
        assert(s.take(0) =~= Seq::<T>::empty());
        assert(s.take(1)[0] == s[0]);
        assert(spec_ser_seq(Seq::<T>::empty()) =~= Seq::<u8>::empty());
        assert(s[0].spec_ser() + Seq::<u8>::empty() =~= s[0].spec_ser());
        assert(spec_ser_seq(s.take(1)) =~= s[0].spec_ser());
        assert(spec_ser_seq(s.take(1)) =~= spec_ser_seq(s.take(0)) + s[0].spec_ser());
    } else {
        lemma_spec_ser_seq_take(s.drop_first(), i - 1);
        assert(s.take(i + 1).drop_first() =~= s.drop_first().take(i));
        assert(s.take(i).drop_first() =~= s.drop_first().take(i - 1));
        assert(s.take(i + 1)[0] == s[0] && s.take(i)[0] == s[0]);
        assert(spec_ser_seq(s.take(i + 1)) == s[0].spec_ser() + spec_ser_seq(s.drop_first().take(i)));
        assert(spec_ser_seq(s.take(i)) == s[0].spec_ser() + spec_ser_seq(
            s.drop_first().take(i - 1),
        ));
        assert((s[0].spec_ser() + spec_ser_seq(s.drop_first().take(i - 1))) + s[i].spec_ser()
            =~= s[0].spec_ser() + (spec_ser_seq(s.drop_first().take(i - 1)) + s.drop_first()[i
            - 1].spec_ser()));
    }
}

/// A list wrapper that writes only the elements, back to back; the caller
/// must already know the count. Serialisation hands each element's extra
/// output back in order.
pub struct ListSer<'a, T>(pub &'a [T]);

impl<'a, T: Serable> Serable for ListSer<'a, T> {
    type ExtraOutput = Vec<T::ExtraOutput>;

    open spec fn spec_ser(&self) -> Seq<u8> {
        spec_ser_seq(self.0@)
    }

    open spec fn spec_extra_ok(&self, extra: Vec<T::ExtraOutput>) -> bool {
        extra@.len() == self.0@.len() && forall|i: int|
            0 <= i < extra@.len() ==> self.0@[i].spec_extra_ok(#[trigger] extra@[i])
    }

    /// Appends every element's encoding in order.
    fn ser_into(&self, into: &mut Vec<u8>) -> (r: Vec<T::ExtraOutput>) {
        let mut extras: Vec<T::ExtraOutput> = Vec::new();
        let mut i: usize = 0;
        proof {
            assert(self.0@.take(0) =~= Seq::<T>::empty());
            assert(into@ =~= old(into)@ + spec_ser_seq(self.0@.take(0)));
        }
        while i < self.0.len()
            invariant
                i <= self.0@.len(),
                into@ == old(into)@ + spec_ser_seq(self.0@.take(i as int)),
                extras@.len() == i,
                forall|j: int| 0 <= j < i ==> self.0@[j].spec_extra_ok(#[trigger] extras@[j]),
            decreases self.0@.len() - i,
        {
            let e = self.0[i].ser_into(into);
            extras.push(e);
            proof {
                lemma_spec_ser_seq_take(self.0@, i as int);
            }
            i += 1;
        }
        proof {
            assert(self.0@.take(self.0@.len() as int) =~= self.0@);
            assert(self.spec_ser() == spec_ser_seq(self.0@));
            assert(self.spec_extra_ok(extras));
        }
        extras
    }
}

/// A self-delimited list wrapper: the element count as an unsigned integer,
/// then the elements back to back. Only elements without extras fit here.
pub struct BasicListSer<'a, T>(pub &'a [T]);

impl<'a, T: Serable<ExtraOutput = ()>> Serable for BasicListSer<'a, T> {
    type ExtraOutput = ();

    open spec fn spec_ser(&self) -> Seq<u8> {
        spec_vli_unsigned(self.0@.len()) + spec_ser_seq(self.0@)
    }

    open spec fn spec_extra_ok(&self, extra: ()) -> bool {
        true
    }

    /// Appends the count, then every element's encoding.
    fn ser_into(&self, into: &mut Vec<u8>) -> (r: ()) {
        Integer::from_usize(self.0.len()).ser_into(into);
        let _ = ListSer(self.0).ser_into(into);
        proof {
            lemma_len_prefix_canon(self.0@.len());
            assert(self.spec_extra_ok(()));
            assert(final(into)@ =~= old(into)@ + self.spec_ser());
        }
    }
}

/// A count that fits `usize` has a canonical short length prefix.
pub proof fn lemma_len_prefix_canon(n: nat)
    requires
        n <= usize::MAX,
    ensures
        le_bytes(n).len() <= vstd::layout::size_of::<usize>(),
        le_bytes(n).len() <= 16,
        spec_ser_int(le_bytes(n)) == spec_vli_unsigned(n),
{
    lemma_usize_width();
    let w = vstd::layout::size_of::<usize>() as nat;
    lemma_pow256_monotone(w, 16);
    lemma_le_bytes_props(n);
    if le_bytes(n).len() > w {
        lemma_pow256_monotone(w, (le_bytes(n).len() - 1) as nat);
    }
    lemma_vli_unsigned_canon(n);
}

/// A failure while reading a self-delimited list, keeping whether the count
/// or an element was at fault.
#[derive(Debug)]
pub enum BasicListReadError<E> {
    /// The length prefix failed to decode or did not fit a `usize`.
    Len(IntegerReadError),
    /// An element failed to decode.
    Element(E),
}

/// The concatenated encodings of identifier/integer pairs, given each
/// pair's identifier bytes and stored integer bytes.
pub open spec fn spec_ser_pairs(ts: Seq<(Seq<u8>, Seq<u8>)>) -> Seq<u8>
    decreases ts.len(),
{
    if ts.len() == 0 {
        Seq::empty()
    } else {
        spec_ser_pair(ts[0].0, ts[0].1) + spec_ser_pairs(ts.drop_first())
    }
}

/// Pair targets that reachable decodes can produce.
pub open spec fn pairs_fit(ts: Seq<(Seq<u8>, Seq<u8>)>) -> bool {
    forall|i: int|
        0 <= i < ts.len() ==> (#[trigger] ts[i]).0.len() == 16 && ts[i].1.len() <= 16
}

/// A pair stream splits at any pair boundary.
pub proof fn lemma_pairs_split(ts: Seq<(Seq<u8>, Seq<u8>)>, i: int)
    requires
        0 <= i <= ts.len(),
    ensures
        spec_ser_pairs(ts) == spec_ser_pairs(ts.take(i)) + spec_ser_pairs(ts.skip(i)),
    decreases i,
{
    if i == 0 {
        assert(ts.take(0) =~= Seq::<(Seq<u8>, Seq<u8>)>::empty());
        assert(ts.skip(0) =~= ts);
        assert(Seq::<u8>::empty() + spec_ser_pairs(ts) =~= spec_ser_pairs(ts));
    } else {
        lemma_pairs_split(ts.drop_first(), i - 1);
        assert(ts.take(i).drop_first() =~= ts.drop_first().take(i - 1));
        assert(ts.skip(i) =~= ts.drop_first().skip(i - 1));
        assert(ts.take(i)[0] == ts[0]);
        assert((spec_ser_pair(ts[0].0, ts[0].1) + spec_ser_pairs(ts.drop_first().take(i - 1)))
            + spec_ser_pairs(ts.drop_first().skip(i - 1)) =~= spec_ser_pair(ts[0].0, ts[0].1) + (
        spec_ser_pairs(ts.drop_first().take(i - 1)) + spec_ser_pairs(ts.drop_first().skip(i - 1))));
    }
}

/// One pair's bytes sit between the pairs before and after it.
pub proof fn lemma_pairs_frame(ts: Seq<(Seq<u8>, Seq<u8>)>, i: int)
    requires
        0 <= i < ts.len(),
    ensures
        spec_ser_pairs(ts) == spec_ser_pairs(ts.take(i)) + spec_ser_pair(ts[i].0, ts[i].1)
            + spec_ser_pairs(ts.skip(i + 1)),
        spec_ser_pairs(ts.take(i + 1)) == spec_ser_pairs(ts.take(i)) + spec_ser_pair(
            ts[i].0,
            ts[i].1,
        ),
{
    lemma_pairs_split(ts, i);
    assert(ts.skip(i)[0] == ts[i]);
    assert(ts.skip(i).drop_first() =~= ts.skip(i + 1));
    assert(spec_ser_pairs(ts.take(i)) + (spec_ser_pair(ts[i].0, ts[i].1) + spec_ser_pairs(
        ts.skip(i + 1),
    )) =~= (spec_ser_pairs(ts.take(i)) + spec_ser_pair(ts[i].0, ts[i].1)) + spec_ser_pairs(
        ts.skip(i + 1),
    ));
    lemma_pairs_split(ts, i + 1);
    assert(ts.take(i + 1).take(i) =~= ts.take(i));
    lemma_pairs_split(ts.take(i + 1), i);
    assert(ts.take(i + 1).skip(i) =~= seq![ts[i]]);
    assert(seq![ts[i]].drop_first() =~= Seq::<(Seq<u8>, Seq<u8>)>::empty());
    assert(spec_ser_pairs(seq![ts[i]]) =~= spec_ser_pair(ts[i].0, ts[i].1));
}

/// The pull-driven decoder for an extra-driven list of identifier/integer
/// pairs. The extra input is the vector of per-element extras: one sign per
/// element, so its length also fixes the element count.
#[derive(Debug)]
pub enum ListDeserialiser {
    /// Waiting for the out-of-band extras.
    AwaitingExtras,
    /// Working through the elements; `next_extra` indexes the extra for the
    /// element after the current one.
    GettingElements {
        extras: Vec<SignedState>,
        next_extra: usize,
        so_far: Vec<(Uuid, Integer)>,
        current: TupleDeserialiser,
    },
    /// The extras arrived empty: the list is complete and empty.
    FoundEmptyExtras,
}

impl ListDeserialiser {
    /// Structural soundness of a reachable machine state.
    pub open spec fn inv(&self) -> bool {
        match self {
            ListDeserialiser::AwaitingExtras => true,
            ListDeserialiser::GettingElements { extras, next_extra, so_far, current } => {
                &&& current.inv()
                &&& !(*current is Empty)
                &&& 1 <= *next_extra <= extras@.len()
            },
            ListDeserialiser::FoundEmptyExtras => true,
        }
    }

    /// How many pure processing steps remain before bytes are needed again.
    pub open spec fn rank(&self) -> nat {
        match self {
            ListDeserialiser::AwaitingExtras => 0,
            ListDeserialiser::GettingElements { extras, next_extra, current, .. } => {
                let remaining: nat = if *next_extra <= extras@.len() {
                    (extras@.len() - *next_extra) as nat
                } else {
                    0
                };
                current.rank() + 2 * remaining + 1
            },
            ListDeserialiser::FoundEmptyExtras => 1,
        }
    }

    /// What the machine asks of the driver in each state.
    pub open spec fn spec_wants(&self) -> DesiredInput {
        match self {
            ListDeserialiser::AwaitingExtras => DesiredInput::Extra,
            ListDeserialiser::GettingElements { current, .. } => current.spec_wants(),
            ListDeserialiser::FoundEmptyExtras => DesiredInput::ProcessMe,
        }
    }

    /// The machine has consumed the first `p` bytes of the concatenated pair
    /// encodings `ts`, with `signs` the per-element extras it was given.
    pub open spec fn following(
        &self,
        signs: Seq<SignedState>,
        ts: Seq<(Seq<u8>, Seq<u8>)>,
        p: int,
    ) -> bool {
        &&& pairs_fit(ts)
        &&& signs.len() == ts.len()
        &&& match self {
            ListDeserialiser::AwaitingExtras => false,
            ListDeserialiser::GettingElements { extras, next_extra, so_far, current } => {
                let i = so_far@.len() as int;
                let done = spec_ser_pairs(ts.take(i)).len() as int;
                &&& extras@ == signs
                &&& 0 <= i < ts.len()
                &&& *next_extra == i + 1
                &&& pairs_decoded(so_far@, signs, ts, i)
                &&& current.following(ts[i].0, signs[i], ts[i].1, p - done)
                &&& done <= p <= spec_ser_pairs(ts).len()
            },
            ListDeserialiser::FoundEmptyExtras => ts.len() == 0 && p == 0,
        }
    }

    /// While following: the extra is never requested again, bytes are
    /// requested only strictly inside the pair stream and never more than
    /// remain, and the complete stream asks to be processed.
    pub proof fn lemma_following_wants(
        &self,
        signs: Seq<SignedState>,
        ts: Seq<(Seq<u8>, Seq<u8>)>,
        p: int,
    )
        requires
            self.following(signs, ts, p),
        ensures
            !(self.spec_wants() is Extra),
            self.spec_wants() is Byte ==> self.byte_capacity() == 1,
            self.spec_wants() matches DesiredInput::Bytes(k) ==> k == self.byte_capacity(),
            self.byte_capacity() <= spec_ser_pairs(ts).len() - p,
            (self.spec_wants() is Byte || self.spec_wants() is Bytes) ==> self.byte_capacity() > 0
                && p < spec_ser_pairs(ts).len(),
            p == spec_ser_pairs(ts).len() ==> self.spec_wants() is ProcessMe,
            0 <= p <= spec_ser_pairs(ts).len(),
    {
        match self {
            ListDeserialiser::AwaitingExtras => {},
            ListDeserialiser::GettingElements { extras, next_extra, so_far, current } => {
                let i = so_far@.len() as int;
                let done = spec_ser_pairs(ts.take(i)).len() as int;
                current.lemma_following_wants(ts[i].0, signs[i], ts[i].1, p - done);
                lemma_pairs_frame(ts, i);
                if p - done == spec_ser_pair(ts[i].0, ts[i].1).len() && i + 1 < ts.len() {
                    assert(p < spec_ser_pairs(ts).len()) by {
                        lemma_pairs_frame(ts, i + 1);
                        assert(spec_ser_pair(ts[i + 1].0, ts[i + 1].1).len() >= 1);
                    }
                }
            },
            ListDeserialiser::FoundEmptyExtras => {},
        }
    }
}

/// The already-finished elements match the first `i` pair targets.
pub open spec fn pairs_decoded(
    so_far: Seq<(Uuid, Integer)>,
    signs: Seq<SignedState>,
    ts: Seq<(Seq<u8>, Seq<u8>)>,
    i: int,
) -> bool {
    &&& so_far.len() == i
    &&& forall|j: int|
        0 <= j < i ==> (#[trigger] so_far[j]).0@ == ts[j].0 && so_far[j].1.sign() == signs[j]
            && so_far[j].1.bytes() == spec_dec_content(signs[j], ts[j].1)
}

impl DeserMachine for ListDeserialiser {
    type ExtraInput = Vec<SignedState>;

    type Output = Vec<(Uuid, Integer)>;

    type Error = TupleReadError<core::convert::Infallible, IntegerReadError>;

    open spec fn byte_capacity(&self) -> nat {
        match self.spec_wants() {
            DesiredInput::Byte => 1,
            DesiredInput::Bytes(k) => k as nat,
            _ => 0,
        }
    }

    fn new() -> (r: Self)
        ensures
            r == ListDeserialiser::AwaitingExtras,
    {
        ListDeserialiser::AwaitingExtras
    }

    fn give_starting_input(&mut self, extras: Vec<SignedState>)
        ensures
            !(*old(self) is AwaitingExtras) ==> *final(self) == *old(self),
            *old(self) is AwaitingExtras ==> final(self).inv() && !(*final(self)
                is AwaitingExtras) && final(self).rank() <= 2 * extras@.len() + 2,
            *old(self) is AwaitingExtras ==> forall|ts: Seq<(Seq<u8>, Seq<u8>)>|
                pairs_fit(ts) && ts.len() == extras@.len() ==> final(self).following(
                    extras@,
                    ts,
                    0,
                ),
    {
        if matches!(self, ListDeserialiser::AwaitingExtras) {
            if extras.len() == 0 {
                *self = ListDeserialiser::FoundEmptyExtras;
            } else {
                let first = extras[0];
                let mut current = TupleDeserialiser::new();
                current.give_starting_input(first);
                *self = ListDeserialiser::GettingElements {
                    extras,
                    next_extra: 1,
                    so_far: Vec::new(),
                    current,
                };
                proof {
                    assert forall|ts: Seq<(Seq<u8>, Seq<u8>)>|
                        pairs_fit(ts) && ts.len() == extras@.len() implies final(self).following(extras@, ts, 0) by {
                        assert(ts.take(0) =~= Seq::<(Seq<u8>, Seq<u8>)>::empty());
                        assert(spec_ser_pairs(ts.take(0)).len() == 0);
                        assert(final(self)->current->reading_a.content@ =~= ts[0].0.subrange(
                            0,
                            0,
                        ));
                        lemma_pairs_frame(ts, 0);
                    }
                }
            }
        }
    }

    fn new_with_starting_input(extras: Vec<SignedState>) -> (r: Self)
        ensures
            r.inv(),
            !(r is AwaitingExtras),
            r.rank() <= 2 * extras@.len() + 2,
            forall|ts: Seq<(Seq<u8>, Seq<u8>)>|
                pairs_fit(ts) && ts.len() == extras@.len() ==> r.following(extras@, ts, 0),
    {
        let mut s = ListDeserialiser::AwaitingExtras;
        s.give_starting_input(extras);
        s
    }

    fn wants_read(&self) -> (r: DesiredInput)
        ensures
            r == self.spec_wants(),
    {
        match self {
            ListDeserialiser::AwaitingExtras => DesiredInput::Extra,
            ListDeserialiser::GettingElements { current, .. } => current.wants_read(),
            ListDeserialiser::FoundEmptyExtras => DesiredInput::ProcessMe,
        }
    }

    fn finish_bytes_for_writing(&mut self, bytes: &[u8])
        ensures
            old(self).inv() ==> final(self).inv(),
            (*final(self) is AwaitingExtras) == (*old(self) is AwaitingExtras),
            bytes@.len() == 0 ==> *final(self) == *old(self),
            forall|signs: Seq<SignedState>, ts: Seq<(Seq<u8>, Seq<u8>)>, p: int|
                #[trigger] old(self).following(signs, ts, p) && bytes@.len() > 0 && p
                    + bytes@.len() <= spec_ser_pairs(ts).len() && bytes@ == spec_ser_pairs(
                    ts,
                ).subrange(p, p + bytes@.len()) ==> final(self).following(
                    signs,
                    ts,
                    p + bytes@.len(),
                ),
    {
        match self {
            ListDeserialiser::GettingElements { current, .. } => {
                current.finish_bytes_for_writing(bytes);
                proof {
                    assert forall|signs: Seq<SignedState>, ts: Seq<(Seq<u8>, Seq<u8>)>, p: int|
                        #[trigger] old(self).following(signs, ts, p) && bytes@.len() > 0 && p
                            + bytes@.len() <= spec_ser_pairs(ts).len() && bytes@
                            == spec_ser_pairs(ts).subrange(p, p + bytes@.len()) implies final(self).following(signs, ts, p + bytes@.len()) by {
                        let oc = old(self)->GettingElements_current;
                        let i = old(self)->GettingElements_so_far@.len() as int;
                        let done = spec_ser_pairs(ts.take(i)).len() as int;
                        oc.lemma_following_wants(ts[i].0, signs[i], ts[i].1, p - done);
                        lemma_pairs_frame(ts, i);
                        assert(spec_ser_pairs(ts).subrange(p, p + bytes@.len())
                            =~= spec_ser_pair(ts[i].0, ts[i].1).subrange(
                            p - done,
                            p - done + bytes@.len(),
                        ));
                    }
                }
            },
            _ => {},
        }
    }

    fn process(self) -> (r: Result<
        FsmResult<Self, Vec<(Uuid, Integer)>>,
        TupleReadError<core::convert::Infallible, IntegerReadError>,
    >)
        ensures
            self.inv() ==> (r matches Ok(FsmResult::Continue(m2)) ==> m2.inv() && (
            self.spec_wants() is ProcessMe ==> m2.rank() < self.rank())),
            r matches Ok(FsmResult::Continue(m2)) ==> ((m2 is AwaitingExtras) == (self
                is AwaitingExtras)),
            self is AwaitingExtras ==> r == Ok::<
                FsmResult<Self, Vec<(Uuid, Integer)>>,
                TupleReadError<core::convert::Infallible, IntegerReadError>,
            >(FsmResult::Continue(ListDeserialiser::AwaitingExtras)),
            self is FoundEmptyExtras ==> (r matches Ok(FsmResult::Done(v)) && v@ == Seq::<
                (Uuid, Integer),
            >::empty()),
            r matches Err(e) ==> self is GettingElements && e matches TupleReadError::BError(_),
            forall|signs: Seq<SignedState>, ts: Seq<(Seq<u8>, Seq<u8>)>, p: int|
                #[trigger] self.following(signs, ts, p) && self.spec_wants() is ProcessMe
                    ==> match r {
                    Ok(FsmResult::Continue(m2)) => m2.following(signs, ts, p) && m2.rank()
                        < self.rank(),
                    Ok(FsmResult::Done(v)) => p == spec_ser_pairs(ts).len() && pairs_decoded(
                        v@,
                        signs,
                        ts,
                        ts.len() as int,
                    ),
                    Err(_) => false,
                },
    {
        let ghost orig = self;
        match self {
            ListDeserialiser::AwaitingExtras => {
                Ok(FsmResult::Continue(ListDeserialiser::AwaitingExtras))
            },
            ListDeserialiser::FoundEmptyExtras => {
                let out: Vec<(Uuid, Integer)> = Vec::new();
                Ok(FsmResult::Done(out))
            },
            ListDeserialiser::GettingElements { extras, next_extra, mut so_far, current } => {
                let ghost old_cur = current;
                let ghost old_so_far = so_far@;
                match current.process() {
                    Err(e) => {
                        proof {
                            assert forall|
                                signs: Seq<SignedState>,
                                ts: Seq<(Seq<u8>, Seq<u8>)>,
                                p: int,
                            |
                                #[trigger] orig.following(signs, ts, p) && orig.spec_wants()
                                    is ProcessMe implies false by {
                                let i = old_so_far.len() as int;
                                let done = spec_ser_pairs(ts.take(i)).len() as int;
                                assert(old_cur.following(ts[i].0, signs[i], ts[i].1, p - done));
                            }
                        }
                        Err(e)
                    },
                    Ok(FsmResult::Continue(current)) => {
                        let m2 = ListDeserialiser::GettingElements {
                            extras,
                            next_extra,
                            so_far,
                            current,
                        };
                        proof {
                            assert forall|
                                signs: Seq<SignedState>,
                                ts: Seq<(Seq<u8>, Seq<u8>)>,
                                p: int,
                            |
                                #[trigger] orig.following(signs, ts, p) && orig.spec_wants()
                                    is ProcessMe implies m2.following(signs, ts, p) && m2.rank()
                                < orig.rank() by {
                                let i = old_so_far.len() as int;
                                let done = spec_ser_pairs(ts.take(i)).len() as int;
                                assert(old_cur.following(ts[i].0, signs[i], ts[i].1, p - done));
                            }
                        }
                        Ok(FsmResult::Continue(m2))
                    },
                    Ok(FsmResult::Done(pair)) => {
                        so_far.push(pair);
                        if next_extra < extras.len() {
                            let sign = extras[next_extra];
                            let mut fresh = TupleDeserialiser::new();
                            fresh.give_starting_input(sign);
                            let m2 = ListDeserialiser::GettingElements {
                                extras,
                                next_extra: next_extra + 1,
                                so_far,
                                current: fresh,
                            };
                            proof {
                                assert forall|
                                    signs: Seq<SignedState>,
                                    ts: Seq<(Seq<u8>, Seq<u8>)>,
                                    p: int,
                                |
                                    #[trigger] orig.following(signs, ts, p) && orig.spec_wants()
                                        is ProcessMe implies m2.following(signs, ts, p)
                                    && m2.rank() < orig.rank() by {
                                    let i = old_so_far.len() as int;
                                    let done = spec_ser_pairs(ts.take(i)).len() as int;
                                    assert(old_cur.following(ts[i].0, signs[i], ts[i].1, p
                                        - done));
                                    lemma_pairs_frame(ts, i);
                                    assert(i + 1 < ts.len()) by {
                                        assert(next_extra as int == i + 1);
                                    }
                                    assert(ts.take(i + 1) =~= ts.take(i).push(ts[i]));
                                    assert(m2->GettingElements_current->reading_a.content@
                                        =~= ts[i + 1].0.subrange(0, 0));
                                    assert(spec_ser_pairs(ts.take(i + 1)).len() as int == p);
                                }
                            }
                            Ok(FsmResult::Continue(m2))
                        } else {
                            proof {
                                assert forall|
                                    signs: Seq<SignedState>,
                                    ts: Seq<(Seq<u8>, Seq<u8>)>,
                                    p: int,
                                |
                                    #[trigger] orig.following(signs, ts, p) && orig.spec_wants()
                                        is ProcessMe implies p == spec_ser_pairs(ts).len()
                                    && pairs_decoded(so_far@, signs, ts, ts.len() as int) by {
                                    let i = old_so_far.len() as int;
                                    let done = spec_ser_pairs(ts.take(i)).len() as int;
                                    assert(old_cur.following(ts[i].0, signs[i], ts[i].1, p
                                        - done));
                                    lemma_pairs_frame(ts, i);
                                    assert(i + 1 == ts.len());
                                    assert(ts.take(i + 1) =~= ts);
                                }
                            }
                            Ok(FsmResult::Done(so_far))
                        }
                    },
                }
            },
        }
    }
}

/// Law: an empty list's wire form is the single count byte zero, followed
/// by no payload bytes at all.
pub proof fn lemma_empty_list_encoding<T: Serable>(s: Seq<T>)
    requires
        s.len() == 0,
    ensures
        spec_vli_unsigned(s.len()) + spec_ser_seq(s) == seq![0u8],
{
    crate::integer::lemma_pow256_positive(16);
    lemma_vli_unsigned_canon(0);
    assert(le_bytes(0) =~= Seq::<u8>::empty());
    assert(spec_ser_seq(s) =~= Seq::<u8>::empty());
    assert(spec_vli_unsigned(0) + Seq::<u8>::empty() =~= seq![0u8]);
}

/// The run of unsigned extras handed to every element of a self-delimited
/// pair list.
pub open spec fn unsigned_signs(n: nat) -> Seq<SignedState> {
    Seq::new(n, |i: int| SignedState::Unsigned)
}

/// The self-delimited wire form of a pair list: the element count, then the
/// pairs.
pub open spec fn spec_ser_basic_pairs(ts: Seq<(Seq<u8>, Seq<u8>)>) -> Seq<u8> {
    spec_vli_unsigned(ts.len()) + spec_ser_pairs(ts)
}

/// A pair count that can come back out of memory.
pub open spec fn basic_pairs_fit(ts: Seq<(Seq<u8>, Seq<u8>)>) -> bool {
    pairs_fit(ts) && ts.len() <= usize::MAX
}

/// The pull-driven decoder for a self-delimited list of identifier/integer
/// pairs: the element count as an unsigned integer, then that many pairs.
#[derive(Debug)]
pub enum BasicListDeserialiser {
    /// The count prefix is still being decoded.
    GettingLen(IntegerDeserialiser),
    /// The count is known; the pairs stream in.
    GettingElements(ListDeserialiser),
}

impl BasicListDeserialiser {
    /// Structural soundness of a reachable machine state.
    pub open spec fn inv(&self) -> bool {
        match self {
            BasicListDeserialiser::GettingLen(im) => im.inv() && !(*im is Start),
            BasicListDeserialiser::GettingElements(lm) => lm.inv() && !(*lm is AwaitingExtras),
        }
    }

    /// How many pure processing steps remain before bytes are needed again.
    pub open spec fn rank(&self) -> nat {
        match self {
            BasicListDeserialiser::GettingLen(im) => im.rank() + 2 * im.buffered_value() + 3,
            BasicListDeserialiser::GettingElements(lm) => lm.rank() + 1,
        }
    }

    /// What the machine asks of the driver in each state.
    pub open spec fn spec_wants(&self) -> DesiredInput {
        match self {
            BasicListDeserialiser::GettingLen(im) => im.spec_wants(),
            BasicListDeserialiser::GettingElements(lm) => lm.spec_wants(),
        }
    }

    /// The machine has consumed the first `p` bytes of the list's wire form.
    pub open spec fn following(&self, ts: Seq<(Seq<u8>, Seq<u8>)>, p: int) -> bool {
        let lenc = spec_vli_unsigned(ts.len());
        &&& basic_pairs_fit(ts)
        &&& match self {
            BasicListDeserialiser::GettingLen(im) => {
                &&& im.following(SignedState::Unsigned, le_bytes(ts.len()), p)
                &&& 0 <= p <= lenc.len()
            },
            BasicListDeserialiser::GettingElements(lm) => {
                &&& lm.following(unsigned_signs(ts.len()), ts, p - lenc.len())
                &&& lenc.len() <= p <= spec_ser_basic_pairs(ts).len()
            },
        }
    }

    /// While following: the extra is never requested, bytes are requested
    /// only strictly inside the wire form and never more than remain, and
    /// the complete wire form asks to be processed.
    pub proof fn lemma_following_wants(&self, ts: Seq<(Seq<u8>, Seq<u8>)>, p: int)
        requires
            self.following(ts, p),
        ensures
            !(self.spec_wants() is Extra),
            self.spec_wants() is Byte ==> self.byte_capacity() == 1,
            self.spec_wants() matches DesiredInput::Bytes(k) ==> k == self.byte_capacity(),
            self.byte_capacity() <= spec_ser_basic_pairs(ts).len() - p,
            (self.spec_wants() is Byte || self.spec_wants() is Bytes) ==> self.byte_capacity() > 0
                && p < spec_ser_basic_pairs(ts).len(),
            p == spec_ser_basic_pairs(ts).len() ==> self.spec_wants() is ProcessMe,
            0 <= p <= spec_ser_basic_pairs(ts).len(),
    {
        lemma_len_prefix_canon(ts.len());
        match self {
            BasicListDeserialiser::GettingLen(im) => {
                im.lemma_following_wants(SignedState::Unsigned, le_bytes(ts.len()), p);
            },
            BasicListDeserialiser::GettingElements(lm) => {
                lm.lemma_following_wants(
                    unsigned_signs(ts.len()),
                    ts,
                    p - spec_vli_unsigned(ts.len()).len(),
                );
            },
        }
    }
}

impl DeserMachine for BasicListDeserialiser {
    type ExtraInput = ();

    type Output = Vec<(Uuid, Integer)>;

    type Error = BasicListReadError<TupleReadError<core::convert::Infallible, IntegerReadError>>;

    open spec fn byte_capacity(&self) -> nat {
        match self.spec_wants() {
            DesiredInput::Byte => 1,
            DesiredInput::Bytes(k) => k as nat,
            _ => 0,
        }
    }

    fn new() -> (r: Self)
        ensures
            r == BasicListDeserialiser::GettingLen(
                IntegerDeserialiser::GotSignedState { state: SignedState::Unsigned },
            ),
    {
        BasicListDeserialiser::GettingLen(
            IntegerDeserialiser::new_with_starting_input(SignedState::Unsigned),
        )
    }

    fn wants_read(&self) -> (r: DesiredInput)
        ensures
            r == self.spec_wants(),
    {
        match self {
            BasicListDeserialiser::GettingLen(im) => im.wants_read(),
            BasicListDeserialiser::GettingElements(lm) => lm.wants_read(),
        }
    }

    fn give_starting_input(&mut self, magic: ())
        ensures
            *final(self) == *old(self),
    {
    }

    fn finish_bytes_for_writing(&mut self, bytes: &[u8])
        ensures
            old(self).inv() ==> final(self).inv(),
            bytes@.len() == 0 ==> *final(self) == *old(self),
            forall|ts: Seq<(Seq<u8>, Seq<u8>)>, p: int|
                #[trigger] old(self).following(ts, p) && bytes@.len() > 0 && p + bytes@.len()
                    <= spec_ser_basic_pairs(ts).len() && bytes@ == spec_ser_basic_pairs(
                    ts,
                ).subrange(p, p + bytes@.len()) ==> final(self).following(ts, p + bytes@.len()),
    {
        match self {
            BasicListDeserialiser::GettingLen(im) => {
                im.finish_bytes_for_writing(bytes);
                proof {
                    assert forall|ts: Seq<(Seq<u8>, Seq<u8>)>, p: int|
                        #[trigger] old(self).following(ts, p) && bytes@.len() > 0 && p
                            + bytes@.len() <= spec_ser_basic_pairs(ts).len() && bytes@
                            == spec_ser_basic_pairs(ts).subrange(p, p + bytes@.len()) implies final(self).following(ts, p + bytes@.len()) by {
                        lemma_len_prefix_canon(ts.len());
                        old(self)->GettingLen_0.lemma_following_wants(
                            SignedState::Unsigned,
                            le_bytes(ts.len()),
                            p,
                        );
                        assert(spec_ser_basic_pairs(ts).subrange(p, p + bytes@.len())
                            =~= spec_ser_int(le_bytes(ts.len())).subrange(p, p + bytes@.len()));
                    }
                }
            },
            BasicListDeserialiser::GettingElements(lm) => {
                lm.finish_bytes_for_writing(bytes);
                proof {
                    assert forall|ts: Seq<(Seq<u8>, Seq<u8>)>, p: int|
                        #[trigger] old(self).following(ts, p) && bytes@.len() > 0 && p
                            + bytes@.len() <= spec_ser_basic_pairs(ts).len() && bytes@
                            == spec_ser_basic_pairs(ts).subrange(p, p + bytes@.len()) implies final(self).following(ts, p + bytes@.len()) by {
                        let lenc = spec_vli_unsigned(ts.len());
                        lemma_len_prefix_canon(ts.len());
                        old(self)->GettingElements_0.lemma_following_wants(
                            unsigned_signs(ts.len()),
                            ts,
                            p - lenc.len(),
                        );
                        assert(spec_ser_basic_pairs(ts).subrange(p, p + bytes@.len())
                            =~= spec_ser_pairs(ts).subrange(
                            p - lenc.len(),
                            p - lenc.len() + bytes@.len(),
                        ));
                    }
                }
            },
        }
    }

    fn process(self) -> (r: Result<
        FsmResult<Self, Vec<(Uuid, Integer)>>,
        BasicListReadError<TupleReadError<core::convert::Infallible, IntegerReadError>>,
    >)
        ensures
            self.inv() ==> (r matches Ok(FsmResult::Continue(m2)) ==> m2.inv() && (
            self.spec_wants() is ProcessMe ==> m2.rank() < self.rank())),
            r matches Err(e) ==> ((self is GettingLen ==> e matches BasicListReadError::Len(_))
                && (self is GettingElements ==> e matches BasicListReadError::Element(_))),
            forall|ts: Seq<(Seq<u8>, Seq<u8>)>, p: int|
                #[trigger] self.following(ts, p) && self.spec_wants() is ProcessMe ==> match r {
                    Ok(FsmResult::Continue(m2)) => m2.following(ts, p) && m2.rank() < self.rank(),
                    Ok(FsmResult::Done(v)) => p == spec_ser_basic_pairs(ts).len()
                        && pairs_decoded(v@, unsigned_signs(ts.len()), ts, ts.len() as int),
                    Err(_) => false,
                },
    {
        let ghost orig = self;
        match self {
            BasicListDeserialiser::GettingLen(im) => {
                let ghost old_im = im;
                match im.process() {
                    Err(e) => {
                        proof {
                            assert forall|ts: Seq<(Seq<u8>, Seq<u8>)>, p: int|
                                #[trigger] orig.following(ts, p) && orig.spec_wants()
                                    is ProcessMe implies false by {
                                assert(old_im.following(
                                    SignedState::Unsigned,
                                    le_bytes(ts.len()),
                                    p,
                                ));
                            }
                        }
                        Err(BasicListReadError::Len(e))
                    },
                    Ok(FsmResult::Continue(im2)) => {
                        let m2 = BasicListDeserialiser::GettingLen(im2);
                        proof {
                            assert forall|ts: Seq<(Seq<u8>, Seq<u8>)>, p: int|
                                #[trigger] orig.following(ts, p) && orig.spec_wants()
                                    is ProcessMe implies m2.following(ts, p) && m2.rank()
                                < orig.rank() by {
                                assert(old_im.following(
                                    SignedState::Unsigned,
                                    le_bytes(ts.len()),
                                    p,
                                ));
                            }
                        }
                        Ok(FsmResult::Continue(m2))
                    },
                    Ok(FsmResult::Done(nint)) => {
                        match nint.try_to_usize() {
                            Err(e) => {
                                proof {
                                    assert forall|ts: Seq<(Seq<u8>, Seq<u8>)>, p: int|
                                        #[trigger] orig.following(ts, p) && orig.spec_wants()
                                            is ProcessMe implies false by {
                                        lemma_len_prefix_canon(ts.len());
                                        lemma_le_bytes_props(ts.len());
                                        crate::integer::lemma_spec_dec_content(
                                            SignedState::Unsigned,
                                            le_bytes(ts.len()),
                                        );
                                        assert(old_im.following(
                                            SignedState::Unsigned,
                                            le_bytes(ts.len()),
                                            p,
                                        ));
                                    }
                                }
                                Err(BasicListReadError::Len(e))
                            },
                            Ok(count) => {
                                let mut extras: Vec<SignedState> = Vec::new();
                                let mut k: usize = 0;
                                while k < count
                                    invariant
                                        k <= count,
                                        extras@ =~= Seq::new(
                                            k as nat,
                                            |i: int| SignedState::Unsigned,
                                        ),
                                    decreases count - k,
                                {
                                    extras.push(SignedState::Unsigned);
                                    proof {
                                        assert(extras@ =~= Seq::new(
                                            (k + 1) as nat,
                                            |i: int| SignedState::Unsigned,
                                        ));
                                    }
                                    k += 1;
                                }
                                let lm = ListDeserialiser::new_with_starting_input(extras);
                                let m2 = BasicListDeserialiser::GettingElements(lm);
                                proof {
                                    assert(count as nat <= old_im.buffered_value());
                                    assert(m2.rank() <= 2 * (count as nat) + 3);
                                    assert forall|ts: Seq<(Seq<u8>, Seq<u8>)>, p: int|
                                        #[trigger] orig.following(ts, p) && orig.spec_wants()
                                            is ProcessMe implies m2.following(ts, p) && m2.rank()
                                        < orig.rank() by {
                                        lemma_len_prefix_canon(ts.len());
                                        lemma_le_bytes_props(ts.len());
                                        crate::integer::lemma_spec_dec_content(
                                            SignedState::Unsigned,
                                            le_bytes(ts.len()),
                                        );
                                        assert(old_im.following(
                                            SignedState::Unsigned,
                                            le_bytes(ts.len()),
                                            p,
                                        ));
                                        assert(count as nat == ts.len());
                                        assert(extras@ =~= unsigned_signs(ts.len()));
                                    }
                                }
                                Ok(FsmResult::Continue(m2))
                            },
                        }
                    },
                }
            },
            BasicListDeserialiser::GettingElements(lm) => {
                let ghost old_lm = lm;
                match lm.process() {
                    Err(e) => {
                        proof {
                            assert forall|ts: Seq<(Seq<u8>, Seq<u8>)>, p: int|
                                #[trigger] orig.following(ts, p) && orig.spec_wants()
                                    is ProcessMe implies false by {
                                assert(old_lm.following(
                                    unsigned_signs(ts.len()),
                                    ts,
                                    p - spec_vli_unsigned(ts.len()).len(),
                                ));
                            }
                        }
                        Err(BasicListReadError::Element(e))
                    },
                    Ok(FsmResult::Continue(lm2)) => {
                        let m2 = BasicListDeserialiser::GettingElements(lm2);
                        proof {
                            assert forall|ts: Seq<(Seq<u8>, Seq<u8>)>, p: int|
                                #[trigger] orig.following(ts, p) && orig.spec_wants()
                                    is ProcessMe implies m2.following(ts, p) && m2.rank()
                                < orig.rank() by {
                                assert(old_lm.following(
                                    unsigned_signs(ts.len()),
                                    ts,
                                    p - spec_vli_unsigned(ts.len()).len(),
                                ));
                            }
                        }
                        Ok(FsmResult::Continue(m2))
                    },
                    Ok(FsmResult::Done(list)) => {
                        proof {
                            assert forall|ts: Seq<(Seq<u8>, Seq<u8>)>, p: int|
                                #[trigger] orig.following(ts, p) && orig.spec_wants()
                                    is ProcessMe implies p == spec_ser_basic_pairs(ts).len()
                                && pairs_decoded(
                                list@,
                                unsigned_signs(ts.len()),
                                ts,
                                ts.len() as int,
                            ) by {
                                assert(old_lm.following(
                                    unsigned_signs(ts.len()),
                                    ts,
                                    p - spec_vli_unsigned(ts.len()).len(),
                                ));
                            }
                        }
                        Ok(FsmResult::Done(list))
                    },
                }
            },
        }
    }
}

} // verus!
