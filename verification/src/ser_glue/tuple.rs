//! The pair codec: two values written back to back, no separator.

use vstd::prelude::*;

use crate::integer::{
    spec_dec_content, spec_ser_int, Integer, IntegerDeserialiser, IntegerReadError, SignedState,
};
use crate::ser_glue::uuid::{Uuid, UuidDeserialiser};
use crate::ser_glue::{DeserMachine, DesiredInput, FsmResult, Serable};

verus! {

impl<A: Serable, B: Serable> Serable for (A, B) {
    type ExtraOutput = (A::ExtraOutput, B::ExtraOutput);

    open spec fn spec_ser(&self) -> Seq<u8> {
        self.0.spec_ser() + self.1.spec_ser()
    }

    open spec fn spec_extra_ok(&self, extra: (A::ExtraOutput, B::ExtraOutput)) -> bool {
        self.0.spec_extra_ok(extra.0) && self.1.spec_extra_ok(extra.1)
    }

    /// Appends the first value's bytes, then the second's.
    fn ser_into(&self, into: &mut Vec<u8>) -> (r: (A::ExtraOutput, B::ExtraOutput)) {
        let a = self.0.ser_into(into);
        let b = self.1.ser_into(into);
        proof {
            assert(self.spec_ser() == self.0.spec_ser() + self.1.spec_ser());
            assert(self.spec_extra_ok((a, b)));
            assert(final(into)@ =~= old(into)@ + (self.0.spec_ser() + self.1.spec_ser()));
        }
        (a, b)
    }
}

/// A failure while reading a pair, keeping which side failed.
#[derive(Debug)]
pub enum TupleReadError<AError, BError> {
    AError(AError),
    BError(BError),
}

/// The wire form of one identifier/integer pair.
pub open spec fn spec_ser_pair(uv: Seq<u8>, c: Seq<u8>) -> Seq<u8> {
    uv + spec_ser_int(c)
}

/// The pull-driven decoder for the pair the protocol stores in maps and
/// lists: an identifier followed by an integer. The extra input is the
/// integer's sign, handed over before any byte flows.
#[derive(Debug)]
pub enum TupleDeserialiser {
    /// Waiting for the out-of-band extra.
    Empty,
    /// Reading the identifier; the integer's sign is parked for later.
    ReadingA { reading_a: UuidDeserialiser, b_extra: SignedState },
    /// The identifier is done; reading the integer.
    ReadingB { a: Uuid, reading_b: IntegerDeserialiser },
}

impl TupleDeserialiser {
    /// Structural soundness of a reachable machine state.
    pub open spec fn inv(&self) -> bool {
        match self {
            TupleDeserialiser::Empty => true,
            TupleDeserialiser::ReadingA { reading_a, .. } => reading_a.inv(),
            TupleDeserialiser::ReadingB { reading_b, .. } => reading_b.inv() && !(*reading_b
                is Start),
        }
    }

    /// How many pure processing steps remain before bytes are needed again.
    pub open spec fn rank(&self) -> nat {
        match self {
            TupleDeserialiser::Empty => 0,
            TupleDeserialiser::ReadingA { reading_a, .. } => reading_a.rank() + 2,
            TupleDeserialiser::ReadingB { reading_b, .. } => reading_b.rank() + 1,
        }
    }

    /// What the machine asks of the driver in each state.
    pub open spec fn spec_wants(&self) -> DesiredInput {
        match self {
            TupleDeserialiser::Empty => DesiredInput::Extra,
            TupleDeserialiser::ReadingA { reading_a, .. } => reading_a.spec_wants(),
            TupleDeserialiser::ReadingB { reading_b, .. } => reading_b.spec_wants(),
        }
    }

    /// The machine has consumed the first `p` bytes of the pair encoding
    /// with identifier bytes `uv`, integer sign `sign` and stored bytes `c`.
    pub open spec fn following(&self, uv: Seq<u8>, sign: SignedState, c: Seq<u8>, p: int) -> bool {
        &&& uv.len() == 16
        &&& c.len() <= 16
        &&& match self {
            TupleDeserialiser::Empty => false,
            TupleDeserialiser::ReadingA { reading_a, b_extra } => {
                &&& reading_a.following(uv, p)
                &&& *b_extra == sign
                &&& 0 <= p <= 16
            },
            TupleDeserialiser::ReadingB { a, reading_b } => {
                &&& a@ == uv
                &&& reading_b.following(sign, c, p - 16)
                &&& 16 <= p <= spec_ser_pair(uv, c).len()
            },
        }
    }

    /// While following: the extra is never requested, bytes are requested
    /// only strictly inside the pair encoding and never more than remain,
    /// and the complete encoding asks to be processed.
    pub proof fn lemma_following_wants(&self, uv: Seq<u8>, sign: SignedState, c: Seq<u8>, p: int)
        requires
            self.following(uv, sign, c, p),
        ensures
            !(self.spec_wants() is Extra),
            self.spec_wants() is Byte ==> self.byte_capacity() == 1,
            self.spec_wants() matches DesiredInput::Bytes(k) ==> k == self.byte_capacity(),
            self.byte_capacity() <= spec_ser_pair(uv, c).len() - p,
            (self.spec_wants() is Byte || self.spec_wants() is Bytes) ==> self.byte_capacity() > 0
                && p < spec_ser_pair(uv, c).len(),
            p == spec_ser_pair(uv, c).len() ==> self.spec_wants() is ProcessMe,
            self.inv(),
            0 <= p <= spec_ser_pair(uv, c).len(),
    {
        match self {
            TupleDeserialiser::Empty => {},
            TupleDeserialiser::ReadingA { reading_a, .. } => {
                reading_a.lemma_following_wants(uv, p);
                assert(spec_ser_int(c).len() >= 1);
            },
            TupleDeserialiser::ReadingB { reading_b, .. } => {
                reading_b.lemma_following_wants(sign, c, p - 16);
            },
        }
    }
}

impl DeserMachine for TupleDeserialiser {
    type ExtraInput = SignedState;

    type Output = (Uuid, Integer);

    type Error = TupleReadError<core::convert::Infallible, IntegerReadError>;

    open spec fn byte_capacity(&self) -> nat {
        match self.spec_wants() {
            DesiredInput::Byte => 1,
            DesiredInput::Bytes(k) => k as nat,
            _ => 0,
        }
    }

    fn new() -> (r: Self)
        ensures
            r == TupleDeserialiser::Empty,
    {
        TupleDeserialiser::Empty
    }

    fn wants_read(&self) -> (r: DesiredInput)
        ensures
            r == self.spec_wants(),
    {
        match self {
            TupleDeserialiser::Empty => DesiredInput::Extra,
            TupleDeserialiser::ReadingA { reading_a, .. } => reading_a.wants_read(),
            TupleDeserialiser::ReadingB { reading_b, .. } => reading_b.wants_read(),
        }
    }

    fn give_starting_input(&mut self, b_extra: SignedState)
        ensures
            *old(self) is Empty ==> (*final(self) matches TupleDeserialiser::ReadingA {
                reading_a,
                b_extra: given,
            } && reading_a.content@ == Seq::<u8>::empty() && given == b_extra),
            !(*old(self) is Empty) ==> *final(self) == *old(self),
    {
        if matches!(self, TupleDeserialiser::Empty) {
            let reading_a = UuidDeserialiser::new();
            *self = TupleDeserialiser::ReadingA { reading_a, b_extra };
        }
    }

    fn finish_bytes_for_writing(&mut self, bytes: &[u8])
        ensures
            old(self).inv() ==> final(self).inv(),
            (*final(self) is Empty) == (*old(self) is Empty),
            bytes@.len() == 0 ==> *final(self) == *old(self),
            forall|uv: Seq<u8>, sign: SignedState, c: Seq<u8>, p: int|
                #[trigger] old(self).following(uv, sign, c, p) && bytes@.len() > 0 && p
                    + bytes@.len() <= spec_ser_pair(uv, c).len() && bytes@ == spec_ser_pair(
                    uv,
                    c,
                ).subrange(p, p + bytes@.len()) ==> final(self).following(
                    uv,
                    sign,
                    c,
                    p + bytes@.len(),
                ),
    {
        match self {
            TupleDeserialiser::Empty => {},
            TupleDeserialiser::ReadingA { reading_a, .. } => {
                reading_a.finish_bytes_for_writing(bytes);
                proof {
                    assert forall|uv: Seq<u8>, sign: SignedState, c: Seq<u8>, p: int|
                        #[trigger] old(self).following(uv, sign, c, p) && bytes@.len() > 0 && p
                            + bytes@.len() <= spec_ser_pair(uv, c).len() && bytes@
                            == spec_ser_pair(uv, c).subrange(p, p + bytes@.len()) implies final(self).following(uv, sign, c, p + bytes@.len()) by {
                        old(self)->reading_a.lemma_following_wants(uv, p);
                        assert(spec_ser_pair(uv, c).subrange(p, p + bytes@.len()) =~= uv.subrange(
                            p,
                            p + bytes@.len(),
                        ));
                    }
                }
            },
            TupleDeserialiser::ReadingB { reading_b, .. } => {
                reading_b.finish_bytes_for_writing(bytes);
                proof {
                    assert forall|uv: Seq<u8>, sign: SignedState, c: Seq<u8>, p: int|
                        #[trigger] old(self).following(uv, sign, c, p) && bytes@.len() > 0 && p
                            + bytes@.len() <= spec_ser_pair(uv, c).len() && bytes@
                            == spec_ser_pair(uv, c).subrange(p, p + bytes@.len()) implies final(self).following(uv, sign, c, p + bytes@.len()) by {
                        assert(spec_ser_pair(uv, c).subrange(p, p + bytes@.len())
                            =~= spec_ser_int(c).subrange(p - 16, p - 16 + bytes@.len()));
                    }
                }
            },
        }
    }

    fn process(self) -> (r: Result<
        FsmResult<Self, (Uuid, Integer)>,
        TupleReadError<core::convert::Infallible, IntegerReadError>,
    >)
        ensures
            self.inv() ==> (r matches Ok(FsmResult::Continue(m2)) ==> m2.inv() && (
            self.spec_wants() is ProcessMe ==> m2.rank() < self.rank())),
            r matches Ok(FsmResult::Continue(m2)) ==> ((m2 is Empty) == (self is Empty)),
            self is Empty ==> r == Ok::<
                FsmResult<Self, (Uuid, Integer)>,
                TupleReadError<core::convert::Infallible, IntegerReadError>,
            >(FsmResult::Continue(TupleDeserialiser::Empty)),
            r matches Err(e) ==> self is ReadingB && e matches TupleReadError::BError(_),
            r matches Ok(FsmResult::Done(_)) ==> self is ReadingB,
            forall|uv: Seq<u8>, sign: SignedState, c: Seq<u8>, p: int|
                #[trigger] self.following(uv, sign, c, p) && self.spec_wants() is ProcessMe
                    ==> match r {
                    Ok(FsmResult::Continue(m2)) => m2.following(uv, sign, c, p) && m2.rank()
                        < self.rank(),
                    Ok(FsmResult::Done(v)) => p == spec_ser_pair(uv, c).len() && v.0@ == uv
                        && v.1.sign() == sign && v.1.bytes() == spec_dec_content(sign, c),
                    Err(_) => false,
                },
    {
        match self {
            TupleDeserialiser::ReadingA { reading_a, b_extra } => {
                let ghost old_a = reading_a;
                match reading_a.process() {
                    Err(e) => Err(TupleReadError::AError(e)),
                    Ok(FsmResult::Continue(reading_a)) => {
                        let m2 = TupleDeserialiser::ReadingA { reading_a, b_extra };
                        proof {
                            assert forall|uv: Seq<u8>, sign: SignedState, c: Seq<u8>, p: int|
                                #[trigger] self.following(uv, sign, c, p) && self.spec_wants()
                                    is ProcessMe implies m2.following(uv, sign, c, p) && m2.rank()
                                < self.rank() by {
                                assert(old_a.following(uv, p));
                            }
                        }
                        Ok(FsmResult::Continue(m2))
                    },
                    Ok(FsmResult::Done(a)) => {
                        let reading_b = IntegerDeserialiser::new_with_starting_input(b_extra);
                        let m2 = TupleDeserialiser::ReadingB { a, reading_b };
                        proof {
                            assert forall|uv: Seq<u8>, sign: SignedState, c: Seq<u8>, p: int|
                                #[trigger] self.following(uv, sign, c, p) && self.spec_wants()
                                    is ProcessMe implies m2.following(uv, sign, c, p) && m2.rank()
                                < self.rank() by {
                                assert(old_a.following(uv, p));
                            }
                        }
                        Ok(FsmResult::Continue(m2))
                    },
                }
            },
            TupleDeserialiser::ReadingB { a, reading_b } => {
                let ghost old_b = reading_b;
                match reading_b.process() {
                    Err(e) => {
                        proof {
                            assert forall|uv: Seq<u8>, sign: SignedState, c: Seq<u8>, p: int|
                                #[trigger] self.following(uv, sign, c, p) && self.spec_wants()
                                    is ProcessMe implies false by {
                                assert(old_b.following(sign, c, p - 16));
                            }
                        }
                        Err(TupleReadError::BError(e))
                    },
                    Ok(FsmResult::Continue(reading_b)) => {
                        let m2 = TupleDeserialiser::ReadingB { a, reading_b };
                        proof {
                            assert forall|uv: Seq<u8>, sign: SignedState, c: Seq<u8>, p: int|
                                #[trigger] self.following(uv, sign, c, p) && self.spec_wants()
                                    is ProcessMe implies m2.following(uv, sign, c, p) && m2.rank()
                                < self.rank() by {
                                assert(old_b.following(sign, c, p - 16));
                            }
                        }
                        Ok(FsmResult::Continue(m2))
                    },
                    Ok(FsmResult::Done(b)) => {
                        proof {
                            assert forall|uv: Seq<u8>, sign: SignedState, c: Seq<u8>, p: int|
                                #[trigger] self.following(uv, sign, c, p) && self.spec_wants()
                                    is ProcessMe implies p == spec_ser_pair(uv, c).len() && a@
                                == uv && b.sign() == sign && b.bytes() == spec_dec_content(
                                sign,
                                c,
                            ) by {
                                assert(old_b.following(sign, c, p - 16));
                            }
                        }
                        Ok(FsmResult::Done((a, b)))
                    },
                }
            },
            TupleDeserialiser::Empty => Ok(FsmResult::Continue(TupleDeserialiser::Empty)),
        }
    }
}

} // verus!
