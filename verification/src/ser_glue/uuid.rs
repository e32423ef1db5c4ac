//! The identifier codec: exactly sixteen raw bytes on the wire, no prefix.

use vstd::prelude::*;

use crate::ser_glue::{Deserable, DeserMachine, DesiredInput, FsmResult, Serable};

verus! {

/// A player identifier: sixteen opaque bytes, written to the wire verbatim.
#[derive(Debug, Hash)]
pub struct Uuid {
    bytes: Vec<u8>,
}

impl View for Uuid {
    type V = Seq<u8>;

    closed spec fn view(&self) -> Seq<u8> {
        self.bytes@
    }
}

impl Uuid {
    /// An identifier always holds exactly sixteen bytes.
    #[verifier::type_invariant]
    pub open spec fn wf(self) -> bool {
        self@.len() == 16
    }

    /// Wraps sixteen raw bytes as an identifier.
    pub fn from_bytes(bytes: Vec<u8>) -> (r: Uuid)
        requires
            bytes@.len() == 16,
        ensures
            r@ == bytes@,
    {
        Uuid { bytes }
    }

    /// The identifier's sixteen raw bytes.
    pub fn as_bytes(&self) -> (r: &Vec<u8>)
        ensures
            r@ == self@,
    {
        &self.bytes
    }
}

impl Clone for Uuid {
    /// A clone carries the same sixteen bytes.
    fn clone(&self) -> (r: Self)
        ensures
            r@ == self@,
    {
        proof {
            use_type_invariant(self);
        }
        Uuid { bytes: self.bytes.clone() }
    }
}

impl PartialEq for Uuid {
    /// Two identifiers are equal exactly when their bytes coincide.
    fn eq(&self, other: &Uuid) -> (r: bool)
        ensures
            r == (self@ == other@),
    {
        proof {
            use_type_invariant(self);
            use_type_invariant(other);
        }
        let r = self.bytes == other.bytes;
        proof {
            if self.bytes@ =~= other.bytes@ {
                assert(self@ == other@);
            }
        }
        r
    }
}

impl Eq for Uuid {

}

impl vstd::std_specs::cmp::PartialEqSpecImpl for Uuid {
    open spec fn obeys_eq_spec() -> bool {
        true
    }

    open spec fn eq_spec(&self, other: &Uuid) -> bool {
        self@ == other@
    }
}

impl Serable for Uuid {
    type ExtraOutput = ();

    open spec fn spec_ser(&self) -> Seq<u8> {
        self@
    }

    open spec fn spec_extra_ok(&self, extra: ()) -> bool {
        true
    }

    /// Appends the sixteen raw bytes.
    fn ser_into(&self, into: &mut Vec<u8>) -> (r: ()) {
        proof {
            use_type_invariant(self);
            assert(self.spec_ser() == self@);
            assert(self.spec_extra_ok(()));
        }
        into.extend_from_slice(self.bytes.as_slice());
    }
}

/// The pull-driven decoder for one identifier: it collects sixteen bytes and
/// can never fail.
#[derive(Debug)]
pub struct UuidDeserialiser {
    pub content: Vec<u8>,
}

impl Deserable for Uuid {
    type Deserer = UuidDeserialiser;
}

impl UuidDeserialiser {
    /// Structural soundness of a reachable machine state.
    pub open spec fn inv(&self) -> bool {
        self.content@.len() <= 16
    }

    /// How many pure processing steps remain before bytes are needed again.
    pub open spec fn rank(&self) -> nat {
        1
    }

    /// What the machine asks of the driver in each state.
    pub open spec fn spec_wants(&self) -> DesiredInput {
        if self.content@.len() < 16 {
            DesiredInput::Bytes((16 - self.content@.len()) as usize)
        } else {
            DesiredInput::ProcessMe
        }
    }

    /// The machine has consumed the first `p` of the sixteen target bytes.
    pub open spec fn following(&self, target: Seq<u8>, p: int) -> bool {
        &&& target.len() == 16
        &&& 0 <= p <= 16
        &&& self.content@ == target.subrange(0, p)
    }

    /// While following: bytes are only requested strictly inside the target,
    /// never more than remain, and the full target asks to be processed.
    pub proof fn lemma_following_wants(&self, target: Seq<u8>, p: int)
        requires
            self.following(target, p),
        ensures
            !(self.spec_wants() is Extra),
            !(self.spec_wants() is Byte),
            self.spec_wants() matches DesiredInput::Bytes(k) ==> k == self.byte_capacity(),
            self.byte_capacity() <= 16 - p,
            self.spec_wants() is Bytes ==> self.byte_capacity() > 0 && p < 16,
            p == 16 ==> self.spec_wants() is ProcessMe,
            self.inv(),
    {
    }
}

impl DeserMachine for UuidDeserialiser {
    type ExtraInput = ();

    type Output = Uuid;

    type Error = core::convert::Infallible;

    open spec fn byte_capacity(&self) -> nat {
        match self.spec_wants() {
            DesiredInput::Byte => 1,
            DesiredInput::Bytes(k) => k as nat,
            _ => 0,
        }
    }

    fn new() -> (r: Self)
        ensures
            r.content@ == Seq::<u8>::empty(),
    {
        UuidDeserialiser { content: Vec::new() }
    }

    fn wants_read(&self) -> (r: DesiredInput)
        ensures
            r == self.spec_wants(),
    {
        if self.content.len() < 16 {
            DesiredInput::Bytes(16 - self.content.len())
        } else {
            DesiredInput::ProcessMe
        }
    }

    fn give_starting_input(&mut self, magic: ())
        ensures
            *final(self) == *old(self),
    {
    }

    fn finish_bytes_for_writing(&mut self, bytes: &[u8])
        ensures
            old(self).inv() ==> final(self).inv(),
            final(self).content@ == old(self).content@ + bytes@,
            bytes@.len() == 0 ==> *final(self) == *old(self),
            forall|target: Seq<u8>, p: int|
                #[trigger] old(self).following(target, p) && p + bytes@.len() <= 16 && bytes@
                    == target.subrange(p, p + bytes@.len()) ==> final(self).following(
                    target,
                    p + bytes@.len(),
                ),
    {
        let ghost old_content = self.content@;
        if bytes.len() == 0 {
            proof {
                assert(old_content + bytes@ =~= old_content);
            }
            return ;
        }
        let mut i: usize = 0;
        while i < bytes.len()
            invariant
                i <= bytes@.len(),
                self.content@ == old_content + bytes@.subrange(0, i as int),
            decreases bytes@.len() - i,
        {
            proof {
                assert(old_content + bytes@.subrange(0, i + 1) =~= (old_content + bytes@.subrange(
                    0,
                    i as int,
                )) + seq![bytes@[i as int]]);
            }
            self.content.push(bytes[i]);
            i += 1;
        }
        proof {
            assert(bytes@.subrange(0, bytes@.len() as int) =~= bytes@);
            assert forall|target: Seq<u8>, p: int|
                #[trigger] old(self).following(target, p) && p + bytes@.len() <= 16 && bytes@
                    == target.subrange(p, p + bytes@.len()) implies final(self).following(
                target,
                p + bytes@.len(),
            ) by {
                assert(final(self).content@ =~= target.subrange(0, p + bytes@.len()));
            }
        }
    }

    fn process(self) -> (r: Result<
        FsmResult<Self, Uuid>,
        core::convert::Infallible,
    >)
        ensures
            self.inv() ==> (r matches Ok(f) && (f matches FsmResult::Continue(m2) ==> m2.inv() && (
            self.spec_wants() is ProcessMe ==> m2.rank() < self.rank()))),
            !(r matches Err(_)),
            r matches Ok(FsmResult::Done(v)) ==> self.content@.len() == 16 && v@ == self.content@,
            forall|target: Seq<u8>, p: int|
                #[trigger] self.following(target, p) && self.spec_wants() is ProcessMe ==> match r {
                    Ok(FsmResult::Continue(m2)) => m2.following(target, p) && m2.rank()
                        < self.rank(),
                    Ok(FsmResult::Done(v)) => p == 16 && v@ == target,
                    Err(_) => false,
                },
    {
        if self.content.len() == 16 {
            let out = Uuid { bytes: self.content };
            proof {
                assert forall|target: Seq<u8>, p: int|
                    #[trigger] self.following(target, p) && self.spec_wants()
                        is ProcessMe implies p == 16 && out@ == target by {
                    assert(out@ =~= target);
                }
            }
            Ok(FsmResult::Done(out))
        } else {
            Ok(FsmResult::Continue(self))
        }
    }
}

} // verus!
