//! The pot: its current value and who is ready to put how much in.

use vstd::prelude::*;

use crate::integer::{
    le_bytes, le_value, lemma_le_bytes_props, lemma_pow256_16, lemma_vli_unsigned_canon,
    spec_ser_int, spec_vli_unsigned, Integer, IntegerDeserialiser, IntegerReadError, SignedState,
};
use crate::game_types::player::lemma_balance_prefix;
use crate::ser_glue::list::{
    lemma_len_prefix_canon, pairs_fit, spec_ser_pairs, spec_ser_seq, ListDeserialiser, ListSer,
};
use crate::ser_glue::map::{spec_has_key, spec_keys_distinct, UuidMap};
use crate::ser_glue::tuple::TupleReadError;
use crate::ser_glue::uuid::Uuid;
use crate::ser_glue::{Deserable, DeserMachine, DesiredInput, FsmResult, Serable};

verus! {

/// The pot on the table.
#[derive(Debug)]
pub struct Pot {
    pub current_value: u32,
    pub ready_to_put_in: UuidMap<u32>,
}

/// The mathematical shape of a pot: the current value and the pledged
/// amounts as key/amount pairs.
pub struct PotView {
    pub current_value: u32,
    pub ready: Seq<(Seq<u8>, u32)>,
}

impl View for Pot {
    type V = PotView;

    open spec fn view(&self) -> PotView {
        PotView { current_value: self.current_value, ready: self.ready_to_put_in@ }
    }
}

/// The concatenated pair encodings of the pledged amounts.
pub open spec fn spec_ser_ready(s: Seq<(Seq<u8>, u32)>) -> Seq<u8>
    decreases s.len(),
{
    if s.len() == 0 {
        Seq::empty()
    } else {
        s[0].0 + spec_vli_unsigned(s[0].1 as nat) + spec_ser_ready(s.drop_first())
    }
}

/// The wire form of a pot: the current value, then the pledge count, then
/// the pledges as identifier/amount pairs.
pub open spec fn spec_ser_pot(pv: PotView) -> Seq<u8> {
    spec_vli_unsigned(pv.current_value as nat) + spec_vli_unsigned(pv.ready.len())
        + spec_ser_ready(pv.ready)
}

/// A pot view that some in-memory pot could hold.
pub open spec fn pot_fits(pv: PotView) -> bool {
    pv.ready.len() <= usize::MAX && forall|i: int|
        0 <= i < pv.ready.len() ==> (#[trigger] pv.ready[i].0).len() == 16
}

impl Clone for Pot {
    /// A clone keeps the value and the pledges.
    fn clone(&self) -> (r: Self)
        ensures
            r@ == self@,
    {
        let mut entries: Vec<(Uuid, u32)> = Vec::new();
        let mut i: usize = 0;
        while i < self.ready_to_put_in.entries.len()
            invariant
                i <= self.ready_to_put_in.entries@.len(),
                entries@.len() == i,
                forall|j: int|
                    0 <= j < i ==> (#[trigger] entries@[j]).0@
                        == self.ready_to_put_in.entries@[j].0@ && entries@[j].1
                        == self.ready_to_put_in.entries@[j].1,
            decreases self.ready_to_put_in.entries@.len() - i,
        {
            let e = &self.ready_to_put_in.entries[i];
            entries.push((e.0.clone(), e.1));
            i += 1;
        }
        let r = Pot {
            current_value: self.current_value,
            ready_to_put_in: UuidMap { entries },
        };
        proof {
            assert(r@.ready =~= self@.ready);
        }
        r
    }
}

/// The concatenation of converted pairs encodes like the pledge pairs.
pub proof fn lemma_pairs_encode(s: Seq<(Uuid, Integer)>, r: Seq<(Seq<u8>, u32)>)
    requires
        s.len() == r.len(),
        forall|j: int|
            0 <= j < s.len() ==> (#[trigger] s[j]).0@ == r[j].0 && s[j].1.bytes() == le_bytes(
                r[j].1 as nat,
            ),
    ensures
        spec_ser_seq(s) == spec_ser_ready(r),
    decreases s.len(),
{
    if s.len() > 0 {
        lemma_pairs_encode(s.drop_first(), r.drop_first());
        lemma_balance_prefix(r[0].1);
        assert(s[0].spec_ser() == s[0].0.spec_ser() + s[0].1.spec_ser());
        assert(s[0].1.spec_ser() == spec_ser_int(le_bytes(r[0].1 as nat)));
        assert(spec_ser_seq(s) =~= (r[0].0 + spec_vli_unsigned(r[0].1 as nat)) + spec_ser_ready(
            r.drop_first(),
        ));
        assert(spec_ser_ready(r) =~= (r[0].0 + spec_vli_unsigned(r[0].1 as nat)) + spec_ser_ready(
            r.drop_first(),
        ));
    }
}

impl Serable for Pot {
    type ExtraOutput = ();

    open spec fn spec_ser(&self) -> Seq<u8> {
        spec_ser_pot(self@)
    }

    open spec fn spec_extra_ok(&self, extra: ()) -> bool {
        true
    }

    /// Appends the current value, the pledge count, then the pledges.
    fn ser_into(&self, into: &mut Vec<u8>) -> (r: ()) {
        Integer::from_u32(self.current_value).ser_into(into);
        let mut to_put_in: Vec<(Uuid, Integer)> = Vec::new();
        let mut i: usize = 0;
        while i < self.ready_to_put_in.entries.len()
            invariant
                i <= self.ready_to_put_in.entries@.len(),
                to_put_in@.len() == i,
                forall|j: int|
                    0 <= j < i ==> (#[trigger] to_put_in@[j]).0@
                        == self.ready_to_put_in.entries@[j].0@ && to_put_in@[j].1.bytes()
                        == le_bytes(self.ready_to_put_in.entries@[j].1 as nat),
            decreases self.ready_to_put_in.entries@.len() - i,
        {
            let e = &self.ready_to_put_in.entries[i];
            to_put_in.push((e.0.clone(), Integer::from_u32(e.1)));
            i += 1;
        }
        Integer::from_usize(to_put_in.len()).ser_into(into);
        let _ = ListSer(to_put_in.as_slice()).ser_into(into);
        proof {
            lemma_balance_prefix(self.current_value);
            lemma_len_prefix_canon(self@.ready.len());
            lemma_pairs_encode(to_put_in@, self@.ready);
            assert(self.spec_ser() == spec_ser_pot(self@));
            assert(self.spec_extra_ok(()));
            assert(final(into)@ =~= old(into)@ + spec_ser_pot(self@));
        }
    }
}

/// Pot equality: the same current value and the same pledges as a mapping.
pub open spec fn spec_pot_eq(a: PotView, b: PotView) -> bool {
    a.current_value == b.current_value && crate::ser_glue::map::spec_map_eq(a.ready, b.ready)
}

impl PartialEq for Pot {
    /// Compares the current value and the pledges as a mapping.
    fn eq(&self, other: &Pot) -> (r: bool)
        ensures
            r == spec_pot_eq(self@, other@),
    {
        self.current_value == other.current_value && self.ready_to_put_in == other.ready_to_put_in
    }
}

impl Eq for Pot {

}

impl vstd::std_specs::cmp::PartialEqSpecImpl for Pot {
    open spec fn obeys_eq_spec() -> bool {
        true
    }

    open spec fn eq_spec(&self, other: &Pot) -> bool {
        spec_pot_eq(self@, other@)
    }
}

/// Everything that can go wrong reading a pot back.
#[derive(Debug)]
pub enum PotReadError {
    /// The current value or the pledge count failed to decode or fit.
    Integer(IntegerReadError),
    /// A pledge pair failed to decode.
    Player(TupleReadError<core::convert::Infallible, IntegerReadError>),
}

/// The pair targets of a pot's pledges: each key with its amount's stored
/// bytes.
pub open spec fn pot_pairs(ready: Seq<(Seq<u8>, u32)>) -> Seq<(Seq<u8>, Seq<u8>)> {
    Seq::new(ready.len(), |i: int| (ready[i].0, le_bytes(ready[i].1 as nat)))
}

/// The per-element extras of a pot's pledges: every amount is unsigned.
pub open spec fn pot_signs(n: nat) -> Seq<SignedState> {
    Seq::new(n, |i: int| SignedState::Unsigned)
}

/// The pledge pairs encode exactly as the pot's pledge section.
pub proof fn lemma_pot_pairs_enc(ready: Seq<(Seq<u8>, u32)>)
    requires
        forall|i: int| 0 <= i < ready.len() ==> (#[trigger] ready[i].0).len() == 16,
    ensures
        pairs_fit(pot_pairs(ready)),
        spec_ser_pairs(pot_pairs(ready)) == spec_ser_ready(ready),
    decreases ready.len(),
{
    assert forall|i: int| 0 <= i < ready.len() implies (#[trigger] pot_pairs(ready)[i]).0.len()
        == 16 && pot_pairs(ready)[i].1.len() <= 16 by {
        lemma_balance_prefix(ready[i].1);
    }
    if ready.len() > 0 {
        lemma_pot_pairs_enc(ready.drop_first());
        assert(pot_pairs(ready).drop_first() =~= pot_pairs(ready.drop_first()));
        lemma_balance_prefix(ready[0].1);
        assert(spec_ser_pairs(pot_pairs(ready)) == (ready[0].0 + spec_ser_int(le_bytes(
            ready[0].1 as nat,
        ))) + spec_ser_pairs(pot_pairs(ready.drop_first())));
        assert((ready[0].0 + spec_vli_unsigned(ready[0].1 as nat)) + spec_ser_ready(
            ready.drop_first(),
        ) =~= ready[0].0 + spec_vli_unsigned(ready[0].1 as nat) + spec_ser_ready(
            ready.drop_first(),
        ));
    }
}

/// The pull-driven decoder for one pot: the current value, the pledge
/// count, then that many pledge pairs.
#[derive(Debug)]
pub enum PotDeserialiser {
    /// Reading the pot's current value.
    ReadingPotSize(IntegerDeserialiser),
    /// The value is known; reading the pledge count.
    ReadingNumberOfPlayers(u32, IntegerDeserialiser),
    /// The count is known; reading the pledge pairs.
    ReadingSoFars(u32, ListDeserialiser),
}

impl Deserable for Pot {
    type Deserer = PotDeserialiser;
}

impl PotDeserialiser {
    /// Structural soundness of a reachable machine state.
    pub open spec fn inv(&self) -> bool {
        match self {
            PotDeserialiser::ReadingPotSize(im) => im.inv() && !(*im is Start),
            PotDeserialiser::ReadingNumberOfPlayers(_, im) => im.inv() && !(*im is Start),
            PotDeserialiser::ReadingSoFars(_, lm) => lm.inv() && !(*lm is AwaitingExtras),
        }
    }

    /// How many pure processing steps remain before bytes are needed again.
    pub open spec fn rank(&self) -> nat {
        match self {
            PotDeserialiser::ReadingPotSize(im) => im.rank() + 4,
            PotDeserialiser::ReadingNumberOfPlayers(_, im) => im.rank() + 2
                * im.buffered_value() + 3,
            PotDeserialiser::ReadingSoFars(_, lm) => lm.rank() + 1,
        }
    }

    /// What the machine asks of the driver in each state.
    pub open spec fn spec_wants(&self) -> DesiredInput {
        match self {
            PotDeserialiser::ReadingPotSize(im) => im.spec_wants(),
            PotDeserialiser::ReadingNumberOfPlayers(_, im) => im.spec_wants(),
            PotDeserialiser::ReadingSoFars(_, lm) => lm.spec_wants(),
        }
    }

    /// The machine has consumed the first `p` bytes of the wire form of the
    /// pot `pv`.
    pub open spec fn following(&self, pv: PotView, p: int) -> bool {
        let cenc = spec_vli_unsigned(pv.current_value as nat);
        let nenc = spec_vli_unsigned(pv.ready.len());
        &&& pot_fits(pv)
        &&& spec_keys_distinct(pv.ready)
        &&& match self {
            PotDeserialiser::ReadingPotSize(im) => {
                &&& im.following(
                    SignedState::Unsigned,
                    le_bytes(pv.current_value as nat),
                    p,
                )
                &&& 0 <= p <= cenc.len()
            },
            PotDeserialiser::ReadingNumberOfPlayers(cv, im) => {
                &&& *cv == pv.current_value
                &&& im.following(SignedState::Unsigned, le_bytes(pv.ready.len()), p - cenc.len())
                &&& cenc.len() <= p <= cenc.len() + nenc.len()
            },
            PotDeserialiser::ReadingSoFars(cv, lm) => {
                &&& *cv == pv.current_value
                &&& lm.following(
                    pot_signs(pv.ready.len()),
                    pot_pairs(pv.ready),
                    p - cenc.len() - nenc.len(),
                )
                &&& cenc.len() + nenc.len() <= p <= spec_ser_pot(pv).len()
            },
        }
    }

    /// While following: the extra is never requested, bytes are requested
    /// only strictly inside the wire form and never more than remain, and
    /// the complete wire form asks to be processed.
    pub proof fn lemma_following_wants(&self, pv: PotView, p: int)
        requires
            self.following(pv, p),
        ensures
            !(self.spec_wants() is Extra),
            self.spec_wants() is Byte ==> self.byte_capacity() == 1,
            self.spec_wants() matches DesiredInput::Bytes(k) ==> k == self.byte_capacity(),
            self.byte_capacity() <= spec_ser_pot(pv).len() - p,
            (self.spec_wants() is Byte || self.spec_wants() is Bytes) ==> self.byte_capacity() > 0
                && p < spec_ser_pot(pv).len(),
            p == spec_ser_pot(pv).len() ==> self.spec_wants() is ProcessMe,
            0 <= p <= spec_ser_pot(pv).len(),
    {
        let cenc = spec_vli_unsigned(pv.current_value as nat);
        let nenc = spec_vli_unsigned(pv.ready.len());
        lemma_balance_prefix(pv.current_value);
        lemma_len_prefix_canon(pv.ready.len());
        lemma_pot_pairs_enc(pv.ready);
        match self {
            PotDeserialiser::ReadingPotSize(im) => {
                im.lemma_following_wants(
                    SignedState::Unsigned,
                    le_bytes(pv.current_value as nat),
                    p,
                );
                lemma_pow256_16();
                lemma_le_bytes_props(pv.ready.len());
                lemma_vli_unsigned_canon(pv.ready.len());
            },
            PotDeserialiser::ReadingNumberOfPlayers(_, im) => {
                im.lemma_following_wants(
                    SignedState::Unsigned,
                    le_bytes(pv.ready.len()),
                    p - cenc.len(),
                );
            },
            PotDeserialiser::ReadingSoFars(_, lm) => {
                lm.lemma_following_wants(
                    pot_signs(pv.ready.len()),
                    pot_pairs(pv.ready),
                    p - cenc.len() - nenc.len(),
                );
            },
        }
    }
}

impl DeserMachine for PotDeserialiser {
    type ExtraInput = ();

    type Output = Pot;

    type Error = PotReadError;

    open spec fn byte_capacity(&self) -> nat {
        match self.spec_wants() {
            DesiredInput::Byte => 1,
            DesiredInput::Bytes(k) => k as nat,
            _ => 0,
        }
    }

    fn new() -> (r: Self)
        ensures
            r == PotDeserialiser::ReadingPotSize(
                IntegerDeserialiser::GotSignedState { state: SignedState::Unsigned },
            ),
    {
        PotDeserialiser::ReadingPotSize(
            IntegerDeserialiser::new_with_starting_input(SignedState::Unsigned),
        )
    }

    fn wants_read(&self) -> (r: DesiredInput)
        ensures
            r == self.spec_wants(),
    {
        match self {
            PotDeserialiser::ReadingPotSize(im) => im.wants_read(),
            PotDeserialiser::ReadingNumberOfPlayers(_, im) => im.wants_read(),
            PotDeserialiser::ReadingSoFars(_, lm) => lm.wants_read(),
        }
    }

    fn give_starting_input(&mut self, magic: ())
        ensures
            *final(self) == *old(self),
    {
    }

    fn finish_bytes_for_writing(&mut self, bytes: &[u8])
        ensures
            old(self).inv() ==> final(self).inv(),
            bytes@.len() == 0 ==> *final(self) == *old(self),
            forall|pv: PotView, p: int|
                #[trigger] old(self).following(pv, p) && bytes@.len() > 0 && p + bytes@.len()
                    <= spec_ser_pot(pv).len() && bytes@ == spec_ser_pot(pv).subrange(
                    p,
                    p + bytes@.len(),
                ) ==> final(self).following(pv, p + bytes@.len()),
    {
        match self {
            PotDeserialiser::ReadingPotSize(im) => {
                im.finish_bytes_for_writing(bytes);
                proof {
                    assert forall|pv: PotView, p: int|
                        #[trigger] old(self).following(pv, p) && bytes@.len() > 0 && p
                            + bytes@.len() <= spec_ser_pot(pv).len() && bytes@ == spec_ser_pot(
                            pv,
                        ).subrange(p, p + bytes@.len()) implies final(self).following(
                        pv,
                        p + bytes@.len(),
                    ) by {
                        lemma_balance_prefix(pv.current_value);
                        old(self)->ReadingPotSize_0.lemma_following_wants(
                            SignedState::Unsigned,
                            le_bytes(pv.current_value as nat),
                            p,
                        );
                        assert(spec_ser_pot(pv).subrange(p, p + bytes@.len()) =~= spec_ser_int(
                            le_bytes(pv.current_value as nat),
                        ).subrange(p, p + bytes@.len()));
                    }
                }
            },
            PotDeserialiser::ReadingNumberOfPlayers(_, im) => {
                im.finish_bytes_for_writing(bytes);
                proof {
                    assert forall|pv: PotView, p: int|
                        #[trigger] old(self).following(pv, p) && bytes@.len() > 0 && p
                            + bytes@.len() <= spec_ser_pot(pv).len() && bytes@ == spec_ser_pot(
                            pv,
                        ).subrange(p, p + bytes@.len()) implies final(self).following(
                        pv,
                        p + bytes@.len(),
                    ) by {
                        let cenc = spec_vli_unsigned(pv.current_value as nat);
                        lemma_len_prefix_canon(pv.ready.len());
                        old(self)->ReadingNumberOfPlayers_1.lemma_following_wants(
                            SignedState::Unsigned,
                            le_bytes(pv.ready.len()),
                            p - cenc.len(),
                        );
                        assert(spec_ser_pot(pv).subrange(p, p + bytes@.len()) =~= spec_ser_int(
                            le_bytes(pv.ready.len()),
                        ).subrange(p - cenc.len(), p - cenc.len() + bytes@.len()));
                    }
                }
            },
            PotDeserialiser::ReadingSoFars(_, lm) => {
                lm.finish_bytes_for_writing(bytes);
                proof {
                    assert forall|pv: PotView, p: int|
                        #[trigger] old(self).following(pv, p) && bytes@.len() > 0 && p
                            + bytes@.len() <= spec_ser_pot(pv).len() && bytes@ == spec_ser_pot(
                            pv,
                        ).subrange(p, p + bytes@.len()) implies final(self).following(
                        pv,
                        p + bytes@.len(),
                    ) by {
                        let cenc = spec_vli_unsigned(pv.current_value as nat);
                        let nenc = spec_vli_unsigned(pv.ready.len());
                        lemma_pot_pairs_enc(pv.ready);
                        old(self)->ReadingSoFars_1.lemma_following_wants(
                            pot_signs(pv.ready.len()),
                            pot_pairs(pv.ready),
                            p - cenc.len() - nenc.len(),
                        );
                        assert(spec_ser_pot(pv).subrange(p, p + bytes@.len())
                            =~= spec_ser_pairs(pot_pairs(pv.ready)).subrange(
                            p - cenc.len() - nenc.len(),
                            p - cenc.len() - nenc.len() + bytes@.len(),
                        ));
                    }
                }
            },
        }
    }

    fn process(self) -> (r: Result<FsmResult<Self, Pot>, PotReadError>)
        ensures
            self.inv() ==> (r matches Ok(FsmResult::Continue(m2)) ==> m2.inv() && (
            self.spec_wants() is ProcessMe ==> m2.rank() < self.rank())),
            r matches Err(e) ==> (((self is ReadingPotSize || self is ReadingNumberOfPlayers)
                ==> e matches PotReadError::Integer(_)) && (self is ReadingSoFars ==> (e
                matches PotReadError::Player(_) || e matches PotReadError::Integer(_)))),
            self is ReadingSoFars ==> (r matches Err(PotReadError::Integer(ie)) ==> (ie
                == IntegerReadError::TooBigToFit || ie == IntegerReadError::SignError)),
            forall|pv: PotView, p: int|
                #[trigger] self.following(pv, p) && self.spec_wants() is ProcessMe ==> match r {
                    Ok(FsmResult::Continue(m2)) => m2.following(pv, p) && m2.rank() < self.rank(),
                    Ok(FsmResult::Done(v)) => p == spec_ser_pot(pv).len() && v@ == pv,
                    Err(_) => false,
                },
    {
        let ghost orig = self;
        match self {
            PotDeserialiser::ReadingPotSize(im) => {
                let ghost old_im = im;
                match im.process() {
                    Err(e) => {
                        proof {
                            assert forall|pv: PotView, p: int|
                                #[trigger] orig.following(pv, p) && orig.spec_wants()
                                    is ProcessMe implies false by {
                                assert(old_im.following(
                                    SignedState::Unsigned,
                                    le_bytes(pv.current_value as nat),
                                    p,
                                ));
                            }
                        }
                        Err(PotReadError::Integer(e))
                    },
                    Ok(FsmResult::Continue(im2)) => {
                        let m2 = PotDeserialiser::ReadingPotSize(im2);
                        proof {
                            assert forall|pv: PotView, p: int|
                                #[trigger] orig.following(pv, p) && orig.spec_wants()
                                    is ProcessMe implies m2.following(pv, p) && m2.rank()
                                < orig.rank() by {
                                assert(old_im.following(
                                    SignedState::Unsigned,
                                    le_bytes(pv.current_value as nat),
                                    p,
                                ));
                            }
                        }
                        Ok(FsmResult::Continue(m2))
                    },
                    Ok(FsmResult::Done(szint)) => {
                        match szint.try_to_u32() {
                            Err(e) => {
                                proof {
                                    assert forall|pv: PotView, p: int|
                                        #[trigger] orig.following(pv, p) && orig.spec_wants()
                                            is ProcessMe implies false by {
                                        lemma_balance_prefix(pv.current_value);
                                        lemma_le_bytes_props(pv.current_value as nat);
                                        crate::integer::lemma_spec_dec_content(
                                            SignedState::Unsigned,
                                            le_bytes(pv.current_value as nat),
                                        );
                                        assert(old_im.following(
                                            SignedState::Unsigned,
                                            le_bytes(pv.current_value as nat),
                                            p,
                                        ));
                                    }
                                }
                                Err(PotReadError::Integer(e))
                            },
                            Ok(cv) => {
                                let im2 = IntegerDeserialiser::new_with_starting_input(
                                    SignedState::Unsigned,
                                );
                                let m2 = PotDeserialiser::ReadingNumberOfPlayers(cv, im2);
                                proof {
                                    assert forall|pv: PotView, p: int|
                                        #[trigger] orig.following(pv, p) && orig.spec_wants()
                                            is ProcessMe implies m2.following(pv, p) && m2.rank()
                                        < orig.rank() by {
                                        lemma_balance_prefix(pv.current_value);
                                        lemma_le_bytes_props(pv.current_value as nat);
                                        crate::integer::lemma_spec_dec_content(
                                            SignedState::Unsigned,
                                            le_bytes(pv.current_value as nat),
                                        );
                                        lemma_pow256_16();
                                        lemma_len_prefix_canon(pv.ready.len());
                                        lemma_le_bytes_props(pv.ready.len());
                                        assert(old_im.following(
                                            SignedState::Unsigned,
                                            le_bytes(pv.current_value as nat),
                                            p,
                                        ));
                                    }
                                }
                                Ok(FsmResult::Continue(m2))
                            },
                        }
                    },
                }
            },
            PotDeserialiser::ReadingNumberOfPlayers(cv, im) => {
                let ghost old_im = im;
                match im.process() {
                    Err(e) => {
                        proof {
                            assert forall|pv: PotView, p: int|
                                #[trigger] orig.following(pv, p) && orig.spec_wants()
                                    is ProcessMe implies false by {
                                assert(old_im.following(
                                    SignedState::Unsigned,
                                    le_bytes(pv.ready.len()),
                                    p - spec_vli_unsigned(pv.current_value as nat).len(),
                                ));
                            }
                        }
                        Err(PotReadError::Integer(e))
                    },
                    Ok(FsmResult::Continue(im2)) => {
                        let m2 = PotDeserialiser::ReadingNumberOfPlayers(cv, im2);
                        proof {
                            assert forall|pv: PotView, p: int|
                                #[trigger] orig.following(pv, p) && orig.spec_wants()
                                    is ProcessMe implies m2.following(pv, p) && m2.rank()
                                < orig.rank() by {
                                assert(old_im.following(
                                    SignedState::Unsigned,
                                    le_bytes(pv.ready.len()),
                                    p - spec_vli_unsigned(pv.current_value as nat).len(),
                                ));
                            }
                        }
                        Ok(FsmResult::Continue(m2))
                    },
                    Ok(FsmResult::Done(nint)) => {
                        match nint.try_to_usize() {
                            Err(e) => {
                                proof {
                                    assert forall|pv: PotView, p: int|
                                        #[trigger] orig.following(pv, p) && orig.spec_wants()
                                            is ProcessMe implies false by {
                                        lemma_len_prefix_canon(pv.ready.len());
                                        lemma_le_bytes_props(pv.ready.len());
                                        crate::integer::lemma_spec_dec_content(
                                            SignedState::Unsigned,
                                            le_bytes(pv.ready.len()),
                                        );
                                        assert(old_im.following(
                                            SignedState::Unsigned,
                                            le_bytes(pv.ready.len()),
                                            p - spec_vli_unsigned(pv.current_value as nat).len(),
                                        ));
                                    }
                                }
                                Err(PotReadError::Integer(e))
                            },
                            Ok(count) => {
                                let extras: Vec<SignedState> = make_unsigned_extras(count);
                                let lm = ListDeserialiser::new_with_starting_input(extras);
                                let m2 = PotDeserialiser::ReadingSoFars(cv, lm);
                                proof {
                                    assert(count as nat <= old_im.buffered_value());
                                    assert(m2.rank() <= 2 * (count as nat) + 3);
                                    assert forall|pv: PotView, p: int|
                                        #[trigger] orig.following(pv, p) && orig.spec_wants()
                                            is ProcessMe implies m2.following(pv, p) && m2.rank()
                                        < orig.rank() by {
                                        lemma_len_prefix_canon(pv.ready.len());
                                        lemma_le_bytes_props(pv.ready.len());
                                        crate::integer::lemma_spec_dec_content(
                                            SignedState::Unsigned,
                                            le_bytes(pv.ready.len()),
                                        );
                                        lemma_pot_pairs_enc(pv.ready);
                                        assert(old_im.following(
                                            SignedState::Unsigned,
                                            le_bytes(pv.ready.len()),
                                            p - spec_vli_unsigned(pv.current_value as nat).len(),
                                        ));
                                        assert(count as nat == pv.ready.len());
                                        let n = pv.ready.len();
                                        let enc = spec_ser_int(le_bytes(n));
                                        match old_im {
                                            IntegerDeserialiser::GotSignedStateAndFirstByte {
                                                first_byte,
                                                ..
                                            } => {
                                                assert(enc.len() == 1);
                                                assert(first_byte == enc[0]);
                                                if le_bytes(n).len() == 0 {
                                                    assert(first_byte == 0 && n == 0);
                                                } else {
                                                    assert(enc[0] == le_bytes(n)[0]);
                                                    assert(le_bytes(n) =~= seq![
                                                        le_bytes(n)[0],
                                                    ]);
                                                    assert(le_bytes(n)[0] as nat + 256 * le_value(
                                                        le_bytes(n).drop_first(),
                                                    ) == n);
                                                    assert(le_bytes(n).drop_first() =~= Seq::<
                                                        u8,
                                                    >::empty());
                                                }
                                            },
                                            IntegerDeserialiser::GotLenAndSomeBytes {
                                                space,
                                                ..
                                            } => {
                                                assert(space@ =~= enc.subrange(
                                                    1,
                                                    enc.len() as int,
                                                ));
                                                assert(enc =~= seq![(239 + le_bytes(
                                                    n,
                                                ).len()) as u8] + le_bytes(n));
                                                assert(space@ =~= le_bytes(n));
                                            },
                                            IntegerDeserialiser::GotAllBytes(_, bytes2) => {
                                                assert(bytes2@ =~= enc.subrange(
                                                    1,
                                                    enc.len() as int,
                                                ));
                                                assert(enc =~= seq![(239 + le_bytes(
                                                    n,
                                                ).len()) as u8] + le_bytes(n));
                                                assert(bytes2@ =~= le_bytes(n));
                                            },
                                            _ => {},
                                        }
                                        assert(old_im.buffered_value() == count as nat);
                                        assert(extras@.len() == count as nat);
                                        assert(m2->ReadingSoFars_1.rank() <= 2 * (count as nat)
                                            + 2);
                                        assert(pot_signs(pv.ready.len()) =~= Seq::new(
                                            count as nat,
                                            |i: int| SignedState::Unsigned,
                                        ));
                                        assert(pot_pairs(pv.ready).len() == count as nat);
                                    }
                                }
                                Ok(FsmResult::Continue(m2))
                            },
                        }
                    },
                }
            },
            PotDeserialiser::ReadingSoFars(cv, lm) => {
                let ghost old_lm = lm;
                match lm.process() {
                    Err(e) => {
                        proof {
                            assert forall|pv: PotView, p: int|
                                #[trigger] orig.following(pv, p) && orig.spec_wants()
                                    is ProcessMe implies false by {
                                assert(old_lm.following(
                                    pot_signs(pv.ready.len()),
                                    pot_pairs(pv.ready),
                                    p - spec_vli_unsigned(pv.current_value as nat).len()
                                        - spec_vli_unsigned(pv.ready.len()).len(),
                                ));
                            }
                        }
                        Err(PotReadError::Player(e))
                    },
                    Ok(FsmResult::Continue(lm2)) => {
                        let m2 = PotDeserialiser::ReadingSoFars(cv, lm2);
                        proof {
                            assert forall|pv: PotView, p: int|
                                #[trigger] orig.following(pv, p) && orig.spec_wants()
                                    is ProcessMe implies m2.following(pv, p) && m2.rank()
                                < orig.rank() by {
                                assert(old_lm.following(
                                    pot_signs(pv.ready.len()),
                                    pot_pairs(pv.ready),
                                    p - spec_vli_unsigned(pv.current_value as nat).len()
                                        - spec_vli_unsigned(pv.ready.len()).len(),
                                ));
                            }
                        }
                        Ok(FsmResult::Continue(m2))
                    },
                    Ok(FsmResult::Done(list)) => {
                        let ghost glist = list@;
                        match convert_amounts(list) {
                            Err(e) => {
                                proof {
                                    assert forall|pv: PotView, p: int|
                                        #[trigger] orig.following(pv, p) && orig.spec_wants()
                                            is ProcessMe implies false by {
                                        let base = p - spec_vli_unsigned(
                                            pv.current_value as nat,
                                        ).len() - spec_vli_unsigned(pv.ready.len()).len();
                                        assert(old_lm.following(
                                            pot_signs(pv.ready.len()),
                                            pot_pairs(pv.ready),
                                            base,
                                        ));
                                        let w = choose|j: int|
                                            0 <= j < glist.len() && (glist[j].1.bytes().len() > 4
                                                || glist[j].1.sign() is SignedNegative);
                                        lemma_balance_prefix(pv.ready[w].1);
                                        lemma_le_bytes_props(pv.ready[w].1 as nat);
                                        crate::integer::lemma_spec_dec_content(
                                            SignedState::Unsigned,
                                            le_bytes(pv.ready[w].1 as nat),
                                        );
                                        assert(pot_pairs(pv.ready)[w].1 == le_bytes(
                                            pv.ready[w].1 as nat,
                                        ));
                                    }
                                }
                                Err(PotReadError::Integer(e))
                            },
                            Ok(pairs) => {
                                let ghost gpairs = pairs@;
                                let ready = map_from_pairs(pairs);
                                let pot = Pot { current_value: cv, ready_to_put_in: ready };
                                proof {
                                    assert forall|pv: PotView, p: int|
                                        #[trigger] orig.following(pv, p) && orig.spec_wants()
                                            is ProcessMe implies p == spec_ser_pot(pv).len()
                                        && pot@ == pv by {
                                        let base = p - spec_vli_unsigned(
                                            pv.current_value as nat,
                                        ).len() - spec_vli_unsigned(pv.ready.len()).len();
                                        assert(old_lm.following(
                                            pot_signs(pv.ready.len()),
                                            pot_pairs(pv.ready),
                                            base,
                                        ));
                                        lemma_pot_pairs_enc(pv.ready);
                                        assert forall|j: int, k2: int|
                                            0 <= j < k2 < gpairs.len() implies (
                                        #[trigger] gpairs[j]).0@ != (
                                        #[trigger] gpairs[k2]).0@ by {
                                            assert(glist[j].0@ == pot_pairs(pv.ready)[j].0);
                                            assert(glist[k2].0@ == pot_pairs(pv.ready)[k2].0);
                                        }
                                        assert(ready.entries@ == gpairs);
                                        assert forall|j: int|
                                            0 <= j < pv.ready.len() implies (
                                        #[trigger] pot@.ready[j]) == pv.ready[j] by {
                                            lemma_balance_prefix(pv.ready[j].1);
                                            lemma_le_bytes_props(pv.ready[j].1 as nat);
                                            crate::integer::lemma_spec_dec_content(
                                                SignedState::Unsigned,
                                                le_bytes(pv.ready[j].1 as nat),
                                            );
                                            assert(glist[j].1.bytes() == crate::integer::spec_dec_content(
                                                SignedState::Unsigned,
                                                pot_pairs(pv.ready)[j].1,
                                            ));
                                        }
                                        assert(pot@.ready =~= pv.ready);
                                    }
                                }
                                Ok(FsmResult::Done(pot))
                            },
                        }
                    },
                }
            },
        }
    }
}

/// Narrows every decoded amount back to `u32`, failing where one does not
/// fit the four-byte width or carries a negative sign.
fn convert_amounts(list: Vec<(Uuid, Integer)>) -> (r: Result<Vec<(Uuid, u32)>, IntegerReadError>)
    ensures
        match r {
            Ok(out) => out@.len() == list@.len() && forall|j: int|
                0 <= j < out@.len() ==> (#[trigger] out@[j]).0@ == list@[j].0@ && !(
                list@[j].1.sign() is SignedNegative) && out@[j].1 as int
                    == list@[j].1.int_value(),
            Err(e) => (e == IntegerReadError::TooBigToFit || e == IntegerReadError::SignError)
                && exists|j: int|
                0 <= j < list@.len() && ((#[trigger] list@[j]).1.bytes().len() > 4 || list@[j].1.sign()
                    is SignedNegative),
        },
{
    let mut out: Vec<(Uuid, u32)> = Vec::new();
    let mut i: usize = 0;
    while i < list.len()
        invariant
            i <= list@.len(),
            out@.len() == i,
            forall|j: int| #![trigger out@[j]]
                0 <= j < i ==> out@[j].0@ == list@[j].0@,
            forall|j: int| #![trigger list@[j]]
                0 <= j < i ==> !(list@[j].1.sign() is SignedNegative),
            forall|j: int| #![trigger out@[j]]
                0 <= j < i ==> out@[j].1 as int == list@[j].1.int_value(),
        decreases list@.len() - i,
    {
        let conv = list[i].1.try_to_u32();
        let amt: u32;
        match conv {
            Ok(a) => {
                amt = a;
            },
            Err(e) => {
                return Err(e);
            },
        }
        let key = list[i].0.clone();
        let ghost pre = out@;
        let ghost gkey = key@;
        out.push((key, amt));
        proof {
            assert(out@.len() == pre.len() + 1);
            assert(out@[i as int].0@ == gkey && out@[i as int].1 == amt);
            assert(gkey == list@[i as int].0@);
            assert(list@[i as int].1.bytes().len() <= 4 && !(list@[i as int].1.sign()
                is SignedNegative));
            assert(amt as int == list@[i as int].1.int_value());
            assert forall|j: int| #![trigger out@[j]]
                0 <= j < i + 1 implies out@[j].0@ == list@[j].0@ && out@[j].1 as int
                == list@[j].1.int_value() by {
                if j < i {
                    assert(out@[j] == pre[j]);
                }
            }
            assert forall|j: int| #![trigger list@[j]]
                0 <= j < i + 1 implies !(list@[j].1.sign() is SignedNegative) by {
            }
        }
        i += 1;
    }
    Ok(out)
}

/// Collects key/amount pairs into a map; distinct keys come back exactly in
/// order, and a repeated key keeps the later amount.
fn map_from_pairs(pairs: Vec<(Uuid, u32)>) -> (r: UuidMap<u32>)
    ensures
        (forall|j: int, k: int|
            0 <= j < k < pairs@.len() ==> (#[trigger] pairs@[j]).0@ != (#[trigger] pairs@[k]).0@)
            ==> r.entries@ == pairs@,
{
    let ghost gpairs = pairs@;
    let ghost distinct = forall|j: int, k: int|
        0 <= j < k < gpairs.len() ==> (#[trigger] gpairs[j]).0@ != (#[trigger] gpairs[k]).0@;
    let total = pairs.len();
    proof {
        assert(gpairs.len() == total);
    }
    let mut pairs = pairs;
    let mut r: UuidMap<u32> = UuidMap::new();
    let mut i: usize = 0;
    while pairs.len() > 0
        invariant
            i + pairs@.len() == gpairs.len(),
            gpairs.len() <= usize::MAX,
            pairs@ == gpairs.skip(i as int),
            distinct == (forall|j: int, k: int|
                0 <= j < k < gpairs.len() ==> (#[trigger] gpairs[j]).0@ != (
                #[trigger] gpairs[k]).0@),
            distinct ==> r.entries@ == gpairs.take(i as int),
        decreases pairs@.len(),
    {
        let (key, amt) = pairs.remove(0);
        proof {
            assert(gpairs.skip(i as int)[0] == gpairs[i as int]);
            assert(gpairs.skip(i as int).subrange(1, gpairs.skip(i as int).len() as int)
                =~= gpairs.skip(i + 1));
            if distinct {
                if spec_has_key(r@, key@) {
                    crate::ser_glue::map::lemma_key_index(r@, key@);
                    let w = crate::ser_glue::map::key_index(r@, key@);
                    assert(r@[w].0 == gpairs[w].0@);
                    assert(false);
                }
            }
        }
        r.insert(key, amt);
        proof {
            if distinct {
                assert(r.entries@ =~= gpairs.take(i + 1));
            }
        }
        i = i + 1;
    }
    proof {
        if distinct {
            assert(gpairs.take(gpairs.len() as int) =~= gpairs);
        }
    }
    r
}

/// Builds the run of unsigned extras a self-delimited pair list hands to its
/// element machines.
fn make_unsigned_extras(count: usize) -> (r: Vec<SignedState>)
    ensures
        r@ == Seq::new(count as nat, |i: int| SignedState::Unsigned),
{
    let mut v: Vec<SignedState> = Vec::new();
    let mut i: usize = 0;
    while i < count
        invariant
            i <= count,
            v@ =~= Seq::new(i as nat, |j: int| SignedState::Unsigned),
        decreases count - i,
    {
        v.push(SignedState::Unsigned);
        proof {
            assert(v@ =~= Seq::new((i + 1) as nat, |j: int| SignedState::Unsigned));
        }
        i += 1;
    }
    v
}

} // verus!
