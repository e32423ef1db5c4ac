//! A player: a name and a chip balance, encoded back to back.

use vstd::prelude::*;

use crate::integer::{
    le_bytes, le_value, lemma_le_bytes_props, lemma_pow256_16, lemma_pow256_monotone,
    lemma_spec_dec_content, lemma_vli_unsigned_canon, spec_ser_int, spec_vli_unsigned, Integer,
    IntegerDeserialiser, IntegerReadError, SignedState,
};
use crate::ser_glue::string::{
    spec_ser_string, string_len_fits, StringDeserialiser, StringReadError,
};
use crate::ser_glue::{Deserable, DeserMachine, DesiredInput, FsmResult, Serable};

verus! {

/// A player at the table.
#[derive(Debug, Hash)]
pub struct Player {
    pub name: String,
    pub balance: u32,
}

/// The mathematical shape of a player: the name's characters and the balance.
pub struct PlayerView {
    pub name: Seq<char>,
    pub balance: u32,
}

impl View for Player {
    type V = PlayerView;

    open spec fn view(&self) -> PlayerView {
        PlayerView { name: self.name@, balance: self.balance }
    }
}

/// The wire form of a player: the name as a string, then the balance as an
/// unsigned integer.
pub open spec fn spec_ser_player(pv: PlayerView) -> Seq<u8> {
    spec_ser_string(pv.name) + spec_vli_unsigned(pv.balance as nat)
}

/// A player view that some in-memory player could hold.
pub open spec fn player_fits(pv: PlayerView) -> bool {
    string_len_fits(pv.name)
}

impl Clone for Player {
    /// A clone keeps the name and the balance.
    fn clone(&self) -> (r: Self)
        ensures
            r@ == self@,
    {
        Player { name: self.name.clone(), balance: self.balance }
    }
}

impl PartialEq for Player {
    /// Two players are equal exactly when name and balance agree.
    fn eq(&self, other: &Player) -> (r: bool)
        ensures
            r == (self@ == other@),
    {
        let r = self.name == other.name && self.balance == other.balance;
        proof {
            if r {
                assert(self@ == other@);
            }
        }
        r
    }
}

impl Eq for Player {

}

impl vstd::std_specs::cmp::PartialEqSpecImpl for Player {
    open spec fn obeys_eq_spec() -> bool {
        true
    }

    open spec fn eq_spec(&self, other: &Player) -> bool {
        self@ == other@
    }
}

impl Serable for Player {
    type ExtraOutput = ();

    open spec fn spec_ser(&self) -> Seq<u8> {
        spec_ser_player(self@)
    }

    open spec fn spec_extra_ok(&self, extra: ()) -> bool {
        true
    }

    /// Appends the name, then the balance.
    fn ser_into(&self, into: &mut Vec<u8>) -> (r: ()) {
        self.name.ser_into(into);
        Integer::from_u32(self.balance).ser_into(into);
        proof {
            lemma_balance_prefix(self.balance);
            assert(self.spec_ser() == spec_ser_player(self@));
            assert(self.spec_extra_ok(()));
            assert(final(into)@ =~= old(into)@ + spec_ser_player(self@));
        }
    }
}

/// A balance always has a canonical short encoding.
pub proof fn lemma_balance_prefix(n: u32)
    ensures
        le_bytes(n as nat).len() <= 4,
        spec_ser_int(le_bytes(n as nat)) == spec_vli_unsigned(n as nat),
{
    lemma_pow256_16();
    lemma_le_bytes_props(n as nat);
    if le_bytes(n as nat).len() > 4 {
        lemma_pow256_monotone(4, (le_bytes(n as nat).len() - 1) as nat);
    }
    lemma_vli_unsigned_canon(n as nat);
}

/// Everything that can go wrong reading a player back.
#[derive(Debug)]
pub enum PlayerReadError {
    /// The name failed to decode.
    String(StringReadError),
    /// The balance failed to decode or did not fit.
    Int(IntegerReadError),
}

/// The pull-driven decoder for one player: the name, then the balance.
#[derive(Debug)]
pub enum PlayerDeserialiser {
    /// The name is still being decoded.
    GettingName(StringDeserialiser),
    /// The name is done; the balance is being decoded.
    GettingBalance { name: String, deser: IntegerDeserialiser },
}

impl Deserable for Player {
    type Deserer = PlayerDeserialiser;
}

impl PlayerDeserialiser {
    /// Structural soundness of a reachable machine state.
    pub open spec fn inv(&self) -> bool {
        match self {
            PlayerDeserialiser::GettingName(sm) => sm.inv(),
            PlayerDeserialiser::GettingBalance { deser, .. } => deser.inv() && !(*deser is Start),
        }
    }

    /// How many pure processing steps remain before bytes are needed again.
    pub open spec fn rank(&self) -> nat {
        match self {
            PlayerDeserialiser::GettingName(sm) => sm.rank() + 2,
            PlayerDeserialiser::GettingBalance { deser, .. } => deser.rank() + 1,
        }
    }

    /// What the machine asks of the driver in each state.
    pub open spec fn spec_wants(&self) -> DesiredInput {
        match self {
            PlayerDeserialiser::GettingName(sm) => sm.spec_wants(),
            PlayerDeserialiser::GettingBalance { deser, .. } => deser.spec_wants(),
        }
    }

    /// The machine has consumed the first `p` bytes of the wire form of the
    /// player `pv`.
    pub open spec fn following(&self, pv: PlayerView, p: int) -> bool {
        let nenc = spec_ser_string(pv.name);
        &&& player_fits(pv)
        &&& match self {
            PlayerDeserialiser::GettingName(sm) => {
                &&& sm.following(pv.name, p)
                &&& 0 <= p <= nenc.len()
            },
            PlayerDeserialiser::GettingBalance { name, deser } => {
                &&& name@ == pv.name
                &&& deser.following(SignedState::Unsigned, le_bytes(pv.balance as nat), p
                    - nenc.len())
                &&& nenc.len() <= p <= spec_ser_player(pv).len()
            },
        }
    }

    /// While following: the extra is never requested, bytes are requested
    /// only strictly inside the wire form and never more than remain, and
    /// the complete wire form asks to be processed.
    pub proof fn lemma_following_wants(&self, pv: PlayerView, p: int)
        requires
            self.following(pv, p),
        ensures
            !(self.spec_wants() is Extra),
            self.spec_wants() is Byte ==> self.byte_capacity() == 1,
            self.spec_wants() matches DesiredInput::Bytes(k) ==> k == self.byte_capacity(),
            self.byte_capacity() <= spec_ser_player(pv).len() - p,
            (self.spec_wants() is Byte || self.spec_wants() is Bytes) ==> self.byte_capacity() > 0
                && p < spec_ser_player(pv).len(),
            p == spec_ser_player(pv).len() ==> self.spec_wants() is ProcessMe,
            self.inv(),
            0 <= p <= spec_ser_player(pv).len(),
    {
        lemma_balance_prefix(pv.balance);
        match self {
            PlayerDeserialiser::GettingName(sm) => {
                sm.lemma_following_wants(pv.name, p);
                assert(spec_vli_unsigned(pv.balance as nat).len() >= 1) by {
                    lemma_pow256_16();
                    lemma_le_bytes_props(pv.balance as nat);
                    lemma_vli_unsigned_canon(pv.balance as nat);
                }
            },
            PlayerDeserialiser::GettingBalance { deser, .. } => {
                deser.lemma_following_wants(
                    SignedState::Unsigned,
                    le_bytes(pv.balance as nat),
                    p - spec_ser_string(pv.name).len(),
                );
            },
        }
    }
}

impl DeserMachine for PlayerDeserialiser {
    type ExtraInput = ();

    type Output = Player;

    type Error = PlayerReadError;

    open spec fn byte_capacity(&self) -> nat {
        match self.spec_wants() {
            DesiredInput::Byte => 1,
            DesiredInput::Bytes(k) => k as nat,
            _ => 0,
        }
    }

    fn new() -> (r: Self)
        ensures
            r == PlayerDeserialiser::GettingName(
                StringDeserialiser::DeseringLen(
                    IntegerDeserialiser::GotSignedState { state: SignedState::Unsigned },
                ),
            ),
    {
        PlayerDeserialiser::GettingName(StringDeserialiser::new())
    }

    fn wants_read(&self) -> (r: DesiredInput)
        ensures
            r == self.spec_wants(),
    {
        match self {
            PlayerDeserialiser::GettingName(sm) => sm.wants_read(),
            PlayerDeserialiser::GettingBalance { deser, .. } => deser.wants_read(),
        }
    }

    fn give_starting_input(&mut self, magic: ())
        ensures
            *final(self) == *old(self),
    {
    }

    fn finish_bytes_for_writing(&mut self, bytes: &[u8])
        ensures
            old(self).inv() ==> final(self).inv(),
            bytes@.len() == 0 ==> *final(self) == *old(self),
            forall|pv: PlayerView, p: int|
                #[trigger] old(self).following(pv, p) && bytes@.len() > 0 && p + bytes@.len()
                    <= spec_ser_player(pv).len() && bytes@ == spec_ser_player(pv).subrange(
                    p,
                    p + bytes@.len(),
                ) ==> final(self).following(pv, p + bytes@.len()),
    {
        match self {
            PlayerDeserialiser::GettingName(sm) => {
                sm.finish_bytes_for_writing(bytes);
                proof {
                    assert forall|pv: PlayerView, p: int|
                        #[trigger] old(self).following(pv, p) && bytes@.len() > 0 && p
                            + bytes@.len() <= spec_ser_player(pv).len() && bytes@
                            == spec_ser_player(pv).subrange(p, p + bytes@.len()) implies final(self).following(pv, p + bytes@.len()) by {
                        old(self)->GettingName_0.lemma_following_wants(pv.name, p);
                        assert(spec_ser_player(pv).subrange(p, p + bytes@.len())
                            =~= spec_ser_string(pv.name).subrange(p, p + bytes@.len()));
                    }
                }
            },
            PlayerDeserialiser::GettingBalance { name, deser } => {
                deser.finish_bytes_for_writing(bytes);
                proof {
                    assert forall|pv: PlayerView, p: int|
                        #[trigger] old(self).following(pv, p) && bytes@.len() > 0 && p
                            + bytes@.len() <= spec_ser_player(pv).len() && bytes@
                            == spec_ser_player(pv).subrange(p, p + bytes@.len()) implies final(self).following(pv, p + bytes@.len()) by {
                        let nenc = spec_ser_string(pv.name);
                        lemma_balance_prefix(pv.balance);
                        assert(spec_ser_player(pv).subrange(p, p + bytes@.len()) =~= spec_ser_int(
                            le_bytes(pv.balance as nat),
                        ).subrange(p - nenc.len(), p - nenc.len() + bytes@.len()));
                    }
                }
            },
        }
    }

    fn process(self) -> (r: Result<FsmResult<Self, Player>, PlayerReadError>)
        ensures
            self.inv() ==> (r matches Ok(FsmResult::Continue(m2)) ==> m2.inv() && (
            self.spec_wants() is ProcessMe ==> m2.rank() < self.rank())),
            r matches Err(e) ==> ((self is GettingName ==> e matches PlayerReadError::String(_))
                && (self matches PlayerDeserialiser::GettingBalance { .. } ==> e
                matches PlayerReadError::Int(_))),
            self matches PlayerDeserialiser::GettingBalance { deser, .. } ==> (deser.is_unsigned()
                ==> !(r matches Err(PlayerReadError::Int(IntegerReadError::SignError)))),
            self matches PlayerDeserialiser::GettingBalance {
                deser: IntegerDeserialiser::GotAllBytes(st, b),
                ..
            } ==> ((b@.len() > 4 ==> (r matches Err(PlayerReadError::Int(e)) && e
                == IntegerReadError::TooBigToFit)) && (b@.len() <= 4 && st is Unsigned ==> (
            r matches Ok(FsmResult::Done(v)) && v.balance as nat == le_value(b@)))),
            forall|pv: PlayerView, p: int|
                #[trigger] self.following(pv, p) && self.spec_wants() is ProcessMe ==> match r {
                    Ok(FsmResult::Continue(m2)) => m2.following(pv, p) && m2.rank() < self.rank(),
                    Ok(FsmResult::Done(v)) => p == spec_ser_player(pv).len() && v@ == pv,
                    Err(_) => false,
                },
    {
        match self {
            PlayerDeserialiser::GettingName(sm) => {
                let ghost old_sm = sm;
                match sm.process() {
                    Err(e) => {
                        proof {
                            assert forall|pv: PlayerView, p: int|
                                #[trigger] self.following(pv, p) && self.spec_wants()
                                    is ProcessMe implies false by {
                                assert(old_sm.following(pv.name, p));
                            }
                        }
                        Err(PlayerReadError::String(e))
                    },
                    Ok(FsmResult::Continue(sm2)) => {
                        let m2 = PlayerDeserialiser::GettingName(sm2);
                        proof {
                            assert forall|pv: PlayerView, p: int|
                                #[trigger] self.following(pv, p) && self.spec_wants()
                                    is ProcessMe implies m2.following(pv, p) && m2.rank()
                                < self.rank() by {
                                assert(old_sm.following(pv.name, p));
                            }
                        }
                        Ok(FsmResult::Continue(m2))
                    },
                    Ok(FsmResult::Done(name)) => {
                        let deser = IntegerDeserialiser::new_with_starting_input(
                            SignedState::Unsigned,
                        );
                        let m2 = PlayerDeserialiser::GettingBalance { name, deser };
                        proof {
                            assert forall|pv: PlayerView, p: int|
                                #[trigger] self.following(pv, p) && self.spec_wants()
                                    is ProcessMe implies m2.following(pv, p) && m2.rank()
                                < self.rank() by {
                                assert(old_sm.following(pv.name, p));
                                lemma_balance_prefix(pv.balance);
                            }
                        }
                        Ok(FsmResult::Continue(m2))
                    },
                }
            },
            PlayerDeserialiser::GettingBalance { name, deser } => {
                let ghost old_im = deser;
                match deser.process() {
                    Err(e) => {
                        proof {
                            assert forall|pv: PlayerView, p: int|
                                #[trigger] self.following(pv, p) && self.spec_wants()
                                    is ProcessMe implies false by {
                                assert(old_im.following(
                                    SignedState::Unsigned,
                                    le_bytes(pv.balance as nat),
                                    p - spec_ser_string(pv.name).len(),
                                ));
                            }
                        }
                        Err(PlayerReadError::Int(e))
                    },
                    Ok(FsmResult::Continue(deser)) => {
                        let m2 = PlayerDeserialiser::GettingBalance { name, deser };
                        proof {
                            assert forall|pv: PlayerView, p: int|
                                #[trigger] self.following(pv, p) && self.spec_wants()
                                    is ProcessMe implies m2.following(pv, p) && m2.rank()
                                < self.rank() by {
                                assert(old_im.following(
                                    SignedState::Unsigned,
                                    le_bytes(pv.balance as nat),
                                    p - spec_ser_string(pv.name).len(),
                                ));
                            }
                        }
                        Ok(FsmResult::Continue(m2))
                    },
                    Ok(FsmResult::Done(balance_int)) => {
                        match balance_int.try_to_u32() {
                            Err(e) => {
                                proof {
                                    assert forall|pv: PlayerView, p: int|
                                        #[trigger] self.following(pv, p) && self.spec_wants()
                                            is ProcessMe implies false by {
                                        assert(old_im.following(
                                            SignedState::Unsigned,
                                            le_bytes(pv.balance as nat),
                                            p - spec_ser_string(pv.name).len(),
                                        ));
                                        lemma_balance_prefix(pv.balance);
                                        lemma_le_bytes_props(pv.balance as nat);
                                        lemma_spec_dec_content(
                                            SignedState::Unsigned,
                                            le_bytes(pv.balance as nat),
                                        );
                                    }
                                }
                                Err(PlayerReadError::Int(e))
                            },
                            Ok(balance) => {
                                let out = Player { name, balance };
                                proof {
                                    assert forall|pv: PlayerView, p: int|
                                        #[trigger] self.following(pv, p) && self.spec_wants()
                                            is ProcessMe implies p == spec_ser_player(pv).len()
                                        && out@ == pv by {
                                        assert(old_im.following(
                                            SignedState::Unsigned,
                                            le_bytes(pv.balance as nat),
                                            p - spec_ser_string(pv.name).len(),
                                        ));
                                        lemma_balance_prefix(pv.balance);
                                        lemma_le_bytes_props(pv.balance as nat);
                                        lemma_spec_dec_content(
                                            SignedState::Unsigned,
                                            le_bytes(pv.balance as nat),
                                        );
                                    }
                                }
                                Ok(FsmResult::Done(out))
                            },
                        }
                    },
                }
            },
        }
    }
}

} // verus!
