//! The server-to-client messages and their frame codec.

use vstd::prelude::*;
use vstd::utf8::encode_utf8;

use crate::events::{
    EventReadError, ADMIN_MSG, GET_ALL_PLAYERS, GET_POT, GET_SPECIFIC_PLAYER, INTRODUCTION,
    TEXT_MESSAGE,
};
use crate::game_types::player::{
    player_fits, spec_ser_player, Player, PlayerDeserialiser, PlayerView,
};
use crate::game_types::pot::{pot_fits, spec_ser_pot, Pot, PotDeserialiser, PotView};
use crate::integer::IntegerReadError;
use crate::ser_glue::map::{
    player_map_fits, spec_keys_distinct, spec_map_eq, spec_ser_player_map, BasicMapDeserialiser,
    BasicMapSer, UuidMap,
};
use crate::ser_glue::string::{
    spec_ser_string, string_len_fits, StringDeserialiser,
};
use crate::ser_glue::uuid::{Uuid, UuidDeserialiser};
use crate::ser_glue::{Deserable, DeserMachine, DesiredInput, FsmResult, Serable};

verus! {

/// A message from the server to a client.
#[derive(Debug)]
pub enum EventToClient {
    /// A player said something.
    TxtSent(Uuid, String),
    /// The server itself said something.
    AdminMsg(String),
    /// The identifier this connection now plays under.
    Introduced(Uuid),
    /// A snapshot of the pot.
    Pot(Pot),
    /// The whole table of players.
    AllPlayers(UuidMap<Player>),
    /// One player's data.
    SpecificPlayer(Uuid, Player),
}

/// The mathematical shape of a server-to-client message.
pub enum EventToClientView {
    TxtSent(Seq<u8>, Seq<char>),
    AdminMsg(Seq<char>),
    Introduced(Seq<u8>),
    Pot(PotView),
    AllPlayers(Seq<(Seq<u8>, PlayerView)>),
    SpecificPlayer(Seq<u8>, PlayerView),
}

impl View for EventToClient {
    type V = EventToClientView;

    open spec fn view(&self) -> EventToClientView {
        match self {
            EventToClient::TxtSent(uuid, content) => EventToClientView::TxtSent(uuid@, content@),
            EventToClient::AdminMsg(content) => EventToClientView::AdminMsg(content@),
            EventToClient::Introduced(uuid) => EventToClientView::Introduced(uuid@),
            EventToClient::Pot(pot) => EventToClientView::Pot(pot@),
            EventToClient::AllPlayers(players) => EventToClientView::AllPlayers(players@),
            EventToClient::SpecificPlayer(uuid, player) => EventToClientView::SpecificPlayer(
                uuid@,
                player@,
            ),
        }
    }
}

/// A message view that some in-memory message could hold; map payloads also
/// carry distinct keys, as library maps do.
pub open spec fn client_event_fits(e: EventToClientView) -> bool {
    match e {
        EventToClientView::TxtSent(uv, content) => uv.len() == 16 && string_len_fits(content),
        EventToClientView::AdminMsg(content) => string_len_fits(content),
        EventToClientView::Introduced(uv) => uv.len() == 16,
        EventToClientView::Pot(pv) => pot_fits(pv) && spec_keys_distinct(pv.ready),
        EventToClientView::AllPlayers(es) => player_map_fits(es),
        EventToClientView::SpecificPlayer(uv, pv) => uv.len() == 16 && player_fits(pv),
    }
}

/// The wire form of a server-to-client message: the frame tag, then the
/// variant's payload.
pub open spec fn spec_ser_client_event(e: EventToClientView) -> Seq<u8> {
    match e {
        EventToClientView::TxtSent(uv, content) => seq![TEXT_MESSAGE] + uv + spec_ser_string(
            content,
        ),
        EventToClientView::AdminMsg(content) => seq![ADMIN_MSG] + spec_ser_string(content),
        EventToClientView::Introduced(uv) => seq![INTRODUCTION] + uv,
        EventToClientView::Pot(pv) => seq![GET_POT] + spec_ser_pot(pv),
        EventToClientView::AllPlayers(es) => seq![GET_ALL_PLAYERS] + spec_ser_player_map(es),
        EventToClientView::SpecificPlayer(uv, pv) => seq![GET_SPECIFIC_PLAYER] + uv
            + spec_ser_player(pv),
    }
}

/// Every frame is at least its tag byte.
pub proof fn lemma_client_event_len(e: EventToClientView)
    ensures
        spec_ser_client_event(e).len() >= 1,
        spec_ser_client_event(e)[0] == (match e {
            EventToClientView::TxtSent(..) => TEXT_MESSAGE,
            EventToClientView::AdminMsg(..) => ADMIN_MSG,
            EventToClientView::Introduced(..) => INTRODUCTION,
            EventToClientView::Pot(..) => GET_POT,
            EventToClientView::AllPlayers(..) => GET_ALL_PLAYERS,
            EventToClientView::SpecificPlayer(..) => GET_SPECIFIC_PLAYER,
        }),
{
}

/// The wire form of a whole stream of messages, one frame after another.
pub open spec fn spec_ser_client_stream(vs: Seq<EventToClientView>) -> Seq<u8>
    decreases vs.len(),
{
    if vs.len() == 0 {
        Seq::empty()
    } else {
        spec_ser_client_event(vs[0]) + spec_ser_client_stream(vs.drop_first())
    }
}

/// A stream view that in-memory messages could hold.
pub open spec fn client_stream_fits(vs: Seq<EventToClientView>) -> bool {
    forall|i: int| 0 <= i < vs.len() ==> client_event_fits(#[trigger] vs[i])
}

/// A stream splits at any frame boundary.
pub proof fn lemma_client_stream_split(vs: Seq<EventToClientView>, i: int)
    requires
        0 <= i <= vs.len(),
    ensures
        spec_ser_client_stream(vs) == spec_ser_client_stream(vs.take(i)) + spec_ser_client_stream(
            vs.skip(i),
        ),
    decreases i,
{
    if i == 0 {
        assert(vs.take(0) =~= Seq::<EventToClientView>::empty());
        assert(vs.skip(0) =~= vs);
        assert(spec_ser_client_stream(vs.take(0)) =~= Seq::<u8>::empty());
        assert(Seq::<u8>::empty() + spec_ser_client_stream(vs) =~= spec_ser_client_stream(vs));
    } else {
        lemma_client_stream_split(vs.drop_first(), i - 1);
        assert(vs.take(i).drop_first() =~= vs.drop_first().take(i - 1));
        assert(vs.skip(i) =~= vs.drop_first().skip(i - 1));
        assert(vs.take(i)[0] == vs[0]);
        assert(spec_ser_client_stream(vs.take(i)) == spec_ser_client_event(vs[0])
            + spec_ser_client_stream(vs.drop_first().take(i - 1)));
        assert((spec_ser_client_event(vs[0]) + spec_ser_client_stream(vs.drop_first().take(i - 1)))
            + spec_ser_client_stream(vs.drop_first().skip(i - 1)) =~= spec_ser_client_event(vs[0])
            + (spec_ser_client_stream(vs.drop_first().take(i - 1)) + spec_ser_client_stream(
            vs.drop_first().skip(i - 1),
        )));
    }
}

/// The bytes of one frame sit between the bytes of the frames before and
/// after it.
pub proof fn lemma_client_stream_frame(vs: Seq<EventToClientView>, i: int)
    requires
        0 <= i < vs.len(),
    ensures
        spec_ser_client_stream(vs) == spec_ser_client_stream(vs.take(i)) + spec_ser_client_event(
            vs[i],
        ) + spec_ser_client_stream(vs.skip(i + 1)),
        spec_ser_client_stream(vs.take(i + 1)) == spec_ser_client_stream(vs.take(i))
            + spec_ser_client_event(vs[i]),
{
    lemma_client_stream_split(vs, i);
    assert(vs.skip(i)[0] == vs[i]);
    assert(vs.skip(i).drop_first() =~= vs.skip(i + 1));
    assert(spec_ser_client_stream(vs.skip(i)) == spec_ser_client_event(vs[i])
        + spec_ser_client_stream(vs.skip(i + 1)));
    assert(spec_ser_client_stream(vs.take(i)) + (spec_ser_client_event(vs[i])
        + spec_ser_client_stream(vs.skip(i + 1))) =~= (spec_ser_client_stream(vs.take(i))
        + spec_ser_client_event(vs[i])) + spec_ser_client_stream(vs.skip(i + 1)));
    lemma_client_stream_split(vs, i + 1);
    assert(vs.take(i + 1).take(i) =~= vs.take(i));
    lemma_client_stream_split(vs.take(i + 1), i);
    assert(vs.take(i + 1).skip(i) =~= seq![vs[i]]);
    assert(seq![vs[i]].drop_first() =~= Seq::<EventToClientView>::empty());
    assert(spec_ser_client_stream(seq![vs[i]]) =~= spec_ser_client_event(vs[i]));
}

/// Law: a stream of two frames is exactly the first frame's bytes followed
/// by the second's, so the driver's contract specialises to: decoding
/// `encode(a) ++ encode(b)` yields exactly `[a, b]`.
pub proof fn lemma_two_frame_client_stream(a: EventToClientView, b: EventToClientView)
    ensures
        spec_ser_client_stream(seq![a, b]) == spec_ser_client_event(a) + spec_ser_client_event(b),
{
    let vs = seq![a, b];
    assert(vs.drop_first() =~= seq![b]);
    assert(seq![b].drop_first() =~= Seq::<EventToClientView>::empty());
    assert(seq![b][0] == b);
    assert(spec_ser_client_stream(Seq::<EventToClientView>::empty()) =~= Seq::<u8>::empty());
    assert(spec_ser_client_event(b) + Seq::<u8>::empty() =~= spec_ser_client_event(b));
    assert(spec_ser_client_stream(seq![b]) =~= spec_ser_client_event(b));
    assert(vs[0] == a);
    assert(spec_ser_client_event(a) + (spec_ser_client_event(b) + Seq::<u8>::empty())
        =~= spec_ser_client_event(a) + spec_ser_client_event(b));
}

/// Encoding is deterministic per value: the bytes depend only on the
/// message's mathematical shape. A map payload encodes its entries in the
/// order they are stored, so two equal mappings stored in different orders
/// may encode differently; nothing more is promised.
pub proof fn lemma_client_ser_deterministic(a: EventToClient, b: EventToClient)
    requires
        a@ == b@,
    ensures
        a.spec_ser() == b.spec_ser(),
{
}

/// Message equality: structural, with strings by their characters and map
/// payloads compared as mappings.
pub open spec fn spec_client_event_eq(a: EventToClientView, b: EventToClientView) -> bool {
    match (a, b) {
        (EventToClientView::TxtSent(ua, ca), EventToClientView::TxtSent(ub, cb)) => ua == ub && ca
            == cb,
        (EventToClientView::AdminMsg(ca), EventToClientView::AdminMsg(cb)) => ca == cb,
        (EventToClientView::Introduced(ua), EventToClientView::Introduced(ub)) => ua == ub,
        (EventToClientView::Pot(pa), EventToClientView::Pot(pb)) => crate::game_types::pot::spec_pot_eq(
            pa,
            pb,
        ),
        (EventToClientView::AllPlayers(ea), EventToClientView::AllPlayers(eb)) => spec_map_eq(
            ea,
            eb,
        ),
        (
            EventToClientView::SpecificPlayer(ua, pa),
            EventToClientView::SpecificPlayer(ub, pb),
        ) => ua == ub && pa == pb,
        _ => false,
    }
}

impl Clone for EventToClient {
    /// A clone carries the same message.
    fn clone(&self) -> (r: Self)
        ensures
            r@ == self@,
    {
        match self {
            EventToClient::TxtSent(uuid, content) => EventToClient::TxtSent(
                uuid.clone(),
                content.clone(),
            ),
            EventToClient::AdminMsg(content) => EventToClient::AdminMsg(content.clone()),
            EventToClient::Introduced(uuid) => EventToClient::Introduced(uuid.clone()),
            EventToClient::Pot(pot) => EventToClient::Pot(pot.clone()),
            EventToClient::AllPlayers(players) => EventToClient::AllPlayers(players.clone()),
            EventToClient::SpecificPlayer(uuid, player) => EventToClient::SpecificPlayer(
                uuid.clone(),
                player.clone(),
            ),
        }
    }
}

impl PartialEq for EventToClient {
    /// Two messages are equal when their shapes coincide; map payloads
    /// compare as mappings, whatever their entry order.
    fn eq(&self, other: &EventToClient) -> (r: bool)
        ensures
            r == spec_client_event_eq(self@, other@),
    {
        match (self, other) {
            (EventToClient::TxtSent(ua, ca), EventToClient::TxtSent(ub, cb)) => {
                let r = ua == ub && *ca == *cb;
                proof {
                    assert(r == spec_client_event_eq(self@, other@));
                }
                r
            },
            (EventToClient::AdminMsg(ca), EventToClient::AdminMsg(cb)) => {
                let r = *ca == *cb;
                proof {
                    assert(r == spec_client_event_eq(self@, other@));
                }
                r
            },
            (EventToClient::Introduced(ua), EventToClient::Introduced(ub)) => {
                let r = ua == ub;
                proof {
                    assert(r == spec_client_event_eq(self@, other@));
                }
                r
            },
            (EventToClient::Pot(pa), EventToClient::Pot(pb)) => {
                let r = pa == pb;
                proof {
                    assert(r == spec_client_event_eq(self@, other@));
                }
                r
            },
            (EventToClient::AllPlayers(ea), EventToClient::AllPlayers(eb)) => {
                let r = ea == eb;
                proof {
                    assert(r == spec_client_event_eq(self@, other@));
                }
                r
            },
            (EventToClient::SpecificPlayer(ua, pa), EventToClient::SpecificPlayer(ub, pb)) => {
                let r = ua == ub && pa == pb;
                proof {
                    assert(r == spec_client_event_eq(self@, other@));
                }
                r
            },
            _ => false,
        }
    }
}

impl Eq for EventToClient {

}

impl vstd::std_specs::cmp::PartialEqSpecImpl for EventToClient {
    open spec fn obeys_eq_spec() -> bool {
        true
    }

    open spec fn eq_spec(&self, other: &EventToClient) -> bool {
        spec_client_event_eq(self@, other@)
    }
}

impl Serable for EventToClient {
    type ExtraOutput = ();

    open spec fn spec_ser(&self) -> Seq<u8> {
        spec_ser_client_event(self@)
    }

    open spec fn spec_extra_ok(&self, extra: ()) -> bool {
        true
    }

    /// Appends the tag byte, then the payload.
    fn ser_into(&self, into: &mut Vec<u8>) -> (r: ()) {
        match self {
            EventToClient::TxtSent(uuid, content) => {
                into.push(TEXT_MESSAGE);
                uuid.ser_into(into);
                content.ser_into(into);
            },
            EventToClient::AdminMsg(content) => {
                into.push(ADMIN_MSG);
                content.ser_into(into);
            },
            EventToClient::Introduced(uuid) => {
                into.push(INTRODUCTION);
                uuid.ser_into(into);
            },
            EventToClient::Pot(pot) => {
                into.push(GET_POT);
                pot.ser_into(into);
            },
            EventToClient::AllPlayers(players) => {
                into.push(GET_ALL_PLAYERS);
                let _ = BasicMapSer(players).ser_into(into);
                proof {
                    crate::ser_glue::map::lemma_entries_views(players.entries@);
                }
            },
            EventToClient::SpecificPlayer(uuid, player) => {
                into.push(GET_SPECIFIC_PLAYER);
                uuid.ser_into(into);
                player.ser_into(into);
            },
        }
        proof {
            assert(self.spec_ser() == spec_ser_client_event(self@));
            assert(self.spec_extra_ok(()));
            assert(final(into)@ =~= old(into)@ + spec_ser_client_event(self@));
        }
    }
}

/// The frame tags a server-to-client stream may carry.
pub open spec fn spec_valid_client_tag(t: u8) -> bool {
    t == TEXT_MESSAGE || t == INTRODUCTION || t == ADMIN_MSG || t == GET_POT
        || t == GET_ALL_PLAYERS || t == GET_SPECIFIC_PLAYER
}

/// The pull-driven decoder for one server-to-client frame.
#[derive(Debug)]
pub enum ClientEventDeserer {
    /// Waiting for the tag byte.
    Start,
    /// The tag byte arrived and has not been examined yet.
    GotStart(u8),
    /// Reading the sender of a text message.
    DeseringTextUuid(UuidDeserialiser),
    /// The sender is known; reading the text itself.
    DeseringTextAfterUuid(Uuid, StringDeserialiser),
    /// Reading the identifier of an introduction.
    DeseringIntro(UuidDeserialiser),
    /// Reading an administrative message.
    DeseringAdminMsg(StringDeserialiser),
    /// Reading a pot snapshot.
    DeseringPot(PotDeserialiser),
    /// Reading the whole player table.
    DeseringAllPlayers(BasicMapDeserialiser),
    /// Reading the identifier of a specific player.
    DeseringPlayerUuid(UuidDeserialiser),
    /// The identifier is known; reading the player.
    DeseringPlayerAfterUuid(Uuid, PlayerDeserialiser),
}

impl Deserable for EventToClient {
    type Deserer = ClientEventDeserer;
}

impl ClientEventDeserer {
    /// Structural soundness of a reachable machine state.
    pub open spec fn inv(&self) -> bool {
        match self {
            ClientEventDeserer::Start => true,
            ClientEventDeserer::GotStart(_) => true,
            ClientEventDeserer::DeseringTextUuid(um) => um.inv(),
            ClientEventDeserer::DeseringTextAfterUuid(_, sm) => sm.inv(),
            ClientEventDeserer::DeseringIntro(um) => um.inv(),
            ClientEventDeserer::DeseringAdminMsg(sm) => sm.inv(),
            ClientEventDeserer::DeseringPot(pm) => pm.inv(),
            ClientEventDeserer::DeseringAllPlayers(mm) => mm.inv(),
            ClientEventDeserer::DeseringPlayerUuid(um) => um.inv(),
            ClientEventDeserer::DeseringPlayerAfterUuid(_, pm) => pm.inv(),
        }
    }

    /// How many pure processing steps remain before bytes are needed again.
    pub open spec fn rank(&self) -> nat {
        match self {
            ClientEventDeserer::Start => 0,
            ClientEventDeserer::GotStart(_) => 8,
            ClientEventDeserer::DeseringTextUuid(um) => um.rank() + 4,
            ClientEventDeserer::DeseringTextAfterUuid(_, sm) => sm.rank() + 1,
            ClientEventDeserer::DeseringIntro(um) => um.rank() + 1,
            ClientEventDeserer::DeseringAdminMsg(sm) => sm.rank() + 1,
            ClientEventDeserer::DeseringPot(pm) => pm.rank() + 1,
            ClientEventDeserer::DeseringAllPlayers(mm) => mm.rank() + 1,
            ClientEventDeserer::DeseringPlayerUuid(um) => um.rank() + 6,
            ClientEventDeserer::DeseringPlayerAfterUuid(_, pm) => pm.rank() + 1,
        }
    }

    /// What the machine asks of the driver in each state.
    pub open spec fn spec_wants(&self) -> DesiredInput {
        match self {
            ClientEventDeserer::Start => DesiredInput::Byte,
            ClientEventDeserer::GotStart(_) => DesiredInput::ProcessMe,
            ClientEventDeserer::DeseringTextUuid(um) => um.spec_wants(),
            ClientEventDeserer::DeseringTextAfterUuid(_, sm) => sm.spec_wants(),
            ClientEventDeserer::DeseringIntro(um) => um.spec_wants(),
            ClientEventDeserer::DeseringAdminMsg(sm) => sm.spec_wants(),
            ClientEventDeserer::DeseringPot(pm) => pm.spec_wants(),
            ClientEventDeserer::DeseringAllPlayers(mm) => mm.spec_wants(),
            ClientEventDeserer::DeseringPlayerUuid(um) => um.spec_wants(),
            ClientEventDeserer::DeseringPlayerAfterUuid(_, pm) => pm.spec_wants(),
        }
    }

    /// The machine has consumed the first `p` bytes of the frame encoding
    /// the message `e`.
    pub open spec fn following(&self, e: EventToClientView, p: int) -> bool {
        let enc = spec_ser_client_event(e);
        &&& client_event_fits(e)
        &&& match self {
            ClientEventDeserer::Start => p == 0,
            ClientEventDeserer::GotStart(t) => p == 1 && *t == enc[0],
            ClientEventDeserer::DeseringTextUuid(um) => {
                &&& e matches EventToClientView::TxtSent(uv, content)
                &&& um.following(uv, p - 1)
                &&& 1 <= p <= 17
            },
            ClientEventDeserer::DeseringTextAfterUuid(uuid, sm) => {
                &&& e matches EventToClientView::TxtSent(uv, content)
                &&& uuid@ == uv
                &&& sm.following(content, p - 17)
                &&& 17 <= p <= enc.len()
            },
            ClientEventDeserer::DeseringIntro(um) => {
                &&& e matches EventToClientView::Introduced(uv)
                &&& um.following(uv, p - 1)
                &&& 1 <= p <= enc.len()
            },
            ClientEventDeserer::DeseringAdminMsg(sm) => {
                &&& e matches EventToClientView::AdminMsg(content)
                &&& sm.following(content, p - 1)
                &&& 1 <= p <= enc.len()
            },
            ClientEventDeserer::DeseringPot(pm) => {
                &&& e matches EventToClientView::Pot(pv)
                &&& pm.following(pv, p - 1)
                &&& 1 <= p <= enc.len()
            },
            ClientEventDeserer::DeseringAllPlayers(mm) => {
                &&& e matches EventToClientView::AllPlayers(es)
                &&& mm.following(es, p - 1)
                &&& 1 <= p <= enc.len()
            },
            ClientEventDeserer::DeseringPlayerUuid(um) => {
                &&& e matches EventToClientView::SpecificPlayer(uv, pv)
                &&& um.following(uv, p - 1)
                &&& 1 <= p <= 17
            },
            ClientEventDeserer::DeseringPlayerAfterUuid(uuid, pm) => {
                &&& e matches EventToClientView::SpecificPlayer(uv, pv)
                &&& uuid@ == uv
                &&& pm.following(pv, p - 17)
                &&& 17 <= p <= enc.len()
            },
        }
    }

    /// While following: the extra is never requested, bytes are requested
    /// only strictly inside the frame and never more than remain, and the
    /// complete frame asks to be processed.
    pub proof fn lemma_following_wants(&self, e: EventToClientView, p: int)
        requires
            self.following(e, p),
        ensures
            !(self.spec_wants() is Extra),
            self.spec_wants() is Byte ==> self.byte_capacity() == 1,
            self.spec_wants() matches DesiredInput::Bytes(k) ==> k == self.byte_capacity(),
            self.byte_capacity() <= spec_ser_client_event(e).len() - p,
            (self.spec_wants() is Byte || self.spec_wants() is Bytes) ==> self.byte_capacity() > 0
                && p < spec_ser_client_event(e).len(),
            p == spec_ser_client_event(e).len() ==> self.spec_wants() is ProcessMe,
            0 <= p <= spec_ser_client_event(e).len(),
    {
        let enc = spec_ser_client_event(e);
        match self {
            ClientEventDeserer::Start => {
                lemma_client_event_len(e);
            },
            ClientEventDeserer::GotStart(_) => {},
            ClientEventDeserer::DeseringTextUuid(um) => {
                let uv = e->TxtSent_0;
                let content = e->TxtSent_1;
                um.lemma_following_wants(uv, p - 1);
                crate::ser_glue::string::lemma_string_len_prefix(content);
                crate::integer::lemma_pow256_16();
                crate::integer::lemma_le_bytes_props(encode_utf8(content).len());
                crate::integer::lemma_vli_unsigned_canon(encode_utf8(content).len());
            },
            ClientEventDeserer::DeseringTextAfterUuid(_, sm) => {
                let uv = e->TxtSent_0;
                let content = e->TxtSent_1;
                sm.lemma_following_wants(content, p - 17);
            },
            ClientEventDeserer::DeseringIntro(um) => {
                let uv = e->Introduced_0;
                um.lemma_following_wants(uv, p - 1);
            },
            ClientEventDeserer::DeseringAdminMsg(sm) => {
                let content = e->AdminMsg_0;
                sm.lemma_following_wants(content, p - 1);
            },
            ClientEventDeserer::DeseringPot(pm) => {
                let pv = e->Pot_0;
                pm.lemma_following_wants(pv, p - 1);
            },
            ClientEventDeserer::DeseringAllPlayers(mm) => {
                let es = e->AllPlayers_0;
                mm.lemma_following_wants(es, p - 1);
            },
            ClientEventDeserer::DeseringPlayerUuid(um) => {
                let uv = e->SpecificPlayer_0;
                let pv = e->SpecificPlayer_1;
                um.lemma_following_wants(uv, p - 1);
                crate::ser_glue::string::lemma_string_len_prefix(pv.name);
                crate::integer::lemma_pow256_16();
                crate::integer::lemma_le_bytes_props(encode_utf8(pv.name).len());
                crate::integer::lemma_vli_unsigned_canon(encode_utf8(pv.name).len());
                crate::game_types::player::lemma_balance_prefix(pv.balance);
                crate::integer::lemma_le_bytes_props(pv.balance as nat);
                crate::integer::lemma_vli_unsigned_canon(pv.balance as nat);
            },
            ClientEventDeserer::DeseringPlayerAfterUuid(_, pm) => {
                let pv = e->SpecificPlayer_1;
                pm.lemma_following_wants(pv, p - 17);
            },
        }
    }
}

impl DeserMachine for ClientEventDeserer {
    type ExtraInput = ();

    type Output = EventToClient;

    type Error = EventReadError;

    open spec fn byte_capacity(&self) -> nat {
        match self.spec_wants() {
            DesiredInput::Byte => 1,
            DesiredInput::Bytes(k) => k as nat,
            _ => 0,
        }
    }

    fn new() -> (r: Self)
        ensures
            r == ClientEventDeserer::Start,
    {
        ClientEventDeserer::Start
    }

    fn wants_read(&self) -> (r: DesiredInput)
        ensures
            r == self.spec_wants(),
    {
        match self {
            ClientEventDeserer::Start => DesiredInput::Byte,
            ClientEventDeserer::GotStart(_) => DesiredInput::ProcessMe,
            ClientEventDeserer::DeseringTextUuid(um) => um.wants_read(),
            ClientEventDeserer::DeseringTextAfterUuid(_, sm) => sm.wants_read(),
            ClientEventDeserer::DeseringIntro(um) => um.wants_read(),
            ClientEventDeserer::DeseringAdminMsg(sm) => sm.wants_read(),
            ClientEventDeserer::DeseringPot(pm) => pm.wants_read(),
            ClientEventDeserer::DeseringAllPlayers(mm) => mm.wants_read(),
            ClientEventDeserer::DeseringPlayerUuid(um) => um.wants_read(),
            ClientEventDeserer::DeseringPlayerAfterUuid(_, pm) => pm.wants_read(),
        }
    }

    fn give_starting_input(&mut self, magic: ())
        ensures
            *final(self) == *old(self),
    {
    }

    #[verifier::rlimit(80)]
    fn finish_bytes_for_writing(&mut self, bytes: &[u8])
        ensures
            old(self).inv() ==> final(self).inv(),
            bytes@.len() == 0 ==> *final(self) == *old(self),
            *old(self) is Start ==> (if bytes@.len() == 1 {
                *final(self) == ClientEventDeserer::GotStart(bytes@[0])
            } else {
                *final(self) == *old(self)
            }),
            forall|e: EventToClientView, p: int|
                #[trigger] old(self).following(e, p) && bytes@.len() > 0 && p + bytes@.len()
                    <= spec_ser_client_event(e).len() && bytes@ == spec_ser_client_event(
                    e,
                ).subrange(p, p + bytes@.len()) ==> final(self).following(e, p + bytes@.len()),
    {
        match self {
            ClientEventDeserer::Start => {
                if bytes.len() == 1 {
                    *self = ClientEventDeserer::GotStart(bytes[0]);
                }
                proof {
                    assert forall|e: EventToClientView, p: int|
                        #[trigger] old(self).following(e, p) && bytes@.len() > 0 && p
                            + bytes@.len() <= spec_ser_client_event(e).len() && bytes@
                            == spec_ser_client_event(e).subrange(p, p + bytes@.len()) implies final(self).following(e, p + bytes@.len()) by {
                        assert(bytes@[0] == spec_ser_client_event(e)[0]);
                    }
                }
            },
            ClientEventDeserer::GotStart(_) => {},
            ClientEventDeserer::DeseringTextUuid(um) => {
                um.finish_bytes_for_writing(bytes);
                proof {
                    assert forall|e: EventToClientView, p: int|
                        #[trigger] old(self).following(e, p) && bytes@.len() > 0 && p
                            + bytes@.len() <= spec_ser_client_event(e).len() && bytes@
                            == spec_ser_client_event(e).subrange(p, p + bytes@.len()) implies final(self).following(e, p + bytes@.len()) by {
                        let uv = e->TxtSent_0;
                        old(self)->DeseringTextUuid_0.lemma_following_wants(uv, p - 1);
                        assert(spec_ser_client_event(e).subrange(p, p + bytes@.len())
                            =~= uv.subrange(p - 1, p - 1 + bytes@.len()));
                    }
                }
            },
            ClientEventDeserer::DeseringTextAfterUuid(_uuid, sm) => {
                sm.finish_bytes_for_writing(bytes);
                proof {
                    assert forall|e: EventToClientView, p: int|
                        #[trigger] old(self).following(e, p) && bytes@.len() > 0 && p
                            + bytes@.len() <= spec_ser_client_event(e).len() && bytes@
                            == spec_ser_client_event(e).subrange(p, p + bytes@.len()) implies final(self).following(e, p + bytes@.len()) by {
                        let uv = e->TxtSent_0;
                        let content = e->TxtSent_1;
                        old(self)->DeseringTextAfterUuid_1.lemma_following_wants(content, p - 17);
                        assert(spec_ser_client_event(e).subrange(p, p + bytes@.len())
                            =~= spec_ser_string(content).subrange(p - 17, p - 17 + bytes@.len()));
                    }
                }
            },
            ClientEventDeserer::DeseringIntro(um) => {
                um.finish_bytes_for_writing(bytes);
                proof {
                    assert forall|e: EventToClientView, p: int|
                        #[trigger] old(self).following(e, p) && bytes@.len() > 0 && p
                            + bytes@.len() <= spec_ser_client_event(e).len() && bytes@
                            == spec_ser_client_event(e).subrange(p, p + bytes@.len()) implies final(self).following(e, p + bytes@.len()) by {
                        let uv = e->Introduced_0;
                        old(self)->DeseringIntro_0.lemma_following_wants(uv, p - 1);
                        assert(spec_ser_client_event(e).subrange(p, p + bytes@.len())
                            =~= uv.subrange(p - 1, p - 1 + bytes@.len()));
                    }
                }
            },
            ClientEventDeserer::DeseringAdminMsg(sm) => {
                sm.finish_bytes_for_writing(bytes);
                proof {
                    assert forall|e: EventToClientView, p: int|
                        #[trigger] old(self).following(e, p) && bytes@.len() > 0 && p
                            + bytes@.len() <= spec_ser_client_event(e).len() && bytes@
                            == spec_ser_client_event(e).subrange(p, p + bytes@.len()) implies final(self).following(e, p + bytes@.len()) by {
                        let content = e->AdminMsg_0;
                        old(self)->DeseringAdminMsg_0.lemma_following_wants(content, p - 1);
                        assert(spec_ser_client_event(e).subrange(p, p + bytes@.len())
                            =~= spec_ser_string(content).subrange(p - 1, p - 1 + bytes@.len()));
                    }
                }
            },
            ClientEventDeserer::DeseringPot(pm) => {
                pm.finish_bytes_for_writing(bytes);
                proof {
                    assert forall|e: EventToClientView, p: int|
                        #[trigger] old(self).following(e, p) && bytes@.len() > 0 && p
                            + bytes@.len() <= spec_ser_client_event(e).len() && bytes@
                            == spec_ser_client_event(e).subrange(p, p + bytes@.len()) implies final(self).following(e, p + bytes@.len()) by {
                        let pv = e->Pot_0;
                        old(self)->DeseringPot_0.lemma_following_wants(pv, p - 1);
                        assert(spec_ser_client_event(e).subrange(p, p + bytes@.len())
                            =~= spec_ser_pot(pv).subrange(p - 1, p - 1 + bytes@.len()));
                    }
                }
            },
            ClientEventDeserer::DeseringAllPlayers(mm) => {
                mm.finish_bytes_for_writing(bytes);
                proof {
                    assert forall|e: EventToClientView, p: int|
                        #[trigger] old(self).following(e, p) && bytes@.len() > 0 && p
                            + bytes@.len() <= spec_ser_client_event(e).len() && bytes@
                            == spec_ser_client_event(e).subrange(p, p + bytes@.len()) implies final(self).following(e, p + bytes@.len()) by {
                        let es = e->AllPlayers_0;
                        old(self)->DeseringAllPlayers_0.lemma_following_wants(es, p - 1);
                        assert(spec_ser_client_event(e).subrange(p, p + bytes@.len())
                            =~= spec_ser_player_map(es).subrange(p - 1, p - 1 + bytes@.len()));
                    }
                }
            },
            ClientEventDeserer::DeseringPlayerUuid(um) => {
                um.finish_bytes_for_writing(bytes);
                proof {
                    assert forall|e: EventToClientView, p: int|
                        #[trigger] old(self).following(e, p) && bytes@.len() > 0 && p
                            + bytes@.len() <= spec_ser_client_event(e).len() && bytes@
                            == spec_ser_client_event(e).subrange(p, p + bytes@.len()) implies final(self).following(e, p + bytes@.len()) by {
                        let uv = e->SpecificPlayer_0;
                        old(self)->DeseringPlayerUuid_0.lemma_following_wants(uv, p - 1);
                        assert(spec_ser_client_event(e).subrange(p, p + bytes@.len())
                            =~= uv.subrange(p - 1, p - 1 + bytes@.len()));
                    }
                }
            },
            ClientEventDeserer::DeseringPlayerAfterUuid(_uuid, pm) => {
                pm.finish_bytes_for_writing(bytes);
                proof {
                    assert forall|e: EventToClientView, p: int|
                        #[trigger] old(self).following(e, p) && bytes@.len() > 0 && p
                            + bytes@.len() <= spec_ser_client_event(e).len() && bytes@
                            == spec_ser_client_event(e).subrange(p, p + bytes@.len()) implies final(self).following(e, p + bytes@.len()) by {
                        let uv = e->SpecificPlayer_0;
                        let pv = e->SpecificPlayer_1;
                        old(self)->DeseringPlayerAfterUuid_1.lemma_following_wants(pv, p - 17);
                        assert(spec_ser_client_event(e).subrange(p, p + bytes@.len())
                            =~= spec_ser_player(pv).subrange(p - 17, p - 17 + bytes@.len()));
                    }
                }
            },
        }
    }

    #[verifier::rlimit(100)]
    fn process(self) -> (r: Result<FsmResult<Self, EventToClient>, EventReadError>)
        ensures
            self.inv() ==> (r matches Ok(FsmResult::Continue(m2)) ==> m2.inv() && (
            self.spec_wants() is ProcessMe ==> m2.rank() < self.rank())),
            r matches Ok(FsmResult::Continue(m2)) ==> ((m2 is Start) == (self is Start)),
            self matches ClientEventDeserer::GotStart(t) ==> (if spec_valid_client_tag(t) {
                r matches Ok(_)
            } else {
                r == Err::<FsmResult<Self, EventToClient>, EventReadError>(
                    EventReadError::InvalidKind(t),
                )
            }),
            r matches Err(e) ==> match self {
                ClientEventDeserer::Start => false,
                ClientEventDeserer::GotStart(t) => e == EventReadError::InvalidKind(t),
                ClientEventDeserer::DeseringTextUuid(_) => false,
                ClientEventDeserer::DeseringTextAfterUuid(..) => e
                    matches EventReadError::StringRead(_),
                ClientEventDeserer::DeseringIntro(_) => false,
                ClientEventDeserer::DeseringAdminMsg(_) => e matches EventReadError::StringRead(
                    _,
                ),
                ClientEventDeserer::DeseringPot(_) => e matches EventReadError::Pot(_),
                ClientEventDeserer::DeseringAllPlayers(_) => e
                    matches EventReadError::ListOfPlayers(_),
                ClientEventDeserer::DeseringPlayerUuid(_) => false,
                ClientEventDeserer::DeseringPlayerAfterUuid(..) => e
                    matches EventReadError::Player(_),
            },
            forall|e: EventToClientView, p: int|
                #[trigger] self.following(e, p) && self.spec_wants() is ProcessMe ==> match r {
                    Ok(FsmResult::Continue(m2)) => m2.following(e, p) && m2.rank() < self.rank(),
                    Ok(FsmResult::Done(v)) => p == spec_ser_client_event(e).len() && v@ == e,
                    Err(_) => false,
                },
    {
        let ghost orig = self;
        match self {
            ClientEventDeserer::Start => Ok(FsmResult::Continue(ClientEventDeserer::Start)),
            ClientEventDeserer::GotStart(n) => {
                proof {
                    assert forall|e: EventToClientView, p: int|
                        #[trigger] orig.following(e, p) implies spec_ser_client_event(e)[0] == n
                        && p == 1 by {
                        lemma_client_event_len(e);
                    }
                }
                if n == TEXT_MESSAGE {
                    let m2 = ClientEventDeserer::DeseringTextUuid(UuidDeserialiser::new());
                    proof {
                        assert(m2.inv());
                        assert(m2.rank() < orig.rank());
                        assert forall|e: EventToClientView, p: int|
                            #[trigger] orig.following(e, p) && orig.spec_wants()
                                is ProcessMe implies m2.following(e, p) && m2.rank()
                            < orig.rank() by {
                            lemma_client_event_len(e);
                            let uv = e->TxtSent_0;
                            assert(m2->DeseringTextUuid_0.content@ =~= uv.subrange(0, 0));
                        }
                    }
                    Ok(FsmResult::Continue(m2))
                } else if n == INTRODUCTION {
                    let m2 = ClientEventDeserer::DeseringIntro(UuidDeserialiser::new());
                    proof {
                        assert(m2.inv());
                        assert(m2.rank() < orig.rank());
                        assert forall|e: EventToClientView, p: int|
                            #[trigger] orig.following(e, p) && orig.spec_wants()
                                is ProcessMe implies m2.following(e, p) && m2.rank()
                            < orig.rank() by {
                            lemma_client_event_len(e);
                            let uv = e->Introduced_0;
                            assert(m2->DeseringIntro_0.content@ =~= uv.subrange(0, 0));
                        }
                    }
                    Ok(FsmResult::Continue(m2))
                } else if n == ADMIN_MSG {
                    let m2 = ClientEventDeserer::DeseringAdminMsg(StringDeserialiser::new());
                    proof {
                        assert(m2.inv());
                        assert(m2.rank() < orig.rank());
                        assert forall|e: EventToClientView, p: int|
                            #[trigger] orig.following(e, p) && orig.spec_wants()
                                is ProcessMe implies m2.following(e, p) && m2.rank()
                            < orig.rank() by {
                            lemma_client_event_len(e);
                            let content = e->AdminMsg_0;
                            crate::ser_glue::string::lemma_string_len_prefix(content);
                        }
                    }
                    Ok(FsmResult::Continue(m2))
                } else if n == GET_POT {
                    let m2 = ClientEventDeserer::DeseringPot(PotDeserialiser::new());
                    proof {
                        assert(m2.inv());
                        assert(m2.rank() < orig.rank());
                        assert forall|e: EventToClientView, p: int|
                            #[trigger] orig.following(e, p) && orig.spec_wants()
                                is ProcessMe implies m2.following(e, p) && m2.rank()
                            < orig.rank() by {
                            lemma_client_event_len(e);
                            let pv = e->Pot_0;
                            crate::game_types::player::lemma_balance_prefix(pv.current_value);
                            crate::integer::lemma_le_bytes_props(pv.current_value as nat);
                        }
                    }
                    Ok(FsmResult::Continue(m2))
                } else if n == GET_ALL_PLAYERS {
                    let m2 = ClientEventDeserer::DeseringAllPlayers(BasicMapDeserialiser::new());
                    proof {
                        assert(m2.inv());
                        assert(m2.rank() < orig.rank());
                        assert forall|e: EventToClientView, p: int|
                            #[trigger] orig.following(e, p) && orig.spec_wants()
                                is ProcessMe implies m2.following(e, p) && m2.rank()
                            < orig.rank() by {
                            lemma_client_event_len(e);
                            let es = e->AllPlayers_0;
                            crate::ser_glue::list::lemma_len_prefix_canon(es.len());
                            crate::integer::lemma_le_bytes_props(es.len());
                        }
                    }
                    Ok(FsmResult::Continue(m2))
                } else if n == GET_SPECIFIC_PLAYER {
                    let m2 = ClientEventDeserer::DeseringPlayerUuid(UuidDeserialiser::new());
                    proof {
                        assert(m2.inv());
                        assert(m2.rank() < orig.rank());
                        assert forall|e: EventToClientView, p: int|
                            #[trigger] orig.following(e, p) && orig.spec_wants()
                                is ProcessMe implies m2.following(e, p) && m2.rank()
                            < orig.rank() by {
                            lemma_client_event_len(e);
                            let uv = e->SpecificPlayer_0;
                            assert(m2->DeseringPlayerUuid_0.content@ =~= uv.subrange(0, 0));
                        }
                    }
                    Ok(FsmResult::Continue(m2))
                } else {
                    proof {
                        assert forall|e: EventToClientView, p: int|
                            #[trigger] orig.following(e, p) && orig.spec_wants()
                                is ProcessMe implies false by {
                            lemma_client_event_len(e);
                        }
                    }
                    Err(EventReadError::InvalidKind(n))
                }
            },
            ClientEventDeserer::DeseringTextUuid(um) => {
                let ghost old_sub = um;
                match um.process() {
                    Err(_) => Err(EventReadError::Integer(IntegerReadError::NotEnoughBytes)),
                    Ok(FsmResult::Continue(um2)) => {
                        let m2 = ClientEventDeserer::DeseringTextUuid(um2);
                        proof {
                            assert forall|ev: EventToClientView, p: int|
                                #[trigger] orig.following(ev, p) && orig.spec_wants()
                                    is ProcessMe implies m2.following(ev, p) && m2.rank()
                                < orig.rank() by {
                                assert(old_sub.following(ev->TxtSent_0, p - 1));
                            }
                        }
                        Ok(FsmResult::Continue(m2))
                    },
                    Ok(FsmResult::Done(uuid)) => {
                        let m2 = ClientEventDeserer::DeseringTextAfterUuid(
                            uuid,
                            StringDeserialiser::new(),
                        );
                        proof {
                            assert forall|ev: EventToClientView, p: int|
                                #[trigger] orig.following(ev, p) && orig.spec_wants()
                                    is ProcessMe implies m2.following(ev, p) && m2.rank()
                                < orig.rank() by {
                                assert(old_sub.following(ev->TxtSent_0, p - 1));
                                crate::ser_glue::string::lemma_string_len_prefix(ev->TxtSent_1);
                            }
                        }
                        Ok(FsmResult::Continue(m2))
                    },
                }
            },
            ClientEventDeserer::DeseringTextAfterUuid(uuid, sm) => {
                let ghost old_sub = sm;
                match sm.process() {
                    Err(e) => {
                        proof {
                            assert forall|ev: EventToClientView, p: int|
                                #[trigger] orig.following(ev, p) && orig.spec_wants()
                                    is ProcessMe implies false by {
                                assert(old_sub.following(ev->TxtSent_1, p - 17));
                            }
                        }
                        Err(EventReadError::StringRead(e))
                    },
                    Ok(FsmResult::Continue(sm2)) => {
                        let m2 = ClientEventDeserer::DeseringTextAfterUuid(uuid, sm2);
                        proof {
                            assert forall|ev: EventToClientView, p: int|
                                #[trigger] orig.following(ev, p) && orig.spec_wants()
                                    is ProcessMe implies m2.following(ev, p) && m2.rank()
                                < orig.rank() by {
                                assert(old_sub.following(ev->TxtSent_1, p - 17));
                            }
                        }
                        Ok(FsmResult::Continue(m2))
                    },
                    Ok(FsmResult::Done(content)) => {
                        let out = EventToClient::TxtSent(uuid, content);
                        proof {
                            assert forall|ev: EventToClientView, p: int|
                                #[trigger] orig.following(ev, p) && orig.spec_wants()
                                    is ProcessMe implies p == spec_ser_client_event(ev).len()
                                && out@ == ev by {
                                assert(old_sub.following(ev->TxtSent_1, p - 17));
                            }
                        }
                        Ok(FsmResult::Done(out))
                    },
                }
            },
            ClientEventDeserer::DeseringIntro(um) => {
                let ghost old_sub = um;
                match um.process() {
                    Err(_) => Err(EventReadError::Integer(IntegerReadError::NotEnoughBytes)),
                    Ok(FsmResult::Continue(um2)) => {
                        let m2 = ClientEventDeserer::DeseringIntro(um2);
                        proof {
                            assert forall|ev: EventToClientView, p: int|
                                #[trigger] orig.following(ev, p) && orig.spec_wants()
                                    is ProcessMe implies m2.following(ev, p) && m2.rank()
                                < orig.rank() by {
                                assert(old_sub.following(ev->Introduced_0, p - 1));
                            }
                        }
                        Ok(FsmResult::Continue(m2))
                    },
                    Ok(FsmResult::Done(uuid)) => {
                        let out = EventToClient::Introduced(uuid);
                        proof {
                            assert forall|ev: EventToClientView, p: int|
                                #[trigger] orig.following(ev, p) && orig.spec_wants()
                                    is ProcessMe implies p == spec_ser_client_event(ev).len()
                                && out@ == ev by {
                                assert(old_sub.following(ev->Introduced_0, p - 1));
                            }
                        }
                        Ok(FsmResult::Done(out))
                    },
                }
            },
            ClientEventDeserer::DeseringAdminMsg(sm) => {
                let ghost old_sub = sm;
                match sm.process() {
                    Err(e) => {
                        proof {
                            assert forall|ev: EventToClientView, p: int|
                                #[trigger] orig.following(ev, p) && orig.spec_wants()
                                    is ProcessMe implies false by {
                                assert(old_sub.following(ev->AdminMsg_0, p - 1));
                            }
                        }
                        Err(EventReadError::StringRead(e))
                    },
                    Ok(FsmResult::Continue(sm2)) => {
                        let m2 = ClientEventDeserer::DeseringAdminMsg(sm2);
                        proof {
                            assert forall|ev: EventToClientView, p: int|
                                #[trigger] orig.following(ev, p) && orig.spec_wants()
                                    is ProcessMe implies m2.following(ev, p) && m2.rank()
                                < orig.rank() by {
                                assert(old_sub.following(ev->AdminMsg_0, p - 1));
                            }
                        }
                        Ok(FsmResult::Continue(m2))
                    },
                    Ok(FsmResult::Done(content)) => {
                        let out = EventToClient::AdminMsg(content);
                        proof {
                            assert forall|ev: EventToClientView, p: int|
                                #[trigger] orig.following(ev, p) && orig.spec_wants()
                                    is ProcessMe implies p == spec_ser_client_event(ev).len()
                                && out@ == ev by {
                                assert(old_sub.following(ev->AdminMsg_0, p - 1));
                            }
                        }
                        Ok(FsmResult::Done(out))
                    },
                }
            },
            ClientEventDeserer::DeseringPot(pm) => {
                let ghost old_sub = pm;
                match pm.process() {
                    Err(e) => {
                        proof {
                            assert forall|ev: EventToClientView, p: int|
                                #[trigger] orig.following(ev, p) && orig.spec_wants()
                                    is ProcessMe implies false by {
                                assert(old_sub.following(ev->Pot_0, p - 1));
                            }
                        }
                        Err(EventReadError::Pot(e))
                    },
                    Ok(FsmResult::Continue(pm2)) => {
                        let m2 = ClientEventDeserer::DeseringPot(pm2);
                        proof {
                            assert forall|ev: EventToClientView, p: int|
                                #[trigger] orig.following(ev, p) && orig.spec_wants()
                                    is ProcessMe implies m2.following(ev, p) && m2.rank()
                                < orig.rank() by {
                                assert(old_sub.following(ev->Pot_0, p - 1));
                            }
                        }
                        Ok(FsmResult::Continue(m2))
                    },
                    Ok(FsmResult::Done(pot)) => {
                        let out = EventToClient::Pot(pot);
                        proof {
                            assert forall|ev: EventToClientView, p: int|
                                #[trigger] orig.following(ev, p) && orig.spec_wants()
                                    is ProcessMe implies p == spec_ser_client_event(ev).len()
                                && out@ == ev by {
                                assert(old_sub.following(ev->Pot_0, p - 1));
                            }
                        }
                        Ok(FsmResult::Done(out))
                    },
                }
            },
            ClientEventDeserer::DeseringAllPlayers(mm) => {
                let ghost old_sub = mm;
                match mm.process() {
                    Err(e) => {
                        proof {
                            assert forall|ev: EventToClientView, p: int|
                                #[trigger] orig.following(ev, p) && orig.spec_wants()
                                    is ProcessMe implies false by {
                                assert(old_sub.following(ev->AllPlayers_0, p - 1));
                            }
                        }
                        Err(EventReadError::ListOfPlayers(e))
                    },
                    Ok(FsmResult::Continue(mm2)) => {
                        let m2 = ClientEventDeserer::DeseringAllPlayers(mm2);
                        proof {
                            assert forall|ev: EventToClientView, p: int|
                                #[trigger] orig.following(ev, p) && orig.spec_wants()
                                    is ProcessMe implies m2.following(ev, p) && m2.rank()
                                < orig.rank() by {
                                assert(old_sub.following(ev->AllPlayers_0, p - 1));
                            }
                        }
                        Ok(FsmResult::Continue(m2))
                    },
                    Ok(FsmResult::Done(players)) => {
                        let out = EventToClient::AllPlayers(players);
                        proof {
                            assert forall|ev: EventToClientView, p: int|
                                #[trigger] orig.following(ev, p) && orig.spec_wants()
                                    is ProcessMe implies p == spec_ser_client_event(ev).len()
                                && out@ == ev by {
                                assert(old_sub.following(ev->AllPlayers_0, p - 1));
                            }
                        }
                        Ok(FsmResult::Done(out))
                    },
                }
            },
            ClientEventDeserer::DeseringPlayerUuid(um) => {
                let ghost old_sub = um;
                match um.process() {
                    Err(_) => Err(EventReadError::Integer(IntegerReadError::NotEnoughBytes)),
                    Ok(FsmResult::Continue(um2)) => {
                        let m2 = ClientEventDeserer::DeseringPlayerUuid(um2);
                        proof {
                            assert forall|ev: EventToClientView, p: int|
                                #[trigger] orig.following(ev, p) && orig.spec_wants()
                                    is ProcessMe implies m2.following(ev, p) && m2.rank()
                                < orig.rank() by {
                                assert(old_sub.following(ev->SpecificPlayer_0, p - 1));
                            }
                        }
                        Ok(FsmResult::Continue(m2))
                    },
                    Ok(FsmResult::Done(uuid)) => {
                        let m2 = ClientEventDeserer::DeseringPlayerAfterUuid(
                            uuid,
                            PlayerDeserialiser::new(),
                        );
                        proof {
                            assert forall|ev: EventToClientView, p: int|
                                #[trigger] orig.following(ev, p) && orig.spec_wants()
                                    is ProcessMe implies m2.following(ev, p) && m2.rank()
                                < orig.rank() by {
                                assert(old_sub.following(ev->SpecificPlayer_0, p - 1));
                                crate::ser_glue::string::lemma_string_len_prefix(
                                    ev->SpecificPlayer_1.name,
                                );
                            }
                        }
                        Ok(FsmResult::Continue(m2))
                    },
                }
            },
            ClientEventDeserer::DeseringPlayerAfterUuid(uuid, pm) => {
                let ghost old_sub = pm;
                match pm.process() {
                    Err(e) => {
                        proof {
                            assert forall|ev: EventToClientView, p: int|
                                #[trigger] orig.following(ev, p) && orig.spec_wants()
                                    is ProcessMe implies false by {
                                assert(old_sub.following(ev->SpecificPlayer_1, p - 17));
                            }
                        }
                        Err(EventReadError::Player(e))
                    },
                    Ok(FsmResult::Continue(pm2)) => {
                        let m2 = ClientEventDeserer::DeseringPlayerAfterUuid(uuid, pm2);
                        proof {
                            assert forall|ev: EventToClientView, p: int|
                                #[trigger] orig.following(ev, p) && orig.spec_wants()
                                    is ProcessMe implies m2.following(ev, p) && m2.rank()
                                < orig.rank() by {
                                assert(old_sub.following(ev->SpecificPlayer_1, p - 17));
                            }
                        }
                        Ok(FsmResult::Continue(m2))
                    },
                    Ok(FsmResult::Done(player)) => {
                        let out = EventToClient::SpecificPlayer(uuid, player);
                        proof {
                            assert forall|ev: EventToClientView, p: int|
                                #[trigger] orig.following(ev, p) && orig.spec_wants()
                                    is ProcessMe implies p == spec_ser_client_event(ev).len()
                                && out@ == ev by {
                                assert(old_sub.following(ev->SpecificPlayer_1, p - 17));
                            }
                        }
                        Ok(FsmResult::Done(out))
                    },
                }
            },
        }
    }
}

/// The driver's bookkeeping while decoding a stream that encodes `vs`:
/// every finished frame matches, and the machine is part-way through the
/// current frame.
pub open spec fn client_driver_inv(
    bytes: Seq<u8>,
    found: Seq<EventToClient>,
    machine: ClientEventDeserer,
    pos: int,
    vs: Seq<EventToClientView>,
) -> bool {
    &&& found.len() <= vs.len()
    &&& found.map_values(|ev: EventToClient| ev@) == vs.take(found.len() as int)
    &&& if found.len() < vs.len() {
        let done = spec_ser_client_stream(vs.take(found.len() as int)).len();
        &&& done <= pos <= bytes.len()
        &&& machine.following(vs[found.len() as int], pos - done)
    } else {
        &&& machine is Start
        &&& pos == bytes.len()
    }
}

/// Runs a fresh frame machine over an in-memory byte string, collecting
/// finished messages until the bytes run out at a frame boundary.
///
/// The contract is the round-trip law for this direction of the protocol: a
/// byte string that is exactly the concatenated encodings of any messages
/// decodes to exactly those messages, in order.
#[verifier::rlimit(100)]
pub fn deser_from_vec(bytes: &[u8]) -> (r: Result<Vec<EventToClient>, EventReadError>)
    ensures
        bytes@.len() > 0 && !spec_valid_client_tag(bytes@[0]) ==> r == Err::<Vec<EventToClient>, EventReadError>(
            EventReadError::InvalidKind(bytes@[0]),
        ),
        forall|vs: Seq<EventToClientView>|
            client_stream_fits(vs) && bytes@ == #[trigger] spec_ser_client_stream(vs) ==> (
            r matches Ok(out) && out@.map_values(|ev: EventToClient| ev@) == vs),
{
    let mut found: Vec<EventToClient> = Vec::new();
    let mut machine = ClientEventDeserer::new();
    let mut pos: usize = 0;
    proof {
        assert forall|vs: Seq<EventToClientView>|
            client_stream_fits(vs) && bytes@ == #[trigger] spec_ser_client_stream(
                vs,
            ) implies client_driver_inv(bytes@, found@, machine, pos as int, vs) by {
            assert(found@.map_values(|ev: EventToClient| ev@) =~= vs.take(0));
            assert(vs.take(0) =~= Seq::<EventToClientView>::empty());
            if vs.len() == 0 {
                assert(spec_ser_client_stream(vs).len() == 0);
            } else {
                assert(spec_ser_client_stream(vs.take(0)).len() == 0);
            }
        }
    }
    loop
        invariant
            pos <= bytes@.len(),
            machine.inv(),
            bytes@.len() > 0 && !spec_valid_client_tag(bytes@[0]) ==> ((pos == 0 && machine is Start) || (pos
                == 1 && machine == ClientEventDeserer::GotStart(bytes@[0]))),
            forall|vs: Seq<EventToClientView>|
                client_stream_fits(vs) && bytes@ == #[trigger] spec_ser_client_stream(vs)
                    ==> client_driver_inv(bytes@, found@, machine, pos as int, vs),
        ensures
            pos == bytes@.len(),
            machine is Start,
        decreases bytes@.len() - pos, machine.rank(),
    {
        if pos == bytes.len() && matches!(machine, ClientEventDeserer::Start) {
            break ;
        }
        let want = machine.wants_read();
        match want {
            DesiredInput::Byte | DesiredInput::Bytes(_) => {
                let cap: usize = match want {
                    DesiredInput::Byte => 1,
                    DesiredInput::Bytes(c) => c,
                    _ => 0,
                };
                proof {
                    assert(machine.byte_capacity() == cap);
                }
                if pos == bytes.len() || cap == 0 {
                    proof {
                        assert forall|vs: Seq<EventToClientView>|
                            client_stream_fits(vs) && bytes@ == #[trigger] spec_ser_client_stream(
                                vs,
                            ) implies false by {
                            let i = found@.len() as int;
                            if i < vs.len() {
                                let done = spec_ser_client_stream(vs.take(i)).len() as int;
                                machine.lemma_following_wants(vs[i], pos - done);
                                lemma_client_stream_frame(vs, i);
                            } else {
                                assert(machine is Start && pos == bytes@.len());
                            }
                        }
                    }
                    return Err(EventReadError::Integer(IntegerReadError::NotEnoughBytes));
                }
                let avail = bytes.len() - pos;
                let k = if cap < avail {
                    cap
                } else {
                    avail
                };
                let chunk: &[u8] = &bytes[pos..pos + k];
                let ghost old_machine = machine;
                proof {
                    assert(chunk@ == bytes@.subrange(pos as int, pos + k));
                }
                machine.finish_bytes_for_writing(chunk);
                proof {
                    assert forall|vs: Seq<EventToClientView>|
                        client_stream_fits(vs) && bytes@ == #[trigger] spec_ser_client_stream(
                            vs,
                        ) implies client_driver_inv(
                        bytes@,
                        found@,
                        machine,
                        pos + k,
                        vs,
                    ) by {
                        let i = found@.len() as int;
                        if i < vs.len() {
                            let done = spec_ser_client_stream(vs.take(i)).len() as int;
                            let target = vs[i];
                            let enc = spec_ser_client_event(target);
                            let p = pos - done;
                            old_machine.lemma_following_wants(target, p);
                            lemma_client_stream_frame(vs, i);
                            assert(bytes@ == spec_ser_client_stream(vs.take(i)) + enc
                                + spec_ser_client_stream(vs.skip(i + 1)));
                            assert(k <= enc.len() - p);
                            assert(chunk@ =~= enc.subrange(p, p + k));
                            assert(old_machine.following(target, p) && chunk@.len() > 0 && p
                                + chunk@.len() <= enc.len() && chunk@ == enc.subrange(
                                p,
                                p + chunk@.len(),
                            ));
                            assert(machine.following(target, p + k));
                        } else {
                            assert(old_machine is Start && pos == bytes@.len());
                        }
                    }
                }
                pos = pos + k;
            },
            DesiredInput::ProcessMe => {
                let ghost old_machine = machine;
                match machine.process() {
                    Err(e) => {
                        proof {
                            assert forall|vs: Seq<EventToClientView>|
                                client_stream_fits(vs) && bytes@
                                    == #[trigger] spec_ser_client_stream(vs) implies false by {
                                let i = found@.len() as int;
                                if i < vs.len() {
                                    let done = spec_ser_client_stream(vs.take(i)).len() as int;
                                    assert(old_machine.following(vs[i], pos - done));
                                } else {
                                    assert(old_machine is Start);
                                }
                            }
                        }
                        return Err(e);
                    },
                    Ok(FsmResult::Continue(m2)) => {
                        machine = m2;
                        proof {
                            assert forall|vs: Seq<EventToClientView>|
                                client_stream_fits(vs) && bytes@
                                    == #[trigger] spec_ser_client_stream(
                                    vs,
                                ) implies client_driver_inv(
                                bytes@,
                                found@,
                                machine,
                                pos as int,
                                vs,
                            ) by {
                                let i = found@.len() as int;
                                if i < vs.len() {
                                    let done = spec_ser_client_stream(vs.take(i)).len() as int;
                                    assert(old_machine.following(vs[i], pos - done));
                                } else {
                                    assert(old_machine is Start);
                                }
                            }
                        }
                    },
                    Ok(FsmResult::Done(evt)) => {
                        let ghost old_found = found@;
                        found.push(evt);
                        machine = ClientEventDeserer::new();
                        proof {
                            assert forall|vs: Seq<EventToClientView>|
                                client_stream_fits(vs) && bytes@
                                    == #[trigger] spec_ser_client_stream(
                                    vs,
                                ) implies client_driver_inv(
                                bytes@,
                                found@,
                                machine,
                                pos as int,
                                vs,
                            ) by {
                                let i = old_found.len() as int;
                                if i < vs.len() {
                                    let done = spec_ser_client_stream(vs.take(i)).len() as int;
                                    let target = vs[i];
                                    let enc = spec_ser_client_event(target);
                                    assert(old_machine.following(target, pos - done));
                                    assert(pos - done == enc.len() && evt@ == target);
                                    lemma_client_stream_frame(vs, i);
                                    assert(found@.map_values(|ev: EventToClient| ev@)
                                        =~= old_found.map_values(|ev: EventToClient| ev@).push(
                                        evt@,
                                    ));
                                    assert(vs.take(i + 1) =~= vs.take(i).push(vs[i]));
                                    assert(found@.map_values(|ev: EventToClient| ev@) =~= vs.take(
                                        i + 1,
                                    ));
                                    if i + 1 < vs.len() {
                                        assert(spec_ser_client_stream(vs.take(i + 1)).len()
                                            == pos);
                                    } else {
                                        lemma_client_stream_split(vs, i + 1);
                                        assert(vs.skip(i + 1) =~= Seq::<
                                            EventToClientView,
                                        >::empty());
                                        assert(spec_ser_client_stream(vs.skip(i + 1)).len() == 0);
                                        assert(pos == bytes@.len());
                                    }
                                } else {
                                    assert(old_machine is Start);
                                }
                            }
                            assert(old_machine.rank() >= 1);
                        }
                    },
                }
            },
            DesiredInput::Extra => {
                proof {
                    assert(!(machine.spec_wants() is Extra));
                }
                return Err(EventReadError::Integer(IntegerReadError::NotEnoughBytes));
            },
        }
    }
    proof {
        assert forall|vs: Seq<EventToClientView>|
            client_stream_fits(vs) && bytes@ == #[trigger] spec_ser_client_stream(
                vs,
            ) implies found@.map_values(|ev: EventToClient| ev@) == vs by {
            let i = found@.len() as int;
            if i < vs.len() {
                let done = spec_ser_client_stream(vs.take(i)).len() as int;
                machine.lemma_following_wants(vs[i], pos - done);
                lemma_client_stream_frame(vs, i);
                lemma_client_event_len(vs[i]);
                assert(pos - done == 0);
                assert(bytes@.len() >= done + 1);
                assert(false);
            } else {
                assert(vs.take(vs.len() as int) =~= vs);
            }
        }
    }
    Ok(found)
}

} // verus!
