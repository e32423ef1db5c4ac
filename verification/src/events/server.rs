//! The client-to-server messages and their frame codec.

use vstd::prelude::*;

use crate::events::{
    EventReadError, ADD_TO_POT, GET_ALL_PLAYERS, GET_SPECIFIC_PLAYER, INTRODUCTION, TEXT_MESSAGE,
};
use crate::integer::{
    le_bytes, lemma_le_bytes_props, lemma_spec_dec_content, spec_ser_int, spec_vli_unsigned,
    Integer, IntegerDeserialiser, IntegerReadError, SignedState,
};
use crate::ser_glue::string::{spec_ser_string, string_len_fits, StringDeserialiser};
use crate::ser_glue::uuid::{Uuid, UuidDeserialiser};
use crate::ser_glue::{Deserable, DeserMachine, DesiredInput, FsmResult, Serable};

verus! {

/// A message from a client to the server.
#[derive(Debug, Hash)]
pub enum EventToServer {
    /// Say something at the table.
    SendMessage { content: String },
    /// The first message of a connection: the player's name.
    Introduction { name: String },
    /// Ask for the full table state.
    GetStartInformation,
    /// Ask for one player's data.
    GetSpecificPlayer(Uuid),
    /// Pledge chips into the pot.
    AddToPot(u32),
}

/// The mathematical shape of a client-to-server message.
pub enum EventToServerView {
    SendMessage { content: Seq<char> },
    Introduction { name: Seq<char> },
    GetStartInformation,
    GetSpecificPlayer(Seq<u8>),
    AddToPot(u32),
}

impl View for EventToServer {
    type V = EventToServerView;

    open spec fn view(&self) -> EventToServerView {
        match self {
            EventToServer::SendMessage { content } => EventToServerView::SendMessage {
                content: content@,
            },
            EventToServer::Introduction { name } => EventToServerView::Introduction {
                name: name@,
            },
            EventToServer::GetStartInformation => EventToServerView::GetStartInformation,
            EventToServer::GetSpecificPlayer(uuid) => EventToServerView::GetSpecificPlayer(uuid@),
            EventToServer::AddToPot(n) => EventToServerView::AddToPot(*n),
        }
    }
}

/// A message view that some in-memory message could hold.
pub open spec fn server_event_fits(e: EventToServerView) -> bool {
    match e {
        EventToServerView::SendMessage { content } => string_len_fits(content),
        EventToServerView::Introduction { name } => string_len_fits(name),
        EventToServerView::GetStartInformation => true,
        EventToServerView::GetSpecificPlayer(uv) => uv.len() == 16,
        EventToServerView::AddToPot(_) => true,
    }
}

/// The wire form of a client-to-server message: the frame tag, then the
/// variant's payload.
pub open spec fn spec_ser_server_event(e: EventToServerView) -> Seq<u8> {
    match e {
        EventToServerView::SendMessage { content } => seq![TEXT_MESSAGE] + spec_ser_string(
            content,
        ),
        EventToServerView::Introduction { name } => seq![INTRODUCTION] + spec_ser_string(name),
        EventToServerView::GetStartInformation => seq![GET_ALL_PLAYERS],
        EventToServerView::GetSpecificPlayer(uv) => seq![GET_SPECIFIC_PLAYER] + uv,
        EventToServerView::AddToPot(n) => seq![ADD_TO_POT] + spec_vli_unsigned(n as nat),
    }
}

/// Every frame is at least its tag byte.
pub proof fn lemma_server_event_len(e: EventToServerView)
    ensures
        spec_ser_server_event(e).len() >= 1,
        spec_ser_server_event(e)[0] == (match e {
            EventToServerView::SendMessage { .. } => TEXT_MESSAGE,
            EventToServerView::Introduction { .. } => INTRODUCTION,
            EventToServerView::GetStartInformation => GET_ALL_PLAYERS,
            EventToServerView::GetSpecificPlayer(_) => GET_SPECIFIC_PLAYER,
            EventToServerView::AddToPot(_) => ADD_TO_POT,
        }),
{
}

/// The wire form of a whole stream of messages, one frame after another.
pub open spec fn spec_ser_server_stream(vs: Seq<EventToServerView>) -> Seq<u8>
    decreases vs.len(),
{
    if vs.len() == 0 {
        Seq::empty()
    } else {
        spec_ser_server_event(vs[0]) + spec_ser_server_stream(vs.drop_first())
    }
}

/// A stream view that in-memory messages could hold.
pub open spec fn server_stream_fits(vs: Seq<EventToServerView>) -> bool {
    forall|i: int| 0 <= i < vs.len() ==> server_event_fits(#[trigger] vs[i])
}

/// A stream splits at any frame boundary.
pub proof fn lemma_server_stream_split(vs: Seq<EventToServerView>, i: int)
    requires
        0 <= i <= vs.len(),
    ensures
        spec_ser_server_stream(vs) == spec_ser_server_stream(vs.take(i)) + spec_ser_server_stream(
            vs.skip(i),
        ),
    decreases i,
{
    if i == 0 {
        assert(vs.take(0) =~= Seq::<EventToServerView>::empty());
        assert(vs.skip(0) =~= vs);
        assert(spec_ser_server_stream(vs.take(0)) =~= Seq::<u8>::empty());
        assert(Seq::<u8>::empty() + spec_ser_server_stream(vs) =~= spec_ser_server_stream(vs));
    } else {
        lemma_server_stream_split(vs.drop_first(), i - 1);
        assert(vs.take(i).drop_first() =~= vs.drop_first().take(i - 1));
        assert(vs.skip(i) =~= vs.drop_first().skip(i - 1));
        assert(vs.take(i)[0] == vs[0]);
        assert(spec_ser_server_stream(vs.take(i)) == spec_ser_server_event(vs[0])
            + spec_ser_server_stream(vs.drop_first().take(i - 1)));
        assert((spec_ser_server_event(vs[0]) + spec_ser_server_stream(vs.drop_first().take(i - 1)))
            + spec_ser_server_stream(vs.drop_first().skip(i - 1)) =~= spec_ser_server_event(vs[0])
            + (spec_ser_server_stream(vs.drop_first().take(i - 1)) + spec_ser_server_stream(
            vs.drop_first().skip(i - 1),
        )));
    }
}

/// The bytes of one frame sit between the bytes of the frames before and
/// after it.
pub proof fn lemma_server_stream_frame(vs: Seq<EventToServerView>, i: int)
    requires
        0 <= i < vs.len(),
    ensures
        spec_ser_server_stream(vs) == spec_ser_server_stream(vs.take(i)) + spec_ser_server_event(
            vs[i],
        ) + spec_ser_server_stream(vs.skip(i + 1)),
        spec_ser_server_stream(vs.take(i + 1)) == spec_ser_server_stream(vs.take(i))
            + spec_ser_server_event(vs[i]),
{
    lemma_server_stream_split(vs, i);
    assert(vs.skip(i)[0] == vs[i]);
    assert(vs.skip(i).drop_first() =~= vs.skip(i + 1));
    assert(spec_ser_server_stream(vs.skip(i)) == spec_ser_server_event(vs[i])
        + spec_ser_server_stream(vs.skip(i + 1)));
    assert(spec_ser_server_stream(vs.take(i)) + (spec_ser_server_event(vs[i])
        + spec_ser_server_stream(vs.skip(i + 1))) =~= (spec_ser_server_stream(vs.take(i))
        + spec_ser_server_event(vs[i])) + spec_ser_server_stream(vs.skip(i + 1)));
    lemma_server_stream_split(vs, i + 1);
    assert(vs.take(i + 1).take(i) =~= vs.take(i));
    lemma_server_stream_split(vs.take(i + 1), i);
    assert(vs.take(i + 1).skip(i) =~= seq![vs[i]]);
    assert(seq![vs[i]].drop_first() =~= Seq::<EventToServerView>::empty());
    assert(spec_ser_server_stream(seq![vs[i]]) =~= spec_ser_server_event(vs[i]));
}

/// Law: a stream of two frames is exactly the first frame's bytes followed
/// by the second's, so the driver's contract specialises to: decoding
/// `encode(a) ++ encode(b)` yields exactly `[a, b]`.
pub proof fn lemma_two_frame_server_stream(a: EventToServerView, b: EventToServerView)
    ensures
        spec_ser_server_stream(seq![a, b]) == spec_ser_server_event(a) + spec_ser_server_event(b),
{
    let vs = seq![a, b];
    assert(vs.drop_first() =~= seq![b]);
    assert(seq![b].drop_first() =~= Seq::<EventToServerView>::empty());
    assert(seq![b][0] == b);
    assert(spec_ser_server_stream(Seq::<EventToServerView>::empty()) =~= Seq::<u8>::empty());
    assert(spec_ser_server_event(b) + Seq::<u8>::empty() =~= spec_ser_server_event(b));
    assert(spec_ser_server_stream(seq![b]) =~= spec_ser_server_event(b));
    assert(vs[0] == a);
    assert(spec_ser_server_event(a) + (spec_ser_server_event(b) + Seq::<u8>::empty())
        =~= spec_ser_server_event(a) + spec_ser_server_event(b));
}

/// Encoding is deterministic per value: the bytes depend only on the
/// message's mathematical shape. Maps appear nowhere in this direction, so
/// there is no ordering caveat.
pub proof fn lemma_server_ser_deterministic(a: EventToServer, b: EventToServer)
    requires
        a@ == b@,
    ensures
        a.spec_ser() == b.spec_ser(),
{
}

impl Clone for EventToServer {
    /// A clone carries the same message.
    fn clone(&self) -> (r: Self)
        ensures
            r@ == self@,
    {
        match self {
            EventToServer::SendMessage { content } => EventToServer::SendMessage {
                content: content.clone(),
            },
            EventToServer::Introduction { name } => EventToServer::Introduction {
                name: name.clone(),
            },
            EventToServer::GetStartInformation => EventToServer::GetStartInformation,
            EventToServer::GetSpecificPlayer(uuid) => EventToServer::GetSpecificPlayer(
                uuid.clone(),
            ),
            EventToServer::AddToPot(n) => EventToServer::AddToPot(*n),
        }
    }
}

impl PartialEq for EventToServer {
    /// Two messages are equal exactly when their shapes coincide.
    fn eq(&self, other: &EventToServer) -> (r: bool)
        ensures
            r == (self@ == other@),
    {
        match (self, other) {
            (
                EventToServer::SendMessage { content: a },
                EventToServer::SendMessage { content: b },
            ) => {
                let r = *a == *b;
                proof {
                    if r {
                        assert(self@ =~= other@);
                    }
                }
                r
            },
            (
                EventToServer::Introduction { name: a },
                EventToServer::Introduction { name: b },
            ) => {
                let r = *a == *b;
                proof {
                    if r {
                        assert(self@ =~= other@);
                    }
                }
                r
            },
            (EventToServer::GetStartInformation, EventToServer::GetStartInformation) => true,
            (EventToServer::GetSpecificPlayer(a), EventToServer::GetSpecificPlayer(b)) => {
                let r = a == b;
                proof {
                    if r {
                        assert(self@ =~= other@);
                    }
                }
                r
            },
            (EventToServer::AddToPot(a), EventToServer::AddToPot(b)) => {
                let r = a == b;
                proof {
                    if r {
                        assert(self@ =~= other@);
                    }
                }
                r
            },
            _ => false,
        }
    }
}

impl Eq for EventToServer {

}

impl vstd::std_specs::cmp::PartialEqSpecImpl for EventToServer {
    open spec fn obeys_eq_spec() -> bool {
        true
    }

    open spec fn eq_spec(&self, other: &EventToServer) -> bool {
        self@ == other@
    }
}

impl Serable for EventToServer {
    type ExtraOutput = ();

    open spec fn spec_ser(&self) -> Seq<u8> {
        spec_ser_server_event(self@)
    }

    open spec fn spec_extra_ok(&self, extra: ()) -> bool {
        true
    }

    /// Appends the tag byte, then the payload.
    fn ser_into(&self, into: &mut Vec<u8>) -> (r: ()) {
        match self {
            EventToServer::SendMessage { content } => {
                into.push(TEXT_MESSAGE);
                content.ser_into(into);
            },
            EventToServer::Introduction { name } => {
                into.push(INTRODUCTION);
                name.ser_into(into);
            },
            EventToServer::GetStartInformation => {
                into.push(GET_ALL_PLAYERS);
            },
            EventToServer::GetSpecificPlayer(uuid) => {
                into.push(GET_SPECIFIC_PLAYER);
                uuid.ser_into(into);
            },
            EventToServer::AddToPot(n) => {
                into.push(ADD_TO_POT);
                Integer::from_u32(*n).ser_into(into);
                proof {
                    crate::game_types::player::lemma_balance_prefix(*n);
                }
            },
        }
        proof {
            assert(self.spec_ser() == spec_ser_server_event(self@));
            assert(self.spec_extra_ok(()));
            assert(final(into)@ =~= old(into)@ + spec_ser_server_event(self@));
        }
    }
}

/// The frame tags a client-to-server stream may carry.
pub open spec fn spec_valid_server_tag(t: u8) -> bool {
    t == TEXT_MESSAGE || t == INTRODUCTION || t == GET_ALL_PLAYERS || t == GET_SPECIFIC_PLAYER
        || t == ADD_TO_POT
}

/// The pull-driven decoder for one client-to-server frame.
#[derive(Debug)]
pub enum ServerEventDeserer {
    /// Waiting for the tag byte.
    Start,
    /// The tag byte arrived and has not been examined yet.
    GotStart(u8),
    /// Reading a text message's content.
    DeseringTxtMsg(StringDeserialiser),
    /// Reading an introduction's name.
    DeseringIntroduction(StringDeserialiser),
    /// Reading a pledge amount.
    DeseringAddToPot(IntegerDeserialiser),
    /// Reading the identifier of the requested player.
    DeseringGetSpecificPlayer(UuidDeserialiser),
}

impl Deserable for EventToServer {
    type Deserer = ServerEventDeserer;
}

impl ServerEventDeserer {
    /// Structural soundness of a reachable machine state.
    pub open spec fn inv(&self) -> bool {
        match self {
            ServerEventDeserer::Start => true,
            ServerEventDeserer::GotStart(_) => true,
            ServerEventDeserer::DeseringTxtMsg(sm) => sm.inv(),
            ServerEventDeserer::DeseringIntroduction(sm) => sm.inv(),
            ServerEventDeserer::DeseringAddToPot(im) => im.inv() && !(*im is Start),
            ServerEventDeserer::DeseringGetSpecificPlayer(um) => um.inv(),
        }
    }

    /// How many pure processing steps remain before bytes are needed again.
    pub open spec fn rank(&self) -> nat {
        match self {
            ServerEventDeserer::Start => 0,
            ServerEventDeserer::GotStart(_) => 8,
            ServerEventDeserer::DeseringTxtMsg(sm) => sm.rank() + 1,
            ServerEventDeserer::DeseringIntroduction(sm) => sm.rank() + 1,
            ServerEventDeserer::DeseringAddToPot(im) => im.rank() + 1,
            ServerEventDeserer::DeseringGetSpecificPlayer(um) => um.rank() + 1,
        }
    }

    /// What the machine asks of the driver in each state.
    pub open spec fn spec_wants(&self) -> DesiredInput {
        match self {
            ServerEventDeserer::Start => DesiredInput::Byte,
            ServerEventDeserer::GotStart(_) => DesiredInput::ProcessMe,
            ServerEventDeserer::DeseringTxtMsg(sm) => sm.spec_wants(),
            ServerEventDeserer::DeseringIntroduction(sm) => sm.spec_wants(),
            ServerEventDeserer::DeseringAddToPot(im) => im.spec_wants(),
            ServerEventDeserer::DeseringGetSpecificPlayer(um) => um.spec_wants(),
        }
    }

    /// The machine has consumed the first `p` bytes of the frame encoding
    /// the message `e`.
    pub open spec fn following(&self, e: EventToServerView, p: int) -> bool {
        let enc = spec_ser_server_event(e);
        &&& server_event_fits(e)
        &&& match self {
            ServerEventDeserer::Start => p == 0,
            ServerEventDeserer::GotStart(t) => p == 1 && *t == enc[0],
            ServerEventDeserer::DeseringTxtMsg(sm) => {
                &&& e matches EventToServerView::SendMessage { content }
                &&& sm.following(content, p - 1)
                &&& 1 <= p <= enc.len()
            },
            ServerEventDeserer::DeseringIntroduction(sm) => {
                &&& e matches EventToServerView::Introduction { name }
                &&& sm.following(name, p - 1)
                &&& 1 <= p <= enc.len()
            },
            ServerEventDeserer::DeseringAddToPot(im) => {
                &&& e matches EventToServerView::AddToPot(n)
                &&& im.following(SignedState::Unsigned, le_bytes(n as nat), p - 1)
                &&& 1 <= p <= enc.len()
            },
            ServerEventDeserer::DeseringGetSpecificPlayer(um) => {
                &&& e matches EventToServerView::GetSpecificPlayer(uv)
                &&& um.following(uv, p - 1)
                &&& 1 <= p <= enc.len()
            },
        }
    }

    /// While following: the extra is never requested, bytes are requested
    /// only strictly inside the frame and never more than remain, and the
    /// complete frame asks to be processed.
    pub proof fn lemma_following_wants(&self, e: EventToServerView, p: int)
        requires
            self.following(e, p),
        ensures
            !(self.spec_wants() is Extra),
            self.spec_wants() is Byte ==> self.byte_capacity() == 1,
            self.spec_wants() matches DesiredInput::Bytes(k) ==> k == self.byte_capacity() && k
                > 0,
            self.byte_capacity() <= spec_ser_server_event(e).len() - p,
            (self.spec_wants() is Byte || self.spec_wants() is Bytes) ==> self.byte_capacity() > 0
                && p < spec_ser_server_event(e).len(),
            p == spec_ser_server_event(e).len() ==> self.spec_wants() is ProcessMe,
            0 <= p <= spec_ser_server_event(e).len(),
    {
        let enc = spec_ser_server_event(e);
        match self {
            ServerEventDeserer::Start => {
                lemma_server_event_len(e);
            },
            ServerEventDeserer::GotStart(_) => {},
            ServerEventDeserer::DeseringTxtMsg(sm) => {
                let content = e->SendMessage_content;
                sm.lemma_following_wants(content, p - 1);
            },
            ServerEventDeserer::DeseringIntroduction(sm) => {
                let name = e->Introduction_name;
                sm.lemma_following_wants(name, p - 1);
            },
            ServerEventDeserer::DeseringAddToPot(im) => {
                let n = e->AddToPot_0;
                crate::game_types::player::lemma_balance_prefix(n);
                im.lemma_following_wants(SignedState::Unsigned, le_bytes(n as nat), p - 1);
            },
            ServerEventDeserer::DeseringGetSpecificPlayer(um) => {
                let uv = e->GetSpecificPlayer_0;
                um.lemma_following_wants(uv, p - 1);
            },
        }
    }
}

impl DeserMachine for ServerEventDeserer {
    type ExtraInput = ();

    type Output = EventToServer;

    type Error = EventReadError;

    open spec fn byte_capacity(&self) -> nat {
        match self.spec_wants() {
            DesiredInput::Byte => 1,
            DesiredInput::Bytes(k) => k as nat,
            _ => 0,
        }
    }

    fn new() -> (r: Self)
        ensures
            r == ServerEventDeserer::Start,
    {
        ServerEventDeserer::Start
    }

    fn wants_read(&self) -> (r: DesiredInput)
        ensures
            r == self.spec_wants(),
    {
        match self {
            ServerEventDeserer::Start => DesiredInput::Byte,
            ServerEventDeserer::GotStart(_) => DesiredInput::ProcessMe,
            ServerEventDeserer::DeseringTxtMsg(sm) => sm.wants_read(),
            ServerEventDeserer::DeseringIntroduction(sm) => sm.wants_read(),
            ServerEventDeserer::DeseringAddToPot(im) => im.wants_read(),
            ServerEventDeserer::DeseringGetSpecificPlayer(um) => um.wants_read(),
        }
    }

    fn give_starting_input(&mut self, magic: ())
        ensures
            *final(self) == *old(self),
    {
    }

    fn finish_bytes_for_writing(&mut self, bytes: &[u8])
        ensures
            old(self).inv() ==> final(self).inv(),
            bytes@.len() == 0 ==> *final(self) == *old(self),
            *old(self) is Start ==> (if bytes@.len() == 1 {
                *final(self) == ServerEventDeserer::GotStart(bytes@[0])
            } else {
                *final(self) == *old(self)
            }),
            forall|e: EventToServerView, p: int|
                #[trigger] old(self).following(e, p) && bytes@.len() > 0 && p + bytes@.len()
                    <= spec_ser_server_event(e).len() && bytes@ == spec_ser_server_event(
                    e,
                ).subrange(p, p + bytes@.len()) ==> final(self).following(e, p + bytes@.len()),
    {
        match self {
            ServerEventDeserer::Start => {
                if bytes.len() == 1 {
                    *self = ServerEventDeserer::GotStart(bytes[0]);
                }
                proof {
                    assert forall|e: EventToServerView, p: int|
                        #[trigger] old(self).following(e, p) && bytes@.len() > 0 && p
                            + bytes@.len() <= spec_ser_server_event(e).len() && bytes@
                            == spec_ser_server_event(e).subrange(p, p + bytes@.len()) implies final(self).following(e, p + bytes@.len()) by {
                        assert(bytes@[0] == spec_ser_server_event(e)[0]);
                    }
                }
            },
            ServerEventDeserer::GotStart(_) => {},
            ServerEventDeserer::DeseringTxtMsg(sm) => {
                sm.finish_bytes_for_writing(bytes);
                proof {
                    assert forall|e: EventToServerView, p: int|
                        #[trigger] old(self).following(e, p) && bytes@.len() > 0 && p
                            + bytes@.len() <= spec_ser_server_event(e).len() && bytes@
                            == spec_ser_server_event(e).subrange(p, p + bytes@.len()) implies final(self).following(e, p + bytes@.len()) by {
                        let content = e->SendMessage_content;
                        old(self)->DeseringTxtMsg_0.lemma_following_wants(content, p - 1);
                        assert(spec_ser_server_event(e).subrange(p, p + bytes@.len())
                            =~= spec_ser_string(content).subrange(p - 1, p - 1 + bytes@.len()));
                    }
                }
            },
            ServerEventDeserer::DeseringIntroduction(sm) => {
                sm.finish_bytes_for_writing(bytes);
                proof {
                    assert forall|e: EventToServerView, p: int|
                        #[trigger] old(self).following(e, p) && bytes@.len() > 0 && p
                            + bytes@.len() <= spec_ser_server_event(e).len() && bytes@
                            == spec_ser_server_event(e).subrange(p, p + bytes@.len()) implies final(self).following(e, p + bytes@.len()) by {
                        let name = e->Introduction_name;
                        old(self)->DeseringIntroduction_0.lemma_following_wants(name, p - 1);
                        assert(spec_ser_server_event(e).subrange(p, p + bytes@.len())
                            =~= spec_ser_string(name).subrange(p - 1, p - 1 + bytes@.len()));
                    }
                }
            },
            ServerEventDeserer::DeseringAddToPot(im) => {
                im.finish_bytes_for_writing(bytes);
                proof {
                    assert forall|e: EventToServerView, p: int|
                        #[trigger] old(self).following(e, p) && bytes@.len() > 0 && p
                            + bytes@.len() <= spec_ser_server_event(e).len() && bytes@
                            == spec_ser_server_event(e).subrange(p, p + bytes@.len()) implies final(self).following(e, p + bytes@.len()) by {
                        let n = e->AddToPot_0;
                        crate::game_types::player::lemma_balance_prefix(n);
                        old(self)->DeseringAddToPot_0.lemma_following_wants(
                            SignedState::Unsigned,
                            le_bytes(n as nat),
                            p - 1,
                        );
                        assert(spec_ser_server_event(e).subrange(p, p + bytes@.len())
                            =~= spec_ser_int(le_bytes(n as nat)).subrange(
                            p - 1,
                            p - 1 + bytes@.len(),
                        ));
                    }
                }
            },
            ServerEventDeserer::DeseringGetSpecificPlayer(um) => {
                um.finish_bytes_for_writing(bytes);
                proof {
                    assert forall|e: EventToServerView, p: int|
                        #[trigger] old(self).following(e, p) && bytes@.len() > 0 && p
                            + bytes@.len() <= spec_ser_server_event(e).len() && bytes@
                            == spec_ser_server_event(e).subrange(p, p + bytes@.len()) implies final(self).following(e, p + bytes@.len()) by {
                        let uv = e->GetSpecificPlayer_0;
                        assert(spec_ser_server_event(e).subrange(p, p + bytes@.len())
                            =~= uv.subrange(p - 1, p - 1 + bytes@.len()));
                    }
                }
            },
        }
    }

    #[verifier::rlimit(100)]
    fn process(self) -> (r: Result<FsmResult<Self, EventToServer>, EventReadError>)
        ensures
            self.inv() ==> (r matches Ok(FsmResult::Continue(m2)) ==> m2.inv() && (
            self.spec_wants() is ProcessMe ==> m2.rank() < self.rank())),
            r matches Ok(FsmResult::Continue(m2)) ==> ((m2 is Start) == (self is Start)),
            self matches ServerEventDeserer::GotStart(t) ==> (if spec_valid_server_tag(t) {
                r matches Ok(_)
            } else {
                r == Err::<FsmResult<Self, EventToServer>, EventReadError>(
                    EventReadError::InvalidKind(t),
                )
            }),
            r matches Err(e) ==> match self {
                ServerEventDeserer::Start => false,
                ServerEventDeserer::GotStart(t) => e == EventReadError::InvalidKind(t),
                ServerEventDeserer::DeseringTxtMsg(_) => e matches EventReadError::StringRead(_),
                ServerEventDeserer::DeseringIntroduction(_) => e
                    matches EventReadError::StringRead(_),
                ServerEventDeserer::DeseringAddToPot(_) => e matches EventReadError::Integer(_),
                ServerEventDeserer::DeseringGetSpecificPlayer(_) => false,
            },
            forall|e: EventToServerView, p: int|
                #[trigger] self.following(e, p) && self.spec_wants() is ProcessMe ==> match r {
                    Ok(FsmResult::Continue(m2)) => m2.following(e, p) && m2.rank() < self.rank(),
                    Ok(FsmResult::Done(v)) => p == spec_ser_server_event(e).len() && v@ == e,
                    Err(_) => false,
                },
    {
        let ghost orig = self;
        match self {
            ServerEventDeserer::Start => Ok(FsmResult::Continue(ServerEventDeserer::Start)),
            ServerEventDeserer::GotStart(n) => {
                proof {
                    assert forall|e: EventToServerView, p: int|
                        #[trigger] orig.following(e, p) implies spec_ser_server_event(e)[0] == n
                        && p == 1 by {
                        lemma_server_event_len(e);
                    }
                }
                if n == TEXT_MESSAGE {
                    let m2 = ServerEventDeserer::DeseringTxtMsg(StringDeserialiser::new());
                    proof {
                        assert(m2.inv());
                        assert(m2.rank() < orig.rank());
                        assert forall|e: EventToServerView, p: int|
                            #[trigger] orig.following(e, p) && orig.spec_wants()
                                is ProcessMe implies m2.following(e, p) && m2.rank()
                            < orig.rank() by {
                            lemma_server_event_len(e);
                            let content = e->SendMessage_content;
                            crate::ser_glue::string::lemma_string_len_prefix(content);
                        }
                    }
                    Ok(FsmResult::Continue(m2))
                } else if n == INTRODUCTION {
                    let m2 = ServerEventDeserer::DeseringIntroduction(StringDeserialiser::new());
                    proof {
                        assert(m2.inv());
                        assert(m2.rank() < orig.rank());
                        assert forall|e: EventToServerView, p: int|
                            #[trigger] orig.following(e, p) && orig.spec_wants()
                                is ProcessMe implies m2.following(e, p) && m2.rank()
                            < orig.rank() by {
                            lemma_server_event_len(e);
                            let name = e->Introduction_name;
                            crate::ser_glue::string::lemma_string_len_prefix(name);
                        }
                    }
                    Ok(FsmResult::Continue(m2))
                } else if n == GET_ALL_PLAYERS {
                    let out = EventToServer::GetStartInformation;
                    proof {
                        assert forall|e: EventToServerView, p: int|
                            #[trigger] orig.following(e, p) && orig.spec_wants()
                                is ProcessMe implies p == spec_ser_server_event(e).len() && out@
                            == e by {
                            lemma_server_event_len(e);
                        }
                    }
                    Ok(FsmResult::Done(out))
                } else if n == GET_SPECIFIC_PLAYER {
                    let m2 = ServerEventDeserer::DeseringGetSpecificPlayer(UuidDeserialiser::new());
                    proof {
                        assert(m2.inv());
                        assert(m2.rank() < orig.rank());
                        assert forall|e: EventToServerView, p: int|
                            #[trigger] orig.following(e, p) && orig.spec_wants()
                                is ProcessMe implies m2.following(e, p) && m2.rank()
                            < orig.rank() by {
                            lemma_server_event_len(e);
                            let uv = e->GetSpecificPlayer_0;
                            assert(m2->DeseringGetSpecificPlayer_0.content@ =~= uv.subrange(0, 0));
                        }
                    }
                    Ok(FsmResult::Continue(m2))
                } else if n == ADD_TO_POT {
                    let m2 = ServerEventDeserer::DeseringAddToPot(
                        IntegerDeserialiser::new_with_starting_input(SignedState::Unsigned),
                    );
                    proof {
                        assert(m2.inv());
                        assert(m2.rank() < orig.rank());
                        assert forall|e: EventToServerView, p: int|
                            #[trigger] orig.following(e, p) && orig.spec_wants()
                                is ProcessMe implies m2.following(e, p) && m2.rank()
                            < orig.rank() by {
                            lemma_server_event_len(e);
                            let nv = e->AddToPot_0;
                            crate::game_types::player::lemma_balance_prefix(nv);
                            lemma_le_bytes_props(nv as nat);
                        }
                    }
                    Ok(FsmResult::Continue(m2))
                } else {
                    proof {
                        assert forall|e: EventToServerView, p: int|
                            #[trigger] orig.following(e, p) && orig.spec_wants()
                                is ProcessMe implies false by {
                            lemma_server_event_len(e);
                        }
                    }
                    Err(EventReadError::InvalidKind(n))
                }
            },
            ServerEventDeserer::DeseringTxtMsg(sm) => {
                let ghost old_sm = sm;
                match sm.process() {
                    Err(e) => {
                        proof {
                            assert forall|ev: EventToServerView, p: int|
                                #[trigger] orig.following(ev, p) && orig.spec_wants()
                                    is ProcessMe implies false by {
                                assert(old_sm.following(ev->SendMessage_content, p - 1));
                            }
                        }
                        Err(EventReadError::StringRead(e))
                    },
                    Ok(FsmResult::Continue(sm2)) => {
                        let m2 = ServerEventDeserer::DeseringTxtMsg(sm2);
                        proof {
                            assert forall|ev: EventToServerView, p: int|
                                #[trigger] orig.following(ev, p) && orig.spec_wants()
                                    is ProcessMe implies m2.following(ev, p) && m2.rank()
                                < orig.rank() by {
                                assert(old_sm.following(ev->SendMessage_content, p - 1));
                            }
                        }
                        Ok(FsmResult::Continue(m2))
                    },
                    Ok(FsmResult::Done(content)) => {
                        let out = EventToServer::SendMessage { content };
                        proof {
                            assert forall|ev: EventToServerView, p: int|
                                #[trigger] orig.following(ev, p) && orig.spec_wants()
                                    is ProcessMe implies p == spec_ser_server_event(ev).len()
                                && out@ == ev by {
                                assert(old_sm.following(ev->SendMessage_content, p - 1));
                            }
                        }
                        Ok(FsmResult::Done(out))
                    },
                }
            },
            ServerEventDeserer::DeseringIntroduction(sm) => {
                let ghost old_sm = sm;
                match sm.process() {
                    Err(e) => {
                        proof {
                            assert forall|ev: EventToServerView, p: int|
                                #[trigger] orig.following(ev, p) && orig.spec_wants()
                                    is ProcessMe implies false by {
                                assert(old_sm.following(ev->Introduction_name, p - 1));
                            }
                        }
                        Err(EventReadError::StringRead(e))
                    },
                    Ok(FsmResult::Continue(sm2)) => {
                        let m2 = ServerEventDeserer::DeseringIntroduction(sm2);
                        proof {
                            assert forall|ev: EventToServerView, p: int|
                                #[trigger] orig.following(ev, p) && orig.spec_wants()
                                    is ProcessMe implies m2.following(ev, p) && m2.rank()
                                < orig.rank() by {
                                assert(old_sm.following(ev->Introduction_name, p - 1));
                            }
                        }
                        Ok(FsmResult::Continue(m2))
                    },
                    Ok(FsmResult::Done(name)) => {
                        let out = EventToServer::Introduction { name };
                        proof {
                            assert forall|ev: EventToServerView, p: int|
                                #[trigger] orig.following(ev, p) && orig.spec_wants()
                                    is ProcessMe implies p == spec_ser_server_event(ev).len()
                                && out@ == ev by {
                                assert(old_sm.following(ev->Introduction_name, p - 1));
                            }
                        }
                        Ok(FsmResult::Done(out))
                    },
                }
            },
            ServerEventDeserer::DeseringAddToPot(im) => {
                let ghost old_im = im;
                match im.process() {
                    Err(e) => {
                        proof {
                            assert forall|ev: EventToServerView, p: int|
                                #[trigger] orig.following(ev, p) && orig.spec_wants()
                                    is ProcessMe implies false by {
                                assert(old_im.following(
                                    SignedState::Unsigned,
                                    le_bytes(ev->AddToPot_0 as nat),
                                    p - 1,
                                ));
                            }
                        }
                        Err(EventReadError::Integer(e))
                    },
                    Ok(FsmResult::Continue(im2)) => {
                        let m2 = ServerEventDeserer::DeseringAddToPot(im2);
                        proof {
                            assert forall|ev: EventToServerView, p: int|
                                #[trigger] orig.following(ev, p) && orig.spec_wants()
                                    is ProcessMe implies m2.following(ev, p) && m2.rank()
                                < orig.rank() by {
                                assert(old_im.following(
                                    SignedState::Unsigned,
                                    le_bytes(ev->AddToPot_0 as nat),
                                    p - 1,
                                ));
                            }
                        }
                        Ok(FsmResult::Continue(m2))
                    },
                    Ok(FsmResult::Done(amt)) => {
                        match amt.try_to_u32() {
                            Err(e) => {
                                proof {
                                    assert forall|ev: EventToServerView, p: int|
                                        #[trigger] orig.following(ev, p) && orig.spec_wants()
                                            is ProcessMe implies false by {
                                        let nv = ev->AddToPot_0;
                                        crate::game_types::player::lemma_balance_prefix(nv);
                                        lemma_le_bytes_props(nv as nat);
                                        lemma_spec_dec_content(
                                            SignedState::Unsigned,
                                            le_bytes(nv as nat),
                                        );
                                        assert(old_im.following(
                                            SignedState::Unsigned,
                                            le_bytes(nv as nat),
                                            p - 1,
                                        ));
                                    }
                                }
                                Err(EventReadError::Integer(e))
                            },
                            Ok(n) => {
                                let out = EventToServer::AddToPot(n);
                                proof {
                                    assert forall|ev: EventToServerView, p: int|
                                        #[trigger] orig.following(ev, p) && orig.spec_wants()
                                            is ProcessMe implies p == spec_ser_server_event(
                                        ev,
                                    ).len() && out@ == ev by {
                                        let nv = ev->AddToPot_0;
                                        crate::game_types::player::lemma_balance_prefix(nv);
                                        lemma_le_bytes_props(nv as nat);
                                        lemma_spec_dec_content(
                                            SignedState::Unsigned,
                                            le_bytes(nv as nat),
                                        );
                                        assert(old_im.following(
                                            SignedState::Unsigned,
                                            le_bytes(nv as nat),
                                            p - 1,
                                        ));
                                    }
                                }
                                Ok(FsmResult::Done(out))
                            },
                        }
                    },
                }
            },
            ServerEventDeserer::DeseringGetSpecificPlayer(um) => {
                let ghost old_um = um;
                match um.process() {
                    Err(_) => Err(EventReadError::Integer(IntegerReadError::NotEnoughBytes)),
                    Ok(FsmResult::Continue(um2)) => {
                        let m2 = ServerEventDeserer::DeseringGetSpecificPlayer(um2);
                        proof {
                            assert forall|ev: EventToServerView, p: int|
                                #[trigger] orig.following(ev, p) && orig.spec_wants()
                                    is ProcessMe implies m2.following(ev, p) && m2.rank()
                                < orig.rank() by {
                                assert(old_um.following(ev->GetSpecificPlayer_0, p - 1));
                            }
                        }
                        Ok(FsmResult::Continue(m2))
                    },
                    Ok(FsmResult::Done(uuid)) => {
                        let out = EventToServer::GetSpecificPlayer(uuid);
                        proof {
                            assert forall|ev: EventToServerView, p: int|
                                #[trigger] orig.following(ev, p) && orig.spec_wants()
                                    is ProcessMe implies p == spec_ser_server_event(ev).len()
                                && out@ == ev by {
                                assert(old_um.following(ev->GetSpecificPlayer_0, p - 1));
                            }
                        }
                        Ok(FsmResult::Done(out))
                    },
                }
            },
        }
    }
}

/// The driver's bookkeeping while decoding a stream that encodes `vs`:
/// every finished frame matches, and the machine is part-way through the
/// current frame.
pub open spec fn server_driver_inv(
    bytes: Seq<u8>,
    found: Seq<EventToServer>,
    machine: ServerEventDeserer,
    pos: int,
    vs: Seq<EventToServerView>,
) -> bool {
    &&& found.len() <= vs.len()
    &&& found.map_values(|ev: EventToServer| ev@) == vs.take(found.len() as int)
    &&& if found.len() < vs.len() {
        let done = spec_ser_server_stream(vs.take(found.len() as int)).len();
        &&& done <= pos <= bytes.len()
        &&& machine.following(vs[found.len() as int], pos - done)
    } else {
        &&& machine is Start
        &&& pos == bytes.len()
    }
}

/// Runs a fresh frame machine over an in-memory byte string, collecting
/// finished messages until the bytes run out at a frame boundary.
///
/// The contract is the round-trip law for this direction of the protocol: a
/// byte string that is exactly the concatenated encodings of any messages
/// decodes to exactly those messages, in order.
#[verifier::rlimit(100)]
pub fn deser_from_vec(bytes: &[u8]) -> (r: Result<Vec<EventToServer>, EventReadError>)
    ensures
        bytes@.len() > 0 && !spec_valid_server_tag(bytes@[0]) ==> r == Err::<Vec<EventToServer>, EventReadError>(
            EventReadError::InvalidKind(bytes@[0]),
        ),
        forall|vs: Seq<EventToServerView>|
            server_stream_fits(vs) && bytes@ == #[trigger] spec_ser_server_stream(vs) ==> (
            r matches Ok(out) && out@.map_values(|ev: EventToServer| ev@) == vs),
{
    let mut found: Vec<EventToServer> = Vec::new();
    let mut machine = ServerEventDeserer::new();
    let mut pos: usize = 0;
    proof {
        assert forall|vs: Seq<EventToServerView>|
            server_stream_fits(vs) && bytes@ == #[trigger] spec_ser_server_stream(
                vs,
            ) implies server_driver_inv(bytes@, found@, machine, pos as int, vs) by {
            assert(found@.map_values(|ev: EventToServer| ev@) =~= vs.take(0));
            assert(vs.take(0) =~= Seq::<EventToServerView>::empty());
            if vs.len() == 0 {
                assert(spec_ser_server_stream(vs).len() == 0);
            } else {
                assert(spec_ser_server_stream(vs.take(0)).len() == 0);
            }
        }
    }
    loop
        invariant
            pos <= bytes@.len(),
            machine.inv(),
            bytes@.len() > 0 && !spec_valid_server_tag(bytes@[0]) ==> ((pos == 0 && machine is Start) || (pos
                == 1 && machine == ServerEventDeserer::GotStart(bytes@[0]))),
            forall|vs: Seq<EventToServerView>|
                server_stream_fits(vs) && bytes@ == #[trigger] spec_ser_server_stream(vs)
                    ==> server_driver_inv(bytes@, found@, machine, pos as int, vs),
        ensures
            pos == bytes@.len(),
            machine is Start,
        decreases bytes@.len() - pos, machine.rank(),
    {
        if pos == bytes.len() && matches!(machine, ServerEventDeserer::Start) {
            break ;
        }
        let want = machine.wants_read();
        match want {
            DesiredInput::Byte | DesiredInput::Bytes(_) => {
                let cap: usize = match want {
                    DesiredInput::Byte => 1,
                    DesiredInput::Bytes(c) => c,
                    _ => 0,
                };
                proof {
                    assert(machine.byte_capacity() == cap);
                }
                if pos == bytes.len() || cap == 0 {
                    proof {
                        assert forall|vs: Seq<EventToServerView>|
                            server_stream_fits(vs) && bytes@ == #[trigger] spec_ser_server_stream(
                                vs,
                            ) implies false by {
                            let i = found@.len() as int;
                            if i < vs.len() {
                                let done = spec_ser_server_stream(vs.take(i)).len() as int;
                                machine.lemma_following_wants(vs[i], pos - done);
                                lemma_server_stream_frame(vs, i);
                            } else {
                                assert(machine is Start && pos == bytes@.len());
                            }
                        }
                    }
                    return Err(EventReadError::Integer(IntegerReadError::NotEnoughBytes));
                }
                let avail = bytes.len() - pos;
                let k = if cap < avail {
                    cap
                } else {
                    avail
                };
                let chunk: &[u8] = &bytes[pos..pos + k];
                let ghost old_machine = machine;
                proof {
                    assert(chunk@ == bytes@.subrange(pos as int, pos + k));
                }
                machine.finish_bytes_for_writing(chunk);
                proof {
                    assert forall|vs: Seq<EventToServerView>|
                        server_stream_fits(vs) && bytes@ == #[trigger] spec_ser_server_stream(
                            vs,
                        ) implies server_driver_inv(
                        bytes@,
                        found@,
                        machine,
                        pos + k,
                        vs,
                    ) by {
                        let i = found@.len() as int;
                        if i < vs.len() {
                            let done = spec_ser_server_stream(vs.take(i)).len() as int;
                            let target = vs[i];
                            let enc = spec_ser_server_event(target);
                            let p = pos - done;
                            old_machine.lemma_following_wants(target, p);
                            lemma_server_stream_frame(vs, i);
                            assert(bytes@ == spec_ser_server_stream(vs.take(i)) + enc
                                + spec_ser_server_stream(vs.skip(i + 1)));
                            assert(k <= enc.len() - p);
                            assert(chunk@ =~= enc.subrange(p, p + k));
                            assert(old_machine.following(target, p) && chunk@.len() > 0 && p
                                + chunk@.len() <= enc.len() && chunk@ == enc.subrange(
                                p,
                                p + chunk@.len(),
                            ));
                            assert(machine.following(target, p + k));
                        } else {
                            assert(old_machine is Start && pos == bytes@.len());
                        }
                    }
                }
                pos = pos + k;
            },
            DesiredInput::ProcessMe => {
                let ghost old_machine = machine;
                match machine.process() {
                    Err(e) => {
                        proof {
                            assert forall|vs: Seq<EventToServerView>|
                                server_stream_fits(vs) && bytes@
                                    == #[trigger] spec_ser_server_stream(vs) implies false by {
                                let i = found@.len() as int;
                                if i < vs.len() {
                                    let done = spec_ser_server_stream(vs.take(i)).len() as int;
                                    assert(old_machine.following(vs[i], pos - done));
                                } else {
                                    assert(old_machine is Start);
                                }
                            }
                        }
                        return Err(e);
                    },
                    Ok(FsmResult::Continue(m2)) => {
                        machine = m2;
                        proof {
                            assert forall|vs: Seq<EventToServerView>|
                                server_stream_fits(vs) && bytes@
                                    == #[trigger] spec_ser_server_stream(
                                    vs,
                                ) implies server_driver_inv(
                                bytes@,
                                found@,
                                machine,
                                pos as int,
                                vs,
                            ) by {
                                let i = found@.len() as int;
                                if i < vs.len() {
                                    let done = spec_ser_server_stream(vs.take(i)).len() as int;
                                    assert(old_machine.following(vs[i], pos - done));
                                } else {
                                    assert(old_machine is Start);
                                }
                            }
                        }
                    },
                    Ok(FsmResult::Done(evt)) => {
                        let ghost old_found = found@;
                        found.push(evt);
                        machine = ServerEventDeserer::new();
                        proof {
                            assert forall|vs: Seq<EventToServerView>|
                                server_stream_fits(vs) && bytes@
                                    == #[trigger] spec_ser_server_stream(
                                    vs,
                                ) implies server_driver_inv(
                                bytes@,
                                found@,
                                machine,
                                pos as int,
                                vs,
                            ) by {
                                let i = old_found.len() as int;
                                if i < vs.len() {
                                    let done = spec_ser_server_stream(vs.take(i)).len() as int;
                                    let target = vs[i];
                                    let enc = spec_ser_server_event(target);
                                    assert(old_machine.following(target, pos - done));
                                    assert(pos - done == enc.len() && evt@ == target);
                                    lemma_server_stream_frame(vs, i);
                                    assert(found@.map_values(|ev: EventToServer| ev@)
                                        =~= old_found.map_values(|ev: EventToServer| ev@).push(
                                        evt@,
                                    ));
                                    assert(vs.take(i + 1) =~= vs.take(i).push(vs[i]));
                                    assert(found@.map_values(|ev: EventToServer| ev@) =~= vs.take(
                                        i + 1,
                                    ));
                                    if i + 1 < vs.len() {
                                        assert(spec_ser_server_stream(vs.take(i + 1)).len()
                                            == pos);
                                    } else {
                                        lemma_server_stream_split(vs, i + 1);
                                        assert(vs.skip(i + 1) =~= Seq::<
                                            EventToServerView,
                                        >::empty());
                                        assert(spec_ser_server_stream(vs.skip(i + 1)).len() == 0);
                                        assert(pos == bytes@.len());
                                    }
                                } else {
                                    assert(old_machine is Start);
                                }
                            }
                            assert(old_machine.rank() >= 1);
                        }
                    },
                }
            },
            DesiredInput::Extra => {
                proof {
                    assert(!(machine.spec_wants() is Extra));
                }
                return Err(EventReadError::Integer(IntegerReadError::NotEnoughBytes));
            },
        }
    }
    proof {
        assert forall|vs: Seq<EventToServerView>|
            server_stream_fits(vs) && bytes@ == #[trigger] spec_ser_server_stream(
                vs,
            ) implies found@.map_values(|ev: EventToServer| ev@) == vs by {
            let i = found@.len() as int;
            if i < vs.len() {
                let done = spec_ser_server_stream(vs.take(i)).len() as int;
                machine.lemma_following_wants(vs[i], pos - done);
                lemma_server_stream_frame(vs, i);
                lemma_server_event_len(vs[i]);
                assert(pos - done == 0);
                assert(bytes@.len() >= done + 1);
                assert(false);
            } else {
                assert(vs.take(vs.len() as int) =~= vs);
            }
        }
    }
    Ok(found)
}

} // verus!