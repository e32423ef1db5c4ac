//! The map codecs: a map travels as its entry count followed by that many
//! key/value pairs. Decoding resolves a repeated key by keeping the later
//! value; no ordering is promised in either direction.

use vstd::prelude::*;

use crate::game_types::player::{
    player_fits, spec_ser_player, Player, PlayerDeserialiser, PlayerReadError, PlayerView,
};
use crate::integer::{
    le_bytes, lemma_le_bytes_props, lemma_vli_unsigned_canon, spec_ser_int, spec_vli_unsigned,
    Integer, IntegerDeserialiser, SignedState,
};
use crate::ser_glue::list::{lemma_len_prefix_canon, BasicListReadError};
use crate::ser_glue::tuple::TupleReadError;
use crate::ser_glue::uuid::{Uuid, UuidDeserialiser};
use crate::ser_glue::{DeserMachine, DesiredInput, FsmResult, Serable};

verus! {

/// A finite mapping from identifiers to values, stored as its entries.
/// Library operations keep the keys distinct.
#[derive(Debug)]
pub struct UuidMap<V> {
    pub entries: Vec<(Uuid, V)>,
}

impl<V: View> View for UuidMap<V> {
    type V = Seq<(Seq<u8>, V::V)>;

    open spec fn view(&self) -> Seq<(Seq<u8>, V::V)> {
        Seq::new(self.entries@.len(), |i: int| (self.entries@[i].0@, self.entries@[i].1@))
    }
}

/// Whether some entry carries the given key.
pub open spec fn spec_has_key<W>(s: Seq<(Seq<u8>, W)>, k: Seq<u8>) -> bool {
    exists|i: int| 0 <= i < s.len() && s[i].0 == k
}

/// The first entry carrying the given key, or a negative position.
pub open spec fn key_index<W>(s: Seq<(Seq<u8>, W)>, k: Seq<u8>) -> int
    decreases s.len(),
{
    if s.len() == 0 {
        -1
    } else if s[0].0 == k {
        0
    } else {
        let r = key_index(s.drop_first(), k);
        if r < 0 {
            -1
        } else {
            1 + r
        }
    }
}

/// The first matching position really is a match, and a negative position
/// really means the key is absent.
pub proof fn lemma_key_index<W>(s: Seq<(Seq<u8>, W)>, k: Seq<u8>)
    ensures
        key_index(s, k) >= 0 ==> 0 <= key_index(s, k) < s.len() && s[key_index(s, k)].0 == k,
        (key_index(s, k) >= 0) == spec_has_key(s, k),
    decreases s.len(),
{
    if s.len() > 0 && s[0].0 != k {
        lemma_key_index(s.drop_first(), k);
        if key_index(s.drop_first(), k) >= 0 {
            assert(s[1 + key_index(s.drop_first(), k)] == s.drop_first()[key_index(
                s.drop_first(),
                k,
            )]);
        }
        if spec_has_key(s, k) {
            let w = choose|i: int| 0 <= i < s.len() && s[i].0 == k;
            assert(s.drop_first()[w - 1].0 == k);
        }
    }
}

/// Distinct keys throughout.
pub open spec fn spec_keys_distinct<W>(s: Seq<(Seq<u8>, W)>) -> bool {
    forall|i: int, j: int| 0 <= i < j < s.len() ==> s[i].0 != s[j].0
}

/// Last-writer-wins insertion at the view level: a known key keeps its entry
/// but takes the new value, a fresh key appends an entry.
pub open spec fn spec_map_insert<W>(s: Seq<(Seq<u8>, W)>, k: Seq<u8>, v: W) -> Seq<(Seq<u8>, W)> {
    if spec_has_key(s, k) {
        s.update(key_index(s, k), (s[key_index(s, k)].0, v))
    } else {
        s.push((k, v))
    }
}

impl<V> UuidMap<V> {
    /// The empty map.
    pub fn new() -> (r: UuidMap<V>)
        ensures
            r.entries@ == Seq::<(Uuid, V)>::empty(),
    {
        UuidMap { entries: Vec::new() }
    }

    /// How many entries the map holds.
    pub fn len(&self) -> (r: usize)
        ensures
            r == self.entries@.len(),
    {
        self.entries.len()
    }
}

impl<V: View> UuidMap<V> {
    /// A borrow of the value at the given key, if any entry carries it.
    pub fn get(&self, key: &Uuid) -> (r: Option<&V>)
        ensures
            spec_has_key(self@, key@) ==> (r matches Some(v) && v@ == self@[key_index(
                self@,
                key@,
            )].1),
            !spec_has_key(self@, key@) ==> r is None,
    {
        proof {
            lemma_key_index(self@, key@);
        }
        let mut i: usize = 0;
        while i < self.entries.len()
            invariant
                i <= self.entries@.len(),
                forall|j: int| 0 <= j < i ==> self@[j].0 != key@,
                key_index(self@, key@) >= 0 ==> key_index(self@, key@) >= i,
                (key_index(self@, key@) >= 0) == spec_has_key(self@, key@),
                key_index(self@, key@) >= 0 ==> 0 <= key_index(self@, key@) < self@.len()
                    && self@[key_index(self@, key@)].0 == key@,
            decreases self.entries@.len() - i,
        {
            if self.entries[i].0.eq(key) {
                proof {
                    assert(self@[i as int].0 == key@);
                    lemma_key_index_first(self@, key@, i as int);
                }
                return Some(&self.entries[i].1);
            }
            i += 1;
        }
        proof {
            if spec_has_key(self@, key@) {
                let w = key_index(self@, key@);
                assert(self@[w].0 == key@);
            }
        }
        None
    }

    /// Puts a value under a key: a fresh key appends an entry, a known key
    /// replaces the value at its entry.
    pub fn insert(&mut self, key: Uuid, value: V)
        ensures
            !spec_has_key(old(self)@, key@) ==> final(self).entries@ == old(self).entries@.push(
                (key, value),
            ),
            spec_has_key(old(self)@, key@) ==> {
                let i = key_index(old(self)@, key@);
                final(self).entries@ == old(self).entries@.update(
                    i,
                    (old(self).entries@[i].0, value),
                )
            },
    {
        proof {
            lemma_key_index(self@, key@);
        }
        let mut i: usize = 0;
        while i < self.entries.len()
            invariant
                i <= self.entries@.len(),
                *self == *old(self),
                forall|j: int| 0 <= j < i ==> self@[j].0 != key@,
                (key_index(self@, key@) >= 0) == spec_has_key(self@, key@),
                key_index(self@, key@) >= 0 ==> i <= key_index(self@, key@) < self@.len()
                    && self@[key_index(self@, key@)].0 == key@,
            decreases self.entries@.len() - i,
        {
            if self.entries[i].0.eq(&key) {
                proof {
                    assert(self@[i as int].0 == key@);
                    lemma_key_index_first(self@, key@, i as int);
                }
                let slot = &mut self.entries[i];
                slot.1 = value;
                proof {
                    assert(final(self).entries@ =~= old(self).entries@.update(
                        i as int,
                        (old(self).entries@[i as int].0, value),
                    ));
                }
                return ;
            }
            i += 1;
        }
        proof {
            if spec_has_key(self@, key@) {
                let w = key_index(self@, key@);
                assert(self@[w].0 == key@);
            }
        }
        self.entries.push((key, value));
    }
}

/// If the key first matches at `i` and misses everywhere before, the first
/// matching position is `i`.
pub proof fn lemma_key_index_first<W>(s: Seq<(Seq<u8>, W)>, k: Seq<u8>, i: int)
    requires
        0 <= i < s.len(),
        s[i].0 == k,
        forall|j: int| 0 <= j < i ==> s[j].0 != k,
    ensures
        key_index(s, k) == i,
    decreases i,
{
    if i > 0 {
        lemma_key_index_first(s.drop_first(), k, i - 1);
    } else {
    }
}

/// The concatenated encodings of a map's entries: each key's sixteen bytes,
/// then the value's encoding.
pub open spec fn spec_ser_entries<V: Serable>(s: Seq<(Uuid, V)>) -> Seq<u8>
    decreases s.len(),
{
    if s.len() == 0 {
        Seq::empty()
    } else {
        s[0].0.spec_ser() + s[0].1.spec_ser() + spec_ser_entries(s.drop_first())
    }
}

/// Entry encodings grow one pair at a time.
pub proof fn lemma_spec_ser_entries_take<V: Serable>(s: Seq<(Uuid, V)>, i: int)
    requires
        0 <= i < s.len(),
    ensures
        spec_ser_entries(s.take(i + 1)) == spec_ser_entries(s.take(i)) + (s[i].0.spec_ser()
            + s[i].1.spec_ser()),
    decreases i,
{
    if i == 0 {
        assert(s.take(1).drop_first() =~= Seq::<(Uuid, V)>::empty());
        assert(s.take(0) =~= Seq::<(Uuid, V)>::empty());
        assert(s.take(1)[0] == s[0]);
        assert(spec_ser_entries(Seq::<(Uuid, V)>::empty()) =~= Seq::<u8>::empty());
        assert(spec_ser_entries(s.take(1)) =~= spec_ser_entries(s.take(0)) + (s[0].0.spec_ser()
            + s[0].1.spec_ser()));
    } else {
        lemma_spec_ser_entries_take(s.drop_first(), i - 1);
        assert(s.take(i + 1).drop_first() =~= s.drop_first().take(i));
        assert(s.take(i).drop_first() =~= s.drop_first().take(i - 1));
        assert(s.take(i + 1)[0] == s[0] && s.take(i)[0] == s[0]);
        assert(s.drop_first()[i - 1] == s[i]);
        assert((s[0].0.spec_ser() + s[0].1.spec_ser() + spec_ser_entries(s.drop_first().take(
            i - 1,
        ))) + (s[i].0.spec_ser() + s[i].1.spec_ser()) =~= s[0].0.spec_ser() + s[0].1.spec_ser() + (
        spec_ser_entries(s.drop_first().take(i - 1)) + (s[i].0.spec_ser() + s[i].1.spec_ser())));
    }
}

/// A map wrapper that writes only the entries, back to back; the caller must
/// already know the count.
pub struct MapSer<'a, V>(pub &'a UuidMap<V>);

impl<'a, V: Serable> Serable for MapSer<'a, V> {
    type ExtraOutput = Vec<((), V::ExtraOutput)>;

    open spec fn spec_ser(&self) -> Seq<u8> {
        spec_ser_entries(self.0.entries@)
    }

    open spec fn spec_extra_ok(&self, extra: Vec<((), V::ExtraOutput)>) -> bool {
        extra@.len() == self.0.entries@.len() && forall|i: int|
            0 <= i < extra@.len() ==> self.0.entries@[i].1.spec_extra_ok(#[trigger] extra@[i].1)
    }

    /// Appends every entry's key bytes and value encoding in map order.
    fn ser_into(&self, into: &mut Vec<u8>) -> (r: Vec<((), V::ExtraOutput)>) {
        let mut extras: Vec<((), V::ExtraOutput)> = Vec::new();
        let mut i: usize = 0;
        proof {
            assert(self.0.entries@.take(0) =~= Seq::<(Uuid, V)>::empty());
            assert(into@ =~= old(into)@ + spec_ser_entries(self.0.entries@.take(0)));
        }
        while i < self.0.entries.len()
            invariant
                i <= self.0.entries@.len(),
                into@ == old(into)@ + spec_ser_entries(self.0.entries@.take(i as int)),
                extras@.len() == i,
                forall|j: int|
                    0 <= j < i ==> self.0.entries@[j].1.spec_extra_ok(#[trigger] extras@[j].1),
            decreases self.0.entries@.len() - i,
        {
            let entry = &self.0.entries[i];
            entry.0.ser_into(into);
            let e = entry.1.ser_into(into);
            extras.push(((), e));
            proof {
                lemma_spec_ser_entries_take(self.0.entries@, i as int);
                assert(into@ =~= old(into)@ + spec_ser_entries(self.0.entries@.take(i + 1)));
            }
            i += 1;
        }
        proof {
            assert(self.0.entries@.take(self.0.entries@.len() as int) =~= self.0.entries@);
            assert(self.spec_ser() == spec_ser_entries(self.0.entries@));
            assert(self.spec_extra_ok(extras));
        }
        extras
    }
}

/// A self-delimited map wrapper: the entry count as an unsigned integer,
/// then the entries back to back.
pub struct BasicMapSer<'a, V>(pub &'a UuidMap<V>);

impl<'a, V: Serable> Serable for BasicMapSer<'a, V> {
    type ExtraOutput = ();

    open spec fn spec_ser(&self) -> Seq<u8> {
        spec_vli_unsigned(self.0.entries@.len()) + spec_ser_entries(self.0.entries@)
    }

    open spec fn spec_extra_ok(&self, extra: ()) -> bool {
        true
    }

    /// Appends the count, then every entry.
    fn ser_into(&self, into: &mut Vec<u8>) -> (r: ()) {
        Integer::from_usize(self.0.entries.len()).ser_into(into);
        let _ = MapSer(self.0).ser_into(into);
        proof {
            lemma_len_prefix_canon(self.0.entries@.len());
            assert(self.spec_extra_ok(()));
            assert(final(into)@ =~= old(into)@ + self.spec_ser());
        }
    }
}

/// The concatenated wire forms of identifier/player entries.
pub open spec fn spec_ser_player_entries(es: Seq<(Seq<u8>, PlayerView)>) -> Seq<u8>
    decreases es.len(),
{
    if es.len() == 0 {
        Seq::empty()
    } else {
        es[0].0 + spec_ser_player(es[0].1) + spec_ser_player_entries(es.drop_first())
    }
}

/// Entry targets that reachable decodes can produce.
pub open spec fn player_entries_fit(es: Seq<(Seq<u8>, PlayerView)>) -> bool {
    &&& forall|i: int|
        0 <= i < es.len() ==> (#[trigger] es[i]).0.len() == 16 && player_fits(es[i].1)
    &&& spec_keys_distinct(es)
}

/// An entry stream splits at any entry boundary.
pub proof fn lemma_player_entries_split(es: Seq<(Seq<u8>, PlayerView)>, i: int)
    requires
        0 <= i <= es.len(),
    ensures
        spec_ser_player_entries(es) == spec_ser_player_entries(es.take(i))
            + spec_ser_player_entries(es.skip(i)),
    decreases i,
{
    if i == 0 {
        assert(es.take(0) =~= Seq::<(Seq<u8>, PlayerView)>::empty());
        assert(es.skip(0) =~= es);
        assert(Seq::<u8>::empty() + spec_ser_player_entries(es) =~= spec_ser_player_entries(es));
    } else {
        lemma_player_entries_split(es.drop_first(), i - 1);
        assert(es.take(i).drop_first() =~= es.drop_first().take(i - 1));
        assert(es.skip(i) =~= es.drop_first().skip(i - 1));
        assert(es.take(i)[0] == es[0]);
        assert((es[0].0 + spec_ser_player(es[0].1) + spec_ser_player_entries(es.drop_first().take(
            i - 1,
        ))) + spec_ser_player_entries(es.drop_first().skip(i - 1)) =~= es[0].0 + spec_ser_player(
            es[0].1,
        ) + (spec_ser_player_entries(es.drop_first().take(i - 1)) + spec_ser_player_entries(
            es.drop_first().skip(i - 1),
        )));
    }
}

/// One entry's bytes sit between the entries before and after it.
pub proof fn lemma_player_entries_frame(es: Seq<(Seq<u8>, PlayerView)>, i: int)
    requires
        0 <= i < es.len(),
    ensures
        spec_ser_player_entries(es) == spec_ser_player_entries(es.take(i)) + (es[i].0
            + spec_ser_player(es[i].1)) + spec_ser_player_entries(es.skip(i + 1)),
        spec_ser_player_entries(es.take(i + 1)) == spec_ser_player_entries(es.take(i)) + (es[i].0
            + spec_ser_player(es[i].1)),
{
    lemma_player_entries_split(es, i);
    assert(es.skip(i)[0] == es[i]);
    assert(es.skip(i).drop_first() =~= es.skip(i + 1));
    assert(spec_ser_player_entries(es.take(i)) + (es[i].0 + spec_ser_player(es[i].1)
        + spec_ser_player_entries(es.skip(i + 1))) =~= (spec_ser_player_entries(es.take(i)) + (
    es[i].0 + spec_ser_player(es[i].1))) + spec_ser_player_entries(es.skip(i + 1)));
    lemma_player_entries_split(es, i + 1);
    assert(es.take(i + 1).take(i) =~= es.take(i));
    lemma_player_entries_split(es.take(i + 1), i);
    assert(es.take(i + 1).skip(i) =~= seq![es[i]]);
    assert(seq![es[i]].drop_first() =~= Seq::<(Seq<u8>, PlayerView)>::empty());
    assert(spec_ser_player_entries(seq![es[i]]) =~= es[i].0 + spec_ser_player(es[i].1));
}

/// The pull-driven decoder for an extra-driven player map: the entry count
/// arrives out of band, then that many identifier/player entries stream in.
/// A repeated identifier keeps the later player.
#[derive(Debug)]
pub enum MapDeserialiser {
    /// Waiting for the out-of-band entry count.
    AwaitingExtras,
    /// Reading the identifier of the next entry; `remaining` counts the
    /// entries still unfinished, including this one.
    ReadingList { remaining: usize, so_far: UuidMap<Player>, current_key: UuidDeserialiser },
    /// The identifier is done; reading its player.
    ReadingValue {
        remaining: usize,
        so_far: UuidMap<Player>,
        key: Uuid,
        current_value: PlayerDeserialiser,
    },
    /// The count arrived as zero: the map is complete and empty.
    FoundEmptyExtras,
}

impl MapDeserialiser {
    /// Structural soundness of a reachable machine state.
    pub open spec fn inv(&self) -> bool {
        match self {
            MapDeserialiser::AwaitingExtras => true,
            MapDeserialiser::ReadingList { remaining, current_key, .. } => *remaining >= 1
                && current_key.inv(),
            MapDeserialiser::ReadingValue { remaining, current_value, .. } => *remaining >= 1
                && current_value.inv(),
            MapDeserialiser::FoundEmptyExtras => true,
        }
    }

    /// How many pure processing steps remain before bytes are needed again.
    pub open spec fn rank(&self) -> nat {
        match self {
            MapDeserialiser::AwaitingExtras => 0,
            MapDeserialiser::ReadingList { remaining, current_key, .. } => current_key.rank() + 10
                * (*remaining as nat) + 1,
            MapDeserialiser::ReadingValue { remaining, current_value, .. } => {
                let rem: nat = if *remaining >= 1 {
                    (*remaining - 1) as nat
                } else {
                    0
                };
                current_value.rank() + 10 * rem + 6
            },
            MapDeserialiser::FoundEmptyExtras => 1,
        }
    }

    /// What the machine asks of the driver in each state.
    pub open spec fn spec_wants(&self) -> DesiredInput {
        match self {
            MapDeserialiser::AwaitingExtras => DesiredInput::Extra,
            MapDeserialiser::ReadingList { current_key, .. } => current_key.spec_wants(),
            MapDeserialiser::ReadingValue { current_value, .. } => current_value.spec_wants(),
            MapDeserialiser::FoundEmptyExtras => DesiredInput::ProcessMe,
        }
    }

    /// The machine has consumed the first `p` bytes of the concatenated
    /// entry encodings `es`.
    pub open spec fn following(&self, es: Seq<(Seq<u8>, PlayerView)>, p: int) -> bool {
        &&& player_entries_fit(es)
        &&& match self {
            MapDeserialiser::AwaitingExtras => false,
            MapDeserialiser::ReadingList { remaining, so_far, current_key } => {
                let i = es.len() - *remaining;
                let done = spec_ser_player_entries(es.take(i)).len() as int;
                &&& 1 <= *remaining <= es.len()
                &&& so_far@ == es.take(i)
                &&& current_key.following(es[i].0, p - done)
                &&& done <= p <= spec_ser_player_entries(es).len()
            },
            MapDeserialiser::ReadingValue { remaining, so_far, key, current_value } => {
                let i = es.len() - *remaining;
                let done = spec_ser_player_entries(es.take(i)).len() as int;
                &&& 1 <= *remaining <= es.len()
                &&& so_far@ == es.take(i)
                &&& key@ == es[i].0
                &&& current_value.following(es[i].1, p - done - 16)
                &&& done + 16 <= p <= spec_ser_player_entries(es).len()
            },
            MapDeserialiser::FoundEmptyExtras => es.len() == 0 && p == 0,
        }
    }

    /// While following: the extra is never requested again, bytes are
    /// requested only strictly inside the entry stream and never more than
    /// remain, and the complete stream asks to be processed.
    pub proof fn lemma_following_wants(&self, es: Seq<(Seq<u8>, PlayerView)>, p: int)
        requires
            self.following(es, p),
        ensures
            !(self.spec_wants() is Extra),
            self.spec_wants() is Byte ==> self.byte_capacity() == 1,
            self.spec_wants() matches DesiredInput::Bytes(k) ==> k == self.byte_capacity(),
            self.byte_capacity() <= spec_ser_player_entries(es).len() - p,
            (self.spec_wants() is Byte || self.spec_wants() is Bytes) ==> self.byte_capacity() > 0
                && p < spec_ser_player_entries(es).len(),
            p == spec_ser_player_entries(es).len() ==> self.spec_wants() is ProcessMe,
            0 <= p <= spec_ser_player_entries(es).len(),
    {
        match self {
            MapDeserialiser::AwaitingExtras => {},
            MapDeserialiser::ReadingList { remaining, so_far, current_key } => {
                let i = es.len() - *remaining;
                let done = spec_ser_player_entries(es.take(i)).len() as int;
                current_key.lemma_following_wants(es[i].0, p - done);
                lemma_player_entries_frame(es, i);
                assert(spec_ser_player(es[i].1).len() >= 1) by {
                    crate::ser_glue::string::lemma_string_len_prefix(es[i].1.name);
                    crate::integer::lemma_pow256_16();
                    lemma_le_bytes_props(encode_len_of(es[i].1));
                    lemma_vli_unsigned_canon(encode_len_of(es[i].1));
                }
            },
            MapDeserialiser::ReadingValue { remaining, so_far, key, current_value } => {
                let i = es.len() - *remaining;
                let done = spec_ser_player_entries(es.take(i)).len() as int;
                current_value.lemma_following_wants(es[i].1, p - done - 16);
                lemma_player_entries_frame(es, i);
                if p - done - 16 == spec_ser_player(es[i].1).len() && i + 1 < es.len() {
                    assert(p < spec_ser_player_entries(es).len()) by {
                        lemma_player_entries_frame(es, i + 1);
                    }
                }
            },
            MapDeserialiser::FoundEmptyExtras => {},
        }
    }
}

/// The UTF-8 byte length of a player's name, for bounding lemmas.
pub open spec fn encode_len_of(pv: PlayerView) -> nat {
    vstd::utf8::encode_utf8(pv.name).len()
}

impl DeserMachine for MapDeserialiser {
    type ExtraInput = usize;

    type Output = UuidMap<Player>;

    type Error = TupleReadError<core::convert::Infallible, PlayerReadError>;

    open spec fn byte_capacity(&self) -> nat {
        match self.spec_wants() {
            DesiredInput::Byte => 1,
            DesiredInput::Bytes(k) => k as nat,
            _ => 0,
        }
    }

    fn new() -> (r: Self)
        ensures
            r == MapDeserialiser::AwaitingExtras,
    {
        MapDeserialiser::AwaitingExtras
    }

    fn give_starting_input(&mut self, count: usize)
        ensures
            !(*old(self) is AwaitingExtras) ==> *final(self) == *old(self),
            *old(self) is AwaitingExtras ==> final(self).inv() && !(*final(self)
                is AwaitingExtras) && final(self).rank() <= 10 * (count as nat) + 2,
            *old(self) is AwaitingExtras ==> forall|es: Seq<(Seq<u8>, PlayerView)>|
                player_entries_fit(es) && es.len() == count ==> final(self).following(es, 0),
    {
        if matches!(self, MapDeserialiser::AwaitingExtras) {
            if count == 0 {
                *self = MapDeserialiser::FoundEmptyExtras;
            } else {
                *self = MapDeserialiser::ReadingList {
                    remaining: count,
                    so_far: UuidMap::new(),
                    current_key: UuidDeserialiser::new(),
                };
                proof {
                    assert forall|es: Seq<(Seq<u8>, PlayerView)>|
                        player_entries_fit(es) && es.len() == count implies final(self).following(
                        es,
                        0,
                    ) by {
                        assert(es.take(0) =~= Seq::<(Seq<u8>, PlayerView)>::empty());
                        assert(spec_ser_player_entries(es.take(0)).len() == 0);
                        assert(final(self)->ReadingList_so_far@ =~= es.take(0));
                        assert(final(self)->ReadingList_current_key.content@ =~= es[0].0.subrange(
                            0,
                            0,
                        ));
                        lemma_player_entries_frame(es, 0);
                    }
                }
            }
        }
    }

    fn new_with_starting_input(count: usize) -> (r: Self)
        ensures
            r.inv(),
            !(r is AwaitingExtras),
            r.rank() <= 10 * (count as nat) + 2,
            forall|es: Seq<(Seq<u8>, PlayerView)>|
                player_entries_fit(es) && es.len() == count ==> r.following(es, 0),
    {
        let mut s = MapDeserialiser::AwaitingExtras;
        s.give_starting_input(count);
        s
    }

    fn wants_read(&self) -> (r: DesiredInput)
        ensures
            r == self.spec_wants(),
    {
        match self {
            MapDeserialiser::AwaitingExtras => DesiredInput::Extra,
            MapDeserialiser::ReadingList { current_key, .. } => current_key.wants_read(),
            MapDeserialiser::ReadingValue { current_value, .. } => current_value.wants_read(),
            MapDeserialiser::FoundEmptyExtras => DesiredInput::ProcessMe,
        }
    }

    fn finish_bytes_for_writing(&mut self, bytes: &[u8])
        ensures
            old(self).inv() ==> final(self).inv(),
            (*final(self) is AwaitingExtras) == (*old(self) is AwaitingExtras),
            bytes@.len() == 0 ==> *final(self) == *old(self),
            forall|es: Seq<(Seq<u8>, PlayerView)>, p: int|
                #[trigger] old(self).following(es, p) && bytes@.len() > 0 && p + bytes@.len()
                    <= spec_ser_player_entries(es).len() && bytes@ == spec_ser_player_entries(
                    es,
                ).subrange(p, p + bytes@.len()) ==> final(self).following(es, p + bytes@.len()),
    {
        match self {
            MapDeserialiser::ReadingList { current_key, .. } => {
                current_key.finish_bytes_for_writing(bytes);
                proof {
                    assert forall|es: Seq<(Seq<u8>, PlayerView)>, p: int|
                        #[trigger] old(self).following(es, p) && bytes@.len() > 0 && p
                            + bytes@.len() <= spec_ser_player_entries(es).len() && bytes@
                            == spec_ser_player_entries(es).subrange(
                            p,
                            p + bytes@.len(),
                        ) implies final(self).following(es, p + bytes@.len()) by {
                        let i = es.len() - old(self)->ReadingList_remaining;
                        let done = spec_ser_player_entries(es.take(i)).len() as int;
                        old(self)->ReadingList_current_key.lemma_following_wants(
                            es[i].0,
                            p - done,
                        );
                        lemma_player_entries_frame(es, i);
                        assert(spec_ser_player_entries(es).subrange(p, p + bytes@.len())
                            =~= es[i].0.subrange(p - done, p - done + bytes@.len()));
                    }
                }
            },
            MapDeserialiser::ReadingValue { current_value, .. } => {
                current_value.finish_bytes_for_writing(bytes);
                proof {
                    assert forall|es: Seq<(Seq<u8>, PlayerView)>, p: int|
                        #[trigger] old(self).following(es, p) && bytes@.len() > 0 && p
                            + bytes@.len() <= spec_ser_player_entries(es).len() && bytes@
                            == spec_ser_player_entries(es).subrange(
                            p,
                            p + bytes@.len(),
                        ) implies final(self).following(es, p + bytes@.len()) by {
                        let i = es.len() - old(self)->ReadingValue_remaining;
                        let done = spec_ser_player_entries(es.take(i)).len() as int;
                        old(self)->ReadingValue_current_value.lemma_following_wants(
                            es[i].1,
                            p - done - 16,
                        );
                        lemma_player_entries_frame(es, i);
                        assert(spec_ser_player_entries(es).subrange(p, p + bytes@.len())
                            =~= spec_ser_player(es[i].1).subrange(
                            p - done - 16,
                            p - done - 16 + bytes@.len(),
                        ));
                    }
                }
            },
            _ => {},
        }
    }

    #[verifier::rlimit(50)]
    fn process(self) -> (r: Result<
        FsmResult<Self, UuidMap<Player>>,
        TupleReadError<core::convert::Infallible, PlayerReadError>,
    >)
        ensures
            self.inv() ==> (r matches Ok(FsmResult::Continue(m2)) ==> m2.inv() && (
            self.spec_wants() is ProcessMe ==> m2.rank() < self.rank())),
            r matches Ok(FsmResult::Continue(m2)) ==> ((m2 is AwaitingExtras) == (self
                is AwaitingExtras)),
            self is AwaitingExtras ==> r == Ok::<
                FsmResult<Self, UuidMap<Player>>,
                TupleReadError<core::convert::Infallible, PlayerReadError>,
            >(FsmResult::Continue(MapDeserialiser::AwaitingExtras)),
            self is FoundEmptyExtras ==> (r matches Ok(FsmResult::Done(m)) && m@ == Seq::<
                (Seq<u8>, PlayerView),
            >::empty()),
            r matches Err(e) ==> self is ReadingValue && e matches TupleReadError::BError(_),
            self matches MapDeserialiser::ReadingValue { remaining, so_far, key, current_value }
                ==> match r {
                Ok(FsmResult::Continue(m2)) => m2 matches MapDeserialiser::ReadingList {
                    so_far: s2,
                    ..
                } ==> exists|pv: PlayerView| s2@ == #[trigger] spec_map_insert(so_far@, key@, pv),
                Ok(FsmResult::Done(m)) => exists|pv: PlayerView| m@ == #[trigger] spec_map_insert(
                    so_far@,
                    key@,
                    pv,
                ),
                Err(_) => true,
            },
            forall|es: Seq<(Seq<u8>, PlayerView)>, p: int|
                #[trigger] self.following(es, p) && self.spec_wants() is ProcessMe ==> match r {
                    Ok(FsmResult::Continue(m2)) => m2.following(es, p) && m2.rank() < self.rank(),
                    Ok(FsmResult::Done(v)) => p == spec_ser_player_entries(es).len() && v@ == es,
                    Err(_) => false,
                },
    {
        let ghost orig = self;
        match self {
            MapDeserialiser::AwaitingExtras => {
                Ok(FsmResult::Continue(MapDeserialiser::AwaitingExtras))
            },
            MapDeserialiser::FoundEmptyExtras => {
                let out: UuidMap<Player> = UuidMap::new();
                proof {
                    assert forall|es: Seq<(Seq<u8>, PlayerView)>, p: int|
                        #[trigger] orig.following(es, p) && orig.spec_wants()
                            is ProcessMe implies p == spec_ser_player_entries(es).len() && out@
                        == es by {
                        assert(out@ =~= es);
                    }
                }
                Ok(FsmResult::Done(out))
            },
            MapDeserialiser::ReadingList { remaining, so_far, current_key } => {
                let ghost old_um = current_key;
                match current_key.process() {
                    Err(e) => Err(TupleReadError::AError(e)),
                    Ok(FsmResult::Continue(um2)) => {
                        let m2 = MapDeserialiser::ReadingList {
                            remaining,
                            so_far,
                            current_key: um2,
                        };
                        proof {
                            assert forall|es: Seq<(Seq<u8>, PlayerView)>, p: int|
                                #[trigger] orig.following(es, p) && orig.spec_wants()
                                    is ProcessMe implies m2.following(es, p) && m2.rank()
                                < orig.rank() by {
                                let i = es.len() - remaining;
                                let done = spec_ser_player_entries(es.take(i)).len() as int;
                                assert(old_um.following(es[i].0, p - done));
                            }
                        }
                        Ok(FsmResult::Continue(m2))
                    },
                    Ok(FsmResult::Done(key)) => {
                        let m2 = MapDeserialiser::ReadingValue {
                            remaining,
                            so_far,
                            key,
                            current_value: PlayerDeserialiser::new(),
                        };
                        proof {
                            assert forall|es: Seq<(Seq<u8>, PlayerView)>, p: int|
                                #[trigger] orig.following(es, p) && orig.spec_wants()
                                    is ProcessMe implies m2.following(es, p) && m2.rank()
                                < orig.rank() by {
                                let i = es.len() - remaining;
                                let done = spec_ser_player_entries(es.take(i)).len() as int;
                                assert(old_um.following(es[i].0, p - done));
                                crate::ser_glue::string::lemma_string_len_prefix(es[i].1.name);
                            }
                        }
                        Ok(FsmResult::Continue(m2))
                    },
                }
            },
            MapDeserialiser::ReadingValue { remaining, mut so_far, key, current_value } => {
                let ghost old_pm = current_value;
                let ghost old_so_far = so_far@;
                let ghost gkey = key@;
                match current_value.process() {
                    Err(e) => {
                        proof {
                            assert forall|es: Seq<(Seq<u8>, PlayerView)>, p: int|
                                #[trigger] orig.following(es, p) && orig.spec_wants()
                                    is ProcessMe implies false by {
                                let i = es.len() - remaining;
                                let done = spec_ser_player_entries(es.take(i)).len() as int;
                                assert(old_pm.following(es[i].1, p - done - 16));
                            }
                        }
                        Err(TupleReadError::BError(e))
                    },
                    Ok(FsmResult::Continue(pm2)) => {
                        let m2 = MapDeserialiser::ReadingValue {
                            remaining,
                            so_far,
                            key,
                            current_value: pm2,
                        };
                        proof {
                            assert forall|es: Seq<(Seq<u8>, PlayerView)>, p: int|
                                #[trigger] orig.following(es, p) && orig.spec_wants()
                                    is ProcessMe implies m2.following(es, p) && m2.rank()
                                < orig.rank() by {
                                let i = es.len() - remaining;
                                let done = spec_ser_player_entries(es.take(i)).len() as int;
                                assert(old_pm.following(es[i].1, p - done - 16));
                            }
                        }
                        Ok(FsmResult::Continue(m2))
                    },
                    Ok(FsmResult::Done(player)) => {
                        let ghost gplayer = player@;
                        proof {
                            assert forall|es: Seq<(Seq<u8>, PlayerView)>, p: int|
                                #[trigger] orig.following(es, p) && orig.spec_wants()
                                    is ProcessMe implies !spec_has_key(so_far@, gkey) by {
                                let i = es.len() - remaining;
                                if spec_has_key(so_far@, gkey) {
                                    lemma_key_index(so_far@, gkey);
                                    let w = key_index(so_far@, gkey);
                                    assert(so_far@[w].0 == es[w].0);
                                    assert(es[i].0 == gkey);
                                }
                            }
                        }
                        let ghost pre_view = old_so_far;
                        so_far.insert(key, player);
                        proof {
                            crate::ser_glue::map::lemma_key_index(pre_view, gkey);
                            if spec_has_key(pre_view, gkey) {
                                assert(so_far@ =~= spec_map_insert(pre_view, gkey, gplayer));
                            } else {
                                assert(so_far@ =~= spec_map_insert(pre_view, gkey, gplayer));
                            }
                            assert(exists|pv: PlayerView|
                                so_far@ == #[trigger] spec_map_insert(pre_view, gkey, pv));
                        }
                        if remaining > 1 {
                            let m2 = MapDeserialiser::ReadingList {
                                remaining: remaining - 1,
                                so_far,
                                current_key: UuidDeserialiser::new(),
                            };
                            proof {
                                assert forall|es: Seq<(Seq<u8>, PlayerView)>, p: int|
                                    #[trigger] orig.following(es, p) && orig.spec_wants()
                                        is ProcessMe implies m2.following(es, p) && m2.rank()
                                    < orig.rank() by {
                                    let i = es.len() - remaining;
                                    let done = spec_ser_player_entries(es.take(i)).len() as int;
                                    assert(old_pm.following(es[i].1, p - done - 16));
                                    lemma_player_entries_frame(es, i);
                                    assert(m2->ReadingList_so_far@ =~= es.take(i + 1));
                                    assert(m2->ReadingList_current_key.content@ =~= es[i
                                        + 1].0.subrange(0, 0));
                                    assert(spec_ser_player_entries(es.take(i + 1)).len() as int
                                        == p);
                                }
                            }
                            Ok(FsmResult::Continue(m2))
                        } else {
                            proof {
                                assert forall|es: Seq<(Seq<u8>, PlayerView)>, p: int|
                                    #[trigger] orig.following(es, p) && orig.spec_wants()
                                        is ProcessMe implies p == spec_ser_player_entries(
                                    es,
                                ).len() && so_far@ == es by {
                                    let i = es.len() - remaining;
                                    let done = spec_ser_player_entries(es.take(i)).len() as int;
                                    assert(old_pm.following(es[i].1, p - done - 16));
                                    lemma_player_entries_frame(es, i);
                                    assert(so_far@ =~= es.take(i + 1));
                                    assert(es.take(i + 1) =~= es);
                                }
                            }
                            Ok(FsmResult::Done(so_far))
                        }
                    },
                }
            },
        }
    }
}

/// The self-delimited wire form of a player map: the entry count, then the
/// entries.
pub open spec fn spec_ser_player_map(es: Seq<(Seq<u8>, PlayerView)>) -> Seq<u8> {
    spec_vli_unsigned(es.len()) + spec_ser_player_entries(es)
}

/// An entry count that can come back out of memory.
pub open spec fn player_map_fits(es: Seq<(Seq<u8>, PlayerView)>) -> bool {
    player_entries_fit(es) && es.len() <= usize::MAX
}

/// The pull-driven decoder for a self-delimited player map: the entry count
/// as an unsigned integer, then that many entries.
#[derive(Debug)]
pub enum BasicMapDeserialiser {
    /// The count prefix is still being decoded.
    GettingLen(IntegerDeserialiser),
    /// The count is known; the entries stream in.
    GettingElements(MapDeserialiser),
}

impl BasicMapDeserialiser {
    /// Structural soundness of a reachable machine state.
    pub open spec fn inv(&self) -> bool {
        match self {
            BasicMapDeserialiser::GettingLen(im) => im.inv() && !(*im is Start),
            BasicMapDeserialiser::GettingElements(mm) => mm.inv() && !(*mm is AwaitingExtras),
        }
    }

    /// How many pure processing steps remain before bytes are needed again.
    pub open spec fn rank(&self) -> nat {
        match self {
            BasicMapDeserialiser::GettingLen(im) => im.rank() + 10 * im.buffered_value() + 3,
            BasicMapDeserialiser::GettingElements(mm) => mm.rank() + 1,
        }
    }

    /// What the machine asks of the driver in each state.
    pub open spec fn spec_wants(&self) -> DesiredInput {
        match self {
            BasicMapDeserialiser::GettingLen(im) => im.spec_wants(),
            BasicMapDeserialiser::GettingElements(mm) => mm.spec_wants(),
        }
    }

    /// The machine has consumed the first `p` bytes of the map's wire form.
    pub open spec fn following(&self, es: Seq<(Seq<u8>, PlayerView)>, p: int) -> bool {
        let lenc = spec_vli_unsigned(es.len());
        &&& player_map_fits(es)
        &&& match self {
            BasicMapDeserialiser::GettingLen(im) => {
                &&& im.following(SignedState::Unsigned, le_bytes(es.len()), p)
                &&& 0 <= p <= lenc.len()
            },
            BasicMapDeserialiser::GettingElements(mm) => {
                &&& mm.following(es, p - lenc.len())
                &&& lenc.len() <= p <= spec_ser_player_map(es).len()
            },
        }
    }

    /// While following: the extra is never requested, bytes are requested
    /// only strictly inside the wire form and never more than remain, and
    /// the complete wire form asks to be processed.
    pub proof fn lemma_following_wants(&self, es: Seq<(Seq<u8>, PlayerView)>, p: int)
        requires
            self.following(es, p),
        ensures
            !(self.spec_wants() is Extra),
            self.spec_wants() is Byte ==> self.byte_capacity() == 1,
            self.spec_wants() matches DesiredInput::Bytes(k) ==> k == self.byte_capacity(),
            self.byte_capacity() <= spec_ser_player_map(es).len() - p,
            (self.spec_wants() is Byte || self.spec_wants() is Bytes) ==> self.byte_capacity() > 0
                && p < spec_ser_player_map(es).len(),
            p == spec_ser_player_map(es).len() ==> self.spec_wants() is ProcessMe,
            0 <= p <= spec_ser_player_map(es).len(),
    {
        lemma_len_prefix_canon(es.len());
        match self {
            BasicMapDeserialiser::GettingLen(im) => {
                im.lemma_following_wants(SignedState::Unsigned, le_bytes(es.len()), p);
            },
            BasicMapDeserialiser::GettingElements(mm) => {
                mm.lemma_following_wants(es, p - spec_vli_unsigned(es.len()).len());
            },
        }
    }
}

impl DeserMachine for BasicMapDeserialiser {
    type ExtraInput = ();

    type Output = UuidMap<Player>;

    type Error = BasicListReadError<
        TupleReadError<core::convert::Infallible, PlayerReadError>,
    >;

    open spec fn byte_capacity(&self) -> nat {
        match self.spec_wants() {
            DesiredInput::Byte => 1,
            DesiredInput::Bytes(k) => k as nat,
            _ => 0,
        }
    }

    fn new() -> (r: Self)
        ensures
            r == BasicMapDeserialiser::GettingLen(
                IntegerDeserialiser::GotSignedState { state: SignedState::Unsigned },
            ),
    {
        BasicMapDeserialiser::GettingLen(
            IntegerDeserialiser::new_with_starting_input(SignedState::Unsigned),
        )
    }

    fn wants_read(&self) -> (r: DesiredInput)
        ensures
            r == self.spec_wants(),
    {
        match self {
            BasicMapDeserialiser::GettingLen(im) => im.wants_read(),
            BasicMapDeserialiser::GettingElements(mm) => mm.wants_read(),
        }
    }

    fn give_starting_input(&mut self, magic: ())
        ensures
            *final(self) == *old(self),
    {
    }

    fn finish_bytes_for_writing(&mut self, bytes: &[u8])
        ensures
            old(self).inv() ==> final(self).inv(),
            bytes@.len() == 0 ==> *final(self) == *old(self),
            forall|es: Seq<(Seq<u8>, PlayerView)>, p: int|
                #[trigger] old(self).following(es, p) && bytes@.len() > 0 && p + bytes@.len()
                    <= spec_ser_player_map(es).len() && bytes@ == spec_ser_player_map(
                    es,
                ).subrange(p, p + bytes@.len()) ==> final(self).following(es, p + bytes@.len()),
    {
        match self {
            BasicMapDeserialiser::GettingLen(im) => {
                im.finish_bytes_for_writing(bytes);
                proof {
                    assert forall|es: Seq<(Seq<u8>, PlayerView)>, p: int|
                        #[trigger] old(self).following(es, p) && bytes@.len() > 0 && p
                            + bytes@.len() <= spec_ser_player_map(es).len() && bytes@
                            == spec_ser_player_map(es).subrange(p, p + bytes@.len()) implies final(self).following(es, p + bytes@.len()) by {
                        lemma_len_prefix_canon(es.len());
                        old(self)->GettingLen_0.lemma_following_wants(
                            SignedState::Unsigned,
                            le_bytes(es.len()),
                            p,
                        );
                        assert(spec_ser_player_map(es).subrange(p, p + bytes@.len())
                            =~= spec_ser_int(le_bytes(es.len())).subrange(p, p + bytes@.len()));
                    }
                }
            },
            BasicMapDeserialiser::GettingElements(mm) => {
                mm.finish_bytes_for_writing(bytes);
                proof {
                    assert forall|es: Seq<(Seq<u8>, PlayerView)>, p: int|
                        #[trigger] old(self).following(es, p) && bytes@.len() > 0 && p
                            + bytes@.len() <= spec_ser_player_map(es).len() && bytes@
                            == spec_ser_player_map(es).subrange(p, p + bytes@.len()) implies final(self).following(es, p + bytes@.len()) by {
                        let lenc = spec_vli_unsigned(es.len());
                        lemma_len_prefix_canon(es.len());
                        old(self)->GettingElements_0.lemma_following_wants(es, p - lenc.len());
                        assert(spec_ser_player_map(es).subrange(p, p + bytes@.len())
                            =~= spec_ser_player_entries(es).subrange(
                            p - lenc.len(),
                            p - lenc.len() + bytes@.len(),
                        ));
                    }
                }
            },
        }
    }

    fn process(self) -> (r: Result<
        FsmResult<Self, UuidMap<Player>>,
        BasicListReadError<TupleReadError<core::convert::Infallible, PlayerReadError>>,
    >)
        ensures
            self.inv() ==> (r matches Ok(FsmResult::Continue(m2)) ==> m2.inv() && (
            self.spec_wants() is ProcessMe ==> m2.rank() < self.rank())),
            r matches Err(e) ==> ((self is GettingLen ==> e matches BasicListReadError::Len(_))
                && (self is GettingElements ==> e matches BasicListReadError::Element(_))),
            forall|es: Seq<(Seq<u8>, PlayerView)>, p: int|
                #[trigger] self.following(es, p) && self.spec_wants() is ProcessMe ==> match r {
                    Ok(FsmResult::Continue(m2)) => m2.following(es, p) && m2.rank() < self.rank(),
                    Ok(FsmResult::Done(v)) => p == spec_ser_player_map(es).len() && v@ == es,
                    Err(_) => false,
                },
    {
        let ghost orig = self;
        match self {
            BasicMapDeserialiser::GettingLen(im) => {
                let ghost old_im = im;
                match im.process() {
                    Err(e) => {
                        proof {
                            assert forall|es: Seq<(Seq<u8>, PlayerView)>, p: int|
                                #[trigger] orig.following(es, p) && orig.spec_wants()
                                    is ProcessMe implies false by {
                                assert(old_im.following(
                                    SignedState::Unsigned,
                                    le_bytes(es.len()),
                                    p,
                                ));
                            }
                        }
                        Err(BasicListReadError::Len(e))
                    },
                    Ok(FsmResult::Continue(im2)) => {
                        let m2 = BasicMapDeserialiser::GettingLen(im2);
                        proof {
                            assert forall|es: Seq<(Seq<u8>, PlayerView)>, p: int|
                                #[trigger] orig.following(es, p) && orig.spec_wants()
                                    is ProcessMe implies m2.following(es, p) && m2.rank()
                                < orig.rank() by {
                                assert(old_im.following(
                                    SignedState::Unsigned,
                                    le_bytes(es.len()),
                                    p,
                                ));
                            }
                        }
                        Ok(FsmResult::Continue(m2))
                    },
                    Ok(FsmResult::Done(nint)) => {
                        match nint.try_to_usize() {
                            Err(e) => {
                                proof {
                                    assert forall|es: Seq<(Seq<u8>, PlayerView)>, p: int|
                                        #[trigger] orig.following(es, p) && orig.spec_wants()
                                            is ProcessMe implies false by {
                                        lemma_len_prefix_canon(es.len());
                                        lemma_le_bytes_props(es.len());
                                        crate::integer::lemma_spec_dec_content(
                                            SignedState::Unsigned,
                                            le_bytes(es.len()),
                                        );
                                        assert(old_im.following(
                                            SignedState::Unsigned,
                                            le_bytes(es.len()),
                                            p,
                                        ));
                                    }
                                }
                                Err(BasicListReadError::Len(e))
                            },
                            Ok(count) => {
                                let mm = MapDeserialiser::new_with_starting_input(count);
                                let m2 = BasicMapDeserialiser::GettingElements(mm);
                                proof {
                                    assert(count as nat <= old_im.buffered_value());
                                    assert(m2.rank() <= 10 * (count as nat) + 3);
                                    assert forall|es: Seq<(Seq<u8>, PlayerView)>, p: int|
                                        #[trigger] orig.following(es, p) && orig.spec_wants()
                                            is ProcessMe implies m2.following(es, p) && m2.rank()
                                        < orig.rank() by {
                                        lemma_len_prefix_canon(es.len());
                                        lemma_le_bytes_props(es.len());
                                        crate::integer::lemma_spec_dec_content(
                                            SignedState::Unsigned,
                                            le_bytes(es.len()),
                                        );
                                        assert(old_im.following(
                                            SignedState::Unsigned,
                                            le_bytes(es.len()),
                                            p,
                                        ));
                                        assert(count as nat == es.len());
                                    }
                                }
                                Ok(FsmResult::Continue(m2))
                            },
                        }
                    },
                }
            },
            BasicMapDeserialiser::GettingElements(mm) => {
                let ghost old_mm = mm;
                match mm.process() {
                    Err(e) => {
                        proof {
                            assert forall|es: Seq<(Seq<u8>, PlayerView)>, p: int|
                                #[trigger] orig.following(es, p) && orig.spec_wants()
                                    is ProcessMe implies false by {
                                assert(old_mm.following(
                                    es,
                                    p - spec_vli_unsigned(es.len()).len(),
                                ));
                            }
                        }
                        Err(BasicListReadError::Element(e))
                    },
                    Ok(FsmResult::Continue(mm2)) => {
                        let m2 = BasicMapDeserialiser::GettingElements(mm2);
                        proof {
                            assert forall|es: Seq<(Seq<u8>, PlayerView)>, p: int|
                                #[trigger] orig.following(es, p) && orig.spec_wants()
                                    is ProcessMe implies m2.following(es, p) && m2.rank()
                                < orig.rank() by {
                                assert(old_mm.following(
                                    es,
                                    p - spec_vli_unsigned(es.len()).len(),
                                ));
                            }
                        }
                        Ok(FsmResult::Continue(m2))
                    },
                    Ok(FsmResult::Done(map)) => {
                        proof {
                            assert forall|es: Seq<(Seq<u8>, PlayerView)>, p: int|
                                #[trigger] orig.following(es, p) && orig.spec_wants()
                                    is ProcessMe implies p == spec_ser_player_map(es).len() by {
                                assert(old_mm.following(
                                    es,
                                    p - spec_vli_unsigned(es.len()).len(),
                                ));
                            }
                        }
                        Ok(FsmResult::Done(map))
                    },
                }
            },
        }
    }
}

/// Map equality as mappings: same entry count, and every entry of one is
/// carried (first match) by the other. For maps with distinct keys this is
/// equality of the finite mappings, whatever the entry order.
pub open spec fn spec_map_eq<W>(a: Seq<(Seq<u8>, W)>, b: Seq<(Seq<u8>, W)>) -> bool {
    &&& a.len() == b.len()
    &&& forall|i: int|
        0 <= i < a.len() ==> spec_has_key(b, (#[trigger] a[i]).0) && b[key_index(b, a[i].0)].1
            == a[i].1
}

impl PartialEq for UuidMap<u32> {
    /// Entry-count equality plus key-by-key lookup: entry order is free.
    fn eq(&self, other: &UuidMap<u32>) -> (r: bool)
        ensures
            r == spec_map_eq(self@, other@),
    {
        if self.entries.len() != other.entries.len() {
            return false;
        }
        let mut i: usize = 0;
        while i < self.entries.len()
            invariant
                i <= self.entries@.len(),
                self@.len() == other@.len(),
                forall|j: int|
                    0 <= j < i ==> spec_has_key(other@, (#[trigger] self@[j]).0) && other@[
                        key_index(other@, self@[j].0)
                    ].1 == self@[j].1,
            decreases self.entries@.len() - i,
        {
            let entry = &self.entries[i];
            proof {
                assert(self@[i as int].0 == entry.0@ && self@[i as int].1 == entry.1);
            }
            match other.get(&entry.0) {
                None => {
                    proof {
                        assert(!spec_has_key(other@, self@[i as int].0));
                    }
                    return false;
                },
                Some(w) => {
                    if *w != entry.1 {
                        proof {
                            lemma_key_index(other@, self@[i as int].0);
                            assert(other@[key_index(other@, self@[i as int].0)].1 != self@[
                                i as int
                            ].1);
                        }
                        return false;
                    }
                },
            }
            i += 1;
        }
        true
    }
}

impl Eq for UuidMap<u32> {

}

impl vstd::std_specs::cmp::PartialEqSpecImpl for UuidMap<u32> {
    open spec fn obeys_eq_spec() -> bool {
        true
    }

    open spec fn eq_spec(&self, other: &UuidMap<u32>) -> bool {
        spec_map_eq(self@, other@)
    }
}

impl PartialEq for UuidMap<Player> {
    /// Entry-count equality plus key-by-key lookup: entry order is free.
    fn eq(&self, other: &UuidMap<Player>) -> (r: bool)
        ensures
            r == spec_map_eq(self@, other@),
    {
        if self.entries.len() != other.entries.len() {
            return false;
        }
        let mut i: usize = 0;
        while i < self.entries.len()
            invariant
                i <= self.entries@.len(),
                self@.len() == other@.len(),
                forall|j: int|
                    0 <= j < i ==> spec_has_key(other@, (#[trigger] self@[j]).0) && other@[
                        key_index(other@, self@[j].0)
                    ].1 == self@[j].1,
            decreases self.entries@.len() - i,
        {
            let entry = &self.entries[i];
            proof {
                assert(self@[i as int].0 == entry.0@ && self@[i as int].1 == entry.1@);
            }
            match other.get(&entry.0) {
                None => {
                    proof {
                        assert(!spec_has_key(other@, self@[i as int].0));
                    }
                    return false;
                },
                Some(w) => {
                    if !w.eq(&entry.1) {
                        proof {
                            lemma_key_index(other@, self@[i as int].0);
                            assert(other@[key_index(other@, self@[i as int].0)].1 != self@[
                                i as int
                            ].1);
                        }
                        return false;
                    }
                },
            }
            i += 1;
        }
        true
    }
}

impl Eq for UuidMap<Player> {

}

impl vstd::std_specs::cmp::PartialEqSpecImpl for UuidMap<Player> {
    open spec fn obeys_eq_spec() -> bool {
        true
    }

    open spec fn eq_spec(&self, other: &UuidMap<Player>) -> bool {
        spec_map_eq(self@, other@)
    }
}

impl Clone for UuidMap<u32> {
    /// A clone keeps the entries in order.
    fn clone(&self) -> (r: Self)
        ensures
            r@ == self@,
    {
        let mut entries: Vec<(Uuid, u32)> = Vec::new();
        let mut i: usize = 0;
        while i < self.entries.len()
            invariant
                i <= self.entries@.len(),
                entries@.len() == i,
                forall|j: int|
                    0 <= j < i ==> (#[trigger] entries@[j]).0@ == self.entries@[j].0@
                        && entries@[j].1 == self.entries@[j].1,
            decreases self.entries@.len() - i,
        {
            let e = &self.entries[i];
            entries.push((e.0.clone(), e.1));
            i += 1;
        }
        let r = UuidMap { entries };
        proof {
            assert(r@ =~= self@);
        }
        r
    }
}

impl Clone for UuidMap<Player> {
    /// A clone keeps the entries in order.
    fn clone(&self) -> (r: Self)
        ensures
            r@ == self@,
    {
        let mut entries: Vec<(Uuid, Player)> = Vec::new();
        let mut i: usize = 0;
        while i < self.entries.len()
            invariant
                i <= self.entries@.len(),
                entries@.len() == i,
                forall|j: int|
                    0 <= j < i ==> (#[trigger] entries@[j]).0@ == self.entries@[j].0@
                        && entries@[j].1@ == self.entries@[j].1@,
            decreases self.entries@.len() - i,
        {
            let e = &self.entries[i];
            entries.push((e.0.clone(), e.1.clone()));
            i += 1;
        }
        let r = UuidMap { entries };
        proof {
            assert(r@ =~= self@);
        }
        r
    }
}

/// Entry values encode through their views: the concatenation of in-memory
/// entries is the concatenation of their mathematical shapes.
pub proof fn lemma_entries_views(s: Seq<(Uuid, Player)>)
    ensures
        spec_ser_entries(s) == spec_ser_player_entries(
            Seq::new(s.len(), |i: int| (s[i].0@, s[i].1@)),
        ),
    decreases s.len(),
{
    let v = Seq::new(s.len(), |i: int| (s[i].0@, s[i].1@));
    if s.len() == 0 {
        assert(v =~= Seq::<(Seq<u8>, PlayerView)>::empty());
    } else {
        lemma_entries_views(s.drop_first());
        assert(v.drop_first() =~= Seq::new(
            s.drop_first().len(),
            |i: int| (s.drop_first()[i].0@, s.drop_first()[i].1@),
        ));
        assert(s[0].0.spec_ser() == s[0].0@);
        assert(s[0].1.spec_ser() == spec_ser_player(s[0].1@));
        assert(v[0] == (s[0].0@, s[0].1@));
        assert(s[0].0.spec_ser() + s[0].1.spec_ser() + spec_ser_entries(s.drop_first()) =~= v[0].0
            + spec_ser_player(v[0].1) + spec_ser_player_entries(v.drop_first()));
    }
}

/// Law: an empty map's wire form is the single count byte zero, followed
/// by no payload bytes at all.
pub proof fn lemma_empty_map_encoding<V: Serable>(s: Seq<(Uuid, V)>)
    requires
        s.len() == 0,
    ensures
        spec_vli_unsigned(s.len()) + spec_ser_entries(s) == seq![0u8],
{
    crate::integer::lemma_pow256_positive(16);
    lemma_vli_unsigned_canon(0);
    assert(le_bytes(0) =~= Seq::<u8>::empty());
    assert(spec_ser_entries(s) =~= Seq::<u8>::empty());
    assert(spec_vli_unsigned(0) + Seq::<u8>::empty() =~= seq![0u8]);
}

} // verus!
