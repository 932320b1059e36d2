//! Requests for friends' data, and the persona states that come back.
use crate::proto_wire::{
    fields, fixed64_field, law_bytes_roundtrip, law_fields_concat, law_fixed64_field_roundtrip,
    law_string_roundtrip, law_tag_roundtrip, law_u32_roundtrip, law_varint_field_roundtrip,
    lemma_field_within, lemma_payload_size, lemma_read_within, lemma_single_field, read_bytes,
    read_field, read_payload, read_string, read_tag, read_u32, run_field, tag_bytes, varint_bytes,
    varint_field, Field, Payload, Reader, Tag, WireType, Writer,
};
use vstd::prelude::*;
use vstd::utf8::{decode_utf8, encode_utf8, valid_utf8};

pub mod laws;

verus! {

// ---------------------------------------------------------------------------
// Request
// ---------------------------------------------------------------------------

/// Asks for what is known of some friends.
#[derive(Clone, Debug, Eq, PartialEq)]
pub struct CMsgClientRequestFriendData {
    pub persona_state_requested: u32,
    pub friends: Vec<u64>,
}

impl Default for CMsgClientRequestFriendData {
    fn default() -> (msg: Self)
        ensures
            msg.persona_state_requested == 0,
            msg.friends@.len() == 0,
    {
        CMsgClientRequestFriendData { persona_state_requested: 0, friends: Vec::new() }
    }
}

/// The fields of the friends asked for; the id zero is left out.
pub open spec fn friend_id_fields(friends: Seq<u64>) -> Seq<u8>
    decreases friends.len(),
{
    if friends.len() == 0 {
        Seq::empty()
    } else {
        friend_id_fields(friends.drop_last()) + if friends.last() == 0 {
            Seq::empty()
        } else {
            fixed64_field(2, friends.last())
        }
    }
}

/// A request on the wire.
pub open spec fn request_bytes(requested: u32, friends: Seq<u64>) -> Seq<u8> {
    (if requested == 0 {
        Seq::empty()
    } else {
        varint_field(1, requested as nat)
    }) + friend_id_fields(friends)
}

impl CMsgClientRequestFriendData {
    /// The request on the wire.
    pub fn serialize(&self) -> (out: Vec<u8>)
        ensures
            out@ == request_bytes(self.persona_state_requested, self.friends@),
    {
        let mut out: Vec<u8> = Vec::new();
        let mut w = Writer::new(&mut out);
        w.uint32_field(1, self.persona_state_requested);
        let ghost head = w.out@;
        let ghost last = final(w.out)@;
        proof {
            assert(head + friend_id_fields(self.friends@.take(0)) == head);
        }
        for i in 0..self.friends.len()
            invariant
                w.out@ == head + friend_id_fields(self.friends@.take(i as int)),
                final(w.out)@ == last,
        {
            let ghost before = friend_id_fields(self.friends@.take(i as int));
            proof {
                assert(self.friends@.take(i + 1).drop_last() == self.friends@.take(i as int));
                assert(self.friends@.take(i + 1).last() == self.friends@[i as int]);
            }
            let id = self.friends[i];
            w.fixed64_field(2, id);
            proof {
                assert(w.out@ == head + friend_id_fields(self.friends@.take(i + 1)));
            }
        }
        proof {
            assert(self.friends@.take(self.friends@.len() as int) == self.friends@);
        }
        out
    }
}

// ---------------------------------------------------------------------------
// Rich presence
// ---------------------------------------------------------------------------

/// The key and the value of a rich presence message, read on from what was
/// found before. Only the field number decides how a payload is read.
pub open spec fn kv_from(bytes: Seq<u8>, key: Seq<char>, value: Seq<char>) -> Option<
    (Seq<char>, Seq<char>),
>
    decreases bytes.len(),
{
    if bytes.len() == 0 {
        Some((key, value))
    } else {
        match read_tag(bytes) {
            Some((tag, size)) => {
                let rest = bytes.skip(size as int);
                if size == 0 || size > bytes.len() {
                    None
                } else if tag.field_number == 1 {
                    match read_string(rest) {
                        Some((text, more)) => kv_from(rest.skip(more as int), text, value),
                        None => None,
                    }
                } else if tag.field_number == 2 {
                    match read_string(rest) {
                        Some((text, more)) => kv_from(rest.skip(more as int), key, text),
                        None => None,
                    }
                } else {
                    match read_payload(rest, tag.wire_type) {
                        Some((_, more)) => kv_from(rest.skip(more as int), key, value),
                        None => None,
                    }
                }
            },
            None => None,
        }
    }
}

/// The key and the value of a rich presence message.
pub open spec fn kv_of(bytes: Seq<u8>) -> Option<(Seq<char>, Seq<char>)> {
    kv_from(bytes, Seq::empty(), Seq::empty())
}

/// Reads a rich presence message. Where a field stands twice, the last one
/// counts; a field that is missing is empty.
pub fn parse_kv_submessage(body: &[u8]) -> (pair: Option<(String, String)>)
    ensures
        match pair {
            Some((key, value)) => kv_of(body@) == Some((key@, value@)),
            None => kv_of(body@) is None,
        },
{
    let mut reader = Reader::new(body);
    let mut key = String::new();
    let mut value = String::new();
    while !reader.eof()
        invariant
            reader.is_ok(),
            kv_of(body@) == kv_from(reader.rest(), key@, value@),
        decreases reader.rest().len(),
    {
        let ghost rest = reader.rest();
        proof {
            lemma_read_within(rest);
        }
        let tag = match reader.next_tag() {
            Some(tag) => tag,
            None => {
                return if reader.ok() {
                    Some((key, value))
                } else {
                    None
                };
            },
        };
        proof {
            lemma_read_within(reader.rest());
            lemma_payload_size(reader.rest(), tag.wire_type);
        }
        if tag.field_number == 1 {
            key = match reader.string() {
                Some(text) => text,
                None => {
                    return None;
                },
            };
        } else if tag.field_number == 2 {
            value = match reader.string() {
                Some(text) => text,
                None => {
                    return None;
                },
            };
        } else if !reader.skip(tag.wire_type) {
            return None;
        }
    }
    Some((key, value))
}

// ---------------------------------------------------------------------------
// A friend's persona state
// ---------------------------------------------------------------------------

/// What a push says of one friend.
#[derive(Clone, Debug, Eq, PartialEq)]
pub struct PersonaStateFriend {
    pub friendid: u64,
    pub persona_state: u32,
    pub game_played_app_id: u32,
    pub player_name: String,
    pub avatar_hash: Vec<u8>,
    pub game_name: String,
    pub gameid: u64,
    pub rich_presence: Vec<(String, String)>,
    // None: the field was absent, so what is known stays; Some(0): it was cleared.
    pub game_lobby_id: Option<u64>,
    pub game_server_ip: Option<u32>,
    pub game_server_port: Option<u32>,
    pub has_persona_state: bool,
    pub has_game: bool,
}

/// A friend's persona state by its values.
#[verifier::ext_equal]
pub struct PersonaStateFriendView {
    pub friendid: u64,
    pub persona_state: u32,
    pub game_played_app_id: u32,
    pub player_name: Seq<char>,
    pub avatar_hash: Seq<u8>,
    pub game_name: Seq<char>,
    pub gameid: u64,
    pub rich_presence: Seq<(Seq<char>, Seq<char>)>,
    pub game_lobby_id: Option<u64>,
    pub game_server_ip: Option<u32>,
    pub game_server_port: Option<u32>,
    pub has_persona_state: bool,
    pub has_game: bool,
}

/// Pairs of strings by their texts.
pub open spec fn pairs_view(pairs: Seq<(String, String)>) -> Seq<(Seq<char>, Seq<char>)> {
    pairs.map_values(|pair: (String, String)| (pair.0@, pair.1@))
}

impl View for PersonaStateFriend {
    type V = PersonaStateFriendView;

    open spec fn view(&self) -> PersonaStateFriendView {
        PersonaStateFriendView {
            friendid: self.friendid,
            persona_state: self.persona_state,
            game_played_app_id: self.game_played_app_id,
            player_name: self.player_name@,
            avatar_hash: self.avatar_hash@,
            game_name: self.game_name@,
            gameid: self.gameid,
            rich_presence: pairs_view(self.rich_presence@),
            game_lobby_id: self.game_lobby_id,
            game_server_ip: self.game_server_ip,
            game_server_port: self.game_server_port,
            has_persona_state: self.has_persona_state,
            has_game: self.has_game,
        }
    }
}

/// A friend of whom nothing is said.
pub open spec fn unknown_friend() -> PersonaStateFriendView {
    PersonaStateFriendView {
        friendid: 0,
        persona_state: 0,
        game_played_app_id: 0,
        player_name: Seq::empty(),
        avatar_hash: Seq::empty(),
        game_name: Seq::empty(),
        gameid: 0,
        rich_presence: Seq::empty(),
        game_lobby_id: None,
        game_server_ip: None,
        game_server_port: None,
        has_persona_state: false,
        has_game: false,
    }
}

impl Default for PersonaStateFriend {
    fn default() -> (msg: Self)
        ensures
            msg@ == unknown_friend(),
    {
        PersonaStateFriend {
            friendid: 0,
            persona_state: 0,
            game_played_app_id: 0,
            player_name: String::new(),
            avatar_hash: Vec::new(),
            game_name: String::new(),
            gameid: 0,
            rich_presence: Vec::new(),
            game_lobby_id: None,
            game_server_ip: None,
            game_server_port: None,
            has_persona_state: false,
            has_game: false,
        }
    }
}

/// The lowest 32 bits of a number.
pub open spec fn low32(value: u64) -> u32 {
    (value % 0x1_0000_0000) as u32
}

/// What a field says of a friend; nothing where its text is not UTF-8 or its
/// rich presence cannot be read. A field of another number, or with a payload
/// of another shape, says nothing new.
pub open spec fn apply_field(friend: PersonaStateFriendView, field: Field) -> Option<
    PersonaStateFriendView,
> {
    match field.payload {
        Payload::Fixed64(value) => Some(
            if field.number == 1 {
                PersonaStateFriendView { friendid: value, ..friend }
            } else if field.number == 56 {
                PersonaStateFriendView { gameid: value, ..friend }
            } else if field.number == 73 {
                PersonaStateFriendView { game_lobby_id: Some(value), ..friend }
            } else {
                friend
            },
        ),
        Payload::Varint(value) => Some(
            if field.number == 2 {
                PersonaStateFriendView {
                    persona_state: low32(value),
                    has_persona_state: true,
                    ..friend
                }
            } else if field.number == 3 {
                PersonaStateFriendView {
                    game_played_app_id: low32(value),
                    has_game: true,
                    ..friend
                }
            } else if field.number == 4 {
                PersonaStateFriendView { game_server_ip: Some(low32(value)), ..friend }
            } else if field.number == 5 {
                PersonaStateFriendView { game_server_port: Some(low32(value)), ..friend }
            } else {
                friend
            },
        ),
        Payload::Run(run) => if field.number == 15 {
            if valid_utf8(run) {
                Some(PersonaStateFriendView { player_name: decode_utf8(run), ..friend })
            } else {
                None
            }
        } else if field.number == 31 {
            Some(PersonaStateFriendView { avatar_hash: run, ..friend })
        } else if field.number == 55 {
            if valid_utf8(run) {
                Some(PersonaStateFriendView { game_name: decode_utf8(run), ..friend })
            } else {
                None
            }
        } else if field.number == 71 {
            match kv_of(run) {
                Some(pair) => Some(
                    PersonaStateFriendView {
                        rich_presence: friend.rich_presence.push(pair),
                        ..friend
                    },
                ),
                None => None,
            }
        } else {
            Some(friend)
        },
        Payload::Fixed32(_) => Some(friend),
    }
}

/// What a row of fields says of a friend, beyond what was known before.
pub open spec fn apply_fields(friend: PersonaStateFriendView, row: Seq<Field>) -> Option<
    PersonaStateFriendView,
>
    decreases row.len(),
{
    if row.len() == 0 {
        Some(friend)
    } else {
        match apply_field(friend, row[0]) {
            Some(next) => apply_fields(next, row.skip(1)),
            None => None,
        }
    }
}

/// The friend that a message speaks of.
pub open spec fn friend_of(bytes: Seq<u8>) -> Option<PersonaStateFriendView> {
    match fields(bytes) {
        Some(row) => apply_fields(unknown_friend(), row),
        None => None,
    }
}

/// Reading on from some point of a message.
#[verifier::opaque]
spec fn friend_from(bytes: Seq<u8>, friend: PersonaStateFriendView) -> Option<
    PersonaStateFriendView,
> {
    match fields(bytes) {
        Some(row) => apply_fields(friend, row),
        None => None,
    }
}

/// Reading on takes the next field, then what follows it.
proof fn lemma_friend_step(bytes: Seq<u8>, friend: PersonaStateFriendView)
    requires
        bytes.len() > 0,
    ensures
        friend_from(bytes, friend) == match read_field(bytes) {
            Some((field, size)) => match apply_field(friend, field) {
                Some(next) => friend_from(bytes.skip(size as int), next),
                None => None,
            },
            None => None,
        },
{
    reveal(friend_from);
    lemma_field_within(bytes);
    if let Some((field, size)) = read_field(bytes) {
        if let Some(more) = fields(bytes.skip(size as int)) {
            assert((seq![field] + more).skip(1) == more);
        }
    }
}

impl PersonaStateFriend {
    /// Reads the payload behind a tag, and takes what it says.
    fn read_field(&mut self, reader: &mut Reader<'_>, tag: Tag) -> (taken: bool)
        ensures
            match read_payload(old(reader).rest(), tag.wire_type) {
                Some((payload, size)) => match apply_field(
                    old(self)@,
                    Field { number: tag.field_number, payload },
                ) {
                    Some(next) => {
                        &&& taken
                        &&& final(self)@ == next
                        &&& final(reader).rest() == old(reader).rest().skip(size as int)
                        &&& final(reader).is_ok() == old(reader).is_ok()
                    },
                    None => !taken,
                },
                None => !taken,
            },
    {
        proof {
            lemma_payload_size(reader.rest(), tag.wire_type);
        }
        match (tag.field_number, tag.wire_type) {
            (1, WireType::Fixed64) => match reader.fixed64() {
                Some(value) => self.friendid = value,
                None => {
                    return false;
                },
            },
            (2, WireType::Varint) => match reader.u32() {
                Some(value) => {
                    self.persona_state = value;
                    self.has_persona_state = true;
                },
                None => {
                    return false;
                },
            },
            (3, WireType::Varint) => match reader.u32() {
                Some(value) => {
                    self.game_played_app_id = value;
                    self.has_game = true;
                },
                None => {
                    return false;
                },
            },
            (4, WireType::Varint) => match reader.u32() {
                Some(value) => self.game_server_ip = Some(value),
                None => {
                    return false;
                },
            },
            (5, WireType::Varint) => match reader.u32() {
                Some(value) => self.game_server_port = Some(value),
                None => {
                    return false;
                },
            },
            (15, WireType::LengthDelimited) => match reader.string() {
                Some(text) => self.player_name = text,
                None => {
                    return false;
                },
            },
            (31, WireType::LengthDelimited) => match reader.bytes() {
                Some(run) => self.avatar_hash = vstd::slice::slice_to_vec(run),
                None => {
                    return false;
                },
            },
            (55, WireType::LengthDelimited) => match reader.string() {
                Some(text) => self.game_name = text,
                None => {
                    return false;
                },
            },
            (56, WireType::Fixed64) => match reader.fixed64() {
                Some(value) => self.gameid = value,
                None => {
                    return false;
                },
            },
            (71, WireType::LengthDelimited) => match reader.bytes() {
                Some(run) => match parse_kv_submessage(run) {
                    Some(pair) => {
                        let ghost known = self.rich_presence@;
                        self.rich_presence.push(pair);
                        proof {
                            assert(pairs_view(self.rich_presence@) == pairs_view(known).push(
                                (pair.0@, pair.1@),
                            ));
                        }
                    },
                    None => {
                        return false;
                    },
                },
                None => {
                    return false;
                },
            },
            (73, WireType::Fixed64) => match reader.fixed64() {
                Some(value) => self.game_lobby_id = Some(value),
                None => {
                    return false;
                },
            },
            _ => {
                return reader.skip(tag.wire_type);
            },
        }
        true
    }

    /// Reads what a push says of one friend.
    pub fn deserialize(body: &[u8]) -> (msg: Option<Self>)
        ensures
            match msg {
                Some(msg) => friend_of(body@) == Some(msg@),
                None => friend_of(body@) is None,
            },
    {
        let mut reader = Reader::new(body);
        let mut msg = PersonaStateFriend::default();
        proof {
            reveal(friend_from);
        }
        while !reader.eof()
            invariant
                reader.is_ok(),
                friend_of(body@) == friend_from(reader.rest(), msg@),
            decreases reader.rest().len(),
        {
            let ghost rest = reader.rest();
            let ghost before = msg@;
            proof {
                lemma_read_within(rest);
                lemma_field_within(rest);
                lemma_friend_step(rest, before);
            }
            let tag = match reader.next_tag() {
                Some(tag) => tag,
                None => {
                    return if reader.ok() {
                        Some(msg)
                    } else {
                        None
                    };
                },
            };
            let ghost behind = reader.rest();
            if !msg.read_field(&mut reader, tag) {
                return None;
            }
            proof {
                let (payload, more) = read_payload(behind, tag.wire_type)->0;
                let (field, size) = read_field(rest)->0;
                assert(rest.skip(size as int) == behind.skip(more as int));
            }
        }
        proof {
            assert(fields(reader.rest()) == Some(Seq::<Field>::empty()));
        }
        Some(msg)
    }
}

// ---------------------------------------------------------------------------
// A push of persona states
// ---------------------------------------------------------------------------

/// A push of persona states.
#[derive(Clone, Debug, Eq, PartialEq)]
pub struct CMsgClientPersonaState {
    pub status_flags: u32,
    pub friends: Vec<PersonaStateFriend>,
}

/// A push of persona states by its values.
#[verifier::ext_equal]
pub struct CMsgClientPersonaStateView {
    pub status_flags: u32,
    pub friends: Seq<PersonaStateFriendView>,
}

/// Friends by their values.
pub open spec fn friends_view(friends: Seq<PersonaStateFriend>) -> Seq<PersonaStateFriendView> {
    friends.map_values(|friend: PersonaStateFriend| friend@)
}

impl View for CMsgClientPersonaState {
    type V = CMsgClientPersonaStateView;

    open spec fn view(&self) -> CMsgClientPersonaStateView {
        CMsgClientPersonaStateView {
            status_flags: self.status_flags,
            friends: friends_view(self.friends@),
        }
    }
}

/// A push that says nothing.
pub open spec fn empty_push() -> CMsgClientPersonaStateView {
    CMsgClientPersonaStateView { status_flags: 0, friends: Seq::empty() }
}

impl Default for CMsgClientPersonaState {
    fn default() -> (msg: Self)
        ensures
            msg@ == empty_push(),
    {
        CMsgClientPersonaState { status_flags: 0, friends: Vec::new() }
    }
}

/// What a push says, read on from what was found before. Only the field
/// number decides how a payload is read.
pub open spec fn push_from(bytes: Seq<u8>, push: CMsgClientPersonaStateView) -> Option<
    CMsgClientPersonaStateView,
>
    decreases bytes.len(),
{
    if bytes.len() == 0 {
        Some(push)
    } else {
        match read_tag(bytes) {
            Some((tag, size)) => {
                let rest = bytes.skip(size as int);
                if size == 0 || size > bytes.len() {
                    None
                } else if tag.field_number == 1 {
                    match read_u32(rest) {
                        Some((value, more)) => push_from(
                            rest.skip(more as int),
                            CMsgClientPersonaStateView { status_flags: value, ..push },
                        ),
                        None => None,
                    }
                } else if tag.field_number == 2 {
                    match read_bytes(rest) {
                        Some((run, more)) => match friend_of(run) {
                            Some(friend) => push_from(
                                rest.skip(more as int),
                                CMsgClientPersonaStateView {
                                    friends: push.friends.push(friend),
                                    ..push
                                },
                            ),
                            None => None,
                        },
                        None => None,
                    }
                } else {
                    match read_payload(rest, tag.wire_type) {
                        Some((_, more)) => push_from(rest.skip(more as int), push),
                        None => None,
                    }
                }
            },
            None => None,
        }
    }
}

/// What a push says.
pub open spec fn push_of(bytes: Seq<u8>) -> Option<CMsgClientPersonaStateView> {
    push_from(bytes, empty_push())
}

impl CMsgClientPersonaState {
    /// Reads a push of persona states.
    pub fn deserialize(body: &[u8]) -> (msg: Option<Self>)
        ensures
            match msg {
                Some(msg) => push_of(body@) == Some(msg@),
                None => push_of(body@) is None,
            },
    {
        let mut reader = Reader::new(body);
        let mut msg = CMsgClientPersonaState::default();
        while !reader.eof()
            invariant
                reader.is_ok(),
                push_of(body@) == push_from(reader.rest(), msg@),
            decreases reader.rest().len(),
        {
            let ghost rest = reader.rest();
            proof {
                lemma_read_within(rest);
            }
            let tag = match reader.next_tag() {
                Some(tag) => tag,
                None => {
                    return if reader.ok() {
                        Some(msg)
                    } else {
                        None
                    };
                },
            };
            proof {
                lemma_read_within(reader.rest());
                lemma_payload_size(reader.rest(), tag.wire_type);
            }
            if tag.field_number == 1 {
                match reader.u32() {
                    Some(value) => msg.status_flags = value,
                    None => {
                        return None;
                    },
                }
            } else if tag.field_number == 2 {
                match reader.bytes() {
                    Some(run) => match PersonaStateFriend::deserialize(run) {
                        Some(friend) => {
                            let ghost known = msg.friends@;
                            let ghost value = friend@;
                            msg.friends.push(friend);
                            proof {
                                assert(friends_view(msg.friends@) == friends_view(known).push(
                                    value,
                                ));
                            }
                        },
                        None => {
                            return None;
                        },
                    },
                    None => {
                        return None;
                    },
                }
            } else if !reader.skip(tag.wire_type) {
                return None;
            }
        }
        Some(msg)
    }
}

// ---------------------------------------------------------------------------
// Laws: the request
// ---------------------------------------------------------------------------

/// The fields of the friends asked for.
pub open spec fn friend_id_row(friends: Seq<u64>) -> Seq<Field>
    decreases friends.len(),
{
    if friends.len() == 0 {
        Seq::empty()
    } else if friends.last() == 0 {
        friend_id_row(friends.drop_last())
    } else {
        friend_id_row(friends.drop_last()).push(
            Field { number: 2, payload: Payload::Fixed64(friends.last()) },
        )
    }
}

/// The service reads in a request what was asked: the state, unless it is
/// zero, and the ids in order, without zeros.
pub proof fn law_request_fields(requested: u32, friends: Seq<u64>)
    ensures
        fields(request_bytes(requested, friends)) == Some(
            (if requested == 0 {
                Seq::empty()
            } else {
                seq![Field { number: 1, payload: Payload::Varint(requested as u64) }]
            }) + friend_id_row(friends),
        ),
    decreases friends.len(),
{
    let empty = Seq::<u8>::empty();
    let none = Seq::<Field>::empty();
    let head = if requested == 0 {
        empty
    } else {
        varint_field(1, requested as nat)
    };
    let head_row = if requested == 0 {
        none
    } else {
        seq![Field { number: 1, payload: Payload::Varint(requested as u64) }]
    };
    if friends.len() == 0 {
        assert(head + friend_id_fields(friends) == head);
        assert(head_row + friend_id_row(friends) == head_row);
        assert(fields(empty) == Some(none));
        if requested != 0 {
            law_varint_field_roundtrip(1, requested as u64, empty);
            assert(head + empty == head);
            lemma_field_within(head);
            lemma_single_field(head, head_row[0]);
        }
    } else {
        let init = friends.drop_last();
        let id = friends.last();
        law_request_fields(requested, init);
        let before = request_bytes(requested, init);
        if id == 0 {
            assert(request_bytes(requested, friends) == before);
        } else {
            let last = fixed64_field(2, id);
            let field = Field { number: 2, payload: Payload::Fixed64(id) };
            assert(request_bytes(requested, friends) == before + last);
            law_fixed64_field_roundtrip(2, id, empty);
            assert(last + empty == last);
            lemma_field_within(last);
            lemma_single_field(last, field);
            law_fields_concat(before, last);
            assert((head_row + friend_id_row(init)) + seq![field] == head_row + friend_id_row(
                friends,
            ));
        }
    }
}

// ---------------------------------------------------------------------------
// Laws: a friend
// ---------------------------------------------------------------------------

proof fn lemma_apply_concat(friend: PersonaStateFriendView, first: Seq<Field>, second: Seq<Field>)
    ensures
        apply_fields(friend, first + second) == match apply_fields(friend, first) {
            Some(next) => apply_fields(next, second),
            None => None,
        },
    decreases first.len(),
{
    if first.len() == 0 {
        assert(first + second == second);
    } else {
        assert((first + second)[0] == first[0]);
        assert((first + second).skip(1) == first.skip(1) + second);
        if let Some(next) = apply_field(friend, first[0]) {
            lemma_apply_concat(next, first.skip(1), second);
        }
    }
}

/// What is appended to a readable message is read on top of what the message
/// said.
pub proof fn law_friend_concat(first: Seq<u8>, second: Seq<u8>)
    requires
        fields(first) is Some,
    ensures
        friend_of(first + second) == match (friend_of(first), fields(second)) {
            (Some(friend), Some(row)) => apply_fields(friend, row),
            _ => None,
        },
{
    law_fields_concat(first, second);
    if let Some(row) = fields(second) {
        lemma_apply_concat(unknown_friend(), fields(first)->0, row);
    }
}

/// The fields that say something of a friend.
pub open spec fn is_known(field: Field) -> bool {
    match field.payload {
        Payload::Fixed64(_) => field.number == 1 || field.number == 56 || field.number == 73,
        Payload::Varint(_) => 2 <= field.number <= 5,
        Payload::Run(_) => field.number == 15 || field.number == 31 || field.number == 55
            || field.number == 71,
        Payload::Fixed32(_) => false,
    }
}

/// A field of another number, or of another shape, is passed over: the
/// message says the same with it and without it.
pub proof fn law_unknown_field_skipped(first: Seq<u8>, field: Field, bytes: Seq<u8>, second: Seq<u8>)
    requires
        fields(first) is Some,
        read_field(bytes) == Some((field, bytes.len())),
        !is_known(field),
    ensures
        friend_of(first + bytes + second) == friend_of(first + second),
{
    lemma_field_within(bytes);
    lemma_single_field(bytes, field);
    law_fields_concat(first, bytes);
    law_friend_concat(first + bytes, second);
    law_friend_concat(first, bytes);
    law_friend_concat(first, second);
    if let Some(friend) = friend_of(first) {
        assert(seq![field].skip(1) == Seq::<Field>::empty());
        assert(apply_fields(friend, seq![field]) == apply_fields(friend, seq![field].skip(1)));
    }
}

/// The last eight-byte payload under a number.
pub open spec fn last_fixed64(row: Seq<Field>, number: u32) -> Option<u64>
    decreases row.len(),
{
    if row.len() == 0 {
        None
    } else {
        match row.last().payload {
            Payload::Fixed64(value) if row.last().number == number => Some(value),
            _ => last_fixed64(row.drop_last(), number),
        }
    }
}

/// The last varint payload under a number.
pub open spec fn last_varint(row: Seq<Field>, number: u32) -> Option<u64>
    decreases row.len(),
{
    if row.len() == 0 {
        None
    } else {
        match row.last().payload {
            Payload::Varint(value) if row.last().number == number => Some(value),
            _ => last_varint(row.drop_last(), number),
        }
    }
}

/// The last run of bytes under a number.
pub open spec fn last_run(row: Seq<Field>, number: u32) -> Option<Seq<u8>>
    decreases row.len(),
{
    if row.len() == 0 {
        None
    } else {
        match row.last().payload {
            Payload::Run(run) if row.last().number == number => Some(run),
            _ => last_run(row.drop_last(), number),
        }
    }
}

/// The rich presence pairs, in order.
pub open spec fn presence(row: Seq<Field>) -> Seq<(Seq<char>, Seq<char>)>
    decreases row.len(),
{
    if row.len() == 0 {
        Seq::empty()
    } else {
        let before = presence(row.drop_last());
        match row.last().payload {
            Payload::Run(run) if row.last().number == 71 => before.push(kv_of(run)->0),
            _ => before,
        }
    }
}

/// The texts of a row are UTF-8, and its rich presence messages are readable.
pub open spec fn readable(field: Field) -> bool {
    match field.payload {
        Payload::Run(run) => {
            &&& field.number == 15 || field.number == 55 ==> valid_utf8(run)
            &&& field.number == 71 ==> kv_of(run) is Some
        },
        _ => true,
    }
}

/// The friend that a readable row of fields speaks of: of each field the last
/// one counts, but every rich presence pair does.
pub open spec fn described(row: Seq<Field>) -> PersonaStateFriendView {
    PersonaStateFriendView {
        friendid: match last_fixed64(row, 1) {
            Some(value) => value,
            None => 0,
        },
        persona_state: match last_varint(row, 2) {
            Some(value) => low32(value),
            None => 0,
        },
        game_played_app_id: match last_varint(row, 3) {
            Some(value) => low32(value),
            None => 0,
        },
        player_name: match last_run(row, 15) {
            Some(run) => decode_utf8(run),
            None => Seq::empty(),
        },
        avatar_hash: match last_run(row, 31) {
            Some(run) => run,
            None => Seq::empty(),
        },
        game_name: match last_run(row, 55) {
            Some(run) => decode_utf8(run),
            None => Seq::empty(),
        },
        gameid: match last_fixed64(row, 56) {
            Some(value) => value,
            None => 0,
        },
        rich_presence: presence(row),
        game_lobby_id: last_fixed64(row, 73),
        game_server_ip: match last_varint(row, 4) {
            Some(value) => Some(low32(value)),
            None => None,
        },
        game_server_port: match last_varint(row, 5) {
            Some(value) => Some(low32(value)),
            None => None,
        },
        has_persona_state: last_varint(row, 2) is Some,
        has_game: last_varint(row, 3) is Some,
    }
}

/// One more field says what `apply_field` says.
proof fn lemma_described_push(row: Seq<Field>, field: Field)
    requires
        readable(field),
    ensures
        apply_field(described(row), field) == Some(described(row.push(field))),
{
    let all = row.push(field);
    assert(all.drop_last() == row);
    assert(all.last() == field);
    assert forall|number: u32| #[trigger] last_fixed64(all, number) == match field.payload {
        Payload::Fixed64(value) if field.number == number => Some(value),
        _ => last_fixed64(row, number),
    } by {}
    assert forall|number: u32| #[trigger] last_varint(all, number) == match field.payload {
        Payload::Varint(value) if field.number == number => Some(value),
        _ => last_varint(row, number),
    } by {}
    assert forall|number: u32| #[trigger] last_run(all, number) == match field.payload {
        Payload::Run(run) if field.number == number => Some(run),
        _ => last_run(row, number),
    } by {}
    match field.payload {
        Payload::Fixed64(_) => {},
        Payload::Varint(_) => {},
        Payload::Run(_) => {},
        Payload::Fixed32(_) => {},
    }
}

proof fn lemma_described(row: Seq<Field>)
    ensures
        apply_fields(unknown_friend(), row) == (if forall|i: int|
            0 <= i < row.len() ==> readable(#[trigger] row[i]) {
            Some(described(row))
        } else {
            None
        }),
    decreases row.len(),
{
    if row.len() == 0 {
        assert(described(row) == unknown_friend());
    } else {
        let init = row.drop_last();
        let last = row.last();
        lemma_described(init);
        assert(init + seq![last] == row);
        assert(init.push(last) == row);
        lemma_apply_concat(unknown_friend(), init, seq![last]);
        lemma_apply_single(described(init), last);
        assert(row[row.len() - 1] == last);
        if forall|i: int| 0 <= i < init.len() ==> readable(#[trigger] init[i]) {
            if readable(last) {
                assert forall|i: int| 0 <= i < row.len() implies readable(#[trigger] row[i]) by {
                    if i < init.len() {
                        assert(row[i] == init[i]);
                    }
                }
                lemma_described_push(init, last);
            }
        } else {
            let i = choose|i: int| 0 <= i < init.len() && !readable(#[trigger] init[i]);
            assert(!readable(row[i]));
        }
    }
}

/// One field on its own; an unreadable one is refused.
proof fn lemma_apply_single(friend: PersonaStateFriendView, field: Field)
    ensures
        apply_fields(friend, seq![field]) == apply_field(friend, field),
        !readable(field) ==> apply_field(friend, field) is None,
{
    let row = seq![field];
    assert(row.skip(1) == Seq::<Field>::empty());
    if let Some(next) = apply_field(friend, field) {
        assert(apply_fields(next, row.skip(1)) == Some(next));
    }
}

/// A message is refused exactly where it cannot be read as fields, holds a
/// name that is not UTF-8, or a rich presence message that cannot be read.
/// Otherwise it says of a friend what the last field of each kind says; a
/// lobby or a server is there if and only if its field is, be it zero.
pub proof fn law_friend_described(bytes: Seq<u8>)
    ensures
        friend_of(bytes) == match fields(bytes) {
            Some(row) => if forall|i: int| 0 <= i < row.len() ==> readable(#[trigger] row[i]) {
                Some(described(row))
            } else {
                None
            },
            None => None,
        },
{
    if let Some(row) = fields(bytes) {
        lemma_described(row);
    }
}

// ---------------------------------------------------------------------------
// Laws: rich presence and pushes
// ---------------------------------------------------------------------------

/// A key and a value that are written are read back.
pub proof fn law_kv_roundtrip(key: Seq<char>, value: Seq<char>)
    requires
        encode_utf8(key).len() <= u64::MAX,
        encode_utf8(value).len() <= u64::MAX,
    ensures
        kv_of(run_field(1, encode_utf8(key)) + run_field(2, encode_utf8(value))) == Some(
            (key, value),
        ),
{
    let empty = Seq::<u8>::empty();
    let second = run_field(2, encode_utf8(value));
    lemma_kv_text(1, key, second);
    lemma_kv_text(2, value, empty);
    assert(second + empty == second);
    let bytes = run_field(1, encode_utf8(key)) + second;
    assert(kv_from(bytes, Seq::empty(), Seq::empty()) == kv_from(second, key, Seq::empty()));
    assert(kv_from(second, key, Seq::empty()) == kv_from(empty, key, value));
}

/// A text field is read, and what follows it is read on.
proof fn lemma_kv_text(number: u32, text: Seq<char>, rest: Seq<u8>)
    requires
        number == 1 || number == 2,
        encode_utf8(text).len() <= u64::MAX,
    ensures
        forall|key: Seq<char>, value: Seq<char>| #[trigger]
            kv_from(run_field(number, encode_utf8(text)) + rest, key, value) == if number == 1 {
                kv_from(rest, text, value)
            } else {
                kv_from(rest, key, text)
            },
{
    let run = encode_utf8(text);
    let tag = tag_bytes(number, WireType::LengthDelimited);
    let payload = varint_bytes(run.len()) + run;
    let bytes = run_field(number, run) + rest;
    law_tag_roundtrip(number, WireType::LengthDelimited, payload + rest);
    law_string_roundtrip(text, rest);
    assert(bytes == tag + (payload + rest));
    lemma_read_within(bytes);
    assert(bytes.skip(tag.len() as int) == payload + rest);
    assert((payload + rest).skip(payload.len() as int) == rest);
}

/// A friend's message that is written into a push is read as that friend, and
/// what follows it is read on.
pub proof fn law_push_friend(message: Seq<u8>, rest: Seq<u8>, push: CMsgClientPersonaStateView)
    requires
        message.len() <= u64::MAX,
    ensures
        push_from(run_field(2, message) + rest, push) == match friend_of(message) {
            Some(friend) => push_from(
                rest,
                CMsgClientPersonaStateView { friends: push.friends.push(friend), ..push },
            ),
            None => None,
        },
{
    let tag = tag_bytes(2, WireType::LengthDelimited);
    let payload = varint_bytes(message.len()) + message;
    let bytes = run_field(2, message) + rest;
    law_tag_roundtrip(2, WireType::LengthDelimited, payload + rest);
    law_bytes_roundtrip(message, rest);
    assert(bytes == tag + (payload + rest));
    lemma_read_within(bytes);
    assert(bytes.skip(tag.len() as int) == payload + rest);
    assert((payload + rest).skip(payload.len() as int) == rest);
}

/// Status flags that are written into a push are read, and what follows them
/// is read on.
pub proof fn law_push_status(status_flags: u32, rest: Seq<u8>, push: CMsgClientPersonaStateView)
    ensures
        push_from(varint_field(1, status_flags as nat) + rest, push) == push_from(
            rest,
            CMsgClientPersonaStateView { status_flags, ..push },
        ),
{
    let tag = tag_bytes(1, WireType::Varint);
    let payload = varint_bytes(status_flags as nat);
    let bytes = varint_field(1, status_flags as nat) + rest;
    law_tag_roundtrip(1, WireType::Varint, payload + rest);
    law_u32_roundtrip(status_flags, rest);
    assert(bytes == tag + (payload + rest));
    lemma_read_within(bytes);
    assert(bytes.skip(tag.len() as int) == payload + rest);
    assert((payload + rest).skip(payload.len() as int) == rest);
}

} // verus!
