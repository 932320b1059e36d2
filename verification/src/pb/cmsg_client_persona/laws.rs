//! What each field says, for every value and after every message.
use crate::pb::cmsg_client_persona::{
    apply_field, friend_of, kv_from, kv_of, law_friend_concat, law_kv_roundtrip, lemma_apply_single,
    push_from, push_of, request_bytes, CMsgClientPersonaStateView, PersonaStateFriendView,
};
use crate::proto_wire::{
    fields, fixed64_field, law_fixed64_field_roundtrip, law_run_field_roundtrip, law_tag_roundtrip,
    law_varint_field_roundtrip, law_varint_roundtrip, le_bytes, lemma_field_within,
    lemma_read_within, lemma_single_field, read_bytes, read_field, read_payload, read_tag, run_field,
    tag_bytes, varint_bytes, varint_field, Field, Payload, WireType,
};
use vstd::prelude::*;
use vstd::utf8::{decode_utf8, encode_utf8, valid_utf8};

verus! {

// ---------------------------------------------------------------------------
// A friend
// ---------------------------------------------------------------------------

/// An empty message says nothing of a friend; one that is no row of fields is
/// refused.
pub proof fn law_nothing_said(bytes: Seq<u8>)
    ensures
        friend_of(Seq::empty()) == Some(
            (PersonaStateFriendView {
                friendid: 0,
                persona_state: 0,
                game_played_app_id: 0,
                player_name: Seq::empty(),
                avatar_hash: Seq::empty(),
                game_name: Seq::empty(),
                gameid: 0,
                rich_presence: Seq::empty(),
                game_lobby_id: None,
                game_server_ip: None,
                game_server_port: None,
                has_persona_state: false,
                has_game: false,
            }),
        ),
        fields(bytes) is None ==> friend_of(bytes) is None,
{
    assert(fields(Seq::<u8>::empty()) == Some(Seq::<Field>::empty()));
}

/// One more field is read on top of what the message said.
proof fn lemma_one_more(message: Seq<u8>, bytes: Seq<u8>, field: Field)
    requires
        fields(message) is Some,
        read_field(bytes) == Some((field, bytes.len())),
    ensures
        friend_of(message + bytes) == match friend_of(message) {
            Some(friend) => apply_field(friend, field),
            None => None,
        },
        fields(message + bytes) is Some,
{
    lemma_field_within(bytes);
    lemma_single_field(bytes, field);
    law_friend_concat(message, bytes);
    crate::proto_wire::law_fields_concat(message, bytes);
    if let Some(friend) = friend_of(message) {
        lemma_apply_single(friend, field);
    }
}

/// A number behind a message: the state, the game, and the address and port of
/// the server, each taken modulo two to the power of 32. All else stays as the
/// message said it.
pub proof fn law_number_fields(
    message: Seq<u8>,
    friend: PersonaStateFriendView,
    bytes: Seq<u8>,
    number: u32,
    value: u64,
)
    requires
        fields(message) is Some,
        friend_of(message) == Some(friend),
        read_field(bytes) == Some(
            (Field { number, payload: Payload::Varint(value) }, bytes.len()),
        ),
    ensures
        friend_of(message + bytes) matches Some(told) && {
            let low = value as int % 0x1_0000_0000;
            if number == 2 {
                told.persona_state as int == low && told.has_persona_state && told == (
                PersonaStateFriendView {
                    persona_state: told.persona_state,
                    has_persona_state: true,
                    ..friend
                })
            } else if number == 3 {
                told.game_played_app_id as int == low && told.has_game && told == (
                PersonaStateFriendView {
                    game_played_app_id: told.game_played_app_id,
                    has_game: true,
                    ..friend
                })
            } else if number == 4 {
                told.game_server_ip matches Some(ip) && ip as int == low && told == (
                PersonaStateFriendView { game_server_ip: Some(ip), ..friend })
            } else if number == 5 {
                told.game_server_port matches Some(port) && port as int == low && told == (
                PersonaStateFriendView { game_server_port: Some(port), ..friend })
            } else {
                told == friend
            }
        },
{
    lemma_one_more(message, bytes, Field { number, payload: Payload::Varint(value) });
}

/// A number of 32 bits that is written into a message is read back as it is.
pub proof fn law_written_numbers(message: Seq<u8>, friend: PersonaStateFriendView, value: u32)
    requires
        fields(message) is Some,
        friend_of(message) == Some(friend),
    ensures
        friend_of(message + varint_field(2, value as nat)) == Some(
            (PersonaStateFriendView { persona_state: value, has_persona_state: true, ..friend }),
        ),
        friend_of(message + varint_field(3, value as nat)) == Some(
            (PersonaStateFriendView { game_played_app_id: value, has_game: true, ..friend }),
        ),
        friend_of(message + varint_field(4, value as nat)) == Some(
            (PersonaStateFriendView { game_server_ip: Some(value), ..friend }),
        ),
        friend_of(message + varint_field(5, value as nat)) == Some(
            (PersonaStateFriendView { game_server_port: Some(value), ..friend }),
        ),
{
    lemma_written_number(message, friend, 2, value);
    lemma_written_number(message, friend, 3, value);
    lemma_written_number(message, friend, 4, value);
    lemma_written_number(message, friend, 5, value);
}

proof fn lemma_written_number(
    message: Seq<u8>,
    friend: PersonaStateFriendView,
    number: u32,
    value: u32,
)
    requires
        fields(message) is Some,
        friend_of(message) == Some(friend),
        2 <= number <= 5,
    ensures
        friend_of(message + varint_field(number, value as nat)) == Some(
            if number == 2 {
                (PersonaStateFriendView { persona_state: value, has_persona_state: true, ..friend })
            } else if number == 3 {
                (PersonaStateFriendView { game_played_app_id: value, has_game: true, ..friend })
            } else if number == 4 {
                (PersonaStateFriendView { game_server_ip: Some(value), ..friend })
            } else {
                (PersonaStateFriendView { game_server_port: Some(value), ..friend })
            },
        ),
{
    let bytes = varint_field(number, value as nat);
    lemma_varint_bytes_read(number, value as u64);
    law_number_fields(message, friend, bytes, number, value as u64);
}

/// A message of one number alone is read back as that number.
pub proof fn law_number_is_read_back(value: u32)
    ensures
        friend_of(varint_field(2, value as nat)) matches Some(friend) && friend.persona_state
            == value && friend.has_persona_state,
        friend_of(varint_field(3, value as nat)) matches Some(friend) && friend.game_played_app_id
            == value && friend.has_game,
        friend_of(varint_field(4, value as nat)) matches Some(friend) && friend.game_server_ip
            == Some(value),
        friend_of(varint_field(5, value as nat)) matches Some(friend) && friend.game_server_port
            == Some(value),
{
    let none = Seq::<u8>::empty();
    law_nothing_said(none);
    assert(fields(none) == Some(Seq::<Field>::empty()));
    law_written_numbers(none, friend_of(none)->0, value);
    assert(none + varint_field(2, value as nat) == varint_field(2, value as nat));
    assert(none + varint_field(3, value as nat) == varint_field(3, value as nat));
    assert(none + varint_field(4, value as nat) == varint_field(4, value as nat));
    assert(none + varint_field(5, value as nat) == varint_field(5, value as nat));
}

proof fn lemma_varint_bytes_read(number: u32, value: u64)
    requires
        1 <= number <= 73,
    ensures
        read_field(varint_field(number, value as nat)) == Some(
            (
                Field { number, payload: Payload::Varint(value) },
                varint_field(number, value as nat).len(),
            ),
        ),
{
    let bytes = varint_field(number, value as nat);
    law_varint_field_roundtrip(number, value, Seq::empty());
    assert(bytes + Seq::<u8>::empty() == bytes);
}

/// A long number behind a message: the friend, the game and the lobby; a lobby
/// of zero is a lobby that was left, and not one that was not said.
pub proof fn law_long_fields(
    message: Seq<u8>,
    friend: PersonaStateFriendView,
    bytes: Seq<u8>,
    number: u32,
    value: u64,
)
    requires
        fields(message) is Some,
        friend_of(message) == Some(friend),
        read_field(bytes) == Some(
            (Field { number, payload: Payload::Fixed64(value) }, bytes.len()),
        ),
    ensures
        friend_of(message + bytes) == Some(
            if number == 1 {
                (PersonaStateFriendView { friendid: value, ..friend })
            } else if number == 56 {
                (PersonaStateFriendView { gameid: value, ..friend })
            } else if number == 73 {
                (PersonaStateFriendView { game_lobby_id: Some(value), ..friend })
            } else {
                friend
            },
        ),
{
    lemma_one_more(message, bytes, Field { number, payload: Payload::Fixed64(value) });
}

/// A long number that is written into a message is read back as it is.
pub proof fn law_written_longs(message: Seq<u8>, friend: PersonaStateFriendView, value: u64)
    requires
        fields(message) is Some,
        friend_of(message) == Some(friend),
    ensures
        friend_of(message + fixed64_field(1, value)) == Some(
            (PersonaStateFriendView { friendid: value, ..friend }),
        ),
        friend_of(message + fixed64_field(56, value)) == Some(
            (PersonaStateFriendView { gameid: value, ..friend }),
        ),
        friend_of(message + fixed64_field(73, value)) == Some(
            (PersonaStateFriendView { game_lobby_id: Some(value), ..friend }),
        ),
{
    let none = Seq::<u8>::empty();
    law_fixed64_field_roundtrip(1, value, none);
    law_fixed64_field_roundtrip(56, value, none);
    law_fixed64_field_roundtrip(73, value, none);
    assert(fixed64_field(1, value) + none == fixed64_field(1, value));
    assert(fixed64_field(56, value) + none == fixed64_field(56, value));
    assert(fixed64_field(73, value) + none == fixed64_field(73, value));
    law_long_fields(message, friend, fixed64_field(1, value), 1, value);
    law_long_fields(message, friend, fixed64_field(56, value), 56, value);
    law_long_fields(message, friend, fixed64_field(73, value), 73, value);
}

/// A run of bytes behind a message: the names, which must be UTF-8, the avatar,
/// which may be any bytes, and one more pair of rich presence, which must be
/// readable.
pub proof fn law_run_fields(
    message: Seq<u8>,
    friend: PersonaStateFriendView,
    bytes: Seq<u8>,
    number: u32,
    run: Seq<u8>,
)
    requires
        fields(message) is Some,
        friend_of(message) == Some(friend),
        read_field(bytes) == Some((Field { number, payload: Payload::Run(run) }, bytes.len())),
    ensures
        friend_of(message + bytes) == if number == 15 || number == 55 {
            if !valid_utf8(run) {
                None
            } else if number == 15 {
                Some((PersonaStateFriendView { player_name: decode_utf8(run), ..friend }))
            } else {
                Some((PersonaStateFriendView { game_name: decode_utf8(run), ..friend }))
            }
        } else if number == 31 {
            Some((PersonaStateFriendView { avatar_hash: run, ..friend }))
        } else if number == 71 {
            match kv_of(run) {
                Some(pair) => Some(
                    (PersonaStateFriendView {
                        rich_presence: friend.rich_presence.push(pair),
                        ..friend
                    }),
                ),
                None => None,
            }
        } else {
            Some(friend)
        },
{
    lemma_one_more(message, bytes, Field { number, payload: Payload::Run(run) });
}

proof fn lemma_run_bytes_read(number: u32, run: Seq<u8>)
    requires
        1 <= number <= 73,
        run.len() <= u64::MAX,
    ensures
        read_field(run_field(number, run)) == Some(
            (Field { number, payload: Payload::Run(run) }, run_field(number, run).len()),
        ),
{
    law_run_field_roundtrip(number, run, Seq::empty());
    assert(run_field(number, run) + Seq::<u8>::empty() == run_field(number, run));
}

/// Names, an avatar and a pair of rich presence that are written into a message
/// are read back as they are.
pub proof fn law_written_runs(
    message: Seq<u8>,
    friend: PersonaStateFriendView,
    text: Seq<char>,
    avatar: Seq<u8>,
)
    requires
        fields(message) is Some,
        friend_of(message) == Some(friend),
        encode_utf8(text).len() <= u64::MAX,
        avatar.len() <= u64::MAX,
    ensures
        friend_of(message + run_field(15, encode_utf8(text))) == Some(
            (PersonaStateFriendView { player_name: text, ..friend }),
        ),
        friend_of(message + run_field(55, encode_utf8(text))) == Some(
            (PersonaStateFriendView { game_name: text, ..friend }),
        ),
        friend_of(message + run_field(31, avatar)) == Some(
            (PersonaStateFriendView { avatar_hash: avatar, ..friend }),
        ),
{
    let run = encode_utf8(text);
    vstd::utf8::encode_utf8_valid_utf8(text);
    vstd::utf8::encode_utf8_decode_utf8(text);
    lemma_run_bytes_read(15, run);
    lemma_run_bytes_read(55, run);
    lemma_run_bytes_read(31, avatar);
    law_run_fields(message, friend, run_field(15, run), 15, run);
    law_run_fields(message, friend, run_field(55, run), 55, run);
    law_run_fields(message, friend, run_field(31, avatar), 31, avatar);
}

/// A pair that is written into a message comes behind those that it held.
pub proof fn law_written_pair(
    message: Seq<u8>,
    friend: PersonaStateFriendView,
    key: Seq<char>,
    value: Seq<char>,
)
    requires
        fields(message) is Some,
        friend_of(message) == Some(friend),
        encode_utf8(key).len() <= u64::MAX,
        encode_utf8(value).len() <= u64::MAX,
        (run_field(1, encode_utf8(key)) + run_field(2, encode_utf8(value))).len() <= u64::MAX,
    ensures
        friend_of(
            message + run_field(
                71,
                run_field(1, encode_utf8(key)) + run_field(2, encode_utf8(value)),
            ),
        ) == Some(
            (PersonaStateFriendView {
                rich_presence: friend.rich_presence.push((key, value)),
                ..friend
            }),
        ),
{
    let run = run_field(1, encode_utf8(key)) + run_field(2, encode_utf8(value));
    law_kv_roundtrip(key, value);
    lemma_run_bytes_read(71, run);
    law_run_fields(message, friend, run_field(71, run), 71, run);
}

/// Four bytes say nothing of a friend, under any number.
pub proof fn law_short_fields(
    message: Seq<u8>,
    friend: PersonaStateFriendView,
    bytes: Seq<u8>,
    number: u32,
    value: u32,
)
    requires
        fields(message) is Some,
        friend_of(message) == Some(friend),
        read_field(bytes) == Some(
            (Field { number, payload: Payload::Fixed32(value) }, bytes.len()),
        ),
    ensures
        friend_of(message + bytes) == Some(friend),
{
    lemma_one_more(message, bytes, Field { number, payload: Payload::Fixed32(value) });
}

// ---------------------------------------------------------------------------
// Rich presence
// ---------------------------------------------------------------------------

/// A rich presence message begins with nothing known, and ends with what is
/// known then.
pub proof fn law_pair_ends(bytes: Seq<u8>, key: Seq<char>, value: Seq<char>)
    ensures
        kv_of(bytes) == kv_from(bytes, Seq::empty(), Seq::empty()),
        kv_from(Seq::empty(), key, value) == Some((key, value)),
{
}

proof fn lemma_pair_field(number: u32, run: Seq<u8>, rest: Seq<u8>)
    requires
        1 <= number <= 0x1fff_ffff,
        run.len() <= u64::MAX,
    ensures
        ({
            let bytes = run_field(number, run) + rest;
            let size = tag_bytes(number, WireType::LengthDelimited).len();
            &&& read_tag(bytes) == Some(
                (
                    crate::proto_wire::Tag {
                        field_number: number,
                        wire_type: WireType::LengthDelimited,
                    },
                    size,
                ),
            )
            &&& 0 < size <= bytes.len()
            &&& read_bytes(bytes.skip(size as int)) matches Some((found, more)) && found == run
                && bytes.skip(size as int).skip(more as int) == rest
        }),
{
    let tag = tag_bytes(number, WireType::LengthDelimited);
    let payload = varint_bytes(run.len()) + run;
    let bytes = run_field(number, run) + rest;
    law_tag_roundtrip(number, WireType::LengthDelimited, payload + rest);
    crate::proto_wire::law_bytes_roundtrip(run, rest);
    assert(bytes == tag + (payload + rest));
    lemma_read_within(bytes);
    assert(bytes.skip(tag.len() as int) == payload + rest);
    assert((payload + rest).skip(payload.len() as int) == rest);
}

/// A text under the number one is the key, under two the value; under any other
/// number it says nothing. The last one counts, and one that is not UTF-8 makes
/// the message unreadable.
pub proof fn law_pair_texts(
    number: u32,
    run: Seq<u8>,
    rest: Seq<u8>,
    key: Seq<char>,
    value: Seq<char>,
)
    requires
        1 <= number <= 0x1fff_ffff,
        run.len() <= u64::MAX,
    ensures
        kv_from(run_field(number, run) + rest, key, value) == if number == 1 || number == 2 {
            if !valid_utf8(run) {
                None
            } else if number == 1 {
                kv_from(rest, decode_utf8(run), value)
            } else {
                kv_from(rest, key, decode_utf8(run))
            }
        } else {
            kv_from(rest, key, value)
        },
{
    lemma_pair_field(number, run, rest);
}

// ---------------------------------------------------------------------------
// Pushes
// ---------------------------------------------------------------------------

/// A push begins with no flags and no friends, and ends with what is known
/// then.
pub proof fn law_push_ends(bytes: Seq<u8>, push: CMsgClientPersonaStateView)
    ensures
        push_of(bytes) == push_from(
            bytes,
            (CMsgClientPersonaStateView { status_flags: 0, friends: Seq::empty() }),
        ),
        push_from(Seq::empty(), push) == Some(push),
{
}

/// A friend is added behind those before; under any other number from three on
/// nothing is said.
pub proof fn law_push_runs(
    number: u32,
    run: Seq<u8>,
    rest: Seq<u8>,
    push: CMsgClientPersonaStateView,
)
    requires
        2 <= number <= 0x1fff_ffff,
        run.len() <= u64::MAX,
    ensures
        push_from(run_field(number, run) + rest, push) == if number == 2 {
            match friend_of(run) {
                Some(friend) => push_from(
                    rest,
                    (CMsgClientPersonaStateView {
                        status_flags: push.status_flags,
                        friends: push.friends.push(friend),
                    }),
                ),
                None => None,
            }
        } else {
            push_from(rest, push)
        },
{
    lemma_pair_field(number, run, rest);
}

/// The flags are taken modulo two to the power of 32, and the last ones count;
/// a number under another number from three on says nothing.
pub proof fn law_push_numbers(
    number: u32,
    value: u64,
    rest: Seq<u8>,
    push: CMsgClientPersonaStateView,
)
    requires
        number == 1 || 3 <= number <= 0x1fff_ffff,
    ensures
        push_from(varint_field(number, value as nat) + rest, push) == push_from(
            rest,
            (CMsgClientPersonaStateView {
                status_flags: if number == 1 {
                    (value % 0x1_0000_0000) as u32
                } else {
                    push.status_flags
                },
                friends: push.friends,
            }),
        ),
{
    let tag = tag_bytes(number, WireType::Varint);
    let payload = varint_bytes(value as nat);
    let bytes = varint_field(number, value as nat) + rest;
    law_tag_roundtrip(number, WireType::Varint, payload + rest);
    law_varint_roundtrip(value, rest);
    assert(bytes == tag + (payload + rest));
    lemma_read_within(bytes);
    assert(bytes.skip(tag.len() as int) == payload + rest);
    assert((payload + rest).skip(payload.len() as int) == rest);
}

/// A field of any other number, whatever its payload, is passed over, in a pair
/// as in a push; what is no field makes both unreadable.
pub proof fn law_other_fields_are_passed_over(
    bytes: Seq<u8>,
    key: Seq<char>,
    value: Seq<char>,
    push: CMsgClientPersonaStateView,
)
    requires
        bytes.len() > 0,
    ensures
        match read_field(bytes) {
            Some((field, size)) => field.number >= 3 ==> {
                &&& kv_from(bytes, key, value) == kv_from(bytes.skip(size as int), key, value)
                &&& push_from(bytes, push) == push_from(bytes.skip(size as int), push)
            },
            None => read_tag(bytes) is None ==> kv_from(bytes, key, value) is None && push_from(
                bytes,
                push,
            ) is None,
        },
{
    if let Some((tag, size)) = read_tag(bytes) {
        lemma_read_within(bytes);
        let rest = bytes.skip(size as int);
        lemma_read_within(rest);
        if let Some((payload, more)) = read_payload(rest, tag.wire_type) {
            assert(rest.skip(more as int) == bytes.skip((size + more) as int));
        }
    }
}

// ---------------------------------------------------------------------------
// The request
// ---------------------------------------------------------------------------

/// A request holds the state that was asked for, unless it is zero, and then
/// each id but zero, in order, as eight bytes.
pub proof fn law_request_grows(requested: u32, friends: Seq<u64>, id: u64)
    ensures
        request_bytes(requested, Seq::empty()) == if requested == 0 {
            Seq::<u8>::empty()
        } else {
            seq![8u8] + varint_bytes(requested as nat)
        },
        request_bytes(requested, friends.push(id)) == request_bytes(requested, friends) + if id == 0 {
            Seq::<u8>::empty()
        } else {
            seq![17u8] + le_bytes(id as nat, 8)
        },
{
    let none = Seq::<u64>::empty();
    assert(friends.push(id).drop_last() == friends);
    crate::proto_wire::laws::law_varint_bytes(8, 0);
    crate::proto_wire::laws::law_varint_bytes(17, 0);
    crate::proto_wire::laws::law_written_fields(1, requested as nat, id, Seq::empty());
    crate::proto_wire::laws::law_written_fields(2, requested as nat, id, Seq::empty());
    assert(request_bytes(requested, none) =~= if requested == 0 {
        Seq::<u8>::empty()
    } else {
        seq![8u8] + varint_bytes(requested as nat)
    });
    assert(request_bytes(requested, friends.push(id)) =~= request_bytes(requested, friends) + if id
        == 0 {
        Seq::<u8>::empty()
    } else {
        seq![17u8] + le_bytes(id as nat, 8)
    });
}

} // verus!
