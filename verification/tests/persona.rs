//! Messages of the friends service.
use wn_steam_client::pb::cmsg_client_persona::{
    parse_kv_submessage, CMsgClientPersonaState, CMsgClientRequestFriendData, PersonaStateFriend,
};
use wn_steam_client::proto_wire::{WireType, Writer};

#[test]
fn parses_persona_state_friend_with_rich_presence() {
    let mut kv = Vec::new();
    {
        let mut w = Writer::new(&mut kv);
        w.string_field(1, "status");
        w.string_field(2, "Playing");
    }

    let mut friend = Vec::new();
    {
        let mut w = Writer::new(&mut friend);
        w.fixed64_field(1, 123);
        w.uint32_field(2, 1);
        w.uint32_field(3, 440);
        w.string_field(15, "Ada");
        w.submessage_field(71, &kv);
        w.bytes_field(31, &[1, 2, 3]);
        w.string_field(55, "Team Fortress 2");
        w.fixed64_field(56, 440);
    }

    let mut body = Vec::new();
    Writer::new(&mut body).submessage_field(2, &friend);

    let parsed = CMsgClientPersonaState::deserialize(&body).unwrap();
    let friend = &parsed.friends[0];
    assert_eq!(friend.friendid, 123);
    assert_eq!(friend.player_name, "Ada");
    assert_eq!(friend.rich_presence[0], ("status".into(), "Playing".into()));
    assert_eq!(friend.avatar_hash, [1, 2, 3]);
    assert_eq!(friend.game_name, "Team Fortress 2");
    assert!(friend.has_persona_state);
    assert!(friend.has_game);
}

#[test]
fn stateful_push_with_steamid_source_is_skipped_not_read_as_rich_presence() {
    // Field 25 is the source of the steam id, a fixed64, and no rich presence.
    let mut friend = Vec::new();
    {
        let mut w = Writer::new(&mut friend);
        w.fixed64_field(1, 77);
        w.uint32_field(2, 1);
        w.fixed64_field(25, 90071996842377216);
        w.string_field(15, "Online Friend");
    }
    let mut body = Vec::new();
    Writer::new(&mut body).submessage_field(2, &friend);

    let parsed = CMsgClientPersonaState::deserialize(&body).unwrap();
    let friend = &parsed.friends[0];
    assert_eq!(friend.friendid, 77);
    assert_eq!(friend.persona_state, 1);
    assert!(friend.has_persona_state);
    assert_eq!(friend.player_name, "Online Friend");
    assert!(friend.rich_presence.is_empty());
}

#[test]
fn parses_lobby_and_game_server_fields() {
    let mut friend = Vec::new();
    {
        let mut w = Writer::new(&mut friend);
        w.fixed64_field(1, 5);
        w.uint32_field(3, 3527290);
        w.uint32_field(4, 0x681E100F);
        w.uint32_field(5, 27015);
        w.fixed64_field(73, 109775241234567890);
    }
    let mut body = Vec::new();
    Writer::new(&mut body).submessage_field(2, &friend);

    let parsed = CMsgClientPersonaState::deserialize(&body).unwrap();
    let friend = &parsed.friends[0];
    assert_eq!(friend.game_played_app_id, 3527290);
    assert_eq!(friend.game_server_ip, Some(0x681E100F));
    assert_eq!(friend.game_server_port, Some(27015));
    assert_eq!(friend.game_lobby_id, Some(109775241234567890));
}

#[test]
fn explicit_zero_lobby_id_is_present_not_absent() {
    // Leaving a lobby arrives as an explicit 0, which clears the stored id. The
    // writer omits zeros, so the tag and the payload are written directly.
    let mut friend = Vec::new();
    {
        let mut w = Writer::new(&mut friend);
        w.fixed64_field(1, 5);
        w.tag(73, WireType::Fixed64);
        w.raw_bytes(&0u64.to_le_bytes());
        w.uint32_field_force(4, 0);
    }
    let mut body = Vec::new();
    Writer::new(&mut body).submessage_field(2, &friend);

    let parsed = CMsgClientPersonaState::deserialize(&body).unwrap();
    let friend = &parsed.friends[0];
    assert_eq!(friend.game_lobby_id, Some(0));
    assert_eq!(friend.game_server_ip, Some(0));
}

#[test]
fn absent_lobby_id_stays_none() {
    let mut friend = Vec::new();
    {
        let mut w = Writer::new(&mut friend);
        w.fixed64_field(1, 5);
        w.uint32_field(2, 1);
    }
    let mut body = Vec::new();
    Writer::new(&mut body).submessage_field(2, &friend);

    let parsed = CMsgClientPersonaState::deserialize(&body).unwrap();
    let friend = &parsed.friends[0];
    assert_eq!(friend.game_lobby_id, None);
    assert_eq!(friend.game_server_ip, None);
    assert_eq!(friend.game_server_port, None);
}

#[test]
fn request_names_the_friends_in_order_without_zeros() {
    let request = CMsgClientRequestFriendData {
        persona_state_requested: 300,
        friends: vec![1, 0, 0x0102030405060708],
    };
    assert_eq!(
        request.serialize(),
        vec![
            0x08, 0xac, 0x02, 0x11, 1, 0, 0, 0, 0, 0, 0, 0, 0x11, 8, 7, 6, 5, 4, 3, 2, 1
        ]
    );
    assert_eq!(CMsgClientRequestFriendData::default().serialize(), vec![]);
}

#[test]
fn empty_messages_are_the_defaults() {
    assert_eq!(
        CMsgClientPersonaState::deserialize(&[]),
        Some(CMsgClientPersonaState::default())
    );
    assert_eq!(
        PersonaStateFriend::deserialize(&[]),
        Some(PersonaStateFriend::default())
    );
    assert_eq!(
        parse_kv_submessage(&[]),
        Some((String::new(), String::new()))
    );
}

#[test]
fn last_field_counts_and_every_pair_does() {
    let mut one = Vec::new();
    Writer::new(&mut one).string_field(1, "a");
    let mut two = Vec::new();
    Writer::new(&mut two).string_field(2, "b");
    let mut friend = Vec::new();
    {
        let mut w = Writer::new(&mut friend);
        w.string_field(15, "old");
        w.submessage_field(71, &one);
        w.string_field(15, "new");
        w.submessage_field(71, &two);
        w.uint32_field_force(2, 7);
        w.uint32_field_force(2, 0);
    }
    let parsed = PersonaStateFriend::deserialize(&friend).unwrap();
    assert_eq!(parsed.player_name, "new");
    assert_eq!(parsed.persona_state, 0);
    assert!(parsed.has_persona_state);
    assert_eq!(
        parsed.rich_presence,
        vec![
            ("a".to_string(), String::new()),
            (String::new(), "b".to_string())
        ]
    );
}

#[test]
fn known_number_of_another_shape_is_skipped() {
    let mut friend = Vec::new();
    {
        let mut w = Writer::new(&mut friend);
        w.uint32_field(1, 9);
        w.fixed64_field(2, 9);
        w.string_field(3, "x");
        w.tag(4, WireType::Fixed32);
        w.raw_bytes(&[1, 2, 3, 4]);
        w.fixed64_field(15, 9);
    }
    assert_eq!(
        PersonaStateFriend::deserialize(&friend),
        Some(PersonaStateFriend::default())
    );
}

#[test]
fn messages_that_are_cut_or_malformed_are_refused() {
    let mut friend = Vec::new();
    {
        let mut w = Writer::new(&mut friend);
        w.fixed64_field(1, 5);
        w.string_field(15, "Ada");
        w.uint32_field(2, 300);
    }
    let starts: Vec<usize> = vec![0, 9, 14, friend.len()];
    for cut in 0..friend.len() {
        let read = PersonaStateFriend::deserialize(&friend[..cut]);
        assert_eq!(read.is_some(), starts.contains(&cut), "cut at {cut}");
    }
    // A name that is not UTF-8.
    let mut bad = Vec::new();
    Writer::new(&mut bad).bytes_field(15, &[0xff]);
    assert_eq!(PersonaStateFriend::deserialize(&bad), None);
    // A pair that is cut.
    let mut pair = Vec::new();
    Writer::new(&mut pair).bytes_field(71, &[0x0a, 5, b'a']);
    assert_eq!(PersonaStateFriend::deserialize(&pair), None);
    // A friend that is refused takes the push with it.
    let mut push = Vec::new();
    Writer::new(&mut push).submessage_field(2, &bad);
    assert_eq!(CMsgClientPersonaState::deserialize(&push), None);
    // The field number zero, and a group.
    assert_eq!(PersonaStateFriend::deserialize(&[0x00, 0x01]), None);
    assert_eq!(PersonaStateFriend::deserialize(&[0x0b]), None);
}

#[test]
fn push_reads_flags_friends_and_skips_the_rest() {
    let mut friend = Vec::new();
    Writer::new(&mut friend).fixed64_field(1, 5);
    let mut push = Vec::new();
    {
        let mut w = Writer::new(&mut push);
        w.uint32_field(1, 0x1234);
        w.submessage_field(2, &friend);
        w.string_field(9, "skipped");
        w.submessage_field(2, &[]);
    }
    let parsed = CMsgClientPersonaState::deserialize(&push).unwrap();
    assert_eq!(parsed.status_flags, 0x1234);
    assert_eq!(parsed.friends.len(), 2);
    assert_eq!(parsed.friends[0].friendid, 5);
    assert_eq!(parsed.friends[1], PersonaStateFriend::default());
}

#[test]
fn pairs_are_read_back() {
    let mut kv = Vec::new();
    {
        let mut w = Writer::new(&mut kv);
        w.string_field(1, "connect");
        w.string_field(7, "other");
        w.string_field(2, "+join \u{e9}");
    }
    assert_eq!(
        parse_kv_submessage(&kv),
        Some(("connect".to_string(), "+join \u{e9}".to_string()))
    );
}

#[test]
fn what_is_appended_is_read_on_top() {
    let mut first = Vec::new();
    {
        let mut w = Writer::new(&mut first);
        w.fixed64_field(1, 5);
        w.string_field(15, "Ada");
    }
    let mut unknown = Vec::new();
    Writer::new(&mut unknown).string_field(99, "unknown");
    let mut second = Vec::new();
    {
        let mut w = Writer::new(&mut second);
        w.string_field(15, "Grace");
        w.uint32_field(5, 27015);
    }
    let plain = PersonaStateFriend::deserialize(&[first.clone(), second.clone()].concat());
    let mixed = PersonaStateFriend::deserialize(&[first, unknown, second].concat());
    assert_eq!(plain, mixed);
    let friend = plain.unwrap();
    assert_eq!(friend.friendid, 5);
    assert_eq!(friend.player_name, "Grace");
    assert_eq!(friend.game_server_port, Some(27015));
}
