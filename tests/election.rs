use tinyredis::election::{
    candidates, choose_leader, command_bytes, core_of_reply, elect, leader_answered, peer_ports,
    server_id_of, Decision, LEADER_PORT,
};

#[test]
fn highest_identity_replica_is_told_to_lead() {
    // replica with pid 100 on 6380, replica with pid 200 on 6381, no leader on 6379
    let replies = vec![(6380u16, "+100\r\n".to_string()), (6381u16, "+200\r\n".to_string())];
    assert_eq!(elect(100, &replies), Decision::Notify(6381));
    // the replica of pid 200 reaches itself on 6381 and tells itself to lead
    assert_eq!(elect(200, &replies), Decision::Notify(6381));
}

#[test]
fn own_identity_largest_promotes_self() {
    let replies = vec![(6380u16, "+100\r\n".to_string()), (6382u16, "NOTALIVE".to_string())];
    assert_eq!(elect(300, &replies), Decision::Promote);
    assert_eq!(elect(7, &vec![]), Decision::Promote);
}

#[test]
fn replies_that_do_not_match_are_skipped() {
    let replies = vec![
        (6380u16, "Connection refused".to_string()),
        (6381u16, "+9999".to_string()),
        (6382u16, "-9999\r\n".to_string()),
        (6383u16, "+50\r\n".to_string()),
    ];
    assert_eq!(elect(10, &replies), Decision::Notify(6383));
}

#[test]
fn equal_identities_pick_the_last_port() {
    assert_eq!(choose_leader(5, &vec![(9, 6380), (9, 6381), (3, 6382)]), Decision::Notify(6381));
    assert_eq!(choose_leader(5, &vec![(5, 6380)]), Decision::Notify(6380));
    assert_eq!(choose_leader(5, &vec![(4, 6380)]), Decision::Promote);
}

#[test]
fn leader_reply_check() {
    assert!(leader_answered("+PONG\r\n"));
    assert!(leader_answered("PONG"));
    assert!(!leader_answered("+PONG!\r\n"));
    assert!(!leader_answered("Connection refused (os error 111)"));
    assert!(!leader_answered(""));
}

#[test]
fn reply_core_and_identity() {
    assert_eq!(core_of_reply("++ 12 \r\n"), "12".to_string());
    assert_eq!(server_id_of("+4321\r\n"), Some(4321));
    assert_eq!(server_id_of("+43x1\r\n"), None);
}

#[test]
fn ports_and_requests() {
    assert_eq!(LEADER_PORT, 6379);
    assert_eq!(peer_ports(), (6380u16..=6389).collect::<Vec<u16>>());
    assert_eq!(command_bytes("GETSERVERID"), b"*1\r\n$11\r\nGETSERVERID\r\n".to_vec());
}

#[test]
fn unicode_white_space_is_trimmed() {
    assert!(leader_answered("PONG\u{a0}"));
    assert!(leader_answered("+\u{3000}PONG\u{2028}"));
    assert!(!leader_answered("PONG\u{200b}"));
    assert_eq!(server_id_of("+123\r\n\u{a0}"), Some(123));
    let replies = vec![(6381u16, "+123\r\n\u{a0}".to_string())];
    assert_eq!(elect(5, &replies), Decision::Notify(6381));
}

#[test]
fn candidates_from_pattern_results() {
    let replies = vec![
        (6380u16, "+100\r\n".to_string()),
        (6381u16, "+200\r\n".to_string()),
        (6382u16, "+x\r\n".to_string()),
    ];
    assert_eq!(candidates(&replies, &vec![true, false, true]), vec![(100, 6380)]);
    assert_eq!(candidates(&replies, &vec![true, true, true]), vec![(100, 6380), (200, 6381)]);
    assert!(candidates(&replies, &vec![false, false, false]).is_empty());
}
