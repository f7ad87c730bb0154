use ghostly::json::parse_batch;
use ghostly::nums::{i64_to_dec, parse_i64_bytes};
use ghostly::{
    build_records, create_keypair, decrypt, encrypt, from_base64_url, generate_invite,
    generate_key, keypair_from_seed, new_identity, parse_invite, resolve_messages,
    resolve_records, to_base64_url, trim_to_fit, watch_step, CompactMessage, GhostClient,
    PkarrMessage, ProtocolError,
};

fn key_a() -> Vec<u8> {
    vec![7u8; 32]
}

fn key_b() -> Vec<u8> {
    vec![8u8; 32]
}

fn msg(t: i64, m: &str) -> CompactMessage {
    CompactMessage { t, m: m.to_string() }
}

fn decrypt_to_batch(envelope: &str, key: &[u8]) -> Vec<CompactMessage> {
    let json = decrypt(envelope, key).expect("envelope must decrypt");
    parse_batch(&json.as_bytes().to_vec()).expect("envelope must parse")
}

#[test]
fn encrypt_decrypt_roundtrip() {
    let key = key_a();
    let plain = "hello, over the record store";
    let env = encrypt(plain, &key).unwrap();
    assert_eq!(decrypt(&env, &key).unwrap(), plain);
}

#[test]
fn encrypt_decrypt_roundtrip_unicode_and_escapes() {
    let key = key_a();
    let plain = "quote \" backslash \\ newline \n tab \t control \u{1} snowman \u{2603}";
    let env = encrypt(plain, &key).unwrap();
    assert_eq!(decrypt(&env, &key).unwrap(), plain);
}

#[test]
fn wrong_key_fails_authentication() {
    let env = encrypt("secret", &key_a()).unwrap();
    match decrypt(&env, &key_b()) {
        Err(ProtocolError::AuthenticationFailure) => {}
        other => panic!("expected AuthenticationFailure, got {:?}", other.map(|_| ())),
    }
}

#[test]
fn encrypt_rejects_short_key() {
    match encrypt("x", &[1u8; 31]) {
        Err(ProtocolError::InvalidKeyLength) => {}
        _ => panic!("expected InvalidKeyLength"),
    }
}

#[test]
fn decrypt_rejects_bad_key_base64_and_short_input() {
    match decrypt("AAAA", &[1u8; 16]) {
        Err(ProtocolError::InvalidKeyLength) => {}
        _ => panic!("expected InvalidKeyLength"),
    }
    match decrypt("not base64!!!", &key_a()) {
        Err(ProtocolError::DecodeError) => {}
        _ => panic!("expected DecodeError"),
    }
    // Valid base-64, but shorter than a nonce plus one byte.
    match decrypt("AAAA", &key_a()) {
        Err(ProtocolError::DecodeError) => {}
        _ => panic!("expected DecodeError"),
    }
}

#[test]
fn fresh_nonce_per_call() {
    let key = key_a();
    let e1 = encrypt("same text", &key).unwrap();
    let e2 = encrypt("same text", &key).unwrap();
    assert_ne!(e1, e2);
    assert_eq!(decrypt(&e1, &key).unwrap(), "same text");
    assert_eq!(decrypt(&e2, &key).unwrap(), "same text");
}

#[test]
fn base64url_roundtrip() {
    let bytes: Vec<u8> = (0u8..=255).collect();
    let text = to_base64_url(&bytes);
    assert_eq!(from_base64_url(&text).unwrap(), bytes);
    assert!(!text.contains('='));
}

#[test]
fn generate_key_is_32_bytes() {
    assert_eq!(generate_key().len(), 32);
}

#[test]
fn decimal_codec() {
    assert_eq!(i64_to_dec(0), b"0".to_vec());
    assert_eq!(i64_to_dec(100), b"100".to_vec());
    assert_eq!(i64_to_dec(-123), b"-123".to_vec());
    assert_eq!(i64_to_dec(i64::MIN), b"-9223372036854775808".to_vec());
    assert_eq!(parse_i64_bytes(b"100"), Some(100));
    assert_eq!(parse_i64_bytes(b"-123"), Some(-123));
    assert_eq!(parse_i64_bytes(b"-9223372036854775808"), Some(i64::MIN));
    assert_eq!(parse_i64_bytes(b"9223372036854775808"), None);
    assert_eq!(parse_i64_bytes(b""), None);
    assert_eq!(parse_i64_bytes(b"12a"), None);
    assert_eq!(parse_i64_bytes(b"-"), None);
}

#[test]
fn batch_wire_format_roundtrip() {
    let key = key_a();
    let batch = vec![msg(100, "hi"), msg(101, "with \"quotes\" and \\ and \n and \u{1}")];
    let (env, kept) = trim_to_fit(&batch, &key, 800).unwrap();
    assert_eq!(kept, 2);
    let back = decrypt_to_batch(&env, &key);
    assert_eq!(back.len(), 2);
    assert_eq!(back[0].t, 100);
    assert_eq!(back[0].m, "hi");
    assert_eq!(back[1].t, 101);
    assert_eq!(back[1].m, "with \"quotes\" and \\ and \n and \u{1}");
}

#[test]
fn empty_batch_encrypts_empty_array() {
    let key = key_a();
    let (env, kept) = trim_to_fit(&Vec::new(), &key, 800).unwrap();
    assert_eq!(kept, 0);
    assert_eq!(decrypt(&env, &key).unwrap(), "[]");
}

#[test]
fn fitting_drops_oldest_first() {
    // Fifty one-kilobyte messages against an 800-character ceiling: only the
    // most recent few survive, and the count matches the decrypted contents.
    let key = key_a();
    let batch: Vec<CompactMessage> =
        (0..50).map(|i| msg(1000 + i, &"x".repeat(1024))).collect();
    let (env, kept) = trim_to_fit(&batch, &key, 800).unwrap();
    assert!(kept < 50);
    assert!(kept >= 1);
    let back = decrypt_to_batch(&env, &key);
    assert_eq!(back.len(), kept);
    // The kept messages are the newest suffix, in order.
    for (i, m) in back.iter().enumerate() {
        assert_eq!(m.t, 1000 + (50 - kept as i64) + i as i64);
    }
}

#[test]
fn fitting_envelope_fits_ceiling() {
    let key = key_a();
    let batch: Vec<CompactMessage> = (0..10).map(|i| msg(i, "hello")).collect();
    let (env, kept) = trim_to_fit(&batch, &key, 800).unwrap();
    assert_eq!(kept, 10);
    assert!(env.len() <= 800);
}

#[test]
fn fitting_truncates_single_oversized_message() {
    let key = key_a();
    let batch = vec![msg(5, &"y".repeat(5000))];
    let (env, kept) = trim_to_fit(&batch, &key, 300).unwrap();
    assert_eq!(kept, 1);
    let back = decrypt_to_batch(&env, &key);
    assert_eq!(back.len(), 1);
    assert_eq!(back[0].t, 5);
    assert_eq!(back[0].m, "y".repeat(400));
}

#[test]
fn publish_scenario_minimal_batch() {
    // Publish [{t:100,m:"hi"}] with ack=0: record set has _ts="100" and no
    // _ack; resolving yields latest 100, ack 0, and the one message.
    let key = key_a();
    let (fields, kept) = build_records(&vec![msg(100, "hi")], &key, 0, None, None).unwrap();
    assert_eq!(kept, 1);
    let names: Vec<&str> = fields.iter().map(|f| f.0.as_str()).collect();
    assert!(names.contains(&"_msgs"));
    assert!(names.contains(&"_ts"));
    assert!(!names.contains(&"_ack"));
    let ts = fields.iter().find(|f| f.0 == "_ts").unwrap();
    assert_eq!(ts.1, "100");
    let view = resolve_records(&fields, &key, 7777);
    assert_eq!(view.latest_timestamp, 100);
    assert_eq!(view.peer_ack, 0);
    assert_eq!(view.message_count, 1);
    assert_eq!(view.messages[0].text, "hi");
    assert_eq!(view.messages[0].timestamp, 100);
    assert_eq!(view.packet_timestamp, 7777);
    assert!(view.call_signal.is_none());
}

#[test]
fn publish_includes_positive_ack_and_nick() {
    let key = key_a();
    let nick = "alice".to_string();
    let (fields, _) =
        build_records(&vec![msg(1, "x")], &key, 42, Some(&nick), None).unwrap();
    let ack = fields.iter().find(|f| f.0 == "_ack").unwrap();
    assert_eq!(ack.1, "42");
    let view = resolve_records(&fields, &key, 0);
    assert_eq!(view.peer_ack, 42);
    assert_eq!(view.messages[0].nick.as_deref(), Some("alice"));
}

#[test]
fn unreadable_nick_is_swallowed() {
    let key = key_a();
    let nick = "alice".to_string();
    let (fields, _) =
        build_records(&vec![msg(1, "x")], &key, 0, Some(&nick), None).unwrap();
    // Resolve under a different key: _msgs fails too, so no messages at all,
    // but resolution itself must not fail.
    let view = resolve_records(&fields, &key_b(), 0);
    assert_eq!(view.message_count, 0);
    // Under the right key but with a corrupted nick value, the nick is
    // dropped while the messages survive.
    let mut broken = fields.clone();
    for f in broken.iter_mut() {
        if f.0 == "_nick" {
            f.1 = "garbage".to_string();
        }
    }
    let view = resolve_records(&broken, &key, 0);
    assert_eq!(view.message_count, 1);
    assert!(view.messages[0].nick.is_none());
}

#[test]
fn resolve_orders_published_batch_ascending() {
    let key = key_a();
    let batch = vec![msg(300, "c"), msg(100, "a"), msg(200, "b")];
    let (fields, kept) = build_records(&batch, &key, 0, None, None).unwrap();
    assert_eq!(kept, 3);
    let view = resolve_records(&fields, &key, 0);
    let ts: Vec<i64> = view.messages.iter().map(|m| m.timestamp).collect();
    assert_eq!(ts, vec![100, 200, 300]);
    assert_eq!(view.latest_timestamp, 300);
}

#[test]
fn legacy_single_message_fallback() {
    // A record set with only _msg and _ts resolves to exactly one message
    // stamped with the _ts value.
    let key = key_a();
    let enc = encrypt("old style", &key).unwrap();
    let fields = vec![
        ("_msg".to_string(), enc),
        ("_ts".to_string(), "42".to_string()),
    ];
    let view = resolve_records(&fields, &key, 0);
    assert_eq!(view.message_count, 1);
    assert_eq!(view.messages[0].text, "old style");
    assert_eq!(view.messages[0].timestamp, 42);
    assert_eq!(view.latest_timestamp, 42);
}

#[test]
fn legacy_without_timestamp_yields_nothing() {
    let key = key_a();
    let enc = encrypt("old style", &key).unwrap();
    let fields = vec![("_msg".to_string(), enc)];
    let view = resolve_records(&fields, &key, 0);
    assert_eq!(view.message_count, 0);
}

#[test]
fn record_names_are_bare_labels() {
    let key = key_a();
    let fields = vec![
        ("_ts.pubkeyetc.".to_string(), "9".to_string()),
        ("_other.x.y.".to_string(), "z".to_string()),
    ];
    let view = resolve_records(&fields, &key, 0);
    assert_eq!(view.raw_record_names, vec!["_ts".to_string(), "_other".to_string()]);
    assert_eq!(view.latest_timestamp, 9);
}

#[test]
fn ts_recomputed_from_batch_when_absent() {
    let key = key_a();
    let (fields, _) = build_records(&vec![msg(55, "m")], &key, 0, None, None).unwrap();
    let only_msgs: Vec<(String, String)> =
        fields.into_iter().filter(|f| f.0 == "_msgs").collect();
    let view = resolve_records(&only_msgs, &key, 0);
    assert_eq!(view.latest_timestamp, 55);
}

#[test]
fn empty_state_resolves_to_none() {
    let key = key_a();
    let addr = "y".repeat(52);
    match resolve_messages(&addr, None, &key) {
        Ok(None) => {}
        _ => panic!("expected Ok(None) for an empty state"),
    }
}

#[test]
fn malformed_address_is_hard_error() {
    let key = key_a();
    match resolve_messages("not-an-address", None, &key) {
        Err(ProtocolError::InvalidAddress) => {}
        _ => panic!("expected InvalidAddress"),
    }
    // 'l' is not in the z-base-32 alphabet.
    let bad = "l".repeat(52);
    match resolve_messages(&bad, None, &key) {
        Err(ProtocolError::InvalidAddress) => {}
        _ => panic!("expected InvalidAddress"),
    }
}

#[test]
fn invite_roundtrip() {
    let addr = "o".repeat(52);
    let shared = to_base64_url(&generate_key());
    let invite = generate_invite(&addr, &shared).unwrap();
    assert_eq!(invite.pubkey, addr);
    assert_eq!(invite.invite_url, format!("ghost://{}#{}", addr, shared));
    let parsed = parse_invite(&invite.invite_url).unwrap();
    assert_eq!(parsed.peer_pubkey, addr);
    assert_eq!(parsed.shared_key, shared);
    // A fresh 32-byte seed is minted for the recipient.
    let seed = from_base64_url(&parsed.my_seed).unwrap();
    assert_eq!(seed.len(), 32);
}

#[test]
fn invite_format_errors() {
    match parse_invite("http://x#y") {
        Err(ProtocolError::InvalidInviteFormat) => {}
        _ => panic!("expected InvalidInviteFormat"),
    }
    match parse_invite("ghost://nofragment") {
        Err(ProtocolError::InvalidInviteFormat) => {}
        _ => panic!("expected InvalidInviteFormat"),
    }
    match parse_invite("ghost://two#hash#es") {
        Err(ProtocolError::InvalidInviteFormat) => {}
        _ => panic!("expected InvalidInviteFormat"),
    }
}

#[test]
fn identity_minting() {
    let id = new_identity();
    assert_eq!(from_base64_url(&id.seed).unwrap().len(), 32);
    assert_eq!(from_base64_url(&id.shared_key).unwrap().len(), 32);
    let (kp, seed_b64) = create_keypair();
    assert_eq!(kp.seed.len(), 32);
    assert_eq!(from_base64_url(&seed_b64).unwrap(), kp.seed);
}

#[test]
fn seed_validation() {
    let good = to_base64_url(&vec![3u8; 32]);
    assert_eq!(keypair_from_seed(&good).unwrap().seed, vec![3u8; 32]);
    let short = to_base64_url(&vec![3u8; 16]);
    match keypair_from_seed(&short) {
        Err(ProtocolError::InvalidSeedLength) => {}
        _ => panic!("expected InvalidSeedLength"),
    }
    match keypair_from_seed("!!!") {
        Err(ProtocolError::DecodeError) => {}
        _ => panic!("expected DecodeError"),
    }
}

#[test]
fn client_recv_output() {
    let client = GhostClient::new();
    let out = client.recv_output(None);
    assert_eq!(out.message_count, 0);
    assert_eq!(out.latest_ts, 0);
    assert_eq!(out.peer_ack, 0);
    assert!(out.messages.is_empty());
}

#[test]
fn client_send_then_recv_roundtrip() {
    let client = GhostClient::new();
    let key = key_a();
    let (fields, kept) = client
        .prepare_send(&vec![msg(100, "hi")], &key, 0, None)
        .unwrap();
    assert_eq!(kept, 1);
    let view = resolve_records(&fields, &key, 1);
    let ack = client.ack_from(&Some(view));
    assert_eq!(ack, 100);
}

#[test]
fn watch_emits_only_new_messages_in_order() {
    let msgs = vec![
        PkarrMessage { text: "a".to_string(), timestamp: 10, nick: None },
        PkarrMessage { text: "b".to_string(), timestamp: 20, nick: Some("n".to_string()) },
        PkarrMessage { text: "c".to_string(), timestamp: 30, nick: None },
    ];
    let (events, mark) = watch_step(&msgs, 10);
    assert_eq!(events.len(), 2);
    assert_eq!(events[0].text, "b");
    assert_eq!(events[0].from, "peer");
    assert_eq!(events[0].nick.as_deref(), Some("n"));
    assert_eq!(events[1].text, "c");
    assert_eq!(mark, 30);
    let (none_events, same_mark) = watch_step(&msgs, 30);
    assert!(none_events.is_empty());
    assert_eq!(same_mark, 30);
}

#[test]
fn wire_format_exact() {
    let batch = vec![msg(100, "hi")];
    let bytes = ghostly::json::serialize_batch(&batch, 0);
    assert_eq!(String::from_utf8(bytes).unwrap(), "[{\"t\":100,\"m\":\"hi\"}]");
    let two = vec![msg(-5, "a\"b"), msg(7, "\n")];
    let bytes = ghostly::json::serialize_batch(&two, 0);
    assert_eq!(
        String::from_utf8(bytes).unwrap(),
        "[{\"t\":-5,\"m\":\"a\\\"b\"},{\"t\":7,\"m\":\"\\n\"}]"
    );
}

#[test]
fn parser_rejects_malformed_wire_data() {
    assert!(parse_batch(&b"".to_vec()).is_none());
    assert!(parse_batch(&b"{}".to_vec()).is_none());
    assert!(parse_batch(&b"[{\"t\":1,\"m\":\"x\"}".to_vec()).is_none());
    assert!(parse_batch(&b"[{\"t\":nope,\"m\":\"x\"}]".to_vec()).is_none());
    assert!(parse_batch(&b"[]".to_vec()).map(|b| b.len()) == Some(0));
}

#[test]
fn envelope_length_is_a_function_of_plaintext_length() {
    let key = key_a();
    // nonce (24) + tag (16) + text, base-64 with padding.
    let e = encrypt("", &key).unwrap();
    assert_eq!(e.len(), 56);
    let e = encrypt("abc", &key).unwrap();
    assert_eq!(e.len(), ((3 + 40) + 2) / 3 * 4);
}

#[test]
fn legacy_empty_text_still_resolves() {
    // A decrypted legacy _msg counts even when its text is empty: with a
    // positive _ts it yields exactly one (empty) message.
    let key = key_a();
    let enc = encrypt("", &key).unwrap();
    let fields = vec![
        ("_msg".to_string(), enc),
        ("_ts".to_string(), "9".to_string()),
    ];
    let view = resolve_records(&fields, &key, 0);
    assert_eq!(view.message_count, 1);
    assert_eq!(view.messages[0].text, "");
    assert_eq!(view.messages[0].timestamp, 9);
}

#[test]
fn text_level_crypto_entry_points() {
    let key_b64 = ghostly::generate_enc_key();
    let env = ghostly::encrypt_text("hello", &key_b64).unwrap();
    assert_eq!(ghostly::decrypt_text(&env, &key_b64).unwrap(), "hello");
    // A key text the engine rejects is a decode error.
    match ghostly::encrypt_text("x", "!!!") {
        Err(ProtocolError::DecodeError) => {}
        _ => panic!("expected DecodeError"),
    }
    match ghostly::decrypt_text(&env, "!!!") {
        Err(ProtocolError::DecodeError) => {}
        _ => panic!("expected DecodeError"),
    }
    // A key text of the wrong decoded length is an invalid key.
    let short = to_base64_url(&vec![1u8; 8]);
    match ghostly::encrypt_text("x", &short) {
        Err(ProtocolError::InvalidKeyLength) => {}
        _ => panic!("expected InvalidKeyLength"),
    }
    match ghostly::decrypt_text(&env, &short) {
        Err(ProtocolError::InvalidKeyLength) => {}
        _ => panic!("expected InvalidKeyLength"),
    }
}

#[test]
fn resolve_succeeds_for_any_present_record_set() {
    // With a valid address and a record set present, resolution always
    // returns a view, never an error, whatever the fields hold.
    let key = key_a();
    let addr = "y".repeat(52);
    let junk = vec![("bogus".to_string(), "????".to_string())];
    match resolve_messages(&addr, Some((junk, 5)), &key) {
        Ok(Some(v)) => {
            assert_eq!(v.message_count, 0);
            assert_eq!(v.packet_timestamp, 5);
        }
        _ => panic!("expected Ok(Some(_))"),
    }
}
