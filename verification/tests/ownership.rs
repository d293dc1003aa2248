use guild_steward::config::SelfManagement;
use guild_steward::mention::{deserialize, serialize, MentionError};
use guild_steward::self_management::ownership::{inject_ownership, remove_meta, ChannelMeta};

fn codec_settings(ownership: bool) -> SelfManagement {
    SelfManagement {
        category: 10,
        ownership,
        limit: 5,
        join_age_limit: 0,
        abandon_after: 86400,
        claiming: true,
        logging: None,
        logging_detailed: None,
    }
}

#[test]
fn serialize_writes_user_mention() {
    assert_eq!(serialize(42), "<@42>");
    assert_eq!(serialize(1), "<@1>");
    assert_eq!(serialize(u64::MAX), "<@18446744073709551615>");
}

#[test]
fn deserialize_reads_user_mention() {
    assert_eq!(deserialize("<@42>"), Ok(42));
    assert_eq!(deserialize("<@!42>"), Ok(42));
    assert_eq!(deserialize("<@18446744073709551615>"), Ok(u64::MAX));
}

#[test]
fn deserialize_reads_back_what_serialize_wrote() {
    for id in [1u64, 7, 10, 99, 114941315417899012, u64::MAX] {
        assert_eq!(deserialize(&serialize(id)), Ok(id));
    }
}

#[test]
fn deserialize_rejects_other_mentions() {
    assert_eq!(deserialize("<@&42>"), Err(MentionError::NotAUser));
    assert_eq!(deserialize("<#42>"), Err(MentionError::NotAUser));
}

#[test]
fn deserialize_rejects_what_is_no_mention() {
    assert_eq!(deserialize(""), Err(MentionError::Unparseable));
    assert_eq!(deserialize("42"), Err(MentionError::Unparseable));
    assert_eq!(deserialize("<@>"), Err(MentionError::Unparseable));
    assert_eq!(deserialize("<@0>"), Err(MentionError::Unparseable));
    assert_eq!(deserialize("<@abc>"), Err(MentionError::Unparseable));
    assert_eq!(deserialize("<@18446744073709551616>"), Err(MentionError::Unparseable));
}

#[test]
fn deserialize_rejects_text_outside_ascii() {
    assert_eq!(deserialize("<@12\u{e9}"), Err(MentionError::Unparseable));
    assert_eq!(deserialize("<@!\u{1F600}"), Err(MentionError::Unparseable));
    assert_eq!(deserialize("\u{e9}"), Err(MentionError::Unparseable));
}

#[test]
fn inject_without_ownership_changes_nothing() {
    assert_eq!(inject_ownership("a topic", 42, &codec_settings(false)), "a topic");
    assert_eq!(inject_ownership("", 42, &codec_settings(false)), "");
}

#[test]
fn inject_appends_blank_line_and_marker() {
    assert_eq!(
        inject_ownership("a topic", 42, &codec_settings(true)),
        "a topic\n\n{\"owner\":\"<@42>\"}"
    );
    assert_eq!(inject_ownership("", 7, &codec_settings(true)), "\n\n{\"owner\":\"<@7>\"}");
}

#[test]
fn decode_reads_back_the_owner() {
    let config = codec_settings(true);
    for topic in ["", "   ", "\n\n", "one line", "two\nlines", "crlf\r\nline\r\n", "gr\u{fc}\u{df}e \u{1F600}", "trailing space   ", "{\"owner\":\"<@1>\"}"] {
        for owner in [1u64, 42, u64::MAX] {
            let stored = inject_ownership(topic, owner, &config);
            assert_eq!(ChannelMeta::from_topic(&stored), Some(ChannelMeta { owner }));
        }
    }
}

#[test]
fn decode_finds_no_marker_in_plain_text() {
    assert_eq!(ChannelMeta::from_topic(""), None);
    assert_eq!(ChannelMeta::from_topic("   \n  "), None);
    assert_eq!(ChannelMeta::from_topic("just a topic"), None);
    assert_eq!(ChannelMeta::from_topic("first\nsecond"), None);
}

#[test]
fn decode_treats_malformed_last_lines_as_content() {
    assert_eq!(ChannelMeta::from_topic("topic\n\n{\"owner\":"), None);
    assert_eq!(ChannelMeta::from_topic("topic\n\n{}"), None);
    assert_eq!(ChannelMeta::from_topic("topic\n\n{\"other\":\"<@1>\"}"), None);
    assert_eq!(ChannelMeta::from_topic("topic\n\n{\"owner\":5}"), None);
    assert_eq!(ChannelMeta::from_topic("topic\n\n{\"owner\":\"nobody\"}"), None);
    assert_eq!(ChannelMeta::from_topic("topic\n\n{\"owner\":\"<@&5>\"}"), None);
    assert_eq!(ChannelMeta::from_topic("topic\n\n{\"owner\":\"<#5>\"}"), None);
    assert_eq!(ChannelMeta::from_topic("topic\n\n{\"owner\":\"<@12\u{e9}\"}"), None);
    assert_eq!(ChannelMeta::from_topic("topic\n\n[\"<@5>\"]"), None);
    assert_eq!(ChannelMeta::from_topic("topic\n\n\"<@5>\""), None);
}

#[test]
fn decode_reads_only_the_last_line() {
    assert_eq!(ChannelMeta::from_topic("{\"owner\":\"<@5>\"}\nmore text"), None);
    assert_eq!(
        ChannelMeta::from_topic("text\n{\"owner\":\"<@5>\"}\n\n  "),
        Some(ChannelMeta { owner: 5 })
    );
    assert_eq!(
        ChannelMeta::from_topic("text\n  {\"owner\": \"<@5>\", \"note\": 1}"),
        Some(ChannelMeta { owner: 5 })
    );
}

#[test]
fn remove_meta_drops_the_last_line() {
    assert_eq!(remove_meta("a\nb\n\n{\"owner\":\"<@1>\"}"), "a\nb");
    assert_eq!(remove_meta("first\nsecond"), "first");
    assert_eq!(remove_meta("  padded\n\nlast  \n"), "padded");
}

#[test]
fn remove_meta_of_one_line_leaves_nothing() {
    assert_eq!(remove_meta("only"), "");
    assert_eq!(remove_meta(""), "");
    assert_eq!(remove_meta("  \n "), "");
}

#[test]
fn remove_meta_unfolds_line_breaks() {
    assert_eq!(remove_meta("a\r\nb\r\n\r\nmarker"), "a\nb");
    assert_eq!(remove_meta("a\rb\nmarker"), "a\rb");
    assert_eq!(remove_meta("a\r\r\nb\nmarker"), "a\r\nb");
}

#[test]
fn strip_after_inject_gives_the_topic_back() {
    let config = codec_settings(true);
    for (topic, expected) in [
        ("plain", "plain"),
        ("  padded \n", "padded"),
        ("two\nlines", "two\nlines"),
        ("dos\r\nlines\r\n", "dos\nlines"),
        ("", ""),
        (" \n ", ""),
    ] {
        let stored = inject_ownership(topic, 9, &config);
        assert_eq!(remove_meta(&stored), expected);
    }
}

#[test]
fn decode_after_strip_finds_what_the_topic_held() {
    let config = codec_settings(true);
    for topic in ["", "plain", "two\nlines", "dos\r\nlines", "  x  "] {
        let stored = inject_ownership(topic, 9, &config);
        assert_eq!(ChannelMeta::from_topic(&remove_meta(&stored)), None);
    }
    let marked = inject_ownership("text", 3, &config);
    let twice = inject_ownership(&marked, 9, &config);
    assert_eq!(ChannelMeta::from_topic(&twice), Some(ChannelMeta { owner: 9 }));
    assert_eq!(
        ChannelMeta::from_topic(&remove_meta(&twice)),
        Some(ChannelMeta { owner: 3 })
    );
}

#[test]
fn inject_keeps_a_topic_that_names_the_owner_already() {
    let config = codec_settings(true);
    let once = inject_ownership("a topic", 42, &config);
    assert_eq!(once, "a topic\n\n{\"owner\":\"<@42>\"}");
    let twice = inject_ownership(&once, 42, &config);
    assert_eq!(twice, once);
    assert_eq!(inject_ownership(&twice, 42, &config), once);
    assert_eq!(ChannelMeta::from_topic(&twice), Some(ChannelMeta { owner: 42 }));
}

#[test]
fn inject_keeps_any_form_of_the_owners_marker() {
    let config = codec_settings(true);
    for topic in [
        "{\"owner\":\"<@42>\"}",
        "text\n{\"owner\":\"<@42>\"}",
        "text\n\n{\"owner\":\"<@42>\"}\n  ",
        "text\n { \"owner\" : \"<@!42>\" }",
    ] {
        assert_eq!(inject_ownership(topic, 42, &config), topic);
    }
}

#[test]
fn inject_writes_behind_the_marker_of_another_owner() {
    let config = codec_settings(true);
    let theirs = inject_ownership("a topic", 7, &config);
    let ours = inject_ownership(&theirs, 42, &config);
    assert_eq!(ours, "a topic\n\n{\"owner\":\"<@7>\"}\n\n{\"owner\":\"<@42>\"}");
    assert_eq!(ChannelMeta::from_topic(&ours), Some(ChannelMeta { owner: 42 }));
    assert_eq!(remove_meta(&ours), theirs);
}

#[test]
fn inject_without_ownership_keeps_a_marked_topic() {
    let marked = inject_ownership("a topic", 42, &codec_settings(true));
    assert_eq!(inject_ownership(&marked, 42, &codec_settings(false)), marked);
    assert_eq!(inject_ownership(&marked, 7, &codec_settings(false)), marked);
}

#[test]
fn strip_after_inject_of_a_marked_topic_takes_its_marker() {
    let config = codec_settings(true);
    let marked = inject_ownership("a topic", 42, &config);
    let again = inject_ownership(&marked, 42, &config);
    assert_eq!(remove_meta(&again), "a topic");
}
