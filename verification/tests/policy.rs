use guild_steward::config::SelfManagement;
use guild_steward::self_management::ownership::{inject_ownership, ChannelMeta};
use guild_steward::self_management::policy::{
    can_edit_channel, can_edit_channel_at, is_abandoned, Channel,
};

const POLICY_HOUR: i64 = 3600;
const POLICY_NOW: i64 = 1_700_000_000;

fn policy_settings(ownership: bool) -> SelfManagement {
    SelfManagement {
        category: 10,
        ownership,
        limit: 5,
        join_age_limit: 0,
        abandon_after: 86400,
        claiming: true,
        logging: None,
        logging_detailed: None,
    }
}

fn policy_channel(topic: Option<&str>, last_activity: Option<i64>) -> Channel {
    Channel {
        id: 100,
        guild_id: 1,
        name: "talk".to_string(),
        topic: topic.map(|t| t.to_string()),
        nsfw: false,
        parent_id: Some(10),
        last_activity,
    }
}

fn owned_by(owner: u64, last_activity: Option<i64>) -> Channel {
    let topic = inject_ownership("about", owner, &policy_settings(true));
    policy_channel(Some(&topic), last_activity)
}

#[test]
fn everybody_may_edit_without_ownership() {
    let c = owned_by(5, Some(POLICY_NOW));
    assert!(can_edit_channel_at(6, &c, &policy_settings(false), POLICY_NOW));
    assert!(can_edit_channel_at(5, &c, &policy_settings(false), POLICY_NOW));
    assert!(can_edit_channel(6, &c, &policy_settings(false)));
}

#[test]
fn everybody_may_edit_an_unclaimed_channel() {
    assert!(can_edit_channel_at(6, &policy_channel(None, Some(POLICY_NOW)), &policy_settings(true), POLICY_NOW));
    assert!(can_edit_channel_at(6, &policy_channel(Some("plain"), None), &policy_settings(true), POLICY_NOW));
    assert!(can_edit_channel_at(6, &policy_channel(Some("x\n{\"owner\":1}"), None), &policy_settings(true), POLICY_NOW));
    assert!(can_edit_channel(6, &policy_channel(Some("plain"), None), &policy_settings(true)));
}

#[test]
fn the_owner_may_always_edit() {
    assert!(can_edit_channel_at(5, &owned_by(5, Some(POLICY_NOW)), &policy_settings(true), POLICY_NOW));
    assert!(can_edit_channel_at(5, &owned_by(5, None), &policy_settings(true), POLICY_NOW));
    assert!(can_edit_channel(5, &owned_by(5, None), &policy_settings(true)));
}

#[test]
fn others_must_wait_for_abandonment() {
    let config = policy_settings(true);
    assert!(!can_edit_channel_at(6, &owned_by(5, Some(POLICY_NOW - POLICY_HOUR)), &config, POLICY_NOW));
    assert!(!can_edit_channel_at(6, &owned_by(5, Some(POLICY_NOW - 86400)), &config, POLICY_NOW));
    assert!(can_edit_channel_at(6, &owned_by(5, Some(POLICY_NOW - 86401)), &config, POLICY_NOW));
}

#[test]
fn a_channel_without_activity_is_never_abandoned() {
    assert!(!can_edit_channel_at(6, &owned_by(5, None), &policy_settings(true), POLICY_NOW));
    assert!(!can_edit_channel_at(6, &owned_by(5, None), &policy_settings(true), i64::MAX));
    assert!(!can_edit_channel(6, &owned_by(5, None), &policy_settings(true)));
    assert!(!is_abandoned(None, 0, i64::MAX));
}

#[test]
fn forty_hours_of_silence_open_a_channel_to_all() {
    let config = policy_settings(true);
    let c = owned_by(5, Some(POLICY_NOW - 40 * POLICY_HOUR));
    assert!(can_edit_channel_at(6, &c, &config, POLICY_NOW));
    assert!(can_edit_channel_at(5, &c, &config, POLICY_NOW));
}

#[test]
fn once_abandoned_stays_abandoned() {
    let config = policy_settings(true);
    let c = owned_by(5, Some(POLICY_NOW));
    let mut seen = false;
    for step in 0..60 {
        let at = POLICY_NOW + step * POLICY_HOUR;
        let allowed = can_edit_channel_at(6, &c, &config, at);
        assert!(allowed || !seen);
        seen = allowed;
    }
    assert!(seen);
    assert!(can_edit_channel_at(6, &c, &config, i64::MAX));
}

#[test]
fn abandonment_is_exact_in_seconds() {
    assert!(!is_abandoned(Some(100), 50, 150));
    assert!(is_abandoned(Some(100), 50, 151));
    assert!(is_abandoned(Some(100), 0, 101));
    assert!(!is_abandoned(Some(100), 0, 100));
}

#[test]
fn a_message_from_the_future_does_not_abandon() {
    assert!(!is_abandoned(Some(200), 50, 100));
    assert!(!can_edit_channel_at(6, &owned_by(5, Some(POLICY_NOW + POLICY_HOUR)), &policy_settings(true), POLICY_NOW));
}

#[test]
fn abandonment_does_not_overflow() {
    assert!(is_abandoned(Some(i64::MIN), u64::MAX - 1, i64::MAX));
    assert!(!is_abandoned(Some(i64::MIN), u64::MAX, i64::MAX));
    assert!(!is_abandoned(Some(i64::MAX), 0, i64::MIN));
}

#[test]
fn the_clock_lets_others_edit_an_old_channel() {
    let c = owned_by(5, Some(0));
    assert!(can_edit_channel(6, &c, &policy_settings(true)));
}

#[test]
fn from_channel_reads_the_topic() {
    assert_eq!(ChannelMeta::from_channel(&owned_by(5, None)), Some(ChannelMeta { owner: 5 }));
    assert_eq!(ChannelMeta::from_channel(&policy_channel(None, None)), None);
    assert_eq!(ChannelMeta::from_channel(&policy_channel(Some("plain"), None)), None);
}
