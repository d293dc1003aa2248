//! Who may change a channel: its owner at any time, anybody else once the
//! channel has no owner or was left alone for long enough.

use vstd::prelude::*;
use crate::config::SelfManagement;
use crate::self_management::ownership::{decoded, ChannelMeta};

verus! {

/// A channel of the platform, as far as the rules read it.
#[derive(Debug)]
pub struct Channel {
    pub id: u64,
    /// The guild that the channel belongs to.
    pub guild_id: u64,
    pub name: String,
    /// The free text that describes the channel; the marker is its last line.
    pub topic: Option<String>,
    pub nsfw: bool,
    /// The category under which the channel stands.
    pub parent_id: Option<u64>,
    /// When the last message was written, in seconds since 1970.
    pub last_activity: Option<i64>,
}

/// The text of the topic `topic`; a missing topic has the empty text.
pub open spec fn topic_text(topic: Option<String>) -> Seq<char> {
    match topic {
        Some(t) => t@,
        None => Seq::empty(),
    }
}

/// What the channel's topic records; a missing topic records nothing.
pub open spec fn channel_meta(channel: &Channel) -> Option<ChannelMeta> {
    match channel.topic {
        Some(t) => decoded(t@),
        None => None,
    }
}

/// Whether a channel whose last message was written at `last_activity` counts
/// as abandoned at the time `now`: more than `abandon_after` seconds have
/// passed. A channel without any message is never abandoned.
pub open spec fn abandoned(last_activity: Option<i64>, abandon_after: u64, now: i64) -> bool {
    match last_activity {
        Some(last) => now - last > abandon_after,
        None => false,
    }
}

/// Whether `user` may change `channel` at the time `now`.
pub open spec fn may_edit(user: u64, channel: &Channel, config: &SelfManagement, now: i64) -> bool {
    !config.ownership || match channel_meta(channel) {
        None => true,
        Some(meta) => meta.owner == user || abandoned(
            channel.last_activity,
            config.abandon_after,
            now,
        ),
    }
}

/// Whether `user` may change `channel` whatever the time is.
pub open spec fn may_always_edit(user: u64, channel: &Channel, config: &SelfManagement) -> bool {
    !config.ownership || match channel_meta(channel) {
        None => true,
        Some(meta) => meta.owner == user,
    }
}

/// The right to change a channel is never lost by waiting: who may change a
/// channel at one time may change it at every later time, as long as the
/// channel stays as it is.
pub proof fn law_edit_right_stays(
    user: u64,
    channel: &Channel,
    config: &SelfManagement,
    now: i64,
    later: i64,
)
    requires
        now <= later,
        may_edit(user, channel, config, now),
    ensures
        may_edit(user, channel, config, later),
{
}

/// An abandoned channel stays abandoned.
pub proof fn law_abandoned_stays(last_activity: Option<i64>, abandon_after: u64, now: i64, later: i64)
    requires
        now <= later,
        abandoned(last_activity, abandon_after, now),
    ensures
        abandoned(last_activity, abandon_after, later),
{
}

/// Serenity's `Timestamp::now`, in whole seconds since 1970. Nothing is
/// claimed of the clock's reading.
#[verifier::external_body]
fn now_seconds() -> (r: i64) {
    serenity::model::Timestamp::now().unix_timestamp()
}

impl ChannelMeta {
    /// Reads what the topic of `channel` records.
    pub fn from_channel(channel: &Channel) -> (r: Option<ChannelMeta>)
        ensures
            r == channel_meta(channel),
            r matches Some(meta) ==> meta.owner != 0,
    {
        match &channel.topic {
            Some(topic) => ChannelMeta::from_topic(topic.as_str()),
            None => None,
        }
    }
}

/// Whether the last message of a channel is older than the limit.
pub fn is_abandoned(last_activity: Option<i64>, abandon_after: u64, now: i64) -> (r: bool)
    ensures
        r == abandoned(last_activity, abandon_after, now),
{
    match last_activity {
        Some(last) => (now as i128) - (last as i128) > abandon_after as i128,
        None => false,
    }
}

/// Whether `user` may change `channel` at the time `now`: always where
/// channels have no owners or this one records none; else the owner, and
/// everybody once the channel is abandoned.
pub fn can_edit_channel_at(user: u64, channel: &Channel, config: &SelfManagement, now: i64) -> (r:
    bool)
    ensures
        r == may_edit(user, channel, config, now),
{
    if !config.ownership {
        return true;
    }
    let is_abandoned = is_abandoned(channel.last_activity, config.abandon_after, now);
    match ChannelMeta::from_channel(channel) {
        Some(meta) => meta.owner == user || is_abandoned,
        None => true,
    }
}

/// Whether `user` may change `channel` now, by the clock of this machine.
pub fn can_edit_channel(user: u64, channel: &Channel, config: &SelfManagement) -> (r: bool)
    ensures
        exists|now: i64| r == may_edit(user, channel, config, now),
        may_always_edit(user, channel, config) ==> r,
        r && !may_always_edit(user, channel, config) ==> channel.last_activity is Some,
{
    let now = now_seconds();
    can_edit_channel_at(user, channel, config, now)
}

} // verus!
