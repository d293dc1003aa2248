//! Channels that members run themselves: ownership, the right to edit, and
//! what each command does to a channel.
//!
//! A command is worked out in two steps. The functions here decide whether
//! the command is allowed and what is asked of the platform; the caller asks
//! the platform, and reports what came of it.

pub mod audit;
pub mod ordering;
pub mod ownership;
pub mod policy;

use vstd::prelude::*;
use crate::config::SelfManagement;
use crate::error::{Command, Error, Invalid};
use crate::self_management::audit::text_of;
use crate::self_management::ownership::{
    decoded, encoded, inject_ownership, remove_meta, stripped, ChannelMeta,
};
use crate::self_management::policy::{
    can_edit_channel_at, channel_meta, may_edit, topic_text, Channel,
};

verus! {

/// Seconds that the platform is given to change a channel.
pub const CHANNEL_EDIT_TIMEOUT: u64 = 10;

/// A channel to be made.
#[derive(Debug)]
pub struct NewChannel {
    pub guild: u64,
    pub name: String,
    pub topic: String,
    /// The category under which the channel is made.
    pub category: u64,
}

/// A change to a channel; what is `None` stays as it is.
#[derive(Debug)]
pub struct ChannelEdit {
    pub channel: u64,
    pub name: Option<String>,
    pub topic: Option<String>,
    pub nsfw: Option<bool>,
}

/// What came of a request to the platform.
#[derive(Debug)]
pub enum Outcome<T> {
    Done(T),
    /// The platform did not answer within the time allowed.
    TimedOut,
    /// The platform refused or failed.
    Failed,
}

/// What the checks before a command on a channel give: the guild, or the
/// first of these errors: the command was given outside a guild, the channel
/// belongs to another guild, it stands under no category, it stands under
/// another category than the self-managed one.
pub open spec fn prechecked(guild: Option<u64>, channel: &Channel, config: &SelfManagement) -> Result<
    u64,
    Error,
> {
    match guild {
        None => Err(Error::Validation(Invalid::NotInGuild)),
        Some(g) => if channel.guild_id != g {
            Err(Error::Validation(Invalid::ForeignChannel))
        } else {
            match channel.parent_id {
                None => Err(Error::Validation(Invalid::NoCategory)),
                Some(parent) => if parent != config.category {
                    Err(Error::Validation(Invalid::WrongCategory))
                } else {
                    Ok(g)
                },
            }
        },
    }
}

/// The topic `topic` as it is stored for the owner `owner`: with the owner's
/// marker behind it where channels have owners, unless it ends with that
/// marker already.
pub open spec fn stored(topic: Seq<char>, owner: u64, config: &SelfManagement) -> Seq<char> {
    if config.ownership {
        encoded(topic, owner)
    } else {
        topic
    }
}

/// Who owns a channel after `author` changed its topic: the owner that the
/// topic recorded, where channels have owners and it recorded one; else
/// `author`.
pub open spec fn keeper(author: u64, channel: &Channel, config: &SelfManagement) -> u64 {
    if config.ownership {
        match channel_meta(channel) {
            Some(meta) => meta.owner,
            None => author,
        }
    } else {
        author
    }
}

/// The topic of a channel without its marker, where it has one: what is
/// left for the marker of a new owner to be put behind.
pub open spec fn unmarked(channel: &Channel) -> Seq<char> {
    match channel_meta(channel) {
        Some(_) => stripped(topic_text(channel.topic)),
        None => topic_text(channel.topic),
    }
}

/// Whether `command` is announced once the platform has carried it out.
pub open spec fn is_announced(command: Command) -> bool {
    command != Command::Claim
}

/// Whether the channels are ordered anew once the platform has carried out
/// `command`.
pub open spec fn is_reordering(command: Command) -> bool {
    command == Command::Create || command == Command::Update
}

/// Whether `command` is announced once the platform has carried it out: all
/// but a claim are.
pub fn announces(command: Command) -> (r: bool)
    ensures
        r == is_announced(command),
{
    match command {
        Command::Claim => false,
        _ => true,
    }
}

/// Whether the channels are ordered anew once the platform has carried out
/// `command`: after a channel was made or changed.
pub fn reorders(command: Command) -> (r: bool)
    ensures
        r == is_reordering(command),
{
    match command {
        Command::Create => true,
        Command::Update => true,
        _ => false,
    }
}

/// What a request to the platform gave, or why the command failed.
pub fn conclude<T>(outcome: Outcome<T>) -> (r: Result<T, Error>)
    ensures
        r == match outcome {
            Outcome::Done(value) => Ok::<T, Error>(value),
            Outcome::TimedOut => Err(Error::Timeout),
            Outcome::Failed => Err(Error::Remote),
        },
{
    match outcome {
        Outcome::Done(value) => Ok(value),
        Outcome::TimedOut => Err(Error::Timeout),
        Outcome::Failed => Err(Error::Remote),
    }
}

/// Checks that a command on `channel` was given in the guild of the channel
/// and that the channel stands under the self-managed category.
pub fn precheck_and_unwrap(guild: Option<u64>, channel: &Channel, config: &SelfManagement) -> (r:
    Result<u64, Error>)
    ensures
        r == prechecked(guild, channel, config),
{
    let g = match guild {
        Some(g) => g,
        None => {
            return Err(Error::Validation(Invalid::NotInGuild));
        },
    };
    if channel.guild_id != g {
        return Err(Error::Validation(Invalid::ForeignChannel));
    }
    match channel.parent_id {
        None => Err(Error::Validation(Invalid::NoCategory)),
        Some(parent) => {
            if parent != config.category {
                Err(Error::Validation(Invalid::WrongCategory))
            } else {
                Ok(g)
            }
        },
    }
}

/// Prepares the making of a channel by `author`: the channel goes under the
/// self-managed category, and its topic records `author` as the owner where
/// channels have owners. The command must be given inside a guild. The
/// platform gives no user the identity 0.
pub fn create_channel(
    guild: Option<u64>,
    author: u64,
    name: String,
    beschreibung: &str,
    config: &SelfManagement,
) -> (r: Result<NewChannel, Error>)
    requires
        config.ownership ==> author != 0,
    ensures
        match guild {
            None => r matches Err(e) && e == Error::Validation(Invalid::NotInGuild),
            Some(g) => r matches Ok(new) && new.guild == g && new.name@ == name@ && new.category
                == config.category && new.topic@ == stored(beschreibung@, author, config) && (
            config.ownership ==> decoded(new.topic@) == Some(ChannelMeta { owner: author })),
        },
{
    match guild {
        None => Err(Error::Validation(Invalid::NotInGuild)),
        Some(g) => Ok(
            NewChannel {
                guild: g,
                name,
                topic: inject_ownership(beschreibung, author, config),
                category: config.category,
            },
        ),
    }
}

/// What `update_channel` gives.
pub open spec fn update_outcome(
    guild: Option<u64>,
    author: u64,
    kanal: &Channel,
    name: Option<String>,
    beschreibung: Option<String>,
    nsfw: Option<bool>,
    config: &SelfManagement,
    now: i64,
    r: Result<ChannelEdit, Error>,
) -> bool {
    match prechecked(guild, kanal, config) {
        Err(e) => r matches Err(f) && f == e,
        Ok(_) => if !may_edit(author, kanal, config, now) {
            r matches Err(f) && f == Error::Permission(Command::Update)
        } else {
            r matches Ok(edit) && edit.channel == kanal.id && text_of(edit.name) == Some(
                match name {
                    Some(n) => n@,
                    None => kanal.name@,
                },
            ) && edit.nsfw == Some(
                match nsfw {
                    Some(flag) => flag,
                    None => kanal.nsfw,
                },
            ) && text_of(edit.topic) == match beschreibung {
                Some(topic) => Some(stored(topic@, keeper(author, kanal, config), config)),
                None => None,
            }
        },
    }
}

/// Prepares a change of `kanal` by `author` at the time `now`. The channel
/// must pass the checks of `precheck_and_unwrap`, and `author` must have the
/// right to change it. Name and flag stay as they are where none is given.
/// A new topic records the owner that the old topic recorded, and `author`
/// where it recorded none.
pub fn update_channel(
    guild: Option<u64>,
    author: u64,
    kanal: &Channel,
    name: Option<String>,
    beschreibung: Option<String>,
    nsfw: Option<bool>,
    config: &SelfManagement,
    now: i64,
) -> (r: Result<ChannelEdit, Error>)
    requires
        config.ownership ==> author != 0,
    ensures
        update_outcome(guild, author, kanal, name, beschreibung, nsfw, config, now, r),
{
    match precheck_and_unwrap(guild, kanal, config) {
        Err(e) => {
            return Err(e);
        },
        Ok(_) => {},
    }
    if !can_edit_channel_at(author, kanal, config, now) {
        return Err(Error::Permission(Command::Update));
    }
    let new_name = match name {
        Some(n) => n,
        None => kanal.name.clone(),
    };
    let new_nsfw = match nsfw {
        Some(flag) => flag,
        None => kanal.nsfw,
    };
    let topic = match beschreibung {
        Some(topic) => {
            let owner = if config.ownership {
                match ChannelMeta::from_channel(kanal) {
                    Some(meta) => meta.owner,
                    None => author,
                }
            } else {
                author
            };
            Some(inject_ownership(topic.as_str(), owner, config))
        },
        None => None,
    };
    Ok(ChannelEdit { channel: kanal.id, name: Some(new_name), topic, nsfw: Some(new_nsfw) })
}

/// What `claim_channel` gives.
pub open spec fn claim_outcome(
    guild: Option<u64>,
    author: u64,
    kanal: &Channel,
    config: &SelfManagement,
    now: i64,
    r: Result<ChannelEdit, Error>,
) -> bool {
    match prechecked(guild, kanal, config) {
        Err(e) => r matches Err(f) && f == e,
        Ok(_) => if !config.claiming || !config.ownership {
            r matches Err(f) && f == Error::Configuration
        } else if !may_edit(author, kanal, config, now) {
            r matches Err(f) && f == Error::Permission(Command::Claim)
        } else {
            r matches Ok(edit) && edit.channel == kanal.id && edit.name is None && edit.nsfw is None
                && text_of(edit.topic) == Some(encoded(unmarked(kanal), author)) && (
            edit.topic matches Some(topic) && decoded(topic@) == Some(ChannelMeta { owner: author }))
        },
    }
}

/// Prepares the taking over of `kanal` by `author` at the time `now`. The
/// channel must pass the checks of `precheck_and_unwrap`, channels must have
/// owners and taking over must be switched on, and `author` must have the
/// right to change the channel. The marker of the old owner, where there is
/// one, gives way to the marker of `author`; nothing else is changed.
pub fn claim_channel(
    guild: Option<u64>,
    author: u64,
    kanal: &Channel,
    config: &SelfManagement,
    now: i64,
) -> (r: Result<ChannelEdit, Error>)
    requires
        config.ownership ==> author != 0,
    ensures
        claim_outcome(guild, author, kanal, config, now, r),
{
    match precheck_and_unwrap(guild, kanal, config) {
        Err(e) => {
            return Err(e);
        },
        Ok(_) => {},
    }
    if !config.claiming || !config.ownership {
        return Err(Error::Configuration);
    }
    if !can_edit_channel_at(author, kanal, config, now) {
        return Err(Error::Permission(Command::Claim));
    }
    let topic = match &kanal.topic {
        Some(text) => match ChannelMeta::from_topic(text.as_str()) {
            Some(_) => remove_meta(text.as_str()),
            None => text.clone(),
        },
        None => String::new(),
    };
    let marked = inject_ownership(topic.as_str(), author, config);
    Ok(ChannelEdit { channel: kanal.id, name: None, topic: Some(marked), nsfw: None })
}

/// Prepares the removal of `kanal` by `author` at the time `now`: the
/// channel to remove. The channel must pass the checks of
/// `precheck_and_unwrap`, and `author` must have the right to change it.
pub fn delete_channel(
    guild: Option<u64>,
    author: u64,
    kanal: &Channel,
    config: &SelfManagement,
    now: i64,
) -> (r: Result<u64, Error>)
    ensures
        r == match prechecked(guild, kanal, config) {
            Err(e) => Err::<u64, Error>(e),
            Ok(_) => if may_edit(author, kanal, config, now) {
                Ok(kanal.id)
            } else {
                Err(Error::Permission(Command::Delete))
            },
        },
{
    match precheck_and_unwrap(guild, kanal, config) {
        Err(e) => {
            return Err(e);
        },
        Ok(_) => {},
    }
    if !can_edit_channel_at(author, kanal, config, now) {
        return Err(Error::Permission(Command::Delete));
    }
    Ok(kanal.id)
}

} // verus!
