use guild_steward::config::SelfManagement;
use guild_steward::error::{Command, Error, Invalid};
use guild_steward::self_management::ownership::{inject_ownership, ChannelMeta};
use guild_steward::self_management::policy::Channel;
use guild_steward::self_management::{
    announces, claim_channel, conclude, create_channel, delete_channel, precheck_and_unwrap,
    reorders, update_channel, Outcome, CHANNEL_EDIT_TIMEOUT,
};

const AT: i64 = 1_700_000_000;
const GUILD: u64 = 1;
const CATEGORY: u64 = 10;

fn rules(ownership: bool, claiming: bool) -> SelfManagement {
    SelfManagement {
        category: CATEGORY,
        ownership,
        limit: 5,
        join_age_limit: 0,
        abandon_after: 86400,
        claiming,
        logging: Some(70),
        logging_detailed: Some(71),
    }
}

fn room(topic: Option<&str>, last_activity: Option<i64>) -> Channel {
    Channel {
        id: 100,
        guild_id: GUILD,
        name: "talk".to_string(),
        topic: topic.map(|t| t.to_string()),
        nsfw: false,
        parent_id: Some(CATEGORY),
        last_activity,
    }
}

fn room_of(owner: u64, last_activity: Option<i64>) -> Channel {
    let topic = inject_ownership("about", owner, &rules(true, true));
    room(Some(&topic), last_activity)
}

#[test]
fn edit_timeout_is_ten_seconds() {
    assert_eq!(CHANNEL_EDIT_TIMEOUT, 10);
}

#[test]
fn precheck_passes_a_channel_of_the_category() {
    assert_eq!(precheck_and_unwrap(Some(GUILD), &room(None, None), &rules(true, true)), Ok(GUILD));
}

#[test]
fn precheck_needs_a_guild() {
    assert_eq!(
        precheck_and_unwrap(None, &room(None, None), &rules(true, true)),
        Err(Error::Validation(Invalid::NotInGuild))
    );
}

#[test]
fn precheck_rejects_a_foreign_channel() {
    assert_eq!(
        precheck_and_unwrap(Some(2), &room(None, None), &rules(true, true)),
        Err(Error::Validation(Invalid::ForeignChannel))
    );
}

#[test]
fn precheck_rejects_a_channel_without_category() {
    let mut c = room(None, None);
    c.parent_id = None;
    assert_eq!(
        precheck_and_unwrap(Some(GUILD), &c, &rules(true, true)),
        Err(Error::Validation(Invalid::NoCategory))
    );
}

#[test]
fn precheck_rejects_another_category() {
    let mut c = room(None, None);
    c.parent_id = Some(11);
    assert_eq!(
        precheck_and_unwrap(Some(GUILD), &c, &rules(true, true)),
        Err(Error::Validation(Invalid::WrongCategory))
    );
}

#[test]
fn precheck_names_the_first_failure() {
    let mut c = room(None, None);
    c.guild_id = 2;
    c.parent_id = None;
    assert_eq!(
        precheck_and_unwrap(Some(GUILD), &c, &rules(true, true)),
        Err(Error::Validation(Invalid::ForeignChannel))
    );
    assert_eq!(
        precheck_and_unwrap(None, &c, &rules(true, true)),
        Err(Error::Validation(Invalid::NotInGuild))
    );
}

#[test]
fn create_records_the_creator() {
    let new = create_channel(Some(GUILD), 5, "fresh".to_string(), "what for", &rules(true, true))
        .unwrap();
    assert_eq!(new.guild, GUILD);
    assert_eq!(new.name, "fresh");
    assert_eq!(new.category, CATEGORY);
    assert_eq!(new.topic, "what for\n\n{\"owner\":\"<@5>\"}");
    assert_eq!(ChannelMeta::from_topic(&new.topic), Some(ChannelMeta { owner: 5 }));
}

#[test]
fn create_without_ownership_keeps_the_description() {
    let new = create_channel(Some(GUILD), 5, "fresh".to_string(), "what for", &rules(false, true))
        .unwrap();
    assert_eq!(new.topic, "what for");
}

#[test]
fn create_needs_a_guild() {
    let r = create_channel(None, 5, "fresh".to_string(), "what for", &rules(true, true));
    assert!(matches!(r, Err(Error::Validation(Invalid::NotInGuild))));
}

#[test]
fn update_without_ownership_always_succeeds() {
    let config = rules(false, false);
    for topic in [None, Some("plain"), Some("x\n\n{\"owner\":\"<@5>\"}"), Some("x\n\n{\"owner\":")] {
        for actor in [5u64, 6, 7] {
            let c = room(topic, Some(AT));
            let r = update_channel(Some(GUILD), actor, &c, Some("new".to_string()), None, None, &config, AT);
            let edit = r.unwrap();
            assert_eq!(edit.channel, 100);
            assert_eq!(edit.name.as_deref(), Some("new"));
            assert_eq!(edit.nsfw, Some(false));
            assert_eq!(edit.topic, None);
        }
    }
}

#[test]
fn update_after_forty_hours_succeeds_for_all() {
    let config = rules(true, true);
    let c = room_of(5, Some(AT - 40 * 3600));
    assert!(update_channel(Some(GUILD), 6, &c, None, None, Some(true), &config, AT).is_ok());
    assert!(update_channel(Some(GUILD), 5, &c, None, None, Some(true), &config, AT).is_ok());
}

#[test]
fn update_by_another_user_is_denied() {
    let config = rules(true, true);
    let c = room_of(5, Some(AT - 3600));
    let r = update_channel(Some(GUILD), 6, &c, None, None, None, &config, AT);
    assert!(matches!(r, Err(Error::Permission(Command::Update))));
}

#[test]
fn update_checks_the_channel_before_the_right() {
    let config = rules(true, true);
    let mut c = room_of(5, Some(AT));
    c.parent_id = Some(11);
    let r = update_channel(Some(GUILD), 6, &c, None, None, None, &config, AT);
    assert!(matches!(r, Err(Error::Validation(Invalid::WrongCategory))));
}

#[test]
fn update_keeps_what_is_not_given() {
    let config = rules(true, true);
    let mut c = room_of(5, None);
    c.nsfw = true;
    let edit = update_channel(Some(GUILD), 5, &c, None, None, None, &config, AT).unwrap();
    assert_eq!(edit.name.as_deref(), Some("talk"));
    assert_eq!(edit.nsfw, Some(true));
    assert_eq!(edit.topic, None);
}

#[test]
fn update_applies_what_is_given() {
    let config = rules(true, true);
    let c = room_of(5, None);
    let edit = update_channel(
        Some(GUILD),
        5,
        &c,
        Some("renamed".to_string()),
        Some("new words".to_string()),
        Some(true),
        &config,
        AT,
    )
    .unwrap();
    assert_eq!(edit.name.as_deref(), Some("renamed"));
    assert_eq!(edit.nsfw, Some(true));
    assert_eq!(edit.topic.as_deref(), Some("new words\n\n{\"owner\":\"<@5>\"}"));
}

#[test]
fn update_of_an_abandoned_channel_keeps_its_owner() {
    let config = rules(true, true);
    let c = room_of(5, Some(AT - 40 * 3600));
    let edit = update_channel(Some(GUILD), 6, &c, None, Some("new words".to_string()), None, &config, AT)
        .unwrap();
    assert_eq!(edit.topic.as_deref(), Some("new words\n\n{\"owner\":\"<@5>\"}"));
}

#[test]
fn update_of_an_unclaimed_channel_records_the_actor() {
    let config = rules(true, true);
    let c = room(Some("plain"), None);
    let edit = update_channel(Some(GUILD), 6, &c, None, Some("new words".to_string()), None, &config, AT)
        .unwrap();
    assert_eq!(edit.topic.as_deref(), Some("new words\n\n{\"owner\":\"<@6>\"}"));
}

#[test]
fn update_without_ownership_writes_no_marker() {
    let config = rules(false, true);
    let c = room_of(5, None);
    let edit = update_channel(Some(GUILD), 6, &c, None, Some("new words".to_string()), None, &config, AT)
        .unwrap();
    assert_eq!(edit.topic.as_deref(), Some("new words"));
}

#[test]
fn claim_with_claiming_off_is_a_configuration_error() {
    let config = rules(true, false);
    let c = room_of(5, Some(AT - 40 * 3600));
    let r = claim_channel(Some(GUILD), 6, &c, &config, AT);
    assert!(matches!(r, Err(Error::Configuration)));
}

#[test]
fn claim_with_ownership_off_is_a_configuration_error() {
    let config = rules(false, true);
    let c = room(Some("plain"), None);
    let r = claim_channel(Some(GUILD), 6, &c, &config, AT);
    assert!(matches!(r, Err(Error::Configuration)));
}

#[test]
fn claim_checks_the_channel_first() {
    let config = rules(false, false);
    let mut c = room(Some("plain"), None);
    c.guild_id = 2;
    let r = claim_channel(Some(GUILD), 6, &c, &config, AT);
    assert!(matches!(r, Err(Error::Validation(Invalid::ForeignChannel))));
}

#[test]
fn claim_of_an_owned_channel_is_denied() {
    let config = rules(true, true);
    let c = room_of(5, Some(AT));
    let r = claim_channel(Some(GUILD), 6, &c, &config, AT);
    assert!(matches!(r, Err(Error::Permission(Command::Claim))));
}

#[test]
fn claim_of_an_abandoned_channel_replaces_the_marker() {
    let config = rules(true, true);
    let c = room_of(5, Some(AT - 40 * 3600));
    let edit = claim_channel(Some(GUILD), 6, &c, &config, AT).unwrap();
    assert_eq!(edit.channel, 100);
    assert_eq!(edit.name, None);
    assert_eq!(edit.nsfw, None);
    assert_eq!(edit.topic.as_deref(), Some("about\n\n{\"owner\":\"<@6>\"}"));
}

#[test]
fn claim_of_an_unclaimed_channel_keeps_the_topic() {
    let config = rules(true, true);
    let edit = claim_channel(Some(GUILD), 6, &room(Some("two\nlines"), None), &config, AT).unwrap();
    assert_eq!(edit.topic.as_deref(), Some("two\nlines\n\n{\"owner\":\"<@6>\"}"));
    let edit = claim_channel(Some(GUILD), 6, &room(None, None), &config, AT).unwrap();
    assert_eq!(edit.topic.as_deref(), Some("\n\n{\"owner\":\"<@6>\"}"));
}

#[test]
fn claim_by_the_owner_keeps_the_owner() {
    let config = rules(true, true);
    let edit = claim_channel(Some(GUILD), 5, &room_of(5, None), &config, AT).unwrap();
    assert_eq!(edit.topic.as_deref(), Some("about\n\n{\"owner\":\"<@5>\"}"));
}

#[test]
fn delete_by_the_owner_names_the_channel() {
    let config = rules(true, true);
    assert_eq!(delete_channel(Some(GUILD), 5, &room_of(5, None), &config, AT), Ok(100));
}

#[test]
fn delete_by_another_user_is_denied() {
    let config = rules(true, true);
    assert_eq!(
        delete_channel(Some(GUILD), 6, &room_of(5, Some(AT)), &config, AT),
        Err(Error::Permission(Command::Delete))
    );
}

#[test]
fn delete_checks_the_channel_first() {
    let config = rules(true, true);
    assert_eq!(
        delete_channel(None, 5, &room_of(5, None), &config, AT),
        Err(Error::Validation(Invalid::NotInGuild))
    );
}

#[test]
fn conclude_names_what_went_wrong() {
    assert_eq!(conclude(Outcome::Done(3)), Ok(3));
    assert_eq!(conclude::<u8>(Outcome::TimedOut), Err(Error::Timeout));
    assert_eq!(conclude::<u8>(Outcome::Failed), Err(Error::Remote));
}

#[test]
fn all_but_claims_are_announced() {
    assert!(announces(Command::Create));
    assert!(announces(Command::Update));
    assert!(announces(Command::Delete));
    assert!(!announces(Command::Claim));
}

#[test]
fn making_and_changing_reorder() {
    assert!(reorders(Command::Create));
    assert!(reorders(Command::Update));
    assert!(!reorders(Command::Claim));
    assert!(!reorders(Command::Delete));
}

#[test]
fn every_error_has_a_message() {
    let all = [
        Error::Validation(Invalid::NotInGuild),
        Error::Validation(Invalid::ForeignChannel),
        Error::Validation(Invalid::NoCategory),
        Error::Validation(Invalid::WrongCategory),
        Error::Validation(Invalid::UnknownAssignment),
        Error::Validation(Invalid::NoMember),
        Error::Validation(Invalid::MalformedRole),
        Error::Validation(Invalid::UnknownPage),
        Error::Permission(Command::Create),
        Error::Permission(Command::Update),
        Error::Permission(Command::Claim),
        Error::Permission(Command::Delete),
        Error::Timeout,
        Error::Remote,
        Error::Configuration,
    ];
    for (i, a) in all.iter().enumerate() {
        assert!(!a.message().is_empty());
        for b in all.iter().skip(i + 1) {
            assert_ne!(a.message(), b.message());
        }
    }
    assert_eq!(
        Error::Permission(Command::Update).message(),
        "Du darfst diesen Kanal nicht bearbeiten."
    );
    assert_eq!(Error::Configuration.message(), "Kanal\u{fc}bernahmen sind deaktiviert.");
}

#[test]
fn a_message_can_name_what_it_is_about() {
    assert_eq!(
        Error::Validation(Invalid::UnknownAssignment).message_about("shapes"),
        "Unknown assignment: shapes"
    );
    assert_eq!(
        Error::Validation(Invalid::UnknownPage).message_about("missing.md"),
        "Unknown toc file: missing.md"
    );
    assert_eq!(
        Error::Validation(Invalid::MalformedRole).message_about(""),
        "selected value is not the number of a role: "
    );
}

#[test]
fn create_keeps_a_description_that_names_the_creator() {
    let described = "what for\n\n{\"owner\":\"<@5>\"}";
    let new = create_channel(Some(GUILD), 5, "fresh".to_string(), described, &rules(true, true))
        .unwrap();
    assert_eq!(new.topic, described);
    let other = create_channel(Some(GUILD), 6, "fresh".to_string(), described, &rules(true, true))
        .unwrap();
    assert_eq!(other.topic, "what for\n\n{\"owner\":\"<@5>\"}\n\n{\"owner\":\"<@6>\"}");
}

#[test]
fn update_keeps_a_description_that_names_the_owner() {
    let config = rules(true, true);
    let c = room_of(5, None);
    let described = "new words\n\n{\"owner\":\"<@5>\"}".to_string();
    let edit = update_channel(Some(GUILD), 5, &c, None, Some(described.clone()), None, &config, AT)
        .unwrap();
    assert_eq!(edit.topic, Some(described));
}

#[test]
fn claim_writes_one_marker() {
    let config = rules(true, true);
    let c = room_of(5, Some(AT - 40 * 3600));
    let edit = claim_channel(Some(GUILD), 6, &c, &config, AT).unwrap();
    let topic = edit.topic.unwrap();
    assert_eq!(topic.matches("owner").count(), 1);
    assert_eq!(ChannelMeta::from_topic(&topic), Some(ChannelMeta { owner: 6 }));
    let mut claimed = room(Some(&topic), Some(AT - 40 * 3600));
    claimed.id = 100;
    let again = claim_channel(Some(GUILD), 6, &claimed, &config, AT).unwrap();
    assert_eq!(again.topic, Some(topic));
}
