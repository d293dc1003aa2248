//! What is announced about a change to a channel: a summary for everybody,
//! and one that names the acting user.

use vstd::prelude::*;
use crate::config::SelfManagement;
use crate::mention::{mention_text, serialize};
use crate::self_management::policy::{topic_text, Channel};

verus! {

/// One named fact of an announcement.
#[derive(Debug)]
pub struct Field {
    pub name: String,
    pub value: String,
    /// Whether the fact may share a line with others.
    pub inline: bool,
}

/// An announcement to be sent to a channel.
#[derive(Debug)]
pub struct Notice {
    /// The channel that the announcement goes to.
    pub channel: u64,
    pub title: String,
    pub fields: Vec<Field>,
}

/// A fact as plain values: name, value, and whether it is inline.
pub type Fact = (Seq<char>, Seq<char>, bool);

/// An announcement as plain values: destination, title, facts.
pub type Announcement = (u64, Seq<char>, Seq<Fact>);

impl Field {
    pub open spec fn model(self) -> Fact {
        (self.name@, self.value@, self.inline)
    }
}

impl Notice {
    pub open spec fn model(self) -> Announcement {
        (self.channel, self.title@, facts_of(self.fields@))
    }
}

/// The fields `fields` as plain values.
pub open spec fn facts_of(fields: Seq<Field>) -> Seq<Fact> {
    fields.map_values(|f: Field| f.model())
}

/// The announcements `notices` as plain values.
pub open spec fn announcements_of(notices: Seq<Notice>) -> Seq<Announcement> {
    notices.map_values(|n: Notice| n.model())
}

/// The text of an optional text, or none.
pub open spec fn text_of(text: Option<String>) -> Option<Seq<char>> {
    match text {
        Some(t) => Some(t@),
        None => None,
    }
}

/// How a change from `before` to `after` is written.
pub open spec fn diff_text(before: Seq<char>, after: Seq<char>) -> Seq<char> {
    "- `"@ + before + "`\n\n+ `"@ + after + "`"@
}

/// The facts about a channel that was made or removed: its name and its topic.
pub open spec fn presented(channel: &Channel) -> Seq<Fact> {
    seq![("Name"@, channel.name@, true), ("Beschreibung"@, topic_text(channel.topic), true)]
}

/// The fact about the name, where the name changed.
pub open spec fn name_change(before: &Channel, after: &Channel) -> Seq<Fact> {
    if before.name@ != after.name@ {
        seq![("Name"@, diff_text(before.name@, after.name@), true)]
    } else {
        Seq::empty()
    }
}

/// The fact about the topic, where the topic changed.
pub open spec fn topic_change(before: &Channel, after: &Channel) -> Seq<Fact> {
    if text_of(before.topic) != text_of(after.topic) {
        seq![
            (
                "Beschreibung"@,
                diff_text(topic_text(before.topic), topic_text(after.topic)),
                true,
            ),
        ]
    } else {
        Seq::empty()
    }
}

/// The fact about the flag for restricted content, where the flag changed.
pub open spec fn flag_change(before: &Channel, after: &Channel) -> Seq<Fact> {
    if before.nsfw != after.nsfw {
        seq![
            (
                "NSFW"@,
                if after.nsfw {
                    "ja"@
                } else {
                    "nein"@
                },
                true,
            ),
        ]
    } else {
        Seq::empty()
    }
}

/// The facts about what happened to a channel: for a channel that was made
/// or removed its name and topic, for a channel that was changed each of
/// name, topic and flag that differs.
pub open spec fn changes(before: Option<&Channel>, after: Option<&Channel>) -> Seq<Fact> {
    match (before, after) {
        (None, None) => Seq::empty(),
        (None, Some(a)) => presented(a),
        (Some(b), None) => presented(b),
        (Some(b), Some(a)) => name_change(b, a) + topic_change(b, a) + flag_change(b, a),
    }
}

/// The fact that names the acting user, where one is named.
pub open spec fn actor_fact(user: Option<u64>) -> Seq<Fact> {
    match user {
        Some(u) => seq![("Nutzer"@, mention_text(u), false)],
        None => Seq::empty(),
    }
}

/// What is announced to `channel_id` about a change: nothing where no
/// destination is configured or nothing changed.
pub open spec fn announced(
    channel_id: Option<u64>,
    summary: Seq<char>,
    before: Option<&Channel>,
    after: Option<&Channel>,
    user: Option<u64>,
) -> Option<Announcement> {
    match channel_id {
        Some(id) if changes(before, after).len() > 0 => Some(
            (id, summary, changes(before, after) + actor_fact(user)),
        ),
        _ => None,
    }
}

/// The announcement `one`, where there is one, as a list.
pub open spec fn listed(one: Option<Announcement>) -> Seq<Announcement> {
    match one {
        Some(a) => seq![a],
        None => Seq::empty(),
    }
}

/// Whether two optional texts are the same.
pub fn same_text(a: &Option<String>, b: &Option<String>) -> (r: bool)
    ensures
        r == (text_of(*a) == text_of(*b)),
{
    match a {
        Some(x) => match b {
            Some(y) => *x == *y,
            None => false,
        },
        None => b.is_none(),
    }
}

/// The fact with the name `name` and the value `value`.
fn field(name: &str, value: String, inline: bool) -> (r: Field)
    ensures
        r.model() == (name@, value@, inline),
{
    Field { name: name.to_owned(), value, inline }
}

/// Writes a change from `before` to `after`.
pub fn diff(before: &str, after: &str) -> (r: String)
    ensures
        r@ == diff_text(before@, after@),
{
    let mut r = "- `".to_owned();
    r.append(before);
    r.append("`\n\n+ `");
    r.append(after);
    r.append("`");
    r
}

/// The text of the topic `topic`; a missing topic has the empty text.
fn topic_or_empty(topic: &Option<String>) -> (r: String)
    ensures
        r@ == topic_text(*topic),
{
    match topic {
        Some(t) => t.clone(),
        None => String::new(),
    }
}

/// The name and the topic of `channel` as facts.
fn present(channel: &Channel) -> (r: Vec<Field>)
    ensures
        facts_of(r@) == presented(channel),
{
    let mut r: Vec<Field> = Vec::new();
    r.push(field("Name", channel.name.clone(), true));
    r.push(field("Beschreibung", topic_or_empty(&channel.topic), true));
    proof {
        assert(facts_of(r@) =~= presented(channel));
    }
    r
}

/// The facts about what happened to a channel.
pub fn changed_fields(before: Option<&Channel>, after: Option<&Channel>) -> (r: Vec<Field>)
    ensures
        facts_of(r@) == changes(before, after),
{
    match (before, after) {
        (None, None) => {
            let r: Vec<Field> = Vec::new();
            proof {
                assert(facts_of(r@) =~= changes(before, after));
            }
            r
        },
        (None, Some(a)) => present(a),
        (Some(b), None) => present(b),
        (Some(b), Some(a)) => {
            let mut r: Vec<Field> = Vec::new();
            proof {
                assert(facts_of(r@) =~= Seq::<Fact>::empty());
            }
            if b.name != a.name {
                r.push(field("Name", diff(b.name.as_str(), a.name.as_str()), true));
            }
            proof {
                assert(facts_of(r@) =~= name_change(b, a));
            }
            if !same_text(&b.topic, &a.topic) {
                let old = topic_or_empty(&b.topic);
                let new = topic_or_empty(&a.topic);
                r.push(field("Beschreibung", diff(old.as_str(), new.as_str()), true));
            }
            proof {
                assert(facts_of(r@) =~= name_change(b, a) + topic_change(b, a));
            }
            if b.nsfw != a.nsfw {
                let value = if a.nsfw {
                    "ja".to_owned()
                } else {
                    "nein".to_owned()
                };
                r.push(field("NSFW", value, true));
            }
            proof {
                assert(facts_of(r@) =~= changes(before, after));
            }
            r
        },
    }
}

/// Prepares the announcement of a change for the channel `channel_id`, with
/// the acting user where `user` names one. Nothing is announced where no
/// destination is configured, or where a channel was changed and neither
/// its name, nor its topic, nor its flag differs. A change is a change of a
/// channel: one of `before` and `after` is given at least.
pub fn log_modification(
    channel_id: Option<u64>,
    summary: &str,
    before: Option<&Channel>,
    after: Option<&Channel>,
    user: Option<u64>,
) -> (r: Option<Notice>)
    requires
        before is Some || after is Some,
        channel_id is Some ==> (user matches Some(u) ==> u != 0),
    ensures
        match announced(channel_id, summary@, before, after, user) {
            Some(a) => r matches Some(notice) && notice.model() == a,
            None => r is None,
        },
{
    let channel = match channel_id {
        Some(id) => id,
        None => {
            return None;
        },
    };
    let mut fields = changed_fields(before, after);
    if fields.len() == 0 {
        return None;
    }
    let ghost shown = fields@;
    match user {
        Some(u) => {
            fields.push(field("Nutzer", serialize(u), false));
        },
        None => {},
    }
    proof {
        assert(facts_of(fields@) =~= facts_of(shown) + actor_fact(user));
    }
    Some(Notice { channel, title: summary.to_owned(), fields })
}

/// Prepares both announcements of a change: the one for everybody, without
/// the acting user, and the detailed one, with the acting user, each where
/// its destination is configured and something changed.
pub fn log_both(
    config: &SelfManagement,
    summary: &str,
    before: Option<&Channel>,
    after: Option<&Channel>,
    author: u64,
) -> (r: Vec<Notice>)
    requires
        before is Some || after is Some,
        config.logging_detailed is Some ==> author != 0,
    ensures
        announcements_of(r@) == listed(announced(config.logging, summary@, before, after, None))
            + listed(announced(config.logging_detailed, summary@, before, after, Some(author))),
{
    let mut r: Vec<Notice> = Vec::new();
    proof {
        assert(announcements_of(r@) =~= Seq::<Announcement>::empty());
    }
    match log_modification(config.logging, summary, before, after, None) {
        Some(notice) => {
            r.push(notice);
        },
        None => {},
    }
    proof {
        assert(announcements_of(r@) =~= listed(
            announced(config.logging, summary@, before, after, None),
        ));
    }
    match log_modification(config.logging_detailed, summary, before, after, Some(author)) {
        Some(notice) => {
            r.push(notice);
        },
        None => {},
    }
    proof {
        assert(announcements_of(r@) =~= listed(
            announced(config.logging, summary@, before, after, None),
        ) + listed(announced(config.logging_detailed, summary@, before, after, Some(author))));
    }
    r
}

} // verus!
