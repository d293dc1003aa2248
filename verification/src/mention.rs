//! The textual form in which the platform refers to a user, a role or a
//! channel, and the reading of such a text.

use vstd::prelude::*;
use vstd::utf8::is_ascii_chars;
use crate::text::{all_digits, decimal, is_digit, lemma_decimal_digits};

verus! {

/// What a mention refers to, with the platform's identity of it.
#[derive(Clone, Copy, Debug, PartialEq, Eq, Structural)]
pub enum Mention {
    Channel(u64),
    Role(u64),
    User(u64),
}

impl Mention {
    /// The identity of what is mentioned.
    pub open spec fn id(self) -> u64 {
        match self {
            Mention::Channel(id) => id,
            Mention::Role(id) => id,
            Mention::User(id) => id,
        }
    }
}

/// Why a text was not accepted as the mention of a user.
#[derive(Clone, Copy, Debug, PartialEq, Eq, Structural)]
pub enum MentionError {
    /// The text is no mention at all.
    Unparseable,
    /// The text mentions a role or a channel.
    NotAUser,
}

/// The mention of the user `id`: `<@`, the decimal digits of `id`, `>`.
pub open spec fn mention_text(id: u64) -> Seq<char> {
    seq!['<', '@'] + decimal(id as nat) + seq!['>']
}

/// What serenity's mention parser makes of `text`.
pub uninterp spec fn parsed_mention(text: Seq<char>) -> Option<Mention>;

/// What `text` mentions, where only ASCII texts can be mentions.
pub open spec fn mention_of(text: Seq<char>) -> Option<Mention> {
    if is_ascii_chars(text) {
        parsed_mention(text)
    } else {
        None
    }
}

/// The user that `text` mentions, or why it mentions none.
pub open spec fn user_of(text: Seq<char>) -> Result<u64, MentionError> {
    match mention_of(text) {
        Some(Mention::User(id)) => Ok(id),
        Some(_) => Err(MentionError::NotAUser),
        None => Err(MentionError::Unparseable),
    }
}

/// Calls serenity's `Mention::from_str`, whose result is a function of the
/// text alone. The parser cuts the last byte off a text that begins like a
/// user's mention, so only ASCII texts are handed to it. Serenity's
/// identities are never zero.
#[verifier::external_body]
fn parse_mention(text: &str) -> (r: Option<Mention>)
    requires
        is_ascii_chars(text@),
    ensures
        r == parsed_mention(text@),
        r matches Some(mention) ==> mention.id() != 0,
{
    match text.parse::<serenity::model::mention::Mention>() {
        Ok(serenity::model::mention::Mention::Channel(id)) => Some(Mention::Channel(id.get())),
        Ok(serenity::model::mention::Mention::Role(id)) => Some(Mention::Role(id.get())),
        Ok(serenity::model::mention::Mention::User(id)) => Some(Mention::User(id.get())),
        Err(_) => None,
    }
}

/// Writes the user `user_id` as a mention, by the `Display` of serenity's
/// `Mention`: `<@`, the number in decimal digits, `>`. Serenity's user
/// identities are never zero. The second claim is that serenity's parser
/// reads this text back as the mention of the same user.
#[verifier::external_body]
pub fn serialize(user_id: u64) -> (r: String)
    requires
        user_id != 0,
    ensures
        r@ == mention_text(user_id),
        parsed_mention(r@) == Some(Mention::User(user_id)),
{
    serenity::model::mention::Mention::User(serenity::model::id::UserId::new(user_id)).to_string()
}

/// The mention of a user is ASCII, begins with `<`, ends with `>` and holds
/// neither a white character, nor a quote, nor a backslash, nor a control
/// character.
pub proof fn lemma_mention_text_shape(id: u64)
    ensures
        is_ascii_chars(mention_text(id)),
        mention_text(id).len() >= 4,
        mention_text(id)[0] == '<',
        mention_text(id).last() == '>',
        forall|i: int|
            0 <= i < mention_text(id).len() ==> {
                let c = #[trigger] mention_text(id)[i];
                c == '<' || c == '@' || c == '>' || is_digit(c)
            },
{
    lemma_decimal_digits(id as nat);
    let d = decimal(id as nat);
    let m = mention_text(id);
    assert(all_digits(d));
    assert forall|i: int| 0 <= i < m.len() implies {
        let c = #[trigger] m[i];
        c == '<' || c == '@' || c == '>' || is_digit(c)
    } by {
        if 2 <= i < 2 + d.len() {
            assert(m[i] == d[i - 2]);
        }
    }
    assert forall|i: int| 0 <= i < m.len() implies '\0' <= #[trigger] m[i] <= '\u{7f}' by {
        let c = m[i];
        assert(c == '<' || c == '@' || c == '>' || is_digit(c));
    }
}

/// Reads the text `text` as the mention of a user.
pub fn deserialize(text: &str) -> (r: Result<u64, MentionError>)
    ensures
        r == user_of(text@),
        r matches Ok(id) ==> id != 0,
{
    if !text.is_ascii() {
        return Err(MentionError::Unparseable);
    }
    match parse_mention(text) {
        Some(Mention::User(id)) => Ok(id),
        Some(_) => Err(MentionError::NotAUser),
        None => Err(MentionError::Unparseable),
    }
}

} // verus!
