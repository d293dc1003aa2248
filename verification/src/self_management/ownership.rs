//! The ownership marker: a last line of a channel's topic that names the
//! channel's owner, written and read as a JSON object.

use vstd::prelude::*;
use crate::config::SelfManagement;
use crate::mention::{deserialize, lemma_mention_text_shape, mention_text, serialize, user_of};
use crate::text::{
    all_white, before_last_line, from_chars, is_white, last_line, lead, lemma_last_break_at,
    lemma_lead_at, lemma_lead_props, lemma_trail_at, lemma_trail_props, lemma_trimmed_core,
    lemma_trimmed_shape, lemma_trimmed_white, lemma_unfold_concat, lemma_unfold_first,
    lemma_unfold_last, lemma_unfold_last_line, lemma_unfold_white, line_start, to_chars, trail,
    trim_bounds, trimmed, unfold, unfold_breaks,
};

verus! {

/// What a channel's topic records about the channel.
#[derive(Clone, Copy, Debug, PartialEq, Eq, Structural)]
pub struct ChannelMeta {
    /// The user who owns the channel.
    pub owner: u64,
}

/// One member of a JSON object: its key, and its value where that is a string.
pub struct Member {
    pub key: String,
    pub text: Option<String>,
}

impl Member {
    /// The member as plain sequences of characters.
    pub open spec fn model(self) -> (Seq<char>, Option<Seq<char>>) {
        (
            self.key@,
            match self.text {
                Some(t) => Some(t@),
                None => None,
            },
        )
    }
}

/// The members `members` as plain sequences of characters.
pub open spec fn members_model(members: Seq<Member>) -> Seq<(Seq<char>, Option<Seq<char>>)> {
    members.map_values(|m: Member| m.model())
}

/// The members of the JSON object that serde_json reads from `line`; none
/// where `line` is no JSON object.
pub uninterp spec fn json_members(line: Seq<char>) -> Option<Seq<(Seq<char>, Option<Seq<char>>)>>;

/// The key under which the owner is recorded.
pub open spec fn owner_key() -> Seq<char> {
    seq!['o', 'w', 'n', 'e', 'r']
}

/// Whether JSON writes every character of `s` as it stands.
pub open spec fn unescaped(s: Seq<char>) -> bool {
    forall|i: int| 0 <= i < s.len() ==> ' ' <= #[trigger] s[i] && s[i] != '"' && s[i] != '\\'
}

/// The JSON object with the one member `key`, of the string value `text`,
/// where neither needs an escape.
pub open spec fn object_line(key: Seq<char>, text: Seq<char>) -> Seq<char> {
    seq!['{', '"'] + key + seq!['"', ':', '"'] + text + seq!['"', '}']
}

/// The marker that names `owner`.
pub open spec fn marker_line(owner: u64) -> Seq<char> {
    object_line(owner_key(), mention_text(owner))
}

/// The topic `topic` followed by an empty line and the marker of `owner`.
pub open spec fn injected(topic: Seq<char>, owner: u64) -> Seq<char> {
    topic + seq!['\n', '\n'] + marker_line(owner)
}

/// Whether the topic already ends with the marker of `owner`.
pub open spec fn is_marked_for(topic: Seq<char>, owner: u64) -> bool {
    decoded(topic) == Some(ChannelMeta { owner })
}

/// The topic `topic` with `owner` recorded in it: the topic itself where it
/// ends with the marker of `owner` already, else the topic with the marker
/// behind it.
pub open spec fn encoded(topic: Seq<char>, owner: u64) -> Seq<char> {
    if is_marked_for(topic, owner) {
        topic
    } else {
        injected(topic, owner)
    }
}

/// The string value of the first member with the owner's key.
pub open spec fn owner_text(members: Seq<(Seq<char>, Option<Seq<char>>)>) -> Option<Seq<char>>
    decreases members.len(),
{
    if members.len() == 0 {
        None
    } else if members[0].0 == owner_key() {
        members[0].1
    } else {
        owner_text(members.drop_first())
    }
}

/// What the members `members` of an object record: the user that the owner's
/// text mentions.
pub open spec fn members_meta(members: Seq<(Seq<char>, Option<Seq<char>>)>) -> Option<ChannelMeta> {
    match owner_text(members) {
        Some(text) => match user_of(text) {
            Ok(owner) => Some(ChannelMeta { owner }),
            Err(_) => None,
        },
        None => None,
    }
}

/// What the line `line` records, where it is a marker.
pub open spec fn line_meta(line: Seq<char>) -> Option<ChannelMeta> {
    match json_members(line) {
        Some(members) => members_meta(members),
        None => None,
    }
}

/// What the topic `topic` records: the reading of the last line of the
/// trimmed topic.
pub open spec fn decoded(topic: Seq<char>) -> Option<ChannelMeta> {
    let t = trimmed(topic);
    if t.len() == 0 {
        None
    } else {
        line_meta(last_line(t))
    }
}

/// The topic `topic` without its last line: trimmed, cut before the last line
/// feed, line breaks unfolded, and trimmed again.
pub open spec fn stripped(topic: Seq<char>) -> Seq<char> {
    trimmed(unfold_breaks(before_last_line(trimmed(topic))))
}

/// Calls serde_json's `to_string` on the object with the one member `key`,
/// whose value is the string `text`. Where neither holds a quote, a backslash
/// or a control character, the result is the text of `object_line`. The
/// second claim is that serde_json reads its own output back as an object
/// with that one member.
#[verifier::external_body]
fn object_text(key: &str, text: &str) -> (r: String)
    ensures
        unescaped(key@) && unescaped(text@) ==> r@ == object_line(key@, text@),
        json_members(r@) == Some(seq![(key@, Some(text@))]),
{
    let mut object = serde_json::Map::new();
    object.insert(key.to_owned(), serde_json::Value::String(text.to_owned()));
    serde_json::to_string(&serde_json::Value::Object(object)).unwrap_or_default()
}

/// Calls serde_json's `from_str` for a `Value`, and lists the members where
/// the value is an object. The result is a function of the text alone.
#[verifier::external_body]
fn object_members(line: &str) -> (r: Option<Vec<Member>>)
    ensures
        match r {
            Some(members) => json_members(line@) == Some(members_model(members@)),
            None => json_members(line@) is None,
        },
{
    match serde_json::from_str::<serde_json::Value>(line) {
        Ok(serde_json::Value::Object(object)) => {
            let mut members = Vec::new();
            for (key, value) in object {
                let text = match value {
                    serde_json::Value::String(text) => Some(text),
                    _ => None,
                };
                members.push(Member { key, text });
            }
            Some(members)
        },
        _ => None,
    }
}

/// The text `owner`.
fn owner_name() -> (r: String)
    ensures
        r@ == owner_key(),
{
    let mut r = String::new();
    r.push('o');
    r.push('w');
    r.push('n');
    r.push('e');
    r.push('r');
    proof {
        assert(r@ =~= owner_key());
    }
    r
}

/// The marker of any owner holds no line feed, begins and ends with a
/// character that is not white, and needs no escape in JSON.
pub proof fn lemma_marker_shape(owner: u64)
    ensures
        unescaped(owner_key()),
        unescaped(mention_text(owner)),
        marker_line(owner).len() >= 2,
        !is_white(marker_line(owner)[0]),
        !is_white(marker_line(owner).last()),
        forall|i: int| 0 <= i < marker_line(owner).len() ==> #[trigger] marker_line(owner)[i] != '\n',
{
    lemma_mention_text_shape(owner);
    let m = mention_text(owner);
    let line = marker_line(owner);
    assert forall|i: int| 0 <= i < line.len() implies #[trigger] line[i] != '\n' by {
        if 10 <= i < 10 + m.len() {
            assert(line[i] == m[i - 10]);
        }
    }
}

/// How a topic with a marker behind it is framed: trimming leaves the marker
/// as the last line, and before it the topic without its white beginning,
/// with one line feed behind it.
pub proof fn lemma_injected_frame(topic: Seq<char>, owner: u64)
    ensures
        trimmed(injected(topic, owner)).len() > 0,
        last_line(trimmed(injected(topic, owner))) == marker_line(owner),
        before_last_line(trimmed(injected(topic, owner))) == if lead(topic) >= topic.len() {
            Seq::<char>::empty()
        } else {
            topic.skip(lead(topic) as int).push('\n')
        },
{
    let m = marker_line(owner);
    let full = injected(topic, owner);
    let n = topic.len() as int;
    lemma_marker_shape(owner);
    lemma_lead_props(topic);
    assert(full.len() == n + 2 + m.len());
    assert(full.last() == m.last());
    lemma_trail_at(full, 0);
    assert forall|j: int| 0 <= j < n implies #[trigger] full[j] == topic[j] by {}
    assert(full[n] == '\n' && full[n + 1] == '\n');
    assert forall|j: int| 0 <= j < m.len() implies #[trigger] full[n + 2 + j] == m[j] by {}
    if lead(topic) < n {
        let l = lead(topic) as int;
        assert forall|j: int| 0 <= j < l implies is_white(#[trigger] full[j]) by {
            assert(full[j] == topic[j]);
        }
        assert(full[l] == topic[l]);
        lemma_lead_at(full, l);
        let t = trimmed(full);
        assert(t =~= full.subrange(l, full.len() as int));
        let k = n - l + 1;
        assert(t[k] == full[n + 1]);
        assert forall|j: int| k < j < t.len() implies #[trigger] t[j] != '\n' by {
            assert(t[j] == full[n + 2 + (j - k - 1)]);
            assert(t[j] == m[j - k - 1]);
        }
        lemma_last_break_at(t, k);
        assert(last_line(t) =~= m) by {
            assert forall|j: int| 0 <= j < m.len() implies last_line(t)[j] == m[j] by {
                assert(last_line(t)[j] == t[k + 1 + j]);
                assert(t[k + 1 + j] == full[n + 2 + j]);
            }
        }
        assert(before_last_line(t) =~= topic.skip(l).push('\n')) by {
            assert forall|j: int| 0 <= j < k implies before_last_line(t)[j] == topic.skip(l).push(
                '\n',
            )[j] by {
                assert(before_last_line(t)[j] == full[l + j]);
                if j < n - l {
                    assert(full[l + j] == topic[l + j]);
                }
            }
        }
    } else {
        assert forall|j: int| 0 <= j < n + 2 implies is_white(#[trigger] full[j]) by {
            if j < n {
                assert(full[j] == topic[j]);
            }
        }
        assert(full[n + 2] == m[0]);
        lemma_lead_at(full, n + 2);
        let t = trimmed(full);
        assert(t =~= m) by {
            assert forall|j: int| 0 <= j < m.len() implies t[j] == m[j] by {
                assert(t[j] == full[n + 2 + j]);
            }
        }
        lemma_last_break_at(t, -1);
        assert(last_line(t) =~= m);
    }
}

/// Reading a topic behind which a marker was put gives what the marker records.
pub proof fn lemma_decoded_injected(topic: Seq<char>, owner: u64)
    ensures
        decoded(injected(topic, owner)) == line_meta(marker_line(owner)),
{
    lemma_injected_frame(topic, owner);
}

/// Removing the marker that was put behind a topic gives the topic back,
/// trimmed and with its line breaks unfolded.
pub proof fn lemma_stripped_injected(topic: Seq<char>, owner: u64)
    ensures
        stripped(injected(topic, owner)) == unfold_breaks(trimmed(topic)),
{
    lemma_injected_frame(topic, owner);
    lemma_trimmed_shape(topic);
    lemma_lead_props(topic);
    lemma_trail_props(topic);
    if lead(topic) >= topic.len() {
        assert(unfold_breaks(Seq::<char>::empty()) =~= Seq::<char>::empty());
        lemma_trimmed_white(Seq::<char>::empty());
    } else {
        let core = trimmed(topic);
        let tail = topic.skip(topic.len() - trail(topic)).push('\n');
        let body = topic.skip(lead(topic) as int).push('\n');
        assert(body =~= core + tail);
        assert(all_white(tail)) by {
            assert forall|i: int| 0 <= i < tail.len() implies is_white(#[trigger] tail[i]) by {
                if i < tail.len() - 1 {
                    assert(tail[i] == topic[topic.len() - trail(topic) + i]);
                }
            }
        }
        lemma_unfold_concat(core, tail);
        lemma_unfold_white(tail);
        lemma_unfold_first(core);
        lemma_unfold_last(core);
        lemma_trimmed_core(unfold_breaks(core), unfold_breaks(tail));
    }
}

/// Unfolding the line breaks of a trimmed topic changes nothing in what the
/// topic records.
pub proof fn lemma_decoded_unfolded(topic: Seq<char>)
    ensures
        decoded(unfold_breaks(trimmed(topic))) == decoded(topic),
{
    let core = trimmed(topic);
    lemma_trimmed_shape(topic);
    if core.len() == 0 {
        assert(unfold_breaks(core) =~= Seq::<char>::empty());
        lemma_trimmed_white(Seq::<char>::empty());
    } else {
        lemma_unfold_first(core);
        lemma_unfold_last(core);
        lemma_trimmed_core(unfold_breaks(core), Seq::<char>::empty());
        assert(unfold_breaks(core) + Seq::<char>::empty() =~= unfold_breaks(core));
        lemma_unfold_last_line(core);
    }
}

/// Removing the marker that encoding wrote gives the topic back, trimmed and
/// with its line breaks unfolded. A topic that ends with the owner's marker
/// already is left out: encoding writes nothing behind it, and removing the
/// last line would take the marker that it had.
pub proof fn law_strip_after_inject(topic: Seq<char>, owner: u64)
    requires
        !is_marked_for(topic, owner),
    ensures
        encoded(topic, owner) == injected(topic, owner),
        stripped(encoded(topic, owner)) == unfold_breaks(trimmed(topic)),
{
    lemma_stripped_injected(topic, owner);
}

/// A topic whose marker was written and removed again records what it
/// recorded before: where it held no marker, it holds none afterwards. A
/// topic that ends with the owner's marker already is left out.
pub proof fn law_decode_after_strip(topic: Seq<char>, owner: u64)
    requires
        !is_marked_for(topic, owner),
    ensures
        decoded(stripped(encoded(topic, owner))) == decoded(topic),
{
    lemma_stripped_injected(topic, owner);
    lemma_decoded_unfolded(topic);
}

/// A topic that ends with the owner's marker is encoded as it stands: no
/// second marker of the same owner is written.
pub proof fn law_encode_keeps_marked(topic: Seq<char>, owner: u64)
    requires
        is_marked_for(topic, owner),
    ensures
        encoded(topic, owner) == topic,
        is_marked_for(encoded(topic, owner), owner),
{
}

/// Records `user` as the owner in the topic `topic`. Where channels have no
/// owners, or the topic ends with the marker of `user` already, the topic is
/// returned as it is; else it is followed by an empty line and the marker.
/// Where channels have owners the result reads back as `user`, and encoding
/// it again changes nothing. The platform gives no user the identity 0, and
/// no marker can name it.
pub fn inject_ownership(topic: &str, user: u64, config: &SelfManagement) -> (r: String)
    requires
        config.ownership ==> user != 0,
    ensures
        r@ == if !config.ownership || is_marked_for(topic@, user) {
            topic@
        } else {
            injected(topic@, user)
        },
        config.ownership ==> r@ == encoded(topic@, user),
        config.ownership ==> decoded(r@) == Some(ChannelMeta { owner: user }),
        config.ownership ==> encoded(r@, user) == r@,
{
    if !config.ownership {
        return topic.to_owned();
    }
    match ChannelMeta::from_topic(topic) {
        Some(meta) => {
            if meta.owner == user {
                return topic.to_owned();
            }
        },
        None => {},
    }
    let mention = serialize(user);
    let key = owner_name();
    let line = object_text(key.as_str(), mention.as_str());
    proof {
        lemma_marker_shape(user);
        lemma_mention_text_shape(user);
        let members = seq![(key@, Some(mention@))];
        assert(members.drop_first().len() == 0);
        assert(line_meta(marker_line(user)) == Some(ChannelMeta { owner: user }));
        lemma_decoded_injected(topic@, user);
    }
    let mut r = topic.to_owned();
    r.push('\n');
    r.push('\n');
    r.append(line.as_str());
    proof {
        assert(r@ =~= injected(topic@, user));
    }
    r
}

impl ChannelMeta {
    /// Reads what the topic `topic` records: the last line of the trimmed
    /// topic, where it is a marker. Any other text records nothing.
    pub fn from_topic(topic: &str) -> (r: Option<ChannelMeta>)
        ensures
            r == decoded(topic@),
            r matches Some(meta) ==> meta.owner != 0,
    {
        let v = to_chars(topic);
        proof {
            assert(v@.subrange(0, v.len() as int) =~= v@);
        }
        let (a, b) = trim_bounds(&v, 0, v.len());
        if a == b {
            return None;
        }
        let start = line_start(&v, a, b);
        let line = from_chars(&v, start, b);
        proof {
            assert(v@.subrange(start as int, b as int) =~= last_line(v@.subrange(a as int, b as int)));
        }
        let members = match object_members(line.as_str()) {
            Some(members) => members,
            None => {
                return None;
            },
        };
        let key = owner_name();
        let ghost model = members_model(members@);
        let mut i: usize = 0;
        proof {
            assert(model.skip(0) =~= model);
        }
        while i < members.len()
            invariant
                i <= members.len(),
                key@ == owner_key(),
                model == members_model(members@),
                owner_text(model) == owner_text(model.skip(i as int)),
                decoded(topic@) == members_meta(model),
            decreases members.len() - i,
        {
            proof {
                assert(model.skip(i as int)[0] == members@[i as int].model());
                assert(model.skip(i as int).drop_first() =~= model.skip(i + 1));
            }
            if members[i].key == key {
                return match &members[i].text {
                    Some(text) => match deserialize(text.as_str()) {
                        Ok(owner) => Some(ChannelMeta { owner }),
                        Err(_) => None,
                    },
                    None => None,
                };
            }
            i += 1;
        }
        None
    }
}

/// Removes the last line of the topic `str`: the topic is trimmed, cut before
/// its last line feed, its line breaks are unfolded, and it is trimmed again.
/// A topic of one line leaves nothing.
pub fn remove_meta(str: &str) -> (r: String)
    ensures
        r@ == stripped(str@),
{
    let v = to_chars(str);
    proof {
        assert(v@.subrange(0, v.len() as int) =~= v@);
    }
    let (a, b) = trim_bounds(&v, 0, v.len());
    let start = line_start(&v, a, b);
    if start == a {
        proof {
            assert(before_last_line(trimmed(str@)) =~= Seq::<char>::empty());
            assert(unfold_breaks(Seq::<char>::empty()) =~= Seq::<char>::empty());
        }
        return String::new();
    }
    proof {
        assert(v@.subrange(a as int, start - 1) =~= before_last_line(v@.subrange(a as int, b as int)));
    }
    let body = unfold(&v, a, start - 1);
    proof {
        assert(body@.subrange(0, body.len() as int) =~= body@);
    }
    let (c, d) = trim_bounds(&body, 0, body.len());
    from_chars(&body, c, d)
}

} // verus!
