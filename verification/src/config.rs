//! The settings that the bot is started with.

use vstd::prelude::*;

verus! {

/// The linked hash map of the crate linked-hash-map: a map that keeps the
/// order in which its keys were inserted.
#[verifier::external_type_specification]
#[verifier::external_body]
#[verifier::reject_recursive_types(K)]
#[verifier::reject_recursive_types(V)]
#[verifier::reject_recursive_types(S)]
pub struct ExLinkedHashMap<K, V, S>(linked_hash_map::LinkedHashMap<K, V, S>);

/// All settings.
pub struct Config {
    pub bot_token: String,
    /// The text that greets new members.
    pub welcome: FileReference,
    pub self_managment: SelfManagement,
    /// The pages that the greeting links to.
    pub toc: Vec<TableOfContentEntry>,
    pub moderation: Moderation,
    pub self_assignments: SelfAssignments,
    /// The groups of roles by their identity, in the order in which they
    /// were configured.
    pub assignments: linked_hash_map::LinkedHashMap<String, Assignment>,
    pub o_phase: Option<OPhase>,
}

/// A file that was named in the settings, with what it held when read.
#[derive(Debug)]
pub struct FileReference {
    pub filename: String,
    pub content: String,
}

/// The settings of the self-managed channels.
#[derive(Debug)]
pub struct SelfManagement {
    /// The category under which members run channels.
    pub category: u64,
    /// Whether channels have owners.
    pub ownership: bool,
    pub limit: u64,
    pub join_age_limit: i64,
    /// Seconds without a message after which a channel counts as abandoned.
    pub abandon_after: u64,
    /// Whether a member may take over a channel.
    pub claiming: bool,
    /// Where changes are announced without the acting user.
    pub logging: Option<u64>,
    /// Where changes are announced with the acting user.
    pub logging_detailed: Option<u64>,
}

/// How the choice of roles is offered.
#[derive(Debug)]
pub struct SelfAssignments {
    pub label: String,
    /// The emoji of the button, in its textual form.
    pub icon: String,
    pub prolog: FileReference,
}

/// One page that the greeting links to.
#[derive(Debug)]
pub struct TableOfContentEntry {
    pub label: String,
    /// The emoji of the button, in its textual form.
    pub icon: String,
    pub file: FileReference,
}

/// The settings of the reporting of messages.
#[derive(Debug)]
pub struct Moderation {
    pub report_channel: Option<u64>,
}

/// A group of roles, offered together under one title.
#[derive(Debug)]
pub struct Assignment {
    pub title: String,
    pub roles: Vec<Role>,
}

/// One role that members may give themselves.
#[derive(Debug)]
pub struct Role {
    pub label: String,
    pub subscript: Option<String>,
    /// The emoji of the role, in its textual form.
    pub icon: String,
    /// The platform's identity of the role.
    pub role: u64,
}

/// The settings of the orientation phase.
#[derive(Debug)]
pub struct OPhase {
    pub password: String,
    pub role_name: String,
    pub channel_name: String,
}

/// What the map holds: its keys with their values, in the order of insertion.
pub uninterp spec fn linked_entries(map: linked_hash_map::LinkedHashMap<String, Assignment>) -> Seq<
    (Seq<char>, Assignment),
>;

/// The value of the first entry of `entries` with the key `key`.
pub open spec fn entry_of(entries: Seq<(Seq<char>, Assignment)>, key: Seq<char>) -> Option<
    Assignment,
>
    decreases entries.len(),
{
    if entries.len() == 0 {
        None
    } else if entries[0].0 == key {
        Some(entries[0].1)
    } else {
        entry_of(entries.drop_first(), key)
    }
}

/// The group with the identity `id` among the configured groups.
pub open spec fn assignment_of(
    assignments: linked_hash_map::LinkedHashMap<String, Assignment>,
    id: Seq<char>,
) -> Option<Assignment> {
    entry_of(linked_entries(assignments), id)
}

/// The identities of the roles of the group `assignment`, as configured.
pub open spec fn role_ids(assignment: Assignment) -> Seq<u64> {
    assignment.roles@.map_values(|role: Role| role.role)
}

/// `LinkedHashMap::get`: the value under the key `key`, where the map holds
/// that key. A map holds a key once.
#[verifier::external_body]
fn linked_get<'a>(
    map: &'a linked_hash_map::LinkedHashMap<String, Assignment>,
    key: &str,
) -> (r: Option<&'a Assignment>)
    ensures
        match r {
            Some(assignment) => entry_of(linked_entries(*map), key@) == Some(*assignment),
            None => entry_of(linked_entries(*map), key@) is None,
        },
{
    map.get(key)
}

/// `LinkedHashMap::iter`: the keys with their values, in the order of
/// insertion.
#[verifier::external_body]
fn linked_list<'a>(map: &'a linked_hash_map::LinkedHashMap<String, Assignment>) -> (r: Vec<
    (&'a String, &'a Assignment),
>)
    ensures
        r.len() == linked_entries(*map).len(),
        forall|i: int|
            0 <= i < r.len() ==> (#[trigger] r[i]).0@ == linked_entries(*map)[i].0 && *r[i].1
                == linked_entries(*map)[i].1,
{
    map.iter().collect()
}

impl FileReference {
    /// What the file held.
    pub fn text(&self) -> (r: &str)
        ensures
            r@ == self.content@,
    {
        self.content.as_str()
    }
}

impl Assignment {
    /// The identities of the roles of the group, as configured.
    pub fn role_ids(&self) -> (r: Vec<u64>)
        ensures
            r@ == role_ids(*self),
    {
        let mut r: Vec<u64> = Vec::new();
        let mut i: usize = 0;
        while i < self.roles.len()
            invariant
                i <= self.roles.len(),
                r@ == role_ids(*self).take(i as int),
            decreases self.roles.len() - i,
        {
            r.push(self.roles[i].role);
            proof {
                assert(r@ =~= role_ids(*self).take(i + 1));
            }
            i += 1;
        }
        proof {
            assert(role_ids(*self).take(self.roles.len() as int) =~= role_ids(*self));
        }
        r
    }
}

impl Config {
    /// The group of roles with the identity `id`.
    pub fn assignment(&self, id: &str) -> (r: Option<&Assignment>)
        ensures
            match r {
                Some(assignment) => assignment_of(self.assignments, id@) == Some(*assignment),
                None => assignment_of(self.assignments, id@) is None,
            },
    {
        linked_get(&self.assignments, id)
    }

    /// The groups of roles with their identities, in the order in which they
    /// were configured.
    pub fn assignment_list(&self) -> (r: Vec<(&String, &Assignment)>)
        ensures
            r.len() == linked_entries(self.assignments).len(),
            forall|i: int|
                0 <= i < r.len() ==> (#[trigger] r[i]).0@ == linked_entries(self.assignments)[i].0
                    && *r[i].1 == linked_entries(self.assignments)[i].1,
    {
        linked_list(&self.assignments)
    }

    /// The page whose file is named `file`: the first such page.
    pub fn toc_entry(&self, file: &str) -> (r: Option<&TableOfContentEntry>)
        ensures
            match r {
                Some(entry) => exists|i: int|
                    0 <= i < self.toc.len() && *entry == self.toc[i] && self.toc[i].file.filename@
                        == file@ && forall|j: int|
                        0 <= j < i ==> (#[trigger] self.toc[j]).file.filename@ != file@,
                None => forall|j: int|
                    0 <= j < self.toc.len() ==> (#[trigger] self.toc[j]).file.filename@ != file@,
            },
    {
        let wanted = file.to_owned();
        let mut i: usize = 0;
        while i < self.toc.len()
            invariant
                i <= self.toc.len(),
                wanted@ == file@,
                forall|j: int| 0 <= j < i ==> (#[trigger] self.toc[j]).file.filename@ != file@,
            decreases self.toc.len() - i,
        {
            if self.toc[i].file.filename == wanted {
                return Some(&self.toc[i]);
            }
            i += 1;
        }
        None
    }
}

} // verus!
