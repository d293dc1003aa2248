//! The choice of roles: which roles a selection grants and which it revokes,
//! and the reading of what a member clicked.

use vstd::prelude::*;
use crate::config::{
    assignment_of, linked_entries, role_ids, Assignment, Config, Role, TableOfContentEntry,
};
use crate::error::{Error, Invalid};
use crate::self_management::audit::text_of;
use crate::text::{decimal, decimal_text, from_chars, parse_u64, parsed_u64, to_chars};

verus! {

/// What a selection changes for a member.
#[derive(Debug)]
pub struct RoleDelta {
    /// The roles to give: selected and not held.
    pub granted: Vec<u64>,
    /// The roles to take: configured, not selected, and held.
    pub revoked: Vec<u64>,
}

/// One request to the platform about the roles of a member.
#[derive(Debug)]
pub enum RoleCall {
    Remove(Vec<u64>),
    Add(Vec<u64>),
}

/// The roles that a selection takes from a member: those of the group that
/// were not selected and that the member holds.
pub open spec fn revoked_roles(all: Set<u64>, selected: Set<u64>, current: Set<u64>) -> Set<u64> {
    all.difference(selected).intersect(current)
}

/// The roles that a selection gives to a member: those selected that the
/// member does not hold.
pub open spec fn granted_roles(selected: Set<u64>, current: Set<u64>) -> Set<u64> {
    selected.difference(current)
}

/// The roles of a member after the revoked ones were taken.
pub open spec fn after_revoke(all: Set<u64>, selected: Set<u64>, current: Set<u64>) -> Set<u64> {
    current.difference(revoked_roles(all, selected, current))
}

/// The roles of a member after the revoked ones were taken and the granted
/// ones given.
pub open spec fn settled(all: Set<u64>, selected: Set<u64>, current: Set<u64>) -> Set<u64> {
    after_revoke(all, selected, current).union(granted_roles(selected, current))
}

/// A selection that was applied changes nothing when it is made again.
pub proof fn law_reconcile_settles(all: Set<u64>, selected: Set<u64>, current: Set<u64>)
    ensures
        granted_roles(selected, settled(all, selected, current)) == Set::<u64>::empty(),
        revoked_roles(all, selected, settled(all, selected, current)) == Set::<u64>::empty(),
{
    let next = settled(all, selected, current);
    assert(granted_roles(selected, next) =~= Set::<u64>::empty());
    assert(revoked_roles(all, selected, next) =~= Set::<u64>::empty());
}

/// Only roles that the member holds are taken, only roles that the member
/// does not hold are given, and no role is both taken and given.
pub proof fn law_reconcile_touches_only(all: Set<u64>, selected: Set<u64>, current: Set<u64>)
    ensures
        revoked_roles(all, selected, current).subset_of(current),
        granted_roles(selected, current).disjoint(current),
        granted_roles(selected, current).disjoint(revoked_roles(all, selected, current)),
        revoked_roles(all, selected, current).subset_of(all),
        granted_roles(selected, current).subset_of(selected),
{
}

/// Between the two requests the member holds no role that was not held
/// before and no role that will not be held afterwards.
pub proof fn law_no_excess_between(all: Set<u64>, selected: Set<u64>, current: Set<u64>)
    ensures
        after_revoke(all, selected, current).subset_of(current),
        after_revoke(all, selected, current).subset_of(settled(all, selected, current)),
{
}

/// Whether `v` holds `x`.
pub fn holds(v: &Vec<u64>, x: u64) -> (r: bool)
    ensures
        r == v@.contains(x),
{
    let mut i: usize = 0;
    while i < v.len()
        invariant
            i <= v.len(),
            forall|j: int| 0 <= j < i ==> v[j] != x,
        decreases v.len() - i,
    {
        if v[i] == x {
            return true;
        }
        i += 1;
    }
    false
}

/// A sequence with `x` behind it holds what it held before, and `x`.
pub proof fn lemma_push_holds(s: Seq<u64>, x: u64)
    ensures
        forall|y: u64| s.push(x).contains(y) <==> (s.contains(y) || y == x),
{
    assert forall|y: u64| s.push(x).contains(y) <==> (s.contains(y) || y == x) by {
        if s.contains(y) {
            let k = choose|k: int| 0 <= k < s.len() && s[k] == y;
            assert(s.push(x)[k] == y);
        }
        if y == x {
            assert(s.push(x)[s.len() as int] == y);
        }
        if s.push(x).contains(y) {
            let k = choose|k: int| 0 <= k < s.push(x).len() && s.push(x)[k] == y;
            if k < s.len() {
                assert(s[k] == y);
            }
        }
    }
}

/// The roles of `list` that pass: those not held by `without` and, where
/// `within` is given, held by it. Each is listed once, in the order of `list`.
fn pick(list: &Vec<u64>, without: &Vec<u64>, within: Option<&Vec<u64>>) -> (r: Vec<u64>)
    ensures
        r@.no_duplicates(),
        forall|x: u64|
            r@.contains(x) <==> (list@.contains(x) && !without@.contains(x) && (within matches Some(w)
                ==> w@.contains(x))),
{
    let mut r: Vec<u64> = Vec::new();
    let mut i: usize = 0;
    while i < list.len()
        invariant
            i <= list.len(),
            r@.no_duplicates(),
            forall|x: u64|
                r@.contains(x) <==> (list@.take(i as int).contains(x) && !without@.contains(x) && (
                within matches Some(w) ==> w@.contains(x))),
        decreases list.len() - i,
    {
        let x = list[i];
        let ghost before = r@;
        let wanted = !holds(without, x) && match within {
            Some(w) => holds(w, x),
            None => true,
        };
        proof {
            assert(list@.take(i + 1) =~= list@.take(i as int).push(x));
            lemma_push_holds(list@.take(i as int), x);
        }
        let fresh = wanted && !holds(&r, x);
        if fresh {
            r.push(x);
        }
        proof {
            lemma_push_holds(before, x);
            let shorter = list@.take(i as int);
            let longer = list@.take(i + 1);
            assert(longer == shorter.push(x));
            assert forall|y: u64| r@.contains(y) <==> (longer.contains(y) && !without@.contains(y) && (
            within matches Some(w) ==> w@.contains(y))) by {
                assert(longer.contains(y) <==> (shorter.contains(y) || y == x));
                assert(before.contains(y) <==> (shorter.contains(y) && !without@.contains(y) && (
                within matches Some(w) ==> w@.contains(y))));
                if fresh {
                    assert(r@ == before.push(x));
                    assert(r@.contains(y) <==> (before.contains(y) || y == x));
                } else {
                    assert(r@ == before);
                }
            }
        }
        i += 1;
    }
    proof {
        assert(list@.take(list.len() as int) =~= list@);
    }
    r
}

/// What the selection `selected` changes for a member who holds `current`,
/// in a group of the roles `all`: each role to take or to give is listed
/// once.
pub fn role_delta(all: &Vec<u64>, selected: &Vec<u64>, current: &Vec<u64>) -> (r: RoleDelta)
    ensures
        r.revoked@.to_set() == revoked_roles(all@.to_set(), selected@.to_set(), current@.to_set()),
        r.granted@.to_set() == granted_roles(selected@.to_set(), current@.to_set()),
        r.revoked@.no_duplicates(),
        r.granted@.no_duplicates(),
{
    let revoked = pick(all, selected, Some(current));
    let granted = pick(selected, current, None);
    proof {
        assert(revoked@.to_set() =~= revoked_roles(
            all@.to_set(),
            selected@.to_set(),
            current@.to_set(),
        ));
        assert(granted@.to_set() =~= granted_roles(selected@.to_set(), current@.to_set()));
    }
    RoleDelta { granted, revoked }
}

/// Whether `delta` is what the selection `selected` changes for a member who
/// holds `current`, in a group of the roles `all`.
pub open spec fn is_delta(delta: RoleDelta, all: Set<u64>, selected: Set<u64>, current: Set<u64>) -> bool {
    &&& delta.revoked@.to_set() == revoked_roles(all, selected, current)
    &&& delta.granted@.to_set() == granted_roles(selected, current)
    &&& delta.revoked@.no_duplicates()
    &&& delta.granted@.no_duplicates()
}

/// Works out what the selection `selected` in the group `assignment_id`
/// changes for a member who holds the roles `current`. Roles outside the
/// group are never touched. A group that is not configured is an error.
pub fn reconcile(config: &Config, assignment_id: &str, selected: &Vec<u64>, current: &Vec<u64>) -> (r:
    Result<RoleDelta, Error>)
    ensures
        match assignment_of(config.assignments, assignment_id@) {
            Some(assignment) => r matches Ok(delta) && is_delta(
                delta,
                role_ids(assignment).to_set(),
                selected@.to_set(),
                current@.to_set(),
            ),
            None => r matches Err(e) && e == Error::Validation(Invalid::UnknownAssignment),
        },
{
    match config.assignment(assignment_id) {
        Some(assignment) => {
            let all = assignment.role_ids();
            Ok(role_delta(&all, selected, current))
        },
        None => Err(Error::Validation(Invalid::UnknownAssignment)),
    }
}

/// The requests that carry out `delta`: first the one that takes roles, then
/// the one that gives roles, each only where it has a role to name.
pub fn calls(delta: RoleDelta) -> (r: Vec<RoleCall>)
    ensures
        r.len() == (if delta.revoked.len() > 0 {
            1int
        } else {
            0int
        }) + (if delta.granted.len() > 0 {
            1int
        } else {
            0int
        }),
        delta.revoked.len() > 0 ==> (r[0] matches RoleCall::Remove(roles) && roles@
            == delta.revoked@),
        delta.granted.len() > 0 ==> (r[r.len() - 1] matches RoleCall::Add(roles) && roles@
            == delta.granted@),
{
    let mut r: Vec<RoleCall> = Vec::new();
    let RoleDelta { granted, revoked } = delta;
    if revoked.len() > 0 {
        r.push(RoleCall::Remove(revoked));
    }
    if granted.len() > 0 {
        r.push(RoleCall::Add(granted));
    }
    r
}

/// The index of the first colon of `s`; the length of `s` where it holds none.
pub open spec fn colon_at(s: Seq<char>) -> int
    decreases s.len(),
{
    if s.len() == 0 || s[0] == ':' {
        0
    } else {
        1 + colon_at(s.drop_first())
    }
}

/// What an identity of a component names: what follows its first colon, or
/// all of it where it holds no colon.
pub open spec fn target_of(id: Seq<char>) -> Seq<char> {
    if colon_at(id) >= id.len() {
        id
    } else {
        id.skip(colon_at(id) + 1)
    }
}

/// The index of the first colon is `colon_at`.
pub proof fn lemma_colon_at(s: Seq<char>, i: int)
    requires
        0 <= i <= s.len(),
        forall|j: int| 0 <= j < i ==> #[trigger] s[j] != ':',
        i == s.len() || s[i] == ':',
    ensures
        colon_at(s) == i,
    decreases i,
{
    if i > 0 {
        let t = s.drop_first();
        assert forall|j: int| 0 <= j < i - 1 implies #[trigger] t[j] != ':' by {
            assert(t[j] == s[j + 1]);
        }
        lemma_colon_at(t, i - 1);
    }
}

/// What the identity `custom_id` of a component names.
pub fn component_target(custom_id: &str) -> (r: String)
    ensures
        r@ == target_of(custom_id@),
{
    let v = to_chars(custom_id);
    let mut i: usize = 0;
    while i < v.len() && v[i] != ':'
        invariant
            i <= v.len(),
            forall|j: int| 0 <= j < i ==> #[trigger] v@[j] != ':',
        decreases v.len() - i,
    {
        i += 1;
    }
    proof {
        lemma_colon_at(v@, i as int);
    }
    if i == v.len() {
        proof {
            assert(v@.subrange(0, v.len() as int) =~= v@);
        }
        from_chars(&v, 0, v.len())
    } else {
        proof {
            assert(v@.subrange(i + 1, v.len() as int) =~= v@.skip(i + 1));
        }
        from_chars(&v, i + 1, v.len())
    }
}

/// The numbers that the texts `values` denote, where each denotes one.
pub open spec fn selection_of(values: Seq<String>) -> Option<Seq<u64>> {
    if forall|i: int| 0 <= i < values.len() ==> parsed_u64(#[trigger] values[i]@) is Some {
        Some(Seq::new(values.len(), |i: int| parsed_u64(values[i]@).unwrap()))
    } else {
        None
    }
}

/// Reads the selected values as the numbers of roles.
pub fn parse_selection(values: &Vec<String>) -> (r: Option<Vec<u64>>)
    ensures
        match selection_of(values@) {
            Some(roles) => r matches Some(v) && v@ == roles,
            None => r is None,
        },
{
    let mut roles: Vec<u64> = Vec::new();
    let mut i: usize = 0;
    while i < values.len()
        invariant
            i <= values.len(),
            roles.len() == i,
            forall|j: int| 0 <= j < i ==> parsed_u64(#[trigger] values[j]@) == Some(roles[j]),
        decreases values.len() - i,
    {
        match parse_u64(values[i].as_str()) {
            Some(role) => {
                roles.push(role);
            },
            None => {
                return None;
            },
        }
        i += 1;
    }
    proof {
        assert(roles@ =~= selection_of(values@).unwrap());
    }
    Some(roles)
}

/// What a click on the menu `custom_id` with the selected values `values`
/// changes for the member, whose roles are `member_roles`: the error of the
/// first check that fails, in this order: the group is configured, the click
/// came from a member, every value is the number of a role.
pub open spec fn click_outcome(
    config: &Config,
    custom_id: Seq<char>,
    values: Seq<String>,
    member_roles: Option<&Vec<u64>>,
    r: Result<RoleDelta, Error>,
) -> bool {
    match assignment_of(config.assignments, target_of(custom_id)) {
        None => r matches Err(e) && e == Error::Validation(Invalid::UnknownAssignment),
        Some(assignment) => match member_roles {
            None => r matches Err(e) && e == Error::Validation(Invalid::NoMember),
            Some(current) => match selection_of(values) {
                None => r matches Err(e) && e == Error::Validation(Invalid::MalformedRole),
                Some(selected) => r matches Ok(delta) && is_delta(
                    delta,
                    role_ids(assignment).to_set(),
                    selected.to_set(),
                    current@.to_set(),
                ),
            },
        },
    }
}

/// Works out what a click on a menu of roles changes for the member.
pub fn handle_assign_click(
    config: &Config,
    custom_id: &str,
    values: &Vec<String>,
    member_roles: Option<&Vec<u64>>,
) -> (r: Result<RoleDelta, Error>)
    ensures
        click_outcome(config, custom_id@, values@, member_roles, r),
{
    let id = component_target(custom_id);
    let assignment = match config.assignment(id.as_str()) {
        Some(assignment) => assignment,
        None => {
            return Err(Error::Validation(Invalid::UnknownAssignment));
        },
    };
    let current = match member_roles {
        Some(current) => current,
        None => {
            return Err(Error::Validation(Invalid::NoMember));
        },
    };
    let all = assignment.role_ids();
    let selected = match parse_selection(values) {
        Some(selected) => selected,
        None => {
            return Err(Error::Validation(Invalid::MalformedRole));
        },
    };
    Ok(role_delta(&all, &selected, current))
}

/// One choice of a menu.
#[derive(Debug)]
pub struct MenuOption {
    pub label: String,
    /// The number of the role, in decimal digits.
    pub value: String,
    pub icon: String,
    pub description: Option<String>,
    /// Whether the choice is made already; unknown where no member asks.
    pub selected: Option<bool>,
}

/// A menu from which any number of choices may be made.
#[derive(Debug)]
pub struct SelectMenu {
    pub custom_id: String,
    pub placeholder: String,
    pub min_values: u8,
    pub max_values: u8,
    pub options: Vec<MenuOption>,
}

/// How a button looks.
#[derive(Clone, Copy, Debug, PartialEq, Eq, Structural)]
pub enum ButtonStyle {
    Primary,
    Success,
}

/// A button below the greeting.
#[derive(Debug)]
pub struct Button {
    pub custom_id: String,
    pub label: String,
    pub icon: String,
    pub style: ButtonStyle,
}

/// Where a click on a component goes.
#[derive(Clone, Copy, Debug, PartialEq, Eq, Structural)]
pub enum Route {
    /// To a page that the greeting links to.
    Page,
    /// To the menus of roles.
    Assignments,
    /// To a selection of roles.
    Assign,
    /// Nowhere: the component is none of this bot.
    Ignored,
}

/// Where a click on the component `id` goes, by how `id` begins.
pub open spec fn routed(id: Seq<char>) -> Route {
    if "toc:"@.is_prefix_of(id) {
        Route::Page
    } else if "assignments"@.is_prefix_of(id) {
        Route::Assignments
    } else if "assign:"@.is_prefix_of(id) {
        Route::Assign
    } else {
        Route::Ignored
    }
}

/// Whether `option` offers `role` to a member who holds `member_roles`.
pub open spec fn offers(option: MenuOption, role: Role, member_roles: Option<&Vec<u64>>) -> bool {
    &&& option.label@ == role.label@
    &&& option.value@ == decimal(role.role as nat)
    &&& option.icon@ == role.icon@
    &&& text_of(option.description) == text_of(role.subscript)
    &&& option.selected == match member_roles {
        Some(held) => Some(held@.contains(role.role)),
        None => None,
    }
}

/// Whether `menu` offers the group `assignment` of the identity `id`:
/// any number of its roles may be chosen, from none to all.
pub open spec fn offers_group(
    menu: SelectMenu,
    id: Seq<char>,
    assignment: Assignment,
    member_roles: Option<&Vec<u64>>,
) -> bool {
    &&& menu.custom_id@ == "assign:"@ + id
    &&& menu.placeholder@ == assignment.title@
    &&& menu.min_values == 0
    &&& menu.max_values == assignment.roles.len() % 256
    &&& menu.options.len() == assignment.roles.len()
    &&& forall|j: int|
        0 <= j < menu.options.len() ==> offers(
            #[trigger] menu.options[j],
            assignment.roles[j],
            member_roles,
        )
}

/// Whether `s` begins with `prefix`.
pub fn begins_with(s: &str, prefix: &str) -> (r: bool)
    ensures
        r == prefix@.is_prefix_of(s@),
{
    let v = to_chars(s);
    let p = to_chars(prefix);
    if p.len() > v.len() {
        return false;
    }
    let mut i: usize = 0;
    while i < p.len()
        invariant
            i <= p.len() <= v.len(),
            v@ == s@,
            p@ == prefix@,
            forall|j: int| 0 <= j < i ==> p@[j] == v@[j],
        decreases p.len() - i,
    {
        if p[i] != v[i] {
            proof {
                assert(v@.subrange(0, p.len() as int)[i as int] != p@[i as int]);
            }
            return false;
        }
        i += 1;
    }
    proof {
        assert(p@ =~= v@.subrange(0, p.len() as int));
    }
    true
}

/// Where a click on the component `custom_id` goes.
pub fn route(custom_id: &str) -> (r: Route)
    ensures
        r == routed(custom_id@),
{
    if begins_with(custom_id, "toc:") {
        Route::Page
    } else if begins_with(custom_id, "assignments") {
        Route::Assignments
    } else if begins_with(custom_id, "assign:") {
        Route::Assign
    } else {
        Route::Ignored
    }
}

/// The page that a click on the button `custom_id` asks for: the first page
/// whose file is named behind the colon.
pub fn handle_toc_click<'a>(config: &'a Config, custom_id: &str) -> (r: Result<
    &'a TableOfContentEntry,
    Error,
>)
    ensures
        match r {
            Ok(entry) => exists|i: int|
                0 <= i < config.toc.len() && *entry == config.toc[i] && config.toc[i].file.filename@
                    == target_of(custom_id@) && forall|j: int|
                    0 <= j < i ==> (#[trigger] config.toc[j]).file.filename@ != target_of(
                        custom_id@,
                    ),
            Err(e) => e == Error::Validation(Invalid::UnknownPage) && forall|j: int|
                0 <= j < config.toc.len() ==> (#[trigger] config.toc[j]).file.filename@ != target_of(
                    custom_id@,
                ),
        },
{
    let file = component_target(custom_id);
    match config.toc_entry(file.as_str()) {
        Some(entry) => Ok(entry),
        None => Err(Error::Validation(Invalid::UnknownPage)),
    }
}

/// The buttons below the greeting: the one that opens the menus of roles,
/// then one for each page, in the order of the pages.
pub fn get_toc_buttons(config: &Config) -> (r: Vec<Button>)
    ensures
        r.len() == config.toc.len() + 1,
        r[0].custom_id@ == "assignments"@,
        r[0].label@ == config.self_assignments.label@,
        r[0].icon@ == config.self_assignments.icon@,
        r[0].style == ButtonStyle::Success,
        forall|i: int|
            0 <= i < config.toc.len() ==> {
                let button = #[trigger] r[i + 1];
                &&& button.custom_id@ == "toc:"@ + config.toc[i].file.filename@
                &&& button.label@ == config.toc[i].label@
                &&& button.icon@ == config.toc[i].icon@
                &&& button.style == ButtonStyle::Primary
            },
{
    let mut r: Vec<Button> = Vec::new();
    r.push(
        Button {
            custom_id: "assignments".to_owned(),
            label: config.self_assignments.label.clone(),
            icon: config.self_assignments.icon.clone(),
            style: ButtonStyle::Success,
        },
    );
    let mut i: usize = 0;
    while i < config.toc.len()
        invariant
            i <= config.toc.len(),
            r.len() == i + 1,
            r[0].custom_id@ == "assignments"@,
            r[0].label@ == config.self_assignments.label@,
            r[0].icon@ == config.self_assignments.icon@,
            r[0].style == ButtonStyle::Success,
            forall|k: int|
                0 <= k < i ==> {
                    let button = #[trigger] r[k + 1];
                    &&& button.custom_id@ == "toc:"@ + config.toc[k].file.filename@
                    &&& button.label@ == config.toc[k].label@
                    &&& button.icon@ == config.toc[k].icon@
                    &&& button.style == ButtonStyle::Primary
                },
        decreases config.toc.len() - i,
    {
        let entry = &config.toc[i];
        let mut custom_id = "toc:".to_owned();
        custom_id.append(entry.file.filename.as_str());
        r.push(
            Button {
                custom_id,
                label: entry.label.clone(),
                icon: entry.icon.clone(),
                style: ButtonStyle::Primary,
            },
        );
        i += 1;
    }
    r
}

/// The choices of the group `assignment` for a member who holds
/// `member_roles`: one for each role, in the order of the roles.
fn menu_options(assignment: &Assignment, member_roles: Option<&Vec<u64>>) -> (r: Vec<MenuOption>)
    ensures
        r.len() == assignment.roles.len(),
        forall|j: int| 0 <= j < r.len() ==> offers(#[trigger] r[j], assignment.roles[j], member_roles),
{
    let mut r: Vec<MenuOption> = Vec::new();
    let mut j: usize = 0;
    while j < assignment.roles.len()
        invariant
            j <= assignment.roles.len(),
            r.len() == j,
            forall|k: int| 0 <= k < j ==> offers(#[trigger] r[k], assignment.roles[k], member_roles),
        decreases assignment.roles.len() - j,
    {
        let role = &assignment.roles[j];
        let description = match &role.subscript {
            Some(text) => Some(text.clone()),
            None => None,
        };
        let selected = match member_roles {
            Some(held) => Some(holds(held, role.role)),
            None => None,
        };
        r.push(
            MenuOption {
                label: role.label.clone(),
                value: decimal_text(role.role),
                icon: role.icon.clone(),
                description,
                selected,
            },
        );
        j += 1;
    }
    r
}

/// The menus of roles for a member who holds `member_roles`: one for each
/// configured group, in the order of the groups, with the roles that the
/// member holds chosen already.
pub fn print_assignments(config: &Config, member_roles: Option<&Vec<u64>>) -> (r: Vec<SelectMenu>)
    ensures
        r.len() == linked_entries(config.assignments).len(),
        forall|i: int|
            0 <= i < r.len() ==> offers_group(
                #[trigger] r[i],
                linked_entries(config.assignments)[i].0,
                linked_entries(config.assignments)[i].1,
                member_roles,
            ),
{
    let groups = config.assignment_list();
    let mut r: Vec<SelectMenu> = Vec::new();
    let mut i: usize = 0;
    while i < groups.len()
        invariant
            i <= groups.len(),
            r.len() == i,
            groups.len() == linked_entries(config.assignments).len(),
            forall|k: int|
                0 <= k < groups.len() ==> (#[trigger] groups[k]).0@ == linked_entries(
                    config.assignments,
                )[k].0 && *groups[k].1 == linked_entries(config.assignments)[k].1,
            forall|k: int|
                0 <= k < i ==> offers_group(
                    #[trigger] r[k],
                    linked_entries(config.assignments)[k].0,
                    linked_entries(config.assignments)[k].1,
                    member_roles,
                ),
        decreases groups.len() - i,
    {
        let id = groups[i].0;
        let assignment = groups[i].1;
        let mut custom_id = "assign:".to_owned();
        custom_id.append(id.as_str());
        let options = menu_options(assignment, member_roles);
        r.push(
            SelectMenu {
                custom_id,
                placeholder: assignment.title.clone(),
                min_values: 0,
                max_values: (assignment.roles.len() % 256) as u8,
                options,
            },
        );
        i += 1;
    }
    r
}

} // verus!
