use guild_steward::config::OPhase;
use guild_steward::moderation::{abbreviate, REPORT_MESSAGE_LENGTH};
use guild_steward::team::{is_bot_team_admin_or_owner, Team, TeamMember};

fn crew() -> Team {
    Team {
        owner_user_id: 2,
        members: vec![
            TeamMember { user: 3, admin: false },
            TeamMember { user: 4, admin: true },
            TeamMember { user: 5, admin: false },
            TeamMember { user: 5, admin: true },
        ],
    }
}

#[test]
fn the_owner_runs_the_bot() {
    assert!(is_bot_team_admin_or_owner(Some(1), None, 1));
    assert!(is_bot_team_admin_or_owner(Some(1), Some(&crew()), 1));
    assert!(!is_bot_team_admin_or_owner(Some(1), None, 2));
    assert!(!is_bot_team_admin_or_owner(None, None, 1));
}

#[test]
fn the_team_owner_and_its_admins_run_the_bot() {
    assert!(is_bot_team_admin_or_owner(None, Some(&crew()), 2));
    assert!(is_bot_team_admin_or_owner(None, Some(&crew()), 4));
    assert!(is_bot_team_admin_or_owner(None, Some(&crew()), 5));
    assert!(!is_bot_team_admin_or_owner(None, Some(&crew()), 3));
    assert!(!is_bot_team_admin_or_owner(None, Some(&crew()), 6));
}

#[test]
fn short_messages_are_quoted_whole() {
    assert_eq!(REPORT_MESSAGE_LENGTH, 500);
    assert_eq!(abbreviate(""), "");
    assert_eq!(abbreviate("short"), "short");
    let exact = "x".repeat(500);
    assert_eq!(abbreviate(&exact), exact);
}

#[test]
fn long_messages_are_cut_at_five_hundred_bytes() {
    let long = "y".repeat(501);
    assert_eq!(abbreviate(&long), "y".repeat(500));
    let mixed = format!("{}{}", "\u{e4}".repeat(250), "tail");
    assert_eq!(abbreviate(&mixed), "\u{e4}".repeat(250));
}

#[test]
fn the_password_must_match_exactly() {
    let group = OPhase {
        password: "quack".to_string(),
        role_name: "Ersti".to_string(),
        channel_name: "o-phase".to_string(),
    };
    assert!(group.admits("quack"));
    assert!(!group.admits("Quack"));
    assert!(!group.admits("quack "));
    assert!(!group.admits(""));
}
