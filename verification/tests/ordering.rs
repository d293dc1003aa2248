use guild_steward::self_management::ordering::{name_le, sort};
use guild_steward::self_management::policy::Channel;

fn listed(id: u64, name: &str, parent: Option<u64>) -> Channel {
    Channel {
        id,
        guild_id: 1,
        name: name.to_string(),
        topic: None,
        nsfw: false,
        parent_id: parent,
        last_activity: None,
    }
}

#[test]
fn names_are_compared_byte_by_byte() {
    assert!(name_le(b"", b""));
    assert!(name_le(b"", b"a"));
    assert!(!name_le(b"a", b""));
    assert!(name_le(b"a", b"a"));
    assert!(name_le(b"a", b"ab"));
    assert!(!name_le(b"ab", b"a"));
    assert!(name_le(b"Z", b"a"));
    assert!(!name_le(b"b", b"a"));
    assert!(name_le("z".as_bytes(), "\u{e4}".as_bytes()));
}

#[test]
fn name_order_agrees_with_std() {
    let names = ["", "a", "A", "ab", "b", "\u{e4}", "z", "10", "9", "\u{1F600}", "\u{ffff}"];
    for a in names {
        for b in names {
            assert_eq!(name_le(a.as_bytes(), b.as_bytes()), a <= b);
        }
    }
}

#[test]
fn sort_orders_the_category_by_name() {
    let channels = vec![
        listed(1, "delta", Some(10)),
        listed(2, "alpha", Some(10)),
        listed(3, "charlie", Some(10)),
        listed(4, "bravo", Some(10)),
    ];
    assert_eq!(sort(&channels, 10), vec![(2, 0), (4, 1), (3, 2), (1, 3)]);
}

#[test]
fn sort_leaves_other_channels_out() {
    let channels = vec![
        listed(1, "b", Some(10)),
        listed(2, "a", Some(11)),
        listed(3, "c", None),
        listed(4, "a", Some(10)),
        listed(10, "category", None),
    ];
    assert_eq!(sort(&channels, 10), vec![(4, 0), (1, 1)]);
    assert_eq!(sort(&channels, 11), vec![(2, 0)]);
    assert_eq!(sort(&channels, 12), vec![]);
    assert_eq!(sort(&Vec::new(), 10), vec![]);
}

#[test]
fn sort_keeps_equal_names_as_listed() {
    let channels = vec![
        listed(5, "same", Some(10)),
        listed(3, "same", Some(10)),
        listed(9, "other", Some(10)),
        listed(1, "same", Some(10)),
    ];
    assert_eq!(sort(&channels, 10), vec![(9, 0), (5, 1), (3, 2), (1, 3)]);
}

#[test]
fn sort_puts_capitals_first() {
    let channels = vec![
        listed(1, "apple", Some(10)),
        listed(2, "Zebra", Some(10)),
        listed(3, "\u{e4}pfel", Some(10)),
        listed(4, "zebra", Some(10)),
    ];
    assert_eq!(sort(&channels, 10), vec![(2, 0), (1, 1), (4, 2), (3, 3)]);
}

#[test]
fn sorting_twice_changes_nothing() {
    let channels = vec![
        listed(1, "delta", Some(10)),
        listed(2, "alpha", Some(10)),
        listed(7, "elsewhere", Some(11)),
        listed(3, "alpha", Some(10)),
        listed(4, "bravo", Some(10)),
    ];
    let first = sort(&channels, 10);
    let mut again = Vec::new();
    for (id, _) in &first {
        let c = channels.iter().find(|c| c.id == *id).unwrap();
        again.push(listed(c.id, &c.name, c.parent_id));
    }
    assert_eq!(sort(&again, 10), first);
    assert_eq!(sort(&channels, 10), first);
}

#[test]
fn sort_does_not_depend_on_the_listing() {
    let names = ["delta", "alpha", "charlie", "bravo", "echo"];
    let forward: Vec<Channel> = names.iter().enumerate().map(|(i, n)| listed(i as u64 + 1, n, Some(10))).collect();
    let mut backward: Vec<Channel> = names.iter().enumerate().map(|(i, n)| listed(i as u64 + 1, n, Some(10))).collect();
    backward.reverse();
    let mut rotated: Vec<Channel> = names.iter().enumerate().map(|(i, n)| listed(i as u64 + 1, n, Some(10))).collect();
    rotated.rotate_left(2);
    rotated.push(listed(99, "alpha", Some(11)));
    let expected = vec![(2, 0), (4, 1), (3, 2), (1, 3), (5, 4)];
    assert_eq!(sort(&forward, 10), expected);
    assert_eq!(sort(&backward, 10), expected);
    assert_eq!(sort(&rotated, 10), expected);
}
