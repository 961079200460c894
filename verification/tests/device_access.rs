use sessionman::acl::{
    grant, is_entry_of, revoke, user_listed, AclEntry, AclPerms, AclTag, DeviceAccess, Error,
};

fn entry(tag: AclTag, read: bool, write: bool, execute: bool) -> AclEntry {
    AclEntry { tag, perms: AclPerms { read, write, execute } }
}

fn rw(uid: u32) -> AclEntry {
    entry(AclTag::User(uid), true, true, false)
}

fn base() -> Vec<AclEntry> {
    vec![
        entry(AclTag::UserObj, true, true, false),
        entry(AclTag::User(7), true, false, false),
        entry(AclTag::GroupObj, true, false, false),
        entry(AclTag::Group(1000), true, true, false),
        entry(AclTag::Mask, true, true, false),
        entry(AclTag::Other, false, false, false),
    ]
}

#[test]
fn grant_adds_one_read_write_entry() {
    let granted = grant(&base(), 1000);
    let mut expected = base();
    expected.push(rw(1000));
    assert_eq!(granted, expected);
    assert!(user_listed(&granted, 1000));
    assert!(user_listed(&granted, 7));
    assert!(!user_listed(&base(), 1000));
}

#[test]
fn grant_twice_is_grant_once() {
    let once = grant(&base(), 1000);
    let twice = grant(&once, 1000);
    assert_eq!(once, twice);
    assert_eq!(twice.iter().filter(|e| e.tag == AclTag::User(1000)).count(), 1);
}

#[test]
fn grant_replaces_what_the_user_had() {
    let mut acl = base();
    acl.insert(1, entry(AclTag::User(1000), true, false, true));
    acl.push(entry(AclTag::User(1000), false, false, false));
    let granted = grant(&acl, 1000);
    let mut expected = base();
    expected.push(rw(1000));
    assert_eq!(granted, expected);
}

#[test]
fn grant_on_an_empty_list() {
    assert_eq!(grant(&Vec::new(), 0), vec![rw(0)]);
}

#[test]
fn revoke_removes_every_entry_of_the_user() {
    let acl = vec![
        rw(1000),
        entry(AclTag::Group(1000), true, true, false),
        rw(1000),
        rw(1001),
        entry(AclTag::User(1000), false, false, true),
    ];
    assert_eq!(revoke(&acl, 1000), vec![entry(AclTag::Group(1000), true, true, false), rw(1001)]);
}

#[test]
fn revoke_without_an_entry_changes_nothing() {
    assert_eq!(revoke(&base(), 1000), base());
    assert_eq!(revoke(&Vec::new(), 1000), Vec::new());
}

#[test]
fn revoke_leaves_the_group_with_the_same_id() {
    let acl = vec![entry(AclTag::Group(7), true, true, true)];
    assert_eq!(revoke(&acl, 7), acl);
    assert!(!user_listed(&acl, 7));
    assert!(!is_entry_of(&acl[0], 7));
    assert!(is_entry_of(&rw(7), 7));
    assert!(!is_entry_of(&rw(7), 8));
    assert!(!is_entry_of(&entry(AclTag::UserObj, true, true, true), 0));
}

#[test]
fn grant_then_revoke_restores_the_list() {
    assert_eq!(revoke(&grant(&base(), 1000), 1000), base());
    assert_eq!(revoke(&grant(&base(), 7), 7), revoke(&base(), 7));
}

#[test]
fn store_grants_where_a_list_is_kept() {
    let mut store = DeviceAccess::new();
    assert!(!store.is_tracked(b"/dev/dri/card0"));
    assert!(store.entries(b"/dev/dri/card0").is_none());
    store.track(b"/dev/dri/card0", base());
    store.track(b"/dev/input/event3", Vec::new());
    assert!(store.is_tracked(b"/dev/dri/card0"));
    assert!(store.grant(b"/dev/dri/card0", 1000).is_ok());
    let mut expected = base();
    expected.push(rw(1000));
    assert_eq!(store.entries(b"/dev/dri/card0"), Some(&expected));
    assert_eq!(store.entries(b"/dev/input/event3"), Some(&Vec::new()));
    assert!(store.grant(b"/dev/dri/card0", 1000).is_ok());
    assert_eq!(store.entries(b"/dev/dri/card0"), Some(&expected));
}

#[test]
fn store_refuses_to_grant_without_a_list() {
    let mut store = DeviceAccess::new();
    store.track(b"/dev/a", Vec::new());
    match store.grant(b"/dev/b", 1000) {
        Err(Error::NoAcl(path)) => assert_eq!(path, b"/dev/b".to_vec()),
        other => panic!("unexpected {:?}", other),
    }
    assert!(!store.is_tracked(b"/dev/b"));
    assert_eq!(store.entries(b"/dev/a"), Some(&Vec::new()));
}

#[test]
fn store_revokes_and_passes_over_unknown_files() {
    let mut store = DeviceAccess::new();
    store.track(b"/dev/a", vec![rw(1000), rw(1001)]);
    store.revoke(b"/dev/a", 1000);
    assert_eq!(store.entries(b"/dev/a"), Some(&vec![rw(1001)]));
    store.revoke(b"/dev/b", 1000);
    assert!(!store.is_tracked(b"/dev/b"));
    store.revoke(b"/dev/a", 1000);
    assert_eq!(store.entries(b"/dev/a"), Some(&vec![rw(1001)]));
}

#[test]
fn store_takes_a_new_reading_in_place_of_the_old() {
    let mut store = DeviceAccess::new();
    store.track(b"/dev/a", vec![rw(1)]);
    store.track(b"/dev/b", vec![rw(2)]);
    store.track(b"/dev/a", vec![rw(3)]);
    assert_eq!(store.entries(b"/dev/a"), Some(&vec![rw(3)]));
    assert_eq!(store.entries(b"/dev/b"), Some(&vec![rw(2)]));
}
