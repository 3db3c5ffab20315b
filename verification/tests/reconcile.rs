use gravity_sync::adlists::AdList;
use gravity_sync::db::{
    add_missing, make_tmp_table, remap_groups, remove_extraneous, reconcile, AdListRow, Database,
    GroupRow, Membership,
};

fn entry(c: &str, t: &str, r: &str, d: &str, u: &str) -> AdList {
    AdList {
        category: c.to_string(),
        tick_type: t.to_string(),
        source_repo: r.to_string(),
        description: d.to_string(),
        source_url: u.to_string(),
    }
}

fn row(id: u64, address: &str, enabled: bool, comment: &str) -> AdListRow {
    AdListRow { id, address: address.to_string(), enabled, comment: comment.to_string() }
}

fn group(id: u64, name: &str, description: &str) -> GroupRow {
    GroupRow { id, enabled: true, name: name.to_string(), description: description.to_string() }
}

fn empty_db() -> Database {
    Database {
        adlist: vec![],
        groups: vec![],
        memberships: vec![],
        next_adlist_id: 1,
        next_group_id: 1,
    }
}

fn group_id_of(db: &Database, name: &str) -> u64 {
    db.groups.iter().find(|g| g.name == name).expect("group missing").id
}

#[test]
fn example_run() {
    // One fetched entry against an empty managed row set: one row added with
    // the derived comment, nothing removed, one membership to `tick`.
    let mut db = empty_db();
    let lists = vec![entry("Malware", "tick", "r1", "List A", "http://x/a.txt")];
    let (added, removed, mapped) = reconcile(&mut db, &lists);
    assert_eq!((added, removed, mapped), (1, 0, 1));
    assert_eq!(db.adlist.len(), 1);
    assert_eq!(db.adlist[0].address, "http://x/a.txt");
    assert!(db.adlist[0].enabled);
    assert_eq!(db.adlist[0].comment, "[tick][Malware] List A");
    assert_eq!(db.groups.len(), 3);
    assert_eq!(db.memberships.len(), 1);
    assert_eq!(db.memberships[0].adlist_id, db.adlist[0].id);
    assert_eq!(db.memberships[0].group_id, group_id_of(&db, "tick"));
}

#[test]
fn reconcile_twice_is_idempotent() {
    let mut db = empty_db();
    let lists = vec![
        entry("Malware", "tick", "r1", "List A", "http://x/a.txt"),
        entry("Ads", "std", "r2", "List B", "http://x/b.txt"),
    ];
    reconcile(&mut db, &lists);
    let adlist_before: Vec<(u64, String, bool, String)> = db
        .adlist
        .iter()
        .map(|r| (r.id, r.address.clone(), r.enabled, r.comment.clone()))
        .collect();
    let links_before: Vec<(u64, u64)> =
        db.memberships.iter().map(|m| (m.adlist_id, m.group_id)).collect();
    let (added, removed, mapped) = reconcile(&mut db, &lists);
    // The second run adds and removes nothing; the rebuild recomputes the
    // same links, so its count repeats.
    assert_eq!((added, removed), (0, 0));
    assert_eq!(mapped, 2);
    let adlist_after: Vec<(u64, String, bool, String)> = db
        .adlist
        .iter()
        .map(|r| (r.id, r.address.clone(), r.enabled, r.comment.clone()))
        .collect();
    let links_after: Vec<(u64, u64)> =
        db.memberships.iter().map(|m| (m.adlist_id, m.group_id)).collect();
    assert_eq!(adlist_before, adlist_after);
    assert_eq!(links_before, links_after);
}

#[test]
fn add_missing_skips_present_triple() {
    let mut db = empty_db();
    db.adlist.push(row(1, "http://x/a.txt", true, "[tick][Malware] List A"));
    db.next_adlist_id = 2;
    let lists = vec![entry("Malware", "tick", "r1", "List A", "http://x/a.txt")];
    let staging = make_tmp_table(&lists);
    let added = add_missing(&mut db, &staging);
    assert_eq!(added, 0);
    assert_eq!(db.adlist.len(), 1);
}

#[test]
fn add_missing_ignores_address_conflict() {
    // A row with the same address under another comment is left alone:
    // insert if truly new, not upsert.
    let mut db = empty_db();
    db.adlist.push(row(1, "http://x/a.txt", false, "someone else's row"));
    db.next_adlist_id = 2;
    let lists = vec![entry("Malware", "tick", "r1", "List A", "http://x/a.txt")];
    let staging = make_tmp_table(&lists);
    let added = add_missing(&mut db, &staging);
    assert_eq!(added, 0);
    assert_eq!(db.adlist.len(), 1);
    assert_eq!(db.adlist[0].comment, "someone else's row");
    assert!(!db.adlist[0].enabled);
}

#[test]
fn add_missing_deduplicates_identical_triples() {
    let mut db = empty_db();
    let lists = vec![
        entry("Malware", "tick", "r1", "List A", "http://x/a.txt"),
        entry("Malware", "tick", "r1", "List A", "http://x/a.txt"),
    ];
    let staging = make_tmp_table(&lists);
    let added = add_missing(&mut db, &staging);
    assert_eq!(added, 1);
    assert_eq!(db.adlist.len(), 1);
}

#[test]
fn remove_extraneous_soft_deletes() {
    // A managed, enabled row whose comment is absent from the staging is
    // disabled; address and comment are preserved.
    let mut db = empty_db();
    db.adlist.push(row(1, "http://x/a.txt", true, "[tick][Malware] List A"));
    db.next_adlist_id = 2;
    let staging = make_tmp_table(&vec![]);
    let removed = remove_extraneous(&mut db, &staging);
    assert_eq!(removed, 1);
    assert_eq!(db.adlist.len(), 1);
    assert!(!db.adlist[0].enabled);
    assert_eq!(db.adlist[0].address, "http://x/a.txt");
    assert_eq!(db.adlist[0].comment, "[tick][Malware] List A");
}

#[test]
fn remove_extraneous_leaves_unmanaged_and_disabled_rows() {
    let mut db = empty_db();
    db.adlist.push(row(1, "http://x/mine.txt", true, "mine, hands off"));
    db.adlist.push(row(2, "http://x/old.txt", false, "[tick][Old] gone"));
    db.next_adlist_id = 3;
    let staging = make_tmp_table(&vec![]);
    let removed = remove_extraneous(&mut db, &staging);
    assert_eq!(removed, 0);
    assert!(db.adlist[0].enabled);
    assert!(!db.adlist[1].enabled);
}

#[test]
fn disabled_row_is_not_reenabled() {
    // Re-enabling only happens via a fresh insert, and the old address
    // blocks that insert: the disabled row stays disabled.
    let mut db = empty_db();
    db.adlist.push(row(1, "http://x/a.txt", false, "[tick][Malware] List A"));
    db.next_adlist_id = 2;
    let lists = vec![entry("Malware", "tick", "r1", "List A", "http://x/a.txt")];
    let (added, removed, _) = reconcile(&mut db, &lists);
    assert_eq!((added, removed), (0, 0));
    assert_eq!(db.adlist.len(), 1);
    assert!(!db.adlist[0].enabled);
}

#[test]
fn remap_links_tick_and_skips_unknown() {
    // `[tick][Malware] x` receives exactly one membership, to `tick`;
    // `[unknown][X] y` receives none.
    let mut db = empty_db();
    db.adlist.push(row(1, "http://x/a.txt", true, "[tick][Malware] x"));
    db.adlist.push(row(2, "http://x/b.txt", true, "[unknown][X] y"));
    db.next_adlist_id = 3;
    let mapped = remap_groups(&mut db);
    assert_eq!(mapped, 1);
    assert_eq!(db.memberships.len(), 1);
    assert_eq!(db.memberships[0].adlist_id, 1);
    assert_eq!(db.memberships[0].group_id, group_id_of(&db, "tick"));
}

#[test]
fn remap_upserts_the_three_groups() {
    let mut db = empty_db();
    remap_groups(&mut db);
    let names: Vec<&str> = db.groups.iter().map(|g| g.name.as_str()).collect();
    assert_eq!(names, vec!["tick", "std", "cross"]);
    assert_eq!(
        db.groups[0].description,
        "Safe, least likely to interfere with browsing"
    );
    assert_eq!(db.groups[1].description, "Standard");
    assert_eq!(
        db.groups[2].description,
        "Dangerous, false positives, deprecated, biased"
    );
    assert!(db.groups.iter().all(|g| g.enabled));
}

#[test]
fn remap_keeps_edited_group() {
    // An operator-edited group of a fixed name is never overwritten.
    let mut db = empty_db();
    db.groups.push(group(7, "std", "Custom wording"));
    db.next_group_id = 8;
    remap_groups(&mut db);
    assert_eq!(db.groups.len(), 3);
    assert_eq!(db.groups[0].name, "std");
    assert_eq!(db.groups[0].description, "Custom wording");
    assert_eq!(db.groups[0].id, 7);
}

#[test]
fn remap_skips_group_of_identity_zero() {
    let mut db = empty_db();
    db.groups.push(group(0, "tick", "the default slot"));
    db.next_group_id = 1;
    db.adlist.push(row(1, "http://x/a.txt", true, "[tick][Malware] x"));
    db.next_adlist_id = 2;
    let mapped = remap_groups(&mut db);
    assert_eq!(mapped, 0);
    assert_eq!(db.memberships.len(), 0);
}

#[test]
fn remap_preserves_links_of_unmanaged_rows() {
    let mut db = empty_db();
    db.adlist.push(row(1, "http://x/mine.txt", true, "mine, hands off"));
    db.adlist.push(row(2, "http://x/a.txt", true, "[tick][Malware] x"));
    db.next_adlist_id = 3;
    db.groups.push(group(9, "other", "not ours"));
    db.next_group_id = 10;
    db.memberships.push(Membership { adlist_id: 1, group_id: 9 });
    db.memberships.push(Membership { adlist_id: 2, group_id: 9 });
    let mapped = remap_groups(&mut db);
    assert_eq!(mapped, 1);
    // The unmanaged row's link survives; the managed row's stale link is
    // wiped and replaced by its recomputed one.
    let pairs: Vec<(u64, u64)> =
        db.memberships.iter().map(|m| (m.adlist_id, m.group_id)).collect();
    assert!(pairs.contains(&(1, 9)));
    assert!(!pairs.contains(&(2, 9)));
    assert!(pairs.contains(&(2, group_id_of(&db, "tick"))));
    assert_eq!(pairs.len(), 2);
}

#[test]
fn set_difference_adds_only_the_missing() {
    let mut db = empty_db();
    db.adlist.push(row(1, "http://x/a.txt", true, "[tick][Malware] List A"));
    db.next_adlist_id = 2;
    let lists = vec![
        entry("Malware", "tick", "r1", "List A", "http://x/a.txt"),
        entry("Ads", "std", "r2", "List B", "http://x/b.txt"),
    ];
    let staging = make_tmp_table(&lists);
    let added = add_missing(&mut db, &staging);
    assert_eq!(added, 1);
    assert_eq!(db.adlist.len(), 2);
    assert_eq!(db.adlist[1].address, "http://x/b.txt");
    assert_eq!(db.adlist[1].comment, "[std][Ads] List B");
    assert!(db.adlist[1].enabled);
    assert_eq!(db.adlist[1].id, 2);
}

#[test]
fn staging_projects_entries() {
    let lists = vec![entry("Ads", "std", "r2", "List B", "http://x/b.txt")];
    let staging = make_tmp_table(&lists);
    assert_eq!(staging.len(), 1);
    assert_eq!(staging[0].address, "http://x/b.txt");
    assert!(staging[0].enabled);
    assert_eq!(staging[0].comment, "[std][Ads] List B");
}
