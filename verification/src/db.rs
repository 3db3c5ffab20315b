//! The reconciler: projects fetched catalog entries onto an in-memory model
//! of the persisted tables. The surrounding binary loads the tables, runs
//! the reconciliation inside one transaction, and writes the result back,
//! so the whole computed state is adopted atomically or not at all.
use vstd::prelude::*;
use vstd::string::*;
use crate::adlists::{AdList, comment_of};

verus! {

// ---------------------------------------------------------------------------
// Persisted table rows and their mathematical models
// ---------------------------------------------------------------------------

/// One persisted block-list row. `address` is the unique key of the table.
pub struct AdListRow {
    pub id: u64,
    pub address: String,
    pub enabled: bool,
    pub comment: String,
}

/// One persisted group: fixed reference data, upserted but never deleted.
pub struct GroupRow {
    pub id: u64,
    pub enabled: bool,
    pub name: String,
    pub description: String,
}

/// One group-membership link, keyed by row identity pairs.
#[derive(Clone, Copy)]
pub struct Membership {
    pub adlist_id: u64,
    pub group_id: u64,
}

/// One staged row: a catalog entry projected to the shape of `AdListRow`
/// without an identity.
pub struct StagedRow {
    pub address: String,
    pub enabled: bool,
    pub comment: String,
}

/// The in-memory image of the three persisted tables, together with the next
/// free identity of each table that assigns identities.
pub struct Database {
    pub adlist: Vec<AdListRow>,
    pub groups: Vec<GroupRow>,
    pub memberships: Vec<Membership>,
    pub next_adlist_id: u64,
    pub next_group_id: u64,
}

#[verifier::ext_equal]
pub struct RowM {
    pub id: int,
    pub address: Seq<char>,
    pub enabled: bool,
    pub comment: Seq<char>,
}

#[verifier::ext_equal]
pub struct GroupM {
    pub id: int,
    pub enabled: bool,
    pub name: Seq<char>,
    pub description: Seq<char>,
}

#[verifier::ext_equal]
pub struct LinkM {
    pub adlist_id: int,
    pub group_id: int,
}

#[verifier::ext_equal]
pub struct StagedM {
    pub address: Seq<char>,
    pub enabled: bool,
    pub comment: Seq<char>,
}

#[verifier::ext_equal]
pub struct DbM {
    pub rows: Seq<RowM>,
    pub groups: Seq<GroupM>,
    pub links: Seq<LinkM>,
    pub next_row_id: int,
    pub next_group_id: int,
}

impl View for AdListRow {
    type V = RowM;

    open spec fn view(&self) -> RowM {
        RowM {
            id: self.id as int,
            address: self.address@,
            enabled: self.enabled,
            comment: self.comment@,
        }
    }
}

impl View for GroupRow {
    type V = GroupM;

    open spec fn view(&self) -> GroupM {
        GroupM {
            id: self.id as int,
            enabled: self.enabled,
            name: self.name@,
            description: self.description@,
        }
    }
}

impl View for Membership {
    type V = LinkM;

    open spec fn view(&self) -> LinkM {
        LinkM { adlist_id: self.adlist_id as int, group_id: self.group_id as int }
    }
}

impl View for StagedRow {
    type V = StagedM;

    open spec fn view(&self) -> StagedM {
        StagedM { address: self.address@, enabled: self.enabled, comment: self.comment@ }
    }
}

pub open spec fn rows_model(s: Seq<AdListRow>) -> Seq<RowM> {
    s.map_values(|r: AdListRow| r@)
}

pub open spec fn groups_model(s: Seq<GroupRow>) -> Seq<GroupM> {
    s.map_values(|g: GroupRow| g@)
}

pub open spec fn links_model(s: Seq<Membership>) -> Seq<LinkM> {
    s.map_values(|l: Membership| l@)
}

pub open spec fn stage_model(s: Seq<StagedRow>) -> Seq<StagedM> {
    s.map_values(|r: StagedRow| r@)
}

impl View for Database {
    type V = DbM;

    open spec fn view(&self) -> DbM {
        DbM {
            rows: rows_model(self.adlist@),
            groups: groups_model(self.groups@),
            links: links_model(self.memberships@),
            next_row_id: self.next_adlist_id as int,
            next_group_id: self.next_group_id as int,
        }
    }
}

// ---------------------------------------------------------------------------
// The managed-prefix convention
// ---------------------------------------------------------------------------

/// A comment marks a row as managed by this system exactly when it starts
/// with `[`. Rows with any other comment belong to other owners.
pub open spec fn managed(c: Seq<char>) -> bool {
    c.len() > 0 && c[0] == '['
}

/// Whether the row at index `i` is enabled, managed, and carries exactly the
/// staged triple `t`.
pub open spec fn live_triple_at(rows: Seq<RowM>, i: int, t: StagedM) -> bool {
    &&& rows[i].enabled
    &&& managed(rows[i].comment)
    &&& rows[i].address == t.address
    &&& rows[i].enabled == t.enabled
    &&& rows[i].comment == t.comment
}

/// Whether the triple `t` occurs among the enabled managed rows.
pub open spec fn has_live_triple(rows: Seq<RowM>, t: StagedM) -> bool {
    exists|i: int| 0 <= i < rows.len() && #[trigger] live_triple_at(rows, i, t)
}

/// Whether some row carries the address `a` (enabled or not, managed or not).
pub open spec fn has_address(rows: Seq<RowM>, a: Seq<char>) -> bool {
    exists|i: int| 0 <= i < rows.len() && (#[trigger] rows[i]).address == a
}

/// Whether some staged row carries the comment `c`.
pub open spec fn staged_has_comment(staging: Seq<StagedM>, c: Seq<char>) -> bool {
    exists|i: int| 0 <= i < staging.len() && (#[trigger] staging[i]).comment == c
}

/// The staging of a fetched catalog: one row per entry, in order, enabled,
/// with the derived comment.
pub open spec fn staging_of(lists: Seq<AdList>) -> Seq<StagedM> {
    lists.map_values(
        |a: AdList| StagedM { address: a.source_url@, enabled: true, comment: comment_of(a) },
    )
}

// ---------------------------------------------------------------------------
// Stage
// ---------------------------------------------------------------------------

/// Stage: one staged row per fetched entry, in source order, each enabled,
/// with the derived comment. Duplicates from the remote feed are kept
/// verbatim.
pub fn make_tmp_table(lists: &Vec<AdList>) -> (r: Vec<StagedRow>)
    ensures
        stage_model(r@) == staging_of(lists@),
{
    let mut r: Vec<StagedRow> = Vec::new();
    let n = lists.len();
    for k in 0..n
        invariant
            n == lists@.len(),
            r@.len() == k,
            forall|i: int| 0 <= i < k ==> #[trigger] stage_model(r@)[i] == staging_of(lists@)[i],
    {
        let ghost pre = r@;
        let entry = &lists[k];
        r.push(StagedRow {
            address: entry.source_url.clone(),
            enabled: true,
            comment: entry.get_comment(),
        });
        proof {
            assert forall|i: int| 0 <= i < k + 1 implies #[trigger] stage_model(r@)[i]
                == staging_of(lists@)[i] by {
                if i < k {
                    assert(r@[i] == pre[i]);
                    assert(stage_model(pre)[i] == staging_of(lists@)[i]);
                } else {
                    assert(stage_model(r@)[i] =~= staging_of(lists@)[i]);
                }
            }
        }
    }
    proof {
        assert(stage_model(r@) =~= staging_of(lists@));
    }
    r
}

// ---------------------------------------------------------------------------
// Add missing
// ---------------------------------------------------------------------------

/// The row created for a staged triple under the identity `id`.
pub open spec fn fresh_row(s: StagedM, id: int) -> RowM {
    RowM { id: id, address: s.address, enabled: s.enabled, comment: s.comment }
}

/// Processes the staged rows in order against the pre-statement table
/// `rows0`, accumulating into `rows`: a staged triple absent from the
/// enabled managed triples of `rows0` is appended under the next free
/// identity, unless some accumulated row (pre-existing or appended earlier)
/// already carries its address; every other staged row is ignored.
pub open spec fn add_missing_m(
    rows0: Seq<RowM>,
    rows: Seq<RowM>,
    next: int,
    staging: Seq<StagedM>,
) -> (Seq<RowM>, int)
    decreases staging.len(),
{
    if staging.len() == 0 {
        (rows, next)
    } else {
        let s = staging[0];
        let rest = staging.drop_first();
        if !has_live_triple(rows0, s) && !has_address(rows, s.address) {
            add_missing_m(rows0, rows.push(fresh_row(s, next)), next + 1, rest)
        } else {
            add_missing_m(rows0, rows, next, rest)
        }
    }
}

fn is_managed(c: &String) -> (b: bool)
    ensures
        b == managed(c@),
{
    let cs = c.as_str();
    let n = cs.unicode_len();
    if n == 0 {
        false
    } else {
        cs.get_char(0) == '['
    }
}

fn find_live_triple(rows: &Vec<AdListRow>, s: &StagedRow) -> (b: bool)
    ensures
        b == has_live_triple(rows_model(rows@), s@),
{
    let n = rows.len();
    for i in 0..n
        invariant
            n == rows@.len(),
            forall|j: int| 0 <= j < i ==> !#[trigger] live_triple_at(rows_model(rows@), j, s@),
    {
        let r = &rows[i];
        if r.enabled == s.enabled && r.enabled && is_managed(&r.comment) && r.address == s.address
            && r.comment == s.comment {
            proof {
                assert(live_triple_at(rows_model(rows@), i as int, s@));
            }
            return true;
        }
    }
    false
}

fn find_address(rows: &Vec<AdListRow>, a: &String) -> (b: bool)
    ensures
        b == has_address(rows_model(rows@), a@),
{
    let n = rows.len();
    for i in 0..n
        invariant
            n == rows@.len(),
            forall|j: int| 0 <= j < i ==> (#[trigger] rows_model(rows@)[j]).address != a@,
    {
        if rows[i].address == *a {
            proof {
                assert(rows_model(rows@)[i as int].address == a@);
            }
            return true;
        }
    }
    false
}

/// Add missing: the set difference. Every staged triple absent from the
/// enabled managed triples of the table as it stood before this step is
/// inserted under a fresh identity — unless a row with the same address
/// already exists (in the old table or inserted earlier in this step), in
/// which case that staged row is ignored rather than failing. Returns the
/// number of rows actually inserted.
pub fn add_missing(db: &mut Database, staging: &Vec<StagedRow>) -> (added: usize)
    requires
        old(db).next_adlist_id + staging@.len() <= u64::MAX,
    ensures
        ({
            let r = add_missing_m(
                old(db)@.rows,
                old(db)@.rows,
                old(db)@.next_row_id,
                stage_model(staging@),
            );
            &&& final(db)@.rows == r.0
            &&& final(db)@.next_row_id == r.1
        }),
        final(db)@.groups == old(db)@.groups,
        final(db)@.links == old(db)@.links,
        final(db)@.next_group_id == old(db)@.next_group_id,
        added == final(db)@.rows.len() - old(db)@.rows.len(),
{
    let ghost rows0 = db@.rows;
    let ghost next0 = db@.next_row_id;
    let ghost sm = stage_model(staging@);
    let n = staging.len();

    // The set difference, computed against the pre-statement table.
    let mut miss: Vec<bool> = Vec::new();
    for k in 0..n
        invariant
            n == staging@.len(),
            sm == stage_model(staging@),
            miss@.len() == k,
            *db == *old(db),
            rows0 == db@.rows,
            forall|j: int| 0 <= j < k ==> miss@[j] == !has_live_triple(rows0, sm[j]),
    {
        let m = !find_live_triple(&db.adlist, &staging[k]);
        miss.push(m);
    }

    // Insert each missing triple, ignoring address conflicts.
    proof {
        assert(sm.skip(0) =~= sm);
    }
    let mut added: usize = 0;
    for k in 0..n
        invariant
            n == staging@.len(),
            sm == stage_model(staging@),
            sm.len() == n,
            miss@.len() == n,
            forall|j: int| 0 <= j < n ==> miss@[j] == !has_live_triple(rows0, sm[j]),
            rows0 == old(db)@.rows,
            next0 == old(db)@.next_row_id,
            next0 + n <= u64::MAX,
            added == db@.rows.len() - rows0.len(),
            added <= k,
            db@.next_row_id == next0 + added,
            db@.groups == old(db)@.groups,
            db@.links == old(db)@.links,
            db@.next_group_id == old(db)@.next_group_id,
            add_missing_m(rows0, db@.rows, db@.next_row_id, sm.skip(k as int))
                == add_missing_m(rows0, rows0, next0, sm),
    {
        let ghost pre_rows = db@.rows;
        let ghost pre_next = db@.next_row_id;
        proof {
            assert(sm.skip(k as int)[0] == sm[k as int]);
            assert(sm.skip(k as int).drop_first() =~= sm.skip(k as int + 1));
        }
        let s = &staging[k];
        if miss[k] && !find_address(&db.adlist, &s.address) {
            let row = AdListRow {
                id: db.next_adlist_id,
                address: s.address.clone(),
                enabled: s.enabled,
                comment: s.comment.clone(),
            };
            proof {
                assert(row@ =~= fresh_row(sm[k as int], pre_next));
            }
            db.adlist.push(row);
            db.next_adlist_id = db.next_adlist_id + 1;
            added = added + 1;
            proof {
                assert(rows_model(db.adlist@) =~= pre_rows.push(fresh_row(sm[k as int], pre_next)));
            }
        }
    }
    proof {
        assert(sm.skip(n as int) =~= Seq::<StagedM>::empty());
    }
    added
}

// ---------------------------------------------------------------------------
// Remove extraneous
// ---------------------------------------------------------------------------

/// Whether this step disables the row `r`: it is enabled, managed, and its
/// comment occurs nowhere in the staging.
pub open spec fn removes(r: RowM, staging: Seq<StagedM>) -> bool {
    r.enabled && managed(r.comment) && !staged_has_comment(staging, r.comment)
}

/// The row `r` with its enabled flag cleared; identity, address and comment
/// are preserved.
pub open spec fn disabled_row(r: RowM) -> RowM {
    RowM { id: r.id, address: r.address, enabled: false, comment: r.comment }
}

/// Soft removal: every enabled managed row whose comment is absent from the
/// staging is disabled in place; every other row is untouched.
pub open spec fn remove_extraneous_m(rows: Seq<RowM>, staging: Seq<StagedM>) -> Seq<RowM> {
    rows.map_values(|r: RowM| if removes(r, staging) { disabled_row(r) } else { r })
}

/// How many rows the soft removal disables.
pub open spec fn removed_count(rows: Seq<RowM>, staging: Seq<StagedM>) -> int
    decreases rows.len(),
{
    if rows.len() == 0 {
        0
    } else {
        removed_count(rows.drop_last(), staging) + if removes(rows.last(), staging) {
            1int
        } else {
            0int
        }
    }
}

fn staging_contains_comment(staging: &Vec<StagedRow>, c: &String) -> (b: bool)
    ensures
        b == staged_has_comment(stage_model(staging@), c@),
{
    let n = staging.len();
    for i in 0..n
        invariant
            n == staging@.len(),
            forall|j: int| 0 <= j < i ==> (#[trigger] stage_model(staging@)[j]).comment != c@,
    {
        if staging[i].comment == *c {
            proof {
                assert(stage_model(staging@)[i as int].comment == c@);
            }
            return true;
        }
    }
    false
}

/// Remove extraneous: among managed, currently enabled rows, disable those
/// whose comment does not appear in the staging. The row itself persists,
/// with its address and comment unchanged. Rows already disabled are not
/// re-enabled by this step. Returns the number of rows disabled.
pub fn remove_extraneous(db: &mut Database, staging: &Vec<StagedRow>) -> (removed: usize)
    ensures
        final(db)@.rows == remove_extraneous_m(old(db)@.rows, stage_model(staging@)),
        removed == removed_count(old(db)@.rows, stage_model(staging@)),
        final(db)@.groups == old(db)@.groups,
        final(db)@.links == old(db)@.links,
        final(db)@.next_row_id == old(db)@.next_row_id,
        final(db)@.next_group_id == old(db)@.next_group_id,
{
    let ghost rows0 = db@.rows;
    let ghost sm = stage_model(staging@);
    let mut removed: usize = 0;
    let n = db.adlist.len();
    for i in 0..n
        invariant
            n == db.adlist@.len(),
            db@.rows.len() == rows0.len(),
            rows0 == old(db)@.rows,
            sm == stage_model(staging@),
            removed <= i,
            removed == removed_count(rows0.take(i as int), sm),
            forall|j: int| 0 <= j < i ==> #[trigger] db@.rows[j] == remove_extraneous_m(
                rows0,
                sm,
            )[j],
            forall|j: int| i <= j < n ==> #[trigger] db@.rows[j] == rows0[j],
            db@.groups == old(db)@.groups,
            db@.links == old(db)@.links,
            db@.next_row_id == old(db)@.next_row_id,
            db@.next_group_id == old(db)@.next_group_id,
    {
        let ghost pre = db@.rows;
        proof {
            assert(rows0.take(i as int + 1).drop_last() =~= rows0.take(i as int));
            assert(rows0.take(i as int + 1).last() == rows0[i as int]);
            assert(db@.rows[i as int] == rows0[i as int]);
        }
        let r = &db.adlist[i];
        if r.enabled && is_managed(&r.comment) && !staging_contains_comment(staging, &r.comment) {
            proof {
                assert(removes(rows0[i as int], sm));
            }
            let id = db.adlist[i].id;
            let addr = db.adlist[i].address.clone();
            let com = db.adlist[i].comment.clone();
            db.adlist.set(i, AdListRow { id: id, address: addr, enabled: false, comment: com });
            removed = removed + 1;
            proof {
                assert(db@.rows[i as int] =~= disabled_row(rows0[i as int]));
                assert(forall|j: int|
                    0 <= j < n && j != i ==> #[trigger] db@.rows[j] == pre[j]);
            }
        } else {
            proof {
                assert(!removes(rows0[i as int], sm));
            }
        }
    }
    proof {
        assert(rows0.take(n as int) =~= rows0);
        assert(db@.rows =~= remove_extraneous_m(rows0, sm));
    }
    removed
}

// ---------------------------------------------------------------------------
// Remap groups
// ---------------------------------------------------------------------------

/// Whether `id` is the identity of some managed row.
pub open spec fn managed_id(rows: Seq<RowM>, id: int) -> bool {
    exists|i: int|
        0 <= i < rows.len() && (#[trigger] rows[i]).id == id && managed(rows[i].comment)
}

/// The links that survive the wipe: those whose row is not managed.
pub open spec fn keep_unmanaged(links: Seq<LinkM>, rows: Seq<RowM>) -> Seq<LinkM>
    decreases links.len(),
{
    if links.len() == 0 {
        Seq::empty()
    } else {
        let rest = keep_unmanaged(links.drop_last(), rows);
        if managed_id(rows, links.last().adlist_id) {
            rest
        } else {
            rest.push(links.last())
        }
    }
}

/// Whether some group carries the name `n`.
pub open spec fn group_named(groups: Seq<GroupM>, n: Seq<char>) -> bool {
    exists|i: int| 0 <= i < groups.len() && (#[trigger] groups[i]).name == n
}

pub open spec fn tick_desc() -> Seq<char> {
    "Safe, least likely to interfere with browsing"@
}

pub open spec fn std_desc() -> Seq<char> {
    "Standard"@
}

pub open spec fn cross_desc() -> Seq<char> {
    "Dangerous, false positives, deprecated, biased"@
}

/// Insert-if-absent of one group: an existing group of the same name is left
/// entirely unchanged (an operator may have edited it); otherwise the group
/// is appended enabled, under the next free identity.
pub open spec fn upsert_one(groups: Seq<GroupM>, next: int, name: Seq<char>, desc: Seq<char>) -> (
    Seq<GroupM>,
    int,
) {
    if group_named(groups, name) {
        (groups, next)
    } else {
        (groups.push(GroupM { id: next, enabled: true, name: name, description: desc }), next + 1)
    }
}

/// Upsert of the three fixed groups, in their fixed order.
pub open spec fn upsert_groups_all(groups: Seq<GroupM>, next: int) -> (Seq<GroupM>, int) {
    let s1 = upsert_one(groups, next, "tick"@, tick_desc());
    let s2 = upsert_one(s1.0, s1.1, "std"@, std_desc());
    upsert_one(s2.0, s2.1, "cross"@, cross_desc())
}

/// Whether the comment starts with `[` followed by the group's name.
pub open spec fn has_group_prefix(c: Seq<char>, name: Seq<char>) -> bool {
    (seq!['['] + name).is_prefix_of(c)
}

/// The links the group `g` receives: one per row whose comment starts with
/// `[` followed by the group's name, in row order. The group of identity 0
/// receives none.
pub open spec fn links_for_group(rows: Seq<RowM>, g: GroupM) -> Seq<LinkM>
    decreases rows.len(),
{
    if rows.len() == 0 {
        Seq::empty()
    } else {
        let rest = links_for_group(rows.drop_last(), g);
        if g.id != 0 && has_group_prefix(rows.last().comment, g.name) {
            rest.push(LinkM { adlist_id: rows.last().id, group_id: g.id })
        } else {
            rest
        }
    }
}

/// The recomputed links: those of each group in group order.
pub open spec fn match_links(rows: Seq<RowM>, groups: Seq<GroupM>) -> Seq<LinkM>
    decreases groups.len(),
{
    if groups.len() == 0 {
        Seq::empty()
    } else {
        match_links(rows, groups.drop_last()) + links_for_group(rows, groups.last())
    }
}

/// Rebuild group memberships: wipe the links of managed rows, upsert the
/// three fixed groups, and relink every row whose comment prefix names a
/// group. Links of unmanaged rows are untouched.
pub open spec fn remap_groups_m(db: DbM) -> (DbM, int) {
    let up = upsert_groups_all(db.groups, db.next_group_id);
    let mapped = match_links(db.rows, up.0);
    (
        DbM {
            rows: db.rows,
            groups: up.0,
            links: keep_unmanaged(db.links, db.rows) + mapped,
            next_row_id: db.next_row_id,
            next_group_id: up.1,
        },
        mapped.len() as int,
    )
}

pub proof fn lemma_links_for_group_zero(rows: Seq<RowM>, g: GroupM)
    requires
        g.id == 0,
    ensures
        links_for_group(rows, g) == Seq::<LinkM>::empty(),
    decreases rows.len(),
{
    if rows.len() > 0 {
        lemma_links_for_group_zero(rows.drop_last(), g);
    }
}

fn is_managed_row_id(rows: &Vec<AdListRow>, id: u64) -> (b: bool)
    ensures
        b == managed_id(rows_model(rows@), id as int),
{
    let n = rows.len();
    for i in 0..n
        invariant
            n == rows@.len(),
            forall|j: int| 0 <= j < i ==> !((#[trigger] rows_model(rows@)[j]).id == id as int
                && managed(rows_model(rows@)[j].comment)),
    {
        if rows[i].id == id && is_managed(&rows[i].comment) {
            proof {
                assert(rows_model(rows@)[i as int].id == id as int);
            }
            return true;
        }
    }
    false
}

fn str_eq(a: &str, b: &str) -> (r: bool)
    ensures
        r == (a@ == b@),
{
    let na = a.unicode_len();
    let nb = b.unicode_len();
    if na != nb {
        return false;
    }
    for i in 0..na
        invariant
            na == a@.len(),
            na == b@.len(),
            forall|j: int| 0 <= j < i ==> a@[j] == b@[j],
    {
        if a.get_char(i) != b.get_char(i) {
            return false;
        }
    }
    proof {
        assert(a@ =~= b@);
    }
    true
}

fn find_group_named(groups: &Vec<GroupRow>, name: &str) -> (b: bool)
    ensures
        b == group_named(groups_model(groups@), name@),
{
    let n = groups.len();
    for i in 0..n
        invariant
            n == groups@.len(),
            forall|j: int| 0 <= j < i ==> (#[trigger] groups_model(groups@)[j]).name != name@,
    {
        if str_eq(groups[i].name.as_str(), name) {
            proof {
                assert(groups_model(groups@)[i as int].name == name@);
            }
            return true;
        }
    }
    false
}

fn str_has_prefix(s: &str, p: &str) -> (b: bool)
    ensures
        b == p@.is_prefix_of(s@),
{
    let np = p.unicode_len();
    let ns = s.unicode_len();
    if np > ns {
        return false;
    }
    for i in 0..np
        invariant
            np == p@.len(),
            ns == s@.len(),
            np <= ns,
            forall|j: int| 0 <= j < i ==> p@[j] == s@[j],
    {
        if s.get_char(i) != p.get_char(i) {
            proof {
                assert(p@[i as int] != s@.subrange(0, np as int)[i as int]);
            }
            return false;
        }
    }
    proof {
        assert(p@ =~= s@.subrange(0, np as int));
    }
    true
}

fn upsert_group(db: &mut Database, name: &str, desc: &str)
    requires
        old(db).next_group_id < u64::MAX,
    ensures
        ({
            let up = upsert_one(old(db)@.groups, old(db)@.next_group_id, name@, desc@);
            &&& final(db)@.groups == up.0
            &&& final(db)@.next_group_id == up.1
        }),
        final(db)@.rows == old(db)@.rows,
        final(db)@.links == old(db)@.links,
        final(db)@.next_row_id == old(db)@.next_row_id,
        final(db).next_group_id <= old(db).next_group_id + 1,
{
    let ghost pre = db@.groups;
    if !find_group_named(&db.groups, name) {
        let g = GroupRow {
            id: db.next_group_id,
            enabled: true,
            name: String::from_str(name),
            description: String::from_str(desc),
        };
        proof {
            assert(g@ =~= GroupM {
                id: db.next_group_id as int,
                enabled: true,
                name: name@,
                description: desc@,
            });
        }
        db.groups.push(g);
        db.next_group_id = db.next_group_id + 1;
        proof {
            assert(groups_model(db.groups@) =~= pre.push(
                GroupM {
                    id: old(db).next_group_id as int,
                    enabled: true,
                    name: name@,
                    description: desc@,
                },
            ));
        }
    }
}

/// Rebuild group memberships for managed rows: delete every link whose row
/// is managed, upsert the three fixed groups, and insert one link for every
/// (group, row) pair where the row's comment starts with `[` followed by the
/// group's name, skipping the group of identity 0. Returns the number of
/// links inserted.
pub fn remap_groups(db: &mut Database) -> (mapped: usize)
    requires
        old(db).next_group_id + 3 <= u64::MAX,
    ensures
        ({
            let r = remap_groups_m(old(db)@);
            &&& final(db)@ == r.0
            &&& mapped == r.1
        }),
{
    let ghost rows = db@.rows;
    let ghost links0 = db@.links;

    // Wipe the links of managed rows.
    let mut kept: Vec<Membership> = Vec::new();
    let nl = db.memberships.len();
    for i in 0..nl
        invariant
            nl == db.memberships@.len(),
            *db == *old(db),
            rows == db@.rows,
            links_model(kept@) == keep_unmanaged(links_model(db.memberships@).take(i as int), rows),
    {
        let ghost prek = kept@;
        proof {
            assert(links_model(db.memberships@).take(i as int + 1).drop_last() =~= links_model(
                db.memberships@,
            ).take(i as int));
            assert(links_model(db.memberships@).take(i as int + 1).last() == links_model(
                db.memberships@,
            )[i as int]);
        }
        let l = db.memberships[i];
        if !is_managed_row_id(&db.adlist, l.adlist_id) {
            kept.push(l);
            proof {
                assert(links_model(kept@) =~= links_model(prek).push(l@));
            }
        }
    }
    proof {
        assert(links_model(db.memberships@).take(nl as int) =~= links_model(db.memberships@));
        assert(links_model(db.memberships@) == links0);
    }
    let kept_len = kept.len();
    db.memberships = kept;

    // Upsert the three fixed groups.
    upsert_group(db, "tick", "Safe, least likely to interfere with browsing");
    upsert_group(db, "std", "Standard");
    upsert_group(db, "cross", "Dangerous, false positives, deprecated, biased");

    // Relink every row whose comment prefix names a group.
    let ghost gfin = db@.groups;
    let ghost keptm = db@.links;
    let ng = db.groups.len();
    proof {
        assert(gfin.take(0) =~= Seq::<GroupM>::empty());
        assert(keptm + match_links(rows, gfin.take(0)) =~= keptm);
    }
    for gi in 0..ng
        invariant
            ng == db.groups@.len(),
            gfin == db@.groups,
            rows == db@.rows,
            db@.next_row_id == old(db)@.next_row_id,
            db@.next_group_id as int == remap_groups_m(old(db)@).0.next_group_id,
            db@.links == keptm + match_links(rows, gfin.take(gi as int)),
            kept_len == keptm.len(),
            db@.links.len() >= kept_len,
    {
        proof {
            assert(gfin.len() == ng);
            assert(gfin.take(gi as int + 1).drop_last() =~= gfin.take(gi as int));
            assert(gfin.take(gi as int + 1).last() == gfin[gi as int]);
        }
        let g_id = db.groups[gi].id;
        let ghost g = gfin[gi as int];
        if g_id != 0 {
            let mut pat = String::from_str("[");
            pat.append(db.groups[gi].name.as_str());
            proof {
                reveal_strlit("[");
                assert(pat@ =~= seq!['['] + g.name);
            }
            let nr = db.adlist.len();
            proof {
                assert(rows.take(0) =~= Seq::<RowM>::empty());
                assert(db@.links + links_for_group(rows.take(0), g) =~= db@.links);
            }
            let ghost base = db@.links;
            for ri in 0..nr
                invariant
                    nr == db.adlist@.len(),
                    gfin == db@.groups,
                    rows == db@.rows,
                    db@.next_row_id == old(db)@.next_row_id,
                    db@.next_group_id as int == remap_groups_m(old(db)@).0.next_group_id,
                    gi < gfin.len(),
                    g == gfin[gi as int],
                    g.id == g_id as int,
                    g.id != 0,
                    pat@ == seq!['['] + g.name,
                    base == keptm + match_links(rows, gfin.take(gi as int)),
                    db@.links == base + links_for_group(rows.take(ri as int), g),
                    kept_len == keptm.len(),
                    db@.links.len() >= kept_len,
            {
                let ghost prel = db@.links;
                proof {
                    assert(rows.take(ri as int + 1).drop_last() =~= rows.take(ri as int));
                    assert(rows.take(ri as int + 1).last() == rows[ri as int]);
                }
                if str_has_prefix(db.adlist[ri].comment.as_str(), pat.as_str()) {
                    let m = Membership { adlist_id: db.adlist[ri].id, group_id: g_id };
                    db.memberships.push(m);
                    proof {
                        assert(m@ =~= LinkM { adlist_id: rows[ri as int].id, group_id: g.id });
                        assert(links_model(db.memberships@) =~= prel.push(
                            LinkM { adlist_id: rows[ri as int].id, group_id: g.id },
                        ));
                        assert(db@.links =~= base + links_for_group(rows.take(ri as int + 1), g));
                    }
                } else {
                    proof {
                        assert(db@.links =~= base + links_for_group(rows.take(ri as int + 1), g));
                    }
                }
            }
            proof {
                assert(rows.take(nr as int) =~= rows);
                assert(db@.links =~= keptm + match_links(rows, gfin.take(gi as int + 1)));
            }
        } else {
            proof {
                lemma_links_for_group_zero(rows, g);
                assert(db@.links =~= keptm + match_links(rows, gfin.take(gi as int + 1)));
            }
        }
    }
    proof {
        assert(gfin.take(ng as int) =~= gfin);
    }
    let total = db.memberships.len();
    let mapped = total - kept_len;
    proof {
        assert(db@ =~= remap_groups_m(old(db)@).0);
    }
    mapped
}

// ---------------------------------------------------------------------------
// Laws of the single steps
// ---------------------------------------------------------------------------

/// The staged triples absent from the enabled managed triples of `rows0`,
/// in staging order.
pub open spec fn missing_of(rows0: Seq<RowM>, staging: Seq<StagedM>) -> Seq<StagedM>
    decreases staging.len(),
{
    if staging.len() == 0 {
        Seq::empty()
    } else {
        let rest = missing_of(rows0, staging.drop_first());
        if !has_live_triple(rows0, staging[0]) {
            seq![staging[0]] + rest
        } else {
            rest
        }
    }
}

/// Adding missing rows only appends: the accumulated rows are preserved, and
/// every appended row is a staged triple that was absent from the enabled
/// managed triples, under an identity at or above `next`.
pub proof fn lemma_add_missing_grows(
    rows0: Seq<RowM>,
    rows: Seq<RowM>,
    next: int,
    staging: Seq<StagedM>,
)
    ensures
        ({
            let r = add_missing_m(rows0, rows, next, staging);
            &&& r.0.len() >= rows.len()
            &&& forall|i: int| 0 <= i < rows.len() ==> r.0[i] == rows[i]
            &&& r.1 == next + r.0.len() - rows.len()
            &&& forall|i: int|
                rows.len() <= i < r.0.len() ==> (#[trigger] r.0[i]).id >= next && exists|k: int|
                    0 <= k < staging.len() && r.0[i] == fresh_row(staging[k], r.0[i].id)
                        && !has_live_triple(rows0, staging[k])
        }),
    decreases staging.len(),
{
    if staging.len() > 0 {
        let s = staging[0];
        let rest = staging.drop_first();
        if !has_live_triple(rows0, s) && !has_address(rows, s.address) {
            let rows2 = rows.push(fresh_row(s, next));
            lemma_add_missing_grows(rows0, rows2, next + 1, rest);
            let r = add_missing_m(rows0, rows, next, staging);
            assert forall|i: int| 0 <= i < rows.len() implies r.0[i] == rows[i] by {
                assert(r.0[i] == rows2[i]);
                assert(rows2[i] == rows[i]);
            }
            assert forall|i: int| rows.len() <= i < r.0.len() implies (#[trigger] r.0[i]).id
                >= next && exists|k: int|
                0 <= k < staging.len() && r.0[i] == fresh_row(staging[k], r.0[i].id)
                    && !has_live_triple(rows0, staging[k]) by {
                if i == rows.len() {
                    assert(r.0[i] == rows2[i]);
                    assert(r.0[i] == fresh_row(staging[0], r.0[i].id));
                } else {
                    assert(rows2.len() <= i < r.0.len());
                    let k = choose|k: int|
                        0 <= k < rest.len() && r.0[i] == fresh_row(rest[k], r.0[i].id)
                            && !has_live_triple(rows0, rest[k]);
                    assert(rest[k] == staging[k + 1]);
                }
            }
        } else {
            lemma_add_missing_grows(rows0, rows, next, rest);
            let r = add_missing_m(rows0, rows, next, staging);
            assert forall|i: int| 0 <= i < rows.len() implies r.0[i] == rows[i] by {
                assert(add_missing_m(rows0, rows, next, rest).0[i] == rows[i]);
            }
            assert forall|i: int| rows.len() <= i < r.0.len() implies (#[trigger] r.0[i]).id
                >= next && exists|k: int|
                0 <= k < staging.len() && r.0[i] == fresh_row(staging[k], r.0[i].id)
                    && !has_live_triple(rows0, staging[k]) by {
                let k = choose|k: int|
                    0 <= k < rest.len() && r.0[i] == fresh_row(rest[k], r.0[i].id)
                        && !has_live_triple(rows0, rest[k]);
                assert(rest[k] == staging[k + 1]);
            }
        }
    }
}

/// After adding missing rows, every staged triple either stands among the
/// enabled managed triples of the result or its address is occupied there.
pub proof fn lemma_add_missing_covers(
    rows0: Seq<RowM>,
    rows: Seq<RowM>,
    next: int,
    staging: Seq<StagedM>,
)
    requires
        rows0.len() <= rows.len(),
        forall|i: int| 0 <= i < rows0.len() ==> rows0[i] == (#[trigger] rows[i]),
    ensures
        ({
            let r = add_missing_m(rows0, rows, next, staging);
            forall|k: int|
                0 <= k < staging.len() && (#[trigger] staging[k]).enabled && managed(
                    staging[k].comment,
                ) ==> has_live_triple(r.0, staging[k]) || has_address(r.0, staging[k].address)
        }),
    decreases staging.len(),
{
    if staging.len() > 0 {
        let s = staging[0];
        let rest = staging.drop_first();
        let r = add_missing_m(rows0, rows, next, staging);
        if !has_live_triple(rows0, s) && !has_address(rows, s.address) {
            let rows2 = rows.push(fresh_row(s, next));
            lemma_add_missing_covers(rows0, rows2, next + 1, rest);
            lemma_add_missing_grows(rows0, rows2, next + 1, rest);
            assert forall|k: int|
                0 <= k < staging.len() && (#[trigger] staging[k]).enabled && managed(
                    staging[k].comment,
                ) implies has_live_triple(r.0, staging[k]) || has_address(
                r.0,
                staging[k].address,
            ) by {
                if k == 0 {
                    assert(r.0[rows.len() as int] == rows2[rows.len() as int]);
                    if s.enabled && managed(s.comment) {
                        assert(live_triple_at(r.0, rows.len() as int, s));
                    }
                } else {
                    assert(rest[k - 1] == staging[k]);
                }
            }
        } else {
            lemma_add_missing_covers(rows0, rows, next, rest);
            lemma_add_missing_grows(rows0, rows, next, rest);
            assert forall|k: int|
                0 <= k < staging.len() && (#[trigger] staging[k]).enabled && managed(
                    staging[k].comment,
                ) implies has_live_triple(r.0, staging[k]) || has_address(
                r.0,
                staging[k].address,
            ) by {
                if k == 0 {
                    if has_live_triple(rows0, s) {
                        let i = choose|i: int|
                            0 <= i < rows0.len() && #[trigger] live_triple_at(rows0, i, s);
                        assert(r.0[i] == rows[i]);
                        assert(live_triple_at(r.0, i, s));
                    } else {
                        let i = choose|i: int|
                            0 <= i < rows.len() && (#[trigger] rows[i]).address == s.address;
                        assert(r.0[i] == rows[i]);
                    }
                } else {
                    assert(rest[k - 1] == staging[k]);
                }
            }
        }
    }
}

/// When every staged triple already stands among the enabled managed triples
/// or has its address occupied, adding missing rows changes nothing.
pub proof fn lemma_add_missing_noop(rows0: Seq<RowM>, next: int, staging: Seq<StagedM>)
    requires
        forall|k: int|
            0 <= k < staging.len() ==> has_live_triple(rows0, #[trigger] staging[k])
                || has_address(rows0, staging[k].address),
    ensures
        add_missing_m(rows0, rows0, next, staging) == (rows0, next),
    decreases staging.len(),
{
    if staging.len() > 0 {
        let s = staging[0];
        let rest = staging.drop_first();
        assert(has_live_triple(rows0, s) || has_address(rows0, s.address));
        assert(forall|k: int|
            0 <= k < rest.len() ==> #[trigger] rest[k] == staging[k + 1]);
        lemma_add_missing_noop(rows0, next, rest);
    }
}

/// When no row is up for removal, the soft removal changes nothing.
pub proof fn lemma_remove_noop(rows: Seq<RowM>, staging: Seq<StagedM>)
    requires
        forall|i: int| 0 <= i < rows.len() ==> !removes(#[trigger] rows[i], staging),
    ensures
        remove_extraneous_m(rows, staging) == rows,
        removed_count(rows, staging) == 0,
    decreases rows.len(),
{
    assert(remove_extraneous_m(rows, staging) =~= rows);
    if rows.len() > 0 {
        assert(forall|i: int| 0 <= i < rows.len() - 1 ==> rows.drop_last()[i] == #[trigger] rows[i]);
        lemma_remove_noop(rows.drop_last(), staging);
    }
}

/// Soft-delete correctness: a managed, enabled row whose comment is absent
/// from the staging becomes disabled, its identity, address and comment
/// preserved unchanged; every other row — unmanaged, already disabled, or
/// still present upstream — is untouched.
pub proof fn lemma_remove_extraneous_pointwise(rows: Seq<RowM>, staging: Seq<StagedM>)
    ensures
        remove_extraneous_m(rows, staging).len() == rows.len(),
        forall|i: int|
            0 <= i < rows.len() && removes(#[trigger] rows[i], staging)
                ==> remove_extraneous_m(rows, staging)[i] == disabled_row(rows[i]),
        forall|i: int|
            0 <= i < rows.len() && !removes(#[trigger] rows[i], staging)
                ==> remove_extraneous_m(rows, staging)[i] == rows[i],
{
}

/// Set-difference correctness, stated where it is exact: with the staged
/// addresses pairwise distinct and absent from the persisted table, the step
/// appends exactly the staged triples absent from the enabled managed
/// triples, in staging order and under consecutive fresh identities, and no
/// others; the persisted rows are untouched.
pub proof fn lemma_add_missing_exact(rows: Seq<RowM>, next: int, staging: Seq<StagedM>)
    requires
        forall|i: int, j: int|
            0 <= i < j < staging.len() ==> (#[trigger] staging[i]).address != (
            #[trigger] staging[j]).address,
        forall|k: int| 0 <= k < staging.len() ==> !has_address(rows, (#[trigger] staging[k]).address),
    ensures
        ({
            let r = add_missing_m(rows, rows, next, staging);
            let miss = missing_of(rows, staging);
            &&& r.0.len() == rows.len() + miss.len()
            &&& forall|i: int| 0 <= i < rows.len() ==> r.0[i] == rows[i]
            &&& forall|k: int|
                0 <= k < miss.len() ==> r.0[rows.len() + k] == fresh_row(#[trigger] miss[k], next + k)
            &&& r.1 == next + miss.len()
        }),
{
    lemma_add_missing_exact_rec(rows, rows, next, staging);
}

proof fn lemma_add_missing_exact_rec(
    rows0: Seq<RowM>,
    acc: Seq<RowM>,
    next: int,
    staging: Seq<StagedM>,
)
    requires
        forall|i: int, j: int|
            0 <= i < j < staging.len() ==> (#[trigger] staging[i]).address != (
            #[trigger] staging[j]).address,
        forall|k: int| 0 <= k < staging.len() ==> !has_address(acc, (#[trigger] staging[k]).address),
    ensures
        ({
            let r = add_missing_m(rows0, acc, next, staging);
            let miss = missing_of(rows0, staging);
            &&& r.0.len() == acc.len() + miss.len()
            &&& forall|i: int| 0 <= i < acc.len() ==> r.0[i] == acc[i]
            &&& forall|k: int|
                0 <= k < miss.len() ==> r.0[acc.len() + k] == fresh_row(#[trigger] miss[k], next + k)
            &&& r.1 == next + miss.len()
        }),
    decreases staging.len(),
{
    if staging.len() > 0 {
        let s = staging[0];
        let rest = staging.drop_first();
        let miss = missing_of(rows0, staging);
        assert(forall|k: int| 0 <= k < rest.len() ==> #[trigger] rest[k] == staging[k + 1]);
        if !has_live_triple(rows0, s) {
            assert(!has_address(acc, s.address));
            let acc2 = acc.push(fresh_row(s, next));
            assert forall|k: int| 0 <= k < rest.len() implies !has_address(
                acc2,
                (#[trigger] rest[k]).address,
            ) by {
                assert(rest[k] == staging[k + 1]);
                assert(staging[k + 1].address != s.address);
                if has_address(acc2, rest[k].address) {
                    let i = choose|i: int|
                        0 <= i < acc2.len() && (#[trigger] acc2[i]).address == rest[k].address;
                    assert(i < acc.len() ==> acc2[i] == acc[i]);
                }
            }
            lemma_add_missing_exact_rec(rows0, acc2, next + 1, rest);
            assert(miss =~= seq![s] + missing_of(rows0, rest));
            let r = add_missing_m(rows0, acc, next, staging);
            assert forall|i: int| 0 <= i < acc.len() implies r.0[i] == acc[i] by {
                assert(r.0[i] == acc2[i]);
                assert(acc2[i] == acc[i]);
            }
            assert forall|k: int| 0 <= k < miss.len() implies r.0[acc.len() + k] == fresh_row(
                #[trigger] miss[k],
                next + k,
            ) by {
                if k == 0 {
                    assert(r.0[acc.len() as int] == acc2[acc.len() as int]);
                } else {
                    assert(miss[k] == missing_of(rows0, rest)[k - 1]);
                    assert(r.0[acc2.len() + (k - 1)] == fresh_row(
                        missing_of(rows0, rest)[k - 1],
                        next + 1 + (k - 1),
                    ));
                }
            }
        } else {
            lemma_add_missing_exact_rec(rows0, acc, next, rest);
            assert(miss =~= missing_of(rows0, rest));
            let r = add_missing_m(rows0, acc, next, staging);
            assert forall|i: int| 0 <= i < acc.len() implies r.0[i] == acc[i] by {
                assert(add_missing_m(rows0, acc, next, rest).0[i] == acc[i]);
            }
        }
    }
}

// ---------------------------------------------------------------------------
// Laws of the group remap
// ---------------------------------------------------------------------------

proof fn lemma_upsert_one_named(groups: Seq<GroupM>, next: int, name: Seq<char>, desc: Seq<char>)
    ensures
        ({
            let u = upsert_one(groups, next, name, desc);
            &&& group_named(u.0, name)
            &&& forall|n: Seq<char>| #[trigger] group_named(groups, n) ==> group_named(u.0, n)
        }),
{
    let u = upsert_one(groups, next, name, desc);
    if !group_named(groups, name) {
        assert(u.0[groups.len() as int].name == name);
        assert(group_named(u.0, name));
    }
    assert forall|n: Seq<char>| #[trigger] group_named(groups, n) implies group_named(u.0, n) by {
        let i = choose|i: int| 0 <= i < groups.len() && (#[trigger] groups[i]).name == n;
        assert(u.0[i].name == n);
    }
}

/// After the upsert of the fixed groups, all three names are present.
pub proof fn lemma_upsert_names_present(groups: Seq<GroupM>, next: int)
    ensures
        ({
            let up = upsert_groups_all(groups, next);
            &&& group_named(up.0, "tick"@)
            &&& group_named(up.0, "std"@)
            &&& group_named(up.0, "cross"@)
        }),
{
    let s1 = upsert_one(groups, next, "tick"@, tick_desc());
    let s2 = upsert_one(s1.0, s1.1, "std"@, std_desc());
    lemma_upsert_one_named(groups, next, "tick"@, tick_desc());
    lemma_upsert_one_named(s1.0, s1.1, "std"@, std_desc());
    lemma_upsert_one_named(s2.0, s2.1, "cross"@, cross_desc());
}

/// With the three fixed names already present, the upsert changes nothing.
pub proof fn lemma_upsert_noop(groups: Seq<GroupM>, next: int)
    requires
        group_named(groups, "tick"@),
        group_named(groups, "std"@),
        group_named(groups, "cross"@),
    ensures
        upsert_groups_all(groups, next) == (groups, next),
{
}

proof fn lemma_links_for_group_managed(rows: Seq<RowM>, g: GroupM)
    ensures
        forall|i: int|
            0 <= i < links_for_group(rows, g).len() ==> managed_id(
                rows,
                (#[trigger] links_for_group(rows, g)[i]).adlist_id,
            ),
    decreases rows.len(),
{
    if rows.len() > 0 {
        lemma_links_for_group_managed(rows.drop_last(), g);
        let lfg = links_for_group(rows, g);
        let rest = links_for_group(rows.drop_last(), g);
        assert forall|i: int| 0 <= i < lfg.len() implies managed_id(
            rows,
            (#[trigger] lfg[i]).adlist_id,
        ) by {
            if i < rest.len() {
                assert(lfg[i] == rest[i]);
                assert(managed_id(rows.drop_last(), rest[i].adlist_id));
                let j = choose|j: int|
                    0 <= j < rows.drop_last().len() && (#[trigger] rows.drop_last()[j]).id
                        == rest[i].adlist_id && managed(rows.drop_last()[j].comment);
                assert(rows[j] == rows.drop_last()[j]);
                assert(managed_id(rows, rest[i].adlist_id));
            } else {
                let c = rows.last().comment;
                let p = seq!['['] + g.name;
                assert(p[0] == '[');
                assert(c.subrange(0, p.len() as int)[0] == c[0]);
                assert(managed(c));
                assert((#[trigger] rows[rows.len() - 1]).id == lfg[i].adlist_id);
            }
        }
    }
}

/// Every recomputed link names a managed row.
pub proof fn lemma_match_links_managed(rows: Seq<RowM>, groups: Seq<GroupM>)
    ensures
        forall|i: int|
            0 <= i < match_links(rows, groups).len() ==> managed_id(
                rows,
                (#[trigger] match_links(rows, groups)[i]).adlist_id,
            ),
    decreases groups.len(),
{
    if groups.len() > 0 {
        lemma_match_links_managed(rows, groups.drop_last());
        lemma_links_for_group_managed(rows, groups.last());
        let ml = match_links(rows, groups);
        let a = match_links(rows, groups.drop_last());
        let b = links_for_group(rows, groups.last());
        assert forall|i: int| 0 <= i < ml.len() implies managed_id(
            rows,
            (#[trigger] ml[i]).adlist_id,
        ) by {
            if i < a.len() {
                assert(ml[i] == a[i]);
            } else {
                assert(ml[i] == b[i - a.len()]);
            }
        }
    }
}

proof fn lemma_keep_unmanaged_split(a: Seq<LinkM>, b: Seq<LinkM>, rows: Seq<RowM>)
    ensures
        keep_unmanaged(a + b, rows) == keep_unmanaged(a, rows) + keep_unmanaged(b, rows),
    decreases b.len(),
{
    if b.len() == 0 {
        assert(a + b =~= a);
        assert(keep_unmanaged(a, rows) + keep_unmanaged(b, rows) =~= keep_unmanaged(a, rows));
    } else {
        lemma_keep_unmanaged_split(a, b.drop_last(), rows);
        assert((a + b).drop_last() =~= a + b.drop_last());
        assert((a + b).last() == b.last());
        assert(keep_unmanaged(a + b, rows) =~= keep_unmanaged(a, rows) + keep_unmanaged(b, rows));
    }
}

proof fn lemma_keep_all_unmanaged(l: Seq<LinkM>, rows: Seq<RowM>)
    requires
        forall|i: int| 0 <= i < l.len() ==> !managed_id(rows, (#[trigger] l[i]).adlist_id),
    ensures
        keep_unmanaged(l, rows) == l,
    decreases l.len(),
{
    if l.len() > 0 {
        assert(forall|i: int|
            0 <= i < l.len() - 1 ==> (#[trigger] l.drop_last()[i]) == l[i]);
        lemma_keep_all_unmanaged(l.drop_last(), rows);
        assert(keep_unmanaged(l, rows) =~= l);
    }
}

proof fn lemma_keep_all_managed(l: Seq<LinkM>, rows: Seq<RowM>)
    requires
        forall|i: int| 0 <= i < l.len() ==> managed_id(rows, (#[trigger] l[i]).adlist_id),
    ensures
        keep_unmanaged(l, rows) == Seq::<LinkM>::empty(),
    decreases l.len(),
{
    if l.len() > 0 {
        assert(forall|i: int|
            0 <= i < l.len() - 1 ==> (#[trigger] l.drop_last()[i]) == l[i]);
        lemma_keep_all_managed(l.drop_last(), rows);
    }
}

proof fn lemma_keep_elements(l: Seq<LinkM>, rows: Seq<RowM>)
    ensures
        forall|i: int|
            0 <= i < keep_unmanaged(l, rows).len() ==> !managed_id(
                rows,
                (#[trigger] keep_unmanaged(l, rows)[i]).adlist_id,
            ),
    decreases l.len(),
{
    if l.len() > 0 {
        lemma_keep_elements(l.drop_last(), rows);
        let k = keep_unmanaged(l, rows);
        let rest = keep_unmanaged(l.drop_last(), rows);
        assert forall|i: int| 0 <= i < k.len() implies !managed_id(
            rows,
            (#[trigger] k[i]).adlist_id,
        ) by {
            if i < rest.len() {
                assert(k[i] == rest[i]);
            }
        }
    }
}

/// The link that ties the row `r` to the group `g`.
pub open spec fn link_of(r: RowM, g: GroupM) -> LinkM {
    LinkM { adlist_id: r.id, group_id: g.id }
}

proof fn lemma_add_contains(a: Seq<LinkM>, b: Seq<LinkM>, x: LinkM)
    ensures
        (a + b).contains(x) <==> a.contains(x) || b.contains(x),
{
    if (a + b).contains(x) {
        let i = choose|i: int| 0 <= i < (a + b).len() && (a + b)[i] == x;
        if i < a.len() {
            assert(a[i] == x);
        } else {
            assert(b[i - a.len()] == x);
        }
    }
    if a.contains(x) {
        let i = choose|i: int| 0 <= i < a.len() && a[i] == x;
        assert((a + b)[i] == x);
    }
    if b.contains(x) {
        let i = choose|i: int| 0 <= i < b.len() && b[i] == x;
        assert((a + b)[a.len() + i] == x);
    }
}

proof fn lemma_links_for_group_iff(rows: Seq<RowM>, g: GroupM, x: LinkM)
    ensures
        links_for_group(rows, g).contains(x) <==> (g.id != 0 && exists|i: int|
            0 <= i < rows.len() && has_group_prefix((#[trigger] rows[i]).comment, g.name) && x
                == link_of(rows[i], g)),
    decreases rows.len(),
{
    let lfg = links_for_group(rows, g);
    if rows.len() > 0 {
        lemma_links_for_group_iff(rows.drop_last(), g, x);
        let rest = links_for_group(rows.drop_last(), g);
        let dl = rows.drop_last();
        if lfg.contains(x) {
            let i = choose|i: int| 0 <= i < lfg.len() && lfg[i] == x;
            if i < rest.len() {
                assert(lfg[i] == rest[i]);
                assert(rest.contains(x));
                let j = choose|j: int|
                    0 <= j < dl.len() && has_group_prefix((#[trigger] dl[j]).comment, g.name) && x
                        == link_of(dl[j], g);
                assert(rows[j] == dl[j]);
                assert(has_group_prefix((#[trigger] rows[j]).comment, g.name) && x == link_of(
                    rows[j],
                    g,
                ));
            } else {
                assert(lfg[i] == link_of(rows.last(), g));
                assert(has_group_prefix((#[trigger] rows[rows.len() - 1]).comment, g.name) && x
                    == link_of(rows[rows.len() - 1], g));
            }
        }
        if g.id != 0 && exists|i: int|
            0 <= i < rows.len() && has_group_prefix((#[trigger] rows[i]).comment, g.name) && x
                == link_of(rows[i], g) {
            let i = choose|i: int|
                0 <= i < rows.len() && has_group_prefix((#[trigger] rows[i]).comment, g.name) && x
                    == link_of(rows[i], g);
            if i < rows.len() - 1 {
                assert(dl[i] == rows[i]);
                assert(has_group_prefix((#[trigger] dl[i]).comment, g.name) && x == link_of(
                    dl[i],
                    g,
                ));
                assert(rest.contains(x));
                let k = choose|k: int| 0 <= k < rest.len() && rest[k] == x;
                assert(lfg[k] == rest[k]);
                assert(lfg.contains(x));
            } else {
                assert(lfg[lfg.len() - 1] == x);
                assert(lfg.contains(x));
            }
        }
    }
}

/// Group remap correctness: the recomputed links are exactly those of the
/// (row, group) pairs whose comment starts with `[` followed by the group's
/// name, the group of identity 0 excepted.
pub proof fn lemma_match_links_iff(rows: Seq<RowM>, groups: Seq<GroupM>, x: LinkM)
    ensures
        match_links(rows, groups).contains(x) <==> exists|i: int, j: int|
            0 <= i < rows.len() && 0 <= j < groups.len() && (#[trigger] groups[j]).id != 0
                && has_group_prefix((#[trigger] rows[i]).comment, groups[j].name) && x == link_of(
                rows[i],
                groups[j],
            ),
    decreases groups.len(),
{
    let ml = match_links(rows, groups);
    if groups.len() > 0 {
        lemma_match_links_iff(rows, groups.drop_last(), x);
        lemma_links_for_group_iff(rows, groups.last(), x);
        let a = match_links(rows, groups.drop_last());
        let b = links_for_group(rows, groups.last());
        let dg = groups.drop_last();
        lemma_add_contains(a, b, x);
        if ml.contains(x) {
            if a.contains(x) {
                let (i, j) = choose|i: int, j: int|
                    0 <= i < rows.len() && 0 <= j < dg.len() && (#[trigger] dg[j]).id != 0
                        && has_group_prefix((#[trigger] rows[i]).comment, dg[j].name) && x == link_of(
                        rows[i],
                        dg[j],
                    );
                assert(groups[j] == dg[j]);
                assert(0 <= i < rows.len() && 0 <= j < groups.len() && (#[trigger] groups[j]).id
                    != 0 && has_group_prefix((#[trigger] rows[i]).comment, groups[j].name) && x
                    == link_of(rows[i], groups[j]));
            } else {
                let i = choose|i: int|
                    0 <= i < rows.len() && has_group_prefix(
                        (#[trigger] rows[i]).comment,
                        groups.last().name,
                    ) && x == link_of(rows[i], groups.last());
                let j = groups.len() - 1;
                assert(0 <= i < rows.len() && 0 <= j < groups.len() && (#[trigger] groups[j]).id
                    != 0 && has_group_prefix((#[trigger] rows[i]).comment, groups[j].name) && x
                    == link_of(rows[i], groups[j]));
            }
        }
        if exists|i: int, j: int|
            0 <= i < rows.len() && 0 <= j < groups.len() && (#[trigger] groups[j]).id != 0
                && has_group_prefix((#[trigger] rows[i]).comment, groups[j].name) && x == link_of(
                rows[i],
                groups[j],
            ) {
            let (i, j) = choose|i: int, j: int|
                0 <= i < rows.len() && 0 <= j < groups.len() && (#[trigger] groups[j]).id != 0
                    && has_group_prefix((#[trigger] rows[i]).comment, groups[j].name) && x
                    == link_of(rows[i], groups[j]);
            if j < groups.len() - 1 {
                assert(dg[j] == groups[j]);
                assert(0 <= i < rows.len() && 0 <= j < dg.len() && (#[trigger] dg[j]).id != 0
                    && has_group_prefix((#[trigger] rows[i]).comment, dg[j].name) && x == link_of(
                    rows[i],
                    dg[j],
                ));
                assert(a.contains(x));
            } else {
                assert(b.contains(x));
            }
            assert(ml.contains(x));
        }
    }
}

proof fn lemma_keep_contains(l: Seq<LinkM>, rows: Seq<RowM>, x: LinkM)
    requires
        !managed_id(rows, x.adlist_id),
    ensures
        keep_unmanaged(l, rows).contains(x) <==> l.contains(x),
    decreases l.len(),
{
    if l.len() > 0 {
        lemma_keep_contains(l.drop_last(), rows, x);
        let k = keep_unmanaged(l, rows);
        let rest = keep_unmanaged(l.drop_last(), rows);
        if k.contains(x) {
            let i = choose|i: int| 0 <= i < k.len() && k[i] == x;
            if i < rest.len() {
                assert(rest[i] == k[i]);
                assert(rest.contains(x));
                let m = choose|m: int| 0 <= m < l.drop_last().len() && l.drop_last()[m] == x;
                assert(l[m] == x);
                assert(l.contains(x));
            } else {
                assert(k[i] == l.last());
                assert(l[l.len() - 1] == x);
                assert(l.contains(x));
            }
        }
        if l.contains(x) {
            let i = choose|i: int| 0 <= i < l.len() && l[i] == x;
            if i < l.len() - 1 {
                assert(l.drop_last()[i] == x);
                assert(l.drop_last().contains(x));
                let m = choose|m: int| 0 <= m < rest.len() && rest[m] == x;
                assert(k[m] == rest[m]);
                assert(k.contains(x));
            } else {
                assert(!managed_id(rows, l.last().adlist_id));
                assert(k[k.len() - 1] == x);
                assert(k.contains(x));
            }
        }
    }
}

// ---------------------------------------------------------------------------
// Well-formed row identities
// ---------------------------------------------------------------------------

/// Well-formed row identities, as the persisted table keeps them: pairwise
/// distinct and below the next free identity.
pub open spec fn wf_row_ids(rows: Seq<RowM>, next: int) -> bool {
    &&& forall|i: int| 0 <= i < rows.len() ==> (#[trigger] rows[i]).id < next
    &&& forall|i: int, j: int|
        0 <= i < j < rows.len() ==> (#[trigger] rows[i]).id != (#[trigger] rows[j]).id
}

proof fn lemma_add_missing_ids(rows0: Seq<RowM>, rows: Seq<RowM>, next: int, staging: Seq<StagedM>)
    ensures
        ({
            let r = add_missing_m(rows0, rows, next, staging);
            forall|i: int|
                rows.len() <= i < r.0.len() ==> (#[trigger] r.0[i]).id == next + (i - rows.len())
        }),
    decreases staging.len(),
{
    if staging.len() > 0 {
        let s = staging[0];
        let rest = staging.drop_first();
        if !has_live_triple(rows0, s) && !has_address(rows, s.address) {
            let rows2 = rows.push(fresh_row(s, next));
            lemma_add_missing_ids(rows0, rows2, next + 1, rest);
            lemma_add_missing_grows(rows0, rows2, next + 1, rest);
            let r = add_missing_m(rows0, rows, next, staging);
            assert forall|i: int| rows.len() <= i < r.0.len() implies (#[trigger] r.0[i]).id
                == next + (i - rows.len()) by {
                if i == rows.len() {
                    assert(r.0[i] == rows2[i]);
                } else {
                    assert(r.0 == add_missing_m(rows0, rows2, next + 1, rest).0);
                    assert(r.0[i].id == (next + 1) + (i - rows2.len()));
                }
            }
        } else {
            lemma_add_missing_ids(rows0, rows, next, rest);
            let r = add_missing_m(rows0, rows, next, staging);
            assert forall|i: int| rows.len() <= i < r.0.len() implies (#[trigger] r.0[i]).id
                == next + (i - rows.len()) by {
                assert(r.0 == add_missing_m(rows0, rows, next, rest).0);
                assert(add_missing_m(rows0, rows, next, rest).0[i].id == next + (i - rows.len()));
            }
        }
    }
}

/// A reconciliation run preserves well-formed row identities: the rows it
/// appends take the consecutive fresh identities, and no identity is reused.
pub proof fn lemma_reconcile_preserves_wf(db: DbM, staging: Seq<StagedM>)
    requires
        wf_row_ids(db.rows, db.next_row_id),
    ensures
        ({
            let r = reconcile_m(db, staging);
            wf_row_ids(r.0.rows, r.0.next_row_id)
        }),
{
    let a1 = add_missing_m(db.rows, db.rows, db.next_row_id, staging);
    let rows1 = a1.0;
    let rows2 = remove_extraneous_m(rows1, staging);
    lemma_add_missing_grows(db.rows, db.rows, db.next_row_id, staging);
    lemma_add_missing_ids(db.rows, db.rows, db.next_row_id, staging);
    lemma_remove_extraneous_pointwise(rows1, staging);
    let r = reconcile_m(db, staging);
    assert(r.0.rows == rows2);
    assert(r.0.next_row_id == a1.1);
    assert forall|i: int| 0 <= i < rows2.len() implies (#[trigger] rows2[i]).id == rows1[i].id by {
        if removes(rows1[i], staging) {
            assert(rows2[i] == disabled_row(rows1[i]));
        } else {
            assert(rows2[i] == rows1[i]);
        }
    }
    assert forall|i: int| 0 <= i < rows2.len() implies (#[trigger] rows2[i]).id < a1.1 by {
        if i < db.rows.len() {
            assert(rows1[i] == db.rows[i]);
        }
    }
    assert forall|i: int, j: int| 0 <= i < j < rows2.len() implies (#[trigger] rows2[i]).id != (
    #[trigger] rows2[j]).id by {
        if i < db.rows.len() {
            assert(rows1[i] == db.rows[i]);
        }
        if j < db.rows.len() {
            assert(rows1[j] == db.rows[j]);
        }
    }
}

// ---------------------------------------------------------------------------
// Unmanaged isolation
// ---------------------------------------------------------------------------

/// Unmanaged isolation: a run never inserts an unmanaged row, never touches
/// an existing unmanaged row, and preserves exactly the links of rows that
/// are not managed. Row identities are assumed unique and below the next
/// free identity, as the persisted table keeps them.
pub proof fn lemma_unmanaged_isolation(db: DbM, staging: Seq<StagedM>)
    requires
        forall|k: int|
            0 <= k < staging.len() ==> (#[trigger] staging[k]).enabled && managed(
                staging[k].comment,
            ),
        wf_row_ids(db.rows, db.next_row_id),
    ensures
        ({
            let r = reconcile_m(db, staging).0;
            &&& r.rows.len() >= db.rows.len()
            &&& forall|i: int|
                0 <= i < db.rows.len() && !managed((#[trigger] db.rows[i]).comment) ==> r.rows[i]
                    == db.rows[i]
            &&& forall|i: int|
                db.rows.len() <= i < r.rows.len() ==> managed((#[trigger] r.rows[i]).comment)
            &&& forall|i: int|
                0 <= i < db.rows.len() && !managed((#[trigger] db.rows[i]).comment)
                    ==> !managed_id(r.rows, db.rows[i].id)
            &&& forall|x: LinkM|
                !managed_id(r.rows, x.adlist_id) ==> (#[trigger] r.links.contains(x)
                    <==> db.links.contains(x))
        }),
{
    let a1 = add_missing_m(db.rows, db.rows, db.next_row_id, staging);
    let rows1 = a1.0;
    let rows2 = remove_extraneous_m(rows1, staging);
    lemma_add_missing_grows(db.rows, db.rows, db.next_row_id, staging);
    lemma_remove_extraneous_pointwise(rows1, staging);
    let r = reconcile_m(db, staging).0;
    assert(r.rows == rows2);

    assert forall|i: int|
        0 <= i < db.rows.len() && !managed((#[trigger] db.rows[i]).comment) implies r.rows[i]
        == db.rows[i] by {
        assert(rows1[i] == db.rows[i]);
        assert(!removes(rows1[i], staging));
    }
    assert forall|i: int| db.rows.len() <= i < r.rows.len() implies managed(
        (#[trigger] r.rows[i]).comment,
    ) by {
        let k = choose|k: int|
            0 <= k < staging.len() && rows1[i] == fresh_row(staging[k], rows1[i].id)
                && !has_live_triple(db.rows, staging[k]);
        assert(managed(rows1[i].comment));
        if removes(rows1[i], staging) {
            assert(rows2[i] == disabled_row(rows1[i]));
        } else {
            assert(rows2[i] == rows1[i]);
        }
    }
    assert forall|i: int|
        0 <= i < db.rows.len() && !managed((#[trigger] db.rows[i]).comment)
            implies !managed_id(r.rows, db.rows[i].id) by {
        if managed_id(rows2, db.rows[i].id) {
            let j = choose|j: int|
                0 <= j < rows2.len() && (#[trigger] rows2[j]).id == db.rows[i].id && managed(
                    rows2[j].comment,
                );
            if removes(rows1[j], staging) {
                assert(rows2[j] == disabled_row(rows1[j]));
            } else {
                assert(rows2[j] == rows1[j]);
            }
            assert(rows2[j].id == rows1[j].id && rows2[j].comment == rows1[j].comment);
            if j < db.rows.len() {
                assert(rows1[j] == db.rows[j]);
                if j == i {
                    assert(false);
                } else {
                    assert(db.rows[j].id != db.rows[i].id);
                    assert(false);
                }
            } else {
                assert(rows1[j].id >= db.next_row_id);
                assert(false);
            }
        }
    }
    let up1 = upsert_groups_all(db.groups, db.next_group_id);
    let kept = keep_unmanaged(db.links, rows2);
    let relinked = match_links(rows2, up1.0);
    lemma_match_links_managed(rows2, up1.0);
    assert forall|x: LinkM|
        !managed_id(r.rows, x.adlist_id) implies (#[trigger] r.links.contains(x)
        <==> db.links.contains(x)) by {
        lemma_keep_contains(db.links, rows2, x);
        lemma_add_contains(kept, relinked, x);
        if relinked.contains(x) {
            let m = choose|m: int| 0 <= m < relinked.len() && relinked[m] == x;
            assert(managed_id(rows2, (#[trigger] relinked[m]).adlist_id));
            assert(false);
        }
    }
}

// ---------------------------------------------------------------------------
// Idempotence
// ---------------------------------------------------------------------------

/// The staging derived from a fetched catalog: every staged row is enabled
/// and managed.
pub proof fn lemma_staging_of_managed(lists: Seq<AdList>)
    ensures
        forall|k: int|
            0 <= k < staging_of(lists).len() ==> (#[trigger] staging_of(lists)[k]).enabled
                && managed(staging_of(lists)[k].comment),
{
    assert forall|k: int|
        0 <= k < staging_of(lists).len() implies (#[trigger] staging_of(lists)[k]).enabled
        && managed(staging_of(lists)[k].comment) by {
        assert(staging_of(lists)[k].comment == comment_of(lists[k]));
        assert(comment_of(lists[k])[0] == '[');
    }
}

/// Idempotence: a second reconciliation with the same staging leaves the
/// state of the first run unchanged, adds and removes nothing, and
/// recomputes exactly the links the first run computed.
pub proof fn lemma_reconcile_idempotent(db: DbM, staging: Seq<StagedM>)
    requires
        forall|k: int|
            0 <= k < staging.len() ==> (#[trigger] staging[k]).enabled && managed(
                staging[k].comment,
            ),
    ensures
        ({
            let r1 = reconcile_m(db, staging);
            let r2 = reconcile_m(r1.0, staging);
            &&& r2.0 == r1.0
            &&& r2.1 == 0
            &&& r2.2 == 0
            &&& r2.3 == r1.3
        }),
{
    let a1 = add_missing_m(db.rows, db.rows, db.next_row_id, staging);
    let rows1 = a1.0;
    let rows2 = remove_extraneous_m(rows1, staging);
    lemma_add_missing_grows(db.rows, db.rows, db.next_row_id, staging);
    lemma_add_missing_covers(db.rows, db.rows, db.next_row_id, staging);
    lemma_remove_extraneous_pointwise(rows1, staging);

    // Every staged triple is live in the reconciled rows, or its address is
    // occupied there.
    assert forall|k: int| 0 <= k < staging.len() implies has_live_triple(
        rows2,
        #[trigger] staging[k],
    ) || has_address(rows2, staging[k].address) by {
        let s = staging[k];
        if has_live_triple(rows1, s) {
            let i = choose|i: int| 0 <= i < rows1.len() && #[trigger] live_triple_at(rows1, i, s);
            assert(staging[k].comment == rows1[i].comment);
            assert(staged_has_comment(staging, rows1[i].comment));
            assert(!removes(rows1[i], staging));
            assert(rows2[i] == rows1[i]);
            assert(live_triple_at(rows2, i, s));
        } else {
            assert(has_address(rows1, s.address));
            let i = choose|i: int| 0 <= i < rows1.len() && (#[trigger] rows1[i]).address == s.address;
            if removes(rows1[i], staging) {
                assert(rows2[i] == disabled_row(rows1[i]));
            } else {
                assert(rows2[i] == rows1[i]);
            }
            assert((#[trigger] rows2[i]).address == s.address);
        }
    }
    lemma_add_missing_noop(rows2, a1.1, staging);

    // No reconciled row is up for removal again.
    assert forall|i: int| 0 <= i < rows2.len() implies !removes(#[trigger] rows2[i], staging) by {
        if removes(rows1[i], staging) {
            assert(rows2[i] == disabled_row(rows1[i]));
        } else {
            assert(rows2[i] == rows1[i]);
        }
    }
    lemma_remove_noop(rows2, staging);

    // The second upsert of the fixed groups changes nothing.
    let up1 = upsert_groups_all(db.groups, db.next_group_id);
    lemma_upsert_names_present(db.groups, db.next_group_id);
    lemma_upsert_noop(up1.0, up1.1);

    // The second wipe removes exactly the recomputed links and keeps the
    // kept ones.
    let kept = keep_unmanaged(db.links, rows2);
    let relinked = match_links(rows2, up1.0);
    lemma_match_links_managed(rows2, up1.0);
    lemma_keep_elements(db.links, rows2);
    lemma_keep_unmanaged_split(kept, relinked, rows2);
    lemma_keep_all_unmanaged(kept, rows2);
    lemma_keep_all_managed(relinked, rows2);
    assert(keep_unmanaged(kept + relinked, rows2) =~= kept);

    let r1 = reconcile_m(db, staging);
    let r2 = reconcile_m(r1.0, staging);
    assert(r1.0.rows == rows2);
    assert(r2.0 =~= r1.0);
}

/// Idempotence over a fetched catalog: reconciling twice with the staging
/// of the same catalog leaves the first run's state unchanged.
pub proof fn lemma_reconcile_idempotent_catalog(db: DbM, lists: Seq<AdList>)
    ensures
        ({
            let r1 = reconcile_m(db, staging_of(lists));
            let r2 = reconcile_m(r1.0, staging_of(lists));
            &&& r2.0 == r1.0
            &&& r2.1 == 0
            &&& r2.2 == 0
            &&& r2.3 == r1.3
        }),
{
    lemma_staging_of_managed(lists);
    lemma_reconcile_idempotent(db, staging_of(lists));
}

// ---------------------------------------------------------------------------
// The whole reconciliation
// ---------------------------------------------------------------------------

/// The whole reconciliation of one run, as a function of the pre-state and
/// the staging: stage is already applied (the staging is the argument), then
/// add missing, remove extraneous, and remap groups, in that order. Returns
/// the post-state and the three counts (added, removed, mapped).
pub open spec fn reconcile_m(db: DbM, staging: Seq<StagedM>) -> (DbM, int, int, int) {
    let a = add_missing_m(db.rows, db.rows, db.next_row_id, staging);
    let added = a.0.len() - db.rows.len();
    let rows2 = remove_extraneous_m(a.0, staging);
    let removed = removed_count(a.0, staging);
    let r = remap_groups_m(
        DbM {
            rows: rows2,
            groups: db.groups,
            links: db.links,
            next_row_id: a.1,
            next_group_id: db.next_group_id,
        },
    );
    (r.0, added as int, removed, r.1)
}

/// One full reconciliation run over the fetched catalog: stage, add missing,
/// remove extraneous, remap groups, in that order. Returns the counts
/// (added, removed, mapped). The complete post-state is computed from the
/// pre-state; a caller that adopts it transactionally applies all four steps
/// or none.
pub fn reconcile(db: &mut Database, lists: &Vec<AdList>) -> (counts: (usize, usize, usize))
    requires
        old(db).next_adlist_id + lists@.len() <= u64::MAX,
        old(db).next_group_id + 3 <= u64::MAX,
    ensures
        ({
            let r = reconcile_m(old(db)@, staging_of(lists@));
            &&& final(db)@ == r.0
            &&& counts.0 == r.1
            &&& counts.1 == r.2
            &&& counts.2 == r.3
        }),
{
    let staging = make_tmp_table(lists);
    proof {
        assert(stage_model(staging@).len() == staging@.len());
        assert(staging_of(lists@).len() == lists@.len());
    }
    let added = add_missing(db, &staging);
    let removed = remove_extraneous(db, &staging);
    let mapped = remap_groups(db);
    proof {
        assert(db@ =~= reconcile_m(old(db)@, staging_of(lists@)).0);
    }
    (added, removed, mapped)
}

} // verus!
