use vstd::prelude::*;

use vstd::pervasive::VecAdditionalExecFns;

use crate::types::{
    str_list_view, DatabasePackageDetails, DatabaseSupplementData, DetailsV, SupplementV,
};

verus! {

/// The schema version this build writes.
pub const CURRENT_DB_VERSION: i32 = 2;

/// The grace period, in seconds, within which a package counts as live
/// even when the supplement snapshot does not name it.
pub const LISTED_GRACE_SECONDS: i64 = 86400;

/// One `pkg_info` row together with its relation rows and its listing
/// flag.
pub struct PkgRecord {
    pub details: DatabasePackageDetails,
    pub is_listed: bool,
}

/// The mathematical value of a stored package row.
#[verifier::ext_equal]
pub struct RecordV {
    pub details: DetailsV,
    pub is_listed: bool,
}

impl View for PkgRecord {
    type V = RecordV;

    open spec fn view(&self) -> RecordV {
        RecordV { details: self.details@, is_listed: self.is_listed }
    }
}

/// The data tables of the store.
pub struct StoreTables {
    pub branch_commits: Vec<(String, String)>,
    pub pkg_info: Vec<PkgRecord>,
    pub pkg_supplement: Vec<DatabaseSupplementData>,
}

/// The mathematical value of the data tables.
#[verifier::ext_equal]
pub struct TablesV {
    pub branch_commits: Seq<(Seq<char>, Seq<char>)>,
    pub pkg_info: Seq<RecordV>,
    pub pkg_supplement: Seq<SupplementV>,
}

impl View for StoreTables {
    type V = TablesV;

    open spec fn view(&self) -> TablesV {
        TablesV {
            branch_commits: self.branch_commits@.map_values(|p: (String, String)| (p.0@, p.1@)),
            pkg_info: self.pkg_info@.map_values(|r: PkgRecord| r@),
            pkg_supplement: self.pkg_supplement@.map_values(|s: DatabaseSupplementData| s@),
        }
    }
}

/// Branch names are unique.
pub open spec fn bc_wf(m: Seq<(Seq<char>, Seq<char>)>) -> bool {
    forall|i: int, j: int| 0 <= i < j < m.len() ==> (#[trigger] m[i]).0 != (#[trigger] m[j]).0
}

/// Package rows are keyed by branch and name.
pub open spec fn rows_wf(rows: Seq<RecordV>) -> bool {
    forall|i: int, j: int|
        0 <= i < j < rows.len() ==> !((#[trigger] rows[i]).details.branch
            == (#[trigger] rows[j]).details.branch && rows[i].details.pkg_name
            == rows[j].details.pkg_name)
}

/// Supplement rows are keyed by package name.
pub open spec fn supp_wf(supp: Seq<SupplementV>) -> bool {
    forall|i: int, j: int|
        0 <= i < j < supp.len() ==> (#[trigger] supp[i]).pkgname != (#[trigger] supp[j]).pkgname
}

/// All three key constraints.
pub open spec fn tables_wf(t: TablesV) -> bool {
    bc_wf(t.branch_commits) && rows_wf(t.pkg_info) && supp_wf(t.pkg_supplement)
}

/// The empty tables.
pub open spec fn empty_tables() -> TablesV {
    TablesV {
        branch_commits: Seq::empty(),
        pkg_info: Seq::empty(),
        pkg_supplement: Seq::empty(),
    }
}

/// The relational store, modelled by its persisted value: the schema
/// version cell, whether the data tables have been created, and the rows.
pub struct DatabaseOps {
    pub user_version: i32,
    pub tables_exist: bool,
    pub tables: StoreTables,
}

/// A pending transaction: a scratch copy of the data tables that becomes
/// the store's state only when committed.  A transaction that is dropped
/// instead leaves the store untouched, which is what makes every branch
/// update atomic.
pub struct Transaction {
    pub tables: StoreTables,
}

impl DatabaseOps {
    /// The store's key constraints, and the rule that rows can only exist
    /// in tables that do.
    pub open spec fn wf(&self) -> bool {
        tables_wf(self.tables@) && (!self.tables_exist ==> self.tables@.pkg_info.len() == 0)
    }

    /// The version the stored cell effectively names: the first release
    /// did not write the cell at all, so a zero cell beside an existing
    /// `pkg_info` table means that legacy version.
    pub open spec fn effective_version(stored: i32, pkg_info_table_exists: bool) -> int {
        if stored == 0 && pkg_info_table_exists {
            1
        } else {
            stored as int
        }
    }

    /// Opens the store over its persisted value: the migration check runs
    /// first, then the data tables are created if missing.
    pub fn new(user_version: i32, pkg_info_table_exists: bool, tables: StoreTables) -> (r: Self)
        requires
            tables_wf(tables@),
            !pkg_info_table_exists ==> tables@.pkg_info.len() == 0,
        ensures
            r.wf(),
            r.tables_exist,
            r.user_version == CURRENT_DB_VERSION,
            ({
                let eff = Self::effective_version(user_version, pkg_info_table_exists);
                r.tables@ == if 0 < eff < CURRENT_DB_VERSION as int {
                    empty_tables()
                } else {
                    tables@
                }
            }),
    {
        let mut store = DatabaseOps { user_version, tables_exist: pkg_info_table_exists, tables };
        store.check_and_migrate();
        store.init_index_tables();
        store
    }

    /// The version-triggered reset: a stored version older than this
    /// build's drops every data table — the version cell itself is kept
    /// through the drop — and every successful open ends with the
    /// compiled-in current version persisted, whatever was stored before.
    pub fn check_and_migrate(&mut self)
        requires
            old(self).wf(),
        ensures
            final(self).wf(),
            final(self).user_version == CURRENT_DB_VERSION,
            ({
                let eff = Self::effective_version(old(self).user_version, old(self).tables_exist);
                &&& final(self).tables@ == if 0 < eff < CURRENT_DB_VERSION as int {
                    empty_tables()
                } else {
                    old(self).tables@
                }
                &&& final(self).tables_exist == if 0 < eff < CURRENT_DB_VERSION as int {
                    false
                } else {
                    old(self).tables_exist
                }
            }),
    {
        let version: i32 = if self.user_version == 0 && self.tables_exist {
            1
        } else {
            self.user_version
        };
        if version < CURRENT_DB_VERSION && version > 0 {
            self.tables = StoreTables {
                branch_commits: Vec::new(),
                pkg_info: Vec::new(),
                pkg_supplement: Vec::new(),
            };
            self.tables_exist = false;
            assert(self.tables@ =~= empty_tables());
        }
        self.user_version = CURRENT_DB_VERSION;
    }

    /// Creates the data tables when they are missing; existing rows stay.
    fn init_index_tables(&mut self)
        requires
            old(self).wf(),
        ensures
            final(self).wf(),
            final(self).tables_exist,
            final(self).tables@ == old(self).tables@,
            final(self).user_version == old(self).user_version,
    {
        self.tables_exist = true;
    }

    /// Every branch with its recorded tip commit.
    pub fn get_existing_commits(&self) -> (r: Vec<(String, String)>)
        ensures
            r@.map_values(|p: (String, String)| (p.0@, p.1@)) == self.tables@.branch_commits,
    {
        let mut out: Vec<(String, String)> = Vec::new();
        let mut i: usize = 0;
        while i < self.tables.branch_commits.len()
            invariant
                i <= self.tables.branch_commits@.len(),
                out@.len() == i,
                forall|j: int|
                    0 <= j < i ==> (#[trigger] out@[j]).0@
                        == self.tables.branch_commits@[j].0@ && out@[j].1@
                        == self.tables.branch_commits@[j].1@,
            decreases self.tables.branch_commits@.len() - i,
        {
            let p = &self.tables.branch_commits[i];
            out.push((p.0.clone(), p.1.clone()));
            i = i + 1;
        }
        assert(out@.map_values(|p: (String, String)| (p.0@, p.1@))
            =~= self.tables@.branch_commits);
        out
    }

    /// The tip recorded for one branch.
    pub fn get_branch_commit_id(&self, branch: &str) -> (r: Option<String>)
        ensures
            crate::types::opt_str_view(r) == bc_find(self.tables@.branch_commits, branch@),
    {
        let ghost m = self.tables@.branch_commits;
        let mut i: usize = 0;
        while i < self.tables.branch_commits.len()
            invariant
                i <= self.tables.branch_commits@.len(),
                m == self.tables@.branch_commits,
                forall|j: int| 0 <= j < i ==> (#[trigger] m[j]).0 != branch@,
            decreases self.tables.branch_commits@.len() - i,
        {
            let p = &self.tables.branch_commits[i];
            if str_eq_string(branch, &p.0) {
                assert(m[i as int].0 == branch@);
                proof {
                    lemma_bc_find_hits(m, branch@, i as int);
                }
                return Some(p.1.clone());
            }
            assert(m[i as int].0 != branch@);
            i = i + 1;
        }
        proof {
            lemma_bc_find_misses(m, branch@);
        }
        None
    }

    /// Opens a transaction: a scratch copy of the tables.
    pub fn begin_transaction(&self) -> (tx: Transaction)
        requires
            self.wf(),
        ensures
            tx.tables@ == self.tables@,
            tables_wf(tx.tables@),
    {
        Transaction { tables: clone_tables(&self.tables) }
    }

    /// Installs a committed transaction's tables as the store's state.
    pub fn commit_transaction(&mut self, tx: Transaction)
        requires
            old(self).wf(),
            old(self).tables_exist,
            tables_wf(tx.tables@),
        ensures
            final(self).wf(),
            final(self).tables@ == tx.tables@,
            final(self).user_version == old(self).user_version,
            final(self).tables_exist,
    {
        self.tables = tx.tables;
    }

    /// Records a branch's new tip inside a transaction.
    pub fn update_branch_commit_with_tx(&self, tx: &mut Transaction, branch: &str, commit_id: &str)
        requires
            tables_wf(old(tx).tables@),
        ensures
            tables_wf(final(tx).tables@),
            final(tx).tables@.branch_commits == bc_upsert(
                old(tx).tables@.branch_commits,
                branch@,
                commit_id@,
            ),
            final(tx).tables@.pkg_info == old(tx).tables@.pkg_info,
            final(tx).tables@.pkg_supplement == old(tx).tables@.pkg_supplement,
    {
        let ghost m = tx.tables@.branch_commits;
        let mut i: usize = 0;
        while i < tx.tables.branch_commits.len()
            invariant
                i <= tx.tables.branch_commits@.len(),
                m == tx.tables@.branch_commits,
                tx == old(tx),
                tables_wf(old(tx).tables@),
                bc_wf(m),
                forall|j: int| 0 <= j < i ==> (#[trigger] m[j]).0 != branch@,
            decreases tx.tables.branch_commits@.len() - i,
        {
            if str_eq_string(branch, &tx.tables.branch_commits[i].0) {
                assert(m[i as int].0 == branch@);
                tx.tables.branch_commits.set(i, (branch.to_owned(), commit_id.to_owned()));
                proof {
                    lemma_bc_upsert_hits(m, branch@, commit_id@, i as int);
                    assert(bc_wf(m));
                    assert(m[i as int].0 == branch@);
                    let mu = m.update(i as int, (branch@, commit_id@));
                    assert forall|x: int, y: int| 0 <= x < y < mu.len() implies (
                    #[trigger] mu[x]).0 != (#[trigger] mu[y]).0 by {
                        assert(mu[x].0 == m[x].0);
                        assert(mu[y].0 == m[y].0);
                    }
                    assert(bc_wf(mu));
                    assert(final(tx).tables@.branch_commits =~= m.update(
                        i as int,
                        (branch@, commit_id@),
                    ));
                    assert(final(tx).tables@.pkg_info =~= old(tx).tables@.pkg_info);
                    assert(final(tx).tables@.pkg_supplement =~= old(tx).tables@.pkg_supplement);
                }
                return ;
            }
            assert(m[i as int].0 != branch@);
            i = i + 1;
        }
        tx.tables.branch_commits.push((branch.to_owned(), commit_id.to_owned()));
        proof {
            lemma_bc_upsert_appends(m, branch@, commit_id@);
            assert(final(tx).tables@.branch_commits =~= m.push((branch@, commit_id@)));
            assert(final(tx).tables@.pkg_info =~= old(tx).tables@.pkg_info);
            assert(final(tx).tables@.pkg_supplement =~= old(tx).tables@.pkg_supplement);
        }
    }

    /// Clears one branch's package rows inside a transaction; other
    /// branches, the branch tips and the supplement are untouched.
    pub fn clear_index_with_tx(&self, tx: &mut Transaction, branch: &str)
        requires
            tables_wf(old(tx).tables@),
        ensures
            tables_wf(final(tx).tables@),
            final(tx).tables@.pkg_info == rows_without_branch(old(tx).tables@.pkg_info, branch@),
            final(tx).tables@.branch_commits == old(tx).tables@.branch_commits,
            final(tx).tables@.pkg_supplement == old(tx).tables@.pkg_supplement,
    {
        let ghost rows0 = tx.tables@.pkg_info;
        let mut kept: Vec<PkgRecord> = Vec::new();
        let n = tx.tables.pkg_info.len();
        let mut i: usize = 0;
        proof {
            assert(rows0.skip(0) =~= rows0);
            assert(kept@.map_values(|r: PkgRecord| r@) + rows_without_branch(
                rows0.skip(0),
                branch@,
            ) =~= rows_without_branch(rows0, branch@));
        }
        while i < n
            invariant
                i <= n,
                n == tx.tables.pkg_info@.len(),
                tx == old(tx),
                rows0 == tx.tables@.pkg_info,
                rows_without_branch(rows0, branch@) == kept@.map_values(|r: PkgRecord| r@)
                    + rows_without_branch(rows0.skip(i as int), branch@),
            decreases n - i,
        {
            let ghost old_kept = kept@.map_values(|r: PkgRecord| r@);
            proof {
                assert(rows0.skip(i as int).first() == rows0[i as int]);
                assert(rows0.skip(i as int).drop_first() =~= rows0.skip(i + 1));
            }
            let rec = &tx.tables.pkg_info[i];
            if !str_eq_string(branch, &rec.details.branch) {
                kept.push(clone_record(rec));
                proof {
                    assert(kept@.map_values(|r: PkgRecord| r@) =~= old_kept.push(
                        rows0[i as int],
                    ));
                    assert(old_kept + (seq![rows0[i as int]] + rows_without_branch(
                        rows0.skip(i + 1),
                        branch@,
                    )) =~= kept@.map_values(|r: PkgRecord| r@) + rows_without_branch(
                        rows0.skip(i + 1),
                        branch@,
                    ));
                }
            }
            i = i + 1;
        }
        proof {
            assert(rows0.skip(n as int) =~= Seq::<RecordV>::empty());
            assert(kept@.map_values(|r: PkgRecord| r@) + rows_without_branch(
                rows0.skip(n as int),
                branch@,
            ) =~= kept@.map_values(|r: PkgRecord| r@));
        }
        tx.tables.pkg_info = kept;
        proof {
            lemma_rows_without_branch_wf(rows0, branch@);
            assert(final(tx).tables@.branch_commits =~= old(tx).tables@.branch_commits);
            assert(final(tx).tables@.pkg_supplement =~= old(tx).tables@.pkg_supplement);
        }
    }
}

/// The tip stored for a branch.
pub open spec fn bc_find(m: Seq<(Seq<char>, Seq<char>)>, k: Seq<char>) -> Option<Seq<char>>
    decreases m.len(),
{
    if m.len() == 0 {
        None
    } else if m.first().0 == k {
        Some(m.first().1)
    } else {
        bc_find(m.drop_first(), k)
    }
}

/// A branch map with one tip replaced or appended.
pub open spec fn bc_upsert(m: Seq<(Seq<char>, Seq<char>)>, k: Seq<char>, v: Seq<char>) -> Seq<
    (Seq<char>, Seq<char>),
>
    decreases m.len(),
{
    if m.len() == 0 {
        seq![(k, v)]
    } else if m.first().0 == k {
        seq![(k, v)] + m.drop_first()
    } else {
        seq![m.first()] + bc_upsert(m.drop_first(), k, v)
    }
}

/// The package rows that do not belong to `branch`.
pub open spec fn rows_without_branch(rows: Seq<RecordV>, branch: Seq<char>) -> Seq<RecordV>
    decreases rows.len(),
{
    if rows.len() == 0 {
        Seq::empty()
    } else {
        let rest = rows_without_branch(rows.drop_first(), branch);
        if rows.first().details.branch == branch {
            rest
        } else {
            seq![rows.first()] + rest
        }
    }
}

proof fn lemma_bc_find_hits(m: Seq<(Seq<char>, Seq<char>)>, k: Seq<char>, i: int)
    requires
        0 <= i < m.len(),
        m[i].0 == k,
        forall|j: int| 0 <= j < i ==> (#[trigger] m[j]).0 != k,
    ensures
        bc_find(m, k) == Some(m[i].1),
    decreases i,
{
    if i > 0 {
        lemma_bc_find_hits(m.drop_first(), k, i - 1);
    }
}

proof fn lemma_bc_find_misses(m: Seq<(Seq<char>, Seq<char>)>, k: Seq<char>)
    requires
        forall|j: int| 0 <= j < m.len() ==> (#[trigger] m[j]).0 != k,
    ensures
        bc_find(m, k) is None,
    decreases m.len(),
{
    if m.len() > 0 {
        lemma_bc_find_misses(m.drop_first(), k);
    }
}

proof fn lemma_bc_upsert_hits(m: Seq<(Seq<char>, Seq<char>)>, k: Seq<char>, v: Seq<char>, i: int)
    requires
        0 <= i < m.len(),
        m[i].0 == k,
        forall|j: int| 0 <= j < i ==> (#[trigger] m[j]).0 != k,
    ensures
        bc_upsert(m, k, v) == m.update(i, (k, v)),
    decreases i,
{
    if i == 0 {
        assert(seq![(k, v)] + m.drop_first() =~= m.update(0, (k, v)));
    } else {
        lemma_bc_upsert_hits(m.drop_first(), k, v, i - 1);
        assert(seq![m.first()] + m.drop_first().update(i - 1, (k, v)) =~= m.update(i, (k, v)));
    }
}

proof fn lemma_bc_upsert_appends(m: Seq<(Seq<char>, Seq<char>)>, k: Seq<char>, v: Seq<char>)
    requires
        forall|j: int| 0 <= j < m.len() ==> (#[trigger] m[j]).0 != k,
    ensures
        bc_upsert(m, k, v) == m.push((k, v)),
    decreases m.len(),
{
    if m.len() == 0 {
        assert(bc_upsert(m, k, v) =~= m.push((k, v)));
    } else {
        lemma_bc_upsert_appends(m.drop_first(), k, v);
        assert(seq![m.first()] + m.drop_first().push((k, v)) =~= m.push((k, v)));
    }
}

/// Dropping a branch's rows keeps the remaining keys unique.
proof fn lemma_rows_without_branch_wf(rows: Seq<RecordV>, branch: Seq<char>)
    requires
        rows_wf(rows),
    ensures
        rows_wf(rows_without_branch(rows, branch)),
        forall|i: int|
            0 <= i < rows_without_branch(rows, branch).len() ==> rows.contains(
                #[trigger] rows_without_branch(rows, branch)[i],
            ) && rows_without_branch(rows, branch)[i].details.branch != branch,
    decreases rows.len(),
{
    if rows.len() > 0 {
        lemma_rows_without_branch_wf(rows.drop_first(), branch);
        let rest = rows_without_branch(rows.drop_first(), branch);
        assert(forall|i: int|
            0 <= i < rest.len() ==> rows.contains(#[trigger] rest[i])) by {
            assert(forall|i: int|
                0 <= i < rest.len() ==> rows.drop_first().contains(#[trigger] rest[i]));
            assert(forall|v: RecordV| rows.drop_first().contains(v) ==> rows.contains(v)) by {
                assert(forall|j: int|
                    0 <= j < rows.drop_first().len() ==> rows.drop_first()[j] == rows[j + 1]);
            }
        }
        if rows.first().details.branch != branch {
            let whole = seq![rows.first()] + rest;
            assert forall|i: int, j: int|
                0 <= i < j < whole.len() implies !((#[trigger] whole[i]).details.branch
                == (#[trigger] whole[j]).details.branch && whole[i].details.pkg_name
                == whole[j].details.pkg_name) by {
                if i == 0 {
                    let idx = choose|idx: int|
                        0 <= idx < rows.drop_first().len() && rows.drop_first()[idx] == whole[j];
                    assert(rows[idx + 1] == whole[j]);
                }
            }
        }
    }
}

/// String against stored string, by characters.
fn str_eq_string(a: &str, b: &String) -> (r: bool)
    ensures
        r == (a@ == b@),
{
    let r = crate::text::eq_bytes(a.as_bytes(), b.as_str().as_bytes());
    proof {
        if vstd::utf8::encode_utf8(a@) == vstd::utf8::encode_utf8(b@) {
            crate::types::lemma_encode_utf8_injective(a@, b@);
        }
    }
    r
}

/// A copy of a string list, value for value.
fn clone_string_list(v: &Vec<String>) -> (r: Vec<String>)
    ensures
        r@ == v@,
{
    let mut out: Vec<String> = Vec::new();
    let mut i: usize = 0;
    while i < v.len()
        invariant
            i <= v@.len(),
            out@.len() == i,
            forall|j: int| 0 <= j < i ==> #[trigger] out@[j] == v@[j],
        decreases v@.len() - i,
    {
        out.push(v[i].clone());
        i = i + 1;
    }
    assert(out@ =~= v@);
    out
}

/// A copy of an optional string.
fn clone_opt_string(o: &Option<String>) -> (r: Option<String>)
    ensures
        r == *o,
{
    match o {
        Some(s) => Some(s.clone()),
        None => None,
    }
}

/// A copy of a package row, value for value.
pub fn clone_details(d: &DatabasePackageDetails) -> (r: DatabasePackageDetails)
    ensures
        r@ == d@,
{
    DatabasePackageDetails {
        branch: d.branch.clone(),
        commit_id: d.commit_id.clone(),
        committed_at: d.committed_at,
        pkg_name: d.pkg_name.clone(),
        pkg_desc: clone_opt_string(&d.pkg_desc),
        version: d.version.clone(),
        url: clone_opt_string(&d.url),
        depends: clone_string_list(&d.depends),
        make_depends: clone_string_list(&d.make_depends),
        opt_depends: clone_string_list(&d.opt_depends),
        check_depends: clone_string_list(&d.check_depends),
        provides: clone_string_list(&d.provides),
        conflicts: clone_string_list(&d.conflicts),
        replaces: clone_string_list(&d.replaces),
        groups: clone_string_list(&d.groups),
    }
}

/// A copy of a stored record.
fn clone_record(rec: &PkgRecord) -> (r: PkgRecord)
    ensures
        r@ == rec@,
{
    PkgRecord { details: clone_details(&rec.details), is_listed: rec.is_listed }
}

/// A copy of a supplement row.
pub fn clone_supplement(s: &DatabaseSupplementData) -> (r: DatabaseSupplementData)
    ensures
        r@ == s@,
{
    DatabaseSupplementData {
        pkgname: s.pkgname.clone(),
        version: s.version.clone(),
        popularity: s.popularity,
        num_votes: s.num_votes,
        out_of_date: s.out_of_date,
        maintainer: clone_opt_string(&s.maintainer),
        submitter: clone_opt_string(&s.submitter),
        co_maintainers: clone_string_list(&s.co_maintainers),
        keywords: clone_string_list(&s.keywords),
        first_submitted: s.first_submitted,
        last_modified: s.last_modified,
    }
}

/// A copy of all tables, value for value.
fn clone_tables(t: &StoreTables) -> (r: StoreTables)
    ensures
        r@ == t@,
{
    let mut bc: Vec<(String, String)> = Vec::new();
    let mut i: usize = 0;
    while i < t.branch_commits.len()
        invariant
            i <= t.branch_commits@.len(),
            bc@.len() == i,
            forall|j: int| 0 <= j < i ==> #[trigger] bc@[j] == t.branch_commits@[j],
        decreases t.branch_commits@.len() - i,
    {
        let p = &t.branch_commits[i];
        bc.push((p.0.clone(), p.1.clone()));
        i = i + 1;
    }
    let mut rows: Vec<PkgRecord> = Vec::new();
    let mut i: usize = 0;
    while i < t.pkg_info.len()
        invariant
            i <= t.pkg_info@.len(),
            rows@.len() == i,
            forall|j: int| 0 <= j < i ==> (#[trigger] rows@[j])@ == t.pkg_info@[j]@,
        decreases t.pkg_info@.len() - i,
    {
        rows.push(clone_record(&t.pkg_info[i]));
        i = i + 1;
    }
    let mut supp: Vec<DatabaseSupplementData> = Vec::new();
    let mut i: usize = 0;
    while i < t.pkg_supplement.len()
        invariant
            i <= t.pkg_supplement@.len(),
            supp@.len() == i,
            forall|j: int| 0 <= j < i ==> (#[trigger] supp@[j])@ == t.pkg_supplement@[j]@,
        decreases t.pkg_supplement@.len() - i,
    {
        supp.push(clone_supplement(&t.pkg_supplement[i]));
        i = i + 1;
    }
    let r = StoreTables { branch_commits: bc, pkg_info: rows, pkg_supplement: supp };
    proof {
        assert(r@.branch_commits =~= t@.branch_commits);
        assert(r@.pkg_info =~= t@.pkg_info);
        assert(r@.pkg_supplement =~= t@.pkg_supplement);
    }
    r
}


/// A string list with later duplicates removed, as the keyed relation
/// tables store it: `acc` holds the values already seen, in order.
pub open spec fn dedup_acc(s: Seq<Seq<char>>, acc: Seq<Seq<char>>) -> Seq<Seq<char>>
    decreases s.len(),
{
    if s.len() == 0 {
        acc
    } else if acc.contains(s.first()) {
        dedup_acc(s.drop_first(), acc)
    } else {
        dedup_acc(s.drop_first(), acc.push(s.first()))
    }
}

/// A string list with later duplicates removed.
pub open spec fn dedup(s: Seq<Seq<char>>) -> Seq<Seq<char>> {
    dedup_acc(s, Seq::empty())
}

/// The record a package upsert writes: the relation lists deduplicated by
/// their table keys, and the listing flag at its default.
pub open spec fn record_of(d: DetailsV) -> RecordV {
    RecordV {
        details: DetailsV {
            branch: d.branch,
            commit_id: d.commit_id,
            committed_at: d.committed_at,
            pkg_name: d.pkg_name,
            pkg_desc: d.pkg_desc,
            version: d.version,
            url: d.url,
            depends: dedup(d.depends),
            make_depends: dedup(d.make_depends),
            opt_depends: dedup(d.opt_depends),
            check_depends: dedup(d.check_depends),
            provides: dedup(d.provides),
            conflicts: dedup(d.conflicts),
            replaces: dedup(d.replaces),
            groups: dedup(d.groups),
        },
        is_listed: true,
    }
}

/// The package rows with `rec` written over the row of the same branch
/// and name, or appended.
pub open spec fn rows_upsert(rows: Seq<RecordV>, rec: RecordV) -> Seq<RecordV>
    decreases rows.len(),
{
    if rows.len() == 0 {
        seq![rec]
    } else if rows.first().details.branch == rec.details.branch && rows.first().details.pkg_name
        == rec.details.pkg_name {
        seq![rec] + rows.drop_first()
    } else {
        seq![rows.first()] + rows_upsert(rows.drop_first(), rec)
    }
}

/// A batch of package rows written in order.
pub open spec fn apply_updates(rows: Seq<RecordV>, pkgs: Seq<DetailsV>) -> Seq<RecordV>
    decreases pkgs.len(),
{
    if pkgs.len() == 0 {
        rows
    } else {
        apply_updates(rows_upsert(rows, record_of(pkgs.first())), pkgs.drop_first())
    }
}

/// The supplement row stored under a package name.
pub open spec fn find_supp(supp: Seq<SupplementV>, name: Seq<char>) -> Option<SupplementV>
    decreases supp.len(),
{
    if supp.len() == 0 {
        None
    } else if supp.first().pkgname == name {
        Some(supp.first())
    } else {
        find_supp(supp.drop_first(), name)
    }
}

/// The supplement table with one row replaced or appended.
pub open spec fn supp_upsert(tbl: Seq<SupplementV>, s: SupplementV) -> Seq<SupplementV>
    decreases tbl.len(),
{
    if tbl.len() == 0 {
        seq![s]
    } else if tbl.first().pkgname == s.pkgname {
        seq![s] + tbl.drop_first()
    } else {
        seq![tbl.first()] + supp_upsert(tbl.drop_first(), s)
    }
}

/// The supplement table a snapshot ingestion leaves behind: the previous
/// rows cleared, the snapshot's rows written in order, a repeated name
/// keeping its last row.
pub open spec fn supp_table_of(input: Seq<SupplementV>) -> Seq<SupplementV>
    decreases input.len(),
{
    if input.len() == 0 {
        Seq::empty()
    } else {
        supp_upsert(supp_table_of(input.drop_last()), input.last())
    }
}

/// The largest `last_modified` among the supplement rows.
pub open spec fn max_last_modified(supp: Seq<SupplementV>) -> int
    decreases supp.len(),
{
    if supp.len() == 0 {
        -0x8000000000000000
    } else if supp.first().last_modified as int >= max_last_modified(supp.drop_first()) {
        supp.first().last_modified as int
    } else {
        max_last_modified(supp.drop_first())
    }
}

/// Whether the snapshot names a package.
pub open spec fn supp_has(supp: Seq<SupplementV>, name: Seq<char>) -> bool {
    find_supp(supp, name) is Some
}

/// The package rows after listing maintenance: a package is listed when
/// the snapshot names it or when it was committed after the threshold.
pub open spec fn listed_rows(rows: Seq<RecordV>, supp: Seq<SupplementV>, threshold: int) -> Seq<
    RecordV,
> {
    rows.map_values(
        |r: RecordV|
            RecordV {
                details: r.details,
                is_listed: supp_has(supp, r.details.pkg_name) || r.details.committed_at as int
                    >= threshold,
            },
    )
}

/// Whether a row matches one search mode: the name modes are
/// case-insensitive substring patterns, the relation modes exact values.
pub open spec fn match_kw(r: RecordV, ty: crate::types::SearchType, kw: Seq<char>) -> bool {
    match ty {
        crate::types::SearchType::Name => crate::text::contains_ci(
            vstd::utf8::encode_utf8(r.details.pkg_name),
            vstd::utf8::encode_utf8(kw),
        ),
        crate::types::SearchType::NameDesc => crate::text::contains_ci(
            vstd::utf8::encode_utf8(r.details.pkg_name),
            vstd::utf8::encode_utf8(kw),
        ) || (match r.details.pkg_desc {
            Some(d) => crate::text::contains_ci(
                vstd::utf8::encode_utf8(d),
                vstd::utf8::encode_utf8(kw),
            ),
            None => false,
        }),
        crate::types::SearchType::Depends => r.details.depends.contains(kw),
        crate::types::SearchType::MakeDepends => r.details.make_depends.contains(kw),
        crate::types::SearchType::OptDepends => r.details.opt_depends.contains(kw),
        crate::types::SearchType::CheckDepends => r.details.check_depends.contains(kw),
    }
}

/// A row joined with its supplement.  The version-independent fields are
/// surfaced whenever a supplement row exists; `out_of_date` and
/// `last_modified` are time-sensitive and surface only when the
/// supplement's version equals the package's.
pub open spec fn info_of(r: RecordV, s: Option<SupplementV>) -> crate::types::InfoV {
    crate::types::InfoV {
        branch: r.details.branch,
        commit_id: r.details.commit_id,
        committed_at: r.details.committed_at,
        pkg_name: r.details.pkg_name,
        pkg_desc: r.details.pkg_desc,
        version: r.details.version,
        url: r.details.url,
        popularity: match s {
            Some(x) => Some(x.popularity),
            None => None,
        },
        num_votes: match s {
            Some(x) => Some(x.num_votes as i64),
            None => None,
        },
        out_of_date: match s {
            Some(x) => if x.version == r.details.version {
                x.out_of_date
            } else {
                None
            },
            None => None,
        },
        maintainer: match s {
            Some(x) => x.maintainer,
            None => None,
        },
        submitter: match s {
            Some(x) => x.submitter,
            None => None,
        },
        first_submitted: match s {
            Some(x) => Some(x.first_submitted),
            None => None,
        },
        last_modified: match s {
            Some(x) => if x.version == r.details.version {
                Some(x.last_modified)
            } else {
                None
            },
            None => None,
        },
    }
}

/// The search results: every listed row matching the mode and keyword, in
/// stored order, each joined with its supplement.
pub open spec fn spec_search(
    rows: Seq<RecordV>,
    supp: Seq<SupplementV>,
    ty: crate::types::SearchType,
    kw: Seq<char>,
) -> Seq<crate::types::InfoV>
    decreases rows.len(),
{
    if rows.len() == 0 {
        Seq::empty()
    } else {
        let rest = spec_search(rows.drop_first(), supp, ty, kw);
        let r = rows.first();
        if r.is_listed && match_kw(r, ty, kw) {
            seq![info_of(r, find_supp(supp, r.details.pkg_name))] + rest
        } else {
            rest
        }
    }
}

/// The detail results for a set of names: every listed row whose name is
/// among them, joined with its supplement, its relation lists and the
/// supplement's keyword and co-maintainer lists attached.
pub open spec fn spec_details(
    rows: Seq<RecordV>,
    supp: Seq<SupplementV>,
    names: Seq<Seq<char>>,
) -> Seq<crate::types::DetailsWithSupplementV>
    decreases rows.len(),
{
    if rows.len() == 0 {
        Seq::empty()
    } else {
        let rest = spec_details(rows.drop_first(), supp, names);
        let r = rows.first();
        if r.is_listed && names.contains(r.details.pkg_name) {
            let s = find_supp(supp, r.details.pkg_name);
            seq![
                crate::types::DetailsWithSupplementV {
                    info: info_of(r, s),
                    depends: r.details.depends,
                    make_depends: r.details.make_depends,
                    opt_depends: r.details.opt_depends,
                    check_depends: r.details.check_depends,
                    provides: r.details.provides,
                    conflicts: r.details.conflicts,
                    replaces: r.details.replaces,
                    groups: r.details.groups,
                    keywords: match s {
                        Some(x) => x.keywords,
                        None => Seq::empty(),
                    },
                    co_maintainers: match s {
                        Some(x) => x.co_maintainers,
                        None => Seq::empty(),
                    },
                },
            ] + rest
        } else {
            rest
        }
    }
}

/// The supplement's version gate, stated on its own: when a supplement
/// row exists under a package's name and its version equals the
/// package's, the join surfaces `out_of_date` and `last_modified`
/// verbatim; when the versions differ those two fields are absent; the
/// version-independent fields are surfaced either way.
pub proof fn lemma_version_gate(r: RecordV, x: SupplementV)
    ensures
        x.version == r.details.version ==> info_of(r, Some(x)).out_of_date == x.out_of_date
            && info_of(r, Some(x)).last_modified == Some(x.last_modified),
        x.version != r.details.version ==> info_of(r, Some(x)).out_of_date is None && info_of(
            r,
            Some(x),
        ).last_modified is None,
        info_of(r, Some(x)).popularity == Some(x.popularity),
        info_of(r, Some(x)).num_votes == Some(x.num_votes as i64),
        info_of(r, Some(x)).maintainer == x.maintainer,
        info_of(r, Some(x)).submitter == x.submitter,
        info_of(r, Some(x)).first_submitted == Some(x.first_submitted),
{
}

/// Listing maintenance, stated on its own: after ingesting a snapshot
/// whose largest `last_modified` is `t`, a package row is unlisted
/// exactly when the snapshot does not name it and its commit is older
/// than the day-long grace period before `t`; every other row is listed.
pub proof fn lemma_listed_after_ingestion(
    rows: Seq<RecordV>,
    supp: Seq<SupplementV>,
    t: int,
    i: int,
)
    requires
        0 <= i < rows.len(),
    ensures
        listed_rows(rows, supp, t - LISTED_GRACE_SECONDS as int)[i].is_listed == !(!supp_has(
            supp,
            rows[i].details.pkg_name,
        ) && rows[i].details.committed_at < t - LISTED_GRACE_SECONDS as int),
        listed_rows(rows, supp, t - LISTED_GRACE_SECONDS as int)[i].details == rows[i].details,
{
}



/// When a snapshot carries each package name once — the shape the
/// upstream emits — the stored supplement table is the snapshot itself,
/// so the listing threshold in `store_supplement_data`\'s contract is the
/// largest `last_modified` of the input.  A repeated name keeps its last
/// row instead, as a keyed replace does.
pub proof fn lemma_snapshot_with_distinct_names(input: Seq<SupplementV>)
    requires
        forall|i: int, j: int|
            0 <= i < j < input.len() ==> (#[trigger] input[i]).pkgname != (
            #[trigger] input[j]).pkgname,
    ensures
        supp_table_of(input) == input,
    decreases input.len(),
{
    if input.len() > 0 {
        lemma_snapshot_with_distinct_names(input.drop_last());
        assert(forall|j: int|
            0 <= j < input.drop_last().len() ==> (#[trigger] input.drop_last()[j]).pkgname
                != input.last().pkgname);
        lemma_supp_upsert_appends(input.drop_last(), input.last());
        assert(input.drop_last().push(input.last()) =~= input);
    }
}

/// Removes duplicates from a string list.  Mirrors `dedup`.
fn dedup_exec(v: &Vec<String>) -> (r: Vec<String>)
    ensures
        str_list_view(r@) == dedup(str_list_view(v@)),
{
    let ghost sv = str_list_view(v@);
    let mut out: Vec<String> = Vec::new();
    let mut i: usize = 0;
    proof {
        assert(sv.skip(0) =~= sv);
        assert(str_list_view(out@) =~= Seq::<Seq<char>>::empty());
    }
    while i < v.len()
        invariant
            i <= v@.len(),
            sv == str_list_view(v@),
            dedup(sv) == dedup_acc(sv.skip(i as int), str_list_view(out@)),
        decreases v@.len() - i,
    {
        let ghost old_out = str_list_view(out@);
        proof {
            assert(sv.skip(i as int).first() == sv[i as int]);
            assert(sv.skip(i as int).drop_first() =~= sv.skip(i + 1));
        }
        let mut seen = false;
        let mut j: usize = 0;
        while j < out.len()
            invariant
                j <= out@.len(),
                i < v@.len(),
                old_out == str_list_view(out@),
                seen ==> old_out.contains(v@[i as int]@),
                !seen ==> forall|k: int| 0 <= k < j ==> old_out[k] != v@[i as int]@,
            decreases out@.len() - j,
        {
            if str_eq_string(out[j].as_str(), &v[i]) {
                assert(old_out[j as int] == v@[i as int]@);
                seen = true;
                j = out.len();
            } else {
                assert(old_out[j as int] != v@[i as int]@);
                j = j + 1;
            }
        }
        if !seen {
            assert(!old_out.contains(sv[i as int]));
            out.push(v[i].clone());
            assert(str_list_view(out@) =~= old_out.push(sv[i as int]));
        } else {
            assert(old_out.contains(sv[i as int]));
        }
        i = i + 1;
    }
    proof {
        assert(sv.skip(v@.len() as int) =~= Seq::<Seq<char>>::empty());
    }
    out
}

/// The record a package upsert writes.  Mirrors `record_of`.
fn record_of_exec(d: &DatabasePackageDetails) -> (r: PkgRecord)
    ensures
        r@ == record_of(d@),
{
    PkgRecord {
        details: DatabasePackageDetails {
            branch: d.branch.clone(),
            commit_id: d.commit_id.clone(),
            committed_at: d.committed_at,
            pkg_name: d.pkg_name.clone(),
            pkg_desc: clone_opt_string(&d.pkg_desc),
            version: d.version.clone(),
            url: clone_opt_string(&d.url),
            depends: dedup_exec(&d.depends),
            make_depends: dedup_exec(&d.make_depends),
            opt_depends: dedup_exec(&d.opt_depends),
            check_depends: dedup_exec(&d.check_depends),
            provides: dedup_exec(&d.provides),
            conflicts: dedup_exec(&d.conflicts),
            replaces: dedup_exec(&d.replaces),
            groups: dedup_exec(&d.groups),
        },
        is_listed: true,
    }
}

/// Writes one record over the row of the same key, or appends it.
/// Mirrors `rows_upsert` and keeps the keys unique.
fn rows_upsert_exec(rows: &mut Vec<PkgRecord>, rec: PkgRecord)
    requires
        rows_wf(old(rows)@.map_values(|r: PkgRecord| r@)),
    ensures
        final(rows)@.map_values(|r: PkgRecord| r@) == rows_upsert(
            old(rows)@.map_values(|r: PkgRecord| r@),
            rec@,
        ),
        rows_wf(final(rows)@.map_values(|r: PkgRecord| r@)),
{
    let ghost m = rows@.map_values(|r: PkgRecord| r@);
    let ghost rv = rec@;
    let mut i: usize = 0;
    while i < rows.len()
        invariant
            i <= rows@.len(),
            m == rows@.map_values(|r: PkgRecord| r@),
            rows == old(rows),
            rows_wf(m),
            rv == rec@,
            forall|j: int|
                0 <= j < i ==> !((#[trigger] m[j]).details.branch == rv.details.branch
                    && m[j].details.pkg_name == rv.details.pkg_name),
        decreases rows@.len() - i,
    {
        let hit = str_eq_string(rows[i].details.branch.as_str(), &rec.details.branch)
            && str_eq_string(rows[i].details.pkg_name.as_str(), &rec.details.pkg_name);
        if hit {
            assert(m[i as int].details.branch == rv.details.branch && m[i as int].details.pkg_name
                == rv.details.pkg_name);
            rows.set(i, rec);
            proof {
                lemma_rows_upsert_hits(m, rv, i as int);
                let mu = m.update(i as int, rv);
                assert(final(rows)@.map_values(|r: PkgRecord| r@) =~= mu);
                assert forall|x: int, y: int| 0 <= x < y < mu.len() implies !((
                #[trigger] mu[x]).details.branch == (#[trigger] mu[y]).details.branch
                    && mu[x].details.pkg_name == mu[y].details.pkg_name) by {
                    assert(mu[x].details.branch == m[x].details.branch && mu[x].details.pkg_name
                        == m[x].details.pkg_name);
                    assert(mu[y].details.branch == m[y].details.branch && mu[y].details.pkg_name
                        == m[y].details.pkg_name);
                }
            }
            return ;
        }
        assert(!(m[i as int].details.branch == rv.details.branch && m[i as int].details.pkg_name
            == rv.details.pkg_name));
        i = i + 1;
    }
    rows.push(rec);
    proof {
        lemma_rows_upsert_appends(m, rv);
        assert(final(rows)@.map_values(|r: PkgRecord| r@) =~= m.push(rv));
    }
}

proof fn lemma_rows_upsert_hits(m: Seq<RecordV>, rec: RecordV, i: int)
    requires
        0 <= i < m.len(),
        m[i].details.branch == rec.details.branch && m[i].details.pkg_name
            == rec.details.pkg_name,
        forall|j: int|
            0 <= j < i ==> !((#[trigger] m[j]).details.branch == rec.details.branch
                && m[j].details.pkg_name == rec.details.pkg_name),
    ensures
        rows_upsert(m, rec) == m.update(i, rec),
    decreases i,
{
    if i == 0 {
        assert(seq![rec] + m.drop_first() =~= m.update(0, rec));
    } else {
        lemma_rows_upsert_hits(m.drop_first(), rec, i - 1);
        assert(seq![m.first()] + m.drop_first().update(i - 1, rec) =~= m.update(i, rec));
    }
}

proof fn lemma_rows_upsert_appends(m: Seq<RecordV>, rec: RecordV)
    requires
        forall|j: int|
            0 <= j < m.len() ==> !((#[trigger] m[j]).details.branch == rec.details.branch
                && m[j].details.pkg_name == rec.details.pkg_name),
    ensures
        rows_upsert(m, rec) == m.push(rec),
        rows_wf(m) ==> rows_wf(m.push(rec)),
    decreases m.len(),
{
    if m.len() == 0 {
        assert(rows_upsert(m, rec) =~= m.push(rec));
    } else {
        lemma_rows_upsert_appends(m.drop_first(), rec);
        assert(seq![m.first()] + m.drop_first().push(rec) =~= m.push(rec));
    }
    if rows_wf(m) {
        let mp = m.push(rec);
        assert forall|x: int, y: int| 0 <= x < y < mp.len() implies !((
        #[trigger] mp[x]).details.branch == (#[trigger] mp[y]).details.branch
            && mp[x].details.pkg_name == mp[y].details.pkg_name) by {
            if y < m.len() {
                assert(mp[x] == m[x] && mp[y] == m[y]);
            } else {
                assert(mp[x] == m[x] && mp[y] == rec);
            }
        }
    }
}

impl DatabaseOps {
    /// Writes a batch of package rows inside a transaction: each package
    /// replaces the row of its branch and name or adds one, its relation
    /// lists deduplicated, its listing flag back at the default.
    pub fn update_index_with_tx(&self, tx: &mut Transaction, packages: &[DatabasePackageDetails])
        requires
            tables_wf(old(tx).tables@),
        ensures
            tables_wf(final(tx).tables@),
            final(tx).tables@.pkg_info == apply_updates(
                old(tx).tables@.pkg_info,
                packages@.map_values(|d: DatabasePackageDetails| d@),
            ),
            final(tx).tables@.branch_commits == old(tx).tables@.branch_commits,
            final(tx).tables@.pkg_supplement == old(tx).tables@.pkg_supplement,
    {
        let ghost rows0 = tx.tables@.pkg_info;
        let ghost pv = packages@.map_values(|d: DatabasePackageDetails| d@);
        let mut i: usize = 0;
        proof {
            assert(pv.skip(0) =~= pv);
        }
        while i < packages.len()
            invariant
                i <= packages@.len(),
                pv == packages@.map_values(|d: DatabasePackageDetails| d@),
                tables_wf(tx.tables@),
                tx.tables@.branch_commits == old(tx).tables@.branch_commits,
                tx.tables@.pkg_supplement == old(tx).tables@.pkg_supplement,
                apply_updates(old(tx).tables@.pkg_info, pv) == apply_updates(
                    tx.tables@.pkg_info,
                    pv.skip(i as int),
                ),
            decreases packages@.len() - i,
        {
            let ghost cur = tx.tables@.pkg_info;
            proof {
                assert(pv.skip(i as int).first() == pv[i as int]);
                assert(pv.skip(i as int).drop_first() =~= pv.skip(i + 1));
            }
            let rec = record_of_exec(&packages[i]);
            rows_upsert_exec(&mut tx.tables.pkg_info, rec);
            i = i + 1;
        }
        proof {
            assert(pv.skip(packages@.len() as int) =~= Seq::<DetailsV>::empty());
        }
    }
}


/// Whether a string list holds `kw` exactly.
fn list_contains_exec(v: &Vec<String>, kw: &str) -> (r: bool)
    ensures
        r == str_list_view(v@).contains(kw@),
{
    let ghost sv = str_list_view(v@);
    let mut j: usize = 0;
    while j < v.len()
        invariant
            j <= v@.len(),
            sv == str_list_view(v@),
            forall|k: int| 0 <= k < j ==> sv[k] != kw@,
        decreases v@.len() - j,
    {
        if str_eq_string(kw, &v[j]) {
            assert(sv[j as int] == kw@);
            return true;
        }
        assert(sv[j as int] != kw@);
        j = j + 1;
    }
    assert(!sv.contains(kw@));
    false
}

/// Whether a row matches the mode and keyword.  Mirrors `match_kw`.
fn match_kw_exec(rec: &PkgRecord, ty: crate::types::SearchType, kw: &str) -> (r: bool)
    ensures
        r == match_kw(rec@, ty, kw@),
{
    match ty {
        crate::types::SearchType::Name => crate::text::contains_ci_exec(
            rec.details.pkg_name.as_str().as_bytes(),
            kw.as_bytes(),
        ),
        crate::types::SearchType::NameDesc => {
            if crate::text::contains_ci_exec(rec.details.pkg_name.as_str().as_bytes(), kw.as_bytes()) {
                true
            } else {
                match &rec.details.pkg_desc {
                    Some(d) => crate::text::contains_ci_exec(d.as_str().as_bytes(), kw.as_bytes()),
                    None => false,
                }
            }
        },
        crate::types::SearchType::Depends => list_contains_exec(&rec.details.depends, kw),
        crate::types::SearchType::MakeDepends => list_contains_exec(&rec.details.make_depends, kw),
        crate::types::SearchType::OptDepends => list_contains_exec(&rec.details.opt_depends, kw),
        crate::types::SearchType::CheckDepends => list_contains_exec(
            &rec.details.check_depends,
            kw,
        ),
    }
}

/// Looks the supplement row up under a package name.  Mirrors
/// `find_supp`.
fn find_supp_exec<'a>(supp: &'a Vec<DatabaseSupplementData>, name: &String) -> (r: Option<
    &'a DatabaseSupplementData,
>)
    ensures
        match r {
            Some(x) => find_supp(
                supp@.map_values(|s: DatabaseSupplementData| s@),
                name@,
            ) == Some(x@),
            None => find_supp(supp@.map_values(|s: DatabaseSupplementData| s@), name@) is None,
        },
{
    let ghost sv = supp@.map_values(|s: DatabaseSupplementData| s@);
    let mut i: usize = 0;
    while i < supp.len()
        invariant
            i <= supp@.len(),
            sv == supp@.map_values(|s: DatabaseSupplementData| s@),
            forall|j: int| 0 <= j < i ==> (#[trigger] sv[j]).pkgname != name@,
        decreases supp@.len() - i,
    {
        if str_eq_string(supp[i].pkgname.as_str(), name) {
            assert(sv[i as int].pkgname == name@);
            proof {
                lemma_find_supp_hits(sv, name@, i as int);
            }
            return Some(&supp[i]);
        }
        assert(sv[i as int].pkgname != name@);
        i = i + 1;
    }
    proof {
        lemma_find_supp_misses(sv, name@);
    }
    None
}

proof fn lemma_find_supp_hits(m: Seq<SupplementV>, k: Seq<char>, i: int)
    requires
        0 <= i < m.len(),
        m[i].pkgname == k,
        forall|j: int| 0 <= j < i ==> (#[trigger] m[j]).pkgname != k,
    ensures
        find_supp(m, k) == Some(m[i]),
    decreases i,
{
    if i > 0 {
        lemma_find_supp_hits(m.drop_first(), k, i - 1);
    }
}

proof fn lemma_find_supp_misses(m: Seq<SupplementV>, k: Seq<char>)
    requires
        forall|j: int| 0 <= j < m.len() ==> (#[trigger] m[j]).pkgname != k,
    ensures
        find_supp(m, k) is None,
    decreases m.len(),
{
    if m.len() > 0 {
        lemma_find_supp_misses(m.drop_first(), k);
    }
}

/// Joins one row with its supplement.  Mirrors `info_of`.
fn info_of_exec(rec: &PkgRecord, s: Option<&DatabaseSupplementData>) -> (r:
    crate::types::DatabasePackageInfoWithSupplement)
    ensures
        r@ == info_of(
            rec@,
            match s {
                Some(x) => Some(x@),
                None => None,
            },
        ),
{
    let version_matches = match s {
        Some(x) => str_eq_string(x.version.as_str(), &rec.details.version),
        None => false,
    };
    crate::types::DatabasePackageInfoWithSupplement {
        branch: rec.details.branch.clone(),
        commit_id: rec.details.commit_id.clone(),
        committed_at: rec.details.committed_at,
        pkg_name: rec.details.pkg_name.clone(),
        pkg_desc: clone_opt_string(&rec.details.pkg_desc),
        version: rec.details.version.clone(),
        url: clone_opt_string(&rec.details.url),
        popularity: match s {
            Some(x) => Some(x.popularity),
            None => None,
        },
        num_votes: match s {
            Some(x) => Some(x.num_votes as i64),
            None => None,
        },
        out_of_date: match s {
            Some(x) => if version_matches {
                x.out_of_date
            } else {
                None
            },
            None => None,
        },
        maintainer: match s {
            Some(x) => clone_opt_string(&x.maintainer),
            None => None,
        },
        submitter: match s {
            Some(x) => clone_opt_string(&x.submitter),
            None => None,
        },
        first_submitted: match s {
            Some(x) => Some(x.first_submitted),
            None => None,
        },
        last_modified: match s {
            Some(x) => if version_matches {
                Some(x.last_modified)
            } else {
                None
            },
            None => None,
        },
    }
}

impl DatabaseOps {
    /// Searches the listed packages: the name modes match the keyword as
    /// a case-insensitive substring, the relation modes exactly; each hit
    /// is joined with its supplement under the version gate.
    pub fn search_packages(&self, search_type: crate::types::SearchType, keyword: &str) -> (r: Vec<
        crate::types::DatabasePackageInfoWithSupplement,
    >)
        requires
            self.wf(),
        ensures
            r@.map_values(|x: crate::types::DatabasePackageInfoWithSupplement| x@) == spec_search(
                self.tables@.pkg_info,
                self.tables@.pkg_supplement,
                search_type,
                keyword@,
            ),
    {
        let ghost rows = self.tables@.pkg_info;
        let ghost supp = self.tables@.pkg_supplement;
        let mut out: Vec<crate::types::DatabasePackageInfoWithSupplement> = Vec::new();
        let mut i: usize = 0;
        proof {
            assert(rows.skip(0) =~= rows);
            assert(out@.map_values(|x: crate::types::DatabasePackageInfoWithSupplement| x@)
                + spec_search(rows.skip(0), supp, search_type, keyword@) =~= spec_search(
                rows,
                supp,
                search_type,
                keyword@,
            ));
        }
        while i < self.tables.pkg_info.len()
            invariant
                i <= self.tables.pkg_info@.len(),
                rows == self.tables@.pkg_info,
                supp == self.tables@.pkg_supplement,
                spec_search(rows, supp, search_type, keyword@) == out@.map_values(
                    |x: crate::types::DatabasePackageInfoWithSupplement| x@,
                ) + spec_search(rows.skip(i as int), supp, search_type, keyword@),
            decreases self.tables.pkg_info@.len() - i,
        {
            let ghost old_out = out@.map_values(
                |x: crate::types::DatabasePackageInfoWithSupplement| x@,
            );
            proof {
                assert(rows.skip(i as int).first() == rows[i as int]);
                assert(rows.skip(i as int).drop_first() =~= rows.skip(i + 1));
            }
            let rec = &self.tables.pkg_info[i];
            if rec.is_listed && match_kw_exec(rec, search_type, keyword) {
                let s = find_supp_exec(&self.tables.pkg_supplement, &rec.details.pkg_name);
                let info = info_of_exec(rec, s);
                out.push(info);
                proof {
                    assert(out@.map_values(
                        |x: crate::types::DatabasePackageInfoWithSupplement| x@,
                    ) =~= old_out.push(
                        info_of(rows[i as int], find_supp(supp, rows[i as int].details.pkg_name)),
                    ));
                    assert(old_out + (seq![
                        info_of(rows[i as int], find_supp(supp, rows[i as int].details.pkg_name)),
                    ] + spec_search(rows.skip(i + 1), supp, search_type, keyword@)) =~= out@.map_values(
                        |x: crate::types::DatabasePackageInfoWithSupplement| x@,
                    ) + spec_search(rows.skip(i + 1), supp, search_type, keyword@));
                }
            }
            i = i + 1;
        }
        proof {
            assert(rows.skip(self.tables.pkg_info@.len() as int) =~= Seq::<RecordV>::empty());
            assert(out@.map_values(|x: crate::types::DatabasePackageInfoWithSupplement| x@)
                + spec_search(
                rows.skip(self.tables.pkg_info@.len() as int),
                supp,
                search_type,
                keyword@,
            ) =~= out@.map_values(|x: crate::types::DatabasePackageInfoWithSupplement| x@));
        }
        out
    }

    /// Looks the listed packages of the given names up, each joined with
    /// its supplement under the version gate, its relation lists and the
    /// supplement's keyword and co-maintainer lists attached.
    pub fn get_package_details(&self, package_names: &[String]) -> (r: Vec<
        crate::types::DatabasePackageDetailsWithSupplement,
    >)
        requires
            self.wf(),
        ensures
            r@.map_values(|x: crate::types::DatabasePackageDetailsWithSupplement| x@)
                == spec_details(
                self.tables@.pkg_info,
                self.tables@.pkg_supplement,
                package_names@.map_values(|s: String| s@),
            ),
    {
        let ghost rows = self.tables@.pkg_info;
        let ghost supp = self.tables@.pkg_supplement;
        let ghost names = package_names@.map_values(|s: String| s@);
        let mut out: Vec<crate::types::DatabasePackageDetailsWithSupplement> = Vec::new();
        let mut i: usize = 0;
        proof {
            assert(rows.skip(0) =~= rows);
            assert(out@.map_values(|x: crate::types::DatabasePackageDetailsWithSupplement| x@)
                + spec_details(rows.skip(0), supp, names) =~= spec_details(rows, supp, names));
        }
        while i < self.tables.pkg_info.len()
            invariant
                i <= self.tables.pkg_info@.len(),
                rows == self.tables@.pkg_info,
                supp == self.tables@.pkg_supplement,
                names == package_names@.map_values(|s: String| s@),
                spec_details(rows, supp, names) == out@.map_values(
                    |x: crate::types::DatabasePackageDetailsWithSupplement| x@,
                ) + spec_details(rows.skip(i as int), supp, names),
            decreases self.tables.pkg_info@.len() - i,
        {
            let ghost old_out = out@.map_values(
                |x: crate::types::DatabasePackageDetailsWithSupplement| x@,
            );
            proof {
                assert(rows.skip(i as int).first() == rows[i as int]);
                assert(rows.skip(i as int).drop_first() =~= rows.skip(i + 1));
            }
            let rec = &self.tables.pkg_info[i];
            let mut named = false;
            let mut j: usize = 0;
            while j < package_names.len()
                invariant
                    j <= package_names@.len(),
                    i < self.tables.pkg_info@.len(),
                    rows == self.tables@.pkg_info,
                    names == package_names@.map_values(|s: String| s@),
                    rec == self.tables.pkg_info@[i as int],
                    named ==> names.contains(rows[i as int].details.pkg_name),
                    !named ==> forall|k: int|
                        0 <= k < j ==> names[k] != rows[i as int].details.pkg_name,
                decreases package_names@.len() - j,
            {
                if str_eq_string(package_names[j].as_str(), &rec.details.pkg_name) {
                    assert(names[j as int] == rows[i as int].details.pkg_name);
                    named = true;
                    j = package_names.len();
                } else {
                    assert(names[j as int] != rows[i as int].details.pkg_name);
                    j = j + 1;
                }
            }
            if rec.is_listed && named {
                let s = find_supp_exec(&self.tables.pkg_supplement, &rec.details.pkg_name);
                let info = info_of_exec(rec, s);
                let elem = crate::types::DatabasePackageDetailsWithSupplement {
                    info,
                    depends: clone_string_list(&rec.details.depends),
                    make_depends: clone_string_list(&rec.details.make_depends),
                    opt_depends: clone_string_list(&rec.details.opt_depends),
                    check_depends: clone_string_list(&rec.details.check_depends),
                    provides: clone_string_list(&rec.details.provides),
                    conflicts: clone_string_list(&rec.details.conflicts),
                    replaces: clone_string_list(&rec.details.replaces),
                    groups: clone_string_list(&rec.details.groups),
                    keywords: match s {
                        Some(x) => clone_string_list(&x.keywords),
                        None => Vec::new(),
                    },
                    co_maintainers: match s {
                        Some(x) => clone_string_list(&x.co_maintainers),
                        None => Vec::new(),
                    },
                };
                let ghost sv = find_supp(supp, rows[i as int].details.pkg_name);
                let ghost spec_elem = crate::types::DetailsWithSupplementV {
                    info: info_of(rows[i as int], sv),
                    depends: rows[i as int].details.depends,
                    make_depends: rows[i as int].details.make_depends,
                    opt_depends: rows[i as int].details.opt_depends,
                    check_depends: rows[i as int].details.check_depends,
                    provides: rows[i as int].details.provides,
                    conflicts: rows[i as int].details.conflicts,
                    replaces: rows[i as int].details.replaces,
                    groups: rows[i as int].details.groups,
                    keywords: match sv {
                        Some(x) => x.keywords,
                        None => Seq::empty(),
                    },
                    co_maintainers: match sv {
                        Some(x) => x.co_maintainers,
                        None => Seq::empty(),
                    },
                };
                assert(elem@ =~= spec_elem);
                out.push(elem);
                proof {
                    assert(out@.map_values(
                        |x: crate::types::DatabasePackageDetailsWithSupplement| x@,
                    ) =~= old_out.push(spec_elem));
                    assert(old_out + (seq![spec_elem] + spec_details(
                        rows.skip(i + 1),
                        supp,
                        names,
                    )) =~= out@.map_values(
                        |x: crate::types::DatabasePackageDetailsWithSupplement| x@,
                    ) + spec_details(rows.skip(i + 1), supp, names));
                }
            } else {
                proof {
                    if !rec.is_listed {
                    } else {
                        assert(!names.contains(rows[i as int].details.pkg_name));
                    }
                }
            }
            i = i + 1;
        }
        proof {
            assert(rows.skip(self.tables.pkg_info@.len() as int) =~= Seq::<RecordV>::empty());
            assert(out@.map_values(|x: crate::types::DatabasePackageDetailsWithSupplement| x@)
                + spec_details(rows.skip(self.tables.pkg_info@.len() as int), supp, names)
                =~= out@.map_values(
                |x: crate::types::DatabasePackageDetailsWithSupplement| x@,
            ));
        }
        out
    }
}


/// Writes one supplement row over the row of the same name, or appends
/// it.  Mirrors `supp_upsert` and keeps the names unique.
fn supp_upsert_exec(tbl: &mut Vec<DatabaseSupplementData>, s: DatabaseSupplementData)
    requires
        supp_wf(old(tbl)@.map_values(|x: DatabaseSupplementData| x@)),
    ensures
        final(tbl)@.map_values(|x: DatabaseSupplementData| x@) == supp_upsert(
            old(tbl)@.map_values(|x: DatabaseSupplementData| x@),
            s@,
        ),
        supp_wf(final(tbl)@.map_values(|x: DatabaseSupplementData| x@)),
{
    let ghost m = tbl@.map_values(|x: DatabaseSupplementData| x@);
    let ghost sv = s@;
    let mut i: usize = 0;
    while i < tbl.len()
        invariant
            i <= tbl@.len(),
            m == tbl@.map_values(|x: DatabaseSupplementData| x@),
            tbl == old(tbl),
            supp_wf(m),
            sv == s@,
            forall|j: int| 0 <= j < i ==> (#[trigger] m[j]).pkgname != sv.pkgname,
        decreases tbl@.len() - i,
    {
        if str_eq_string(tbl[i].pkgname.as_str(), &s.pkgname) {
            assert(m[i as int].pkgname == sv.pkgname);
            tbl.set(i, s);
            proof {
                lemma_supp_upsert_hits(m, sv, i as int);
                let mu = m.update(i as int, sv);
                assert(final(tbl)@.map_values(|x: DatabaseSupplementData| x@) =~= mu);
                assert forall|x: int, y: int| 0 <= x < y < mu.len() implies (
                #[trigger] mu[x]).pkgname != (#[trigger] mu[y]).pkgname by {
                    assert(mu[x].pkgname == m[x].pkgname);
                    assert(mu[y].pkgname == m[y].pkgname);
                }
            }
            return ;
        }
        assert(m[i as int].pkgname != sv.pkgname);
        i = i + 1;
    }
    tbl.push(s);
    proof {
        lemma_supp_upsert_appends(m, sv);
        assert(final(tbl)@.map_values(|x: DatabaseSupplementData| x@) =~= m.push(sv));
        let mp = m.push(sv);
        assert forall|x: int, y: int| 0 <= x < y < mp.len() implies (#[trigger] mp[x]).pkgname != (
        #[trigger] mp[y]).pkgname by {
            if y < m.len() {
                assert(mp[x] == m[x] && mp[y] == m[y]);
            } else {
                assert(mp[x] == m[x] && mp[y] == sv);
            }
        }
    }
}

proof fn lemma_supp_upsert_hits(m: Seq<SupplementV>, s: SupplementV, i: int)
    requires
        0 <= i < m.len(),
        m[i].pkgname == s.pkgname,
        forall|j: int| 0 <= j < i ==> (#[trigger] m[j]).pkgname != s.pkgname,
    ensures
        supp_upsert(m, s) == m.update(i, s),
    decreases i,
{
    if i == 0 {
        assert(seq![s] + m.drop_first() =~= m.update(0, s));
    } else {
        lemma_supp_upsert_hits(m.drop_first(), s, i - 1);
        assert(seq![m.first()] + m.drop_first().update(i - 1, s) =~= m.update(i, s));
    }
}

proof fn lemma_supp_upsert_appends(m: Seq<SupplementV>, s: SupplementV)
    requires
        forall|j: int| 0 <= j < m.len() ==> (#[trigger] m[j]).pkgname != s.pkgname,
    ensures
        supp_upsert(m, s) == m.push(s),
    decreases m.len(),
{
    if m.len() == 0 {
        assert(supp_upsert(m, s) =~= m.push(s));
    } else {
        lemma_supp_upsert_appends(m.drop_first(), s);
        assert(seq![m.first()] + m.drop_first().push(s) =~= m.push(s));
    }
}

impl DatabaseOps {
    /// Ingests a supplement snapshot: unless the snapshot is empty — in
    /// which case the previous rows are kept — the supplement table is
    /// cleared and refilled from the snapshot, and the listing flags are
    /// recomputed against the snapshot's newest `last_modified`.
    pub fn store_supplement_data(&mut self, supplements: &[DatabaseSupplementData])
        requires
            old(self).wf(),
            old(self).tables_exist,
        ensures
            final(self).wf(),
            final(self).user_version == old(self).user_version,
            final(self).tables_exist,
            supplements@.len() == 0 ==> final(self).tables@ == old(self).tables@,
            supplements@.len() > 0 ==> {
                let table = supp_table_of(
                    supplements@.map_values(|x: DatabaseSupplementData| x@),
                );
                &&& final(self).tables@.pkg_supplement == table
                &&& final(self).tables@.pkg_info == listed_rows(
                    old(self).tables@.pkg_info,
                    table,
                    max_last_modified(table) - LISTED_GRACE_SECONDS as int,
                )
                &&& final(self).tables@.branch_commits == old(self).tables@.branch_commits
            },
    {
        if supplements.len() == 0 {
            return ;
        }
        let ghost iv = supplements@.map_values(|x: DatabaseSupplementData| x@);
        let mut table: Vec<DatabaseSupplementData> = Vec::new();
        let mut i: usize = 0;
        proof {
            assert(iv.take(0) =~= Seq::<SupplementV>::empty());
            assert(table@.map_values(|x: DatabaseSupplementData| x@) =~= supp_table_of(
                iv.take(0),
            ));
        }
        while i < supplements.len()
            invariant
                i <= supplements@.len(),
                iv == supplements@.map_values(|x: DatabaseSupplementData| x@),
                supp_wf(table@.map_values(|x: DatabaseSupplementData| x@)),
                table@.map_values(|x: DatabaseSupplementData| x@) == supp_table_of(
                    iv.take(i as int),
                ),
            decreases supplements@.len() - i,
        {
            proof {
                assert(iv.take(i + 1).drop_last() =~= iv.take(i as int));
                assert(iv.take(i + 1).last() == iv[i as int]);
            }
            supp_upsert_exec(&mut table, clone_supplement(&supplements[i]));
            i = i + 1;
        }
        proof {
            assert(iv.take(supplements@.len() as int) =~= iv);
        }
        self.tables.pkg_supplement = table;
        self.update_is_listed_status();
    }

    /// Recomputes every package's listing flag against the supplement
    /// table: live packages are those the snapshot names, plus those
    /// committed within the grace period before the snapshot's newest
    /// `last_modified`.  An empty supplement table leaves the flags
    /// alone.
    fn update_is_listed_status(&mut self)
        requires
            tables_wf(old(self).tables@),
        ensures
            final(self).user_version == old(self).user_version,
            final(self).tables_exist == old(self).tables_exist,
            final(self).tables@.branch_commits == old(self).tables@.branch_commits,
            final(self).tables@.pkg_supplement == old(self).tables@.pkg_supplement,
            tables_wf(final(self).tables@),
            old(self).tables@.pkg_supplement.len() == 0 ==> final(self).tables@.pkg_info == old(
                self,
            ).tables@.pkg_info,
            old(self).tables@.pkg_supplement.len() > 0 ==> final(self).tables@.pkg_info
                == listed_rows(
                old(self).tables@.pkg_info,
                old(self).tables@.pkg_supplement,
                max_last_modified(old(self).tables@.pkg_supplement) - LISTED_GRACE_SECONDS as int,
            ),
    {
        if self.tables.pkg_supplement.len() == 0 {
            return ;
        }
        let ghost supp = self.tables@.pkg_supplement;
        let mut max_lm: i64 = i64::MIN;
        let mut i: usize = 0;
        proof {
            assert(supp.skip(0) =~= supp);
        }
        while i < self.tables.pkg_supplement.len()
            invariant
                i <= self.tables.pkg_supplement@.len(),
                supp == self.tables@.pkg_supplement,
                max_last_modified(supp) == if max_lm as int >= max_last_modified(
                    supp.skip(i as int),
                ) {
                    max_lm as int
                } else {
                    max_last_modified(supp.skip(i as int))
                },
            decreases self.tables.pkg_supplement@.len() - i,
        {
            proof {
                assert(supp.skip(i as int).first() == supp[i as int]);
                assert(supp.skip(i as int).drop_first() =~= supp.skip(i + 1));
            }
            let lm = self.tables.pkg_supplement[i].last_modified;
            if lm > max_lm {
                max_lm = lm;
            }
            i = i + 1;
        }
        proof {
            assert(supp.skip(self.tables.pkg_supplement@.len() as int) =~= Seq::<
                SupplementV,
            >::empty());
        }
        let ghost threshold = max_last_modified(supp) - LISTED_GRACE_SECONDS as int;
        let ghost rows0 = self.tables@.pkg_info;
        let mut updated: Vec<PkgRecord> = Vec::new();
        let mut i: usize = 0;
        while i < self.tables.pkg_info.len()
            invariant
                i <= self.tables.pkg_info@.len(),
                supp == self.tables@.pkg_supplement,
                supp.len() > 0,
                rows0 == self.tables@.pkg_info,
                max_last_modified(supp) == max_lm as int,
                threshold == max_last_modified(supp) - LISTED_GRACE_SECONDS as int,
                updated@.len() == i,
                forall|j: int|
                    0 <= j < i ==> (#[trigger] updated@[j])@ == (RecordV {
                        details: rows0[j].details,
                        is_listed: supp_has(supp, rows0[j].details.pkg_name)
                            || rows0[j].details.committed_at as int >= threshold,
                    }),
            decreases self.tables.pkg_info@.len() - i,
        {
            let rec = &self.tables.pkg_info[i];
            let named = match find_supp_exec(&self.tables.pkg_supplement, &rec.details.pkg_name) {
                Some(_) => true,
                None => false,
            };
            let recent = (rec.details.committed_at as i128) >= (max_lm as i128)
                - (LISTED_GRACE_SECONDS as i128);
            updated.push(
                PkgRecord { details: clone_details(&rec.details), is_listed: named || recent },
            );
            i = i + 1;
        }
        self.tables.pkg_info = updated;
        proof {
            assert(final(self).tables@.pkg_info =~= listed_rows(rows0, supp, threshold));
            let lr = listed_rows(rows0, supp, threshold);
            assert forall|x: int, y: int| 0 <= x < y < lr.len() implies !((
            #[trigger] lr[x]).details.branch == (#[trigger] lr[y]).details.branch
                && lr[x].details.pkg_name == lr[y].details.pkg_name) by {
                assert(lr[x].details == rows0[x].details);
                assert(lr[y].details == rows0[y].details);
            }
            assert(final(self).tables@.branch_commits =~= old(self).tables@.branch_commits);
            assert(final(self).tables@.pkg_supplement =~= old(self).tables@.pkg_supplement);
        }
    }
}


} // verus!
