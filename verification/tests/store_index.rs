use aur_mirror_meta::store::{DatabaseOps, StoreTables, CURRENT_DB_VERSION};
use aur_mirror_meta::types::{
    DatabasePackageDetails, DatabaseSupplementData, SearchType,
};

fn empty_tables() -> StoreTables {
    StoreTables {
        branch_commits: Vec::new(),
        pkg_info: Vec::new(),
        pkg_supplement: Vec::new(),
    }
}

fn details(branch: &str, name: &str, version: &str, committed_at: i64) -> DatabasePackageDetails {
    DatabasePackageDetails {
        branch: branch.to_string(),
        commit_id: "abcabcabcabcabcabcabcabcabcabcabcabcabca".to_string(),
        committed_at,
        pkg_name: name.to_string(),
        pkg_desc: Some(format!("{} description", name)),
        version: version.to_string(),
        url: None,
        depends: vec!["glibc".to_string()],
        make_depends: Vec::new(),
        opt_depends: Vec::new(),
        check_depends: Vec::new(),
        provides: Vec::new(),
        conflicts: Vec::new(),
        replaces: Vec::new(),
        groups: Vec::new(),
    }
}

fn supplement(name: &str, version: &str, last_modified: i64) -> DatabaseSupplementData {
    DatabaseSupplementData {
        pkgname: name.to_string(),
        version: version.to_string(),
        popularity: (1.25f64).to_bits(),
        num_votes: 42,
        out_of_date: Some(1_600_000_000),
        maintainer: Some("maint".to_string()),
        submitter: Some("sub".to_string()),
        co_maintainers: vec!["co".to_string()],
        keywords: vec!["kw".to_string()],
        first_submitted: 900_000,
        last_modified,
    }
}

fn store_with(packages: Vec<DatabasePackageDetails>) -> DatabaseOps {
    let mut db = DatabaseOps::new(CURRENT_DB_VERSION, true, empty_tables());
    let mut tx = db.begin_transaction();
    db.update_index_with_tx(&mut tx, &packages);
    db.commit_transaction(tx);
    db
}

#[test]
fn fresh_store_gets_current_version() {
    let db = DatabaseOps::new(0, false, empty_tables());
    assert_eq!(db.user_version, CURRENT_DB_VERSION);
    assert!(db.tables_exist);
}

#[test]
fn legacy_zero_version_with_pkg_info_is_reset() {
    // A store whose version cell reads 0 while `pkg_info` exists is the
    // first release's layout: opening it must persist the current version
    // and drop the previous rows.
    let mut tables = empty_tables();
    tables.pkg_info.push(aur_mirror_meta::store::PkgRecord {
        details: details("old-branch", "old-pkg", "1", 1),
        is_listed: true,
    });
    let db = DatabaseOps::new(0, true, tables);
    assert_eq!(db.user_version, CURRENT_DB_VERSION);
    assert_eq!(db.tables.pkg_info.len(), 0);
    let found = db.get_package_details(&["old-pkg".to_string()]);
    assert_eq!(found.len(), 0);
}

#[test]
fn current_version_store_keeps_rows() {
    let mut tables = empty_tables();
    tables.pkg_info.push(aur_mirror_meta::store::PkgRecord {
        details: details("b", "p", "1", 1),
        is_listed: true,
    });
    let db = DatabaseOps::new(CURRENT_DB_VERSION, true, tables);
    assert_eq!(db.user_version, CURRENT_DB_VERSION);
    assert_eq!(db.tables.pkg_info.len(), 1);
}

#[test]
fn version_mismatch_hides_time_sensitive_fields() {
    // Supplement carries version 1 and the index version 2: popularity,
    // votes and maintainer still surface, the time-sensitive pair does
    // not.
    let mut db = store_with(vec![details("p", "p", "2", 500_000)]);
    db.store_supplement_data(&[supplement("p", "1", 1_000_000)]);
    let found = db.get_package_details(&["p".to_string()]);
    assert_eq!(found.len(), 1);
    let info = &found[0].info;
    assert_eq!(info.popularity, Some((1.25f64).to_bits()));
    assert_eq!(info.num_votes, Some(42));
    assert_eq!(info.maintainer, Some("maint".to_string()));
    assert_eq!(info.first_submitted, Some(900_000));
    assert_eq!(info.out_of_date, None);
    assert_eq!(info.last_modified, None);
    assert_eq!(found[0].keywords, vec!["kw".to_string()]);
}

#[test]
fn version_match_surfaces_time_sensitive_fields() {
    let mut db = store_with(vec![details("p", "p", "1", 999_999_999)]);
    db.store_supplement_data(&[supplement("p", "1", 1_000_000)]);
    let found = db.get_package_details(&["p".to_string()]);
    assert_eq!(found.len(), 1);
    assert_eq!(found[0].info.out_of_date, Some(1_600_000_000));
    assert_eq!(found[0].info.last_modified, Some(1_000_000));
}

#[test]
fn listing_follows_snapshot_and_grace_period() {
    // T is 1_000_000: a package the snapshot names stays listed, one
    // committed within the day before T stays listed, and an old
    // unnamed one is delisted.
    let mut db = store_with(vec![
        details("named", "named", "1", 1),
        details("recent", "recent", "1", 1_000_000 - 86_400),
        details("stale", "stale", "1", 1_000_000 - 86_401),
    ]);
    db.store_supplement_data(&[supplement("named", "1", 1_000_000)]);
    let named = db.search_packages(SearchType::Name, "named");
    assert_eq!(named.len(), 1);
    let recent = db.search_packages(SearchType::Name, "recent");
    assert_eq!(recent.len(), 1);
    let stale = db.search_packages(SearchType::Name, "stale");
    assert_eq!(stale.len(), 0);
}

#[test]
fn empty_snapshot_keeps_previous_supplement() {
    let mut db = store_with(vec![details("p", "p", "1", 1)]);
    db.store_supplement_data(&[supplement("p", "1", 1_000_000)]);
    db.store_supplement_data(&[]);
    assert_eq!(db.tables.pkg_supplement.len(), 1);
}

#[test]
fn search_by_name_is_case_insensitive_substring() {
    let db = store_with(vec![details("b", "Python-Requests", "1", 1)]);
    let hits = db.search_packages(SearchType::Name, "requests");
    assert_eq!(hits.len(), 1);
    assert_eq!(hits[0].pkg_name, "Python-Requests".to_string());
    let misses = db.search_packages(SearchType::Name, "reqzests");
    assert_eq!(misses.len(), 0);
}

#[test]
fn search_by_name_desc_also_matches_description() {
    let db = store_with(vec![details("b", "pkg", "1", 1)]);
    let hits = db.search_packages(SearchType::NameDesc, "description");
    assert_eq!(hits.len(), 1);
}

#[test]
fn search_by_depends_is_exact() {
    let db = store_with(vec![details("b", "pkg", "1", 1)]);
    let hits = db.search_packages(SearchType::Depends, "glibc");
    assert_eq!(hits.len(), 1);
    let misses = db.search_packages(SearchType::Depends, "glib");
    assert_eq!(misses.len(), 0);
}

#[test]
fn upsert_replaces_row_of_same_key() {
    let mut db = store_with(vec![details("b", "pkg", "1", 1)]);
    let mut tx = db.begin_transaction();
    db.update_index_with_tx(&mut tx, &[details("b", "pkg", "2", 2)]);
    db.commit_transaction(tx);
    assert_eq!(db.tables.pkg_info.len(), 1);
    assert_eq!(db.tables.pkg_info[0].details.version, "2".to_string());
}

#[test]
fn clear_index_drops_only_that_branch() {
    let mut db = store_with(vec![details("a", "one", "1", 1), details("b", "two", "1", 1)]);
    let mut tx = db.begin_transaction();
    db.clear_index_with_tx(&mut tx, "a");
    db.commit_transaction(tx);
    assert_eq!(db.tables.pkg_info.len(), 1);
    assert_eq!(db.tables.pkg_info[0].details.branch, "b".to_string());
}

#[test]
fn abandoned_transaction_leaves_store_untouched() {
    let mut db = store_with(vec![details("a", "one", "1", 1)]);
    {
        let mut tx = db.begin_transaction();
        db.clear_index_with_tx(&mut tx, "a");
        db.update_index_with_tx(&mut tx, &[details("x", "y", "9", 9)]);
        // The transaction is dropped without a commit.
    }
    assert_eq!(db.tables.pkg_info.len(), 1);
    assert_eq!(db.tables.pkg_info[0].details.pkg_name, "one".to_string());
    let _ = &mut db;
}

#[test]
fn branch_commits_are_upserted_and_read_back() {
    let mut db = DatabaseOps::new(CURRENT_DB_VERSION, true, empty_tables());
    let mut tx = db.begin_transaction();
    db.update_branch_commit_with_tx(&mut tx, "pkg-one", "aaaa");
    db.update_branch_commit_with_tx(&mut tx, "pkg-one", "bbbb");
    db.update_branch_commit_with_tx(&mut tx, "pkg-two", "cccc");
    db.commit_transaction(tx);
    assert_eq!(db.get_branch_commit_id("pkg-one"), Some("bbbb".to_string()));
    assert_eq!(db.get_branch_commit_id("pkg-two"), Some("cccc".to_string()));
    assert_eq!(db.get_branch_commit_id("absent"), None);
    let all = db.get_existing_commits();
    assert_eq!(all.len(), 2);
}

#[test]
fn relation_lists_are_deduplicated_on_write() {
    let mut pkg = details("b", "pkg", "1", 1);
    pkg.depends = vec!["x".to_string(), "y".to_string(), "x".to_string()];
    let db = store_with(vec![pkg]);
    let found = db.get_package_details(&["pkg".to_string()]);
    assert_eq!(found[0].depends, vec!["x".to_string(), "y".to_string()]);
}

#[test]
fn search_type_from_str_names_each_mode() {
    assert_eq!(SearchType::from_str("name"), Some(SearchType::Name));
    assert_eq!(SearchType::from_str("name-desc"), Some(SearchType::NameDesc));
    assert_eq!(SearchType::from_str("depends"), Some(SearchType::Depends));
    assert_eq!(
        SearchType::from_str("makedepends"),
        Some(SearchType::MakeDepends)
    );
    assert_eq!(
        SearchType::from_str("optdepends"),
        Some(SearchType::OptDepends)
    );
    assert_eq!(
        SearchType::from_str("checkdepends"),
        Some(SearchType::CheckDepends)
    );
    assert_eq!(SearchType::from_str("names"), None);
}

#[test]
fn future_version_store_is_brought_to_current() {
    // Whatever version cell a store carries, a successful open persists
    // this build's version; only older stores lose their rows.
    let mut tables = empty_tables();
    tables.pkg_info.push(aur_mirror_meta::store::PkgRecord {
        details: details("b", "p", "1", 1),
        is_listed: true,
    });
    let db = DatabaseOps::new(CURRENT_DB_VERSION + 1, true, tables);
    assert_eq!(db.user_version, CURRENT_DB_VERSION);
    assert_eq!(db.tables.pkg_info.len(), 1);
}
