use sit_core::encoding::Encoding;
use sit_core::generations::{record_depth, ParentLink, RecordEntry, RecordGenerations};
use sit_core::hash::HashingAlgorithm;
use sit_core::record::{File, OrderedFiles};
use sit_core::roots::restrict_to_roots;
use sit_core::repository::{
    default_features, find_next, keep_intact, no_features, plan_issues_upgrade, plan_new_record, plan_records_upgrade, record_file_path,
    record_link, split_path, Config, FindAction, FindProbe, IssuesUpgrade, Record, RepositoryError, Upgrade, FEATURE_FLAT_RECORDS, VERSION,
};

fn files(list: &[(&str, &[u8])]) -> OrderedFiles {
    OrderedFiles::from(list.iter().map(|(n, c)| File::new(n.to_string(), c.to_vec())).collect())
}

fn make_record(dir: &str, list: &[(&str, &[u8])], link_parents: bool, parents: &Vec<Record>) -> Result<Record, RepositoryError> {
    let config = Config::default_config();
    let planned = plan_new_record(&config, dir, files(list), link_parents, parents)?;
    let stored: Vec<File> = planned.files.into_iter().map(|(n, c)| File::new(n, c)).collect();
    Ok(Record::new(planned.hash, Encoding::Base32, planned.path, stored))
}

fn copy(r: &Record) -> Record {
    let files = r.files().iter().map(|f| f.duplicate()).collect();
    Record::new(r.hash(), Encoding::Base32, r.path().to_string(), files)
}

/// Lists the records of an in-memory "repository" by generations, as the
/// client does for a records directory
fn generations(records: &[&Record]) -> Vec<Vec<Record>> {
    let names: Vec<String> = records.iter().map(|r| r.encoded_hash()).collect();
    let entries: Vec<RecordEntry> = records
        .iter()
        .map(|r| RecordEntry {
            name: r.encoded_hash(),
            path: r.path().to_string(),
            is_dir: true,
            parents: Some(
                r.files()
                    .iter()
                    .filter(|f| f.name().starts_with(".prev/"))
                    .map(|f| {
                        let parent = f.name()[6..].to_string();
                        let is_record = names.contains(&parent);
                        ParentLink { name: parent, is_record }
                    })
                    .collect(),
            ),
        })
        .collect();
    let mut listing = RecordGenerations::new(Encoding::Base32, entries);
    let mut result = vec![];
    while let Some(generation) = listing.next_generation() {
        result.push(
            generation
                .iter()
                .map(|(path, _hash)| copy(records.iter().find(|r| r.path() == path.as_str()).unwrap()))
                .collect(),
        );
    }
    result
}

fn last_generation(records: &[&Record]) -> Vec<Record> {
    generations(records).pop().unwrap_or(vec![])
}

#[test]
fn record_split_path() {
    let record = make_record("/repo/.sit/records", &[("test", b"hello")], true, &vec![]).unwrap();
    let path = record.split_path(2);
    assert_eq!(path, "7T/VN/NJ/XP/VZ/PZ/FJ/W5/WO/UI/FY/CR/2X/TN/5T/7TVNNJXPVZPZFJW5WOUIFYCR2XTN5TNG");
    assert_eq!(record.path(), format!("/repo/.sit/records/{}", path));
}

#[test]
fn record_files_path() {
    // attempt to create a record with an invalid filename
    assert!(matches!(make_record("records", &[(".", b"hello")], false, &vec![]), Err(RepositoryError::IoError(_))));
    assert!(matches!(make_record("records", &[("../test", b"hello")], false, &vec![]), Err(RepositoryError::PathPrefixError)));
    assert!(matches!(make_record("records", &[("something/../../test", b"hello")], false, &vec![]), Err(RepositoryError::PathPrefixError)));
    // however, these are alright
    assert!(make_record("records", &[("something/../test", b"hello")], false, &vec![]).is_ok());
    assert!(make_record("records", &[("./test1", b"hello")], false, &vec![]).is_ok());
    // root is normalized, too
    let record = make_record("records", &[("/test2", b"hello")], false, &vec![]).unwrap();
    assert_eq!(record.files()[0].name(), "test2");
}

#[test]
fn first_unstorable_name_decides_the_error() {
    // a name that normalizes to the record's own directory cannot be written
    assert!(matches!(make_record("records", &[("a/..", b"hello")], false, &vec![]), Err(RepositoryError::IoError(_))));
    // in name order, "." comes before ".." and decides
    assert!(matches!(make_record("records", &[("..", b""), (".", b"")], false, &vec![]), Err(RepositoryError::IoError(_))));
    // "../a" comes before "./" and decides
    assert!(matches!(make_record("records", &[("./", b""), ("../a", b"")], false, &vec![]), Err(RepositoryError::PathPrefixError)));
}

#[test]
fn search_for_a_repository_follows_the_answers() {
    // a base directory that opens is the repository
    assert_eq!(find_next(FindProbe::Parent, true), FindAction::FoundParent);
    // otherwise a candidate that is a directory must open
    assert_eq!(find_next(FindProbe::Parent, false), FindAction::Ask(FindProbe::Directory));
    assert_eq!(find_next(FindProbe::Directory, true), FindAction::Ask(FindProbe::Candidate));
    assert_eq!(find_next(FindProbe::Candidate, true), FindAction::FoundCandidate);
    assert_eq!(find_next(FindProbe::Candidate, false), FindAction::NotFound);
    // a candidate that is not a directory sends the search up, until the root
    assert_eq!(find_next(FindProbe::Directory, false), FindAction::Ask(FindProbe::Up));
    assert_eq!(find_next(FindProbe::Up, true), FindAction::Ask(FindProbe::Parent));
    assert_eq!(find_next(FindProbe::Up, false), FindAction::NotFound);
}

#[test]
fn new_record_parents_linking() {
    let record1 = make_record("records", &[("test", &[1u8])], false, &vec![]).unwrap();
    let record1link = format!(".prev/{}", record1.encoded_hash());
    let record2 = make_record("records", &[("test", &[2u8])], false, &vec![]).unwrap();
    let record2link = format!(".prev/{}", record2.encoded_hash());
    let parents = last_generation(&[&record1, &record2]);
    let record = make_record("records", &[("test", &[3u8])], true, &parents).unwrap();
    assert!(record.files().iter().any(|f| f.name() == record1link));
    assert!(record.files().iter().any(|f| f.name() == record2link));
}

#[test]
fn record_ordering() {
    let record1 = make_record("records", &[("test", &[1u8])], false, &vec![]).unwrap();
    let record2 = make_record("records", &[("test", &[2u8])], false, &vec![]).unwrap();
    let parents = last_generation(&[&record1, &record2]);
    let record3 = make_record("records", &[("test", &[3u8])], true, &parents).unwrap();
    let record4 = make_record("records", &[("test", &[4u8])], false, &vec![]).unwrap();
    let parents = last_generation(&[&record1, &record2, &record3, &record4]);
    let record5 = make_record("records", &[("test", &[5u8])], true, &parents).unwrap();

    let mut records = generations(&[&record1, &record2, &record3, &record4, &record5]);
    let row_3 = records.pop().unwrap();
    let row_2 = records.pop().unwrap();
    let row_1 = records.pop().unwrap();
    assert_eq!(records.len(), 0);

    assert_eq!(row_1.len(), 3);
    assert!(row_1.iter().any(|r| r.same_hash(&record1)));
    assert!(row_1.iter().any(|r| r.same_hash(&record2)));
    assert!(row_1.iter().any(|r| r.same_hash(&record4)));

    assert_eq!(row_2.len(), 1);
    assert!(row_2.iter().any(|r| r.same_hash(&record3)));

    assert_eq!(row_3.len(), 1);
    assert!(row_3.iter().any(|r| r.same_hash(&record5)));
}

#[test]
fn multilevel_parents() {
    let record1 = make_record("records", &[("test", &[1u8])], false, &vec![]).unwrap();
    let parents = last_generation(&[&record1]);
    let record2 = make_record("records", &[("test", &[2u8])], true, &parents).unwrap();
    let link1 = format!(".prev/{}", record1.encoded_hash());
    let link2 = format!(".prev/{}", record2.encoded_hash());
    let record3 = make_record("records", &[("test", &[3u8]), (&link1, &[]), (&link2, &[])], false, &vec![]).unwrap();

    let mut records = generations(&[&record1, &record2, &record3]);
    let row_3 = records.pop().unwrap();
    let row_2 = records.pop().unwrap();
    let row_1 = records.pop().unwrap();
    assert_eq!(records.len(), 0);

    assert_eq!(row_1.len(), 1);
    assert!(row_1.iter().any(|r| r.same_hash(&record1)));

    assert_eq!(row_2.len(), 1);
    assert!(row_2.iter().any(|r| r.same_hash(&record2)));

    assert_eq!(row_3.len(), 1);
    assert!(row_3.iter().any(|r| r.same_hash(&record3)));
}

#[test]
fn partial_ordering() {
    // first repository
    let record0 = make_record("one", &[("test", &[2u8])], false, &vec![]).unwrap();
    let parents = last_generation(&[&record0]);
    let record1 = make_record("one", &[("test", &[3u8])], true, &parents).unwrap();
    let record2 = make_record("one", &[("test", &[1u8])], false, &vec![]).unwrap();
    let parents = last_generation(&[&record0, &record1, &record2]);
    let record3 = make_record("one", &[("test", &[3u8])], true, &parents).unwrap();

    let same_files = |r: &Record| -> Vec<(String, Vec<u8>)> {
        r.files().iter().map(|f| (f.name().to_string(), f.content().to_vec())).collect()
    };
    let again = |r: &Record| -> Record {
        let list = same_files(r);
        let borrowed: Vec<(&str, &[u8])> = list.iter().map(|(n, c)| (n.as_str(), c.as_slice())).collect();
        make_record("two", &borrowed, false, &vec![]).unwrap()
    };

    // second repository: one of the top records only
    let record2_2 = again(&record2);
    let record3_2 = again(&record3);
    assert_eq!(record3_2.hash(), record3.hash());
    let record1_2 = again(&record1);
    assert_eq!(record1_2.hash(), record1.hash());

    let mut records = generations(&[&record2_2, &record3_2, &record1_2]);
    let row_2 = records.pop().unwrap();
    let row_1 = records.pop().unwrap();
    assert_eq!(records.len(), 0);

    // the partially resolvable record is there
    assert_eq!(row_2.len(), 1);
    assert!(row_2.iter().any(|r| r.same_hash(&record3_2)));

    assert_eq!(row_1.len(), 2);
    // as well as one of its parents
    assert!(row_1.iter().any(|r| r.same_hash(&record2_2)));
    // as well as the one that has no resolvable parents
    assert!(row_1.iter().any(|r| r.same_hash(&record1_2)));
}

#[test]
fn record_deterministic_hashing() {
    let record1 = make_record("1", &[("z/a", &[2u8]), ("test", &[1u8])], false, &vec![]).unwrap();
    let record2 = make_record("2", &[("test", &[1u8]), ("z/a", &[2u8])], false, &vec![]).unwrap();
    assert_eq!(record1.hash(), record2.hash());
    let record3 = make_record("3", &[("test", &[1u8]), ("z\\a", &[2u8])], false, &vec![]).unwrap();
    assert_eq!(record3.hash(), record2.hash());
}

#[test]
fn tampered_records_fail_the_integrity_check() {
    let record = make_record("records", &[("test", b"hello")], true, &vec![]).unwrap();
    let alg = HashingAlgorithm::default_algorithm();
    assert!(record.integrity_intact(&alg));
    let mut tampered_files: Vec<File> = record.files().iter().map(|f| f.duplicate()).collect();
    tampered_files.push(File::new("file".to_string(), b"test".to_vec()));
    let tampered = Record::new(record.hash(), Encoding::Base32, record.path().to_string(), tampered_files);
    assert!(!tampered.integrity_intact(&alg));
    let kept = keep_intact(vec![copy(&tampered), copy(&record)], true, &alg);
    assert_eq!(kept.len(), 1);
    assert!(kept[0].same_hash(&record));
    // with the check off every record is kept
    let kept = keep_intact(vec![tampered, record], false, &alg);
    assert_eq!(kept.len(), 2);
}

#[test]
fn split_paths_and_links() {
    assert_eq!(split_path("ABCDE", 2), "AB/CD/ABCDE");
    assert_eq!(split_path("ABCD", 2), "AB/ABCD");
    assert_eq!(split_path("AB", 2), "AB");
    assert_eq!(split_path("", 3), "");
    assert_eq!(record_link("ABCDE"), "../../records/AB/CD/ABCDE");
    assert_eq!(record_file_path("a/./b").unwrap(), "a/b");
}

#[test]
fn upgrades_are_planned_or_required() {
    assert_eq!(plan_issues_upgrade(false, false, &[]).unwrap(), IssuesUpgrade::Keep);
    assert!(matches!(plan_issues_upgrade(true, false, &[]), Err(RepositoryError::UpgradeRequired(Upgrade::IssuesToItems))));
    assert_eq!(plan_issues_upgrade(true, false, &[Upgrade::IssuesToItems]).unwrap(), IssuesUpgrade::RenameToItems);
    assert_eq!(plan_issues_upgrade(true, true, &[Upgrade::IssuesToItems]).unwrap(), IssuesUpgrade::MergeIntoItems);

    let config = Config::default_config();
    assert_eq!(plan_records_upgrade(&config, &[], false).unwrap(), false);
    assert!(matches!(plan_records_upgrade(&config, &[], true), Err(RepositoryError::UpgradeRequired(Upgrade::ItemsToFlatRecords))));
    assert_eq!(plan_records_upgrade(&config, &[Upgrade::ItemsToFlatRecords], true).unwrap(), true);

    let mut old = Config::new(HashingAlgorithm::SHA1, Encoding::Base32, "0".to_string(), no_features(), vec![]);
    assert!(matches!(plan_records_upgrade(&old, &[], false), Err(RepositoryError::UpgradeRequired(Upgrade::ItemsToFlatRecords))));
    match old.check_version() {
        Err(RepositoryError::InvalidVersion { expected, got }) => {
            assert_eq!(expected, VERSION);
            assert_eq!(got, "0");
        },
        _ => panic!("version 0 must be refused"),
    }
    old.upgrade_to_flat_records();
    old.upgrade_to_flat_records();
    assert!(old.check_version().is_ok());
    assert_eq!(old.features(), &vec![FEATURE_FLAT_RECORDS.to_string()]);
    assert_eq!(Upgrade::IssuesToItems.description(), "renaming issues/ to items/");
    assert_eq!(Upgrade::ItemsToFlatRecords.description(), "migrating items' records to flat records namespace");
}

#[test]
fn configuration_defaults_and_extra_properties() {
    let mut config = Config::default_config();
    assert_eq!(config.version(), "1");
    assert_eq!(config.features(), &default_features());
    assert!(config.has_feature("flat-records"));
    assert!(!config.has_feature("other"));
    assert_eq!(*config.hashing_algorithm(), HashingAlgorithm::Blake2b { size: 20 });
    assert_eq!(*config.encoding(), Encoding::Base32);
    config.set_extra_properties(vec![("a".to_string(), serde_json::Value::Bool(true))]);
    config.set_extra_properties(vec![("a".to_string(), serde_json::Value::Bool(false))]);
    let last = config.extra().iter().rev().find(|(k, _)| k == "a").unwrap();
    assert_eq!(last.1, serde_json::Value::Bool(false));
}

#[test]
fn records_lie_as_deep_as_their_names_are_split() {
    assert_eq!(record_depth(&HashingAlgorithm::Blake2b { size: 20 }, &Encoding::Base32), 16);
    assert_eq!(record_depth(&HashingAlgorithm::SHA1, &Encoding::Base32), 16);
    assert_eq!(record_depth(&HashingAlgorithm::Blake2b { size: 32 }, &Encoding::Base32), 26);
    // a name of 32 characters split in pairs: 15 directories and the name
    let record = make_record("r", &[("test", b"hello")], false, &vec![]).unwrap();
    assert_eq!(record.split_path(2).split('/').count(), 16);
}

#[test]
fn fixed_roots() {
    // two top records
    let record1 = make_record("records", &[("test", &[1u8])], false, &vec![]).unwrap();
    let record2 = make_record("records", &[("test", &[2u8])], false, &vec![]).unwrap();
    // a record referring only to one root
    let link1 = format!(".prev/{}", record1.encoded_hash());
    let record3 = make_record("records", &[("test", &[3u8]), (&link1, &[])], false, &vec![]).unwrap();
    // a record referring only to another root
    let link2 = format!(".prev/{}", record2.encoded_hash());
    let record4 = make_record("records", &[("test", &[3u8]), (&link2, &[])], false, &vec![]).unwrap();
    let all = [&record1, &record2, &record3, &record4];

    let mut subset1 = restrict_to_roots(generations(&all), &vec![record1.encoded_hash()]).into_iter();
    let first = subset1.next().unwrap();
    assert_eq!(first.len(), 1);
    assert!(first[0].same_hash(&record1));
    let next = subset1.next().unwrap();
    assert_eq!(next.len(), 1);
    assert!(next[0].same_hash(&record3));

    let mut subset2 = restrict_to_roots(generations(&all), &vec![record2.encoded_hash()]).into_iter();
    let first = subset2.next().unwrap();
    assert_eq!(first.len(), 1);
    assert!(first[0].same_hash(&record2));
    let next = subset2.next().unwrap();
    assert_eq!(next.len(), 1);
    assert!(next[0].same_hash(&record4));

    // fixed roots, same level of roots
    let mut subset3 = restrict_to_roots(generations(&all), &vec![record1.encoded_hash(), record2.encoded_hash()]).into_iter();
    let first = subset3.next().unwrap();
    assert_eq!(first.len(), 2);
    assert!(first.iter().any(|e| e.encoded_hash() == record1.encoded_hash()));
    assert!(first.iter().any(|e| e.encoded_hash() == record2.encoded_hash()));
    let next = subset3.next().unwrap();
    assert_eq!(next.len(), 2);
    assert!(next.iter().any(|e| e.encoded_hash() == record3.encoded_hash()));
    assert!(next.iter().any(|e| e.encoded_hash() == record4.encoded_hash()));

    // fixed roots, different levels of roots
    let mut subset4 = restrict_to_roots(generations(&all), &vec![record1.encoded_hash(), record4.encoded_hash()]).into_iter();
    let first = subset4.next().unwrap();
    assert_eq!(first.len(), 1);
    assert!(first.iter().any(|e| e.encoded_hash() == record1.encoded_hash()));
    let next = subset4.next().unwrap();
    assert_eq!(next.len(), 2);
    assert!(next.iter().any(|e| e.encoded_hash() == record3.encoded_hash()));
    assert!(next.iter().any(|e| e.encoded_hash() == record4.encoded_hash()));
}

#[test]
fn roots_without_descendants_leave_nothing_else() {
    let record1 = make_record("records", &[("test", &[1u8])], false, &vec![]).unwrap();
    let record2 = make_record("records", &[("test", &[2u8])], false, &vec![]).unwrap();
    // a root that is not among the records keeps nothing; empty generations are dropped
    assert_eq!(restrict_to_roots(generations(&[&record1, &record2]), &vec!["NONE".to_string()]).len(), 0);
    let only = restrict_to_roots(generations(&[&record1, &record2]), &vec![record2.encoded_hash()]);
    assert_eq!(only.len(), 1);
    assert_eq!(only[0].len(), 1);
    assert!(only[0][0].same_hash(&record2));
}

#[test]
fn new_record() {
    let record = make_record("records", &[("test", b"hello")], true, &vec![]).unwrap();
    // peek into the record
    assert_eq!(record.files().len(), 1);
    assert_eq!(record.files()[0].name(), "test");
    assert_eq!(record.files()[0].content(), b"hello");
    // list records
    let mut records: Vec<Record> = generations(&[&record]).into_iter().flatten().collect();
    assert_eq!(records.len(), 1);
    assert_eq!(records.pop().unwrap().hash(), record.hash());
}
