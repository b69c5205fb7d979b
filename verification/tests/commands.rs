use sit_core::cfg::{author_from_git, email_answer, name_answer, Author, Configuration, JMESPathConfig, Signing};
use sit_core::commands::{
    choose_expression, cli_search_path, copied_as_is, external_command_name, integrity_check_enabled, invalid_record_names,
    rebuilt_file_name, record_files, script_name, RecordFilesError, signature_payload, split_commas_exec, upgrade_progress, RecordRenames,
    UpgradeProgress,
};
use sit_core::encoding::Encoding;
use sit_core::hash::HashingAlgorithm;
use sit_core::id::IdGenerator;
use sit_core::record::{File, OrderedFiles};
use sit_core::repository::{plan_new_record, Config, Record, RepositoryError, Upgrade};

fn files(list: &[(&str, &[u8])]) -> OrderedFiles {
    OrderedFiles::from(list.iter().map(|(n, c)| File::new(n.to_string(), c.to_vec())).collect())
}

fn names(f: &OrderedFiles) -> Vec<String> {
    f.entries().iter().map(|x| x.name().to_string()).collect()
}

#[test]
fn types_split_like_str_split() {
    assert_eq!(split_commas_exec("a,b"), vec!["a".to_string(), "b".to_string()]);
    assert_eq!(split_commas_exec(""), vec!["".to_string()]);
    assert_eq!(split_commas_exec("a,,b,"), vec!["a".to_string(), "".to_string(), "b".to_string(), "".to_string()]);
    assert_eq!(split_commas_exec("Closed"), vec!["Closed".to_string()]);
}

#[test]
fn record_files_with_types_author_and_timestamp() {
    let author = Author { name: "John Doe".to_string(), email: Some("john@foobar.com".to_string()) };
    let result = record_files(files(&[("text", b"hi")]), Some("Commented,Closed"), Some(&author), (1517329499, 385560008), false, false, false).unwrap();
    assert_eq!(names(&result), vec![".authors", ".timestamp", ".type/Closed", ".type/Commented", "text"]);
    let entries = result.entries();
    assert_eq!(entries[0].content(), b"John Doe <john@foobar.com>");
    assert_eq!(entries[1].content(), b"2018-01-30T16:24:59.385560008Z");
    assert_eq!(entries[2].content(), b"");
    assert_eq!(entries[4].content(), b"hi");
}

#[test]
fn record_files_without_auxiliary_files() {
    let result = record_files(files(&[("text", b"hi"), (".type/T", b"")]), None, None, (0, 0), true, false, false).unwrap();
    assert_eq!(names(&result), vec![".type/T", "text"]);
    let author = Author { name: "Jane".to_string(), email: None };
    let result = record_files(files(&[]), Some("A"), Some(&author), (0, 0), false, false, true).unwrap();
    assert_eq!(names(&result), vec![".authors", ".type/A"]);
    assert_eq!(result.entries()[0].content(), b"Jane");
    let result = record_files(files(&[]), Some("A"), None, (0, 0), false, true, false).unwrap();
    assert_eq!(names(&result), vec![".timestamp", ".type/A"]);
    assert_eq!(result.entries()[0].content(), b"1970-01-01T00:00:00Z");
    // a time out of range cannot be written
    assert!(matches!(record_files(files(&[]), Some("A"), None, (i64::MAX, 0), false, true, false), Err(RecordFilesError::TimeOutOfRange)));
}

#[test]
fn record_should_fail_if_no_type() {
    // no type given and no `.type/` file: refused
    assert!(matches!(record_files(files(&[("file", b"")]), None, None, (0, 0), false, true, false), Err(RecordFilesError::NoType)));
    assert!(matches!(record_files(files(&[]), None, None, (0, 0), true, false, false), Err(RecordFilesError::NoType)));
}

#[test]
fn record_dot_type_sufficiency() {
    // a given `.type/...` file is enough
    let result = record_files(files(&[(".type/MyType", b"")]), None, None, (0, 0), false, true, true).unwrap();
    assert!(names(&result).iter().any(|n| n == ".type/MyType"));
}

#[test]
fn record_should_merge_types() {
    let result = record_files(files(&[(".type/MyType", b""), (".type/OurType", b"")]), Some("Sometype,SomeOtherType"), None, (0, 0), false, true, true).unwrap();
    let names = names(&result);
    assert!(names.iter().any(|n| n == ".type/Sometype"));
    assert!(names.iter().any(|n| n == ".type/SomeOtherType"));
    assert!(names.iter().any(|n| n == ".type/MyType"));
    assert!(names.iter().any(|n| n == ".type/OurType"));
    assert_eq!(names, vec![".type/MyType", ".type/OurType", ".type/SomeOtherType", ".type/Sometype"]);
}

#[test]
fn record_should_record_timestamp() {
    let result = record_files(files(&[]), Some("Sometype"), None, (1517329499, 385560008), false, true, false).unwrap();
    let entries = result.entries();
    assert_eq!(entries[0].name(), ".timestamp");
    assert_eq!(entries[0].content(), b"2018-01-30T16:24:59.385560008Z");
}

#[test]
fn record_should_not_record_timestamp() {
    let result = record_files(files(&[]), Some("Sometype"), None, (1517329499, 0), false, true, true).unwrap();
    assert!(!names(&result).iter().any(|n| n == ".timestamp"));
}

#[test]
fn record_should_record_files() {
    let result = record_files(files(&[("file1", b"file1"), ("files/file2", b"file2")]), Some("Sometype"), None, (0, 0), false, true, true).unwrap();
    let entries = result.entries();
    let file1 = entries.iter().find(|f| f.name() == "file1").unwrap();
    assert_eq!(file1.content(), b"file1");
    let file2 = entries.iter().find(|f| f.name() == "files/file2").unwrap();
    assert_eq!(file2.content(), b"file2");
}

#[test]
fn signature_covers_the_record_name() {
    let config = Config::default_config();
    let planned = plan_new_record(&config, "records", files(&[("test", b"hello")]), false, &vec![]).unwrap();
    let payload = signature_payload(files(&[("test", b"hello")]), &HashingAlgorithm::default_algorithm(), &Encoding::Base32);
    assert_eq!(payload, "7TVNNJXPVZPZFJW5WOUIFYCR2XTN5TNG");
    assert_eq!(payload, Encoding::Base32.encode(&planned.hash));
}

#[test]
fn expressions_fall_back_in_order() {
    assert_eq!(choose_expression(Some("n".to_string()), Some("q".to_string()), "@"), "n");
    assert_eq!(choose_expression(None, Some("q".to_string()), "@"), "q");
    assert_eq!(choose_expression(None, None, "hash"), "hash");
}

#[test]
fn external_commands_are_searched_in_order() {
    assert_eq!(external_command_name("web"), "sit-web");
    assert_eq!(script_name("sit-web"), "sit-web.sh");
    let modules = vec!["/r/modules/a/cli".to_string(), "/r/modules/b/cli".to_string()];
    assert_eq!(cli_search_path("/r/cli", &modules, "/usr/bin:/bin", ":"), "/r/cli:/r/modules/a/cli:/r/modules/b/cli:/usr/bin:/bin");
    assert_eq!(cli_search_path("/r/cli", &vec![], "/bin", ";"), "/r/cli;/bin");
}

#[test]
fn rebuilt_links_follow_renames() {
    assert!(copied_as_is("records"));
    assert!(copied_as_is("reducers"));
    assert!(!copied_as_is("config.json"));
    assert!(!copied_as_is("items"));
    let mut renames = RecordRenames::new();
    assert_eq!(renames.get("OLD"), None);
    renames.insert("OLD".to_string(), "NEW".to_string());
    renames.insert("OTHER".to_string(), "X".to_string());
    renames.insert("OLD".to_string(), "NEWER".to_string());
    assert_eq!(renames.get("OLD"), Some("NEWER".to_string()));
    assert_eq!(renames.get("OTHER"), Some("X".to_string()));
    assert_eq!(rebuilt_file_name(".prev/OLD", &renames), Some(".prev/NEWER".to_string()));
    assert_eq!(rebuilt_file_name(".prev/MISSING", &renames), None);
    assert_eq!(rebuilt_file_name("text", &renames), Some("text".to_string()));
    assert_eq!(rebuilt_file_name(".prevOLD", &renames), Some(".prevOLD".to_string()));
}

#[test]
fn integrity_lists_broken_records() {
    let config = Config::default_config();
    let planned = plan_new_record(&config, "records", files(&[("test", b"hello")]), false, &vec![]).unwrap();
    let good_files: Vec<File> = planned.files.iter().map(|(n, c)| File::new(n.clone(), c.clone())).collect();
    let good = Record::new(planned.hash.clone(), Encoding::Base32, planned.path.clone(), good_files);
    let bad = Record::new(planned.hash.clone(), Encoding::Base32, planned.path.clone(), vec![File::new("test".to_string(), b"tampered".to_vec())]);
    let alg = HashingAlgorithm::default_algorithm();
    let broken = invalid_record_names(&vec![good, bad], &alg);
    assert_eq!(broken, vec!["7TVNNJXPVZPZFJW5WOUIFYCR2XTN5TNG".to_string()]);
    assert!(integrity_check_enabled(false, false));
    assert!(!integrity_check_enabled(true, false));
    assert!(!integrity_check_enabled(false, true));
}

#[test]
fn upgrades_are_collected_until_the_repository_opens() {
    let mut upgrades = vec![];
    let required = RepositoryError::UpgradeRequired(Upgrade::IssuesToItems);
    assert_eq!(upgrade_progress(Some(&required), &mut upgrades), UpgradeProgress::Retry);
    assert_eq!(upgrades, vec![Upgrade::IssuesToItems]);
    assert_eq!(upgrade_progress(Some(&RepositoryError::NotFound), &mut upgrades), UpgradeProgress::Failed);
    assert_eq!(upgrade_progress(None, &mut upgrades), UpgradeProgress::Done);
    assert_eq!(upgrades, vec![Upgrade::IssuesToItems]);
}

#[test]
fn authors_are_written_with_their_address() {
    let a = Author { name: "John Doe".to_string(), email: Some("john@foobar.com".to_string()) };
    assert_eq!(a.to_string(), "John Doe <john@foobar.com>");
    let b = Author { name: "Jane".to_string(), email: None };
    assert_eq!(b.to_string(), "Jane");
}

#[test]
fn authors_come_from_git_configuration() {
    let a = Author::from_gitconfig("[user]\nname = John Doe\nemail = john@foobar.com\n").unwrap();
    assert_eq!(a.name, "John Doe");
    assert_eq!(a.email, Some("john@foobar.com".to_string()));
    let local = Author::from_gitconfig("[user]\nname=Test\nemail=test@test.com").unwrap();
    assert_eq!(local.to_string(), "Test <test@test.com>");
    // both name and e-mail address are needed
    assert!(Author::from_gitconfig("[user]\nname = John Doe\n").is_none());
    assert!(Author::from_gitconfig("[core]\nname = x\nemail = y\n").is_none());
    // a document that does not parse names nobody
    assert!(Author::from_gitconfig("[user\nname = x\n").is_none());
}

#[test]
fn answers_must_not_be_blank() {
    assert_eq!(name_answer("  ".to_string()), None);
    assert_eq!(name_answer(" John ".to_string()), Some(" John ".to_string()));
    assert_eq!(email_answer("".to_string()), None);
    assert_eq!(email_answer("a@b".to_string()), Some("a@b".to_string()));
}

#[test]
fn empty_configuration() {
    let c = Configuration::new();
    assert!(c.author.is_none());
    assert!(c.issues.is_empty());
    assert!(c.records.is_empty());
    assert!(c.signing.is_none());
    let mut j = JMESPathConfig::new();
    j.queries.insert("q".to_string(), "@".to_string());
    assert!(!j.is_empty());
    let s = Signing { enabled: false, key: Some("k".to_string()), gnupg: None };
    assert!(!s.is_none());
    assert!(!Signing { enabled: true, key: None, gnupg: None }.is_none());
}

#[test]
fn generated_identifiers_are_uuids() {
    let g = IdGenerator::default();
    assert_eq!(g, IdGenerator::UUIDv4);
    let a = g.generate();
    let b = g.generate();
    assert_eq!(a.len(), 36);
    assert_ne!(a, b);
    for (i, c) in a.chars().enumerate() {
        if i == 8 || i == 13 || i == 18 || i == 23 {
            assert_eq!(c, '-');
        } else {
            assert!(c.is_ascii_hexdigit() && !c.is_ascii_uppercase());
        }
    }
    assert_eq!(a.chars().nth(14), Some('4'));
}

#[test]
fn repository_git_configuration_comes_before_the_users() {
    let user = "[user]\nname=Test\nemail=test@test.com";
    let local = "[user]\nname=User\nemail=user@test.com";
    assert_eq!(author_from_git(Some(local), Some(user)).unwrap().to_string(), "User <user@test.com>");
    assert_eq!(author_from_git(None, Some(user)).unwrap().to_string(), "Test <test@test.com>");
    assert_eq!(author_from_git(Some("[core]\nx=1"), Some(user)).unwrap().to_string(), "Test <test@test.com>");
    assert_eq!(author_from_git(Some(local), None).unwrap().to_string(), "User <user@test.com>");
    assert!(author_from_git(None, None).is_none());
}
