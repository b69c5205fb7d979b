//! Repository is where SIT stores all of its artifacts: its configuration, the
//! layout of its directories and the records it holds.

use vstd::prelude::*;
use crate::encoding::Encoding;
use crate::hash::HashingAlgorithm;
use crate::record::{File, FileView, OrderedFiles, hash_input, views, sorted_by_name, sort_by_name, first_named, lemma_first_named};
use crate::text::{chars_of, concat, str_eq, string_of};

verus! {

#[verifier::external_type_specification]
#[verifier::external_body]
pub struct ExIoError(std::io::Error);

#[verifier::external_type_specification]
#[verifier::external_body]
pub struct ExJsonError(serde_json::Error);

#[verifier::external_type_specification]
#[verifier::external_body]
pub struct ExDecodeError(data_encoding::DecodeError);

#[verifier::external_type_specification]
#[verifier::external_body]
pub struct ExJsonValue(serde_json::Value);

/// Current repository format version
pub const VERSION: &'static str = "1";

/// Name of the feature of flat record storage
pub const FEATURE_FLAT_RECORDS: &'static str = "flat-records";

/// Repository's config file name
pub const CONFIG_FILE: &'static str = "config.json";

/// Repository's issues path (deprecated)
pub const DEPRECATED_ISSUES_PATH: &'static str = "issues";

/// Repository's items path (deprecated)
pub const DEPRECATED_ITEMS_PATH: &'static str = "items";

/// Repository's records path
pub const RECORDS_PATH: &'static str = "records";

/// Repository's modules path
pub const MODULES_PATH: &'static str = "modules";

/// Upgrades a repository may need
#[derive(Debug, Clone, Copy, PartialEq, Eq, Structural)]
pub enum Upgrade {
    /// Renaming `issues/` to `items/`
    IssuesToItems,
    /// Moving items' records to the flat records namespace
    ItemsToFlatRecords,
}

impl Upgrade {
    /// What the upgrade does, in words
    pub open spec fn spec_description(self) -> Seq<char> {
        match self {
            Upgrade::IssuesToItems => "renaming issues/ to items/"@,
            Upgrade::ItemsToFlatRecords => "migrating items' records to flat records namespace"@,
        }
    }

    /// What the upgrade does, in words
    pub fn description(&self) -> (s: String)
        ensures
            s@ == self.spec_description(),
    {
        match self {
            Upgrade::IssuesToItems => String::from_str("renaming issues/ to items/"),
            Upgrade::ItemsToFlatRecords => String::from_str("migrating items' records to flat records namespace"),
        }
    }
}

/// A directory whose entries are modules (its path, or anything that
/// stands for one)
pub struct ModuleDirectory<P>(pub P);

/// Repository errors
#[derive(Debug)]
pub enum RepositoryError {
    /// Item already exists
    AlreadyExists,
    /// Item not found
    NotFound,
    /// A record file would be placed outside of the record
    PathPrefixError,
    /// Upgrade required
    UpgradeRequired(Upgrade),
    /// Invalid repository version
    InvalidVersion {
        expected: String,
        got: String,
    },
    /// I/O error
    IoError(std::io::Error),
    /// JSON (de)serialization error
    SerializationError(serde_json::Error),
    /// Base decoding error
    BaseDecodeError(data_encoding::DecodeError),
    /// Other errors
    OtherError(String),
}

/// The features a new repository has
pub fn default_features() -> (f: Vec<String>)
    ensures
        f@.len() == 1,
        f@[0]@ == FEATURE_FLAT_RECORDS@,
{
    let mut f: Vec<String> = Vec::new();
    f.push(String::from_str(FEATURE_FLAT_RECORDS));
    f
}

/// The features a configuration that names none has
pub fn no_features() -> (f: Vec<String>)
    ensures
        f@.len() == 0,
{
    Vec::new()
}

/// Free-form configuration as a map: later bindings of a key win
pub open spec fn bindings_map(b: Seq<(Seq<char>, serde_json::Value)>) -> Map<Seq<char>, serde_json::Value>
    decreases b.len(),
{
    if b.len() == 0 {
        Map::empty()
    } else {
        bindings_map(b.drop_last()).insert(b.last().0, b.last().1)
    }
}

/// The view of free-form bindings with owned keys
pub open spec fn bindings_view(b: Seq<(String, serde_json::Value)>) -> Seq<(Seq<char>, serde_json::Value)> {
    b.map_values(|p: (String, serde_json::Value)| (p.0@, p.1))
}

/// Whether a list of names holds `name`
pub open spec fn names_contain(names: Seq<String>, name: Seq<char>) -> bool {
    exists|i: int| 0 <= i < names.len() && #[trigger] names[i]@ == name
}

/// Whether a list of names holds `name`
pub fn contains_name(names: &Vec<String>, name: &str) -> (res: bool)
    ensures
        res == names_contain(names@, name@),
{
    let mut i: usize = 0;
    while i < names.len()
        invariant
            i <= names@.len(),
            forall|k: int| 0 <= k < i ==> #[trigger] names@[k]@ != name@,
        decreases names@.len() - i,
    {
        if str_eq(names[i].as_str(), name) {
            return true;
        }
        i = i + 1;
    }
    false
}

/// Repository configuration
pub struct Config {
    hashing_algorithm: HashingAlgorithm,
    encoding: Encoding,
    version: String,
    features: Vec<String>,
    extra: Vec<(String, serde_json::Value)>,
}

impl Config {
    /// Hashing algorithm
    pub closed spec fn spec_hashing_algorithm(self) -> HashingAlgorithm {
        self.hashing_algorithm
    }

    /// Encoding
    pub closed spec fn spec_encoding(self) -> Encoding {
        self.encoding
    }

    /// Repository version
    pub closed spec fn spec_version(self) -> Seq<char> {
        self.version@
    }

    /// Repository features
    pub closed spec fn spec_features(self) -> Seq<String> {
        self.features@
    }

    /// Extra free-form configuration, as an ordered list of bindings
    pub closed spec fn spec_extra(self) -> Seq<(Seq<char>, serde_json::Value)> {
        bindings_view(self.extra@)
    }

    /// Extra free-form configuration, as a map
    pub open spec fn extra_map(self) -> Map<Seq<char>, serde_json::Value> {
        bindings_map(self.spec_extra())
    }

    /// Assembles a configuration
    pub fn new(hashing_algorithm: HashingAlgorithm, encoding: Encoding, version: String,
        features: Vec<String>, extra: Vec<(String, serde_json::Value)>) -> (c: Config)
        ensures
            c.spec_hashing_algorithm() == hashing_algorithm,
            c.spec_encoding() == encoding,
            c.spec_version() == version@,
            c.spec_features() == features@,
            c.spec_extra() == bindings_view(extra@),
    {
        Config { hashing_algorithm, encoding, version, features, extra }
    }

    /// The configuration of a new repository: default hashing algorithm and
    /// encoding, the current version, the default features and no extra
    /// configuration
    pub fn default_config() -> (c: Config)
        ensures
            c.spec_hashing_algorithm() == (HashingAlgorithm::Blake2b { size: 20 }),
            c.spec_encoding() == Encoding::Base32,
            c.spec_version() == VERSION@,
            c.spec_features().len() == 1,
            c.spec_features()[0]@ == FEATURE_FLAT_RECORDS@,
            c.spec_extra().len() == 0,
    {
        let extra: Vec<(String, serde_json::Value)> = Vec::new();
        proof {
            assert(bindings_view(extra@) =~= Seq::empty());
        }
        Config {
            hashing_algorithm: HashingAlgorithm::default_algorithm(),
            encoding: Encoding::default_encoding(),
            version: String::from_str(VERSION),
            features: default_features(),
            extra,
        }
    }

    /// Returns hashing algorithm
    pub fn hashing_algorithm(&self) -> (a: &HashingAlgorithm)
        ensures
            *a == self.spec_hashing_algorithm(),
    {
        &self.hashing_algorithm
    }

    /// Returns encoding
    pub fn encoding(&self) -> (e: &Encoding)
        ensures
            *e == self.spec_encoding(),
    {
        &self.encoding
    }

    /// Returns the repository version
    pub fn version(&self) -> (v: &str)
        ensures
            v@ == self.spec_version(),
    {
        self.version.as_str()
    }

    /// Returns the repository features
    pub fn features(&self) -> (f: &Vec<String>)
        ensures
            f@ == self.spec_features(),
    {
        &self.features
    }

    /// Returns extra configuration
    pub fn extra(&self) -> (e: &Vec<(String, serde_json::Value)>)
        ensures
            bindings_view(e@) == self.spec_extra(),
    {
        &self.extra
    }

    /// Replaces the features
    pub fn set_features(&mut self, features: Vec<String>)
        ensures
            final(self).spec_features() == features@,
            final(self).spec_hashing_algorithm() == old(self).spec_hashing_algorithm(),
            final(self).spec_encoding() == old(self).spec_encoding(),
            final(self).spec_version() == old(self).spec_version(),
            final(self).spec_extra() == old(self).spec_extra(),
    {
        self.features = features;
    }

    /// Sets extra free-form properties in the configuration (overrides
    /// existing ones)
    pub fn set_extra_properties(&mut self, extra: Vec<(String, serde_json::Value)>)
        ensures
            final(self).spec_extra() == old(self).spec_extra() + bindings_view(extra@),
            final(self).extra_map() == bindings_map(old(self).spec_extra() + bindings_view(extra@)),
            final(self).spec_hashing_algorithm() == old(self).spec_hashing_algorithm(),
            final(self).spec_encoding() == old(self).spec_encoding(),
            final(self).spec_version() == old(self).spec_version(),
            final(self).spec_features() == old(self).spec_features(),
    {
        let mut extra = extra;
        let ghost before = self.extra@;
        let ghost added = extra@;
        self.extra.append(&mut extra);
        proof {
            assert(bindings_view(self.extra@) =~= bindings_view(before) + bindings_view(added));
        }
    }

    /// Whether the configuration lists a feature
    pub fn has_feature(&self, name: &str) -> (res: bool)
        ensures
            res == names_contain(self.spec_features(), name@),
    {
        contains_name(&self.features, name)
    }
}

/// Setting a property and reading it back gives the value set; other
/// properties keep their values.
pub proof fn law_extra_property_override(
    before: Seq<(Seq<char>, serde_json::Value)>,
    key: Seq<char>,
    value: serde_json::Value,
    other: Seq<char>,
)
    requires
        other != key,
    ensures
        bindings_map(before.push((key, value)))[key] == value,
        bindings_map(before.push((key, value))).dom().contains(key),
        bindings_map(before.push((key, value))).dom().contains(other) == bindings_map(before).dom().contains(other),
        bindings_map(before).dom().contains(other) ==> bindings_map(before.push((key, value)))[other] == bindings_map(before)[other],
{
    assert(before.push((key, value)).drop_last() == before);
}

/// Whether a list of upgrades holds `u`
pub fn allows(upgrades: &[Upgrade], u: Upgrade) -> (res: bool)
    ensures
        res == upgrades@.contains(u),
{
    let mut i: usize = 0;
    while i < upgrades.len()
        invariant
            i <= upgrades@.len(),
            forall|k: int| 0 <= k < i ==> upgrades@[k] != u,
        decreases upgrades@.len() - i,
    {
        if upgrades[i] == u {
            return true;
        }
        i = i + 1;
    }
    false
}

/// A question the search for a repository asks of the file system, at a
/// candidate path made of a base directory and the repository's directory name
#[derive(Debug, Clone, Copy, PartialEq, Eq, Structural)]
pub enum FindProbe {
    /// Does the candidate's parent (the base directory) open as a repository?
    Parent,
    /// Is the candidate a directory?
    Directory,
    /// Does the candidate open as a repository?
    Candidate,
    /// Can the base directory be left for its own parent?
    Up,
}

/// What the search for a repository does next
#[derive(Debug, Clone, Copy, PartialEq, Eq, Structural)]
pub enum FindAction {
    /// Ask this question next
    Ask(FindProbe),
    /// The repository is the candidate's parent
    FoundParent,
    /// The repository is the candidate
    FoundCandidate,
    /// There is no repository here or above
    NotFound,
}

/// The step of the search for a repository in a directory or above it, or
/// in a sub-directory of one of them, that follows the answer to a probe
pub open spec fn spec_find_next(probe: FindProbe, answer: bool) -> FindAction {
    match probe {
        FindProbe::Parent => if answer { FindAction::FoundParent } else { FindAction::Ask(FindProbe::Directory) },
        FindProbe::Directory => if answer { FindAction::Ask(FindProbe::Candidate) } else { FindAction::Ask(FindProbe::Up) },
        FindProbe::Candidate => if answer { FindAction::FoundCandidate } else { FindAction::NotFound },
        FindProbe::Up => if answer { FindAction::Ask(FindProbe::Parent) } else { FindAction::NotFound },
    }
}

/// Decides the next step of the search for a repository from the answer to
/// the last probe. A search starts by asking `Parent`: a base directory that
/// opens as a repository is found; otherwise a candidate that is a directory
/// must open as one, and a candidate that is not sends the search one
/// directory up, until there is none left.
pub fn find_next(probe: FindProbe, answer: bool) -> (res: FindAction)
    ensures
        res == spec_find_next(probe, answer),
{
    match probe {
        FindProbe::Parent => if answer { FindAction::FoundParent } else { FindAction::Ask(FindProbe::Directory) },
        FindProbe::Directory => if answer { FindAction::Ask(FindProbe::Candidate) } else { FindAction::Ask(FindProbe::Up) },
        FindProbe::Candidate => if answer { FindAction::FoundCandidate } else { FindAction::NotFound },
        FindProbe::Up => if answer { FindAction::Ask(FindProbe::Parent) } else { FindAction::NotFound },
    }
}

/// What to do with a deprecated `issues/` directory when opening a repository
#[derive(Debug, Clone, Copy, PartialEq, Eq, Structural)]
pub enum IssuesUpgrade {
    /// Nothing to do
    Keep,
    /// Rename `issues/` to `items/`
    RenameToItems,
    /// Move every entry of `issues/` into `items/` and remove `issues/`
    MergeIntoItems,
}

/// Decides how `issues/` is handled when opening a repository, given whether
/// `issues/` and `items/` are directories and which upgrades are allowed
pub fn plan_issues_upgrade(issues_dir: bool, items_dir: bool, upgrades: &[Upgrade]) -> (r: Result<IssuesUpgrade, RepositoryError>)
    ensures
        !issues_dir ==> r matches Ok(IssuesUpgrade::Keep),
        issues_dir && upgrades@.contains(Upgrade::IssuesToItems) ==>
            (r matches Ok(p) && p == (if items_dir { IssuesUpgrade::MergeIntoItems } else { IssuesUpgrade::RenameToItems })),
        issues_dir && !upgrades@.contains(Upgrade::IssuesToItems) ==>
            r matches Err(RepositoryError::UpgradeRequired(Upgrade::IssuesToItems)),
{
    if !issues_dir {
        Ok(IssuesUpgrade::Keep)
    } else if allows(upgrades, Upgrade::IssuesToItems) {
        if items_dir {
            Ok(IssuesUpgrade::MergeIntoItems)
        } else {
            Ok(IssuesUpgrade::RenameToItems)
        }
    } else {
        Err(RepositoryError::UpgradeRequired(Upgrade::IssuesToItems))
    }
}

/// Decides whether items' records are moved to the flat records namespace
/// when opening a repository. Without that upgrade allowed, a record stored
/// as a directory under `items/`, or a configuration without the flat-records
/// feature, means the upgrade is required.
pub fn plan_records_upgrade(config: &Config, upgrades: &[Upgrade], record_as_dir_present: bool) -> (r: Result<bool, RepositoryError>)
    ensures
        upgrades@.contains(Upgrade::ItemsToFlatRecords) ==> r matches Ok(true),
        !upgrades@.contains(Upgrade::ItemsToFlatRecords) ==> {
            if record_as_dir_present || !names_contain(config.spec_features(), FEATURE_FLAT_RECORDS@) {
                r matches Err(RepositoryError::UpgradeRequired(Upgrade::ItemsToFlatRecords))
            } else {
                r matches Ok(false)
            }
        },
{
    if allows(upgrades, Upgrade::ItemsToFlatRecords) {
        Ok(true)
    } else if record_as_dir_present || !config.has_feature(FEATURE_FLAT_RECORDS) {
        Err(RepositoryError::UpgradeRequired(Upgrade::ItemsToFlatRecords))
    } else {
        Ok(false)
    }
}

impl Config {
    /// Marks the configuration as upgraded to flat records: the current
    /// version and the flat-records feature (added once)
    pub fn upgrade_to_flat_records(&mut self)
        ensures
            final(self).spec_version() == VERSION@,
            names_contain(final(self).spec_features(), FEATURE_FLAT_RECORDS@),
            names_contain(old(self).spec_features(), FEATURE_FLAT_RECORDS@) ==>
                final(self).spec_features() == old(self).spec_features(),
            !names_contain(old(self).spec_features(), FEATURE_FLAT_RECORDS@) ==>
                final(self).spec_features().len() == old(self).spec_features().len() + 1
                && final(self).spec_features().drop_last() == old(self).spec_features()
                && final(self).spec_features().last()@ == FEATURE_FLAT_RECORDS@,
            final(self).spec_hashing_algorithm() == old(self).spec_hashing_algorithm(),
            final(self).spec_encoding() == old(self).spec_encoding(),
            final(self).spec_extra() == old(self).spec_extra(),
    {
        self.version = String::from_str(VERSION);
        if !self.has_feature(FEATURE_FLAT_RECORDS) {
            let f = String::from_str(FEATURE_FLAT_RECORDS);
            self.features.push(f);
            proof {
                let n = self.features@.len() - 1;
                assert(self.features@[n]@ == FEATURE_FLAT_RECORDS@);
                assert(self.features@.drop_last() =~= old(self).features@);
            }
        }
    }

    /// Checks that the configuration has the current version
    pub fn check_version(&self) -> (r: Result<(), RepositoryError>)
        ensures
            self.spec_version() == VERSION@ ==> r is Ok,
            self.spec_version() != VERSION@ ==> (r matches Err(RepositoryError::InvalidVersion { expected, got })
                && expected@ == VERSION@ && got@ == self.spec_version()),
    {
        if str_eq(self.version.as_str(), VERSION) {
            Ok(())
        } else {
            Err(RepositoryError::InvalidVersion {
                expected: String::from_str(VERSION),
                got: self.version.clone(),
            })
        }
    }
}

/// Splits a name into directories of `n` characters followed by the whole
/// name: for `ABCDE` and 2, `AB/CD/ABCDE`. Only chunks that leave characters
/// after them become directories.
pub open spec fn split_dirs(name: Seq<char>, n: nat) -> Seq<char>
    decreases name.len(),
{
    if n == 0 || name.len() <= n {
        Seq::empty()
    } else {
        name.take(n as int) + seq!['/'] + split_dirs(name.skip(n as int), n)
    }
}

/// `split_dirs` followed by the whole name
pub open spec fn spec_split_path(name: Seq<char>, n: nat) -> Seq<char> {
    split_dirs(name, n) + name
}

/// Splits a name into a relative path of `n`-character directories ending
/// with the whole name (see `split_dirs`)
pub fn split_path(name: &str, n: usize) -> (res: String)
    requires
        n > 0,
    ensures
        res@ == spec_split_path(name@, n as nat),
{
    let cs = chars_of(name);
    let mut out: Vec<char> = Vec::new();
    let mut pos: usize = 0;
    proof {
        assert(cs@.skip(0) == cs@);
    }
    while cs.len() - pos > n
        invariant
            pos <= cs@.len(),
            cs@ == name@,
            n > 0,
            out@ + split_dirs(cs@.skip(pos as int), n as nat) == split_dirs(cs@, n as nat),
        decreases cs@.len() - pos,
    {
        let ghost rest = cs@.skip(pos as int);
        let mut k: usize = 0;
        let ghost out0 = out@;
        while k < n
            invariant
                k <= n,
                pos + n < cs@.len(),
                cs@.len() <= usize::MAX,
                out@ == out0 + cs@.subrange(pos as int, pos + k),
            decreases n - k,
        {
            proof {
                assert(cs@.subrange(pos as int, pos + k + 1) == cs@.subrange(pos as int, pos + k).push(cs@[pos + k]));
            }
            out.push(cs[pos + k]);
            k = k + 1;
        }
        out.push('/');
        proof {
            assert(rest.take(n as int) == cs@.subrange(pos as int, pos + n));
            assert(rest.skip(n as int) == cs@.skip(pos + n));
            assert(out@ == out0 + rest.take(n as int) + seq!['/']);
        }
        pos = pos + n;
    }
    proof {
        assert(split_dirs(cs@.skip(pos as int), n as nat) == Seq::<char>::empty());
    }
    let mut i: usize = 0;
    let ghost dirs = out@;
    while i < cs.len()
        invariant
            i <= cs@.len(),
            out@ == dirs + cs@.take(i as int),
        decreases cs@.len() - i,
    {
        proof {
            assert(cs@.take(i + 1) == cs@.take(i as int).push(cs@[i as int]));
        }
        out.push(cs[i]);
        i = i + 1;
    }
    proof {
        assert(cs@.take(cs@.len() as int) == cs@);
    }
    string_of(out.as_slice())
}

/// The content of a link file standing for the record directory named
/// `encoded_hash`, relative to an item directory
pub fn record_link(encoded_hash: &str) -> (res: String)
    ensures
        res@ == "../../"@ + RECORDS_PATH@ + "/"@ + spec_split_path(encoded_hash@, 2),
{
    let p = split_path(encoded_hash, 2);
    let a = concat("../../", RECORDS_PATH);
    let b = concat(a.as_str(), "/");
    concat(b.as_str(), p.as_str())
}

/// Calls `std::str::from_utf8`, which returns the text the bytes encode when
/// they are valid UTF-8 and an error otherwise.
#[verifier::external_body]
pub(crate) fn utf8_text(bytes: &[u8]) -> (res: Option<String>)
    ensures
        res is Some <==> vstd::utf8::valid_utf8(bytes@),
        res matches Some(t) ==> t@ == vstd::utf8::decode_utf8(bytes@),
{
    match std::str::from_utf8(bytes) {
        Ok(t) => Some(t.to_string()),
        Err(_) => None,
    }
}

/// How a record file is presented when a record is serialized
#[derive(Debug)]
pub enum FileValue {
    /// The file's content, when it is valid UTF-8
    Text(String),
    /// Marks a file whose content is not valid UTF-8
    Binary,
}

/// The name of the file that marks a record with type `typ`
pub open spec fn type_file_name(typ: Seq<char>) -> Seq<char> {
    ".type/"@ + typ
}

/// Whether files hold the type file of `typ`
pub open spec fn files_have_type(files: Seq<FileView>, typ: Seq<char>) -> bool {
    exists|i: int| 0 <= i < files.len() && #[trigger] files[i].0 == type_file_name(typ)
}

/// Byte-wise equality
pub fn bytes_eq(a: &[u8], b: &[u8]) -> (res: bool)
    ensures
        res == (a@ == b@),
{
    if a.len() != b.len() {
        return false;
    }
    let mut i: usize = 0;
    while i < a.len()
        invariant
            i <= a@.len(),
            a@.len() == b@.len(),
            forall|j: int| 0 <= j < i ==> a@[j] == b@[j],
        decreases a@.len() - i,
    {
        if a[i] != b[i] {
            return false;
        }
        i = i + 1;
    }
    proof {
        assert(a@ =~= b@);
    }
    true
}

/// A record: its hash, the encoding of its name, where it is stored and its files
pub struct Record {
    hash: Vec<u8>,
    encoding: Encoding,
    path: String,
    files: Vec<File>,
}

/// A record as a value: hash, encoding, path and files
pub type RecordView = (Seq<u8>, Encoding, Seq<char>, Seq<FileView>);

impl View for Record {
    type V = RecordView;

    open spec fn view(&self) -> RecordView {
        (self.spec_hash(), self.spec_encoding(), self.spec_path(), self.spec_files())
    }
}

impl Record {
    #[verifier::type_invariant]
    spec fn inv(self) -> bool {
        self.hash@.len() <= usize::MAX / 512
    }

    /// The record's hash
    pub closed spec fn spec_hash(self) -> Seq<u8> {
        self.hash@
    }

    /// The encoding of the record's name
    pub closed spec fn spec_encoding(self) -> Encoding {
        self.encoding
    }

    /// Where the record is stored
    pub closed spec fn spec_path(self) -> Seq<char> {
        self.path@
    }

    /// The record's files
    pub closed spec fn spec_files(self) -> Seq<FileView> {
        views(self.files@)
    }

    /// The record's name: its encoded hash
    pub open spec fn spec_encoded_hash(self) -> Seq<char> {
        self.spec_encoding().spec_encode(self.spec_hash())
    }

    /// Whether the record holds the type file of `typ`
    pub open spec fn spec_has_type(self, typ: Seq<char>) -> bool {
        files_have_type(self.spec_files(), typ)
    }

    /// Assembles a record
    pub fn new(hash: Vec<u8>, encoding: Encoding, path: String, files: Vec<File>) -> (r: Record)
        requires
            hash@.len() <= usize::MAX / 512,
        ensures
            r.spec_hash() == hash@,
            r.spec_encoding() == encoding,
            r.spec_path() == path@,
            r.spec_files() == views(files@),
    {
        Record { hash, encoding, path, files }
    }

    /// Returns record hash
    pub fn hash(&self) -> (h: Vec<u8>)
        ensures
            h@ == self.spec_hash(),
    {
        let h = self.hash.clone();
        proof {
            assert(h@ =~= self.hash@);
        }
        h
    }

    /// Returns encoded record hash
    pub fn encoded_hash(&self) -> (s: String)
        ensures
            s@ == self.spec_encoded_hash(),
    {
        proof {
            use_type_invariant(self);
        }
        self.encoding.encode(self.hash.as_slice())
    }

    /// Returns path to the record
    pub fn path(&self) -> (p: &str)
        ensures
            p@ == self.spec_path(),
    {
        self.path.as_str()
    }

    /// Returns the record's files
    pub fn files(&self) -> (f: &Vec<File>)
        ensures
            views(f@) == self.spec_files(),
    {
        &self.files
    }

    /// The record's name split into directories of `n` characters
    pub fn split_path(&self, n: usize) -> (p: String)
        requires
            n > 0,
        ensures
            p@ == spec_split_path(self.spec_encoded_hash(), n as nat),
    {
        let e = self.encoded_hash();
        split_path(e.as_str(), n)
    }

    /// Whether the record has type `typ`, that is, a file named `.type/` and `typ`
    pub fn has_type(&self, typ: &str) -> (res: bool)
        ensures
            res == self.spec_has_type(typ@),
    {
        let expected = concat(".type/", typ);
        let mut i: usize = 0;
        while i < self.files.len()
            invariant
                i <= self.files@.len(),
                expected@ == type_file_name(typ@),
                forall|k: int| 0 <= k < i ==> #[trigger] self.files@[k].name@ != expected@,
            decreases self.files@.len() - i,
        {
            if str_eq(self.files[i].name.as_str(), expected.as_str()) {
                proof {
                    assert(self.spec_files()[i as int].0 == type_file_name(typ@));
                }
                return true;
            }
            i = i + 1;
        }
        proof {
            assert forall|k: int| 0 <= k < self.spec_files().len() implies #[trigger] self.spec_files()[k].0 != type_file_name(typ@) by {
                assert(self.spec_files()[k] == self.files@[k]@);
            }
        }
        false
    }

    /// The first file named `name`
    pub fn file(&self, name: &str) -> (res: Option<&File>)
        ensures
            res is None <==> first_named(self.spec_files(), name@) == self.spec_files().len(),
            res matches Some(f) ==> first_named(self.spec_files(), name@) < self.spec_files().len()
                && f@ == self.spec_files()[first_named(self.spec_files(), name@)],
    {
        let mut i: usize = 0;
        while i < self.files.len()
            invariant
                i <= self.files@.len(),
                forall|k: int| 0 <= k < i ==> #[trigger] self.files@[k].name@ != name@,
            decreases self.files@.len() - i,
        {
            if str_eq(self.files[i].name.as_str(), name) {
                proof {
                    assert(self.spec_files()[i as int] == self.files@[i as int]@);
                    assert forall|m: int| 0 <= m < i implies #[trigger] self.spec_files()[m].0 != name@ by {
                        assert(self.spec_files()[m] == self.files@[m]@);
                    }
                    lemma_first_named(self.spec_files(), name@, i as int);
                }
                return Some(&self.files[i]);
            }
            i = i + 1;
        }
        proof {
            assert forall|k: int| 0 <= k < self.spec_files().len() implies #[trigger] self.spec_files()[k].0 != name@ by {
                assert(self.spec_files()[k] == self.files@[k]@);
            }
            lemma_first_named(self.spec_files(), name@, self.spec_files().len() as int);
        }
        None
    }

    /// Whether the record's files still hash to the record's hash
    pub fn integrity_intact(&self, hashing_algorithm: &HashingAlgorithm) -> (res: bool)
        requires
            hashing_algorithm.valid(),
        ensures
            res == (hashing_algorithm.digest(hash_input(sort_by_name(self.spec_files()))) == self.spec_hash()),
    {
        let mut copies: Vec<File> = Vec::new();
        let mut i: usize = 0;
        while i < self.files.len()
            invariant
                i <= self.files@.len(),
                views(copies@) == views(self.files@).take(i as int),
            decreases self.files@.len() - i,
        {
            let c = self.files[i].duplicate();
            proof {
                crate::record::lemma_views_push(copies@, c);
                assert(views(self.files@)[i as int] == self.files@[i as int]@);
                assert(views(self.files@).take(i + 1) == views(self.files@).take(i as int).push(views(self.files@)[i as int]));
            }
            copies.push(c);
            i = i + 1;
        }
        proof {
            assert(views(self.files@).take(self.files@.len() as int) == views(self.files@));
        }
        let ordered = OrderedFiles::from(copies);
        let mut hasher = hashing_algorithm.hasher();
        ordered.hash(&mut hasher);
        proof {
            assert(Seq::<u8>::empty() + hash_input(sort_by_name(self.spec_files())) == hash_input(sort_by_name(self.spec_files())));
        }
        let digest = hasher.result();
        bytes_eq(digest.as_slice(), self.hash.as_slice())
    }

    /// The record's files as they are serialized: text when the content is
    /// valid UTF-8, otherwise marked binary
    pub fn file_values(&self) -> (res: Vec<(String, FileValue)>)
        ensures
            res@.len() == self.spec_files().len(),
            forall|k: int| 0 <= k < res@.len() ==> {
                &&& (#[trigger] res@[k]).0@ == self.spec_files()[k].0
                &&& vstd::utf8::valid_utf8(self.spec_files()[k].1) ==>
                    (res@[k].1 matches FileValue::Text(t) && t@ == vstd::utf8::decode_utf8(self.spec_files()[k].1))
                &&& !vstd::utf8::valid_utf8(self.spec_files()[k].1) ==> res@[k].1 is Binary
            },
    {
        let mut res: Vec<(String, FileValue)> = Vec::new();
        let mut i: usize = 0;
        while i < self.files.len()
            invariant
                i <= self.files@.len(),
                res@.len() == i,
                forall|k: int| 0 <= k < i ==> {
                    &&& (#[trigger] res@[k]).0@ == self.files@[k].name@
                    &&& vstd::utf8::valid_utf8(self.files@[k].content@) ==>
                        (res@[k].1 matches FileValue::Text(t) && t@ == vstd::utf8::decode_utf8(self.files@[k].content@))
                    &&& !vstd::utf8::valid_utf8(self.files@[k].content@) ==> res@[k].1 is Binary
                },
            decreases self.files@.len() - i,
        {
            let f = &self.files[i];
            let value = match utf8_text(f.content.as_slice()) {
                Some(t) => FileValue::Text(t),
                None => FileValue::Binary,
            };
            res.push((f.name.clone(), value));
            i = i + 1;
        }
        proof {
            assert forall|k: int| 0 <= k < res@.len() implies #[trigger] self.spec_files()[k] == self.files@[k]@ by {}
        }
        res
    }

    /// Whether two records have the same hash (records are equal by hash)
    pub fn same_hash(&self, other: &Record) -> (res: bool)
        ensures
            res == (self.spec_hash() == other.spec_hash()),
    {
        bytes_eq(self.hash.as_slice(), other.hash.as_slice())
    }
}

/// Whether a record's files still hash to its hash under `alg`
pub open spec fn record_intact(alg: HashingAlgorithm, r: RecordView) -> bool {
    alg.digest(hash_input(sort_by_name(r.3))) == r.0
}

/// The values of records
pub open spec fn record_views(rs: Seq<Record>) -> Seq<RecordView> {
    rs.map_values(|r: Record| r@)
}

/// The records that an integrity check lets through, in order: all of them
/// when the check is off, those whose files still hash to their hash otherwise
pub open spec fn intact_records(rs: Seq<RecordView>, integrity_check: bool, alg: HashingAlgorithm) -> Seq<RecordView>
    decreases rs.len(),
{
    if rs.len() == 0 {
        Seq::empty()
    } else {
        let prev = intact_records(rs.drop_last(), integrity_check, alg);
        if !integrity_check || record_intact(alg, rs.last()) {
            prev.push(rs.last())
        } else {
            prev
        }
    }
}

/// The integrity check lets through exactly the records whose files still
/// hash to their hash; with the check off it lets every record through, in
/// order.
pub proof fn law_integrity_filter(rs: Seq<RecordView>, alg: HashingAlgorithm)
    ensures
        intact_records(rs, false, alg) == rs,
        forall|i: int| 0 <= i < intact_records(rs, true, alg).len() ==>
            record_intact(alg, #[trigger] intact_records(rs, true, alg)[i]),
        forall|i: int| 0 <= i < rs.len() ==>
            (intact_records(rs, true, alg).contains(#[trigger] rs[i]) <==> record_intact(alg, rs[i])),
    decreases rs.len(),
{
    if rs.len() > 0 {
        let d = rs.drop_last();
        law_integrity_filter(d, alg);
        assert(d.push(rs.last()) =~= rs);
        let kept = intact_records(rs, true, alg);
        let prev = intact_records(d, true, alg);
        assert forall|i: int| 0 <= i < rs.len() implies
            (kept.contains(#[trigger] rs[i]) <==> record_intact(alg, rs[i])) by {
            if i < rs.len() - 1 {
                assert(rs[i] == d[i]);
                if record_intact(alg, rs.last()) {
                    assert(kept == prev.push(rs.last()));
                    if prev.contains(rs[i]) {
                        let k = choose|k: int| 0 <= k < prev.len() && prev[k] == rs[i];
                        assert(kept[k] == rs[i]);
                    }
                    if kept.contains(rs[i]) && !prev.contains(rs[i]) {
                        let k = choose|k: int| 0 <= k < kept.len() && kept[k] == rs[i];
                        if k < prev.len() {
                            assert(prev[k] == kept[k]);
                        } else {
                            assert(kept[k] == rs.last());
                        }
                    }
                }
            } else {
                if record_intact(alg, rs.last()) {
                    assert(kept[kept.len() - 1] == rs.last());
                } else {
                    if kept.contains(rs[i]) {
                        let k = choose|k: int| 0 <= k < kept.len() && kept[k] == rs[i];
                        assert(record_intact(alg, kept[k]));
                    }
                }
            }
        }
    }
}

/// Keeps the records of a generation that the integrity check lets through
pub fn keep_intact(records: Vec<Record>, integrity_check: bool, alg: &HashingAlgorithm) -> (res: Vec<Record>)
    requires
        alg.valid(),
    ensures
        record_views(res@) == intact_records(record_views(records@), integrity_check, *alg),
{
    let ghost all = record_views(records@);
    let mut res: Vec<Record> = Vec::new();
    let mut rest = records;
    let mut taken: Vec<Record> = Vec::new();
    // move the records out back to front, then go through them front to back
    while rest.len() > 0
        invariant
            record_views(rest@) + record_views(taken@).reverse() == all,
        decreases rest@.len(),
    {
        let r = rest.pop().unwrap();
        proof {
            assert(record_views(rest@.push(r)) == record_views(rest@).push(r@));
            assert(record_views(taken@.push(r)) == record_views(taken@).push(r@));
            assert(record_views(taken@).push(r@).reverse() == seq![r@] + record_views(taken@).reverse());
        }
        taken.push(r);
        proof {
            assert(record_views(rest@) + record_views(taken@).reverse() =~= all);
        }
    }
    proof {
        assert(record_views(rest@) == Seq::<RecordView>::empty());
        assert(record_views(taken@).reverse() =~= all);
    }
    let ghost n = all.len();
    while taken.len() > 0
        invariant
            alg.valid(),
            n == all.len(),
            record_views(taken@).reverse() == all.skip(n - taken@.len()),
            taken@.len() <= n,
            record_views(res@) == intact_records(all.take(n - taken@.len()), integrity_check, *alg),
        decreases taken@.len(),
    {
        let ghost before = taken@;
        let r = taken.pop().unwrap();
        let ghost i = n - before.len();
        proof {
            assert(record_views(before) == record_views(taken@).push(r@));
            assert(record_views(before).reverse() =~= seq![r@] + record_views(taken@).reverse());
            assert(all.skip(i)[0] == r@);
            assert(all[i] == r@);
            assert((seq![r@] + record_views(taken@).reverse()).drop_first() =~= record_views(taken@).reverse());
            assert(all.skip(i + 1) =~= all.skip(i).drop_first());
            assert(record_views(taken@).reverse() =~= all.skip(i + 1));
            assert(all.take(i + 1).drop_last() =~= all.take(i));
            assert(all.take(i + 1).last() == all[i]);
        }
        if !integrity_check || r.integrity_intact(alg) {
            proof {
                assert(record_views(res@.push(r)) =~= record_views(res@).push(r@));
            }
            res.push(r);
        }
    }
    proof {
        assert(all.take(n as int) =~= all);
    }
    res
}

/// The components of `RelativePath::new(name).normalize()`, each as its
/// `Component::as_str` gives it (`.` and `..` for the current and parent
/// directory).
pub uninterp spec fn normalized_components(name: Seq<char>) -> Seq<Seq<char>>;

/// Calls `relative_path::RelativePath::normalize` on `name` and lists the
/// components of the result with `components()` and `Component::as_str`.
#[verifier::external_body]
fn relative_components(name: &str) -> (res: Vec<String>)
    ensures
        res@.map_values(|c: String| c@) == normalized_components(name@),
{
    relative_path::RelativePath::new(name)
        .normalize()
        .components()
        .map(|c| c.as_str().to_string())
        .collect()
}

/// Whether a path component is `.` or `..`
pub open spec fn special_component(c: Seq<char>) -> bool {
    c == "."@ || c == ".."@
}

/// Whether a normalized record file name leaves the record (or names it):
/// one of its components is `.` or `..`
pub open spec fn escapes_record(name: Seq<char>) -> bool {
    exists|i: int| 0 <= i < normalized_components(name).len() && special_component(#[trigger] normalized_components(name)[i])
}

/// Components joined with `/`
pub open spec fn join_components(cs: Seq<Seq<char>>) -> Seq<char>
    decreases cs.len(),
{
    if cs.len() == 0 {
        Seq::empty()
    } else if cs.len() == 1 {
        cs[0]
    } else {
        join_components(cs.drop_last()) + "/"@ + cs.last()
    }
}

/// The path a record file is stored under, relative to the record
pub open spec fn stored_name(name: Seq<char>) -> Seq<char> {
    join_components(normalized_components(name))
}

/// Checks a record file name and gives the relative path it is stored
/// under; `PathPrefixError` when the name would leave the record
pub fn record_file_path(name: &str) -> (res: Result<String, RepositoryError>)
    ensures
        escapes_record(name@) ==> res matches Err(RepositoryError::PathPrefixError),
        !escapes_record(name@) ==> (res matches Ok(p) && p@ == stored_name(name@)),
{
    let comps = relative_components(name);
    let ghost cv = comps@.map_values(|c: String| c@);
    let mut joined = String::new();
    let mut i: usize = 0;
    proof {
        reveal_strlit(".");
        reveal_strlit("..");
        reveal_strlit("/");
        assert(cv.take(0) =~= Seq::<Seq<char>>::empty());
    }
    while i < comps.len()
        invariant
            i <= comps@.len(),
            cv == comps@.map_values(|c: String| c@),
            cv == normalized_components(name@),
            forall|k: int| 0 <= k < i ==> !special_component(#[trigger] cv[k]),
            joined@ == join_components(cv.take(i as int)),
        decreases comps@.len() - i,
    {
        let c = chars_of(comps[i].as_str());
        proof {
            assert(cv[i as int] == comps@[i as int]@);
        }
        if crate::text::chars_eq(c.as_slice(), chars_of(".").as_slice())
            || crate::text::chars_eq(c.as_slice(), chars_of("..").as_slice()) {
            proof {
                assert(special_component(normalized_components(name@)[i as int]));
            }
            return Err(RepositoryError::PathPrefixError);
        }
        proof {
            assert(cv.take(i + 1).drop_last() == cv.take(i as int));
            assert(cv.take(i + 1).last() == cv[i as int]);
        }
        if i == 0 {
            proof {
                assert(cv.take(1) =~= seq![cv[0]]);
            }
            joined = comps[i].clone();
        } else {
            let with_sep = concat(joined.as_str(), "/");
            joined = concat(with_sep.as_str(), comps[i].as_str());
        }
        i = i + 1;
    }
    proof {
        assert(cv.take(cv.len() as int) == cv);
    }
    Ok(joined)
}

/// The name of the file that links a record to its parent named `encoded`
pub open spec fn parent_link_name(encoded: Seq<char>) -> Seq<char> {
    ".prev/"@ + encoded
}

/// The link files to `parents`: one empty file `.prev/` followed by the
/// parent's name, per parent
pub open spec fn parent_links(parents: Seq<Record>) -> Seq<FileView> {
    parents.map_values(|r: Record| (parent_link_name(r.spec_encoded_hash()), Seq::<u8>::empty()))
}

/// Link files to every record of `parents`, ordered by name
pub fn parent_files(parents: &Vec<Record>) -> (res: OrderedFiles)
    ensures
        res.files() == sort_by_name(parent_links(parents@)),
{
    let mut files: Vec<File> = Vec::new();
    let mut i: usize = 0;
    while i < parents.len()
        invariant
            i <= parents@.len(),
            views(files@) == parent_links(parents@).take(i as int),
        decreases parents@.len() - i,
    {
        let name = concat(".prev/", parents[i].encoded_hash().as_str());
        let f = File::new(name, Vec::new());
        proof {
            crate::record::lemma_views_push(files@, f);
            assert(f@ == parent_links(parents@)[i as int]);
            assert(parent_links(parents@).take(i + 1) == parent_links(parents@).take(i as int).push(parent_links(parents@)[i as int]));
        }
        files.push(f);
        i = i + 1;
    }
    proof {
        assert(parent_links(parents@).take(parents@.len() as int) == parent_links(parents@));
    }
    OrderedFiles::from(files)
}

/// A record ready to be written: its hash, the directory it goes to and the
/// files it holds, each under the relative path it is stored at
pub struct NewRecord {
    /// The record's hash
    pub hash: Vec<u8>,
    /// The directory of the record
    pub path: String,
    /// Relative paths and contents of the record's files
    pub files: Vec<(String, Vec<u8>)>,
}

impl NewRecord {
    /// Whether this is the record made of `all` under `dir` with `config`: its
    /// hash is the digest of the files' hashing stream, its directory is
    /// named after the encoded hash, and its files are `all` under their
    /// stored names
    pub open spec fn prepared_from(self, config: Config, dir: Seq<char>, all: Seq<FileView>) -> bool {
        &&& self.hash@ == config.spec_hashing_algorithm().digest(hash_input(all))
        &&& self.path@ == record_dir(dir, config.spec_encoding(), self.hash@)
        &&& self.files@.len() == all.len()
        &&& forall|i: int| 0 <= i < all.len() ==> (#[trigger] self.files@[i]).0@ == stored_name(all[i].0)
            && self.files@[i].1@ == all[i].1
    }
}

/// A new record reads back intact: when every name of the (name-ordered)
/// files it is made of is stored as it was given, the files it holds hash
/// to its hash, so the integrity check lets it through.
pub proof fn law_new_record_intact(r: NewRecord, config: Config, dir: Seq<char>, all: Seq<FileView>)
    requires
        r.prepared_from(config, dir, all),
        sorted_by_name(all),
        forall|i: int| 0 <= i < all.len() ==> stored_name(#[trigger] all[i].0) == all[i].0,
    ensures
        record_intact(config.spec_hashing_algorithm(),
            (r.hash@, config.spec_encoding(), r.path@, r.files@.map_values(|p: (String, Vec<u8>)| (p.0@, p.1@)))),
{
    let stored = r.files@.map_values(|p: (String, Vec<u8>)| (p.0@, p.1@));
    assert(stored =~= all);
    crate::record::lemma_sort_sorted(all);
}

/// New records do not depend on the order their files are given in: two
/// records prepared under the same directory from files with distinct names
/// given in any two orders (each ordered by name, as `OrderedFiles::from`
/// orders them) have the same hash, the same directory and the same stored
/// files.
pub proof fn law_new_record_order_independent(r1: NewRecord, r2: NewRecord, config: Config, dir: Seq<char>,
    a: Seq<FileView>, b: Seq<FileView>)
    requires
        a.to_multiset() == b.to_multiset(),
        crate::record::distinct_names(a),
        r1.prepared_from(config, dir, sort_by_name(a)),
        r2.prepared_from(config, dir, sort_by_name(b)),
    ensures
        r1.hash@ == r2.hash@,
        r1.path@ == r2.path@,
        r1.files@.len() == r2.files@.len(),
        forall|i: int| 0 <= i < r1.files@.len() ==>
            (#[trigger] r1.files@[i]).0@ == r2.files@[i].0@ && r1.files@[i].1@ == r2.files@[i].1@,
{
    crate::record::law_order_independent_hashing(a, b);
}

/// Whether a record file cannot be stored under `name`: the name leaves the
/// record, or it names the record's own directory (its stored path is empty)
pub open spec fn unstorable(name: Seq<char>) -> bool {
    escapes_record(name) || stored_name(name).len() == 0
}

/// Whether the `k`-th file of `all` is the first whose name cannot be stored
pub open spec fn first_unstorable(all: Seq<FileView>, k: int) -> bool {
    &&& 0 <= k < all.len()
    &&& unstorable(all[k].0)
    &&& forall|j: int| 0 <= j < k ==> !unstorable(#[trigger] all[j].0)
}

/// The files a new record is made of: the given files, merged with links to
/// `parents` when parents are linked
pub open spec fn new_record_files(files: Seq<FileView>, parents: Seq<Record>, link_parents: bool) -> Seq<FileView> {
    if link_parents {
        sort_by_name(files + sort_by_name(parent_links(parents)))
    } else {
        files
    }
}

/// The directory of a record with hash `hash` stored under `dir`
pub open spec fn record_dir(dir: Seq<char>, encoding: Encoding, hash: Seq<u8>) -> Seq<char> {
    dir + "/"@ + spec_split_path(encoding.spec_encode(hash), 2)
}

/// Only one file can be the first whose name cannot be stored
proof fn lemma_first_unstorable_unique(all: Seq<FileView>, i: int)
    requires
        0 <= i < all.len(),
        unstorable(all[i].0),
        forall|k: int| 0 <= k < i ==> !unstorable(#[trigger] all[k].0),
    ensures
        first_unstorable(all, i),
        forall|k: int| #[trigger] first_unstorable(all, k) ==> k == i,
{
    assert forall|k: int| #[trigger] first_unstorable(all, k) implies k == i by {
        if k < i {
            assert(!unstorable(all[k].0));
        } else if k > i {
            assert(!unstorable(all[i].0));
        }
    }
}

/// The error `std::io::Error::from(ErrorKind::IsADirectory)`: what creating a
/// file gives where a directory stands.
#[verifier::external_body]
fn is_a_directory_error() -> (e: std::io::Error) {
    std::io::Error::from(std::io::ErrorKind::IsADirectory)
}

/// Prepares a new record under directory `dir`. When `link_parents` is set,
/// the record links to every record of `parents` (the latest generation of
/// the repository's records). Files are taken in name order and the first
/// whose name cannot be stored decides the error: `PathPrefixError` when the
/// name would leave the record, `IoError` when it names the record's own
/// directory (such as `.`), where no file can be created.
pub fn plan_new_record(config: &Config, dir: &str, files: OrderedFiles, link_parents: bool, parents: &Vec<Record>)
    -> (res: Result<NewRecord, RepositoryError>)
    requires
        config.spec_hashing_algorithm().valid(),
        config.spec_hashing_algorithm().spec_len() <= usize::MAX / 512,
    ensures
        forall|k: int| #![trigger first_unstorable(new_record_files(files.files(), parents@, link_parents), k)]
            first_unstorable(new_record_files(files.files(), parents@, link_parents), k) ==> {
                let name = new_record_files(files.files(), parents@, link_parents)[k].0;
                &&& (escapes_record(name) ==> (res matches Err(RepositoryError::PathPrefixError)))
                &&& (!escapes_record(name) ==> (res matches Err(RepositoryError::IoError(_))))
            },
        (forall|k: int| 0 <= k < new_record_files(files.files(), parents@, link_parents).len() ==>
            !unstorable(#[trigger] new_record_files(files.files(), parents@, link_parents)[k].0)) ==>
            (res matches Ok(r) && r.prepared_from(*config, dir@, new_record_files(files.files(), parents@, link_parents))),
{
    let ghost given = files.files();
    let merged = if link_parents {
        files.add(parent_files(parents))
    } else {
        files
    };
    let ghost all = merged.files();
    assert(all == new_record_files(given, parents@, link_parents));
    // every name is checked before anything is hashed
    let mut stored: Vec<(String, Vec<u8>)> = Vec::new();
    let mut i: usize = 0;
    let entries = merged.entries();
    let n = entries.len();
    while i < n
        invariant
            i <= n,
            n == entries@.len(),
            all == merged.files(),
            given == files.files(),
            all == views(entries@),
            all == new_record_files(given, parents@, link_parents),
            stored@.len() == i,
            forall|k: int| 0 <= k < i ==> !unstorable(#[trigger] all[k].0),
            forall|k: int| 0 <= k < i ==> (#[trigger] stored@[k]).0@ == stored_name(all[k].0)
                && stored@[k].1@ == all[k].1,
        decreases n - i,
    {
        let f = &entries[i];
        let p = record_file_path(f.name.as_str());
        proof {
            assert(all[i as int] == f@);
        }
        match p {
            Err(e) => {
                proof {
                    assert(escapes_record(all[i as int].0));
                    lemma_first_unstorable_unique(all, i as int);
                }
                return Err(e);
            },
            Ok(p) => {
                if p.as_str().unicode_len() == 0 {
                    proof {
                        assert(!escapes_record(all[i as int].0));
                        assert(unstorable(all[i as int].0));
                        lemma_first_unstorable_unique(all, i as int);
                    }
                    return Err(RepositoryError::IoError(is_a_directory_error()));
                }
                let c = f.content.clone();
                proof {
                    assert(c@ =~= f.content@);
                }
                stored.push((p, c));
            },
        }
        i = i + 1;
    }
    let mut hasher = config.hashing_algorithm().hasher();
    merged.hash(&mut hasher);
    proof {
        assert(Seq::<u8>::empty() + hash_input(all) == hash_input(all));
    }
    let hash = hasher.result();
    let encoded = config.encoding().encode(hash.as_slice());
    let split = split_path(encoded.as_str(), 2);
    let with_sep = concat(dir, "/");
    let path = concat(with_sep.as_str(), split.as_str());
    Ok(NewRecord { hash, path, files: stored })
}

} // verus!
