//! The decisions of the command-line client: which files a new record is
//! made of, what a signature signs, which expression a query runs, where
//! external commands are searched, how a rebuilt repository renames its
//! links, and which records fail the integrity check

use vstd::prelude::*;
use crate::cfg::{Author, author_text};
use crate::encoding::Encoding;
use crate::hash::HashingAlgorithm;
use crate::record::{File, FileView, OrderedFiles, hash_input, sort_by_name, views};
use crate::repository::{type_file_name, RecordView, Record, record_intact, record_views};
use crate::text::{chars_of, concat, is_prefix, string_of};

verus! {

/// What `chrono` writes for the UTC time `secs` seconds and `nanos`
/// nanoseconds after the epoch with the `Debug` format of a
/// `DateTime<Utc>`, or `None` where that time is out of its range
pub uninterp spec fn utc_debug_text(secs: i64, nanos: u32) -> Option<Seq<char>>;

/// Calls `chrono::DateTime::<Utc>::from_timestamp` and formats the time with
/// `{:?}`; `None` where chrono cannot represent the time
#[verifier::external_body]
fn utc_text(secs: i64, nanos: u32) -> (res: Option<String>)
    ensures
        match res {
            Some(t) => utc_debug_text(secs, nanos) == Some(t@),
            None => utc_debug_text(secs, nanos) is None,
        },
{
    match chrono::DateTime::<chrono::Utc>::from_timestamp(secs, nanos) {
        Some(d) => Some(format!("{:?}", d)),
        None => None,
    }
}

/// The pieces of a comma-separated list, as `str::split(',')` gives them
/// (an empty list is one empty piece)
pub open spec fn split_commas(s: Seq<char>) -> Seq<Seq<char>>
    decreases s.len(),
{
    if s.len() == 0 {
        seq![Seq::empty()]
    } else {
        let p = split_commas(s.drop_last());
        if s.last() == ',' {
            p.push(Seq::empty())
        } else {
            p.update(p.len() - 1, p.last().push(s.last()))
        }
    }
}

proof fn lemma_split_commas_len(s: Seq<char>)
    ensures
        split_commas(s).len() >= 1,
    decreases s.len(),
{
    if s.len() > 0 {
        lemma_split_commas_len(s.drop_last());
    }
}

/// The values of strings
pub open spec fn strings_view(s: Seq<String>) -> Seq<Seq<char>> {
    s.map_values(|x: String| x@)
}

/// Splits a comma-separated list (`str::split(',')`)
pub fn split_commas_exec(s: &str) -> (res: Vec<String>)
    ensures
        strings_view(res@) == split_commas(s@),
{
    let cs = chars_of(s);
    let mut out: Vec<String> = Vec::new();
    let mut cur: Vec<char> = Vec::new();
    let mut i: usize = 0;
    proof {
        assert(cs@.take(0) =~= Seq::<char>::empty());
        assert(strings_view(out@).push(cur@) =~= seq![Seq::<char>::empty()]);
    }
    while i < cs.len()
        invariant
            i <= cs@.len(),
            strings_view(out@).push(cur@) == split_commas(cs@.take(i as int)),
        decreases cs@.len() - i,
    {
        let ghost before = strings_view(out@).push(cur@);
        proof {
            lemma_split_commas_len(cs@.take(i as int));
            assert(cs@.take(i + 1).drop_last() =~= cs@.take(i as int));
            assert(cs@.take(i + 1).last() == cs@[i as int]);
        }
        if cs[i] == ',' {
            let piece = string_of(cur.as_slice());
            out.push(piece);
            cur = Vec::new();
            proof {
                assert(strings_view(out@) =~= before);
                assert(strings_view(out@).push(cur@) =~= before.push(Seq::empty()));
            }
        } else {
            cur.push(cs[i]);
            proof {
                assert(strings_view(out@).push(cur@) =~= before.update(before.len() - 1, before.last().push(cs@[i as int])));
            }
        }
        i = i + 1;
    }
    let last = string_of(cur.as_slice());
    out.push(last);
    proof {
        assert(cs@.take(cs@.len() as int) =~= cs@);
        assert(strings_view(out@) =~= split_commas(cs@));
    }
    out
}

/// One empty type file `.type/T` per type `T`
pub open spec fn type_files(types: Seq<Seq<char>>) -> Seq<FileView> {
    types.map_values(|t: Seq<char>| (type_file_name(t), Seq::<u8>::empty()))
}

/// The auxiliary files of a new record: its type files, the `.authors`
/// file and the `.timestamp` file, each where it is asked for
pub open spec fn aux_files(types: Option<Seq<char>>, authors: Option<Seq<char>>, timestamp: Option<Seq<char>>) -> Seq<FileView> {
    (match types {
        Some(t) => type_files(split_commas(t)),
        None => Seq::empty(),
    }) + (match authors {
        Some(a) => seq![(".authors"@, vstd::utf8::encode_utf8(a))],
        None => Seq::empty(),
    }) + (match timestamp {
        Some(t) => seq![(".timestamp"@, vstd::utf8::encode_utf8(t))],
        None => Seq::empty(),
    })
}

/// What the record's author is written as, where authorship is recorded
pub open spec fn recorded_author(author: Option<Author>, no_aux: bool, no_author: bool) -> Option<Seq<char>> {
    if !no_aux && !no_author {
        Some(author_text(author.unwrap()@))
    } else {
        None
    }
}

/// Appends a file named `name` holding `content`
fn push_file(files: &mut Vec<File>, name: String, content: Vec<u8>)
    ensures
        views(final(files)@) == views(old(files)@).push((name@, content@)),
{
    let f = File::new(name, content);
    proof {
        crate::record::lemma_views_push(files@, f);
    }
    files.push(f);
}

/// Why the files of a new record cannot be assembled
#[derive(Debug, Clone, Copy, PartialEq, Eq, Structural)]
pub enum RecordFilesError {
    /// No type is given, neither as a type nor as a `.type/` file
    NoType,
    /// The time is out of the range that can be written
    TimeOutOfRange,
}

/// Whether one of the files is a type file (its name starts with `.type/`)
pub open spec fn has_type_file(files: Seq<FileView>) -> bool {
    exists|i: int| 0 <= i < files.len() && is_prefix(".type/"@, #[trigger] files[i].0)
}

/// A record is typed by any `.type/` file it is given, wherever the file
/// stands among the others; and it counts as typed by its files only when
/// one of them is such a file. So `record_files` refuses with `NoType`
/// exactly when no type is given and no file name starts with `.type/`.
pub proof fn law_type_file_anywhere(files: Seq<FileView>)
    ensures
        forall|i: int| 0 <= i < files.len() && 6 <= files[i].0.len() && #[trigger] files[i].0.take(6) == ".type/"@
            ==> has_type_file(files),
        has_type_file(files) ==> exists|i: int| 0 <= i < files.len() && 6 <= files[i].0.len()
            && #[trigger] files[i].0.take(6) == ".type/"@,
{
    reveal_strlit(".type/");
    assert(".type/"@.len() == 6);
    assert forall|i: int| 0 <= i < files.len() && 6 <= files[i].0.len() && #[trigger] files[i].0.take(6) == ".type/"@
        implies has_type_file(files) by {
        assert(is_prefix(".type/"@, files[i].0));
    }
    if has_type_file(files) {
        let i = choose|i: int| 0 <= i < files.len() && is_prefix(".type/"@, #[trigger] files[i].0);
        assert(files[i].0.take(6) == ".type/"@);
    }
}

/// Whether one of the files is a type file
fn any_type_file(files: &OrderedFiles) -> (res: bool)
    ensures
        res == has_type_file(files.files()),
{
    proof {
        reveal_strlit(".type/");
    }
    let prefix = chars_of(".type/");
    let entries = files.entries();
    let mut i: usize = 0;
    while i < entries.len()
        invariant
            i <= entries@.len(),
            prefix@ == ".type/"@,
            views(entries@) == files.files(),
            forall|k: int| 0 <= k < i ==> !is_prefix(".type/"@, #[trigger] files.files()[k].0),
        decreases entries@.len() - i,
    {
        let name = chars_of(entries[i].name());
        proof {
            assert(files.files()[i as int] == entries@[i as int]@);
        }
        if crate::text::starts_with(name.as_slice(), prefix.as_slice()) {
            proof {
                assert(is_prefix(".type/"@, files.files()[i as int].0));
            }
            return true;
        }
        i = i + 1;
    }
    proof {
        assert(files.files().len() == entries@.len());
    }
    false
}

/// The files of a new record: the given files merged with one empty
/// `.type/T` file per comma-separated type `T`, with an `.authors` file
/// naming the author unless `no_aux` or `no_author` is set, and with a
/// `.timestamp` file holding the time `now` (seconds and nanoseconds since
/// the epoch) unless `no_aux` or `no_timestamp` is set. A record needs a
/// type: `NoType` when no type is given and no given file is a type file;
/// otherwise `TimeOutOfRange` where the time cannot be written.
pub fn record_files(files: OrderedFiles, types: Option<&str>, author: Option<&Author>, now: (i64, u32),
    no_aux: bool, no_author: bool, no_timestamp: bool) -> (res: Result<OrderedFiles, RecordFilesError>)
    requires
        !no_aux && !no_author ==> author is Some,
    ensures
        ({
            let want_ts = !no_aux && !no_timestamp;
            let untyped = types is None && !has_type_file(files.files());
            let authors = match author {
                Some(a) => recorded_author(Some(*a), no_aux, no_author),
                None => None,
            };
            let typ = match types {
                Some(t) => Some(t@),
                None => None,
            };
            &&& res == Err::<OrderedFiles, RecordFilesError>(RecordFilesError::NoType) <==> untyped
            &&& res == Err::<OrderedFiles, RecordFilesError>(RecordFilesError::TimeOutOfRange)
                <==> (!untyped && want_ts && utc_debug_text(now.0, now.1) is None)
            &&& res matches Ok(r) ==> r.files() == sort_by_name(files.files() + sort_by_name(aux_files(typ, authors,
                if want_ts { utc_debug_text(now.0, now.1) } else { None })))
        }),
{
    if types.is_none() && !any_type_file(&files) {
        return Err(RecordFilesError::NoType);
    }
    let mut aux: Vec<File> = Vec::new();
    let ghost typ = match types {
        Some(t) => Some(t@),
        None => None::<Seq<char>>,
    };
    let ghost type_part = match typ {
        Some(t) => type_files(split_commas(t)),
        None => Seq::<FileView>::empty(),
    };
    if let Some(t) = types {
        let pieces = split_commas_exec(t);
        let mut i: usize = 0;
        while i < pieces.len()
            invariant
                i <= pieces@.len(),
                typ == Some(t@),
                strings_view(pieces@) == split_commas(t@),
                views(aux@) == type_files(split_commas(t@)).take(i as int),
            decreases pieces@.len() - i,
        {
            let name = concat(".type/", pieces[i].as_str());
            proof {
                assert(strings_view(pieces@)[i as int] == pieces@[i as int]@);
                assert(type_files(split_commas(t@)).take(i + 1) =~= type_files(split_commas(t@)).take(i as int).push(
                    (type_file_name(pieces@[i as int]@), Seq::<u8>::empty())));
            }
            push_file(&mut aux, name, Vec::new());
            i = i + 1;
        }
        proof {
            assert(type_files(split_commas(t@)).take(pieces@.len() as int) =~= type_files(split_commas(t@)));
        }
    }
    proof {
        assert(views(aux@) =~= type_part);
    }
    let ghost authors_spec = match author {
        Some(a) => recorded_author(Some(*a), no_aux, no_author),
        None => None,
    };
    let ghost after_types = views(aux@);
    if !no_aux && !no_author {
        match author {
            Some(a) => {
                let text = a.to_string();
                let content = vstd::slice::slice_to_vec(text.as_str().as_bytes());
                proof {
                    reveal_strlit(".authors");
                }
                push_file(&mut aux, String::from_str(".authors"), content);
            },
            None => {},
        }
    }
    proof {
        assert(views(aux@) =~= after_types + (match authors_spec {
            Some(x) => seq![(".authors"@, vstd::utf8::encode_utf8(x))],
            None => Seq::<FileView>::empty(),
        }));
    }
    let ghost after_authors = views(aux@);
    if !no_aux && !no_timestamp {
        match utc_text(now.0, now.1) {
            None => {
                return Err(RecordFilesError::TimeOutOfRange);
            },
            Some(t) => {
                let content = vstd::slice::slice_to_vec(t.as_str().as_bytes());
                proof {
                    reveal_strlit(".timestamp");
                }
                push_file(&mut aux, String::from_str(".timestamp"), content);
            },
        }
    }
    proof {
        let ts = if !no_aux && !no_timestamp { utc_debug_text(now.0, now.1) } else { None };
        assert(views(aux@) =~= after_authors + (match ts {
            Some(x) => seq![(".timestamp"@, vstd::utf8::encode_utf8(x))],
            None => Seq::<FileView>::empty(),
        }));
        assert(views(aux@) =~= aux_files(typ, authors_spec, ts));
    }
    let extra = OrderedFiles::from(aux);
    Ok(files.add(extra))
}

/// What a signature of files signs: the name a record made of them gets
pub open spec fn signed_text(alg: HashingAlgorithm, encoding: Encoding, files: Seq<FileView>) -> Seq<char> {
    encoding.spec_encode(alg.digest(hash_input(files)))
}

/// The text that a signature of the files covers: the encoded hash of the
/// files
pub fn signature_payload(files: OrderedFiles, alg: &HashingAlgorithm, encoding: &Encoding) -> (res: String)
    requires
        alg.valid(),
        alg.spec_len() <= usize::MAX / 512,
    ensures
        res@ == signed_text(*alg, *encoding, files.files()),
{
    let ghost all = files.files();
    let mut hasher = alg.hasher();
    files.hash(&mut hasher);
    proof {
        assert(Seq::<u8>::empty() + hash_input(all) == hash_input(all));
    }
    let hash = hasher.result();
    encoding.encode(hash.as_slice())
}

/// The expression a query runs: the named one where it was found, else the
/// one given, else the default
pub fn choose_expression(named: Option<String>, given: Option<String>, default: &str) -> (e: String)
    ensures
        e@ == match named {
            Some(n) => n@,
            None => match given {
                Some(g) => g@,
                None => default@,
            },
        },
{
    match named {
        Some(n) => n,
        None => match given {
            Some(g) => g,
            None => String::from_str(default),
        },
    }
}

/// The program that runs the external subcommand `sub`: `sit-` and `sub`
pub fn external_command_name(sub: &str) -> (res: String)
    ensures
        res@ == "sit-"@ + sub@,
{
    proof {
        reveal_strlit("sit-");
    }
    concat("sit-", sub)
}

/// The shell script that may stand for a program: its name and `.sh`
pub fn script_name(command: &str) -> (res: String)
    ensures
        res@ == command@ + ".sh"@,
{
    proof {
        reveal_strlit(".sh");
    }
    concat(command, ".sh")
}

/// Each directory preceded by the separator
pub open spec fn separated(dirs: Seq<Seq<char>>, sep: Seq<char>) -> Seq<char>
    decreases dirs.len(),
{
    if dirs.len() == 0 {
        Seq::empty()
    } else {
        separated(dirs.drop_last(), sep) + sep + dirs.last()
    }
}

/// The search path for external subcommands: the repository's `cli`
/// directory, then the `cli` directory of every module in order, then the
/// system search path, joined by the separator
pub fn cli_search_path(cli_dir: &str, module_cli_dirs: &Vec<String>, system_path: &str, sep: &str) -> (res: String)
    ensures
        res@ == cli_dir@ + separated(strings_view(module_cli_dirs@), sep@) + sep@ + system_path@,
{
    let ghost dirs = strings_view(module_cli_dirs@);
    let mut path = concat(cli_dir, "");
    proof {
        reveal_strlit("");
        assert(cli_dir@ + ""@ =~= cli_dir@);
        assert(dirs.take(0) =~= Seq::<Seq<char>>::empty());
        assert(cli_dir@ + separated(dirs.take(0), sep@) =~= cli_dir@);
    }
    let mut i: usize = 0;
    while i < module_cli_dirs.len()
        invariant
            i <= module_cli_dirs@.len(),
            dirs == strings_view(module_cli_dirs@),
            path@ == cli_dir@ + separated(dirs.take(i as int), sep@),
        decreases module_cli_dirs@.len() - i,
    {
        let with_sep = concat(path.as_str(), sep);
        path = concat(with_sep.as_str(), module_cli_dirs[i].as_str());
        proof {
            assert(dirs.take(i + 1).drop_last() =~= dirs.take(i as int));
            assert(dirs.take(i + 1).last() == module_cli_dirs@[i as int]@);
            assert(path@ =~= cli_dir@ + separated(dirs.take(i + 1), sep@));
        }
        i = i + 1;
    }
    proof {
        assert(dirs.take(dirs.len() as int) =~= dirs);
    }
    let with_sep = concat(path.as_str(), sep);
    concat(with_sep.as_str(), system_path)
}

/// Whether an entry at the top of a repository is copied as it is when the
/// repository is rebuilt: all but the configuration and the items
pub fn copied_as_is(name: &str) -> (res: bool)
    ensures
        res == (name@ != "config.json"@ && name@ != "items"@),
{
    !crate::text::str_eq(name, "config.json") && !crate::text::str_eq(name, "items")
}

/// Renames as a map: later renames of a name win
pub open spec fn renames_map(s: Seq<(Seq<char>, Seq<char>)>) -> Map<Seq<char>, Seq<char>>
    decreases s.len(),
{
    if s.len() == 0 {
        Map::empty()
    } else {
        renames_map(s.drop_last()).insert(s.last().0, s.last().1)
    }
}

/// The new names that rebuilt records got, by their old names
pub struct RecordRenames {
    entries: Vec<(String, String)>,
}

impl View for RecordRenames {
    type V = Map<Seq<char>, Seq<char>>;

    closed spec fn view(&self) -> Map<Seq<char>, Seq<char>> {
        renames_map(self.entries@.map_values(|p: (String, String)| (p.0@, p.1@)))
    }
}

proof fn lemma_renames_last(s: Seq<(Seq<char>, Seq<char>)>, k: Seq<char>, i: int)
    requires
        -1 <= i < s.len(),
        forall|j: int| i < j < s.len() ==> #[trigger] s[j].0 != k,
        i >= 0 ==> s[i].0 == k,
    ensures
        i >= 0 ==> renames_map(s).contains_key(k) && renames_map(s)[k] == s[i].1,
        i < 0 ==> !renames_map(s).contains_key(k),
    decreases s.len(),
{
    if s.len() > 0 {
        if i == s.len() - 1 {
        } else {
            let t = s.drop_last();
            assert forall|j: int| i < j < t.len() implies #[trigger] t[j].0 != k by {
                assert(t[j] == s[j]);
            }
            if i >= 0 {
                assert(t[i] == s[i]);
            }
            lemma_renames_last(t, k, i);
            assert(s.last().0 != k);
        }
    }
}

impl RecordRenames {
    /// No renames
    pub fn new() -> (r: RecordRenames)
        ensures
            r@ == Map::<Seq<char>, Seq<char>>::empty(),
    {
        let r = RecordRenames { entries: Vec::new() };
        proof {
            assert(r.entries@.map_values(|p: (String, String)| (p.0@, p.1@)) =~= Seq::<(Seq<char>, Seq<char>)>::empty());
        }
        r
    }

    /// Records that the record named `from` is now named `to`
    pub fn insert(&mut self, from: String, to: String)
        ensures
            final(self)@ == old(self)@.insert(from@, to@),
    {
        let ghost before = self.entries@;
        self.entries.push((from, to));
        proof {
            let f = |p: (String, String)| (p.0@, p.1@);
            assert(self.entries@.map_values(f).drop_last() =~= before.map_values(f));
        }
    }

    /// The new name of the record named `name`, if it was renamed
    pub fn get(&self, name: &str) -> (res: Option<String>)
        ensures
            match res {
                Some(n) => self@.contains_key(name@) && self@[name@] == n@,
                None => !self@.contains_key(name@),
            },
    {
        let ghost s = self.entries@.map_values(|p: (String, String)| (p.0@, p.1@));
        let mut i: usize = self.entries.len();
        while i > 0
            invariant
                i <= self.entries@.len(),
                s == self.entries@.map_values(|p: (String, String)| (p.0@, p.1@)),
                forall|j: int| i <= j < s.len() ==> #[trigger] s[j].0 != name@,
            decreases i,
        {
            i = i - 1;
            if crate::text::str_eq(self.entries[i].0.as_str(), name) {
                proof {
                    lemma_renames_last(s, name@, i as int);
                }
                return Some(self.entries[i].1.clone());
            }
        }
        proof {
            lemma_renames_last(s, name@, -1);
        }
        None
    }
}

/// The name that a record file gets when its record is rebuilt: a link to
/// a parent, `.prev/` and the parent's old name, is renamed after the
/// parent's new name; other files keep their names. `None` where the parent
/// was not rebuilt before.
pub open spec fn rebuilt_name(name: Seq<char>, renames: Map<Seq<char>, Seq<char>>) -> Option<Seq<char>> {
    let prefix = ".prev/"@;
    if is_prefix(prefix, name) {
        let old = name.skip(6);
        if renames.contains_key(old) {
            Some(prefix + renames[old])
        } else {
            None
        }
    } else {
        Some(name)
    }
}

/// The name that a record file gets when its record is rebuilt
pub fn rebuilt_file_name(name: &str, renames: &RecordRenames) -> (res: Option<String>)
    ensures
        match res {
            Some(n) => rebuilt_name(name@, renames@) == Some(n@),
            None => rebuilt_name(name@, renames@) is None,
        },
{
    proof {
        reveal_strlit(".prev/");
    }
    let cs = chars_of(name);
    let prefix = chars_of(".prev/");
    proof {
        assert(".prev/"@.len() == 6);
    }
    if crate::text::starts_with(cs.as_slice(), prefix.as_slice()) {
        let old = string_of(crate::text::suffix_from(cs.as_slice(), 6).as_slice());
        match renames.get(old.as_str()) {
            Some(n) => Some(concat(".prev/", n.as_str())),
            None => None,
        }
    } else {
        proof {
            reveal_strlit("");
            assert(name@ + ""@ =~= name@);
        }
        Some(concat(name, ""))
    }
}

/// The names of the records whose files no longer hash to their hash, in
/// order
pub open spec fn broken_names(rs: Seq<RecordView>, alg: HashingAlgorithm) -> Seq<Seq<char>>
    decreases rs.len(),
{
    if rs.len() == 0 {
        Seq::empty()
    } else {
        let prev = broken_names(rs.drop_last(), alg);
        let r = rs.last();
        if record_intact(alg, r) {
            prev
        } else {
            prev.push(r.1.spec_encode(r.0))
        }
    }
}

/// Every record that fails the integrity check is listed, and only those,
/// in the order of the records: the listing is the names of the records at
/// increasing positions `idx`, and every position whose record's files no
/// longer hash to its hash is among them.
pub proof fn law_broken_names_lists_every_broken_record(rs: Seq<RecordView>, alg: HashingAlgorithm)
    -> (idx: Seq<int>)
    ensures
        idx.len() == broken_names(rs, alg).len(),
        forall|j: int| 0 <= j < idx.len() ==> 0 <= #[trigger] idx[j] < rs.len(),
        forall|j: int, k: int| 0 <= j < k < idx.len() ==> #[trigger] idx[j] < #[trigger] idx[k],
        forall|j: int| 0 <= j < idx.len() ==> {
            let r = rs[#[trigger] idx[j]];
            &&& alg.digest(hash_input(sort_by_name(r.3))) != r.0
            &&& broken_names(rs, alg)[j] == r.1.spec_encode(r.0)
        },
        forall|i: int| 0 <= i < rs.len() && alg.digest(hash_input(sort_by_name(rs[i].3))) != #[trigger] rs[i].0
            ==> idx.contains(i),
    decreases rs.len(),
{
    if rs.len() == 0 {
        Seq::empty()
    } else {
        let init = rs.drop_last();
        let prev = law_broken_names_lists_every_broken_record(init, alg);
        let last = rs.len() - 1;
        let r = rs.last();
        let idx = if record_intact(alg, r) { prev } else { prev.push(last) };
        assert forall|j: int| 0 <= j < idx.len() implies 0 <= #[trigger] idx[j] < rs.len() by {
            if j < prev.len() {
                assert(idx[j] == prev[j]);
            }
        }
        assert forall|j: int, k: int| 0 <= j < k < idx.len() implies #[trigger] idx[j] < #[trigger] idx[k] by {
            assert(idx[j] == prev[j]);
            if k < prev.len() {
                assert(idx[k] == prev[k]);
            }
        }
        assert forall|j: int| 0 <= j < idx.len() implies {
            let r = rs[#[trigger] idx[j]];
            &&& alg.digest(hash_input(sort_by_name(r.3))) != r.0
            &&& broken_names(rs, alg)[j] == r.1.spec_encode(r.0)
        } by {
            if j < prev.len() {
                assert(idx[j] == prev[j]);
                assert(rs[prev[j]] == init[prev[j]]);
            }
        }
        assert forall|i: int| 0 <= i < rs.len() && alg.digest(hash_input(sort_by_name(rs[i].3))) != #[trigger] rs[i].0
            implies idx.contains(i) by {
            if i < last {
                assert(rs[i] == init[i]);
                assert(alg.digest(hash_input(sort_by_name(init[i].3))) != init[i].0);
                assert(prev.contains(i));
                let j = choose|j: int| 0 <= j < prev.len() && prev[j] == i;
                assert(idx[j] == i);
            } else {
                assert(idx[idx.len() - 1] == i);
            }
        }
        idx
    }
}

/// The names of the records that fail the integrity check, in order
pub fn invalid_record_names(records: &Vec<Record>, alg: &HashingAlgorithm) -> (res: Vec<String>)
    requires
        alg.valid(),
    ensures
        strings_view(res@) == broken_names(record_views(records@), *alg),
{
    let ghost all = record_views(records@);
    let mut out: Vec<String> = Vec::new();
    let mut i: usize = 0;
    proof {
        assert(all.take(0) =~= Seq::<RecordView>::empty());
    }
    while i < records.len()
        invariant
            i <= records@.len(),
            alg.valid(),
            all == record_views(records@),
            strings_view(out@) == broken_names(all.take(i as int), *alg),
        decreases records@.len() - i,
    {
        proof {
            assert(all.take(i + 1).drop_last() =~= all.take(i as int));
            assert(all.take(i + 1).last() == records@[i as int]@);
        }
        if !records[i].integrity_intact(alg) {
            let n = records[i].encoded_hash();
            out.push(n);
            proof {
                assert(strings_view(out@) =~= broken_names(all.take(i as int), *alg).push(n@));
            }
        }
        i = i + 1;
    }
    proof {
        assert(all.take(all.len() as int) =~= all);
    }
    out
}

/// What an attempt to open a repository for an upgrade leads to
#[derive(Debug, Clone, Copy, PartialEq, Eq, Structural)]
pub enum UpgradeProgress {
    /// The upgrade was noted; try again with it allowed
    Retry,
    /// The repository opened: nothing more to upgrade
    Done,
    /// Opening failed for another reason
    Failed,
}

/// Takes the outcome of opening a repository with the upgrades allowed so
/// far (`None` when it opened): notes a required upgrade and asks for
/// another attempt, stops when it opened, fails on any other error
pub fn upgrade_progress(error: Option<&crate::repository::RepositoryError>, upgrades: &mut Vec<crate::repository::Upgrade>) -> (p: UpgradeProgress)
    ensures
        match error {
            None => p == UpgradeProgress::Done && final(upgrades)@ == old(upgrades)@,
            Some(crate::repository::RepositoryError::UpgradeRequired(u)) =>
                p == UpgradeProgress::Retry && final(upgrades)@ == old(upgrades)@.push(*u),
            Some(_) => p == UpgradeProgress::Failed && final(upgrades)@ == old(upgrades)@,
        },
{
    match error {
        None => UpgradeProgress::Done,
        Some(crate::repository::RepositoryError::UpgradeRequired(u)) => {
            upgrades.push(*u);
            UpgradeProgress::Retry
        },
        Some(_) => UpgradeProgress::Failed,
    }
}

/// Whether records are checked for integrity: unless the command line or
/// the environment disables it
pub fn integrity_check_enabled(disabled_by_flag: bool, disabled_by_environment: bool) -> (res: bool)
    ensures
        res == (!disabled_by_flag && !disabled_by_environment),
{
    !disabled_by_flag && !disabled_by_environment
}

} // verus!
