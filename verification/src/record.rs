//! Record is an immutable collection of files

use vstd::prelude::*;
use vstd::seq_lib::lemma_multiset_commutative;
use vstd::multiset::Multiset;
use crate::hash::Hasher;
use crate::text::{chars_of, lex_le, lex_le_exec, string_of, lemma_lex_le_total, lemma_lex_le_trans,
    lemma_lex_le_antisym, lemma_lex_le_refl};

verus! {

broadcast use vstd::seq_lib::group_to_multiset_ensures;

/// Size of the buffer that file contents are read through while hashing
pub const READ_BUFFER_SIZE: usize = 4096;

/// Record's file: a name and its binary content
#[derive(Clone)]
pub struct File {
    /// File name, relative to the record, with `/` separators
    pub name: String,
    /// File content
    pub content: Vec<u8>,
}

/// A file as a value: its name and its content
pub type FileView = (Seq<char>, Seq<u8>);

impl View for File {
    type V = FileView;

    open spec fn view(&self) -> FileView {
        (self.name@, self.content@)
    }
}

/// The values of a sequence of files
pub open spec fn views(s: Seq<File>) -> Seq<FileView> {
    s.map_values(|f: File| f@)
}

/// Viewing a sequence with one more file adds that file's view
pub proof fn lemma_views_push(s: Seq<File>, x: File)
    ensures
        views(s.push(x)) == views(s).push(x@),
{
    assert(views(s.push(x)) =~= views(s).push(x@));
}

proof fn lemma_views_remove_first(before: Seq<File>, after: Seq<File>, whole: Seq<FileView>, i: int)
    requires
        before.len() > 0,
        after == before.remove(0),
        views(before) == whole.skip(i),
        0 <= i < whole.len(),
    ensures
        views(after) == whole.skip(i + 1),
        before[0]@ == whole[i],
{
    before.remove_ensures(0);
    assert(views(before)[0] == before[0]@);
    assert(views(before).len() == before.len());
    assert(after.len() == before.len() - 1);
    assert(views(after).len() == after.len());
    assert forall|k: int| 0 <= k < after.len() implies #[trigger] views(after)[k] == whole.skip(i + 1)[k] by {
        assert(views(after)[k] == after[k]@);
        assert(after[k] == before[k + 1]);
        assert(views(before)[k + 1] == before[k + 1]@);
        assert(views(before)[k + 1] == whole.skip(i)[k + 1]);
        assert(whole.skip(i)[k + 1] == whole[i + 1 + k]);
    }
    assert(views(after) =~= whole.skip(i + 1));
}

impl File {
    /// A copy of the file
    pub fn duplicate(&self) -> (f: File)
        ensures
            f@ == self@,
    {
        let content = self.content.clone();
        proof {
            assert(content@ =~= self.content@);
        }
        File { name: self.name.clone(), content }
    }

    /// Creates a file
    pub fn new(name: String, content: Vec<u8>) -> (f: File)
        ensures
            f.name@ == name@,
            f.content@ == content@,
    {
        File { name, content }
    }

    /// Returns file's name
    pub fn name(&self) -> (n: &str)
        ensures
            n@ == self.name@,
    {
        self.name.as_str()
    }

    /// Returns file's content
    pub fn content(&self) -> (c: &[u8])
        ensures
            c@ == self.content@,
    {
        self.content.as_slice()
    }
}

/// Files ordered by name: every name is at most the names that follow it
pub open spec fn sorted_by_name(files: Seq<FileView>) -> bool {
    forall|i: int, j: int| 0 <= i < j < files.len() ==> lex_le(#[trigger] files[i].0, #[trigger] files[j].0)
}

/// No two files share a name
pub open spec fn distinct_names(files: Seq<FileView>) -> bool {
    forall|i: int, j: int| 0 <= i < j < files.len() ==> #[trigger] files[i].0 != #[trigger] files[j].0
}

/// Index of the first file named `name`, or the number of files when none is
pub open spec fn first_named(files: Seq<FileView>, name: Seq<char>) -> int
    decreases files.len(),
{
    if files.len() == 0 {
        0
    } else if files[0].0 == name {
        0
    } else {
        1 + first_named(files.drop_first(), name)
    }
}

/// `first_named` is the first index holding the name
pub proof fn lemma_first_named(files: Seq<FileView>, name: Seq<char>, i: int)
    requires
        0 <= i <= files.len(),
        forall|k: int| 0 <= k < i ==> #[trigger] files[k].0 != name,
        i == files.len() || files[i].0 == name,
    ensures
        first_named(files, name) == i,
    decreases i,
{
    if i > 0 {
        let t = files.drop_first();
        assert forall|k: int| 0 <= k < i - 1 implies #[trigger] t[k].0 != name by {
            assert(t[k] == files[k + 1]);
        }
        if i < files.len() {
            assert(t[i - 1] == files[i]);
        }
        lemma_first_named(t, name, i - 1);
        assert(files[0].0 != name);
    }
}

/// The name under which a file is hashed: backslashes become slashes
pub open spec fn hashing_name(name: Seq<char>) -> Seq<char> {
    name.map_values(|c: char| if c == '\\' { '/' } else { c })
}

/// The all-zero read buffer a hashing run starts with
pub open spec fn zero_buffer() -> Seq<u8> {
    Seq::new(READ_BUFFER_SIZE as nat, |i: int| 0u8)
}

/// The chunks that reading `content` through a buffer of `READ_BUFFER_SIZE`
/// bytes gives, in order: full buffers' worth while the content lasts, then
/// what is left, and last an empty read
pub open spec fn read_chunks(content: Seq<u8>) -> Seq<Seq<u8>>
    decreases content.len(),
{
    if content.len() == 0 {
        seq![Seq::empty()]
    } else {
        let n = if content.len() < READ_BUFFER_SIZE { content.len() as int } else { READ_BUFFER_SIZE as int };
        seq![content.take(n)] + read_chunks(content.skip(n))
    }
}

/// The buffer after the first `k` chunks were read into it: each read fills
/// the front of the buffer and leaves the rest as it was
pub open spec fn buffer_after(chunks: Seq<Seq<u8>>, buf: Seq<u8>, k: nat) -> Seq<u8>
    decreases k,
{
    if k == 0 {
        buf
    } else {
        let c = chunks[k - 1];
        c + buffer_after(chunks, buf, (k - 1) as nat).skip(c.len() as int)
    }
}

/// The bytes hashed by the first `k` reads: the whole buffer after each read
pub open spec fn hashed_after(chunks: Seq<Seq<u8>>, buf: Seq<u8>, k: nat) -> Seq<u8>
    decreases k,
{
    if k == 0 {
        Seq::empty()
    } else {
        hashed_after(chunks, buf, (k - 1) as nat) + buffer_after(chunks, buf, k)
    }
}

/// Reading `content` through `buf`: the whole buffer is hashed after each
/// read, including the final empty read. Returns the hashed bytes and the
/// buffer as it is left.
pub open spec fn read_stream(content: Seq<u8>, buf: Seq<u8>) -> (Seq<u8>, Seq<u8>) {
    let cs = read_chunks(content);
    (hashed_after(cs, buf, cs.len()), buffer_after(cs, buf, cs.len()))
}

/// The bytes a hasher is fed for `files`, in order, starting from buffer `buf`:
/// for each file its hashing name (UTF-8) followed by its read stream. Returns
/// the bytes and the buffer left at the end.
pub open spec fn files_stream(files: Seq<FileView>, buf: Seq<u8>) -> (Seq<u8>, Seq<u8>)
    decreases files.len(),
{
    if files.len() == 0 {
        (Seq::empty(), buf)
    } else {
        let prev = files_stream(files.drop_last(), buf);
        let f = files.last();
        let s = read_stream(f.1, prev.1);
        (prev.0 + vstd::utf8::encode_utf8(hashing_name(f.0)) + s.0, s.1)
    }
}

/// The bytes hashed for `files` by a hashing run
pub open spec fn hash_input(files: Seq<FileView>) -> Seq<u8> {
    files_stream(files, zero_buffer()).0
}

/// Where `x` goes in a name-ordered sequence: after every leading file whose
/// name is not greater than `x`'s
pub open spec fn insert_pos(s: Seq<FileView>, x: FileView) -> nat
    decreases s.len(),
{
    if s.len() == 0 {
        0
    } else if lex_le(s[0].0, x.0) {
        1 + insert_pos(s.drop_first(), x)
    } else {
        0
    }
}

/// Files ordered by name, by insertion one after another; files with equal
/// names keep their relative order
pub open spec fn sort_by_name(s: Seq<FileView>) -> Seq<FileView>
    decreases s.len(),
{
    if s.len() == 0 {
        Seq::empty()
    } else {
        let r = sort_by_name(s.drop_last());
        r.insert(insert_pos(r, s.last()) as int, s.last())
    }
}

proof fn lemma_insert_pos(s: Seq<FileView>, x: FileView, p: int)
    requires
        0 <= p <= s.len(),
        forall|k: int| 0 <= k < p ==> lex_le(#[trigger] s[k].0, x.0),
        p == s.len() || !lex_le(s[p].0, x.0),
    ensures
        insert_pos(s, x) == p,
    decreases p,
{
    if p > 0 {
        let t = s.drop_first();
        assert forall|k: int| 0 <= k < p - 1 implies lex_le(#[trigger] t[k].0, x.0) by {
            assert(t[k] == s[k + 1]);
        }
        if p < s.len() {
            assert(t[p - 1] == s[p]);
        }
        lemma_insert_pos(t, x, p - 1);
        assert(lex_le(s[0].0, x.0));
    }
}

/// A collection of always ordered files
pub struct OrderedFiles {
    files: Vec<File>,
}

proof fn lemma_insert_multiset(s: Seq<FileView>, p: int, x: FileView)
    requires
        0 <= p <= s.len(),
    ensures
        s.insert(p, x).to_multiset() == s.to_multiset().insert(x),
{
    let a = s.take(p);
    let b = s.skip(p);
    assert(s == a + b);
    assert(s.insert(p, x) == a.push(x) + b);
    lemma_multiset_commutative(a.push(x), b);
    lemma_multiset_commutative(a, b);
}

/// Replaces every backslash by a slash
fn hashing_name_exec(name: &str) -> (res: String)
    ensures
        res@ == hashing_name(name@),
{
    let cs = chars_of(name);
    let mut out: Vec<char> = Vec::new();
    let mut i: usize = 0;
    while i < cs.len()
        invariant
            i <= cs@.len(),
            cs@ == name@,
            out@ == hashing_name(cs@.take(i as int)),
        decreases cs@.len() - i,
    {
        let c = if cs[i] == '\\' { '/' } else { cs[i] };
        proof {
            assert(hashing_name(cs@.take(i + 1)) == hashing_name(cs@.take(i as int)).push(c));
        }
        out.push(c);
        i = i + 1;
    }
    proof {
        assert(cs@.take(cs@.len() as int) == cs@);
    }
    string_of(out.as_slice())
}

/// Fills the front of `buf` with the next bytes of `content` from `pos`, as a
/// read into the buffer does; returns how many bytes were read
fn read_into(content: &[u8], pos: usize, buf: &mut Vec<u8>) -> (n: usize)
    requires
        pos <= content@.len(),
        old(buf)@.len() == READ_BUFFER_SIZE,
    ensures
        n == (if content@.len() - pos < READ_BUFFER_SIZE { content@.len() - pos } else { READ_BUFFER_SIZE as int }),
        final(buf)@ == content@.skip(pos as int).take(n as int) + old(buf)@.skip(n as int),
{
    let remaining = content.len() - pos;
    let n = if remaining < READ_BUFFER_SIZE { remaining } else { READ_BUFFER_SIZE };
    let mut j: usize = 0;
    while j < n
        invariant
            j <= n <= READ_BUFFER_SIZE,
            pos + n <= content@.len(),
            content@.len() <= usize::MAX,
            buf@.len() == READ_BUFFER_SIZE,
            forall|k: int| 0 <= k < j ==> buf@[k] == content@[pos + k],
            forall|k: int| j <= k < READ_BUFFER_SIZE ==> buf@[k] == old(buf)@[k],
        decreases n - j,
    {
        buf.set(j, content[pos + j]);
        j = j + 1;
    }
    proof {
        assert(buf@ =~= content@.skip(pos as int).take(n as int) + old(buf)@.skip(n as int));
    }
    n
}

/// Whether `per_file` can give `Ok(t)` for a name whose value is `name`
pub open spec fn name_handed<T, E, PF>(per_file: PF, name: Seq<char>, t: T) -> bool
    where
        PF: Fn(&str) -> Result<T, E>,
{
    exists|n: &str| #![trigger per_file.ensures((n,), Ok::<T, E>(t))] n@ == name && per_file.ensures((n,), Ok::<T, E>(t))
}

/// Whether `per_chunk` can give `Ok(t2)` for `t` and a chunk whose value is
/// `chunk`
pub open spec fn chunk_handed<T, E, PC>(per_chunk: PC, t: T, chunk: Seq<u8>, t2: T) -> bool
    where
        PC: Fn(T, &[u8]) -> Result<T, E>,
{
    exists|c: &[u8]| #![trigger per_chunk.ensures((t, c), Ok::<T, E>(t2))] c@ == chunk && per_chunk.ensures((t, c), Ok::<T, E>(t2))
}

/// Whether the callbacks can hand on the values `ts` one after another for
/// a file hashed under `name` and read as `chunks`: `ts[0]` is what
/// `per_file` gives for the name, and `ts[j + 1]` what `per_chunk` gives for
/// `ts[j]` and chunk `j`
pub open spec fn handed_through<T, E, PF, PC>(per_file: PF, per_chunk: PC, name: Seq<char>, chunks: Seq<Seq<u8>>, ts: Seq<T>) -> bool
    where
        PF: Fn(&str) -> Result<T, E>,
        PC: Fn(T, &[u8]) -> Result<T, E>,
{
    &&& 1 <= ts.len() <= chunks.len() + 1
    &&& name_handed::<T, E, PF>(per_file, name, ts[0])
    &&& forall|j: int| 0 <= j < ts.len() - 1 ==> #[trigger] chunk_handed::<T, E, PC>(per_chunk, ts[j], chunks[j], ts[j + 1])
}

/// Whether a file was handed whole to the callbacks: its name, then every
/// chunk of it, the values `ts` threaded through
pub open spec fn file_handed<T, E, PF, PC>(per_file: PF, per_chunk: PC, name: Seq<char>, chunks: Seq<Seq<u8>>, ts: Seq<T>) -> bool
    where
        PF: Fn(&str) -> Result<T, E>,
        PC: Fn(T, &[u8]) -> Result<T, E>,
{
    handed_through::<T, E, PF, PC>(per_file, per_chunk, name, chunks, ts) && ts.len() == chunks.len() + 1
}

/// Whether every file was handed whole to the callbacks, `tss[i]` being the
/// values threaded through for file `i`
pub open spec fn all_handed<T, E, PF, PC>(per_file: PF, per_chunk: PC, files: Seq<FileView>, tss: Seq<Seq<T>>) -> bool
    where
        PF: Fn(&str) -> Result<T, E>,
        PC: Fn(T, &[u8]) -> Result<T, E>,
{
    &&& tss.len() == files.len()
    &&& forall|i: int| 0 <= i < files.len() ==>
        file_handed::<T, E, PF, PC>(per_file, per_chunk, hashing_name(files[i].0), read_chunks(files[i].1), #[trigger] tss[i])
}

/// Whether a callback failed with `e` on a file hashed under `name` and read
/// as `chunks`, after handing on the values `ts`: `per_file` failed when
/// `ts` is empty, otherwise `per_chunk` failed on chunk `ts.len() - 1`
pub open spec fn failed_on<T, E, PF, PC>(per_file: PF, per_chunk: PC, name: Seq<char>, chunks: Seq<Seq<u8>>, ts: Seq<T>, e: E) -> bool
    where
        PF: Fn(&str) -> Result<T, E>,
        PC: Fn(T, &[u8]) -> Result<T, E>,
{
    ||| ts.len() == 0 && exists|n: &str| #![trigger per_file.ensures((n,), Err::<T, E>(e))]
        n@ == name && per_file.ensures((n,), Err::<T, E>(e))
    ||| handed_through::<T, E, PF, PC>(per_file, per_chunk, name, chunks, ts) && ts.len() <= chunks.len()
        && exists|c: &[u8]| #![trigger per_chunk.ensures((ts.last(), c), Err::<T, E>(e))]
            c@ == chunks[ts.len() - 1] && per_chunk.ensures((ts.last(), c), Err::<T, E>(e))
}

/// The bytes a hashing run feeds before it stops in file `i` after `reads`
/// reads of it: every earlier file in full, then the name of file `i` and
/// the buffers of those reads
pub open spec fn bytes_until(files: Seq<FileView>, i: int, reads: nat) -> Seq<u8> {
    let before = files_stream(files.take(i), zero_buffer());
    before.0 + vstd::utf8::encode_utf8(hashing_name(files[i].0))
        + hashed_after(read_chunks(files[i].1), before.1, reads)
}

/// Whether hashing stopped in file `i` as `stopped_at` says, the hasher's
/// input going from `before` to `after` by exactly the bytes fed until then
pub open spec fn stopped_with<T, E, PF, PC>(per_file: PF, per_chunk: PC, files: Seq<FileView>, i: int, tss: Seq<Seq<T>>,
    ts: Seq<T>, e: E, before: Seq<u8>, after: Seq<u8>) -> bool
    where
        PF: Fn(&str) -> Result<T, E>,
        PC: Fn(T, &[u8]) -> Result<T, E>,
{
    &&& stopped_at::<T, E, PF, PC>(per_file, per_chunk, files, i, tss, ts, e)
    &&& after == before + bytes_until(files, i, ts.len())
}

/// Whether hashing stopped in file `i` because a callback failed with `e`:
/// every earlier file was handed whole (values `tss`), and on file `i` the
/// values `ts` were handed on before the failure
pub open spec fn stopped_at<T, E, PF, PC>(per_file: PF, per_chunk: PC, files: Seq<FileView>, i: int, tss: Seq<Seq<T>>, ts: Seq<T>, e: E) -> bool
    where
        PF: Fn(&str) -> Result<T, E>,
        PC: Fn(T, &[u8]) -> Result<T, E>,
{
    &&& 0 <= i < files.len()
    &&& all_handed::<T, E, PF, PC>(per_file, per_chunk, files.take(i), tss)
    &&& failed_on::<T, E, PF, PC>(per_file, per_chunk, hashing_name(files[i].0), read_chunks(files[i].1), ts, e)
}

impl OrderedFiles {
    #[verifier::type_invariant]
    spec fn inv(self) -> bool {
        sorted_by_name(views(self.files@))
    }

    /// The files, ordered by name
    pub closed spec fn files(self) -> Seq<FileView> {
        views(self.files@)
    }

    /// The files, ordered by name
    pub fn entries(&self) -> (e: &Vec<File>)
        ensures
            views(e@) == self.files(),
    {
        &self.files
    }

    /// Orders a collection of files by name. Files with equal names keep the
    /// order they were given in.
    pub fn from(files: Vec<File>) -> (res: OrderedFiles)
        ensures
            res.files() == sort_by_name(views(files@)),
            sorted_by_name(res.files()),
            res.files().to_multiset() == views(files@).to_multiset(),
    {
        let ghost input = views(files@);
        let mut files = files;
        let _ = files.len();
        let mut out: Vec<File> = Vec::new();
        let mut out_names: Vec<Vec<char>> = Vec::new();
        let mut i: usize = 0;
        proof {
            assert(views(out@) =~= Seq::<FileView>::empty());
            assert(input.take(0) =~= Seq::<FileView>::empty());
        }
        while files.len() > 0
            invariant
                i <= input.len(),
                views(files@) == input.skip(i as int),
                files@.len() == input.len() - i,
                input.len() <= usize::MAX,
                out_names@.len() == out@.len(),
                forall|k: int| 0 <= k < out@.len() ==> (#[trigger] out_names@[k])@ == out@[k].name@,
                sorted_by_name(views(out@)),
                views(out@).to_multiset() == input.take(i as int).to_multiset(),
                views(out@) == sort_by_name(input.take(i as int)),
            decreases files@.len(),
        {
            let ghost before = files@;
            let f = files.remove(0);
            let name = chars_of(f.name.as_str());
            // position after every file whose name is not greater
            let mut p: usize = 0;
            while p < out.len() && lex_le_exec(out_names[p].as_slice(), name.as_slice())
                invariant
                    p <= out@.len(),
                    out_names@.len() == out@.len(),
                    forall|k: int| 0 <= k < out@.len() ==> (#[trigger] out_names@[k])@ == out@[k].name@,
                    forall|k: int| 0 <= k < p ==> lex_le(#[trigger] out@[k].name@, name@),
                decreases out@.len() - p,
            {
                p = p + 1;
            }
            proof {
                lemma_views_remove_first(before, files@, input, i as int);
                let s = views(out@);
                assert forall|k: int| 0 <= k < s.len() implies #[trigger] s[k].0 == out@[k].name@ by {}
                if p < out@.len() {
                    lemma_lex_le_total(s[p as int].0, name@);
                    assert forall|k: int| p <= k < s.len() implies lex_le(name@, #[trigger] s[k].0) by {
                        if k > p {
                            lemma_lex_le_trans(name@, s[p as int].0, s[k].0);
                        }
                    }
                }
                let ns = s.insert(p as int, f@);
                s.insert_ensures(p as int, f@);
                assert forall|a: int, b: int| 0 <= a < b < ns.len() implies lex_le(#[trigger] ns[a].0, #[trigger] ns[b].0) by {
                    if b < p {
                    } else if a < p && b == p {
                        assert(lex_le(out@[a].name@, name@));
                    } else if a < p {
                        assert(ns[b] == s[b - 1]);
                        assert(lex_le(out@[a].name@, name@));
                        lemma_lex_le_trans(s[a].0, name@, s[b - 1].0);
                    } else if a == p {
                        assert(ns[b] == s[b - 1]);
                    } else {
                        assert(ns[a] == s[a - 1]);
                        assert(ns[b] == s[b - 1]);
                    }
                }
                lemma_insert_multiset(s, p as int, f@);
                assert(input.take(i + 1) == input.take(i as int).push(input[i as int]));
                assert forall|k: int| 0 <= k < p implies lex_le(#[trigger] s[k].0, f@.0) by {
                    assert(lex_le(out@[k].name@, name@));
                }
                lemma_insert_pos(s, f@, p as int);
                assert(input.take(i + 1).drop_last() == input.take(i as int));
            }
            let ghost old_out = out@;
            out.insert(p, f);
            out_names.insert(p, name);
            proof {
                assert(views(out@) =~= views(old_out).insert(p as int, f@));
                assert forall|k: int| 0 <= k < out@.len() implies (#[trigger] out_names@[k])@ == out@[k].name@ by {
                    if k < p {
                    } else if k == p {
                    } else {
                    }
                }
            }
            i = i + 1;
        }
        proof {
            assert(input.take(input.len() as int) == input);
        }
        OrderedFiles { files: out }
    }

    /// Deterministically hashes all ordered files and allows to process them as well.
    ///
    /// For every file, in order, the hasher is fed the file's name (backslashes
    /// turned into slashes) and then, for every read of the file's content
    /// through a buffer of `READ_BUFFER_SIZE` bytes, the whole buffer. The name
    /// is handed to `per_file`, whose value is threaded through `per_chunk`
    /// together with every chunk read (the last chunk is empty). The first
    /// error of a callback is returned, and nothing is hashed or handed on
    /// after it.
    pub fn hash_and<T, E, PF, PC>(self, hasher: &mut Hasher, per_file: PF, per_chunk: PC) -> (r: Result<(), E>)
        where
            PF: Fn(&str) -> Result<T, E>,
            PC: Fn(T, &[u8]) -> Result<T, E>,
        requires
            forall|n: &str| per_file.requires((n,)),
            forall|t: T, c: &[u8]| per_chunk.requires((t, c)),
        ensures
            final(hasher).algorithm() == old(hasher).algorithm(),
            r is Ok ==> final(hasher).input() == old(hasher).input() + hash_input(self.files()),
            r is Ok ==> exists|tss: Seq<Seq<T>>| all_handed::<T, E, PF, PC>(per_file, per_chunk, self.files(), tss),
            r matches Err(e) ==> exists|i: int, tss: Seq<Seq<T>>, ts: Seq<T>|
                #[trigger] stopped_with::<T, E, PF, PC>(per_file, per_chunk, self.files(), i, tss, ts, e,
                    old(hasher).input(), final(hasher).input()),
            (forall|n: &str, x: Result<T, E>| per_file.ensures((n,), x) ==> x is Ok)
                && (forall|t: T, c: &[u8], x: Result<T, E>| per_chunk.ensures((t, c), x) ==> x is Ok)
                ==> r is Ok,
    {
        let ghost sf = self.files();
        let files = self.files;
        let ghost fv = views(files@);
        let mut buf: Vec<u8> = vec![0u8; READ_BUFFER_SIZE];
        let ghost start = hasher.input();
        let ghost mut tss: Seq<Seq<T>> = Seq::empty();
        let ghost mut fail_ts: Seq<T> = Seq::empty();
        let mut err: Option<E> = None;
        proof {
            assert(buf@ == zero_buffer());
            assert(fv.take(0) == Seq::<FileView>::empty());
        }
        let mut i: usize = 0;
        while i < files.len() && err.is_none()
            invariant
                i <= files@.len(),
                fv == views(files@),
                sf == fv,
                forall|n: &str| per_file.requires((n,)),
                forall|t: T, c: &[u8]| per_chunk.requires((t, c)),
                hasher.algorithm() == old(hasher).algorithm(),
                start == old(hasher).input(),
                buf@.len() == READ_BUFFER_SIZE,
                err is None ==> hasher.input() == start + files_stream(fv.take(i as int), zero_buffer()).0,
                err is None ==> buf@ == files_stream(fv.take(i as int), zero_buffer()).1,
                err is None ==> all_handed::<T, E, PF, PC>(per_file, per_chunk, fv.take(i as int), tss),
                err matches Some(e) ==> stopped_at::<T, E, PF, PC>(per_file, per_chunk, fv, i as int, tss, fail_ts, e)
                    && hasher.input() == start + bytes_until(fv, i as int, fail_ts.len()),
            decreases files@.len() - i, (if err is None { 1int } else { 0int }),
        {
            let ghost prefix = fv.take(i as int);
            let ghost buf0 = buf@;
            let ghost fname = hashing_name(fv[i as int].0);
            let ghost chunks = read_chunks(fv[i as int].1);
            proof {
                assert(fv[i as int] == files@[i as int]@);
            }
            let name = hashing_name_exec(files[i].name.as_str());
            let nm = name.as_str();
            hasher.process(nm.as_bytes());
            let ghost mid = hasher.input();
            let first = per_file(nm);
            match first {
                Err(e) => {
                    proof {
                        let ts = Seq::<T>::empty();
                        assert(failed_on::<T, E, PF, PC>(per_file, per_chunk, fname, chunks, ts, e));
                        assert(hashed_after(chunks, buf0, 0) == Seq::<u8>::empty());
                        assert(hasher.input() == start + bytes_until(fv, i as int, 0));
                        fail_ts = ts;
                    }
                    err = Some(e);
                },
                Ok(v) => {
                    let mut fp = v;
                    let ghost mut ts: Seq<T> = seq![fp];
                    let content = files[i].content.as_slice();
                    let _ = content.len();
                    let mut pos: usize = 0;
                    let ghost mut k: nat = 0;
                    let mut inner_err: Option<E> = None;
                    proof {
                        assert(per_file.ensures((nm,), Ok::<T, E>(ts[0])));
                        assert(name_handed::<T, E, PF>(per_file, fname, ts[0]));
                        assert(handed_through::<T, E, PF, PC>(per_file, per_chunk, fname, chunks, ts));
                        assert(content@.skip(0) == content@);
                        assert(chunks.take(0) + read_chunks(content@) =~= chunks);
                    }
                    loop
                        invariant_except_break
                            pos <= content@.len(),
                            ts.len() == k + 1,
                            k < chunks.len(),
                            chunks.take(k as int) + read_chunks(content@.skip(pos as int)) == chunks,
                            ts.last() == fp,
                            inner_err is None,
                            hasher.input() == mid + hashed_after(chunks, buf0, k),
                            buf@ == buffer_after(chunks, buf0, k),
                            handed_through::<T, E, PF, PC>(per_file, per_chunk, fname, chunks, ts),
                        invariant
                            i < files@.len(),
                            fv == views(files@),
                            forall|n: &str| per_file.requires((n,)),
                            forall|t: T, c: &[u8]| per_chunk.requires((t, c)),
                            content@ == fv[i as int].1,
                            content@.len() <= usize::MAX,
                            chunks == read_chunks(fv[i as int].1),
                            fname == hashing_name(fv[i as int].0),
                            buf@.len() == READ_BUFFER_SIZE,
                            hasher.algorithm() == old(hasher).algorithm(),
                        ensures
                            inner_err is None ==> ts.len() == chunks.len() + 1
                                && handed_through::<T, E, PF, PC>(per_file, per_chunk, fname, chunks, ts)
                                && hasher.input() == mid + hashed_after(chunks, buf0, chunks.len())
                                && buf@ == buffer_after(chunks, buf0, chunks.len()),
                            inner_err matches Some(e) ==> failed_on::<T, E, PF, PC>(per_file, per_chunk, fname, chunks, ts, e)
                                && hasher.input() == mid + hashed_after(chunks, buf0, ts.len()),
                        decreases content@.len() - pos,
                    {
                        let ghost rest = content@.skip(pos as int);
                        let ghost old_ts = ts;
                        let n = read_into(content, pos, &mut buf);
                        proof {
                            assert(read_chunks(rest).len() >= 1);
                            assert(read_chunks(rest)[0] == rest.take(n as int));
                            assert(chunks[k as int] == (chunks.take(k as int) + read_chunks(rest))[k as int]);
                            assert(chunks[k as int] == rest.take(n as int));
                            assert(buf@ =~= buffer_after(chunks, buf0, k + 1));
                        }
                        hasher.process(buf.as_slice());
                        proof {
                            assert(hashed_after(chunks, buf0, k + 1) == hashed_after(chunks, buf0, k) + buffer_after(chunks, buf0, k + 1));
                        }
                        let chunk = vstd::slice::slice_subrange(buf.as_slice(), 0, n);
                        let ghost prev_t = fp;
                        let next = per_chunk(fp, chunk);
                        match next {
                            Err(e) => {
                                proof {
                                    assert(chunk@ =~= chunks[k as int]);
                                    assert(old_ts.last() == prev_t);
                                    assert(per_chunk.ensures((old_ts.last(), chunk), Err::<T, E>(e)));
                                    assert(failed_on::<T, E, PF, PC>(per_file, per_chunk, fname, chunks, old_ts, e));
                                }
                                inner_err = Some(e);
                                break;
                            },
                            Ok(v) => {
                                fp = v;
                            },
                        }
                        proof {
                            assert(chunk@ =~= chunks[k as int]);
                            ts = old_ts.push(fp);
                            assert(per_chunk.ensures((old_ts[k as int], chunk), Ok::<T, E>(ts[k + 1 as int])));
                            assert(chunk_handed::<T, E, PC>(per_chunk, ts[k as int], chunks[k as int], ts[k + 1 as int]));
                            assert forall|j: int| 0 <= j < ts.len() - 1 implies
                                #[trigger] chunk_handed::<T, E, PC>(per_chunk, ts[j], chunks[j], ts[j + 1]) by {
                                if j < k {
                                    assert(chunk_handed::<T, E, PC>(per_chunk, old_ts[j], chunks[j], old_ts[j + 1]));
                                    assert(ts[j] == old_ts[j] && ts[j + 1] == old_ts[j + 1]);
                                }
                            }
                            assert(ts[0] == old_ts[0]);
                            assert(name_handed::<T, E, PF>(per_file, fname, ts[0]));
                            k = k + 1;
                            assert(handed_through::<T, E, PF, PC>(per_file, per_chunk, fname, chunks, ts));
                        }
                        if n == 0 {
                            proof {
                                assert(rest.len() == 0);
                                assert(read_chunks(rest) =~= seq![Seq::<u8>::empty()]);
                                assert(chunks.len() == k);
                            }
                            break;
                        }
                        proof {
                            assert(rest.skip(n as int) =~= content@.skip(pos + n));
                            assert(read_chunks(rest) =~= seq![rest.take(n as int)] + read_chunks(rest.skip(n as int)));
                            assert(chunks.take(k as int) =~= chunks.take(k - 1) + seq![chunks[k - 1 as int]]);
                            assert(chunks.take(k as int) + read_chunks(content@.skip(pos + n)) =~= chunks);
                        }
                        pos = pos + n;
                    }
                    match inner_err {
                        Some(e) => {
                            proof {
                                fail_ts = ts;
                                assert(hasher.input() == start + bytes_until(fv, i as int, ts.len()));
                            }
                            err = Some(e);
                        },
                        None => {
                            proof {
                                let fs = fv.take(i + 1);
                                assert(fs.drop_last() == fv.take(i as int));
                                assert(fs.last() == files@[i as int]@);
                                let ntss = tss.push(ts);
                                assert forall|m: int| 0 <= m < fs.len() implies
                                    file_handed::<T, E, PF, PC>(per_file, per_chunk, hashing_name(fs[m].0), read_chunks(fs[m].1), #[trigger] ntss[m]) by {
                                    if m < i {
                                        assert(fs[m] == prefix[m]);
                                        assert(ntss[m] == tss[m]);
                                    } else {
                                        assert(fs[m] == fv[i as int]);
                                    }
                                }
                                tss = ntss;
                            }
                            i = i + 1;
                        },
                    }
                },
            }
        }
        match err {
            Some(e) => {
                proof {
                    assert(stopped_at::<T, E, PF, PC>(per_file, per_chunk, sf, i as int, tss, fail_ts, e)
                        && hasher.input() == start + bytes_until(sf, i as int, fail_ts.len()));
                    assert(sf == self.files());
                    assert(start == old(hasher).input());
                    assert(stopped_with::<T, E, PF, PC>(per_file, per_chunk, sf, i as int, tss, fail_ts, e, start, hasher.input()));
                    assert(exists|i: int, tss: Seq<Seq<T>>, ts: Seq<T>|
                        #[trigger] stopped_with::<T, E, PF, PC>(per_file, per_chunk, self.files(), i, tss, ts, e,
                            old(hasher).input(), hasher.input()));
                    let fname = hashing_name(sf[i as int].0);
                    let chunks = read_chunks(sf[i as int].1);
                    if fail_ts.len() == 0 {
                        let n = choose|n: &str| n@ == fname && per_file.ensures((n,), Err::<T, E>(e));
                        assert(per_file.ensures((n,), Err::<T, E>(e)));
                    } else {
                        let c = choose|c: &[u8]| c@ == chunks[fail_ts.len() - 1] && per_chunk.ensures((fail_ts.last(), c), Err::<T, E>(e));
                        assert(per_chunk.ensures((fail_ts.last(), c), Err::<T, E>(e)));
                    }
                }
                let res: Result<(), E> = Err(e);
                proof {
                    assert(res == Err::<(), E>(e));
                    assert(res matches Err(e2) && e2 == e);
                    assert(res matches Err(e2) && exists|i: int, tss: Seq<Seq<T>>, ts: Seq<T>|
                        #[trigger] stopped_with::<T, E, PF, PC>(per_file, per_chunk, self.files(), i, tss, ts, e2,
                            old(hasher).input(), hasher.input()));
                }
                res
            },
            None => {
                proof {
                    assert(i == fv.len());
                    assert(fv.take(fv.len() as int) == fv);
                    assert(sf == self.files());
                    assert(start == old(hasher).input());
                    assert(all_handed::<T, E, PF, PC>(per_file, per_chunk, sf, tss));
                    assert(hasher.input() == start + hash_input(sf));
                }
                Ok(())
            },
        }
    }

    /// Deterministically hashes all ordered files
    pub fn hash(self, hasher: &mut Hasher)
        ensures
            final(hasher).algorithm() == old(hasher).algorithm(),
            final(hasher).input() == old(hasher).input() + hash_input(self.files()),
    {
        let per_file = |_n: &str| -> (r: Result<(), ()>)
            ensures
                r is Ok,
        { Ok(()) };
        let per_chunk = |v: (), _c: &[u8]| -> (r: Result<(), ()>)
            ensures
                r is Ok,
        { Ok(v) };
        let r = self.hash_and(hasher, per_file, per_chunk);
    }

    /// Merges two ordered collections
    pub fn add(self, rhs: OrderedFiles) -> (res: OrderedFiles)
        ensures
            res.files() == sort_by_name(self.files() + rhs.files()),
            sorted_by_name(res.files()),
            res.files().to_multiset() == self.files().to_multiset().add(rhs.files().to_multiset()),
    {
        let mut files = self.files;
        let mut rhs_files = rhs.files;
        let ghost a = files@;
        let ghost b = rhs_files@;
        files.append(&mut rhs_files);
        proof {
            assert(views(files@) =~= views(a) + views(b));
            lemma_multiset_commutative(views(a), views(b));
        }
        OrderedFiles::from(files)
    }

    /// Merges this collection with every collection in `others`
    pub fn add_all(self, others: Vec<OrderedFiles>) -> (res: OrderedFiles)
        ensures
            res.files() == sort_by_name(self.files() + concat_files(others@)),
            sorted_by_name(res.files()),
            res.files().to_multiset() == self.files().to_multiset().add(files_multiset(others@)),
    {
        let mut files = self.files;
        let ghost start = views(files@);
        let mut others = others;
        let ghost all = others@;
        let _ = others.len();
        let mut i: usize = 0;
        proof {
            assert(all.take(0) =~= Seq::<OrderedFiles>::empty());
            assert(start.to_multiset().add(Multiset::empty()) =~= start.to_multiset());
            assert(start + Seq::<FileView>::empty() =~= start);
        }
        while others.len() > 0
            invariant
                views(files@).to_multiset() == start.to_multiset().add(files_multiset(all.take(i as int))),
                views(files@) == start + concat_files(all.take(i as int)),
                others@ == all.skip(i as int),
                others@.len() == all.len() - i,
                all.len() <= usize::MAX,
                i <= all.len(),
            decreases others@.len(),
        {
            let o = others.remove(0);
            let ghost a = files@;
            let mut of = o.files;
            let ghost b = of@;
            proof {
                assert(all.take(i + 1) == all.take(i as int).push(all[i as int]));
                lemma_files_multiset_push(all.take(i as int), all[i as int]);
                assert(all.skip(i as int).drop_first() == all.skip(i + 1));
            }
            files.append(&mut of);
            proof {
                assert(views(files@) =~= views(a) + views(b));
                lemma_multiset_commutative(views(a), views(b));
                assert(all.take(i + 1).drop_last() == all.take(i as int));
                assert(start + concat_files(all.take(i + 1)) =~= start + concat_files(all.take(i as int)) + views(b));
            }
            i = i + 1;
        }
        proof {
            assert(all.take(all.len() as int) == all);
        }
        OrderedFiles::from(files)
    }

    /// Removes every file named `name`
    pub fn sub(self, name: &str) -> (res: OrderedFiles)
        ensures
            res.files() == self.files().filter(|f: FileView| f.0 != name@),
    {
        proof {
            use_type_invariant(&self);
        }
        let name_chars = chars_of(name);
        let ghost pred = |f: FileView| f.0 != name@;
        let ghost all = views(self.files@);
        let mut files = self.files;
        let _ = files.len();
        let mut out: Vec<File> = Vec::new();
        let mut i: usize = 0;
        proof {
            reveal(Seq::filter);
            assert(views(out@) =~= all.take(0).filter(pred));
        }
        while files.len() > 0
            invariant
                i <= all.len(),
                views(files@) == all.skip(i as int),
                files@.len() == all.len() - i,
                all.len() <= usize::MAX,
                name_chars@ == name@,
                pred == (|f: FileView| f.0 != name@),
                views(out@) == all.take(i as int).filter(pred),
            decreases files@.len(),
        {
            let ghost before = files@;
            let f = files.remove(0);
            let fname = chars_of(f.name.as_str());
            let same = crate::text::chars_eq(fname.as_slice(), name_chars.as_slice());
            proof {
                lemma_views_remove_first(before, files@, all, i as int);
                assert(all.take(i + 1).drop_last() == all.take(i as int));
                assert(all.take(i + 1).last() == all[i as int]);
                assert(same == !pred(all[i as int]));
            }
            let ghost old_out = out@;
            if !same {
                out.push(f);
                proof {
                    assert(views(out@) =~= views(old_out).push(all[i as int]));
                }
            }
            proof {
                reveal(Seq::filter);
                assert(all.take(i + 1).filter(pred) == (if pred(all[i as int]) {
                    all.take(i as int).filter(pred).push(all[i as int])
                } else {
                    all.take(i as int).filter(pred)
                }));
            }
            i = i + 1;
        }
        proof {
            assert(all.take(all.len() as int) == all);
            lemma_filter_sorted(all, pred);
        }
        OrderedFiles { files: out }
    }
}

/// All files of a sequence of ordered collections, one collection after another
pub open spec fn concat_files(cols: Seq<OrderedFiles>) -> Seq<FileView>
    decreases cols.len(),
{
    if cols.len() == 0 {
        Seq::empty()
    } else {
        concat_files(cols.drop_last()) + cols.last().files()
    }
}

/// All files of a sequence of ordered collections, as a multiset
pub open spec fn files_multiset(cols: Seq<OrderedFiles>) -> Multiset<FileView>
    decreases cols.len(),
{
    if cols.len() == 0 {
        Multiset::empty()
    } else {
        files_multiset(cols.drop_last()).add(cols.last().files().to_multiset())
    }
}

proof fn lemma_files_multiset_push(cols: Seq<OrderedFiles>, c: OrderedFiles)
    ensures
        files_multiset(cols.push(c)) == files_multiset(cols).add(c.files().to_multiset()),
{
    assert(cols.push(c).drop_last() == cols);
}

proof fn lemma_filter_sorted(s: Seq<FileView>, pred: spec_fn(FileView) -> bool)
    requires
        sorted_by_name(s),
    ensures
        sorted_by_name(s.filter(pred)),
{
    let r = s.filter(pred);
    assert forall|a: int, b: int| 0 <= a < b < r.len() implies lex_le(#[trigger] r[a].0, #[trigger] r[b].0) by {
        lemma_filter_keeps_sorted(s, pred, a, b);
    }
}

proof fn lemma_filter_keeps_sorted(s: Seq<FileView>, pred: spec_fn(FileView) -> bool, a: int, b: int)
    requires
        sorted_by_name(s),
        0 <= a < b < s.filter(pred).len(),
    ensures
        lex_le(s.filter(pred)[a].0, s.filter(pred)[b].0),
    decreases s.len(),
{
    reveal(Seq::filter);
    if s.len() == 0 {
        assert(s.filter(pred).len() == 0);
    } else {
        let r = s.filter(pred);
        let init = s.drop_last();
        assert forall|i: int, j: int| 0 <= i < j < init.len() implies lex_le(#[trigger] init[i].0, #[trigger] init[j].0) by {
            assert(init[i] == s[i]);
            assert(init[j] == s[j]);
        }
        if pred(s.last()) {
            assert(r == init.filter(pred).push(s.last()));
            if b < r.len() - 1 {
                lemma_filter_keeps_sorted(init, pred, a, b);
                assert(r[a] == init.filter(pred)[a]);
                assert(r[b] == init.filter(pred)[b]);
            } else {
                init.lemma_filter_len(pred);
                let x = init.filter(pred)[a];
                assert(init.filter(pred).contains(x));
                init.lemma_filter_contains_rev(pred, x);
                assert(init.contains(x));
                let k = choose|k: int| 0 <= k < init.len() && init[k] == x;
                assert(s[k] == x);
                assert(s[s.len() - 1] == s.last());
                assert(lex_le(s[k].0, s[s.len() - 1].0));
                assert(r[a] == x);
                assert(r[b] == s.last());
            }
        } else {
            assert(r == init.filter(pred));
            lemma_filter_keeps_sorted(init, pred, a, b);
        }
    }
}

proof fn lemma_insert_pos_props(s: Seq<FileView>, x: FileView)
    ensures
        insert_pos(s, x) <= s.len(),
        forall|k: int| 0 <= k < insert_pos(s, x) ==> lex_le(#[trigger] s[k].0, x.0),
        insert_pos(s, x) < s.len() ==> !lex_le(s[insert_pos(s, x) as int].0, x.0),
    decreases s.len(),
{
    if s.len() > 0 && lex_le(s[0].0, x.0) {
        let t = s.drop_first();
        lemma_insert_pos_props(t, x);
        assert forall|k: int| 0 <= k < insert_pos(s, x) implies lex_le(#[trigger] s[k].0, x.0) by {
            if k > 0 {
                assert(s[k] == t[k - 1]);
            }
        }
        if insert_pos(s, x) < s.len() {
            assert(s[insert_pos(s, x) as int] == t[insert_pos(t, x) as int]);
        }
    }
}

/// Ordering files by name gives them ordered by name, the same files
pub proof fn lemma_sort_props(s: Seq<FileView>)
    ensures
        sorted_by_name(sort_by_name(s)),
        sort_by_name(s).to_multiset() == s.to_multiset(),
        sort_by_name(s).len() == s.len(),
    decreases s.len(),
{
    if s.len() > 0 {
        let d = s.drop_last();
        let x = s.last();
        lemma_sort_props(d);
        let r = sort_by_name(d);
        let p = insert_pos(r, x);
        lemma_insert_pos_props(r, x);
        if p < r.len() {
            lemma_lex_le_total(r[p as int].0, x.0);
        }
        let ns = r.insert(p as int, x);
        assert forall|a: int, b: int| 0 <= a < b < ns.len() implies lex_le(#[trigger] ns[a].0, #[trigger] ns[b].0) by {
            if b < p {
                assert(ns[a] == r[a] && ns[b] == r[b]);
            } else if b == p {
                assert(ns[a] == r[a]);
            } else if a < p {
                assert(ns[a] == r[a] && ns[b] == r[b - 1]);
                lemma_lex_le_total(r[p as int].0, x.0);
                if b - 1 > p {
                    lemma_lex_le_trans(x.0, r[p as int].0, r[b - 1].0);
                }
                lemma_lex_le_trans(r[a].0, x.0, r[b - 1].0);
            } else if a == p {
                assert(ns[b] == r[b - 1]);
                if b - 1 > p {
                    lemma_lex_le_trans(x.0, r[p as int].0, r[b - 1].0);
                }
            } else {
                assert(ns[a] == r[a - 1] && ns[b] == r[b - 1]);
            }
        }
        lemma_insert_multiset(r, p as int, x);
        assert(s == d.push(x));
    }
}

/// Ordering files with distinct names by name keeps their names distinct
pub proof fn lemma_sort_distinct(s: Seq<FileView>)
    requires
        distinct_names(s),
    ensures
        distinct_names(sort_by_name(s)),
    decreases s.len(),
{
    if s.len() > 0 {
        let d = s.drop_last();
        let x = s.last();
        assert forall|i: int, j: int| 0 <= i < j < d.len() implies #[trigger] d[i].0 != #[trigger] d[j].0 by {
            assert(d[i] == s[i] && d[j] == s[j]);
        }
        lemma_sort_distinct(d);
        lemma_sort_props(d);
        let r = sort_by_name(d);
        let p = insert_pos(r, x);
        lemma_insert_pos_props(r, x);
        assert forall|k: int| 0 <= k < r.len() implies #[trigger] r[k].0 != x.0 by {
            assert(r.to_multiset().count(r[k]) > 0);
            assert(d.to_multiset().count(r[k]) > 0);
            assert(d.contains(r[k]));
            let m = choose|m: int| 0 <= m < d.len() && d[m] == r[k];
            assert(s[m] == d[m]);
            assert(s[s.len() - 1] == x);
        }
        let ns = r.insert(p as int, x);
        assert forall|a: int, b: int| 0 <= a < b < ns.len() implies #[trigger] ns[a].0 != #[trigger] ns[b].0 by {
            if b < p {
                assert(ns[a] == r[a] && ns[b] == r[b]);
            } else if b == p {
                assert(ns[a] == r[a]);
            } else if a < p {
                assert(ns[a] == r[a] && ns[b] == r[b - 1]);
            } else if a == p {
                assert(ns[b] == r[b - 1]);
            } else {
                assert(ns[a] == r[a - 1] && ns[b] == r[b - 1]);
            }
        }
    }
}

/// Hashing does not depend on the order files are given in: files with
/// distinct names given in any two orders are ordered by name alike and
/// feed a hasher the same bytes.
pub proof fn law_order_independent_hashing(a: Seq<FileView>, b: Seq<FileView>)
    requires
        a.to_multiset() == b.to_multiset(),
        distinct_names(a),
    ensures
        sort_by_name(a) == sort_by_name(b),
        hash_input(sort_by_name(a)) == hash_input(sort_by_name(b)),
{
    lemma_sort_props(a);
    lemma_sort_props(b);
    lemma_sort_distinct(a);
    lemma_sorted_unique(sort_by_name(a), sort_by_name(b));
}

/// Ordering files that are already ordered by name leaves them as they are
pub proof fn lemma_sort_sorted(s: Seq<FileView>)
    requires
        sorted_by_name(s),
    ensures
        sort_by_name(s) == s,
    decreases s.len(),
{
    if s.len() > 0 {
        let d = s.drop_last();
        assert forall|i: int, j: int| 0 <= i < j < d.len() implies lex_le(#[trigger] d[i].0, #[trigger] d[j].0) by {
            assert(d[i] == s[i]);
            assert(d[j] == s[j]);
        }
        lemma_sort_sorted(d);
        assert forall|k: int| 0 <= k < d.len() implies lex_le(#[trigger] d[k].0, s.last().0) by {
            assert(d[k] == s[k]);
        }
        lemma_insert_pos(d, s.last(), d.len() as int);
        assert(d.insert(d.len() as int, s.last()) =~= s);
    }
}

/// Two name-ordered sequences holding the same files, whose names are distinct,
/// are the same sequence.
pub proof fn lemma_sorted_unique(a: Seq<FileView>, b: Seq<FileView>)
    requires
        sorted_by_name(a),
        sorted_by_name(b),
        a.to_multiset() == b.to_multiset(),
        distinct_names(a),
    ensures
        a == b,
    decreases a.len(),
{
    if a.len() == 0 {
        assert(b.to_multiset().len() == 0);
        assert(b =~= a);
    } else {
        assert(a.to_multiset().count(a[0]) > 0);
        assert(b.contains(a[0]));
        let k = choose|k: int| 0 <= k < b.len() && b[k] == a[0];
        assert(b.len() > 0);
        assert(b.to_multiset().count(b[0]) > 0);
        assert(a.contains(b[0]));
        let m = choose|m: int| 0 <= m < a.len() && a[m] == b[0];
        if m > 0 {
            assert(lex_le(a[0].0, a[m].0));
        } else {
            lemma_lex_le_refl(a[0].0);
        }
        if k > 0 {
            assert(lex_le(b[0].0, b[k].0));
        } else {
            lemma_lex_le_refl(b[0].0);
        }
        lemma_lex_le_antisym(a[0].0, b[0].0);
        if m > 0 {
            assert(a[0].0 != a[m].0);
        }
        assert(a[0] == b[0]);
        let a1 = a.drop_first();
        let b1 = b.drop_first();
        assert(a.remove(0) == a1);
        assert(b.remove(0) == b1);
        assert(a1.to_multiset() == a.to_multiset().remove(a[0]));
        assert(b1.to_multiset() == b.to_multiset().remove(b[0]));
        assert forall|i: int, j: int| 0 <= i < j < a1.len() implies lex_le(#[trigger] a1[i].0, #[trigger] a1[j].0) by {
            assert(a1[i] == a[i + 1]);
            assert(a1[j] == a[j + 1]);
        }
        assert forall|i: int, j: int| 0 <= i < j < b1.len() implies lex_le(#[trigger] b1[i].0, #[trigger] b1[j].0) by {
            assert(b1[i] == b[i + 1]);
            assert(b1[j] == b[j + 1]);
        }
        assert forall|i: int, j: int| 0 <= i < j < a1.len() implies #[trigger] a1[i].0 != #[trigger] a1[j].0 by {
            assert(a1[i] == a[i + 1]);
            assert(a1[j] == a[j + 1]);
        }
        lemma_sorted_unique(a1, b1);
        assert(a == seq![a[0]] + a1);
        assert(b == seq![b[0]] + b1);
    }
}

/// Every chunk read from a content fits in the read buffer
proof fn lemma_chunks_fit(content: Seq<u8>)
    ensures
        read_chunks(content).len() >= 1,
        forall|k: int| 0 <= k < read_chunks(content).len() ==> (#[trigger] read_chunks(content)[k]).len() <= READ_BUFFER_SIZE,
    decreases content.len(),
{
    if content.len() > 0 {
        let n = if content.len() < READ_BUFFER_SIZE { content.len() as int } else { READ_BUFFER_SIZE as int };
        lemma_chunks_fit(content.skip(n));
        let cs = read_chunks(content);
        assert forall|k: int| 0 <= k < cs.len() implies (#[trigger] cs[k]).len() <= READ_BUFFER_SIZE by {
            if k > 0 {
                assert(cs[k] == read_chunks(content.skip(n))[k - 1]);
            }
        }
    }
}

/// Reads that fit keep the buffer's length
proof fn lemma_buffer_len(chunks: Seq<Seq<u8>>, buf: Seq<u8>, k: nat)
    requires
        k <= chunks.len(),
        forall|j: int| 0 <= j < chunks.len() ==> (#[trigger] chunks[j]).len() <= buf.len(),
    ensures
        buffer_after(chunks, buf, k).len() == buf.len(),
    decreases k,
{
    if k > 0 {
        lemma_buffer_len(chunks, buf, (k - 1) as nat);
        assert(chunks[k - 1].len() <= buf.len());
    }
}

/// Reading a content through a full-size buffer leaves a full-size buffer,
/// and the last bytes hashed are that buffer
proof fn lemma_read_stream_ends_with_buffer(content: Seq<u8>, buf: Seq<u8>)
    requires
        buf.len() == READ_BUFFER_SIZE,
    ensures
        read_stream(content, buf).1.len() == READ_BUFFER_SIZE,
        read_stream(content, buf).0.len() >= READ_BUFFER_SIZE,
        read_stream(content, buf).0.subrange(read_stream(content, buf).0.len() - READ_BUFFER_SIZE,
            read_stream(content, buf).0.len() as int) == read_stream(content, buf).1,
{
    let cs = read_chunks(content);
    lemma_chunks_fit(content);
    lemma_buffer_len(cs, buf, cs.len());
    let k = cs.len();
    let h = hashed_after(cs, buf, k);
    let b = buffer_after(cs, buf, k);
    assert(h == hashed_after(cs, buf, (k - 1) as nat) + b);
    assert(h.subrange(h.len() - READ_BUFFER_SIZE, h.len() as int) =~= b);
}

/// The buffer left after hashing files is full-size, and it is the last
/// bytes hashed when there was a file
proof fn lemma_files_stream_ends_with_buffer(files: Seq<FileView>, buf: Seq<u8>)
    requires
        buf.len() == READ_BUFFER_SIZE,
    ensures
        files_stream(files, buf).1.len() == READ_BUFFER_SIZE,
        files.len() > 0 ==> files_stream(files, buf).0.len() >= READ_BUFFER_SIZE,
        files.len() > 0 ==> files_stream(files, buf).0.subrange(files_stream(files, buf).0.len() - READ_BUFFER_SIZE,
            files_stream(files, buf).0.len() as int) == files_stream(files, buf).1,
    decreases files.len(),
{
    if files.len() > 0 {
        let prev = files_stream(files.drop_last(), buf);
        lemma_files_stream_ends_with_buffer(files.drop_last(), buf);
        let f = files.last();
        let s = read_stream(f.1, prev.1);
        lemma_read_stream_ends_with_buffer(f.1, prev.1);
        let pre = prev.0 + vstd::utf8::encode_utf8(hashing_name(f.0));
        let all = pre + s.0;
        assert(files_stream(files, buf).0 == all);
        assert(all.subrange(all.len() - READ_BUFFER_SIZE, all.len() as int)
            =~= s.0.subrange(s.0.len() - READ_BUFFER_SIZE, s.0.len() as int));
    }
}

/// Files share one read buffer: a file shorter than the buffer is read into
/// the buffer as the files before it left it, which is the last
/// `READ_BUFFER_SIZE` bytes they were hashed with (all zero before the first
/// file). The buffer is hashed after its one read and again after the
/// empty read that ends the file, so what a file adds to the hashed bytes is
/// its hashing name and twice its content followed by the rest of that
/// buffer.
pub proof fn law_read_buffer_carries_over(files: Seq<FileView>, f: FileView)
    requires
        0 < f.1.len() < READ_BUFFER_SIZE,
    ensures
        ({
            let h = hash_input(files);
            let left = if files.len() == 0 {
                Seq::new(READ_BUFFER_SIZE as nat, |i: int| 0u8)
            } else {
                h.subrange(h.len() - READ_BUFFER_SIZE, h.len() as int)
            };
            let b = f.1 + left.skip(f.1.len() as int);
            &&& (files.len() > 0 ==> READ_BUFFER_SIZE <= h.len())
            &&& hash_input(files.push(f)) == h + vstd::utf8::encode_utf8(hashing_name(f.0)) + b + b
        }),
{
    let z = zero_buffer();
    lemma_files_stream_ends_with_buffer(files, z);
    let prev = files_stream(files, z);
    assert(files.push(f).drop_last() =~= files);
    let left = prev.1;
    let n = f.1.len() as int;
    let cs = read_chunks(f.1);
    assert(f.1.take(n) =~= f.1);
    assert(f.1.skip(n) =~= Seq::<u8>::empty());
    assert(read_chunks(Seq::<u8>::empty()) == seq![Seq::<u8>::empty()]);
    assert(cs =~= seq![f.1, Seq::<u8>::empty()]);
    let b = f.1 + left.skip(n);
    assert(cs[0] == f.1);
    assert(cs[1] == Seq::<u8>::empty());
    assert(buffer_after(cs, left, 0) == left);
    assert(buffer_after(cs, left, 1) == cs[0] + buffer_after(cs, left, 0).skip(cs[0].len() as int));
    assert(buffer_after(cs, left, 1) == b);
    assert(Seq::<u8>::empty() + b.skip(0) =~= b);
    assert(buffer_after(cs, left, 2) == b);
    assert(hashed_after(cs, left, 0) == Seq::<u8>::empty());
    assert(hashed_after(cs, left, 1) == hashed_after(cs, left, 0) + buffer_after(cs, left, 1));
    assert(hashed_after(cs, left, 1) =~= b);
    assert(hashed_after(cs, left, 2) == b + b);
    assert(read_stream(f.1, left).0 == b + b);
    if files.len() == 0 {
        assert(left == z);
        assert(z =~= Seq::new(READ_BUFFER_SIZE as nat, |i: int| 0u8));
    }
    assert(hash_input(files.push(f)) =~= prev.0 + vstd::utf8::encode_utf8(hashing_name(f.0)) + b + b);
}

/// Deterministic hashing: files handed over in any order are hashed
/// identically, as long as their names are distinct. Any two name-ordered
/// sequences of the same files (which is what `OrderedFiles::from` produces for
/// any order of its input) feed a hasher the same bytes.
pub proof fn law_deterministic_hashing(a: Seq<FileView>, b: Seq<FileView>)
    requires
        sorted_by_name(a),
        sorted_by_name(b),
        a.to_multiset() == b.to_multiset(),
        distinct_names(a),
    ensures
        hash_input(a) == hash_input(b),
{
    lemma_sorted_unique(a, b);
}

} // verus!
