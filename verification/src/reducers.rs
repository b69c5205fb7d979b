//! Reducers process records to present a digestable view of an item

use vstd::prelude::*;
use crate::record::{FileView, first_named};
use crate::repository::{Record, RecordView, files_have_type};
use crate::text::{trim, trimmed};

verus! {

/// Generic reducer: folds items into a state
pub trait Reducer: Sized {
    /// State type
    type State: View;
    /// Item type
    type Item: View;

    /// The state after `item` was reduced into `state`
    spec fn spec_reduce(&self, state: <Self::State as View>::V, item: <Self::Item as View>::V) -> <Self::State as View>::V;

    /// Whether the reducer can reduce `item` into `state`
    spec fn accepts(&self, state: <Self::State as View>::V, item: <Self::Item as View>::V) -> bool;

    /// Takes current state, item and returns new state
    fn reduce(&self, state: Self::State, item: &Self::Item) -> (r: Self::State)
        requires
            self.accepts(state@, item@),
        ensures
            r@ == self.spec_reduce(state@, item@),
    ;
}

/// Chained reducer (consists of two reducers): applies the first and then the
/// second reducer to a given state
pub struct ChainedReducer<R1, R2>(pub R1, pub R2);

impl<R1, R2> ChainedReducer<R1, R2> {
    /// Chains two reducers together sequentially: a reducer that applies `r1`
    /// and then `r2`
    pub fn new(r1: R1, r2: R2) -> (c: Self)
        ensures
            c.0 == r1,
            c.1 == r2,
    {
        ChainedReducer(r1, r2)
    }
}

impl<S: View, I: View, R1: Reducer<State = S, Item = I>, R2: Reducer<State = S, Item = I>> Reducer for ChainedReducer<R1, R2> {
    type State = S;
    type Item = I;

    open spec fn spec_reduce(&self, state: S::V, item: I::V) -> S::V {
        self.1.spec_reduce(self.0.spec_reduce(state, item), item)
    }

    open spec fn accepts(&self, state: S::V, item: I::V) -> bool {
        self.0.accepts(state, item) && self.1.accepts(self.0.spec_reduce(state, item), item)
    }

    fn reduce(&self, state: S, item: &I) -> (r: S) {
        let s = self.0.reduce(state, item);
        self.1.reduce(s, item)
    }
}

/// Reducing items one after another
pub open spec fn reduce_all<R: Reducer>(r: R, state: <R::State as View>::V, items: Seq<<R::Item as View>::V>) -> <R::State as View>::V
    decreases items.len(),
{
    if items.len() == 0 {
        state
    } else {
        r.spec_reduce(reduce_all(r, state, items.drop_last()), items.last())
    }
}

/// Whether every step of reducing items one after another is accepted
pub open spec fn accepts_all<R: Reducer>(r: R, state: <R::State as View>::V, items: Seq<<R::Item as View>::V>) -> bool {
    forall|i: int| 0 <= i < items.len() ==> r.accepts(reduce_all(r, state, items.take(i)), #[trigger] items[i])
}

/// The views of a sequence of items
pub open spec fn item_views<T: View>(items: Seq<T>) -> Seq<T::V> {
    items.map_values(|t: T| t@)
}

/// Reduces items one after another, starting from `state`
pub fn reduce_items<R: Reducer>(reducer: &R, state: R::State, items: &Vec<R::Item>) -> (r: R::State)
    requires
        accepts_all(*reducer, state@, item_views(items@)),
    ensures
        r@ == reduce_all(*reducer, state@, item_views(items@)),
{
    let ghost start = state@;
    let ghost all = item_views(items@);
    let mut state = state;
    let mut i: usize = 0;
    proof {
        assert(all.take(0) =~= Seq::empty());
    }
    while i < items.len()
        invariant
            i <= items@.len(),
            all == item_views(items@),
            accepts_all(*reducer, start, all),
            state@ == reduce_all(*reducer, start, all.take(i as int)),
        decreases items@.len() - i,
    {
        proof {
            assert(all[i as int] == items@[i as int]@);
            assert(all.take(i + 1).drop_last() == all.take(i as int));
            assert(all.take(i + 1).last() == all[i as int]);
        }
        state = reducer.reduce(state, &items[i]);
        i = i + 1;
    }
    proof {
        assert(all.take(all.len() as int) == all);
    }
    state
}

/// Reducing chained reducers applies the first, then the second, for each item.
pub proof fn law_chain_order<R1: Reducer, R2: Reducer<State = R1::State, Item = R1::Item>>(
    r1: R1, r2: R2, state: <R1::State as View>::V, item: <R1::Item as View>::V)
    ensures
        ChainedReducer(r1, r2).spec_reduce(state, item) == r2.spec_reduce(r1.spec_reduce(state, item), item),
{
}

/// Whether an issue is open or closed
#[derive(Debug, Clone, Copy, PartialEq, Eq, Structural)]
pub enum IssueStatus {
    /// open
    Open,
    /// closed
    Closed,
}

/// A comment on an issue
#[derive(Debug)]
pub struct Comment {
    /// The comment's text
    pub text: String,
    /// Who wrote it
    pub authors: String,
    /// When it was written
    pub timestamp: String,
}

/// A comment as a value: text, authors, timestamp
pub type CommentView = (Seq<char>, Seq<char>, Seq<char>);

impl View for Comment {
    type V = CommentView;

    open spec fn view(&self) -> CommentView {
        (self.text@, self.authors@, self.timestamp@)
    }
}

/// The state of an issue as the core reducers build it. A field is `None`
/// until a reducer sets it.
#[derive(Debug)]
pub struct IssueState {
    /// The item's identifier, when the records belong to an item
    pub id: Option<String>,
    /// The latest summary
    pub summary: Option<String>,
    /// The latest details
    pub details: Option<String>,
    /// Whether the issue is open or closed
    pub state: Option<IssueStatus>,
    /// Every comment, in order
    pub comments: Option<Vec<Comment>>,
    /// The names of every record that requested a merge, in order
    pub merge_requests: Option<Vec<String>>,
}

/// An issue state as a value
#[verifier::ext_equal]
pub struct IssueStateView {
    pub id: Option<Seq<char>>,
    pub summary: Option<Seq<char>>,
    pub details: Option<Seq<char>>,
    pub state: Option<IssueStatus>,
    pub comments: Option<Seq<CommentView>>,
    pub merge_requests: Option<Seq<Seq<char>>>,
}

/// The value of an optional string
pub open spec fn opt_view(o: Option<String>) -> Option<Seq<char>> {
    match o {
        Some(s) => Some(s@),
        None => None,
    }
}

impl View for IssueState {
    type V = IssueStateView;

    open spec fn view(&self) -> IssueStateView {
        IssueStateView {
            id: opt_view(self.id),
            summary: opt_view(self.summary),
            details: opt_view(self.details),
            state: self.state,
            comments: match self.comments {
                Some(c) => Some(c@.map_values(|x: Comment| x@)),
                None => None,
            },
            merge_requests: match self.merge_requests {
                Some(m) => Some(m@.map_values(|x: String| x@)),
                None => None,
            },
        }
    }
}

impl IssueState {
    /// The initial state of an issue: only its identifier, if any
    pub fn new(id: Option<String>) -> (s: IssueState)
        ensures
            s@ == initial_state(opt_view(id)),
    {
        IssueState { id, summary: None, details: None, state: None, comments: None, merge_requests: None }
    }
}

/// The initial state of an issue
pub open spec fn initial_state(id: Option<Seq<char>>) -> IssueStateView {
    IssueStateView { id, summary: None, details: None, state: None, comments: None, merge_requests: None }
}

/// The text of the first file named `name`, or empty text when there is none
pub open spec fn file_text(files: Seq<FileView>, name: Seq<char>) -> Seq<char> {
    let k = first_named(files, name);
    if k < files.len() {
        vstd::utf8::decode_utf8(files[k].1)
    } else {
        Seq::empty()
    }
}

/// Whether the first file named `name`, if any, is valid UTF-8
pub open spec fn file_readable(files: Seq<FileView>, name: Seq<char>) -> bool {
    let k = first_named(files, name);
    k < files.len() ==> vstd::utf8::valid_utf8(files[k].1)
}

/// Reads the text of the first file named `name` of a record (empty when
/// there is none)
pub fn record_text(record: &Record, name: &str) -> (res: String)
    requires
        file_readable(record.spec_files(), name@),
    ensures
        res@ == file_text(record.spec_files(), name@),
{
    match record.file(name) {
        None => String::new(),
        Some(f) => match crate::repository::utf8_text(f.content()) {
            Some(t) => t,
            None => String::new(),
        },
    }
}

/// Reduces SummaryChanged type: the summary becomes the record's trimmed `text`
pub struct IssueSummaryReducer;

/// Reduces DetailsChanged type: the details become the record's `text`
pub struct IssueDetailsReducer;

/// Reduces Closed and Reopened types into the issue's state (open at first)
pub struct IssueClosureReducer;

/// Reduces Commented type: appends a comment made of the record's `text`,
/// `.authors` and `.timestamp`
pub struct CommentedReducer;

/// Reduces MergeRequested type: appends the record's name to the merge requests
pub struct MergeRequestedReducer;

impl IssueSummaryReducer {
    /// Returns the reducer
    pub fn new() -> Self {
        IssueSummaryReducer
    }
}

impl IssueDetailsReducer {
    /// Returns the reducer
    pub fn new() -> Self {
        IssueDetailsReducer
    }
}

impl IssueClosureReducer {
    /// Returns the reducer
    pub fn new() -> Self {
        IssueClosureReducer
    }
}

impl CommentedReducer {
    /// Returns the reducer
    pub fn new() -> Self {
        CommentedReducer
    }
}

impl MergeRequestedReducer {
    /// Returns the reducer
    pub fn new() -> Self {
        MergeRequestedReducer
    }
}

impl Reducer for IssueSummaryReducer {
    type State = IssueState;
    type Item = Record;

    open spec fn spec_reduce(&self, s: IssueStateView, r: RecordView) -> IssueStateView {
        if files_have_type(r.3, "SummaryChanged"@) {
            IssueStateView { summary: Some(trimmed(file_text(r.3, "text"@))), ..s }
        } else {
            s
        }
    }

    open spec fn accepts(&self, s: IssueStateView, r: RecordView) -> bool {
        files_have_type(r.3, "SummaryChanged"@) ==> file_readable(r.3, "text"@)
    }

    fn reduce(&self, state: IssueState, item: &Record) -> (r: IssueState) {
        let mut state = state;
        if item.has_type("SummaryChanged") {
            let t = record_text(item, "text");
            state.summary = Some(trim(t.as_str()));
        }
        state
    }
}

impl Reducer for IssueDetailsReducer {
    type State = IssueState;
    type Item = Record;

    open spec fn spec_reduce(&self, s: IssueStateView, r: RecordView) -> IssueStateView {
        if files_have_type(r.3, "DetailsChanged"@) {
            IssueStateView { details: Some(file_text(r.3, "text"@)), ..s }
        } else {
            s
        }
    }

    open spec fn accepts(&self, s: IssueStateView, r: RecordView) -> bool {
        files_have_type(r.3, "DetailsChanged"@) ==> file_readable(r.3, "text"@)
    }

    fn reduce(&self, state: IssueState, item: &Record) -> (r: IssueState) {
        let mut state = state;
        if item.has_type("DetailsChanged") {
            state.details = Some(record_text(item, "text"));
        }
        state
    }
}

impl Reducer for IssueClosureReducer {
    type State = IssueState;
    type Item = Record;

    open spec fn spec_reduce(&self, s: IssueStateView, r: RecordView) -> IssueStateView {
        let st = if files_have_type(r.3, "Closed"@) {
            IssueStatus::Closed
        } else if files_have_type(r.3, "Reopened"@) {
            IssueStatus::Open
        } else {
            match s.state {
                Some(x) => x,
                None => IssueStatus::Open,
            }
        };
        IssueStateView { state: Some(st), ..s }
    }

    open spec fn accepts(&self, s: IssueStateView, r: RecordView) -> bool {
        true
    }

    fn reduce(&self, state: IssueState, item: &Record) -> (r: IssueState) {
        let mut state = state;
        if state.state.is_none() {
            state.state = Some(IssueStatus::Open);
        }
        if item.has_type("Closed") {
            state.state = Some(IssueStatus::Closed);
        } else if item.has_type("Reopened") {
            state.state = Some(IssueStatus::Open);
        }
        state
    }
}

impl Reducer for CommentedReducer {
    type State = IssueState;
    type Item = Record;

    open spec fn spec_reduce(&self, s: IssueStateView, r: RecordView) -> IssueStateView {
        let existing = match s.comments {
            Some(c) => c,
            None => Seq::empty(),
        };
        let comments = if files_have_type(r.3, "Commented"@) {
            existing.push((file_text(r.3, "text"@), file_text(r.3, ".authors"@), file_text(r.3, ".timestamp"@)))
        } else {
            existing
        };
        IssueStateView { comments: Some(comments), ..s }
    }

    open spec fn accepts(&self, s: IssueStateView, r: RecordView) -> bool {
        files_have_type(r.3, "Commented"@) ==> {
            &&& file_readable(r.3, "text"@)
            &&& file_readable(r.3, ".authors"@)
            &&& file_readable(r.3, ".timestamp"@)
        }
    }

    fn reduce(&self, state: IssueState, item: &Record) -> (r: IssueState) {
        let ghost sv = state@;
        let mut state = state;
        let mut comments = match state.comments {
            Some(c) => c,
            None => Vec::new(),
        };
        let ghost before = comments@;
        proof {
            assert(before.map_values(|x: Comment| x@) =~= (match sv.comments {
                Some(c) => c,
                None => Seq::empty(),
            }));
        }
        if item.has_type("Commented") {
            let c = Comment {
                text: record_text(item, "text"),
                authors: record_text(item, ".authors"),
                timestamp: record_text(item, ".timestamp"),
            };
            comments.push(c);
            proof {
                assert(comments@.map_values(|x: Comment| x@) =~= before.map_values(|x: Comment| x@).push(c@));
            }
        }
        state.comments = Some(comments);
        proof {
            assert(state@ =~= self.spec_reduce(sv, item@));
        }
        state
    }
}

impl Reducer for MergeRequestedReducer {
    type State = IssueState;
    type Item = Record;

    open spec fn spec_reduce(&self, s: IssueStateView, r: RecordView) -> IssueStateView {
        let existing = match s.merge_requests {
            Some(m) => m,
            None => Seq::empty(),
        };
        let requests = if files_have_type(r.3, "MergeRequested"@) {
            existing.push(r.1.spec_encode(r.0))
        } else {
            existing
        };
        IssueStateView { merge_requests: Some(requests), ..s }
    }

    open spec fn accepts(&self, s: IssueStateView, r: RecordView) -> bool {
        true
    }

    fn reduce(&self, state: IssueState, item: &Record) -> (r: IssueState) {
        let ghost sv = state@;
        let mut state = state;
        let mut requests = match state.merge_requests {
            Some(m) => m,
            None => Vec::new(),
        };
        let ghost before = requests@;
        proof {
            assert(before.map_values(|x: String| x@) =~= (match sv.merge_requests {
                Some(m) => m,
                None => Seq::empty(),
            }));
        }
        if item.has_type("MergeRequested") {
            let h = item.encoded_hash();
            requests.push(h);
            proof {
                assert(requests@.map_values(|x: String| x@) =~= before.map_values(|x: String| x@).push(h@));
            }
        }
        state.merge_requests = Some(requests);
        proof {
            assert(state@ =~= self.spec_reduce(sv, item@));
        }
        state
    }
}

/// Combines Closed, SummaryChanged, DetailsChanged, Commented, MergeRequested
/// reducers: merge requests, comments, closure, summary, then details
pub struct BasicIssueReducer(
    pub ChainedReducer<MergeRequestedReducer, ChainedReducer<CommentedReducer,
        ChainedReducer<ChainedReducer<IssueClosureReducer, IssueSummaryReducer>, IssueDetailsReducer>>>,
);

impl BasicIssueReducer {
    /// The combined reducer
    pub open spec fn new_spec() -> BasicIssueReducer {
        BasicIssueReducer(ChainedReducer(
            MergeRequestedReducer,
            ChainedReducer(
                CommentedReducer,
                ChainedReducer(ChainedReducer(IssueClosureReducer, IssueSummaryReducer), IssueDetailsReducer),
            ),
        ))
    }

    /// Returns the combined reducer
    pub fn new() -> (r: Self)
        ensures
            r == Self::new_spec(),
    {
        BasicIssueReducer(ChainedReducer::new(
            MergeRequestedReducer::new(),
            ChainedReducer::new(
                CommentedReducer::new(),
                ChainedReducer::new(
                    ChainedReducer::new(IssueClosureReducer::new(), IssueSummaryReducer::new()),
                    IssueDetailsReducer::new(),
                ),
            ),
        ))
    }
}

impl Reducer for BasicIssueReducer {
    type State = IssueState;
    type Item = Record;

    open spec fn spec_reduce(&self, s: IssueStateView, r: RecordView) -> IssueStateView {
        self.0.spec_reduce(s, r)
    }

    open spec fn accepts(&self, s: IssueStateView, r: RecordView) -> bool {
        self.0.accepts(s, r)
    }

    fn reduce(&self, state: IssueState, item: &Record) -> (r: IssueState) {
        self.0.reduce(state, item)
    }
}

/// Records of generations, one generation after another
pub open spec fn flatten_generations(gens: Seq<Vec<Record>>) -> Seq<RecordView>
    decreases gens.len(),
{
    if gens.len() == 0 {
        Seq::empty()
    } else {
        flatten_generations(gens.drop_last()) + item_views(gens.last()@)
    }
}

/// Reduces the records of an item, generation after generation, starting
/// from a state that holds only the item's identifier (if any)
pub fn reduce_with_reducer<R: Reducer<State = IssueState, Item = Record>>(reducer: &R, id: Option<String>, generations: &Vec<Vec<Record>>) -> (r: IssueState)
    requires
        accepts_all(*reducer, initial_state(opt_view(id)), flatten_generations(generations@)),
    ensures
        r@ == reduce_all(*reducer, initial_state(opt_view(id)), flatten_generations(generations@)),
{
    let ghost start = initial_state(opt_view(id));
    let ghost all = flatten_generations(generations@);
    let mut state = IssueState::new(id);
    let mut g: usize = 0;
    let ghost mut base: int = 0;
    proof {
        assert(all.take(0) =~= Seq::empty());
    }
    while g < generations.len()
        invariant
            g <= generations@.len(),
            all == flatten_generations(generations@),
            accepts_all(*reducer, start, all),
            base == flatten_generations(generations@.take(g as int)).len(),
            base <= all.len(),
            state@ == reduce_all(*reducer, start, all.take(base)),
        decreases generations@.len() - g,
    {
        let gen = &generations[g];
        let mut i: usize = 0;
        proof {
            lemma_flatten_step(generations@, g as int);
        }
        while i < gen.len()
            invariant
                i <= gen@.len(),
                all == flatten_generations(generations@),
                accepts_all(*reducer, start, all),
                0 <= base,
                base + gen@.len() <= all.len(),
                forall|k: int| 0 <= k < gen@.len() ==> all[base + k] == (#[trigger] gen@[k])@,
                state@ == reduce_all(*reducer, start, all.take(base + i)),
            decreases gen@.len() - i,
        {
            proof {
                let p = base + i;
                assert(all.take(p + 1).drop_last() == all.take(p));
                assert(all.take(p + 1).last() == all[p]);
                assert(all[p] == gen@[i as int]@);
            }
            state = reducer.reduce(state, &gen[i]);
            i = i + 1;
        }
        proof {
            base = base + gen@.len();
        }
        g = g + 1;
    }
    proof {
        assert(generations@.take(generations@.len() as int) == generations@);
        assert(all.take(all.len() as int) == all);
    }
    state
}

proof fn lemma_flatten_step(gens: Seq<Vec<Record>>, g: int)
    requires
        0 <= g < gens.len(),
    ensures
        flatten_generations(gens.take(g + 1)) == flatten_generations(gens.take(g)) + item_views(gens[g]@),
        flatten_generations(gens.take(g)).len() + gens[g]@.len() <= flatten_generations(gens).len(),
        forall|k: int| 0 <= k < gens[g]@.len() ==>
            flatten_generations(gens)[flatten_generations(gens.take(g)).len() + k] == (#[trigger] gens[g]@[k])@,
{
    assert(gens.take(g + 1).drop_last() == gens.take(g));
    assert(gens.take(g + 1).last() == gens[g]);
    lemma_flatten_prefix(gens, g + 1);
    let pre = flatten_generations(gens.take(g + 1));
    let whole = flatten_generations(gens);
    let b = flatten_generations(gens.take(g)).len();
    assert forall|k: int| 0 <= k < gens[g]@.len() implies
        whole[b + k] == (#[trigger] gens[g]@[k])@ by {
        assert(pre[b + k] == item_views(gens[g]@)[k]);
        assert(whole[b + k] == pre[b + k]);
    }
}

proof fn lemma_flatten_prefix(gens: Seq<Vec<Record>>, k: int)
    requires
        0 <= k <= gens.len(),
    ensures
        flatten_generations(gens.take(k)).is_prefix_of(flatten_generations(gens)),
    decreases gens.len(),
{
    if k < gens.len() {
        assert(gens.drop_last().take(k) == gens.take(k));
        lemma_flatten_prefix(gens.drop_last(), k);
    } else {
        assert(gens.take(k) == gens);
    }
}

/// Index of the last record of type `typ`, or -1 when there is none
pub open spec fn last_with_type(items: Seq<RecordView>, typ: Seq<char>) -> int
    decreases items.len(),
{
    if items.len() == 0 {
        -1
    } else if files_have_type(items.last().3, typ) {
        items.len() - 1
    } else {
        last_with_type(items.drop_last(), typ)
    }
}

proof fn lemma_last_with_type_range(items: Seq<RecordView>, typ: Seq<char>)
    ensures
        -1 <= last_with_type(items, typ) < items.len(),
        last_with_type(items, typ) >= 0 ==> files_have_type(items[last_with_type(items, typ)].3, typ),
    decreases items.len(),
{
    if items.len() > 0 && !files_have_type(items.last().3, typ) {
        lemma_last_with_type_range(items.drop_last(), typ);
        let k = last_with_type(items.drop_last(), typ);
        if k >= 0 {
            assert(items.drop_last()[k] == items[k]);
        }
    }
}

proof fn lemma_last_closure_range(items: Seq<RecordView>)
    ensures
        -1 <= last_closure(items) < items.len(),
    decreases items.len(),
{
    if items.len() > 0 {
        lemma_last_closure_range(items.drop_last());
    }
}

/// Index of the last record of type `Closed` or `Reopened`, or -1
pub open spec fn last_closure(items: Seq<RecordView>) -> int
    decreases items.len(),
{
    if items.len() == 0 {
        -1
    } else if files_have_type(items.last().3, "Closed"@) || files_have_type(items.last().3, "Reopened"@) {
        items.len() - 1
    } else {
        last_closure(items.drop_last())
    }
}

/// The comments that the records of type `Commented` make, in order
pub open spec fn comments_of(items: Seq<RecordView>) -> Seq<CommentView>
    decreases items.len(),
{
    if items.len() == 0 {
        Seq::empty()
    } else {
        let r = items.last();
        let prev = comments_of(items.drop_last());
        if files_have_type(r.3, "Commented"@) {
            prev.push((file_text(r.3, "text"@), file_text(r.3, ".authors"@), file_text(r.3, ".timestamp"@)))
        } else {
            prev
        }
    }
}

/// The names of the records of type `MergeRequested`, in order
pub open spec fn merge_requests_of(items: Seq<RecordView>) -> Seq<Seq<char>>
    decreases items.len(),
{
    if items.len() == 0 {
        Seq::empty()
    } else {
        let r = items.last();
        let prev = merge_requests_of(items.drop_last());
        if files_have_type(r.3, "MergeRequested"@) {
            prev.push(r.1.spec_encode(r.0))
        } else {
            prev
        }
    }
}

/// The summary is the trimmed text of the latest `SummaryChanged` record;
/// without one it is left as it was. Nothing else changes.
pub proof fn law_summary_is_latest(s: IssueStateView, items: Seq<RecordView>)
    ensures
        ({
            let r = reduce_all(IssueSummaryReducer, s, items);
            let k = last_with_type(items, "SummaryChanged"@);
            &&& r.summary == (if k >= 0 { Some(trimmed(file_text(items[k].3, "text"@))) } else { s.summary })
            &&& r.id == s.id && r.details == s.details && r.state == s.state
            &&& r.comments == s.comments && r.merge_requests == s.merge_requests
        }),
    decreases items.len(),
{
    if items.len() > 0 {
        law_summary_is_latest(s, items.drop_last());
        lemma_last_with_type_range(items.drop_last(), "SummaryChanged"@);
        let k = last_with_type(items.drop_last(), "SummaryChanged"@);
        if k >= 0 {
            assert(items.drop_last()[k] == items[k]);
        }
    }
}

/// The details are the text of the latest `DetailsChanged` record; without
/// one they are left as they were. Nothing else changes.
pub proof fn law_details_is_latest(s: IssueStateView, items: Seq<RecordView>)
    ensures
        ({
            let r = reduce_all(IssueDetailsReducer, s, items);
            let k = last_with_type(items, "DetailsChanged"@);
            &&& r.details == (if k >= 0 { Some(file_text(items[k].3, "text"@)) } else { s.details })
            &&& r.id == s.id && r.summary == s.summary && r.state == s.state
            &&& r.comments == s.comments && r.merge_requests == s.merge_requests
        }),
    decreases items.len(),
{
    if items.len() > 0 {
        law_details_is_latest(s, items.drop_last());
        lemma_last_with_type_range(items.drop_last(), "DetailsChanged"@);
        let k = last_with_type(items.drop_last(), "DetailsChanged"@);
        if k >= 0 {
            assert(items.drop_last()[k] == items[k]);
        }
    }
}

/// After at least one record an issue is closed exactly when its latest
/// `Closed` or `Reopened` record is `Closed` (a record of both types closes);
/// with no such record it keeps its state, open by default.
pub proof fn law_closure_is_latest(s: IssueStateView, items: Seq<RecordView>)
    requires
        items.len() > 0,
    ensures
        ({
            let r = reduce_all(IssueClosureReducer, s, items);
            let k = last_closure(items);
            &&& r.state == Some(if k >= 0 {
                    if files_have_type(items[k].3, "Closed"@) { IssueStatus::Closed } else { IssueStatus::Open }
                } else {
                    match s.state { Some(x) => x, None => IssueStatus::Open }
                })
            &&& r.id == s.id && r.summary == s.summary && r.details == s.details
            &&& r.comments == s.comments && r.merge_requests == s.merge_requests
        }),
    decreases items.len(),
{
    lemma_last_closure_range(items);
    if items.len() > 1 {
        law_closure_is_latest(s, items.drop_last());
    }
    let last = items.last();
    let prev = reduce_all(IssueClosureReducer, s, items.drop_last());
    assert(reduce_all(IssueClosureReducer, s, items) == IssueClosureReducer.spec_reduce(prev, last));
    if files_have_type(last.3, "Closed"@) || files_have_type(last.3, "Reopened"@) {
        assert(last_closure(items) == items.len() - 1);
    } else if items.len() > 1 {
        lemma_last_closure_range(items.drop_last());
        let k = last_closure(items.drop_last());
        assert(last_closure(items) == k);
        if k >= 0 {
            assert(items.drop_last()[k] == items[k]);
        }
    } else {
        assert(items.drop_last().len() == 0);
        assert(prev == s);
        assert(last_closure(items.drop_last()) == -1);
    }
}

/// After at least one record, the comments are those there were, followed
/// by one comment per `Commented` record, in order. Nothing else changes.
pub proof fn law_comments_in_order(s: IssueStateView, items: Seq<RecordView>)
    requires
        items.len() > 0,
    ensures
        ({
            let r = reduce_all(CommentedReducer, s, items);
            &&& r.comments == Some(match s.comments { Some(c) => c, None => Seq::empty() } + comments_of(items))
            &&& r.id == s.id && r.summary == s.summary && r.details == s.details
            &&& r.state == s.state && r.merge_requests == s.merge_requests
        }),
    decreases items.len(),
{
    let e = match s.comments { Some(c) => c, None => Seq::<CommentView>::empty() };
    if items.len() > 1 {
        law_comments_in_order(s, items.drop_last());
        let r = items.last();
        let prev = reduce_all(CommentedReducer, s, items.drop_last());
        assert(prev.comments == Some(e + comments_of(items.drop_last())));
        if files_have_type(r.3, "Commented"@) {
            assert(e + comments_of(items) =~= (e + comments_of(items.drop_last())).push(
                (file_text(r.3, "text"@), file_text(r.3, ".authors"@), file_text(r.3, ".timestamp"@))));
        } else {
            assert(e + comments_of(items) =~= e + comments_of(items.drop_last()));
        }
        assert(reduce_all(CommentedReducer, s, items) == CommentedReducer.spec_reduce(prev, r));
    } else {
        assert(items.drop_last().len() == 0);
        assert(comments_of(items.drop_last()) == Seq::<CommentView>::empty());
        let r = items.last();
        if files_have_type(r.3, "Commented"@) {
            assert(e + comments_of(items) =~= e.push(
                (file_text(r.3, "text"@), file_text(r.3, ".authors"@), file_text(r.3, ".timestamp"@))));
        } else {
            assert(e + comments_of(items) =~= e);
        }
    }
}

/// After at least one record, the merge requests are those there were,
/// followed by the name of every `MergeRequested` record, in order. Nothing
/// else changes.
pub proof fn law_merge_requests_in_order(s: IssueStateView, items: Seq<RecordView>)
    requires
        items.len() > 0,
    ensures
        ({
            let r = reduce_all(MergeRequestedReducer, s, items);
            &&& r.merge_requests == Some(match s.merge_requests { Some(m) => m, None => Seq::empty() } + merge_requests_of(items))
            &&& r.id == s.id && r.summary == s.summary && r.details == s.details
            &&& r.state == s.state && r.comments == s.comments
        }),
    decreases items.len(),
{
    let e = match s.merge_requests { Some(m) => m, None => Seq::<Seq<char>>::empty() };
    if items.len() > 1 {
        law_merge_requests_in_order(s, items.drop_last());
        let r = items.last();
        let prev = reduce_all(MergeRequestedReducer, s, items.drop_last());
        assert(prev.merge_requests == Some(e + merge_requests_of(items.drop_last())));
        if files_have_type(r.3, "MergeRequested"@) {
            assert(e + merge_requests_of(items) =~= (e + merge_requests_of(items.drop_last())).push(r.1.spec_encode(r.0)));
        } else {
            assert(e + merge_requests_of(items) =~= e + merge_requests_of(items.drop_last()));
        }
        assert(reduce_all(MergeRequestedReducer, s, items) == MergeRequestedReducer.spec_reduce(prev, r));
    } else {
        assert(items.drop_last().len() == 0);
        assert(merge_requests_of(items.drop_last()) == Seq::<Seq<char>>::empty());
        let r = items.last();
        if files_have_type(r.3, "MergeRequested"@) {
            assert(e + merge_requests_of(items) =~= e.push(r.1.spec_encode(r.0)));
        } else {
            assert(e + merge_requests_of(items) =~= e);
        }
    }
}

} // verus!
