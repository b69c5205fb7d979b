use sit_core::encoding::Encoding;
use sit_core::issue::{reduce_basic, reduce_listing, ReductionError};
use sit_core::record::{File, OrderedFiles};
use sit_core::reducers::{
    reduce_items, reduce_with_reducer, BasicIssueReducer, ChainedReducer, CommentedReducer, IssueClosureReducer,
    IssueDetailsReducer, IssueState, IssueStatus, IssueSummaryReducer, MergeRequestedReducer, Reducer,
};
use sit_core::repository::{plan_new_record, Config, Record};

fn record(files: &[(&str, &[u8])], parents: &Vec<Record>) -> Record {
    let config = Config::default_config();
    let given: Vec<File> = files.iter().map(|(n, c)| File::new(n.to_string(), c.to_vec())).collect();
    let planned = plan_new_record(&config, "records", OrderedFiles::from(given), !parents.is_empty(), parents).unwrap();
    let stored: Vec<File> = planned.files.into_iter().map(|(n, c)| File::new(n, c)).collect();
    Record::new(planned.hash, Encoding::Base32, planned.path, stored)
}

fn copy(r: &Record) -> Record {
    let files = r.files().iter().map(|f| f.duplicate()).collect();
    Record::new(r.hash(), Encoding::Base32, r.path().to_string(), files)
}

#[test]
fn chained_reducer() {
    // the second reducer sees what the first produced
    let r = record(&[(".type/SummaryChanged", b""), ("text", b"  Title  ")], &vec![]);
    let chained = ChainedReducer::new(IssueSummaryReducer::new(), IssueDetailsReducer::new());
    let state = chained.reduce(IssueState::new(None), &r);
    assert_eq!(state.summary, Some("Title".to_string()));
    assert_eq!(state.details, None);
    let closing = record(&[(".type/Closed", b"")], &vec![]);
    let twice = ChainedReducer::new(IssueClosureReducer::new(), IssueClosureReducer::new());
    let state = twice.reduce(IssueState::new(None), &closing);
    assert_eq!(state.state, Some(IssueStatus::Closed));
}

#[test]
fn summary() {
    let id = Some("item".to_string());
    // no SummaryChanged
    let state = reduce_with_reducer(&IssueSummaryReducer::new(), id.clone(), &vec![]);
    assert!(state.summary.is_none());
    // one SummaryChanged
    let r1 = record(&[(".type/SummaryChanged", b""), ("text", b"Title")], &vec![]);
    let state = reduce_with_reducer(&IssueSummaryReducer::new(), id.clone(), &vec![vec![copy(&r1)]]);
    assert_eq!(state.summary.unwrap(), "Title");
    // two SummaryChanged items
    let r2 = record(&[(".type/SummaryChanged", b""), ("text", b"New title")], &vec![copy(&r1)]);
    let state = reduce_with_reducer(&IssueSummaryReducer::new(), id, &vec![vec![r1], vec![r2]]);
    assert_eq!(state.summary.unwrap(), "New title");
}

#[test]
fn details() {
    let id = Some("item".to_string());
    // no DetailsChanged
    let state = reduce_with_reducer(&IssueDetailsReducer::new(), id.clone(), &vec![]);
    assert!(state.details.is_none());
    // one DetailsChanged
    let r1 = record(&[(".type/DetailsChanged", b""), ("text", b"Explanation")], &vec![]);
    let state = reduce_with_reducer(&IssueDetailsReducer::new(), id.clone(), &vec![vec![copy(&r1)]]);
    assert_eq!(state.details.unwrap(), "Explanation");
    // two DetailsChanged items
    let r2 = record(&[(".type/DetailsChanged", b""), ("text", b"New explanation")], &vec![copy(&r1)]);
    let state = reduce_with_reducer(&IssueDetailsReducer::new(), id, &vec![vec![r1], vec![r2]]);
    assert_eq!(state.details.unwrap(), "New explanation");
}

#[test]
fn closure() {
    let id = Some("item".to_string());
    // Closed
    let r1 = record(&[(".type/Closed", b"")], &vec![]);
    let state = reduce_with_reducer(&IssueClosureReducer::new(), id.clone(), &vec![vec![copy(&r1)]]);
    assert_eq!(state.state, Some(IssueStatus::Closed));
    // Reopened
    let r2 = record(&[(".type/Reopened", b"")], &vec![copy(&r1)]);
    let state = reduce_with_reducer(&IssueClosureReducer::new(), id, &vec![vec![r1], vec![r2]]);
    assert_eq!(state.state, Some(IssueStatus::Open));
}

#[test]
fn commented() {
    let r = record(&[(".type/Commented", b""), ("text", b"Comment 1"),
                     (".timestamp", b"2018-01-30T16:24:59.385560008Z"),
                     (".authors", b"John Doe <john@foobar.com>")], &vec![]);
    let state = reduce_with_reducer(&CommentedReducer::new(), Some("item".to_string()), &vec![vec![r]]);
    let comments = state.comments.unwrap();
    assert_eq!(comments.len(), 1);
    assert_eq!(comments[0].text, "Comment 1");
    assert_eq!(comments[0].authors, "John Doe <john@foobar.com>");
    assert_eq!(comments[0].timestamp, "2018-01-30T16:24:59.385560008Z");
}

#[test]
fn merge_requested() {
    let r = record(&[(".type/MergeRequested", b"")], &vec![]);
    let name = r.encoded_hash();
    let state = reduce_with_reducer(&MergeRequestedReducer::new(), Some("item".to_string()), &vec![vec![r]]);
    let requests = state.merge_requests.unwrap();
    assert_eq!(requests.len(), 1);
    assert_eq!(requests[0], name);
}

#[test]
fn reduction() {
    let r1 = record(&[(".type/SummaryChanged", b""), ("text", b"Title")], &vec![]);
    let r2 = record(&[(".type/DetailsChanged", b""), ("text", b"Explanation")], &vec![copy(&r1)]);
    let r3 = record(&[(".type/Closed", b"")], &vec![copy(&r2)]);
    let listing: Result<Vec<Vec<Record>>, String> = Ok(vec![vec![r1], vec![r2], vec![r3]]);
    let state = match reduce_basic(Some("an-id".to_string()), listing) {
        Ok(s) => s,
        Err(_) => panic!("reduction failed"),
    };
    assert_eq!(state.id.unwrap(), "an-id");
    assert_eq!(state.summary.unwrap(), "Title");
    assert_eq!(state.details.unwrap(), "Explanation");
    assert_eq!(state.state, Some(IssueStatus::Closed));
    assert!(state.comments.is_some());
}

#[test]
fn reduction_reports_listing_errors() {
    let listing: Result<Vec<Vec<Record>>, String> = Err("cannot list".to_string());
    match reduce_listing(&BasicIssueReducer::new(), None, listing) {
        Err(ReductionError::ImplementationError(e)) => assert_eq!(e, "cannot list"),
        Ok(_) => panic!("a listing error must be reported"),
    }
}

#[test]
fn latest_closure_record_decides() {
    // a record of both types closes; unrelated records keep the state
    let both = record(&[(".type/Closed", b""), (".type/Reopened", b"")], &vec![]);
    let other = record(&[("text", b"x")], &vec![]);
    let state = reduce_items(&IssueClosureReducer::new(), IssueState::new(None), &vec![both, other]);
    assert_eq!(state.state, Some(IssueStatus::Closed));
    // no closure record at all: open by default
    let plain = record(&[("text", b"y")], &vec![]);
    let state = reduce_items(&IssueClosureReducer::new(), IssueState::new(None), &vec![plain]);
    assert_eq!(state.state, Some(IssueStatus::Open));
}

#[test]
fn comments_and_merge_requests_keep_record_order() {
    let c1 = record(&[(".type/Commented", b""), ("text", b"first"), (".authors", b"A"), (".timestamp", b"1")], &vec![]);
    let c2 = record(&[(".type/Commented", b""), ("text", b"second")], &vec![]);
    let m1 = record(&[(".type/MergeRequested", b""), ("text", b"m1")], &vec![]);
    let m2 = record(&[(".type/MergeRequested", b""), ("text", b"m2")], &vec![]);
    let n1 = m1.encoded_hash();
    let n2 = m2.encoded_hash();
    let state = reduce_items(&BasicIssueReducer::new(), IssueState::new(None), &vec![c1, m1, c2, m2]);
    let comments = state.comments.unwrap();
    assert_eq!(comments.len(), 2);
    assert_eq!(comments[0].text, "first");
    assert_eq!(comments[0].authors, "A");
    assert_eq!(comments[1].text, "second");
    // a comment without `.authors` gets empty authors
    assert_eq!(comments[1].authors, "");
    assert_eq!(state.merge_requests.unwrap(), vec![n1, n2]);
    // no summary or details record: left unset, state open
    assert!(state.summary.is_none());
    assert!(state.details.is_none());
    assert_eq!(state.state, Some(IssueStatus::Open));
}

#[test]
fn summary_is_trimmed_details_are_not() {
    let r = record(&[(".type/SummaryChanged", b""), (".type/DetailsChanged", b""), ("text", b"\n  Both \t\n")], &vec![]);
    let state = reduce_items(&BasicIssueReducer::new(), IssueState::new(Some("i".to_string())), &vec![r]);
    assert_eq!(state.summary.unwrap(), "Both");
    assert_eq!(state.details.unwrap(), "\n  Both \t\n");
    assert_eq!(state.id.unwrap(), "i");
}
