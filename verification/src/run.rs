//! A run: the outcomes of the extractions, in the order of the files, and
//! what survives of them.

use crate::discovery::{candidates, lemma_discovery_ignores_listing_order, DirEntryView};
use crate::exif::{extraction, outcome_view};
use crate::report::{csv_document, header_field, lemma_documents_differ_in_header_only, row_record};
use crate::sorting::ascending;
use crate::text::text_le;
use vstd::prelude::*;

verus! {

/// The seconds for which a run pauses at its end, so that whoever started it
/// can read what it printed.
pub const PAUSE_SECONDS: u64 = 30;

/// What a run leaves: the rows of the files whose metadata could be read, and
/// the messages that report the other files, each in the order of the files.
#[derive(Debug, PartialEq, Eq)]
pub struct RunResult {
    pub rows: Vec<Vec<String>>,
    pub failures: Vec<String>,
}

/// The rows among the outcomes, in the order of the outcomes.
pub open spec fn rows_of(outcomes: Seq<Result<Seq<Seq<char>>, Seq<char>>>) -> Seq<Seq<Seq<char>>>
    decreases outcomes.len(),
{
    if outcomes.len() == 0 {
        Seq::empty()
    } else {
        match outcomes.last() {
            Ok(row) => rows_of(outcomes.drop_last()).push(row),
            Err(_) => rows_of(outcomes.drop_last()),
        }
    }
}

/// The failure messages among the outcomes, in the order of the outcomes.
pub open spec fn failures_of(outcomes: Seq<Result<Seq<Seq<char>>, Seq<char>>>) -> Seq<Seq<char>>
    decreases outcomes.len(),
{
    if outcomes.len() == 0 {
        Seq::empty()
    } else {
        match outcomes.last() {
            Ok(_) => failures_of(outcomes.drop_last()),
            Err(message) => failures_of(outcomes.drop_last()).push(message),
        }
    }
}

/// The number of rows that the first `i` outcomes leave: the place of the row
/// of outcome `i` among the rows, where that outcome has a row.
pub open spec fn rows_before(outcomes: Seq<Result<Seq<Seq<char>>, Seq<char>>>, i: int) -> int {
    rows_of(outcomes.take(i)).len() as int
}

/// The outcomes of extracting the files at `paths`, where `contents[i]` is
/// what the file at `paths[i]` holds.
pub open spec fn extractions(paths: Seq<Seq<char>>, contents: Seq<Seq<u8>>) -> Seq<
    Result<Seq<Seq<char>>, Seq<char>>,
> {
    Seq::new(paths.len(), |i: int| extraction(paths[i], contents[i]))
}

/// The first fields of the rows.
pub open spec fn first_fields(rows: Seq<Seq<Seq<char>>>) -> Seq<Seq<char>> {
    rows.map_values(|row: Seq<Seq<char>>| row[0])
}

/// Whether `document` is what a run makes of a directory at the time
/// `timestamp`, where `listing` lists the directory in some order and
/// `contents` tells what the file at each path holds: the document of the rows
/// of the candidates, taken in ascending order of their paths.
pub open spec fn is_run_document(
    listing: Seq<DirEntryView>,
    contents: spec_fn(Seq<char>) -> Seq<u8>,
    timestamp: Seq<char>,
    document: Seq<u8>,
) -> bool {
    exists|paths: Seq<Seq<char>>|
        ascending(paths) && paths.to_multiset() == candidates(listing).to_multiset() && document
            == #[trigger] csv_document(
            timestamp,
            rows_of(extractions(paths, paths.map_values(contents))),
        )
}

/// What a list of outcomes holds.
pub open spec fn outcome_views(outcomes: Seq<Result<Vec<String>, String>>) -> Seq<
    Result<Seq<Seq<char>>, Seq<char>>,
> {
    outcomes.map_values(|o: Result<Vec<String>, String>| outcome_view(o))
}

/// Parts the outcomes of a run, given in the order of the files, into the
/// rows and the failure messages. Both keep the order of the files; a file
/// that failed leaves no row.
pub fn collect_outcomes(outcomes: Vec<Result<Vec<String>, String>>) -> (result: RunResult)
    ensures
        result.rows.deep_view() == rows_of(outcome_views(outcomes@)),
        result.failures.deep_view() == failures_of(outcome_views(outcomes@)),
{
    let ghost all = outcome_views(outcomes@);
    let mut rows: Vec<Vec<String>> = Vec::new();
    let mut failures: Vec<String> = Vec::new();
    proof {
        assert(rows.deep_view() =~= rows_of(all.take(0)));
        assert(failures.deep_view() =~= failures_of(all.take(0)));
    }
    for outcome in it: outcomes.into_iter()
        invariant
            all == outcome_views(it.seq()),
            rows.deep_view() == rows_of(all.take(it.index() as int)),
            failures.deep_view() == failures_of(all.take(it.index() as int)),
    {
        let ghost rows_before = rows.deep_view();
        let ghost failures_before = failures.deep_view();
        let ghost done = all.take(it.index() + 1);
        proof {
            assert(done.drop_last() =~= all.take(it.index() as int));
            assert(done.last() == outcome_view(outcome));
        }
        match outcome {
            Ok(row) => {
                let ghost row_view = row.deep_view();
                rows.push(row);
                assert(rows.deep_view() =~= rows_before.push(row_view));
            },
            Err(message) => {
                let ghost message_view = message@;
                failures.push(message);
                assert(failures.deep_view() =~= failures_before.push(message_view));
            },
        }
    }
    proof {
        assert(all.take(all.len() as int) =~= all);
    }
    RunResult { rows, failures }
}

/// A single outcome leaves its row, or nothing where it is a failure.
proof fn lemma_rows_of_single(outcome: Result<Seq<Seq<char>>, Seq<char>>)
    ensures
        rows_of(seq![outcome]) == match outcome {
            Ok(row) => seq![row],
            Err(_) => Seq::empty(),
        },
{
    let one = seq![outcome];
    assert(one.drop_last() =~= Seq::empty());
    assert(rows_of(one.drop_last()) =~= Seq::empty());
    match outcome {
        Ok(row) => {
            assert(rows_of(one) =~= seq![row]);
        },
        Err(_) => {
            assert(rows_of(one) =~= Seq::empty());
        },
    }
}

/// The rows of outcomes put one after the other are the rows of the first,
/// then the rows of the second.
pub proof fn lemma_rows_of_concat(
    a: Seq<Result<Seq<Seq<char>>, Seq<char>>>,
    b: Seq<Result<Seq<Seq<char>>, Seq<char>>>,
)
    ensures
        rows_of(a + b) == rows_of(a) + rows_of(b),
    decreases b.len(),
{
    if b.len() == 0 {
        assert(a + b =~= a);
        assert(rows_of(a) + rows_of(b) =~= rows_of(a));
    } else {
        lemma_rows_of_concat(a, b.drop_last());
        assert((a + b).drop_last() =~= a + b.drop_last());
        assert((a + b).last() == b.last());
        assert(rows_of(a + b) =~= rows_of(a) + rows_of(b));
    }
}

/// Every outcome leaves either a row or a failure message.
pub proof fn lemma_outcomes_are_parted(outcomes: Seq<Result<Seq<Seq<char>>, Seq<char>>>)
    ensures
        rows_of(outcomes).len() + failures_of(outcomes).len() == outcomes.len(),
    decreases outcomes.len(),
{
    if outcomes.len() > 0 {
        lemma_outcomes_are_parted(outcomes.drop_last());
    }
}

/// A file that failed leaves no row: without its outcome the rows are the
/// same.
pub proof fn lemma_failure_leaves_no_row(
    outcomes: Seq<Result<Seq<Seq<char>>, Seq<char>>>,
    i: int,
)
    requires
        0 <= i < outcomes.len(),
        outcomes[i] is Err,
    ensures
        rows_of(outcomes.remove(i)) == rows_of(outcomes),
{
    let before = outcomes.take(i);
    let after = outcomes.skip(i + 1);
    let failed = seq![outcomes[i]];
    assert(outcomes =~= before + failed + after);
    assert(outcomes.remove(i) =~= before + after);
    lemma_rows_of_concat(before + failed, after);
    lemma_rows_of_concat(before, failed);
    lemma_rows_of_concat(before, after);
    lemma_rows_of_single(outcomes[i]);
    assert(rows_of(before) + rows_of(failed) =~= rows_of(before));
}

/// The rows that a longer stretch of outcomes leaves are no fewer.
pub proof fn lemma_rows_before_grows(
    outcomes: Seq<Result<Seq<Seq<char>>, Seq<char>>>,
    i: int,
    j: int,
)
    requires
        0 <= i <= j <= outcomes.len(),
    ensures
        rows_before(outcomes, i) <= rows_before(outcomes, j),
        rows_before(outcomes, outcomes.len() as int) == rows_of(outcomes).len(),
        i < j && outcomes[i] is Ok ==> rows_before(outcomes, i) < rows_before(outcomes, j),
{
    let first = outcomes.take(i);
    let between = outcomes.subrange(i, j);
    assert(outcomes.take(j) =~= first + between);
    lemma_rows_of_concat(first, between);
    assert(outcomes.take(outcomes.len() as int) =~= outcomes);
    if i < j && outcomes[i] is Ok {
        let one = seq![outcomes[i]];
        let others = outcomes.subrange(i + 1, j);
        assert(between =~= one + others);
        lemma_rows_of_concat(one, others);
        lemma_rows_of_single(outcomes[i]);
    }
}

/// The row of a file that succeeded stands among the rows, after the rows of
/// all files before it.
pub proof fn lemma_row_place(outcomes: Seq<Result<Seq<Seq<char>>, Seq<char>>>, i: int)
    requires
        0 <= i < outcomes.len(),
        outcomes[i] is Ok,
    ensures
        0 <= rows_before(outcomes, i) < rows_of(outcomes).len(),
        rows_of(outcomes)[rows_before(outcomes, i)] == outcomes[i]->Ok_0,
{
    let first = outcomes.take(i);
    let one = seq![outcomes[i]];
    let others = outcomes.skip(i + 1);
    assert(outcomes =~= first + one + others);
    lemma_rows_of_concat(first + one, others);
    lemma_rows_of_concat(first, one);
    lemma_rows_of_single(outcomes[i]);
}

/// Order is kept: of two files that succeeded, the row of the earlier file
/// stands before the row of the later one.
pub proof fn lemma_rows_keep_order(
    outcomes: Seq<Result<Seq<Seq<char>>, Seq<char>>>,
    i: int,
    j: int,
)
    requires
        0 <= i < j < outcomes.len(),
        outcomes[i] is Ok,
        outcomes[j] is Ok,
    ensures
        rows_before(outcomes, i) < rows_before(outcomes, j) < rows_of(outcomes).len(),
        rows_of(outcomes)[rows_before(outcomes, i)] == outcomes[i]->Ok_0,
        rows_of(outcomes)[rows_before(outcomes, j)] == outcomes[j]->Ok_0,
{
    lemma_rows_before_grows(outcomes, i, j);
    lemma_row_place(outcomes, i);
    lemma_row_place(outcomes, j);
}

/// Every row is the row of a file that succeeded, and stands at that file's
/// place.
pub proof fn lemma_row_origin(outcomes: Seq<Result<Seq<Seq<char>>, Seq<char>>>, k: int) -> (i:
    int)
    requires
        0 <= k < rows_of(outcomes).len(),
    ensures
        0 <= i < outcomes.len(),
        outcomes[i] == Ok::<Seq<Seq<char>>, Seq<char>>(rows_of(outcomes)[k]),
        rows_before(outcomes, i) == k,
    decreases outcomes.len(),
{
    let rest = outcomes.drop_last();
    assert(outcomes.take(outcomes.len() - 1) =~= rest);
    if outcomes.last() is Ok && k == rows_of(rest).len() {
        outcomes.len() - 1
    } else {
        let i = lemma_row_origin(rest, k);
        assert(outcomes.take(i) =~= rest.take(i));
        i
    }
}

/// Rows follow the files: where the paths of the files ascend, the rows of
/// the run ascend by their first field, which is the path of their file.
pub proof fn lemma_rows_ascend_with_paths(paths: Seq<Seq<char>>, contents: Seq<Seq<u8>>)
    requires
        ascending(paths),
        contents.len() == paths.len(),
    ensures
        ascending(first_fields(rows_of(extractions(paths, contents)))),
{
    let outcomes = extractions(paths, contents);
    let rows = rows_of(outcomes);
    let firsts = first_fields(rows);
    assert forall|k: int, l: int| 0 <= k < l < firsts.len() implies #[trigger] text_le(
        firsts[k],
        firsts[l],
    ) by {
        let i = lemma_row_origin(outcomes, k);
        let j = lemma_row_origin(outcomes, l);
        if j <= i {
            lemma_rows_before_grows(outcomes, j, i);
        }
        assert(firsts[k] == paths[i]);
        assert(firsts[l] == paths[j]);
        assert(text_le(paths[i], paths[j]));
    }
}

/// A run can be repeated: two runs on a directory that has not changed, made
/// at whatever times and with the directory listed in whatever order, give
/// documents that are the same behind their header records.
pub proof fn lemma_run_is_repeatable(
    first_listing: Seq<DirEntryView>,
    second_listing: Seq<DirEntryView>,
    contents: spec_fn(Seq<char>) -> Seq<u8>,
    first_time: Seq<char>,
    second_time: Seq<char>,
    first: Seq<u8>,
    second: Seq<u8>,
)
    requires
        first_listing.to_multiset() == second_listing.to_multiset(),
        is_run_document(first_listing, contents, first_time, first),
        is_run_document(second_listing, contents, second_time, second),
    ensures
        first.skip(row_record(seq![header_field(first_time)]).len() as int) == second.skip(
            row_record(seq![header_field(second_time)]).len() as int,
        ),
{
    let first_paths = choose|paths: Seq<Seq<char>>|
        ascending(paths) && paths.to_multiset() == candidates(first_listing).to_multiset() && first
            == #[trigger] csv_document(
            first_time,
            rows_of(extractions(paths, paths.map_values(contents))),
        );
    let second_paths = choose|paths: Seq<Seq<char>>|
        ascending(paths) && paths.to_multiset() == candidates(second_listing).to_multiset()
            && second == #[trigger] csv_document(
            second_time,
            rows_of(extractions(paths, paths.map_values(contents))),
        );
    lemma_discovery_ignores_listing_order(
        first_listing,
        second_listing,
        first_paths,
        second_paths,
    );
    lemma_documents_differ_in_header_only(
        first_time,
        second_time,
        rows_of(extractions(first_paths, first_paths.map_values(contents))),
    );
}

} // verus!
