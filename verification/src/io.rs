//! What a run remembers of itself: the fingerprint of the database, the
//! checkpoint, and the decisions that let a later run take up where an
//! earlier one stopped.

use crate::text::{chars_of, lemma_views_push, views};
use vstd::prelude::*;

verus! {

/// What tells one version of a file from another: its absolute path, its
/// size in bytes and the second of its last change.
#[derive(Debug)]
pub struct FileFingerprint {
    pub path: String,
    pub size: u64,
    pub modified: u64,
}

impl FileFingerprint {
    /// Whether two fingerprints are of the same version of the same file.
    pub open spec fn same(&self, other: &FileFingerprint) -> bool {
        self.path@ == other.path@ && self.size == other.size && self.modified == other.modified
    }

    /// Whether two fingerprints are of the same version of the same file.
    pub fn matches(&self, other: &FileFingerprint) -> (same: bool)
        ensures
            same == self.same(other),
    {
        self.path == other.path && self.size == other.size && self.modified == other.modified
    }
}

/// Whether a file with the given extension is unpacked as gzip while it is
/// read: the extension is `gz` or `gzip`, in any case of its letters.
pub open spec fn is_gzip(extension: Seq<char>) -> bool {
    let g = |c: char| c == 'g' || c == 'G';
    let z = |c: char| c == 'z' || c == 'Z';
    let i = |c: char| c == 'i' || c == 'I';
    let p = |c: char| c == 'p' || c == 'P';
    ||| (extension.len() == 2 && g(extension[0]) && z(extension[1]))
    ||| (extension.len() == 4 && g(extension[0]) && z(extension[1]) && i(extension[2]) && p(
        extension[3],
    ))
}

/// Whether a file with the given extension is unpacked as gzip while it is
/// read.
pub fn is_gzip_extension(extension: &str) -> (gzip: bool)
    ensures
        gzip == is_gzip(extension@),
{
    let chars = chars_of(extension);
    if chars.len() == 2 {
        (chars[0] == 'g' || chars[0] == 'G') && (chars[1] == 'z' || chars[1] == 'Z')
    } else if chars.len() == 4 {
        (chars[0] == 'g' || chars[0] == 'G') && (chars[1] == 'z' || chars[1] == 'Z') && (chars[2]
            == 'i' || chars[2] == 'I') && (chars[3] == 'p' || chars[3] == 'P')
    } else {
        false
    }
}

/// A set of query labels.
pub type LabelSet = ahash::HashSet<String>;

/// The labels that a label set holds.
pub uninterp spec fn label_set_contents(labels: ahash::HashSet<String>) -> Set<Seq<char>>;

/// Tells whether a label set holds a label, by `HashSet::contains`.
#[verifier::external_body]
pub(crate) fn label_set_contains(labels: &ahash::HashSet<String>, label: &String) -> (held: bool)
    ensures
        held == label_set_contents(*labels).contains(label@),
{
    labels.contains(label)
}

/// The options of a run that change what it writes.
#[derive(Debug, PartialEq, Eq, Clone, Copy, Structural)]
pub struct OutputOptions {
    pub skip_exact_matches: bool,
    pub raw_confidence: bool,
    pub tsv: bool,
}

/// What a run has left behind for a later run: where the checkpoint and
/// the list of finished queries lie, the fingerprint of the database, the
/// options that change the output, and the labels of the queries that are
/// done.
#[derive(Debug)]
pub struct Checkpoint {
    pub checkpoint_file: String,
    pub progress_file: String,
    pub db_fingerprint: FileFingerprint,
    pub raw_confidence: bool,
    pub skip_exact_matches: bool,
    pub tsv: bool,
    pub processed_queries: ahash::HashSet<String>,
}

impl OutputOptions {
    /// Whether a checkpoint can be taken up by a run with these options:
    /// the options of the checkpoint are those of the run, and the database
    /// of the checkpoint, looked at again, still has the fingerprint that
    /// the checkpoint holds. `reevaluated_fingerprint` is `None` where the
    /// database could not be looked at.
    pub open spec fn accepts(&self, checkpoint: &Checkpoint, reevaluated_fingerprint: Option<FileFingerprint>) -> bool {
        reevaluated_fingerprint matches Some(fingerprint) && self.tsv == checkpoint.tsv
            && self.raw_confidence == checkpoint.raw_confidence && self.skip_exact_matches
            == checkpoint.skip_exact_matches && fingerprint.same(&checkpoint.db_fingerprint)
    }

    /// Whether a checkpoint can be taken up by a run with these options.
    pub fn checkpoint_valid(&self, checkpoint: &Checkpoint, reevaluated_fingerprint: &Option<FileFingerprint>) -> (valid: bool)
        ensures
            valid == self.accepts(checkpoint, *reevaluated_fingerprint),
    {
        match reevaluated_fingerprint {
            Some(fingerprint) => {
                self.tsv == checkpoint.tsv && self.raw_confidence == checkpoint.raw_confidence
                    && self.skip_exact_matches == checkpoint.skip_exact_matches && fingerprint.matches(
                    &checkpoint.db_fingerprint,
                )
            },
            None => false,
        }
    }
}

/// How a run begins.
#[derive(Debug, PartialEq, Eq, Clone, Copy, Structural)]
pub enum Start {
    /// The output folder is there, it holds no checkpoint, and overwriting
    /// was not asked for: the run does not begin.
    Refuse,
    /// The run takes up the checkpoint and appends to the outputs.
    Resume,
    /// The run begins anew and appends to the outputs that are there.
    Fresh,
    /// The run begins anew and overwrites the outputs.
    Overwrite,
}

/// How a run begins, from what it finds: whether overwriting is asked for
/// (`redo`), whether a checkpoint file is there, whether that checkpoint
/// could be read and can be taken up, and whether the output folder is
/// there.
pub open spec fn start_of(redo: bool, checkpoint_is_file: bool, checkpoint_usable: bool, prefix_is_dir: bool) -> Start {
    if redo {
        Start::Overwrite
    } else if checkpoint_is_file {
        if checkpoint_usable {
            Start::Resume
        } else {
            Start::Fresh
        }
    } else if prefix_is_dir {
        Start::Refuse
    } else {
        Start::Fresh
    }
}

/// How a run begins, from what it finds.
pub fn decide_start(redo: bool, checkpoint_is_file: bool, checkpoint_usable: bool, prefix_is_dir: bool) -> (start: Start)
    ensures
        start == start_of(redo, checkpoint_is_file, checkpoint_usable, prefix_is_dir),
{
    if redo {
        Start::Overwrite
    } else if checkpoint_is_file {
        if checkpoint_usable {
            Start::Resume
        } else {
            Start::Fresh
        }
    } else if prefix_is_dir {
        Start::Refuse
    } else {
        Start::Fresh
    }
}

/// The first of the fields of a line that tabs separate: the line up to
/// its first tab, the whole line where it has none.
pub open spec fn first_field(line: Seq<char>) -> Seq<char>
    decreases line.len(),
{
    if line.len() == 0 || line.first() == '\t' {
        Seq::empty()
    } else {
        seq![line.first()] + first_field(line.drop_first())
    }
}

/// Of the given lines those whose first field is one of the labels, in
/// order.
pub open spec fn lines_of_done(lines: Seq<Seq<char>>, done: Set<Seq<char>>) -> Seq<Seq<char>> {
    lines.filter(|line: Seq<char>| done.contains(first_field(line)))
}

/// Of the given queries those whose label is none of the labels, in order.
pub open spec fn queries_to_do(queries: Seq<(Seq<char>, Seq<u8>)>, done: Set<Seq<char>>) -> Seq<(Seq<char>, Seq<u8>)> {
    queries.filter(|query: (Seq<char>, Seq<u8>)| !done.contains(query.0))
}

/// The first of the fields of a line that tabs separate.
pub fn first_field_of(line: &Vec<char>) -> (field: Vec<char>)
    ensures
        field@ == first_field(line@),
{
    let mut field: Vec<char> = Vec::new();
    let mut i: usize = 0;
    proof {
        assert(line@.skip(0) =~= line@);
    }
    while i < line.len() && line[i] != '\t'
        invariant
            i <= line@.len(),
            field@ == line@.take(i as int),
            first_field(line@) == line@.take(i as int) + first_field(line@.skip(i as int)),
        decreases line@.len() - i,
    {
        field.push(line[i]);
        proof {
            let rest = line@.skip(i as int);
            assert(rest.first() == line@[i as int]);
            assert(rest.drop_first() =~= line@.skip(i + 1));
            assert(line@.take(i + 1) =~= line@.take(i as int).push(line@[i as int]));
            assert(line@.take(i as int) + (seq![rest.first()] + first_field(rest.drop_first()))
                =~= line@.take(i + 1) + first_field(line@.skip(i + 1)));
        }
        i += 1;
    }
    proof {
        let rest = line@.skip(i as int);
        if i < line@.len() {
            assert(rest.first() == line@[i as int]);
        }
        assert(first_field(rest) =~= Seq::<char>::empty());
        assert(line@.take(i as int) + first_field(rest) =~= line@.take(i as int));
    }
    field
}

/// Of the lines that an earlier run has written those that belong to a
/// query that is done: the lines whose first field is the label of such a
/// query, in order.
pub fn retain_done_lines(lines: Vec<String>, done: &ahash::HashSet<String>) -> (kept: Vec<String>)
    ensures
        views(kept@) == lines_of_done(views(lines@), label_set_contents(*done)),
{
    let ghost all = views(lines@);
    let ghost labels = label_set_contents(*done);
    let ghost keep = |line: Seq<char>| labels.contains(first_field(line));
    let mut kept: Vec<String> = Vec::new();
    let mut i: usize = 0;
    proof {
        assert(all.take(0) =~= Seq::<Seq<char>>::empty());
        assert(views(kept@) =~= all.take(0).filter(keep));
    }
    while i < lines.len()
        invariant
            i <= lines@.len(),
            all == views(lines@),
            labels == label_set_contents(*done),
            keep == |line: Seq<char>| labels.contains(first_field(line)),
            views(kept@) == all.take(i as int).filter(keep),
        decreases lines@.len() - i,
    {
        let chars = chars_of(lines[i].as_str());
        let field = first_field_of(&chars);
        let label = crate::text::string_of(&field, 0, field.len());
        proof {
            assert(field@.subrange(0, field@.len() as int) =~= field@);
            assert(all.take(i + 1) =~= all.take(i as int).push(all[i as int]));
            lemma_filter_push(all.take(i as int), all[i as int], keep);
        }
        if label_set_contains(done, &label) {
            let ghost held = kept@;
            let line = lines[i].clone();
            kept.push(line);
            proof {
                lemma_views_push(held, line);
            }
        }
        i += 1;
    }
    proof {
        assert(all.take(lines@.len() as int) =~= all);
    }
    kept
}

/// Filtering a list that ends in `last` filters what came before and then
/// looks at `last`.
pub proof fn lemma_filter_push<T>(items: Seq<T>, last: T, keep: spec_fn(T) -> bool)
    ensures
        items.push(last).filter(keep) == if keep(last) {
            items.filter(keep).push(last)
        } else {
            items.filter(keep)
        },
{
    reveal(Seq::filter);
    assert(items.push(last).drop_last() =~= items);
}

/// The queries that are left to do: those whose label is not the label of
/// a query that is done, in order.
pub fn pending_queries(queries: Vec<(String, Vec<u8>)>, done: &ahash::HashSet<String>) -> (pending: Vec<(String, Vec<u8>)>)
    ensures
        views(pending@) == queries_to_do(views(queries@), label_set_contents(*done)),
{
    let ghost all = views(queries@);
    let ghost labels = label_set_contents(*done);
    let ghost keep = |query: (Seq<char>, Seq<u8>)| !labels.contains(query.0);
    let mut pending: Vec<(String, Vec<u8>)> = Vec::new();
    let mut i: usize = 0;
    proof {
        assert(all.take(0) =~= Seq::<(Seq<char>, Seq<u8>)>::empty());
        assert(views(pending@) =~= all.take(0).filter(keep));
    }
    while i < queries.len()
        invariant
            i <= queries@.len(),
            all == views(queries@),
            labels == label_set_contents(*done),
            keep == |query: (Seq<char>, Seq<u8>)| !labels.contains(query.0),
            views(pending@) == all.take(i as int).filter(keep),
        decreases queries@.len() - i,
    {
        proof {
            assert(all.take(i + 1) =~= all.take(i as int).push(all[i as int]));
            lemma_filter_push(all.take(i as int), all[i as int], keep);
        }
        if !label_set_contains(done, &queries[i].0) {
            let ghost held = pending@;
            let query = (queries[i].0.clone(), crate::lineage::copy_of(&queries[i].1));
            pending.push(query);
            proof {
                lemma_views_push(held, query);
            }
        }
        i += 1;
    }
    proof {
        assert(all.take(queries@.len() as int) =~= all);
    }
    pending
}

/// The output lines of the given queries, query by query, where `lines_of`
/// gives the lines of one query.
pub open spec fn lines_of_queries(
    queries: Seq<(Seq<char>, Seq<u8>)>,
    lines_of: spec_fn((Seq<char>, Seq<u8>)) -> Seq<Seq<char>>,
) -> Seq<Seq<char>>
    decreases queries.len(),
{
    if queries.len() == 0 {
        Seq::empty()
    } else {
        lines_of_queries(queries.drop_last(), lines_of) + lines_of(queries.last())
    }
}

/// The labels of the given queries.
pub open spec fn labels_of(queries: Seq<(Seq<char>, Seq<u8>)>) -> Set<Seq<char>> {
    Set::new(|label: Seq<char>| exists|i: int| 0 <= i < queries.len() && (#[trigger] queries[i]).0 == label)
}

/// Every line of the given queries is a line of one of them.
pub proof fn lemma_line_has_a_query(
    queries: Seq<(Seq<char>, Seq<u8>)>,
    lines_of: spec_fn((Seq<char>, Seq<u8>)) -> Seq<Seq<char>>,
    line: Seq<char>,
) -> (at: int)
    requires
        lines_of_queries(queries, lines_of).contains(line),
    ensures
        0 <= at < queries.len(),
        lines_of(queries[at]).contains(line),
    decreases queries.len(),
{
    let all = lines_of_queries(queries, lines_of);
    let front = lines_of_queries(queries.drop_last(), lines_of);
    let k = choose|k: int| 0 <= k < all.len() && all[k] == line;
    if queries.len() == 0 {
        0
    } else if k < front.len() {
        assert(front[k] == line);
        lemma_line_has_a_query(queries.drop_last(), lines_of, line)
    } else {
        assert(lines_of(queries.last())[k - front.len()] == line);
        queries.len() - 1
    }
}

/// The lines of two lists of queries, one behind the other, are the lines of
/// the first list followed by the lines of the second.
pub proof fn lemma_lines_of_queries_add(
    a: Seq<(Seq<char>, Seq<u8>)>,
    b: Seq<(Seq<char>, Seq<u8>)>,
    lines_of: spec_fn((Seq<char>, Seq<u8>)) -> Seq<Seq<char>>,
)
    ensures
        lines_of_queries(a + b, lines_of) == lines_of_queries(a, lines_of) + lines_of_queries(b, lines_of),
    decreases b.len(),
{
    if b.len() == 0 {
        assert(a + b =~= a);
        assert(lines_of_queries(a, lines_of) + lines_of_queries(b, lines_of) =~= lines_of_queries(
            a,
            lines_of,
        ));
    } else {
        lemma_lines_of_queries_add(a, b.drop_last(), lines_of);
        assert((a + b).drop_last() =~= a + b.drop_last());
        assert((a + b).last() == b.last());
        assert(lines_of_queries(a + b, lines_of) =~= lines_of_queries(a, lines_of) + lines_of_queries(
            b,
            lines_of,
        ));
    }
}

/// A filter that keeps every item of a list keeps the list.
pub proof fn lemma_filter_keeps_all<T>(items: Seq<T>, keep: spec_fn(T) -> bool)
    requires
        forall|i: int| 0 <= i < items.len() ==> keep(#[trigger] items[i]),
    ensures
        items.filter(keep) == items,
    decreases items.len(),
{
    if items.len() > 0 {
        let front = items.drop_last();
        assert forall|i: int| 0 <= i < front.len() implies keep(#[trigger] front[i]) by {
            assert(front[i] == items[i]);
        }
        lemma_filter_keeps_all(front, keep);
        lemma_filter_push(front, items.last(), keep);
        assert(front.push(items.last()) =~= items);
    } else {
        reveal(Seq::filter);
    }
}

/// A filter that keeps no item of a list keeps nothing.
pub proof fn lemma_filter_keeps_none<T>(items: Seq<T>, keep: spec_fn(T) -> bool)
    requires
        forall|i: int| 0 <= i < items.len() ==> !keep(#[trigger] items[i]),
    ensures
        items.filter(keep) == Seq::<T>::empty(),
    decreases items.len(),
{
    if items.len() > 0 {
        let front = items.drop_last();
        assert forall|i: int| 0 <= i < front.len() implies !keep(#[trigger] front[i]) by {
            assert(front[i] == items[i]);
        }
        lemma_filter_keeps_none(front, keep);
        lemma_filter_push(front, items.last(), keep);
        assert(front.push(items.last()) =~= items);
    } else {
        reveal(Seq::filter);
    }
}

/// A run that takes up a checkpoint writes, together with what the earlier
/// run left, what a single run would have written, up to the order of the
/// lines.
///
/// The earlier run has done the first `done_count` queries and has written
/// their lines in some order. The later run keeps of these lines those of
/// queries that are done, and adds the lines of the queries that are left to
/// do. This holds where no two queries have the same label and every line
/// of a query begins with the label of the query as its first field.
pub proof fn lemma_resume_completes_the_output(
    queries: Seq<(Seq<char>, Seq<u8>)>,
    done_count: int,
    written: Seq<Seq<char>>,
    lines_of: spec_fn((Seq<char>, Seq<u8>)) -> Seq<Seq<char>>,
)
    requires
        0 <= done_count <= queries.len(),
        forall|i: int, j: int|
            0 <= i < j < queries.len() ==> (#[trigger] queries[i]).0 != (#[trigger] queries[j]).0,
        forall|query: (Seq<char>, Seq<u8>), k: int|
            0 <= k < lines_of(query).len() ==> first_field(#[trigger] lines_of(query)[k]) == query.0,
        written.to_multiset() == lines_of_queries(queries.take(done_count), lines_of).to_multiset(),
    ensures
        queries_to_do(queries, labels_of(queries.take(done_count))) == queries.skip(done_count),
        lines_of_done(written, labels_of(queries.take(done_count))) == written,
        (lines_of_done(written, labels_of(queries.take(done_count))) + lines_of_queries(
            queries_to_do(queries, labels_of(queries.take(done_count))),
            lines_of,
        )).to_multiset() == lines_of_queries(queries, lines_of).to_multiset(),
{
    let earlier = queries.take(done_count);
    let later = queries.skip(done_count);
    let done = labels_of(earlier);
    let is_done = |line: Seq<char>| done.contains(first_field(line));
    let to_do = |query: (Seq<char>, Seq<u8>)| !done.contains(query.0);
    let first = lines_of_queries(earlier, lines_of);
    assert forall|i: int| 0 <= i < written.len() implies is_done(#[trigger] written[i]) by {
        let line = written[i];
        written.to_multiset_ensures();
        first.to_multiset_ensures();
        assert(written.contains(line));
        assert(written.to_multiset().count(line) > 0);
        assert(first.contains(line));
        let at = lemma_line_has_a_query(earlier, lines_of, line);
        let its_lines = lines_of(earlier[at]);
        let k = choose|k: int| 0 <= k < its_lines.len() && its_lines[k] == line;
        assert(first_field(lines_of(earlier[at])[k]) == earlier[at].0);
        assert(done.contains(earlier[at].0));
    }
    lemma_filter_keeps_all(written, is_done);
    assert forall|i: int| 0 <= i < earlier.len() implies !to_do(#[trigger] earlier[i]) by {
        assert(done.contains(earlier[i].0));
    }
    lemma_filter_keeps_none(earlier, to_do);
    assert forall|i: int| 0 <= i < later.len() implies to_do(#[trigger] later[i]) by {
        if done.contains(later[i].0) {
            let j = choose|j: int| 0 <= j < earlier.len() && (#[trigger] earlier[j]).0 == later[i].0;
            assert(earlier[j] == queries[j]);
            assert(later[i] == queries[done_count + i]);
        }
    }
    lemma_filter_keeps_all(later, to_do);
    assert(earlier + later =~= queries);
    Seq::filter_distributes_over_add(earlier, later, to_do);
    assert(queries.filter(to_do) =~= later);
    lemma_lines_of_queries_add(earlier, later, lines_of);
    let second = lines_of_queries(later, lines_of);
    vstd::seq_lib::lemma_multiset_commutative(written, second);
    vstd::seq_lib::lemma_multiset_commutative(first, second);
}

} // verus!
