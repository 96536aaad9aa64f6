//! Symmetric difference between the previous snapshot's lines and the new
//! ones: removed lines, added lines, the no-change short circuit, and the
//! report built from them.

use vstd::prelude::*;

use crate::bytes::bytes_eq;
use crate::bytes::copy_range;
use crate::bytes::lines_model;
use crate::hash::item_leq;
use crate::hash::lines_of;
use crate::hash::lemma_deterministic;
use crate::hash::ItemModel;
use crate::hash::NewResult;
use crate::store::joined_lines;
use crate::store::lemma_round_trip;
use crate::store::split_lines_spec;

verus! {

/// The lines present in `new` but absent from `last`, in order: equality
/// is on the whole serialized line, digest and path both.
pub open spec fn diff_added(last: Seq<Seq<u8>>, new: Seq<Seq<u8>>) -> Seq<Seq<u8>> {
    new.filter(|l: Seq<u8>| !last.contains(l))
}

/// The lines present in `last` but absent from `new`, in order.
pub open spec fn diff_removed(last: Seq<Seq<u8>>, new: Seq<Seq<u8>>) -> Seq<Seq<u8>> {
    last.filter(|l: Seq<u8>| !new.contains(l))
}

/// The previous snapshot's lines paired with the new ones, ready to diff.
pub struct ResultPair {
    pub last: Vec<Vec<u8>>,
    pub new: Vec<Vec<u8>>,
}

/// The added/removed report of one run.
pub struct Diff {
    pub added: Vec<Vec<u8>>,
    pub deleted: Vec<Vec<u8>>,
}

/// The outcome of a comparison: nothing changed, or a report.
pub enum DiffOutcome {
    NoChange,
    Changed(Diff),
}

/// Copies a vector of lines.
pub fn clone_lines(v: &Vec<Vec<u8>>) -> (r: Vec<Vec<u8>>)
    ensures
        lines_model(r@) == lines_model(v@),
{
    let mut out: Vec<Vec<u8>> = Vec::new();
    let mut i: usize = 0;
    proof {
        assert(lines_model(out@) =~= lines_model(v@).take(0));
    }
    while i < v.len()
        invariant
            0 <= i <= v@.len(),
            lines_model(out@) == lines_model(v@).take(i as int),
        decreases v@.len() - i,
    {
        let line = copy_range(&v[i], 0, v[i].len());
        proof {
            assert(v@[i as int]@.subrange(0, v@[i as int]@.len() as int) =~= v@[i as int]@);
            assert(lines_model(out@.push(line)) =~= lines_model(out@).push(line@));
            assert(lines_model(v@).take(i + 1) =~= lines_model(v@).take(i as int).push(
                lines_model(v@)[i as int],
            ));
        }
        out.push(line);
        i += 1;
    }
    proof {
        assert(lines_model(v@).take(v@.len() as int) =~= lines_model(v@));
    }
    out
}

/// Decides whether some line of `v` equals `x`, byte for byte.
fn lines_contain(v: &Vec<Vec<u8>>, x: &Vec<u8>) -> (r: bool)
    ensures
        r == lines_model(v@).contains(x@),
{
    let mut i: usize = 0;
    while i < v.len()
        invariant
            0 <= i <= v@.len(),
            forall|j: int| 0 <= j < i ==> lines_model(v@)[j] != x@,
        decreases v@.len() - i,
    {
        if bytes_eq(&v[i], x) {
            proof {
                assert(lines_model(v@)[i as int] == x@);
            }
            return true;
        }
        i += 1;
    }
    false
}

impl NewResult {
    /// Pairs the previous snapshot's lines with this run's lines.
    pub fn merge(&self, last: Vec<Vec<u8>>) -> (r: ResultPair)
        ensures
            r.last == last,
            lines_model(r.new@) == lines_model(self.content@),
    {
        ResultPair { last, new: clone_lines(&self.content) }
    }
}

/// One filtering step: filtering after a push keeps the pushed element
/// exactly when it satisfies the predicate.
proof fn lemma_filter_push(s: Seq<Seq<u8>>, x: Seq<u8>, pred: spec_fn(Seq<u8>) -> bool)
    ensures
        s.push(x).filter(pred) == if pred(x) {
            s.filter(pred).push(x)
        } else {
            s.filter(pred)
        },
{
    reveal(Seq::filter);
    assert(s.push(x).drop_last() =~= s);
    assert(s.push(x).last() == x);
}

/// Filtering with a predicate false of every element yields nothing.
proof fn lemma_filter_all_false(s: Seq<Seq<u8>>, pred: spec_fn(Seq<u8>) -> bool)
    requires
        forall|i: int| 0 <= i < s.len() ==> !pred(#[trigger] s[i]),
    ensures
        s.filter(pred) == Seq::<Seq<u8>>::empty(),
    decreases s.len(),
{
    reveal(Seq::filter);
    if s.len() > 0 {
        assert(s.drop_last() =~= s.take(s.len() - 1));
        assert(forall|i: int| 0 <= i < s.drop_last().len() ==> s.drop_last()[i] == s[i]);
        lemma_filter_all_false(s.drop_last(), pred);
    }
}

impl ResultPair {
    /// Computes the symmetric difference of the two line sets: removed
    /// lines, then added lines; when both are empty the run signals
    /// no change instead of an empty report.
    #[verifier::loop_isolation(false)]
    pub fn diff(&self) -> (r: DiffOutcome)
        ensures
            ({
                let added = diff_added(lines_model(self.last@), lines_model(self.new@));
                let removed = diff_removed(lines_model(self.last@), lines_model(self.new@));
                match r {
                    DiffOutcome::NoChange => added.len() == 0 && removed.len() == 0,
                    DiffOutcome::Changed(d) => {
                        &&& lines_model(d.added@) == added
                        &&& lines_model(d.deleted@) == removed
                        &&& (added.len() > 0 || removed.len() > 0)
                    },
                }
            }),
    {
        let ghost last_m = lines_model(self.last@);
        let ghost new_m = lines_model(self.new@);
        let ghost removed_pred = |l: Seq<u8>| !new_m.contains(l);
        let ghost added_pred = |l: Seq<u8>| !last_m.contains(l);
        let mut deleted: Vec<Vec<u8>> = Vec::new();
        let mut i: usize = 0;
        proof {
            assert(last_m.take(0) =~= Seq::<Seq<u8>>::empty());
            assert(lines_model(deleted@) =~= last_m.take(0).filter(removed_pred)) by {
                reveal(Seq::filter);
            }
        }
        while i < self.last.len()
            invariant
                0 <= i <= self.last@.len(),
                lines_model(deleted@) == last_m.take(i as int).filter(removed_pred),
            decreases self.last@.len() - i,
        {
            proof {
                assert(last_m.take(i + 1) =~= last_m.take(i as int).push(last_m[i as int]));
                lemma_filter_push(last_m.take(i as int), last_m[i as int], removed_pred);
                assert(last_m[i as int] == self.last@[i as int]@);
            }
            if !lines_contain(&self.new, &self.last[i]) {
                let line = copy_range(&self.last[i], 0, self.last[i].len());
                proof {
                    let l = self.last@[i as int]@;
                    assert(l.subrange(0, l.len() as int) =~= l);
                    assert(lines_model(deleted@.push(line)) =~= lines_model(deleted@).push(line@));
                }
                deleted.push(line);
            }
            i += 1;
        }
        proof {
            assert(last_m.take(self.last@.len() as int) =~= last_m);
        }
        let mut added: Vec<Vec<u8>> = Vec::new();
        let mut j: usize = 0;
        proof {
            assert(new_m.take(0) =~= Seq::<Seq<u8>>::empty());
            assert(lines_model(added@) =~= new_m.take(0).filter(added_pred)) by {
                reveal(Seq::filter);
            }
        }
        while j < self.new.len()
            invariant
                0 <= j <= self.new@.len(),
                lines_model(added@) == new_m.take(j as int).filter(added_pred),
            decreases self.new@.len() - j,
        {
            proof {
                assert(new_m.take(j + 1) =~= new_m.take(j as int).push(new_m[j as int]));
                lemma_filter_push(new_m.take(j as int), new_m[j as int], added_pred);
                assert(new_m[j as int] == self.new@[j as int]@);
            }
            if !lines_contain(&self.last, &self.new[j]) {
                let line = copy_range(&self.new[j], 0, self.new[j].len());
                proof {
                    let l = self.new@[j as int]@;
                    assert(l.subrange(0, l.len() as int) =~= l);
                    assert(lines_model(added@.push(line)) =~= lines_model(added@).push(line@));
                }
                added.push(line);
            }
            j += 1;
        }
        proof {
            assert(new_m.take(self.new@.len() as int) =~= new_m);
        }
        if added.len() == 0 && deleted.len() == 0 {
            DiffOutcome::NoChange
        } else {
            DiffOutcome::Changed(Diff { added, deleted })
        }
    }
}

/// The header line above added entries, `Newly added:`.
pub open spec fn added_header() -> Seq<u8> {
    seq![78u8, 101u8, 119u8, 108u8, 121u8, 32u8, 97u8, 100u8, 100u8, 101u8, 100u8, 58u8]
}

/// The header line above removed entries, `Removed:`.
pub open spec fn removed_header() -> Seq<u8> {
    seq![82u8, 101u8, 109u8, 111u8, 118u8, 101u8, 100u8, 58u8]
}

/// The report for a diff: the added lines under their header when there
/// are any, a blank separator when both sections appear, then the removed
/// lines under their header when there are any.
pub open spec fn report_of(added: Seq<Seq<u8>>, deleted: Seq<Seq<u8>>) -> Seq<Seq<u8>> {
    (if added.len() > 0 {
        seq![added_header()] + added
    } else {
        Seq::empty()
    }) + (if added.len() > 0 && deleted.len() > 0 {
        seq![Seq::<u8>::empty()]
    } else {
        Seq::empty()
    }) + (if deleted.len() > 0 {
        seq![removed_header()] + deleted
    } else {
        Seq::empty()
    })
}

impl Diff {
    /// Lays the report out as lines ready to print.
    pub fn summarize(&self) -> (r: Vec<Vec<u8>>)
        ensures
            lines_model(r@) == report_of(lines_model(self.added@), lines_model(self.deleted@)),
    {
        let mut out: Vec<Vec<u8>> = Vec::new();
        if self.added.len() > 0 {
            let header: Vec<u8> = vec![
                78u8, 101u8, 119u8, 108u8, 121u8, 32u8, 97u8, 100u8, 100u8, 101u8, 100u8, 58u8,
            ];
            out.push(header);
            let mut body = clone_lines(&self.added);
            out.append(&mut body);
        }
        if self.added.len() > 0 && self.deleted.len() > 0 {
            let blank: Vec<u8> = Vec::new();
            out.push(blank);
        }
        if self.deleted.len() > 0 {
            let header: Vec<u8> = vec![82u8, 101u8, 109u8, 111u8, 118u8, 101u8, 100u8, 58u8];
            out.push(header);
            let mut body = clone_lines(&self.deleted);
            out.append(&mut body);
        }
        proof {
            assert(lines_model(out@) =~= report_of(
                lines_model(self.added@),
                lines_model(self.deleted@),
            ));
        }
        out
    }
}

/// Diffing any line set against itself signals no change: nothing is
/// added and nothing is removed.
pub proof fn lemma_no_change(lines: Seq<Seq<u8>>)
    ensures
        diff_added(lines, lines).len() == 0,
        diff_removed(lines, lines).len() == 0,
{
    assert forall|i: int| 0 <= i < lines.len() implies !(|l: Seq<u8>| !lines.contains(l))(
        #[trigger] lines[i],
    ) by {
        assert(lines.contains(lines[i]));
    }
    lemma_filter_all_false(lines, |l: Seq<u8>| !lines.contains(l));
}

/// Idempotence: a second run over the same entries (the same multiset of
/// hashed entry models, however scheduled), compared against the first
/// run's persisted lines, signals no change.
pub proof fn lemma_idempotent(ms1: Seq<ItemModel>, ms2: Seq<ItemModel>)
    requires
        ms1.to_multiset() == ms2.to_multiset(),
    ensures
        diff_added(lines_of(ms1.sort_by(item_leq())), lines_of(ms2.sort_by(item_leq()))).len()
            == 0,
        diff_removed(lines_of(ms1.sort_by(item_leq())), lines_of(ms2.sort_by(item_leq()))).len()
            == 0,
{
    lemma_deterministic(ms1, ms2);
    lemma_no_change(lines_of(ms1.sort_by(item_leq())));
}

/// Idempotence through persistence: the first run's lines are serialized
/// to file content and split back into lines, and a second run over the
/// same entries diffs against them with no change — as long as no line
/// carries a newline byte of its own (digests never do; a path could).
pub proof fn lemma_pipeline_idempotent(ms1: Seq<ItemModel>, ms2: Seq<ItemModel>)
    requires
        ms1.to_multiset() == ms2.to_multiset(),
        forall|i: int, j: int|
            0 <= i < lines_of(ms1.sort_by(item_leq())).len() && 0 <= j < lines_of(
                ms1.sort_by(item_leq()),
            )[i].len() ==> #[trigger] lines_of(ms1.sort_by(item_leq()))[i][j] != 10,
    ensures
        diff_added(
            split_lines_spec(joined_lines(lines_of(ms1.sort_by(item_leq())))),
            lines_of(ms2.sort_by(item_leq())),
        ).len() == 0,
        diff_removed(
            split_lines_spec(joined_lines(lines_of(ms1.sort_by(item_leq())))),
            lines_of(ms2.sort_by(item_leq())),
        ).len() == 0,
{
    lemma_round_trip(lines_of(ms1.sort_by(item_leq())));
    lemma_idempotent(ms1, ms2);
}

} // verus!
