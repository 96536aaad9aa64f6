//! Snapshot persistence support: selecting the most recent prior snapshot
//! by its embedded sequence number, naming a fresh snapshot after the
//! current local time, and serializing snapshot lines to file content.

use vstd::prelude::*;

use crate::bytes::all_digits;
use crate::bytes::digits_val;
use crate::bytes::is_digit;
use crate::bytes::lines_model;
use crate::bytes::parse_digits;
use crate::bytes::push_bytes;
use crate::bytes::copy_range;
use crate::scan::is_result_name;
use crate::scan::result_name_prefix;
use crate::scan::result_name_suffix;
use crate::scan::TargetDir;

verus! {

/// The 12-digit sequence number embedded in a snapshot file name.
pub open spec fn seq_num_of(name: Seq<u8>) -> int {
    digits_val(name.subrange(12, 24))
}

/// Whether a prior snapshot exists; `Exist` carries the index of the
/// selected snapshot file among the collected ones.
pub enum LastResult {
    Exist(usize),
    NotExist,
}

impl TargetDir {
    /// Selects the most recent prior snapshot: the collected file whose
    /// embedded sequence number is numerically largest, the earliest such
    /// file when several are tied.
    pub fn last_result(&self) -> (r: LastResult)
        requires
            self.wf(),
        ensures
            (r is NotExist <==> self.result_files@.len() == 0),
            (r matches LastResult::Exist(best) ==> {
                &&& best < self.result_files@.len()
                &&& (forall|j: int|
                    0 <= j < self.result_files@.len() ==> seq_num_of(
                        #[trigger] self.result_files@[j].name@,
                    ) <= seq_num_of(self.result_files@[best as int].name@))
                &&& (forall|j: int|
                    0 <= j < best ==> seq_num_of(#[trigger] self.result_files@[j].name@)
                        < seq_num_of(self.result_files@[best as int].name@))
            }),
    {
        let n = self.result_files.len();
        if n == 0 {
            return LastResult::NotExist;
        }
        proof {
            assert(is_result_name(self.result_files@[0].name@));
        }
        let mut best_i: usize = 0;
        let mut best = parse_digits(&self.result_files[0].name, 12, 24);
        let mut j: usize = 1;
        while j < n
            invariant
                self.wf(),
                n == self.result_files@.len(),
                0 <= best_i < j <= n,
                best == seq_num_of(self.result_files@[best_i as int].name@),
                forall|t: int|
                    0 <= t < j ==> seq_num_of(#[trigger] self.result_files@[t].name@) <= best,
                forall|t: int|
                    0 <= t < best_i ==> seq_num_of(#[trigger] self.result_files@[t].name@) < best,
            decreases n - j,
        {
            proof {
                assert(is_result_name(self.result_files@[j as int].name@));
            }
            let num = parse_digits(&self.result_files[j].name, 12, 24);
            if num > best {
                best_i = j;
                best = num;
            }
            j += 1;
        }
        LastResult::Exist(best_i)
    }
}

/// Builds the file name of a snapshot from a 12-digit sequence stamp:
/// the fixed prefix, the stamp, and the fixed suffix.
pub fn snapshot_filename(stamp: &Vec<u8>) -> (r: Vec<u8>)
    requires
        stamp@.len() == 12,
        forall|i: int| 0 <= i < 12 ==> is_digit(#[trigger] stamp@[i]),
    ensures
        r@ == result_name_prefix() + stamp@ + result_name_suffix(),
        is_result_name(r@),
        seq_num_of(r@) == digits_val(stamp@),
{
    let mut v: Vec<u8> = vec![
        99u8, 104u8, 101u8, 99u8, 107u8, 114u8, 101u8, 115u8, 117u8, 108u8, 116u8, 45u8,
    ];
    proof {
        assert(v@ =~= result_name_prefix());
    }
    push_bytes(&mut v, stamp);
    v.push(46);
    v.push(116);
    v.push(120);
    v.push(116);
    proof {
        assert(v@ =~= result_name_prefix() + stamp@ + result_name_suffix());
        assert(v@.subrange(0, 12) =~= result_name_prefix());
        assert(v@.subrange(24, 28) =~= result_name_suffix());
        assert(forall|i: int| 12 <= i < 24 ==> v@[i] == #[trigger] stamp@[i - 12]);
        assert(v@.subrange(12, 24) =~= stamp@);
    }
    v
}

/// Relies on chrono's `Local::now` and `DelayedFormat` with the pattern
/// `%y%m%d%H%M%S` for the current local wall-clock time; nothing is
/// assumed of the bytes that come back, the caller validates them.
#[verifier::external_body]
fn now_stamp() -> (r: Vec<u8>) {
    let s = chrono::Local::now().format("%y%m%d%H%M%S").to_string();
    s.into_bytes()
}

/// Names a fresh snapshot after the current local time: `Some` exactly
/// when the clock yielded a 12-digit stamp, which a sane clock always
/// does, and then the name follows the recognized snapshot pattern.
pub fn fresh_snapshot_name() -> (r: Option<Vec<u8>>)
    ensures
        (r matches Some(n) ==> is_result_name(n@)),
{
    let stamp = now_stamp();
    if stamp.len() == 12 && all_digits(&stamp, 0, 12) {
        Some(snapshot_filename(&stamp))
    } else {
        None
    }
}

/// The serialized form of a sequence of lines: each line followed by one
/// newline byte.
pub open spec fn joined_lines(lines: Seq<Seq<u8>>) -> Seq<u8>
    decreases lines.len(),
{
    if lines.len() == 0 {
        Seq::empty()
    } else {
        lines[0] + seq![10u8] + joined_lines(lines.drop_first())
    }
}

/// The position of the first newline byte, or -1 when there is none.
pub open spec fn first_newline(data: Seq<u8>) -> int
    decreases data.len(),
{
    if data.len() == 0 {
        -1
    } else if data[0] == 10 {
        0
    } else {
        let r = first_newline(data.drop_first());
        if r < 0 {
            -1
        } else {
            r + 1
        }
    }
}

/// `first_newline` returns -1 or a valid position of a newline byte that
/// no earlier position shares.
pub proof fn lemma_first_newline_props(data: Seq<u8>)
    ensures
        first_newline(data) == -1 ==> forall|i: int| 0 <= i < data.len() ==> data[i] != 10,
        first_newline(data) >= 0 ==> {
            &&& first_newline(data) < data.len()
            &&& data[first_newline(data)] == 10
            &&& forall|i: int| 0 <= i < first_newline(data) ==> data[i] != 10
        },
    decreases data.len(),
{
    if data.len() == 0 {
    } else if data[0] == 10 {
    } else {
        let rest = data.drop_first();
        lemma_first_newline_props(rest);
        let r = first_newline(rest);
        if r < 0 {
            assert forall|i: int| 0 <= i < data.len() implies data[i] != 10 by {
                if i > 0 {
                    assert(data[i] == rest[i - 1]);
                }
            }
        } else {
            assert(data[r + 1] == rest[r]);
            assert forall|i: int| 0 <= i < r + 1 implies data[i] != 10 by {
                if i > 0 {
                    assert(data[i] == rest[i - 1]);
                }
            }
        }
    }
}

/// `first_newline` finds a newline at position `k` when the bytes before
/// `k` are newline-free and the byte at `k` is a newline.
pub proof fn lemma_first_newline_at(data: Seq<u8>, k: int)
    requires
        0 <= k < data.len(),
        data[k] == 10,
        forall|i: int| 0 <= i < k ==> data[i] != 10,
    ensures
        first_newline(data) == k,
    decreases data.len(),
{
    if k > 0 {
        lemma_first_newline_at(data.drop_first(), k - 1);
    }
}

/// The lines written in `data`: maximal newline-free runs, each newline
/// closing one line, with a trailing run without newline forming a final
/// line of its own.
pub open spec fn split_lines_spec(data: Seq<u8>) -> Seq<Seq<u8>>
    decreases data.len(),
    via split_lines_spec_decreases
{
    if data.len() == 0 {
        Seq::empty()
    } else {
        let k = first_newline(data);
        if k < 0 {
            seq![data]
        } else {
            seq![data.take(k)] + split_lines_spec(data.skip(k + 1))
        }
    }
}

#[via_fn]
proof fn split_lines_spec_decreases(data: Seq<u8>) {
    lemma_first_newline_props(data);
}

/// Splits file content into its lines.
pub fn split_lines(data: &Vec<u8>) -> (r: Vec<Vec<u8>>)
    ensures
        lines_model(r@) == split_lines_spec(data@),
{
    let n = data.len();
    let mut out: Vec<Vec<u8>> = Vec::new();
    let mut start: usize = 0;
    let mut i: usize = 0;
    proof {
        assert(data@.skip(0) =~= data@);
        assert(lines_model(out@) + split_lines_spec(data@.skip(0)) =~= split_lines_spec(data@));
    }
    while i < n
        invariant
            n == data@.len(),
            0 <= start <= i <= n,
            forall|t: int| start <= t < i ==> data@[t] != 10,
            lines_model(out@) + split_lines_spec(data@.skip(start as int)) == split_lines_spec(
                data@,
            ),
        decreases n - i,
    {
        if data[i] == 10 {
            let line = copy_range(data, start, i);
            proof {
                let tail = data@.skip(start as int);
                assert forall|t: int| 0 <= t < i - start implies tail[t] != 10 by {
                    assert(tail[t] == data@[start + t]);
                }
                assert(tail[i - start] == 10);
                lemma_first_newline_at(tail, i - start);
                assert(tail.take(i - start) =~= data@.subrange(start as int, i as int));
                assert(tail.skip(i - start + 1) =~= data@.skip(i + 1));
                assert(split_lines_spec(tail) == seq![line@] + split_lines_spec(data@.skip(i + 1)));
                assert(lines_model(out@.push(line)) =~= lines_model(out@).push(line@));
                assert(lines_model(out@.push(line)) + split_lines_spec(data@.skip(i + 1))
                    =~= lines_model(out@) + split_lines_spec(tail));
            }
            out.push(line);
            start = i + 1;
        }
        i += 1;
    }
    if start < n {
        let line = copy_range(data, start, n);
        proof {
            let tail = data@.skip(start as int);
            assert forall|t: int| 0 <= t < tail.len() implies tail[t] != 10 by {
                assert(tail[t] == data@[start + t]);
            }
            lemma_first_newline_props(tail);
            assert(first_newline(tail) == -1) by {
                if first_newline(tail) >= 0 {
                    assert(tail[first_newline(tail)] == 10);
                }
            }
            assert(tail.len() > 0);
            assert(split_lines_spec(tail) == seq![tail]);
            assert(tail =~= data@.subrange(start as int, n as int));
            assert(lines_model(out@.push(line)) =~= lines_model(out@).push(line@));
            assert(lines_model(out@.push(line)) =~= split_lines_spec(data@));
        }
        out.push(line);
    } else {
        proof {
            assert(data@.skip(start as int).len() == 0);
            assert(split_lines_spec(data@.skip(start as int)) =~= Seq::<Seq<u8>>::empty());
            assert(lines_model(out@) =~= split_lines_spec(data@));
        }
    }
    out
}

/// Serializes lines to file content, one newline after each line.
pub fn render_lines(lines: &Vec<Vec<u8>>) -> (r: Vec<u8>)
    ensures
        r@ == joined_lines(lines_model(lines@)),
{
    let n = lines.len();
    let mut out: Vec<u8> = Vec::new();
    let mut i: usize = 0;
    proof {
        assert(lines_model(lines@).skip(0) =~= lines_model(lines@));
    }
    while i < n
        invariant
            n == lines@.len(),
            0 <= i <= n,
            out@ + joined_lines(lines_model(lines@).skip(i as int)) == joined_lines(
                lines_model(lines@),
            ),
        decreases n - i,
    {
        proof {
            let m = lines_model(lines@);
            assert(m.skip(i as int)[0] == m[i as int]);
            assert(m.skip(i as int).drop_first() =~= m.skip(i + 1));
            assert(joined_lines(m.skip(i as int)) == m[i as int] + seq![10u8] + joined_lines(
                m.skip(i + 1),
            ));
        }
        push_bytes(&mut out, &lines[i]);
        out.push(10);
        i += 1;
    }
    proof {
        assert(joined_lines(lines_model(lines@).skip(n as int)) =~= Seq::<u8>::empty());
        assert(out@ =~= joined_lines(lines_model(lines@)));
    }
    out
}

/// Writing lines and reading them back yields the same lines, as long as
/// no line contains a newline byte of its own.
pub proof fn lemma_round_trip(lines: Seq<Seq<u8>>)
    requires
        forall|i: int, j: int|
            0 <= i < lines.len() && 0 <= j < lines[i].len() ==> #[trigger] lines[i][j] != 10,
    ensures
        split_lines_spec(joined_lines(lines)) == lines,
    decreases lines.len(),
{
    if lines.len() == 0 {
    } else {
        let head = lines[0];
        let data = joined_lines(lines);
        assert(data =~= head + seq![10u8] + joined_lines(lines.drop_first()));
        assert forall|t: int| 0 <= t < head.len() implies data[t] != 10 by {
            assert(data[t] == lines[0][t]);
        }
        assert(data[head.len() as int] == 10);
        lemma_first_newline_at(data, head.len() as int);
        assert(data.take(head.len() as int) =~= head);
        assert(data.skip(head.len() as int + 1) =~= joined_lines(lines.drop_first()));
        assert forall|i: int, j: int|
            0 <= i < lines.drop_first().len() && 0 <= j < lines.drop_first()[i].len()
            implies #[trigger] lines.drop_first()[i][j] != 10 by {
            assert(lines.drop_first()[i] == lines[i + 1]);
        }
        lemma_round_trip(lines.drop_first());
        assert(split_lines_spec(data) =~= seq![head] + lines.drop_first());
        assert(seq![head] + lines.drop_first() =~= lines);
    }
}

} // verus!
