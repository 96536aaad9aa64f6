//! Content fingerprints: the MD5 hex digest for files, the fixed sentinel
//! for empty-directory leaves, and the deterministic path-sorted result
//! list built from hashed entries however their computation was scheduled.

use vstd::prelude::*;
use vstd::multiset::Multiset;

use crate::bytes::bytes_eq;
use crate::bytes::bytes_le;
use crate::bytes::bytes_le_exec;
use crate::bytes::copy_range;
use crate::bytes::lemma_bytes_le_antisymmetric;
use crate::bytes::lemma_bytes_le_total;
use crate::bytes::lemma_bytes_le_transitive;
use crate::bytes::lines_model;
use crate::bytes::push_bytes;
use crate::scan::EachPath;
use crate::scan::TargetDir;

verus! {

/// The mathematical content of one snapshot entry: a digest and a path.
#[verifier::ext_equal]
pub struct ItemModel {
    pub md5: Seq<u8>,
    pub path: Seq<u8>,
}

/// One hashed entry: the digest bytes (hex or sentinel) and the path they
/// were computed for.
pub struct ResultItem {
    pub path: Vec<u8>,
    pub md5: Vec<u8>,
}

impl View for ResultItem {
    type V = ItemModel;

    open spec fn view(&self) -> ItemModel {
        ItemModel { md5: self.md5@, path: self.path@ }
    }
}

/// The models of a sequence of hashed entries.
pub open spec fn models(s: Seq<ResultItem>) -> Seq<ItemModel> {
    s.map_values(|r: ResultItem| r@)
}

/// The 16-byte MD5 digest of a byte string, named: it is a function of
/// those bytes alone.
pub uninterp spec fn md5_digest_of(data: Seq<u8>) -> Seq<u8>;

/// Relies on md5's `Md5` hasher through the `Digest` trait: the call
/// returns the 16-byte MD5 digest of the input, a pure function of it.
#[verifier::external_body]
fn md5_digest(data: &Vec<u8>) -> (r: Vec<u8>)
    ensures
        r@ == md5_digest_of(data@),
        r@.len() == 16,
{
    let digest = <md5::Md5 as md5::Digest>::digest(data.as_slice());
    digest.to_vec()
}

/// One lowercase hexadecimal digit for a value below 16.
pub open spec fn hex_digit(n: u8) -> u8 {
    if n < 10 {
        (48 + n) as u8
    } else {
        (87 + n) as u8
    }
}

/// The lowercase hexadecimal spelling of a byte string, two digits per
/// byte.
pub open spec fn hex_of(bytes: Seq<u8>) -> Seq<u8>
    decreases bytes.len(),
{
    if bytes.len() == 0 {
        Seq::empty()
    } else {
        hex_of(bytes.drop_last()) + seq![
            hex_digit(bytes.last() / 16),
            hex_digit(bytes.last() % 16),
        ]
    }
}

/// The digest recorded for a file with the given content.
pub open spec fn file_digest_of(data: Seq<u8>) -> Seq<u8> {
    hex_of(md5_digest_of(data))
}

/// Spells a byte string in lowercase hexadecimal.
pub fn to_hex(bytes: &Vec<u8>) -> (r: Vec<u8>)
    ensures
        r@ == hex_of(bytes@),
{
    let mut out: Vec<u8> = Vec::new();
    let mut i: usize = 0;
    proof {
        assert(bytes@.take(0) =~= Seq::<u8>::empty());
    }
    while i < bytes.len()
        invariant
            0 <= i <= bytes@.len(),
            out@ == hex_of(bytes@.take(i as int)),
        decreases bytes@.len() - i,
    {
        let b = bytes[i];
        let hi = b / 16;
        let lo = b % 16;
        let hi_digit: u8 = if hi < 10 {
            48 + hi
        } else {
            87 + hi
        };
        let lo_digit: u8 = if lo < 10 {
            48 + lo
        } else {
            87 + lo
        };
        proof {
            let pre = bytes@.take(i + 1);
            assert(pre.drop_last() =~= bytes@.take(i as int));
            assert(pre.last() == bytes@[i as int]);
            assert(hi_digit == hex_digit(bytes@[i as int] / 16));
            assert(lo_digit == hex_digit(bytes@[i as int] % 16));
            assert(out@.push(hi_digit).push(lo_digit) =~= hex_of(bytes@.take(i as int)) + seq![
                hex_digit(pre.last() / 16),
                hex_digit(pre.last() % 16),
            ]);
        }
        out.push(hi_digit);
        out.push(lo_digit);
        i += 1;
    }
    proof {
        assert(bytes@.take(bytes@.len() as int) =~= bytes@);
    }
    out
}

/// The fixed-width sentinel digest recorded for an empty-directory leaf,
/// `         empty_directory        ` (32 bytes).
pub open spec fn empty_dir_sentinel() -> Seq<u8> {
    seq![
        32u8, 32u8, 32u8, 32u8, 32u8, 32u8, 32u8, 32u8, 32u8, 101u8, 109u8, 112u8, 116u8, 121u8,
        95u8, 100u8, 105u8, 114u8, 101u8, 99u8, 116u8, 111u8, 114u8, 121u8, 32u8, 32u8, 32u8,
        32u8, 32u8, 32u8, 32u8, 32u8,
    ]
}

/// Builds the empty-directory sentinel digest as a byte vector.
pub fn sentinel() -> (r: Vec<u8>)
    ensures
        r@ == empty_dir_sentinel(),
{
    let v: Vec<u8> = vec![
        32u8, 32u8, 32u8, 32u8, 32u8, 32u8, 32u8, 32u8, 32u8, 101u8, 109u8, 112u8, 116u8, 121u8,
        95u8, 100u8, 105u8, 114u8, 101u8, 99u8, 116u8, 111u8, 114u8, 121u8, 32u8, 32u8, 32u8,
        32u8, 32u8, 32u8, 32u8, 32u8,
    ];
    proof {
        assert(v@ =~= empty_dir_sentinel());
    }
    v
}

/// The snapshot entry recorded for one content node with the given file
/// content: the sentinel digest for an empty-directory leaf, the hex MD5
/// digest of `data` for a file, under the node's full path.
pub open spec fn generated_item(p: EachPath, data: Seq<u8>) -> ItemModel {
    match p {
        EachPath::Dir(d) => ItemModel { md5: empty_dir_sentinel(), path: d.path@ },
        EachPath::File(f) => ItemModel { md5: file_digest_of(data), path: f.path@ },
    }
}

impl EachPath {
    /// Computes the snapshot entry for this content node; `data` is the
    /// file's content and is ignored for an empty-directory leaf.
    pub fn generate(&self, data: &Vec<u8>) -> (r: ResultItem)
        ensures
            r@ == generated_item(*self, data@),
    {
        match self {
            EachPath::Dir(d) => {
                let path = copy_range(&d.path, 0, d.path.len());
                proof {
                    assert(d.path@.subrange(0, d.path@.len() as int) =~= d.path@);
                }
                ResultItem { path, md5: sentinel() }
            },
            EachPath::File(f) => {
                let path = copy_range(&f.path, 0, f.path.len());
                proof {
                    assert(f.path@.subrange(0, f.path@.len() as int) =~= f.path@);
                }
                let digest = md5_digest(data);
                ResultItem { path, md5: to_hex(&digest) }
            },
        }
    }
}

/// Entry order: by path, lexicographically, with the digest breaking ties;
/// a total order on entry models.
pub open spec fn item_le(a: ItemModel, b: ItemModel) -> bool {
    if a.path == b.path {
        bytes_le(a.md5, b.md5)
    } else {
        bytes_le(a.path, b.path)
    }
}

/// The entry order as a first-class relation.
pub open spec fn item_leq() -> spec_fn(ItemModel, ItemModel) -> bool {
    |a: ItemModel, b: ItemModel| item_le(a, b)
}

/// The entry order relates every pair one way or the other.
pub proof fn lemma_item_le_total(a: ItemModel, b: ItemModel)
    ensures
        item_le(a, b) || item_le(b, a),
{
    lemma_bytes_le_total(a.path, b.path);
    lemma_bytes_le_total(a.md5, b.md5);
}

/// The entry order in both directions forces equality.
pub proof fn lemma_item_le_antisym(a: ItemModel, b: ItemModel)
    requires
        item_le(a, b),
        item_le(b, a),
    ensures
        a == b,
{
    if a.path == b.path {
        lemma_bytes_le_antisymmetric(a.md5, b.md5);
        assert(a =~= b);
    } else {
        lemma_bytes_le_antisymmetric(a.path, b.path);
    }
}

/// The entry order is transitive.
pub proof fn lemma_item_le_trans(a: ItemModel, b: ItemModel, c: ItemModel)
    requires
        item_le(a, b),
        item_le(b, c),
    ensures
        item_le(a, c),
{
    if a.path == b.path && b.path == c.path {
        lemma_bytes_le_transitive(a.md5, b.md5, c.md5);
    } else if a.path != b.path && b.path != c.path {
        lemma_bytes_le_transitive(a.path, b.path, c.path);
        if a.path == c.path {
            lemma_bytes_le_antisymmetric(a.path, b.path);
        }
    }
}

/// The entry order is a total ordering in the sense of `vstd::relations`.
pub proof fn lemma_item_total_ordering()
    ensures
        vstd::relations::total_ordering(item_leq()),
{
    let leq = item_leq();
    assert forall|x: ItemModel| #[trigger] leq(x, x) by {
        lemma_item_le_total(x, x);
    }
    assert forall|x: ItemModel, y: ItemModel| #[trigger] leq(x, y) && #[trigger] leq(y, x)
        implies x == y by {
        lemma_item_le_antisym(x, y);
    }
    assert forall|x: ItemModel, y: ItemModel, z: ItemModel|
        #[trigger] leq(x, y) && #[trigger] leq(y, z) implies leq(x, z) by {
        lemma_item_le_trans(x, y, z);
    }
    assert forall|x: ItemModel, y: ItemModel| #[trigger] leq(x, y) || #[trigger] leq(y, x) by {
        lemma_item_le_total(x, y);
    }
}

/// Decides the entry order on two hashed entries.
fn item_le_exec(a: &ResultItem, b: &ResultItem) -> (r: bool)
    ensures
        r == item_le(a@, b@),
{
    if bytes_eq(&a.path, &b.path) {
        bytes_le_exec(&a.md5, &b.md5)
    } else {
        bytes_le_exec(&a.path, &b.path)
    }
}

/// Finds an insertion position for `x` in a sorted list of entries: every
/// entry before it is at most `x`, the entry at it (if any) is at least
/// `x`.
fn find_pos(out: &Vec<ResultItem>, x: &ResultItem) -> (idx: usize)
    ensures
        idx <= out@.len(),
        forall|j: int| 0 <= j < idx ==> item_le(#[trigger] models(out@)[j], x@),
        idx < out@.len() ==> item_le(x@, models(out@)[idx as int]),
{
    let mut idx: usize = 0;
    while idx < out.len()
        invariant
            0 <= idx <= out@.len(),
            forall|j: int| 0 <= j < idx ==> item_le(#[trigger] models(out@)[j], x@),
        decreases out@.len() - idx,
    {
        proof {
            assert(models(out@)[idx as int] == out@[idx as int]@);
        }
        if item_le_exec(x, &out[idx]) {
            return idx;
        }
        proof {
            lemma_item_le_total(out@[idx as int]@, x@);
        }
        idx += 1;
    }
    idx
}

/// Inserting an element anywhere adds exactly it to the multiset.
proof fn lemma_insert_multiset(s: Seq<ItemModel>, i: int, x: ItemModel)
    requires
        0 <= i <= s.len(),
    ensures
        s.insert(i, x).to_multiset() == s.to_multiset().insert(x),
{
    broadcast use vstd::seq_lib::group_to_multiset_ensures;
    broadcast use vstd::multiset::group_multiset_axioms;

    let t = s.insert(i, x);
    assert(t.remove(i) =~= s);
    assert(t[i] == x);
    assert(t.remove(i).to_multiset() =~= t.to_multiset().remove(x));
    assert(t.contains(x));
    assert(t.to_multiset().count(x) > 0);
    assert(t.to_multiset() =~= s.to_multiset().insert(x)) by {
        assert forall|y: ItemModel| t.to_multiset().count(y) == s.to_multiset().insert(x).count(
            y,
        ) by {
            assert(s.to_multiset().count(y) == t.to_multiset().remove(x).count(y));
        }
    }
}

/// Sorts hashed entries into the entry order; the result depends only on
/// the entries, not on the order they arrived in.
#[verifier::loop_isolation(false)]
pub fn sort_items(items: Vec<ResultItem>) -> (r: Vec<ResultItem>)
    ensures
        models(r@) == models(items@).sort_by(item_leq()),
{
    broadcast use vstd::seq_lib::group_to_multiset_ensures;
    broadcast use vstd::multiset::group_multiset_axioms;

    proof {
        lemma_item_total_ordering();
        models(items@).lemma_sort_by_ensures(item_leq());
    }
    let ghost leq = item_leq();
    let mut rem = items;
    let mut out: Vec<ResultItem> = Vec::new();
    proof {
        assert(models(out@) =~= Seq::<ItemModel>::empty());
        assert(models(out@).to_multiset().add(models(rem@).to_multiset()) =~= models(
            items@,
        ).to_multiset());
    }
    while rem.len() > 0
        invariant
            vstd::relations::sorted_by(models(out@), item_leq()),
            models(out@).to_multiset().add(models(rem@).to_multiset()) == models(
                items@,
            ).to_multiset(),
        decreases rem@.len(),
    {
        let ghost rem_pre = rem@;
        let x = rem.pop().unwrap();
        proof {
            assert(rem_pre.drop_last() == rem@);
            assert(rem_pre =~= rem@.push(x));
            assert(models(rem_pre) =~= models(rem@).push(x@));
            assert(models(rem_pre).to_multiset() =~= models(rem@).to_multiset().insert(x@));
        }
        let idx = find_pos(&out, &x);
        proof {
            let m = models(out@);
            let mi = m.insert(idx as int, x@);
            assert(mi[idx as int] == x@);
            assert forall|i: int, j: int| 0 <= i < j < mi.len() implies #[trigger] item_leq()(
                mi[i],
                mi[j],
            ) by {
                if j < idx {
                    assert(mi[i] == m[i] && mi[j] == m[j]);
                } else if i > idx {
                    assert(mi[i] == m[i - 1] && mi[j] == m[j - 1]);
                } else if i < idx && j == idx {
                    assert(mi[i] == m[i]);
                    assert(item_le(m[i], x@));
                } else if i == idx && j > idx {
                    assert(mi[j] == m[j - 1]);
                    assert(idx < m.len());
                    assert(item_le(x@, m[idx as int]));
                    if j - 1 > idx {
                        assert(item_leq()(m[idx as int], m[j - 1]));
                        lemma_item_le_trans(x@, m[idx as int], m[j - 1]);
                    }
                } else {
                    assert(i < idx && j > idx);
                    assert(mi[i] == m[i] && mi[j] == m[j - 1]);
                    if j - 1 == i {
                        assert(false);
                    } else {
                        assert(item_leq()(m[i], m[j - 1]));
                    }
                }
            }
            assert(vstd::relations::sorted_by(mi, item_leq()));
            lemma_insert_multiset(m, idx as int, x@);
            assert(models(out@.insert(idx as int, x)) =~= mi);
        }
        out.insert(idx, x);
    }
    proof {
        assert(models(rem@).to_multiset() =~= Multiset::<ItemModel>::empty());
        assert(models(out@).to_multiset() =~= models(items@).to_multiset());
        vstd::seq_lib::lemma_sorted_unique(
            models(out@),
            models(items@).sort_by(item_leq()),
            item_leq(),
        );
    }
    out
}

/// The serialized snapshot line of one entry: the digest, a space, a dot,
/// then the root-relative path.
pub open spec fn line_of(m: ItemModel) -> Seq<u8> {
    m.md5 + seq![32u8, 46u8] + m.path
}

/// The serialized lines of a sequence of entries, in order.
pub open spec fn lines_of(ms: Seq<ItemModel>) -> Seq<Seq<u8>> {
    ms.map_values(|m: ItemModel| line_of(m))
}

/// Serializes one hashed entry to its snapshot line.
pub fn serialize_item(item: &ResultItem) -> (r: Vec<u8>)
    ensures
        r@ == line_of(item@),
{
    let mut out = copy_range(&item.md5, 0, item.md5.len());
    proof {
        assert(item.md5@.subrange(0, item.md5@.len() as int) =~= item.md5@);
    }
    out.push(32);
    out.push(46);
    push_bytes(&mut out, &item.path);
    proof {
        assert(out@ =~= line_of(item@));
    }
    out
}

/// Entry models with the first `n` path bytes (the scan root's path)
/// stripped off.
pub open spec fn relativized(ms: Seq<ItemModel>, n: int) -> Seq<ItemModel> {
    ms.map_values(|m: ItemModel| ItemModel { md5: m.md5, path: m.path.skip(n) })
}

/// The snapshot content computed from hashed entries: root-relative
/// paths, the entry order, one serialized line per entry. This is a
/// function of the set of entries alone, not of their arrival order.
pub open spec fn new_result_lines(ms: Seq<ItemModel>, root_len: int) -> Seq<Seq<u8>> {
    lines_of(relativized(ms, root_len).sort_by(item_leq()))
}

/// A freshly computed snapshot: its serialized lines, sorted by path.
pub struct NewResult {
    pub content: Vec<Vec<u8>>,
}

impl TargetDir {
    /// Assembles the new snapshot from the hashed entries, in whatever
    /// order their computation completed: paths are made root-relative,
    /// entries are sorted, and each is serialized to one line.
    #[verifier::loop_isolation(false)]
    pub fn new_result(&self, items: Vec<ResultItem>) -> (r: NewResult)
        requires
            forall|i: int|
                0 <= i < items@.len() ==> self.path@.len() <= (#[trigger] items@[i]@).path.len(),
        ensures
            lines_model(r.content@) == new_result_lines(models(items@), self.path@.len() as int),
    {
        let root_len = self.path.len();
        let ghost items0 = items;
        let mut rem = items;
        let mut rel: Vec<ResultItem> = Vec::new();
        let ghost mut k: int = 0;
        proof {
            assert(rem@ =~= items0@.skip(0));
            assert(models(rel@) =~= relativized(models(items0@), root_len as int).take(0));
        }
        while rem.len() > 0
            invariant
                0 <= k <= items0@.len(),
                rem@ == items0@.skip(k),
                models(rel@) == relativized(models(items0@), root_len as int).take(k),
            decreases rem@.len(),
        {
            let ghost rem_pre = rem@;
            let item = rem.remove(0);
            proof {
                assert(rem_pre[0] == item);
                assert(items0@[k] == item);
                assert(rem@ =~= rem_pre.drop_first());
                assert(rem@ =~= items0@.skip(k + 1));
                assert(self.path@.len() <= (items0@[k]@).path.len());
            }
            let n = item.path.len();
            let stripped = ResultItem {
                path: copy_range(&item.path, root_len, n),
                md5: item.md5,
            };
            proof {
                let full = relativized(models(items0@), root_len as int);
                assert(full[k] == stripped@);
                assert(full.take(k + 1) =~= full.take(k).push(full[k]));
                assert(models(rel@.push(stripped)) =~= models(rel@).push(stripped@));
                k = k + 1;
            }
            rel.push(stripped);
        }
        proof {
            let full = relativized(models(items0@), root_len as int);
            assert(full.take(k) =~= full);
        }
        let sorted = sort_items(rel);
        let n = sorted.len();
        let mut content: Vec<Vec<u8>> = Vec::new();
        let mut i: usize = 0;
        proof {
            assert(lines_model(content@) =~= lines_of(models(sorted@).take(0)));
        }
        while i < n
            invariant
                n == sorted@.len(),
                0 <= i <= n,
                lines_model(content@) == lines_of(models(sorted@).take(i as int)),
            decreases n - i,
        {
            let line = serialize_item(&sorted[i]);
            proof {
                let ms = models(sorted@);
                assert(ms.take(i + 1) =~= ms.take(i as int).push(ms[i as int]));
                assert(ms[i as int] == sorted@[i as int]@);
                assert(lines_of(ms.take(i + 1)) =~= lines_of(ms.take(i as int)).push(
                    line_of(ms[i as int]),
                ));
                assert(lines_model(content@.push(line)) =~= lines_model(content@).push(line@));
            }
            content.push(line);
            i += 1;
        }
        proof {
            assert(models(sorted@).take(n as int) =~= models(sorted@));
        }
        NewResult { content }
    }
}

/// Determinism: two runs over the same entries, however differently their
/// hashing was scheduled (any permutation of the same multiset of entry
/// models), produce byte-identical snapshot lines.
pub proof fn lemma_deterministic(ms1: Seq<ItemModel>, ms2: Seq<ItemModel>)
    requires
        ms1.to_multiset() == ms2.to_multiset(),
    ensures
        lines_of(ms1.sort_by(item_leq())) == lines_of(ms2.sort_by(item_leq())),
{
    lemma_item_total_ordering();
    ms1.lemma_sort_by_ensures(item_leq());
    ms2.lemma_sort_by_ensures(item_leq());
    vstd::seq_lib::lemma_sorted_unique(
        ms1.sort_by(item_leq()),
        ms2.sort_by(item_leq()),
        item_leq(),
    );
}

} // verus!
