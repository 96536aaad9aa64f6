//! Tree classification: an in-memory picture of the scanned directory tree
//! is partitioned into content entries (files and empty-directory leaves),
//! prior snapshot files, and ignorable marker files.
//!
//! Paths and names are byte strings; a node's `path` is the full path from
//! the scan invocation and its `name` is its final component.

use vstd::prelude::*;

use crate::bytes::all_digits;
use crate::bytes::bytes_eq;
use crate::bytes::is_digit;

verus! {

/// A file node: its full path and its final name component.
pub struct EachFile {
    pub path: Vec<u8>,
    pub name: Vec<u8>,
}

/// A directory node with the children its enumeration yielded.
pub struct EachDir {
    pub path: Vec<u8>,
    pub name: Vec<u8>,
    pub children: Vec<EachPath>,
}

/// A filesystem node, resolved once into a closed tagged variant.
pub enum EachPath {
    Dir(EachDir),
    File(EachFile),
}

/// The name of the ignorable marker file, `.DS_Store`.
pub open spec fn ds_store_name() -> Seq<u8> {
    seq![46u8, 68u8, 83u8, 95u8, 83u8, 116u8, 111u8, 114u8, 101u8]
}

/// The fixed prefix of a snapshot file name, `checkresult-`.
pub open spec fn result_name_prefix() -> Seq<u8> {
    seq![99u8, 104u8, 101u8, 99u8, 107u8, 114u8, 101u8, 115u8, 117u8, 108u8, 116u8, 45u8]
}

/// The fixed suffix of a snapshot file name, `.txt`.
pub open spec fn result_name_suffix() -> Seq<u8> {
    seq![46u8, 116u8, 120u8, 116u8]
}

/// A snapshot file name: 28 bytes, the fixed prefix, a 12-digit sequence
/// number, and the fixed suffix.
pub open spec fn is_result_name(s: Seq<u8>) -> bool {
    &&& s.len() == 28
    &&& s.subrange(0, 12) == result_name_prefix()
    &&& s.subrange(24, 28) == result_name_suffix()
    &&& forall|i: int| 12 <= i < 24 ==> is_digit(#[trigger] s[i])
}

/// The name of a node, whichever variant it is.
pub open spec fn name_of(p: EachPath) -> Seq<u8> {
    match p {
        EachPath::Dir(d) => d.name@,
        EachPath::File(f) => f.name@,
    }
}

/// A directory counts as empty when it has no children, or exactly one
/// child that is the ignorable marker file.
pub open spec fn dir_is_empty(d: EachDir) -> bool {
    ||| d.children@.len() == 0
    ||| (d.children@.len() == 1 && name_of(d.children@[0]) == ds_store_name())
}

/// The content entries below one node: an empty directory or a file is
/// itself an entry, the marker file is skipped, and a non-empty directory
/// contributes the entries of its children instead of itself.
pub open spec fn entries_of_entry(p: EachPath) -> Seq<EachPath>
    decreases p,
{
    match p {
        EachPath::Dir(d) => {
            if dir_is_empty(d) {
                seq![p]
            } else {
                entries_of_list(d.children@)
            }
        },
        EachPath::File(f) => {
            if f.name@ == ds_store_name() {
                Seq::empty()
            } else {
                seq![p]
            }
        },
    }
}

/// The concatenated content entries below a list of sibling nodes.
pub open spec fn entries_of_list(s: Seq<EachPath>) -> Seq<EachPath>
    decreases s,
{
    if s.len() == 0 {
        Seq::empty()
    } else {
        entries_of_entry(s[0]) + entries_of_list(s.drop_first())
    }
}

/// An empty directory — no children, or exactly one child that is the
/// ignorable marker file — is recorded once, as itself, and nothing
/// below it is visited.
pub proof fn lemma_empty_dir_recorded_once(d: EachDir)
    requires
        dir_is_empty(d),
    ensures
        entries_of_entry(EachPath::Dir(d)) == seq![EachPath::Dir(d)],
{
}

/// Compares `s[0 .. 12]` with the snapshot-name prefix.
fn has_result_prefix(s: &Vec<u8>) -> (r: bool)
    requires
        s@.len() >= 12,
    ensures
        r <==> s@.subrange(0, 12) == result_name_prefix(),
{
    let r = s[0] == 99 && s[1] == 104 && s[2] == 101 && s[3] == 99 && s[4] == 107 && s[5] == 114
        && s[6] == 101 && s[7] == 115 && s[8] == 117 && s[9] == 108 && s[10] == 116 && s[11]
        == 45;
    proof {
        if r {
            assert(s@.subrange(0, 12) =~= result_name_prefix());
        } else {
            assert(s@.subrange(0, 12) != result_name_prefix()) by {
                if s@.subrange(0, 12) == result_name_prefix() {
                    assert(forall|i: int|
                        0 <= i < 12 ==> s@[i] == #[trigger] result_name_prefix()[i]);
                }
            }
        }
    }
    r
}

/// Compares `s[24 .. 28]` with the snapshot-name suffix.
fn has_result_suffix(s: &Vec<u8>) -> (r: bool)
    requires
        s@.len() == 28,
    ensures
        r <==> s@.subrange(24, 28) == result_name_suffix(),
{
    let r = s[24] == 46 && s[25] == 116 && s[26] == 120 && s[27] == 116;
    proof {
        if r {
            assert(s@.subrange(24, 28) =~= result_name_suffix());
        } else {
            assert(s@.subrange(24, 28) != result_name_suffix()) by {
                if s@.subrange(24, 28) == result_name_suffix() {
                    assert(forall|i: int|
                        0 <= i < 4 ==> s@.subrange(24, 28)[i] == #[trigger] result_name_suffix()[i]);
                }
            }
        }
    }
    r
}

/// Builds the marker-file name `.DS_Store` as a byte vector.
pub fn ds_store() -> (r: Vec<u8>)
    ensures
        r@ == ds_store_name(),
{
    let v: Vec<u8> = vec![46u8, 68u8, 83u8, 95u8, 83u8, 116u8, 111u8, 114u8, 101u8];
    proof {
        assert(v@ =~= ds_store_name());
    }
    v
}

impl EachFile {
    /// Recognizes a previously persisted snapshot file by its name alone.
    pub fn is_result_file(&self) -> (r: bool)
        ensures
            r == is_result_name(self.name@),
    {
        if self.name.len() != 28 {
            return false;
        }
        if !has_result_prefix(&self.name) {
            return false;
        }
        if !has_result_suffix(&self.name) {
            return false;
        }
        all_digits(&self.name, 12, 24)
    }
}

impl EachDir {
    /// Decides emptiness: no children, or a single ignorable marker child.
    pub fn is_empty(&self) -> (r: bool)
        ensures
            r == dir_is_empty(*self),
    {
        if self.children.len() == 0 {
            true
        } else if self.children.len() == 1 {
            let marker = ds_store();
            match &self.children[0] {
                EachPath::Dir(d) => bytes_eq(&d.name, &marker),
                EachPath::File(f) => bytes_eq(&f.name, &marker),
            }
        } else {
            false
        }
    }

    /// Collects the content entries below this directory, in child order,
    /// recursing into non-empty subdirectories.
    pub fn visit(self) -> (r: Vec<EachPath>)
        ensures
            r@ == entries_of_list(self.children@),
        decreases self,
    {
        visit_list(self.children)
    }
}

/// Collects the content entries below a list of sibling nodes.
#[verifier::loop_isolation(false)]
fn visit_list(list: Vec<EachPath>) -> (r: Vec<EachPath>)
    ensures
        r@ == entries_of_list(list@),
    decreases list,
{
    let ghost list0 = list;
    let mut rest = list;
    let mut out: Vec<EachPath> = Vec::new();
    let ghost mut k: int = 0;
    proof {
        assert(rest@ =~= list0@.skip(0));
        assert(out@ + entries_of_list(rest@) =~= entries_of_list(list0@));
    }
    while rest.len() > 0
        invariant
            0 <= k <= list0@.len(),
            rest@ == list0@.skip(k),
            out@ + entries_of_list(rest@) == entries_of_list(list0@),
        decreases rest@.len(),
    {
        let ghost rest_pre = rest@;
        let p = rest.remove(0);
        proof {
            assert(rest_pre[0] == p);
            assert(list0[k] == p);
            assert(rest@ =~= rest_pre.drop_first());
            assert(rest@ =~= list0@.skip(k + 1));
            assert(entries_of_list(rest_pre) == entries_of_entry(p) + entries_of_list(rest@));
            k = k + 1;
        }
        match p {
            EachPath::Dir(d) => {
                if d.is_empty() {
                    proof {
                        assert(entries_of_entry(EachPath::Dir(d)) =~= seq![EachPath::Dir(d)]);
                    }
                    out.push(EachPath::Dir(d));
                } else {
                    proof {
                        broadcast use vstd::std_specs::vec::axiom_vec_index_decreases;
                        assert(list0[k - 1] == EachPath::Dir(d));
                        assert(decreases_to!(list0 => list0[k - 1]));
                        assert(decreases_to!(EachPath::Dir(d) => d.children));
                        assert(decreases_to!(list0 => d.children));
                    }
                    let mut sub = visit_list(d.children);
                    out.append(&mut sub);
                }
            },
            EachPath::File(f) => {
                let marker = ds_store();
                if !bytes_eq(&f.name, &marker) {
                    proof {
                        assert(entries_of_entry(EachPath::File(f)) =~= seq![EachPath::File(f)]);
                    }
                    out.push(EachPath::File(f));
                } else {
                    proof {
                        assert(entries_of_entry(EachPath::File(f)) =~= Seq::<EachPath>::empty());
                    }
                }
            },
        }
        proof {
            assert(out@ + entries_of_list(rest@) =~= entries_of_list(list0@));
        }
    }
    proof {
        assert(entries_of_list(rest@) =~= Seq::<EachPath>::empty());
        assert(out@ =~= entries_of_list(list0@));
    }
    out
}

/// What one root child contributes to the content entries: as below the
/// root, except that snapshot files are set aside rather than recorded.
pub open spec fn root_entry_content(p: EachPath) -> Seq<EachPath> {
    match p {
        EachPath::Dir(d) => {
            if dir_is_empty(d) {
                seq![p]
            } else {
                entries_of_list(d.children@)
            }
        },
        EachPath::File(f) => {
            if is_result_name(f.name@) || f.name@ == ds_store_name() {
                Seq::empty()
            } else {
                seq![p]
            }
        },
    }
}

/// The content entries contributed by the root's children, in order.
pub open spec fn root_content(s: Seq<EachPath>) -> Seq<EachPath>
    decreases s.len(),
{
    if s.len() == 0 {
        Seq::empty()
    } else {
        root_entry_content(s[0]) + root_content(s.drop_first())
    }
}

/// The snapshot files found directly below the root, in order.
pub open spec fn root_result_files(s: Seq<EachPath>) -> Seq<EachFile>
    decreases s.len(),
{
    if s.len() == 0 {
        Seq::empty()
    } else {
        (match s[0] {
            EachPath::File(f) => if is_result_name(f.name@) {
                seq![f]
            } else {
                Seq::empty()
            },
            EachPath::Dir(_) => Seq::empty(),
        }) + root_result_files(s.drop_first())
    }
}

/// The scanned root: its path, its content entries, and the prior
/// snapshot files found directly below it.
pub struct TargetDir {
    pub path: Vec<u8>,
    pub content: Vec<EachPath>,
    pub result_files: Vec<EachFile>,
}

impl TargetDir {
    /// Every collected snapshot file bears a well-formed snapshot name.
    pub open spec fn wf(self) -> bool {
        forall|i: int|
            0 <= i < self.result_files@.len() ==> is_result_name(
                #[trigger] self.result_files@[i].name@,
            )
    }

    /// Classifies the enumerated children of the scan root, separating
    /// content entries from previously persisted snapshot files.
    #[verifier::loop_isolation(false)]
    pub fn new(root: EachDir) -> (r: TargetDir)
        ensures
            r.path == root.path,
            r.content@ == root_content(root.children@),
            r.result_files@ == root_result_files(root.children@),
            r.wf(),
    {
        let EachDir { path, name: _name, children } = root;
        let ghost list0 = children;
        let mut rest = children;
        let mut content: Vec<EachPath> = Vec::new();
        let mut result_files: Vec<EachFile> = Vec::new();
        let ghost mut k: int = 0;
        proof {
            assert(rest@ =~= list0@.skip(0));
            assert(content@ + root_content(rest@) =~= root_content(list0@));
            assert(result_files@ + root_result_files(rest@) =~= root_result_files(list0@));
        }
        while rest.len() > 0
            invariant
                0 <= k <= list0@.len(),
                rest@ == list0@.skip(k),
                content@ + root_content(rest@) == root_content(list0@),
                result_files@ + root_result_files(rest@) == root_result_files(list0@),
                forall|i: int|
                    0 <= i < result_files@.len() ==> is_result_name(
                        #[trigger] result_files@[i].name@,
                    ),
            decreases rest@.len(),
        {
            let ghost rest_pre = rest@;
            let p = rest.remove(0);
            proof {
                assert(rest_pre[0] == p);
                assert(rest@ =~= rest_pre.drop_first());
                assert(rest@ =~= list0@.skip(k + 1));
                assert(root_content(rest_pre) == root_entry_content(p) + root_content(rest@));
                assert(root_result_files(rest_pre) == (match p {
                    EachPath::File(f) => if is_result_name(f.name@) {
                        seq![f]
                    } else {
                        Seq::<EachFile>::empty()
                    },
                    EachPath::Dir(_) => Seq::<EachFile>::empty(),
                }) + root_result_files(rest@));
                k = k + 1;
            }
            match p {
                EachPath::Dir(d) => {
                    if d.is_empty() {
                        proof {
                            assert(root_entry_content(EachPath::Dir(d)) =~= seq![
                                EachPath::Dir(d),
                            ]);
                        }
                        content.push(EachPath::Dir(d));
                    } else {
                        let mut sub = d.visit();
                        content.append(&mut sub);
                    }
                },
                EachPath::File(f) => {
                    if f.is_result_file() {
                        result_files.push(f);
                    } else {
                        let marker = ds_store();
                        if !bytes_eq(&f.name, &marker) {
                            proof {
                                assert(root_entry_content(EachPath::File(f)) =~= seq![
                                    EachPath::File(f),
                                ]);
                            }
                            content.push(EachPath::File(f));
                        }
                    }
                },
            }
            proof {
                assert(content@ + root_content(rest@) =~= root_content(list0@));
                assert(result_files@ + root_result_files(rest@) =~= root_result_files(list0@));
            }
        }
        proof {
            assert(root_content(rest@) =~= Seq::<EachPath>::empty());
            assert(root_result_files(rest@) =~= Seq::<EachFile>::empty());
            assert(content@ =~= root_content(list0@));
            assert(result_files@ =~= root_result_files(list0@));
        }
        TargetDir { path, content, result_files }
    }
}

impl EachPath {
    /// Resolves one filesystem node: a directory when its enumerated
    /// children are supplied, a file otherwise.
    pub fn new(path: Vec<u8>, name: Vec<u8>, children: Option<Vec<EachPath>>) -> (r: EachPath)
        ensures
            (children matches Some(cs) ==> r == EachPath::Dir(
                EachDir { path, name, children: cs },
            )),
            (children is None ==> r == EachPath::File(EachFile { path, name })),
    {
        match children {
            Some(cs) => EachPath::Dir(EachDir { path, name, children: cs }),
            None => EachPath::File(EachFile { path, name }),
        }
    }
}

} // verus!
