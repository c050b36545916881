//! Archive entries, entry classification, the error type, and the overlay
//! of replacement contents keyed by entry path.

use vstd::prelude::*;
use vstd::string::*;

use crate::bytes_ops::is_suffix_of;
use crate::bytes_ops::ends_with_bytes;

verus! {

/// A textual archive entry: a relative path and its UTF-8 content bytes.
pub struct FileData {
    pub file_name: Vec<u8>,
    pub file_data: Vec<u8>,
}

/// A binary archive entry, passed through unchanged.
pub struct BinaryFileData {
    pub file_name: Vec<u8>,
    pub file_data: Vec<u8>,
}

/// A raw archive entry before classification.
pub struct RawEntry {
    pub name: Vec<u8>,
    pub data: Vec<u8>,
}

/// Failures that abort a conversion.
#[derive(Clone, Copy, Debug, PartialEq, Eq, Structural)]
pub enum EpubError {
    /// The input bytes are not a readable archive.
    BadArchive,
    /// An archive entry could not be read or carries an unsafe path.
    BadEntry,
    /// The well-known `META-INF/container.xml` entry is absent.
    MissingContainer,
    /// No `rootfile` element names an OPF package document.
    MissingRootfile,
    /// The OPF document named by the container is absent.
    MissingOpf,
    /// The OPF document has no `metadata` element.
    MissingMetadata,
    /// The output archive could not be produced.
    WriteFailed,
}

impl FileData {
    pub fn new(file_name: Vec<u8>, file_data: Vec<u8>) -> (r: FileData)
        ensures
            r.file_name@ == file_name@,
            r.file_data@ == file_data@,
    {
        FileData { file_name, file_data }
    }
}

impl BinaryFileData {
    pub fn new(file_name: Vec<u8>, file_data: Vec<u8>) -> (r: BinaryFileData)
        ensures
            r.file_name@ == file_name@,
            r.file_data@ == file_data@,
    {
        BinaryFileData { file_name, file_data }
    }
}

impl RawEntry {
    pub fn new(name: Vec<u8>, data: Vec<u8>) -> (r: RawEntry)
        ensures
            r.name@ == name@,
            r.data@ == data@,
    {
        RawEntry { name, data }
    }
}

/// A fresh copy of `v`.
pub fn clone_bytes(v: &Vec<u8>) -> (r: Vec<u8>)
    ensures
        r@ == v@,
{
    let mut r: Vec<u8> = Vec::new();
    r.extend_from_slice(v.as_slice());
    proof {
        assert(r@ =~= v@);
    }
    r
}

/// The path of a textual entry.
pub fn get_name_from_data(file: &FileData) -> (r: Vec<u8>)
    ensures
        r@ == file.file_name@,
{
    clone_bytes(&file.file_name)
}

/// Index of the last occurrence of `b` in `n`, or -1.
pub open spec fn rfind(n: Seq<u8>, b: u8) -> int
    decreases n.len(),
{
    if n.len() == 0 {
        -1
    } else if n[n.len() - 1] == b {
        n.len() - 1
    } else {
        rfind(n.drop_last(), b)
    }
}

proof fn lemma_rfind_range(n: Seq<u8>, b: u8)
    ensures
        -1 <= rfind(n, b) < n.len(),
    decreases n.len(),
{
    if n.len() > 0 && n[n.len() - 1] != b {
        lemma_rfind_range(n.drop_last(), b);
    }
}

proof fn lemma_rfind_at(n: Seq<u8>, b: u8, k: int)
    requires
        0 <= k < n.len(),
        n[k] == b,
        forall|m: int| k < m < n.len() ==> n[m] != b,
    ensures
        rfind(n, b) == k,
    decreases n.len(),
{
    if k == n.len() - 1 {
    } else {
        lemma_rfind_at(n.drop_last(), b, k);
    }
}

proof fn lemma_rfind_none(n: Seq<u8>, b: u8)
    requires
        forall|m: int| 0 <= m < n.len() ==> n[m] != b,
    ensures
        rfind(n, b) == -1,
    decreases n.len(),
{
    if n.len() > 0 {
        lemma_rfind_none(n.drop_last(), b);
    }
}

/// Index of the last occurrence of `b` in `n`, if any.
pub fn rfind_exec(n: &Vec<u8>, b: u8) -> (r: Option<usize>)
    ensures
        match r {
            Some(i) => rfind(n@, b) == i as int,
            None => rfind(n@, b) == -1,
        },
{
    let mut j: usize = n.len();
    while j > 0
        invariant
            j <= n.len(),
            forall|m: int| j <= m < n@.len() ==> n@[m] != b,
        decreases j,
    {
        j -= 1;
        if n[j] == b {
            proof {
                lemma_rfind_at(n@, b, j as int);
            }
            return Some(j);
        }
    }
    proof {
        lemma_rfind_none(n@, b);
    }
    None
}

/// The path extension of `n`: what follows the last dot of the last path
/// component, absent when there is no dot or the dot starts the component.
pub open spec fn ext_spec(n: Seq<u8>) -> Option<Seq<u8>> {
    let sep = rfind(n, 47);
    let dot = rfind(n, 46);
    if dot > sep + 1 {
        Some(n.skip(dot + 1))
    } else {
        None
    }
}

/// An entry whose extension is `html` or `xhtml`: the documents the
/// encoding and link passes rewrite.
pub open spec fn is_page(n: Seq<u8>) -> bool {
    ext_spec(n) == Some("html".spec_bytes()) || ext_spec(n) == Some("xhtml".spec_bytes())
}

/// Exec counterpart of `is_page`.
pub fn is_page_file(name: &Vec<u8>) -> (r: bool)
    ensures
        r == is_page(name@),
{
    proof {
        lemma_rfind_range(name@, 46);
        lemma_rfind_range(name@, 47);
    }
    let dot = match rfind_exec(name, 46) {
        Some(d) => d,
        None => {
            return false;
        },
    };
    let sep_ok = match rfind_exec(name, 47) {
        Some(s) => dot > 0 && s < dot - 1,
        None => dot > 0,
    };
    if !sep_ok {
        return false;
    }
    let name_len = name.len();
    proof {
        assert(dot < name_len);
    }
    let ext = crate::bytes_ops::tail_from(name, dot + 1);
    let html: Vec<u8> = "html".as_bytes_vec();
    let xhtml: Vec<u8> = "xhtml".as_bytes_vec();
    crate::bytes_ops::bytes_eq(&ext, &html) || crate::bytes_ops::bytes_eq(&ext, &xhtml)
}

/// A name carrying one of the textual suffixes; such entries are decoded
/// as text. This is a suffix match, not an extension match.
pub open spec fn is_text_name(n: Seq<u8>) -> bool {
    ||| is_suffix_of(n, "mimetype".spec_bytes())
    ||| is_suffix_of(n, "html".spec_bytes())
    ||| is_suffix_of(n, "xhtml".spec_bytes())
    ||| is_suffix_of(n, "htm".spec_bytes())
    ||| is_suffix_of(n, "xml".spec_bytes())
    ||| is_suffix_of(n, "svg".spec_bytes())
    ||| is_suffix_of(n, "css".spec_bytes())
    ||| is_suffix_of(n, "opf".spec_bytes())
    ||| is_suffix_of(n, "ncx".spec_bytes())
}

/// Exec counterpart of `is_text_name`.
pub fn is_text_entry(n: &Vec<u8>) -> (r: bool)
    ensures
        r == is_text_name(n@),
{
    let r = ends_with_bytes(n, &"mimetype".as_bytes_vec()) || ends_with_bytes(
        n,
        &"html".as_bytes_vec(),
    ) || ends_with_bytes(n, &"xhtml".as_bytes_vec()) || ends_with_bytes(
        n,
        &"htm".as_bytes_vec(),
    ) || ends_with_bytes(n, &"xml".as_bytes_vec()) || ends_with_bytes(
        n,
        &"svg".as_bytes_vec(),
    ) || ends_with_bytes(n, &"css".as_bytes_vec()) || ends_with_bytes(
        n,
        &"opf".as_bytes_vec(),
    ) || ends_with_bytes(n, &"ncx".as_bytes_vec());
    r
}

/// A name with a trailing separator denotes a directory and is skipped.
pub open spec fn is_dir_name(n: Seq<u8>) -> bool {
    n.len() > 0 && n[n.len() - 1] == 47
}

/// Exec counterpart of `is_dir_name`.
pub fn is_dir_entry(n: &Vec<u8>) -> (r: bool)
    ensures
        r == is_dir_name(n@),
{
    n.len() > 0 && n[n.len() - 1] == 47
}

/// The first textual entry whose path is `name`.
pub open spec fn find_file(files: Seq<FileData>, name: Seq<u8>) -> Option<int>
    decreases files.len(),
{
    if files.len() == 0 {
        None
    } else if files[0].file_name@ == name {
        Some(0)
    } else {
        match find_file(files.skip(1), name) {
            Some(i) => Some(i + 1),
            None => None,
        }
    }
}

/// Index and non-membership facts of `find_file`.
pub proof fn lemma_find_file(files: Seq<FileData>, name: Seq<u8>)
    ensures
        match find_file(files, name) {
            Some(i) => 0 <= i < files.len() && files[i].file_name@ == name && (forall|j: int|
                0 <= j < i ==> files[j].file_name@ != name),
            None => forall|j: int| 0 <= j < files.len() ==> files[j].file_name@ != name,
        },
    decreases files.len(),
{
    if files.len() > 0 && files[0].file_name@ != name {
        let t = files.skip(1);
        lemma_find_file(t, name);
        match find_file(t, name) {
            Some(i) => {
                assert(files[i + 1] == t[i]);
                assert forall|j: int| 0 <= j < i + 1 implies files[j].file_name@ != name by {
                    if j > 0 {
                        assert(t[j - 1] == files[j]);
                    }
                }
            },
            None => {
                assert forall|j: int|
                    0 <= j < files.len() implies files[j].file_name@ != name by {
                    if j > 0 {
                        assert(t[j - 1] == files[j]);
                    }
                }
            },
        }
    }
}

/// The first textual entry named `name`, as the original set holds it.
pub fn get_file_from_files<'a>(files: &'a Vec<FileData>, name: &Vec<u8>) -> (r: Option<
    &'a FileData,
>)
    ensures
        match r {
            Some(f) => {
                &&& find_file(files@, name@) matches Some(i)
                &&& 0 <= i < files@.len()
                &&& files@[i] == *f
            },
            None => find_file(files@, name@) is None,
        },
{
    let mut i: usize = 0;
    proof {
        assert(files@.skip(0) =~= files@);
    }
    while i < files.len()
        invariant
            i <= files.len(),
            find_file(files@, name@) == match find_file(files@.skip(i as int), name@) {
                Some(k) => Some(k + i),
                None => None::<int>,
            },
        decreases files.len() - i,
    {
        let ghost pre = files@.skip(i as int);
        if crate::bytes_ops::bytes_eq(&files[i].file_name, name) {
            proof {
                assert(pre[0] == files@[i as int]);
            }
            return Some(&files[i]);
        }
        proof {
            assert(pre[0] == files@[i as int]);
            assert(pre.skip(1) =~= files@.skip(i + 1));
        }
        i += 1;
    }
    proof {
        assert(files@.skip(i as int) =~= Seq::<FileData>::empty());
    }
    None
}

/// View of a sequence of byte vectors as a sequence of byte sequences.
pub open spec fn bytes_view(v: Seq<Vec<u8>>) -> Seq<Seq<u8>>
    decreases v.len(),
{
    if v.len() == 0 {
        Seq::empty()
    } else {
        bytes_view(v.drop_last()).push(v.last()@)
    }
}

/// View of the overlay vector as a sequence of path/content pairs.
pub open spec fn ov_view(v: Seq<(Vec<u8>, Vec<u8>)>) -> Seq<(Seq<u8>, Seq<u8>)>
    decreases v.len(),
{
    if v.len() == 0 {
        Seq::empty()
    } else {
        ov_view(v.drop_last()).push((v.last().0@, v.last().1@))
    }
}

/// `ov_view` maps indices through unchanged.
pub proof fn lemma_ov_view(v: Seq<(Vec<u8>, Vec<u8>)>)
    ensures
        ov_view(v).len() == v.len(),
        forall|i: int|
            0 <= i < v.len() ==> #[trigger] ov_view(v)[i] == (v[i].0@, v[i].1@),
    decreases v.len(),
{
    if v.len() > 0 {
        lemma_ov_view(v.drop_last());
        assert(forall|i: int|
            0 <= i < v.len() - 1 ==> v.drop_last()[i] == #[trigger] v[i]);
    }
}

/// The replacement content the overlay holds for path `k`: the latest
/// write wins.
pub open spec fn ov_lookup(s: Seq<(Seq<u8>, Seq<u8>)>, k: Seq<u8>) -> Option<Seq<u8>>
    decreases s.len(),
{
    if s.len() == 0 {
        None
    } else if s.last().0 == k {
        Some(s.last().1)
    } else {
        ov_lookup(s.drop_last(), k)
    }
}

/// The overlay content for path `k`, if any.
pub fn ov_get<'a>(ov: &'a Vec<(Vec<u8>, Vec<u8>)>, k: &Vec<u8>) -> (r: Option<&'a Vec<u8>>)
    ensures
        match r {
            Some(c) => ov_lookup(ov_view(ov@), k@) == Some(c@),
            None => ov_lookup(ov_view(ov@), k@) is None,
        },
{
    proof {
        lemma_ov_view(ov@);
    }
    let ghost w = ov_view(ov@);
    let mut j: usize = ov.len();
    proof {
        assert(w.take(j as int) =~= w);
    }
    while j > 0
        invariant
            j <= ov.len(),
            w == ov_view(ov@),
            w.len() == ov@.len(),
            forall|i: int| 0 <= i < w.len() ==> #[trigger] w[i] == (ov@[i].0@, ov@[i].1@),
            ov_lookup(w, k@) == ov_lookup(w.take(j as int), k@),
        decreases j,
    {
        j -= 1;
        let ghost t = w.take(j + 1);
        proof {
            assert(t.last() == w[j as int]);
            assert(t.drop_last() =~= w.take(j as int));
        }
        if crate::bytes_ops::bytes_eq(&ov[j].0, k) {
            return Some(&ov[j].1);
        }
    }
    proof {
        assert(w.take(0) =~= Seq::<(Seq<u8>, Seq<u8>)>::empty());
    }
    None
}

} // verus!
