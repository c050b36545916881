//! The conversion pipeline: classification of archive entries, the three
//! fix passes, and re-serialization. Every step's effect on the overlay
//! and the diagnostic log is stated exactly over sequence models.

use vstd::prelude::*;
use vstd::string::StrSliceExecFns;
use vstd::string::StringSliceAdditionalSpecFns;
use vstd::utf8::valid_utf8;

use crate::bytes_ops::has_sub;
use crate::bytes_ops::contains_sub;
use crate::bytes_ops::replace_spec;
use crate::bytes_ops::replace_all;
use crate::bytes_ops::trim_start_spec;
use crate::bytes_ops::trim_start_bytes;
use crate::entries::FileData;
use crate::entries::BinaryFileData;
use crate::entries::RawEntry;
use crate::entries::EpubError;
use crate::entries::is_page;
use crate::entries::is_page_file;
use crate::entries::is_text_name;
use crate::entries::is_text_entry;
use crate::entries::is_dir_name;
use crate::entries::is_dir_entry;
use crate::entries::clone_bytes;
use crate::entries::get_file_from_files;
use crate::entries::find_file;
use crate::entries::lemma_find_file;
use crate::entries::ov_view;
use crate::entries::lemma_ov_view;
use crate::entries::ov_lookup;
use crate::entries::ov_get;
use crate::entries::bytes_view;
use crate::xml_decl::has_xml_decl;
use crate::xml_decl::has_xml_decl_exec;
use crate::xml_decl::decl_spec;
use crate::xml_decl::canonical_decl;
use crate::html_q::sel_attr_of;
use crate::html_q::sel_attr_pairs_of;
use crate::html_q::sel_inner_of;
use crate::html_q::html_first_attr;
use crate::html_q::html_attr_pairs;
use crate::html_q::html_first_inner;
use crate::html_q::pairs_view;
use crate::html_q::lemma_pairs_view;
use crate::html_q::opt_bytes_view;
use crate::zip_io::zip_contents;
use crate::zip_io::zip_entries_of;
use crate::zip_io::zip_readable;
use crate::zip_io::entry_readable;
use crate::zip_io::zip_entry_ok;
use crate::zip_io::zip_open;
use crate::zip_io::zip_len;
use crate::zip_io::zip_entry;
use crate::zip_io::zw_new;
use crate::zip_io::zw_entries;
use crate::zip_io::zw_add;
use crate::zip_io::zw_finish;
use crate::zip_io::utf8_check;

verus! {

/// The in-memory document store: the original textual and binary entries,
/// the overlay of replacement contents, and the diagnostic log.
pub struct EpubConverter {
    pub files: Option<Vec<FileData>>,
    pub binary_files: Option<Vec<BinaryFileData>>,
    pub altered_files: Vec<(Vec<u8>, Vec<u8>)>,
    pub fixed_problems: Vec<Vec<u8>>,
}

/// View of textual entries as (path, content) pairs.
pub open spec fn fd_view(v: Seq<FileData>) -> Seq<(Seq<u8>, Seq<u8>)>
    decreases v.len(),
{
    if v.len() == 0 {
        Seq::empty()
    } else {
        fd_view(v.drop_last()).push((v.last().file_name@, v.last().file_data@))
    }
}

/// `fd_view` maps indices through unchanged.
pub proof fn lemma_fd_view(v: Seq<FileData>)
    ensures
        fd_view(v).len() == v.len(),
        forall|i: int|
            0 <= i < v.len() ==> #[trigger] fd_view(v)[i] == (
                v[i].file_name@,
                v[i].file_data@,
            ),
    decreases v.len(),
{
    if v.len() > 0 {
        lemma_fd_view(v.drop_last());
        assert(forall|i: int|
            0 <= i < v.len() - 1 ==> v.drop_last()[i] == #[trigger] v[i]);
    }
}

/// View of binary entries as (path, content) pairs.
pub open spec fn bfd_view(v: Seq<BinaryFileData>) -> Seq<(Seq<u8>, Seq<u8>)>
    decreases v.len(),
{
    if v.len() == 0 {
        Seq::empty()
    } else {
        bfd_view(v.drop_last()).push((v.last().file_name@, v.last().file_data@))
    }
}

/// `bfd_view` maps indices through unchanged.
pub proof fn lemma_bfd_view(v: Seq<BinaryFileData>)
    ensures
        bfd_view(v).len() == v.len(),
        forall|i: int|
            0 <= i < v.len() ==> #[trigger] bfd_view(v)[i] == (
                v[i].file_name@,
                v[i].file_data@,
            ),
    decreases v.len(),
{
    if v.len() > 0 {
        lemma_bfd_view(v.drop_last());
        assert(forall|i: int|
            0 <= i < v.len() - 1 ==> v.drop_last()[i] == #[trigger] v[i]);
    }
}

/// The textual entries, as pairs; empty before any archive was read.
pub open spec fn files_of(c: EpubConverter) -> Seq<(Seq<u8>, Seq<u8>)> {
    match c.files {
        Some(v) => fd_view(v@),
        None => Seq::empty(),
    }
}

/// The binary entries, as pairs; empty before any archive was read.
pub open spec fn bins_of(c: EpubConverter) -> Seq<(Seq<u8>, Seq<u8>)> {
    match c.binary_files {
        Some(v) => bfd_view(v@),
        None => Seq::empty(),
    }
}

impl EpubConverter {
    /// The overlay, as a sequence of (path, replacement) writes.
    pub open spec fn ov(self) -> Seq<(Seq<u8>, Seq<u8>)> {
        ov_view(self.altered_files@)
    }

    /// The diagnostic log.
    pub open spec fn log(self) -> Seq<Seq<u8>> {
        bytes_view(self.fixed_problems@)
    }
}

/// Content of a textual entry after decoding: the raw bytes when they are
/// valid UTF-8, empty otherwise.
pub open spec fn text_data_of(d: Seq<u8>) -> Seq<u8> {
    if valid_utf8(d) {
        d
    } else {
        Seq::empty()
    }
}

/// The textual entries among raw archive entries, in archive order.
pub open spec fn classify_text(es: Seq<(Seq<u8>, Seq<u8>)>) -> Seq<(Seq<u8>, Seq<u8>)>
    decreases es.len(),
{
    if es.len() == 0 {
        Seq::empty()
    } else {
        classify_text(es.drop_last()) + if is_text_name(es.last().0) {
            seq![(es.last().0, text_data_of(es.last().1))]
        } else {
            Seq::empty()
        }
    }
}

/// The binary entries among raw archive entries, in archive order;
/// directory entries are skipped.
pub open spec fn classify_bin(es: Seq<(Seq<u8>, Seq<u8>)>) -> Seq<(Seq<u8>, Seq<u8>)>
    decreases es.len(),
{
    if es.len() == 0 {
        Seq::empty()
    } else {
        classify_bin(es.drop_last()) + if !is_text_name(es.last().0) && !is_dir_name(
            es.last().0,
        ) {
            seq![(es.last().0, es.last().1)]
        } else {
            Seq::empty()
        }
    }
}

/// Every entry of the archive encoded by `bytes` can be extracted.
pub open spec fn all_entries_readable(bytes: Seq<u8>) -> bool {
    forall|j: int| 0 <= j < zip_entries_of(bytes).len() ==> entry_readable(bytes, j)
}

/// The content the writer emits for a textual entry: the overlay's
/// replacement when one exists, the original content otherwise.
pub open spec fn ov_content(ov: Seq<(Seq<u8>, Seq<u8>)>, f: (Seq<u8>, Seq<u8>)) -> Seq<u8> {
    match ov_lookup(ov, f.0) {
        Some(d) => d,
        None => f.1,
    }
}

/// View of raw entries as (path, content) pairs.
pub open spec fn re_view(v: Seq<RawEntry>) -> Seq<(Seq<u8>, Seq<u8>)>
    decreases v.len(),
{
    if v.len() == 0 {
        Seq::empty()
    } else {
        re_view(v.drop_last()).push((v.last().name@, v.last().data@))
    }
}

/// `re_view` maps indices through unchanged.
pub proof fn lemma_re_view(v: Seq<RawEntry>)
    ensures
        re_view(v).len() == v.len(),
        forall|i: int|
            0 <= i < v.len() ==> #[trigger] re_view(v)[i] == (v[i].name@, v[i].data@),
    decreases v.len(),
{
    if v.len() > 0 {
        lemma_re_view(v.drop_last());
        assert(forall|i: int|
            0 <= i < v.len() - 1 ==> v.drop_last()[i] == #[trigger] v[i]);
    }
}

/// The output entries of the store, in the order the writer emits them:
/// each textual entry with its overlay-or-original content, then each
/// binary entry verbatim.
pub open spec fn store_out_entries(c: EpubConverter) -> Seq<(Seq<u8>, Seq<u8>)> {
    Seq::new(
        files_of(c).len(),
        |i: int| (files_of(c)[i].0, ov_content(c.ov(), files_of(c)[i])),
    ) + bins_of(c)
}

/// The diagnostic recorded when a declaration is prepended.
pub open spec fn msg_enc(name: Seq<u8>) -> Seq<u8> {
    "Prefixed correct encoding to html for ".spec_bytes() + name
}

/// The content the encoding pass stores for a page: the trimmed original,
/// prefixed by the canonical declaration when none is present.
pub open spec fn enc_target(c: Seq<u8>) -> Seq<u8> {
    let t = trim_start_spec(c);
    if has_xml_decl(t) {
        t
    } else {
        decl_spec() + seq![10u8] + t
    }
}

/// Whether the encoding pass changes a page and logs a diagnostic.
pub open spec fn enc_changed(c: Seq<u8>) -> bool {
    !has_xml_decl(trim_start_spec(c))
}

/// The overlay writes of the encoding pass, in entry order.
pub open spec fn enc_ov(fs: Seq<(Seq<u8>, Seq<u8>)>) -> Seq<(Seq<u8>, Seq<u8>)>
    decreases fs.len(),
{
    if fs.len() == 0 {
        Seq::empty()
    } else {
        enc_ov(fs.drop_last()) + if is_page(fs.last().0) {
            seq![(fs.last().0, enc_target(fs.last().1))]
        } else {
            Seq::empty()
        }
    }
}

/// The diagnostics of the encoding pass, in entry order.
pub open spec fn enc_log(fs: Seq<(Seq<u8>, Seq<u8>)>) -> Seq<Seq<u8>>
    decreases fs.len(),
{
    if fs.len() == 0 {
        Seq::empty()
    } else {
        enc_log(fs.drop_last()) + if is_page(fs.last().0) && enc_changed(fs.last().1) {
            seq![msg_enc(fs.last().0)]
        } else {
            Seq::empty()
        }
    }
}

/// The separator of the synthetic fragment-reference token.
pub open spec fn link_sep() -> Seq<u8> {
    " + # + ".spec_bytes()
}

/// The synthetic link-target token for a page and a body id.
pub open spec fn link_token(name: Seq<u8>, id: Seq<u8>) -> Seq<u8> {
    name + link_sep() + id
}

/// The `id` attribute of the first `body` element of a page's trimmed
/// content, as the HTML parser reads it.
pub open spec fn body_id_of(c: Seq<u8>) -> Option<Seq<u8>> {
    sel_attr_of(trim_start_spec(c), "body".spec_bytes(), "id".spec_bytes())
}

/// The (token, target path) pairs collected from the pages, in entry
/// order.
pub open spec fn collect_tokens(fs: Seq<(Seq<u8>, Seq<u8>)>) -> Seq<(Seq<u8>, Seq<u8>)>
    decreases fs.len(),
{
    if fs.len() == 0 {
        Seq::empty()
    } else {
        collect_tokens(fs.drop_last()) + if is_page(fs.last().0) {
            match body_id_of(fs.last().1) {
                Some(id) => seq![(link_token(fs.last().0, id), fs.last().0)],
                None => Seq::empty(),
            }
        } else {
            Seq::empty()
        }
    }
}

/// An entry's content after the token substitutions: each token that the
/// original content contains is replaced, in collection order, each
/// replacement applied to the previous result.
pub open spec fn apply_tokens(orig: Seq<u8>, toks: Seq<(Seq<u8>, Seq<u8>)>) -> Seq<u8>
    decreases toks.len(),
{
    if toks.len() == 0 {
        orig
    } else {
        let prev = apply_tokens(orig, toks.drop_last());
        if has_sub(orig, toks.last().0) {
            replace_spec(prev, toks.last().0, toks.last().1)
        } else {
            prev
        }
    }
}

/// The diagnostic recorded for one token replacement.
pub open spec fn msg_link(token: Seq<u8>, target: Seq<u8>, file: Seq<u8>) -> Seq<u8> {
    "Replaced link target with ".spec_bytes() + token + " in ".spec_bytes() + target
        + " in file ".spec_bytes() + file
}

/// The overlay writes of the link pass for one entry: one write per token
/// the original content contains, each holding the content substituted so
/// far.
pub open spec fn link_ov_file(f: (Seq<u8>, Seq<u8>), toks: Seq<(Seq<u8>, Seq<u8>)>) -> Seq<
    (Seq<u8>, Seq<u8>),
>
    decreases toks.len(),
{
    if toks.len() == 0 {
        Seq::empty()
    } else {
        link_ov_file(f, toks.drop_last()) + if has_sub(f.1, toks.last().0) {
            seq![(f.0, apply_tokens(f.1, toks))]
        } else {
            Seq::empty()
        }
    }
}

/// The diagnostics of the link pass for one entry.
pub open spec fn link_log_file(f: (Seq<u8>, Seq<u8>), toks: Seq<(Seq<u8>, Seq<u8>)>) -> Seq<
    Seq<u8>,
>
    decreases toks.len(),
{
    if toks.len() == 0 {
        Seq::empty()
    } else {
        link_log_file(f, toks.drop_last()) + if has_sub(f.1, toks.last().0) {
            seq![msg_link(toks.last().0, toks.last().1, f.0)]
        } else {
            Seq::empty()
        }
    }
}

/// The overlay writes of the link pass, in entry order.
pub open spec fn link_ov(fs: Seq<(Seq<u8>, Seq<u8>)>, toks: Seq<(Seq<u8>, Seq<u8>)>) -> Seq<
    (Seq<u8>, Seq<u8>),
>
    decreases fs.len(),
{
    if fs.len() == 0 {
        Seq::empty()
    } else {
        link_ov(fs.drop_last(), toks) + link_ov_file(fs.last(), toks)
    }
}

/// The diagnostics of the link pass, in entry order.
pub open spec fn link_log(fs: Seq<(Seq<u8>, Seq<u8>)>, toks: Seq<(Seq<u8>, Seq<u8>)>) -> Seq<
    Seq<u8>,
>
    decreases fs.len(),
{
    if fs.len() == 0 {
        Seq::empty()
    } else {
        link_log(fs.drop_last(), toks) + link_log_file(fs.last(), toks)
    }
}

/// Builds `link_token` for a page and a body id.
fn build_link_token(name: &Vec<u8>, id: &Vec<u8>) -> (r: Vec<u8>)
    ensures
        r@ == link_token(name@, id@),
{
    let mut r = clone_bytes(name);
    r.extend_from_slice(" + # + ".as_bytes_vec().as_slice());
    r.extend_from_slice(id.as_slice());
    proof {
        assert(r@ =~= link_token(name@, id@));
    }
    r
}

/// Builds `msg_link` for one replacement.
fn build_msg_link(token: &Vec<u8>, target: &Vec<u8>, file: &Vec<u8>) -> (r: Vec<u8>)
    ensures
        r@ == msg_link(token@, target@, file@),
{
    let mut r = "Replaced link target with ".as_bytes_vec();
    r.extend_from_slice(token.as_slice());
    r.extend_from_slice(" in ".as_bytes_vec().as_slice());
    r.extend_from_slice(target.as_slice());
    r.extend_from_slice(" in file ".as_bytes_vec().as_slice());
    r.extend_from_slice(file.as_slice());
    proof {
        assert(r@ =~= msg_link(token@, target@, file@));
    }
    r
}

/// The well-known path of the container pointer document.
pub open spec fn container_path() -> Seq<u8> {
    "META-INF/container.xml".spec_bytes()
}

/// The media type that marks a rootfile as the OPF package document.
pub open spec fn oebps_media_type() -> Seq<u8> {
    "application/oebps-package+xml".spec_bytes()
}

/// The preferred language code written into repaired packages.
pub open spec fn preferred_lang() -> Seq<u8> {
    "en".spec_bytes()
}

/// Whether a language code is in the supported set.
pub open spec fn lang_supported(l: Seq<u8>) -> bool {
    l == preferred_lang()
}

/// A language code wrapped in its `dc:language` element.
pub open spec fn lang_wrap(l: Seq<u8>) -> Seq<u8> {
    "<dc:language>".spec_bytes() + l + "</dc:language>".spec_bytes()
}

/// The diagnostic recorded when the language is replaced.
pub open spec fn msg_lang(orig: Seq<u8>) -> Seq<u8> {
    "Fixed language to be supported language from ".spec_bytes() + orig
}

/// The diagnostic recorded when a missing language element is added.
pub open spec fn msg_lang_added() -> Seq<u8> {
    "Added missing language tag".spec_bytes()
}

/// The first entry whose path is `name`.
pub open spec fn find_entry(fs: Seq<(Seq<u8>, Seq<u8>)>, name: Seq<u8>) -> Option<int>
    decreases fs.len(),
{
    if fs.len() == 0 {
        None
    } else if fs[0].0 == name {
        Some(0)
    } else {
        match find_entry(fs.skip(1), name) {
            Some(i) => Some(i + 1),
            None => None,
        }
    }
}

/// Index and non-membership facts of `find_entry`.
pub proof fn lemma_find_entry(fs: Seq<(Seq<u8>, Seq<u8>)>, name: Seq<u8>)
    ensures
        match find_entry(fs, name) {
            Some(i) => 0 <= i < fs.len() && fs[i].0 == name && (forall|j: int|
                0 <= j < i ==> fs[j].0 != name),
            None => forall|j: int| 0 <= j < fs.len() ==> fs[j].0 != name,
        },
    decreases fs.len(),
{
    if fs.len() > 0 && fs[0].0 != name {
        let t = fs.skip(1);
        lemma_find_entry(t, name);
        match find_entry(t, name) {
            Some(i) => {
                assert(fs[i + 1] == t[i]);
                assert forall|j: int| 0 <= j < i + 1 implies fs[j].0 != name by {
                    if j > 0 {
                        assert(t[j - 1] == fs[j]);
                    }
                }
            },
            None => {
                assert forall|j: int| 0 <= j < fs.len() implies fs[j].0 != name by {
                    if j > 0 {
                        assert(t[j - 1] == fs[j]);
                    }
                }
            },
        }
    }
}

/// The `full-path` attribute of the first `rootfile` whose `media-type`
/// marks the package document.
pub open spec fn first_oebps(ps: Seq<(Option<Seq<u8>>, Option<Seq<u8>>)>) -> Option<Seq<u8>>
    decreases ps.len(),
{
    if ps.len() == 0 {
        None
    } else if ps[0].0 == Some(oebps_media_type()) {
        ps[0].1
    } else {
        first_oebps(ps.skip(1))
    }
}

/// The OPF document path the container names, as the HTML parser reads it.
pub open spec fn opf_path_of(container: Seq<u8>) -> Option<Seq<u8>> {
    first_oebps(
        sel_attr_pairs_of(
            container,
            "rootfile".spec_bytes(),
            "media-type".spec_bytes(),
            "full-path".spec_bytes(),
        ),
    )
}

/// The outcome of the language pass on the textual entries: the error if
/// the pass aborts, and the overlay writes and diagnostics it appends.
pub open spec fn lang_eval(fs: Seq<(Seq<u8>, Seq<u8>)>) -> (
    Option<EpubError>,
    Seq<(Seq<u8>, Seq<u8>)>,
    Seq<Seq<u8>>,
) {
    match find_entry(fs, container_path()) {
        None => (Some(EpubError::MissingContainer), Seq::empty(), Seq::empty()),
        Some(ci) => match opf_path_of(fs[ci].1) {
            None => (Some(EpubError::MissingRootfile), Seq::empty(), Seq::empty()),
            Some(p) => match find_entry(fs, p) {
                None => (Some(EpubError::MissingOpf), Seq::empty(), Seq::empty()),
                Some(oi) => {
                    let opf = fs[oi].1;
                    let opfname = fs[oi].0;
                    let masked = replace_spec(
                        opf,
                        "dc:language".spec_bytes(),
                        "dclanguage".spec_bytes(),
                    );
                    match sel_inner_of(masked, "metadata".spec_bytes()) {
                        None => (Some(EpubError::MissingMetadata), Seq::empty(), Seq::empty()),
                        Some(meta) => match sel_inner_of(masked, "dclanguage".spec_bytes()) {
                            Some(l) => if lang_supported(l) {
                                (None, Seq::empty(), Seq::empty())
                            } else {
                                (
                                    None,
                                    seq![
                                        (
                                            opfname,
                                            replace_spec(
                                                opf,
                                                lang_wrap(l),
                                                lang_wrap(preferred_lang()),
                                            ),
                                        ),
                                    ],
                                    seq![msg_lang(l)],
                                )
                            },
                            None => (
                                None,
                                seq![
                                    (
                                        opfname,
                                        replace_spec(
                                            opf,
                                            meta,
                                            meta + seq![10u8] + lang_wrap(preferred_lang()),
                                        ),
                                    ),
                                ],
                                seq![msg_lang_added()],
                            ),
                        },
                    }
                },
            },
        },
    }
}

/// Builds `lang_wrap` for a code.
fn build_lang_wrap(l: &Vec<u8>) -> (r: Vec<u8>)
    ensures
        r@ == lang_wrap(l@),
{
    let mut r = "<dc:language>".as_bytes_vec();
    r.extend_from_slice(l.as_slice());
    r.extend_from_slice("</dc:language>".as_bytes_vec().as_slice());
    proof {
        assert(r@ =~= lang_wrap(l@));
    }
    r
}

/// Builds `msg_lang` for a code.
fn build_msg_lang(orig: &Vec<u8>) -> (r: Vec<u8>)
    ensures
        r@ == msg_lang(orig@),
{
    let mut r = "Fixed language to be supported language from ".as_bytes_vec();
    r.extend_from_slice(orig.as_slice());
    proof {
        assert(r@ =~= msg_lang(orig@));
    }
    r
}

/// The `full-path` of the first rootfile carrying the package media type.
fn first_oebps_exec(pairs: &Vec<(Option<Vec<u8>>, Option<Vec<u8>>)>) -> (r: Option<Vec<u8>>)
    ensures
        opt_bytes_view(r) == first_oebps(pairs_view(pairs@)),
{
    let ghost pv = pairs_view(pairs@);
    proof {
        lemma_pairs_view(pairs@);
        assert(pv.skip(0) =~= pv);
    }
    let mut k: usize = 0;
    while k < pairs.len()
        invariant
            k <= pairs.len(),
            pv == pairs_view(pairs@),
            pv.len() == pairs@.len(),
            forall|m: int|
                0 <= m < pv.len() ==> #[trigger] pv[m] == (
                    opt_bytes_view(pairs@[m].0),
                    opt_bytes_view(pairs@[m].1),
                ),
            first_oebps(pv) == first_oebps(pv.skip(k as int)),
        decreases pairs.len() - k,
    {
        proof {
            assert(pv.skip(k as int)[0] == pv[k as int]);
            assert(pv.skip(k as int).skip(1) =~= pv.skip(k + 1));
        }
        let is_hit = match &pairs[k].0 {
            Some(mt) => crate::bytes_ops::bytes_eq(
                mt,
                &"application/oebps-package+xml".as_bytes_vec(),
            ),
            None => false,
        };
        if is_hit {
            return match &pairs[k].1 {
                Some(p) => Some(clone_bytes(p)),
                None => None,
            };
        }
        k += 1;
    }
    proof {
        assert(pv.skip(pairs@.len() as int) =~= Seq::<(Option<Seq<u8>>, Option<Seq<u8>>)>::empty());
    }
    None
}

/// Builds `msg_enc` for a path.
fn build_msg_enc(name: &Vec<u8>) -> (r: Vec<u8>)
    ensures
        r@ == msg_enc(name@),
{
    let mut r = "Prefixed correct encoding to html for ".as_bytes_vec();
    r.extend_from_slice(name.as_slice());
    proof {
        assert(r@ =~= msg_enc(name@));
    }
    r
}

impl EpubConverter {
    /// A converter with nothing read and nothing fixed yet.
    pub fn new() -> (r: EpubConverter)
        ensures
            r.files is None,
            r.binary_files is None,
            r.ov() == Seq::<(Seq<u8>, Seq<u8>)>::empty(),
            r.log() == Seq::<Seq<u8>>::empty(),
    {
        EpubConverter {
            files: None,
            binary_files: None,
            altered_files: Vec::new(),
            fixed_problems: Vec::new(),
        }
    }

    /// A converter over the given entries, with an empty overlay and log.
    pub fn from_parts(files: Vec<FileData>, binary_files: Vec<BinaryFileData>) -> (r:
        EpubConverter)
        ensures
            r.files is Some,
            r.binary_files is Some,
            files_of(r) == fd_view(files@),
            bins_of(r) == bfd_view(binary_files@),
            r.ov() == Seq::<(Seq<u8>, Seq<u8>)>::empty(),
            r.log() == Seq::<Seq<u8>>::empty(),
    {
        EpubConverter {
            files: Some(files),
            binary_files: Some(binary_files),
            altered_files: Vec::new(),
            fixed_problems: Vec::new(),
        }
    }

    /// The overlay content recorded for a path, if any.
    pub fn altered_content(&self, name: &Vec<u8>) -> (r: Option<Vec<u8>>)
        ensures
            opt_bytes_view(r) == ov_lookup(self.ov(), name@),
    {
        match ov_get(&self.altered_files, name) {
            Some(c) => Some(clone_bytes(c)),
            None => None,
        }
    }

    /// Encoding pass: for every `html`/`xhtml` entry, store the trimmed
    /// content, prefixed by the canonical XML declaration when the entry
    /// does not already begin with one; log one diagnostic per prepend.
    pub fn fix_encoding(&mut self)
        requires
            old(self).files is Some,
        ensures
            final(self).files == old(self).files,
            final(self).binary_files == old(self).binary_files,
            final(self).ov() == old(self).ov() + enc_ov(files_of(*old(self))),
            final(self).log() == old(self).log() + enc_log(files_of(*old(self))),
    {
        let ghost fs = files_of(*old(self));
        let files_len = match &self.files {
            Some(v) => v.len(),
            None => 0,
        };
        proof {
            lemma_fd_view(self.files->Some_0@);
            assert(fs.take(0) =~= Seq::<(Seq<u8>, Seq<u8>)>::empty());
            assert(self.ov() + enc_ov(fs.take(0)) =~= self.ov());
            assert(self.log() + enc_log(fs.take(0)) =~= self.log());
        }
        let mut i: usize = 0;
        while i < files_len
            invariant
                i <= files_len,
                self.files == old(self).files,
                self.binary_files == old(self).binary_files,
                self.files is Some,
                files_len == self.files->Some_0@.len(),
                fs == files_of(*self),
                fs.len() == files_len,
                forall|k: int|
                    0 <= k < fs.len() ==> #[trigger] fs[k] == (
                        self.files->Some_0@[k].file_name@,
                        self.files->Some_0@[k].file_data@,
                    ),
                self.ov() == old(self).ov() + enc_ov(fs.take(i as int)),
                self.log() == old(self).log() + enc_log(fs.take(i as int)),
            decreases files_len - i,
        {
            let (name, data) = {
                let files = match &self.files {
                    Some(v) => v,
                    None => {
                        proof {
                            assert(false);
                        }
                        return;
                    },
                };
                (clone_bytes(&files[i].file_name), clone_bytes(&files[i].file_data))
            };
            let ghost pre_ov = self.ov();
            let ghost pre_log = self.log();
            let ghost pre_av = self.altered_files@;
            let ghost pre_fp = self.fixed_problems@;
            if is_page_file(&name) {
                let trimmed = trim_start_bytes(&data);
                if has_xml_decl_exec(&trimmed) {
                    proof {
                        assert(trimmed@ == enc_target(data@));
                    }
                    self.altered_files.push((name, trimmed));
                } else {
                    let msg = build_msg_enc(&name);
                    let mut content = canonical_decl();
                    content.push(10);
                    content.extend_from_slice(trimmed.as_slice());
                    proof {
                        assert(content@ =~= decl_spec() + seq![10u8] + trimmed@);
                        assert(content@ == enc_target(data@));
                    }
                    self.altered_files.push((name, content));
                    self.fixed_problems.push(msg);
                }
            }
            proof {
                let t1 = fs.take(i + 1);
                assert(t1.drop_last() =~= fs.take(i as int));
                assert(t1.last() == fs[i as int]);
                assert(fs[i as int].0 == name@);
                assert(fs[i as int].1 == data@);
                if is_page(name@) {
                    let entry = (name@, enc_target(data@));
                    assert(self.altered_files@.drop_last() =~= pre_av);
                    assert(self.ov() == pre_ov.push(entry));
                    assert(enc_ov(t1) =~= enc_ov(fs.take(i as int)) + seq![entry]);
                    assert(self.ov() =~= old(self).ov() + enc_ov(t1));
                    if enc_changed(data@) {
                        assert(self.fixed_problems@.drop_last() =~= pre_fp);
                        assert(self.log() == pre_log.push(msg_enc(name@)));
                        assert(enc_log(t1) =~= enc_log(fs.take(i as int)) + seq![
                            msg_enc(name@)
                        ]);
                        assert(self.log() =~= old(self).log() + enc_log(t1));
                    } else {
                        assert(enc_log(t1) =~= enc_log(fs.take(i as int)));
                        assert(self.log() =~= old(self).log() + enc_log(t1));
                    }
                } else {
                    assert(enc_ov(t1) =~= enc_ov(fs.take(i as int)));
                    assert(enc_log(t1) =~= enc_log(fs.take(i as int)));
                }
            }
            i += 1;
        }
        proof {
            assert(fs.take(files_len as int) =~= fs);
        }
    }

    /// Link pass: collect a token for every page whose first `body`
    /// element carries an `id`, then, over the original entries, replace
    /// each contained token by its target path, accumulating
    /// substitutions per entry; log one diagnostic per replacement.
    pub fn fix_body_id_link(&mut self)
        requires
            old(self).files is Some,
        ensures
            final(self).files == old(self).files,
            final(self).binary_files == old(self).binary_files,
            final(self).ov() == old(self).ov() + link_ov(
                files_of(*old(self)),
                collect_tokens(files_of(*old(self))),
            ),
            final(self).log() == old(self).log() + link_log(
                files_of(*old(self)),
                collect_tokens(files_of(*old(self))),
            ),
    {
        let ghost fs = files_of(*old(self));
        let files_len = match &self.files {
            Some(v) => v.len(),
            None => 0,
        };
        proof {
            lemma_fd_view(self.files->Some_0@);
            assert(fs.take(0) =~= Seq::<(Seq<u8>, Seq<u8>)>::empty());
        }
        let mut tokens: Vec<(Vec<u8>, Vec<u8>)> = Vec::new();
        let mut i: usize = 0;
        while i < files_len
            invariant
                i <= files_len,
                self.files == old(self).files,
                self.binary_files == old(self).binary_files,
                self.altered_files == old(self).altered_files,
                self.fixed_problems == old(self).fixed_problems,
                self.files is Some,
                files_len == self.files->Some_0@.len(),
                fs.len() == files_len,
                forall|k: int|
                    0 <= k < fs.len() ==> #[trigger] fs[k] == (
                        self.files->Some_0@[k].file_name@,
                        self.files->Some_0@[k].file_data@,
                    ),
                ov_view(tokens@) == collect_tokens(fs.take(i as int)),
            decreases files_len - i,
        {
            let (name, data) = {
                let files = match &self.files {
                    Some(v) => v,
                    None => {
                        proof {
                            assert(false);
                        }
                        return;
                    },
                };
                (clone_bytes(&files[i].file_name), clone_bytes(&files[i].file_data))
            };
            let ghost pre_tokens = tokens@;
            if is_page_file(&name) {
                let trimmed = trim_start_bytes(&data);
                let id_opt = html_first_attr(
                    &trimmed,
                    &"body".as_bytes_vec(),
                    &"id".as_bytes_vec(),
                );
                if let Some(id) = id_opt {
                    let token = build_link_token(&name, &id);
                    tokens.push((token, name));
                }
            }
            proof {
                let t1 = fs.take(i + 1);
                assert(t1.drop_last() =~= fs.take(i as int));
                assert(t1.last() == fs[i as int]);
                assert(fs[i as int].0 == name@);
                assert(fs[i as int].1 == data@);
                if tokens@ != pre_tokens {
                    assert(tokens@.drop_last() =~= pre_tokens);
                    assert(collect_tokens(t1) =~= collect_tokens(fs.take(i as int)).push(
                        (tokens@.last().0@, tokens@.last().1@),
                    ));
                } else {
                    assert(collect_tokens(t1) =~= collect_tokens(fs.take(i as int)));
                }
            }
            i += 1;
        }
        proof {
            assert(fs.take(files_len as int) =~= fs);
        }
        let ghost tv = collect_tokens(fs);
        proof {
            lemma_ov_view(tokens@);
            assert(self.ov() + link_ov(fs.take(0), tv) =~= self.ov());
            assert(self.log() + link_log(fs.take(0), tv) =~= self.log());
        }
        let tokens_len = tokens.len();
        let mut i: usize = 0;
        while i < files_len
            invariant
                i <= files_len,
                self.files == old(self).files,
                self.binary_files == old(self).binary_files,
                self.files is Some,
                files_len == self.files->Some_0@.len(),
                fs.len() == files_len,
                forall|k: int|
                    0 <= k < fs.len() ==> #[trigger] fs[k] == (
                        self.files->Some_0@[k].file_name@,
                        self.files->Some_0@[k].file_data@,
                    ),
                tv == ov_view(tokens@),
                tokens_len == tokens@.len(),
                tv.len() == tokens_len,
                forall|k: int|
                    0 <= k < tv.len() ==> #[trigger] tv[k] == (
                        tokens@[k].0@,
                        tokens@[k].1@,
                    ),
                self.ov() == old(self).ov() + link_ov(fs.take(i as int), tv),
                self.log() == old(self).log() + link_log(fs.take(i as int), tv),
            decreases files_len - i,
        {
            let (name, orig) = {
                let files = match &self.files {
                    Some(v) => v,
                    None => {
                        proof {
                            assert(false);
                        }
                        return;
                    },
                };
                (clone_bytes(&files[i].file_name), clone_bytes(&files[i].file_data))
            };
            let ghost fentry = fs[i as int];
            let ghost ov_mid = self.ov();
            let ghost log_mid = self.log();
            let mut cur = clone_bytes(&orig);
            proof {
                assert(tv.take(0) =~= Seq::<(Seq<u8>, Seq<u8>)>::empty());
                assert(ov_mid + link_ov_file(fentry, tv.take(0)) =~= ov_mid);
                assert(log_mid + link_log_file(fentry, tv.take(0)) =~= log_mid);
            }
            let mut k: usize = 0;
            while k < tokens_len
                invariant
                    k <= tokens_len,
                    self.files == old(self).files,
                    self.binary_files == old(self).binary_files,
                    tokens_len == tokens@.len(),
                    tv.len() == tokens_len,
                    forall|m: int|
                        0 <= m < tv.len() ==> #[trigger] tv[m] == (
                            tokens@[m].0@,
                            tokens@[m].1@,
                        ),
                    fentry == (name@, orig@),
                    cur@ == apply_tokens(orig@, tv.take(k as int)),
                    self.ov() == ov_mid + link_ov_file(fentry, tv.take(k as int)),
                    self.log() == log_mid + link_log_file(fentry, tv.take(k as int)),
                decreases tokens_len - k,
            {
                let ghost pre_av = self.altered_files@;
                let ghost pre_fp = self.fixed_problems@;
                let ghost pre_ov = self.ov();
                let ghost pre_log = self.log();
                let ghost pre_cur = cur@;
                let matched = contains_sub(&orig, &tokens[k].0);
                if matched {
                    let replaced = replace_all(&cur, &tokens[k].0, &tokens[k].1);
                    cur = replaced;
                    let msg = build_msg_link(&tokens[k].0, &tokens[k].1, &name);
                    self.altered_files.push((clone_bytes(&name), clone_bytes(&cur)));
                    self.fixed_problems.push(msg);
                }
                proof {
                    let t1 = tv.take(k + 1);
                    assert(t1.drop_last() =~= tv.take(k as int));
                    assert(t1.last() == tv[k as int]);
                    assert(tv[k as int].0 == tokens@[k as int].0@);
                    assert(tv[k as int].1 == tokens@[k as int].1@);
                    if matched {
                        assert(apply_tokens(orig@, t1) == replace_spec(
                            pre_cur,
                            tv[k as int].0,
                            tv[k as int].1,
                        ));
                        assert(cur@ == apply_tokens(orig@, t1));
                        assert(self.altered_files@.drop_last() =~= pre_av);
                        assert(self.fixed_problems@.drop_last() =~= pre_fp);
                        assert(self.ov() == pre_ov.push((name@, cur@)));
                        assert(self.log() == pre_log.push(
                            msg_link(tv[k as int].0, tv[k as int].1, name@),
                        ));
                        assert(link_ov_file(fentry, t1) =~= link_ov_file(
                            fentry,
                            tv.take(k as int),
                        ) + seq![(name@, apply_tokens(orig@, t1))]);
                        assert(link_log_file(fentry, t1) =~= link_log_file(
                            fentry,
                            tv.take(k as int),
                        ) + seq![msg_link(tv[k as int].0, tv[k as int].1, name@)]);
                        assert(self.ov() =~= ov_mid + link_ov_file(fentry, t1));
                        assert(self.log() =~= log_mid + link_log_file(fentry, t1));
                    } else {
                        assert(link_ov_file(fentry, t1) =~= link_ov_file(
                            fentry,
                            tv.take(k as int),
                        ));
                        assert(link_log_file(fentry, t1) =~= link_log_file(
                            fentry,
                            tv.take(k as int),
                        ));
                    }
                }
                k += 1;
            }
            proof {
                assert(tv.take(tokens_len as int) =~= tv);
                let t1 = fs.take(i + 1);
                assert(t1.drop_last() =~= fs.take(i as int));
                assert(t1.last() == fs[i as int]);
                assert(link_ov(t1, tv) == link_ov(fs.take(i as int), tv) + link_ov_file(
                    fentry,
                    tv,
                ));
                assert(link_log(t1, tv) == link_log(fs.take(i as int), tv) + link_log_file(
                    fentry,
                    tv,
                ));
                assert(self.ov() =~= old(self).ov() + link_ov(t1, tv));
                assert(self.log() =~= old(self).log() + link_log(t1, tv));
            }
            i += 1;
        }
        proof {
            assert(fs.take(files_len as int) =~= fs);
        }
    }

    /// Language pass: locate the OPF document through the container
    /// pointer, then replace an unsupported `dc:language` code by the
    /// preferred one, or add the element when it is missing; abort when a
    /// required entry or element is absent.
    #[verifier::rlimit(50)]
    pub fn fix_book_language(&mut self) -> (r: Result<(), EpubError>)
        requires
            old(self).files is Some,
        ensures
            final(self).files == old(self).files,
            final(self).binary_files == old(self).binary_files,
            ({
                let ev = lang_eval(files_of(*old(self)));
                &&& r == (match ev.0 {
                    Some(e) => Err::<(), EpubError>(e),
                    None => Ok::<(), EpubError>(()),
                })
                &&& final(self).ov() == old(self).ov() + ev.1
                &&& final(self).log() == old(self).log() + ev.2
            }),
    {
        let ghost fs = files_of(*old(self));
        let ghost ev = lang_eval(fs);
        proof {
            assert(self.ov() + Seq::<(Seq<u8>, Seq<u8>)>::empty() =~= self.ov());
            assert(self.log() + Seq::<Seq<u8>>::empty() =~= self.log());
        }
        let container_name = "META-INF/container.xml".as_bytes_vec();
        let cdata = {
            let files = match &self.files {
                Some(v) => v,
                None => {
                    proof {
                        assert(false);
                    }
                    return Err(EpubError::MissingContainer);
                },
            };
            proof {
                lemma_fd_view(files@);
                lemma_find_file(files@, container_name@);
                lemma_find_entry(fs, container_path());
            }
            match get_file_from_files(files, &container_name) {
                Some(f) => {
                    proof {
                        let i = find_file(files@, container_name@)->Some_0;
                        assert(fs == fd_view(files@));
                        assert(fs[i] == (files@[i].file_name@, files@[i].file_data@));
                        assert(fs[i].0 == container_path());
                        assert forall|j: int| 0 <= j < i implies fs[j].0 != container_path()
                        by {
                            assert(fs[j] == (files@[j].file_name@, files@[j].file_data@));
                        }
                        match find_entry(fs, container_path()) {
                            Some(i2) => {
                                assert(i2 <= i);
                                assert(i <= i2);
                            },
                            None => {
                                assert(fs[i].0 == container_path());
                            },
                        }
                        assert(find_entry(fs, container_path()) == Some(i));
                        assert(fs[i].1 == f.file_data@);
                    }
                    clone_bytes(&f.file_data)
                },
                None => {
                    proof {
                        assert(fs == fd_view(files@));
                        match find_entry(fs, container_path()) {
                            Some(i2) => {
                                assert(fs[i2] == (
                                    files@[i2].file_name@,
                                    files@[i2].file_data@,
                                ));
                            },
                            None => {},
                        }
                        assert(find_entry(fs, container_path()) is None);
                    }
                    return Err(EpubError::MissingContainer);
                },
            }
        };
        proof {
            assert(find_entry(fs, container_path()) matches Some(ci) && fs[ci].1 == cdata@);
        }
        let ghost ci = find_entry(fs, container_path())->Some_0;
        let pairs = html_attr_pairs(
            &cdata,
            &"rootfile".as_bytes_vec(),
            &"media-type".as_bytes_vec(),
            &"full-path".as_bytes_vec(),
        );
        let opf_path = match first_oebps_exec(&pairs) {
            Some(p) => p,
            None => {
                proof {
                    assert(opf_path_of(fs[ci].1) is None);
                }
                return Err(EpubError::MissingRootfile);
            },
        };
        proof {
            assert(opf_path_of(fs[ci].1) == Some(opf_path@));
        }
        let (opf_name, opf_data) = {
            let files = match &self.files {
                Some(v) => v,
                None => {
                    proof {
                        assert(false);
                    }
                    return Err(EpubError::MissingOpf);
                },
            };
            proof {
                lemma_fd_view(files@);
                lemma_find_file(files@, opf_path@);
                lemma_find_entry(fs, opf_path@);
            }
            match get_file_from_files(files, &opf_path) {
                Some(f) => {
                    proof {
                        let i = find_file(files@, opf_path@)->Some_0;
                        assert(fs == fd_view(files@));
                        assert(fs[i] == (files@[i].file_name@, files@[i].file_data@));
                        assert(fs[i].0 == opf_path@);
                        assert forall|j: int| 0 <= j < i implies fs[j].0 != opf_path@ by {
                            assert(fs[j] == (files@[j].file_name@, files@[j].file_data@));
                        }
                        match find_entry(fs, opf_path@) {
                            Some(i2) => {
                                assert(i2 <= i);
                                assert(i <= i2);
                            },
                            None => {
                                assert(fs[i].0 == opf_path@);
                            },
                        }
                        assert(find_entry(fs, opf_path@) == Some(i));
                    }
                    (clone_bytes(&f.file_name), clone_bytes(&f.file_data))
                },
                None => {
                    proof {
                        assert(fs == fd_view(files@));
                        match find_entry(fs, opf_path@) {
                            Some(i2) => {
                                assert(fs[i2] == (
                                    files@[i2].file_name@,
                                    files@[i2].file_data@,
                                ));
                            },
                            None => {},
                        }
                        assert(find_entry(fs, opf_path@) is None);
                    }
                    return Err(EpubError::MissingOpf);
                },
            }
        };
        proof {
            assert(find_entry(fs, opf_path@) matches Some(oi) && fs[oi].0 == opf_name@
                && fs[oi].1 == opf_data@);
        }
        let masked = replace_all(
            &opf_data,
            &"dc:language".as_bytes_vec(),
            &"dclanguage".as_bytes_vec(),
        );
        let meta = match html_first_inner(&masked, &"metadata".as_bytes_vec()) {
            Some(m) => m,
            None => {
                return Err(EpubError::MissingMetadata);
            },
        };
        let lang = html_first_inner(&masked, &"dclanguage".as_bytes_vec());
        let ghost pre_av = self.altered_files@;
        let ghost pre_fp = self.fixed_problems@;
        match lang {
            Some(l) => {
                if crate::bytes_ops::bytes_eq(&l, &"en".as_bytes_vec()) {
                    proof {
                        assert(ev.0 is None && ev.1 =~= Seq::<(Seq<u8>, Seq<u8>)>::empty()
                            && ev.2 =~= Seq::<Seq<u8>>::empty());
                    }
                    Ok(())
                } else {
                    let old_tag = build_lang_wrap(&l);
                    let new_tag = build_lang_wrap(&"en".as_bytes_vec());
                    let fixed = replace_all(&opf_data, &old_tag, &new_tag);
                    let msg = build_msg_lang(&l);
                    self.altered_files.push((opf_name, fixed));
                    self.fixed_problems.push(msg);
                    proof {
                        assert(self.altered_files@.drop_last() =~= pre_av);
                        assert(self.fixed_problems@.drop_last() =~= pre_fp);
                        assert(self.ov() =~= old(self).ov() + ev.1);
                        assert(self.log() =~= old(self).log() + ev.2);
                    }
                    Ok(())
                }
            },
            None => {
                let mut fixed_inner = clone_bytes(&meta);
                fixed_inner.push(10);
                fixed_inner.extend_from_slice(
                    build_lang_wrap(&"en".as_bytes_vec()).as_slice(),
                );
                proof {
                    assert(fixed_inner@ =~= meta@ + seq![10u8] + lang_wrap(preferred_lang()));
                }
                let fixed = replace_all(&opf_data, &meta, &fixed_inner);
                self.altered_files.push((opf_name, fixed));
                self.fixed_problems.push("Added missing language tag".as_bytes_vec());
                proof {
                    assert(self.altered_files@.drop_last() =~= pre_av);
                    assert(self.fixed_problems@.drop_last() =~= pre_fp);
                    assert(self.ov() =~= old(self).ov() + ev.1);
                    assert(self.log() =~= old(self).log() + ev.2);
                }
                Ok(())
            },
        }
    }

    /// Reader: open the archive bytes, classify each entry by its name
    /// suffix, decode textual entries (an invalid UTF-8 entry degrades to
    /// empty content), skip directory entries, and store both collections
    /// in archive order.
    pub fn read_epub(&mut self, input: &Vec<u8>) -> (r: Result<(), EpubError>)
        ensures
            final(self).altered_files == old(self).altered_files,
            final(self).fixed_problems == old(self).fixed_problems,
            r == (if !zip_readable(input@) {
                Err::<(), EpubError>(EpubError::BadArchive)
            } else if !all_entries_readable(input@) {
                Err::<(), EpubError>(EpubError::BadEntry)
            } else {
                Ok::<(), EpubError>(())
            }),
            r matches Ok(_) ==> {
                &&& final(self).files is Some
                &&& final(self).binary_files is Some
                &&& files_of(*final(self)) == classify_text(zip_entries_of(input@))
                &&& bins_of(*final(self)) == classify_bin(zip_entries_of(input@))
            },
            r is Err ==> final(self).files == old(self).files && final(self).binary_files
                == old(self).binary_files,
    {
        let mut archive = match zip_open(clone_bytes(input)) {
            Ok(a) => a,
            Err(e) => {
                return Err(e);
            },
        };
        let ghost es = zip_entries_of(input@);
        let ghost bytes = input@;
        let n = zip_len(&archive);
        let mut files: Vec<FileData> = Vec::new();
        let mut bins: Vec<BinaryFileData> = Vec::new();
        proof {
            assert(es.take(0) =~= Seq::<(Seq<u8>, Seq<u8>)>::empty());
        }
        let mut i: usize = 0;
        while i < n
            invariant
                i <= n,
                n as int == es.len(),
                zip_contents(archive) == es,
                es == zip_entries_of(bytes),
                bytes == input@,
                zip_readable(bytes),
                forall|j: int| #[trigger] zip_entry_ok(archive, j) == entry_readable(bytes, j),
                forall|j: int| 0 <= j < i ==> entry_readable(bytes, j),
                fd_view(files@) == classify_text(es.take(i as int)),
                bfd_view(bins@) == classify_bin(es.take(i as int)),
                self == old(self),
            decreases n - i,
        {
            let entry = match zip_entry(&mut archive, i) {
                Ok(e) => e,
                Err(e) => {
                    proof {
                        assert(!entry_readable(bytes, i as int));
                        assert(!all_entries_readable(bytes));
                    }
                    return Err(e);
                },
            };
            let RawEntry { name, data } = entry;
            let ghost pre_f = files@;
            let ghost pre_b = bins@;
            if is_text_entry(&name) {
                let text = if utf8_check(&data) {
                    data
                } else {
                    Vec::new()
                };
                proof {
                    assert(text@ == text_data_of(es[i as int].1));
                }
                files.push(FileData { file_name: name, file_data: text });
            } else if !is_dir_entry(&name) {
                bins.push(BinaryFileData { file_name: name, file_data: data });
            }
            proof {
                let t1 = es.take(i + 1);
                assert(t1.drop_last() =~= es.take(i as int));
                assert(t1.last() == es[i as int]);
                if is_text_name(es[i as int].0) {
                    assert(files@.drop_last() =~= pre_f);
                    assert(classify_text(t1) =~= classify_text(es.take(i as int)) + seq![
                        (es[i as int].0, text_data_of(es[i as int].1))
                    ]);
                    assert(fd_view(files@) =~= classify_text(t1));
                    assert(classify_bin(t1) =~= classify_bin(es.take(i as int)));
                } else if !is_dir_name(es[i as int].0) {
                    assert(bins@.drop_last() =~= pre_b);
                    assert(classify_bin(t1) =~= classify_bin(es.take(i as int)) + seq![
                        es[i as int]
                    ]);
                    assert(bfd_view(bins@) =~= classify_bin(t1));
                    assert(classify_text(t1) =~= classify_text(es.take(i as int)));
                } else {
                    assert(classify_text(t1) =~= classify_text(es.take(i as int)));
                    assert(classify_bin(t1) =~= classify_bin(es.take(i as int)));
                }
            }
            i += 1;
        }
        proof {
            assert(es.take(n as int) =~= es);
            assert(all_entries_readable(bytes));
        }
        self.files = Some(files);
        self.binary_files = Some(bins);
        Ok(())
    }

    /// Writer model: the output entries, in the order the writer emits
    /// them — every textual entry first, its content taken from the
    /// overlay when present, then every binary entry verbatim.
    pub fn compose_output_entries(&self) -> (r: Vec<RawEntry>)
        requires
            self.files is Some,
            self.binary_files is Some,
        ensures
            ({
                let fs = files_of(*self);
                let bs = bins_of(*self);
                &&& r@.len() == fs.len() + bs.len()
                &&& forall|i: int|
                    0 <= i < fs.len() ==> (#[trigger] r@[i]).name@ == fs[i].0 && r@[i].data@
                        == (match ov_lookup(self.ov(), fs[i].0) {
                        Some(d) => d,
                        None => fs[i].1,
                    })
                &&& forall|j: int|
                    0 <= j < bs.len() ==> (#[trigger] r@[fs.len() + j]).name@ == bs[j].0
                        && r@[fs.len() + j].data@ == bs[j].1
            }),
    {
        let ghost fs = files_of(*self);
        let ghost bs = bins_of(*self);
        let files_len = match &self.files {
            Some(v) => {
                proof {
                    lemma_fd_view(v@);
                }
                v.len()
            },
            None => 0,
        };
        let bins_len = match &self.binary_files {
            Some(v) => {
                proof {
                    lemma_bfd_view(v@);
                }
                v.len()
            },
            None => 0,
        };
        let mut out: Vec<RawEntry> = Vec::new();
        let mut i: usize = 0;
        while i < files_len
            invariant
                i <= files_len,
                out@.len() == i,
                self.files is Some,
                self.binary_files is Some,
                files_len == self.files->Some_0@.len(),
                fs == files_of(*self),
                fs.len() == files_len,
                forall|k: int|
                    0 <= k < fs.len() ==> #[trigger] fs[k] == (
                        self.files->Some_0@[k].file_name@,
                        self.files->Some_0@[k].file_data@,
                    ),
                forall|k: int|
                    0 <= k < i ==> (#[trigger] out@[k]).name@ == fs[k].0 && out@[k].data@
                        == (match ov_lookup(self.ov(), fs[k].0) {
                        Some(d) => d,
                        None => fs[k].1,
                    }),
            decreases files_len - i,
        {
            let (name, data) = {
                let files = match &self.files {
                    Some(v) => v,
                    None => {
                        proof {
                            assert(false);
                        }
                        return out;
                    },
                };
                (clone_bytes(&files[i].file_name), clone_bytes(&files[i].file_data))
            };
            let content = match ov_get(&self.altered_files, &name) {
                Some(c) => clone_bytes(c),
                None => data,
            };
            out.push(RawEntry { name, data: content });
            i += 1;
        }
        let mut j: usize = 0;
        while j < bins_len
            invariant
                j <= bins_len,
                out@.len() == files_len + j,
                self.files is Some,
                self.binary_files is Some,
                files_len == self.files->Some_0@.len(),
                bins_len == self.binary_files->Some_0@.len(),
                fs == files_of(*self),
                bs == bins_of(*self),
                fs.len() == files_len,
                bs.len() == bins_len,
                forall|k: int|
                    0 <= k < bs.len() ==> #[trigger] bs[k] == (
                        self.binary_files->Some_0@[k].file_name@,
                        self.binary_files->Some_0@[k].file_data@,
                    ),
                forall|k: int|
                    0 <= k < fs.len() ==> (#[trigger] out@[k]).name@ == fs[k].0 && out@[k].data@
                        == (match ov_lookup(self.ov(), fs[k].0) {
                        Some(d) => d,
                        None => fs[k].1,
                    }),
                forall|k: int|
                    0 <= k < j ==> (#[trigger] out@[fs.len() + k]).name@ == bs[k].0
                        && out@[fs.len() + k].data@ == bs[k].1,
            decreases bins_len - j,
        {
            let (name, data) = {
                let binaries = match &self.binary_files {
                    Some(v) => v,
                    None => {
                        proof {
                            assert(false);
                        }
                        return out;
                    },
                };
                (clone_bytes(&binaries[j].file_name), clone_bytes(&binaries[j].file_data))
            };
            out.push(RawEntry { name, data });
            j += 1;
        }
        out
    }

    /// Re-serialize the store into archive bytes: on success the returned
    /// bytes read back as exactly the store's output entries — every
    /// textual entry with overlay content substituted, then every binary
    /// entry verbatim, in captured order. The raw bytes also carry the
    /// encoder's timestamp, so only their entries are stated.
    pub fn write_epub(&self) -> (r: Result<Vec<u8>, EpubError>)
        requires
            self.files is Some,
            self.binary_files is Some,
        ensures
            r matches Ok(b) ==> zip_entries_of(b@) == store_out_entries(*self),
    {
        let entries = self.compose_output_entries();
        let ghost target = re_view(entries@);
        proof {
            lemma_re_view(entries@);
            let fs = files_of(*self);
            let bs = bins_of(*self);
            assert forall|k: int| 0 <= k < target.len() implies target[k] == store_out_entries(
                *self,
            )[k] by {
                if k < fs.len() {
                    assert(store_out_entries(*self)[k] == (fs[k].0, ov_content(
                        self.ov(),
                        fs[k],
                    )));
                    assert(entries@[k].name@ == fs[k].0);
                    assert(entries@[k].data@ == ov_content(self.ov(), fs[k]));
                    assert(target[k] == (entries@[k].name@, entries@[k].data@));
                } else {
                    let j = k - fs.len();
                    assert(store_out_entries(*self)[k] == bs[j]);
                    assert(entries@[fs.len() + j].name@ == bs[j].0);
                    assert(entries@[fs.len() + j].data@ == bs[j].1);
                    assert(target[k] == (entries@[k].name@, entries@[k].data@));
                }
            }
            assert(target =~= store_out_entries(*self));
        }
        let mut w = zw_new();
        let mut i: usize = 0;
        proof {
            assert(target.take(0) =~= Seq::<(Seq<u8>, Seq<u8>)>::empty());
        }
        while i < entries.len()
            invariant
                i <= entries@.len(),
                target == re_view(entries@),
                target.len() == entries@.len(),
                forall|k: int|
                    0 <= k < entries@.len() ==> #[trigger] target[k] == (
                        entries@[k].name@,
                        entries@[k].data@,
                    ),
                zw_entries(w) == target.take(i as int),
            decreases entries.len() - i,
        {
            let res = zw_add(&mut w, &entries[i].name, &entries[i].data);
            if let Err(e) = res {
                return Err(e);
            }
            proof {
                assert(target.take(i + 1) =~= target.take(i as int).push(target[i as int]));
            }
            i += 1;
        }
        proof {
            assert(target.take(entries@.len() as int) =~= target);
        }
        zw_finish(w)
    }
}

/// The diagnostics of the whole pipeline on the entries of an archive.
pub open spec fn pipeline_log(es: Seq<(Seq<u8>, Seq<u8>)>) -> Seq<Seq<u8>> {
    let fs = classify_text(es);
    enc_log(fs) + link_log(fs, collect_tokens(fs)) + lang_eval(fs).2
}

/// The overlay the three passes leave, in write order.
pub open spec fn pipeline_ov(fs: Seq<(Seq<u8>, Seq<u8>)>) -> Seq<(Seq<u8>, Seq<u8>)> {
    enc_ov(fs) + link_ov(fs, collect_tokens(fs)) + lang_eval(fs).1
}

/// The output entries of the whole pipeline on an archive's entries:
/// every textual entry with the passes' final replacement substituted,
/// then every binary entry verbatim.
pub open spec fn pipeline_entries(es: Seq<(Seq<u8>, Seq<u8>)>) -> Seq<(Seq<u8>, Seq<u8>)> {
    let fs = classify_text(es);
    Seq::new(fs.len(), |i: int| (fs[i].0, ov_content(pipeline_ov(fs), fs[i])))
        + classify_bin(es)
}

/// The full pipeline: read the archive, run the encoding, link and
/// language passes in order, and re-serialize. An unreadable archive or
/// entry, and each structural absence the language pass detects, forces
/// its error; on success the returned archive's entries and the
/// diagnostics are exactly the pipeline's over the input's entries.
pub fn convert_epub(input: &Vec<u8>) -> (r: Result<(Vec<u8>, Vec<Vec<u8>>), EpubError>)
    ensures
        ({
            let es = zip_entries_of(input@);
            let fs = classify_text(es);
            &&& !zip_readable(input@) ==> r == Err::<(Vec<u8>, Vec<Vec<u8>>), EpubError>(
                EpubError::BadArchive,
            )
            &&& zip_readable(input@) && !all_entries_readable(input@) ==> r == Err::<
                (Vec<u8>, Vec<Vec<u8>>),
                EpubError,
            >(EpubError::BadEntry)
            &&& zip_readable(input@) && all_entries_readable(input@) ==> (lang_eval(fs).0
                matches Some(e) ==> r == Err::<(Vec<u8>, Vec<Vec<u8>>), EpubError>(e))
            &&& r matches Ok(out) ==> {
                &&& zip_readable(input@) && all_entries_readable(input@)
                &&& lang_eval(fs).0 is None
                &&& bytes_view(out.1@) == pipeline_log(es)
                &&& zip_entries_of(out.0@) == pipeline_entries(es)
            }
        }),
{
    let mut c = EpubConverter::new();
    if let Err(e) = c.read_epub(input) {
        return Err(e);
    }
    let ghost es = zip_entries_of(input@);
    let ghost fs = classify_text(es);
    c.fix_encoding();
    c.fix_body_id_link();
    if let Err(e) = c.fix_book_language() {
        return Err(e);
    }
    proof {
        assert(c.ov() =~= pipeline_ov(fs));
        assert(files_of(c) == fs);
        assert(bins_of(c) == classify_bin(es));
        assert forall|k: int|
            0 <= k < store_out_entries(c).len() implies store_out_entries(c)[k]
            == pipeline_entries(es)[k] by {
            if k < fs.len() {
                assert(store_out_entries(c)[k] == (fs[k].0, ov_content(c.ov(), fs[k])));
                assert(pipeline_entries(es)[k] == (fs[k].0, ov_content(
                    pipeline_ov(fs),
                    fs[k],
                )));
            } else {
                assert(store_out_entries(c)[k] == bins_of(c)[k - fs.len()]);
                assert(pipeline_entries(es)[k] == classify_bin(es)[k - fs.len()]);
            }
        }
        assert(store_out_entries(c) =~= pipeline_entries(es));
    }
    let bytes = match c.write_epub() {
        Ok(b) => b,
        Err(e) => {
            return Err(e);
        },
    };
    proof {
        assert(c.log() =~= pipeline_log(es));
    }
    Ok((bytes, c.fixed_problems))
}

} // verus!
