//! Laws of the pipeline, proved once and for all: idempotence of the
//! encoding pass, preservation of entry order, binary fidelity, the
//! declaration invariant of encoded pages, and presence of the supported
//! language element after a repair.

use vstd::prelude::*;
use vstd::string::StringSliceAdditionalSpecFns;
use vstd::utf8::encode_utf8;
use vstd::utf8::encode_scalar;

use crate::bytes_ops::is_ws;
use crate::bytes_ops::has_sub;
use crate::bytes_ops::replace_spec;
use crate::bytes_ops::trim_start_spec;
use crate::bytes_ops::lemma_trim_idempotent;
use crate::bytes_ops::lemma_trim_noop;
use crate::bytes_ops::lemma_replace_contains;
use crate::entries::is_page;
use crate::entries::is_text_name;
use crate::entries::is_dir_name;
use crate::xml_decl::has_xml_decl;
use crate::xml_decl::decl_spec;
use crate::xml_decl::lemma_decl_prefix_matches;
use crate::epub_converter::enc_target;
use crate::epub_converter::enc_changed;
use crate::epub_converter::enc_log;
use crate::epub_converter::enc_ov;
use crate::epub_converter::classify_text;
use crate::epub_converter::classify_bin;
use crate::epub_converter::text_data_of;
use crate::epub_converter::pipeline_entries;
use crate::epub_converter::ov_content;
use crate::epub_converter::pipeline_ov;
use crate::epub_converter::lang_wrap;
use crate::epub_converter::preferred_lang;

verus! {

/// The paths of a sequence of entries, in order.
pub open spec fn entry_names(ps: Seq<(Seq<u8>, Seq<u8>)>) -> Seq<Seq<u8>>
    decreases ps.len(),
{
    if ps.len() == 0 {
        Seq::empty()
    } else {
        entry_names(ps.drop_last()).push(ps.last().0)
    }
}

/// Law (idempotence of the encoding pass, per document): encoding an
/// already-encoded document changes nothing and reports no correction.
pub proof fn lemma_enc_target_idempotent(c: Seq<u8>)
    ensures
        enc_target(enc_target(c)) == enc_target(c),
        !enc_changed(enc_target(c)),
{
    let t = trim_start_spec(c);
    lemma_trim_idempotent(c);
    if !has_xml_decl(t) {
        let e = decl_spec() + seq![10u8] + t;
        assert(e =~= decl_spec() + (seq![10u8] + t));
        lemma_decl_prefix_matches(seq![10u8] + t);
        assert(e[0] == 60);
        assert(!is_ws(60u8));
        lemma_trim_noop(e);
    }
}

/// Law (idempotence of the encoding pass, over the overlay): every
/// content the pass writes is a fixed point of the pass.
pub proof fn lemma_enc_ov_idempotent(fs: Seq<(Seq<u8>, Seq<u8>)>)
    ensures
        forall|i: int|
            0 <= i < enc_ov(fs).len() ==> (#[trigger] enc_ov(fs)[i]).1 == enc_target(
                enc_ov(fs)[i].1,
            ),
    decreases fs.len(),
{
    if fs.len() > 0 {
        let t = fs.drop_last();
        lemma_enc_ov_idempotent(t);
        if is_page(fs.last().0) {
            lemma_enc_target_idempotent(fs.last().1);
            assert(enc_ov(fs) =~= enc_ov(t).push((fs.last().0, enc_target(fs.last().1))));
        } else {
            assert(enc_ov(fs) =~= enc_ov(t));
        }
    }
}

/// Law (idempotence of the encoding pass, per archive): a pass over
/// entries whose pages already begin with a declaration logs nothing.
/// With `lemma_enc_target_idempotent` this covers the output of a first
/// pass.
pub proof fn lemma_encoding_second_run_silent(fs: Seq<(Seq<u8>, Seq<u8>)>)
    requires
        forall|i: int|
            0 <= i < fs.len() ==> is_page((#[trigger] fs[i]).0) ==> !enc_changed(fs[i].1),
    ensures
        enc_log(fs) == Seq::<Seq<u8>>::empty(),
    decreases fs.len(),
{
    if fs.len() > 0 {
        let t = fs.drop_last();
        assert(forall|i: int| 0 <= i < t.len() ==> t[i] == #[trigger] fs[i]);
        lemma_encoding_second_run_silent(t);
        assert(fs.last() == fs[fs.len() - 1]);
        assert(enc_log(fs) =~= Seq::<Seq<u8>>::empty());
    }
}

/// Law (encoding invariant): every content the encoding pass stores
/// begins with a well-formed XML declaration, and where the pass made a
/// change, with the canonical `utf-8` declaration itself.
pub proof fn lemma_enc_target_declared(c: Seq<u8>)
    ensures
        has_xml_decl(enc_target(c)),
        enc_changed(c) ==> enc_target(c).len() >= 38 && enc_target(c).subrange(0, 38)
            == decl_spec(),
{
    let t = trim_start_spec(c);
    if !has_xml_decl(t) {
        let e = decl_spec() + seq![10u8] + t;
        assert(e =~= decl_spec() + (seq![10u8] + t));
        lemma_decl_prefix_matches(seq![10u8] + t);
        assert(e.subrange(0, 38) =~= decl_spec());
    }
}

proof fn lemma_entry_names_index(ps: Seq<(Seq<u8>, Seq<u8>)>)
    ensures
        entry_names(ps).len() == ps.len(),
        forall|i: int| 0 <= i < ps.len() ==> #[trigger] entry_names(ps)[i] == ps[i].0,
    decreases ps.len(),
{
    if ps.len() > 0 {
        lemma_entry_names_index(ps.drop_last());
        assert(forall|i: int|
            0 <= i < ps.len() - 1 ==> ps.drop_last()[i] == #[trigger] ps[i]);
    }
}

proof fn lemma_entry_names_push(ps: Seq<(Seq<u8>, Seq<u8>)>, e: (Seq<u8>, Seq<u8>))
    ensures
        entry_names(ps.push(e)) == entry_names(ps).push(e.0),
{
    assert(ps.push(e).drop_last() =~= ps);
    assert(ps.push(e).last() == e);
}

proof fn lemma_all_text(es: Seq<(Seq<u8>, Seq<u8>)>)
    requires
        forall|i: int| 0 <= i < es.len() ==> is_text_name((#[trigger] es[i]).0),
    ensures
        entry_names(classify_text(es)) == entry_names(es),
        classify_bin(es) == Seq::<(Seq<u8>, Seq<u8>)>::empty(),
    decreases es.len(),
{
    if es.len() > 0 {
        let t = es.drop_last();
        assert(forall|i: int| 0 <= i < t.len() ==> t[i] == #[trigger] es[i]);
        lemma_all_text(t);
        assert(es.last() == es[es.len() - 1]);
        assert(classify_text(es) =~= classify_text(t).push(
            (es.last().0, text_data_of(es.last().1)),
        ));
        lemma_entry_names_push(classify_text(t), (es.last().0, text_data_of(es.last().1)));
        assert(entry_names(classify_text(es)) =~= entry_names(classify_text(t)).push(
            es.last().0,
        ));
        assert(entry_names(es) =~= entry_names(t).push(es.last().0));
        assert(classify_bin(es) =~= Seq::<(Seq<u8>, Seq<u8>)>::empty());
    } else {
        assert(entry_names(classify_text(es)) =~= entry_names(es));
        assert(classify_bin(es) =~= Seq::<(Seq<u8>, Seq<u8>)>::empty());
    }
}

/// Law (entry-order preservation): when an archive holds no directory
/// entries and every textual entry precedes every binary one — the order
/// in which the writer can re-emit them at all — the output path sequence
/// (textual entries, then binary entries) equals the input path sequence
/// exactly. An archive that interleaves a binary entry before a textual
/// one is re-emitted with its textual entries first instead.
pub proof fn lemma_entry_order_preserved(es: Seq<(Seq<u8>, Seq<u8>)>)
    requires
        forall|i: int| 0 <= i < es.len() ==> !is_dir_name((#[trigger] es[i]).0),
        forall|i: int, j: int|
            0 <= i < j < es.len() && is_text_name((#[trigger] es[j]).0) ==> is_text_name(
                (#[trigger] es[i]).0,
            ),
    ensures
        entry_names(classify_text(es)) + entry_names(classify_bin(es)) == entry_names(es),
    decreases es.len(),
{
    if es.len() == 0 {
        assert(entry_names(classify_text(es)) + entry_names(classify_bin(es))
            =~= entry_names(es));
    } else {
        let e = es.last();
        let t = es.drop_last();
        assert(e == es[es.len() - 1]);
        assert(forall|i: int| 0 <= i < t.len() ==> t[i] == #[trigger] es[i]);
        if is_text_name(e.0) {
            assert forall|i: int| 0 <= i < es.len() implies is_text_name(
                (#[trigger] es[i]).0,
            ) by {
                if i < es.len() - 1 {
                    assert(is_text_name(es[es.len() - 1].0));
                }
            }
            lemma_all_text(es);
            assert(entry_names(classify_bin(es)) =~= Seq::<Seq<u8>>::empty());
            assert(entry_names(classify_text(es)) + entry_names(classify_bin(es))
                =~= entry_names(es));
        } else {
            lemma_entry_order_preserved(t);
            assert(classify_text(es) =~= classify_text(t));
            assert(classify_bin(es) =~= classify_bin(t).push(e));
            lemma_entry_names_push(classify_bin(t), e);
            assert(entry_names(classify_bin(es)) =~= entry_names(classify_bin(t)).push(e.0));
            assert(entry_names(es) =~= entry_names(t).push(e.0));
            assert(entry_names(classify_text(es)) + entry_names(classify_bin(es))
                =~= (entry_names(classify_text(t)) + entry_names(classify_bin(t))).push(
                e.0,
            ));
        }
    }
}

/// Law (entry-order preservation, at the output archive): under the same
/// hypotheses, the paths of the pipeline's output entries equal the input
/// path sequence exactly.
pub proof fn lemma_pipeline_order(es: Seq<(Seq<u8>, Seq<u8>)>)
    requires
        forall|i: int| 0 <= i < es.len() ==> !is_dir_name((#[trigger] es[i]).0),
        forall|i: int, j: int|
            0 <= i < j < es.len() && is_text_name((#[trigger] es[j]).0) ==> is_text_name(
                (#[trigger] es[i]).0,
            ),
    ensures
        entry_names(pipeline_entries(es)) == entry_names(es),
{
    lemma_entry_order_preserved(es);
    let fs = classify_text(es);
    let bs = classify_bin(es);
    let pe = pipeline_entries(es);
    lemma_entry_names_index(fs);
    lemma_entry_names_index(bs);
    lemma_entry_names_index(pe);
    assert forall|k: int| 0 <= k < entry_names(pe).len() implies entry_names(pe)[k]
        == (entry_names(fs) + entry_names(bs))[k] by {
        if k < fs.len() {
            assert(pe[k] == (fs[k].0, ov_content(pipeline_ov(fs), fs[k])));
        } else {
            assert(pe[k] == bs[k - fs.len()]);
        }
    }
    assert(entry_names(pe) =~= entry_names(fs) + entry_names(bs));
}

/// Law (binary fidelity, at the output archive): the pipeline's output
/// entries end with exactly the input's binary entries, verbatim.
pub proof fn lemma_pipeline_binary(es: Seq<(Seq<u8>, Seq<u8>)>)
    ensures
        pipeline_entries(es).skip(classify_text(es).len() as int) == classify_bin(es),
{
    assert(pipeline_entries(es).skip(classify_text(es).len() as int) =~= classify_bin(es));
}

/// Law (binary fidelity): every binary entry the writer emits is an input
/// entry, path and bytes unchanged.
pub proof fn lemma_binary_fidelity(es: Seq<(Seq<u8>, Seq<u8>)>)
    ensures
        forall|j: int|
            0 <= j < classify_bin(es).len() ==> exists|i: int|
                0 <= i < es.len() && #[trigger] es[i] == #[trigger] classify_bin(es)[j],
    decreases es.len(),
{
    if es.len() > 0 {
        let t = es.drop_last();
        lemma_binary_fidelity(t);
        let cb = classify_bin(es);
        let cbt = classify_bin(t);
        assert(forall|i: int| 0 <= i < t.len() ==> t[i] == #[trigger] es[i]);
        assert forall|j: int| 0 <= j < cb.len() implies exists|i: int|
            0 <= i < es.len() && #[trigger] es[i] == #[trigger] cb[j] by {
            if j < cbt.len() {
                assert(cb[j] == cbt[j]);
                let w = choose|i: int| 0 <= i < t.len() && #[trigger] t[i] == cbt[j];
                assert(es[w] == cb[j]);
            } else {
                assert(cb[j] == es.last());
                assert(es[es.len() - 1] == cb[j]);
            }
        }
    }
}

proof fn lemma_encode_nonempty(chars: Seq<char>)
    requires
        chars.len() > 0,
    ensures
        encode_utf8(chars).len() > 0,
{
    assert(encode_utf8(chars) == encode_scalar(chars[0] as u32) + encode_utf8(
        chars.drop_first(),
    ));
    assert(encode_scalar(chars[0] as u32).len() > 0);
}

/// Law (language invariant, replacement case): whenever the OPF text
/// contains the unsupported language element the pass replaces, the
/// repaired OPF text contains the supported one. Whether the repaired
/// document holds exactly one such element depends on the input markup
/// and is checked by tests on concrete packages.
pub proof fn lemma_language_fix_supported(opf: Seq<u8>, l: Seq<u8>)
    requires
        has_sub(opf, lang_wrap(l)),
    ensures
        has_sub(
            replace_spec(opf, lang_wrap(l), lang_wrap(preferred_lang())),
            lang_wrap(preferred_lang()),
        ),
{
    reveal_strlit("<dc:language>");
    assert("<dc:language>"@.len() == 13);
    lemma_encode_nonempty("<dc:language>"@);
    assert(lang_wrap(l).len() > 0);
    lemma_replace_contains(opf, lang_wrap(l), lang_wrap(preferred_lang()));
}

} // verus!
