//! Recognizer for XML declarations at the start of a document, and the
//! canonical declaration that the encoding pass prepends.
//!
//! A declaration is `<?xml` + whitespace + `version=` + a quoted run of
//! digits and dots + whitespace + `encoding=` + a quoted run of name bytes,
//! closed by `?>` on the same line; either quote character is accepted.

use vstd::prelude::*;

use crate::bytes_ops::is_ws;
use crate::bytes_ops::byte_is_ws;
use crate::bytes_ops::match_at;

verus! {

/// Byte allowed in a version token: an ASCII digit or a dot.
pub open spec fn is_verchar(b: u8) -> bool {
    (48 <= b <= 57) || b == 46
}

/// Byte allowed in an encoding name: an ASCII letter, digit, hyphen or dot.
pub open spec fn is_encchar(b: u8) -> bool {
    (97 <= b <= 122) || (65 <= b <= 90) || (48 <= b <= 57) || b == 45 || b == 46
}

/// A single or double quote byte.
pub open spec fn is_quote(b: u8) -> bool {
    b == 34 || b == 39
}

/// Byte-class membership, selected by `c`: 0 is whitespace, 1 is a version
/// byte, 2 is an encoding-name byte.
pub open spec fn in_class(c: int, b: u8) -> bool {
    if c == 0 {
        is_ws(b)
    } else if c == 1 {
        is_verchar(b)
    } else {
        is_encchar(b)
    }
}

/// First index at or after `i` whose byte is outside class `c` (or the end
/// of `s`).
pub open spec fn run_end(s: Seq<u8>, i: int, c: int) -> int
    decreases s.len() - i when 0 <= i <= s.len()
{
    if i < s.len() && in_class(c, s[i]) {
        run_end(s, i + 1, c)
    } else {
        i
    }
}

/// The closing `?>` of a declaration stands at index `i`.
pub open spec fn close_at(s: Seq<u8>, i: int) -> bool {
    i + 2 <= s.len() && s[i] == 63 && s[i + 1] == 62
}

/// Some `?>` closes the declaration at or after `i`, with no line feed
/// before it.
pub open spec fn has_close(s: Seq<u8>, i: int) -> bool {
    exists|k: int|
        i <= k && #[trigger] close_at(s, k) && (forall|j: int| i <= j < k ==> s[j] != 10)
}

/// The bytes of `<?xml`.
pub open spec fn xml_lit() -> Seq<u8> {
    seq![60u8, 63u8, 120u8, 109u8, 108u8]
}

/// The bytes of `version=`.
pub open spec fn version_lit() -> Seq<u8> {
    seq![118u8, 101u8, 114u8, 115u8, 105u8, 111u8, 110u8, 61u8]
}

/// The bytes of `encoding=`.
pub open spec fn encoding_lit() -> Seq<u8> {
    seq![101u8, 110u8, 99u8, 111u8, 100u8, 105u8, 110u8, 103u8, 61u8]
}

/// `s` begins with a well-formed XML declaration.
pub open spec fn has_xml_decl(s: Seq<u8>) -> bool {
    let i2 = run_end(s, 5, 0);
    let i3 = i2 + 9;
    let i4 = run_end(s, i3, 1);
    let i5 = run_end(s, i4 + 1, 0);
    let i6 = i5 + 10;
    let i7 = run_end(s, i6, 2);
    &&& s.len() >= 5
    &&& s.subrange(0, 5) == xml_lit()
    &&& i2 > 5
    &&& match_at(s, version_lit(), i2)
    &&& i2 + 8 < s.len() && is_quote(s[i2 + 8])
    &&& i4 > i3
    &&& i4 < s.len() && is_quote(s[i4])
    &&& i5 > i4 + 1
    &&& match_at(s, encoding_lit(), i5)
    &&& i5 + 9 < s.len() && is_quote(s[i5 + 9])
    &&& i7 > i6
    &&& i7 < s.len() && is_quote(s[i7])
    &&& has_close(s, i7 + 1)
}

/// The canonical declaration the encoding pass prepends:
/// `<?xml version="1.0" encoding="utf-8"?>`.
pub open spec fn decl_spec() -> Seq<u8> {
    seq![
        60u8, 63u8, 120u8, 109u8, 108u8, 32u8, 118u8, 101u8, 114u8, 115u8, 105u8, 111u8,
        110u8, 61u8, 34u8, 49u8, 46u8, 48u8, 34u8, 32u8, 101u8, 110u8, 99u8, 111u8, 100u8,
        105u8, 110u8, 103u8, 61u8, 34u8, 117u8, 116u8, 102u8, 45u8, 56u8, 34u8, 63u8, 62u8,
    ]
}

/// Exec counterpart of `in_class`.
fn byte_in_class(c: u8, b: u8) -> (r: bool)
    requires
        c < 3,
    ensures
        r == in_class(c as int, b),
{
    if c == 0 {
        byte_is_ws(b)
    } else if c == 1 {
        (48 <= b && b <= 57) || b == 46
    } else {
        (97 <= b && b <= 122) || (65 <= b && b <= 90) || (48 <= b && b <= 57) || b == 45
            || b == 46
    }
}

proof fn lemma_run_end_eq(s: Seq<u8>, i: int, j: int, c: int)
    requires
        0 <= i <= j <= s.len(),
        forall|k: int| i <= k < j ==> in_class(c, s[k]),
        j == s.len() || !in_class(c, s[j]),
    ensures
        run_end(s, i, c) == j,
    decreases j - i,
{
    if i < j {
        lemma_run_end_eq(s, i + 1, j, c);
    }
}

/// First index at or after `i` outside class `c`.
fn scan_run(s: &Vec<u8>, i: usize, c: u8) -> (r: usize)
    requires
        i <= s.len(),
        c < 3,
    ensures
        r == run_end(s@, i as int, c as int),
        i <= r <= s.len(),
{
    let mut j: usize = i;
    while j < s.len() && byte_in_class(c, s[j])
        invariant
            i <= j <= s.len(),
            c < 3,
            forall|k: int| i <= k < j ==> in_class(c as int, s@[k]),
        decreases s.len() - j,
    {
        j += 1;
    }
    proof {
        lemma_run_end_eq(s@, i as int, j as int, c as int);
    }
    j
}

/// Whether a `?>` closes the declaration at or after `i` on the same line.
fn scan_close(s: &Vec<u8>, i: usize) -> (r: bool)
    requires
        i <= s.len(),
    ensures
        r == has_close(s@, i as int),
{
    let mut k: usize = i;
    while s.len() >= 2 && k <= s.len() - 2
        invariant
            i <= k,
            k <= s.len() + 1,
            forall|j: int| i <= j < k ==> s@[j] != 10 && !close_at(s@, j),
        decreases s.len() + 2 - k,
    {
        if s[k] == 63 && s[k + 1] == 62 {
            assert(close_at(s@, k as int));
            return true;
        }
        if s[k] == 10 {
            assert(!has_close(s@, i as int)) by {
                assert forall|w: int|
                    i <= w && #[trigger] close_at(s@, w) implies !(forall|j: int|
                    i <= j < w ==> s@[j] != 10) by {
                    if w > k {
                        assert(s@[k as int] == 10);
                    }
                }
            }
            return false;
        }
        k += 1;
    }
    assert(!has_close(s@, i as int)) by {
        assert forall|w: int| i <= w implies !close_at(s@, w) || !(forall|j: int|
            i <= j < w ==> s@[j] != 10) by {
            if close_at(s@, w) {
                assert(w + 2 <= s@.len());
                assert(w < k);
            }
        }
    }
    false
}

/// Whether `s` begins with a well-formed XML declaration.
pub fn has_xml_decl_exec(s: &Vec<u8>) -> (r: bool)
    ensures
        r == has_xml_decl(s@),
{
    if s.len() < 5 || s[0] != 60 || s[1] != 63 || s[2] != 120 || s[3] != 109 || s[4] != 108 {
        proof {
            if s@.len() >= 5 && s@.subrange(0, 5) == xml_lit() {
                assert(s@[0] == s@.subrange(0, 5)[0]);
                assert(s@[1] == s@.subrange(0, 5)[1]);
                assert(s@[2] == s@.subrange(0, 5)[2]);
                assert(s@[3] == s@.subrange(0, 5)[3]);
                assert(s@[4] == s@.subrange(0, 5)[4]);
            }
        }
        return false;
    }
    proof {
        assert(s@.subrange(0, 5) =~= xml_lit());
    }
    let i2 = scan_run(s, 5, 0);
    if i2 == 5 {
        return false;
    }
    if s.len() - i2 <= 8 {
        assert(!match_at(s@, version_lit(), i2 as int) || !(i2 + 8 < s@.len()));
        return false;
    }
    if s[i2] != 118 || s[i2 + 1] != 101 || s[i2 + 2] != 114 || s[i2 + 3] != 115 || s[i2 + 4]
        != 105 || s[i2 + 5] != 111 || s[i2 + 6] != 110 || s[i2 + 7] != 61 {
        proof {
            if match_at(s@, version_lit(), i2 as int) {
                let sub = s@.subrange(i2 as int, i2 + 8);
                assert(forall|k: int| 0 <= k < 8 ==> sub[k] == s@[i2 + k]);
            }
        }
        return false;
    }
    proof {
        assert(s@.subrange(i2 as int, i2 + 8) =~= version_lit());
    }
    if s[i2 + 8] != 34 && s[i2 + 8] != 39 {
        return false;
    }
    let i3 = i2 + 9;
    let i4 = scan_run(s, if i3 <= s.len() { i3 } else { s.len() }, 1);
    if i3 > s.len() || i4 == i3 {
        return false;
    }
    if i4 >= s.len() || (s[i4] != 34 && s[i4] != 39) {
        return false;
    }
    let i5 = scan_run(s, i4 + 1, 0);
    if i5 == i4 + 1 {
        return false;
    }
    if s.len() - i5 <= 9 {
        assert(!match_at(s@, encoding_lit(), i5 as int) || !(i5 + 9 < s@.len()));
        return false;
    }
    if s[i5] != 101 || s[i5 + 1] != 110 || s[i5 + 2] != 99 || s[i5 + 3] != 111 || s[i5 + 4]
        != 100 || s[i5 + 5] != 105 || s[i5 + 6] != 110 || s[i5 + 7] != 103 || s[i5 + 8] != 61 {
        proof {
            if match_at(s@, encoding_lit(), i5 as int) {
                let sub = s@.subrange(i5 as int, i5 + 9);
                assert(forall|k: int| 0 <= k < 9 ==> sub[k] == s@[i5 + k]);
            }
        }
        return false;
    }
    proof {
        assert(s@.subrange(i5 as int, i5 + 9) =~= encoding_lit());
    }
    if s[i5 + 9] != 34 && s[i5 + 9] != 39 {
        return false;
    }
    let i6 = i5 + 10;
    let i7 = scan_run(s, if i6 <= s.len() { i6 } else { s.len() }, 2);
    if i6 > s.len() || i7 == i6 {
        return false;
    }
    if i7 >= s.len() || (s[i7] != 34 && s[i7] != 39) {
        return false;
    }
    scan_close(s, i7 + 1)
}

/// The canonical declaration as a vector.
#[verifier::rlimit(50)]
pub fn canonical_decl() -> (r: Vec<u8>)
    ensures
        r@ == decl_spec(),
{
    let mut v: Vec<u8> = Vec::new();
    v.push(60);
    v.push(63);
    v.push(120);
    v.push(109);
    v.push(108);
    v.push(32);
    v.push(118);
    v.push(101);
    v.push(114);
    v.push(115);
    v.push(105);
    v.push(111);
    v.push(110);
    v.push(61);
    v.push(34);
    v.push(49);
    v.push(46);
    v.push(48);
    v.push(34);
    v.push(32);
    v.push(101);
    v.push(110);
    v.push(99);
    v.push(111);
    v.push(100);
    v.push(105);
    v.push(110);
    v.push(103);
    v.push(61);
    v.push(34);
    v.push(117);
    v.push(116);
    v.push(102);
    v.push(45);
    v.push(56);
    v.push(34);
    v.push(63);
    v.push(62);
    proof {
        assert(v@ =~= decl_spec());
    }
    v
}

/// Anything that begins with the canonical declaration carries a
/// well-formed XML declaration.
pub proof fn lemma_decl_prefix_matches(rest: Seq<u8>)
    ensures
        has_xml_decl(decl_spec() + rest),
{
    let s = decl_spec() + rest;
    assert(forall|k: int| 0 <= k < 38 ==> s[k] == decl_spec()[k]);
    assert(s.subrange(0, 5) =~= xml_lit());
    lemma_run_end_eq(s, 5, 6, 0);
    assert(s.subrange(6, 14) =~= version_lit());
    lemma_run_end_eq(s, 15, 18, 1);
    lemma_run_end_eq(s, 19, 20, 0);
    assert(s.subrange(20, 29) =~= encoding_lit());
    lemma_run_end_eq(s, 30, 35, 2);
    assert(close_at(s, 36));
    assert(has_close(s, 36));
}

} // verus!
