//! Byte-string utilities: substring matching, substring replacement, and
//! whitespace trimming, each verified against a direct mathematical
//! definition over `Seq<u8>`.

use vstd::prelude::*;

verus! {

/// True when `b` is an ASCII whitespace byte: space, tab, line feed,
/// carriage return, vertical tab, or form feed.
pub open spec fn is_ws(b: u8) -> bool {
    b == 32 || b == 9 || b == 10 || b == 13 || b == 11 || b == 12
}

/// Exec counterpart of `is_ws`.
pub fn byte_is_ws(b: u8) -> (r: bool)
    ensures
        r == is_ws(b),
{
    b == 32 || b == 9 || b == 10 || b == 13 || b == 11 || b == 12
}

/// The needle `n` occurs in `s` starting at index `i`.
pub open spec fn match_at(s: Seq<u8>, n: Seq<u8>, i: int) -> bool {
    0 <= i && i + n.len() <= s.len() && s.subrange(i, i + n.len() as int) == n
}

/// The needle `n` occurs somewhere in `s`.
pub open spec fn has_sub(s: Seq<u8>, n: Seq<u8>) -> bool {
    exists|i: int| match_at(s, n, i)
}

/// `s` with every leading ASCII whitespace byte removed.
pub open spec fn trim_start_spec(s: Seq<u8>) -> Seq<u8>
    decreases s.len(),
{
    if s.len() > 0 && is_ws(s[0]) {
        trim_start_spec(s.skip(1))
    } else {
        s
    }
}

/// `s` with every non-overlapping occurrence of `from`, scanned left to
/// right, replaced by `to`. An empty `from` leaves `s` unchanged.
pub open spec fn replace_spec(s: Seq<u8>, from: Seq<u8>, to: Seq<u8>) -> Seq<u8>
    decreases s.len(),
{
    if from.len() == 0 || s.len() < from.len() {
        s
    } else if s.subrange(0, from.len() as int) == from {
        to + replace_spec(s.skip(from.len() as int), from, to)
    } else {
        s.subrange(0, 1) + replace_spec(s.skip(1), from, to)
    }
}

/// `n` is a suffix of `s`.
pub open spec fn is_suffix_of(s: Seq<u8>, n: Seq<u8>) -> bool {
    n.len() <= s.len() && s.subrange(s.len() - n.len(), s.len() as int) == n
}

/// Byte-wise equality of two vectors.
pub fn bytes_eq(a: &Vec<u8>, b: &Vec<u8>) -> (r: bool)
    ensures
        r == (a@ == b@),
{
    if a.len() != b.len() {
        assert(a@ != b@) by {
            assert(a@.len() != b@.len());
        }
        return false;
    }
    let mut i: usize = 0;
    while i < a.len()
        invariant
            i <= a.len(),
            a@.len() == b@.len(),
            forall|j: int| 0 <= j < i ==> a@[j] == b@[j],
        decreases a.len() - i,
    {
        if a[i] != b[i] {
            return false;
        }
        i += 1;
    }
    proof {
        assert(a@ =~= b@);
    }
    true
}

/// Whether `n` occurs in `s` at position `i`.
pub fn match_at_exec(s: &Vec<u8>, n: &Vec<u8>, i: usize) -> (r: bool)
    requires
        i <= s.len(),
    ensures
        r == match_at(s@, n@, i as int),
{
    if n.len() > s.len() - i {
        assert(!match_at(s@, n@, i as int));
        return false;
    }
    let mut j: usize = 0;
    while j < n.len()
        invariant
            j <= n.len(),
            i + n.len() <= s.len(),
            forall|k: int| 0 <= k < j ==> s@[i + k] == n@[k],
        decreases n.len() - j,
    {
        if s[i + j] != n[j] {
            assert(s@.subrange(i as int, i + n@.len()) != n@) by {
                assert(s@.subrange(i as int, i + n@.len())[j as int] == s@[i + j]);
            }
            return false;
        }
        j += 1;
    }
    proof {
        assert(s@.subrange(i as int, i + n@.len()) =~= n@);
    }
    true
}

/// Whether `n` occurs anywhere in `s`.
pub fn contains_sub(s: &Vec<u8>, n: &Vec<u8>) -> (r: bool)
    ensures
        r == has_sub(s@, n@),
{
    if n.len() == 0 {
        assert(match_at(s@, n@, 0)) by {
            assert(s@.subrange(0, 0) =~= n@);
        }
        return true;
    }
    if n.len() > s.len() {
        assert(!has_sub(s@, n@));
        return false;
    }
    let mut i: usize = 0;
    let last: usize = s.len() - n.len();
    while i <= last
        invariant
            i <= last + 1,
            last == s.len() - n.len(),
            1 <= n.len() <= s.len(),
            forall|k: int| 0 <= k < i ==> !match_at(s@, n@, k),
        decreases last + 1 - i,
    {
        if match_at_exec(s, n, i) {
            return true;
        }
        i += 1;
    }
    assert(forall|k: int| match_at(s@, n@, k) ==> 0 <= k <= last);
    false
}

/// Whether `n` is a suffix of `s`.
pub fn ends_with_bytes(s: &Vec<u8>, n: &Vec<u8>) -> (r: bool)
    ensures
        r == is_suffix_of(s@, n@),
{
    if n.len() > s.len() {
        return false;
    }
    match_at_exec(s, n, s.len() - n.len())
}

/// Copy of `s[i..]`.
pub fn tail_from(s: &Vec<u8>, i: usize) -> (r: Vec<u8>)
    requires
        i <= s.len(),
    ensures
        r@ == s@.skip(i as int),
{
    let mut r: Vec<u8> = Vec::new();
    let mut j: usize = i;
    while j < s.len()
        invariant
            i <= j <= s.len(),
            r@ == s@.subrange(i as int, j as int),
        decreases s.len() - j,
    {
        r.push(s[j]);
        proof {
            assert(r@ =~= s@.subrange(i as int, j + 1));
        }
        j += 1;
    }
    proof {
        assert(s@.subrange(i as int, s@.len() as int) =~= s@.skip(i as int));
    }
    r
}

proof fn lemma_trim_skip(s: Seq<u8>, i: int)
    requires
        0 <= i <= s.len(),
        forall|j: int| 0 <= j < i ==> is_ws(s[j]),
        i == s.len() || !is_ws(s[i]),
    ensures
        trim_start_spec(s) == s.skip(i),
    decreases i,
{
    if i == 0 {
        assert(s.skip(0) =~= s);
    } else {
        assert(is_ws(s[0]));
        lemma_trim_skip(s.skip(1), i - 1);
        assert(s.skip(1).skip(i - 1) =~= s.skip(i));
    }
}

/// `s` with leading ASCII whitespace removed.
pub fn trim_start_bytes(s: &Vec<u8>) -> (r: Vec<u8>)
    ensures
        r@ == trim_start_spec(s@),
{
    let mut i: usize = 0;
    while i < s.len() && byte_is_ws(s[i])
        invariant
            i <= s.len(),
            forall|j: int| 0 <= j < i ==> is_ws(s@[j]),
        decreases s.len() - i,
    {
        i += 1;
    }
    proof {
        lemma_trim_skip(s@, i as int);
    }
    tail_from(s, i)
}

/// Trimming is idempotent.
pub proof fn lemma_trim_idempotent(s: Seq<u8>)
    ensures
        trim_start_spec(trim_start_spec(s)) == trim_start_spec(s),
    decreases s.len(),
{
    if s.len() > 0 && is_ws(s[0]) {
        lemma_trim_idempotent(s.skip(1));
    }
}

/// A sequence whose first byte is not whitespace trims to itself.
pub proof fn lemma_trim_noop(s: Seq<u8>)
    requires
        s.len() > 0,
        !is_ws(s[0]),
    ensures
        trim_start_spec(s) == s,
{
}

/// `s` with every non-overlapping occurrence of `from` replaced by `to`.
pub fn replace_all(s: &Vec<u8>, from: &Vec<u8>, to: &Vec<u8>) -> (r: Vec<u8>)
    ensures
        r@ == replace_spec(s@, from@, to@),
{
    if from.len() == 0 {
        let mut r: Vec<u8> = Vec::new();
        r.extend_from_slice(s.as_slice());
        return r;
    }
    let mut out: Vec<u8> = Vec::new();
    let mut i: usize = 0;
    proof {
        assert(s@.skip(0) =~= s@);
        assert(Seq::<u8>::empty() + replace_spec(s@, from@, to@) =~= replace_spec(
            s@,
            from@,
            to@,
        ));
    }
    while i < s.len()
        invariant
            i <= s.len(),
            from@.len() > 0,
            replace_spec(s@, from@, to@) == out@ + replace_spec(s@.skip(i as int), from@, to@),
        decreases s.len() - i,
    {
        let ghost pre = out@;
        let ghost rest = s@.skip(i as int);
        if match_at_exec(s, from, i) {
            out.extend_from_slice(to.as_slice());
            proof {
                assert(rest.len() >= from@.len());
                assert(rest.subrange(0, from@.len() as int) =~= s@.subrange(
                    i as int,
                    i + from@.len(),
                ));
                assert(rest.subrange(0, from@.len() as int) == from@);
                assert(replace_spec(rest, from@, to@) == to@ + replace_spec(
                    rest.skip(from@.len() as int),
                    from@,
                    to@,
                ));
                assert(rest.skip(from@.len() as int) =~= s@.skip(i + from@.len()));
                assert(out@ + replace_spec(s@.skip(i + from@.len()), from@, to@) =~= pre
                    + replace_spec(rest, from@, to@));
            }
            i += from.len();
        } else {
            out.push(s[i]);
            proof {
                if rest.len() >= from@.len() {
                    assert(rest.subrange(0, from@.len() as int) =~= s@.subrange(
                        i as int,
                        i + from@.len(),
                    ));
                    assert(rest.subrange(0, from@.len() as int) != from@);
                }
                assert(replace_spec(rest, from@, to@) == rest.subrange(0, 1) + replace_spec(
                    rest.skip(1),
                    from@,
                    to@,
                )) by {
                    if rest.len() < from@.len() {
                        assert(rest.skip(1) =~= rest.subrange(1, rest.len() as int));
                        assert(rest.subrange(0, 1) + rest.skip(1) =~= rest);
                        assert(rest.len() > 0 ==> replace_spec(rest.skip(1), from@, to@)
                            == rest.skip(1));
                    }
                }
                assert(rest.subrange(0, 1) =~= seq![s@[i as int]]);
                assert(rest.skip(1) =~= s@.skip(i + 1));
                assert(out@ + replace_spec(s@.skip(i + 1), from@, to@) =~= pre + replace_spec(
                    rest,
                    from@,
                    to@,
                ));
            }
            i += 1;
        }
    }
    proof {
        assert(s@.skip(i as int) =~= Seq::<u8>::empty());
        assert(replace_spec(Seq::<u8>::empty(), from@, to@) =~= Seq::<u8>::empty());
        assert(out@ + Seq::<u8>::empty() =~= out@);
    }
    out
}

/// If `from` occurs in `s`, the replacement result contains `to`.
pub proof fn lemma_replace_contains(s: Seq<u8>, from: Seq<u8>, to: Seq<u8>)
    requires
        from.len() > 0,
        has_sub(s, from),
    ensures
        has_sub(replace_spec(s, from, to), to),
    decreases s.len(),
{
    let i = choose|i: int| match_at(s, from, i);
    assert(s.len() >= from.len());
    if s.subrange(0, from.len() as int) == from {
        let r = replace_spec(s, from, to);
        assert(r == to + replace_spec(s.skip(from.len() as int), from, to));
        assert(r.subrange(0, to.len() as int) =~= to);
        assert(match_at(r, to, 0));
    } else {
        assert(i > 0) by {
            if i == 0 {
                assert(s.subrange(0, from.len() as int) == from);
            }
        }
        assert(match_at(s.skip(1), from, i - 1)) by {
            assert(s.skip(1).subrange(i - 1, i - 1 + from.len()) =~= s.subrange(
                i,
                i + from.len() as int,
            ));
        }
        lemma_replace_contains(s.skip(1), from, to);
        let r1 = replace_spec(s.skip(1), from, to);
        let j = choose|j: int| match_at(r1, to, j);
        let r = replace_spec(s, from, to);
        assert(r == s.subrange(0, 1) + r1);
        assert(match_at(r, to, j + 1)) by {
            assert(r.subrange(j + 1, j + 1 + to.len() as int) =~= r1.subrange(
                j,
                j + to.len() as int,
            ));
        }
    }
}

} // verus!
