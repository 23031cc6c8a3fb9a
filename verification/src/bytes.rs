//! Byte-string utilities shared by the codec, the store and the dispatcher:
//! lexicographic order on byte strings, big-endian integer encoding, hex
//! encoding for queue tags, and substring search for push-rule matching.

use vstd::prelude::*;

verus! {

/// Strict lexicographic order on byte sequences: `a` comes before `b`.
pub open spec fn lex_lt(a: Seq<u8>, b: Seq<u8>) -> bool
    decreases a.len(),
{
    if b.len() == 0 {
        false
    } else if a.len() == 0 {
        true
    } else if a[0] < b[0] {
        true
    } else if a[0] > b[0] {
        false
    } else {
        lex_lt(a.skip(1), b.skip(1))
    }
}

pub open spec fn lex_leq(a: Seq<u8>, b: Seq<u8>) -> bool {
    lex_lt(a, b) || a == b
}

/// `lex_lt` holds exactly when at the first position where the strings
/// differ, `a` has the smaller byte, or `a` is a proper prefix of `b`.
pub proof fn lemma_lex_lt_unfold(a: Seq<u8>, b: Seq<u8>)
    ensures
        lex_lt(a, b) <==> (exists|i: int|
            0 <= i < a.len() && i < b.len() && a[i] < b[i] && a.subrange(0, i) == b.subrange(0, i))
            || (a.len() < b.len() && a == b.subrange(0, a.len() as int)),
    decreases a.len(),
{
    if b.len() == 0 {
        assert forall|i: int| !(0 <= i < a.len() && i < b.len() && a[i] < b[i]) by {}
    } else if a.len() == 0 {
        assert(a == b.subrange(0, 0));
    } else if a[0] < b[0] {
        assert(a.subrange(0, 0) == b.subrange(0, 0));
    } else if a[0] > b[0] {
        assert forall|i: int|
            0 <= i < a.len() && i < b.len() && a.subrange(0, i) == b.subrange(0, i)
                implies !(a[i] < b[i]) by {
            if i > 0 {
                assert(a.subrange(0, i)[0] == a[0]);
                assert(b.subrange(0, i)[0] == b[0]);
            }
        }
        if a.len() < b.len() && a == b.subrange(0, a.len() as int) {
            assert(a[0] == b.subrange(0, a.len() as int)[0]);
        }
    } else {
        lemma_lex_lt_unfold(a.skip(1), b.skip(1));
        let at = a.skip(1);
        let bt = b.skip(1);
        if lex_lt(a, b) {
            if exists|j: int|
                0 <= j < at.len() && j < bt.len() && at[j] < bt[j] && at.subrange(0, j)
                    == bt.subrange(0, j) {
                let j = choose|j: int|
                    0 <= j < at.len() && j < bt.len() && at[j] < bt[j] && at.subrange(0, j)
                        == bt.subrange(0, j);
                assert(a[j + 1] == at[j] && b[j + 1] == bt[j]);
                assert(a.subrange(0, j + 1) =~= b.subrange(0, j + 1)) by {
                    assert forall|k: int| 0 <= k < j + 1 implies a[k] == b[k] by {
                        if k > 0 {
                            assert(at.subrange(0, j)[k - 1] == bt.subrange(0, j)[k - 1]);
                        }
                    }
                }
            } else {
                assert(at.len() < bt.len() && at == bt.subrange(0, at.len() as int));
                assert(a =~= b.subrange(0, a.len() as int)) by {
                    assert forall|k: int| 0 <= k < a.len() implies a[k] == b.subrange(
                        0,
                        a.len() as int,
                    )[k] by {
                        if k > 0 {
                            assert(at[k - 1] == bt.subrange(0, at.len() as int)[k - 1]);
                        }
                    }
                }
            }
        }
        if (exists|i: int|
            0 <= i < a.len() && i < b.len() && a[i] < b[i] && a.subrange(0, i) == b.subrange(0, i))
            || (a.len() < b.len() && a == b.subrange(0, a.len() as int)) {
            if exists|i: int|
                0 <= i < a.len() && i < b.len() && a[i] < b[i] && a.subrange(0, i) == b.subrange(
                    0,
                    i,
                ) {
                let i = choose|i: int|
                    0 <= i < a.len() && i < b.len() && a[i] < b[i] && a.subrange(0, i)
                        == b.subrange(0, i);
                if i == 0 {
                    assert(a[0] < b[0]);
                } else {
                    assert(a.subrange(0, i)[0] == a[0] && b.subrange(0, i)[0] == b[0]);
                    assert(at[i - 1] < bt[i - 1]);
                    assert(at.subrange(0, i - 1) =~= bt.subrange(0, i - 1)) by {
                        assert forall|k: int| 0 <= k < i - 1 implies at[k] == bt[k] by {
                            assert(a.subrange(0, i)[k + 1] == b.subrange(0, i)[k + 1]);
                        }
                    }
                    assert(lex_lt(at, bt));
                }
            } else {
                assert(a.len() < b.len() && a == b.subrange(0, a.len() as int));
                if a.len() > 0 {
                    assert(a[0] == b.subrange(0, a.len() as int)[0]);
                    assert(at =~= bt.subrange(0, at.len() as int)) by {
                        assert forall|k: int| 0 <= k < at.len() implies at[k] == bt.subrange(
                            0,
                            at.len() as int,
                        )[k] by {
                            assert(b.subrange(0, a.len() as int)[k + 1] == b[k + 1]);
                        }
                    }
                    assert(lex_lt(at, bt));
                }
            }
        }
    }
}

pub proof fn lemma_lex_lt_irreflexive(a: Seq<u8>)
    ensures
        !lex_lt(a, a),
    decreases a.len(),
{
    if a.len() > 0 {
        lemma_lex_lt_irreflexive(a.skip(1));
    }
}

pub proof fn lemma_lex_lt_asymmetric(a: Seq<u8>, b: Seq<u8>)
    requires
        lex_lt(a, b),
    ensures
        !lex_lt(b, a),
    decreases a.len(),
{
    if b.len() == 0 || a.len() == 0 {
    } else if a[0] < b[0] || a[0] > b[0] {
    } else {
        lemma_lex_lt_asymmetric(a.skip(1), b.skip(1));
    }
}

pub proof fn lemma_lex_lt_transitive(a: Seq<u8>, b: Seq<u8>, c: Seq<u8>)
    requires
        lex_lt(a, b),
        lex_lt(b, c),
    ensures
        lex_lt(a, c),
    decreases a.len() + b.len() + c.len(),
{
    if a.len() == 0 {
        if c.len() == 0 {
            assert(!lex_lt(b, c));
        }
    } else if b.len() == 0 {
        assert(!lex_lt(b, c) || c.len() > 0);
        assert(lex_lt(b, c) ==> false) by {
            if c.len() == 0 {
            }
        }
    } else if c.len() == 0 {
        assert(!lex_lt(b, c));
    } else {
        if a[0] < b[0] {
            if b[0] < c[0] || b[0] == c[0] {
                assert(a[0] < c[0]);
            }
        } else if a[0] == b[0] {
            if b[0] < c[0] {
                assert(a[0] < c[0]);
            } else if b[0] == c[0] {
                lemma_lex_lt_transitive(a.skip(1), b.skip(1), c.skip(1));
            }
        }
    }
}

/// Any two byte strings are comparable.
pub proof fn lemma_lex_lt_connected(a: Seq<u8>, b: Seq<u8>)
    ensures
        lex_lt(a, b) || lex_lt(b, a) || a == b,
    decreases a.len(),
{
    if a.len() == 0 && b.len() == 0 {
        assert(a =~= b);
    } else if a.len() == 0 || b.len() == 0 {
    } else if a[0] != b[0] {
    } else {
        lemma_lex_lt_connected(a.skip(1), b.skip(1));
        if !lex_lt(a, b) && !lex_lt(b, a) {
            assert(a.skip(1) == b.skip(1));
            assert(a =~= b) by {
                assert forall|i: int| 0 <= i < a.len() implies a[i] == b[i] by {
                    if i > 0 {
                        assert(a.skip(1)[i - 1] == b.skip(1)[i - 1]);
                    }
                }
            }
        }
    }
}

/// Compares two byte strings in lexicographic order.
pub fn bytes_lt(a: &Vec<u8>, b: &Vec<u8>) -> (r: bool)
    ensures
        r == lex_lt(a@, b@),
{
    let mut i: usize = 0;
    loop
        invariant
            0 <= i <= a.len(),
            i <= b.len(),
            a@.subrange(0, i as int) == b@.subrange(0, i as int),
        decreases a.len() - i,
    {
        proof {
            lemma_lex_lt_unfold(a@, b@);
        }
        if i == b.len() {
            // b is exhausted: a is not smaller
            assert(!lex_lt(a@, b@)) by {
                assert forall|j: int|
                    !(0 <= j < a@.len() && j < b@.len() && a@[j] < b@[j] && a@.subrange(0, j)
                        == b@.subrange(0, j)) by {
                    if 0 <= j < b@.len() {
                        assert(a@.subrange(0, i as int)[j] == b@.subrange(0, i as int)[j]);
                    }
                }
            }
            return false;
        }
        if i == a.len() {
            // a is a proper prefix of b
            assert(a@ =~= b@.subrange(0, a@.len() as int)) by {
                assert forall|k: int| 0 <= k < a@.len() implies a@[k] == b@[k] by {
                    assert(a@.subrange(0, i as int)[k] == b@.subrange(0, i as int)[k]);
                }
            }
            return true;
        }
        if a[i] < b[i] {
            return true;
        }
        if a[i] > b[i] {
            assert(!lex_lt(a@, b@)) by {
                assert forall|j: int|
                    0 <= j < a@.len() && j < b@.len() && a@.subrange(0, j) == b@.subrange(0, j)
                        implies !(a@[j] < b@[j]) by {
                    if j < i {
                        assert(a@.subrange(0, i as int)[j] == b@.subrange(0, i as int)[j]);
                    } else if j > i {
                        assert(a@.subrange(0, j)[i as int] == b@.subrange(0, j)[i as int]);
                    }
                }
                if a@.len() < b@.len() && a@ == b@.subrange(0, a@.len() as int) {
                    assert(a@[i as int] == b@.subrange(0, a@.len() as int)[i as int]);
                }
            }
            return false;
        }
        proof {
            assert(a@.subrange(0, i + 1) =~= b@.subrange(0, i + 1)) by {
                assert forall|k: int| 0 <= k < i + 1 implies a@[k] == b@[k] by {
                    if k < i {
                        assert(a@.subrange(0, i as int)[k] == b@.subrange(0, i as int)[k]);
                    }
                }
            }
        }
        i = i + 1;
    }
}

/// Big-endian bytes of a 64-bit integer.
pub open spec fn u64_be(x: u64) -> Seq<u8> {
    seq![
        (x >> 56) as u8,
        (x >> 48) as u8,
        (x >> 40) as u8,
        (x >> 32) as u8,
        (x >> 24) as u8,
        (x >> 16) as u8,
        (x >> 8) as u8,
        x as u8,
    ]
}

/// Appends the big-endian bytes of `x` to `out`.
pub fn push_u64_be(out: &mut Vec<u8>, x: u64)
    ensures
        final(out)@ == old(out)@ + u64_be(x),
{
    out.push((x >> 56) as u8);
    out.push((x >> 48) as u8);
    out.push((x >> 40) as u8);
    out.push((x >> 32) as u8);
    out.push((x >> 24) as u8);
    out.push((x >> 16) as u8);
    out.push((x >> 8) as u8);
    out.push(x as u8);
    assert(out@ =~= old(out)@ + u64_be(x));
}

/// The hex digit (lower case) for a value below 16.
pub open spec fn hex_digit(v: u8) -> u8
    recommends
        v < 16,
{
    if v < 10 {
        (48 + v) as u8
    } else {
        (87 + v) as u8
    }
}

/// Hex encoding of a byte string, two digits per byte.
pub open spec fn hex_of(s: Seq<u8>) -> Seq<u8>
    decreases s.len(),
{
    if s.len() == 0 {
        Seq::empty()
    } else {
        seq![hex_digit(s[0] / 16), hex_digit(s[0] % 16)] + hex_of(s.skip(1))
    }
}

pub proof fn lemma_hex_of_len(s: Seq<u8>)
    ensures
        hex_of(s).len() == 2 * s.len(),
    decreases s.len(),
{
    if s.len() > 0 {
        lemma_hex_of_len(s.skip(1));
    }
}

pub proof fn lemma_hex_of_push(s: Seq<u8>, b: u8)
    ensures
        hex_of(s.push(b)) == hex_of(s) + seq![hex_digit(b / 16), hex_digit(b % 16)],
    decreases s.len(),
{
    if s.len() == 0 {
        assert(s.push(b).skip(1) =~= Seq::<u8>::empty());
        assert(hex_of(Seq::<u8>::empty()) =~= Seq::<u8>::empty());
        assert(hex_of(s) =~= Seq::<u8>::empty());
        assert(hex_of(s.push(b)) =~= hex_of(s) + seq![hex_digit(b / 16), hex_digit(b % 16)]);
    } else {
        assert(s.push(b).skip(1) =~= s.skip(1).push(b));
        lemma_hex_of_push(s.skip(1), b);
        assert(hex_of(s.push(b)) =~= hex_of(s) + seq![hex_digit(b / 16), hex_digit(b % 16)]);
    }
}

/// Hex digits are ASCII and never the queue-key delimiter `0xff`.
pub proof fn lemma_hex_of_bytes_ascii(s: Seq<u8>)
    ensures
        forall|i: int| 0 <= i < hex_of(s).len() ==> 48 <= #[trigger] hex_of(s)[i] <= 102,
    decreases s.len(),
{
    if s.len() > 0 {
        lemma_hex_of_bytes_ascii(s.skip(1));
        assert forall|i: int| 0 <= i < hex_of(s).len() implies 48 <= #[trigger] hex_of(s)[i]
            <= 102 by {
            if i >= 2 {
                assert(hex_of(s)[i] == hex_of(s.skip(1))[i - 2]);
            }
        }
    }
}

/// Hex-encodes a byte string.
pub fn hex_encode(s: &Vec<u8>) -> (r: Vec<u8>)
    ensures
        r@ == hex_of(s@),
{
    let mut r: Vec<u8> = Vec::new();
    let mut i: usize = 0;
    while i < s.len()
        invariant
            0 <= i <= s@.len(),
            r@ == hex_of(s@.subrange(0, i as int)),
        decreases s@.len() - i,
    {
        let b = s[i];
        let hi = b / 16;
        let lo = b % 16;
        r.push(if hi < 10 { 48 + hi } else { 87 + hi });
        r.push(if lo < 10 { 48 + lo } else { 87 + lo });
        proof {
            lemma_hex_of_push(s@.subrange(0, i as int), b);
            assert(s@.subrange(0, i + 1) =~= s@.subrange(0, i as int).push(b));
        }
        i = i + 1;
    }
    proof {
        assert(s@.subrange(0, s@.len() as int) =~= s@);
    }
    r
}

/// Whether `needle` occurs in `hay` as a contiguous substring.
pub open spec fn contains_sub(hay: Seq<u8>, needle: Seq<u8>) -> bool {
    exists|i: int|
        0 <= i <= hay.len() - needle.len() && #[trigger] hay.subrange(i, i + needle.len())
            == needle
}

/// Substring search, used by the push rules that look for a name or
/// `@room` inside a message body.
pub fn find_sub(hay: &Vec<u8>, needle: &Vec<u8>) -> (r: bool)
    ensures
        r == contains_sub(hay@, needle@),
{
    if needle.len() > hay.len() {
        return false;
    }
    if needle.len() == 0 {
        proof {
            assert(hay@.subrange(0, 0 + needle@.len() as int) =~= needle@);
        }
        return true;
    }
    let mut i: usize = 0;
    while i <= hay.len() - needle.len()
        invariant
            1 <= needle@.len() <= hay@.len(),
            hay@.len() <= usize::MAX,
            0 <= i <= hay@.len() - needle@.len() + 1,
            forall|k: int| 0 <= k < i ==> #[trigger] hay@.subrange(k, k + needle@.len())
                != needle@,
        decreases hay@.len() - needle@.len() + 1 - i,
    {
        let mut j: usize = 0;
        let mut matched = true;
        proof {
            assert(hay@.subrange(i as int, i as int) =~= needle@.subrange(0, 0));
        }
        while matched && j < needle.len()
            invariant
                needle@.len() <= hay@.len(),
                hay@.len() <= usize::MAX,
                0 <= i <= hay@.len() - needle@.len(),
                0 <= j <= needle@.len(),
                matched ==> hay@.subrange(i as int, i + j) == needle@.subrange(0, j as int),
                !matched ==> hay@.subrange(i as int, i + needle@.len()) != needle@,
            decreases needle@.len() - j + (if matched {
                1int
            } else {
                0int
            }),
        {
            if hay[i + j] == needle[j] {
                proof {
                    let a = hay@.subrange(i as int, i + j + 1);
                    let b = needle@.subrange(0, j + 1);
                    assert(a.drop_last() =~= hay@.subrange(i as int, i + j));
                    assert(b.drop_last() =~= needle@.subrange(0, j as int));
                    assert(a =~= b);
                }
                j = j + 1;
            } else {
                proof {
                    let full = hay@.subrange(i as int, i + needle@.len());
                    if full == needle@ {
                        assert(full[j as int] == needle@[j as int]);
                        assert(hay@.subrange(i as int, i + j)[j - j] == needle@.subrange(
                            0,
                            j as int,
                        )[j - j] || j == 0);
                        assert(full[j as int] == hay@[i + j]);
                        assert(false);
                    }
                }
                matched = false;
            }
        }
        if matched {
            proof {
                assert(hay@.subrange(i as int, i + needle@.len()) =~= needle@.subrange(
                    0,
                    needle@.len() as int,
                ));
                assert(needle@.subrange(0, needle@.len() as int) =~= needle@);
            }
            return true;
        }
        i = i + 1;
    }
    false
}

/// Byte-string equality.
pub fn bytes_eq(a: &Vec<u8>, b: &Vec<u8>) -> (r: bool)
    ensures
        r == (a@ == b@),
{
    if a.len() != b.len() {
        return false;
    }
    let mut i: usize = 0;
    while i < a.len()
        invariant
            a@.len() == b@.len(),
            0 <= i <= a@.len(),
            forall|k: int| 0 <= k < i ==> a@[k] == b@[k],
        decreases a@.len() - i,
    {
        if a[i] != b[i] {
            return false;
        }
        i = i + 1;
    }
    proof {
        assert(a@ =~= b@);
    }
    true
}

/// Whether `p` is a prefix of `s`.
pub open spec fn has_prefix(s: Seq<u8>, p: Seq<u8>) -> bool {
    p.len() <= s.len() && s.subrange(0, p.len() as int) == p
}

pub fn starts_with(s: &Vec<u8>, p: &Vec<u8>) -> (r: bool)
    ensures
        r == has_prefix(s@, p@),
{
    if p.len() > s.len() {
        return false;
    }
    let mut i: usize = 0;
    while i < p.len()
        invariant
            p@.len() <= s@.len(),
            0 <= i <= p@.len(),
            s@.subrange(0, i as int) == p@.subrange(0, i as int),
        decreases p@.len() - i,
    {
        if s[i] != p[i] {
            assert(!has_prefix(s@, p@)) by {
                if s@.subrange(0, p@.len() as int) == p@ {
                    assert(s@.subrange(0, p@.len() as int)[i as int] == p@[i as int]);
                }
            }
            return false;
        }
        proof {
            assert(s@.subrange(0, i + 1) =~= p@.subrange(0, i + 1)) by {
                assert forall|k: int| 0 <= k < i + 1 implies s@[k] == p@[k] by {
                    if k < i {
                        assert(s@.subrange(0, i as int)[k] == p@.subrange(0, i as int)[k]);
                    }
                }
            }
        }
        i = i + 1;
    }
    proof {
        assert(s@.subrange(0, p@.len() as int) =~= p@.subrange(0, p@.len() as int));
        assert(p@.subrange(0, p@.len() as int) =~= p@);
    }
    true
}

/// The first position of a colon.
pub open spec fn find_colon(s: Seq<u8>) -> Option<int>
    decreases s.len(),
{
    if s.len() == 0 {
        None
    } else if s[0] == 58u8 {
        Some(0)
    } else {
        match find_colon(s.subrange(1, s.len() as int)) {
            Some(i) => Some(i + 1),
            None => None,
        }
    }
}

pub proof fn lemma_find_colon_at(s: Seq<u8>, n: int)
    requires
        0 <= n < s.len(),
        s[n] == 58u8,
        forall|j: int| 0 <= j < n ==> s[j] != 58u8,
    ensures
        find_colon(s) == Some(n),
    decreases n,
{
    if n == 0 {
    } else {
        let t = s.subrange(1, s.len() as int);
        assert(t[n - 1] == s[n]);
        assert(forall|j: int| 0 <= j < n - 1 ==> t[j] == s[j + 1] && #[trigger] t[j] != 58u8);
        lemma_find_colon_at(t, n - 1);
    }
}

/// The server an alias or user id lives on: what follows the first colon.
pub open spec fn server_part(s: Seq<u8>) -> Seq<u8> {
    match find_colon(s) {
        Some(i) => s.subrange(i + 1, s.len() as int),
        None => Seq::empty(),
    }
}

/// The server part, executable.
pub fn server_of(s: &Vec<u8>) -> (r: Vec<u8>)
    ensures
        r@ == server_part(s@),
{
    let mut i: usize = 0;
    while i < s.len()
        invariant
            0 <= i <= s@.len(),
            forall|j: int| 0 <= j < i ==> s@[j] != 58u8,
        decreases s@.len() - i,
    {
        if s[i] == 58 {
            proof {
                lemma_find_colon_at(s@, i as int);
            }
            let mut out: Vec<u8> = Vec::new();
            let mut t: usize = i + 1;
            proof {
                assert(out@ =~= s@.subrange(i + 1, i + 1));
            }
            while t < s.len()
                invariant
                    0 <= i < t <= s@.len(),
                    out@ == s@.subrange(i + 1, t as int),
                decreases s@.len() - t,
            {
                out.push(s[t]);
                proof {
                    assert(out@ =~= s@.subrange(i + 1, t + 1));
                }
                t = t + 1;
            }
            return out;
        }
        i = i + 1;
    }
    proof {
        if find_colon(s@) is Some {
            lemma_find_colon_first(s@);
        }
    }
    Vec::new()
}

pub proof fn lemma_find_colon_first(s: Seq<u8>)
    requires
        find_colon(s) is Some,
    ensures
        0 <= find_colon(s)->Some_0 < s.len() && s[find_colon(s)->Some_0] == 58u8,
    decreases s.len(),
{
    if s.len() == 0 {
    } else if s[0] == 58u8 {
    } else {
        let t = s.subrange(1, s.len() as int);
        lemma_find_colon_first(t);
        let i = find_colon(t)->Some_0;
        assert(s[i + 1] == t[i]);
    }
}

} // verus!
