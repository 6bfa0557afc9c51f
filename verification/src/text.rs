//! Byte-level text helpers for the line-oriented header grammar: delimiter
//! search, ASCII case folding and whitespace trimming, decimal integer
//! parsing, and whitespace splitting. Each executable function is proved
//! against a spec model stated over byte sequences.
//!
//! The header grammar is ASCII; the canonical normalizations chosen here
//! (identifier case folding, descriptor trimming) fold and trim ASCII only
//! and leave every other byte untouched.

use vstd::prelude::*;

verus! {

pub const NEWLINE: u8 = 10;

pub const CARRIAGE_RETURN: u8 = 13;

pub const SPACE: u8 = 32;

pub const TAB: u8 = 9;

pub const HASH: u8 = 35;

pub const PLUS: u8 = 43;

pub const MINUS: u8 = 45;

pub const COLON: u8 = 58;

pub const EQUALS: u8 = 61;

pub const DIGIT_ZERO: u8 = 48;

pub const DIGIT_NINE: u8 = 57;

pub const UPPER_A: u8 = 65;

pub const UPPER_Z: u8 = 90;

/// ASCII whitespace: space, tab, line feed, vertical tab, form feed,
/// carriage return.
pub open spec fn is_ws(b: u8) -> bool {
    b == SPACE || b == TAB || b == NEWLINE || b == 11 || b == 12 || b == CARRIAGE_RETURN
}

pub fn is_ws_exec(b: u8) -> (r: bool)
    ensures
        r == is_ws(b),
{
    b == SPACE || b == TAB || b == NEWLINE || b == 11 || b == 12 || b == CARRIAGE_RETURN
}

pub open spec fn is_digit(b: u8) -> bool {
    DIGIT_ZERO <= b <= DIGIT_NINE
}

/// ASCII case folding of one byte: upper-case letters move to lower case,
/// everything else is untouched.
pub open spec fn lower_byte(b: u8) -> u8 {
    if UPPER_A <= b <= UPPER_Z {
        (b + 32) as u8
    } else {
        b
    }
}

pub open spec fn to_lower(s: Seq<u8>) -> Seq<u8> {
    s.map_values(|b: u8| lower_byte(b))
}

/// The sequence with trailing ASCII whitespace removed.
pub open spec fn trim_end(s: Seq<u8>) -> Seq<u8>
    decreases s.len(),
{
    if s.len() > 0 && is_ws(s.last()) {
        trim_end(s.drop_last())
    } else {
        s
    }
}

/// The index of the first occurrence of `b`, if any.
pub open spec fn find_byte(s: Seq<u8>, b: u8) -> Option<int>
    decreases s.len(),
{
    if s.len() == 0 {
        None
    } else if s[0] == b {
        Some(0)
    } else {
        match find_byte(s.drop_first(), b) {
            Some(i) => Some(i + 1),
            None => None,
        }
    }
}

/// `find_byte` finds exactly the first occurrence: if nothing before `k`
/// matches and `k` either matches or is the end, the result is pinned.
pub proof fn lemma_find_byte(s: Seq<u8>, b: u8, k: int)
    requires
        0 <= k <= s.len(),
        forall|i: int| 0 <= i < k ==> s[i] != b,
        k < s.len() ==> s[k] == b,
    ensures
        find_byte(s, b) == if k < s.len() {
            Some(k)
        } else {
            None::<int>
        },
    decreases s.len(),
{
    if s.len() > 0 && s[0] != b {
        let t = s.drop_first();
        assert(forall|i: int| 0 <= i < k - 1 ==> t[i] != b);
        lemma_find_byte(t, b, k - 1);
    }
}

/// The index of the first occurrence of the two-byte sequence `a b`, if any.
pub open spec fn find_pair(s: Seq<u8>, a: u8, b: u8) -> Option<int>
    decreases s.len(),
{
    if s.len() < 2 {
        None
    } else if s[0] == a && s[1] == b {
        Some(0)
    } else {
        match find_pair(s.drop_first(), a, b) {
            Some(i) => Some(i + 1),
            None => None,
        }
    }
}

/// `find_pair` finds exactly the first occurrence of the pair.
pub proof fn lemma_find_pair(s: Seq<u8>, a: u8, b: u8, k: int)
    requires
        0 <= k,
        k + 1 <= s.len(),
        forall|i: int| 0 <= i < k ==> !(#[trigger] s[i] == a && s[i + 1] == b),
        k + 1 < s.len() ==> (s[k] == a && s[k + 1] == b),
    ensures
        find_pair(s, a, b) == if k + 1 < s.len() {
            Some(k)
        } else {
            None::<int>
        },
    decreases s.len(),
{
    if s.len() >= 2 && !(s[0] == a && s[1] == b) {
        let t = s.drop_first();
        assert(forall|i: int| 0 <= i < k - 1 ==> !(#[trigger] t[i] == a && t[i + 1] == b)) by {
            assert(forall|i: int|
                0 <= i < k - 1 ==> #[trigger] t[i] == s[i + 1] && t[i + 1] == s[i + 2]);
        }
        lemma_find_pair(t, a, b, k - 1);
    }
}

/// Whether two byte slices hold the same bytes.
pub fn bytes_eq(a: &[u8], b: &[u8]) -> (r: bool)
    ensures
        r == (a@ == b@),
{
    if a.len() != b.len() {
        return false;
    }
    let n: usize = a.len();
    let mut i: usize = 0;
    while i < n
        invariant
            n == a@.len() == b@.len(),
            i <= n,
            forall|j: int| 0 <= j < i ==> a@[j] == b@[j],
        decreases n - i,
    {
        if a[i] != b[i] {
            return false;
        }
        i = i + 1;
    }
    proof {
        assert(a@ =~= b@);
    }
    true
}

/// ASCII-lower-cases every byte.
pub fn to_lower_exec(v: &[u8]) -> (r: Vec<u8>)
    ensures
        r@ == to_lower(v@),
{
    let n: usize = v.len();
    let mut out: Vec<u8> = Vec::new();
    let mut i: usize = 0;
    while i < n
        invariant
            n == v@.len(),
            i <= n,
            out@ == to_lower(v@).take(i as int),
        decreases n - i,
    {
        let b = v[i];
        let lb = if UPPER_A <= b && b <= UPPER_Z {
            b + 32
        } else {
            b
        };
        out.push(lb);
        proof {
            assert(to_lower(v@).take(i + 1) =~= to_lower(v@).take(i as int).push(
                lower_byte(v@[i as int]),
            ));
        }
        i = i + 1;
    }
    proof {
        assert(to_lower(v@).take(n as int) =~= to_lower(v@));
    }
    out
}

/// Copies `v` with trailing ASCII whitespace removed.
pub fn trim_end_exec(v: &[u8]) -> (r: Vec<u8>)
    ensures
        r@ == trim_end(v@),
{
    let mut end: usize = v.len();
    proof {
        assert(v@.take(end as int) =~= v@);
    }
    while end > 0 && is_ws_exec(v[end - 1])
        invariant
            end <= v@.len(),
            trim_end(v@) == trim_end(v@.take(end as int)),
        decreases end,
    {
        proof {
            assert(v@.take(end as int).last() == v@[end - 1]);
            assert(v@.take(end as int).drop_last() =~= v@.take(end - 1));
        }
        end = end - 1;
    }
    let mut out: Vec<u8> = Vec::new();
    let mut i: usize = 0;
    while i < end
        invariant
            end <= v@.len(),
            i <= end,
            out@ == v@.take(end as int).take(i as int),
            trim_end(v@) == trim_end(v@.take(end as int)),
            end > 0 ==> !is_ws(v@[end - 1]),
        decreases end - i,
    {
        out.push(v[i]);
        proof {
            assert(v@.take(end as int).take(i + 1) =~= v@.take(end as int).take(i as int).push(
                v@[i as int],
            ));
        }
        i = i + 1;
    }
    proof {
        let t = v@.take(end as int);
        assert(t.take(end as int) =~= t);
        if end > 0 {
            assert(t.last() == v@[end - 1]);
        }
        assert(trim_end(t) == t);
    }
    out
}

/// Copies the bytes of `v[start..end]` into a fresh vector.
pub fn copy_range(v: &[u8], start: usize, end: usize) -> (r: Vec<u8>)
    requires
        start <= end <= v@.len(),
    ensures
        r@ == v@.subrange(start as int, end as int),
{
    let mut out: Vec<u8> = Vec::new();
    let mut i = start;
    while i < end
        invariant
            start <= i <= end <= v@.len(),
            out@ == v@.subrange(start as int, i as int),
        decreases end - i,
    {
        out.push(v[i]);
        proof {
            assert(v@.subrange(start as int, i + 1) =~= v@.subrange(start as int, i as int).push(
                v@[i as int],
            ));
        }
        i = i + 1;
    }
    out
}

pub open spec fn all_digits(s: Seq<u8>) -> bool {
    forall|i: int| 0 <= i < s.len() ==> is_digit(#[trigger] s[i])
}

/// The value of a decimal digit string, most significant digit first.
pub open spec fn digits_val(s: Seq<u8>) -> int
    decreases s.len(),
{
    if s.len() == 0 {
        0
    } else {
        digits_val(s.drop_last()) * 10 + (s.last() - DIGIT_ZERO)
    }
}

pub proof fn lemma_digits_val_nonneg(s: Seq<u8>)
    requires
        all_digits(s),
    ensures
        digits_val(s) >= 0,
    decreases s.len(),
{
    if s.len() > 0 {
        assert(all_digits(s.drop_last()));
        lemma_digits_val_nonneg(s.drop_last());
    }
}

/// The integer a byte string denotes: an optional single sign, then at least
/// one decimal digit, the value required to fit in `i32` — the grammar of a
/// `dimension`, `sizes` or `block size` descriptor.
#[verifier::opaque]
pub open spec fn parse_i32(s: Seq<u8>) -> Option<i32> {
    let neg = s.len() > 0 && s[0] == MINUS;
    let digits = if s.len() > 0 && (s[0] == MINUS || s[0] == PLUS) {
        s.drop_first()
    } else {
        s
    };
    if digits.len() == 0 || !all_digits(digits) {
        None
    } else {
        let v = if neg {
            -digits_val(digits)
        } else {
            digits_val(digits)
        };
        if i32::MIN <= v <= i32::MAX {
            Some(v as i32)
        } else {
            None
        }
    }
}

pub fn parse_i32_exec(v: &[u8]) -> (r: Option<i32>)
    ensures
        r == parse_i32(v@),
{
    proof {
        reveal(parse_i32);
    }
    let n: usize = v.len();
    let mut start: usize = 0;
    let mut neg = false;
    if n > 0 && v[0] == MINUS {
        neg = true;
        start = 1;
    } else if n > 0 && v[0] == PLUS {
        start = 1;
    }
    let ghost digits = if start == 1 {
        v@.drop_first()
    } else {
        v@
    };
    proof {
        assert(digits =~= v@.subrange(start as int, n as int));
    }
    if start >= n {
        return None;
    }
    let mut acc: u64 = 0;
    let mut over = false;
    let mut i = start;
    while i < n
        invariant
            start <= i <= n == v@.len(),
            digits =~= v@.subrange(start as int, n as int),
            digits == (if v@.len() > 0 && (v@[0] == MINUS || v@[0] == PLUS) {
                v@.drop_first()
            } else {
                v@
            }),
            neg == (v@.len() > 0 && v@[0] == MINUS),
            digits.len() > 0,
            forall|j: int| start <= j < i ==> is_digit(#[trigger] v@[j]),
            !over ==> acc as int == digits_val(v@.subrange(start as int, i as int)) && acc
                <= 0x8000_0000,
            over ==> digits_val(v@.subrange(start as int, i as int)) > 0x8000_0000,
        decreases n - i,
    {
        let b = v[i];
        if b < DIGIT_ZERO || b > DIGIT_NINE {
            proof {
                reveal(parse_i32);
                assert(digits[i - start] == v@[i as int]);
                assert(!all_digits(digits));
            }
            return None;
        }
        proof {
            let pre = v@.subrange(start as int, i as int);
            let ext = v@.subrange(start as int, i + 1);
            assert(ext.drop_last() =~= pre);
            assert(ext.last() == v@[i as int]);
            assert(all_digits(pre));
            lemma_digits_val_nonneg(pre);
        }
        let d = (b - DIGIT_ZERO) as u64;
        if !over {
            let next = acc * 10 + d;
            if next > 0x8000_0000 {
                over = true;
            } else {
                acc = next;
            }
        }
        i = i + 1;
    }
    proof {
        reveal(parse_i32);
        assert(v@.subrange(start as int, n as int) =~= digits);
        assert(all_digits(digits));
        lemma_digits_val_nonneg(digits);
    }
    if over {
        return None;
    }
    if neg {
        Some((-(acc as i64)) as i32)
    } else {
        if acc > 0x7fff_ffff {
            return None;
        }
        Some(acc as i32)
    }
}

/// The decimal digits of a nonnegative integer, most significant first.
pub open spec fn dec_bytes(v: int) -> Seq<u8>
    decreases v,
{
    if v < 10 {
        seq![(48 + (if v >= 0 {
            v
        } else {
            0
        })) as u8]
    } else {
        dec_bytes(v / 10) + seq![(48 + v % 10) as u8]
    }
}

/// Renders a number in decimal.
pub fn dec_exec(v: u64) -> (r: Vec<u8>)
    ensures
        r@ == dec_bytes(v as int),
    decreases v,
{
    if v < 10 {
        let mut out: Vec<u8> = Vec::new();
        out.push(48 + (v as u8));
        proof {
            assert(out@ =~= dec_bytes(v as int));
        }
        out
    } else {
        let mut out = dec_exec(v / 10);
        out.push(48 + ((v % 10) as u8));
        proof {
            assert(out@ =~= dec_bytes((v / 10) as int) + seq![(48 + (v as int) % 10) as u8]);
        }
        out
    }
}

/// The sizes joined by single spaces, each in decimal.
pub open spec fn join_dec(s: Seq<usize>) -> Seq<u8>
    decreases s.len(),
{
    if s.len() == 0 {
        Seq::empty()
    } else if s.len() == 1 {
        dec_bytes(s[0] as int)
    } else {
        join_dec(s.drop_last()) + seq![SPACE] + dec_bytes(s.last() as int)
    }
}

/// Renders the sizes joined by single spaces, each in decimal.
pub fn join_dec_exec(s: &[usize]) -> (r: Vec<u8>)
    ensures
        r@ == join_dec(s@),
{
    let n = s.len();
    let mut out: Vec<u8> = Vec::new();
    let mut i: usize = 0;
    while i < n
        invariant
            i <= n == s@.len(),
            out@ == join_dec(s@.take(i as int)),
        decreases n - i,
    {
        if i > 0 {
            out.push(SPACE);
        }
        let mut digits = dec_exec(s[i] as u64);
        let m = digits.len();
        let mut j: usize = 0;
        while j < m
            invariant
                j <= m == digits@.len(),
                i < n == s@.len(),
                digits@ == dec_bytes(s@[i as int] as int),
                out@ == join_dec(s@.take(i as int)) + (if i > 0 {
                    seq![SPACE]
                } else {
                    Seq::<u8>::empty()
                }) + digits@.take(j as int),
            decreases m - j,
        {
            out.push(digits[j]);
            proof {
                assert(digits@.take(j + 1) =~= digits@.take(j as int).push(digits@[j as int]));
                assert(out@ =~= join_dec(s@.take(i as int)) + (if i > 0 {
                    seq![SPACE]
                } else {
                    Seq::<u8>::empty()
                }) + digits@.take(j + 1));
            }
            j = j + 1;
        }
        proof {
            assert(digits@.take(m as int) =~= digits@);
            assert(s@.take(i + 1).drop_last() =~= s@.take(i as int));
            assert(s@.take(i + 1).last() == s@[i as int]);
            if i == 0 {
                assert(out@ =~= join_dec(s@.take(1)));
            } else {
                assert(out@ =~= join_dec(s@.take(i + 1)));
            }
        }
        i = i + 1;
    }
    proof {
        assert(s@.take(n as int) =~= s@);
    }
    out
}

/// The whitespace-separated tokens of `s[i..]`, given the token being read
/// and the tokens already read: the splitting state machine.
pub open spec fn split_ws_rec(s: Seq<u8>, i: int, cur: Seq<u8>, acc: Seq<Seq<u8>>) -> Seq<Seq<u8>>
    decreases s.len() - i,
{
    if i < 0 || i >= s.len() {
        if cur.len() > 0 {
            acc.push(cur)
        } else {
            acc
        }
    } else if is_ws(s[i]) {
        if cur.len() > 0 {
            split_ws_rec(s, i + 1, Seq::empty(), acc.push(cur))
        } else {
            split_ws_rec(s, i + 1, Seq::empty(), acc)
        }
    } else {
        split_ws_rec(s, i + 1, cur.push(s[i]), acc)
    }
}

/// The whitespace-separated tokens of a byte string.
#[verifier::opaque]
pub open spec fn split_ws(s: Seq<u8>) -> Seq<Seq<u8>> {
    split_ws_rec(s, 0, Seq::empty(), Seq::empty())
}

/// The byte sequences a list of byte vectors holds.
pub open spec fn views_of(toks: Seq<Vec<u8>>) -> Seq<Seq<u8>> {
    toks.map_values(|t: Vec<u8>| t@)
}

pub fn split_ws_exec(v: &[u8]) -> (r: Vec<Vec<u8>>)
    ensures
        views_of(r@) == split_ws(v@),
{
    let n: usize = v.len();
    let mut tokens: Vec<Vec<u8>> = Vec::new();
    let mut cur: Vec<u8> = Vec::new();
    let mut i: usize = 0;
    proof {
        reveal(split_ws);
        assert(views_of(tokens@) =~= Seq::<Seq<u8>>::empty());
        assert(cur@ =~= Seq::<u8>::empty());
    }
    while i < n
        invariant
            i <= n == v@.len(),
            split_ws(v@) == split_ws_rec(v@, i as int, cur@, views_of(tokens@)),
        decreases n - i,
    {
        let ghost toks_pre = views_of(tokens@);
        let b = v[i];
        if is_ws_exec(b) {
            if cur.len() > 0 {
                tokens.push(cur);
                cur = Vec::new();
                proof {
                    assert(views_of(tokens@) =~= toks_pre.push(tokens@.last()@));
                    assert(cur@ =~= Seq::<u8>::empty());
                }
            } else {
                proof {
                    assert(cur@ =~= Seq::<u8>::empty());
                }
            }
        } else {
            cur.push(b);
        }
        i = i + 1;
    }
    if cur.len() > 0 {
        let ghost toks_pre = views_of(tokens@);
        tokens.push(cur);
        proof {
            assert(views_of(tokens@) =~= toks_pre.push(tokens@.last()@));
        }
    }
    tokens
}

} // verus!
