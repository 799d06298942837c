//! String and path-segment utilities shared by the walker and the gateway:
//! lexicographic order on character sequences and on segment sequences,
//! executable comparisons, and joining of path segments.

use vstd::prelude::*;

verus! {

/// Strict lexicographic order on character sequences, by code point.
pub open spec fn str_lt(a: Seq<char>, b: Seq<char>) -> bool
    decreases a.len(),
{
    if b.len() == 0 {
        false
    } else if a.len() == 0 {
        true
    } else if a[0] != b[0] {
        (a[0] as int) < (b[0] as int)
    } else {
        str_lt(a.drop_first(), b.drop_first())
    }
}

/// Strict lexicographic order on sequences of path segments: segments are
/// compared with `str_lt` at the first position where the two differ.
pub open spec fn seg_lt(a: Seq<Seq<char>>, b: Seq<Seq<char>>) -> bool
    decreases a.len(),
{
    if b.len() == 0 {
        false
    } else if a.len() == 0 {
        true
    } else if a[0] != b[0] {
        str_lt(a[0], b[0])
    } else {
        seg_lt(a.drop_first(), b.drop_first())
    }
}

pub proof fn lemma_str_lt_asym(a: Seq<char>, b: Seq<char>)
    requires
        str_lt(a, b),
    ensures
        !str_lt(b, a),
        a != b,
    decreases a.len(),
{
    if b.len() == 0 {
    } else if a.len() == 0 {
    } else if a[0] != b[0] {
        assert(a != b) by {
            assert(a[0] != b[0]);
        }
    } else {
        lemma_str_lt_asym(a.drop_first(), b.drop_first());
        assert(a != b) by {
            if a == b {
                assert(a.drop_first() == b.drop_first());
            }
        }
    }
}

pub proof fn lemma_str_lt_trans(a: Seq<char>, b: Seq<char>, c: Seq<char>)
    requires
        str_lt(a, b),
        str_lt(b, c),
    ensures
        str_lt(a, c),
    decreases a.len() + b.len() + c.len(),
{
    if c.len() == 0 {
    } else if b.len() == 0 {
    } else if a.len() == 0 {
    } else if a[0] == b[0] && b[0] == c[0] {
        lemma_str_lt_trans(a.drop_first(), b.drop_first(), c.drop_first());
    }
}

pub proof fn lemma_seg_lt_asym(a: Seq<Seq<char>>, b: Seq<Seq<char>>)
    requires
        seg_lt(a, b),
    ensures
        !seg_lt(b, a),
        a != b,
    decreases a.len(),
{
    if b.len() == 0 {
    } else if a.len() == 0 {
    } else if a[0] != b[0] {
        lemma_str_lt_asym(a[0], b[0]);
    } else {
        lemma_seg_lt_asym(a.drop_first(), b.drop_first());
        assert(a != b) by {
            if a == b {
                assert(a.drop_first() == b.drop_first());
            }
        }
    }
}

pub proof fn lemma_seg_lt_trans(a: Seq<Seq<char>>, b: Seq<Seq<char>>, c: Seq<Seq<char>>)
    requires
        seg_lt(a, b),
        seg_lt(b, c),
    ensures
        seg_lt(a, c),
    decreases a.len() + b.len() + c.len(),
{
    if c.len() == 0 {
    } else if b.len() == 0 {
    } else if a.len() == 0 {
    } else if a[0] == b[0] && b[0] == c[0] {
        lemma_seg_lt_trans(a.drop_first(), b.drop_first(), c.drop_first());
    } else if a[0] == b[0] {
        assert(str_lt(b[0], c[0]));
    } else if b[0] == c[0] {
        assert(str_lt(a[0], b[0]));
    } else {
        lemma_str_lt_trans(a[0], b[0], c[0]);
        lemma_str_lt_asym(a[0], b[0]);
        lemma_str_lt_asym(b[0], c[0]);
        lemma_str_lt_asym(a[0], c[0]);
    }
}

/// If the first `i` characters agree, the order is decided past them.
proof fn lemma_str_lt_skip(a: Seq<char>, b: Seq<char>, i: int)
    requires
        0 <= i <= a.len(),
        i <= b.len(),
        forall|k: int| 0 <= k < i ==> a[k] == b[k],
    ensures
        str_lt(a, b) == str_lt(a.skip(i), b.skip(i)),
    decreases i,
{
    if i > 0 {
        assert(a.len() > 0 && b.len() > 0);
        assert(a[0] == b[0]);
        lemma_str_lt_skip(a.drop_first(), b.drop_first(), i - 1);
        assert(a.drop_first().skip(i - 1) =~= a.skip(i));
        assert(b.drop_first().skip(i - 1) =~= b.skip(i));
    } else {
        assert(a.skip(0) =~= a);
        assert(b.skip(0) =~= b);
    }
}

proof fn lemma_seg_lt_skip(a: Seq<Seq<char>>, b: Seq<Seq<char>>, i: int)
    requires
        0 <= i <= a.len(),
        i <= b.len(),
        forall|k: int| 0 <= k < i ==> a[k] == b[k],
    ensures
        seg_lt(a, b) == seg_lt(a.skip(i), b.skip(i)),
    decreases i,
{
    if i > 0 {
        assert(a.len() > 0 && b.len() > 0);
        assert(a[0] == b[0]);
        lemma_seg_lt_skip(a.drop_first(), b.drop_first(), i - 1);
        assert(a.drop_first().skip(i - 1) =~= a.skip(i));
        assert(b.drop_first().skip(i - 1) =~= b.skip(i));
    } else {
        assert(a.skip(0) =~= a);
        assert(b.skip(0) =~= b);
    }
}

/// Three-way comparison of two string slices: negative, zero or positive as
/// `a` is below, equal to or above `b` in `str_lt` order.
pub fn str_cmp(a: &str, b: &str) -> (r: i8)
    ensures
        r == 0i8 <==> a@ == b@,
        r < 0i8 <==> str_lt(a@, b@),
        r > 0i8 <==> str_lt(b@, a@),
{
    let la = a.unicode_len();
    let lb = b.unicode_len();
    let mut i: usize = 0;
    while i < la && i < lb
        invariant
            0 <= i <= la,
            i <= lb,
            la == a@.len(),
            lb == b@.len(),
            forall|k: int| 0 <= k < i ==> a@[k] == b@[k],
        decreases la - i,
    {
        let ca = a.get_char(i);
        let cb = b.get_char(i);
        if ca != cb {
            proof {
                lemma_str_lt_skip(a@, b@, i as int);
                lemma_str_lt_skip(b@, a@, i as int);
                assert(a@.skip(i as int)[0] == a@[i as int]);
                assert(b@.skip(i as int)[0] == b@[i as int]);
                assert(a@ != b@) by {
                    if a@ == b@ {
                        assert(a@[i as int] == b@[i as int]);
                    }
                }
            }
            if (ca as u32) < (cb as u32) {
                return -1;
            } else {
                return 1;
            }
        }
        i += 1;
    }
    proof {
        lemma_str_lt_skip(a@, b@, i as int);
        lemma_str_lt_skip(b@, a@, i as int);
        if la == lb {
            assert(a@ =~= b@);
        } else if la < lb {
            assert(a@.skip(i as int).len() == 0);
            assert(b@.skip(i as int).len() > 0);
            assert(a@ != b@) by {
                if a@ == b@ {
                    assert(a@.len() == b@.len());
                }
            }
        } else {
            assert(b@.skip(i as int).len() == 0);
            assert(a@.skip(i as int).len() > 0);
            assert(a@ != b@) by {
                if a@ == b@ {
                    assert(a@.len() == b@.len());
                }
            }
        }
    }
    if la == lb {
        0
    } else if la < lb {
        -1
    } else {
        1
    }
}

/// Equality of two string slices by contents.
pub fn str_eq(a: &str, b: &str) -> (r: bool)
    ensures
        r == (a@ == b@),
{
    str_cmp(a, b) == 0
}

/// Three-way comparison of two segment vectors in `seg_lt` order over their
/// deep views.
pub fn seg_cmp(a: &Vec<String>, b: &Vec<String>) -> (r: i8)
    ensures
        r == 0i8 <==> a.deep_view() == b.deep_view(),
        r < 0i8 <==> seg_lt(a.deep_view(), b.deep_view()),
        r > 0i8 <==> seg_lt(b.deep_view(), a.deep_view()),
{
    let ghost av = a.deep_view();
    let ghost bv = b.deep_view();
    proof {
        assert(av.len() == a@.len());
        assert(bv.len() == b@.len());
    }
    let mut i: usize = 0;
    while i < a.len() && i < b.len()
        invariant
            0 <= i <= a.len(),
            i <= b.len(),
            av == a.deep_view(),
            bv == b.deep_view(),
            av.len() == a@.len(),
            bv.len() == b@.len(),
            forall|k: int| 0 <= k < i ==> av[k] == bv[k],
        decreases a.len() - i,
    {
        let c = str_cmp(a[i].as_str(), b[i].as_str());
        proof {
            assert(av[i as int] == a@[i as int]@);
            assert(bv[i as int] == b@[i as int]@);
        }
        if c != 0 {
            proof {
                lemma_seg_lt_skip(av, bv, i as int);
                lemma_seg_lt_skip(bv, av, i as int);
                assert(av.skip(i as int)[0] == av[i as int]);
                assert(bv.skip(i as int)[0] == bv[i as int]);
                assert(av != bv) by {
                    if av == bv {
                        assert(av[i as int] == bv[i as int]);
                    }
                }
            }
            if c < 0 {
                return -1;
            } else {
                return 1;
            }
        }
        i += 1;
    }
    proof {
        lemma_seg_lt_skip(av, bv, i as int);
        lemma_seg_lt_skip(bv, av, i as int);
        if a.len() == b.len() {
            assert(av =~= bv);
        } else if a.len() < b.len() {
            assert(av.skip(i as int).len() == 0);
            assert(bv.skip(i as int).len() > 0);
            assert(av != bv) by {
                if av == bv {
                    assert(av.len() == bv.len());
                }
            }
        } else {
            assert(bv.skip(i as int).len() == 0);
            assert(av.skip(i as int).len() > 0);
            assert(av != bv) by {
                if av == bv {
                    assert(av.len() == bv.len());
                }
            }
        }
    }
    if a.len() == b.len() {
        0
    } else if a.len() < b.len() {
        -1
    } else {
        1
    }
}

/// `a` is a (not necessarily strict) prefix of `b`.
pub open spec fn is_seg_prefix(a: Seq<Seq<char>>, b: Seq<Seq<char>>) -> bool {
    a.len() <= b.len() && forall|i: int| 0 <= i < a.len() ==> a[i] == b[i]
}

/// Whether the segments of `a` form a strict prefix of the segments of `b`.
pub fn is_strict_seg_prefix(a: &Vec<String>, b: &Vec<String>) -> (r: bool)
    ensures
        r == (a.deep_view().len() < b.deep_view().len() && is_seg_prefix(
            a.deep_view(),
            b.deep_view(),
        )),
{
    let ghost av = a.deep_view();
    let ghost bv = b.deep_view();
    proof {
        assert(av.len() == a@.len());
        assert(bv.len() == b@.len());
    }
    if a.len() >= b.len() {
        return false;
    }
    let mut i: usize = 0;
    while i < a.len()
        invariant
            0 <= i <= a.len(),
            a.len() < b.len(),
            av == a.deep_view(),
            bv == b.deep_view(),
            av.len() == a@.len(),
            bv.len() == b@.len(),
            forall|k: int| 0 <= k < i ==> av[k] == bv[k],
        decreases a.len() - i,
    {
        proof {
            assert(av[i as int] == a@[i as int]@);
            assert(bv[i as int] == b@[i as int]@);
        }
        if !str_eq(a[i].as_str(), b[i].as_str()) {
            return false;
        }
        i += 1;
    }
    true
}

/// Equality of two segment vectors by contents.
pub fn seg_eq(a: &Vec<String>, b: &Vec<String>) -> (r: bool)
    ensures
        r == (a.deep_view() == b.deep_view()),
{
    seg_cmp(a, b) == 0
}

/// The absolute path obtained by appending `/<segment>` to `root` for each
/// segment in order.
pub open spec fn join_path(root: Seq<char>, segs: Seq<Seq<char>>) -> Seq<char>
    decreases segs.len(),
{
    if segs.len() == 0 {
        root
    } else {
        join_path(root, segs.drop_last()) + seq!['/'] + segs.last()
    }
}

/// Joins `root` and the segments with `/` separators.
pub fn join_full_path(root: &str, segs: &Vec<String>) -> (r: String)
    ensures
        r@ == join_path(root@, segs.deep_view()),
{
    let ghost sv = segs.deep_view();
    proof {
        assert(sv.len() == segs@.len());
    }
    let mut out = String::from_str(root);
    let mut i: usize = 0;
    while i < segs.len()
        invariant
            0 <= i <= segs.len(),
            sv == segs.deep_view(),
            sv.len() == segs@.len(),
            out@ == join_path(root@, sv.take(i as int)),
        decreases segs.len() - i,
    {
        proof {
            assert(sv[i as int] == segs@[i as int]@);
        }
        out.append("/");
        out.append(segs[i].as_str());
        proof {
            let t1 = sv.take(i as int + 1);
            assert(t1.drop_last() =~= sv.take(i as int));
            assert(t1.last() == sv[i as int]);
            reveal_strlit("/");
            assert(out@ =~= join_path(root@, t1));
        }
        i += 1;
    }
    proof {
        assert(sv.take(sv.len() as int) =~= sv);
    }
    out
}

/// `a` is a prefix of `b`.
pub open spec fn is_str_prefix(a: Seq<char>, b: Seq<char>) -> bool {
    a.len() <= b.len() && b.subrange(0, a.len() as int) == a
}

/// Whether `s` starts with `prefix`, by contents.
pub fn str_starts_with(s: &str, prefix: &str) -> (r: bool)
    ensures
        r == is_str_prefix(prefix@, s@),
{
    let ls = s.unicode_len();
    let lp = prefix.unicode_len();
    if lp > ls {
        proof {
            assert(!is_str_prefix(prefix@, s@));
        }
        return false;
    }
    let mut i: usize = 0;
    while i < lp
        invariant
            0 <= i <= lp,
            lp <= ls,
            ls == s@.len(),
            lp == prefix@.len(),
            forall|k: int| 0 <= k < i ==> s@[k] == prefix@[k],
        decreases lp - i,
    {
        if s.get_char(i) != prefix.get_char(i) {
            proof {
                assert(!is_str_prefix(prefix@, s@)) by {
                    if is_str_prefix(prefix@, s@) {
                        assert(s@.subrange(0, lp as int)[i as int] == prefix@[i as int]);
                    }
                }
            }
            return false;
        }
        i += 1;
    }
    proof {
        assert(s@.subrange(0, lp as int) =~= prefix@);
    }
    true
}

/// The concatenation of two string slices.
pub fn str_concat(a: &str, b: &str) -> (r: String)
    ensures
        r@ == a@ + b@,
{
    let mut s = String::from_str(a);
    s.append(b);
    s
}

/// The decimal digit character for `d`.
pub open spec fn dec_digit(d: int) -> char {
    if d == 0 {
        '0'
    } else if d == 1 {
        '1'
    } else if d == 2 {
        '2'
    } else if d == 3 {
        '3'
    } else if d == 4 {
        '4'
    } else if d == 5 {
        '5'
    } else if d == 6 {
        '6'
    } else if d == 7 {
        '7'
    } else if d == 8 {
        '8'
    } else {
        '9'
    }
}

/// The decimal representation of a non-negative integer, without leading
/// zeros (`0` itself is "0").
pub open spec fn dec_str(n: int) -> Seq<char>
    decreases n,
{
    if n < 10 {
        seq![dec_digit(if n < 0 { 0 } else { n })]
    } else {
        dec_str(n / 10).push(dec_digit(n % 10))
    }
}

/// Appends the digit character for `d` to `s`.
fn append_digit(s: &mut String, d: u64)
    requires
        d < 10,
    ensures
        final(s)@ == old(s)@.push(dec_digit(d as int)),
{
    proof {
        reveal_strlit("0");
        reveal_strlit("1");
        reveal_strlit("2");
        reveal_strlit("3");
        reveal_strlit("4");
        reveal_strlit("5");
        reveal_strlit("6");
        reveal_strlit("7");
        reveal_strlit("8");
        reveal_strlit("9");
    }
    if d == 0 {
        s.append("0");
    } else if d == 1 {
        s.append("1");
    } else if d == 2 {
        s.append("2");
    } else if d == 3 {
        s.append("3");
    } else if d == 4 {
        s.append("4");
    } else if d == 5 {
        s.append("5");
    } else if d == 6 {
        s.append("6");
    } else if d == 7 {
        s.append("7");
    } else if d == 8 {
        s.append("8");
    } else {
        s.append("9");
    }
    proof {
        assert(s@ =~= old(s)@.push(dec_digit(d as int)));
    }
}

/// Formats `n` in decimal.
pub fn u64_to_dec(n: u64) -> (r: String)
    ensures
        r@ == dec_str(n as int),
    decreases n,
{
    if n < 10 {
        let mut s = String::new();
        append_digit(&mut s, n);
        proof {
            assert(s@ =~= dec_str(n as int));
        }
        s
    } else {
        let mut s = u64_to_dec(n / 10);
        append_digit(&mut s, n % 10);
        s
    }
}

/// All characters are decimal digits.
pub open spec fn all_dec_digits(s: Seq<char>) -> bool {
    forall|i: int| 0 <= i < s.len() ==> '0' <= #[trigger] s[i] <= '9'
}

/// The non-negative integer denoted by a digit string.
pub open spec fn dec_val(s: Seq<char>) -> int
    decreases s.len(),
{
    if s.len() == 0 {
        0
    } else {
        dec_val(s.drop_last()) * 10 + (s.last() as int - '0' as int)
    }
}

pub proof fn lemma_dec_val_nonneg(s: Seq<char>)
    requires
        all_dec_digits(s),
    ensures
        dec_val(s) >= 0,
    decreases s.len(),
{
    if s.len() > 0 {
        assert(all_dec_digits(s.drop_last())) by {
            assert(forall|i: int| 0 <= i < s.len() - 1 ==> s.drop_last()[i] == s[i]);
        }
        lemma_dec_val_nonneg(s.drop_last());
    }
}

proof fn lemma_dec_val_monotone(s: Seq<char>, k: int)
    requires
        all_dec_digits(s),
        0 <= k <= s.len(),
    ensures
        dec_val(s) >= dec_val(s.take(k)),
    decreases s.len() - k,
{
    if k < s.len() {
        lemma_dec_val_monotone(s, k + 1);
        let t1 = s.take(k + 1);
        assert(t1.drop_last() =~= s.take(k));
        assert(t1.last() == s[k]);
        assert(all_dec_digits(s.take(k))) by {
            assert(forall|i: int| 0 <= i < k ==> s.take(k)[i] == s[i]);
        }
        lemma_dec_val_nonneg(s.take(k));
        assert(dec_val(t1) == dec_val(s.take(k)) * 10 + (s[k] as int - '0' as int));
        assert(dec_val(t1) >= dec_val(s.take(k)));
    } else {
        assert(s.take(k) =~= s);
    }
}

/// What parsing a decimal string as an `i32` yields: an optional sign, one
/// or more digits, and a value within range, exactly as the standard
/// integer parser accepts.
pub open spec fn parse_i32_spec(s: Seq<char>) -> Option<i32> {
    if s.len() == 0 {
        Option::None
    } else {
        let negative = s[0] == '-';
        let digits = if s[0] == '-' || s[0] == '+' {
            s.drop_first()
        } else {
            s
        };
        if digits.len() == 0 || !all_dec_digits(digits) {
            Option::None
        } else {
            let v = if negative {
                -dec_val(digits)
            } else {
                dec_val(digits)
            };
            if i32::MIN <= v <= i32::MAX {
                Some(v as i32)
            } else {
                Option::None
            }
        }
    }
}

/// Parses a decimal integer, as the standard `i32` parser does.
pub fn parse_i32(s: &str) -> (r: Option<i32>)
    ensures
        r == parse_i32_spec(s@),
{
    let len = s.unicode_len();
    if len == 0 {
        return None;
    }
    let first = s.get_char(0);
    let negative = first == '-';
    let start: usize = if first == '-' || first == '+' {
        1
    } else {
        0
    };
    let ghost digits = if s@[0] == '-' || s@[0] == '+' {
        s@.drop_first()
    } else {
        s@
    };
    proof {
        assert(digits.len() == len - start);
        assert(forall|i: int| 0 <= i < digits.len() ==> digits[i] == s@[i + start]);
    }
    if start == len {
        return None;
    }
    let limit: i64 = if negative {
        2147483648
    } else {
        2147483647
    };
    let mut acc: i64 = 0;
    let mut over: bool = false;
    let mut i: usize = start;
    while i < len
        invariant
            start <= i <= len,
            len == s@.len(),
            start == if s@[0] == '-' || s@[0] == '+' {
                1int
            } else {
                0int
            },
            digits == (if s@[0] == '-' || s@[0] == '+' {
                s@.drop_first()
            } else {
                s@
            }),
            digits.len() == len - start,
            forall|k: int| 0 <= k < digits.len() ==> digits[k] == s@[k + start],
            forall|k: int| 0 <= k < i - start ==> '0' <= #[trigger] digits[k] <= '9',
            limit == 2147483647int + if negative {
                1int
            } else {
                0int
            },
            !over ==> acc == dec_val(digits.take(i - start)) && 0 <= acc <= limit,
            over ==> dec_val(digits.take(i - start)) > limit && all_dec_digits(
                digits.take(i - start),
            ),
        decreases len - i,
    {
        let c = s.get_char(i);
        if c < '0' || c > '9' {
            proof {
                assert(digits[i - start] == c);
                assert(!all_dec_digits(digits));
            }
            return None;
        }
        let d = (c as u32) - 48;
        let ghost prev = digits.take(i - start);
        proof {
            let t1 = digits.take(i + 1 - start);
            assert(t1.drop_last() =~= prev);
            assert(t1.last() == digits[i - start]);
            assert(digits[i - start] == c);
            assert(all_dec_digits(t1)) by {
                assert(forall|k: int| 0 <= k < t1.len() - 1 ==> t1[k] == prev[k]);
            }
        }
        if over {
            proof {
                lemma_dec_val_nonneg(prev);
                assert(dec_val(digits.take(i + 1 - start)) == dec_val(prev) * 10 + (c as int
                    - '0' as int));
            }
        } else {
            let next: i64 = acc * 10 + (d as i64);
            proof {
                assert(next == dec_val(digits.take(i + 1 - start)));
            }
            if next > limit {
                over = true;
            } else {
                acc = next;
            }
        }
        i += 1;
    }
    proof {
        assert(digits.take(i - start) =~= digits);
        assert(all_dec_digits(digits));
    }
    if over {
        proof {
            if negative {
                assert(-dec_val(digits) < i32::MIN);
            } else {
                assert(dec_val(digits) > i32::MAX);
            }
        }
        None
    } else {
        if negative {
            Some((-acc) as i32)
        } else {
            Some(acc as i32)
        }
    }
}

} // verus!
