//! The token wire protocol.
//!
//! A frame is ASCII text: whitespace-separated tokens, the first a numeric
//! message tag. Client events carry a comma-joined coordinate triple
//! (`1.5,0,-2.25`); coordinates are decimal literals with up to three
//! fraction digits, parsed into milli-units. Server messages are built
//! here byte by byte, including the JSON-shaped world snapshot sent to a
//! newly connected client.

use vstd::prelude::*;

use crate::state::UserState;
use crate::vec3::COORD_LIMIT;
use crate::vec3::Vec3;
use crate::vec3::coord_in_range;

verus! {

/// Token-separating whitespace: space, tab, line feed, carriage return.
pub open spec fn is_ws(b: u8) -> bool {
    b == 32 || b == 9 || b == 10 || b == 13
}

/// ASCII decimal digit.
pub open spec fn is_digit(b: u8) -> bool {
    48 <= b <= 57
}

/// Longest prefix of `s` whose bytes all satisfy `p`.
pub open spec fn take_while(s: Seq<u8>, p: spec_fn(u8) -> bool) -> Seq<u8>
    decreases s.len(),
{
    if s.len() > 0 && p(s[0]) {
        seq![s[0]] + take_while(s.drop_first(), p)
    } else {
        Seq::empty()
    }
}

/// The longest all-`p` prefix is `s.subrange(0, k)` when the first `k`
/// bytes satisfy `p` and byte `k` (if any) does not.
pub proof fn lemma_take_while_at(s: Seq<u8>, p: spec_fn(u8) -> bool, k: int)
    requires
        0 <= k <= s.len(),
        forall|m: int| 0 <= m < k ==> p(#[trigger] s[m]),
        k == s.len() || !p(s[k]),
    ensures
        take_while(s, p) == s.subrange(0, k),
        take_while(s, p).len() == k,
    decreases k,
{
    if k == 0 {
        assert(take_while(s, p) =~= s.subrange(0, 0));
    } else {
        let t = s.drop_first();
        assert(forall|m: int| 0 <= m < k - 1 ==> p(#[trigger] t[m]) && t[m] == s[m + 1]);
        lemma_take_while_at(t, p, k - 1);
        assert(take_while(s, p) =~= s.subrange(0, k));
    }
}

/// Any all-`p` prefix of `s` is a prefix of the longest one.
pub proof fn lemma_take_while_prefix(s: Seq<u8>, p: spec_fn(u8) -> bool, j: int)
    requires
        0 <= j <= s.len(),
        forall|m: int| 0 <= m < j ==> p(#[trigger] s[m]),
    ensures
        take_while(s, p).len() >= j,
        take_while(s, p).subrange(0, j) == s.subrange(0, j),
    decreases j,
{
    if j == 0 {
        assert(take_while(s, p).subrange(0, 0) =~= s.subrange(0, 0));
    } else {
        let t = s.drop_first();
        assert(forall|m: int| 0 <= m < j - 1 ==> p(#[trigger] t[m]) && t[m] == s[m + 1]);
        lemma_take_while_prefix(t, p, j - 1);
        assert(p(s[0]));
        assert(take_while(s, p) == seq![s[0]] + take_while(t, p));
        assert forall|m: int| 0 <= m < j implies take_while(s, p).subrange(0, j)[m] == s.subrange(
            0,
            j,
        )[m] by {
            if m > 0 {
                assert(take_while(t, p).subrange(0, j - 1)[m - 1] == t.subrange(0, j - 1)[m - 1]);
            }
        }
        assert(take_while(s, p).subrange(0, j) =~= s.subrange(0, j));
    }
}

/// Every byte of the longest all-`p` prefix satisfies `p`, and the
/// prefix is no longer than `s`.
pub proof fn lemma_take_while_all(s: Seq<u8>, p: spec_fn(u8) -> bool)
    ensures
        take_while(s, p).len() <= s.len(),
        forall|m: int| 0 <= m < take_while(s, p).len() ==> p(#[trigger] take_while(s, p)[m]),
    decreases s.len(),
{
    if s.len() > 0 && p(s[0]) {
        lemma_take_while_all(s.drop_first(), p);
    }
}

/// One whitespace-separated token: the longest non-whitespace prefix.
pub open spec fn take_tok(s: Seq<u8>) -> Seq<u8> {
    take_while(s, |b: u8| !is_ws(b))
}

/// The whitespace-separated tokens of `s`, in order.
pub open spec fn spec_tokens(s: Seq<u8>) -> Seq<Seq<u8>>
    decreases s.len(),
    via spec_tokens_dec
{
    if s.len() == 0 {
        Seq::empty()
    } else if is_ws(s[0]) {
        spec_tokens(s.drop_first())
    } else {
        seq![take_tok(s)] + spec_tokens(s.skip(take_tok(s).len() as int))
    }
}

#[via_fn]
proof fn spec_tokens_dec(s: Seq<u8>) {
    if s.len() > 0 && !is_ws(s[0]) {
        let p = |b: u8| !is_ws(b);
        lemma_take_while_all(s, p);
        assert(take_tok(s).len() >= 1) by {
            assert(p(s[0]));
        }
    }
}

/// A copy of `s[a..b]`.
pub fn subrange_vec(s: &Vec<u8>, a: usize, b: usize) -> (r: Vec<u8>)
    requires
        a <= b <= s@.len(),
    ensures
        r@ == s@.subrange(a as int, b as int),
{
    let mut out: Vec<u8> = Vec::new();
    let mut i: usize = a;
    while i < b
        invariant
            a <= i <= b <= s@.len(),
            out@ == s@.subrange(a as int, i as int),
        decreases b - i,
    {
        out.push(s[i]);
        proof {
            assert(out@ =~= s@.subrange(a as int, i as int + 1));
        }
        i += 1;
    }
    out
}

/// Split `s` into its whitespace-separated tokens.
#[verifier::loop_isolation(false)]
pub fn tokenize(s: &Vec<u8>) -> (r: Vec<Vec<u8>>)
    ensures
        r@.map_values(|t: Vec<u8>| t@) == spec_tokens(s@),
{
    let ghost p = |b: u8| !is_ws(b);
    let n = s.len();
    let mut out: Vec<Vec<u8>> = Vec::new();
    let mut i: usize = 0;
    proof {
        assert(s@.skip(0) =~= s@);
        assert(out@.map_values(|t: Vec<u8>| t@) + spec_tokens(s@) =~= spec_tokens(s@));
    }
    while i < n
        invariant
            0 <= i <= n,
            spec_tokens(s@) == out@.map_values(|t: Vec<u8>| t@) + spec_tokens(
                s@.skip(i as int),
            ),
        decreases n - i,
    {
        let c = s[i];
        if c == 32 || c == 9 || c == 10 || c == 13 {
            proof {
                assert(s@.skip(i as int).drop_first() =~= s@.skip(i as int + 1));
                assert(spec_tokens(s@.skip(i as int)) == spec_tokens(s@.skip(i as int + 1)));
            }
            i += 1;
        } else {
            let mut j: usize = i + 1;
            while j < n && !(s[j] == 32 || s[j] == 9 || s[j] == 10 || s[j] == 13)
                invariant
                    i < j <= n,
                    forall|m: int| i <= m < j ==> !is_ws(#[trigger] s@[m]),
                decreases n - j,
            {
                j += 1;
            }
            let tok = subrange_vec(s, i, j);
            proof {
                let rem = s@.skip(i as int);
                assert(forall|m: int| 0 <= m < j - i ==> rem[m] == s@[m + i] && p(rem[m]));
                assert(j - i == rem.len() || !p(rem[j - i]));
                lemma_take_while_at(rem, p, j - i);
                assert(take_tok(rem) == rem.subrange(0, j - i));
                assert(rem.subrange(0, j - i) =~= s@.subrange(i as int, j as int));
                assert(rem.skip(j - i) =~= s@.skip(j as int));
                assert(spec_tokens(rem) == seq![tok@] + spec_tokens(s@.skip(j as int)));
            }
            let ghost mprev = out@.map_values(|t: Vec<u8>| t@);
            out.push(tok);
            proof {
                assert(out@.map_values(|t: Vec<u8>| t@) =~= mprev.push(tok@));
            }
            i = j;
        }
    }
    proof {
        assert(s@.skip(n as int) =~= Seq::<u8>::empty());
        assert(spec_tokens(s@.skip(n as int)) == Seq::<Seq<u8>>::empty());
        assert(spec_tokens(s@) =~= out@.map_values(|t: Vec<u8>| t@));
    }
    out
}

/// Value of a digit string read most-significant first.
pub open spec fn digits_val(s: Seq<u8>) -> int
    decreases s.len(),
{
    if s.len() == 0 {
        0
    } else {
        digits_val(s.drop_last()) * 10 + (s.last() - 48)
    }
}

/// Ten to the `k`.
pub open spec fn pow10(k: nat) -> int
    decreases k,
{
    if k == 0 {
        1
    } else {
        10 * pow10((k - 1) as nat)
    }
}

/// Longest digit prefix.
pub open spec fn take_digits(s: Seq<u8>) -> Seq<u8> {
    take_while(s, |b: u8| is_digit(b))
}

/// Milli-unit value of an unsigned decimal literal: one or more digits,
/// then optionally a point and one to three fraction digits.
pub open spec fn unsigned_coord_val(s: Seq<u8>) -> Option<int> {
    let d = take_digits(s);
    let rest = s.skip(d.len() as int);
    if d.len() == 0 {
        None
    } else if rest.len() == 0 {
        Some(1000 * digits_val(d))
    } else if rest[0] == 46 {
        let f = take_digits(rest.drop_first());
        if 1 <= f.len() <= 3 && rest.len() == 1 + f.len() {
            Some(1000 * digits_val(d) + digits_val(f) * pow10((3 - f.len()) as nat))
        } else {
            None
        }
    } else {
        None
    }
}

/// Milli-unit value of a decimal literal with an optional leading minus.
pub open spec fn coord_val(s: Seq<u8>) -> Option<int> {
    if s.len() > 0 && s[0] == 45 {
        match unsigned_coord_val(s.drop_first()) {
            Some(v) => Some(-v),
            None => None,
        }
    } else {
        unsigned_coord_val(s)
    }
}

/// What coordinate parsing returns: the milli-unit value when the
/// literal is well formed and within the coordinate bounds.
pub open spec fn parse_coord_spec(s: Seq<u8>) -> Option<i64> {
    match coord_val(s) {
        Some(v) => if coord_in_range(v) {
            Some(v as i64)
        } else {
            None
        },
        None => None,
    }
}

/// A digit string's value is not negative.
proof fn lemma_digits_val_nonneg(s: Seq<u8>)
    requires
        forall|m: int| 0 <= m < s.len() ==> is_digit(#[trigger] s[m]),
    ensures
        digits_val(s) >= 0,
    decreases s.len(),
{
    if s.len() > 0 {
        assert(forall|m: int|
            0 <= m < s.drop_last().len() ==> #[trigger] s.drop_last()[m] == s[m]);
        lemma_digits_val_nonneg(s.drop_last());
    }
}

/// Extending a digit string multiplies its value up: the whole string
/// is worth at least any prefix.
proof fn lemma_digits_val_mono(s: Seq<u8>, i: int)
    requires
        0 <= i <= s.len(),
        forall|m: int| 0 <= m < s.len() ==> is_digit(#[trigger] s[m]),
    ensures
        digits_val(s) >= digits_val(s.subrange(0, i)),
        digits_val(s) >= 0,
    decreases s.len() - i,
{
    lemma_digits_val_nonneg(s);
    if i == s.len() {
        assert(s.subrange(0, i) =~= s);
    } else {
        lemma_digits_val_mono(s, i + 1);
        let a = s.subrange(0, i + 1);
        assert(a.drop_last() =~= s.subrange(0, i));
        assert(forall|m: int| 0 <= m < i ==> #[trigger] s.subrange(0, i)[m] == s[m]);
        lemma_digits_val_nonneg(s.subrange(0, i));
        assert(digits_val(a) == digits_val(s.subrange(0, i)) * 10 + (s[i] - 48));
    }
}

/// One more digit appends to the value: `subrange(0, i + 1)` is worth
/// ten times `subrange(0, i)` plus the new digit.
proof fn lemma_digits_val_step(s: Seq<u8>, i: int)
    requires
        0 <= i < s.len(),
    ensures
        digits_val(s.subrange(0, i + 1)) == digits_val(s.subrange(0, i)) * 10 + (s[i] - 48),
{
    let a = s.subrange(0, i + 1);
    assert(a.drop_last() =~= s.subrange(0, i));
    assert(a.last() == s[i]);
}

/// An all-digit string of length `n` is worth less than ten to the `n`.
proof fn lemma_digits_val_bound(s: Seq<u8>)
    requires
        forall|m: int| 0 <= m < s.len() ==> is_digit(#[trigger] s[m]),
    ensures
        0 <= digits_val(s) < pow10(s.len()),
    decreases s.len(),
{
    if s.len() == 0 {
    } else {
        assert(forall|m: int|
            0 <= m < s.drop_last().len() ==> #[trigger] s.drop_last()[m] == s[m]);
        lemma_digits_val_bound(s.drop_last());
        let p = pow10((s.len() - 1) as nat);
        assert(digits_val(s) == digits_val(s.drop_last()) * 10 + (s.last() - 48));
        assert(digits_val(s.drop_last()) * 10 + 9 < p * 10) by (nonlinear_arith)
            requires
                digits_val(s.drop_last()) < p,
        {
        }
        assert(pow10(s.len()) == 10 * p);
    }
}

/// When the leading digit run is already worth more than the largest
/// coordinate's unit part, the whole literal is out of range.
proof fn lemma_unsigned_overflow(u: Seq<u8>, k: int)
    requires
        0 <= k <= u.len(),
        forall|m: int| 0 <= m < k ==> is_digit(#[trigger] u[m]),
        digits_val(u.subrange(0, k)) > 1_000_000_000_000,
    ensures
        unsigned_coord_val(u) is Some ==> unsigned_coord_val(u)->Some_0 > COORD_LIMIT as int,
{
    let q = |b: u8| is_digit(b);
    lemma_take_while_prefix(u, q, k);
    lemma_take_while_all(u, q);
    let d = take_digits(u);
    assert(d.subrange(0, k) == u.subrange(0, k));
    lemma_digits_val_mono(d, k);
    assert(digits_val(d) > 1_000_000_000_000);
    if unsigned_coord_val(u) is Some {
        let v0 = unsigned_coord_val(u)->Some_0;
        let f = take_digits(u.skip(d.len() as int).drop_first());
        lemma_take_while_all(u.skip(d.len() as int).drop_first(), q);
        lemma_digits_val_nonneg(f);
        lemma_pow10_nonneg((3 - f.len()) as nat);
        assert(v0 > 1000 * 1_000_000_000_000) by (nonlinear_arith)
            requires
                digits_val(f) >= 0,
                digits_val(d) > 1_000_000_000_000,
                v0 == 1000 * digits_val(d) || v0 == 1000 * digits_val(d) + digits_val(f) * pow10(
                    (3 - f.len()) as nat,
                ),
                pow10((3 - f.len()) as nat) >= 1,
        {
        }
    }
}

/// Parse one coordinate token into milli-units.
#[verifier::loop_isolation(false)]
#[verifier::rlimit(60)]
pub fn parse_coord(t: &Vec<u8>) -> (r: Option<i64>)
    ensures
        r == parse_coord_spec(t@),
{
    let ghost q = |b: u8| is_digit(b);
    let n = t.len();
    let neg = n > 0 && t[0] == 45;
    let start: usize = if neg {
        1
    } else {
        0
    };
    let ghost u = t@.skip(start as int);
    proof {
        if neg {
            assert(t@.drop_first() =~= u);
        } else {
            assert(t@.skip(0) =~= t@);
        }
    }
    let mut i: usize = start;
    let mut acc: i64 = 0;
    while i < n && 48 <= t[i] && t[i] <= 57
        invariant
            start <= i <= n,
            0 <= acc <= 10_000_000_000_009,
            forall|m: int| start <= m < i ==> is_digit(#[trigger] t@[m]),
            acc == digits_val(t@.subrange(start as int, i as int)),
        decreases n - i,
    {
        if acc > 1_000_000_000_000 {
            proof {
                assert(forall|m: int|
                    0 <= m < i - start ==> is_digit(#[trigger] u[m]) && u[m] == t@[m + start]);
                assert(u.subrange(0, i - start) =~= t@.subrange(start as int, i as int));
                lemma_unsigned_overflow(u, i - start);
            }
            return None;
        }
        let d0 = t[i] - 48;
        proof {
            lemma_digits_val_step(t@.subrange(start as int, n as int), i - start);
            assert(t@.subrange(start as int, n as int).subrange(0, i - start) =~= t@.subrange(
                start as int,
                i as int,
            ));
            assert(t@.subrange(start as int, n as int).subrange(0, i + 1 - start) =~= t@.subrange(
                start as int,
                i as int + 1,
            ));
            assert(t@.subrange(start as int, n as int)[i - start] == t@[i as int]);
        }
        acc = acc * 10 + d0 as i64;
        i += 1;
    }
    proof {
        assert(forall|m: int|
            0 <= m < i - start ==> q(#[trigger] u[m]) && u[m] == t@[m + start]);
        assert(i - start == u.len() || !q(u[i - start]));
        lemma_take_while_at(u, q, i - start);
        assert(take_digits(u) =~= t@.subrange(start as int, i as int));
    }
    if i == start {
        return None;
    }
    if acc > 1_000_000_000_000 {
        proof {
            assert(u.subrange(0, i - start) =~= take_digits(u));
            lemma_unsigned_overflow(u, i - start);
        }
        return None;
    }
    if i == n {
        let millis: i64 = acc * 1000;
        proof {
            assert(u.skip(i - start) =~= Seq::<u8>::empty());
            assert(unsigned_coord_val(u) == Some(1000 * acc as int));
        }
        if neg {
            return Some(-millis);
        }
        return Some(millis);
    }
    if t[i] != 46 {
        proof {
            assert(u.skip(i - start) =~= t@.skip(i as int));
            assert(t@.skip(i as int)[0] == t@[i as int]);
        }
        return None;
    }
    let ghost rest = u.skip(i - start);
    proof {
        assert(rest =~= t@.skip(i as int));
        assert(rest[0] == t@[i as int]);
        assert(rest.drop_first() =~= t@.skip(i as int + 1));
    }
    let mut j: usize = i + 1;
    let mut fv: i64 = 0;
    while j < n && 48 <= t[j] && t[j] <= 57 && j - i <= 3
        invariant
            i + 1 <= j <= n,
            j - i - 1 <= 3,
            0 <= fv <= 999,
            forall|m: int| i + 1 <= m < j ==> is_digit(#[trigger] t@[m]),
            fv == digits_val(t@.subrange(i as int + 1, j as int)),
        decreases n - j,
    {
        let d0 = t[j] - 48;
        proof {
            assert(forall|m: int|
                0 <= m < j - i - 1 ==> is_digit(#[trigger] t@.subrange(i as int + 1, j as int)[m]));
            lemma_digits_val_bound(t@.subrange(i as int + 1, j as int));
            assert(pow10(0) == 1);
            assert(pow10(1) == 10 * pow10(0));
            assert(pow10(2) == 10 * pow10(1));
            assert(pow10(3) == 10 * pow10(2));
            lemma_digits_val_step(t@.subrange(i as int + 1, n as int), j - i - 1);
            assert(t@.subrange(i as int + 1, n as int).subrange(0, j - i - 1) =~= t@.subrange(
                i as int + 1,
                j as int,
            ));
            assert(t@.subrange(i as int + 1, n as int).subrange(0, j - i) =~= t@.subrange(
                i as int + 1,
                j as int + 1,
            ));
            assert(t@.subrange(i as int + 1, n as int)[j - i - 1] == t@[j as int]);
        }
        fv = fv * 10 + d0 as i64;
        j += 1;
    }
    let flen = j - i - 1;
    let ghost fr = rest.drop_first();
    if j < n && 48 <= t[j] && t[j] <= 57 {
        // a fourth fraction digit: the literal is too precise
        proof {
            assert(forall|m: int|
                0 <= m < j + 1 - (i + 1) ==> q(#[trigger] fr[m]) && fr[m] == t@[m + i + 1]);
            lemma_take_while_prefix(fr, q, j + 1 - (i + 1));
            assert(take_digits(fr).len() >= 4);
        }
        return None;
    }
    proof {
        assert(forall|m: int|
            0 <= m < j - (i + 1) ==> q(#[trigger] fr[m]) && fr[m] == t@[m + i + 1]);
        assert(j - (i + 1) == fr.len() || !q(fr[j - (i + 1)]));
        lemma_take_while_at(fr, q, j - (i + 1));
        assert(take_digits(fr) =~= t@.subrange(i as int + 1, j as int));
    }
    if flen == 0 {
        return None;
    }
    if j < n {
        // stray bytes after the fraction digits
        proof {
            assert(rest.len() == n - i);
            assert(take_digits(fr).len() == flen);
        }
        return None;
    }
    let scale: i64 = if flen == 1 {
        100
    } else if flen == 2 {
        10
    } else {
        1
    };
    proof {
        assert(pow10(0) == 1);
        assert(pow10(1) == 10);
        assert(pow10(2) == 100);
        assert(scale as int == pow10((3 - flen) as nat));
    }
    let millis: i64 = acc * 1000 + fv * scale;
    proof {
        assert(unsigned_coord_val(u) == Some(1000 * acc as int + fv as int * scale as int));
    }
    if millis > COORD_LIMIT {
        return None;
    }
    if neg {
        Some(-millis)
    } else {
        Some(millis)
    }
}

proof fn lemma_pow10_nonneg(k: nat)
    ensures
        pow10(k) >= 1,
    decreases k,
{
    if k > 0 {
        lemma_pow10_nonneg((k - 1) as nat);
    }
}

/// One comma-separated field: the longest comma-free prefix.
pub open spec fn take_field(s: Seq<u8>) -> Seq<u8> {
    take_while(s, |b: u8| b != 44)
}

/// What triple parsing returns: three coordinate literals joined by
/// commas, each well formed and in range.
pub open spec fn parse_vec3_spec(s: Seq<u8>) -> Option<Vec3> {
    let f1 = take_field(s);
    let r1 = s.skip(f1.len() as int);
    if r1.len() == 0 {
        None
    } else {
        let f2 = take_field(r1.drop_first());
        let r2 = r1.drop_first().skip(f2.len() as int);
        if r2.len() == 0 {
            None
        } else {
            let f3 = r2.drop_first();
            match (parse_coord_spec(f1), parse_coord_spec(f2), parse_coord_spec(f3)) {
                (Some(x), Some(y), Some(z)) => Some(Vec3 { x, y, z }),
                _ => None,
            }
        }
    }
}

/// Parse a comma-joined coordinate triple.
#[verifier::loop_isolation(false)]
pub fn parse_vec3(t: &Vec<u8>) -> (r: Option<Vec3>)
    ensures
        r == parse_vec3_spec(t@),
{
    let ghost w = |b: u8| b != 44;
    let n = t.len();
    let mut c1: usize = 0;
    while c1 < n && t[c1] != 44
        invariant
            0 <= c1 <= n,
            forall|m: int| 0 <= m < c1 ==> #[trigger] t@[m] != 44,
        decreases n - c1,
    {
        c1 += 1;
    }
    proof {
        lemma_take_while_at(t@, w, c1 as int);
        assert(take_field(t@).len() == c1);
    }
    if c1 == n {
        proof {
            assert(t@.skip(c1 as int) =~= Seq::<u8>::empty());
        }
        return None;
    }
    let ghost r1 = t@.skip(c1 as int);
    proof {
        assert(r1.len() > 0);
        assert(r1.drop_first() =~= t@.skip(c1 as int + 1));
    }
    let mut c2: usize = c1 + 1;
    while c2 < n && t[c2] != 44
        invariant
            c1 + 1 <= c2 <= n,
            forall|m: int| c1 + 1 <= m < c2 ==> #[trigger] t@[m] != 44,
        decreases n - c2,
    {
        c2 += 1;
    }
    let ghost rem2 = t@.skip(c1 as int + 1);
    proof {
        assert(forall|m: int|
            0 <= m < c2 - c1 - 1 ==> #[trigger] rem2[m] == t@[m + c1 + 1] && w(rem2[m]));
        assert(c2 - c1 - 1 == rem2.len() || !w(rem2[c2 - c1 - 1]));
        lemma_take_while_at(rem2, w, c2 - c1 - 1);
        assert(take_field(rem2) =~= t@.subrange(c1 as int + 1, c2 as int));
        assert(rem2.skip(c2 - c1 - 1) =~= t@.skip(c2 as int));
    }
    if c2 == n {
        proof {
            assert(t@.skip(c2 as int) =~= Seq::<u8>::empty());
        }
        return None;
    }
    proof {
        assert(t@.skip(c2 as int).drop_first() =~= t@.subrange(c2 as int + 1, n as int));
        assert(take_field(t@) =~= t@.subrange(0, c1 as int));
    }
    let b1 = subrange_vec(t, 0, c1);
    let b2 = subrange_vec(t, c1 + 1, c2);
    let b3 = subrange_vec(t, c2 + 1, n);
    let v1 = parse_coord(&b1);
    let v2 = parse_coord(&b2);
    let v3 = parse_coord(&b3);
    match (v1, v2, v3) {
        (Some(x), Some(y), Some(z)) => Some(Vec3 { x, y, z }),
        _ => None,
    }
}

/// Decimal digits of `n`, most significant first.
pub open spec fn dec_of(n: nat) -> Seq<u8>
    decreases n,
{
    if n < 10 {
        seq![(48 + n) as u8]
    } else {
        dec_of(n / 10).push((48 + n % 10) as u8)
    }
}

/// Format an unsigned number in decimal.
pub fn fmt_u64(n: u64) -> (r: Vec<u8>)
    ensures
        r@ == dec_of(n as nat),
    decreases n,
{
    if n < 10 {
        let mut v: Vec<u8> = Vec::new();
        v.push(48 + n as u8);
        proof {
            assert(v@ =~= dec_of(n as nat));
        }
        v
    } else {
        let mut v = fmt_u64(n / 10);
        v.push(48 + (n % 10) as u8);
        v
    }
}

/// Format a connection identifier in decimal.
pub fn fmt_usize(n: usize) -> (r: Vec<u8>)
    ensures
        r@ == dec_of(n as nat),
{
    fmt_u64(n as u64)
}

/// Append `src` to `out`.
#[verifier::loop_isolation(false)]
pub fn append_bytes(out: &mut Vec<u8>, src: &Vec<u8>)
    ensures
        final(out)@ == old(out)@ + src@,
{
    let n = src.len();
    let mut i: usize = 0;
    proof {
        assert(out@ =~= old(out)@ + src@.subrange(0, 0));
    }
    while i < n
        invariant
            0 <= i <= n,
            out@ == old(out)@ + src@.subrange(0, i as int),
        decreases n - i,
    {
        out.push(src[i]);
        proof {
            assert(out@ =~= old(out)@ + src@.subrange(0, i as int + 1));
        }
        i += 1;
    }
    proof {
        assert(src@.subrange(0, n as int) =~= src@);
    }
}

/// Fraction digits of a milli remainder (1..=999), trailing zeros
/// dropped.
pub open spec fn frac_bytes(frac: int) -> Seq<u8> {
    let d1 = (48 + frac / 100) as u8;
    let d2 = (48 + (frac / 10) % 10) as u8;
    let d3 = (48 + frac % 10) as u8;
    if frac % 10 != 0 {
        seq![d1, d2, d3]
    } else if (frac / 10) % 10 != 0 {
        seq![d1, d2]
    } else {
        seq![d1]
    }
}

/// Decimal text of a non-negative milli-unit value.
pub open spec fn unsigned_coord_bytes(u: int) -> Seq<u8> {
    if u % 1000 == 0 {
        dec_of((u / 1000) as nat)
    } else {
        dec_of((u / 1000) as nat) + seq![46u8] + frac_bytes(u % 1000)
    }
}

/// Decimal text of a milli-unit coordinate, with a minus sign when
/// negative.
pub open spec fn coord_bytes(m: int) -> Seq<u8> {
    if m < 0 {
        seq![45u8] + unsigned_coord_bytes(-m)
    } else {
        unsigned_coord_bytes(m)
    }
}

/// Format one coordinate as decimal text.
pub fn fmt_coord(m: i64) -> (r: Vec<u8>)
    requires
        coord_in_range(m as int),
    ensures
        r@ == coord_bytes(m as int),
{
    let mut out: Vec<u8> = Vec::new();
    let u: i64 = if m < 0 {
        out.push(45);
        -m
    } else {
        m
    };
    let units: u64 = (u / 1000) as u64;
    let frac: u64 = (u % 1000) as u64;
    let d = fmt_u64(units);
    append_bytes(&mut out, &d);
    if frac != 0 {
        out.push(46);
        out.push(48 + (frac / 100) as u8);
        if frac % 10 != 0 {
            out.push(48 + ((frac / 10) % 10) as u8);
            out.push(48 + (frac % 10) as u8);
        } else if (frac / 10) % 10 != 0 {
            out.push(48 + ((frac / 10) % 10) as u8);
        }
    }
    proof {
        assert(out@ =~= coord_bytes(m as int));
    }
    out
}

/// The bytes `{"user_id":`.
pub open spec fn lit_user_obj_head() -> Seq<u8> {
    seq![123u8, 34u8, 117u8, 115u8, 101u8, 114u8, 95u8, 105u8, 100u8, 34u8, 58u8]
}

/// The bytes `,"position":`.
pub open spec fn lit_position() -> Seq<u8> {
    seq![44u8, 34u8, 112u8, 111u8, 115u8, 105u8, 116u8, 105u8, 111u8, 110u8, 34u8, 58u8]
}

/// The bytes `,"rotation":`.
pub open spec fn lit_rotation() -> Seq<u8> {
    seq![44u8, 34u8, 114u8, 111u8, 116u8, 97u8, 116u8, 105u8, 111u8, 110u8, 34u8, 58u8]
}

/// A transform vector as a JSON array of three coordinates.
pub open spec fn vec3_json(v: Vec3) -> Seq<u8> {
    seq![91u8] + coord_bytes(v.x as int) + seq![44u8] + coord_bytes(v.y as int) + seq![44u8]
        + coord_bytes(v.z as int) + seq![93u8]
}

/// One user's state as a JSON object.
pub open spec fn user_json(u: UserState) -> Seq<u8> {
    lit_user_obj_head() + dec_of(u.user_id as nat) + lit_position() + vec3_json(u.position)
        + lit_rotation() + vec3_json(u.rotation) + seq![125u8]
}

/// One snapshot entry: the identifier as a JSON key, then the state.
pub open spec fn user_entry(u: UserState) -> Seq<u8> {
    seq![34u8] + dec_of(u.user_id as nat) + seq![34u8, 58u8] + user_json(u)
}

/// The comma-joined snapshot entries, in storage order.
pub open spec fn users_entries(s: Seq<UserState>) -> Seq<u8>
    decreases s.len(),
{
    if s.len() == 0 {
        Seq::empty()
    } else if s.len() == 1 {
        user_entry(s[0])
    } else {
        users_entries(s.drop_last()) + seq![44u8] + user_entry(s.last())
    }
}

/// The whole snapshot as a JSON object keyed by identifier.
pub open spec fn users_json(s: Seq<UserState>) -> Seq<u8> {
    seq![123u8] + users_entries(s) + seq![125u8]
}

/// The init message sent only to a newly connected client: tag `0`, the
/// new identifier, then the snapshot.
pub open spec fn init_msg_spec(id: usize, users: Seq<UserState>) -> Seq<u8> {
    seq![48u8, 32u8] + dec_of(id as nat) + seq![32u8] + users_json(users)
}

/// The join broadcast: tag `1` and the new identifier.
pub open spec fn join_msg_spec(id: usize) -> Seq<u8> {
    seq![49u8, 32u8] + dec_of(id as nat)
}

/// The leave broadcast: tag `2` and the departed identifier.
pub open spec fn leave_msg_spec(id: usize) -> Seq<u8> {
    seq![50u8, 32u8] + dec_of(id as nat)
}

/// The move broadcast: tag `3`, the sender, and the sender's delta
/// token exactly as it arrived.
pub open spec fn move_msg_spec(id: usize, data: Seq<u8>) -> Seq<u8> {
    seq![51u8, 32u8] + dec_of(id as nat) + seq![32u8] + data
}

/// The rotate broadcast: tag `4`, the sender, and the delta token.
pub open spec fn rotate_msg_spec(id: usize, data: Seq<u8>) -> Seq<u8> {
    seq![52u8, 32u8] + dec_of(id as nat) + seq![32u8] + data
}

/// The shoot broadcast: tag `5`, the sender, and both payload tokens.
pub open spec fn shoot_msg_spec(id: usize, d1: Seq<u8>, d2: Seq<u8>) -> Seq<u8> {
    seq![53u8, 32u8] + dec_of(id as nat) + seq![32u8] + d1 + seq![32u8] + d2
}

/// Append a tag byte, a space, and the identifier.
fn append_tag_id(out: &mut Vec<u8>, tag: u8, id: usize)
    ensures
        final(out)@ == old(out)@ + seq![tag, 32u8] + dec_of(id as nat),
{
    out.push(tag);
    out.push(32);
    let d = fmt_usize(id);
    append_bytes(out, &d);
    proof {
        assert(out@ =~= old(out)@ + seq![tag, 32u8] + dec_of(id as nat));
    }
}

/// Build the join broadcast.
pub fn build_join_msg(id: usize) -> (r: Vec<u8>)
    ensures
        r@ == join_msg_spec(id),
{
    let mut out: Vec<u8> = Vec::new();
    append_tag_id(&mut out, 49, id);
    proof {
        assert(out@ =~= join_msg_spec(id));
    }
    out
}

/// Build the leave broadcast.
pub fn build_leave_msg(id: usize) -> (r: Vec<u8>)
    ensures
        r@ == leave_msg_spec(id),
{
    let mut out: Vec<u8> = Vec::new();
    append_tag_id(&mut out, 50, id);
    proof {
        assert(out@ =~= leave_msg_spec(id));
    }
    out
}

/// Build the move broadcast around the sender's delta token.
pub fn build_move_msg(id: usize, data: &Vec<u8>) -> (r: Vec<u8>)
    ensures
        r@ == move_msg_spec(id, data@),
{
    let mut out: Vec<u8> = Vec::new();
    append_tag_id(&mut out, 51, id);
    out.push(32);
    append_bytes(&mut out, data);
    proof {
        assert(out@ =~= move_msg_spec(id, data@));
    }
    out
}

/// Build the rotate broadcast around the sender's delta token.
pub fn build_rotate_msg(id: usize, data: &Vec<u8>) -> (r: Vec<u8>)
    ensures
        r@ == rotate_msg_spec(id, data@),
{
    let mut out: Vec<u8> = Vec::new();
    append_tag_id(&mut out, 52, id);
    out.push(32);
    append_bytes(&mut out, data);
    proof {
        assert(out@ =~= rotate_msg_spec(id, data@));
    }
    out
}

/// Build the shoot broadcast around both payload tokens.
pub fn build_shoot_msg(id: usize, d1: &Vec<u8>, d2: &Vec<u8>) -> (r: Vec<u8>)
    ensures
        r@ == shoot_msg_spec(id, d1@, d2@),
{
    let mut out: Vec<u8> = Vec::new();
    append_tag_id(&mut out, 53, id);
    out.push(32);
    append_bytes(&mut out, d1);
    out.push(32);
    append_bytes(&mut out, d2);
    proof {
        assert(out@ =~= shoot_msg_spec(id, d1@, d2@));
    }
    out
}

/// Append a transform vector as JSON.
fn append_vec3_json(out: &mut Vec<u8>, v: Vec3)
    requires
        crate::vec3::vec3_in_range(v),
    ensures
        final(out)@ == old(out)@ + vec3_json(v),
{
    out.push(91);
    let dx = fmt_coord(v.x);
    append_bytes(out, &dx);
    out.push(44);
    let dy = fmt_coord(v.y);
    append_bytes(out, &dy);
    out.push(44);
    let dz = fmt_coord(v.z);
    append_bytes(out, &dz);
    out.push(93);
    proof {
        assert(out@ =~= old(out)@ + vec3_json(v));
    }
}

/// Append the bytes `{"user_id":`.
fn push_lit_head(out: &mut Vec<u8>)
    ensures
        final(out)@ == old(out)@ + lit_user_obj_head(),
{
    out.push(123);
    out.push(34);
    out.push(117);
    out.push(115);
    out.push(101);
    out.push(114);
    out.push(95);
    out.push(105);
    out.push(100);
    out.push(34);
    out.push(58);
    proof {
        assert(out@ =~= old(out)@ + lit_user_obj_head());
    }
}

/// Append the bytes `,"position":`.
fn push_lit_position(out: &mut Vec<u8>)
    ensures
        final(out)@ == old(out)@ + lit_position(),
{
    out.push(44);
    out.push(34);
    out.push(112);
    out.push(111);
    out.push(115);
    out.push(105);
    out.push(116);
    out.push(105);
    out.push(111);
    out.push(110);
    out.push(34);
    out.push(58);
    proof {
        assert(out@ =~= old(out)@ + lit_position());
    }
}

/// Append the bytes `,"rotation":`.
fn push_lit_rotation(out: &mut Vec<u8>)
    ensures
        final(out)@ == old(out)@ + lit_rotation(),
{
    out.push(44);
    out.push(34);
    out.push(114);
    out.push(111);
    out.push(116);
    out.push(97);
    out.push(116);
    out.push(105);
    out.push(111);
    out.push(110);
    out.push(34);
    out.push(58);
    proof {
        assert(out@ =~= old(out)@ + lit_rotation());
    }
}

/// Append one snapshot entry.
fn append_user_entry(out: &mut Vec<u8>, u: UserState)
    requires
        crate::vec3::vec3_in_range(u.position),
        crate::vec3::vec3_in_range(u.rotation),
    ensures
        final(out)@ == old(out)@ + user_entry(u),
{
    out.push(34);
    let d = fmt_usize(u.user_id);
    append_bytes(out, &d);
    out.push(34);
    out.push(58);
    push_lit_head(out);
    let d2 = fmt_usize(u.user_id);
    append_bytes(out, &d2);
    push_lit_position(out);
    append_vec3_json(out, u.position);
    push_lit_rotation(out);
    append_vec3_json(out, u.rotation);
    out.push(125);
    proof {
        assert(out@ =~= old(out)@ + user_entry(u));
    }
}

/// Build the init message for `id` around a snapshot of the store.
#[verifier::loop_isolation(false)]
pub fn build_init_msg(id: usize, users: &Vec<UserState>) -> (r: Vec<u8>)
    requires
        crate::state::states_in_range(users@),
    ensures
        r@ == init_msg_spec(id, users@),
{
    let mut buf: Vec<u8> = Vec::new();
    let n = users.len();
    let mut i: usize = 0;
    while i < n
        invariant
            0 <= i <= n,
            buf@ == users_entries(users@.subrange(0, i as int)),
        decreases n - i,
    {
        let ghost e0 = buf@;
        if i > 0 {
            buf.push(44);
        }
        append_user_entry(&mut buf, users[i]);
        proof {
            let a = users@.subrange(0, i as int + 1);
            assert(a.drop_last() =~= users@.subrange(0, i as int));
            assert(a.last() == users@[i as int]);
            if i == 0 {
                assert(users_entries(a) == user_entry(users@[0]));
                assert(buf@ =~= user_entry(users@[0]));
            } else {
                assert(users_entries(a) == users_entries(users@.subrange(0, i as int))
                    + seq![44u8] + user_entry(users@[i as int]));
                assert(e0.push(44u8) =~= e0 + seq![44u8]);
            }
        }
        i += 1;
    }
    proof {
        assert(users@.subrange(0, n as int) =~= users@);
    }
    let mut out: Vec<u8> = Vec::new();
    append_tag_id(&mut out, 48, id);
    out.push(32);
    out.push(123);
    append_bytes(&mut out, &buf);
    out.push(125);
    proof {
        assert(out@ =~= init_msg_spec(id, users@));
    }
    out
}

} // verus!
