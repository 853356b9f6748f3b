use vstd::prelude::*;
use vstd::arithmetic::mul::lemma_mul_is_associative;
use vstd::slice::slice_subrange;
use crate::error::WaveError;
use crate::series::{expand, points_view, RawPoint, StepSeries};

verus! {

/// ASCII whitespace, the token separator inside a line.
pub open spec fn is_ascii_ws(c: u8) -> bool {
    c == 32 || c == 9 || c == 10 || c == 11 || c == 12 || c == 13
}

/// An ASCII decimal digit.
pub open spec fn is_ascii_digit(c: u8) -> bool {
    48 <= c <= 57
}

/// Every byte of `s` is a digit.
pub open spec fn all_digits(s: Seq<u8>) -> bool {
    forall|i: int| 0 <= i < s.len() ==> is_ascii_digit(#[trigger] s[i])
}

/// The number a digit string denotes, most significant digit first.
pub open spec fn digits_val(s: Seq<u8>) -> int
    decreases s.len(),
{
    if s.len() == 0 {
        0
    } else {
        digits_val(s.drop_last()) * 10 + (s.last() - 48)
    }
}

/// Ten to the `n`.
pub open spec fn pow10(n: nat) -> int
    decreases n,
{
    if n == 0 {
        1
    } else {
        10 * pow10((n - 1) as nat)
    }
}

/// Index of the first dot in `s`, or its length if there is none.
pub open spec fn dot_pos(s: Seq<u8>) -> int
    decreases s.len(),
{
    if s.len() == 0 {
        0
    } else if s[0] == 46 {
        0
    } else {
        1 + dot_pos(s.subrange(1, s.len() as int))
    }
}

/// A token starts with a minus sign.
pub open spec fn tok_negative(s: Seq<u8>) -> bool {
    s.len() > 0 && s[0] == 45
}

/// The token with its leading sign, if any, stripped.
pub open spec fn unsigned_body(s: Seq<u8>) -> Seq<u8> {
    if s.len() > 0 && (s[0] == 43 || s[0] == 45) {
        s.subrange(1, s.len() as int)
    } else {
        s
    }
}

/// The digits before the first dot of an unsigned body.
pub open spec fn int_digits(b: Seq<u8>) -> Seq<u8> {
    b.subrange(0, dot_pos(b))
}

/// The digits after the first dot of an unsigned body; empty without a dot.
pub open spec fn frac_digits(b: Seq<u8>) -> Seq<u8> {
    if dot_pos(b) == b.len() {
        Seq::empty()
    } else {
        b.subrange(dot_pos(b) + 1, b.len() as int)
    }
}

/// A well-formed decimal token after the sign: digits with at most one dot,
/// at least one digit in all, at most twelve integer digits (so the scaled
/// value fits a 64-bit word) and at most six fractional digits (the
/// fixed-point resolution).
pub open spec fn body_ok(b: Seq<u8>) -> bool {
    &&& all_digits(int_digits(b))
    &&& all_digits(frac_digits(b))
    &&& int_digits(b).len() + frac_digits(b).len() >= 1
    &&& int_digits(b).len() <= 12
    &&& frac_digits(b).len() <= 6
}

/// A well-formed decimal token: an optional sign followed by a valid body.
pub open spec fn tok_ok(s: Seq<u8>) -> bool {
    body_ok(unsigned_body(s))
}

/// The fixed-point value a token denotes, in millionths.
pub open spec fn tok_val(s: Seq<u8>) -> int {
    let b = unsigned_body(s);
    let m = digits_val(int_digits(b)) * 1_000_000 + digits_val(frac_digits(b)) * pow10(
        (6 - frac_digits(b).len()) as nat,
    );
    if tok_negative(s) {
        -m
    } else {
        m
    }
}

/// Digit strings denote non-negative numbers below ten to their length.
proof fn lemma_digits_val_bound(s: Seq<u8>)
    requires
        all_digits(s),
    ensures
        0 <= digits_val(s) < pow10(s.len()),
    decreases s.len(),
{
    if s.len() > 0 {
        assert(all_digits(s.drop_last()));
        lemma_digits_val_bound(s.drop_last());
    }
}

/// Ten to the `n` is at least one.
proof fn lemma_pow10_pos(n: nat)
    ensures
        pow10(n) >= 1,
    decreases n,
{
    if n > 0 {
        lemma_pow10_pos((n - 1) as nat);
    }
}

/// Ten to the `n` grows with `n` and is at least one.
proof fn lemma_pow10_mono(m: nat, n: nat)
    requires
        m <= n,
    ensures
        1 <= pow10(m) <= pow10(n),
    decreases n,
{
    lemma_pow10_pos(m);
    if m < n {
        lemma_pow10_mono(m, (n - 1) as nat);
    }
}

/// The concrete powers of ten the parser's bounds rely on.
proof fn lemma_pow10_concrete()
    ensures
        pow10(6) == 1_000_000,
        pow10(11) == 100_000_000_000,
        pow10(12) == 1_000_000_000_000,
{
    assert(pow10(0) == 1);
    assert(pow10(1) == 10);
    assert(pow10(2) == 100);
    assert(pow10(3) == 1000);
    assert(pow10(4) == 10000);
    assert(pow10(5) == 100000);
    assert(pow10(6) == 1000000);
    assert(pow10(7) == 10000000);
    assert(pow10(8) == 100000000);
    assert(pow10(9) == 1000000000);
    assert(pow10(10) == 10000000000);
    assert(pow10(11) == 100000000000);
    assert(pow10(12) == 1000000000000);
}

/// Powers of ten multiply by adding exponents.
proof fn lemma_pow10_add(m: nat, n: nat)
    ensures
        pow10(m) * pow10(n) == pow10(m + n),
    decreases m,
{
    if m == 0 {
    } else {
        lemma_pow10_add((m - 1) as nat, n);
        lemma_mul_is_associative(10, pow10((m - 1) as nat), pow10(n));
    }
}

/// The dot position never passes the end of the string.
proof fn lemma_dot_pos_le(s: Seq<u8>)
    ensures
        0 <= dot_pos(s) <= s.len(),
    decreases s.len(),
{
    if s.len() > 0 && s[0] != 46 {
        lemma_dot_pos_le(s.subrange(1, s.len() as int));
    }
}

/// If no byte before `p` is a dot and the byte at `p` (if any) is one, then
/// `p` is the dot position.
proof fn lemma_dot_pos_at(s: Seq<u8>, p: int)
    requires
        0 <= p <= s.len(),
        forall|j: int| 0 <= j < p ==> #[trigger] s[j] != 46,
        p < s.len() ==> s[p] == 46,
    ensures
        dot_pos(s) == p,
    decreases s.len(),
{
    if p == 0 {
    } else {
        assert(s[0] != 46);
        let tail = s.subrange(1, s.len() as int);
        assert(forall|j: int| 0 <= j < p - 1 ==> #[trigger] tail[j] != 46);
        lemma_dot_pos_at(tail, p - 1);
    }
}

/// If no byte before `p` is a dot, the dot position is at least `p`.
proof fn lemma_dot_pos_ge(s: Seq<u8>, p: int)
    requires
        0 <= p <= s.len(),
        forall|j: int| 0 <= j < p ==> #[trigger] s[j] != 46,
    ensures
        dot_pos(s) >= p,
    decreases s.len(),
{
    lemma_dot_pos_le(s);
    if p > 0 {
        assert(s[0] != 46);
        let tail = s.subrange(1, s.len() as int);
        assert(forall|j: int| 0 <= j < p - 1 ==> #[trigger] tail[j] != 46);
        lemma_dot_pos_ge(tail, p - 1);
    }
}

/// A fractional digit string scaled to millionths stays below one million.
proof fn lemma_frac_scaled_bound(frac: int, fl: nat)
    requires
        0 <= frac < pow10(fl),
        fl <= 6,
    ensures
        0 <= frac * pow10((6 - fl) as nat) < 1_000_000,
        pow10((6 - fl) as nat) >= 1,
{
    lemma_pow10_mono(0, (6 - fl) as nat);
    lemma_pow10_add(fl, (6 - fl) as nat);
    lemma_pow10_concrete();
    assert(0 <= frac * pow10((6 - fl) as nat) < 1_000_000) by (nonlinear_arith)
        requires
            0 <= frac < pow10(fl),
            pow10(fl) * pow10((6 - fl) as nat) == 1_000_000,
            pow10((6 - fl) as nat) >= 1,
    ;
}

/// Ten to the `n` for the small exponents the parser needs.
fn pow10_small(n: usize) -> (r: i64)
    requires
        n <= 6,
    ensures
        r == pow10(n as nat),
{
    proof {
        lemma_pow10_concrete();
    }
    let mut r: i64 = 1;
    let mut j: usize = 0;
    while j < n
        invariant
            j <= n <= 6,
            r == pow10(j as nat),
            pow10(6) == 1_000_000,
        decreases n - j,
    {
        proof {
            lemma_pow10_mono((j + 1) as nat, 6);
        }
        r = r * 10;
        j = j + 1;
    }
    r
}

/// Parses one decimal token into a fixed-point value in millionths.
/// Accepts an optional `+` or `-` sign, then digits with at most one dot: up
/// to twelve integer digits and up to six fractional digits.
#[verifier::rlimit(60)]
pub fn parse_decimal(tok: &[u8]) -> (r: Option<i64>)
    ensures
        r is Some <==> tok_ok(tok@),
        r matches Some(v) ==> v == tok_val(tok@),
{
    let len = tok.len();
    let mut pos: usize = 0;
    let mut neg = false;
    if len > 0 && (tok[0] == 43 || tok[0] == 45) {
        neg = tok[0] == 45;
        pos = 1;
    }
    let istart = pos;
    let ghost body = unsigned_body(tok@);
    assert(body =~= tok@.subrange(istart as int, len as int));
    assert(neg == tok_negative(tok@));
    while pos < len && 48 <= tok[pos] && tok[pos] <= 57
        invariant
            len == tok@.len(),
            istart <= pos <= len,
            forall|j: int| istart <= j < pos ==> is_ascii_digit(#[trigger] tok@[j]),
        decreases len - pos,
    {
        pos = pos + 1;
    }
    let iend = pos;
    let ghost d = (iend - istart) as int;
    proof {
        assert(forall|j: int| 0 <= j < d ==> body[j] == tok@[j + istart]);
        assert(forall|j: int| 0 <= j < d ==> #[trigger] body[j] != 46);
    }
    let mut fstart = iend;
    let mut fend = iend;
    if pos < len {
        if tok[pos] != 46 {
            // A stray byte in the integer part: the dot position lies beyond
            // it, so the integer digits contain a non-digit.
            proof {
                assert(body[d] == tok@[iend as int]);
                lemma_dot_pos_le(body);
                lemma_dot_pos_ge(body, d + 1);
                assert(int_digits(body)[d] == body[d]);
                assert(!is_ascii_digit(int_digits(body)[d]));
            }
            return None;
        }
        fstart = pos + 1;
        pos = fstart;
        while pos < len && 48 <= tok[pos] && tok[pos] <= 57
            invariant
                len == tok@.len(),
                fstart <= pos <= len,
                forall|j: int| fstart <= j < pos ==> is_ascii_digit(#[trigger] tok@[j]),
            decreases len - pos,
        {
            pos = pos + 1;
        }
        fend = pos;
        proof {
            assert(body[d] == tok@[iend as int]);
            lemma_dot_pos_at(body, d);
        }
        if pos < len {
            // A stray byte after the fractional digits.
            proof {
                assert(frac_digits(body)[pos - fstart] == body[pos - istart]);
                assert(body[pos - istart] == tok@[pos as int]);
                assert(!is_ascii_digit(frac_digits(body)[pos - fstart]));
            }
            return None;
        }
    } else {
        proof {
            lemma_dot_pos_at(body, d);
        }
    }
    // From here on the layout is fixed: dot_pos(body) == d, the integer
    // digits are tok[istart..iend] and the fractional digits tok[fstart..fend].
    proof {
        assert(int_digits(body) =~= tok@.subrange(istart as int, iend as int));
        if d < body.len() {
            assert(frac_digits(body) =~= tok@.subrange(fstart as int, fend as int));
        } else {
            assert(fstart == fend);
            assert(frac_digits(body) =~= tok@.subrange(fstart as int, fend as int));
        }
    }
    let int_len = iend - istart;
    let frac_len = fend - fstart;
    if int_len == 0 && frac_len == 0 {
        return None;
    }
    if int_len > 12 {
        return None;
    }
    if frac_len > 6 {
        return None;
    }
    assert(tok_ok(tok@));
    proof {
        lemma_pow10_concrete();
    }
    let mut acc: i64 = 0;
    let mut p: usize = istart;
    while p < iend
        invariant
            len == tok@.len(),
            istart <= p <= iend <= len,
            iend - istart <= 12,
            forall|j: int| istart <= j < iend ==> is_ascii_digit(#[trigger] tok@[j]),
            acc == digits_val(tok@.subrange(istart as int, p as int)),
            0 <= acc < pow10((p - istart) as nat),
            pow10(11) == 100_000_000_000,
            pow10(12) == 1_000_000_000_000,
        decreases iend - p,
    {
        let dg = tok[p] - 48;
        proof {
            lemma_pow10_mono((p - istart) as nat, 11);
            let pre = tok@.subrange(istart as int, p + 1);
            assert(pre.drop_last() =~= tok@.subrange(istart as int, p as int));
            assert(pre.last() == tok@[p as int]);
        }
        acc = acc * 10 + (dg as i64);
        p = p + 1;
    }
    let mut frac: i64 = 0;
    let mut q: usize = fstart;
    while q < fend
        invariant
            len == tok@.len(),
            fstart <= q <= fend <= len,
            fend - fstart <= 6,
            forall|j: int| fstart <= j < fend ==> is_ascii_digit(#[trigger] tok@[j]),
            frac == digits_val(tok@.subrange(fstart as int, q as int)),
            0 <= frac < pow10((q - fstart) as nat),
            pow10(6) == 1_000_000,
        decreases fend - q,
    {
        let dg = tok[q] - 48;
        proof {
            lemma_pow10_mono((q - fstart) as nat, 5);
            lemma_pow10_concrete();
            let pre = tok@.subrange(fstart as int, q + 1);
            assert(pre.drop_last() =~= tok@.subrange(fstart as int, q as int));
            assert(pre.last() == tok@[q as int]);
        }
        frac = frac * 10 + (dg as i64);
        q = q + 1;
    }
    let mult = pow10_small(6 - frac_len);
    proof {
        lemma_frac_scaled_bound(frac as int, frac_len as nat);
        lemma_pow10_mono((p - istart) as nat, 12);
    }
    assert(0 <= frac * mult < 1_000_000);
    let scaled: i64 = acc * 1_000_000 + frac * mult;
    let v: i64 = if neg {
        -scaled
    } else {
        scaled
    };
    assert(v == tok_val(tok@));
    Some(v)
}

/// First index at or after `i` holding a non-whitespace byte, or the length.
pub open spec fn ws_end(s: Seq<u8>, i: int) -> int
    decreases s.len() - i,
{
    if i < 0 || i >= s.len() {
        s.len() as int
    } else if is_ascii_ws(s[i]) {
        ws_end(s, i + 1)
    } else {
        i
    }
}

/// First index at or after `i` holding a whitespace byte, or the length.
pub open spec fn tok_end(s: Seq<u8>, i: int) -> int
    decreases s.len() - i,
{
    if i < 0 || i >= s.len() {
        s.len() as int
    } else if is_ascii_ws(s[i]) {
        i
    } else {
        tok_end(s, i + 1)
    }
}

/// A line is well-formed when it holds at least two whitespace-separated
/// tokens and the first two are well-formed decimal tokens.  Anything after
/// the second token is ignored.
pub open spec fn line_ok(s: Seq<u8>) -> bool {
    let a0 = ws_end(s, 0);
    let a1 = tok_end(s, a0);
    let b0 = ws_end(s, a1);
    let b1 = tok_end(s, b0);
    &&& a0 < s.len()
    &&& b0 < s.len()
    &&& tok_ok(s.subrange(a0, a1))
    &&& tok_ok(s.subrange(b0, b1))
}

/// The timestamp/value pair a well-formed line denotes, in millionths.
pub open spec fn line_pair(s: Seq<u8>) -> (int, int) {
    let a0 = ws_end(s, 0);
    let a1 = tok_end(s, a0);
    let b0 = ws_end(s, a1);
    let b1 = tok_end(s, b0);
    (tok_val(s.subrange(a0, a1)), tok_val(s.subrange(b0, b1)))
}

/// The byte views of a list of lines.
pub open spec fn line_views(lines: Seq<Vec<u8>>) -> Seq<Seq<u8>> {
    lines.map_values(|l: Vec<u8>| l@)
}

/// The pairs a list of lines denotes.
pub open spec fn line_pairs(ls: Seq<Seq<u8>>) -> Seq<(int, int)> {
    Seq::new(ls.len(), |i: int| line_pair(ls[i]))
}

/// Every line of the list is well-formed.
pub open spec fn all_lines_ok(ls: Seq<Seq<u8>>) -> bool {
    forall|i: int| 0 <= i < ls.len() ==> line_ok(#[trigger] ls[i])
}

/// Whether a byte is ASCII whitespace.
fn is_ws_byte(c: u8) -> (r: bool)
    ensures
        r == is_ascii_ws(c),
{
    c == 32 || c == 9 || c == 10 || c == 11 || c == 12 || c == 13
}

/// Parses one log line: skips whitespace, reads two decimal tokens, and
/// ignores anything that follows them.  Yields the timestamp and value in
/// millionths, or nothing when the line is malformed.
pub fn parse_line(line: &[u8]) -> (r: Option<(i64, i64)>)
    ensures
        r is Some <==> line_ok(line@),
        r matches Some(p) ==> (p.0 as int, p.1 as int) == line_pair(line@),
{
    let len = line.len();
    let mut i: usize = 0;
    while i < len && is_ws_byte(line[i])
        invariant
            len == line@.len(),
            i <= len,
            ws_end(line@, 0) == ws_end(line@, i as int),
        decreases len - i,
    {
        i = i + 1;
    }
    assert(ws_end(line@, 0) == i);
    if i == len {
        return None;
    }
    let t0 = i;
    while i < len && !is_ws_byte(line[i])
        invariant
            len == line@.len(),
            t0 <= i <= len,
            tok_end(line@, t0 as int) == tok_end(line@, i as int),
        decreases len - i,
    {
        i = i + 1;
    }
    assert(tok_end(line@, t0 as int) == i);
    let t1 = i;
    let first = match parse_decimal(slice_subrange(line, t0, t1)) {
        Some(v) => v,
        None => {
            return None;
        },
    };
    while i < len && is_ws_byte(line[i])
        invariant
            len == line@.len(),
            t1 <= i <= len,
            ws_end(line@, t1 as int) == ws_end(line@, i as int),
        decreases len - i,
    {
        i = i + 1;
    }
    assert(ws_end(line@, t1 as int) == i);
    if i == len {
        return None;
    }
    let u0 = i;
    while i < len && !is_ws_byte(line[i])
        invariant
            len == line@.len(),
            u0 <= i <= len,
            tok_end(line@, u0 as int) == tok_end(line@, i as int),
        decreases len - i,
    {
        i = i + 1;
    }
    assert(tok_end(line@, u0 as int) == i);
    let u1 = i;
    let second = match parse_decimal(slice_subrange(line, u0, u1)) {
        Some(v) => v,
        None => {
            return None;
        },
    };
    Some((first, second))
}

/// Parses a whole log into a step series.  Each line yields its point; from
/// the second line on, a synthetic pre-transition point carrying the previous
/// value precedes it, so every value change appears as a vertical step.  The
/// first malformed line aborts the parse; an empty input yields an empty
/// series, left for the resampler to reject.
pub fn parse_series(lines: &Vec<Vec<u8>>) -> (r: Result<StepSeries, WaveError>)
    ensures
        r is Ok <==> all_lines_ok(line_views(lines@)),
        r matches Ok(s) ==> s@ == expand(line_pairs(line_views(lines@))),
        r matches Err(e) ==> (e matches WaveError::MalformedInput { line } && line < lines@.len()
            && !line_ok(lines@[line as int]@) && (forall|j: int|
            0 <= j < line ==> line_ok(#[trigger] lines@[j]@))),
{
    let ghost pairs = line_pairs(line_views(lines@));
    let n = lines.len();
    let mut points: Vec<RawPoint> = Vec::new();
    let mut prev: i64 = 0;
    let mut i: usize = 0;
    while i < n
        invariant
            n == lines@.len(),
            pairs == line_pairs(line_views(lines@)),
            i <= n,
            forall|j: int| 0 <= j < i ==> line_ok(#[trigger] lines@[j]@),
            points_view(points@) == expand(pairs.take(i as int)),
            i > 0 ==> prev == pairs[i - 1].1,
        decreases n - i,
    {
        assert(line_views(lines@)[i as int] == lines@[i as int]@);
        let parsed = match parse_line(lines[i].as_slice()) {
            Some(p) => p,
            None => {
                return Err(WaveError::MalformedInput { line: i });
            },
        };
        let (t, v) = parsed;
        assert(pairs[i as int] == (t as int, v as int));
        let ghost old_points = points@;
        if i == 0 {
            points.push(RawPoint { t, v });
        } else {
            points.push(RawPoint { t, v: prev });
            points.push(RawPoint { t, v });
        }
        proof {
            let pre = pairs.take(i + 1);
            assert(pre.drop_last() =~= pairs.take(i as int));
            assert(pre.last() == pairs[i as int]);
            if i > 0 {
                assert(pre[pre.len() - 2] == pairs[i - 1]);
            }
            assert(points_view(points@) =~= expand(pairs.take(i + 1)));
        }
        prev = v;
        i = i + 1;
    }
    assert(pairs.take(n as int) =~= pairs);
    Ok(StepSeries { points })
}

} // verus!
