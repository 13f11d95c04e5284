//! Whitespace-separated tokens and integer literals of tool output.
use vstd::arithmetic::div_mod::lemma_fundamental_div_mod;
use vstd::prelude::*;

verus! {

/// `char::is_whitespace`: the characters with the Unicode White_Space property.
pub open spec fn is_ws(c: char) -> bool {
    ('\u{9}' <= c <= '\u{d}') || c == ' ' || c == '\u{85}' || c == '\u{a0}' || c == '\u{1680}'
        || ('\u{2000}' <= c <= '\u{200a}') || c == '\u{2028}' || c == '\u{2029}' || c == '\u{202f}'
        || c == '\u{205f}' || c == '\u{3000}'
}

pub fn is_ws_char(c: char) -> (r: bool)
    ensures
        r == is_ws(c),
{
    ('\u{9}' <= c && c <= '\u{d}') || c == ' ' || c == '\u{85}' || c == '\u{a0}' || c == '\u{1680}'
        || ('\u{2000}' <= c && c <= '\u{200a}') || c == '\u{2028}' || c == '\u{2029}' || c == '\u{202f}'
        || c == '\u{205f}' || c == '\u{3000}'
}

/// The first index from `i` on that holds no whitespace (or the end).
pub open spec fn skip_ws(s: Seq<char>, i: int) -> int
    decreases s.len() - i,
{
    if i >= s.len() || i < 0 || !is_ws(s[i]) {
        i
    } else {
        skip_ws(s, i + 1)
    }
}

/// The first index from `i` on that holds whitespace (or the end).
pub open spec fn token_end(s: Seq<char>, i: int) -> int
    decreases s.len() - i,
{
    if i >= s.len() || i < 0 || is_ws(s[i]) {
        i
    } else {
        token_end(s, i + 1)
    }
}

/// The whitespace-separated tokens of `s` from index `i` on.
pub open spec fn tokens_from(s: Seq<char>, i: int) -> Seq<Seq<char>>
    decreases s.len() - i,
{
    let a = skip_ws(s, i);
    if i < 0 || a >= s.len() {
        seq![]
    } else {
        let b = token_end(s, a);
        if a < i || b <= a || b > s.len() {
            seq![]
        } else {
            seq![s.subrange(a, b)] + tokens_from(s, b)
        }
    }
}

/// The whitespace-separated tokens of `s`, as `str::split_whitespace` yields them.
pub open spec fn tokens(s: Seq<char>) -> Seq<Seq<char>> {
    tokens_from(s, 0)
}

proof fn lemma_skip_ws_bounds(s: Seq<char>, i: int)
    requires
        0 <= i <= s.len(),
    ensures
        i <= skip_ws(s, i) <= s.len(),
        skip_ws(s, i) < s.len() ==> !is_ws(s[skip_ws(s, i)]),
    decreases s.len() - i,
{
    if i < s.len() && is_ws(s[i]) {
        lemma_skip_ws_bounds(s, i + 1);
    }
}

proof fn lemma_token_end_bounds(s: Seq<char>, i: int)
    requires
        0 <= i <= s.len(),
    ensures
        i <= token_end(s, i) <= s.len(),
        i < s.len() && !is_ws(s[i]) ==> i < token_end(s, i),
    decreases s.len() - i,
{
    if i < s.len() && !is_ws(s[i]) {
        lemma_token_end_bounds(s, i + 1);
    }
}

/// `skip_ws(s, i)`.
fn skip_ws_exec(s: &Vec<char>, i: usize) -> (r: usize)
    requires
        i <= s@.len(),
    ensures
        r == skip_ws(s@, i as int),
        i <= r <= s@.len(),
{
    let mut j = i;
    while j < s.len() && is_ws_char(s[j])
        invariant
            i <= j <= s@.len(),
            skip_ws(s@, i as int) == skip_ws(s@, j as int),
        decreases s@.len() - j,
    {
        j = j + 1;
    }
    j
}

/// `token_end(s, i)`.
fn token_end_exec(s: &Vec<char>, i: usize) -> (r: usize)
    requires
        i <= s@.len(),
    ensures
        r == token_end(s@, i as int),
        i <= r <= s@.len(),
{
    let mut j = i;
    while j < s.len() && !is_ws_char(s[j])
        invariant
            i <= j <= s@.len(),
            token_end(s@, i as int) == token_end(s@, j as int),
        decreases s@.len() - j,
    {
        j = j + 1;
    }
    j
}

/// The bounds of the first `n` tokens of `s`, or fewer if `s` has fewer.
pub fn token_bounds(s: &Vec<char>, n: usize) -> (r: Vec<(usize, usize)>)
    ensures
        r@.len() == if tokens(s@).len() < n { tokens(s@).len() } else { n as nat },
        forall|k: int|
            0 <= k < r@.len() ==> r@[k].0 < r@[k].1 <= s@.len() && s@.subrange(r@[k].0 as int, r@[k].1 as int)
                == #[trigger] tokens(s@)[k],
{
    let mut out: Vec<(usize, usize)> = Vec::new();
    let mut i: usize = 0;
    let mut done = false;
    assert(tokens(s@) =~= out@.map_values(|p: (usize, usize)| s@.subrange(p.0 as int, p.1 as int))
        + tokens_from(s@, 0));
    while !done && out.len() < n
        invariant
            i <= s@.len(),
            out@.len() <= n,
            tokens(s@) == out@.map_values(|p: (usize, usize)| s@.subrange(p.0 as int, p.1 as int))
                + tokens_from(s@, i as int),
            done ==> tokens_from(s@, i as int) == Seq::<Seq<char>>::empty(),
            forall|k: int| 0 <= k < out@.len() ==> (#[trigger] out@[k]).0 < out@[k].1 <= s@.len(),
        decreases 2 * (n - out@.len()) + if done { 0int } else { 1int },
    {
        let a = skip_ws_exec(s, i);
        proof {
            lemma_skip_ws_bounds(s@, i as int);
        }
        if a >= s.len() {
            done = true;
        } else {
            let b = token_end_exec(s, a);
            proof {
                lemma_token_end_bounds(s@, a as int);
            }
            let ghost before = out@;
            out.push((a, b));
            assert(out@.map_values(|p: (usize, usize)| s@.subrange(p.0 as int, p.1 as int)) =~= before.map_values(
                |p: (usize, usize)| s@.subrange(p.0 as int, p.1 as int),
            ).push(s@.subrange(a as int, b as int)));
            assert(tokens_from(s@, i as int) == seq![s@.subrange(a as int, b as int)] + tokens_from(s@, b as int));
            assert(tokens(s@) =~= out@.map_values(|p: (usize, usize)| s@.subrange(p.0 as int, p.1 as int))
                + tokens_from(s@, b as int));
            i = b;
        }
    }
    let ghost mapped = out@.map_values(|p: (usize, usize)| s@.subrange(p.0 as int, p.1 as int));
    assert forall|k: int| 0 <= k < out@.len() implies s@.subrange(out@[k].0 as int, out@[k].1 as int)
        == #[trigger] tokens(s@)[k] by {
        assert(tokens(s@)[k] == mapped[k]);
    }
    out
}

/// The value of a digit in base `radix` (10 or 16), or -1.
pub open spec fn digit_value(c: char, radix: int) -> int {
    if '0' <= c <= '9' {
        c as int - '0' as int
    } else if radix == 16 && 'a' <= c <= 'f' {
        c as int - 'a' as int + 10
    } else if radix == 16 && 'A' <= c <= 'F' {
        c as int - 'A' as int + 10
    } else {
        -1
    }
}

/// Every character of `s` is a digit in base `radix`.
pub open spec fn all_digits(s: Seq<char>, radix: int) -> bool {
    forall|i: int| 0 <= i < s.len() ==> digit_value(#[trigger] s[i], radix) >= 0
}

/// The number that the digits `s` write in base `radix`.
pub open spec fn digits_value(s: Seq<char>, radix: int) -> int
    decreases s.len(),
{
    if s.len() == 0 {
        0
    } else {
        digits_value(s.drop_last(), radix) * radix + digit_value(s.last(), radix)
    }
}

/// `s` without a leading `sign`.
pub open spec fn unsigned_part(s: Seq<char>, sign: char) -> Seq<char> {
    if s.len() > 0 && s[0] == sign { s.drop_first() } else { s }
}

/// What `u64::from_str_radix(s, 16)` accepts: an optional `+`, then at
/// least one hexadecimal digit, of a value that fits.
pub open spec fn hex_u64(s: Seq<char>) -> Option<u64> {
    let body = unsigned_part(s, '+');
    if body.len() == 0 || !all_digits(body, 16) || digits_value(body, 16) > u64::MAX {
        None
    } else {
        Some(digits_value(body, 16) as u64)
    }
}

/// What `s.parse::<i64>()` accepts: an optional `+` or `-`, then at least
/// one decimal digit, of a value that fits.
pub open spec fn dec_i64(s: Seq<char>) -> Option<i64> {
    let neg = s.len() > 0 && s[0] == '-';
    let body = if neg { s.drop_first() } else { unsigned_part(s, '+') };
    let v = digits_value(body, 10);
    if body.len() == 0 || !all_digits(body, 10) {
        None
    } else if neg {
        if v > 0x8000_0000_0000_0000 { None } else { Some((-v) as i64) }
    } else {
        if v > 0x7fff_ffff_ffff_ffff { None } else { Some(v as i64) }
    }
}

fn digit_of(c: char, radix: u64) -> (r: Option<u64>)
    requires
        radix == 10 || radix == 16,
    ensures
        digit_value(c, radix as int) >= 0 ==> r == Some(digit_value(c, radix as int) as u64),
        digit_value(c, radix as int) < 0 ==> r is None,
        r is Some ==> r->0 < radix,
{
    if '0' <= c && c <= '9' {
        Some((c as u32 - '0' as u32) as u64)
    } else if radix == 16 && 'a' <= c && c <= 'f' {
        Some((c as u32 - 'a' as u32 + 10) as u64)
    } else if radix == 16 && 'A' <= c && c <= 'F' {
        Some((c as u32 - 'A' as u32 + 10) as u64)
    } else {
        None
    }
}

/// The value of the digits `s[from..to]` in base `radix`, if they are all
/// digits and the value is at most `limit`.
fn digits_upto(s: &Vec<char>, from: usize, to: usize, radix: u64, limit: u64) -> (r: Option<u64>)
    requires
        from <= to <= s@.len(),
        radix == 10 || radix == 16,
        limit >= 16,
    ensures
        ({
            let body = s@.subrange(from as int, to as int);
            &&& all_digits(body, radix as int) && digits_value(body, radix as int) <= limit ==> r == Some(
                digits_value(body, radix as int) as u64,
            )
            &&& !(all_digits(body, radix as int) && digits_value(body, radix as int) <= limit) ==> r is None
        }),
        r is Some ==> r->0 <= limit && r->0 == digits_value(s@.subrange(from as int, to as int), radix as int),
{
    let ghost body = s@.subrange(from as int, to as int);
    let mut acc: u64 = 0;
    let mut over = false;
    let mut i: usize = from;
    assert(body.take(0) =~= Seq::<char>::empty());
    while i < to
        invariant
            from <= i <= to <= s@.len(),
            body == s@.subrange(from as int, to as int),
            radix == 10 || radix == 16,
            limit >= 16,
            all_digits(body.take(i - from), radix as int),
            over ==> digits_value(body.take(i - from), radix as int) > limit,
            !over ==> acc == digits_value(body.take(i - from), radix as int) && acc <= limit,
        decreases to - i,
    {
        let ghost pre = body.take(i - from);
        let ghost next = body.take(i - from + 1);
        assert(next.drop_last() =~= pre);
        assert(next.last() == s@[i as int]);
        match digit_of(s[i], radix) {
            None => {
                assert(!all_digits(body, radix as int)) by {
                    assert(digit_value(body[i - from], radix as int) < 0);
                }
                return None;
            },
            Some(d) => {
                assert forall|k: int| 0 <= k < next.len() implies digit_value(#[trigger] next[k], radix as int) >= 0 by {
                    if k < pre.len() {
                        assert(next[k] == pre[k]);
                    }
                }
                if !over {
                    let q = (limit - d) / radix;
                    proof {
                        lemma_fundamental_div_mod((limit - d) as int, radix as int);
                    }
                    if acc > q {
                        over = true;
                        assert(acc * radix + d > limit) by (nonlinear_arith)
                            requires acc >= q + 1, limit - d == radix * q + (limit - d) % (radix as int),
                                (limit - d) % (radix as int) < radix, radix > 0;
                    } else {
                        assert(acc * radix + d <= limit) by (nonlinear_arith)
                            requires acc <= q, limit - d == radix * q + (limit - d) % (radix as int),
                                (limit - d) % (radix as int) >= 0, radix > 0, acc >= 0;
                        acc = acc * radix + d;
                    }
                } else {
                    assert(digits_value(next, radix as int) >= digits_value(pre, radix as int)) by (nonlinear_arith)
                        requires digits_value(next, radix as int) == digits_value(pre, radix as int) * radix + d,
                            digits_value(pre, radix as int) >= 0, radix >= 1, d >= 0;
                }
            },
        }
        i = i + 1;
    }
    assert(body.take(to - from) =~= body);
    if over {
        None
    } else {
        Some(acc)
    }
}

/// `u64::from_str_radix(s[from..to], 16)`, as an option.
pub fn parse_hex_u64(s: &Vec<char>, from: usize, to: usize) -> (r: Option<u64>)
    requires
        from <= to <= s@.len(),
    ensures
        r == hex_u64(s@.subrange(from as int, to as int)),
{
    let ghost t = s@.subrange(from as int, to as int);
    let start = if from < to && s[from] == '+' { from + 1 } else { from };
    assert(unsigned_part(t, '+') =~= s@.subrange(start as int, to as int));
    if start == to {
        return None;
    }
    digits_upto(s, start, to, 16, u64::MAX)
}

/// `s[from..to].parse::<i64>()`, as an option.
pub fn parse_dec_i64(s: &Vec<char>, from: usize, to: usize) -> (r: Option<i64>)
    requires
        from <= to <= s@.len(),
    ensures
        r == dec_i64(s@.subrange(from as int, to as int)),
{
    let ghost t = s@.subrange(from as int, to as int);
    if from < to && s[from] == '-' {
        assert(t.drop_first() =~= s@.subrange(from + 1, to as int));
        if from + 1 == to {
            return None;
        }
        assert(t.len() > 0 && t[0] == '-');
        match digits_upto(s, from + 1, to, 10, 0x8000_0000_0000_0000) {
            None => None,
            Some(v) => {
                assert(v == digits_value(t.drop_first(), 10));
                if v == 0x8000_0000_0000_0000 {
                    Some(i64::MIN)
                } else {
                    Some(-(v as i64))
                }
            },
        }
    } else {
        assert(!(t.len() > 0 && t[0] == '-'));
        let start = if from < to && s[from] == '+' { from + 1 } else { from };
        assert(unsigned_part(t, '+') =~= s@.subrange(start as int, to as int));
        if start == to {
            return None;
        }
        match digits_upto(s, start, to, 10, 0x7fff_ffff_ffff_ffff) {
            None => None,
            Some(v) => Some(v as i64),
        }
    }
}

} // verus!
