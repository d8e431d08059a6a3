use vstd::prelude::*;
use crate::hexagon_pos::HexagonPos;

verus! {

/// The ASCII code of `,`, `+`, `-` and `0`.
pub const COMMA: u8 = 44;
pub const PLUS: u8 = 43;
pub const MINUS: u8 = 45;
pub const ZERO: u8 = 48;

pub open spec fn is_digit(b: u8) -> bool {
    ZERO <= b <= ZERO + 9
}

pub open spec fn all_digits(s: Seq<u8>) -> bool {
    forall|i: int| 0 <= i < s.len() ==> is_digit(#[trigger] s[i])
}

/// The number that a run of decimal digits denotes.
pub open spec fn digits_value(s: Seq<u8>) -> nat
    decreases s.len(),
{
    if s.len() == 0 {
        0
    } else {
        digits_value(s.drop_last()) * 10 + (s.last() - ZERO) as nat
    }
}

/// A decimal integer as `str::parse::<i32>` reads it: an optional `+` or `-`, then
/// one digit or more, and a value that fits in an `i32`.
pub open spec fn spec_parse_i32(s: Seq<u8>) -> Option<i32> {
    let neg = s.len() > 0 && s[0] == MINUS;
    let body = if s.len() > 0 && (s[0] == MINUS || s[0] == PLUS) {
        s.skip(1)
    } else {
        s
    };
    let v: int = if neg {
        -digits_value(body)
    } else {
        digits_value(body) as int
    };
    if body.len() > 0 && all_digits(body) && i32::MIN <= v <= i32::MAX {
        Some(v as i32)
    } else {
        None
    }
}

/// The position of the first `,` in `s`.
pub open spec fn first_comma(s: Seq<u8>) -> Option<int> {
    if exists|i: int| 0 <= i < s.len() && s[i] == COMMA {
        Some(choose|i: int| 0 <= i < s.len() && s[i] == COMMA && forall|j: int| 0 <= j < i ==> s[j] != COMMA)
    } else {
        None
    }
}

/// The cell named by a key of the map file: `x,y` with `y` counted downwards, so the
/// cell is at column `x` and row `-y`. A key without a comma, with a part that is no
/// `i32`, or whose row cannot be negated, names no cell.
pub open spec fn spec_parse_key(s: Seq<u8>) -> Option<HexagonPos> {
    match first_comma(s) {
        Some(c) => match (spec_parse_i32(s.take(c)), spec_parse_i32(s.skip(c + 1))) {
            (Some(x), Some(y)) => if y != i32::MIN {
                Some(HexagonPos { x, y: (-y) as i32 })
            } else {
                None
            },
            _ => None,
        },
        None => None,
    }
}

/// The decimal digits of `n`, most significant first, without leading zeros.
pub open spec fn spec_digits(n: nat) -> Seq<u8>
    decreases n,
{
    if n < 10 {
        seq![(ZERO + n) as u8]
    } else {
        spec_digits(n / 10).push((ZERO + n % 10) as u8)
    }
}

/// An integer as `format!("{}", v)` writes it: a `-` for negative numbers, then
/// its digits.
pub open spec fn spec_decimal(v: int) -> Seq<u8> {
    if v < 0 {
        seq![MINUS] + spec_digits((-v) as nat)
    } else {
        spec_digits(v as nat)
    }
}

/// The key under which the map generator writes the cell `p`: `x,y`.
pub open spec fn spec_key_text(p: HexagonPos) -> Seq<u8> {
    spec_decimal(p.x as int) + seq![COMMA] + spec_decimal(p.y as int)
}

/// Reads a decimal `i32` from bytes, as `str::parse::<i32>` does.
pub fn parse_i32(s: &[u8]) -> (res: Option<i32>)
    ensures
        res == spec_parse_i32(s@),
{
    let len = s.len();
    let mut start: usize = 0;
    let mut neg = false;
    if len > 0 && (s[0] == MINUS || s[0] == PLUS) {
        start = 1;
        neg = s[0] == MINUS;
    }
    let ghost body = s@.skip(start as int);
    assert(s@.skip(0) =~= s@);
    assert(body == (if s@.len() > 0 && (s@[0] == MINUS || s@[0] == PLUS) {
        s@.skip(1)
    } else {
        s@
    }));
    if start == len {
        return None;
    }
    let mut acc: u64 = 0;
    let mut i: usize = start;
    while i < len
        invariant
            start <= i <= len,
            len == s@.len(),
            body == s@.skip(start as int),
            body == (if s@.len() > 0 && (s@[0] == MINUS || s@[0] == PLUS) {
                s@.skip(1)
            } else {
                s@
            }),
            neg == (len > 0 && s@[0] == MINUS),
            start == (if len > 0 && (s@[0] == MINUS || s@[0] == PLUS) { 1usize } else { 0usize }),
            all_digits(s@.subrange(start as int, i as int)),
            acc == digits_value(s@.subrange(start as int, i as int)),
            acc <= 2147483648,
        decreases len - i,
    {
        let b = s[i];
        assert(s@.subrange(start as int, i + 1).drop_last() =~= s@.subrange(start as int, i as int));
        if b < ZERO || b > ZERO + 9 {
            assert(body[i - start] == b);
            return None;
        }
        acc = acc * 10 + (b - ZERO) as u64;
        assert(acc == digits_value(s@.subrange(start as int, i + 1)));
        assert(all_digits(s@.subrange(start as int, i + 1)));
        if acc > 2147483648 {
            proof {
                if all_digits(body) {
                    lemma_digits_value_prefix(body, (i + 1 - start) as int);
                    assert(body.take((i + 1 - start) as int) =~= s@.subrange(start as int, i + 1));
                    assert(digits_value(body) > 2147483648);
                }
                assert(spec_parse_i32(s@) is None);
            }
            return None;
        }
        i += 1;
    }
    assert(s@.subrange(start as int, len as int) =~= body);
    assert(all_digits(body));
    assert(body.len() > 0);
    assert(acc == digits_value(body));
    if neg {
        Some((0i64 - acc as i64) as i32)
    } else if acc <= 2147483647 {
        Some(acc as i32)
    } else {
        None
    }
}

/// A run of digits denotes at least as much as any of its prefixes.
proof fn lemma_digits_value_prefix(s: Seq<u8>, k: int)
    requires
        0 <= k <= s.len(),
        all_digits(s),
    ensures
        digits_value(s.take(k)) <= digits_value(s),
    decreases s.len(),
{
    if k < s.len() {
        assert(s.drop_last().take(k) =~= s.take(k));
        lemma_digits_value_prefix(s.drop_last(), k);
        assert(all_digits(s.drop_last()));
    } else {
        assert(s.take(k) =~= s);
    }
}

/// The position of the first `,` in `s`, found by a scan.
fn find_comma(s: &[u8]) -> (res: Option<usize>)
    ensures
        match res {
            Some(c) => first_comma(s@) == Some(c as int) && c < s@.len(),
            None => first_comma(s@) is None,
        },
{
    let mut i: usize = 0;
    while i < s.len()
        invariant
            i <= s@.len(),
            forall|j: int| 0 <= j < i ==> s@[j] != COMMA,
        decreases s@.len() - i,
    {
        if s[i] == COMMA {
            proof {
                let c = choose|c: int|
                    0 <= c < s@.len() && s@[c] == COMMA && forall|j: int| 0 <= j < c ==> s@[j] != COMMA;
                if c < i {
                } else if c > i {
                    assert(s@[i as int] != COMMA);
                }
            }
            return Some(i);
        }
        i += 1;
    }
    None
}

/// Reads a key of the map file (see `spec_parse_key`).
pub fn parse_hexagon_key(key: &[u8]) -> (res: Option<HexagonPos>)
    ensures
        res == spec_parse_key(key@),
{
    let c = match find_comma(key) {
        Some(c) => c,
        None => {
            return None;
        },
    };
    if c >= key.len() {
        return None;
    }
    let x_part = slice_prefix(key, c);
    let y_part = slice_suffix(key, c + 1);
    let x = parse_i32(x_part.as_slice());
    let y = parse_i32(y_part.as_slice());
    match (x, y) {
        (Some(x), Some(y)) => {
            if y != i32::MIN {
                Some(HexagonPos::new(x, -y))
            } else {
                None
            }
        },
        _ => None,
    }
}

/// The first `n` bytes of `s`, copied.
fn slice_prefix(s: &[u8], n: usize) -> (res: Vec<u8>)
    requires
        n <= s@.len(),
    ensures
        res@ == s@.take(n as int),
{
    let mut out: Vec<u8> = Vec::new();
    let mut i: usize = 0;
    while i < n
        invariant
            i <= n <= s@.len(),
            out@ == s@.take(i as int),
        decreases n - i,
    {
        out.push(s[i]);
        assert(s@.take(i + 1) =~= s@.take(i as int).push(s@[i as int]));
        i += 1;
    }
    out
}

/// The bytes of `s` from position `n` on, copied.
fn slice_suffix(s: &[u8], n: usize) -> (res: Vec<u8>)
    requires
        n <= s@.len(),
    ensures
        res@ == s@.skip(n as int),
{
    let mut out: Vec<u8> = Vec::new();
    let mut i: usize = n;
    while i < s.len()
        invariant
            n <= i <= s@.len(),
            out@ == s@.subrange(n as int, i as int),
        decreases s@.len() - i,
    {
        out.push(s[i]);
        assert(s@.subrange(n as int, i + 1) =~= s@.subrange(n as int, i as int).push(s@[i as int]));
        i += 1;
    }
    assert(s@.subrange(n as int, s@.len() as int) =~= s@.skip(n as int));
    out
}

/// Appends the decimal digits of `n`.
fn push_digits(out: &mut Vec<u8>, n: u64)
    ensures
        final(out)@ == old(out)@ + spec_digits(n as nat),
    decreases n,
{
    if n >= 10 {
        push_digits(out, n / 10);
    }
    out.push(ZERO + (n % 10) as u8);
    assert(final(out)@ =~= old(out)@ + spec_digits(n as nat));
}

/// Appends `v` in decimal.
fn push_decimal(out: &mut Vec<u8>, v: i32)
    ensures
        final(out)@ == old(out)@ + spec_decimal(v as int),
{
    if v < 0 {
        out.push(MINUS);
        push_digits(out, (0i64 - v as i64) as u64);
        assert(final(out)@ =~= old(out)@ + spec_decimal(v as int));
    } else {
        push_digits(out, v as u64);
    }
}

/// The key under which the map file records the cell `pos`: `x,y`.
pub fn format_hexagon_key(pos: HexagonPos) -> (res: Vec<u8>)
    ensures
        res@ == spec_key_text(pos),
{
    let mut out: Vec<u8> = Vec::new();
    push_decimal(&mut out, pos.x);
    out.push(COMMA);
    push_decimal(&mut out, pos.y);
    assert(out@ =~= spec_key_text(pos));
    out
}

proof fn lemma_digits_props(n: nat)
    ensures
        spec_digits(n).len() > 0,
        all_digits(spec_digits(n)),
        digits_value(spec_digits(n)) == n,
    decreases n,
{
    if n >= 10 {
        lemma_digits_props(n / 10);
        let d = spec_digits(n);
        assert(d.drop_last() =~= spec_digits(n / 10));
        assert(d.last() == (ZERO + n % 10) as u8);
        assert(digits_value(d) == digits_value(spec_digits(n / 10)) * 10 + n % 10);
        assert((n / 10) * 10 + n % 10 == n);
        assert forall|i: int| 0 <= i < d.len() implies is_digit(#[trigger] d[i]) by {
            if i < d.len() - 1 {
                assert(d[i] == spec_digits(n / 10)[i]);
            }
        }
    } else {
        assert(spec_digits(n).drop_last() =~= Seq::<u8>::empty());
        assert(digits_value(Seq::<u8>::empty()) == 0);
        assert(spec_digits(n).last() == (ZERO + n) as u8);
        assert(digits_value(spec_digits(n)) == digits_value(spec_digits(n).drop_last()) * 10 + (spec_digits(n).last() - ZERO) as nat);
    }
}

proof fn lemma_parse_decimal(v: i32)
    ensures
        spec_parse_i32(spec_decimal(v as int)) == Some(v),
        forall|i: int|
            0 <= i < spec_decimal(v as int).len() ==> #[trigger] spec_decimal(v as int)[i] != COMMA,
{
    let d = spec_decimal(v as int);
    if v < 0 {
        lemma_digits_props((-v) as nat);
        assert(d.skip(1) =~= spec_digits((-v) as nat));
        assert(forall|i: int| 0 <= i < d.len() ==> #[trigger] d[i] != COMMA) by {
            assert forall|i: int| 0 <= i < d.len() implies #[trigger] d[i] != COMMA by {
                if i > 0 {
                    assert(d[i] == spec_digits((-v) as nat)[i - 1]);
                }
            }
        }
    } else {
        lemma_digits_props(v as nat);
        assert(d[0] != MINUS && d[0] != PLUS);
    }
}

/// The loader reads back the cell that the generator wrote, turned the right way up:
/// the key of `p` names the cell at column `p.x` and row `-p.y`.
pub proof fn lemma_key_round_trip(p: HexagonPos)
    requires
        p.y != i32::MIN,
    ensures
        spec_parse_key(spec_key_text(p)) == Some(HexagonPos { x: p.x, y: (-p.y) as i32 }),
{
    let t = spec_key_text(p);
    let dx = spec_decimal(p.x as int);
    let dy = spec_decimal(p.y as int);
    lemma_parse_decimal(p.x);
    lemma_parse_decimal(p.y);
    let c = dx.len() as int;
    assert(t[c] == COMMA);
    assert(forall|j: int| 0 <= j < c ==> t[j] != COMMA) by {
        assert forall|j: int| 0 <= j < c implies t[j] != COMMA by {
            assert(t[j] == dx[j]);
        }
    }
    let fc = first_comma(t).unwrap();
    if fc < c {
        assert(t[fc] == dx[fc]);
    } else if fc > c {
        assert(t[c] == COMMA);
    }
    assert(t.take(c) =~= dx);
    assert(t.skip(c + 1) =~= dy);
}

} // verus!
