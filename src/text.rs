//! Byte-level text helpers shared by the framing and header parsers.

use vstd::prelude::*;

verus! {

broadcast use vstd::string::group_string_axioms;

/// The bytes of a 7-bit text.
pub open spec fn ascii_bytes(s: Seq<char>) -> Seq<u8> {
    s.map_values(|c: char| c as u8)
}

/// The bytes of a 7-bit string literal.
pub fn literal_bytes(s: &str) -> (r: &[u8])
    requires
        vstd::string::is_ascii(s),
    ensures
        r@ == ascii_bytes(s@),
{
    s.as_bytes()
}

/// Whitespace as `str::trim` sees it, restricted to 7-bit bytes.
pub open spec fn is_space(b: u8) -> bool {
    (9 <= b && b <= 13) || b == 32
}

pub open spec fn lower_byte(b: u8) -> u8 {
    if 65 <= b && b <= 90 {
        (b + 32) as u8
    } else {
        b
    }
}

pub open spec fn lower(s: Seq<u8>) -> Seq<u8> {
    s.map_values(|b: u8| lower_byte(b))
}

pub open spec fn trim_front(s: Seq<u8>) -> Seq<u8>
    decreases s.len(),
{
    if s.len() > 0 && is_space(s[0]) {
        trim_front(s.drop_first())
    } else {
        s
    }
}

pub open spec fn trim_back(s: Seq<u8>) -> Seq<u8>
    decreases s.len(),
{
    if s.len() > 0 && is_space(s.last()) {
        trim_back(s.drop_last())
    } else {
        s
    }
}

/// Leading and trailing whitespace removed.
pub open spec fn trim(s: Seq<u8>) -> Seq<u8> {
    trim_back(trim_front(s))
}

/// Whether `sample` stands in `data` at `pos` with at least one more byte after it.
pub open spec fn follows_at(data: Seq<u8>, pos: int, sample: Seq<u8>) -> bool {
    0 <= pos && pos + sample.len() < data.len() && data.subrange(pos, pos + sample.len()) == sample
}

/// Whether `sample` stands in `data` at `pos`, possibly as its last bytes.
pub open spec fn stands_at(data: Seq<u8>, pos: int, sample: Seq<u8>) -> bool {
    0 <= pos && pos + sample.len() <= data.len() && data.subrange(pos, pos + sample.len()) == sample
}

pub open spec fn digit_value(b: u8) -> int {
    b as int - 48
}

pub open spec fn is_digit(b: u8) -> bool {
    48 <= b && b <= 57
}

/// The number that a sequence of decimal digits spells.
pub open spec fn digits_value(s: Seq<u8>) -> int
    decreases s.len(),
{
    if s.len() == 0 {
        0
    } else {
        digits_value(s.drop_last()) * 10 + digit_value(s.last())
    }
}

pub open spec fn all_digits(s: Seq<u8>) -> bool {
    forall|i: int| 0 <= i < s.len() ==> is_digit(#[trigger] s[i])
}

/// What `usize::from_str` accepts: an optional `+`, then one or more digits,
/// of a value that fits.
pub open spec fn decimal_of(s: Seq<u8>) -> Option<int> {
    let d = if s.len() > 0 && s[0] == 43u8 {
        s.drop_first()
    } else {
        s
    };
    if d.len() > 0 && all_digits(d) && digits_value(d) <= usize::MAX {
        Some(digits_value(d))
    } else {
        None
    }
}

/// The shortest decimal spelling of `n`, as `format!("{}", n)` writes it.
pub open spec fn decimal(n: nat) -> Seq<u8>
    decreases n,
{
    if n < 10 {
        seq![(n + 48) as u8]
    } else {
        decimal(n / 10).push(((n % 10) + 48) as u8)
    }
}

/// Compares `sample` with `data` at `pos`, with the same strictness as `follows_at`.
pub fn follows(data: &[u8], pos: usize, sample: &[u8]) -> (r: bool)
    ensures
        r == follows_at(data@, pos as int, sample@),
{
    if pos >= data.len() || sample.len() >= data.len() - pos {
        return false;
    }
    let mut i: usize = 0;
    while i < sample.len()
        invariant
            pos + sample.len() < data.len(),
            i <= sample.len(),
            forall|k: int| 0 <= k < i ==> data@[pos + k] == sample@[k],
        decreases sample.len() - i,
    {
        if data[pos + i] != sample[i] {
            assert(data@.subrange(pos as int, pos + sample.len())[i as int] != sample@[i as int]);
            return false;
        }
        i = i + 1;
    }
    assert(data@.subrange(pos as int, pos + sample.len()) =~= sample@);
    true
}

/// Compares `sample` with `data` at `pos`; the sample may end the data.
pub fn stands(data: &[u8], pos: usize, sample: &[u8]) -> (r: bool)
    ensures
        r == stands_at(data@, pos as int, sample@),
{
    if pos > data.len() || sample.len() > data.len() - pos {
        return false;
    }
    let mut i: usize = 0;
    while i < sample.len()
        invariant
            pos + sample.len() <= data.len(),
            i <= sample.len(),
            forall|k: int| 0 <= k < i ==> data@[pos + k] == sample@[k],
        decreases sample.len() - i,
    {
        if data[pos + i] != sample[i] {
            assert(data@.subrange(pos as int, pos + sample.len())[i as int] != sample@[i as int]);
            return false;
        }
        i = i + 1;
    }
    assert(data@.subrange(pos as int, pos + sample.len()) =~= sample@);
    true
}

/// A copy of `s` with ASCII capitals made small, as `to_ascii_lowercase` does.
pub fn lower_bytes(s: &[u8]) -> (r: Vec<u8>)
    ensures
        r@ == lower(s@),
{
    let mut r: Vec<u8> = Vec::new();
    let mut i: usize = 0;
    while i < s.len()
        invariant
            i <= s.len(),
            r@ =~= lower(s@.subrange(0, i as int)),
        decreases s.len() - i,
    {
        let b = s[i];
        let l = if 65 <= b && b <= 90 {
            b + 32
        } else {
            b
        };
        r.push(l);
        i = i + 1;
        assert(r@ =~= lower(s@.subrange(0, i as int)));
    }
    assert(s@.subrange(0, s.len() as int) =~= s@);
    r
}

proof fn lemma_trim_front_skip(s: Seq<u8>, i: int)
    requires
        0 <= i <= s.len(),
        forall|k: int| 0 <= k < i ==> is_space(#[trigger] s[k]),
    ensures
        trim_front(s) == trim_front(s.subrange(i, s.len() as int)),
    decreases i,
{
    if i > 0 {
        assert(s.drop_first().subrange(i - 1, s.drop_first().len() as int) =~= s.subrange(i, s.len() as int));
        lemma_trim_front_skip(s.drop_first(), i - 1);
    } else {
        assert(s.subrange(0, s.len() as int) =~= s);
    }
}

proof fn lemma_trim_back_skip(s: Seq<u8>, j: int)
    requires
        0 <= j <= s.len(),
        forall|k: int| j <= k < s.len() ==> is_space(#[trigger] s[k]),
    ensures
        trim_back(s) == trim_back(s.subrange(0, j)),
    decreases s.len() - j,
{
    if j < s.len() {
        assert(s.drop_last().subrange(0, j) =~= s.subrange(0, j));
        lemma_trim_back_skip(s.drop_last(), j);
    } else {
        assert(s.subrange(0, j) =~= s);
    }
}

/// A copy of `s` without leading and trailing whitespace.
pub fn trim_bytes(s: &[u8]) -> (r: Vec<u8>)
    ensures
        r@ == trim(s@),
{
    let mut i: usize = 0;
    while i < s.len() && ((9 <= s[i] && s[i] <= 13) || s[i] == 32)
        invariant
            i <= s.len(),
            forall|k: int| 0 <= k < i ==> is_space(#[trigger] s@[k]),
        decreases s.len() - i,
    {
        i = i + 1;
    }
    proof {
        lemma_trim_front_skip(s@, i as int);
    }
    let ghost t = s@.subrange(i as int, s.len() as int);
    assert(i < s.len() ==> !is_space(t[0]));
    assert(trim_front(t) == t) by {
        if t.len() > 0 {
            assert(!is_space(t[0]));
        }
    }
    let mut j: usize = s.len();
    while j > i && ((9 <= s[j - 1] && s[j - 1] <= 13) || s[j - 1] == 32)
        invariant
            i <= j <= s.len(),
            t == s@.subrange(i as int, s.len() as int),
            forall|k: int| j - i <= k < t.len() ==> is_space(#[trigger] t[k]),
        decreases j,
    {
        j = j - 1;
    }
    proof {
        lemma_trim_back_skip(t, j - i);
        let u = t.subrange(0, j - i);
        if u.len() > 0 {
            assert(u.last() == s@[j - 1]);
        }
    }
    let mut r: Vec<u8> = Vec::new();
    let mut k: usize = i;
    while k < j
        invariant
            i <= k <= j <= s.len(),
            r@ =~= s@.subrange(i as int, k as int),
        decreases j - k,
    {
        r.push(s[k]);
        k = k + 1;
    }
    assert(r@ =~= t.subrange(0, j - i));
    r
}

/// Reads a decimal `usize` as `str::parse::<usize>` does; `None` where it fails.
pub fn parse_decimal(s: &[u8]) -> (r: Option<usize>)
    ensures
        r matches Some(v) ==> decimal_of(s@) == Some(v as int),
        r is None ==> decimal_of(s@) is None,
{
    let start: usize = if s.len() > 0 && s[0] == 43 {
        1
    } else {
        0
    };
    let ghost d = if s@.len() > 0 && s@[0] == 43u8 {
        s@.drop_first()
    } else {
        s@
    };
    assert(d =~= s@.subrange(start as int, s.len() as int));
    assert(decimal_of(s@) == (if d.len() > 0 && all_digits(d) && digits_value(d) <= usize::MAX {
        Some(digits_value(d))
    } else {
        None
    }));
    if start >= s.len() {
        return None;
    }
    let mut v: usize = 0;
    let mut i: usize = start;
    while i < s.len()
        invariant
            start <= i <= s.len(),
            d =~= s@.subrange(start as int, s.len() as int),
            decimal_of(s@) == (if d.len() > 0 && all_digits(d) && digits_value(d) <= usize::MAX {
                Some(digits_value(d))
            } else {
                None
            }),
            all_digits(s@.subrange(start as int, i as int)),
            v as int == digits_value(s@.subrange(start as int, i as int)),
        decreases s.len() - i,
    {
        let b = s[i];
        if b < 48 || b > 57 {
            assert(d[i - start] == b);
            assert(!all_digits(d));
            return None;
        }
        let dv = (b - 48) as usize;
        assert(s@.subrange(start as int, i + 1).drop_last() =~= s@.subrange(start as int, i as int));
        if v > (usize::MAX - dv) / 10 {
            proof {
                let p = s@.subrange(start as int, i + 1);
                assert(digits_value(p) == v * 10 + dv) by (nonlinear_arith)
                    requires
                        digits_value(p) == digits_value(p.drop_last()) * 10 + digit_value(p.last()),
                        digits_value(p.drop_last()) == v,
                        digit_value(p.last()) == dv,
                ;
                assert(v * 10 + dv > usize::MAX) by (nonlinear_arith)
                    requires
                        v > (usize::MAX - dv) / 10,
                        dv <= 9,
                ;
                assert(d.subrange(0, i + 1 - start) =~= p);
                if all_digits(d) {
                    lemma_digits_prefix_le(d, i + 1 - start);
                }
            }
            return None;
        }
        assert(v * 10 + dv <= usize::MAX) by (nonlinear_arith)
            requires
                v <= (usize::MAX - dv) / 10,
        ;
        v = v * 10 + dv;
        i = i + 1;
        assert(all_digits(s@.subrange(start as int, i as int))) by {
            assert forall|k: int| 0 <= k < i - start implies is_digit(
                #[trigger] s@.subrange(start as int, i as int)[k],
            ) by {
                if k < i - 1 - start {
                    assert(s@.subrange(start as int, i - 1)[k] == s@.subrange(
                        start as int,
                        i as int,
                    )[k]);
                }
            }
        }
    }
    Some(v)
}

proof fn lemma_digits_prefix_le(d: Seq<u8>, n: int)
    requires
        0 <= n <= d.len(),
        all_digits(d),
    ensures
        digits_value(d.subrange(0, n)) <= digits_value(d),
    decreases d.len() - n,
{
    if n < d.len() {
        lemma_digits_prefix_le(d, n + 1);
        let p = d.subrange(0, n + 1);
        assert(p.drop_last() =~= d.subrange(0, n));
        assert(is_digit(d[n]));
        assert(p.last() == d[n]);
        lemma_digits_nonneg(d.subrange(0, n));
    } else {
        assert(d.subrange(0, n) =~= d);
    }
}

proof fn lemma_digits_nonneg(d: Seq<u8>)
    requires
        all_digits(d),
    ensures
        digits_value(d) >= 0,
    decreases d.len(),
{
    if d.len() > 0 {
        assert(all_digits(d.drop_last())) by {
            assert forall|k: int| 0 <= k < d.len() - 1 implies is_digit(#[trigger] d.drop_last()[k]) by {
                assert(d.drop_last()[k] == d[k]);
            }
        }
        lemma_digits_nonneg(d.drop_last());
        assert(is_digit(d[d.len() - 1]));
    }
}

/// Writes `n` in decimal, as `format!("{}", n)` does.
pub fn write_decimal(out: &mut Vec<u8>, n: usize)
    ensures
        final(out)@ == old(out)@ + decimal(n as nat),
    decreases n,
{
    if n >= 10 {
        write_decimal(out, n / 10);
    }
    let d: u8 = (n % 10) as u8;
    out.push(d + 48);
}

} // verus!
