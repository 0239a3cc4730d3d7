//! Character-level text handling: whitespace, trimming, line and word
//! splitting, prefixes, integer parsing and decimal rendering.
use vstd::prelude::*;

verus! {

/// `String::push` appends one character.
pub assume_specification[ String::push ](s: &mut String, ch: char)
    ensures
        final(s)@ == old(s)@.push(ch),
;

/// The Unicode `White_Space` property, which is what `char::is_whitespace` tests.
pub open spec fn is_ws(c: char) -> bool {
    let n = c as u32;
    ||| 0x9 <= n <= 0xd
    ||| n == 0x20
    ||| n == 0x85
    ||| n == 0xa0
    ||| n == 0x1680
    ||| 0x2000 <= n <= 0x200a
    ||| n == 0x2028
    ||| n == 0x2029
    ||| n == 0x202f
    ||| n == 0x205f
    ||| n == 0x3000
}

/// Whether `c` is white space.
pub fn is_whitespace(c: char) -> (r: bool)
    ensures
        r == is_ws(c),
{
    let n = c as u32;
    (0x9 <= n && n <= 0xd) || n == 0x20 || n == 0x85 || n == 0xa0 || n == 0x1680 || (0x2000
        <= n && n <= 0x200a) || n == 0x2028 || n == 0x2029 || n == 0x202f || n == 0x205f || n
        == 0x3000
}

/// The characters of `s`, in order.
pub fn chars_of(s: &str) -> (v: Vec<char>)
    ensures
        v@ == s@,
{
    let mut v: Vec<char> = Vec::new();
    for c in it: s.chars()
        invariant
            v@ == it.seq().take(it.index() as int),
    {
        v.push(c);
    }
    v
}

/// A string made of the characters `s[lo..hi]`.
pub fn string_of_range(s: &[char], lo: usize, hi: usize) -> (r: String)
    requires
        lo <= hi <= s@.len(),
    ensures
        r@ == s@.subrange(lo as int, hi as int),
{
    let mut r = String::new();
    let mut i = lo;
    while i < hi
        invariant
            lo <= i <= hi <= s@.len(),
            r@ == s@.subrange(lo as int, i as int),
        decreases hi - i,
    {
        r.push(s[i]);
        i = i + 1;
        assert(r@ =~= s@.subrange(lo as int, i as int));
    }
    r
}


/// `s` with leading white space removed (`str::trim_start`).
pub open spec fn trim_start(s: Seq<char>) -> Seq<char>
    decreases s.len(),
{
    if s.len() > 0 && is_ws(s[0]) {
        trim_start(s.drop_first())
    } else {
        s
    }
}

/// `s` with trailing white space removed (`str::trim_end`).
pub open spec fn trim_end(s: Seq<char>) -> Seq<char>
    decreases s.len(),
{
    if s.len() > 0 && is_ws(s.last()) {
        trim_end(s.drop_last())
    } else {
        s
    }
}

/// `s` with leading and trailing white space removed (`str::trim`).
pub open spec fn trim(s: Seq<char>) -> Seq<char> {
    trim_end(trim_start(s))
}

proof fn lemma_trim_start_shape(s: Seq<char>) -> (a: int)
    ensures
        0 <= a <= s.len(),
        trim_start(s) == s.skip(a),
        forall|k: int| 0 <= k < a ==> is_ws(#[trigger] s[k]),
        a < s.len() ==> !is_ws(s[a]),
    decreases s.len(),
{
    if s.len() > 0 && is_ws(s[0]) {
        let a1 = lemma_trim_start_shape(s.drop_first());
        assert(s.drop_first().skip(a1) =~= s.skip(a1 + 1));
        assert forall|k: int| 0 <= k < a1 + 1 implies is_ws(#[trigger] s[k]) by {
            if k > 0 {
                assert(s[k] == s.drop_first()[k - 1]);
            }
        }
        assert(a1 + 1 < s.len() ==> s[a1 + 1] == s.drop_first()[a1]);
        a1 + 1
    } else {
        assert(s.skip(0) =~= s);
        0
    }
}

proof fn lemma_trim_end_shape(s: Seq<char>) -> (b: int)
    ensures
        0 <= b <= s.len(),
        trim_end(s) == s.take(b),
        forall|k: int| b <= k < s.len() ==> is_ws(#[trigger] s[k]),
        b > 0 ==> !is_ws(s[b - 1]),
    decreases s.len(),
{
    if s.len() > 0 && is_ws(s.last()) {
        let b1 = lemma_trim_end_shape(s.drop_last());
        assert(s.drop_last().take(b1) =~= s.take(b1));
        assert forall|k: int| b1 <= k < s.len() implies is_ws(#[trigger] s[k]) by {
            if k < s.len() - 1 {
                assert(s[k] == s.drop_last()[k]);
            }
        }
        assert(b1 > 0 ==> s[b1 - 1] == s.drop_last()[b1 - 1]);
        b1
    } else {
        assert(s.take(s.len() as int) =~= s);
        s.len() as int
    }
}

/// `trim` removes exactly the white space at both ends: the result is a
/// stretch `s[a..b]` with only white space before and after it, and it
/// neither begins nor ends with white space.
pub proof fn lemma_trim_shape(s: Seq<char>) -> (r: (int, int))
    ensures
        0 <= r.0 <= r.1 <= s.len(),
        trim(s) == s.subrange(r.0, r.1),
        forall|k: int| 0 <= k < r.0 ==> is_ws(#[trigger] s[k]),
        forall|k: int| r.1 <= k < s.len() ==> is_ws(#[trigger] s[k]),
        trim(s).len() > 0 ==> !is_ws(trim(s)[0]) && !is_ws(trim(s).last()),
{
    let a = lemma_trim_start_shape(s);
    let t = s.skip(a);
    let b = lemma_trim_end_shape(t);
    assert(t.take(b) =~= s.subrange(a, a + b));
    assert forall|k: int| a + b <= k < s.len() implies is_ws(#[trigger] s[k]) by {
        assert(s[k] == t[k - a]);
    }
    if b > 0 {
        assert(trim(s)[0] == s[a]);
        assert(t[b - 1] == s[a + b - 1]);
    }
    (a, a + b)
}

/// The bounds of `trim(s[lo..hi])` inside `s`.
pub fn trim_range(s: &[char], lo: usize, hi: usize) -> (r: (usize, usize))
    requires
        lo <= hi <= s@.len(),
    ensures
        lo <= r.0 <= r.1 <= hi,
        s@.subrange(r.0 as int, r.1 as int) == trim(s@.subrange(lo as int, hi as int)),
{
    let mut a = lo;
    while a < hi && is_whitespace(s[a])
        invariant
            lo <= a <= hi <= s@.len(),
            trim_start(s@.subrange(lo as int, hi as int)) == trim_start(
                s@.subrange(a as int, hi as int),
            ),
        decreases hi - a,
    {
        assert(s@.subrange(a as int, hi as int).drop_first() =~= s@.subrange(
            a + 1,
            hi as int,
        ));
        a = a + 1;
    }
    let mut b = hi;
    while b > a && is_whitespace(s[b - 1])
        invariant
            lo <= a <= b <= hi <= s@.len(),
            trim_start(s@.subrange(lo as int, hi as int)) == s@.subrange(a as int, hi as int),
            trim_end(s@.subrange(a as int, hi as int)) == trim_end(
                s@.subrange(a as int, b as int),
            ),
        decreases b - a,
    {
        assert(s@.subrange(a as int, b as int).drop_last() =~= s@.subrange(
            a as int,
            b - 1,
        ));
        b = b - 1;
    }
    (a, b)
}

/// Whether `s[lo..hi]` begins with `p`.
pub fn has_prefix(s: &[char], lo: usize, hi: usize, p: &[char]) -> (r: bool)
    requires
        lo <= hi <= s@.len(),
    ensures
        r == p@.is_prefix_of(s@.subrange(lo as int, hi as int)),
{
    if p.len() > hi - lo {
        return false;
    }
    let mut i: usize = 0;
    while i < p.len()
        invariant
            lo <= hi <= s@.len(),
            p@.len() <= hi - lo,
            i <= p@.len(),
            forall|j: int| 0 <= j < i ==> s@[lo + j] == p@[j],
        decreases p@.len() - i,
    {
        if s[lo + i] != p[i] {
            assert(s@.subrange(lo as int, hi as int)[i as int] != p@[i as int]);
            return false;
        }
        i = i + 1;
    }
    assert(p@ =~= s@.subrange(lo as int, hi as int).subrange(0, p@.len() as int));
    true
}

/// Whether `s[lo..hi]` is exactly `p`.
pub fn range_equals(s: &[char], lo: usize, hi: usize, p: &[char]) -> (r: bool)
    requires
        lo <= hi <= s@.len(),
    ensures
        r == (s@.subrange(lo as int, hi as int) == p@),
{
    if p.len() != hi - lo {
        assert(s@.subrange(lo as int, hi as int).len() != p@.len());
        return false;
    }
    let b = has_prefix(s, lo, hi, p);
    if b {
        assert(s@.subrange(lo as int, hi as int) =~= s@.subrange(lo as int, hi as int).subrange(0, p@.len() as int));
    }
    b
}

/// The views of the ranges `rs` of `s`.
pub open spec fn range_views(s: Seq<char>, rs: Seq<(usize, usize)>) -> Seq<Seq<char>> {
    rs.map_values(|r: (usize, usize)| s.subrange(r.0 as int, r.1 as int))
}

/// Every range of `rs` lies inside `s`.
pub open spec fn ranges_within(s: Seq<char>, rs: Seq<(usize, usize)>) -> bool {
    forall|j: int| 0 <= j < rs.len() ==> #[trigger] rs[j].0 <= rs[j].1 <= s.len()
}

/// The number of characters before the first line feed (all of them if there is none).
pub open spec fn line_len(s: Seq<char>) -> nat
    decreases s.len(),
{
    if s.len() == 0 || s[0] == '\n' {
        0
    } else {
        1 + line_len(s.drop_first())
    }
}

/// A line without the carriage return that ended it.
pub open spec fn strip_cr(l: Seq<char>) -> Seq<char> {
    if l.len() > 0 && l.last() == '\r' {
        l.drop_last()
    } else {
        l
    }
}

/// The lines of `s`, as `str::lines` yields them: split at each line feed,
/// a carriage return just before the line feed dropped, no empty line after
/// a final line feed.
pub open spec fn lines(s: Seq<char>) -> Seq<Seq<char>>
    decreases s.len(),
{
    if s.len() == 0 {
        seq![]
    } else if line_len(s) < s.len() {
        seq![strip_cr(s.take(line_len(s) as int))] + lines(s.skip(line_len(s) + 1int))
    } else {
        seq![s]
    }
}

proof fn lemma_line_len_step(s: Seq<char>, i: int, j: int, n: int)
    requires
        0 <= i <= j < n <= s.len(),
        s[j] != '\n',
        line_len(s.subrange(i, n)) == (j - i) + line_len(s.subrange(j, n)),
    ensures
        line_len(s.subrange(i, n)) == (j + 1 - i) + line_len(s.subrange(j + 1, n)),
{
    assert(s.subrange(j, n).drop_first() =~= s.subrange(j + 1, n));
}

/// The ranges of `s` that hold its lines.
pub fn line_ranges(s: &[char]) -> (r: Vec<(usize, usize)>)
    ensures
        ranges_within(s@, r@),
        range_views(s@, r@) == lines(s@),
{
    let n = s.len();
    let mut out: Vec<(usize, usize)> = Vec::new();
    let ghost mut acc: Seq<Seq<char>> = seq![];
    let mut i: usize = 0;
    assert(s@.subrange(0, n as int) =~= s@);
    while i < n
        invariant
            n == s@.len(),
            i <= n,
            ranges_within(s@, out@),
            range_views(s@, out@) == acc,
            lines(s@) == acc + lines(s@.subrange(i as int, n as int)),
        decreases n - i,
    {
        let mut j = i;
        while j < n && s[j] != '\n'
            invariant
                n == s@.len(),
                i <= j <= n,
                line_len(s@.subrange(i as int, n as int)) == (j - i) + line_len(
                    s@.subrange(j as int, n as int),
                ),
            decreases n - j,
        {
            proof {
                lemma_line_len_step(s@, i as int, j as int, n as int);
            }
            j = j + 1;
        }
        let ghost rest = s@.subrange(i as int, n as int);
        if j == n {
            assert(line_len(s@.subrange(j as int, n as int)) == 0);
            assert(lines(rest) == seq![rest]);
            out.push((i, n));
            proof {
                assert(range_views(s@, out@) =~= acc.push(rest));
                acc = acc.push(rest);
                assert(s@.subrange(n as int, n as int).len() == 0);
                assert(lines(s@) =~= acc + lines(s@.subrange(n as int, n as int)));
            }
            i = n;
        } else {
            assert(line_len(s@.subrange(j as int, n as int)) == 0);
            assert(rest.take(j - i) =~= s@.subrange(i as int, j as int));
            assert(rest.skip(j - i + 1) =~= s@.subrange(j + 1, n as int));
            let e = if j > i && s[j - 1] == '\r' { j - 1 } else { j };
            assert(s@.subrange(i as int, e as int) == strip_cr(s@.subrange(i as int, j as int))) by {
                if j > i && s@[j - 1] == '\r' {
                    assert(s@.subrange(i as int, j as int).drop_last() =~= s@.subrange(i as int, e as int));
                }
            }
            out.push((i, e));
            proof {
                let l = strip_cr(s@.subrange(i as int, j as int));
                assert(range_views(s@, out@) =~= acc.push(l));
                assert(lines(rest) =~= seq![l] + lines(s@.subrange(j + 1, n as int)));
                acc = acc.push(l);
                assert(lines(s@) =~= acc + lines(s@.subrange(j + 1, n as int)));
            }
            i = j + 1;
        }
    }
    assert(lines(s@.subrange(n as int, n as int)) =~= seq![]);
    assert(lines(s@) =~= acc);
    out
}


/// The number of leading characters of `s` that are not white space.
pub open spec fn word_len(s: Seq<char>) -> nat
    decreases s.len(),
{
    if s.len() == 0 || is_ws(s[0]) {
        0
    } else {
        1 + word_len(s.drop_first())
    }
}

/// A word never runs past the end of the text.
pub proof fn lemma_word_len_bound(s: Seq<char>)
    ensures
        word_len(s) <= s.len(),
    decreases s.len(),
{
    if s.len() > 0 && !is_ws(s[0]) {
        lemma_word_len_bound(s.drop_first());
    }
}

/// The maximal runs of characters that are not white space, in order
/// (`str::split_whitespace`).
pub open spec fn words(s: Seq<char>) -> Seq<Seq<char>>
    decreases s.len(),
{
    if s.len() == 0 {
        seq![]
    } else if is_ws(s[0]) {
        words(s.drop_first())
    } else {
        proof {
            lemma_word_len_bound(s);
        }
        seq![s.take(word_len(s) as int)] + words(s.skip(word_len(s) as int))
    }
}

proof fn lemma_word_len_step(s: Seq<char>, i: int, j: int, n: int)
    requires
        0 <= i <= j < n <= s.len(),
        !is_ws(s[j]),
        word_len(s.subrange(i, n)) == (j - i) + word_len(s.subrange(j, n)),
    ensures
        word_len(s.subrange(i, n)) == (j + 1 - i) + word_len(s.subrange(j + 1, n)),
{
    assert(s.subrange(j, n).drop_first() =~= s.subrange(j + 1, n));
}

/// The ranges of `s[lo..hi]`, as positions in `s`, that hold its words.
pub fn word_ranges(s: &[char], lo: usize, hi: usize) -> (r: Vec<(usize, usize)>)
    requires
        lo <= hi <= s@.len(),
    ensures
        ranges_within(s@, r@),
        range_views(s@, r@) == words(s@.subrange(lo as int, hi as int)),
{
    let mut out: Vec<(usize, usize)> = Vec::new();
    let ghost mut acc: Seq<Seq<char>> = seq![];
    let mut i: usize = lo;
    while i < hi
        invariant
            lo <= i <= hi <= s@.len(),
            ranges_within(s@, out@),
            range_views(s@, out@) == acc,
            words(s@.subrange(lo as int, hi as int)) == acc + words(
                s@.subrange(i as int, hi as int),
            ),
        decreases hi - i,
    {
        let ghost rest = s@.subrange(i as int, hi as int);
        if is_whitespace(s[i]) {
            assert(rest.drop_first() =~= s@.subrange(i + 1, hi as int));
            i = i + 1;
        } else {
            let mut j = i;
            while j < hi && !is_whitespace(s[j])
                invariant
                    lo <= i <= j <= hi <= s@.len(),
                    word_len(s@.subrange(i as int, hi as int)) == (j - i) + word_len(
                        s@.subrange(j as int, hi as int),
                    ),
                decreases hi - j,
            {
                proof {
                    lemma_word_len_step(s@, i as int, j as int, hi as int);
                }
                j = j + 1;
            }
            assert(word_len(s@.subrange(j as int, hi as int)) == 0);
            assert(rest.take(j - i) =~= s@.subrange(i as int, j as int));
            assert(rest.skip(j - i) =~= s@.subrange(j as int, hi as int));
            out.push((i, j));
            proof {
                let w = s@.subrange(i as int, j as int);
                assert(range_views(s@, out@) =~= acc.push(w));
                assert(words(rest) =~= seq![w] + words(s@.subrange(j as int, hi as int)));
                acc = acc.push(w);
                assert(words(s@.subrange(lo as int, hi as int)) =~= acc + words(
                    s@.subrange(j as int, hi as int),
                ));
            }
            i = j;
        }
    }
    assert(words(s@.subrange(hi as int, hi as int)) =~= seq![]);
    assert(words(s@.subrange(lo as int, hi as int)) =~= acc);
    out
}


/// The value of the digit `c` in base `radix` (`char::to_digit`).
pub open spec fn digit_value(c: char, radix: nat) -> Option<nat> {
    let n = c as u32;
    let d: int = if 48 <= n <= 57 {
        n - 48
    } else if 97 <= n <= 122 {
        n - 87
    } else if 65 <= n <= 90 {
        n - 55
    } else {
        radix as int
    };
    if d < radix {
        Some(d as nat)
    } else {
        None
    }
}

/// Every character of `s` is a digit in base `radix`.
pub open spec fn all_digits(s: Seq<char>, radix: nat) -> bool {
    forall|i: int| 0 <= i < s.len() ==> (#[trigger] digit_value(s[i], radix)) is Some
}

/// The number that the digits `s` write in base `radix`.
pub open spec fn digits_value(s: Seq<char>, radix: nat) -> nat
    decreases s.len(),
{
    if s.len() == 0 {
        0
    } else {
        let d = match digit_value(s.last(), radix) {
            Some(d) => d,
            None => 0,
        };
        digits_value(s.drop_last(), radix) * radix + d
    }
}

/// `s` without one leading plus sign.
pub open spec fn unsigned_body(s: Seq<char>) -> Seq<char> {
    if s.len() > 0 && s[0] == '+' {
        s.drop_first()
    } else {
        s
    }
}

/// What `from_str_radix` of an unsigned integer type whose largest value is
/// `max` accepts: an optional `+`, then one or more digits, of a value that fits.
pub open spec fn parse_bounded(s: Seq<char>, radix: nat, max: nat) -> Option<nat> {
    let b = unsigned_body(s);
    if b.len() > 0 && all_digits(b, radix) && digits_value(b, radix) <= max {
        Some(digits_value(b, radix))
    } else {
        None
    }
}

/// `str::parse::<u64>`.
pub open spec fn parse_u64(s: Seq<char>) -> Option<nat> {
    parse_bounded(s, 10, u64::MAX as nat)
}

/// `str::parse::<u32>`.
pub open spec fn parse_u32(s: Seq<char>) -> Option<nat> {
    parse_bounded(s, 10, u32::MAX as nat)
}

fn digit_of(c: char, radix: u32) -> (r: Option<u32>)
    requires
        2 <= radix <= 36,
    ensures
        match digit_value(c, radix as nat) {
            Some(d) => r == Some(d as u32),
            None => r is None,
        },
{
    let n = c as u32;
    let d = if 48 <= n && n <= 57 {
        n - 48
    } else if 97 <= n && n <= 122 {
        n - 87
    } else if 65 <= n && n <= 90 {
        n - 55
    } else {
        radix
    };
    if d < radix {
        Some(d)
    } else {
        None
    }
}

proof fn lemma_digits_value_prefix(b: Seq<char>, radix: nat, k: int)
    requires
        radix >= 1,
        0 <= k <= b.len(),
    ensures
        digits_value(b.take(k), radix) <= digits_value(b, radix),
    decreases b.len(),
{
    if k < b.len() {
        lemma_digits_value_prefix(b.drop_last(), radix, k);
        assert(b.drop_last().take(k) =~= b.take(k));
        let x = digits_value(b.drop_last(), radix);
        assert(x * radix >= x) by (nonlinear_arith)
            requires
                radix >= 1,
        ;
    } else {
        assert(b.take(k) =~= b);
    }
}

/// `from_str_radix` on `s[lo..hi]` for a type whose largest value is `max`.
pub fn parse_range(s: &[char], lo: usize, hi: usize, radix: u32, max: u64) -> (r: Option<u64>)
    requires
        lo <= hi <= s@.len(),
        2 <= radix <= 36,
    ensures
        match parse_bounded(s@.subrange(lo as int, hi as int), radix as nat, max as nat) {
            Some(v) => r == Some(v as u64),
            None => r is None,
        },
{
    let ghost whole = s@.subrange(lo as int, hi as int);
    let b0 = if lo < hi && s[lo] == '+' {
        lo + 1
    } else {
        lo
    };
    assert(unsigned_body(whole) =~= s@.subrange(b0 as int, hi as int));
    let ghost body = s@.subrange(b0 as int, hi as int);
    if b0 == hi {
        return None;
    }
    let mut acc: u64 = 0;
    let mut i = b0;
    assert(s@.subrange(b0 as int, b0 as int) =~= body.take(0));
    while i < hi
        invariant
            lo <= b0 <= i <= hi <= s@.len(),
            2 <= radix <= 36,
            body == s@.subrange(b0 as int, hi as int),
            unsigned_body(whole) == body,
            whole == s@.subrange(lo as int, hi as int),
            all_digits(body.take(i - b0), radix as nat),
            acc as nat == digits_value(body.take(i - b0), radix as nat),
            acc <= max,
        decreases hi - i,
    {
        let ghost k = i - b0;
        match digit_of(s[i], radix) {
            None => {
                assert(digit_value(body[k], radix as nat) is None);
                return None;
            },
            Some(d) => {
                assert(body.take(k + 1).drop_last() =~= body.take(k));
                assert(body.take(k + 1).last() == body[k]);
                assert((acc as int) * (radix as int) <= 36 * 0xffff_ffff_ffff_ffffint) by (nonlinear_arith)
                    requires
                        acc <= 0xffff_ffff_ffff_ffffu64,
                        radix <= 36,
                ;
                let new_val: u128 = (acc as u128) * (radix as u128) + (d as u128);
                assert(digits_value(body.take(k + 1), radix as nat) == acc * radix + d);
                if new_val > max as u128 {
                    proof {
                        if all_digits(body, radix as nat) {
                            lemma_digits_value_prefix(body, radix as nat, k + 1);
                        }
                    }
                    return None;
                }
                acc = new_val as u64;
                i = i + 1;
                assert forall|j: int| 0 <= j < i - b0 implies (#[trigger] digit_value(
                    body.take(i - b0)[j],
                    radix as nat,
                )) is Some by {
                    if j < k {
                        assert(body.take(i - b0)[j] == body.take(k)[j]);
                    }
                }
            },
        }
    }
    assert(body.take(hi - b0) =~= body);
    Some(acc)
}

/// The character of the decimal digit `d`.
pub open spec fn digit_char(d: nat) -> char {
    (48 + d) as char
}

/// The decimal rendering of `n` (`u64`'s `Display`).
pub open spec fn decimal(n: nat) -> Seq<char>
    decreases n,
{
    if n < 10 {
        seq![digit_char(n)]
    } else {
        decimal(n / 10).push(digit_char(n % 10))
    }
}

/// A decimal rendering is one or more digits, with no leading zero but for
/// 0 itself, and it parses back to the number it renders.
pub proof fn lemma_decimal_parses_back(n: nat)
    ensures
        decimal(n).len() > 0,
        all_digits(decimal(n), 10),
        digits_value(decimal(n), 10) == n,
        decimal(n)[0] != '0' || n == 0,
        n <= u64::MAX ==> parse_u64(decimal(n)) == Some(n),
        n > u64::MAX ==> parse_u64(decimal(n)) is None,
    decreases n,
{
    let k = if n < 10 { n } else { n % 10 };
    let c = digit_char(k);
    assert((c as u32) == 48 + k);
    assert(digit_value(c, 10) == Some(k));
    if n >= 10 {
        lemma_decimal_parses_back(n / 10);
        let d = decimal(n);
        assert(d.drop_last() == decimal(n / 10));
        assert(d.last() == c);
        assert forall|i: int| 0 <= i < d.len() implies (#[trigger] digit_value(d[i], 10)) is Some by {
            if i < d.len() - 1 {
                assert(d[i] == decimal(n / 10)[i]);
            }
        }
        assert(d[0] == decimal(n / 10)[0]);
        assert(n == (n / 10) * 10 + n % 10);
        assert(digits_value(d, 10) == digits_value(d.drop_last(), 10) * 10 + k);
        assert(digits_value(d, 10) == n);
    } else {
        assert(decimal(n) =~= seq![c]);
        assert(seq![c].drop_last() =~= Seq::<char>::empty());
        assert(digits_value(Seq::<char>::empty(), 10) == 0);
        assert(seq![c].last() == c);
        assert(digits_value(seq![c], 10) == digits_value(seq![c].drop_last(), 10) * 10 + k);
        assert(digits_value(decimal(n), 10) == n);
    }
    assert(digit_value(decimal(n)[0], 10) is Some);
    assert(('+' as u32) == 43);
    assert(decimal(n)[0] != '+');
    assert(unsigned_body(decimal(n)) == decimal(n));
}

/// Appends the decimal rendering of `n` to `r`.
pub fn push_decimal(r: &mut String, n: u64)
    ensures
        final(r)@ == old(r)@ + decimal(n as nat),
    decreases n,
{
    if n >= 10 {
        push_decimal(r, n / 10);
    }
    let d = (n % 10) as u8;
    let c = (48u8 + d) as char;
    assert(c == digit_char((n % 10) as nat));
    r.push(c);
    assert(r@ =~= old(r)@ + decimal(n as nat));
}


/// The number of characters of `s` before the first `c` (all of them if there is none).
pub open spec fn run_before(s: Seq<char>, c: char) -> nat
    decreases s.len(),
{
    if s.len() == 0 || s[0] == c {
        0
    } else {
        1 + run_before(s.drop_first(), c)
    }
}

/// No character before the first `c` is a `c`.
pub proof fn lemma_run_before_excludes(s: Seq<char>, c: char)
    ensures
        run_before(s, c) <= s.len(),
        !s.take(run_before(s, c) as int).contains(c),
        run_before(s, c) < s.len() ==> s[run_before(s, c) as int] == c,
    decreases s.len(),
{
    if s.len() > 0 && s[0] != c {
        lemma_run_before_excludes(s.drop_first(), c);
        let k: int = run_before(s.drop_first(), c) as int;
        assert(s.take(k + 1) =~= seq![s[0]] + s.drop_first().take(k));
        if s.take(k + 1).contains(c) {
            let j = choose|j: int| 0 <= j < s.take(k + 1).len() && #[trigger] s.take(k + 1)[j] == c;
            assert(j > 0);
            assert(s.drop_first().take(k)[j - 1] == c);
        }
    }
}

/// The first `c` of `s` is at `k` when none comes before `k` and `k` holds one or is the end.
pub proof fn lemma_run_before_is_first(s: Seq<char>, c: char, k: int)
    requires
        0 <= k <= s.len(),
        forall|j: int| 0 <= j < k ==> s[j] != c,
        k < s.len() ==> s[k] == c,
        k == s.len() || s[k] == c,
    ensures
        run_before(s, c) == k,
    decreases k,
{
    if k > 0 {
        lemma_run_before_is_first(s.drop_first(), c, k - 1);
    }
}

/// The position of the first `c` in `s[lo..hi]`, or `hi` if there is none.
pub fn find_char(s: &[char], lo: usize, hi: usize, c: char) -> (r: usize)
    requires
        lo <= hi <= s@.len(),
    ensures
        lo <= r <= hi,
        r == lo + run_before(s@.subrange(lo as int, hi as int), c),
{
    let mut j = lo;
    while j < hi && s[j] != c
        invariant
            lo <= j <= hi <= s@.len(),
            run_before(s@.subrange(lo as int, hi as int), c) == (j - lo) + run_before(
                s@.subrange(j as int, hi as int),
                c,
            ),
        decreases hi - j,
    {
        assert(s@.subrange(j as int, hi as int).drop_first() =~= s@.subrange(j + 1, hi as int));
        j = j + 1;
    }
    j
}

/// `s` with every leading and trailing `c` removed (`str::trim_matches` with a character).
pub open spec fn trim_char(s: Seq<char>, c: char) -> Seq<char> {
    trim_char_end(trim_char_start(s, c), c)
}

/// `s` with every leading `c` removed.
pub open spec fn trim_char_start(s: Seq<char>, c: char) -> Seq<char>
    decreases s.len(),
{
    if s.len() > 0 && s[0] == c {
        trim_char_start(s.drop_first(), c)
    } else {
        s
    }
}

/// `s` with every trailing `c` removed.
pub open spec fn trim_char_end(s: Seq<char>, c: char) -> Seq<char>
    decreases s.len(),
{
    if s.len() > 0 && s.last() == c {
        trim_char_end(s.drop_last(), c)
    } else {
        s
    }
}

/// The bounds of `trim_char(s[lo..hi], c)` inside `s`.
pub fn trim_char_range(s: &[char], lo: usize, hi: usize, c: char) -> (r: (usize, usize))
    requires
        lo <= hi <= s@.len(),
    ensures
        lo <= r.0 <= r.1 <= hi,
        s@.subrange(r.0 as int, r.1 as int) == trim_char(s@.subrange(lo as int, hi as int), c),
{
    let mut a = lo;
    while a < hi && s[a] == c
        invariant
            lo <= a <= hi <= s@.len(),
            trim_char_start(s@.subrange(lo as int, hi as int), c) == trim_char_start(
                s@.subrange(a as int, hi as int),
                c,
            ),
        decreases hi - a,
    {
        assert(s@.subrange(a as int, hi as int).drop_first() =~= s@.subrange(a + 1, hi as int));
        a = a + 1;
    }
    let mut b = hi;
    while b > a && s[b - 1] == c
        invariant
            lo <= a <= b <= hi <= s@.len(),
            trim_char_start(s@.subrange(lo as int, hi as int), c) == s@.subrange(
                a as int,
                hi as int,
            ),
            trim_char_end(s@.subrange(a as int, hi as int), c) == trim_char_end(
                s@.subrange(a as int, b as int),
                c,
            ),
        decreases b - a,
    {
        assert(s@.subrange(a as int, b as int).drop_last() =~= s@.subrange(a as int, b - 1));
        b = b - 1;
    }
    (a, b)
}

/// `s` with every leading `0x` removed (`str::trim_start_matches("0x")`).
pub open spec fn strip_hex_marks(s: Seq<char>) -> Seq<char>
    decreases s.len(),
{
    if s.len() >= 2 && s[0] == '0' && s[1] == 'x' {
        strip_hex_marks(s.skip(2))
    } else {
        s
    }
}

/// The start of `strip_hex_marks(s[lo..hi])` inside `s`.
pub fn strip_hex_marks_range(s: &[char], lo: usize, hi: usize) -> (r: usize)
    requires
        lo <= hi <= s@.len(),
    ensures
        lo <= r <= hi,
        s@.subrange(r as int, hi as int) == strip_hex_marks(s@.subrange(lo as int, hi as int)),
{
    let mut a = lo;
    while hi - a >= 2 && s[a] == '0' && s[a + 1] == 'x'
        invariant
            lo <= a <= hi <= s@.len(),
            strip_hex_marks(s@.subrange(lo as int, hi as int)) == strip_hex_marks(
                s@.subrange(a as int, hi as int),
            ),
        decreases hi - a,
    {
        assert(s@.subrange(a as int, hi as int).skip(2) =~= s@.subrange(a + 2, hi as int));
        a = a + 2;
    }
    a
}

/// `s` with every occurrence of `p` taken out, leftmost first (`str::replace(p, "")`).
pub open spec fn remove_all(s: Seq<char>, p: Seq<char>) -> Seq<char>
    decreases s.len(),
{
    if p.len() == 0 || s.len() == 0 {
        s
    } else if p.is_prefix_of(s) {
        remove_all(s.skip(p.len() as int), p)
    } else {
        seq![s[0]] + remove_all(s.drop_first(), p)
    }
}

/// Taking out `p` leaves a text in which `p` occurs nowhere unchanged.
pub proof fn lemma_remove_all_absent(s: Seq<char>, p: Seq<char>)
    requires
        p.len() > 0,
        forall|k: int| 0 <= k <= s.len() - p.len() ==> !p.is_prefix_of(#[trigger] s.skip(k)),
    ensures
        remove_all(s, p) == s,
    decreases s.len(),
{
    if s.len() > 0 {
        assert(s.skip(0) =~= s);
        if p.len() <= s.len() {
            assert(!p.is_prefix_of(s.skip(0)));
        } else {
            assert(!p.is_prefix_of(s));
        }
        let d = s.drop_first();
        assert forall|k: int| 0 <= k <= d.len() - p.len() implies !p.is_prefix_of(#[trigger] d.skip(k)) by {
            assert(d.skip(k) =~= s.skip(k + 1));
            assert(!p.is_prefix_of(s.skip(k + 1)));
        }
        lemma_remove_all_absent(d, p);
        assert(seq![s[0]] + d =~= s);
    }
}

/// `s[lo..hi]` with every occurrence of `p` taken out.
pub fn remove_all_range(s: &[char], lo: usize, hi: usize, p: &[char]) -> (r: String)
    requires
        lo <= hi <= s@.len(),
        p@.len() > 0,
    ensures
        r@ == remove_all(s@.subrange(lo as int, hi as int), p@),
{
    let mut r = String::new();
    let mut i = lo;
    while i < hi
        invariant
            lo <= i <= hi <= s@.len(),
            p@.len() > 0,
            remove_all(s@.subrange(lo as int, hi as int), p@) == r@ + remove_all(
                s@.subrange(i as int, hi as int),
                p@,
            ),
        decreases hi - i,
    {
        let ghost rest = s@.subrange(i as int, hi as int);
        if has_prefix(s, i, hi, p) {
            assert(rest.skip(p@.len() as int) =~= s@.subrange(i + p@.len(), hi as int));
            i = i + p.len();
        } else {
            let ghost old_r = r@;
            r.push(s[i]);
            assert(rest.drop_first() =~= s@.subrange(i + 1, hi as int));
            assert(remove_all(rest, p@) == seq![s@[i as int]] + remove_all(
                s@.subrange(i + 1, hi as int),
                p@,
            ));
            assert(old_r + remove_all(rest, p@) =~= r@ + remove_all(
                s@.subrange(i + 1, hi as int),
                p@,
            ));
            i = i + 1;
        }
    }
    assert(remove_all(s@.subrange(hi as int, hi as int), p@) =~= seq![]);
    assert(r@ + seq![] =~= r@);
    r
}

/// The pieces of `ws` joined with one space between each two (`join(" ")`).
pub open spec fn join_spaced(ws: Seq<Seq<char>>) -> Seq<char>
    decreases ws.len(),
{
    if ws.len() == 0 {
        seq![]
    } else if ws.len() == 1 {
        ws[0]
    } else {
        join_spaced(ws.drop_last()) + seq![' '] + ws.last()
    }
}

/// The ranges `rs[from..]` of `s`, joined with one space between each two.
pub fn join_ranges(s: &[char], rs: &Vec<(usize, usize)>, from: usize) -> (r: String)
    requires
        ranges_within(s@, rs@),
        from <= rs@.len(),
    ensures
        r@ == join_spaced(range_views(s@, rs@).skip(from as int)),
{
    let ghost views = range_views(s@, rs@);
    let mut r = String::new();
    let mut i = from;
    assert(views.subrange(from as int, from as int) =~= seq![]);
    while i < rs.len()
        invariant
            ranges_within(s@, rs@),
            views == range_views(s@, rs@),
            from <= i <= rs@.len(),
            r@ == join_spaced(views.subrange(from as int, i as int)),
        decreases rs@.len() - i,
    {
        let (a, b) = rs[i];
        assert(rs@[i as int].0 <= rs@[i as int].1 <= s@.len());
        let ghost old_r = r@;
        if i > from {
            r.push(' ');
        }
        let mut k = a;
        while k < b
            invariant
                a <= k <= b <= s@.len(),
                r@ == (if i > from { old_r + seq![' '] } else { old_r }) + s@.subrange(
                    a as int,
                    k as int,
                ),
            decreases b - k,
        {
            r.push(s[k]);
            k = k + 1;
            assert(r@ =~= (if i > from { old_r + seq![' '] } else { old_r }) + s@.subrange(
                a as int,
                k as int,
            ));
        }
        proof {
            let next = views.subrange(from as int, i + 1);
            assert(next.drop_last() =~= views.subrange(from as int, i as int));
            assert(next.last() == s@.subrange(a as int, b as int));
            if i > from {
                assert(r@ =~= join_spaced(next));
            } else {
                assert(old_r =~= seq![]);
                assert(r@ =~= join_spaced(next));
            }
        }
        i = i + 1;
    }
    assert(views.subrange(from as int, rs@.len() as int) =~= views.skip(from as int));
    r
}


/// `s.trim()` as a `String`.
pub fn trimmed(s: &str) -> (r: String)
    ensures
        r@ == trim(s@),
{
    let c = chars_of(s);
    assert(c@.subrange(0, c@.len() as int) =~= c@);
    let (a, b) = trim_range(&c, 0, c.len());
    string_of_range(&c, a, b)
}

/// The piece `i` of `s`, given the ranges that `line_ranges` or `word_ranges` returned.
pub proof fn lemma_range_at(s: Seq<char>, rs: Seq<(usize, usize)>, ws: Seq<Seq<char>>, i: int)
    requires
        ranges_within(s, rs),
        range_views(s, rs) == ws,
        0 <= i < rs.len(),
    ensures
        rs[i].0 <= rs[i].1 <= s.len(),
        ws.len() == rs.len(),
        ws[i] == s.subrange(rs[i].0 as int, rs[i].1 as int),
{
    assert(range_views(s, rs)[i] == s.subrange(rs[i].0 as int, rs[i].1 as int));
}


/// Whether `p` begins `s`.
pub fn starts_with_str(s: &[char], p: &str) -> (r: bool)
    ensures
        r == p@.is_prefix_of(s@),
{
    let pc = chars_of(p);
    assert(s@.subrange(0, s@.len() as int) =~= s@);
    has_prefix(s, 0, s.len(), &pc)
}

/// Whether `s` is `p`.
pub fn equals_str(s: &[char], p: &str) -> (r: bool)
    ensures
        r == (s@ == p@),
{
    let pc = chars_of(p);
    assert(s@.subrange(0, s@.len() as int) =~= s@);
    range_equals(s, 0, s.len(), &pc)
}

/// The characters of an optional string.
pub open spec fn opt_view(o: Option<&str>) -> Option<Seq<char>> {
    match o {
        Some(s) => Some(s@),
        None => None,
    }
}

/// The characters of an optional `String`.
pub open spec fn opt_string_view(o: Option<String>) -> Option<Seq<char>> {
    match o {
        Some(s) => Some(s@),
        None => None,
    }
}

} // verus!
