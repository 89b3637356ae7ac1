//! String primitives: standard-library calls given the contracts their
//! documentation states, and small verified text helpers (whitespace,
//! trimming, splitting into runs, decimal rendering and integer parsing).

use vstd::prelude::*;

verus! {

/// `String::from(&str)`: an owned copy of the given text.
pub fn string_from(s: &str) -> (r: String)
    ensures
        r@ == s@,
{
    String::from_str(s)
}

/// The concatenation of two texts into a new `String`.
pub fn concat(a: &str, b: &str) -> (r: String)
    ensures
        r@ == a@ + b@,
{
    let mut r = String::from_str(a);
    r.append(b);
    r
}

/// `<str as PartialEq>::eq`: std documents that two string slices are equal
/// exactly when they hold the same characters.
#[verifier::external_body]
pub(crate) fn str_eq(a: &str, b: &str) -> (r: bool)
    ensures
        r == (a@ == b@),
{
    a == b
}

/// `String::push`: std documents that it appends the character to the end.
#[verifier::external_body]
pub(crate) fn push_char(s: &mut String, c: char)
    ensures
        final(s)@ == old(s)@.push(c),
{
    s.push(c)
}

/// `str::chars` collected into a vector: std documents that `chars` yields
/// the characters of the text in order.
#[verifier::external_body]
pub(crate) fn chars_of(s: &str) -> (r: Vec<char>)
    ensures
        r@ == s@,
{
    s.chars().collect()
}

/// The name for what `str::to_lowercase` returns: the Unicode lowercase
/// mapping of the text.
pub uninterp spec fn lowercase_of(s: Seq<char>) -> Seq<char>;

/// `str::to_lowercase`: the result is named [`lowercase_of`] of the input;
/// the Unicode mapping tables themselves are not restated.
#[verifier::external_body]
pub(crate) fn to_lowercase(s: &str) -> (r: String)
    ensures
        r@ == lowercase_of(s@),
{
    s.to_lowercase()
}

/// The name for what `char::is_alphanumeric` returns: whether the character
/// has the Unicode `Alphabetic` or `Numeric` property.
pub uninterp spec fn alphanumeric(c: char) -> bool;

/// `char::is_alphanumeric`: the result is named [`alphanumeric`] of the
/// character; the Unicode property tables are not restated.
#[verifier::external_body]
pub(crate) fn is_alphanumeric(c: char) -> (r: bool)
    ensures
        r == alphanumeric(c),
{
    c.is_alphanumeric()
}

/// A `String` holding exactly the given characters.
pub fn string_of_chars(cs: &Vec<char>) -> (r: String)
    ensures
        r@ == cs@,
{
    let mut r = String::new();
    let mut i: usize = 0;
    while i < cs.len()
        invariant
            i <= cs.len(),
            r@ == cs@.subrange(0, i as int),
        decreases cs.len() - i,
    {
        push_char(&mut r, cs[i]);
        i = i + 1;
        assert(r@ =~= cs@.subrange(0, i as int));
    }
    assert(r@ =~= cs@);
    r
}

/// Whether `s` ends with `suffix`.
pub open spec fn has_suffix(s: Seq<char>, suffix: Seq<char>) -> bool {
    suffix.len() <= s.len() && s.subrange(s.len() - suffix.len(), s.len() as int) == suffix
}

/// `str::ends_with` for a text suffix.
pub fn ends_with(s: &str, suffix: &str) -> (r: bool)
    ensures
        r == has_suffix(s@, suffix@),
{
    let cs = chars_of(s);
    let xs = chars_of(suffix);
    if xs.len() > cs.len() {
        return false;
    }
    let off = cs.len() - xs.len();
    let mut i: usize = 0;
    while i < xs.len()
        invariant
            cs@ == s@,
            xs@ == suffix@,
            off + xs.len() == cs.len(),
            i <= xs@.len(),
            forall|j: int| 0 <= j < i ==> cs@[off + j] == xs@[j],
        decreases xs.len() - i,
    {
        if cs[off + i] != xs[i] {
            assert(s@.subrange(s@.len() - suffix@.len(), s@.len() as int)[i as int] != suffix@[i as int]);
            return false;
        }
        i = i + 1;
    }
    assert(s@.subrange(s@.len() - suffix@.len(), s@.len() as int) =~= suffix@);
    true
}

// ---------- whitespace ----------

/// The Unicode `White_Space` property, which `char::is_whitespace` tests.
pub open spec fn is_ws(c: char) -> bool {
    let n = c as u32;
    ||| 0x09 <= n <= 0x0D
    ||| n == 0x20
    ||| n == 0x85
    ||| n == 0xA0
    ||| n == 0x1680
    ||| 0x2000 <= n <= 0x200A
    ||| n == 0x2028
    ||| n == 0x2029
    ||| n == 0x202F
    ||| n == 0x205F
    ||| n == 0x3000
}

/// Whether `c` is Unicode white space.
pub fn is_whitespace(c: char) -> (r: bool)
    ensures
        r == is_ws(c),
{
    let n = c as u32;
    (0x09 <= n && n <= 0x0D) || n == 0x20 || n == 0x85 || n == 0xA0 || n == 0x1680 || (0x2000
        <= n && n <= 0x200A) || n == 0x2028 || n == 0x2029 || n == 0x202F || n == 0x205F || n
        == 0x3000
}

/// Number of leading white-space characters of `s`.
pub open spec fn lead_ws(s: Seq<char>) -> nat
    decreases s.len(),
{
    if s.len() > 0 && is_ws(s[0]) {
        1 + lead_ws(s.drop_first())
    } else {
        0
    }
}

/// Number of trailing white-space characters of `s`.
pub open spec fn trail_ws(s: Seq<char>) -> nat
    decreases s.len(),
{
    if s.len() > 0 && is_ws(s.last()) {
        1 + trail_ws(s.drop_last())
    } else {
        0
    }
}

/// `s` with leading and trailing white space removed (what `str::trim` returns).
pub open spec fn trimmed(s: Seq<char>) -> Seq<char> {
    let t = s.skip(lead_ws(s) as int);
    t.take(t.len() - trail_ws(t))
}

proof fn lemma_lead_ws(s: Seq<char>, i: int)
    requires
        0 <= i <= s.len(),
        forall|k: int| 0 <= k < i ==> is_ws(#[trigger] s[k]),
        i == s.len() || !is_ws(s[i]),
    ensures
        lead_ws(s) == i,
    decreases i,
{
    if i > 0 {
        lemma_lead_ws(s.drop_first(), i - 1);
    }
}

proof fn lemma_trail_ws(s: Seq<char>, j: int)
    requires
        0 <= j <= s.len(),
        forall|k: int| j <= k < s.len() ==> is_ws(#[trigger] s[k]),
        j == 0 || !is_ws(s[j - 1]),
    ensures
        trail_ws(s) == s.len() - j,
    decreases s.len() - j,
{
    if j < s.len() {
        lemma_trail_ws(s.drop_last(), j);
    }
}

/// `str::trim`: the text without leading and trailing white space.
pub fn trim(s: &str) -> (r: String)
    ensures
        r@ == trimmed(s@),
{
    let cs = chars_of(s);
    let n = cs.len();
    let mut i: usize = 0;
    while i < n && is_whitespace(cs[i])
        invariant
            n == cs@.len(),
            i <= n,
            forall|k: int| 0 <= k < i ==> is_ws(#[trigger] cs@[k]),
        decreases n - i,
    {
        i = i + 1;
    }
    proof {
        lemma_lead_ws(cs@, i as int);
    }
    let mut j: usize = n;
    while j > i && is_whitespace(cs[j - 1])
        invariant
            n == cs@.len(),
            i <= j <= n,
            forall|k: int| j <= k < n ==> is_ws(#[trigger] cs@[k]),
        decreases j,
    {
        j = j - 1;
    }
    let ghost t = cs@.skip(i as int);
    proof {
        assert forall|k: int| j - i <= k < t.len() implies is_ws(#[trigger] t[k]) by {
            assert(t[k] == cs@[k + i]);
        }
        if j > i {
            assert(t[j - i - 1] == cs@[j - 1]);
        }
        lemma_trail_ws(t, j - i);
    }
    let mut out: Vec<char> = Vec::new();
    let mut k: usize = i;
    while k < j
        invariant
            n == cs@.len(),
            i <= k <= j <= n,
            out@ == cs@.subrange(i as int, k as int),
        decreases j - k,
    {
        out.push(cs[k]);
        k = k + 1;
        assert(out@ =~= cs@.subrange(i as int, k as int));
    }
    assert(out@ =~= t.take(t.len() - trail_ws(t)));
    string_of_chars(&out)
}

// ---------- splitting into runs ----------

/// The maximal runs of characters satisfying `keep`, scanning `s` left to
/// right with the run `cur` under construction and the finished runs `acc`.
pub open spec fn runs_from(s: Seq<char>, keep: spec_fn(char) -> bool, cur: Seq<char>, acc: Seq<
    Seq<char>,
>) -> Seq<Seq<char>>
    decreases s.len(),
{
    if s.len() == 0 {
        if cur.len() > 0 {
            acc.push(cur)
        } else {
            acc
        }
    } else if keep(s[0]) {
        runs_from(s.drop_first(), keep, cur.push(s[0]), acc)
    } else if cur.len() > 0 {
        runs_from(s.drop_first(), keep, seq![], acc.push(cur))
    } else {
        runs_from(s.drop_first(), keep, cur, acc)
    }
}

/// The maximal runs of characters of `s` that satisfy `keep`, in order.
pub open spec fn runs(s: Seq<char>, keep: spec_fn(char) -> bool) -> Seq<Seq<char>> {
    runs_from(s, keep, seq![], seq![])
}

/// The views of a vector of strings.
pub open spec fn views(v: Seq<String>) -> Seq<Seq<char>> {
    v.map_values(|t: String| t@)
}

/// Every run is non-empty and holds only characters that satisfy `keep`.
pub proof fn lemma_runs_well_formed(
    s: Seq<char>,
    keep: spec_fn(char) -> bool,
    cur: Seq<char>,
    acc: Seq<Seq<char>>,
)
    requires
        forall|k: int| 0 <= k < cur.len() ==> keep(#[trigger] cur[k]),
        forall|t: int|
            0 <= t < acc.len() ==> (#[trigger] acc[t]).len() > 0 && forall|k: int|
                0 <= k < acc[t].len() ==> keep(#[trigger] acc[t][k]),
    ensures
        forall|t: int|
            0 <= t < runs_from(s, keep, cur, acc).len() ==> (#[trigger] runs_from(
                s,
                keep,
                cur,
                acc,
            )[t]).len() > 0 && forall|k: int|
                0 <= k < runs_from(s, keep, cur, acc)[t].len() ==> keep(
                    #[trigger] runs_from(s, keep, cur, acc)[t][k],
                ),
    decreases s.len(),
{
    if s.len() == 0 {
        if cur.len() > 0 {
            let a2 = acc.push(cur);
            assert forall|t: int|
                0 <= t < a2.len() implies (#[trigger] a2[t]).len() > 0 && forall|k: int|
                    0 <= k < a2[t].len() ==> keep(#[trigger] a2[t][k]) by {
                if t < acc.len() {
                    assert(a2[t] == acc[t]);
                } else {
                    assert(a2[t] == cur);
                }
            }
        }
    } else if keep(s[0]) {
        let c2 = cur.push(s[0]);
        assert forall|k: int| 0 <= k < c2.len() implies keep(#[trigger] c2[k]) by {
            if k < cur.len() {
                assert(c2[k] == cur[k]);
            }
        }
        assert(runs_from(s, keep, cur, acc) == runs_from(s.drop_first(), keep, c2, acc));
        lemma_runs_well_formed(s.drop_first(), keep, c2, acc);
    } else if cur.len() > 0 {
        let a2 = acc.push(cur);
        assert forall|t: int|
            0 <= t < a2.len() implies (#[trigger] a2[t]).len() > 0 && forall|k: int|
                0 <= k < a2[t].len() ==> keep(#[trigger] a2[t][k]) by {
            if t < acc.len() {
                assert(a2[t] == acc[t]);
            } else {
                assert(a2[t] == cur);
            }
        }
        assert(runs_from(s, keep, cur, acc) == runs_from(s.drop_first(), keep, seq![], a2));
        lemma_runs_well_formed(s.drop_first(), keep, seq![], a2);
    } else {
        assert(runs_from(s, keep, cur, acc) == runs_from(s.drop_first(), keep, cur, acc));
        lemma_runs_well_formed(s.drop_first(), keep, cur, acc);
    }
}

/// The white-space separated words of `s` (what `str::split_whitespace` yields).
pub open spec fn words(s: Seq<char>) -> Seq<Seq<char>> {
    runs(s, |c: char| !is_ws(c))
}

/// `str::split_whitespace`: the maximal runs of non-white-space characters.
pub fn split_whitespace(s: &str) -> (r: Vec<String>)
    ensures
        views(r@) == words(s@),
{
    let cs = chars_of(s);
    let ghost keep = |c: char| !is_ws(c);
    let mut acc: Vec<String> = Vec::new();
    let mut cur: Vec<char> = Vec::new();
    let mut i: usize = 0;
    assert(cs@.skip(0) =~= cs@);
    assert(views(acc@) =~= Seq::<Seq<char>>::empty());
    while i < cs.len()
        invariant
            i <= cs.len(),
            cs@ == s@,
            keep == (|c: char| !is_ws(c)),
            words(s@) == runs_from(cs@.skip(i as int), keep, cur@, views(acc@)),
        decreases cs.len() - i,
    {
        let c = cs[i];
        let ghost rest = cs@.skip(i as int);
        assert(rest[0] == c);
        assert(rest.drop_first() =~= cs@.skip(i + 1));
        if !is_whitespace(c) {
            cur.push(c);
        } else if cur.len() > 0 {
            let ghost before = acc@;
            let w = string_of_chars(&cur);
            acc.push(w);
            assert(views(acc@) =~= views(before).push(cur@));
            cur = Vec::new();
            assert(cur@ =~= Seq::<char>::empty());
        }
        i = i + 1;
    }
    assert(cs@.skip(i as int) =~= Seq::<char>::empty());
    if cur.len() > 0 {
        let ghost before = acc@;
        let w = string_of_chars(&cur);
        acc.push(w);
        assert(views(acc@) =~= views(before).push(cur@));
    }
    acc
}

// ---------- decimal rendering ----------

/// The character of decimal digit `d` (for `d < 10`).
pub open spec fn digit_char(d: nat) -> char {
    ((48 + d) as u32) as char
}

/// The decimal rendering of `n`, most significant digit first, no leading zeros.
pub open spec fn decimal(n: nat) -> Seq<char>
    decreases n,
{
    if n < 10 {
        seq![digit_char(n)]
    } else {
        decimal(n / 10).push(digit_char(n % 10))
    }
}

/// Append the decimal rendering of `n` to `s`.
pub fn push_decimal(s: &mut String, n: usize)
    ensures
        final(s)@ == old(s)@ + decimal(n as nat),
    decreases n,
{
    if n >= 10 {
        push_decimal(s, n / 10);
    }
    let d = (n % 10) as u8;
    let c = (48u8 + d) as char;
    assert(c == digit_char((n % 10) as nat));
    push_char(s, c);
    assert(final(s)@ =~= old(s)@ + decimal(n as nat));
}

/// The decimal rendering of `n` (what `format!("{n}")` prints).
pub fn usize_to_string(n: usize) -> (r: String)
    ensures
        r@ == decimal(n as nat),
{
    let mut r = String::new();
    push_decimal(&mut r, n);
    assert(r@ =~= decimal(n as nat));
    r
}

// ---------- integer parsing ----------

/// ASCII decimal digit.
pub open spec fn is_digit(c: char) -> bool {
    '0' <= c <= '9'
}

/// All characters are ASCII decimal digits.
pub open spec fn all_digits(s: Seq<char>) -> bool {
    forall|k: int| 0 <= k < s.len() ==> is_digit(#[trigger] s[k])
}

/// The value of a string of decimal digits.
pub open spec fn digits_value(s: Seq<char>) -> nat
    decreases s.len(),
{
    if s.len() == 0 {
        0
    } else {
        digits_value(s.drop_last()) * 10 + ((s.last() as u32) - 48) as nat
    }
}

/// `s` without a single leading `+`.
pub open spec fn unsigned_body(s: Seq<char>) -> Seq<char> {
    if s.len() > 0 && s[0] == '+' {
        s.drop_first()
    } else {
        s
    }
}

/// What `str::parse::<usize>().ok()` returns: an optional `+`, then at least
/// one ASCII digit and nothing else, with a value that fits.
pub open spec fn parsed_usize(s: Seq<char>) -> Option<usize> {
    let b = unsigned_body(s);
    if b.len() > 0 && all_digits(b) && digits_value(b) <= usize::MAX {
        Some(digits_value(b) as usize)
    } else {
        None
    }
}

/// What `str::parse::<i32>().ok()` returns: an optional sign, then at least
/// one ASCII digit and nothing else, with a value in the `i32` range.
pub open spec fn parsed_i32(s: Seq<char>) -> Option<i32> {
    if s.len() > 0 && s[0] == '-' {
        let b = s.drop_first();
        if b.len() > 0 && all_digits(b) && digits_value(b) <= 0x8000_0000 {
            Some((0 - digits_value(b)) as i32)
        } else {
            None
        }
    } else {
        let b = unsigned_body(s);
        if b.len() > 0 && all_digits(b) && digits_value(b) <= 0x7fff_ffff {
            Some(digits_value(b) as i32)
        } else {
            None
        }
    }
}

proof fn lemma_digits_value_grows(s: Seq<char>, k: int)
    requires
        0 <= k <= s.len(),
    ensures
        digits_value(s) >= digits_value(s.take(k)),
    decreases s.len(),
{
    if k < s.len() {
        assert(s.drop_last().take(k) =~= s.take(k));
        lemma_digits_value_grows(s.drop_last(), k);
    } else {
        assert(s.take(k) =~= s);
    }
}

/// The value of the digits `cs[from..]`, or `None` when some character is
/// not a digit, the range is empty, or the value exceeds `limit`.
fn digits_upto(cs: &Vec<char>, from: usize, limit: u64) -> (r: Option<u64>)
    requires
        from <= cs.len(),
    ensures
        ({
            let b = cs@.skip(from as int);
            match r {
                Some(v) => b.len() > 0 && all_digits(b) && v == digits_value(b) && v <= limit,
                None => !(b.len() > 0 && all_digits(b) && digits_value(b) <= limit),
            }
        }),
{
    let ghost b = cs@.skip(from as int);
    if from >= cs.len() {
        return None;
    }
    let mut acc: u128 = 0;
    let mut i: usize = from;
    assert(b.take(0) =~= Seq::<char>::empty());
    while i < cs.len()
        invariant
            from <= i <= cs.len(),
            b == cs@.skip(from as int),
            all_digits(b.take(i - from)),
            acc == digits_value(b.take(i - from)),
            acc <= limit,
        decreases cs.len() - i,
    {
        let c = cs[i];
        assert(b[i - from] == c);
        if !('0' <= c && c <= '9') {
            assert(!all_digits(b));
            return None;
        }
        let d = (c as u32 - 48) as u128;
        acc = acc * 10 + d;
        i = i + 1;
        assert(b.take(i - from).drop_last() =~= b.take(i - 1 - from));
        assert(all_digits(b.take(i - from))) by {
            assert forall|k: int| 0 <= k < i - from implies is_digit(#[trigger] b.take(i - from)[k]) by {
                if k < i - 1 - from {
                    assert(b.take(i - from)[k] == b.take(i - 1 - from)[k]);
                }
            }
        }
        if acc > limit as u128 {
            proof {
                lemma_digits_value_grows(b, i - from);
            }
            return None;
        }
    }
    assert(b.take(i - from) =~= b);
    Some(acc as u64)
}

/// `str::parse::<usize>().ok()`.
pub fn parse_usize(s: &str) -> (r: Option<usize>)
    ensures
        r == parsed_usize(s@),
{
    let cs = chars_of(s);
    let from: usize = if cs.len() > 0 && cs[0] == '+' { 1 } else { 0 };
    assert(cs@.skip(from as int) =~= unsigned_body(s@));
    match digits_upto(&cs, from, usize::MAX as u64) {
        Some(v) => Some(v as usize),
        None => None,
    }
}

/// `str::parse::<i32>().ok()`.
pub fn parse_i32(s: &str) -> (r: Option<i32>)
    ensures
        r == parsed_i32(s@),
{
    let cs = chars_of(s);
    if cs.len() > 0 && cs[0] == '-' {
        assert(cs@.skip(1) =~= s@.drop_first());
        match digits_upto(&cs, 1, 0x8000_0000) {
            Some(v) => Some((0 - (v as i64)) as i32),
            None => None,
        }
    } else {
        let from: usize = if cs.len() > 0 && cs[0] == '+' { 1 } else { 0 };
        assert(cs@.skip(from as int) =~= unsigned_body(s@));
        match digits_upto(&cs, from, 0x7fff_ffff) {
            Some(v) => Some(v as i32),
            None => None,
        }
    }
}

} // verus!
