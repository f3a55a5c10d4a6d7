//! Characters, trimming, cleaning and page splitting.
use vstd::prelude::*;

verus! {

/// The form feed that separates pages in extracted text.
pub const PAGE_BREAK: char = '\x0C';

/// Unicode `White_Space`, the set that `char::is_whitespace` tests.
pub open spec fn is_unicode_space(c: char) -> bool {
    let u = c as u32;
    (0x09 <= u && u <= 0x0d) || u == 0x20 || u == 0x85 || u == 0xa0 || u == 0x1680 || (0x2000
        <= u && u <= 0x200a) || u == 0x2028 || u == 0x2029 || u == 0x202f || u == 0x205f || u
        == 0x3000
}

/// ASCII whitespace as `u8::is_ascii_whitespace` has it: space, tab, line feed,
/// form feed and carriage return.
pub open spec fn is_ascii_space(c: char) -> bool {
    c == ' ' || c == '\t' || c == '\n' || c == '\x0C' || c == '\r'
}

pub open spec fn is_space(c: char, ascii_only: bool) -> bool {
    if ascii_only {
        is_ascii_space(c)
    } else {
        is_unicode_space(c)
    }
}

pub fn char_is_space(c: char, ascii_only: bool) -> (r: bool)
    ensures
        r == is_space(c, ascii_only),
{
    if ascii_only {
        c == ' ' || c == '\t' || c == '\n' || c == '\x0C' || c == '\r'
    } else {
        let u = c as u32;
        (0x09 <= u && u <= 0x0d) || u == 0x20 || u == 0x85 || u == 0xa0 || u == 0x1680 || (0x2000
            <= u && u <= 0x200a) || u == 0x2028 || u == 0x2029 || u == 0x202f || u == 0x205f || u
            == 0x3000
    }
}

/// Index of the first non-space character at or after `i` (the length if none).
pub open spec fn first_non_space(s: Seq<char>, ascii_only: bool, i: int) -> int
    decreases s.len() - i,
{
    if i >= s.len() {
        s.len() as int
    } else if is_space(s[i], ascii_only) {
        first_non_space(s, ascii_only, i + 1)
    } else {
        i
    }
}

/// One past the last non-space character before `j` (zero if none).
pub open spec fn end_non_space(s: Seq<char>, ascii_only: bool, j: int) -> int
    decreases j,
{
    if j <= 0 {
        0
    } else if is_space(s[j - 1], ascii_only) {
        end_non_space(s, ascii_only, j - 1)
    } else {
        j
    }
}

/// `s` without leading and trailing space characters.
pub open spec fn trim(s: Seq<char>, ascii_only: bool) -> Seq<char> {
    let lo = first_non_space(s, ascii_only, 0);
    let hi = end_non_space(s, ascii_only, s.len() as int);
    if lo < hi {
        s.subrange(lo, hi)
    } else {
        seq![]
    }
}

pub proof fn lemma_first_non_space_bounds(s: Seq<char>, a: bool, i: int)
    requires
        0 <= i <= s.len(),
    ensures
        i <= first_non_space(s, a, i) <= s.len(),
        first_non_space(s, a, i) < s.len() ==> !is_space(s[first_non_space(s, a, i)], a),
        forall|k: int| i <= k < first_non_space(s, a, i) ==> is_space(s[k], a),
    decreases s.len() - i,
{
    if i < s.len() && is_space(s[i], a) {
        lemma_first_non_space_bounds(s, a, i + 1);
    }
}

pub proof fn lemma_end_non_space_bounds(s: Seq<char>, a: bool, j: int)
    requires
        0 <= j <= s.len(),
    ensures
        0 <= end_non_space(s, a, j) <= j,
        end_non_space(s, a, j) > 0 ==> !is_space(s[end_non_space(s, a, j) - 1], a),
        forall|k: int| end_non_space(s, a, j) <= k < j ==> is_space(s[k], a),
    decreases j,
{
    if j > 0 && is_space(s[j - 1], a) {
        lemma_end_non_space_bounds(s, a, j - 1);
    }
}

/// The trimmed text is a contiguous piece of the text.
pub proof fn lemma_trim_is_piece(s: Seq<char>, a: bool)
    ensures
        exists|lo: int, hi: int| 0 <= lo <= hi <= s.len() && trim(s, a) == s.subrange(lo, hi),
{
    lemma_first_non_space_bounds(s, a, 0);
    lemma_end_non_space_bounds(s, a, s.len() as int);
    let lo = first_non_space(s, a, 0);
    let hi = end_non_space(s, a, s.len() as int);
    if lo < hi {
        assert(trim(s, a) == s.subrange(lo, hi));
    } else {
        assert(trim(s, a) == s.subrange(0, 0));
    }
}

/// Relies on `str::chars` collected into a `Vec`: the characters of the string, in order.
#[verifier::external_body]
pub(crate) fn chars_of(s: &str) -> (r: Vec<char>)
    ensures
        r@ == s@,
{
    s.chars().collect()
}

/// Relies on `String: FromIterator<char>`: the string of these characters, in order.
#[verifier::external_body]
pub(crate) fn string_of(v: &Vec<char>) -> (r: String)
    ensures
        r@ == v@,
{
    v.iter().collect()
}

/// A copy of `v[lo..hi]`.
pub fn copy_range(v: &Vec<char>, lo: usize, hi: usize) -> (r: Vec<char>)
    requires
        lo <= hi <= v.len(),
    ensures
        r@ == v@.subrange(lo as int, hi as int),
{
    let mut r: Vec<char> = Vec::new();
    let mut i: usize = lo;
    while i < hi
        invariant
            lo <= i <= hi <= v.len(),
            r@ == v@.subrange(lo as int, i as int),
        decreases hi - i,
    {
        r.push(v[i]);
        i = i + 1;
    }
    r
}

/// `v` without leading and trailing space characters.
pub fn trim_chars(v: &Vec<char>, ascii_only: bool) -> (r: Vec<char>)
    ensures
        r@ == trim(v@, ascii_only),
{
    let n = v.len();
    let mut lo: usize = 0;
    while lo < n && char_is_space(v[lo], ascii_only)
        invariant
            lo <= n == v.len(),
            first_non_space(v@, ascii_only, 0) == first_non_space(v@, ascii_only, lo as int),
        decreases n - lo,
    {
        lo = lo + 1;
    }
    let mut hi: usize = n;
    while hi > 0 && char_is_space(v[hi - 1], ascii_only)
        invariant
            hi <= n == v.len(),
            end_non_space(v@, ascii_only, n as int) == end_non_space(v@, ascii_only, hi as int),
        decreases hi,
    {
        hi = hi - 1;
    }
    if lo < hi {
        copy_range(v, lo, hi)
    } else {
        Vec::new()
    }
}

/// The cleaning rule: NUL characters become spaces.
pub open spec fn nul_to_space(s: Seq<char>) -> Seq<char> {
    s.map_values(|c: char| if c == '\0' { ' ' } else { c })
}

/// The cleaning rule applied to every page: NUL becomes a space, then ASCII
/// whitespace is trimmed from both ends.
pub open spec fn clean(s: Seq<char>) -> Seq<char> {
    trim(nul_to_space(s), true)
}

pub fn clean_chars(v: &Vec<char>) -> (r: Vec<char>)
    ensures
        r@ == clean(v@),
{
    let mut w: Vec<char> = Vec::new();
    let mut i: usize = 0;
    while i < v.len()
        invariant
            i <= v.len(),
            w@ == nul_to_space(v@.subrange(0, i as int)),
        decreases v.len() - i,
    {
        let c = v[i];
        w.push(if c == '\0' { ' ' } else { c });
        i = i + 1;
        assert(w@ =~= nul_to_space(v@.subrange(0, i as int)));
    }
    assert(v@.subrange(0, v.len() as int) =~= v@);
    trim_chars(&w, true)
}

/// Replaces NUL with a space, then trims ASCII whitespace from both ends.
pub fn clean_text(s: &str) -> (r: String)
    ensures
        r@ == clean(s@),
{
    let v = chars_of(s);
    string_of(&clean_chars(&v))
}

/// The pieces of `s` between occurrences of `sep`, as `str::split` yields them.
pub open spec fn split_on(s: Seq<char>, sep: char) -> Seq<Seq<char>>
    decreases s.len(),
{
    if s.len() == 0 {
        seq![seq![]]
    } else {
        let prev = split_on(s.drop_last(), sep);
        if s.last() == sep {
            prev.push(seq![])
        } else {
            prev.update(prev.len() - 1, prev.last().push(s.last()))
        }
    }
}

pub proof fn lemma_split_on_nonempty(s: Seq<char>, sep: char)
    ensures
        split_on(s, sep).len() >= 1,
    decreases s.len(),
{
    if s.len() > 0 {
        lemma_split_on_nonempty(s.drop_last(), sep);
    }
}

/// The cleaned parts that are not empty, in order.
pub open spec fn nonempty_cleaned(parts: Seq<Seq<char>>) -> Seq<Seq<char>>
    decreases parts.len(),
{
    if parts.len() == 0 {
        seq![]
    } else {
        let c = clean(parts.last());
        nonempty_cleaned(parts.drop_last()) + if c.len() > 0 {
            seq![c]
        } else {
            seq![]
        }
    }
}

/// Pages of extracted text: split on form feeds, each cleaned, the empty ones dropped.
pub open spec fn pages_of(raw: Seq<char>) -> Seq<Seq<char>> {
    nonempty_cleaned(split_on(raw, PAGE_BREAK))
}

pub open spec fn views(v: Seq<String>) -> Seq<Seq<char>> {
    v.map_values(|x: String| x@)
}

/// Splits extracted text into cleaned, non-empty pages at form feeds.
pub fn split_pages(raw: &str) -> (r: Vec<String>)
    ensures
        views(r@) == pages_of(raw@),
{
    let v = chars_of(raw);
    let ghost s = v@;
    // parts of v[..i] before the current one, and the current one
    let mut parts: Vec<Vec<char>> = Vec::new();
    let mut cur: Vec<char> = Vec::new();
    let mut i: usize = 0;
    while i < v.len()
        invariant
            i <= v.len(),
            s == v@,
            split_on(s.subrange(0, i as int), PAGE_BREAK) == parts@.map_values(
                |p: Vec<char>| p@,
            ).push(cur@),
        decreases v.len() - i,
    {
        let c = v[i];
        let ghost before = s.subrange(0, i as int);
        assert(s.subrange(0, i + 1).drop_last() =~= before);
        proof {
            lemma_split_on_nonempty(before, PAGE_BREAK);
        }
        if c == PAGE_BREAK {
            parts.push(cur);
            cur = Vec::new();
            assert(split_on(s.subrange(0, i + 1), PAGE_BREAK) =~= parts@.map_values(
                |p: Vec<char>| p@,
            ).push(cur@));
        } else {
            cur.push(c);
            assert(split_on(s.subrange(0, i + 1), PAGE_BREAK) =~= parts@.map_values(
                |p: Vec<char>| p@,
            ).push(cur@));
        }
        i = i + 1;
    }
    parts.push(cur);
    assert(s.subrange(0, v.len() as int) =~= s);
    let ghost all = parts@.map_values(|p: Vec<char>| p@);
    assert(all == split_on(s, PAGE_BREAK));
    let mut out: Vec<String> = Vec::new();
    let mut k: usize = 0;
    while k < parts.len()
        invariant
            k <= parts.len(),
            all == parts@.map_values(|p: Vec<char>| p@),
            views(out@) == nonempty_cleaned(all.subrange(0, k as int)),
        decreases parts.len() - k,
    {
        let c = clean_chars(&parts[k]);
        assert(all.subrange(0, k + 1).drop_last() =~= all.subrange(0, k as int));
        if c.len() > 0 {
            out.push(string_of(&c));
        }
        assert(views(out@) =~= nonempty_cleaned(all.subrange(0, k + 1)));
        k = k + 1;
    }
    assert(all.subrange(0, parts.len() as int) =~= all);
    out
}

/// A whole document as one page: cleaned, and no page when nothing is left.
pub open spec fn single_page(raw: Seq<char>) -> Seq<Seq<char>> {
    if clean(raw).len() > 0 {
        seq![clean(raw)]
    } else {
        seq![]
    }
}

/// The page list of a plain-text, Markdown or DOCX document.
pub fn single_page_text(raw: &str) -> (r: Vec<String>)
    ensures
        views(r@) == single_page(raw@),
{
    let c = clean_text(raw);
    let mut out: Vec<String> = Vec::new();
    if !c.as_str().is_empty() {
        out.push(c);
    }
    proof {
        assert(views(out@) =~= single_page(raw@));
    }
    out
}


/// Appends the characters of `s`.
pub fn push_all(out: &mut Vec<char>, s: &Vec<char>)
    ensures
        final(out)@ == old(out)@ + s@,
{
    let mut i: usize = 0;
    while i < s.len()
        invariant
            i <= s.len(),
            out@ == old(out)@ + s@.subrange(0, i as int),
        decreases s.len() - i,
    {
        out.push(s[i]);
        i = i + 1;
        assert(out@ =~= old(out)@ + s@.subrange(0, i as int));
    }
    assert(s@.subrange(0, s.len() as int) =~= s@);
}

/// Appends the characters of a string.
pub fn push_str(out: &mut Vec<char>, s: &str)
    ensures
        final(out)@ == old(out)@ + s@,
{
    let v = chars_of(s);
    push_all(out, &v);
}

/// Whether `v` begins with `prefix`.
pub fn has_prefix(v: &Vec<char>, prefix: &Vec<char>) -> (r: bool)
    ensures
        r == (prefix@.len() <= v@.len() && v@.subrange(0, prefix@.len() as int) == prefix@),
{
    if prefix.len() > v.len() {
        return false;
    }
    let mut i: usize = 0;
    while i < prefix.len()
        invariant
            i <= prefix.len() <= v.len(),
            v@.subrange(0, i as int) == prefix@.subrange(0, i as int),
        decreases prefix.len() - i,
    {
        if v[i] != prefix[i] {
            assert(v@.subrange(0, prefix@.len() as int)[i as int] != prefix@[i as int]);
            return false;
        }
        assert(v@.subrange(0, i + 1) =~= v@.subrange(0, i as int).push(v@[i as int]));
        assert(prefix@.subrange(0, i + 1) =~= prefix@.subrange(0, i as int).push(prefix@[i as int]));
        i = i + 1;
    }
    assert(prefix@.subrange(0, prefix.len() as int) =~= prefix@);
    true
}

/// Whether `v` ends with `suffix`.
pub fn has_suffix(v: &Vec<char>, suffix: &Vec<char>) -> (r: bool)
    ensures
        r == (suffix@.len() <= v@.len() && v@.subrange(
            v@.len() - suffix@.len(),
            v@.len() as int,
        ) == suffix@),
{
    if suffix.len() > v.len() {
        return false;
    }
    let off = v.len() - suffix.len();
    let mut i: usize = 0;
    while i < suffix.len()
        invariant
            i <= suffix.len(),
            off + suffix.len() == v.len(),
            v@.subrange(off as int, off + i) == suffix@.subrange(0, i as int),
        decreases suffix.len() - i,
    {
        if v[off + i] != suffix[i] {
            assert(v@.subrange(off as int, v@.len() as int)[i as int] != suffix@[i as int]);
            return false;
        }
        assert(v@.subrange(off as int, off + i + 1) =~= v@.subrange(off as int, off + i).push(
            v@[off + i],
        ));
        assert(suffix@.subrange(0, i + 1) =~= suffix@.subrange(0, i as int).push(suffix@[i as int]));
        i = i + 1;
    }
    assert(suffix@.subrange(0, suffix.len() as int) =~= suffix@);
    true
}

/// The decimal digits of `n`, most significant first, without leading zeros.
pub open spec fn decimal(n: nat) -> Seq<char>
    decreases n,
{
    if n < 10 {
        seq![(48 + n) as char]
    } else {
        decimal(n / 10).push((48 + n % 10) as char)
    }
}

/// `n` written in decimal.
pub fn decimal_chars(n: u64) -> (r: Vec<char>)
    ensures
        r@ == decimal(n as nat),
    decreases n,
{
    if n < 10 {
        let mut v: Vec<char> = Vec::new();
        v.push(((48 + n) as u8) as char);
        v
    } else {
        let mut v = decimal_chars(n / 10);
        v.push(((48 + n % 10) as u8) as char);
        v
    }
}

pub open spec fn is_digit(c: char) -> bool {
    '0' <= c && c <= '9'
}

/// The value of a run of decimal digits.
pub open spec fn digits_value(s: Seq<char>) -> nat
    decreases s.len(),
{
    if s.len() == 0 {
        0
    } else {
        digits_value(s.drop_last()) * 10 + ((s.last() as u32) - 48) as nat
    }
}

pub open spec fn all_digits(d: Seq<char>) -> bool {
    forall|i: int| 0 <= i < d.len() ==> is_digit(#[trigger] d[i])
}

/// An unsigned decimal as `u64::from_str` reads it: an optional `+`, then at
/// least one digit and nothing else, the value at most `u64::MAX`.
pub open spec fn parsed_unsigned(s: Seq<char>) -> Option<nat> {
    let d = if s.len() > 0 && s[0] == '+' {
        s.drop_first()
    } else {
        s
    };
    if d.len() > 0 && all_digits(d) && digits_value(d) <= u64::MAX {
        Some(digits_value(d))
    } else {
        None
    }
}

proof fn lemma_not_unsigned(s: Seq<char>, d: Seq<char>, k: int)
    requires
        d == (if s.len() > 0 && s[0] == '+' {
            s.drop_first()
        } else {
            s
        }),
        (0 <= k < d.len() && !is_digit(d[k])) || (all_digits(d) ==> digits_value(d) > u64::MAX),
    ensures
        parsed_unsigned(s) is None,
{
    if 0 <= k < d.len() && !is_digit(d[k]) {
        assert(!(forall|i: int| 0 <= i < d.len() ==> is_digit(#[trigger] d[i])));
    }
}

proof fn lemma_digits_value_monotone(s: Seq<char>, k: int)
    requires
        0 <= k <= s.len(),
        forall|i: int| 0 <= i < s.len() ==> is_digit(#[trigger] s[i]),
    ensures
        digits_value(s.subrange(0, k)) <= digits_value(s),
    decreases s.len() - k,
{
    if k < s.len() {
        lemma_digits_value_monotone(s, k + 1);
        let p = s.subrange(0, k + 1);
        assert(p.drop_last() =~= s.subrange(0, k));
        let a = digits_value(s.subrange(0, k));
        assert(a * 10 >= a) by (nonlinear_arith);
    } else {
        assert(s.subrange(0, k) =~= s);
    }
}

/// Reads an unsigned decimal number.
pub fn parse_unsigned(s: &str) -> (r: Option<u64>)
    ensures
        r matches Some(n) ==> parsed_unsigned(s@) == Some(n as nat),
        r is None ==> parsed_unsigned(s@) is None,
{
    let v = chars_of(s);
    let start: usize = if v.len() > 0 && v[0] == '+' {
        1
    } else {
        0
    };
    let ghost d = v@.subrange(start as int, v@.len() as int);
    assert(start == 1 ==> d =~= v@.drop_first());
    assert(start == 0 ==> d =~= v@);
    if start >= v.len() {
        return None;
    }
    let mut acc: u64 = 0;
    let mut i: usize = start;
    while i < v.len()
        invariant
            start <= i <= v.len(),
            d == v@.subrange(start as int, v@.len() as int),
            d == (if s@.len() > 0 && s@[0] == '+' {
                s@.drop_first()
            } else {
                s@
            }),
            forall|k: int| 0 <= k < i - start ==> is_digit(#[trigger] d[k]),
            acc as nat == digits_value(d.subrange(0, i - start)),
        decreases v.len() - i,
    {
        let c = v[i];
        assert(d[i - start] == c);
        if !('0' <= c && c <= '9') {
            proof {
                lemma_not_unsigned(s@, d, i - start);
            }
            return None;
        }
        let digit = (c as u32 - 48) as u64;
        assert(d.subrange(0, i + 1 - start).drop_last() =~= d.subrange(0, i - start));
        if acc > (u64::MAX - digit) / 10 {
            proof {
                let pre = d.subrange(0, i + 1 - start);
                assert((acc as int) * 10 + digit > u64::MAX) by (nonlinear_arith)
                    requires
                        acc > (u64::MAX - digit) / 10,
                        digit <= 9,
                ;
                assert(digits_value(pre) == (acc as int) * 10 + digit);
                if all_digits(d) {
                    lemma_digits_value_monotone(d, i + 1 - start);
                    assert(digits_value(d) > u64::MAX);
                }
                lemma_not_unsigned(s@, d, -1);
            }
            return None;
        }
        acc = acc * 10 + digit;
        i = i + 1;
    }
    assert(d.subrange(0, v.len() - start) =~= d);
    Some(acc)
}

} // verus!
