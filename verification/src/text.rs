//! Character-level text helpers with exact specifications: whitespace
//! trimming, line splitting, searching, decimal parsing and rendering.
use vstd::prelude::*;

verus! {

// ---------------------------------------------------------------------------
// Conversions between `str`/`String` and character vectors
// ---------------------------------------------------------------------------

/// The characters of `s`, one per element.
pub fn chars_of(s: &str) -> (v: Vec<char>)
    ensures
        v@ == s@,
{
    let mut v: Vec<char> = Vec::new();
    for c in it: s.chars()
        invariant
            v@ == it.seq().take(it.index() as int),
    {
        v.push(c);
    }
    v
}

/// `String::push`: appends one character.
#[verifier::external_body]
fn push_char(s: &mut String, c: char)
    ensures
        final(s)@ == old(s)@.push(c),
{
    s.push(c);
}

/// A `String` holding exactly the characters of `v`.
pub fn string_of(v: &[char]) -> (s: String)
    ensures
        s@ == v@,
{
    let mut s = String::new();
    let mut i: usize = 0;
    while i < v.len()
        invariant
            i <= v.len(),
            s@ == v@.take(i as int),
        decreases v.len() - i,
    {
        push_char(&mut s, v[i]);
        assert(v@.take(i + 1) == v@.take(i as int).push(v@[i as int]));
        i = i + 1;
    }
    assert(v@.take(v.len() as int) == v@);
    s
}

/// A `String` holding the characters of a literal.
pub fn string_lit(s: &str) -> (r: String)
    ensures
        r@ == s@,
{
    let v = chars_of(s);
    string_of(v.as_slice())
}

/// `String::from_utf8_lossy`: decodes bytes as UTF-8, replacing every
/// invalid sequence by U+FFFD. Named by `utf8_lossy`; valid input decodes
/// exactly (as the standard library documents).
#[verifier::external_body]
pub(crate) fn lossy_text(bytes: &[u8]) -> (s: String)
    ensures
        s@ == utf8_lossy(bytes@),
        vstd::utf8::valid_utf8(bytes@) ==> s@ == vstd::utf8::decode_utf8(bytes@),
{
    String::from_utf8_lossy(bytes).into_owned()
}

/// What `String::from_utf8_lossy` yields for the given bytes.
pub uninterp spec fn utf8_lossy(bytes: Seq<u8>) -> Seq<char>;

/// Whether two character sequences are equal.
pub fn chars_equal(a: &[char], b: &[char]) -> (r: bool)
    ensures
        r == (a@ == b@),
{
    if a.len() != b.len() {
        return false;
    }
    let mut i: usize = 0;
    while i < a.len()
        invariant
            a.len() == b.len(),
            i <= a.len(),
            forall|j: int| 0 <= j < i ==> a@[j] == b@[j],
        decreases a.len() - i,
    {
        if a[i] != b[i] {
            return false;
        }
        i = i + 1;
    }
    assert(a@ =~= b@);
    true
}

/// Whether two byte slices are equal.
pub fn bytes_equal(a: &[u8], b: &[u8]) -> (r: bool)
    ensures
        r == (a@ == b@),
{
    if a.len() != b.len() {
        return false;
    }
    let mut i: usize = 0;
    while i < a.len()
        invariant
            a.len() == b.len(),
            i <= a.len(),
            forall|j: int| 0 <= j < i ==> a@[j] == b@[j],
        decreases a.len() - i,
    {
        if a[i] != b[i] {
            return false;
        }
        i = i + 1;
    }
    assert(a@ =~= b@);
    true
}

/// Whether a `str` equals another `str` (compared through their UTF-8
/// encodings, which determine them).
pub fn str_equals(a: &str, b: &str) -> (r: bool)
    ensures
        r == (a@ == b@),
{
    let r = bytes_equal(a.as_bytes(), b.as_bytes());
    proof {
        broadcast use vstd::utf8::encode_utf8_decode_utf8;

        if r {
            assert(vstd::utf8::decode_utf8(vstd::utf8::encode_utf8(a@)) == a@);
            assert(vstd::utf8::decode_utf8(vstd::utf8::encode_utf8(b@)) == b@);
        }
    }
    r
}

/// Whether a character vector spells a literal.
pub fn chars_equal_str(a: &[char], b: &str) -> (r: bool)
    ensures
        r == (a@ == b@),
{
    let vb = chars_of(b);
    chars_equal(a, vb.as_slice())
}

/// The subrange `v[from..to]` as a new vector.
pub fn sub_chars(v: &[char], from: usize, to: usize) -> (r: Vec<char>)
    requires
        from <= to <= v.len(),
    ensures
        r@ == v@.subrange(from as int, to as int),
{
    let mut r: Vec<char> = Vec::new();
    let mut i = from;
    while i < to
        invariant
            from <= i <= to <= v.len(),
            r@ == v@.subrange(from as int, i as int),
        decreases to - i,
    {
        r.push(v[i]);
        i = i + 1;
    }
    r
}

/// `a` followed by `b`.
pub fn concat_chars(a: &[char], b: &[char]) -> (r: Vec<char>)
    ensures
        r@ == a@ + b@,
{
    let mut r = sub_chars(a, 0, a.len());
    let mut i: usize = 0;
    while i < b.len()
        invariant
            i <= b.len(),
            r@ == a@ + b@.take(i as int),
        decreases b.len() - i,
    {
        r.push(b[i]);
        assert(b@.take(i + 1) == b@.take(i as int).push(b@[i as int]));
        i = i + 1;
    }
    assert(b@.take(b.len() as int) == b@);
    assert(a@.subrange(0, a.len() as int) == a@);
    r
}

/// Appends every character of `b` to `r`.
pub fn append_chars(r: &mut Vec<char>, b: &[char])
    ensures
        final(r)@ == old(r)@ + b@,
{
    let mut i: usize = 0;
    while i < b.len()
        invariant
            i <= b.len(),
            r@ == old(r)@ + b@.take(i as int),
        decreases b.len() - i,
    {
        r.push(b[i]);
        assert(b@.take(i + 1) == b@.take(i as int).push(b@[i as int]));
        i = i + 1;
    }
    assert(b@.take(b.len() as int) == b@);
}

/// Appends every character of the literal `b` to `r`.
pub fn append_str(r: &mut Vec<char>, b: &str)
    ensures
        final(r)@ == old(r)@ + b@,
{
    let vb = chars_of(b);
    append_chars(r, vb.as_slice());
}

// ---------------------------------------------------------------------------
// Searching
// ---------------------------------------------------------------------------

/// Index of the first occurrence of `c` in `s`, if any.
pub open spec fn first_index_of(s: Seq<char>, c: char) -> Option<int>
    decreases s.len(),
{
    if s.len() == 0 {
        None
    } else if s[0] == c {
        Some(0)
    } else {
        match first_index_of(s.drop_first(), c) {
            Some(i) => Some(i + 1),
            None => None,
        }
    }
}

/// Characterisation of `first_index_of`.
pub proof fn lemma_first_index_of(s: Seq<char>, c: char)
    ensures
        first_index_of(s, c) matches Some(i) ==> 0 <= i < s.len() && s[i] == c && forall|j: int|
            0 <= j < i ==> s[j] != c,
        first_index_of(s, c) is None ==> forall|j: int| 0 <= j < s.len() ==> s[j] != c,
    decreases s.len(),
{
    if s.len() > 0 {
        lemma_first_index_of(s.drop_first(), c);
        if s[0] != c {
            assert forall|j: int| 1 <= j < s.len() implies s[j] == s.drop_first()[j - 1] by {}
        }
    }
}

/// A sequence is determined to have `c` first at `i` by the obvious facts.
pub proof fn lemma_first_index_of_unique(s: Seq<char>, c: char, i: int)
    requires
        0 <= i <= s.len(),
        i < s.len() ==> s[i] == c,
        forall|j: int| 0 <= j < i ==> s[j] != c,
    ensures
        first_index_of(s, c) == (if i < s.len() { Some(i) } else { None::<int> }),
{
    lemma_first_index_of(s, c);
    match first_index_of(s, c) {
        Some(k) => {
            if k < i {
            } else if k > i {
                assert(s[i] == c);
            }
        },
        None => {
            if i < s.len() {
                assert(s[i] == c);
            }
        },
    }
}

/// Position of the first `c` in `s`.
pub fn find_char(s: &[char], c: char) -> (r: Option<usize>)
    ensures
        r matches Some(i) ==> first_index_of(s@, c) == Some(i as int),
        r is None ==> first_index_of(s@, c) is None,
{
    let mut i: usize = 0;
    while i < s.len()
        invariant
            i <= s.len(),
            forall|j: int| 0 <= j < i ==> s@[j] != c,
        decreases s.len() - i,
    {
        if s[i] == c {
            proof {
                lemma_first_index_of_unique(s@, c, i as int);
            }
            return Some(i);
        }
        i = i + 1;
    }
    proof {
        lemma_first_index_of_unique(s@, c, s.len() as int);
    }
    None
}

/// Whether `needle` occurs in `hay` starting at position `at`.
pub open spec fn occurs_at(hay: Seq<char>, needle: Seq<char>, at: int) -> bool {
    0 <= at && at + needle.len() <= hay.len() && hay.subrange(at, at + needle.len()) == needle
}

/// Whether `needle` occurs anywhere in `hay` (as `str::contains` does).
pub open spec fn contains_chars(hay: Seq<char>, needle: Seq<char>) -> bool {
    exists|at: int| #[trigger] occurs_at(hay, needle, at)
}

fn matches_at(hay: &[char], needle: &[char], at: usize) -> (r: bool)
    requires
        at + needle.len() <= hay.len(),
    ensures
        r == occurs_at(hay@, needle@, at as int),
{
    let mut k: usize = 0;
    while k < needle.len()
        invariant
            at + needle.len() <= hay.len(),
            k <= needle.len(),
            forall|j: int| 0 <= j < k ==> hay@[at + j] == needle@[j],
        decreases needle.len() - k,
    {
        if hay[at + k] != needle[k] {
            assert(hay@.subrange(at as int, at + needle.len())[k as int] != needle@[k as int]);
            return false;
        }
        k = k + 1;
    }
    assert(hay@.subrange(at as int, at + needle.len()) =~= needle@);
    true
}

/// Whether `needle` occurs in `hay`.
pub fn contains(hay: &[char], needle: &[char]) -> (r: bool)
    ensures
        r == contains_chars(hay@, needle@),
{
    if needle.len() > hay.len() {
        assert forall|at: int| !occurs_at(hay@, needle@, at) by {}
        return false;
    }
    if needle.len() == 0 {
        assert(hay@.subrange(0, 0) =~= needle@);
        assert(occurs_at(hay@, needle@, 0));
        return true;
    }
    let mut at: usize = 0;
    let last = hay.len() - needle.len();
    while at <= last
        invariant
            1 <= needle.len() <= hay.len(),
            last == hay.len() - needle.len(),
            at <= last + 1,
            forall|j: int| 0 <= j < at ==> !occurs_at(hay@, needle@, j),
        decreases last + 1 - at,
    {
        if matches_at(hay, needle, at) {
            return true;
        }
        at = at + 1;
    }
    assert forall|j: int| !occurs_at(hay@, needle@, j) by {
        if 0 <= j < at {
        }
    }
    false
}

/// Whether the literal `needle` occurs in `hay`.
pub fn contains_str(hay: &[char], needle: &str) -> (r: bool)
    ensures
        r == contains_chars(hay@, needle@),
{
    let n = chars_of(needle);
    contains(hay, n.as_slice())
}

/// Whether `s` starts with `p`.
pub open spec fn has_prefix(s: Seq<char>, p: Seq<char>) -> bool {
    p.len() <= s.len() && s.take(p.len() as int) == p
}

/// Whether `s` ends with `p`.
pub open spec fn has_suffix(s: Seq<char>, p: Seq<char>) -> bool {
    p.len() <= s.len() && s.skip(s.len() - p.len()) == p
}

/// Whether `s` starts with the literal `p`.
pub fn starts_with_str(s: &[char], p: &str) -> (r: bool)
    ensures
        r == has_prefix(s@, p@),
{
    let vp = chars_of(p);
    if vp.len() > s.len() {
        return false;
    }
    let head = sub_chars(s, 0, vp.len());
    chars_equal(head.as_slice(), vp.as_slice())
}

/// Whether `s` ends with the literal `p`.
pub fn ends_with_str(s: &[char], p: &str) -> (r: bool)
    ensures
        r == has_suffix(s@, p@),
{
    let vp = chars_of(p);
    if vp.len() > s.len() {
        return false;
    }
    let tail = sub_chars(s, s.len() - vp.len(), s.len());
    assert(s@.subrange(s.len() - vp.len(), s.len() as int) == s@.skip(s.len() - vp.len()));
    chars_equal(tail.as_slice(), vp.as_slice())
}

// ---------------------------------------------------------------------------
// Whitespace and trimming (`char::is_whitespace`, `str::trim`)
// ---------------------------------------------------------------------------

/// Unicode `White_Space`, as `char::is_whitespace` decides it.
pub open spec fn is_ws(c: char) -> bool {
    let u = c as u32;
    (0x9 <= u && u <= 0xd) || u == 0x20 || u == 0x85 || u == 0xa0 || u == 0x1680 || (0x2000 <= u
        && u <= 0x200a) || u == 0x2028 || u == 0x2029 || u == 0x202f || u == 0x205f || u == 0x3000
}

/// Whether `c` is whitespace.
pub fn is_whitespace(c: char) -> (r: bool)
    ensures
        r == is_ws(c),
{
    let u = c as u32;
    (0x9 <= u && u <= 0xd) || u == 0x20 || u == 0x85 || u == 0xa0 || u == 0x1680 || (0x2000 <= u
        && u <= 0x200a) || u == 0x2028 || u == 0x2029 || u == 0x202f || u == 0x205f || u == 0x3000
}

/// `s` without leading whitespace.
pub open spec fn trim_start(s: Seq<char>) -> Seq<char>
    decreases s.len(),
{
    if s.len() > 0 && is_ws(s[0]) {
        trim_start(s.drop_first())
    } else {
        s
    }
}

/// `s` without trailing whitespace.
pub open spec fn trim_end(s: Seq<char>) -> Seq<char>
    decreases s.len(),
{
    if s.len() > 0 && is_ws(s.last()) {
        trim_end(s.drop_last())
    } else {
        s
    }
}

/// `s` without leading and trailing whitespace (`str::trim`).
pub open spec fn trim(s: Seq<char>) -> Seq<char> {
    trim_end(trim_start(s))
}

proof fn lemma_trim_start_skip(s: Seq<char>, i: int)
    requires
        0 <= i <= s.len(),
        forall|j: int| 0 <= j < i ==> is_ws(s[j]),
    ensures
        trim_start(s) == trim_start(s.skip(i)),
    decreases i,
{
    if i > 0 {
        assert(s.drop_first().skip(i - 1) == s.skip(i));
        lemma_trim_start_skip(s.drop_first(), i - 1);
    } else {
        assert(s.skip(0) == s);
    }
}

proof fn lemma_trim_end_take(s: Seq<char>, i: int)
    requires
        0 <= i <= s.len(),
        forall|j: int| i <= j < s.len() ==> is_ws(s[j]),
    ensures
        trim_end(s) == trim_end(s.take(i)),
    decreases s.len() - i,
{
    if i < s.len() {
        assert(s.drop_last().take(i) == s.take(i));
        lemma_trim_end_take(s.drop_last(), i);
    } else {
        assert(s.take(i) == s);
    }
}

/// `s` without leading and trailing whitespace.
pub fn trim_chars(s: &[char]) -> (r: Vec<char>)
    ensures
        r@ == trim(s@),
{
    let mut start: usize = 0;
    while start < s.len() && is_whitespace(s[start])
        invariant
            start <= s.len(),
            forall|j: int| 0 <= j < start ==> is_ws(s@[j]),
        decreases s.len() - start,
    {
        start = start + 1;
    }
    proof {
        lemma_trim_start_skip(s@, start as int);
    }
    let mut end: usize = s.len();
    while end > start && is_whitespace(s[end - 1])
        invariant
            start <= end <= s.len(),
            forall|j: int| end <= j < s.len() ==> is_ws(s@[j]),
        decreases end,
    {
        end = end - 1;
    }
    let ghost rest = s@.skip(start as int);
    proof {
        assert(start == s.len() || !is_ws(s@[start as int]));
        assert(trim_start(rest) == rest);
        assert forall|j: int| end - start <= j < rest.len() implies is_ws(rest[j]) by {
            assert(rest[j] == s@[start + j]);
        }
        lemma_trim_end_take(rest, end - start);
        let t = rest.take(end - start);
        if t.len() > 0 {
            assert(t.last() == s@[end - 1]);
        }
        assert(t == s@.subrange(start as int, end as int));
    }
    sub_chars(s, start, end)
}

// ---------------------------------------------------------------------------
// Lines (`str::lines`)
// ---------------------------------------------------------------------------

/// One line as `str::lines` yields it: the text before a `'\n'`, without a
/// `'\r'` right before that `'\n'`.
pub open spec fn strip_cr(line: Seq<char>) -> Seq<char> {
    if line.len() > 0 && line.last() == '\r' {
        line.drop_last()
    } else {
        line
    }
}

/// The lines of `s`, as `str::lines` yields them: split at each `'\n'`, a
/// `'\r'` just before a `'\n'` removed, a final line ending optional.
pub open spec fn lines(s: Seq<char>) -> Seq<Seq<char>>
    decreases s.len(),
{
    if s.len() == 0 {
        Seq::empty()
    } else {
        match first_index_of(s, '\n') {
            None => seq![s],
            Some(i) => {
                if 0 <= i < s.len() {
                    seq![strip_cr(s.take(i))] + lines(s.skip(i + 1))
                } else {
                    Seq::empty()
                }
            },
        }
    }
}

/// The lines of `s`.
pub fn lines_of(s: &[char]) -> (r: Vec<Vec<char>>)
    ensures
        r@.len() == lines(s@).len(),
        forall|k: int| 0 <= k < r@.len() ==> (#[trigger] r@[k])@ == lines(s@)[k],
{
    let mut r: Vec<Vec<char>> = Vec::new();
    let mut pos: usize = 0;
    assert(s@.skip(0) == s@);
    assert(r@.map_values(|v: Vec<char>| v@) == Seq::<Seq<char>>::empty());
    while pos < s.len()
        invariant
            pos <= s.len(),
            lines(s@) == r@.map_values(|v: Vec<char>| v@) + lines(s@.skip(pos as int)),
        decreases s.len() - pos,
    {
        let ghost rest = s@.skip(pos as int);
        let mut end = pos;
        while end < s.len() && s[end] != '\n'
            invariant
                pos <= end <= s.len(),
                forall|j: int| pos <= j < end ==> s@[j] != '\n',
            decreases s.len() - end,
        {
            end = end + 1;
        }
        proof {
            assert forall|j: int| 0 <= j < end - pos implies rest[j] != '\n' by {
                assert(rest[j] == s@[pos + j]);
            }
            lemma_first_index_of_unique(rest, '\n', end - pos);
        }
        let mut line_end = end;
        if line_end > pos && s[line_end - 1] == '\r' && end < s.len() {
            line_end = line_end - 1;
        }
        let line = sub_chars(s, pos, line_end);
        let ghost old_r = r@;
        r.push(line);
        proof {
            assert(r@.map_values(|v: Vec<char>| v@) == old_r.map_values(|v: Vec<char>| v@).push(
                line@,
            ));
            if end < s.len() {
                assert(rest.take(end - pos) == s@.subrange(pos as int, end as int));
                assert(rest.skip(end - pos + 1) == s@.skip(end + 1));
                assert(lines(rest) == seq![strip_cr(rest.take(end - pos))] + lines(
                    rest.skip(end - pos + 1),
                ));
                assert(line@ == strip_cr(rest.take(end - pos)));
            } else {
                assert(rest == s@.subrange(pos as int, end as int));
                assert(lines(rest) == seq![rest]);
                assert(s@.skip(end as int).len() == 0);
                assert(lines(s@.skip(end as int)) == Seq::<Seq<char>>::empty());
            }
        }
        if end < s.len() {
            pos = end + 1;
        } else {
            pos = end;
        }
        proof {
            assert(lines(s@) == r@.map_values(|v: Vec<char>| v@) + lines(s@.skip(pos as int)));
        }
    }
    proof {
        assert(s@.skip(pos as int).len() == 0);
        assert(lines(s@) == r@.map_values(|v: Vec<char>| v@));
        assert forall|k: int| 0 <= k < r@.len() implies (#[trigger] r@[k])@ == lines(s@)[k] by {
            assert(r@.map_values(|v: Vec<char>| v@)[k] == r@[k]@);
        }
    }
    r
}

// ---------------------------------------------------------------------------
// Decimal numbers
// ---------------------------------------------------------------------------

/// Whether `c` is an ASCII decimal digit.
pub open spec fn is_digit(c: char) -> bool {
    '0' <= c && c <= '9'
}

/// The value of a digit character.
pub open spec fn digit_value(c: char) -> int {
    (c as int) - ('0' as int)
}

/// The value of a non-empty run of decimal digits.
pub open spec fn digits_value(s: Seq<char>) -> int
    decreases s.len(),
{
    if s.len() == 0 {
        0
    } else {
        digits_value(s.drop_last()) * 10 + digit_value(s.last())
    }
}

/// Whether every character of `s` is a decimal digit.
pub open spec fn all_digits(s: Seq<char>) -> bool {
    forall|i: int| 0 <= i < s.len() ==> is_digit(#[trigger] s[i])
}

/// The integer a `str::parse` of a signed type reads from `s`, before the
/// range check: an optional `+` or `-`, then at least one digit.
pub open spec fn signed_value(s: Seq<char>) -> Option<int> {
    if s.len() > 0 && (s[0] == '+' || s[0] == '-') {
        let d = s.drop_first();
        if d.len() > 0 && all_digits(d) {
            Some(if s[0] == '-' { -digits_value(d) } else { digits_value(d) })
        } else {
            None
        }
    } else if s.len() > 0 && all_digits(s) {
        Some(digits_value(s))
    } else {
        None
    }
}

/// The integer a `str::parse` of an unsigned type reads from `s`, before
/// the range check: an optional `+`, then at least one digit.
pub open spec fn unsigned_value(s: Seq<char>) -> Option<int> {
    if s.len() > 0 && s[0] == '+' {
        let d = s.drop_first();
        if d.len() > 0 && all_digits(d) {
            Some(digits_value(d))
        } else {
            None
        }
    } else if s.len() > 0 && all_digits(s) {
        Some(digits_value(s))
    } else {
        None
    }
}

proof fn lemma_digits_value_nonneg(s: Seq<char>)
    requires
        all_digits(s),
    ensures
        digits_value(s) >= 0,
    decreases s.len(),
{
    if s.len() > 0 {
        assert(all_digits(s.drop_last()));
        lemma_digits_value_nonneg(s.drop_last());
        assert(is_digit(s[s.len() - 1]));
    }
}

/// Value of the digit run `s`, or `None` once it exceeds `limit`.
fn digits_upto(s: &[char], from: usize, limit: u64) -> (r: Option<u64>)
    requires
        from < s.len(),
        limit >= 9,
        all_digits(s@.skip(from as int)),
    ensures
        r matches Some(v) ==> v == digits_value(s@.skip(from as int)) && v <= limit,
        r is None ==> digits_value(s@.skip(from as int)) > limit,
{
    let ghost d = s@.skip(from as int);
    let mut acc: u64 = 0;
    let mut i = from;
    while i < s.len()
        invariant
            from <= i <= s.len(),
            d == s@.skip(from as int),
            all_digits(d),
            acc == digits_value(s@.subrange(from as int, i as int)),
            acc <= limit,
            limit >= 9,
        decreases s.len() - i,
    {
        let c = s[i];
        proof {
            assert(is_digit(d[i - from]));
            assert(d[i - from] == c);
        }
        let dv = (c as u32 - '0' as u32) as u64;
        let ghost prefix = s@.subrange(from as int, i + 1);
        proof {
            assert(prefix.drop_last() == s@.subrange(from as int, i as int));
            assert(prefix.last() == c);
        }
        if acc > (limit - dv) / 10 {
            proof {
                assert(digits_value(prefix) == acc * 10 + dv);
                assert(acc * 10 + dv > limit) by (nonlinear_arith)
                    requires
                        acc > (limit - dv) / 10,
                        dv <= limit || dv > limit,
                        acc >= 0,
                        dv >= 0,
                ;
                lemma_digits_mono(s@.skip(from as int), i + 1 - from);
                assert(s@.skip(from as int).take(i + 1 - from) == prefix);
            }
            return None;
        }
        proof {
            assert(acc * 10 + dv <= limit) by (nonlinear_arith)
                requires
                    acc <= (limit - dv) / 10,
                    dv <= 9,
                    limit >= acc,
            ;
        }
        acc = acc * 10 + dv;
        i = i + 1;
    }
    assert(s@.subrange(from as int, s.len() as int) == d);
    Some(acc)
}

/// Digit runs only grow when extended.
proof fn lemma_digits_mono(s: Seq<char>, k: int)
    requires
        all_digits(s),
        0 <= k <= s.len(),
    ensures
        digits_value(s.take(k)) <= digits_value(s),
    decreases s.len() - k,
{
    if k < s.len() {
        let t = s.drop_last();
        assert(all_digits(t));
        lemma_digits_mono(t, k);
        assert(t.take(k) == s.take(k));
        lemma_digits_value_nonneg(t);
        assert(is_digit(s[s.len() - 1]));
    } else {
        assert(s.take(k) == s);
    }
}

/// Whether the characters from `from` on are all digits.
fn all_digits_from(s: &[char], from: usize) -> (r: bool)
    requires
        from <= s.len(),
    ensures
        r == all_digits(s@.skip(from as int)),
{
    let mut i = from;
    while i < s.len()
        invariant
            from <= i <= s.len(),
            forall|j: int| from <= j < i ==> is_digit(s@[j]),
        decreases s.len() - i,
    {
        if !('0' <= s[i] && s[i] <= '9') {
            assert(!is_digit(s@.skip(from as int)[i - from]));
            return false;
        }
        i = i + 1;
    }
    assert forall|j: int| 0 <= j < s@.skip(from as int).len() implies is_digit(
        #[trigger] s@.skip(from as int)[j],
    ) by {
        assert(s@.skip(from as int)[j] == s@[from + j]);
    }
    true
}

/// `str::parse::<u32>()`.
pub fn parse_u32(s: &[char]) -> (r: Option<u32>)
    ensures
        r matches Some(v) ==> unsigned_value(s@) == Some(v as int),
        r is None ==> !(unsigned_value(s@) matches Some(v) && v <= u32::MAX),
{
    let from: usize = if s.len() > 0 && s[0] == '+' {
        1
    } else {
        0
    };
    if from >= s.len() {
        return None;
    }
    if !all_digits_from(s, from) {
        proof {
            if from == 0 {
                assert(s@.skip(0) == s@);
            }
        }
        return None;
    }
    proof {
        if from == 0 {
            assert(s@.skip(0) == s@);
        } else {
            assert(s@.skip(1) == s@.drop_first());
        }
    }
    match digits_upto(s, from, 0xffff_ffff) {
        Some(v) => Some(v as u32),
        None => None,
    }
}

/// `str::parse::<u64>()`.
pub fn parse_u64(s: &[char]) -> (r: Option<u64>)
    ensures
        r matches Some(v) ==> unsigned_value(s@) == Some(v as int),
        r is None ==> !(unsigned_value(s@) matches Some(v) && v <= u64::MAX),
{
    let from: usize = if s.len() > 0 && s[0] == '+' {
        1
    } else {
        0
    };
    if from >= s.len() {
        return None;
    }
    if !all_digits_from(s, from) {
        proof {
            if from == 0 {
                assert(s@.skip(0) == s@);
            }
        }
        return None;
    }
    proof {
        if from == 0 {
            assert(s@.skip(0) == s@);
        } else {
            assert(s@.skip(1) == s@.drop_first());
        }
    }
    digits_upto(s, from, 0xffff_ffff_ffff_ffff)
}

/// `str::parse::<i32>()`.
pub fn parse_i32(s: &[char]) -> (r: Option<i32>)
    ensures
        r matches Some(v) ==> signed_value(s@) == Some(v as int),
        r is None ==> !(signed_value(s@) matches Some(v) && i32::MIN <= v <= i32::MAX),
{
    let neg = s.len() > 0 && s[0] == '-';
    let from: usize = if s.len() > 0 && (s[0] == '+' || s[0] == '-') {
        1
    } else {
        0
    };
    if from >= s.len() {
        return None;
    }
    if !all_digits_from(s, from) {
        proof {
            if from == 0 {
                assert(s@.skip(0) == s@);
            }
        }
        return None;
    }
    proof {
        if from == 0 {
            assert(s@.skip(0) == s@);
        } else {
            assert(s@.skip(1) == s@.drop_first());
        }
    }
    let limit: u64 = if neg {
        0x8000_0000
    } else {
        0x7fff_ffff
    };
    match digits_upto(s, from, limit) {
        Some(v) => {
            if neg {
                Some((0 - (v as i64)) as i32)
            } else {
                Some(v as i32)
            }
        },
        None => None,
    }
}

/// The decimal digits of `n`, most significant first, without sign.
pub open spec fn decimal(n: nat) -> Seq<char>
    decreases n,
{
    if n < 10 {
        seq![(('0' as u32) + n) as char]
    } else {
        decimal(n / 10).push((('0' as u32) + (n % 10)) as char)
    }
}

/// The decimal rendering of a `u64`, as `to_string` gives it.
pub fn u64_decimal(n: u64) -> (r: Vec<char>)
    ensures
        r@ == decimal(n as nat),
    decreases n,
{
    if n < 10 {
        let c = char_of_digit(n as u32);
        let mut r: Vec<char> = Vec::new();
        r.push(c);
        r
    } else {
        let mut r = u64_decimal(n / 10);
        let c = char_of_digit((n % 10) as u32);
        r.push(c);
        r
    }
}

/// The character of a decimal digit.
fn char_of_digit(d: u32) -> (c: char)
    requires
        d < 10,
    ensures
        c == ((('0' as u32) + d) as char),
{
    if d == 0 {
        '0'
    } else if d == 1 {
        '1'
    } else if d == 2 {
        '2'
    } else if d == 3 {
        '3'
    } else if d == 4 {
        '4'
    } else if d == 5 {
        '5'
    } else if d == 6 {
        '6'
    } else if d == 7 {
        '7'
    } else if d == 8 {
        '8'
    } else {
        '9'
    }
}

/// The decimal rendering of an `i64`, as `to_string` gives it.
pub open spec fn signed_decimal(n: int) -> Seq<char> {
    if n < 0 {
        seq!['-'] + decimal((-n) as nat)
    } else {
        decimal(n as nat)
    }
}

/// The decimal rendering of `n` is a non-empty run of digits worth `n`.
pub proof fn lemma_decimal_digits(n: nat)
    ensures
        decimal(n).len() >= 1,
        all_digits(decimal(n)),
        digits_value(decimal(n)) == n,
    decreases n,
{
    let c = (('0' as u32) + n % 10) as char;
    assert(c as int == '0' as int + n % 10);
    if n >= 10 {
        lemma_decimal_digits(n / 10);
        let d = decimal(n / 10);
        assert(decimal(n) == d.push(c));
        assert(decimal(n).drop_last() == d);
        assert(decimal(n).last() == c);
        assert(digits_value(decimal(n)) == digits_value(d) * 10 + digit_value(c));
        assert((n / 10) * 10 + n % 10 == n);
        assert forall|i: int| 0 <= i < decimal(n).len() implies is_digit(#[trigger] decimal(n)[i]) by {
            if i < d.len() {
                assert(decimal(n)[i] == d[i]);
            }
        }
    } else {
        assert(decimal(n) == seq![c]);
        assert(seq![c].drop_last() == Seq::<char>::empty());
        assert(digits_value(seq![c]) == digits_value(Seq::<char>::empty()) * 10 + digit_value(c));
    }
}

/// The signed decimal rendering of `n` reads back as `n`, and holds no
/// character but a leading `-` and digits.
pub proof fn lemma_signed_decimal_value(n: int)
    ensures
        signed_value(signed_decimal(n)) == Some(n),
        signed_decimal(n).len() >= 1,
        forall|i: int| 0 <= i < signed_decimal(n).len() ==> #[trigger] signed_decimal(n)[i] == '-'
            || is_digit(signed_decimal(n)[i]),
{
    if n < 0 {
        let d = decimal((-n) as nat);
        lemma_decimal_digits((-n) as nat);
        assert((seq!['-'] + d).drop_first() == d);
        assert forall|i: int| 0 <= i < signed_decimal(n).len() implies #[trigger] signed_decimal(n)[i] == '-'
            || is_digit(signed_decimal(n)[i]) by {
            if i > 0 {
                assert(signed_decimal(n)[i] == d[i - 1]);
            }
        }
    } else {
        lemma_decimal_digits(n as nat);
        assert(is_digit(decimal(n as nat)[0]));
    }
}

/// The decimal rendering of an `i64`.
pub fn i64_decimal(n: i64) -> (r: Vec<char>)
    ensures
        r@ == signed_decimal(n as int),
{
    if n < 0 {
        let m: u64 = if n == i64::MIN {
            0x8000_0000_0000_0000
        } else {
            (-n) as u64
        };
        let digits = u64_decimal(m);
        let mut r: Vec<char> = Vec::new();
        r.push('-');
        append_chars(&mut r, digits.as_slice());
        r
    } else {
        u64_decimal(n as u64)
    }
}

// ---------------------------------------------------------------------------
// Paths
// ---------------------------------------------------------------------------

/// `PathBuf::push` on `/`-separated paths: an absolute `part` (starting
/// with `/`) replaces `base`; otherwise `part` is appended, with a `/`
/// between them unless `base` is empty or already ends with one.
pub open spec fn path_join(base: Seq<char>, part: Seq<char>) -> Seq<char> {
    if part.len() > 0 && part[0] == '/' {
        part
    } else if base.len() == 0 || base.last() == '/' {
        base + part
    } else {
        base + seq!['/'] + part
    }
}

/// Joins `part` onto the path `base` (see `path_join`).
pub fn join_path(base: &str, part: &str) -> (r: String)
    ensures
        r@ == path_join(base@, part@),
{
    let p = chars_of(part);
    if p.len() > 0 && p[0] == '/' {
        return string_of(p.as_slice());
    }
    let mut b = chars_of(base);
    if b.len() > 0 && b[b.len() - 1] != '/' {
        b.push('/');
    }
    append_chars(&mut b, p.as_slice());
    string_of(b.as_slice())
}

// ---------------------------------------------------------------------------
// Ordering
// ---------------------------------------------------------------------------

/// `a` sorts strictly before `b` (lexicographic by code point, which is
/// `String`'s order).
pub open spec fn seq_lt(a: Seq<char>, b: Seq<char>) -> bool
    decreases a.len(),
{
    if a.len() == 0 {
        b.len() > 0
    } else if b.len() == 0 {
        false
    } else if a[0] != b[0] {
        a[0] < b[0]
    } else {
        seq_lt(a.drop_first(), b.drop_first())
    }
}

proof fn lemma_seq_lt_skip(a: Seq<char>, b: Seq<char>, i: int)
    requires
        0 <= i <= a.len(),
        i <= b.len(),
        forall|j: int| 0 <= j < i ==> a[j] == b[j],
    ensures
        seq_lt(a, b) == seq_lt(a.skip(i), b.skip(i)),
    decreases i,
{
    if i > 0 {
        assert(a.drop_first().skip(i - 1) == a.skip(i));
        assert(b.drop_first().skip(i - 1) == b.skip(i));
        lemma_seq_lt_skip(a.drop_first(), b.drop_first(), i - 1);
    } else {
        assert(a.skip(0) == a);
        assert(b.skip(0) == b);
    }
}

/// Whether `a` sorts strictly before `b`.
pub fn chars_lt(a: &[char], b: &[char]) -> (r: bool)
    ensures
        r == seq_lt(a@, b@),
{
    let mut i: usize = 0;
    while i < a.len() && i < b.len() && a[i] == b[i]
        invariant
            i <= a.len(),
            i <= b.len(),
            forall|j: int| 0 <= j < i ==> a@[j] == b@[j],
        decreases a.len() - i,
    {
        i = i + 1;
    }
    proof {
        lemma_seq_lt_skip(a@, b@, i as int);
    }
    if i == a.len() {
        i < b.len()
    } else if i == b.len() {
        false
    } else {
        a[i] < b[i]
    }
}

/// No string sorts before itself.
pub proof fn lemma_seq_lt_irreflexive(a: Seq<char>)
    ensures
        !seq_lt(a, a),
    decreases a.len(),
{
    if a.len() > 0 {
        lemma_seq_lt_irreflexive(a.drop_first());
    }
}

/// Two strings are never each before the other.
pub proof fn lemma_seq_lt_asymmetric(a: Seq<char>, b: Seq<char>)
    ensures
        seq_lt(a, b) ==> !seq_lt(b, a),
    decreases a.len(),
{
    if a.len() > 0 && b.len() > 0 && a[0] == b[0] {
        lemma_seq_lt_asymmetric(a.drop_first(), b.drop_first());
    }
}

/// The order of strings is transitive.
pub proof fn lemma_seq_lt_transitive(a: Seq<char>, b: Seq<char>, c: Seq<char>)
    ensures
        seq_lt(a, b) && seq_lt(b, c) ==> seq_lt(a, c),
    decreases a.len(),
{
    if a.len() > 0 && b.len() > 0 && c.len() > 0 && a[0] == b[0] && b[0] == c[0] {
        lemma_seq_lt_transitive(a.drop_first(), b.drop_first(), c.drop_first());
    }
}

/// Two different names are ordered one way or the other.
pub proof fn lemma_seq_lt_total(a: Seq<char>, b: Seq<char>)
    ensures
        a != b ==> seq_lt(a, b) || seq_lt(b, a),
    decreases a.len(),
{
    if a.len() > 0 && b.len() > 0 && a[0] == b[0] {
        lemma_seq_lt_total(a.drop_first(), b.drop_first());
        if a.drop_first() == b.drop_first() {
            assert(a == seq![a[0]] + a.drop_first());
            assert(b == seq![b[0]] + b.drop_first());
        }
    } else if a.len() == 0 && b.len() == 0 {
        assert(a == b);
    }
}

/// Each string comes strictly before the next.
pub open spec fn strictly_sorted(s: Seq<Seq<char>>) -> bool {
    forall|i: int| 0 <= i < s.len() - 1 ==> #[trigger] seq_lt(s[i], s[i + 1])
}

/// The views of strings.
pub open spec fn strs_view(v: Seq<String>) -> Seq<Seq<char>> {
    v.map_values(|s: String| s@)
}

/// The strings of `names`, each once, in ascending order.
pub fn sorted_distinct(names: &Vec<String>) -> (r: Vec<String>)
    ensures
        strictly_sorted(strs_view(r@)),
        forall|p: Seq<char>| strs_view(r@).contains(p) <==> strs_view(names@).contains(p),
{
    let mut out: Vec<String> = Vec::new();
    let mut k: usize = 0;
    while k < names.len()
        invariant
            k <= names.len(),
            strictly_sorted(strs_view(out@)),
            forall|p: Seq<char>| strs_view(out@).contains(p) <==> strs_view(names@.take(k as int)).contains(p),
        decreases names.len() - k,
    {
        let x = chars_of(names[k].as_str());
        let ghost ov = strs_view(out@);
        let mut p: usize = 0;
        while p < out.len()
            invariant
                p <= out.len(),
                ov == strs_view(out@),
                forall|j: int| 0 <= j < p ==> #[trigger] seq_lt(ov[j], x@),
            ensures
                p <= out.len(),
                forall|j: int| 0 <= j < p ==> #[trigger] seq_lt(ov[j], x@),
                p == out.len() || !seq_lt(ov[p as int], x@),
            decreases out.len() - p,
        {
            let y = chars_of(out[p].as_str());
            if !chars_lt(y.as_slice(), x.as_slice()) {
                break;
            }
            p = p + 1;
        }
        let dup = p < out.len() && str_equals(out[p].as_str(), names[k].as_str());
        proof {
            let t = strs_view(names@.take(k as int));
            assert(strs_view(names@.take(k + 1)) == t.push(x@));
            assert forall|q: Seq<char>| t.push(x@).contains(q) <==> (t.contains(q) || q == x@) by {
                if t.push(x@).contains(q) {
                    let j = choose|j: int| 0 <= j < t.push(x@).len() && t.push(x@)[j] == q;
                    if j < t.len() {
                        assert(t[j] == q);
                    }
                }
                if t.contains(q) {
                    let j = choose|j: int| 0 <= j < t.len() && t[j] == q;
                    assert(t.push(x@)[j] == q);
                }
                if q == x@ {
                    assert(t.push(x@)[t.len() as int] == q);
                }
            }
        }
        if !dup {
            out.insert(p, names[k].clone());
            proof {
                let nv = strs_view(out@);
                assert(nv == ov.insert(p as int, x@));
                if p < ov.len() {
                    lemma_seq_lt_total(ov[p as int], x@);
                }
                assert forall|i: int| 0 <= i < nv.len() - 1 implies #[trigger] seq_lt(nv[i], nv[i + 1]) by {
                    if i + 1 < p {
                        assert(nv[i] == ov[i] && nv[i + 1] == ov[i + 1]);
                        assert(seq_lt(ov[i], ov[i + 1]));
                    } else if i + 1 == p {
                        assert(nv[i] == ov[i]);
                    } else if i == p {
                        assert(nv[i + 1] == ov[i]);
                    } else {
                        assert(nv[i] == ov[i - 1] && nv[i + 1] == ov[i]);
                        assert(seq_lt(ov[i - 1], ov[(i - 1) + 1]));
                    }
                }
                assert forall|q: Seq<char>| nv.contains(q) <==> strs_view(names@.take(k + 1)).contains(q) by {
                    if nv.contains(q) {
                        let j = choose|j: int| 0 <= j < nv.len() && nv[j] == q;
                        if j != p {
                            let jj = if j < p { j } else { j - 1 };
                            assert(ov[jj] == q);
                        }
                    }
                    if ov.contains(q) {
                        let j = choose|j: int| 0 <= j < ov.len() && ov[j] == q;
                        let jj = if j < p { j } else { j + 1 };
                        assert(nv[jj] == q);
                    }
                    if q == x@ {
                        assert(nv[p as int] == q);
                    }
                }
            }
        } else {
            proof {
                assert(ov[p as int] == x@);
                assert forall|q: Seq<char>| ov.contains(q) <==> strs_view(names@.take(k + 1)).contains(q) by {
                    if q == x@ {
                        assert(ov[p as int] == q);
                    }
                }
            }
        }
        k = k + 1;
    }
    assert(names@.take(names.len() as int) == names@);
    out
}

// ---------------------------------------------------------------------------
// Path components
// ---------------------------------------------------------------------------

/// The components of a path, as `std::path::Path::components` yields them
/// on Unix, each written as its kind and then its name: `'0'` the root,
/// `'1'` a leading `.`, `'2'` a `..`, `'3'` followed by the name of any
/// other component. Comparing two such texts by `seq_lt` orders them as
/// `std::path::Component` is ordered.
pub open spec fn part_of(seg: Seq<char>, first: bool) -> Seq<Seq<char>> {
    if seg.len() == 0 {
        Seq::empty()
    } else if seg == seq!['.'] {
        if first {
            seq![seq!['1']]
        } else {
            Seq::empty()
        }
    } else if seg == seq!['.', '.'] {
        seq![seq!['2']]
    } else {
        seq![seq!['3'] + seg]
    }
}

/// Reading `p` from the start: the components of the segments already
/// ended by a `/`, the segment in progress, and whether a `/` was seen.
pub open spec fn parts_scan(p: Seq<char>) -> (Seq<Seq<char>>, Seq<char>, bool)
    decreases p.len(),
{
    if p.len() == 0 {
        (Seq::empty(), Seq::empty(), false)
    } else {
        let (ps, cur, seen) = parts_scan(p.drop_last());
        if p.last() == '/' {
            (ps + part_of(cur, !seen), Seq::empty(), true)
        } else {
            (ps, cur.push(p.last()), seen)
        }
    }
}

/// The components of `p` (see `part_of`): the root if it starts with `/`,
/// then one per segment between separators, skipping empty segments and
/// `.` segments but a leading one.
#[verifier::opaque]
pub open spec fn path_parts(p: Seq<char>) -> Seq<Seq<char>> {
    let (ps, cur, seen) = parts_scan(p);
    let rest = ps + part_of(cur, !seen);
    if p.len() > 0 && p[0] == '/' {
        seq![seq!['0']] + rest
    } else {
        rest
    }
}

/// `a` comes strictly before `b`, component by component (`Path`'s order).
pub open spec fn parts_lt(a: Seq<Seq<char>>, b: Seq<Seq<char>>) -> bool
    decreases a.len(),
{
    if a.len() == 0 {
        b.len() > 0
    } else if b.len() == 0 {
        false
    } else if a[0] != b[0] {
        seq_lt(a[0], b[0])
    } else {
        parts_lt(a.drop_first(), b.drop_first())
    }
}

/// No component list comes before itself.
pub proof fn lemma_parts_lt_irreflexive(a: Seq<Seq<char>>)
    ensures
        !parts_lt(a, a),
    decreases a.len(),
{
    if a.len() > 0 {
        lemma_parts_lt_irreflexive(a.drop_first());
    }
}

/// The order of component lists is transitive.
pub proof fn lemma_parts_lt_transitive(a: Seq<Seq<char>>, b: Seq<Seq<char>>, c: Seq<Seq<char>>)
    ensures
        parts_lt(a, b) && parts_lt(b, c) ==> parts_lt(a, c),
    decreases a.len(),
{
    if a.len() > 0 && b.len() > 0 && c.len() > 0 {
        if a[0] == b[0] && b[0] == c[0] {
            lemma_parts_lt_transitive(a.drop_first(), b.drop_first(), c.drop_first());
        } else {
            lemma_seq_lt_transitive(a[0], b[0], c[0]);
            lemma_seq_lt_asymmetric(a[0], b[0]);
            lemma_seq_lt_irreflexive(a[0]);
        }
    }
}

/// Two different component lists are ordered one way or the other.
pub proof fn lemma_parts_lt_total(a: Seq<Seq<char>>, b: Seq<Seq<char>>)
    ensures
        a != b ==> parts_lt(a, b) || parts_lt(b, a),
    decreases a.len(),
{
    if a.len() > 0 && b.len() > 0 {
        if a[0] == b[0] {
            lemma_parts_lt_total(a.drop_first(), b.drop_first());
            if a.drop_first() == b.drop_first() {
                assert(a == seq![a[0]] + a.drop_first());
                assert(b == seq![b[0]] + b.drop_first());
            }
        } else {
            lemma_seq_lt_total(a[0], b[0]);
        }
    } else if a.len() == 0 && b.len() == 0 {
        assert(a == b);
    }
}

proof fn lemma_parts_lt_skip(a: Seq<Seq<char>>, b: Seq<Seq<char>>, i: int)
    requires
        0 <= i <= a.len(),
        i <= b.len(),
        forall|j: int| 0 <= j < i ==> a[j] == b[j],
    ensures
        parts_lt(a, b) == parts_lt(a.skip(i), b.skip(i)),
    decreases i,
{
    if i > 0 {
        assert(a.drop_first().skip(i - 1) == a.skip(i));
        assert(b.drop_first().skip(i - 1) == b.skip(i));
        lemma_parts_lt_skip(a.drop_first(), b.drop_first(), i - 1);
    } else {
        assert(a.skip(0) == a);
        assert(b.skip(0) == b);
    }
}

/// The views of a list of character vectors.
pub open spec fn parts_view(v: Seq<Vec<char>>) -> Seq<Seq<char>> {
    v.map_values(|x: Vec<char>| x@)
}

fn push_part(ps: &mut Vec<Vec<char>>, seg: &Vec<char>, first: bool)
    ensures
        parts_view(final(ps)@) == parts_view(old(ps)@) + part_of(seg@, first),
{
    let ghost before = parts_view(ps@);
    if seg.len() == 0 {
        assert(parts_view(ps@) == before + Seq::<Seq<char>>::empty());
        return;
    }
    let dot = seg.len() == 1 && seg[0] == '.';
    let dots = seg.len() == 2 && seg[0] == '.' && seg[1] == '.';
    proof {
        if dot {
            assert(seg@ =~= seq!['.']);
        } else if seg@ == seq!['.'] {
            assert(seg@[0] == '.');
        }
        if dots {
            assert(seg@ =~= seq!['.', '.']);
        } else if seg@ == seq!['.', '.'] {
            assert(seg@[0] == '.' && seg@[1] == '.');
        }
    }
    if dot {
        if first {
            let mut v: Vec<char> = Vec::new();
            v.push('1');
            ps.push(v);
            assert(parts_view(ps@) == before + seq![seq!['1']]);
        } else {
            assert(parts_view(ps@) == before + Seq::<Seq<char>>::empty());
        }
    } else if dots {
        let mut v: Vec<char> = Vec::new();
        v.push('2');
        ps.push(v);
        assert(parts_view(ps@) == before + seq![seq!['2']]);
    } else {
        let mut v: Vec<char> = Vec::new();
        v.push('3');
        append_chars(&mut v, seg.as_slice());
        ps.push(v);
        assert(parts_view(ps@) == before + seq![seq!['3'] + seg@]);
    }
}

/// The components of `p` (see `path_parts`).
pub fn path_parts_of(p: &str) -> (r: Vec<Vec<char>>)
    ensures
        parts_view(r@) == path_parts(p@),
{
    let c = chars_of(p);
    let mut ps: Vec<Vec<char>> = Vec::new();
    let mut cur: Vec<char> = Vec::new();
    let mut seen = false;
    let mut i: usize = 0;
    while i < c.len()
        invariant
            i <= c.len(),
            c@ == p@,
            parts_scan(c@.take(i as int)) == (parts_view(ps@), cur@, seen),
        decreases c.len() - i,
    {
        assert(c@.take(i + 1).drop_last() == c@.take(i as int));
        if c[i] == '/' {
            push_part(&mut ps, &cur, !seen);
            cur = Vec::new();
            seen = true;
        } else {
            cur.push(c[i]);
        }
        i = i + 1;
    }
    assert(c@.take(c.len() as int) == c@);
    push_part(&mut ps, &cur, !seen);
    proof {
        reveal(path_parts);
    }
    if c.len() > 0 && c[0] == '/' {
        let mut root: Vec<char> = Vec::new();
        root.push('0');
        let ghost rest = parts_view(ps@);
        ps.insert(0, root);
        assert(parts_view(ps@) == seq![seq!['0']] + rest);
    }
    ps
}

/// Whether component list `a` comes strictly before `b`.
pub fn parts_before(a: &Vec<Vec<char>>, b: &Vec<Vec<char>>) -> (r: bool)
    ensures
        r == parts_lt(parts_view(a@), parts_view(b@)),
{
    let ghost av = parts_view(a@);
    let ghost bv = parts_view(b@);
    let mut i: usize = 0;
    while i < a.len() && i < b.len() && chars_equal(a[i].as_slice(), b[i].as_slice())
        invariant
            i <= a.len(),
            i <= b.len(),
            av == parts_view(a@),
            bv == parts_view(b@),
            forall|j: int| 0 <= j < i ==> av[j] == bv[j],
        decreases a.len() - i,
    {
        i = i + 1;
    }
    proof {
        lemma_parts_lt_skip(av, bv, i as int);
    }
    if i == a.len() {
        i < b.len()
    } else if i == b.len() {
        false
    } else {
        assert(av.skip(i as int)[0] == av[i as int]);
        assert(bv.skip(i as int)[0] == bv[i as int]);
        chars_lt(a[i].as_slice(), b[i].as_slice())
    }
}

/// Whether two component lists are the same.
pub fn parts_same(a: &Vec<Vec<char>>, b: &Vec<Vec<char>>) -> (r: bool)
    ensures
        r == (parts_view(a@) == parts_view(b@)),
{
    if a.len() != b.len() {
        assert(parts_view(a@).len() != parts_view(b@).len());
        return false;
    }
    let mut i: usize = 0;
    while i < a.len()
        invariant
            i <= a.len(),
            a.len() == b.len(),
            forall|j: int| 0 <= j < i ==> parts_view(a@)[j] == parts_view(b@)[j],
        decreases a.len() - i,
    {
        if !chars_equal(a[i].as_slice(), b[i].as_slice()) {
            assert(parts_view(a@)[i as int] != parts_view(b@)[i as int]);
            return false;
        }
        i = i + 1;
    }
    assert(parts_view(a@) =~= parts_view(b@));
    true
}

// ---------------------------------------------------------------------------
// UTF-8 widths
// ---------------------------------------------------------------------------

/// How many bytes UTF-8 takes for `c`.
pub open spec fn utf8_width(c: char) -> nat {
    if (c as u32) < 0x80 {
        1
    } else if (c as u32) < 0x800 {
        2
    } else if (c as u32) < 0x10000 {
        3
    } else {
        4
    }
}

/// How many bytes UTF-8 takes for `s`.
pub open spec fn utf8_size(s: Seq<char>) -> nat
    decreases s.len(),
{
    if s.len() == 0 {
        0
    } else {
        utf8_width(s[0]) + utf8_size(s.drop_first())
    }
}

/// The characters that lie wholly within the first `n` bytes of `s`.
pub open spec fn chars_within(s: Seq<char>, n: nat) -> Seq<char>
    decreases s.len(),
{
    if s.len() == 0 || utf8_width(s[0]) > n {
        Seq::empty()
    } else {
        seq![s[0]] + chars_within(s.drop_first(), (n - utf8_width(s[0])) as nat)
    }
}

/// Byte `n` of `s` (or its end, when shorter) falls between characters:
/// slicing `&s[..n.min(len)]` does not panic.
pub open spec fn byte_cut_ok(s: Seq<char>, n: nat) -> bool {
    utf8_size(s) <= n || utf8_size(chars_within(s, n)) == n
}

/// The UTF-8 width of `c`.
pub fn char_width(c: char) -> (w: u64)
    ensures
        w == utf8_width(c),
{
    let u = c as u32;
    if u < 0x80 {
        1
    } else if u < 0x800 {
        2
    } else if u < 0x10000 {
        3
    } else {
        4
    }
}

/// The characters that lie wholly within the first `n` bytes of `s`.
pub fn chars_within_exec(s: &[char], n: u64) -> (r: Vec<char>)
    ensures
        r@ == chars_within(s@, n as nat),
{
    let mut r: Vec<char> = Vec::new();
    let mut i: usize = 0;
    let mut left: u64 = n;
    assert(s@.skip(0) == s@);
    assert(r@ + chars_within(s@, n as nat) == chars_within(s@, n as nat));
    while i < s.len() && char_width(s[i]) <= left
        invariant
            i <= s.len(),
            left <= n,
            r@ + chars_within(s@.skip(i as int), left as nat) == chars_within(s@, n as nat),
        decreases s.len() - i,
    {
        let w = char_width(s[i]);
        let ghost t = s@.skip(i as int);
        proof {
            assert(t[0] == s@[i as int]);
            assert(t.drop_first() == s@.skip(i + 1));
            assert(chars_within(t, left as nat) == seq![s@[i as int]] + chars_within(s@.skip(i + 1), (left - w) as nat));
            assert(r@.push(s@[i as int]) + chars_within(s@.skip(i + 1), (left - w) as nat) == r@ + (seq![s@[i as int]]
                + chars_within(s@.skip(i + 1), (left - w) as nat)));
        }
        r.push(s[i]);
        left = left - w;
        i = i + 1;
    }
    proof {
        let t = s@.skip(i as int);
        if i < s.len() {
            assert(t[0] == s@[i as int]);
        }
        assert(chars_within(t, left as nat) == Seq::<char>::empty());
        assert(r@ + Seq::<char>::empty() == r@);
    }
    r
}

} // verus!
