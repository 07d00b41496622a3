use vstd::prelude::*;
use unicode_width::UnicodeWidthStr;

verus! {

/// Display width of a string in terminal columns, as measured by unicode-width.
pub uninterp spec fn display_width(s: Seq<char>) -> nat;

/// Every character is printable ASCII (space through tilde).
pub open spec fn is_printable_ascii(s: Seq<char>) -> bool {
    forall|i: int| 0 <= i < s.len() ==> ' ' <= #[trigger] s[i] <= '~'
}

/// Relies on `UnicodeWidthStr::width` of unicode-width: the display width of the
/// string, which depends on its characters alone; printable ASCII characters are
/// one column each.
#[verifier::external_body]
pub(crate) fn text_width(s: &str) -> (r: usize)
    ensures
        r == display_width(s@),
        is_printable_ascii(s@) ==> r == s@.len(),
{
    s.width()
}

/// Relies on `String::push`: appends one character.
#[verifier::external_body]
pub(crate) fn push_char(s: &mut String, c: char)
    ensures
        final(s)@ == old(s)@.push(c),
{
    s.push(c)
}

/// Unicode White_Space, the characters that `str::trim` removes.
pub open spec fn is_ws(c: char) -> bool {
    ('\u{9}' <= c <= '\u{d}') || c == ' ' || c == '\u{85}' || c == '\u{a0}' || c == '\u{1680}'
        || ('\u{2000}' <= c <= '\u{200a}') || c == '\u{2028}' || c == '\u{2029}' || c
        == '\u{202f}' || c == '\u{205f}' || c == '\u{3000}'
}

pub fn is_white_space(c: char) -> (r: bool)
    ensures
        r == is_ws(c),
{
    ('\u{9}' <= c && c <= '\u{d}') || c == ' ' || c == '\u{85}' || c == '\u{a0}' || c == '\u{1680}'
        || ('\u{2000}' <= c && c <= '\u{200a}') || c == '\u{2028}' || c == '\u{2029}' || c
        == '\u{202f}' || c == '\u{205f}' || c == '\u{3000}'
}

/// `s` without its leading white space.
pub open spec fn trim_start(s: Seq<char>) -> Seq<char>
    decreases s.len(),
{
    if s.len() > 0 && is_ws(s[0]) {
        trim_start(s.drop_first())
    } else {
        s
    }
}

/// `s` without its trailing white space.
pub open spec fn trim_end(s: Seq<char>) -> Seq<char>
    decreases s.len(),
{
    if s.len() > 0 && is_ws(s.last()) {
        trim_end(s.drop_last())
    } else {
        s
    }
}

/// `s` without white space at either end.
pub open spec fn trim(s: Seq<char>) -> Seq<char> {
    trim_end(trim_start(s))
}

/// The same characters with white space removed from both ends.
pub fn trim_str(s: &str) -> (r: &str)
    ensures
        r@ == trim(s@),
{
    let n = s.unicode_len();
    let mut i: usize = 0;
    assert(s@.subrange(0, n as int) =~= s@);
    while i < n && is_white_space(s.get_char(i))
        invariant
            n == s@.len(),
            i <= n,
            trim_start(s@) == trim_start(s@.subrange(i as int, n as int)),
        decreases n - i,
    {
        assert(s@.subrange(i as int, n as int).drop_first() =~= s@.subrange(i + 1, n as int));
        i = i + 1;
    }
    proof {
        let t = s@.subrange(i as int, n as int);
        if i < n {
            assert(t[0] == s@[i as int]);
        }
        assert(trim_start(t) == t);
    }
    let mut j: usize = n;
    assert(s@.subrange(i as int, n as int) == s@.subrange(i as int, j as int));
    while j > i && is_white_space(s.get_char(j - 1))
        invariant
            n == s@.len(),
            i <= j <= n,
            trim_start(s@) == s@.subrange(i as int, n as int),
            trim(s@) == trim_end(s@.subrange(i as int, j as int)),
        decreases j - i,
    {
        assert(s@.subrange(i as int, j as int).drop_last() =~= s@.subrange(i as int, j - 1));
        j = j - 1;
    }
    s.substring_char(i, j)
}

/// Index of the first `c` in `s`, or -1.
pub open spec fn first_of(s: Seq<char>, c: char) -> int
    decreases s.len(),
{
    if s.len() == 0 {
        -1
    } else {
        let k = first_of(s.drop_last(), c);
        if k >= 0 {
            k
        } else if s.last() == c {
            s.len() - 1
        } else {
            -1
        }
    }
}

pub proof fn lemma_first_of(s: Seq<char>, c: char)
    ensures
        -1 <= first_of(s, c) < s.len(),
        first_of(s, c) >= 0 ==> s[first_of(s, c)] == c,
        forall|j: int| 0 <= j < s.len() && (j < first_of(s, c) || first_of(s, c) < 0) ==> s[j] != c,
    decreases s.len(),
{
    if s.len() > 0 {
        lemma_first_of(s.drop_last(), c);
        assert forall|j: int| 0 <= j < s.len() - 1 implies s[j] == s.drop_last()[j] by {}
    }
}

/// Index of the first `c` in `s`.
pub fn find_char(s: &str, c: char) -> (r: Option<usize>)
    ensures
        match r {
            Some(i) => i == first_of(s@, c),
            None => first_of(s@, c) < 0,
        },
{
    proof {
        lemma_first_of(s@, c);
    }
    let n = s.unicode_len();
    let mut i: usize = 0;
    while i < n
        invariant
            n == s@.len(),
            i <= n,
            -1 <= first_of(s@, c) < s@.len(),
            first_of(s@, c) >= 0 ==> s@[first_of(s@, c)] == c,
            forall|j: int|
                0 <= j < s@.len() && (j < first_of(s@, c) || first_of(s@, c) < 0) ==> s@[j] != c,
            forall|j: int| 0 <= j < i ==> s@[j] != c,
        decreases n - i,
    {
        if s.get_char(i) == c {
            return Some(i);
        }
        i = i + 1;
    }
    None
}

/// Bytes that a character takes in UTF-8.
pub open spec fn utf8_width(c: char) -> nat {
    if (c as u32) < 0x80 {
        1
    } else if (c as u32) < 0x800 {
        2
    } else if (c as u32) < 0x10000 {
        3
    } else {
        4
    }
}

/// Bytes that a string takes in UTF-8.
pub open spec fn utf8_len(s: Seq<char>) -> nat
    decreases s.len(),
{
    if s.len() == 0 {
        0
    } else {
        utf8_len(s.drop_last()) + utf8_width(s.last())
    }
}

proof fn lemma_utf8_len_mono(s: Seq<char>, i: int)
    requires
        0 <= i <= s.len(),
    ensures
        utf8_len(s.take(i)) <= utf8_len(s),
    decreases s.len() - i,
{
    if i < s.len() {
        lemma_utf8_len_mono(s, i + 1);
        assert(s.take(i + 1).drop_last() =~= s.take(i));
    } else {
        assert(s.take(i) =~= s);
    }
}

/// Whether `s` takes more than `limit` bytes in UTF-8.
pub fn longer_than(s: &str, limit: usize) -> (r: bool)
    requires
        limit <= usize::MAX - 4,
    ensures
        r == (utf8_len(s@) > limit),
{
    let n = s.unicode_len();
    let mut total: usize = 0;
    let mut i: usize = 0;
    while i < n
        invariant
            n == s@.len(),
            i <= n,
            limit <= usize::MAX - 4,
            total == utf8_len(s@.take(i as int)),
            total <= limit,
        decreases n - i,
    {
        let c = s.get_char(i);
        let w: usize = if (c as u32) < 0x80 {
            1
        } else if (c as u32) < 0x800 {
            2
        } else if (c as u32) < 0x10000 {
            3
        } else {
            4
        };
        assert(s@.take(i + 1).drop_last() =~= s@.take(i as int));
        total = total + w;
        i = i + 1;
        if total > limit {
            proof {
                lemma_utf8_len_mono(s@, i as int);
            }
            return true;
        }
    }
    assert(s@.take(i as int) =~= s@);
    false
}

/// `a` then `b` start at index `i` of `s`.
pub open spec fn pair_at(s: Seq<char>, i: int, a: char, b: char) -> bool {
    0 <= i && i + 1 < s.len() && s[i] == a && s[i + 1] == b
}

/// Index of the first `a` directly followed by `b` in `s`, or -1.
pub open spec fn first_pair(s: Seq<char>, a: char, b: char) -> int
    decreases s.len(),
{
    if s.len() < 2 {
        -1
    } else {
        let k = first_pair(s.drop_last(), a, b);
        if k >= 0 {
            k
        } else if pair_at(s, s.len() - 2, a, b) {
            s.len() - 2
        } else {
            -1
        }
    }
}

pub proof fn lemma_first_pair(s: Seq<char>, a: char, b: char)
    ensures
        -1 <= first_pair(s, a, b) < s.len() - 1 || first_pair(s, a, b) == -1,
        first_pair(s, a, b) >= 0 ==> pair_at(s, first_pair(s, a, b), a, b),
        forall|j: int| (j < first_pair(s, a, b) || first_pair(s, a, b) < 0) ==> !pair_at(s, j, a, b),
    decreases s.len(),
{
    if s.len() >= 2 {
        let p = s.drop_last();
        lemma_first_pair(p, a, b);
        assert forall|j: int| 0 <= j && j + 1 < p.len() implies (pair_at(s, j, a, b) <==> pair_at(
            p,
            j,
            a,
            b,
        )) by {}
    }
}

/// Index of the first `a` directly followed by `b` in `s`.
pub fn find_pair(s: &str, a: char, b: char) -> (r: Option<usize>)
    ensures
        match r {
            Some(i) => i == first_pair(s@, a, b) && i + 1 < s@.len(),
            None => first_pair(s@, a, b) < 0,
        },
{
    proof {
        lemma_first_pair(s@, a, b);
    }
    let n = s.unicode_len();
    let mut i: usize = 0;
    while n >= 2 && i < n - 1
        invariant
            n == s@.len(),
            i <= n,
            first_pair(s@, a, b) >= 0 ==> pair_at(s@, first_pair(s@, a, b), a, b),
            forall|j: int| (j < first_pair(s@, a, b) || first_pair(s@, a, b) < 0) ==> !pair_at(s@, j, a, b),
            forall|j: int| 0 <= j < i ==> !pair_at(s@, j, a, b),
        decreases n - i,
    {
        if s.get_char(i) == a && s.get_char(i + 1) == b {
            assert(pair_at(s@, i as int, a, b));
            return Some(i);
        }
        i = i + 1;
    }
    None
}

/// The integer that `str::parse::<i64>` reads from `s`, if it reads one.
pub uninterp spec fn int_of_text(s: Seq<char>) -> Option<int>;

/// Relies on `str::parse::<i64>`: an optional sign and decimal digits, within the
/// range of `i64`; the result depends on the characters alone.
#[verifier::external_body]
pub(crate) fn parse_i64(s: &str) -> (r: Option<i64>)
    ensures
        match r {
            Some(v) => int_of_text(s@) == Some(v as int),
            None => int_of_text(s@) is None,
        },
{
    s.parse::<i64>().ok()
}

/// Whether two strings hold the same characters.
pub fn same_text(a: &str, b: &str) -> (r: bool)
    ensures
        r == (a@ == b@),
{
    let n = a.unicode_len();
    if n != b.unicode_len() {
        return false;
    }
    let mut i: usize = 0;
    while i < n
        invariant
            n == a@.len(),
            a@.len() == b@.len(),
            i <= n,
            forall|j: int| 0 <= j < i ==> a@[j] == b@[j],
        decreases n - i,
    {
        if a.get_char(i) != b.get_char(i) {
            return false;
        }
        i = i + 1;
    }
    assert(a@ =~= b@);
    true
}

/// Whether one of `names` is `name`.
pub fn contains_text(names: &Vec<String>, name: &str) -> (r: bool)
    ensures
        r == names@.map_values(|s: String| s@).contains(name@),
{
    let ghost all = names@.map_values(|s: String| s@);
    let mut i: usize = 0;
    while i < names.len()
        invariant
            i <= names@.len(),
            all == names@.map_values(|s: String| s@),
            forall|j: int| 0 <= j < i ==> all[j] != name@,
        decreases names@.len() - i,
    {
        if same_text(names[i].as_str(), name) {
            assert(all[i as int] == name@);
            return true;
        }
        i = i + 1;
    }
    false
}

} // verus!
