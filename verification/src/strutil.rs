//! Verified text utilities: trimming, comparison, splitting and decimal
//! parsing over the character sequences that model Rust strings.

use vstd::prelude::*;

verus! {

/// The characters that trimming removes: the Unicode `White_Space` set,
/// as used by `str::trim` and `char::is_whitespace`.
pub open spec fn is_ws(c: char) -> bool {
    c == ' ' || c == '\t' || c == '\n' || c == '\u{000B}' || c == '\u{000C}' || c == '\r'
        || c == '\u{0085}' || c == '\u{00A0}' || c == '\u{1680}' || c == '\u{2000}'
        || c == '\u{2001}' || c == '\u{2002}' || c == '\u{2003}' || c == '\u{2004}'
        || c == '\u{2005}' || c == '\u{2006}' || c == '\u{2007}' || c == '\u{2008}'
        || c == '\u{2009}' || c == '\u{200A}' || c == '\u{2028}' || c == '\u{2029}'
        || c == '\u{202F}' || c == '\u{205F}' || c == '\u{3000}'
}

/// Whitespace test on one character.
pub fn is_ws_char(c: char) -> (r: bool)
    ensures
        r == is_ws(c),
{
    c == ' ' || c == '\t' || c == '\n' || c == '\u{000B}' || c == '\u{000C}' || c == '\r'
        || c == '\u{0085}' || c == '\u{00A0}' || c == '\u{1680}' || c == '\u{2000}'
        || c == '\u{2001}' || c == '\u{2002}' || c == '\u{2003}' || c == '\u{2004}'
        || c == '\u{2005}' || c == '\u{2006}' || c == '\u{2007}' || c == '\u{2008}'
        || c == '\u{2009}' || c == '\u{200A}' || c == '\u{2028}' || c == '\u{2029}'
        || c == '\u{202F}' || c == '\u{205F}' || c == '\u{3000}'
}

/// The sequence with leading and trailing whitespace removed.
pub open spec fn trimmed(s: Seq<char>) -> Seq<char>
    decreases s.len(),
{
    if s.len() == 0 {
        s
    } else if is_ws(s[0]) {
        trimmed(s.skip(1))
    } else if is_ws(s.last()) {
        trimmed(s.drop_last())
    } else {
        s
    }
}

/// A sequence is blank when it holds only whitespace.
pub open spec fn is_blank(s: Seq<char>) -> bool {
    forall|i: int| 0 <= i < s.len() ==> is_ws(s[i])
}

/// `trimmed` keeps exactly the span between the first and last
/// non-whitespace characters.
proof fn lemma_trimmed_subrange(s: Seq<char>, a: int, b: int)
    requires
        0 <= a <= b <= s.len(),
        forall|i: int| 0 <= i < a ==> is_ws(s[i]),
        forall|i: int| b <= i < s.len() ==> is_ws(s[i]),
        a < b ==> !is_ws(s[a]) && !is_ws(s[b - 1]),
    ensures
        trimmed(s) == s.subrange(a, b),
    decreases s.len(),
{
    if s.len() == 0 {
        assert(s.subrange(a, b) =~= s);
    } else if is_ws(s[0]) {
        let t = s.skip(1);
        if a > 0 {
            lemma_trimmed_subrange(t, a - 1, b - 1);
            assert(t.subrange(a - 1, b - 1) =~= s.subrange(a, b));
        } else {
            assert(a == 0 && b == 0) by {
                if b > 0 {
                    assert(!is_ws(s[0]));
                }
            }
            lemma_trimmed_subrange(t, 0, 0);
            assert(t.subrange(0, 0) =~= s.subrange(0, 0));
        }
    } else if is_ws(s.last()) {
        let t = s.drop_last();
        assert(b < s.len()) by {
            if b == s.len() {
                assert(a < b ==> !is_ws(s[b - 1]));
                assert(a == b ==> is_ws(s[0]));
            }
        }
        lemma_trimmed_subrange(t, a, b);
        assert(t.subrange(a, b) =~= s.subrange(a, b));
    } else {
        assert(a == 0) by {
            if a > 0 {
                assert(is_ws(s[0]));
            }
        }
        assert(b == s.len()) by {
            if b < s.len() {
                assert(is_ws(s[s.len() - 1]));
            }
        }
        assert(s.subrange(0, s.len() as int) =~= s);
    }
}

/// Remove leading and trailing whitespace.
#[verifier::loop_isolation(false)]
pub fn trim(s: &str) -> (r: &str)
    ensures
        r@ == trimmed(s@),
{
    let n = s.unicode_len();
    let mut start: usize = 0;
    while start < n && is_ws_char(s.get_char(start))
        invariant
            start <= n,
            forall|i: int| 0 <= i < start ==> is_ws(s@[i]),
        decreases n - start,
    {
        start += 1;
    }
    let mut end: usize = n;
    while end > start && is_ws_char(s.get_char(end - 1))
        invariant
            start <= end <= n,
            forall|i: int| end <= i < n ==> is_ws(s@[i]),
        decreases end,
    {
        end -= 1;
    }
    proof {
        lemma_trimmed_subrange(s@, start as int, end as int);
    }
    s.substring_char(start, end)
}

/// Trimming a blank sequence leaves nothing, and conversely.
pub proof fn lemma_trimmed_blank(s: Seq<char>)
    ensures
        (trimmed(s).len() == 0) == is_blank(s),
    decreases s.len(),
{
    if s.len() > 0 {
        if is_ws(s[0]) {
            lemma_trimmed_blank(s.skip(1));
            if is_blank(s.skip(1)) {
                assert forall|i: int| 0 <= i < s.len() implies is_ws(s[i]) by {
                    if i > 0 {
                        assert(s.skip(1)[i - 1] == s[i]);
                    }
                }
            } else {
                let j = choose|j: int| 0 <= j < s.skip(1).len() && !is_ws(s.skip(1)[j]);
                assert(s[j + 1] == s.skip(1)[j]);
                assert(!is_blank(s));
            }
        } else if is_ws(s.last()) {
            lemma_trimmed_blank(s.drop_last());
            assert(s.drop_last()[0] == s[0]);
            assert(!is_blank(s.drop_last()));
            assert(!is_blank(s));
        } else {
            assert(!is_blank(s));
        }
    }
}

/// String equality by characters.
#[verifier::loop_isolation(false)]
pub fn str_eq(a: &str, b: &str) -> (r: bool)
    ensures
        r == (a@ == b@),
{
    let n = a.unicode_len();
    if n != b.unicode_len() {
        proof {
            assert(a@.len() != b@.len() ==> a@ != b@);
        }
        return false;
    }
    let mut i: usize = 0;
    while i < n
        invariant
            i <= n,
            a@.len() == n,
            b@.len() == n,
            forall|j: int| 0 <= j < i ==> a@[j] == b@[j],
        decreases n - i,
    {
        if a.get_char(i) != b.get_char(i) {
            return false;
        }
        i += 1;
    }
    proof {
        assert(a@ =~= b@);
    }
    true
}

/// Does `s` begin with `prefix`?
#[verifier::loop_isolation(false)]
pub fn str_starts_with(s: &str, prefix: &str) -> (r: bool)
    ensures
        r == (s@.len() >= prefix@.len() && s@.take(prefix@.len() as int) == prefix@),
{
    let n = s.unicode_len();
    let m = prefix.unicode_len();
    if m > n {
        return false;
    }
    let mut i: usize = 0;
    while i < m
        invariant
            i <= m <= n,
            s@.len() == n,
            prefix@.len() == m,
            forall|j: int| 0 <= j < i ==> s@[j] == prefix@[j],
        decreases m - i,
    {
        if s.get_char(i) != prefix.get_char(i) {
            proof {
                assert(s@.take(m as int)[i as int] != prefix@[i as int]);
            }
            return false;
        }
        i += 1;
    }
    proof {
        assert(s@.take(m as int) =~= prefix@);
    }
    true
}

/// The characters kept by the substring pipe: take the first `end`
/// characters (all of them when `end` is absent), then skip the first
/// `start` of those.
pub open spec fn substr_of(s: Seq<char>, start: int, end: Option<int>) -> Seq<char> {
    let m = match end {
        Option::Some(e) => if e < s.len() {
            e
        } else {
            s.len() as int
        },
        Option::None => s.len() as int,
    };
    if start < m {
        s.subrange(start, m)
    } else {
        Seq::empty()
    }
}

/// Character-position substring, never out of range.
pub fn substr_chars(s: &str, start: usize, end: Option<usize>) -> (r: &str)
    ensures
        r@ == substr_of(s@, start as int, match end {
            Option::Some(e) => Option::Some(e as int),
            Option::None => Option::None,
        }),
{
    let n = s.unicode_len();
    let m = match end {
        Option::Some(e) => if e < n {
            e
        } else {
            n
        },
        Option::None => n,
    };
    if start < m {
        s.substring_char(start, m)
    } else {
        let r = s.substring_char(0, 0);
        proof {
            assert(r@ =~= Seq::<char>::empty());
        }
        r
    }
}

/// Models of a sequence of strings.
pub open spec fn strs_view(v: Seq<String>) -> Seq<Seq<char>> {
    v.map_values(|x: String| x@)
}

/// Splitting on a separator character, as `str::split` does: empty
/// segments are kept, and the empty input gives one empty segment.
pub open spec fn split_char(s: Seq<char>, sep: char) -> Seq<Seq<char>>
    decreases s.len(),
{
    if s.len() == 0 {
        seq![Seq::empty()]
    } else if s[0] == sep {
        seq![Seq::empty()] + split_char(s.skip(1), sep)
    } else {
        let rest = split_char(s.skip(1), sep);
        seq![seq![s[0]] + rest[0]] + rest.skip(1)
    }
}

/// A split has at least one segment.
pub proof fn lemma_split_char_len(s: Seq<char>, sep: char)
    ensures
        split_char(s, sep).len() >= 1,
    decreases s.len(),
{
    if s.len() > 0 {
        lemma_split_char_len(s.skip(1), sep);
    }
}

/// A sequence without the separator splits into itself alone.
proof fn lemma_split_char_none(s: Seq<char>, sep: char)
    requires
        forall|i: int| 0 <= i < s.len() ==> s[i] != sep,
    ensures
        split_char(s, sep) == seq![s],
    decreases s.len(),
{
    if s.len() == 0 {
        assert(s =~= Seq::<char>::empty());
        assert(split_char(s, sep) =~~= seq![s]);
    } else {
        lemma_split_char_none(s.skip(1), sep);
        let rest = split_char(s.skip(1), sep);
        assert(rest[0] == s.skip(1));
        assert(seq![s[0]] + s.skip(1) =~= s);
        assert(rest.skip(1) =~= Seq::<Seq<char>>::empty());
        assert(split_char(s, sep) =~~= seq![s]);
    }
}

/// Splitting at the first separator occurrence.
proof fn lemma_split_char_at(s: Seq<char>, sep: char, k: int)
    requires
        0 <= k < s.len(),
        s[k] == sep,
        forall|i: int| 0 <= i < k ==> s[i] != sep,
    ensures
        split_char(s, sep) == seq![s.take(k)] + split_char(s.skip(k + 1), sep),
    decreases s.len(),
{
    if k == 0 {
        assert(s.take(0) =~= Seq::<char>::empty());
        assert(seq![Seq::<char>::empty()] + split_char(s.skip(1), sep) == seq![s.take(0)]
            + split_char(s.skip(1), sep));
    } else {
        let t = s.skip(1);
        assert(t[k - 1] == sep);
        assert(forall|i: int| 0 <= i < k - 1 ==> t[i] == s[i + 1] && t[i] != sep);
        lemma_split_char_at(t, sep, k - 1);
        let rest = split_char(t, sep);
        lemma_split_char_len(t.skip(k), sep);
        assert(rest == seq![t.take(k - 1)] + split_char(t.skip(k), sep));
        assert(rest[0] == t.take(k - 1));
        assert(seq![s[0]] + t.take(k - 1) =~= s.take(k));
        assert(t.skip(k) =~= s.skip(k + 1));
        assert(rest.skip(1) =~= split_char(s.skip(k + 1), sep));
        assert(split_char(s, sep) =~~= seq![s.take(k)] + split_char(s.skip(k + 1), sep));
    }
}

/// Split a string on a separator character.
#[verifier::loop_isolation(false)]
#[verifier::rlimit(50)]
pub fn split_on_char(s: &str, sep: char) -> (r: Vec<String>)
    ensures
        strs_view(r@) == split_char(s@, sep),
{
    let n = s.unicode_len();
    let mut out: Vec<String> = Vec::new();
    let mut seg_start: usize = 0;
    let mut i: usize = 0;
    proof {
        assert(strs_view(out@) =~= Seq::<Seq<char>>::empty());
        assert(s@.skip(0) =~= s@);
        assert(strs_view(out@) + split_char(s@, sep) =~= split_char(s@, sep));
    }
    while i < n
        invariant
            seg_start <= i <= n,
            s@.len() == n,
            forall|j: int| seg_start <= j < i ==> s@[j] != sep,
            strs_view(out@) + split_char(s@.skip(seg_start as int), sep) == split_char(s@, sep),
        decreases n - i,
    {
        if s.get_char(i) == sep {
            let seg = s.substring_char(seg_start, i);
            let ghost prev = out@;
            proof {
                let tail = s@.skip(seg_start as int);
                assert(tail[i - seg_start] == s@[i as int]);
                assert(forall|j: int| 0 <= j < i - seg_start ==> tail[j] == s@[j + seg_start]
                    && tail[j] != sep);
                lemma_split_char_at(tail, sep, i - seg_start);
                assert(tail.take(i - seg_start) =~= seg@);
                assert(tail.skip(i - seg_start + 1) =~= s@.skip(i + 1));
            }
            out.push(seg.to_owned());
            proof {
                assert(strs_view(out@) =~= strs_view(prev).push(seg@));
                assert(strs_view(prev).push(seg@) + split_char(s@.skip(i + 1), sep) =~= strs_view(
                    prev,
                ) + (seq![seg@] + split_char(s@.skip(i + 1), sep)));
                assert(strs_view(out@) + split_char(s@.skip(i + 1), sep) =~~= split_char(s@, sep));
            }
            seg_start = i + 1;
        }
        i += 1;
    }
    let seg = s.substring_char(seg_start, n);
    let ghost prev = out@;
    proof {
        let tail = s@.skip(seg_start as int);
        assert(forall|j: int| 0 <= j < tail.len() ==> tail[j] == s@[j + seg_start] && tail[j]
            != sep);
        lemma_split_char_none(tail, sep);
        assert(tail =~= seg@);
    }
    out.push(seg.to_owned());
    proof {
        assert(strs_view(out@) =~= strs_view(prev).push(seg@));
        assert(strs_view(prev).push(seg@) =~= strs_view(prev) + seq![seg@]);
        assert(strs_view(out@) =~~= split_char(s@, sep));
    }
    out
}

/// Does the sequence hold two adjacent copies of `c`?
pub open spec fn has_double(s: Seq<char>, c: char) -> bool {
    exists|i: int| 0 <= i && i + 1 < s.len() && #[trigger] s[i] == c && #[trigger] s[i + 1] == c
}

/// Splitting on two adjacent copies of `c`, as `str::split` does on a
/// two-character pattern: matches are found left to right and do not
/// overlap.
pub open spec fn split_double(s: Seq<char>, c: char) -> Seq<Seq<char>>
    decreases s.len(),
{
    if s.len() < 2 {
        seq![s]
    } else if s[0] == c && s[1] == c {
        seq![Seq::empty()] + split_double(s.skip(2), c)
    } else {
        let rest = split_double(s.skip(1), c);
        seq![seq![s[0]] + rest[0]] + rest.skip(1)
    }
}

/// A double split has at least one segment.
proof fn lemma_split_double_len(s: Seq<char>, c: char)
    ensures
        split_double(s, c).len() >= 1,
    decreases s.len(),
{
    if s.len() >= 2 {
        if s[0] == c && s[1] == c {
            lemma_split_double_len(s.skip(2), c);
        } else {
            lemma_split_double_len(s.skip(1), c);
        }
    }
}

/// A sequence without the double separator splits into itself alone.
proof fn lemma_split_double_none(s: Seq<char>, c: char)
    requires
        !has_double(s, c),
    ensures
        split_double(s, c) == seq![s],
    decreases s.len(),
{
    if s.len() < 2 {
        assert(split_double(s, c) =~~= seq![s]);
    } else {
        assert(!(s[0] == c && s[1] == c)) by {
            if s[0] == c && s[1] == c {
                assert(s[0int + 1] == c);
            }
        }
        let t = s.skip(1);
        assert(!has_double(t, c)) by {
            if has_double(t, c) {
                let i = choose|i: int|
                    0 <= i && i + 1 < t.len() && #[trigger] t[i] == c && #[trigger] t[i + 1] == c;
                assert(s[i + 1] == t[i] && s[i + 2] == t[i + 1]);
            }
        }
        lemma_split_double_none(t, c);
        let rest = split_double(t, c);
        assert(rest[0] == t);
        assert(seq![s[0]] + t =~= s);
        assert(rest.skip(1) =~= Seq::<Seq<char>>::empty());
        assert(split_double(s, c) =~~= seq![s]);
    }
}

/// Splitting at the first double-separator occurrence.
proof fn lemma_split_double_at(s: Seq<char>, c: char, k: int)
    requires
        0 <= k,
        k + 1 < s.len(),
        s[k] == c && s[k + 1] == c,
        forall|i: int| 0 <= i < k ==> !(#[trigger] s[i] == c && #[trigger] s[i + 1] == c),
    ensures
        split_double(s, c) == seq![s.take(k)] + split_double(s.skip(k + 2), c),
    decreases s.len(),
{
    if k == 0 {
        assert(s.take(0) =~= Seq::<char>::empty());
        assert(split_double(s, c) =~~= seq![s.take(0)] + split_double(s.skip(2), c));
    } else {
        assert(!(s[0] == c && s[1] == c)) by {
            assert(!(s[0] == c && s[0int + 1] == c));
        }
        let t = s.skip(1);
        assert(t[k - 1] == c && t[k] == c);
        assert(forall|i: int| 0 <= i < k - 1 ==> #[trigger] t[i] == s[i + 1] && t[i + 1] == s[i
            + 2]);
        lemma_split_double_at(t, c, k - 1);
        let rest = split_double(t, c);
        lemma_split_double_len(t.skip(k + 1), c);
        assert(rest == seq![t.take(k - 1)] + split_double(t.skip(k + 1), c));
        assert(rest[0] == t.take(k - 1));
        assert(seq![s[0]] + t.take(k - 1) =~= s.take(k));
        assert(t.skip(k + 1) =~= s.skip(k + 2));
        assert(rest.skip(1) =~= split_double(s.skip(k + 2), c));
        assert(split_double(s, c) =~~= seq![s.take(k)] + split_double(s.skip(k + 2), c));
    }
}

/// Is there a double separator anywhere?
#[verifier::loop_isolation(false)]
pub fn contains_double(s: &str, c: char) -> (r: bool)
    ensures
        r == has_double(s@, c),
{
    let n = s.unicode_len();
    if n < 2 {
        return false;
    }
    let mut i: usize = 0;
    while i + 1 < n
        invariant
            i < n,
            s@.len() == n,
            forall|j: int| 0 <= j < i ==> !(#[trigger] s@[j] == c && #[trigger] s@[j + 1] == c),
        decreases n - i,
    {
        if s.get_char(i) == c && s.get_char(i + 1) == c {
            return true;
        }
        i += 1;
    }
    false
}

/// Split a string on two adjacent copies of `c`.
#[verifier::loop_isolation(false)]
#[verifier::rlimit(50)]
pub fn split_on_double(s: &str, c: char) -> (r: Vec<String>)
    ensures
        strs_view(r@) == split_double(s@, c),
{
    let n = s.unicode_len();
    let mut out: Vec<String> = Vec::new();
    let mut seg_start: usize = 0;
    let mut i: usize = 0;
    proof {
        assert(strs_view(out@) =~= Seq::<Seq<char>>::empty());
        assert(s@.skip(0) =~= s@);
        assert(strs_view(out@) + split_double(s@, c) =~= split_double(s@, c));
    }
    while i < n && i + 1 < n
        invariant
            seg_start <= i,
            i <= n,
            s@.len() == n,
            forall|j: int|
                seg_start <= j < i ==> !(#[trigger] s@[j] == c && #[trigger] s@[j + 1] == c),
            strs_view(out@) + split_double(s@.skip(seg_start as int), c) == split_double(s@, c),
        decreases n - i,
    {
        if s.get_char(i) == c && s.get_char(i + 1) == c {
            let seg = s.substring_char(seg_start, i);
            let ghost prev = out@;
            proof {
                let tail = s@.skip(seg_start as int);
                assert(tail[i - seg_start] == s@[i as int]);
                assert(tail[i - seg_start + 1] == s@[i + 1]);
                assert(forall|j: int| 0 <= j < i - seg_start ==> #[trigger] tail[j] == s@[j
                    + seg_start] && tail[j + 1] == s@[j + seg_start + 1]);
                lemma_split_double_at(tail, c, i - seg_start);
                assert(tail.take(i - seg_start) =~= seg@);
                assert(tail.skip(i - seg_start + 2) =~= s@.skip(i + 2));
            }
            out.push(seg.to_owned());
            proof {
                assert(strs_view(out@) =~= strs_view(prev).push(seg@));
                assert(strs_view(prev).push(seg@) + split_double(s@.skip(i + 2), c) =~= strs_view(
                    prev,
                ) + (seq![seg@] + split_double(s@.skip(i + 2), c)));
            }
            seg_start = i + 2;
            i += 2;
        } else {
            i += 1;
        }
    }
    let seg = s.substring_char(seg_start, n);
    let ghost prev = out@;
    proof {
        let tail = s@.skip(seg_start as int);
        assert(!has_double(tail, c)) by {
            if has_double(tail, c) {
                let j = choose|j: int|
                    0 <= j && j + 1 < tail.len() && #[trigger] tail[j] == c
                        && #[trigger] tail[j + 1] == c;
                assert(tail[j] == s@[j + seg_start]);
                assert(tail[j + 1] == s@[j + seg_start + 1]);
            }
        }
        lemma_split_double_none(tail, c);
        assert(tail =~= seg@);
    }
    out.push(seg.to_owned());
    proof {
        assert(strs_view(out@) =~= strs_view(prev).push(seg@));
        assert(strs_view(prev).push(seg@) =~= strs_view(prev) + seq![seg@]);
        assert(strs_view(out@) =~~= split_double(s@, c));
    }
    out
}


/// Decimal digit test.
pub open spec fn is_digit(c: char) -> bool {
    c == '0' || c == '1' || c == '2' || c == '3' || c == '4' || c == '5' || c == '6' || c == '7'
        || c == '8' || c == '9'
}

/// The value of one decimal digit.
pub open spec fn digit_val(c: char) -> int {
    if c == '0' {
        0
    } else if c == '1' {
        1
    } else if c == '2' {
        2
    } else if c == '3' {
        3
    } else if c == '4' {
        4
    } else if c == '5' {
        5
    } else if c == '6' {
        6
    } else if c == '7' {
        7
    } else if c == '8' {
        8
    } else {
        9
    }
}

/// The value of a decimal digit, or nothing for any other character.
pub fn digit_of(c: char) -> (r: Option<u64>)
    ensures
        match r {
            Option::Some(d) => is_digit(c) && d == digit_val(c),
            Option::None => !is_digit(c),
        },
{
    match c {
        '0' => Option::Some(0),
        '1' => Option::Some(1),
        '2' => Option::Some(2),
        '3' => Option::Some(3),
        '4' => Option::Some(4),
        '5' => Option::Some(5),
        '6' => Option::Some(6),
        '7' => Option::Some(7),
        '8' => Option::Some(8),
        '9' => Option::Some(9),
        _ => Option::None,
    }
}

/// Only decimal digits?
pub open spec fn digits_only(s: Seq<char>) -> bool {
    forall|i: int| 0 <= i < s.len() ==> is_digit(#[trigger] s[i])
}

/// The value of a sequence of decimal digits.
pub open spec fn dec_val(s: Seq<char>) -> int
    decreases s.len(),
{
    if s.len() == 0 {
        0
    } else {
        dec_val(s.drop_last()) * 10 + digit_val(s.last())
    }
}

/// Digit strings have non-negative values.
pub proof fn lemma_dec_val_nonneg(s: Seq<char>)
    ensures
        digits_only(s) ==> dec_val(s) >= 0,
    decreases s.len(),
{
    if s.len() > 0 {
        assert(digits_only(s) ==> digits_only(s.drop_last()));
        lemma_dec_val_nonneg(s.drop_last());
    }
}

/// A prefix of a digit string is worth no more than the whole.
proof fn lemma_dec_val_take(s: Seq<char>, k: int)
    requires
        digits_only(s),
        0 <= k <= s.len(),
    ensures
        dec_val(s.take(k)) <= dec_val(s),
    decreases s.len() - k,
{
    if k < s.len() {
        lemma_dec_val_take(s, k + 1);
        let t = s.take(k + 1);
        assert(t.drop_last() =~= s.take(k));
        assert(digits_only(t.drop_last()));
        lemma_dec_val_nonneg(t.drop_last());
        assert(dec_val(t) == dec_val(s.take(k)) * 10 + digit_val(t.last()));
        assert(dec_val(s.take(k)) * 10 >= dec_val(s.take(k)));
        assert(digit_val(t.last()) >= 0);
    } else {
        assert(s.take(k) =~= s);
    }
}

/// The integer written by a signed decimal literal: an optional sign
/// followed by one or more digits, as `i64::from_str` reads it; anything
/// else has no value.
pub open spec fn int_literal(s: Seq<char>) -> Option<int> {
    let mag = if s.len() > 0 && (s[0] == '+' || s[0] == '-') {
        s.skip(1)
    } else {
        s
    };
    if mag.len() > 0 && digits_only(mag) {
        if s.len() > 0 && s[0] == '-' {
            Option::Some(-dec_val(mag))
        } else {
            Option::Some(dec_val(mag))
        }
    } else {
        Option::None
    }
}

/// The integer written by an unsigned decimal literal: an optional `+`
/// followed by one or more digits, as `usize::from_str` reads it.
pub open spec fn uint_literal(s: Seq<char>) -> Option<int> {
    let mag = if s.len() > 0 && s[0] == '+' {
        s.skip(1)
    } else {
        s
    };
    if mag.len() > 0 && digits_only(mag) {
        Option::Some(dec_val(mag))
    } else {
        Option::None
    }
}

/// Read the digits of `s` from position `from` on, refusing values above
/// `limit`, characters that are not digits, and an empty digit run.
#[verifier::loop_isolation(false)]
fn parse_digits(s: &str, from: usize, limit: u64) -> (r: Option<u64>)
    requires
        from <= s@.len(),
    ensures
        (r is Some) == (s@.skip(from as int).len() > 0 && digits_only(s@.skip(from as int))
            && dec_val(s@.skip(from as int)) <= limit),
        r matches Some(v) ==> v as int == dec_val(s@.skip(from as int)) && v <= limit,
{
    let ghost mag = s@.skip(from as int);
    let n = s.unicode_len();
    if from == n {
        return Option::None;
    }
    let mut acc: u64 = 0;
    let mut i: usize = from;
    proof {
        assert(mag.take(0) =~= Seq::<char>::empty());
    }
    while i < n
        invariant
            from <= i <= n,
            s@.len() == n,
            digits_only(mag.take(i - from)),
            acc as int == dec_val(mag.take(i - from)),
            acc <= limit,
        decreases n - i,
    {
        let c = s.get_char(i);
        proof {
            assert(mag[i - from] == s@[i as int]);
        }
        let d = match digit_of(c) {
            Option::Some(d) => d,
            Option::None => {
                proof {
                    assert(!digits_only(mag));
                }
                return Option::None;
            },
        };
        proof {
            assert(mag.take(i - from + 1).drop_last() =~= mag.take(i - from));
            assert(mag.take(i - from + 1).last() == mag[i - from]);
            assert(digits_only(mag.take(i - from + 1)));
        }
        let ghost next_val = dec_val(mag.take(i - from + 1));
        proof {
            assert(next_val == acc as int * 10 + digit_val(c));
        }
        if acc > limit / 10 {
            proof {
                assert(acc as int * 10 > limit) by (nonlinear_arith)
                    requires
                        acc > limit / 10,
                        acc <= u64::MAX,
                        limit <= u64::MAX,
                ;
                assert(next_val > limit);
                if digits_only(mag) {
                    lemma_dec_val_take(mag, i - from + 1);
                }
            }
            return Option::None;
        }
        let step = acc * 10;
        if d > limit - step {
            proof {
                assert(next_val > limit);
                if digits_only(mag) {
                    lemma_dec_val_take(mag, i - from + 1);
                }
            }
            return Option::None;
        }
        acc = step + d;
        i += 1;
    }
    proof {
        assert(mag.take(n - from) =~= mag);
    }
    Option::Some(acc)
}

/// Parse a 64-bit signed integer as `i64::from_str` does: a value exists
/// exactly when the text is an optional sign followed by digits and the
/// value fits.
#[verifier::loop_isolation(false)]
pub fn parse_i64_str(s: &str) -> (r: Option<i64>)
    ensures
        (r is Some) == (match int_literal(s@) {
            Option::Some(n) => i64::MIN <= n <= i64::MAX,
            Option::None => false,
        }),
        r matches Some(v) ==> int_literal(s@) == Option::Some(v as int),
{
    let n = s.unicode_len();
    if n == 0 {
        return Option::None;
    }
    let first = s.get_char(0);
    let negative = first == '-';
    let from: usize = if negative || first == '+' {
        1
    } else {
        0
    };
    let limit: u64 = if negative {
        9223372036854775808
    } else {
        9223372036854775807
    };
    proof {
        if from == 0 {
            assert(s@.skip(0) =~= s@);
        }
    }
    match parse_digits(s, from, limit) {
        Option::None => Option::None,
        Option::Some(mag) => {
            if negative {
                if mag == 9223372036854775808 {
                    Option::Some(i64::MIN)
                } else {
                    Option::Some(-(mag as i64))
                }
            } else {
                Option::Some(mag as i64)
            }
        },
    }
}

/// Parse an unsigned size as `usize::from_str` does.
#[verifier::loop_isolation(false)]
pub fn parse_usize_str(s: &str) -> (r: Option<usize>)
    ensures
        (r is Some) == (match uint_literal(s@) {
            Option::Some(n) => n <= usize::MAX,
            Option::None => false,
        }),
        r matches Some(v) ==> uint_literal(s@) == Option::Some(v as int),
{
    let n = s.unicode_len();
    if n == 0 {
        return Option::None;
    }
    let from: usize = if s.get_char(0) == '+' {
        1
    } else {
        0
    };
    proof {
        if from == 0 {
            assert(s@.skip(0) =~= s@);
        }
    }
    match parse_digits(s, from, usize::MAX as u64) {
        Option::None => Option::None,
        Option::Some(mag) => Option::Some(mag as usize),
    }
}

} // verus!
