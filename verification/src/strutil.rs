//! Character-sequence utilities: the exact string operations the parsers
//! are built on, stated over `Seq<char>`.

use vstd::prelude::*;
use vstd::string::StrSliceExecFns;

verus! {

/// ASCII whitespace, the characters stripped by trimming.
pub open spec fn is_ascii_space(c: char) -> bool {
    c == ' ' || c == '\t' || c == '\n' || c == '\r' || c == '\x0b' || c == '\x0c'
}

/// ASCII lowercasing of one character; everything else is untouched.
pub open spec fn lower_char(c: char) -> char {
    if 'A' <= c && c <= 'Z' {
        ((c as u8) + 32) as char
    } else {
        c
    }
}

/// ASCII lowercasing of a whole sequence.
pub open spec fn lower_seq(s: Seq<char>) -> Seq<char> {
    s.map_values(|c: char| lower_char(c))
}

/// The sequence with leading ASCII whitespace removed.
pub open spec fn trim_front(s: Seq<char>) -> Seq<char>
    decreases s.len(),
{
    if s.len() > 0 && is_ascii_space(s[0]) {
        trim_front(s.drop_first())
    } else {
        s
    }
}

/// The sequence with trailing ASCII whitespace removed.
pub open spec fn trim_back(s: Seq<char>) -> Seq<char>
    decreases s.len(),
{
    if s.len() > 0 && is_ascii_space(s.last()) {
        trim_back(s.drop_last())
    } else {
        s
    }
}

/// The sequence with ASCII whitespace removed from both ends.
pub open spec fn trim_seq(s: Seq<char>) -> Seq<char> {
    trim_back(trim_front(s))
}

/// A decimal digit.
pub open spec fn is_digit(c: char) -> bool {
    '0' <= c && c <= '9'
}

/// The numeric value of one decimal digit.
pub open spec fn digit_val(c: char) -> nat {
    (c as nat - '0' as nat) as nat
}

/// The number denoted by a sequence of decimal digits, most significant
/// first.  The empty sequence denotes zero.
pub open spec fn digits_val(s: Seq<char>) -> nat
    decreases s.len(),
{
    if s.len() == 0 {
        0
    } else {
        digits_val(s.drop_last()) * 10 + digit_val(s.last())
    }
}

/// Every character of the sequence is a decimal digit.
pub open spec fn all_digits(s: Seq<char>) -> bool {
    forall|i: int| 0 <= i < s.len() ==> is_digit(s[i])
}

/// What `str::parse::<usize>` accepts: an optional leading `+`, then one
/// or more decimal digits whose value fits in `usize`.
pub open spec fn spec_parse_usize(s: Seq<char>) -> Option<usize> {
    let body = if s.len() > 0 && s[0] == '+' {
        s.drop_first()
    } else {
        s
    };
    if body.len() > 0 && all_digits(body) && digits_val(body) <= usize::MAX {
        Some(digits_val(body) as usize)
    } else {
        None
    }
}

/// The characters of a string slice, as a vector.
pub fn chars_of(s: &str) -> (r: Vec<char>)
    ensures
        r@ == s@,
{
    let n = s.unicode_len();
    let mut r: Vec<char> = Vec::new();
    let mut i: usize = 0;
    while i < n
        invariant
            i <= n,
            n == s@.len(),
            r@ == s@.subrange(0, i as int),
        decreases n - i,
    {
        r.push(s.get_char(i));
        i = i + 1;
        proof {
            assert(r@ =~= s@.subrange(0, i as int));
        }
    }
    proof {
        assert(r@ =~= s@);
    }
    r
}

/// Relies on `String`'s `FromIterator<char>` implementation: collecting a
/// sequence of characters yields the string made of exactly those
/// characters in order.
#[verifier::external_body]
pub fn string_from_chars(v: &Vec<char>) -> (s: String)
    ensures
        s@ == v@,
{
    v.iter().collect()
}

/// Whether a character vector spells the same text as a string slice.
pub fn chars_eq_str(v: &Vec<char>, s: &str) -> (b: bool)
    ensures
        b == (v@ == s@),
{
    let n = s.unicode_len();
    if v.len() != n {
        return false;
    }
    let mut i: usize = 0;
    while i < n
        invariant
            i <= n,
            n == s@.len(),
            v@.len() == n,
            forall|j: int| 0 <= j < i ==> v@[j] == s@[j],
        decreases n - i,
    {
        if v[i] != s.get_char(i) {
            return false;
        }
        i = i + 1;
    }
    proof {
        assert(v@ =~= s@);
    }
    true
}

/// ASCII-lowercase every character of the vector.
pub fn ascii_lower(v: &Vec<char>) -> (r: Vec<char>)
    ensures
        r@ == lower_seq(v@),
{
    let mut r: Vec<char> = Vec::new();
    let mut i: usize = 0;
    while i < v.len()
        invariant
            i <= v.len(),
            r@.len() == i as int,
            forall|j: int| 0 <= j < i ==> r@[j] == lower_char(v@[j]),
        decreases v.len() - i,
    {
        let c = v[i];
        if 'A' <= c && c <= 'Z' {
            r.push(((c as u8) + 32) as char);
        } else {
            r.push(c);
        }
        i = i + 1;
    }
    proof {
        assert(r@ =~= lower_seq(v@));
    }
    r
}

/// Stripping every character of a leading block of whitespace one by one
/// reaches the suffix that `trim_front` names.
proof fn lemma_trim_front_skip(s: Seq<char>, k: int)
    requires
        0 <= k <= s.len(),
        forall|i: int| 0 <= i < k ==> is_ascii_space(s[i]),
        k == s.len() || !is_ascii_space(s[k]),
    ensures
        trim_front(s) == s.skip(k),
    decreases k,
{
    if k == 0 {
        assert(trim_front(s) =~= s.skip(0)) by {
            assert(s.skip(0) =~= s);
        }
    } else {
        assert(is_ascii_space(s[0]));
        lemma_trim_front_skip(s.drop_first(), k - 1);
        assert(s.drop_first().skip(k - 1) =~= s.skip(k));
    }
}

/// Stripping every character of a trailing block of whitespace one by one
/// reaches the prefix that `trim_back` names.
proof fn lemma_trim_back_take(s: Seq<char>, k: int)
    requires
        0 <= k <= s.len(),
        forall|i: int| k <= i < s.len() ==> is_ascii_space(s[i]),
        k == 0 || !is_ascii_space(s[k - 1]),
    ensures
        trim_back(s) == s.take(k),
    decreases s.len() - k,
{
    if k == s.len() {
        assert(trim_back(s) =~= s.take(k)) by {
            assert(s.take(k) =~= s);
        }
    } else {
        assert(is_ascii_space(s.last()));
        lemma_trim_back_take(s.drop_last(), k);
        assert(s.drop_last().take(k) =~= s.take(k));
    }
}

/// The vector with ASCII whitespace removed from both ends.
pub fn trim_chars(v: &Vec<char>) -> (r: Vec<char>)
    ensures
        r@ == trim_seq(v@),
{
    let n = v.len();
    let mut start: usize = 0;
    while start < n && is_space_exec(v[start])
        invariant
            start <= n,
            n == v@.len(),
            forall|i: int| 0 <= i < start ==> is_ascii_space(v@[i]),
        decreases n - start,
    {
        start = start + 1;
    }
    proof {
        lemma_trim_front_skip(v@, start as int);
    }
    let mut end: usize = n;
    while end > start && is_space_exec(v[end - 1])
        invariant
            start <= end <= n,
            n == v@.len(),
            trim_front(v@) == v@.skip(start as int),
            forall|i: int| end <= i < n ==> is_ascii_space(v@[i]),
        decreases end,
    {
        end = end - 1;
    }
    proof {
        if end == start {
            lemma_trim_back_take(v@.skip(start as int), 0);
        } else {
            lemma_trim_back_take(v@.skip(start as int), end - start as int);
        }
    }
    let mut r: Vec<char> = Vec::new();
    let mut i: usize = start;
    while i < end
        invariant
            start <= i <= end <= n,
            n == v@.len(),
            r@ =~= v@.subrange(start as int, i as int),
        decreases end - i,
    {
        r.push(v[i]);
        i = i + 1;
    }
    proof {
        assert(v@.skip(start as int).take(end - start as int) =~= v@.subrange(
            start as int,
            end as int,
        ));
        assert(r@ =~= v@.subrange(start as int, end as int));
    }
    r
}

/// A copy of the vector from position `from` on.
pub fn suffix_chars(v: &Vec<char>, from: usize) -> (r: Vec<char>)
    requires
        from <= v@.len(),
    ensures
        r@ == v@.skip(from as int),
{
    let mut r: Vec<char> = Vec::new();
    let mut i: usize = from;
    while i < v.len()
        invariant
            from <= i <= v@.len(),
            r@ == v@.subrange(from as int, i as int),
        decreases v@.len() - i,
    {
        r.push(v[i]);
        i = i + 1;
        proof {
            assert(r@ =~= v@.subrange(from as int, i as int));
        }
    }
    proof {
        assert(r@ =~= v@.skip(from as int));
    }
    r
}

/// Executable test for ASCII whitespace.
pub fn is_space_exec(c: char) -> (b: bool)
    ensures
        b == is_ascii_space(c),
{
    c == ' ' || c == '\t' || c == '\n' || c == '\r' || c == '\x0b' || c == '\x0c'
}

/// The value of a prefix of a digit sequence never exceeds the value of
/// the whole sequence.
proof fn lemma_digits_val_take_le(s: Seq<char>, k: int)
    requires
        0 <= k <= s.len(),
    ensures
        digits_val(s.take(k)) <= digits_val(s),
    decreases s.len() - k,
{
    if k == s.len() {
        assert(s.take(k) =~= s);
    } else {
        assert(s.take(k + 1).drop_last() =~= s.take(k));
        assert(digits_val(s.take(k + 1)) == digits_val(s.take(k)) * 10 + digit_val(s.take(
            k + 1,
        ).last()));
        lemma_digits_val_take_le(s, k + 1);
    }
}

/// Parse a digit body (no sign), `None` on a non-digit or on overflow.
fn parse_digits(v: &Vec<char>, from: usize) -> (r: Option<usize>)
    requires
        from <= v@.len(),
    ensures
        ({
            let body = v@.skip(from as int);
            r == (if body.len() > 0 && all_digits(body) && digits_val(body) <= usize::MAX {
                Some(digits_val(body) as usize)
            } else {
                None::<usize>
            })
        }),
{
    let ghost body = v@.skip(from as int);
    let n = v.len();
    if from == n {
        return None;
    }
    let mut acc: usize = 0;
    let mut i: usize = from;
    while i < n
        invariant
            from <= i <= n,
            n == v@.len(),
            body == v@.skip(from as int),
            forall|j: int| from <= j < i ==> is_digit(v@[j]),
            acc == digits_val(body.take(i - from as int)),
        decreases n - i,
    {
        let c = v[i];
        if !('0' <= c && c <= '9') {
            proof {
                assert(body[i - from as int] == v@[i as int]);
                assert(!is_digit(body[i - from as int]));
            }
            return None;
        }
        let d: usize = ((c as u8) - 48) as usize;
        proof {
            assert(body.take(i + 1 - from as int).drop_last() =~= body.take(i - from as int));
            assert(body.take(i + 1 - from as int).last() == v@[i as int]);
        }
        if acc > (usize::MAX - d) / 10 {
            proof {
                assert(digits_val(body.take(i + 1 - from as int)) == acc * 10 + d);
                assert(acc * 10 + d > usize::MAX) by (nonlinear_arith)
                    requires
                        acc > (usize::MAX - d) / 10,
                        d <= 9,
                ;
                lemma_digits_val_take_le(body, i + 1 - from as int);
            }
            return None;
        }
        acc = acc * 10 + d;
        i = i + 1;
    }
    proof {
        assert(body.take(n - from as int) =~= body);
    }
    Some(acc)
}

/// The position of the first occurrence of `c` in `s`.
pub open spec fn spec_ffind(s: Seq<char>, c: char) -> Option<int>
    decreases s.len(),
{
    if s.len() == 0 {
        None
    } else if s[0] == c {
        Some(0)
    } else {
        match spec_ffind(s.drop_first(), c) {
            Some(i) => Some(i + 1),
            None => None,
        }
    }
}

/// When nothing before position `i` matches, the first occurrence is the
/// first occurrence from `i` on.
proof fn lemma_ffind_skip(s: Seq<char>, c: char, i: int)
    requires
        0 <= i <= s.len(),
        forall|j: int| 0 <= j < i ==> s[j] != c,
    ensures
        spec_ffind(s, c) == match spec_ffind(s.skip(i), c) {
            Some(k) => Some(k + i),
            None => None::<int>,
        },
    decreases i,
{
    if i == 0 {
        assert(s.skip(0) =~= s);
    } else {
        assert(s[0] != c);
        assert(s.drop_first().skip(i - 1) =~= s.skip(i));
        lemma_ffind_skip(s.drop_first(), c, i - 1);
    }
}

/// A found occurrence is a real index holding `c`, and nothing before it
/// holds `c`.
proof fn lemma_ffind_bounds(s: Seq<char>, c: char)
    ensures
        spec_ffind(s, c) matches Some(i) ==> 0 <= i < s.len() && s[i] == c,
    decreases s.len(),
{
    if s.len() > 0 && s[0] != c {
        lemma_ffind_bounds(s.drop_first(), c);
    }
}

/// The position of the first occurrence of `c` in `v`.
pub fn ffind_exec(v: &Vec<char>, c: char) -> (r: Option<usize>)
    ensures
        match r {
            Some(i) => spec_ffind(v@, c) == Some(i as int),
            None => spec_ffind(v@, c) is None,
        },
{
    let n = v.len();
    let mut i: usize = 0;
    while i < n
        invariant
            i <= n,
            n == v@.len(),
            forall|j: int| 0 <= j < i ==> v@[j] != c,
        decreases n - i,
    {
        if v[i] == c {
            proof {
                lemma_ffind_skip(v@, c, i as int);
            }
            return Some(i);
        }
        i = i + 1;
    }
    proof {
        lemma_ffind_skip(v@, c, n as int);
        assert(v@.skip(n as int) =~= Seq::<char>::empty());
    }
    None
}

/// An epoch field read as a whole number of seconds: an optional sign,
/// digits, and an optional fraction after a dot.  The fraction is
/// discarded, a negative value reads as zero, a value too large for
/// `usize` saturates, and anything else (including an empty integer part)
/// reads as the `usize::MAX` sentinel.
pub open spec fn spec_parse_epoch(s: Seq<char>) -> usize {
    let neg = s.len() > 0 && s[0] == '-';
    let b = if s.len() > 0 && (s[0] == '+' || s[0] == '-') {
        s.drop_first()
    } else {
        s
    };
    let ip = match spec_ffind(b, '.') {
        Some(d) => b.take(d),
        None => b,
    };
    let fp = match spec_ffind(b, '.') {
        Some(d) => b.skip(d + 1),
        None => Seq::<char>::empty(),
    };
    if ip.len() == 0 || !all_digits(ip) || !all_digits(fp) {
        usize::MAX
    } else if neg {
        0
    } else if digits_val(ip) > usize::MAX {
        usize::MAX
    } else {
        digits_val(ip) as usize
    }
}

/// Check that positions `[from, to)` of `v` all hold digits.
fn digits_between(v: &Vec<char>, from: usize, to: usize) -> (b: bool)
    requires
        from <= to <= v@.len(),
    ensures
        b == all_digits(v@.subrange(from as int, to as int)),
{
    let mut i: usize = from;
    while i < to
        invariant
            from <= i <= to <= v@.len(),
            forall|j: int| from <= j < i ==> is_digit(v@[j]),
        decreases to - i,
    {
        let c = v[i];
        if !('0' <= c && c <= '9') {
            proof {
                assert(v@.subrange(from as int, to as int)[i - from as int] == v@[i as int]);
            }
            return false;
        }
        i = i + 1;
    }
    proof {
        assert forall|j: int| 0 <= j < to - from implies is_digit(
            #[trigger] v@.subrange(from as int, to as int)[j],
        ) by {
            assert(v@.subrange(from as int, to as int)[j] == v@[from + j]);
        }
    }
    true
}

/// The saturated value of the digits at positions `[from, to)` of `v`.
fn digits_value_sat(v: &Vec<char>, from: usize, to: usize) -> (r: usize)
    requires
        from <= to <= v@.len(),
        all_digits(v@.subrange(from as int, to as int)),
    ensures
        r == (if digits_val(v@.subrange(from as int, to as int)) > usize::MAX {
            usize::MAX
        } else {
            digits_val(v@.subrange(from as int, to as int)) as usize
        }),
{
    let ghost body = v@.subrange(from as int, to as int);
    let mut acc: usize = 0;
    let mut i: usize = from;
    while i < to
        invariant
            from <= i <= to <= v@.len(),
            body == v@.subrange(from as int, to as int),
            all_digits(body),
            acc == digits_val(body.take(i - from as int)),
        decreases to - i,
    {
        let c = v[i];
        proof {
            assert(body[i - from as int] == v@[i as int]);
            assert(is_digit(v@[i as int]));
            assert(body.take(i + 1 - from as int).drop_last() =~= body.take(i - from as int));
            assert(body.take(i + 1 - from as int).last() == v@[i as int]);
        }
        let d: usize = ((c as u8) - 48) as usize;
        if acc > (usize::MAX - d) / 10 {
            proof {
                assert(digits_val(body.take(i + 1 - from as int)) == acc * 10 + d);
                assert(acc * 10 + d > usize::MAX) by (nonlinear_arith)
                    requires
                        acc > (usize::MAX - d) / 10,
                        d <= 9,
                ;
                lemma_digits_val_take_le(body, i + 1 - from as int);
            }
            return usize::MAX;
        }
        acc = acc * 10 + d;
        i = i + 1;
    }
    proof {
        assert(body.take(to - from as int) =~= body);
    }
    acc
}

/// The epoch value spelled by this text, as `spec_parse_epoch` defines it.
pub fn parse_epoch_chars(v: &Vec<char>) -> (r: usize)
    ensures
        r == spec_parse_epoch(v@),
{
    let n = v.len();
    let mut start: usize = 0;
    let mut neg = false;
    if n > 0 && (v[0] == '+' || v[0] == '-') {
        neg = v[0] == '-';
        start = 1;
    }
    let ghost b = if v@.len() > 0 && (v@[0] == '+' || v@[0] == '-') {
        v@.drop_first()
    } else {
        v@
    };
    proof {
        assert(b =~= v@.skip(start as int));
    }
    let dot = match ffind_from(v, '.', start) {
        Some(d) => d,
        None => n,
    };
    proof {
        if dot < n {
            assert(b.take(dot - start as int) =~= v@.subrange(start as int, dot as int));
            assert(b.skip(dot + 1 - start as int) =~= v@.subrange(dot + 1, n as int));
        } else {
            assert(b =~= v@.subrange(start as int, n as int));
            assert(b.take(b.len() as int) =~= b);
        }
    }
    if dot == start {
        return usize::MAX;
    }
    if !digits_between(v, start, dot) {
        return usize::MAX;
    }
    if dot < n {
        if !digits_between(v, dot + 1, n) {
            return usize::MAX;
        }
    } else {
        proof {
            assert(all_digits(Seq::<char>::empty()));
        }
    }
    if neg {
        return 0;
    }
    digits_value_sat(v, start, dot)
}

/// The position of the first occurrence of `c` in `v` at or after `from`,
/// reported relative to the whole vector.
fn ffind_from(v: &Vec<char>, c: char, from: usize) -> (r: Option<usize>)
    requires
        from <= v@.len(),
    ensures
        match r {
            Some(i) => from <= i < v@.len() && spec_ffind(v@.skip(from as int), c) == Some(
                i - from as int,
            ),
            None => spec_ffind(v@.skip(from as int), c) is None,
        },
{
    let n = v.len();
    let mut i: usize = from;
    while i < n
        invariant
            from <= i <= n,
            n == v@.len(),
            forall|j: int| from <= j < i ==> v@[j] != c,
        decreases n - i,
    {
        if v[i] == c {
            proof {
                assert forall|j: int| 0 <= j < i - from implies v@.skip(from as int)[j] != c by {
                    assert(v@.skip(from as int)[j] == v@[from + j]);
                }
                lemma_ffind_skip(v@.skip(from as int), c, i - from as int);
                assert(v@.skip(from as int).skip(i - from as int) =~= v@.skip(i as int));
                assert(v@.skip(i as int)[0] == v@[i as int]);
            }
            return Some(i);
        }
        i = i + 1;
    }
    proof {
        assert forall|j: int| 0 <= j < n - from implies v@.skip(from as int)[j] != c by {
            assert(v@.skip(from as int)[j] == v@[from + j]);
        }
        lemma_ffind_skip(v@.skip(from as int), c, n - from as int);
        assert(v@.skip(from as int).skip(n - from as int) =~= Seq::<char>::empty());
    }
    None
}

/// What `str::parse::<usize>` returns on this text, reproduced exactly:
/// an optional leading `+`, then decimal digits, rejected on any other
/// character and on overflow.
pub fn parse_usize_chars(v: &Vec<char>) -> (r: Option<usize>)
    ensures
        r == spec_parse_usize(v@),
{
    if v.len() > 0 && v[0] == '+' {
        let r = parse_digits(v, 1);
        proof {
            assert(v@.skip(1) =~= v@.drop_first());
        }
        r
    } else {
        let r = parse_digits(v, 0);
        proof {
            assert(v@.skip(0) =~= v@);
        }
        r
    }
}

} // verus!
