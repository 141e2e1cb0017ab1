//! Run configuration: the option values the binary hands in, and the
//! parsers that turn option text into them.
//!
//! Reading the process arguments, printing, and exiting stay in the
//! unverified binary; everything here is plain text-to-value logic.

use vstd::prelude::*;
use vstd::std_specs::cmp::PartialEqSpec;
use vstd::string::{StrSliceExecFns, StringExecFns};
use crate::strutil::{
    ascii_lower, chars_eq_str, chars_of, lower_seq, parse_usize_chars, spec_parse_usize, trim_chars,
    trim_seq,
};

verus! {

/// The full configuration of one run.
#[derive(Debug, Clone)]
pub struct CLI {
    pub url: String,
    pub base_url: String,
    pub save_to_file: bool,
    pub save_path: String,
    pub max_comments: usize,
    pub sort_style: ElementSort,
    pub filter: ElementFilter,
    pub save_tmp_files: bool,
    pub verbosity: Verbosity,
    pub req_more_elements: bool,
    pub delete_tmp: bool,
}

/// How much progress and debug chatter the run emits.
#[derive(Eq, PartialEq, Debug, Clone, Copy, Default, Structural)]
pub enum Verbosity {
    High,
    Moderate,
    #[default]
    Low,
}

/// The sort key and direction for the finished forest; the `bool` is
/// `true` for ascending order.
#[derive(Eq, PartialEq, Debug, Clone, Copy, Structural)]
pub enum ElementSort {
    Default,
    Rand,
    Upvotes(bool),
    Comments(bool),
    Date(bool),
    EditedDate(bool),
}

/// One comparison of a filter: against a string or against a number.
#[derive(Debug, Clone)]
pub enum ElementFilterOp {
    EqString(String),
    NotEqString(String),
    Eq(usize),
    NotEq(usize),
    Grater(usize),
    GraterEq(usize),
    Less(usize),
    LessEq(usize),
}

/// Which node attribute a filter inspects.
#[derive(Debug, Clone)]
pub enum ElementFilter {
    Default,
    Upvotes(ElementFilterOp),
    Comments(ElementFilterOp),
    Author(ElementFilterOp),
    Edited(bool),
}

/// The mathematical value of a filter comparison: text as a character
/// sequence, numbers as themselves.
pub enum FilterOpModel {
    EqString(Seq<char>),
    NotEqString(Seq<char>),
    Eq(usize),
    NotEq(usize),
    Grater(usize),
    GraterEq(usize),
    Less(usize),
    LessEq(usize),
}

/// The mathematical value of a filter.
pub enum FilterModel {
    Default,
    Upvotes(FilterOpModel),
    Comments(FilterOpModel),
    Author(FilterOpModel),
    Edited(bool),
}

impl ElementFilterOp {
    /// The value this comparison denotes.
    pub open spec fn model(self) -> FilterOpModel {
        match self {
            ElementFilterOp::EqString(s) => FilterOpModel::EqString(s@),
            ElementFilterOp::NotEqString(s) => FilterOpModel::NotEqString(s@),
            ElementFilterOp::Eq(n) => FilterOpModel::Eq(n),
            ElementFilterOp::NotEq(n) => FilterOpModel::NotEq(n),
            ElementFilterOp::Grater(n) => FilterOpModel::Grater(n),
            ElementFilterOp::GraterEq(n) => FilterOpModel::GraterEq(n),
            ElementFilterOp::Less(n) => FilterOpModel::Less(n),
            ElementFilterOp::LessEq(n) => FilterOpModel::LessEq(n),
        }
    }
}

impl ElementFilter {
    /// The value this filter denotes.
    pub open spec fn model(self) -> FilterModel {
        match self {
            ElementFilter::Default => FilterModel::Default,
            ElementFilter::Upvotes(o) => FilterModel::Upvotes(o.model()),
            ElementFilter::Comments(o) => FilterModel::Comments(o.model()),
            ElementFilter::Author(o) => FilterModel::Author(o.model()),
            ElementFilter::Edited(b) => FilterModel::Edited(b),
        }
    }
}

impl PartialEq for ElementFilterOp {
    fn eq(&self, other: &Self) -> (r: bool) {
        match (self, other) {
            (ElementFilterOp::EqString(a), ElementFilterOp::EqString(b)) => *a == *b,
            (ElementFilterOp::NotEqString(a), ElementFilterOp::NotEqString(b)) => *a == *b,
            (ElementFilterOp::Eq(a), ElementFilterOp::Eq(b)) => *a == *b,
            (ElementFilterOp::NotEq(a), ElementFilterOp::NotEq(b)) => *a == *b,
            (ElementFilterOp::Grater(a), ElementFilterOp::Grater(b)) => *a == *b,
            (ElementFilterOp::GraterEq(a), ElementFilterOp::GraterEq(b)) => *a == *b,
            (ElementFilterOp::Less(a), ElementFilterOp::Less(b)) => *a == *b,
            (ElementFilterOp::LessEq(a), ElementFilterOp::LessEq(b)) => *a == *b,
            _ => false,
        }
    }
}

impl vstd::std_specs::cmp::PartialEqSpecImpl for ElementFilterOp {
    open spec fn obeys_eq_spec() -> bool {
        true
    }

    open spec fn eq_spec(&self, other: &ElementFilterOp) -> bool {
        self.model() == other.model()
    }
}

impl PartialEq for ElementFilter {
    fn eq(&self, other: &Self) -> (r: bool) {
        match (self, other) {
            (ElementFilter::Default, ElementFilter::Default) => true,
            (ElementFilter::Upvotes(a), ElementFilter::Upvotes(b)) => *a == *b,
            (ElementFilter::Comments(a), ElementFilter::Comments(b)) => *a == *b,
            (ElementFilter::Author(a), ElementFilter::Author(b)) => *a == *b,
            (ElementFilter::Edited(a), ElementFilter::Edited(b)) => *a == *b,
            _ => false,
        }
    }
}

impl vstd::std_specs::cmp::PartialEqSpecImpl for ElementFilter {
    open spec fn obeys_eq_spec() -> bool {
        true
    }

    open spec fn eq_spec(&self, other: &ElementFilter) -> bool {
        self.model() == other.model()
    }
}

/// The sort choice a piece of option text denotes: lowercased and
/// trimmed, it must spell one of the known keywords; anything else means
/// the default order.
pub open spec fn spec_parse_sort_style(s: Seq<char>) -> ElementSort {
    let t = trim_seq(lower_seq(s));
    if t == "default"@ {
        ElementSort::Default
    } else if t == "rand"@ || t == "random"@ {
        ElementSort::Rand
    } else if t == "upvotes"@ || t == "ups"@ {
        ElementSort::Upvotes(false)
    } else if t == "upvotes-asc"@ || t == "ups-asc"@ {
        ElementSort::Upvotes(true)
    } else if t == "comments"@ {
        ElementSort::Comments(false)
    } else if t == "comments-asc"@ {
        ElementSort::Comments(true)
    } else if t == "new"@ {
        ElementSort::Date(false)
    } else if t == "old"@ {
        ElementSort::Date(true)
    } else if t == "edited"@ {
        ElementSort::EditedDate(false)
    } else if t == "edited-asc"@ {
        ElementSort::EditedDate(true)
    } else {
        ElementSort::Default
    }
}

/// The format choice a piece of option text denotes, with the default
/// output path that goes with it; `None` for unrecognized text.
pub open spec fn spec_parse_format(s: Seq<char>) -> Option<(crate::element::Format, Seq<char>)> {
    let t = trim_seq(lower_seq(s));
    if t == "default"@ || t == "d"@ {
        Some((crate::element::Format::Default, "output.txt"@))
    } else if t == "html"@ || t == "h"@ {
        Some((crate::element::Format::HTML, "output.html"@))
    } else if t == "json"@ || t == "j"@ {
        Some((crate::element::Format::JSON, "output.json"@))
    } else {
        None
    }
}

/// The filter a `--filter` argument triple denotes, over character
/// sequences: mirrors `parse_filter_style` exactly, including which
/// missing part is reported first and which malformed parts fall back to
/// no filtering.
pub open spec fn spec_parse_filter_style(
    f: Seq<char>,
    operator: Option<Seq<char>>,
    value: Option<Seq<char>>,
) -> Result<(u32, FilterModel), Seq<char>> {
    let t = trim_seq(lower_seq(f));
    if t == "ups"@ || t == "upvotes"@ {
        if value is None {
            Err("Failed to get filter style value"@)
        } else if operator is None {
            Err("Failed to get filter style operator"@)
        } else {
            Ok((2, spec_numeric_filter(true, operator->0, value->0)))
        }
    } else if t == "comments"@ {
        if value is None {
            Err("Failed to get filter style value"@)
        } else if operator is None {
            Err("Failed to get filter style operator"@)
        } else {
            Ok((2, spec_numeric_filter(false, operator->0, value->0)))
        }
    } else if t == "edited"@ {
        if operator is None {
            Err("Failed to get filter style operator"@)
        } else {
            Ok(
                (
                    0,
                    FilterModel::Edited(
                        trim_seq(lower_seq(operator->0)) != "false"@,
                    ),
                ),
            )
        }
    } else if t == "author"@ {
        if value is None {
            Err("Failed to get filter style value"@)
        } else if operator is None {
            Err("Failed to get filter style operator"@)
        } else {
            let op = trim_seq(lower_seq(operator->0));
            if op == "=="@ {
                Ok((0, FilterModel::Author(FilterOpModel::EqString(value->0))))
            } else if op == "!="@ {
                Ok((0, FilterModel::Author(FilterOpModel::NotEqString(value->0))))
            } else {
                Ok((0, FilterModel::Default))
            }
        }
    } else {
        Ok((0, FilterModel::Default))
    }
}

/// A numeric comparison filter on upvotes (`ups` true) or on reply count:
/// an unknown operator or an unparsable number falls back to no
/// filtering.
pub open spec fn spec_numeric_filter(
    ups: bool,
    operator: Seq<char>,
    value: Seq<char>,
) -> FilterModel {
    let num = spec_parse_usize(value);
    let op = if operator == ">"@ && num is Some {
        Some(FilterOpModel::Grater(num->0))
    } else if operator == ">="@ && num is Some {
        Some(FilterOpModel::GraterEq(num->0))
    } else if operator == "=="@ && num is Some {
        Some(FilterOpModel::Eq(num->0))
    } else if operator == "!="@ && num is Some {
        Some(FilterOpModel::NotEq(num->0))
    } else if operator == "<"@ && num is Some {
        Some(FilterOpModel::Less(num->0))
    } else if operator == "<="@ && num is Some {
        Some(FilterOpModel::LessEq(num->0))
    } else {
        None
    };
    match op {
        Some(o) => if ups {
            FilterModel::Upvotes(o)
        } else {
            FilterModel::Comments(o)
        },
        None => FilterModel::Default,
    }
}

/// `pat` occurs as a contiguous block somewhere in `s`.
pub open spec fn contains_sub(s: Seq<char>, pat: Seq<char>) -> bool {
    exists|i: int| 0 <= i && i + pat.len() <= s.len() && #[trigger] s.subrange(i, i + pat.len())
        == pat
}

/// The characters dropped outright from a candidate address: quotes,
/// spaces and newlines anywhere in the text.
pub open spec fn url_keep(c: char) -> bool {
    c != '\'' && c != ' ' && c != '\n'
}

/// The sequence without quotes, spaces and newlines.
pub open spec fn strip_url_chars(s: Seq<char>) -> Seq<char>
    decreases s.len(),
{
    if s.len() == 0 {
        Seq::empty()
    } else if url_keep(s.last()) {
        strip_url_chars(s.drop_last()).push(s.last())
    } else {
        strip_url_chars(s.drop_last())
    }
}

/// The position of the last occurrence of `c` in `s`.
pub open spec fn spec_rfind(s: Seq<char>, c: char) -> Option<int>
    decreases s.len(),
{
    if s.len() == 0 {
        None
    } else if s.last() == c {
        Some(s.len() - 1)
    } else {
        spec_rfind(s.drop_last(), c)
    }
}

/// How often `c` occurs in `s`.
pub open spec fn count_char(s: Seq<char>, c: char) -> nat
    decreases s.len(),
{
    if s.len() == 0 {
        0
    } else {
        count_char(s.drop_last(), c) + (if s.last() == c {
            1nat
        } else {
            0nat
        })
    }
}

/// The address up to a trailing `?query` part, if one is there.
pub open spec fn cut_query(s: Seq<char>) -> Seq<char> {
    match spec_rfind(s, '?') {
        Some(i) => s.take(i),
        None => s,
    }
}

/// The address with the `https://` scheme put in front unless it already
/// starts with it.
pub open spec fn with_scheme(s: Seq<char>) -> Seq<char> {
    if s.len() >= 8 && s.take(8) == "https://"@ {
        s
    } else {
        "https://"@ + s
    }
}

/// The address up to a `:port` part: everything from the last colon after
/// the scheme on is dropped.
pub open spec fn cut_port(s: Seq<char>) -> Seq<char> {
    match spec_rfind(s.skip(7), ':') {
        Some(i) => s.take(i + 7),
        None => s,
    }
}

/// Whether the last path component of the address carries a `json`
/// extension, compared without regard to ASCII case.  A component that is
/// nothing but `.json` has no extension at all, as paths are read.
pub open spec fn ext_is_json(s: Seq<char>) -> bool {
    match spec_rfind(s, '/') {
        Some(k) => match spec_rfind(s, '.') {
            Some(d) => d > k + 1 && lower_seq(s.skip(d + 1)) == "json"@,
            None => false,
        },
        None => false,
    }
}

/// The cleaned address before the validity check on its shape: stray
/// characters out, whitespace trimmed, query and port cut, scheme added.
pub open spec fn url_cleaned(s: Seq<char>) -> Seq<char> {
    cut_port(with_scheme(cut_query(trim_seq(strip_url_chars(s)))))
}

/// What `parse_url` returns: `None` for text this tool does not accept
/// (no `reddit.com/r/` part, or too few slashes once cleaned), else the
/// fetch address with `.json` appended and the base address ending in a
/// slash.
pub open spec fn spec_parse_url(s: Seq<char>) -> Option<(Seq<char>, Seq<char>)> {
    if !contains_sub(s, "reddit.com/r/"@) {
        None
    } else {
        let u = url_cleaned(s);
        if count_char(u, '/') < 3 {
            None
        } else {
            let (u1, base) = if u.len() > 0 && u.last() == '/' {
                (u.drop_last(), u)
            } else {
                (u, u.push('/'))
            };
            let u2 = if ext_is_json(u1) {
                u1
            } else {
                u1 + ".json"@
            };
            Some((u2, base))
        }
    }
}

/// A found occurrence index is a real index of the sequence.
proof fn lemma_rfind_bounds(s: Seq<char>, c: char)
    ensures
        spec_rfind(s, c) matches Some(i) ==> 0 <= i < s.len() && s[i] == c,
    decreases s.len(),
{
    if s.len() > 0 && s.last() != c {
        lemma_rfind_bounds(s.drop_last(), c);
    }
}

/// When nothing at or beyond position `i` matches, the last occurrence
/// lies in the prefix.
proof fn lemma_rfind_take(s: Seq<char>, c: char, i: int)
    requires
        0 <= i <= s.len(),
        forall|j: int| i <= j < s.len() ==> s[j] != c,
    ensures
        spec_rfind(s, c) == spec_rfind(s.take(i), c),
    decreases s.len(),
{
    if i == s.len() {
        assert(s.take(i) =~= s);
    } else {
        assert(s.last() != c);
        assert(s.drop_last().take(i) =~= s.take(i));
        lemma_rfind_take(s.drop_last(), c, i);
    }
}

/// Whether `pat` stands at position `i` of `s`.
fn match_at(s: &Vec<char>, pat: &str, i: usize) -> (b: bool)
    requires
        i + pat@.len() <= s@.len(),
    ensures
        b == (s@.subrange(i as int, i + pat@.len()) == pat@),
{
    let m = pat.unicode_len();
    let n = s.len();
    let mut j: usize = 0;
    while j < m
        invariant
            j <= m,
            m == pat@.len(),
            n == s@.len(),
            i + m <= n,
            forall|x: int| 0 <= x < j ==> s@[i + x] == pat@[x],
        decreases m - j,
    {
        if s[i + j] != pat.get_char(j) {
            proof {
                assert(s@.subrange(i as int, i + pat@.len())[j as int] != pat@[j as int]);
            }
            return false;
        }
        j = j + 1;
    }
    proof {
        assert(s@.subrange(i as int, i + pat@.len()) =~= pat@);
    }
    true
}

/// Search for `pat` anywhere in `s`.
fn contains_sub_exec(s: &Vec<char>, pat: &str) -> (b: bool)
    ensures
        b == contains_sub(s@, pat@),
{
    let m = pat.unicode_len();
    if m > s.len() {
        return false;
    }
    if m == 0 {
        proof {
            assert(contains_sub(s@, pat@)) by {
                assert(s@.subrange(0, 0 + pat@.len() as int) =~= pat@);
            }
        }
        return true;
    }
    let n = s.len();
    let bound = n - m;
    let mut i: usize = 0;
    while i <= bound
        invariant
            i <= bound + 1,
            n == s@.len(),
            bound == s@.len() - m,
            1 <= m == pat@.len(),
            forall|x: int| 0 <= x < i ==> #[trigger] s@.subrange(x, x + pat@.len()) != pat@,
        decreases bound + 1 - i,
    {
        if match_at(s, pat, i) {
            return true;
        }
        i = i + 1;
    }
    false
}

/// The vector without quotes, spaces and newlines.
fn strip_url_exec(v: &Vec<char>) -> (r: Vec<char>)
    ensures
        r@ == strip_url_chars(v@),
{
    let mut r: Vec<char> = Vec::new();
    let mut i: usize = 0;
    while i < v.len()
        invariant
            i <= v@.len(),
            r@ == strip_url_chars(v@.take(i as int)),
        decreases v@.len() - i,
    {
        let c = v[i];
        proof {
            assert(v@.take(i + 1).drop_last() =~= v@.take(i as int));
            assert(v@.take(i + 1).last() == v@[i as int]);
        }
        if !(c == '\'' || c == ' ' || c == '\n') {
            r.push(c);
        }
        i = i + 1;
    }
    proof {
        assert(v@.take(v@.len() as int) =~= v@);
    }
    r
}

/// The position of the last occurrence of `c` in `v`.
fn rfind_exec(v: &Vec<char>, c: char) -> (r: Option<usize>)
    ensures
        match r {
            Some(i) => spec_rfind(v@, c) == Some(i as int),
            None => spec_rfind(v@, c) is None,
        },
{
    let mut i: usize = v.len();
    while i > 0
        invariant
            i <= v@.len(),
            forall|j: int| i <= j < v@.len() ==> v@[j] != c,
        decreases i,
    {
        if v[i - 1] == c {
            proof {
                lemma_rfind_take(v@, c, i as int);
                assert(v@.take(i as int).last() == v@[i - 1]);
            }
            return Some(i - 1);
        }
        i = i - 1;
    }
    proof {
        lemma_rfind_take(v@, c, 0);
        assert(v@.take(0) =~= Seq::<char>::empty());
    }
    None
}

/// How often `c` occurs in `v`.
fn count_char_exec(v: &Vec<char>, c: char) -> (r: usize)
    ensures
        r == count_char(v@, c),
{
    let mut cnt: usize = 0;
    let mut i: usize = 0;
    while i < v.len()
        invariant
            i <= v@.len(),
            cnt == count_char(v@.take(i as int), c),
            cnt <= i,
        decreases v@.len() - i,
    {
        proof {
            assert(v@.take(i + 1).drop_last() =~= v@.take(i as int));
            assert(v@.take(i + 1).last() == v@[i as int]);
        }
        if v[i] == c {
            cnt = cnt + 1;
        }
        i = i + 1;
    }
    proof {
        assert(v@.take(v@.len() as int) =~= v@);
    }
    cnt
}

/// A copy of the vector from position `from` on.
fn suffix_of(v: &Vec<char>, from: usize) -> (r: Vec<char>)
    requires
        from <= v@.len(),
    ensures
        r@ == v@.skip(from as int),
{
    let mut r: Vec<char> = Vec::new();
    let mut i: usize = from;
    while i < v.len()
        invariant
            from <= i <= v@.len(),
            r@ == v@.subrange(from as int, i as int),
        decreases v@.len() - i,
    {
        r.push(v[i]);
        i = i + 1;
        proof {
            assert(r@ =~= v@.subrange(from as int, i as int));
        }
    }
    proof {
        assert(r@ =~= v@.skip(from as int));
    }
    r
}

/// Clean a candidate address: stray characters out, whitespace trimmed,
/// query and port cut, scheme put in front.
fn clean_url(raw: &Vec<char>) -> (u: Vec<char>)
    ensures
        u@ == url_cleaned(raw@),
{
    proof {
        reveal_strlit("https://");
    }
    let mut u = trim_chars(&strip_url_exec(raw));
    match rfind_exec(&u, '?') {
        Some(i) => {
            proof {
                lemma_rfind_bounds(u@, '?');
            }
            u.truncate(i);
        },
        None => {},
    }
    let ghost after_query = u@;
    if !(u.len() >= 8 && match_at(&u, "https://", 0)) {
        proof {
            if u@.len() >= 8 {
                assert(u@.take(8) =~= u@.subrange(0, 8));
            }
        }
        let mut nu = chars_of("https://");
        nu.append(&mut u);
        u = nu;
        proof {
            assert(u@ == "https://"@ + after_query);
        }
    } else {
        proof {
            assert(u@.take(8) =~= u@.subrange(0, 8));
        }
    }
    let ghost with_scheme_u = u@;
    proof {
        assert(with_scheme_u == with_scheme(after_query));
        assert(with_scheme_u.len() >= 8);
    }
    let tail = suffix_of(&u, 7);
    match rfind_exec(&tail, ':') {
        Some(i) => {
            let un = u.len();
            proof {
                lemma_rfind_bounds(tail@, ':');
                assert(i + 7 < un);
            }
            u.truncate(i + 7);
        },
        None => {},
    }
    proof {
        assert(u@ == cut_port(with_scheme_u));
    }
    u
}

/// Split a cleaned address into the fetch address (no trailing slash) and
/// the base address (with one).
fn split_base(u: Vec<char>) -> (r: (Vec<char>, Vec<char>))
    ensures
        ({
            let (u1, base) = if u@.len() > 0 && u@.last() == '/' {
                (u@.drop_last(), u@)
            } else {
                (u@, u@.push('/'))
            };
            r.0@ == u1 && r.1@ == base
        }),
{
    let mut u = u;
    let mut base = suffix_of(&u, 0);
    proof {
        assert(base@ =~= u@);
    }
    let ghost cleaned = u@;
    if u.len() > 0 && u[u.len() - 1] == '/' {
        proof {
            assert(cleaned.last() == '/');
        }
        u.pop();
        proof {
            assert(u@ =~= cleaned.drop_last());
        }
    } else {
        base.push('/');
        proof {
            assert(base@ =~= cleaned.push('/'));
        }
    }
    (u, base)
}

/// Append `.json` unless the last path component already carries a `json`
/// extension.
fn ensure_json_ext(u: Vec<char>) -> (r: Vec<char>)
    ensures
        r@ == (if ext_is_json(u@) {
            u@
        } else {
            u@ + ".json"@
        }),
{
    let mut u = u;
    let is_json = match (rfind_exec(&u, '/'), rfind_exec(&u, '.')) {
        (Some(k), Some(d)) => {
            let un = u.len();
            proof {
                lemma_rfind_bounds(u@, '/');
                lemma_rfind_bounds(u@, '.');
                assert(k < un && d < un);
            }
            if d > k + 1 {
                let ext = ascii_lower(&suffix_of(&u, d + 1));
                chars_eq_str(&ext, "json")
            } else {
                false
            }
        },
        _ => false,
    };
    if !is_json {
        let ghost before = u@;
        u.push('.');
        u.push('j');
        u.push('s');
        u.push('o');
        u.push('n');
        proof {
            assert(u@ =~= before + ".json"@) by {
                reveal_strlit(".json");
            }
        }
    }
    u
}

impl CLI {

    /// The line to print at high verbosity, if any: `Some` exactly when
    /// this run is verbose enough.  The binary does the styling and the
    /// printing.
    pub fn print_info(&self, info: String) -> (r: Option<String>)
        ensures
            r == (if self.verbosity == Verbosity::High {
                Some(info)
            } else {
                None::<String>
            }),
    {
        if self.verbosity == Verbosity::High {
            Some(info)
        } else {
            None
        }
    }

    /// The line to print at moderate or high verbosity, if any.
    pub fn print_infom(&self, info: String) -> (r: Option<String>)
        ensures
            r == (if self.verbosity == Verbosity::High || self.verbosity == Verbosity::Moderate {
                Some(info)
            } else {
                None::<String>
            }),
    {
        if self.verbosity == Verbosity::High || self.verbosity == Verbosity::Moderate {
            Some(info)
        } else {
            None
        }
    }

    /// The line to print whatever the verbosity: always emitted.
    pub fn print_infol(info: String) -> (r: String)
        ensures
            r == info,
    {
        info
    }

    /// The sort order named by the option text; unknown text falls back
    /// to the default order.
    pub fn parse_sort_style(sort_style_: &str) -> (r: ElementSort)
        ensures
            r == spec_parse_sort_style(sort_style_@),
    {
        let t = trim_chars(&ascii_lower(&chars_of(sort_style_)));
        if chars_eq_str(&t, "default") {
            ElementSort::Default
        } else if chars_eq_str(&t, "rand") || chars_eq_str(&t, "random") {
            ElementSort::Rand
        } else if chars_eq_str(&t, "upvotes") || chars_eq_str(&t, "ups") {
            ElementSort::Upvotes(false)
        } else if chars_eq_str(&t, "upvotes-asc") || chars_eq_str(&t, "ups-asc") {
            ElementSort::Upvotes(true)
        } else if chars_eq_str(&t, "comments") {
            ElementSort::Comments(false)
        } else if chars_eq_str(&t, "comments-asc") {
            ElementSort::Comments(true)
        } else if chars_eq_str(&t, "new") {
            ElementSort::Date(false)
        } else if chars_eq_str(&t, "old") {
            ElementSort::Date(true)
        } else if chars_eq_str(&t, "edited") {
            ElementSort::EditedDate(false)
        } else if chars_eq_str(&t, "edited-asc") {
            ElementSort::EditedDate(true)
        } else {
            ElementSort::Default
        }
    }

    /// The output format named by the option text, together with the
    /// default output path for that format; `None` for unrecognized text.
    pub fn parse_format(format: &str) -> (r: Option<(crate::element::Format, String)>)
        ensures
            (r is Some) == (spec_parse_format(format@) is Some),
            r matches Some(q) ==> spec_parse_format(format@) matches Some(p) && q.0 == p.0
                && q.1@ == p.1,
    {
        let t = trim_chars(&ascii_lower(&chars_of(format)));
        if chars_eq_str(&t, "default") || chars_eq_str(&t, "d") {
            Some((crate::element::Format::Default, String::from_str("output.txt")))
        } else if chars_eq_str(&t, "html") || chars_eq_str(&t, "h") {
            Some((crate::element::Format::HTML, String::from_str("output.html")))
        } else if chars_eq_str(&t, "json") || chars_eq_str(&t, "j") {
            Some((crate::element::Format::JSON, String::from_str("output.json")))
        } else {
            None
        }
    }

    /// The filter named by a `--filter` argument triple, with how many
    /// extra arguments it consumed; `Err` names the part that was
    /// missing.
    pub fn parse_filter_style(
        filter_: &String,
        operator: Option<&String>,
        value: Option<&String>,
    ) -> (r: Result<(u32, ElementFilter), String>)
        ensures
            ({
                let s = spec_parse_filter_style(
                    filter_@,
                    match operator {
                        Some(o) => Some(o@),
                        None => None,
                    },
                    match value {
                        Some(v) => Some(v@),
                        None => None,
                    },
                );
                match r {
                    Ok((k, fl)) => s matches Ok(p) && p.0 == k && fl.model() == p.1,
                    Err(e) => s matches Err(m) && e@ == m,
                }
            }),
    {
        let t = trim_chars(&ascii_lower(&chars_of(filter_.as_str())));
        if chars_eq_str(&t, "ups") || chars_eq_str(&t, "upvotes") {
            if value.is_none() {
                return Err(String::from_str("Failed to get filter style value"));
            }
            if operator.is_none() {
                return Err(String::from_str("Failed to get filter style operator"));
            }
            let op = operator.unwrap();
            let val = value.unwrap();
            Ok((2, Self::numeric_filter(true, op, val)))
        } else if chars_eq_str(&t, "comments") {
            if value.is_none() {
                return Err(String::from_str("Failed to get filter style value"));
            }
            if operator.is_none() {
                return Err(String::from_str("Failed to get filter style operator"));
            }
            let op = operator.unwrap();
            let val = value.unwrap();
            Ok((2, Self::numeric_filter(false, op, val)))
        } else if chars_eq_str(&t, "edited") {
            if operator.is_none() {
                return Err(String::from_str("Failed to get filter style operator"));
            }
            let op = trim_chars(&ascii_lower(&chars_of(operator.unwrap().as_str())));
            if chars_eq_str(&op, "false") {
                Ok((0, ElementFilter::Edited(false)))
            } else {
                Ok((0, ElementFilter::Edited(true)))
            }
        } else if chars_eq_str(&t, "author") {
            if value.is_none() {
                return Err(String::from_str("Failed to get filter style value"));
            }
            if operator.is_none() {
                return Err(String::from_str("Failed to get filter style operator"));
            }
            let op = trim_chars(&ascii_lower(&chars_of(operator.unwrap().as_str())));
            let val = value.unwrap();
            if chars_eq_str(&op, "==") {
                Ok((0, ElementFilter::Author(ElementFilterOp::EqString(val.clone()))))
            } else if chars_eq_str(&op, "!=") {
                Ok((0, ElementFilter::Author(ElementFilterOp::NotEqString(val.clone()))))
            } else {
                Ok((0, ElementFilter::Default))
            }
        } else {
            Ok((0, ElementFilter::Default))
        }
    }

    /// Normalize a discussion address: `None` for text this tool does not
    /// accept, else the fetch address (ending in `.json`) and the base
    /// address (ending in `/`) that continuation ids are appended to.
    pub fn parse_url(url: String) -> (r: Option<(String, String)>)
        ensures
            match spec_parse_url(url@) {
                None => r is None,
                Some(p) => r matches Some(q) && q.0@ == p.0 && q.1@ == p.1,
            },
    {
        let raw = chars_of(url.as_str());
        if !contains_sub_exec(&raw, "reddit.com/r/") {
            return None;
        }
        let u = clean_url(&raw);
        if count_char_exec(&u, '/') < 3 {
            return None;
        }
        let (u1, base) = split_base(u);
        let u2 = ensure_json_ext(u1);
        Some((crate::strutil::string_from_chars(&u2), crate::strutil::string_from_chars(&base)))
    }

    /// One numeric comparison filter, on upvotes or on reply count.
    fn numeric_filter(ups: bool, operator: &String, value: &String) -> (r: ElementFilter)
        ensures
            r.model() == spec_numeric_filter(ups, operator@, value@),
    {
        let num = parse_usize_chars(&chars_of(value.as_str()));
        let o: Option<ElementFilterOp> = if num.is_some() {
            let n = *num.as_ref().unwrap();
            if chars_eq_str(&chars_of(operator.as_str()), ">") {
                Some(ElementFilterOp::Grater(n))
            } else if chars_eq_str(&chars_of(operator.as_str()), ">=") {
                Some(ElementFilterOp::GraterEq(n))
            } else if chars_eq_str(&chars_of(operator.as_str()), "==") {
                Some(ElementFilterOp::Eq(n))
            } else if chars_eq_str(&chars_of(operator.as_str()), "!=") {
                Some(ElementFilterOp::NotEq(n))
            } else if chars_eq_str(&chars_of(operator.as_str()), "<") {
                Some(ElementFilterOp::Less(n))
            } else if chars_eq_str(&chars_of(operator.as_str()), "<=") {
                Some(ElementFilterOp::LessEq(n))
            } else {
                None
            }
        } else {
            None
        };
        match o {
            Some(op) => if ups {
                ElementFilter::Upvotes(op)
            } else {
                ElementFilter::Comments(op)
            },
            None => ElementFilter::Default,
        }
    }
}

} // verus!
