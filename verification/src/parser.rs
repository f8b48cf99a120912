//! The table compiler's front end: a line-oriented parser for the
//! textual collation-weights format.  Three significant line kinds
//! exist — a version declaration, an implicit-weight directive and an
//! entry line mapping a codepoint sequence to one or more bracketed
//! collation elements.  Blank and comment-only lines are skipped; any
//! structurally invalid line is a fatal parse error.

use vstd::prelude::*;

use vstd::string::StrSliceExecFns;

use crate::table::CollateElement;
use crate::table::Entry;
use crate::table::ImplicitWeight;

verus! {

/// A build-time parse failure; table generation aborts on it.
#[derive(Clone, Copy, Debug, PartialEq, Eq, Structural)]
pub enum ParseError {
    /// A field that should be a hexadecimal number is not one, or its
    /// value does not fit the target width.
    BadHex,
    /// An opening `[` has no matching `]` on its line.
    UnterminatedBracket,
    /// The line does not fit the structure of its kind.
    Malformed,
}

/// A major.minor.variant version triple declared by a version line.
#[derive(Clone, Copy, Debug, PartialEq, Eq, Structural)]
pub struct Version {
    pub major: usize,
    pub minor: usize,
    pub variant: usize,
}

/// One parsed significant line.
#[derive(Debug)]
pub enum Kind {
    Version(Version),
    ImplicitWeight(ImplicitWeight),
    Entry(Entry),
    EOF,
}

pub open spec fn is_space(c: char) -> bool {
    c == ' ' || c == '\t' || c == '\r' || c == '\n'
}

pub open spec fn is_hex_digit(c: char) -> bool {
    ('0' <= c && c <= '9') || ('a' <= c && c <= 'f') || ('A' <= c && c <= 'F')
}

/// The value of a hex digit; zero for any other character.
pub open spec fn hex_digit_val(c: char) -> int {
    if '0' <= c && c <= '9' {
        c as int - '0' as int
    } else if 'a' <= c && c <= 'f' {
        10 + c as int - 'a' as int
    } else if 'A' <= c && c <= 'F' {
        10 + c as int - 'A' as int
    } else {
        0
    }
}

pub open spec fn all_hex(s: Seq<char>) -> bool {
    forall|i: int| 0 <= i < s.len() ==> is_hex_digit(s[i])
}

/// The number a digit sequence denotes in base 16.
pub open spec fn hex_val(s: Seq<char>) -> int
    decreases s.len(),
{
    if s.len() == 0 {
        0
    } else {
        hex_val(s.drop_last()) * 16 + hex_digit_val(s.last())
    }
}

/// A nonempty all-hex token whose value fits below `bound`.
pub open spec fn valid_hex(s: Seq<char>, bound: int) -> bool {
    s.len() > 0 && all_hex(s) && hex_val(s) <= bound
}

pub open spec fn trim_front(s: Seq<char>) -> Seq<char>
    decreases s.len(),
{
    if s.len() > 0 && is_space(s[0]) {
        trim_front(s.drop_first())
    } else {
        s
    }
}

pub open spec fn trim_back(s: Seq<char>) -> Seq<char>
    decreases s.len(),
{
    if s.len() > 0 && is_space(s.last()) {
        trim_back(s.drop_last())
    } else {
        s
    }
}

/// Leading and trailing whitespace removed.
pub open spec fn trim_spec(s: Seq<char>) -> Seq<char> {
    trim_back(trim_front(s))
}

/// Every whitespace character removed.
pub open spec fn remove_spaces(s: Seq<char>) -> Seq<char>
    decreases s.len(),
{
    if s.len() == 0 {
        Seq::empty()
    } else if is_space(s[0]) {
        remove_spaces(s.drop_first())
    } else {
        seq![s[0]] + remove_spaces(s.drop_first())
    }
}

/// Index of the first occurrence of `c`, or the length when absent.
pub open spec fn find_char(s: Seq<char>, c: char) -> int
    decreases s.len(),
{
    if s.len() == 0 {
        0
    } else if s[0] == c {
        0
    } else {
        1 + find_char(s.drop_first(), c)
    }
}

pub proof fn lemma_find_char_bounds(s: Seq<char>, c: char)
    ensures
        0 <= find_char(s, c) <= s.len(),
        find_char(s, c) < s.len() ==> s[find_char(s, c)] == c,
        forall|i: int| 0 <= i < find_char(s, c) ==> s[i] != c,
    decreases s.len(),
{
    if s.len() > 0 && s[0] != c {
        lemma_find_char_bounds(s.drop_first(), c);
        assert forall|i: int| 0 <= i < find_char(s, c) implies s[i] != c by {
            if i > 0 {
                assert(s.drop_first()[i - 1] != c);
            }
        }
    }
}

proof fn lemma_find_char_at(s: Seq<char>, c: char, j: int)
    requires
        0 <= j <= s.len(),
        forall|i: int| 0 <= i < j ==> s[i] != c,
        j < s.len() ==> s[j] == c,
    ensures
        find_char(s, c) == j,
    decreases j,
{
    if j > 0 {
        lemma_find_char_at(s.drop_first(), c, j - 1);
    }
}

proof fn lemma_hex_val_nonneg(s: Seq<char>)
    ensures
        hex_val(s) >= 0,
    decreases s.len(),
{
    if s.len() > 0 {
        lemma_hex_val_nonneg(s.drop_last());
        assert(hex_digit_val(s.last()) >= 0);
    }
}

proof fn lemma_hex_val_step(s: Seq<char>, i: int)
    requires
        0 <= i < s.len(),
    ensures
        hex_val(s.take(i + 1)) == 16 * hex_val(s.take(i)) + hex_digit_val(s[i]),
{
    assert(s.take(i + 1).drop_last() =~= s.take(i));
    assert(s.take(i + 1).last() == s[i]);
}

proof fn lemma_hex_val_grows(s: Seq<char>, i: int, j: int)
    requires
        0 <= i <= j <= s.len(),
    ensures
        hex_val(s.take(j)) >= hex_val(s.take(i)),
    decreases j - i,
{
    if i < j {
        lemma_hex_val_grows(s, i, j - 1);
        lemma_hex_val_step(s, j - 1);
        lemma_hex_val_nonneg(s.take(j - 1));
        assert(hex_digit_val(s[j - 1]) >= 0);
    }
}

/// Classify one character as a hex digit.
fn hex_digit(c: char) -> (r: Option<u8>)
    ensures
        match r {
            Some(d) => is_hex_digit(c) && d as int == hex_digit_val(c),
            None => !is_hex_digit(c),
        },
{
    let u = c as u32;
    if 48 <= u && u <= 57 {
        Some((u - 48) as u8)
    } else if 97 <= u && u <= 102 {
        Some((u - 97 + 10) as u8)
    } else if 65 <= u && u <= 70 {
        Some((u - 65 + 10) as u8)
    } else {
        None
    }
}

/// Parse a whole token as a hex number no greater than `bound`.
fn parse_hex(tok: &Vec<char>, bound: u64) -> (r: Option<u64>)
    ensures
        match r {
            Some(v) => valid_hex(tok@, bound as int) && v as int == hex_val(tok@) && v <= bound,
            None => !valid_hex(tok@, bound as int),
        },
{
    if tok.len() == 0 {
        return None;
    }
    let mut acc: u128 = 0;
    let mut i: usize = 0;
    while i < tok.len()
        invariant
            i <= tok@.len(),
            acc <= bound as u128,
            acc as int == hex_val(tok@.take(i as int)),
            forall|j: int| 0 <= j < i ==> is_hex_digit(tok@[j]),
        decreases tok@.len() - i,
    {
        let d = match hex_digit(tok[i]) {
            Some(d) => d,
            None => {
                return None;
            },
        };
        proof {
            lemma_hex_val_step(tok@, i as int);
        }
        acc = acc * 16 + d as u128;
        if acc > bound as u128 {
            proof {
                lemma_hex_val_grows(tok@, i + 1, tok@.len() as int);
                assert(tok@.take(tok@.len() as int) =~= tok@);
            }
            return None;
        }
        i += 1;
    }
    proof {
        assert(tok@.take(tok@.len() as int) =~= tok@);
    }
    Some(acc as u64)
}

pub(crate) fn chars_of(s: &str) -> (r: Vec<char>)
    ensures
        r@ == s@,
{
    let n = s.unicode_len();
    let mut r: Vec<char> = Vec::new();
    let mut i: usize = 0;
    while i < n
        invariant
            i <= n,
            n == s@.len(),
            r@ =~= s@.take(i as int),
        decreases n - i,
    {
        r.push(s.get_char(i));
        i += 1;
    }
    proof {
        assert(r@ =~= s@);
    }
    r
}

pub(crate) fn subvec(v: &Vec<char>, lo: usize, hi: usize) -> (r: Vec<char>)
    requires
        lo <= hi <= v@.len(),
    ensures
        r@ == v@.subrange(lo as int, hi as int),
{
    let mut r: Vec<char> = Vec::new();
    let mut i: usize = lo;
    while i < hi
        invariant
            lo <= i <= hi <= v@.len(),
            r@ =~= v@.subrange(lo as int, i as int),
        decreases hi - i,
    {
        r.push(v[i]);
        i += 1;
    }
    r
}

/// Whitespace test on one character.
pub(crate) fn space(c: char) -> (r: bool)
    ensures
        r == is_space(c),
{
    c == ' ' || c == '\t' || c == '\r' || c == '\n'
}

/// A copy of `v` with every whitespace character removed.
pub(crate) fn strip_spaces(v: &Vec<char>) -> (r: Vec<char>)
    ensures
        r@ == remove_spaces(v@),
{
    let mut r: Vec<char> = Vec::new();
    let mut i: usize = 0;
    proof {
        assert(v@.skip(0) =~= v@);
    }
    while i < v.len()
        invariant
            i <= v@.len(),
            remove_spaces(v@) == r@ + remove_spaces(v@.skip(i as int)),
        decreases v@.len() - i,
    {
        proof {
            assert(v@.skip(i as int).drop_first() =~= v@.skip(i + 1));
            assert(v@.skip(i as int)[0] == v@[i as int]);
        }
        let c = v[i];
        if !space(c) {
            r.push(c);
            proof {
                assert(r@ + remove_spaces(v@.skip(i + 1)) =~= remove_spaces(v@));
            }
        }
        i += 1;
    }
    proof {
        assert(v@.skip(v@.len() as int) =~= Seq::<char>::empty());
        assert(r@ =~= remove_spaces(v@));
    }
    r
}

proof fn lemma_trim_front_at(s: Seq<char>, j: int)
    requires
        0 <= j <= s.len(),
        forall|i: int| 0 <= i < j ==> is_space(s[i]),
        j < s.len() ==> !is_space(s[j]),
    ensures
        trim_front(s) == s.skip(j),
    decreases j,
{
    if j == 0 {
        assert(s.skip(0) =~= s);
    } else {
        lemma_trim_front_at(s.drop_first(), j - 1);
        assert(s.drop_first().skip(j - 1) =~= s.skip(j));
    }
}

proof fn lemma_trim_back_at(s: Seq<char>, j: int)
    requires
        0 <= j <= s.len(),
        forall|i: int| j <= i < s.len() ==> is_space(s[i]),
        j > 0 ==> !is_space(s[j - 1]),
    ensures
        trim_back(s) == s.take(j),
    decreases s.len() - j,
{
    if j == s.len() {
        assert(s.take(j) =~= s);
    } else {
        assert(s.drop_last() =~= s.take(s.len() - 1));
        lemma_trim_back_at(s.take(s.len() - 1), j);
        assert(s.take(s.len() - 1).take(j) =~= s.take(j));
    }
}

/// The distinguishing prefix of a version line.
pub open spec fn version_prefix() -> Seq<char> {
    seq!['@', 'v', 'e', 'r', 's', 'i', 'o', 'n']
}

/// The distinguishing prefix of an implicit-weight directive.
pub open spec fn implicit_prefix() -> Seq<char> {
    seq!['@', 'i', 'm', 'p', 'l', 'i', 'c', 'i', 't', 'w', 'e', 'i', 'g', 'h', 't', 's']
}

pub open spec fn has_prefix(s: Seq<char>, p: Seq<char>) -> bool {
    s.len() >= p.len() && s.take(p.len() as int) == p
}

/// A weight separator inside a bracketed element; `*` is treated like
/// `.` apart from setting the element's variable flag.
pub open spec fn is_sep(c: char) -> bool {
    c == '.' || c == '*'
}

/// Index of the first weight separator, or the length when absent.
pub open spec fn find_sep(s: Seq<char>) -> int
    decreases s.len(),
{
    if s.len() == 0 {
        0
    } else if is_sep(s[0]) {
        0
    } else {
        1 + find_sep(s.drop_first())
    }
}

/// Index of the first `..`, or the length when absent.
pub open spec fn find_dotdot(s: Seq<char>) -> int
    decreases s.len(),
{
    if s.len() < 2 {
        s.len() as int
    } else if s[0] == '.' && s[1] == '.' {
        0
    } else {
        1 + find_dotdot(s.drop_first())
    }
}

/// The maximal nonempty whitespace-separated tokens of `s`, in order.
pub open spec fn split_ws(s: Seq<char>) -> Seq<Seq<char>>
    decreases s.len(),
{
    if s.len() == 0 {
        Seq::empty()
    } else if is_space(s[0]) {
        split_ws(s.drop_first())
    } else {
        let rest = split_ws(s.drop_first());
        if s.len() > 1 && !is_space(s[1]) {
            seq![seq![s[0]] + rest[0]] + rest.drop_first()
        } else {
            seq![seq![s[0]]] + rest
        }
    }
}

/// The meaning of a version line (without its prefix checked): three
/// `.`-separated hex numbers.
pub open spec fn parse_version_spec(s: Seq<char>) -> Option<Version> {
    let body = trim_spec(s.skip(version_prefix().len() as int));
    let j1 = find_char(body, '.');
    if j1 == body.len() {
        None
    } else {
        let p1 = body.take(j1);
        let rest = body.skip(j1 + 1);
        let j2 = find_char(rest, '.');
        if j2 == rest.len() {
            None
        } else {
            let p2 = rest.take(j2);
            let p3 = rest.skip(j2 + 1);
            if find_char(p3, '.') != p3.len() {
                None
            } else if valid_hex(p1, usize::MAX as int) && valid_hex(p2, usize::MAX as int)
                && valid_hex(p3, usize::MAX as int) {
                Some(
                    Version {
                        major: hex_val(p1) as usize,
                        minor: hex_val(p2) as usize,
                        variant: hex_val(p3) as usize,
                    },
                )
            } else {
                None
            }
        }
    }
}

/// The meaning of an implicit-weight directive: a hex codepoint range
/// `start..end`, `;`, and a hex base weight, whitespace ignored.
pub open spec fn parse_implicit_weight_spec(s: Seq<char>) -> Option<ImplicitWeight> {
    let body = s.skip(implicit_prefix().len() as int);
    let j = find_char(body, ';');
    if j == body.len() {
        None
    } else {
        let range_nw = remove_spaces(body.take(j));
        let weight_nw = remove_spaces(body.skip(j + 1));
        let i = find_dotdot(range_nw);
        if i >= range_nw.len() {
            None
        } else {
            let start_s = range_nw.take(i);
            let end_s = range_nw.skip(i + 2);
            if valid_hex(start_s, u32::MAX as int) && valid_hex(end_s, u32::MAX as int)
                && valid_hex(weight_nw, 0xFFFF) {
                Some(
                    ImplicitWeight {
                        start: hex_val(start_s) as u32,
                        end: hex_val(end_s) as u32,
                        weight: hex_val(weight_nw) as u16,
                    },
                )
            } else {
                None
            }
        }
    }
}

/// The three weight fields of an element: hex numbers separated by
/// `.` or `*` (the two separator characters are interchangeable
/// here).
pub open spec fn parse_element_fields(s: Seq<char>, variable: bool) -> Option<CollateElement> {
    let i1 = find_sep(s);
    if i1 == s.len() {
        None
    } else {
        let i2 = i1 + 1 + find_sep(s.skip(i1 + 1));
        if i2 == s.len() {
            None
        } else if find_sep(s.skip(i2 + 1)) != s.len() - i2 - 1 {
            None
        } else {
            let f1 = trim_spec(s.take(i1));
            let f2 = trim_spec(s.subrange(i1 + 1, i2));
            let f3 = trim_spec(s.skip(i2 + 1));
            if valid_hex(f1, 0xFFFF) && valid_hex(f2, 0xFFFF) && valid_hex(f3, 0xFFFF) {
                Some(
                    CollateElement {
                        primary: hex_val(f1) as u16,
                        secondary: hex_val(f2) as u16,
                        tertiary: hex_val(f3) as u16,
                        variable,
                    },
                )
            } else {
                None
            }
        }
    }
}

/// The meaning of the inside of one bracketed element: an optional
/// leading `.` or `*` — the standard data writes one before the first
/// weight, and a leading `*` marks the element variable — then three
/// hex weights separated by `.` or `*`.
pub open spec fn parse_element(s: Seq<char>) -> Option<CollateElement> {
    let t = trim_front(s);
    if t.len() > 0 && is_sep(t[0]) {
        parse_element_fields(t.drop_first(), t[0] == '*')
    } else {
        parse_element_fields(t, false)
    }
}

/// The meaning of an element list: bracketed elements separated by
/// whitespace, nothing else.
pub open spec fn parse_elements(s: Seq<char>) -> Option<Seq<CollateElement>>
    decreases s.len(),
    via parse_elements_decreases
{
    if s.len() == 0 {
        Some(Seq::empty())
    } else if is_space(s[0]) {
        parse_elements(s.drop_first())
    } else if s[0] == '[' {
        let j = find_char(s, ']');
        if j == s.len() {
            None
        } else {
            match (parse_element(s.subrange(1, j)), parse_elements(s.skip(j + 1))) {
                (Some(ce), Some(rest)) => Some(seq![ce] + rest),
                _ => None,
            }
        }
    } else {
        None
    }
}

#[via_fn]
proof fn parse_elements_decreases(s: Seq<char>) {
    if s.len() > 0 && !is_space(s[0]) && s[0] == '[' {
        lemma_find_char_bounds(s, ']');
    }
}

/// The meaning of a whitespace-separated hex codepoint list.
pub open spec fn parse_hex_list(s: Seq<char>) -> Option<Seq<u32>> {
    let toks = split_ws(s);
    if forall|k: int| 0 <= k < toks.len() ==> valid_hex(#[trigger] toks[k], u32::MAX as int) {
        Some(toks.map_values(|t: Seq<char>| hex_val(t) as u32))
    } else {
        None
    }
}

/// The meaning of an entry line: a nonempty hex codepoint list, `;`,
/// and one or more bracketed elements.
pub open spec fn parse_entry_spec(s: Seq<char>) -> Option<(Seq<u32>, Seq<CollateElement>)> {
    let j = find_char(s, ';');
    if j == s.len() {
        None
    } else {
        match (parse_hex_list(s.take(j)), parse_elements(s.skip(j + 1))) {
            (Some(cps), Some(ces)) => if cps.len() > 0 && ces.len() > 0 {
                Some((cps, ces))
            } else {
                None
            },
            _ => None,
        }
    }
}

/// Leading and trailing whitespace removed.
pub(crate) fn trim(v: &Vec<char>) -> (r: Vec<char>)
    ensures
        r@ == trim_spec(v@),
{
    let mut lo: usize = 0;
    while lo < v.len() && space(v[lo])
        invariant
            lo <= v@.len(),
            forall|i: int| 0 <= i < lo ==> is_space(v@[i]),
        decreases v@.len() - lo,
    {
        lo += 1;
    }
    let mut hi: usize = v.len();
    while hi > lo && space(v[hi - 1])
        invariant
            lo <= hi <= v@.len(),
            forall|i: int| 0 <= i < lo ==> is_space(v@[i]),
            forall|i: int| hi <= i < v@.len() ==> is_space(v@[i]),
            lo < v@.len() ==> !is_space(v@[lo as int]),
        decreases hi,
    {
        hi -= 1;
    }
    proof {
        lemma_trim_front_at(v@, lo as int);
        if hi == lo {
            lemma_trim_back_at(v@.skip(lo as int), 0);
        } else {
            lemma_trim_back_at(v@.skip(lo as int), hi - lo);
        }
        assert(v@.skip(lo as int).take(hi - lo) =~= v@.subrange(lo as int, hi as int));
    }
    subvec(v, lo, hi)
}

proof fn lemma_find_sep_at(s: Seq<char>, j: int)
    requires
        0 <= j <= s.len(),
        forall|i: int| 0 <= i < j ==> !is_sep(s[i]),
        j < s.len() ==> is_sep(s[j]),
    ensures
        find_sep(s) == j,
    decreases j,
{
    if j > 0 {
        lemma_find_sep_at(s.drop_first(), j - 1);
    }
}

/// First occurrence of `c` at or after `from`, or the length.
pub(crate) fn find_char_from(v: &Vec<char>, c: char, from: usize) -> (r: usize)
    requires
        from <= v@.len(),
    ensures
        from <= r <= v@.len(),
        r as int - from == find_char(v@.skip(from as int), c),
        r < v@.len() ==> v@[r as int] == c,
        forall|i: int| from <= i < r ==> v@[i] != c,
{
    let mut i: usize = from;
    while i < v.len() && v[i] != c
        invariant
            from <= i <= v@.len(),
            forall|j: int| from <= j < i ==> v@[j] != c,
        decreases v@.len() - i,
    {
        i += 1;
    }
    proof {
        lemma_find_char_at(v@.skip(from as int), c, i - from);
    }
    i
}

fn sep(c: char) -> (r: bool)
    ensures
        r == is_sep(c),
{
    c == '.' || c == '*'
}

/// First weight separator at or after `from`, or the length.
fn find_sep_from(v: &Vec<char>, from: usize) -> (r: usize)
    requires
        from <= v@.len(),
    ensures
        from <= r <= v@.len(),
        r as int - from == find_sep(v@.skip(from as int)),
        r < v@.len() ==> is_sep(v@[r as int]),
        forall|i: int| from <= i < r ==> !is_sep(v@[i]),
{
    let mut i: usize = from;
    while i < v.len() && !sep(v[i])
        invariant
            from <= i <= v@.len(),
            forall|j: int| from <= j < i ==> !is_sep(v@[j]),
        decreases v@.len() - i,
    {
        i += 1;
    }
    proof {
        lemma_find_sep_at(v@.skip(from as int), i - from);
    }
    i
}

proof fn lemma_find_dotdot_found(s: Seq<char>, j: int)
    requires
        0 <= j,
        j + 1 < s.len(),
        s[j] == '.' && s[j + 1] == '.',
        forall|m: int| 0 <= m < j ==> !((#[trigger] s[m]) == '.' && s[m + 1] == '.'),
    ensures
        find_dotdot(s) == j,
    decreases j,
{
    if j > 0 {
        lemma_find_dotdot_found(s.drop_first(), j - 1);
    }
}

proof fn lemma_find_dotdot_none(s: Seq<char>)
    requires
        forall|m: int| 0 <= m < s.len() - 1 ==> !((#[trigger] s[m]) == '.' && s[m + 1] == '.'),
    ensures
        find_dotdot(s) == s.len(),
    decreases s.len(),
{
    if s.len() >= 2 {
        lemma_find_dotdot_none(s.drop_first());
    }
}

/// First `..`, or the length when there is none.
fn find_dotdot_vec(v: &Vec<char>) -> (r: usize)
    ensures
        r as int == find_dotdot(v@),
        r <= v@.len(),
        r < v@.len() ==> r as int + 1 < v@.len(),
{
    let mut i: usize = 0;
    while i < v.len() && i + 1 < v.len()
        invariant
            i <= v@.len(),
            v@.len() >= 1 ==> i <= v@.len() - 1,
            forall|m: int| 0 <= m < i ==> !((#[trigger] v@[m]) == '.' && v@[m + 1] == '.'),
        decreases v@.len() - i,
    {
        if v[i] == '.' && v[i + 1] == '.' {
            proof {
                lemma_find_dotdot_found(v@, i as int);
            }
            return i;
        }
        i += 1;
    }
    proof {
        lemma_find_dotdot_none(v@);
    }
    v.len()
}

/// Parse a version line (prefix already recognized): three
/// `.`-separated hex numbers after the prefix.
pub fn parse_version(s: &str) -> (r: Result<Kind, ParseError>)
    requires
        has_prefix(s@, version_prefix()),
    ensures
        match r {
            Ok(k) => parse_version_spec(s@) is Some && (k matches Kind::Version(v) && Some(v)
                == parse_version_spec(s@)),
            Err(_) => parse_version_spec(s@) is None,
        },
{
    let v = chars_of(s);
    parse_version_chars(&v)
}

fn parse_version_chars(v: &Vec<char>) -> (r: Result<Kind, ParseError>)
    requires
        has_prefix(v@, version_prefix()),
    ensures
        match r {
            Ok(k) => parse_version_spec(v@) is Some && (k matches Kind::Version(ver) && Some(ver)
                == parse_version_spec(v@)),
            Err(_) => parse_version_spec(v@) is None,
        },
{
    let whole = subvec(v, 8, v.len());
    let body = trim(&whole);
    let ghost b = trim_spec(v@.skip(8));
    proof {
        assert(v@.subrange(8, v@.len() as int) =~= v@.skip(8));
    }
    let j1 = find_char_from(&body, '.', 0);
    proof {
        assert(body@.skip(0) =~= body@);
    }
    if j1 == body.len() {
        return Err(ParseError::Malformed);
    }
    let j2 = find_char_from(&body, '.', j1 + 1);
    if j2 == body.len() {
        return Err(ParseError::Malformed);
    }
    let j3 = find_char_from(&body, '.', j2 + 1);
    proof {
        assert(b.skip(j1 + 1).take(j2 - j1 - 1) =~= b.subrange(j1 + 1, j2 as int));
        assert(b.skip(j1 + 1).skip(j2 - j1 - 1 + 1) =~= b.skip(j2 + 1));
        assert(find_char(b.skip(j1 + 1), '.') == j2 - j1 - 1);
    }
    if j3 != body.len() {
        return Err(ParseError::Malformed);
    }
    let p1 = subvec(&body, 0, j1);
    let p2 = subvec(&body, j1 + 1, j2);
    let p3 = subvec(&body, j2 + 1, body.len());
    proof {
        assert(p1@ =~= b.take(j1 as int));
        assert(p2@ =~= b.skip(j1 + 1).take(find_char(b.skip(j1 + 1), '.')));
        assert(p3@ =~= b.skip(j1 + 1).skip(find_char(b.skip(j1 + 1), '.') + 1));
    }
    let major = match parse_hex(&p1, usize::MAX as u64) {
        Some(x) => x,
        None => {
            return Err(ParseError::BadHex);
        },
    };
    let minor = match parse_hex(&p2, usize::MAX as u64) {
        Some(x) => x,
        None => {
            return Err(ParseError::BadHex);
        },
    };
    let variant = match parse_hex(&p3, usize::MAX as u64) {
        Some(x) => x,
        None => {
            return Err(ParseError::BadHex);
        },
    };
    Ok(
        Kind::Version(
            Version {
                major: major as usize,
                minor: minor as usize,
                variant: variant as usize,
            },
        ),
    )
}

/// Parse an implicit-weight directive (prefix already recognized):
/// `start..end ; weight`, hex, whitespace ignored.
pub fn parse_implicit_weight(s: &str) -> (r: Result<Kind, ParseError>)
    requires
        has_prefix(s@, implicit_prefix()),
    ensures
        match r {
            Ok(k) => parse_implicit_weight_spec(s@) is Some && (k matches Kind::ImplicitWeight(iw)
                && Some(iw) == parse_implicit_weight_spec(s@)),
            Err(_) => parse_implicit_weight_spec(s@) is None,
        },
{
    let v = chars_of(s);
    parse_implicit_weight_chars(&v)
}

fn parse_implicit_weight_chars(v: &Vec<char>) -> (r: Result<Kind, ParseError>)
    requires
        has_prefix(v@, implicit_prefix()),
    ensures
        match r {
            Ok(k) => parse_implicit_weight_spec(v@) is Some && (k matches Kind::ImplicitWeight(iw)
                && Some(iw) == parse_implicit_weight_spec(v@)),
            Err(_) => parse_implicit_weight_spec(v@) is None,
        },
{
    let body = subvec(v, 16, v.len());
    proof {
        assert(body@ =~= v@.skip(16));
        assert(body@.skip(0) =~= body@);
    }
    let j = find_char_from(&body, ';', 0);
    if j == body.len() {
        return Err(ParseError::Malformed);
    }
    let left = subvec(&body, 0, j);
    let right = subvec(&body, j + 1, body.len());
    proof {
        assert(left@ =~= body@.take(j as int));
        assert(right@ =~= body@.skip(j + 1));
    }
    let range_nw = strip_spaces(&left);
    let weight_nw = strip_spaces(&right);
    let i = find_dotdot_vec(&range_nw);
    if i >= range_nw.len() {
        return Err(ParseError::Malformed);
    }
    let start_s = subvec(&range_nw, 0, i);
    let end_s = subvec(&range_nw, i + 2, range_nw.len());
    proof {
        assert(start_s@ =~= range_nw@.take(i as int));
        assert(end_s@ =~= range_nw@.skip(i + 2));
    }
    let start = match parse_hex(&start_s, 0xFFFF_FFFF) {
        Some(x) => x,
        None => {
            return Err(ParseError::BadHex);
        },
    };
    let end = match parse_hex(&end_s, 0xFFFF_FFFF) {
        Some(x) => x,
        None => {
            return Err(ParseError::BadHex);
        },
    };
    let weight = match parse_hex(&weight_nw, 0xFFFF) {
        Some(x) => x,
        None => {
            return Err(ParseError::BadHex);
        },
    };
    Ok(
        Kind::ImplicitWeight(
            ImplicitWeight { start: start as u32, end: end as u32, weight: weight as u16 },
        ),
    )
}

/// Parse the inside of one bracketed element: three hex weights
/// separated by `.` or `*`.
pub fn parse_collate_element(inner: &Vec<char>) -> (r: Result<CollateElement, ParseError>)
    ensures
        match r {
            Ok(ce) => parse_element(inner@) == Some(ce),
            Err(_) => parse_element(inner@) is None,
        },
{
    let n = inner.len();
    let mut k: usize = 0;
    while k < n && space(inner[k])
        invariant
            k <= n,
            n == inner@.len(),
            forall|j: int| 0 <= j < k ==> is_space(inner@[j]),
        decreases n - k,
    {
        k += 1;
    }
    proof {
        lemma_trim_front_at(inner@, k as int);
    }
    let mut start = k;
    let mut variable = false;
    if k < n && sep(inner[k]) {
        start = k + 1;
        variable = inner[k] == '*';
    }
    let ghost t = trim_front(inner@);
    let ghost u = inner@.skip(start as int);
    proof {
        if t.len() > 0 && is_sep(t[0]) {
            assert(t.drop_first() =~= inner@.skip(k + 1));
        }
        assert(parse_element(inner@) == parse_element_fields(u, variable));
    }
    let i1 = find_sep_from(inner, start);
    proof {
        assert(find_sep(u) == i1 - start);
    }
    if i1 == n {
        return Err(ParseError::Malformed);
    }
    let i2 = find_sep_from(inner, i1 + 1);
    proof {
        assert(u.skip(i1 - start + 1) =~= inner@.skip(i1 + 1));
    }
    if i2 == n {
        return Err(ParseError::Malformed);
    }
    let i3 = find_sep_from(inner, i2 + 1);
    proof {
        assert(u.skip(i2 - start + 1) =~= inner@.skip(i2 + 1));
    }
    if i3 != n {
        return Err(ParseError::Malformed);
    }
    let r1 = subvec(inner, start, i1);
    let r2 = subvec(inner, i1 + 1, i2);
    let r3 = subvec(inner, i2 + 1, n);
    proof {
        assert(r1@ =~= u.take(i1 - start));
        assert(r2@ =~= u.subrange(i1 - start + 1, i2 - start));
        assert(r3@ =~= u.skip(i2 - start + 1));
    }
    let f1 = trim(&r1);
    let f2 = trim(&r2);
    let f3 = trim(&r3);
    let primary = match parse_hex(&f1, 0xFFFF) {
        Some(x) => x,
        None => {
            return Err(ParseError::BadHex);
        },
    };
    let secondary = match parse_hex(&f2, 0xFFFF) {
        Some(x) => x,
        None => {
            return Err(ParseError::BadHex);
        },
    };
    let tertiary = match parse_hex(&f3, 0xFFFF) {
        Some(x) => x,
        None => {
            return Err(ParseError::BadHex);
        },
    };
    Ok(
        CollateElement {
            primary: primary as u16,
            secondary: secondary as u16,
            tertiary: tertiary as u16,
            variable,
        },
    )
}

proof fn lemma_split_ws_token(s: Seq<char>, k: int)
    requires
        1 <= k <= s.len(),
        forall|i: int| 0 <= i < k ==> !is_space(s[i]),
        k < s.len() ==> is_space(s[k]),
    ensures
        split_ws(s) == seq![s.take(k)] + split_ws(s.skip(k)),
    decreases k,
{
    if k == 1 {
        assert(s.take(1) =~= seq![s[0]]);
        assert(s.drop_first() =~= s.skip(1));
        if s.len() > 1 && !is_space(s[1]) {
            assert(false);
        }
        assert(split_ws(s) =~= seq![s.take(1)] + split_ws(s.skip(1)));
    } else {
        lemma_split_ws_token(s.drop_first(), k - 1);
        let rest = split_ws(s.drop_first());
        assert(s.drop_first().take(k - 1) =~= s.subrange(1, k));
        assert(s.drop_first().skip(k - 1) =~= s.skip(k));
        assert(rest == seq![s.subrange(1, k)] + split_ws(s.skip(k)));
        assert(rest[0] == s.subrange(1, k));
        assert(rest.drop_first() =~= split_ws(s.skip(k)));
        assert(seq![s[0]] + s.subrange(1, k) =~= s.take(k));
        assert(split_ws(s) =~= seq![s.take(k)] + split_ws(s.skip(k)));
    }
}

/// Parse a whitespace-separated list of hex codepoints.
fn parse_hex_list_exec(v: &Vec<char>) -> (r: Result<Vec<u32>, ParseError>)
    ensures
        match r {
            Ok(cps) => parse_hex_list(v@) == Some(cps@),
            Err(_) => parse_hex_list(v@) is None,
        },
{
    let mut out: Vec<u32> = Vec::new();
    let mut pos: usize = 0;
    let ghost mut done: Seq<Seq<char>> = Seq::empty();
    proof {
        assert(v@.skip(0) =~= v@);
        assert(split_ws(v@) =~= done + split_ws(v@.skip(0)));
    }
    while pos < v.len()
        invariant
            pos <= v@.len(),
            split_ws(v@) == done + split_ws(v@.skip(pos as int)),
            out@.len() == done.len(),
            forall|k: int|
                0 <= k < done.len() ==> valid_hex(#[trigger] done[k], u32::MAX as int)
                    && out@[k] as int == hex_val(done[k]),
        decreases v@.len() - pos,
    {
        if space(v[pos]) {
            proof {
                assert(v@.skip(pos as int).drop_first() =~= v@.skip(pos + 1));
            }
            pos += 1;
        } else {
            let start = pos;
            let mut end = pos;
            while end < v.len() && !space(v[end])
                invariant
                    start <= end <= v@.len(),
                    forall|i: int| start <= i < end ==> !is_space(v@[i]),
                decreases v@.len() - end,
            {
                end += 1;
            }
            let tok = subvec(v, start, end);
            proof {
                lemma_split_ws_token(v@.skip(start as int), end - start);
                assert(v@.skip(start as int).take(end - start) =~= tok@);
                assert(v@.skip(start as int).skip(end - start) =~= v@.skip(end as int));
            }
            match parse_hex(&tok, 0xFFFF_FFFF) {
                Some(x) => {
                    out.push(x as u32);
                    proof {
                        done = done + seq![tok@];
                    }
                    pos = end;
                },
                None => {
                    proof {
                        let toks = split_ws(v@);
                        assert(toks[done.len() as int] == tok@);
                        assert(!valid_hex(toks[done.len() as int], u32::MAX as int));
                    }
                    return Err(ParseError::BadHex);
                },
            }
        }
    }
    proof {
        assert(v@.skip(v@.len() as int) =~= Seq::<char>::empty());
        assert(split_ws(v@) =~= done);
        let toks = split_ws(v@);
        assert(forall|k: int|
            0 <= k < toks.len() ==> valid_hex(#[trigger] toks[k], u32::MAX as int));
        assert(out@ =~= toks.map_values(|t: Seq<char>| hex_val(t) as u32));
    }
    Ok(out)
}

/// Parse a list of bracketed collation elements.
fn parse_elements_exec(v: &Vec<char>) -> (r: Result<Vec<CollateElement>, ParseError>)
    ensures
        match r {
            Ok(ces) => parse_elements(v@) == Some(ces@),
            Err(_) => parse_elements(v@) is None,
        },
{
    let mut out: Vec<CollateElement> = Vec::new();
    let mut pos: usize = 0;
    proof {
        assert(v@.skip(0) =~= v@);
    }
    while pos < v.len()
        invariant
            pos <= v@.len(),
            parse_elements(v@.skip(pos as int)) is Some ==> parse_elements(v@) is Some
                && parse_elements(v@).unwrap() == out@ + parse_elements(
                v@.skip(pos as int),
            ).unwrap(),
            parse_elements(v@.skip(pos as int)) is None ==> parse_elements(v@) is None,
        decreases v@.len() - pos,
    {
        let c = v[pos];
        if space(c) {
            proof {
                assert(v@.skip(pos as int).drop_first() =~= v@.skip(pos + 1));
            }
            pos += 1;
        } else if c == '[' {
            let j = find_char_from(v, ']', pos + 1);
            let ghost suf = v@.skip(pos as int);
            proof {
                assert forall|i: int| 0 <= i < j - pos implies suf[i] != ']' by {
                    if i == 0 {
                        assert(suf[0] == '[');
                    } else {
                        assert(suf[i] == v@[pos + i]);
                    }
                }
                lemma_find_char_at(suf, ']', if j < v@.len() { j - pos } else { suf.len() as int });
            }
            if j == v.len() {
                return Err(ParseError::UnterminatedBracket);
            }
            let inner = subvec(v, pos + 1, j);
            proof {
                assert(inner@ =~= suf.subrange(1, j - pos));
            }
            match parse_collate_element(&inner) {
                Ok(ce) => {
                    out.push(ce);
                    proof {
                        assert(suf.skip(j - pos + 1) =~= v@.skip(j + 1));
                        let rest = parse_elements(v@.skip(j + 1));
                        if rest is Some {
                            assert(parse_elements(suf).unwrap() =~= seq![ce] + rest.unwrap());
                            assert(out@ + rest.unwrap() =~= out@.drop_last() + (seq![ce]
                                + rest.unwrap()));
                        }
                    }
                    pos = j + 1;
                },
                Err(e) => {
                    return Err(e);
                },
            }
        } else {
            return Err(ParseError::Malformed);
        }
    }
    proof {
        assert(v@.skip(v@.len() as int) =~= Seq::<char>::empty());
        assert(parse_elements(v@) is Some && parse_elements(v@).unwrap() =~= out@);
    }
    Ok(out)
}

/// Parse an entry line: hex codepoints, `;`, then one or more
/// bracketed collation elements.
pub fn parse_entry(s: &str) -> (r: Result<Kind, ParseError>)
    ensures
        match r {
            Ok(k) => parse_entry_spec(s@) is Some && (k matches Kind::Entry(e) && e.codepoints@
                == parse_entry_spec(s@).unwrap().0 && e.collate_elements@ == parse_entry_spec(
                s@,
            ).unwrap().1),
            Err(_) => parse_entry_spec(s@) is None,
        },
{
    let v = chars_of(s);
    parse_entry_chars(&v)
}

fn parse_entry_chars(v: &Vec<char>) -> (r: Result<Kind, ParseError>)
    ensures
        match r {
            Ok(k) => parse_entry_spec(v@) is Some && (k matches Kind::Entry(e) && e.codepoints@
                == parse_entry_spec(v@).unwrap().0 && e.collate_elements@ == parse_entry_spec(
                v@,
            ).unwrap().1),
            Err(_) => parse_entry_spec(v@) is None,
        },
{
    proof {
        assert(v@.skip(0) =~= v@);
    }
    let j = find_char_from(&v, ';', 0);
    if j == v.len() {
        return Err(ParseError::Malformed);
    }
    let left = subvec(v, 0, j);
    let right = subvec(v, j + 1, v.len());
    proof {
        assert(left@ =~= v@.take(j as int));
        assert(right@ =~= v@.skip(j + 1));
    }
    let codepoints = match parse_hex_list_exec(&left) {
        Ok(cps) => cps,
        Err(e) => {
            return Err(e);
        },
    };
    let collate_elements = match parse_elements_exec(&right) {
        Ok(ces) => ces,
        Err(e) => {
            return Err(e);
        },
    };
    if codepoints.len() == 0 || collate_elements.len() == 0 {
        return Err(ParseError::Malformed);
    }
    Ok(Kind::Entry(Entry { codepoints, collate_elements }))
}

/// A comment starts at `%` or `#` and runs to the end of the line.
pub open spec fn is_comment_char(c: char) -> bool {
    c == '%' || c == '#'
}

/// Index of the first comment character, or the length when absent.
pub open spec fn find_comment(s: Seq<char>) -> int
    decreases s.len(),
{
    if s.len() == 0 {
        0
    } else if is_comment_char(s[0]) {
        0
    } else {
        1 + find_comment(s.drop_first())
    }
}

proof fn lemma_find_comment_at(s: Seq<char>, j: int)
    requires
        0 <= j <= s.len(),
        forall|i: int| 0 <= i < j ==> !is_comment_char(s[i]),
        j < s.len() ==> is_comment_char(s[j]),
    ensures
        find_comment(s) == j,
    decreases j,
{
    if j > 0 {
        lemma_find_comment_at(s.drop_first(), j - 1);
    }
}

/// Where the line that starts at `pos` ends (the next newline, or the
/// end of the text).
pub open spec fn line_end(text: Seq<char>, pos: int) -> int {
    pos + find_char(text.skip(pos), '\n')
}

/// The reading position after the line that starts at `pos`.
pub open spec fn next_pos(text: Seq<char>, pos: int) -> int {
    if line_end(text, pos) < text.len() {
        line_end(text, pos) + 1
    } else {
        text.len() as int
    }
}

/// The line starting at `pos` with its comment tail removed.
pub open spec fn stripped_line(text: Seq<char>, pos: int) -> Seq<char> {
    let raw = text.subrange(pos, line_end(text, pos));
    raw.take(find_comment(raw))
}

/// The meaning of one parsed line at the spec level.
pub enum SpecLine {
    VersionLine(Version),
    ImplicitLine(ImplicitWeight),
    EntryLine(Seq<u32>, Seq<CollateElement>),
    EndOfInput,
}

/// What `parse_line` must produce from `pos` on: the first
/// significant line parsed by its kind (or `EndOfInput`), and the
/// position after it.
pub open spec fn parse_line_spec(text: Seq<char>, pos: int) -> (Option<SpecLine>, int)
    decreases text.len() - pos,
    via parse_line_spec_decreases
{
    if pos < 0 || pos >= text.len() {
        (Some(SpecLine::EndOfInput), pos)
    } else {
        let line = stripped_line(text, pos);
        let p2 = next_pos(text, pos);
        if trim_spec(line).len() == 0 {
            parse_line_spec(text, p2)
        } else if has_prefix(line, version_prefix()) {
            (
                match parse_version_spec(line) {
                    Some(v) => Some(SpecLine::VersionLine(v)),
                    None => None,
                },
                p2,
            )
        } else if has_prefix(line, implicit_prefix()) {
            (
                match parse_implicit_weight_spec(line) {
                    Some(iw) => Some(SpecLine::ImplicitLine(iw)),
                    None => None,
                },
                p2,
            )
        } else {
            (
                match parse_entry_spec(line) {
                    Some(e) => Some(SpecLine::EntryLine(e.0, e.1)),
                    None => None,
                },
                p2,
            )
        }
    }
}

#[via_fn]
proof fn parse_line_spec_decreases(text: Seq<char>, pos: int) {
    if 0 <= pos < text.len() {
        lemma_find_char_bounds(text.skip(pos), '\n');
    }
}

/// How an executable `Kind` realizes a spec-level line.
pub open spec fn kind_matches(k: Kind, sl: SpecLine) -> bool {
    match (k, sl) {
        (Kind::Version(v), SpecLine::VersionLine(v2)) => v == v2,
        (Kind::ImplicitWeight(iw), SpecLine::ImplicitLine(iw2)) => iw == iw2,
        (Kind::Entry(e), SpecLine::EntryLine(cps, ces)) => e.codepoints@ == cps
            && e.collate_elements@ == ces,
        (Kind::EOF, SpecLine::EndOfInput) => true,
        _ => false,
    }
}

/// Reads the weight data line by line; comments and blank lines are
/// skipped, every other line is parsed by its kind.
pub struct LineParser {
    pub text: Vec<char>,
    pub pos: usize,
}

impl LineParser {
    pub open spec fn wf(self) -> bool {
        self.pos <= self.text@.len()
    }

    /// A parser over the whole input text, positioned at its start.
    pub fn new(s: &str) -> (r: LineParser)
        ensures
            r.wf(),
            r.text@ == s@,
            r.pos == 0,
    {
        LineParser { text: chars_of(s), pos: 0 }
    }

    /// The next raw line with its comment tail removed, or `None` at
    /// the end of the input.
    fn read_line(&mut self) -> (r: Option<Vec<char>>)
        requires
            old(self).wf(),
        ensures
            final(self).wf(),
            final(self).text@ == old(self).text@,
            match r {
                Some(line) => old(self).pos < old(self).text@.len() && line@ == stripped_line(
                    old(self).text@,
                    old(self).pos as int,
                ) && final(self).pos as int == next_pos(old(self).text@, old(self).pos as int),
                None => old(self).pos == old(self).text@.len() && final(self).pos == old(
                    self,
                ).pos,
            },
    {
        if self.pos >= self.text.len() {
            return None;
        }
        let j = find_char_from(&self.text, '\n', self.pos);
        let ghost raw = self.text@.subrange(self.pos as int, j as int);
        proof {
            assert(line_end(self.text@, self.pos as int) == j);
        }
        let mut k = self.pos;
        while k < j && !(self.text[k] == '%' || self.text[k] == '#')
            invariant
                self.pos <= k <= j <= self.text@.len(),
                forall|i: int| self.pos <= i < k ==> !is_comment_char(self.text@[i]),
            decreases j - k,
        {
            k += 1;
        }
        proof {
            lemma_find_comment_at(raw, k - self.pos);
            assert(raw.take(k - self.pos) =~= self.text@.subrange(self.pos as int, k as int));
        }
        let line = subvec(&self.text, self.pos, k);
        if j < self.text.len() {
            self.pos = j + 1;
        } else {
            self.pos = j;
        }
        Some(line)
    }

    /// Parse the next significant line: skip blank and comment-only
    /// lines, then dispatch on the line's distinguishing prefix; at
    /// the end of the input, `Kind::EOF`.  A structurally invalid
    /// significant line is a fatal error.
    pub fn parse_line(&mut self) -> (r: Result<Kind, ParseError>)
        requires
            old(self).wf(),
        ensures
            final(self).wf(),
            final(self).text@ == old(self).text@,
            match r {
                Ok(k) => parse_line_spec(old(self).text@, old(self).pos as int).0 is Some
                    && kind_matches(
                    k,
                    parse_line_spec(old(self).text@, old(self).pos as int).0.unwrap(),
                ) && final(self).pos as int == parse_line_spec(
                    old(self).text@,
                    old(self).pos as int,
                ).1,
                Err(_) => parse_line_spec(old(self).text@, old(self).pos as int).0 is None
                    && final(self).pos as int == parse_line_spec(
                    old(self).text@,
                    old(self).pos as int,
                ).1,
            },
    {
        let ghost text0 = self.text@;
        let ghost pos0 = self.pos as int;
        loop
            invariant
                self.wf(),
                text0 == old(self).text@,
                pos0 == old(self).pos as int,
                self.text@ == text0,
                parse_line_spec(text0, pos0) == parse_line_spec(text0, self.pos as int),
            decreases text0.len() - self.pos,
        {
            let ghost pos_here = self.pos as int;
            let line = match self.read_line() {
                None => {
                    return Ok(Kind::EOF);
                },
                Some(line) => line,
            };
            proof {
                lemma_find_char_bounds(text0.skip(pos_here), '\n');
            }
            let t = trim(&line);
            if t.len() > 0 {
                if is_version_line(&line) {
                    return parse_version_chars(&line);
                } else if is_implicit_line(&line) {
                    return parse_implicit_weight_chars(&line);
                } else {
                    return parse_entry_chars(&line);
                }
            }
        }
    }
}

/// Does the line carry the version prefix?
fn is_version_line(v: &Vec<char>) -> (r: bool)
    ensures
        r == has_prefix(v@, version_prefix()),
{
    let r = v.len() >= 8 && v[0] == '@' && v[1] == 'v' && v[2] == 'e' && v[3] == 'r' && v[4] == 's'
        && v[5] == 'i' && v[6] == 'o' && v[7] == 'n';
    proof {
        if v@.len() >= 8 {
            assert(v@.take(8) =~= seq![v@[0], v@[1], v@[2], v@[3], v@[4], v@[5], v@[6], v@[7]]);
            if r {
                assert(v@.take(8) =~= version_prefix());
            }
            if v@.take(8) == version_prefix() {
                assert(v@[0] == '@' && v@[1] == 'v' && v@[2] == 'e' && v@[3] == 'r' && v@[4] == 's'
                    && v@[5] == 'i' && v@[6] == 'o' && v@[7] == 'n');
            }
        }
    }
    r
}

/// Does the line carry the implicit-weight prefix?
fn is_implicit_line(v: &Vec<char>) -> (r: bool)
    ensures
        r == has_prefix(v@, implicit_prefix()),
{
    let r = v.len() >= 16 && v[0] == '@' && v[1] == 'i' && v[2] == 'm' && v[3] == 'p' && v[4] == 'l'
        && v[5] == 'i' && v[6] == 'c' && v[7] == 'i' && v[8] == 't' && v[9] == 'w' && v[10] == 'e'
        && v[11] == 'i' && v[12] == 'g' && v[13] == 'h' && v[14] == 't' && v[15] == 's';
    proof {
        if v@.len() >= 16 {
            assert(v@.take(16) =~= seq![
                v@[0], v@[1], v@[2], v@[3], v@[4], v@[5], v@[6], v@[7], v@[8], v@[9], v@[10],
                v@[11], v@[12], v@[13], v@[14], v@[15],
            ]);
            if r {
                assert(v@.take(16) =~= implicit_prefix());
            }
            if v@.take(16) == implicit_prefix() {
                assert(v@[0] == '@' && v@[1] == 'i' && v@[2] == 'm' && v@[3] == 'p' && v@[4] == 'l'
                    && v@[5] == 'i' && v@[6] == 'c' && v@[7] == 'i' && v@[8] == 't' && v@[9] == 'w'
                    && v@[10] == 'e' && v@[11] == 'i' && v@[12] == 'g' && v@[13] == 'h' && v@[14]
                    == 't' && v@[15] == 's');
            }
        }
    }
    r
}

} // verus!
