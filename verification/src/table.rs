//! The weight table: the immutable data artifact the matching engine
//! reads.  It holds explicit entries (codepoint sequences mapped to
//! collation-element expansions), the implicit-weight ranges used as a
//! total fallback, and the length of the longest entry key.

use vstd::prelude::*;

verus! {

/// Every Unicode scalar value is below this bound.
pub const CODEPOINT_LIMIT: u32 = 0x110000;

/// Width of the low half when an implicit weight is split across two
/// primaries.
pub const IMPLICIT_SPLIT: u32 = 0x8000;

/// Fixed secondary weight of the first element of a derived pair.
pub const DERIVED_SECONDARY: u16 = 0x20;

/// Fixed tertiary weight of the first element of a derived pair.
pub const DERIVED_TERTIARY: u16 = 0x2;

/// One collation element: primary, secondary and tertiary weight.
/// Zero is the "no weight at this level" marker.  The `variable` flag
/// records whether the element was written with a leading `*` in the
/// source data (a variable element under the standard); the default
/// comparator ignores it, but the table keeps it so the distinction is
/// not silently lost.
#[derive(Clone, Copy, Debug, PartialEq, Eq, Structural)]
pub struct CollateElement {
    pub primary: u16,
    pub secondary: u16,
    pub tertiary: u16,
    pub variable: bool,
}

/// One table entry: a key (an ordered codepoint sequence) mapped to its
/// expansion (an ordered sequence of collation elements).
#[derive(Debug)]
pub struct Entry {
    pub codepoints: Vec<u32>,
    pub collate_elements: Vec<CollateElement>,
}

/// A half-open codepoint interval `[start, end)` paired with the base
/// weight from which implicit weights in the interval are derived.
#[derive(Clone, Copy, Debug, PartialEq, Eq, Structural)]
pub struct ImplicitWeight {
    pub start: u32,
    pub end: u32,
    pub weight: u16,
}

/// The immutable aggregate the engine reads: entries sorted by key,
/// implicit-weight ranges covering every codepoint, and the longest
/// entry-key length (bounds the search window).
#[derive(Debug)]
pub struct WeightTable {
    pub entries: Vec<Entry>,
    pub implicit_weights: Vec<ImplicitWeight>,
    pub max_key_len: usize,
}

/// Total order on codepoint sequences: elementwise, and a strict prefix
/// sorts before the longer sequence.
pub open spec fn key_lt(a: Seq<u32>, b: Seq<u32>) -> bool
    decreases a.len(),
{
    if a.len() == 0 {
        b.len() > 0
    } else if b.len() == 0 {
        false
    } else if a[0] < b[0] {
        true
    } else if a[0] > b[0] {
        false
    } else {
        key_lt(a.drop_first(), b.drop_first())
    }
}

/// The expansion the table maps `key` to: the elements of the first
/// entry whose key equals `key`, if any.
pub open spec fn lookup_in(entries: Seq<Entry>, key: Seq<u32>) -> Option<Seq<CollateElement>>
    decreases entries.len(),
{
    if entries.len() == 0 {
        None
    } else if entries[0].codepoints@ =~= key {
        Some(entries[0].collate_elements@)
    } else {
        lookup_in(entries.drop_first(), key)
    }
}

pub open spec fn in_range(r: ImplicitWeight, cp: u32) -> bool {
    r.start <= cp < r.end
}

/// Some range of `rs` contains `cp`.
pub open spec fn covered_by(rs: Seq<ImplicitWeight>, cp: u32) -> bool {
    exists|i: int| 0 <= i < rs.len() && in_range(#[trigger] rs[i], cp)
}

/// The first implicit-weight range containing `cp`, if any.
pub open spec fn find_range(rs: Seq<ImplicitWeight>, cp: u32) -> Option<ImplicitWeight>
    decreases rs.len(),
{
    if rs.len() == 0 {
        None
    } else if in_range(rs[0], cp) {
        Some(rs[0])
    } else {
        find_range(rs.drop_first(), cp)
    }
}

/// The two synthetic collation elements derived for `cp` from its
/// range: `(cp - start)` is split into a high part (offset from the
/// range's base weight) and a low part, so that distinct codepoints in
/// one range never collide.
pub open spec fn derived_pair(r: ImplicitWeight, cp: u32) -> Seq<CollateElement> {
    let d = cp - r.start;
    seq![
        CollateElement {
            primary: (r.weight + d / (IMPLICIT_SPLIT as int)) as u16,
            secondary: DERIVED_SECONDARY,
            tertiary: DERIVED_TERTIARY,
            variable: false,
        },
        CollateElement {
            primary: (IMPLICIT_SPLIT + d % (IMPLICIT_SPLIT as int)) as u16,
            secondary: 0,
            tertiary: 0,
            variable: false,
        },
    ]
}

/// The derived collation elements of a codepoint under `t`'s ranges.
pub open spec fn derived_ces(t: WeightTable, cp: u32) -> Seq<CollateElement> {
    derived_pair(find_range(t.implicit_weights@, cp).unwrap(), cp)
}

impl WeightTable {
    /// Table invariant: entry keys are nonempty, bounded by
    /// `max_key_len` (which some entry attains), and strictly sorted in
    /// the codepoint-sequence order, and every entry carries at least
    /// one collation element; the implicit-weight ranges are nonempty,
    /// pairwise disjoint, sorted ascending and together cover every
    /// codepoint (the totality guarantee), and each range's base
    /// weight leaves room for the high half of the split.
    pub open spec fn wf(self) -> bool {
        &&& forall|i: int|
            0 <= i < self.entries@.len() ==> 1 <= (#[trigger] self.entries@[i]).codepoints@.len()
                <= self.max_key_len
        &&& forall|i: int|
            0 <= i < self.entries@.len() ==> (#[trigger] self.entries@[i]).collate_elements@.len()
                >= 1
        &&& (self.entries@.len() == 0 ==> self.max_key_len == 0)
        &&& (self.entries@.len() > 0 ==> exists|i: int|
            0 <= i < self.entries@.len() && (#[trigger] self.entries@[i]).codepoints@.len()
                == self.max_key_len)
        &&& forall|i: int, j: int|
            0 <= i < j < self.entries@.len() ==> #[trigger] key_lt(
                self.entries@[i].codepoints@,
                self.entries@[j].codepoints@,
            )
        &&& forall|i: int|
            0 <= i < self.implicit_weights@.len() ==> (#[trigger] self.implicit_weights@[i]).start
                < self.implicit_weights@[i].end
        &&& forall|i: int|
            1 <= i < self.implicit_weights@.len() ==> (#[trigger] self.implicit_weights@[i]).start
                >= self.implicit_weights@[i - 1].end
        &&& forall|cp: u32| cp < CODEPOINT_LIMIT ==> #[trigger] covered_by(self.implicit_weights@, cp)
        &&& forall|i: int|
            0 <= i < self.implicit_weights@.len() ==> (#[trigger] self.implicit_weights@[i]).weight
                + (self.implicit_weights@[i].end - 1 - self.implicit_weights@[i].start) / (
            IMPLICIT_SPLIT as int) <= 0xFFFF
    }
}

/// Elementwise equality of an entry key and a probe key.
fn key_eq(a: &Vec<u32>, b: &Vec<u32>) -> (r: bool)
    ensures
        r == (a@ =~= b@),
{
    if a.len() != b.len() {
        return false;
    }
    let mut i: usize = 0;
    while i < a.len()
        invariant
            i <= a.len(),
            a@.len() == b@.len(),
            forall|j: int| 0 <= j < i ==> a@[j] == b@[j],
        decreases a.len() - i,
    {
        if a[i] != b[i] {
            return false;
        }
        i += 1;
    }
    true
}

proof fn lemma_lookup_in_found(entries: Seq<Entry>, key: Seq<u32>, i: int)
    requires
        0 <= i < entries.len(),
        entries[i].codepoints@ =~= key,
        forall|j: int| 0 <= j < i ==> !((#[trigger] entries[j]).codepoints@ =~= key),
    ensures
        lookup_in(entries, key) == Some(entries[i].collate_elements@),
    decreases i,
{
    if i == 0 {
    } else {
        lemma_lookup_in_found(entries.drop_first(), key, i - 1);
    }
}

proof fn lemma_lookup_in_none(entries: Seq<Entry>, key: Seq<u32>)
    requires
        forall|j: int| 0 <= j < entries.len() ==> !((#[trigger] entries[j]).codepoints@ =~= key),
    ensures
        lookup_in(entries, key) is None,
    decreases entries.len(),
{
    if entries.len() > 0 {
        lemma_lookup_in_none(entries.drop_first(), key);
    }
}

/// Longest-first search support: look a probe key up in the table.
/// Returns the expansion of the entry whose key equals `key`, if one
/// exists.
pub fn lookup(t: &WeightTable, key: &Vec<u32>) -> (r: Option<Vec<CollateElement>>)
    ensures
        match r {
            Some(ces) => lookup_in(t.entries@, key@) == Some(ces@),
            None => lookup_in(t.entries@, key@) is None,
        },
{
    let mut i: usize = 0;
    while i < t.entries.len()
        invariant
            i <= t.entries@.len(),
            forall|j: int| 0 <= j < i ==> !((#[trigger] t.entries@[j]).codepoints@ =~= key@),
        decreases t.entries@.len() - i,
    {
        if key_eq(&t.entries[i].codepoints, key) {
            let mut ces: Vec<CollateElement> = Vec::new();
            let mut k: usize = 0;
            let n = t.entries[i].collate_elements.len();
            while k < n
                invariant
                    k <= n,
                    n == t.entries@[i as int].collate_elements@.len(),
                    i < t.entries@.len(),
                    ces@ =~= t.entries@[i as int].collate_elements@.take(k as int),
                decreases n - k,
            {
                ces.push(t.entries[i].collate_elements[k]);
                k += 1;
            }
            proof {
                lemma_lookup_in_found(t.entries@, key@, i as int);
                assert(ces@ =~= t.entries@[i as int].collate_elements@);
            }
            return Some(ces);
        }
        i += 1;
    }
    proof {
        lemma_lookup_in_none(t.entries@, key@);
    }
    None
}

pub(crate) proof fn lemma_chain_ordered(rs: Seq<ImplicitWeight>, i: int, j: int)
    requires
        forall|k: int| 0 <= k < rs.len() ==> (#[trigger] rs[k]).start < rs[k].end,
        forall|k: int| 1 <= k < rs.len() ==> (#[trigger] rs[k]).start >= rs[k - 1].end,
        0 <= i < j < rs.len(),
    ensures
        rs[i].end <= rs[j].start,
    decreases j - i,
{
    if j == i + 1 {
    } else {
        lemma_chain_ordered(rs, i, j - 1);
    }
}

proof fn lemma_find_range_at(rs: Seq<ImplicitWeight>, cp: u32, i: int)
    requires
        0 <= i < rs.len(),
        in_range(rs[i], cp),
        forall|j: int| 0 <= j < i ==> !in_range(#[trigger] rs[j], cp),
    ensures
        find_range(rs, cp) == Some(rs[i]),
    decreases i,
{
    if i > 0 {
        lemma_find_range_at(rs.drop_first(), cp, i - 1);
    }
}

/// Totality: every valid codepoint lies in some implicit-weight range
/// of a well-formed table.
pub proof fn lemma_range_coverage(t: WeightTable, cp: u32)
    requires
        t.wf(),
        cp < CODEPOINT_LIMIT,
    ensures
        find_range(t.implicit_weights@, cp) is Some,
        in_range(find_range(t.implicit_weights@, cp).unwrap(), cp),
{
    let rs = t.implicit_weights@;
    assert(covered_by(rs, cp));
    lemma_find_range_first(rs, cp);
}

proof fn lemma_find_range_first(rs: Seq<ImplicitWeight>, cp: u32)
    requires
        exists|i: int| 0 <= i < rs.len() && in_range(#[trigger] rs[i], cp),
    ensures
        find_range(rs, cp) is Some,
        in_range(find_range(rs, cp).unwrap(), cp),
    decreases rs.len(),
{
    if rs.len() > 0 && !in_range(rs[0], cp) {
        let i = choose|i: int| 0 <= i < rs.len() && in_range(#[trigger] rs[i], cp);
        assert(in_range(rs.drop_first()[i - 1], cp));
        lemma_find_range_first(rs.drop_first(), cp);
    }
}

/// Derived (implicit) weight: locate the codepoint's range by binary
/// search and split `cp - start` into two primaries offset from the
/// range's base weight.
pub fn derive_weight(t: &WeightTable, cp: u32) -> (r: Vec<CollateElement>)
    requires
        t.wf(),
        cp < CODEPOINT_LIMIT,
    ensures
        r@ == derived_ces(*t, cp),
{
    proof {
        lemma_range_coverage(*t, cp);
    }
    let ghost rsv = t.implicit_weights@;
    proof {
        assert(covered_by(rsv, cp));
        let m = choose|m: int| 0 <= m < rsv.len() && in_range(#[trigger] rsv[m], cp);
        if m > 0 {
            lemma_chain_ordered(rsv, 0, m);
        }
        assert(rsv[0].start <= cp);
    }
    let mut lo: usize = 0;
    let mut hi: usize = t.implicit_weights.len();
    while hi - lo > 1
        invariant
            0 <= lo < hi <= rsv.len(),
            rsv == t.implicit_weights@,
            t.wf(),
            cp < CODEPOINT_LIMIT,
            rsv[lo as int].start <= cp,
            hi < rsv.len() ==> cp < rsv[hi as int].start,
        decreases hi - lo,
    {
        let mid = lo + (hi - lo) / 2;
        if t.implicit_weights[mid].start <= cp {
            lo = mid;
        } else {
            hi = mid;
        }
    }
    let rg = t.implicit_weights[lo];
    proof {
        assert(covered_by(rsv, cp));
        let m = choose|m: int| 0 <= m < rsv.len() && in_range(#[trigger] rsv[m], cp);
        assert(0 <= m < rsv.len() && in_range(rsv[m], cp));
        if m < lo {
            lemma_chain_ordered(rsv, m, lo as int);
            assert(false);
        }
        if m > lo {
            assert(hi < rsv.len());
            if m > hi {
                lemma_chain_ordered(rsv, hi as int, m);
            }
            assert(rsv[m].start > cp);
            assert(false);
        }
        assert(in_range(rg, cp));
        assert(forall|j: int| 0 <= j < lo ==> !in_range(#[trigger] rsv[j], cp)) by {
            assert forall|j: int| 0 <= j < lo implies !in_range(#[trigger] rsv[j], cp) by {
                lemma_chain_ordered(rsv, j, lo as int);
            }
        }
        lemma_find_range_at(rsv, cp, lo as int);
    }
    let d = cp - rg.start;
    proof {
        vstd::arithmetic::div_mod::lemma_div_is_ordered(
            d as int,
            (rg.end - 1 - rg.start) as int,
            IMPLICIT_SPLIT as int,
        );
    }
    let high = CollateElement {
        primary: rg.weight + (d / IMPLICIT_SPLIT) as u16,
        secondary: DERIVED_SECONDARY,
        tertiary: DERIVED_TERTIARY,
        variable: false,
    };
    let low = CollateElement {
        primary: (IMPLICIT_SPLIT + d % IMPLICIT_SPLIT) as u16,
        secondary: 0,
        tertiary: 0,
        variable: false,
    };
    let mut r: Vec<CollateElement> = Vec::new();
    r.push(high);
    r.push(low);
    proof {
        assert(r@ =~= derived_ces(*t, cp));
    }
    r
}

proof fn lemma_split_injective(w: int, d1: int, d2: int, dmax: int)
    requires
        0 <= d1 <= dmax,
        0 <= d2 <= dmax,
        d1 != d2,
        0 <= w,
        w + dmax / (IMPLICIT_SPLIT as int) <= 0xFFFF,
    ensures
        ((w + d1 / (IMPLICIT_SPLIT as int)) as u16 != (w + d2 / (IMPLICIT_SPLIT as int)) as u16)
            || ((IMPLICIT_SPLIT + d1 % (IMPLICIT_SPLIT as int)) as u16 != (IMPLICIT_SPLIT + d2 % (
        IMPLICIT_SPLIT as int)) as u16),
{
    let k = IMPLICIT_SPLIT as int;
    vstd::arithmetic::div_mod::lemma_div_is_ordered(d1, dmax, k);
    vstd::arithmetic::div_mod::lemma_div_is_ordered(d2, dmax, k);
    vstd::arithmetic::div_mod::lemma_div_pos_is_pos(d1, k);
    vstd::arithmetic::div_mod::lemma_div_pos_is_pos(d2, k);
    vstd::arithmetic::div_mod::lemma_mod_division_less_than_divisor(d1, k);
    vstd::arithmetic::div_mod::lemma_mod_division_less_than_divisor(d2, k);
    if (w + d1 / k) as u16 == (w + d2 / k) as u16 && (IMPLICIT_SPLIT + d1 % k) as u16 == (
    IMPLICIT_SPLIT + d2 % k) as u16 {
        assert(w + d1 / k == w + d2 / k);
        assert(IMPLICIT_SPLIT + d1 % k == IMPLICIT_SPLIT + d2 % k);
        vstd::arithmetic::div_mod::lemma_fundamental_div_mod(d1, k);
        vstd::arithmetic::div_mod::lemma_fundamental_div_mod(d2, k);
        assert(false);
    }
}

/// Injectivity of one range's derived pairs: two distinct codepoints
/// of the range never yield the same two elements.
proof fn lemma_derived_pair_injective(rg: ImplicitWeight, c1: u32, c2: u32)
    requires
        in_range(rg, c1),
        in_range(rg, c2),
        c1 != c2,
        rg.weight + (rg.end - 1 - rg.start) / (IMPLICIT_SPLIT as int) <= 0xFFFF,
    ensures
        derived_pair(rg, c1) != derived_pair(rg, c2),
{
    let d1 = c1 - rg.start;
    let d2 = c2 - rg.start;
    lemma_split_injective(rg.weight as int, d1 as int, d2 as int, (rg.end - 1 - rg.start) as int);
    if derived_pair(rg, c1)[0].primary == derived_pair(rg, c2)[0].primary && derived_pair(
        rg,
        c1,
    )[1].primary == derived_pair(rg, c2)[1].primary {
        assert(false);
    }
    assert(derived_pair(rg, c1)[0] != derived_pair(rg, c2)[0] || derived_pair(rg, c1)[1]
        != derived_pair(rg, c2)[1]);
}

/// Derived-weight injectivity: within one implicit-weight range, no
/// two distinct codepoints produce the same pair of collation
/// elements.
pub proof fn lemma_derived_weight_injective(t: WeightTable, c1: u32, c2: u32)
    requires
        t.wf(),
        c1 < CODEPOINT_LIMIT,
        c2 < CODEPOINT_LIMIT,
        c1 != c2,
        find_range(t.implicit_weights@, c1) == find_range(t.implicit_weights@, c2),
    ensures
        derived_ces(t, c1) != derived_ces(t, c2),
{
    lemma_range_coverage(t, c1);
    lemma_range_coverage(t, c2);
    let rs = t.implicit_weights@;
    let rg = find_range(rs, c1).unwrap();
    lemma_find_range_member(rs, c1);
    let i = choose|i: int| 0 <= i < rs.len() && rs[i] == find_range(rs, c1).unwrap();
    assert(rg.weight + (rg.end - 1 - rg.start) / (IMPLICIT_SPLIT as int) <= 0xFFFF);
    lemma_derived_pair_injective(rg, c1, c2);
}

/// Derived-weight order: within one implicit-weight range, the two
/// derived primaries compare in codepoint order, so unlisted
/// codepoints keep their block-relative order.
pub proof fn lemma_derived_weight_ordered(t: WeightTable, c1: u32, c2: u32)
    requires
        t.wf(),
        c1 < CODEPOINT_LIMIT,
        c2 < CODEPOINT_LIMIT,
        c1 < c2,
        find_range(t.implicit_weights@, c1) == find_range(t.implicit_weights@, c2),
    ensures
        derived_ces(t, c1)[0].primary < derived_ces(t, c2)[0].primary || (derived_ces(
            t,
            c1,
        )[0].primary == derived_ces(t, c2)[0].primary && derived_ces(t, c1)[1].primary
            < derived_ces(t, c2)[1].primary),
{
    lemma_range_coverage(t, c1);
    lemma_range_coverage(t, c2);
    let rs = t.implicit_weights@;
    let rg = find_range(rs, c1).unwrap();
    lemma_find_range_member(rs, c1);
    let i = choose|i: int| 0 <= i < rs.len() && rs[i] == find_range(rs, c1).unwrap();
    assert(rg.weight + (rg.end - 1 - rg.start) / (IMPLICIT_SPLIT as int) <= 0xFFFF);
    lemma_split_ordered(rg.weight as int, (c1 - rg.start) as int, (c2 - rg.start) as int, (rg.end
        - 1 - rg.start) as int);
}

proof fn lemma_split_ordered(w: int, d1: int, d2: int, dmax: int)
    requires
        0 <= d1 <= dmax,
        0 <= d2 <= dmax,
        d1 < d2,
        0 <= w,
        w + dmax / (IMPLICIT_SPLIT as int) <= 0xFFFF,
    ensures
        ((w + d1 / (IMPLICIT_SPLIT as int)) as u16) < ((w + d2 / (IMPLICIT_SPLIT as int)) as u16)
            || ((w + d1 / (IMPLICIT_SPLIT as int)) as u16 == (w + d2 / (
        IMPLICIT_SPLIT as int)) as u16 && ((IMPLICIT_SPLIT + d1 % (IMPLICIT_SPLIT as int)) as u16)
            < ((IMPLICIT_SPLIT + d2 % (IMPLICIT_SPLIT as int)) as u16)),
{
    let k = IMPLICIT_SPLIT as int;
    vstd::arithmetic::div_mod::lemma_div_is_ordered(d1, d2, k);
    vstd::arithmetic::div_mod::lemma_div_is_ordered(d1, dmax, k);
    vstd::arithmetic::div_mod::lemma_div_is_ordered(d2, dmax, k);
    vstd::arithmetic::div_mod::lemma_div_pos_is_pos(d1, k);
    vstd::arithmetic::div_mod::lemma_div_pos_is_pos(d2, k);
    vstd::arithmetic::div_mod::lemma_mod_division_less_than_divisor(d1, k);
    vstd::arithmetic::div_mod::lemma_mod_division_less_than_divisor(d2, k);
    if d1 / k == d2 / k {
        vstd::arithmetic::div_mod::lemma_fundamental_div_mod(d1, k);
        vstd::arithmetic::div_mod::lemma_fundamental_div_mod(d2, k);
        assert(d1 % k < d2 % k);
    }
}

proof fn lemma_find_range_member(rs: Seq<ImplicitWeight>, cp: u32)
    requires
        find_range(rs, cp) is Some,
    ensures
        exists|i: int| 0 <= i < rs.len() && rs[i] == find_range(rs, cp).unwrap(),
    decreases rs.len(),
{
    if rs.len() > 0 && !in_range(rs[0], cp) {
        lemma_find_range_member(rs.drop_first(), cp);
        let i = choose|i: int|
            0 <= i < rs.drop_first().len() && rs.drop_first()[i] == find_range(
                rs.drop_first(),
                cp,
            ).unwrap();
        assert(rs[i + 1] == find_range(rs, cp).unwrap());
    }
}

} // verus!
