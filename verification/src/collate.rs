//! The matching engine, sort-key builder and comparator.
//!
//! One call of [`find_cea`] consumes a prefix of the normalized
//! codepoint buffer: it probes the table for the longest contiguous
//! key, falls back to a derived weight for the leading codepoint, and
//! then tries to extend the match discontiguously through non-starters
//! until a blocking codepoint is reached.  [`sort_key`] repeats this
//! until the buffer is empty and flattens the per-level weights;
//! [`collate`] orders two strings by their sort keys.

use vstd::prelude::*;

use core::cmp::Ordering;

use crate::table::CODEPOINT_LIMIT;
use crate::table::CollateElement;
use crate::table::Entry;
use crate::table::WeightTable;
use crate::table::derive_weight;
use crate::table::derived_ces;
use crate::table::lookup;
use crate::table::lookup_in;
use crate::unicode::ccc_of;
use crate::unicode::combining_class;
use crate::unicode::nfd_codepoints;
use crate::unicode::nfd_of;
use vstd::string::StrSliceExecFns;

verus! {

/// U+00AD SOFT HYPHEN, a designated blocking codepoint.
pub const SOFT_HYPHEN: u32 = 0xAD;

/// U+034F COMBINING GRAPHEME JOINER, a designated blocking codepoint.
pub const GRAPHEME_JOINER: u32 = 0x34F;

/// A codepoint halts discontiguous extension when it is a starter
/// (combining class zero) or one of the two designated blocking
/// codepoints, which block regardless of their own combining class.
pub open spec fn blocks_extension(cp: u32) -> bool {
    cp == SOFT_HYPHEN || cp == GRAPHEME_JOINER || ccc_of(cp) == 0
}

/// The largest window length in `1 ..= k` whose prefix of `buf` is an
/// entry key, or `0` when none is.
pub open spec fn best_cont_len(t: WeightTable, buf: Seq<u32>, k: int) -> int
    decreases k,
{
    if k <= 0 {
        0
    } else if lookup_in(t.entries@, buf.take(k)) is Some {
        k
    } else {
        best_cont_len(t, buf, k - 1)
    }
}

/// The contiguous search window: the longest entry key still fitting
/// in the buffer.
pub open spec fn window(t: WeightTable, buf: Seq<u32>) -> int {
    if t.max_key_len < buf.len() {
        t.max_key_len as int
    } else {
        buf.len() as int
    }
}

/// Discontiguous extension: scan `rem` from position `i`; a
/// non-blocking codepoint that extends `key` to another entry key is
/// adopted (and spliced out of `rem`, restarting the scan), one that
/// does not is skipped.  The scan stops at the first blocking
/// codepoint or at the end of the buffer.  Returns the final elements
/// and the remaining buffer.
pub open spec fn extend_discontiguous(
    t: WeightTable,
    key: Seq<u32>,
    ces: Seq<CollateElement>,
    rem: Seq<u32>,
    i: int,
) -> (Seq<CollateElement>, Seq<u32>)
    decreases rem.len(), rem.len() - i,
{
    if i < 0 || i >= rem.len() {
        (ces, rem)
    } else if blocks_extension(rem[i]) {
        (ces, rem)
    } else {
        match lookup_in(t.entries@, key.push(rem[i])) {
            Some(longer) => extend_discontiguous(t, key.push(rem[i]), longer, rem.remove(i), 0),
            None => extend_discontiguous(t, key, ces, rem, i + 1),
        }
    }
}

/// One engine step on a nonempty buffer: longest contiguous match (or
/// the derived weight of the leading codepoint), then discontiguous
/// extension.  Returns the collation elements for the consumed prefix
/// and the buffer that remains.
pub open spec fn match_step(t: WeightTable, buf: Seq<u32>) -> (Seq<CollateElement>, Seq<u32>) {
    let k = best_cont_len(t, buf, window(t, buf));
    if k > 0 {
        extend_discontiguous(
            t,
            buf.take(k),
            lookup_in(t.entries@, buf.take(k)).unwrap(),
            buf.skip(k),
            0,
        )
    } else {
        extend_discontiguous(t, buf.take(1), derived_ces(t, buf[0]), buf.skip(1), 0)
    }
}

/// The weight of one element at a level: 0 primary, 1 secondary, 2
/// tertiary.
pub open spec fn weight_at(ce: CollateElement, level: int) -> u16 {
    if level == 0 {
        ce.primary
    } else if level == 1 {
        ce.secondary
    } else {
        ce.tertiary
    }
}

/// The nonzero weights of an element sequence at one level, in
/// emission order.
pub open spec fn level_weights(ces: Seq<CollateElement>, level: int) -> Seq<u16>
    decreases ces.len(),
{
    if ces.len() == 0 {
        Seq::empty()
    } else {
        let rest = level_weights(ces.drop_first(), level);
        if weight_at(ces[0], level) != 0 {
            seq![weight_at(ces[0], level)] + rest
        } else {
            rest
        }
    }
}

proof fn lemma_extend_discontiguous_len(
    t: WeightTable,
    key: Seq<u32>,
    ces: Seq<CollateElement>,
    rem: Seq<u32>,
    i: int,
)
    ensures
        extend_discontiguous(t, key, ces, rem, i).1.len() <= rem.len(),
    decreases rem.len(), rem.len() - i,
{
    if i < 0 || i >= rem.len() || blocks_extension(rem[i]) {
    } else {
        match lookup_in(t.entries@, key.push(rem[i])) {
            Some(longer) => {
                lemma_extend_discontiguous_len(t, key.push(rem[i]), longer, rem.remove(i), 0);
            },
            None => {
                lemma_extend_discontiguous_len(t, key, ces, rem, i + 1);
            },
        }
    }
}

/// Longest-match-first: the contiguous probe yields the largest
/// window length whose prefix is an entry key — a shorter
/// sub-sequence of a valid key never pre-empts it.
pub proof fn lemma_best_cont_len_longest(t: WeightTable, buf: Seq<u32>, k: int)
    ensures
        0 <= best_cont_len(t, buf, k),
        k >= 0 ==> best_cont_len(t, buf, k) <= k,
        best_cont_len(t, buf, k) > 0 ==> lookup_in(
            t.entries@,
            buf.take(best_cont_len(t, buf, k)),
        ) is Some,
        forall|m: int|
            best_cont_len(t, buf, k) < m <= k ==> lookup_in(
                t.entries@,
                #[trigger] buf.take(m),
            ) is None,
    decreases k,
{
    if k > 0 && !(lookup_in(t.entries@, buf.take(k)) is Some) {
        lemma_best_cont_len_longest(t, buf, k - 1);
    }
}

proof fn lemma_lookup_in_nonempty(entries: Seq<Entry>, key: Seq<u32>)
    requires
        forall|i: int|
            0 <= i < entries.len() ==> (#[trigger] entries[i]).collate_elements@.len() >= 1,
        lookup_in(entries, key) is Some,
    ensures
        lookup_in(entries, key).unwrap().len() >= 1,
    decreases entries.len(),
{
    if entries.len() > 0 && !(entries[0].codepoints@ =~= key) {
        assert forall|i: int| 0 <= i < entries.drop_first().len() implies (
        #[trigger] entries.drop_first()[i]).collate_elements@.len() >= 1 by {
            assert(entries.drop_first()[i] == entries[i + 1]);
        }
        lemma_lookup_in_nonempty(entries.drop_first(), key);
    }
}

proof fn lemma_extend_discontiguous_nonempty(
    t: WeightTable,
    key: Seq<u32>,
    ces: Seq<CollateElement>,
    rem: Seq<u32>,
    i: int,
)
    requires
        t.wf(),
        ces.len() > 0,
    ensures
        extend_discontiguous(t, key, ces, rem, i).0.len() > 0,
    decreases rem.len(), rem.len() - i,
{
    if i < 0 || i >= rem.len() || blocks_extension(rem[i]) {
    } else {
        match lookup_in(t.entries@, key.push(rem[i])) {
            Some(longer) => {
                lemma_lookup_in_nonempty(t.entries@, key.push(rem[i]));
                lemma_extend_discontiguous_nonempty(
                    t,
                    key.push(rem[i]),
                    longer,
                    rem.remove(i),
                    0,
                );
            },
            None => {
                lemma_extend_discontiguous_nonempty(t, key, ces, rem, i + 1);
            },
        }
    }
}

/// Each engine step yields at least one collation element: a
/// contiguous hit returns an entry's nonempty expansion, the fallback
/// a derived pair, and extension only ever replaces elements with
/// another entry's.
pub proof fn lemma_match_step_nonempty(t: WeightTable, buf: Seq<u32>)
    requires
        t.wf(),
        buf.len() > 0,
    ensures
        match_step(t, buf).0.len() > 0,
{
    let k = best_cont_len(t, buf, window(t, buf));
    lemma_best_cont_len_longest(t, buf, window(t, buf));
    if k > 0 {
        lemma_lookup_in_nonempty(t.entries@, buf.take(k));
        lemma_extend_discontiguous_nonempty(
            t,
            buf.take(k),
            lookup_in(t.entries@, buf.take(k)).unwrap(),
            buf.skip(k),
            0,
        );
    } else {
        lemma_extend_discontiguous_nonempty(t, buf.take(1), derived_ces(t, buf[0]), buf.skip(1), 0);
    }
}

proof fn lemma_best_cont_len_bounds(t: WeightTable, buf: Seq<u32>, k: int)
    ensures
        0 <= best_cont_len(t, buf, k) <= k || (k < 0 && best_cont_len(t, buf, k) == 0),
    decreases k,
{
    if k > 0 && !(lookup_in(t.entries@, buf.take(k)) is Some) {
        lemma_best_cont_len_bounds(t, buf, k - 1);
    }
}

/// Each engine step strictly shrinks the buffer.
pub proof fn lemma_match_step_len(t: WeightTable, buf: Seq<u32>)
    requires
        buf.len() > 0,
    ensures
        match_step(t, buf).1.len() < buf.len(),
{
    let k = best_cont_len(t, buf, window(t, buf));
    lemma_best_cont_len_bounds(t, buf, window(t, buf));
    if k > 0 {
        lemma_extend_discontiguous_len(
            t,
            buf.take(k),
            lookup_in(t.entries@, buf.take(k)).unwrap(),
            buf.skip(k),
            0,
        );
    } else {
        lemma_extend_discontiguous_len(t, buf.take(1), derived_ces(t, buf[0]), buf.skip(1), 0);
    }
}

/// All weights of one level emitted over a whole buffer, in order.
pub open spec fn collect_level(t: WeightTable, buf: Seq<u32>, level: int) -> Seq<u16>
    decreases buf.len(),
    via collect_level_decreases
{
    if buf.len() == 0 {
        Seq::empty()
    } else {
        let (ces, rest) = match_step(t, buf);
        level_weights(ces, level) + collect_level(t, rest, level)
    }
}

#[via_fn]
proof fn collect_level_decreases(t: WeightTable, buf: Seq<u32>, level: int) {
    if buf.len() != 0 {
        lemma_match_step_len(t, buf);
    }
}

/// The nonzero weights of a level accumulator, in order.
pub open spec fn nonzero_weights(ws: Seq<u16>) -> Seq<u16>
    decreases ws.len(),
{
    if ws.len() == 0 {
        Seq::empty()
    } else {
        let rest = nonzero_weights(ws.drop_first());
        if ws[0] != 0 {
            seq![ws[0]] + rest
        } else {
            rest
        }
    }
}

/// A flattened sort key: the nonzero weights of each level, with a
/// single zero separator between consecutive levels and none after the
/// last.
pub open spec fn flatten_levels(l0: Seq<u16>, l1: Seq<u16>, l2: Seq<u16>) -> Seq<u16> {
    nonzero_weights(l0) + seq![0u16] + nonzero_weights(l1) + seq![0u16] + nonzero_weights(l2)
}

/// The sort key of a string under table `t`.
pub open spec fn spec_sort_key(t: WeightTable, s: Seq<char>) -> Seq<u16> {
    let buf = nfd_of(s);
    flatten_levels(
        collect_level(t, buf, 0),
        collect_level(t, buf, 1),
        collect_level(t, buf, 2),
    )
}

/// Lexicographic comparison of weight sequences; a strict prefix
/// compares as less.
pub open spec fn lex_cmp(a: Seq<u16>, b: Seq<u16>) -> Ordering
    decreases a.len(),
{
    if a.len() == 0 && b.len() == 0 {
        Ordering::Equal
    } else if a.len() == 0 {
        Ordering::Less
    } else if b.len() == 0 {
        Ordering::Greater
    } else if a[0] < b[0] {
        Ordering::Less
    } else if a[0] > b[0] {
        Ordering::Greater
    } else {
        lex_cmp(a.drop_first(), b.drop_first())
    }
}

/// The ordering of two strings: equal text compares equal outright;
/// otherwise the sort keys are compared lexicographically.
pub open spec fn spec_collate(t: WeightTable, a: Seq<char>, b: Seq<char>) -> Ordering {
    if a == b {
        Ordering::Equal
    } else {
        lex_cmp(spec_sort_key(t, a), spec_sort_key(t, b))
    }
}

proof fn lemma_lex_cmp_refl(a: Seq<u16>)
    ensures
        lex_cmp(a, a) == Ordering::Equal,
    decreases a.len(),
{
    if a.len() > 0 {
        lemma_lex_cmp_refl(a.drop_first());
    }
}

proof fn lemma_lex_cmp_antisym(a: Seq<u16>, b: Seq<u16>)
    ensures
        (lex_cmp(a, b) == Ordering::Less) <==> (lex_cmp(b, a) == Ordering::Greater),
        (lex_cmp(a, b) == Ordering::Equal) <==> (lex_cmp(b, a) == Ordering::Equal),
    decreases a.len(),
{
    if a.len() > 0 && b.len() > 0 && a[0] == b[0] {
        lemma_lex_cmp_antisym(a.drop_first(), b.drop_first());
    }
}

proof fn lemma_lex_cmp_trans(a: Seq<u16>, b: Seq<u16>, c: Seq<u16>)
    requires
        lex_cmp(a, b) == Ordering::Less,
        lex_cmp(b, c) == Ordering::Less,
    ensures
        lex_cmp(a, c) == Ordering::Less,
    decreases a.len(),
{
    if a.len() > 0 && b.len() > 0 && c.len() > 0 && a[0] == b[0] && b[0] == c[0] {
        lemma_lex_cmp_trans(a.drop_first(), b.drop_first(), c.drop_first());
    }
}

proof fn lemma_lex_cmp_strict_prefix(a: Seq<u16>, b: Seq<u16>)
    requires
        a.len() < b.len(),
        a == b.take(a.len() as int),
    ensures
        lex_cmp(a, b) == Ordering::Less,
    decreases a.len(),
{
    if a.len() > 0 {
        assert(a[0] == b[0]);
        assert(a.drop_first() =~= b.drop_first().take(a.len() - 1));
        lemma_lex_cmp_strict_prefix(a.drop_first(), b.drop_first());
    }
}

/// Reflexivity: a string collates as `Equal` with itself.
pub proof fn lemma_collate_reflexive(t: WeightTable, a: Seq<char>)
    ensures
        spec_collate(t, a, a) == Ordering::Equal,
{
}

/// Antisymmetry: the orderings of a pair taken in the two directions
/// are mirror images of each other.
pub proof fn lemma_collate_antisymmetric(t: WeightTable, a: Seq<char>, b: Seq<char>)
    ensures
        (spec_collate(t, a, b) == Ordering::Less) <==> (spec_collate(t, b, a)
            == Ordering::Greater),
        (spec_collate(t, a, b) == Ordering::Equal) <==> (spec_collate(t, b, a)
            == Ordering::Equal),
{
    if a != b {
        lemma_lex_cmp_antisym(spec_sort_key(t, a), spec_sort_key(t, b));
    }
}

/// Transitivity: if `a` collates before `b` and `b` before `c`, then
/// `a` collates before `c`.
pub proof fn lemma_collate_transitive(t: WeightTable, a: Seq<char>, b: Seq<char>, c: Seq<char>)
    requires
        spec_collate(t, a, b) == Ordering::Less,
        spec_collate(t, b, c) == Ordering::Less,
    ensures
        spec_collate(t, a, c) == Ordering::Less,
{
    let ka = spec_sort_key(t, a);
    let kb = spec_sort_key(t, b);
    let kc = spec_sort_key(t, c);
    if a == c {
        lemma_lex_cmp_antisym(ka, kb);
        assert(false);
    } else {
        lemma_lex_cmp_trans(ka, kb, kc);
    }
}

/// Prefix law: when one sort key is a strict prefix of another, the
/// first string collates before the second.
pub proof fn lemma_sort_key_prefix(t: WeightTable, a: Seq<char>, b: Seq<char>)
    requires
        spec_sort_key(t, a).len() < spec_sort_key(t, b).len(),
        spec_sort_key(t, a) == spec_sort_key(t, b).take(spec_sort_key(t, a).len() as int),
    ensures
        spec_collate(t, a, b) == Ordering::Less,
{
    lemma_lex_cmp_strict_prefix(spec_sort_key(t, a), spec_sort_key(t, b));
    if a == b {
        assert(false);
    }
}

/// Normalization equivalence: two strings with the same canonical
/// decomposition have identical sort keys and collate as `Equal`.
pub proof fn lemma_normalization_equivalence(t: WeightTable, a: Seq<char>, b: Seq<char>)
    requires
        nfd_of(a) == nfd_of(b),
    ensures
        spec_sort_key(t, a) == spec_sort_key(t, b),
        spec_collate(t, a, b) == Ordering::Equal,
{
    lemma_lex_cmp_refl(spec_sort_key(t, a));
}

/// An ephemeral collation-element array: the elements produced by one
/// lookup/derivation call, consumed by the sort-key builder.
pub struct CEArray {
    pub inner: Vec<CollateElement>,
}

/// A completed sort key: every nonzero weight of each level in order,
/// with a zero separator after each non-final level.
pub struct Key {
    pub inner: Vec<u16>,
}

/// The three per-level weight accumulators of one sort-key
/// computation.
pub struct WeightLevels {
    pub primary: Vec<u16>,
    pub secondary: Vec<u16>,
    pub tertiary: Vec<u16>,
}

fn vec_take(v: &Vec<u32>, k: usize) -> (r: Vec<u32>)
    requires
        k <= v@.len(),
    ensures
        r@ == v@.take(k as int),
{
    let mut r: Vec<u32> = Vec::new();
    let mut j: usize = 0;
    while j < k
        invariant
            j <= k <= v@.len(),
            r@ =~= v@.take(j as int),
        decreases k - j,
    {
        r.push(v[j]);
        j += 1;
    }
    proof {
        assert(r@ =~= v@.take(k as int));
    }
    r
}

fn vec_drop_front(v: &mut Vec<u32>, k: usize)
    requires
        k <= old(v)@.len(),
    ensures
        final(v)@ == old(v)@.skip(k as int),
{
    let mut j: usize = 0;
    while j < k
        invariant
            j <= k <= old(v)@.len(),
            v@ =~= old(v)@.skip(j as int),
        decreases k - j,
    {
        let _ = v.remove(0);
        proof {
            assert(v@ =~= old(v)@.skip(j + 1));
        }
        j += 1;
    }
    proof {
        assert(v@ =~= old(v)@.skip(k as int));
    }
}

fn vec_push_copy(v: &Vec<u32>, x: u32) -> (r: Vec<u32>)
    ensures
        r@ == v@.push(x),
{
    let mut r: Vec<u32> = Vec::new();
    let mut j: usize = 0;
    while j < v.len()
        invariant
            j <= v@.len(),
            r@ =~= v@.take(j as int),
        decreases v@.len() - j,
    {
        r.push(v[j]);
        j += 1;
    }
    r.push(x);
    proof {
        assert(r@ =~= v@.push(x));
    }
    r
}

proof fn lemma_best_cont_at(t: WeightTable, buf: Seq<u32>, k: int, kk: int)
    requires
        1 <= k <= kk,
        lookup_in(t.entries@, buf.take(k)) is Some,
        forall|m: int| k < m <= kk ==> lookup_in(t.entries@, #[trigger] buf.take(m)) is None,
    ensures
        best_cont_len(t, buf, kk) == k,
    decreases kk,
{
    if kk > k {
        lemma_best_cont_at(t, buf, k, kk - 1);
    }
}

proof fn lemma_best_cont_none(t: WeightTable, buf: Seq<u32>, kk: int)
    requires
        forall|m: int| 1 <= m <= kk ==> lookup_in(t.entries@, #[trigger] buf.take(m)) is None,
    ensures
        best_cont_len(t, buf, kk) == 0,
    decreases kk,
{
    if kk > 0 {
        lemma_best_cont_none(t, buf, kk - 1);
    }
}

/// Contiguous probe: the longest window whose prefix is an entry key
/// wins; with no hit, the leading codepoint's derived weight is used.
/// Returns the elements and the matched prefix length.
fn find_next_cont_seq(t: &WeightTable, buf: &Vec<u32>) -> (r: (Vec<CollateElement>, usize))
    requires
        t.wf(),
        buf@.len() > 0,
        forall|i: int| 0 <= i < buf@.len() ==> buf@[i] < CODEPOINT_LIMIT,
    ensures
        ({
            let k = best_cont_len(*t, buf@, window(*t, buf@));
            &&& (k > 0 ==> r.1 == k && lookup_in(t.entries@, buf@.take(k)) == Some(r.0@))
            &&& (k == 0 ==> r.1 == 1 && r.0@ == derived_ces(*t, buf@[0]))
            &&& 1 <= r.1 <= buf@.len()
        }),
{
    let mut k: usize = if t.max_key_len < buf.len() {
        t.max_key_len
    } else {
        buf.len()
    };
    let ghost w = window(*t, buf@);
    while k >= 1
        invariant
            t.wf(),
            k as int <= w,
            w == window(*t, buf@),
            w <= buf@.len(),
            forall|m: int|
                k < m <= w ==> lookup_in(t.entries@, #[trigger] buf@.take(m)) is None,
        decreases k,
    {
        let probe = vec_take(buf, k);
        match lookup(t, &probe) {
            Some(ces) => {
                proof {
                    lemma_best_cont_at(*t, buf@, k as int, w);
                }
                return (ces, k);
            },
            None => {
                k -= 1;
            },
        }
    }
    proof {
        lemma_best_cont_none(*t, buf@, w);
    }
    let d = derive_weight(t, buf[0]);
    (d, 1)
}

/// One full engine step on the working buffer: contiguous match or
/// derived weight, then discontiguous extension; all consumed
/// codepoints are spliced out of `norm`.
pub fn find_next_longest_seq(t: &WeightTable, norm: &mut Vec<u32>) -> (r: Vec<CollateElement>)
    requires
        t.wf(),
        old(norm)@.len() > 0,
        forall|i: int| 0 <= i < old(norm)@.len() ==> old(norm)@[i] < CODEPOINT_LIMIT,
    ensures
        (r@, final(norm)@) == match_step(*t, old(norm)@),
        r@.len() > 0,
        final(norm)@.len() < old(norm)@.len(),
        forall|i: int| 0 <= i < final(norm)@.len() ==> final(norm)@[i] < CODEPOINT_LIMIT,
{
    let ghost buf0 = norm@;
    proof {
        lemma_match_step_nonempty(*t, buf0);
    }
    let (res0, klen) = find_next_cont_seq(t, norm);
    let mut s = vec_take(norm, klen);
    vec_drop_front(norm, klen);
    let ghost key0 = s@;
    let ghost ces0 = res0@;
    let ghost rem0 = norm@;
    proof {
        lemma_best_cont_len_bounds(*t, buf0, window(*t, buf0));
        let k = best_cont_len(*t, buf0, window(*t, buf0));
        if k > 0 {
            assert(klen as int == k);
            assert(key0 == buf0.take(k));
            assert(rem0 == buf0.skip(k));
            assert(lookup_in(t.entries@, buf0.take(k)) == Some(ces0));
            assert(lookup_in(t.entries@, buf0.take(k)).unwrap() == ces0);
        } else {
            assert(klen == 1usize);
            assert(key0 == buf0.take(1));
            assert(rem0 == buf0.skip(1));
            assert(ces0 == derived_ces(*t, buf0[0]));
        }
        assert(match_step(*t, buf0) == extend_discontiguous(*t, key0, ces0, rem0, 0));
    }
    let mut res = res0;
    let mut i: usize = 0;
    let mut done = false;
    while !done
        invariant
            t.wf(),
            i as int <= norm@.len(),
            norm@.len() <= rem0.len(),
            forall|j: int| 0 <= j < norm@.len() ==> norm@[j] < CODEPOINT_LIMIT,
            extend_discontiguous(*t, s@, res@, norm@, i as int) == extend_discontiguous(
                *t,
                key0,
                ces0,
                rem0,
                0,
            ),
            done ==> (i as int >= norm@.len() || blocks_extension(norm@[i as int])),
        decreases (if done {
            0int
        } else {
            1int
        }), norm@.len(), norm@.len() - i,
    {
        if i >= norm.len() {
            done = true;
        } else {
            let ch = norm[i];
            if ch == SOFT_HYPHEN || ch == GRAPHEME_JOINER || combining_class(ch) == 0 {
                done = true;
            } else {
                let candidate = vec_push_copy(&s, ch);
                match lookup(t, &candidate) {
                    Some(longer) => {
                        res = longer;
                        s = candidate;
                        let _ = norm.remove(i);
                        i = 0;
                    },
                    None => {
                        i += 1;
                    },
                }
            }
        }
    }
    proof {
        assert(extend_discontiguous(*t, s@, res@, norm@, i as int) == (res@, norm@));
    }
    res
}

/// One lookup/derivation call of the matching engine, returning its
/// collation-element array; the consumed prefix is removed from `src`.
pub fn find_cea(t: &WeightTable, src: &mut Vec<u32>) -> (r: CEArray)
    requires
        t.wf(),
        old(src)@.len() > 0,
        forall|i: int| 0 <= i < old(src)@.len() ==> old(src)@[i] < CODEPOINT_LIMIT,
    ensures
        (r.inner@, final(src)@) == match_step(*t, old(src)@),
        r.inner@.len() > 0,
        final(src)@.len() < old(src)@.len(),
        forall|i: int| 0 <= i < final(src)@.len() ==> final(src)@[i] < CODEPOINT_LIMIT,
{
    CEArray { inner: find_next_longest_seq(t, src) }
}

fn weight_of(ce: &CollateElement, level: usize) -> (r: u16)
    requires
        level < 3,
    ensures
        r == weight_at(*ce, level as int),
{
    if level == 0 {
        ce.primary
    } else if level == 1 {
        ce.secondary
    } else {
        ce.tertiary
    }
}

fn append_level(dst: &mut Vec<u16>, ces: &Vec<CollateElement>, level: usize)
    requires
        level < 3,
    ensures
        final(dst)@ == old(dst)@ + level_weights(ces@, level as int),
{
    proof {
        assert(ces@.skip(0) =~= ces@);
    }
    let mut j: usize = 0;
    while j < ces.len()
        invariant
            j <= ces@.len(),
            level < 3,
            old(dst)@ + level_weights(ces@, level as int) == dst@ + level_weights(
                ces@.skip(j as int),
                level as int,
            ),
        decreases ces@.len() - j,
    {
        proof {
            assert(ces@.skip(j as int).drop_first() =~= ces@.skip(j + 1));
            assert(ces@.skip(j as int)[0] == ces@[j as int]);
        }
        let w = weight_of(&ces[j], level);
        if w != 0 {
            dst.push(w);
            proof {
                assert(dst@ + level_weights(ces@.skip(j + 1), level as int) =~= old(dst)@
                    + level_weights(ces@, level as int));
            }
        }
        j += 1;
    }
    proof {
        assert(ces@.skip(ces@.len() as int) =~= Seq::<CollateElement>::empty());
        assert(final(dst)@ =~= old(dst)@ + level_weights(ces@, level as int));
    }
}

/// Normalize `s` and run the engine over the whole buffer,
/// accumulating the nonzero weights of every element at each level in
/// emission order.
pub fn get_collate_elements(t: &WeightTable, s: &str) -> (r: WeightLevels)
    requires
        t.wf(),
    ensures
        r.primary@ == collect_level(*t, nfd_of(s@), 0),
        r.secondary@ == collect_level(*t, nfd_of(s@), 1),
        r.tertiary@ == collect_level(*t, nfd_of(s@), 2),
{
    let mut norm = nfd_codepoints(s);
    let ghost buf0 = norm@;
    let mut l0: Vec<u16> = Vec::new();
    let mut l1: Vec<u16> = Vec::new();
    let mut l2: Vec<u16> = Vec::new();
    while norm.len() > 0
        invariant
            t.wf(),
            forall|j: int| 0 <= j < norm@.len() ==> norm@[j] < CODEPOINT_LIMIT,
            collect_level(*t, buf0, 0) == l0@ + collect_level(*t, norm@, 0),
            collect_level(*t, buf0, 1) == l1@ + collect_level(*t, norm@, 1),
            collect_level(*t, buf0, 2) == l2@ + collect_level(*t, norm@, 2),
        decreases norm@.len(),
    {
        let ghost before = norm@;
        let ces = find_next_longest_seq(t, &mut norm);
        append_level(&mut l0, &ces, 0);
        append_level(&mut l1, &ces, 1);
        append_level(&mut l2, &ces, 2);
        proof {
            assert(collect_level(*t, before, 0) == level_weights(ces@, 0) + collect_level(
                *t,
                norm@,
                0,
            ));
            assert(collect_level(*t, before, 1) == level_weights(ces@, 1) + collect_level(
                *t,
                norm@,
                1,
            ));
            assert(collect_level(*t, before, 2) == level_weights(ces@, 2) + collect_level(
                *t,
                norm@,
                2,
            ));
        }
    }
    proof {
        assert(l0@ + collect_level(*t, norm@, 0) =~= l0@);
        assert(l1@ + collect_level(*t, norm@, 1) =~= l1@);
        assert(l2@ + collect_level(*t, norm@, 2) =~= l2@);
    }
    WeightLevels { primary: l0, secondary: l1, tertiary: l2 }
}

fn append_nonzero(dst: &mut Vec<u16>, ws: &Vec<u16>)
    ensures
        final(dst)@ == old(dst)@ + nonzero_weights(ws@),
{
    proof {
        assert(ws@.skip(0) =~= ws@);
    }
    let mut j: usize = 0;
    while j < ws.len()
        invariant
            j <= ws@.len(),
            old(dst)@ + nonzero_weights(ws@) == dst@ + nonzero_weights(ws@.skip(j as int)),
        decreases ws@.len() - j,
    {
        proof {
            assert(ws@.skip(j as int).drop_first() =~= ws@.skip(j + 1));
            assert(ws@.skip(j as int)[0] == ws@[j as int]);
        }
        let w = ws[j];
        if w != 0 {
            dst.push(w);
            proof {
                assert(dst@ + nonzero_weights(ws@.skip(j + 1)) =~= old(dst)@ + nonzero_weights(
                    ws@,
                ));
            }
        }
        j += 1;
    }
    proof {
        assert(ws@.skip(ws@.len() as int) =~= Seq::<u16>::empty());
        assert(final(dst)@ =~= old(dst)@ + nonzero_weights(ws@));
    }
}

/// Serialize the per-level accumulators into one flattened sort key:
/// nonzero weights only, a single zero separator between consecutive
/// levels, no trailing separator.
pub fn build_sort_key(levels: WeightLevels) -> (r: Vec<u16>)
    ensures
        r@ == flatten_levels(levels.primary@, levels.secondary@, levels.tertiary@),
{
    let mut key: Vec<u16> = Vec::new();
    append_nonzero(&mut key, &levels.primary);
    key.push(0);
    append_nonzero(&mut key, &levels.secondary);
    key.push(0);
    append_nonzero(&mut key, &levels.tertiary);
    proof {
        assert(key@ =~= flatten_levels(levels.primary@, levels.secondary@, levels.tertiary@));
    }
    key
}

/// The sort key of `s` under table `t`.
pub fn sort_key(t: &WeightTable, s: &str) -> (r: Vec<u16>)
    requires
        t.wf(),
    ensures
        r@ == spec_sort_key(*t, s@),
{
    build_sort_key(get_collate_elements(t, s))
}

impl Key {
    /// Lexicographic comparison of two completed sort keys.
    pub fn compare(&self, other: &Key) -> (r: Ordering)
        ensures
            r == lex_cmp(self.inner@, other.inner@),
    {
        let a = &self.inner;
        let b = &other.inner;
        proof {
            assert(a@.skip(0) =~= a@);
            assert(b@.skip(0) =~= b@);
        }
        let mut i: usize = 0;
        while i < a.len() && i < b.len()
            invariant
                i <= a@.len(),
                i <= b@.len(),
                a@ == self.inner@,
                b@ == other.inner@,
                lex_cmp(self.inner@, other.inner@) == lex_cmp(
                    a@.skip(i as int),
                    b@.skip(i as int),
                ),
            decreases a@.len() - i,
        {
            proof {
                assert(a@.skip(i as int)[0] == a@[i as int]);
                assert(b@.skip(i as int)[0] == b@[i as int]);
                assert(a@.skip(i as int).drop_first() =~= a@.skip(i + 1));
                assert(b@.skip(i as int).drop_first() =~= b@.skip(i + 1));
            }
            if a[i] < b[i] {
                return Ordering::Less;
            }
            if a[i] > b[i] {
                return Ordering::Greater;
            }
            i += 1;
        }
        if a.len() == b.len() {
            Ordering::Equal
        } else if a.len() < b.len() {
            Ordering::Less
        } else {
            Ordering::Greater
        }
    }
}

/// Character-for-character equality of two strings.
fn str_eq(a: &str, b: &str) -> (r: bool)
    ensures
        r == (a@ == b@),
{
    let n = a.unicode_len();
    if n != b.unicode_len() {
        return false;
    }
    let mut i: usize = 0;
    while i < n
        invariant
            i <= n,
            n == a@.len(),
            n == b@.len(),
            forall|j: int| 0 <= j < i ==> a@[j] == b@[j],
        decreases n - i,
    {
        if a.get_char(i) != b.get_char(i) {
            return false;
        }
        i += 1;
    }
    proof {
        assert(a@ =~= b@);
    }
    true
}

/// Order two strings: byte-identical text compares `Equal` outright;
/// otherwise the flattened sort keys are compared lexicographically.
pub fn collate(t: &WeightTable, a: &str, b: &str) -> (r: Ordering)
    requires
        t.wf(),
    ensures
        r == spec_collate(*t, a@, b@),
{
    if str_eq(a, b) {
        return Ordering::Equal;
    }
    let ka = Key { inner: sort_key(t, a) };
    let kb = Key { inner: sort_key(t, b) };
    ka.compare(&kb)
}

} // verus!
