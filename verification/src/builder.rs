//! The table compiler's back end: it takes the parsed lines, sorts the
//! entries by key and the implicit-weight ranges by start, validates
//! the table invariants (unique keys, disjoint ranges, total coverage,
//! weight head-room) and emits the immutable weight table.  Any
//! violation is a fatal build error; there is no partial table.

use vstd::prelude::*;

use vstd::multiset::Multiset;

use crate::parser::Kind;
use crate::table::CODEPOINT_LIMIT;
use crate::table::Entry;
use crate::table::IMPLICIT_SPLIT;
use crate::table::ImplicitWeight;
use crate::table::WeightTable;
use crate::table::covered_by;
use crate::table::in_range;
use crate::table::key_lt;

verus! {

/// A fatal defect found while building the table.
#[derive(Clone, Copy, Debug, PartialEq, Eq, Structural)]
pub enum BuildError {
    /// Two entries declare the same codepoint sequence.
    DuplicateKey,
    /// An entry declares no codepoints.
    EmptyKey,
    /// An entry declares no collation elements.
    EmptyExpansion,
    /// An implicit-weight range is empty.
    BadRange,
    /// Two implicit-weight ranges intersect.
    OverlappingRanges,
    /// Some codepoint lies in no implicit-weight range.
    UncoveredCodepoint,
    /// A range's base weight leaves no room for the split's high half.
    WeightOverflow,
}

/// The entries among the parsed lines, in input order.
pub open spec fn entries_of(kinds: Seq<Kind>) -> Seq<Entry>
    decreases kinds.len(),
{
    if kinds.len() == 0 {
        Seq::empty()
    } else {
        let rest = entries_of(kinds.drop_last());
        match kinds.last() {
            Kind::Entry(e) => rest.push(e),
            _ => rest,
        }
    }
}

/// The implicit-weight directives among the parsed lines, in input
/// order.
pub open spec fn ranges_of(kinds: Seq<Kind>) -> Seq<ImplicitWeight>
    decreases kinds.len(),
{
    if kinds.len() == 0 {
        Seq::empty()
    } else {
        let rest = ranges_of(kinds.drop_last());
        match kinds.last() {
            Kind::ImplicitWeight(iw) => rest.push(iw),
            _ => rest,
        }
    }
}

pub open spec fn ranges_disjoint(a: ImplicitWeight, b: ImplicitWeight) -> bool {
    a.end <= b.start || b.end <= a.start
}

/// When table generation succeeds: entry keys nonempty and unique and
/// every expansion nonempty; ranges nonempty, pairwise disjoint and
/// covering every codepoint, and every base weight leaving room for
/// the split's high half.
pub open spec fn buildable(entries: Seq<Entry>, ranges: Seq<ImplicitWeight>) -> bool {
    &&& forall|i: int, j: int|
        0 <= i < entries.len() && 0 <= j < entries.len() && i != j ==> (
        #[trigger] entries[i]).codepoints@ != (#[trigger] entries[j]).codepoints@
    &&& forall|i: int| 0 <= i < entries.len() ==> (#[trigger] entries[i]).codepoints@.len() >= 1
    &&& forall|i: int| 0 <= i < entries.len() ==> (#[trigger] entries[i]).collate_elements@.len()
        >= 1
    &&& forall|i: int| 0 <= i < ranges.len() ==> (#[trigger] ranges[i]).start < ranges[i].end
    &&& forall|i: int, j: int|
        0 <= i < ranges.len() && 0 <= j < ranges.len() && i != j ==> ranges_disjoint(
            #[trigger] ranges[i],
            #[trigger] ranges[j],
        )
    &&& forall|cp: u32| cp < CODEPOINT_LIMIT ==> #[trigger] covered_by(ranges, cp)
    &&& forall|i: int|
        0 <= i < ranges.len() ==> (#[trigger] ranges[i]).weight + (ranges[i].end - 1
            - ranges[i].start) / (IMPLICIT_SPLIT as int) <= 0xFFFF
}

proof fn lemma_empty_to_multiset<A>()
    ensures
        Seq::<A>::empty().to_multiset() =~= Multiset::<A>::empty(),
{
    broadcast use vstd::seq_lib::group_to_multiset_ensures;
    broadcast use vstd::multiset::group_multiset_axioms;

    assert forall|a: A| Seq::<A>::empty().to_multiset().count(a) == 0 by {
        if Seq::<A>::empty().to_multiset().count(a) > 0 {
            assert(Seq::<A>::empty().contains(a));
        }
    }
}

proof fn lemma_singleton_to_multiset<A>(x: A)
    ensures
        seq![x].to_multiset() =~= Multiset::<A>::empty().insert(x),
{
    broadcast use vstd::seq_lib::group_to_multiset_ensures;
    broadcast use vstd::multiset::group_multiset_axioms;

    lemma_empty_to_multiset::<A>();
    assert(seq![x] =~= Seq::<A>::empty().push(x));
    assert(Seq::<A>::empty().push(x).to_multiset() =~= Seq::<A>::empty().to_multiset().insert(x));
}

proof fn lemma_mset_index<A>(s1: Seq<A>, s2: Seq<A>, i: int)
    requires
        s1.to_multiset() == s2.to_multiset(),
        0 <= i < s1.len(),
    ensures
        exists|j: int| 0 <= j < s2.len() && s2[j] == s1[i],
{
    broadcast use vstd::seq_lib::group_to_multiset_ensures;

    assert(s1.contains(s1[i]));
    assert(s1.to_multiset().count(s1[i]) > 0);
    assert(s2.to_multiset().count(s1[i]) > 0);
    assert(s2.contains(s1[i]));
}

proof fn lemma_mset_count_two<A>(s: Seq<A>, i: int, j: int)
    requires
        0 <= i < j < s.len(),
        s[i] == s[j],
    ensures
        s.to_multiset().count(s[i]) >= 2,
{
    broadcast use vstd::seq_lib::group_to_multiset_ensures;

    let s0 = s.subrange(0, j);
    let s1 = s.subrange(j, s.len() as int);
    assert(s =~= s0 + s1);
    vstd::seq_lib::lemma_multiset_commutative(s0, s1);
    assert(s0.contains(s[i]));
    assert(s1[0] == s[j]);
    assert(s1.contains(s[i]));
}

proof fn lemma_mset_two_indices<A>(s1: Seq<A>, s2: Seq<A>, i: int, j: int)
    requires
        s1.to_multiset() == s2.to_multiset(),
        0 <= i < s1.len(),
        0 <= j < s1.len(),
        i != j,
    ensures
        exists|m: int, n: int|
            0 <= m < s2.len() && 0 <= n < s2.len() && m != n && s2[m] == s1[i] && s2[n] == s1[j],
{
    broadcast use vstd::seq_lib::group_to_multiset_ensures;
    broadcast use vstd::multiset::group_multiset_axioms;

    if s1[i] != s1[j] {
        lemma_mset_index(s1, s2, i);
        lemma_mset_index(s1, s2, j);
        let m = choose|m: int| 0 <= m < s2.len() && s2[m] == s1[i];
        let n = choose|n: int| 0 <= n < s2.len() && s2[n] == s1[j];
        assert(m != n);
    } else {
        let x = s1[i];
        if i < j {
            lemma_mset_count_two(s1, i, j);
        } else {
            lemma_mset_count_two(s1, j, i);
        }
        assert(s2.to_multiset().count(x) >= 2);
        assert(s2.contains(x));
        let m = choose|m: int| 0 <= m < s2.len() && s2[m] == x;
        let rest = s2.remove(m);
        assert(rest.to_multiset() =~= s2.to_multiset().remove(x));
        assert(rest.to_multiset().count(x) >= 1);
        assert(rest.contains(x));
        let n0 = choose|n0: int| 0 <= n0 < rest.len() && rest[n0] == x;
        let n = if n0 < m {
            n0
        } else {
            n0 + 1
        };
        assert(s2[n] == x);
        assert(m != n);
    }
}

proof fn lemma_key_lt_connex(a: Seq<u32>, b: Seq<u32>)
    requires
        !key_lt(a, b),
        !key_lt(b, a),
    ensures
        a =~= b,
    decreases a.len(),
{
    if a.len() > 0 && b.len() > 0 && a[0] == b[0] {
        lemma_key_lt_connex(a.drop_first(), b.drop_first());
        assert(a =~= seq![a[0]] + a.drop_first());
        assert(b =~= seq![b[0]] + b.drop_first());
    }
}

proof fn lemma_key_lt_trans(a: Seq<u32>, b: Seq<u32>, c: Seq<u32>)
    requires
        key_lt(a, b),
        key_lt(b, c),
    ensures
        key_lt(a, c),
    decreases a.len(),
{
    if a.len() > 0 && b.len() > 0 && c.len() > 0 && a[0] == b[0] && b[0] == c[0] {
        lemma_key_lt_trans(a.drop_first(), b.drop_first(), c.drop_first());
    }
}

/// Strict order on entry keys.
fn key_less(a: &Vec<u32>, b: &Vec<u32>) -> (r: bool)
    ensures
        r == key_lt(a@, b@),
{
    proof {
        assert(a@.skip(0) =~= a@);
        assert(b@.skip(0) =~= b@);
    }
    let mut i: usize = 0;
    while i < a.len() && i < b.len()
        invariant
            i <= a@.len(),
            i <= b@.len(),
            key_lt(a@, b@) == key_lt(a@.skip(i as int), b@.skip(i as int)),
        decreases a@.len() - i,
    {
        proof {
            assert(a@.skip(i as int)[0] == a@[i as int]);
            assert(b@.skip(i as int)[0] == b@[i as int]);
            assert(a@.skip(i as int).drop_first() =~= a@.skip(i + 1));
            assert(b@.skip(i as int).drop_first() =~= b@.skip(i + 1));
        }
        if a[i] < b[i] {
            return true;
        }
        if a[i] > b[i] {
            return false;
        }
        i += 1;
    }
    a.len() < b.len()
}

pub open spec fn entries_sorted(s: Seq<Entry>) -> bool {
    forall|i: int, j: int|
        0 <= i < j < s.len() ==> #[trigger] key_lt(s[i].codepoints@, s[j].codepoints@)
}

/// Sort entries into strict key order; two entries with the same key
/// are a fatal duplicate.
fn sort_entries(input: Vec<Entry>) -> (r: Result<Vec<Entry>, BuildError>)
    ensures
        match r {
            Ok(out) => out@.to_multiset() == input@.to_multiset() && entries_sorted(out@),
            Err(e) => e == BuildError::DuplicateKey && exists|i: int, j: int|
                0 <= i < input@.len() && 0 <= j < input@.len() && i != j && (
                #[trigger] input@[i]).codepoints@ == (#[trigger] input@[j]).codepoints@,
        },
{
    broadcast use vstd::seq_lib::group_to_multiset_ensures;
    broadcast use vstd::multiset::group_multiset_axioms;

    let ghost input0 = input@;
    let mut src = input;
    let mut out: Vec<Entry> = Vec::new();
    proof {
        lemma_empty_to_multiset::<Entry>();
        lemma_empty_to_multiset::<ImplicitWeight>();
        assert(out@.to_multiset().add(src@.to_multiset()) =~= input0.to_multiset());
    }
    while src.len() > 0
        invariant
            input0 == input@,
            out@.to_multiset().add(src@.to_multiset()) == input0.to_multiset(),
            entries_sorted(out@),
        decreases src@.len(),
    {
        let ghost src_before = src@;
        let x = match src.pop() {
            Some(x) => x,
            None => {
                return Err(BuildError::DuplicateKey);
            },
        };
        proof {
            broadcast use vstd::seq_lib::group_to_multiset_ensures;
            broadcast use vstd::multiset::group_multiset_axioms;

            assert(src@ =~= src_before.remove(src_before.len() - 1));
            assert(src_before.remove(src_before.len() - 1).to_multiset()
                == src_before.to_multiset().remove(src_before.last()));
            assert(src@.to_multiset() == src_before.to_multiset().remove(x));
        }
        let mut p: usize = 0;
        let mut scanning = true;
        while scanning
            invariant
                p <= out@.len(),
                forall|i: int| 0 <= i < p ==> #[trigger] key_lt(out@[i].codepoints@, x.codepoints@),
                !scanning ==> (p == out@.len() || !key_lt(
                    out@[p as int].codepoints@,
                    x.codepoints@,
                )),
            decreases (if scanning {
                1int
            } else {
                0int
            }), out@.len() - p,
        {
            if p >= out.len() {
                scanning = false;
            } else if key_less(&out[p].codepoints, &x.codepoints) {
                p += 1;
            } else {
                scanning = false;
            }
        }
        if p < out.len() && !key_less(&x.codepoints, &out[p].codepoints) {
            proof {
                broadcast use vstd::seq_lib::group_to_multiset_ensures;
                broadcast use vstd::multiset::group_multiset_axioms;

                lemma_key_lt_connex(out@[p as int].codepoints@, x.codepoints@);
                let whole = out@ + seq![x] + src@;
                vstd::seq_lib::lemma_multiset_commutative(out@ + seq![x], src@);
                vstd::seq_lib::lemma_multiset_commutative(out@, seq![x]);
                lemma_singleton_to_multiset(x);
                assert(whole.to_multiset() =~= input0.to_multiset());
                assert(whole[p as int] == out@[p as int]);
                assert(whole[out@.len() as int] == x);
                lemma_mset_two_indices(whole, input0, p as int, out@.len() as int);
            }
            return Err(BuildError::DuplicateKey);
        }
        proof {
            if p < out@.len() {
                assert(key_lt(x.codepoints@, out@[p as int].codepoints@));
            }
            assert forall|i: int| p <= i < out@.len() implies key_lt(
                x.codepoints@,
                (#[trigger] out@[i]).codepoints@,
            ) by {
                if i > p {
                    lemma_key_lt_trans(
                        x.codepoints@,
                        out@[p as int].codepoints@,
                        out@[i].codepoints@,
                    );
                }
            }
        }
        let ghost out_before = out@;
        out.insert(p, x);
        proof {
            broadcast use vstd::seq_lib::group_to_multiset_ensures;
            broadcast use vstd::multiset::group_multiset_axioms;

            let o2 = out@;
            assert(o2 == out_before.insert(p as int, x));
            assert(out_before.insert(p as int, x).to_multiset() == out_before.to_multiset().insert(
                x,
            ));
            assert(o2.to_multiset().add(src@.to_multiset()) =~= input0.to_multiset());
            assert forall|i: int, j: int| 0 <= i < j < o2.len() implies #[trigger] key_lt(
                o2[i].codepoints@,
                o2[j].codepoints@,
            ) by {
                if j < p {
                } else if i == p {
                    assert(o2[j] == out_before[j - 1]);
                } else if j == p {
                    assert(o2[i] == out_before[i]);
                } else if i > p {
                    assert(o2[i] == out_before[i - 1]);
                    assert(o2[j] == out_before[j - 1]);
                } else {
                    assert(o2[i] == out_before[i]);
                    assert(o2[j] == out_before[j - 1]);
                }
            }
        }
    }
    proof {
        lemma_empty_to_multiset::<Entry>();
        assert(src@ =~= Seq::<Entry>::empty());
        assert(out@.to_multiset() =~= input0.to_multiset());
    }
    Ok(out)
}

/// Sort implicit-weight ranges ascending by start.
fn sort_ranges(input: Vec<ImplicitWeight>) -> (out: Vec<ImplicitWeight>)
    ensures
        out@.to_multiset() == input@.to_multiset(),
        forall|i: int, j: int| 0 <= i < j < out@.len() ==> (#[trigger] out@[i]).start <= (
        #[trigger] out@[j]).start,
{
    broadcast use vstd::seq_lib::group_to_multiset_ensures;
    broadcast use vstd::multiset::group_multiset_axioms;

    let ghost input0 = input@;
    let mut src = input;
    let mut out: Vec<ImplicitWeight> = Vec::new();
    proof {
        lemma_empty_to_multiset::<Entry>();
        lemma_empty_to_multiset::<ImplicitWeight>();
        assert(out@.to_multiset().add(src@.to_multiset()) =~= input0.to_multiset());
    }
    while src.len() > 0
        invariant
            input0 == input@,
            out@.to_multiset().add(src@.to_multiset()) == input0.to_multiset(),
            forall|i: int, j: int| 0 <= i < j < out@.len() ==> (#[trigger] out@[i]).start <= (
            #[trigger] out@[j]).start,
        decreases src@.len(),
    {
        let ghost src_before = src@;
        let x = match src.pop() {
            Some(x) => x,
            None => {
                return out;
            },
        };
        proof {
            broadcast use vstd::seq_lib::group_to_multiset_ensures;
            broadcast use vstd::multiset::group_multiset_axioms;

            assert(src@ =~= src_before.remove(src_before.len() - 1));
            assert(src_before.remove(src_before.len() - 1).to_multiset()
                == src_before.to_multiset().remove(src_before.last()));
            assert(src@.to_multiset() == src_before.to_multiset().remove(x));
        }
        let mut p: usize = 0;
        let mut scanning = true;
        while scanning
            invariant
                p <= out@.len(),
                forall|i: int| 0 <= i < p ==> (#[trigger] out@[i]).start <= x.start,
                !scanning ==> (p == out@.len() || out@[p as int].start > x.start),
            decreases (if scanning {
                1int
            } else {
                0int
            }), out@.len() - p,
        {
            if p >= out.len() {
                scanning = false;
            } else if out[p].start <= x.start {
                p += 1;
            } else {
                scanning = false;
            }
        }
        let ghost out_before = out@;
        out.insert(p, x);
        proof {
            broadcast use vstd::seq_lib::group_to_multiset_ensures;
            broadcast use vstd::multiset::group_multiset_axioms;

            let o2 = out@;
            assert(o2 == out_before.insert(p as int, x));
            assert(out_before.insert(p as int, x).to_multiset() == out_before.to_multiset().insert(
                x,
            ));
            assert(o2.to_multiset().add(src@.to_multiset()) =~= input0.to_multiset());
            assert forall|i: int, j: int| 0 <= i < j < o2.len() implies (
            #[trigger] o2[i]).start <= (#[trigger] o2[j]).start by {
                if i != p && i > p {
                    assert(o2[i] == out_before[i - 1]);
                }
                if i != p && i < p {
                    assert(o2[i] == out_before[i]);
                }
                if j != p && j > p {
                    assert(o2[j] == out_before[j - 1]);
                }
                if j != p && j < p {
                    assert(o2[j] == out_before[j]);
                }
            }
        }
    }
    proof {
        lemma_empty_to_multiset::<ImplicitWeight>();
        assert(src@ =~= Seq::<ImplicitWeight>::empty());
        assert(out@.to_multiset() =~= input0.to_multiset());
    }
    out
}

proof fn lemma_key_lt_irrefl(a: Seq<u32>)
    ensures
        !key_lt(a, a),
    decreases a.len(),
{
    if a.len() > 0 {
        lemma_key_lt_irrefl(a.drop_first());
    }
}

/// Compile parsed lines into a well-formed weight table.  Succeeds
/// exactly on buildable input — unique nonempty entry keys, and
/// nonempty, disjoint, covering implicit-weight ranges with weight
/// head-room — and then holds exactly the declared entries and
/// ranges, sorted, with `max_key_len` the longest key length.
#[verifier::rlimit(100)]
pub fn build_table(kinds: Vec<Kind>) -> (r: Result<WeightTable, BuildError>)
    ensures
        match r {
            Ok(t) => t.wf() && t.entries@.to_multiset() == entries_of(kinds@).to_multiset()
                && t.implicit_weights@.to_multiset() == ranges_of(kinds@).to_multiset()
                && buildable(entries_of(kinds@), ranges_of(kinds@)),
            Err(_) => !buildable(entries_of(kinds@), ranges_of(kinds@)),
        },
{
    broadcast use vstd::seq_lib::group_to_multiset_ensures;
    broadcast use vstd::multiset::group_multiset_axioms;

    let ghost kinds0 = kinds@;
    let ghost es0 = entries_of(kinds0);
    let ghost rs0 = ranges_of(kinds0);
    let mut rest = kinds;
    let mut entries: Vec<Entry> = Vec::new();
    let mut ranges: Vec<ImplicitWeight> = Vec::new();
    proof {
        lemma_empty_to_multiset::<Entry>();
        lemma_empty_to_multiset::<ImplicitWeight>();
        assert(entries@.to_multiset().add(entries_of(rest@).to_multiset()) =~= es0.to_multiset());
        assert(ranges@.to_multiset().add(ranges_of(rest@).to_multiset()) =~= rs0.to_multiset());
    }
    while rest.len() > 0
        invariant
            es0 == entries_of(kinds@),
            rs0 == ranges_of(kinds@),
            entries@.to_multiset().add(entries_of(rest@).to_multiset()) == es0.to_multiset(),
            ranges@.to_multiset().add(ranges_of(rest@).to_multiset()) == rs0.to_multiset(),
        decreases rest@.len(),
    {
        let ghost rest_before = rest@;
        let ghost entries_before = entries@;
        let ghost ranges_before = ranges@;
        let k = match rest.pop() {
            Some(k) => k,
            None => {
                return Err(BuildError::DuplicateKey);
            },
        };
        proof {
            assert(rest@ =~= rest_before.drop_last());
        }
        match k {
            Kind::Entry(e) => {
                entries.push(e);
                proof {
                    broadcast use vstd::seq_lib::group_to_multiset_ensures;
                    broadcast use vstd::multiset::group_multiset_axioms;

                    assert(entries_of(rest_before) == entries_of(rest@).push(e));
                    assert(entries_of(rest@).push(e).to_multiset() == entries_of(
                        rest@,
                    ).to_multiset().insert(e));
                    assert(entries@ == entries_before.push(e));
                    assert(entries_before.push(e).to_multiset()
                        == entries_before.to_multiset().insert(e));
                    assert(entries@.to_multiset().add(entries_of(rest@).to_multiset())
                        =~= es0.to_multiset());
                    assert(ranges_of(rest_before) == ranges_of(rest@));
                }
            },
            Kind::ImplicitWeight(iw) => {
                ranges.push(iw);
                proof {
                    broadcast use vstd::seq_lib::group_to_multiset_ensures;
                    broadcast use vstd::multiset::group_multiset_axioms;

                    assert(ranges_of(rest_before) == ranges_of(rest@).push(iw));
                    assert(ranges_of(rest@).push(iw).to_multiset() == ranges_of(
                        rest@,
                    ).to_multiset().insert(iw));
                    assert(ranges@ == ranges_before.push(iw));
                    assert(ranges_before.push(iw).to_multiset()
                        == ranges_before.to_multiset().insert(iw));
                    assert(ranges@.to_multiset().add(ranges_of(rest@).to_multiset())
                        =~= rs0.to_multiset());
                    assert(entries_of(rest_before) == entries_of(rest@));
                }
            },
            _ => {
                proof {
                    assert(entries_of(rest_before) == entries_of(rest@));
                    assert(ranges_of(rest_before) == ranges_of(rest@));
                }
            },
        }
    }
    proof {
        broadcast use vstd::seq_lib::group_to_multiset_ensures;
        broadcast use vstd::multiset::group_multiset_axioms;

        lemma_empty_to_multiset::<Entry>();
        lemma_empty_to_multiset::<ImplicitWeight>();
        assert(rest@ =~= Seq::<Kind>::empty());
        assert(entries@.to_multiset() =~= es0.to_multiset());
        assert(ranges@.to_multiset() =~= rs0.to_multiset());
    }
    // Entry keys and expansions must be nonempty.
    let ghost entries_unsorted = entries@;
    let mut i: usize = 0;
    while i < entries.len()
        invariant
            es0 == entries_of(kinds@),
            rs0 == ranges_of(kinds@),
            entries@ == entries_unsorted,
            entries@.to_multiset() == es0.to_multiset(),
            i <= entries@.len(),
            forall|j: int| 0 <= j < i ==> (#[trigger] entries@[j]).codepoints@.len() >= 1,
            forall|j: int| 0 <= j < i ==> (#[trigger] entries@[j]).collate_elements@.len() >= 1,
        decreases entries@.len() - i,
    {
        if entries[i].codepoints.len() == 0 {
            proof {
                lemma_mset_index(entries@, es0, i as int);
            }
            return Err(BuildError::EmptyKey);
        }
        if entries[i].collate_elements.len() == 0 {
            proof {
                lemma_mset_index(entries@, es0, i as int);
            }
            return Err(BuildError::EmptyExpansion);
        }
        i += 1;
    }
    // Sort entries; a repeated key is fatal.
    let sorted_entries = match sort_entries(entries) {
        Ok(out) => out,
        Err(e) => {
            proof {
                let (i, j) = choose|i: int, j: int|
                    0 <= i < entries_unsorted.len() && 0 <= j < entries_unsorted.len() && i != j
                        && (#[trigger] entries_unsorted[i]).codepoints@ == (
                    #[trigger] entries_unsorted[j]).codepoints@;
                lemma_mset_two_indices(entries_unsorted, es0, i, j);
            }
            return Err(e);
        },
    };
    proof {
        assert forall|j: int| 0 <= j < sorted_entries@.len() implies (
        #[trigger] sorted_entries@[j]).codepoints@.len() >= 1 && sorted_entries@[j].collate_elements@.len()
            >= 1 by {
            lemma_mset_index(sorted_entries@, entries_unsorted, j);
        }
    }
    // The longest entry key bounds the engine's search window.
    let mut max_key_len: usize = 0;
    let mut i: usize = 0;
    while i < sorted_entries.len()
        invariant
            i <= sorted_entries@.len(),
            forall|j: int| 0 <= j < i ==> (#[trigger] sorted_entries@[j]).codepoints@.len()
                <= max_key_len,
            i == 0 ==> max_key_len == 0,
            i > 0 ==> exists|j: int|
                0 <= j < i && (#[trigger] sorted_entries@[j]).codepoints@.len() == max_key_len,
        decreases sorted_entries@.len() - i,
    {
        if entries_key_len(&sorted_entries, i) > max_key_len || i == 0 {
            max_key_len = entries_key_len(&sorted_entries, i);
        }
        i += 1;
    }
    // Sort ranges and validate each one.
    let rs = sort_ranges(ranges);
    let mut i: usize = 0;
    while i < rs.len()
        invariant
            es0 == entries_of(kinds@),
            rs0 == ranges_of(kinds@),
            rs@.to_multiset() == rs0.to_multiset(),
            i <= rs@.len(),
            forall|j: int| 0 <= j < i ==> (#[trigger] rs@[j]).start < rs@[j].end,
            forall|j: int| 0 <= j < i ==> (#[trigger] rs@[j]).weight + (rs@[j].end - 1
                - rs@[j].start) / (IMPLICIT_SPLIT as int) <= 0xFFFF,
        decreases rs@.len() - i,
    {
        let rg = rs[i];
        if rg.start >= rg.end {
            proof {
                lemma_mset_index(rs@, rs0, i as int);
            }
            return Err(BuildError::BadRange);
        }
        if rg.weight as u32 + (rg.end - 1 - rg.start) / IMPLICIT_SPLIT > 0xFFFF {
            proof {
                lemma_mset_index(rs@, rs0, i as int);
            }
            return Err(BuildError::WeightOverflow);
        }
        i += 1;
    }
    // Disjointness: in start order, each range must end before the
    // next begins.
    let mut i: usize = 1;
    while i < rs.len()
        invariant
            es0 == entries_of(kinds@),
            rs0 == ranges_of(kinds@),
            rs@.to_multiset() == rs0.to_multiset(),
            1 <= i,
            forall|j: int| 0 <= j < rs@.len() ==> (#[trigger] rs@[j]).start < rs@[j].end,
            forall|j: int, k: int| 0 <= j < k < rs@.len() ==> (#[trigger] rs@[j]).start <= (
            #[trigger] rs@[k]).start,
            forall|j: int| 1 <= j < i ==> (#[trigger] rs@[j]).start >= rs@[j - 1].end,
        decreases rs@.len() - i,
    {
        if rs[i].start < rs[i - 1].end {
            proof {
                lemma_mset_two_indices(rs@, rs0, i - 1, i as int);
                let (m, n) = choose|m: int, n: int|
                    0 <= m < rs0.len() && 0 <= n < rs0.len() && m != n && rs0[m] == rs@[i - 1]
                        && rs0[n] == rs@[i as int];
                assert(!ranges_disjoint(rs0[m], rs0[n]));
            }
            return Err(BuildError::OverlappingRanges);
        }
        i += 1;
    }
    // Totality: the sorted ranges must cover every codepoint.
    let mut cover: u32 = 0;
    let mut i: usize = 0;
    while i < rs.len()
        invariant
            es0 == entries_of(kinds@),
            rs0 == ranges_of(kinds@),
            rs@.to_multiset() == rs0.to_multiset(),
            i <= rs@.len(),
            forall|j: int| 0 <= j < rs@.len() ==> (#[trigger] rs@[j]).start < rs@[j].end,
            forall|j: int, k: int| 0 <= j < k < rs@.len() ==> (#[trigger] rs@[j]).start <= (
            #[trigger] rs@[k]).start,
            forall|j: int| 1 <= j < rs@.len() ==> (#[trigger] rs@[j]).start >= rs@[j - 1].end,
            forall|j: int| 0 <= j < i ==> (#[trigger] rs@[j]).end <= cover,
            forall|cp: u32| cp < cover && cp < CODEPOINT_LIMIT ==> #[trigger] covered_by(rs@, cp),
        decreases rs@.len() - i,
    {
        let rg = rs[i];
        if rg.start > cover && cover < CODEPOINT_LIMIT {
            proof {
                let bad = cover;
                assert forall|j: int| 0 <= j < rs@.len() implies !in_range(
                    #[trigger] rs@[j],
                    bad,
                ) by {
                    if j >= i {
                        assert(rs@[j].start >= rs@[i as int].start);
                    }
                }
                assert(!covered_by(rs@, bad));
                if covered_by(rs0, bad) {
                    let m = choose|m: int| 0 <= m < rs0.len() && in_range(#[trigger] rs0[m], bad);
                    lemma_mset_index(rs0, rs@, m);
                    let n = choose|n: int| 0 <= n < rs@.len() && rs@[n] == rs0[m];
                    assert(in_range(rs@[n], bad));
                    assert(false);
                }
            }
            return Err(BuildError::UncoveredCodepoint);
        }
        let ghost cover_before = cover;
        if rg.end > cover {
            cover = rg.end;
        }
        proof {
            assert forall|cp: u32| cp < cover && cp < CODEPOINT_LIMIT implies #[trigger] covered_by(
                rs@,
                cp,
            ) by {
                if cp < cover_before {
                } else {
                    assert(rg.start <= cp < rg.end);
                    assert(in_range(rs@[i as int], cp));
                }
            }
        }
        i += 1;
    }
    if cover < CODEPOINT_LIMIT {
        proof {
            let bad = cover;
            assert forall|j: int| 0 <= j < rs@.len() implies !in_range(
                #[trigger] rs@[j],
                bad,
            ) by {}
            assert(!covered_by(rs@, bad));
            if covered_by(rs0, bad) {
                let m = choose|m: int| 0 <= m < rs0.len() && in_range(#[trigger] rs0[m], bad);
                lemma_mset_index(rs0, rs@, m);
                let n = choose|n: int| 0 <= n < rs@.len() && rs@[n] == rs0[m];
                assert(in_range(rs@[n], bad));
                assert(false);
            }
        }
        return Err(BuildError::UncoveredCodepoint);
    }
    let t = WeightTable { entries: sorted_entries, implicit_weights: rs, max_key_len };
    proof {
        lemma_build_ok(t, es0, rs0);
    }
    Ok(t)
}

#[verifier::rlimit(100)]
proof fn lemma_build_ok(t: WeightTable, es0: Seq<Entry>, rs0: Seq<ImplicitWeight>)
    requires
        t.entries@.to_multiset() == es0.to_multiset(),
        t.implicit_weights@.to_multiset() == rs0.to_multiset(),
        entries_sorted(t.entries@),
        forall|i: int| 0 <= i < t.entries@.len() ==> (#[trigger] t.entries@[i]).codepoints@.len()
            >= 1,
        forall|i: int| 0 <= i < t.entries@.len() ==> (
        #[trigger] t.entries@[i]).collate_elements@.len() >= 1,
        forall|i: int| 0 <= i < t.entries@.len() ==> (#[trigger] t.entries@[i]).codepoints@.len()
            <= t.max_key_len,
        t.entries@.len() == 0 ==> t.max_key_len == 0,
        t.entries@.len() > 0 ==> exists|i: int|
            0 <= i < t.entries@.len() && (#[trigger] t.entries@[i]).codepoints@.len()
                == t.max_key_len,
        forall|i: int| 0 <= i < t.implicit_weights@.len() ==> (
        #[trigger] t.implicit_weights@[i]).start < t.implicit_weights@[i].end,
        forall|i: int| 1 <= i < t.implicit_weights@.len() ==> (
        #[trigger] t.implicit_weights@[i]).start >= t.implicit_weights@[i - 1].end,
        forall|cp: u32| cp < CODEPOINT_LIMIT ==> #[trigger] covered_by(t.implicit_weights@, cp),
        forall|i: int| 0 <= i < t.implicit_weights@.len() ==> (
        #[trigger] t.implicit_weights@[i]).weight + (t.implicit_weights@[i].end - 1
            - t.implicit_weights@[i].start) / (IMPLICIT_SPLIT as int) <= 0xFFFF,
    ensures
        t.wf(),
        buildable(es0, rs0),
{
    assert(t.wf());
    assert forall|i: int, j: int|
        0 <= i < es0.len() && 0 <= j < es0.len() && i != j implies (
    #[trigger] es0[i]).codepoints@ != (#[trigger] es0[j]).codepoints@ by {
        if es0[i].codepoints@ == es0[j].codepoints@ {
            lemma_mset_two_indices(es0, t.entries@, i, j);
            let (m, n) = choose|m: int, n: int|
                0 <= m < t.entries@.len() && 0 <= n < t.entries@.len() && m != n && t.entries@[m]
                    == es0[i] && t.entries@[n] == es0[j];
            if m < n {
                assert(key_lt(t.entries@[m].codepoints@, t.entries@[n].codepoints@));
            } else {
                assert(key_lt(t.entries@[n].codepoints@, t.entries@[m].codepoints@));
            }
            lemma_key_lt_irrefl(es0[i].codepoints@);
            assert(false);
        }
    }
    assert forall|i: int| 0 <= i < es0.len() implies (#[trigger] es0[i]).codepoints@.len() >= 1
        && es0[i].collate_elements@.len() >= 1 by {
        lemma_mset_index(es0, t.entries@, i);
    }
    assert forall|i: int| 0 <= i < rs0.len() implies (#[trigger] rs0[i]).start < rs0[i].end by {
        lemma_mset_index(rs0, t.implicit_weights@, i);
    }
    assert forall|i: int| 0 <= i < rs0.len() implies (#[trigger] rs0[i]).weight + (rs0[i].end - 1
        - rs0[i].start) / (IMPLICIT_SPLIT as int) <= 0xFFFF by {
        lemma_mset_index(rs0, t.implicit_weights@, i);
    }
    assert forall|i: int, j: int|
        0 <= i < rs0.len() && 0 <= j < rs0.len() && i != j implies ranges_disjoint(
        #[trigger] rs0[i],
        #[trigger] rs0[j],
    ) by {
        lemma_mset_two_indices(rs0, t.implicit_weights@, i, j);
        let (m, n) = choose|m: int, n: int|
            0 <= m < t.implicit_weights@.len() && 0 <= n < t.implicit_weights@.len() && m != n
                && t.implicit_weights@[m] == rs0[i] && t.implicit_weights@[n] == rs0[j];
        if m < n {
            crate::table::lemma_chain_ordered(t.implicit_weights@, m, n);
        } else {
            crate::table::lemma_chain_ordered(t.implicit_weights@, n, m);
        }
    }
    assert forall|cp: u32| cp < CODEPOINT_LIMIT implies #[trigger] covered_by(rs0, cp) by {
        assert(covered_by(t.implicit_weights@, cp));
        let m = choose|m: int|
            0 <= m < t.implicit_weights@.len() && in_range(#[trigger] t.implicit_weights@[m], cp);
        lemma_mset_index(t.implicit_weights@, rs0, m);
        let n = choose|n: int| 0 <= n < rs0.len() && rs0[n] == t.implicit_weights@[m];
        assert(in_range(rs0[n], cp));
    }
    assert(buildable(es0, rs0));
}

/// The key length of one entry.
fn entries_key_len(entries: &Vec<Entry>, i: usize) -> (r: usize)
    requires
        i < entries@.len(),
    ensures
        r == entries@[i as int].codepoints@.len(),
{
    entries[i].codepoints.len()
}

} // verus!
