//! Ordering of entries: by name without regard to case, or by
//! modification time, either way stable and optionally reversed; and the
//! fixed alphabetical order in which subdirectories are visited.

use crate::file_info::{FileInfo, Timestamp};
use vstd::multiset::Multiset;
use vstd::prelude::*;
use vstd::relations::{sorted_by, total_ordering};
use vstd::seq_lib::{group_to_multiset_ensures, lemma_multiset_commutative, lemma_sorted_unique};
use vstd::utf8::encode_utf8;

verus! {

/// How a listing is ordered.
#[derive(Clone, Copy, Debug, PartialEq, Eq, Structural)]
pub struct SortConfig {
    /// Order by modification time, newest first, instead of by name.
    pub by_time: bool,
    /// Reverse the order.
    pub reverse: bool,
}

impl SortConfig {
    /// Makes the configuration from the two switches.
    pub fn new(by_time: bool, reverse: bool) -> (config: SortConfig)
        ensures
            config.by_time == by_time,
            config.reverse == reverse,
    {
        SortConfig { by_time, reverse }
    }
}

/// `text` in lower case, as `str::to_lowercase` gives it.
pub uninterp spec fn lowercase_of(text: Seq<char>) -> Seq<char>;

/// `str::to_lowercase`: the text with each character replaced by its
/// lower-case form.
#[verifier::external_body]
fn lowercase(text: &str) -> (lower: String)
    ensures
        lower@ == lowercase_of(text@),
{
    text.to_lowercase()
}

/// Whether `a` comes strictly before `b` byte by byte: at the first
/// position where they differ `a` has the smaller byte, or `a` ends there
/// and `b` goes on.
pub open spec fn bytes_lt(a: Seq<u8>, b: Seq<u8>) -> bool
    decreases a.len(),
{
    if b.len() == 0 {
        false
    } else if a.len() == 0 {
        true
    } else if a[0] != b[0] {
        a[0] < b[0]
    } else {
        bytes_lt(a.drop_first(), b.drop_first())
    }
}

/// No text comes before itself.
pub proof fn lemma_bytes_lt_irreflexive(a: Seq<u8>)
    ensures
        !bytes_lt(a, a),
    decreases a.len(),
{
    if a.len() > 0 {
        lemma_bytes_lt_irreflexive(a.drop_first());
    }
}

/// Of two different texts exactly one comes before the other.
pub proof fn lemma_bytes_lt_total(a: Seq<u8>, b: Seq<u8>)
    ensures
        a != b ==> (bytes_lt(a, b) || bytes_lt(b, a)),
        !(bytes_lt(a, b) && bytes_lt(b, a)),
    decreases a.len(),
{
    if a.len() > 0 && b.len() > 0 {
        if a[0] == b[0] {
            lemma_bytes_lt_total(a.drop_first(), b.drop_first());
            if a.drop_first() == b.drop_first() {
                assert(a =~= seq![a[0]] + a.drop_first());
                assert(b =~= seq![b[0]] + b.drop_first());
            }
        }
    } else if a.len() == 0 && b.len() == 0 {
        assert(a =~= b);
    }
}

/// The byte order is transitive.
pub proof fn lemma_bytes_lt_transitive(a: Seq<u8>, b: Seq<u8>, c: Seq<u8>)
    requires
        bytes_lt(a, b),
        bytes_lt(b, c),
    ensures
        bytes_lt(a, c),
    decreases a.len(),
{
    if a.len() > 0 && a[0] == b[0] && b[0] == c[0] {
        lemma_bytes_lt_transitive(a.drop_first(), b.drop_first(), c.drop_first());
    }
}

/// How one item stands to another in an order.
#[derive(Clone, Copy, Debug, PartialEq, Eq, Structural)]
pub enum Standing {
    Before,
    Level,
    After,
}

/// Compares two byte strings byte by byte.
pub fn compare_bytes(a: &[u8], b: &[u8]) -> (standing: Standing)
    ensures
        standing == Standing::Before <==> bytes_lt(a@, b@),
        standing == Standing::After <==> bytes_lt(b@, a@),
        standing == Standing::Level <==> a@ == b@,
{
    let mut i: usize = 0;
    proof {
        assert(a@.skip(0) =~= a@);
        assert(b@.skip(0) =~= b@);
        assert(a@.subrange(0, 0) =~= b@.subrange(0, 0));
    }
    while i < a.len() && i < b.len()
        invariant
            i <= a.len(),
            i <= b.len(),
            a@.subrange(0, i as int) == b@.subrange(0, i as int),
            bytes_lt(a@, b@) == bytes_lt(a@.skip(i as int), b@.skip(i as int)),
            bytes_lt(b@, a@) == bytes_lt(b@.skip(i as int), a@.skip(i as int)),
        decreases a.len() - i,
    {
        proof {
            assert(a@.skip(i as int).drop_first() =~= a@.skip(i + 1));
            assert(b@.skip(i as int).drop_first() =~= b@.skip(i + 1));
            assert(a@.skip(i as int)[0] == a@[i as int]);
            assert(b@.skip(i as int)[0] == b@[i as int]);
        }
        if a[i] < b[i] {
            proof {
                assert(a@.subrange(0, i + 1)[i as int] != b@.subrange(0, i + 1)[i as int]);
                lemma_differ(a@, b@, i as int);
            }
            return Standing::Before;
        }
        if a[i] > b[i] {
            proof {
                lemma_differ(a@, b@, i as int);
            }
            return Standing::After;
        }
        proof {
            assert(a@.subrange(0, i + 1) =~= a@.subrange(0, i as int).push(a@[i as int]));
            assert(b@.subrange(0, i + 1) =~= b@.subrange(0, i as int).push(b@[i as int]));
        }
        i = i + 1;
    }
    proof {
        assert(a@.skip(i as int).len() == a.len() - i);
        assert(b@.skip(i as int).len() == b.len() - i);
        if a.len() == b.len() {
            assert(a@ =~= a@.subrange(0, i as int));
            assert(b@ =~= b@.subrange(0, i as int));
        }
    }
    if a.len() < b.len() {
        Standing::Before
    } else if a.len() > b.len() {
        Standing::After
    } else {
        Standing::Level
    }
}

proof fn lemma_differ(a: Seq<u8>, b: Seq<u8>, i: int)
    requires
        0 <= i < a.len(),
        0 <= i < b.len(),
        a[i] != b[i],
    ensures
        a != b,
{
}

/// Whether `before` is a strict order in which being level is transitive:
/// nothing stands before itself, and both standing before and not standing
/// before carry over a middle item.
pub open spec fn strict_weak_order<T>(before: spec_fn(T, T) -> bool) -> bool {
    &&& forall|a: T| !#[trigger] before(a, a)
    &&& forall|a: T, b: T, c: T| #[trigger] before(a, b) && #[trigger] before(b, c) ==> before(a, c)
    &&& forall|a: T, b: T, c: T|
        !#[trigger] before(a, b) && !#[trigger] before(b, c) ==> !before(a, c)
}

/// Whether the item at `i` stands at or before the item at `j` once the
/// items are ordered by `before` and items that are level keep their
/// places.
pub open spec fn stands_before<T>(
    items: Seq<T>,
    before: spec_fn(T, T) -> bool,
    i: int,
    j: int,
) -> bool {
    before(items[i], items[j]) || (!before(items[j], items[i]) && i <= j)
}

/// [`stands_before`] as a relation on positions.
pub open spec fn index_order<T>(items: Seq<T>, before: spec_fn(T, T) -> bool) -> spec_fn(
    int,
    int,
) -> bool {
    |i: int, j: int| stands_before(items, before, i, j)
}

/// The positions `lo`, `lo + 1`, ..., `hi - 1`.
pub open spec fn index_range(lo: int, hi: int) -> Seq<int> {
    Seq::new((hi - lo) as nat, |k: int| lo + k)
}

/// The stable order of `items` by `before`: the positions of the items,
/// each once, in the order in which the items are to stand.
pub open spec fn stable_order<T>(items: Seq<T>, before: spec_fn(T, T) -> bool) -> Seq<int> {
    index_range(0, items.len() as int).sort_by(index_order(items, before))
}

/// The items found at the positions `order`, in that order.
pub open spec fn arranged<T>(items: Seq<T>, order: Seq<int>) -> Seq<T> {
    Seq::new(order.len(), |k: int| items[order[k]])
}

/// `items` in stable order by `before`.
pub open spec fn stable_sorted<T>(items: Seq<T>, before: spec_fn(T, T) -> bool) -> Seq<T> {
    arranged(items, stable_order(items, before))
}

/// With a strict weak order, standing at or before is a total order of
/// the positions.
pub proof fn lemma_index_order_total<T>(items: Seq<T>, before: spec_fn(T, T) -> bool)
    requires
        strict_weak_order(before),
    ensures
        total_ordering(index_order(items, before)),
{
    let r = index_order(items, before);
    assert forall|x: int| #[trigger] r(x, x) by {
        assert(!before(items[x], items[x]));
    }
    assert forall|x: int, y: int| #[trigger] r(x, y) && #[trigger] r(y, x) implies x == y by {
        if before(items[x], items[y]) && before(items[y], items[x]) {
            assert(before(items[x], items[x]));
        }
    }
    assert forall|x: int, y: int, z: int| #[trigger] r(x, y) && #[trigger] r(y, z) implies r(
        x,
        z,
    ) by {
        lemma_stands_before_transitive(items, before, x, y, z);
    }
    assert forall|x: int, y: int| #[trigger] r(x, y) || #[trigger] r(y, x) by {}
}

/// Standing at or before carries over a middle position.
pub proof fn lemma_stands_before_transitive<T>(
    items: Seq<T>,
    before: spec_fn(T, T) -> bool,
    x: int,
    y: int,
    z: int,
)
    requires
        strict_weak_order(before),
        stands_before(items, before, x, y),
        stands_before(items, before, y, z),
    ensures
        stands_before(items, before, x, z),
{
    let a = items[x];
    let b = items[y];
    let c = items[z];
    assert(!before(a, a) && !before(b, b) && !before(c, c));
    if before(a, b) {
        if before(b, c) {
            assert(before(a, c));
        } else {
            // b and c are level: were a not before c, then a not before b.
            assert(!before(c, b));
            if !before(a, c) {
                assert(!before(a, b));
            }
        }
    } else {
        assert(!before(b, a));
        if before(b, c) {
            if !before(a, c) {
                // a not before c and b not before a give b not before c.
                assert(!before(b, c));
            }
        } else {
            assert(!before(c, b));
            assert(!before(a, c));
            assert(!before(c, a));
        }
    }
}

/// What an entry is ordered by: a text, compared byte by byte, or a time.
pub struct SortKey {
    pub text: String,
    pub time: Timestamp,
}

/// Whether the item with key `a` must stand before the one with key `b`:
/// by time the later one stands first, by text the one that comes first
/// byte by byte; reversed, the other way round.
pub open spec fn key_before(a: SortKey, b: SortKey, by_time: bool, reverse: bool) -> bool {
    let x = if reverse { b } else { a };
    let y = if reverse { a } else { b };
    if by_time {
        y.time.is_before(x.time)
    } else {
        bytes_lt(encode_utf8(x.text@), encode_utf8(y.text@))
    }
}

/// [`key_before`] as a relation on keys.
pub open spec fn key_order(by_time: bool, reverse: bool) -> spec_fn(SortKey, SortKey) -> bool {
    |a: SortKey, b: SortKey| key_before(a, b, by_time, reverse)
}

/// The order of keys is a strict weak order.
pub proof fn lemma_key_order_strict_weak(by_time: bool, reverse: bool)
    ensures
        strict_weak_order(key_order(by_time, reverse)),
{
    let before = key_order(by_time, reverse);
    assert forall|a: SortKey| !#[trigger] before(a, a) by {
        lemma_bytes_lt_irreflexive(encode_utf8(a.text@));
    }
    assert forall|a: SortKey, b: SortKey, c: SortKey| #[trigger]
        before(a, b) && #[trigger] before(b, c) implies before(a, c) by {
        if !by_time {
            let x = encode_utf8(a.text@);
            let y = encode_utf8(b.text@);
            let z = encode_utf8(c.text@);
            if reverse {
                lemma_bytes_lt_transitive(z, y, x);
            } else {
                lemma_bytes_lt_transitive(x, y, z);
            }
        }
    }
    assert forall|a: SortKey, b: SortKey, c: SortKey|
        !#[trigger] before(a, b) && !#[trigger] before(b, c) implies !before(a, c) by {
        if !by_time {
            let x = encode_utf8(a.text@);
            let y = encode_utf8(b.text@);
            let z = encode_utf8(c.text@);
            if reverse {
                lemma_bytes_not_lt_transitive(z, y, x);
            } else {
                lemma_bytes_not_lt_transitive(x, y, z);
            }
        }
    }
}

/// Not coming before carries over a middle text.
pub proof fn lemma_bytes_not_lt_transitive(a: Seq<u8>, b: Seq<u8>, c: Seq<u8>)
    requires
        !bytes_lt(a, b),
        !bytes_lt(b, c),
    ensures
        !bytes_lt(a, c),
{
    lemma_bytes_lt_total(a, b);
    lemma_bytes_lt_total(b, c);
    if bytes_lt(a, c) {
        if a != b {
            lemma_bytes_lt_transitive(b, a, c);
        }
    }
}

/// How the item with key `a` stands to the one with key `b`.
pub fn key_standing(a: &SortKey, b: &SortKey, by_time: bool, reverse: bool) -> (standing: Standing)
    ensures
        standing == Standing::Before <==> key_before(*a, *b, by_time, reverse),
        standing == Standing::After <==> key_before(*b, *a, by_time, reverse),
{
    let forward = if by_time {
        if b.time.before(&a.time) {
            Standing::Before
        } else if a.time.before(&b.time) {
            Standing::After
        } else {
            Standing::Level
        }
    } else {
        compare_bytes(a.text.as_str().as_bytes(), b.text.as_str().as_bytes())
    };
    if reverse {
        match forward {
            Standing::Before => Standing::After,
            Standing::Level => Standing::Level,
            Standing::After => Standing::Before,
        }
    } else {
        forward
    }
}

/// Positions as mathematical integers.
pub open spec fn ints(positions: Seq<usize>) -> Seq<int> {
    positions.map_values(|i: usize| i as int)
}

fn position_stands_before(
    keys: &Vec<SortKey>,
    by_time: bool,
    reverse: bool,
    i: usize,
    j: usize,
) -> (b: bool)
    requires
        i < keys.len(),
        j < keys.len(),
    ensures
        b == stands_before(keys@, key_order(by_time, reverse), i as int, j as int),
{
    match key_standing(&keys[i], &keys[j], by_time, reverse) {
        Standing::Before => true,
        Standing::After => false,
        Standing::Level => i <= j,
    }
}

/// Merges two runs of positions, each in order, into one.
fn merge_runs(
    keys: &Vec<SortKey>,
    by_time: bool,
    reverse: bool,
    left: &Vec<usize>,
    right: &Vec<usize>,
) -> (out: Vec<usize>)
    requires
        forall|k: int| 0 <= k < left.len() ==> left[k] < keys.len(),
        forall|k: int| 0 <= k < right.len() ==> right[k] < keys.len(),
        sorted_by(ints(left@), index_order(keys@, key_order(by_time, reverse))),
        sorted_by(ints(right@), index_order(keys@, key_order(by_time, reverse))),
        left.len() + right.len() <= usize::MAX,
    ensures
        out.len() == left.len() + right.len(),
        forall|k: int| 0 <= k < out.len() ==> out[k] < keys.len(),
        sorted_by(ints(out@), index_order(keys@, key_order(by_time, reverse))),
        ints(out@).to_multiset() == ints(left@).to_multiset().add(ints(right@).to_multiset()),
{
    let ghost rel = index_order(keys@, key_order(by_time, reverse));
    let ghost before = key_order(by_time, reverse);
    let mut out: Vec<usize> = Vec::new();
    let mut i: usize = 0;
    let mut j: usize = 0;
    proof {
        lemma_key_order_strict_weak(by_time, reverse);
        assert(ints(left@.subrange(0, 0)) =~= Seq::<int>::empty());
        assert(ints(right@.subrange(0, 0)) =~= Seq::<int>::empty());
        assert(ints(out@) =~= Seq::<int>::empty());
        lemma_multiset_commutative(Seq::<int>::empty(), Seq::<int>::empty());
        assert(Seq::<int>::empty() + Seq::<int>::empty() =~= Seq::<int>::empty());
        assert(ints(out@).to_multiset() =~= ints(left@.subrange(0, 0)).to_multiset().add(
            ints(right@.subrange(0, 0)).to_multiset(),
        ));
    }
    while i < left.len() || j < right.len()
        invariant
            i <= left.len(),
            j <= right.len(),
            out.len() == i + j,
            left.len() + right.len() <= usize::MAX,
            rel == index_order(keys@, key_order(by_time, reverse)),
            before == key_order(by_time, reverse),
            strict_weak_order(before),
            forall|k: int| 0 <= k < left.len() ==> left[k] < keys.len(),
            forall|k: int| 0 <= k < right.len() ==> right[k] < keys.len(),
            forall|k: int| 0 <= k < out.len() ==> out[k] < keys.len(),
            sorted_by(ints(left@), rel),
            sorted_by(ints(right@), rel),
            sorted_by(ints(out@), rel),
            forall|k: int, a: int|
                0 <= k < out.len() && i <= a < left.len() ==> stands_before(
                    keys@,
                    before,
                    #[trigger] out[k] as int,
                    #[trigger] left[a] as int,
                ),
            forall|k: int, a: int|
                0 <= k < out.len() && j <= a < right.len() ==> stands_before(
                    keys@,
                    before,
                    #[trigger] out[k] as int,
                    #[trigger] right[a] as int,
                ),
            ints(out@).to_multiset() == ints(left@.subrange(0, i as int)).to_multiset().add(
                ints(right@.subrange(0, j as int)).to_multiset(),
            ),
        decreases left.len() - i + (right.len() - j),
    {
        let take_left = if i >= left.len() {
            false
        } else if j >= right.len() {
            true
        } else {
            position_stands_before(keys, by_time, reverse, left[i], right[j])
        };
        let ghost old_out = out@;
        if take_left {
            let x = left[i];
            out.push(x);
            proof {
                assert(ints(out@) =~= ints(old_out).push(x as int));
                assert(ints(left@.subrange(0, i + 1)) =~= ints(left@.subrange(0, i as int)).push(
                    x as int,
                ));
                broadcast use group_to_multiset_ensures;

                assert(ints(out@).to_multiset() =~= ints(
                    left@.subrange(0, i + 1),
                ).to_multiset().add(ints(right@.subrange(0, j as int)).to_multiset()));
                assert forall|p: int, q: int| 0 <= p < q < ints(out@).len() implies rel(
                    ints(out@)[p],
                    ints(out@)[q],
                ) by {
                    if q < old_out.len() {
                        assert(rel(ints(old_out)[p], ints(old_out)[q]));
                    } else {
                        assert(stands_before(keys@, before, old_out[p] as int, left[i as int] as int));
                    }
                }
                assert forall|k: int, a: int|
                    0 <= k < out.len() && i + 1 <= a < left.len() implies stands_before(
                    keys@,
                    before,
                    #[trigger] out[k] as int,
                    #[trigger] left[a] as int,
                ) by {
                    if k == old_out.len() {
                        assert(rel(ints(left@)[i as int], ints(left@)[a]));
                    }
                }
                assert forall|k: int, a: int|
                    0 <= k < out.len() && j <= a < right.len() implies stands_before(
                    keys@,
                    before,
                    #[trigger] out[k] as int,
                    #[trigger] right[a] as int,
                ) by {
                    if k == old_out.len() {
                        if a > j {
                            assert(rel(ints(right@)[j as int], ints(right@)[a]));
                            lemma_stands_before_transitive(
                                keys@,
                                before,
                                x as int,
                                right[j as int] as int,
                                right[a] as int,
                            );
                        }
                    }
                }
            }
            i = i + 1;
        } else {
            let x = right[j];
            out.push(x);
            proof {
                assert(ints(out@) =~= ints(old_out).push(x as int));
                assert(ints(right@.subrange(0, j + 1)) =~= ints(
                    right@.subrange(0, j as int),
                ).push(x as int));
                broadcast use group_to_multiset_ensures;

                assert(ints(out@).to_multiset() =~= ints(
                    left@.subrange(0, i as int),
                ).to_multiset().add(ints(right@.subrange(0, j + 1)).to_multiset()));
                assert forall|p: int, q: int| 0 <= p < q < ints(out@).len() implies rel(
                    ints(out@)[p],
                    ints(out@)[q],
                ) by {
                    if q < old_out.len() {
                        assert(rel(ints(old_out)[p], ints(old_out)[q]));
                    } else {
                        assert(stands_before(
                            keys@,
                            before,
                            old_out[p] as int,
                            right[j as int] as int,
                        ));
                    }
                }
                assert forall|k: int, a: int|
                    0 <= k < out.len() && j + 1 <= a < right.len() implies stands_before(
                    keys@,
                    before,
                    #[trigger] out[k] as int,
                    #[trigger] right[a] as int,
                ) by {
                    if k == old_out.len() {
                        assert(rel(ints(right@)[j as int], ints(right@)[a]));
                    }
                }
                assert forall|k: int, a: int|
                    0 <= k < out.len() && i <= a < left.len() implies stands_before(
                    keys@,
                    before,
                    #[trigger] out[k] as int,
                    #[trigger] left[a] as int,
                ) by {
                    if k == old_out.len() {
                        assert(stands_before(keys@, before, x as int, left[i as int] as int));
                        if a > i {
                            assert(rel(ints(left@)[i as int], ints(left@)[a]));
                            lemma_stands_before_transitive(
                                keys@,
                                before,
                                x as int,
                                left[i as int] as int,
                                left[a] as int,
                            );
                        }
                    }
                }
            }
            j = j + 1;
        }
    }
    proof {
        assert(left@.subrange(0, i as int) =~= left@);
        assert(right@.subrange(0, j as int) =~= right@);
    }
    out
}

/// The positions `lo..hi` in the stable order of their keys.
fn sorted_range(keys: &Vec<SortKey>, by_time: bool, reverse: bool, lo: usize, hi: usize) -> (out:
    Vec<usize>)
    requires
        lo <= hi <= keys.len(),
    ensures
        out.len() == hi - lo,
        forall|k: int| 0 <= k < out.len() ==> out[k] < keys.len(),
        sorted_by(ints(out@), index_order(keys@, key_order(by_time, reverse))),
        ints(out@).to_multiset() == index_range(lo as int, hi as int).to_multiset(),
    decreases hi - lo,
{
    let mut out: Vec<usize> = Vec::new();
    if hi - lo == 0 {
        proof {
            assert(ints(out@) =~= index_range(lo as int, hi as int));
        }
        out
    } else if hi - lo == 1 {
        out.push(lo);
        proof {
            assert(ints(out@) =~= index_range(lo as int, hi as int));
        }
        out
    } else {
        let mid = lo + (hi - lo) / 2;
        let left = sorted_range(keys, by_time, reverse, lo, mid);
        let right = sorted_range(keys, by_time, reverse, mid, hi);
        proof {
            assert(index_range(lo as int, hi as int) =~= index_range(lo as int, mid as int)
                + index_range(mid as int, hi as int));
            lemma_multiset_commutative(
                index_range(lo as int, mid as int),
                index_range(mid as int, hi as int),
            );
        }
        merge_runs(keys, by_time, reverse, &left, &right)
    }
}

/// A sequence that holds each of the positions `0..n` once has no
/// position twice and none outside `0..n`.
pub proof fn lemma_positions_once(order: Seq<int>, n: nat)
    requires
        order.to_multiset() == index_range(0, n as int).to_multiset(),
    ensures
        order.len() == n,
        order.no_duplicates(),
        forall|k: int| 0 <= k < order.len() ==> 0 <= #[trigger] order[k] < n,
        forall|i: int| 0 <= i < n ==> order.contains(i),
{
    broadcast use group_to_multiset_ensures;

    let range = index_range(0, n as int);
    assert(order.len() == order.to_multiset().len());
    assert(range.len() == range.to_multiset().len());
    assert(range.no_duplicates());
    range.lemma_multiset_has_no_duplicates();
    order.lemma_multiset_has_no_duplicates_conv();
    assert forall|k: int| 0 <= k < order.len() implies 0 <= #[trigger] order[k] < n by {
        assert(order.contains(order[k]));
        assert(order.to_multiset().count(order[k]) > 0);
        assert(range.to_multiset().count(order[k]) > 0);
        assert(range.contains(order[k]));
        let w = choose|w: int| 0 <= w < range.len() && range[w] == order[k];
        assert(range[w] == w);
    }
    assert forall|i: int| 0 <= i < n implies order.contains(i) by {
        assert(range[i] == i);
        assert(range.contains(i));
        assert(range.to_multiset().count(i) > 0);
        assert(order.to_multiset().count(i) > 0);
    }
}

/// Moves the items into the order given by `order`, which holds each
/// position once.
fn arrange<T>(items: &mut Vec<T>, order: &Vec<usize>)
    requires
        ints(order@).to_multiset() == index_range(0, old(items).len() as int).to_multiset(),
    ensures
        final(items)@ == arranged(old(items)@, ints(order@)),
{
    let n = items.len();
    let ghost start = items@;
    proof {
        lemma_positions_once(ints(order@), n as nat);
    }
    let mut slots: Vec<Option<T>> = Vec::new();
    while items.len() > 0
        invariant
            slots.len() + items.len() == n,
            start.len() == n,
            items@ == start.subrange(0, n - slots.len()),
            forall|k: int| 0 <= k < slots.len() ==> #[trigger] slots[k] == Some(start[n - 1 - k]),
        decreases items.len(),
    {
        let x = items.pop().unwrap();
        slots.push(Some(x));
        proof {
            assert(items@ =~= start.subrange(0, n - slots.len()));
        }
    }
    let mut i: usize = 0;
    while i < n
        invariant
            i <= n,
            slots.len() == n,
            start.len() == n,
            order.len() == n,
            ints(order@).no_duplicates(),
            forall|k: int| 0 <= k < order.len() ==> 0 <= #[trigger] ints(order@)[k] < n,
            items@ == arranged(start, ints(order@)).subrange(0, i as int),
            forall|pos: int|
                0 <= pos < n && (forall|k: int| 0 <= k < i ==> ints(order@)[k] != pos)
                    ==> #[trigger] slots[n - 1 - pos] == Some(start[pos]),
        decreases n - i,
    {
        let pos = order[i];
        proof {
            assert(ints(order@)[i as int] == pos);
            assert forall|k: int| 0 <= k < i implies ints(order@)[k] != pos by {
                assert(ints(order@)[k] != ints(order@)[i as int]);
            }
            assert(slots[n - 1 - pos] == Some(start[pos as int]));
        }
        let ghost held = slots@;
        slots.push(None);
        let found = slots.swap_remove(n - 1 - pos);
        let x = found.unwrap();
        items.push(x);
        proof {
            assert(slots@ =~= held.update(n - 1 - pos, None));
            assert(items@ =~= arranged(start, ints(order@)).subrange(0, i + 1));
            assert forall|q: int|
                0 <= q < n && (forall|k: int| 0 <= k < i + 1 ==> ints(order@)[k] != q)
                    implies #[trigger] slots[n - 1 - q] == Some(start[q]) by {
                assert(ints(order@)[i as int] != q);
                assert(forall|k: int| 0 <= k < i ==> ints(order@)[k] != q);
                assert(held[n - 1 - q] == Some(start[q]));
            }
        }
        i = i + 1;
    }
    proof {
        assert(items@ =~= arranged(start, ints(order@)));
    }
}

/// An order of positions found through keys is the stable order of the
/// items, where the keys stand to each other as the items do.
pub proof fn lemma_order_by_keys<K, T>(
    order: Seq<int>,
    keys: Seq<K>,
    key_before: spec_fn(K, K) -> bool,
    items: Seq<T>,
    before: spec_fn(T, T) -> bool,
)
    requires
        keys.len() == items.len(),
        strict_weak_order(before),
        sorted_by(order, index_order(keys, key_before)),
        order.to_multiset() == index_range(0, items.len() as int).to_multiset(),
        forall|i: int, j: int|
            0 <= i < items.len() && 0 <= j < items.len() ==> #[trigger] key_before(
                keys[i],
                keys[j],
            ) == before(items[i], items[j]),
    ensures
        order == stable_order(items, before),
{
    let n = items.len();
    let rel = index_order(items, before);
    let krel = index_order(keys, key_before);
    lemma_positions_once(order, n);
    assert forall|p: int, q: int| 0 <= p < q < order.len() implies #[trigger] rel(
        order[p],
        order[q],
    ) by {
        assert(krel(order[p], order[q]));
        assert(key_before(keys[order[p]], keys[order[q]]) == before(
            items[order[p]],
            items[order[q]],
        ));
        assert(key_before(keys[order[q]], keys[order[p]]) == before(
            items[order[q]],
            items[order[p]],
        ));
    }
    lemma_index_order_total(items, before);
    index_range(0, n as int).lemma_sort_by_ensures(rel);
    lemma_sorted_unique(order, stable_order(items, before), rel);
}

/// Whether `a` must stand before `b` in a listing ordered by `config`.
/// By name, the lower-case forms of the base names are compared byte by
/// byte; by time, the entry modified later stands first. Reversed, the
/// other way round. Entries of which neither must stand before the other
/// are level.
pub open spec fn display_precedes(a: FileInfo, b: FileInfo, config: SortConfig) -> bool {
    let x = if config.reverse { b } else { a };
    let y = if config.reverse { a } else { b };
    if config.by_time {
        y.modified_time_spec().is_before(x.modified_time_spec())
    } else {
        bytes_lt(
            encode_utf8(lowercase_of(x.file_name@)),
            encode_utf8(lowercase_of(y.file_name@)),
        )
    }
}

/// [`display_precedes`] as a relation on entries.
pub open spec fn display_order(config: SortConfig) -> spec_fn(FileInfo, FileInfo) -> bool {
    |a: FileInfo, b: FileInfo| display_precedes(a, b, config)
}

/// Whether `a` is visited before `b`: its base name comes first byte by
/// byte, with regard to case.
pub open spec fn visit_precedes(a: FileInfo, b: FileInfo) -> bool {
    bytes_lt(encode_utf8(a.file_name@), encode_utf8(b.file_name@))
}

/// The base name of an entry byte by byte.
pub open spec fn name_bytes() -> spec_fn(FileInfo) -> Seq<u8> {
    |info: FileInfo| encode_utf8(info.file_name@)
}

/// Whether `a` comes at or before `b` byte by byte.
pub open spec fn bytes_le() -> spec_fn(Seq<u8>, Seq<u8>) -> bool {
    |a: Seq<u8>, b: Seq<u8>| !bytes_lt(b, a)
}

/// The byte order is a total order.
pub proof fn lemma_bytes_le_total()
    ensures
        total_ordering(bytes_le()),
{
    let le = bytes_le();
    assert forall|a: Seq<u8>| #[trigger] le(a, a) by {
        lemma_bytes_lt_irreflexive(a);
    }
    assert forall|a: Seq<u8>, b: Seq<u8>| #[trigger] le(a, b) && #[trigger] le(b, a) implies a
        == b by {
        lemma_bytes_lt_total(a, b);
    }
    assert forall|a: Seq<u8>, b: Seq<u8>, c: Seq<u8>| #[trigger]
        le(a, b) && #[trigger] le(b, c) implies le(a, c) by {
        lemma_bytes_not_lt_transitive(c, b, a);
    }
    assert forall|a: Seq<u8>, b: Seq<u8>| #[trigger] le(a, b) || #[trigger] le(b, a) by {
        lemma_bytes_lt_total(a, b);
    }
}

/// [`visit_precedes`] as a relation on entries.
pub open spec fn visit_order() -> spec_fn(FileInfo, FileInfo) -> bool {
    |a: FileInfo, b: FileInfo| visit_precedes(a, b)
}

/// The entries that the references point to.
pub open spec fn pointees(refs: Seq<&FileInfo>) -> Seq<FileInfo> {
    refs.map_values(|r: &FileInfo| *r)
}

/// The display order is a strict weak order.
pub proof fn lemma_display_order_strict_weak(config: SortConfig)
    ensures
        strict_weak_order(display_order(config)),
{
    let before = display_order(config);
    assert forall|a: FileInfo| !#[trigger] before(a, a) by {
        lemma_bytes_lt_irreflexive(encode_utf8(lowercase_of(a.file_name@)));
    }
    assert forall|a: FileInfo, b: FileInfo, c: FileInfo| #[trigger]
        before(a, b) && #[trigger] before(b, c) implies before(a, c) by {
        if !config.by_time {
            let x = encode_utf8(lowercase_of(a.file_name@));
            let y = encode_utf8(lowercase_of(b.file_name@));
            let z = encode_utf8(lowercase_of(c.file_name@));
            if config.reverse {
                lemma_bytes_lt_transitive(z, y, x);
            } else {
                lemma_bytes_lt_transitive(x, y, z);
            }
        }
    }
    assert forall|a: FileInfo, b: FileInfo, c: FileInfo|
        !#[trigger] before(a, b) && !#[trigger] before(b, c) implies !before(a, c) by {
        if !config.by_time {
            let x = encode_utf8(lowercase_of(a.file_name@));
            let y = encode_utf8(lowercase_of(b.file_name@));
            let z = encode_utf8(lowercase_of(c.file_name@));
            if config.reverse {
                lemma_bytes_not_lt_transitive(z, y, x);
            } else {
                lemma_bytes_not_lt_transitive(x, y, z);
            }
        }
    }
}

/// The visiting order is a strict weak order.
pub proof fn lemma_visit_order_strict_weak()
    ensures
        strict_weak_order(visit_order()),
{
    let before = visit_order();
    assert forall|a: FileInfo| !#[trigger] before(a, a) by {
        lemma_bytes_lt_irreflexive(encode_utf8(a.file_name@));
    }
    assert forall|a: FileInfo, b: FileInfo, c: FileInfo| #[trigger]
        before(a, b) && #[trigger] before(b, c) implies before(a, c) by {
        lemma_bytes_lt_transitive(
            encode_utf8(a.file_name@),
            encode_utf8(b.file_name@),
            encode_utf8(c.file_name@),
        );
    }
    assert forall|a: FileInfo, b: FileInfo, c: FileInfo|
        !#[trigger] before(a, b) && !#[trigger] before(b, c) implies !before(a, c) by {
        lemma_bytes_not_lt_transitive(
            encode_utf8(a.file_name@),
            encode_utf8(b.file_name@),
            encode_utf8(c.file_name@),
        );
    }
}

/// The keys by which a listing is ordered: the lower-case names, or the
/// modification times.
fn display_keys(entries: &Vec<FileInfo>, by_time: bool) -> (keys: Vec<SortKey>)
    ensures
        keys.len() == entries.len(),
        forall|i: int|
            0 <= i < keys.len() ==> if by_time {
                (#[trigger] keys[i]).time == entries[i].modified_time_spec()
            } else {
                keys[i].text@ == lowercase_of(entries[i].file_name@)
            },
{
    let mut keys: Vec<SortKey> = Vec::new();
    let mut i: usize = 0;
    while i < entries.len()
        invariant
            i <= entries.len(),
            keys.len() == i,
            forall|k: int|
                0 <= k < keys.len() ==> if by_time {
                    (#[trigger] keys[k]).time == entries[k].modified_time_spec()
                } else {
                    keys[k].text@ == lowercase_of(entries[k].file_name@)
                },
        decreases entries.len() - i,
    {
        let key = if by_time {
            SortKey { text: String::new(), time: entries[i].modified_time() }
        } else {
            SortKey { text: lowercase(entries[i].file_name.as_str()), time: Timestamp::epoch() }
        };
        keys.push(key);
        i = i + 1;
    }
    keys
}

/// Orders the entries of a listing in place: by name without regard to
/// case, or by modification time with the newest first; reversed if the
/// configuration says so. Entries that are level keep the order in which
/// they came.
pub fn sort_entries(entries: &mut Vec<FileInfo>, config: &SortConfig)
    ensures
        final(entries)@ == stable_sorted(old(entries)@, display_order(*config)),
{
    let keys = display_keys(entries, config.by_time);
    let order = sorted_range(&keys, config.by_time, config.reverse, 0, keys.len());
    proof {
        lemma_display_order_strict_weak(*config);
        lemma_order_by_keys(
            ints(order@),
            keys@,
            key_order(config.by_time, config.reverse),
            entries@,
            display_order(*config),
        );
    }
    arrange(entries, &order);
}

fn visit_keys(dirs: &Vec<&FileInfo>) -> (keys: Vec<SortKey>)
    ensures
        keys.len() == dirs.len(),
        forall|i: int| 0 <= i < keys.len() ==> (#[trigger] keys[i]).text@ == dirs[i].file_name@,
{
    let mut keys: Vec<SortKey> = Vec::new();
    let mut i: usize = 0;
    while i < dirs.len()
        invariant
            i <= dirs.len(),
            keys.len() == i,
            forall|k: int| 0 <= k < keys.len() ==> (#[trigger] keys[k]).text@ == dirs[k].file_name@,
        decreases dirs.len() - i,
    {
        keys.push(SortKey { text: dirs[i].file_name.clone(), time: Timestamp::epoch() });
        i = i + 1;
    }
    keys
}

/// Orders directories for visiting: by base name, byte by byte and with
/// regard to case, whatever order they came in.
pub fn sort_directories<'a>(dirs: &mut Vec<&'a FileInfo>)
    ensures
        pointees(final(dirs)@) == stable_sorted(pointees(old(dirs)@), visit_order()),
{
    let keys = visit_keys(dirs);
    let order = sorted_range(&keys, false, false, 0, keys.len());
    proof {
        lemma_visit_order_strict_weak();
        lemma_order_by_keys(
            ints(order@),
            keys@,
            key_order(false, false),
            pointees(dirs@),
            visit_order(),
        );
    }
    let ghost start = dirs@;
    arrange(dirs, &order);
    proof {
        assert(pointees(dirs@) =~= arranged(pointees(start), ints(order@)));
    }
}

/// Arranging items by positions that are each taken once gives the same
/// items, each as often as before.
pub proof fn lemma_arranged_multiset<T>(items: Seq<T>, order: Seq<int>)
    requires
        order.len() == items.len(),
        order.no_duplicates(),
        forall|k: int| 0 <= k < order.len() ==> 0 <= #[trigger] order[k] < items.len(),
    ensures
        arranged(items, order).to_multiset() == items.to_multiset(),
    decreases items.len(),
{
    broadcast use group_to_multiset_ensures;

    let n = items.len();
    let out = arranged(items, order);
    if n == 0 {
        assert(out =~= items);
    } else {
        let j = order.last();
        let fewer = items.remove(j);
        let shifted = Seq::new(
            (n - 1) as nat,
            |k: int|
                if order[k] > j {
                    order[k] - 1
                } else {
                    order[k]
                },
        );
        assert forall|k: int| 0 <= k < shifted.len() implies 0 <= #[trigger] shifted[k]
            < fewer.len() by {
            assert(order[k] != order[n - 1]);
        }
        assert forall|a: int, b: int|
            0 <= a < shifted.len() && 0 <= b < shifted.len() && a != b implies shifted[a]
            != shifted[b] by {
            assert(order[a] != order[b]);
            assert(order[a] != order[n - 1]);
            assert(order[b] != order[n - 1]);
        }
        lemma_arranged_multiset(fewer, shifted);
        assert(arranged(fewer, shifted) =~= out.drop_last()) by {
            assert forall|k: int| 0 <= k < n - 1 implies arranged(fewer, shifted)[k] == out[k] by {
                assert(order[k] != order[n - 1]);
            }
        }
        assert(out =~= out.drop_last().push(items[j]));
        assert(out.to_multiset() =~= out.drop_last().to_multiset().insert(items[j]));
        assert(fewer.to_multiset() =~= items.to_multiset().remove(items[j]));
        assert(items.to_multiset().count(items[j]) > 0) by {
            assert(items.contains(items[j]));
        }
        assert(out.to_multiset() =~= items.to_multiset());
    }
}

/// What is counted of a sequence piece by piece depends only on which
/// items the sequence holds and how often, not on their order.
pub proof fn lemma_counted_alike<A, B>(
    first: Seq<A>,
    second: Seq<A>,
    counted: spec_fn(Seq<A>) -> Multiset<B>,
)
    requires
        first.to_multiset() == second.to_multiset(),
        forall|a: Seq<A>, b: Seq<A>| #[trigger] counted(a + b) == counted(a).add(counted(b)),
    ensures
        counted(first) == counted(second),
    decreases first.len(),
{
    broadcast use group_to_multiset_ensures;

    assert(first.len() == first.to_multiset().len());
    assert(second.len() == second.to_multiset().len());
    if first.len() == 0 {
        assert(first =~= second);
    } else {
        let x = first.last();
        let front = first.drop_last();
        assert(first =~= front.push(x));
        assert(first.to_multiset().count(x) > 0) by {
            assert(first.contains(x));
        }
        assert(second.contains(x));
        let i = choose|i: int| 0 <= i < second.len() && second[i] == x;
        let others = second.remove(i);
        assert(front.to_multiset() =~= first.to_multiset().remove(x)) by {
            assert(front =~= first.remove(first.len() - 1));
        }
        assert(others.to_multiset() =~= second.to_multiset().remove(x));
        lemma_counted_alike(front, others, counted);
        let head = second.take(i);
        let tail = second.skip(i + 1);
        assert(first =~= front + seq![x]);
        assert(second =~= (head + seq![x]) + tail);
        assert(others =~= head + tail);
        assert(counted(first) == counted(front).add(counted(seq![x])));
        assert(counted(head + seq![x]) == counted(head).add(counted(seq![x])));
        assert(counted(second) == counted(head + seq![x]).add(counted(tail)));
        assert(counted(others) == counted(head).add(counted(tail)));
        assert(counted(first) =~= counted(second));
    }
}

/// Sequences that hold the same items keep holding the same items when
/// both are filtered.
pub proof fn lemma_filtered_alike<A>(first: Seq<A>, second: Seq<A>, keep: spec_fn(A) -> bool)
    requires
        first.to_multiset() == second.to_multiset(),
    ensures
        first.filter(keep).to_multiset() == second.filter(keep).to_multiset(),
{
    let counted = |s: Seq<A>| s.filter(keep).to_multiset();
    assert forall|a: Seq<A>, b: Seq<A>| #[trigger] counted(a + b) == counted(a).add(counted(b)) by {
        Seq::filter_distributes_over_add(a, b, keep);
        lemma_multiset_commutative(a.filter(keep), b.filter(keep));
    }
    lemma_counted_alike(first, second, counted);
}

/// Sequences that hold the same items give the same values when a
/// function is applied to each item of both.
pub proof fn lemma_mapped_alike<A, B>(first: Seq<A>, second: Seq<A>, f: spec_fn(A) -> B)
    requires
        first.to_multiset() == second.to_multiset(),
    ensures
        first.map_values(f).to_multiset() == second.map_values(f).to_multiset(),
{
    let counted = |s: Seq<A>| s.map_values(f).to_multiset();
    assert forall|a: Seq<A>, b: Seq<A>| #[trigger] counted(a + b) == counted(a).add(counted(b)) by {
        assert((a + b).map_values(f) =~= a.map_values(f) + b.map_values(f));
        lemma_multiset_commutative(a.map_values(f), b.map_values(f));
    }
    lemma_counted_alike(first, second, counted);
}

/// What a stable order is: it holds each position once; the items come
/// out so that none must stand before an earlier one; and of two items
/// that are level, the one that came first stands first.
pub proof fn lemma_stable_order<T>(items: Seq<T>, before: spec_fn(T, T) -> bool)
    requires
        strict_weak_order(before),
    ensures
        stable_order(items, before).to_multiset() == index_range(
            0,
            items.len() as int,
        ).to_multiset(),
        stable_sorted(items, before).len() == items.len(),
        stable_sorted(items, before).to_multiset() == items.to_multiset(),
        forall|a: int, b: int|
            0 <= a < b < items.len() ==> !before(
                #[trigger] stable_sorted(items, before)[b],
                #[trigger] stable_sorted(items, before)[a],
            ),
        forall|a: int, b: int|
            0 <= a < b < items.len() && !before(
                stable_sorted(items, before)[a],
                stable_sorted(items, before)[b],
            ) ==> #[trigger] stable_order(items, before)[a] < #[trigger] stable_order(
                items,
                before,
            )[b],
{
    let n = items.len();
    let rel = index_order(items, before);
    let order = stable_order(items, before);
    let out = stable_sorted(items, before);
    lemma_index_order_total(items, before);
    index_range(0, n as int).lemma_sort_by_ensures(rel);
    lemma_positions_once(order, n);
    lemma_arranged_multiset(items, order);
    assert forall|a: int, b: int| 0 <= a < b < n implies !before(#[trigger] out[b], #[trigger] out[a])
        && (!before(out[a], out[b]) ==> order[a] < order[b]) by {
        assert(rel(order[a], order[b]));
        assert(out[a] == items[order[a]]);
        assert(out[b] == items[order[b]]);
        assert(order[a] != order[b]);
        if before(items[order[b]], items[order[a]]) {
            assert(before(items[order[a]], items[order[b]]));
            assert(before(items[order[a]], items[order[a]]));
        }
    }
}

/// Ordering what is in order changes nothing: ordering twice gives what
/// ordering once gives.
pub proof fn lemma_stable_sorted_idempotent<T>(items: Seq<T>, before: spec_fn(T, T) -> bool)
    requires
        strict_weak_order(before),
    ensures
        stable_sorted(stable_sorted(items, before), before) == stable_sorted(items, before),
{
    let once = stable_sorted(items, before);
    let n = once.len();
    let rel = index_order(once, before);
    let range = index_range(0, n as int);
    lemma_stable_order(items, before);
    assert forall|p: int, q: int| 0 <= p < q < range.len() implies #[trigger] rel(
        range[p],
        range[q],
    ) by {
        assert(!before(once[q], once[p]));
    }
    lemma_index_order_total(once, before);
    range.lemma_sort_by_ensures(rel);
    lemma_sorted_unique(range, stable_order(once, before), rel);
    assert(arranged(once, range) =~= once);
}

/// Ordering a listing twice gives what ordering it once gives.
pub proof fn lemma_sort_entries_idempotent(entries: Seq<FileInfo>, config: SortConfig)
    ensures
        stable_sorted(stable_sorted(entries, display_order(config)), display_order(config))
            == stable_sorted(entries, display_order(config)),
{
    lemma_display_order_strict_weak(config);
    lemma_stable_sorted_idempotent(entries, display_order(config));
}

/// Ordering a listing is stable. The ordered listing holds the entries of
/// the old one, each once, at the positions `stable_order` names; no entry
/// must stand before an earlier one; and entries that are level stand in
/// the order in which they came.
pub proof fn lemma_sort_entries_stable(entries: Seq<FileInfo>, config: SortConfig)
    ensures
        ({
            let order = stable_order(entries, display_order(config));
            let sorted = stable_sorted(entries, display_order(config));
            &&& sorted.len() == entries.len()
            &&& sorted.to_multiset() == entries.to_multiset()
            &&& order.to_multiset() == index_range(0, entries.len() as int).to_multiset()
            &&& forall|k: int| 0 <= k < sorted.len() ==> #[trigger] sorted[k] == entries[order[k]]
            &&& forall|a: int, b: int|
                0 <= a < b < sorted.len() ==> !display_precedes(
                    #[trigger] sorted[b],
                    #[trigger] sorted[a],
                    config,
                )
            &&& forall|a: int, b: int|
                0 <= a < b < sorted.len() && !display_precedes(sorted[a], sorted[b], config)
                    ==> #[trigger] order[a] < #[trigger] order[b]
        }),
{
    lemma_display_order_strict_weak(config);
    lemma_stable_order(entries, display_order(config));
    let before = display_order(config);
    let sorted = stable_sorted(entries, before);
    assert forall|a: int, b: int| 0 <= a < b < sorted.len() implies !display_precedes(
        #[trigger] sorted[b],
        #[trigger] sorted[a],
        config,
    ) by {
        assert(!before(sorted[b], sorted[a]));
    }
}

/// By name, entries whose names differ only by case are level: neither
/// must stand before the other, so they keep the order in which they came.
pub proof fn lemma_case_is_ignored(a: FileInfo, b: FileInfo, reverse: bool)
    requires
        lowercase_of(a.file_name@) == lowercase_of(b.file_name@),
    ensures
        !display_precedes(a, b, SortConfig { by_time: false, reverse }),
        !display_precedes(b, a, SortConfig { by_time: false, reverse }),
{
    lemma_bytes_lt_irreflexive(encode_utf8(lowercase_of(a.file_name@)));
}

/// By time, a listing runs from the newest entry to the oldest; reversed,
/// from the oldest to the newest.
pub proof fn lemma_time_order(entries: Seq<FileInfo>, reverse: bool)
    ensures
        ({
            let sorted = stable_sorted(
                entries,
                display_order(SortConfig { by_time: true, reverse }),
            );
            forall|a: int, b: int|
                0 <= a < b < sorted.len() ==> if reverse {
                    !(#[trigger] sorted[b]).modified_time_spec().is_before(
                        (#[trigger] sorted[a]).modified_time_spec(),
                    )
                } else {
                    !sorted[a].modified_time_spec().is_before(sorted[b].modified_time_spec())
                }
        }),
{
    let config = SortConfig { by_time: true, reverse };
    lemma_sort_entries_stable(entries, config);
    let sorted = stable_sorted(entries, display_order(config));
    assert forall|a: int, b: int| 0 <= a < b < sorted.len() implies if reverse {
        !(#[trigger] sorted[b]).modified_time_spec().is_before(
            (#[trigger] sorted[a]).modified_time_spec(),
        )
    } else {
        !sorted[a].modified_time_spec().is_before(sorted[b].modified_time_spec())
    } by {
        assert(!display_precedes(sorted[b], sorted[a], config));
    }
}

} // verus!
