//! A time-sorted event index: the sorted list of `(timestamp, handle)`
//! entries behind the store's range queries.

use vstd::prelude::*;

verus! {

/// A handle to one event of a trace: an index into its bio list or into
/// its syscall list.
#[derive(Debug, Clone, Copy, PartialEq, Eq, Structural)]
pub enum EventIndex {
    Bio(usize),
    Syscall(usize),
}

/// Entries are in ascending key order.
pub open spec fn index_sorted(s: Seq<(i64, EventIndex)>) -> bool {
    forall|i: int, j: int|
        0 <= i < j < s.len() ==> (#[trigger] s[i]).0 <= (#[trigger] s[j]).0
}

/// Some entry carries the given handle.
pub open spec fn index_has(s: Seq<(i64, EventIndex)>, h: EventIndex) -> bool {
    exists|j: int| 0 <= j < s.len() && (#[trigger] s[j]).1 == h
}

/// Inserts an entry, keeping the entries sorted by key.  The entries
/// afterwards are exactly the old ones plus the new one.
pub fn index_insert(v: &mut Vec<(i64, EventIndex)>, key: i64, h: EventIndex)
    requires
        index_sorted(old(v)@),
        old(v)@.len() < usize::MAX,
    ensures
        index_sorted(final(v)@),
        final(v)@.len() == old(v)@.len() + 1,
        forall|x: (i64, EventIndex)|
            #[trigger] final(v)@.contains(x) <==> (old(v)@.contains(x) || x == (key, h)),
{
    let ghost s0 = v@;
    let mut lo: usize = 0;
    let mut hi: usize = v.len();
    while lo < hi
        invariant
            lo <= hi <= v@.len(),
            v@ == s0,
            forall|i: int| 0 <= i < lo ==> (#[trigger] v@[i]).0 <= key,
            forall|i: int| hi <= i < v@.len() ==> key < (#[trigger] v@[i]).0,
            index_sorted(v@),
        decreases hi - lo,
    {
        let mid = lo + (hi - lo) / 2;
        if v[mid].0 <= key {
            lo = mid + 1;
        } else {
            hi = mid;
        }
    }
    v.insert(lo, (key, h));
    proof {
        s0.insert_ensures(lo as int, (key, h));
        let s1 = v@;
        assert forall|i: int, j: int| 0 <= i < j < s1.len() implies (#[trigger] s1[i]).0
            <= (#[trigger] s1[j]).0 by {
            let li = lo as int;
            if i < li && j < li {
            } else if i < li && j == li {
            } else if i < li && j > li {
                assert(s1[j] == s0[j - 1]);
            } else if i == li {
                assert(s1[j] == s0[j - 1]);
            } else {
                assert(s1[i] == s0[i - 1]);
                assert(s1[j] == s0[j - 1]);
            }
        }
        assert forall|x: (i64, EventIndex)| #[trigger]
            s1.contains(x) <==> (s0.contains(x) || x == (key, h)) by {
            let li = lo as int;
            if s1.contains(x) {
                let j = choose|j: int| 0 <= j < s1.len() && s1[j] == x;
                if j < li {
                    assert(s0[j] == x);
                } else if j == li {
                } else {
                    assert(s0[j - 1] == x);
                }
            }
            if s0.contains(x) {
                let j = choose|j: int| 0 <= j < s0.len() && s0[j] == x;
                if j < li {
                    assert(s1[j] == x);
                } else {
                    assert(s1[j + 1] == x);
                }
            }
            if x == (key, h) {
                assert(s1[li] == x);
            }
        }
    }
}

/// After an insert described by `index_insert`'s contract, the new
/// handle is present and every previously present handle still is.
pub proof fn lemma_index_has_after_insert(
    s0: Seq<(i64, EventIndex)>,
    s1: Seq<(i64, EventIndex)>,
    key: i64,
    h: EventIndex,
)
    requires
        forall|x: (i64, EventIndex)| #[trigger] s1.contains(x) <==> (s0.contains(x) || x == (key, h)),
    ensures
        index_has(s1, h),
        forall|h2: EventIndex| #[trigger] index_has(s0, h2) ==> index_has(s1, h2),
{
    assert(s1.contains((key, h)));
    let j = choose|j: int| 0 <= j < s1.len() && s1[j] == (key, h);
    assert(s1[j].1 == h);
    assert forall|h2: EventIndex| #[trigger] index_has(s0, h2) implies index_has(s1, h2) by {
        let k = choose|k: int| 0 <= k < s0.len() && (#[trigger] s0[k]).1 == h2;
        let x = s0[k];
        assert(s0.contains(x));
        assert(s1.contains(x));
        let k2 = choose|k2: int| 0 <= k2 < s1.len() && s1[k2] == x;
        assert(s1[k2].1 == h2);
    }
}

/// Collects the handles of every entry whose key lies in `[a, b]`: a
/// binary search for the first key at or above `a`, then a forward scan
/// to the last key at or below `b`.
pub fn index_range(v: &Vec<(i64, EventIndex)>, a: i128, b: i128) -> (r: Vec<EventIndex>)
    requires
        index_sorted(v@),
    ensures
        forall|h: EventIndex|
            #[trigger] r@.contains(h) <==> exists|j: int|
                0 <= j < v@.len() && (#[trigger] v@[j]).1 == h && a <= v@[j].0 <= b,
{
    let mut lo: usize = 0;
    let mut hi: usize = v.len();
    while lo < hi
        invariant
            lo <= hi <= v@.len(),
            forall|i: int| 0 <= i < lo ==> ((#[trigger] v@[i]).0 as int) < a,
            forall|i: int| hi <= i < v@.len() ==> a <= ((#[trigger] v@[i]).0 as int),
            index_sorted(v@),
        decreases hi - lo,
    {
        let mid = lo + (hi - lo) / 2;
        if (v[mid].0 as i128) < a {
            lo = mid + 1;
        } else {
            hi = mid;
        }
    }
    let first = lo;
    let mut r: Vec<EventIndex> = Vec::new();
    let mut j = first;
    while j < v.len() && (v[j].0 as i128) <= b
        invariant
            first <= j <= v@.len(),
            index_sorted(v@),
            forall|i: int| 0 <= i < first ==> ((#[trigger] v@[i]).0 as int) < a,
            forall|i: int| first <= i < v@.len() ==> a <= ((#[trigger] v@[i]).0 as int),
            forall|i: int| first <= i < j ==> ((#[trigger] v@[i]).0 as int) <= b,
            forall|h: EventIndex|
                #[trigger] r@.contains(h) <==> exists|i: int|
                    first <= i < j && (#[trigger] v@[i]).1 == h,
        decreases v@.len() - j,
    {
        let ghost r0 = r@;
        r.push(v[j].1);
        proof {
            assert forall|h: EventIndex| #[trigger]
                r@.contains(h) <==> exists|i: int|
                    first <= i < j + 1 && (#[trigger] v@[i]).1 == h by {
                if r@.contains(h) {
                    let k = choose|k: int| 0 <= k < r@.len() && r@[k] == h;
                    if k < r0.len() {
                        assert(r0.contains(h));
                    } else {
                        assert(v@[j as int].1 == h);
                    }
                }
                if exists|i: int| first <= i < j + 1 && (#[trigger] v@[i]).1 == h {
                    let i = choose|i: int| first <= i < j + 1 && (#[trigger] v@[i]).1 == h;
                    if i < j {
                        assert(r0.contains(h));
                        let k = choose|k: int| 0 <= k < r0.len() && r0[k] == h;
                        assert(r@[k] == h);
                    } else {
                        assert(r@[r@.len() - 1] == h);
                    }
                }
            }
        }
        j = j + 1;
    }
    proof {
        assert forall|h: EventIndex| #[trigger]
            r@.contains(h) <==> exists|i: int|
                0 <= i < v@.len() && (#[trigger] v@[i]).1 == h && a <= v@[i].0 <= b by {
            if r@.contains(h) {
                let i = choose|i: int| first <= i < j && (#[trigger] v@[i]).1 == h;
                assert(0 <= i < v@.len() && v@[i].1 == h && a <= v@[i].0 <= b);
            }
            if exists|i: int|
                0 <= i < v@.len() && (#[trigger] v@[i]).1 == h && a <= v@[i].0 <= b {
                let i = choose|i: int|
                    0 <= i < v@.len() && (#[trigger] v@[i]).1 == h && a <= v@[i].0 <= b;
                assert(first <= i);
                if j < v@.len() && i > j {
                    assert(v@[j as int].0 <= v@[i].0);
                }
                assert(i < j);
            }
        }
    }
    r
}

} // verus!
