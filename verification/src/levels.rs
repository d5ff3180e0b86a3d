//! Per-channel quantization levels: `k` evenly spaced values in [0, 255],
//! and nearest-level lookup by binary search with ties resolved toward the
//! lower level.

use vstd::prelude::*;
use vstd::arithmetic::div_mod::{
    lemma_basic_div, lemma_div_is_ordered, lemma_div_plus_one,
    lemma_fundamental_div_mod_converse_div,
};

verus! {

/// Level `i` of a `k`-level table: `round(i * 255 / (k - 1))`, written with
/// integer arithmetic as `floor((510 * i + (k - 1)) / (2 * (k - 1)))`.
pub open spec fn level_value(k: int, i: int) -> int
    recommends
        2 <= k,
        0 <= i < k,
{
    (510 * i + (k - 1)) / (2 * (k - 1))
}

/// The whole `k`-level table.
pub open spec fn levels_seq(k: int) -> Seq<u8> {
    Seq::new(k as nat, |i: int| level_value(k, i) as u8)
}

/// Absolute distance between a channel value and a level.
pub open spec fn dist(v: int, l: int) -> int {
    if v >= l {
        v - l
    } else {
        l - v
    }
}

/// Strictly ascending order, the shape every level table has.
pub open spec fn strictly_increasing(s: Seq<u8>) -> bool {
    forall|i: int, j: int| 0 <= i < j < s.len() ==> s[i] < s[j]
}

/// The level closest to `v`, scanning front to back and keeping the earlier
/// level on ties; on an ascending table that resolves ties toward the lower
/// level.
pub open spec fn nearest_in(levels: Seq<u8>, v: u8) -> u8
    recommends
        levels.len() >= 1,
    decreases levels.len(),
{
    if levels.len() <= 1 {
        levels[0]
    } else {
        let rest = nearest_in(levels.drop_first(), v);
        if dist(v as int, levels[0] as int) <= dist(v as int, rest as int) {
            levels[0]
        } else {
            rest
        }
    }
}

/// What `nearest_in` returns is a table entry at minimal distance, and any
/// entry at the same distance is no lower.
pub proof fn lemma_nearest_in_characterization(levels: Seq<u8>, v: u8)
    requires
        levels.len() >= 1,
        strictly_increasing(levels),
    ensures
        levels.contains(nearest_in(levels, v)),
        forall|j: int| 0 <= j < levels.len()
            ==> dist(v as int, nearest_in(levels, v) as int) <= dist(v as int, #[trigger] levels[j] as int),
        forall|j: int| 0 <= j < levels.len()
            && dist(v as int, #[trigger] levels[j] as int) == dist(v as int, nearest_in(levels, v) as int)
            ==> nearest_in(levels, v) <= levels[j],
    decreases levels.len(),
{
    let r = nearest_in(levels, v);
    if levels.len() <= 1 {
        assert(levels.contains(r)) by {
            assert(levels[0] == r);
        }
    } else {
        let tail = levels.drop_first();
        assert(strictly_increasing(tail)) by {
            assert forall|i: int, j: int| 0 <= i < j < tail.len()
                implies #[trigger] tail[i] < #[trigger] tail[j] by {
                assert(tail[i] == levels[i + 1]);
                assert(tail[j] == levels[j + 1]);
            }
        }
        lemma_nearest_in_characterization(tail, v);
        let rest = nearest_in(tail, v);
        let ti = choose|ti: int| 0 <= ti < tail.len() && tail[ti] == rest;
        assert(levels[ti + 1] == rest);
        if dist(v as int, levels[0] as int) <= dist(v as int, rest as int) {
            assert(r == levels[0]);
            assert(levels.contains(r)) by {
                assert(levels[0] == r);
            }
            assert forall|j: int| 0 <= j < levels.len()
                implies dist(v as int, r as int) <= dist(v as int, #[trigger] levels[j] as int) by {
                if j > 0 {
                    assert(levels[j] == tail[j - 1]);
                }
            }
            assert forall|j: int| 0 <= j < levels.len()
                && dist(v as int, #[trigger] levels[j] as int) == dist(v as int, r as int)
                implies r <= levels[j] by {
                if j > 0 {
                    assert(levels[0] < levels[j]);
                }
            }
        } else {
            assert(r == rest);
            assert(levels.contains(r)) by {
                assert(levels[ti + 1] == r);
            }
            assert forall|j: int| 0 <= j < levels.len()
                implies dist(v as int, r as int) <= dist(v as int, #[trigger] levels[j] as int) by {
                if j > 0 {
                    assert(levels[j] == tail[j - 1]);
                }
            }
            assert forall|j: int| 0 <= j < levels.len()
                && dist(v as int, #[trigger] levels[j] as int) == dist(v as int, r as int)
                implies r <= levels[j] by {
                if j > 0 {
                    assert(levels[j] == tail[j - 1]);
                }
            }
        }
    }
}

/// The characterization pins the value: two entries at minimal distance that
/// both lose ties upward must be the same entry.
pub proof fn lemma_nearest_unique(levels: Seq<u8>, v: u8, a: u8, b: u8)
    requires
        levels.contains(a),
        levels.contains(b),
        forall|j: int| 0 <= j < levels.len()
            ==> dist(v as int, a as int) <= dist(v as int, #[trigger] levels[j] as int),
        forall|j: int| 0 <= j < levels.len()
            && dist(v as int, #[trigger] levels[j] as int) == dist(v as int, a as int)
            ==> a <= levels[j],
        forall|j: int| 0 <= j < levels.len()
            ==> dist(v as int, b as int) <= dist(v as int, #[trigger] levels[j] as int),
        forall|j: int| 0 <= j < levels.len()
            && dist(v as int, #[trigger] levels[j] as int) == dist(v as int, b as int)
            ==> b <= levels[j],
    ensures
        a == b,
{
    let ia = choose|ia: int| 0 <= ia < levels.len() && levels[ia] == a;
    let ib = choose|ib: int| 0 <= ib < levels.len() && levels[ib] == b;
    assert(dist(v as int, a as int) <= dist(v as int, levels[ib] as int));
    assert(dist(v as int, b as int) <= dist(v as int, levels[ia] as int));
    assert(dist(v as int, a as int) == dist(v as int, b as int));
    assert(a <= levels[ib]);
    assert(b <= levels[ia]);
}

/// Levels strictly increase with the index.
proof fn lemma_level_value_increasing(k: int, i: int, j: int)
    requires
        2 <= k <= 255,
        0 <= i < j < k,
    ensures
        level_value(k, i) < level_value(k, j),
    decreases j - i,
{
    let d = 2 * (k - 1);
    if j == i + 1 {
        assert(510 * j + (k - 1) == (510 * i + (k - 1)) + 510);
        assert((510 * i + (k - 1) + d) / d == 1 + (510 * i + (k - 1)) / d) by {
            lemma_div_plus_one(510 * i + (k - 1), d);
        }
        assert((510 * i + (k - 1) + d) / d <= (510 * j + (k - 1)) / d) by {
            lemma_div_is_ordered(510 * i + (k - 1) + d, 510 * j + (k - 1), d);
        }
    } else {
        lemma_level_value_increasing(k, i, j - 1);
        lemma_level_value_increasing(k, j - 1, j);
    }
}

/// The first level is 0, the last is 255, and every level is in range.
proof fn lemma_level_value_range(k: int, i: int)
    requires
        2 <= k <= 255,
        0 <= i < k,
    ensures
        0 <= level_value(k, i) <= 255,
        i == 0 ==> level_value(k, i) == 0,
        i == k - 1 ==> level_value(k, i) == 255,
{
    let d = 2 * (k - 1);
    assert(level_value(k, 0) == 0) by {
        lemma_basic_div(k - 1, d);
    }
    assert(level_value(k, k - 1) == 255) by {
        assert(510 * (k - 1) + (k - 1) == 255 * d + (k - 1));
        lemma_fundamental_div_mod_converse_div(510 * (k - 1) + (k - 1), d, 255, k - 1);
    }
    if i > 0 {
        lemma_level_value_increasing(k, 0, i);
    }
    if i < k - 1 {
        lemma_level_value_increasing(k, i, k - 1);
    }
}

/// A table of `k` evenly spaced quantization levels for one channel.
pub struct LevelTable {
    pub levels: Vec<u8>,
}

impl LevelTable {
    /// A well-formed table is nonempty and strictly ascending.
    pub open spec fn wf(&self) -> bool {
        self.levels@.len() >= 1 && strictly_increasing(self.levels@)
    }

    /// Builds the `k` levels `round(i * 255 / (k - 1))`: strictly increasing,
    /// starting at 0 and ending at 255.
    pub fn build(k: u8) -> (r: LevelTable)
        requires
            k >= 2,
        ensures
            r.wf(),
            r.levels@ == levels_seq(k as int),
            r.levels@.len() == k,
            r.levels@[0] == 0,
            r.levels@[k - 1] == 255,
    {
        let mut levels: Vec<u8> = Vec::new();
        let denom: u32 = 2 * (k as u32 - 1);
        let mut i: u32 = 0;
        while i < k as u32
            invariant
                2 <= k <= 255,
                denom == 2 * (k - 1),
                0 <= i <= k,
                levels@.len() == i,
                forall|j: int| 0 <= j < i ==> levels@[j] == level_value(k as int, j) as u8,
            decreases k - i,
        {
            let num: u32 = 510 * i + (k as u32 - 1);
            let q: u32 = num / denom;
            proof {
                lemma_level_value_range(k as int, i as int);
            }
            levels.push(q as u8);
            i = i + 1;
        }
        proof {
            assert(levels@ =~= levels_seq(k as int)) by {
                assert(forall|j: int| 0 <= j < k
                    ==> #[trigger] levels@[j] == level_value(k as int, j) as u8);
            }
            assert forall|i: int, j: int| 0 <= i < j < k
                implies #[trigger] levels@[i] < #[trigger] levels@[j] by {
                lemma_level_value_range(k as int, i);
                lemma_level_value_range(k as int, j);
                lemma_level_value_increasing(k as int, i, j);
            }
            lemma_level_value_range(k as int, 0);
            lemma_level_value_range(k as int, k as int - 1);
        }
        LevelTable { levels }
    }

    /// The table entry closest to `value`; no entry is strictly closer, and a
    /// tie between two neighboring levels resolves to the lower one.
    pub fn nearest(&self, value: u8) -> (r: u8)
        requires
            self.wf(),
        ensures
            r == nearest_in(self.levels@, value),
            self.levels@.contains(r),
            forall|j: int| 0 <= j < self.levels@.len()
                ==> dist(value as int, r as int) <= dist(value as int, #[trigger] self.levels@[j] as int),
            forall|j: int| 0 <= j < self.levels@.len()
                && dist(value as int, #[trigger] self.levels@[j] as int) == dist(value as int, r as int)
                ==> r <= self.levels@[j],
    {
        let ghost s = self.levels@;
        let n = self.levels.len();
        let r: u8;
        if value <= self.levels[0] {
            r = self.levels[0];
            proof {
                assert forall|j: int| 0 <= j < n
                    implies dist(value as int, r as int) <= dist(value as int, #[trigger] s[j] as int) by {
                    assert(j > 0 ==> s[0] < s[j]);
                }
                assert forall|j: int| 0 <= j < n
                    && dist(value as int, #[trigger] s[j] as int) == dist(value as int, r as int)
                    implies r <= s[j] by {
                    assert(j > 0 ==> s[0] < s[j]);
                }
            }
        } else if value >= self.levels[n - 1] {
            r = self.levels[n - 1];
            proof {
                assert forall|j: int| 0 <= j < n
                    implies dist(value as int, r as int) <= dist(value as int, #[trigger] s[j] as int) by {
                    assert(j < n - 1 ==> s[j] < s[n - 1]);
                }
                assert forall|j: int| 0 <= j < n
                    && dist(value as int, #[trigger] s[j] as int) == dist(value as int, r as int)
                    implies r <= s[j] by {
                    assert(j < n - 1 ==> s[j] < s[n - 1]);
                }
            }
        } else {
            // levels[0] < value < levels[n - 1]: narrow to two neighbors.
            let mut lo: usize = 0;
            let mut hi: usize = n - 1;
            while hi - lo > 1
                invariant
                    self.wf(),
                    s == self.levels@,
                    n == s.len(),
                    0 <= lo < hi < n,
                    s[lo as int] <= value,
                    value < s[hi as int],
                decreases hi - lo,
            {
                let mid = lo + (hi - lo) / 2;
                if self.levels[mid] <= value {
                    lo = mid;
                } else {
                    hi = mid;
                }
            }
            let prev = self.levels[lo];
            let next = self.levels[lo + 1];
            if prev == value {
                r = prev;
                proof {
                    assert forall|j: int| 0 <= j < n
                        implies dist(value as int, r as int) <= dist(value as int, #[trigger] s[j] as int) by {}
                    assert forall|j: int| 0 <= j < n
                        && dist(value as int, #[trigger] s[j] as int) == dist(value as int, r as int)
                        implies r <= s[j] by {
                        assert(dist(value as int, s[j] as int) == 0 ==> s[j] == value);
                    }
                }
            } else if value - prev <= next - value {
                r = prev;
                proof {
                    lemma_nearest_bounds(s, value, lo as int);
                    assert forall|j: int| 0 <= j < n
                        implies dist(value as int, r as int) <= dist(value as int, #[trigger] s[j] as int) by {
                        if j <= lo {
                            assert(dist(value as int, s[j] as int) >= value - s[lo as int]);
                        } else {
                            assert(dist(value as int, s[j] as int) >= s[lo + 1] as int - value);
                        }
                    }
                    assert forall|j: int| 0 <= j < n
                        && dist(value as int, #[trigger] s[j] as int) == dist(value as int, r as int)
                        implies r <= s[j] by {
                        if j <= lo {
                            assert(j == lo);
                        } else {
                            assert(s[j] >= s[lo + 1]) by {
                                assert(j > lo + 1 ==> s[lo + 1] < s[j]);
                            }
                        }
                    }
                }
            } else {
                r = next;
                proof {
                    lemma_nearest_bounds(s, value, lo as int);
                    assert forall|j: int| 0 <= j < n
                        implies dist(value as int, r as int) <= dist(value as int, #[trigger] s[j] as int) by {
                        if j <= lo {
                            assert(dist(value as int, s[j] as int) >= value - s[lo as int]);
                        } else {
                            assert(dist(value as int, s[j] as int) >= s[lo + 1] as int - value);
                        }
                    }
                    assert forall|j: int| 0 <= j < n
                        && dist(value as int, #[trigger] s[j] as int) == dist(value as int, r as int)
                        implies r <= s[j] by {
                        if j <= lo {
                            assert(dist(value as int, s[j] as int) >= value - s[lo as int]);
                        } else {
                            assert(j == lo + 1);
                        }
                    }
                }
            }
        }
        proof {
            lemma_nearest_in_characterization(s, value);
            lemma_nearest_unique(s, value, r, nearest_in(s, value));
        }
        r
    }
}

/// Inside the table, every entry left of `lo` is at least as far from `value`
/// as `levels[lo]`, and every entry right of `lo + 1` at least as far as
/// `levels[lo + 1]`.
proof fn lemma_nearest_bounds(s: Seq<u8>, value: u8, lo: int)
    requires
        strictly_increasing(s),
        0 <= lo,
        lo + 1 < s.len(),
        s[lo] < value,
        value < s[lo + 1],
    ensures
        forall|j: int| 0 <= j <= lo
            ==> dist(value as int, #[trigger] s[j] as int) >= value - s[lo],
        forall|j: int| lo + 1 <= j < s.len()
            ==> dist(value as int, #[trigger] s[j] as int) >= s[lo + 1] - value,
        forall|j: int| 0 <= j <= lo && dist(value as int, #[trigger] s[j] as int) == value - s[lo]
            ==> j == lo,
        forall|j: int| lo + 1 <= j < s.len()
            && dist(value as int, #[trigger] s[j] as int) == s[lo + 1] - value
            ==> j == lo + 1,
{
    assert forall|j: int| 0 <= j <= lo
        implies dist(value as int, #[trigger] s[j] as int) >= value - s[lo] by {
        assert(j < lo ==> s[j] < s[lo]);
    }
    assert forall|j: int| lo + 1 <= j < s.len()
        implies dist(value as int, #[trigger] s[j] as int) >= s[lo + 1] - value by {
        assert(j > lo + 1 ==> s[lo + 1] < s[j]);
    }
    assert forall|j: int| 0 <= j <= lo && dist(value as int, #[trigger] s[j] as int) == value - s[lo]
        implies j == lo by {
        assert(j < lo ==> s[j] < s[lo]);
    }
    assert forall|j: int| lo + 1 <= j < s.len()
        && dist(value as int, #[trigger] s[j] as int) == s[lo + 1] - value
        implies j == lo + 1 by {
        assert(j > lo + 1 ==> s[lo + 1] < s[j]);
    }
}

} // verus!
