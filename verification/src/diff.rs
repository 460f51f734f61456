//! The list-diff engine: deriving a sequence of output nodes from a
//! changing input sequence while touching as few outputs as possible.
//!
//! Both variants are driven like the rest of the runtime: the caller
//! first asks which input positions need a freshly mapped output
//! (`indexed_fresh_positions` / `keyed_fresh_positions`), maps those
//! items to new output tokens, and then applies the update
//! (`map_indexed` / `map_keyed`), which returns the new output sequence
//! together with the outputs that were discarded and should be
//! disposed.
//!
//! - The indexed variant compares by position: a position whose value
//!   is unchanged keeps its output untouched; a changed position (and
//!   every position beyond the old length) gets a fresh output; outputs
//!   beyond the new length are discarded. Identity is positional: a
//!   reorder is seen as a run of by-position changes.
//! - The keyed variant compares by key (here the item itself, which
//!   must be distinct within each input): keys that vanish have their
//!   outputs discarded, new keys get fresh outputs, and keys present in
//!   both keep their output, relocated to the key's new position — a
//!   pure reorder moves every output and creates or discards none.

use vstd::prelude::*;

verus! {

/// Index of the first occurrence of `x` in `s`, if any.
pub open spec fn spec_index_of(s: Seq<u64>, x: u64) -> int
    decreases s.len(),
{
    if s.len() == 0 {
        0
    } else if s[0] == x {
        0
    } else {
        1 + spec_index_of(s.skip(1), x)
    }
}

/// The first occurrence really is one, and nothing earlier matches.
pub proof fn lemma_index_of(s: Seq<u64>, x: u64)
    requires
        s.contains(x),
    ensures
        0 <= spec_index_of(s, x) < s.len(),
        s[spec_index_of(s, x)] == x,
        forall|j: int| 0 <= j < spec_index_of(s, x) ==> s[j] != x,
    decreases s.len(),
{
    if s.len() > 0 && s[0] != x {
        assert(s.skip(1).contains(x)) by {
            let w = choose|w: int| 0 <= w < s.len() && s[w] == x;
            assert(s.skip(1)[w - 1] == x);
        }
        lemma_index_of(s.skip(1), x);
        assert forall|j: int| 0 <= j < spec_index_of(s, x) implies s[j] != x by {
            if j > 0 {
                assert(s.skip(1)[j - 1] == s[j]);
            }
        }
    }
}

/// Finds `x` in `s`, reporting its first index.
fn find_index(s: &Vec<u64>, x: u64) -> (r: Option<usize>)
    ensures
        match r {
            Some(j) => s@.contains(x) && j as int == spec_index_of(s@, x),
            None => !s@.contains(x),
        },
{
    let mut j: usize = 0;
    while j < s.len()
        invariant
            j <= s@.len(),
            forall|t: int| 0 <= t < j ==> s@[t] != x,
        decreases s@.len() - j,
    {
        if s[j] == x {
            proof {
                assert(s@.contains(x)) by {
                    assert(s@[j as int] == x);
                }
                lemma_index_of(s@, x);
                assert(j as int == spec_index_of(s@, x)) by {
                    if spec_index_of(s@, x) < j as int {
                        assert(s@[spec_index_of(s@, x)] != x);
                    }
                }
            }
            return Some(j);
        }
        j = j + 1;
    }
    proof {
        if s@.contains(x) {
            let w = choose|w: int| 0 <= w < s@.len() && s@[w] == x;
        }
    }
    None
}

/// The input positions that need a freshly mapped output under the
/// indexed policy: positions whose value changed, and positions beyond
/// the old length.
pub fn indexed_fresh_positions(old_items: &Vec<u64>, new_items: &Vec<u64>) -> (r: Vec<usize>)
    ensures
        r@.len() == new_items@.len(),
        forall|p: int|
            0 <= p < new_items@.len() ==> r@[p] == (if p < old_items@.len() && old_items@[p]
                == new_items@[p] {
                0usize
            } else {
                1usize
            }),
{
    let mut r: Vec<usize> = Vec::new();
    let mut p: usize = 0;
    while p < new_items.len()
        invariant
            p <= new_items@.len(),
            r@.len() == p,
            forall|q: int|
                0 <= q < p ==> r@[q] == (if q < old_items@.len() && old_items@[q]
                    == new_items@[q] {
                    0usize
                } else {
                    1usize
                }),
        decreases new_items@.len() - p,
    {
        if p < old_items.len() && old_items[p] == new_items[p] {
            r.push(0);
        } else {
            r.push(1);
        }
        p = p + 1;
    }
    r
}

/// Applies an indexed update: `fresh[p]` supplies the output token for
/// every position `p` that needs one (its content is ignored at kept
/// positions). Returns the new output sequence and the discarded
/// outputs (the replaced and truncated ones), which the caller
/// disposes.
///
/// Positions with an unchanged value keep their old output; every
/// other position uses the supplied fresh token; old outputs past the
/// new length are discarded — positional identity, never preserved
/// across a reorder.
pub fn map_indexed(
    old_items: &Vec<u64>,
    new_items: &Vec<u64>,
    old_outputs: &Vec<u64>,
    fresh: &Vec<u64>,
) -> (r: (Vec<u64>, Vec<u64>))
    requires
        old_outputs@.len() == old_items@.len(),
        fresh@.len() == new_items@.len(),
    ensures
        r.0@.len() == new_items@.len(),
        forall|p: int|
            0 <= p < new_items@.len() ==> r.0@[p] == (if p < old_items@.len() && old_items@[p]
                == new_items@[p] {
                old_outputs@[p]
            } else {
                fresh@[p]
            }),
        r.1@.len() == old_items@.len() - (if old_items@.len() <= new_items@.len() {
            old_items@.len() as int
        } else {
            new_items@.len() as int
        }) + spec_changed_count(old_items@, new_items@),
{
    let mut outs: Vec<u64> = Vec::new();
    let mut dropped: Vec<u64> = Vec::new();
    let mut p: usize = 0;
    while p < new_items.len()
        invariant
            p <= new_items@.len(),
            old_outputs@.len() == old_items@.len(),
            fresh@.len() == new_items@.len(),
            outs@.len() == p,
            forall|q: int|
                0 <= q < p ==> outs@[q] == (if q < old_items@.len() && old_items@[q]
                    == new_items@[q] {
                    old_outputs@[q]
                } else {
                    fresh@[q]
                }),
            dropped@.len() == spec_changed_count_upto(
                old_items@,
                new_items@,
                (if p <= old_items@.len() {
                    p as int
                } else {
                    old_items@.len() as int
                }),
            ),
        decreases new_items@.len() - p,
    {
        proof {
            if p < old_items@.len() {
                lemma_changed_count_step(old_items@, new_items@, p as int);
            }
        }
        if p < old_items.len() && old_items[p] == new_items[p] {
            outs.push(old_outputs[p]);
        } else {
            outs.push(fresh[p]);
            if p < old_items.len() {
                dropped.push(old_outputs[p]);
            }
        }
        p = p + 1;
    }
    // outputs past the new length are discarded as well
    let mut q: usize = new_items.len();
    proof {
        if old_items@.len() <= new_items@.len() {
            lemma_changed_count_full(old_items@, new_items@);
        }
    }
    while q < old_outputs.len()
        invariant
            new_items@.len() <= q || q == old_outputs@.len(),
            q >= new_items@.len(),
            q <= old_outputs@.len() || q == new_items@.len(),
            old_outputs@.len() == old_items@.len(),
            q <= old_outputs@.len() || old_outputs@.len() < new_items@.len(),
            outs@.len() == new_items@.len(),
            forall|w: int|
                0 <= w < new_items@.len() ==> outs@[w] == (if w < old_items@.len()
                    && old_items@[w] == new_items@[w] {
                    old_outputs@[w]
                } else {
                    fresh@[w]
                }),
            dropped@.len() == spec_changed_count(old_items@, new_items@) + (if q
                >= new_items@.len() && old_items@.len() >= new_items@.len() {
                q - new_items@.len()
            } else {
                0int
            }),
        decreases old_outputs@.len() - q,
    {
        dropped.push(old_outputs[q]);
        q = q + 1;
    }
    (outs, dropped)
}

/// How many of the first `upto` shared positions changed value.
pub open spec fn spec_changed_count_upto(a: Seq<u64>, b: Seq<u64>, upto: int) -> int
    decreases upto,
{
    if upto <= 0 {
        0
    } else {
        spec_changed_count_upto(a, b, upto - 1) + (if upto - 1 < a.len() && upto - 1 < b.len()
            && a[upto - 1] != b[upto - 1] {
            1int
        } else if upto - 1 < a.len() && upto - 1 >= b.len() {
            0int
        } else {
            0int
        })
    }
}

/// How many shared positions changed value.
pub open spec fn spec_changed_count(a: Seq<u64>, b: Seq<u64>) -> int {
    spec_changed_count_upto(a, b, (if a.len() <= b.len() {
        a.len() as int
    } else {
        b.len() as int
    }))
}

proof fn lemma_changed_count_step(a: Seq<u64>, b: Seq<u64>, p: int)
    requires
        0 <= p < a.len(),
        p < b.len(),
    ensures
        spec_changed_count_upto(a, b, p + 1) == spec_changed_count_upto(a, b, p) + (if a[p]
            != b[p] {
            1int
        } else {
            0int
        }),
{
}

proof fn lemma_changed_count_full(a: Seq<u64>, b: Seq<u64>)
    requires
        a.len() <= b.len(),
    ensures
        spec_changed_count(a, b) == spec_changed_count_upto(a, b, a.len() as int),
{
}

/// The input positions that need a freshly mapped output under the
/// keyed policy: positions whose key does not occur in the old input.
pub fn keyed_fresh_positions(old_items: &Vec<u64>, new_items: &Vec<u64>) -> (r: Vec<usize>)
    ensures
        r@.len() == new_items@.len(),
        forall|p: int|
            0 <= p < new_items@.len() ==> r@[p] == (if old_items@.contains(new_items@[p]) {
                0usize
            } else {
                1usize
            }),
{
    let mut r: Vec<usize> = Vec::new();
    let mut p: usize = 0;
    while p < new_items.len()
        invariant
            p <= new_items@.len(),
            r@.len() == p,
            forall|q: int|
                0 <= q < p ==> r@[q] == (if old_items@.contains(new_items@[q]) {
                    0usize
                } else {
                    1usize
                }),
        decreases new_items@.len() - p,
    {
        match find_index(old_items, new_items[p]) {
            Some(_) => {
                r.push(0);
            },
            None => {
                r.push(1);
            },
        }
        p = p + 1;
    }
    r
}

/// Applies a keyed update: `fresh[p]` supplies the output token for
/// every position whose key is new (ignored elsewhere). Returns the new
/// output sequence and the outputs of vanished keys, which the caller
/// disposes.
///
/// A key present in both inputs keeps the output it had at its old
/// position — the output is relocated, never recreated — so a pure
/// reorder produces the same output tokens in the new key order, with
/// nothing created and nothing discarded.
pub fn map_keyed(
    old_items: &Vec<u64>,
    new_items: &Vec<u64>,
    old_outputs: &Vec<u64>,
    fresh: &Vec<u64>,
) -> (r: (Vec<u64>, Vec<u64>))
    requires
        old_outputs@.len() == old_items@.len(),
        fresh@.len() == new_items@.len(),
    ensures
        r.0@.len() == new_items@.len(),
        forall|p: int|
            0 <= p < new_items@.len() ==> r.0@[p] == (if old_items@.contains(new_items@[p]) {
                old_outputs@[spec_index_of(old_items@, new_items@[p])]
            } else {
                fresh@[p]
            }),
        r.1@.len() == old_items@.len() - spec_kept_count(old_items@, new_items@,
            old_items@.len() as int),
{
    let mut outs: Vec<u64> = Vec::new();
    let mut p: usize = 0;
    while p < new_items.len()
        invariant
            p <= new_items@.len(),
            old_outputs@.len() == old_items@.len(),
            fresh@.len() == new_items@.len(),
            outs@.len() == p,
            forall|q: int|
                0 <= q < p ==> outs@[q] == (if old_items@.contains(new_items@[q]) {
                    old_outputs@[spec_index_of(old_items@, new_items@[q])]
                } else {
                    fresh@[q]
                }),
        decreases new_items@.len() - p,
    {
        match find_index(old_items, new_items[p]) {
            Some(j) => {
                proof {
                    lemma_index_of(old_items@, new_items@[p as int]);
                }
                outs.push(old_outputs[j]);
            },
            None => {
                outs.push(fresh[p]);
            },
        }
        p = p + 1;
    }
    let mut dropped: Vec<u64> = Vec::new();
    let mut q: usize = 0;
    while q < old_items.len()
        invariant
            q <= old_items@.len(),
            old_outputs@.len() == old_items@.len(),
            dropped@.len() == q - spec_kept_count(old_items@, new_items@, q as int),
        decreases old_items@.len() - q,
    {
        proof {
            lemma_kept_count_step(old_items@, new_items@, q as int);
            lemma_kept_count_bound(old_items@, new_items@, q as int);
        }
        match find_index(new_items, old_items[q]) {
            Some(_) => {},
            None => {
                dropped.push(old_outputs[q]);
            },
        }
        q = q + 1;
    }
    (outs, dropped)
}

/// How many of the first `upto` old keys survive into the new input.
pub open spec fn spec_kept_count(a: Seq<u64>, b: Seq<u64>, upto: int) -> int
    decreases upto,
{
    if upto <= 0 {
        0
    } else {
        spec_kept_count(a, b, upto - 1) + (if upto - 1 < a.len() && b.contains(a[upto - 1]) {
            1int
        } else {
            0int
        })
    }
}

proof fn lemma_kept_count_step(a: Seq<u64>, b: Seq<u64>, q: int)
    requires
        0 <= q < a.len(),
    ensures
        spec_kept_count(a, b, q + 1) == spec_kept_count(a, b, q) + (if b.contains(a[q]) {
            1int
        } else {
            0int
        }),
{
}

proof fn lemma_kept_count_bound(a: Seq<u64>, b: Seq<u64>, upto: int)
    ensures
        spec_kept_count(a, b, upto) <= (if upto >= 0 {
            upto
        } else {
            0int
        }),
        spec_kept_count(a, b, upto) >= 0,
    decreases (if upto >= 0 {
        upto
    } else {
        0int
    }),
{
    if upto > 0 {
        lemma_kept_count_bound(a, b, upto - 1);
    }
}

/// Every old key that survives keeps its kept count maximal: a pure
/// reorder (the new input contains every old key) discards nothing and
/// creates nothing, and every output token is the old token of its
/// key, merely relocated.
pub proof fn lemma_keyed_reorder_stable(a: Seq<u64>, b: Seq<u64>, upto: int)
    requires
        forall|q: int| 0 <= q < a.len() ==> b.contains(#[trigger] a[q]),
        0 <= upto <= a.len(),
    ensures
        spec_kept_count(a, b, upto) == upto,
    decreases upto,
{
    if upto > 0 {
        lemma_keyed_reorder_stable(a, b, upto - 1);
    }
}

} // verus!
