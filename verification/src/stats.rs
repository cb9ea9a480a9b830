//! Score book-keeping: the contest scoreboard snapshot and the local
//! best-score ledger. Reading and persisting them is the caller's work;
//! the lookups and the update rule are verified here.

use vstd::prelude::*;
use crate::problem::ProblemId;

verus! {

/// One score per problem, in millionths; `None` where no score is known.
pub struct Problems {
    pub problems: Vec<Option<i64>>,
}

/// A scoreboard snapshot.
pub struct Userboard {
    pub success: Problems,
}

/// Sum of the known scores among the first `upto` entries.
pub open spec fn known_sum(s: Seq<Option<i64>>, upto: int) -> int
    decreases upto,
{
    if upto <= 0 {
        0
    } else {
        known_sum(s, upto - 1) + match s[upto - 1] {
            Some(v) => v as int,
            None => 0,
        }
    }
}

impl Userboard {
    /// The recorded score of a problem; problem ids start at 1.
    pub fn best_score(&self, id: ProblemId) -> (r: Option<i64>)
        requires
            1 <= id,
            id - 1 < self.success.problems@.len(),
        ensures
            r == self.success.problems@[id as int - 1],
    {
        let n: usize = self.success.problems.len();
        proof {
            assert(id - 1 < n);
        }
        let idx: usize = (id - 1) as usize;
        self.success.problems[idx]
    }

    /// The sum of every known score.
    #[verifier::loop_isolation(false)]
    pub fn total_score(&self) -> (r: i128)
        requires
            forall|j: int|
                0 <= j < self.success.problems@.len() ==> ((#[trigger] self.success.problems@[j])
                    matches Some(v) ==> -1_000_000_000_000_000_000 <= v
                    <= 1_000_000_000_000_000_000),
            self.success.problems@.len() <= 1_000_000,
        ensures
            r == known_sum(self.success.problems@, self.success.problems@.len() as int),
    {
        let n: usize = self.success.problems.len();
        let mut acc: i128 = 0;
        let mut i: usize = 0;
        while i < n
            invariant
                0 <= i <= n,
                acc == known_sum(self.success.problems@, i as int),
                -(i as int) * 1_000_000_000_000_000_000 <= acc <= (i as int)
                    * 1_000_000_000_000_000_000,
            decreases n - i,
        {
            proof {
                assert((i as int + 1) * 1_000_000_000_000_000_000 == (i as int)
                    * 1_000_000_000_000_000_000 + 1_000_000_000_000_000_000) by (nonlinear_arith);
                crate::geometry::lemma_abs_mul_le(
                    i as int + 1,
                    1_000_000_000_000_000_000,
                    1_000_000,
                    1_000_000_000_000_000_000,
                );
            }
            match self.success.problems[i] {
                Some(v) => {
                    acc = acc + (v as i128);
                },
                None => {
                },
            }
            i = i + 1;
        }
        acc
    }
}

/// The first recorded score for a problem id, scanning left to right.
pub open spec fn lookup(entries: Seq<(u64, i64)>, id: u64) -> Option<i64>
    decreases entries.len(),
{
    if entries.len() == 0 {
        None
    } else if entries[0].0 == id {
        Some(entries[0].1)
    } else {
        lookup(entries.drop_first(), id)
    }
}

/// The local ledger of the best score reached for each problem. The
/// entries carry unique problem ids.
pub struct BestScore {
    pub entries: Vec<(u64, i64)>,
}

impl BestScore {
    pub open spec fn keys_unique(&self) -> bool {
        forall|i: int, j: int|
            0 <= i < self.entries@.len() && 0 <= j < self.entries@.len() && i != j
                ==> (#[trigger] self.entries@[i]).0 != (#[trigger] self.entries@[j]).0
    }

    pub fn empty() -> (r: BestScore)
        ensures
            r.entries@.len() == 0,
            r.keys_unique(),
    {
        BestScore { entries: Vec::new() }
    }

    /// The recorded best score of a problem.
    #[verifier::loop_isolation(false)]
    pub fn score(&self, id: ProblemId) -> (r: Option<i64>)
        ensures
            r == lookup(self.entries@, id),
    {
        let n: usize = self.entries.len();
        proof {
            assert(self.entries@.skip(0) =~= self.entries@);
        }
        let mut i: usize = 0;
        while i < n
            invariant
                0 <= i <= n,
                lookup(self.entries@, id) == lookup(self.entries@.skip(i as int), id),
                forall|x: int| 0 <= x < i ==> (#[trigger] self.entries@[x]).0 != id,
            decreases n - i,
        {
            proof {
                assert(self.entries@.skip(i as int)[0] == self.entries@[i as int]);
                assert(self.entries@.skip(i as int).drop_first() =~= self.entries@.skip(
                    i as int + 1,
                ));
            }
            if self.entries[i].0 == id {
                return Some(self.entries[i].1);
            }
            i = i + 1;
        }
        proof {
            assert(self.entries@.skip(n as int).len() == 0);
        }
        None
    }

    /// Sum of every entry's score.
    pub open spec fn entries_sum(entries: Seq<(u64, i64)>, upto: int) -> int
        decreases upto,
    {
        if upto <= 0 {
            0
        } else {
            Self::entries_sum(entries, upto - 1) + entries[upto - 1].1
        }
    }

    /// The sum of all recorded best scores.
    #[verifier::loop_isolation(false)]
    pub fn total_score(&self) -> (r: i128)
        requires
            forall|j: int|
                0 <= j < self.entries@.len() ==> -1_000_000_000_000_000_000
                    <= (#[trigger] self.entries@[j]).1 <= 1_000_000_000_000_000_000,
            self.entries@.len() <= 1_000_000,
        ensures
            r == Self::entries_sum(self.entries@, self.entries@.len() as int),
    {
        let n: usize = self.entries.len();
        let mut acc: i128 = 0;
        let mut i: usize = 0;
        while i < n
            invariant
                0 <= i <= n,
                acc == Self::entries_sum(self.entries@, i as int),
                -(i as int) * 1_000_000_000_000_000_000 <= acc <= (i as int)
                    * 1_000_000_000_000_000_000,
            decreases n - i,
        {
            proof {
                assert((i as int + 1) * 1_000_000_000_000_000_000 == (i as int)
                    * 1_000_000_000_000_000_000 + 1_000_000_000_000_000_000) by (nonlinear_arith);
                crate::geometry::lemma_abs_mul_le(
                    i as int + 1,
                    1_000_000_000_000_000_000,
                    1_000_000,
                    1_000_000_000_000_000_000,
                );
            }
            acc = acc + (self.entries[i].1 as i128);
            i = i + 1;
        }
        acc
    }

    /// Record a new best for a problem, replacing any older entry.
    #[verifier::loop_isolation(false)]
    pub fn update(&mut self, id: ProblemId, new_score: i64)
        requires
            old(self).keys_unique(),
        ensures
            final(self).keys_unique(),
            lookup(final(self).entries@, id) == Some(new_score),
            forall|other: u64|
                other != id ==> lookup(final(self).entries@, other) == lookup(
                    old(self).entries@,
                    other,
                ),
    {
        let n: usize = self.entries.len();
        let mut i: usize = 0;
        while i < n
            invariant
                0 <= i <= n,
                n == self.entries@.len(),
                self.entries@ == old(self).entries@,
                forall|x: int| 0 <= x < i ==> (#[trigger] self.entries@[x]).0 != id,
            decreases n - i,
        {
            if self.entries[i].0 == id {
                self.entries[i] = (id, new_score);
                proof {
                    lemma_lookup_update(old(self).entries@, self.entries@, i as int, id, new_score);
                    assert forall|x: int, y: int|
                        0 <= x < self.entries@.len() && 0 <= y < self.entries@.len() && x != y
                        implies (#[trigger] self.entries@[x]).0 != (
                    #[trigger] self.entries@[y]).0 by {
                        assert((self.entries@[x]).0 == (old(self).entries@[x]).0);
                        assert((self.entries@[y]).0 == (old(self).entries@[y]).0);
                    }
                }
                return ;
            }
            i = i + 1;
        }
        self.entries.push((id, new_score));
        proof {
            lemma_lookup_append(old(self).entries@, id, new_score);
            assert(self.entries@ =~= old(self).entries@.push((id, new_score)));
        }
    }
}

/// Replacing the entry that holds a key rewrites exactly that key's
/// lookup.
proof fn lemma_lookup_update(
    pre: Seq<(u64, i64)>,
    post: Seq<(u64, i64)>,
    at: int,
    id: u64,
    v: i64,
)
    requires
        0 <= at < pre.len(),
        post == pre.update(at, (id, v)),
        pre[at].0 == id,
        forall|x: int| 0 <= x < at ==> (#[trigger] pre[x]).0 != id,
    ensures
        lookup(post, id) == Some(v),
        forall|other: u64| other != id ==> lookup(post, other) == lookup(pre, other),
    decreases pre.len(),
{
    if at == 0 {
        assert forall|other: u64| other != id implies lookup(post, other) == lookup(
            pre,
            other,
        ) by {
            assert(post.drop_first() =~= pre.drop_first());
        }
    } else {
        assert(post.drop_first() =~= pre.drop_first().update(at - 1, (id, v)));
        assert(post[0] == pre[0]);
        lemma_lookup_update(pre.drop_first(), post.drop_first(), at - 1, id, v);
        assert forall|other: u64| other != id implies lookup(post, other) == lookup(
            pre,
            other,
        ) by {
            assert(lookup(post.drop_first(), other) == lookup(pre.drop_first(), other));
        }
    }
}

/// Appending a fresh key leaves every other lookup unchanged; a key that
/// was absent now maps to the new value.
proof fn lemma_lookup_append(pre: Seq<(u64, i64)>, id: u64, v: i64)
    requires
        forall|x: int| 0 <= x < pre.len() ==> (#[trigger] pre[x]).0 != id,
    ensures
        lookup(pre.push((id, v)), id) == Some(v),
        forall|other: u64| other != id ==> lookup(pre.push((id, v)), other) == lookup(pre, other),
    decreases pre.len(),
{
    if pre.len() == 0 {
        assert(pre.push((id, v))[0] == (id, v));
        assert forall|other: u64| other != id implies lookup(pre.push((id, v)), other) == lookup(
            pre,
            other,
        ) by {
            assert(pre.push((id, v)).drop_first() =~= pre);
        }
    } else {
        assert(pre.push((id, v)).drop_first() =~= pre.drop_first().push((id, v)));
        assert(pre.push((id, v))[0] == pre[0]);
        lemma_lookup_append(pre.drop_first(), id, v);
        assert forall|other: u64| other != id implies lookup(pre.push((id, v)), other) == lookup(
            pre,
            other,
        ) by {
            assert(lookup(pre.drop_first().push((id, v)), other) == lookup(
                pre.drop_first(),
                other,
            ));
        }
    }
}

} // verus!
