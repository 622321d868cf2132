use vstd::prelude::*;

use crate::errors::PrecedenceError;
use crate::ConfigPrecedenceRule;

verus! {

/// The triangular number of `n`: how many ranks a complete precedence table
/// over `n` attributes must hold.
pub open spec fn triangular(n: int) -> int {
    n * (n + 1) / 2
}

/// Inserts a rank into a strictly ascending sequence, keeping it strictly
/// ascending: an already-present rank leaves the sequence unchanged.
pub open spec fn insert_rank_distinct(s: Seq<i32>, x: i32) -> Seq<i32>
    decreases s.len(),
{
    if s.len() == 0 {
        seq![x]
    } else if x < s[0] {
        seq![x] + s
    } else if x == s[0] {
        s
    } else {
        seq![s[0]] + insert_rank_distinct(s.drop_first(), x)
    }
}

/// Folds the ranks of `rules` into `acc`, one by one.
pub open spec fn collect_distinct_ranks(rules: Seq<ConfigPrecedenceRule>, acc: Seq<i32>) -> Seq<i32>
    decreases rules.len(),
{
    if rules.len() == 0 {
        acc
    } else {
        collect_distinct_ranks(rules.drop_first(), insert_rank_distinct(acc, rules[0].rank))
    }
}

/// The distinct ranks of a rule set, in ascending order.
pub open spec fn sorted_distinct_ranks(rules: Seq<ConfigPrecedenceRule>) -> Seq<i32> {
    collect_distinct_ranks(rules, Seq::empty())
}

/// First element of `s` that differs from the contiguous run
/// `expected, expected + 1, ...`, together with the value expected in its
/// place.
pub open spec fn first_gap(s: Seq<i32>, expected: int) -> Option<(i32, int)>
    decreases s.len(),
{
    if s.len() == 0 {
        None
    } else if s[0] != expected {
        Some((s[0], expected))
    } else {
        first_gap(s.drop_first(), expected + 1)
    }
}

/// The completeness check on the abstract level: a nonempty rule set passes
/// exactly when its distinct ranks are `1, 2, ..., triangular(attr_count)`.
pub open spec fn spec_validate_ranks(rules: Seq<ConfigPrecedenceRule>, attr_count: int) -> Result<
    (),
    PrecedenceError,
> {
    if rules.len() == 0 {
        Err(PrecedenceError::EmptyInput)
    } else {
        let s = sorted_distinct_ranks(rules);
        let t = triangular(attr_count);
        if s.len() != t {
            Err(PrecedenceError::WrongRankCount { found: s.len() as usize, expected: t as usize })
        } else {
            match first_gap(s, 1) {
                Some(fe) => Err(PrecedenceError::RankGap { found: fe.0, expected: fe.1 as i32 }),
                None => Ok(()),
            }
        }
    }
}

/// Splitting the rule sequence splits the rank fold.
pub proof fn lemma_collect_concat(
    s1: Seq<ConfigPrecedenceRule>,
    s2: Seq<ConfigPrecedenceRule>,
    acc: Seq<i32>,
)
    ensures
        collect_distinct_ranks(s1 + s2, acc) == collect_distinct_ranks(
            s2,
            collect_distinct_ranks(s1, acc),
        ),
    decreases s1.len(),
{
    if s1.len() == 0 {
        assert(s1 + s2 =~= s2);
    } else {
        assert((s1 + s2)[0] == s1[0]);
        assert((s1 + s2).drop_first() =~= s1.drop_first() + s2);
        lemma_collect_concat(s1.drop_first(), s2, insert_rank_distinct(acc, s1[0].rank));
    }
}

/// The recursive distinct insert equals a positional insert at the first
/// position holding a rank at or above the new one.
pub proof fn lemma_insert_rank_at(s: Seq<i32>, x: i32, p: int)
    requires
        0 <= p <= s.len(),
        forall|j: int| 0 <= j < p ==> s[j] < x,
        p < s.len() ==> s[p] >= x,
    ensures
        insert_rank_distinct(s, x) == (if p < s.len() && s[p] == x {
            s
        } else {
            s.insert(p, x)
        }),
    decreases p,
{
    if p == 0 {
        if s.len() == 0 {
            assert(insert_rank_distinct(s, x) =~= s.insert(0, x));
        } else if s[0] == x {
        } else {
            assert(x < s[0]);
            assert(seq![x] + s =~= s.insert(0, x));
        }
    } else {
        assert(s[0] < x);
        lemma_insert_rank_at(s.drop_first(), x, p - 1);
        if p < s.len() && s[p] == x {
            assert(s.drop_first()[p - 1] == s[p]);
            assert(seq![s[0]] + s.drop_first() =~= s);
        } else {
            assert(seq![s[0]] + s.drop_first().insert(p - 1, x) =~= s.insert(p, x));
        }
    }
}

/// First position of `ranks` holding a value at or above `x`.
fn find_rank_insert_pos(ranks: &Vec<i32>, x: i32) -> (p: usize)
    ensures
        0 <= p <= ranks@.len(),
        forall|j: int| 0 <= j < p ==> ranks@[j] < x,
        p < ranks@.len() ==> ranks@[p as int] >= x,
{
    let mut p: usize = 0;
    while p < ranks.len()
        invariant
            0 <= p <= ranks@.len(),
            forall|j: int| 0 <= j < p ==> ranks@[j] < x,
        decreases ranks@.len() - p,
    {
        if ranks[p] >= x {
            return p;
        }
        p = p + 1;
    }
    p
}

/// Confirms that a rule set encodes a complete triangular precedence table
/// over `attr_count` attributes: its distinct ranks must be exactly
/// `1, 2, ..., attr_count * (attr_count + 1) / 2`, with no gaps.
///
/// An empty rule set fails with `EmptyInput`; a distinct-rank count other
/// than the triangular number fails with `WrongRankCount`; a break in
/// contiguity fails with `RankGap` at the first offending rank.
#[verifier::loop_isolation(false)]
pub fn validate_ranks_contiguous_and_triangular(
    tall: &Vec<ConfigPrecedenceRule>,
    attr_count: usize,
) -> (r: Result<(), PrecedenceError>)
    requires
        attr_count <= 65535,
    ensures
        r == spec_validate_ranks(tall@, attr_count as int),
{
    if tall.len() == 0 {
        return Err(PrecedenceError::EmptyInput);
    }
    let mut ranks: Vec<i32> = Vec::new();
    proof {
        assert(tall@.take(0) =~= Seq::<ConfigPrecedenceRule>::empty());
    }
    let mut i: usize = 0;
    while i < tall.len()
        invariant
            0 <= i <= tall@.len(),
            ranks@ == collect_distinct_ranks(tall@.take(i as int), Seq::empty()),
        decreases tall@.len() - i,
    {
        let x = tall[i].rank;
        proof {
            assert(tall@.take(i as int + 1) =~= tall@.take(i as int) + seq![tall@[i as int]]);
            lemma_collect_concat(tall@.take(i as int), seq![tall@[i as int]], Seq::empty());
            assert(seq![tall@[i as int]][0] == tall@[i as int]);
            assert(seq![tall@[i as int]].drop_first() =~= Seq::<ConfigPrecedenceRule>::empty());
            assert(collect_distinct_ranks(
                Seq::<ConfigPrecedenceRule>::empty(),
                insert_rank_distinct(ranks@, x),
            ) == insert_rank_distinct(ranks@, x));
            assert(collect_distinct_ranks(seq![tall@[i as int]], ranks@) == insert_rank_distinct(
                ranks@,
                x,
            ));
        }
        let p = find_rank_insert_pos(&ranks, x);
        proof {
            lemma_insert_rank_at(ranks@, x, p as int);
        }
        if p < ranks.len() && ranks[p] == x {
            // Rank already collected.
        } else {
            ranks.insert(p, x);
        }
        i = i + 1;
    }
    proof {
        assert(tall@.take(tall@.len() as int) =~= tall@);
    }
    assert((attr_count as int) * (attr_count as int + 1) <= 65535 * 65536) by (nonlinear_arith)
        requires
            attr_count <= 65535,
    ;
    let t: usize = attr_count * (attr_count + 1) / 2;
    if ranks.len() != t {
        return Err(PrecedenceError::WrongRankCount { found: ranks.len(), expected: t });
    }
    proof {
        assert(ranks@.skip(0) =~= ranks@);
    }
    let mut expected: i32 = 1;
    let mut k: usize = 0;
    while k < ranks.len()
        invariant
            0 <= k <= ranks@.len(),
            expected as int == 1 + k,
            first_gap(ranks@, 1) == first_gap(ranks@.skip(k as int), expected as int),
        decreases ranks@.len() - k,
    {
        proof {
            assert(ranks@.skip(k as int)[0] == ranks@[k as int]);
        }
        if ranks[k] != expected {
            return Err(PrecedenceError::RankGap { found: ranks[k], expected });
        }
        proof {
            assert(ranks@.skip(k as int).drop_first() =~= ranks@.skip(k as int + 1));
        }
        expected = expected + 1;
        k = k + 1;
    }
    proof {
        assert(ranks@.skip(ranks@.len() as int).len() == 0);
    }
    Ok(())
}

} // verus!
