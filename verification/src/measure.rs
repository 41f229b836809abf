use vstd::prelude::*;

verus! {

/// `2^e`.
pub open spec fn p2(e: nat) -> nat
    decreases e,
{
    if e == 0 {
        1
    } else {
        2 * p2((e - 1) as nat)
    }
}

pub proof fn lemma_p2_pos(e: nat)
    ensures
        p2(e) >= 1,
    decreases e,
{
    if e > 0 {
        lemma_p2_pos((e - 1) as nat);
    }
}

/// Weight of a traversal entry `(first_pass, id)`: a first-pass entry weighs more
/// than everything its processing pushes.  Upward traversals (`up`) push smaller ids,
/// downward traversals push larger ids below `n`.
pub open spec fn entry_w(e: (bool, usize), up: bool, n: nat) -> nat {
    if e.0 {
        if up {
            p2((e.1 + 1) as nat)
        } else {
            p2((n - e.1) as nat)
        }
    } else {
        1
    }
}

/// Total weight of a traversal stack.
pub open spec fn stack_w(s: Seq<(bool, usize)>, up: bool, n: nat) -> nat
    decreases s.len(),
{
    if s.len() == 0 {
        0
    } else {
        stack_w(s.drop_last(), up, n) + entry_w(s.last(), up, n)
    }
}

pub proof fn lemma_stack_push(s: Seq<(bool, usize)>, e: (bool, usize), up: bool, n: nat)
    ensures
        stack_w(s.push(e), up, n) == stack_w(s, up, n) + entry_w(e, up, n),
{
    assert(s.push(e).drop_last() =~= s);
}

/// Number of entries of `s` that differ from `v`.
pub open spec fn count_ne(s: Seq<bool>, v: bool) -> nat
    decreases s.len(),
{
    if s.len() == 0 {
        0
    } else {
        count_ne(s.drop_last(), v) + if s.last() != v {
            1nat
        } else {
            0nat
        }
    }
}

pub proof fn lemma_count_ne_update(s: Seq<bool>, v: bool, i: int)
    requires
        0 <= i < s.len(),
        s[i] != v,
    ensures
        count_ne(s.update(i, v), v) + 1 == count_ne(s, v),
    decreases s.len(),
{
    let t = s.update(i, v);
    if i == s.len() - 1 {
        assert(t.drop_last() =~= s.drop_last());
    } else {
        assert(t.drop_last() =~= s.drop_last().update(i, v));
        lemma_count_ne_update(s.drop_last(), v, i);
    }
}

} // verus!
