use vstd::prelude::*;
use vstd::arithmetic::power::pow;
use crate::state::{index_of, is_first_index, lemma_index_of};

verus! {

/// Every cell of `s` has a place in `goal`.
pub open spec fn placed(goal: Seq<i32>, s: Seq<i32>) -> bool {
    forall|k: int| 0 <= k < s.len() ==> goal.contains(#[trigger] s[k])
}

/// The number whose base-`goal.len()` digits are the places in `goal` of the cells of `s`,
/// the first cell giving the lowest digit.
pub open spec fn code(goal: Seq<i32>, s: Seq<i32>) -> int
    decreases s.len(),
{
    if s.len() == 0 {
        0
    } else {
        index_of(goal, s[0]) + goal.len() * code(goal, s.drop_first())
    }
}

proof fn lemma_first_place(goal: Seq<i32>, v: i32)
    requires
        goal.contains(v),
    ensures
        is_first_index(goal, v, index_of(goal, v)),
{
    let w = choose|w: int| 0 <= w < goal.len() && goal[w] == v;
    lemma_index_of(goal, v, w);
}

proof fn lemma_code_range(goal: Seq<i32>, s: Seq<i32>)
    requires
        goal.len() >= 1,
        placed(goal, s),
    ensures
        0 <= code(goal, s) < pow(goal.len() as int, s.len()),
    decreases s.len(),
{
    let m = goal.len() as int;
    reveal(pow);
    if s.len() > 0 {
        let rest = s.drop_first();
        assert forall|k: int| 0 <= k < rest.len() implies goal.contains(#[trigger] rest[k]) by {
            assert(rest[k] == s[k + 1]);
        }
        lemma_code_range(goal, rest);
        lemma_first_place(goal, s[0]);
        let d = index_of(goal, s[0]);
        let c = code(goal, rest);
        let p = pow(m, rest.len());
        assert(pow(m, s.len()) == m * p);
        assert(d + m * c < m * p) by (nonlinear_arith)
            requires
                0 <= d < m,
                0 <= c < p,
        ;
        assert(0 <= d + m * c) by (nonlinear_arith)
            requires
                0 <= d,
                0 <= c,
                m >= 1,
        ;
    }
}

proof fn lemma_code_injective(goal: Seq<i32>, s: Seq<i32>, t: Seq<i32>)
    requires
        goal.len() >= 1,
        placed(goal, s),
        placed(goal, t),
        s.len() == t.len(),
        code(goal, s) == code(goal, t),
    ensures
        s == t,
    decreases s.len(),
{
    let m = goal.len() as int;
    if s.len() > 0 {
        let rs = s.drop_first();
        let rt = t.drop_first();
        assert forall|k: int| 0 <= k < rs.len() implies goal.contains(#[trigger] rs[k]) by {
            assert(rs[k] == s[k + 1]);
        }
        assert forall|k: int| 0 <= k < rt.len() implies goal.contains(#[trigger] rt[k]) by {
            assert(rt[k] == t[k + 1]);
        }
        lemma_first_place(goal, s[0]);
        lemma_first_place(goal, t[0]);
        lemma_code_range(goal, rs);
        lemma_code_range(goal, rt);
        let x = code(goal, s);
        assert(m * code(goal, rs) == code(goal, rs) * m) by (nonlinear_arith);
        assert(m * code(goal, rt) == code(goal, rt) * m) by (nonlinear_arith);
        vstd::arithmetic::div_mod::lemma_fundamental_div_mod_converse(
            x,
            m,
            code(goal, rs),
            index_of(goal, s[0]),
        );
        vstd::arithmetic::div_mod::lemma_fundamental_div_mod_converse(
            x,
            m,
            code(goal, rt),
            index_of(goal, t[0]),
        );
        lemma_code_injective(goal, rs, rt);
        assert(s[0] == t[0]);
        assert forall|k: int| 0 <= k < s.len() implies s[k] == t[k] by {
            if k > 0 {
                assert(s[k] == rs[k - 1]);
                assert(t[k] == rt[k - 1]);
            }
        }
        assert(s =~= t);
    } else {
        assert(s =~= t);
    }
}

/// Distinct states of length `len` whose cells all have places in `goal` number at most
/// `goal.len()` to the power `len`.
pub proof fn lemma_distinct_states_bound(goal: Seq<i32>, states: Seq<Seq<i32>>, len: nat)
    requires
        goal.len() >= 1,
        forall|i: int|
            0 <= i < states.len() ==> #[trigger] states[i].len() == len && placed(goal, states[i]),
        forall|a: int, b: int|
            0 <= a < states.len() && 0 <= b < states.len() && a != b ==> #[trigger] states[a]
                != #[trigger] states[b],
    ensures
        states.len() <= pow(goal.len() as int, len),
{
    let m = goal.len() as int;
    let codes = states.map_values(|s: Seq<i32>| code(goal, s));
    assert forall|a: int, b: int|
        0 <= a < codes.len() && 0 <= b < codes.len() && a != b implies codes[a] != codes[b] by {
        if codes[a] == codes[b] {
            lemma_code_injective(goal, states[a], states[b]);
        }
    }
    assert(codes.no_duplicates());
    codes.unique_seq_to_set();
    vstd::arithmetic::power::lemma_pow_positive(m, len);
    let range = vstd::set_lib::set_int_range(0, pow(m, len));
    vstd::set_lib::lemma_int_range(0, pow(m, len));
    assert forall|x: int| codes.to_set().contains(x) implies range.contains(x) by {
        assert(codes.contains(x));
        let i = choose|i: int| 0 <= i < codes.len() && codes[i] == x;
        lemma_code_range(goal, states[i]);
    }
    vstd::set_lib::lemma_len_subset(codes.to_set(), range);
}

} // verus!
