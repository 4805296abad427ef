use std::collections::HashMap;
use vstd::prelude::*;

use crate::text::push_char;

use super::kinds::UniVar;

verus! {

broadcast use vstd::std_specs::hash::group_hash_axioms;

/// The letters of `num` in base 26, least significant first, with `A` for 0.
pub open spec fn base26(num: nat) -> Seq<char>
    decreases num,
{
    if num == 0 {
        Seq::empty()
    } else {
        seq![(65 + num % 26) as char] + base26(num / 26)
    }
}

/// The name given to the `num`th variable: `'A`, `'B`, ..., `'Z`, `'AB`, ...
pub open spec fn var_name(num: nat) -> Seq<char> {
    if num == 0 {
        seq!['\'', 'A']
    } else {
        seq!['\''] + base26(num)
    }
}

proof fn lemma_base26_injective(a: nat, b: nat)
    requires
        base26(a) == base26(b),
    ensures
        a == b,
    decreases a,
{
    if a != 0 && b != 0 {
        assert(base26(a)[0] == base26(b)[0]);
        assert(base26(a)[0] == (65 + a % 26) as char);
        assert(base26(b)[0] == (65 + b % 26) as char);
        assert((base26(a)[0] as u32) == (base26(b)[0] as u32));
        assert(((65 + a % 26) as char) as u32 == 65 + a % 26);
        assert(((65 + b % 26) as char) as u32 == 65 + b % 26);
        assert(a % 26 == b % 26);
        assert(base26(a / 26) =~= base26(a).drop_first());
        assert(base26(b / 26) =~= base26(b).drop_first());
        lemma_base26_injective(a / 26, b / 26);
        assert(a == 26 * (a / 26) + a % 26) by (nonlinear_arith);
        assert(b == 26 * (b / 26) + b % 26) by (nonlinear_arith);
    } else if a != 0 {
        assert(base26(a).len() > 0);
    } else if b != 0 {
        assert(base26(b).len() > 0);
    }
}

/// Distinct variables get distinct names.
pub proof fn lemma_var_name_injective(a: nat, b: nat)
    requires
        var_name(a) == var_name(b),
    ensures
        a == b,
{
    if a != 0 && b != 0 {
        assert(base26(a) =~= var_name(a).drop_first());
        assert(base26(b) =~= var_name(b).drop_first());
        lemma_base26_injective(a, b);
    } else if a != 0 {
        // The last letter of a nonzero number is never `A`.
        lemma_base26_last(a);
        assert(var_name(a).last() == base26(a).last());
        assert(var_name(b).last() == 'A');
    } else if b != 0 {
        lemma_base26_last(b);
        assert(var_name(b).last() == base26(b).last());
        assert(var_name(a).last() == 'A');
    }
}

proof fn lemma_base26_last(num: nat)
    requires
        num != 0,
    ensures
        base26(num).len() > 0,
        base26(num).last() != 'A',
    decreases num,
{
    if num / 26 == 0 {
        assert(base26(num / 26).len() == 0);
        assert(num % 26 != 0);
        assert(base26(num) =~= seq![(65 + num % 26) as char]);
    } else {
        lemma_base26_last(num / 26);
        assert(base26(num).last() == base26(num / 26).last());
    }
}

/// Hands out readable names for unification variables.
pub struct Namer {
    names: HashMap<usize, String>,
    count: usize,
    /// Which number each named variable was given.
    numbers: Ghost<Map<usize, nat>>,
}

impl Namer {
    /// The names given so far, by variable.
    pub closed spec fn named(self) -> Map<usize, Seq<char>> {
        self.names@.map_values(|s: String| s@)
    }

    pub closed spec fn wf(self) -> bool {
        &&& self.names@.dom().finite()
        &&& self.count == self.names@.len()
        &&& self.numbers@.dom() == self.names@.dom()
        &&& forall|v: usize|
            #![trigger self.names@[v]]
            self.names@.contains_key(v) ==> self.names@[v]@ == var_name(self.numbers@[v])
                && self.numbers@[v] < self.count
        &&& forall|v: usize, w: usize|
            #![trigger self.numbers@[v], self.numbers@[w]]
            self.numbers@.contains_key(v) && self.numbers@.contains_key(w) && v != w
                ==> self.numbers@[v] != self.numbers@[w]
    }

    /// How many names have been handed out.
    pub closed spec fn count(self) -> nat {
        self.count as nat
    }

    /// The number each named variable was given: its place in the order in
    /// which the variables were first named.
    pub closed spec fn numbers(self) -> Map<usize, nat> {
        self.numbers@
    }

    /// The variables named so far were given the numbers `0` to `count - 1`,
    /// one each, in the order they were first asked for, and each is named
    /// after its number.
    pub proof fn law_numbering(self)
        requires
            self.wf(),
        ensures
            self.numbers().dom() == self.named().dom(),
            forall|v: usize|
                #[trigger] self.named().contains_key(v) ==> self.named()[v] == var_name(
                    self.numbers()[v],
                ) && self.numbers()[v] < self.count(),
            forall|v: usize, w: usize|
                #[trigger] self.numbers().contains_key(v) && #[trigger] self.numbers().contains_key(w)
                    && v != w ==> self.numbers()[v] != self.numbers()[w],
    {
        assert(self.numbers().dom() =~= self.named().dom());
        assert forall|v: usize| #[trigger] self.named().contains_key(v) implies self.named()[v]
            == var_name(self.numbers()[v]) && self.numbers()[v] < self.count() by {
            assert(self.names@.contains_key(v));
            assert(self.names@[v]@ == var_name(self.numbers@[v]));
        }
        assert forall|v: usize, w: usize|
            #[trigger] self.numbers().contains_key(v) && #[trigger] self.numbers().contains_key(w)
                && v != w implies self.numbers()[v] != self.numbers()[w] by {
            assert(self.numbers@[v] != self.numbers@[w]);
        }
    }

    /// As many names have been handed out as variables named.
    pub proof fn lemma_count(self)
        requires
            self.wf(),
        ensures
            self.named().dom().finite(),
            self.count() == self.named().dom().len(),
    {
        assert(self.named().dom() =~= self.names@.dom());
    }

    pub fn new() -> (namer: Self)
        ensures
            namer.wf(),
            namer.named() == Map::<usize, Seq<char>>::empty(),
            namer.count() == 0,
    {
        let namer = Self { names: HashMap::new(), count: 0, numbers: Ghost(Map::empty()) };
        assert(namer.named() =~= Map::<usize, Seq<char>>::empty());
        namer
    }

    /// The name of `var`: the name it was given before, or else the next
    /// unused name.
    pub fn pretty(&mut self, var: UniVar) -> (name: String)
        requires
            old(self).wf(),
            old(self).named().contains_key(var.0) || old(self).count() < usize::MAX,
        ensures
            final(self).wf(),
            old(self).named().contains_key(var.0) ==> {
                &&& name@ == old(self).named()[var.0]
                &&& final(self).named() == old(self).named()
                &&& final(self).count() == old(self).count()
                &&& final(self).numbers() == old(self).numbers()
            },
            !old(self).named().contains_key(var.0) ==> {
                &&& name@ == var_name(old(self).count())
                &&& final(self).named() == old(self).named().insert(var.0, name@)
                &&& final(self).count() == old(self).count() + 1
                &&& final(self).numbers() == old(self).numbers().insert(var.0, old(self).count())
            },
    {
        match self.names.get(&var.0) {
            Some(name) => {
                return name.clone();
            },
            None => {},
        }
        let count = self.count;
        self.count += 1;
        let name = number_to_var_name(count);
        self.names.insert(var.0, name.clone());
        proof {
            let before = self.numbers@;
            self.numbers@ = self.numbers@.insert(var.0, count as nat);
            assert(self.names@.len() == before.len() + 1);
            assert forall|v: usize, w: usize|
                #![trigger self.numbers@[v], self.numbers@[w]]
                self.numbers@.contains_key(v) && self.numbers@.contains_key(w) && v != w
                    implies self.numbers@[v] != self.numbers@[w] by {
                if v != var.0 && w != var.0 {
                    assert(before[v] != before[w]);
                } else if v == var.0 {
                    assert(old(self).names@[w]@ == var_name(before[w]));
                } else {
                    assert(old(self).names@[v]@ == var_name(before[v]));
                }
            }
            assert(self.named() =~= old(self).named().insert(var.0, name@));
        }
        name
    }
}

/// Distinct variables are given distinct names.
pub proof fn lemma_names_distinct(namer: Namer, v: usize, w: usize)
    requires
        namer.wf(),
        namer.named().contains_key(v),
        namer.named().contains_key(w),
        v != w,
    ensures
        namer.named()[v] != namer.named()[w],
{
    let a = namer.numbers@[v];
    let b = namer.numbers@[w];
    assert(namer.names@[v]@ == var_name(a));
    assert(namer.names@[w]@ == var_name(b));
    if var_name(a) == var_name(b) {
        lemma_var_name_injective(a, b);
    }
}

/// Two names handed out by one namer, the first before the second with any
/// calls in between, are equal exactly when they name the same variable.
pub proof fn law_names_kept_and_distinct(
    earlier: Namer,
    later: Namer,
    u: usize,
    w: usize,
)
    requires
        earlier.wf(),
        later.wf(),
        earlier.named().submap_of(later.named()),
        earlier.named().contains_key(u),
        later.named().contains_key(w),
    ensures
        earlier.named()[u] == later.named()[w] <==> u == w,
{
    assert(earlier.named().dom().contains(u) && later.named().dom().contains(u));
    assert(later.named()[u] == earlier.named()[u]);
    if u != w {
        lemma_names_distinct(later, u, w);
    }
}

/// `26` to the power `k`.
pub open spec fn pow26(k: nat) -> nat
    decreases k,
{
    if k == 0 {
        1
    } else {
        26 * pow26((k - 1) as nat)
    }
}

/// A number below `26^k` has at most `k` letters, each from `A` to `Z`.
proof fn lemma_base26_shape(num: nat, k: nat)
    requires
        num < pow26(k),
    ensures
        base26(num).len() <= k,
        forall|i: int| 0 <= i < base26(num).len() ==> 'A' <= #[trigger] base26(num)[i] <= 'Z',
    decreases num,
{
    if num != 0 {
        assert(k > 0);
        assert(num / 26 < pow26((k - 1) as nat));
        lemma_base26_shape(num / 26, (k - 1) as nat);
        let c = (65 + num % 26) as char;
        assert(base26(num) =~= seq![c] + base26(num / 26));
        assert forall|i: int| 0 <= i < base26(num).len() implies 'A' <= #[trigger] base26(num)[i] <= 'Z' by {
            if i > 0 {
                assert(base26(num)[i] == base26(num / 26)[i - 1]);
            }
        }
    }
}

/// The name of the `num`th variable: a quote followed by `num` in base 26
/// with the letters `A` to `Z`, least significant first.
pub fn number_to_var_name(num: usize) -> (name: String)
    ensures
        name@ == var_name(num as nat),
        2 <= name@.len() <= 15,
        name@[0] == '\'',
        forall|i: int| 1 <= i < name@.len() ==> 'A' <= #[trigger] name@[i] <= 'Z',
{
    proof {
        assert(pow26(14) == 64509974703297150976) by {
            reveal_with_fuel(pow26, 15);
        }
        lemma_base26_shape(num as nat, 14);
        if num != 0 {
            assert(var_name(num as nat) =~= seq!['\''] + base26(num as nat));
            assert forall|i: int| 1 <= i < var_name(num as nat).len() implies 'A' <= #[trigger] var_name(
                num as nat,
            )[i] <= 'Z' by {
                assert(var_name(num as nat)[i] == base26(num as nat)[i - 1]);
            }
            lemma_base26_last(num as nat);
        }
    }

    let mut result = String::new();
    push_char(&mut result, '\'');
    if num == 0 {
        push_char(&mut result, 'A');
        assert(result@ =~= var_name(0));
        return result;
    }
    let mut rest = num;
    while rest != 0
        invariant
            result@ + base26(rest as nat) == var_name(num as nat),
            num != 0,
        decreases rest,
    {
        let digit = (rest % 26) as u8;
        let c = (65u8 + digit) as char;
        let ghost old_result = result@;
        push_char(&mut result, c);
        proof {
            assert(base26(rest as nat) =~= seq![c] + base26((rest / 26) as nat));
            assert(result@ + base26((rest / 26) as nat) =~= old_result + base26(rest as nat));
        }
        rest = rest / 26;
    }
    assert(result@ =~= result@ + base26(0));
    result
}

} // verus!
