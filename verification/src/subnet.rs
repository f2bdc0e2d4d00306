//! Subnets (shared wire nets) and their four-valued logic state, together
//! with the multi-driver conflict-resolution rule.

use vstd::prelude::*;

verus! {

/// The four states a subnet can have.  `Floating` is undriven or
/// high-impedance, `Off`/`On` are driven low/high, and `Error` marks
/// conflicting drivers.
#[derive(Debug, PartialEq, Eq, Structural, Clone, Copy)]
pub enum SubnetState {
    Floating,
    Off,
    On,
    Error,
}

/// Merges one more proposal into an already-resolved value.
pub open spec fn resolve_pair(acc: SubnetState, v: SubnetState) -> SubnetState {
    if v == SubnetState::Floating {
        acc
    } else if acc == SubnetState::Floating {
        v
    } else if acc == v {
        acc
    } else {
        SubnetState::Error
    }
}

/// The conflict-resolution rule over a collection of proposed values:
/// discard `Floating` proposals; none left gives `Floating`, one distinct
/// value left gives that value, two or more distinct values give `Error`.
pub open spec fn resolve_seq(s: Seq<SubnetState>) -> SubnetState
    decreases s.len(),
{
    if s.len() == 0 {
        SubnetState::Floating
    } else {
        resolve_pair(resolve_seq(s.drop_last()), s.last())
    }
}

/// Law: the conflict rule is total and deterministic.  For every finite
/// collection of proposals: the result is `Floating` exactly when no
/// proposal drives the net; it is `Error` exactly when two distinct driven
/// values (or an explicit `Error`) are proposed; otherwise it is the unique
/// driven value, which occurs among the proposals.
pub proof fn lemma_resolve_total(s: Seq<SubnetState>)
    ensures
        (resolve_seq(s) == SubnetState::Floating) <==> (forall|i: int|
            0 <= i < s.len() ==> s[i] == SubnetState::Floating),
        (resolve_seq(s) == SubnetState::Error) <==> ((exists|i: int, j: int|
            0 <= i < s.len() && 0 <= j < s.len() && s[i] != SubnetState::Floating && s[j]
                != SubnetState::Floating && s[i] != s[j]) || (exists|i: int|
            0 <= i < s.len() && s[i] == SubnetState::Error)),
        (resolve_seq(s) != SubnetState::Floating && resolve_seq(s) != SubnetState::Error) ==> ((
        exists|i: int| 0 <= i < s.len() && s[i] == resolve_seq(s)) && (forall|i: int|
            0 <= i < s.len() ==> s[i] == SubnetState::Floating || s[i] == resolve_seq(s))),
    decreases s.len(),
{
    if s.len() > 0 {
        let d = s.drop_last();
        let v = s.last();
        let r = resolve_seq(d);
        lemma_resolve_total(d);
        assert(forall|i: int| 0 <= i < d.len() ==> d[i] == s[i]);
        assert(s[s.len() - 1] == v);
        if resolve_seq(s) == SubnetState::Error {
            if v == SubnetState::Floating || r == SubnetState::Floating || r == v {
                // the last proposal did not introduce the conflict: it was
                // already present among the earlier proposals
                assert(r == SubnetState::Error || v == SubnetState::Error);
            }
        }
    }
}

/// Law: the conflict rule depends only on which values are proposed, not on
/// their order or multiplicity.
pub proof fn lemma_resolve_set(s1: Seq<SubnetState>, s2: Seq<SubnetState>)
    requires
        forall|v: SubnetState| s1.contains(v) <==> s2.contains(v),
    ensures
        resolve_seq(s1) == resolve_seq(s2),
{
    lemma_resolve_total(s1);
    lemma_resolve_total(s2);
    let r1 = resolve_seq(s1);
    let r2 = resolve_seq(s2);
    if r1 == SubnetState::Floating {
        assert(forall|i: int| 0 <= i < s2.len() ==> s2.contains(s2[i]));
        assert(forall|i: int| 0 <= i < s2.len() ==> s2[i] == SubnetState::Floating) by {
            assert forall|i: int| 0 <= i < s2.len() implies s2[i] == SubnetState::Floating by {
                assert(s1.contains(s2[i]));
            }
        }
        assert(r2 == SubnetState::Floating);
    } else if r1 == SubnetState::Error {
        if exists|i: int, j: int|
            0 <= i < s1.len() && 0 <= j < s1.len() && s1[i] != SubnetState::Floating && s1[j]
                != SubnetState::Floating && s1[i] != s1[j] {
            let (i, j) = choose|i: int, j: int|
                0 <= i < s1.len() && 0 <= j < s1.len() && s1[i] != SubnetState::Floating && s1[j]
                    != SubnetState::Floating && s1[i] != s1[j];
            assert(s2.contains(s1[i]));
            assert(s2.contains(s1[j]));
            let a = choose|a: int| 0 <= a < s2.len() && s2[a] == s1[i];
            let b = choose|b: int| 0 <= b < s2.len() && s2[b] == s1[j];
            assert(s2[a] != SubnetState::Floating && s2[b] != SubnetState::Floating && s2[a]
                != s2[b]);
        } else {
            let i = choose|i: int| 0 <= i < s1.len() && s1[i] == SubnetState::Error;
            assert(s2.contains(s1[i]));
            let a = choose|a: int| 0 <= a < s2.len() && s2[a] == SubnetState::Error;
        }
        assert(r2 == SubnetState::Error);
    } else {
        let i = choose|i: int| 0 <= i < s1.len() && s1[i] == r1;
        assert(s2.contains(r1));
        assert(exists|a: int| 0 <= a < s2.len() && s2[a] == r1);
        assert forall|a: int| 0 <= a < s2.len() implies s2[a] == SubnetState::Floating || s2[a]
            == r1 by {
            assert(s1.contains(s2[a]));
        }
        assert(r2 != SubnetState::Floating);
        assert(r2 != SubnetState::Error);
        assert(s2.contains(r2) ==> r2 == r1);
    }
}

/// The conflict-resolution rule over a set of proposed values (the form the
/// per-wave contract uses; order and multiplicity cannot matter here).
pub open spec fn resolve_set(s: Set<SubnetState>) -> SubnetState {
    if s.contains(SubnetState::Error) || (s.contains(SubnetState::On) && s.contains(
        SubnetState::Off,
    )) {
        SubnetState::Error
    } else if s.contains(SubnetState::On) {
        SubnetState::On
    } else if s.contains(SubnetState::Off) {
        SubnetState::Off
    } else {
        SubnetState::Floating
    }
}

/// Law: resolving a collection of proposals is resolving the set of values
/// occurring in it.
pub proof fn lemma_resolve_seq_set(q: Seq<SubnetState>)
    ensures
        resolve_seq(q) == resolve_set(Set::new(|v: SubnetState| q.contains(v))),
{
    lemma_resolve_total(q);
    let s = Set::new(|v: SubnetState| q.contains(v));
    let r = resolve_seq(q);
    if r == SubnetState::Floating {
        assert(!s.contains(SubnetState::Error));
        assert(!s.contains(SubnetState::On));
        assert(!s.contains(SubnetState::Off));
    } else if r == SubnetState::Error {
        if exists|i: int, j: int|
            0 <= i < q.len() && 0 <= j < q.len() && q[i] != SubnetState::Floating && q[j]
                != SubnetState::Floating && q[i] != q[j] {
            let (i, j) = choose|i: int, j: int|
                0 <= i < q.len() && 0 <= j < q.len() && q[i] != SubnetState::Floating && q[j]
                    != SubnetState::Floating && q[i] != q[j];
            assert(s.contains(q[i]));
            assert(s.contains(q[j]));
        } else {
            let i = choose|i: int| 0 <= i < q.len() && q[i] == SubnetState::Error;
            assert(s.contains(SubnetState::Error));
        }
    } else {
        let i = choose|i: int| 0 <= i < q.len() && q[i] == r;
        assert(s.contains(r));
        assert forall|v: SubnetState| s.contains(v) implies v == SubnetState::Floating || v
            == r by {
            let k = choose|k: int| 0 <= k < q.len() && q[k] == v;
        }
    }
}

impl SubnetState {
    /// Resolves the proposals gathered for one subnet in one round.
    pub fn work_out_diff(diff: &Vec<SubnetState>) -> (r: SubnetState)
        ensures
            r == resolve_seq(diff@),
    {
        let mut acc = SubnetState::Floating;
        let mut i: usize = 0;
        while i < diff.len()
            invariant
                i <= diff@.len(),
                acc == resolve_seq(diff@.take(i as int)),
            decreases diff@.len() - i,
        {
            proof {
                assert(diff@.take(i + 1).drop_last() =~= diff@.take(i as int));
                assert(diff@.take(i + 1).last() == diff@[i as int]);
            }
            acc = match (acc, diff[i]) {
                (a, SubnetState::Floating) => a,
                (SubnetState::Floating, v) => v,
                (a, v) => {
                    if a == v {
                        a
                    } else {
                        SubnetState::Error
                    }
                }
            };
            i = i + 1;
        }
        proof {
            assert(diff@.take(diff@.len() as int) =~= diff@);
        }
        acc
    }

    /// A value counts as true exactly when it is `On`.
    pub open spec fn spec_truthy(self) -> bool {
        self == SubnetState::On
    }

    pub fn truthy(&self) -> (r: bool)
        ensures
            r == self.spec_truthy(),
    {
        match self {
            SubnetState::On => true,
            _ => false,
        }
    }

    /// A value counts as false when it is `Off` or undriven.
    pub open spec fn spec_falsy(self) -> bool {
        self == SubnetState::Off || self == SubnetState::Floating
    }

    pub fn falsy(&self) -> (r: bool)
        ensures
            r == self.spec_falsy(),
    {
        match self {
            SubnetState::Off | SubnetState::Floating => true,
            _ => false,
        }
    }
}

/// A subnet: one shared wire holding one four-valued state.
#[derive(Debug, PartialEq, Eq, Structural, Clone, Copy)]
pub struct Subnet {
    pub state: SubnetState,
}

impl Subnet {
    /// A fresh subnet is undriven.
    pub fn new() -> (r: Self)
        ensures
            r.state == SubnetState::Floating,
    {
        Subnet { state: SubnetState::Floating }
    }

    /// The current state.
    pub fn val(&self) -> (r: SubnetState)
        ensures
            r == self.state,
    {
        self.state
    }

    /// Assigns a state and reports whether the value actually changed.
    pub fn update(&mut self, state: SubnetState) -> (changed: bool)
        ensures
            final(self).state == state,
            changed == (old(self).state != state),
    {
        if self.state == state {
            false
        } else {
            self.state = state;
            true
        }
    }
}

} // verus!
