//! The shared task ledger: a registry of task ids with two states,
//! registered and assigned. Registration is idempotent, and claiming always
//! hands out the lexicographically smallest registered id, so assignment is
//! deterministic and starvation-free. The embedding guards one ledger with
//! one exclusive lock and lets every worker reach it; each operation here is
//! the body of one such critical section.

use vstd::prelude::*;
use crate::lex::{lex_lt, lemma_lex_irreflexive, lemma_lex_asymmetric, lemma_lex_transitive,
    lemma_lex_trichotomy, str_lt, str_eq};

verus! {

/// The character sequences named by a vector of strings.
pub open spec fn ids_of(v: Seq<String>) -> Seq<Seq<char>> {
    v.map_values(|s: String| s@)
}

/// Strictly ascending lexicographic order; rules out duplicates.
pub open spec fn strictly_sorted(s: Seq<Seq<char>>) -> bool {
    forall|i: int, j: int| 0 <= i < j < s.len() ==> lex_lt(s[i], s[j])
}

/// `m` is the lexicographically smallest member of `s`.
pub open spec fn is_lex_min(s: Set<Seq<char>>, m: Seq<char>) -> bool {
    s.contains(m) && (forall|t: Seq<char>| s.contains(t) && t != m ==> lex_lt(m, t))
}

/// What registering `id` does to the registered set: a no-op when the id is
/// already known in either state, an insertion otherwise. The assigned set
/// is never touched by registration.
pub open spec fn spec_register(
    reg: Set<Seq<char>>,
    asg: Set<Seq<char>>,
    id: Seq<char>,
) -> Set<Seq<char>> {
    if reg.contains(id) || asg.contains(id) {
        reg
    } else {
        reg.insert(id)
    }
}

/// The registry of task ids. `registered` holds the ids waiting to be
/// claimed, in ascending lexicographic order; `assigned` holds the ids that
/// have been handed out. A given id appears in at most one of the two.
pub struct TaskLedger {
    registered: Vec<String>,
    assigned: Vec<String>,
}

impl TaskLedger {
    /// The ids waiting to be claimed, in ascending order.
    pub closed spec fn reg_seq(&self) -> Seq<Seq<char>> {
        ids_of(self.registered@)
    }

    /// The ids already handed out, in the order they were claimed.
    pub closed spec fn asg_seq(&self) -> Seq<Seq<char>> {
        ids_of(self.assigned@)
    }

    pub open spec fn reg_set(&self) -> Set<Seq<char>> {
        self.reg_seq().to_set()
    }

    pub open spec fn asg_set(&self) -> Set<Seq<char>> {
        self.asg_seq().to_set()
    }

    /// The representation invariant: the waiting ids are strictly sorted,
    /// the assigned ids carry no duplicate, and no id is in both states.
    pub open spec fn wf(&self) -> bool {
        &&& strictly_sorted(self.reg_seq())
        &&& (forall|i: int, j: int|
            0 <= i < j < self.asg_seq().len() ==> self.asg_seq()[i] != self.asg_seq()[j])
        &&& (forall|x: Seq<char>| !(self.reg_set().contains(x) && self.asg_set().contains(x)))
    }

    /// An empty ledger: nothing registered, nothing assigned.
    pub fn new() -> (r: TaskLedger)
        ensures
            r.wf(),
            r.reg_seq() == Seq::<Seq<char>>::empty(),
            r.asg_seq() == Seq::<Seq<char>>::empty(),
    {
        let r = TaskLedger { registered: Vec::new(), assigned: Vec::new() };
        proof {
            assert(r.reg_seq() =~= Seq::<Seq<char>>::empty());
            assert(r.asg_seq() =~= Seq::<Seq<char>>::empty());
        }
        r
    }

    /// Inserts `id` into the registered set only if it is absent from both
    /// sets; otherwise the ledger is left exactly as it was.
    pub fn register(&mut self, id: String)
        requires
            old(self).wf(),
        ensures
            final(self).wf(),
            final(self).reg_set() == spec_register(old(self).reg_set(), old(self).asg_set(), id@),
            final(self).asg_seq() == old(self).asg_seq(),
            old(self).reg_set().contains(id@) || old(self).asg_set().contains(id@)
                ==> final(self).reg_seq() == old(self).reg_seq(),
    {
        if contains_id(&self.registered, id.as_str()) || contains_id(&self.assigned, id.as_str()) {
            return;
        }
        let pos = lower_bound(&self.registered, id.as_str());
        let ghost old_ids = self.reg_seq();
        self.registered.insert(pos, id);
        proof {
            let new_ids = self.reg_seq();
            assert(new_ids =~= old_ids.insert(pos as int, id@)) by {
                assert forall|k: int| 0 <= k < new_ids.len() implies new_ids[k] == old_ids.insert(
                    pos as int, id@)[k] by {}
            }
            // each waiting id other than the new one keeps a position;
            // below pos it is smaller than the new id, at or above it is
            // larger, so the order stays strict
            assert forall|i: int, j: int| 0 <= i < j < new_ids.len() implies lex_lt(
                new_ids[i], new_ids[j]) by {
                if i < pos && j == pos {
                } else if i == pos && j > pos {
                    lemma_lex_trichotomy(id@, old_ids[j - 1]);
                    if old_ids[j - 1] == id@ {
                        assert(old_ids.contains(old_ids[j - 1]));
                        assert(old(self).reg_set().contains(id@));
                    }
                } else if i < pos && j > pos {
                } else {
                }
            }
            assert(self.reg_set() =~= spec_register(
                old(self).reg_set(), old(self).asg_set(), id@)) by {
                assert forall|x: Seq<char>| new_ids.contains(x) implies (x == id@
                    || old_ids.contains(x)) by {
                    let k = choose|k: int| 0 <= k < new_ids.len() && new_ids[k] == x;
                    if k < pos {
                        assert(old_ids[k] == x);
                    } else if k > pos {
                        assert(old_ids[k - 1] == x);
                    }
                }
                assert forall|x: Seq<char>| old_ids.contains(x) implies new_ids.contains(x) by {
                    let k = choose|k: int| 0 <= k < old_ids.len() && old_ids[k] == x;
                    if k < pos {
                        assert(new_ids[k] == x);
                    } else {
                        assert(new_ids[k + 1] == x);
                    }
                }
                assert(new_ids.contains(id@)) by {
                    assert(new_ids[pos as int] == id@);
                }
            }
        }
    }

    /// Removes and returns the lexicographically smallest registered id,
    /// moving it to the assigned set in the same step; returns nothing when
    /// no id is waiting.
    pub fn claim_next(&mut self) -> (r: Option<String>)
        requires
            old(self).wf(),
        ensures
            final(self).wf(),
            r is Some <==> old(self).reg_seq().len() > 0,
            r is None ==> final(self).reg_seq() == old(self).reg_seq()
                && final(self).asg_seq() == old(self).asg_seq(),
            r matches Some(id) ==> is_lex_min(old(self).reg_set(), id@)
                && final(self).reg_set() == old(self).reg_set().remove(id@)
                && final(self).asg_set() == old(self).asg_set().insert(id@),
            r matches Some(id) ==> claim_of(old(self).reg_set()) == Some(id@),
            r is None ==> claim_of(old(self).reg_set()) is None,
    {
        if self.registered.len() == 0 {
            proof {
                if exists|m: Seq<char>| is_lex_min(self.reg_set(), m) {
                    let m = choose|m: Seq<char>| is_lex_min(self.reg_set(), m);
                    assert(self.reg_seq().contains(m));
                }
            }
            return None;
        }
        let ghost old_ids = self.reg_seq();
        let id = self.registered.remove(0);
        let ret = id.clone();
        let ghost old_asg = self.asg_seq();
        self.assigned.push(id);
        proof {
            let new_ids = self.reg_seq();
            let new_asg = self.asg_seq();
            assert(new_ids =~= old_ids.remove(0)) by {
                assert forall|k: int| 0 <= k < new_ids.len() implies new_ids[k] == old_ids[k
                    + 1] by {}
            }
            assert(new_asg =~= old_asg.push(ret@)) by {
                assert forall|k: int| 0 <= k < new_asg.len() implies new_asg[k] == old_asg.push(
                    ret@)[k] by {}
            }
            // the head of a strictly sorted sequence is the least member
            assert(is_lex_min(old(self).reg_set(), ret@)) by {
                assert(old_ids[0] == ret@);
                assert(old(self).reg_set().contains(ret@));
                assert forall|t: Seq<char>| old(self).reg_set().contains(t) && t != ret@
                    implies lex_lt(ret@, t) by {
                    let k = choose|k: int| 0 <= k < old_ids.len() && old_ids[k] == t;
                    if k == 0 {
                    } else {
                        assert(lex_lt(old_ids[0], old_ids[k]));
                    }
                }
            }
            assert(self.reg_set() =~= old(self).reg_set().remove(ret@)) by {
                assert forall|x: Seq<char>| new_ids.contains(x) implies old_ids.contains(x)
                    && x != ret@ by {
                    let k = choose|k: int| 0 <= k < new_ids.len() && new_ids[k] == x;
                    assert(old_ids[k + 1] == x);
                    assert(lex_lt(old_ids[0], old_ids[k + 1]));
                    lemma_lex_irreflexive(old_ids[0]);
                }
                assert forall|x: Seq<char>| old_ids.contains(x) && x != ret@
                    implies new_ids.contains(x) by {
                    let k = choose|k: int| 0 <= k < old_ids.len() && old_ids[k] == x;
                    if k > 0 {
                        assert(new_ids[k - 1] == x);
                    }
                }
            }
            lemma_claim_of_min(old(self).reg_set(), ret@);
            Seq::lemma_push_to_set_commute(old_asg, ret@);
            // the claimed id was waiting, so it was not yet assigned, and
            // every other id keeps its state
            assert forall|i: int, j: int| 0 <= i < j < new_asg.len() implies new_asg[i]
                != new_asg[j] by {
                if j == new_asg.len() - 1 {
                    assert(new_asg[i] == old_asg[i]);
                    assert(old_asg.contains(old_asg[i]));
                    assert(old(self).asg_set().contains(old_asg[i]));
                    assert(old(self).reg_set().contains(ret@));
                }
            }
        }
        Some(ret)
    }

    /// How many ids are waiting to be claimed.
    pub fn registered_len(&self) -> (n: usize)
        ensures
            n == self.reg_seq().len(),
    {
        self.registered.len()
    }

    /// How many ids have been handed out.
    pub fn assigned_len(&self) -> (n: usize)
        ensures
            n == self.asg_seq().len(),
    {
        self.assigned.len()
    }
}

/// What one claim returns when the registered set is `reg`: its
/// lexicographically smallest member, or nothing when the set is empty.
pub open spec fn claim_of(reg: Set<Seq<char>>) -> Option<Seq<char>> {
    if exists|m: Seq<char>| is_lex_min(reg, m) {
        Some(choose|m: Seq<char>| is_lex_min(reg, m))
    } else {
        None
    }
}

/// The registered set after one claim.
pub open spec fn after_claim(reg: Set<Seq<char>>) -> Set<Seq<char>> {
    match claim_of(reg) {
        Some(m) => reg.remove(m),
        None => reg,
    }
}

/// The results of `n` successive claims starting from the registered set
/// `reg`, with no registration in between.
pub open spec fn claims_from(reg: Set<Seq<char>>, n: nat) -> Seq<Option<Seq<char>>>
    decreases n,
{
    if n == 0 {
        Seq::empty()
    } else {
        seq![claim_of(reg)] + claims_from(after_claim(reg), (n - 1) as nat)
    }
}

/// How many of the results carry an id.
pub open spec fn count_some(s: Seq<Option<Seq<char>>>) -> nat
    decreases s.len(),
{
    if s.len() == 0 {
        0
    } else {
        (if s[0] is Some {
            1nat
        } else {
            0nat
        }) + count_some(s.drop_first())
    }
}

/// A run of `n` claims yields `n` results.
pub proof fn lemma_claims_len(reg: Set<Seq<char>>, n: nat)
    ensures
        claims_from(reg, n).len() == n,
    decreases n,
{
    if n > 0 {
        lemma_claims_len(after_claim(reg), (n - 1) as nat);
    }
}

/// A set has at most one least member.
pub proof fn lemma_lex_min_unique(s: Set<Seq<char>>, m1: Seq<char>, m2: Seq<char>)
    requires
        is_lex_min(s, m1),
        is_lex_min(s, m2),
    ensures
        m1 == m2,
{
    if m1 != m2 {
        lemma_lex_asymmetric(m1, m2);
    }
}

/// A finite, non-empty set has a least member.
pub proof fn lemma_lex_min_exists(s: Set<Seq<char>>)
    requires
        s.finite(),
        s.len() > 0,
    ensures
        exists|m: Seq<char>| is_lex_min(s, m),
    decreases s.len(),
{
    broadcast use vstd::set::group_set_axioms;

    let x = s.choose();
    assert(s.contains(x));
    let rest = s.remove(x);
    if rest.len() == 0 {
        assert forall|t: Seq<char>| s.contains(t) && t != x implies lex_lt(x, t) by {
            assert(rest.contains(t));
        }
        assert(is_lex_min(s, x));
    } else {
        lemma_lex_min_exists(rest);
        let m = choose|m: Seq<char>| is_lex_min(rest, m);
        lemma_lex_trichotomy(x, m);
        if lex_lt(x, m) {
            assert forall|t: Seq<char>| s.contains(t) && t != x implies lex_lt(x, t) by {
                assert(rest.contains(t));
                if t != m {
                    lemma_lex_transitive(x, m, t);
                }
            }
            assert(is_lex_min(s, x));
        } else {
            assert(rest.contains(m));
            assert(m != x);
            assert(lex_lt(m, x));
            assert forall|t: Seq<char>| s.contains(t) && t != m implies lex_lt(m, t) by {
                if t != x {
                    assert(rest.contains(t));
                }
            }
            assert(is_lex_min(s, m));
        }
    }
}

/// The model and the operation agree: a claim on a set whose least member
/// is `m` returns `m`.
pub proof fn lemma_claim_of_min(reg: Set<Seq<char>>, m: Seq<char>)
    requires
        is_lex_min(reg, m),
    ensures
        claim_of(reg) == Some(m),
{
    let m2 = choose|m2: Seq<char>| is_lex_min(reg, m2);
    lemma_lex_min_unique(reg, m, m2);
}

/// Register idempotence: registering an id a second time changes nothing,
/// and after one registration the id is present in exactly one of the two
/// sets.
pub proof fn lemma_register_idempotent(reg: Set<Seq<char>>, asg: Set<Seq<char>>, id: Seq<char>)
    requires
        forall|x: Seq<char>| !(reg.contains(x) && asg.contains(x)),
    ensures
        spec_register(spec_register(reg, asg, id), asg, id) == spec_register(reg, asg, id),
        spec_register(reg, asg, id).contains(id) || asg.contains(id),
        !(spec_register(reg, asg, id).contains(id) && asg.contains(id)),
{
    broadcast use vstd::set::group_set_axioms;

}

/// Registrations commute: the ledger reached does not depend on the order
/// in which two ids arrive.
pub proof fn lemma_register_commutes(
    reg: Set<Seq<char>>,
    asg: Set<Seq<char>>,
    a: Seq<char>,
    b: Seq<char>,
)
    ensures
        spec_register(spec_register(reg, asg, a), asg, b) == spec_register(
            spec_register(reg, asg, b),
            asg,
            a,
        ),
{
    broadcast use vstd::set::group_set_axioms;

    assert(spec_register(spec_register(reg, asg, a), asg, b) =~= spec_register(
        spec_register(reg, asg, b),
        asg,
        a,
    ));
}

/// Every id that a run of claims hands out was registered at its start.
pub proof fn lemma_claims_members(reg: Set<Seq<char>>, n: nat, k: int)
    requires
        reg.finite(),
        0 <= k < n,
        claims_from(reg, n)[k] is Some,
    ensures
        reg.contains(claims_from(reg, n)[k]->0),
        after_claim(reg).finite(),
    decreases n,
{
    broadcast use vstd::set::group_set_axioms;

    let rs = claims_from(reg, n);
    let tail = claims_from(after_claim(reg), (n - 1) as nat);
    lemma_claims_len(reg, n);
    lemma_claims_len(after_claim(reg), (n - 1) as nat);
    if k == 0 {
        let m = choose|m: Seq<char>| is_lex_min(reg, m);
        assert(rs[0] == claim_of(reg));
    } else {
        assert(rs[k] == tail[k - 1]);
        lemma_claims_members(after_claim(reg), (n - 1) as nat, k - 1);
        assert(after_claim(reg).contains(rs[k]->0));
        if claim_of(reg) is Some {
            let m = claim_of(reg)->0;
            assert(after_claim(reg) == reg.remove(m));
        }
    }
}

/// Deterministic order: the ids handed out by successive claims come out
/// in ascending lexicographic order.
pub proof fn lemma_claims_ascending(reg: Set<Seq<char>>, n: nat, i: int, j: int)
    requires
        reg.finite(),
        0 <= i < j < n,
        claims_from(reg, n)[i] is Some,
        claims_from(reg, n)[j] is Some,
    ensures
        lex_lt(claims_from(reg, n)[i]->0, claims_from(reg, n)[j]->0),
    decreases n,
{
    broadcast use vstd::set::group_set_axioms;

    let rs = claims_from(reg, n);
    let after = after_claim(reg);
    let tail = claims_from(after, (n - 1) as nat);
    lemma_claims_len(reg, n);
    lemma_claims_len(after, (n - 1) as nat);
    assert(rs[j] == tail[j - 1]);
    if i == 0 {
        let m = rs[0]->0;
        assert(claim_of(reg) == rs[0]);
        assert(is_lex_min(reg, m)) by {
            let w = choose|w: Seq<char>| is_lex_min(reg, w);
            assert(claim_of(reg) == Some(w));
        }
        assert(after == reg.remove(m));
        lemma_claims_members(reg, n, j);
        lemma_claims_members(after, (n - 1) as nat, j - 1);
        assert(after.contains(rs[j]->0));
        assert(rs[j]->0 != m);
    } else {
        assert(rs[i] == tail[i - 1]);
        lemma_claims_members(reg, n, i);
        lemma_claims_ascending(after, (n - 1) as nat, i - 1, j - 1);
    }
}

/// Claim exclusivity, one half: no two claims return the same id.
pub proof fn lemma_claims_exclusive(reg: Set<Seq<char>>, n: nat, i: int, j: int)
    requires
        reg.finite(),
        0 <= i < j < n,
        claims_from(reg, n)[i] is Some,
        claims_from(reg, n)[j] is Some,
    ensures
        claims_from(reg, n)[i]->0 != claims_from(reg, n)[j]->0,
{
    lemma_claims_ascending(reg, n, i, j);
    lemma_lex_irreflexive(claims_from(reg, n)[i]->0);
}

/// Claim exclusivity, the other half: with K ids registered, `n` claims
/// hand out exactly min(K, n) ids.
pub proof fn lemma_claims_count(reg: Set<Seq<char>>, n: nat)
    requires
        reg.finite(),
    ensures
        count_some(claims_from(reg, n)) == vstd::math::min(reg.len() as int, n as int),
    decreases n,
{
    broadcast use vstd::set::group_set_axioms;

    let rs = claims_from(reg, n);
    if n == 0 {
    } else {
        let after = after_claim(reg);
        let tail = claims_from(after, (n - 1) as nat);
        lemma_claims_len(reg, n);
        lemma_claims_len(after, (n - 1) as nat);
        assert(rs.drop_first() =~= tail);
        if reg.len() == 0 {
            assert(claim_of(reg) is None) by {
                if exists|m: Seq<char>| is_lex_min(reg, m) {
                    let m = choose|m: Seq<char>| is_lex_min(reg, m);
                    assert(reg.contains(m));
                }
            }
            lemma_claims_count(reg, (n - 1) as nat);
        } else {
            lemma_lex_min_exists(reg);
            let m = choose|m: Seq<char>| is_lex_min(reg, m);
            assert(claim_of(reg) == Some(m));
            assert(reg.contains(m));
            assert(after == reg.remove(m));
            lemma_claims_count(after, (n - 1) as nat);
        }
    }
}

/// Deterministic order, concretely: with exactly the three ids
/// `a < b < c` registered — in whatever order they arrived, since
/// registrations commute — three claims return `a`, then `b`, then `c`.
pub proof fn lemma_claims_three_in_order(a: Seq<char>, b: Seq<char>, c: Seq<char>)
    requires
        lex_lt(a, b),
        lex_lt(b, c),
    ensures
        claims_from(set![a, b, c], 3) =~= seq![Some(a), Some(b), Some(c)],
{
    broadcast use vstd::set::group_set_axioms;

    let s3 = set![a, b, c];
    let s2 = set![b, c];
    let s1 = set![c];
    lemma_lex_transitive(a, b, c);
    lemma_lex_asymmetric(a, b);
    lemma_lex_asymmetric(b, c);
    lemma_lex_asymmetric(a, c);
    lemma_lex_irreflexive(a);
    lemma_lex_irreflexive(b);
    lemma_lex_irreflexive(c);
    assert(is_lex_min(s3, a)) by {
        assert forall|t: Seq<char>| s3.contains(t) && t != a implies lex_lt(a, t) by {
            if t != b {
                assert(t == c);
            }
        }
    }
    lemma_claim_of_min(s3, a);
    assert(s3.remove(a) =~= s2);
    assert(is_lex_min(s2, b)) by {
        assert forall|t: Seq<char>| s2.contains(t) && t != b implies lex_lt(b, t) by {
            assert(t == c);
        }
    }
    lemma_claim_of_min(s2, b);
    assert(s2.remove(b) =~= s1);
    assert(is_lex_min(s1, c));
    lemma_claim_of_min(s1, c);
    lemma_claims_len(s3, 3);
    lemma_claims_len(s2, 2);
    lemma_claims_len(s1, 1);
    assert(claims_from(s3, 3)[0] == Some(a));
    assert(claims_from(s3, 3)[1] == claims_from(s2, 2)[0]);
    assert(claims_from(s2, 2)[0] == Some(b));
    assert(claims_from(s3, 3)[2] == claims_from(s2, 2)[1]);
    assert(claims_from(s2, 2)[1] == claims_from(s1, 1)[0]);
    assert(claims_from(s1, 1)[0] == Some(c));
}

/// Whether some string of `v` reads as `id`.
fn contains_id(v: &Vec<String>, id: &str) -> (r: bool)
    ensures
        r == ids_of(v@).contains(id@),
{
    let mut k: usize = 0;
    while k < v.len()
        invariant
            k <= v@.len(),
            forall|j: int| 0 <= j < k ==> ids_of(v@)[j] != id@,
        decreases v@.len() - k,
    {
        if str_eq(v[k].as_str(), id) {
            proof {
                assert(ids_of(v@)[k as int] == id@);
            }
            return true;
        }
        k = k + 1;
    }
    false
}

/// The position where `id` belongs in the sorted vector `v`: everything
/// before it is smaller, everything from it on is not.
fn lower_bound(v: &Vec<String>, id: &str) -> (pos: usize)
    requires
        strictly_sorted(ids_of(v@)),
    ensures
        pos <= v@.len(),
        forall|j: int| 0 <= j < pos ==> lex_lt(ids_of(v@)[j], id@),
        forall|j: int| pos <= j < v@.len() ==> !lex_lt(ids_of(v@)[j], id@),
{
    let ghost ids = ids_of(v@);
    let mut k: usize = 0;
    while k < v.len()
        invariant
            k <= v@.len(),
            ids == ids_of(v@),
            strictly_sorted(ids),
            forall|j: int| 0 <= j < k ==> lex_lt(ids[j], id@),
        decreases v@.len() - k,
    {
        if !str_lt(v[k].as_str(), id) {
            proof {
                assert forall|j: int| k <= j < ids.len() implies !lex_lt(ids[j], id@) by {
                    if j > k && lex_lt(ids[j], id@) {
                        lemma_lex_transitive(ids[k as int], ids[j], id@);
                    }
                }
            }
            return k;
        }
        k = k + 1;
    }
    k
}

} // verus!
