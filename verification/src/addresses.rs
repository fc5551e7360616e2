//! The address set of a record: unique members, iterated in sorted order.
//!
//! The set is a vector kept strictly sorted under the total order of
//! [`crate::order`]. Insertion is idempotent: a token equal to a stored
//! member leaves the set unchanged, so duplicate address tokens within
//! one row collapse silently.

use vstd::prelude::*;

use crate::order::{addr_le, addr_eq, addr_le_exec, lemma_addr_le_refl, lemma_addr_le_total,
    lemma_addr_le_antisym, lemma_addr_le_trans};
use crate::types::{AddrModel, Address};

verus! {

/// Strictly increasing under the address order: sorted, no duplicates.
pub open spec fn strictly_sorted(s: Seq<AddrModel>) -> bool {
    forall|i: int, j: int|
        0 <= i < j < s.len() ==> addr_le(#[trigger] s[i], #[trigger] s[j]) && s[i] != s[j]
}

/// Where an address lands when inserted into a sorted sequence:
/// before the first member it precedes, dropped if that member equals it.
pub open spec fn spec_insert(s: Seq<AddrModel>, a: AddrModel) -> Seq<AddrModel>
    decreases s.len(),
{
    if s.len() == 0 {
        seq![a]
    } else if a == s[0] {
        s
    } else if addr_le(a, s[0]) {
        seq![a] + s
    } else {
        seq![s[0]] + spec_insert(s.skip(1), a)
    }
}

/// Membership in a sequence with one member put in front.
proof fn lemma_cons_contains(h: AddrModel, t: Seq<AddrModel>, x: AddrModel)
    ensures
        (seq![h] + t).contains(x) <==> x == h || t.contains(x),
{
    let r = seq![h] + t;
    assert(r[0] == h);
    if t.contains(x) {
        let j = choose|j: int| 0 <= j < t.len() && t[j] == x;
        assert(r[j + 1] == x);
    }
    if r.contains(x) {
        let j = choose|j: int| 0 <= j < r.len() && r[j] == x;
        if j > 0 {
            assert(t[j - 1] == x);
        }
    }
}

/// Insertion adds exactly the new member to the set of members.
pub proof fn lemma_spec_insert_contains(s: Seq<AddrModel>, a: AddrModel, x: AddrModel)
    ensures
        spec_insert(s, a).contains(x) <==> s.contains(x) || x == a,
    decreases s.len(),
{
    if s.len() == 0 {
        assert(spec_insert(s, a) =~= seq![a] + Seq::<AddrModel>::empty());
        lemma_cons_contains(a, Seq::<AddrModel>::empty(), x);
        assert(!s.contains(x));
        assert(!Seq::<AddrModel>::empty().contains(x));
    } else {
        assert(s =~= seq![s[0]] + s.skip(1));
        lemma_cons_contains(s[0], s.skip(1), x);
        if a == s[0] {
        } else if addr_le(a, s[0]) {
            lemma_cons_contains(a, s, x);
        } else {
            lemma_spec_insert_contains(s.skip(1), a, x);
            lemma_cons_contains(s[0], spec_insert(s.skip(1), a), x);
        }
    }
}

/// Insertion into a strictly sorted sequence keeps it strictly sorted.
pub proof fn lemma_spec_insert_sorted(s: Seq<AddrModel>, a: AddrModel)
    requires
        strictly_sorted(s),
    ensures
        strictly_sorted(spec_insert(s, a)),
    decreases s.len(),
{
    if s.len() == 0 {
    } else if a == s[0] {
    } else if addr_le(a, s[0]) {
        let r = seq![a] + s;
        assert forall|i: int, j: int| 0 <= i < j < r.len() implies addr_le(#[trigger] r[i], #[trigger] r[j])
            && r[i] != r[j] by {
            if i == 0 {
                assert(r[0] == a);
                assert(r[j] == s[j - 1]);
                if j - 1 == 0 {
                    assert(addr_le(a, s[0]));
                    assert(a != s[0]);
                } else {
                    assert(addr_le(s[0], s[j - 1]) && s[0] != s[j - 1]);
                    lemma_addr_le_trans(a, s[0], s[j - 1]);
                    if a == s[j - 1] {
                        lemma_addr_le_antisym(a, s[0]);
                    }
                }
            } else {
                assert(r[i] == s[i - 1] && r[j] == s[j - 1]);
            }
        }
    } else {
        assert(strictly_sorted(s.skip(1))) by {
            assert(forall|i: int, j: int|
                0 <= i < j < s.skip(1).len() ==> s.skip(1)[i] == s[i + 1] && s.skip(1)[j] == s[j
                    + 1]);
        }
        lemma_spec_insert_sorted(s.skip(1), a);
        let rest = spec_insert(s.skip(1), a);
        let r = seq![s[0]] + rest;
        // s[0] strictly precedes every member of rest
        assert forall|k: int| 0 <= k < rest.len() implies addr_le(s[0], #[trigger] rest[k]) && s[0]
            != rest[k] by {
            lemma_spec_insert_contains(s.skip(1), a, rest[k]);
            if rest[k] == a {
                lemma_addr_le_total(a, s[0]);
                assert(addr_le(s[0], a));
                assert(s[0] != a);
            } else {
                assert(s.skip(1).contains(rest[k]));
                let j = choose|j: int| 0 <= j < s.skip(1).len() && s.skip(1)[j] == rest[k];
                assert(s[j + 1] == rest[k]);
                assert(addr_le(s[0], s[j + 1]) && s[0] != s[j + 1]);
            }
        }
        assert forall|i: int, j: int| 0 <= i < j < r.len() implies addr_le(#[trigger] r[i], #[trigger] r[j])
            && r[i] != r[j] by {
            if i == 0 {
                assert(r[j] == rest[j - 1]);
            } else {
                assert(r[i] == rest[i - 1] && r[j] == rest[j - 1]);
            }
        }
    }
}

/// The sequence inserted member by member, left to right.
pub open spec fn insert_all(s: Seq<AddrModel>, xs: Seq<AddrModel>) -> Seq<AddrModel>
    decreases xs.len(),
{
    if xs.len() == 0 {
        s
    } else {
        insert_all(spec_insert(s, xs[0]), xs.skip(1))
    }
}

/// Inserting one more member continues the left-to-right fold.
pub proof fn lemma_insert_all_push(s: Seq<AddrModel>, xs: Seq<AddrModel>, x: AddrModel)
    ensures
        insert_all(s, xs.push(x)) == spec_insert(insert_all(s, xs), x),
    decreases xs.len(),
{
    if xs.len() == 0 {
        assert(xs.push(x)[0] == x);
        assert(xs.push(x).skip(1) =~= Seq::<AddrModel>::empty());
        assert(insert_all(s, xs) == s);
        assert(insert_all(s, xs.push(x)) == insert_all(
            spec_insert(s, x),
            Seq::<AddrModel>::empty(),
        ));
        assert(insert_all(spec_insert(s, x), Seq::<AddrModel>::empty()) == spec_insert(s, x));
    } else {
        assert(xs.push(x)[0] == xs[0]);
        assert(xs.push(x).skip(1) =~= xs.skip(1).push(x));
        lemma_insert_all_push(spec_insert(s, xs[0]), xs.skip(1), x);
    }
}

/// Folding a whole sequence of members in keeps the set sorted.
pub proof fn lemma_insert_all_sorted(s: Seq<AddrModel>, xs: Seq<AddrModel>)
    requires
        strictly_sorted(s),
    ensures
        strictly_sorted(insert_all(s, xs)),
    decreases xs.len(),
{
    if xs.len() > 0 {
        lemma_spec_insert_sorted(s, xs[0]);
        lemma_insert_all_sorted(spec_insert(s, xs[0]), xs.skip(1));
    }
}

/// A set of blocked addresses: unique members in sorted order.
#[derive(Clone, Debug, PartialEq, Eq)]
pub struct Addresses {
    items: Vec<Address>,
}

impl View for Addresses {
    type V = Seq<AddrModel>;

    closed spec fn view(&self) -> Seq<AddrModel> {
        self.items@.map_values(|a: Address| a@)
    }
}

impl Addresses {
    /// The members are strictly sorted, hence unique.
    pub open spec fn wf(&self) -> bool {
        strictly_sorted(self@)
    }

    /// The empty set.
    pub fn new() -> (r: Addresses)
        ensures
            r@ == Seq::<AddrModel>::empty(),
            r.wf(),
    {
        let r = Addresses { items: Vec::new() };
        proof {
            assert(r@ =~= Seq::<AddrModel>::empty());
        }
        r
    }

    /// How many members the set holds.
    pub fn len(&self) -> (n: usize)
        ensures
            n == self@.len(),
    {
        self.items.len()
    }

    /// The member at sorted position `i`.
    pub fn get(&self, i: usize) -> (a: &Address)
        requires
            i < self@.len(),
        ensures
            a@ == self@[i as int],
    {
        &self.items[i]
    }

    /// Insert `a`, keeping the members sorted; a member equal to `a`
    /// makes this a no-op.
    pub fn insert(&mut self, a: Address)
        requires
            old(self).wf(),
        ensures
            final(self)@ == spec_insert(old(self)@, a@),
            final(self).wf(),
    {
        let ghost s = self@;
        let n: usize = self.items.len();
        let mut i: usize = 0;
        let mut stop: bool = false;
        while !stop && i < n
            invariant
                self == old(self),
                s == self@,
                strictly_sorted(s),
                0 <= i <= n,
                n == self.items@.len(),
                s.len() == n,
                forall|k: int| 0 <= k < i ==> !addr_le(a@, #[trigger] s[k]),
                stop ==> i < n && addr_le(a@, s[i as int]),
            decreases 2 * (n - i) + (if stop { 0int } else { 1int }),
        {
            proof {
                assert(s[i as int] == self.items@[i as int]@);
            }
            if addr_le_exec(&a, &self.items[i]) {
                stop = true;
            } else {
                i = i + 1;
            }
        }
        proof {
            lemma_spec_insert_sorted(s, a@);
        }
        if stop {
            proof {
                assert(s[i as int] == self.items@[i as int]@);
            }
            if addr_eq(&self.items[i], &a) {
                proof {
                    lemma_spec_insert_skips_equal(s, a@, i as int);
                }
                return;
            }
            proof {
                lemma_spec_insert_position(s, a@, i as int);
            }
            self.items.insert(i, a);
            proof {
                assert(self@ =~= s.insert(i as int, a@));
            }
        } else {
            proof {
                assert(i == n);
                lemma_spec_insert_position(s, a@, i as int);
            }
            self.items.insert(i, a);
            proof {
                assert(self@ =~= s.insert(i as int, a@));
            }
        }
    }
}

/// When the scan stops at a member equal to `a`, insertion is a no-op.
proof fn lemma_spec_insert_skips_equal(s: Seq<AddrModel>, a: AddrModel, i: int)
    requires
        strictly_sorted(s),
        0 <= i < s.len(),
        s[i] == a,
        forall|k: int| 0 <= k < i ==> !addr_le(a, #[trigger] s[k]),
    ensures
        spec_insert(s, a) == s,
    decreases i,
{
    if i == 0 {
        assert(a == s[0]);
    } else {
        lemma_addr_le_refl(a);
        assert(!addr_le(a, s[0]));
        assert(a != s[0]);
        assert(strictly_sorted(s.skip(1))) by {
            assert(forall|p: int, q: int|
                0 <= p < q < s.skip(1).len() ==> s.skip(1)[p] == s[p + 1] && s.skip(1)[q] == s[q
                    + 1]);
        }
        assert(s.skip(1)[i - 1] == a);
        assert(forall|k: int| 0 <= k < i - 1 ==> s.skip(1)[k] == s[k + 1]);
        lemma_spec_insert_skips_equal(s.skip(1), a, i - 1);
        assert(spec_insert(s, a) =~= seq![s[0]] + s.skip(1));
        assert(seq![s[0]] + s.skip(1) =~= s);
    }
}

/// When the scan stops at position `i` with no equal member there,
/// insertion splices `a` in at `i`.
proof fn lemma_spec_insert_position(s: Seq<AddrModel>, a: AddrModel, i: int)
    requires
        strictly_sorted(s),
        0 <= i <= s.len(),
        i < s.len() ==> addr_le(a, s[i]) && s[i] != a,
        forall|k: int| 0 <= k < i ==> !addr_le(a, #[trigger] s[k]),
    ensures
        spec_insert(s, a) == s.insert(i, a),
    decreases i,
{
    if i == 0 {
        if s.len() == 0 {
            assert(spec_insert(s, a) =~= s.insert(0, a));
        } else {
            assert(a != s[0]);
            assert(seq![a] + s =~= s.insert(0, a));
        }
    } else {
        lemma_addr_le_refl(a);
        assert(!addr_le(a, s[0]));
        assert(a != s[0]);
        assert(strictly_sorted(s.skip(1))) by {
            assert(forall|p: int, q: int|
                0 <= p < q < s.skip(1).len() ==> s.skip(1)[p] == s[p + 1] && s.skip(1)[q] == s[q
                    + 1]);
        }
        assert(forall|k: int| 0 <= k < i - 1 ==> s.skip(1)[k] == s[k + 1]);
        assert(i - 1 < s.skip(1).len() ==> s.skip(1)[i - 1] == s[i]);
        lemma_spec_insert_position(s.skip(1), a, i - 1);
        assert(spec_insert(s, a) =~= seq![s[0]] + s.skip(1).insert(i - 1, a));
        assert(seq![s[0]] + s.skip(1).insert(i - 1, a) =~= s.insert(i, a));
    }
}

} // verus!
