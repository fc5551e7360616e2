//! The total order on addresses.
//!
//! Ordering is lexicographic on (variant tag, payload): IPv4 hosts,
//! then IPv4 networks, then domain names, then wildcard domain names,
//! then URLs; payloads compare by octets, by (octets, prefix length),
//! or by character sequence. The order carries no semantic meaning: it
//! exists so that the address set of a record stores and iterates its
//! members deterministically.

use vstd::prelude::*;
use vstd::string::StrSliceExecFns;

use crate::types::{AddrModel, Address, Ipv4};

verus! {

/// Rank of the variant tag in the total order.
pub open spec fn addr_rank(a: AddrModel) -> int {
    match a {
        AddrModel::IPv4(_) => 0,
        AddrModel::IPv4Network(_, _) => 1,
        AddrModel::DomainName(_) => 2,
        AddrModel::WildcardDomainName(_) => 3,
        AddrModel::URL(_) => 4,
    }
}

/// Lexicographic order on character sequences, by code point.
pub open spec fn seq_char_le(x: Seq<char>, y: Seq<char>) -> bool
    decreases x.len(),
{
    if x.len() == 0 {
        true
    } else if y.len() == 0 {
        false
    } else if x[0] == y[0] {
        seq_char_le(x.skip(1), y.skip(1))
    } else {
        (x[0] as int) < (y[0] as int)
    }
}

/// Lexicographic order on the four octets.
pub open spec fn ipv4_le(x: Ipv4, y: Ipv4) -> bool {
    if x.a != y.a {
        x.a < y.a
    } else if x.b != y.b {
        x.b < y.b
    } else if x.c != y.c {
        x.c < y.c
    } else {
        x.d <= y.d
    }
}

/// The total order on address models: variant tag first, payload second.
pub open spec fn addr_le(x: AddrModel, y: AddrModel) -> bool {
    if addr_rank(x) != addr_rank(y) {
        addr_rank(x) < addr_rank(y)
    } else {
        match (x, y) {
            (AddrModel::IPv4(p), AddrModel::IPv4(q)) => ipv4_le(p, q),
            (AddrModel::IPv4Network(p, m), AddrModel::IPv4Network(q, n)) => if p != q {
                ipv4_le(p, q)
            } else {
                m <= n
            },
            (AddrModel::DomainName(s), AddrModel::DomainName(t)) => seq_char_le(s, t),
            (AddrModel::WildcardDomainName(s), AddrModel::WildcardDomainName(t)) => seq_char_le(
                s,
                t,
            ),
            (AddrModel::URL(s), AddrModel::URL(t)) => seq_char_le(s, t),
            _ => true,
        }
    }
}

/// The character order is total.
pub proof fn lemma_seq_char_le_total(x: Seq<char>, y: Seq<char>)
    ensures
        seq_char_le(x, y) || seq_char_le(y, x),
    decreases x.len(),
{
    if x.len() > 0 && y.len() > 0 && x[0] == y[0] {
        lemma_seq_char_le_total(x.skip(1), y.skip(1));
    }
}

/// The character order is antisymmetric.
pub proof fn lemma_seq_char_le_antisym(x: Seq<char>, y: Seq<char>)
    requires
        seq_char_le(x, y),
        seq_char_le(y, x),
    ensures
        x == y,
    decreases x.len(),
{
    if x.len() == 0 {
        assert(y.len() == 0);
        assert(x =~= y);
    } else {
        assert(y.len() > 0);
        assert(x[0] == y[0]);
        lemma_seq_char_le_antisym(x.skip(1), y.skip(1));
        assert forall|k: int| 0 <= k < x.len() implies x[k] == y[k] by {
            if k > 0 {
                assert(x.skip(1)[k - 1] == x[k]);
                assert(y.skip(1)[k - 1] == y[k]);
            }
        }
        assert(x =~= y);
    }
}

/// The character order is transitive.
pub proof fn lemma_seq_char_le_trans(x: Seq<char>, y: Seq<char>, z: Seq<char>)
    requires
        seq_char_le(x, y),
        seq_char_le(y, z),
    ensures
        seq_char_le(x, z),
    decreases x.len(),
{
    if x.len() > 0 && y.len() > 0 && z.len() > 0 && x[0] == y[0] && y[0] == z[0] {
        lemma_seq_char_le_trans(x.skip(1), y.skip(1), z.skip(1));
    }
}

/// The address order is reflexive.
pub proof fn lemma_addr_le_refl(x: AddrModel)
    ensures
        addr_le(x, x),
{
    match x {
        AddrModel::DomainName(s) => lemma_seq_char_le_total(s, s),
        AddrModel::WildcardDomainName(s) => lemma_seq_char_le_total(s, s),
        AddrModel::URL(s) => lemma_seq_char_le_total(s, s),
        _ => {},
    }
}

/// The address order is total.
pub proof fn lemma_addr_le_total(x: AddrModel, y: AddrModel)
    ensures
        addr_le(x, y) || addr_le(y, x),
{
    match (x, y) {
        (AddrModel::DomainName(s), AddrModel::DomainName(t)) => lemma_seq_char_le_total(s, t),
        (AddrModel::WildcardDomainName(s), AddrModel::WildcardDomainName(t)) =>
            lemma_seq_char_le_total(s, t),
        (AddrModel::URL(s), AddrModel::URL(t)) => lemma_seq_char_le_total(s, t),
        _ => {},
    }
}

/// The address order is antisymmetric: order-equivalent addresses are equal.
pub proof fn lemma_addr_le_antisym(x: AddrModel, y: AddrModel)
    requires
        addr_le(x, y),
        addr_le(y, x),
    ensures
        x == y,
{
    match (x, y) {
        (AddrModel::DomainName(s), AddrModel::DomainName(t)) => {
            lemma_seq_char_le_antisym(s, t);
            assert(x =~= y);
        },
        (AddrModel::WildcardDomainName(s), AddrModel::WildcardDomainName(t)) => {
            lemma_seq_char_le_antisym(s, t);
            assert(x =~= y);
        },
        (AddrModel::URL(s), AddrModel::URL(t)) => {
            lemma_seq_char_le_antisym(s, t);
            assert(x =~= y);
        },
        _ => {},
    }
}

/// The address order is transitive.
pub proof fn lemma_addr_le_trans(x: AddrModel, y: AddrModel, z: AddrModel)
    requires
        addr_le(x, y),
        addr_le(y, z),
    ensures
        addr_le(x, z),
{
    match (x, y) {
        (AddrModel::DomainName(s), AddrModel::DomainName(t)) => {
            match z {
                AddrModel::DomainName(u) => lemma_seq_char_le_trans(s, t, u),
                _ => {},
            }
        },
        (AddrModel::WildcardDomainName(s), AddrModel::WildcardDomainName(t)) => {
            match z {
                AddrModel::WildcardDomainName(u) => lemma_seq_char_le_trans(s, t, u),
                _ => {},
            }
        },
        (AddrModel::URL(s), AddrModel::URL(t)) => {
            match z {
                AddrModel::URL(u) => lemma_seq_char_le_trans(s, t, u),
                _ => {},
            }
        },
        _ => {},
    }
}

/// Whether `x@` precedes or equals `y@` in the character order.
pub fn str_le(x: &str, y: &str) -> (r: bool)
    ensures
        r == seq_char_le(x@, y@),
{
    let nx: usize = x.unicode_len();
    let ny: usize = y.unicode_len();
    let mut i: usize = 0;
    proof {
        assert(x@.skip(0) =~= x@);
        assert(y@.skip(0) =~= y@);
    }
    loop
        invariant
            0 <= i <= nx,
            i <= ny,
            nx == x@.len(),
            ny == y@.len(),
            seq_char_le(x@, y@) == seq_char_le(x@.skip(i as int), y@.skip(i as int)),
        decreases nx - i,
    {
        if i >= nx {
            return true;
        }
        if i >= ny {
            return false;
        }
        let cx = x.get_char(i);
        let cy = y.get_char(i);
        if cx == cy {
            proof {
                assert(x@.skip(i as int).skip(1) =~= x@.skip(i + 1));
                assert(y@.skip(i as int).skip(1) =~= y@.skip(i + 1));
            }
            i = i + 1;
        } else {
            return (cx as u32) < (cy as u32);
        }
    }
}

/// Whether `x@` and `y@` are the same character sequence.
pub fn str_eq(x: &str, y: &str) -> (r: bool)
    ensures
        r == (x@ == y@),
{
    let nx: usize = x.unicode_len();
    let ny: usize = y.unicode_len();
    if nx != ny {
        return false;
    }
    let mut i: usize = 0;
    while i < nx
        invariant
            0 <= i <= nx,
            nx == x@.len(),
            nx == y@.len(),
            forall|k: int| 0 <= k < i ==> x@[k] == y@[k],
        decreases nx - i,
    {
        if x.get_char(i) != y.get_char(i) {
            return false;
        }
        i = i + 1;
    }
    proof {
        assert(x@ =~= y@);
    }
    true
}

/// Whether `x` and `y` have equal models.
pub fn addr_eq(x: &Address, y: &Address) -> (r: bool)
    ensures
        r == (x@ == y@),
{
    let r = match (x, y) {
        (Address::IPv4(p), Address::IPv4(q)) => *p == *q,
        (Address::IPv4Network(p, m), Address::IPv4Network(q, n)) => *p == *q && *m == *n,
        (Address::DomainName(s), Address::DomainName(t)) => str_eq(s.as_str(), t.as_str()),
        (Address::WildcardDomainName(s), Address::WildcardDomainName(t)) => str_eq(
            s.as_str(),
            t.as_str(),
        ),
        (Address::URL(s), Address::URL(t)) => str_eq(s.as_str(), t.as_str()),
        _ => false,
    };
    proof {
        if r {
            assert(x@ =~= y@);
        }
    }
    r
}

/// Whether `x@` precedes or equals `y@` in the address order.
pub fn addr_le_exec(x: &Address, y: &Address) -> (r: bool)
    ensures
        r == addr_le(x@, y@),
{
    match (x, y) {
        (Address::IPv4(p), Address::IPv4(q)) => ipv4_le_exec(*p, *q),
        (Address::IPv4Network(p, m), Address::IPv4Network(q, n)) => {
            if *p != *q {
                ipv4_le_exec(*p, *q)
            } else {
                *m <= *n
            }
        },
        (Address::DomainName(s), Address::DomainName(t)) => str_le(s.as_str(), t.as_str()),
        (Address::WildcardDomainName(s), Address::WildcardDomainName(t)) => str_le(
            s.as_str(),
            t.as_str(),
        ),
        (Address::URL(s), Address::URL(t)) => str_le(s.as_str(), t.as_str()),
        _ => rank_of(x) < rank_of(y),
    }
}

/// The variant tag rank of an address.
fn rank_of(a: &Address) -> (r: u8)
    ensures
        r as int == addr_rank(a@),
{
    match a {
        Address::IPv4(_) => 0,
        Address::IPv4Network(_, _) => 1,
        Address::DomainName(_) => 2,
        Address::WildcardDomainName(_) => 3,
        Address::URL(_) => 4,
    }
}

/// Whether `x` precedes or equals `y` octet-wise.
fn ipv4_le_exec(x: Ipv4, y: Ipv4) -> (r: bool)
    ensures
        r == ipv4_le(x, y),
{
    if x.a != y.a {
        x.a < y.a
    } else if x.b != y.b {
        x.b < y.b
    } else if x.c != y.c {
        x.c < y.c
    } else {
        x.d <= y.d
    }
}

} // verus!
