//! Classifying the three multi-valued address sub-fields of a row.
//!
//! Each sub-field is a list of tokens behind a field-specific
//! delimiter: IP/network and domain-name tokens behind `|`, URL tokens
//! behind the three-character `" | "` (a URL may itself contain `|`).
//! Tokens are trimmed and empty ones skipped. An IP token with a `/`
//! is an IPv4 network, any other IP token an IPv4 host; a domain token
//! beginning with `*` is a wildcard domain name; a URL token must parse
//! under the URL grammar of the `url` crate.

use vstd::prelude::*;
use vstd::string::StrSliceExecFns;

use crate::addresses::{insert_all, lemma_insert_all_push, Addresses};
use crate::text::{digit_val, find_delim, find_sub, is_digit, split_str, split_tokens, split_on,
    tokens_of};
use crate::types::{AddrModel, Address, Ipv4, ParseError};

verus! {

/// Every character of `s` is a decimal digit.
pub open spec fn all_digits(s: Seq<char>) -> bool {
    forall|k: int| 0 <= k < s.len() ==> is_digit(#[trigger] s[k])
}

/// The decimal value of a digit sequence.
pub open spec fn spec_dec_value(s: Seq<char>) -> int
    decreases s.len(),
{
    if s.len() == 0 {
        0
    } else {
        spec_dec_value(s.take(s.len() - 1)) * 10 + digit_val(s[s.len() - 1])
    }
}

/// A well-formed decimal group: 1 to `maxd` digits, no redundant
/// leading zero, value at most `maxv`.
pub open spec fn group_ok(s: Seq<char>, maxd: int, maxv: int) -> bool {
    1 <= s.len() <= maxd && all_digits(s) && (s.len() > 1 ==> s[0] != '0') && spec_dec_value(s)
        <= maxv
}

/// The IPv4 address written as a dotted quad in `s`, if `s` is one:
/// exactly four `.`-separated decimal octets, each 0 to 255.
pub open spec fn spec_ipv4(s: Seq<char>) -> Option<Ipv4> {
    let gs = split_on(s, seq!['.']);
    if gs.len() == 4 && group_ok(gs[0], 3, 255) && group_ok(gs[1], 3, 255) && group_ok(gs[2], 3, 255)
        && group_ok(gs[3], 3, 255) {
        Some(
            Ipv4 {
                a: spec_dec_value(gs[0]) as u8,
                b: spec_dec_value(gs[1]) as u8,
                c: spec_dec_value(gs[2]) as u8,
                d: spec_dec_value(gs[3]) as u8,
            },
        )
    } else {
        None
    }
}

/// The typed address of one IP-field token: with a `/` an IPv4 network
/// (dotted quad plus prefix length 0 to 32), otherwise an IPv4 host.
pub open spec fn spec_ip_token(t: Seq<char>) -> Option<AddrModel> {
    let k = find_delim(t, seq!['/']);
    if k < 0 {
        match spec_ipv4(t) {
            Some(ip) => Some(AddrModel::IPv4(ip)),
            None => None,
        }
    } else {
        match spec_ipv4(t.take(k)) {
            Some(ip) => if group_ok(t.skip(k + 1), 2, 32) {
                Some(AddrModel::IPv4Network(ip, spec_dec_value(t.skip(k + 1)) as u8))
            } else {
                None
            },
            None => None,
        }
    }
}

/// The typed addresses of the IP/network field, token by token;
/// nothing if some token is neither a host nor a network.
pub open spec fn spec_ip_models(ts: Seq<Seq<char>>) -> Option<Seq<AddrModel>>
    decreases ts.len(),
{
    if ts.len() == 0 {
        Some(seq![])
    } else {
        match spec_ip_token(ts[0]) {
            None => None,
            Some(a) => match spec_ip_models(ts.skip(1)) {
                None => None,
                Some(rest) => Some(seq![a] + rest),
            },
        }
    }
}

/// The typed addresses of the whole IP/network sub-field.
pub open spec fn spec_ip_field(s: Seq<char>) -> Option<Seq<AddrModel>> {
    spec_ip_models(tokens_of(s, seq!['|']))
}

/// The typed address of one domain token: wildcard when it begins
/// with `*`, plain otherwise. Never fails.
pub open spec fn spec_domain_token(t: Seq<char>) -> AddrModel {
    if t.len() > 0 && t[0] == '*' {
        AddrModel::WildcardDomainName(t)
    } else {
        AddrModel::DomainName(t)
    }
}

/// The typed addresses of the whole domain-name sub-field.
pub open spec fn spec_domain_field(s: Seq<char>) -> Seq<AddrModel> {
    tokens_of(s, seq!['|']).map_values(|t: Seq<char>| spec_domain_token(t))
}

/// The canonical serialization of the URL written in `s`, as the `url`
/// crate's parser returns it; nothing when `s` does not parse as a URL.
pub uninterp spec fn url_norm(s: Seq<char>) -> Option<Seq<char>>;

/// Relies on `url::Url::parse` (and the canonical serialization
/// `Url::as_str`): the outcome depends on the input characters alone.
#[verifier::external_body]
fn parse_url_str(s: &str) -> (r: Option<String>)
    ensures
        match r {
            Some(u) => url_norm(s@) == Some(u@),
            None => url_norm(s@) is None,
        },
{
    match url::Url::parse(s) {
        Ok(u) => Some(u.as_str().to_string()),
        Err(_) => None,
    }
}

/// The typed address of one URL token.
pub open spec fn spec_url_token(t: Seq<char>) -> Option<AddrModel> {
    match url_norm(t) {
        Some(u) => Some(AddrModel::URL(u)),
        None => None,
    }
}

/// The typed addresses of the URL field, token by token; nothing if
/// some token does not parse as a URL.
pub open spec fn spec_url_models(ts: Seq<Seq<char>>) -> Option<Seq<AddrModel>>
    decreases ts.len(),
{
    if ts.len() == 0 {
        Some(seq![])
    } else {
        match spec_url_token(ts[0]) {
            None => None,
            Some(a) => match spec_url_models(ts.skip(1)) {
                None => None,
                Some(rest) => Some(seq![a] + rest),
            },
        }
    }
}

/// The typed addresses of the whole URL sub-field; the delimiter is
/// the three-character `" | "`, not the bare `|`.
pub open spec fn spec_url_field(s: Seq<char>) -> Option<Seq<AddrModel>> {
    spec_url_models(tokens_of(s, seq![' ', '|', ' ']))
}

/// Parse a decimal group of at most `maxd` digits with value at most
/// `maxv`, rejecting redundant leading zeros.
fn parse_bounded_dec(s: &str, maxd: usize, maxv: u8) -> (r: Option<u8>)
    requires
        1 <= maxd <= 3,
    ensures
        match r {
            Some(v) => group_ok(s@, maxd as int, maxv as int) && v as int == spec_dec_value(s@),
            None => !group_ok(s@, maxd as int, maxv as int),
        },
{
    let n: usize = s.unicode_len();
    if n == 0 || n > maxd {
        return None;
    }
    if n > 1 && s.get_char(0) == '0' {
        return None;
    }
    let mut i: usize = 0;
    let mut acc: u16 = 0;
    proof {
        assert(s@.take(0) =~= Seq::<char>::empty());
    }
    while i < n
        invariant
            0 <= i <= n,
            n == s@.len(),
            n <= 3,
            forall|k: int| 0 <= k < i ==> is_digit(#[trigger] s@[k]),
            acc as int == spec_dec_value(s@.take(i as int)),
            acc as int <= (if i == 0 {
                0int
            } else if i == 1 {
                9int
            } else if i == 2 {
                99int
            } else {
                999int
            }),
        decreases n - i,
    {
        let c = s.get_char(i);
        if c < '0' || c > '9' {
            return None;
        }
        let d: u16 = (c as u32 - '0' as u32) as u16;
        proof {
            assert(s@.take(i + 1).take(i as int) =~= s@.take(i as int));
            assert(s@.take(i + 1)[i as int] == s@[i as int]);
        }
        acc = acc * 10 + d;
        i = i + 1;
    }
    proof {
        assert(s@.take(n as int) =~= s@);
    }
    if acc > maxv as u16 {
        return None;
    }
    Some(acc as u8)
}

/// Parse a dotted-quad IPv4 address.
fn parse_ipv4(s: &str) -> (r: Option<Ipv4>)
    ensures
        r == spec_ipv4(s@),
{
    proof {
        reveal_strlit(".");
        assert("."@ =~= seq!['.']);
    }
    let groups = split_str(s, ".");
    let ghost gs = split_on(s@, seq!['.']);
    if groups.len() != 4 {
        return None;
    }
    proof {
        assert(groups@.map_values(|p: String| p@)[0] == gs[0]);
        assert(groups@.map_values(|p: String| p@)[1] == gs[1]);
        assert(groups@.map_values(|p: String| p@)[2] == gs[2]);
        assert(groups@.map_values(|p: String| p@)[3] == gs[3]);
    }
    let a = match parse_bounded_dec(groups[0].as_str(), 3, 255) {
        Some(v) => v,
        None => {
            return None;
        },
    };
    let b = match parse_bounded_dec(groups[1].as_str(), 3, 255) {
        Some(v) => v,
        None => {
            return None;
        },
    };
    let c = match parse_bounded_dec(groups[2].as_str(), 3, 255) {
        Some(v) => v,
        None => {
            return None;
        },
    };
    let d = match parse_bounded_dec(groups[3].as_str(), 3, 255) {
        Some(v) => v,
        None => {
            return None;
        },
    };
    Some(Ipv4 { a, b, c, d })
}

/// Classify one IP-field token as a host or a network.
fn classify_ip_token(t: &str) -> (r: Option<Address>)
    ensures
        match r {
            Some(a) => spec_ip_token(t@) == Some(a@),
            None => spec_ip_token(t@) is None,
        },
{
    proof {
        reveal_strlit("/");
        assert("/"@ =~= seq!['/']);
    }
    let n: usize = t.unicode_len();
    match find_sub(t, "/") {
        None => {
            match parse_ipv4(t) {
                Some(ip) => Some(Address::IPv4(ip)),
                None => None,
            }
        },
        Some(k) => {
            let left = t.substring_char(0, k);
            let right = t.substring_char(k + 1, n);
            proof {
                assert(left@ =~= t@.take(k as int));
                assert(right@ =~= t@.skip(k + 1));
            }
            match parse_ipv4(left) {
                None => None,
                Some(ip) => {
                    match parse_bounded_dec(right, 2, 32) {
                        None => None,
                        Some(p) => Some(Address::IPv4Network(ip, p)),
                    }
                },
            }
        },
    }
}

/// Parse the IP/network sub-field and insert its addresses.
///
/// Fails with `AddressFormat` exactly when some token is neither a
/// valid dotted-quad host nor a valid CIDR network; the whole
/// containing record is then abandoned by the caller.
pub fn parse_ipv4_addresses(addr_str: &str, addresses: &mut Addresses) -> (r: Result<
    (),
    ParseError,
>)
    requires
        old(addresses).wf(),
    ensures
        final(addresses).wf(),
        match spec_ip_field(addr_str@) {
            Some(models) => r matches Ok(p) && final(addresses)@ == insert_all(
                old(addresses)@,
                models,
            ),
            None => r matches Err(e) && e == ParseError::AddressFormat,
        },
{
    proof {
        reveal_strlit("|");
        assert("|"@ =~= seq!['|']);
    }
    let tokens = split_tokens(addr_str, "|");
    let ghost ts = tokens_of(addr_str@, seq!['|']);
    let ghost s0 = addresses@;
    let mut i: usize = 0;
    let ghost mut done: Seq<AddrModel> = seq![];
    proof {
        assert(ts.skip(0) =~= ts);
    }
    while i < tokens.len()
        invariant
            addresses.wf(),
            0 <= i <= tokens.len(),
            ts == tokens@.map_values(|p: String| p@),
            ts == tokens_of(addr_str@, seq!['|']),
            addresses@ == insert_all(s0, done),
            spec_ip_models(ts) == (match spec_ip_models(ts.skip(i as int)) {
                Some(rest) => Some(done + rest),
                None => None::<Seq<AddrModel>>,
            }),
        decreases tokens.len() - i,
    {
        proof {
            assert(ts.skip(i as int)[0] == ts[i as int]);
            assert(ts.skip(i as int).skip(1) =~= ts.skip(i + 1));
        }
        match classify_ip_token(tokens[i].as_str()) {
            None => {
                return Err(ParseError::AddressFormat);
            },
            Some(a) => {
                proof {
                    lemma_insert_all_push(s0, done, a@);
                }
                addresses.insert(a);
                proof {
                    done = done.push(a@);
                    if spec_ip_models(ts.skip(i + 1)) is Some {
                        assert(done + spec_ip_models(ts.skip(i + 1))->Some_0 =~= done.drop_last()
                            + (seq![done.last()] + spec_ip_models(ts.skip(i + 1))->Some_0));
                    }
                }
                i = i + 1;
            },
        }
    }
    proof {
        assert(ts.skip(i as int) =~= Seq::<Seq<char>>::empty());
        assert(spec_ip_models(ts) == Some(done + Seq::<AddrModel>::empty()));
        assert(done + Seq::<AddrModel>::empty() =~= done);
    }
    Ok(())
}

/// Parse the domain-name sub-field and insert its addresses; a token
/// beginning with `*` is a wildcard domain name. Never fails.
pub fn parse_domain_name(addr_str: &str, addresses: &mut Addresses)
    requires
        old(addresses).wf(),
    ensures
        final(addresses).wf(),
        final(addresses)@ == insert_all(old(addresses)@, spec_domain_field(addr_str@)),
{
    proof {
        reveal_strlit("|");
        assert("|"@ =~= seq!['|']);
    }
    let tokens = split_tokens(addr_str, "|");
    let ghost ts = tokens_of(addr_str@, seq!['|']);
    let ghost models = spec_domain_field(addr_str@);
    let ghost s0 = addresses@;
    let mut i: usize = 0;
    while i < tokens.len()
        invariant
            addresses.wf(),
            0 <= i <= tokens.len(),
            ts == tokens@.map_values(|p: String| p@),
            models == ts.map_values(|t: Seq<char>| spec_domain_token(t)),
            addresses@ == insert_all(s0, models.take(i as int)),
        decreases tokens.len() - i,
    {
        let t = &tokens[i];
        let is_wild = t.as_str().unicode_len() > 0 && t.as_str().get_char(0) == '*';
        let a = if is_wild {
            Address::WildcardDomainName(t.clone())
        } else {
            Address::DomainName(t.clone())
        };
        proof {
            assert(a@ == spec_domain_token(ts[i as int]));
            assert(a@ == models[i as int]);
            assert(models.take(i + 1) =~= models.take(i as int).push(models[i as int]));
            lemma_insert_all_push(s0, models.take(i as int), models[i as int]);
        }
        addresses.insert(a);
        i = i + 1;
    }
    proof {
        assert(models.take(i as int) =~= models);
    }
}

/// Parse the URL sub-field and insert its addresses.
///
/// Fails with `AddressFormat` exactly when some token does not parse
/// as a URL.
pub fn parse_url(addr_str: &str, addresses: &mut Addresses) -> (r: Result<(), ParseError>)
    requires
        old(addresses).wf(),
    ensures
        final(addresses).wf(),
        match spec_url_field(addr_str@) {
            Some(models) => r matches Ok(p) && final(addresses)@ == insert_all(
                old(addresses)@,
                models,
            ),
            None => r matches Err(e) && e == ParseError::AddressFormat,
        },
{
    proof {
        reveal_strlit(" | ");
        assert(" | "@ =~= seq![' ', '|', ' ']);
    }
    let tokens = split_tokens(addr_str, " | ");
    let ghost ts = tokens_of(addr_str@, seq![' ', '|', ' ']);
    let ghost s0 = addresses@;
    let mut i: usize = 0;
    let ghost mut done: Seq<AddrModel> = seq![];
    proof {
        assert(ts.skip(0) =~= ts);
    }
    while i < tokens.len()
        invariant
            addresses.wf(),
            0 <= i <= tokens.len(),
            ts == tokens@.map_values(|p: String| p@),
            ts == tokens_of(addr_str@, seq![' ', '|', ' ']),
            addresses@ == insert_all(s0, done),
            spec_url_models(ts) == (match spec_url_models(ts.skip(i as int)) {
                Some(rest) => Some(done + rest),
                None => None::<Seq<AddrModel>>,
            }),
        decreases tokens.len() - i,
    {
        proof {
            assert(ts.skip(i as int)[0] == ts[i as int]);
            assert(ts.skip(i as int).skip(1) =~= ts.skip(i + 1));
        }
        match parse_url_str(tokens[i].as_str()) {
            None => {
                return Err(ParseError::AddressFormat);
            },
            Some(u) => {
                let a = Address::URL(u);
                proof {
                    lemma_insert_all_push(s0, done, a@);
                }
                addresses.insert(a);
                proof {
                    done = done.push(a@);
                    if spec_url_models(ts.skip(i + 1)) is Some {
                        assert(done + spec_url_models(ts.skip(i + 1))->Some_0 =~= done.drop_last()
                            + (seq![done.last()] + spec_url_models(ts.skip(i + 1))->Some_0));
                    }
                }
                i = i + 1;
            },
        }
    }
    proof {
        assert(ts.skip(i as int) =~= Seq::<Seq<char>>::empty());
        assert(spec_url_models(ts) == Some(done + Seq::<AddrModel>::empty()));
        assert(done + Seq::<AddrModel>::empty() =~= done);
    }
    Ok(())
}

} // verus!
