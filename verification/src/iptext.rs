//! Textual IP addresses for the optional `ip` announce key and for
//! non-compact peer lists.
//!
//! Accepted grammar: IPv4 is four dot-separated decimal octets (values up to
//! 255); IPv6 is colon-separated groups of one to four hex digits, with at
//! most one `::` standing for one or more zero groups. The embedded-IPv4 tail
//! form is not accepted. Emission is canonical: IPv4 as minimal decimal
//! octets, IPv6 as eight zero-padded lowercase groups.
use crate::digits::{
    all_dec_digits, all_hex_digits, dec_digits, dec_parses, dec_value, hex4_digits, hex_value,
    lemma_dec_round_trip, lemma_dec_value_prefix, lemma_hex4_round_trip, lemma_hex_value_tight,
    parse_dec_u64, parse_hex_group, push_dec_u64, push_hex4,
};
use crate::query::{lemma_split_byte_len, lemma_split_first_seg, split_byte, split_bytes};
use vstd::prelude::*;

verus! {

pub const DOT: u8 = 0x2e;

pub const COLON: u8 = 0x3a;

/// Whether a raw token is a valid decimal octet.
pub open spec fn octet_ok(t: Seq<u8>) -> bool {
    dec_parses(t) && t.len() <= 3 && dec_value(t) <= 255
}

/// The parsed form of an IPv4 text, when the text is well formed.
pub open spec fn parse_ipv4_text(s: Seq<u8>) -> Option<Seq<u8>> {
    let ts = split_byte(s, DOT);
    if ts.len() == 4 && octet_ok(ts[0]) && octet_ok(ts[1]) && octet_ok(ts[2]) && octet_ok(ts[3]) {
        Some(
            seq![
                dec_value(ts[0]) as u8,
                dec_value(ts[1]) as u8,
                dec_value(ts[2]) as u8,
                dec_value(ts[3]) as u8,
            ],
        )
    } else {
        None
    }
}

/// The canonical text of an IPv4 address.
pub open spec fn ipv4_text(b: Seq<u8>) -> Seq<u8> {
    dec_digits(b[0] as nat) + seq![DOT] + dec_digits(b[1] as nat) + seq![DOT] + dec_digits(
        b[2] as nat,
    ) + seq![DOT] + dec_digits(b[3] as nat)
}

/// Whether a raw token is a valid hex group.
pub open spec fn group_ok(t: Seq<u8>) -> bool {
    1 <= t.len() <= 4 && all_hex_digits(t)
}

pub open spec fn groups_ok(ts: Seq<Seq<u8>>) -> bool {
    forall|i: int| 0 <= i < ts.len() ==> group_ok(#[trigger] ts[i])
}

/// The two network-order bytes of each group, concatenated.
pub open spec fn groups_bytes(ts: Seq<Seq<u8>>) -> Seq<u8>
    decreases ts.len(),
{
    if ts.len() == 0 {
        Seq::empty()
    } else {
        groups_bytes(ts.drop_last()) + seq![
            (hex_value(ts.last()) / 256) as u8,
            (hex_value(ts.last()) % 256) as u8,
        ]
    }
}

/// `2 * k` zero bytes, standing for `k` elided zero groups.
pub open spec fn zero_bytes(k: nat) -> Seq<u8> {
    Seq::new(2 * k, |i: int| 0u8)
}

/// Each group contributes exactly two bytes.
pub proof fn lemma_groups_bytes_len(ts: Seq<Seq<u8>>)
    ensures
        groups_bytes(ts).len() == 2 * ts.len(),
    decreases ts.len(),
{
    if ts.len() > 0 {
        lemma_groups_bytes_len(ts.drop_last());
    }
}

pub open spec fn all_empty(ts: Seq<Seq<u8>>) -> bool {
    forall|i: int| 0 <= i < ts.len() ==> (#[trigger] ts[i]).len() == 0
}

/// The plain form: eight nonempty groups.
pub open spec fn v6_plain(ts: Seq<Seq<u8>>) -> bool {
    ts.len() == 8 && groups_ok(ts)
}

/// The all-zero form `::`, which splits into three empty tokens.
pub open spec fn v6_all_zero(ts: Seq<Seq<u8>>) -> bool {
    ts.len() == 3 && all_empty(ts)
}

/// A leading `::` followed by one to seven groups.
pub open spec fn v6_lead(ts: Seq<Seq<u8>>) -> bool {
    ts.len() >= 3 && ts[0].len() == 0 && ts[1].len() == 0 && groups_ok(ts.skip(2)) && ts.len() - 2
        <= 7
}

/// One to seven groups followed by a trailing `::`.
pub open spec fn v6_trail(ts: Seq<Seq<u8>>) -> bool {
    ts.len() >= 3 && ts[ts.len() - 1].len() == 0 && ts[ts.len() - 2].len() == 0 && groups_ok(
        ts.take(ts.len() - 2),
    ) && ts.len() - 2 <= 7
}

/// A `::` between groups, at token index `j`.
pub open spec fn v6_mid_at(ts: Seq<Seq<u8>>, j: int) -> bool {
    1 <= j < ts.len() - 1 && ts[j].len() == 0 && groups_ok(ts.take(j)) && groups_ok(ts.skip(j + 1))
        && ts.len() - 1 <= 7
}

/// The parsed form of an IPv6 text, when the text is well formed.
pub open spec fn parse_ipv6_text(s: Seq<u8>) -> Option<Seq<u8>> {
    let ts = split_byte(s, COLON);
    let n = ts.len() as int;
    if v6_plain(ts) {
        Some(groups_bytes(ts))
    } else if v6_all_zero(ts) {
        Some(zero_bytes(8))
    } else if v6_lead(ts) {
        Some(zero_bytes((8 - (n - 2)) as nat) + groups_bytes(ts.skip(2)))
    } else if v6_trail(ts) {
        Some(groups_bytes(ts.take(n - 2)) + zero_bytes((8 - (n - 2)) as nat))
    } else if exists|j: int| v6_mid_at(ts, j) {
        let j = choose|j: int| v6_mid_at(ts, j);
        Some(
            groups_bytes(ts.take(j)) + zero_bytes((8 - (n - 1)) as nat) + groups_bytes(
                ts.skip(j + 1),
            ),
        )
    } else {
        None
    }
}

/// Under a valid middle form the compression index is the only empty token.
pub proof fn lemma_mid_unique(ts: Seq<Seq<u8>>, first_e: int, j: int)
    requires
        0 <= first_e < ts.len(),
        ts[first_e].len() == 0,
        forall|k: int| 0 <= k < first_e ==> (#[trigger] ts[k]).len() > 0,
        v6_mid_at(ts, j),
    ensures
        j == first_e,
{
    if j < first_e {
        assert(ts[j].len() > 0);
    } else if j > first_e {
        assert(group_ok(ts.take(j)[first_e]));
    }
}

/// The group at index `i` of a 16-byte IPv6 address.
pub open spec fn v6_group(b: Seq<u8>, i: int) -> u16 {
    (b[2 * i] * 256 + b[2 * i + 1]) as u16
}

/// The canonical text of an IPv6 address: eight zero-padded groups.
pub open spec fn ipv6_text(b: Seq<u8>) -> Seq<u8> {
    hex4_digits(v6_group(b, 0)) + seq![COLON] + hex4_digits(v6_group(b, 1)) + seq![COLON]
        + hex4_digits(v6_group(b, 2)) + seq![COLON] + hex4_digits(v6_group(b, 3)) + seq![COLON]
        + hex4_digits(v6_group(b, 4)) + seq![COLON] + hex4_digits(v6_group(b, 5)) + seq![COLON]
        + hex4_digits(v6_group(b, 6)) + seq![COLON] + hex4_digits(v6_group(b, 7))
}

/// Parses the hex groups `from..to` of the token list, appending each
/// group's two network-order bytes to `out`.
fn parse_groups(ts: &Vec<Vec<u8>>, from: usize, to: usize, out: &mut Vec<u8>) -> (ok: bool)
    requires
        from <= to <= ts@.len(),
    ensures
        ok ==> groups_ok(ts.deep_view().subrange(from as int, to as int)) && final(out)@ == old(
            out,
        )@ + groups_bytes(ts.deep_view().subrange(from as int, to as int)),
        !ok ==> !groups_ok(ts.deep_view().subrange(from as int, to as int)),
{
    let ghost sub = ts.deep_view().subrange(from as int, to as int);
    let mut i: usize = from;
    proof {
        assert(sub.take(0) =~= Seq::<Seq<u8>>::empty());
        assert(out@ =~= old(out)@ + groups_bytes(sub.take(0)));
    }
    while i < to
        invariant
            from <= i <= to <= ts@.len(),
            sub == ts.deep_view().subrange(from as int, to as int),
            groups_ok(sub.take(i - from)),
            out@ == old(out)@ + groups_bytes(sub.take(i - from)),
        decreases to - i,
    {
        let t = &ts[i];
        proof {
            assert(sub[i - from] == ts@[i as int]@);
        }
        if t.len() < 1 || t.len() > 4 {
            proof {
                assert(!group_ok(sub[i - from]));
            }
            return false;
        }
        match parse_hex_group(t.as_slice()) {
            Some(g) => {
                proof {
                    assert(sub.take(i - from + 1).drop_last() =~= sub.take(i - from));
                    assert(sub.take(i - from + 1).last() == sub[i - from]);
                }
                out.push((g / 256) as u8);
                out.push((g % 256) as u8);
                proof {
                    assert(out@ =~= old(out)@ + groups_bytes(sub.take(i - from + 1)));
                    assert(forall|k: int|
                        0 <= k < i - from + 1 ==> #[trigger] sub.take(i - from + 1)[k] == sub.take(
                            i - from,
                        ).push(sub[i - from])[k]);
                    assert(group_ok(sub[i - from]));
                }
                i = i + 1;
            },
            None => {
                proof {
                    assert(!group_ok(sub[i - from]));
                }
                return false;
            },
        }
    }
    proof {
        assert(sub.take(to - from) =~= sub);
    }
    true
}

/// Appends `2 * k` zero bytes to `out`.
fn push_zero_bytes(k: usize, out: &mut Vec<u8>)
    requires
        k <= 8,
    ensures
        final(out)@ == old(out)@ + zero_bytes(k as nat),
{
    let mut i: usize = 0;
    while i < 2 * k
        invariant
            0 <= i <= 2 * k,
            k <= 8,
            out@ == old(out)@ + Seq::new(i as nat, |j: int| 0u8),
        decreases 2 * k - i,
    {
        out.push(0);
        proof {
            assert(out@ =~= old(out)@ + Seq::new((i + 1) as nat, |j: int| 0u8));
        }
        i = i + 1;
    }
    proof {
        assert(Seq::new((2 * k) as nat, |j: int| 0u8) =~= zero_bytes(k as nat));
    }
}

/// Parses an IPv6 text into its sixteen address bytes.
pub fn parse_ipv6(s: &[u8]) -> (r: Option<Vec<u8>>)
    ensures
        match r {
            Some(v) => parse_ipv6_text(s@) == Some(v@) && v@.len() == 16,
            None => parse_ipv6_text(s@) is None,
        },
{
    let ts = split_bytes(s, COLON);
    let ghost ts0 = ts.deep_view();
    let n = ts.len();
    proof {
        assert(ts0.len() == n);
    }
    // Scan for the first two empty tokens; `n` marks "none".
    let mut first_e: usize = n;
    let mut second_e: usize = n;
    let mut i: usize = 0;
    while i < n
        invariant
            0 <= i <= n == ts@.len(),
            ts0 == ts.deep_view(),
            first_e == n || (first_e < i && ts0[first_e as int].len() == 0),
            forall|k: int| 0 <= k < i && k < first_e ==> (#[trigger] ts0[k]).len() > 0,
            second_e == n || (first_e < second_e < i && ts0[second_e as int].len() == 0),
            first_e == n ==> second_e == n,
            forall|k: int| first_e < k < i && k < second_e ==> (#[trigger] ts0[k]).len() > 0,
        decreases n - i,
    {
        if ts[i].len() == 0 {
            proof {
                assert(ts0[i as int] == ts@[i as int]@);
            }
            if first_e == n {
                first_e = i;
            } else if second_e == n {
                second_e = i;
            }
        } else {
            proof {
                assert(ts0[i as int] == ts@[i as int]@);
            }
        }
        i = i + 1;
    }
    if first_e == n {
        // No empty token: only the plain eight-group form can match.
        proof {
            assert(!v6_all_zero(ts0)) by {
                if v6_all_zero(ts0) {
                    assert((ts0[0]).len() == 0);
                    assert((ts0[0]).len() > 0);
                }
            }
            assert(!v6_lead(ts0)) by {
                if v6_lead(ts0) {
                    assert((ts0[0]).len() > 0);
                }
            }
            assert(!v6_trail(ts0)) by {
                if v6_trail(ts0) {
                    assert((ts0[n - 1]).len() > 0);
                }
            }
            assert(forall|j: int| !v6_mid_at(ts0, j)) by {
                assert forall|j: int| !v6_mid_at(ts0, j) by {
                    if v6_mid_at(ts0, j) {
                        assert((ts0[j]).len() > 0);
                    }
                }
            }
        }
        if n != 8 {
            return None;
        }
        let mut out: Vec<u8> = Vec::new();
        if parse_groups(&ts, 0, 8, &mut out) {
            proof {
                assert(ts0.subrange(0, 8) =~= ts0);
                lemma_groups_bytes_len(ts0);
            }
            return Some(out);
        } else {
            proof {
                assert(ts0.subrange(0, 8) =~= ts0);
            }
            return None;
        }
    }
    // At least one empty token: the plain form is ruled out.
    proof {
        assert(!v6_plain(ts0)) by {
            if groups_ok(ts0) {
                assert(group_ok(ts0[first_e as int]));
            }
        }
    }
    if n == 3 && first_e == 0 && second_e == 1 && ts[2].len() == 0 {
        proof {
            assert(ts0[2] == ts@[2]@);
            assert(all_empty(ts0)) by {
                assert(forall|k: int| 0 <= k < 3 ==> (#[trigger] ts0[k]).len() == 0) by {
                    assert(ts0[0].len() == 0 && ts0[1].len() == 0 && ts0[2].len() == 0);
                }
            }
        }
        let mut out: Vec<u8> = Vec::new();
        push_zero_bytes(8, &mut out);
        proof {
            assert(out@ =~= zero_bytes(8));
        }
        return Some(out);
    }
    proof {
        assert(!v6_all_zero(ts0)) by {
            if n == 3 && all_empty(ts0) {
                assert(ts0[0].len() == 0 && ts0[1].len() == 0 && ts0[2].len() == 0);
                assert(first_e == 0 && second_e == 1);
            }
        }
    }
    if first_e == 0 && second_e == 1 && n >= 3 && n - 2 <= 7 {
        // Leading `::`.
        let mut out: Vec<u8> = Vec::new();
        push_zero_bytes(8 - (n - 2), &mut out);
        if parse_groups(&ts, 2, n, &mut out) {
            proof {
                assert(ts0.subrange(2, n as int) =~= ts0.skip(2));
                assert(v6_lead(ts0));
                lemma_groups_bytes_len(ts0.skip(2));
            }
            return Some(out);
        } else {
            proof {
                assert(ts0.subrange(2, n as int) =~= ts0.skip(2));
                assert(!v6_lead(ts0));
                assert(!v6_trail(ts0)) by {
                    if v6_trail(ts0) {
                        assert(group_ok(ts0.take(n - 2)[0]));
                    }
                }
                assert(forall|j: int| !v6_mid_at(ts0, j)) by {
                    assert forall|j: int| !v6_mid_at(ts0, j) by {
                        if v6_mid_at(ts0, j) {
                            if j >= 1 {
                                assert(group_ok(ts0.take(j)[0]));
                            }
                        }
                    }
                }
            }
            return None;
        }
    }
    proof {
        assert(!v6_lead(ts0)) by {
            if v6_lead(ts0) {
                assert(first_e == 0);
                assert(second_e == 1) by {
                    assert(ts0[1].len() == 0);
                    if second_e != 1 {
                        if second_e == n {
                            assert(ts0[1].len() > 0);
                        } else {
                            assert(1 < second_e ==> ts0[1].len() > 0);
                        }
                    }
                }
                assert(n >= 3 && n - 2 <= 7);
            }
        }
    }
    if n >= 3 && first_e == n - 2 && second_e == n - 1 && n - 2 <= 7 {
        // Trailing `::`.
        let mut out: Vec<u8> = Vec::new();
        if parse_groups(&ts, 0, n - 2, &mut out) {
            push_zero_bytes(8 - (n - 2), &mut out);
            proof {
                assert(ts0.subrange(0, n - 2) =~= ts0.take(n - 2));
                assert(v6_trail(ts0));
                lemma_groups_bytes_len(ts0.take(n - 2));
            }
            return Some(out);
        } else {
            proof {
                assert(ts0.subrange(0, n - 2) =~= ts0.take(n - 2));
                assert(!v6_trail(ts0));
                assert(forall|j: int| !v6_mid_at(ts0, j)) by {
                    assert forall|j: int| !v6_mid_at(ts0, j) by {
                        if v6_mid_at(ts0, j) {
                            lemma_mid_unique(ts0, first_e as int, j);
                            assert(group_ok(ts0.skip(j + 1)[ts0.skip(j + 1).len() - 1]));
                        }
                    }
                }
            }
            return None;
        }
    }
    proof {
        assert(!v6_trail(ts0)) by {
            if v6_trail(ts0) {
                assert(first_e == n - 2) by {
                    if first_e < n - 2 {
                        assert(group_ok(ts0.take(n - 2)[first_e as int]));
                    }
                }
                assert(second_e == n - 1) by {
                    assert(ts0[n - 1].len() == 0);
                }
            }
        }
    }
    if second_e == n && 1 <= first_e && first_e < n - 1 && n - 1 <= 7 {
        // One `::` in the middle.
        let mut out: Vec<u8> = Vec::new();
        let ok_head = parse_groups(&ts, 0, first_e, &mut out);
        if ok_head {
            push_zero_bytes(8 - (n - 1), &mut out);
            if parse_groups(&ts, first_e + 1, n, &mut out) {
                proof {
                    assert(ts0.subrange(0, first_e as int) =~= ts0.take(first_e as int));
                    assert(ts0.subrange(first_e + 1, n as int) =~= ts0.skip(first_e + 1));
                    assert(v6_mid_at(ts0, first_e as int));
                    let j = choose|j: int| v6_mid_at(ts0, j);
                    lemma_mid_unique(ts0, first_e as int, j);
                    lemma_groups_bytes_len(ts0.take(first_e as int));
                    lemma_groups_bytes_len(ts0.skip(first_e + 1));
                }
                return Some(out);
            } else {
                proof {
                    assert(ts0.subrange(first_e + 1, n as int) =~= ts0.skip(first_e + 1));
                    assert(forall|j: int| !v6_mid_at(ts0, j)) by {
                        assert forall|j: int| !v6_mid_at(ts0, j) by {
                            if v6_mid_at(ts0, j) {
                                lemma_mid_unique(ts0, first_e as int, j);
                            }
                        }
                    }
                    assert(!v6_lead(ts0));
                    assert(!v6_trail(ts0)) by {
                        if v6_trail(ts0) {
                            assert(ts0[n - 1].len() == 0 && ts0[n - 2].len() == 0);
                        }
                    }
                }
                return None;
            }
        } else {
            proof {
                assert(ts0.subrange(0, first_e as int) =~= ts0.take(first_e as int));
                assert(forall|j: int| !v6_mid_at(ts0, j)) by {
                    assert forall|j: int| !v6_mid_at(ts0, j) by {
                        if v6_mid_at(ts0, j) {
                            lemma_mid_unique(ts0, first_e as int, j);
                        }
                    }
                }
                assert(!v6_lead(ts0));
                assert(!v6_trail(ts0)) by {
                    if v6_trail(ts0) {
                        assert(ts0[n - 1].len() == 0 && ts0[n - 2].len() == 0);
                    }
                }
            }
            return None;
        }
    }
    proof {
        assert(!v6_trail(ts0));
        assert(forall|j: int| !v6_mid_at(ts0, j)) by {
            assert forall|j: int| !v6_mid_at(ts0, j) by {
                if v6_mid_at(ts0, j) {
                    lemma_mid_unique(ts0, first_e as int, j);
                    assert(second_e == n) by {
                        if second_e < n {
                            if second_e < j {
                                assert(group_ok(ts0.take(j)[second_e as int]));
                            } else {
                                assert(group_ok(ts0.skip(j + 1)[second_e - j - 1]));
                            }
                        }
                    }
                }
            }
        }
    }
    None
}
pub fn parse_ipv4(s: &[u8]) -> (r: Option<Vec<u8>>)
    ensures
        match r {
            Some(v) => parse_ipv4_text(s@) == Some(v@) && v@.len() == 4,
            None => parse_ipv4_text(s@) is None,
        },
{
    let ts = split_bytes(s, DOT);
    if ts.len() != 4 {
        return None;
    }
    let mut bytes: Vec<u8> = Vec::new();
    let mut i: usize = 0;
    while i < 4
        invariant
            ts.deep_view() == split_byte(s@, DOT),
            ts@.len() == 4,
            0 <= i <= 4,
            forall|k: int| 0 <= k < i ==> octet_ok(#[trigger] ts.deep_view()[k]),
            bytes@.len() == i,
            forall|k: int|
                0 <= k < i ==> #[trigger] bytes@[k] == dec_value(ts.deep_view()[k]) as u8,
        decreases 4 - i,
    {
        let t = &ts[i];
        proof {
            assert(ts.deep_view()[i as int] == ts@[i as int]@);
        }
        if t.len() == 0 || t.len() > 3 {
            return None;
        }
        match parse_dec_u64(t.as_slice()) {
            Some(v) => {
                if v > 255 {
                    return None;
                }
                bytes.push(v as u8);
            },
            None => {
                return None;
            },
        }
        i = i + 1;
    }
    proof {
        let ts0 = ts.deep_view();
        assert(octet_ok(ts0[0]) && octet_ok(ts0[1]) && octet_ok(ts0[2]) && octet_ok(ts0[3]));
        assert(bytes@ =~= parse_ipv4_text(s@).unwrap());
    }
    Some(bytes)
}

/// Appends the canonical IPv4 text of `b` to `out`.
pub fn push_ipv4_text(b: &[u8; 4], out: &mut Vec<u8>)
    ensures
        final(out)@ == old(out)@ + ipv4_text(b@),
{
    push_dec_u64(b[0] as u64, out);
    out.push(DOT);
    push_dec_u64(b[1] as u64, out);
    out.push(DOT);
    push_dec_u64(b[2] as u64, out);
    out.push(DOT);
    push_dec_u64(b[3] as u64, out);
    proof {
        assert(out@ =~= old(out)@ + ipv4_text(b@));
    }
}

/// Appends the canonical IPv6 text of `b` to `out`.
pub fn push_ipv6_text(b: &[u8; 16], out: &mut Vec<u8>)
    ensures
        final(out)@ == old(out)@ + ipv6_text(b@),
{
    let mut i: usize = 0;
    push_group(b, 0, out);
    push_group_sep(b, 1, out);
    push_group_sep(b, 2, out);
    push_group_sep(b, 3, out);
    push_group_sep(b, 4, out);
    push_group_sep(b, 5, out);
    push_group_sep(b, 6, out);
    push_group_sep(b, 7, out);
    proof {
        assert(out@ =~= old(out)@ + ipv6_text(b@));
    }
}

fn push_group(b: &[u8; 16], i: usize, out: &mut Vec<u8>)
    requires
        i < 8,
    ensures
        final(out)@ == old(out)@ + hex4_digits(v6_group(b@, i as int)),
{
    let g: u16 = (b[2 * i] as u16) * 256 + (b[2 * i + 1] as u16);
    push_hex4(g, out);
}

fn push_group_sep(b: &[u8; 16], i: usize, out: &mut Vec<u8>)
    requires
        i < 8,
    ensures
        final(out)@ == old(out)@ + seq![COLON] + hex4_digits(v6_group(b@, i as int)),
{
    out.push(COLON);
    push_group(b, i, out);
    proof {
        assert(out@ =~= old(out)@ + seq![COLON] + hex4_digits(v6_group(b@, i as int)));
    }
}

} // verus!
