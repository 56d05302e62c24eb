//! The canonical query form of an announce, and the proof that parsing it
//! back recovers every recognized field.
//!
//! The canonical form percent-encodes every byte of `info_hash` and
//! `peer_id`, writes numbers in decimal, booleans as `1`/`0`, the event by
//! its name (an empty value for a plain keep-alive), and the address in its
//! canonical text; the keys come in a fixed order.
use crate::bittorrent::{
    ann_fold, ann_init, ann_step, parse_announce_spec, AnnAcc, AnnReqData, AnnounceRequest, Event,
    event_of, lit_compact, lit_completed, lit_downloaded, lit_event, lit_info_hash, lit_ip,
    lit_left, lit_no_peer_id, lit_numwant, lit_peer_id, lit_port, lit_started, lit_stopped,
    lit_uploaded,
};
use crate::digits::{
    all_dec_digits, all_hex_digits, dec_digits, dec_value, hex4_digits, hex_digit_of,
    hex_digit_val, hex_value, is_dec_digit, is_hex_digit, lemma_dec_digits_are_digits,
    lemma_dec_round_trip, lemma_hex4_round_trip, push_dec_u64,
};
use crate::iptext::{
    groups_bytes, groups_ok, ipv4_text, ipv6_text, octet_ok, parse_ipv4_text, parse_ipv6_text,
    v6_group, v6_plain, COLON, DOT,
};
use crate::peer::IpAddress;
use crate::query::{
    decoded_pair, decoded_pairs, eq_split, lemma_eq_split_at, lemma_split_first_seg, pct_decode,
    query_pairs, split_byte, AMP, EQUALS, PERCENT, PLUS,
};
use vstd::prelude::*;

verus! {

/// Every byte written as `%XX`, lowercase.
pub open spec fn pct_all(b: Seq<u8>) -> Seq<u8>
    decreases b.len(),
{
    if b.len() == 0 {
        Seq::empty()
    } else {
        seq![
            PERCENT,
            hex_digit_of((b.first() / 16) as nat),
            hex_digit_of((b.first() % 16) as nat),
        ] + pct_all(b.drop_first())
    }
}

/// The textual value of the event key.
pub open spec fn event_text(e: Event) -> Seq<u8> {
    match e {
        Event::Started => lit_started(),
        Event::Stopped => lit_stopped(),
        Event::Completed => lit_completed(),
        Event::KeepAlive => Seq::empty(),
    }
}

/// The textual value of the ip key.
pub open spec fn ip_text(b: Seq<u8>) -> Seq<u8> {
    if b.len() == 4 {
        ipv4_text(b)
    } else {
        ipv6_text(b)
    }
}

/// One `key=value` segment.
pub open spec fn seg_of(key: Seq<u8>, value: Seq<u8>) -> Seq<u8> {
    key + seq![EQUALS] + value
}

pub open spec fn bool_text(b: bool) -> Seq<u8> {
    if b {
        seq![0x31u8]
    } else {
        seq![0x30u8]
    }
}

/// Segments joined by `&`.
pub open spec fn join_amp(segs: Seq<Seq<u8>>) -> Seq<u8>
    decreases segs.len(),
{
    if segs.len() == 0 {
        Seq::empty()
    } else if segs.len() == 1 {
        segs.first()
    } else {
        segs.first() + seq![AMP] + join_amp(segs.drop_first())
    }
}

/// The canonical raw query of an announce request: its segments joined by
/// `&`.
pub open spec fn query_of_request(rq: AnnReqData) -> Seq<u8> {
    join_amp(segs_list(rq))
}

/// A byte string free of the separators and escapes the query grammar acts
/// on.
pub open spec fn plain_bytes(s: Seq<u8>) -> bool {
    forall|i: int|
        0 <= i < s.len() ==> (#[trigger] s[i]) != AMP && s[i] != EQUALS && s[i] != PERCENT && s[i]
            != PLUS
}

/// A byte string free of `&` and `=`, as a percent-encoded value is.
pub open spec fn sep_free(s: Seq<u8>) -> bool {
    forall|i: int| 0 <= i < s.len() ==> (#[trigger] s[i]) != AMP && s[i] != EQUALS
}

/// Percent-decoding is the identity on plain bytes.
pub proof fn lemma_pct_decode_id(s: Seq<u8>)
    requires
        plain_bytes(s),
    ensures
        pct_decode(s) == s,
    decreases s.len(),
{
    if s.len() > 0 {
        assert(forall|i: int|
            0 <= i < s.drop_first().len() ==> #[trigger] s.drop_first()[i] == s[i + 1]);
        lemma_pct_decode_id(s.drop_first());
        assert(s.skip(1) =~= s.drop_first());
        assert(pct_decode(s) =~= seq![s[0]] + s.drop_first());
        assert(seq![s[0]] + s.drop_first() =~= s);
    }
}

/// Percent-encoding every byte decodes back to the bytes, and the encoding
/// holds no separator.
pub proof fn lemma_pct_all_round(b: Seq<u8>)
    ensures
        pct_decode(pct_all(b)) == b,
        sep_free(pct_all(b)),
        pct_all(b).len() == 3 * b.len(),
    decreases b.len(),
{
    if b.len() > 0 {
        lemma_pct_all_round(b.drop_first());
        let hi = hex_digit_of((b.first() / 16) as nat);
        let lo = hex_digit_of((b.first() % 16) as nat);
        let s = pct_all(b);
        assert(is_hex_digit(hi) && hex_digit_val(hi) == b.first() / 16);
        assert(is_hex_digit(lo) && hex_digit_val(lo) == b.first() % 16);
        assert(s[0] == PERCENT && s[1] == hi && s[2] == lo);
        assert(s.skip(3) =~= pct_all(b.drop_first()));
        assert((hex_digit_val(s[1]) * 16 + hex_digit_val(s[2])) as u8 == b.first());
        assert(pct_decode(s) =~= seq![b.first()] + pct_decode(pct_all(b.drop_first())));
        assert(seq![b.first()] + b.drop_first() =~= b);
        assert(sep_free(s)) by {
            assert(forall|i: int| 3 <= i < s.len() ==> s[i] == #[trigger] s.skip(3)[i - 3]);
        }
    }
}

/// Decimal digit strings are plain.
pub proof fn lemma_digits_plain(s: Seq<u8>)
    requires
        all_dec_digits(s),
    ensures
        plain_bytes(s),
        sep_free(s),
{
    assert forall|i: int|
        0 <= i < s.len() implies (#[trigger] s[i]) != AMP && s[i] != EQUALS && s[i] != PERCENT
        && s[i] != PLUS by {
        assert(is_dec_digit(s[i]));
    }
}

/// A glued `key=value` segment splits into its parts.
pub proof fn lemma_seg_pair(key: Seq<u8>, value: Seq<u8>)
    requires
        forall|i: int| 0 <= i < key.len() ==> (#[trigger] key[i]) != EQUALS,
    ensures
        eq_split(seg_of(key, value)) == (key, value),
{
    let s = seg_of(key, value);
    assert(forall|i: int| 0 <= i < key.len() ==> #[trigger] s[i] == key[i]);
    assert(s[key.len() as int] == EQUALS);
    lemma_eq_split_at(s, key.len() as int);
    assert(s.take(key.len() as int) =~= key);
    assert(s.skip(key.len() as int + 1) =~= value);
}

/// Splitting at a byte that never occurs yields the one whole segment.
pub proof fn lemma_split_whole(s: Seq<u8>, sep: u8)
    requires
        forall|i: int| 0 <= i < s.len() ==> (#[trigger] s[i]) != sep,
    ensures
        split_byte(s, sep) =~~= seq![s],
{
    lemma_split_first_seg(s, sep, s.len() as int);
}

/// Splitting a glued `head . tail` at any separator peels off the head.
pub proof fn lemma_split_glue_at(a: Seq<u8>, b: Seq<u8>, sep: u8)
    requires
        forall|i: int| 0 <= i < a.len() ==> (#[trigger] a[i]) != sep,
    ensures
        split_byte(a + seq![sep] + b, sep) =~~= seq![a] + split_byte(b, sep),
{
    let s = a + seq![sep] + b;
    assert(forall|i: int| 0 <= i < a.len() ==> #[trigger] s[i] == a[i]);
    assert(s[a.len() as int] == sep);
    lemma_split_first_seg(s, sep, a.len() as int);
    assert(s.take(a.len() as int) =~= a);
    assert(s.skip(a.len() as int + 1) =~= b);
}

/// Sizes of short decimal representations.
pub proof fn lemma_dec_digits_short(n: nat)
    ensures
        n < 10 ==> dec_digits(n).len() == 1,
        n < 100 ==> dec_digits(n).len() <= 2,
        n < 1000 ==> dec_digits(n).len() <= 3,
    decreases n,
{
    if n >= 10 {
        lemma_dec_digits_short(n / 10);
    }
}

/// The canonical IPv4 text parses back to the four address bytes.
pub proof fn lemma_ipv4_text_round(b: Seq<u8>)
    requires
        b.len() == 4,
    ensures
        parse_ipv4_text(ipv4_text(b)) == Option::Some(b),
{
    let d0 = dec_digits(b[0] as nat);
    let d1 = dec_digits(b[1] as nat);
    let d2 = dec_digits(b[2] as nat);
    let d3 = dec_digits(b[3] as nat);
    lemma_dec_digits_are_digits(b[0] as nat);
    lemma_dec_digits_are_digits(b[1] as nat);
    lemma_dec_digits_are_digits(b[2] as nat);
    lemma_dec_digits_are_digits(b[3] as nat);
    assert forall|s: Seq<u8>, i: int|
        all_dec_digits(s) && 0 <= i < s.len() implies (#[trigger] s[i]) != DOT by {
        assert(is_dec_digit(s[i]));
    }
    let t = ipv4_text(b);
    let r2 = d2 + seq![DOT] + d3;
    let r1 = d1 + seq![DOT] + r2;
    assert(t =~= d0 + seq![DOT] + r1);
    lemma_split_whole(d3, DOT);
    lemma_split_glue_at(d2, d3, DOT);
    assert(split_byte(r2, DOT) =~~= seq![d2, d3]);
    lemma_split_glue_at(d1, r2, DOT);
    assert(split_byte(r1, DOT) =~~= seq![d1, d2, d3]);
    lemma_split_glue_at(d0, r1, DOT);
    let ts = split_byte(t, DOT);
    assert(ts =~~= seq![d0, d1, d2, d3]);
    lemma_dec_round_trip(b[0] as nat);
    lemma_dec_round_trip(b[1] as nat);
    lemma_dec_round_trip(b[2] as nat);
    lemma_dec_round_trip(b[3] as nat);
    lemma_dec_digits_short(b[0] as nat);
    lemma_dec_digits_short(b[1] as nat);
    lemma_dec_digits_short(b[2] as nat);
    lemma_dec_digits_short(b[3] as nat);
    assert(octet_ok(ts[0]) && octet_ok(ts[1]) && octet_ok(ts[2]) && octet_ok(ts[3]));
    assert(parse_ipv4_text(t) == Option::Some(
        seq![
            dec_value(ts[0]) as u8,
            dec_value(ts[1]) as u8,
            dec_value(ts[2]) as u8,
            dec_value(ts[3]) as u8,
        ],
    ));
    assert(seq![
        dec_value(ts[0]) as u8,
        dec_value(ts[1]) as u8,
        dec_value(ts[2]) as u8,
        dec_value(ts[3]) as u8,
    ] =~= b);
}

/// Hex digits are not byte separators, dots, or colons.
pub proof fn lemma_hex_not_special(s: Seq<u8>)
    requires
        all_hex_digits(s),
    ensures
        forall|i: int| 0 <= i < s.len() ==> (#[trigger] s[i]) != COLON,
        forall|i: int| 0 <= i < s.len() ==> (#[trigger] s[i]) != DOT,
        sep_free(s),
{
    assert forall|i: int|
        0 <= i < s.len() implies (#[trigger] s[i]) != COLON && s[i] != DOT && s[i] != AMP && s[i]
        != EQUALS by {
        assert(is_hex_digit(s[i]));
    }
}

/// The canonical IPv6 text parses back to the sixteen address bytes.
pub proof fn lemma_ipv6_text_round(b: Seq<u8>)
    requires
        b.len() == 16,
    ensures
        parse_ipv6_text(ipv6_text(b)) == Option::Some(b),
        parse_ipv4_text(ipv6_text(b)) is None,
{
    let h0 = hex4_digits(v6_group(b, 0));
    let h1 = hex4_digits(v6_group(b, 1));
    let h2 = hex4_digits(v6_group(b, 2));
    let h3 = hex4_digits(v6_group(b, 3));
    let h4 = hex4_digits(v6_group(b, 4));
    let h5 = hex4_digits(v6_group(b, 5));
    let h6 = hex4_digits(v6_group(b, 6));
    let h7 = hex4_digits(v6_group(b, 7));
    lemma_hex4_round_trip(v6_group(b, 0));
    lemma_hex4_round_trip(v6_group(b, 1));
    lemma_hex4_round_trip(v6_group(b, 2));
    lemma_hex4_round_trip(v6_group(b, 3));
    lemma_hex4_round_trip(v6_group(b, 4));
    lemma_hex4_round_trip(v6_group(b, 5));
    lemma_hex4_round_trip(v6_group(b, 6));
    lemma_hex4_round_trip(v6_group(b, 7));
    lemma_hex_not_special(h0);
    lemma_hex_not_special(h1);
    lemma_hex_not_special(h2);
    lemma_hex_not_special(h3);
    lemma_hex_not_special(h4);
    lemma_hex_not_special(h5);
    lemma_hex_not_special(h6);
    lemma_hex_not_special(h7);
    let t = ipv6_text(b);
    let r6 = h6 + seq![COLON] + h7;
    let r5 = h5 + seq![COLON] + r6;
    let r4 = h4 + seq![COLON] + r5;
    let r3 = h3 + seq![COLON] + r4;
    let r2 = h2 + seq![COLON] + r3;
    let r1 = h1 + seq![COLON] + r2;
    assert(t =~= h0 + seq![COLON] + r1);
    lemma_split_whole(h7, COLON);
    lemma_split_glue_at(h6, h7, COLON);
    assert(split_byte(r6, COLON) =~~= seq![h6, h7]);
    lemma_split_glue_at(h5, r6, COLON);
    assert(split_byte(r5, COLON) =~~= seq![h5, h6, h7]);
    lemma_split_glue_at(h4, r5, COLON);
    assert(split_byte(r4, COLON) =~~= seq![h4, h5, h6, h7]);
    lemma_split_glue_at(h3, r4, COLON);
    assert(split_byte(r3, COLON) =~~= seq![h3, h4, h5, h6, h7]);
    lemma_split_glue_at(h2, r3, COLON);
    assert(split_byte(r2, COLON) =~~= seq![h2, h3, h4, h5, h6, h7]);
    lemma_split_glue_at(h1, r2, COLON);
    assert(split_byte(r1, COLON) =~~= seq![h1, h2, h3, h4, h5, h6, h7]);
    lemma_split_glue_at(h0, r1, COLON);
    let ts = split_byte(t, COLON);
    assert(ts =~~= seq![h0, h1, h2, h3, h4, h5, h6, h7]);
    assert(v6_plain(ts)) by {
        assert(forall|i: int| 0 <= i < 8 ==> crate::iptext::group_ok(#[trigger] ts[i]));
    }
    assert(groups_bytes(ts) =~= b) by {
        lemma_groups_bytes_concrete(ts, b);
    }
    // No dot occurs, so the v4 grammar sees a single malformed token.
    assert(forall|i: int| 0 <= i < t.len() ==> (#[trigger] t[i]) != DOT) by {
        lemma_no_dot_concat(h0, h1, h2, h3, h4, h5, h6, h7, t);
    }
    lemma_split_whole(t, DOT);
    assert(split_byte(t, DOT).len() == 1);
}

/// Each element of the joined IPv6 text is a hex digit or a colon, so never
/// a dot.
proof fn lemma_no_dot_concat(
    h0: Seq<u8>,
    h1: Seq<u8>,
    h2: Seq<u8>,
    h3: Seq<u8>,
    h4: Seq<u8>,
    h5: Seq<u8>,
    h6: Seq<u8>,
    h7: Seq<u8>,
    t: Seq<u8>,
)
    requires
        t =~= h0 + seq![COLON] + h1 + seq![COLON] + h2 + seq![COLON] + h3 + seq![COLON] + h4 + seq![
            COLON,
        ] + h5 + seq![COLON] + h6 + seq![COLON] + h7,
        forall|i: int| 0 <= i < h0.len() ==> (#[trigger] h0[i]) != DOT,
        forall|i: int| 0 <= i < h1.len() ==> (#[trigger] h1[i]) != DOT,
        forall|i: int| 0 <= i < h2.len() ==> (#[trigger] h2[i]) != DOT,
        forall|i: int| 0 <= i < h3.len() ==> (#[trigger] h3[i]) != DOT,
        forall|i: int| 0 <= i < h4.len() ==> (#[trigger] h4[i]) != DOT,
        forall|i: int| 0 <= i < h5.len() ==> (#[trigger] h5[i]) != DOT,
        forall|i: int| 0 <= i < h6.len() ==> (#[trigger] h6[i]) != DOT,
        forall|i: int| 0 <= i < h7.len() ==> (#[trigger] h7[i]) != DOT,
    ensures
        forall|i: int| 0 <= i < t.len() ==> (#[trigger] t[i]) != DOT,
{
}

/// A decoded `key=value` segment, for a plain key and a value that decodes
/// to `dv`.
proof fn lemma_seg_decoded(key: Seq<u8>, value: Seq<u8>, dv: Seq<u8>)
    requires
        plain_bytes(key),
        sep_free(value),
        pct_decode(value) == dv,
        key.len() > 0,
    ensures
        decoded_pair(seg_of(key, value)) == (key, dv),
        forall|i: int| 0 <= i < seg_of(key, value).len() ==> (#[trigger] seg_of(key, value)[i]) != AMP,
        seg_of(key, value).len() > 0,
{
    lemma_seg_pair(key, value);
    lemma_pct_decode_id(key);
    let s = seg_of(key, value);
    assert forall|i: int| 0 <= i < s.len() implies (#[trigger] s[i]) != AMP by {
        if i < key.len() {
            assert(s[i] == key[i]);
        } else if i == key.len() {
            assert(s[i] == EQUALS);
        } else {
            assert(s[i] == value[i - key.len() - 1]);
        }
    }
}

/// The canonical query of a valid request parses back to the request: every
/// recognized field is recovered.
pub proof fn lemma_parse_round_trip(rq: AnnReqData)
    requires
        rq.info_hash.len() == 20,
        rq.peer_id.len() == 20,
        rq.port >= 1,
        rq.numwant <= 200,
        match rq.ip {
            Option::Some(b) => b.len() == 4 || b.len() == 16,
            Option::None => true,
        },
    ensures
        parse_announce_spec(query_of_request(rq)) == Ok::<AnnReqData, Seq<char>>(rq),
{
    lemma_split_concrete(rq);
    lemma_decoded_pairs_concrete(rq);
    assert(query_pairs(query_of_request(rq)) == segs_pairs(rq));
    lemma_fold_concrete(rq);
}

/// Appending one more segment to a join.
proof fn lemma_join_snoc(segs: Seq<Seq<u8>>, x: Seq<u8>)
    requires
        segs.len() >= 1,
    ensures
        join_amp(segs.push(x)) =~= join_amp(segs) + seq![AMP] + x,
    decreases segs.len(),
{
    if segs.len() == 1 {
        assert(segs.push(x).drop_first() =~= seq![x]);
        assert(segs.push(x).first() == segs.first());
        assert(join_amp(segs.push(x).drop_first()) == x);
        assert(join_amp(segs.push(x)) =~= segs.first() + seq![AMP] + x);
    } else {
        assert(segs.push(x).drop_first() =~= segs.drop_first().push(x));
        lemma_join_snoc(segs.drop_first(), x);
        assert(segs.push(x).first() == segs.first());
        assert(segs.first() + seq![AMP] + (join_amp(segs.drop_first()) + seq![AMP] + x) =~= (
        segs.first() + seq![AMP] + join_amp(segs.drop_first())) + seq![AMP] + x);
    }
}

/// Appends `%XX` escapes for every byte of `b`.
fn push_pct_all(b: &[u8], out: &mut Vec<u8>)
    ensures
        final(out)@ == old(out)@ + pct_all(b@),
{
    let mut i: usize = 0;
    proof {
        assert(b@.skip(0) =~= b@);
        assert(old(out)@ + pct_all(b@) =~= out@ + pct_all(b@.skip(0)));
    }
    while i < b.len()
        invariant
            0 <= i <= b@.len(),
            old(out)@ + pct_all(b@) == out@ + pct_all(b@.skip(i as int)),
        decreases b@.len() - i,
    {
        let ghost rem = b@.skip(i as int);
        proof {
            assert(rem.first() == b@[i as int]);
            assert(rem.drop_first() =~= b@.skip(i + 1));
        }
        let v = b[i];
        out.push(PERCENT);
        out.push(crate::digits::hex_digit_byte(v / 16));
        out.push(crate::digits::hex_digit_byte(v % 16));
        proof {
            assert(old(out)@ + pct_all(b@) =~= out@ + pct_all(b@.skip(i + 1)));
        }
        i = i + 1;
    }
    proof {
        assert(b@.skip(b@.len() as int) =~= Seq::<u8>::empty());
        assert(out@ =~= old(out)@ + pct_all(b@));
    }
}

/// The canonical query segments of a request, in order.
#[verifier::rlimit(100)]
fn build_segments(req: &AnnounceRequest) -> (segs: Vec<Vec<u8>>)
    ensures
        segs.deep_view() =~~= segs_list(req@),
{
    let k_info_hash: Vec<u8> = vec![0x69u8, 0x6e, 0x66, 0x6f, 0x5f, 0x68, 0x61, 0x73, 0x68];
    let k_peer_id: Vec<u8> = vec![0x70u8, 0x65, 0x65, 0x72, 0x5f, 0x69, 0x64];
    let k_port: Vec<u8> = vec![0x70u8, 0x6f, 0x72, 0x74];
    let k_uploaded: Vec<u8> = vec![0x75u8, 0x70, 0x6c, 0x6f, 0x61, 0x64, 0x65, 0x64];
    let k_downloaded: Vec<u8> = vec![0x64u8, 0x6f, 0x77, 0x6e, 0x6c, 0x6f, 0x61, 0x64, 0x65, 0x64];
    let k_left: Vec<u8> = vec![0x6cu8, 0x65, 0x66, 0x74];
    let k_compact: Vec<u8> = vec![0x63u8, 0x6f, 0x6d, 0x70, 0x61, 0x63, 0x74];
    let k_no_peer_id: Vec<u8> = vec![0x6eu8, 0x6f, 0x5f, 0x70, 0x65, 0x65, 0x72, 0x5f, 0x69, 0x64];
    let k_event: Vec<u8> = vec![0x65u8, 0x76, 0x65, 0x6e, 0x74];
    let k_numwant: Vec<u8> = vec![0x6eu8, 0x75, 0x6d, 0x77, 0x61, 0x6e, 0x74];
    let k_ip: Vec<u8> = vec![0x69u8, 0x70];
    proof {
        assert(k_info_hash@ =~= lit_info_hash());
        assert(k_peer_id@ =~= lit_peer_id());
        assert(k_port@ =~= lit_port());
        assert(k_uploaded@ =~= lit_uploaded());
        assert(k_downloaded@ =~= lit_downloaded());
        assert(k_left@ =~= lit_left());
        assert(k_compact@ =~= lit_compact());
        assert(k_no_peer_id@ =~= lit_no_peer_id());
        assert(k_event@ =~= lit_event());
        assert(k_numwant@ =~= lit_numwant());
        assert(k_ip@ =~= lit_ip());
    }
    let ghost rq = req@;
    let mut segs: Vec<Vec<u8>> = Vec::new();
    let mut s1: Vec<u8> = Vec::new();
    push_key(&k_info_hash, &mut s1);
    push_pct_all(req.info_hash.as_slice(), &mut s1);
    proof {
        assert(s1@ =~= seg_of(lit_info_hash(), pct_all(rq.info_hash)));
    }
    segs.push(s1);
    let mut s2: Vec<u8> = Vec::new();
    push_key(&k_peer_id, &mut s2);
    push_pct_all(req.peer_id.as_slice(), &mut s2);
    proof {
        assert(s2@ =~= seg_of(lit_peer_id(), pct_all(rq.peer_id)));
    }
    segs.push(s2);
    let mut s3: Vec<u8> = Vec::new();
    push_key(&k_port, &mut s3);
    push_dec_u64(req.port as u64, &mut s3);
    proof {
        assert(s3@ =~= seg_of(lit_port(), dec_digits(rq.port as nat)));
    }
    segs.push(s3);
    let mut s4: Vec<u8> = Vec::new();
    push_key(&k_uploaded, &mut s4);
    push_dec_u64(req.uploaded, &mut s4);
    proof {
        assert(s4@ =~= seg_of(lit_uploaded(), dec_digits(rq.uploaded as nat)));
    }
    segs.push(s4);
    let mut s5: Vec<u8> = Vec::new();
    push_key(&k_downloaded, &mut s5);
    push_dec_u64(req.downloaded, &mut s5);
    proof {
        assert(s5@ =~= seg_of(lit_downloaded(), dec_digits(rq.downloaded as nat)));
    }
    segs.push(s5);
    let mut s6: Vec<u8> = Vec::new();
    push_key(&k_left, &mut s6);
    push_dec_u64(req.left, &mut s6);
    proof {
        assert(s6@ =~= seg_of(lit_left(), dec_digits(rq.left as nat)));
    }
    segs.push(s6);
    let mut s7: Vec<u8> = Vec::new();
    push_key(&k_compact, &mut s7);
    s7.push(if req.compact {
        0x31
    } else {
        0x30
    });
    proof {
        assert(s7@ =~= seg_of(lit_compact(), bool_text(rq.compact)));
    }
    segs.push(s7);
    let mut s8: Vec<u8> = Vec::new();
    push_key(&k_no_peer_id, &mut s8);
    s8.push(if req.no_peer_id {
        0x31
    } else {
        0x30
    });
    proof {
        assert(s8@ =~= seg_of(lit_no_peer_id(), bool_text(rq.no_peer_id)));
    }
    segs.push(s8);
    let mut s9: Vec<u8> = Vec::new();
    push_key(&k_event, &mut s9);
    match req.event {
        Event::Started => {
            let v: Vec<u8> = vec![0x73u8, 0x74, 0x61, 0x72, 0x74, 0x65, 0x64];
            proof {
                assert(v@ =~= lit_started());
            }
            crate::bencode::push_slice(&mut s9, v.as_slice());
        },
        Event::Stopped => {
            let v: Vec<u8> = vec![0x73u8, 0x74, 0x6f, 0x70, 0x70, 0x65, 0x64];
            proof {
                assert(v@ =~= lit_stopped());
            }
            crate::bencode::push_slice(&mut s9, v.as_slice());
        },
        Event::Completed => {
            let v: Vec<u8> = vec![0x63u8, 0x6f, 0x6d, 0x70, 0x6c, 0x65, 0x74, 0x65, 0x64];
            proof {
                assert(v@ =~= lit_completed());
            }
            crate::bencode::push_slice(&mut s9, v.as_slice());
        },
        Event::KeepAlive => {},
    }
    proof {
        assert(s9@ =~= seg_of(lit_event(), event_text(rq.event)));
    }
    segs.push(s9);
    let mut s10: Vec<u8> = Vec::new();
    push_key(&k_numwant, &mut s10);
    push_dec_u64(req.numwant as u64, &mut s10);
    proof {
        assert(s10@ =~= seg_of(lit_numwant(), dec_digits(rq.numwant as nat)));
    }
    segs.push(s10);
    match &req.ip {
        Option::Some(addr) => {
            let mut s11: Vec<u8> = Vec::new();
            push_key(&k_ip, &mut s11);
            match addr {
                IpAddress::V4(a) => {
                    crate::iptext::push_ipv4_text(a, &mut s11);
                    proof {
                        assert(a@.len() == 4);
                    }
                },
                IpAddress::V6(a) => {
                    crate::iptext::push_ipv6_text(a, &mut s11);
                    proof {
                        assert(a@.len() == 16);
                    }
                },
            }
            proof {
                assert(s11@ =~= seg_of(lit_ip(), ip_text(rq.ip.unwrap())));
            }
            segs.push(s11);
        },
        Option::None => {},
    }
    proof {
        assert(segs.deep_view() =~~= segs_list(rq));
    }
    segs
}

/// The canonical query of a request, as raw bytes for the wire or a log.
pub fn to_query(req: &AnnounceRequest) -> (r: Vec<u8>)
    ensures
        r@ == query_of_request(req@),
{
    let segs = build_segments(req);
    let ghost gs = segs.deep_view();
    let mut out: Vec<u8> = Vec::new();
    crate::bencode::push_slice(&mut out, segs[0].as_slice());
    proof {
        assert(gs.take(1) =~~= seq![gs[0]]);
        assert(out@ =~= join_amp(gs.take(1)));
    }
    let mut i: usize = 1;
    while i < segs.len()
        invariant
            1 <= i <= segs@.len(),
            gs == segs.deep_view(),
            gs.len() == segs@.len(),
            gs.len() >= 1,
            out@ == join_amp(gs.take(i as int)),
        decreases segs@.len() - i,
    {
        out.push(AMP);
        crate::bencode::push_slice(&mut out, segs[i].as_slice());
        proof {
            assert(gs.take(i + 1) =~~= gs.take(i as int).push(gs[i as int]));
            lemma_join_snoc(gs.take(i as int), gs[i as int]);
            assert(gs[i as int] == segs@[i as int]@);
            assert(out@ =~= join_amp(gs.take(i + 1)));
        }
        i = i + 1;
    }
    proof {
        assert(gs.take(gs.len() as int) =~~= gs);
        assert(join_amp(gs) == query_of_request(req@));
    }
    out
}

/// Appends a key and its `=`.
fn push_key(key: &Vec<u8>, out: &mut Vec<u8>)
    ensures
        final(out)@ == old(out)@ + key@ + seq![EQUALS],
{
    crate::bencode::push_slice(out, key.as_slice());
    out.push(EQUALS);
    proof {
        assert(out@ =~= old(out)@ + key@ + seq![EQUALS]);
    }
}

/// Splitting a join of `&`-free segments recovers the segments.
proof fn lemma_split_join(segs: Seq<Seq<u8>>)
    requires
        segs.len() >= 1,
        forall|k: int, i: int|
            0 <= k < segs.len() && 0 <= i < segs[k].len() ==> #[trigger] segs[k][i] != AMP,
    ensures
        split_byte(join_amp(segs), AMP) =~~= segs,
    decreases segs.len(),
{
    if segs.len() == 1 {
        lemma_split_whole(segs.first(), AMP);
        assert(split_byte(join_amp(segs), AMP) =~~= seq![segs.first()]);
        assert(seq![segs.first()] =~~= segs);
    } else {
        let rest = segs.drop_first();
        assert(forall|k: int, i: int|
            0 <= k < rest.len() && 0 <= i < rest[k].len() ==> #[trigger] rest[k][i] != AMP) by {
            assert(forall|k: int| 0 <= k < rest.len() ==> #[trigger] rest[k] == segs[k + 1]);
        }
        lemma_split_join(rest);
        assert(forall|i: int| 0 <= i < segs.first().len() ==> #[trigger] segs.first()[i] != AMP);
        lemma_split_glue_at(segs.first(), join_amp(rest), AMP);
        assert(seq![segs.first()] + rest =~~= segs);
    }
}

/// The canonical query splits at `&` into its segments.
#[verifier::rlimit(100)]
proof fn lemma_split_concrete(rq: AnnReqData)
    requires
        match rq.ip {
            Option::Some(b) => b.len() == 4 || b.len() == 16,
            Option::None => true,
        },
    ensures
        split_byte(query_of_request(rq), AMP) =~~= segs_list(rq),
{
    assert(plain_bytes(lit_info_hash()));
    assert(plain_bytes(lit_peer_id()));
    assert(plain_bytes(lit_port()));
    assert(plain_bytes(lit_uploaded()));
    assert(plain_bytes(lit_downloaded()));
    assert(plain_bytes(lit_left()));
    assert(plain_bytes(lit_compact()));
    assert(plain_bytes(lit_no_peer_id()));
    assert(plain_bytes(lit_event()));
    assert(plain_bytes(lit_numwant()));
    assert(plain_bytes(lit_ip()));
    lemma_pct_all_round(rq.info_hash);
    lemma_pct_all_round(rq.peer_id);
    lemma_dec_digits_are_digits(rq.port as nat);
    lemma_dec_digits_are_digits(rq.uploaded as nat);
    lemma_dec_digits_are_digits(rq.downloaded as nat);
    lemma_dec_digits_are_digits(rq.left as nat);
    lemma_dec_digits_are_digits(rq.numwant as nat);
    lemma_digits_plain(dec_digits(rq.port as nat));
    lemma_digits_plain(dec_digits(rq.uploaded as nat));
    lemma_digits_plain(dec_digits(rq.downloaded as nat));
    lemma_digits_plain(dec_digits(rq.left as nat));
    lemma_digits_plain(dec_digits(rq.numwant as nat));
    let cv = bool_text(rq.compact);
    let nv = bool_text(rq.no_peer_id);
    assert(all_dec_digits(cv) && all_dec_digits(nv));
    lemma_digits_plain(cv);
    lemma_digits_plain(nv);
    let ev = event_text(rq.event);
    assert(plain_bytes(ev)) by {
        match rq.event {
            Event::Started => assert(plain_bytes(lit_started())),
            Event::Stopped => assert(plain_bytes(lit_stopped())),
            Event::Completed => assert(plain_bytes(lit_completed())),
            Event::KeepAlive => {},
        }
    }
    lemma_seg_amp_free(lit_info_hash(), pct_all(rq.info_hash));
    lemma_seg_amp_free(lit_peer_id(), pct_all(rq.peer_id));
    lemma_seg_amp_free(lit_port(), dec_digits(rq.port as nat));
    lemma_seg_amp_free(lit_uploaded(), dec_digits(rq.uploaded as nat));
    lemma_seg_amp_free(lit_downloaded(), dec_digits(rq.downloaded as nat));
    lemma_seg_amp_free(lit_left(), dec_digits(rq.left as nat));
    lemma_seg_amp_free(lit_compact(), cv);
    lemma_seg_amp_free(lit_no_peer_id(), nv);
    lemma_seg_amp_free(lit_event(), ev);
    lemma_seg_amp_free(lit_numwant(), dec_digits(rq.numwant as nat));
    if rq.ip is Some {
        lemma_ip_text_plain(rq.ip.unwrap());
        lemma_seg_amp_free(lit_ip(), ip_text(rq.ip.unwrap()));
    }
    let segs = segs_list(rq);
    assert forall|k: int, i: int|
        0 <= k < segs.len() && 0 <= i < segs[k].len() implies #[trigger] segs[k][i] != AMP by {
        match rq.ip {
            Option::Some(b) => {
                assert(segs =~~= seq![
                    seg_of(lit_info_hash(), pct_all(rq.info_hash)),
                    seg_of(lit_peer_id(), pct_all(rq.peer_id)),
                    seg_of(lit_port(), dec_digits(rq.port as nat)),
                    seg_of(lit_uploaded(), dec_digits(rq.uploaded as nat)),
                    seg_of(lit_downloaded(), dec_digits(rq.downloaded as nat)),
                    seg_of(lit_left(), dec_digits(rq.left as nat)),
                    seg_of(lit_compact(), cv),
                    seg_of(lit_no_peer_id(), nv),
                    seg_of(lit_event(), ev),
                    seg_of(lit_numwant(), dec_digits(rq.numwant as nat)),
                    seg_of(lit_ip(), ip_text(b)),
                ]);
            },
            Option::None => {},
        }
    }
    lemma_split_join(segs);
}

/// A `key=value` segment of a plain key and a separator-free value holds no
/// `&`.
proof fn lemma_seg_amp_free(key: Seq<u8>, value: Seq<u8>)
    requires
        plain_bytes(key),
        sep_free(value),
        key.len() > 0,
    ensures
        forall|i: int| 0 <= i < seg_of(key, value).len() ==> (#[trigger] seg_of(key, value)[i]) != AMP,
        seg_of(key, value).len() > 0,
{
    let s = seg_of(key, value);
    assert forall|i: int| 0 <= i < s.len() implies (#[trigger] s[i]) != AMP by {
        if i < key.len() {
            assert(s[i] == key[i]);
        } else if i == key.len() {
            assert(s[i] == EQUALS);
        } else {
            assert(s[i] == value[i - key.len() - 1]);
        }
    }
}

/// Canonical address text is plain and decodes to itself.
proof fn lemma_ip_text_plain(b: Seq<u8>)
    requires
        b.len() == 4 || b.len() == 16,
    ensures
        sep_free(ip_text(b)),
        plain_bytes(ip_text(b)),
        pct_decode(ip_text(b)) == ip_text(b),
{
    if b.len() == 4 {
        lemma_dec_digits_are_digits(b[0] as nat);
        lemma_dec_digits_are_digits(b[1] as nat);
        lemma_dec_digits_are_digits(b[2] as nat);
        lemma_dec_digits_are_digits(b[3] as nat);
        let t = ipv4_text(b);
        assert forall|i: int|
            0 <= i < t.len() implies (#[trigger] t[i]) != AMP && t[i] != EQUALS && t[i] != PERCENT
            && t[i] != PLUS by {
            lemma_ipv4_text_classes(b, i);
        }
    } else {
        let t = ipv6_text(b);
        assert forall|i: int|
            0 <= i < t.len() implies (#[trigger] t[i]) != AMP && t[i] != EQUALS && t[i] != PERCENT
            && t[i] != PLUS by {
            lemma_ipv6_text_classes(b, i);
        }
    }
    lemma_pct_decode_id(ip_text(b));
}

/// Each byte of the IPv4 text is a digit or a dot.
proof fn lemma_ipv4_text_classes(b: Seq<u8>, i: int)
    requires
        b.len() == 4,
        0 <= i < ipv4_text(b).len(),
    ensures
        is_dec_digit(ipv4_text(b)[i]) || ipv4_text(b)[i] == DOT,
{
    lemma_dec_digits_are_digits(b[0] as nat);
    lemma_dec_digits_are_digits(b[1] as nat);
    lemma_dec_digits_are_digits(b[2] as nat);
    lemma_dec_digits_are_digits(b[3] as nat);
}

/// Each byte of the IPv6 text is a hex digit or a colon.
proof fn lemma_ipv6_text_classes(b: Seq<u8>, i: int)
    requires
        b.len() == 16,
        0 <= i < ipv6_text(b).len(),
    ensures
        is_hex_digit(ipv6_text(b)[i]) || ipv6_text(b)[i] == COLON,
{
    lemma_hex4_round_trip(v6_group(b, 0));
    lemma_hex4_round_trip(v6_group(b, 1));
    lemma_hex4_round_trip(v6_group(b, 2));
    lemma_hex4_round_trip(v6_group(b, 3));
    lemma_hex4_round_trip(v6_group(b, 4));
    lemma_hex4_round_trip(v6_group(b, 5));
    lemma_hex4_round_trip(v6_group(b, 6));
    lemma_hex4_round_trip(v6_group(b, 7));
}

/// The raw segments of the canonical query.
pub open spec fn segs_list(rq: AnnReqData) -> Seq<Seq<u8>> {
    let common = seq![
        seg_of(lit_info_hash(), pct_all(rq.info_hash)),
        seg_of(lit_peer_id(), pct_all(rq.peer_id)),
        seg_of(lit_port(), dec_digits(rq.port as nat)),
        seg_of(lit_uploaded(), dec_digits(rq.uploaded as nat)),
        seg_of(lit_downloaded(), dec_digits(rq.downloaded as nat)),
        seg_of(lit_left(), dec_digits(rq.left as nat)),
        seg_of(lit_compact(), bool_text(rq.compact)),
        seg_of(lit_no_peer_id(), bool_text(rq.no_peer_id)),
        seg_of(lit_event(), event_text(rq.event)),
        seg_of(lit_numwant(), dec_digits(rq.numwant as nat)),
    ];
    match rq.ip {
        Option::Some(b) => common.push(seg_of(lit_ip(), ip_text(b))),
        Option::None => common,
    }
}

/// Decoding the canonical segments yields the expected pairs.
#[verifier::rlimit(100)]
proof fn lemma_decoded_pairs_concrete(rq: AnnReqData)
    requires
        match rq.ip {
            Option::Some(b) => b.len() == 4 || b.len() == 16,
            Option::None => true,
        },
    ensures
        decoded_pairs(segs_list(rq)) =~~= segs_pairs(rq),
{
    lemma_pct_all_round(rq.info_hash);
    lemma_pct_all_round(rq.peer_id);
    lemma_dec_digits_are_digits(rq.port as nat);
    lemma_dec_digits_are_digits(rq.uploaded as nat);
    lemma_dec_digits_are_digits(rq.downloaded as nat);
    lemma_dec_digits_are_digits(rq.left as nat);
    lemma_dec_digits_are_digits(rq.numwant as nat);
    lemma_digits_plain(dec_digits(rq.port as nat));
    lemma_digits_plain(dec_digits(rq.uploaded as nat));
    lemma_digits_plain(dec_digits(rq.downloaded as nat));
    lemma_digits_plain(dec_digits(rq.left as nat));
    lemma_digits_plain(dec_digits(rq.numwant as nat));
    lemma_pct_decode_id(dec_digits(rq.port as nat));
    lemma_pct_decode_id(dec_digits(rq.uploaded as nat));
    lemma_pct_decode_id(dec_digits(rq.downloaded as nat));
    lemma_pct_decode_id(dec_digits(rq.left as nat));
    lemma_pct_decode_id(dec_digits(rq.numwant as nat));
    let cv = bool_text(rq.compact);
    let nv = bool_text(rq.no_peer_id);
    assert(all_dec_digits(cv) && all_dec_digits(nv));
    lemma_digits_plain(cv);
    lemma_digits_plain(nv);
    lemma_pct_decode_id(cv);
    lemma_pct_decode_id(nv);
    let ev = event_text(rq.event);
    assert(plain_bytes(ev)) by {
        match rq.event {
            Event::Started => assert(plain_bytes(lit_started())),
            Event::Stopped => assert(plain_bytes(lit_stopped())),
            Event::Completed => assert(plain_bytes(lit_completed())),
            Event::KeepAlive => {},
        }
    }
    lemma_pct_decode_id(ev);
    assert(plain_bytes(lit_info_hash()));
    assert(plain_bytes(lit_peer_id()));
    assert(plain_bytes(lit_port()));
    assert(plain_bytes(lit_uploaded()));
    assert(plain_bytes(lit_downloaded()));
    assert(plain_bytes(lit_left()));
    assert(plain_bytes(lit_compact()));
    assert(plain_bytes(lit_no_peer_id()));
    assert(plain_bytes(lit_event()));
    assert(plain_bytes(lit_numwant()));
    assert(plain_bytes(lit_ip()));
    lemma_seg_decoded(lit_info_hash(), pct_all(rq.info_hash), rq.info_hash);
    lemma_seg_decoded(lit_peer_id(), pct_all(rq.peer_id), rq.peer_id);
    lemma_seg_decoded(lit_port(), dec_digits(rq.port as nat), dec_digits(rq.port as nat));
    lemma_seg_decoded(lit_uploaded(), dec_digits(rq.uploaded as nat), dec_digits(rq.uploaded as nat));
    lemma_seg_decoded(
        lit_downloaded(),
        dec_digits(rq.downloaded as nat),
        dec_digits(rq.downloaded as nat),
    );
    lemma_seg_decoded(lit_left(), dec_digits(rq.left as nat), dec_digits(rq.left as nat));
    lemma_seg_decoded(lit_compact(), cv, cv);
    lemma_seg_decoded(lit_no_peer_id(), nv, nv);
    lemma_seg_decoded(lit_event(), ev, ev);
    lemma_seg_decoded(lit_numwant(), dec_digits(rq.numwant as nat), dec_digits(rq.numwant as nat));
    if rq.ip is Some {
        let b = rq.ip.unwrap();
        lemma_ip_text_plain(b);
        lemma_seg_decoded(lit_ip(), ip_text(b), ip_text(b));
    }
    let segs = segs_list(rq);
    let g1 = segs.drop_first();
    let g2 = g1.drop_first();
    let g3 = g2.drop_first();
    let g4 = g3.drop_first();
    let g5 = g4.drop_first();
    let g6 = g5.drop_first();
    let g7 = g6.drop_first();
    let g8 = g7.drop_first();
    let g9 = g8.drop_first();
    let g10 = g9.drop_first();
    assert(decoded_pairs(segs) =~~= seq![decoded_pair(segs[0])] + decoded_pairs(g1));
    assert(decoded_pairs(g1) =~~= seq![decoded_pair(segs[1])] + decoded_pairs(g2));
    assert(decoded_pairs(g2) =~~= seq![decoded_pair(segs[2])] + decoded_pairs(g3));
    assert(decoded_pairs(g3) =~~= seq![decoded_pair(segs[3])] + decoded_pairs(g4));
    assert(decoded_pairs(g4) =~~= seq![decoded_pair(segs[4])] + decoded_pairs(g5));
    assert(decoded_pairs(g5) =~~= seq![decoded_pair(segs[5])] + decoded_pairs(g6));
    assert(decoded_pairs(g6) =~~= seq![decoded_pair(segs[6])] + decoded_pairs(g7));
    assert(decoded_pairs(g7) =~~= seq![decoded_pair(segs[7])] + decoded_pairs(g8));
    assert(decoded_pairs(g8) =~~= seq![decoded_pair(segs[8])] + decoded_pairs(g9));
    assert(decoded_pairs(g9) =~~= seq![decoded_pair(segs[9])] + decoded_pairs(g10));
    match rq.ip {
        Option::Some(b) => {
            assert(g10 =~~= seq![seg_of(lit_ip(), ip_text(b))]);
            assert(decoded_pairs(g10) =~~= seq![decoded_pair(segs[10])] + decoded_pairs(
                g10.drop_first(),
            ));
            assert(g10.drop_first() =~~= Seq::<Seq<u8>>::empty());
        },
        Option::None => {
            assert(g10 =~~= Seq::<Seq<u8>>::empty());
        },
    }
}

/// Folding the expected pairs builds the request back.
#[verifier::rlimit(100)]
proof fn lemma_fold_concrete(rq: AnnReqData)
    requires
        rq.info_hash.len() == 20,
        rq.peer_id.len() == 20,
        rq.port >= 1,
        rq.numwant <= 200,
        match rq.ip {
            Option::Some(b) => b.len() == 4 || b.len() == 16,
            Option::None => true,
        },
    ensures
        match ann_fold(ann_init(), segs_pairs(rq)) {
            Ok(acc) => crate::bittorrent::ann_finish(acc) == Ok::<AnnReqData, Seq<char>>(rq),
            Err(_) => false,
        },
{
    lemma_dec_digits_are_digits(rq.port as nat);
    lemma_dec_digits_are_digits(rq.uploaded as nat);
    lemma_dec_digits_are_digits(rq.downloaded as nat);
    lemma_dec_digits_are_digits(rq.left as nat);
    lemma_dec_digits_are_digits(rq.numwant as nat);
    lemma_dec_round_trip(rq.port as nat);
    lemma_dec_round_trip(rq.uploaded as nat);
    lemma_dec_round_trip(rq.downloaded as nat);
    lemma_dec_round_trip(rq.left as nat);
    lemma_dec_round_trip(rq.numwant as nat);
    let cv = bool_text(rq.compact);
    let nv = bool_text(rq.no_peer_id);
    assert(all_dec_digits(cv) && all_dec_digits(nv));
    assert(dec_value(cv) == (if rq.compact {
        1nat
    } else {
        0nat
    })) by {
        assert(dec_value(Seq::<u8>::empty()) == 0);
        assert(cv.drop_last() =~= Seq::<u8>::empty());
        assert(cv.last() == cv[0]);
    }
    assert(dec_value(nv) == (if rq.no_peer_id {
        1nat
    } else {
        0nat
    })) by {
        assert(dec_value(Seq::<u8>::empty()) == 0);
        assert(nv.drop_last() =~= Seq::<u8>::empty());
        assert(nv.last() == nv[0]);
    }
    let ev = event_text(rq.event);
    assert(event_of(ev) == rq.event);
    let ps = segs_pairs(rq);
    let f1 = ps.drop_first();
    let f2 = f1.drop_first();
    let f3 = f2.drop_first();
    let f4 = f3.drop_first();
    let f5 = f4.drop_first();
    let f6 = f5.drop_first();
    let f7 = f6.drop_first();
    let f8 = f7.drop_first();
    let f9 = f8.drop_first();
    let f10 = f9.drop_first();
    let a0 = ann_init();
    let a1 = AnnAcc { info_hash: Option::Some(rq.info_hash), ..a0 };
    let a2 = AnnAcc { peer_id: Option::Some(rq.peer_id), ..a1 };
    let a3 = AnnAcc { port: Option::Some(rq.port), ..a2 };
    let a4 = AnnAcc { uploaded: Option::Some(rq.uploaded), ..a3 };
    let a5 = AnnAcc { downloaded: Option::Some(rq.downloaded), ..a4 };
    let a6 = AnnAcc { left: Option::Some(rq.left), ..a5 };
    let a7 = AnnAcc { compact: rq.compact, ..a6 };
    let a8 = AnnAcc { no_peer_id: rq.no_peer_id, ..a7 };
    let a9 = AnnAcc { event: rq.event, ..a8 };
    let a10 = AnnAcc { numwant: rq.numwant, ..a9 };
    assert(ann_step(a0, ps[0].0, ps[0].1) == Ok::<AnnAcc, Seq<char>>(a1));
    assert(ann_fold(a0, ps) == ann_fold(a1, f1));
    assert(ann_step(a1, ps[1].0, ps[1].1) == Ok::<AnnAcc, Seq<char>>(a2));
    assert(ann_fold(a1, f1) == ann_fold(a2, f2));
    assert(ann_step(a2, ps[2].0, ps[2].1) == Ok::<AnnAcc, Seq<char>>(a3));
    assert(ann_fold(a2, f2) == ann_fold(a3, f3));
    assert(ann_step(a3, ps[3].0, ps[3].1) == Ok::<AnnAcc, Seq<char>>(a4));
    assert(ann_fold(a3, f3) == ann_fold(a4, f4));
    assert(ann_step(a4, ps[4].0, ps[4].1) == Ok::<AnnAcc, Seq<char>>(a5));
    assert(ann_fold(a4, f4) == ann_fold(a5, f5));
    assert(ann_step(a5, ps[5].0, ps[5].1) == Ok::<AnnAcc, Seq<char>>(a6));
    assert(ann_fold(a5, f5) == ann_fold(a6, f6));
    assert(ann_step(a6, ps[6].0, ps[6].1) == Ok::<AnnAcc, Seq<char>>(a7));
    assert(ann_fold(a6, f6) == ann_fold(a7, f7));
    assert(ann_step(a7, ps[7].0, ps[7].1) == Ok::<AnnAcc, Seq<char>>(a8));
    assert(ann_fold(a7, f7) == ann_fold(a8, f8));
    assert(ann_step(a8, ps[8].0, ps[8].1) == Ok::<AnnAcc, Seq<char>>(a9));
    assert(ann_fold(a8, f8) == ann_fold(a9, f9));
    assert(ann_step(a9, ps[9].0, ps[9].1) == Ok::<AnnAcc, Seq<char>>(a10));
    assert(ann_fold(a9, f9) == ann_fold(a10, f10));
    match rq.ip {
        Option::Some(b) => {
            let a11 = AnnAcc { ip: Option::Some(b), ..a10 };
            assert(f10 =~~= seq![(lit_ip(), ip_text(b))]);
            if b.len() == 4 {
                lemma_ipv4_text_round(b);
            } else {
                lemma_ipv6_text_round(b);
            }
            assert(ann_step(a10, f10[0].0, f10[0].1) == Ok::<AnnAcc, Seq<char>>(a11));
            assert(ann_fold(a10, f10) == ann_fold(a11, f10.drop_first()));
            assert(f10.drop_first() =~~= Seq::<(Seq<u8>, Seq<u8>)>::empty());
            assert(ann_fold(a11, f10.drop_first()) == Ok::<AnnAcc, Seq<char>>(a11));
            assert(crate::bittorrent::ann_finish(a11) == Ok::<AnnReqData, Seq<char>>(rq));
        },
        Option::None => {
            assert(f10 =~~= Seq::<(Seq<u8>, Seq<u8>)>::empty());
            assert(ann_fold(a10, f10) == Ok::<AnnAcc, Seq<char>>(a10));
            assert(crate::bittorrent::ann_finish(a10) == Ok::<AnnReqData, Seq<char>>(rq));
        },
    }
}

/// The decoded key/value pairs of the canonical query.
pub open spec fn segs_pairs(rq: AnnReqData) -> Seq<(Seq<u8>, Seq<u8>)> {
    let common = seq![
        (lit_info_hash(), rq.info_hash),
        (lit_peer_id(), rq.peer_id),
        (lit_port(), dec_digits(rq.port as nat)),
        (lit_uploaded(), dec_digits(rq.uploaded as nat)),
        (lit_downloaded(), dec_digits(rq.downloaded as nat)),
        (lit_left(), dec_digits(rq.left as nat)),
        (lit_compact(), bool_text(rq.compact)),
        (lit_no_peer_id(), bool_text(rq.no_peer_id)),
        (lit_event(), event_text(rq.event)),
        (lit_numwant(), dec_digits(rq.numwant as nat)),
    ];
    match rq.ip {
        Option::Some(b) => common.push((lit_ip(), ip_text(b))),
        Option::None => common,
    }
}

/// Reading the eight canonical groups back gives the address bytes.
proof fn lemma_groups_bytes_concrete(ts: Seq<Seq<u8>>, b: Seq<u8>)
    requires
        b.len() == 16,
        ts.len() == 8,
        forall|i: int| 0 <= i < 8 ==> #[trigger] ts[i] == hex4_digits(v6_group(b, i)),
    ensures
        groups_bytes(ts) =~= b,
{
    assert forall|i: int| 0 <= i < 8 implies hex_value(#[trigger] ts[i]) == v6_group(b, i) by {
        lemma_hex4_round_trip(v6_group(b, i));
    }
    assert forall|i: int|
        0 <= i < 8 implies (hex_value(#[trigger] ts[i]) / 256) as u8 == b[2 * i] && (hex_value(
        ts[i],
    ) % 256) as u8 == b[2 * i + 1] by {
        vstd::arithmetic::div_mod::lemma_fundamental_div_mod_converse(
            (b[2 * i] * 256 + b[2 * i + 1]) as int,
            256,
            b[2 * i] as int,
            b[2 * i + 1] as int,
        );
    }
    let t7 = ts;
    let t6 = t7.drop_last();
    let t5 = t6.drop_last();
    let t4 = t5.drop_last();
    let t3 = t4.drop_last();
    let t2 = t3.drop_last();
    let t1 = t2.drop_last();
    let t0 = t1.drop_last();
    assert(t0.drop_last() =~= Seq::<Seq<u8>>::empty());
    assert(groups_bytes(Seq::<Seq<u8>>::empty()) == Seq::<u8>::empty());
    assert(t0.last() == ts[0] && t1.last() == ts[1] && t2.last() == ts[2] && t3.last() == ts[3]
        && t4.last() == ts[4] && t5.last() == ts[5] && t6.last() == ts[6] && t7.last() == ts[7]);
    assert(groups_bytes(t0) =~= seq![b[0], b[1]]);
    assert(groups_bytes(t1) =~= seq![b[0], b[1], b[2], b[3]]);
    assert(groups_bytes(t2) =~= seq![b[0], b[1], b[2], b[3], b[4], b[5]]);
    assert(groups_bytes(t3) =~= seq![b[0], b[1], b[2], b[3], b[4], b[5], b[6], b[7]]);
    assert(groups_bytes(t4) =~= seq![b[0], b[1], b[2], b[3], b[4], b[5], b[6], b[7], b[8], b[9]]);
    assert(groups_bytes(t5) =~= seq![
        b[0],
        b[1],
        b[2],
        b[3],
        b[4],
        b[5],
        b[6],
        b[7],
        b[8],
        b[9],
        b[10],
        b[11],
    ]);
    assert(groups_bytes(t6) =~= seq![
        b[0],
        b[1],
        b[2],
        b[3],
        b[4],
        b[5],
        b[6],
        b[7],
        b[8],
        b[9],
        b[10],
        b[11],
        b[12],
        b[13],
    ]);
    assert(groups_bytes(t7) =~= seq![
        b[0],
        b[1],
        b[2],
        b[3],
        b[4],
        b[5],
        b[6],
        b[7],
        b[8],
        b[9],
        b[10],
        b[11],
        b[12],
        b[13],
        b[14],
        b[15],
    ]);
}

} // verus!
