//! Query-string surface shared by announce and scrape: splitting a raw query
//! into key/value pairs and percent-decoding both sides.
//!
//! The accepted grammar: pairs are separated by `&`; empty segments are
//! skipped; a segment is split at its first `=` (a segment without `=` is a
//! key with an empty value); `%XX` with two hex digits decodes to one byte, a
//! stray `%` stays literal, and `+` decodes to a space.
use crate::digits::{hex_digit_val, is_hex_digit};
use vstd::prelude::*;

verus! {

pub const AMP: u8 = 0x26;

pub const EQUALS: u8 = 0x3d;

pub const PERCENT: u8 = 0x25;

pub const PLUS: u8 = 0x2b;

/// Percent-decoding of a raw byte string.
pub open spec fn pct_decode(s: Seq<u8>) -> Seq<u8>
    decreases s.len(),
{
    if s.len() == 0 {
        Seq::empty()
    } else if s[0] == PERCENT && s.len() >= 3 && is_hex_digit(s[1]) && is_hex_digit(s[2]) {
        seq![(hex_digit_val(s[1]) * 16 + hex_digit_val(s[2])) as u8] + pct_decode(s.skip(3))
    } else if s[0] == PLUS {
        seq![0x20u8] + pct_decode(s.skip(1))
    } else {
        seq![s[0]] + pct_decode(s.skip(1))
    }
}

/// Splits a byte string at every occurrence of `sep`; an empty string is one
/// empty segment, and `n` separators give `n + 1` segments.
pub open spec fn split_byte(s: Seq<u8>, sep: u8) -> Seq<Seq<u8>>
    decreases s.len(),
{
    if s.len() == 0 {
        seq![Seq::<u8>::empty()]
    } else if s[0] == sep {
        seq![Seq::<u8>::empty()] + split_byte(s.skip(1), sep)
    } else {
        let rest = split_byte(s.skip(1), sep);
        seq![seq![s[0]] + rest[0]] + rest.skip(1)
    }
}

pub proof fn lemma_split_byte_len(s: Seq<u8>, sep: u8)
    ensures
        split_byte(s, sep).len() >= 1,
    decreases s.len(),
{
    if s.len() > 0 {
        lemma_split_byte_len(s.skip(1), sep);
    }
}

/// A segment of the raw query split at its first `=`: key and raw value.
pub open spec fn eq_split(seg: Seq<u8>) -> (Seq<u8>, Seq<u8>)
    decreases seg.len(),
{
    if seg.len() == 0 {
        (Seq::empty(), Seq::empty())
    } else if seg[0] == EQUALS {
        (Seq::empty(), seg.skip(1))
    } else {
        let (k, v) = eq_split(seg.skip(1));
        (seq![seg[0]] + k, v)
    }
}

/// The decoded key/value pair of one raw segment.
pub open spec fn decoded_pair(seg: Seq<u8>) -> (Seq<u8>, Seq<u8>) {
    (pct_decode(eq_split(seg).0), pct_decode(eq_split(seg).1))
}

/// The decoded pairs of a sequence of raw segments; empty segments are
/// skipped.
pub open spec fn decoded_pairs(segs: Seq<Seq<u8>>) -> Seq<(Seq<u8>, Seq<u8>)>
    decreases segs.len(),
{
    if segs.len() == 0 {
        Seq::empty()
    } else {
        let rest = decoded_pairs(segs.drop_first());
        if segs.first().len() == 0 {
            rest
        } else {
            seq![decoded_pair(segs.first())] + rest
        }
    }
}

/// The key/value pairs that a raw query string holds, in order, with both
/// sides percent-decoded.
pub open spec fn query_pairs(q: Seq<u8>) -> Seq<(Seq<u8>, Seq<u8>)> {
    decoded_pairs(split_byte(q, AMP))
}

/// One decoded key/value pair.
pub struct QueryPair {
    pub key: Vec<u8>,
    pub value: Vec<u8>,
}

impl View for QueryPair {
    type V = (Seq<u8>, Seq<u8>);

    open spec fn view(&self) -> (Seq<u8>, Seq<u8>) {
        (self.key@, self.value@)
    }
}

pub open spec fn pairs_view(s: Seq<QueryPair>) -> Seq<(Seq<u8>, Seq<u8>)> {
    s.map_values(|p: QueryPair| p@)
}

/// If the first `i` bytes of `s` are free of `sep`, the first segment of the
/// split is `s.take(i)` (all of `s` when no separator occurs at all).
pub proof fn lemma_split_first_seg(s: Seq<u8>, sep: u8, i: int)
    requires
        0 <= i <= s.len(),
        forall|j: int| 0 <= j < i ==> s[j] != sep,
        i < s.len() ==> s[i] == sep,
    ensures
        i == s.len() ==> split_byte(s, sep) =~~= seq![s],
        i < s.len() ==> split_byte(s, sep) =~~= seq![s.take(i)] + split_byte(s.skip(i + 1), sep),
    decreases i,
{
    lemma_split_byte_len(s, sep);
    if i == 0 {
        if 0 < s.len() {
            assert(s.skip(1) =~= s.skip(0int + 1));
            assert(s.take(0) =~= Seq::<u8>::empty());
        } else {
            assert(s =~= Seq::<u8>::empty());
        }
    } else {
        lemma_split_first_seg(s.skip(1), sep, i - 1);
        lemma_split_byte_len(s.skip(1), sep);
        let rest = split_byte(s.skip(1), sep);
        if i == s.len() {
            assert(seq![s[0]] + rest[0] =~= s);
        } else {
            assert(s.skip(1).take(i - 1) =~= s.take(i).skip(1));
            assert(seq![s[0]] + rest[0] =~= s.take(i));
            assert(s.skip(1).skip(i) =~= s.skip(i + 1));
        }
    }
}

/// Splits `s` at every `sep`, keeping empty segments.
pub fn split_bytes(s: &[u8], sep: u8) -> (r: Vec<Vec<u8>>)
    ensures
        r.deep_view() == split_byte(s@, sep),
{
    let mut out: Vec<Vec<u8>> = Vec::new();
    let mut pos: usize = 0;
    proof {
        assert(s@.skip(0) =~= s@);
        assert(out.deep_view() =~= Seq::<Seq<u8>>::empty());
    }
    loop
        invariant_except_break
            0 <= pos <= s@.len(),
            split_byte(s@, sep) == out.deep_view() + split_byte(s@.skip(pos as int), sep),
        ensures
            split_byte(s@, sep) == out.deep_view(),
        decreases s@.len() - pos + 1,
    {
        let ghost rem = s@.skip(pos as int);
        let mut i: usize = pos;
        while i < s.len() && s[i] != sep
            invariant
                pos <= i <= s@.len(),
                forall|j: int| pos <= j < i ==> s@[j] != sep,
            decreases s@.len() - i,
        {
            i = i + 1;
        }
        proof {
            assert(forall|j: int| 0 <= j < i - pos ==> rem[j] != sep);
            assert(i < s@.len() ==> rem[i - pos] == sep);
            lemma_split_first_seg(rem, sep, i - pos);
        }
        let seg = vstd::slice::slice_to_vec(vstd::slice::slice_subrange(s, pos, i));
        proof {
            assert(seg@ =~= rem.take(i - pos));
        }
        let ghost out_before = out.deep_view();
        out.push(seg);
        proof {
            assert(out.deep_view() =~~= out_before + seq![seg@]);
        }
        if i == s.len() {
            proof {
                assert(seg@ =~= rem);
                assert(split_byte(s@, sep) =~= out.deep_view());
            }
            break ;
        }
        proof {
            assert(rem.skip(i - pos + 1) =~= s@.skip(i + 1));
            assert(split_byte(s@, sep) =~= out.deep_view() + split_byte(s@.skip(i + 1), sep));
        }
        pos = i + 1;
    }
    out
}

fn hex_val_exec(b: u8) -> (r: u8)
    ensures
        r as nat == hex_digit_val(b),
{
    if 0x30 <= b && b <= 0x39 {
        b - 0x30
    } else if 0x61 <= b && b <= 0x66 {
        b - 0x61 + 10
    } else if 0x41 <= b && b <= 0x46 {
        b - 0x41 + 10
    } else {
        16
    }
}

/// Percent-decodes one raw byte string.
pub fn pct_decode_bytes(s: &[u8]) -> (r: Vec<u8>)
    ensures
        r@ == pct_decode(s@),
{
    let mut out: Vec<u8> = Vec::new();
    let mut i: usize = 0;
    proof {
        assert(s@.skip(0) =~= s@);
        assert(pct_decode(s@) =~= out@ + pct_decode(s@.skip(0)));
    }
    while i < s.len()
        invariant
            0 <= i <= s@.len(),
            pct_decode(s@) == out@ + pct_decode(s@.skip(i as int)),
        decreases s@.len() - i,
    {
        let ghost rem = s@.skip(i as int);
        proof {
            assert(rem[0] == s@[i as int]);
        }
        let b = s[i];
        if b == PERCENT && s.len() - i >= 3 {
            let v1 = hex_val_exec(s[i + 1]);
            let v2 = hex_val_exec(s[i + 2]);
            if v1 < 16 && v2 < 16 {
                proof {
                    assert(rem[1] == s@[i + 1] && rem[2] == s@[i + 2]);
                    assert(rem.skip(3) =~= s@.skip(i + 3));
                    assert(pct_decode(rem) == seq![(hex_digit_val(rem[1]) * 16 + hex_digit_val(
                        rem[2],
                    )) as u8] + pct_decode(rem.skip(3)));
                }
                out.push(v1 * 16 + v2);
                proof {
                    assert(pct_decode(s@) =~= out@ + pct_decode(s@.skip(i + 3)));
                }
                i = i + 3;
            } else {
                proof {
                    assert(rem.skip(1) =~= s@.skip(i + 1));
                    assert(pct_decode(rem) == seq![rem[0]] + pct_decode(rem.skip(1)));
                }
                out.push(b);
                proof {
                    assert(pct_decode(s@) =~= out@ + pct_decode(s@.skip(i + 1)));
                }
                i = i + 1;
            }
        } else {
            proof {
                assert(rem.skip(1) =~= s@.skip(i + 1));
            }
            if b == PLUS {
                out.push(0x20);
            } else {
                out.push(b);
            }
            proof {
                assert(pct_decode(s@) =~= out@ + pct_decode(s@.skip(i + 1)));
            }
            i = i + 1;
        }
    }
    proof {
        assert(s@.skip(s@.len() as int) =~= Seq::<u8>::empty());
        assert(pct_decode(s@) =~= out@);
    }
    out
}

/// Decodes one raw segment into its key/value pair.
fn decode_segment(seg: &[u8]) -> (r: QueryPair)
    ensures
        r@ == decoded_pair(seg@),
{
    let mut e: usize = 0;
    while e < seg.len() && seg[e] != EQUALS
        invariant
            0 <= e <= seg@.len(),
            forall|j: int| 0 <= j < e ==> seg@[j] != EQUALS,
        decreases seg@.len() - e,
    {
        e = e + 1;
    }
    proof {
        lemma_eq_split_at(seg@, e as int);
    }
    if e == seg.len() {
        let key = pct_decode_bytes(seg);
        QueryPair { key, value: Vec::new() }
    } else {
        let key = pct_decode_bytes(vstd::slice::slice_subrange(seg, 0, e));
        let value = pct_decode_bytes(vstd::slice::slice_subrange(seg, e + 1, seg.len()));
        proof {
            assert(seg@.subrange(0, e as int) =~= seg@.take(e as int));
            assert(seg@.subrange(e + 1, seg@.len() as int) =~= seg@.skip(e + 1));
        }
        QueryPair { key, value }
    }
}

/// If the first `i` bytes of `seg` are free of `=`, the key is `seg.take(i)`.
pub proof fn lemma_eq_split_at(seg: Seq<u8>, i: int)
    requires
        0 <= i <= seg.len(),
        forall|j: int| 0 <= j < i ==> seg[j] != EQUALS,
        i < seg.len() ==> seg[i] == EQUALS,
    ensures
        i == seg.len() ==> eq_split(seg) == (seg, Seq::<u8>::empty()),
        i < seg.len() ==> eq_split(seg) == (seg.take(i), seg.skip(i + 1)),
    decreases i,
{
    if i == 0 {
        if seg.len() == 0 {
            assert(eq_split(seg) == (Seq::<u8>::empty(), Seq::<u8>::empty()));
        } else {
            assert(seg.take(0) =~= Seq::<u8>::empty());
        }
    } else {
        lemma_eq_split_at(seg.skip(1), i - 1);
        let (k, v) = eq_split(seg.skip(1));
        if i == seg.len() {
            assert(seq![seg[0]] + k =~= seg);
            assert(v =~= Seq::<u8>::empty());
        } else {
            assert(seg.skip(1).take(i - 1) =~= seg.take(i).skip(1));
            assert(seq![seg[0]] + k =~= seg.take(i));
            assert(seg.skip(1).skip(i) =~= seg.skip(i + 1));
        }
    }
}

/// Splits a raw query string into its decoded key/value pairs.
pub fn parse_query(q: &[u8]) -> (r: Vec<QueryPair>)
    ensures
        pairs_view(r@) == query_pairs(q@),
{
    let mut out: Vec<QueryPair> = Vec::new();
    let mut pos: usize = 0;
    proof {
        assert(q@.skip(0) =~= q@);
    }
    loop
        invariant_except_break
            0 <= pos <= q@.len(),
            query_pairs(q@) == pairs_view(out@) + decoded_pairs(split_byte(q@.skip(pos as int), AMP)),
        ensures
            query_pairs(q@) == pairs_view(out@),
        decreases q@.len() - pos + 1,
    {
        let ghost rem = q@.skip(pos as int);
        let mut i: usize = pos;
        while i < q.len() && q[i] != AMP
            invariant
                pos <= i <= q@.len(),
                forall|j: int| pos <= j < i ==> q@[j] != AMP,
            decreases q@.len() - i,
        {
            i = i + 1;
        }
        proof {
            assert(forall|j: int| 0 <= j < i - pos ==> rem[j] != AMP);
            assert(i < q@.len() ==> rem[i - pos] == AMP);
            lemma_split_first_seg(rem, AMP, i - pos);
        }
        let seg = vstd::slice::slice_subrange(q, pos, i);
        proof {
            assert(seg@ =~= rem.take(i - pos));
        }
        let ghost out_before = out@;
        if seg.len() > 0 {
            let pair = decode_segment(seg);
            out.push(pair);
            proof {
                assert(out@.drop_last() =~= out_before);
                assert(pairs_view(out@) =~= pairs_view(out_before) + seq![decoded_pair(seg@)]);
            }
        }
        if i == q.len() {
            proof {
                assert(seg@ =~= rem);
                let single = seq![rem];
                assert(single.drop_first() =~= Seq::<Seq<u8>>::empty());
                assert(decoded_pairs(single.drop_first()) == Seq::<(Seq<u8>, Seq<u8>)>::empty());
                if rem.len() == 0 {
                    assert(pairs_view(out@) + decoded_pairs(single) =~= pairs_view(out@));
                } else {
                    assert(decoded_pairs(single) =~= seq![decoded_pair(rem)]);
                }
                assert(query_pairs(q@) =~= pairs_view(out@));
            }
            break ;
        }
        proof {
            let tail = split_byte(rem.skip(i - pos + 1), AMP);
            let segs = seq![seg@] + tail;
            assert(segs.first() == seg@);
            assert(segs.drop_first() =~= tail);
            if seg@.len() == 0 {
                assert(decoded_pairs(segs) == decoded_pairs(tail));
            } else {
                assert(decoded_pairs(segs) =~= seq![decoded_pair(seg@)] + decoded_pairs(tail));
            }
            assert(rem.skip(i - pos + 1) =~= q@.skip(i + 1));
            assert(query_pairs(q@) =~= pairs_view(out@) + decoded_pairs(
                split_byte(q@.skip(i + 1), AMP),
            ));
        }
        pos = i + 1;
    }
    out
}

} // verus!
