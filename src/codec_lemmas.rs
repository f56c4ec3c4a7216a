//! What the byte layout guarantees: reading back what was written, writing
//! back what was read, and refusing a record that was cut short.

use vstd::prelude::*;
use vstd::utf8::*;
use crate::codec::{
    decode_info, division_bytes, division_fits, division_with_true_count, divisions_bytes, encodable,
    gateway_bytes, gateways_bytes, info_bytes, lemma_le_u32, lemma_u32_le, read_division, read_divisions,
    read_gateway, read_gateways, read_info, read_text, read_u8, text_bytes, text_fits,
    u32_le, u32_of_le, valid_record, with_true_counts, DecodeError, DivisionInfoView,
    DivisionView, GatewayView,
};

verus! {

broadcast use {encode_utf8_valid_utf8, encode_utf8_decode_utf8, decode_utf8_encode_utf8};

/// `x` stands in `b` from `pos` on.
pub open spec fn stands_at(b: Seq<u8>, pos: int, x: Seq<u8>) -> bool {
    0 <= pos && pos + x.len() <= b.len() && b.subrange(pos, pos + x.len()) == x
}

proof fn lemma_stands_split(b: Seq<u8>, pos: int, x: Seq<u8>, y: Seq<u8>)
    requires
        stands_at(b, pos, x + y),
    ensures
        stands_at(b, pos, x),
        stands_at(b, pos + x.len(), y),
{
    let w = x + y;
    assert forall|i: int| 0 <= i < x.len() implies b.subrange(pos, pos + x.len())[i] == x[i] by {
        assert(b.subrange(pos, pos + w.len())[i] == w[i]);
    }
    assert(b.subrange(pos, pos + x.len()) =~= x);
    assert forall|i: int| 0 <= i < y.len() implies b.subrange(pos + x.len(), pos + x.len() + y.len())[i] == y[i] by {
        assert(b.subrange(pos, pos + w.len())[x.len() + i] == w[x.len() + i]);
    }
    assert(b.subrange(pos + x.len(), pos + x.len() + y.len()) =~= y);
}

proof fn lemma_read_text_back(b: Seq<u8>, pos: int, s: Seq<char>)
    requires
        text_fits(s),
        stands_at(b, pos, text_bytes(s)),
    ensures
        read_text(b, pos) == Ok::<(Seq<char>, int), DecodeError>((s, pos + text_bytes(s).len())),
{
    let e = encode_utf8(s);
    lemma_u32_le(e.len());
    lemma_stands_split(b, pos, u32_le(e.len()), e);
}

proof fn lemma_read_gateway_back(b: Seq<u8>, pos: int, g: GatewayView)
    requires
        text_fits(g.ip),
        stands_at(b, pos, gateway_bytes(g)),
    ensures
        read_gateway(b, pos) == Ok::<(GatewayView, int), DecodeError>((g, pos + gateway_bytes(g).len())),
{
    lemma_stands_split(b, pos, text_bytes(g.ip), seq![g.null_byte]);
    lemma_read_text_back(b, pos, g.ip);
    let p = pos + text_bytes(g.ip).len();
    assert(b.subrange(p, p + 1)[0] == b[p]);
    assert(stands_at(b, p, seq![g.null_byte]));
    assert(b.subrange(p, p + 1) == seq![g.null_byte]);
    assert(b[p] == g.null_byte);
    assert(read_u8(b, p) == Ok::<(u8, int), DecodeError>((g.null_byte, p + 1)));
    assert(read_text(b, pos) == Ok::<(Seq<char>, int), DecodeError>((g.ip, p)));
}

proof fn lemma_read_gateways_back(b: Seq<u8>, pos: int, gs: Seq<GatewayView>)
    requires
        forall|j: int| 0 <= j < gs.len() ==> text_fits(#[trigger] gs[j].ip),
        stands_at(b, pos, gateways_bytes(gs)),
    ensures
        read_gateways(b, pos, gs.len()) == Ok::<(Seq<GatewayView>, int), DecodeError>((gs, pos + gateways_bytes(gs).len())),
    decreases gs.len(),
{
    if gs.len() > 0 {
        let init = gs.drop_last();
        lemma_stands_split(b, pos, gateways_bytes(init), gateway_bytes(gs.last()));
        assert forall|j: int| 0 <= j < init.len() implies text_fits(#[trigger] init[j].ip) by {
            assert(init[j] == gs[j]);
        }
        lemma_read_gateways_back(b, pos, init);
        assert(text_fits(gs[gs.len() - 1].ip));
        lemma_read_gateway_back(b, pos + gateways_bytes(init).len(), gs.last());
        assert(init.push(gs.last()) =~= gs);
        assert((gs.len() - 1) as nat == init.len());
    } else {
        assert(gs =~= Seq::<GatewayView>::empty());
    }
}

proof fn lemma_read_division_back(b: Seq<u8>, pos: int, d: DivisionView)
    requires
        division_fits(d),
        stands_at(b, pos, division_bytes(d)),
    ensures
        read_division(b, pos) == Ok::<(DivisionView, int), DecodeError>(
            (division_with_true_count(d), pos + division_bytes(d).len()),
        ),
{
    let t = text_bytes(d.name);
    let h = seq![d.null_byte, d.gateways.len() as u8];
    lemma_stands_split(b, pos, t + h, gateways_bytes(d.gateways));
    lemma_stands_split(b, pos, t, h);
    lemma_read_text_back(b, pos, d.name);
    let p1 = pos + t.len();
    assert(b[p1] == b.subrange(p1, p1 + 2)[0]);
    assert(b[p1 + 1] == b.subrange(p1, p1 + 2)[1]);
    lemma_read_gateways_back(b, p1 + 2, d.gateways);
    assert((d.gateways.len() as u8) as nat == d.gateways.len());
}

proof fn lemma_read_divisions_back(b: Seq<u8>, pos: int, ds: Seq<DivisionView>)
    requires
        forall|j: int| 0 <= j < ds.len() ==> division_fits(#[trigger] ds[j]),
        stands_at(b, pos, divisions_bytes(ds)),
    ensures
        read_divisions(b, pos, ds.len()) == Ok::<(Seq<DivisionView>, int), DecodeError>(
            (ds.map_values(|d: DivisionView| division_with_true_count(d)), pos + divisions_bytes(ds).len()),
        ),
    decreases ds.len(),
{
    if ds.len() > 0 {
        let init = ds.drop_last();
        lemma_stands_split(b, pos, divisions_bytes(init), division_bytes(ds.last()));
        assert forall|j: int| 0 <= j < init.len() implies division_fits(#[trigger] init[j]) by {
            assert(init[j] == ds[j]);
        }
        lemma_read_divisions_back(b, pos, init);
        assert(division_fits(ds[ds.len() - 1]));
        lemma_read_division_back(b, pos + divisions_bytes(init).len(), ds.last());
        assert(init.map_values(|d: DivisionView| division_with_true_count(d)).push(division_with_true_count(ds.last()))
            =~= ds.map_values(|d: DivisionView| division_with_true_count(d)));
        assert((ds.len() - 1) as nat == init.len());
    } else {
        assert(ds.map_values(|d: DivisionView| division_with_true_count(d)) =~= Seq::<DivisionView>::empty());
    }
}

/// Decoding the byte form of a record gives the record back with every count
/// field equal to the length of its list: the count bytes written are the
/// true lengths, whatever the record's count fields held.
pub proof fn lemma_encode_writes_true_counts(r: DivisionInfoView)
    requires
        encodable(r),
    ensures
        read_info(info_bytes(r), 0) == Ok::<(DivisionInfoView, int), DecodeError>(
            (with_true_counts(r), info_bytes(r).len() as int),
        ),
        decode_info(info_bytes(r)) == Ok::<DivisionInfoView, DecodeError>(with_true_counts(r)),
        info_bytes(r)[1] == r.divisions.len(),
{
    let b = info_bytes(r);
    let n = r.divisions.len() as u8;
    let h = seq![r.content, n];
    assert(b.subrange(0, b.len() as int) =~= b);
    lemma_stands_split(b, 0, h, divisions_bytes(r.divisions));
    lemma_read_divisions_back(b, 2, r.divisions);
    assert(b[0] == r.content && b[1] == n);
    assert(read_u8(b, 0) == Ok::<(u8, int), DecodeError>((r.content, 1)));
    assert(read_u8(b, 1) == Ok::<(u8, int), DecodeError>((n, 2)));
    assert(n as nat == r.divisions.len());
    assert(b.len() == 2 + divisions_bytes(r.divisions).len());
}

/// Decoding the byte form of a well-formed record gives that record back.
pub proof fn lemma_decode_encode(r: DivisionInfoView)
    requires
        valid_record(r),
    ensures
        decode_info(info_bytes(r)) == Ok::<DivisionInfoView, DecodeError>(r),
{
    lemma_encode_writes_true_counts(r);
    let ds = r.divisions.map_values(|d: DivisionView| division_with_true_count(d));
    assert forall|i: int| 0 <= i < r.divisions.len() implies ds[i] == r.divisions[i] by {
        let d = r.divisions[i];
        assert(d.count == d.gateways.len());
        assert(division_with_true_count(d) =~= d);
    }
    assert(ds =~= r.divisions);
    assert(r.count == r.divisions.len());
}

proof fn lemma_stands_concat(b: Seq<u8>, pos: int, x: Seq<u8>, y: Seq<u8>)
    requires
        stands_at(b, pos, x),
        stands_at(b, pos + x.len(), y),
    ensures
        stands_at(b, pos, x + y),
{
    assert forall|i: int| 0 <= i < x.len() + y.len() implies b.subrange(pos, pos + x.len() + y.len())[i] == (x + y)[i] by {
        if i < x.len() {
            assert(b.subrange(pos, pos + x.len())[i] == x[i]);
        } else {
            assert(b.subrange(pos + x.len(), pos + x.len() + y.len())[i - x.len()] == y[i - x.len()]);
        }
    }
    assert(b.subrange(pos, pos + (x + y).len()) =~= x + y);
}

proof fn lemma_stands_byte(b: Seq<u8>, pos: int)
    requires
        0 <= pos < b.len(),
    ensures
        stands_at(b, pos, seq![b[pos]]),
{
    assert(b.subrange(pos, pos + 1) =~= seq![b[pos]]);
}

proof fn lemma_text_read_bytes(b: Seq<u8>, pos: int)
    requires
        read_text(b, pos) is Ok,
    ensures
        ({
            let (s, e) = read_text(b, pos)->Ok_0;
            text_fits(s) && stands_at(b, pos, text_bytes(s)) && e == pos + text_bytes(s).len()
        }),
{
    let w = b.subrange(pos, pos + 4);
    let n = u32_of_le(w);
    let raw = b.subrange(pos + 4, pos + 4 + n);
    lemma_le_u32(w);
    let s = decode_utf8(raw);
    assert(encode_utf8(s) == raw);
    assert(stands_at(b, pos, u32_le(n)));
    assert(stands_at(b, pos + 4, raw));
    lemma_stands_concat(b, pos, u32_le(n), raw);
}

proof fn lemma_gateway_read_bytes(b: Seq<u8>, pos: int)
    requires
        read_gateway(b, pos) is Ok,
    ensures
        ({
            let (g, e) = read_gateway(b, pos)->Ok_0;
            text_fits(g.ip) && stands_at(b, pos, gateway_bytes(g)) && e == pos + gateway_bytes(g).len()
        }),
{
    lemma_text_read_bytes(b, pos);
    let (s, p) = read_text(b, pos)->Ok_0;
    lemma_stands_byte(b, p);
    lemma_stands_concat(b, pos, text_bytes(s), seq![b[p]]);
}

#[verifier::rlimit(40)]
proof fn lemma_gateways_read_bytes(b: Seq<u8>, pos: int, n: nat)
    requires
        0 <= pos <= b.len(),
        read_gateways(b, pos, n) is Ok,
    ensures
        ({
            let (gs, e) = read_gateways(b, pos, n)->Ok_0;
            &&& gs.len() == n
            &&& forall|j: int| 0 <= j < gs.len() ==> text_fits(#[trigger] gs[j].ip)
            &&& stands_at(b, pos, gateways_bytes(gs))
            &&& e == pos + gateways_bytes(gs).len()
        }),
    decreases n,
{
    if n == 0 {
        assert(b.subrange(pos, pos) =~= Seq::<u8>::empty());
    } else {
        let m = (n - 1) as nat;
        lemma_gateways_read_bytes(b, pos, m);
        let (init, p) = read_gateways(b, pos, m)->Ok_0;
        lemma_gateway_read_bytes(b, p);
        let (g, q) = read_gateway(b, p)->Ok_0;
        let gs = init.push(g);
        assert(read_gateways(b, pos, n) == Ok::<(Seq<GatewayView>, int), DecodeError>((gs, q)));
        assert(gs.drop_last() =~= init);
        assert(gs.last() == g);
        assert(gateways_bytes(gs) == gateways_bytes(init) + gateway_bytes(g));
        lemma_stands_concat(b, pos, gateways_bytes(init), gateway_bytes(g));
        assert forall|j: int| 0 <= j < gs.len() implies text_fits(#[trigger] gs[j].ip) by {
            if j < init.len() {
                assert(gs[j] == init[j]);
            }
        }
    }
}

proof fn lemma_division_read_bytes(b: Seq<u8>, pos: int)
    requires
        read_division(b, pos) is Ok,
    ensures
        ({
            let (d, e) = read_division(b, pos)->Ok_0;
            &&& division_fits(d)
            &&& d.count == d.gateways.len()
            &&& stands_at(b, pos, division_bytes(d))
            &&& e == pos + division_bytes(d).len()
        }),
{
    lemma_text_read_bytes(b, pos);
    let (s, p1) = read_text(b, pos)->Ok_0;
    let c = b[p1 + 1];
    lemma_gateways_read_bytes(b, p1 + 2, c as nat);
    let (gs, p4) = read_gateways(b, p1 + 2, c as nat)->Ok_0;
    assert(b.subrange(p1, p1 + 2) =~= seq![b[p1], c]);
    assert(seq![b[p1], c] == seq![b[p1], gs.len() as u8]);
    lemma_stands_concat(b, pos, text_bytes(s), seq![b[p1], c]);
    lemma_stands_concat(b, pos, text_bytes(s) + seq![b[p1], c], gateways_bytes(gs));
}

#[verifier::rlimit(40)]
proof fn lemma_divisions_read_bytes(b: Seq<u8>, pos: int, n: nat)
    requires
        0 <= pos <= b.len(),
        read_divisions(b, pos, n) is Ok,
    ensures
        ({
            let (ds, e) = read_divisions(b, pos, n)->Ok_0;
            &&& ds.len() == n
            &&& forall|j: int| 0 <= j < ds.len() ==> division_fits(#[trigger] ds[j])
            &&& forall|j: int| 0 <= j < ds.len() ==> (#[trigger] ds[j]).count == ds[j].gateways.len()
            &&& stands_at(b, pos, divisions_bytes(ds))
            &&& e == pos + divisions_bytes(ds).len()
        }),
    decreases n,
{
    if n == 0 {
        assert(b.subrange(pos, pos) =~= Seq::<u8>::empty());
    } else {
        let m = (n - 1) as nat;
        lemma_divisions_read_bytes(b, pos, m);
        let (init, p) = read_divisions(b, pos, m)->Ok_0;
        lemma_division_read_bytes(b, p);
        let (d, q) = read_division(b, p)->Ok_0;
        let ds = init.push(d);
        assert(read_divisions(b, pos, n) == Ok::<(Seq<DivisionView>, int), DecodeError>((ds, q)));
        assert(ds.drop_last() =~= init);
        assert(ds.last() == d);
        assert(divisions_bytes(ds) == divisions_bytes(init) + division_bytes(d));
        lemma_stands_concat(b, pos, divisions_bytes(init), division_bytes(d));
        assert forall|j: int| 0 <= j < ds.len() implies division_fits(#[trigger] ds[j]) && ds[j].count
            == ds[j].gateways.len() by {
            if j < init.len() {
                assert(ds[j] == init[j]);
            }
        }
    }
}

/// A byte string that decodes is exactly the byte form of what it decodes to,
/// and that record is well formed: writing back what was read restores the
/// bytes that were read.
pub proof fn lemma_encode_decode(b: Seq<u8>)
    requires
        decode_info(b) is Ok,
    ensures
        valid_record(decode_info(b)->Ok_0),
        info_bytes(decode_info(b)->Ok_0) == b,
{
    let c = b[1];
    lemma_divisions_read_bytes(b, 2, c as nat);
    let (ds, e) = read_divisions(b, 2, c as nat)->Ok_0;
    let r = decode_info(b)->Ok_0;
    assert(b.subrange(0, 2) =~= seq![b[0], c]);
    lemma_stands_concat(b, 0, seq![b[0], c], divisions_bytes(ds));
    assert(b.subrange(0, b.len() as int) =~= b);
    assert(info_bytes(r) =~= b);
}

/// What a read from `b` becomes when `b` is cut to its first `k` bytes: the same
/// where it ends by `k`, else a truncation.
pub open spec fn cut<T>(r: Result<(T, int), DecodeError>, k: int) -> Result<(T, int), DecodeError> {
    match r {
        Ok((v, e)) => if e <= k {
            r
        } else {
            Err(DecodeError::Truncated)
        },
        Err(x) => Err(x),
    }
}

proof fn lemma_u8_prefix(b: Seq<u8>, pos: int, k: int)
    requires
        read_u8(b, pos) is Ok,
        0 <= k <= b.len(),
    ensures
        read_u8(b.take(k), pos) == cut(read_u8(b, pos), k),
{
}

proof fn lemma_text_prefix(b: Seq<u8>, pos: int, k: int)
    requires
        read_text(b, pos) is Ok,
        0 <= k <= b.len(),
    ensures
        read_text(b.take(k), pos) == cut(read_text(b, pos), k),
{
    let p = b.take(k);
    if pos + 4 <= k {
        assert(p.subrange(pos, pos + 4) =~= b.subrange(pos, pos + 4));
        let n = u32_of_le(b.subrange(pos, pos + 4));
        if pos + 4 + n <= k {
            assert(p.subrange(pos + 4, pos + 4 + n) =~= b.subrange(pos + 4, pos + 4 + n));
        }
    }
}

proof fn lemma_gateway_prefix(b: Seq<u8>, pos: int, k: int)
    requires
        read_gateway(b, pos) is Ok,
        0 <= k <= b.len(),
    ensures
        read_gateway(b.take(k), pos) == cut(read_gateway(b, pos), k),
{
    lemma_text_prefix(b, pos, k);
    let (s, q) = read_text(b, pos)->Ok_0;
    if q <= k {
        lemma_u8_prefix(b, q, k);
    }
}

#[verifier::rlimit(40)]
proof fn lemma_gateways_prefix(b: Seq<u8>, pos: int, n: nat, k: int)
    requires
        0 <= pos <= k,
        read_gateways(b, pos, n) is Ok,
        0 <= k <= b.len(),
    ensures
        read_gateways(b.take(k), pos, n) == cut(read_gateways(b, pos, n), k),
    decreases n,
{
    if n > 0 {
        let m = (n - 1) as nat;
        lemma_gateways_prefix(b, pos, m, k);
        lemma_gateways_read_bytes(b, pos, m);
        let (init, q) = read_gateways(b, pos, m)->Ok_0;
        lemma_gateway_read_bytes(b, q);
        if q <= k {
            lemma_gateway_prefix(b, q, k);
        }
    }
}

#[verifier::rlimit(40)]
proof fn lemma_division_prefix(b: Seq<u8>, pos: int, k: int)
    requires
        read_division(b, pos) is Ok,
        0 <= k <= b.len(),
    ensures
        read_division(b.take(k), pos) == cut(read_division(b, pos), k),
{
    lemma_text_prefix(b, pos, k);
    lemma_text_read_bytes(b, pos);
    lemma_division_read_bytes(b, pos);
    let (s, p1) = read_text(b, pos)->Ok_0;
    let (d, e) = read_division(b, pos)->Ok_0;
    assert(e == p1 + 2 + gateways_bytes(d.gateways).len());
    if p1 <= k {
        lemma_u8_prefix(b, p1, k);
        if p1 + 1 <= k {
            lemma_u8_prefix(b, p1 + 1, k);
            if p1 + 2 <= k {
                let c = b[p1 + 1];
                lemma_gateways_prefix(b, p1 + 2, c as nat, k);
                lemma_gateways_read_bytes(b, p1 + 2, c as nat);
            }
        }
    }
}

#[verifier::rlimit(40)]
proof fn lemma_divisions_prefix(b: Seq<u8>, pos: int, n: nat, k: int)
    requires
        0 <= pos <= k,
        read_divisions(b, pos, n) is Ok,
        0 <= k <= b.len(),
    ensures
        read_divisions(b.take(k), pos, n) == cut(read_divisions(b, pos, n), k),
    decreases n,
{
    if n > 0 {
        let m = (n - 1) as nat;
        lemma_divisions_prefix(b, pos, m, k);
        lemma_divisions_read_bytes(b, pos, m);
        let (init, q) = read_divisions(b, pos, m)->Ok_0;
        lemma_division_read_bytes(b, q);
        if q <= k {
            lemma_division_prefix(b, q, k);
        }
    }
}

/// Every strict prefix of a byte string that decodes fails to decode as
/// truncated: a record cut short never decodes to a partial record.
pub proof fn lemma_prefix_is_truncated(b: Seq<u8>, k: int)
    requires
        decode_info(b) is Ok,
        0 <= k < b.len(),
    ensures
        decode_info(b.take(k)) == Err::<DivisionInfoView, DecodeError>(DecodeError::Truncated),
{
    let c = b[1];
    lemma_u8_prefix(b, 0, k);
    if 1 <= k {
        lemma_u8_prefix(b, 1, k);
        if 2 <= k {
            lemma_divisions_prefix(b, 2, c as nat, k);
        }
    }
}

} // verus!
