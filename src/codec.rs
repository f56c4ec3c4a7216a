//! The server-list record and its byte layout.
//!
//! A record is a content tag, a count byte and that many groups. A group is a
//! name, a terminator byte, a count byte and that many endpoints. An endpoint
//! is an address and a terminator byte. A text is a little-endian `u32` byte
//! length followed by that many bytes of UTF-8.

use vstd::prelude::*;
use vstd::utf8::*;

verus! {

broadcast use {encode_utf8_valid_utf8, encode_utf8_decode_utf8, decode_utf8_encode_utf8};

/// One network endpoint a client may connect to.
pub struct Gateway {
    pub ip: String,
    pub null_byte: u8,
}

/// A named group of endpoints.
pub struct Division {
    pub name: String,
    pub null_byte: u8,
    pub count: u8,
    pub gateways: Vec<Gateway>,
}

/// The server-list record: a content tag and its groups.
pub struct DivisionInfo {
    pub content: u8,
    pub count: u8,
    pub divisions: Vec<Division>,
}

pub ghost struct GatewayView {
    pub ip: Seq<char>,
    pub null_byte: u8,
}

pub ghost struct DivisionView {
    pub name: Seq<char>,
    pub null_byte: u8,
    pub count: u8,
    pub gateways: Seq<GatewayView>,
}

pub ghost struct DivisionInfoView {
    pub content: u8,
    pub count: u8,
    pub divisions: Seq<DivisionView>,
}

impl View for Gateway {
    type V = GatewayView;

    open spec fn view(&self) -> GatewayView {
        GatewayView { ip: self.ip@, null_byte: self.null_byte }
    }
}

impl View for Division {
    type V = DivisionView;

    open spec fn view(&self) -> DivisionView {
        DivisionView {
            name: self.name@,
            null_byte: self.null_byte,
            count: self.count,
            gateways: self.gateways@.map_values(|g: Gateway| g@),
        }
    }
}

impl View for DivisionInfo {
    type V = DivisionInfoView;

    open spec fn view(&self) -> DivisionInfoView {
        DivisionInfoView {
            content: self.content,
            count: self.count,
            divisions: self.divisions@.map_values(|d: Division| d@),
        }
    }
}

/// Why a byte string is not a record.
#[derive(Clone, Copy, Debug, PartialEq, Eq, Structural)]
pub enum DecodeError {
    /// The bytes end before the record does.
    Truncated,
    /// A text's bytes are not UTF-8.
    Malformed,
    /// Bytes follow the end of the record.
    TrailingBytes,
}

/// Why a record has no byte form: a group or endpoint list longer than a count
/// byte can say, or a text longer than its length prefix can say.
#[derive(Clone, Copy, Debug, PartialEq, Eq, Structural)]
pub enum EncodeError {
    TooLarge,
}

pub open spec fn u32_le(n: nat) -> Seq<u8> {
    seq![(n % 256) as u8, ((n / 256) % 256) as u8, ((n / 65536) % 256) as u8, ((n / 16777216) % 256) as u8]
}

pub open spec fn u32_of_le(b: Seq<u8>) -> nat {
    (b[0] + 256 * b[1] + 65536 * b[2] + 16777216 * b[3]) as nat
}

/// The byte form of a text.
pub open spec fn text_bytes(s: Seq<char>) -> Seq<u8> {
    u32_le(encode_utf8(s).len()) + encode_utf8(s)
}

pub open spec fn gateway_bytes(g: GatewayView) -> Seq<u8> {
    text_bytes(g.ip) + seq![g.null_byte]
}

pub open spec fn gateways_bytes(gs: Seq<GatewayView>) -> Seq<u8>
    decreases gs.len(),
{
    if gs.len() == 0 {
        Seq::empty()
    } else {
        gateways_bytes(gs.drop_last()) + gateway_bytes(gs.last())
    }
}

/// The byte form of a group: its count byte is the number of its endpoints,
/// whatever its `count` field holds.
pub open spec fn division_bytes(d: DivisionView) -> Seq<u8> {
    text_bytes(d.name) + seq![d.null_byte, d.gateways.len() as u8] + gateways_bytes(d.gateways)
}

pub open spec fn divisions_bytes(ds: Seq<DivisionView>) -> Seq<u8>
    decreases ds.len(),
{
    if ds.len() == 0 {
        Seq::empty()
    } else {
        divisions_bytes(ds.drop_last()) + division_bytes(ds.last())
    }
}

/// The byte form of a record: its count byte is the number of its groups,
/// whatever its `count` field holds.
pub open spec fn info_bytes(r: DivisionInfoView) -> Seq<u8> {
    seq![r.content, r.divisions.len() as u8] + divisions_bytes(r.divisions)
}

pub open spec fn text_fits(s: Seq<char>) -> bool {
    encode_utf8(s).len() <= u32::MAX
}

pub open spec fn division_fits(d: DivisionView) -> bool {
    &&& text_fits(d.name)
    &&& d.gateways.len() <= 255
    &&& forall|j: int| 0 <= j < d.gateways.len() ==> text_fits(#[trigger] d.gateways[j].ip)
}

/// A record has a byte form: every list fits a count byte and every text fits
/// its length prefix.
pub open spec fn encodable(r: DivisionInfoView) -> bool {
    &&& r.divisions.len() <= 255
    &&& forall|i: int| 0 <= i < r.divisions.len() ==> division_fits(#[trigger] r.divisions[i])
}

/// Every count field equals the length of the list it counts.
pub open spec fn counts_match(r: DivisionInfoView) -> bool {
    &&& r.count == r.divisions.len()
    &&& forall|i: int| 0 <= i < r.divisions.len() ==> #[trigger] r.divisions[i].count == r.divisions[i].gateways.len()
}

/// A well-formed record: it has a byte form and its counts are true.
pub open spec fn valid_record(r: DivisionInfoView) -> bool {
    encodable(r) && counts_match(r)
}

/// The group with its count field set to the number of its endpoints.
pub open spec fn division_with_true_count(d: DivisionView) -> DivisionView {
    DivisionView { count: d.gateways.len() as u8, ..d }
}

/// The record with each count field set to the length of its list.
pub open spec fn with_true_counts(r: DivisionInfoView) -> DivisionInfoView {
    DivisionInfoView {
        content: r.content,
        count: r.divisions.len() as u8,
        divisions: r.divisions.map_values(|d: DivisionView| division_with_true_count(d)),
    }
}

pub open spec fn read_u8(b: Seq<u8>, pos: int) -> Result<(u8, int), DecodeError> {
    if 0 <= pos < b.len() {
        Ok((b[pos], pos + 1))
    } else {
        Err(DecodeError::Truncated)
    }
}

pub open spec fn read_u32_le(b: Seq<u8>, pos: int) -> Result<(nat, int), DecodeError> {
    if 0 <= pos && pos + 4 <= b.len() {
        Ok((u32_of_le(b.subrange(pos, pos + 4)), pos + 4))
    } else {
        Err(DecodeError::Truncated)
    }
}

/// Reads a text at `pos`: its length, then that many bytes, which must be UTF-8.
pub open spec fn read_text(b: Seq<u8>, pos: int) -> Result<(Seq<char>, int), DecodeError> {
    match read_u32_le(b, pos) {
        Err(e) => Err(e),
        Ok((n, p)) => if p + n <= b.len() {
            let raw = b.subrange(p, p + n);
            if valid_utf8(raw) {
                Ok((decode_utf8(raw), p + n))
            } else {
                Err(DecodeError::Malformed)
            }
        } else {
            Err(DecodeError::Truncated)
        },
    }
}

pub open spec fn read_gateway(b: Seq<u8>, pos: int) -> Result<(GatewayView, int), DecodeError> {
    match read_text(b, pos) {
        Err(e) => Err(e),
        Ok((ip, p)) => match read_u8(b, p) {
            Err(e) => Err(e),
            Ok((z, q)) => Ok((GatewayView { ip, null_byte: z }, q)),
        },
    }
}

/// Reads `n` endpoints one after another from `pos`.
pub open spec fn read_gateways(b: Seq<u8>, pos: int, n: nat) -> Result<(Seq<GatewayView>, int), DecodeError>
    decreases n,
{
    if n == 0 {
        Ok((Seq::empty(), pos))
    } else {
        match read_gateways(b, pos, (n - 1) as nat) {
            Err(e) => Err(e),
            Ok((gs, p)) => match read_gateway(b, p) {
                Err(e) => Err(e),
                Ok((g, q)) => Ok((gs.push(g), q)),
            },
        }
    }
}

pub open spec fn read_division(b: Seq<u8>, pos: int) -> Result<(DivisionView, int), DecodeError> {
    match read_text(b, pos) {
        Err(e) => Err(e),
        Ok((name, p1)) => match read_u8(b, p1) {
            Err(e) => Err(e),
            Ok((z, p2)) => match read_u8(b, p2) {
                Err(e) => Err(e),
                Ok((c, p3)) => match read_gateways(b, p3, c as nat) {
                    Err(e) => Err(e),
                    Ok((gs, p4)) => Ok((DivisionView { name, null_byte: z, count: c, gateways: gs }, p4)),
                },
            },
        },
    }
}

/// Reads `n` groups one after another from `pos`.
pub open spec fn read_divisions(b: Seq<u8>, pos: int, n: nat) -> Result<(Seq<DivisionView>, int), DecodeError>
    decreases n,
{
    if n == 0 {
        Ok((Seq::empty(), pos))
    } else {
        match read_divisions(b, pos, (n - 1) as nat) {
            Err(e) => Err(e),
            Ok((ds, p)) => match read_division(b, p) {
                Err(e) => Err(e),
                Ok((d, q)) => Ok((ds.push(d), q)),
            },
        }
    }
}

pub open spec fn read_info(b: Seq<u8>, pos: int) -> Result<(DivisionInfoView, int), DecodeError> {
    match read_u8(b, pos) {
        Err(e) => Err(e),
        Ok((t, p1)) => match read_u8(b, p1) {
            Err(e) => Err(e),
            Ok((c, p2)) => match read_divisions(b, p2, c as nat) {
                Err(e) => Err(e),
                Ok((ds, p3)) => Ok((DivisionInfoView { content: t, count: c, divisions: ds }, p3)),
            },
        },
    }
}

/// What a byte string decodes to: the record that starts it, which must end
/// exactly where the bytes do.
pub open spec fn decode_info(b: Seq<u8>) -> Result<DivisionInfoView, DecodeError> {
    match read_info(b, 0) {
        Err(e) => Err(e),
        Ok((r, end)) => if end == b.len() {
            Ok(r)
        } else {
            Err(DecodeError::TrailingBytes)
        },
    }
}

/// An executable read result agrees with a spec-level one.
pub open spec fn agrees<T: View>(r: Result<(T, usize), DecodeError>, s: Result<(T::V, int), DecodeError>) -> bool {
    match (r, s) {
        (Ok((x, p)), Ok((v, q))) => x@ == v && p as int == q,
        (Err(e), Err(f)) => e == f,
        _ => false,
    }
}

pub(crate) proof fn lemma_u32_le(n: nat)
    requires
        n <= u32::MAX,
    ensures
        u32_le(n).len() == 4,
        u32_of_le(u32_le(n)) == n,
{
    let b = u32_le(n);
    let a = n / 256;
    let c = a / 256;
    let d = c / 256;
    assert(n / 65536 == c) by (nonlinear_arith)
        requires a == n / 256, c == a / 256;
    assert(n / 16777216 == d) by (nonlinear_arith)
        requires a == n / 256, c == a / 256, d == c / 256;
    assert(d < 256) by (nonlinear_arith)
        requires n <= u32::MAX, a == n / 256, c == a / 256, d == c / 256;
    assert(n == n % 256 + 256 * (a % 256) + 65536 * (c % 256) + 16777216 * d) by (nonlinear_arith)
        requires a == n / 256, c == a / 256, d == c / 256, d < 256;
}

pub(crate) proof fn lemma_le_u32(b: Seq<u8>)
    requires
        b.len() == 4,
    ensures
        u32_of_le(b) <= u32::MAX,
        u32_le(u32_of_le(b)) =~= b,
{
    let n = u32_of_le(b);
    let (b0, b1, b2, b3) = (b[0] as int, b[1] as int, b[2] as int, b[3] as int);
    assert(n == b0 + 256 * b1 + 65536 * b2 + 16777216 * b3);
    assert(n <= u32::MAX) by (nonlinear_arith)
        requires n == b0 + 256 * b1 + 65536 * b2 + 16777216 * b3, 0 <= b0 < 256, 0 <= b1 < 256, 0 <= b2 < 256, 0 <= b3 < 256;
    assert(n % 256 == b0 && (n / 256) % 256 == b1 && (n / 65536) % 256 == b2 && (n / 16777216) % 256 == b3) by (nonlinear_arith)
        requires n == b0 + 256 * b1 + 65536 * b2 + 16777216 * b3, 0 <= b0 < 256, 0 <= b1 < 256, 0 <= b2 < 256, 0 <= b3 < 256;
}

fn push_u32_le(out: &mut Vec<u8>, n: u32)
    ensures
        final(out)@ == old(out)@ + u32_le(n as nat),
{
    out.push((n % 256) as u8);
    out.push(((n / 256) % 256) as u8);
    out.push(((n / 65536) % 256) as u8);
    out.push(((n / 16777216) % 256) as u8);
    assert(final(out)@ =~= old(out)@ + u32_le(n as nat));
}

fn push_bytes(out: &mut Vec<u8>, b: &[u8])
    ensures
        final(out)@ == old(out)@ + b@,
{
    let ghost start = out@;
    let mut i: usize = 0;
    while i < b.len()
        invariant
            i <= b@.len(),
            out@ == start + b@.subrange(0, i as int),
        decreases b@.len() - i,
    {
        out.push(b[i]);
        i = i + 1;
        assert(out@ =~= start + b@.subrange(0, i as int));
    }
    assert(b@.subrange(0, b@.len() as int) =~= b@);
}

/// Appends a text's byte form; fails, leaving `out` unspecified, when the text
/// is too long for its length prefix.
fn push_text(out: &mut Vec<u8>, s: &String) -> (ok: bool)
    ensures
        ok == text_fits(s@),
        ok ==> final(out)@ == old(out)@ + text_bytes(s@),
{
    let st = s.as_str();
    let b = st.as_bytes();
    assert(b@ == encode_utf8(s@));
    if b.len() > u32::MAX as usize {
        return false;
    }
    push_u32_le(out, b.len() as u32);
    push_bytes(out, b);
    assert(final(out)@ =~= old(out)@ + text_bytes(s@));
    true
}

fn push_gateway(out: &mut Vec<u8>, g: &Gateway) -> (ok: bool)
    ensures
        ok == text_fits(g@.ip),
        ok ==> final(out)@ == old(out)@ + gateway_bytes(g@),
{
    if !push_text(out, &g.ip) {
        return false;
    }
    out.push(g.null_byte);
    assert(final(out)@ =~= old(out)@ + gateway_bytes(g@));
    true
}

fn push_division(out: &mut Vec<u8>, d: &Division) -> (ok: bool)
    ensures
        ok == division_fits(d@),
        ok ==> final(out)@ == old(out)@ + division_bytes(d@),
{
    let ghost start = out@;
    let ghost gv = d@.gateways;
    if d.gateways.len() > 255 {
        return false;
    }
    if !push_text(out, &d.name) {
        return false;
    }
    out.push(d.null_byte);
    out.push(d.gateways.len() as u8);
    let ghost head = out@;
    let mut i: usize = 0;
    while i < d.gateways.len()
        invariant
            i <= d.gateways@.len(),
            gv == d@.gateways,
            gv.len() == d.gateways@.len(),
            forall|j: int| 0 <= j < gv.len() ==> #[trigger] gv[j] == d.gateways@[j]@,
            forall|j: int| 0 <= j < i ==> text_fits(#[trigger] gv[j].ip),
            out@ == head + gateways_bytes(gv.subrange(0, i as int)),
        decreases d.gateways@.len() - i,
    {
        let ghost before = out@;
        if !push_gateway(out, &d.gateways[i]) {
            assert(!text_fits(gv[i as int].ip));
            return false;
        }
        assert(gv.subrange(0, i + 1).drop_last() =~= gv.subrange(0, i as int));
        i = i + 1;
        assert(out@ =~= head + gateways_bytes(gv.subrange(0, i as int)));
    }
    assert(gv.subrange(0, gv.len() as int) =~= gv);
    assert(final(out)@ =~= start + division_bytes(d@));
    true
}

/// The byte form of a record. Each count byte written is the length of the
/// list it counts; the record's own count fields are not read.
pub fn encode_division_info(info: &DivisionInfo) -> (r: Result<Vec<u8>, EncodeError>)
    ensures
        r is Ok <==> encodable(info@),
        r is Ok ==> r->Ok_0@ == info_bytes(info@),
{
    let ghost dv = info@.divisions;
    let mut out: Vec<u8> = Vec::new();
    if info.divisions.len() > 255 {
        return Err(EncodeError::TooLarge);
    }
    out.push(info.content);
    out.push(info.divisions.len() as u8);
    let ghost head = out@;
    let mut i: usize = 0;
    while i < info.divisions.len()
        invariant
            i <= info.divisions@.len(),
            dv == info@.divisions,
            dv.len() == info.divisions@.len(),
            forall|j: int| 0 <= j < dv.len() ==> #[trigger] dv[j] == info.divisions@[j]@,
            forall|j: int| 0 <= j < i ==> division_fits(#[trigger] dv[j]),
            out@ == head + divisions_bytes(dv.subrange(0, i as int)),
        decreases info.divisions@.len() - i,
    {
        if !push_division(&mut out, &info.divisions[i]) {
            assert(!division_fits(dv[i as int]));
            return Err(EncodeError::TooLarge);
        }
        assert(dv.subrange(0, i + 1).drop_last() =~= dv.subrange(0, i as int));
        i = i + 1;
        assert(out@ =~= head + divisions_bytes(dv.subrange(0, i as int)));
    }
    assert(dv.subrange(0, dv.len() as int) =~= dv);
    assert(out@ =~= info_bytes(info@));
    Ok(out)
}

proof fn lemma_gateways_err_persists(b: Seq<u8>, pos: int, n: nat, m: nat)
    requires
        n <= m,
        read_gateways(b, pos, n) is Err,
    ensures
        read_gateways(b, pos, m) == read_gateways(b, pos, n),
    decreases m - n,
{
    if n < m {
        lemma_gateways_err_persists(b, pos, n, (m - 1) as nat);
    }
}

proof fn lemma_divisions_err_persists(b: Seq<u8>, pos: int, n: nat, m: nat)
    requires
        n <= m,
        read_divisions(b, pos, n) is Err,
    ensures
        read_divisions(b, pos, m) == read_divisions(b, pos, n),
    decreases m - n,
{
    if n < m {
        lemma_divisions_err_persists(b, pos, n, (m - 1) as nat);
    }
}

/// Relies on `String::from_utf8`: it succeeds exactly when the bytes are
/// UTF-8, and the string then holds the characters that they encode.
#[verifier::external_body]
fn string_from_utf8(bytes: Vec<u8>) -> (r: Option<String>)
    ensures
        r is Some <==> valid_utf8(bytes@),
        r is Some ==> r->Some_0@ == decode_utf8(bytes@),
{
    String::from_utf8(bytes).ok()
}

fn decode_u8_at(bytes: &[u8], pos: usize) -> (r: Result<(u8, usize), DecodeError>)
    ensures
        agrees(r, read_u8(bytes@, pos as int)),
{
    if pos < bytes.len() {
        Ok((bytes[pos], pos + 1))
    } else {
        Err(DecodeError::Truncated)
    }
}

fn decode_u32_at(bytes: &[u8], pos: usize) -> (r: Result<(u32, usize), DecodeError>)
    ensures
        match (r, read_u32_le(bytes@, pos as int)) {
            (Ok((x, p)), Ok((v, q))) => x as nat == v && p as int == q,
            (Err(e), Err(f)) => e == f,
            _ => false,
        },
{
    if pos > bytes.len() || bytes.len() - pos < 4 {
        return Err(DecodeError::Truncated);
    }
    let x: u32 = bytes[pos] as u32 + 256 * (bytes[pos + 1] as u32) + 65536 * (bytes[pos + 2] as u32)
        + 16777216 * (bytes[pos + 3] as u32);
    let ghost w = bytes@.subrange(pos as int, pos + 4);
    assert(w[0] == bytes@[pos as int] && w[1] == bytes@[pos + 1] && w[2] == bytes@[pos + 2] && w[3] == bytes@[pos + 3]);
    Ok((x, pos + 4))
}

/// Reads the text at `pos`.
pub fn decode_text_at(bytes: &[u8], pos: usize) -> (r: Result<(String, usize), DecodeError>)
    ensures
        agrees(r, read_text(bytes@, pos as int)),
{
    let (n, p) = match decode_u32_at(bytes, pos) {
        Ok(x) => x,
        Err(e) => return Err(e),
    };
    if n as usize > bytes.len() - p {
        return Err(DecodeError::Truncated);
    }
    let end = p + n as usize;
    let mut raw: Vec<u8> = Vec::new();
    let mut i: usize = p;
    while i < end
        invariant
            p <= i <= end <= bytes@.len(),
            raw@ == bytes@.subrange(p as int, i as int),
        decreases end - i,
    {
        raw.push(bytes[i]);
        i = i + 1;
        assert(raw@ =~= bytes@.subrange(p as int, i as int));
    }
    match string_from_utf8(raw) {
        Some(s) => Ok((s, end)),
        None => Err(DecodeError::Malformed),
    }
}

/// Reads the endpoint at `pos`.
pub fn decode_gateway_at(bytes: &[u8], pos: usize) -> (r: Result<(Gateway, usize), DecodeError>)
    ensures
        agrees(r, read_gateway(bytes@, pos as int)),
{
    let (ip, p) = match decode_text_at(bytes, pos) {
        Ok(x) => x,
        Err(e) => return Err(e),
    };
    let (null_byte, q) = match decode_u8_at(bytes, p) {
        Ok(x) => x,
        Err(e) => return Err(e),
    };
    Ok((Gateway { ip, null_byte }, q))
}

/// Reads the group at `pos`, with as many endpoints as its count byte says.
pub fn decode_division_at(bytes: &[u8], pos: usize) -> (r: Result<(Division, usize), DecodeError>)
    ensures
        agrees(r, read_division(bytes@, pos as int)),
{
    let ghost b = bytes@;
    let (name, p1) = match decode_text_at(bytes, pos) {
        Ok(x) => x,
        Err(e) => return Err(e),
    };
    let (null_byte, p2) = match decode_u8_at(bytes, p1) {
        Ok(x) => x,
        Err(e) => return Err(e),
    };
    let (count, p3) = match decode_u8_at(bytes, p2) {
        Ok(x) => x,
        Err(e) => return Err(e),
    };
    let mut gateways: Vec<Gateway> = Vec::new();
    let mut p: usize = p3;
    let mut i: u8 = 0;
    let ghost mut gv: Seq<GatewayView> = Seq::empty();
    assert(gateways@.map_values(|g: Gateway| g@) =~= gv);
    while i < count
        invariant
            i <= count,
            b == bytes@,
            read_text(b, pos as int) == Ok::<(Seq<char>, int), DecodeError>((name@, p1 as int)),
            read_u8(b, p1 as int) == Ok::<(u8, int), DecodeError>((null_byte, p2 as int)),
            read_u8(b, p2 as int) == Ok::<(u8, int), DecodeError>((count, p3 as int)),
            gateways@.map_values(|g: Gateway| g@) == gv,
            read_gateways(b, p3 as int, i as nat) == Ok::<(Seq<GatewayView>, int), DecodeError>((gv, p as int)),
        decreases count - i,
    {
        let res = decode_gateway_at(bytes, p);
        let (g, q) = match res {
            Ok(x) => x,
            Err(e) => {
                proof {
                    assert(agrees(res, read_gateway(b, p as int)));
                    let n1 = (i + 1) as nat;
                    assert((n1 - 1) as nat == i as nat);
                    assert(read_gateway(b, p as int) == Err::<(GatewayView, int), DecodeError>(e));
                    assert(read_gateways(b, p3 as int, n1) == Err::<(Seq<GatewayView>, int), DecodeError>(e));
                    lemma_gateways_err_persists(b, p3 as int, n1, count as nat);
                }
                return Err(e);
            },
        };
        gateways.push(g);
        proof {
            gv = gv.push(g@);
        }
        i = i + 1;
        assert(gateways@.map_values(|g: Gateway| g@) =~= gv);
        p = q;
    }
    Ok((Division { name, null_byte, count, gateways }, p))
}

/// Reads the record at `pos`, with as many groups as its count byte says.
pub fn decode_info_at(bytes: &[u8], pos: usize) -> (r: Result<(DivisionInfo, usize), DecodeError>)
    ensures
        agrees(r, read_info(bytes@, pos as int)),
{
    let ghost b = bytes@;
    let (content, p1) = match decode_u8_at(bytes, pos) {
        Ok(x) => x,
        Err(e) => return Err(e),
    };
    let (count, p2) = match decode_u8_at(bytes, p1) {
        Ok(x) => x,
        Err(e) => return Err(e),
    };
    let mut divisions: Vec<Division> = Vec::new();
    let mut p: usize = p2;
    let mut i: u8 = 0;
    let ghost mut dv: Seq<DivisionView> = Seq::empty();
    assert(divisions@.map_values(|d: Division| d@) =~= dv);
    while i < count
        invariant
            i <= count,
            b == bytes@,
            read_u8(b, pos as int) == Ok::<(u8, int), DecodeError>((content, p1 as int)),
            read_u8(b, p1 as int) == Ok::<(u8, int), DecodeError>((count, p2 as int)),
            divisions@.map_values(|d: Division| d@) == dv,
            read_divisions(b, p2 as int, i as nat) == Ok::<(Seq<DivisionView>, int), DecodeError>((dv, p as int)),
        decreases count - i,
    {
        let res = decode_division_at(bytes, p);
        let (d, q) = match res {
            Ok(x) => x,
            Err(e) => {
                proof {
                    assert(agrees(res, read_division(b, p as int)));
                    let n1 = (i + 1) as nat;
                    assert((n1 - 1) as nat == i as nat);
                    assert(read_division(b, p as int) == Err::<(DivisionView, int), DecodeError>(e));
                    assert(read_divisions(b, p2 as int, n1) == Err::<(Seq<DivisionView>, int), DecodeError>(e));
                    lemma_divisions_err_persists(b, p2 as int, n1, count as nat);
                }
                return Err(e);
            },
        };
        divisions.push(d);
        proof {
            dv = dv.push(d@);
        }
        i = i + 1;
        assert(divisions@.map_values(|d: Division| d@) =~= dv);
        p = q;
    }
    Ok((DivisionInfo { content, count, divisions }, p))
}

/// Decodes a record that fills `bytes` exactly.
pub fn decode_division_info(bytes: &[u8]) -> (r: Result<DivisionInfo, DecodeError>)
    ensures
        match (r, decode_info(bytes@)) {
            (Ok(x), Ok(v)) => x@ == v,
            (Err(e), Err(f)) => e == f,
            _ => false,
        },
{
    match decode_info_at(bytes, 0) {
        Err(e) => Err(e),
        Ok((info, end)) => if end == bytes.len() {
            Ok(info)
        } else {
            Err(DecodeError::TrailingBytes)
        },
    }
}

} // verus!
