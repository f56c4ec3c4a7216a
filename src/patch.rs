//! The record that sends the client to the local relay, and the patch
//! target's port.

use vstd::prelude::*;
use vstd::string::*;
use vstd::utf8::*;
use crate::codec::{
    text_fits, valid_record, Division, DivisionInfo, DivisionInfoView, DivisionView, Gateway, GatewayView,
};

verus! {

/// Added to a patch version to give the patch target's port.
pub const PATCH_PORT_BASE: u32 = 32000;

/// The only group of the localized record.
pub open spec fn local_division() -> DivisionView {
    DivisionView {
        name: "DIV01"@,
        null_byte: 0,
        count: 1,
        gateways: seq![GatewayView { ip: "127.0.0.1"@, null_byte: 0 }],
    }
}

/// The localized record: the original's content tag, and one group whose one
/// endpoint is the loopback address.
pub open spec fn localized(content: u8) -> DivisionInfoView {
    DivisionInfoView { content, count: 1, divisions: seq![local_division()] }
}

/// The record that points the client at the local relay. Every original
/// group and endpoint is dropped; only the content tag is kept.
pub fn create_local_division_info(original: &DivisionInfo) -> (r: DivisionInfo)
    ensures
        r@ == localized(original.content),
        valid_record(r@),
{
    let name = "DIV01".to_owned();
    let ip = "127.0.0.1".to_owned();
    proof {
        reveal_strlit("DIV01");
        reveal_strlit("127.0.0.1");
        is_ascii_chars_encode_utf8(name@);
        is_ascii_chars_encode_utf8(ip@);
        assert(is_ascii_chars(name@));
        assert(is_ascii_chars(ip@));
    }
    let gateways = vec![Gateway { ip, null_byte: 0 }];
    let divisions = vec![Division { name, null_byte: 0, count: 1, gateways }];
    let r = DivisionInfo { content: original.content, count: 1, divisions };
    assert(r@.divisions[0].gateways =~= local_division().gateways);
    assert(r@.divisions =~= localized(original.content).divisions);
    assert(text_fits(r@.divisions[0].gateways[0].ip));
    r
}

/// The patch target's port for a patch version.
pub fn create_port_from_patch(patch: u32) -> (r: u32)
    requires
        patch <= u32::MAX - PATCH_PORT_BASE,
    ensures
        r == PATCH_PORT_BASE + patch,
{
    PATCH_PORT_BASE + patch
}

} // verus!
