//! The check of the host's `/etc/resolv.conf` before it is taken into the enclave.
use vstd::prelude::*;
use vstd::utf8::{valid_utf8, decode_utf8};
use crate::errno::Errno;
use crate::util::hosts_parser_util::utf8_str;

verus! {

/// Whether `resolv_conf::Config::parse` accepts the bytes as a resolver configuration.
pub uninterp spec fn resolv_conf_accepts(bytes: Seq<u8>) -> bool;

/// `resolv_conf::Config::parse` on the bytes: whether it parses them without error.
#[verifier::external_body]
fn resolv_conf_parses(bytes: &[u8]) -> (r: bool)
    ensures
        r == resolv_conf_accepts(bytes@),
{
    resolv_conf::Config::parse(bytes).is_ok()
}

/// The text of the host's `/etc/resolv.conf`, given as bytes, once the resolver configuration
/// parser has said whether it accepts them (`accepted`): `EINVAL` when the bytes are not UTF-8
/// or were not accepted.
pub fn resolv_conf_text(bytes: &[u8], accepted: bool) -> (r: Result<String, Errno>)
    ensures
        r is Ok <==> valid_utf8(bytes@) && accepted,
        r is Err ==> r == Err::<String, Errno>(Errno::EINVAL),
        r matches Ok(s) ==> s@ == decode_utf8(bytes@),
{
    let text = match utf8_str(bytes) {
        Some(t) => t,
        None => {
            return Err(Errno::EINVAL);
        },
    };
    if !accepted {
        return Err(Errno::EINVAL);
    }
    Ok(text.to_owned())
}

/// The text of the host's `/etc/resolv.conf`, given as bytes: `EINVAL` when it is not UTF-8
/// or not a well-formed resolver configuration.
pub fn parse_resolv_conf(bytes: &[u8]) -> (r: Result<String, Errno>)
    ensures
        r is Ok <==> valid_utf8(bytes@) && resolv_conf_accepts(bytes@),
        r is Err ==> r == Err::<String, Errno>(Errno::EINVAL),
        r matches Ok(s) ==> s@ == decode_utf8(bytes@),
{
    let accepted = resolv_conf_parses(bytes);
    resolv_conf_text(bytes, accepted)
}

} // verus!
