//! The checks of the host's files that are taken into the enclave: `/etc/hosts`,
//! `/etc/hostname` and `/etc/resolv.conf`.
use vstd::prelude::*;
use vstd::utf8::{valid_utf8, decode_utf8};
use crate::errno::Errno;
use crate::util::hosts_parser_util::{
    utf8_str, lines_are_utf8, lines_valid_utf8, parse_hosts_buffer, parse_hostname_buffer, kept_lines, split_lines,
    hosts_spec, hostnames_spec,
};
use crate::util::resolv_conf_util::{parse_resolv_conf, resolv_conf_accepts};

verus! {

/// The host files that are taken into the enclave.
#[derive(Clone, Copy, Debug, PartialEq, Eq, Structural)]
pub enum HostFile {
    Hosts,
    HostName,
    ResolvConf,
}

/// Check the contents `bytes` of the host file `kind` and give its text to keep: the file
/// must be UTF-8 and well formed for its kind (`EINVAL` otherwise). For `/etc/hostname` the
/// text kept is the hostname itself; for the others, the whole file. `ip_valid` tells, for
/// each entry line of `/etc/hosts` in order, whether its first word is an IP address.
pub fn parse_host_file(kind: HostFile, bytes: &[u8], ip_valid: &[bool]) -> (r: Result<String, Errno>)
    ensures
        r is Err ==> r == Err::<String, Errno>(Errno::EINVAL),
        !valid_utf8(bytes@) ==> r is Err,
        kind == HostFile::Hosts ==> {
            &&& r is Ok <==> valid_utf8(bytes@) && lines_valid_utf8(bytes@)
                && ip_valid@.len() == kept_lines(split_lines(bytes@)).len()
                && hosts_spec(kept_lines(split_lines(bytes@)), ip_valid@) is Some
            &&& r matches Ok(s) ==> s@ == decode_utf8(bytes@)
        },
        kind == HostFile::HostName ==> {
            &&& r is Ok <==> valid_utf8(bytes@) && lines_valid_utf8(bytes@)
                && (hostnames_spec(kept_lines(split_lines(bytes@))) matches Some(hs) && hs.len() == 1)
            &&& r matches Ok(s) ==> s@ == hostnames_spec(kept_lines(split_lines(bytes@)))->0[0]
        },
        kind == HostFile::ResolvConf ==> {
            &&& r is Ok <==> valid_utf8(bytes@) && resolv_conf_accepts(bytes@)
            &&& r matches Ok(s) ==> s@ == decode_utf8(bytes@)
        },
{
    let text = match utf8_str(bytes) {
        Some(t) => t,
        None => {
            return Err(Errno::EINVAL);
        },
    };
    match kind {
        HostFile::Hosts => {
            if !lines_are_utf8(bytes) {
                return Err(Errno::EINVAL);
            }
            if ip_valid.len() != crate::util::hosts_parser_util::hosts_first_words(bytes).len() {
                return Err(Errno::EINVAL);
            }
            match parse_hosts_buffer(bytes, ip_valid) {
                Ok(_) => Ok(text.to_owned()),
                Err(e) => Err(e),
            }
        },
        HostFile::HostName => {
            if !lines_are_utf8(bytes) {
                return Err(Errno::EINVAL);
            }
            parse_hostname_buffer(bytes)
        },
        HostFile::ResolvConf => parse_resolv_conf(bytes),
    }
}

} // verus!
