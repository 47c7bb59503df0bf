//! Configuration values for the beacon server and the scanner: passive
//! inputs to the protocol engine.

use crate::addr::IpAddress;
use crate::bytes::{split_lines, split_lines_vec};
use crate::signature::Signature;
use vstd::prelude::*;
use vstd::string::{StrSliceExecFns, StringSliceAdditionalSpecFns};

verus! {

/// Default port the beacon listens on.
pub const SERVER_PORT_DEFAULT: u16 = 1901;

/// Default port the scanner binds for broadcasting and listening.
pub const SCANNER_PORT_DEFAULT: u16 = 1902;

/// Default signature; must be shorter than the receive buffer.
pub const SIGNATURE_DEFAULT: &'static str = "ipdisbeacon";

/// Extra signature the scanner broadcasts besides the default, so that
/// beacons of the older ipdiscan tool answer too.
pub const EXTRA_SIGNATURE_DEFAULT: &'static str = "pang-supremacy-maritime-revoke-afterglow";

/// The beacon's receive buffer: an inbound probe is truncated to this many
/// bytes before any comparison.
pub const RECV_BUFFER_LENGHT: usize = 128;

/// The scanner's receive buffer: an inbound answer is truncated to this
/// many bytes before decoding.
pub const SCANNER_RECV_BUFFER_LENGHT: usize = 1024;

/// Default pause between two broadcast rounds, in milliseconds.
pub const SCAN_PERIOD_DEFAULT_MILLIS: u64 = 1000;

/// Server configurations.
#[derive(Debug, Clone, PartialEq)]
pub struct ServerConfig {
    pub port: u16,
    pub listening_addr: IpAddress,
    pub signatures: Vec<Signature>,
    pub inventory_files: Vec<String>,
}

impl Default for ServerConfig {
    /// Port 1901, listening on every address, accepting the default
    /// signature, with no inventory files.
    fn default() -> (r: Self)
        ensures
            r.port == SERVER_PORT_DEFAULT,
            r.listening_addr == IpAddress::V4(0),
            r.signatures.deep_view() == seq!["ipdisbeacon".spec_bytes()],
            r.inventory_files@ == Seq::<String>::empty(),
    {
        let mut signatures: Vec<Signature> = Vec::new();
        signatures.push(Signature::from(SIGNATURE_DEFAULT));
        proof {
            assert(signatures.deep_view() =~= seq!["ipdisbeacon".spec_bytes()]);
        }
        ServerConfig {
            port: SERVER_PORT_DEFAULT,
            listening_addr: IpAddress::V4(0),
            signatures,
            inventory_files: Vec::new(),
        }
    }
}

/// The lines that hold anything: what a signatures file contributes.
pub open spec fn nonempty_lines(ls: Seq<Seq<u8>>) -> Seq<Seq<u8>>
    decreases ls.len(),
{
    if ls.len() == 0 {
        Seq::empty()
    } else {
        let rest = nonempty_lines(ls.drop_last());
        if ls.last().len() > 0 {
            rest.push(ls.last())
        } else {
            rest
        }
    }
}

impl ServerConfig {
    /// Reads accepted signatures from a signatures file's text: one
    /// signature per line, empty lines passed over.
    pub fn parse_signatures_file(contents: &str) -> (r: Vec<Signature>)
        ensures
            r.deep_view() == nonempty_lines(split_lines(contents.spec_bytes())),
    {
        let rows = split_lines_vec(contents.as_bytes());
        let ghost lv = rows.deep_view();
        let mut signatures: Vec<Signature> = Vec::new();
        let n = rows.len();
        let mut i: usize = 0;
        proof {
            assert(lv.take(0) =~= Seq::<Seq<u8>>::empty());
            assert(signatures.deep_view() =~= nonempty_lines(lv.take(0)));
        }
        while i < n
            invariant
                i <= n,
                n == rows@.len(),
                lv == rows.deep_view(),
                signatures.deep_view() == nonempty_lines(lv.take(i as int)),
            decreases n - i,
        {
            let ghost sofar = signatures.deep_view();
            let row = &rows[i];
            proof {
                assert(row@ == lv[i as int]);
                assert(lv.take(i + 1).drop_last() =~= lv.take(i as int));
                assert(lv.take(i + 1).last() == lv[i as int]);
            }
            if row.len() > 0 {
                signatures.push(Signature(row.clone()));
                proof {
                    assert(signatures.deep_view() =~~= sofar.push(lv[i as int]));
                }
            }
            i = i + 1;
        }
        proof {
            assert(lv.take(n as int) =~= lv);
        }
        signatures
    }
}

/// Scanner configurations.
#[derive(Debug, Clone, PartialEq)]
pub struct ScannerConfig {
    pub port: u16,
    pub scan_period_millis: u64,
    pub broadcast_addr: IpAddress,
    pub target_port: u16,
    pub signatures: Vec<Signature>,
}

impl Default for ScannerConfig {
    /// Port 1902, a one-second scan period, broadcasting to
    /// 255.255.255.255 toward port 1901, sending the default signature and
    /// the compatibility signature.
    fn default() -> (r: Self)
        ensures
            r.port == SCANNER_PORT_DEFAULT,
            r.scan_period_millis == SCAN_PERIOD_DEFAULT_MILLIS,
            r.broadcast_addr == IpAddress::V4(0xffff_ffff),
            r.target_port == SERVER_PORT_DEFAULT,
            r.signatures.deep_view() == seq![
                "ipdisbeacon".spec_bytes(),
                "pang-supremacy-maritime-revoke-afterglow".spec_bytes(),
            ],
    {
        let mut signatures: Vec<Signature> = Vec::new();
        signatures.push(Signature::from(SIGNATURE_DEFAULT));
        signatures.push(Signature::from(EXTRA_SIGNATURE_DEFAULT));
        proof {
            assert(signatures.deep_view() =~= seq![
                "ipdisbeacon".spec_bytes(),
                "pang-supremacy-maritime-revoke-afterglow".spec_bytes(),
            ]);
        }
        ScannerConfig {
            port: SCANNER_PORT_DEFAULT,
            scan_period_millis: SCAN_PERIOD_DEFAULT_MILLIS,
            broadcast_addr: IpAddress::V4(0xffff_ffff),
            target_port: SERVER_PORT_DEFAULT,
            signatures,
        }
    }
}

} // verus!
