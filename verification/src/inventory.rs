//! Host inventory sources: the built-in hostname source, and external
//! executable files whose captured output contributes key/value pairs to a
//! beacon's answer. Running an external file needs a subprocess, so only its
//! captured output text enters the library.

use crate::answers::BeaconInfos;
use crate::json::{InfoValue, InfoValueView};
use vstd::prelude::*;
use vstd::string::{StrSliceExecFns, StringSliceAdditionalSpecFns};
use vstd::utf8::encode_utf8;

verus! {

/// Where the internal inventory's value comes from: the machine's hostname,
/// or a fixed value injected for deterministic tests.
#[derive(Debug, Clone, PartialEq)]
pub enum HostnameSource {
    System,
    Fixed(String),
}

/// The built-in inventory source: one key whose value the source supplies.
#[derive(Debug, Clone, PartialEq)]
pub struct InternalInventory {
    pub key: String,
    pub source: HostnameSource,
}

impl Default for InternalInventory {
    /// By default, the machine's hostname under the key `hostname`.
    fn default() -> (r: Self)
        ensures
            r.key@ == "hostname"@,
            r.source is System,
    {
        InternalInventory { key: "hostname".to_owned(), source: HostnameSource::System }
    }
}

/// An external inventory source: an executable file, by path.
#[derive(Debug, Clone, PartialEq, Default)]
pub struct InventoryFile {
    pub path: String,
}

impl InventoryFile {
    /// An inventory file at the given path.
    pub fn from(path: &str) -> (r: Self)
        ensures
            r.path@ == path@,
    {
        InventoryFile { path: path.to_owned() }
    }
}

/// What executing an inventory source yields: the raw output text, and the
/// key/value map read from it.
#[derive(Debug, Clone, PartialEq)]
pub struct InventoryOutput {
    pub raw_output: String,
    pub output: BeaconInfos,
}

/// Relies on the `gethostname` crate: the machine's hostname, lossily
/// decoded. What it holds depends on the machine, so nothing is promised of
/// the value.
#[verifier::external_body]
pub fn get_hostname() -> String {
    gethostname::gethostname().to_string_lossy().to_string()
}

impl InternalInventory {
    /// Supplies the source's value and maps it under this inventory's key.
    pub fn execute(&self) -> (r: InventoryOutput)
        ensures
            r.output.wf(),
            r.output@ == Map::<Seq<u8>, InfoValueView>::empty().insert(
                encode_utf8(self.key@),
                InfoValueView::Text(encode_utf8(r.raw_output@)),
            ),
            self.source matches HostnameSource::Fixed(s) ==> r.raw_output@ == s@,
    {
        let raw_output = match &self.source {
            HostnameSource::System => get_hostname(),
            HostnameSource::Fixed(value) => value.clone(),
        };
        let mut output = BeaconInfos::new();
        output.set(
            self.key.as_str().as_bytes_vec(),
            InfoValue::Text(raw_output.as_str().as_bytes_vec()),
        );
        InventoryOutput { raw_output, output }
    }
}

} // verus!
