use ripdis::addr::IpAddress;
use ripdis::conf::{ScannerConfig, ServerConfig};
use ripdis::signature::Signature;

#[test]
fn test_conf() {
    let conf = ServerConfig::default();
    assert_eq!(
        conf,
        ServerConfig {
            port: 1901,
            listening_addr: IpAddress::V4(0),
            signatures: vec![Signature::from("ipdisbeacon")],
            inventory_files: Vec::new(),
        }
    );
}

#[test]
fn test_scanner_conf() {
    let conf = ScannerConfig::default();
    assert_eq!(
        conf,
        ScannerConfig {
            port: 1902,
            scan_period_millis: 1000,
            broadcast_addr: IpAddress::V4(0xffff_ffff),
            target_port: 1901,
            signatures: vec![
                Signature::from("ipdisbeacon"),
                Signature::from("pang-supremacy-maritime-revoke-afterglow"),
            ],
        }
    );
}

#[test]
fn test_parse_signature_file() {
    assert_eq!(ServerConfig::parse_signatures_file(""), Vec::new());
    assert_eq!(
        ServerConfig::parse_signatures_file("TestSignature\n\nsign line 2\n\n\n"),
        vec![
            Signature::from("TestSignature"),
            Signature::from("sign line 2")
        ]
    );
}

#[test]
fn test_parse_signature_file_crlf() {
    assert_eq!(
        ServerConfig::parse_signatures_file("one\r\ntwo\r\n"),
        vec![Signature::from("one"), Signature::from("two")]
    );
}

#[test]
fn test_inventory_file_from() {
    let file = ripdis::inventory::InventoryFile::from("/usr/share/inventory/keys");
    assert_eq!(file.path, "/usr/share/inventory/keys");
}
