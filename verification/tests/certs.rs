use iris::common::{
    all_present, cert_not_after_ms, cert_plan, issue_dev_certs, CertError, sign_node_cert, NODE_CERT_VALIDITY_DAYS,
};
use iris::control::{node_id_of_peer_cert, peer_identity, PeerDenied};

fn make_ca() -> (String, String) {
    let key = rcgen::KeyPair::generate().unwrap();
    let mut params = rcgen::CertificateParams::new(Vec::<String>::new()).unwrap();
    params.is_ca = rcgen::IsCa::Ca(rcgen::BasicConstraints::Unconstrained);
    params.distinguished_name.push(rcgen::DnType::CommonName, "iris-ca");
    params.key_usages = vec![rcgen::KeyUsagePurpose::KeyCertSign, rcgen::KeyUsagePurpose::CrlSign];
    let cert = params.self_signed(&key).unwrap();
    (cert.pem(), key.serialize_pem())
}

fn names_of(pem: &str) -> (Vec<String>, Vec<String>, i64) {
    let (_, p) = x509_parser::pem::parse_x509_pem(pem.as_bytes()).unwrap();
    let cert = p.parse_x509().unwrap();
    let cns: Vec<String> = cert.subject().iter_common_name().map(|a| a.as_str().unwrap().to_string()).collect();
    let mut dns = Vec::new();
    if let Ok(Some(san)) = cert.subject_alternative_name() {
        for g in &san.value.general_names {
            if let x509_parser::extensions::GeneralName::DNSName(d) = g {
                dns.push(d.to_string());
            }
        }
    }
    (cns, dns, cert.validity().not_before.timestamp())
}

fn der_of(pem: &str) -> Vec<u8> {
    let (_, p) = x509_parser::pem::parse_x509_pem(pem.as_bytes()).unwrap();
    p.contents
}

#[test]
fn node_cert_valid_for_a_year() {
    let (ca, ca_key) = make_ca();
    let now = 1_700_000_000i64;
    let (cert, key, ca_back) = sign_node_cert(&ca, &ca_key, "n1", now).unwrap();
    assert_eq!(ca_back, ca);
    assert!(key.contains("PRIVATE KEY"));
    let expected = (now + NODE_CERT_VALIDITY_DAYS * 86_400) * 1000;
    assert_eq!(cert_not_after_ms(cert.as_bytes()).unwrap(), expected);
    let (cns, dns, not_before) = names_of(&cert);
    assert_eq!(cns, vec!["iris-node-n1".to_string()]);
    assert_eq!(dns, vec!["localhost".to_string(), "n1".to_string()]);
    assert_eq!(not_before, now);
}

#[test]
fn node_cert_names_its_node() {
    let (ca, ca_key) = make_ca();
    let (cert, _, _) = sign_node_cert(&ca, &ca_key, "edge-7", 1_700_000_000).unwrap();
    assert_eq!(node_id_of_peer_cert(&der_of(&cert)), Some("edge-7".to_string()));
    // the CA itself names no node
    assert_eq!(node_id_of_peer_cert(&der_of(&ca)), None);
    // bytes that are no certificate
    assert_eq!(node_id_of_peer_cert(b"not a certificate"), None);
}

#[test]
fn node_cert_refused_with_bad_ca() {
    let (ca, _) = make_ca();
    assert!(sign_node_cert(&ca, "no key here", "n1", 1_700_000_000).is_err());
    let (_, ca_key) = make_ca();
    assert!(sign_node_cert("no cert here", &ca_key, "n1", 1_700_000_000).is_err());
}

#[test]
fn all_present_needs_every_flag() {
    assert!(all_present(&vec![]));
    assert!(all_present(&vec![true, true, true]));
    assert!(!all_present(&vec![true, false, true]));
    assert!(!all_present(&vec![false]));
}

#[test]
fn dev_certs_follow_the_plan() {
    let all = cert_plan(false, false, false, false, None, false, false);
    let made = issue_dev_certs(&all, None).unwrap();
    let (ca, ca_key) = made.ca.unwrap();
    let (server, _) = made.server.unwrap();
    let (client, _) = made.client.unwrap();
    assert_eq!(names_of(&ca).0, vec!["iris-ca".to_string()]);
    assert_eq!(names_of(&server).0, vec!["iris-master".to_string()]);
    assert_eq!(names_of(&server).1, vec!["localhost".to_string(), "iris-master".to_string()]);
    assert_eq!(names_of(&client).0, vec!["iris-node".to_string()]);
    assert!(cert_not_after_ms(server.as_bytes()).is_ok());
    assert!(cert_not_after_ms(client.as_bytes()).is_ok());
    // the CA on disk issues the leaves; nothing else is made
    let only_server = cert_plan(true, true, true, true, Some("v1"), true, true);
    let made = issue_dev_certs(&only_server, Some((ca.clone(), ca_key.clone()))).unwrap();
    assert!(made.ca.is_none() && made.server.is_some() && made.client.is_none());
    // the CA is needed but missing
    assert!(matches!(issue_dev_certs(&only_server, None), Err(CertError::CaMissing)));
    assert_eq!(CertError::CaMissing.text(), "the CA is missing");
    assert!(matches!(issue_dev_certs(&only_server, Some(("bad".to_string(), "bad".to_string()))), Err(CertError::Rcgen(_))));
    // a node certificate from the same CA
    assert!(sign_node_cert(&ca, &ca_key, "n2", 1_700_000_000).is_ok());
}

#[test]
fn peer_must_be_the_node_it_claims() {
    let (ca, ca_key) = make_ca();
    let (cert, _, _) = sign_node_cert(&ca, &ca_key, "n5", 1_700_000_000).unwrap();
    let der = der_of(&cert);
    assert_eq!(peer_identity(&der, "n5"), Ok("n5".to_string()));
    assert_eq!(peer_identity(&der, "n6"), Err(PeerDenied::Mismatch));
    assert_eq!(peer_identity(&der, ""), Err(PeerDenied::Mismatch));
    assert_eq!(peer_identity(&der_of(&ca), "n5"), Err(PeerDenied::MissingCert));
    assert_eq!(peer_identity(b"", "n5"), Err(PeerDenied::MissingCert));
}
