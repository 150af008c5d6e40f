use mini_git::error::GitError;
use mini_git::refs::{current_branch_path, initial_head, ref_file_content, store_references};
use mini_git::remote::{
    check_discovery_response, fetch_request, pack_from_response, parse_discovery, parse_pkt_line, parse_pkt_lines,
    want_request, PktLine, Reference,
};

const H1: &str = "1111111111111111111111111111111111111111";
const H2: &str = "2222222222222222222222222222222222222222";

fn pkt(payload: &str) -> String {
    format!("{:04x}{}", payload.len() + 4, payload)
}

fn advertisement(caps: &str) -> Vec<u8> {
    let mut s = pkt("# service=git-upload-pack\n");
    s.push_str("0000");
    s.push_str(&pkt(&format!("{H1} HEAD\0{caps}\n")));
    s.push_str(&pkt(&format!("{H1} refs/heads/master\n")));
    s.push_str(&pkt(&format!("{H2} refs/tags/v1\n")));
    s.push_str("0000");
    s.into_bytes()
}

#[test]
fn pkt_lines_are_length_prefixed() {
    let (l, next) = parse_pkt_line(b"0009done\n0000", 0).unwrap();
    assert!(matches!(l, PktLine::Data(ref d) if d == b"done\n"));
    assert_eq!(next, 9);
    let (l, next) = parse_pkt_line(b"0009done\n0000", 9).unwrap();
    assert!(matches!(l, PktLine::Flush));
    assert_eq!(next, 13);
    assert_eq!(parse_pkt_line(b"000Adone\n", 0).unwrap_err(), GitError::Corrupt);
    assert_eq!(parse_pkt_line(b"0003", 0).unwrap_err(), GitError::Corrupt);
    assert_eq!(parse_pkt_line(b"00zz", 0).unwrap_err(), GitError::Corrupt);
    assert_eq!(parse_pkt_lines(b"0004").unwrap().len(), 1);
    assert_eq!(parse_pkt_lines(b"00").unwrap_err(), GitError::Corrupt);
}

#[test]
fn discovery_lists_references_and_capabilities() {
    let (refs, caps) = parse_discovery(&advertisement("multi_ack allow-tip-sha1-in-want side-band")).unwrap();
    assert_eq!(refs.len(), 3);
    assert_eq!(refs[0].hash, H1.as_bytes().to_vec());
    assert_eq!(refs[0].name, b"HEAD".to_vec());
    assert_eq!(refs[1].name, b"refs/heads/master".to_vec());
    assert_eq!(refs[2].hash, H2.as_bytes().to_vec());
    assert_eq!(refs[2].name, b"refs/tags/v1".to_vec());
    assert_eq!(caps, b"multi_ack allow-tip-sha1-in-want side-band".to_vec());
    assert!(parse_discovery(&advertisement("allow-reachable-sha1-in-want")).is_ok());
}

#[test]
fn discovery_without_fetch_capability_is_unsupported() {
    assert_eq!(parse_discovery(&advertisement("multi_ack side-band")).unwrap_err(), GitError::UnsupportedServer);
    let no_caps = format!("{}0000{}0000", pkt("# service=git-upload-pack\n"), pkt(&format!("{H1} HEAD\n")));
    assert_eq!(parse_discovery(no_caps.as_bytes()).unwrap_err(), GitError::UnsupportedServer);
    let no_refs = format!("{}00000000", pkt("# service=git-upload-pack\n"));
    assert_eq!(parse_discovery(no_refs.as_bytes()).unwrap_err(), GitError::UnsupportedServer);
}

#[test]
fn discovery_checks_framing() {
    let wrong_service = format!("{}0000", pkt("# service=git-receive-pack\n"));
    assert_eq!(parse_discovery(wrong_service.as_bytes()).unwrap_err(), GitError::UnsupportedServer);
    let mut unterminated = advertisement("allow-tip-sha1-in-want");
    unterminated.truncate(unterminated.len() - 4);
    assert_eq!(parse_discovery(&unterminated).unwrap_err(), GitError::Corrupt);
    let bad_line = format!("{}0000{}0000", pkt("# service=git-upload-pack\n"), pkt("nothash HEAD\0allow-tip-sha1-in-want\n"));
    assert_eq!(parse_discovery(bad_line.as_bytes()).unwrap_err(), GitError::Corrupt);
}

#[test]
fn discovery_response_status_and_type() {
    assert!(check_discovery_response(200, None).is_ok());
    assert!(check_discovery_response(304, Some(b"application/x-git-upload-pack-advertisement")).is_ok());
    assert_eq!(check_discovery_response(404, None).unwrap_err(), GitError::UnsupportedServer);
    assert_eq!(check_discovery_response(200, Some(b"text/html")).unwrap_err(), GitError::UnsupportedServer);
}

#[test]
fn fetch_request_wants_each_reference() {
    let refs = vec![
        Reference { hash: H1.as_bytes().to_vec(), name: b"HEAD".to_vec() },
        Reference { hash: H2.as_bytes().to_vec(), name: b"refs/tags/v1".to_vec() },
    ];
    let body = String::from_utf8(fetch_request(&refs)).unwrap();
    let expected = format!("003cwant {H1} multi_ack\n0032want {H2}\n00000009done\n");
    assert_eq!(body, expected);
    assert_eq!(String::from_utf8(fetch_request(&[])).unwrap(), "00000009done\n");
}

#[test]
fn fetch_response_skips_acknowledgement() {
    assert_eq!(pack_from_response(b"0008NAK\nPACK").unwrap(), b"PACK".to_vec());
    assert_eq!(pack_from_response(b"0008NAK").unwrap_err(), GitError::UnsupportedServer);
}

#[test]
fn references_are_stored_with_symbolic_head() {
    let (refs, _) = parse_discovery(&advertisement("allow-tip-sha1-in-want")).unwrap();
    let (files, head) = store_references(&refs).unwrap();
    assert_eq!(files.len(), 2);
    assert_eq!(files[0].path, b"refs/heads/master".to_vec());
    assert_eq!(files[0].content, format!("{H1}\n").into_bytes());
    assert_eq!(files[1].path, b"refs/tags/v1".to_vec());
    assert_eq!(head, b"ref: refs/heads/master\n".to_vec());
    let only = vec![Reference { hash: H2.as_bytes().to_vec(), name: b"HEAD".to_vec() }];
    let (files, head) = store_references(&only).unwrap();
    assert!(files.is_empty());
    assert_eq!(head, format!("{H2}\n").into_bytes());
    assert_eq!(store_references(&[]).unwrap_err(), GitError::NotFound);
}

#[test]
fn head_and_ref_file_contents() {
    assert_eq!(initial_head(), b"ref: refs/heads/master\n".to_vec());
    assert_eq!(ref_file_content(&[0xab, 0x01]), b"ab01\n".to_vec());
    assert_eq!(current_branch_path(), b"refs/heads/master".to_vec());
}

#[test]
fn want_request_only_for_capable_servers() {
    assert_eq!(want_request(&advertisement("multi_ack")).unwrap_err(), GitError::UnsupportedServer);
    let (refs, request) = want_request(&advertisement("allow-reachable-sha1-in-want")).unwrap();
    assert_eq!(refs.len(), 3);
    assert_eq!(request, fetch_request(&refs));
    let expected = format!("003cwant {H1} multi_ack\n0032want {H1}\n0032want {H2}\n00000009done\n");
    assert_eq!(String::from_utf8(request).unwrap(), expected);
}

#[test]
fn head_follows_last_reference_with_head_hash() {
    let refs = vec![
        Reference { hash: H1.as_bytes().to_vec(), name: b"HEAD".to_vec() },
        Reference { hash: H1.as_bytes().to_vec(), name: b"refs/heads/main".to_vec() },
        Reference { hash: H2.as_bytes().to_vec(), name: b"refs/heads/other".to_vec() },
        Reference { hash: H1.as_bytes().to_vec(), name: b"refs/heads/master".to_vec() },
    ];
    let (files, head) = store_references(&refs).unwrap();
    assert_eq!(files.len(), 3);
    assert_eq!(head, b"ref: refs/heads/master\n".to_vec());
}
