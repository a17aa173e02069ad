use bytes::Bytes;
use git_transport::pkt_line::PktLineError;
use git_transport::smart_http::{
    ends_with_slash, parse_capabilities, parse_reference_line, parse_references,
    DiscoveredReference, HttpsClient, ProtocolError, ADVERTISEMENT_CONTENT_TYPE, CAPABILITIES,
    REQUEST_CONTENT_TYPE,
};

const SHA1: &str = "1111111111111111111111111111111111111111";
const SHA2: &str = "2222222222222222222222222222222222222222";

fn pkt(payload: &str) -> String {
    format!("{:04x}{}", payload.len() + 4, payload)
}

fn client() -> HttpsClient {
    HttpsClient::from_url("https://example.com/repo.git/").unwrap()
}

fn reference(hash: &str, name: &str) -> DiscoveredReference {
    DiscoveredReference { hash: hash.to_string(), _ref: name.to_string() }
}

fn advertisement() -> String {
    let mut body = pkt("# service=git-upload-pack\n");
    body.push_str("0000");
    body.push_str(&pkt(&format!("{} HEAD\0multi_ack thin-pack side-band\n", SHA1)));
    body.push_str(&pkt(&format!("{} refs/heads/main\n", SHA2)));
    body.push_str("0000");
    body
}

#[test]
fn discovery_of_two_refs() {
    let refs = client()
        .discovery_reference(200, ADVERTISEMENT_CONTENT_TYPE, Bytes::from(advertisement()))
        .unwrap();
    assert_eq!(refs, vec![reference(SHA1, "HEAD"), reference(SHA2, "refs/heads/main")]);
}

#[test]
fn reference_section_of_two_refs() {
    let mut body = pkt(&format!("{} HEAD\0caps\n", SHA1));
    body.push_str(&pkt(&format!("{} refs/heads/main\n", SHA2)));
    body.push_str("0000");
    let refs = parse_references(Bytes::from(body)).unwrap();
    assert_eq!(refs, vec![reference(SHA1, "HEAD"), reference(SHA2, "refs/heads/main")]);
}

#[test]
fn discovery_accepts_status_304() {
    let refs = client()
        .discovery_reference(304, ADVERTISEMENT_CONTENT_TYPE, Bytes::from(advertisement()))
        .unwrap();
    assert_eq!(refs.len(), 2);
}

#[test]
fn discovery_rejects_other_content_type_even_with_status_200() {
    let c = client();
    for content_type in [
        "text/plain",
        "",
        "application/x-git-upload-pack-advertisement; charset=utf-8",
        "application/x-git-upload-pack-result",
        "Application/x-git-upload-pack-advertisement",
    ] {
        assert_eq!(
            c.discovery_reference(200, content_type, Bytes::from(advertisement())),
            Err(ProtocolError::ContentType)
        );
    }
}

#[test]
fn discovery_checks_content_type_before_status() {
    assert_eq!(
        client().discovery_reference(500, "text/html", Bytes::new()),
        Err(ProtocolError::ContentType)
    );
}

#[test]
fn discovery_rejects_other_status() {
    for status in [201u16, 301, 404, 500] {
        assert_eq!(
            client().discovery_reference(
                status,
                ADVERTISEMENT_CONTENT_TYPE,
                Bytes::from(advertisement())
            ),
            Err(ProtocolError::Status(status))
        );
    }
}

#[test]
fn discovery_rejects_missing_service_announcement() {
    let body = pkt(&format!("{} HEAD\0caps\n", SHA1));
    assert_eq!(
        client().discovery_reference(200, ADVERTISEMENT_CONTENT_TYPE, Bytes::from(body)),
        Err(ProtocolError::ServiceAnnouncement)
    );
    assert_eq!(
        client().discovery_reference(200, ADVERTISEMENT_CONTENT_TYPE, Bytes::new()),
        Err(ProtocolError::ServiceAnnouncement)
    );
}

#[test]
fn discovery_of_empty_advertisement_is_empty() {
    let mut body = pkt("# service=git-upload-pack\n");
    body.push_str("0000");
    let refs = client()
        .discovery_reference(200, ADVERTISEMENT_CONTENT_TYPE, Bytes::from(body))
        .unwrap();
    assert!(refs.is_empty());
}

#[test]
fn reference_list_ends_at_flush_after_first_ref() {
    let mut body = pkt(&format!("{} HEAD\0caps\n", SHA1));
    body.push_str("0000");
    body.push_str(&pkt(&format!("{} refs/heads/ignored\n", SHA2)));
    let refs = parse_references(Bytes::from(body)).unwrap();
    assert_eq!(refs, vec![reference(SHA1, "HEAD")]);
}

#[test]
fn malformed_reference_lines_fail_the_whole_list() {
    let mut body = pkt(&format!("{} HEAD\0caps\n", SHA1));
    body.push_str(&pkt("short\n"));
    assert_eq!(parse_references(Bytes::from(body)), Err(ProtocolError::ReferenceLine));

    let body = pkt(&format!("{} refs/heads/main\n", SHA1));
    assert_eq!(parse_references(Bytes::from(body)), Err(ProtocolError::Capabilities));

    let mut body = pkt(&format!("{} HEAD\0caps\n", SHA1));
    body.push_str("00zz");
    assert_eq!(
        parse_references(Bytes::from(body)),
        Err(ProtocolError::PktLine(PktLineError::InvalidLength))
    );
}

#[test]
fn reference_line_trims_unicode_white_space() {
    let line = format!("{}\u{a0} refs/tags/v1 \u{3000}\r\n", SHA1);
    let r = parse_reference_line(&Bytes::from(line), false).unwrap();
    assert_eq!(r, reference(SHA1, "refs/tags/v1"));
}

#[test]
fn reference_line_must_be_utf8_and_split_on_a_character() {
    let mut raw = SHA1.as_bytes().to_vec();
    raw.push(0xff);
    assert_eq!(parse_reference_line(&Bytes::from(raw), false), Err(ProtocolError::ReferenceLine));
    let line = format!("{}\u{e9} x\n", &SHA1[..39]);
    assert_eq!(parse_reference_line(&Bytes::from(line), false), Err(ProtocolError::ReferenceLine));
}

#[test]
fn fetch_request_for_two_wants() {
    let want = vec![SHA1.to_string(), SHA2.to_string()];
    let body = client().fetch_objects(&vec![], &want).unwrap();
    let mut expected = pkt(&format!("want {}\0{}\n", SHA1, CAPABILITIES));
    expected.push_str(&pkt(&format!("want {}\n", SHA2)));
    expected.push_str("0000");
    expected.push_str("0009done\n");
    assert_eq!(&body[..], expected.as_bytes());
    assert!(body.starts_with(
        b"0079want 1111111111111111111111111111111111111111\0multi_ack_detailed side-band-64k thin-pack ofs-delta agent=libra/0.1.0\n0032want 2222222222222222222222222222222222222222\n"
    ));
}

#[test]
fn fetch_request_with_haves() {
    let want = vec![SHA1.to_string()];
    let have = vec![SHA2.to_string()];
    let body = client().fetch_objects(&have, &want).unwrap();
    let mut expected = pkt(&format!("want {}\0{}\n", SHA1, CAPABILITIES));
    expected.push_str(&pkt(&format!("have {}\n", SHA2)));
    expected.push_str("00000009done\n");
    assert_eq!(&body[..], expected.as_bytes());
}

#[test]
fn fetch_request_without_wants_is_flush_and_done() {
    let body = client().fetch_objects(&vec![], &vec![]).unwrap();
    assert_eq!(&body[..], b"00000009done\n");
}

#[test]
fn fetch_request_rejects_oversized_line() {
    let want = vec!["a".repeat(70000)];
    assert_eq!(
        client().fetch_objects(&vec![], &want),
        Err(ProtocolError::PktLine(PktLineError::LineTooLong))
    );
}

#[test]
fn fetch_status_must_be_200_or_304() {
    let c = client();
    assert_eq!(c.check_fetch_status(200), Ok(()));
    assert_eq!(c.check_fetch_status(304), Ok(()));
    assert_eq!(c.check_fetch_status(403), Err(ProtocolError::Status(403)));
}

#[test]
fn client_url_gets_a_trailing_slash() {
    let c = HttpsClient::from_url("https://example.com/owner/repo.git").unwrap();
    assert_eq!(c.url(), "https://example.com/owner/repo.git/");
    let c = HttpsClient::from_url("https://example.com/owner/repo.git/").unwrap();
    assert_eq!(c.url(), "https://example.com/owner/repo.git/");
    let c = HttpsClient::from_url("https://example.com/a?x=1").unwrap();
    assert_eq!(c.url(), "https://example.com/a/?x=1");
    let c = HttpsClient::from_url("https://example.com/dir/?q=repo").unwrap();
    assert_eq!(c.url(), "https://example.com/dir/?q=repo");
    let c = HttpsClient::from_url("https://example.com").unwrap();
    assert_eq!(c.url(), "https://example.com/");
    assert_eq!(c.discovery_url().unwrap(), "https://example.com/info/refs?service=git-upload-pack");
    assert!(HttpsClient::from_url("not a url").is_none());
}

#[test]
fn service_urls_are_joined_to_the_repository() {
    let c = HttpsClient::from_url("https://example.com/owner/repo.git").unwrap();
    assert_eq!(
        c.discovery_url().unwrap(),
        "https://example.com/owner/repo.git/info/refs?service=git-upload-pack"
    );
    assert_eq!(c.upload_pack_url().unwrap(), "https://example.com/owner/repo.git/git-upload-pack");
}

#[test]
fn capabilities_of_the_first_reference_are_set_apart_by_spaces() {
    let line = format!("{} HEAD\0multi_ack thin-pack  agent=git/2.40\n", SHA1);
    let caps = parse_capabilities(&Bytes::from(line)).unwrap();
    assert_eq!(caps, vec!["multi_ack", "thin-pack", "", "agent=git/2.40"]);
    let line = format!("{} HEAD\0\n", SHA1);
    assert_eq!(parse_capabilities(&Bytes::from(line)).unwrap(), vec![""]);
    let line = format!("{} HEAD\0one", SHA1);
    assert_eq!(parse_capabilities(&Bytes::from(line)).unwrap(), vec!["one"]);
}

#[test]
fn capabilities_need_head_and_nul() {
    let line = format!("{} refs/heads/main\n", SHA1);
    assert_eq!(parse_capabilities(&Bytes::from(line)), Err(ProtocolError::Capabilities));
    let line = format!("{} HEAD caps\n", SHA1);
    assert_eq!(parse_capabilities(&Bytes::from(line)), Err(ProtocolError::Capabilities));
    assert_eq!(parse_capabilities(&Bytes::from("short")), Err(ProtocolError::ReferenceLine));
}

#[test]
fn discovery_head_is_judged_before_the_body_is_read() {
    let c = client();
    assert_eq!(c.check_discovery_head(200, ADVERTISEMENT_CONTENT_TYPE), Ok(()));
    assert_eq!(c.check_discovery_head(304, ADVERTISEMENT_CONTENT_TYPE), Ok(()));
    assert_eq!(
        c.check_discovery_head(404, ADVERTISEMENT_CONTENT_TYPE),
        Err(ProtocolError::Status(404))
    );
    assert_eq!(c.check_discovery_head(200, REQUEST_CONTENT_TYPE), Err(ProtocolError::ContentType));
}

#[test]
fn paths_end_with_a_slash_or_not() {
    assert!(ends_with_slash("/"));
    assert!(ends_with_slash("/a/b/"));
    assert!(!ends_with_slash("/a/b"));
    assert!(!ends_with_slash(""));
}

#[test]
fn client_holds_the_url_as_it_is_written_out() {
    let c = HttpsClient::from_url("HTTPS://Example.COM:443/Owner/Repo.git/").unwrap();
    assert_eq!(c.url(), "https://example.com/Owner/Repo.git/");
    let c = HttpsClient::from_url("https://us er@example.com/a b").unwrap();
    assert_eq!(c.url(), "https://us%20er@example.com/a%20b/");
    let c = HttpsClient::from_url("https://b\u{fc}cher.example/x/").unwrap();
    assert_eq!(c.url(), "https://xn--bcher-kva.example/x/");
    assert_eq!(
        c.upload_pack_url().unwrap(),
        "https://xn--bcher-kva.example/x/git-upload-pack"
    );
}

#[test]
fn host_may_grow_manyfold_when_written_out() {
    let typed = "https://\u{337f}/";
    let c = HttpsClient::from_url(typed).unwrap();
    assert!(c.url().is_ascii());
    assert!(c.url().len() - "https:///".len() > 3 * "\u{337f}".len());
}
