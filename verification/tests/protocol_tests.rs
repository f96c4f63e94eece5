use certified_assets::hashes::sha256;
use certified_assets::protocol::{add_hash, http_request};
use certified_assets::resolver::{
    MetadataEntry, MetadataPart, MetadataPurpose, MetadataVal, Nft, Registry,
};
use certified_assets::tree::{reconstruct_hash, HashTreeMap};

fn part(purpose: MetadataPurpose, data: &[u8], content_type: Option<&[u8]>) -> MetadataPart {
    let mut key_val_data = Vec::new();
    if let Some(ct) = content_type {
        key_val_data.push(MetadataEntry {
            key: b"contentType".to_vec(),
            val: MetadataVal::TextContent(ct.to_vec()),
        });
    }
    MetadataPart { purpose, key_val_data, data: data.to_vec() }
}

fn sample_registry() -> Registry {
    Registry {
        nfts: vec![Nft {
            id: 7,
            metadata: vec![
                part(MetadataPurpose::Rendered, b"rendered-bytes", Some(b"image/png")),
                part(MetadataPurpose::Preview, b"preview-bytes", None),
            ],
        }],
    }
}

fn header<'a>(resp: &'a certified_assets::protocol::HttpResponse, name: &[u8]) -> Option<&'a [u8]> {
    resp.headers
        .iter()
        .find(|(n, _)| n.as_slice() == name)
        .map(|(_, v)| v.as_slice())
}

#[test]
fn certification_header_has_the_exact_fixed_shape_for_an_empty_tree() {
    let reg = Registry { nfts: vec![] };
    let tree = HashTreeMap::new();
    let cert = b"cert".to_vec();
    let resp = http_request(&reg, &tree, Some(&cert), b"/", false);
    let v = header(&resp, b"IC-Certificate").expect("certification header");
    assert_eq!(
        v,
        b"certificate=:Y2VydA==:, tree=:2dn3gwJLaHR0cF9hc3NldHOBAA==:".as_slice()
    );
}

#[test]
fn certification_header_embeds_the_labeled_witness() {
    let reg = Registry { nfts: vec![] };
    let mut tree = HashTreeMap::new();
    tree.put(b"/".to_vec(), sha256(b"Total NFTs: 0"));
    let cert = b"cert".to_vec();
    let resp = http_request(&reg, &tree, Some(&cert), b"/", false);
    let v = header(&resp, b"IC-Certificate").expect("certification header");
    assert_eq!(
        v,
        b"certificate=:Y2VydA==:, tree=:2dn3gwJLaHR0cF9hc3NldHODAkEvggNYIIPQ9nCGXDZ86V9ZWVmr7Ebte2QDPs7p7XcueHk/O8EP:"
            .as_slice()
    );
}

#[test]
fn certification_header_shape_round_trips_for_any_tree() {
    let reg = sample_registry();
    let mut tree = HashTreeMap::new();
    let commitment = add_hash(&reg, &mut tree, 7);
    assert_eq!(commitment.len(), 32);
    let cert = b"some opaque certificate blob".to_vec();
    let resp = http_request(&reg, &tree, Some(&cert), b"/7/0", false);
    let v = header(&resp, b"IC-Certificate").expect("certification header");
    let text = String::from_utf8(v.to_vec()).expect("ascii header");
    assert!(text.starts_with("certificate=:"));
    assert!(text.ends_with(":"));
    let rest = &text["certificate=:".len()..text.len() - 1];
    let mut halves = rest.split(":, tree=:");
    let cert_b64 = halves.next().expect("certificate piece");
    let tree_b64 = halves.next().expect("tree piece");
    assert!(halves.next().is_none());
    let cert_bytes = base64::decode(cert_b64).expect("certificate base64");
    assert_eq!(cert_bytes, cert);
    let tree_bytes = base64::decode(tree_b64).expect("tree base64");
    assert_eq!(&tree_bytes[..3], &[0xd9, 0xd9, 0xf7]);
    // Past the self-describe tag, the wire bytes are one well-formed
    // item in the standard concise binary form.
    let value: serde_cbor::Value = serde_cbor::from_slice(&tree_bytes[3..]).expect("cbor");
    match value {
        serde_cbor::Value::Array(items) => {
            assert_eq!(items[0], serde_cbor::Value::Integer(2));
        }
        other => panic!("expected array, got {:?}", other),
    }
}

#[test]
fn certified_read_witness_matches_the_published_root() {
    let reg = sample_registry();
    let mut tree = HashTreeMap::new();
    let commitment = add_hash(&reg, &mut tree, 7);
    let root: [u8; 32] = tree.root_hash().try_into().unwrap();
    assert_eq!(
        commitment.as_slice(),
        &ic_certified_map::labeled_hash(b"http_assets", &root)[..]
    );
    for path in [&b"/"[..], b"/7", b"/7/0", b"/7/1", b"/other"] {
        let w = tree.witness(path);
        assert_eq!(reconstruct_hash(&w), tree.root_hash());
    }
}

#[test]
fn add_hash_binds_each_part_and_the_default_alias() {
    let reg = sample_registry();
    let mut tree = HashTreeMap::new();
    add_hash(&reg, &mut tree, 7);
    let resp = http_request(&reg, &tree, None, b"/7", false);
    assert_eq!(resp.status_code, 200);
    assert_eq!(resp.body, b"rendered-bytes".to_vec());
    // The alias entry must carry the hash of the body actually served.
    let entry = tree
        .entries
        .iter()
        .find(|e| e.path == b"/7".to_vec())
        .expect("alias entry");
    assert_eq!(entry.hash, sha256(b"rendered-bytes"));
    let part_entry = tree
        .entries
        .iter()
        .find(|e| e.path == b"/7/1".to_vec())
        .expect("part entry");
    assert_eq!(part_entry.hash, sha256(b"preview-bytes"));
}

#[test]
fn republishing_the_same_commitment_changes_nothing_observable() {
    let reg = sample_registry();
    let mut tree = HashTreeMap::new();
    let first = add_hash(&reg, &mut tree, 7);
    let root_first = tree.root_hash();
    let cert = b"cert".to_vec();
    let resp_first = http_request(&reg, &tree, Some(&cert), b"/7", true);
    let second = add_hash(&reg, &mut tree, 7);
    let resp_second = http_request(&reg, &tree, Some(&cert), b"/7", true);
    assert_eq!(first, second);
    assert_eq!(root_first, tree.root_hash());
    assert_eq!(resp_first.status_code, resp_second.status_code);
    assert_eq!(resp_first.headers, resp_second.headers);
    assert_eq!(resp_first.body, resp_second.body);
}

#[test]
fn query_string_is_ignored() {
    let reg = sample_registry();
    let tree = HashTreeMap::new();
    let resp = http_request(&reg, &tree, None, b"/7?canisterId=abc", false);
    assert_eq!(resp.status_code, 200);
    assert_eq!(resp.body, b"rendered-bytes".to_vec());
}

#[test]
fn missing_certificate_omits_the_certification_header() {
    let reg = sample_registry();
    let tree = HashTreeMap::new();
    let resp = http_request(&reg, &tree, None, b"/7", false);
    assert!(header(&resp, b"IC-Certificate").is_none());
    assert_eq!(
        header(&resp, b"Content-Security-Policy").expect("policy header"),
        b"default-src 'self'; script-src 'none'; frame-src 'none'; object-src 'none'".as_slice()
    );
    assert_eq!(
        header(&resp, b"Content-Type").expect("content type"),
        b"image/png".as_slice()
    );
}

#[test]
fn production_mode_adds_transport_security() {
    let reg = Registry { nfts: vec![] };
    let tree = HashTreeMap::new();
    let resp = http_request(&reg, &tree, None, b"/", true);
    assert_eq!(
        header(&resp, b"Strict-Transport-Security").expect("sts header"),
        b"max-age=31536000; includeSubDomains".as_slice()
    );
    let dev = http_request(&reg, &tree, None, b"/", false);
    assert!(header(&dev, b"Strict-Transport-Security").is_none());
}

#[test]
fn error_responses_carry_the_same_security_headers() {
    let reg = sample_registry();
    let tree = HashTreeMap::new();
    let resp = http_request(&reg, &tree, None, b"/99", false);
    assert_eq!(resp.status_code, 404);
    assert_eq!(resp.body, b"No such NFT".to_vec());
    assert!(header(&resp, b"Content-Security-Policy").is_some());
}
