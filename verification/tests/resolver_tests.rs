use certified_assets::protocol::resolve;
use certified_assets::resolver::{
    default_part, MetadataEntry, MetadataPart, MetadataPurpose, MetadataVal, Nft, Registry,
};

fn part(purpose: MetadataPurpose, data: &[u8], content_type: Option<&[u8]>) -> MetadataPart {
    let mut key_val_data = Vec::new();
    if let Some(ct) = content_type {
        key_val_data.push(MetadataEntry {
            key: b"contentType".to_vec(),
            val: MetadataVal::TextContent(ct.to_vec()),
        });
    }
    MetadataPart { purpose, key_val_data, data: data.to_vec() }
}

fn registry_with_item_seven() -> Registry {
    Registry {
        nfts: vec![Nft {
            id: 7,
            metadata: vec![
                part(MetadataPurpose::Rendered, b"rendered-bytes", Some(b"image/png")),
                part(MetadataPurpose::Preview, b"preview-bytes", None),
            ],
        }],
    }
}

#[test]
fn item_default_serves_the_rendered_part() {
    let reg = registry_with_item_seven();
    let r = resolve(&reg, b"/7");
    assert_eq!(r.status_code, 200);
    assert_eq!(r.body, b"rendered-bytes".to_vec());
    assert_eq!(r.content_type, Some(b"image/png".to_vec()));
}

#[test]
fn part_index_serves_that_part() {
    let reg = registry_with_item_seven();
    let r = resolve(&reg, b"/7/1");
    assert_eq!(r.status_code, 200);
    assert_eq!(r.body, b"preview-bytes".to_vec());
    assert_eq!(r.content_type, None);
}

#[test]
fn missing_part_is_not_found() {
    let reg = registry_with_item_seven();
    let r = resolve(&reg, b"/7/2");
    assert_eq!(r.status_code, 404);
    assert_eq!(r.body, b"No such metadata part".to_vec());
}

#[test]
fn unknown_item_is_not_found() {
    let reg = registry_with_item_seven();
    let r = resolve(&reg, b"/99");
    assert_eq!(r.status_code, 404);
    assert_eq!(r.body, b"No such NFT".to_vec());
}

#[test]
fn non_numeric_item_id_is_rejected() {
    let reg = registry_with_item_seven();
    let r = resolve(&reg, b"/abc");
    assert_eq!(r.status_code, 400);
    assert_eq!(r.body, b"Invalid NFT ID abc".to_vec());
}

#[test]
fn non_numeric_part_index_is_rejected() {
    let reg = registry_with_item_seven();
    let r = resolve(&reg, b"/7/x");
    assert_eq!(r.status_code, 400);
    assert_eq!(r.body, b"Invalid metadata ID x".to_vec());
}

#[test]
fn summary_counts_three_items() {
    let reg = Registry {
        nfts: vec![
            Nft { id: 0, metadata: vec![] },
            Nft { id: 1, metadata: vec![] },
            Nft { id: 2, metadata: vec![] },
        ],
    };
    let r = resolve(&reg, b"/");
    assert_eq!(r.status_code, 200);
    assert_eq!(r.body, b"Total NFTs: 3".to_vec());
    assert_eq!(r.content_type, None);
}

#[test]
fn item_without_parts_gets_placeholder() {
    let reg = Registry { nfts: vec![Nft { id: 4, metadata: vec![] }] };
    let r = resolve(&reg, b"/4");
    assert_eq!(r.status_code, 200);
    assert_eq!(r.body, b"No metadata for this NFT".to_vec());
}

#[test]
fn item_without_rendered_part_serves_the_first() {
    let reg = Registry {
        nfts: vec![Nft {
            id: 2,
            metadata: vec![
                part(MetadataPurpose::Preview, b"first", None),
                part(MetadataPurpose::Preview, b"second", None),
            ],
        }],
    };
    let r = resolve(&reg, b"/2");
    assert_eq!(r.status_code, 200);
    assert_eq!(r.body, b"first".to_vec());
}

#[test]
fn percent_encoded_id_is_decoded() {
    let reg = registry_with_item_seven();
    let r = resolve(&reg, b"/%37");
    assert_eq!(r.status_code, 200);
    assert_eq!(r.body, b"rendered-bytes".to_vec());
}

#[test]
fn plus_prefixed_id_parses_like_the_platform_integer_grammar() {
    let reg = registry_with_item_seven();
    let r = resolve(&reg, b"/+7");
    assert_eq!(r.status_code, 200);
    assert_eq!(r.body, b"rendered-bytes".to_vec());
}

#[test]
fn out_of_range_id_is_rejected_as_invalid() {
    let reg = registry_with_item_seven();
    let r = resolve(&reg, b"/99999999999999999999999999");
    assert_eq!(r.status_code, 400);
    assert_eq!(r.body, b"Invalid NFT ID 99999999999999999999999999".to_vec());
}

#[test]
fn adding_non_rendered_part_keeps_the_default() {
    let mut reg = registry_with_item_seven();
    let before = resolve(&reg, b"/7").body;
    reg.nfts[0]
        .metadata
        .push(part(MetadataPurpose::Preview, b"late-addition", None));
    let after = resolve(&reg, b"/7").body;
    assert_eq!(before, after);
}

#[test]
fn adding_rendered_part_to_item_without_one_switches_the_default() {
    let mut reg = Registry {
        nfts: vec![Nft {
            id: 1,
            metadata: vec![
                part(MetadataPurpose::Preview, b"plain-a", None),
                part(MetadataPurpose::Preview, b"plain-b", None),
            ],
        }],
    };
    assert_eq!(resolve(&reg, b"/1").body, b"plain-a".to_vec());
    reg.nfts[0]
        .metadata
        .push(part(MetadataPurpose::Rendered, b"shiny", None));
    assert_eq!(resolve(&reg, b"/1").body, b"shiny".to_vec());
    assert_eq!(default_part(&reg.nfts[0].metadata), Some(2));
}
