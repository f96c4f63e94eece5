use certified_assets::hashes::sha256;
use certified_assets::codec::encode_witness;
use certified_assets::tree::{reconstruct_hash, HashTreeMap, WitnessNode};

use ic_certified_map::AsHashTree;

fn h(data: &[u8]) -> Vec<u8> {
    sha256(data)
}

fn hex(bytes: &[u8]) -> String {
    let mut s = String::new();
    for b in bytes {
        s.push_str(&format!("{:02x}", b));
    }
    s
}

#[test]
fn empty_tree_root_is_the_empty_sentinel() {
    let t = HashTreeMap::new();
    assert_eq!(
        hex(&t.root_hash()),
        "4e3ed35c4e2d1ee89996483fb6260a64cffb6c47dbab216e7930e82f8190d120"
    );
}

#[test]
fn known_digest_of_summary_text() {
    assert_eq!(
        hex(&h(b"Total NFTs: 0")),
        "83d0f670865c367ce95f595959abec46ed7b64033ecee9ed772e78793f3bc10f"
    );
}

#[test]
fn single_entry_root_matches_reference_value() {
    let mut t = HashTreeMap::new();
    t.put(b"/".to_vec(), h(b"Total NFTs: 0"));
    assert_eq!(
        hex(&t.root_hash()),
        "59a415cb66ac0476fb69a192081e2c5256bc55f011ec7dc611b72c754492f219"
    );
}

#[test]
fn root_is_independent_of_insertion_order() {
    let pairs: Vec<(Vec<u8>, Vec<u8>)> = vec![
        (b"/".to_vec(), h(b"summary")),
        (b"/1".to_vec(), h(b"one")),
        (b"/1/0".to_vec(), h(b"one-zero")),
        (b"/10".to_vec(), h(b"ten")),
        (b"/2".to_vec(), h(b"two")),
    ];
    let mut forward = HashTreeMap::new();
    for (p, v) in pairs.iter() {
        forward.put(p.clone(), v.clone());
    }
    let mut backward = HashTreeMap::new();
    for (p, v) in pairs.iter().rev() {
        backward.put(p.clone(), v.clone());
    }
    let mut noisy = HashTreeMap::new();
    for (p, _) in pairs.iter() {
        noisy.put(p.clone(), h(b"stale"));
    }
    for (p, v) in pairs.iter().rev() {
        noisy.put(p.clone(), v.clone());
        noisy.put(p.clone(), v.clone());
    }
    assert_eq!(forward.root_hash(), backward.root_hash());
    assert_eq!(forward.root_hash(), noisy.root_hash());
}

#[test]
fn overwriting_changes_the_root_and_putting_the_same_does_not() {
    let mut t = HashTreeMap::new();
    t.put(b"/1".to_vec(), h(b"aaa"));
    let r1 = t.root_hash();
    t.put(b"/1".to_vec(), h(b"aaa"));
    assert_eq!(t.root_hash(), r1);
    t.put(b"/1".to_vec(), h(b"bbb"));
    assert_ne!(t.root_hash(), r1);
}

#[test]
fn witness_reconstructs_root_for_present_paths() {
    let mut t = HashTreeMap::new();
    for (p, v) in [
        (&b"/"[..], &b"s"[..]),
        (b"/3", b"three"),
        (b"/3/0", b"p0"),
        (b"/3/1", b"p1"),
        (b"/7", b"seven"),
    ] {
        t.put(p.to_vec(), h(v));
    }
    let root = t.root_hash();
    for path in [&b"/"[..], b"/3", b"/3/0", b"/3/1", b"/7"] {
        let w = t.witness(path);
        assert_eq!(reconstruct_hash(&w), root);
    }
}

#[test]
fn witness_reconstructs_root_for_absent_paths() {
    let mut t = HashTreeMap::new();
    t.put(b"/1".to_vec(), h(b"one"));
    t.put(b"/5".to_vec(), h(b"five"));
    t.put(b"/9".to_vec(), h(b"nine"));
    let root = t.root_hash();
    for path in [&b"/0"[..], b"/4", b"/99", b""] {
        let w = t.witness(path);
        assert_eq!(reconstruct_hash(&w), root);
    }
}

#[test]
fn tampered_witness_value_breaks_reconstruction() {
    let mut t = HashTreeMap::new();
    t.put(b"/1".to_vec(), h(b"one"));
    let root = t.root_hash();
    let w = t.witness(b"/1");
    // Substitute a fabricated hash for the revealed leaf.
    let tampered = match w {
        WitnessNode::Labeled(lab, _) => {
            WitnessNode::Labeled(lab, Box::new(WitnessNode::Leaf(h(b"forged"))))
        }
        other => other,
    };
    assert_ne!(reconstruct_hash(&tampered), root);
}

#[test]
fn single_and_double_entry_roots_match_the_reference_map() {
    let v1: [u8; 32] = h(b"one").try_into().unwrap();
    let v2: [u8; 32] = h(b"two").try_into().unwrap();

    let mut mine = HashTreeMap::new();
    mine.put(b"/a".to_vec(), v1.to_vec());
    let mut reference: ic_certified_map::RbTree<String, ic_certified_map::Hash> =
        ic_certified_map::RbTree::new();
    reference.insert("/a".to_string(), v1);
    assert_eq!(mine.root_hash().as_slice(), &reference.root_hash()[..]);

    mine.put(b"/b".to_vec(), v2.to_vec());
    reference.insert("/b".to_string(), v2);
    assert_eq!(mine.root_hash().as_slice(), &reference.root_hash()[..]);
}

#[test]
fn commitment_label_matches_the_reference_map() {
    let mut t = HashTreeMap::new();
    t.put(b"/".to_vec(), h(b"Total NFTs: 0"));
    let root: [u8; 32] = t.root_hash().try_into().unwrap();
    let expected = ic_certified_map::labeled_hash(b"http_assets", &root);
    assert_eq!(
        hex(&expected),
        "d7decffb973ea9cb27a63b180d68d301dcb77b9e93f0d40982cab743fc74a4cf"
    );
}

#[test]
fn removing_the_last_entry_restores_the_sentinel_state() {
    let mut t = HashTreeMap::new();
    let empty_root = t.root_hash();
    t.put(b"/1".to_vec(), h(b"one"));
    assert_ne!(t.root_hash(), empty_root);
    certified_assets::tree::remove_path(&mut t, b"/1");
    assert_eq!(t.root_hash(), empty_root);
    assert_eq!(
        hex(&t.root_hash()),
        "4e3ed35c4e2d1ee89996483fb6260a64cffb6c47dbab216e7930e82f8190d120"
    );
}

#[test]
fn removing_one_of_several_entries_leaves_the_rest_committed() {
    let mut t = HashTreeMap::new();
    t.put(b"/1".to_vec(), h(b"one"));
    let with_one = t.root_hash();
    t.put(b"/2".to_vec(), h(b"two"));
    certified_assets::tree::remove_path(&mut t, b"/2");
    assert_eq!(t.root_hash(), with_one);
    certified_assets::tree::remove_path(&mut t, b"/absent");
    assert_eq!(t.root_hash(), with_one);
}

#[test]
fn witnesses_are_byte_identical_across_histories() {
    let mut a = HashTreeMap::new();
    a.put(b"/1".to_vec(), h(b"one"));
    a.put(b"/5".to_vec(), h(b"five"));
    a.put(b"/9".to_vec(), h(b"nine"));
    let mut b = HashTreeMap::new();
    b.put(b"/9".to_vec(), h(b"stale"));
    b.put(b"/5".to_vec(), h(b"five"));
    b.put(b"/1".to_vec(), h(b"one"));
    b.put(b"/9".to_vec(), h(b"nine"));
    for path in [&b"/1"[..], b"/5", b"/9", b"/4", b""] {
        let wa = encode_witness(&a.witness(path));
        let wb = encode_witness(&b.witness(path));
        assert_eq!(wa, wb);
    }
}

#[test]
fn witness_reveals_no_binding_for_other_paths() {
    let mut t = HashTreeMap::new();
    t.put(b"/1".to_vec(), h(b"one"));
    t.put(b"/5".to_vec(), h(b"five"));
    t.put(b"/9".to_vec(), h(b"nine"));
    let w = t.witness(b"/5");
    // The hash bound to a neighbouring path never appears as a leaf:
    // only the queried path's own value is revealed.
    let mut vs = Vec::new();
    leaves(&w, &mut vs);
    assert_eq!(vs, vec![h(b"five")]);
}

fn leaves(w: &WitnessNode, out: &mut Vec<Vec<u8>>) {
    match w {
        WitnessNode::Fork(l, r) => {
            leaves(l, out);
            leaves(r, out);
        }
        WitnessNode::Labeled(_, t) => leaves(t, out),
        WitnessNode::Leaf(v) => out.push(v.clone()),
        _ => {}
    }
}
