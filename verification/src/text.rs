//! The fixed texts of the protocol as byte strings: response bodies and
//! prefixes, header names and values, the domain label of the root
//! commitment, and the pieces of the certification header. Each constant
//! is a spec sequence with a builder that provably produces exactly it.

use vstd::prelude::*;

verus! {

/// `"contentType"`
pub open spec fn txt_content_type_key() -> Seq<u8> {
    seq![99u8, 111u8, 110u8, 116u8, 101u8, 110u8, 116u8, 84u8, 121u8, 112u8, 101u8]
}

pub fn content_type_key_bytes() -> (r: Vec<u8>)
    ensures
        r@ == txt_content_type_key(),
{
    let mut v: Vec<u8> = Vec::new();
    v.push(99);
    v.push(111);
    v.push(110);
    v.push(116);
    v.push(101);
    v.push(110);
    v.push(116);
    v.push(84);
    v.push(121);
    v.push(112);
    v.push(101);
    assert(v@ =~= txt_content_type_key());
    v
}

/// `"Total NFTs: "`
pub open spec fn txt_total_prefix() -> Seq<u8> {
    seq![84u8, 111u8, 116u8, 97u8, 108u8, 32u8, 78u8, 70u8, 84u8, 115u8, 58u8, 32u8]
}

pub fn total_prefix_bytes() -> (r: Vec<u8>)
    ensures
        r@ == txt_total_prefix(),
{
    let mut v: Vec<u8> = Vec::new();
    v.push(84);
    v.push(111);
    v.push(116);
    v.push(97);
    v.push(108);
    v.push(32);
    v.push(78);
    v.push(70);
    v.push(84);
    v.push(115);
    v.push(58);
    v.push(32);
    assert(v@ =~= txt_total_prefix());
    v
}

/// `"No metadata for this NFT"`
pub open spec fn txt_no_metadata() -> Seq<u8> {
    seq![78u8, 111u8, 32u8, 109u8, 101u8, 116u8, 97u8, 100u8, 97u8, 116u8, 97u8, 32u8, 102u8, 111u8, 114u8, 32u8, 116u8, 104u8, 105u8, 115u8, 32u8, 78u8, 70u8, 84u8]
}

pub fn no_metadata_bytes() -> (r: Vec<u8>)
    ensures
        r@ == txt_no_metadata(),
{
    let mut v: Vec<u8> = Vec::new();
    v.push(78);
    v.push(111);
    v.push(32);
    v.push(109);
    v.push(101);
    v.push(116);
    v.push(97);
    v.push(100);
    v.push(97);
    v.push(116);
    v.push(97);
    v.push(32);
    v.push(102);
    v.push(111);
    v.push(114);
    v.push(32);
    v.push(116);
    v.push(104);
    v.push(105);
    v.push(115);
    v.push(32);
    v.push(78);
    v.push(70);
    v.push(84);
    assert(v@ =~= txt_no_metadata());
    v
}

/// `"No such NFT"`
pub open spec fn txt_no_such_nft() -> Seq<u8> {
    seq![78u8, 111u8, 32u8, 115u8, 117u8, 99u8, 104u8, 32u8, 78u8, 70u8, 84u8]
}

pub fn no_such_nft_bytes() -> (r: Vec<u8>)
    ensures
        r@ == txt_no_such_nft(),
{
    let mut v: Vec<u8> = Vec::new();
    v.push(78);
    v.push(111);
    v.push(32);
    v.push(115);
    v.push(117);
    v.push(99);
    v.push(104);
    v.push(32);
    v.push(78);
    v.push(70);
    v.push(84);
    assert(v@ =~= txt_no_such_nft());
    v
}

/// `"No such metadata part"`
pub open spec fn txt_no_such_part() -> Seq<u8> {
    seq![78u8, 111u8, 32u8, 115u8, 117u8, 99u8, 104u8, 32u8, 109u8, 101u8, 116u8, 97u8, 100u8, 97u8, 116u8, 97u8, 32u8, 112u8, 97u8, 114u8, 116u8]
}

pub fn no_such_part_bytes() -> (r: Vec<u8>)
    ensures
        r@ == txt_no_such_part(),
{
    let mut v: Vec<u8> = Vec::new();
    v.push(78);
    v.push(111);
    v.push(32);
    v.push(115);
    v.push(117);
    v.push(99);
    v.push(104);
    v.push(32);
    v.push(109);
    v.push(101);
    v.push(116);
    v.push(97);
    v.push(100);
    v.push(97);
    v.push(116);
    v.push(97);
    v.push(32);
    v.push(112);
    v.push(97);
    v.push(114);
    v.push(116);
    assert(v@ =~= txt_no_such_part());
    v
}

/// `"Invalid NFT ID "`
pub open spec fn txt_invalid_nft_prefix() -> Seq<u8> {
    seq![73u8, 110u8, 118u8, 97u8, 108u8, 105u8, 100u8, 32u8, 78u8, 70u8, 84u8, 32u8, 73u8, 68u8, 32u8]
}

pub fn invalid_nft_prefix_bytes() -> (r: Vec<u8>)
    ensures
        r@ == txt_invalid_nft_prefix(),
{
    let mut v: Vec<u8> = Vec::new();
    v.push(73);
    v.push(110);
    v.push(118);
    v.push(97);
    v.push(108);
    v.push(105);
    v.push(100);
    v.push(32);
    v.push(78);
    v.push(70);
    v.push(84);
    v.push(32);
    v.push(73);
    v.push(68);
    v.push(32);
    assert(v@ =~= txt_invalid_nft_prefix());
    v
}

/// `"Invalid metadata ID "`
pub open spec fn txt_invalid_part_prefix() -> Seq<u8> {
    seq![73u8, 110u8, 118u8, 97u8, 108u8, 105u8, 100u8, 32u8, 109u8, 101u8, 116u8, 97u8, 100u8, 97u8, 116u8, 97u8, 32u8, 73u8, 68u8, 32u8]
}

pub fn invalid_part_prefix_bytes() -> (r: Vec<u8>)
    ensures
        r@ == txt_invalid_part_prefix(),
{
    let mut v: Vec<u8> = Vec::new();
    v.push(73);
    v.push(110);
    v.push(118);
    v.push(97);
    v.push(108);
    v.push(105);
    v.push(100);
    v.push(32);
    v.push(109);
    v.push(101);
    v.push(116);
    v.push(97);
    v.push(100);
    v.push(97);
    v.push(116);
    v.push(97);
    v.push(32);
    v.push(73);
    v.push(68);
    v.push(32);
    assert(v@ =~= txt_invalid_part_prefix());
    v
}

/// `"http_assets"`
pub open spec fn txt_http_assets_label() -> Seq<u8> {
    seq![104u8, 116u8, 116u8, 112u8, 95u8, 97u8, 115u8, 115u8, 101u8, 116u8, 115u8]
}

pub fn http_assets_label_bytes() -> (r: Vec<u8>)
    ensures
        r@ == txt_http_assets_label(),
{
    let mut v: Vec<u8> = Vec::new();
    v.push(104);
    v.push(116);
    v.push(116);
    v.push(112);
    v.push(95);
    v.push(97);
    v.push(115);
    v.push(115);
    v.push(101);
    v.push(116);
    v.push(115);
    assert(v@ =~= txt_http_assets_label());
    v
}

/// `"Content-Security-Policy"`
pub open spec fn txt_csp_name() -> Seq<u8> {
    seq![67u8, 111u8, 110u8, 116u8, 101u8, 110u8, 116u8, 45u8, 83u8, 101u8, 99u8, 117u8, 114u8, 105u8, 116u8, 121u8, 45u8, 80u8, 111u8, 108u8, 105u8, 99u8, 121u8]
}

pub fn csp_name_bytes() -> (r: Vec<u8>)
    ensures
        r@ == txt_csp_name(),
{
    let mut v: Vec<u8> = Vec::new();
    v.push(67);
    v.push(111);
    v.push(110);
    v.push(116);
    v.push(101);
    v.push(110);
    v.push(116);
    v.push(45);
    v.push(83);
    v.push(101);
    v.push(99);
    v.push(117);
    v.push(114);
    v.push(105);
    v.push(116);
    v.push(121);
    v.push(45);
    v.push(80);
    v.push(111);
    v.push(108);
    v.push(105);
    v.push(99);
    v.push(121);
    assert(v@ =~= txt_csp_name());
    v
}

/// `"default-src 'self'; script-src 'none'; frame-src 'none'; object-src 'none'"`
pub open spec fn txt_csp_value() -> Seq<u8> {
    seq![100u8, 101u8, 102u8, 97u8, 117u8, 108u8, 116u8, 45u8, 115u8, 114u8, 99u8, 32u8, 39u8, 115u8, 101u8, 108u8, 102u8, 39u8, 59u8, 32u8, 115u8, 99u8, 114u8, 105u8, 112u8, 116u8, 45u8, 115u8, 114u8, 99u8, 32u8, 39u8, 110u8, 111u8, 110u8, 101u8, 39u8, 59u8, 32u8, 102u8, 114u8, 97u8, 109u8, 101u8, 45u8, 115u8, 114u8, 99u8, 32u8, 39u8, 110u8, 111u8, 110u8, 101u8, 39u8, 59u8, 32u8, 111u8, 98u8, 106u8, 101u8, 99u8, 116u8, 45u8, 115u8, 114u8, 99u8, 32u8, 39u8, 110u8, 111u8, 110u8, 101u8, 39u8]
}

pub fn csp_value_bytes() -> (r: Vec<u8>)
    ensures
        r@ == txt_csp_value(),
{
    let mut v: Vec<u8> = Vec::new();
    v.push(100);
    v.push(101);
    v.push(102);
    v.push(97);
    v.push(117);
    v.push(108);
    v.push(116);
    v.push(45);
    v.push(115);
    v.push(114);
    v.push(99);
    v.push(32);
    v.push(39);
    v.push(115);
    v.push(101);
    v.push(108);
    v.push(102);
    v.push(39);
    v.push(59);
    v.push(32);
    v.push(115);
    v.push(99);
    v.push(114);
    v.push(105);
    v.push(112);
    v.push(116);
    v.push(45);
    v.push(115);
    v.push(114);
    v.push(99);
    v.push(32);
    v.push(39);
    v.push(110);
    v.push(111);
    v.push(110);
    v.push(101);
    v.push(39);
    v.push(59);
    v.push(32);
    v.push(102);
    v.push(114);
    v.push(97);
    v.push(109);
    v.push(101);
    v.push(45);
    v.push(115);
    v.push(114);
    v.push(99);
    v.push(32);
    v.push(39);
    v.push(110);
    v.push(111);
    v.push(110);
    v.push(101);
    v.push(39);
    v.push(59);
    v.push(32);
    v.push(111);
    v.push(98);
    v.push(106);
    v.push(101);
    v.push(99);
    v.push(116);
    v.push(45);
    v.push(115);
    v.push(114);
    v.push(99);
    v.push(32);
    v.push(39);
    v.push(110);
    v.push(111);
    v.push(110);
    v.push(101);
    v.push(39);
    assert(v@ =~= txt_csp_value());
    v
}

/// `"IC-Certificate"`
pub open spec fn txt_cert_name() -> Seq<u8> {
    seq![73u8, 67u8, 45u8, 67u8, 101u8, 114u8, 116u8, 105u8, 102u8, 105u8, 99u8, 97u8, 116u8, 101u8]
}

pub fn cert_name_bytes() -> (r: Vec<u8>)
    ensures
        r@ == txt_cert_name(),
{
    let mut v: Vec<u8> = Vec::new();
    v.push(73);
    v.push(67);
    v.push(45);
    v.push(67);
    v.push(101);
    v.push(114);
    v.push(116);
    v.push(105);
    v.push(102);
    v.push(105);
    v.push(99);
    v.push(97);
    v.push(116);
    v.push(101);
    assert(v@ =~= txt_cert_name());
    v
}

/// `"Strict-Transport-Security"`
pub open spec fn txt_sts_name() -> Seq<u8> {
    seq![83u8, 116u8, 114u8, 105u8, 99u8, 116u8, 45u8, 84u8, 114u8, 97u8, 110u8, 115u8, 112u8, 111u8, 114u8, 116u8, 45u8, 83u8, 101u8, 99u8, 117u8, 114u8, 105u8, 116u8, 121u8]
}

pub fn sts_name_bytes() -> (r: Vec<u8>)
    ensures
        r@ == txt_sts_name(),
{
    let mut v: Vec<u8> = Vec::new();
    v.push(83);
    v.push(116);
    v.push(114);
    v.push(105);
    v.push(99);
    v.push(116);
    v.push(45);
    v.push(84);
    v.push(114);
    v.push(97);
    v.push(110);
    v.push(115);
    v.push(112);
    v.push(111);
    v.push(114);
    v.push(116);
    v.push(45);
    v.push(83);
    v.push(101);
    v.push(99);
    v.push(117);
    v.push(114);
    v.push(105);
    v.push(116);
    v.push(121);
    assert(v@ =~= txt_sts_name());
    v
}

/// `"max-age=31536000; includeSubDomains"`
pub open spec fn txt_sts_value() -> Seq<u8> {
    seq![109u8, 97u8, 120u8, 45u8, 97u8, 103u8, 101u8, 61u8, 51u8, 49u8, 53u8, 51u8, 54u8, 48u8, 48u8, 48u8, 59u8, 32u8, 105u8, 110u8, 99u8, 108u8, 117u8, 100u8, 101u8, 83u8, 117u8, 98u8, 68u8, 111u8, 109u8, 97u8, 105u8, 110u8, 115u8]
}

pub fn sts_value_bytes() -> (r: Vec<u8>)
    ensures
        r@ == txt_sts_value(),
{
    let mut v: Vec<u8> = Vec::new();
    v.push(109);
    v.push(97);
    v.push(120);
    v.push(45);
    v.push(97);
    v.push(103);
    v.push(101);
    v.push(61);
    v.push(51);
    v.push(49);
    v.push(53);
    v.push(51);
    v.push(54);
    v.push(48);
    v.push(48);
    v.push(48);
    v.push(59);
    v.push(32);
    v.push(105);
    v.push(110);
    v.push(99);
    v.push(108);
    v.push(117);
    v.push(100);
    v.push(101);
    v.push(83);
    v.push(117);
    v.push(98);
    v.push(68);
    v.push(111);
    v.push(109);
    v.push(97);
    v.push(105);
    v.push(110);
    v.push(115);
    assert(v@ =~= txt_sts_value());
    v
}

/// `"Content-Type"`
pub open spec fn txt_content_type_name() -> Seq<u8> {
    seq![67u8, 111u8, 110u8, 116u8, 101u8, 110u8, 116u8, 45u8, 84u8, 121u8, 112u8, 101u8]
}

pub fn content_type_name_bytes() -> (r: Vec<u8>)
    ensures
        r@ == txt_content_type_name(),
{
    let mut v: Vec<u8> = Vec::new();
    v.push(67);
    v.push(111);
    v.push(110);
    v.push(116);
    v.push(101);
    v.push(110);
    v.push(116);
    v.push(45);
    v.push(84);
    v.push(121);
    v.push(112);
    v.push(101);
    assert(v@ =~= txt_content_type_name());
    v
}

/// `"certificate=:"`
pub open spec fn txt_cert_prefix() -> Seq<u8> {
    seq![99u8, 101u8, 114u8, 116u8, 105u8, 102u8, 105u8, 99u8, 97u8, 116u8, 101u8, 61u8, 58u8]
}

pub fn cert_prefix_bytes() -> (r: Vec<u8>)
    ensures
        r@ == txt_cert_prefix(),
{
    let mut v: Vec<u8> = Vec::new();
    v.push(99);
    v.push(101);
    v.push(114);
    v.push(116);
    v.push(105);
    v.push(102);
    v.push(105);
    v.push(99);
    v.push(97);
    v.push(116);
    v.push(101);
    v.push(61);
    v.push(58);
    assert(v@ =~= txt_cert_prefix());
    v
}

/// `":, tree=:"`
pub open spec fn txt_cert_mid() -> Seq<u8> {
    seq![58u8, 44u8, 32u8, 116u8, 114u8, 101u8, 101u8, 61u8, 58u8]
}

pub fn cert_mid_bytes() -> (r: Vec<u8>)
    ensures
        r@ == txt_cert_mid(),
{
    let mut v: Vec<u8> = Vec::new();
    v.push(58);
    v.push(44);
    v.push(32);
    v.push(116);
    v.push(114);
    v.push(101);
    v.push(101);
    v.push(61);
    v.push(58);
    assert(v@ =~= txt_cert_mid());
    v
}

/// `":"`
pub open spec fn txt_cert_end() -> Seq<u8> {
    seq![58u8]
}

pub fn cert_end_bytes() -> (r: Vec<u8>)
    ensures
        r@ == txt_cert_end(),
{
    let mut v: Vec<u8> = Vec::new();
    v.push(58);
    assert(v@ =~= txt_cert_end());
    v
}

} // verus!
