//! The element and attribute names the rules dispatch on, and the literal
//! pieces the rules insert, as byte sequences. Each has a specification-level
//! constant and an executable builder proved to produce it.

use vstd::prelude::*;

verus! {

/// `title`
pub open spec fn title_s() -> Seq<u8> {
    seq![116u8, 105u8, 116u8, 108u8, 101u8]
}

/// `title-short`
pub open spec fn title_short_s() -> Seq<u8> {
    seq![116u8, 105u8, 116u8, 108u8, 101u8, 45u8, 115u8, 104u8, 111u8, 114u8, 116u8]
}

/// `id`
pub open spec fn id_s() -> Seq<u8> {
    seq![105u8, 100u8]
}

/// `bibliography`
pub open spec fn bibliography_s() -> Seq<u8> {
    seq![98u8, 105u8, 98u8, 108u8, 105u8, 111u8, 103u8, 114u8, 97u8, 112u8, 104u8, 121u8]
}

/// `layout`
pub open spec fn layout_s() -> Seq<u8> {
    seq![108u8, 97u8, 121u8, 111u8, 117u8, 116u8]
}

/// `text`
pub open spec fn text_s() -> Seq<u8> {
    seq![116u8, 101u8, 120u8, 116u8]
}

/// `prefix`
pub open spec fn prefix_s() -> Seq<u8> {
    seq![112u8, 114u8, 101u8, 102u8, 105u8, 120u8]
}

/// `suffix`
pub open spec fn suffix_s() -> Seq<u8> {
    seq![115u8, 117u8, 102u8, 102u8, 105u8, 120u8]
}

/// `font-style`
pub open spec fn font_style_s() -> Seq<u8> {
    seq![102u8, 111u8, 110u8, 116u8, 45u8, 115u8, 116u8, 121u8, 108u8, 101u8]
}

/// `italic`
pub open spec fn italic_s() -> Seq<u8> {
    seq![105u8, 116u8, 97u8, 108u8, 105u8, 99u8]
}

/// `bold`
pub open spec fn bold_s() -> Seq<u8> {
    seq![98u8, 111u8, 108u8, 100u8]
}

/// `&#10;` — the numeric character reference for a newline.
pub open spec fn nl_ref_s() -> Seq<u8> {
    seq![38u8, 35u8, 49u8, 48u8, 59u8]
}

/// `_MD_` — the sentinel inserted before `title` and `title-short` close.
pub open spec fn md_s() -> Seq<u8> {
    seq![95u8, 77u8, 68u8, 95u8]
}

/// `/_MD_` — the sentinel inserted before `id` closes.
pub open spec fn slash_md_s() -> Seq<u8> {
    seq![47u8, 95u8, 77u8, 68u8, 95u8]
}

/// `_` — the markdown italic marker.
pub open spec fn underscore_s() -> Seq<u8> {
    seq![95u8]
}

/// `**` — the markdown bold marker.
pub open spec fn stars_s() -> Seq<u8> {
    seq![42u8, 42u8]
}

pub fn title_v() -> (r: Vec<u8>)
    ensures
        r@ == title_s(),
{
    let mut v: Vec<u8> = Vec::new();
    v.push(116);
    v.push(105);
    v.push(116);
    v.push(108);
    v.push(101);
    assert(v@ =~= title_s());
    v
}

pub fn title_short_v() -> (r: Vec<u8>)
    ensures
        r@ == title_short_s(),
{
    let mut v = title_v();
    v.push(45);
    v.push(115);
    v.push(104);
    v.push(111);
    v.push(114);
    v.push(116);
    assert(v@ =~= title_short_s());
    v
}

pub fn id_v() -> (r: Vec<u8>)
    ensures
        r@ == id_s(),
{
    let mut v: Vec<u8> = Vec::new();
    v.push(105);
    v.push(100);
    assert(v@ =~= id_s());
    v
}

pub fn bibliography_v() -> (r: Vec<u8>)
    ensures
        r@ == bibliography_s(),
{
    let mut v: Vec<u8> = Vec::new();
    v.push(98);
    v.push(105);
    v.push(98);
    v.push(108);
    v.push(105);
    v.push(111);
    v.push(103);
    v.push(114);
    v.push(97);
    v.push(112);
    v.push(104);
    v.push(121);
    assert(v@ =~= bibliography_s());
    v
}

pub fn layout_v() -> (r: Vec<u8>)
    ensures
        r@ == layout_s(),
{
    let mut v: Vec<u8> = Vec::new();
    v.push(108);
    v.push(97);
    v.push(121);
    v.push(111);
    v.push(117);
    v.push(116);
    assert(v@ =~= layout_s());
    v
}

pub fn text_v() -> (r: Vec<u8>)
    ensures
        r@ == text_s(),
{
    let mut v: Vec<u8> = Vec::new();
    v.push(116);
    v.push(101);
    v.push(120);
    v.push(116);
    assert(v@ =~= text_s());
    v
}

pub fn prefix_v() -> (r: Vec<u8>)
    ensures
        r@ == prefix_s(),
{
    let mut v: Vec<u8> = Vec::new();
    v.push(112);
    v.push(114);
    v.push(101);
    v.push(102);
    v.push(105);
    v.push(120);
    assert(v@ =~= prefix_s());
    v
}

pub fn suffix_v() -> (r: Vec<u8>)
    ensures
        r@ == suffix_s(),
{
    let mut v: Vec<u8> = Vec::new();
    v.push(115);
    v.push(117);
    v.push(102);
    v.push(102);
    v.push(105);
    v.push(120);
    assert(v@ =~= suffix_s());
    v
}

pub fn font_style_v() -> (r: Vec<u8>)
    ensures
        r@ == font_style_s(),
{
    let mut v: Vec<u8> = Vec::new();
    v.push(102);
    v.push(111);
    v.push(110);
    v.push(116);
    v.push(45);
    v.push(115);
    v.push(116);
    v.push(121);
    v.push(108);
    v.push(101);
    assert(v@ =~= font_style_s());
    v
}

pub fn italic_v() -> (r: Vec<u8>)
    ensures
        r@ == italic_s(),
{
    let mut v: Vec<u8> = Vec::new();
    v.push(105);
    v.push(116);
    v.push(97);
    v.push(108);
    v.push(105);
    v.push(99);
    assert(v@ =~= italic_s());
    v
}

pub fn bold_v() -> (r: Vec<u8>)
    ensures
        r@ == bold_s(),
{
    let mut v: Vec<u8> = Vec::new();
    v.push(98);
    v.push(111);
    v.push(108);
    v.push(100);
    assert(v@ =~= bold_s());
    v
}

pub fn nl_ref_v() -> (r: Vec<u8>)
    ensures
        r@ == nl_ref_s(),
{
    let mut v: Vec<u8> = Vec::new();
    v.push(38);
    v.push(35);
    v.push(49);
    v.push(48);
    v.push(59);
    assert(v@ =~= nl_ref_s());
    v
}

pub fn md_v() -> (r: Vec<u8>)
    ensures
        r@ == md_s(),
{
    let mut v: Vec<u8> = Vec::new();
    v.push(95);
    v.push(77);
    v.push(68);
    v.push(95);
    assert(v@ =~= md_s());
    v
}

pub fn slash_md_v() -> (r: Vec<u8>)
    ensures
        r@ == slash_md_s(),
{
    let mut v: Vec<u8> = Vec::new();
    v.push(47);
    v.push(95);
    v.push(77);
    v.push(68);
    v.push(95);
    assert(v@ =~= slash_md_s());
    v
}

pub fn underscore_v() -> (r: Vec<u8>)
    ensures
        r@ == underscore_s(),
{
    let mut v: Vec<u8> = Vec::new();
    v.push(95);
    assert(v@ =~= underscore_s());
    v
}

pub fn stars_v() -> (r: Vec<u8>)
    ensures
        r@ == stars_s(),
{
    let mut v: Vec<u8> = Vec::new();
    v.push(42);
    v.push(42);
    assert(v@ =~= stars_s());
    v
}

} // verus!
