//! Attributes of a tag: parsing them out of a tag's raw bytes, and
//! serialising a rewritten list back, escaping the values.

use vstd::prelude::*;
use vstd::slice::{slice_subrange, slice_to_vec};

use crate::events::{is_ws, AMP, APOS, EQ, GT, LT, QUOT, SEMI, SP};
use crate::lexer::{find_byte, lemma_find_byte};

verus! {

/// One attribute: an ordered pair of key and raw value bytes.
///
/// The value is kept exactly as it stands between the quotes of the input;
/// no entity in it is decoded.
pub struct Attr {
    pub key: Vec<u8>,
    pub value: Vec<u8>,
}

/// The mathematical view of an [`Attr`].
pub struct AttrV {
    pub key: Seq<u8>,
    pub value: Seq<u8>,
}

impl View for Attr {
    type V = AttrV;

    open spec fn view(&self) -> AttrV {
        AttrV { key: self.key@, value: self.value@ }
    }
}

/// The views of a sequence of attributes.
pub open spec fn attr_views(attrs: Seq<Attr>) -> Seq<AttrV> {
    attrs.map_values(|a: Attr| a@)
}

/// First non-whitespace position at or after `i`.
pub open spec fn skip_ws(c: Seq<u8>, i: int) -> int
    decreases c.len() - i,
        when 0 <= i <= c.len()
{
    if i == c.len() {
        i
    } else if is_ws(c[i]) {
        skip_ws(c, i + 1)
    } else {
        i
    }
}

pub proof fn lemma_skip_ws(c: Seq<u8>, i: int)
    requires
        0 <= i <= c.len(),
    ensures
        i <= skip_ws(c, i) <= c.len(),
        skip_ws(c, i) < c.len() ==> !is_ws(c[skip_ws(c, i)]),
    decreases c.len() - i,
{
    if i < c.len() && is_ws(c[i]) {
        lemma_skip_ws(c, i + 1);
    }
}

/// End of an attribute key starting at `i`: the first whitespace or `=`.
pub open spec fn key_end(c: Seq<u8>, i: int) -> int
    decreases c.len() - i,
        when 0 <= i <= c.len()
{
    if i == c.len() {
        i
    } else if is_ws(c[i]) || c[i] == EQ {
        i
    } else {
        key_end(c, i + 1)
    }
}

pub proof fn lemma_key_end(c: Seq<u8>, i: int)
    requires
        0 <= i <= c.len(),
    ensures
        i <= key_end(c, i) <= c.len(),
    decreases c.len() - i,
{
    if i < c.len() && !(is_ws(c[i]) || c[i] == EQ) {
        lemma_key_end(c, i + 1);
    }
}

/// The attributes written in `c` from position `i` on: each one a key, an
/// `=`, and a value in single or double quotes, separated by whitespace.
/// `None` when the bytes do not have that shape (a stray byte where a key
/// should start, a missing `=`, an unquoted or unterminated value).
/// Duplicate keys are not rejected: the attributes are kept as given, in
/// order.
pub open spec fn parse_attrs(c: Seq<u8>, i: int) -> Option<Seq<AttrV>>
    decreases c.len() - i,
        when 0 <= i <= c.len()
        via parse_attrs_decreases
{
    let j = skip_ws(c, i);
    if j == c.len() {
        Some(Seq::empty())
    } else {
        let k = key_end(c, j);
        if k == j {
            None
        } else {
            let m = skip_ws(c, k);
            if m == c.len() || c[m] != EQ {
                None
            } else {
                let q = skip_ws(c, m + 1);
                if q == c.len() || (c[q] != QUOT && c[q] != APOS) {
                    None
                } else {
                    match find_byte(c, q + 1, c[q]) {
                        None => None,
                        Some(e) => match parse_attrs(c, e + 1) {
                            None => None,
                            Some(rest) => Some(
                                seq![AttrV { key: c.subrange(j, k), value: c.subrange(q + 1, e) }]
                                    + rest,
                            ),
                        },
                    }
                }
            }
        }
    }
}

#[via_fn]
proof fn parse_attrs_decreases(c: Seq<u8>, i: int) {
    lemma_skip_ws(c, i);
    let j = skip_ws(c, i);
    if j < c.len() {
        lemma_key_end(c, j);
        let k = key_end(c, j);
        if k > j {
            lemma_skip_ws(c, k);
            let m = skip_ws(c, k);
            if m < c.len() && c[m] == EQ {
                lemma_skip_ws(c, m + 1);
                let q = skip_ws(c, m + 1);
                if q < c.len() {
                    lemma_find_byte(c, q + 1, c[q]);
                }
            }
        }
    }
}

/// How one byte of an attribute value is written out: the five XML
/// metacharacters become entity references, every other byte stands as is.
pub open spec fn escape_byte(b: u8) -> Seq<u8> {
    if b == LT {
        seq![AMP, 108u8, 116u8, SEMI]  // &lt;
    } else if b == GT {
        seq![AMP, 103u8, 116u8, SEMI]  // &gt;
    } else if b == AMP {
        seq![AMP, 97u8, 109u8, 112u8, SEMI]  // &amp;
    } else if b == QUOT {
        seq![AMP, 113u8, 117u8, 111u8, 116u8, SEMI]  // &quot;
    } else if b == APOS {
        seq![AMP, 97u8, 112u8, 111u8, 115u8, SEMI]  // &apos;
    } else {
        seq![b]
    }
}

/// An attribute value, escaped byte for byte.
pub open spec fn escape(v: Seq<u8>) -> Seq<u8>
    decreases v.len(),
{
    if v.len() == 0 {
        Seq::empty()
    } else {
        escape_byte(v[0]) + escape(v.skip(1))
    }
}

pub proof fn lemma_escape_push(v: Seq<u8>, b: u8)
    ensures
        escape(v.push(b)) == escape(v) + escape_byte(b),
    decreases v.len(),
{
    if v.len() == 0 {
        assert(v.push(b)[0] == b);
        assert(v.push(b).skip(1) =~= Seq::<u8>::empty());
        assert(escape(v.push(b)) == escape_byte(b) + escape(Seq::<u8>::empty()));
        assert(escape_byte(b) + Seq::<u8>::empty() =~= escape_byte(b));
        assert(escape(v) + escape_byte(b) =~= escape_byte(b));
    } else {
        assert(v.push(b).skip(1) =~= v.skip(1).push(b));
        lemma_escape_push(v.skip(1), b);
        assert(escape(v.push(b)) == escape_byte(v[0]) + (escape(v.skip(1)) + escape_byte(b)));
        assert(escape_byte(v[0]) + (escape(v.skip(1)) + escape_byte(b)) =~= (escape_byte(v[0])
            + escape(v.skip(1))) + escape_byte(b));
    }
}

/// One attribute as written out: a space, the key, `="`, the value with
/// only double quotes escaped, and a closing quote. A value is otherwise
/// written byte for byte: whatever escaping a rule wants is already in the
/// value it builds, and a pass-through value keeps the input's bytes.
pub open spec fn ser_attr(a: AttrV) -> Seq<u8> {
    seq![SP] + a.key + seq![EQ, QUOT] + escape_quot(a.value) + seq![QUOT]
}

/// A rewritten attribute list as written out.
pub open spec fn ser_attrs(attrs: Seq<AttrV>) -> Seq<u8>
    decreases attrs.len(),
{
    if attrs.len() == 0 {
        Seq::empty()
    } else {
        ser_attr(attrs[0]) + ser_attrs(attrs.skip(1))
    }
}

pub proof fn lemma_ser_attrs_push(attrs: Seq<AttrV>, a: AttrV)
    ensures
        ser_attrs(attrs.push(a)) == ser_attrs(attrs) + ser_attr(a),
    decreases attrs.len(),
{
    if attrs.len() == 0 {
        assert(attrs.push(a)[0] == a);
        assert(attrs.push(a).skip(1) =~= Seq::<AttrV>::empty());
        assert(ser_attrs(attrs.push(a)) == ser_attr(a) + ser_attrs(Seq::<AttrV>::empty()));
        assert(ser_attr(a) + Seq::<u8>::empty() =~= ser_attr(a));
        assert(ser_attrs(attrs) + ser_attr(a) =~= ser_attr(a));
    } else {
        assert(attrs.push(a).skip(1) =~= attrs.skip(1).push(a));
        lemma_ser_attrs_push(attrs.skip(1), a);
        assert(ser_attrs(attrs.push(a)) == ser_attr(attrs[0]) + (ser_attrs(attrs.skip(1))
            + ser_attr(a)));
        assert(ser_attr(attrs[0]) + (ser_attrs(attrs.skip(1)) + ser_attr(a)) =~= (ser_attr(
            attrs[0],
        ) + ser_attrs(attrs.skip(1))) + ser_attr(a));
    }
}

/// Prefixes one attribute onto an optional rest.
pub open spec fn prepend_attr(a: AttrV, rest: Option<Seq<AttrV>>) -> Option<Seq<AttrV>> {
    match rest {
        Some(r) => Some(seq![a] + r),
        None => None,
    }
}

/// Concatenation of a parsed prefix with an optional rest.
pub open spec fn opt_attr_cat(p: Seq<AttrV>, rest: Option<Seq<AttrV>>) -> Option<Seq<AttrV>> {
    match rest {
        Some(r) => Some(p + r),
        None => None,
    }
}

proof fn lemma_opt_attr_cat_step(p: Seq<AttrV>, a: AttrV, rest: Option<Seq<AttrV>>)
    ensures
        opt_attr_cat(p, prepend_attr(a, rest)) == opt_attr_cat(p.push(a), rest),
{
    match rest {
        Some(r) => {
            assert(p + (seq![a] + r) =~= p.push(a) + r);
        },
        None => {},
    }
}

/// No byte of `c` is the tag delimiter `>`.
pub open spec fn no_gt(c: Seq<u8>) -> bool {
    forall|j: int| 0 <= j < c.len() ==> (#[trigger] c[j]) != GT
}

/// No `>` anywhere in an attribute list, keys or values.
pub open spec fn no_gt_attrs(attrs: Seq<AttrV>) -> bool {
    forall|i: int| 0 <= i < attrs.len() ==> no_gt((#[trigger] attrs[i]).key) && no_gt(
        attrs[i].value,
    )
}

/// Attributes read out of raw bytes that hold no `>` hold none either: every
/// key and value is a range of those bytes.
pub proof fn lemma_parse_attrs_no_gt(c: Seq<u8>, i: int)
    requires
        0 <= i <= c.len(),
        no_gt(c),
        parse_attrs(c, i) is Some,
    ensures
        no_gt_attrs(parse_attrs(c, i)->Some_0),
    decreases c.len() - i,
{
    let attrs = parse_attrs(c, i)->Some_0;
    lemma_skip_ws(c, i);
    let j = skip_ws(c, i);
    if j == c.len() {
        assert(attrs =~= Seq::<AttrV>::empty());
    } else {
        lemma_key_end(c, j);
        let k = key_end(c, j);
        lemma_skip_ws(c, k);
        let m = skip_ws(c, k);
        lemma_skip_ws(c, m + 1);
        let q = skip_ws(c, m + 1);
        lemma_find_byte(c, q + 1, c[q]);
        let e = find_byte(c, q + 1, c[q])->Some_0;
        let rest = parse_attrs(c, e + 1)->Some_0;
        lemma_parse_attrs_no_gt(c, e + 1);
        assert(no_gt(c.subrange(j, k))) by {
            assert forall|t: int| 0 <= t < k - j implies (#[trigger] c.subrange(j, k)[t]) != GT by {
                assert(c.subrange(j, k)[t] == c[j + t]);
            }
        }
        assert(no_gt(c.subrange(q + 1, e))) by {
            assert forall|t: int| 0 <= t < e - (q + 1) implies (#[trigger] c.subrange(
                q + 1,
                e,
            )[t]) != GT by {
                assert(c.subrange(q + 1, e)[t] == c[q + 1 + t]);
            }
        }
        assert forall|t: int| 0 <= t < attrs.len() implies no_gt((#[trigger] attrs[t]).key)
            && no_gt(attrs[t].value) by {
            if t == 0 {
                assert(attrs[0].key == c.subrange(j, k));
                assert(attrs[0].value == c.subrange(q + 1, e));
            } else {
                assert(attrs[t] == rest[t - 1]);
            }
        }
    }
}

/// The serialisation of an attribute list that holds no `>` in any key or
/// value holds none: quote escaping adds none, and the frame bytes are not
/// `>`.
pub proof fn lemma_ser_attrs_no_gt(attrs: Seq<AttrV>)
    requires
        no_gt_attrs(attrs),
    ensures
        no_gt(ser_attrs(attrs)),
    decreases attrs.len(),
{
    if attrs.len() > 0 {
        let a = attrs[0];
        let sa = ser_attr(a);
        let klen = a.key.len() as int;
        let el = escape_quot(a.value).len() as int;
        lemma_escape_quot_bytes(a.value);
        assert(no_gt(sa)) by {
            assert forall|t: int| 0 <= t < sa.len() implies (#[trigger] sa[t]) != GT by {
                if t == 0 {
                } else if t < 1 + klen {
                    assert(sa[t] == a.key[t - 1]);
                } else if t < 3 + klen {
                } else if t < 3 + klen + el {
                    assert(sa[t] == escape_quot(a.value)[t - (3 + klen)]);
                } else {
                    assert(sa[t] == QUOT);
                }
            }
        }
        assert(no_gt(a.value));
        assert(no_gt_attrs(attrs.skip(1))) by {
            assert(forall|i: int| 0 <= i < attrs.skip(1).len() ==> (#[trigger] attrs.skip(1)[i])
                == attrs[i + 1]);
        }
        lemma_ser_attrs_no_gt(attrs.skip(1));
        let rest = ser_attrs(attrs.skip(1));
        assert(ser_attrs(attrs) == sa + rest);
        assert forall|t: int| 0 <= t < ser_attrs(attrs).len() implies (#[trigger] ser_attrs(
            attrs,
        )[t]) != GT by {
            if t < sa.len() {
                assert(ser_attrs(attrs)[t] == sa[t]);
            } else {
                assert(ser_attrs(attrs)[t] == rest[t - sa.len()]);
            }
        }
    }
}

/// A well-formed attribute key: non-empty, with no whitespace and no `=` in
/// it. Every key [`parse_attrs`] yields has this shape, and the serialiser
/// keeps such keys readable.
pub open spec fn wf_attr_key(k: Seq<u8>) -> bool {
    k.len() > 0 && forall|j: int| 0 <= j < k.len() ==> !is_ws(#[trigger] k[j]) && k[j] != EQ
}

/// Well-formed keys throughout an attribute list.
pub open spec fn wf_attr_keys(attrs: Seq<AttrV>) -> bool {
    forall|i: int| 0 <= i < attrs.len() ==> wf_attr_key((#[trigger] attrs[i]).key)
}

/// How one byte of an attribute value is written between double quotes:
/// only a double quote itself must leave, as `&quot;`; every other byte
/// stands exactly as given.
pub open spec fn quot_byte(b: u8) -> Seq<u8> {
    if b == QUOT {
        seq![AMP, 113u8, 117u8, 111u8, 116u8, SEMI]  // &quot;
    } else {
        seq![b]
    }
}

/// An attribute value as written between double quotes: byte-identical but
/// for double quotes.
pub open spec fn escape_quot(v: Seq<u8>) -> Seq<u8>
    decreases v.len(),
{
    if v.len() == 0 {
        Seq::empty()
    } else {
        quot_byte(v[0]) + escape_quot(v.skip(1))
    }
}

pub proof fn lemma_escape_quot_push(v: Seq<u8>, b: u8)
    ensures
        escape_quot(v.push(b)) == escape_quot(v) + quot_byte(b),
    decreases v.len(),
{
    if v.len() == 0 {
        assert(v.push(b)[0] == b);
        assert(v.push(b).skip(1) =~= Seq::<u8>::empty());
        assert(escape_quot(v.push(b)) == quot_byte(b) + escape_quot(Seq::<u8>::empty()));
        assert(quot_byte(b) + Seq::<u8>::empty() =~= quot_byte(b));
        assert(escape_quot(v) + quot_byte(b) =~= quot_byte(b));
    } else {
        assert(v.push(b).skip(1) =~= v.skip(1).push(b));
        lemma_escape_quot_push(v.skip(1), b);
        assert(escape_quot(v.push(b)) == quot_byte(v[0]) + (escape_quot(v.skip(1)) + quot_byte(
            b,
        )));
        assert(quot_byte(v[0]) + (escape_quot(v.skip(1)) + quot_byte(b)) =~= (quot_byte(v[0])
            + escape_quot(v.skip(1))) + quot_byte(b));
    }
}

/// No byte of a quote-escaped value is a double quote, and a value without
/// `>` stays without `>`: the value stays within its quotes and its tag.
pub proof fn lemma_escape_quot_bytes(v: Seq<u8>)
    ensures
        forall|j: int| 0 <= j < escape_quot(v).len() ==> #[trigger] escape_quot(v)[j] != QUOT,
        no_gt(v) ==> no_gt(escape_quot(v)),
    decreases v.len(),
{
    if v.len() > 0 {
        assert(forall|t: int| 0 <= t < v.skip(1).len() ==> (#[trigger] v.skip(1)[t]) == v[t + 1]);
        assert(no_gt(v) ==> no_gt(v.skip(1)));
        lemma_escape_quot_bytes(v.skip(1));
        assert forall|j: int| 0 <= j < escape_quot(v).len() implies #[trigger] escape_quot(v)[j]
            != QUOT && (no_gt(v) ==> escape_quot(v)[j] != GT) by {
            if j < quot_byte(v[0]).len() {
                assert(escape_quot(v)[j] == quot_byte(v[0])[j]);
            } else {
                assert(escape_quot(v)[j] == escape_quot(v.skip(1))[j - quot_byte(v[0]).len()]);
            }
        }
    }
}

/// An attribute as it comes back from re-reading serialised output: the key
/// as it was, the value as it stands between the written double quotes.
pub open spec fn quoted_attr(a: AttrV) -> AttrV {
    AttrV { key: a.key, value: escape_quot(a.value) }
}

/// Law: a value without a double quote is written entirely unmodified — the
/// serialiser touches no byte of a pass-through value but a `"`.
pub proof fn lemma_escape_quot_identity(v: Seq<u8>)
    requires
        forall|j: int| 0 <= j < v.len() ==> (#[trigger] v[j]) != QUOT,
    ensures
        escape_quot(v) == v,
    decreases v.len(),
{
    if v.len() > 0 {
        assert(forall|t: int| 0 <= t < v.skip(1).len() ==> (#[trigger] v.skip(1)[t]) == v[t + 1]);
        lemma_escape_quot_identity(v.skip(1));
        assert(quot_byte(v[0]) == seq![v[0]]);
        assert(seq![v[0]] + v.skip(1) =~= v);
    }
}

/// No byte of an escaped value is a double quote (or any other of the five
/// XML metacharacters): the escaped value stays within its quotes.
pub proof fn lemma_escape_no_specials(v: Seq<u8>)
    ensures
        forall|j: int| 0 <= j < escape(v).len() ==> #[trigger] escape(v)[j] != QUOT && escape(v)[j]
            != APOS && escape(v)[j] != LT && escape(v)[j] != GT,
    decreases v.len(),
{
    if v.len() > 0 {
        lemma_escape_no_specials(v.skip(1));
        assert forall|j: int| 0 <= j < escape(v).len() implies #[trigger] escape(v)[j] != QUOT
            && escape(v)[j] != APOS && escape(v)[j] != LT && escape(v)[j] != GT by {
            if j < escape_byte(v[0]).len() {
                assert(escape(v)[j] == escape_byte(v[0])[j]);
            } else {
                assert(escape(v)[j] == escape(v.skip(1))[j - escape_byte(v[0]).len()]);
            }
        }
    }
}

proof fn lemma_key_end_scan(c: Seq<u8>, lo: int, hi: int)
    requires
        0 <= lo <= hi <= c.len(),
        forall|j: int| lo <= j < hi ==> !is_ws(#[trigger] c[j]) && c[j] != EQ,
        hi == c.len() || is_ws(c[hi]) || c[hi] == EQ,
    ensures
        key_end(c, lo) == hi,
    decreases hi - lo,
{
    if lo < hi {
        lemma_key_end_scan(c, lo + 1, hi);
    }
}

proof fn lemma_find_byte_scan(c: Seq<u8>, lo: int, hi: int, b: u8)
    requires
        0 <= lo <= hi < c.len(),
        forall|j: int| lo <= j < hi ==> #[trigger] c[j] != b,
        c[hi] == b,
    ensures
        find_byte(c, lo, b) == Some(hi),
    decreases hi - lo,
{
    if lo < hi {
        lemma_find_byte_scan(c, lo + 1, hi, b);
    }
}

/// Every key [`parse_attrs`] yields is well formed: non-empty, without
/// whitespace or `=`.
pub proof fn lemma_parse_attrs_wf_keys(c: Seq<u8>, i: int)
    requires
        0 <= i <= c.len(),
        parse_attrs(c, i) is Some,
    ensures
        wf_attr_keys(parse_attrs(c, i)->Some_0),
    decreases c.len() - i,
{
    let attrs = parse_attrs(c, i)->Some_0;
    lemma_skip_ws(c, i);
    let j = skip_ws(c, i);
    if j == c.len() {
        assert(attrs =~= Seq::<AttrV>::empty());
    } else {
        lemma_key_end(c, j);
        let k = key_end(c, j);
        lemma_skip_ws(c, k);
        let m = skip_ws(c, k);
        lemma_skip_ws(c, m + 1);
        let q = skip_ws(c, m + 1);
        lemma_find_byte(c, q + 1, c[q]);
        let e = find_byte(c, q + 1, c[q])->Some_0;
        let rest = parse_attrs(c, e + 1)->Some_0;
        lemma_parse_attrs_wf_keys(c, e + 1);
        lemma_key_end_bytes(c, j, k);
        assert(wf_attr_key(c.subrange(j, k)));
        assert forall|t: int| 0 <= t < attrs.len() implies wf_attr_key(
            (#[trigger] attrs[t]).key,
        ) by {
            if t == 0 {
                assert(attrs[0].key == c.subrange(j, k));
            } else {
                assert(attrs[t] == rest[t - 1]);
            }
        }
    }
}

proof fn lemma_key_end_bytes(c: Seq<u8>, j: int, k: int)
    requires
        0 <= j <= c.len(),
        k == key_end(c, j),
    ensures
        forall|t: int| j <= t < k ==> !is_ws(#[trigger] c[t]) && c[t] != EQ,
    decreases c.len() - j,
{
    lemma_key_end(c, j);
    if j < c.len() && !(is_ws(c[j]) || c[j] == EQ) {
        lemma_key_end_bytes(c, j + 1, k);
    }
}

/// Law: the serialiser writes valid attribute syntax. Reading the
/// serialised form of an attribute list back, from the position where it was
/// written into a tag's raw bytes, yields exactly the attributes written,
/// each value as it stands between the double quotes.
pub proof fn lemma_ser_attrs_reparse(c: Seq<u8>, i: int, attrs: Seq<AttrV>)
    requires
        0 <= i <= c.len(),
        c.subrange(i, c.len() as int) == ser_attrs(attrs),
        wf_attr_keys(attrs),
    ensures
        parse_attrs(c, i) == Some(attrs.map_values(|a: AttrV| quoted_attr(a))),
    decreases attrs.len(),
{
    let tail = c.subrange(i, c.len() as int);
    if attrs.len() == 0 {
        assert(tail.len() == 0);
        assert(skip_ws(c, i) == i);
        assert(parse_attrs(c, i) == Some(Seq::<AttrV>::empty()));
        assert(attrs.map_values(|a: AttrV| quoted_attr(a)) =~= Seq::<AttrV>::empty());
    } else {
        let a = attrs[0];
        let klen = a.key.len() as int;
        let el = escape_quot(a.value).len() as int;
        let sa = ser_attr(a);
        let rest_ser = ser_attrs(attrs.skip(1));
        assert(ser_attrs(attrs) == sa + rest_ser);
        assert(sa.len() == klen + el + 4);
        // Lay out the bytes of `ser_attr(a)` inside `c`.
        assert(c[i] == SP) by {
            assert(tail[0] == c[i]);
            assert(tail[0] == sa[0]);
        }
        assert forall|t: int| 0 <= t < klen implies #[trigger] c[i + 1 + t] == a.key[t] by {
            assert(tail[1 + t] == c[i + (1 + t)]);
            assert(tail[1 + t] == sa[1 + t]);
            assert(sa[1 + t] == a.key[t]);
        }
        assert(c[i + 1 + klen] == EQ) by {
            assert(tail[1 + klen] == c[i + (1 + klen)]);
            assert(tail[1 + klen] == sa[1 + klen]);
        }
        assert(c[i + 2 + klen] == QUOT) by {
            assert(tail[2 + klen] == c[i + (2 + klen)]);
            assert(tail[2 + klen] == sa[2 + klen]);
        }
        assert forall|t: int| 0 <= t < el implies #[trigger] c[i + 3 + klen + t] == escape_quot(
            a.value,
        )[t] by {
            assert(tail[3 + klen + t] == c[i + (3 + klen + t)]);
            assert(tail[3 + klen + t] == sa[3 + klen + t]);
            assert(sa[3 + klen + t] == escape_quot(a.value)[t]);
        }
        assert(c[i + 3 + klen + el] == QUOT) by {
            assert(tail[3 + klen + el] == c[i + (3 + klen + el)]);
            assert(tail[3 + klen + el] == sa[3 + klen + el]);
        }
        // The reader's cursor now moves exactly along that layout.
        assert(!is_ws(c[i + 1]) && c[i + 1] != EQ) by {
            assert(c[i + 1 + 0] == a.key[0]);
            assert(wf_attr_key(a.key));
        }
        assert(skip_ws(c, i) == i + 1) by {
            assert(skip_ws(c, i + 1) == i + 1);
        }
        let j = i + 1;
        assert forall|t2: int| j <= t2 < j + klen implies !is_ws(#[trigger] c[t2]) && c[t2] != EQ
            by {
            let t = t2 - j;
            assert(c[i + 1 + t] == a.key[t]);
            assert(!is_ws(a.key[t]) && a.key[t] != EQ);
        }
        lemma_key_end_scan(c, j, j + klen);
        let k = j + klen;
        assert(skip_ws(c, k) == k);
        let m = k;
        assert(c[m] == EQ);
        assert(skip_ws(c, m + 1) == m + 1) by {
            assert(!is_ws(c[m + 1]));
        }
        let q = m + 1;
        assert(c[q] == QUOT);
        lemma_escape_quot_bytes(a.value);
        assert forall|t: int| q + 1 <= t < q + 1 + el implies #[trigger] c[t] != QUOT by {
            assert(c[i + 3 + klen + (t - (q + 1))] == escape_quot(a.value)[t - (q + 1)]);
        }
        lemma_find_byte_scan(c, q + 1, q + 1 + el, QUOT);
        let e = q + 1 + el;
        assert forall|t: int| 0 <= t < klen implies c.subrange(j, k)[t] == a.key[t] by {
            assert(c.subrange(j, k)[t] == c[j + t]);
            assert(c[i + 1 + t] == a.key[t]);
        }
        assert(c.subrange(j, k) =~= a.key);
        assert forall|t: int| 0 <= t < el implies c.subrange(q + 1, e)[t] == escape_quot(a.value)[t]
            by {
            assert(c.subrange(q + 1, e)[t] == c[q + 1 + t]);
            assert(c[i + 3 + klen + t] == escape_quot(a.value)[t]);
        }
        assert(c.subrange(q + 1, e) =~= escape_quot(a.value));
        // The rest of the buffer is the serialisation of the rest.
        assert forall|t: int| 0 <= t < rest_ser.len() implies c.subrange(
            e + 1,
            c.len() as int,
        )[t] == rest_ser[t] by {
            assert(c.subrange(e + 1, c.len() as int)[t] == c[e + 1 + t]);
            assert(tail[(klen + el + 4) + t] == c[i + ((klen + el + 4) + t)]);
            assert(tail[(klen + el + 4) + t] == rest_ser[t]);
        }
        assert(c.subrange(e + 1, c.len() as int) =~= rest_ser);
        lemma_ser_attrs_reparse(c, e + 1, attrs.skip(1));
        assert(parse_attrs(c, i) == Some(
            seq![AttrV { key: a.key, value: escape_quot(a.value) }] + attrs.skip(1).map_values(
                |x: AttrV| quoted_attr(x),
            ),
        ));
        assert(seq![quoted_attr(a)] + attrs.skip(1).map_values(|x: AttrV| quoted_attr(x))
            =~= attrs.map_values(|x: AttrV| quoted_attr(x)));
    }
}

/// The exec counterpart of [`skip_ws`].
fn skip_ws_exec(c: &[u8], from: usize) -> (r: usize)
    requires
        from <= c@.len(),
    ensures
        r as int == skip_ws(c@, from as int),
        from <= r <= c@.len(),
{
    let n = c.len();
    let mut i: usize = from;
    while i < n
        invariant
            from <= i <= n,
            n == c@.len(),
            skip_ws(c@, from as int) == skip_ws(c@, i as int),
        decreases n - i,
    {
        let b = c[i];
        if !(b == 32 || b == 9 || b == 10 || b == 13) {
            return i;
        }
        i = i + 1;
    }
    i
}

/// The exec counterpart of [`key_end`].
fn key_end_exec(c: &[u8], from: usize) -> (r: usize)
    requires
        from <= c@.len(),
    ensures
        r as int == key_end(c@, from as int),
        from <= r <= c@.len(),
{
    let n = c.len();
    let mut i: usize = from;
    while i < n
        invariant
            from <= i <= n,
            n == c@.len(),
            key_end(c@, from as int) == key_end(c@, i as int),
        decreases n - i,
    {
        let b = c[i];
        if b == 32 || b == 9 || b == 10 || b == 13 || b == EQ {
            return i;
        }
        i = i + 1;
    }
    i
}

/// Parses the attributes out of a tag's raw bytes, starting after the name.
///
/// Returns exactly what [`parse_attrs`] describes; `Err` when the bytes are
/// not a well-formed attribute list.
pub fn parse_attrs_exec(c: &[u8], start: usize) -> (r: Result<Vec<Attr>, ()>)
    requires
        start <= c@.len(),
    ensures
        match r {
            Ok(attrs) => parse_attrs(c@, start as int) == Some(attr_views(attrs@)),
            Err(_) => parse_attrs(c@, start as int) is None,
        },
{
    let n = c.len();
    let mut i: usize = start;
    let mut out: Vec<Attr> = Vec::new();
    proof {
        assert(attr_views(out@) =~= Seq::<AttrV>::empty());
        match parse_attrs(c@, start as int) {
            Some(r) => {
                assert(attr_views(out@) + r =~= r);
            },
            None => {},
        }
    }
    loop
        invariant
            i <= n,
            n == c@.len(),
            parse_attrs(c@, start as int) == opt_attr_cat(
                attr_views(out@),
                parse_attrs(c@, i as int),
            ),
        decreases n - i,
    {
        let ghost s = c@;
        let ghost p = i as int;
        let ghost outv = attr_views(out@);
        let j = skip_ws_exec(c, i);
        if j == n {
            assert(parse_attrs(s, p) == Some(Seq::<AttrV>::empty()));
            assert(outv + Seq::<AttrV>::empty() =~= outv);
            return Ok(out);
        }
        let k = key_end_exec(c, j);
        if k == j {
            assert(parse_attrs(s, p) is None);
            return Err(());
        }
        let m = skip_ws_exec(c, k);
        if m == n || c[m] != EQ {
            assert(parse_attrs(s, p) is None);
            return Err(());
        }
        let q = skip_ws_exec(c, m + 1);
        if q == n || (c[q] != QUOT && c[q] != APOS) {
            assert(parse_attrs(s, p) is None);
            return Err(());
        }
        match crate::lexer::find_byte_exec(c, q + 1, c[q]) {
            None => {
                assert(parse_attrs(s, p) is None);
                return Err(());
            },
            Some(e) => {
                let key = slice_to_vec(slice_subrange(c, j, k));
                let value = slice_to_vec(slice_subrange(c, q + 1, e));
                let a = Attr { key, value };
                proof {
                    assert(parse_attrs(s, p) == prepend_attr(a@, parse_attrs(s, e + 1)));
                    lemma_opt_attr_cat_step(outv, a@, parse_attrs(s, e + 1));
                    assert(attr_views(out@.push(a)) =~= outv.push(a@));
                }
                out.push(a);
                i = e + 1;
            },
        }
    }
}

/// Appends the escaped form of `v` to `out`.
pub fn escape_into(out: &mut Vec<u8>, v: &[u8])
    ensures
        final (out)@ == old(out)@ + escape(v@),
{
    let n = v.len();
    let mut i: usize = 0;
    proof {
        assert(v@.take(0) =~= Seq::<u8>::empty());
        assert(old(out)@ + Seq::<u8>::empty() =~= old(out)@);
    }
    while i < n
        invariant
            0 <= i <= n,
            n == v@.len(),
            out@ == old(out)@ + escape(v@.take(i as int)),
        decreases n - i,
    {
        let b = v[i];
        if b == LT {
            out.push(AMP);
            out.push(108);
            out.push(116);
            out.push(SEMI);
        } else if b == GT {
            out.push(AMP);
            out.push(103);
            out.push(116);
            out.push(SEMI);
        } else if b == AMP {
            out.push(AMP);
            out.push(97);
            out.push(109);
            out.push(112);
            out.push(SEMI);
        } else if b == QUOT {
            out.push(AMP);
            out.push(113);
            out.push(117);
            out.push(111);
            out.push(116);
            out.push(SEMI);
        } else if b == APOS {
            out.push(AMP);
            out.push(97);
            out.push(112);
            out.push(111);
            out.push(115);
            out.push(SEMI);
        } else {
            out.push(b);
        }
        proof {
            lemma_escape_push(v@.take(i as int), v@[i as int]);
            assert(v@.take(i as int).push(v@[i as int]) =~= v@.take(i as int + 1));
            assert(out@ =~= old(out)@ + (escape(v@.take(i as int)) + escape_byte(v@[i as int])));
            assert(old(out)@ + (escape(v@.take(i as int)) + escape_byte(v@[i as int])) =~= old(
                out,
            )@ + escape(v@.take(i as int + 1)));
        }
        i = i + 1;
    }
    proof {
        assert(v@.take(n as int) =~= v@);
    }
}

/// Appends the quote-escaped form of `v` to `out`.
pub fn escape_quot_into(out: &mut Vec<u8>, v: &[u8])
    ensures
        final (out)@ == old(out)@ + escape_quot(v@),
{
    let n = v.len();
    let mut i: usize = 0;
    proof {
        assert(v@.take(0) =~= Seq::<u8>::empty());
        assert(old(out)@ + Seq::<u8>::empty() =~= old(out)@);
    }
    while i < n
        invariant
            0 <= i <= n,
            n == v@.len(),
            out@ == old(out)@ + escape_quot(v@.take(i as int)),
        decreases n - i,
    {
        let b = v[i];
        if b == QUOT {
            out.push(AMP);
            out.push(113);
            out.push(117);
            out.push(111);
            out.push(116);
            out.push(SEMI);
        } else {
            out.push(b);
        }
        proof {
            lemma_escape_quot_push(v@.take(i as int), v@[i as int]);
            assert(v@.take(i as int).push(v@[i as int]) =~= v@.take(i as int + 1));
            assert(out@ =~= old(out)@ + (escape_quot(v@.take(i as int)) + quot_byte(
                v@[i as int],
            )));
            assert(old(out)@ + (escape_quot(v@.take(i as int)) + quot_byte(v@[i as int])) =~= old(
                out,
            )@ + escape_quot(v@.take(i as int + 1)));
        }
        i = i + 1;
    }
    proof {
        assert(v@.take(n as int) =~= v@);
    }
}

/// Appends the serialised form of `attrs` to `out`.
pub fn ser_attrs_into(out: &mut Vec<u8>, attrs: &Vec<Attr>)
    ensures
        final (out)@ == old(out)@ + ser_attrs(attr_views(attrs@)),
{
    let n = attrs.len();
    let mut i: usize = 0;
    proof {
        assert(attr_views(attrs@).take(0) =~= Seq::<AttrV>::empty());
        assert(old(out)@ + Seq::<u8>::empty() =~= old(out)@);
    }
    while i < n
        invariant
            0 <= i <= n,
            n == attrs@.len(),
            out@ == old(out)@ + ser_attrs(attr_views(attrs@).take(i as int)),
        decreases n - i,
    {
        let ghost before = out@;
        let a = &attrs[i];
        out.push(SP);
        append_vec(out, &a.key);
        out.push(EQ);
        out.push(QUOT);
        escape_quot_into(out, a.value.as_slice());
        out.push(QUOT);
        proof {
            let av = attr_views(attrs@)[i as int];
            assert(av == a@);
            assert(out@ =~= before + ser_attr(av));
            lemma_ser_attrs_push(attr_views(attrs@).take(i as int), av);
            assert(attr_views(attrs@).take(i as int).push(av) =~= attr_views(attrs@).take(
                i as int + 1,
            ));
            assert(before + ser_attr(av) =~= old(out)@ + ser_attrs(
                attr_views(attrs@).take(i as int + 1),
            ));
        }
        i = i + 1;
    }
    proof {
        assert(attr_views(attrs@).take(n as int) =~= attr_views(attrs@));
    }
}

/// Appends all of `b` to `out`.
fn append_vec(out: &mut Vec<u8>, b: &Vec<u8>)
    ensures
        final (out)@ == old(out)@ + b@,
{
    crate::events::append_bytes(out, b.as_slice());
}

} // verus!
