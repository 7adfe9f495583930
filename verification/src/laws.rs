//! The laws of the transform: the reader yields only balanced event
//! sequences, free of stray `>` inside tags, and serialising them reproduces
//! the input byte for byte; the rewrite touches nothing but the five
//! elements its rules name, keeps the event sequence balanced, keeps
//! attribute order, and writes tags whose attribute lists read back exactly
//! as written.

use vstd::prelude::*;

use crate::attrs::AttrV;
use crate::events::{balanced, balanced_from, name_of, write_event_s, write_events_s, EventV};
use crate::lexer::{lex, lex_from};
use crate::names::{bibliography_s, id_s, layout_s, text_s, title_s, title_short_s};
use crate::transform::{transform_event, transform_from};

verus! {

proof fn lemma_lex_from_balanced(s: Seq<u8>, pos: int, stack: Seq<Seq<u8>>)
    requires
        0 <= pos <= s.len(),
        lex_from(s, pos, stack) is Ok,
    ensures
        balanced_from(lex_from(s, pos, stack)->Ok_0, stack),
    decreases s.len() - pos,
{
    crate::lexer::lex_from_bounds(s, pos, stack);
    let es = lex_from(s, pos, stack)->Ok_0;
    if pos == s.len() {
        assert(es =~= Seq::<EventV>::empty());
    } else {
        // In every branch the produced event sequence is one event prepended
        // to the lexing of the rest, with the stack updated as
        // `balanced_from` asks.
        let step = crate::lexer::lex_step(s, pos, stack);
        let e = step.0;
        let pos2 = step.1;
        let stack2 = step.2;
        let rest = lex_from(s, pos2, stack2)->Ok_0;
        assert(es == seq![e] + rest);
        lemma_lex_from_balanced(s, pos2, stack2);
        assert(es[0] == e);
        assert(es.skip(1) =~= rest);
    }
}

/// Law: the event sequence the reader accepts is balanced — every element
/// opened is closed by a matching end tag, in properly nested order.
pub proof fn lemma_lex_balanced(s: Seq<u8>)
    requires
        lex(s) is Ok,
    ensures
        balanced(lex(s)->Ok_0),
{
    lemma_lex_from_balanced(s, 0, Seq::empty());
}

proof fn lemma_write_lex_from(s: Seq<u8>, pos: int, stack: Seq<Seq<u8>>)
    requires
        0 <= pos <= s.len(),
        lex_from(s, pos, stack) is Ok,
    ensures
        write_events_s(lex_from(s, pos, stack)->Ok_0) == s.subrange(pos, s.len() as int),
    decreases s.len() - pos,
{
    crate::lexer::lex_from_bounds(s, pos, stack);
    let es = lex_from(s, pos, stack)->Ok_0;
    if pos == s.len() {
        assert(es =~= Seq::<EventV>::empty());
        assert(write_events_s(es) =~= s.subrange(pos, s.len() as int));
    } else {
        let step = crate::lexer::lex_step(s, pos, stack);
        let e = step.0;
        let pos2 = step.1;
        let stack2 = step.2;
        let rest = lex_from(s, pos2, stack2)->Ok_0;
        assert(es == seq![e] + rest);
        lemma_write_lex_from(s, pos2, stack2);
        assert(es[0] == e);
        assert(es.skip(1) =~= rest);
        assert(write_event_s(e) =~= s.subrange(pos, pos2));
        assert(write_events_s(es) == write_event_s(e) + write_events_s(rest));
        assert(s.subrange(pos, pos2) + s.subrange(pos2, s.len() as int) =~= s.subrange(
            pos,
            s.len() as int,
        ));
    }
}

/// Law: serialising exactly what the reader produced reproduces the input
/// buffer byte for byte — the writer is byte-faithful on untouched events.
pub proof fn lemma_write_lex_roundtrip(s: Seq<u8>)
    requires
        lex(s) is Ok,
    ensures
        write_events_s(lex(s)->Ok_0) == s,
{
    lemma_write_lex_from(s, 0, Seq::empty());
    assert(s.subrange(0, s.len() as int) =~= s);
}

proof fn lemma_lex_from_raws_no_gt(s: Seq<u8>, pos: int, stack: Seq<Seq<u8>>)
    requires
        0 <= pos <= s.len(),
        lex_from(s, pos, stack) is Ok,
    ensures
        crate::lexer::tag_raws_no_gt(lex_from(s, pos, stack)->Ok_0),
    decreases s.len() - pos,
{
    crate::lexer::lex_from_bounds(s, pos, stack);
    let es = lex_from(s, pos, stack)->Ok_0;
    if pos == s.len() {
        assert(es =~= Seq::<EventV>::empty());
    } else {
        let step = crate::lexer::lex_step(s, pos, stack);
        let e = step.0;
        let rest = lex_from(s, step.1, step.2)->Ok_0;
        assert(es == seq![e] + rest);
        lemma_lex_from_raws_no_gt(s, step.1, step.2);
        assert forall|i: int| 0 <= i < es.len() implies match #[trigger] es[i] {
            EventV::Start(raw) => crate::attrs::no_gt(raw),
            EventV::End(raw) => crate::attrs::no_gt(raw),
            EventV::Empty(raw) => crate::attrs::no_gt(raw),
            _ => true,
        } by {
            if i == 0 {
                assert(es[0] == e);
            } else {
                assert(es[i] == rest[i - 1]);
            }
        }
    }
}

/// Law: the reader cuts every tag at the first `>`, so no tag event it
/// yields carries a `>` inside its raw bytes — each serialised tag is
/// delimited exactly where it was read.
pub proof fn lemma_lex_raws_no_gt(s: Seq<u8>)
    requires
        lex(s) is Ok,
    ensures
        crate::lexer::tag_raws_no_gt(lex(s)->Ok_0),
{
    lemma_lex_from_raws_no_gt(s, 0, Seq::empty());
}

/// Law: the rewrite leaves every event alone — same raw bytes, same
/// attributes, same order — unless it is a start of `bibliography` or of
/// `layout` inside a bibliography, an end of `title`, `title-short`, `id` or
/// `bibliography`, or an empty `text` tag. A `bibliography` start or end
/// passes through unchanged too, only the scope flag moves.
pub proof fn lemma_pass_through(e: EventV, in_bib: bool)
    ensures
        match e {
            EventV::Start(raw) => (name_of(raw) != bibliography_s() && !(name_of(raw) == layout_s()
                && in_bib)) ==> transform_event(e, in_bib) == Some((seq![e], in_bib)),
            EventV::End(raw) => (raw != title_s() && raw != title_short_s() && raw != id_s() && raw
                != bibliography_s()) ==> transform_event(e, in_bib) == Some((seq![e], in_bib)),
            EventV::Empty(raw) => name_of(raw) != text_s() ==> transform_event(e, in_bib) == Some(
                (seq![e], in_bib),
            ),
            EventV::Text(_) => transform_event(e, in_bib) == Some((seq![e], in_bib)),
            EventV::Other(_) => transform_event(e, in_bib) == Some((seq![e], in_bib)),
        },
{
}

/// Law: a `bibliography` start or end passes its raw bytes — name and
/// attributes — through unchanged; only the scope flag is toggled.
pub proof fn lemma_bibliography_pass_through(e: EventV, in_bib: bool)
    ensures
        match e {
            EventV::Start(raw) => name_of(raw) == bibliography_s() ==> transform_event(e, in_bib)
                == Some((seq![e], true)),
            EventV::End(raw) => raw == bibliography_s() ==> transform_event(e, in_bib) == Some(
                (seq![e], false),
            ),
            _ => true,
        },
{
    if e is End {
        let raw = e->End_0;
        assert(raw == title_s() ==> raw != bibliography_s());
        assert(raw == title_short_s() ==> raw != bibliography_s());
        assert(raw == id_s() ==> raw != bibliography_s());
    }
}

proof fn lemma_transform_from_balanced(es: Seq<EventV>, stack: Seq<Seq<u8>>, in_bib: bool)
    requires
        transform_from(es, in_bib) is Ok,
        balanced_from(es, stack),
    ensures
        balanced_from(transform_from(es, in_bib)->Ok_0, stack),
    decreases es.len(),
{
    let out = transform_from(es, in_bib)->Ok_0;
    if es.len() == 0 {
        assert(out =~= Seq::<EventV>::empty());
    } else {
        let e = es[0];
        let step = transform_event(e, in_bib)->Some_0;
        let emit = step.0;
        let b2 = step.1;
        let rest = transform_from(es.skip(1), b2)->Ok_0;
        assert(out == emit + rest);
        match e {
            EventV::Start(raw) => {
                lemma_transform_from_balanced(es.skip(1), stack.push(name_of(raw)), b2);
                crate::events::lemma_name_end(raw, 0);
                if name_of(raw) == layout_s() && in_bib && name_of(raw) != bibliography_s() {
                    let attrs = crate::attrs::parse_attrs(raw, name_of(raw).len() as int)->Some_0;
                    let raw2 = layout_s() + crate::attrs::ser_attrs(
                        crate::transform::layout_rewrite(attrs),
                    );
                    lemma_name_of_extension(
                        layout_s(),
                        crate::attrs::ser_attrs(crate::transform::layout_rewrite(attrs)),
                    );
                    assert(name_of(raw2) == layout_s());
                    assert(emit == seq![EventV::Start(raw2)]);
                    assert(out[0] == EventV::Start(raw2));
                    assert(out.skip(1) =~= rest);
                    assert(name_of(raw2) == name_of(raw));
                } else {
                    assert(emit == seq![e]);
                    assert(out[0] == e);
                    assert(out.skip(1) =~= rest);
                }
            },
            EventV::End(raw) => {
                lemma_transform_from_balanced(es.skip(1), stack.drop_last(), b2);
                if raw == title_s() || raw == title_short_s() || raw == id_s() {
                    assert(emit.len() == 2 && emit[0] is Text && emit[1] == e);
                    assert(out[0] == emit[0]);
                    assert(out[1] == e);
                    assert(out.skip(2) =~= rest);
                    assert(out.skip(1)[0] == e);
                    assert(out.skip(1).skip(1) =~= out.skip(2));
                    assert(balanced_from(out.skip(1), stack));
                } else {
                    assert(emit == seq![e]);
                    assert(out[0] == e);
                    assert(out.skip(1) =~= rest);
                }
            },
            EventV::Empty(raw) => {
                lemma_transform_from_balanced(es.skip(1), stack, b2);
                assert(emit.len() == 1 && (emit[0] is Empty));
                assert(out[0] == emit[0]);
                assert(out.skip(1) =~= rest);
            },
            EventV::Text(_) => {
                lemma_transform_from_balanced(es.skip(1), stack, b2);
                assert(emit == seq![e]);
                assert(out[0] == e);
                assert(out.skip(1) =~= rest);
            },
            EventV::Other(_) => {
                lemma_transform_from_balanced(es.skip(1), stack, b2);
                assert(emit == seq![e]);
                assert(out[0] == e);
                assert(out.skip(1) =~= rest);
            },
        }
    }
}

/// The name of a tag whose raw bytes are a whitespace-free name followed by
/// a serialised attribute list (or nothing) is that name.
proof fn lemma_name_of_extension(name: Seq<u8>, rest: Seq<u8>)
    requires
        name.len() > 0,
        forall|i: int| 0 <= i < name.len() ==> !crate::events::is_ws(name[i]),
        rest.len() == 0 || crate::events::is_ws(rest[0]),
    ensures
        name_of(name + rest) == name,
{
    let c = name + rest;
    lemma_name_end_concat(c, 0, name.len() as int);
    assert(name_of(c) =~= name);
}

proof fn lemma_name_end_concat(c: Seq<u8>, i: int, k: int)
    requires
        0 <= i <= k <= c.len(),
        forall|j: int| i <= j < k ==> !crate::events::is_ws(c[j]),
        k == c.len() || crate::events::is_ws(c[k]),
    ensures
        crate::events::name_end(c, i) == k,
    decreases k - i,
{
    if i < k {
        lemma_name_end_concat(c, i + 1, k);
    }
}

/// The key of every attribute the `layout` rule emits is well formed.
proof fn lemma_layout_rewrite_wf_keys(attrs: Seq<AttrV>)
    requires
        crate::attrs::wf_attr_keys(attrs),
    ensures
        crate::attrs::wf_attr_keys(crate::transform::layout_rewrite(attrs)),
{
    let out = crate::transform::layout_rewrite(attrs);
    lemma_suffix_key_wf();
    if crate::transform::has_suffix(attrs) {
        assert forall|i: int| 0 <= i < out.len() implies crate::attrs::wf_attr_key(
            (#[trigger] out[i]).key,
        ) by {
            assert(out[i] == crate::transform::rewrite_suffix(attrs[i]));
            assert(crate::attrs::wf_attr_key(attrs[i].key));
        }
    } else {
        assert forall|i: int| 0 <= i < out.len() implies crate::attrs::wf_attr_key(
            (#[trigger] out[i]).key,
        ) by {
            if i < attrs.len() {
                assert(out[i] == attrs[i]);
                assert(crate::attrs::wf_attr_key(attrs[i].key));
            }
        }
    }
}

proof fn lemma_suffix_key_wf()
    ensures
        crate::attrs::wf_attr_key(crate::names::suffix_s()),
        crate::attrs::wf_attr_key(crate::names::prefix_s()),
{
    let s = crate::names::suffix_s();
    assert forall|j: int| 0 <= j < s.len() implies !crate::events::is_ws(#[trigger] s[j]) && s[j]
        != crate::events::EQ by {
        assert(s[0] == 115u8 && s[1] == 117u8 && s[2] == 102u8 && s[3] == 102u8 && s[4] == 105u8
            && s[5] == 120u8);
    }
    let p = crate::names::prefix_s();
    assert forall|j: int| 0 <= j < p.len() implies !crate::events::is_ws(#[trigger] p[j]) && p[j]
        != crate::events::EQ by {
        assert(p[0] == 112u8 && p[1] == 114u8 && p[2] == 101u8 && p[3] == 102u8 && p[4] == 105u8
            && p[5] == 120u8);
    }
}

/// The key of every attribute the `text` rule emits is well formed.
proof fn lemma_text_rewrite_wf_keys(attrs: Seq<AttrV>)
    requires
        crate::attrs::wf_attr_keys(attrs),
    ensures
        crate::attrs::wf_attr_keys(crate::transform::text_rewrite(attrs)),
{
    lemma_classify_wf_keys(attrs);
    lemma_suffix_key_wf();
    let t = crate::transform::classify(attrs);
    let out = crate::transform::text_rewrite(attrs);
    if t.1.len() > 0 && t.2.len() > 0 {
        assert forall|i: int| 0 <= i < out.len() implies crate::attrs::wf_attr_key(
            (#[trigger] out[i]).key,
        ) by {
            if i < t.0.len() {
                assert(out[i] == t.0[i]);
                assert(crate::attrs::wf_attr_key(t.0[i].key));
            }
        }
    }
}

proof fn lemma_classify_wf_keys(attrs: Seq<AttrV>)
    requires
        crate::attrs::wf_attr_keys(attrs),
    ensures
        crate::attrs::wf_attr_keys(crate::transform::classify(attrs).0),
    decreases attrs.len(),
{
    if attrs.len() > 0 {
        assert(crate::attrs::wf_attr_keys(attrs.drop_last())) by {
            assert forall|i: int| 0 <= i < attrs.drop_last().len() implies crate::attrs::wf_attr_key(
                (#[trigger] attrs.drop_last()[i]).key,
            ) by {
                assert(attrs.drop_last()[i] == attrs[i]);
            }
        }
        lemma_classify_wf_keys(attrs.drop_last());
        let st = crate::transform::classify(attrs.drop_last());
        let a = attrs.last();
        assert(crate::attrs::wf_attr_key(a.key));
        let out = crate::transform::classify(attrs).0;
        assert forall|i: int| 0 <= i < out.len() implies crate::attrs::wf_attr_key(
            (#[trigger] out[i]).key,
        ) by {
            if out == st.0.push(a) {
                if i < st.0.len() {
                    assert(out[i] == st.0[i]);
                }
            }
        }
    }
}

/// Law: the `layout` rule keeps attribute order. The rewritten list carries
/// exactly the keys of the input, in the same order — with one `suffix` key
/// appended at the end when the input had none.
pub proof fn lemma_layout_rewrite_keeps_order(attrs: Seq<AttrV>)
    ensures
        crate::transform::has_suffix(attrs) ==> crate::transform::layout_rewrite(
            attrs,
        ).map_values(|a: AttrV| a.key) == attrs.map_values(|a: AttrV| a.key),
        !crate::transform::has_suffix(attrs) ==> crate::transform::layout_rewrite(
            attrs,
        ).map_values(|a: AttrV| a.key) == attrs.map_values(|a: AttrV| a.key).push(
            crate::names::suffix_s(),
        ),
{
    let out = crate::transform::layout_rewrite(attrs);
    if crate::transform::has_suffix(attrs) {
        assert(out.map_values(|a: AttrV| a.key) =~= attrs.map_values(|a: AttrV| a.key));
    } else {
        assert(out.map_values(|a: AttrV| a.key) =~= attrs.map_values(|a: AttrV| a.key).push(
            crate::names::suffix_s(),
        ));
    }
}

/// Law: a pass-through attribute of a rewritten `layout` — any attribute not
/// named `suffix` — reaches the rewritten list exactly as it stood in the
/// input, key and value; together with [`crate::attrs::lemma_escape_quot_identity`]
/// its bytes reach the output unchanged whenever they hold no double quote.
pub proof fn lemma_layout_pass_through_attrs(attrs: Seq<AttrV>, i: int)
    requires
        0 <= i < attrs.len(),
        attrs[i].key != crate::names::suffix_s(),
    ensures
        crate::transform::layout_rewrite(attrs)[i] == attrs[i],
{
    if crate::transform::has_suffix(attrs) {
        assert(crate::transform::layout_rewrite(attrs)[i] == crate::transform::rewrite_suffix(
            attrs[i],
        ));
    } else {
        assert(crate::transform::layout_rewrite(attrs)[i] == attrs[i]);
    }
}

/// Law: the accumulator asymmetry of the `text` rule. When either
/// accumulator ends up empty — for instance an existing `prefix` with no
/// suffix piece and no `font-style` marker — no `prefix` or `suffix`
/// attribute is emitted at all, even one that stood in the input: only the
/// pass-through attributes survive. (A `font-style` of `italic` or `bold`
/// feeds both accumulators, so it always makes both sides non-empty.)
pub proof fn lemma_text_rule_asymmetry(attrs: Seq<AttrV>)
    ensures
        crate::transform::classify(attrs).1.len() == 0 || crate::transform::classify(
            attrs,
        ).2.len() == 0 ==> crate::transform::text_rewrite(attrs) == crate::transform::classify(
            attrs,
        ).0,
{
}

/// The serialisation of a rewritten attribute list begins with a space (or
/// is empty), so the rewritten tag keeps its element name.
proof fn lemma_ser_attrs_shape(attrs: Seq<AttrV>)
    ensures
        crate::attrs::ser_attrs(attrs).len() == 0 || crate::events::is_ws(
            crate::attrs::ser_attrs(attrs)[0],
        ),
{
    if attrs.len() > 0 {
        assert(crate::attrs::ser_attrs(attrs)[0] == crate::attrs::ser_attr(attrs[0])[0]);
        assert(crate::attrs::ser_attr(attrs[0])[0] == crate::events::SP);
    }
}

/// Law: a rewritten `layout` tag has valid attribute syntax — its raw bytes
/// still name the `layout` element, and reading its attributes back yields
/// exactly the rewritten list, each value in escaped form. When the tag read
/// from the input holds no `>` (the reader yields no other kind,
/// [`lemma_lex_raws_no_gt`]), the rewritten tag holds none either: it is
/// delimited exactly where it is written.
pub proof fn lemma_layout_rewrite_syntax(raw: Seq<u8>)
    requires
        name_of(raw) == layout_s(),
        crate::attrs::parse_attrs(raw, name_of(raw).len() as int) is Some,
    ensures
        ({
            let attrs = crate::attrs::parse_attrs(raw, name_of(raw).len() as int)->Some_0;
            let out = crate::transform::layout_rewrite(attrs);
            let raw2 = layout_s() + crate::attrs::ser_attrs(out);
            &&& name_of(raw2) == layout_s()
            &&& crate::attrs::parse_attrs(raw2, name_of(raw2).len() as int) == Some(
                out.map_values(|a: crate::attrs::AttrV| crate::attrs::quoted_attr(a)),
            )
            &&& crate::attrs::no_gt(raw) ==> crate::attrs::no_gt(raw2)
        }),
{
    crate::events::lemma_name_end(raw, 0);
    let attrs = crate::attrs::parse_attrs(raw, name_of(raw).len() as int)->Some_0;
    crate::attrs::lemma_parse_attrs_wf_keys(raw, name_of(raw).len() as int);
    lemma_layout_rewrite_wf_keys(attrs);
    let out = crate::transform::layout_rewrite(attrs);
    let ser = crate::attrs::ser_attrs(out);
    let raw2 = layout_s() + ser;
    lemma_ser_attrs_shape(out);
    lemma_layout_name_bytes();
    lemma_name_of_extension(layout_s(), ser);
    assert(raw2.subrange(6, raw2.len() as int) =~= ser);
    crate::attrs::lemma_ser_attrs_reparse(raw2, 6, out);
    if crate::attrs::no_gt(raw) {
        crate::attrs::lemma_parse_attrs_no_gt(raw, name_of(raw).len() as int);
        lemma_names_no_gt();
        crate::attrs::lemma_escape_no_specials(crate::names::nl_ref_s());
        assert forall|i: int| 0 <= i < out.len() implies crate::attrs::no_gt(
            (#[trigger] out[i]).key,
        ) && crate::attrs::no_gt(out[i].value) by {
            if crate::transform::has_suffix(attrs) {
                assert(out[i] == crate::transform::rewrite_suffix(attrs[i]));
                assert(crate::attrs::no_gt(attrs[i].key));
                assert(crate::attrs::no_gt(attrs[i].value));
                if attrs[i].key == crate::names::suffix_s() {
                    crate::attrs::lemma_escape_no_specials(
                        attrs[i].value + crate::names::nl_ref_s(),
                    );
                }
            } else if i < attrs.len() {
                assert(out[i] == attrs[i]);
                assert(crate::attrs::no_gt(attrs[i].key));
                assert(crate::attrs::no_gt(attrs[i].value));
            }
        }
        crate::attrs::lemma_ser_attrs_no_gt(out);
        assert forall|t: int| 0 <= t < raw2.len() implies (#[trigger] raw2[t])
            != crate::events::GT by {
            if t < 6 {
                assert(raw2[t] == layout_s()[t]);
            } else {
                assert(raw2[t] == ser[t - 6]);
            }
        }
    }
}

proof fn lemma_names_no_gt()
    ensures
        crate::attrs::no_gt(crate::names::suffix_s()),
        crate::attrs::no_gt(crate::names::prefix_s()),
        crate::attrs::no_gt(layout_s()),
        crate::attrs::no_gt(text_s()),
{
    assert forall|j: int| 0 <= j < crate::names::suffix_s().len() implies (
    #[trigger] crate::names::suffix_s()[j]) != crate::events::GT by {
        assert(crate::names::suffix_s()[j] != 62u8);
    }
    assert forall|j: int| 0 <= j < crate::names::prefix_s().len() implies (
    #[trigger] crate::names::prefix_s()[j]) != crate::events::GT by {
        assert(crate::names::prefix_s()[j] != 62u8);
    }
    assert forall|j: int| 0 <= j < layout_s().len() implies (#[trigger] layout_s()[j])
        != crate::events::GT by {
        assert(layout_s()[j] != 62u8);
    }
    assert forall|j: int| 0 <= j < text_s().len() implies (#[trigger] text_s()[j])
        != crate::events::GT by {
        assert(text_s()[j] != 62u8);
    }
}

proof fn lemma_classify_no_gt(attrs: Seq<AttrV>)
    requires
        crate::attrs::no_gt_attrs(attrs),
    ensures
        crate::attrs::no_gt_attrs(crate::transform::classify(attrs).0),
    decreases attrs.len(),
{
    if attrs.len() > 0 {
        assert(crate::attrs::no_gt_attrs(attrs.drop_last())) by {
            assert(forall|i: int| 0 <= i < attrs.drop_last().len() ==> (
            #[trigger] attrs.drop_last()[i]) == attrs[i]);
        }
        lemma_classify_no_gt(attrs.drop_last());
        let st = crate::transform::classify(attrs.drop_last());
        let a = attrs.last();
        let out = crate::transform::classify(attrs).0;
        assert(crate::attrs::no_gt(a.key) && crate::attrs::no_gt(a.value));
        assert forall|i: int| 0 <= i < out.len() implies crate::attrs::no_gt(
            (#[trigger] out[i]).key,
        ) && crate::attrs::no_gt(out[i].value) by {
            if out == st.0.push(a) {
                if i < st.0.len() {
                    assert(out[i] == st.0[i]);
                }
            }
        }
    }
}

/// Law: a rewritten empty `text` tag has valid attribute syntax — its raw
/// bytes still name the `text` element, and reading its attributes back
/// yields exactly the rewritten list, each value in escaped form. As for
/// `layout`, a tag without `>` inside is rewritten to one without `>`.
pub proof fn lemma_text_rewrite_syntax(raw: Seq<u8>)
    requires
        name_of(raw) == text_s(),
        crate::attrs::parse_attrs(raw, name_of(raw).len() as int) is Some,
    ensures
        ({
            let attrs = crate::attrs::parse_attrs(raw, name_of(raw).len() as int)->Some_0;
            let out = crate::transform::text_rewrite(attrs);
            let raw2 = text_s() + crate::attrs::ser_attrs(out);
            &&& name_of(raw2) == text_s()
            &&& crate::attrs::parse_attrs(raw2, name_of(raw2).len() as int) == Some(
                out.map_values(|a: crate::attrs::AttrV| crate::attrs::quoted_attr(a)),
            )
            &&& crate::attrs::no_gt(raw) ==> crate::attrs::no_gt(raw2)
        }),
{
    crate::events::lemma_name_end(raw, 0);
    let attrs = crate::attrs::parse_attrs(raw, name_of(raw).len() as int)->Some_0;
    crate::attrs::lemma_parse_attrs_wf_keys(raw, name_of(raw).len() as int);
    lemma_text_rewrite_wf_keys(attrs);
    let out = crate::transform::text_rewrite(attrs);
    let ser = crate::attrs::ser_attrs(out);
    let raw2 = text_s() + ser;
    lemma_ser_attrs_shape(out);
    lemma_layout_name_bytes();
    lemma_name_of_extension(text_s(), ser);
    assert(raw2.subrange(4, raw2.len() as int) =~= ser);
    crate::attrs::lemma_ser_attrs_reparse(raw2, 4, out);
    if crate::attrs::no_gt(raw) {
        crate::attrs::lemma_parse_attrs_no_gt(raw, name_of(raw).len() as int);
        lemma_names_no_gt();
        lemma_classify_no_gt(attrs);
        let t = crate::transform::classify(attrs);
        crate::attrs::lemma_escape_no_specials(crate::transform::concat_all(t.1));
        crate::attrs::lemma_escape_no_specials(crate::transform::concat_all(t.2));
        assert forall|i: int| 0 <= i < out.len() implies crate::attrs::no_gt(
            (#[trigger] out[i]).key,
        ) && crate::attrs::no_gt(out[i].value) by {
            if t.1.len() > 0 && t.2.len() > 0 {
                if i < t.0.len() {
                    assert(out[i] == t.0[i]);
                }
            }
        }
        crate::attrs::lemma_ser_attrs_no_gt(out);
        assert forall|u: int| 0 <= u < raw2.len() implies (#[trigger] raw2[u])
            != crate::events::GT by {
            if u < 4 {
                assert(raw2[u] == text_s()[u]);
            } else {
                assert(raw2[u] == ser[u - 4]);
            }
        }
    }
}

proof fn lemma_layout_name_bytes()
    ensures
        forall|j: int| 0 <= j < layout_s().len() ==> !crate::events::is_ws(
            #[trigger] layout_s()[j],
        ),
        forall|j: int| 0 <= j < text_s().len() ==> !crate::events::is_ws(#[trigger] text_s()[j]),
{
    let l = layout_s();
    assert forall|j: int| 0 <= j < l.len() implies !crate::events::is_ws(#[trigger] l[j]) by {
        assert(l[0] == 108u8 && l[1] == 97u8 && l[2] == 121u8 && l[3] == 111u8 && l[4] == 117u8
            && l[5] == 116u8);
    }
    let t = text_s();
    assert forall|j: int| 0 <= j < t.len() implies !crate::events::is_ws(#[trigger] t[j]) by {
        assert(t[0] == 116u8 && t[1] == 101u8 && t[2] == 120u8 && t[3] == 116u8);
    }
}

/// Law: the rewrite keeps the event sequence balanced — on a well-formed
/// document it neither drops a closing tag nor opens an element it does not
/// close, so the output serialises to well-formed XML whenever the input
/// was well formed.
pub proof fn lemma_transform_preserves_balance(es: Seq<EventV>)
    requires
        balanced(es),
        transform_from(es, false) is Ok,
    ensures
        balanced(transform_from(es, false)->Ok_0),
{
    lemma_transform_from_balanced(es, Seq::empty(), false);
}

/// The scope flag after rewriting a sequence of events, starting from
/// `in_bib`; meaningful where the rewrite succeeds.
pub open spec fn flag_after(es: Seq<EventV>, in_bib: bool) -> bool
    decreases es.len(),
{
    if es.len() == 0 {
        in_bib
    } else {
        match transform_event(es[0], in_bib) {
            None => in_bib,
            Some((emit, b2)) => flag_after(es.skip(1), b2),
        }
    }
}

/// The rewrite of a concatenation: the first part rewritten from the
/// incoming flag, the second from the flag the first part leaves behind.
proof fn lemma_transform_concat(a: Seq<EventV>, b: Seq<EventV>, f: bool)
    requires
        transform_from(a, f) is Ok,
        transform_from(b, flag_after(a, f)) is Ok,
    ensures
        transform_from(a + b, f) is Ok,
    decreases a.len(),
{
    if a.len() == 0 {
        assert(a + b =~= b);
        assert(flag_after(a, f) == f);
    } else {
        let step = transform_event(a[0], f)->Some_0;
        let b2 = step.1;
        assert((a + b)[0] == a[0]);
        assert((a + b).skip(1) =~= a.skip(1) + b);
        assert(flag_after(a, f) == flag_after(a.skip(1), b2));
        lemma_transform_concat(a.skip(1), b, b2);
    }
}

proof fn lemma_transform_twice_from(es: Seq<EventV>, in_bib: bool)
    requires
        transform_from(es, in_bib) is Ok,
    ensures
        transform_from(transform_from(es, in_bib)->Ok_0, in_bib) is Ok,
        flag_after(transform_from(es, in_bib)->Ok_0, in_bib) == flag_after(es, in_bib),
    decreases es.len(),
{
    let out = transform_from(es, in_bib)->Ok_0;
    if es.len() == 0 {
        assert(out =~= Seq::<EventV>::empty());
    } else {
        let e = es[0];
        let step = transform_event(e, in_bib)->Some_0;
        let emit = step.0;
        let b2 = step.1;
        let orest = transform_from(es.skip(1), b2)->Ok_0;
        assert(out == emit + orest);
        lemma_transform_twice_from(es.skip(1), b2);
        // Rewriting what this event emitted succeeds and leaves the same
        // flag the first rewrite left.
        match e {
            EventV::Start(raw) => {
                crate::events::lemma_name_end(raw, 0);
                if name_of(raw) == layout_s() && in_bib && name_of(raw) != bibliography_s() {
                    lemma_layout_rewrite_syntax(raw);
                    let attrs = crate::attrs::parse_attrs(raw, name_of(raw).len() as int)->Some_0;
                    let raw2 = layout_s() + crate::attrs::ser_attrs(
                        crate::transform::layout_rewrite(attrs),
                    );
                    assert(emit == seq![EventV::Start(raw2)]);
                    assert(name_of(raw2) == layout_s());
                    assert(layout_s() != bibliography_s());
                    assert(transform_event(EventV::Start(raw2), in_bib) is Some);
                    assert(transform_event(emit[0], in_bib)->Some_0.1 == in_bib);
                } else {
                    assert(emit == seq![e]);
                }
            },
            EventV::End(raw) => {
                if raw == title_s() || raw == title_short_s() || raw == id_s() {
                    assert(emit.len() == 2 && emit[0] is Text && emit[1] == e);
                } else {
                    assert(emit == seq![e]);
                }
            },
            EventV::Empty(raw) => {
                crate::events::lemma_name_end(raw, 0);
                if name_of(raw) == text_s() {
                    lemma_text_rewrite_syntax(raw);
                    let attrs = crate::attrs::parse_attrs(raw, name_of(raw).len() as int)->Some_0;
                    let raw2 = text_s() + crate::attrs::ser_attrs(
                        crate::transform::text_rewrite(attrs),
                    );
                    assert(emit == seq![EventV::Empty(raw2)]);
                    assert(name_of(raw2) == text_s());
                    assert(transform_event(EventV::Empty(raw2), in_bib) is Some);
                    assert(transform_event(emit[0], in_bib)->Some_0.1 == in_bib);
                } else {
                    assert(emit == seq![e]);
                }
            },
            EventV::Text(_) => {
                assert(emit == seq![e]);
            },
            EventV::Other(_) => {
                assert(emit == seq![e]);
            },
        }
        if emit.len() == 1 {
            assert(emit.skip(1) =~= Seq::<EventV>::empty());
            assert(transform_event(emit[0], in_bib) is Some);
            assert(transform_event(emit[0], in_bib)->Some_0.1 == b2);
            assert(transform_from(emit.skip(1), b2) == Ok::<Seq<EventV>, int>(
                Seq::<EventV>::empty(),
            ));
            assert(transform_from(emit, in_bib) is Ok);
            assert(flag_after(emit.skip(1), b2) == b2);
            assert(flag_after(emit, in_bib) == b2);
        } else {
            assert(emit.len() == 2);
            assert(emit.skip(1) =~= seq![emit[1]]);
            assert(emit.skip(1).skip(1) =~= Seq::<EventV>::empty());
            assert(transform_event(emit[0], in_bib) == Some((seq![emit[0]], in_bib)));
            assert(transform_event(emit[1], in_bib) is Some);
            assert(transform_event(emit[1], in_bib)->Some_0.1 == b2);
            assert(transform_from(emit.skip(1).skip(1), b2) == Ok::<Seq<EventV>, int>(
                Seq::<EventV>::empty(),
            ));
            assert(transform_from(emit.skip(1), in_bib) is Ok);
            assert(flag_after(emit.skip(1).skip(1), b2) == b2);
            assert(flag_after(emit.skip(1), in_bib) == b2);
            assert(transform_from(emit, in_bib) is Ok);
            assert(flag_after(emit, in_bib) == b2);
        }
        lemma_transform_concat(emit, orest, in_bib);
        assert(flag_after(out, in_bib) == flag_after(orest, b2)) by {
            lemma_flag_after_concat(emit, orest, in_bib);
        }
    }
}

/// The flag after a concatenation threads through its parts.
proof fn lemma_flag_after_concat(a: Seq<EventV>, b: Seq<EventV>, f: bool)
    requires
        transform_from(a, f) is Ok,
    ensures
        flag_after(a + b, f) == flag_after(b, flag_after(a, f)),
    decreases a.len(),
{
    if a.len() == 0 {
        assert(a + b =~= b);
    } else {
        let step = transform_event(a[0], f)->Some_0;
        assert((a + b)[0] == a[0]);
        assert((a + b).skip(1) =~= a.skip(1) + b);
        lemma_flag_after_concat(a.skip(1), b, step.1);
    }
}

/// Law: the rewrite is additive, not idempotent — and deliberately so. Its
/// own event output is again a stream it accepts: every rewritten tag's
/// attributes read back, so applying the rewrite a second time succeeds (and
/// inserts a second set of markers rather than stabilising).
pub proof fn lemma_second_rewrite_succeeds(es: Seq<EventV>)
    requires
        transform_from(es, false) is Ok,
    ensures
        transform_from(transform_from(es, false)->Ok_0, false) is Ok,
{
    lemma_transform_twice_from(es, false);
}

/// Law: whenever the whole pipeline accepts a buffer, the event sequence it
/// serialises as output is balanced — the document invariant: a well-formed
/// input yields well-formed output.
pub proof fn lemma_output_events_balanced(s: Seq<u8>)
    requires
        lex(s) is Ok,
        transform_from(lex(s)->Ok_0, false) is Ok,
    ensures
        balanced(transform_from(lex(s)->Ok_0, false)->Ok_0),
{
    lemma_lex_balanced(s);
    lemma_transform_preserves_balance(lex(s)->Ok_0);
}

} // verus!
