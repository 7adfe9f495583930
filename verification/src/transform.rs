//! The tag rewrite rules: the dispatch on element name, event kind and the
//! bibliography scope flag, and the rewriting of `layout` and `text`
//! attribute lists.

use vstd::prelude::*;
use vstd::slice::{slice_subrange, slice_to_vec};

use crate::attrs::{
    attr_views, escape, parse_attrs, parse_attrs_exec, ser_attrs, ser_attrs_into, Attr, AttrV,
};
use crate::events::{bytes_eq, name_end_exec, name_of, views_of, Event, EventV};
use crate::names::{
    bibliography_s, bibliography_v, bold_s, bold_v, font_style_s, font_style_v, id_s, id_v,
    italic_s, italic_v, layout_s, layout_v, md_s, md_v, nl_ref_s, nl_ref_v, prefix_s, prefix_v,
    slash_md_s, slash_md_v, stars_s, stars_v, suffix_s, suffix_v, text_s, text_v, title_s,
    title_short_s, title_short_v, title_v, underscore_s, underscore_v,
};

verus! {

/// Whether an attribute named `suffix` occurs in the list.
pub open spec fn has_suffix(attrs: Seq<AttrV>) -> bool {
    exists|i: int| 0 <= i < attrs.len() && (#[trigger] attrs[i]).key == suffix_s()
}

/// The edit the `layout` rule makes to one attribute: a `suffix` value gets
/// the newline reference `&#10;` appended and the whole new value is
/// escaped (so the appended `&` leaves as `&amp;`); everything else is
/// untouched, bytes and all.
pub open spec fn rewrite_suffix(a: AttrV) -> AttrV {
    if a.key == suffix_s() {
        AttrV { key: a.key, value: escape(a.value + nl_ref_s()) }
    } else {
        a
    }
}

/// The `layout` start-tag rule, applied only inside `bibliography`: when a
/// `suffix` attribute exists its value gets `&#10;` appended (all other
/// attributes pass through unchanged, in order); when none exists one with
/// value `&#10;` is added after the attributes given.
pub open spec fn layout_rewrite(attrs: Seq<AttrV>) -> Seq<AttrV> {
    if has_suffix(attrs) {
        attrs.map_values(|a: AttrV| rewrite_suffix(a))
    } else {
        attrs.push(AttrV { key: suffix_s(), value: escape(nl_ref_s()) })
    }
}

/// One step of the `text` rule's classification: the state is the
/// pass-through attributes, the prefix accumulator and the suffix
/// accumulator. An existing `prefix` or `suffix` value is appended to its
/// accumulator; `font-style="italic"` prepends `_` to the prefix accumulator
/// and appends `_` to the suffix accumulator, `font-style="bold"` does the
/// same with `**`; `font-style` itself and every other attribute pass
/// through.
pub open spec fn classify_step(
    st: (Seq<AttrV>, Seq<Seq<u8>>, Seq<Seq<u8>>),
    a: AttrV,
) -> (Seq<AttrV>, Seq<Seq<u8>>, Seq<Seq<u8>>) {
    if a.key == prefix_s() {
        (st.0, st.1.push(a.value), st.2)
    } else if a.key == suffix_s() {
        (st.0, st.1, st.2.push(a.value))
    } else if a.key == font_style_s() {
        if a.value == italic_s() {
            (st.0.push(a), seq![underscore_s()] + st.1, st.2.push(underscore_s()))
        } else if a.value == bold_s() {
            (st.0.push(a), seq![stars_s()] + st.1, st.2.push(stars_s()))
        } else {
            (st.0.push(a), st.1, st.2)
        }
    } else {
        (st.0.push(a), st.1, st.2)
    }
}

/// The classification of a whole attribute list, attribute by attribute in
/// input order.
pub open spec fn classify(attrs: Seq<AttrV>) -> (Seq<AttrV>, Seq<Seq<u8>>, Seq<Seq<u8>>)
    decreases attrs.len(),
{
    if attrs.len() == 0 {
        (Seq::empty(), Seq::empty(), Seq::empty())
    } else {
        classify_step(classify(attrs.drop_last()), attrs.last())
    }
}

/// Concatenation of the pieces of an accumulator, in accumulation order.
pub open spec fn concat_all(ss: Seq<Seq<u8>>) -> Seq<u8>
    decreases ss.len(),
{
    if ss.len() == 0 {
        Seq::empty()
    } else {
        ss[0] + concat_all(ss.skip(1))
    }
}

pub proof fn lemma_concat_all_push(ss: Seq<Seq<u8>>, v: Seq<u8>)
    ensures
        concat_all(ss.push(v)) == concat_all(ss) + v,
    decreases ss.len(),
{
    if ss.len() == 0 {
        assert(ss.push(v)[0] == v);
        assert(ss.push(v).skip(1) =~= Seq::<Seq<u8>>::empty());
        assert(concat_all(ss.push(v)) == v + concat_all(Seq::<Seq<u8>>::empty()));
        assert(v + Seq::<u8>::empty() =~= v);
        assert(concat_all(ss) + v =~= v);
    } else {
        assert(ss.push(v).skip(1) =~= ss.skip(1).push(v));
        lemma_concat_all_push(ss.skip(1), v);
        assert(concat_all(ss.push(v)) == ss[0] + (concat_all(ss.skip(1)) + v));
        assert(ss[0] + (concat_all(ss.skip(1)) + v) =~= (ss[0] + concat_all(ss.skip(1))) + v);
    }
}

/// The `text` empty-tag rule: classify the attributes; when both
/// accumulators end up non-empty, the pass-through attributes are followed
/// by a `prefix` and a `suffix` attribute holding the concatenated pieces in
/// escaped form;
/// when either accumulator is empty, only the pass-through attributes are
/// emitted — an existing `prefix` or `suffix` is then dropped.
pub open spec fn text_rewrite(attrs: Seq<AttrV>) -> Seq<AttrV> {
    let t = classify(attrs);
    if t.1.len() > 0 && t.2.len() > 0 {
        t.0 + seq![
            AttrV { key: prefix_s(), value: escape(concat_all(t.1)) },
            AttrV { key: suffix_s(), value: escape(concat_all(t.2)) },
        ]
    } else {
        t.0
    }
}

/// The dispatch table: what one event becomes, and the scope flag after it.
///
/// - a `bibliography` start or end toggles the scope flag and passes through;
/// - a `title` or `title-short` end gains the text `_MD_` before it, an `id`
///   end gains `/_MD_`;
/// - a `layout` start inside `bibliography` has its attributes rewritten by
///   [`layout_rewrite`] and is re-serialised;
/// - an empty `text` tag has its attributes rewritten by [`text_rewrite`]
///   and is re-serialised;
/// - everything else passes through unchanged, byte for byte.
///
/// `None` when a rule must read the attributes and they do not parse.
pub open spec fn transform_event(e: EventV, in_bib: bool) -> Option<(Seq<EventV>, bool)> {
    match e {
        EventV::Start(raw) => if name_of(raw) == bibliography_s() {
            Some((seq![e], true))
        } else if name_of(raw) == layout_s() && in_bib {
            match parse_attrs(raw, name_of(raw).len() as int) {
                None => None,
                Some(attrs) => Some(
                    (seq![EventV::Start(layout_s() + ser_attrs(layout_rewrite(attrs)))], in_bib),
                ),
            }
        } else {
            Some((seq![e], in_bib))
        },
        EventV::End(raw) => if raw == title_s() || raw == title_short_s() {
            Some((seq![EventV::Text(md_s()), e], in_bib))
        } else if raw == id_s() {
            Some((seq![EventV::Text(slash_md_s()), e], in_bib))
        } else if raw == bibliography_s() {
            Some((seq![e], false))
        } else {
            Some((seq![e], in_bib))
        },
        EventV::Empty(raw) => if name_of(raw) == text_s() {
            match parse_attrs(raw, name_of(raw).len() as int) {
                None => None,
                Some(attrs) => Some(
                    (seq![EventV::Empty(text_s() + ser_attrs(text_rewrite(attrs)))], in_bib),
                ),
            }
        } else {
            Some((seq![e], in_bib))
        },
        EventV::Text(_) => Some((seq![e], in_bib)),
        EventV::Other(_) => Some((seq![e], in_bib)),
    }
}

/// The whole event stream rewritten, threading the scope flag through:
/// `Err` with the index of the first refused event as soon as one event's
/// attributes do not parse.
pub open spec fn transform_from(es: Seq<EventV>, in_bib: bool) -> Result<Seq<EventV>, int>
    decreases es.len(),
{
    if es.len() == 0 {
        Ok(Seq::empty())
    } else {
        match transform_event(es[0], in_bib) {
            None => Err(0),
            Some((emit, b2)) => match transform_from(es.skip(1), b2) {
                Err(j) => Err(j + 1),
                Ok(rest) => Ok(emit + rest),
            },
        }
    }
}

/// Concatenation of an already-rewritten prefix of `shift` events with the
/// rest, moving a failure's index up by the events already passed.
pub open spec fn tf_cat(p: Seq<EventV>, shift: int, rest: Result<Seq<EventV>, int>) -> Result<
    Seq<EventV>,
    int,
> {
    match rest {
        Ok(r) => Ok(p + r),
        Err(j) => Err(shift + j),
    }
}

proof fn lemma_tf_cat_step(p: Seq<EventV>, shift: int, emit: Seq<EventV>, rest: Result<
    Seq<EventV>,
    int,
>)
    ensures
        tf_cat(
            p,
            shift,
            match rest {
                Ok(r) => Ok::<Seq<EventV>, int>(emit + r),
                Err(j) => Err::<Seq<EventV>, int>(j + 1),
            },
        ) == tf_cat(p + emit, shift + 1, rest),
{
    match rest {
        Ok(r) => {
            assert(p + (emit + r) =~= (p + emit) + r);
        },
        Err(_) => {},
    }
}

/// A copy of a byte vector.
fn copy_bytes(v: &Vec<u8>) -> (r: Vec<u8>)
    ensures
        r@ == v@,
{
    slice_to_vec(v.as_slice())
}

/// A copy of an attribute.
fn copy_attr(a: &Attr) -> (r: Attr)
    ensures
        r@ == a@,
{
    Attr { key: copy_bytes(&a.key), value: copy_bytes(&a.value) }
}

/// A copy of an event.
fn copy_event(e: &Event) -> (r: Event)
    ensures
        r@ == e@,
{
    match e {
        Event::Start(raw) => Event::Start(copy_bytes(raw)),
        Event::End(raw) => Event::End(copy_bytes(raw)),
        Event::Empty(raw) => Event::Empty(copy_bytes(raw)),
        Event::Text(raw) => Event::Text(copy_bytes(raw)),
        Event::Other(raw) => Event::Other(copy_bytes(raw)),
    }
}

/// The exec counterpart of [`layout_rewrite`].
fn layout_rewrite_exec(attrs: &Vec<Attr>) -> (r: Vec<Attr>)
    ensures
        attr_views(r@) == layout_rewrite(attr_views(attrs@)),
{
    let ghost vt = attr_views(attrs@);
    let n = attrs.len();
    let suffix_name = suffix_v();
    let mut has: bool = false;
    let mut i: usize = 0;
    proof {
        assert(!has_suffix(vt.take(0)));
    }
    while i < n
        invariant
            0 <= i <= n,
            n == attrs@.len(),
            vt == attr_views(attrs@),
            suffix_name@ == suffix_s(),
            has == has_suffix(vt.take(i as int)),
        decreases n - i,
    {
        let a = &attrs[i];
        if bytes_eq(a.key.as_slice(), suffix_name.as_slice()) {
            proof {
                assert(vt.take(i as int + 1)[i as int].key == suffix_s());
            }
            has = true;
        } else {
            proof {
                assert(vt.take(i as int + 1)[i as int].key != suffix_s());
                if has_suffix(vt.take(i as int + 1)) {
                    let j = choose|j: int|
                        0 <= j < vt.take(i as int + 1).len() && (#[trigger] vt.take(
                            i as int + 1,
                        )[j]).key == suffix_s();
                    assert(vt.take(i as int)[j] == vt.take(i as int + 1)[j]);
                }
            }
        }
        proof {
            if has_suffix(vt.take(i as int)) {
                let j = choose|j: int|
                    0 <= j < vt.take(i as int).len() && (#[trigger] vt.take(i as int)[j]).key
                        == suffix_s();
                assert(vt.take(i as int + 1)[j] == vt.take(i as int)[j]);
                assert(has_suffix(vt.take(i as int + 1)));
            }
        }
        i = i + 1;
    }
    proof {
        assert(vt.take(n as int) =~= vt);
    }
    let mut out: Vec<Attr> = Vec::new();
    if has {
        let mut i: usize = 0;
        proof {
            assert(attr_views(out@) =~= vt.take(0).map_values(|a: AttrV| rewrite_suffix(a)));
        }
        while i < n
            invariant
                0 <= i <= n,
                n == attrs@.len(),
                vt == attr_views(attrs@),
                suffix_name@ == suffix_s(),
                attr_views(out@) == vt.take(i as int).map_values(|a: AttrV| rewrite_suffix(a)),
            decreases n - i,
        {
            let a = &attrs[i];
            let ghost av = vt[i as int];
            let na: Attr;
            if bytes_eq(a.key.as_slice(), suffix_name.as_slice()) {
                let mut appended = copy_bytes(&a.value);
                let nl = nl_ref_v();
                crate::events::append_bytes(&mut appended, nl.as_slice());
                let mut value: Vec<u8> = Vec::new();
                crate::attrs::escape_into(&mut value, appended.as_slice());
                assert(value@ =~= escape(av.value + nl_ref_s()));
                na = Attr { key: copy_bytes(&a.key), value };
            } else {
                na = copy_attr(a);
            }
            proof {
                assert(na@ == rewrite_suffix(av));
                assert(attr_views(out@.push(na)) =~= attr_views(out@).push(na@));
                assert(vt.take(i as int + 1).map_values(|a: AttrV| rewrite_suffix(a)) =~= vt.take(
                    i as int,
                ).map_values(|a: AttrV| rewrite_suffix(a)).push(rewrite_suffix(av)));
            }
            out.push(na);
            i = i + 1;
        }
        proof {
            assert(vt.take(n as int) =~= vt);
        }
        out
    } else {
        let mut i: usize = 0;
        proof {
            assert(attr_views(out@) =~= vt.take(0));
        }
        while i < n
            invariant
                0 <= i <= n,
                n == attrs@.len(),
                vt == attr_views(attrs@),
                attr_views(out@) == vt.take(i as int),
            decreases n - i,
        {
            let na = copy_attr(&attrs[i]);
            proof {
                assert(attr_views(out@.push(na)) =~= attr_views(out@).push(na@));
                assert(vt.take(i as int + 1) =~= vt.take(i as int).push(vt[i as int]));
            }
            out.push(na);
            i = i + 1;
        }
        let nl = nl_ref_v();
        let mut value: Vec<u8> = Vec::new();
        crate::attrs::escape_into(&mut value, nl.as_slice());
        assert(value@ =~= escape(nl_ref_s()));
        let na = Attr { key: suffix_v(), value };
        proof {
            assert(vt.take(n as int) =~= vt);
            assert(attr_views(out@.push(na)) =~= attr_views(out@).push(na@));
            assert(na@ == AttrV { key: suffix_s(), value: escape(nl_ref_s()) });
        }
        out.push(na);
        out
    }
}

/// The exec counterpart of [`concat_all`].
fn concat_all_exec(ss: &Vec<Vec<u8>>) -> (r: Vec<u8>)
    ensures
        r@ == concat_all(crate::lexer::stack_views(ss@)),
{
    let ghost sv = crate::lexer::stack_views(ss@);
    let n = ss.len();
    let mut out: Vec<u8> = Vec::new();
    let mut i: usize = 0;
    proof {
        assert(sv.take(0) =~= Seq::<Seq<u8>>::empty());
        assert(out@ =~= concat_all(sv.take(0)));
    }
    while i < n
        invariant
            0 <= i <= n,
            n == ss@.len(),
            sv == crate::lexer::stack_views(ss@),
            out@ == concat_all(sv.take(i as int)),
        decreases n - i,
    {
        crate::events::append_bytes(&mut out, ss[i].as_slice());
        proof {
            lemma_concat_all_push(sv.take(i as int), sv[i as int]);
            assert(sv.take(i as int).push(sv[i as int]) =~= sv.take(i as int + 1));
        }
        i = i + 1;
    }
    proof {
        assert(sv.take(n as int) =~= sv);
    }
    out
}

/// The exec counterpart of [`classify`] followed by the both-sides check of
/// [`text_rewrite`].
fn text_rewrite_exec(attrs: &Vec<Attr>) -> (r: Vec<Attr>)
    ensures
        attr_views(r@) == text_rewrite(attr_views(attrs@)),
{
    let ghost vt = attr_views(attrs@);
    let n = attrs.len();
    let prefix_name = prefix_v();
    let suffix_name = suffix_v();
    let font_style_name = font_style_v();
    let italic_val = italic_v();
    let bold_val = bold_v();
    let mut pass: Vec<Attr> = Vec::new();
    let mut pre: Vec<Vec<u8>> = Vec::new();
    let mut suf: Vec<Vec<u8>> = Vec::new();
    let mut i: usize = 0;
    proof {
        assert(vt.take(0) =~= Seq::<AttrV>::empty());
        assert(attr_views(pass@) =~= Seq::<AttrV>::empty());
        assert(crate::lexer::stack_views(pre@) =~= Seq::<Seq<u8>>::empty());
        assert(crate::lexer::stack_views(suf@) =~= Seq::<Seq<u8>>::empty());
    }
    while i < n
        invariant
            0 <= i <= n,
            n == attrs@.len(),
            vt == attr_views(attrs@),
            prefix_name@ == prefix_s(),
            suffix_name@ == suffix_s(),
            font_style_name@ == font_style_s(),
            italic_val@ == italic_s(),
            bold_val@ == bold_s(),
            (
                attr_views(pass@),
                crate::lexer::stack_views(pre@),
                crate::lexer::stack_views(suf@),
            ) == classify(vt.take(i as int)),
        decreases n - i,
    {
        let ghost st = classify(vt.take(i as int));
        let a = &attrs[i];
        let ghost av = vt[i as int];
        if bytes_eq(a.key.as_slice(), prefix_name.as_slice()) {
            let piece = copy_bytes(&a.value);
            proof {
                assert(crate::lexer::stack_views(pre@.push(piece)) =~= crate::lexer::stack_views(
                    pre@,
                ).push(av.value));
            }
            pre.push(piece);
        } else if bytes_eq(a.key.as_slice(), suffix_name.as_slice()) {
            let piece = copy_bytes(&a.value);
            proof {
                assert(crate::lexer::stack_views(suf@.push(piece)) =~= crate::lexer::stack_views(
                    suf@,
                ).push(av.value));
            }
            suf.push(piece);
        } else if bytes_eq(a.key.as_slice(), font_style_name.as_slice()) {
            if bytes_eq(a.value.as_slice(), italic_val.as_slice()) {
                let u1 = underscore_v();
                let u2 = underscore_v();
                proof {
                    assert(crate::lexer::stack_views(pre@.insert(0, u1)) =~= seq![underscore_s()]
                        + crate::lexer::stack_views(pre@));
                    assert(crate::lexer::stack_views(suf@.push(u2)) =~= crate::lexer::stack_views(
                        suf@,
                    ).push(underscore_s()));
                }
                pre.insert(0, u1);
                suf.push(u2);
            } else if bytes_eq(a.value.as_slice(), bold_val.as_slice()) {
                let s1 = stars_v();
                let s2 = stars_v();
                proof {
                    assert(crate::lexer::stack_views(pre@.insert(0, s1)) =~= seq![stars_s()]
                        + crate::lexer::stack_views(pre@));
                    assert(crate::lexer::stack_views(suf@.push(s2)) =~= crate::lexer::stack_views(
                        suf@,
                    ).push(stars_s()));
                }
                pre.insert(0, s1);
                suf.push(s2);
            }
            let na = copy_attr(a);
            proof {
                assert(attr_views(pass@.push(na)) =~= attr_views(pass@).push(av));
            }
            pass.push(na);
        } else {
            let na = copy_attr(a);
            proof {
                assert(attr_views(pass@.push(na)) =~= attr_views(pass@).push(av));
            }
            pass.push(na);
        }
        proof {
            assert(vt.take(i as int + 1).drop_last() =~= vt.take(i as int));
            assert(vt.take(i as int + 1).last() == av);
            assert(classify(vt.take(i as int + 1)) == classify_step(st, av));
        }
        i = i + 1;
    }
    proof {
        assert(vt.take(n as int) =~= vt);
    }
    if pre.len() > 0 && suf.len() > 0 {
        let pre_cat = concat_all_exec(&pre);
        let mut pre_val: Vec<u8> = Vec::new();
        crate::attrs::escape_into(&mut pre_val, pre_cat.as_slice());
        let suf_cat = concat_all_exec(&suf);
        let mut suf_val: Vec<u8> = Vec::new();
        crate::attrs::escape_into(&mut suf_val, suf_cat.as_slice());
        let ghost t = classify(vt);
        assert(pre_val@ =~= escape(concat_all(t.1)));
        assert(suf_val@ =~= escape(concat_all(t.2)));
        let pa = Attr { key: prefix_v(), value: pre_val };
        let sa = Attr { key: suffix_v(), value: suf_val };
        let mut out = pass;
        proof {
            assert(attr_views(out@.push(pa).push(sa)) =~= t.0 + seq![
                AttrV { key: prefix_s(), value: escape(concat_all(t.1)) },
                AttrV { key: suffix_s(), value: escape(concat_all(t.2)) },
            ]);
        }
        out.push(pa);
        out.push(sa);
        out
    } else {
        pass
    }
}

/// Rewrites a whole event stream, starting outside any `bibliography`.
///
/// Returns exactly what [`transform_from`] describes: `Ok` with the
/// rewritten events, or `Err` with the index of the event whose attributes a
/// rule needed and could not parse.
pub fn transform_events(es: &Vec<Event>) -> (r: Result<Vec<Event>, usize>)
    ensures
        match r {
            Ok(out) => transform_from(views_of(es@), false) == Ok::<Seq<EventV>, int>(
                views_of(out@),
            ),
            Err(i) => transform_from(views_of(es@), false) == Err::<Seq<EventV>, int>(i as int)
                && i < es@.len(),
        },
{
    let ghost evs = views_of(es@);
    let n = es.len();
    let bibliography_name = bibliography_v();
    let layout_name = layout_v();
    let text_name = text_v();
    let title_name = title_v();
    let title_short_name = title_short_v();
    let id_name = id_v();
    let mut out: Vec<Event> = Vec::new();
    let mut bib: bool = false;
    let mut i: usize = 0;
    proof {
        assert(views_of(out@) =~= Seq::<EventV>::empty());
        assert(evs.skip(0) =~= evs);
        match transform_from(evs, false) {
            Ok(r) => {
                assert(views_of(out@) + r =~= r);
            },
            Err(_) => {},
        }
    }
    while i < n
        invariant
            0 <= i <= n,
            n == es@.len(),
            evs == views_of(es@),
            bibliography_name@ == bibliography_s(),
            layout_name@ == layout_s(),
            text_name@ == text_s(),
            title_name@ == title_s(),
            title_short_name@ == title_short_s(),
            id_name@ == id_s(),
            transform_from(evs, false) == tf_cat(
                views_of(out@),
                i as int,
                transform_from(evs.skip(i as int), bib),
            ),
        decreases n - i,
    {
        let ghost rest = evs.skip(i as int);
        let ghost outv = views_of(out@);
        proof {
            assert(rest[0] == evs[i as int]);
            assert(rest.skip(1) =~= evs.skip(i as int + 1));
        }
        let e = &es[i];
        let ghost ev = evs[i as int];
        // What this event becomes, and the flag after it.
        let mut emitted: Vec<Event> = Vec::new();
        let bib2: bool;
        match e {
            Event::Start(raw) => {
                let k = name_end_exec(raw.as_slice());
                proof {
                    crate::events::lemma_name_end(raw@, 0);
                }
                let name = slice_subrange(raw.as_slice(), 0, k);
                assert(name@ == name_of(raw@));
                if bytes_eq(name, bibliography_name.as_slice()) {
                    emitted.push(copy_event(e));
                    bib2 = true;
                } else if bib && bytes_eq(name, layout_name.as_slice()) {
                    match parse_attrs_exec(raw.as_slice(), k) {
                        Err(_) => {
                            assert(transform_event(ev, bib) is None);
                            assert(transform_from(rest, bib) == Err::<Seq<EventV>, int>(0));
                            return Err(i);
                        },
                        Ok(attrs) => {
                            let new_attrs = layout_rewrite_exec(&attrs);
                            let mut new_raw = layout_v();
                            ser_attrs_into(&mut new_raw, &new_attrs);
                            assert(new_raw@ == layout_s() + ser_attrs(
                                layout_rewrite(attr_views(attrs@)),
                            ));
                            emitted.push(Event::Start(new_raw));
                            bib2 = bib;
                        },
                    }
                } else {
                    emitted.push(copy_event(e));
                    bib2 = bib;
                }
            },
            Event::End(raw) => {
                if bytes_eq(raw.as_slice(), title_name.as_slice()) || bytes_eq(
                    raw.as_slice(),
                    title_short_name.as_slice(),
                ) {
                    emitted.push(Event::Text(md_v()));
                    emitted.push(copy_event(e));
                    bib2 = bib;
                } else if bytes_eq(raw.as_slice(), id_name.as_slice()) {
                    emitted.push(Event::Text(slash_md_v()));
                    emitted.push(copy_event(e));
                    bib2 = bib;
                } else if bytes_eq(raw.as_slice(), bibliography_name.as_slice()) {
                    emitted.push(copy_event(e));
                    bib2 = false;
                } else {
                    emitted.push(copy_event(e));
                    bib2 = bib;
                }
            },
            Event::Empty(raw) => {
                let k = name_end_exec(raw.as_slice());
                proof {
                    crate::events::lemma_name_end(raw@, 0);
                }
                let name = slice_subrange(raw.as_slice(), 0, k);
                assert(name@ == name_of(raw@));
                if bytes_eq(name, text_name.as_slice()) {
                    match parse_attrs_exec(raw.as_slice(), k) {
                        Err(_) => {
                            assert(transform_event(ev, bib) is None);
                            assert(transform_from(rest, bib) == Err::<Seq<EventV>, int>(0));
                            return Err(i);
                        },
                        Ok(attrs) => {
                            let new_attrs = text_rewrite_exec(&attrs);
                            let mut new_raw = text_v();
                            ser_attrs_into(&mut new_raw, &new_attrs);
                            assert(new_raw@ == text_s() + ser_attrs(
                                text_rewrite(attr_views(attrs@)),
                            ));
                            emitted.push(Event::Empty(new_raw));
                            bib2 = bib;
                        },
                    }
                } else {
                    emitted.push(copy_event(e));
                    bib2 = bib;
                }
            },
            Event::Text(_) => {
                emitted.push(copy_event(e));
                bib2 = bib;
            },
            Event::Other(_) => {
                emitted.push(copy_event(e));
                bib2 = bib;
            },
        }
        proof {
            assert(transform_event(ev, bib) == Some((views_of(emitted@), bib2)));
            assert(transform_from(rest, bib) == (match transform_from(evs.skip(i as int + 1), bib2) {
                Err(j) => Err::<Seq<EventV>, int>(j + 1),
                Ok(r) => Ok::<Seq<EventV>, int>(views_of(emitted@) + r),
            }));
            lemma_tf_cat_step(
                outv,
                i as int,
                views_of(emitted@),
                transform_from(evs.skip(i as int + 1), bib2),
            );
        }
        let ghost emv = views_of(emitted@);
        let mut j: usize = 0;
        let m = emitted.len();
        proof {
            assert(views_of(out@) + emv.take(0) =~= views_of(out@));
        }
        while j < m
            invariant
                0 <= j <= m,
                m == emitted@.len(),
                emv == views_of(emitted@),
                views_of(out@) == outv + emv.take(j as int),
            decreases m - j,
        {
            let ce = copy_event(&emitted[j]);
            proof {
                assert(views_of(out@.push(ce)) =~= views_of(out@).push(emv[j as int]));
                assert((outv + emv.take(j as int)).push(emv[j as int]) =~= outv + emv.take(
                    j as int + 1,
                ));
            }
            out.push(ce);
            j = j + 1;
        }
        proof {
            assert(emv.take(m as int) =~= emv);
            assert(views_of(out@) =~= outv + emv);
        }
        bib = bib2;
        i = i + 1;
    }
    proof {
        assert(evs.skip(n as int) =~= Seq::<EventV>::empty());
        assert(transform_from(evs.skip(n as int), bib) == Ok::<Seq<EventV>, int>(
            Seq::<EventV>::empty(),
        ));
        assert(views_of(out@) + Seq::<EventV>::empty() =~= views_of(out@));
    }
    Ok(out)
}

} // verus!
