//! The event stream reader: splits a byte buffer into structural XML events.
//!
//! The reader is forward-only and keeps every construct's raw bytes, so that
//! serialising an untouched event reproduces its input bytes exactly. A
//! buffer that is not well formed (a tag or comment never closed, an end tag
//! that does not match the open element, an element left open at the end of
//! the buffer) is a fatal error carrying the byte offset at which it was
//! found; no partial event sequence is returned.

use vstd::prelude::*;
use vstd::slice::{slice_subrange, slice_to_vec};

use crate::events::{
    is_ws, name_of, views_of, Event, EventV, LT, GT, SLASH, BANG, QUEST, DASH,
};

verus! {

/// Why a buffer failed to split into events, or to rewrite.
#[derive(Clone, Copy, PartialEq, Eq, Structural, Debug)]
pub enum XmlErrorKind {
    /// A `<` was never closed by a `>`.
    UnclosedTag,
    /// A `<!--` was never closed by a `-->`.
    UnclosedComment,
    /// A tag with no name, such as `<>` or `< a>`.
    EmptyTagName,
    /// An end tag that does not match the innermost open element.
    MismatchedEndTag,
    /// The buffer ended while elements were still open.
    UnclosedElement,
    /// A `layout` or `text` element whose attributes do not parse.
    MalformedAttributes,
}

/// A fatal error: the input is not well formed.
///
/// The position is the byte offset in the input at which the offending
/// construct starts; for `MalformedAttributes` that is the offset of the
/// rewritten element's own tag.
#[derive(Clone, Copy, PartialEq, Eq, Structural, Debug)]
pub struct XmlError {
    pub position: usize,
    pub kind: XmlErrorKind,
}

/// First position `i >= from` with `s[i] == b`.
pub open spec fn find_byte(s: Seq<u8>, from: int, b: u8) -> Option<int>
    decreases s.len() - from,
        when 0 <= from <= s.len()
{
    if from == s.len() {
        None
    } else if s[from] == b {
        Some(from)
    } else {
        find_byte(s, from + 1, b)
    }
}

pub proof fn lemma_find_byte(s: Seq<u8>, from: int, b: u8)
    requires
        0 <= from <= s.len(),
    ensures
        match find_byte(s, from, b) {
            Some(i) => from <= i < s.len() && s[i] == b && forall|j: int|
                from <= j < i ==> s[j] != b,
            None => forall|j: int| from <= j < s.len() ==> s[j] != b,
        },
    decreases s.len() - from,
{
    if from < s.len() && s[from] != b {
        lemma_find_byte(s, from + 1, b);
    }
}

/// Whether the three bytes closing a comment, `-->`, stand at `i`.
pub open spec fn comment_end_at(s: Seq<u8>, i: int) -> bool {
    &&& i + 3 <= s.len()
    &&& s[i] == DASH
    &&& s[i + 1] == DASH
    &&& s[i + 2] == GT
}

/// First position `i >= from` at which `-->` stands.
pub open spec fn find_comment_end(s: Seq<u8>, from: int) -> Option<int>
    decreases s.len() - from,
        when 0 <= from
{
    if from + 3 > s.len() {
        None
    } else if comment_end_at(s, from) {
        Some(from)
    } else {
        find_comment_end(s, from + 1)
    }
}

pub proof fn lemma_find_comment_end(s: Seq<u8>, from: int)
    requires
        0 <= from,
    ensures
        match find_comment_end(s, from) {
            Some(i) => from <= i && comment_end_at(s, i) && forall|j: int|
                from <= j < i ==> !comment_end_at(s, j),
            None => forall|j: int| from <= j ==> !comment_end_at(s, j),
        },
    decreases s.len() - from,
{
    if from + 3 <= s.len() && !comment_end_at(s, from) {
        lemma_find_comment_end(s, from + 1);
    }
}

/// Whether a comment opens at `pos`: the four bytes `<!--`.
pub open spec fn comment_start_at(s: Seq<u8>, pos: int) -> bool {
    &&& pos + 4 <= s.len()
    &&& s[pos] == LT
    &&& s[pos + 1] == BANG
    &&& s[pos + 2] == DASH
    &&& s[pos + 3] == DASH
}

/// Prefixes one event onto the rest, passing a failure through.
pub open spec fn prepend(e: EventV, rest: Result<Seq<EventV>, (int, XmlErrorKind)>) -> Result<
    Seq<EventV>,
    (int, XmlErrorKind),
> {
    match rest {
        Ok(r) => Ok(seq![e] + r),
        Err(f) => Err(f),
    }
}

/// The lexical structure of the buffer from `pos` on, given the names of the
/// elements currently open: `Ok` with the event sequence when the rest of
/// the buffer is well formed, `Err` otherwise.
///
/// At `<` a construct starts: `<!--` runs to `-->`, other `<!` and `<?`
/// constructs run to the next `>` and pass through opaquely, `</` closes the
/// innermost open element (anything else is a mismatch), and any other tag
/// content up to `>` is a start tag, or an empty tag when it ends in `/`.
/// Any other byte starts a text run up to the next `<`. Tag names must be
/// non-empty, and at the end of the buffer no element may remain open. A
/// failure carries the byte offset of the offending construct and its kind.
pub open spec fn lex_from(s: Seq<u8>, pos: int, stack: Seq<Seq<u8>>) -> Result<
    Seq<EventV>,
    (int, XmlErrorKind),
>
    decreases s.len() - pos,
        when 0 <= pos <= s.len()
        via lex_from_decreases
{
    if pos == s.len() {
        if stack.len() == 0 {
            Ok(Seq::empty())
        } else {
            Err((pos, XmlErrorKind::UnclosedElement))
        }
    } else if s[pos] == LT {
        if comment_start_at(s, pos) {
            match find_comment_end(s, pos + 4) {
                None => Err((pos, XmlErrorKind::UnclosedComment)),
                Some(i) => prepend(EventV::Other(s.subrange(pos, i + 3)), lex_from(s, i + 3, stack)),
            }
        } else if pos + 1 < s.len() && (s[pos + 1] == BANG || s[pos + 1] == QUEST) {
            match find_byte(s, pos + 1, GT) {
                None => Err((pos, XmlErrorKind::UnclosedTag)),
                Some(g) => prepend(EventV::Other(s.subrange(pos, g + 1)), lex_from(s, g + 1, stack)),
            }
        } else if pos + 1 < s.len() && s[pos + 1] == SLASH {
            match find_byte(s, pos + 2, GT) {
                None => Err((pos, XmlErrorKind::UnclosedTag)),
                Some(g) => {
                    let raw = s.subrange(pos + 2, g);
                    if stack.len() > 0 && stack.last() == raw {
                        prepend(EventV::End(raw), lex_from(s, g + 1, stack.drop_last()))
                    } else {
                        Err((pos, XmlErrorKind::MismatchedEndTag))
                    }
                },
            }
        } else {
            match find_byte(s, pos + 1, GT) {
                None => Err((pos, XmlErrorKind::UnclosedTag)),
                Some(g) => {
                    let content = s.subrange(pos + 1, g);
                    if content.len() == 0 {
                        Err((pos, XmlErrorKind::EmptyTagName))
                    } else if content.last() == SLASH {
                        let raw = content.drop_last();
                        if name_of(raw).len() == 0 {
                            Err((pos, XmlErrorKind::EmptyTagName))
                        } else {
                            prepend(EventV::Empty(raw), lex_from(s, g + 1, stack))
                        }
                    } else if name_of(content).len() == 0 {
                        Err((pos, XmlErrorKind::EmptyTagName))
                    } else {
                        prepend(
                            EventV::Start(content),
                            lex_from(s, g + 1, stack.push(name_of(content))),
                        )
                    }
                },
            }
        }
    } else {
        match find_byte(s, pos, LT) {
            None => prepend(
                EventV::Text(s.subrange(pos, s.len() as int)),
                lex_from(s, s.len() as int, stack),
            ),
            Some(i) => prepend(EventV::Text(s.subrange(pos, i)), lex_from(s, i, stack)),
        }
    }
}

#[via_fn]
proof fn lex_from_decreases(s: Seq<u8>, pos: int, stack: Seq<Seq<u8>>) {
    if 0 <= pos < s.len() {
        if s[pos] == LT {
            if comment_start_at(s, pos) {
                lemma_find_comment_end(s, pos + 4);
            } else {
                if pos + 1 < s.len() {
                    lemma_find_byte(s, pos + 1, GT);
                    lemma_find_byte(s, pos + 2, GT);
                } else {
                    lemma_find_byte(s, pos + 1, GT);
                }
            }
        } else {
            lemma_find_byte(s, pos, LT);
        }
    }
}

/// The lexical structure of a whole buffer: the events, or the byte offset
/// and kind of the first offence.
pub open spec fn lex(s: Seq<u8>) -> Result<Seq<EventV>, (int, XmlErrorKind)> {
    lex_from(s, 0, Seq::empty())
}

/// The single step the reader takes at a position before the end of the
/// buffer: the event produced, the position after it and the stack after it.
/// Meaningful only where `lex_from(s, pos, stack)` is `Some`.
pub open spec fn lex_step(s: Seq<u8>, pos: int, stack: Seq<Seq<u8>>) -> (EventV, int, Seq<Seq<u8>>) {
    if s[pos] == LT {
        if comment_start_at(s, pos) {
            let i = find_comment_end(s, pos + 4)->Some_0;
            (EventV::Other(s.subrange(pos, i + 3)), i + 3, stack)
        } else if pos + 1 < s.len() && (s[pos + 1] == BANG || s[pos + 1] == QUEST) {
            let g = find_byte(s, pos + 1, GT)->Some_0;
            (EventV::Other(s.subrange(pos, g + 1)), g + 1, stack)
        } else if pos + 1 < s.len() && s[pos + 1] == SLASH {
            let g = find_byte(s, pos + 2, GT)->Some_0;
            (EventV::End(s.subrange(pos + 2, g)), g + 1, stack.drop_last())
        } else {
            let g = find_byte(s, pos + 1, GT)->Some_0;
            let content = s.subrange(pos + 1, g);
            if content.last() == SLASH {
                (EventV::Empty(content.drop_last()), g + 1, stack)
            } else {
                (EventV::Start(content), g + 1, stack.push(name_of(content)))
            }
        }
    } else {
        match find_byte(s, pos, LT) {
            None => (EventV::Text(s.subrange(pos, s.len() as int)), s.len() as int, stack),
            Some(i) => (EventV::Text(s.subrange(pos, i)), i, stack),
        }
    }
}

/// Where the reader accepts the rest of the buffer, one step of it produces
/// one event covering exactly the bytes up to the next position, updates the
/// stack of open elements as the event's kind asks, and leaves a rest the
/// reader accepts too.
pub proof fn lex_from_bounds(s: Seq<u8>, pos: int, stack: Seq<Seq<u8>>)
    requires
        0 <= pos <= s.len(),
        lex_from(s, pos, stack) is Ok,
    ensures
        pos == s.len() ==> stack.len() == 0 && lex_from(s, pos, stack) == Ok::<
            Seq<EventV>,
            (int, XmlErrorKind),
        >(Seq::<EventV>::empty()),
        pos < s.len() ==> {
            let (e, pos2, stack2) = lex_step(s, pos, stack);
            &&& pos < pos2 <= s.len()
            &&& lex_from(s, pos2, stack2) is Ok
            &&& lex_from(s, pos, stack) == prepend(e, lex_from(s, pos2, stack2))
            &&& crate::events::write_event_s(e) == s.subrange(pos, pos2)
            &&& match e {
                EventV::Start(raw) => stack2 == stack.push(name_of(raw)) && crate::attrs::no_gt(
                    raw,
                ),
                EventV::End(raw) => stack.len() > 0 && stack.last() == raw && stack2
                    == stack.drop_last() && crate::attrs::no_gt(raw),
                EventV::Empty(raw) => stack2 == stack && crate::attrs::no_gt(raw),
                _ => stack2 == stack,
            }
        },
{
    if pos < s.len() {
        let (e, pos2, stack2) = lex_step(s, pos, stack);
        if s[pos] == LT {
            if comment_start_at(s, pos) {
                lemma_find_comment_end(s, pos + 4);
                let i = find_comment_end(s, pos + 4)->Some_0;
                assert(crate::events::write_event_s(e) == s.subrange(pos, i + 3));
            } else if pos + 1 < s.len() && (s[pos + 1] == BANG || s[pos + 1] == QUEST) {
                lemma_find_byte(s, pos + 1, GT);
            } else if pos + 1 < s.len() && s[pos + 1] == SLASH {
                lemma_find_byte(s, pos + 2, GT);
                let g = find_byte(s, pos + 2, GT)->Some_0;
                assert(crate::events::write_event_s(e) =~= s.subrange(pos, g + 1));
                let raw = s.subrange(pos + 2, g);
                assert forall|t: int| 0 <= t < raw.len() implies (#[trigger] raw[t]) != GT by {
                    assert(raw[t] == s[pos + 2 + t]);
                }
            } else {
                lemma_find_byte(s, pos + 1, GT);
                let g = find_byte(s, pos + 1, GT)->Some_0;
                let content = s.subrange(pos + 1, g);
                assert forall|t: int| 0 <= t < content.len() implies (#[trigger] content[t]) != GT
                    by {
                    assert(content[t] == s[pos + 1 + t]);
                }
                if content.last() == SLASH {
                    assert(content[content.len() - 1] == s[g - 1]);
                    assert(crate::events::write_event_s(e) =~= s.subrange(pos, g + 1));
                    let raw = content.drop_last();
                    assert forall|t: int| 0 <= t < raw.len() implies (#[trigger] raw[t]) != GT by {
                        assert(raw[t] == content[t]);
                    }
                } else {
                    assert(crate::events::write_event_s(e) =~= s.subrange(pos, g + 1));
                }
            }
        } else {
            lemma_find_byte(s, pos, LT);
        }
    }
}

/// Whether every tag event in the sequence carries raw bytes free of `>`.
/// The reader only ever yields such tags: it cuts each one at the first `>`.
pub open spec fn tag_raws_no_gt(es: Seq<EventV>) -> bool {
    forall|i: int| 0 <= i < es.len() ==> match #[trigger] es[i] {
        EventV::Start(raw) => crate::attrs::no_gt(raw),
        EventV::End(raw) => crate::attrs::no_gt(raw),
        EventV::Empty(raw) => crate::attrs::no_gt(raw),
        _ => true,
    }
}

/// Concatenation of an already-produced prefix with the rest, passing a
/// failure through.
pub open spec fn opt_cat(p: Seq<EventV>, rest: Result<Seq<EventV>, (int, XmlErrorKind)>) -> Result<
    Seq<EventV>,
    (int, XmlErrorKind),
> {
    match rest {
        Ok(r) => Ok(p + r),
        Err(f) => Err(f),
    }
}

proof fn lemma_opt_cat_step(p: Seq<EventV>, e: EventV, rest: Result<Seq<EventV>, (int, XmlErrorKind)>)
    ensures
        opt_cat(p, prepend(e, rest)) == opt_cat(p.push(e), rest),
{
    match rest {
        Ok(r) => {
            assert(p + (seq![e] + r) =~= p.push(e) + r);
        },
        Err(_) => {},
    }
}

/// Views of a stack of open element names.
pub open spec fn stack_views(st: Seq<Vec<u8>>) -> Seq<Seq<u8>> {
    st.map_values(|v: Vec<u8>| v@)
}

/// The exec counterpart of [`find_byte`].
pub fn find_byte_exec(s: &[u8], from: usize, b: u8) -> (r: Option<usize>)
    requires
        from <= s@.len(),
    ensures
        match r {
            Some(i) => find_byte(s@, from as int, b) == Some(i as int) && from <= i < s@.len(),
            None => find_byte(s@, from as int, b) is None,
        },
{
    let n = s.len();
    let mut i: usize = from;
    while i < n
        invariant
            from <= i <= n,
            n == s@.len(),
            find_byte(s@, from as int, b) == find_byte(s@, i as int, b),
        decreases n - i,
    {
        if s[i] == b {
            return Some(i);
        }
        i = i + 1;
    }
    None
}

/// The exec counterpart of [`find_comment_end`].
fn find_comment_end_exec(s: &[u8], from: usize) -> (r: Option<usize>)
    requires
        from <= s@.len(),
    ensures
        match r {
            Some(i) => find_comment_end(s@, from as int) == Some(i as int) && from <= i && i + 3
                <= s@.len(),
            None => find_comment_end(s@, from as int) is None,
        },
{
    let n = s.len();
    if n < 3 {
        proof {
            lemma_find_comment_end(s@, from as int);
            if find_comment_end(s@, from as int) is Some {
                let i = find_comment_end(s@, from as int)->Some_0;
                assert(comment_end_at(s@, i));
            }
        }
        return None;
    }
    let mut i: usize = from;
    while i <= n - 3
        invariant
            from <= i <= n,
            3 <= n == s@.len(),
            find_comment_end(s@, from as int) == find_comment_end(s@, i as int),
        decreases n - i,
    {
        if s[i] == DASH && s[i + 1] == DASH && s[i + 2] == GT {
            return Some(i);
        }
        i = i + 1;
    }
    None
}

/// Splits a buffer into its event sequence.
///
/// Returns exactly what [`lex`] describes: `Ok` with the events when the
/// buffer is well formed, otherwise `Err` with the byte offset at which the
/// offending construct starts and why it is refused.
pub fn lex_events(input: &[u8]) -> (r: Result<Vec<Event>, XmlError>)
    ensures
        match r {
            Ok(es) => lex(input@) == Ok::<Seq<EventV>, (int, XmlErrorKind)>(views_of(es@)),
            Err(e) => lex(input@) == Err::<Seq<EventV>, (int, XmlErrorKind)>(
                (e.position as int, e.kind),
            ),
        },
{
    let n = input.len();
    let mut pos: usize = 0;
    let mut out: Vec<Event> = Vec::new();
    let mut stack: Vec<Vec<u8>> = Vec::new();
    proof {
        assert(views_of(out@) =~= Seq::<EventV>::empty());
        assert(stack_views(stack@) =~= Seq::<Seq<u8>>::empty());
        match lex_from(input@, 0, stack_views(stack@)) {
            Ok(r) => {
                assert(views_of(out@) + r =~= r);
            },
            Err(_) => {},
        }
    }
    loop
        invariant
            pos <= n,
            n == input@.len(),
            lex(input@) == opt_cat(views_of(out@), lex_from(input@, pos as int, stack_views(stack@))),
        decreases n - pos,
    {
        let ghost s = input@;
        let ghost p = pos as int;
        let ghost stv = stack_views(stack@);
        let ghost outv = views_of(out@);
        if pos == n {
            if stack.len() == 0 {
                assert(lex_from(s, p, stv) == Ok::<Seq<EventV>, (int, XmlErrorKind)>(
                    Seq::<EventV>::empty(),
                ));
                assert(outv + Seq::<EventV>::empty() =~= outv);
                return Ok(out);
            } else {
                assert(stv.len() > 0);
                assert(lex_from(s, p, stv) == Err::<Seq<EventV>, (int, XmlErrorKind)>(
                    (p, XmlErrorKind::UnclosedElement),
                ));
                return Err(XmlError { position: pos, kind: XmlErrorKind::UnclosedElement });
            }
        }
        let c = input[pos];
        if c == LT {
            let is_comment = n - pos >= 4 && input[pos + 1] == BANG && input[pos + 2] == DASH
                && input[pos + 3] == DASH;
            assert(is_comment == comment_start_at(s, p));
            if is_comment {
                match find_comment_end_exec(input, pos + 4) {
                    None => {
                        assert(lex_from(s, p, stv) == Err::<Seq<EventV>, (int, XmlErrorKind)>(
                            (p, XmlErrorKind::UnclosedComment),
                        ));
                        return Err(XmlError { position: pos, kind: XmlErrorKind::UnclosedComment });
                    },
                    Some(i) => {
                        let raw = slice_to_vec(slice_subrange(input, pos, i + 3));
                        let ev = Event::Other(raw);
                        proof {
                            assert(lex_from(s, p, stv) == prepend(ev@, lex_from(s, i + 3, stv)));
                            lemma_opt_cat_step(outv, ev@, lex_from(s, i + 3, stv));
                            assert(views_of(out@.push(ev)) =~= outv.push(ev@));
                        }
                        out.push(ev);
                        pos = i + 3;
                    },
                }
            } else if pos + 1 < n && (input[pos + 1] == BANG || input[pos + 1] == QUEST) {
                match find_byte_exec(input, pos + 1, GT) {
                    None => {
                        assert(lex_from(s, p, stv) == Err::<Seq<EventV>, (int, XmlErrorKind)>(
                            (p, XmlErrorKind::UnclosedTag),
                        ));
                        return Err(XmlError { position: pos, kind: XmlErrorKind::UnclosedTag });
                    },
                    Some(g) => {
                        let raw = slice_to_vec(slice_subrange(input, pos, g + 1));
                        let ev = Event::Other(raw);
                        proof {
                            assert(lex_from(s, p, stv) == prepend(ev@, lex_from(s, g + 1, stv)));
                            lemma_opt_cat_step(outv, ev@, lex_from(s, g + 1, stv));
                            assert(views_of(out@.push(ev)) =~= outv.push(ev@));
                        }
                        out.push(ev);
                        pos = g + 1;
                    },
                }
            } else if pos + 1 < n && input[pos + 1] == SLASH {
                match find_byte_exec(input, pos + 2, GT) {
                    None => {
                        assert(lex_from(s, p, stv) == Err::<Seq<EventV>, (int, XmlErrorKind)>(
                            (p, XmlErrorKind::UnclosedTag),
                        ));
                        return Err(XmlError { position: pos, kind: XmlErrorKind::UnclosedTag });
                    },
                    Some(g) => {
                        let raw = slice_subrange(input, pos + 2, g);
                        let matches = if stack.len() > 0 {
                            let top: &Vec<u8> = &stack[stack.len() - 1];
                            crate::events::bytes_eq(raw, top.as_slice())
                        } else {
                            false
                        };
                        proof {
                            if stack.len() > 0 {
                                assert(stv.last() == stack@[stack@.len() - 1]@);
                            }
                        }
                        if matches {
                            let rawv = slice_to_vec(raw);
                            let ev = Event::End(rawv);
                            let ghost st2 = stv.drop_last();
                            proof {
                                assert(lex_from(s, p, stv) == prepend(ev@, lex_from(s, g + 1, st2)));
                                lemma_opt_cat_step(outv, ev@, lex_from(s, g + 1, st2));
                                assert(views_of(out@.push(ev)) =~= outv.push(ev@));
                            }
                            out.push(ev);
                            let _ = stack.pop();
                            proof {
                                assert(stack_views(stack@) =~= st2);
                            }
                            pos = g + 1;
                        } else {
                            assert(lex_from(s, p, stv) == Err::<Seq<EventV>, (int, XmlErrorKind)>(
                                (p, XmlErrorKind::MismatchedEndTag),
                            ));
                            return Err(XmlError { position: pos, kind: XmlErrorKind::MismatchedEndTag });
                        }
                    },
                }
            } else {
                match find_byte_exec(input, pos + 1, GT) {
                    None => {
                        assert(lex_from(s, p, stv) == Err::<Seq<EventV>, (int, XmlErrorKind)>(
                            (p, XmlErrorKind::UnclosedTag),
                        ));
                        return Err(XmlError { position: pos, kind: XmlErrorKind::UnclosedTag });
                    },
                    Some(g) => {
                        let content = slice_subrange(input, pos + 1, g);
                        if content.len() == 0 {
                            assert(lex_from(s, p, stv) == Err::<Seq<EventV>, (int, XmlErrorKind)>(
                                (p, XmlErrorKind::EmptyTagName),
                            ));
                            return Err(XmlError { position: pos, kind: XmlErrorKind::EmptyTagName });
                        } else if content[content.len() - 1] == SLASH {
                            let raw = slice_subrange(content, 0, content.len() - 1);
                            assert(raw@ =~= s.subrange(p + 1, g as int).drop_last());
                            let k = crate::events::name_end_exec(raw);
                            proof {
                                crate::events::lemma_name_end(raw@, 0);
                            }
                            if k == 0 {
                                assert(name_of(raw@).len() == 0);
                                assert(lex_from(s, p, stv) == Err::<
                                    Seq<EventV>,
                                    (int, XmlErrorKind),
                                >((p, XmlErrorKind::EmptyTagName)));
                                return Err(XmlError { position: pos, kind: XmlErrorKind::EmptyTagName });
                            }
                            assert(name_of(raw@).len() != 0);
                            let rawv = slice_to_vec(raw);
                            let ev = Event::Empty(rawv);
                            proof {
                                assert(lex_from(s, p, stv) == prepend(ev@, lex_from(s, g + 1, stv)));
                                lemma_opt_cat_step(outv, ev@, lex_from(s, g + 1, stv));
                                assert(views_of(out@.push(ev)) =~= outv.push(ev@));
                            }
                            out.push(ev);
                            pos = g + 1;
                        } else {
                            let k = crate::events::name_end_exec(content);
                            proof {
                                crate::events::lemma_name_end(content@, 0);
                            }
                            if k == 0 {
                                assert(name_of(content@).len() == 0);
                                assert(lex_from(s, p, stv) == Err::<
                                    Seq<EventV>,
                                    (int, XmlErrorKind),
                                >((p, XmlErrorKind::EmptyTagName)));
                                return Err(XmlError { position: pos, kind: XmlErrorKind::EmptyTagName });
                            }
                            assert(name_of(content@).len() != 0);
                            let name = slice_to_vec(slice_subrange(content, 0, k));
                            assert(name@ =~= name_of(content@));
                            let rawv = slice_to_vec(content);
                            let ev = Event::Start(rawv);
                            let ghost st2 = stv.push(name_of(content@));
                            proof {
                                assert(lex_from(s, p, stv) == prepend(ev@, lex_from(s, g + 1, st2)));
                                lemma_opt_cat_step(outv, ev@, lex_from(s, g + 1, st2));
                                assert(views_of(out@.push(ev)) =~= outv.push(ev@));
                            }
                            out.push(ev);
                            stack.push(name);
                            proof {
                                assert(stack_views(stack@) =~= st2);
                            }
                            pos = g + 1;
                        }
                    },
                }
            }
        } else {
            match find_byte_exec(input, pos, LT) {
                None => {
                    let raw = slice_to_vec(slice_subrange(input, pos, n));
                    let ev = Event::Text(raw);
                    proof {
                        assert(lex_from(s, p, stv) == prepend(ev@, lex_from(s, n as int, stv)));
                        lemma_opt_cat_step(outv, ev@, lex_from(s, n as int, stv));
                        assert(views_of(out@.push(ev)) =~= outv.push(ev@));
                    }
                    out.push(ev);
                    pos = n;
                },
                Some(i) => {
                    proof {
                        lemma_find_byte(s, p, LT);
                    }
                    let raw = slice_to_vec(slice_subrange(input, pos, i));
                    let ev = Event::Text(raw);
                    proof {
                        assert(lex_from(s, p, stv) == prepend(ev@, lex_from(s, i as int, stv)));
                        lemma_opt_cat_step(outv, ev@, lex_from(s, i as int, stv));
                        assert(views_of(out@.push(ev)) =~= outv.push(ev@));
                    }
                    out.push(ev);
                    pos = i;
                },
            }
        }
    }
}

} // verus!
