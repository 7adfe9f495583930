//! The event model: an XML document as an ordered sequence of structural
//! events, each carrying the raw bytes of its construct.

use vstd::prelude::*;

verus! {

// ASCII codes of the bytes the rules inspect or emit.
pub const LT: u8 = 60;  // `<`
pub const GT: u8 = 62;  // `>`
pub const SLASH: u8 = 47;  // `/`
pub const BANG: u8 = 33;  // `!`
pub const QUEST: u8 = 63;  // `?`
pub const DASH: u8 = 45;  // `-`
pub const AMP: u8 = 38;  // `&`
pub const SEMI: u8 = 59;  // `;`
pub const QUOT: u8 = 34;  // `"`
pub const APOS: u8 = 39;  // `'`
pub const EQ: u8 = 61;  // `=`
pub const SP: u8 = 32;  // space

/// One structural XML event.
///
/// Tag events carry the raw bytes of the tag's interior: for `Start` the
/// bytes between `<` and `>`, for `End` the bytes between `</` and `>`, and
/// for `Empty` the bytes between `<` and `/>`. `Text` carries a raw text run
/// and `Other` a whole construct (comment, declaration, processing
/// instruction) including its delimiters. Keeping the raw bytes makes
/// serialisation of untouched events byte-faithful.
pub enum Event {
    Start(Vec<u8>),
    End(Vec<u8>),
    Empty(Vec<u8>),
    Text(Vec<u8>),
    Other(Vec<u8>),
}

/// The mathematical view of an [`Event`]: the same shape over `Seq<u8>`.
pub enum EventV {
    Start(Seq<u8>),
    End(Seq<u8>),
    Empty(Seq<u8>),
    Text(Seq<u8>),
    Other(Seq<u8>),
}

impl View for Event {
    type V = EventV;

    open spec fn view(&self) -> EventV {
        match self {
            Event::Start(r) => EventV::Start(r@),
            Event::End(r) => EventV::End(r@),
            Event::Empty(r) => EventV::Empty(r@),
            Event::Text(r) => EventV::Text(r@),
            Event::Other(r) => EventV::Other(r@),
        }
    }
}

/// The views of a sequence of events.
pub open spec fn views_of(es: Seq<Event>) -> Seq<EventV> {
    es.map_values(|e: Event| e@)
}

/// XML whitespace.
pub open spec fn is_ws(b: u8) -> bool {
    b == 32 || b == 9 || b == 10 || b == 13
}

/// Index of the first whitespace byte at or after `i`, or `c.len()`.
pub open spec fn name_end(c: Seq<u8>, i: int) -> int
    decreases c.len() - i,
        when 0 <= i <= c.len()
{
    if i == c.len() {
        i
    } else if is_ws(c[i]) {
        i
    } else {
        name_end(c, i + 1)
    }
}

pub proof fn lemma_name_end(c: Seq<u8>, i: int)
    requires
        0 <= i <= c.len(),
    ensures
        i <= name_end(c, i) <= c.len(),
        forall|j: int| i <= j < name_end(c, i) ==> !is_ws(c[j]),
        name_end(c, i) < c.len() ==> is_ws(c[name_end(c, i)]),
    decreases c.len() - i,
{
    if i < c.len() && !is_ws(c[i]) {
        lemma_name_end(c, i + 1);
    }
}

/// The element name inside a start or empty tag: the raw bytes up to the
/// first whitespace.
pub open spec fn name_of(c: Seq<u8>) -> Seq<u8> {
    c.subrange(0, name_end(c, 0))
}

/// Serialisation of one event back to bytes.
pub open spec fn write_event_s(e: EventV) -> Seq<u8> {
    match e {
        EventV::Start(raw) => seq![LT] + raw + seq![GT],
        EventV::End(raw) => seq![LT, SLASH] + raw + seq![GT],
        EventV::Empty(raw) => seq![LT] + raw + seq![SLASH, GT],
        EventV::Text(raw) => raw,
        EventV::Other(raw) => raw,
    }
}

/// Serialisation of an event sequence: the concatenation of its events.
pub open spec fn write_events_s(es: Seq<EventV>) -> Seq<u8>
    decreases es.len(),
{
    if es.len() == 0 {
        Seq::empty()
    } else {
        write_event_s(es[0]) + write_events_s(es.skip(1))
    }
}

pub proof fn lemma_write_events_push(es: Seq<EventV>, e: EventV)
    ensures
        write_events_s(es.push(e)) == write_events_s(es) + write_event_s(e),
    decreases es.len(),
{
    if es.len() == 0 {
        assert(write_events_s(es) == Seq::<u8>::empty());
        assert(es.push(e)[0] == e);
        assert(es.push(e).skip(1) =~= Seq::<EventV>::empty());
        assert(write_events_s(es.push(e).skip(1)) == Seq::<u8>::empty());
        assert(write_events_s(es.push(e)) == write_event_s(e) + Seq::<u8>::empty());
        assert(write_event_s(e) + Seq::<u8>::empty() =~= write_event_s(e));
        assert(Seq::<u8>::empty() + write_event_s(e) =~= write_event_s(e));
    } else {
        assert(es.push(e).skip(1) =~= es.skip(1).push(e));
        lemma_write_events_push(es.skip(1), e);
        assert(write_events_s(es.push(e)) == write_event_s(es[0]) + (write_events_s(es.skip(1))
            + write_event_s(e)));
        assert(write_event_s(es[0]) + (write_events_s(es.skip(1)) + write_event_s(e)) =~= (
        write_event_s(es[0]) + write_events_s(es.skip(1))) + write_event_s(e));
    }
}

/// The serialisation of an event sequence splits at any event boundary.
pub proof fn lemma_write_events_split(es: Seq<EventV>, k: int)
    requires
        0 <= k <= es.len(),
    ensures
        write_events_s(es) == write_events_s(es.take(k)) + write_events_s(es.skip(k)),
    decreases k,
{
    if k == 0 {
        assert(es.take(0) =~= Seq::<EventV>::empty());
        assert(es.skip(0) =~= es);
        assert(write_events_s(es.take(0)) == Seq::<u8>::empty());
        assert(Seq::<u8>::empty() + write_events_s(es) =~= write_events_s(es));
    } else {
        lemma_write_events_split(es, k - 1);
        assert(es.take(k) =~= es.take(k - 1).push(es[k - 1]));
        lemma_write_events_push(es.take(k - 1), es[k - 1]);
        assert(es.skip(k - 1)[0] == es[k - 1]);
        assert(es.skip(k - 1).skip(1) =~= es.skip(k));
        assert(write_events_s(es.skip(k - 1)) == write_event_s(es[k - 1]) + write_events_s(
            es.skip(k),
        ));
        assert(write_events_s(es.take(k - 1)) + (write_event_s(es[k - 1]) + write_events_s(
            es.skip(k),
        )) =~= (write_events_s(es.take(k - 1)) + write_event_s(es[k - 1])) + write_events_s(
            es.skip(k),
        ));
    }
}

/// The byte offset at which the `k`-th event starts in the serialised
/// document: the byte length of the first `k` events as written.
pub fn events_prefix_len(es: &Vec<Event>, k: usize) -> (r: usize)
    requires
        k <= es@.len(),
        write_events_s(views_of(es@)).len() <= usize::MAX,
    ensures
        r == write_events_s(views_of(es@).take(k as int)).len(),
{
    let ghost evs = views_of(es@);
    let mut sum: usize = 0;
    let mut j: usize = 0;
    proof {
        assert(evs.take(0) =~= Seq::<EventV>::empty());
    }
    while j < k
        invariant
            0 <= j <= k <= es@.len(),
            evs == views_of(es@),
            write_events_s(evs).len() <= usize::MAX,
            sum == write_events_s(evs.take(j as int)).len(),
        decreases k - j,
    {
        proof {
            lemma_write_events_push(evs.take(j as int), evs[j as int]);
            assert(evs.take(j as int).push(evs[j as int]) =~= evs.take(j as int + 1));
            lemma_write_events_split(evs, j as int + 1);
            assert(write_events_s(evs.take(j as int + 1)).len() <= write_events_s(evs).len());
        }
        let e = &es[j];
        let el: usize = match e {
            Event::Start(raw) => raw.len() + 2,
            Event::End(raw) => raw.len() + 3,
            Event::Empty(raw) => raw.len() + 3,
            Event::Text(raw) => raw.len(),
            Event::Other(raw) => raw.len(),
        };
        assert(el == write_event_s(evs[j as int]).len());
        sum = sum + el;
        j = j + 1;
    }
    sum
}

/// Balance of an event sequence against a stack of open element names:
/// every start tag is matched by an end tag whose raw bytes equal the
/// opened name, in properly nested order, and nothing else touches nesting.
pub open spec fn balanced_from(es: Seq<EventV>, stack: Seq<Seq<u8>>) -> bool
    decreases es.len(),
{
    if es.len() == 0 {
        stack.len() == 0
    } else {
        match es[0] {
            EventV::Start(raw) => balanced_from(es.skip(1), stack.push(name_of(raw))),
            EventV::End(raw) => stack.len() > 0 && stack.last() == raw && balanced_from(
                es.skip(1),
                stack.drop_last(),
            ),
            _ => balanced_from(es.skip(1), stack),
        }
    }
}

/// A balanced event sequence: one that closes every element it opens.
pub open spec fn balanced(es: Seq<EventV>) -> bool {
    balanced_from(es, Seq::empty())
}

/// Byte-wise equality of two slices.
pub fn bytes_eq(a: &[u8], b: &[u8]) -> (r: bool)
    ensures
        r == (a@ == b@),
{
    if a.len() != b.len() {
        assert(a@.len() != b@.len());
        return false;
    }
    let n = a.len();
    let mut i: usize = 0;
    while i < n
        invariant
            n == a@.len() == b@.len(),
            0 <= i <= n,
            forall|j: int| 0 <= j < i ==> a@[j] == b@[j],
        decreases n - i,
    {
        if a[i] != b[i] {
            return false;
        }
        i = i + 1;
    }
    assert(a@ =~= b@);
    true
}

/// Appends all of `b` to `out`.
pub fn append_bytes(out: &mut Vec<u8>, b: &[u8])
    ensures
        final (out)@ == old(out)@ + b@,
{
    let n = b.len();
    let mut i: usize = 0;
    while i < n
        invariant
            n == b@.len(),
            0 <= i <= n,
            out@ == old(out)@ + b@.take(i as int),
        decreases n - i,
    {
        out.push(b[i]);
        assert(old(out)@ + b@.take(i as int) + seq![b@[i as int]] =~= old(out)@ + b@.take(
            i as int + 1,
        ));
        i = i + 1;
    }
    assert(old(out)@ + b@.take(n as int) =~= old(out)@ + b@);
}

/// Serialises an event stream back to bytes, event by event in order; an
/// untouched event reproduces its input bytes exactly.
pub fn write_events(es: &Vec<Event>) -> (r: Vec<u8>)
    ensures
        r@ == write_events_s(views_of(es@)),
{
    let ghost evs = views_of(es@);
    let n = es.len();
    let mut out: Vec<u8> = Vec::new();
    let mut i: usize = 0;
    proof {
        assert(evs.take(0) =~= Seq::<EventV>::empty());
        assert(out@ =~= write_events_s(evs.take(0)));
    }
    while i < n
        invariant
            0 <= i <= n,
            n == es@.len(),
            evs == views_of(es@),
            out@ == write_events_s(evs.take(i as int)),
        decreases n - i,
    {
        let ghost before = out@;
        let e = &es[i];
        match e {
            Event::Start(raw) => {
                out.push(LT);
                append_bytes(&mut out, raw.as_slice());
                out.push(GT);
                assert(out@ =~= before + write_event_s(evs[i as int]));
            },
            Event::End(raw) => {
                out.push(LT);
                out.push(SLASH);
                append_bytes(&mut out, raw.as_slice());
                out.push(GT);
                assert(out@ =~= before + write_event_s(evs[i as int]));
            },
            Event::Empty(raw) => {
                out.push(LT);
                append_bytes(&mut out, raw.as_slice());
                out.push(SLASH);
                out.push(GT);
                assert(out@ =~= before + write_event_s(evs[i as int]));
            },
            Event::Text(raw) => {
                append_bytes(&mut out, raw.as_slice());
                assert(out@ =~= before + write_event_s(evs[i as int]));
            },
            Event::Other(raw) => {
                append_bytes(&mut out, raw.as_slice());
                assert(out@ =~= before + write_event_s(evs[i as int]));
            },
        }
        proof {
            lemma_write_events_push(evs.take(i as int), evs[i as int]);
            assert(evs.take(i as int).push(evs[i as int]) =~= evs.take(i as int + 1));
        }
        i = i + 1;
    }
    proof {
        assert(evs.take(n as int) =~= evs);
    }
    out
}

/// The exec counterpart of [`name_end`] at index 0.
pub fn name_end_exec(c: &[u8]) -> (r: usize)
    ensures
        r as int == name_end(c@, 0),
{
    let n = c.len();
    let mut i: usize = 0;
    while i < n
        invariant
            n == c@.len(),
            0 <= i <= n,
            name_end(c@, 0) == name_end(c@, i as int),
        decreases n - i,
    {
        let b = c[i];
        if b == 32 || b == 9 || b == 10 || b == 13 {
            return i;
        }
        i = i + 1;
    }
    i
}

} // verus!
