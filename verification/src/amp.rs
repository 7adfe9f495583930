//! The ampersand normaliser: collapses every literal `&amp;` in a string to
//! a single `&`. It is meant for the console delivery path, where downstream
//! tooling expects literal ampersands; a file keeps its entities escaped.

use vstd::prelude::*;
use vstd::string::StrSliceExecFns;
use vstd::string::StringExecFns;

verus! {

/// Whether the five characters `&amp;` stand at `i`.
pub open spec fn amp_at(s: Seq<char>, i: int) -> bool {
    &&& i + 5 <= s.len()
    &&& s[i] == '&'
    &&& s[i + 1] == 'a'
    &&& s[i + 2] == 'm'
    &&& s[i + 3] == 'p'
    &&& s[i + 4] == ';'
}

/// The text with every occurrence of the five-character sequence `&amp;`
/// replaced by `&`, scanning left to right without overlap. A bare `&` that
/// does not start such a sequence is left untouched.
pub open spec fn amp_norm(s: Seq<char>) -> Seq<char>
    decreases s.len(),
{
    if s.len() == 0 {
        Seq::empty()
    } else if amp_at(s, 0) {
        seq!['&'] + amp_norm(s.skip(5))
    } else {
        seq![s[0]] + amp_norm(s.skip(1))
    }
}

/// Replaces every literal `&amp;` in `text` by `&`.
pub fn remove_formated_amp(text: String) -> (r: String)
    ensures
        r@ == amp_norm(text@),
{
    let s = text.as_str();
    let n = s.unicode_len();
    let mut out = String::new();
    let mut i: usize = 0;
    proof {
        assert(text@.skip(0) =~= text@);
        assert(out@ + amp_norm(text@) =~= amp_norm(text@));
    }
    while i < n
        invariant
            0 <= i <= n,
            n == text@.len(),
            s@ == text@,
            amp_norm(text@) == out@ + amp_norm(text@.skip(i as int)),
        decreases n - i,
    {
        let ghost tail = text@.skip(i as int);
        let ghost outv = out@;
        let is_amp = n - i >= 5 && s.get_char(i) == '&' && s.get_char(i + 1) == 'a' && s.get_char(
            i + 2,
        ) == 'm' && s.get_char(i + 3) == 'p' && s.get_char(i + 4) == ';';
        proof {
            assert(is_amp == amp_at(tail, 0));
        }
        if is_amp {
            out.append("&");
            proof {
                reveal_strlit("&");
                assert("&"@ =~= seq!['&']);
                assert(tail.skip(5) =~= text@.skip(i as int + 5));
                assert(amp_norm(tail) == seq!['&'] + amp_norm(text@.skip(i as int + 5)));
                assert(outv + (seq!['&'] + amp_norm(text@.skip(i as int + 5))) =~= (outv + seq![
                    '&',
                ]) + amp_norm(text@.skip(i as int + 5)));
                assert(out@ =~= outv + seq!['&']);
            }
            i = i + 5;
        } else {
            let piece = s.substring_char(i, i + 1);
            out.append(piece);
            proof {
                assert(piece@ =~= seq![text@[i as int]]);
                assert(tail.skip(1) =~= text@.skip(i as int + 1));
                assert(tail[0] == text@[i as int]);
                assert(amp_norm(tail) == seq![text@[i as int]] + amp_norm(
                    text@.skip(i as int + 1),
                ));
                assert(outv + (seq![text@[i as int]] + amp_norm(text@.skip(i as int + 1))) =~= (
                outv + seq![text@[i as int]]) + amp_norm(text@.skip(i as int + 1)));
            }
            i = i + 1;
        }
    }
    proof {
        assert(text@.skip(n as int) =~= Seq::<char>::empty());
        assert(amp_norm(Seq::<char>::empty()) == Seq::<char>::empty());
        assert(out@ + Seq::<char>::empty() =~= out@);
    }
    out
}

} // verus!
