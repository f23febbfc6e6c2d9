//! The text form of a word list: one word per line, lines separated by `'\n'`.
use vstd::prelude::*;

use crate::text::chars_of;

verus! {

/// The lines of `s`: the pieces between its newline characters, so one more than there are
/// newlines.
pub open spec fn lines_of(s: Seq<char>) -> Seq<Seq<char>>
    decreases s.len(),
{
    if s.len() == 0 {
        seq![Seq::empty()]
    } else {
        let prev = lines_of(s.drop_last());
        if s.last() == '\n' {
            prev.push(Seq::empty())
        } else {
            prev.update(prev.len() - 1, prev.last().push(s.last()))
        }
    }
}

/// The words of `words` joined by newline characters.
pub open spec fn joined(words: Seq<String>) -> Seq<char>
    decreases words.len(),
{
    if words.len() == 0 {
        Seq::empty()
    } else if words.len() == 1 {
        words[0]@
    } else {
        joined(words.drop_last()) + seq!['\n'] + words.last()@
    }
}

/// Relies on `String::push`: it appends the character to the end of the string.
#[verifier::external_body]
fn push_char(s: &mut String, c: char)
    ensures
        final(s)@ == old(s)@.push(c),
{
    s.push(c)
}

/// The words of `text`, one per line.
pub fn words_from_text(text: &str) -> (r: Vec<String>)
    ensures
        r@.len() == lines_of(text@).len(),
        forall|i: int| 0 <= i < r@.len() ==> #[trigger] r@[i]@ == lines_of(text@)[i],
{
    let chars = chars_of(text);
    let mut out: Vec<String> = Vec::new();
    let mut cur = String::new();
    let mut i: usize = 0;
    assert(chars@.take(0) =~= Seq::<char>::empty());
    while i < chars.len()
        invariant
            i <= chars@.len(),
            lines_of(chars@.take(i as int)).len() == out@.len() + 1,
            forall|k: int|
                0 <= k < out@.len() ==> #[trigger] out@[k]@ == lines_of(chars@.take(i as int))[k],
            cur@ == lines_of(chars@.take(i as int)).last(),
        decreases chars@.len() - i,
    {
        let c = chars[i];
        proof {
            assert(chars@.take(i + 1).drop_last() =~= chars@.take(i as int));
        }
        if c == '\n' {
            out.push(cur);
            cur = String::new();
        } else {
            push_char(&mut cur, c);
        }
        i = i + 1;
    }
    assert(chars@.take(chars@.len() as int) =~= chars@);
    out.push(cur);
    out
}

/// The words of `dict` joined by newline characters.
pub fn words_to_text(dict: &[String]) -> (r: String)
    ensures
        r@ == joined(dict@),
{
    let mut out = String::new();
    let mut i: usize = 0;
    assert(joined(dict@.take(0)) =~= out@);
    while i < dict.len()
        invariant
            i <= dict@.len(),
            out@ == joined(dict@.take(i as int)),
        decreases dict@.len() - i,
    {
        proof {
            assert(dict@.take(i + 1).drop_last() =~= dict@.take(i as int));
            reveal_strlit("\n");
        }
        if i > 0 {
            out.append("\n");
        }
        out.append(dict[i].as_str());
        proof {
            if i == 0 {
                assert(out@ =~= joined(dict@.take(1)));
            } else {
                assert(out@ =~= joined(dict@.take(i + 1)));
            }
        }
        i = i + 1;
    }
    assert(dict@.take(dict@.len() as int) =~= dict@);
    out
}

} // verus!
