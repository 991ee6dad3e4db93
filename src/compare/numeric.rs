use vstd::prelude::*;

use crate::byte_read::{is_ws, spec_ws, ByteRead};
use crate::compare::Comparison;

verus! {

/// The longest token that the numeric comparison reads.
pub const MAX_TOKEN_LEN: usize = 512;

/// Length of the run of whitespace that `s` starts with.
pub open spec fn ws_run(s: Seq<u8>) -> nat
    decreases s.len(),
{
    if s.len() > 0 && spec_ws(s[0]) {
        1 + ws_run(s.drop_first())
    } else {
        0
    }
}

/// Length of the run of non-whitespace that `s` starts with.
pub open spec fn word_len(s: Seq<u8>) -> nat
    decreases s.len(),
{
    if s.len() > 0 && !spec_ws(s[0]) {
        1 + word_len(s.drop_first())
    } else {
        0
    }
}

/// `s` without its leading whitespace.
pub open spec fn skip_ws(s: Seq<u8>) -> Seq<u8> {
    s.skip(ws_run(s) as int)
}

/// One token harvested from a stream.
#[derive(Debug)]
pub enum Token {
    /// Only whitespace was left.
    End,
    /// A run of non-whitespace bytes, at most `MAX_TOKEN_LEN` long.
    Word(Vec<u8>),
    /// A run of non-whitespace bytes longer than `MAX_TOKEN_LEN`.
    Overlong,
}

/// What the numeric comparison does with a pair of tokens.
#[derive(Debug, Clone, Copy, PartialEq, Eq, Structural)]
pub enum NumericStep {
    /// The comparison is over, with this verdict.
    Done(Comparison),
    /// Both tokens are words: their values decide.
    CompareValues,
}

proof fn lemma_ws_run_len(s: Seq<u8>)
    ensures
        ws_run(s) <= s.len(),
    decreases s.len(),
{
    if s.len() > 0 && spec_ws(s[0]) {
        lemma_ws_run_len(s.drop_first());
    }
}

proof fn lemma_skip_ws_step(s: Seq<u8>)
    requires
        s.len() > 0,
    ensures
        spec_ws(s[0]) ==> skip_ws(s) == skip_ws(s.drop_first()),
        !spec_ws(s[0]) ==> skip_ws(s) == s,
{
    if spec_ws(s[0]) {
        lemma_ws_run_len(s.drop_first());
        assert(s.skip(1 + ws_run(s.drop_first()) as int) =~= s.drop_first().skip(
            ws_run(s.drop_first()) as int,
        ));
    } else {
        assert(s.skip(0) =~= s);
    }
}

proof fn lemma_word_len(s: Seq<u8>, k: int)
    requires
        0 <= k <= s.len(),
        forall|i: int| 0 <= i < k ==> !spec_ws(#[trigger] s[i]),
    ensures
        word_len(s) >= k,
        k == s.len() || spec_ws(s[k]) ==> word_len(s) == k,
    decreases k,
{
    if k > 0 {
        assert forall|i: int| 0 <= i < k - 1 implies !spec_ws(#[trigger] s.drop_first()[i]) by {
            assert(s.drop_first()[i] == s[i + 1]);
        }
        lemma_word_len(s.drop_first(), k - 1);
    }
}

/// Harvests the next token: passes whitespace, then reads non-whitespace up
/// to the next whitespace byte, which it consumes, or to the end.
pub fn poll_token<R: ByteRead>(reader: &mut R) -> (r: Token)
    requires
        old(reader).inv(),
    ensures
        final(reader).inv(),
        ({
            let t = skip_ws(old(reader).rest());
            let w = word_len(t);
            &&& (r is End <==> t.len() == 0)
            &&& (r is End ==> final(reader).rest().len() == 0)
            &&& (r is Overlong <==> t.len() > 0 && w > MAX_TOKEN_LEN)
            &&& (r is Word ==> r->Word_0@ == t.take(w as int) && final(reader).rest() == (if w
                < t.len() {
                t.skip(w + 1 as int)
            } else {
                Seq::empty()
            }))
        }),
{
    let ghost t = skip_ws(reader.rest());
    let mut b = reader.next_byte();
    proof {
        let s = old(reader).rest();
        if s.len() > 0 {
            lemma_skip_ws_step(s);
            assert(b.with_rest(reader.rest()) =~= s);
        } else {
            assert(s.skip(0) =~= s);
        }
    }
    loop
        invariant
            reader.inv(),
            t == skip_ws(old(reader).rest()),
            b.eof ==> reader.rest().len() == 0,
            b.eof ==> t.len() == 0,
            !b.eof ==> skip_ws(b.with_rest(reader.rest())) == t,
        ensures
            reader.inv(),
            !b.eof,
            t == b.with_rest(reader.rest()),
            t.len() > 0,
        decreases b.with_rest(reader.rest()).len(),
    {
        if b.is_eof() {
            return Token::End;
        }
        let ghost cur = b.with_rest(reader.rest());
        proof {
            lemma_skip_ws_step(cur);
            assert(cur.drop_first() =~= reader.rest());
        }
        if !is_ws(b.as_u8()) {
            break;
        }
        let ghost s = reader.rest();
        b = reader.next_byte();
        proof {
            if s.len() > 0 {
                assert(b.with_rest(reader.rest()) =~= s);
            } else {
                assert(s.skip(0) =~= s);
            }
        }
    }
    let mut buf: Vec<u8> = Vec::new();
    loop
        invariant
            reader.inv(),
            t == skip_ws(old(reader).rest()),
            t.len() > 0,
            b.eof ==> reader.rest().len() == 0,
            t == buf@ + b.with_rest(reader.rest()),
            buf@.len() <= MAX_TOKEN_LEN,
            forall|i: int| 0 <= i < buf@.len() ==> !spec_ws(#[trigger] buf@[i]),
        decreases b.with_rest(reader.rest()).len(),
    {
        let ghost k = buf@.len() as int;
        proof {
            assert forall|i: int| 0 <= i < k implies !spec_ws(#[trigger] t[i]) by {
                assert(t[i] == buf@[i]);
            }
        }
        if b.is_eof() || is_ws(b.as_u8()) {
            proof {
                if !b.eof {
                    assert(t[k] == b.byte);
                }
                lemma_word_len(t, k);
                assert(buf@ =~= t.take(k));
                if !b.eof {
                    assert(reader.rest() =~= t.skip(k + 1));
                }
            }
            return Token::Word(buf);
        }
        if buf.len() == MAX_TOKEN_LEN {
            proof {
                assert(t[k] == b.byte);
                assert forall|i: int| 0 <= i < k + 1 implies !spec_ws(#[trigger] t[i]) by {
                    if i < k {
                        assert(t[i] == buf@[i]);
                    }
                }
                lemma_word_len(t, k + 1);
            }
            return Token::Overlong;
        }
        buf.push(b.as_u8());
        b = reader.next_byte();
        proof {
            assert(t =~= buf@ + b.with_rest(reader.rest()));
        }
    }
}

/// Decides a pair of tokens, one from each side, where their values are not
/// needed.
pub fn numeric_step(std_token: &Token, user_token: &Token) -> (r: NumericStep)
    ensures
        r == (match (*std_token, *user_token) {
            (Token::End, Token::End) => NumericStep::Done(Comparison::AC),
            (Token::Word(_), Token::Word(_)) => NumericStep::CompareValues,
            _ => NumericStep::Done(Comparison::WA),
        }),
{
    match (std_token, user_token) {
        (Token::End, Token::End) => NumericStep::Done(Comparison::AC),
        (Token::Word(_), Token::Word(_)) => NumericStep::CompareValues,
        _ => NumericStep::Done(Comparison::WA),
    }
}

} // verus!
