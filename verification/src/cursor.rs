//! A positional cursor over a fixed text buffer.
//!
//! The cursor tracks a character index and the matching byte index into one
//! `&str`. It offers character-level lookahead (`nth`, `first`, `second`),
//! single-step consumption (`next`), bulk skipping (`skip`, `skip_while`) and
//! zero-copy slicing of a consumed run (`take_while`). Out-of-range access
//! yields `None` instead of panicking.

use vstd::prelude::*;

verus! {

use vstd::string::StrSliceExecFns;
use vstd::utf8::{encode_scalar, encode_utf8, char_is_scalar};

broadcast use vstd::slice::axiom_spec_len;

/// Number of bytes in the UTF-8 encoding of one character.
pub open spec fn char_width(c: char) -> nat {
    encode_scalar(c as u32).len()
}

/// Number of bytes in the UTF-8 encoding of a character sequence.
pub open spec fn byte_len(s: Seq<char>) -> nat {
    encode_utf8(s).len()
}

proof fn lemma_encode_utf8_push(s: Seq<char>, c: char)
    ensures
        encode_utf8(s.push(c)) == encode_utf8(s) + encode_scalar(c as u32),
    decreases s.len(),
{
    if s.len() == 0 {
        assert(s.push(c)[0] == c);
        assert(s.push(c).drop_first() =~= s);
        assert(encode_utf8(s.push(c)) =~= encode_utf8(s) + encode_scalar(c as u32));
    } else {
        assert(s.push(c)[0] == s[0]);
        assert(s.push(c).drop_first() =~= s.drop_first().push(c));
        lemma_encode_utf8_push(s.drop_first(), c);
        assert(encode_utf8(s.push(c)) =~= encode_utf8(s) + encode_scalar(c as u32));
    }
}

/// Consuming one more character grows the byte index by that character's width.
pub proof fn lemma_byte_len_take_succ(s: Seq<char>, i: int)
    requires
        0 <= i < s.len(),
    ensures
        byte_len(s.take(i + 1)) == byte_len(s.take(i)) + char_width(s[i]),
{
    assert(s.take(i + 1) =~= s.take(i).push(s[i]));
    lemma_encode_utf8_push(s.take(i), s[i]);
}

/// The byte index of any prefix is bounded by the whole buffer's byte length.
pub proof fn lemma_byte_len_take_le(s: Seq<char>, i: int)
    requires
        0 <= i <= s.len(),
    ensures
        byte_len(s.take(i)) <= byte_len(s),
    decreases s.len() - i,
{
    if i == s.len() {
        assert(s.take(i) =~= s);
    } else {
        lemma_byte_len_take_succ(s, i);
        lemma_byte_len_take_le(s, i + 1);
    }
}

/// Width in bytes of one character's UTF-8 encoding.
pub fn utf8_width(c: char) -> (n: usize)
    ensures
        n as nat == char_width(c),
        1 <= n <= 4,
{
    proof {
        char_is_scalar(c);
    }
    let u = c as u32;
    if u < 0x80 {
        1
    } else if u < 0x800 {
        2
    } else if u < 0x10000 {
        3
    } else {
        4
    }
}

/// A character-level cursor into a borrowed text buffer. Cloning copies only
/// the position, never the text.
#[derive(Clone, Copy)]
pub struct Cursor<'input> {
    input: &'input str,
    pos: usize,
    byte_pos: usize,
}

impl<'input> Cursor<'input> {
    /// The characters of the underlying buffer.
    pub closed spec fn chars(&self) -> Seq<char> {
        self.input@
    }

    /// The current character index.
    pub closed spec fn at(&self) -> int {
        self.pos as int
    }

    /// The cursor's indices agree with each other and lie inside the buffer.
    pub closed spec fn wf(&self) -> bool {
        &&& self.pos <= self.input@.len()
        &&& self.byte_pos as nat == byte_len(self.input@.take(self.pos as int))
        &&& byte_len(self.input@) <= usize::MAX
    }

    /// A well-formed cursor sits somewhere inside its buffer.
    pub broadcast proof fn lemma_wf_bounds(self)
        requires
            #[trigger] self.wf(),
        ensures
            0 <= self.at() <= self.chars().len(),
    {
    }

    pub fn new(input: &'input str) -> (c: Cursor<'input>)
        ensures
            c.wf(),
            c.chars() == input@,
            c.at() == 0,
    {
        let bytes = input.as_bytes();
        let total = bytes.len();
        proof {
            assert(bytes@.len() <= usize::MAX);
            assert(input@.take(0) =~= Seq::<char>::empty());
            assert(byte_len(input@.take(0)) == 0);
        }
        Cursor { input, pos: 0, byte_pos: 0 }
    }

    /// The current character index.
    pub fn position(&self) -> (r: usize)
        ensures
            r as int == self.at(),
    {
        self.pos
    }

    /// The current byte index into the buffer.
    pub fn byte_offset(&self) -> (r: usize)
        requires
            self.wf(),
        ensures
            r as nat == byte_len(self.chars().take(self.at())),
    {
        self.byte_pos
    }

    /// The whole underlying buffer.
    pub fn input(&self) -> (r: &'input str)
        ensures
            r@ == self.chars(),
    {
        self.input
    }

    /// Consume and return the next character, if any.
    pub fn next(&mut self) -> (r: Option<char>)
        requires
            old(self).wf(),
        ensures
            final(self).wf(),
            final(self).chars() == old(self).chars(),
            old(self).at() < old(self).chars().len() ==> {
                &&& r == Some(old(self).chars()[old(self).at()])
                &&& final(self).at() == old(self).at() + 1
            },
            old(self).at() >= old(self).chars().len() ==> {
                &&& r is None
                &&& *final(self) == *old(self)
            },
    {
        let len = self.input.unicode_len();
        if self.pos < len {
            let c = self.input.get_char(self.pos);
            proof {
                lemma_byte_len_take_succ(self.input@, self.pos as int);
                lemma_byte_len_take_le(self.input@, self.pos as int + 1);
            }
            let w = utf8_width(c);
            self.pos = self.pos + 1;
            self.byte_pos = self.byte_pos + w;
            Some(c)
        } else {
            None
        }
    }

    /// Peek the character `n` places ahead without consuming.
    pub fn nth(&self, n: usize) -> (r: Option<char>)
        requires
            self.wf(),
        ensures
            r == (if self.at() + n < self.chars().len() {
                Some(self.chars()[self.at() + n])
            } else {
                None::<char>
            }),
    {
        let len = self.input.unicode_len();
        if n < len - self.pos {
            Some(self.input.get_char(self.pos + n))
        } else {
            None
        }
    }

    /// Peek the current character.
    pub fn first(&self) -> (r: Option<char>)
        requires
            self.wf(),
        ensures
            r == (if self.at() < self.chars().len() {
                Some(self.chars()[self.at()])
            } else {
                None::<char>
            }),
    {
        self.nth(0)
    }

    /// Peek one character past the current one.
    pub fn second(&self) -> (r: Option<char>)
        requires
            self.wf(),
        ensures
            r == (if self.at() + 1 < self.chars().len() {
                Some(self.chars()[self.at() + 1])
            } else {
                None::<char>
            }),
    {
        self.nth(1)
    }

    /// Advance past `n` characters, stopping at the end of the buffer.
    pub fn skip(&mut self, n: usize)
        requires
            old(self).wf(),
        ensures
            final(self).wf(),
            final(self).chars() == old(self).chars(),
            final(self).at() == if old(self).at() + n <= old(self).chars().len() {
                old(self).at() + n
            } else {
                old(self).chars().len() as int
            },
    {
        let len = self.input.unicode_len();
        let rem = len - self.pos;
        let k = if n < rem { n } else { rem };
        let mut i: usize = 0;
        while i < k
            invariant
                self.wf(),
                self.chars() == old(self).chars(),
                i <= k,
                k as int <= old(self).chars().len() - old(self).at(),
                self.at() == old(self).at() + i,
            decreases k - i,
        {
            self.next();
            i = i + 1;
        }
    }

    /// Consume characters while the predicate holds of them.
    pub fn skip_while<P: Fn(char) -> bool>(&mut self, predicate: P)
        requires
            old(self).wf(),
            forall|c: char| #[trigger] predicate.requires((c,)),
        ensures
            final(self).wf(),
            final(self).chars() == old(self).chars(),
            old(self).at() <= final(self).at() <= final(self).chars().len(),
            forall|j: int|
                old(self).at() <= j < final(self).at() ==> #[trigger] call_ensures(
                    predicate,
                    (final(self).chars()[j],),
                    true,
                ),
            final(self).at() < final(self).chars().len() ==> call_ensures(
                predicate,
                (final(self).chars()[final(self).at()],),
                false,
            ),
    {
        loop
            invariant
                self.wf(),
                self.chars() == old(self).chars(),
                forall|c: char| #[trigger] predicate.requires((c,)),
                old(self).at() <= self.at() <= self.chars().len(),
                forall|j: int|
                    old(self).at() <= j < self.at() ==> #[trigger] call_ensures(
                        predicate,
                        (self.chars()[j],),
                        true,
                    ),
            decreases self.chars().len() - self.at(),
        {
            let c = match self.first() {
                Some(c) => c,
                None => {
                    return ;
                },
            };
            if predicate(c) {
                self.next();
            } else {
                return ;
            }
        }
    }

    /// Consume characters while the predicate holds and return the consumed
    /// run as a slice of the underlying buffer.
    pub fn take_while<P: Fn(char) -> bool>(&mut self, predicate: P) -> (r: &'input str)
        requires
            old(self).wf(),
            forall|c: char| #[trigger] predicate.requires((c,)),
        ensures
            final(self).wf(),
            final(self).chars() == old(self).chars(),
            old(self).at() <= final(self).at() <= final(self).chars().len(),
            forall|j: int|
                old(self).at() <= j < final(self).at() ==> #[trigger] call_ensures(
                    predicate,
                    (final(self).chars()[j],),
                    true,
                ),
            final(self).at() < final(self).chars().len() ==> call_ensures(
                predicate,
                (final(self).chars()[final(self).at()],),
                false,
            ),
            r@ == final(self).chars().subrange(old(self).at(), final(self).at()),
    {
        let start = self.pos;
        self.skip_while(predicate);
        self.input.substring_char(start, self.pos)
    }
}

} // verus!
