//! A cursor over an immutable byte buffer: the parser's only source of
//! input. Every primitive fails with `UnexpectedEof` when too few bytes
//! remain, and none of them ever moves the cursor backwards.

use vstd::prelude::*;
use vstd::slice::slice_subrange;
use vstd::utf8::{
    decode_first_scalar, length_of_first_scalar, pop_first_scalar, valid_first_scalar,
};

use crate::error::Error;
use crate::grammar::{lemma_skip_ws_nonws, lemma_skip_ws_peel, skip_ws};

verus! {

/// Relies on char::from_u32: it returns the character of every Unicode
/// scalar value.
#[verifier::external_body]
fn char_from_scalar(v: u32) -> (c: char)
    requires
        vstd::utf8::is_scalar(v),
    ensures
        c as u32 == v,
{
    char::from_u32(v).unwrap()
}

/// A cursor over the input bytes.
pub struct Reader<'a> {
    /// The whole input; never changes.
    pub bytes: &'a [u8],
    /// How many bytes are consumed.
    pub pos: usize,
}

impl<'a> Reader<'a> {
    /// The cursor is within the buffer.
    pub open spec fn wf(self) -> bool {
        self.pos <= self.bytes@.len()
    }

    /// The unconsumed suffix of the input.
    pub open spec fn remaining(self) -> Seq<u8> {
        self.bytes@.skip(self.pos as int)
    }

    /// A fresh cursor at the start of the input.
    pub fn new(bytes: &'a [u8]) -> (r: Reader<'a>)
        ensures
            r.wf(),
            r.bytes@ == bytes@,
            r.pos == 0,
            r.remaining() == bytes@,
    {
        let r = Reader { bytes, pos: 0 };
        proof {
            assert(r.remaining() =~= bytes@);
        }
        r
    }

    /// True when the input is exhausted.
    pub fn at_end(&self) -> (r: bool)
        requires
            self.wf(),
        ensures
            r == (self.remaining().len() == 0),
    {
        self.pos == self.bytes.len()
    }

    /// The next byte, consumed.
    pub fn read_byte(&mut self) -> (r: Result<u8, Error>)
        requires
            old(self).wf(),
        ensures
            final(self).wf(),
            final(self).bytes@ == old(self).bytes@,
            old(self).pos <= final(self).pos,
            old(self).remaining().len() > 0 ==> {
                &&& r == Ok::<u8, Error>(old(self).remaining()[0])
                &&& final(self).pos == old(self).pos + 1
                &&& final(self).remaining() == old(self).remaining().drop_first()
            },
            old(self).remaining().len() == 0 ==> {
                &&& r == Err::<u8, Error>(Error::UnexpectedEof)
                &&& final(self).pos == old(self).pos
            },
    {
        if self.pos < self.bytes.len() {
            let b = self.bytes[self.pos];
            self.pos = self.pos + 1;
            proof {
                assert(self.remaining() =~= old(self).remaining().drop_first());
            }
            Ok(b)
        } else {
            Err(Error::UnexpectedEof)
        }
    }

    /// The next byte, not consumed; nothing at the end of the input.
    pub fn peek_byte(&self) -> (r: Option<u8>)
        requires
            self.wf(),
        ensures
            r == if self.remaining().len() > 0 {
                Some(self.remaining()[0])
            } else {
                None::<u8>
            },
    {
        if self.pos < self.bytes.len() {
            Some(self.bytes[self.pos])
        } else {
            None
        }
    }

    /// The next `n` bytes, consumed; the cursor does not move when fewer
    /// remain.
    pub fn read_bytes(&mut self, n: usize) -> (r: Result<Vec<u8>, Error>)
        requires
            old(self).wf(),
        ensures
            final(self).wf(),
            final(self).bytes@ == old(self).bytes@,
            old(self).pos <= final(self).pos,
            old(self).remaining().len() >= n ==> {
                &&& r matches Ok(v) && v@ == old(self).remaining().take(n as int)
                &&& final(self).pos == old(self).pos + n
                &&& final(self).remaining() == old(self).remaining().skip(n as int)
            },
            old(self).remaining().len() < n ==> {
                &&& r == Err::<Vec<u8>, Error>(Error::UnexpectedEof)
                &&& final(self).pos == old(self).pos
            },
    {
        let total = self.bytes.len();
        if n <= total - self.pos {
            let mut v: Vec<u8> = Vec::new();
            let mut i: usize = 0;
            while i < n
                invariant
                    self.wf(),
                    i <= n,
                    total == self.bytes@.len(),
                    n <= self.bytes@.len() - self.pos,
                    v@ == self.bytes@.subrange(self.pos as int, self.pos + i),
                decreases n - i,
            {
                v.push(self.bytes[self.pos + i]);
                i = i + 1;
                proof {
                    assert(v@ =~= self.bytes@.subrange(self.pos as int, self.pos + i));
                }
            }
            proof {
                assert(v@ =~= old(self).remaining().take(n as int));
            }
            self.pos = self.pos + n;
            proof {
                assert(self.remaining() =~= old(self).remaining().skip(n as int));
            }
            Ok(v)
        } else {
            Err(Error::UnexpectedEof)
        }
    }

    /// The consumed bytes between two positions of this cursor.
    pub fn slice_between(&self, start: usize, end: usize) -> (r: &'a [u8])
        requires
            self.wf(),
            start <= end <= self.pos,
        ensures
            r@ == self.bytes@.subrange(start as int, end as int),
    {
        slice_subrange(self.bytes, start, end)
    }

    /// Decodes the next Unicode scalar value from the input's UTF-8 bytes.
    pub fn read_char(&mut self) -> (r: Result<char, Error>)
        requires
            old(self).wf(),
        ensures
            final(self).wf(),
            final(self).bytes@ == old(self).bytes@,
            old(self).pos <= final(self).pos,
            ({
                let s = old(self).remaining();
                if s.len() == 0 {
                    r == Err::<char, Error>(Error::UnexpectedEof) && final(self).pos == old(self).pos
                } else if valid_first_scalar(s) {
                    &&& r matches Ok(c) && c as u32 == decode_first_scalar(s)
                    &&& final(self).pos == old(self).pos + length_of_first_scalar(s)
                    &&& final(self).remaining() == pop_first_scalar(s)
                } else {
                    &&& r == Err::<char, Error>(Error::InvalidUtf8Char)
                    &&& final(self).pos == old(self).pos
                }
            }),
    {
        let ghost s = old(self).remaining();
        let len = self.bytes.len() - self.pos;
        if len == 0 {
            return Err(Error::UnexpectedEof);
        }
        let b0 = self.bytes[self.pos];
        proof {
            assert(b0 == s[0]);
        }
        if b0 < 0x80 {
            // one byte
            let c = b0 as u32;
            proof {
                assert(valid_first_scalar(s) && decode_first_scalar(s) == c
                    && length_of_first_scalar(s) == 1) by {
                    assert(c == (b0 & 0x7f) as u32) by (bit_vector)
                        requires
                            b0 < 0x80,
                            c == b0 as u32,
                    ;
                }
            }
            self.pos = self.pos + 1;
            proof {
                assert(self.remaining() =~= pop_first_scalar(s));
            }
            return Ok(char_from_scalar(c));
        }
        if b0 < 0xc0 {
            // a continuation byte cannot lead
            proof {
                assert(!valid_first_scalar(s));
            }
            return Err(Error::InvalidUtf8Char);
        }
        if b0 < 0xe0 {
            // two bytes
            if len < 2 {
                proof {
                    assert(!valid_first_scalar(s));
                }
                return Err(Error::InvalidUtf8Char);
            }
            let b1 = self.bytes[self.pos + 1];
            proof {
                assert(b1 == s[1]);
            }
            if !(0x80 <= b1 && b1 < 0xc0) {
                proof {
                    assert(!valid_first_scalar(s));
                }
                return Err(Error::InvalidUtf8Char);
            }
            let c = (((b0 & 0x1f) as u32) << 6) | ((b1 & 0x3f) as u32);
            proof {
                assert(c == vstd::utf8::codepoint_width_2(b0, b1));
            }
            if c < 0x80 {
                // overlong encoding
                proof {
                    assert(!valid_first_scalar(s));
                }
                return Err(Error::InvalidUtf8Char);
            }
            proof {
                assert(c <= 0x7ff) by (bit_vector)
                    requires
                        c == (((b0 & 0x1f) as u32) << 6) | ((b1 & 0x3f) as u32),
                ;
                assert(valid_first_scalar(s) && decode_first_scalar(s) == c
                    && length_of_first_scalar(s) == 2);
            }
            self.pos = self.pos + 2;
            proof {
                assert(self.remaining() =~= pop_first_scalar(s));
            }
            return Ok(char_from_scalar(c));
        }
        if b0 < 0xf0 {
            // three bytes
            if len < 3 {
                proof {
                    assert(!valid_first_scalar(s));
                }
                return Err(Error::InvalidUtf8Char);
            }
            let b1 = self.bytes[self.pos + 1];
            let b2 = self.bytes[self.pos + 2];
            proof {
                assert(b1 == s[1] && b2 == s[2]);
            }
            if !(0x80 <= b1 && b1 < 0xc0) || !(0x80 <= b2 && b2 < 0xc0) {
                proof {
                    assert(!valid_first_scalar(s));
                }
                return Err(Error::InvalidUtf8Char);
            }
            let c = (((b0 & 0x0f) as u32) << 12) | (((b1 & 0x3f) as u32) << 6) | ((b2
                & 0x3f) as u32);
            proof {
                assert(c == vstd::utf8::codepoint_width_3(b0, b1, b2));
            }
            if c < 0x800 || (0xd800 <= c && c <= 0xdfff) {
                // overlong encoding or surrogate
                proof {
                    assert(!valid_first_scalar(s));
                }
                return Err(Error::InvalidUtf8Char);
            }
            proof {
                assert(c <= 0xffff) by (bit_vector)
                    requires
                        c == (((b0 & 0x0f) as u32) << 12) | (((b1 & 0x3f) as u32) << 6) | ((b2
                            & 0x3f) as u32),
                ;
                assert(valid_first_scalar(s) && decode_first_scalar(s) == c
                    && length_of_first_scalar(s) == 3);
            }
            self.pos = self.pos + 3;
            proof {
                assert(self.remaining() =~= pop_first_scalar(s));
            }
            return Ok(char_from_scalar(c));
        }
        if b0 < 0xf8 {
            // four bytes
            if len < 4 {
                proof {
                    assert(!valid_first_scalar(s));
                }
                return Err(Error::InvalidUtf8Char);
            }
            let b1 = self.bytes[self.pos + 1];
            let b2 = self.bytes[self.pos + 2];
            let b3 = self.bytes[self.pos + 3];
            proof {
                assert(b1 == s[1] && b2 == s[2] && b3 == s[3]);
            }
            if !(0x80 <= b1 && b1 < 0xc0) || !(0x80 <= b2 && b2 < 0xc0) || !(0x80 <= b3 && b3
                < 0xc0) {
                proof {
                    assert(!valid_first_scalar(s));
                }
                return Err(Error::InvalidUtf8Char);
            }
            let c = (((b0 & 0x07) as u32) << 18) | (((b1 & 0x3f) as u32) << 12) | (((b2
                & 0x3f) as u32) << 6) | ((b3 & 0x3f) as u32);
            proof {
                assert(c == vstd::utf8::codepoint_width_4(b0, b1, b2, b3));
            }
            if c < 0x10000 || c > 0x10ffff {
                // overlong encoding or beyond the last scalar
                proof {
                    assert(!valid_first_scalar(s));
                }
                return Err(Error::InvalidUtf8Char);
            }
            proof {
                assert(valid_first_scalar(s) && decode_first_scalar(s) == c
                    && length_of_first_scalar(s) == 4);
            }
            self.pos = self.pos + 4;
            proof {
                assert(self.remaining() =~= pop_first_scalar(s));
            }
            return Ok(char_from_scalar(c));
        }
        // no UTF-8 leading byte at all
        proof {
            assert(!valid_first_scalar(s));
        }
        Err(Error::InvalidUtf8Char)
    }

    /// Consumes the run of whitespace bytes at the cursor.
    pub fn skip_whitespace(&mut self)
        requires
            old(self).wf(),
        ensures
            final(self).wf(),
            final(self).bytes@ == old(self).bytes@,
            old(self).pos <= final(self).pos,
            final(self).remaining() == skip_ws(old(self).remaining()),
    {
        loop
            invariant
                self.wf(),
                self.bytes@ == old(self).bytes@,
                old(self).pos <= self.pos,
                skip_ws(self.remaining()) == skip_ws(old(self).remaining()),
            ensures
                self.wf(),
                self.bytes@ == old(self).bytes@,
                old(self).pos <= self.pos,
                self.remaining() == skip_ws(old(self).remaining()),
            decreases self.bytes@.len() - self.pos,
        {
            match self.peek_byte() {
                Some(b) if b == 0x09 || b == 0x0a || b == 0x0d || b == 0x20 => {
                    proof {
                        lemma_skip_ws_peel(self.remaining());
                    }
                    let _ = self.read_byte();
                },
                _ => {
                    proof {
                        lemma_skip_ws_nonws(self.remaining());
                    }
                    break;
                },
            }
        }
    }

}

} // verus!
