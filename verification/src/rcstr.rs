//! A shared string of which windows can be taken without copying.

use std::rc::Rc;
use vstd::prelude::*;
use vstd::utf8::{
    decode_utf8, encode_utf8, encode_utf8_decode_utf8, encode_utf8_valid_utf8, is_char_boundary,
    is_char_boundary_iff_not_is_continuation_byte, is_char_boundary_start_end_of_seq,
    valid_utf8_split,
};

verus! {

/// A window of bytes into a string that is shared by reference count. Taking
/// a window copies no text.
pub struct RcSliceableString {
    string: Rc<String>,
    start: usize,
    len: usize,
}

impl View for RcSliceableString {
    type V = Seq<char>;

    /// The text in the window, where the window starts and ends between two
    /// characters.
    open spec fn view(&self) -> Seq<char> {
        decode_utf8(self.bytes())
    }
}

impl RcSliceableString {
    #[verifier::type_invariant]
    spec fn fits(&self) -> bool {
        self.start + self.len <= usize::MAX
    }

    /// The bytes of the whole shared string, in UTF-8.
    pub closed spec fn whole(&self) -> Seq<u8> {
        encode_utf8(self.string@)
    }

    /// The byte at which the window starts, counted in the whole string.
    pub closed spec fn offset(&self) -> nat {
        self.start as nat
    }

    /// The number of bytes in the window.
    pub closed spec fn length(&self) -> nat {
        self.len as nat
    }

    /// The bytes in the window.
    pub open spec fn bytes(&self) -> Seq<u8> {
        self.whole().subrange(self.offset() as int, (self.offset() + self.length()) as int)
    }

    /// The window starts and ends between two characters of the whole string
    /// (or at its start or end).
    pub open spec fn on_char_boundaries(&self) -> bool {
        &&& is_char_boundary(self.whole(), self.offset() as int)
        &&& is_char_boundary(self.whole(), (self.offset() + self.length()) as int)
    }

    /// Shares `s`; the window is the whole string.
    pub fn new(s: String) -> (r: RcSliceableString)
        requires
            encode_utf8(s@).len() <= usize::MAX,
        ensures
            r.whole() == encode_utf8(s@),
            r.offset() == 0,
            r.length() == encode_utf8(s@).len(),
            r.on_char_boundaries(),
            r@ == s@,
    {
        let len: usize = s.as_str().len();
        proof {
            let bytes = encode_utf8(s@);
            encode_utf8_valid_utf8(s@);
            is_char_boundary_start_end_of_seq(bytes);
            encode_utf8_decode_utf8(s@);
            assert(bytes.subrange(0, bytes.len() as int) == bytes);
        }
        RcSliceableString { string: Rc::new(s), start: 0, len: len }
    }

    /// The window of `len` bytes that starts at byte `start` of the whole
    /// string. It must lie inside this window.
    pub fn slice(&self, start: usize, len: usize) -> (r: RcSliceableString)
        requires
            start >= self.offset(),
            start + len <= self.offset() + self.length(),
        ensures
            r.whole() == self.whole(),
            r.offset() == start,
            r.length() == len,
    {
        proof {
            use_type_invariant(self);
        }
        RcSliceableString { string: self.string.clone(), start: start, len: len }
    }

    /// The text in the window, borrowed from the shared string.
    pub fn as_str(&self) -> (r: &str)
        requires
            self.on_char_boundaries(),
        ensures
            r@ == self@,
            encode_utf8(r@) == self.bytes(),
    {
        proof {
            use_type_invariant(self);
        }
        let whole: &str = self.string.as_str();
        let end: usize = self.start + self.len;
        let ghost bytes = encode_utf8(whole@);
        proof {
            encode_utf8_valid_utf8(whole@);
            valid_utf8_split(bytes, end as int);
            let head = bytes.subrange(0, end as int);
            if self.start < end {
                is_char_boundary_iff_not_is_continuation_byte(bytes, self.start as int);
                is_char_boundary_iff_not_is_continuation_byte(head, self.start as int);
            } else {
                is_char_boundary_start_end_of_seq(head);
            }
        }
        let (head, _) = whole.split_at(end);
        let (_, window) = head.split_at(self.start);
        proof {
            assert(encode_utf8(window@) == self.bytes());
            encode_utf8_decode_utf8(window@);
        }
        window
    }
}

} // verus!
