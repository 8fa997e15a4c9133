//! A read cursor over a zero-terminated byte text, and the shapes of byte runs.
use vstd::prelude::*;
use vstd::string::StringSliceAdditionalSpecFns;

verus! {

pub const ASCII_PLUS: u8 = 0x2b;

pub const ASCII_MINUS: u8 = 0x2d;

pub const ASCII_POINT: u8 = 0x2e;

pub const ASCII_ZERO: u8 = 0x30;

pub const ASCII_NINE: u8 = 0x39;

/// The byte at position `i` of a zero-terminated text. Positions past the end
/// of the buffer read as the terminator.
pub open spec fn byte_at(s: Seq<u8>, i: int) -> u8 {
    if 0 <= i < s.len() {
        s[i]
    } else {
        0
    }
}

pub open spec fn is_digit(b: u8) -> bool {
    ASCII_ZERO <= b <= ASCII_NINE
}

pub open spec fn is_sign(b: u8) -> bool {
    b == ASCII_PLUS || b == ASCII_MINUS
}

/// Number of bytes an optional sign at position `i` takes.
pub open spec fn sign_len(s: Seq<u8>, i: int) -> int {
    if is_sign(byte_at(s, i)) {
        1
    } else {
        0
    }
}

/// The first position at or after `i` that does not hold a decimal digit.
pub open spec fn digit_run_end(s: Seq<u8>, i: int) -> int
    decreases s.len() - i,
{
    if 0 <= i < s.len() && is_digit(s[i]) {
        digit_run_end(s, i + 1)
    } else {
        i
    }
}

/// The first position at or after `i` that does not hold the digit `0`.
pub open spec fn zero_run_end(s: Seq<u8>, i: int) -> int
    decreases s.len() - i,
{
    if 0 <= i < s.len() && s[i] == ASCII_ZERO {
        zero_run_end(s, i + 1)
    } else {
        i
    }
}

/// The bytes of a digit run are digits, and the run ends inside the text.
pub proof fn lemma_digit_run(s: Seq<u8>, a: int)
    requires
        0 <= a,
    ensures
        a <= digit_run_end(s, a),
        digit_run_end(s, a) <= a || digit_run_end(s, a) <= s.len(),
        forall|j: int| a <= j < digit_run_end(s, a) ==> is_digit(#[trigger] byte_at(s, j)),
    decreases s.len() - a,
{
    if 0 <= a < s.len() && is_digit(s[a]) {
        lemma_digit_run(s, a + 1);
    }
}

/// The bytes of a zero run are zero digits, and the run ends inside the text.
pub proof fn lemma_zero_run(s: Seq<u8>, a: int)
    requires
        0 <= a,
    ensures
        a <= zero_run_end(s, a),
        zero_run_end(s, a) <= a || zero_run_end(s, a) <= s.len(),
        forall|j: int| a <= j < zero_run_end(s, a) ==> #[trigger] byte_at(s, j) == ASCII_ZERO,
    decreases s.len() - a,
{
    if 0 <= a < s.len() && s[a] == ASCII_ZERO {
        lemma_zero_run(s, a + 1);
    }
}

pub fn is_digit_byte(b: u8) -> (r: bool)
    ensures
        r == is_digit(b),
{
    ASCII_ZERO <= b && b <= ASCII_NINE
}

/// A read position in a zero-terminated byte text. The text ends at its first
/// zero byte, or at the end of the buffer if it holds none.
#[derive(Clone, Copy)]
pub struct Reader<'a> {
    text: &'a [u8],
    pos: usize,
}

impl<'a> Reader<'a> {
    /// The bytes of the buffer.
    pub closed spec fn bytes(&self) -> Seq<u8> {
        self.text@
    }

    /// The current read position.
    pub closed spec fn offset(&self) -> int {
        self.pos as int
    }

    pub open spec fn wf(&self) -> bool {
        0 <= self.offset() <= self.bytes().len() <= usize::MAX
    }

    /// The byte under the cursor.
    pub open spec fn current(&self) -> u8 {
        byte_at(self.bytes(), self.offset())
    }

    /// A cursor at the start of a zero-terminated byte buffer.
    pub fn from_raw_ptr(text: &'a [u8]) -> (r: Self)
        ensures
            r.wf(),
            r.bytes() == text@,
            r.offset() == 0,
    {
        let len = text.len();
        assert(text@.len() == len);
        Reader { text, pos: 0 }
    }

    /// A cursor at the start of the bytes of a string.
    pub fn from_str(text: &'a str) -> (r: Self)
        ensures
            r.wf(),
            r.bytes() == text.spec_bytes(),
            r.offset() == 0,
    {
        let bytes = text.as_bytes();
        let len = bytes.len();
        assert(bytes@.len() == len);
        Reader { text: bytes, pos: 0 }
    }

    pub fn position(&self) -> (r: usize)
        requires
            self.wf(),
        ensures
            r == self.offset(),
    {
        self.pos
    }

    pub fn get(&self) -> (r: u8)
        requires
            self.wf(),
        ensures
            r == self.current(),
    {
        if self.pos < self.text.len() {
            self.text[self.pos]
        } else {
            0
        }
    }

    /// Moves one byte forward; the cursor must not stand on the terminator.
    pub fn advance(&mut self)
        requires
            old(self).wf(),
            old(self).current() != 0,
        ensures
            final(self).wf(),
            final(self).bytes() == old(self).bytes(),
            final(self).offset() == old(self).offset() + 1,
    {
        let len = self.text.len();
        assert(self.pos < len);
        self.pos = self.pos + 1;
    }

    /// Whether the cursor stands on the terminator.
    pub fn ended(&self) -> (r: bool)
        requires
            self.wf(),
        ensures
            r == (self.current() == 0),
    {
        self.get() == 0
    }
}

} // verus!
