//! A gap buffer for line editing: a byte buffer with an empty gap at the
//! cursor, so insertions and deletions at the cursor are cheap. The model
//! is the text (the bytes outside the gap) and the cursor position.

use vstd::prelude::*;
use vstd::string::StringSliceAdditionalSpecFns;
use vstd::utf8::decode_utf8;
use vstd::utf8::valid_utf8;

verus! {

pub const GROW_BY: usize = 32;

/// The capacity after growing the gap until `need` bytes fit strictly
/// inside it, for a buffer of capacity `cap` holding `tlen` text bytes.
pub open spec fn grown_capacity(cap: int, tlen: int, need: int) -> int
    decreases (if need + 2 + tlen - cap >= 0 {
        need + 2 + tlen - cap
    } else {
        0
    }),
{
    if need >= cap - tlen - 1 {
        grown_capacity(cap + GROW_BY, tlen, need)
    } else {
        cap
    }
}

/// The buffer of bytes with a gap. `left` is the first gap slot, `right`
/// the last one; the text is what lies outside the gap.
#[derive(Debug, Clone)]
pub struct GapBuffer {
    left: usize,
    right: usize,
    pub capacity: usize,
    buffer: Vec<u8>,
}

impl GapBuffer {
    /// The raw bytes of the backing buffer, gap slots included.
    pub closed spec fn raw(self) -> Seq<u8> {
        self.buffer@
    }

    /// The text held: the bytes before the gap, then the bytes after it.
    pub closed spec fn text(self) -> Seq<u8> {
        self.buffer@.subrange(0, self.left as int) + self.buffer@.subrange(
            self.right + 1,
            self.buffer@.len() as int,
        )
    }

    /// The stated capacity: the length of the backing buffer.
    pub closed spec fn cap(self) -> int {
        self.capacity as int
    }

    /// The cursor: the text position at which insertions land.
    pub closed spec fn cursor(self) -> int {
        self.left as int
    }

    /// The gap never runs empty and lies inside the buffer, whose length
    /// is the stated capacity.
    pub closed spec fn wf(self) -> bool {
        &&& self.left < self.right
        &&& self.right < self.capacity
        &&& self.capacity == self.buffer@.len()
    }

    pub fn new(capacity: usize) -> (r: Self)
        requires
            2 <= capacity,
        ensures
            r.wf(),
            r.cap() == capacity,
            r.text() == Seq::<u8>::empty(),
            r.cursor() == 0,
            r.raw() == Seq::new(capacity as nat, |i: int| 0u8),
    {
        let mut buffer: Vec<u8> = Vec::new();
        let mut i: usize = 0;
        while i < capacity
            invariant
                i <= capacity,
                buffer@ == Seq::new(i as nat, |j: int| 0u8),
            decreases capacity - i,
        {
            buffer.push(0u8);
            i = i + 1;
            proof {
                assert(buffer@ =~= Seq::new(i as nat, |j: int| 0u8));
            }
        }
        let r = Self { left: 0, right: capacity - 1, capacity, buffer };
        proof {
            assert(r.text() =~= Seq::<u8>::empty());
        }
        r
    }

    /// Grow the gap by `GROW_BY` bytes: the text and cursor stay as they
    /// are, the capacity increases.
    fn grow(&mut self)
        requires
            old(self).wf(),
            old(self).cap() + GROW_BY <= usize::MAX,
        ensures
            final(self).wf(),
            final(self).text() == old(self).text(),
            final(self).cursor() == old(self).cursor(),
            final(self).cap() == old(self).cap() + GROW_BY,
            final(self).raw() == old(self).raw().subrange(0, old(self).cursor()) + Seq::new(
                GROW_BY as nat,
                |i: int| 0u8,
            ) + old(self).raw().subrange(old(self).cursor(), old(self).raw().len() as int),
    {
        let mut nb: Vec<u8> = Vec::new();
        let mut i: usize = 0;
        while i < self.left
            invariant
                *self == *old(self),
                old(self).wf(),
                i <= self.left,
                nb@ == self.buffer@.subrange(0, i as int),
            decreases self.left - i,
        {
            let b = self.buffer[i];
            nb.push(b);
            i = i + 1;
            proof {
                assert(nb@ =~= self.buffer@.subrange(0, i as int));
            }
        }
        let mut j: usize = 0;
        while j < GROW_BY
            invariant
                *self == *old(self),
                old(self).wf(),
                j <= GROW_BY,
                nb@ == self.buffer@.subrange(0, self.left as int) + Seq::new(j as nat, |k: int| 0u8),
            decreases GROW_BY - j,
        {
            nb.push(0u8);
            j = j + 1;
            proof {
                assert(nb@ =~= self.buffer@.subrange(0, self.left as int) + Seq::new(
                    j as nat,
                    |k: int| 0u8,
                ));
            }
        }
        let mut k: usize = self.left;
        while k < self.buffer.len()
            invariant
                *self == *old(self),
                old(self).wf(),
                self.left <= k <= self.buffer@.len(),
                nb@ == self.buffer@.subrange(0, self.left as int) + Seq::new(
                    GROW_BY as nat,
                    |m: int| 0u8,
                ) + self.buffer@.subrange(self.left as int, k as int),
            decreases self.buffer@.len() - k,
        {
            let b = self.buffer[k];
            nb.push(b);
            k = k + 1;
            proof {
                assert(nb@ =~= self.buffer@.subrange(0, self.left as int) + Seq::new(
                    GROW_BY as nat,
                    |m: int| 0u8,
                ) + self.buffer@.subrange(self.left as int, k as int));
            }
        }
        self.right = self.right + GROW_BY;
        self.capacity = self.capacity + GROW_BY;
        self.buffer = nb;
        proof {
            assert(self.text() =~= old(self).text());
        }
    }

    /// Insert one byte at the cursor. When only two gap slots are left,
    /// the buffer grows first.
    pub fn insert_byte(&mut self, c: u8)
        requires
            old(self).wf(),
            old(self).cap() + GROW_BY <= usize::MAX,
        ensures
            final(self).wf(),
            final(self).text() == old(self).text().insert(old(self).cursor(), c),
            final(self).cursor() == old(self).cursor() + 1,
            final(self).cap() == if old(self).cap() - old(self).text().len() <= 2 {
                old(self).cap() + GROW_BY
            } else {
                old(self).cap()
            },
    {
        proof {
            assert(old(self).text().len() == old(self).left + (old(self).buffer@.len() - old(
                self,
            ).right - 1));
        }
        if self.left + 1 == self.right {
            self.grow();
        }
        self.buffer[self.left] = c;
        self.left = self.left + 1;
        proof {
            assert(self.text() =~= old(self).text().insert(old(self).cursor(), c));
        }
    }

    /// Insert one character at the cursor as a single byte (its low
    /// byte, as a cast to `u8` truncates).
    pub fn insert_char(&mut self, c: char)
        requires
            old(self).wf(),
            old(self).cap() + GROW_BY <= usize::MAX,
        ensures
            final(self).wf(),
            final(self).text() == old(self).text().insert(old(self).cursor(), c as u8),
            final(self).cursor() == old(self).cursor() + 1,
            final(self).cap() == if old(self).cap() - old(self).text().len() <= 2 {
                old(self).cap() + GROW_BY
            } else {
                old(self).cap()
            },
    {
        self.insert_byte(c as u8)
    }

    /// Insert a slice of bytes at the cursor, growing the buffer as much
    /// as needed.
    pub fn insert(&mut self, slice: &[u8])
        requires
            old(self).wf(),
            old(self).cap() + slice@.len() + 2 * GROW_BY <= usize::MAX,
        ensures
            final(self).wf(),
            final(self).text() == old(self).text().take(old(self).cursor()) + slice@ + old(
                self,
            ).text().skip(old(self).cursor()),
            final(self).cursor() == old(self).cursor() + slice@.len(),
            final(self).cap() == grown_capacity(
                old(self).cap(),
                old(self).text().len() as int,
                slice@.len() as int,
            ),
    {
        let len = slice.len();
        proof {
            assert(old(self).text().len() == old(self).left + (old(self).buffer@.len() - old(
                self,
            ).right - 1));
        }
        while len >= self.right - self.left
            invariant
                self.wf(),
                len == slice@.len(),
                self.text() == old(self).text(),
                self.cursor() == old(self).cursor(),
                old(self).wf(),
                old(self).text().len() + 2 <= old(self).cap(),
                old(self).capacity + len + 2 * GROW_BY <= usize::MAX,
                grown_capacity(self.capacity as int, self.text().len() as int, len as int)
                    == grown_capacity(
                    old(self).capacity as int,
                    old(self).text().len() as int,
                    len as int,
                ),
            decreases (if len + 2 + self.text().len() - self.capacity >= 0 {
                len + 2 + self.text().len() - self.capacity
            } else {
                0
            }),
        {
            proof {
                assert(self.text().len() == self.left + (self.buffer@.len() - self.right - 1));
                assert(self.capacity <= len + self.text().len() + 1);
            }
            self.grow();
        }
        proof {
            assert(self.text().len() == self.left + (self.buffer@.len() - self.right - 1));
            assert(grown_capacity(self.capacity as int, self.text().len() as int, len as int)
                == self.capacity);
        }
        let ghost mid = *self;
        let mut si: usize = 0;
        while si < len
            invariant
                mid.wf(),
                self.left == mid.left,
                self.right == mid.right,
                self.capacity == mid.capacity,
                self.buffer@.len() == mid.buffer@.len(),
                len == slice@.len(),
                si <= len,
                mid.left + len < mid.right,
                forall|j: int| 0 <= j < mid.left ==> self.buffer@[j] == mid.buffer@[j],
                forall|j: int|
                    mid.left <= j < mid.left + si ==> self.buffer@[j] == slice@[j - mid.left],
                forall|j: int|
                    mid.left + si <= j < mid.buffer@.len() ==> self.buffer@[j] == mid.buffer@[j],
            decreases len - si,
        {
            let b = slice[si];
            self.buffer[self.left + si] = b;
            si = si + 1;
        }
        self.left = self.left + len;
        proof {
            assert(self.text() =~= old(self).text().take(old(self).cursor()) + slice@ + old(
                self,
            ).text().skip(old(self).cursor()));
        }
    }

    /// Insert a string slice's bytes at the cursor, growing the buffer as
    /// much as needed.
    pub fn insert_str(&mut self, str: &str)
        requires
            old(self).wf(),
            old(self).cap() + str.spec_bytes().len() + 2 * GROW_BY <= usize::MAX,
        ensures
            final(self).wf(),
            final(self).text() == old(self).text().take(old(self).cursor()) + str.spec_bytes()
                + old(self).text().skip(old(self).cursor()),
            final(self).cursor() == old(self).cursor() + str.spec_bytes().len(),
            final(self).cap() == grown_capacity(
                old(self).cap(),
                old(self).text().len() as int,
                str.spec_bytes().len() as int,
            ),
    {
        self.insert(str.as_bytes())
    }

    /// Move the cursor left by `n` bytes, stopping at the start of the
    /// text; the text itself is unchanged.
    pub fn left_by(&mut self, n: usize)
        requires
            old(self).wf(),
        ensures
            final(self).wf(),
            final(self).text() == old(self).text(),
            final(self).cap() == old(self).cap(),
            final(self).cursor() == if n > old(self).cursor() {
                0
            } else {
                old(self).cursor() - n
            },
    {
        let shift = if n > self.left {
            self.left
        } else {
            n
        };
        let mut k: usize = 0;
        while k < shift
            invariant
                self.wf(),
                k <= shift,
                shift <= old(self).left,
                self.left == old(self).left - k,
                self.right == old(self).right - k,
                self.capacity == old(self).capacity,
                self.text() == old(self).text(),
            decreases shift - k,
        {
            let a = self.buffer[self.left - 1];
            let b = self.buffer[self.right];
            let ghost prev = *self;
            self.buffer[self.left - 1] = b;
            self.buffer[self.right] = a;
            self.left = self.left - 1;
            self.right = self.right - 1;
            k = k + 1;
            proof {
                assert(self.text() =~= prev.text());
            }
        }
    }

    /// Move the cursor right by `n` bytes, stopping at the end of the
    /// text; the text itself is unchanged.
    pub fn right_by(&mut self, n: usize)
        requires
            old(self).wf(),
        ensures
            final(self).wf(),
            final(self).text() == old(self).text(),
            final(self).cap() == old(self).cap(),
            final(self).cursor() == if old(self).cursor() + n > old(self).text().len() {
                old(self).text().len() as int
            } else {
                old(self).cursor() + n
            },
    {
        proof {
            assert(old(self).text().len() == old(self).left + (old(self).buffer@.len() - old(
                self,
            ).right - 1));
        }
        let room = self.capacity - 1 - self.right;
        let shift = if n > room {
            room
        } else {
            n
        };
        let mut k: usize = 0;
        while k < shift
            invariant
                self.wf(),
                k <= shift,
                shift <= old(self).capacity - 1 - old(self).right,
                self.left == old(self).left + k,
                self.right == old(self).right + k,
                self.capacity == old(self).capacity,
                self.text() == old(self).text(),
            decreases shift - k,
        {
            let a = self.buffer[self.right + 1];
            let b = self.buffer[self.left];
            let ghost prev = *self;
            self.buffer[self.right + 1] = b;
            self.buffer[self.left] = a;
            self.left = self.left + 1;
            self.right = self.right + 1;
            k = k + 1;
            proof {
                assert(self.text() =~= prev.text());
            }
        }
        proof {
            assert(self.text().len() == self.left + (self.buffer@.len() - self.right - 1));
        }
    }

    /// Delete up to `n` bytes to the left of the cursor by widening the
    /// gap; the bytes are not overwritten, only excluded from the text.
    pub fn delete_left(&mut self, n: usize)
        requires
            old(self).wf(),
        ensures
            final(self).wf(),
            final(self).cap() == old(self).cap(),
            final(self).cursor() == if n > old(self).cursor() {
                0
            } else {
                old(self).cursor() - n
            },
            final(self).text() == old(self).text().take(final(self).cursor()) + old(
                self,
            ).text().skip(old(self).cursor()),
    {
        self.left = if n > self.left {
            0
        } else {
            self.left - n
        };
        proof {
            assert(self.text() =~= old(self).text().take(self.cursor()) + old(self).text().skip(
                old(self).cursor(),
            ));
        }
    }

    /// Delete up to `n` bytes to the right of the cursor by widening the
    /// gap; the bytes are not overwritten, only excluded from the text.
    pub fn delete_right(&mut self, n: usize)
        requires
            old(self).wf(),
        ensures
            final(self).wf(),
            final(self).cap() == old(self).cap(),
            final(self).cursor() == old(self).cursor(),
            final(self).text() == old(self).text().take(old(self).cursor()) + old(
                self,
            ).text().skip(
                old(self).cursor() + if old(self).cursor() + n > old(self).text().len() {
                    (old(self).text().len() - old(self).cursor()) as int
                } else {
                    n as int
                },
            ),
    {
        proof {
            assert(old(self).text().len() == old(self).left + (old(self).buffer@.len() - old(
                self,
            ).right - 1));
        }
        let room = self.capacity - 1 - self.right;
        let k = if n > room {
            room
        } else {
            n
        };
        self.right = self.right + k;
        proof {
            assert(self.text() =~= old(self).text().take(old(self).cursor()) + old(
                self,
            ).text().skip(old(self).cursor() + k));
        }
    }

    /// Return the start and end indices of the gap: the first gap slot
    /// (the cursor) and the last one.
    pub fn gap(&self) -> (r: (usize, usize))
        requires
            self.wf(),
        ensures
            r.0 == self.cursor(),
            r.1 == self.cap() - (self.text().len() - self.cursor()) - 1,
            0 <= self.cursor() <= self.text().len(),
            r.1 < self.cap(),
    {
        proof {
            assert(self.text().len() == self.left + (self.buffer@.len() - self.right - 1));
        }
        (self.left, self.right)
    }

    /// The raw backing bytes: the text's head up to the cursor, then the
    /// gap slots, then the rest of the text.
    pub fn buffer(&self) -> (r: &Vec<u8>)
        requires
            self.wf(),
        ensures
            r@ == self.raw(),
            r@.len() == self.cap(),
            self.text() == r@.subrange(0, self.cursor()) + r@.subrange(
                self.cap() - (self.text().len() - self.cursor()),
                self.cap(),
            ),
    {
        proof {
            assert(self.text().len() == self.left + (self.buffer@.len() - self.right - 1));
            assert(self.text() =~= self.raw().subrange(0, self.cursor()) + self.raw().subrange(
                self.capacity - (self.text().len() - self.cursor()),
                self.capacity as int,
            ));
        }
        &self.buffer
    }

    /// The text as a string. The text must be valid UTF-8; the result is
    /// its decoding, so the gap is invisible.
    pub fn to_string(&self) -> (r: String)
        requires
            self.wf(),
            valid_utf8(self.text()),
        ensures
            r@ == decode_utf8(self.text()),
    {
        let mut content: Vec<u8> = Vec::new();
        let mut i: usize = 0;
        while i < self.left
            invariant
                self.wf(),
                i <= self.left,
                content@ == self.buffer@.subrange(0, i as int),
            decreases self.left - i,
        {
            let b = self.buffer[i];
            content.push(b);
            i = i + 1;
            proof {
                assert(content@ =~= self.buffer@.subrange(0, i as int));
            }
        }
        let mut j: usize = self.right + 1;
        while j < self.buffer.len()
            invariant
                self.wf(),
                self.right + 1 <= j <= self.buffer@.len(),
                content@ == self.buffer@.subrange(0, self.left as int) + self.buffer@.subrange(
                    self.right + 1,
                    j as int,
                ),
            decreases self.buffer@.len() - j,
        {
            let b = self.buffer[j];
            content.push(b);
            j = j + 1;
            proof {
                assert(content@ =~= self.buffer@.subrange(0, self.left as int)
                    + self.buffer@.subrange(self.right + 1, j as int));
            }
        }
        proof {
            assert(content@ =~= self.text());
        }
        utf8_string(&content)
    }
}

impl Default for GapBuffer {
    /// A buffer of the default capacity `GROW_BY`, empty, cursor at the
    /// start.
    fn default() -> (r: Self)
        ensures
            r.wf(),
            r.cap() == GROW_BY,
            r.text() == Seq::<u8>::empty(),
            r.cursor() == 0,
            r.raw() == Seq::new(GROW_BY as nat, |i: int| 0u8),
    {
        Self::new(GROW_BY)
    }
}

/// Bounds every well-formed buffer obeys: the cursor lies within the
/// text, and the gap keeps at least two spare slots.
pub proof fn lemma_gap_buffer_bounds(gb: GapBuffer)
    requires
        gb.wf(),
    ensures
        0 <= gb.cursor() <= gb.text().len(),
        gb.text().len() + 2 <= gb.cap(),
{
    assert(gb.text().len() == gb.left + (gb.buffer@.len() - gb.right - 1));
}

/// Relies on `String::from_utf8`: on valid UTF-8 bytes it succeeds and
/// returns the string whose characters those bytes encode.
#[verifier::external_body]
fn utf8_string(v: &Vec<u8>) -> (r: String)
    requires
        valid_utf8(v@),
    ensures
        r@ == decode_utf8(v@),
{
    String::from_utf8(v.clone()).expect("valid utf-8 bytes form a string")
}

} // verus!
