//! The stream of LZ77 tokens that block splitting works on.

use vstd::prelude::*;
use libc::{c_ushort, size_t};

verus! {

/// A stream of LZ77 tokens. Token `i` is a literal byte where `dists[i]` is 0, and then
/// `litlens[i]` is the byte; otherwise it is a match of `litlens[i]` bytes at distance
/// `dists[i]`.
pub struct Lz77Store {
    pub litlens: Vec<c_ushort>,
    pub dists: Vec<c_ushort>,
}

impl Lz77Store {
    /// The two lists have one entry per token, and every match is at least three bytes long.
    pub open spec fn wf(&self) -> bool {
        &&& self.litlens@.len() == self.dists@.len()
        &&& forall|i: int|
            0 <= i < self.dists@.len() && self.dists@[i] != 0 ==> #[trigger] self.litlens@[i] >= 3
    }

    /// The number of tokens.
    pub open spec fn spec_size(&self) -> size_t {
        self.litlens@.len() as size_t
    }

    /// The number of input bytes that token `i` stands for.
    pub open spec fn token_len(&self, i: int) -> int {
        if self.dists@[i] == 0 {
            1
        } else {
            self.litlens@[i] as int
        }
    }

    /// The number of input bytes that the first `n` tokens stand for.
    pub open spec fn byte_len(&self, n: int) -> int
        decreases n,
    {
        if n <= 0 {
            0
        } else {
            self.byte_len(n - 1) + self.token_len(n - 1)
        }
    }

    /// The number of input bytes that the whole stream stands for.
    pub open spec fn total_len(&self) -> int {
        self.byte_len(self.spec_size() as int)
    }

    /// An empty stream.
    pub fn new() -> (r: Lz77Store)
        ensures
            r.wf(),
            r.litlens@ == Seq::<c_ushort>::empty(),
            r.dists@ == Seq::<c_ushort>::empty(),
    {
        Lz77Store { litlens: Vec::new(), dists: Vec::new() }
    }

    /// The number of tokens.
    #[verifier::when_used_as_spec(spec_size)]
    pub fn size(&self) -> (r: size_t)
        ensures
            r == self.spec_size(),
    {
        self.litlens.len()
    }

    /// Appends one token: the literal byte `length` where `dist` is 0, else a match of
    /// `length` bytes at distance `dist`.
    pub fn lit_len_dist(&mut self, length: c_ushort, dist: c_ushort)
        requires
            old(self).wf(),
            dist == 0 || length >= 3,
        ensures
            final(self).wf(),
            final(self).litlens@ == old(self).litlens@.push(length),
            final(self).dists@ == old(self).dists@.push(dist),
    {
        self.litlens.push(length);
        self.dists.push(dist);
    }

    /// The number of input bytes that token `i` stands for.
    pub fn token_length(&self, i: size_t) -> (r: c_ushort)
        requires
            self.wf(),
            i < self.spec_size(),
        ensures
            r == self.token_len(i as int),
            r >= 1,
    {
        if self.dists[i] == 0 {
            1
        } else {
            self.litlens[i]
        }
    }

    /// Tells whether the stream is well formed.
    pub fn is_wf(&self) -> (r: bool)
        ensures
            r == self.wf(),
    {
        if self.litlens.len() != self.dists.len() {
            return false;
        }
        let mut i: size_t = 0;
        while i < self.dists.len()
            invariant
                i <= self.dists@.len(),
                self.litlens@.len() == self.dists@.len(),
                forall|j: int|
                    0 <= j < i && self.dists@[j] != 0 ==> #[trigger] self.litlens@[j] >= 3,
            decreases self.dists@.len() - i,
        {
            if self.dists[i] != 0 && self.litlens[i] < 3 {
                return false;
            }
            i += 1;
        }
        true
    }

    /// The number of input bytes that the whole stream stands for, or `None` where that
    /// number is above `limit`.
    pub fn byte_length_within(&self, limit: size_t) -> (r: Option<size_t>)
        requires
            self.wf(),
        ensures
            match r {
                Some(n) => n == self.total_len() && n <= limit,
                None => self.total_len() > limit,
            },
    {
        let mut total: size_t = 0;
        let mut i: size_t = 0;
        while i < self.size()
            invariant
                self.wf(),
                i <= self.spec_size(),
                total == self.byte_len(i as int),
                total <= limit,
            decreases self.spec_size() - i,
        {
            let length = self.token_length(i) as size_t;
            if length > limit - total {
                proof {
                    self.lemma_byte_len_monotonic(i + 1, self.spec_size() as int);
                }
                return None;
            }
            total += length;
            i += 1;
        }
        Some(total)
    }

    /// The bytes before a token are at most the bytes before any later token.
    pub proof fn lemma_byte_len_monotonic(&self, i: int, j: int)
        requires
            self.wf(),
            0 <= i <= j <= self.spec_size(),
        ensures
            0 <= self.byte_len(i),
            self.byte_len(i) + (j - i) <= self.byte_len(j),
        decreases j,
    {
        if j > 0 {
            if i < j {
                self.lemma_byte_len_monotonic(i, j - 1);
            } else {
                self.lemma_byte_len_monotonic(i - 1, j - 1);
            }
        }
    }
}

} // verus!
