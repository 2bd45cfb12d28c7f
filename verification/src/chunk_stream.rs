//! A source of exactly two six-byte chunks, `abcdef` then `ghijkl`, that
//! reports its end once both are handed out.
use vstd::prelude::*;

verus! {

/// The chunk handed out at `step`, if any.
pub open spec fn chunk_at(step: usize) -> Option<Seq<u8>> {
    if step == 0 {
        Some(seq![97u8, 98u8, 99u8, 100u8, 101u8, 102u8])
    } else if step == 1 {
        Some(seq![103u8, 104u8, 105u8, 106u8, 107u8, 108u8])
    } else {
        None
    }
}

/// The stream has exactly two chunks, of six bytes each, and nothing after them.
pub proof fn lemma_exactly_two_chunks(step: usize)
    ensures
        chunk_at(step) is Some <==> step < 2,
        chunk_at(step) matches Some(c) ==> c.len() == 6,
{
}

/// Hands out its chunks one at a time; `step` counts the chunks handed out.
pub struct MyStream {
    pub step: usize,
}

impl MyStream {
    /// The next chunk, `abcdef` then `ghijkl`, and after them none; each
    /// chunk handed out advances the step by one.
    pub fn next_chunk(&mut self) -> (r: Option<Vec<u8>>)
        ensures
            match chunk_at(old(self).step) {
                Some(c) => r matches Some(v) && v@ == c && final(self).step == old(self).step + 1,
                None => r is None && final(self).step == old(self).step,
            },
    {
        match self.step {
            0 => {
                self.step += 1;
                let v = vec![97u8, 98u8, 99u8, 100u8, 101u8, 102u8];
                assert(v@ =~= seq![97u8, 98u8, 99u8, 100u8, 101u8, 102u8]);
                Some(v)
            },
            1 => {
                self.step += 1;
                let v = vec![103u8, 104u8, 105u8, 106u8, 107u8, 108u8];
                assert(v@ =~= seq![103u8, 104u8, 105u8, 106u8, 107u8, 108u8]);
                Some(v)
            },
            _ => None,
        }
    }
}

} // verus!
