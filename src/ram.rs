use vstd::prelude::*;

verus! {

/// Number of words in the address space.
pub const RAM_SIZE: usize = 0x10000;

/// The 65 536-word main memory of the machine.
pub struct Ram(pub Vec<u16>);

impl View for Ram {
    type V = Seq<u16>;

    open spec fn view(&self) -> Seq<u16> {
        self.0@
    }
}

/// The address that lies `off` words after `base`, wrapping at 2^16.
pub open spec fn wrap_addr(base: int, off: int) -> int {
    (base + off) % 0x10000
}

impl Ram {
    /// A memory holds exactly one word per 16-bit address.
    pub open spec fn wf(&self) -> bool {
        self@.len() == RAM_SIZE
    }

    /// A zeroed memory.
    pub fn new() -> (r: Ram)
        ensures
            r.wf(),
            forall|i: int| 0 <= i < RAM_SIZE ==> r@[i] == 0,
    {
        Ram(vec![0u16; RAM_SIZE])
    }

    /// The word at `addr`.
    pub fn get(&self, addr: u16) -> (r: u16)
        requires
            self.wf(),
        ensures
            r == self@[addr as int],
    {
        self.0[addr as usize]
    }

    /// Stores `v` at `addr`.
    pub fn set(&mut self, addr: u16, v: u16)
        requires
            old(self).wf(),
        ensures
            final(self).wf(),
            final(self)@ == old(self)@.update(addr as int, v),
    {
        self.0.set(addr as usize, v);
    }

    /// A copy of the words in `[lo, hi)`.
    pub fn range(&self, lo: u16, hi: u16) -> (r: Vec<u16>)
        requires
            self.wf(),
            lo <= hi,
        ensures
            r@ == self@.subrange(lo as int, hi as int),
    {
        let mut out: Vec<u16> = Vec::new();
        let mut i: usize = lo as usize;
        while i < hi as usize
            invariant
                self.wf(),
                lo <= i <= hi,
                out@ == self@.subrange(lo as int, i as int),
            decreases hi - i,
        {
            out.push(self.0[i]);
            i = i + 1;
        }
        out
    }

    /// A copy of the words from `lo` to the end of memory.
    pub fn range_from(&self, lo: u16) -> (r: Vec<u16>)
        requires
            self.wf(),
        ensures
            r@ == self@.subrange(lo as int, RAM_SIZE as int),
    {
        let mut out: Vec<u16> = Vec::new();
        let mut i: usize = lo as usize;
        while i < RAM_SIZE
            invariant
                self.wf(),
                lo <= i <= RAM_SIZE,
                out@ == self@.subrange(lo as int, i as int),
            decreases RAM_SIZE - i,
        {
            out.push(self.0[i]);
            i = i + 1;
        }
        out
    }

    /// A copy of the words below `hi`.
    pub fn range_to(&self, hi: u16) -> (r: Vec<u16>)
        requires
            self.wf(),
        ensures
            r@ == self@.subrange(0, hi as int),
    {
        self.range(0, hi)
    }

    /// Copies `image` into memory starting at `base`; addresses wrap at 2^16.
    pub fn load(&mut self, image: &[u16], base: u16)
        requires
            old(self).wf(),
            image@.len() <= RAM_SIZE,
        ensures
            final(self).wf(),
            forall|k: int|
                0 <= k < image@.len() ==> final(self)@[wrap_addr(base as int, k)] == image@[k],
            forall|j: int|
                0 <= j < RAM_SIZE && !(exists|k: int|
                    0 <= k < image@.len() && j == #[trigger] wrap_addr(base as int, k))
                    ==> final(self)@[j] == old(self)@[j],
    {
        let mut k: usize = 0;
        while k < image.len()
            invariant
                self.wf(),
                k <= image@.len() <= RAM_SIZE,
                forall|m: int| 0 <= m < k ==> self@[wrap_addr(base as int, m)] == image@[m],
                forall|j: int|
                    0 <= j < RAM_SIZE && !(exists|m: int|
                        0 <= m < k && j == #[trigger] wrap_addr(base as int, m))
                        ==> self@[j] == old(self)@[j],
            decreases image@.len() - k,
        {
            let addr: usize = (base as usize + k) % RAM_SIZE;
            proof {
                assert forall|m: int| 0 <= m < k implies wrap_addr(base as int, m) != addr by {
                    assert(wrap_addr(base as int, m) != wrap_addr(base as int, k as int));
                }
            }
            self.0.set(addr, image[k]);
            proof {
                assert forall|j: int|
                    0 <= j < RAM_SIZE && !(exists|m: int|
                        0 <= m < k + 1 && j == #[trigger] wrap_addr(base as int, m))
                        implies self@[j] == old(self)@[j] by {
                    assert(j != wrap_addr(base as int, k as int));
                    assert(!(exists|m: int| 0 <= m < k && j == #[trigger] wrap_addr(base as int, m))) by {
                        if exists|m: int| 0 <= m < k && j == #[trigger] wrap_addr(base as int, m) {
                            let m = choose|m: int| 0 <= m < k && j == #[trigger] wrap_addr(base as int, m);
                            assert(0 <= m < k + 1);
                        }
                    }
                }
            }
            k = k + 1;
        }
    }
}

} // verus!
