use vstd::prelude::*;

verus! {

/// A growable character buffer that tracks its length and a capacity which
/// doubles whenever the length reaches it.
pub struct StringData {
    pub len: usize,
    pub size: usize,
    pub buf: Vec<char>,
}

/// A capacity of 64 doubled some number of times.
pub open spec fn capacity_form(size: int) -> bool
    decreases size,
{
    if size <= 64 {
        size == 64
    } else {
        size % 2 == 0 && capacity_form(size / 2)
    }
}

/// Doubling keeps a capacity of that form.
pub proof fn law_doubling_keeps_form(size: int)
    requires
        capacity_form(size),
    ensures
        size >= 64,
        capacity_form(2 * size),
{
    assert((2 * size) / 2 == size);
}

impl StringData {
    /// The buffer's invariant: `len` counts the stored characters and stays
    /// below the capacity `size`.
    pub open spec fn wf(&self) -> bool {
        &&& self.len == self.buf@.len()
        &&& self.len < self.size
    }

    pub fn new() -> (s: StringData)
        ensures
            s.wf(),
            capacity_form(s.size as int),
            s.len == 0,
            s.size == 64,
            s.buf@ == Seq::<char>::empty(),
    {
        let l: usize = 64;
        StringData { len: 0, size: 64, buf: Vec::<char>::with_capacity(l) }
    }

    /// Appends a character; the capacity doubles when the length reaches it.
    pub fn push(&mut self, c: char)
        requires
            old(self).len < usize::MAX,
            old(self).len + 1 >= old(self).size ==> old(self).size * 2 <= usize::MAX,
        ensures
            final(self).buf@ == old(self).buf@.push(c),
            final(self).len == old(self).len + 1,
            final(self).size == if old(self).len + 1 >= old(self).size {
                old(self).size * 2
            } else {
                old(self).size as int
            },
            old(self).wf() && old(self).size > 0 ==> final(self).wf(),
            capacity_form(old(self).size as int) ==> capacity_form(final(self).size as int),
    {
        proof {
            if capacity_form(self.size as int) {
                law_doubling_keeps_form(self.size as int);
            }
        }
        self.buf.push(c);
        self.len = self.len + 1;
        if self.len >= self.size {
            let s = self.buf.clone();
            self.buf = Vec::<char>::with_capacity(self.size * 2);
            self.buf = s;
            self.size = self.size * 2;
        }
    }
}

} // verus!
