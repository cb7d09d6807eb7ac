use vstd::prelude::*;

verus! {

/// An append-only store of optional byte strings, kept as one data buffer,
/// an offset per slot boundary and a validity flag per slot.
pub struct ByteValues {
    offsets: Vec<usize>,
    data: Vec<u8>,
    validity: Vec<bool>,
}

impl View for ByteValues {
    type V = Seq<Option<Seq<u8>>>;

    closed spec fn view(&self) -> Seq<Option<Seq<u8>>> {
        Seq::new(
            self.validity@.len(),
            |i: int|
                if self.validity@[i] {
                    Some(self.data@.subrange(self.offsets@[i] as int, self.offsets@[i + 1] as int))
                } else {
                    None
                },
        )
    }
}

impl ByteValues {
    /// The offsets are a non-decreasing run from 0 to the data length, one
    /// more than there are slots.
    pub closed spec fn wf(&self) -> bool {
        &&& self.offsets@.len() == self.validity@.len() + 1
        &&& self.offsets@.len() <= usize::MAX
        &&& self.offsets@[0] == 0
        &&& self.offsets@.last() == self.data@.len()
        &&& forall|i: int, j: int|
            0 <= i <= j < self.offsets@.len() ==> self.offsets@[i] <= self.offsets@[j]
    }

    /// Total number of value bytes held.
    pub closed spec fn byte_len(&self) -> nat {
        self.data@.len()
    }

    /// The offset at which slot `i` starts (slot `len` marks the end).
    pub closed spec fn offset(&self, i: int) -> int {
        self.offsets@[i] as int
    }

    /// The offsets run from 0 to the byte count, and each value spans the
    /// bytes between its two offsets.
    pub proof fn lemma_offsets(&self)
        requires
            self.wf(),
        ensures
            self@.len() < usize::MAX,
            self.offset(0) == 0,
            self.offset(self@.len() as int) == self.byte_len(),
            forall|i: int, j: int| 0 <= i <= j <= self@.len() ==> self.offset(i) <= self.offset(j),
            forall|i: int|
                0 <= i < self@.len() ==> (#[trigger] self@[i] matches Some(b) ==> b.len() == self.offset(i + 1)
                    - self.offset(i)),
    {
    }

    /// An empty store.
    pub fn new() -> (r: Self)
        ensures
            r.wf(),
            r@ == Seq::<Option<Seq<u8>>>::empty(),
            r.byte_len() == 0,
    {
        let r = ByteValues { offsets: vec![0usize], data: Vec::new(), validity: Vec::new() };
        assert(r@ =~= Seq::<Option<Seq<u8>>>::empty());
        r
    }

    /// An empty store with room reserved for `slots` values of `bytes` bytes in all.
    pub fn with_capacity(slots: usize, bytes: usize) -> (r: Self)
        ensures
            r.wf(),
            r@ == Seq::<Option<Seq<u8>>>::empty(),
            r.byte_len() == 0,
    {
        let mut offsets: Vec<usize> = Vec::with_capacity(if slots < usize::MAX { slots + 1 } else { slots });
        offsets.push(0);
        let r = ByteValues { offsets, data: Vec::with_capacity(bytes), validity: Vec::with_capacity(slots) };
        assert(r@ =~= Seq::<Option<Seq<u8>>>::empty());
        r
    }

    /// Number of slots.
    pub fn len(&self) -> (r: usize)
        requires
            self.wf(),
        ensures
            r == self@.len(),
    {
        self.validity.len()
    }

    /// Total number of value bytes held.
    pub fn byte_count(&self) -> (r: usize)
        ensures
            r == self.byte_len(),
    {
        self.data.len()
    }

    /// Whether slot `i` holds a value rather than a null.
    pub fn is_valid(&self, i: usize) -> (r: bool)
        requires
            self.wf(),
            i < self@.len(),
        ensures
            r == self@[i as int] is Some,
    {
        self.validity[i]
    }

    /// The bytes of slot `i` (empty for a null slot).
    pub fn value(&self, i: usize) -> (r: &[u8])
        requires
            self.wf(),
            i < self@.len(),
        ensures
            self@[i as int] matches Some(b) ==> r@ == b,
    {
        get_bytes(self, i)
    }

    /// Appends a value; the new slot is the last one.
    pub fn append_value(&mut self, value: &[u8])
        requires
            old(self).wf(),
            old(self).byte_len() + value@.len() <= usize::MAX,
        ensures
            final(self).wf(),
            final(self)@ == old(self)@.push(Some(value@)),
            final(self).byte_len() == old(self).byte_len() + value@.len(),
    {
        let ghost old_view = self@;
        let ghost old_data = self.data@;
        let mut i: usize = 0;
        while i < value.len()
            invariant
                0 <= i <= value@.len(),
                self.offsets == old(self).offsets,
                self.validity == old(self).validity,
                self.data@ == old_data + value@.subrange(0, i as int),
            decreases value@.len() - i,
        {
            self.data.push(value[i]);
            assert(value@.subrange(0, i as int + 1) =~= value@.subrange(0, i as int).push(value@[i as int]));
            i = i + 1;
        }
        assert(value@.subrange(0, value@.len() as int) =~= value@);
        let end = self.data.len();
        self.offsets.push(end);
        self.validity.push(true);
        let _n = self.offsets.len();
        assert(self@ =~= old_view.push(Some(value@))) by {
            assert forall|k: int| 0 <= k < old_view.len() implies self@[k] == old_view[k] by {
                if self.validity@[k] {
                    assert(self.data@.subrange(self.offsets@[k] as int, self.offsets@[k + 1] as int)
                        =~= old_data.subrange(self.offsets@[k] as int, self.offsets@[k + 1] as int));
                }
            }
            assert(self.data@.subrange(old_data.len() as int, end as int) =~= value@);
        }
    }

    /// Appends a value and returns its slot index.
    pub fn push_value(&mut self, value: &[u8]) -> (r: usize)
        requires
            old(self).wf(),
            old(self).byte_len() + value@.len() <= usize::MAX,
        ensures
            final(self).wf(),
            final(self)@ == old(self)@.push(Some(value@)),
            final(self).byte_len() == old(self).byte_len() + value@.len(),
            r == old(self)@.len(),
    {
        let r = self.validity.len();
        self.append_value(value);
        r
    }

    /// Appends a null slot.
    pub fn append_null(&mut self)
        requires
            old(self).wf(),
        ensures
            final(self).wf(),
            final(self)@ == old(self)@.push(None),
            final(self).byte_len() == old(self).byte_len(),
    {
        let ghost old_view = self@;
        let end = self.data.len();
        self.offsets.push(end);
        self.validity.push(false);
        let _n = self.offsets.len();
        assert(self@ =~= old_view.push(None)) by {
            assert forall|k: int| 0 <= k < old_view.len() implies self@[k] == old_view[k] by {}
        }
    }

    /// Whether slot `i` holds exactly the bytes `value`.
    pub fn holds_at(&self, i: usize, value: &[u8]) -> (r: bool)
        requires
            self.wf(),
            i < self@.len(),
        ensures
            r == (self@[i as int] == Some(value@)),
    {
        if !self.validity[i] {
            return false;
        }
        let stored = get_bytes(self, i);
        if stored.len() != value.len() {
            return false;
        }
        let mut j: usize = 0;
        while j < value.len()
            invariant
                0 <= j <= value@.len(),
                stored@.len() == value@.len(),
                self@[i as int] == Some(stored@),
                forall|t: int| 0 <= t < j ==> stored@[t] == value@[t],
            decreases value@.len() - j,
        {
            if stored[j] != value[j] {
                return false;
            }
            j = j + 1;
        }
        assert(stored@ =~= value@);
        true
    }

    /// A copy of the store.
    pub fn duplicate(&self) -> (r: Self)
        requires
            self.wf(),
        ensures
            r.wf(),
            r@ == self@,
            r.byte_len() == self.byte_len(),
    {
        ByteValues { offsets: copy_vec(&self.offsets), data: copy_vec(&self.data), validity: copy_vec(&self.validity) }
    }
}

/// An owned copy of a byte slice.
pub fn to_owned_bytes(s: &[u8]) -> (r: Vec<u8>)
    ensures
        r@ == s@,
{
    let mut r: Vec<u8> = Vec::with_capacity(s.len());
    let mut i: usize = 0;
    while i < s.len()
        invariant
            0 <= i <= s@.len(),
            r@ == s@.subrange(0, i as int),
        decreases s@.len() - i,
    {
        r.push(s[i]);
        assert(s@.subrange(0, i as int + 1) =~= s@.subrange(0, i as int).push(s@[i as int]));
        i = i + 1;
    }
    assert(s@.subrange(0, s@.len() as int) =~= s@);
    r
}

/// The view of rows of optional owned values.
pub open spec fn rows_view(rows: Seq<Option<Vec<u8>>>) -> Seq<Option<Seq<u8>>> {
    rows.map_values(|o: Option<Vec<u8>>| match o {
        Some(b) => Some(b@),
        None => None,
    })
}

/// Element-wise copy of a vector of plain values.
pub fn copy_vec<T: Copy>(v: &Vec<T>) -> (r: Vec<T>)
    ensures
        r@ == v@,
{
    let mut r: Vec<T> = Vec::with_capacity(v.len());
    let mut i: usize = 0;
    while i < v.len()
        invariant
            0 <= i <= v@.len(),
            r@ == v@.subrange(0, i as int),
        decreases v@.len() - i,
    {
        r.push(v[i]);
        assert(v@.subrange(0, i as int + 1) =~= v@.subrange(0, i as int).push(v@[i as int]));
        i = i + 1;
    }
    assert(v@.subrange(0, v@.len() as int) =~= v@);
    r
}

/// The bytes stored at slot `idx` (empty for a null slot).
pub fn get_bytes(values: &ByteValues, idx: usize) -> (r: &[u8])
    requires
        values.wf(),
        idx < values@.len(),
    ensures
        values@[idx as int] matches Some(b) ==> r@ == b,
        values@[idx as int] is None ==> r@.len() <= values.byte_len(),
{
    let n = values.offsets.len();
    assert(idx + 1 < n);
    let end_offset = values.offsets[idx + 1];
    let start_offset = values.offsets[idx];
    vstd::slice::slice_subrange(values.data.as_slice(), start_offset, end_offset)
}

} // verus!
