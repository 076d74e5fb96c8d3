//! The adaptive code table shared by the encoder and the decoder.
//!
//! Codes 0–255 permanently denote the 256 single-byte sequences and are never
//! stored; only multi-byte entries are kept, and the entry stored at index `i`
//! is denoted by code `256 + i`.  A generation ends the moment the next free
//! code would reach [`MAX_CODE`]: the table is then reset, discarding every
//! multi-byte entry, and the next free code returns to 256.

use vstd::prelude::*;

verus! {

/// The 16-bit ceiling: the next-free-code counter never reaches this value;
/// when it would, the table is reset to generation 0 instead.
pub const MAX_CODE: u16 = 65535;

/// The abstract contents of a table: the multi-byte entries, in order of
/// insertion.  The entry at index `i` is the byte sequence denoted by code
/// `256 + i`; codes 0–255 implicitly denote the single-byte sequences.
pub open spec fn entry_at(t: Seq<Seq<u8>>, c: int) -> Seq<u8> {
    if 0 <= c < 256 {
        seq![c as u8]
    } else if 256 <= c < 256 + t.len() {
        t[c - 256]
    } else {
        Seq::empty()
    }
}

/// The smallest index `j >= k` with `t[j] == s`, if any: the code assigned to
/// a byte sequence is the one from its first insertion.
pub open spec fn find_from(t: Seq<Seq<u8>>, s: Seq<u8>, k: int) -> Option<int>
    decreases t.len() - k,
{
    if !(0 <= k < t.len()) {
        None
    } else if t[k] == s {
        Some(k)
    } else {
        find_from(t, s, k + 1)
    }
}

/// The forward mapping bytes -> code.  Single-byte sequences always map to
/// their byte value; a longer sequence maps to 256 plus the index of its
/// entry; the empty sequence has no code.
pub open spec fn lookup_spec(t: Seq<Seq<u8>>, s: Seq<u8>) -> Option<u16> {
    if s.len() == 0 {
        None
    } else if s.len() == 1 {
        Some(s[0] as u16)
    } else {
        match find_from(t, s, 0) {
            Some(j) => Some((256 + j) as u16),
            None => None,
        }
    }
}

/// Table well-formedness: every stored entry is multi-byte, and the next free
/// code `256 + len` never exceeds the 16-bit ceiling.
pub open spec fn wf_table(t: Seq<Seq<u8>>) -> bool {
    &&& 256 + t.len() <= MAX_CODE as int
    &&& forall|i: int| 0 <= i < t.len() ==> (#[trigger] t[i]).len() >= 2
}

/// One insertion followed by the generation-reset rule: the new entry takes
/// the next free code, and if the counter would then reach [`MAX_CODE`] the
/// whole generation is discarded.
pub open spec fn push_tbl(t: Seq<Seq<u8>>, e: Seq<u8>) -> Seq<Seq<u8>> {
    if 256 + t.len() + 1 >= MAX_CODE as int {
        Seq::empty()
    } else {
        t.push(e)
    }
}

/// Byte-wise equality of two vectors.
pub(crate) fn bytes_eq(a: &Vec<u8>, b: &Vec<u8>) -> (r: bool)
    ensures
        r == (a@ == b@),
{
    if a.len() != b.len() {
        return false;
    }
    let mut i: usize = 0;
    while i < a.len()
        invariant
            0 <= i <= a@.len(),
            a@.len() == b@.len(),
            forall|j: int| 0 <= j < i ==> a@[j] == b@[j],
        decreases a@.len() - i,
    {
        if a[i] != b[i] {
            return false;
        }
        i += 1;
    }
    proof {
        assert(a@ =~= b@);
    }
    true
}

/// An independent copy of a byte vector.
pub(crate) fn copy_bytes(src: &Vec<u8>) -> (r: Vec<u8>)
    ensures
        r@ == src@,
{
    let mut r: Vec<u8> = Vec::new();
    let mut i: usize = 0;
    while i < src.len()
        invariant
            0 <= i <= src@.len(),
            r@ == src@.subrange(0, i as int),
        decreases src@.len() - i,
    {
        r.push(src[i]);
        proof {
            assert(r@ =~= src@.subrange(0, i + 1));
        }
        i += 1;
    }
    proof {
        assert(r@ =~= src@);
    }
    r
}

/// Appends a copy of `src` to `dst`.
pub(crate) fn push_all(dst: &mut Vec<u8>, src: &Vec<u8>)
    ensures
        final(dst)@ == old(dst)@ + src@,
{
    let mut i: usize = 0;
    while i < src.len()
        invariant
            0 <= i <= src@.len(),
            dst@ == old(dst)@ + src@.subrange(0, i as int),
        decreases src@.len() - i,
    {
        dst.push(src[i]);
        proof {
            assert(dst@ =~= old(dst)@ + src@.subrange(0, i + 1));
        }
        i += 1;
    }
    proof {
        assert(dst@ =~= old(dst)@ + src@);
    }
}

/// The code table of one encoder or decoder run.  Freshly created it holds
/// generation 0: exactly the 256 single-byte entries (kept implicit) and a
/// next free code of 256.
pub struct CodeTable {
    entries: Vec<Vec<u8>>,
}

impl View for CodeTable {
    type V = Seq<Seq<u8>>;

    closed spec fn view(&self) -> Seq<Seq<u8>> {
        self.entries@.map_values(|v: Vec<u8>| v@)
    }
}

impl CodeTable {
    /// A fresh generation-0 table: all single-byte sequences are present,
    /// no multi-byte entries, next free code 256.
    pub fn new() -> (t: CodeTable)
        ensures
            t@ == Seq::<Seq<u8>>::empty(),
            wf_table(t@),
    {
        let t = CodeTable { entries: Vec::new() };
        proof {
            assert(t@ =~= Seq::<Seq<u8>>::empty());
        }
        t
    }

    /// How many multi-byte entries the current generation holds.
    pub fn entry_count(&self) -> (n: usize)
        ensures
            n == self@.len(),
    {
        self.entries.len()
    }

    /// The code that the next insertion will receive.
    pub fn next_code(&self) -> (c: u16)
        requires
            256 + self@.len() <= MAX_CODE as int,
        ensures
            c as int == 256 + self@.len(),
    {
        256 + (self.entries.len() as u16)
    }

    /// Exact-match lookup of a full byte sequence.
    pub fn lookup(&self, key: &Vec<u8>) -> (r: Option<u16>)
        requires
            wf_table(self@),
        ensures
            r == lookup_spec(self@, key@),
    {
        if key.len() == 0 {
            None
        } else if key.len() == 1 {
            Some(key[0] as u16)
        } else {
            let mut i: usize = 0;
            while i < self.entries.len()
                invariant
                    wf_table(self@),
                    0 <= i <= self.entries@.len(),
                    self@.len() == self.entries@.len(),
                    key@.len() >= 2,
                    find_from(self@, key@, 0) == find_from(self@, key@, i as int),
                decreases self.entries@.len() - i,
            {
                if bytes_eq(&self.entries[i], key) {
                    proof {
                        assert(find_from(self@, key@, i as int) == Some(i as int));
                    }
                    return Some(256 + (i as u16));
                }
                i += 1;
            }
            None
        }
    }

    /// Reverse lookup: the byte sequence a code denotes, if the code is
    /// currently assigned.
    pub fn get(&self, code: u16) -> (r: Option<Vec<u8>>)
        requires
            wf_table(self@),
        ensures
            match r {
                Some(v) => (code as int) < 256 + self@.len() && v@ == entry_at(self@, code as int),
                None => (code as int) >= 256 + self@.len(),
            },
    {
        if code < 256 {
            let mut v: Vec<u8> = Vec::new();
            v.push(code as u8);
            proof {
                assert(v@ =~= entry_at(self@, code as int));
            }
            Some(v)
        } else {
            let idx = (code - 256) as usize;
            if idx < self.entries.len() {
                Some(copy_bytes(&self.entries[idx]))
            } else {
                None
            }
        }
    }

    /// Inserts a multi-byte sequence under the next free code.  Requires what
    /// correct driving guarantees: the sequence is not yet present and the
    /// given code equals the next free code.
    pub fn insert(&mut self, key: &Vec<u8>, code: u16)
        requires
            wf_table(old(self)@),
            key@.len() >= 2,
            lookup_spec(old(self)@, key@) is None,
            code as int == 256 + old(self)@.len(),
            256 + old(self)@.len() < MAX_CODE as int,
        ensures
            final(self)@ == old(self)@.push(key@),
            wf_table(final(self)@),
            entry_at(final(self)@, code as int) == key@,
    {
        let v = copy_bytes(key);
        self.entries.push(v);
        proof {
            assert(self@ =~= old(self)@.push(key@));
            assert forall|i: int| 0 <= i < self@.len() implies (#[trigger] self@[i]).len() >= 2 by {
                if i < old(self)@.len() {
                    assert(self@[i] == old(self)@[i]);
                }
            }
        }
    }

    /// Re-seeds to generation 0: all multi-byte entries are discarded and the
    /// next free code returns to 256.
    pub fn reset(&mut self)
        ensures
            final(self)@ == Seq::<Seq<u8>>::empty(),
            wf_table(final(self)@),
    {
        self.entries = Vec::new();
        proof {
            assert(self@ =~= Seq::<Seq<u8>>::empty());
        }
    }
}

} // verus!
