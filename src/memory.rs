//! A task's address space: a page table from virtual page numbers to
//! physical frames, and the bytes of those frames.
use std::collections::HashMap;
use vstd::prelude::*;

verus! {

broadcast use vstd::std_specs::hash::group_hash_axioms;

/// Size in bytes of one virtual or physical page.
pub const PAGE_SIZE: usize = 4096;

/// The page may be read.
pub const PERM_R: u8 = 2;

/// The page may be written.
pub const PERM_W: u8 = 4;

/// The page may be executed.
pub const PERM_X: u8 = 8;

/// The page may be accessed from user mode.
pub const PERM_U: u8 = 16;

/// The virtual page number that holds address `va`.
pub open spec fn vpn_of(va: int) -> int {
    va / (PAGE_SIZE as int)
}

/// The position of address `va` inside its page.
pub open spec fn offset_of(va: int) -> int {
    va % (PAGE_SIZE as int)
}

/// Every bit of `flag` is set in `perm`.
pub open spec fn has_perm(perm: u8, flag: u8) -> bool {
    perm & flag == flag
}

/// Index of the page that holds `va` (rounding down).
pub fn page_floor(va: usize) -> (r: usize)
    ensures
        r == vpn_of(va as int),
{
    va / PAGE_SIZE
}

/// Number of the first page that starts at or after `va` (rounding up).
pub fn page_ceil(va: usize) -> (r: usize)
    ensures
        r == (va as int + PAGE_SIZE - 1) / (PAGE_SIZE as int),
{
    if va % PAGE_SIZE == 0 {
        va / PAGE_SIZE
    } else {
        va / PAGE_SIZE + 1
    }
}

/// The frame-byte positions that the ranges `rs` cover, range after range;
/// each range is a start and a length.
pub open spec fn expand(rs: Seq<(usize, usize)>) -> Seq<int>
    decreases rs.len(),
{
    if rs.len() == 0 {
        Seq::empty()
    } else {
        expand(rs.drop_last()) + Seq::new(rs.last().1 as nat, |j: int| rs.last().0 + j)
    }
}

/// The positions that the ranges `rs` cover, range after range.
pub fn flatten_ranges(rs: &Vec<(usize, usize)>) -> (pos: Vec<usize>)
    requires
        forall|k: int| 0 <= k < rs@.len() ==> (#[trigger] rs@[k]).0 + rs@[k].1 <= usize::MAX,
    ensures
        pos@.len() == expand(rs@).len(),
        forall|i: int| 0 <= i < pos@.len() ==> #[trigger] pos@[i] == expand(rs@)[i],
{
    let mut pos: Vec<usize> = Vec::new();
    let mut k: usize = 0;
    while k < rs.len()
        invariant
            k <= rs@.len(),
            forall|q: int| 0 <= q < rs@.len() ==> (#[trigger] rs@[q]).0 + rs@[q].1 <= usize::MAX,
            pos@.len() == expand(rs@.subrange(0, k as int)).len(),
            forall|i: int|
                0 <= i < pos@.len() ==> #[trigger] pos@[i] == expand(rs@.subrange(0, k as int))[i],
        decreases rs@.len() - k,
    {
        let (start, n) = rs[k];
        let ghost before = pos@;
        let mut j: usize = 0;
        while j < n
            invariant
                j <= n,
                start + n <= usize::MAX,
                pos@.len() == before.len() + j,
                forall|i: int| 0 <= i < before.len() ==> #[trigger] pos@[i] == before[i],
                forall|t: int| 0 <= t < j ==> #[trigger] pos@[before.len() + t] == start + t,
            decreases n - j,
        {
            pos.push(start + j);
            j = j + 1;
        }
        proof {
            let next = rs@.subrange(0, k + 1);
            assert(next.drop_last() =~= rs@.subrange(0, k as int));
            assert(next.last() == (start, n));
            assert forall|i: int| 0 <= i < pos@.len() implies #[trigger] pos@[i] == expand(
                next,
            )[i] by {
                if i >= before.len() {
                    assert(pos@[before.len() + (i - before.len())] == start + (i - before.len()));
                }
            }
        }
        k = k + 1;
    }
    assert(rs@.subrange(0, k as int) =~= rs@);
    pos
}

/// One page-table entry: the backing frame and the permission bits.
#[derive(Clone, Copy, Debug, PartialEq, Eq)]
pub struct PageTableEntry {
    pub ppn: usize,
    pub perm: u8,
}

/// An address space with framed (physically backed) pages.
pub struct MemorySet {
    table: HashMap<usize, PageTableEntry>,
    frames: Vec<u8>,
}

impl MemorySet {
    /// The page table, as a map from virtual page number to entry.
    pub closed spec fn pages(&self) -> Map<usize, PageTableEntry> {
        self.table@
    }

    /// The bytes of all allocated frames, frame after frame.
    pub closed spec fn frame_bytes(&self) -> Seq<u8> {
        self.frames@
    }

    /// Every entry points at an allocated frame, and no two pages share one.
    pub open spec fn wf(&self) -> bool {
        &&& self.frame_bytes().len() as int % (PAGE_SIZE as int) == 0
        &&& forall|v: usize| #[trigger]
            self.pages().contains_key(v) ==> (self.pages()[v].ppn + 1) * PAGE_SIZE
                <= self.frame_bytes().len()
        &&& forall|v: usize, w: usize|
            #[trigger] self.pages().contains_key(v) && #[trigger] self.pages().contains_key(w)
                && v != w ==> self.pages()[v].ppn != self.pages()[w].ppn
    }

    pub open spec fn is_mapped(&self, vpn: int) -> bool {
        0 <= vpn <= usize::MAX && self.pages().contains_key(vpn as usize)
    }

    pub open spec fn entry(&self, vpn: int) -> PageTableEntry {
        self.pages()[vpn as usize]
    }

    /// Every page of `[s, e)` is mapped.
    pub open spec fn range_mapped(&self, s: int, e: int) -> bool {
        forall|v: int| s <= v < e ==> #[trigger] self.is_mapped(v)
    }

    /// No page of `[s, e)` is mapped.
    pub open spec fn range_unmapped(&self, s: int, e: int) -> bool {
        forall|v: int| s <= v < e ==> !#[trigger] self.is_mapped(v)
    }

    /// Where the byte at virtual address `va` lives among the frame bytes.
    pub open spec fn phys_index(&self, va: int) -> int {
        self.entry(vpn_of(va)).ppn * PAGE_SIZE + offset_of(va)
    }

    /// The byte at virtual address `va` of a mapped page.
    pub open spec fn user_byte(&self, va: int) -> u8 {
        self.frame_bytes()[self.phys_index(va)]
    }

    /// The `len` bytes from virtual address `va` on.
    pub open spec fn user_bytes(&self, va: int, len: nat) -> Seq<u8> {
        Seq::new(len, |i: int| self.user_byte(va + i))
    }

    /// The byte at `va` is mapped, user-accessible and carries `flag`.
    pub open spec fn allows(&self, va: int, flag: u8) -> bool {
        &&& 0 <= va <= usize::MAX
        &&& self.is_mapped(vpn_of(va))
        &&& has_perm(self.entry(vpn_of(va)).perm, flag | PERM_U)
    }

    /// Every byte of `[va, va + len)` allows `flag`.
    pub open spec fn range_allows(&self, va: int, len: int, flag: u8) -> bool {
        forall|i: int| 0 <= i < len ==> #[trigger] self.allows(va + i, flag)
    }

    /// `after` is `self` with `data` stored from virtual address `va` on.
    pub open spec fn written(&self, after: &MemorySet, va: int, data: Seq<u8>) -> bool {
        &&& after.pages() == self.pages()
        &&& after.frame_bytes().len() == self.frame_bytes().len()
        &&& forall|a: int|
            0 <= a <= usize::MAX && #[trigger] self.is_mapped(vpn_of(a)) ==> after.user_byte(a) == if va
                <= a < va + data.len() {
                data[a - va]
            } else {
                self.user_byte(a)
            }
    }

    /// An empty address space.
    pub fn new() -> (r: MemorySet)
        ensures
            r.wf(),
            r.pages() == Map::<usize, PageTableEntry>::empty(),
            r.frame_bytes().len() == 0,
    {
        MemorySet { table: HashMap::new(), frames: Vec::new() }
    }

    /// Position among the frame bytes of the byte at `va`, when that byte
    /// is mapped, user-accessible and carries `flag`.
    pub fn translate(&self, va: usize, flag: u8) -> (r: Option<usize>)
        requires
            self.wf(),
        ensures
            match r {
                Some(p) => self.allows(va as int, flag) && p == self.phys_index(va as int)
                    && p < self.frame_bytes().len(),
                None => !self.allows(va as int, flag),
            },
    {
        let vpn = va / PAGE_SIZE;
        match self.table.get(&vpn) {
            Some(pte) => {
                let want = flag | PERM_U;
                if pte.perm & want == want {
                    assert(self.pages().contains_key(vpn) && *pte == self.pages()[vpn]);
                    assert(self.frame_bytes().len() == self.frames.len());
                    Some(pte.ppn * PAGE_SIZE + va % PAGE_SIZE)
                } else {
                    None
                }
            },
            None => None,
        }
    }

    /// Every page of `[start_vpn, end_vpn)` is mapped.
    pub fn all_mapped(&self, start_vpn: usize, end_vpn: usize) -> (r: bool)
        ensures
            r == self.range_mapped(start_vpn as int, end_vpn as int),
    {
        let mut v = start_vpn;
        while v < end_vpn
            invariant
                start_vpn <= v,
                self.range_mapped(start_vpn as int, v as int),
            decreases end_vpn - v,
        {
            if !self.table.contains_key(&v) {
                assert(!self.is_mapped(v as int));
                assert(!self.range_mapped(start_vpn as int, end_vpn as int));
                return false;
            }
            v = v + 1;
        }
        true
    }

    /// No page of `[start_vpn, end_vpn)` is mapped.
    pub fn all_unmapped(&self, start_vpn: usize, end_vpn: usize) -> (r: bool)
        ensures
            r == self.range_unmapped(start_vpn as int, end_vpn as int),
    {
        let mut v = start_vpn;
        while v < end_vpn
            invariant
                start_vpn <= v,
                self.range_unmapped(start_vpn as int, v as int),
            decreases end_vpn - v,
        {
            if self.table.contains_key(&v) {
                assert(self.is_mapped(v as int));
                assert(!self.range_unmapped(start_vpn as int, end_vpn as int));
                return false;
            }
            v = v + 1;
        }
        true
    }

    /// Distinct mapped addresses live at distinct frame bytes.
    pub proof fn lemma_phys_injective(&self, a: int, b: int)
        requires
            self.wf(),
            0 <= a <= usize::MAX,
            0 <= b <= usize::MAX,
            self.is_mapped(vpn_of(a)),
            self.is_mapped(vpn_of(b)),
            self.phys_index(a) == self.phys_index(b),
        ensures
            a == b,
    {
        let va = vpn_of(a) as usize;
        let vb = vpn_of(b) as usize;
        assert(self.pages().contains_key(va) && self.pages().contains_key(vb));
        if va != vb {
            assert(self.pages()[va].ppn != self.pages()[vb].ppn);
        }
    }

    /// Appends one zeroed frame and returns its number.
    fn alloc_frame(&mut self) -> (ppn: usize)
        requires
            old(self).wf(),
            old(self).frame_bytes().len() + PAGE_SIZE <= usize::MAX,
        ensures
            final(self).wf(),
            final(self).pages() == old(self).pages(),
            final(self).frame_bytes().len() == old(self).frame_bytes().len() + PAGE_SIZE,
            ppn * PAGE_SIZE == old(self).frame_bytes().len(),
            forall|j: int|
                0 <= j < old(self).frame_bytes().len() ==> final(self).frame_bytes()[j]
                    == old(self).frame_bytes()[j],
            forall|j: int|
                old(self).frame_bytes().len() <= j < final(self).frame_bytes().len()
                    ==> final(self).frame_bytes()[j] == 0,
    {
        let ppn = self.frames.len() / PAGE_SIZE;
        let mut k: usize = 0;
        while k < PAGE_SIZE
            invariant
                k <= PAGE_SIZE,
                self.table@ == old(self).table@,
                self.frames@.len() == old(self).frames@.len() + k,
                old(self).frames@.len() + PAGE_SIZE <= usize::MAX,
                forall|j: int|
                    0 <= j < old(self).frames@.len() ==> self.frames@[j] == old(self).frames@[j],
                forall|j: int|
                    old(self).frames@.len() <= j < self.frames@.len() ==> self.frames@[j] == 0,
            decreases PAGE_SIZE - k,
        {
            self.frames.push(0);
            k = k + 1;
        }
        proof {
            assert(self.pages() == old(self).pages());
            assert forall|v: usize| #[trigger]
                self.pages().contains_key(v) implies (self.pages()[v].ppn + 1) * PAGE_SIZE
                <= self.frame_bytes().len() by {
                assert(old(self).pages().contains_key(v));
            }
        }
        ppn
    }

    /// Maps every page of `[start_vpn, end_vpn)` to a fresh zeroed frame with
    /// permission bits `perm`. Returns false, changing nothing, when the
    /// frames would not fit in memory.
    pub fn insert_framed_area(&mut self, start_vpn: usize, end_vpn: usize, perm: u8) -> (r: bool)
        requires
            old(self).wf(),
            old(self).range_unmapped(start_vpn as int, end_vpn as int),
        ensures
            final(self).wf(),
            r == (start_vpn >= end_vpn || old(self).frame_bytes().len() + (end_vpn - start_vpn)
                * PAGE_SIZE <= usize::MAX),
            !r ==> *final(self) == *old(self),
            r ==> forall|v: int|
                #[trigger] final(self).is_mapped(v) == (old(self).is_mapped(v) || start_vpn <= v
                    < end_vpn),
            r ==> forall|v: int|
                old(self).is_mapped(v) ==> #[trigger] final(self).entry(v) == old(self).entry(v),
            r ==> forall|v: int|
                start_vpn <= v < end_vpn ==> #[trigger] final(self).entry(v).perm == perm,
            r ==> forall|a: int|
                0 <= a <= usize::MAX && #[trigger] final(self).is_mapped(vpn_of(a))
                    ==> final(self).user_byte(a) == if old(self).is_mapped(vpn_of(a)) {
                    old(self).user_byte(a)
                } else {
                    0
                },
    {
        if start_vpn >= end_vpn {
            return true;
        }
        let npages = end_vpn - start_vpn;
        if npages > (usize::MAX - self.frames.len()) / PAGE_SIZE {
            return false;
        }
        let ghost old_pages = self.pages();
        let ghost old_frames = self.frame_bytes();
        assert forall|u: usize| start_vpn <= u < end_vpn implies !#[trigger] old_pages.contains_key(
            u,
        ) by {
            assert(!old(self).is_mapped(u as int));
        }
        let mut v = start_vpn;
        while v < end_vpn
            invariant
                start_vpn <= v <= end_vpn,
                self.wf(),
                self.frame_bytes().len() == old_frames.len() + (v - start_vpn) * PAGE_SIZE,
                old_frames.len() + (end_vpn - start_vpn) * PAGE_SIZE <= usize::MAX,
                old_frames.len() as int % (PAGE_SIZE as int) == 0,
                forall|j: int|
                    0 <= j < old_frames.len() ==> self.frame_bytes()[j] == old_frames[j],
                forall|j: int|
                    old_frames.len() <= j < self.frame_bytes().len() ==> self.frame_bytes()[j]
                        == 0,
                forall|u: usize|
                    #[trigger] self.pages().contains_key(u) == (old_pages.contains_key(u) || (
                    start_vpn <= u < v)),
                forall|u: usize| #[trigger]
                    old_pages.contains_key(u) ==> self.pages()[u] == old_pages[u],
                forall|u: usize|
                    start_vpn <= u < v ==> (#[trigger] self.pages()[u]).perm == perm
                        && old_frames.len() <= self.pages()[u].ppn * PAGE_SIZE,
                forall|u: usize| start_vpn <= u < end_vpn ==> !#[trigger] old_pages.contains_key(u),
            decreases end_vpn - v,
        {
            assert(self.frame_bytes().len() + PAGE_SIZE <= usize::MAX) by (nonlinear_arith)
                requires
                    self.frame_bytes().len() == old_frames.len() + (v - start_vpn) * PAGE_SIZE,
                    old_frames.len() + (end_vpn - start_vpn) * PAGE_SIZE <= usize::MAX,
                    v < end_vpn,
            ;
            let ghost before = self.pages();
            let ppn = self.alloc_frame();
            assert(!before.contains_key(v));
            self.table.insert(v, PageTableEntry { ppn, perm });
            proof {
                assert forall|u: usize, w: usize|
                    #[trigger] self.pages().contains_key(u) && #[trigger] self.pages().contains_key(w)
                    && u != w implies self.pages()[u].ppn != self.pages()[w].ppn by {
                    if u != v && w != v {
                        assert(before.contains_key(u) && before.contains_key(w));
                    } else if u == v {
                        assert(before.contains_key(w));
                    } else {
                        assert(before.contains_key(u));
                    }
                }
                assert forall|u: usize| #[trigger]
                    self.pages().contains_key(u) implies (self.pages()[u].ppn + 1) * PAGE_SIZE
                    <= self.frame_bytes().len() by {
                    if u != v {
                        assert(before.contains_key(u));
                    }
                }
            }
            v = v + 1;
        }
        proof {
            assert forall|a: int|
                0 <= a <= usize::MAX && #[trigger] self.is_mapped(vpn_of(a))
                    implies self.user_byte(a) == if old(self).is_mapped(vpn_of(a)) {
                    old(self).user_byte(a)
                } else {
                    0
                } by {
                let u = vpn_of(a) as usize;
                assert(self.pages().contains_key(u));
                assert((self.pages()[u].ppn + 1) * PAGE_SIZE <= self.frame_bytes().len());
                if old_pages.contains_key(u) {
                    assert(self.pages()[u] == old_pages[u]);
                    assert((old_pages[u].ppn + 1) * PAGE_SIZE <= old_frames.len());
                    assert(self.phys_index(a) < old_frames.len());
                } else {
                    assert(start_vpn <= u < end_vpn);
                    assert(old_frames.len() <= self.pages()[u].ppn * PAGE_SIZE);
                    assert(old_frames.len() <= self.phys_index(a));
                }
            }
        }
        true
    }

    /// Unmaps every page of `[start_vpn, end_vpn)`.
    pub fn delete_framed_area(&mut self, start_vpn: usize, end_vpn: usize)
        requires
            old(self).wf(),
        ensures
            final(self).wf(),
            final(self).frame_bytes() == old(self).frame_bytes(),
            forall|v: int|
                #[trigger] final(self).is_mapped(v) == (old(self).is_mapped(v) && !(start_vpn <= v
                    < end_vpn)),
            forall|v: int| #[trigger]
                final(self).is_mapped(v) ==> final(self).entry(v) == old(self).entry(v),
    {
        let ghost old_pages = self.pages();
        let mut v = start_vpn;
        while v < end_vpn
            invariant
                start_vpn <= v,
                v <= end_vpn || v == start_vpn,
                self.wf(),
                self.frame_bytes() == old(self).frame_bytes(),
                forall|u: usize|
                    #[trigger] self.pages().contains_key(u) == (old_pages.contains_key(u) && !(
                    start_vpn <= u < v)),
                forall|u: usize| #[trigger]
                    self.pages().contains_key(u) ==> self.pages()[u] == old_pages[u],
            decreases end_vpn - v,
        {
            let ghost before = self.pages();
            self.table.remove(&v);
            proof {
                assert forall|u: usize, w: usize|
                    #[trigger] self.pages().contains_key(u) && #[trigger] self.pages().contains_key(w)
                    && u != w implies self.pages()[u].ppn != self.pages()[w].ppn by {
                    assert(before.contains_key(u) && before.contains_key(w));
                }
                assert forall|u: usize| #[trigger]
                    self.pages().contains_key(u) implies (self.pages()[u].ppn + 1) * PAGE_SIZE
                    <= self.frame_bytes().len() by {
                    assert(before.contains_key(u));
                }
            }
            v = v + 1;
        }
    }

    /// Stores `data` from virtual address `va` on, when every byte of the
    /// range is mapped, user-accessible and writable; otherwise changes
    /// nothing and returns false.
    pub fn write_user_bytes(&mut self, va: usize, data: &[u8]) -> (r: bool)
        requires
            old(self).wf(),
        ensures
            final(self).wf(),
            r == old(self).range_allows(va as int, data@.len() as int, PERM_W),
            r ==> old(self).written(final(self), va as int, data@),
            !r ==> *final(self) == *old(self),
    {
        let ranges = match self.translated_byte_buffer(va, data.len(), PERM_W) {
            Some(rs) => rs,
            None => return false,
        };
        let frames_len = self.frames.len();
        proof {
            assert forall|k: int| 0 <= k < ranges@.len() implies (#[trigger] ranges@[k]).0
                + ranges@[k].1 <= usize::MAX by {
                assert(self.frame_bytes().len() == frames_len);
            }
        }
        let pos = flatten_ranges(&ranges);
        proof {
            assert forall|k: int| 0 <= k < data@.len() implies #[trigger] pos@[k]
                < self.frame_bytes().len() by {
                assert(self.allows(va + k, PERM_W));
                let u = vpn_of(va + k) as usize;
                assert(self.pages().contains_key(u));
            }
        }
        let mut j: usize = 0;
        while j < data.len()
            invariant
                old(self).wf(),
                self.wf(),
                j <= data@.len(),
                pos@.len() == data@.len(),
                old(self).range_allows(va as int, data@.len() as int, PERM_W),
                forall|k: int|
                    0 <= k < data@.len() ==> #[trigger] pos@[k] == old(self).phys_index(va + k)
                        && pos@[k] < old(self).frame_bytes().len(),
                old(self).written(self, va as int, data@.subrange(0, j as int)),
            decreases data@.len() - j,
        {
            let ghost before = *self;
            self.frames.set(pos[j], data[j]);
            proof {
                assert(self.pages() == before.pages());
                assert(old(self).allows(va + j, PERM_W));
                let tail = data@.subrange(0, j + 1);
                assert forall|a: int|
                    0 <= a <= usize::MAX && #[trigger] old(self).is_mapped(vpn_of(a))
                        implies self.user_byte(a) == if va <= a < va + tail.len() {
                        tail[a - va]
                    } else {
                        old(self).user_byte(a)
                    } by {
                    if a == va + j {
                    } else {
                        if old(self).phys_index(a) == old(self).phys_index(va + j) {
                            old(self).lemma_phys_injective(a, va + j);
                        }
                        assert(before.user_byte(a) == self.user_byte(a));
                    }
                }
            }
            j = j + 1;
        }
        proof {
            assert(data@.subrange(0, data@.len() as int) =~= data@);
        }
        true
    }

    /// The `len` bytes from virtual address `va` on, when every one of them
    /// is mapped, user-accessible and readable.
    pub fn read_user_bytes(&self, va: usize, len: usize) -> (r: Option<Vec<u8>>)
        requires
            self.wf(),
        ensures
            r is Some == self.range_allows(va as int, len as int, PERM_R),
            r is Some ==> r->0@ == self.user_bytes(va as int, len as nat),
    {
        let ranges = match self.translated_byte_buffer(va, len, PERM_R) {
            Some(rs) => rs,
            None => return None,
        };
        let frames_len = self.frames.len();
        proof {
            assert forall|k: int| 0 <= k < ranges@.len() implies (#[trigger] ranges@[k]).0
                + ranges@[k].1 <= usize::MAX by {
                assert(self.frame_bytes().len() == frames_len);
            }
        }
        let pos = flatten_ranges(&ranges);
        let mut out: Vec<u8> = Vec::new();
        let mut i: usize = 0;
        while i < len
            invariant
                self.wf(),
                i <= len,
                out@.len() == i,
                pos@.len() == len,
                self.range_allows(va as int, len as int, PERM_R),
                forall|k: int| 0 <= k < len ==> #[trigger] pos@[k] == self.phys_index(va + k),
                forall|k: int| 0 <= k < i ==> #[trigger] out@[k] == self.user_byte(va + k),
            decreases len - i,
        {
            proof {
                assert(self.allows(va + i, PERM_R));
                let u = vpn_of(va + i) as usize;
                assert(self.pages().contains_key(u));
            }
            out.push(self.frames[pos[i]]);
            i = i + 1;
        }
        proof {
            assert(out@ =~= self.user_bytes(va as int, len as nat));
        }
        Some(out)
    }

    /// Reading back the bytes just written gives them again.
    pub proof fn lemma_write_then_read(&self, after: &MemorySet, va: int, data: Seq<u8>)
        requires
            self.wf(),
            self.range_allows(va, data.len() as int, PERM_W),
            self.written(after, va, data),
        ensures
            after.user_bytes(va, data.len()) == data,
    {
        assert forall|i: int| 0 <= i < data.len() implies #[trigger] after.user_bytes(
            va,
            data.len(),
        )[i] == data[i] by {
            assert(self.allows(va + i, PERM_W));
            assert(self.is_mapped(vpn_of(va + i)));
        }
        assert(after.user_bytes(va, data.len()) =~= data);
    }

    /// The frame-byte ranges behind `[va, va + len)`, one per page the range
    /// touches, in order, when every byte of it is mapped, user-accessible
    /// and carries `flag`.
    pub fn translated_byte_buffer(&self, va: usize, len: usize, flag: u8) -> (r: Option<
        Vec<(usize, usize)>,
    >)
        requires
            self.wf(),
        ensures
            r is Some == self.range_allows(va as int, len as int, flag),
            r is Some ==> expand(r->0@) == Seq::new(
                len as nat,
                |i: int| self.phys_index(va + i),
            ),
            r is Some ==> forall|k: int|
                0 <= k < r->0@.len() ==> 0 < (#[trigger] r->0@[k]).1 && r->0@[k].0 % PAGE_SIZE
                    + r->0@[k].1 <= PAGE_SIZE,
            r is Some ==> forall|k: int|
                1 <= k < r->0@.len() ==> (#[trigger] r->0@[k]).0 % PAGE_SIZE == 0,
            r is Some ==> forall|k: int|
                0 <= k < r->0@.len() ==> (#[trigger] r->0@[k]).0 + r->0@[k].1
                    <= self.frame_bytes().len(),
    {
        let mut rs: Vec<(usize, usize)> = Vec::new();
        let mut done: usize = 0;
        while done < len
            invariant
                self.wf(),
                done <= len,
                self.range_allows(va as int, done as int, flag),
                expand(rs@) == Seq::new(done as nat, |i: int| self.phys_index(va + i)),
                forall|k: int|
                    0 <= k < rs@.len() ==> 0 < (#[trigger] rs@[k]).1 && rs@[k].0 % PAGE_SIZE
                        + rs@[k].1 <= PAGE_SIZE,
                forall|k: int| 1 <= k < rs@.len() ==> (#[trigger] rs@[k]).0 % PAGE_SIZE == 0,
                forall|k: int|
                    0 <= k < rs@.len() ==> (#[trigger] rs@[k]).0 + rs@[k].1
                        <= self.frame_bytes().len(),
                rs@.len() > 0 && done < len ==> (va + done) % (PAGE_SIZE as int) == 0,
            decreases len - done,
        {
            if va > usize::MAX - done {
                assert(!self.allows(va + done, flag));
                return None;
            }
            let cur = va + done;
            let p = match self.translate(cur, flag) {
                Some(p) => p,
                None => {
                    assert(!self.allows(va + done, flag));
                    return None;
                },
            };
            let room = PAGE_SIZE - cur % PAGE_SIZE;
            let n = if room < len - done {
                room
            } else {
                len - done
            };
            proof {
                assert(p % PAGE_SIZE == cur % PAGE_SIZE);
                let u = vpn_of(cur as int) as usize;
                assert(self.pages().contains_key(u));
                assert(p + n <= self.frame_bytes().len());
                assert forall|j: int| 0 <= j < n implies #[trigger] vpn_of(cur + j) == vpn_of(
                    cur as int,
                ) && offset_of(cur + j) == offset_of(cur as int) + j by {}
                assert forall|i: int| 0 <= i < done + n implies #[trigger] self.allows(
                    va + i,
                    flag,
                ) by {
                    if i >= done {
                        assert(vpn_of(cur + (i - done)) == vpn_of(cur as int));
                    }
                }
                let old_rs = rs@;
                let new_rs = old_rs.push((p, n));
                assert(new_rs.drop_last() =~= old_rs);
                assert(expand(new_rs) =~= Seq::new(
                    (done + n) as nat,
                    |i: int| self.phys_index(va + i),
                )) by {
                    assert forall|i: int| done <= i < done + n implies expand(new_rs)[i]
                        == self.phys_index(va + i) by {
                        assert(vpn_of(cur + (i - done)) == vpn_of(cur as int));
                        assert(offset_of(cur + (i - done)) == offset_of(cur as int) + (i - done));
                    }
                }
            }
            rs.push((p, n));
            done = done + n;
        }
        Some(rs)
    }
}

} // verus!
