//! Address spaces: a page table whose entries own their frames, and the
//! translation of user pointers into page-local byte ranges.
use vstd::prelude::*;
use crate::config::PAGE_SIZE;

verus! {

/// Access rights of a mapped page.
#[derive(Clone, Copy, PartialEq, Eq, Structural, Debug)]
pub struct MapPermission {
    pub r: bool,
    pub w: bool,
    pub x: bool,
    pub u: bool,
}

/// One page-table entry together with the frame that backs it.
pub struct Page {
    pub vpn: usize,
    pub perm: MapPermission,
    pub data: Vec<u8>,
}

/// What the model knows of a mapped page: its rights and its bytes.
pub type PageView = (MapPermission, Seq<u8>);

/// The page table of one process.
pub struct MemorySet {
    pub pages: Vec<Page>,
}

/// A user address range that the page table does not grant to user mode.
#[derive(Clone, Copy, PartialEq, Eq, Structural, Debug)]
pub enum MemError {
    InvalidAddress,
}

/// A byte range `[start, end)` inside the frame `frame` that backs page `vpn`.
#[derive(Clone, Copy, PartialEq, Eq, Structural, Debug)]
pub struct UserSegment {
    pub frame: usize,
    pub vpn: usize,
    pub start: usize,
    pub end: usize,
}

pub open spec fn page_of(va: int) -> int {
    va / (PAGE_SIZE as int)
}

pub open spec fn offset_of(va: int) -> int {
    va % (PAGE_SIZE as int)
}

pub open spec fn zero_page() -> Seq<u8> {
    Seq::new(PAGE_SIZE as nat, |i: int| 0u8)
}

/// The page holding `vpn` is mapped and reachable from user mode.
pub open spec fn user_page(m: Map<int, PageView>, vpn: int) -> bool {
    m.contains_key(vpn) && m[vpn].0.u
}

/// Every byte of `[ptr, ptr + len)` lies in a user page, and the range fits
/// in the address width.
pub open spec fn accessible(m: Map<int, PageView>, ptr: int, len: int) -> bool {
    &&& ptr + len <= usize::MAX
    &&& forall|a: int| ptr <= a < ptr + len ==> #[trigger] user_page(m, page_of(a))
}

/// The byte at virtual address `va` of a mapped page.
pub open spec fn byte_of(m: Map<int, PageView>, va: int) -> u8 {
    m[page_of(va)].1[offset_of(va)]
}

/// `after` is `before` with `src` stored at `ptr`: same pages and rights,
/// the bytes of the range replaced, every other byte kept.
pub open spec fn written(
    before: Map<int, PageView>,
    after: Map<int, PageView>,
    ptr: int,
    src: Seq<u8>,
) -> bool {
    &&& after.dom() == before.dom()
    &&& forall|v: int| #[trigger] after.contains_key(v) ==> after[v].0 == before[v].0
        && after[v].1.len() == before[v].1.len()
    &&& forall|va: int|
        #![trigger byte_of(after, va)]
        after.contains_key(page_of(va)) ==> byte_of(after, va) == if ptr <= va < ptr + src.len() {
            src[va - ptr]
        } else {
            byte_of(before, va)
        }
}

/// No page of `[s, e)` is mapped.
pub open spec fn range_unmapped(m: Map<int, PageView>, s: int, e: int) -> bool {
    forall|v: int| s <= v < e ==> !#[trigger] m.contains_key(v)
}

/// Every page of `[s, e)` is mapped.
pub open spec fn range_mapped(m: Map<int, PageView>, s: int, e: int) -> bool {
    forall|v: int| s <= v < e ==> #[trigger] m.contains_key(v)
}

pub open spec fn vpn_range(s: int, e: int) -> Set<int> {
    Set::new(|v: int| s <= v < e)
}

/// `m` with fresh zero-filled pages of rights `perm` at `[s, e)`.
pub open spec fn with_range_mapped(m: Map<int, PageView>, s: int, e: int, perm: MapPermission) -> Map<
    int,
    PageView,
> {
    m.union_prefer_right(Map::new(|v: int| s <= v < e, |v: int| (perm, zero_page())))
}

/// `m` without the pages of `[s, e)`.
pub open spec fn with_range_unmapped(m: Map<int, PageView>, s: int, e: int) -> Map<int, PageView> {
    m.remove_keys(vpn_range(s, e))
}

pub open spec fn seg_start(s: UserSegment) -> int {
    s.vpn * (PAGE_SIZE as int) + s.start
}

pub open spec fn seg_end(s: UserSegment) -> int {
    s.vpn * (PAGE_SIZE as int) + s.end
}

/// Two page-local positions name the same address only if they are the same.
pub proof fn lemma_same_address(v1: int, o1: int, v2: int, o2: int)
    requires
        0 <= o1 < PAGE_SIZE,
        0 <= o2 < PAGE_SIZE,
        v1 * (PAGE_SIZE as int) + o1 == v2 * (PAGE_SIZE as int) + o2,
    ensures
        v1 == v2,
        o1 == o2,
{
}

/// An address is its page number times the page size plus its offset.
pub proof fn lemma_split_address(va: int)
    requires
        va >= 0,
    ensures
        va == page_of(va) * (PAGE_SIZE as int) + offset_of(va),
        0 <= offset_of(va) < PAGE_SIZE,
{
}

/// Each page of `cur` is the matching page of `orig` with the first `done`
/// bytes of `src`, meant for address `base`, stored in it.
#[verifier::opaque]
pub open spec fn stored_prefix(
    cur: Seq<Page>,
    orig: Seq<Page>,
    base: int,
    src: Seq<u8>,
    done: int,
) -> bool {
    forall|i: int, o: int|
        0 <= i < orig.len() && 0 <= o < PAGE_SIZE ==> #[trigger] cur[i].data@[o] == if base
            <= orig[i].vpn * (PAGE_SIZE as int) + o < base + done {
            src[orig[i].vpn * (PAGE_SIZE as int) + o - base]
        } else {
            orig[i].data@[o]
        }
}

proof fn lemma_store_step(
    before: Seq<Page>,
    after: Seq<Page>,
    orig: Seq<Page>,
    base: int,
    src: Seq<u8>,
    done: int,
    f: int,
    off: int,
)
    requires
        stored_prefix(before, orig, base, src, done),
        before.len() == orig.len(),
        after.len() == orig.len(),
        0 <= f < orig.len(),
        0 <= off < PAGE_SIZE,
        0 <= done < src.len(),
        orig[f].vpn * (PAGE_SIZE as int) + off == base + done,
        after[f].data@[off] == src[done],
        forall|i: int, o: int|
            0 <= i < orig.len() && 0 <= o < PAGE_SIZE && (i != f || o != off)
                ==> #[trigger] after[i].data@[o] == before[i].data@[o],
        unique_vpns(orig),
    ensures
        stored_prefix(after, orig, base, src, done + 1),
{
    reveal(stored_prefix);
    assert forall|i: int, o: int| 0 <= i < orig.len() && 0 <= o < PAGE_SIZE implies #[trigger] after[i].data@[o]
        == if base <= orig[i].vpn * (PAGE_SIZE as int) + o < base + done + 1 {
        src[orig[i].vpn * (PAGE_SIZE as int) + o - base]
    } else {
        orig[i].data@[o]
    } by {
        if i != f || o != off {
            assert(after[i].data@[o] == before[i].data@[o]);
            if orig[i].vpn * (PAGE_SIZE as int) + o == base + done {
                lemma_same_address(orig[i].vpn as int, o, orig[f].vpn as int, off);
            }
        }
    }
}

/// No page number occurs twice.
pub open spec fn unique_vpns(s: Seq<Page>) -> bool {
    forall|i: int, j: int|
        0 <= i < s.len() && 0 <= j < s.len() && i != j ==> (#[trigger] s[i]).vpn != (
        #[trigger] s[j]).vpn
}

/// `cur` has the entries of `orig`, with page-sized frames, whatever the bytes.
pub open spec fn same_shape(cur: Seq<Page>, orig: Seq<Page>) -> bool {
    &&& cur.len() == orig.len()
    &&& forall|i: int|
        0 <= i < orig.len() ==> (#[trigger] cur[i]).vpn == orig[i].vpn && cur[i].perm == orig[i].perm
            && cur[i].data@.len() == PAGE_SIZE
}

/// `s` followed by a zero byte is stored at `ptr` in user pages, and `s`
/// holds no zero byte.
pub open spec fn c_string_at(m: Map<int, PageView>, ptr: int, s: Seq<u8>) -> bool {
    &&& string_prefix_at(m, ptr, s)
    &&& user_page(m, page_of(ptr + s.len()))
    &&& byte_of(m, ptr + s.len()) == 0
}

/// `s` is stored at `ptr` in user pages and holds no zero byte.
pub open spec fn string_prefix_at(m: Map<int, PageView>, ptr: int, s: Seq<u8>) -> bool {
    &&& forall|k: int| 0 <= k < s.len() ==> #[trigger] user_page(m, page_of(ptr + k))
    &&& forall|k: int| 0 <= k < s.len() ==> #[trigger] s[k] == byte_of(m, ptr + k) && s[k] != 0
}

proof fn lemma_prefix_push(m: Map<int, PageView>, ptr: int, s: Seq<u8>, b: u8)
    requires
        string_prefix_at(m, ptr, s),
        user_page(m, page_of(ptr + s.len())),
        b == byte_of(m, ptr + s.len()),
        b != 0,
    ensures
        string_prefix_at(m, ptr, s.push(b)),
{
    let t = s.push(b);
    assert forall|k: int| 0 <= k < t.len() implies #[trigger] user_page(m, page_of(ptr + k)) by {
        if k < s.len() {
        } else {
            assert(k == s.len());
        }
    }
    assert forall|k: int| 0 <= k < t.len() implies #[trigger] t[k] == byte_of(m, ptr + k) && t[k]
        != 0 by {
        if k < s.len() {
            assert(t[k] == s[k]);
        }
    }
}

/// The first `n` bytes at `ptr` are non-zero bytes of user pages, and
/// address `ptr + n` is outside the address width or outside user pages.
pub open spec fn string_fails_at(m: Map<int, PageView>, ptr: int, n: int) -> bool {
    &&& n >= 0
    &&& forall|k: int|
        0 <= k < n ==> #[trigger] user_page(m, page_of(ptr + k)) && byte_of(m, ptr + k) != 0
    &&& (ptr + n > usize::MAX || !user_page(m, page_of(ptr + n)))
}

/// No zero-terminated string in user pages starts at `ptr`.
pub open spec fn no_c_string_at(m: Map<int, PageView>, ptr: int) -> bool {
    exists|n: int| #[trigger] string_fails_at(m, ptr, n)
}

impl MemorySet {
    /// Frames are page-sized and no page number is mapped twice.
    pub open spec fn wf(&self) -> bool {
        &&& forall|i: int|
            0 <= i < self.pages@.len() ==> (#[trigger] self.pages@[i]).data@.len() == PAGE_SIZE
        &&& unique_vpns(self.pages@)
    }

    pub open spec fn has_index(&self, vpn: int, i: int) -> bool {
        0 <= i < self.pages@.len() && self.pages@[i].vpn == vpn
    }

    pub open spec fn is_mapped(&self, vpn: int) -> bool {
        exists|i: int| #[trigger] self.has_index(vpn, i)
    }

    pub open spec fn index_of(&self, vpn: int) -> int {
        choose|i: int| #[trigger] self.has_index(vpn, i)
    }

    /// The address space as a map from page number to rights and bytes.
    pub open spec fn view(&self) -> Map<int, PageView> {
        Map::new(
            |vpn: int| self.is_mapped(vpn),
            |vpn: int| (self.pages@[self.index_of(vpn)].perm, self.pages@[self.index_of(vpn)].data@),
        )
    }

    /// `segs` splits `[ptr, ptr + len)` at page boundaries, in order, each
    /// piece naming the user frame that backs it.
    pub open spec fn segments_cover(&self, segs: Seq<UserSegment>, ptr: int, len: int) -> bool {
        &&& (segs.len() == 0 <==> len == 0)
        &&& forall|k: int|
            0 <= k < segs.len() ==> {
                let s = #[trigger] segs[k];
                &&& s.start < s.end <= PAGE_SIZE
                &&& self.has_index(s.vpn as int, s.frame as int)
                &&& self.pages@[s.frame as int].perm.u
                &&& ptr <= seg_start(s) && seg_end(s) <= ptr + len
            }
        &&& forall|k: int|
            0 <= k < segs.len() - 1 ==> #[trigger] seg_end(segs[k]) == seg_start(segs[k + 1])
                && segs[k].end == PAGE_SIZE
        &&& segs.len() > 0 ==> seg_start(segs[0]) == ptr && seg_end(segs.last()) == ptr + len
    }

    pub proof fn lemma_index_of(&self, i: int)
        requires
            self.wf(),
            0 <= i < self.pages@.len(),
        ensures
            self.is_mapped(self.pages@[i].vpn as int),
            self.index_of(self.pages@[i].vpn as int) == i,
            self@.contains_key(self.pages@[i].vpn as int),
            self@[self.pages@[i].vpn as int] == (self.pages@[i].perm, self.pages@[i].data@),
    {
        let v = self.pages@[i].vpn as int;
        assert(self.has_index(v, i));
        let j = self.index_of(v);
        assert(self.has_index(v, j));
    }

    /// An address space with no page mapped.
    pub fn new_bare() -> (r: MemorySet)
        ensures
            r.wf(),
            r@ == Map::<int, PageView>::empty(),
            r.pages@.len() == 0,
    {
        let r = MemorySet { pages: Vec::new() };
        assert(r@ =~= Map::<int, PageView>::empty());
        r
    }

    /// Position of the entry for `vpn` in the page table.
    pub fn find(&self, vpn: usize) -> (r: Option<usize>)
        requires
            self.wf(),
        ensures
            match r {
                Some(i) => self.has_index(vpn as int, i as int),
                None => !self@.contains_key(vpn as int),
            },
    {
        let mut i: usize = 0;
        while i < self.pages.len()
            invariant
                i <= self.pages@.len(),
                forall|j: int| 0 <= j < i ==> (#[trigger] self.pages@[j]).vpn != vpn,
            decreases self.pages@.len() - i,
        {
            if self.pages[i].vpn == vpn {
                return Some(i);
            }
            i += 1;
        }
        proof {
            if self.is_mapped(vpn as int) {
                let j = self.index_of(vpn as int);
                assert(self.has_index(vpn as int, j));
                assert(self.pages@[j].vpn == vpn);
            }
        }
        None
    }

    /// Splits `[ptr, ptr + len)` into page-local ranges of the frames that
    /// back it; fails without touching anything when a byte of the range is
    /// not in a user page.
    pub fn translated_byte_buffer(&self, ptr: usize, len: usize) -> (r: Result<
        Vec<UserSegment>,
        MemError,
    >)
        requires
            self.wf(),
        ensures
            r is Ok <==> accessible(self@, ptr as int, len as int),
            r matches Ok(segs) ==> self.segments_cover(segs@, ptr as int, len as int),
    {
        if len > usize::MAX - ptr {
            return Err(MemError::InvalidAddress);
        }
        let end: usize = ptr + len;
        let mut segs: Vec<UserSegment> = Vec::new();
        let mut va: usize = ptr;
        while va < end
            invariant
                self.wf(),
                ptr <= va <= end,
                end == ptr + len,
                segs@.len() == 0 <==> va == ptr,
                forall|k: int|
                    0 <= k < segs@.len() ==> {
                        let s = #[trigger] segs@[k];
                        &&& s.start < s.end <= PAGE_SIZE
                        &&& self.has_index(s.vpn as int, s.frame as int)
                        &&& self.pages@[s.frame as int].perm.u
                        &&& ptr <= seg_start(s) && seg_end(s) <= va
                    },
                forall|k: int|
                    0 <= k < segs@.len() - 1 ==> #[trigger] seg_end(segs@[k]) == seg_start(
                        segs@[k + 1],
                    ) && segs@[k].end == PAGE_SIZE,
                segs@.len() > 0 ==> seg_start(segs@[0]) == ptr && seg_end(segs@.last()) == va,
                segs@.len() > 0 && va < end ==> segs@.last().end == PAGE_SIZE,
                forall|a: int| ptr <= a < va ==> #[trigger] user_page(self@, page_of(a)),
            decreases end - va,
        {
            let vpn = va / PAGE_SIZE;
            let off = va % PAGE_SIZE;
            assert(page_of(va as int) == vpn);
            let frame = match self.find(vpn) {
                Some(i) => i,
                None => {
                    assert(!user_page(self@, page_of(va as int)));
                    return Err(MemError::InvalidAddress);
                },
            };
            proof {
                self.lemma_index_of(frame as int);
            }
            if !self.pages[frame].perm.u {
                assert(!user_page(self@, page_of(va as int)));
                return Err(MemError::InvalidAddress);
            }
            let seg_end_off = if end - va < PAGE_SIZE - off {
                off + (end - va)
            } else {
                PAGE_SIZE
            };
            let seg = UserSegment { frame, vpn, start: off, end: seg_end_off };
            let ghost old_segs = segs@;
            segs.push(seg);
            let next = vpn * PAGE_SIZE + seg_end_off;
            assert forall|a: int| ptr <= a < next implies #[trigger] user_page(self@, page_of(a)) by {
                if a >= va {
                    assert(page_of(a) == vpn);
                }
            }
            assert forall|k: int| 0 <= k < segs@.len() - 1 implies #[trigger] seg_end(segs@[k])
                == seg_start(segs@[k + 1]) && segs@[k].end == PAGE_SIZE by {
                if k == segs@.len() - 2 {
                    assert(segs@[k] == old_segs.last());
                }
            }
            va = next;
        }
        assert(self.segments_cover(segs@, ptr as int, len as int));
        Ok(segs)
    }

    /// Overwrites one byte of the frame at position `f` of the page table.
    fn store_byte(&mut self, f: usize, off: usize, b: u8)
        requires
            f < old(self).pages@.len(),
            off < old(self).pages@[f as int].data@.len(),
        ensures
            final(self).pages@.len() == old(self).pages@.len(),
            forall|i: int|
                0 <= i < old(self).pages@.len() ==> (#[trigger] final(self).pages@[i]).vpn == old(
                    self,
                ).pages@[i].vpn && final(self).pages@[i].perm == old(self).pages@[i].perm
                    && final(self).pages@[i].data@.len() == old(self).pages@[i].data@.len(),
            final(self).pages@[f as int].data@[off as int] == b,
            forall|i: int, o: int|
                0 <= i < old(self).pages@.len() && 0 <= o < old(self).pages@[i].data@.len() && (i
                    != f || o != off) ==> #[trigger] final(self).pages@[i].data@[o] == old(
                    self,
                ).pages@[i].data@[o],
    {
        self.pages[f].data[off] = b;
    }

    /// Stores the bytes of `src` that belong to `seg`, which starts at the
    /// `done`-th byte of the range; returns how many bytes are stored in all.
    fn copy_segment(
        &mut self,
        seg: UserSegment,
        src: &Vec<u8>,
        done: usize,
        Ghost(orig): Ghost<Seq<Page>>,
        Ghost(base): Ghost<int>,
    ) -> (r: usize)
        requires
            same_shape(old(self).pages@, orig),
            unique_vpns(orig),
            0 <= seg.frame < orig.len(),
            orig[seg.frame as int].vpn == seg.vpn,
            seg.start < seg.end <= PAGE_SIZE,
            seg_start(seg) == base + done,
            seg_end(seg) <= base + src@.len(),
            stored_prefix(old(self).pages@, orig, base, src@, done as int),
        ensures
            same_shape(final(self).pages@, orig),
            r == done + seg.end - seg.start,
            stored_prefix(final(self).pages@, orig, base, src@, r as int),
    {
        let mut off = seg.start;
        let mut done = done;
        // taking the length tells the loop that it fits in usize
        let _n = src.len();
        while off < seg.end
            invariant
                unique_vpns(orig),
                0 <= seg.frame < orig.len(),
                orig[seg.frame as int].vpn == seg.vpn,
                seg.end <= PAGE_SIZE,
                seg.start <= off <= seg.end,
                seg.vpn * (PAGE_SIZE as int) + off == base + done,
                seg_end(seg) <= base + src@.len(),
                src@.len() <= usize::MAX,
                same_shape(self.pages@, orig),
                stored_prefix(self.pages@, orig, base, src@, done as int),
            decreases seg.end - off,
        {
            let b = src[done];
            let ghost before = self.pages@;
            self.store_byte(seg.frame, off, b);
            proof {
                lemma_store_step(before, self.pages@, orig, base, src@, done as int, seg.frame as int, off as int);
            }
            done = done + 1;
            off = off + 1;
        }
        done
    }

    /// Stores `src` at user address `ptr`, page by page through the frames
    /// that back the range. Fails and changes nothing when the range is not
    /// wholly in user pages.
    #[verifier::spinoff_prover]
    #[verifier::rlimit(50)]
    pub fn copy_out(&mut self, ptr: usize, src: &Vec<u8>) -> (r: Result<(), MemError>)
        requires
            old(self).wf(),
        ensures
            final(self).wf(),
            r is Ok <==> accessible(old(self)@, ptr as int, src@.len() as int),
            r is Err ==> *final(self) == *old(self),
            r is Ok ==> written(old(self)@, final(self)@, ptr as int, src@),
    {
        let segs = match self.translated_byte_buffer(ptr, src.len()) {
            Ok(segs) => segs,
            Err(e) => {
                return Err(e);
            },
        };
        let ghost old_pages = self.pages@;
        let ghost base = ptr as int;
        let mut done: usize = 0;
        let mut k: usize = 0;
        proof {
            reveal(stored_prefix);
        }
        while k < segs.len()
            invariant
                old(self).segments_cover(segs@, ptr as int, src@.len() as int),
                old(self).wf(),
                old_pages == old(self).pages@,
                base == ptr,
                k <= segs@.len(),
                same_shape(self.pages@, old_pages),
                k < segs@.len() ==> seg_start(segs@[k as int]) == ptr + done,
                k == segs@.len() ==> done == src@.len(),
                stored_prefix(self.pages@, old_pages, base, src@, done as int),
            decreases segs@.len() - k,
        {
            let seg = segs[k];
            assert(segs@[k as int] == seg);
            proof {
                if k + 1 < segs@.len() {
                    assert(seg_end(segs@[k as int]) == seg_start(segs@[k + 1]));
                } else {
                    assert(seg_end(segs@.last()) == ptr + src@.len());
                }
            }
            done = self.copy_segment(seg, src, done, Ghost(old_pages), Ghost(base));
            k = k + 1;
        }
        proof {
            reveal(stored_prefix);
            assert forall|v: int| #[trigger] self@.contains_key(v) <==> old(self)@.contains_key(v) by {
                if self.is_mapped(v) {
                    let i = self.index_of(v);
                    assert(old(self).has_index(v, i));
                }
                if old(self).is_mapped(v) {
                    let i = old(self).index_of(v);
                    assert(self.has_index(v, i));
                }
            }
            assert(self@.dom() =~= old(self)@.dom());
            assert forall|v: int| #[trigger] self@.contains_key(v) implies self@[v].0 == old(
                self,
            )@[v].0 && self@[v].1.len() == old(self)@[v].1.len() by {
                let i = self.index_of(v);
                assert(self.has_index(v, i));
                self.lemma_index_of(i);
                old(self).lemma_index_of(i);
            }
            assert forall|va: int| #[trigger]
                self@.contains_key(page_of(va)) implies byte_of(self@, va) == if ptr <= va < ptr
                + src@.len() {
                src@[va - ptr]
            } else {
                byte_of(old(self)@, va)
            } by {
                let i = self.index_of(page_of(va));
                assert(self.has_index(page_of(va), i));
                self.lemma_index_of(i);
                old(self).lemma_index_of(i);
                lemma_split_address(va);
                assert(self.pages@[i].data@[offset_of(va)] == if base <= old_pages[i].vpn * (PAGE_SIZE as int) + offset_of(va) < base + done {
                    src@[old_pages[i].vpn * (PAGE_SIZE as int) + offset_of(va) - base]
                } else {
                    old_pages[i].data@[offset_of(va)]
                });
            }
        }
        Ok(())
    }

    /// Reads `len` bytes at user address `ptr`; fails when the range is not
    /// wholly in user pages.
    #[verifier::spinoff_prover]
    #[verifier::rlimit(50)]
    pub fn copy_in(&self, ptr: usize, len: usize) -> (r: Result<Vec<u8>, MemError>)
        requires
            self.wf(),
        ensures
            r is Ok <==> accessible(self@, ptr as int, len as int),
            r matches Ok(bytes) ==> bytes@.len() == len && forall|k: int|
                0 <= k < len ==> #[trigger] bytes@[k] == byte_of(self@, ptr + k),
    {
        let segs = match self.translated_byte_buffer(ptr, len) {
            Ok(segs) => segs,
            Err(e) => {
                return Err(e);
            },
        };
        let mut out: Vec<u8> = Vec::new();
        let mut k: usize = 0;
        while k < segs.len()
            invariant
                self.wf(),
                self.segments_cover(segs@, ptr as int, len as int),
                k <= segs@.len(),
                k < segs@.len() ==> seg_start(segs@[k as int]) == ptr + out@.len(),
                k == segs@.len() ==> out@.len() == len,
                out@.len() <= len,
                forall|j: int| 0 <= j < out@.len() ==> #[trigger] out@[j] == byte_of(self@, ptr + j),
            decreases segs@.len() - k,
        {
            let seg = segs[k];
            assert(segs@[k as int] == seg);
            proof {
                self.lemma_index_of(seg.frame as int);
                if k + 1 < segs@.len() {
                    assert(seg_end(segs@[k as int]) == seg_start(segs@[k + 1]));
                } else {
                    assert(seg_end(segs@.last()) == ptr + len);
                }
            }
            let mut off = seg.start;
            while off < seg.end
                invariant
                    self.wf(),
                    seg == segs@[k as int],
                    self.has_index(seg.vpn as int, seg.frame as int),
                    seg.start <= off <= seg.end <= PAGE_SIZE,
                    seg.vpn * (PAGE_SIZE as int) + off == ptr + out@.len(),
                    seg_end(seg) <= ptr + len,
                    forall|j: int|
                        0 <= j < out@.len() ==> #[trigger] out@[j] == byte_of(self@, ptr + j),
                decreases seg.end - off,
            {
                let b = self.pages[seg.frame].data[off];
                proof {
                    self.lemma_index_of(seg.frame as int);
                    lemma_split_address(ptr + out@.len());
                    lemma_same_address(
                        page_of(ptr + out@.len()),
                        offset_of(ptr + out@.len()),
                        seg.vpn as int,
                        off as int,
                    );
                }
                out.push(b);
                off = off + 1;
            }
            k = k + 1;
        }
        Ok(out)
    }

    /// Appending an entry for an unmapped page adds exactly that page.
    pub(crate) proof fn lemma_push_view(old_ms: &MemorySet, new_ms: &MemorySet, page: Page)
        requires
            old_ms.wf(),
            !old_ms@.contains_key(page.vpn as int),
            page.data@.len() == PAGE_SIZE,
            new_ms.pages@ == old_ms.pages@.push(page),
        ensures
            new_ms.wf(),
            new_ms@ == old_ms@.insert(page.vpn as int, (page.perm, page.data@)),
    {
        let n = old_ms.pages@.len() as int;
        assert forall|i: int| 0 <= i < n implies old_ms.pages@[i].vpn != page.vpn by {
            old_ms.lemma_index_of(i);
        }
        assert(new_ms.pages@[n] == page);
        assert(new_ms.wf());
        assert forall|v: int| #[trigger] new_ms@.contains_key(v) <==> old_ms@.insert(
            page.vpn as int,
            (page.perm, page.data@),
        ).contains_key(v) by {
            if new_ms.is_mapped(v) {
                let i = new_ms.index_of(v);
                assert(new_ms.has_index(v, i));
                if i < n {
                    assert(old_ms.has_index(v, i));
                }
            }
            if old_ms.is_mapped(v) {
                let i = old_ms.index_of(v);
                assert(new_ms.has_index(v, i));
            }
            if v == page.vpn {
                assert(new_ms.has_index(v, n));
            }
        }
        assert forall|v: int| #[trigger] new_ms@.contains_key(v) implies new_ms@[v] == old_ms@.insert(
            page.vpn as int,
            (page.perm, page.data@),
        )[v] by {
            let i = new_ms.index_of(v);
            assert(new_ms.has_index(v, i));
            new_ms.lemma_index_of(i);
            if i < n {
                old_ms.lemma_index_of(i);
            }
        }
        assert(new_ms@ =~= old_ms@.insert(page.vpn as int, (page.perm, page.data@)));
    }

    /// Removing the entry at `i` removes exactly its page.
    pub(crate) proof fn lemma_remove_view(old_ms: &MemorySet, new_ms: &MemorySet, i: int)
        requires
            old_ms.wf(),
            0 <= i < old_ms.pages@.len(),
            new_ms.pages@ == old_ms.pages@.remove(i),
        ensures
            new_ms.wf(),
            new_ms@ == old_ms@.remove(old_ms.pages@[i].vpn as int),
    {
        let gone = old_ms.pages@[i].vpn as int;
        let want = old_ms@.remove(gone);
        assert forall|j: int| 0 <= j < new_ms.pages@.len() implies (#[trigger] new_ms.pages@[j])
            == old_ms.pages@[if j < i { j } else { j + 1 }] by {}
        assert(new_ms.wf());
        assert forall|v: int| #[trigger] new_ms@.contains_key(v) <==> want.contains_key(v) by {
            if new_ms.is_mapped(v) {
                let j = new_ms.index_of(v);
                assert(new_ms.has_index(v, j));
                let oj = if j < i { j } else { j + 1 };
                assert(old_ms.has_index(v, oj));
            }
            if old_ms.is_mapped(v) && v != gone {
                let oj = old_ms.index_of(v);
                assert(old_ms.has_index(v, oj));
                assert(oj != i);
                let j = if oj < i { oj } else { oj - 1 };
                assert(new_ms.has_index(v, j));
            }
        }
        assert forall|v: int| #[trigger] new_ms@.contains_key(v) implies new_ms@[v] == want[v] by {
            let j = new_ms.index_of(v);
            assert(new_ms.has_index(v, j));
            new_ms.lemma_index_of(j);
            let oj = if j < i { j } else { j + 1 };
            old_ms.lemma_index_of(oj);
        }
        assert(new_ms@ =~= want);
    }

    /// A frame of zero bytes.
    pub(crate) fn zeroed_frame() -> (r: Vec<u8>)
        ensures
            r@ == zero_page(),
    {
        let mut d: Vec<u8> = Vec::new();
        let mut i: usize = 0;
        while i < PAGE_SIZE
            invariant
                i <= PAGE_SIZE,
                d@ == Seq::new(i as nat, |j: int| 0u8),
            decreases PAGE_SIZE - i,
        {
            d.push(0u8);
            i = i + 1;
            assert(d@ =~= Seq::new(i as nat, |j: int| 0u8));
        }
        d
    }

    /// A new frame with the bytes of `src`.
    pub(crate) fn copy_frame(src: &Vec<u8>) -> (r: Vec<u8>)
        ensures
            r@ == src@,
    {
        let mut d: Vec<u8> = Vec::new();
        let mut i: usize = 0;
        while i < src.len()
            invariant
                i <= src@.len(),
                d@ == src@.subrange(0, i as int),
            decreases src@.len() - i,
        {
            d.push(src[i]);
            i = i + 1;
            assert(d@ =~= src@.subrange(0, i as int));
        }
        assert(d@ =~= src@);
        d
    }

    /// Whether every page of `[start_vpn, end_vpn)` is unmapped.
    pub fn range_is_free(&self, start_vpn: usize, end_vpn: usize) -> (r: bool)
        requires
            self.wf(),
        ensures
            r == range_unmapped(self@, start_vpn as int, end_vpn as int),
    {
        let mut v = start_vpn;
        while v < end_vpn
            invariant
                self.wf(),
                start_vpn <= v,
                v <= end_vpn || v == start_vpn,
                range_unmapped(self@, start_vpn as int, v as int),
            decreases end_vpn - v,
        {
            match self.find(v) {
                Some(i) => {
                    proof {
                        self.lemma_index_of(i as int);
                    }
                    return false;
                },
                None => {},
            }
            v = v + 1;
        }
        true
    }

    /// Whether every page of `[start_vpn, end_vpn)` is mapped.
    pub fn range_is_mapped(&self, start_vpn: usize, end_vpn: usize) -> (r: bool)
        requires
            self.wf(),
        ensures
            r == range_mapped(self@, start_vpn as int, end_vpn as int),
    {
        let mut v = start_vpn;
        while v < end_vpn
            invariant
                self.wf(),
                start_vpn <= v,
                v <= end_vpn || v == start_vpn,
                range_mapped(self@, start_vpn as int, v as int),
            decreases end_vpn - v,
        {
            if self.find(v).is_none() {
                assert(!self@.contains_key(v as int));
                return false;
            }
            v = v + 1;
        }
        true
    }

    /// Maps every page of `[start_vpn, end_vpn)` to a fresh zeroed frame
    /// with rights `perm`. Does nothing and returns false when a page of the
    /// range is already mapped.
    pub fn insert_framed_area(&mut self, start_vpn: usize, end_vpn: usize, perm: MapPermission) -> (r:
        bool)
        requires
            old(self).wf(),
        ensures
            final(self).wf(),
            r == range_unmapped(old(self)@, start_vpn as int, end_vpn as int),
            r ==> final(self)@ == with_range_mapped(
                old(self)@,
                start_vpn as int,
                end_vpn as int,
                perm,
            ),
            !r ==> *final(self) == *old(self),
    {
        if !self.range_is_free(start_vpn, end_vpn) {
            return false;
        }
        let mut v = start_vpn;
        proof {
            assert(old(self)@ =~= with_range_mapped(old(self)@, start_vpn as int, v as int, perm));
        }
        while v < end_vpn
            invariant
                self.wf(),
                start_vpn <= v,
                v <= end_vpn || v == start_vpn,
                range_unmapped(old(self)@, start_vpn as int, end_vpn as int),
                self@ == with_range_mapped(old(self)@, start_vpn as int, v as int, perm),
            decreases end_vpn - v,
        {
            let page = Page { vpn: v, perm, data: Self::zeroed_frame() };
            assert(!old(self)@.contains_key(v as int));
            assert(!self@.contains_key(v as int));
            let ghost before = *self;
            self.pages.push(page);
            proof {
                Self::lemma_push_view(&before, self, page);
                assert(self@ =~= with_range_mapped(old(self)@, start_vpn as int, v + 1, perm)) by {
                    assert(zero_page() =~= page.data@);
                }
            }
            v = v + 1;
        }
        proof {
            if start_vpn >= end_vpn {
                assert(with_range_mapped(old(self)@, start_vpn as int, v as int, perm) =~= with_range_mapped(old(self)@, start_vpn as int, end_vpn as int, perm));
            }
        }
        true
    }

    /// Unmaps every page of `[start_vpn, end_vpn)` and frees its frame. Does
    /// nothing and returns false when a page of the range is not mapped.
    pub fn unmap_range(&mut self, start_vpn: usize, end_vpn: usize) -> (r: bool)
        requires
            old(self).wf(),
        ensures
            final(self).wf(),
            r == range_mapped(old(self)@, start_vpn as int, end_vpn as int),
            r ==> final(self)@ == with_range_unmapped(old(self)@, start_vpn as int, end_vpn as int),
            !r ==> *final(self) == *old(self),
    {
        if !self.range_is_mapped(start_vpn, end_vpn) {
            return false;
        }
        let mut v = start_vpn;
        proof {
            assert(old(self)@ =~= with_range_unmapped(old(self)@, start_vpn as int, v as int));
        }
        while v < end_vpn
            invariant
                self.wf(),
                start_vpn <= v,
                v <= end_vpn || v == start_vpn,
                range_mapped(old(self)@, start_vpn as int, end_vpn as int),
                self@ == with_range_unmapped(old(self)@, start_vpn as int, v as int),
            decreases end_vpn - v,
        {
            assert(old(self)@.contains_key(v as int));
            assert(!vpn_range(start_vpn as int, v as int).contains(v as int));
            assert(self@.contains_key(v as int));
            let i = match self.find(v) {
                Some(i) => i,
                None => {
                    return false;
                },
            };
            let ghost before = *self;
            self.pages.remove(i);
            proof {
                Self::lemma_remove_view(&before, self, i as int);
                assert(self@ =~= with_range_unmapped(old(self)@, start_vpn as int, v + 1));
            }
            v = v + 1;
        }
        proof {
            if start_vpn >= end_vpn {
                assert(with_range_unmapped(old(self)@, start_vpn as int, v as int) =~= with_range_unmapped(old(self)@, start_vpn as int, end_vpn as int));
            }
        }
        true
    }

    /// New frames holding the same bytes under the same mappings.
    pub fn clone_space(&self) -> (r: MemorySet)
        requires
            self.wf(),
        ensures
            r.wf(),
            r@ == self@,
    {
        let mut r = MemorySet::new_bare();
        let mut i: usize = 0;
        while i < self.pages.len()
            invariant
                self.wf(),
                i <= self.pages@.len(),
                r.pages@.len() == i,
                forall|j: int|
                    0 <= j < i ==> (#[trigger] r.pages@[j]).vpn == self.pages@[j].vpn
                        && r.pages@[j].perm == self.pages@[j].perm && r.pages@[j].data@
                        == self.pages@[j].data@,
            decreases self.pages@.len() - i,
        {
            let page = Page {
                vpn: self.pages[i].vpn,
                perm: self.pages[i].perm,
                data: Self::copy_frame(&self.pages[i].data),
            };
            r.pages.push(page);
            i = i + 1;
        }
        proof {
            assert(r.wf());
            assert forall|v: int| #[trigger] r@.contains_key(v) <==> self@.contains_key(v) by {
                if r.is_mapped(v) {
                    let j = r.index_of(v);
                    assert(r.has_index(v, j));
                    assert(self.has_index(v, j));
                }
                if self.is_mapped(v) {
                    let j = self.index_of(v);
                    assert(self.has_index(v, j));
                    assert(r.has_index(v, j));
                }
            }
            assert forall|v: int| #[trigger] r@.contains_key(v) implies r@[v] == self@[v] by {
                let j = r.index_of(v);
                assert(r.has_index(v, j));
                r.lemma_index_of(j);
                self.lemma_index_of(j);
            }
            assert(r@ =~= self@);
        }
        r
    }

    /// Frees every frame: the address space of an exited process.
    pub fn recycle_data_pages(&mut self)
        ensures
            final(self).wf(),
            final(self)@ == Map::<int, PageView>::empty(),
    {
        self.pages.clear();
        assert(self@ =~= Map::<int, PageView>::empty());
    }

    /// The byte at user address `va`, if its page is a user page.
    pub fn read_byte(&self, va: usize) -> (r: Option<u8>)
        requires
            self.wf(),
        ensures
            r is Some <==> user_page(self@, page_of(va as int)),
            r matches Some(b) ==> b == byte_of(self@, va as int),
    {
        let vpn = va / PAGE_SIZE;
        assert(page_of(va as int) == vpn);
        match self.find(vpn) {
            Some(i) => {
                proof {
                    self.lemma_index_of(i as int);
                    lemma_split_address(va as int);
                }
                if self.pages[i].perm.u {
                    Some(self.pages[i].data[va % PAGE_SIZE])
                } else {
                    None
                }
            },
            None => None,
        }
    }

    /// Reads the zero-terminated byte string at user address `ptr`, page by
    /// page, without its terminator.
    pub fn translated_str(&self, ptr: usize) -> (r: Result<Vec<u8>, MemError>)
        requires
            self.wf(),
        ensures
            r matches Ok(s) ==> c_string_at(self@, ptr as int, s@),
            r is Err ==> no_c_string_at(self@, ptr as int),
    {
        let mut out: Vec<u8> = Vec::new();
        let mut va = ptr;
        loop
            invariant
                self.wf(),
                va == ptr + out@.len(),
                string_prefix_at(self@, ptr as int, out@),
            decreases usize::MAX - va,
        {
            match self.read_byte(va) {
                Some(b) => {
                    if b == 0 {
                        assert(c_string_at(self@, ptr as int, out@)) by {
                            assert(va as int == ptr + out@.len());
                        }
                        return Ok(out);
                    }
                    if va == usize::MAX {
                        assert(no_c_string_at(self@, ptr as int)) by {
                            assert forall|k: int| 0 <= k < out@.len() + 1 implies #[trigger] user_page(
                                self@,
                                page_of(ptr + k),
                            ) && byte_of(self@, ptr + k) != 0 by {
                                if k < out@.len() {
                                    assert(out@[k] == byte_of(self@, ptr + k));
                                }
                            }
                            assert(string_fails_at(self@, ptr as int, out@.len() + 1 as int));
                        }
                        return Err(MemError::InvalidAddress);
                    }
                    proof {
                        lemma_prefix_push(self@, ptr as int, out@, b);
                    }
                    out.push(b);
                    va = va + 1;
                },
                None => {
                    assert forall|k: int| 0 <= k < out@.len() implies #[trigger] user_page(
                        self@,
                        page_of(ptr + k),
                    ) && byte_of(self@, ptr + k) != 0 by {
                        assert(out@[k] == byte_of(self@, ptr + k));
                    }
                    assert(string_fails_at(self@, ptr as int, out@.len() as int));
                    return Err(MemError::InvalidAddress);
                },
            }
        }
    }

    /// The rights of `vpn`, if it is mapped; never allocates.
    pub fn translate(&self, vpn: usize) -> (r: Option<MapPermission>)
        requires
            self.wf(),
        ensures
            match r {
                Some(p) => self@.contains_key(vpn as int) && self@[vpn as int].0 == p,
                None => !self@.contains_key(vpn as int),
            },
    {
        match self.find(vpn) {
            Some(i) => {
                proof {
                    self.lemma_index_of(i as int);
                }
                Some(self.pages[i].perm)
            },
            None => None,
        }
    }
}

} // verus!

verus! {

/// Mapping a range of pages that were all unmapped and then unmapping the
/// same range gives back the address space as it was.
pub proof fn lemma_map_then_unmap_restores(m: Map<int, PageView>, s: int, e: int, perm: MapPermission)
    requires
        range_unmapped(m, s, e),
    ensures
        with_range_unmapped(with_range_mapped(m, s, e, perm), s, e) == m,
        range_mapped(with_range_mapped(m, s, e, perm), s, e),
{
    let mid = with_range_mapped(m, s, e, perm);
    assert forall|v: int| s <= v < e implies #[trigger] mid.contains_key(v) by {}
    assert(with_range_unmapped(mid, s, e) =~= m);
}

/// Storing bytes at a user address and reading the same range back yields
/// the bytes stored, and the range stays readable.
pub proof fn lemma_store_then_load(before: Map<int, PageView>, after: Map<int, PageView>, ptr: int, src: Seq<u8>)
    requires
        accessible(before, ptr, src.len() as int),
        written(before, after, ptr, src),
    ensures
        accessible(after, ptr, src.len() as int),
        forall|k: int| 0 <= k < src.len() ==> #[trigger] byte_of(after, ptr + k) == src[k],
{
    assert forall|a: int| ptr <= a < ptr + src.len() implies #[trigger] user_page(after, page_of(a)) by {
        assert(user_page(before, page_of(a)));
        assert(after.contains_key(page_of(a)));
    }
    assert forall|k: int| 0 <= k < src.len() implies #[trigger] byte_of(after, ptr + k) == src[k] by {
        assert(user_page(before, page_of(ptr + k)));
        assert(after.contains_key(page_of(ptr + k)));
    }
}

} // verus!
