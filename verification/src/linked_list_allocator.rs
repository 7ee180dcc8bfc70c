//! A first-fit free-list heap allocator.
//!
//! The free list is kept as a sequence of free blocks ordered by address; each block
//! records where it starts and how many bytes it spans.  Allocation walks the list,
//! takes the first block that can hold the request once its start is rounded up to
//! the requested alignment, and puts back what is left of that block in front of and
//! behind the handed-out range.  Deallocation inserts the block at its place in the
//! address order and merges it with the neighbours it touches.
use vstd::prelude::*;

verus! {

/// Bytes taken by the header that a free block stores in its own memory
/// (its size and the link to the next free block, two machine words).
pub const LIST_NODE_SIZE: usize = 16;

/// A free block of the heap.
#[derive(Clone, Copy, Debug, PartialEq, Eq)]
pub struct ListNode {
    /// Bytes the free block spans, header included.
    pub size: usize,
    /// Address at which the free block starts.
    pub addr: usize,
}

/// The allocator: the free blocks of the heap, in ascending address order.
pub struct LinkedListAllocator {
    free: Vec<ListNode>,
}

/// Distance from `addr` up to the next multiple of `align`.
pub open spec fn align_padding(addr: int, align: int) -> int {
    if addr % align == 0 { 0 } else { align - addr % align }
}

/// `size` rounded up to a multiple of 8, and never less than a free-list header.
pub open spec fn effective_size_spec(size: int) -> int {
    let rounded = if size % 8 == 0 { size } else { size + (8 - size % 8) };
    if rounded < LIST_NODE_SIZE { LIST_NODE_SIZE as int } else { rounded }
}

/// End (one past the last byte) of a free block.
pub open spec fn node_end(n: ListNode) -> int {
    n.addr + n.size
}

/// Whether `n` can hold `size` bytes once its start is rounded up to `align`.
pub open spec fn fits(n: ListNode, size: int, align: int) -> bool {
    n.size >= size + align_padding(n.addr as int, align)
}

/// No block among the first `i` of `s` can hold the request.
pub open spec fn none_fit_before(s: Seq<ListNode>, i: int, size: int, align: int) -> bool {
    forall|j: int| 0 <= j < i && j < s.len() ==> !#[trigger] fits(s[j], size, align)
}

/// Index of the first block of `s` that can hold the request, if any.
pub open spec fn first_fit(s: Seq<ListNode>, size: int, align: int) -> Option<int> {
    if exists|i: int| 0 <= i < s.len() && fits(s[i], size, align) && none_fit_before(s, i, size, align) {
        Some(choose|i: int| 0 <= i < s.len() && fits(s[i], size, align) && none_fit_before(s, i, size, align))
    } else {
        None
    }
}

/// What stays free of block `n` once `size` bytes are taken at its first address
/// aligned to `align`: the padding in front, if it can hold a header, and the rest
/// behind, if it can hold a header.  Smaller pieces are given up.
pub open spec fn carve(n: ListNode, size: int, align: int) -> Seq<ListNode> {
    let p = align_padding(n.addr as int, align);
    let left = n.size - p - size;
    let head = if p >= LIST_NODE_SIZE {
        seq![ListNode { size: p as usize, addr: n.addr }]
    } else {
        Seq::empty()
    };
    let tail = if left >= LIST_NODE_SIZE {
        seq![ListNode { size: left as usize, addr: (n.addr + p + size) as usize }]
    } else {
        Seq::empty()
    };
    head + tail
}

/// The bytes of block `n` that serving `size` bytes at its first address aligned to
/// `align` gives up: padding in front and rest behind that are too small to hold a
/// header.
pub open spec fn given_up(n: ListNode, size: int, align: int) -> Set<int> {
    let p = align_padding(n.addr as int, align);
    let left = n.size - p - size;
    let front = if p < LIST_NODE_SIZE { byte_range(n.addr as int, n.addr + p) } else { Set::empty() };
    let back = if left < LIST_NODE_SIZE {
        byte_range(n.addr + p + size, node_end(n))
    } else {
        Set::empty()
    };
    front.union(back)
}

/// The free list after the request has been served from block `i`.
pub open spec fn alloc_list(s: Seq<ListNode>, i: int, size: int, align: int) -> Seq<ListNode> {
    s.take(i) + carve(s[i], size, align) + s.skip(i + 1)
}

/// Number of blocks at the front of `s` that start below `ptr`: where a block
/// starting at `ptr` goes in the address order.
pub open spec fn insertion_index(s: Seq<ListNode>, ptr: int) -> nat
    decreases s.len(),
{
    if s.len() == 0 {
        0
    } else if s[0].addr < ptr {
        1 + insertion_index(s.drop_first(), ptr)
    } else {
        0
    }
}

/// `s` with blocks `i` and `i + 1` joined into one.
pub open spec fn merge_at(s: Seq<ListNode>, i: int) -> Seq<ListNode> {
    s.take(i).push(ListNode { size: (s[i].size + s[i + 1].size) as usize, addr: s[i].addr }) + s.skip(
        i + 2,
    )
}

/// The free list after the block `[ptr, ptr + e)` is given back: it is inserted in
/// address order, joined with the next block if it ends where that one starts, and
/// then joined with the previous block if that one ends where it starts.
pub open spec fn dealloc_list(s: Seq<ListNode>, ptr: int, e: int) -> Seq<ListNode> {
    let k = insertion_index(s, ptr) as int;
    let u = s.insert(k, ListNode { size: e as usize, addr: ptr as usize });
    let v = if k + 1 < u.len() && node_end(u[k]) == u[k + 1].addr {
        merge_at(u, k)
    } else {
        u
    };
    if k > 0 && node_end(v[k - 1]) == v[k].addr {
        merge_at(v, k - 1)
    } else {
        v
    }
}

/// The blocks are ordered by address, do not overlap, each can hold a header,
/// none starts at address zero and none runs past the end of the address space.
pub open spec fn free_list_wf(s: Seq<ListNode>) -> bool {
    &&& forall|i: int| 0 <= i < s.len() ==> {
        &&& #[trigger] s[i].addr > 0
        &&& s[i].size >= LIST_NODE_SIZE
        &&& node_end(s[i]) <= usize::MAX
    }
    &&& forall|i: int, j: int| #![trigger s[i], s[j]] 0 <= i < j < s.len() ==> node_end(s[i]) <= s[j].addr
}

/// No two blocks touch: each one ends strictly before any later one starts.
pub open spec fn blocks_apart(s: Seq<ListNode>) -> bool {
    forall|i: int, j: int| #![trigger s[i], s[j]] 0 <= i < j < s.len() ==> node_end(s[i]) < s[j].addr
}

/// A well-formed list whose blocks all start at a multiple of 8 and no two of which
/// touch (touching blocks would have been joined).
pub open spec fn free_list_tidy(s: Seq<ListNode>) -> bool {
    &&& free_list_wf(s)
    &&& forall|i: int| 0 <= i < s.len() ==> #[trigger] s[i].addr % 8 == 0
    &&& blocks_apart(s)
}

/// Alignments that are a multiple of 8 or divide 8, as every power of two does.
pub open spec fn align_meets_eight(align: int) -> bool {
    align > 0 && (align % 8 == 0 || 8int % align == 0)
}

/// Whether byte `a` lies in block `n`.
pub open spec fn in_node(n: ListNode, a: int) -> bool {
    n.addr <= a < node_end(n)
}

/// The set of free bytes.
pub open spec fn free_bytes(s: Seq<ListNode>) -> Set<int> {
    Set::new(|a: int| exists|i: int| 0 <= i < s.len() && in_node(#[trigger] s[i], a))
}

/// The bytes from `start` up to, not including, `end`.
pub open spec fn byte_range(start: int, end: int) -> Set<int> {
    Set::new(|a: int| start <= a < end)
}

/// Rounding `addr` up by its padding lands on a multiple of `align`.
pub proof fn lemma_padding_aligns(addr: int, align: int)
    requires
        addr >= 0,
        align > 0,
    ensures
        0 <= align_padding(addr, align) < align,
        (addr + align_padding(addr, align)) % align == 0,
{
    let q = addr / align;
    vstd::arithmetic::div_mod::lemma_fundamental_div_mod(addr, align);
    if addr % align == 0 {
        vstd::arithmetic::div_mod::lemma_fundamental_div_mod_converse_mod(addr, align, q, 0);
    } else {
        assert((q + 1) * align == align * q + align) by (nonlinear_arith);
        vstd::arithmetic::div_mod::lemma_fundamental_div_mod_converse_mod(
            addr + align_padding(addr, align),
            align,
            q + 1,
            0,
        );
    }
}

/// Only one block can be the first to fit.
pub proof fn lemma_first_fit_unique(s: Seq<ListNode>, i: int, size: int, align: int)
    requires
        0 <= i < s.len(),
        fits(s[i], size, align),
        none_fit_before(s, i, size, align),
    ensures
        first_fit(s, size, align) == Some(i),
{
    let k = choose|k: int| 0 <= k < s.len() && fits(s[k], size, align) && none_fit_before(s, k, size, align);
    assert(0 <= k < s.len() && fits(s[k], size, align) && none_fit_before(s, k, size, align));
    if k < i {
        assert(!fits(s[k], size, align));
    }
    if i < k {
        assert(!fits(s[i], size, align));
    }
}

/// Serving a request from the first block that fits hands out aligned bytes that were
/// free and are free no longer, frees nothing new, and keeps the list well formed.
pub proof fn lemma_alloc_list(s: Seq<ListNode>, i: int, size: int, align: int)
    requires
        free_list_wf(s),
        0 <= i < s.len(),
        fits(s[i], size, align),
        size >= LIST_NODE_SIZE,
        align > 0,
    ensures
        ({
            let r = s[i].addr + align_padding(s[i].addr as int, align);
            let t = alloc_list(s, i, size, align);
            &&& r % align == 0
            &&& r > 0
            &&& byte_range(r, r + size).subset_of(free_bytes(s))
            &&& byte_range(r, r + size).disjoint(free_bytes(t))
            &&& free_bytes(t).subset_of(free_bytes(s))
            &&& free_list_wf(t)
            &&& free_bytes(s) == free_bytes(t).union(byte_range(r, r + size)).union(
                given_up(s[i], size, align),
            )
        }),
{
    let n = s[i];
    let p = align_padding(n.addr as int, align);
    let r = n.addr + p;
    let c = carve(n, size, align);
    let t = alloc_list(s, i, size, align);
    lemma_padding_aligns(n.addr as int, align);
    assert(t.len() == i + c.len() + (s.len() - i - 1));
    // Every block of the new list is a prefix block, a carved piece of block i, or a suffix block.
    assert forall|k: int| 0 <= k < t.len() implies {
        &&& k < i ==> t[k] == s[k]
        &&& i + c.len() <= k ==> t[k] == s[k - c.len() + 1]
        &&& i <= k < i + c.len() ==> t[k] == c[k - i]
    } by {
        if k < i {
            assert(t[k] == s.take(i)[k]);
        } else if k < i + c.len() {
            assert(t[k] == (s.take(i) + c)[k]);
        } else {
            assert(t[k] == s.skip(i + 1)[k - i - c.len()]);
        }
    }
    // The carved pieces lie inside block i: the head ends where the handed-out bytes
    // start and the tail starts where they end.
    assert forall|m: int| 0 <= m < c.len() implies {
        &&& n.addr <= #[trigger] c[m].addr
        &&& node_end(c[m]) <= node_end(n)
        &&& (node_end(c[m]) <= r || r + size <= c[m].addr)
        &&& c[m].addr > 0
        &&& c[m].size >= LIST_NODE_SIZE
        &&& (m == 0 && c.len() == 2 ==> node_end(c[0]) <= c[1].addr)
    } by {}
    assert forall|a: int| free_bytes(t).contains(a) implies free_bytes(s).contains(a) by {
        let k = choose|k: int| 0 <= k < t.len() && in_node(#[trigger] t[k], a);
        if k < i {
            assert(in_node(s[k], a));
        } else if k < i + c.len() {
            assert(in_node(s[i], a));
        } else {
            assert(in_node(s[k - c.len() + 1], a));
        }
    }
    assert forall|a: int| byte_range(r, r + size).contains(a) implies free_bytes(s).contains(a) by {
        assert(in_node(s[i], a));
    }
    assert forall|a: int| byte_range(r, r + size).contains(a) implies !free_bytes(t).contains(a) by {
        if free_bytes(t).contains(a) {
            let k = choose|k: int| 0 <= k < t.len() && in_node(#[trigger] t[k], a);
            if k < i {
                assert(node_end(s[k]) <= s[i].addr);
            } else if k < i + c.len() {
                assert(in_node(c[k - i], a));
            } else {
                let j = k - c.len() + 1;
                assert(node_end(s[i]) <= s[j].addr);
            }
        }
    }
    let g = given_up(n, size, align);
    assert forall|a: int| free_bytes(s).contains(a) implies free_bytes(t).union(
        byte_range(r, r + size),
    ).union(g).contains(a) by {
        let j = choose|j: int| 0 <= j < s.len() && in_node(#[trigger] s[j], a);
        if j < i {
            assert(in_node(t[j], a));
        } else if j > i {
            assert(in_node(t[j + c.len() - 1], a));
        } else if a < r {
            if p >= LIST_NODE_SIZE {
                assert(in_node(t[i], a));
            }
        } else if a >= r + size {
            let left = n.size - p - size;
            if left >= LIST_NODE_SIZE {
                assert(in_node(t[i + c.len() - 1], a));
            }
        }
    }
    assert forall|a: int| g.contains(a) implies free_bytes(s).contains(a) by {
        assert(in_node(s[i], a));
    }
    assert(free_bytes(s) =~= free_bytes(t).union(byte_range(r, r + size)).union(g));
    assert forall|k1: int, k2: int| #![trigger t[k1], t[k2]] 0 <= k1 < k2 < t.len() implies node_end(
        t[k1],
    ) <= t[k2].addr by {
        if k1 < i {
            if k2 < i {
            } else if k2 < i + c.len() {
                assert(node_end(s[k1]) <= s[i].addr);
            } else {
                assert(node_end(s[k1]) <= s[k2 - c.len() + 1].addr);
            }
        } else if k1 < i + c.len() {
            if k2 < i + c.len() {
            } else {
                assert(node_end(s[i]) <= s[k2 - c.len() + 1].addr);
            }
        } else {
            assert(node_end(s[k1 - c.len() + 1]) <= s[k2 - c.len() + 1].addr);
        }
    }
    assert forall|k: int| 0 <= k < t.len() implies {
        &&& #[trigger] t[k].addr > 0
        &&& t[k].size >= LIST_NODE_SIZE
        &&& node_end(t[k]) <= usize::MAX
    } by {
        if k < i {
        } else if k < i + c.len() {
            assert(t[k] == c[k - i]);
        } else {
            assert(t[k] == s[k - c.len() + 1]);
        }
    }
}

/// The blocks in front of the insertion index start below `ptr`, the one at it does not.
pub proof fn lemma_insertion_index(s: Seq<ListNode>, ptr: int)
    ensures
        insertion_index(s, ptr) <= s.len(),
        forall|j: int| 0 <= j < insertion_index(s, ptr) ==> #[trigger] s[j].addr < ptr,
        insertion_index(s, ptr) < s.len() ==> s[insertion_index(s, ptr) as int].addr >= ptr,
    decreases s.len(),
{
    if s.len() > 0 && s[0].addr < ptr {
        let t = s.drop_first();
        lemma_insertion_index(t, ptr);
        assert forall|j: int| 0 <= j < insertion_index(s, ptr) implies #[trigger] s[j].addr < ptr by {
            if j > 0 {
                assert(s[j] == t[j - 1]);
            }
        }
    }
}

/// An index before which every block starts below `ptr`, and at which none does, is the
/// insertion index.
pub proof fn lemma_insertion_index_at(s: Seq<ListNode>, ptr: int, k: int)
    requires
        0 <= k <= s.len(),
        forall|j: int| 0 <= j < k ==> #[trigger] s[j].addr < ptr,
        k < s.len() ==> s[k].addr >= ptr,
    ensures
        insertion_index(s, ptr) == k,
    decreases s.len(),
{
    if s.len() > 0 && k > 0 {
        let t = s.drop_first();
        assert forall|j: int| 0 <= j < k - 1 implies #[trigger] t[j].addr < ptr by {
            assert(t[j] == s[j + 1]);
        }
        lemma_insertion_index_at(t, ptr, k - 1);
    }
}

/// Putting a block that fits between its neighbours into the list keeps the list well
/// formed and adds exactly its bytes to the free bytes.
pub proof fn lemma_insert_node(s: Seq<ListNode>, k: int, n: ListNode)
    requires
        free_list_wf(s),
        0 <= k <= s.len(),
        n.addr > 0,
        n.size >= LIST_NODE_SIZE,
        node_end(n) <= usize::MAX,
        forall|j: int| 0 <= j < k ==> node_end(#[trigger] s[j]) <= n.addr,
        forall|j: int| k <= j < s.len() ==> node_end(n) <= #[trigger] s[j].addr,
    ensures
        free_list_wf(s.insert(k, n)),
        free_bytes(s.insert(k, n)) == free_bytes(s).union(byte_range(n.addr as int, node_end(n))),
{
    let t = s.insert(k, n);
    assert forall|j: int| 0 <= j < t.len() implies {
        &&& j < k ==> t[j] == s[j]
        &&& j == k ==> t[j] == n
        &&& j > k ==> t[j] == s[j - 1]
    } by {}
    assert forall|a: int| free_bytes(t).contains(a) <==> free_bytes(s).union(
        byte_range(n.addr as int, node_end(n)),
    ).contains(a) by {
        if free_bytes(t).contains(a) {
            let j = choose|j: int| 0 <= j < t.len() && in_node(#[trigger] t[j], a);
            if j < k {
                assert(in_node(s[j], a));
            } else if j > k {
                assert(in_node(s[j - 1], a));
            }
        }
        if free_bytes(s).contains(a) {
            let j = choose|j: int| 0 <= j < s.len() && in_node(#[trigger] s[j], a);
            if j < k {
                assert(in_node(t[j], a));
            } else {
                assert(in_node(t[j + 1], a));
            }
        }
        if byte_range(n.addr as int, node_end(n)).contains(a) {
            assert(in_node(t[k], a));
        }
    }
    assert(free_bytes(t) =~= free_bytes(s).union(byte_range(n.addr as int, node_end(n))));
}

/// Joining two blocks that touch keeps the list well formed and the free bytes the same.
pub proof fn lemma_merge_at(s: Seq<ListNode>, i: int)
    requires
        free_list_wf(s),
        0 <= i,
        i + 1 < s.len(),
        node_end(s[i]) == s[i + 1].addr,
    ensures
        free_list_wf(merge_at(s, i)),
        free_bytes(merge_at(s, i)) == free_bytes(s),
        merge_at(s, i).len() == s.len() - 1,
{
    let t = merge_at(s, i);
    let m = ListNode { size: (s[i].size + s[i + 1].size) as usize, addr: s[i].addr };
    assert(node_end(s[i + 1]) <= usize::MAX);
    assert forall|j: int| 0 <= j < t.len() implies {
        &&& j < i ==> t[j] == s[j]
        &&& j == i ==> t[j] == m
        &&& j > i ==> t[j] == s[j + 1]
    } by {
        if j < i {
            assert(t[j] == s.take(i)[j]);
        } else if j > i {
            assert(t[j] == s.skip(i + 2)[j - i - 1]);
        }
    }
    assert forall|a: int| free_bytes(t).contains(a) <==> free_bytes(s).contains(a) by {
        if free_bytes(t).contains(a) {
            let j = choose|j: int| 0 <= j < t.len() && in_node(#[trigger] t[j], a);
            if j < i {
                assert(in_node(s[j], a));
            } else if j > i {
                assert(in_node(s[j + 1], a));
            } else if a < s[i + 1].addr {
                assert(in_node(s[i], a));
            } else {
                assert(in_node(s[i + 1], a));
            }
        }
        if free_bytes(s).contains(a) {
            let j = choose|j: int| 0 <= j < s.len() && in_node(#[trigger] s[j], a);
            if j < i {
                assert(in_node(t[j], a));
            } else if j > i + 1 {
                assert(in_node(t[j - 1], a));
            } else {
                assert(in_node(t[i], a));
            }
        }
    }
    assert(free_bytes(t) =~= free_bytes(s));
    assert forall|k1: int, k2: int| #![trigger t[k1], t[k2]] 0 <= k1 < k2 < t.len() implies node_end(
        t[k1],
    ) <= t[k2].addr by {
        let j1 = if k1 <= i { k1 } else { k1 + 1 };
        let j2 = if k2 < i { k2 } else { k2 + 1 };
        if k1 == i {
            assert(node_end(t[k1]) == node_end(s[i + 1]));
        }
        assert(node_end(s[j1]) <= s[j2].addr || k1 == i);
    }
}

/// Giving back a block that overlaps no free block keeps the list well formed and
/// adds exactly the block's bytes to the free bytes.
pub proof fn lemma_dealloc_list(s: Seq<ListNode>, ptr: int, e: int)
    requires
        free_list_wf(s),
        ptr > 0,
        e >= LIST_NODE_SIZE,
        ptr + e <= usize::MAX,
        byte_range(ptr, ptr + e).disjoint(free_bytes(s)),
    ensures
        free_list_wf(dealloc_list(s, ptr, e)),
        free_bytes(dealloc_list(s, ptr, e)) == free_bytes(s).union(byte_range(ptr, ptr + e)),
{
    let k = insertion_index(s, ptr) as int;
    lemma_insertion_index(s, ptr);
    let n = ListNode { size: e as usize, addr: ptr as usize };
    assert forall|j: int| 0 <= j < k implies node_end(#[trigger] s[j]) <= ptr by {
        if node_end(s[j]) > ptr {
            assert(in_node(s[j], ptr));
            assert(byte_range(ptr, ptr + e).contains(ptr));
            assert(free_bytes(s).contains(ptr));
        }
    }
    assert forall|j: int| k <= j < s.len() implies ptr + e <= #[trigger] s[j].addr by {
        if j > k {
            assert(s[k].addr <= node_end(s[k]) <= s[j].addr);
        }
        if s[j].addr < ptr + e {
            assert(in_node(s[j], s[j].addr as int));
            assert(byte_range(ptr, ptr + e).contains(s[j].addr as int));
            assert(free_bytes(s).contains(s[j].addr as int));
        }
    }
    lemma_insert_node(s, k, n);
    let u = s.insert(k, n);
    assert(u[k] == n);
    let v = if k + 1 < u.len() && node_end(u[k]) == u[k + 1].addr {
        lemma_merge_at(u, k);
        merge_at(u, k)
    } else {
        u
    };
    assert(v.len() > k);
    if k > 0 && node_end(v[k - 1]) == v[k].addr {
        lemma_merge_at(v, k - 1);
    }
}

/// Allocating a block and then giving it back leaves free exactly the bytes that were
/// free before, except those the allocation gave up as too small to keep.
pub proof fn lemma_alloc_then_dealloc(s: Seq<ListNode>, size: int, align: int)
    requires
        free_list_wf(s),
        size >= LIST_NODE_SIZE,
        align > 0,
        first_fit(s, size, align) is Some,
    ensures
        ({
            let i = first_fit(s, size, align)->0;
            let r = s[i].addr + align_padding(s[i].addr as int, align);
            let back = dealloc_list(alloc_list(s, i, size, align), r, size);
            &&& free_list_wf(back)
            &&& free_bytes(back) == free_bytes(s).difference(given_up(s[i], size, align))
        }),
{
    let i = choose|i: int| 0 <= i < s.len() && fits(s[i], size, align) && none_fit_before(s, i, size, align);
    assert(first_fit(s, size, align) == Some(i));
    let r = s[i].addr + align_padding(s[i].addr as int, align);
    let t = alloc_list(s, i, size, align);
    let g = given_up(s[i], size, align);
    lemma_alloc_list(s, i, size, align);
    lemma_padding_aligns(s[i].addr as int, align);
    assert(r + size <= node_end(s[i]) <= usize::MAX);
    lemma_dealloc_list(t, r, size);
    assert(byte_range(r, r + size).disjoint(g));
    assert forall|a: int| g.contains(a) implies !free_bytes(t).contains(a) by {
        // given-up bytes were in block i but lie in no carved piece and in no other block
        if free_bytes(t).contains(a) {
            let k = choose|k: int| 0 <= k < t.len() && in_node(#[trigger] t[k], a);
            let c = carve(s[i], size, align);
            if k < i {
                assert(t[k] == s[k]);
                assert(node_end(s[k]) <= s[i].addr);
            } else if k < i + c.len() {
                assert(t[k] == (s.take(i) + c)[k]);
            } else {
                assert(t[k] == s.skip(i + 1)[k - i - c.len()]);
                assert(node_end(s[i]) <= s[k - c.len() + 1].addr);
            }
        }
    }
    assert(free_bytes(dealloc_list(t, r, size)) =~= free_bytes(s).difference(g));
}

/// Two requests served one after the other get ranges that do not overlap: the first
/// range is no longer free when the second is taken from the free bytes.
pub proof fn lemma_consecutive_allocations_disjoint(
    s: Seq<ListNode>,
    size1: int,
    align1: int,
    size2: int,
    align2: int,
)
    requires
        free_list_wf(s),
        size1 >= LIST_NODE_SIZE,
        size2 >= LIST_NODE_SIZE,
        align1 > 0,
        align2 > 0,
        first_fit(s, size1, align1) is Some,
        first_fit(alloc_list(s, first_fit(s, size1, align1)->0, size1, align1), size2, align2) is Some,
    ensures
        ({
            let i = first_fit(s, size1, align1)->0;
            let r1 = s[i].addr + align_padding(s[i].addr as int, align1);
            let t = alloc_list(s, i, size1, align1);
            let j = first_fit(t, size2, align2)->0;
            let r2 = t[j].addr + align_padding(t[j].addr as int, align2);
            byte_range(r1, r1 + size1).disjoint(byte_range(r2, r2 + size2))
        }),
{
    let i = choose|i: int| 0 <= i < s.len() && fits(s[i], size1, align1) && none_fit_before(s, i, size1, align1);
    assert(first_fit(s, size1, align1) == Some(i));
    let t = alloc_list(s, i, size1, align1);
    lemma_alloc_list(s, i, size1, align1);
    let j = choose|j: int| 0 <= j < t.len() && fits(t[j], size2, align2) && none_fit_before(t, j, size2, align2);
    assert(first_fit(t, size2, align2) == Some(j));
    lemma_alloc_list(t, j, size2, align2);
}

/// From a multiple of 8, the padding to an alignment that is a multiple of 8 or
/// divides 8 is a multiple of 8.
pub proof fn lemma_padding_eight(addr: int, align: int)
    requires
        addr >= 0,
        addr % 8 == 0,
        align_meets_eight(align),
    ensures
        align_padding(addr, align) % 8 == 0,
{
    let a = addr / 8;
    vstd::arithmetic::div_mod::lemma_fundamental_div_mod(addr, 8);
    vstd::arithmetic::div_mod::lemma_fundamental_div_mod(addr, align);
    let q = addr / align;
    let r = addr % align;
    if 8int % align == 0 {
        vstd::arithmetic::div_mod::lemma_fundamental_div_mod(8, align);
        let m = 8int / align;
        assert(addr == align * (m * a)) by (nonlinear_arith)
            requires
                addr == 8 * a,
                8 == align * m,
        ;
        vstd::arithmetic::div_mod::lemma_fundamental_div_mod_converse_mod(addr, align, m * a, 0);
    } else {
        vstd::arithmetic::div_mod::lemma_fundamental_div_mod(align, 8);
        let m = align / 8;
        assert(r == 8 * (a - m * q)) by (nonlinear_arith)
            requires
                addr == 8 * a,
                align == 8 * m,
                addr == align * q + r,
        ;
        vstd::arithmetic::div_mod::lemma_fundamental_div_mod_converse_mod(r, 8, a - m * q, 0);
        if r != 0 {
            assert(align - r == 8 * (m - (a - m * q))) by (nonlinear_arith)
                requires
                    align == 8 * m,
                    r == 8 * (a - m * q),
            ;
            vstd::arithmetic::div_mod::lemma_fundamental_div_mod_converse_mod(
                align - r,
                8,
                m - (a - m * q),
                0,
            );
        }
    }
}

/// The list after giving back `[ptr, ptr + e)`: the blocks before the ones it joins,
/// one block from the start of what it joins to the end, and the blocks after.
pub proof fn lemma_dealloc_list_shape(s: Seq<ListNode>, ptr: int, e: int)
    requires
        free_list_wf(s),
        ptr > 0,
        e >= LIST_NODE_SIZE,
        ptr + e <= usize::MAX,
        byte_range(ptr, ptr + e).disjoint(free_bytes(s)),
    ensures
        ({
            let k = insertion_index(s, ptr) as int;
            let next = k < s.len() && ptr + e == s[k].addr;
            let prev = k > 0 && node_end(s[k - 1]) == ptr;
            let a = if prev { k - 1 } else { k };
            let b = if next { k + 1 } else { k };
            let lo = if prev { s[k - 1].addr as int } else { ptr };
            let hi = if next { node_end(s[k]) } else { ptr + e };
            &&& 0 <= a <= k <= b <= s.len()
            &&& dealloc_list(s, ptr, e) == s.take(a) + seq![ListNode { size: (hi - lo) as usize, addr: lo as usize }] + s.skip(b)
            &&& forall|j: int| 0 <= j < k ==> node_end(#[trigger] s[j]) <= ptr
            &&& forall|j: int| k <= j < s.len() ==> ptr + e <= #[trigger] s[j].addr
        }),
{
    let k = insertion_index(s, ptr) as int;
    lemma_insertion_index(s, ptr);
    assert forall|j: int| 0 <= j < k implies node_end(#[trigger] s[j]) <= ptr by {
        if node_end(s[j]) > ptr {
            assert(in_node(s[j], ptr));
            assert(byte_range(ptr, ptr + e).contains(ptr));
            assert(free_bytes(s).contains(ptr));
        }
    }
    assert forall|j: int| k <= j < s.len() implies ptr + e <= #[trigger] s[j].addr by {
        if j > k {
            assert(s[k].addr <= node_end(s[k]) <= s[j].addr);
        }
        if s[j].addr < ptr + e {
            assert(in_node(s[j], s[j].addr as int));
            assert(byte_range(ptr, ptr + e).contains(s[j].addr as int));
            assert(free_bytes(s).contains(s[j].addr as int));
        }
    }
    let n = ListNode { size: e as usize, addr: ptr as usize };
    let u = s.insert(k, n);
    let next = k < s.len() && ptr + e == s[k].addr;
    let prev = k > 0 && node_end(s[k - 1]) == ptr;
    assert(u[k] == n);
    if k + 1 < u.len() {
        assert(u[k + 1] == s[k]);
    }
    if k > 0 {
        assert(u[k - 1] == s[k - 1]);
    }
    let m = if next { ListNode { size: (e + s[k].size) as usize, addr: ptr as usize } } else { n };
    let v = if next { merge_at(u, k) } else { u };
    assert(v =~= s.take(k) + seq![m] + s.skip(if next { k + 1 } else { k }));
    assert(v[k] == m);
    if k > 0 {
        assert(v[k - 1] == s[k - 1]);
    }
    if prev {
        let w = merge_at(v, k - 1);
        assert(w =~= s.take(k - 1) + seq![
            ListNode { size: (s[k - 1].size + m.size) as usize, addr: s[k - 1].addr },
        ] + s.skip(if next { k + 1 } else { k }));
    }
}

/// The reserved size of any request is a multiple of 8 that can hold a header.
pub proof fn lemma_effective_size_eight(size: int)
    requires
        size >= 0,
    ensures
        effective_size_spec(size) % 8 == 0,
        effective_size_spec(size) >= LIST_NODE_SIZE,
{
    vstd::arithmetic::div_mod::lemma_fundamental_div_mod(size, 8);
    if size % 8 != 0 {
        vstd::arithmetic::div_mod::lemma_fundamental_div_mod_converse_mod(
            size + (8 - size % 8),
            8,
            size / 8 + 1,
            0,
        );
    }
}

/// Where each block of the list after serving a request from block `i` comes from: the
/// blocks in front of `i`, the pieces carved from block `i`, then the blocks behind it.
pub proof fn lemma_alloc_list_parts(s: Seq<ListNode>, i: int, size: int, align: int)
    requires
        0 <= i < s.len(),
    ensures
        ({
            let c = carve(s[i], size, align);
            let t = alloc_list(s, i, size, align);
            &&& t.len() == s.len() - 1 + c.len()
            &&& forall|k: int| 0 <= k < i ==> #[trigger] t[k] == s[k]
            &&& forall|k: int| i <= k < i + c.len() ==> #[trigger] t[k] == c[k - i]
            &&& forall|k: int| i + c.len() <= k < t.len() ==> #[trigger] t[k] == s[k - c.len() + 1]
        }),
{
    let c = carve(s[i], size, align);
    let t = alloc_list(s, i, size, align);
    assert forall|k: int| 0 <= k < i implies #[trigger] t[k] == s[k] by {
        assert(t[k] == s.take(i)[k]);
    }
    assert forall|k: int| i <= k < i + c.len() implies #[trigger] t[k] == c[k - i] by {
        assert(t[k] == (s.take(i) + c)[k]);
    }
    assert forall|k: int| i + c.len() <= k < t.len() implies #[trigger] t[k] == s[k - c.len() + 1] by {
        assert(t[k] == s.skip(i + 1)[k - i - c.len()]);
    }
}

/// The pieces carved from a block lie inside it and do not touch each other; when the
/// block starts at a multiple of 8 and the request is a multiple of 8 bytes at an
/// alignment that is a multiple of 8 or divides 8, they start at multiples of 8.
pub proof fn lemma_carve_pieces(n: ListNode, size: int, align: int)
    requires
        node_end(n) <= usize::MAX,
        fits(n, size, align),
        size >= LIST_NODE_SIZE,
        align > 0,
    ensures
        ({
            let c = carve(n, size, align);
            &&& c.len() <= 2
            &&& forall|m: int| 0 <= m < c.len() ==> {
                &&& n.addr <= (#[trigger] c[m]).addr
                &&& node_end(c[m]) <= node_end(n)
            }
            &&& c.len() == 2 ==> node_end(c[0]) < c[1].addr
            &&& n.addr % 8 == 0 && size % 8 == 0 && align_meets_eight(align) ==> forall|m: int|
                0 <= m < c.len() ==> (#[trigger] c[m]).addr % 8 == 0
        }),
{
    let p = align_padding(n.addr as int, align);
    let left = n.size - p - size;
    lemma_padding_aligns(n.addr as int, align);
    if n.addr % 8 == 0 && size % 8 == 0 && align_meets_eight(align) {
        lemma_padding_eight(n.addr as int, align);
        assert((n.addr + p + size) % 8 == 0);
    }
    let head = ListNode { size: p as usize, addr: n.addr };
    let tail = ListNode { size: left as usize, addr: (n.addr + p + size) as usize };
    let c = carve(n, size, align);
    if p >= LIST_NODE_SIZE && left >= LIST_NODE_SIZE {
        assert(c =~= seq![head, tail]);
    } else if p >= LIST_NODE_SIZE {
        assert(c =~= seq![head]);
    } else if left >= LIST_NODE_SIZE {
        assert(c =~= seq![tail]);
    } else {
        assert(c =~= Seq::<ListNode>::empty());
    }
}

/// Serving a request from a list none of whose blocks touch leaves a list none of
/// whose blocks touch.
pub proof fn lemma_alloc_list_apart(s: Seq<ListNode>, i: int, size: int, align: int)
    requires
        free_list_wf(s),
        blocks_apart(s),
        0 <= i < s.len(),
        fits(s[i], size, align),
        size >= LIST_NODE_SIZE,
        align > 0,
    ensures
        blocks_apart(alloc_list(s, i, size, align)),
{
    let n = s[i];
    let c = carve(n, size, align);
    let t = alloc_list(s, i, size, align);
    lemma_alloc_list_parts(s, i, size, align);
    lemma_carve_pieces(n, size, align);
    assert forall|k1: int, k2: int| #![trigger t[k1], t[k2]] 0 <= k1 < k2 < t.len() implies node_end(
        t[k1],
    ) < t[k2].addr by {
        if k1 < i {
            assert(t[k1] == s[k1]);
            if k2 < i {
                assert(t[k2] == s[k2]);
            } else if k2 < i + c.len() {
                assert(t[k2] == c[k2 - i]);
                assert(node_end(s[k1]) < s[i].addr);
            } else {
                assert(t[k2] == s[k2 - c.len() + 1]);
                assert(node_end(s[k1]) < s[k2 - c.len() + 1].addr);
            }
        } else if k1 < i + c.len() {
            assert(t[k1] == c[k1 - i]);
            if k2 < i + c.len() {
                assert(t[k2] == c[k2 - i]);
            } else {
                assert(t[k2] == s[k2 - c.len() + 1]);
                assert(node_end(s[i]) < s[k2 - c.len() + 1].addr);
            }
        } else {
            assert(t[k1] == s[k1 - c.len() + 1]);
            assert(t[k2] == s[k2 - c.len() + 1]);
            assert(node_end(s[k1 - c.len() + 1]) < s[k2 - c.len() + 1].addr);
        }
    }
}

/// Serving a request of a multiple of 8 bytes, at an alignment that is a multiple of 8
/// or divides 8, keeps the list tidy.
pub proof fn lemma_alloc_list_tidy(s: Seq<ListNode>, i: int, size: int, align: int)
    requires
        free_list_tidy(s),
        0 <= i < s.len(),
        fits(s[i], size, align),
        size >= LIST_NODE_SIZE,
        size % 8 == 0,
        align_meets_eight(align),
    ensures
        free_list_tidy(alloc_list(s, i, size, align)),
{
    let n = s[i];
    let c = carve(n, size, align);
    let t = alloc_list(s, i, size, align);
    assert(free_list_wf(t)) by {
        lemma_alloc_list(s, i, size, align);
    }
    lemma_alloc_list_apart(s, i, size, align);
    lemma_alloc_list_parts(s, i, size, align);
    lemma_carve_pieces(n, size, align);
    assert forall|k: int| 0 <= k < t.len() implies #[trigger] t[k].addr % 8 == 0 by {
        if k < i {
            assert(t[k] == s[k]);
        } else if k < i + c.len() {
            assert(t[k] == c[k - i]);
        } else {
            assert(t[k] == s[k - c.len() + 1]);
        }
    }
}

/// Replacing the blocks `a..b` of a list none of whose blocks touch by one block that
/// starts after every block in front and ends before every block behind leaves a list
/// none of whose blocks touch.
pub proof fn lemma_splice_apart(s: Seq<ListNode>, a: int, b: int, m: ListNode)
    requires
        blocks_apart(s),
        0 <= a <= b <= s.len(),
        forall|j: int| 0 <= j < a ==> node_end(#[trigger] s[j]) < m.addr,
        forall|j: int| b <= j < s.len() ==> node_end(m) < #[trigger] s[j].addr,
    ensures
        blocks_apart(s.take(a) + seq![m] + s.skip(b)),
{
    let t = s.take(a) + seq![m] + s.skip(b);
    assert(t.len() == a + 1 + s.len() - b);
    assert forall|j: int| 0 <= j < a implies #[trigger] t[j] == s[j] by {
        assert(t[j] == s.take(a)[j]);
    }
    assert(t[a] == m);
    assert forall|j: int| a < j < t.len() implies #[trigger] t[j] == s[j - a - 1 + b] by {
        assert(t[j] == s.skip(b)[j - a - 1]);
    }
    assert forall|j1: int, j2: int| #![trigger t[j1], t[j2]] 0 <= j1 < j2 < t.len() implies node_end(
        t[j1],
    ) < t[j2].addr by {
        if j1 < a {
            assert(t[j1] == s[j1]);
            if j2 < a {
                assert(t[j2] == s[j2]);
            } else if j2 > a {
                assert(t[j2] == s[j2 - a - 1 + b]);
                assert(node_end(s[j1]) < m.addr <= node_end(m) < s[j2 - a - 1 + b].addr);
            }
        } else if j1 == a {
            assert(t[j2] == s[j2 - a - 1 + b]);
        } else {
            assert(t[j1] == s[j1 - a - 1 + b]);
            assert(t[j2] == s[j2 - a - 1 + b]);
            assert(node_end(s[j1 - a - 1 + b]) < s[j2 - a - 1 + b].addr);
        }
    }
}

/// Giving back a block that overlaps no free block to a list none of whose blocks
/// touch leaves a list none of whose blocks touch: the block is joined with each
/// neighbour it touches.
pub proof fn lemma_dealloc_list_apart(s: Seq<ListNode>, ptr: int, e: int)
    requires
        free_list_wf(s),
        blocks_apart(s),
        ptr > 0,
        e >= LIST_NODE_SIZE,
        ptr + e <= usize::MAX,
        byte_range(ptr, ptr + e).disjoint(free_bytes(s)),
    ensures
        blocks_apart(dealloc_list(s, ptr, e)),
{
    lemma_dealloc_list_shape(s, ptr, e);
    let k = insertion_index(s, ptr) as int;
    let next = k < s.len() && ptr + e == s[k].addr;
    let prev = k > 0 && node_end(s[k - 1]) == ptr;
    let a = if prev { k - 1 } else { k };
    let b = if next { k + 1 } else { k };
    let lo = if prev { s[k - 1].addr as int } else { ptr };
    let hi = if next { node_end(s[k]) } else { ptr + e };
    let m = ListNode { size: (hi - lo) as usize, addr: lo as usize };
    assert(node_end(m) == hi);
    // the joined block ends strictly before every block behind it
    assert forall|j: int| b <= j < s.len() implies hi < #[trigger] s[j].addr by {
        if next {
            assert(node_end(s[k]) < s[j].addr);
        } else if j > k {
            assert(node_end(s[k]) < s[j].addr);
        }
    }
    // and every block in front of it ends strictly before it starts
    assert forall|j: int| 0 <= j < a implies node_end(#[trigger] s[j]) < lo by {
        if prev {
            assert(node_end(s[j]) < s[k - 1].addr);
        } else if j < k - 1 {
            assert(node_end(s[j]) < s[k - 1].addr);
        }
    }
    lemma_splice_apart(s, a, b, m);
}

/// Giving back a block at a multiple of 8 that overlaps no free block keeps the list
/// tidy.
pub proof fn lemma_dealloc_list_tidy(s: Seq<ListNode>, ptr: int, e: int)
    requires
        free_list_tidy(s),
        ptr > 0,
        ptr % 8 == 0,
        e >= LIST_NODE_SIZE,
        ptr + e <= usize::MAX,
        byte_range(ptr, ptr + e).disjoint(free_bytes(s)),
    ensures
        free_list_tidy(dealloc_list(s, ptr, e)),
{
    let t = dealloc_list(s, ptr, e);
    assert(free_list_wf(t)) by {
        lemma_dealloc_list(s, ptr, e);
    }
    lemma_dealloc_list_apart(s, ptr, e);
    lemma_dealloc_list_shape(s, ptr, e);
    let k = insertion_index(s, ptr) as int;
    let next = k < s.len() && ptr + e == s[k].addr;
    let prev = k > 0 && node_end(s[k - 1]) == ptr;
    let a = if prev { k - 1 } else { k };
    let b = if next { k + 1 } else { k };
    let lo = if prev { s[k - 1].addr as int } else { ptr };
    let hi = if next { node_end(s[k]) } else { ptr + e };
    assert(t.len() == a + 1 + s.len() - b);
    assert forall|j: int| 0 <= j < t.len() implies #[trigger] t[j].addr % 8 == 0 by {
        if j < a {
            assert(t[j] == s.take(a)[j]);
        } else if j > a {
            assert(t[j] == s.skip(b)[j - a - 1]);
        } else {
            assert(t[j].addr == lo);
        }
    }
}

/// On a tidy list, serving a request at the start of the first block that fits, with
/// nothing or at least a header's worth left behind, and then giving the block back
/// restores the list exactly.
pub proof fn lemma_alloc_then_dealloc_restores(s: Seq<ListNode>, size: int, align: int)
    requires
        free_list_tidy(s),
        size >= LIST_NODE_SIZE,
        align > 0,
        first_fit(s, size, align) is Some,
        align_padding(s[first_fit(s, size, align)->0].addr as int, align) == 0,
        s[first_fit(s, size, align)->0].size - size == 0 || s[first_fit(s, size, align)->0].size - size
            >= LIST_NODE_SIZE,
    ensures
        ({
            let i = first_fit(s, size, align)->0;
            dealloc_list(alloc_list(s, i, size, align), s[i].addr as int, size) == s
        }),
{
    let i = choose|i: int| 0 <= i < s.len() && fits(s[i], size, align) && none_fit_before(s, i, size, align);
    assert(first_fit(s, size, align) == Some(i));
    let n = s[i];
    let t = alloc_list(s, i, size, align);
    let c = carve(n, size, align);
    let ptr = n.addr as int;
    lemma_alloc_list_parts(s, i, size, align);
    if n.size - size == 0 {
        assert(c =~= Seq::<ListNode>::empty());
        assert(t =~= s.take(i) + s.skip(i + 1));
    } else {
        assert(c =~= seq![ListNode { size: (n.size - size) as usize, addr: (n.addr + size) as usize }]);
    }
    assert forall|j: int| 0 <= j < i implies #[trigger] t[j].addr < ptr by {
        assert(t[j] == s[j]);
        assert(node_end(s[j]) <= s[i].addr);
    }
    if i < t.len() {
        if c.len() == 1 {
            assert(t[i] == c[0]);
        } else {
            assert(t[i] == s[i + 1]);
            assert(node_end(s[i]) < s[i + 1].addr);
        }
    }
    lemma_insertion_index_at(t, ptr, i);
    let u = t.insert(i, ListNode { size: size as usize, addr: n.addr });
    if c.len() == 1 {
        assert(u[i + 1] == c[0]);
        assert(merge_at(u, i) =~= s);
    } else {
        assert(u =~= s);
    }
    if i > 0 {
        assert(u[i - 1] == s[i - 1]);
        assert(node_end(s[i - 1]) < s[i].addr);
    }
}

impl LinkedListAllocator {
    /// The free blocks, in ascending address order.
    pub closed spec fn view(&self) -> Seq<ListNode> {
        self.free@
    }

    pub open spec fn wf(&self) -> bool {
        free_list_wf(self@)
    }

    /// An allocator with no memory to hand out.
    pub fn new() -> (r: Self)
        ensures
            r.wf(),
            free_list_tidy(r@),
            r@ == Seq::<ListNode>::empty(),
    {
        LinkedListAllocator { free: Vec::new() }
    }

    /// An allocator with no memory to hand out, with room set aside for `capacity` free
    /// blocks, so that the list needs no more memory until it holds more blocks.
    pub fn with_capacity(capacity: usize) -> (r: Self)
        ensures
            r.wf(),
            free_list_tidy(r@),
            r@ == Seq::<ListNode>::empty(),
    {
        LinkedListAllocator { free: Vec::with_capacity(capacity) }
    }

    /// Hands the heap `[heap_start, heap_start + heap_size)` to the allocator,
    /// as one free block; whatever it held before is forgotten.
    pub fn init(&mut self, heap_start: usize, heap_size: usize)
        requires
            heap_start > 0,
            heap_size >= LIST_NODE_SIZE,
            heap_start + heap_size <= usize::MAX,
        ensures
            final(self).wf(),
            heap_start % 8 == 0 ==> free_list_tidy(final(self)@),
            final(self)@ == seq![ListNode { size: heap_size, addr: heap_start }],
    {
        self.free.clear();
        self.free.push(ListNode { size: heap_size, addr: heap_start });
    }

    /// The free blocks, in ascending address order.
    pub fn free_list(&self) -> (r: &Vec<ListNode>)
        ensures
            r@ == self@,
    {
        &self.free
    }

    /// The number of bytes actually reserved for a request of `size` bytes.
    pub fn effective_size(size: usize) -> (r: usize)
        requires
            size <= isize::MAX,
        ensures
            r == effective_size_spec(size as int),
    {
        let size_reminder = size % 8;
        let rounded = if size_reminder == 0 { size } else { size + (8 - size_reminder) };
        if rounded < LIST_NODE_SIZE { LIST_NODE_SIZE } else { rounded }
    }

    /// Serves `size` bytes from free block `i`, whose start needs `padding` bytes to
    /// reach the alignment: keeps the padding in front and the rest behind as free
    /// blocks where they can hold a header, and gives up smaller pieces.
    fn take_from(&mut self, i: usize, size: usize, align: usize, padding: usize)
        requires
            old(self).wf(),
            i < old(self)@.len(),
            align > 0,
            padding == align_padding(old(self)@[i as int].addr as int, align as int),
            fits(old(self)@[i as int], size as int, align as int),
        ensures
            final(self)@ == alloc_list(old(self)@, i as int, size as int, align as int),
    {
        let ghost s = self.free@;
        let current = self.free[i];
        let current_addr = current.addr;
        let left_size = current.size - padding - size;
        let head = ListNode { size: padding, addr: current_addr };
        assert(node_end(s[i as int]) <= usize::MAX);
        if left_size == 0 && padding == 0 {
            self.free.remove(i);
        } else if left_size == 0 {
            if padding >= LIST_NODE_SIZE {
                self.free.set(i, head);
            } else {
                self.free.remove(i);
            }
        } else {
            if left_size >= LIST_NODE_SIZE {
                let new = ListNode { size: left_size, addr: current_addr + padding + size };
                if padding >= LIST_NODE_SIZE {
                    self.free.set(i, head);
                    assert(i < self.free.len());
                    self.free.insert(i + 1, new);
                } else {
                    self.free.set(i, new);
                }
            } else {
                if padding >= LIST_NODE_SIZE {
                    self.free.set(i, head);
                } else {
                    self.free.remove(i);
                }
            }
        }
        assert(self.free@ =~= alloc_list(s, i as int, size as int, align as int));
    }

    /// Whether the aligned start of every block that a first-fit search for `size`
    /// bytes aligned to `align` examines is an address (does not pass the end of the
    /// address space).
    pub fn aligned_starts_fit(&self, size: usize, align: usize) -> (r: bool)
        requires
            self.wf(),
            align > 0,
            size + align <= isize::MAX + 1,
        ensures
            r == forall|i: int|
                0 <= i < self@.len() && none_fit_before(
                    self@,
                    i + 1,
                    effective_size_spec(size as int),
                    align as int,
                ) ==> self@[i].addr + align_padding(self@[i].addr as int, align as int) <= usize::MAX,
    {
        let eff = Self::effective_size(size);
        let ghost s = self@;
        let ghost e = eff as int;
        let ghost a = align as int;
        let mut i: usize = 0;
        while i < self.free.len()
            invariant
                s == self@,
                i <= s.len(),
                align > 0,
                eff == effective_size_spec(size as int),
                e == eff,
                a == align,
                eff + align <= isize::MAX + 24,
                none_fit_before(s, i as int, e, a),
                forall|j: int|
                    0 <= j < i && none_fit_before(s, j + 1, e, a) ==> s[j].addr + align_padding(
                        s[j].addr as int,
                        a,
                    ) <= usize::MAX,
            decreases s.len() - i,
        {
            let node = self.free[i];
            let reminder = node.addr % align;
            let padding = if reminder == 0 { 0 } else { align - reminder };
            assert(padding == align_padding(node.addr as int, a));
            if node.size >= eff + padding {
                // the search stops at this block, whose aligned start lies inside it
                proof {
                    assert forall|j: int|
                        0 <= j < s.len() && none_fit_before(s, j + 1, e, a) implies s[j].addr
                        + align_padding(s[j].addr as int, a) <= usize::MAX by {
                        if j >= i {
                            assert(!none_fit_before(s, j + 1, e, a)) by {
                                assert(fits(s[i as int], e, a));
                            }
                        }
                    }
                }
                return true;
            }
            if node.addr > usize::MAX - padding {
                proof {
                    assert(none_fit_before(s, i + 1, e, a));
                }
                return false;
            }
            i = i + 1;
        }
        true
    }

    /// Gives the block at `ptr`, allocated for a request of `size` bytes, back to the
    /// allocator, joining it with the free blocks it touches.
    pub fn dealloc(&mut self, ptr: usize, size: usize)
        requires
            old(self).wf(),
            ptr > 0,
            size <= isize::MAX,
            ptr + effective_size_spec(size as int) <= usize::MAX,
            byte_range(ptr as int, ptr + effective_size_spec(size as int)).disjoint(
                free_bytes(old(self)@),
            ),
        ensures
            final(self).wf(),
            final(self)@ == dealloc_list(old(self)@, ptr as int, effective_size_spec(size as int)),
            free_bytes(final(self)@) == free_bytes(old(self)@).union(
                byte_range(ptr as int, ptr + effective_size_spec(size as int)),
            ),
            blocks_apart(old(self)@) ==> blocks_apart(final(self)@),
            free_list_tidy(old(self)@) && ptr % 8 == 0 ==> free_list_tidy(final(self)@),
    {
        let ghost s = self.free@;
        let e = Self::effective_size(size);
        let new = ListNode { size: e, addr: ptr };
        let len = self.free.len();
        let mut k: usize = 0;
        while k < len && self.free[k].addr < ptr
            invariant
                self.free@ == s,
                len == s.len(),
                k <= len,
                forall|j: int| 0 <= j < k ==> #[trigger] s[j].addr < ptr,
            decreases len - k,
        {
            k = k + 1;
        }
        proof {
            lemma_insertion_index_at(s, ptr as int, k as int);
            lemma_dealloc_list(s, ptr as int, e as int);
            if blocks_apart(s) {
                lemma_dealloc_list_apart(s, ptr as int, e as int);
            }
            if free_list_tidy(s) && ptr % 8 == 0 {
                lemma_dealloc_list_tidy(s, ptr as int, e as int);
            }
        }
        self.free.insert(k, new);
        let ghost u = self.free@;
        assert(k < self.free.len());
        // coalescing with the next block if they are adjacent
        if k + 1 < self.free.len() && ptr + e == self.free[k + 1].addr {
            let next = self.free[k + 1];
            self.free.set(k, ListNode { size: e + next.size, addr: ptr });
            self.free.remove(k + 1);
            assert(self.free@ =~= merge_at(u, k as int));
        }
        let ghost v = self.free@;
        // coalescing with the previous block if they are adjacent
        if k > 0 {
            let prev = self.free[k - 1];
            let merged = self.free[k];
            if prev.addr + prev.size == ptr {
                self.free.set(k - 1, ListNode { size: prev.size + merged.size, addr: prev.addr });
                self.free.remove(k);
                assert(self.free@ =~= merge_at(v, k - 1));
            }
        }
        assert(self.free@ == dealloc_list(s, ptr as int, e as int));
    }

    /// First-fit allocation of `size` bytes aligned to `align`.  Returns the start of
    /// the handed-out range, or 0 (the null address) when no free block can hold it.
    pub fn allocate(&mut self, size: usize, align: usize) -> (r: usize)
        requires
            old(self).wf(),
            align > 0,
            size + align <= isize::MAX + 1,
            // the aligned start of every block examined before the search stops is an address
            forall|i: int|
                0 <= i < old(self)@.len() && none_fit_before(
                    old(self)@,
                    i + 1,
                    effective_size_spec(size as int),
                    align as int,
                ) ==> old(self)@[i].addr + align_padding(old(self)@[i].addr as int, align as int)
                    <= usize::MAX,
        ensures
            final(self).wf(),
            ({
                let e = effective_size_spec(size as int);
                match first_fit(old(self)@, e, align as int) {
                    Some(i) => {
                        &&& r == old(self)@[i].addr + align_padding(old(self)@[i].addr as int, align as int)
                        &&& final(self)@ == alloc_list(old(self)@, i, e, align as int)
                    },
                    None => r == 0 && final(self)@ == old(self)@,
                }
            }),
            r != 0 ==> {
                let e = effective_size_spec(size as int);
                &&& r % align == 0
                &&& byte_range(r as int, r + e).subset_of(free_bytes(old(self)@))
                &&& byte_range(r as int, r + e).disjoint(free_bytes(final(self)@))
            },
            free_bytes(final(self)@).subset_of(free_bytes(old(self)@)),
            blocks_apart(old(self)@) ==> blocks_apart(final(self)@),
            free_list_tidy(old(self)@) && align_meets_eight(align as int) ==> free_list_tidy(
                final(self)@,
            ) && r % 8 == 0,
    {
        let eff = Self::effective_size(size);
        let ghost s = self.free@;
        let len = self.free.len();
        let mut i: usize = 0;
        while i < len
            invariant
                self.free@ == s,
                s == old(self)@,
                free_list_wf(s),
                len == s.len(),
                i <= len,
                align > 0,
                eff == effective_size_spec(size as int),
                eff + align <= isize::MAX + 24,
                none_fit_before(s, i as int, eff as int, align as int),
                forall|j: int|
                    0 <= j < s.len() && none_fit_before(s, j + 1, eff as int, align as int)
                        ==> s[j].addr + align_padding(s[j].addr as int, align as int) <= usize::MAX,
            decreases len - i,
        {
            let current = self.free[i];
            let current_addr = current.addr;
            let reminder = current_addr % align;
            let padding = if reminder == 0 { 0 } else { align - reminder };
            assert(padding == align_padding(current_addr as int, align as int));
            if current.size >= eff + padding {
                let aligned_addr = current_addr + padding;
                self.take_from(i, eff, align, padding);
                proof {
                    lemma_first_fit_unique(s, i as int, eff as int, align as int);
                    lemma_alloc_list(s, i as int, eff as int, align as int);
                    assert(first_fit(s, eff as int, align as int) == Some(i as int));
                    assert(aligned_addr == s[i as int].addr + align_padding(s[i as int].addr as int, align as int));
                    assert(self.free@ == alloc_list(s, i as int, eff as int, align as int));
                    assert(eff as int == effective_size_spec(size as int));
                    if blocks_apart(s) {
                        lemma_alloc_list_apart(s, i as int, eff as int, align as int);
                    }
                    if free_list_tidy(s) && align_meets_eight(align as int) {
                        lemma_effective_size_eight(size as int);
                        lemma_alloc_list_tidy(s, i as int, eff as int, align as int);
                        lemma_padding_eight(s[i as int].addr as int, align as int);
                    }
                }
                return aligned_addr;
            }
            i = i + 1;
        }
        proof {
            if first_fit(s, eff as int, align as int) is Some {
                let k = choose|k: int|
                    0 <= k < s.len() && fits(s[k], eff as int, align as int) && none_fit_before(
                        s,
                        k,
                        eff as int,
                        align as int,
                    );
                assert(!fits(s[k], eff as int, align as int));
            }
        }
        0
    }
}

} // verus!
