//! A sparse, paged map from relative virtual addresses to items.
use vstd::arithmetic::div_mod::{lemma_fundamental_div_mod, lemma_fundamental_div_mod_converse};
use vstd::prelude::*;

verus! {

/// Number of items in one page.
pub const PAGE_SIZE: usize = 0x1000;

/// Failure of an access to the address space.
#[derive(Debug, Clone, Copy, PartialEq, Eq, Structural)]
pub enum Error {
    /// Some requested address lies in a page that is not mapped.
    NotMapped,
}

/// The index of the page that holds address `a`.
pub open spec fn page_of(a: int) -> int {
    a / (PAGE_SIZE as int)
}

/// The position of address `a` within its page.
pub open spec fn offset_of(a: int) -> int {
    a % (PAGE_SIZE as int)
}

/// The item at address `a` of a page table, if its page is mapped.
pub open spec fn view_at<T>(v: Seq<Option<Seq<T>>>, a: int) -> Option<T> {
    if 0 <= a && page_of(a) < v.len() && v[page_of(a)] is Some {
        Some(v[page_of(a)].unwrap()[offset_of(a)])
    } else {
        None
    }
}

/// Every address of `[a, b)` is mapped.
pub open spec fn view_mapped<T>(v: Seq<Option<Seq<T>>>, a: int, b: int) -> bool {
    forall|i: int| a <= i < b ==> (#[trigger] view_at(v, i)) is Some
}

/// The items at the addresses `[a, b)`, in order.
pub open spec fn view_range<T>(v: Seq<Option<Seq<T>>>, a: int, b: int) -> Seq<T> {
    Seq::new((b - a) as nat, |i: int| view_at(v, a + i).unwrap())
}

/// `n` copies of `fill`.
pub open spec fn repeat<T>(fill: T, n: nat) -> Seq<T> {
    Seq::new(n, |i: int| fill)
}

/// The pages `[first, first + items.len() / PAGE_SIZE)` of the table all exist.
pub open spec fn view_fits<T>(v: Seq<Option<Seq<T>>>, rva: int, n: int) -> bool {
    page_of(rva) + n / (PAGE_SIZE as int) <= v.len()
}

/// The page table after `items` is mapped at page-aligned `rva`.
pub open spec fn view_map<T>(v: Seq<Option<Seq<T>>>, rva: int, items: Seq<T>) -> Seq<
    Option<Seq<T>>,
> {
    let first = page_of(rva);
    let n = (items.len() as int) / (PAGE_SIZE as int);
    Seq::new(
        v.len(),
        |p: int|
            if first <= p < first + n {
                Some(
                    items.subrange(
                        (p - first) * (PAGE_SIZE as int),
                        (p - first + 1) * (PAGE_SIZE as int),
                    ),
                )
            } else {
                v[p]
            },
    )
}

/// Address `base + i` with `base` page aligned lies in page `base / PAGE_SIZE + i / PAGE_SIZE`
/// at offset `i % PAGE_SIZE`.
pub proof fn lemma_aligned_split(base: int, i: int)
    requires
        base >= 0,
        i >= 0,
        offset_of(base) == 0,
    ensures
        page_of(base + i) == page_of(base) + page_of(i),
        offset_of(base + i) == offset_of(i),
        i == page_of(i) * (PAGE_SIZE as int) + offset_of(i),
        0 <= offset_of(i) < PAGE_SIZE as int,
{
    let d = PAGE_SIZE as int;
    lemma_fundamental_div_mod_converse(i, d, i / d, i % d);
    lemma_fundamental_div_mod_converse(base, d, base / d, 0);
    assert(base + i == (base / d + i / d) * d + i % d) by (nonlinear_arith)
        requires
            base == (base / d) * d + 0,
            i == (i / d) * d + i % d,
    ;
    lemma_fundamental_div_mod_converse(base + i, d, base / d + i / d, i % d);
}

/// Moving `i` items forward within one page keeps the page and adds `i` to the offset.
pub proof fn lemma_in_page(a: int, i: int)
    requires
        a >= 0,
        i >= 0,
        offset_of(a) + i < PAGE_SIZE as int,
    ensures
        page_of(a + i) == page_of(a),
        offset_of(a + i) == offset_of(a) + i,
{
    let d = PAGE_SIZE as int;
    lemma_fundamental_div_mod(a, d);
    lemma_fundamental_div_mod_converse(a + i, d, a / d, a % d + i);
}

/// Mapping `items` at `rva` and reading back `items.len()` items there yields `items`.
pub proof fn lemma_map_read_round_trip<T>(v: Seq<Option<Seq<T>>>, rva: int, items: Seq<T>)
    requires
        rva >= 0,
        offset_of(rva) == 0,
        (items.len() as int) % (PAGE_SIZE as int) == 0,
        view_fits(v, rva, items.len() as int),
    ensures
        view_mapped(view_map(v, rva, items), rva, rva + items.len()),
        view_range(view_map(v, rva, items), rva, rva + items.len()) == items,
{
    let w = view_map(v, rva, items);
    let d = PAGE_SIZE as int;
    assert forall|i: int| 0 <= i < items.len() implies view_at(w, rva + i) == Some(items[i]) by {
        lemma_aligned_split(rva, i);
        let q = page_of(i);
        assert(q * d + offset_of(i) == i);
        assert(q < (items.len() as int) / d) by {
            assert(items.len() == ((items.len() as int) / d) * d) by {
                lemma_fundamental_div_mod_converse(
                    items.len() as int,
                    d,
                    (items.len() as int) / d,
                    (items.len() as int) % d,
                );
            }
            assert(q < (items.len() as int) / d) by (nonlinear_arith)
                requires
                    i < items.len(),
                    items.len() == ((items.len() as int) / d) * d,
                    i == q * d + offset_of(i),
                    0 <= offset_of(i),
                    d > 0,
            ;
        }
        assert(q * d + d == (q + 1) * d) by (nonlinear_arith);
        assert((q + 1) * d <= items.len()) by (nonlinear_arith)
            requires
                q + 1 <= (items.len() as int) / d,
                (items.len() as int) / d * d <= items.len(),
                d > 0,
        {
        }
        assert(q >= 0) by (nonlinear_arith) requires i >= 0, d > 0, q == i / d;
    }
    assert forall|a: int| rva <= a < rva + items.len() implies (#[trigger] view_at(w, a)) is Some by {
        assert(view_at(w, rva + (a - rva)) == Some(items[a - rva]));
    }
    assert(view_range(w, rva, rva + items.len()) =~= items);
}

/// Mapping whole pages at `rva` leaves every address outside them as it was.
pub proof fn lemma_map_elsewhere<T>(v: Seq<Option<Seq<T>>>, rva: int, items: Seq<T>, a: int)
    requires
        rva >= 0,
        offset_of(rva) == 0,
        (items.len() as int) % (PAGE_SIZE as int) == 0,
        a >= 0,
        a < rva || a >= rva + items.len(),
    ensures
        view_at(view_map(v, rva, items), a) == view_at(v, a),
{
    let d = PAGE_SIZE as int;
    lemma_aligned_split(rva, items.len() as int);
    vstd::arithmetic::div_mod::lemma_fundamental_div_mod(items.len() as int, d);
    if a < rva {
        vstd::arithmetic::div_mod::lemma_fundamental_div_mod(rva, d);
        vstd::arithmetic::div_mod::lemma_fundamental_div_mod(a, d);
        assert(a / d < rva / d) by (nonlinear_arith)
            requires
                a < rva,
                rva == d * (rva / d),
                a == d * (a / d) + a % d,
                0 <= a % d < d,
                d > 0,
        {
        }
    } else {
        vstd::arithmetic::div_mod::lemma_div_is_ordered(rva + items.len(), a, d);
    }
}

/// A range of addresses reads as the concatenation of its two parts split at `m`.
pub proof fn lemma_range_split<T>(v: Seq<Option<Seq<T>>>, a: int, m: int, b: int)
    requires
        a <= m <= b,
    ensures
        view_mapped(v, a, b) == (view_mapped(v, a, m) && view_mapped(v, m, b)),
        view_range(v, a, b) == view_range(v, a, m) + view_range(v, m, b),
{
    assert(view_range(v, a, b) =~= view_range(v, a, m) + view_range(v, m, b));
}

/// One page of items.
pub struct Page<T> {
    pub elements: Vec<T>,
}

impl<T: Copy> Page<T> {
    /// A page holding a copy of `items`, which must be exactly one page long.
    pub fn new(items: &[T]) -> (r: Page<T>)
        requires
            items@.len() == PAGE_SIZE,
        ensures
            r.elements@ == items@,
    {
        let mut elements: Vec<T> = Vec::with_capacity(PAGE_SIZE);
        let mut i: usize = 0;
        while i < items.len()
            invariant
                i <= items@.len(),
                elements@ == items@.subrange(0, i as int),
            decreases items@.len() - i,
        {
            elements.push(items[i]);
            i = i + 1;
            assert(elements@ =~= items@.subrange(0, i as int));
        }
        assert(elements@ =~= items@);
        Page { elements }
    }
}

/// A dense table of optional pages, indexed by `rva / PAGE_SIZE`, with a capacity fixed
/// at construction.
pub struct DenseAddressSpace<T> {
    pages: Vec<Option<Page<T>>>,
}

impl<T> View for DenseAddressSpace<T> {
    type V = Seq<Option<Seq<T>>>;

    closed spec fn view(&self) -> Seq<Option<Seq<T>>> {
        self.pages@.map_values(
            |p: Option<Page<T>>|
                match p {
                    Some(pg) => Some(pg.elements@),
                    None => None,
                },
        )
    }
}

fn page(rva: u64) -> (r: u64)
    ensures
        r == page_of(rva as int),
{
    assert((rva >> 12u64) == rva / 4096) by (bit_vector);
    rva >> 12u64
}

fn page_offset(rva: u64) -> (r: usize)
    ensures
        r == offset_of(rva as int),
        r < PAGE_SIZE,
{
    assert((rva & 0xFFFu64) == rva % 4096) by (bit_vector);
    (rva & 0xFFFu64) as usize
}

impl<T: Copy + Default> DenseAddressSpace<T> {
    /// Every mapped page holds exactly `PAGE_SIZE` items.
    pub open spec fn wf(&self) -> bool {
        forall|p: int| 0 <= p < self@.len() && (#[trigger] self@[p]) is Some ==> self@[p].unwrap().len() == PAGE_SIZE
    }

    /// The item at address `a`, if it is mapped.
    pub open spec fn at(&self, a: int) -> Option<T> {
        view_at(self@, a)
    }

    /// A space with room for every page up to and including the one that holds `capacity`,
    /// none of them mapped.
    pub fn with_capacity(capacity: u64) -> (r: DenseAddressSpace<T>)
        requires
            page_of(capacity as int) < usize::MAX,
        ensures
            r.wf(),
            r@.len() == page_of(capacity as int) + 1,
            forall|p: int| 0 <= p < r@.len() ==> (#[trigger] r@[p]) is None,
    {
        let page_count = (page(capacity) + 1) as usize;
        let mut pages: Vec<Option<Page<T>>> = Vec::with_capacity(page_count);
        let mut i: usize = 0;
        while i < page_count
            invariant
                i <= page_count,
                pages@.len() == i,
                forall|p: int| 0 <= p < i ==> (#[trigger] pages@[p]) is None,
            decreases page_count - i,
        {
            pages.push(None);
            i = i + 1;
        }
        let r = DenseAddressSpace { pages };
        assert forall|p: int| 0 <= p < r@.len() implies (#[trigger] r@[p]) is None by {
            assert(r.pages@[p] is None);
        }
        r
    }

    /// Map one page of items at the page-aligned `rva`.
    fn map_page(&mut self, rva: u64, items: &[T]) -> (r: Result<(), Error>)
        requires
            old(self).wf(),
            offset_of(rva as int) == 0,
            items@.len() == PAGE_SIZE,
        ensures
            final(self).wf(),
            r is Ok <==> page_of(rva as int) < old(self)@.len(),
            r is Ok ==> final(self)@ == old(self)@.update(page_of(rva as int), Some(items@)),
            r is Err ==> final(self)@ == old(self)@,
    {
        let p64 = page(rva);
        if p64 >= self.pages.len() as u64 {
            return Err(Error::NotMapped);
        }
        let p = p64 as usize;
        let pg = Page::new(items);
        self.pages.set(p, Some(pg));
        assert(self@ =~= old(self)@.update(p as int, Some(items@)));
        Ok(())
    }

    /// Map `items` at the page-aligned `rva`; the number of items is a multiple of the
    /// page size. Fails with `NotMapped`, changing nothing, when a page of the range lies
    /// beyond the capacity.
    pub fn map(&mut self, rva: u64, items: &[T]) -> (r: Result<(), Error>)
        requires
            old(self).wf(),
            offset_of(rva as int) == 0,
            (items@.len() as int) % (PAGE_SIZE as int) == 0,
            rva + items@.len() <= u64::MAX,
        ensures
            final(self).wf(),
            r is Ok <==> (items@.len() == 0 || view_fits(old(self)@, rva as int, items@.len() as int)),
            r is Ok ==> final(self)@ == view_map(old(self)@, rva as int, items@),
            r is Err ==> final(self)@ == old(self)@,
    {
        if items.len() == 0 {
            assert(self@ =~= view_map(self@, rva as int, items@));
            return Ok(());
        }
        let first64 = page(rva);
        let n = items.len() / PAGE_SIZE;
        if first64 > self.pages.len() as u64 || n as u64 > self.pages.len() as u64 - first64 {
            return Err(Error::NotMapped);
        }
        let first = first64 as usize;
        let ghost v0 = self@;
        let ghost d = PAGE_SIZE as int;
        let total = items.len();
        let mut k: usize = 0;
        while k < n
            invariant
                self.wf(),
                k <= n,
                n == (items@.len() as int) / d,
                d == PAGE_SIZE,
                total == items@.len(),
                offset_of(rva as int) == 0,
                rva + items@.len() <= u64::MAX,
                first == page_of(rva as int),
                first + n <= self@.len(),
                v0.len() == self@.len(),
                (items@.len() as int) % d == 0,
                forall|p: int|
                    0 <= p < self@.len() ==> #[trigger] self@[p] == if first <= p < first + k {
                        Some(
                            items@.subrange(
                                (p - first) * d,
                                (p - first + 1) * d,
                            ),
                        )
                    } else {
                        v0[p]
                    },
            decreases n - k,
        {
            assert((k + 1) * d <= n * d) by (nonlinear_arith)
                requires
                    k < n,
                    d > 0,
            ;
            assert(n * d == items@.len()) by {
                lemma_fundamental_div_mod(items@.len() as int, d);
            }
            assert(k * d + d == (k + 1) * d) by (nonlinear_arith);
            assert(k * d < items@.len());
            assert(k * PAGE_SIZE == k * d) by (nonlinear_arith)
                requires
                    d == PAGE_SIZE,
            ;
            let start = k * PAGE_SIZE;
            assert(start + PAGE_SIZE <= items@.len());
            let mut chunk: Vec<T> = Vec::with_capacity(PAGE_SIZE);
            let mut j: usize = 0;
            while j < PAGE_SIZE
                invariant
                    j <= PAGE_SIZE,
                    start + PAGE_SIZE <= items.len(),
                    chunk@ == items@.subrange(start as int, start + j),
                decreases PAGE_SIZE - j,
            {
                chunk.push(items[start + j]);
                j = j + 1;
                assert(chunk@ =~= items@.subrange(start as int, start + j));
            }
            let ghost before = self@;
            proof {
                lemma_aligned_split(rva as int, start as int);
                assert(page_of(start as int) == k) by {
                    lemma_fundamental_div_mod_converse(start as int, d, k as int, 0);
                }
                assert(offset_of(start as int) == 0) by {
                    lemma_fundamental_div_mod_converse(start as int, d, k as int, 0);
                }
            }
            let _ = self.map_page((rva + start as u64), chunk.as_slice());
            proof {
                assert forall|p: int| 0 <= p < self@.len() implies #[trigger] self@[p] == if first
                    <= p < first + (k + 1) {
                    Some(items@.subrange((p - first) * d, (p - first + 1) * d))
                } else {
                    v0[p]
                } by {
                    if p == first + k {
                        assert((p - first) * d == start);
                        assert((p - first + 1) * d == start + d);
                    } else {
                        assert(self@[p] == before[p]);
                    }
                }
            }
            k = k + 1;
        }
        assert(self@ =~= view_map(v0, rva as int, items@));
        Ok(())
    }

    /// Map `size` items of `T::default()` at the page-aligned `rva`; same failures as `map`.
    pub fn map_empty(&mut self, rva: u64, size: usize) -> (r: Result<(), Error>)
        requires
            old(self).wf(),
            offset_of(rva as int) == 0,
            size % PAGE_SIZE == 0,
            rva + size <= u64::MAX,
        ensures
            final(self).wf(),
            r is Ok <==> (size == 0 || view_fits(old(self)@, rva as int, size as int)),
            r is Ok ==> exists|fill: T|
                call_ensures(T::default, (), fill) && final(self)@ == view_map(
                    old(self)@,
                    rva as int,
                    #[trigger] repeat(fill, size as nat),
                ),
            r is Err ==> final(self)@ == old(self)@,
    {
        let fill = T::default();
        let mut items: Vec<T> = Vec::with_capacity(size);
        let mut i: usize = 0;
        while i < size
            invariant
                i <= size,
                items@ == repeat(fill, i as nat),
            decreases size - i,
        {
            items.push(fill);
            i = i + 1;
            assert(items@ =~= repeat(fill, i as nat));
        }
        self.map(rva, items.as_slice())
    }

    /// Is the page that holds `rva` mapped?
    pub fn probe(&self, rva: u64) -> (r: bool)
        ensures
            r == self.at(rva as int) is Some,
    {
        let p64 = page(rva);
        if p64 >= self.pages.len() as u64 {
            return false;
        }
        self.pages[p64 as usize].is_some()
    }

    /// The item at `rva`, or `None` when its page is not mapped.
    pub fn get(&self, rva: u64) -> (r: Option<T>)
        requires
            self.wf(),
        ensures
            r == self.at(rva as int),
    {
        let p64 = page(rva);
        if p64 >= self.pages.len() as u64 {
            return None;
        }
        let p = p64 as usize;
        match &self.pages[p] {
            None => None,
            Some(pg) => {
                assert(self@[p as int] is Some);
                Some(pg.elements[page_offset(rva)])
            },
        }
    }
    /// Append to `out` the `n` items from `cur` on, which lie within one page; false, with
    /// `out` unchanged, when that page is not mapped and `n > 0`.
    fn append_in_page(&self, cur: u64, n: usize, out: &mut Vec<T>) -> (r: bool)
        requires
            self.wf(),
            offset_of(cur as int) + n <= PAGE_SIZE,
        ensures
            r == view_mapped(self@, cur as int, cur + n),
            r ==> final(out)@ == old(out)@ + view_range(self@, cur as int, cur + n),
            !r ==> final(out)@ == old(out)@,
    {
        if n == 0 {
            assert(view_range(self@, cur as int, cur as int) =~= Seq::<T>::empty());
            assert(old(out)@ + Seq::<T>::empty() =~= old(out)@);
            return true;
        }
        let p64 = page(cur);
        let off = page_offset(cur);
        if p64 >= self.pages.len() as u64 {
            assert(view_at(self@, cur as int) is None);
            return false;
        }
        let p = p64 as usize;
        match &self.pages[p] {
            None => {
                assert(view_at(self@, cur as int) is None);
                false
            },
            Some(pg) => {
                assert(self@[p as int] is Some);
                assert(pg.elements@.len() == PAGE_SIZE);
                let ghost out0 = out@;
                let mut i: usize = 0;
                while i < n
                    invariant
                        i <= n,
                        off + n <= PAGE_SIZE,
                        off == offset_of(cur as int),
                        p == page_of(cur as int),
                        p < self@.len(),
                        self@[p as int] == Some(pg.elements@),
                        pg.elements@.len() == PAGE_SIZE,
                        out@ == out0 + view_range(self@, cur as int, cur + i),
                    decreases n - i,
                {
                    proof {
                        lemma_in_page(cur as int, i as int);
                    }
                    out.push(pg.elements[off + i]);
                    i = i + 1;
                    assert(out@ =~= out0 + view_range(self@, cur as int, cur + i));
                }
                assert forall|a: int| cur <= a < cur + n implies (#[trigger] view_at(self@, a)) is Some by {
                    lemma_in_page(cur as int, a - cur);
                }
                true
            },
        }
    }

    /// The items at `[start, end)` when both lie in one page.
    fn slice_simple(&self, start: u64, end: u64) -> (r: Result<Vec<T>, Error>)
        requires
            self.wf(),
            start <= end,
            offset_of(start as int) + (end - start) <= PAGE_SIZE,
        ensures
            r is Ok <==> view_mapped(self@, start as int, end as int),
            r matches Ok(v) ==> v@ == view_range(self@, start as int, end as int),
    {
        let mut v: Vec<T> = Vec::new();
        if self.append_in_page(start, (end - start) as usize, &mut v) {
            assert(v@ =~= view_range(self@, start as int, end as int));
            Ok(v)
        } else {
            Err(Error::NotMapped)
        }
    }

    /// The items at `[start, end)` across page boundaries: the rest of the first page, any
    /// whole pages, then the head of the last page.
    fn slice_split(&self, start: u64, end: u64) -> (r: Result<Vec<T>, Error>)
        requires
            self.wf(),
            start <= end,
            end - start <= usize::MAX,
        ensures
            r is Ok <==> view_mapped(self@, start as int, end as int),
            r matches Ok(v) ==> v@ == view_range(self@, start as int, end as int),
    {
        let mut out: Vec<T> = Vec::with_capacity((end - start) as usize);
        let mut cur = start;
        while cur < end
            invariant
                self.wf(),
                start <= cur <= end,
                view_mapped(self@, start as int, cur as int),
                out@ == view_range(self@, start as int, cur as int),
            decreases end - cur,
        {
            let off = page_offset(cur);
            let room = (PAGE_SIZE - off) as u64;
            let n: u64 = if end - cur < room { end - cur } else { room };
            if !self.append_in_page(cur, n as usize, &mut out) {
                assert(view_at(self@, cur as int) is None);
                return Err(Error::NotMapped);
            }
            proof {
                lemma_range_split(self@, start as int, cur as int, cur + n);
            }
            cur = cur + n;
        }
        Ok(out)
    }

    /// The items at `[start, end)`, in order; `NotMapped` when any page they touch is absent.
    pub fn slice(&self, start: u64, end: u64) -> (r: Result<Vec<T>, Error>)
        requires
            self.wf(),
            start <= end,
            end - start <= usize::MAX,
        ensures
            r is Ok <==> view_mapped(self@, start as int, end as int),
            r matches Ok(v) ==> v@ == view_range(self@, start as int, end as int),
    {
        let off = page_offset(start);
        if end - start <= (PAGE_SIZE - off) as u64 {
            self.slice_simple(start, end)
        } else {
            self.slice_split(start, end)
        }
    }

    /// Fill `out` with the items from `rva` on. On failure `out` may be partly written.
    pub fn read_into(&self, rva: u64, out: &mut Vec<T>) -> (r: Result<(), Error>)
        requires
            self.wf(),
            rva + old(out)@.len() <= u64::MAX,
        ensures
            final(out)@.len() == old(out)@.len(),
            r is Ok <==> view_mapped(self@, rva as int, rva + old(out)@.len()),
            r is Ok ==> final(out)@ == view_range(self@, rva as int, rva + old(out)@.len()),
    {
        let n = out.len();
        let v = match self.slice(rva, rva + n as u64) {
            Ok(v) => v,
            Err(e) => return Err(e),
        };
        let mut i: usize = 0;
        while i < n
            invariant
                i <= n,
                n == out@.len(),
                v@.len() == n,
                forall|j: int| 0 <= j < i ==> out@[j] == v@[j],
            decreases n - i,
        {
            out.set(i, v[i]);
            i = i + 1;
        }
        assert(out@ =~= v@);
        Ok(())
    }
}

} // verus!
