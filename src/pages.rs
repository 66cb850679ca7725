use vstd::prelude::*;

use std::collections::BTreeMap;

use crate::Address;
use crate::total::{
    lemma_total_concat, lemma_total_len, lemma_total_push, lemma_without, total, without,
};

verus! {

/// Most owners one page holds.
pub const MAX_OWNERS_PER_PAGE: usize = 50;

/// Abstract state of one asset's paginated owner list.
pub struct PagesModel {
    /// Page index to the owners on that page; a removed page has no entry.
    pub pages: Map<u32, Seq<Address>>,
    /// Number of page indices handed out so far; never decreases.
    pub page_count: u32,
    /// The page believed to have spare room.
    pub hint: Option<u32>,
    /// Owner to the page that holds it.
    pub location: Map<Address, u32>,
    /// Cached number of owners.
    pub count: u32,
}

/// The owners on page `p`, empty where the page does not exist.
pub open spec fn page_of(pages: Map<u32, Seq<Address>>, p: u32) -> Seq<Address> {
    if pages.contains_key(p) {
        pages[p]
    } else {
        Seq::empty()
    }
}

/// The owners of pages `0..n`, in page order.
pub open spec fn flat(pages: Map<u32, Seq<Address>>, n: nat) -> Seq<Address>
    decreases n,
{
    if n == 0 {
        Seq::empty()
    } else {
        flat(pages, (n - 1) as nat) + page_of(pages, (n - 1) as u32)
    }
}

pub open spec fn has_room(pages: Map<u32, Seq<Address>>, p: u32) -> bool {
    pages.contains_key(p) && pages[p].len() < MAX_OWNERS_PER_PAGE
}

/// The first page in `from..n` with spare room.
pub open spec fn first_room(pages: Map<u32, Seq<Address>>, from: nat, n: nat) -> Option<u32>
    decreases n - from,
{
    if from >= n {
        None
    } else if has_room(pages, from as u32) {
        Some(from as u32)
    } else {
        first_room(pages, from + 1, n)
    }
}

impl PagesModel {
    /// Every owner, page by page in index order.
    pub open spec fn owners(self) -> Seq<Address> {
        flat(self.pages, self.page_count as nat)
    }

    pub open spec fn is_owner(self, o: Address) -> bool {
        self.location.contains_key(o)
    }

    pub open spec fn hint_has_room(self) -> bool {
        match self.hint {
            Some(h) => has_room(self.pages, h),
            None => false,
        }
    }

    /// The page a new owner goes to: the hinted page if it has room, else the
    /// first page with room, else a fresh page at index `page_count`.
    pub open spec fn insert_target(self) -> u32 {
        if self.hint_has_room() {
            self.hint.unwrap()
        } else {
            match first_room(self.pages, 0, self.page_count as nat) {
                Some(p) => p,
                None => self.page_count,
            }
        }
    }

    /// A new owner fits: the count and, where a fresh page is needed, the
    /// page counter have room to grow.
    pub open spec fn can_admit(self) -> bool {
        &&& self.count < u32::MAX
        &&& (self.insert_target() < self.page_count || self.page_count < u32::MAX)
    }

    /// The list after `o` joins it; unchanged where `o` is already an owner.
    pub open spec fn insert(self, o: Address) -> PagesModel {
        if self.is_owner(o) {
            self
        } else {
            let t = self.insert_target();
            PagesModel {
                pages: self.pages.insert(t, page_of(self.pages, t).push(o)),
                page_count: if t == self.page_count {
                    (self.page_count + 1) as u32
                } else {
                    self.page_count
                },
                hint: if self.hint_has_room() {
                    self.hint
                } else {
                    Some(t)
                },
                location: self.location.insert(o, t),
                count: (self.count + 1) as u32,
            }
        }
    }

    /// The list after `o` leaves it. Its page is dropped once empty, and
    /// otherwise becomes the hint.
    pub open spec fn remove(self, o: Address) -> PagesModel {
        if !self.is_owner(o) {
            self
        } else {
            let p = self.location[o];
            let rest = without(page_of(self.pages, p), o);
            PagesModel {
                pages: if rest.len() == 0 {
                    self.pages.remove(p)
                } else {
                    self.pages.insert(p, rest)
                },
                page_count: self.page_count,
                hint: if rest.len() == 0 {
                    self.hint
                } else {
                    Some(p)
                },
                location: self.location.remove(o),
                count: if self.count > 0 {
                    (self.count - 1) as u32
                } else {
                    0
                },
            }
        }
    }

    /// Well-formed: pages are non-empty, within capacity and below
    /// `page_count`; the location map names exactly the page of each owner;
    /// the count is the number of owners.
    pub open spec fn wf(self) -> bool {
        &&& forall|p: u32| #[trigger]
            self.pages.contains_key(p) ==> {
                &&& p < self.page_count
                &&& 0 < self.pages[p].len() <= MAX_OWNERS_PER_PAGE
                &&& self.pages[p].no_duplicates()
            }
        &&& forall|p: u32, i: int|
            self.pages.contains_key(p) && 0 <= i < self.pages[p].len() ==> {
                &&& self.location.contains_key(#[trigger] self.pages[p][i])
                &&& self.location[self.pages[p][i]] == p
            }
        &&& forall|o: Address| #[trigger]
            self.location.contains_key(o) ==> {
                &&& self.pages.contains_key(self.location[o])
                &&& self.pages[self.location[o]].contains(o)
            }
        &&& self.count == self.owners().len()
    }
}

pub proof fn lemma_flat_contains(pages: Map<u32, Seq<Address>>, n: nat, x: Address)
    requires
        n <= u32::MAX + 1,
    ensures
        flat(pages, n).contains(x) <==> exists|q: u32| q < n && #[trigger] page_of(pages, q).contains(x),
    decreases n,
{
    if n > 0 {
        let m = (n - 1) as nat;
        let a = flat(pages, m);
        let b = page_of(pages, m as u32);
        lemma_flat_contains(pages, m, x);
        if (a + b).contains(x) {
            let i = choose|i: int| 0 <= i < (a + b).len() && (a + b)[i] == x;
            if i < a.len() {
                assert(a[i] == x);
                assert(a.contains(x));
            } else {
                assert(b[i - a.len()] == x);
                assert(page_of(pages, m as u32).contains(x));
            }
        }
        if exists|q: u32| q < n && #[trigger] page_of(pages, q).contains(x) {
            let q = choose|q: u32| q < n && #[trigger] page_of(pages, q).contains(x);
            if q < m {
                let i = choose|i: int| 0 <= i < a.len() && a[i] == x;
                assert((a + b)[i] == x);
            } else {
                let i = choose|i: int| 0 <= i < b.len() && b[i] == x;
                assert((a + b)[a.len() + i] == x);
            }
        }
    }
}

/// Pages that agree below `n` give the same owner sequence for `0..n`.
pub proof fn lemma_flat_same(p1: Map<u32, Seq<Address>>, p2: Map<u32, Seq<Address>>, n: nat)
    requires
        n <= u32::MAX + 1,
        forall|q: u32| q < n ==> #[trigger] page_of(p1, q) == page_of(p2, q),
    ensures
        flat(p1, n) == flat(p2, n),
    decreases n,
{
    if n > 0 {
        lemma_flat_same(p1, p2, (n - 1) as nat);
        assert(page_of(p1, (n - 1) as u32) == page_of(p2, (n - 1) as u32));
    }
}

/// Replacing one page changes the sum over all pages by the difference of
/// that page's sums.
pub proof fn lemma_flat_update(
    p1: Map<u32, Seq<Address>>,
    p2: Map<u32, Seq<Address>>,
    n: nat,
    p: u32,
    f: spec_fn(Address) -> int,
)
    requires
        n <= u32::MAX + 1,
        forall|q: u32| q != p ==> #[trigger] page_of(p1, q) == page_of(p2, q),
    ensures
        total(flat(p2, n), f) == total(flat(p1, n), f) + if p < n {
            total(page_of(p2, p), f) - total(page_of(p1, p), f)
        } else {
            0
        },
    decreases n,
{
    if n > 0 {
        let m = (n - 1) as nat;
        lemma_flat_update(p1, p2, m, p, f);
        lemma_total_concat(flat(p1, m), page_of(p1, m as u32), f);
        lemma_total_concat(flat(p2, m), page_of(p2, m as u32), f);
    }
}

/// In a well-formed list the owner sequence holds each owner exactly once.
pub proof fn lemma_owners(m: PagesModel)
    requires
        m.wf(),
    ensures
        m.owners().no_duplicates(),
        forall|o: Address| #[trigger] m.owners().contains(o) <==> m.is_owner(o),
{
    lemma_flat_nodup(m, m.page_count as nat);
    assert forall|o: Address| #[trigger] m.owners().contains(o) <==> m.is_owner(o) by {
        lemma_flat_contains(m.pages, m.page_count as nat, o);
        if m.is_owner(o) {
            assert(page_of(m.pages, m.location[o]).contains(o));
        }
        if m.owners().contains(o) {
            let q = choose|q: u32| q < m.page_count && #[trigger] page_of(m.pages, q).contains(o);
            let i = choose|i: int| 0 <= i < m.pages[q].len() && m.pages[q][i] == o;
            assert(m.location.contains_key(m.pages[q][i]));
        }
    }
}

proof fn lemma_flat_nodup(m: PagesModel, n: nat)
    requires
        m.wf(),
        n <= m.page_count,
    ensures
        flat(m.pages, n).no_duplicates(),
        forall|o: Address| #[trigger]
            flat(m.pages, n).contains(o) ==> m.location.contains_key(o) && m.location[o] < n,
    decreases n,
{
    if n > 0 {
        let k = (n - 1) as nat;
        lemma_flat_nodup(m, k);
        let a = flat(m.pages, k);
        let b = page_of(m.pages, k as u32);
        assert forall|o: Address| #[trigger] b.contains(o) implies m.location.contains_key(o)
            && m.location[o] == k by {
            let i = choose|i: int| 0 <= i < b.len() && b[i] == o;
            assert(m.location.contains_key(m.pages[k as u32][i]));
        }
        assert forall|o: Address| #[trigger]
            (a + b).contains(o) implies m.location.contains_key(o) && m.location[o] < n by {
            let i = choose|i: int| 0 <= i < (a + b).len() && (a + b)[i] == o;
            if i < a.len() {
                assert(a[i] == o);
                assert(a.contains(o));
            } else {
                assert(b[i - a.len()] == o);
                assert(b.contains(o));
            }
        }
        assert forall|i: int, j: int| 0 <= i < (a + b).len() && 0 <= j < (a + b).len() && i
            != j implies (a + b)[i] != (a + b)[j] by {
            if i < a.len() && j < a.len() {
            } else if i >= a.len() && j >= a.len() {
                assert(b[i - a.len()] != b[j - a.len()]);
            } else if i < a.len() {
                assert(a.contains(a[i]));
                assert(b.contains(b[j - a.len()]));
            } else {
                assert(a.contains(a[j]));
                assert(b.contains(b[i - a.len()]));
            }
        }
    }
}

proof fn lemma_first_room(pages: Map<u32, Seq<Address>>, from: nat, n: nat)
    requires
        n <= u32::MAX + 1,
    ensures
        match first_room(pages, from, n) {
            Some(p) => from <= p < n && has_room(pages, p),
            None => forall|q: u32| from <= q < n ==> !#[trigger] has_room(pages, q),
        },
    decreases n - from,
{
    if from < n {
        lemma_first_room(pages, from + 1, n);
    }
}

/// The target page of an insertion is an existing page with room, or the
/// fresh index `page_count`.
pub proof fn lemma_insert_target(m: PagesModel)
    requires
        m.wf(),
    ensures
        m.insert_target() < m.page_count ==> has_room(m.pages, m.insert_target()),
        m.insert_target() >= m.page_count ==> m.insert_target() == m.page_count
            && !m.pages.contains_key(m.page_count),
        m.insert_target() == m.page_count <==> !m.hint_has_room() && forall|q: u32|
            q < m.page_count ==> !#[trigger] has_room(m.pages, q),
{
    lemma_first_room(m.pages, 0, m.page_count as nat);
    if m.hint_has_room() {
        assert(m.pages.contains_key(m.hint.unwrap()));
    }
    if m.pages.contains_key(m.page_count) {
        assert(m.page_count < m.page_count);
    }
}

/// Inserting a new owner keeps the list well-formed and adds that owner
/// once to the owner sequence.
pub proof fn lemma_insert(m: PagesModel, o: Address, f: spec_fn(Address) -> int)
    requires
        m.wf(),
        !m.is_owner(o),
        m.can_admit(),
    ensures
        m.insert(o).wf(),
        total(m.insert(o).owners(), f) == total(m.owners(), f) + f(o),
        m.insert(o).count == m.count + 1,
{
    let t = m.insert_target();
    let m2 = m.insert(o);
    let n = m.page_count as nat;
    let n2 = m2.page_count as nat;
    lemma_insert_target(m);
    lemma_owners(m);
    let pg = page_of(m.pages, t);
    assert(pg.len() < MAX_OWNERS_PER_PAGE);
    assert(!pg.contains(o)) by {
        if pg.contains(o) {
            let i = choose|i: int| 0 <= i < pg.len() && pg[i] == o;
            assert(m.location.contains_key(m.pages[t][i]));
        }
    }
    assert forall|q: u32| q != t implies #[trigger] page_of(m.pages, q) == page_of(m2.pages, q) by {}
    let one = |x: Address| 1int;
    assert forall|g: spec_fn(Address) -> int|
        total(m2.owners(), g) == total(m.owners(), g) + g(o) by {
        lemma_flat_update(m.pages, m2.pages, n2, t, g);
        lemma_total_push(pg, o, g);
        if t == m.page_count {
            lemma_flat_same(m.pages, m.pages, n);
            lemma_total_concat(flat(m.pages, n), page_of(m.pages, t), g);
            assert(page_of(m.pages, t) =~= Seq::<Address>::empty());
        }
    }
    assert(total(m2.owners(), f) == total(m.owners(), f) + f(o));
    assert(total(m2.owners(), one) == total(m.owners(), one) + one(o));
    lemma_total_len(m2.owners(), one);
    lemma_total_len(m.owners(), one);
    let npg = pg.push(o);
    assert(npg.no_duplicates()) by {
        assert forall|i: int, j: int| 0 <= i < npg.len() && 0 <= j < npg.len() && i != j
            implies npg[i] != npg[j] by {
            if i < pg.len() && j < pg.len() {
            } else if i < pg.len() {
                assert(pg.contains(pg[i]));
            } else {
                assert(pg.contains(pg[j]));
            }
        }
    }
    assert forall|p: u32, i: int| m2.pages.contains_key(p) && 0 <= i < m2.pages[p].len() implies {
        &&& m2.location.contains_key(#[trigger] m2.pages[p][i])
        &&& m2.location[m2.pages[p][i]] == p
    } by {
        if p == t {
            if i < pg.len() {
                assert(m.location.contains_key(m.pages[p][i]));
                assert(m.pages[p][i] != o);
            }
        } else {
            assert(m.location.contains_key(m.pages[p][i]));
        }
    }
    assert forall|x: Address| #[trigger] m2.location.contains_key(x) implies {
        &&& m2.pages.contains_key(m2.location[x])
        &&& m2.pages[m2.location[x]].contains(x)
    } by {
        if x == o {
            assert(npg[npg.len() - 1] == o);
        } else {
            let q = m.location[x];
            if q == t {
                let i = choose|i: int| 0 <= i < pg.len() && pg[i] == x;
                assert(npg[i] == x);
            }
        }
    }
}

/// Removing an owner keeps the list well-formed and takes that owner out of
/// the owner sequence.
pub proof fn lemma_remove(m: PagesModel, o: Address, f: spec_fn(Address) -> int)
    requires
        m.wf(),
        m.is_owner(o),
    ensures
        m.remove(o).wf(),
        total(m.remove(o).owners(), f) == total(m.owners(), f) - f(o),
        m.remove(o).count == m.count - 1,
{
    let p = m.location[o];
    let m2 = m.remove(o);
    let n = m.page_count as nat;
    let pg = m.pages[p];
    let rest = without(pg, o);
    lemma_owners(m);
    assert(m.owners().contains(o));
    assert(m.owners().len() > 0);
    assert forall|q: u32| q != p implies #[trigger] page_of(m.pages, q) == page_of(m2.pages, q) by {}
    let one = |x: Address| 1int;
    assert forall|g: spec_fn(Address) -> int|
        total(m2.owners(), g) == total(m.owners(), g) - g(o) by {
        lemma_flat_update(m.pages, m2.pages, n, p, g);
        lemma_without(pg, o, g);
        if rest.len() == 0 {
            assert(page_of(m2.pages, p) =~= rest);
        }
    }
    assert(total(m2.owners(), f) == total(m.owners(), f) - f(o));
    assert(total(m2.owners(), one) == total(m.owners(), one) - one(o));
    lemma_total_len(m2.owners(), one);
    lemma_total_len(m.owners(), one);
    lemma_without(pg, o, f);
    assert forall|q: u32, i: int| m2.pages.contains_key(q) && 0 <= i < m2.pages[q].len() implies {
        &&& m2.location.contains_key(#[trigger] m2.pages[q][i])
        &&& m2.location[m2.pages[q][i]] == q
    } by {
        if q == p {
            let x = rest[i];
            assert(rest.contains(x));
            assert(pg.contains(x));
            let j = choose|j: int| 0 <= j < pg.len() && pg[j] == x;
            assert(m.location.contains_key(m.pages[p][j]));
        } else {
            assert(m.location.contains_key(m.pages[q][i]));
        }
    }
    assert forall|x: Address| #[trigger] m2.location.contains_key(x) implies {
        &&& m2.pages.contains_key(m2.location[x])
        &&& m2.pages[m2.location[x]].contains(x)
    } by {
        if m.location[x] == p {
            assert(rest.contains(x));
        }
    }
}

/// The owner list of one asset: fixed-capacity pages of distinct owners, a
/// location map for removal, a hint at a page with room, and a cached count.
#[derive(Clone)]
pub struct OwnerIndex {
    pages: BTreeMap<u32, Vec<Address>>,
    page_count: u32,
    last_active_page: Option<u32>,
    location: BTreeMap<Address, u32>,
    count: u32,
}

impl View for OwnerIndex {
    type V = PagesModel;

    closed spec fn view(&self) -> PagesModel {
        PagesModel {
            pages: self.pages@.map_values(|v: Vec<Address>| v@),
            page_count: self.page_count,
            hint: self.last_active_page,
            location: self.location@,
            count: self.count,
        }
    }
}

impl OwnerIndex {
    /// An empty list: no pages, no owners.
    pub fn new() -> (r: OwnerIndex)
        ensures
            r@ == (PagesModel {
                pages: Map::empty(),
                page_count: 0,
                hint: None,
                location: Map::empty(),
                count: 0,
            }),
            r@.wf(),
    {
        let r = OwnerIndex {
            pages: BTreeMap::new(),
            page_count: 0,
            last_active_page: None,
            location: BTreeMap::new(),
            count: 0,
        };
        assert(r@.pages =~= Map::empty());
        assert(r@.owners() =~= Seq::empty());
        r
    }

    /// Number of owners.
    pub fn count(&self) -> (r: u32)
        ensures
            r == self@.count,
    {
        self.count
    }

    /// Number of page indices handed out so far.
    pub fn page_count(&self) -> (r: u32)
        ensures
            r == self@.page_count,
    {
        self.page_count
    }

    /// Whether `o` is on the list.
    pub fn is_owner(&self, o: Address) -> (r: bool)
        ensures
            r == self@.is_owner(o),
    {
        self.location.contains_key(&o)
    }

    fn page_has_room(&self, p: u32) -> (r: bool)
        ensures
            r == has_room(self@.pages, p),
    {
        match self.pages.get(&p) {
            Some(page) => page.len() < MAX_OWNERS_PER_PAGE,
            None => false,
        }
    }

    fn hint_has_room(&self) -> (r: bool)
        ensures
            r == self@.hint_has_room(),
    {
        match self.last_active_page {
            Some(h) => self.page_has_room(h),
            None => false,
        }
    }

    /// The page a new owner would go to.
    pub fn insert_target(&self) -> (r: u32)
        ensures
            r == self@.insert_target(),
    {
        if self.hint_has_room() {
            return self.last_active_page.unwrap();
        }
        let n = self.page_count;
        let mut i: u32 = 0;
        while i < n
            invariant
                i <= n,
                n == self@.page_count,
                !self@.hint_has_room(),
                first_room(self@.pages, 0, n as nat) == first_room(self@.pages, i as nat, n as nat),
            decreases n - i,
        {
            if self.page_has_room(i) {
                return i;
            }
            i = i + 1;
        }
        n
    }

    /// Whether a new owner fits.
    pub fn can_admit(&self) -> (r: bool)
        ensures
            r == self@.can_admit(),
    {
        self.count < u32::MAX && (self.insert_target() < self.page_count || self.page_count
            < u32::MAX)
    }

    /// Adds `o` to the list; does nothing where `o` is already on it.
    pub fn add_owner(&mut self, o: Address)
        requires
            old(self)@.wf(),
            old(self)@.is_owner(o) || old(self)@.can_admit(),
        ensures
            final(self)@ == old(self)@.insert(o),
            final(self)@.wf(),
    {
        if self.location.contains_key(&o) {
            return;
        }
        proof {
            lemma_insert(self@, o, |x: Address| 0int);
        }
        let ghost m = self@;
        let hinted = self.hint_has_room();
        let t = self.insert_target();
        let mut page = match self.pages.remove(&t) {
            Some(v) => v,
            None => Vec::new(),
        };
        page.push(o);
        self.pages.insert(t, page);
        if t == self.page_count {
            self.page_count = self.page_count + 1;
        }
        if !hinted {
            self.last_active_page = Some(t);
        }
        self.location.insert(o, t);
        self.count = self.count + 1;
        assert(self@.pages =~= m.insert(o).pages);
        assert(self@.location =~= m.insert(o).location);
    }

    /// Takes `o` off the list; does nothing where `o` is not on it.
    pub fn remove_owner(&mut self, o: Address)
        requires
            old(self)@.wf(),
        ensures
            final(self)@ == old(self)@.remove(o),
            final(self)@.wf(),
    {
        let p = match self.location.get(&o) {
            Some(p) => *p,
            None => return,
        };
        proof {
            lemma_remove(self@, o, |x: Address| 0int);
        }
        let ghost m = self@;
        if self.count > 0 {
            self.count = self.count - 1;
        }
        let page = match self.pages.remove(&p) {
            Some(v) => v,
            None => Vec::new(),
        };
        assert(page@ == page_of(m.pages, p));
        let mut rest: Vec<Address> = Vec::new();
        let mut i: usize = 0;
        while i < page.len()
            invariant
                i <= page.len(),
                rest@ == without(page@.take(i as int), o),
            decreases page.len() - i,
        {
            let x = page[i];
            assert(page@.take(i + 1).drop_last() =~= page@.take(i as int));
            if x != o {
                rest.push(x);
            }
            i = i + 1;
        }
        assert(page@.take(page.len() as int) =~= page@);
        if rest.len() > 0 {
            self.pages.insert(p, rest);
            self.last_active_page = Some(p);
        }
        self.location.remove(&o);
        assert(self@.pages =~= m.remove(o).pages);
        assert(self@.location =~= m.remove(o).location);
    }

    /// Every owner, page by page in index order; removed pages contribute
    /// nothing.
    pub fn owners(&self) -> (r: Vec<Address>)
        ensures
            r@ == self@.owners(),
    {
        let mut all: Vec<Address> = Vec::new();
        let n = self.page_count;
        let mut p: u32 = 0;
        while p < n
            invariant
                p <= n,
                n == self@.page_count,
                all@ == flat(self@.pages, p as nat),
            decreases n - p,
        {
            match self.pages.get(&p) {
                Some(page) => {
                    let mut i: usize = 0;
                    while i < page.len()
                        invariant
                            i <= page.len(),
                            page@ == page_of(self@.pages, p),
                            all@ == flat(self@.pages, p as nat) + page@.take(i as int),
                        decreases page.len() - i,
                    {
                        all.push(page[i]);
                        i = i + 1;
                        assert(all@ =~= flat(self@.pages, p as nat) + page@.take(i as int));
                    }
                    assert(page@.take(page.len() as int) =~= page@);
                },
                None => {
                    assert(flat(self@.pages, p as nat) + page_of(self@.pages, p) =~= flat(
                        self@.pages,
                        p as nat,
                    ));
                },
            }
            p = p + 1;
        }
        all
    }
}

} // verus!
