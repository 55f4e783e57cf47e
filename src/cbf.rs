//! The change buffer: committed writes held in memory in rotating pages, by
//! entry key (a block position, or a slot number), read newest page first.

use vstd::prelude::*;
use crate::assoc::{
    assoc_map, distinct, lemma_assoc_has, lemma_assoc_lacks, lemma_assoc_push, lemma_assoc_update,
};
use crate::error::Error;

verus! {

/// The newest value of `key` in `pages`, searching from the last page.
pub open spec fn lookup(pages: Seq<Map<usize, Seq<u8>>>, key: usize) -> Option<Seq<u8>>
    decreases pages.len(),
{
    if pages.len() == 0 {
        None
    } else if pages.last().contains_key(key) {
        Some(pages.last()[key])
    } else {
        lookup(pages.drop_last(), key)
    }
}

/// The views of a page's entries.
pub open spec fn entries_view(e: Seq<(usize, Vec<u8>)>) -> Seq<(usize, Seq<u8>)> {
    e.map_values(|x: (usize, Vec<u8>)| (x.0, x.1@))
}

/// One page of the buffer: its number, the highest version written to it,
/// the bytes written to it and its entries, one per key.
pub struct Page {
    pub page_no: usize,
    pub max_version: usize,
    pub cap: usize,
    pub entrys: Vec<(usize, Vec<u8>)>,
}

impl Page {
    /// The page's entries as a map.
    pub open spec fn map(&self) -> Map<usize, Seq<u8>> {
        assoc_map(entries_view(self.entrys@))
    }

    pub open spec fn wf(&self) -> bool {
        distinct(entries_view(self.entrys@))
    }

    pub closed spec fn number(&self) -> usize {
        self.page_no
    }

    pub closed spec fn spec_cap(&self) -> usize {
        self.cap
    }

    fn new(page_no: usize) -> (r: Self)
        ensures
            r.wf(),
            r.map() == Map::<usize, Seq<u8>>::empty(),
            r.number() == page_no,
            r.max_version == page_no,
            r.spec_cap() == 0,
    {
        let r = Page { page_no, max_version: page_no, cap: 0, entrys: Vec::new() };
        assert(entries_view(r.entrys@) =~= Seq::empty());
        r
    }

    /// The page's number.
    pub fn page_no(&self) -> (r: usize)
        ensures
            r == self.number(),
    {
        self.page_no
    }

    /// The entry of `key`, if any.
    pub fn get(&self, key: usize) -> (r: Option<&Vec<u8>>)
        requires
            self.wf(),
        ensures
            match r {
                Some(v) => self.map().contains_key(key) && self.map()[key] == v@,
                None => !self.map().contains_key(key),
            },
    {
        let ghost e = entries_view(self.entrys@);
        let mut i: usize = 0;
        while i < self.entrys.len()
            invariant
                i <= e.len(),
                e == entries_view(self.entrys@),
                distinct(e),
                forall|j: int| 0 <= j < i ==> #[trigger] e[j].0 != key,
            decreases e.len() - i,
        {
            assert(e[i as int] == (self.entrys@[i as int].0, self.entrys@[i as int].1@));
            if self.entrys[i].0 == key {
                proof {
                    lemma_assoc_has(e, i as int);
                }
                return Some(&self.entrys[i].1);
            }
            i = i + 1;
        }
        proof {
            lemma_assoc_lacks(e, key);
        }
        None
    }

    fn find(&self, key: usize) -> (r: Option<usize>)
        requires
            self.wf(),
        ensures
            match r {
                Some(i) => i < self.entrys@.len() && self.entrys@[i as int].0 == key,
                None => forall|j: int| 0 <= j < self.entrys@.len() ==> #[trigger] entries_view(self.entrys@)[j].0 != key,
            },
    {
        let ghost e = entries_view(self.entrys@);
        let mut i: usize = 0;
        while i < self.entrys.len()
            invariant
                i <= e.len(),
                e == entries_view(self.entrys@),
                forall|j: int| 0 <= j < i ==> #[trigger] e[j].0 != key,
            decreases e.len() - i,
        {
            assert(e[i as int] == (self.entrys@[i as int].0, self.entrys@[i as int].1@));
            if self.entrys[i].0 == key {
                return Some(i);
            }
            i = i + 1;
        }
        None
    }

    fn insert(&mut self, version: usize, key: usize, entry: Vec<u8>)
        requires
            old(self).wf(),
        ensures
            final(self).wf(),
            final(self).map() == old(self).map().insert(key, entry@),
            final(self).number() == old(self).number(),
            final(self).max_version == if version > old(self).max_version {
                version
            } else {
                old(self).max_version
            },
            final(self).spec_cap() == if old(self).spec_cap() + entry@.len() > usize::MAX {
                usize::MAX as int
            } else {
                old(self).spec_cap() + entry@.len()
            },
    {
        if version > self.max_version {
            self.max_version = version;
        }
        let n = entry.len();
        self.cap = if self.cap > usize::MAX - n {
            usize::MAX
        } else {
            self.cap + n
        };
        let ghost e = entries_view(self.entrys@);
        let ghost ev = entry@;
        match self.find(key) {
            Some(i) => {
                proof {
                    assert(e[i as int].0 == key);
                    lemma_assoc_update(e, i as int, ev);
                }
                self.entrys.set(i, (key, entry));
                assert(entries_view(self.entrys@) =~= e.update(i as int, (key, ev)));
            },
            None => {
                proof {
                    lemma_assoc_lacks(e, key);
                    lemma_assoc_push(e, key, ev);
                }
                self.entrys.push((key, entry));
                assert(entries_view(self.entrys@) =~= e.push((key, ev)));
            },
        }
    }
}

/// The change buffer: its pages, oldest first; the last one is active.
pub struct Cbf {
    version: usize,
    pages: Vec<Page>,
    page_max_cap: usize,
    rotation_live_time: u64,
    rotation_time: u64,
}

/// The active page and the retired pages after an insert of `n` bytes at
/// `version`, that started a new page or not.
pub open spec fn active_after(before: Cbf, after: Cbf, version: usize, n: int, rotated: bool) -> bool {
    if rotated {
        &&& after.retired() == before.retired().push(before.active())
        &&& after.active().number() == (if version > before.active().number() { version } else { before.active().number() })
        &&& after.active().max_version == after.active().number()
        &&& after.active().spec_cap() == n
    } else {
        &&& after.retired() == before.retired()
        &&& after.active().max_version == if version > before.active().max_version {
            version
        } else {
            before.active().max_version
        }
        &&& after.active().number() == before.active().number()
        &&& after.active().spec_cap() == if before.active().spec_cap() + n > usize::MAX {
            usize::MAX as int
        } else {
            before.active().spec_cap() + n
        }
    }
}

/// The maps of a list of pages.
pub open spec fn page_maps(p: Seq<Page>) -> Seq<Map<usize, Seq<u8>>> {
    p.map_values(|x: Page| x.map())
}

impl Cbf {
    /// The pages, oldest first; the last is the active page.
    pub closed spec fn pages(&self) -> Seq<Map<usize, Seq<u8>>> {
        page_maps(self.pages@)
    }

    /// The retired pages, oldest first.
    pub closed spec fn retired(&self) -> Seq<Page> {
        self.pages@.drop_last()
    }

    /// The active page.
    pub closed spec fn active(&self) -> Page {
        self.pages@.last()
    }

    pub closed spec fn spec_version(&self) -> usize {
        self.version
    }

    pub closed spec fn spec_page_max_cap(&self) -> usize {
        self.page_max_cap
    }

    pub closed spec fn spec_rotation_live_time(&self) -> u64 {
        self.rotation_live_time
    }

    pub closed spec fn spec_rotation_time(&self) -> u64 {
        self.rotation_time
    }

    pub closed spec fn wf(&self) -> bool {
        &&& self.pages@.len() > 0
        &&& forall|i: int| 0 <= i < self.pages@.len() ==> #[trigger] self.pages@[i].wf()
        &&& forall|i: int, j: int|
            #![trigger self.pages@[i], self.pages@[j]]
            0 <= i < j < self.pages@.len() ==> self.pages@[i].page_no <= self.pages@[j].page_no
    }

    /// The number a page opened now gets: the last version, never below the
    /// active page's number.
    pub open spec fn next_page_no(&self) -> usize {
        if self.spec_version() > self.active().number() { self.spec_version() } else { self.active().number() }
    }

    /// Whether no page is retired and the active page holds nothing.
    pub fn is_drained(&self) -> (r: bool)
        requires
            self.wf(),
        ensures
            r == (self.retired().len() == 0 && self.active().spec_cap() == 0),
    {
        self.pages.len() == 1 && self.pages[0].cap == 0
    }

    /// What `get` returns for `key`: its entry in the newest page that has one.
    pub open spec fn value(&self, key: usize) -> Option<Seq<u8>> {
        lookup(self.pages(), key)
    }

    /// An empty buffer whose pages rotate past `cap` bytes or five seconds.
    pub fn new(cap: usize) -> (r: Self)
        ensures
            r.wf(),
            r.pages() == seq![Map::<usize, Seq<u8>>::empty()],
            r.spec_page_max_cap() == cap,
            r.spec_rotation_live_time() == 5,
            r.spec_version() == 0,
    {
        let mut pages: Vec<Page> = Vec::new();
        pages.push(Page::new(0));
        let r = Cbf {
            version: 0,
            pages,
            page_max_cap: cap,
            rotation_live_time: 5,
            rotation_time: crate::clock::now_secs(),
        };
        assert(r.pages() =~= seq![Map::<usize, Seq<u8>>::empty()]);
        r
    }

    /// Sets the age in seconds past which the active page is rotated (0: never).
    pub fn set_rotation_live_time(&mut self, secs: u64)
        ensures
            final(self).spec_rotation_live_time() == secs,
            final(self).pages() == old(self).pages(),
            final(self).retired() == old(self).retired(),
            final(self).wf() == old(self).wf(),
            final(self).spec_page_max_cap() == old(self).spec_page_max_cap(),
    {
        self.rotation_live_time = secs;
    }

    /// Whether an insert of `buf_len` bytes at `now` starts a new page.
    pub open spec fn rotates(&self, buf_len: int, now: u64) -> bool {
        self.active().spec_cap() + buf_len > self.spec_page_max_cap() || (
        self.spec_rotation_live_time() > 0 && now > self.spec_rotation_time() && now
            - self.spec_rotation_time() > self.spec_rotation_live_time())
    }

    /// Retires the active page and opens an empty one numbered by the last version.
    fn rotate(&mut self, now: u64)
        requires
            old(self).wf(),
        ensures
            final(self).wf(),
            final(self).pages() == old(self).pages().push(Map::<usize, Seq<u8>>::empty()),
            final(self).retired() == old(self).pages@,
            final(self).spec_version() == old(self).spec_version(),
            final(self).active().number() == old(self).next_page_no(),
            final(self).active().max_version == old(self).next_page_no(),
            final(self).active().spec_cap() == 0,
            final(self).spec_page_max_cap() == old(self).spec_page_max_cap(),
            final(self).spec_rotation_live_time() == old(self).spec_rotation_live_time(),
    {
        let last = self.pages[self.pages.len() - 1].page_no;
        let no = if self.version > last {
            self.version
        } else {
            last
        };
        self.pages.push(Page::new(no));
        self.rotation_time = now;
        assert forall|i: int, j: int|
            #![trigger self.pages@[i], self.pages@[j]]
            0 <= i < j < self.pages@.len() implies self.pages@[i].page_no <= self.pages@[j].page_no by {
            if j == self.pages@.len() - 1 && i < j - 1 {
                assert(old(self).pages@[i].page_no <= old(self).pages@[j - 1].page_no);
            }
        }
        assert(self.pages() =~= old(self).pages().push(Map::<usize, Seq<u8>>::empty()));
        assert(self.pages@.drop_last() =~= old(self).pages@);
    }

    /// Puts `buf` under `key` in the active page, at time `now`, first
    /// starting a new page when the active one would pass its byte cap or has
    /// lived too long.
    pub fn insert_at(&mut self, version: usize, key: usize, buf: Vec<u8>, now: u64) -> (r: Result<
        (),
        Error,
    >)
        requires
            old(self).wf(),
        ensures
            final(self).wf(),
            r is Ok,
            final(self).spec_version() == version,
            final(self).spec_page_max_cap() == old(self).spec_page_max_cap(),
            final(self).spec_rotation_live_time() == old(self).spec_rotation_live_time(),
            old(self).rotates(buf@.len() as int, now) ==> final(self).pages() == old(
                self,
            ).pages().push(map![key => buf@]),
            !old(self).rotates(buf@.len() as int, now) ==> final(self).pages() == old(
                self,
            ).pages().update(
                old(self).pages().len() - 1,
                old(self).pages().last().insert(key, buf@),
            ),
            active_after(*old(self), *final(self), version, buf@.len() as int, old(self).rotates(buf@.len() as int, now)),
    {
        self.version = version;
        let n = self.pages.len();
        let cap = self.pages[n - 1].cap;
        let over = cap > self.page_max_cap || buf.len() > self.page_max_cap - cap;
        let too_old = self.rotation_live_time > 0 && now > self.rotation_time && now
            - self.rotation_time > self.rotation_live_time;
        let ghost before = self.pages();
        let ghost b = buf@;
        assert(b.len() == buf.len());
        if over || too_old {
            self.rotate(now);
        }
        let ghost mid = self.pages();
        let ghost mid_pages = self.pages@;
        let mut active = self.pages.pop().unwrap();
        assert(mid_pages.last() == active);
        assert(active.wf());
        active.insert(version, key, buf);
        self.pages.push(active);
        proof {
            assert(self.pages@ =~= mid_pages.update(mid_pages.len() - 1, active));
            assert forall|i: int| 0 <= i < self.pages@.len() implies #[trigger] self.pages@[i].wf() by {
                if i < mid_pages.len() - 1 {
                    assert(self.pages@[i] == mid_pages[i]);
                }
            }
            assert(self.pages() =~= mid.update(mid.len() - 1, mid.last().insert(key, b)));
            if over || too_old {
                assert(Map::<usize, Seq<u8>>::empty().insert(key, b) =~= map![key => b]);
                assert(self.pages() =~= before.push(map![key => b]));
            }
            assert(self.pages@.drop_last() =~= mid_pages.drop_last());
            assert(old(self).pages@ =~= old(self).retired().push(old(self).active()));
            assert(self.active() == active);
            if over || too_old {
                assert(self.retired() == old(self).retired().push(old(self).active()));
                assert(self.active().number() == (if version > old(self).active().number() { version } else { old(self).active().number() }));
                assert(b.len() <= usize::MAX);
                assert(self.active().spec_cap() == b.len());
            } else {
                assert(self.retired() == old(self).retired());
            }
        }
        Ok(())
    }

    /// Puts `buf` under `key` in the active page, rotating by the wall clock.
    pub fn insert(&mut self, version: usize, key: usize, buf: Vec<u8>) -> (r: Result<(), Error>)
        requires
            old(self).wf(),
        ensures
            final(self).wf(),
            r is Ok,
            final(self).value(key) == Some(buf@),
            forall|k: usize| k != key ==> final(self).value(k) == old(self).value(k),
            final(self).spec_version() == version,
            exists|now: u64|
                active_after(*old(self), *final(self), version, buf@.len() as int, old(self).rotates(buf@.len() as int, now)) &&
                (#[trigger] old(self).rotates(buf@.len() as int, now) ==> final(self).pages() == old(
                    self,
                ).pages().push(map![key => buf@])) && (!old(self).rotates(buf@.len() as int, now)
                    ==> final(self).pages() == old(self).pages().update(
                    old(self).pages().len() - 1,
                    old(self).pages().last().insert(key, buf@),
                )),
    {
        let now = crate::clock::now_secs();
        let ghost before = self.pages();
        let ghost b = buf@;
        let r = self.insert_at(version, key, buf, now);
        proof {
            lemma_insert_value(before, self.pages(), key, b);
        }
        r
    }

    /// The entry of `key` in the newest page that has one.
    pub fn get(&self, key: usize) -> (r: Option<Vec<u8>>)
        requires
            self.wf(),
        ensures
            match r {
                Some(v) => self.value(key) == Some(v@),
                None => self.value(key) is None,
            },
    {
        let ghost all = self.pages();
        let mut i: usize = self.pages.len();
        assert(all.subrange(0, i as int) =~= all);
        while i > 0
            invariant
                i <= self.pages@.len(),
                self.wf(),
                all == self.pages(),
                lookup(all, key) == lookup(all.subrange(0, i as int), key),
            decreases i,
        {
            let ghost pre = all.subrange(0, i as int);
            assert(pre.last() == self.pages@[i - 1].map());
            assert(pre.drop_last() =~= all.subrange(0, i - 1));
            assert(self.pages@[i - 1].wf());
            match self.pages[i - 1].get(key) {
                Some(v) => {
                    return Some(crate::codec::copy_all(v));
                },
                None => {},
            }
            i = i - 1;
        }
        None
    }

    /// The oldest retired page with its number, taken out of the buffer. With
    /// no retired page, an active page that holds data is retired and nothing
    /// is returned this time.
    pub fn pop_first_page(&mut self) -> (r: Option<(usize, Page)>)
        requires
            old(self).wf(),
        ensures
            final(self).wf(),
            match r {
                Some((no, page)) => {
                    &&& old(self).retired().len() > 0
                    &&& page == old(self).retired()[0]
                    &&& page.wf()
                    &&& page.map() == old(self).pages()[0]
                    &&& no == page.number()
                    &&& forall|j: int| 0 <= j < old(self).retired().len() ==> no <= #[trigger] old(self).retired()[j].number()
                    &&& no <= old(self).active().number()
                    &&& final(self).pages() == old(self).pages().skip(1)
                    &&& final(self).retired() == old(self).retired().skip(1)
                },
                None => {
                    &&& old(self).retired().len() == 0
                    &&& old(self).active().spec_cap() > 0 ==> final(self).pages()
                        == old(self).pages().push(Map::<usize, Seq<u8>>::empty())
                    &&& old(self).active().spec_cap() == 0 ==> final(self).pages()
                        == old(self).pages()
                },
            },
    {
        if self.pages.len() > 1 {
            assert(self.pages@[0].wf());
            let page = self.pages.remove(0);
            assert(self.pages() =~= old(self).pages().skip(1));
            assert(self.pages@.drop_last() =~= old(self).pages@.drop_last().skip(1));
            assert forall|i: int| 0 <= i < self.pages@.len() implies #[trigger] self.pages@[i].wf() by {
                assert(self.pages@[i] == old(self).pages@[i + 1]);
            }
            assert forall|i: int, j: int|
                #![trigger self.pages@[i], self.pages@[j]]
                0 <= i < j < self.pages@.len() implies self.pages@[i].page_no <= self.pages@[j].page_no by {
                assert(self.pages@[i] == old(self).pages@[i + 1] && self.pages@[j] == old(self).pages@[j + 1]);
            }
            assert forall|j: int| 0 <= j < old(self).retired().len() implies page.page_no <= #[trigger] old(self).retired()[j].number() by {
                if j > 0 {
                    assert(old(self).retired()[j] == old(self).pages@[j]);
                    assert(old(self).pages@[0].page_no <= old(self).pages@[j].page_no);
                }
            }
            assert(old(self).pages@[0].page_no <= old(self).pages@[old(self).pages@.len() - 1].page_no);
            Some((page.page_no, page))
        } else {
            let n = self.pages.len();
            if self.pages[n - 1].cap > 0 {
                let now = crate::clock::now_secs();
                self.rotate(now);
            }
            None
        }
    }
}

/// After a write of `v` under `key` (into the last page, or into a new last
/// page), reading `key` gives `v`, and reading any other key gives what it
/// gave before.
pub proof fn lemma_insert_value(
    before: Seq<Map<usize, Seq<u8>>>,
    after: Seq<Map<usize, Seq<u8>>>,
    key: usize,
    v: Seq<u8>,
)
    requires
        before.len() > 0,
        after == before.push(map![key => v]) || after == before.update(
            before.len() - 1,
            before.last().insert(key, v),
        ),
    ensures
        lookup(after, key) == Some(v),
        forall|k: usize| k != key ==> lookup(after, k) == lookup(before, k),
{
    if after == before.push(map![key => v]) {
        assert(after.drop_last() =~= before);
        assert forall|k: usize| k != key implies lookup(after, k) == lookup(before, k) by {
            assert(!after.last().contains_key(k));
        }
    } else {
        assert(after.drop_last() =~= before.drop_last());
        assert forall|k: usize| k != key implies lookup(after, k) == lookup(before, k) by {
            assert(after.last().contains_key(k) == before.last().contains_key(k));
        }
    }
}

} // verus!
