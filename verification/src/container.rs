//! The five coloured address books and their queries. Each book is a sequence
//! of `(address, last_seen)` entries kept sorted by `last_seen` descending;
//! Grey, White and Dark are capped, Gold and Black are not.

use vstd::prelude::*;
use vstd::pervasive::VecAdditionalExecFns;
use vstd::multiset::Multiset;
use crate::addr::{Addr, AddrV, Transport, TransportV};
use crate::codec::hostport_text;
use crate::NetError;

verus! {

/// The colour of an address book.
#[derive(Clone, Copy, Debug, PartialEq, Eq, Structural)]
pub enum HostColor {
    /// Recently learned, unverified hosts, probed by the refinery.
    Grey,
    /// Hosts the refinery verified as reachable.
    White,
    /// Hosts a full handshake succeeded with.
    Gold,
    /// Hosts banned for the lifetime of the process.
    Black,
    /// Hosts whose transport we cannot use but still gossip onwards.
    Dark,
}

pub const GREYLIST_MAX_LEN: usize = 2000;

pub const WHITELIST_MAX_LEN: usize = 5000;

pub const DARKLIST_MAX_LEN: usize = 1000;

/// The book index of a colour.
pub open spec fn color_index(c: HostColor) -> int {
    match c {
        HostColor::Grey => 0,
        HostColor::White => 1,
        HostColor::Gold => 2,
        HostColor::Black => 3,
        HostColor::Dark => 4,
    }
}

/// Whether a book of this colour has a size cap.
pub open spec fn has_cap(c: HostColor) -> bool {
    c == HostColor::Grey || c == HostColor::White || c == HostColor::Dark
}

/// The size cap of a capped colour.
pub open spec fn cap_value(c: HostColor) -> nat {
    match c {
        HostColor::Grey => 2000,
        HostColor::White => 5000,
        HostColor::Dark => 1000,
        _ => 0,
    }
}

impl HostColor {
    /// The book index of this colour.
    pub fn index(&self) -> (r: usize)
        ensures
            r == color_index(*self),
    {
        match self {
            HostColor::Grey => 0,
            HostColor::White => 1,
            HostColor::Gold => 2,
            HostColor::Black => 3,
            HostColor::Dark => 4,
        }
    }

    /// The colour of a book index; indices past the books are refused.
    pub fn from_code(value: usize) -> (r: Result<HostColor, NetError>)
        ensures
            value < 5 ==> (r matches Ok(c) && color_index(c) == value),
            value >= 5 ==> r == Err::<HostColor, NetError>(NetError::InvalidHostColor),
    {
        match value {
            0 => Ok(HostColor::Grey),
            1 => Ok(HostColor::White),
            2 => Ok(HostColor::Gold),
            3 => Ok(HostColor::Black),
            4 => Ok(HostColor::Dark),
            _ => Err(NetError::InvalidHostColor),
        }
    }
}

/// A book entry.
pub type Entry = (Addr, u64);

/// Mathematical image of an entry.
pub type EntryV = (AddrV, u64);

/// The image of one entry.
pub open spec fn eview(e: Entry) -> EntryV {
    (e.0@, e.1)
}

/// The image of a book.
pub open spec fn bview(s: Seq<Entry>) -> Seq<EntryV> {
    Seq::new(s.len(), |i: int| eview(s[i]))
}

/// The first index holding address `a`, or -1.
pub open spec fn find_addr(book: Seq<EntryV>, a: AddrV) -> int
    decreases book.len(),
{
    if book.len() == 0 {
        -1
    } else if book[0].0 == a {
        0
    } else {
        let r = find_addr(book.drop_first(), a);
        if r == -1 {
            -1
        } else {
            r + 1
        }
    }
}

/// Whether a book holds address `a`.
pub open spec fn contains_addr(book: Seq<EntryV>, a: AddrV) -> bool {
    exists|i: int| 0 <= i < book.len() && (#[trigger] book[i]).0 == a
}

/// `find_addr` finds the first index of `a`, and a negative result means
/// absence.
pub proof fn lemma_find_addr(book: Seq<EntryV>, a: AddrV)
    ensures
        -1 <= find_addr(book, a) < book.len(),
        find_addr(book, a) >= 0 ==> book[find_addr(book, a)].0 == a,
        forall|j: int| 0 <= j < find_addr(book, a) ==> (#[trigger] book[j]).0 != a,
        (find_addr(book, a) >= 0) <==> contains_addr(book, a),
    decreases book.len(),
{
    if book.len() > 0 && book[0].0 != a {
        let t = book.drop_first();
        lemma_find_addr(t, a);
        assert(forall|k: int| 0 <= k < t.len() ==> #[trigger] t[k] == book[k + 1]);
        let r = find_addr(t, a);
        if r == -1 {
            assert forall|j: int| 0 <= j < book.len() implies (#[trigger] book[j]).0 != a by {
                if j > 0 {
                    assert(book[j] == t[j - 1]);
                }
            }
        } else {
            assert(book[r + 1] == t[r]);
            assert forall|j: int| 0 <= j < find_addr(book, a) implies (#[trigger] book[j]).0
                != a by {
                if j > 0 {
                    assert(book[j] == t[j - 1]);
                }
            }
        }
    }
}

/// A book after an upsert: the first entry for `a` is updated, or a new entry
/// is appended.
pub open spec fn upsert(book: Seq<EntryV>, a: AddrV, last_seen: u64) -> Seq<EntryV> {
    let i = find_addr(book, a);
    if i == -1 {
        book.push((a, last_seen))
    } else {
        book.update(i, (a, last_seen))
    }
}

/// The container of the five coloured books.
pub struct HostContainer {
    grey: Vec<Entry>,
    white: Vec<Entry>,
    gold: Vec<Entry>,
    black: Vec<Entry>,
    dark: Vec<Entry>,
}

impl HostContainer {
    /// The book at an index.
    pub closed spec fn books(&self, idx: int) -> Seq<EntryV> {
        if idx == 0 {
            bview(self.grey@)
        } else if idx == 1 {
            bview(self.white@)
        } else if idx == 2 {
            bview(self.gold@)
        } else if idx == 3 {
            bview(self.black@)
        } else {
            bview(self.dark@)
        }
    }

    /// The book of a colour.
    pub open spec fn book(&self, c: HostColor) -> Seq<EntryV> {
        self.books(color_index(c))
    }

    /// Five empty books.
    pub fn new() -> (r: HostContainer)
        ensures
            forall|i: int| 0 <= i < 5 ==> #[trigger] r.books(i) == Seq::<EntryV>::empty(),
    {
        let r = HostContainer {
            grey: Vec::new(),
            white: Vec::new(),
            gold: Vec::new(),
            black: Vec::new(),
            dark: Vec::new(),
        };
        proof {
            assert forall|i: int| 0 <= i < 5 implies #[trigger] r.books(i)
                == Seq::<EntryV>::empty() by {
                assert(r.books(i) =~= Seq::<EntryV>::empty());
            }
        }
        r
    }

    /// Append an entry to a book; no duplicate check.
    pub fn store(&mut self, color: usize, addr: Addr, last_seen: u64)
        requires
            color < 5,
        ensures
            final(self).books(color as int) == old(self).books(color as int).push(
                (addr@, last_seen),
            ),
            forall|j: int| 0 <= j < 5 && j != color ==> #[trigger] final(self).books(j) == old(
                self,
            ).books(j),
    {
        let ghost pre = *self;
        let e = (addr, last_seen);
        match color {
            0 => self.grey.push(e),
            1 => self.white.push(e),
            2 => self.gold.push(e),
            3 => self.black.push(e),
            _ => self.dark.push(e),
        }
        proof {
            assert(self.books(color as int) =~= pre.books(color as int).push((addr@, last_seen)));
            assert forall|j: int| 0 <= j < 5 && j != color implies #[trigger] self.books(j)
                == pre.books(j) by {
                assert(self.books(j) =~= pre.books(j));
            }
        }
    }
}

// ---------------------------------------------------------------------------
// Book helpers
// ---------------------------------------------------------------------------

/// A book after an update of the first entry for `a`, if one is there.
pub open spec fn update_addr(book: Seq<EntryV>, a: AddrV, last_seen: u64) -> Seq<EntryV> {
    let i = find_addr(book, a);
    if i == -1 {
        book
    } else {
        book.update(i, (a, last_seen))
    }
}

/// A book after removing the first entry for `a`, if one is there.
pub open spec fn remove_addr(book: Seq<EntryV>, a: AddrV) -> Seq<EntryV> {
    let i = find_addr(book, a);
    if i == -1 {
        book
    } else {
        book.remove(i)
    }
}

/// The first index of `addr` in a list of entries.
fn find_entry(list: &Vec<Entry>, addr: &Addr) -> (r: Option<usize>)
    ensures
        ({
            let f = find_addr(bview(list@), addr@);
            match r {
                Option::Some(i) => f == i && i < list@.len(),
                Option::None => f == -1,
            }
        }),
{
    proof {
        lemma_find_addr(bview(list@), addr@);
    }
    let ghost bv = bview(list@);
    let mut i: usize = 0;
    while i < list.len()
        invariant
            0 <= i <= list.len(),
            bv == bview(list@),
            bv.len() == list.len(),
            forall|j: int| 0 <= j < i ==> (#[trigger] bv[j]).0 != addr@,
        decreases list.len() - i,
    {
        if list[i].0 == *addr {
            proof {
                assert(bv[i as int].0 == addr@);
                lemma_find_addr(bv, addr@);
                assert(find_addr(bv, addr@) >= 0);
            }
            return Some(i);
        }
        proof {
            assert(bv[i as int].0 != addr@);
        }
        i += 1;
    }
    proof {
        lemma_find_addr(bv, addr@);
    }
    None
}

/// Upsert into a list of entries.
fn upsert_entry(list: &mut Vec<Entry>, addr: Addr, last_seen: u64)
    ensures
        bview(final(list)@) == upsert(bview(old(list)@), addr@, last_seen),
{
    let ghost pre = bview(list@);
    match find_entry(list, &addr) {
        Option::Some(i) => {
            proof {
                lemma_find_addr(pre, addr@);
            }
            list.set(i, (addr, last_seen));
            proof {
                assert(bview(list@) =~= pre.update(find_addr(pre, addr@), (addr@, last_seen)));
            }
        },
        Option::None => {
            list.push((addr, last_seen));
            proof {
                assert(bview(list@) =~= pre.push((addr@, last_seen)));
            }
        },
    }
}

/// Update the `last_seen` of the first entry for `addr`, if one is there.
fn update_entry(list: &mut Vec<Entry>, addr: &Addr, last_seen: u64)
    ensures
        bview(final(list)@) == update_addr(bview(old(list)@), addr@, last_seen),
{
    let ghost pre = bview(list@);
    match find_entry(list, addr) {
        Option::Some(i) => {
            proof {
                lemma_find_addr(pre, addr@);
                assert(pre[i as int].0 == addr@);
            }
            let a = list[i].0.clone();
            list.set(i, (a, last_seen));
            proof {
                assert(bview(list@) =~= pre.update(i as int, (addr@, last_seen)));
            }
        },
        Option::None => {},
    }
}

/// Remove the first entry for `addr`, if one is there.
fn remove_entry(list: &mut Vec<Entry>, addr: &Addr)
    ensures
        bview(final(list)@) == remove_addr(bview(old(list)@), addr@),
{
    let ghost pre = bview(list@);
    match find_entry(list, addr) {
        Option::Some(i) => {
            proof {
                lemma_find_addr(pre, addr@);
            }
            list.remove(i);
            proof {
                assert(bview(list@) =~= pre.remove(i as int));
            }
        },
        Option::None => {},
    }
}

/// Clone a list of entries.
fn clone_entries(list: &Vec<Entry>) -> (r: Vec<Entry>)
    ensures
        bview(r@) == bview(list@),
{
    let ghost bv = bview(list@);
    let mut out: Vec<Entry> = Vec::new();
    let mut i: usize = 0;
    while i < list.len()
        invariant
            0 <= i <= list.len(),
            bv == bview(list@),
            bv.len() == list.len(),
            bview(out@) == bv.take(i as int),
        decreases list.len() - i,
    {
        let e = (list[i].0.clone(), list[i].1);
        let ghost cur = bview(out@);
        proof {
            assert(eview(e) == bv[i as int]);
        }
        out.push(e);
        proof {
            assert(bview(out@) =~= cur.push(bv[i as int]));
            assert(bv.take(i + 1) =~= cur.push(bv[i as int]));
        }
        i += 1;
    }
    proof {
        assert(bv.take(list@.len() as int) =~= bv);
    }
    out
}

// ---------------------------------------------------------------------------
// Sorting by last_seen, descending and stable
// ---------------------------------------------------------------------------

/// A book is sorted by `last_seen` descending.
pub open spec fn sorted_desc(s: Seq<EntryV>) -> bool {
    forall|i: int, j: int| 0 <= i < j < s.len() ==> (#[trigger] s[i]).1 >= (#[trigger] s[j]).1
}

/// Where a stable descending insertion puts `e`: after every entry at least
/// as recent, before the entries strictly older.
pub open spec fn insert_pos(s: Seq<EntryV>, e: EntryV) -> int
    decreases s.len(),
{
    if s.len() == 0 {
        0
    } else if s.last().1 >= e.1 {
        s.len() as int
    } else {
        insert_pos(s.drop_last(), e)
    }
}

/// One stable descending insertion.
pub open spec fn insert_desc(s: Seq<EntryV>, e: EntryV) -> Seq<EntryV>
    decreases s.len(),
{
    if s.len() == 0 {
        seq![e]
    } else if s.last().1 >= e.1 {
        s.push(e)
    } else {
        insert_desc(s.drop_last(), e).push(s.last())
    }
}

/// Stable insertion sort by `last_seen` descending.
pub open spec fn sort_desc(s: Seq<EntryV>) -> Seq<EntryV>
    decreases s.len(),
{
    if s.len() == 0 {
        s
    } else {
        insert_desc(sort_desc(s.drop_last()), s.last())
    }
}

/// The insertion position is a boundary: strictly older entries after it, an
/// entry at least as recent right before it.
pub proof fn lemma_insert_pos(s: Seq<EntryV>, e: EntryV)
    ensures
        0 <= insert_pos(s, e) <= s.len(),
        forall|j: int| insert_pos(s, e) <= j < s.len() ==> (#[trigger] s[j]).1 < e.1,
        insert_pos(s, e) > 0 ==> s[insert_pos(s, e) - 1].1 >= e.1,
    decreases s.len(),
{
    if s.len() > 0 && s.last().1 < e.1 {
        let t = s.drop_last();
        lemma_insert_pos(t, e);
        assert forall|j: int| insert_pos(s, e) <= j < s.len() implies (#[trigger] s[j]).1
            < e.1 by {
            if j < s.len() - 1 {
                assert(t[j] == s[j]);
                assert(t[j].1 < e.1);
            }
        }
    }
}

/// An insertion splits the book at the insertion position.
pub proof fn lemma_insert_desc_split(s: Seq<EntryV>, e: EntryV)
    ensures
        insert_desc(s, e) == s.take(insert_pos(s, e)) + seq![e] + s.skip(insert_pos(s, e)),
    decreases s.len(),
{
    let p = insert_pos(s, e);
    lemma_insert_pos(s, e);
    if s.len() == 0 {
        assert(insert_desc(s, e) =~= s.take(p) + seq![e] + s.skip(p));
    } else if s.last().1 >= e.1 {
        assert(insert_desc(s, e) =~= s.take(p) + seq![e] + s.skip(p));
    } else {
        let t = s.drop_last();
        lemma_insert_desc_split(t, e);
        assert(insert_pos(t, e) == p);
        assert(insert_desc(s, e) == (t.take(p) + seq![e] + t.skip(p)).push(s.last()));
        assert(forall|k: int| 0 <= k < s.len() - 1 ==> (#[trigger] t[k]) == s[k]);
        assert(insert_desc(s, e) =~= s.take(p) + seq![e] + s.skip(p));
    }
}

/// An insertion adds one entry to the book's multiset.
pub proof fn lemma_insert_desc_multiset(s: Seq<EntryV>, e: EntryV)
    ensures
        insert_desc(s, e).len() == s.len() + 1,
        insert_desc(s, e).to_multiset() == s.to_multiset().insert(e),
{
    broadcast use vstd::seq_lib::group_to_multiset_ensures;

    let p = insert_pos(s, e);
    lemma_insert_pos(s, e);
    lemma_insert_desc_split(s, e);
    let r = insert_desc(s, e);
    assert(s =~= s.take(p) + s.skip(p));
    vstd::seq_lib::lemma_multiset_commutative(s.take(p), s.skip(p));
    vstd::seq_lib::lemma_multiset_commutative(s.take(p) + seq![e], s.skip(p));
    vstd::seq_lib::lemma_multiset_commutative(s.take(p), seq![e]);
    assert(seq![e].to_multiset() =~= Multiset::<EntryV>::empty().insert(e)) by {
        assert(seq![e].drop_first() =~= Seq::<EntryV>::empty());
    }
    assert(r.to_multiset() =~= s.to_multiset().insert(e));
}

/// An insertion into a sorted book keeps it sorted.
pub proof fn lemma_insert_desc_sorted(s: Seq<EntryV>, e: EntryV)
    requires
        sorted_desc(s),
    ensures
        sorted_desc(insert_desc(s, e)),
{
    let p = insert_pos(s, e);
    lemma_insert_pos(s, e);
    lemma_insert_desc_split(s, e);
    let r = insert_desc(s, e);
    assert forall|i: int, j: int| 0 <= i < j < r.len() implies (#[trigger] r[i]).1 >= (
    #[trigger] r[j]).1 by {
        assert(forall|k: int| 0 <= k < p ==> r[k] == s[k]);
        assert(r[p] == e);
        assert(forall|k: int| p < k < r.len() ==> r[k] == s[k - 1]);
        if i < p && p < j {
            assert(s[i].1 >= e.1);
            assert(s[j - 1].1 < e.1);
        } else if i < p && j == p {
            assert(s[i].1 >= s[p - 1].1 >= e.1);
        } else if i == p && p < j {
            assert(s[j - 1].1 < e.1);
        }
    }
}

/// Sorting keeps the book's multiset and leaves it sorted.
pub proof fn lemma_sort_desc(s: Seq<EntryV>)
    ensures
        sort_desc(s).len() == s.len(),
        sort_desc(s).to_multiset() == s.to_multiset(),
        sorted_desc(sort_desc(s)),
    decreases s.len(),
{
    broadcast use vstd::seq_lib::group_to_multiset_ensures;

    if s.len() > 0 {
        let t = s.drop_last();
        lemma_sort_desc(t);
        lemma_insert_desc_multiset(sort_desc(t), s.last());
        lemma_insert_desc_sorted(sort_desc(t), s.last());
        assert(s =~= t.push(s.last()));
        assert(sort_desc(s).to_multiset() =~= s.to_multiset());
    }
}

/// Sort a list of entries in place, by `last_seen` descending, stable.
fn sort_entries(list: &mut Vec<Entry>)
    ensures
        bview(final(list)@) == sort_desc(bview(old(list)@)),
{
    let ghost bv = bview(list@);
    let mut out: Vec<Entry> = Vec::new();
    let mut k: usize = 0;
    while k < list.len()
        invariant
            0 <= k <= list.len(),
            bv == bview(list@),
            bv.len() == list.len(),
            bview(out@) == sort_desc(bv.take(k as int)),
        decreases list.len() - k,
    {
        let e = (list[k].0.clone(), list[k].1);
        let ghost ev = eview(e);
        let ghost cur = bview(out@);
        proof {
            lemma_insert_pos(cur, ev);
        }
        let mut p: usize = out.len();
        proof {
            assert(cur.take(out.len() as int) =~= cur);
        }
        while p > 0 && out[p - 1].1 < e.1
            invariant
                0 <= p <= out.len(),
                cur == bview(out@),
                cur.len() == out.len(),
                ev == eview(e),
                insert_pos(cur, ev) == insert_pos(cur.take(p as int), ev),
            decreases p,
        {
            proof {
                let c = cur.take(p as int);
                assert(c.last() == cur[p - 1]);
                assert(cur[p - 1].1 == out@[p - 1].1);
                assert(c.last().1 < ev.1);
                assert(c.drop_last() =~= cur.take(p - 1));
                assert(insert_pos(c, ev) == insert_pos(cur.take(p - 1), ev));
            }
            p -= 1;
        }
        proof {
            let c = cur.take(p as int);
            if p > 0 {
                assert(c.last() == cur[p - 1]);
                assert(cur[p - 1].1 == out@[p - 1].1);
                assert(c.last().1 >= ev.1);
                assert(insert_pos(c, ev) == c.len());
            } else {
                assert(c.len() == 0);
            }
            assert(insert_pos(cur, ev) == p);
        }
        out.insert(p, e);
        proof {
            lemma_insert_desc_split(cur, ev);
            assert(bview(out@) =~= cur.take(p as int) + seq![ev] + cur.skip(p as int));
            assert(bv.take(k + 1).drop_last() =~= bv.take(k as int));
            assert(bv.take(k + 1).last() == bv[k as int]);
            assert(bview(out@) == sort_desc(bv.take(k + 1)));
        }
        k += 1;
    }
    proof {
        assert(bv.take(list@.len() as int) =~= bv);
    }
    *list = out;
}

impl HostContainer {
    /// Store an entry, or update its `last_seen` if the address is already in
    /// the book.
    pub fn store_or_update(&mut self, color: HostColor, addr: Addr, last_seen: u64)
        ensures
            final(self).book(color) == upsert(old(self).book(color), addr@, last_seen),
            forall|j: int|
                0 <= j < 5 && j != color_index(color) ==> #[trigger] final(self).books(j) == old(
                    self,
                ).books(j),
    {
        let ghost pre = *self;
        match color {
            HostColor::Grey => upsert_entry(&mut self.grey, addr, last_seen),
            HostColor::White => upsert_entry(&mut self.white, addr, last_seen),
            HostColor::Gold => upsert_entry(&mut self.gold, addr, last_seen),
            HostColor::Black => upsert_entry(&mut self.black, addr, last_seen),
            HostColor::Dark => upsert_entry(&mut self.dark, addr, last_seen),
        }
    }

    /// Update the `last_seen` field of a peer on a book, if it is there.
    pub fn update_last_seen(&mut self, color: usize, addr: &Addr, last_seen: u64)
        requires
            color < 5,
        ensures
            final(self).books(color as int) == update_addr(
                old(self).books(color as int),
                addr@,
                last_seen,
            ),
            forall|j: int| 0 <= j < 5 && j != color ==> #[trigger] final(self).books(j) == old(
                self,
            ).books(j),
    {
        match color {
            0 => update_entry(&mut self.grey, addr, last_seen),
            1 => update_entry(&mut self.white, addr, last_seen),
            2 => update_entry(&mut self.gold, addr, last_seen),
            3 => update_entry(&mut self.black, addr, last_seen),
            _ => update_entry(&mut self.dark, addr, last_seen),
        }
    }

    /// All entries of a book.
    pub fn fetch_all(&self, color: HostColor) -> (r: Vec<Entry>)
        ensures
            bview(r@) == self.book(color),
    {
        match color {
            HostColor::Grey => clone_entries(&self.grey),
            HostColor::White => clone_entries(&self.white),
            HostColor::Gold => clone_entries(&self.gold),
            HostColor::Black => clone_entries(&self.black),
            HostColor::Dark => clone_entries(&self.dark),
        }
    }

    /// The oldest entry of a book: the last one, once the book is sorted.
    pub fn fetch_last(&self, color: HostColor) -> (r: Option<Entry>)
        ensures
            ({
                let book = self.book(color);
                match r {
                    Option::Some(e) => book.len() > 0 && eview(e) == book.last(),
                    Option::None => book.len() == 0,
                }
            }),
    {
        let list = match color {
            HostColor::Grey => &self.grey,
            HostColor::White => &self.white,
            HostColor::Gold => &self.gold,
            HostColor::Black => &self.black,
            HostColor::Dark => &self.dark,
        };
        if list.len() == 0 {
            None
        } else {
            let i = list.len() - 1;
            Some((list[i].0.clone(), list[i].1))
        }
    }

    /// Remove an entry from a book if it is there.
    pub fn remove_if_exists(&mut self, color: HostColor, addr: &Addr)
        ensures
            final(self).book(color) == remove_addr(old(self).book(color), addr@),
            forall|j: int|
                0 <= j < 5 && j != color_index(color) ==> #[trigger] final(self).books(j) == old(
                    self,
                ).books(j),
    {
        match color {
            HostColor::Grey => remove_entry(&mut self.grey, addr),
            HostColor::White => remove_entry(&mut self.white, addr),
            HostColor::Gold => remove_entry(&mut self.gold, addr),
            HostColor::Black => remove_entry(&mut self.black, addr),
            HostColor::Dark => remove_entry(&mut self.dark, addr),
        }
    }

    /// Whether a book is empty.
    pub fn is_empty(&self, color: HostColor) -> (r: bool)
        ensures
            r == (self.book(color).len() == 0),
    {
        match color {
            HostColor::Grey => self.grey.len() == 0,
            HostColor::White => self.white.len() == 0,
            HostColor::Gold => self.gold.len() == 0,
            HostColor::Black => self.black.len() == 0,
            HostColor::Dark => self.dark.len() == 0,
        }
    }

    /// Whether a book holds an address.
    pub fn contains(&self, color: usize, addr: &Addr) -> (r: bool)
        requires
            color < 5,
        ensures
            r == contains_addr(self.books(color as int), addr@),
    {
        proof {
            lemma_find_addr(self.books(color as int), addr@);
        }
        let f = match color {
            0 => find_entry(&self.grey, addr),
            1 => find_entry(&self.white, addr),
            2 => find_entry(&self.gold, addr),
            3 => find_entry(&self.black, addr),
            _ => find_entry(&self.dark, addr),
        };
        f.is_some()
    }

    /// The index of an address in a book.
    pub fn get_index_at_addr(&self, color: usize, addr: &Addr) -> (r: Option<usize>)
        requires
            color < 5,
        ensures
            ({
                let f = find_addr(self.books(color as int), addr@);
                match r {
                    Option::Some(i) => f == i,
                    Option::None => f == -1,
                }
            }),
    {
        match color {
            0 => find_entry(&self.grey, addr),
            1 => find_entry(&self.white, addr),
            2 => find_entry(&self.gold, addr),
            3 => find_entry(&self.black, addr),
            _ => find_entry(&self.dark, addr),
        }
    }

    /// The `last_seen` field of an address in a book.
    pub fn get_last_seen(&self, color: usize, addr: &Addr) -> (r: Option<u64>)
        requires
            color < 5,
        ensures
            ({
                let book = self.books(color as int);
                let f = find_addr(book, addr@);
                match r {
                    Option::Some(t) => f >= 0 && book[f].1 == t,
                    Option::None => f == -1,
                }
            }),
    {
        let list = match color {
            0 => &self.grey,
            1 => &self.white,
            2 => &self.gold,
            3 => &self.black,
            _ => &self.dark,
        };
        match find_entry(list, addr) {
            Option::Some(i) => {
                proof {
                    lemma_find_addr(bview(list@), addr@);
                }
                Some(list[i].1)
            },
            Option::None => None,
        }
    }

    /// Sort a book by `last_seen`, most recent first.
    pub fn sort_by_last_seen(&mut self, color: usize)
        requires
            color < 5,
        ensures
            final(self).books(color as int) == sort_desc(old(self).books(color as int)),
            forall|j: int| 0 <= j < 5 && j != color ==> #[trigger] final(self).books(j) == old(
                self,
            ).books(j),
    {
        match color {
            0 => sort_entries(&mut self.grey),
            1 => sort_entries(&mut self.white),
            2 => sort_entries(&mut self.gold),
            3 => sort_entries(&mut self.black),
            _ => sort_entries(&mut self.dark),
        }
    }

    /// Evict the last entry of a capped book that has reached its cap. Gold
    /// and Black have no cap.
    pub fn resize(&mut self, color: HostColor)
        ensures
            final(self).book(color) == (if has_cap(color) && old(self).book(color).len()
                == cap_value(color) {
                old(self).book(color).drop_last()
            } else {
                old(self).book(color)
            }),
            forall|j: int|
                0 <= j < 5 && j != color_index(color) ==> #[trigger] final(self).books(j) == old(
                    self,
                ).books(j),
    {
        let ghost pre = *self;
        match color {
            HostColor::Grey => {
                if self.grey.len() == GREYLIST_MAX_LEN {
                    self.grey.pop();
                }
            },
            HostColor::White => {
                if self.white.len() == WHITELIST_MAX_LEN {
                    self.white.pop();
                }
            },
            HostColor::Dark => {
                if self.dark.len() == DARKLIST_MAX_LEN {
                    self.dark.pop();
                }
            },
            HostColor::Gold => {},
            HostColor::Black => {},
        }
        proof {
            if has_cap(color) && pre.book(color).len() == cap_value(color) {
                assert(final(self).book(color) =~= pre.book(color).drop_last());
            }
        }
    }

    /// Drop every entry of a book older than `max_age` seconds at time `now`.
    /// An entry stamped in the future is kept: the clock may be behind, or
    /// another node may misreport.
    pub fn refresh(&mut self, color: HostColor, max_age: u64, now: u64)
        ensures
            final(self).book(color) == swept(old(self).book(color), max_age, now),
            forall|j: int|
                0 <= j < 5 && j != color_index(color) ==> #[trigger] final(self).books(j) == old(
                    self,
                ).books(j),
    {
        match color {
            HostColor::Grey => refresh_entries(&mut self.grey, max_age, now),
            HostColor::White => refresh_entries(&mut self.white, max_age, now),
            HostColor::Gold => refresh_entries(&mut self.gold, max_age, now),
            HostColor::Black => refresh_entries(&mut self.black, max_age, now),
            HostColor::Dark => refresh_entries(&mut self.dark, max_age, now),
        }
    }
}

/// Filtering a book grown by one entry keeps the filtered prefix and appends
/// the entry when it passes the test.
pub proof fn lemma_filter_push<A>(s: Seq<A>, e: A, pred: spec_fn(A) -> bool)
    ensures
        s.push(e).filter(pred) == (if pred(e) {
            s.filter(pred).push(e)
        } else {
            s.filter(pred)
        }),
{
    reveal(Seq::filter);
    assert(s.push(e).drop_last() =~= s);
    assert(s.push(e).last() == e);
}


/// A book swept of entries older than `max_age` seconds at time `now`;
/// entries stamped in the future stay.
pub open spec fn swept(book: Seq<EntryV>, max_age: u64, now: u64) -> Seq<EntryV> {
    book.filter(|e: EntryV| e.1 > now || now - e.1 <= max_age)
}

/// Keep the entries that are recent enough or stamped in the future.
fn refresh_entries(list: &mut Vec<Entry>, max_age: u64, now: u64)
    ensures
        bview(final(list)@) == swept(bview(old(list)@), max_age, now),
{
    let ghost bv = bview(list@);
    let ghost pred = |e: EntryV| e.1 > now || now - e.1 <= max_age;
    let mut out: Vec<Entry> = Vec::new();
    let mut i: usize = 0;
    proof {
        assert(bv.take(0).filter(pred) =~= Seq::<EntryV>::empty());
    }
    while i < list.len()
        invariant
            0 <= i <= list.len(),
            bv == bview(list@),
            bv.len() == list.len(),
            pred == (|e: EntryV| e.1 > now || now - e.1 <= max_age),
            bview(out@) == bv.take(i as int).filter(pred),
        decreases list.len() - i,
    {
        let ls = list[i].1;
        let keep = ls > now || now - ls <= max_age;
        let ghost cur = bview(out@);
        proof {
            assert(bv.take(i + 1) =~= bv.take(i as int).push(bv[i as int]));
            assert(pred(bv[i as int]) == keep);
            lemma_filter_push(bv.take(i as int), bv[i as int], pred);
        }
        if keep {
            let e = (list[i].0.clone(), list[i].1);
            proof {
                assert(eview(e) == bv[i as int]);
            }
            out.push(e);
            proof {
                assert(bview(out@) =~= cur.push(bv[i as int]));
            }
        }
        proof {
            assert(bview(out@) == bv.take(i + 1).filter(pred));
        }
        i += 1;
    }
    proof {
        assert(bv.take(list@.len() as int) =~= bv);
    }
    *list = out;
}

// ---------------------------------------------------------------------------
// Scheme-filtered fetches
// ---------------------------------------------------------------------------

/// Whether a scheme list holds transport `t`.
pub open spec fn scheme_in(list: Seq<Transport>, t: TransportV) -> bool {
    exists|i: int| 0 <= i < list.len() && (#[trigger] list[i])@ == t
}

/// The image of an optional address.
pub open spec fn opt_view(o: Option<Addr>) -> Option<AddrV> {
    match o {
        Option::Some(a) => Option::Some(a@),
        Option::None => Option::None,
    }
}

/// The entries of a book whose scheme is in the list, in book order.
pub open spec fn with_schemes(book: Seq<EntryV>, schemes: Seq<Transport>) -> Seq<EntryV> {
    book.filter(|e: EntryV| scheme_in(schemes, e.0.scheme))
}

/// The entries of a book whose scheme is not in the list, in book order.
pub open spec fn excluding_schemes(book: Seq<EntryV>, schemes: Seq<Transport>) -> Seq<EntryV> {
    book.filter(|e: EntryV| !scheme_in(schemes, e.0.scheme))
}

/// A fetch result cut to a limit, when one is given.
pub open spec fn limited(f: Seq<EntryV>, limit: Option<usize>) -> Seq<EntryV> {
    match limit {
        Option::Some(l) => if l < f.len() {
            f.take(l as int)
        } else {
            f
        },
        Option::None => f,
    }
}

/// An entry with its scheme rewritten.
pub open spec fn rewrite_entry(e: EntryV, t: TransportV) -> EntryV {
    (AddrV { scheme: t, host: e.0.host, port: e.0.port, path: e.0.path }, e.1)
}

/// One transport-mixing rule: when `a` is requested and `b` is mixed, every
/// entry of scheme `b` is emitted again with scheme `a`.
pub open spec fn mix_rewrite(
    book: Seq<EntryV>,
    req: Seq<Transport>,
    mixed: Seq<Transport>,
    a: TransportV,
    b: TransportV,
) -> Seq<EntryV> {
    if scheme_in(req, a) && scheme_in(mixed, b) {
        book.filter(|e: EntryV| e.0.scheme == b).map_values(|e: EntryV| rewrite_entry(e, a))
    } else {
        Seq::<EntryV>::empty()
    }
}

/// The proxy endpoint that reaches a peer: the proxy's host and port under
/// the requested scheme, with the peer as the path.
pub open spec fn socks5_target(proxy: AddrV, a: TransportV, e: EntryV) -> EntryV {
    (AddrV { scheme: a, host: proxy.host, port: proxy.port, path: hostport_text(e.0) }, e.1)
}

/// What one entry contributes under a SOCKS5 rule: one endpoint per
/// configured proxy, first proxy first.
pub open spec fn smix_entry(
    e: EntryV,
    a: TransportV,
    p1: Option<AddrV>,
    p2: Option<AddrV>,
) -> Seq<EntryV> {
    (match p1 {
        Option::Some(p) => seq![socks5_target(p, a, e)],
        Option::None => Seq::<EntryV>::empty(),
    }) + (match p2 {
        Option::Some(p) => seq![socks5_target(p, a, e)],
        Option::None => Seq::<EntryV>::empty(),
    })
}

/// The SOCKS5 contributions of a list of entries, in order.
pub open spec fn smix_list(
    entries: Seq<EntryV>,
    a: TransportV,
    p1: Option<AddrV>,
    p2: Option<AddrV>,
) -> Seq<EntryV>
    decreases entries.len(),
{
    if entries.len() == 0 {
        Seq::<EntryV>::empty()
    } else {
        smix_entry(entries[0], a, p1, p2) + smix_list(entries.drop_first(), a, p1, p2)
    }
}

/// One SOCKS5 mixing rule: when `a` is requested and `b` is mixed, every
/// entry of scheme `b` is reached through the configured proxies.
pub open spec fn smix(
    book: Seq<EntryV>,
    req: Seq<Transport>,
    mixed: Seq<Transport>,
    a: TransportV,
    b: TransportV,
    p1: Option<AddrV>,
    p2: Option<AddrV>,
) -> Seq<EntryV> {
    if scheme_in(req, a) && scheme_in(mixed, b) {
        smix_list(book.filter(|e: EntryV| e.0.scheme == b), a, p1, p2)
    } else {
        Seq::<EntryV>::empty()
    }
}

/// The direct part of a fetch: requested schemes, minus every scheme that is
/// mixed, since a mixed transport is never dialled directly.
pub open spec fn direct_fetch(
    book: Seq<EntryV>,
    req: Seq<Transport>,
    mixed: Seq<Transport>,
) -> Seq<EntryV> {
    book.filter(
        |e: EntryV| scheme_in(req, e.0.scheme) && !scheme_in(mixed, e.0.scheme),
    )
}

/// The whole candidate set of a fetch: the four scheme-rewriting rules, the
/// four SOCKS5 rules, then the direct entries.
pub open spec fn fetch_model(
    book: Seq<EntryV>,
    req: Seq<Transport>,
    mixed: Seq<Transport>,
    torp: Option<AddrV>,
    nymp: Option<AddrV>,
) -> Seq<EntryV> {
    mix_rewrite(book, req, mixed, TransportV::Tor, TransportV::Tcp) + mix_rewrite(
        book,
        req,
        mixed,
        TransportV::TorTls,
        TransportV::TcpTls,
    ) + mix_rewrite(book, req, mixed, TransportV::Nym, TransportV::Tcp) + mix_rewrite(
        book,
        req,
        mixed,
        TransportV::NymTls,
        TransportV::TcpTls,
    ) + smix(book, req, mixed, TransportV::Socks5, TransportV::Tcp, torp, nymp) + smix(
        book,
        req,
        mixed,
        TransportV::Socks5Tls,
        TransportV::TcpTls,
        torp,
        nymp,
    ) + smix(book, req, mixed, TransportV::Socks5, TransportV::Tor, torp, Option::None) + smix(
        book,
        req,
        mixed,
        TransportV::Socks5Tls,
        TransportV::TorTls,
        torp,
        Option::None,
    ) + direct_fetch(book, req, mixed)
}

/// A contribution distributes over growing the entry list at its end.
proof fn lemma_smix_push(
    s: Seq<EntryV>,
    e: EntryV,
    a: TransportV,
    p1: Option<AddrV>,
    p2: Option<AddrV>,
)
    ensures
        smix_list(s.push(e), a, p1, p2) == smix_list(s, a, p1, p2) + smix_entry(e, a, p1, p2),
    decreases s.len(),
{
    let sp = s.push(e);
    assert(smix_list(sp, a, p1, p2) == smix_entry(sp[0], a, p1, p2) + smix_list(
        sp.drop_first(),
        a,
        p1,
        p2,
    ));
    if s.len() == 0 {
        assert(sp[0] == e);
        assert(sp.drop_first() =~= Seq::<EntryV>::empty());
        assert(smix_list(sp.drop_first(), a, p1, p2) == Seq::<EntryV>::empty());
        assert(smix_list(s, a, p1, p2) == Seq::<EntryV>::empty());
        assert(smix_list(sp, a, p1, p2) =~= smix_list(s, a, p1, p2) + smix_entry(e, a, p1, p2));
    } else {
        assert(sp[0] == s[0]);
        assert(sp.drop_first() =~= s.drop_first().push(e));
        lemma_smix_push(s.drop_first(), e, a, p1, p2);
        assert(smix_list(s, a, p1, p2) == smix_entry(s[0], a, p1, p2) + smix_list(
            s.drop_first(),
            a,
            p1,
            p2,
        ));
        assert(smix_list(sp, a, p1, p2) =~= smix_list(s, a, p1, p2) + smix_entry(e, a, p1, p2));
    }
}

/// Whether a scheme list holds `t`.
pub(crate) fn schemes_contain(list: &Vec<Transport>, t: &Transport) -> (r: bool)
    ensures
        r == scheme_in(list@, t@),
{
    let mut i: usize = 0;
    while i < list.len()
        invariant
            0 <= i <= list.len(),
            forall|j: int| 0 <= j < i ==> (#[trigger] list@[j])@ != t@,
        decreases list.len() - i,
    {
        if list[i] == *t {
            return true;
        }
        i += 1;
    }
    false
}

/// An address with its scheme rewritten.
fn with_scheme(addr: &Addr, t: Transport) -> (r: Addr)
    ensures
        r@ == (AddrV { scheme: t@, host: addr@.host, port: addr@.port, path: addr@.path }),
{
    let host = match &addr.host {
        Option::Some(h) => Option::Some(h.clone()),
        Option::None => Option::None,
    };
    Addr { scheme: t, host, port: addr.port, path: addr.path.clone() }
}

/// Filter a list of entries by scheme membership, up to a limit.
fn filter_schemes(
    list: &Vec<Entry>,
    schemes: &Vec<Transport>,
    limit: Option<usize>,
    keep_matching: bool,
) -> (r: Vec<Entry>)
    ensures
        bview(r@) == limited(
            if keep_matching {
                with_schemes(bview(list@), schemes@)
            } else {
                excluding_schemes(bview(list@), schemes@)
            },
            limit,
        ),
{
    let ghost bv = bview(list@);
    let ghost pred = (if keep_matching {
        |e: EntryV| scheme_in(schemes@, e.0.scheme)
    } else {
        |e: EntryV| !scheme_in(schemes@, e.0.scheme)
    });
    let ghost f = bv.filter(pred);
    let mut out: Vec<Entry> = Vec::new();
    let mut i: usize = 0;
    proof {
        assert(bv.take(0).filter(pred) =~= Seq::<EntryV>::empty());
    }
    while i < list.len()
        invariant
            0 <= i <= list.len(),
            bv == bview(list@),
            bv.len() == list.len(),
            f == bv.filter(pred),
            pred == (if keep_matching {
                |e: EntryV| scheme_in(schemes@, e.0.scheme)
            } else {
                |e: EntryV| !scheme_in(schemes@, e.0.scheme)
            }),
            bview(out@) == bv.take(i as int).filter(pred),
            limit matches Option::Some(l) ==> out@.len() <= l,
        decreases list.len() - i,
    {
        match limit {
            Option::Some(l) => {
                if out.len() >= l {
                    proof {
                        Seq::filter_distributes_over_add(
                            bv.take(i as int),
                            bv.skip(i as int),
                            pred,
                        );
                        assert(bv.take(i as int) + bv.skip(i as int) =~= bv);
                        assert(f == bview(out@) + bv.skip(i as int).filter(pred));
                        assert(bview(out@).len() == l);
                        assert(f.take(l as int) =~= bview(out@));
                        assert(bview(out@) == limited(f, limit));
                    }
                    return out;
                }
            },
            Option::None => {},
        }
        let m = schemes_contain(schemes, &list[i].0.scheme);
        let keep = if keep_matching {
            m
        } else {
            !m
        };
        let ghost cur = bview(out@);
        proof {
            assert(bv.take(i + 1) =~= bv.take(i as int).push(bv[i as int]));
            assert(bv[i as int].0.scheme == list@[i as int].0.scheme@);
            assert(pred(bv[i as int]) == keep);
            lemma_filter_push(bv.take(i as int), bv[i as int], pred);
        }
        if keep {
            let e = (list[i].0.clone(), list[i].1);
            proof {
                assert(eview(e) == bv[i as int]);
            }
            out.push(e);
            proof {
                assert(bview(out@) =~= cur.push(bv[i as int]));
            }
        }
        proof {
            assert(bview(out@) == bv.take(i + 1).filter(pred));
        }
        i += 1;
    }
    proof {
        assert(bv.take(list@.len() as int) =~= bv);
        match limit {
            Option::Some(l) => {
                if l < f.len() {
                    assert(false);
                }
            },
            Option::None => {},
        }
    }
    out
}

/// Append one scheme-rewriting mix to a result.
fn mix_into(
    out: &mut Vec<Entry>,
    list: &Vec<Entry>,
    req: &Vec<Transport>,
    mixed: &Vec<Transport>,
    a: Transport,
    b: Transport,
)
    ensures
        bview(final(out)@) == bview(old(out)@) + mix_rewrite(bview(list@), req@, mixed@, a@, b@),
{
    let ghost base = bview(out@);
    let ghost bv = bview(list@);
    if !(schemes_contain(req, &a) && schemes_contain(mixed, &b)) {
        proof {
            assert(bview(out@) =~= base + mix_rewrite(bv, req@, mixed@, a@, b@));
        }
        return ;
    }
    let ghost predb = |e: EntryV| e.0.scheme == b@;
    let ghost rw = |e: EntryV| rewrite_entry(e, a@);
    let mut i: usize = 0;
    proof {
        assert(bv.take(0).filter(predb) =~= Seq::<EntryV>::empty());
        assert(base + bv.take(0).filter(predb).map_values(rw) =~= base);
    }
    while i < list.len()
        invariant
            0 <= i <= list.len(),
            bv == bview(list@),
            bv.len() == list.len(),
            predb == (|e: EntryV| e.0.scheme == b@),
            rw == (|e: EntryV| rewrite_entry(e, a@)),
            bview(out@) == base + bv.take(i as int).filter(predb).map_values(rw),
        decreases list.len() - i,
    {
        let ghost cur = bview(out@);
        proof {
            assert(bv.take(i + 1) =~= bv.take(i as int).push(bv[i as int]));
            assert(bv[i as int].0.scheme == list@[i as int].0.scheme@);
            lemma_filter_push(bv.take(i as int), bv[i as int], predb);
        }
        if list[i].0.scheme == b {
            let na = with_scheme(&list[i].0, a.clone());
            out.push((na, list[i].1));
            proof {
                assert(bview(out@) =~= cur.push(rw(bv[i as int])));
                assert(bv.take(i + 1).filter(predb).map_values(rw) =~= bv.take(i as int).filter(
                    predb,
                ).map_values(rw).push(rw(bv[i as int])));
            }
        } else {
            proof {
                assert(bv.take(i + 1).filter(predb).map_values(rw) =~= bv.take(i as int).filter(
                    predb,
                ).map_values(rw));
            }
        }
        i += 1;
    }
    proof {
        assert(bv.take(list@.len() as int) =~= bv);
    }
}

/// Append one SOCKS5 mix to a result.
fn smix_into(
    out: &mut Vec<Entry>,
    list: &Vec<Entry>,
    req: &Vec<Transport>,
    mixed: &Vec<Transport>,
    a: &Transport,
    b: &Transport,
    p1: &Option<Addr>,
    p2: &Option<Addr>,
)
    ensures
        bview(final(out)@) == bview(old(out)@) + smix(
            bview(list@),
            req@,
            mixed@,
            a@,
            b@,
            opt_view(*p1),
            opt_view(*p2),
        ),
{
    let ghost base = bview(out@);
    let ghost bv = bview(list@);
    let ghost p1v = opt_view(*p1);
    let ghost p2v = opt_view(*p2);
    if !(schemes_contain(req, a) && schemes_contain(mixed, b)) {
        proof {
            assert(bview(out@) =~= base + smix(bv, req@, mixed@, a@, b@, p1v, p2v));
        }
        return ;
    }
    let ghost predb = |e: EntryV| e.0.scheme == b@;
    let mut i: usize = 0;
    proof {
        assert(bv.take(0).filter(predb) =~= Seq::<EntryV>::empty());
        assert(base + smix_list(bv.take(0).filter(predb), a@, p1v, p2v) =~= base);
    }
    while i < list.len()
        invariant
            0 <= i <= list.len(),
            bv == bview(list@),
            bv.len() == list.len(),
            predb == (|e: EntryV| e.0.scheme == b@),
            p1v == opt_view(*p1),
            p2v == opt_view(*p2),
            bview(out@) == base + smix_list(bv.take(i as int).filter(predb), a@, p1v, p2v),
        decreases list.len() - i,
    {
        let ghost cur = bview(out@);
        let ghost fcur = bv.take(i as int).filter(predb);
        proof {
            assert(bv.take(i + 1) =~= bv.take(i as int).push(bv[i as int]));
            assert(bv[i as int].0.scheme == list@[i as int].0.scheme@);
            lemma_filter_push(bv.take(i as int), bv[i as int], predb);
        }
        if list[i].0.scheme == *b {
            proof {
                lemma_smix_push(fcur, bv[i as int], a@, p1v, p2v);
            }
            let path = crate::codec::hostport_string(&list[i].0);
            match p1 {
                Option::Some(p) => {
                    let host = match &p.host {
                        Option::Some(h) => Option::Some(h.clone()),
                        Option::None => Option::None,
                    };
                    let target = Addr { scheme: a.clone(), host, port: p.port, path: path.clone() };
                    proof {
                        assert(target@ == socks5_target(p1v->Some_0, a@, bv[i as int]).0);
                    }
                    out.push((target, list[i].1));
                },
                Option::None => {},
            }
            match p2 {
                Option::Some(p) => {
                    let host = match &p.host {
                        Option::Some(h) => Option::Some(h.clone()),
                        Option::None => Option::None,
                    };
                    let target = Addr { scheme: a.clone(), host, port: p.port, path };
                    proof {
                        assert(target@ == socks5_target(p2v->Some_0, a@, bv[i as int]).0);
                    }
                    out.push((target, list[i].1));
                },
                Option::None => {},
            }
            proof {
                assert(bview(out@) =~= cur + smix_entry(bv[i as int], a@, p1v, p2v));
                assert(bview(out@) =~= base + smix_list(bv.take(i + 1).filter(predb), a@, p1v, p2v));
            }
        } else {
            proof {
                assert(bv.take(i + 1).filter(predb) == fcur);
            }
        }
        i += 1;
    }
    proof {
        assert(bv.take(list@.len() as int) =~= bv);
    }
}

/// Append the direct entries of a fetch to a result.
fn direct_into(out: &mut Vec<Entry>, list: &Vec<Entry>, req: &Vec<Transport>, mixed: &Vec<Transport>)
    ensures
        bview(final(out)@) == bview(old(out)@) + direct_fetch(bview(list@), req@, mixed@),
{
    let ghost base = bview(out@);
    let ghost bv = bview(list@);
    let ghost pred = |e: EntryV| scheme_in(req@, e.0.scheme) && !scheme_in(mixed@, e.0.scheme);
    let mut i: usize = 0;
    proof {
        assert(bv.take(0).filter(pred) =~= Seq::<EntryV>::empty());
        assert(base + bv.take(0).filter(pred) =~= base);
    }
    while i < list.len()
        invariant
            0 <= i <= list.len(),
            bv == bview(list@),
            bv.len() == list.len(),
            pred == (|e: EntryV|
                scheme_in(req@, e.0.scheme) && !scheme_in(mixed@, e.0.scheme)),
            bview(out@) == base + bv.take(i as int).filter(pred),
        decreases list.len() - i,
    {
        let ghost cur = bview(out@);
        proof {
            assert(bv.take(i + 1) =~= bv.take(i as int).push(bv[i as int]));
            assert(bv[i as int].0.scheme == list@[i as int].0.scheme@);
            lemma_filter_push(bv.take(i as int), bv[i as int], pred);
        }
        let keep = schemes_contain(req, &list[i].0.scheme) && !schemes_contain(
            mixed,
            &list[i].0.scheme,
        );
        proof {
            assert(pred(bv[i as int]) == keep);
        }
        if keep {
            let e = (list[i].0.clone(), list[i].1);
            proof {
                assert(eview(e) == bv[i as int]);
            }
            out.push(e);
            proof {
                assert(bview(out@) =~= cur.push(bv[i as int]));
            }
        }
        i += 1;
    }
    proof {
        assert(bv.take(list@.len() as int) =~= bv);
    }
}

impl HostContainer {
    /// The list behind a book.
    fn books_ref(&self, color: usize) -> (r: &Vec<Entry>)
        requires
            color < 5,
        ensures
            bview(r@) == self.books(color as int),
    {
        match color {
            0 => &self.grey,
            1 => &self.white,
            2 => &self.gold,
            3 => &self.black,
            _ => &self.dark,
        }
    }

    /// Up to `limit` entries whose scheme is one of `schemes`, in book order;
    /// all of them without a limit.
    pub fn fetch_with_schemes(
        &self,
        color: usize,
        schemes: &Vec<Transport>,
        limit: Option<usize>,
    ) -> (r: Vec<Entry>)
        requires
            color < 5,
        ensures
            bview(r@) == limited(with_schemes(self.books(color as int), schemes@), limit),
    {
        filter_schemes(self.books_ref(color), schemes, limit, true)
    }

    /// Up to `limit` entries whose scheme is not one of `schemes`, in book
    /// order; all of them without a limit.
    pub fn fetch_excluding_schemes(
        &self,
        color: usize,
        schemes: &Vec<Transport>,
        limit: Option<usize>,
    ) -> (r: Vec<Entry>)
        requires
            color < 5,
        ensures
            bview(r@) == limited(excluding_schemes(self.books(color as int), schemes@), limit),
    {
        filter_schemes(self.books_ref(color), schemes, limit, false)
    }

    /// The candidate set for an outbound session: requested transports,
    /// with the mixed ones reached through Tor, Nym or a SOCKS5 proxy and
    /// never directly.
    pub fn fetch(
        &self,
        color: HostColor,
        transports: &Vec<Transport>,
        mixed_transports: &Vec<Transport>,
        tor_socks5_proxy: Option<Addr>,
        nym_socks5_proxy: Option<Addr>,
    ) -> (r: Vec<Entry>)
        ensures
            bview(r@) == fetch_model(
                self.book(color),
                transports@,
                mixed_transports@,
                opt_view(tor_socks5_proxy),
                opt_view(nym_socks5_proxy),
            ),
    {
        let list = self.books_ref(color.index());
        let none: Option<Addr> = None;
        let mut hosts: Vec<Entry> = Vec::new();
        mix_into(&mut hosts, list, transports, mixed_transports, Transport::Tor, Transport::Tcp);
        mix_into(
            &mut hosts,
            list,
            transports,
            mixed_transports,
            Transport::TorTls,
            Transport::TcpTls,
        );
        mix_into(&mut hosts, list, transports, mixed_transports, Transport::Nym, Transport::Tcp);
        mix_into(
            &mut hosts,
            list,
            transports,
            mixed_transports,
            Transport::NymTls,
            Transport::TcpTls,
        );
        smix_into(
            &mut hosts,
            list,
            transports,
            mixed_transports,
            &Transport::Socks5,
            &Transport::Tcp,
            &tor_socks5_proxy,
            &nym_socks5_proxy,
        );
        smix_into(
            &mut hosts,
            list,
            transports,
            mixed_transports,
            &Transport::Socks5Tls,
            &Transport::TcpTls,
            &tor_socks5_proxy,
            &nym_socks5_proxy,
        );
        smix_into(
            &mut hosts,
            list,
            transports,
            mixed_transports,
            &Transport::Socks5,
            &Transport::Tor,
            &tor_socks5_proxy,
            &none,
        );
        smix_into(
            &mut hosts,
            list,
            transports,
            mixed_transports,
            &Transport::Socks5Tls,
            &Transport::TorTls,
            &tor_socks5_proxy,
            &none,
        );
        direct_into(&mut hosts, list, transports, mixed_transports);
        proof {
            assert(bview(hosts@) =~= fetch_model(
                self.book(color),
                transports@,
                mixed_transports@,
                opt_view(tor_socks5_proxy),
                opt_view(nym_socks5_proxy),
            ));
        }
        hosts
    }
}

/// Law: transport mixing is exclusive. When `tcp` is a mixed transport, no
/// entry of a fetch carries the `tcp` scheme, and likewise for `tcp+tls`:
/// a transport chosen for mixing is never dialled directly.
pub proof fn lemma_fetch_mix_exclusive(
    book: Seq<EntryV>,
    req: Seq<Transport>,
    mixed: Seq<Transport>,
    torp: Option<AddrV>,
    nymp: Option<AddrV>,
)
    ensures
        scheme_in(mixed, TransportV::Tcp) ==> forall|i: int|
            0 <= i < fetch_model(book, req, mixed, torp, nymp).len() ==> (#[trigger] fetch_model(
                book,
                req,
                mixed,
                torp,
                nymp,
            )[i]).0.scheme != TransportV::Tcp,
        scheme_in(mixed, TransportV::TcpTls) ==> forall|i: int|
            0 <= i < fetch_model(book, req, mixed, torp, nymp).len() ==> (#[trigger] fetch_model(
                book,
                req,
                mixed,
                torp,
                nymp,
            )[i]).0.scheme != TransportV::TcpTls,
{
    let whole = fetch_model(book, req, mixed, torp, nymp);
    if scheme_in(mixed, TransportV::Tcp) {
        assert forall|i: int| 0 <= i < whole.len() implies (#[trigger] whole[i]).0.scheme
            != TransportV::Tcp by {
            lemma_fetch_model_schemes(book, req, mixed, torp, nymp, i);
        }
    }
    if scheme_in(mixed, TransportV::TcpTls) {
        assert forall|i: int| 0 <= i < whole.len() implies (#[trigger] whole[i]).0.scheme
            != TransportV::TcpTls by {
            lemma_fetch_model_schemes(book, req, mixed, torp, nymp, i);
        }
    }
}

/// Every entry of a fetch either carries a mixing scheme (tor, nym or
/// socks5, plain or TLS) or is a direct entry whose scheme is not mixed.
proof fn lemma_fetch_model_schemes(
    book: Seq<EntryV>,
    req: Seq<Transport>,
    mixed: Seq<Transport>,
    torp: Option<AddrV>,
    nymp: Option<AddrV>,
    i: int,
)
    requires
        0 <= i < fetch_model(book, req, mixed, torp, nymp).len(),
    ensures
        ({
            let s = fetch_model(book, req, mixed, torp, nymp)[i].0.scheme;
            s == TransportV::Tor || s == TransportV::TorTls || s == TransportV::Nym || s
                == TransportV::NymTls || s == TransportV::Socks5 || s == TransportV::Socks5Tls
                || !scheme_in(mixed, s)
        }),
{
    let m1 = mix_rewrite(book, req, mixed, TransportV::Tor, TransportV::Tcp);
    let m2 = mix_rewrite(book, req, mixed, TransportV::TorTls, TransportV::TcpTls);
    let m3 = mix_rewrite(book, req, mixed, TransportV::Nym, TransportV::Tcp);
    let m4 = mix_rewrite(book, req, mixed, TransportV::NymTls, TransportV::TcpTls);
    let s1 = smix(book, req, mixed, TransportV::Socks5, TransportV::Tcp, torp, nymp);
    let s2 = smix(book, req, mixed, TransportV::Socks5Tls, TransportV::TcpTls, torp, nymp);
    let s3 = smix(book, req, mixed, TransportV::Socks5, TransportV::Tor, torp, Option::None);
    let s4 = smix(book, req, mixed, TransportV::Socks5Tls, TransportV::TorTls, torp, Option::None);
    let d = direct_fetch(book, req, mixed);
    lemma_mix_rewrite_schemes(book, req, mixed, TransportV::Tor, TransportV::Tcp);
    lemma_mix_rewrite_schemes(book, req, mixed, TransportV::TorTls, TransportV::TcpTls);
    lemma_mix_rewrite_schemes(book, req, mixed, TransportV::Nym, TransportV::Tcp);
    lemma_mix_rewrite_schemes(book, req, mixed, TransportV::NymTls, TransportV::TcpTls);
    lemma_smix_schemes(book, req, mixed, TransportV::Socks5, TransportV::Tcp, torp, nymp);
    lemma_smix_schemes(book, req, mixed, TransportV::Socks5Tls, TransportV::TcpTls, torp, nymp);
    lemma_smix_schemes(book, req, mixed, TransportV::Socks5, TransportV::Tor, torp, Option::None);
    lemma_smix_schemes(
        book,
        req,
        mixed,
        TransportV::Socks5Tls,
        TransportV::TorTls,
        torp,
        Option::None,
    );
    broadcast use vstd::seq_lib::group_filter_ensures;

    let whole = fetch_model(book, req, mixed, torp, nymp);
    let front8 = m1 + m2 + m3 + m4 + s1 + s2 + s3 + s4;
    assert(whole == front8 + d);
    if i < front8.len() {
    } else {
        let pred = |e: EntryV| scheme_in(req, e.0.scheme) && !scheme_in(mixed, e.0.scheme);
        assert(d[i - front8.len()] == book.filter(pred)[i - front8.len()]);
        assert(pred(book.filter(pred)[i - front8.len()]));
    }
}

/// Every entry of a scheme-rewriting mix carries the requested scheme.
proof fn lemma_mix_rewrite_schemes(
    book: Seq<EntryV>,
    req: Seq<Transport>,
    mixed: Seq<Transport>,
    a: TransportV,
    b: TransportV,
)
    ensures
        forall|i: int|
            0 <= i < mix_rewrite(book, req, mixed, a, b).len() ==> (#[trigger] mix_rewrite(
                book,
                req,
                mixed,
                a,
                b,
            )[i]).0.scheme == a,
{
}

/// Every entry of a SOCKS5 mix carries the requested scheme.
proof fn lemma_smix_schemes(
    book: Seq<EntryV>,
    req: Seq<Transport>,
    mixed: Seq<Transport>,
    a: TransportV,
    b: TransportV,
    p1: Option<AddrV>,
    p2: Option<AddrV>,
)
    ensures
        forall|i: int|
            0 <= i < smix(book, req, mixed, a, b, p1, p2).len() ==> (#[trigger] smix(
                book,
                req,
                mixed,
                a,
                b,
                p1,
                p2,
            )[i]).0.scheme == a,
{
    if scheme_in(req, a) && scheme_in(mixed, b) {
        lemma_smix_list_schemes(book.filter(|e: EntryV| e.0.scheme == b), a, p1, p2);
    }
}

proof fn lemma_smix_list_schemes(
    entries: Seq<EntryV>,
    a: TransportV,
    p1: Option<AddrV>,
    p2: Option<AddrV>,
)
    ensures
        forall|i: int|
            0 <= i < smix_list(entries, a, p1, p2).len() ==> (#[trigger] smix_list(
                entries,
                a,
                p1,
                p2,
            )[i]).0.scheme == a,
    decreases entries.len(),
{
    if entries.len() > 0 {
        lemma_smix_list_schemes(entries.drop_first(), a, p1, p2);
    }
}

impl HostContainer {
    /// A uniformly random entry matching the given schemes, with its position
    /// in the scheme-filtered view of the book.
    pub fn fetch_random_with_schemes(&self, color: HostColor, schemes: &Vec<Transport>) -> (r:
        Option<(Entry, usize)>)
        ensures
            ({
                let f = with_schemes(self.book(color), schemes@);
                match r {
                    Option::None => f.len() == 0,
                    Option::Some((e, pos)) => pos < f.len() && eview(e) == f[pos as int],
                }
            }),
    {
        let list = self.fetch_with_schemes(color.index(), schemes, None);
        if list.len() == 0 {
            return None;
        }
        let position = crate::trusted::random_index(list.len());
        let e = (list[position].0.clone(), list[position].1);
        Some((e, position))
    }

    /// Up to `n` entries of a book, sampled without replacement; schemes are
    /// not taken into account.
    pub fn fetch_n_random(&self, color: HostColor, n: u32) -> (r: Vec<Entry>)
        ensures
            bview(r@).to_multiset().subset_of(self.book(color).to_multiset()),
            r@.len() == (if n as int <= self.book(color).len() {
                n as int
            } else {
                self.book(color).len() as int
            }),
    {
        broadcast use vstd::multiset::group_multiset_axioms;

        if n == 0 {
            let r: Vec<Entry> = Vec::new();
            proof {
                broadcast use vstd::seq_lib::group_to_multiset_ensures;

                assert(bview(r@) =~= Seq::<EntryV>::empty());
                assert forall|e: EntryV|
                    bview(r@).to_multiset().count(e) == 0 by {
                    assert(!bview(r@).contains(e));
                }
            }
            return r;
        }
        let hosts = self.fetch_all(color);
        crate::trusted::random_sample(&hosts, n as usize)
    }

    /// Up to `n` entries matching the given schemes, sampled without
    /// replacement.
    pub fn fetch_n_random_with_schemes(&self, color: HostColor, schemes: &Vec<Transport>, n: u32)
        -> (r: Vec<Entry>)
        ensures
            ({
                let f = with_schemes(self.book(color), schemes@);
                bview(r@).to_multiset().subset_of(f.to_multiset()) && r@.len() == (if n as int <= f.len() {
                    n as int
                } else {
                    f.len() as int
                })
            }),
    {
        broadcast use vstd::multiset::group_multiset_axioms;

        if n == 0 {
            let r: Vec<Entry> = Vec::new();
            proof {
                broadcast use vstd::seq_lib::group_to_multiset_ensures;

                assert(bview(r@) =~= Seq::<EntryV>::empty());
                assert forall|e: EntryV|
                    bview(r@).to_multiset().count(e) == 0 by {
                    assert(!bview(r@).contains(e));
                }
            }
            return r;
        }
        let hosts = self.fetch_with_schemes(color.index(), schemes, None);
        crate::trusted::random_sample(&hosts, n as usize)
    }

    /// Up to `n` entries not matching the given schemes, sampled without
    /// replacement.
    pub fn fetch_n_random_excluding_schemes(
        &self,
        color: HostColor,
        schemes: &Vec<Transport>,
        n: u32,
    ) -> (r: Vec<Entry>)
        ensures
            ({
                let f = excluding_schemes(self.book(color), schemes@);
                bview(r@).to_multiset().subset_of(f.to_multiset()) && r@.len() == (if n as int <= f.len() {
                    n as int
                } else {
                    f.len() as int
                })
            }),
    {
        broadcast use vstd::multiset::group_multiset_axioms;

        if n == 0 {
            let r: Vec<Entry> = Vec::new();
            proof {
                broadcast use vstd::seq_lib::group_to_multiset_ensures;

                assert(bview(r@) =~= Seq::<EntryV>::empty());
                assert forall|e: EntryV|
                    bview(r@).to_multiset().count(e) == 0 by {
                    assert(!bview(r@).contains(e));
                }
            }
            return r;
        }
        let hosts = self.fetch_excluding_schemes(color.index(), schemes, None);
        crate::trusted::random_sample(&hosts, n as usize)
    }
}

} // verus!
