//! The laws of the books, proved once and for all: size caps are never
//! exceeded, the Grey, White and Gold books stay pairwise disjoint, every
//! write leaves a book sorted, and the Dark sweep removes exactly the stale
//! entries.

use vstd::prelude::*;
use vstd::multiset::Multiset;
use crate::addr::AddrV;
use crate::container::{
    cap_value, contains_addr, find_addr, has_cap, lemma_find_addr, lemma_sort_desc, remove_addr,
    sort_desc, sorted_desc, swept, upsert, EntryV, HostColor,
};
use crate::hosts::{dark_fold, dark_step, ins_fold, settle_book, Hosts, SlotV};
use crate::codec::{
    dump_text, load_books, load_capped, load_plain, save_records, spec_parse_records, tagged,
    wf_rec, RecV,
};
use vstd::seq_lib::group_to_multiset_ensures;

verus! {

/// No two entries of a book name the same address.
pub open spec fn unique_addrs(book: Seq<EntryV>) -> bool {
    forall|i: int, j: int|
        0 <= i < j < book.len() ==> (#[trigger] book[i]).0 != (#[trigger] book[j]).0
}

/// The Grey, White and Gold books hold no address in common.
pub open spec fn gwg_disjoint(g: Seq<EntryV>, w: Seq<EntryV>, go: Seq<EntryV>) -> bool {
    &&& forall|x: AddrV| !(#[trigger] contains_addr(g, x) && #[trigger] contains_addr(w, x))
    &&& forall|x: AddrV| !(#[trigger] contains_addr(g, x) && #[trigger] contains_addr(go, x))
    &&& forall|x: AddrV| !(#[trigger] contains_addr(w, x) && #[trigger] contains_addr(go, x))
}

// ---------------------------------------------------------------------------
// Membership under the book operations
// ---------------------------------------------------------------------------

/// An upsert adds exactly the upserted address.
pub proof fn lemma_upsert_addrs(book: Seq<EntryV>, a: AddrV, ls: u64, x: AddrV)
    ensures
        contains_addr(upsert(book, a, ls), x) == (contains_addr(book, x) || x == a),
{
    lemma_find_addr(book, a);
    let i = find_addr(book, a);
    let u = upsert(book, a, ls);
    if i == -1 {
        assert(forall|j: int| 0 <= j < book.len() ==> u[j] == book[j]);
        assert(u[book.len() as int].0 == a);
        if contains_addr(u, x) {
            let j = choose|j: int| 0 <= j < u.len() && (#[trigger] u[j]).0 == x;
            if j < book.len() {
                assert(book[j].0 == x);
            }
        }
        if contains_addr(book, x) {
            let j = choose|j: int| 0 <= j < book.len() && (#[trigger] book[j]).0 == x;
            assert(u[j].0 == x);
        }
    } else {
        assert(book[i].0 == a);
        assert(u[i].0 == a);
        assert(forall|j: int| 0 <= j < book.len() && j != i ==> u[j] == book[j]);
        if contains_addr(u, x) {
            let j = choose|j: int| 0 <= j < u.len() && (#[trigger] u[j]).0 == x;
            if j != i {
                assert(book[j].0 == x);
            }
        }
        if contains_addr(book, x) {
            let j = choose|j: int| 0 <= j < book.len() && (#[trigger] book[j]).0 == x;
            if j != i {
                assert(u[j].0 == x);
            } else {
                assert(u[i].0 == x);
            }
        }
    }
}

/// Sorting keeps exactly the same addresses.
pub proof fn lemma_sort_addrs(book: Seq<EntryV>, x: AddrV)
    ensures
        contains_addr(sort_desc(book), x) == contains_addr(book, x),
{
    broadcast use group_to_multiset_ensures;

    lemma_sort_desc(book);
    let t = sort_desc(book);
    if contains_addr(book, x) {
        let j = choose|j: int| 0 <= j < book.len() && (#[trigger] book[j]).0 == x;
        let e = book[j];
        assert(book.contains(e));
        assert(book.to_multiset().count(e) > 0);
        assert(t.contains(e));
        let k = choose|k: int| 0 <= k < t.len() && t[k] == e;
        assert(t[k].0 == x);
    }
    if contains_addr(t, x) {
        let j = choose|j: int| 0 <= j < t.len() && (#[trigger] t[j]).0 == x;
        let e = t[j];
        assert(t.contains(e));
        assert(t.to_multiset().count(e) > 0);
        assert(book.contains(e));
        let k = choose|k: int| 0 <= k < book.len() && book[k] == e;
        assert(book[k].0 == x);
    }
}

/// Dropping the last entry adds no address.
pub proof fn lemma_drop_last_addrs(book: Seq<EntryV>, x: AddrV)
    requires
        book.len() > 0,
        contains_addr(book.drop_last(), x),
    ensures
        contains_addr(book, x),
{
    let j = choose|j: int| 0 <= j < book.drop_last().len() && (#[trigger] book.drop_last()[j]).0 == x;
    assert(book[j].0 == x);
}

/// A sweep adds no address.
pub proof fn lemma_swept_addrs(book: Seq<EntryV>, max_age: u64, now: u64, x: AddrV)
    requires
        contains_addr(swept(book, max_age, now), x),
    ensures
        contains_addr(book, x),
{
    broadcast use group_to_multiset_ensures;

    let f = swept(book, max_age, now);
    let j = choose|j: int| 0 <= j < f.len() && (#[trigger] f[j]).0 == x;
    let e = f[j];
    assert(f.contains(e));
    lemma_filter_sub(book, |e2: EntryV| e2.1 > now || now - e2.1 <= max_age, e);
    let k = choose|k: int| 0 <= k < book.len() && book[k] == e;
    assert(book[k].0 == x);
}

/// Everything a filter keeps was in the book.
pub proof fn lemma_filter_sub(book: Seq<EntryV>, pred: spec_fn(EntryV) -> bool, e: EntryV)
    requires
        book.filter(pred).contains(e),
    ensures
        book.contains(e),
    decreases book.len(),
{
    reveal(Seq::filter);
    if book.len() > 0 {
        if book.filter(pred) == book.drop_last().filter(pred) {
            lemma_filter_sub(book.drop_last(), pred, e);
            let k = choose|k: int| 0 <= k < book.drop_last().len() && book.drop_last()[k] == e;
            assert(book[k] == e);
        } else {
            let f = book.filter(pred);
            let fd = book.drop_last().filter(pred);
            assert(f == fd.push(book.last()));
            let j = choose|j: int| 0 <= j < f.len() && f[j] == e;
            if j < fd.len() {
                assert(fd[j] == e);
                lemma_filter_sub(book.drop_last(), pred, e);
                let k = choose|k: int| 0 <= k < book.drop_last().len() && book.drop_last()[k] == e;
                assert(book[k] == e);
            } else {
                assert(e == book.last());
            }
        }
    }
}

/// A settle adds exactly the settled address.
pub proof fn lemma_settle_addrs(book: Seq<EntryV>, a: AddrV, ls: u64, color: HostColor, x: AddrV)
    requires
        contains_addr(settle_book(book, a, ls, color), x),
    ensures
        contains_addr(book, x) || x == a,
{
    let u = upsert(book, a, ls);
    let t = sort_desc(u);
    lemma_sort_desc(u);
    if has_cap(color) && t.len() == cap_value(color) {
        lemma_drop_last_addrs(t, x);
    }
    lemma_sort_addrs(u, x);
    lemma_upsert_addrs(book, a, ls, x);
}

/// A removal adds no address, and under unique addresses it removes its
/// address for good.
pub proof fn lemma_remove_addrs(book: Seq<EntryV>, a: AddrV, x: AddrV)
    ensures
        contains_addr(remove_addr(book, a), x) ==> contains_addr(book, x),
        unique_addrs(book) ==> !contains_addr(remove_addr(book, a), a),
{
    lemma_find_addr(book, a);
    let i = find_addr(book, a);
    let r = remove_addr(book, a);
    if i >= 0 {
        assert(forall|j: int| 0 <= j < i ==> r[j] == book[j]);
        assert(forall|j: int| i <= j < r.len() ==> r[j] == book[j + 1]);
        if contains_addr(r, x) {
            let j = choose|j: int| 0 <= j < r.len() && (#[trigger] r[j]).0 == x;
            if j < i {
                assert(book[j].0 == x);
            } else {
                assert(book[j + 1].0 == x);
            }
        }
        if unique_addrs(book) && contains_addr(r, a) {
            let j = choose|j: int| 0 <= j < r.len() && (#[trigger] r[j]).0 == a;
            if j < i {
                assert(book[j].0 == a && book[i].0 == a);
            } else {
                assert(book[j + 1].0 == a && book[i].0 == a);
            }
        }
    } else {
        if unique_addrs(book) && contains_addr(r, a) {
            assert(contains_addr(book, a));
        }
    }
}

// ---------------------------------------------------------------------------
// Law: size caps are never exceeded
// ---------------------------------------------------------------------------

/// An upsert grows a book by at most one entry.
pub proof fn lemma_upsert_len(book: Seq<EntryV>, a: AddrV, ls: u64)
    ensures
        upsert(book, a, ls).len() <= book.len() + 1,
{
    lemma_find_addr(book, a);
}

/// One settled write keeps a capped book under its cap.
pub proof fn lemma_settle_cap(book: Seq<EntryV>, a: AddrV, ls: u64, color: HostColor)
    requires
        has_cap(color),
        book.len() < cap_value(color),
    ensures
        settle_book(book, a, ls, color).len() < cap_value(color),
{
    lemma_upsert_len(book, a, ls);
    lemma_sort_desc(upsert(book, a, ls));
}

/// Law: however many addresses an insert batch writes, a capped book stays
/// under its cap.
pub proof fn lemma_ins_fold_cap(
    book: Seq<EntryV>,
    reg: Seq<SlotV>,
    entries: Seq<EntryV>,
    color: HostColor,
    now: u64,
)
    requires
        has_cap(color),
        book.len() < cap_value(color),
    ensures
        ins_fold(book, reg, entries, color, now).0.len() < cap_value(color),
    decreases entries.len(),
{
    if entries.len() > 0 {
        let e = entries[0];
        if crate::state::transition_allowed(
            crate::hosts::reg_state(reg, e.0),
            crate::StateKind::Insert,
        ) {
            lemma_settle_cap(book, e.0, e.1, color);
            lemma_ins_fold_cap(
                settle_book(book, e.0, e.1, color),
                crate::hosts::reg_write(
                    crate::hosts::reg_write(reg, e.0, crate::state::HostStateV::Insert),
                    e.0,
                    crate::state::HostStateV::Free(now),
                ),
                entries.drop_first(),
                color,
                now,
            );
        } else {
            lemma_ins_fold_cap(book, reg, entries.drop_first(), color, now);
        }
    }
}

/// Law: the filter's Dark writes keep the Dark book under its cap.
pub proof fn lemma_dark_fold_cap(book: Seq<EntryV>, h: Hosts, entries: Seq<EntryV>, now: u64)
    requires
        book.len() < 1000,
    ensures
        dark_fold(book, h, entries, now).len() < 1000,
    decreases entries.len(),
{
    broadcast use vstd::seq_lib::group_filter_ensures;

    if entries.len() > 0 {
        let e = entries[0];
        if crate::hosts::darkens(h, e) {
            lemma_settle_cap(book, e.0, e.1, HostColor::Dark);
            lemma_dark_fold_cap(dark_step(book, e, now), h, entries.drop_first(), now);
        } else {
            lemma_dark_fold_cap(book, h, entries.drop_first(), now);
        }
    }
}

// ---------------------------------------------------------------------------
// Law: every write leaves the book sorted by last_seen, descending
// ---------------------------------------------------------------------------

/// A settled write leaves the book sorted.
pub proof fn lemma_settle_sorted(book: Seq<EntryV>, a: AddrV, ls: u64, color: HostColor)
    ensures
        sorted_desc(settle_book(book, a, ls, color)),
{
    let t = sort_desc(upsert(book, a, ls));
    lemma_sort_desc(upsert(book, a, ls));
    if has_cap(color) && t.len() == cap_value(color) {
        assert(forall|i: int, j: int|
            0 <= i < j < t.drop_last().len() ==> (#[trigger] t.drop_last()[i]).1 >= (
            #[trigger] t.drop_last()[j]).1);
    }
}

/// A removal leaves a sorted book sorted.
pub proof fn lemma_remove_sorted(book: Seq<EntryV>, a: AddrV)
    requires
        sorted_desc(book),
    ensures
        sorted_desc(remove_addr(book, a)),
{
    lemma_find_addr(book, a);
    let i = find_addr(book, a);
    if i >= 0 {
        let r = book.remove(i);
        assert forall|x: int, y: int| 0 <= x < y < r.len() implies (#[trigger] r[x]).1 >= (
        #[trigger] r[y]).1 by {
            let xb = if x < i {
                x
            } else {
                x + 1
            };
            let yb = if y < i {
                y
            } else {
                y + 1
            };
            assert(r[x] == book[xb]);
            assert(r[y] == book[yb]);
        }
    }
}

/// A sweep leaves a sorted book sorted.
pub proof fn lemma_swept_sorted(book: Seq<EntryV>, max_age: u64, now: u64)
    requires
        sorted_desc(book),
    ensures
        sorted_desc(swept(book, max_age, now)),
{
    lemma_filter_sorted(book, |e: EntryV| e.1 > now || now - e.1 <= max_age);
}

/// Filtering keeps a sorted book sorted.
pub proof fn lemma_filter_sorted(book: Seq<EntryV>, pred: spec_fn(EntryV) -> bool)
    requires
        sorted_desc(book),
    ensures
        sorted_desc(book.filter(pred)),
    decreases book.len(),
{
    reveal(Seq::filter);
    if book.len() > 0 {
        let d = book.drop_last();
        assert(forall|i: int| 0 <= i < d.len() ==> d[i] == book[i]);
        lemma_filter_sorted(d, pred);
        if pred(book.last()) {
            let f = book.filter(pred);
            let fd = d.filter(pred);
            assert(f == fd.push(book.last()));
            assert forall|x: int, y: int| 0 <= x < y < f.len() implies (#[trigger] f[x]).1 >= (
            #[trigger] f[y]).1 by {
                if y < fd.len() {
                    assert(f[x] == fd[x] && f[y] == fd[y]);
                } else {
                    assert(f[y] == book.last());
                    if x < fd.len() {
                        assert(f[x] == fd[x]);
                        assert(fd.contains(fd[x]));
                        lemma_filter_sub(d, pred, fd[x]);
                        let k = choose|k: int| 0 <= k < d.len() && d[k] == fd[x];
                        assert(book[k] == fd[x]);
                        assert(book[k].1 >= book.last().1);
                    }
                }
            }
        }
    }
}

/// Law: an insert batch leaves the book sorted.
pub proof fn lemma_ins_fold_sorted(
    book: Seq<EntryV>,
    reg: Seq<SlotV>,
    entries: Seq<EntryV>,
    color: HostColor,
    now: u64,
)
    requires
        sorted_desc(book),
    ensures
        sorted_desc(ins_fold(book, reg, entries, color, now).0),
    decreases entries.len(),
{
    if entries.len() > 0 {
        let e = entries[0];
        if crate::state::transition_allowed(
            crate::hosts::reg_state(reg, e.0),
            crate::StateKind::Insert,
        ) {
            lemma_settle_sorted(book, e.0, e.1, color);
            lemma_ins_fold_sorted(
                settle_book(book, e.0, e.1, color),
                crate::hosts::reg_write(
                    crate::hosts::reg_write(reg, e.0, crate::state::HostStateV::Insert),
                    e.0,
                    crate::state::HostStateV::Free(now),
                ),
                entries.drop_first(),
                color,
                now,
            );
        } else {
            lemma_ins_fold_sorted(book, reg, entries.drop_first(), color, now);
        }
    }
}

// ---------------------------------------------------------------------------
// Law: the Dark sweep removes exactly the stale entries
// ---------------------------------------------------------------------------

/// After a sweep no entry is both older than the maximum age and stamped in
/// the past; everything younger or stamped in the future stays, in order.
pub proof fn lemma_swept_prunes(book: Seq<EntryV>, max_age: u64, now: u64)
    ensures
        forall|i: int|
            0 <= i < swept(book, max_age, now).len() ==> !((#[trigger] swept(
                book,
                max_age,
                now,
            )[i]).1 <= now && now - swept(book, max_age, now)[i].1 > max_age),
        forall|i: int|
            0 <= i < book.len() && ((#[trigger] book[i]).1 > now || now - book[i].1 <= max_age)
                ==> swept(book, max_age, now).contains(book[i]),
{
    broadcast use vstd::seq_lib::group_filter_ensures;

}

// ---------------------------------------------------------------------------
// Law: Grey, White and Gold stay pairwise disjoint
// ---------------------------------------------------------------------------

/// Law: a move to Grey keeps the three books disjoint: the address joins
/// Grey and leaves White and Gold.
pub proof fn lemma_move_grey_disjoint(
    g: Seq<EntryV>,
    w: Seq<EntryV>,
    go: Seq<EntryV>,
    a: AddrV,
    ls: u64,
)
    requires
        gwg_disjoint(g, w, go),
        unique_addrs(w),
        unique_addrs(go),
    ensures
        gwg_disjoint(
            settle_book(g, a, ls, HostColor::Grey),
            remove_addr(w, a),
            remove_addr(go, a),
        ),
{
    let g2 = settle_book(g, a, ls, HostColor::Grey);
    let w2 = remove_addr(w, a);
    let go2 = remove_addr(go, a);
    assert forall|x: AddrV| !(#[trigger] contains_addr(g2, x) && #[trigger] contains_addr(
        w2,
        x,
    )) by {
        if contains_addr(g2, x) && contains_addr(w2, x) {
            lemma_settle_addrs(g, a, ls, HostColor::Grey, x);
            lemma_remove_addrs(w, a, x);
        }
    }
    assert forall|x: AddrV| !(#[trigger] contains_addr(g2, x) && #[trigger] contains_addr(
        go2,
        x,
    )) by {
        if contains_addr(g2, x) && contains_addr(go2, x) {
            lemma_settle_addrs(g, a, ls, HostColor::Grey, x);
            lemma_remove_addrs(go, a, x);
        }
    }
    assert forall|x: AddrV| !(#[trigger] contains_addr(w2, x) && #[trigger] contains_addr(
        go2,
        x,
    )) by {
        if contains_addr(w2, x) && contains_addr(go2, x) {
            lemma_remove_addrs(w, a, x);
            lemma_remove_addrs(go, a, x);
        }
    }
}

/// Law: a refinery pass to White keeps the three books disjoint, for any
/// address that is not on Gold. (An address on both Gold and the refinery's
/// hands would end on Gold and White at once: the move to White leaves Gold
/// untouched.)
pub proof fn lemma_move_white_disjoint(
    g: Seq<EntryV>,
    w: Seq<EntryV>,
    go: Seq<EntryV>,
    a: AddrV,
    ls: u64,
)
    requires
        gwg_disjoint(g, w, go),
        unique_addrs(g),
        !contains_addr(go, a),
    ensures
        gwg_disjoint(remove_addr(g, a), settle_book(w, a, ls, HostColor::White), go),
{
    let g2 = remove_addr(g, a);
    let w2 = settle_book(w, a, ls, HostColor::White);
    assert forall|x: AddrV| !(#[trigger] contains_addr(g2, x) && #[trigger] contains_addr(
        w2,
        x,
    )) by {
        if contains_addr(g2, x) && contains_addr(w2, x) {
            lemma_remove_addrs(g, a, x);
            lemma_settle_addrs(w, a, ls, HostColor::White, x);
        }
    }
    assert forall|x: AddrV| !(#[trigger] contains_addr(g2, x) && #[trigger] contains_addr(
        go,
        x,
    )) by {
        if contains_addr(g2, x) && contains_addr(go, x) {
            lemma_remove_addrs(g, a, x);
        }
    }
    assert forall|x: AddrV| !(#[trigger] contains_addr(w2, x) && #[trigger] contains_addr(
        go,
        x,
    )) by {
        if contains_addr(w2, x) && contains_addr(go, x) {
            lemma_settle_addrs(w, a, ls, HostColor::White, x);
        }
    }
}

/// Law: an upgrade to Gold keeps the three books disjoint: the address joins
/// Gold and leaves Grey and White.
pub proof fn lemma_move_gold_disjoint(
    g: Seq<EntryV>,
    w: Seq<EntryV>,
    go: Seq<EntryV>,
    a: AddrV,
    ls: u64,
)
    requires
        gwg_disjoint(g, w, go),
        unique_addrs(g),
        unique_addrs(w),
    ensures
        gwg_disjoint(remove_addr(g, a), remove_addr(w, a), sort_desc(upsert(go, a, ls))),
{
    let g2 = remove_addr(g, a);
    let w2 = remove_addr(w, a);
    let go2 = sort_desc(upsert(go, a, ls));
    assert forall|x: AddrV| !(#[trigger] contains_addr(g2, x) && #[trigger] contains_addr(
        w2,
        x,
    )) by {
        if contains_addr(g2, x) && contains_addr(w2, x) {
            lemma_remove_addrs(g, a, x);
            lemma_remove_addrs(w, a, x);
        }
    }
    assert forall|x: AddrV| !(#[trigger] contains_addr(g2, x) && #[trigger] contains_addr(
        go2,
        x,
    )) by {
        if contains_addr(g2, x) && contains_addr(go2, x) {
            lemma_remove_addrs(g, a, x);
            lemma_sort_addrs(upsert(go, a, ls), x);
            lemma_upsert_addrs(go, a, ls, x);
        }
    }
    assert forall|x: AddrV| !(#[trigger] contains_addr(w2, x) && #[trigger] contains_addr(
        go2,
        x,
    )) by {
        if contains_addr(w2, x) && contains_addr(go2, x) {
            lemma_remove_addrs(w, a, x);
            lemma_sort_addrs(upsert(go, a, ls), x);
            lemma_upsert_addrs(go, a, ls, x);
        }
    }
}

/// Law: an insert batch into one book keeps it disjoint from two others,
/// when none of the batch addresses is on either of them. With the filter's
/// promise that survivors stand in none of Grey, White and Gold, the three
/// books stay pairwise disjoint after an insert.
pub proof fn lemma_ins_fold_disjoint(
    book: Seq<EntryV>,
    reg: Seq<SlotV>,
    entries: Seq<EntryV>,
    color: HostColor,
    now: u64,
    other1: Seq<EntryV>,
    other2: Seq<EntryV>,
)
    requires
        forall|x: AddrV| !(#[trigger] contains_addr(book, x) && #[trigger] contains_addr(
            other1,
            x,
        )),
        forall|x: AddrV| !(#[trigger] contains_addr(book, x) && #[trigger] contains_addr(
            other2,
            x,
        )),
        forall|i: int|
            0 <= i < entries.len() ==> !contains_addr(other1, (#[trigger] entries[i]).0)
                && !contains_addr(other2, entries[i].0),
    ensures
        forall|x: AddrV|
            !(#[trigger] contains_addr(ins_fold(book, reg, entries, color, now).0, x)
                && #[trigger] contains_addr(other1, x)),
        forall|x: AddrV|
            !(#[trigger] contains_addr(ins_fold(book, reg, entries, color, now).0, x)
                && #[trigger] contains_addr(other2, x)),
    decreases entries.len(),
{
    if entries.len() > 0 {
        let e = entries[0];
        assert(forall|i: int|
            0 <= i < entries.drop_first().len() ==> #[trigger] entries.drop_first()[i]
                == entries[i + 1]);
        if crate::state::transition_allowed(
            crate::hosts::reg_state(reg, e.0),
            crate::StateKind::Insert,
        ) {
            let b2 = settle_book(book, e.0, e.1, color);
            assert forall|x: AddrV| !(#[trigger] contains_addr(b2, x) && #[trigger] contains_addr(
                other1,
                x,
            )) by {
                if contains_addr(b2, x) && contains_addr(other1, x) {
                    lemma_settle_addrs(book, e.0, e.1, color, x);
                }
            }
            assert forall|x: AddrV| !(#[trigger] contains_addr(b2, x) && #[trigger] contains_addr(
                other2,
                x,
            )) by {
                if contains_addr(b2, x) && contains_addr(other2, x) {
                    lemma_settle_addrs(book, e.0, e.1, color, x);
                }
            }
            let r2 = crate::hosts::reg_write(
                crate::hosts::reg_write(reg, e.0, crate::state::HostStateV::Insert),
                e.0,
                crate::state::HostStateV::Free(now),
            );
            lemma_ins_fold_disjoint(b2, r2, entries.drop_first(), color, now, other1, other2);
            assert(ins_fold(book, reg, entries, color, now).0 == ins_fold(
                b2,
                r2,
                entries.drop_first(),
                color,
                now,
            ).0);
        } else {
            lemma_ins_fold_disjoint(book, reg, entries.drop_first(), color, now, other1, other2);
            assert(ins_fold(book, reg, entries, color, now).0 == ins_fold(
                book,
                reg,
                entries.drop_first(),
                color,
                now,
            ).0);
        }
    }
}

// ---------------------------------------------------------------------------
// Law: the persistence round trip keeps every entry
// ---------------------------------------------------------------------------

/// An entry is fresh at `now`: younger than a day, or stamped in the future.
pub open spec fn fresh_at(e: EntryV, now: u64) -> bool {
    e.1 > now || now - e.1 <= 86400
}

/// The entries a record list holds for one colour, as a multiset.
pub open spec fn mset_of(recs: Seq<RecV>, c: HostColor) -> Multiset<EntryV>
    decreases recs.len(),
{
    if recs.len() == 0 {
        Multiset::<EntryV>::empty()
    } else {
        let m = mset_of(recs.drop_first(), c);
        if recs[0].0 == c {
            m.insert(recs[0].1)
        } else {
            m
        }
    }
}

/// Record multisets add up over concatenation.
proof fn lemma_mset_concat(a: Seq<RecV>, b: Seq<RecV>, c: HostColor)
    ensures
        mset_of(a + b, c) =~= mset_of(a, c).add(mset_of(b, c)),
    decreases a.len(),
{
    broadcast use vstd::multiset::group_multiset_axioms;

    if a.len() == 0 {
        assert(a + b =~= b);
        assert(mset_of(a, c) == Multiset::<EntryV>::empty());
    } else {
        assert((a + b)[0] == a[0]);
        assert((a + b).drop_first() =~= a.drop_first() + b);
        lemma_mset_concat(a.drop_first(), b, c);
    }
}

/// A tagged book's records hold exactly the book under its own colour, and
/// nothing under any other.
proof fn lemma_mset_tagged(c: HostColor, book: Seq<EntryV>, c2: HostColor)
    ensures
        c2 == c ==> mset_of(tagged(c, book), c2) =~= book.to_multiset(),
        c2 != c ==> mset_of(tagged(c, book), c2) =~= Multiset::<EntryV>::empty(),
    decreases book.len(),
{
    broadcast use group_to_multiset_ensures;
    broadcast use vstd::multiset::group_multiset_axioms;

    let t = tagged(c, book);
    if book.len() == 0 {
        assert(t.len() == 0);
        assert(book.to_multiset().len() == 0);
        assert(book.to_multiset() =~= Multiset::<EntryV>::empty());
    } else {
        assert(t[0] == (c, book[0]));
        assert(t.drop_first() =~= tagged(c, book.drop_first()));
        lemma_mset_tagged(c, book.drop_first(), c2);
        assert(book.to_multiset() =~= book.drop_first().to_multiset().insert(book[0])) by {
            assert(book.drop_first().push(book[0]).to_multiset() =~= book.drop_first(
            ).to_multiset().insert(book[0]));
            vstd::seq_lib::lemma_multiset_commutative(seq![book[0]], book.drop_first());
            assert(book =~= seq![book[0]] + book.drop_first());
            assert(book.drop_first().push(book[0]) =~= book.drop_first() + seq![book[0]]);
            vstd::seq_lib::lemma_multiset_commutative(book.drop_first(), seq![book[0]]);
        }
    }
}

/// Sorting an appended entry adds it to the book's multiset.
proof fn lemma_load_plain_multiset(book: Seq<EntryV>, e: EntryV)
    ensures
        load_plain(book, e).to_multiset() =~= book.to_multiset().insert(e),
        load_plain(book, e).len() == book.len() + 1,
{
    broadcast use group_to_multiset_ensures;

    lemma_sort_desc(book.push(e));
}

/// Under its cap, a capped load adds the entry and trims nothing.
proof fn lemma_load_capped_multiset(book: Seq<EntryV>, e: EntryV, color: HostColor)
    requires
        has_cap(color),
        book.len() + 1 < cap_value(color),
    ensures
        load_capped(book, e, color).to_multiset() =~= book.to_multiset().insert(e),
        load_capped(book, e, color).len() == book.len() + 1,
        load_capped(book, e, color) == sort_desc(book.push(e)),
{
    broadcast use group_to_multiset_ensures;

    lemma_sort_desc(book.push(e));
}

/// Every entry of a sorted append is fresh when the book and the entry are.
proof fn lemma_fresh_load(book: Seq<EntryV>, e: EntryV, now: u64)
    requires
        forall|i: int| 0 <= i < book.len() ==> fresh_at(#[trigger] book[i], now),
        fresh_at(e, now),
    ensures
        forall|i: int|
            0 <= i < sort_desc(book.push(e)).len() ==> fresh_at(
                #[trigger] sort_desc(book.push(e))[i],
                now,
            ),
{
    broadcast use group_to_multiset_ensures;

    let t = sort_desc(book.push(e));
    lemma_sort_desc(book.push(e));
    assert forall|i: int| 0 <= i < t.len() implies fresh_at(#[trigger] t[i], now) by {
        assert(t.contains(t[i]));
        assert(t.to_multiset().count(t[i]) > 0);
        assert(book.push(e).contains(t[i]));
        let k = choose|k: int| 0 <= k < book.push(e).len() && book.push(e)[k] == t[i];
        if k < book.len() {
            assert(book[k] == t[i]);
        }
    }
}

/// Sweeping an all-fresh book keeps it whole.
proof fn lemma_swept_all_fresh(book: Seq<EntryV>, now: u64)
    requires
        forall|i: int| 0 <= i < book.len() ==> fresh_at(#[trigger] book[i], now),
    ensures
        swept(book, 86400, now) == book,
    decreases book.len(),
{
    reveal(Seq::filter);
    if book.len() > 0 {
        let d = book.drop_last();
        assert(forall|i: int| 0 <= i < d.len() ==> d[i] == book[i]);
        lemma_swept_all_fresh(d, now);
        assert(fresh_at(book.last(), now));
        assert(swept(book, 86400, now) =~= book);
    } else {
        assert(swept(book, 86400, now) =~= book);
    }
}

/// Loading a record list adds each record to its book's multiset, as long as
/// the books stay under their caps and every Dark record is fresh.
proof fn lemma_load_books_multiset(
    g: Seq<EntryV>,
    w: Seq<EntryV>,
    go: Seq<EntryV>,
    d: Seq<EntryV>,
    recs: Seq<RecV>,
    now: u64,
)
    requires
        g.len() + mset_of(recs, HostColor::Grey).len() < 2000,
        w.len() + mset_of(recs, HostColor::White).len() < 5000,
        d.len() + mset_of(recs, HostColor::Dark).len() < 1000,
        forall|i: int| 0 <= i < d.len() ==> fresh_at(#[trigger] d[i], now),
        forall|i: int|
            0 <= i < recs.len() && (#[trigger] recs[i]).0 == HostColor::Dark ==> fresh_at(
                recs[i].1,
                now,
            ),
    ensures
        ({
            let out = load_books(g, w, go, d, recs, now);
            &&& out.0.to_multiset() == g.to_multiset().add(mset_of(recs, HostColor::Grey))
            &&& out.1.to_multiset() == w.to_multiset().add(mset_of(recs, HostColor::White))
            &&& out.2.to_multiset() == go.to_multiset().add(mset_of(recs, HostColor::Gold))
            &&& out.3.to_multiset() == d.to_multiset().add(mset_of(recs, HostColor::Dark))
        }),
    decreases recs.len(),
{
    broadcast use group_to_multiset_ensures;
    broadcast use vstd::multiset::group_multiset_axioms;

    if recs.len() == 0 {
        assert(load_books(g, w, go, d, recs, now) == (g, w, go, d));
        assert(g.to_multiset().add(Multiset::<EntryV>::empty()) =~= g.to_multiset());
        assert(w.to_multiset().add(Multiset::<EntryV>::empty()) =~= w.to_multiset());
        assert(go.to_multiset().add(Multiset::<EntryV>::empty()) =~= go.to_multiset());
        assert(d.to_multiset().add(Multiset::<EntryV>::empty()) =~= d.to_multiset());
    } else {
        let r = recs[0];
        let rest = recs.drop_first();
        assert(forall|i: int| 0 <= i < rest.len() ==> #[trigger] rest[i] == recs[i + 1]);
        match r.0 {
            HostColor::Grey => {
                let g2 = load_capped(g, r.1, HostColor::Grey);
                lemma_load_capped_multiset(g, r.1, HostColor::Grey);
                lemma_load_books_multiset(g2, w, go, d, rest, now);
                assert(load_books(g, w, go, d, recs, now) == load_books(g2, w, go, d, rest, now));
                assert(g2.to_multiset().add(mset_of(rest, HostColor::Grey)) =~= g.to_multiset().add(
                    mset_of(recs, HostColor::Grey),
                ));
            },
            HostColor::White => {
                let w2 = load_capped(w, r.1, HostColor::White);
                lemma_load_capped_multiset(w, r.1, HostColor::White);
                lemma_load_books_multiset(g, w2, go, d, rest, now);
                assert(load_books(g, w, go, d, recs, now) == load_books(g, w2, go, d, rest, now));
                assert(w2.to_multiset().add(mset_of(rest, HostColor::White)) =~= w.to_multiset(
                ).add(mset_of(recs, HostColor::White)));
            },
            HostColor::Gold => {
                let go2 = load_plain(go, r.1);
                lemma_load_plain_multiset(go, r.1);
                lemma_load_books_multiset(g, w, go2, d, rest, now);
                assert(load_books(g, w, go, d, recs, now) == load_books(g, w, go2, d, rest, now));
                assert(go2.to_multiset().add(mset_of(rest, HostColor::Gold)) =~= go.to_multiset(
                ).add(mset_of(recs, HostColor::Gold)));
            },
            HostColor::Dark => {
                let d1 = load_capped(d, r.1, HostColor::Dark);
                lemma_load_capped_multiset(d, r.1, HostColor::Dark);
                lemma_fresh_load(d, r.1, now);
                assert(d1 == sort_desc(d.push(r.1)));
                lemma_swept_all_fresh(d1, now);
                let d2 = swept(d1, 86400, now);
                assert(d2 == d1);
                lemma_load_books_multiset(g, w, go, d2, rest, now);
                assert(load_books(g, w, go, d, recs, now) == load_books(g, w, go, d2, rest, now));
                assert(d2.to_multiset().add(mset_of(rest, HostColor::Dark)) =~= d.to_multiset(
                ).add(mset_of(recs, HostColor::Dark)));
            },
            HostColor::Black => {
                lemma_load_books_multiset(g, w, go, d, rest, now);
                assert(load_books(g, w, go, d, recs, now) == load_books(g, w, go, d, rest, now));
            },
        }
    }
}

/// Law: saving the books and loading the file into an empty container gives
/// back every book as the same multiset of entries, as long as the capped
/// books are under their caps and the Dark entries are fresh at load time.
pub proof fn lemma_persistence_round_trip(
    g: Seq<EntryV>,
    w: Seq<EntryV>,
    go: Seq<EntryV>,
    d: Seq<EntryV>,
    now: u64,
)
    requires
        forall|i: int| 0 <= i < g.len() ==> crate::addr::wf_addr((#[trigger] g[i]).0),
        forall|i: int| 0 <= i < w.len() ==> crate::addr::wf_addr((#[trigger] w[i]).0),
        forall|i: int| 0 <= i < go.len() ==> crate::addr::wf_addr((#[trigger] go[i]).0),
        forall|i: int| 0 <= i < d.len() ==> crate::addr::wf_addr((#[trigger] d[i]).0),
        g.len() < 2000,
        w.len() < 5000,
        d.len() < 1000,
        forall|i: int| 0 <= i < d.len() ==> fresh_at(#[trigger] d[i], now),
    ensures
        ({
            let e = Seq::<EntryV>::empty();
            let out = load_books(
                e,
                e,
                e,
                e,
                spec_parse_records(dump_text(save_records(g, w, go, d))),
                now,
            );
            &&& out.0.to_multiset() == g.to_multiset()
            &&& out.1.to_multiset() == w.to_multiset()
            &&& out.2.to_multiset() == go.to_multiset()
            &&& out.3.to_multiset() == d.to_multiset()
        }),
{
    broadcast use group_to_multiset_ensures;
    broadcast use vstd::multiset::group_multiset_axioms;

    let recs = save_records(g, w, go, d);
    let td = tagged(HostColor::Dark, d);
    let tg = tagged(HostColor::Grey, g);
    let tw = tagged(HostColor::White, w);
    let tgo = tagged(HostColor::Gold, go);
    assert forall|i: int| 0 <= i < recs.len() implies wf_rec(#[trigger] recs[i]) by {
        if i < td.len() {
            assert(recs[i] == (HostColor::Dark, d[i]));
        } else if i < td.len() + tg.len() {
            assert(recs[i] == (HostColor::Grey, g[i - td.len()]));
        } else if i < td.len() + tg.len() + tw.len() {
            assert(recs[i] == (HostColor::White, w[i - td.len() - tg.len()]));
        } else {
            assert(recs[i] == (HostColor::Gold, go[i - td.len() - tg.len() - tw.len()]));
        }
    }
    crate::codec::lemma_dump_complete(recs);
    assert(spec_parse_records(dump_text(recs)) == recs);
    assert forall|c2: HostColor| true implies #[trigger] mset_of(recs, c2) == mset_of(td, c2).add(
        mset_of(tg, c2),
    ).add(mset_of(tw, c2)).add(mset_of(tgo, c2)) by {
        lemma_mset_concat(td, tg, c2);
        lemma_mset_concat(td + tg, tw, c2);
        lemma_mset_concat(td + tg + tw, tgo, c2);
    }
    lemma_mset_tagged(HostColor::Dark, d, HostColor::Grey);
    lemma_mset_tagged(HostColor::Dark, d, HostColor::White);
    lemma_mset_tagged(HostColor::Dark, d, HostColor::Gold);
    lemma_mset_tagged(HostColor::Dark, d, HostColor::Dark);
    lemma_mset_tagged(HostColor::Grey, g, HostColor::Grey);
    lemma_mset_tagged(HostColor::Grey, g, HostColor::White);
    lemma_mset_tagged(HostColor::Grey, g, HostColor::Gold);
    lemma_mset_tagged(HostColor::Grey, g, HostColor::Dark);
    lemma_mset_tagged(HostColor::White, w, HostColor::Grey);
    lemma_mset_tagged(HostColor::White, w, HostColor::White);
    lemma_mset_tagged(HostColor::White, w, HostColor::Gold);
    lemma_mset_tagged(HostColor::White, w, HostColor::Dark);
    lemma_mset_tagged(HostColor::Gold, go, HostColor::Grey);
    lemma_mset_tagged(HostColor::Gold, go, HostColor::White);
    lemma_mset_tagged(HostColor::Gold, go, HostColor::Gold);
    lemma_mset_tagged(HostColor::Gold, go, HostColor::Dark);
    assert(mset_of(recs, HostColor::Grey) =~= g.to_multiset());
    assert(mset_of(recs, HostColor::White) =~= w.to_multiset());
    assert(mset_of(recs, HostColor::Gold) =~= go.to_multiset());
    assert(mset_of(recs, HostColor::Dark) =~= d.to_multiset());
    assert forall|i: int|
        0 <= i < recs.len() && (#[trigger] recs[i]).0 == HostColor::Dark implies fresh_at(
        recs[i].1,
        now,
    ) by {
        if i < td.len() {
            assert(recs[i] == (HostColor::Dark, d[i]));
        } else if i < td.len() + tg.len() {
            assert(recs[i] == (HostColor::Grey, g[i - td.len()]));
        } else if i < td.len() + tg.len() + tw.len() {
            assert(recs[i] == (HostColor::White, w[i - td.len() - tg.len()]));
        } else {
            assert(recs[i] == (HostColor::Gold, go[i - td.len() - tg.len() - tw.len()]));
        }
    }
    let e = Seq::<EntryV>::empty();
    lemma_load_books_multiset(e, e, e, e, recs, now);
    assert(e.to_multiset().len() == 0);
    assert(e.to_multiset() =~= Multiset::<EntryV>::empty());
    let out = load_books(e, e, e, e, recs, now);
    assert(out.0.to_multiset() =~= g.to_multiset());
    assert(out.1.to_multiset() =~= w.to_multiset());
    assert(out.2.to_multiset() =~= go.to_multiset());
    assert(out.3.to_multiset() =~= d.to_multiset());
}

/// A removal never grows a book.
pub proof fn lemma_remove_len(book: Seq<EntryV>, a: AddrV)
    ensures
        remove_addr(book, a).len() <= book.len(),
{
    lemma_find_addr(book, a);
}

/// Law: an insert keeps every capped book under its cap. The conclusion is
/// stated over the exact terms of `insert`'s contract: the filtered batch,
/// the filter's Dark writes, and the insert fold into the target book. With
/// `insert`'s frame (the other books unchanged), books under their caps stay
/// under their caps, so by induction every insert sequence from a fresh
/// manager satisfies the size-cap invariant.
pub proof fn lemma_insert_respects_caps(
    h: Hosts,
    color: HostColor,
    addrs: Seq<EntryV>,
    now: u64,
)
    requires
        h.cont().books(0).len() < 2000,
        h.cont().books(1).len() < 5000,
        h.cont().books(4).len() < 1000,
    ensures
        ({
            let filtered = crate::hosts::accepted_list(h, addrs);
            let fdark = dark_fold(h.cont().books(4), h, addrs, now);
            let outcome = ins_fold(
                (if crate::container::color_index(color) == 4 {
                    fdark
                } else {
                    h.cont().books(crate::container::color_index(color))
                }),
                h.reg(),
                filtered,
                color,
                now,
            );
            &&& fdark.len() < 1000
            &&& (color == HostColor::Grey ==> outcome.0.len() < 2000)
            &&& (color == HostColor::White ==> outcome.0.len() < 5000)
            &&& (color == HostColor::Dark ==> outcome.0.len() < 1000)
        }),
{
    let filtered = crate::hosts::accepted_list(h, addrs);
    let fdark = dark_fold(h.cont().books(4), h, addrs, now);
    lemma_dark_fold_cap(h.cont().books(4), h, addrs, now);
    match color {
        HostColor::Grey => {
            lemma_ins_fold_cap(h.cont().books(0), h.reg(), filtered, color, now);
        },
        HostColor::White => {
            lemma_ins_fold_cap(h.cont().books(1), h.reg(), filtered, color, now);
        },
        HostColor::Dark => {
            lemma_ins_fold_cap(fdark, h.reg(), filtered, color, now);
        },
        _ => {},
    }
}

/// Law: a colour move keeps every capped book under its cap, over the exact
/// terms of `move_host`'s contract: the destination book is settled under its
/// own cap and the books an address leaves only shrink.
pub proof fn lemma_move_respects_caps(
    g: Seq<EntryV>,
    w: Seq<EntryV>,
    d: Seq<EntryV>,
    a: AddrV,
    ls: u64,
)
    requires
        g.len() < 2000,
        w.len() < 5000,
        d.len() < 1000,
    ensures
        settle_book(g, a, ls, HostColor::Grey).len() < 2000,
        settle_book(w, a, ls, HostColor::White).len() < 5000,
        remove_addr(g, a).len() < 2000,
        remove_addr(w, a).len() < 5000,
        d.len() < 1000,
{
    lemma_settle_cap(g, a, ls, HostColor::Grey);
    lemma_settle_cap(w, a, ls, HostColor::White);
    lemma_remove_len(g, a);
    lemma_remove_len(w, a);
}

} // verus!
