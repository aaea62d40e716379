//! Network interface discovery: each listing of the interface directory is
//! swept against the pages already held.
//!
//! A sweep keeps every held page whose interface is still listed, adds the
//! pages made for newly listed interfaces, and drops the pages of interfaces
//! that are no longer listed. A page is never dropped because metadata for a
//! listed interface could not be read.
use vstd::prelude::*;

use crate::registry::{held_outside, holds_key, key_listed, listed, PageRegistry};
use crate::text::same_text;

verus! {

/// The loopback interface, which gets no page.
pub const LOOPBACK: &'static str = "lo";

/// A directory entry's name is `k`; `None` stands for a name that is not text.
pub open spec fn entry_is(e: Option<String>, k: Seq<char>) -> bool {
    match e {
        Some(s) => s@ == k,
        None => false,
    }
}

/// The kinds of network interface that get a page of their own.
#[derive(Clone, Copy, Debug, PartialEq, Eq, Structural)]
pub enum InterfaceType {
    Ethernet,
    InfiniBand,
    Slip,
    Wlan,
    Wwan,
    Bluetooth,
    Wireguard,
    Other,
}

/// The untranslated sidebar title of an interface kind's page.
pub open spec fn title_of(t: InterfaceType) -> Seq<char> {
    match t {
        InterfaceType::Ethernet => "Ethernet Connection"@,
        InterfaceType::InfiniBand => "InfiniBand Connection"@,
        InterfaceType::Slip => "Serial Line IP Connection"@,
        InterfaceType::Wlan => "Wi-Fi Connection"@,
        InterfaceType::Wwan => "WWAN Connection"@,
        InterfaceType::Bluetooth => "Bluetooth Tether"@,
        InterfaceType::Wireguard => "VPN Tunnel (WireGuard)"@,
        InterfaceType::Other => "Network Interface"@,
    }
}

impl InterfaceType {
    /// The untranslated sidebar title of this kind's page.
    pub fn sidebar_title(&self) -> (r: &'static str)
        ensures
            r@ == title_of(*self),
    {
        match self {
            InterfaceType::Ethernet => "Ethernet Connection",
            InterfaceType::InfiniBand => "InfiniBand Connection",
            InterfaceType::Slip => "Serial Line IP Connection",
            InterfaceType::Wlan => "Wi-Fi Connection",
            InterfaceType::Wwan => "WWAN Connection",
            InterfaceType::Bluetooth => "Bluetooth Tether",
            InterfaceType::Wireguard => "VPN Tunnel (WireGuard)",
            InterfaceType::Other => "Network Interface",
        }
    }
}

/// One of the first `n` entries of a listing names interface `k`, and `k` is
/// not the loopback interface.
pub open spec fn lists_upto(listing: Seq<Option<String>>, n: int, k: Seq<char>) -> bool {
    k != LOOPBACK@ && exists|j: int| 0 <= j < n && #[trigger] entry_is(listing[j], k)
}

/// The listing names interface `k`, and `k` is not the loopback interface.
pub open spec fn lists(listing: Seq<Option<String>>, k: Seq<char>) -> bool {
    lists_upto(listing, listing.len() as int, k)
}

/// The interfaces that a listing names, loopback and undecodable names left out.
pub open spec fn listed_interfaces(listing: Seq<Option<String>>) -> Set<Seq<char>> {
    Set::new(|k: Seq<char>| lists(listing, k))
}

/// The pages made during a sweep, taken in order: a page counts only where its
/// interface is listed and has no page yet.
pub open spec fn with_new_pages<P>(
    m: Map<Seq<char>, P>,
    listing: Seq<Option<String>>,
    made: Seq<(String, P)>,
) -> Map<Seq<char>, P>
    decreases made.len(),
{
    if made.len() == 0 {
        m
    } else {
        let before = with_new_pages(m, listing, made.drop_last());
        let k = made.last().0@;
        if lists(listing, k) && !before.contains_key(k) {
            before.insert(k, made.last().1)
        } else {
            before
        }
    }
}

/// The pages held after a sweep of `listing` that started from `m` and made
/// the pages `made`.
pub open spec fn swept<P>(
    m: Map<Seq<char>, P>,
    listing: Seq<Option<String>>,
    made: Seq<(String, P)>,
) -> Map<Seq<char>, P> {
    with_new_pages(m, listing, made).restrict(listed_interfaces(listing))
}

/// Whether a listing names interface `name`.
pub fn listing_names(listing: &Vec<Option<String>>, name: &str) -> (r: bool)
    ensures
        r == lists(listing@, name@),
{
    if same_text(name, LOOPBACK) {
        return false;
    }
    let mut i: usize = 0;
    while i < listing.len()
        invariant
            i <= listing@.len(),
            name@ != LOOPBACK@,
            !lists_upto(listing@, i as int, name@),
        decreases listing@.len() - i,
    {
        if let Some(s) = &listing[i] {
            if same_text(s.as_str(), name) {
                assert(entry_is(listing@[i as int], name@));
                return true;
            }
        }
        assert(!entry_is(listing@[i as int], name@));
        i = i + 1;
    }
    false
}

/// The interfaces that a listing names, each once.
pub fn interface_names(listing: &Vec<Option<String>>) -> (r: Vec<String>)
    ensures
        listed(r@) == listed_interfaces(listing@),
{
    let mut r: Vec<String> = Vec::new();
    let mut i: usize = 0;
    while i < listing.len()
        invariant
            i <= listing@.len(),
            forall|k: Seq<char>| listed(r@).contains(k) <==> lists_upto(listing@, i as int, k),
        decreases listing@.len() - i,
    {
        let ghost before = r@;
        if let Some(s) = &listing[i] {
            if !same_text(s.as_str(), LOOPBACK) && !key_listed(&r, s.as_str()) {
                r.push(s.as_str().to_owned());
            }
        }
        assert forall|k: Seq<char>| listed(r@).contains(k) <==> lists_upto(listing@, i + 1, k) by {
            if listed(r@).contains(k) {
                let j = choose|j: int| 0 <= j < r@.len() && #[trigger] r@[j]@ == k;
                if j < before.len() {
                    assert(listed(before).contains(k));
                } else {
                    assert(entry_is(listing@[i as int], k));
                }
            }
            if lists_upto(listing@, i + 1, k) {
                let j = choose|j: int| 0 <= j < i + 1 && #[trigger] entry_is(listing@[j], k);
                if j < i {
                    assert(listed(before).contains(k));
                    let a = choose|a: int| 0 <= a < before.len() && #[trigger] before[a]@ == k;
                    assert(r@[a]@ == k);
                } else if !listed(before).contains(k) {
                    assert(r@[before.len() as int]@ == k);
                } else {
                    let a = choose|a: int| 0 <= a < before.len() && #[trigger] before[a]@ == k;
                    assert(r@[a]@ == k);
                }
            }
        }
        i = i + 1;
    }
    assert(listed(r@) =~= listed_interfaces(listing@));
    r
}

/// The interfaces of a listing that have no page yet: those whose metadata
/// the caller has to read and whose pages it has to make. Each appears once.
pub fn pending_interfaces<P>(pages: &PageRegistry<P>, listing: &Vec<Option<String>>) -> (r: Vec<
    String,
>)
    requires
        pages.wf(),
    ensures
        forall|k: Seq<char>|
            listed(r@).contains(k) <==> lists(listing@, k) && !pages@.contains_key(k),
        forall|a: int, b: int|
            0 <= a < b < r@.len() ==> #[trigger] r@[a]@ != #[trigger] r@[b]@,
{
    let mut r: Vec<String> = Vec::new();
    let mut i: usize = 0;
    while i < listing.len()
        invariant
            i <= listing@.len(),
            pages.wf(),
            forall|k: Seq<char>|
                listed(r@).contains(k) <==> lists_upto(listing@, i as int, k)
                    && !pages@.contains_key(k),
            forall|a: int, b: int|
                0 <= a < b < r@.len() ==> #[trigger] r@[a]@ != #[trigger] r@[b]@,
        decreases listing@.len() - i,
    {
        let ghost before = r@;
        if let Some(s) = &listing[i] {
            if !same_text(s.as_str(), LOOPBACK) && !pages.contains_key(s.as_str()) && !key_listed(
                &r,
                s.as_str(),
            ) {
                r.push(s.as_str().to_owned());
                assert forall|a: int, b: int|
                    0 <= a < b < r@.len() implies #[trigger] r@[a]@ != #[trigger] r@[b]@ by {
                    if b == before.len() {
                        assert(!listed(before).contains(s@));
                        assert(before[a]@ != s@);
                    }
                }
            }
        }
        assert forall|k: Seq<char>|
            listed(r@).contains(k) <==> lists_upto(listing@, i + 1, k) && !pages@.contains_key(
                k,
            ) by {
            if listed(r@).contains(k) {
                let j = choose|j: int| 0 <= j < r@.len() && #[trigger] r@[j]@ == k;
                if j < before.len() {
                    assert(listed(before).contains(k));
                } else {
                    assert(entry_is(listing@[i as int], k));
                }
            }
            if lists_upto(listing@, i + 1, k) && !pages@.contains_key(k) {
                let j = choose|j: int| 0 <= j < i + 1 && #[trigger] entry_is(listing@[j], k);
                if j < i {
                    assert(listed(before).contains(k));
                    let a = choose|a: int| 0 <= a < before.len() && #[trigger] before[a]@ == k;
                    assert(r@[a]@ == k);
                } else if !listed(before).contains(k) {
                    assert(r@[before.len() as int]@ == k);
                } else {
                    let a = choose|a: int| 0 <= a < before.len() && #[trigger] before[a]@ == k;
                    assert(r@[a]@ == k);
                }
            }
        }
        i = i + 1;
    }
    r
}

/// Ends a sweep of `listing`: holds each page in `made` whose interface is
/// listed and has no page yet, then drops the pages of every interface that
/// the listing no longer names. Hands back every page that is not held
/// afterwards, for the caller to dispose of.
pub fn finish_sweep<P>(
    pages: &mut PageRegistry<P>,
    listing: &Vec<Option<String>>,
    made: Vec<(String, P)>,
) -> (r: Vec<P>)
    requires
        old(pages).wf(),
    ensures
        final(pages).wf(),
        final(pages)@ == swept(old(pages)@, listing@, made@),
        r@.len() + final(pages).size() == old(pages).size() + made@.len(),
        forall|g: int|
            0 <= g < r@.len() ==> made_page(made@, #[trigger] r@[g]) || held_outside(
                old(pages)@,
                listed_interfaces(listing@),
                r@[g],
            ),
{
    let ghost start = pages@;
    let ghost all = made@;
    let mut made = made;
    let mut gone: Vec<P> = Vec::new();
    let total = made.len();
    let mut n: usize = 0;
    while made.len() > 0
        invariant
            pages.wf(),
            n <= total,
            total == all.len(),
            made@ == all.subrange(n as int, all.len() as int),
            pages@ == with_new_pages(start, listing@, all.subrange(0, n as int)),
            gone@.len() + pages.size() == old(pages).size() + n,
            forall|g: int| 0 <= g < gone@.len() ==> made_page(all, #[trigger] gone@[g]),
        decreases made@.len(),
    {
        let (key, page) = made.remove(0);
        assert(all.subrange(0, n + 1).drop_last() =~= all.subrange(0, n as int));
        if listing_names(listing, key.as_str()) && !pages.contains_key(key.as_str()) {
            pages.insert(key, page);
        } else {
            let ghost g0 = gone@;
            gone.push(page);
            assert forall|g: int| 0 <= g < gone@.len() implies made_page(all, #[trigger] gone@[g]) by {
                if g < g0.len() {
                    assert(made_page(all, g0[g]));
                } else {
                    assert(all[n as int].1 == gone@[g]);
                }
            }
        }
        n = n + 1;
        assert(made@ =~= all.subrange(n as int, all.len() as int));
    }
    assert(all.subrange(0, n as int) =~= all);
    let keep = interface_names(listing);
    let ghost mid = pages@;
    let mut dropped = pages.retain_keys(&keep);
    let ghost g0 = gone@;
    let ghost d0 = dropped@;
    gone.append(&mut dropped);
    assert forall|g: int| 0 <= g < gone@.len() implies made_page(all, #[trigger] gone@[g]) || held_outside(
        start,
        listed_interfaces(listing@),
        gone@[g],
    ) by {
        if g < g0.len() {
            assert(made_page(all, g0[g]));
        } else {
            let p = d0[g - g0.len()];
            assert(p == gone@[g]);
            assert(held_outside(mid, listed_interfaces(listing@), p));
            let k = choose|k: Seq<char>| mid.contains_key(k) && !listed_interfaces(listing@).contains(k) && #[trigger] mid[k] == p;
            lemma_new_pages(start, listing@, all, k);
            assert(start[k] == p);
        }
    }
    gone
}

/// `p` is the page of one of `made`.
pub open spec fn made_page<P>(made: Seq<(String, P)>, p: P) -> bool {
    exists|j: int| 0 <= j < made.len() && #[trigger] made[j].1 == p
}

proof fn lemma_new_pages<P>(m: Map<Seq<char>, P>, listing: Seq<Option<String>>, made: Seq<(String, P)>, k: Seq<char>)
    ensures
        with_new_pages(m, listing, made).contains_key(k) <==> m.contains_key(k) || (lists(listing, k)
            && holds_key(made, k)),
        m.contains_key(k) ==> with_new_pages(m, listing, made)[k] == m[k],
    decreases made.len(),
{
    if made.len() > 0 {
        let rest = made.drop_last();
        lemma_new_pages(m, listing, rest, k);
        if holds_key(made, k) && !holds_key(rest, k) {
            let j = choose|j: int| 0 <= j < made.len() && #[trigger] made[j].0@ == k;
            if j < rest.len() {
                assert(rest[j].0@ == k);
            }
        }
        if holds_key(rest, k) {
            let j = choose|j: int| 0 <= j < rest.len() && #[trigger] rest[j].0@ == k;
            assert(made[j].0@ == k);
        }
    }
}

/// A sweep holds a page for an interface exactly when the listing names it and
/// it had a page before or one was made for it during the sweep.
pub proof fn lemma_swept_keys<P>(
    m: Map<Seq<char>, P>,
    listing: Seq<Option<String>>,
    made: Seq<(String, P)>,
    k: Seq<char>,
)
    ensures
        swept(m, listing, made).contains_key(k) <==> lists(listing, k) && (m.contains_key(k)
            || holds_key(made, k)),
{
    lemma_new_pages(m, listing, made, k);
}

/// A page whose interface is still listed survives the sweep unchanged, even
/// where no page could be made for anything during it.
pub proof fn lemma_listed_page_kept<P>(
    m: Map<Seq<char>, P>,
    listing: Seq<Option<String>>,
    made: Seq<(String, P)>,
    k: Seq<char>,
)
    requires
        m.contains_key(k),
        lists(listing, k),
    ensures
        swept(m, listing, made).contains_key(k),
        swept(m, listing, made)[k] == m[k],
{
    lemma_new_pages(m, listing, made, k);
}

/// Where every listed interface either had a page or got one during the sweep,
/// the interfaces with pages afterwards are exactly those that the listing
/// names.
pub proof fn lemma_sweep_converges<P>(
    m: Map<Seq<char>, P>,
    listing: Seq<Option<String>>,
    made: Seq<(String, P)>,
)
    requires
        forall|k: Seq<char>| lists(listing, k) ==> m.contains_key(k) || holds_key(made, k),
    ensures
        swept(m, listing, made).dom() == listed_interfaces(listing),
{
    assert forall|k: Seq<char>| swept(m, listing, made).dom().contains(k) <==> listed_interfaces(
        listing,
    ).contains(k) by {
        lemma_new_pages(m, listing, made, k);
    }
    assert(swept(m, listing, made).dom() =~= listed_interfaces(listing));
}

} // verus!
