//! The bounded history: insertion with deduplication, pins, capacity trim
//! and expiry by age.

use crate::clock::now_ms;
use crate::item::{views, Item, ItemKind, ItemView};
use vstd::prelude::*;

verus! {

/// Limits of a [`History`].
#[derive(Debug, Clone, Copy)]
pub struct HistoryConfig {
    /// Entries kept before the oldest unpinned ones are dropped.
    pub max_items: usize,
    /// Largest text payload accepted, in bytes.
    pub max_text_bytes: usize,
    /// Largest image payload accepted, in bytes.
    pub max_image_bytes: usize,
    /// Age in seconds after which an unpinned entry expires; 0 keeps all.
    pub ttl_secs: u64,
}

impl Default for HistoryConfig {
    fn default() -> (cfg: Self)
        ensures
            cfg == (HistoryConfig {
                max_items: 200,
                max_text_bytes: 100_000,
                max_image_bytes: 2_000_000,
                ttl_secs: 0,
            }),
    {
        HistoryConfig {
            max_items: 200,
            max_text_bytes: 100_000,
            max_image_bytes: 2_000_000,
            ttl_secs: 0,
        }
    }
}

/// The first position at or after `from` whose entry satisfies `p`, or the
/// length of `s` where none does.
pub open spec fn first_from(s: Seq<ItemView>, p: spec_fn(ItemView) -> bool, from: int) -> int
    decreases s.len() - from,
{
    if from >= s.len() {
        s.len() as int
    } else if p(s[from]) {
        from
    } else {
        first_from(s, p, from + 1)
    }
}

/// The first position whose entry satisfies `p`, or the length of `s`.
pub open spec fn first_index(s: Seq<ItemView>, p: spec_fn(ItemView) -> bool) -> int {
    first_from(s, p, 0)
}

/// What `first_from` finds lies in range, satisfies `p`, and nothing between
/// `from` and it does.
pub proof fn lemma_first_from(s: Seq<ItemView>, p: spec_fn(ItemView) -> bool, from: int)
    requires
        0 <= from <= s.len(),
    ensures
        from <= first_from(s, p, from) <= s.len(),
        first_from(s, p, from) < s.len() ==> p(s[first_from(s, p, from)]),
        forall|j: int| from <= j < first_from(s, p, from) ==> !p(s[j]),
    decreases s.len() - from,
{
    if from < s.len() && !p(s[from]) {
        lemma_first_from(s, p, from + 1);
    }
}

/// Entries with the identifier `id`.
pub open spec fn has_id(id: u64) -> spec_fn(ItemView) -> bool {
    |e: ItemView| e.id == id
}

/// Entries with another identifier than `id`.
pub open spec fn lacks_id(id: u64) -> spec_fn(ItemView) -> bool {
    |e: ItemView| e.id != id
}

/// Entries of the given kind with exactly the given bytes.
pub open spec fn has_payload(kind: ItemKind, data: Seq<u8>) -> spec_fn(ItemView) -> bool {
    |e: ItemView| e.kind == kind && e.data == data
}

/// Entries that are not pinned.
pub open spec fn is_unpinned() -> spec_fn(ItemView) -> bool {
    |e: ItemView| !e.pinned
}

/// Entries that survive expiry at time `now`: pinned ones, and those seen no
/// longer than `ttl_secs` seconds ago.
pub open spec fn is_fresh(ttl_secs: u64, now: i64) -> spec_fn(ItemView) -> bool {
    |e: ItemView| e.pinned || now - e.ts_ms <= ttl_secs * 1000
}

/// Whether a payload of `len` bytes is over the limit for its kind. Html has
/// no limit.
pub open spec fn too_large(cfg: HistoryConfig, kind: ItemKind, len: nat) -> bool {
    match kind {
        ItemKind::Text => len > cfg.max_text_bytes,
        ItemKind::Image => len > cfg.max_image_bytes,
        ItemKind::Html => false,
    }
}

/// An entry refreshed by a new capture of the same payload: it keeps its
/// identifier, is pinned if either was, is seen at `now`, and takes the
/// content type and path of the capture only where it had none.
pub open spec fn merged(existing: ItemView, cand: ItemView, now: i64) -> ItemView {
    ItemView {
        id: existing.id,
        kind: existing.kind,
        data: existing.data,
        pinned: existing.pinned || cand.pinned,
        ts_ms: now,
        mime: if existing.mime is None {
            cand.mime
        } else {
            existing.mime
        },
        file_path: if existing.file_path is None {
            cand.file_path
        } else {
            existing.file_path
        },
    }
}

/// A capture as it is stored when new: under the identifier `id`, seen at `now`.
pub open spec fn stamped(cand: ItemView, id: u64, now: i64) -> ItemView {
    ItemView { id, ts_ms: now, ..cand }
}

/// Expiry: with a positive `ttl_secs`, only fresh entries stay.
pub open spec fn pruned(s: Seq<ItemView>, ttl_secs: u64, now: i64) -> Seq<ItemView> {
    if ttl_secs == 0 {
        s
    } else {
        s.filter(is_fresh(ttl_secs, now))
    }
}

/// Capacity trim: while more than `max` entries are held, the oldest
/// unpinned one leaves; where only pinned ones are left, all stay.
pub open spec fn trimmed_to(s: Seq<ItemView>, max: nat) -> Seq<ItemView>
    decreases s.len(),
{
    if s.len() <= max {
        s
    } else {
        let i = first_index(s, is_unpinned());
        if 0 <= i < s.len() {
            trimmed_to(s.remove(i), max)
        } else {
            s
        }
    }
}

/// The entries with `id` pinned or unpinned: the first entry with that
/// identifier gets the flag; without one nothing changes.
pub open spec fn pinned_as(s: Seq<ItemView>, id: u64, flag: bool) -> Seq<ItemView> {
    let i = first_index(s, has_id(id));
    if 0 <= i < s.len() {
        s.update(i, ItemView { pinned: flag, ..s[i] })
    } else {
        s
    }
}

/// The largest identifier in `s`, or 0 for none.
pub open spec fn max_id(s: Seq<ItemView>) -> u64
    decreases s.len(),
{
    if s.len() == 0 {
        0
    } else if s.last().id > max_id(s.drop_last()) {
        s.last().id
    } else {
        max_id(s.drop_last())
    }
}

/// No identifier in `s` is above `max_id(s)`, so that all are below
/// `id_after(s)` unless the largest is `u64::MAX` itself.
pub proof fn lemma_max_id_bounds(s: Seq<ItemView>)
    ensures
        forall|i: int| 0 <= i < s.len() ==> (#[trigger] s[i]).id <= max_id(s),
        max_id(s) < u64::MAX ==> forall|i: int| 0 <= i < s.len() ==> (#[trigger] s[i]).id
            < id_after(s),
    decreases s.len(),
{
    if s.len() > 0 {
        let init = s.drop_last();
        lemma_max_id_bounds(init);
        assert forall|i: int| 0 <= i < s.len() implies (#[trigger] s[i]).id <= max_id(s) by {
            if i < init.len() {
                assert(init[i] == s[i]);
            }
        }
    }
}

/// The identifier after the largest in `s`, held at `u64::MAX`.
pub open spec fn id_after(s: Seq<ItemView>) -> u64 {
    if max_id(s) == u64::MAX {
        u64::MAX
    } else {
        (max_id(s) + 1) as u64
    }
}

/// What an insertion leaves: the entries, the next identifier, and the
/// identifier under which the capture is held, if it was accepted.
pub ghost struct Pushed {
    pub items: Seq<ItemView>,
    pub next_id: u64,
    pub id: Option<u64>,
}

/// Insertion of `cand` at time `now`. A capture whose payload is already held
/// refreshes that entry and moves it to the most recent place. Otherwise one
/// that is too large is refused, and any other is appended under `next_id`,
/// after which expired entries leave and the history is trimmed.
pub open spec fn pushed(
    cfg: HistoryConfig,
    s: Seq<ItemView>,
    next_id: u64,
    cand: ItemView,
    now: i64,
) -> Pushed {
    let i = first_index(s, has_payload(cand.kind, cand.data));
    if 0 <= i < s.len() {
        Pushed { items: s.remove(i).push(merged(s[i], cand, now)), next_id, id: Some(s[i].id) }
    } else if too_large(cfg, cand.kind, cand.data.len()) {
        Pushed { items: s, next_id, id: None }
    } else {
        Pushed {
            items: trimmed_to(
                pruned(s.push(stamped(cand, next_id, now)), cfg.ttl_secs, now),
                cfg.max_items as nat,
            ),
            next_id: (next_id + 1) as u64,
            id: Some(next_id),
        }
    }
}

/// Whether inserting `cand` takes a new identifier: its payload is not yet
/// held, and it is within the limit for its kind.
pub open spec fn takes_new_id(cfg: HistoryConfig, s: Seq<ItemView>, cand: ItemView) -> bool {
    first_index(s, has_payload(cand.kind, cand.data)) >= s.len() && !too_large(
        cfg,
        cand.kind,
        cand.data.len(),
    )
}

/// Whether `cand` would be accepted: its payload is already held, or it is
/// within the limit for its kind.
pub open spec fn accepts(cfg: HistoryConfig, s: Seq<ItemView>, cand: ItemView) -> bool {
    first_index(s, has_payload(cand.kind, cand.data)) < s.len() || !too_large(
        cfg,
        cand.kind,
        cand.data.len(),
    )
}

/// The first position in `items` whose entry has the identifier `id`.
fn find_id(items: &Vec<Item>, id: u64) -> (i: usize)
    ensures
        i == first_index(views(items@), has_id(id)),
        i <= items.len(),
{
    let mut i: usize = 0;
    while i < items.len() && items[i].id != id
        invariant
            i <= items.len(),
            first_index(views(items@), has_id(id)) == first_from(
                views(items@),
                has_id(id),
                i as int,
            ),
        decreases items.len() - i,
    {
        assert(views(items@)[i as int] == items@[i as int]@);
        i += 1;
    }
    assert(i < items.len() ==> views(items@)[i as int] == items@[i as int]@);
    i
}

/// Whether two byte strings are equal.
fn same_bytes(a: &Vec<u8>, b: &Vec<u8>) -> (r: bool)
    ensures
        r == (a@ == b@),
{
    if a.len() != b.len() {
        return false;
    }
    let mut i: usize = 0;
    while i < a.len()
        invariant
            i <= a.len(),
            a.len() == b.len(),
            a@.subrange(0, i as int) == b@.subrange(0, i as int),
        decreases a.len() - i,
    {
        if a[i] != b[i] {
            return false;
        }
        assert(a@.subrange(0, i + 1) =~= a@.subrange(0, i as int).push(a@[i as int]));
        assert(b@.subrange(0, i + 1) =~= b@.subrange(0, i as int).push(b@[i as int]));
        i += 1;
    }
    assert(a@.subrange(0, i as int) =~= a@);
    assert(b@.subrange(0, i as int) =~= b@);
    true
}

/// The first position in `items` whose entry has the given payload.
fn find_payload(items: &Vec<Item>, kind: ItemKind, data: &Vec<u8>) -> (i: usize)
    ensures
        i == first_index(views(items@), has_payload(kind, data@)),
        i <= items.len(),
{
    let mut i: usize = 0;
    while i < items.len() && !(items[i].kind == kind && same_bytes(&items[i].data, data))
        invariant
            i <= items.len(),
            first_index(views(items@), has_payload(kind, data@)) == first_from(
                views(items@),
                has_payload(kind, data@),
                i as int,
            ),
        decreases items.len() - i,
    {
        assert(views(items@)[i as int] == items@[i as int]@);
        i += 1;
    }
    assert(i < items.len() ==> views(items@)[i as int] == items@[i as int]@);
    i
}

/// Keeps the entries whose flag is set, in order.
fn retain_flagged(items: &mut Vec<Item>, keep: &Vec<bool>, Ghost(p): Ghost<spec_fn(ItemView) -> bool>)
    requires
        keep.len() == old(items).len(),
        forall|j: int| 0 <= j < keep.len() ==> keep[j] == p(#[trigger] old(items)[j]@),
    ensures
        views(final(items)@) == views(old(items)@).filter(p),
{
    let ghost orig = views(items@);
    let n = keep.len();
    let mut i: usize = 0;
    let mut k: usize = 0;
    proof {
        reveal(Seq::filter);
        assert(orig.subrange(0, 0).filter(p) =~= views(items@).subrange(0, 0));
        assert(views(items@).subrange(0, items.len() as int) =~= orig);
    }
    while k < n
        invariant
            n == keep.len(),
            n == orig.len(),
            i <= k <= n,
            items.len() - i == n - k,
            forall|j: int| 0 <= j < n ==> keep[j] == p(#[trigger] orig[j]),
            views(items@).subrange(0, i as int) == orig.subrange(0, k as int).filter(p),
            views(items@).subrange(i as int, items.len() as int) == orig.subrange(
                k as int,
                n as int,
            ),
        decreases n - k,
    {
        let ghost before = views(items@);
        let ghost done = orig.subrange(0, k as int);
        let ghost next = orig.subrange(0, k + 1);
        proof {
            reveal(Seq::filter);
            assert(next.drop_last() =~= done);
            assert(next.last() == orig[k as int]);
            assert(before.subrange(i as int, items.len() as int)[0] == before[i as int]);
            assert(orig.subrange(k as int, n as int)[0] == orig[k as int]);
        }
        if keep[k] {
            assert(before.subrange(0, i + 1) =~= before.subrange(0, i as int).push(
                before[i as int],
            ));
            assert(before.subrange(i + 1, items.len() as int) =~= before.subrange(
                i as int,
                items.len() as int,
            ).subrange(1, items.len() - i));
            assert(orig.subrange(k + 1, n as int) =~= orig.subrange(k as int, n as int).subrange(
                1,
                n - k,
            ));
            i += 1;
        } else {
            let _ = items.remove(i);
            assert(views(items@) =~= before.remove(i as int));
            assert(views(items@).subrange(0, i as int) =~= before.subrange(0, i as int));
            assert(views(items@).subrange(i as int, items.len() as int) =~= before.subrange(
                i as int,
                before.len() as int,
            ).subrange(1, before.len() - i));
            assert(orig.subrange(k + 1, n as int) =~= orig.subrange(k as int, n as int).subrange(
                1,
                n - k,
            ));
        }
        k += 1;
    }
    assert(orig.subrange(0, n as int) =~= orig);
    assert(views(items@).subrange(0, i as int) =~= views(items@));
}

/// Whether `s` holds a pinned entry with the identifier `id`.
pub open spec fn holds_pinned(s: Seq<ItemView>, id: u64) -> bool {
    exists|k: int| 0 <= k < s.len() && (#[trigger] s[k]).id == id && s[k].pinned
}

/// No two entries of `s` have the same kind and the same bytes.
pub open spec fn payloads_distinct(s: Seq<ItemView>) -> bool {
    forall|i: int, j: int|
        0 <= i < j < s.len() ==> !((#[trigger] s[i]).kind == (#[trigger] s[j]).kind && s[i].data
            == s[j].data)
}

/// No two entries of `s` have the same identifier, and all identifiers are
/// below `next_id`.
pub open spec fn ids_distinct_below(s: Seq<ItemView>, next_id: u64) -> bool {
    &&& forall|i: int, j: int| 0 <= i < j < s.len() ==> (#[trigger] s[i]).id != (#[trigger] s[j]).id
    &&& forall|i: int| 0 <= i < s.len() ==> (#[trigger] s[i]).id < next_id
}

/// Whether every identifier in `s` is below `next_id`.
pub open spec fn ids_below(s: Seq<ItemView>, next_id: u64) -> bool {
    forall|i: int| 0 <= i < s.len() ==> (#[trigger] s[i]).id < next_id
}

/// Whether `at` gives, for each entry of `part`, the place in `whole` where
/// it stands, with the places in rising order.
pub open spec fn selects(at: Seq<int>, part: Seq<ItemView>, whole: Seq<ItemView>) -> bool {
    &&& at.len() == part.len()
    &&& forall|k: int| 0 <= k < at.len() ==> 0 <= #[trigger] at[k] < whole.len()
    &&& forall|k: int| 0 <= k < at.len() ==> part[k] == whole[#[trigger] at[k]]
    &&& forall|k: int, l: int| 0 <= k < l < at.len() ==> at[k] < at[l]
}

/// Whether every entry of `part` is an entry of `whole`, in the same order.
pub open spec fn is_selection(part: Seq<ItemView>, whole: Seq<ItemView>) -> bool {
    exists|at: Seq<int>| selects(at, part, whole)
}

/// Every sequence is a selection of itself.
pub proof fn lemma_selection_refl(s: Seq<ItemView>)
    ensures
        is_selection(s, s),
{
    let at = Seq::new(s.len(), |k: int| k);
    assert(selects(at, s, s));
}

/// A selection of a selection is a selection.
pub proof fn lemma_selection_trans(a: Seq<ItemView>, b: Seq<ItemView>, c: Seq<ItemView>)
    requires
        is_selection(a, b),
        is_selection(b, c),
    ensures
        is_selection(a, c),
{
    let ab = choose|at: Seq<int>| selects(at, a, b);
    let bc = choose|at: Seq<int>| selects(at, b, c);
    let ac = Seq::new(a.len(), |k: int| bc[ab[k]]);
    assert(ac.len() == a.len());
    assert forall|k: int| 0 <= k < ac.len() implies 0 <= #[trigger] ac[k] < c.len() && a[k]
        == c[ac[k]] by {
        assert(0 <= ab[k] < b.len());
        assert(b[ab[k]] == c[bc[ab[k]]]);
    }
    assert forall|k: int, l: int| 0 <= k < l < ac.len() implies ac[k] < ac[l] by {
        assert(ab[k] < ab[l]);
        assert(0 <= ab[k] < b.len());
        assert(0 <= ab[l] < b.len());
    }
    assert(selects(ac, a, c));
}

/// Removing one entry leaves a selection.
pub proof fn lemma_remove_is_selection(s: Seq<ItemView>, i: int)
    requires
        0 <= i < s.len(),
    ensures
        is_selection(s.remove(i), s),
{
    let r = s.remove(i);
    let at = Seq::new(r.len(), |k: int| if k < i { k } else { k + 1 });
    assert(selects(at, r, s));
}

/// Filtering leaves a selection.
pub proof fn lemma_filter_is_selection(s: Seq<ItemView>, p: spec_fn(ItemView) -> bool)
    ensures
        is_selection(s.filter(p), s),
    decreases s.len(),
{
    reveal(Seq::filter);
    if s.len() == 0 {
        lemma_selection_refl(s);
    } else {
        let head = s.drop_last();
        lemma_filter_is_selection(head, p);
        let at = choose|at: Seq<int>| selects(at, head.filter(p), head);
        if p(s.last()) {
            let at2 = at.push(s.len() - 1);
            assert(at2.len() == s.filter(p).len());
            assert forall|k: int| 0 <= k < at2.len() implies 0 <= #[trigger] at2[k] < s.len()
                && s.filter(p)[k] == s[at2[k]] by {
                if k < at.len() {
                    assert(at2[k] == at[k]);
                    assert(head[at[k]] == s[at[k]]);
                }
            }
            assert forall|k: int, l: int| 0 <= k < l < at2.len() implies at2[k] < at2[l] by {
                assert(at2[k] == at[k]);
                assert(0 <= at[k] < head.len());
                if l < at.len() {
                    assert(at2[l] == at[l]);
                }
            }
            assert(selects(at2, s.filter(p), s));
        } else {
            assert forall|k: int| 0 <= k < at.len() implies 0 <= #[trigger] at[k] < s.len()
                && s.filter(p)[k] == s[at[k]] by {
                assert(head[at[k]] == s[at[k]]);
            }
            assert(selects(at, s.filter(p), s));
        }
    }
}

/// Expiry leaves a selection of the entries.
pub proof fn lemma_pruned_is_selection(s: Seq<ItemView>, ttl_secs: u64, now: i64)
    ensures
        is_selection(pruned(s, ttl_secs, now), s),
{
    if ttl_secs == 0 {
        lemma_selection_refl(s);
    } else {
        lemma_filter_is_selection(s, is_fresh(ttl_secs, now));
    }
}

/// Trim leaves a selection of the entries.
pub proof fn lemma_trimmed_is_selection(s: Seq<ItemView>, max: nat)
    ensures
        is_selection(trimmed_to(s, max), s),
    decreases s.len(),
{
    if s.len() > max {
        let i = first_index(s, is_unpinned());
        if 0 <= i < s.len() {
            lemma_trimmed_is_selection(s.remove(i), max);
            lemma_remove_is_selection(s, i);
            lemma_selection_trans(trimmed_to(s, max), s.remove(i), s);
        } else {
            lemma_selection_refl(s);
        }
    } else {
        lemma_selection_refl(s);
    }
}

/// Trim never drops a pinned entry.
pub proof fn lemma_trim_keeps_pinned(s: Seq<ItemView>, max: nat, j: int)
    requires
        0 <= j < s.len(),
        s[j].pinned,
    ensures
        trimmed_to(s, max).contains(s[j]),
    decreases s.len(),
{
    if s.len() > max {
        let i = first_index(s, is_unpinned());
        lemma_first_from(s, is_unpinned(), 0);
        if 0 <= i < s.len() {
            let r = s.remove(i);
            let j2 = if j < i {
                j
            } else {
                j - 1
            };
            assert(r[j2] == s[j]);
            lemma_trim_keeps_pinned(r, max, j2);
        } else {
            assert(trimmed_to(s, max)[j] == s[j]);
        }
    } else {
        assert(trimmed_to(s, max)[j] == s[j]);
    }
}

/// After a trim the history is within its limit, or holds pinned entries
/// only.
pub proof fn lemma_trim_bound(s: Seq<ItemView>, max: nat)
    ensures
        trimmed_to(s, max).len() <= max || forall|k: int|
            0 <= k < trimmed_to(s, max).len() ==> (#[trigger] trimmed_to(s, max)[k]).pinned,
    decreases s.len(),
{
    if s.len() > max {
        let i = first_index(s, is_unpinned());
        lemma_first_from(s, is_unpinned(), 0);
        if 0 <= i < s.len() {
            lemma_trim_bound(s.remove(i), max);
        }
    }
}

/// Expiry: every entry that stays is pinned or was seen within the time to
/// live; every pinned entry stays; an unpinned entry seen longer ago is gone.
pub proof fn lemma_prune_drops_expired(s: Seq<ItemView>, ttl_secs: u64, now: i64)
    requires
        ttl_secs > 0,
    ensures
        forall|k: int|
            0 <= k < pruned(s, ttl_secs, now).len() ==> {
                let e = #[trigger] pruned(s, ttl_secs, now)[k];
                e.pinned || now - e.ts_ms <= ttl_secs * 1000
            },
        forall|j: int|
            0 <= j < s.len() && (#[trigger] s[j]).pinned ==> pruned(s, ttl_secs, now).contains(s[j]),
        forall|j: int|
            0 <= j < s.len() && !(#[trigger] s[j]).pinned && now - s[j].ts_ms > ttl_secs * 1000
                ==> !pruned(s, ttl_secs, now).contains(s[j]),
{
    let p = is_fresh(ttl_secs, now);
    let r = s.filter(p);
    assert forall|k: int| 0 <= k < r.len() implies {
        let e = #[trigger] r[k];
        e.pinned || now - e.ts_ms <= ttl_secs * 1000
    } by {
        s.lemma_filter_pred(p, k);
    }
    assert forall|j: int| 0 <= j < s.len() && (#[trigger] s[j]).pinned implies r.contains(
        s[j],
    ) by {
        s.lemma_filter_contains(p, j);
    }
    assert forall|j: int|
        0 <= j < s.len() && !(#[trigger] s[j]).pinned && now - s[j].ts_ms > ttl_secs
            * 1000 implies !r.contains(s[j]) by {
        if r.contains(s[j]) {
            let k = choose|k: int| 0 <= k < r.len() && r[k] == s[j];
            s.lemma_filter_pred(p, k);
        }
    }
}

/// An insertion never loses a pinned entry: an identifier that was held
/// pinned before is held pinned after.
pub proof fn lemma_push_keeps_pinned(
    cfg: HistoryConfig,
    s: Seq<ItemView>,
    next_id: u64,
    cand: ItemView,
    now: i64,
    id: u64,
)
    requires
        holds_pinned(s, id),
    ensures
        holds_pinned(pushed(cfg, s, next_id, cand, now).items, id),
{
    let j = choose|k: int| 0 <= k < s.len() && (#[trigger] s[k]).id == id && s[k].pinned;
    let i = first_index(s, has_payload(cand.kind, cand.data));
    let out = pushed(cfg, s, next_id, cand, now).items;
    lemma_first_from(s, has_payload(cand.kind, cand.data), 0);
    if 0 <= i < s.len() {
        if j == i {
            assert(out[out.len() - 1].id == id && out[out.len() - 1].pinned);
        } else {
            let j2 = if j < i {
                j
            } else {
                j - 1
            };
            assert(out[j2] == s[j]);
        }
    } else if too_large(cfg, cand.kind, cand.data.len()) {
    } else {
        let grown = s.push(stamped(cand, next_id, now));
        let kept = pruned(grown, cfg.ttl_secs, now);
        assert(grown[j] == s[j]);
        if cfg.ttl_secs > 0 {
            lemma_prune_drops_expired(grown, cfg.ttl_secs, now);
        }
        assert(kept.contains(s[j]));
        let j3 = choose|k: int| 0 <= k < kept.len() && kept[k] == s[j];
        lemma_trim_keeps_pinned(kept, cfg.max_items as nat, j3);
        let k = choose|k: int| 0 <= k < out.len() && out[k] == s[j];
        assert(out[k].id == id && out[k].pinned);
    }
}

/// The history after a run of insertions, one capture at each time.
pub open spec fn pushed_all(
    cfg: HistoryConfig,
    s: Seq<ItemView>,
    next_id: u64,
    cands: Seq<ItemView>,
    times: Seq<i64>,
) -> Pushed
    decreases cands.len(),
{
    if cands.len() == 0 {
        Pushed { items: s, next_id, id: None }
    } else {
        let last = pushed_all(cfg, s, next_id, cands.drop_last(), times.drop_last());
        pushed(cfg, last.items, last.next_id, cands.last(), times.last())
    }
}

/// Pins protect under trim: whatever is inserted afterwards, however many
/// captures and whatever the limits, an identifier that was held pinned is
/// still held pinned.
pub proof fn lemma_pushes_keep_pinned(
    cfg: HistoryConfig,
    s: Seq<ItemView>,
    next_id: u64,
    cands: Seq<ItemView>,
    times: Seq<i64>,
    id: u64,
)
    requires
        holds_pinned(s, id),
    ensures
        holds_pinned(pushed_all(cfg, s, next_id, cands, times).items, id),
    decreases cands.len(),
{
    if cands.len() > 0 {
        lemma_pushes_keep_pinned(cfg, s, next_id, cands.drop_last(), times.drop_last(), id);
        let last = pushed_all(cfg, s, next_id, cands.drop_last(), times.drop_last());
        lemma_push_keeps_pinned(cfg, last.items, last.next_id, cands.last(), times.last(), id);
    }
}

/// Size rejection: a capture over the limit for its kind whose payload is
/// not already held gets no identifier and leaves the history as it was.
pub proof fn lemma_oversize_rejected(
    cfg: HistoryConfig,
    s: Seq<ItemView>,
    next_id: u64,
    cand: ItemView,
    now: i64,
)
    requires
        too_large(cfg, cand.kind, cand.data.len()),
        first_index(s, has_payload(cand.kind, cand.data)) == s.len(),
    ensures
        pushed(cfg, s, next_id, cand, now).id is None,
        pushed(cfg, s, next_id, cand, now).items == s,
        pushed(cfg, s, next_id, cand, now).next_id == next_id,
{
}

/// Dedup idempotence: where no two entries share a payload, a capture that
/// was accepted and is still held is, when captured again, given the same
/// identifier, and the history does not grow.
pub proof fn lemma_dedup_idempotent(
    cfg: HistoryConfig,
    s: Seq<ItemView>,
    next_id: u64,
    first: ItemView,
    again: ItemView,
    t1: i64,
    t2: i64,
)
    requires
        payloads_distinct(s),
        again.kind == first.kind,
        again.data == first.data,
        pushed(cfg, s, next_id, first, t1).id is Some,
        first_index(pushed(cfg, s, next_id, first, t1).items, has_payload(first.kind, first.data))
            < pushed(cfg, s, next_id, first, t1).items.len(),
    ensures
        ({
            let one = pushed(cfg, s, next_id, first, t1);
            let two = pushed(cfg, one.items, one.next_id, again, t2);
            &&& two.id == one.id
            &&& two.items.len() == one.items.len()
            &&& two.next_id == one.next_id
        }),
{
    let p = has_payload(first.kind, first.data);
    assert(p == has_payload(again.kind, again.data));
    let one = pushed(cfg, s, next_id, first, t1);
    let i = first_index(s, p);
    let k = first_index(one.items, p);
    lemma_first_from(s, p, 0);
    lemma_first_from(one.items, p, 0);
    if 0 <= i < s.len() {
        let rest = s.remove(i);
        assert forall|j: int| 0 <= j < rest.len() implies !p(#[trigger] rest[j]) by {
            if j < i {
                assert(rest[j] == s[j]);
            } else {
                assert(rest[j] == s[j + 1]);
            }
        }
        assert(k == one.items.len() - 1) by {
            if k < one.items.len() - 1 {
                assert(one.items[k] == rest[k]);
            }
        }
    } else {
        let grown = s.push(stamped(first, next_id, t1));
        let kept = pruned(grown, cfg.ttl_secs, t1);
        lemma_pruned_is_selection(grown, cfg.ttl_secs, t1);
        lemma_trimmed_is_selection(kept, cfg.max_items as nat);
        lemma_selection_trans(one.items, kept, grown);
        let at = choose|at: Seq<int>| selects(at, one.items, grown);
        assert(one.items[k] == grown[at[k]]);
        if at[k] < s.len() {
            assert(grown[at[k]] == s[at[k]]);
        }
    }
}

/// A selection of entries with distinct payloads and distinct identifiers
/// has them too.
pub proof fn lemma_selection_keeps_distinct(part: Seq<ItemView>, whole: Seq<ItemView>, next_id: u64)
    requires
        is_selection(part, whole),
    ensures
        payloads_distinct(whole) ==> payloads_distinct(part),
        ids_distinct_below(whole, next_id) ==> ids_distinct_below(part, next_id),
{
    let at = choose|at: Seq<int>| selects(at, part, whole);
    if payloads_distinct(whole) {
        assert forall|i: int, j: int| 0 <= i < j < part.len() implies !((#[trigger] part[i]).kind
            == (#[trigger] part[j]).kind && part[i].data == part[j].data) by {
            assert(part[i] == whole[at[i]]);
            assert(part[j] == whole[at[j]]);
            assert(at[i] < at[j]);
        }
    }
    if ids_distinct_below(whole, next_id) {
        assert forall|i: int, j: int| 0 <= i < j < part.len() implies (#[trigger] part[i]).id != (
        #[trigger] part[j]).id by {
            assert(part[i] == whole[at[i]]);
            assert(part[j] == whole[at[j]]);
            assert(at[i] < at[j]);
        }
        assert forall|i: int| 0 <= i < part.len() implies (#[trigger] part[i]).id < next_id by {
            assert(part[i] == whole[at[i]]);
        }
    }
}

/// A selection of entries whose identifiers are below `next_id` has them
/// below it too.
pub proof fn lemma_selection_keeps_below(part: Seq<ItemView>, whole: Seq<ItemView>, next_id: u64)
    requires
        is_selection(part, whole),
    ensures
        ids_below(whole, next_id) ==> ids_below(part, next_id),
{
    let at = choose|at: Seq<int>| selects(at, part, whole);
    if ids_below(whole, next_id) {
        assert forall|i: int| 0 <= i < part.len() implies (#[trigger] part[i]).id < next_id by {
            assert(part[i] == whole[at[i]]);
        }
    }
}

/// An insertion keeps the identifiers below the next one, and an identifier
/// that it newly gives is one that no entry held.
pub proof fn lemma_push_keeps_below(
    cfg: HistoryConfig,
    s: Seq<ItemView>,
    next_id: u64,
    cand: ItemView,
    now: i64,
)
    requires
        takes_new_id(cfg, s, cand) ==> next_id < u64::MAX,
        ids_below(s, next_id),
    ensures
        ids_below(pushed(cfg, s, next_id, cand, now).items, pushed(cfg, s, next_id, cand, now).next_id),
        takes_new_id(cfg, s, cand) ==> pushed(cfg, s, next_id, cand, now).id == Some(next_id)
            && forall|i: int| 0 <= i < s.len() ==> (#[trigger] s[i]).id != next_id,
{
    let p = has_payload(cand.kind, cand.data);
    let out = pushed(cfg, s, next_id, cand, now);
    let i = first_index(s, p);
    lemma_first_from(s, p, 0);
    if 0 <= i < s.len() {
        assert forall|a: int| 0 <= a < out.items.len() implies (#[trigger] out.items[a]).id
            < next_id by {
            if a < out.items.len() - 1 {
                let a0 = if a < i { a } else { a + 1 };
                assert(out.items[a] == s[a0]);
            } else {
                assert(out.items[a].id == s[i].id);
            }
        }
    } else if too_large(cfg, cand.kind, cand.data.len()) {
    } else {
        let grown = s.push(stamped(cand, next_id, now));
        let kept = pruned(grown, cfg.ttl_secs, now);
        lemma_pruned_is_selection(grown, cfg.ttl_secs, now);
        lemma_trimmed_is_selection(kept, cfg.max_items as nat);
        lemma_selection_trans(out.items, kept, grown);
        assert(ids_below(grown, out.next_id)) by {
            assert forall|a: int| 0 <= a < grown.len() implies (#[trigger] grown[a]).id
                < out.next_id by {
                if a < s.len() {
                    assert(grown[a] == s[a]);
                }
            }
        }
        lemma_selection_keeps_below(out.items, grown, out.next_id);
    }
}

/// An insertion keeps the history well formed: where no two entries shared
/// a payload, none do after; where identifiers were distinct and below the
/// next one, they still are.
pub proof fn lemma_push_keeps_distinct(
    cfg: HistoryConfig,
    s: Seq<ItemView>,
    next_id: u64,
    cand: ItemView,
    now: i64,
)
    requires
        takes_new_id(cfg, s, cand) ==> next_id < u64::MAX,
    ensures
        payloads_distinct(s) ==> payloads_distinct(pushed(cfg, s, next_id, cand, now).items),
        ids_distinct_below(s, next_id) ==> ids_distinct_below(
            pushed(cfg, s, next_id, cand, now).items,
            pushed(cfg, s, next_id, cand, now).next_id,
        ),
{
    let p = has_payload(cand.kind, cand.data);
    let out = pushed(cfg, s, next_id, cand, now);
    let i = first_index(s, p);
    lemma_first_from(s, p, 0);
    if 0 <= i < s.len() {
        let rest = s.remove(i);
        let m = merged(s[i], cand, now);
        assert forall|k: int| 0 <= k < rest.len() implies #[trigger] rest[k] == s[if k < i {
            k
        } else {
            k + 1
        }] by {}
        if payloads_distinct(s) {
            assert forall|a: int, b: int| 0 <= a < b < out.items.len() implies !((
            #[trigger] out.items[a]).kind == (#[trigger] out.items[b]).kind && out.items[a].data
                == out.items[b].data) by {
                let a0 = if a < i { a } else { a + 1 };
                assert(out.items[a] == s[a0]);
                if b < rest.len() {
                    let b0 = if b < i { b } else { b + 1 };
                    assert(out.items[b] == s[b0]);
                } else {
                    assert(out.items[b] == m);
                    assert(m.kind == s[i].kind && m.data == s[i].data);
                    assert(a0 != i);
                    if a0 < i {
                        assert(!(s[a0].kind == s[i].kind && s[a0].data == s[i].data));
                    } else {
                        assert(!(s[i].kind == s[a0].kind && s[i].data == s[a0].data));
                    }
                }
            }
        }
        if ids_distinct_below(s, next_id) {
            assert forall|a: int, b: int| 0 <= a < b < out.items.len() implies (
            #[trigger] out.items[a]).id != (#[trigger] out.items[b]).id by {
                let a0 = if a < i { a } else { a + 1 };
                assert(out.items[a] == s[a0]);
                if b < rest.len() {
                    let b0 = if b < i { b } else { b + 1 };
                    assert(out.items[b] == s[b0]);
                } else {
                    assert(out.items[b] == m);
                    assert(m.id == s[i].id);
                    if a0 < i {
                        assert(s[a0].id != s[i].id);
                    } else {
                        assert(s[i].id != s[a0].id);
                    }
                }
            }
            assert forall|a: int| 0 <= a < out.items.len() implies (#[trigger] out.items[a]).id
                < next_id by {
                if a < rest.len() {
                    let a0 = if a < i { a } else { a + 1 };
                    assert(out.items[a] == s[a0]);
                } else {
                    assert(out.items[a] == m);
                    assert(m.id == s[i].id);
                }
            }
        }
    } else if too_large(cfg, cand.kind, cand.data.len()) {
    } else {
        let st = stamped(cand, next_id, now);
        let grown = s.push(st);
        let kept = pruned(grown, cfg.ttl_secs, now);
        lemma_pruned_is_selection(grown, cfg.ttl_secs, now);
        lemma_trimmed_is_selection(kept, cfg.max_items as nat);
        lemma_selection_trans(out.items, kept, grown);
        lemma_selection_keeps_distinct(out.items, grown, out.next_id);
        if payloads_distinct(s) {
            assert forall|a: int, b: int| 0 <= a < b < grown.len() implies !((
            #[trigger] grown[a]).kind == (#[trigger] grown[b]).kind && grown[a].data
                == grown[b].data) by {
                assert(grown[a] == s[a]);
                if b < s.len() {
                    assert(grown[b] == s[b]);
                } else {
                    assert(!p(s[a]));
                }
            }
        }
        if ids_distinct_below(s, next_id) {
            assert forall|a: int, b: int| 0 <= a < b < grown.len() implies (#[trigger] grown[a]).id
                != (#[trigger] grown[b]).id by {
                assert(grown[a] == s[a]);
                if b < s.len() {
                    assert(grown[b] == s[b]);
                }
            }
            assert forall|a: int| 0 <= a < grown.len() implies (#[trigger] grown[a]).id
                < out.next_id by {
                if a < s.len() {
                    assert(grown[a] == s[a]);
                }
            }
        }
    }
}

/// The history of clipboard entries, oldest first.
pub struct History {
    cfg: HistoryConfig,
    items: Vec<Item>,
    next_id: u64,
}

impl View for History {
    type V = Seq<ItemView>;

    closed spec fn view(&self) -> Seq<ItemView> {
        views(self.items@)
    }
}

impl Default for History {
    /// An empty history under the default limits whose identifiers start
    /// at 0.
    fn default() -> (h: Self)
        ensures
            h@ == Seq::<ItemView>::empty(),
            h.next_id() == 0,
            h.ids_below_next(),
            h.config() == (HistoryConfig {
                max_items: 200,
                max_text_bytes: 100_000,
                max_image_bytes: 2_000_000,
                ttl_secs: 0,
            }),
    {
        let h = History { cfg: HistoryConfig::default(), items: Vec::new(), next_id: 0 };
        assert(h@ =~= Seq::<ItemView>::empty());
        h
    }
}

impl History {
    /// The limits this history was made with.
    pub closed spec fn config(&self) -> HistoryConfig {
        self.cfg
    }

    /// The identifier that the next new entry gets.
    pub closed spec fn next_id(&self) -> u64 {
        self.next_id
    }

    /// An empty history with the given limits; identifiers start at 1.
    pub fn with_config(cfg: HistoryConfig) -> (h: Self)
        ensures
            h@ == Seq::<ItemView>::empty(),
            h.config() == cfg,
            h.next_id() == 1,
            h.ids_below_next(),
    {
        let h = History { cfg, items: Vec::new(), next_id: 1 };
        assert(h@ =~= Seq::<ItemView>::empty());
        h
    }

    /// The number of entries held.
    pub fn len(&self) -> (n: usize)
        ensures
            n == self@.len(),
    {
        self.items.len()
    }

    /// The entries, oldest first.
    pub fn all(&self) -> (items: &[Item])
        ensures
            views(items@) == self@,
    {
        self.items.as_slice()
    }

    /// Whether a new entry can still be given an identifier.
    pub fn has_spare_id(&self) -> (b: bool)
        ensures
            b == (self.next_id() < u64::MAX),
    {
        self.next_id < u64::MAX
    }

    /// Whether every identifier held is below the next one to give, so that
    /// a new entry gets an identifier that no entry holds. A new history has
    /// it, every method keeps it, and `rebuild_from` gives it unless the
    /// largest identifier is `u64::MAX`.
    pub open spec fn ids_below_next(&self) -> bool {
        ids_below(self@, self.next_id())
    }

    /// Whether `item` can be inserted: it takes no new identifier, or one
    /// is left to give.
    pub open spec fn can_take(&self, cand: ItemView) -> bool {
        takes_new_id(self.config(), self@, cand) ==> self.next_id() < u64::MAX
    }

    /// Whether a capture of the given kind and bytes can be inserted: it
    /// takes no new identifier, or one is left to give.
    pub fn can_insert(&self, kind: ItemKind, data: &Vec<u8>) -> (b: bool)
        ensures
            forall|cand: ItemView|
                cand.kind == kind && cand.data == data@ ==> b == #[trigger] self.can_take(cand),
    {
        if self.next_id < u64::MAX {
            return true;
        }
        let pos = find_payload(&self.items, kind, data);
        proof {
            lemma_first_from(self@, has_payload(kind, data@), 0);
        }
        let over = match kind {
            ItemKind::Text => data.len() > self.cfg.max_text_bytes,
            ItemKind::Image => data.len() > self.cfg.max_image_bytes,
            ItemKind::Html => false,
        };
        pos < self.items.len() || over
    }

    /// Drops all entries, pinned ones too. Identifiers go on from where they
    /// were.
    pub fn clear(&mut self)
        ensures
            final(self)@ == Seq::<ItemView>::empty(),
            final(self).config() == old(self).config(),
            final(self).next_id() == old(self).next_id(),
            final(self).ids_below_next(),
    {
        self.items.clear();
        assert(self@ =~= Seq::<ItemView>::empty());
    }

    /// The first entry with the identifier `id`.
    pub fn find(&self, id: u64) -> (found: Option<&Item>)
        ensures
            match found {
                Some(it) => {
                    let i = first_index(self@, has_id(id));
                    0 <= i < self@.len() && it@ == self@[i]
                },
                None => first_index(self@, has_id(id)) == self@.len(),
            },
    {
        let i = find_id(&self.items, id);
        if i < self.items.len() {
            assert(views(self.items@)[i as int] == self.items@[i as int]@);
            Some(&self.items[i])
        } else {
            None
        }
    }

    /// Pins or unpins the entry with the identifier `id`. An identifier
    /// that is not held changes nothing and is no error.
    pub fn pin(&mut self, id: u64, pinned: bool)
        ensures
            final(self)@ == pinned_as(old(self)@, id, pinned),
            final(self).config() == old(self).config(),
            final(self).next_id() == old(self).next_id(),
            old(self).ids_below_next() ==> final(self).ids_below_next(),
            final(self)@.len() == old(self)@.len(),
            forall|k: int|
                0 <= k < old(self)@.len() ==> {
                    let a = #[trigger] final(self)@[k];
                    let b = old(self)@[k];
                    a.id == b.id && a.kind == b.kind && a.data == b.data && a.ts_ms == b.ts_ms
                },
    {
        proof {
            lemma_first_from(old(self)@, has_id(id), 0);
        }
        let i = find_id(&self.items, id);
        if i < self.items.len() {
            let ghost before = self.items@;
            let mut it = self.items.remove(i);
            it.pinned = pinned;
            self.items.insert(i, it);
            assert(views(before)[i as int] == before[i as int]@);
            assert(self@ =~= pinned_as(old(self)@, id, pinned));
        }
    }

    /// Removes every entry with the identifier `id`, pinned or not, and says
    /// whether there was one.
    pub fn delete(&mut self, id: u64) -> (found: bool)
        ensures
            final(self)@ == old(self)@.filter(lacks_id(id)),
            found == (first_index(old(self)@, has_id(id)) < old(self)@.len()),
            final(self).config() == old(self).config(),
            final(self).next_id() == old(self).next_id(),
            is_selection(final(self)@, old(self)@),
            old(self).ids_below_next() ==> final(self).ids_below_next(),
            first_index(final(self)@, has_id(id)) == final(self)@.len(),
    {
        proof {
            let s = old(self)@;
            let r = s.filter(lacks_id(id));
            lemma_filter_is_selection(s, lacks_id(id));
            lemma_selection_keeps_below(r, s, old(self).next_id);
            lemma_first_from(r, has_id(id), 0);
            let k = first_index(r, has_id(id));
            if k < r.len() {
                s.lemma_filter_pred(lacks_id(id), k);
            }
        }
        let first = find_id(&self.items, id);
        let found = first < self.items.len();
        let mut keep: Vec<bool> = Vec::new();
        let mut j: usize = 0;
        while j < self.items.len()
            invariant
                j <= self.items.len(),
                keep.len() == j,
                forall|k: int| 0 <= k < j ==> keep[k] == lacks_id(id)(#[trigger] self.items[k]@),
            decreases self.items.len() - j,
        {
            keep.push(self.items[j].id != id);
            j += 1;
        }
        retain_flagged(&mut self.items, &keep, Ghost(lacks_id(id)));
        found
    }

    /// Replaces the entries by `items`, in the order given, and lets
    /// identifiers go on after the largest one among them (from 1 where
    /// there is none).
    pub fn rebuild_from(&mut self, items: Vec<Item>)
        ensures
            final(self)@ == views(items@),
            final(self).next_id() == id_after(views(items@)),
            final(self).config() == old(self).config(),
            forall|i: int|
                0 <= i < final(self)@.len() ==> (#[trigger] final(self)@[i]).id <= max_id(
                    final(self)@,
                ),
            max_id(final(self)@) < u64::MAX ==> final(self).ids_below_next(),
    {
        proof {
            lemma_max_id_bounds(views(items@));
        }
        let mut max: u64 = 0;
        let mut j: usize = 0;
        while j < items.len()
            invariant
                j <= items.len(),
                max == max_id(views(items@).subrange(0, j as int)),
            decreases items.len() - j,
        {
            assert(views(items@).subrange(0, j + 1).drop_last() =~= views(items@).subrange(
                0,
                j as int,
            ));
            assert(views(items@).subrange(0, j + 1).last() == items@[j as int]@);
            if items[j].id > max {
                max = items[j].id;
            }
            j += 1;
        }
        assert(views(items@).subrange(0, j as int) =~= views(items@));
        self.items = items;
        self.next_id = if max == u64::MAX {
            u64::MAX
        } else {
            max + 1
        };
    }

    /// Capacity trim: while more entries are held than the limit allows, the
    /// oldest unpinned one is dropped. Pinned entries are never dropped, so
    /// the history may stay over the limit.
    pub fn trim(&mut self)
        ensures
            final(self)@ == trimmed_to(old(self)@, old(self).config().max_items as nat),
            final(self).config() == old(self).config(),
            final(self).next_id() == old(self).next_id(),
            is_selection(final(self)@, old(self)@),
            old(self).ids_below_next() ==> final(self).ids_below_next(),
            forall|x: u64| holds_pinned(old(self)@, x) ==> holds_pinned(final(self)@, x),
            final(self)@.len() <= old(self).config().max_items || forall|k: int|
                0 <= k < final(self)@.len() ==> (#[trigger] final(self)@[k]).pinned,
    {
        proof {
            let s = old(self)@;
            let m = old(self).cfg.max_items as nat;
            lemma_trimmed_is_selection(s, m);
            lemma_selection_keeps_below(trimmed_to(s, m), s, old(self).next_id);
            lemma_trim_bound(s, m);
            assert forall|x: u64| holds_pinned(s, x) implies holds_pinned(trimmed_to(s, m), x) by {
                let j = choose|k: int| 0 <= k < s.len() && (#[trigger] s[k]).id == x && s[k].pinned;
                lemma_trim_keeps_pinned(s, m, j);
                let t = trimmed_to(s, m);
                let k = choose|k: int| 0 <= k < t.len() && t[k] == s[j];
                assert(t[k].id == x && t[k].pinned);
            }
        }
        let max = self.cfg.max_items;
        let mut i: usize = 0;
        while self.items.len() > max && i < self.items.len()
            invariant
                i <= self.items.len(),
                max == old(self).cfg.max_items,
                self.cfg == old(self).cfg,
                self.next_id == old(self).next_id,
                forall|j: int| 0 <= j < i ==> (#[trigger] views(self.items@)[j]).pinned,
                trimmed_to(views(self.items@), max as nat) == trimmed_to(old(self)@, max as nat),
            decreases self.items.len() - i,
        {
            let ghost cur = views(self.items@);
            assert(cur[i as int] == self.items@[i as int]@);
            if !self.items[i].pinned {
                proof {
                    lemma_first_from(cur, is_unpinned(), 0);
                    assert(first_index(cur, is_unpinned()) == i);
                }
                let _ = self.items.remove(i);
                assert(views(self.items@) =~= cur.remove(i as int));
            } else {
                i += 1;
            }
        }
        proof {
            let cur = views(self.items@);
            if cur.len() > max {
                lemma_first_from(cur, is_unpinned(), 0);
            }
        }
    }

    /// Expiry at time `now`: with a positive time to live, unpinned entries
    /// last seen longer ago than that are dropped.
    pub fn prune_ttl_at(&mut self, now: i64)
        ensures
            final(self)@ == pruned(old(self)@, old(self).config().ttl_secs, now),
            final(self).config() == old(self).config(),
            final(self).next_id() == old(self).next_id(),
            is_selection(final(self)@, old(self)@),
            old(self).ids_below_next() ==> final(self).ids_below_next(),
            forall|x: u64| holds_pinned(old(self)@, x) ==> holds_pinned(final(self)@, x),
            old(self).config().ttl_secs > 0 ==> forall|k: int|
                0 <= k < final(self)@.len() ==> is_fresh(old(self).config().ttl_secs, now)(
                    #[trigger] final(self)@[k],
                ),
    {
        proof {
            let s = old(self)@;
            let ttl = old(self).cfg.ttl_secs;
            lemma_pruned_is_selection(s, ttl, now);
            lemma_selection_keeps_below(pruned(s, ttl, now), s, old(self).next_id);
            if ttl > 0 {
                lemma_prune_drops_expired(s, ttl, now);
            }
            assert forall|x: u64| holds_pinned(s, x) implies holds_pinned(pruned(s, ttl, now), x) by {
                let j = choose|k: int| 0 <= k < s.len() && (#[trigger] s[k]).id == x && s[k].pinned;
                let t = pruned(s, ttl, now);
                if ttl > 0 {
                    assert(t.contains(s[j]));
                    let k = choose|k: int| 0 <= k < t.len() && t[k] == s[j];
                    assert(t[k].id == x && t[k].pinned);
                }
            }
        }
        if self.cfg.ttl_secs == 0 {
            return ;
        }
        let ttl = self.cfg.ttl_secs;
        let mut keep: Vec<bool> = Vec::new();
        let mut j: usize = 0;
        while j < self.items.len()
            invariant
                j <= self.items.len(),
                keep.len() == j,
                forall|k: int|
                    0 <= k < j ==> keep[k] == is_fresh(ttl, now)(#[trigger] self.items[k]@),
            decreases self.items.len() - j,
        {
            let it = &self.items[j];
            let age: i128 = (now as i128) - (it.ts_ms as i128);
            let limit: i128 = (ttl as i128) * 1000;
            keep.push(it.pinned || age <= limit);
            j += 1;
        }
        retain_flagged(&mut self.items, &keep, Ghost(is_fresh(ttl, now)));
    }

    /// Expiry at the time the clock gives.
    pub fn prune_ttl(&mut self)
        ensures
            exists|now: i64|
                now >= 0 && final(self)@ == #[trigger] pruned(
                    old(self)@,
                    old(self).config().ttl_secs,
                    now,
                ),
            final(self).config() == old(self).config(),
            final(self).next_id() == old(self).next_id(),
            is_selection(final(self)@, old(self)@),
            old(self).ids_below_next() ==> final(self).ids_below_next(),
            forall|x: u64| holds_pinned(old(self)@, x) ==> holds_pinned(final(self)@, x),
    {
        let now = now_ms();
        self.prune_ttl_at(now);
        assert(now >= 0 && self@ == pruned(old(self)@, old(self).config().ttl_secs, now));
    }

    /// Whether `after` and `id` are what inserting `cand` into `self` at time
    /// `now` gives.
    pub open spec fn pushes_to(self, cand: ItemView, now: i64, after: History, id: Option<u64>) -> bool {
        let p = pushed(self.config(), self@, self.next_id(), cand, now);
        &&& after@ == p.items
        &&& after.next_id() == p.next_id
        &&& id == p.id
        &&& after.config() == self.config()
    }

    /// Inserts `item` at time `now`; the identifier and time it carries are
    /// not used. A capture whose payload is already held refreshes that
    /// entry, whatever its size. Otherwise one over the limit for its kind
    /// is refused and nothing changes, and any other becomes the most
    /// recent entry, after which expiry and trim run.
    pub fn try_push_at(&mut self, item: Item, now: i64) -> (id: Option<u64>)
        requires
            old(self).can_take(item@),
        ensures
            old(self).pushes_to(item@, now, *final(self), id),
            id is Some <==> accepts(old(self).config(), old(self)@, item@),
            id is None ==> final(self)@ == old(self)@,
            first_index(old(self)@, has_payload(item.kind, item.data@)) < old(self)@.len() ==> {
                &&& id == Some(
                    old(self)@[first_index(old(self)@, has_payload(item.kind, item.data@))].id,
                )
                &&& final(self)@.len() == old(self)@.len()
            },
            forall|x: u64| holds_pinned(old(self)@, x) ==> holds_pinned(final(self)@, x),
            payloads_distinct(old(self)@) ==> payloads_distinct(final(self)@),
            ids_distinct_below(old(self)@, old(self).next_id()) ==> ids_distinct_below(
                final(self)@,
                final(self).next_id(),
            ),
            old(self).ids_below_next() ==> final(self).ids_below_next(),
            old(self).ids_below_next() && takes_new_id(old(self).config(), old(self)@, item@)
                ==> forall|i: int|
                0 <= i < old(self)@.len() ==> Some((#[trigger] old(self)@[i]).id) != id,
    {
        let ghost before = self@;
        let ghost cand = item@;
        proof {
            lemma_first_from(before, has_payload(cand.kind, cand.data), 0);
            lemma_push_keeps_distinct(self.cfg, before, self.next_id, cand, now);
            if ids_below(before, self.next_id) {
                lemma_push_keeps_below(self.cfg, before, self.next_id, cand, now);
            }
            assert forall|x: u64| holds_pinned(before, x) implies holds_pinned(
                pushed(self.cfg, before, self.next_id, cand, now).items,
                x,
            ) by {
                lemma_push_keeps_pinned(self.cfg, before, self.next_id, cand, now, x);
            }
        }
        let pos = find_payload(&self.items, item.kind, &item.data);
        if pos < self.items.len() {
            assert(before[pos as int] == self.items@[pos as int]@);
            let mut existing = self.items.remove(pos);
            existing.pinned = existing.pinned || item.pinned;
            existing.ts_ms = now;
            if existing.mime.is_none() {
                existing.mime = item.mime;
            }
            if existing.file_path.is_none() {
                existing.file_path = item.file_path;
            }
            let id = existing.id;
            assert(existing@ == merged(before[pos as int], cand, now));
            self.items.push(existing);
            assert(self@ =~= before.remove(pos as int).push(merged(before[pos as int], cand, now)));
            return Some(id);
        }
        let over = match item.kind {
            ItemKind::Text => item.data.len() > self.cfg.max_text_bytes,
            ItemKind::Image => item.data.len() > self.cfg.max_image_bytes,
            ItemKind::Html => false,
        };
        if over {
            return None;
        }
        let mut item = item;
        let id = self.next_id;
        item.id = id;
        item.ts_ms = now;
        self.next_id = self.next_id + 1;
        self.items.push(item);
        assert(self@ =~= before.push(stamped(cand, id, now)));
        self.prune_ttl_at(now);
        self.trim();
        Some(id)
    }

    /// Inserts `item` at the time the clock gives. See
    /// [`History::try_push_at`]; what does not depend on the time is stated
    /// here again.
    pub fn try_push(&mut self, item: Item) -> (id: Option<u64>)
        requires
            old(self).can_take(item@),
        ensures
            exists|now: i64|
                now >= 0 && #[trigger] old(self).pushes_to(item@, now, *final(self), id),
            id is Some <==> accepts(old(self).config(), old(self)@, item@),
            id is None ==> final(self)@ == old(self)@,
            first_index(old(self)@, has_payload(item.kind, item.data@)) < old(self)@.len() ==> {
                &&& id == Some(
                    old(self)@[first_index(old(self)@, has_payload(item.kind, item.data@))].id,
                )
                &&& final(self)@.len() == old(self)@.len()
            },
            forall|x: u64| holds_pinned(old(self)@, x) ==> holds_pinned(final(self)@, x),
            payloads_distinct(old(self)@) ==> payloads_distinct(final(self)@),
            ids_distinct_below(old(self)@, old(self).next_id()) ==> ids_distinct_below(
                final(self)@,
                final(self).next_id(),
            ),
            old(self).ids_below_next() ==> final(self).ids_below_next(),
            old(self).ids_below_next() && takes_new_id(old(self).config(), old(self)@, item@)
                ==> forall|i: int|
                0 <= i < old(self)@.len() ==> Some((#[trigger] old(self)@[i]).id) != id,
    {
        let now = now_ms();
        let id = self.try_push_at(item, now);
        assert(now >= 0 && old(self).pushes_to(item@, now, *self, id));
        id
    }

    /// Inserts an `item` that is accepted and gives its identifier. See
    /// [`History::try_push`].
    pub fn push(&mut self, item: Item) -> (id: u64)
        requires
            old(self).can_take(item@),
            accepts(old(self).config(), old(self)@, item@),
        ensures
            exists|now: i64|
                now >= 0 && #[trigger] old(self).pushes_to(item@, now, *final(self), Some(id)),
            first_index(old(self)@, has_payload(item.kind, item.data@)) < old(self)@.len() ==> {
                &&& id == old(self)@[first_index(
                    old(self)@,
                    has_payload(item.kind, item.data@),
                )].id
                &&& final(self)@.len() == old(self)@.len()
            },
            forall|x: u64| holds_pinned(old(self)@, x) ==> holds_pinned(final(self)@, x),
            payloads_distinct(old(self)@) ==> payloads_distinct(final(self)@),
            ids_distinct_below(old(self)@, old(self).next_id()) ==> ids_distinct_below(
                final(self)@,
                final(self).next_id(),
            ),
            old(self).ids_below_next() ==> final(self).ids_below_next(),
            old(self).ids_below_next() && takes_new_id(old(self).config(), old(self)@, item@)
                ==> forall|i: int| 0 <= i < old(self)@.len() ==> (#[trigger] old(self)@[i]).id != id,
    {
        self.try_push(item).expect("push() should be used only for items within limits")
    }
}

} // verus!
