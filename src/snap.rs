use vstd::prelude::*;
use vstd::wrapping::i32_specs;

verus! {

/// Identifies one item of a snapshot: its type and its instance.
#[derive(Clone, Copy, Debug, PartialEq, Eq, Structural)]
pub struct ItemKey {
    pub type_id: u16,
    pub id: u16,
}

/// The model of one item: its key and its data words.
pub type ItemV = (ItemKey, Seq<i32>);

/// Lexicographic order on keys: by type, then by instance.
pub open spec fn key_lt(a: ItemKey, b: ItemKey) -> bool {
    a.type_id < b.type_id || (a.type_id == b.type_id && a.id < b.id)
}

impl ItemKey {
    pub fn new(type_id: u16, id: u16) -> (r: ItemKey)
        ensures
            r.type_id == type_id,
            r.id == id,
    {
        ItemKey { type_id, id }
    }

    /// Whether `self` comes strictly before `other`.
    pub fn less_than(&self, other: &ItemKey) -> (r: bool)
        ensures
            r == key_lt(*self, *other),
    {
        self.type_id < other.type_id || (self.type_id == other.type_id && self.id < other.id)
    }
}

/// One record of a snapshot: a key and its data words.
#[derive(Debug)]
pub struct Item {
    pub key: ItemKey,
    pub data: Vec<i32>,
}

impl Item {
    pub open spec fn view(&self) -> ItemV {
        (self.key, self.data@)
    }

    pub fn new(key: ItemKey, data: Vec<i32>) -> (r: Item)
        ensures
            r.key == key,
            r.data@ == data@,
    {
        Item { key, data }
    }

    pub fn copy(&self) -> (r: Item)
        ensures
            r@ == self@,
    {
        Item { key: self.key, data: copy_words(&self.data) }
    }
}

fn copy_words(v: &Vec<i32>) -> (r: Vec<i32>)
    ensures
        r@ == v@,
{
    let mut r: Vec<i32> = Vec::with_capacity(v.len());
    let mut i: usize = 0;
    while i < v.len()
        invariant
            i <= v@.len(),
            r@ == v@.subrange(0, i as int),
        decreases v@.len() - i,
    {
        r.push(v[i]);
        i += 1;
        assert(r@ =~= v@.subrange(0, i as int));
    }
    assert(r@ =~= v@);
    r
}

pub open spec fn keys_of(s: Seq<ItemV>) -> Seq<ItemKey> {
    s.map_values(|it: ItemV| it.0)
}

/// Keys strictly increasing along the sequence.
pub open spec fn sorted_keys(s: Seq<ItemKey>) -> bool {
    forall|i: int, j: int| 0 <= i < j < s.len() ==> key_lt(s[i], s[j])
}

/// Items strictly increasing by key, hence with unique keys.
pub open spec fn sorted_items(s: Seq<ItemV>) -> bool {
    forall|i: int, j: int| 0 <= i < j < s.len() ==> key_lt(#[trigger] s[i].0, #[trigger] s[j].0)
}

/// Word-wise difference `to - from`, wrapping on overflow.
pub open spec fn sub_words(to: Seq<i32>, from: Seq<i32>) -> Seq<i32>
    recommends
        to.len() == from.len(),
{
    Seq::new(to.len(), |i: int| i32_specs::wrapping_sub(to[i], from[i]))
}

/// Word-wise sum `base + d`, wrapping on overflow.
pub open spec fn add_words(base: Seq<i32>, d: Seq<i32>) -> Seq<i32>
    recommends
        base.len() == d.len(),
{
    Seq::new(base.len(), |i: int| i32_specs::wrapping_add(base[i], d[i]))
}

pub open spec fn all_zero(s: Seq<i32>) -> bool {
    forall|i: int| 0 <= i < s.len() ==> s[i] == 0
}

/// The model of a delta: added items, removed keys, updated items (with
/// word differences in place of data).
pub struct DeltaV {
    pub added: Seq<ItemV>,
    pub removed: Seq<ItemKey>,
    pub updated: Seq<ItemV>,
}

pub open spec fn delta_v(added: Seq<ItemV>, removed: Seq<ItemKey>, updated: Seq<ItemV>) -> DeltaV {
    DeltaV { added, removed, updated }
}

/// The delta that prefixes `d` with the contributions of one merge step.
pub open spec fn prepend(a: Seq<ItemV>, r: Seq<ItemKey>, u: Seq<ItemV>, d: DeltaV) -> DeltaV {
    DeltaV { added: a + d.added, removed: r + d.removed, updated: u + d.updated }
}

/// The delta from `from` to `to`, walking both key-sorted sequences in step.
/// A key only in `to` is added, a key only in `from` is removed, and a key in
/// both is updated by its word differences when they are not all zero; an
/// item whose arity changed is removed and added again.
pub open spec fn diff_spec(from: Seq<ItemV>, to: Seq<ItemV>) -> DeltaV
    decreases from.len() + to.len(),
{
    if from.len() == 0 {
        delta_v(to, seq![], seq![])
    } else if to.len() == 0 {
        delta_v(seq![], keys_of(from), seq![])
    } else {
        let f = from[0];
        let t = to[0];
        if key_lt(t.0, f.0) {
            prepend(seq![t], seq![], seq![], diff_spec(from, to.drop_first()))
        } else if key_lt(f.0, t.0) {
            prepend(seq![], seq![f.0], seq![], diff_spec(from.drop_first(), to))
        } else if f.1.len() != t.1.len() {
            prepend(seq![t], seq![f.0], seq![], diff_spec(from.drop_first(), to.drop_first()))
        } else if all_zero(sub_words(t.1, f.1)) {
            diff_spec(from.drop_first(), to.drop_first())
        } else {
            prepend(seq![], seq![], seq![(t.0, sub_words(t.1, f.1))], diff_spec(from.drop_first(), to.drop_first()))
        }
    }
}

pub open spec fn items_view(v: Seq<Item>) -> Seq<ItemV> {
    v.map_values(|it: Item| it@)
}

/// A snapshot of world state: items sorted strictly by key.
#[derive(Debug)]
pub struct Snap {
    items: Vec<Item>,
}

impl Snap {
    pub closed spec fn view(&self) -> Seq<ItemV> {
        items_view(self.items@)
    }

    pub open spec fn wf(&self) -> bool {
        sorted_items(self@)
    }

    /// The snapshot without items.
    pub fn empty() -> (r: Snap)
        ensures
            r@ == Seq::<ItemV>::empty(),
            r.wf(),
    {
        Snap { items: Vec::new() }
    }

    /// Builds a snapshot from items, which must be sorted strictly by key.
    pub fn from_items(items: Vec<Item>) -> (r: Result<Snap, SnapError>)
        ensures
            r is Ok <==> sorted_items(items_view(items@)),
            r is Ok ==> r->Ok_0@ == items_view(items@) && r->Ok_0.wf(),
            r is Err ==> r->Err_0 == SnapError::UnsortedItems,
    {
        let mut i: usize = 1;
        while i < items.len()
            invariant
                1 <= i,
                forall|a: int, b: int| 0 <= a < b < i && b < items@.len()
                    ==> key_lt(#[trigger] items@[a].key, #[trigger] items@[b].key),
            decreases items@.len() - i,
        {
            if !items[i - 1].key.less_than(&items[i].key) {
                assert(!key_lt(items_view(items@)[i - 1].0, items_view(items@)[i as int].0));
                return Err(SnapError::UnsortedItems);
            }
            i += 1;
        }
        let r = Snap { items };
        assert(sorted_items(r@)) by {
            assert forall|a: int, b: int| 0 <= a < b < r@.len() implies key_lt(#[trigger] r@[a].0, #[trigger] r@[b].0) by {
                assert(r@[a].0 == r.items@[a].key);
                assert(r@[b].0 == r.items@[b].key);
            }
        }
        Ok(r)
    }

    pub fn len(&self) -> (r: usize)
        ensures
            r == self@.len(),
    {
        self.items.len()
    }

    /// The item at position `i` in key order.
    pub fn item(&self, i: usize) -> (r: &Item)
        requires
            i < self@.len(),
        ensures
            r@ == self@[i as int],
    {
        &self.items[i]
    }

    pub fn copy(&self) -> (r: Snap)
        ensures
            r@ == self@,
    {
        Snap { items: copy_items(&self.items) }
    }
}

fn copy_items(v: &Vec<Item>) -> (r: Vec<Item>)
    ensures
        items_view(r@) == items_view(v@),
{
    let mut r: Vec<Item> = Vec::with_capacity(v.len());
    let mut i: usize = 0;
    while i < v.len()
        invariant
            i <= v@.len(),
            r@.len() == i,
            forall|k: int| 0 <= k < i ==> (#[trigger] r@[k])@ == v@[k]@,
        decreases v@.len() - i,
    {
        r.push(v[i].copy());
        i += 1;
    }
    assert(items_view(r@) =~= items_view(v@));
    r
}

/// Errors in building a snapshot.
#[derive(Clone, Copy, Debug, PartialEq, Eq, Structural)]
pub enum SnapError {
    UnsortedItems,
}

/// The difference between two snapshots.
#[derive(Debug)]
pub struct Delta {
    pub added: Vec<Item>,
    pub removed: Vec<ItemKey>,
    pub updated: Vec<Item>,
}

impl Delta {
    pub open spec fn view(&self) -> DeltaV {
        DeltaV { added: items_view(self.added@), removed: self.removed@, updated: items_view(self.updated@) }
    }
}

fn word_diff(to: &Vec<i32>, from: &Vec<i32>) -> (r: (Vec<i32>, bool))
    requires
        to@.len() == from@.len(),
    ensures
        r.0@ == sub_words(to@, from@),
        r.1 == all_zero(r.0@),
{
    let mut out: Vec<i32> = Vec::with_capacity(to.len());
    let mut zero = true;
    let mut i: usize = 0;
    while i < to.len()
        invariant
            i <= to@.len(),
            to@.len() == from@.len(),
            out@ == sub_words(to@, from@).subrange(0, i as int),
            zero == all_zero(out@),
        decreases to@.len() - i,
    {
        let w = to[i].wrapping_sub(from[i]);
        let ghost o0 = out@;
        out.push(w);
        assert(all_zero(out@) == (all_zero(o0) && w == 0)) by {
            assert(out@ == o0.push(w));
            if all_zero(o0) && w == 0 {
                assert forall|k: int| 0 <= k < out@.len() implies out@[k] == 0 by {
                    if k < o0.len() {
                        assert(out@[k] == o0[k]);
                    }
                }
            }
            if !(w == 0) {
                assert(out@[o0.len() as int] == w);
            }
            if !all_zero(o0) {
                let k = choose|k: int| 0 <= k < o0.len() && o0[k] != 0;
                assert(out@[k] == o0[k]);
            }
        }
        if w != 0 {
            zero = false;
        }
        i += 1;
        assert(out@ =~= sub_words(to@, from@).subrange(0, i as int));
    }
    assert(out@ =~= sub_words(to@, from@));
    (out, zero)
}

proof fn lemma_skip_first<A>(s: Seq<A>, i: int)
    requires
        0 <= i < s.len(),
    ensures
        s.subrange(i, s.len() as int).len() > 0,
        s.subrange(i, s.len() as int)[0] == s[i],
        s.subrange(i, s.len() as int).drop_first() == s.subrange(i + 1, s.len() as int),
{
    assert(s.subrange(i, s.len() as int).drop_first() =~= s.subrange(i + 1, s.len() as int));
}

proof fn lemma_prepend_assoc(a: Seq<ItemV>, r: Seq<ItemKey>, u: Seq<ItemV>, a2: Seq<ItemV>, r2: Seq<ItemKey>, u2: Seq<ItemV>, d: DeltaV)
    ensures
        prepend(a, r, u, prepend(a2, r2, u2, d)) == prepend(a + a2, r + r2, u + u2, d),
{
    assert(a + (a2 + d.added) =~= (a + a2) + d.added);
    assert(r + (r2 + d.removed) =~= (r + r2) + d.removed);
    assert(u + (u2 + d.updated) =~= (u + u2) + d.updated);
}

/// The delta from `from` to `to`.
pub fn diff(from: &Snap, to: &Snap) -> (r: Delta)
    ensures
        r@ == diff_spec(from@, to@),
{
    let ghost fv = from@;
    let ghost tv = to@;
    let mut added: Vec<Item> = Vec::new();
    let mut removed: Vec<ItemKey> = Vec::new();
    let mut updated: Vec<Item> = Vec::new();
    let mut i: usize = 0;
    let mut j: usize = 0;
    assert(fv.subrange(0, fv.len() as int) =~= fv);
    assert(tv.subrange(0, tv.len() as int) =~= tv);
    while i < from.items.len() && j < to.items.len()
        invariant
            i <= fv.len(),
            j <= tv.len(),
            fv == from@,
            tv == to@,
            diff_spec(fv, tv) == prepend(items_view(added@), removed@, items_view(updated@),
                diff_spec(fv.subrange(i as int, fv.len() as int), tv.subrange(j as int, tv.len() as int))),
        decreases fv.len() + tv.len() - i - j,
    {
        let ghost fr = fv.subrange(i as int, fv.len() as int);
        let ghost tr = tv.subrange(j as int, tv.len() as int);
        proof {
            lemma_skip_first(fv, i as int);
            lemma_skip_first(tv, j as int);
        }
        let f = &from.items[i];
        let t = &to.items[j];
        assert(fr[0] == f@);
        assert(tr[0] == t@);
        let ghost a0 = items_view(added@);
        let ghost u0 = items_view(updated@);
        if t.key.less_than(&f.key) {
            let ghost r0 = removed@;
            added.push(t.copy());
            j += 1;
            proof {
                assert(items_view(added@) =~= a0 + seq![t@]);
                assert(r0 =~= r0 + Seq::<ItemKey>::empty());
                assert(u0 =~= u0 + Seq::<ItemV>::empty());
                lemma_prepend_assoc(a0, r0, u0, seq![t@], seq![], seq![], diff_spec(fr, tr.drop_first()));
            }
        } else if f.key.less_than(&t.key) {
            let ghost r0 = removed@;
            removed.push(f.key);
            i += 1;
            proof {
                assert(removed@ =~= r0 + seq![f@.0]);
                assert(a0 =~= a0 + Seq::<ItemV>::empty());
                assert(u0 =~= u0 + Seq::<ItemV>::empty());
                lemma_prepend_assoc(a0, r0, u0, seq![], seq![f@.0], seq![], diff_spec(fr.drop_first(), tr));
            }
        } else if f.data.len() != t.data.len() {
            let ghost r0 = removed@;
            removed.push(f.key);
            added.push(t.copy());
            i += 1;
            j += 1;
            proof {
                assert(removed@ =~= r0 + seq![f@.0]);
                assert(items_view(added@) =~= a0 + seq![t@]);
                assert(u0 =~= u0 + Seq::<ItemV>::empty());
                lemma_prepend_assoc(a0, r0, u0, seq![t@], seq![f@.0], seq![], diff_spec(fr.drop_first(), tr.drop_first()));
            }
        } else {
            let (d, zero) = word_diff(&t.data, &f.data);
            i += 1;
            j += 1;
            let ghost r0 = removed@;
            if !zero {
                updated.push(Item { key: t.key, data: d });
                proof {
                    assert(items_view(updated@) =~= u0 + seq![(t@.0, sub_words(t@.1, f@.1))]);
                    assert(a0 =~= a0 + Seq::<ItemV>::empty());
                    assert(r0 =~= r0 + Seq::<ItemKey>::empty());
                    lemma_prepend_assoc(a0, r0, u0, seq![], seq![], seq![(t@.0, sub_words(t@.1, f@.1))], diff_spec(fr.drop_first(), tr.drop_first()));
                }
            }
        }
    }
    let ghost mid = diff_spec(fv.subrange(i as int, fv.len() as int), tv.subrange(j as int, tv.len() as int));
    if i == from.items.len() {
        assert(fv.subrange(i as int, fv.len() as int).len() == 0);
        while j < to.items.len()
            invariant
                j <= tv.len(),
                tv == to@,
                fv == from@,
                diff_spec(fv, tv) == prepend(items_view(added@), removed@, items_view(updated@),
                    delta_v(tv.subrange(j as int, tv.len() as int), seq![], seq![])),
            decreases tv.len() - j,
        {
            proof { lemma_skip_first(tv, j as int); }
            let ghost a0 = items_view(added@);
            added.push(to.items[j].copy());
            j += 1;
            assert(items_view(added@) =~= a0 + seq![tv[j - 1]]);
            assert(a0 + tv.subrange(j - 1, tv.len() as int) =~= items_view(added@) + tv.subrange(j as int, tv.len() as int));
        }
    } else {
        assert(tv.subrange(j as int, tv.len() as int).len() == 0);
        while i < from.items.len()
            invariant
                i <= fv.len(),
                tv == to@,
                fv == from@,
                diff_spec(fv, tv) == prepend(items_view(added@), removed@, items_view(updated@),
                    delta_v(seq![], keys_of(fv.subrange(i as int, fv.len() as int)), seq![])),
            decreases fv.len() - i,
        {
            let ghost r0 = removed@;
            removed.push(from.items[i].key);
            i += 1;
            assert(r0 + keys_of(fv.subrange(i - 1, fv.len() as int)) =~= removed@ + keys_of(fv.subrange(i as int, fv.len() as int)));
        }
    }
    let r = Delta { added, removed, updated };
    assert(r@ =~= diff_spec(fv, tv));
    r
}

/// Each list of the delta strictly sorted by key.
pub open spec fn delta_wf(d: DeltaV) -> bool {
    sorted_items(d.added) && sorted_keys(d.removed) && sorted_items(d.updated)
}

pub open spec fn opt_cat(p: Seq<ItemV>, o: Option<Seq<ItemV>>) -> Option<Seq<ItemV>> {
    match o {
        Some(s) => Some(p + s),
        None => None,
    }
}

/// The items that result from applying the delta lists `a` (added), `r`
/// (removed) and `u` (updated) to `base`, merging by key; `None` where the
/// delta does not fit the base: a removed or updated key absent from it, an
/// added key present in it, a key both removed and updated, or an update of
/// another arity than the base item.
pub open spec fn apply_spec(base: Seq<ItemV>, a: Seq<ItemV>, r: Seq<ItemKey>, u: Seq<ItemV>) -> Option<Seq<ItemV>>
    decreases base.len() + a.len() + r.len() + u.len(),
{
    if r.len() > 0 && (base.len() == 0 || key_lt(r[0], base[0].0)) {
        None
    } else if u.len() > 0 && (base.len() == 0 || key_lt(u[0].0, base[0].0)) {
        None
    } else if base.len() == 0 {
        Some(a)
    } else if a.len() > 0 && key_lt(a[0].0, base[0].0) {
        opt_cat(seq![a[0]], apply_spec(base, a.drop_first(), r, u))
    } else if a.len() > 0 && a[0].0 == base[0].0 {
        None
    } else if r.len() > 0 && r[0] == base[0].0 {
        if u.len() > 0 && u[0].0 == base[0].0 {
            None
        } else {
            apply_spec(base.drop_first(), a, r.drop_first(), u)
        }
    } else if u.len() > 0 && u[0].0 == base[0].0 {
        if u[0].1.len() != base[0].1.len() {
            None
        } else {
            opt_cat(seq![(base[0].0, add_words(base[0].1, u[0].1))], apply_spec(base.drop_first(), a, r, u.drop_first()))
        }
    } else {
        opt_cat(seq![base[0]], apply_spec(base.drop_first(), a, r, u))
    }
}

/// What applying `d` to `base` gives: `None` where the delta is not
/// well-formed or does not fit the base.
pub open spec fn apply_result(base: Seq<ItemV>, d: DeltaV) -> Option<Seq<ItemV>> {
    if delta_wf(d) {
        apply_spec(base, d.added, d.removed, d.updated)
    } else {
        None
    }
}

/// Errors in applying a delta.
#[derive(Clone, Copy, Debug, PartialEq, Eq, Structural)]
pub enum DeltaError {
    InconsistentDelta,
}

fn items_sorted(v: &Vec<Item>) -> (r: bool)
    ensures
        r == sorted_items(items_view(v@)),
{
    let mut i: usize = 1;
    while i < v.len()
        invariant
            1 <= i,
            forall|a: int, b: int| 0 <= a < b < i && b < v@.len()
                ==> key_lt(#[trigger] v@[a].key, #[trigger] v@[b].key),
        decreases v@.len() - i,
    {
        if !v[i - 1].key.less_than(&v[i].key) {
            assert(!key_lt(items_view(v@)[i - 1].0, items_view(v@)[i as int].0));
            return false;
        }
        i += 1;
    }
    assert forall|a: int, b: int| 0 <= a < b < items_view(v@).len()
        implies key_lt(#[trigger] items_view(v@)[a].0, #[trigger] items_view(v@)[b].0) by {
        assert(items_view(v@)[a].0 == v@[a].key);
        assert(items_view(v@)[b].0 == v@[b].key);
    }
    true
}

fn keys_sorted(v: &Vec<ItemKey>) -> (r: bool)
    ensures
        r == sorted_keys(v@),
{
    let mut i: usize = 1;
    while i < v.len()
        invariant
            1 <= i,
            forall|a: int, b: int| 0 <= a < b < i && b < v@.len() ==> key_lt(#[trigger] v@[a], #[trigger] v@[b]),
        decreases v@.len() - i,
    {
        if !v[i - 1].less_than(&v[i]) {
            return false;
        }
        i += 1;
    }
    true
}

fn word_sum(base: &Vec<i32>, d: &Vec<i32>) -> (r: Vec<i32>)
    requires
        base@.len() == d@.len(),
    ensures
        r@ == add_words(base@, d@),
{
    let mut out: Vec<i32> = Vec::with_capacity(base.len());
    let mut i: usize = 0;
    while i < base.len()
        invariant
            i <= base@.len(),
            base@.len() == d@.len(),
            out@ == add_words(base@, d@).subrange(0, i as int),
        decreases base@.len() - i,
    {
        out.push(base[i].wrapping_add(d[i]));
        i += 1;
        assert(out@ =~= add_words(base@, d@).subrange(0, i as int));
    }
    assert(out@ =~= add_words(base@, d@));
    out
}

proof fn lemma_opt_cat(p: Seq<ItemV>, q: Seq<ItemV>, o: Option<Seq<ItemV>>)
    ensures
        opt_cat(p, opt_cat(q, o)) == opt_cat(p + q, o),
{
    if let Some(s) = o {
        assert(p + (q + s) =~= (p + q) + s);
    }
}

pub open spec fn rest<A>(s: Seq<A>, i: int) -> Seq<A> {
    s.subrange(i, s.len() as int)
}

/// Applies `delta` to `base`.
pub fn apply(base: &Snap, delta: &Delta) -> (r: Result<Snap, DeltaError>)
    ensures
        r is Ok <==> delta_wf(delta@) && apply_spec(base@, delta@.added, delta@.removed, delta@.updated) is Some,
        r is Ok ==> r->Ok_0@ == apply_spec(base@, delta@.added, delta@.removed, delta@.updated)->0,
        r is Err ==> r->Err_0 == DeltaError::InconsistentDelta,
        r is Ok && base.wf() ==> r->Ok_0.wf(),
        r is Ok <==> apply_result(base@, delta@) is Some,
        r is Ok ==> r->Ok_0@ == apply_result(base@, delta@)->0,
{
    proof {
        if base.wf() && delta_wf(delta@) {
            lemma_apply_sorted(base@, delta@.added, delta@.removed, delta@.updated);
        }
    }
    if !items_sorted(&delta.added) || !keys_sorted(&delta.removed) || !items_sorted(&delta.updated) {
        return Err(DeltaError::InconsistentDelta);
    }
    let ghost bv = base@;
    let ghost av = delta@.added;
    let ghost rv = delta@.removed;
    let ghost uv = delta@.updated;
    let b = &base.items;
    let a = &delta.added;
    let rm = &delta.removed;
    let u = &delta.updated;
    let mut out: Vec<Item> = Vec::new();
    let mut bi: usize = 0;
    let mut ai: usize = 0;
    let mut ri: usize = 0;
    let mut ui: usize = 0;
    assert(rest(bv, 0) =~= bv);
    assert(rest(av, 0) =~= av);
    assert(rest(rv, 0) =~= rv);
    assert(rest(uv, 0) =~= uv);
    assert(items_view(out@) + Seq::<ItemV>::empty() =~= items_view(out@));
    loop
        invariant
            bv == base@,
            av == delta@.added,
            rv == delta@.removed,
            uv == delta@.updated,
            delta_wf(delta@),
            base.wf() ==> (apply_spec(bv, av, rv, uv) matches Some(s) ==> sorted_items(s)),
            items_view(b@) == bv,
            items_view(a@) == av,
            rm@ == rv,
            items_view(u@) == uv,
            bi <= bv.len(),
            ai <= av.len(),
            ri <= rv.len(),
            ui <= uv.len(),
            apply_spec(bv, av, rv, uv) == opt_cat(items_view(out@),
                apply_spec(rest(bv, bi as int), rest(av, ai as int), rest(rv, ri as int), rest(uv, ui as int))),
        decreases bv.len() + av.len() + rv.len() + uv.len() - bi - ai - ri - ui,
    {
        let ghost br = rest(bv, bi as int);
        let ghost ar = rest(av, ai as int);
        let ghost rr = rest(rv, ri as int);
        let ghost ur = rest(uv, ui as int);
        let ghost o0 = items_view(out@);
        if bi < b.len() { proof { lemma_skip_first(bv, bi as int); } }
        if ai < a.len() { proof { lemma_skip_first(av, ai as int); } }
        if ri < rm.len() { proof { lemma_skip_first(rv, ri as int); } }
        if ui < u.len() { proof { lemma_skip_first(uv, ui as int); } }
        if ri < rm.len() && (bi == b.len() || rm[ri].less_than(&b[bi].key)) {
            return Err(DeltaError::InconsistentDelta);
        }
        if ui < u.len() && (bi == b.len() || u[ui].key.less_than(&b[bi].key)) {
            return Err(DeltaError::InconsistentDelta);
        }
        if bi == b.len() {
            while ai < a.len()
                invariant
                    items_view(a@) == av,
                    delta_wf(delta@),
                    base.wf() ==> (apply_spec(bv, av, rv, uv) matches Some(s) ==> sorted_items(s)),
                    ai <= av.len(),
                    apply_spec(bv, av, rv, uv) == Some(items_view(out@) + rest(av, ai as int)),
                decreases av.len() - ai,
            {
                proof { lemma_skip_first(av, ai as int); }
                let ghost o1 = items_view(out@);
                out.push(a[ai].copy());
                ai += 1;
                assert(items_view(out@) =~= o1 + seq![av[ai - 1]]);
                assert(o1 + rest(av, ai - 1) =~= items_view(out@) + rest(av, ai as int));
            }
            assert(rest(av, ai as int) =~= Seq::<ItemV>::empty());
            assert(items_view(out@) + Seq::<ItemV>::empty() =~= items_view(out@));
            return Ok(Snap { items: out });
        }
        if ai < a.len() && a[ai].key.less_than(&b[bi].key) {
            out.push(a[ai].copy());
            ai += 1;
            proof {
                assert(items_view(out@) =~= o0 + seq![ar[0]]);
                lemma_opt_cat(o0, seq![ar[0]], apply_spec(br, ar.drop_first(), rr, ur));
            }
        } else if ai < a.len() && a[ai].key == b[bi].key {
            return Err(DeltaError::InconsistentDelta);
        } else if ri < rm.len() && rm[ri] == b[bi].key {
            if ui < u.len() && u[ui].key == b[bi].key {
                return Err(DeltaError::InconsistentDelta);
            }
            bi += 1;
            ri += 1;
        } else if ui < u.len() && u[ui].key == b[bi].key {
            if u[ui].data.len() != b[bi].data.len() {
                return Err(DeltaError::InconsistentDelta);
            }
            let data = word_sum(&b[bi].data, &u[ui].data);
            out.push(Item { key: b[bi].key, data });
            bi += 1;
            ui += 1;
            proof {
                assert(items_view(out@) =~= o0 + seq![(br[0].0, add_words(br[0].1, ur[0].1))]);
                lemma_opt_cat(o0, seq![(br[0].0, add_words(br[0].1, ur[0].1))], apply_spec(br.drop_first(), ar, rr, ur.drop_first()));
            }
        } else {
            out.push(b[bi].copy());
            bi += 1;
            proof {
                assert(items_view(out@) =~= o0 + seq![br[0]]);
                lemma_opt_cat(o0, seq![br[0]], apply_spec(br.drop_first(), ar, rr, ur));
            }
        }
    }
}

pub open spec fn key_le(a: ItemKey, b: ItemKey) -> bool {
    key_lt(a, b) || a == b
}

/// `k` lies strictly below the first key of `s`, if any.
pub open spec fn below(k: ItemKey, s: Seq<ItemV>) -> bool {
    s.len() > 0 ==> key_lt(k, s[0].0)
}

/// `k` lies at or below the first key of `s`, if any.
pub open spec fn at_most(k: ItemKey, s: Seq<ItemV>) -> bool {
    s.len() > 0 ==> key_le(k, s[0].0)
}

/// Items present under the same key in both sequences have the same arity.
pub open spec fn arity_agrees(a: Seq<ItemV>, b: Seq<ItemV>) -> bool {
    forall|i: int, j: int| 0 <= i < a.len() && 0 <= j < b.len() && #[trigger] a[i].0 == #[trigger] b[j].0
        ==> a[i].1.len() == b[j].1.len()
}

proof fn lemma_apply_sorted(base: Seq<ItemV>, a: Seq<ItemV>, r: Seq<ItemKey>, u: Seq<ItemV>)
    requires
        sorted_items(base),
        sorted_items(a),
    ensures
        apply_spec(base, a, r, u) matches Some(s) ==> sorted_items(s) && forall|k: ItemKey, x: int|
            below(k, base) && below(k, a) && 0 <= x < s.len() ==> #[trigger] key_lt(k, s[x].0),
    decreases base.len() + a.len() + r.len() + u.len(),
{
    if r.len() > 0 && (base.len() == 0 || key_lt(r[0], base[0].0)) {
    } else if u.len() > 0 && (base.len() == 0 || key_lt(u[0].0, base[0].0)) {
    } else if base.len() == 0 {
    } else if a.len() > 0 && key_lt(a[0].0, base[0].0) {
        lemma_apply_sorted(base, a.drop_first(), r, u);
        if let Some(s) = apply_spec(base, a, r, u) {
            let s1 = apply_spec(base, a.drop_first(), r, u)->0;
            assert(s == seq![a[0]] + s1);
            assert(below(a[0].0, a.drop_first()));
        }
    } else if a.len() > 0 && a[0].0 == base[0].0 {
    } else if r.len() > 0 && r[0] == base[0].0 {
        if u.len() > 0 && u[0].0 == base[0].0 {
        } else {
            lemma_apply_sorted(base.drop_first(), a, r.drop_first(), u);
            assert forall|k: ItemKey| below(k, base) && below(k, a) implies below(k, base.drop_first()) by {
                if base.drop_first().len() > 0 {
                    assert(base.drop_first()[0] == base[1]);
                }
            }
        }
    } else {
        let x = if u.len() > 0 && u[0].0 == base[0].0 { (base[0].0, add_words(base[0].1, u[0].1)) } else { base[0] };
        let u1 = if u.len() > 0 && u[0].0 == base[0].0 { u.drop_first() } else { u };
        lemma_apply_sorted(base.drop_first(), a, r, u1);
        assert(below(x.0, base.drop_first())) by {
            if base.drop_first().len() > 0 {
                assert(base.drop_first()[0] == base[1]);
            }
        }
        assert(below(x.0, a));
        if let Some(s) = apply_spec(base, a, r, u) {
            let s1 = apply_spec(base.drop_first(), a, r, u1)->0;
            assert(s == seq![x] + s1);
            assert forall|k: ItemKey| below(k, base) && below(k, a) implies below(k, base.drop_first()) by {
                if base.drop_first().len() > 0 {
                    assert(base.drop_first()[0] == base[1]);
                }
            }
        }
    }
}

proof fn lemma_words(f: Seq<i32>, t: Seq<i32>)
    requires
        f.len() == t.len(),
    ensures
        add_words(f, sub_words(t, f)) == t,
        all_zero(sub_words(t, f)) ==> t == f,
{
    assert(add_words(f, sub_words(t, f)) =~= t);
    if all_zero(sub_words(t, f)) {
        assert forall|i: int| 0 <= i < t.len() implies t[i] == f[i] by {
            assert(sub_words(t, f)[i] == 0);
        }
        assert(t =~= f);
    }
}

proof fn lemma_diff_props(f: Seq<ItemV>, t: Seq<ItemV>)
    requires
        sorted_items(f),
        sorted_items(t),
    ensures
        delta_wf(diff_spec(f, t)),
        forall|k: ItemKey, x: int| at_most(k, f) && 0 <= x < diff_spec(f, t).removed.len()
            ==> #[trigger] key_le(k, diff_spec(f, t).removed[x]),
        forall|k: ItemKey, x: int| at_most(k, f) && 0 <= x < diff_spec(f, t).updated.len()
            ==> #[trigger] key_le(k, diff_spec(f, t).updated[x].0),
        forall|k: ItemKey, x: int| at_most(k, t) && 0 <= x < diff_spec(f, t).added.len()
            ==> #[trigger] key_le(k, diff_spec(f, t).added[x].0),
    decreases f.len() + t.len(),
{
    let d = diff_spec(f, t);
    if f.len() == 0 {
    } else if t.len() == 0 {
        assert forall|k: ItemKey, x: int| at_most(k, f) && 0 <= x < d.removed.len()
            implies #[trigger] key_le(k, d.removed[x]) by {
            assert(d.removed[x] == f[x].0);
            if x > 0 {
                assert(key_lt(f[0].0, f[x].0));
            }
        }
    } else {
        let f0 = f[0];
        let t0 = t[0];
        let f1 = f.drop_first();
        let t1 = t.drop_first();
        assert(f1.len() > 0 ==> f1[0] == f[1]);
        assert(t1.len() > 0 ==> t1[0] == t[1]);
        if key_lt(t0.0, f0.0) {
            lemma_diff_props(f, t1);
            let d1 = diff_spec(f, t1);
            assert(d.added == seq![t0] + d1.added);
            assert forall|x: int| 0 <= x < d1.added.len() implies key_lt(t0.0, #[trigger] d1.added[x].0) by {
                if t1.len() > 0 {
                    assert(key_le(t1[0].0, d1.added[x].0));
                }
            }
        } else if key_lt(f0.0, t0.0) {
            lemma_diff_props(f1, t);
            let d1 = diff_spec(f1, t);
            assert(d.removed == seq![f0.0] + d1.removed);
            assert forall|x: int| 0 <= x < d1.removed.len() implies key_lt(f0.0, #[trigger] d1.removed[x]) by {
                if f1.len() > 0 {
                    assert(key_le(f1[0].0, d1.removed[x]));
                }
            }
            assert forall|x: int| 0 <= x < d1.updated.len() implies key_lt(f0.0, #[trigger] d1.updated[x].0) by {
                if f1.len() > 0 {
                    assert(key_le(f1[0].0, d1.updated[x].0));
                }
            }
        } else {
            lemma_diff_props(f1, t1);
            let d1 = diff_spec(f1, t1);
            assert forall|x: int| 0 <= x < d1.removed.len() implies key_lt(f0.0, #[trigger] d1.removed[x]) by {
                if f1.len() > 0 {
                    assert(key_le(f1[0].0, d1.removed[x]));
                }
            }
            assert forall|x: int| 0 <= x < d1.updated.len() implies key_lt(f0.0, #[trigger] d1.updated[x].0) by {
                if f1.len() > 0 {
                    assert(key_le(f1[0].0, d1.updated[x].0));
                }
            }
            assert forall|x: int| 0 <= x < d1.added.len() implies key_lt(t0.0, #[trigger] d1.added[x].0) by {
                if t1.len() > 0 {
                    assert(key_le(t1[0].0, d1.added[x].0));
                }
            }
            if f0.1.len() != t0.1.len() {
                assert(d.added == seq![t0] + d1.added);
                assert(d.removed == seq![f0.0] + d1.removed);
            } else if all_zero(sub_words(t0.1, f0.1)) {
            } else {
                assert(d.updated == seq![(t0.0, sub_words(t0.1, f0.1))] + d1.updated);
            }
        }
    }
}

proof fn lemma_round_trip_rec(f: Seq<ItemV>, t: Seq<ItemV>)
    requires
        sorted_items(f),
        sorted_items(t),
        arity_agrees(f, t),
    ensures
        apply_spec(f, diff_spec(f, t).added, diff_spec(f, t).removed, diff_spec(f, t).updated) == Some(t),
    decreases f.len() + t.len(),
{
    let d = diff_spec(f, t);
    lemma_diff_props(f, t);
    if f.len() == 0 {
    } else if t.len() == 0 {
        let f1 = f.drop_first();
        assert(keys_of(f).drop_first() =~= keys_of(f1));
        assert(keys_of(f)[0] == f[0].0);
        lemma_round_trip_rec(f1, t);
        assert(t =~= Seq::<ItemV>::empty());
        if f1.len() == 0 {
            assert(keys_of(f1) =~= Seq::<ItemKey>::empty());
            assert(apply_spec(f1, seq![], keys_of(f1), seq![]) == Some(t));
        } else {
            assert(apply_spec(f1, seq![], keys_of(f1), seq![]) == Some(t));
        }
        assert(apply_spec(f, seq![], keys_of(f), seq![]) == apply_spec(f1, seq![], keys_of(f1), seq![]));
    } else {
        let f0 = f[0];
        let t0 = t[0];
        let f1 = f.drop_first();
        let t1 = t.drop_first();
        assert(f1.len() > 0 ==> f1[0] == f[1]);
        assert(t1.len() > 0 ==> t1[0] == t[1]);
        assert(t =~= seq![t0] + t1);
        if key_lt(t0.0, f0.0) {
            lemma_round_trip_rec(f, t1);
            lemma_diff_props(f, t1);
            let d1 = diff_spec(f, t1);
            assert(d.added.drop_first() =~= d1.added);
            assert(d.removed.len() > 0 ==> key_le(f0.0, d.removed[0]));
            assert(d.updated.len() > 0 ==> key_le(f0.0, d.updated[0].0));
            assert(apply_spec(f, d.added, d.removed, d.updated) == Some(t));
        } else if key_lt(f0.0, t0.0) {
            lemma_round_trip_rec(f1, t);
            lemma_diff_props(f1, t);
            let d1 = diff_spec(f1, t);
            assert(d.removed.drop_first() =~= d1.removed);
            assert(d.updated.len() > 0 ==> key_lt(f0.0, d.updated[0].0)) by {
                if d.updated.len() > 0 && f1.len() > 0 {
                    assert(key_le(f1[0].0, d1.updated[0].0));
                }
            }
            assert(d.added.len() > 0 ==> key_le(t0.0, d.added[0].0));
            assert(apply_spec(f, d.added, d.removed, d.updated) == Some(t));
        } else {
            assert(f0.0 == t0.0);
            assert(f0.1.len() == t0.1.len());
            lemma_round_trip_rec(f1, t1);
            lemma_diff_props(f1, t1);
            lemma_words(f0.1, t0.1);
            let d1 = diff_spec(f1, t1);
            assert(d1.removed.len() > 0 ==> key_lt(f0.0, d1.removed[0])) by {
                if d1.removed.len() > 0 {
                    assert(key_le(f1[0].0, d1.removed[0]));
                }
            }
            assert(d1.updated.len() > 0 ==> key_lt(f0.0, d1.updated[0].0)) by {
                if d1.updated.len() > 0 {
                    assert(key_le(f1[0].0, d1.updated[0].0));
                }
            }
            assert(d1.added.len() > 0 ==> key_lt(t0.0, d1.added[0].0)) by {
                if d1.added.len() > 0 {
                    assert(key_le(t1[0].0, d1.added[0].0));
                }
            }
            if all_zero(sub_words(t0.1, f0.1)) {
                assert(d == d1);
                assert(f0 == t0);
                assert(apply_spec(f, d.added, d.removed, d.updated) == Some(t));
            } else {
                assert(d.updated.drop_first() =~= d1.updated);
                assert((f0.0, add_words(f0.1, sub_words(t0.1, f0.1))) == t0);
                assert(apply_spec(f, d.added, d.removed, d.updated) == Some(t));
            }
        }
    }
}

/// Applying to `from` the delta from `from` to `to` gives back `to`, for any
/// two well-formed snapshots whose shared keys keep their arity.
pub proof fn lemma_round_trip(from: Seq<ItemV>, to: Seq<ItemV>)
    requires
        sorted_items(from),
        sorted_items(to),
        arity_agrees(from, to),
    ensures
        apply_result(from, diff_spec(from, to)) == Some(to),
{
    lemma_diff_props(from, to);
    lemma_round_trip_rec(from, to);
}

/// The delta from the empty snapshot adds every item and removes and updates
/// none; applying it to the empty snapshot gives the snapshot back.
pub proof fn lemma_empty_base(s: Seq<ItemV>)
    requires
        sorted_items(s),
    ensures
        diff_spec(Seq::empty(), s) == delta_v(s, seq![], seq![]),
        apply_result(Seq::empty(), diff_spec(Seq::empty(), s)) == Some(s),
{
}

/// The delta from a snapshot to itself is empty.
pub proof fn lemma_diff_self(s: Seq<ItemV>)
    ensures
        diff_spec(s, s) == delta_v(seq![], seq![], seq![]),
    decreases s.len(),
{
    if s.len() > 0 {
        lemma_diff_self(s.drop_first());
        assert(sub_words(s[0].1, s[0].1) =~= Seq::new(s[0].1.len(), |i: int| 0i32));
        assert(all_zero(sub_words(s[0].1, s[0].1)));
    } else {
        assert(s =~= Seq::<ItemV>::empty());
    }
}

/// An item present unchanged, key and data, in both snapshots never appears
/// among the updates of the delta between them.
pub proof fn lemma_unchanged_not_updated(from: Seq<ItemV>, to: Seq<ItemV>, i: int, j: int)
    requires
        sorted_items(from),
        sorted_items(to),
        0 <= i < from.len(),
        0 <= j < to.len(),
        from[i] == to[j],
    ensures
        forall|x: int| 0 <= x < diff_spec(from, to).updated.len()
            ==> (#[trigger] diff_spec(from, to).updated[x]).0 != from[i].0,
    decreases from.len() + to.len(),
{
    let d = diff_spec(from, to);
    lemma_diff_props(from, to);
    let f0 = from[0];
    let t0 = to[0];
    let f1 = from.drop_first();
    let t1 = to.drop_first();
    assert(f1.len() > 0 ==> f1[0] == from[1]);
    assert(t1.len() > 0 ==> t1[0] == to[1]);
    if i > 0 {
        assert(key_lt(f0.0, from[i].0));
    }
    if j > 0 {
        assert(key_lt(t0.0, to[j].0));
    }
    if key_lt(t0.0, f0.0) {
        assert(j > 0);
        assert(t1[j - 1] == to[j]);
        lemma_unchanged_not_updated(from, t1, i, j - 1);
        assert(d.updated =~= diff_spec(from, t1).updated);
    } else if key_lt(f0.0, t0.0) {
        assert(i > 0);
        assert(f1[i - 1] == from[i]);
        lemma_unchanged_not_updated(f1, to, i - 1, j);
        assert(d.updated =~= diff_spec(f1, to).updated);
    } else {
        lemma_diff_props(f1, t1);
        let d1 = diff_spec(f1, t1);
        if i > 0 && j > 0 {
            assert(f1[i - 1] == from[i]);
            assert(t1[j - 1] == to[j]);
            lemma_unchanged_not_updated(f1, t1, i - 1, j - 1);
            assert(key_lt(f0.0, from[i].0));
            assert(d.updated == d1.updated || d.updated =~= seq![(t0.0, sub_words(t0.1, f0.1))] + d1.updated);
        } else {
            assert(i == 0 && j == 0);
            assert forall|x: int| 0 <= x < d1.updated.len() implies (#[trigger] d1.updated[x]).0 != from[i].0 by {
                assert(key_le(f1[0].0, d1.updated[x].0));
            }
            lemma_words(f0.1, t0.1);
            assert(all_zero(sub_words(t0.1, f0.1))) by {
                assert forall|k: int| 0 <= k < sub_words(t0.1, f0.1).len() implies sub_words(t0.1, f0.1)[k] == 0 by {}
            }
        }
    }
}

} // verus!

