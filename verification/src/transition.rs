//! Transitions between style values.
//!
//! A node with a transition names the properties that take part (or, from a
//! null entry on, all interpolable properties).  For each such property it
//! keeps an interpolation record with a start and an end value.  In the
//! first phase, before the animations run, a changed property value becomes
//! the start (or, with a start present, the end) and a record holding both
//! is bound to an interpolation curve; a removed value resets the record and
//! unbinds its curve.  In the second phase, after the animations ran, a
//! changed value becomes the start.

use vstd::prelude::*;
use crate::style_mark::{StyleMarkType, STYLE_BITS, ones, ones_upto, and_marks, or_marks, any_mark};

verus! {

/// The null property index, which in a property list stands for "all".
pub const NULL_PROPERTY: usize = usize::MAX;

/// The interpolation record of one property.
#[derive(Clone, Copy)]
pub struct TransitionData<A> {
    pub start: Option<A>,
    pub end: Option<A>,
    pub property: usize,
}

/// The transition state of a node: the properties named by the user, the
/// mark of the properties that take part, the position of the first null
/// entry (`NULL_PROPERTY` when there is none) and the records.
pub struct Transition<A> {
    pub property: Vec<usize>,
    pub mark: StyleMarkType,
    pub is_all: usize,
    pub data: Vec<TransitionData<A>>,
}

/// The style marks of a node: the properties changed in this frame, and
/// those set by a class and locally.
pub struct StyleMark {
    pub dirty_style: StyleMarkType,
    pub class_style: StyleMarkType,
    pub local_style: StyleMarkType,
}

/// What the interpolation curves of a node must undergo.
#[derive(Clone, Copy)]
pub enum TransitionAction<A> {
    /// Every curve of the node is unbound.
    UnbindAll,
    /// The curve of the property is unbound.
    UnbindSingle(usize),
    /// The property is bound to a curve from `start` to `end`, timed by the
    /// transition settings at position `slot`.
    Bind { property: usize, slot: usize, start: A, end: A },
}

/// A fresh record for a property.
pub open spec fn empty_data<A>(property: usize) -> TransitionData<A> {
    TransitionData { start: None, end: None, property }
}

/// The position of the first null entry of `props`, or `NULL_PROPERTY`.
pub open spec fn first_null(props: Seq<usize>, k: int) -> usize
    decreases props.len() - k,
{
    if k < 0 || k >= props.len() {
        NULL_PROPERTY
    } else if props[k] == NULL_PROPERTY {
        k as usize
    } else {
        first_null(props, k + 1)
    }
}

/// The mark of the properties among the first `j` entries of `props`.
pub open spec fn listed_upto(props: Seq<usize>, j: int, n: nat) -> Seq<bool> {
    Seq::new(n, |p: int| exists|k: int| 0 <= k < j && #[trigger] props[k] == p)
}

/// The mark of a property list: the properties listed before its first null
/// entry.
pub open spec fn listed_mark(props: Seq<usize>, n: nat) -> Seq<bool> {
    let f = first_null(props, 0);
    listed_upto(props, if f == NULL_PROPERTY { props.len() as int } else { f as int }, n)
}

/// The last position before `j` of a record of `p` in `pool`, or -1.
pub open spec fn find_last<A>(pool: Seq<TransitionData<A>>, p: usize, j: int) -> int
    decreases j,
{
    if j <= 0 {
        -1
    } else if pool[j - 1].property == p {
        j - 1
    } else {
        find_last(pool, p, j - 1)
    }
}

/// The first position from `j` on of a record of `p` in `pool`, or -1.
pub open spec fn find_first<A>(pool: Seq<TransitionData<A>>, p: usize, j: int) -> int
    decreases pool.len() - j,
{
    if j < 0 || j >= pool.len() {
        -1
    } else if pool[j].property == p {
        j
    } else {
        find_first(pool, p, j + 1)
    }
}

/// `s` with position `j` removed and the last element moved into its place.
pub open spec fn swap_removed<T>(s: Seq<T>, j: int) -> Seq<T> {
    s.update(j, s.last()).drop_last()
}

/// The old records left once the positions `i..` of `props`, from the last
/// down, have each claimed the last record of their property.
pub open spec fn pool_after<A>(pool: Seq<TransitionData<A>>, props: Seq<usize>, i: int) -> Seq<
    TransitionData<A>,
>
    decreases props.len() - i,
{
    if i < 0 || i >= props.len() {
        pool
    } else {
        let rest = pool_after(pool, props, i + 1);
        let k = find_last(rest, props[i], rest.len() as int);
        if k >= 0 {
            swap_removed(rest, k)
        } else {
            rest
        }
    }
}

/// The record that position `i` of `props` takes over from the old records
/// `pool`: the last one left of its property, or a fresh one.
pub open spec fn claimed<A>(pool: Seq<TransitionData<A>>, props: Seq<usize>, i: int) -> TransitionData<A> {
    let rest = pool_after(pool, props, i + 1);
    let k = find_last(rest, props[i], rest.len() as int);
    if k >= 0 {
        rest[k]
    } else {
        empty_data(props[i])
    }
}

/// The records for an explicit property list, taken over from `pool`.
pub open spec fn realigned<A>(pool: Seq<TransitionData<A>>, props: Seq<usize>) -> Seq<TransitionData<A>> {
    Seq::new(props.len(), |i: int| claimed(pool, props, i))
}

/// Records for the properties `ones[..m]` of an "all" transition, taken over
/// from `pool`: the old records left, and the new records.  Each property
/// takes the first record of its property; a fresh record is added when none
/// was found, and also when the one found was the last left.
pub open spec fn rebuild_all<A>(pool: Seq<TransitionData<A>>, ones: Seq<usize>, m: int) -> (
    Seq<TransitionData<A>>,
    Seq<TransitionData<A>>,
)
    decreases m,
{
    if m <= 0 {
        (pool, Seq::empty())
    } else {
        let (left, out) = rebuild_all(pool, ones, m - 1);
        let p = ones[m - 1];
        let k = find_first(left, p, 0);
        if k >= 0 {
            let left2 = swap_removed(left, k);
            let out2 = out.push(left[k]);
            if left2.len() == k {
                (left2, out2.push(empty_data(p)))
            } else {
                (left2, out2)
            }
        } else {
            (left, out.push(empty_data(p)))
        }
    }
}

/// How one record is updated in the first phase, with the property value
/// `cur` (absent: removed): the new record and the curve actions.
pub open spec fn update_one<A>(
    d: TransitionData<A>,
    property: usize,
    slot: usize,
    changed: bool,
    dirty: bool,
    cur: Option<A>,
) -> (TransitionData<A>, Seq<TransitionAction<A>>) {
    if dirty && cur is None {
        (TransitionData { start: None, end: None, property: d.property }, seq![TransitionAction::UnbindSingle(property)])
    } else {
        let d2 = if dirty {
            if d.start is Some {
                TransitionData { end: cur, ..d }
            } else {
                TransitionData { start: cur, ..d }
            }
        } else {
            d
        };
        if (changed || dirty) && d2.start is Some && d2.end is Some {
            (d2, seq![TransitionAction::Bind { property, slot, start: d2.start->0, end: d2.end->0 }])
        } else {
            (d2, Seq::empty())
        }
    }
}

/// The first phase over the first `m` of the properties `props`: with
/// `use_index`, record `i` goes with `props[i]` and its curve timing with
/// slot `i`; else the records are taken in turn, a removed property (changed
/// and without a value) leaving its record to the next property, and the
/// timing is slot `slot`.  Gives the records, the curve actions and the next
/// record to take.
pub open spec fn update_all<A>(
    data: Seq<TransitionData<A>>,
    props: Seq<usize>,
    use_index: bool,
    slot: usize,
    changed: bool,
    dirty: Seq<bool>,
    current: Seq<Option<A>>,
    m: int,
) -> (Seq<TransitionData<A>>, Seq<TransitionAction<A>>, int)
    decreases m,
{
    if m <= 0 {
        (data, Seq::empty(), 0)
    } else {
        let (d, acts, idx) = update_all(data, props, use_index, slot, changed, dirty, current, m - 1);
        let p = props[m - 1];
        let s = if use_index {
            (m - 1) as usize
        } else {
            slot
        };
        let ri = if use_index {
            m - 1
        } else {
            idx
        };
        let (r, a) = update_one(d[ri], p, s, changed, dirty[p as int], current[p as int]);
        let removed = dirty[p as int] && current[p as int] is None;
        (d.update(ri, r), acts + a, if use_index || !removed { idx + 1 } else { idx })
    }
}

proof fn lemma_first_null_skip(props: Seq<usize>, i: int, j: int)
    requires
        0 <= i <= j <= props.len(),
        forall|k: int| i <= k < j ==> props[k] != NULL_PROPERTY,
    ensures
        first_null(props, i) == first_null(props, j),
    decreases j - i,
{
    if i < j {
        lemma_first_null_skip(props, i + 1, j);
    }
}

proof fn lemma_ones_len(m: Seq<bool>, k: int)
    requires
        0 <= k <= m.len(),
    ensures
        ones_upto(m, k).len() <= k,
        forall|i: int| 0 <= i < ones_upto(m, k).len() ==> #[trigger] ones_upto(m, k)[i] < k,
    decreases k,
{
    if k > 0 {
        lemma_ones_len(m, k - 1);
    }
}

proof fn lemma_pool_empty<A>(pool: Seq<TransitionData<A>>, props: Seq<usize>, i: int, k: int)
    requires
        0 <= k <= i <= props.len(),
        pool_after(pool, props, i).len() == 0,
    ensures
        pool_after(pool, props, k).len() == 0,
    decreases i - k,
{
    if k < i {
        lemma_pool_empty(pool, props, i, k + 1);
        let rest = pool_after(pool, props, k + 1);
        assert(find_last(rest, props[k], rest.len() as int) == -1);
    }
}

proof fn lemma_rebuild_len<A>(pool: Seq<TransitionData<A>>, ones: Seq<usize>, m: int)
    requires
        0 <= m <= ones.len(),
    ensures
        rebuild_all(pool, ones, m).1.len() >= m,
    decreases m,
{
    if m > 0 {
        lemma_rebuild_len(pool, ones, m - 1);
    }
}

/// The mark of a property list and the position of its first null entry.
pub fn mark_listed(props: &Vec<usize>) -> (r: (StyleMarkType, usize))
    requires
        forall|k: int| 0 <= k < props.len() ==> #[trigger] props[k] == NULL_PROPERTY || props[k] < STYLE_BITS,
    ensures
        r.0@ == listed_mark(props@, STYLE_BITS as nat),
        r.1 == first_null(props@, 0),
{
    let n = STYLE_BITS;
    let mut mark = StyleMarkType::new();
    assert(mark@ =~= listed_upto(props@, 0, n as nat));
    let mut j: usize = 0;
    let mut is_all: usize = NULL_PROPERTY;
    while j < props.len()
        invariant_except_break
            is_all == NULL_PROPERTY,
        invariant
            n == STYLE_BITS,
            forall|k: int| 0 <= k < props.len() ==> #[trigger] props[k] == NULL_PROPERTY || props[k] < n,
            j <= props.len(),
            forall|k: int| 0 <= k < j ==> #[trigger] props[k] != NULL_PROPERTY,
            mark@ == listed_upto(props@, j as int, n as nat),
        ensures
            j <= props.len(),
            forall|k: int| 0 <= k < j ==> #[trigger] props[k] != NULL_PROPERTY,
            mark@ == listed_upto(props@, j as int, n as nat),
            is_all == NULL_PROPERTY ==> j == props.len(),
            is_all != NULL_PROPERTY ==> is_all == j && j < props.len() && props[j as int] == NULL_PROPERTY,
        decreases props.len() - j,
    {
        if props[j] == NULL_PROPERTY {
            is_all = j;
            break;
        }
        let p = props[j];
        mark.set(p, true);
        j = j + 1;
        assert(mark@ == listed_upto(props@, j as int, n as nat)) by {
            assert forall|q: int| 0 <= q < n implies mark@[q] == listed_upto(props@, j as int, n as nat)[q] by {
                if q == p {
                    assert(props@[j - 1] == q);
                } else if mark@[q] {
                    let k = choose|k: int| 0 <= k < j - 1 && #[trigger] props@[k] == q;
                    assert(props@[k] == q);
                }
            }
        }
    }
    proof {
        lemma_first_null_skip(props@, 0, j as int);
    }
    (mark, is_all)
}

/// Takes the old records over for an explicit property list: position `i`
/// gets the last record left of its property, the positions taken from the
/// last down.
pub fn realign_data<A: Copy>(pool_in: Vec<TransitionData<A>>, props: &Vec<usize>) -> (r: Vec<
    TransitionData<A>,
>)
    ensures
        r@ == realigned(pool_in@, props@),
{
    let n = props.len();
    let mut out: Vec<TransitionData<A>> = Vec::new();
    let mut k: usize = 0;
    while k < n
        invariant
            n == props.len(),
            k <= n,
            out.len() == k,
            forall|i: int| 0 <= i < k ==> #[trigger] out@[i] == empty_data::<A>(props@[i]),
        decreases n - k,
    {
        out.push(TransitionData { start: None, end: None, property: props[k] });
        k = k + 1;
    }
    let mut pool = pool_in;
    let mut i: usize = n;
    while pool.len() > 0 && i > 0
        invariant
            n == props.len(),
            i <= n,
            out.len() == n,
            pool@ == pool_after(pool_in@, props@, i as int),
            forall|k: int| i <= k < n ==> #[trigger] out@[k] == claimed(pool_in@, props@, k),
            forall|k: int| 0 <= k < i ==> #[trigger] out@[k] == empty_data::<A>(props@[k]),
        decreases i,
    {
        i = i - 1;
        let p = props[i];
        let mut j: usize = pool.len();
        loop
            invariant_except_break
                find_last(pool@, p, pool.len() as int) == find_last(pool@, p, j as int),
            invariant
                j <= pool.len(),
            ensures
                j <= pool.len(),
                find_last(pool@, p, pool.len() as int) == if j < pool.len() {
                    j as int
                } else {
                    -1
                },
            decreases j,
        {
            if j == 0 {
                j = pool.len();
                break;
            }
            j = j - 1;
            if pool[j].property == p {
                break;
            }
        }
        if j < pool.len() {
            let d = pool.swap_remove(j);
            out.set(i, d);
        }
    }
    proof {
        if i > 0 {
            assert forall|k: int| 0 <= k < i implies #[trigger] out@[k] == claimed(pool_in@, props@, k) by {
                lemma_pool_empty(pool_in@, props@, i as int, k + 1);
            }
        }
        assert(out@ == realigned(pool_in@, props@));
    }
    out
}

/// Takes the old records over for the properties `ones` of an "all"
/// transition.
pub fn rebuild_all_data<A: Copy>(pool_in: Vec<TransitionData<A>>, ones: &Vec<usize>) -> (r: Vec<
    TransitionData<A>,
>)
    ensures
        r@ == rebuild_all(pool_in@, ones@, ones.len() as int).1,
{
    let mut pool = pool_in;
    let mut out: Vec<TransitionData<A>> = Vec::new();
    let mut m: usize = 0;
    while m < ones.len()
        invariant
            m <= ones.len(),
            (pool@, out@) == rebuild_all(pool_in@, ones@, m as int),
        decreases ones.len() - m,
    {
        let p = ones[m];
        let mut j: usize = 0;
        loop
            invariant_except_break
                find_first(pool@, p, 0) == find_first(pool@, p, j as int),
            invariant
                j <= pool.len(),
            ensures
                j <= pool.len(),
                find_first(pool@, p, 0) == if j < pool.len() {
                    j as int
                } else {
                    -1
                },
            decreases pool.len() - j,
        {
            if j >= pool.len() {
                break;
            }
            if pool[j].property == p {
                break;
            }
            j = j + 1;
        }
        if j < pool.len() {
            let d = pool.swap_remove(j);
            out.push(d);
        }
        if pool.len() == j {
            out.push(TransitionData { start: None, end: None, property: p });
        }
        m = m + 1;
    }
    out
}

fn update_records<A: Copy>(
    data: &mut Vec<TransitionData<A>>,
    props: &Vec<usize>,
    use_index: bool,
    slot: usize,
    changed: bool,
    dirty: &StyleMarkType,
    current: &Vec<Option<A>>,
    acts: &mut Vec<TransitionAction<A>>,
)
    requires
        old(data).len() >= props.len(),
        current.len() == STYLE_BITS,
        forall|k: int| 0 <= k < props.len() ==> #[trigger] props[k] < STYLE_BITS,
    ensures
        final(data)@ == update_all(old(data)@, props@, use_index, slot, changed, dirty@, current@, props.len() as int).0,
        final(acts)@ == old(acts)@ + update_all(
            old(data)@,
            props@,
            use_index,
            slot,
            changed,
            dirty@,
            current@,
            props.len() as int,
        ).1,
{
    let ghost d0 = data@;
    let ghost a0 = acts@;
    let mut i: usize = 0;
    let mut r: usize = 0;
    while i < props.len()
        invariant
            d0.len() >= props.len(),
            current.len() == STYLE_BITS,
            forall|k: int| 0 <= k < props.len() ==> #[trigger] props[k] < STYLE_BITS,
            i <= props.len(),
            r <= i,
            data@ == update_all(d0, props@, use_index, slot, changed, dirty@, current@, i as int).0,
            acts@ == a0 + update_all(d0, props@, use_index, slot, changed, dirty@, current@, i as int).1,
            r == update_all(d0, props@, use_index, slot, changed, dirty@, current@, i as int).2,
        decreases props.len() - i,
    {
        proof {
            lemma_update_len(d0, props@, use_index, slot, changed, dirty@, current@, i as int);
        }
        let p = props[i];
        let ri = if use_index {
            i
        } else {
            r
        };
        let d = data[ri];
        let s = if use_index {
            i
        } else {
            slot
        };
        let dirty_p = dirty.get(p);
        let cur = current[p];
        let removed = dirty_p && cur.is_none();
        if removed {
            data.set(ri, TransitionData { start: None, end: None, property: d.property });
            acts.push(TransitionAction::UnbindSingle(p));
        } else {
            let d2 = if dirty_p {
                if d.start.is_some() {
                    TransitionData { start: d.start, end: cur, property: d.property }
                } else {
                    TransitionData { start: cur, end: d.end, property: d.property }
                }
            } else {
                d
            };
            data.set(ri, d2);
            if (changed || dirty_p) && d2.start.is_some() && d2.end.is_some() {
                let start = d2.start.unwrap();
                let end = d2.end.unwrap();
                acts.push(TransitionAction::Bind { property: p, slot: s, start, end });
            }
        }
        if use_index || !removed {
            r = r + 1;
        }
        i = i + 1;
    }
}

proof fn lemma_update_len<A>(
    data: Seq<TransitionData<A>>,
    props: Seq<usize>,
    use_index: bool,
    slot: usize,
    changed: bool,
    dirty: Seq<bool>,
    current: Seq<Option<A>>,
    m: int,
)
    requires
        0 <= m <= props.len(),
        data.len() >= props.len(),
    ensures
        update_all(data, props, use_index, slot, changed, dirty, current, m).0.len() == data.len(),
        0 <= update_all(data, props, use_index, slot, changed, dirty, current, m).2 <= m,
    decreases m,
{
    if m > 0 {
        lemma_update_len(data, props, use_index, slot, changed, dirty, current, m - 1);
    }
}

/// The properties of a transition state over `n` style properties: the mark
/// covers them, and every listed property is one of them or null.
pub open spec fn props_ok<A>(t: Transition<A>, n: nat) -> bool {
    &&& t.mark@.len() == n
    &&& forall|k: int|
        0 <= k < t.property@.len() ==> #[trigger] t.property@[k] == NULL_PROPERTY || t.property@[k] < n
}

/// The records of a transition state fit its properties: an explicit list
/// holds no null entry and has one record per entry, and an "all"
/// transition has at least one record per marked property.
pub open spec fn records_ok<A>(t: Transition<A>) -> bool {
    &&& t.is_all == NULL_PROPERTY ==> {
        &&& t.data@.len() == t.property@.len()
        &&& forall|k: int| 0 <= k < t.property@.len() ==> #[trigger] t.property@[k] != NULL_PROPERTY
    }
    &&& t.is_all != NULL_PROPERTY ==> t.data@.len() >= ones(t.mark@).len()
}

/// The well-formed transition states over `n` style properties.
pub open spec fn transition_wf<A>(t: Transition<A>, n: nat) -> bool {
    props_ok(t, n) && records_ok(t)
}

/// The interpolable properties that a node sets, by class or locally.
pub open spec fn set_style(marks: StyleMark, interpolable: Seq<bool>) -> Seq<bool> {
    and_marks(or_marks(marks.class_style@, marks.local_style@), interpolable)
}

/// The first phase for one node whose transition state is `t`: the new mark,
/// null position and records, and the curve actions.  `changed` tells
/// whether the transition itself was changed; `current[p]` is the value of
/// property `p`, consulted only for the properties changed in this frame.
pub open spec fn phase_one<A>(
    t: Transition<A>,
    changed: bool,
    marks: StyleMark,
    interpolable: Seq<bool>,
    current: Seq<Option<A>>,
) -> (Seq<bool>, usize, Seq<TransitionData<A>>, Seq<TransitionAction<A>>) {
    let props = t.property@;
    let dirty = marks.dirty_style@;
    let mark1 = if changed {
        listed_mark(props, dirty.len())
    } else {
        t.mark@
    };
    let is_all1 = if changed {
        first_null(props, 0)
    } else {
        t.is_all
    };
    let data1 = if changed && is_all1 == NULL_PROPERTY {
        realigned(t.data@, props)
    } else {
        t.data@
    };
    let pre: Seq<TransitionAction<A>> = if changed {
        seq![TransitionAction::UnbindAll]
    } else {
        Seq::empty()
    };
    if !(changed || any_mark(and_marks(dirty, mark1))) {
        (mark1, is_all1, data1, pre)
    } else if is_all1 == NULL_PROPERTY {
        let r = update_all(data1, props, true, 0, changed, dirty, current, props.len() as int);
        (mark1, is_all1, r.0, pre + r.1)
    } else {
        let style = set_style(marks, interpolable);
        let on = ones(style);
        let data2 = if style != mark1 {
            rebuild_all(data1, on, on.len() as int).1
        } else {
            data1
        };
        let r = update_all(data2, on, false, is_all1, changed, dirty, current, on.len() as int);
        (style, is_all1, r.0, pre + r.1)
    }
}

/// A changed transition over "all" whose listed properties are exactly the
/// set interpolable ones keeps its records, and must have one per property.
pub open spec fn records_fit<A>(t: Transition<A>, changed: bool, marks: StyleMark, interpolable: Seq<bool>) -> bool {
    let lm = listed_mark(t.property@, marks.dirty_style@.len());
    (changed && first_null(t.property@, 0) != NULL_PROPERTY && set_style(marks, interpolable) == lm)
        ==> t.data@.len() >= ones(lm).len()
}

proof fn lemma_no_null(props: Seq<usize>, k: int)
    requires
        0 <= k <= props.len(),
        props.len() <= usize::MAX,
        first_null(props, k) == NULL_PROPERTY,
    ensures
        forall|i: int| k <= i < props.len() ==> props[i] != NULL_PROPERTY,
    decreases props.len() - k,
{
    if k < props.len() {
        lemma_no_null(props, k + 1);
    }
}

/// Runs the first phase of the transition of one node.
pub fn transition_1_node<A: Copy>(
    t: &mut Transition<A>,
    changed: bool,
    marks: &StyleMark,
    interpolable: &StyleMarkType,
    current: &Vec<Option<A>>,
) -> (acts: Vec<TransitionAction<A>>)
    requires
        current.len() == STYLE_BITS,
        props_ok(*old(t), marks.dirty_style@.len()),
        changed || records_ok(*old(t)),
        records_fit(*old(t), changed, *marks, interpolable@),
    ensures
        final(t).property@ == old(t).property@,
        (final(t).mark@, final(t).is_all, final(t).data@, acts@) == phase_one(
            *old(t),
            changed,
            *marks,
            interpolable@,
            current@,
        ),
        transition_wf(*final(t), marks.dirty_style@.len()),
{
    proof {
        marks.dirty_style.lemma_len();
        marks.class_style.lemma_len();
        marks.local_style.lemma_len();
        interpolable.lemma_len();
        t.mark.lemma_len();
    }
    let ghost t0 = *t;
    let mut acts: Vec<TransitionAction<A>> = Vec::new();
    if changed {
        acts.push(TransitionAction::UnbindAll);
        let (mark, is_all) = mark_listed(&t.property);
        t.mark = mark;
        t.is_all = is_all;
        if is_all == NULL_PROPERTY {
            let mut pool: Vec<TransitionData<A>> = Vec::new();
            std::mem::swap(&mut pool, &mut t.data);
            t.data = realign_data(pool, &t.property);
            let _plen = t.property.len();
            proof {
                lemma_no_null(t.property@, 0);
            }
        }
    }
    let ghost t1 = *t;
    proof {
        t.mark.lemma_len();
    }
    let dirty = marks.dirty_style.and(&t.mark);
    if changed || dirty.any() {
        if t.is_all == NULL_PROPERTY {
            update_records(&mut t.data, &t.property, true, 0, changed, &marks.dirty_style, current, &mut acts);
            proof {
                lemma_update_len(t1.data@, t1.property@, true, 0, changed, marks.dirty_style@, current@, t1.property@.len() as int);
            }
        } else {
            let any = marks.class_style.or(&marks.local_style);
            let style = any.and(interpolable);
            let on = style.ones();
            proof {
                style.lemma_len();
                lemma_ones_len(style@, style@.len() as int);
            }
            if !style.same(&t.mark) {
                let mut pool: Vec<TransitionData<A>> = Vec::new();
                std::mem::swap(&mut pool, &mut t.data);
                t.data = rebuild_all_data(pool, &on);
                t.mark = style;
                proof {
                    lemma_rebuild_len(t1.data@, on@, on@.len() as int);
                }
            }
            let ghost t2 = *t;
            let slot = t.is_all;
            update_records(&mut t.data, &on, false, slot, changed, &marks.dirty_style, current, &mut acts);
            proof {
                lemma_update_len(t2.data@, on@, false, slot, changed, marks.dirty_style@, current@, on@.len() as int);
            }
        }
    }
    acts
}

/// The second phase over the first `m` of the properties `props`: record
/// `i` takes the value of `props[i]` as its start, where that property
/// changed and has a value.
pub open spec fn set_starts<A>(
    data: Seq<TransitionData<A>>,
    props: Seq<usize>,
    dirty: Seq<bool>,
    current: Seq<Option<A>>,
    m: int,
) -> Seq<TransitionData<A>>
    decreases m,
{
    if m <= 0 {
        data
    } else {
        let d = set_starts(data, props, dirty, current, m - 1);
        let p = props[m - 1];
        if dirty[p as int] && current[p as int] is Some {
            d.update(m - 1, TransitionData { start: current[p as int], ..d[m - 1] })
        } else {
            d
        }
    }
}

/// The records after the second phase for one node.
pub open spec fn phase_two<A>(t: Transition<A>, dirty: Seq<bool>, current: Seq<Option<A>>) -> Seq<
    TransitionData<A>,
> {
    let change = and_marks(t.mark@, dirty);
    if !any_mark(change) {
        t.data@
    } else if t.is_all != NULL_PROPERTY {
        set_starts(t.data@, ones(change), dirty, current, ones(change).len() as int)
    } else {
        set_starts(t.data@, t.property@, dirty, current, t.property@.len() as int)
    }
}

proof fn lemma_ones_and(a: Seq<bool>, b: Seq<bool>, k: int)
    requires
        a.len() == b.len(),
        0 <= k <= a.len(),
    ensures
        ones_upto(and_marks(a, b), k).len() <= ones_upto(a, k).len(),
        forall|i: int|
            0 <= i < ones_upto(and_marks(a, b), k).len() ==> #[trigger] ones_upto(and_marks(a, b), k)[i]
                < k,
    decreases k,
{
    if k > 0 {
        lemma_ones_and(a, b, k - 1);
    }
}

fn set_start_records<A: Copy>(
    data: &mut Vec<TransitionData<A>>,
    props: &Vec<usize>,
    dirty: &StyleMarkType,
    current: &Vec<Option<A>>,
)
    requires
        old(data).len() >= props.len(),
        current.len() == STYLE_BITS,
        forall|k: int| 0 <= k < props.len() ==> #[trigger] props[k] < STYLE_BITS,
    ensures
        final(data)@ == set_starts(old(data)@, props@, dirty@, current@, props.len() as int),
        final(data)@.len() == old(data)@.len(),
{
    let ghost d0 = data@;
    let mut i: usize = 0;
    while i < props.len()
        invariant
            d0.len() >= props.len(),
            current.len() == STYLE_BITS,
            forall|k: int| 0 <= k < props.len() ==> #[trigger] props[k] < STYLE_BITS,
            i <= props.len(),
            data@ == set_starts(d0, props@, dirty@, current@, i as int),
            data@.len() == d0.len(),
        decreases props.len() - i,
    {
        let p = props[i];
        if dirty.get(p) {
            match current[p] {
                Some(a) => {
                    let d = data[i];
                    data.set(i, TransitionData { start: Some(a), end: d.end, property: d.property });
                },
                None => {},
            }
        }
        i = i + 1;
    }
}

/// Runs the second phase of the transition of one node.
pub fn transition_2_node<A: Copy>(t: &mut Transition<A>, dirty: &StyleMarkType, current: &Vec<Option<A>>)
    requires
        current.len() == STYLE_BITS,
        transition_wf(*old(t), dirty@.len()),
    ensures
        final(t).property@ == old(t).property@,
        final(t).mark@ == old(t).mark@,
        final(t).is_all == old(t).is_all,
        final(t).data@ == phase_two(*old(t), dirty@, current@),
        transition_wf(*final(t), dirty@.len()),
{
    proof {
        t.mark.lemma_len();
        dirty.lemma_len();
    }
    let change = t.mark.and(dirty);
    if change.any() {
        if t.is_all != NULL_PROPERTY {
            let on = change.ones();
            proof {
                lemma_ones_and(t.mark@, dirty@, t.mark@.len() as int);
            }
            set_start_records(&mut t.data, &on, dirty, current);
        } else {
            set_start_records(&mut t.data, &t.property, dirty, current);
        }
    }
}

/// A node with a transition: its state, whether the transition was changed
/// since the last frame, its style marks and the values of its properties
/// (only those changed in this frame are consulted).
pub struct TransitionNode<A> {
    pub transition: Transition<A>,
    pub changed: bool,
    pub marks: StyleMark,
    pub current: Vec<Option<A>>,
}

/// A node on which the first phase can run: its marks and values cover the
/// same properties, its state is well formed and its records fit.
pub open spec fn node_ready<A>(node: TransitionNode<A>, interpolable: Seq<bool>) -> bool {
    let n = node.marks.dirty_style@.len();
    &&& node.marks.class_style@.len() == n
    &&& node.marks.local_style@.len() == n
    &&& interpolable.len() == n
    &&& node.current@.len() == n
    &&& props_ok(node.transition, n)
    &&& (node.changed || records_ok(node.transition))
    &&& records_fit(node.transition, node.changed, node.marks, interpolable)
}

fn check_props<A>(t: &Transition<A>) -> (r: bool)
    ensures
        r == props_ok(*t, STYLE_BITS as nat),
{
    proof {
        t.mark.lemma_len();
    }
    let n = STYLE_BITS;
    let mut k: usize = 0;
    while k < t.property.len()
        invariant
            n == STYLE_BITS,
            k <= t.property.len(),
            forall|j: int| 0 <= j < k ==> #[trigger] t.property@[j] == NULL_PROPERTY || t.property@[j] < n,
        decreases t.property.len() - k,
    {
        if t.property[k] != NULL_PROPERTY && t.property[k] >= n {
            assert(!(t.property@[k as int] == NULL_PROPERTY || t.property@[k as int] < n));
            return false;
        }
        k = k + 1;
    }
    true
}

fn check_records<A>(t: &Transition<A>) -> (r: bool)
    ensures
        r == records_ok(*t),
{
    if t.is_all == NULL_PROPERTY {
        if t.data.len() != t.property.len() {
            return false;
        }
        let mut j: usize = 0;
        while j < t.property.len()
            invariant
                t.is_all == NULL_PROPERTY,
                j <= t.property.len(),
                forall|i: int| 0 <= i < j ==> #[trigger] t.property@[i] != NULL_PROPERTY,
            decreases t.property.len() - j,
        {
            if t.property[j] == NULL_PROPERTY {
                assert(t.property@[j as int] == NULL_PROPERTY);
                return false;
            }
            j = j + 1;
        }
        true
    } else {
        let ones_mark = t.mark.ones();
        t.data.len() >= ones_mark.len()
    }
}

/// Whether a transition state is well formed over the style properties:
/// [`transition_wf`], tested.
pub fn transition_state_wf<A>(t: &Transition<A>) -> (r: bool)
    ensures
        r == transition_wf(*t, STYLE_BITS as nat),
{
    check_props(t) && check_records(t)
}

/// Whether the first phase can run on `node`: [`node_ready`], tested.
pub fn transition_node_ready<A>(node: &TransitionNode<A>, interpolable: &StyleMarkType) -> (r: bool)
    ensures
        r == node_ready(*node, interpolable@),
{
    proof {
        node.marks.dirty_style.lemma_len();
        node.marks.class_style.lemma_len();
        node.marks.local_style.lemma_len();
        interpolable.lemma_len();
    }
    if node.current.len() != STYLE_BITS {
        return false;
    }
    let t = &node.transition;
    if !check_props(t) {
        return false;
    }
    if !node.changed && !check_records(t) {
        return false;
    }
    let (lm, first) = mark_listed(&t.property);
    if node.changed && first != NULL_PROPERTY {
        let set = node.marks.class_style.or(&node.marks.local_style).and(interpolable);
        assert(set@ == set_style(node.marks, interpolable@));
        if set.same(&lm) {
            let lm_ones = lm.ones();
            return t.data.len() >= lm_ones.len();
        }
    }
    true
}

/// The node after the first phase.
pub open spec fn node_after_one<A>(
    old_node: TransitionNode<A>,
    new_node: TransitionNode<A>,
    interpolable: Seq<bool>,
    acts: Seq<TransitionAction<A>>,
) -> bool {
    let r = phase_one(
        old_node.transition,
        old_node.changed,
        old_node.marks,
        interpolable,
        old_node.current@,
    );
    &&& new_node.transition.property@ == old_node.transition.property@
    &&& new_node.transition.mark@ == r.0
    &&& new_node.transition.is_all == r.1
    &&& new_node.transition.data@ == r.2
    &&& acts == r.3
    &&& new_node.changed == old_node.changed
    &&& new_node.marks == old_node.marks
    &&& new_node.current == old_node.current
}

fn run_node_one<A: Copy>(node: &mut TransitionNode<A>, interpolable: &StyleMarkType) -> (acts: Vec<
    TransitionAction<A>,
>)
    requires
        node_ready(*old(node), interpolable@),
    ensures
        node_after_one(*old(node), *final(node), interpolable@, acts@),
{
    proof {
        node.marks.dirty_style.lemma_len();
    }
    transition_1_node(&mut node.transition, node.changed, &node.marks, interpolable, &node.current)
}

/// The first phase over all nodes with a transition.  Nothing happens while
/// the animations are paused (`is_run`) or when no style changed in this
/// frame (`style_changes == 0`); otherwise `acts[i]` are the curve actions of
/// node `i`.
pub fn transition_1<A: Copy>(
    is_run: bool,
    style_changes: usize,
    nodes: &mut Vec<TransitionNode<A>>,
    interpolable: &StyleMarkType,
) -> (acts: Vec<Vec<TransitionAction<A>>>)
    requires
        forall|i: int| 0 <= i < old(nodes).len() ==> node_ready(#[trigger] old(nodes)@[i], interpolable@),
    ensures
        final(nodes).len() == old(nodes).len(),
        is_run || style_changes == 0 ==> final(nodes)@ == old(nodes)@ && acts@.len() == 0,
        !(is_run || style_changes == 0) ==> acts@.len() == old(nodes).len() && forall|i: int|
            0 <= i < old(nodes).len() ==> node_after_one(
                old(nodes)@[i],
                #[trigger] final(nodes)@[i],
                interpolable@,
                acts@[i]@,
            ),
{
    let mut acts: Vec<Vec<TransitionAction<A>>> = Vec::new();
    if is_run || style_changes == 0 {
        return acts;
    }
    let n = nodes.len();
    let mut i: usize = 0;
    while i < n
        invariant
            n == nodes.len(),
            n == old(nodes).len(),
            i <= n,
            acts.len() == i,
            forall|k: int| i <= k < n ==> #[trigger] nodes@[k] == old(nodes)@[k],
            forall|k: int| 0 <= k < n ==> node_ready(#[trigger] old(nodes)@[k], interpolable@),
            forall|k: int|
                0 <= k < i ==> node_after_one(old(nodes)@[k], #[trigger] nodes@[k], interpolable@, acts@[k]@),
        decreases n - i,
    {
        let a = run_node_one(&mut nodes[i], interpolable);
        acts.push(a);
        i = i + 1;
    }
    acts
}

fn run_node_two<A: Copy>(node: &mut TransitionNode<A>)
    requires
        old(node).current@.len() == old(node).marks.dirty_style@.len(),
        transition_wf(old(node).transition, old(node).marks.dirty_style@.len()),
    ensures
        final(node).transition.property@ == old(node).transition.property@,
        final(node).transition.mark@ == old(node).transition.mark@,
        final(node).transition.is_all == old(node).transition.is_all,
        final(node).transition.data@ == phase_two(
            old(node).transition,
            old(node).marks.dirty_style@,
            old(node).current@,
        ),
        final(node).changed == old(node).changed,
        final(node).marks == old(node).marks,
        final(node).current == old(node).current,
{
    proof {
        node.marks.dirty_style.lemma_len();
    }
    transition_2_node(&mut node.transition, &node.marks.dirty_style, &node.current);
}

/// The second phase over all nodes with a transition; as in the first phase,
/// nothing happens while the animations are paused or when no style changed.
pub fn transition_2<A: Copy>(is_run: bool, style_changes: usize, nodes: &mut Vec<TransitionNode<A>>)
    requires
        forall|i: int|
            0 <= i < old(nodes).len() ==> {
                &&& (#[trigger] old(nodes)@[i]).current@.len() == old(nodes)@[i].marks.dirty_style@.len()
                &&& transition_wf(old(nodes)@[i].transition, old(nodes)@[i].marks.dirty_style@.len())
            },
    ensures
        final(nodes).len() == old(nodes).len(),
        is_run || style_changes == 0 ==> final(nodes)@ == old(nodes)@,
        !(is_run || style_changes == 0) ==> forall|i: int|
            0 <= i < old(nodes).len() ==> {
                &&& (#[trigger] final(nodes)@[i]).transition.data@ == phase_two(
                    old(nodes)@[i].transition,
                    old(nodes)@[i].marks.dirty_style@,
                    old(nodes)@[i].current@,
                )
                &&& final(nodes)@[i].transition.property@ == old(nodes)@[i].transition.property@
                &&& final(nodes)@[i].transition.mark@ == old(nodes)@[i].transition.mark@
                &&& final(nodes)@[i].transition.is_all == old(nodes)@[i].transition.is_all
            },
{
    if is_run || style_changes == 0 {
        return ;
    }
    let n = nodes.len();
    let mut i: usize = 0;
    while i < n
        invariant
            n == nodes.len(),
            n == old(nodes).len(),
            i <= n,
            forall|k: int| i <= k < n ==> #[trigger] nodes@[k] == old(nodes)@[k],
            forall|k: int|
                0 <= k < n ==> {
                    &&& (#[trigger] old(nodes)@[k]).current@.len() == old(nodes)@[k].marks.dirty_style@.len()
                    &&& transition_wf(old(nodes)@[k].transition, old(nodes)@[k].marks.dirty_style@.len())
                },
            forall|k: int|
                0 <= k < i ==> {
                    &&& (#[trigger] nodes@[k]).transition.data@ == phase_two(
                        old(nodes)@[k].transition,
                        old(nodes)@[k].marks.dirty_style@,
                        old(nodes)@[k].current@,
                    )
                    &&& nodes@[k].transition.property@ == old(nodes)@[k].transition.property@
                    &&& nodes@[k].transition.mark@ == old(nodes)@[k].transition.mark@
                    &&& nodes@[k].transition.is_all == old(nodes)@[k].transition.is_all
                },
        decreases n - i,
    {
        run_node_two(&mut nodes[i]);
        i = i + 1;
    }
}

/// The records of an explicit property list each belong to the property at
/// their position.
pub open spec fn records_aligned<A>(t: Transition<A>) -> bool {
    t.is_all == NULL_PROPERTY ==> forall|i: int|
        0 <= i < t.data@.len() && i < t.property@.len() ==> (#[trigger] t.data@[i]).property == t.property@[i]
}

proof fn lemma_find_last<A>(pool: Seq<TransitionData<A>>, p: usize, j: int)
    ensures
        find_last(pool, p, j) >= 0 ==> find_last(pool, p, j) < j && pool[find_last(pool, p, j)].property == p,
    decreases j,
{
    if j > 0 && pool[j - 1].property != p {
        lemma_find_last(pool, p, j - 1);
    }
}

proof fn lemma_realigned_props<A>(pool: Seq<TransitionData<A>>, props: Seq<usize>)
    ensures
        forall|i: int| 0 <= i < props.len() ==> (#[trigger] realigned(pool, props)[i]).property == props[i],
{
    assert forall|i: int| 0 <= i < props.len() implies (#[trigger] realigned(pool, props)[i]).property == props[i] by {
        let rest = pool_after(pool, props, i + 1);
        lemma_find_last(rest, props[i], rest.len() as int);
    }
}

proof fn lemma_update_props<A>(
    data: Seq<TransitionData<A>>,
    props: Seq<usize>,
    use_index: bool,
    slot: usize,
    changed: bool,
    dirty: Seq<bool>,
    current: Seq<Option<A>>,
    m: int,
)
    requires
        0 <= m <= props.len(),
        data.len() >= props.len(),
    ensures
        forall|i: int|
            0 <= i < data.len() ==> (#[trigger] update_all(data, props, use_index, slot, changed, dirty, current, m).0[i]).property
                == data[i].property,
    decreases m,
{
    if m > 0 {
        lemma_update_props(data, props, use_index, slot, changed, dirty, current, m - 1);
        lemma_update_len(data, props, use_index, slot, changed, dirty, current, m - 1);
    }
}

proof fn lemma_starts_props<A>(
    data: Seq<TransitionData<A>>,
    props: Seq<usize>,
    dirty: Seq<bool>,
    current: Seq<Option<A>>,
    m: int,
)
    requires
        0 <= m <= props.len(),
        data.len() >= props.len(),
    ensures
        set_starts(data, props, dirty, current, m).len() == data.len(),
        forall|i: int|
            0 <= i < data.len() ==> (#[trigger] set_starts(data, props, dirty, current, m)[i]).property
                == data[i].property && set_starts(data, props, dirty, current, m)[i].end == data[i].end,
    decreases m,
{
    if m > 0 {
        lemma_starts_props(data, props, dirty, current, m - 1);
    }
}

/// Updating one record: a record that holds both a start and an end after
/// the update is bound to its curve whenever the transition changed or the
/// property changed; nothing is bound or unbound for an unchanged property
/// of an unchanged transition, and its record stays as it was.
pub proof fn lemma_update_one_binds<A>(
    d: TransitionData<A>,
    property: usize,
    slot: usize,
    changed: bool,
    dirty: bool,
    cur: Option<A>,
)
    ensures
        ({
            let (r, a) = update_one(d, property, slot, changed, dirty, cur);
            &&& (changed || dirty) && r.start is Some && r.end is Some ==> a == seq![
                TransitionAction::Bind { property, slot, start: r.start->0, end: r.end->0 },
            ]
            &&& !(changed || dirty) ==> r == d && a.len() == 0
            &&& r.property == d.property
        }),
{
}

/// After a change of the transition, every record of an explicit property
/// list that holds both a start and an end is bound again to the curve of
/// its property, with its position as timing slot, whether or not the
/// property changed.
pub proof fn lemma_changed_rebinds<A>(
    data: Seq<TransitionData<A>>,
    props: Seq<usize>,
    slot: usize,
    dirty: Seq<bool>,
    current: Seq<Option<A>>,
    m: int,
)
    requires
        0 <= m <= props.len(),
        data.len() >= props.len(),
    ensures
        forall|k: int|
            0 <= k < m ==> {
                let rec = #[trigger] update_all(data, props, true, slot, true, dirty, current, m).0[k];
                rec.start is Some && rec.end is Some ==> update_all(data, props, true, slot, true, dirty, current, m).1.contains(
                    TransitionAction::Bind { property: props[k], slot: k as usize, start: rec.start->0, end: rec.end->0 },
                )
            },
    decreases m,
{
    if m > 0 {
        lemma_changed_rebinds(data, props, slot, dirty, current, m - 1);
        lemma_update_len(data, props, true, slot, true, dirty, current, m - 1);
        let (d, acts, idx) = update_all(data, props, true, slot, true, dirty, current, m - 1);
        let p = props[m - 1];
        let (r, a) = update_one(d[m - 1], p, (m - 1) as usize, true, dirty[p as int], current[p as int]);
        lemma_update_one_binds(d[m - 1], p, (m - 1) as usize, true, dirty[p as int], current[p as int]);
        let fin = update_all(data, props, true, slot, true, dirty, current, m);
        assert(fin.0 == d.update(m - 1, r));
        assert(fin.1 == acts + a);
        assert forall|k: int|
            0 <= k < m implies {
                let rec = #[trigger] update_all(data, props, true, slot, true, dirty, current, m).0[k];
                rec.start is Some && rec.end is Some ==> update_all(data, props, true, slot, true, dirty, current, m).1.contains(
                    TransitionAction::Bind { property: props[k], slot: k as usize, start: rec.start->0, end: rec.end->0 },
                )
            } by {
            let rec = fin.0[k];
            let b = TransitionAction::Bind { property: props[k], slot: k as usize, start: rec.start->0, end: rec.end->0 };
            if rec.start is Some && rec.end is Some {
                if k < m - 1 {
                    assert(rec == d[k]);
                    assert(acts.contains(b));
                    let j = choose|j: int| 0 <= j < acts.len() && acts[j] == b;
                    assert((acts + a)[j] == b);
                } else {
                    assert(rec == r);
                    assert(a == seq![b]);
                    assert((acts + a)[acts.len() as int] == b);
                }
            }
        }
    }
}

/// The first phase keeps the records of an explicit property list aligned
/// with it: after a change of the transition they are aligned afresh, and
/// aligned records stay aligned.
pub proof fn lemma_phase_one_aligned<A>(
    t: Transition<A>,
    changed: bool,
    marks: StyleMark,
    interpolable: Seq<bool>,
    current: Seq<Option<A>>,
)
    requires
        props_ok(t, marks.dirty_style@.len()),
        changed || records_ok(t),
        changed || records_aligned(t),
    ensures
        ({
            let r = phase_one(t, changed, marks, interpolable, current);
            r.1 == NULL_PROPERTY ==> forall|i: int|
                0 <= i < r.2.len() && i < t.property@.len() ==> (#[trigger] r.2[i]).property == t.property@[i]
        }),
{
    let props = t.property@;
    let r = phase_one(t, changed, marks, interpolable, current);
    if r.1 == NULL_PROPERTY {
        let data1 = if changed {
            realigned(t.data@, props)
        } else {
            t.data@
        };
        if changed {
            lemma_realigned_props(t.data@, props);
        }
        if changed || any_mark(and_marks(marks.dirty_style@, if changed {
            listed_mark(props, marks.dirty_style@.len())
        } else {
            t.mark@
        })) {
            lemma_update_props(data1, props, true, 0, changed, marks.dirty_style@, current, props.len() as int);
        }
    }
}

/// The second phase keeps every record where it belongs: it changes only
/// start values.
pub proof fn lemma_phase_two_aligned<A>(t: Transition<A>, dirty: Seq<bool>, current: Seq<Option<A>>)
    requires
        transition_wf(t, dirty.len()),
    ensures
        phase_two(t, dirty, current).len() == t.data@.len(),
        forall|i: int|
            0 <= i < t.data@.len() ==> (#[trigger] phase_two(t, dirty, current)[i]).property == t.data@[i].property
                && phase_two(t, dirty, current)[i].end == t.data@[i].end,
{
    let change = and_marks(t.mark@, dirty);
    if any_mark(change) {
        if t.is_all != NULL_PROPERTY {
            lemma_ones_and(t.mark@, dirty, t.mark@.len() as int);
            lemma_starts_props(t.data@, ones(change), dirty, current, ones(change).len() as int);
        } else {
            lemma_starts_props(t.data@, t.property@, dirty, current, t.property@.len() as int);
        }
    }
}

} // verus!
