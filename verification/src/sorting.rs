//! Stable insertion sorts over integer keys, used to order the finished
//! history by start instant and to repair note order on load.
//!
//! The sorts are pinned down exactly: the executable functions return
//! precisely `sort_asc` / `sort_desc` of their input, which keeps equal
//! keys in input order (an element is inserted after the elements it does
//! not strictly precede).

use vstd::prelude::*;

use crate::entities::boxes_views;
use crate::entities::notes_views;
use crate::entities::NoteView;
use crate::entities::TimeBox;
use crate::entities::TimeBoxNote;

verus! {

/// The sort key of a box: its first note's instant, or 0 for a note-less
/// box (which validation rejects, but a query must still tolerate).
pub open spec fn box_key(b: Seq<NoteView>) -> int {
    if b.len() > 0 {
        b[0].time
    } else {
        0
    }
}

/// `box_key` as a value, so that every use names one function.
pub open spec fn box_key_fn() -> spec_fn(Seq<NoteView>) -> int {
    |b: Seq<NoteView>| box_key(b)
}

/// The sort key of a note: its instant.
pub open spec fn note_key_fn() -> spec_fn(NoteView) -> int {
    |n: NoteView| n.time
}

/// Inserts `x` before the first element whose key it strictly precedes;
/// equal keys therefore stay before `x`.
pub open spec fn insert_asc<T>(s: Seq<T>, x: T, key: spec_fn(T) -> int) -> Seq<T>
    decreases s.len(),
{
    if s.len() == 0 {
        seq![x]
    } else if key(x) < key(s[0]) {
        seq![x] + s
    } else {
        seq![s[0]] + insert_asc(s.drop_first(), x, key)
    }
}

/// Stable insertion sort, ascending by key.
pub open spec fn sort_asc<T>(s: Seq<T>, key: spec_fn(T) -> int) -> Seq<T>
    decreases s.len(),
{
    if s.len() == 0 {
        s
    } else {
        insert_asc(sort_asc(s.drop_last(), key), s.last(), key)
    }
}

/// Inserts `x` before the first element whose key it strictly follows;
/// equal keys therefore stay before `x`.
pub open spec fn insert_desc<T>(s: Seq<T>, x: T, key: spec_fn(T) -> int) -> Seq<T>
    decreases s.len(),
{
    if s.len() == 0 {
        seq![x]
    } else if key(x) > key(s[0]) {
        seq![x] + s
    } else {
        seq![s[0]] + insert_desc(s.drop_first(), x, key)
    }
}

/// Stable insertion sort, descending by key.
pub open spec fn sort_desc<T>(s: Seq<T>, key: spec_fn(T) -> int) -> Seq<T>
    decreases s.len(),
{
    if s.len() == 0 {
        s
    } else {
        insert_desc(sort_desc(s.drop_last(), key), s.last(), key)
    }
}

/// Keys never decrease along the sequence.
pub open spec fn sorted_asc<T>(s: Seq<T>, key: spec_fn(T) -> int) -> bool {
    forall|i: int, j: int| 0 <= i <= j < s.len() ==> #[trigger] key(s[i]) <= #[trigger] key(s[j])
}

/// Keys never increase along the sequence.
pub open spec fn sorted_desc<T>(s: Seq<T>, key: spec_fn(T) -> int) -> bool {
    forall|i: int, j: int| 0 <= i <= j < s.len() ==> #[trigger] key(s[i]) >= #[trigger] key(s[j])
}

pub proof fn lemma_insert_asc_len<T>(s: Seq<T>, x: T, key: spec_fn(T) -> int)
    ensures
        insert_asc(s, x, key).len() == s.len() + 1,
    decreases s.len(),
{
    if s.len() > 0 && !(key(x) < key(s[0])) {
        lemma_insert_asc_len(s.drop_first(), x, key);
    }
}

pub proof fn lemma_sort_asc_len<T>(s: Seq<T>, key: spec_fn(T) -> int)
    ensures
        sort_asc(s, key).len() == s.len(),
    decreases s.len(),
{
    if s.len() > 0 {
        lemma_sort_asc_len(s.drop_last(), key);
        lemma_insert_asc_len(sort_asc(s.drop_last(), key), s.last(), key);
    }
}

pub proof fn lemma_insert_desc_len<T>(s: Seq<T>, x: T, key: spec_fn(T) -> int)
    ensures
        insert_desc(s, x, key).len() == s.len() + 1,
    decreases s.len(),
{
    if s.len() > 0 && !(key(x) > key(s[0])) {
        lemma_insert_desc_len(s.drop_first(), x, key);
    }
}

pub proof fn lemma_sort_desc_len<T>(s: Seq<T>, key: spec_fn(T) -> int)
    ensures
        sort_desc(s, key).len() == s.len(),
    decreases s.len(),
{
    if s.len() > 0 {
        lemma_sort_desc_len(s.drop_last(), key);
        lemma_insert_desc_len(sort_desc(s.drop_last(), key), s.last(), key);
    }
}

/// Where the scan stops is where the element lands: if `x` strictly
/// precedes no element before `i` and strictly precedes the element at `i`
/// (if any), the insertion is exactly `Seq::insert` at `i`.
pub proof fn lemma_insert_asc_at<T>(s: Seq<T>, x: T, key: spec_fn(T) -> int, i: int)
    requires
        0 <= i <= s.len(),
        forall|j: int| 0 <= j < i ==> !(key(x) < #[trigger] key(s[j])),
        i < s.len() ==> key(x) < key(s[i]),
    ensures
        insert_asc(s, x, key) == s.insert(i, x),
    decreases s.len(),
{
    if i == 0 {
        if s.len() == 0 {
            assert(insert_asc(s, x, key) =~= s.insert(0, x));
        } else {
            assert(insert_asc(s, x, key) =~= s.insert(0, x));
        }
    } else {
        assert(!(key(x) < key(s[0])));
        lemma_insert_asc_at(s.drop_first(), x, key, i - 1);
        assert(seq![s[0]] + s.drop_first().insert(i - 1, x) =~= s.insert(i, x));
    }
}

/// The descending counterpart of `lemma_insert_asc_at`.
pub proof fn lemma_insert_desc_at<T>(s: Seq<T>, x: T, key: spec_fn(T) -> int, i: int)
    requires
        0 <= i <= s.len(),
        forall|j: int| 0 <= j < i ==> !(key(x) > #[trigger] key(s[j])),
        i < s.len() ==> key(x) > key(s[i]),
    ensures
        insert_desc(s, x, key) == s.insert(i, x),
    decreases s.len(),
{
    if i == 0 {
        assert(insert_desc(s, x, key) =~= s.insert(0, x));
    } else {
        assert(!(key(x) > key(s[0])));
        lemma_insert_desc_at(s.drop_first(), x, key, i - 1);
        assert(seq![s[0]] + s.drop_first().insert(i - 1, x) =~= s.insert(i, x));
    }
}

pub proof fn lemma_insert_asc_sorted<T>(s: Seq<T>, x: T, key: spec_fn(T) -> int)
    requires
        sorted_asc(s, key),
    ensures
        sorted_asc(insert_asc(s, x, key), key),
    decreases s.len(),
{
    if s.len() > 0 && !(key(x) < key(s[0])) {
        lemma_insert_asc_sorted(s.drop_first(), x, key);
        lemma_insert_asc_len(s.drop_first(), x, key);
        let t = seq![s[0]] + insert_asc(s.drop_first(), x, key);
        assert forall|i: int, j: int| 0 <= i <= j < t.len() implies #[trigger] key(t[i])
            <= #[trigger] key(t[j]) by {
            lemma_insert_asc_elems(s.drop_first(), x, key);
        }
    }
}

pub proof fn lemma_insert_desc_sorted<T>(s: Seq<T>, x: T, key: spec_fn(T) -> int)
    requires
        sorted_desc(s, key),
    ensures
        sorted_desc(insert_desc(s, x, key), key),
    decreases s.len(),
{
    if s.len() > 0 && !(key(x) > key(s[0])) {
        lemma_insert_desc_sorted(s.drop_first(), x, key);
        lemma_insert_desc_len(s.drop_first(), x, key);
        let t = seq![s[0]] + insert_desc(s.drop_first(), x, key);
        assert forall|i: int, j: int| 0 <= i <= j < t.len() implies #[trigger] key(t[i])
            >= #[trigger] key(t[j]) by {
            lemma_insert_desc_elems(s.drop_first(), x, key);
        }
    }
}

/// Every element of the insertion is `x` or came from `s`.
pub proof fn lemma_insert_asc_elems<T>(s: Seq<T>, x: T, key: spec_fn(T) -> int)
    ensures
        forall|i: int| 0 <= i < insert_asc(s, x, key).len() ==> (#[trigger] insert_asc(
            s,
            x,
            key,
        )[i] == x || s.contains(insert_asc(s, x, key)[i])),
    decreases s.len(),
{
    if s.len() > 0 && !(key(x) < key(s[0])) {
        lemma_insert_asc_elems(s.drop_first(), x, key);
        assert forall|i: int| 0 <= i < insert_asc(s, x, key).len() implies (#[trigger] insert_asc(
            s,
            x,
            key,
        )[i] == x || s.contains(insert_asc(s, x, key)[i])) by {
            if i > 0 {
                let e = insert_asc(s.drop_first(), x, key)[i - 1];
                if e != x {
                    assert(s.drop_first().contains(e));
                    let j = choose|j: int|
                        0 <= j < s.drop_first().len() && s.drop_first()[j] == e;
                    assert(s[j + 1] == e);
                }
            } else {
                assert(s.contains(s[0]));
            }
        }
    } else if s.len() > 0 {
        assert forall|i: int| 0 <= i < insert_asc(s, x, key).len() implies (#[trigger] insert_asc(
            s,
            x,
            key,
        )[i] == x || s.contains(insert_asc(s, x, key)[i])) by {
            if i > 0 {
                assert(s[i - 1] == insert_asc(s, x, key)[i]);
            }
        }
    }
}

/// The descending counterpart of `lemma_insert_asc_elems`.
pub proof fn lemma_insert_desc_elems<T>(s: Seq<T>, x: T, key: spec_fn(T) -> int)
    ensures
        forall|i: int| 0 <= i < insert_desc(s, x, key).len() ==> (#[trigger] insert_desc(
            s,
            x,
            key,
        )[i] == x || s.contains(insert_desc(s, x, key)[i])),
    decreases s.len(),
{
    if s.len() > 0 && !(key(x) > key(s[0])) {
        lemma_insert_desc_elems(s.drop_first(), x, key);
        assert forall|i: int| 0 <= i < insert_desc(s, x, key).len() implies (#[trigger] insert_desc(
            s,
            x,
            key,
        )[i] == x || s.contains(insert_desc(s, x, key)[i])) by {
            if i > 0 {
                let e = insert_desc(s.drop_first(), x, key)[i - 1];
                if e != x {
                    assert(s.drop_first().contains(e));
                    let j = choose|j: int|
                        0 <= j < s.drop_first().len() && s.drop_first()[j] == e;
                    assert(s[j + 1] == e);
                }
            } else {
                assert(s.contains(s[0]));
            }
        }
    } else if s.len() > 0 {
        assert forall|i: int| 0 <= i < insert_desc(s, x, key).len() implies (#[trigger] insert_desc(
            s,
            x,
            key,
        )[i] == x || s.contains(insert_desc(s, x, key)[i])) by {
            if i > 0 {
                assert(s[i - 1] == insert_desc(s, x, key)[i]);
            }
        }
    }
}

/// The ascending sort is sorted.
pub proof fn lemma_sort_asc_sorted<T>(s: Seq<T>, key: spec_fn(T) -> int)
    ensures
        sorted_asc(sort_asc(s, key), key),
    decreases s.len(),
{
    if s.len() > 0 {
        lemma_sort_asc_sorted(s.drop_last(), key);
        lemma_insert_asc_sorted(sort_asc(s.drop_last(), key), s.last(), key);
    }
}

/// The descending sort is sorted.
pub proof fn lemma_sort_desc_sorted<T>(s: Seq<T>, key: spec_fn(T) -> int)
    ensures
        sorted_desc(sort_desc(s, key), key),
    decreases s.len(),
{
    if s.len() > 0 {
        lemma_sort_desc_sorted(s.drop_last(), key);
        lemma_insert_desc_sorted(sort_desc(s.drop_last(), key), s.last(), key);
    }
}

/// Every element of the sort came from the input.
pub proof fn lemma_sort_asc_elems<T>(s: Seq<T>, key: spec_fn(T) -> int)
    ensures
        forall|i: int| 0 <= i < sort_asc(s, key).len() ==> s.contains(
            #[trigger] sort_asc(s, key)[i],
        ),
    decreases s.len(),
{
    if s.len() > 0 {
        lemma_sort_asc_elems(s.drop_last(), key);
        lemma_insert_asc_elems(sort_asc(s.drop_last(), key), s.last(), key);
        assert forall|i: int| 0 <= i < sort_asc(s, key).len() implies s.contains(
            #[trigger] sort_asc(s, key)[i],
        ) by {
            let e = sort_asc(s, key)[i];
            if e != s.last() {
                assert(sort_asc(s.drop_last(), key).contains(e) || e == s.last());
                if sort_asc(s.drop_last(), key).contains(e) {
                    let j = choose|j: int|
                        0 <= j < sort_asc(s.drop_last(), key).len() && sort_asc(
                            s.drop_last(),
                            key,
                        )[j] == e;
                    assert(s.drop_last().contains(e));
                    let k = choose|k: int| 0 <= k < s.drop_last().len() && s.drop_last()[k] == e;
                    assert(s[k] == e);
                }
            } else {
                assert(s[s.len() - 1] == e);
            }
        }
    }
}

/// The executable sort key of a box.
fn box_start_key(tb: &TimeBox) -> (r: i64)
    ensures
        r as int == box_key(tb@),
{
    if tb.notes.len() > 0 {
        proof {
            assert(tb@[0] == tb.notes@[0]@);
        }
        tb.notes[0].time
    } else {
        0
    }
}

/// A copy of the boxes, stably sorted ascending by start instant.
pub(crate) fn sorted_boxes_asc(v: &Vec<TimeBox>) -> (r: Vec<TimeBox>)
    ensures
        boxes_views(r@) == sort_asc(boxes_views(v@), box_key_fn()),
{
    let mut out: Vec<TimeBox> = Vec::new();
    let mut i: usize = 0;
    proof {
        assert(boxes_views(out@) =~= sort_asc(boxes_views(v@.subrange(0, 0)), box_key_fn()));
    }
    while i < v.len()
        invariant
            i <= v.len(),
            boxes_views(out@) == sort_asc(boxes_views(v@.subrange(0, i as int)), box_key_fn()),
        decreases v.len() - i,
    {
        let x = v[i].clone();
        let kx = box_start_key(&x);
        let ghost old_views = boxes_views(out@);
        let mut pos: usize = 0;
        while pos < out.len() && !(kx < box_start_key(&out[pos]))
            invariant
                pos <= out.len(),
                kx as int == box_key(x@),
                boxes_views(out@) == old_views,
                forall|j: int| #![trigger boxes_views(out@)[j]]
                    0 <= j < pos ==> !((kx as int) < box_key(boxes_views(out@)[j])),
            decreases out.len() - pos,
        {
            pos = pos + 1;
        }
        proof {
            lemma_insert_asc_at(old_views, x@, box_key_fn(), pos as int);
        }
        let ghost pre_insert = out@;
        out.insert(pos, x);
        proof {
            assert(boxes_views(out@) =~= old_views.insert(pos as int, x@));
            assert(boxes_views(v@.subrange(0, i + 1)).drop_last() =~= boxes_views(
                v@.subrange(0, i as int),
            ));
            assert(boxes_views(v@.subrange(0, i + 1)).last() == v@[i as int]@);
        }
        i = i + 1;
    }
    proof {
        assert(v@.subrange(0, v@.len() as int) =~= v@);
    }
    out
}

/// A copy of the boxes, stably sorted descending by start instant.
pub(crate) fn sorted_boxes_desc(v: &Vec<TimeBox>) -> (r: Vec<TimeBox>)
    ensures
        boxes_views(r@) == sort_desc(boxes_views(v@), box_key_fn()),
{
    let mut out: Vec<TimeBox> = Vec::new();
    let mut i: usize = 0;
    proof {
        assert(boxes_views(out@) =~= sort_desc(boxes_views(v@.subrange(0, 0)), box_key_fn()));
    }
    while i < v.len()
        invariant
            i <= v.len(),
            boxes_views(out@) == sort_desc(boxes_views(v@.subrange(0, i as int)), box_key_fn()),
        decreases v.len() - i,
    {
        let x = v[i].clone();
        let kx = box_start_key(&x);
        let ghost old_views = boxes_views(out@);
        let mut pos: usize = 0;
        while pos < out.len() && !(kx > box_start_key(&out[pos]))
            invariant
                pos <= out.len(),
                kx as int == box_key(x@),
                boxes_views(out@) == old_views,
                forall|j: int| #![trigger boxes_views(out@)[j]]
                    0 <= j < pos ==> !((kx as int) > box_key(boxes_views(out@)[j])),
            decreases out.len() - pos,
        {
            pos = pos + 1;
        }
        proof {
            lemma_insert_desc_at(old_views, x@, box_key_fn(), pos as int);
        }
        out.insert(pos, x);
        proof {
            assert(boxes_views(out@) =~= old_views.insert(pos as int, x@));
            assert(boxes_views(v@.subrange(0, i + 1)).drop_last() =~= boxes_views(
                v@.subrange(0, i as int),
            ));
            assert(boxes_views(v@.subrange(0, i + 1)).last() == v@[i as int]@);
        }
        i = i + 1;
    }
    proof {
        assert(v@.subrange(0, v@.len() as int) =~= v@);
    }
    out
}

/// A copy of the notes, stably sorted ascending by instant.
pub(crate) fn sorted_notes_asc(v: &Vec<TimeBoxNote>) -> (r: Vec<TimeBoxNote>)
    ensures
        notes_views(r@) == sort_asc(notes_views(v@), note_key_fn()),
{
    let mut out: Vec<TimeBoxNote> = Vec::new();
    let mut i: usize = 0;
    proof {
        assert(notes_views(out@) =~= sort_asc(notes_views(v@.subrange(0, 0)), note_key_fn()));
    }
    while i < v.len()
        invariant
            i <= v.len(),
            notes_views(out@) == sort_asc(notes_views(v@.subrange(0, i as int)), note_key_fn()),
        decreases v.len() - i,
    {
        let x = v[i].clone();
        let kx = x.time;
        let ghost old_views = notes_views(out@);
        let mut pos: usize = 0;
        while pos < out.len() && !(kx < out[pos].time)
            invariant
                pos <= out.len(),
                kx as int == x@.time,
                notes_views(out@) == old_views,
                forall|j: int| #![trigger notes_views(out@)[j]]
                    0 <= j < pos ==> !((kx as int) < notes_views(out@)[j].time),
            decreases out.len() - pos,
        {
            pos = pos + 1;
        }
        proof {
            lemma_insert_asc_at(old_views, x@, note_key_fn(), pos as int);
        }
        out.insert(pos, x);
        proof {
            assert(notes_views(out@) =~= old_views.insert(pos as int, x@));
            assert(notes_views(v@.subrange(0, i + 1)).drop_last() =~= notes_views(
                v@.subrange(0, i as int),
            ));
            assert(notes_views(v@.subrange(0, i + 1)).last() == v@[i as int]@);
        }
        i = i + 1;
    }
    proof {
        assert(v@.subrange(0, v@.len() as int) =~= v@);
    }
    out
}

impl TimeBox {
    /// Reorders the notes ascending by instant, keeping equal instants in
    /// their stored order.
    pub fn sort_notes_by_date(&mut self)
        ensures
            final(self)@ == sort_asc(old(self)@, note_key_fn()),
    {
        let sorted = sorted_notes_asc(&self.notes);
        self.notes = sorted;
    }
}

/// With a key above the whole sorted sequence, the element lands at the end.
proof fn lemma_insert_asc_at_end<T>(t: Seq<T>, x: T, key: spec_fn(T) -> int)
    requires
        sorted_asc(t, key),
        t.len() > 0 ==> key(x) > key(t.last()),
    ensures
        insert_asc(t, x, key) == t.push(x),
    decreases t.len(),
{
    if t.len() == 0 {
        assert(insert_asc(t, x, key) =~= t.push(x));
    } else {
        assert(key(t[0]) <= key(t.last()));
        lemma_insert_asc_at_end(t.drop_first(), x, key);
        assert(seq![t[0]] + t.drop_first().push(x) =~= t.push(x));
    }
}

/// Inserting below the last element leaves the last element in place.
proof fn lemma_insert_asc_below_last<T>(t: Seq<T>, x: T, key: spec_fn(T) -> int)
    requires
        t.len() >= 1,
        key(x) < key(t.last()),
    ensures
        insert_asc(t, x, key) == insert_asc(t.drop_last(), x, key).push(t.last()),
    decreases t.len(),
{
    if t.len() == 1 {
        assert(insert_asc(t, x, key) =~= insert_asc(t.drop_last(), x, key).push(t.last()));
    } else if key(x) < key(t[0]) {
        assert(t.drop_last()[0] == t[0]);
        assert(insert_asc(t, x, key) == seq![x] + t);
        assert(insert_asc(t.drop_last(), x, key) == seq![x] + t.drop_last());
        assert((seq![x] + t.drop_last()).push(t.last()) =~= seq![x] + t);
    } else {
        assert(t.drop_last()[0] == t[0]);
        lemma_insert_asc_below_last(t.drop_first(), x, key);
        assert(t.drop_first().last() == t.last());
        assert(t.drop_first().drop_last() =~= t.drop_last().drop_first());
        assert(insert_asc(t.drop_last(), x, key) == seq![t[0]] + insert_asc(
            t.drop_last().drop_first(),
            x,
            key,
        ));
        assert(seq![t[0]] + insert_asc(t.drop_first().drop_last(), x, key).push(t.last()) =~= (
        seq![t[0]] + insert_asc(t.drop_last().drop_first(), x, key)).push(t.last()));
    }
}

/// Inserting into the reversed sequence with the opposite direction mirrors
/// inserting into the sequence itself, as long as no key ties with `x`.
proof fn lemma_insert_reverse<T>(t: Seq<T>, x: T, key: spec_fn(T) -> int)
    requires
        sorted_asc(t, key),
        forall|i: int| 0 <= i < t.len() ==> #[trigger] key(t[i]) != key(x),
    ensures
        insert_desc(t.reverse(), x, key) == insert_asc(t, x, key).reverse(),
    decreases t.len(),
{
    if t.len() == 0 {
        assert(t.reverse() =~= t);
        assert(insert_asc(t, x, key).reverse() =~= seq![x]);
    } else if key(x) > key(t.last()) {
        lemma_insert_asc_at_end(t, x, key);
        assert(t.reverse()[0] == t.last());
        assert(insert_desc(t.reverse(), x, key) == seq![x] + t.reverse());
        assert(t.push(x).reverse() =~= seq![x] + t.reverse());
    } else {
        assert(key(t.last()) != key(x));
        assert(key(x) < key(t.last()));
        assert(t.reverse()[0] == t.last());
        assert(!(key(x) > key(t.reverse()[0])));
        assert(insert_desc(t.reverse(), x, key) == seq![t.last()] + insert_desc(
            t.reverse().drop_first(),
            x,
            key,
        ));
        assert(t.reverse().drop_first() =~= t.drop_last().reverse());
        assert(forall|i: int|
            0 <= i < t.drop_last().len() ==> #[trigger] key(t.drop_last()[i]) != key(x));
        lemma_insert_reverse(t.drop_last(), x, key);
        lemma_insert_asc_below_last(t, x, key);
        assert(insert_asc(t.drop_last(), x, key).push(t.last()).reverse() =~= seq![t.last()]
            + insert_asc(t.drop_last(), x, key).reverse());
    }
}

/// With pairwise distinct keys, the descending sort is the exact reverse of
/// the ascending sort.
pub proof fn lemma_sort_desc_is_reverse_of_asc<T>(s: Seq<T>, key: spec_fn(T) -> int)
    requires
        forall|i: int, j: int|
            0 <= i < j < s.len() ==> #[trigger] key(s[i]) != #[trigger] key(s[j]),
    ensures
        sort_desc(s, key) == sort_asc(s, key).reverse(),
    decreases s.len(),
{
    if s.len() == 0 {
        assert(sort_asc(s, key).reverse() =~= s);
    } else {
        let rest = s.drop_last();
        let x = s.last();
        assert(forall|i: int, j: int|
            0 <= i < j < rest.len() ==> #[trigger] key(rest[i]) != #[trigger] key(rest[j]));
        lemma_sort_desc_is_reverse_of_asc(rest, key);
        let t = sort_asc(rest, key);
        lemma_sort_asc_sorted(rest, key);
        lemma_sort_asc_elems(rest, key);
        assert forall|i: int| 0 <= i < t.len() implies #[trigger] key(t[i]) != key(x) by {
            assert(rest.contains(t[i]));
            let j = choose|j: int| 0 <= j < rest.len() && rest[j] == t[i];
            assert(s[j] == t[i]);
            assert(key(s[j]) != key(s[s.len() - 1]));
        }
        lemma_insert_reverse(t, x, key);
    }
}

} // verus!
