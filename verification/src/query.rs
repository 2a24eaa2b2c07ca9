//! The listing pipeline over the finished history: keep the boxes the date
//! filter selects, sort them by start instant, then cut the requested page.

use vstd::prelude::*;

use crate::dates::Date;
use crate::dates::ListFilter;
use crate::entities::boxes_views;
use crate::entities::NoteView;
use crate::entities::TimeBox;
use crate::sorting::box_key;
use crate::sorting::box_key_fn;
use crate::sorting::sort_asc;
use crate::sorting::sort_desc;
use crate::tracking::ListOptions;
use crate::tracking::SortOrder;

verus! {

/// Whether a box whose start falls on `od` (its local calendar date, or
/// `None` when no date could be derived) passes the optional filter. With
/// no filter everything passes; with one, a box without a date does not.
pub open spec fn date_selected(od: Option<Date>, f: Option<ListFilter>) -> bool {
    match f {
        None => true,
        Some(fl) => match od {
            Some(d) => fl.matches_spec(d),
            None => false,
        },
    }
}

/// The boxes whose paired date passes the filter, in input order. `dates`
/// pairs each box with its start's local calendar date.
pub open spec fn filter_boxes(
    boxes: Seq<Seq<NoteView>>,
    dates: Seq<Option<Date>>,
    f: Option<ListFilter>,
) -> Seq<Seq<NoteView>>
    recommends
        boxes.len() == dates.len(),
    decreases boxes.len(),
{
    if boxes.len() == 0 {
        Seq::empty()
    } else {
        let rest = filter_boxes(boxes.drop_last(), dates.drop_last(), f);
        if date_selected(dates[boxes.len() - 1], f) {
            rest.push(boxes.last())
        } else {
            rest
        }
    }
}

/// The page: at most `take` elements starting after the first `skip`, both
/// clipped to the sequence.
pub open spec fn paginate<T>(s: Seq<T>, skip: int, take: int) -> Seq<T>
    recommends
        skip >= 0,
        take >= 0,
{
    let start = if skip < s.len() {
        skip
    } else {
        s.len() as int
    };
    let end = if skip + take < s.len() {
        skip + take
    } else {
        s.len() as int
    };
    s.subrange(start, end)
}

/// The filtered boxes in the requested order.
pub open spec fn sort_dir(s: Seq<Seq<NoteView>>, order: SortOrder) -> Seq<Seq<NoteView>> {
    match order {
        SortOrder::Ascending => sort_asc(s, box_key_fn()),
        SortOrder::Descending => sort_desc(s, box_key_fn()),
    }
}

/// The whole pipeline of one query: filter, then sort, then paginate.
pub open spec fn query_spec(
    boxes: Seq<Seq<NoteView>>,
    dates: Seq<Option<Date>>,
    options: ListOptions,
) -> Seq<Seq<NoteView>> {
    paginate(
        sort_dir(filter_boxes(boxes, dates, options.filter), options.order),
        options.skip as int,
        options.take as int,
    )
}

/// Without a filter, filtering keeps every box.
pub proof fn lemma_filter_boxes_none(boxes: Seq<Seq<NoteView>>, dates: Seq<Option<Date>>)
    ensures
        filter_boxes(boxes, dates, None) == boxes,
    decreases boxes.len(),
{
    if boxes.len() == 0 {
        assert(filter_boxes(boxes, dates, None) =~= boxes);
    } else {
        lemma_filter_boxes_none(boxes.drop_last(), dates.drop_last());
        assert(boxes.drop_last().push(boxes.last()) =~= boxes);
    }
}

/// Each item of a page is the element of the full sequence `skip` places
/// further along: pages only window, they never reorder or invent items.
pub proof fn lemma_page_items<T>(s: Seq<T>, skip: int, take: int)
    requires
        skip >= 0,
        take >= 0,
    ensures
        forall|i: int| 0 <= i < paginate(s, skip, take).len() ==> paginate(s, skip, take)[i] == s[
            skip + i
        ],
        paginate(s, skip, take).len() == if skip + take <= s.len() {
            take
        } else if skip <= s.len() {
            s.len() - skip
        } else {
            0int
        },
{
}

/// Consecutive pages of size `k` join seamlessly: page `p` followed by
/// page `p + 1` is exactly the double-size page starting at page `p`. With
/// `lemma_page_items` this makes consecutive pages disjoint windows.
pub proof fn lemma_pages_adjacent<T>(s: Seq<T>, k: int, p: int)
    requires
        k >= 0,
        p >= 0,
    ensures
        paginate(s, p * k, k) + paginate(s, (p + 1) * k, k) == paginate(s, p * k, 2 * k),
{
    assert((p + 1) * k == p * k + k) by (nonlinear_arith);
    assert(p * k >= 0) by (nonlinear_arith)
        requires
            p >= 0,
            k >= 0,
    ;
    assert(paginate(s, p * k, k) + paginate(s, p * k + k, k) =~= paginate(s, p * k, 2 * k));
}

/// The first `n` pages of size `k`, concatenated in order.
pub open spec fn pages_concat<T>(s: Seq<T>, k: int, n: int) -> Seq<T>
    decreases n,
{
    if n <= 0 {
        Seq::empty()
    } else {
        pages_concat(s, k, n - 1) + paginate(s, (n - 1) * k, k)
    }
}

/// The first `n` pages cover exactly the first `n * k` elements.
proof fn lemma_pages_concat_prefix<T>(s: Seq<T>, k: int, n: int)
    requires
        k >= 1,
        n >= 0,
    ensures
        pages_concat(s, k, n) == s.subrange(
            0,
            if n * k < s.len() {
                n * k
            } else {
                s.len() as int
            },
        ),
    decreases n,
{
    if n == 0 {
        assert(pages_concat(s, k, 0) =~= s.subrange(0, 0));
    } else {
        lemma_pages_concat_prefix(s, k, n - 1);
        assert((n - 1) * k == n * k - k) by (nonlinear_arith);
        assert(n * k >= k && (n - 1) * k >= 0) by (nonlinear_arith)
            requires
                n >= 1,
                k >= 1,
        ;
        let prev = if (n - 1) * k < s.len() {
            (n - 1) * k
        } else {
            s.len() as int
        };
        let cur = if n * k < s.len() {
            n * k
        } else {
            s.len() as int
        };
        assert(s.subrange(0, prev) + paginate(s, (n - 1) * k, k) =~= s.subrange(0, cur));
    }
}

/// Walking all pages in order reproduces the whole sequence: as soon as
/// `n * k` reaches the length, the concatenation of pages `0 .. n` of size
/// `k` is the full sequence.
pub proof fn lemma_pages_cover<T>(s: Seq<T>, k: int, n: int)
    requires
        k >= 1,
        n >= 0,
        n * k >= s.len(),
    ensures
        pages_concat(s, k, n) == s,
{
    lemma_pages_concat_prefix(s, k, n);
    assert(s.subrange(0, s.len() as int) =~= s);
}

/// A copy of the page `skip`/`take` selects from the boxes.
pub(crate) fn paginate_boxes(v: &Vec<TimeBox>, skip: usize, take: usize) -> (r: Vec<TimeBox>)
    ensures
        boxes_views(r@) == paginate(boxes_views(v@), skip as int, take as int),
{
    let start: usize = if skip < v.len() {
        skip
    } else {
        v.len()
    };
    let remaining: usize = v.len() - start;
    let count: usize = if take < remaining {
        take
    } else {
        remaining
    };
    let mut out: Vec<TimeBox> = Vec::new();
    let mut i: usize = 0;
    while i < count
        invariant
            i <= count,
            start + count <= v.len(),
            out@.len() == i,
            forall|j: int| 0 <= j < i ==> #[trigger] out@[j]@ == v@[start + j]@,
        decreases count - i,
    {
        out.push(v[start + i].clone());
        i = i + 1;
    }
    proof {
        assert(boxes_views(out@) =~= paginate(boxes_views(v@), skip as int, take as int));
    }
    out
}

/// A copy of the boxes whose paired date passes the filter.
pub(crate) fn filter_boxes_exec(
    v: &Vec<TimeBox>,
    dates: &Vec<Option<Date>>,
    f: &Option<ListFilter>,
) -> (r: Vec<TimeBox>)
    requires
        dates@.len() == v@.len(),
    ensures
        boxes_views(r@) == filter_boxes(boxes_views(v@), dates@, *f),
{
    let mut out: Vec<TimeBox> = Vec::new();
    proof {
        assert(boxes_views(out@) =~= filter_boxes(
            boxes_views(v@.subrange(0, 0)),
            dates@.subrange(0, 0),
            *f,
        ));
    }
    let mut i: usize = 0;
    while i < v.len()
        invariant
            i <= v.len(),
            dates@.len() == v@.len(),
            boxes_views(out@) == filter_boxes(
                boxes_views(v@.subrange(0, i as int)),
                dates@.subrange(0, i as int),
                *f,
            ),
        decreases v.len() - i,
    {
        let selected: bool = match f {
            None => true,
            Some(fl) => match &dates[i] {
                Some(d) => fl.matches_date(d),
                None => false,
            },
        };
        let ghost pre = boxes_views(out@);
        if selected {
            out.push(v[i].clone());
            proof {
                assert(boxes_views(out@) =~= pre.push(v@[i as int]@));
            }
        }
        proof {
            assert(boxes_views(v@.subrange(0, i + 1)).drop_last() =~= boxes_views(
                v@.subrange(0, i as int),
            ));
            assert(dates@.subrange(0, i + 1).drop_last() =~= dates@.subrange(0, i as int));
            assert(boxes_views(v@.subrange(0, i + 1)).last() == v@[i as int]@);
            assert(dates@.subrange(0, i + 1)[boxes_views(v@.subrange(0, i + 1)).len() - 1]
                == dates@[i as int]);
        }
        i = i + 1;
    }
    proof {
        assert(v@.subrange(0, v@.len() as int) =~= v@);
        assert(dates@.subrange(0, dates@.len() as int) =~= dates@);
    }
    out
}

/// Filtering never grows the history.
pub proof fn lemma_filter_boxes_len(
    boxes: Seq<Seq<NoteView>>,
    dates: Seq<Option<Date>>,
    f: Option<ListFilter>,
)
    ensures
        filter_boxes(boxes, dates, f).len() <= boxes.len(),
    decreases boxes.len(),
{
    if boxes.len() > 0 {
        lemma_filter_boxes_len(boxes.drop_last(), dates.drop_last(), f);
    }
}

/// Every box the filter keeps came from the history.
proof fn lemma_filter_boxes_elems(
    boxes: Seq<Seq<NoteView>>,
    dates: Seq<Option<Date>>,
    f: Option<ListFilter>,
)
    ensures
        forall|i: int| 0 <= i < filter_boxes(boxes, dates, f).len() ==> boxes.contains(
            #[trigger] filter_boxes(boxes, dates, f)[i],
        ),
    decreases boxes.len(),
{
    if boxes.len() > 0 {
        lemma_filter_boxes_elems(boxes.drop_last(), dates.drop_last(), f);
        let fl = filter_boxes(boxes, dates, f);
        let fr = filter_boxes(boxes.drop_last(), dates.drop_last(), f);
        assert forall|i: int| 0 <= i < fl.len() implies boxes.contains(#[trigger] fl[i]) by {
            let e = fl[i];
            if date_selected(dates[boxes.len() - 1], f) && i == fl.len() - 1 {
                assert(boxes[boxes.len() - 1] == e);
            } else {
                assert(e == fr[i]);
                assert(boxes.drop_last().contains(e));
                let k = choose|k: int| 0 <= k < boxes.drop_last().len() && boxes.drop_last()[k]
                    == e;
                assert(boxes[k] == e);
            }
        }
    }
}

/// Pairwise distinct start keys survive filtering.
proof fn lemma_filter_boxes_distinct_keys(
    boxes: Seq<Seq<NoteView>>,
    dates: Seq<Option<Date>>,
    f: Option<ListFilter>,
)
    requires
        forall|i: int, j: int|
            0 <= i < j < boxes.len() ==> #[trigger] box_key(boxes[i]) != #[trigger] box_key(
                boxes[j],
            ),
    ensures
        forall|i: int, j: int|
            0 <= i < j < filter_boxes(boxes, dates, f).len() ==> #[trigger] box_key(
                filter_boxes(boxes, dates, f)[i],
            ) != #[trigger] box_key(filter_boxes(boxes, dates, f)[j]),
    decreases boxes.len(),
{
    if boxes.len() > 0 {
        let rest = boxes.drop_last();
        assert(forall|i: int, j: int|
            0 <= i < j < rest.len() ==> #[trigger] box_key(rest[i]) != #[trigger] box_key(
                rest[j],
            ));
        lemma_filter_boxes_distinct_keys(rest, dates.drop_last(), f);
        lemma_filter_boxes_elems(rest, dates.drop_last(), f);
        let fl = filter_boxes(boxes, dates, f);
        let fr = filter_boxes(rest, dates.drop_last(), f);
        assert forall|i: int, j: int| 0 <= i < j < fl.len() implies #[trigger] box_key(fl[i])
            != #[trigger] box_key(fl[j]) by {
            if date_selected(dates[boxes.len() - 1], f) && j == fl.len() - 1 && fl.len()
                == fr.len() + 1 {
                assert(rest.contains(fr[i]));
                let k = choose|k: int| 0 <= k < rest.len() && rest[k] == fr[i];
                assert(boxes[k] == fr[i]);
                assert(box_key(boxes[k]) != box_key(boxes[boxes.len() - 1]));
            }
        }
    }
}

/// With pairwise distinct start instants and the full range requested, the
/// ascending listing is the exact reverse of the descending one, filter
/// and pagination held constant.
pub proof fn lemma_ascending_reverses_descending(
    boxes: Seq<Seq<NoteView>>,
    dates: Seq<Option<Date>>,
    f: Option<ListFilter>,
    take: usize,
)
    requires
        forall|i: int, j: int|
            0 <= i < j < boxes.len() ==> #[trigger] box_key(boxes[i]) != #[trigger] box_key(
                boxes[j],
            ),
        take >= boxes.len(),
    ensures
        query_spec(
            boxes,
            dates,
            ListOptions { skip: 0, take, order: SortOrder::Ascending, filter: f },
        ) == query_spec(
            boxes,
            dates,
            ListOptions { skip: 0, take, order: SortOrder::Descending, filter: f },
        ).reverse(),
{
    let fl = filter_boxes(boxes, dates, f);
    lemma_filter_boxes_len(boxes, dates, f);
    lemma_filter_boxes_distinct_keys(boxes, dates, f);
    crate::sorting::lemma_sort_desc_is_reverse_of_asc(fl, box_key_fn());
    crate::sorting::lemma_sort_asc_len(fl, box_key_fn());
    crate::sorting::lemma_sort_desc_len(fl, box_key_fn());
    let asc = sort_asc(fl, box_key_fn());
    let desc = sort_desc(fl, box_key_fn());
    assert(paginate(asc, 0, take as int) =~= asc);
    assert(paginate(desc, 0, take as int) =~= desc);
}

/// The listed page respects the requested order: its items' start keys run
/// ascending or descending as `options.order` asks, a window of a sorted
/// sequence being sorted itself.
pub proof fn lemma_query_items_sorted(
    boxes: Seq<Seq<NoteView>>,
    dates: Seq<Option<Date>>,
    options: ListOptions,
)
    ensures
        options.order is Ascending ==> crate::sorting::sorted_asc(
            query_spec(boxes, dates, options),
            box_key_fn(),
        ),
        options.order is Descending ==> crate::sorting::sorted_desc(
            query_spec(boxes, dates, options),
            box_key_fn(),
        ),
{
    let fl = filter_boxes(boxes, dates, options.filter);
    crate::sorting::lemma_sort_asc_sorted(fl, box_key_fn());
    crate::sorting::lemma_sort_desc_sorted(fl, box_key_fn());
}

} // verus!
