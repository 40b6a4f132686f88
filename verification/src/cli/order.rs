//! The rows of a directory's listing, and the order they stand in.
//!
//! Names are ordered by their characters, as the standard library orders
//! strings, and a directory's name ends in a slash before it is ordered.

use crate::text::{cat2, chars_of};
use vstd::prelude::*;
use vstd::string::*;

verus! {

/// An entry that was found in a directory.
#[derive(Debug)]
pub struct FoundEntry {
    pub name: String,
    pub is_dir: bool,
    pub size: Option<u64>,
}

/// The name of an entry in a listing.
pub open spec fn row_name(e: FoundEntry) -> Seq<char> {
    if e.is_dir {
        e.name@ + "/"@
    } else {
        e.name@
    }
}

/// The size of an entry in a listing. A directory has none.
pub open spec fn row_size(e: FoundEntry) -> Option<u64> {
    if e.is_dir {
        None
    } else {
        e.size
    }
}

/// Whether a name stands before another or is the same: the first character
/// that differs decides, and a name stands before those that it begins.
pub open spec fn not_after(a: Seq<char>, b: Seq<char>) -> bool
    decreases a.len(),
{
    if a.len() == 0 {
        true
    } else if b.len() == 0 {
        false
    } else if a[0] != b[0] {
        (a[0] as int) < (b[0] as int)
    } else {
        not_after(a.drop_first(), b.drop_first())
    }
}

/// Of two names, one stands before the other or they are the same.
pub proof fn names_are_ordered(a: Seq<char>, b: Seq<char>)
    ensures
        not_after(a, b) || not_after(b, a),
        not_after(a, b) && not_after(b, a) ==> a == b,
    decreases a.len(),
{
    if a.len() > 0 && b.len() > 0 && a[0] == b[0] {
        names_are_ordered(a.drop_first(), b.drop_first());
        if a.drop_first() == b.drop_first() {
            assert(a =~= seq![a[0]] + a.drop_first());
            assert(b =~= seq![b[0]] + b.drop_first());
        }
    } else if a.len() == 0 && b.len() == 0 {
        assert(a =~= b);
    }
}

/// A name before one that is before a third is before the third.
pub proof fn order_is_transitive(a: Seq<char>, b: Seq<char>, c: Seq<char>)
    requires
        not_after(a, b),
        not_after(b, c),
    ensures
        not_after(a, c),
    decreases a.len(),
{
    if a.len() > 0 && b.len() > 0 && c.len() > 0 && a[0] == b[0] && b[0] == c[0] {
        order_is_transitive(a.drop_first(), b.drop_first(), c.drop_first());
    }
}

/// Whether one entry stands before another: by name, and entries of one name in
/// the order they were found.
pub open spec fn stands_before(names: Seq<Seq<char>>, i: int, j: int) -> bool {
    not_after(names[i], names[j]) && (names[i] == names[j] ==> i < j)
}

proof fn lemma_before_transitive(names: Seq<Seq<char>>, i: int, j: int, k: int)
    requires
        stands_before(names, i, j),
        stands_before(names, j, k),
    ensures
        stands_before(names, i, k),
{
    order_is_transitive(names[i], names[j], names[k]);
    if names[i] == names[k] {
        names_are_ordered(names[i], names[j]);
    }
}

/// Whether some entries, by number, are some from a range, each before the next.
pub open spec fn in_order(names: Seq<Seq<char>>, order: Seq<usize>, lo: int, hi: int) -> bool {
    &&& forall|i: int| 0 <= i < order.len() ==> lo <= #[trigger] order[i] < hi
    &&& forall|i: int, j: int|
        0 <= i < j < order.len() ==> stands_before(
            names,
            #[trigger] order[i] as int,
            #[trigger] order[j] as int,
        )
}

/// The names of entries in a listing.
pub open spec fn row_names(found: Seq<FoundEntry>) -> Seq<Seq<char>> {
    found.map_values(|e: FoundEntry| row_name(e))
}

/// Whether rows are those of some entries in order: each entry once, by name, and
/// entries of one name in the order they were found.
pub open spec fn is_listed(found: Seq<FoundEntry>, rows: Seq<(String, Option<u64>)>) -> bool {
    exists|order: Seq<usize>|
        {
            &&& order.len() == found.len()
            &&& #[trigger] in_order(row_names(found), order, 0, found.len() as int)
            &&& rows.len() == found.len()
            &&& forall|i: int|
                0 <= i < rows.len() ==> (#[trigger] rows[i]).0@ == row_name(
                    found[order[i] as int],
                ) && rows[i].1 == row_size(found[order[i] as int])
        }
}

/// Whether a name stands before another or is the same.
fn is_not_after(a: &Vec<char>, b: &Vec<char>) -> (r: bool)
    ensures
        r == not_after(a@, b@),
{
    let mut i: usize = 0;
    assert(a@.skip(0) =~= a@ && b@.skip(0) =~= b@);
    while i < a.len()
        invariant
            i <= a@.len(),
            i <= b@.len(),
            not_after(a@, b@) == not_after(a@.skip(i as int), b@.skip(i as int)),
        decreases a@.len() - i,
    {
        if i == b.len() {
            return false;
        }
        let x: char = a[i];
        let y: char = b[i];
        if x != y {
            return x < y;
        }
        assert(a@.skip(i as int).drop_first() =~= a@.skip(i + 1));
        assert(b@.skip(i as int).drop_first() =~= b@.skip(i + 1));
        i = i + 1;
    }
    true
}

/// The names, each as its characters.
pub open spec fn spelled(keys: Seq<Vec<char>>) -> Seq<Seq<char>> {
    keys.map_values(|k: Vec<char>| k@)
}

fn merge(
    keys: &Vec<Vec<char>>,
    a: &Vec<usize>,
    b: &Vec<usize>,
    lo: usize,
    mid: usize,
    hi: usize,
) -> (out: Vec<usize>)
    requires
        lo <= mid <= hi <= keys@.len(),
        in_order(spelled(keys@), a@, lo as int, mid as int),
        in_order(spelled(keys@), b@, mid as int, hi as int),
        a@.len() + b@.len() <= usize::MAX,
    ensures
        out@.len() == a@.len() + b@.len(),
        in_order(spelled(keys@), out@, lo as int, hi as int),
{
    let ghost names = spelled(keys@);
    let mut out: Vec<usize> = Vec::new();
    let mut i: usize = 0;
    let mut j: usize = 0;
    while i < a.len() || j < b.len()
        invariant
            names == spelled(keys@),
            lo <= mid <= hi <= keys@.len(),
            in_order(names, a@, lo as int, mid as int),
            in_order(names, b@, mid as int, hi as int),
            i <= a@.len(),
            j <= b@.len(),
            out@.len() == i + j,
            in_order(names, out@, lo as int, hi as int),
            forall|p: int, q: int|
                0 <= p < out@.len() && i <= q < a@.len() ==> stands_before(
                    names,
                    #[trigger] out@[p] as int,
                    #[trigger] a@[q] as int,
                ),
            forall|p: int, q: int|
                0 <= p < out@.len() && j <= q < b@.len() ==> stands_before(
                    names,
                    #[trigger] out@[p] as int,
                    #[trigger] b@[q] as int,
                ),
        decreases a@.len() - i + b@.len() - j,
    {
        let left: bool = if i == a.len() {
            false
        } else if j == b.len() {
            true
        } else {
            is_not_after(&keys[a[i]], &keys[b[j]])
        };
        let ghost before = out@;
        if left {
            let x: usize = a[i];
            out.push(x);
            proof {
                if j < b@.len() {
                    assert(stands_before(names, x as int, b@[j as int] as int));
                }
                assert forall|q: int| j <= q < b@.len() implies stands_before(
                    names,
                    x as int,
                    #[trigger] b@[q] as int,
                ) by {
                    if q > j {
                        lemma_before_transitive(
                            names,
                            x as int,
                            b@[j as int] as int,
                            b@[q] as int,
                        );
                    }
                }
            }
            i = i + 1;
        } else {
            let x: usize = b[j];
            out.push(x);
            proof {
                if i < a@.len() {
                    names_are_ordered(names[a@[i as int] as int], names[x as int]);
                    assert(stands_before(names, x as int, a@[i as int] as int));
                }
                assert forall|q: int| i <= q < a@.len() implies stands_before(
                    names,
                    x as int,
                    #[trigger] a@[q] as int,
                ) by {
                    if q > i {
                        lemma_before_transitive(
                            names,
                            x as int,
                            a@[i as int] as int,
                            a@[q] as int,
                        );
                    }
                }
            }
            j = j + 1;
        }
        proof {
            assert forall|p: int, q: int| 0 <= p < q < out@.len() implies stands_before(
                names,
                #[trigger] out@[p] as int,
                #[trigger] out@[q] as int,
            ) by {
                assert(out@[p] == before[p]);
            }
        }
    }
    out
}

fn sorted(keys: &Vec<Vec<char>>, lo: usize, hi: usize) -> (out: Vec<usize>)
    requires
        lo <= hi <= keys@.len(),
    ensures
        out@.len() == hi - lo,
        in_order(spelled(keys@), out@, lo as int, hi as int),
    decreases hi - lo,
{
    let mut out: Vec<usize> = Vec::new();
    if hi - lo > 1 {
        let mid: usize = lo + (hi - lo) / 2;
        let a = sorted(keys, lo, mid);
        let b = sorted(keys, mid, hi);
        return merge(keys, &a, &b, lo, mid, hi);
    }
    if hi - lo == 1 {
        out.push(lo);
    }
    out
}

/// The rows of a listing: each entry that was found, a directory marked by a
/// slash, in the order of their names.
pub fn listed(found: &Vec<FoundEntry>) -> (rows: Vec<(String, Option<u64>)>)
    ensures
        is_listed(found@, rows@),
{
    let mut names: Vec<String> = Vec::new();
    let mut keys: Vec<Vec<char>> = Vec::new();
    let mut i: usize = 0;
    while i < found.len()
        invariant
            i <= found@.len(),
            names@.len() == i,
            keys@.len() == i,
            forall|k: int|
                #![trigger names@[k]]
                #![trigger keys@[k]]
                0 <= k < i ==> names@[k]@ == row_name(found@[k]) && keys@[k]@ == names@[k]@,
        decreases found@.len() - i,
    {
        let e = &found[i];
        let name = if e.is_dir {
            cat2(e.name.as_str(), "/")
        } else {
            e.name.as_str().to_owned()
        };
        keys.push(chars_of(name.as_str()));
        names.push(name);
        i = i + 1;
    }
    assert(spelled(keys@) =~= row_names(found@));
    let order = sorted(&keys, 0, keys.len());
    let mut rows: Vec<(String, Option<u64>)> = Vec::new();
    let mut k: usize = 0;
    while k < order.len()
        invariant
            k <= order@.len(),
            order@.len() == found@.len(),
            names@.len() == found@.len(),
            in_order(row_names(found@), order@, 0, found@.len() as int),
            rows@.len() == k,
            forall|p: int| 0 <= p < names@.len() ==> (#[trigger] names@[p])@ == row_name(found@[p]),
            forall|p: int|
                0 <= p < k ==> (#[trigger] rows@[p]).0@ == row_name(found@[order@[p] as int])
                    && rows@[p].1 == row_size(found@[order@[p] as int]),
        decreases order@.len() - k,
    {
        let at: usize = order[k];
        let size = if found[at].is_dir {
            None
        } else {
            found[at].size
        };
        rows.push((names[at].as_str().to_owned(), size));
        k = k + 1;
    }
    rows
}

/// A listing holds every entry: each that was found has a row of its own.
pub proof fn every_entry_is_listed(found: Seq<FoundEntry>, rows: Seq<(String, Option<u64>)>, at: int)
    requires
        is_listed(found, rows),
        0 <= at < found.len(),
    ensures
        exists|i: int|
            0 <= i < rows.len() && (#[trigger] rows[i]).0@ == row_name(found[at]) && rows[i].1
                == row_size(found[at]),
{
    let order = choose|order: Seq<usize>|
        {
            &&& order.len() == found.len()
            &&& #[trigger] in_order(row_names(found), order, 0, found.len() as int)
            &&& rows.len() == found.len()
            &&& forall|i: int|
                0 <= i < rows.len() ==> (#[trigger] rows[i]).0@ == row_name(
                    found[order[i] as int],
                ) && rows[i].1 == row_size(found[order[i] as int])
        };
    let numbers = order.map_values(|x: usize| x as int);
    let names = row_names(found);
    assert(numbers.no_duplicates()) by {
        assert forall|i: int, j: int| 0 <= i < j < numbers.len() implies numbers[i]
            != numbers[j] by {
            assert(stands_before(names, order[i] as int, order[j] as int));
        }
    }
    vstd::seq_lib::seq_to_set_is_finite(numbers);
    numbers.unique_seq_to_set();
    let all = vstd::set_lib::set_int_range(0, found.len() as int);
    vstd::set_lib::lemma_int_range(0, found.len() as int);
    assert(numbers.to_set().subset_of(all)) by {
        assert forall|x: int| numbers.to_set().contains(x) implies all.contains(x) by {
            let i = choose|i: int| 0 <= i < numbers.len() && numbers[i] == x;
            assert(order[i] as int == x);
        }
    }
    vstd::set_lib::lemma_subset_equality(numbers.to_set(), all);
    assert(numbers.to_set().contains(at));
    let i = choose|i: int| 0 <= i < numbers.len() && numbers[i] == at;
    assert(rows[i].0@ == row_name(found[at]));
}

} // verus!
