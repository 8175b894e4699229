//! Cutting a list into consecutive batches of a bounded size.
use vstd::prelude::*;

verus! {

/// How many batches of at most `size` items a list of `len` items takes.
pub open spec fn batch_count(len: int, size: int) -> int {
    (len + size - 1) / size
}

/// Where batch `k` ends: `size` items after its start, or at the end of the list.
pub open spec fn batch_end(len: int, size: int, k: int) -> int {
    if k * size + size <= len {
        k * size + size
    } else {
        len
    }
}

/// The items of batch `k`.
pub open spec fn batch_at<T>(items: Seq<T>, size: int, k: int) -> Seq<T> {
    items.subrange(k * size, batch_end(items.len() as int, size, k))
}

/// A list whose first `k` batches are full and whose batch `k` is the last one
/// takes `k + 1` batches.
proof fn lemma_batch_count(len: int, size: int, k: int)
    requires
        0 < size,
        0 <= k,
        k * size < len <= k * size + size,
    ensures
        batch_count(len, size) == k + 1,
{
    assert((len + size - 1) / size == k + 1) by (nonlinear_arith)
        requires
            0 < size,
            0 <= k,
            k * size < len <= k * size + size,
    ;
}

/// Cuts a list into consecutive batches of `size` items; the last may hold fewer.
pub fn batches<T: Copy>(items: &Vec<T>, size: usize) -> (r: Vec<Vec<T>>)
    requires
        0 < size,
    ensures
        r.len() == batch_count(items.len() as int, size as int),
        forall|k: int|
            0 <= k < r.len() ==> (#[trigger] r[k])@ == batch_at(items@, size as int, k),
        items.len() <= r.len() * size < items.len() + size,
        forall|k: int| 0 <= k < r.len() - 1 ==> (#[trigger] r[k]).len() == size,
        forall|k: int, j: int|
            0 <= k < r.len() && 0 <= j < r[k].len() ==> #[trigger] r[k]@[j] == items[k * size
                + j],
{
    let mut r: Vec<Vec<T>> = Vec::new();
    let mut start: usize = 0;
    proof {
        assert(batch_count(0, size as int) == 0) by {
            vstd::arithmetic::div_mod::lemma_basic_div(size - 1, size as int);
        }
        assert(r.len() * size == 0) by (nonlinear_arith)
            requires
                r.len() == 0,
        ;
    }
    while start < items.len()
        invariant
            0 < size,
            start <= items.len(),
            start < items.len() ==> start == r.len() * size,
            start == items.len() ==> r.len() == batch_count(items.len() as int, size as int),
            forall|k: int|
                0 <= k < r.len() ==> (#[trigger] r[k])@ == batch_at(items@, size as int, k),
        decreases items.len() - start,
    {
        let end: usize = if items.len() - start <= size {
            items.len()
        } else {
            start + size
        };
        let mut batch: Vec<T> = Vec::new();
        let mut i: usize = start;
        while i < end
            invariant
                start <= i <= end <= items.len(),
                batch@ == items@.subrange(start as int, i as int),
            decreases end - i,
        {
            batch.push(items[i]);
            i += 1;
            assert(batch@ =~= items@.subrange(start as int, i as int));
        }
        let ghost k = r.len() as int;
        r.push(batch);
        proof {
            assert((k + 1) * size == k * size + size) by (nonlinear_arith);
            if end == items.len() {
                lemma_batch_count(items.len() as int, size as int, k);
            }
        }
        start = end;
    }
    proof {
        law_batch_count(items@, size as int);
        assert forall|k: int| 0 <= k < r.len() - 1 implies (#[trigger] r[k]).len() == size by {
            law_batch_sizes(items@, size as int, k);
            law_batch_positions(items@, size as int, k, 0);
        }
        assert forall|k: int, j: int| 0 <= k < r.len() && 0 <= j < r[k].len() implies #[trigger] r[k]@[j]
            == items[k * size + j] by {
            law_batch_positions(items@, size as int, k, j);
        }
    }
    r
}

/// The first `k` batches, one after the other, are the list up to the end of the
/// last of them.
proof fn lemma_batches_prefix<T>(items: Seq<T>, size: int, k: int)
    requires
        0 < size,
        0 <= k <= batch_count(items.len() as int, size),
    ensures
        Seq::new(k as nat, |i: int| batch_at(items, size, i)).flatten() == items.take(
            if k * size <= items.len() {
                k * size
            } else {
                items.len() as int
            },
        ),
    decreases k,
{
    let parts = Seq::new(k as nat, |i: int| batch_at(items, size, i));
    let len = items.len() as int;
    if k == 0 {
        assert(parts =~= Seq::empty());
        assert(parts.flatten() =~= items.take(0));
    } else {
        lemma_batches_prefix(items, size, k - 1);
        let before = Seq::new((k - 1) as nat, |i: int| batch_at(items, size, i));
        assert(parts =~= before.push(batch_at(items, size, k - 1)));
        before.lemma_flatten_push(batch_at(items, size, k - 1));
        assert((k - 1) * size + size == k * size) by (nonlinear_arith);
        assert((k - 1) * size < len) by (nonlinear_arith)
            requires
                0 < size,
                k <= (len + size - 1) / size,
        ;
        assert(0 <= (k - 1) * size) by (nonlinear_arith)
            requires
                0 < size,
                1 <= k,
        ;
        assert(parts.flatten() =~= items.take(
            if k * size <= len {
                k * size
            } else {
                len
            },
        ));
    }
}

/// Batching loses, repeats and reorders nothing: the batches, one after the other,
/// are the list.
pub proof fn law_batches_concatenate_to_items<T>(items: Seq<T>, size: int)
    requires
        0 < size,
    ensures
        Seq::new(
            batch_count(items.len() as int, size) as nat,
            |k: int| batch_at(items, size, k),
        ).flatten() == items,
{
    let len = items.len() as int;
    let n = batch_count(len, size);
    assert(0 <= n && len <= n * size) by (nonlinear_arith)
        requires
            0 < size,
            0 <= len,
            n == (len + size - 1) / size,
    ;
    lemma_batches_prefix(items, size, n);
    assert(items.take(
        if n * size <= len {
            n * size
        } else {
            len
        },
    ) =~= items);
}

/// No batch is empty and none holds more than `size` items.
pub proof fn law_batch_sizes<T>(items: Seq<T>, size: int, k: int)
    requires
        0 < size,
        0 <= k < batch_count(items.len() as int, size),
    ensures
        1 <= batch_at(items, size, k).len() <= size,
{
    let len = items.len() as int;
    assert(k * size < len && 0 <= k * size) by (nonlinear_arith)
        requires
            0 < size,
            0 <= k < (len + size - 1) / size,
    ;
}

/// Where the items go: item `j` of batch `k` is item `k * size + j` of the list. Every
/// batch but the last is full, and the batches have room for the list but not without the
/// last one.
pub proof fn law_batch_positions<T>(items: Seq<T>, size: int, k: int, j: int)
    requires
        0 < size,
        0 <= k < batch_count(items.len() as int, size),
        0 <= j < batch_at(items, size, k).len(),
    ensures
        0 <= k * size + j < items.len(),
        batch_at(items, size, k)[j] == items[k * size + j],
        k + 1 < batch_count(items.len() as int, size) ==> batch_at(items, size, k).len() == size,
        k + 1 == batch_count(items.len() as int, size) ==> batch_at(items, size, k).len()
            == items.len() - k * size,
        k * size < items.len(),
{
    let len = items.len() as int;
    assert(k * size < len && 0 <= k * size) by (nonlinear_arith)
        requires
            0 < size,
            0 <= k < (len + size - 1) / size,
    ;
    if k + 1 < batch_count(len, size) {
        assert(k * size + size <= len) by (nonlinear_arith)
            requires
                0 < size,
                0 <= k,
                k + 1 < (len + size - 1) / size,
        ;
    } else {
        assert(len <= k * size + size) by (nonlinear_arith)
            requires
                0 < size,
                0 <= k,
                k + 1 == (len + size - 1) / size,
        ;
    }
}

/// A list takes no batch where it is empty, and one more for each `size` items.
pub proof fn law_batch_count<T>(items: Seq<T>, size: int)
    requires
        0 < size,
    ensures
        ({
            let count = batch_count(items.len() as int, size);
            &&& 0 <= count
            &&& items.len() <= count * size
            &&& count * size < items.len() + size
        }),
{
    let len = items.len() as int;
    let count = (len + size - 1) / size;
    assert(0 <= count && len <= count * size && count * size < len + size) by (nonlinear_arith)
        requires
            0 < size,
            0 <= len,
            count == (len + size - 1) / size,
    ;
}

} // verus!
