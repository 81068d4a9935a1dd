use vstd::prelude::*;
use crate::random::random_usize;

verus! {

/// The sum of a sequence of sizes.
pub open spec fn total(s: Seq<usize>) -> int
    decreases s.len(),
{
    if s.len() == 0 {
        0
    } else {
        total(s.drop_last()) + s.last()
    }
}

/// The chunks of a sequence, joined back together.
pub open spec fn flatten<T>(c: Seq<Seq<T>>) -> Seq<T>
    decreases c.len(),
{
    if c.len() == 0 {
        Seq::empty()
    } else {
        flatten(c.drop_last()) + c.last()
    }
}

/// The contents of each chunk.
pub open spec fn chunk_views<T>(c: Seq<Vec<T>>) -> Seq<Seq<T>> {
    c.map_values(|v: Vec<T>| v@)
}

/// The size of the next of `left` chunks when `rest` items are left: the
/// fair share, and one more where some are left over and `draw`, taken
/// modulo `left`, falls below the number left over.
pub open spec fn chunk_size_of(rest: int, left: int, draw: int) -> int {
    rest / left + if rest % left != 0 && draw % left < rest % left {
        1int
    } else {
        0int
    }
}

/// The sizes that `chunk_size` gives for `left` chunks of `rest` items,
/// one draw per chunk.
pub open spec fn sizes_from(rest: int, left: nat, draws: Seq<usize>) -> Seq<usize>
    decreases left,
{
    if left == 0 || draws.len() == 0 {
        Seq::empty()
    } else {
        let c = chunk_size_of(rest, left as int, draws[0] as int);
        seq![c as usize] + sizes_from(rest - c, (left - 1) as nat, draws.drop_first())
    }
}

/// The size of the next of `left` chunks when `rest` items are left.
pub fn chunk_size(rest: usize, left: usize, draw: usize) -> (r: usize)
    requires
        left > 0,
    ensures
        r == chunk_size_of(rest as int, left as int, draw as int),
{
    let share = rest / left;
    let leftovers = rest % left;
    if leftovers != 0 && draw % left < leftovers {
        proof {
            assert(share < rest) by (nonlinear_arith)
                requires
                    share == rest / left,
                    leftovers == rest % left,
                    leftovers > 0,
                    left > 0,
            ;
        }
        share + 1
    } else {
        share
    }
}

/// Sizes for `n` chunks of `len` items, front to back, the `i`-th drawn
/// with `draws[i]`; see `chunk_size`.
pub fn chunk_sizes_with(len: usize, n: usize, draws: &Vec<usize>) -> (r: Vec<usize>)
    requires
        n > 0,
        draws@.len() == n,
    ensures
        r@ == sizes_from(len as int, n as nat, draws@),
        r@.len() == n,
        total(r@) == len,
        forall|i: int| 0 <= i < n ==> len / n <= #[trigger] r@[i] <= len / n + 1,
{
    let q: usize = len / n;
    let mut sizes: Vec<usize> = Vec::new();
    let mut rest: usize = len;
    let mut left: usize = n;
    proof {
        assert(draws@.skip(0) =~= draws@);
        assert(sizes@ + sizes_from(len as int, n as nat, draws@) =~= sizes_from(len as int, n as nat, draws@));
        assert(q * n <= len <= (q + 1) * n) by (nonlinear_arith)
            requires
                q == len / n,
                n > 0,
        ;
    }
    while left > 0
        invariant
            n > 0,
            q == len / n,
            left <= n,
            draws@.len() == n,
            sizes@ + sizes_from(rest as int, left as nat, draws@.skip(n - left)) == sizes_from(len as int, n as nat, draws@),
            sizes@.len() == n - left,
            total(sizes@) + rest == len,
            q * left <= rest <= (q + 1) * left,
            forall|i: int| 0 <= i < sizes@.len() ==> q <= #[trigger] sizes@[i] <= q + 1,
        decreases left,
    {
        let share = rest / left;
        let leftovers = rest % left;
        proof {
            assert(q <= share <= q + 1) by (nonlinear_arith)
                requires
                    share == rest / left,
                    left > 0,
                    q * left <= rest <= (q + 1) * left,
            ;
            assert(share == q + 1 ==> leftovers == 0) by (nonlinear_arith)
                requires
                    share == rest / left,
                    leftovers == rest % left,
                    left > 0,
                    rest <= (q + 1) * left,
            ;
            assert(share * left + leftovers == rest) by (nonlinear_arith)
                requires
                    share == rest / left,
                    leftovers == rest % left,
                    left > 0,
            ;
        }
        let draw = draws[n - left];
        let size = chunk_size(rest, left, draw);
        let ghost extra: int = size - share;
        let ghost rd = draws@.skip(n - left);
        assert(rd[0] == draw);
        assert(rd.drop_first() =~= draws@.skip(n - left + 1));
        proof {
            assert(q * (left - 1) <= rest - size <= (q + 1) * (left - 1)) by (nonlinear_arith)
                requires
                    q <= share <= q + 1,
                    share * left + leftovers == rest,
                    0 <= leftovers < left,
                    extra == 0 || (extra == 1 && leftovers > 0),
                    size == share + extra,
                    share == q + 1 ==> leftovers == 0,
                    q * left <= rest <= (q + 1) * left,
                    left > 0,
            ;
        }
        let ghost before = sizes@;
        sizes.push(size);
        assert(sizes@.drop_last() =~= before);
        assert(before + sizes_from(rest as int, left as nat, rd) =~= sizes@ + sizes_from(rest - size, (left - 1) as nat, rd.drop_first()));
        rest = rest - size;
        left = left - 1;
    }
    assert(sizes@ + sizes_from(rest as int, 0, draws@.skip(n as int)) =~= sizes@);
    sizes
}

/// Sizes for `n` chunks of `len` items, front to back: each chunk takes
/// its fair share of what is left, and one more with a chance of the share
/// that is left over, so that the sizes differ by at most one.
pub fn chunk_sizes(len: usize, n: usize) -> (r: Vec<usize>)
    requires
        n > 0,
    ensures
        exists|draws: Seq<usize>| draws.len() == n && r@ == #[trigger] sizes_from(len as int, n as nat, draws),
        r@.len() == n,
        total(r@) == len,
        forall|i: int| 0 <= i < n ==> len / n <= #[trigger] r@[i] <= len / n + 1,
{
    let mut draws: Vec<usize> = Vec::new();
    let mut i: usize = 0;
    while i < n
        invariant
            i <= n,
            draws@.len() == i,
        decreases n - i,
    {
        draws.push(random_usize());
        i = i + 1;
    }
    let r = chunk_sizes_with(len, n, &draws);
    assert(draws@.len() == n && r@ == sizes_from(len as int, n as nat, draws@));
    r
}

/// Splits `items` into `n` runs, in order, whose lengths differ by at most
/// one; which runs are the longer ones is drawn at random.
pub fn split_evenly<T: Copy>(items: &[T], n: usize) -> (r: Vec<Vec<T>>)
    requires
        n > 0,
    ensures
        r@.len() == n,
        flatten(chunk_views(r@)) == items@,
        forall|i: int, j: int|
            0 <= i < n && 0 <= j < n ==> #[trigger] r@[i]@.len() <= #[trigger] r@[j]@.len() + 1,
        exists|draws: Seq<usize>| draws.len() == n && forall|i: int| 0 <= i < n ==> (#[trigger] r@[i])@.len()
            == sizes_from(items@.len() as int, n as nat, draws)[i],
{
    let len = items.len();
    let sizes = chunk_sizes(len, n);
    let mut chunks: Vec<Vec<T>> = Vec::new();
    let mut pos: usize = 0;
    let mut c: usize = 0;
    assert(flatten(chunk_views(chunks@)) =~= items@.take(0));
    while c < n
        invariant
            sizes@.len() == n,
            total(sizes@) == items@.len(),
            c <= n,
            chunks@.len() == c,
            pos == total(sizes@.take(c as int)),
            pos <= items@.len(),
            len == items@.len(),
            flatten(chunk_views(chunks@)) == items@.take(pos as int),
            forall|i: int| 0 <= i < c ==> (#[trigger] chunks@[i])@.len() == sizes@[i],
        decreases n - c,
    {
        let size = sizes[c];
        proof {
            assert(sizes@.take(c + 1).drop_last() =~= sizes@.take(c as int));
            lemma_total_prefix(sizes@, c as int + 1);
        }
        let mut chunk: Vec<T> = Vec::new();
        let mut k: usize = 0;
        while k < size
            invariant
                k <= size,
                pos + size <= items@.len(),
                len == items@.len(),
                chunk@ == items@.subrange(pos as int, pos + k),
            decreases size - k,
        {
            chunk.push(items[pos + k]);
            assert(chunk@ =~= items@.subrange(pos as int, pos + k + 1));
            k = k + 1;
        }
        let ghost before = chunks@;
        chunks.push(chunk);
        proof {
            assert(chunk_views(chunks@).drop_last() =~= chunk_views(before));
            assert(items@.take(pos as int) + items@.subrange(pos as int, pos + size) =~= items@.take(
                pos + size,
            ));
        }
        pos = pos + size;
        c = c + 1;
    }
    proof {
        assert(sizes@.take(n as int) =~= sizes@);
        assert(items@.take(pos as int) =~= items@);
        let draws = choose|draws: Seq<usize>| draws.len() == n && sizes@ == #[trigger] sizes_from(len as int, n as nat, draws);
        assert(forall|i: int| 0 <= i < n ==> (#[trigger] chunks@[i])@.len() == sizes_from(items@.len() as int, n as nat, draws)[i]);
    }
    chunks
}

pub proof fn lemma_total_prefix(s: Seq<usize>, c: int)
    requires
        0 < c <= s.len(),
    ensures
        total(s.take(c)) == total(s.take(c - 1)) + s[c - 1],
        total(s.take(c)) <= total(s),
    decreases s.len() - c,
{
    assert(s.take(c).drop_last() =~= s.take(c - 1));
    if c < s.len() {
        lemma_total_prefix(s, c + 1);
    } else {
        assert(s.take(c) =~= s);
    }
}

} // verus!
