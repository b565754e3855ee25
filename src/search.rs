use crate::board::{attack_free, attacks, Board, BoardView, Coord};
use vstd::prelude::*;

verus! {

/// Queens at `(i, p[i])`, one per row, never attack one another.
pub open spec fn non_attacking(p: Seq<usize>) -> bool {
    forall|i: int, j: int|
        #![trigger p[i], p[j]]
        0 <= i < j < p.len() ==> p[i] != p[j] && i + p[i] != j + p[j] && i - p[i] != j - p[j]
}

/// Every entry of `p` is a column of an `n`-wide board.
pub open spec fn within_columns(p: Seq<usize>, n: nat) -> bool {
    forall|i: int| 0 <= i < p.len() ==> #[trigger] p[i] < n
}

/// `p` places `n` non-attacking queens on an `n` by `n` board, the queen of
/// row `i` in column `p[i]`.
pub open spec fn is_solution(n: nat, p: Seq<usize>) -> bool {
    p.len() == n && within_columns(p, n) && non_attacking(p)
}

/// All placements of `n` non-attacking queens on an `n` by `n` board.
pub open spec fn solutions(n: nat) -> Set<Seq<usize>> {
    Set::new(|p: Seq<usize>| is_solution(n, p))
}

/// The solutions whose first rows are placed as in `pre`.
pub open spec fn completions(n: nat, pre: Seq<usize>) -> Set<Seq<usize>> {
    Set::new(|p: Seq<usize>| is_solution(n, p) && pre.is_prefix_of(p))
}

/// The completions of `pre` that put the next queen in a column below `k`.
pub open spec fn completions_below(n: nat, pre: Seq<usize>, k: nat) -> Set<Seq<usize>> {
    Set::new(|p: Seq<usize>| completions(n, pre).contains(p) && p[pre.len() as int] < k)
}

/// A partial placement with an attack has no completion.
proof fn lemma_attacked_prefix_has_no_completion(n: nat, pre: Seq<usize>)
    requires
        !non_attacking(pre),
    ensures
        completions(n, pre) == Set::<Seq<usize>>::empty(),
{
    assert forall|p: Seq<usize>| !completions(n, pre).contains(p) by {
        if completions(n, pre).contains(p) {
            let (i, j) = choose|i: int, j: int|
                #![trigger pre[i], pre[j]]
                0 <= i < j < pre.len() && !(pre[i] != pre[j] && i + pre[i] != j + pre[j] && i
                    - pre[i] != j - pre[j]);
            assert(pre[i] == p.subrange(0, pre.len() as int)[i]);
            assert(pre[j] == p.subrange(0, pre.len() as int)[j]);
        }
    }
    assert(completions(n, pre) =~= Set::<Seq<usize>>::empty());
}

/// Splitting off the completions that put the next queen in column `k`.
proof fn lemma_completions_below_step(n: nat, pre: Seq<usize>, k: usize)
    requires
        pre.len() < n,
        k < n,
    ensures
        completions_below(n, pre, k as nat + 1) == completions_below(n, pre, k as nat)
            + completions(n, pre.push(k)),
        completions_below(n, pre, k as nat).disjoint(completions(n, pre.push(k))),
{
    let next = pre.push(k);
    let m = pre.len() as int;
    assert forall|p: Seq<usize>| #[trigger]
        completions(n, next).contains(p) <==> completions(n, pre).contains(p) && p[m] == k by {
        if completions(n, next).contains(p) {
            assert(next =~= p.subrange(0, m + 1));
            assert(p[m] == next[m]);
            assert forall|i: int| 0 <= i < m implies pre[i] == p[i] by {
                assert(pre[i] == next[i]);
            }
            assert(pre =~= p.subrange(0, m));
        }
        if completions(n, pre).contains(p) && p[m] == k {
            assert(pre =~= p.subrange(0, m));
            assert forall|i: int| 0 <= i < m + 1 implies next[i] == p[i] by {
                if i < m {
                    assert(pre[i] == p.subrange(0, m)[i]);
                }
            }
            assert(next =~= p.subrange(0, m + 1));
        }
    }
    assert(completions_below(n, pre, k as nat + 1) =~= completions_below(n, pre, k as nat)
        + completions(n, next));
}

/// When the next row has no column left to try, the completions are all counted.
proof fn lemma_completions_below_all(n: nat, pre: Seq<usize>)
    requires
        pre.len() < n,
    ensures
        completions_below(n, pre, n) == completions(n, pre),
        completions_below(n, pre, 0) == Set::<Seq<usize>>::empty(),
{
    assert(completions_below(n, pre, n) =~= completions(n, pre));
    assert(completions_below(n, pre, 0) =~= Set::<Seq<usize>>::empty());
}

/// A placement of `n` rows completes only to itself.
proof fn lemma_complete_prefix(n: nat, pre: Seq<usize>)
    requires
        is_solution(n, pre),
    ensures
        completions(n, pre) == set![pre],
{
    assert forall|p: Seq<usize>| completions(n, pre).contains(p) implies p == pre by {
        assert(p =~= p.subrange(0, n as int));
    }
    assert(pre =~= pre.subrange(0, n as int));
    assert(completions(n, pre) =~= set![pre]);
}

/// The completions of any partial placement form a finite set.
pub proof fn lemma_completions_finite(n: nat, pre: Seq<usize>)
    requires
        pre.len() <= n <= usize::MAX,
    ensures
        completions(n, pre).finite(),
    decreases n - pre.len(), n + 1,
{
    if pre.len() == n {
        assert(completions(n, pre).subset_of(set![pre])) by {
            assert forall|p: Seq<usize>| completions(n, pre).contains(p) implies p == pre by {
                assert(p =~= p.subrange(0, n as int));
            }
        }
        vstd::set_lib::lemma_len_subset(completions(n, pre), set![pre]);
    } else {
        lemma_completions_below_finite(n, pre, n);
        lemma_completions_below_all(n, pre);
    }
}

proof fn lemma_completions_below_finite(n: nat, pre: Seq<usize>, k: nat)
    requires
        pre.len() < n <= usize::MAX,
        k <= n,
    ensures
        completions_below(n, pre, k).finite(),
    decreases n - pre.len(), k,
{
    if k == 0 {
        lemma_completions_below_all(n, pre);
    } else {
        let j = (k - 1) as usize;
        lemma_completions_below_finite(n, pre, j as nat);
        lemma_completions_finite(n, pre.push(j));
        lemma_completions_below_step(n, pre, j);
    }
}

/// There are finitely many solutions on a board of any size.
pub proof fn lemma_solutions_finite(n: nat)
    requires
        n <= usize::MAX,
    ensures
        solutions(n).finite(),
        solutions(n) == completions(n, Seq::<usize>::empty()),
{
    assert(solutions(n) =~= completions(n, Seq::<usize>::empty()));
    lemma_completions_finite(n, Seq::<usize>::empty());
}

/// The smallest boards: the empty placement is the one solution of size 0,
/// a single queen the one of size 1, and sizes 2 and 3 have none.
pub proof fn lemma_small_solution_counts()
    ensures
        solutions(0).len() == 1,
        solutions(1).len() == 1,
        solutions(2).len() == 0,
        solutions(3).len() == 0,
{
    assert forall|p: Seq<usize>| #[trigger] solutions(0).contains(p) <==> p == Seq::<usize>::empty() by {
        if p.len() == 0 {
            assert(p =~= Seq::<usize>::empty());
        }
    }
    assert(solutions(0) =~= set![Seq::<usize>::empty()]);
    assert forall|p: Seq<usize>| #[trigger] solutions(1).contains(p) <==> p == seq![0usize] by {
        if solutions(1).contains(p) {
            assert(p[0] < 1);
            assert(p =~= seq![0usize]);
        }
    }
    assert(solutions(1) =~= set![seq![0usize]]);
    assert forall|p: Seq<usize>| !#[trigger] solutions(2).contains(p) by {
        if solutions(2).contains(p) {
            assert(p[0] < 2 && p[1] < 2);
        }
    }
    assert(solutions(2) =~= Set::<Seq<usize>>::empty());
    assert forall|p: Seq<usize>| !#[trigger] solutions(3).contains(p) by {
        if solutions(3).contains(p) {
            assert(p[0] < 3 && p[1] < 3 && p[2] < 3);
        }
    }
    assert(solutions(3) =~= Set::<Seq<usize>>::empty());
}

/// The board that holds the queen of row `i` in column `p[i]` for each row
/// placed so far is valid exactly when those queens do not attack.
proof fn lemma_row_board(width: nat, p: Seq<usize>, qs: Seq<Coord>)
    requires
        p.len() <= width,
        p.len() <= usize::MAX,
        qs.len() == p.len(),
        forall|j: int| 0 <= j < qs.len() ==> #[trigger] qs[j] == (j as usize, p[j]),
    ensures
        (BoardView { width, height: p.len(), queens: qs.to_set() }).is_valid() == non_attacking(p),
{
    let v = BoardView { width, height: p.len(), queens: qs.to_set() };
    assert(qs.no_duplicates()) by {
        assert forall|i: int, j: int| 0 <= i < qs.len() && 0 <= j < qs.len() && i != j implies qs[i]
            != qs[j] by {
            assert(qs[i].0 == i);
            assert(qs[j].0 == j);
        }
    }
    qs.unique_seq_to_set();
    assert(v.is_full());
    if attack_free(v.queens) {
        assert forall|i: int, j: int|
            #![trigger p[i], p[j]]
            0 <= i < j < p.len() implies p[i] != p[j] && i + p[i] != j + p[j] && i - p[i] != j
                - p[j] by {
            assert(qs[i] == (i as usize, p[i]));
            assert(qs[j] == (j as usize, p[j]));
            assert(v.queens.contains(qs[i]));
            assert(v.queens.contains(qs[j]));
        }
    }
    if non_attacking(p) {
        assert forall|a: Coord, b: Coord|
            #![trigger v.queens.contains(a), v.queens.contains(b)]
            v.queens.contains(a) && v.queens.contains(b) && a != b implies !attacks(a, b) by {
            let i = choose|i: int| 0 <= i < qs.len() && qs[i] == a;
            let j = choose|j: int| 0 <= j < qs.len() && qs[j] == b;
            assert(qs[i] == (i as usize, p[i]));
            assert(qs[j] == (j as usize, p[j]));
            if i < j {
                assert(p[i] != p[j] && i + p[i] != j + p[j] && i - p[i] != j - p[j]);
            } else {
                assert(p[j] != p[i] && j + p[j] != i + p[i] && j - p[j] != i - p[i]);
            }
        }
    }
}

/// Whether column `c` is already taken by one of the rows placed so far.
fn column_taken(current: &Vec<usize>, c: usize) -> (r: bool)
    ensures
        r == current@.contains(c),
{
    let mut i: usize = 0;
    while i < current.len()
        invariant
            i <= current@.len(),
            forall|j: int| 0 <= j < i ==> current@[j] != c,
        decreases current@.len() - i,
    {
        if current[i] == c {
            return true;
        }
        i += 1;
    }
    false
}

/// Counts the solutions on a `size` by `size` board whose first rows are
/// placed as in `current` (the queen of row `i` in column `current[i]`).
pub fn solve_helper(size: usize, current: Vec<usize>) -> (r: usize)
    requires
        current@.len() <= size,
        within_columns(current@, size as nat),
        solutions(size as nat).len() <= usize::MAX,
    ensures
        r == completions(size as nat, current@).len(),
    decreases size - current@.len(),
{
    let height = current.len();
    let mut queens: Vec<Coord> = Vec::new();
    let mut y: usize = 0;
    while y < height
        invariant
            y <= height == current@.len(),
            queens@.len() == y,
            forall|j: int| 0 <= j < y ==> #[trigger] queens@[j] == (j as usize, current@[j]),
        decreases height - y,
    {
        queens.push((y, current[y]));
        y += 1;
    }
    proof {
        lemma_row_board(size as nat, current@, queens@);
    }
    let board = Board::rectangle(size, height, queens);
    if !board.is_valid() {
        proof {
            lemma_attacked_prefix_has_no_completion(size as nat, current@);
        }
        return 0;
    }
    if height == size {
        proof {
            lemma_complete_prefix(size as nat, current@);
        }
        return 1;
    }
    proof {
        lemma_solutions_finite(size as nat);
        lemma_completions_below_all(size as nat, current@);
    }
    let mut total: usize = 0;
    let mut c: usize = 0;
    while c < size
        invariant
            height == current@.len() < size,
            within_columns(current@, size as nat),
            non_attacking(current@),
            solutions(size as nat).finite(),
            solutions(size as nat).len() <= usize::MAX,
            solutions(size as nat) == completions(size as nat, Seq::<usize>::empty()),
            c <= size,
            completions_below(size as nat, current@, c as nat).finite(),
            total == completions_below(size as nat, current@, c as nat).len(),
        decreases size - c,
    {
        let ghost pre = current@;
        let ghost next_pre = pre.push(c);
        proof {
            lemma_completions_below_step(size as nat, pre, c);
            lemma_completions_finite(size as nat, next_pre);
            vstd::set_lib::lemma_set_disjoint_lens(
                completions_below(size as nat, pre, c as nat),
                completions(size as nat, next_pre),
            );
        }
        if !column_taken(&current, c) {
            let mut next = current.clone();
            next.push(c);
            assert(next@ =~= next_pre);
            let found = solve_helper(size, next);
            proof {
                assert(completions_below(size as nat, pre, c as nat + 1).subset_of(
                    solutions(size as nat),
                ));
                vstd::set_lib::lemma_len_subset(
                    completions_below(size as nat, pre, c as nat + 1),
                    solutions(size as nat),
                );
            }
            total = total + found;
        } else {
            proof {
                let i = choose|i: int| 0 <= i < pre.len() && pre[i] == c;
                assert(next_pre[i] == next_pre[pre.len() as int]);
                lemma_attacked_prefix_has_no_completion(size as nat, next_pre);
                assert(completions_below(size as nat, pre, c as nat + 1) =~= completions_below(
                    size as nat,
                    pre,
                    c as nat,
                ));
            }
        }
        c += 1;
    }
    total
}

/// Counts the placements of `size` non-attacking queens on a `size` by
/// `size` board.
pub fn solve(size: usize) -> (r: usize)
    requires
        solutions(size as nat).len() <= usize::MAX,
    ensures
        r == solutions(size as nat).len(),
{
    proof {
        lemma_solutions_finite(size as nat);
    }
    solve_helper(size, Vec::new())
}

} // verus!
