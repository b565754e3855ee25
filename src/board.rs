use itertools::Itertools;
use vstd::prelude::*;

verus! {

/// A square of the board, as `(row, column)`.
pub type Coord = (usize, usize);

/// The four kinds of line along which a queen attacks.
pub enum Line {
    Row,
    Column,
    /// Squares with the same `row + column`.
    Diagonal,
    /// Squares with the same `row - column`.
    AntiDiagonal,
}

/// The value that every square on one line of the given kind shares.
pub open spec fn line_tag(line: Line, q: Coord) -> int {
    match line {
        Line::Row => q.0 as int,
        Line::Column => q.1 as int,
        Line::Diagonal => q.0 + q.1,
        Line::AntiDiagonal => q.0 - q.1,
    }
}

/// Two queens on these squares would share a row, a column or a diagonal.
pub open spec fn attacks(a: Coord, b: Coord) -> bool {
    a.0 == b.0 || a.1 == b.1 || a.0 + a.1 == b.0 + b.1 || a.0 - a.1 == b.0 - b.1
}

/// No two distinct queens of `qs` attack each other.
pub open spec fn attack_free(qs: Set<Coord>) -> bool {
    forall|a: Coord, b: Coord|
        #![trigger qs.contains(a), qs.contains(b)]
        qs.contains(a) && qs.contains(b) && a != b ==> !attacks(a, b)
}

/// The abstract content of a [`Board`]: its size and the set of occupied squares.
pub struct BoardView {
    pub width: nat,
    pub height: nat,
    pub queens: Set<Coord>,
}

impl BoardView {
    /// The most queens that can stand on the board without attacking.
    pub open spec fn capacity(self) -> nat {
        if self.width <= self.height {
            self.width
        } else {
            self.height
        }
    }

    /// The board holds as many queens as it has room for.
    pub open spec fn is_full(self) -> bool {
        self.queens.len() == self.capacity()
    }

    /// A complete placement in which no two queens attack each other.
    pub open spec fn is_valid(self) -> bool {
        self.is_full() && attack_free(self.queens)
    }
}

/// The square that `q` moves to when an `n`-wide board is reflected left to right.
pub open spec fn mirror(n: nat, q: Coord) -> Coord {
    (q.0, (n - 1 - q.1) as usize)
}

/// Every queen of `v` stands on the board.
pub open spec fn on_board(v: BoardView) -> bool {
    forall|q: Coord| #[trigger] v.queens.contains(q) ==> q.0 < v.height && q.1 < v.width
}

/// Reflecting a valid placement on a square board left to right (column `c`
/// becomes `n - 1 - c`) gives a valid placement: the two diagonal directions
/// trade places and stay distinct.
pub proof fn lemma_mirror_keeps_validity(v: BoardView)
    requires
        v.width == v.height <= usize::MAX,
        v.queens.finite(),
        on_board(v),
        v.is_valid(),
    ensures
        (BoardView { queens: v.queens.map(|q: Coord| mirror(v.width, q)), ..v }).is_valid(),
{
    let n = v.width;
    let f = |q: Coord| mirror(n, q);
    let m = BoardView { queens: v.queens.map(f), ..v };
    assert(vstd::relations::injective_on(f, v.queens)) by {
        assert forall|a: Coord, b: Coord|
            v.queens.contains(a) && v.queens.contains(b) && #[trigger] f(a) == #[trigger] f(b)
            implies a == b by {}
    }
    vstd::set_lib::lemma_map_size(v.queens, m.queens, f);
    assert forall|a: Coord, b: Coord|
        #![trigger m.queens.contains(a), m.queens.contains(b)]
        m.queens.contains(a) && m.queens.contains(b) && a != b implies !attacks(a, b) by {
        let x = choose|x: Coord| v.queens.contains(x) && f(x) == a;
        let y = choose|y: Coord| v.queens.contains(y) && f(y) == b;
        assert(v.queens.contains(x) && v.queens.contains(y) && x != y);
        assert(!attacks(x, y));
        assert(a.0 == x.0 && a.1 == n - 1 - x.1);
        assert(b.0 == y.0 && b.1 == n - 1 - y.1);
    }
}

/// No placement on a 2 by 2 board is valid: two queens in different rows and
/// columns there always share a diagonal.
pub proof fn lemma_two_by_two_never_valid(v: BoardView)
    requires
        v.width == 2,
        v.height == 2,
        v.queens.finite(),
        on_board(v),
    ensures
        !v.is_valid(),
{
    if v.is_valid() {
        let a = v.queens.choose();
        assert(v.queens.contains(a)) by {
            if v.queens.is_empty() {
                assert(v.queens =~= Set::<Coord>::empty());
            }
        }
        let rest = v.queens.remove(a);
        assert(rest.len() == 1);
        let b = rest.choose();
        assert(rest.contains(b)) by {
            if rest.is_empty() {
                assert(rest =~= Set::<Coord>::empty());
            }
        }
        assert(v.queens.contains(b) && a != b);
        assert(!attacks(a, b));
    }
}

/// Checking validity reads the board's contents and nothing else: boards
/// with the same contents, one board checked twice among them, get the same
/// answer.
pub proof fn lemma_validity_depends_on_contents_only(a: Board, b: Board)
    requires
        a@ == b@,
    ensures
        a@.is_valid() == b@.is_valid(),
{
}

/// One cell of the rendered grid: `Q ` where a queen stands, `. ` elsewhere.
pub open spec fn cell_text(occupied: bool) -> Seq<char> {
    if occupied {
        seq!['Q', ' ']
    } else {
        seq!['.', ' ']
    }
}

/// The first `w` cells of row `y`.
pub open spec fn row_text(v: BoardView, y: nat, w: nat) -> Seq<char>
    decreases w,
{
    if w == 0 {
        Seq::empty()
    } else {
        row_text(v, y, (w - 1) as nat) + cell_text(v.queens.contains((y as usize, (w - 1) as usize)))
    }
}

/// The first `h` rows of the grid, each ended by a newline.
pub open spec fn grid_text(v: BoardView, h: nat) -> Seq<char>
    decreases h,
{
    if h == 0 {
        Seq::empty()
    } else {
        grid_text(v, (h - 1) as nat) + row_text(v, (h - 1) as nat, v.width) + seq!['\n']
    }
}

/// A `width` by `height` board with a set of queens on it.
///
/// Squares outside the board are accepted as given: nothing checks them.
pub struct Board {
    queens: Vec<Coord>,
    width: usize,
    height: usize,
}

impl View for Board {
    type V = BoardView;

    closed spec fn view(&self) -> BoardView {
        BoardView {
            width: self.width as nat,
            height: self.height as nat,
            queens: self.queens@.to_set(),
        }
    }
}

/// Whether `q` is one of the squares of `v`.
fn contains_coord(v: &Vec<Coord>, q: Coord) -> (r: bool)
    ensures
        r == v@.contains(q),
{
    let mut i: usize = 0;
    while i < v.len()
        invariant
            i <= v@.len(),
            forall|j: int| 0 <= j < i ==> v@[j] != q,
        decreases v@.len() - i,
    {
        if v[i].0 == q.0 && v[i].1 == q.1 {
            return true;
        }
        i += 1;
    }
    false
}

/// Relies on itertools::Itertools::unique: it yields each distinct value once,
/// so counting what it yields counts the distinct values.
#[verifier::external_body]
fn count_unique(values: &Vec<i128>) -> (r: usize)
    ensures
        r == values@.to_set().len(),
{
    values.iter().unique().count()
}

/// A sequence has as many distinct values as elements exactly when no value repeats.
proof fn lemma_distinct_count<A>(s: Seq<A>)
    ensures
        (s.to_set().len() == s.len()) == s.no_duplicates(),
{
    if s.no_duplicates() {
        s.unique_seq_to_set();
    }
    if s.to_set().len() == s.len() {
        s.lemma_no_dup_set_cardinality();
    }
}

impl Board {
    /// The tag of each queen, in the order the queens are stored.
    spec fn tags(self, line: Line) -> Seq<int> {
        self.queens@.map_values(|q: Coord| line_tag(line, q))
    }

    #[verifier::type_invariant]
    spec fn inv(self) -> bool {
        self.queens@.no_duplicates()
    }

    /// A `size` by `size` board.
    pub fn square(size: usize, queens: Vec<Coord>) -> (b: Board)
        ensures
            b@ == (BoardView { width: size as nat, height: size as nat, queens: queens@.to_set() }),
            b@.queens.finite(),
    {
        Board::rectangle(size, size, queens)
    }

    /// A `width` by `height` board holding each square of `queens` once.
    pub fn rectangle(width: usize, height: usize, queens: Vec<Coord>) -> (b: Board)
        ensures
            b@ == (BoardView { width: width as nat, height: height as nat, queens: queens@.to_set() }),
            b@.queens.finite(),
    {
        let mut kept: Vec<Coord> = Vec::new();
        let mut i: usize = 0;
        while i < queens.len()
            invariant
                i <= queens@.len(),
                kept@.no_duplicates(),
                kept@.to_set() == queens@.subrange(0, i as int).to_set(),
            decreases queens@.len() - i,
        {
            let q = queens[i];
            let ghost seen = queens@.subrange(0, i as int);
            assert(queens@.subrange(0, i + 1) =~= seen.push(q));
            proof {
                seen.lemma_push_to_set_commute(q);
            }
            if !contains_coord(&kept, q) {
                proof {
                    kept@.lemma_push_to_set_commute(q);
                }
                kept.push(q);
            } else {
                assert(seen.to_set().insert(q) =~= seen.to_set());
            }
            i += 1;
        }
        assert(queens@.subrange(0, i as int) =~= queens@);
        proof {
            vstd::seq_lib::seq_to_set_is_finite(queens@);
        }
        Board { queens: kept, width, height }
    }

    /// Whether a queen stands on `coord`.
    pub fn has_queen(&self, coord: Coord) -> (r: bool)
        ensures
            r == self@.queens.contains(coord),
    {
        contains_coord(&self.queens, coord)
    }

    /// How many distinct values of the given line's tag the queens have.
    fn count_distinct(&self, line: Line) -> (r: usize)
        ensures
            r == self.tags(line).to_set().len(),
    {
        let mut values: Vec<i128> = Vec::new();
        let mut i: usize = 0;
        while i < self.queens.len()
            invariant
                i <= self.queens@.len(),
                values@.len() == i,
                forall|j: int| 0 <= j < i ==> values@[j] as int == line_tag(line, #[trigger] self.queens@[j]),
            decreases self.queens@.len() - i,
        {
            let (row, col) = self.queens[i];
            let v: i128 = match line {
                Line::Row => row as i128,
                Line::Column => col as i128,
                Line::Diagonal => row as i128 + col as i128,
                Line::AntiDiagonal => row as i128 - col as i128,
            };
            values.push(v);
            i += 1;
        }
        let r = count_unique(&values);
        proof {
            let widen = |x: i128| x as int;
            assert(values@.map_values(widen) =~= self.tags(line));
            values@.lemma_to_set_map_commutes(widen);
            vstd::set_lib::lemma_map_size(values@.to_set(), self.tags(line).to_set(), widen);
        }
        r
    }

    /// Whether the board holds as many queens as it can hold without attacks.
    fn is_full(&self) -> (r: bool)
        ensures
            r == self@.is_full(),
    {
        proof {
            use_type_invariant(self);
            self.queens@.unique_seq_to_set();
        }
        let expected_queens = if self.width <= self.height {
            self.width
        } else {
            self.height
        };
        self.queens.len() == expected_queens
    }

    /// Whether the board is full and no two of its queens share a row, a
    /// column or a diagonal.
    pub fn is_valid(&self) -> (r: bool)
        ensures
            r == self@.is_valid(),
    {
        proof {
            use_type_invariant(self);
        }
        if !self.is_full() {
            return false;
        }
        let n_queens = self.queens.len();
        let distinct_rows = self.count_distinct(Line::Row);
        let distinct_cols = self.count_distinct(Line::Column);
        let distinct_diagonals = self.count_distinct(Line::Diagonal);
        let distinct_anti_diagonals = self.count_distinct(Line::AntiDiagonal);
        let r = distinct_rows == n_queens && distinct_cols == n_queens && distinct_diagonals
            == n_queens && distinct_anti_diagonals == n_queens;
        proof {
            lemma_distinct_count(self.tags(Line::Row));
            lemma_distinct_count(self.tags(Line::Column));
            lemma_distinct_count(self.tags(Line::Diagonal));
            lemma_distinct_count(self.tags(Line::AntiDiagonal));
            self.lemma_attack_free_iff_distinct_tags();
        }
        r
    }

    /// The queens attack no one another exactly when, for each kind of line,
    /// no two of them have the same tag.
    proof fn lemma_attack_free_iff_distinct_tags(self)
        requires
            self.inv(),
        ensures
            attack_free(self@.queens) == (self.tags(Line::Row).no_duplicates()
                && self.tags(Line::Column).no_duplicates() && self.tags(
                Line::Diagonal,
            ).no_duplicates() && self.tags(Line::AntiDiagonal).no_duplicates()),
    {
        let qs = self.queens@;
        let all_distinct = self.tags(Line::Row).no_duplicates() && self.tags(
            Line::Column,
        ).no_duplicates() && self.tags(Line::Diagonal).no_duplicates() && self.tags(
            Line::AntiDiagonal,
        ).no_duplicates();
        if all_distinct {
            assert forall|a: Coord, b: Coord|
                #![trigger self@.queens.contains(a), self@.queens.contains(b)]
                self@.queens.contains(a) && self@.queens.contains(b) && a != b implies !attacks(
                a,
                b,
            ) by {
                let i = choose|i: int| 0 <= i < qs.len() && qs[i] == a;
                let j = choose|j: int| 0 <= j < qs.len() && qs[j] == b;
                assert(self.tags(Line::Row)[i] != self.tags(Line::Row)[j]);
                assert(self.tags(Line::Column)[i] != self.tags(Line::Column)[j]);
                assert(self.tags(Line::Diagonal)[i] != self.tags(Line::Diagonal)[j]);
                assert(self.tags(Line::AntiDiagonal)[i] != self.tags(Line::AntiDiagonal)[j]);
            }
        }
        if attack_free(self@.queens) {
            assert forall|line: Line| #[trigger] self.tags(line).no_duplicates() by {
                assert forall|i: int, j: int|
                    0 <= i < qs.len() && 0 <= j < qs.len() && i != j implies self.tags(line)[i]
                    != self.tags(line)[j] by {
                    assert(self@.queens.contains(qs[i]));
                    assert(self@.queens.contains(qs[j]));
                }
            }
        }
    }

    /// The number of columns.
    pub fn width(&self) -> (r: usize)
        ensures
            r == self@.width,
    {
        self.width
    }

    /// The number of rows.
    pub fn height(&self) -> (r: usize)
        ensures
            r == self@.height,
    {
        self.height
    }

    /// The board as text, row by row: `height` lines of `width` cells.
    pub fn render(&self) -> (r: String)
        ensures
            r@ == grid_text(self@, self@.height),
    {
        let mut out = String::new();
        let mut y: usize = 0;
        while y < self.height
            invariant
                y <= self.height,
                out@ == grid_text(self@, y as nat),
            decreases self.height - y,
        {
            let ghost before = out@;
            let mut x: usize = 0;
            while x < self.width
                invariant
                    y < self.height,
                    x <= self.width,
                    out@ == before + row_text(self@, y as nat, x as nat),
                decreases self.width - x,
            {
                proof {
                    reveal_strlit("Q ");
                    reveal_strlit(". ");
                }
                if self.has_queen((y, x)) {
                    out.append("Q ");
                } else {
                    out.append(". ");
                }
                assert(before + row_text(self@, y as nat, (x + 1) as nat) =~= before + row_text(
                    self@,
                    y as nat,
                    x as nat,
                ) + cell_text(self@.queens.contains((y, x))));
                x += 1;
            }
            proof {
                reveal_strlit("\n");
            }
            out.append("\n");
            assert(grid_text(self@, (y + 1) as nat) =~= before + row_text(
                self@,
                y as nat,
                self@.width,
            ) + seq!['\n']);
            y += 1;
        }
        out
    }
}

} // verus!
