use vstd::prelude::*;

verus! {

/// A direction in which the tiles of the grid are pushed.
#[derive(Clone, Copy, Debug, PartialEq, Eq, Structural)]
pub enum Direction {
    Left,
    Right,
    Up,
    Down,
}

/// The values of the occupied cells of a line, in order.
pub open spec fn compress(line: Seq<Option<u32>>) -> Seq<u32>
    decreases line.len(),
{
    if line.len() == 0 {
        seq![]
    } else {
        let rest = compress(line.drop_last());
        match line.last() {
            Some(v) => rest.push(v),
            None => rest,
        }
    }
}

/// Merges equal neighbours, pairing from the front: `[a, a, b] -> [2a, b]`.
pub open spec fn merge_front(s: Seq<u32>) -> Seq<int>
    decreases s.len(),
{
    if s.len() == 0 {
        seq![]
    } else if s.len() >= 2 && s[0] == s[1] {
        seq![2 * s[0]] + merge_front(s.skip(2))
    } else {
        seq![s[0] as int] + merge_front(s.skip(1))
    }
}

/// Merges equal neighbours, pairing from the back: `[a, b, b] -> [a, 2b]`.
pub open spec fn merge_back(s: Seq<u32>) -> Seq<int>
    decreases s.len(),
{
    if s.len() == 0 {
        seq![]
    } else if s.len() >= 2 && s[s.len() - 1] == s[s.len() - 2] {
        merge_back(s.take(s.len() - 2)).push(2 * s[s.len() - 1])
    } else {
        merge_back(s.drop_last()).push(s[s.len() - 1] as int)
    }
}

/// A merged value as a cell: positive values are tiles, zero is an empty cell.
pub open spec fn to_cell(v: int) -> Option<u32> {
    if v > 0 {
        Some(v as u32)
    } else {
        None
    }
}

/// A merged sequence written into a line of four cells from the start,
/// the rest of the line left empty.
pub open spec fn settle(m: Seq<int>) -> Seq<Option<u32>> {
    Seq::new(4, |x: int| if x < m.len() { to_cell(m[x]) } else { None })
}

/// Every merged value fits in a `u32`.
pub open spec fn fits(m: Seq<int>) -> bool {
    forall|i: int| 0 <= i < m.len() ==> m[i] <= u32::MAX
}

/// The line after a push toward its start.
pub open spec fn slide_front(line: Seq<Option<u32>>) -> Seq<Option<u32>> {
    settle(merge_front(compress(line)))
}

/// The line after a push toward its end: pairs are merged from the end,
/// and the result is written from the start of the line.
pub open spec fn slide_back(line: Seq<Option<u32>>) -> Seq<Option<u32>> {
    settle(merge_back(compress(line)))
}

proof fn lemma_compress_len(line: Seq<Option<u32>>)
    ensures
        compress(line).len() <= line.len(),
    decreases line.len(),
{
    if line.len() > 0 {
        lemma_compress_len(line.drop_last());
    }
}

proof fn lemma_merge_front_len(s: Seq<u32>)
    ensures
        merge_front(s).len() <= s.len(),
    decreases s.len(),
{
    if s.len() >= 2 && s[0] == s[1] {
        lemma_merge_front_len(s.skip(2));
    } else if s.len() > 0 {
        lemma_merge_front_len(s.skip(1));
    }
}

proof fn lemma_merge_back_len(s: Seq<u32>)
    ensures
        merge_back(s).len() <= s.len(),
    decreases s.len(),
{
    if s.len() >= 2 && s[s.len() - 1] == s[s.len() - 2] {
        lemma_merge_back_len(s.take(s.len() - 2));
    } else if s.len() > 0 {
        lemma_merge_back_len(s.drop_last());
    }
}

/// The occupied values of a line of four cells, in order.
fn compress_line(line: [Option<u32>; 4]) -> (r: Vec<u32>)
    ensures
        r@ == compress(line@),
{
    let mut r: Vec<u32> = Vec::new();
    let mut x: usize = 0;
    while x < 4
        invariant
            x <= 4,
            r@ == compress(line@.take(x as int)),
        decreases 4 - x,
    {
        assert(line@.take(x + 1).drop_last() =~= line@.take(x as int));
        match line[x] {
            Some(v) => r.push(v),
            None => {},
        }
        x = x + 1;
    }
    assert(line@.take(4) =~= line@);
    r
}


/// The values of `v` as integers.
pub open spec fn ints(v: Seq<u32>) -> Seq<int> {
    v.map_values(|x: u32| x as int)
}

/// Merges equal neighbours of `s` pairing from the front; `None` when a merged
/// value does not fit in a `u32`.
fn merge_front_checked(s: &Vec<u32>) -> (r: Option<Vec<u32>>)
    ensures
        r.is_some() == fits(merge_front(s@)),
        r matches Some(m) ==> ints(m@) == merge_front(s@),
{
    let mut merged: Vec<u32> = Vec::new();
    let mut i: usize = 0;
    assert(s@.skip(0) =~= s@);
    assert(ints(merged@) =~= Seq::<int>::empty());
    while i < s.len()
        invariant
            i <= s.len(),
            merge_front(s@) == ints(merged@) + merge_front(s@.skip(i as int)),
        decreases s.len() - i,
    {
        let ghost rest = s@.skip(i as int);
        if i + 1 < s.len() && s[i] == s[i + 1] {
            assert(rest.skip(2) =~= s@.skip(i + 2));
            if s[i] > u32::MAX / 2 {
                proof {
                    let k = merged@.len() as int;
                    assert(merge_front(s@)[k] == 2 * s@[i as int]);
                }
                return None;
            }
            merged.push(s[i] * 2);
            i = i + 2;
        } else {
            assert(rest.skip(1) =~= s@.skip(i + 1));
            merged.push(s[i]);
            i = i + 1;
        }
        assert(ints(merged@) =~= ints(merged@.drop_last()).push(merged@.last() as int));
    }
    assert(s@.skip(i as int) =~= Seq::<u32>::empty());
    assert(ints(merged@) =~= merge_front(s@));
    Some(merged)
}


/// The values of `v` as integers, last first.
pub open spec fn ints_rev(v: Seq<u32>) -> Seq<int> {
    Seq::new(v.len(), |k: int| v[v.len() - 1 - k] as int)
}

/// Merges equal neighbours of `s` pairing from the back, and gives the merged
/// values last first; `None` when a merged value does not fit in a `u32`.
fn merge_back_checked(s: &Vec<u32>) -> (r: Option<Vec<u32>>)
    ensures
        r.is_some() == fits(merge_back(s@)),
        r matches Some(m) ==> ints_rev(m@) == merge_back(s@),
{
    let mut rev: Vec<u32> = Vec::new();
    let mut i: usize = s.len();
    assert(s@.take(i as int) =~= s@);
    assert(ints_rev(rev@) =~= Seq::<int>::empty());
    while i > 0
        invariant
            i <= s.len(),
            merge_back(s@) == merge_back(s@.take(i as int)) + ints_rev(rev@),
        decreases i,
    {
        let ghost pre = s@.take(i as int);
        let ghost old_rev = rev@;
        i = i - 1;
        if i > 0 && s[i] == s[i - 1] {
            assert(pre.take(pre.len() - 2) =~= s@.take(i - 1));
            if s[i] > u32::MAX / 2 {
                proof {
                    let k = merge_back(s@.take(i - 1)).len() as int;
                    assert(merge_back(s@)[k] == 2 * s@[i as int]);
                }
                return None;
            }
            rev.push(s[i] * 2);
            i = i - 1;
            assert(ints_rev(rev@) =~= seq![2 * s@[(i + 1) as int]] + ints_rev(old_rev));
        } else {
            assert(pre.drop_last() =~= s@.take(i as int));
            rev.push(s[i]);
            assert(ints_rev(rev@) =~= seq![s@[i as int] as int] + ints_rev(old_rev));
        }
    }
    assert(s@.take(0) =~= Seq::<u32>::empty());
    Some(rev)
}


/// Whether a push of `line` toward its start (`back == false`) or its end
/// (`back == true`) merges only into values that fit in a `u32`.
pub open spec fn line_fits(line: Seq<Option<u32>>, back: bool) -> bool {
    if back {
        fits(merge_back(compress(line)))
    } else {
        fits(merge_front(compress(line)))
    }
}

/// The line after a push toward its start (`back == false`) or its end.
pub open spec fn slide(line: Seq<Option<u32>>, back: bool) -> Seq<Option<u32>> {
    if back {
        slide_back(line)
    } else {
        slide_front(line)
    }
}

/// Pushes a line of four cells; `None` when a merged value would not fit.
fn slide_line(line: [Option<u32>; 4], back: bool) -> (r: Option<[Option<u32>; 4]>)
    ensures
        r.is_some() == line_fits(line@, back),
        r matches Some(out) ==> out@ == slide(line@, back),
{
    let values = compress_line(line);
    proof {
        lemma_compress_len(line@);
        lemma_merge_front_len(values@);
        lemma_merge_back_len(values@);
    }
    let mut out: [Option<u32>; 4] = [None, None, None, None];
    if back {
        let rev = match merge_back_checked(&values) {
            Some(m) => m,
            None => return None,
        };
        let ghost m = merge_back(values@);
        let n = rev.len();
        let mut x: usize = 0;
        while x < 4
            invariant
                x <= 4,
                n == rev@.len(),
                n <= 4,
                ints_rev(rev@) == m,
                forall|k: int| 0 <= k < x ==> out@[k] == settle(m)[k],
                forall|k: int| x <= k < 4 ==> out@[k] == None::<u32>,
            decreases 4 - x,
        {
            if x < n && rev[n - 1 - x] > 0 {
                out[x] = Some(rev[n - 1 - x]);
            } else {
                out[x] = None;
            }
            assert(m[x as int] == ints_rev(rev@)[x as int] || x >= n);
            x = x + 1;
        }
        assert(out@ =~= settle(m));
    } else {
        let merged = match merge_front_checked(&values) {
            Some(m) => m,
            None => return None,
        };
        let ghost m = merge_front(values@);
        let n = merged.len();
        let mut x: usize = 0;
        while x < 4
            invariant
                x <= 4,
                n == merged@.len(),
                n <= 4,
                ints(merged@) == m,
                forall|k: int| 0 <= k < x ==> out@[k] == settle(m)[k],
                forall|k: int| x <= k < 4 ==> out@[k] == None::<u32>,
            decreases 4 - x,
        {
            if x < n && merged[x] > 0 {
                out[x] = Some(merged[x]);
            } else {
                out[x] = None;
            }
            assert(m[x as int] == ints(merged@)[x as int] || x >= n);
            x = x + 1;
        }
        assert(out@ =~= settle(m));
    }
    Some(out)
}


/// A 4x4 board as rows of cells: `b[y][x]` is the cell in row `y`, column `x`.
pub open spec fn is_board(b: Seq<Seq<Option<u32>>>) -> bool {
    &&& b.len() == 4
    &&& forall|y: int| 0 <= y < 4 ==> #[trigger] b[y].len() == 4
}

/// Column `x` of a board, top to bottom.
pub open spec fn column(b: Seq<Seq<Option<u32>>>, x: int) -> Seq<Option<u32>> {
    Seq::new(4, |y: int| b[y][x])
}

/// The board with rows and columns exchanged.
pub open spec fn transpose(b: Seq<Seq<Option<u32>>>) -> Seq<Seq<Option<u32>>> {
    Seq::new(4, |i: int| column(b, i))
}

/// Every row pushed toward its start (`back == false`) or its end.
pub open spec fn slide_rows(b: Seq<Seq<Option<u32>>>, back: bool) -> Seq<Seq<Option<u32>>> {
    Seq::new(4, |y: int| slide(b[y], back))
}

/// Every column pushed toward its top (`back == false`) or its bottom.
pub open spec fn slide_columns(b: Seq<Seq<Option<u32>>>, back: bool) -> Seq<Seq<Option<u32>>> {
    transpose(slide_rows(transpose(b), back))
}

/// The board after a move in direction `d`.
pub open spec fn after_move(b: Seq<Seq<Option<u32>>>, d: Direction) -> Seq<Seq<Option<u32>>> {
    match d {
        Direction::Left => slide_rows(b, false),
        Direction::Right => slide_rows(b, true),
        Direction::Up => slide_columns(b, false),
        Direction::Down => slide_columns(b, true),
    }
}

/// Every row can be pushed without a merged value leaving the `u32` range.
pub open spec fn rows_fit(b: Seq<Seq<Option<u32>>>, back: bool) -> bool {
    forall|y: int| 0 <= y < 4 ==> #[trigger] line_fits(b[y], back)
}

/// A move in direction `d` merges only into values that fit in a `u32`.
pub open spec fn move_fits(b: Seq<Seq<Option<u32>>>, d: Direction) -> bool {
    match d {
        Direction::Left => rows_fit(b, false),
        Direction::Right => rows_fit(b, true),
        Direction::Up => rows_fit(transpose(b), false),
        Direction::Down => rows_fit(transpose(b), true),
    }
}


/// A board with every cell empty.
pub open spec fn empty_board() -> Seq<Seq<Option<u32>>> {
    Seq::new(4, |y: int| Seq::new(4, |x: int| None::<u32>))
}

/// The cell with row-major index `k` (row `k / 4`, column `k % 4`).
pub open spec fn cell_at(b: Seq<Seq<Option<u32>>>, k: int) -> Option<u32> {
    b[k / 4][k % 4]
}

/// The empty cells among the first `k` cells in row-major order, as `(x, y)`.
pub open spec fn empties_before(b: Seq<Seq<Option<u32>>>, k: int) -> Seq<(usize, usize)>
    decreases k,
{
    if k <= 0 {
        seq![]
    } else {
        let p = empties_before(b, k - 1);
        if cell_at(b, k - 1) is None {
            p.push((((k - 1) % 4) as usize, ((k - 1) / 4) as usize))
        } else {
            p
        }
    }
}

/// The empty cells of a board in row-major order, as `(x, y)`.
pub open spec fn empty_cells(b: Seq<Seq<Option<u32>>>) -> Seq<(usize, usize)> {
    empties_before(b, 16)
}

/// Some cell is empty.
pub open spec fn has_empty(b: Seq<Seq<Option<u32>>>) -> bool {
    exists|y: int, x: int| 0 <= y < 4 && 0 <= x < 4 && #[trigger] b[y][x] is None
}

/// Two horizontally or vertically adjacent cells hold the same contents.
pub open spec fn has_equal_neighbours(b: Seq<Seq<Option<u32>>>) -> bool {
    ||| exists|y: int, x: int| 0 <= y < 4 && 0 <= x < 3 && #[trigger] b[y][x] == b[y][x + 1]
    ||| exists|y: int, x: int| 0 <= y < 3 && 0 <= x < 4 && #[trigger] b[y][x] == b[y + 1][x]
}

/// The game can go on: a cell is empty or two neighbours are equal.
pub open spec fn movable(b: Seq<Seq<Option<u32>>>) -> bool {
    has_empty(b) || has_equal_neighbours(b)
}

/// The board after the tiles `(x, y, value)` are placed in order on an
/// empty board; tiles outside the board are ignored, later ones win.
pub open spec fn place_tiles(tiles: Seq<(i32, i32, u32)>) -> Seq<Seq<Option<u32>>>
    decreases tiles.len(),
{
    if tiles.len() == 0 {
        empty_board()
    } else {
        let b = place_tiles(tiles.drop_last());
        let (x, y, v) = tiles.last();
        if 0 <= x < 4 && 0 <= y < 4 {
            b.update(y as int, b[y as int].update(x as int, Some(v)))
        } else {
            b
        }
    }
}

/// A cell read as a number, an empty cell as zero.
pub open spec fn value_of(c: Option<u32>) -> int {
    match c {
        Some(v) => v as int,
        None => 0,
    }
}

/// The largest value among the first `k` cells in row-major order, or zero.
pub open spec fn max_before(b: Seq<Seq<Option<u32>>>, k: int) -> int
    decreases k,
{
    if k <= 0 {
        0
    } else {
        let m = max_before(b, k - 1);
        if value_of(cell_at(b, k - 1)) > m {
            value_of(cell_at(b, k - 1))
        } else {
            m
        }
    }
}

/// The largest tile value of a board, zero when it has none.
pub open spec fn max_tile(b: Seq<Seq<Option<u32>>>) -> int {
    max_before(b, 16)
}


proof fn lemma_empties_before(b: Seq<Seq<Option<u32>>>, k: int)
    requires
        0 <= k <= 16,
    ensures
        empties_before(b, k).len() > 0 <==> exists|j: int| 0 <= j < k && #[trigger] cell_at(b, j) is None,
    decreases k,
{
    if k > 0 {
        lemma_empties_before(b, k - 1);
        if cell_at(b, k - 1) is None {
        } else {
            if exists|j: int| 0 <= j < k && #[trigger] cell_at(b, j) is None {
                let j = choose|j: int| 0 <= j < k && #[trigger] cell_at(b, j) is None;
                assert(j < k - 1);
            }
        }
    }
}

proof fn lemma_has_empty_cells(b: Seq<Seq<Option<u32>>>)
    ensures
        empty_cells(b).len() > 0 <==> has_empty(b),
{
    lemma_empties_before(b, 16);
    if has_empty(b) {
        let (y, x) = choose|y: int, x: int| 0 <= y < 4 && 0 <= x < 4 && #[trigger] b[y][x] is None;
        assert((4 * y + x) / 4 == y && (4 * y + x) % 4 == x);
        assert(cell_at(b, 4 * y + x) is None);
    }
    if empty_cells(b).len() > 0 {
        let j = choose|j: int| 0 <= j < 16 && #[trigger] cell_at(b, j) is None;
        assert(b[j / 4][j % 4] is None);
    }
}


/// `+1` when two positive neighbours do not decrease, `-1` when they
/// decrease, `0` when either is empty or zero.
pub open spec fn trend(a: Option<u32>, b: Option<u32>) -> int {
    if value_of(a) > 0 && value_of(b) > 0 {
        if value_of(a) <= value_of(b) {
            1
        } else {
            -1
        }
    } else {
        0
    }
}

/// How one-directional a line is: the absolute sum of its three trends.
pub open spec fn line_monotonicity(l: Seq<Option<u32>>) -> int {
    let t = trend(l[0], l[1]) + trend(l[1], l[2]) + trend(l[2], l[3]);
    if t < 0 {
        -t
    } else {
        t
    }
}

/// The difference between two positive neighbours, `0` when either is
/// empty or zero.
pub open spec fn gap(a: Option<u32>, b: Option<u32>) -> int {
    if value_of(a) > 0 && value_of(b) > 0 {
        if value_of(a) >= value_of(b) {
            value_of(a) - value_of(b)
        } else {
            value_of(b) - value_of(a)
        }
    } else {
        0
    }
}

/// The summed differences between neighbours of a line.
pub open spec fn line_smoothness(l: Seq<Option<u32>>) -> int {
    gap(l[0], l[1]) + gap(l[1], l[2]) + gap(l[2], l[3])
}

/// The monotonicity of a board: that of its rows plus that of its columns.
pub open spec fn monotonicity(b: Seq<Seq<Option<u32>>>) -> int {
    line_monotonicity(b[0]) + line_monotonicity(b[1]) + line_monotonicity(b[2])
        + line_monotonicity(b[3]) + line_monotonicity(column(b, 0)) + line_monotonicity(
        column(b, 1),
    ) + line_monotonicity(column(b, 2)) + line_monotonicity(column(b, 3))
}

/// The roughness of a board: the summed neighbour differences of its rows
/// and of its columns.
pub open spec fn smoothness(b: Seq<Seq<Option<u32>>>) -> int {
    line_smoothness(b[0]) + line_smoothness(b[1]) + line_smoothness(b[2]) + line_smoothness(b[3])
        + line_smoothness(column(b, 0)) + line_smoothness(column(b, 1)) + line_smoothness(
        column(b, 2),
    ) + line_smoothness(column(b, 3))
}

/// The largest tile when it stands in a corner, else zero.
pub open spec fn corner_bonus(b: Seq<Seq<Option<u32>>>) -> int {
    let m = max_tile(b);
    if m == 0 {
        0
    } else if value_of(b[0][0]) == m && b[0][0] is Some || value_of(b[0][3]) == m && b[0][3] is Some
        || value_of(b[3][0]) == m && b[3][0] is Some || value_of(b[3][3]) == m && b[3][3] is Some {
        m
    } else {
        0
    }
}

/// The value of a cell, zero when it is empty.
fn cell_value(c: Option<u32>) -> (v: u32)
    ensures
        v == value_of(c),
{
    match c {
        Some(v) => v,
        None => 0,
    }
}

/// The monotonicity of one line.
fn monotonicity_of_line(l: [Option<u32>; 4]) -> (m: u32)
    ensures
        m == line_monotonicity(l@),
        m <= 3,
{
    let mut inc: u32 = 0;
    let mut dec: u32 = 0;
    let mut x: usize = 0;
    while x < 3
        invariant
            x <= 3,
            inc + dec <= x,
            inc - dec == (if x >= 1 { trend(l@[0], l@[1]) } else { 0 }) + (if x >= 2 { trend(l@[1], l@[2]) } else { 0 }) + (if x >= 3 { trend(l@[2], l@[3]) } else { 0 }),
        decreases 3 - x,
    {
        let left = cell_value(l[x]);
        let right = cell_value(l[x + 1]);
        if left > 0 && right > 0 {
            if left <= right {
                inc = inc + 1;
            } else {
                dec = dec + 1;
            }
        }
        x = x + 1;
    }
    if inc >= dec {
        inc - dec
    } else {
        dec - inc
    }
}

/// The summed neighbour differences of one line.
fn smoothness_of_line(l: [Option<u32>; 4]) -> (s: u64)
    ensures
        s == line_smoothness(l@),
        s <= 3 * (u32::MAX as int),
{
    let mut total: u64 = 0;
    let mut x: usize = 0;
    while x < 3
        invariant
            x <= 3,
            total <= x * (u32::MAX as int),
            total == (if x >= 1 { gap(l@[0], l@[1]) } else { 0 }) + (if x >= 2 { gap(l@[1], l@[2]) } else { 0 }) + (if x >= 3 { gap(l@[2], l@[3]) } else { 0 }),
        decreases 3 - x,
    {
        let left = cell_value(l[x]);
        let right = cell_value(l[x + 1]);
        if left > 0 && right > 0 {
            if left >= right {
                total = total + (left - right) as u64;
            } else {
                total = total + (right - left) as u64;
            }
        }
        x = x + 1;
    }
    total
}


/// The four directions in the order in which moves are tried.
pub open spec fn move_order() -> Seq<Direction> {
    seq![Direction::Left, Direction::Right, Direction::Up, Direction::Down]
}

/// The directions among the first `k` of `move_order()` whose move changes
/// the board, in that order.
pub open spec fn moving_before(b: Seq<Seq<Option<u32>>>, k: int) -> Seq<Direction>
    decreases k,
{
    if k <= 0 {
        seq![]
    } else {
        let p = moving_before(b, k - 1);
        let d = move_order()[k - 1];
        if after_move(b, d) != b {
            p.push(d)
        } else {
            p
        }
    }
}

/// The directions whose move changes the board, in the order Left, Right,
/// Up, Down.
pub open spec fn moving_directions(b: Seq<Seq<Option<u32>>>) -> Seq<Direction> {
    moving_before(b, 4)
}

/// Every direction can be moved without leaving the `u32` range.
pub open spec fn all_moves_fit(b: Seq<Seq<Option<u32>>>) -> bool {
    forall|d: Direction| #[trigger] move_fits(b, d)
}

/// Whether two lines hold the same cells.
fn same_line(a: [Option<u32>; 4], b: [Option<u32>; 4]) -> (r: bool)
    ensures
        r == (a@ == b@),
{
    let mut x: usize = 0;
    while x < 4
        invariant
            x <= 4,
            forall|k: int| 0 <= k < x ==> a@[k] == b@[k],
        decreases 4 - x,
    {
        let eq = match (a[x], b[x]) {
            (Some(u), Some(v)) => u == v,
            (None, None) => true,
            _ => false,
        };
        if !eq {
            assert(a@[x as int] != b@[x as int]);
            return false;
        }
        x = x + 1;
    }
    assert(a@ =~= b@);
    true
}

/// The 4x4 grid of the game: each cell is empty or holds a tile value.
#[derive(Clone, Copy)]
pub struct Grid {
    cells: [[Option<u32>; 4]; 4],
}

impl View for Grid {
    type V = Seq<Seq<Option<u32>>>;

    closed spec fn view(&self) -> Seq<Seq<Option<u32>>> {
        Seq::new(4, |y: int| self.cells@[y]@)
    }
}

impl Grid {
    /// The view of every grid is a 4x4 board.
    pub proof fn lemma_view_is_board(&self)
        ensures
            is_board(self@),
    {
    }

    /// An empty grid.
    pub fn new() -> (g: Grid)
        ensures
            is_board(g@),
            forall|y: int, x: int| 0 <= y < 4 && 0 <= x < 4 ==> #[trigger] g@[y][x] == None::<u32>,
    {
        Grid { cells: [[None, None, None, None], [None, None, None, None], [None, None, None, None], [None, None, None, None]] }
    }

    /// Pushes every row toward its start (`back == false`) or its end.
    fn move_rows(&mut self, back: bool) -> (moved: bool)
        requires
            rows_fit(old(self)@, back),
        ensures
            final(self)@ == slide_rows(old(self)@, back),
            moved == (final(self)@ != old(self)@),
    {
        let ghost before = self@;
        let mut moved = false;
        let mut y: usize = 0;
        while y < 4
            invariant
                y <= 4,
                before == old(self)@,
                rows_fit(before, back),
                forall|k: int| 0 <= k < y ==> #[trigger] self@[k] == slide(before[k], back),
                forall|k: int| y <= k < 4 ==> #[trigger] self@[k] == before[k],
                moved == exists|k: int| 0 <= k < y && #[trigger] self@[k] != before[k],
            decreases 4 - y,
        {
            let current = self.cells[y];
            assert(self@[y as int] == before[y as int]);
            assert(current@ == before[y as int]);
            assert(line_fits(before[y as int], back));
            let row = slide_line(current, back).unwrap();
            let changed = !same_line(row, current);
            let ghost old_moved = moved;
            let ghost prev = self@;
            self.cells[y] = row;
            assert(forall|k: int| 0 <= k < 4 && k != y ==> self@[k] == prev[k]);
            if changed {
                moved = true;
            }
            assert(self@[y as int] == row@);
            assert forall|k: int| 0 <= k <= y implies #[trigger] self@[k] == slide(before[k], back) by {
                if k < y {
                    assert(prev[k] == slide(before[k], back));
                }
            }
            assert forall|k: int| y < k < 4 implies #[trigger] self@[k] == before[k] by {
                assert(prev[k] == before[k]);
            }
            proof {
                if changed {
                    assert(self@[y as int] != before[y as int]);
                } else if old_moved {
                    let k = choose|k: int| 0 <= k < y && #[trigger] prev[k] != before[k];
                    assert(self@[k] != before[k]);
                } else {
                    assert forall|k: int| 0 <= k <= y implies #[trigger] self@[k] == before[k] by {
                        if k < y {
                            assert(prev[k] == before[k]);
                        }
                    }
                }
            }
            y = y + 1;
        }
        assert(self@ =~= slide_rows(before, back));
        if !moved {
            assert(self@ =~= before);
        }
        moved
    }

    /// Pushes every column toward its top (`back == false`) or its bottom.
    fn move_columns(&mut self, back: bool) -> (moved: bool)
        requires
            rows_fit(transpose(old(self)@), back),
        ensures
            final(self)@ == slide_columns(old(self)@, back),
            moved == (final(self)@ != old(self)@),
    {
        let ghost before = self@;
        let mut moved = false;
        let mut x: usize = 0;
        while x < 4
            invariant
                x <= 4,
                before == old(self)@,
                rows_fit(transpose(before), back),
                forall|y: int, k: int|
                    0 <= y < 4 && 0 <= k < x ==> #[trigger] self@[y][k] == slide(
                        column(before, k),
                        back,
                    )[y],
                forall|y: int, k: int| 0 <= y < 4 && x <= k < 4 ==> #[trigger] self@[y][k] == before[y][k],
                moved == exists|y: int, k: int|
                    0 <= y < 4 && 0 <= k < x && #[trigger] self@[y][k] != before[y][k],
            decreases 4 - x,
        {
            let current: [Option<u32>; 4] = [
                self.cells[0][x],
                self.cells[1][x],
                self.cells[2][x],
                self.cells[3][x],
            ];
            let ghost prev = self@;
            assert(current@ =~= column(before, x as int)) by {
                assert(self@[0][x as int] == before[0][x as int]);
                assert(self@[1][x as int] == before[1][x as int]);
                assert(self@[2][x as int] == before[2][x as int]);
                assert(self@[3][x as int] == before[3][x as int]);
            }
            assert(transpose(before)[x as int] == column(before, x as int));
            assert(line_fits(transpose(before)[x as int], back));
            let col = slide_line(current, back).unwrap();
            let changed = !same_line(col, current);
            let ghost old_moved = moved;
            let mut y: usize = 0;
            while y < 4
                invariant
                    y <= 4,
                    x < 4,
                    forall|j: int, k: int|
                        0 <= j < 4 && 0 <= k < 4 && k != x ==> #[trigger] self@[j][k] == prev[j][k],
                    forall|j: int| 0 <= j < y ==> #[trigger] self@[j][x as int] == col@[j],
                    forall|j: int| y <= j < 4 ==> #[trigger] self@[j][x as int] == prev[j][x as int],
                decreases 4 - y,
            {
                let ghost mid = self@;
                self.cells[y][x] = col[y];
                assert(forall|j: int, k: int|
                    0 <= j < 4 && 0 <= k < 4 && (j != y || k != x) ==> #[trigger] self@[j][k] == mid[j][k]);
                y = y + 1;
            }
            if changed {
                moved = true;
            }
            proof {
                assert forall|j: int, k: int| 0 <= j < 4 && 0 <= k <= x implies #[trigger] self@[j][k]
                    == slide(column(before, k), back)[j] by {
                    if k < x {
                        assert(prev[j][k] == slide(column(before, k), back)[j]);
                    }
                }
                assert forall|j: int, k: int| 0 <= j < 4 && x < k < 4 implies #[trigger] self@[j][k]
                    == before[j][k] by {
                    assert(prev[j][k] == before[j][k]);
                }
                if changed {
                    if forall|j: int| 0 <= j < 4 ==> col@[j] == current@[j] {
                        assert(col@ =~= current@);
                    }
                    let j = choose|j: int| 0 <= j < 4 && col@[j] != current@[j];
                    assert(self@[j][x as int] != before[j][x as int]);
                } else if old_moved {
                    let (j, k) = choose|j: int, k: int|
                        0 <= j < 4 && 0 <= k < x && #[trigger] prev[j][k] != before[j][k];
                    assert(self@[j][k] != before[j][k]);
                } else {
                    assert forall|j: int, k: int| 0 <= j < 4 && 0 <= k <= x implies #[trigger] self@[j][k]
                        == before[j][k] by {
                        if k < x {
                            assert(prev[j][k] == before[j][k]);
                        } else {
                            assert(col@[j] == current@[j]);
                        }
                    }
                }
            }
            x = x + 1;
        }
        proof {
            let target = slide_columns(before, back);
            assert forall|y: int| 0 <= y < 4 implies #[trigger] self@[y] =~= target[y] by {
                assert forall|k: int| 0 <= k < 4 implies self@[y][k] == target[y][k] by {
                    assert(transpose(before)[k] == column(before, k));
                    assert(slide_rows(transpose(before), back)[k] == slide(column(before, k), back));
                }
            }
            assert(self@ =~= target);
            if !moved {
                assert forall|y: int| 0 <= y < 4 implies #[trigger] self@[y] =~= before[y] by {
                    assert forall|k: int| 0 <= k < 4 implies self@[y][k] == before[y][k] by {
                        assert(!(self@[y][k] != before[y][k]));
                    }
                }
                assert(self@ =~= before);
            } else {
                let (j, k) = choose|j: int, k: int|
                    0 <= j < 4 && 0 <= k < 4 && #[trigger] self@[j][k] != before[j][k];
                assert(self@[j] != before[j]);
            }
        }
        moved
    }

    fn move_left(&mut self) -> (moved: bool)
        requires
            move_fits(old(self)@, Direction::Left),
        ensures
            final(self)@ == after_move(old(self)@, Direction::Left),
            moved == (final(self)@ != old(self)@),
    {
        self.move_rows(false)
    }

    fn move_right(&mut self) -> (moved: bool)
        requires
            move_fits(old(self)@, Direction::Right),
        ensures
            final(self)@ == after_move(old(self)@, Direction::Right),
            moved == (final(self)@ != old(self)@),
    {
        self.move_rows(true)
    }

    fn move_up(&mut self) -> (moved: bool)
        requires
            move_fits(old(self)@, Direction::Up),
        ensures
            final(self)@ == after_move(old(self)@, Direction::Up),
            moved == (final(self)@ != old(self)@),
    {
        self.move_columns(false)
    }

    fn move_down(&mut self) -> (moved: bool)
        requires
            move_fits(old(self)@, Direction::Down),
        ensures
            final(self)@ == after_move(old(self)@, Direction::Down),
            moved == (final(self)@ != old(self)@),
    {
        self.move_columns(true)
    }

    /// Moves the tiles in direction `dir`; returns whether any cell changed.
    /// A merge whose value would leave the `u32` range overflows, so such a
    /// move is excluded (see `move_fits` and `can_apply`).
    pub fn apply_move(&mut self, dir: Direction) -> (moved: bool)
        requires
            move_fits(old(self)@, dir),
        ensures
            final(self)@ == after_move(old(self)@, dir),
            moved == (final(self)@ != old(self)@),
    {
        match dir {
            Direction::Left => self.move_left(),
            Direction::Right => self.move_right(),
            Direction::Up => self.move_up(),
            Direction::Down => self.move_down(),
        }
    }

    /// Whether a move in direction `dir` keeps every merged value in the `u32`
    /// range, which `apply_move` requires.
    pub fn can_apply(&self, dir: Direction) -> (r: bool)
        ensures
            r == move_fits(self@, dir),
    {
        let back = match dir {
            Direction::Left | Direction::Up => false,
            Direction::Right | Direction::Down => true,
        };
        let by_columns = match dir {
            Direction::Up | Direction::Down => true,
            Direction::Left | Direction::Right => false,
        };
        let ghost lines = if by_columns { transpose(self@) } else { self@ };
        assert(move_fits(self@, dir) == rows_fit(lines, back));
        let mut i: usize = 0;
        while i < 4
            invariant
                i <= 4,
                lines == (if by_columns { transpose(self@) } else { self@ }),
                move_fits(self@, dir) == rows_fit(lines, back),
                forall|k: int| 0 <= k < i ==> #[trigger] line_fits(lines[k], back),
            decreases 4 - i,
        {
            let line: [Option<u32>; 4] = if by_columns {
                [self.cells[0][i], self.cells[1][i], self.cells[2][i], self.cells[3][i]]
            } else {
                self.cells[i]
            };
            assert(line@ =~= lines[i as int]);
            if slide_line(line, back).is_none() {
                assert(!line_fits(lines[i as int], back));
                return false;
            }
            i = i + 1;
        }
        true
    }

    /// The contents of the cell in column `x`, row `y`.
    pub fn cell(&self, x: usize, y: usize) -> (c: Option<u32>)
        requires
            x < 4,
            y < 4,
        ensures
            c == self@[y as int][x as int],
    {
        self.cells[y][x]
    }

    /// The grid with `value` placed in column `x`, row `y`.
    pub fn with_tile(&self, x: usize, y: usize, value: u32) -> (g: Grid)
        requires
            x < 4,
            y < 4,
        ensures
            g@ == self@.update(y as int, self@[y as int].update(x as int, Some(value))),
    {
        let mut g = *self;
        g.cells[y][x] = Some(value);
        assert(g@ =~= self@.update(y as int, self@[y as int].update(x as int, Some(value))));
        g
    }

    /// A grid holding the tiles `(x, y, value)`; tiles outside the grid are
    /// ignored, and a later tile on the same cell replaces an earlier one.
    pub fn from_tiles(tiles: &[(i32, i32, u32)]) -> (g: Grid)
        ensures
            g@ == place_tiles(tiles@),
    {
        let mut grid = Grid::new();
        assert forall|y: int| 0 <= y < 4 implies #[trigger] grid@[y] =~= empty_board()[y] by {
            assert(grid@[y][0] == None::<u32>);
        }
        assert(grid@ =~= empty_board());
        let mut i: usize = 0;
        while i < tiles.len()
            invariant
                i <= tiles@.len(),
                grid@ == place_tiles(tiles@.take(i as int)),
            decreases tiles@.len() - i,
        {
            let (x, y, score) = tiles[i];
            assert(tiles@.take(i + 1).drop_last() =~= tiles@.take(i as int));
            if x >= 0 && x < 4 && y >= 0 && y < 4 {
                grid = grid.with_tile(x as usize, y as usize, score);
            }
            i = i + 1;
        }
        assert(tiles@.take(tiles@.len() as int) =~= tiles@);
        grid
    }

    /// The empty cells as `(x, y)`, row by row from the top, left to right.
    pub fn get_empty_cells(&self) -> (r: Vec<(usize, usize)>)
        ensures
            r@ == empty_cells(self@),
    {
        let mut empty: Vec<(usize, usize)> = Vec::new();
        let mut y: usize = 0;
        while y < 4
            invariant
                y <= 4,
                empty@ == empties_before(self@, 4 * y),
            decreases 4 - y,
        {
            let mut x: usize = 0;
            while x < 4
                invariant
                    x <= 4,
                    y < 4,
                    empty@ == empties_before(self@, 4 * y + x),
                decreases 4 - x,
            {
                assert((4 * y + x) / 4 == y && (4 * y + x) % 4 == x);
                if self.cells[y][x].is_none() {
                    empty.push((x, y));
                }
                x = x + 1;
            }
            y = y + 1;
        }
        empty
    }

    /// Whether the game can go on: some cell is empty, or two horizontally
    /// or vertically adjacent cells hold the same contents.
    pub fn can_move(&self) -> (r: bool)
        ensures
            r == movable(self@),
    {
        proof {
            lemma_has_empty_cells(self@);
        }
        if self.get_empty_cells().len() > 0 {
            return true;
        }
        let mut y: usize = 0;
        while y < 4
            invariant
                y <= 4,
                forall|j: int, i: int| 0 <= j < y && 0 <= i < 3 ==> #[trigger] self@[j][i] != self@[j][i + 1],
            decreases 4 - y,
        {
            let mut x: usize = 0;
            while x < 3
                invariant
                    x <= 3,
                    y < 4,
                    forall|j: int, i: int| 0 <= j < y && 0 <= i < 3 ==> #[trigger] self@[j][i] != self@[j][i + 1],
                    forall|i: int| 0 <= i < x ==> #[trigger] self@[y as int][i] != self@[y as int][i + 1],
                decreases 3 - x,
            {
                if self.cells[y][x] == self.cells[y][x + 1] {
                    assert(self@[y as int][x as int] == self@[y as int][x + 1]);
                    assert(has_equal_neighbours(self@));
                    return true;
                }
                x = x + 1;
            }
            y = y + 1;
        }
        let mut x: usize = 0;
        while x < 4
            invariant
                x <= 4,
                forall|j: int, i: int| 0 <= j < 3 && 0 <= i < x ==> #[trigger] self@[j][i] != self@[j + 1][i],
            decreases 4 - x,
        {
            let mut y: usize = 0;
            while y < 3
                invariant
                    y <= 3,
                    x < 4,
                    forall|j: int, i: int| 0 <= j < 3 && 0 <= i < x ==> #[trigger] self@[j][i] != self@[j + 1][i],
                    forall|j: int| 0 <= j < y ==> #[trigger] self@[j][x as int] != self@[j + 1][x as int],
                decreases 3 - y,
            {
                if self.cells[y][x] == self.cells[y + 1][x] {
                    assert(self@[y as int][x as int] == self@[y + 1][x as int]);
                    assert(has_equal_neighbours(self@));
                    return true;
                }
                y = y + 1;
            }
            x = x + 1;
        }
        false
    }

    /// Row `y` as a line, left to right.
    fn row(&self, y: usize) -> (l: [Option<u32>; 4])
        requires
            y < 4,
        ensures
            l@ == self@[y as int],
    {
        self.cells[y]
    }

    /// Column `x` as a line, top to bottom.
    fn column(&self, x: usize) -> (l: [Option<u32>; 4])
        requires
            x < 4,
        ensures
            l@ == column(self@, x as int),
    {
        let l = [self.cells[0][x], self.cells[1][x], self.cells[2][x], self.cells[3][x]];
        assert(l@ =~= column(self@, x as int));
        l
    }

    /// The largest tile value, zero when the grid is empty.
    pub fn get_max_tile(&self) -> (m: u32)
        ensures
            m == max_tile(self@),
    {
        let mut max: u32 = 0;
        let mut y: usize = 0;
        while y < 4
            invariant
                y <= 4,
                max == max_before(self@, 4 * y),
            decreases 4 - y,
        {
            let mut x: usize = 0;
            while x < 4
                invariant
                    x <= 4,
                    y < 4,
                    max == max_before(self@, 4 * y + x),
                decreases 4 - x,
            {
                assert((4 * y + x) / 4 == y && (4 * y + x) % 4 == x);
                if let Some(val) = self.cells[y][x] {
                    if val > max {
                        max = val;
                    }
                }
                x = x + 1;
            }
            y = y + 1;
        }
        max
    }

    /// How one-directional the rows and columns are: for each line, the
    /// number of non-decreasing positive neighbour pairs minus the number of
    /// decreasing ones, taken absolutely, summed over all eight lines.
    pub fn calculate_monotonicity(&self) -> (m: u32)
        ensures
            m == monotonicity(self@),
    {
        let mut total: u32 = 0;
        total = total + monotonicity_of_line(self.row(0));
        total = total + monotonicity_of_line(self.row(1));
        total = total + monotonicity_of_line(self.row(2));
        total = total + monotonicity_of_line(self.row(3));
        total = total + monotonicity_of_line(self.column(0));
        total = total + monotonicity_of_line(self.column(1));
        total = total + monotonicity_of_line(self.column(2));
        total = total + monotonicity_of_line(self.column(3));
        total
    }

    /// The summed differences between positive neighbours of all rows and
    /// columns.
    pub fn calculate_smoothness(&self) -> (s: u64)
        ensures
            s == smoothness(self@),
    {
        let mut total: u64 = 0;
        total = total + smoothness_of_line(self.row(0));
        total = total + smoothness_of_line(self.row(1));
        total = total + smoothness_of_line(self.row(2));
        total = total + smoothness_of_line(self.row(3));
        total = total + smoothness_of_line(self.column(0));
        total = total + smoothness_of_line(self.column(1));
        total = total + smoothness_of_line(self.column(2));
        total = total + smoothness_of_line(self.column(3));
        total
    }

    /// The largest tile when it stands in one of the four corners, else zero.
    pub fn calculate_corner_bonus(&self) -> (c: u32)
        ensures
            c == corner_bonus(self@),
    {
        let max = self.get_max_tile();
        if max == 0 {
            return 0;
        }
        let corners = [self.cells[0][0], self.cells[0][3], self.cells[3][0], self.cells[3][3]];
        let mut i: usize = 0;
        while i < 4
            invariant
                i <= 4,
                max == max_tile(self@),
                max != 0,
                corners@ == seq![self@[0][0], self@[0][3], self@[3][0], self@[3][3]],
                forall|k: int| 0 <= k < i ==> #[trigger] corners@[k] != Some(max),
            decreases 4 - i,
        {
            if corners[i] == Some(max) {
                return max;
            }
            i = i + 1;
        }
        0
    }

    /// The moves that change the grid, in the order Left, Right, Up, Down,
    /// each with the grid it leads to.
    pub fn successors(&self) -> (r: Vec<(Direction, Grid)>)
        requires
            all_moves_fit(self@),
        ensures
            r@.len() == moving_directions(self@).len(),
            forall|i: int|
                0 <= i < r@.len() ==> (#[trigger] r@[i]).0 == moving_directions(self@)[i] && r@[i].1@
                    == after_move(self@, r@[i].0),
    {
        let order = [Direction::Left, Direction::Right, Direction::Up, Direction::Down];
        let mut r: Vec<(Direction, Grid)> = Vec::new();
        let mut i: usize = 0;
        while i < 4
            invariant
                i <= 4,
                order@ == move_order(),
                all_moves_fit(self@),
                r@.len() == moving_before(self@, i as int).len(),
                forall|k: int|
                    0 <= k < r@.len() ==> (#[trigger] r@[k]).0 == moving_before(self@, i as int)[k]
                        && r@[k].1@ == after_move(self@, r@[k].0),
            decreases 4 - i,
        {
            let dir = order[i];
            let mut g = *self;
            assert(move_fits(self@, dir));
            if g.apply_move(dir) {
                r.push((dir, g));
            }
            i = i + 1;
        }
        r
    }
}

// ---------------------------------------------------------------------------
// Laws of the moves
// ---------------------------------------------------------------------------

/// The sum of a sequence of integers.
pub open spec fn total(s: Seq<int>) -> int
    decreases s.len(),
{
    if s.len() == 0 {
        0
    } else {
        s[0] + total(s.skip(1))
    }
}

/// The sum of the tile values of a line.
pub open spec fn line_total(l: Seq<Option<u32>>) -> int {
    total(l.map_values(|c: Option<u32>| value_of(c)))
}

/// The sum of the tile values of a board.
pub open spec fn board_total(b: Seq<Seq<Option<u32>>>) -> int {
    line_total(b[0]) + line_total(b[1]) + line_total(b[2]) + line_total(b[3])
}

proof fn lemma_total_concat(a: Seq<int>, b: Seq<int>)
    ensures
        total(a + b) == total(a) + total(b),
    decreases a.len(),
{
    if a.len() > 0 {
        assert((a + b).skip(1) =~= a.skip(1) + b);
        lemma_total_concat(a.skip(1), b);
    } else {
        assert(a + b =~= b);
    }
}

proof fn lemma_total_push(a: Seq<int>, v: int)
    ensures
        total(a.push(v)) == total(a) + v,
{
    assert(a.push(v) =~= a + seq![v]);
    lemma_total_concat(a, seq![v]);
    assert(seq![v].skip(1) =~= Seq::<int>::empty());
    assert(total(seq![v]) == v + total(seq![v].skip(1)));
}

proof fn lemma_total_four(s: Seq<int>)
    requires
        s.len() == 4,
    ensures
        total(s) == s[0] + s[1] + s[2] + s[3],
{
    reveal_with_fuel(total, 5);
    assert(s.skip(1).skip(1).skip(1).skip(1) =~= Seq::<int>::empty());
    assert(s.skip(1)[0] == s[1]);
    assert(s.skip(1).skip(1)[0] == s[2]);
    assert(s.skip(1).skip(1).skip(1)[0] == s[3]);
}

proof fn lemma_line_total_four(l: Seq<Option<u32>>)
    requires
        l.len() == 4,
    ensures
        line_total(l) == value_of(l[0]) + value_of(l[1]) + value_of(l[2]) + value_of(l[3]),
{
    lemma_total_four(l.map_values(|c: Option<u32>| value_of(c)));
}

proof fn lemma_compress_total(l: Seq<Option<u32>>)
    ensures
        total(ints(compress(l))) == line_total(l),
    decreases l.len(),
{
    if l.len() > 0 {
        lemma_compress_total(l.drop_last());
        let vals = l.map_values(|c: Option<u32>| value_of(c));
        assert(vals =~= l.drop_last().map_values(|c: Option<u32>| value_of(c)).push(value_of(l.last())));
        lemma_total_push(l.drop_last().map_values(|c: Option<u32>| value_of(c)), value_of(l.last()));
        let rest = compress(l.drop_last());
        match l.last() {
            Some(v) => {
                assert(ints(rest.push(v)) =~= ints(rest).push(v as int));
                lemma_total_push(ints(rest), v as int);
            },
            None => {},
        }
    } else {
        assert(ints(compress(l)) =~= Seq::<int>::empty());
        assert(l.map_values(|c: Option<u32>| value_of(c)) =~= Seq::<int>::empty());
    }
}

proof fn lemma_merge_front_total(s: Seq<u32>)
    ensures
        total(merge_front(s)) == total(ints(s)),
        forall|i: int| 0 <= i < merge_front(s).len() ==> merge_front(s)[i] >= 0,
    decreases s.len(),
{
    if s.len() == 0 {
        assert(ints(s) =~= Seq::<int>::empty());
    } else if s.len() >= 2 && s[0] == s[1] {
        lemma_merge_front_total(s.skip(2));
        assert(ints(s).skip(1).skip(1) =~= ints(s.skip(2)));
        assert(total(ints(s)) == s[0] + total(ints(s).skip(1)));
        assert(total(ints(s).skip(1)) == s[1] + total(ints(s).skip(1).skip(1)));
        let m = merge_front(s);
        assert(m.skip(1) =~= merge_front(s.skip(2)));
        assert forall|i: int| 0 <= i < m.len() implies m[i] >= 0 by {
            if i > 0 {
                assert(m[i] == merge_front(s.skip(2))[i - 1]);
            }
        }
    } else {
        lemma_merge_front_total(s.skip(1));
        assert(ints(s).skip(1) =~= ints(s.skip(1)));
        assert(total(ints(s)) == s[0] + total(ints(s).skip(1)));
        let m = merge_front(s);
        assert(m.skip(1) =~= merge_front(s.skip(1)));
        assert forall|i: int| 0 <= i < m.len() implies m[i] >= 0 by {
            if i > 0 {
                assert(m[i] == merge_front(s.skip(1))[i - 1]);
            }
        }
    }
}

proof fn lemma_merge_back_total(s: Seq<u32>)
    ensures
        total(merge_back(s)) == total(ints(s)),
        forall|i: int| 0 <= i < merge_back(s).len() ==> merge_back(s)[i] >= 0,
    decreases s.len(),
{
    if s.len() == 0 {
        assert(ints(s) =~= Seq::<int>::empty());
    } else if s.len() >= 2 && s[s.len() - 1] == s[s.len() - 2] {
        let pre = s.take(s.len() - 2);
        lemma_merge_back_total(pre);
        lemma_total_push(merge_back(pre), 2 * s[s.len() - 1]);
        assert(ints(s) =~= ints(pre).push(s[s.len() - 2] as int).push(s[s.len() - 1] as int));
        lemma_total_push(ints(pre), s[s.len() - 2] as int);
        lemma_total_push(ints(pre).push(s[s.len() - 2] as int), s[s.len() - 1] as int);
    } else {
        let pre = s.drop_last();
        lemma_merge_back_total(pre);
        lemma_total_push(merge_back(pre), s[s.len() - 1] as int);
        assert(ints(s) =~= ints(pre).push(s[s.len() - 1] as int));
        lemma_total_push(ints(pre), s[s.len() - 1] as int);
    }
}

proof fn lemma_settle_total(m: Seq<int>)
    requires
        m.len() <= 4,
        fits(m),
        forall|i: int| 0 <= i < m.len() ==> m[i] >= 0,
    ensures
        line_total(settle(m)) == total(m),
{
    let t = settle(m);
    lemma_line_total_four(t);
    let padded = Seq::new(4, |x: int| if x < m.len() { m[x] } else { 0 });
    assert forall|x: int| 0 <= x < 4 implies value_of(#[trigger] t[x]) == padded[x] by {
        if x < m.len() {
            assert(0 <= m[x] <= u32::MAX);
        }
    }
    lemma_total_four(padded);
    assert(padded =~= m + Seq::new((4 - m.len()) as nat, |x: int| 0int));
    lemma_total_concat(m, Seq::new((4 - m.len()) as nat, |x: int| 0int));
    let zeros = Seq::new((4 - m.len()) as nat, |x: int| 0int);
    if zeros.len() > 0 {
        assert(zeros.skip(1) =~= Seq::new((zeros.len() - 1) as nat, |x: int| 0int));
    }
    lemma_total_zeros((4 - m.len()) as nat);
}

proof fn lemma_total_zeros(n: nat)
    ensures
        total(Seq::new(n, |x: int| 0int)) == 0,
    decreases n,
{
    if n > 0 {
        assert(Seq::new(n, |x: int| 0int).skip(1) =~= Seq::new((n - 1) as nat, |x: int| 0int));
        lemma_total_zeros((n - 1) as nat);
    }
}

proof fn lemma_slide_total(l: Seq<Option<u32>>, back: bool)
    requires
        l.len() == 4,
        line_fits(l, back),
    ensures
        line_total(slide(l, back)) == line_total(l),
{
    let c = compress(l);
    lemma_compress_len(l);
    lemma_compress_total(l);
    if back {
        lemma_merge_back_len(c);
        lemma_merge_back_total(c);
        lemma_settle_total(merge_back(c));
    } else {
        lemma_merge_front_len(c);
        lemma_merge_front_total(c);
        lemma_settle_total(merge_front(c));
    }
}

proof fn lemma_transpose_total(b: Seq<Seq<Option<u32>>>)
    requires
        is_board(b),
    ensures
        board_total(transpose(b)) == board_total(b),
{
    let t = transpose(b);
    lemma_line_total_four(b[0]);
    lemma_line_total_four(b[1]);
    lemma_line_total_four(b[2]);
    lemma_line_total_four(b[3]);
    lemma_line_total_four(t[0]);
    lemma_line_total_four(t[1]);
    lemma_line_total_four(t[2]);
    lemma_line_total_four(t[3]);
}

proof fn lemma_slide_rows_total(b: Seq<Seq<Option<u32>>>, back: bool)
    requires
        is_board(b),
        rows_fit(b, back),
    ensures
        board_total(slide_rows(b, back)) == board_total(b),
        is_board(slide_rows(b, back)),
{
    let r = slide_rows(b, back);
    assert(line_fits(b[0], back));
    assert(line_fits(b[1], back));
    assert(line_fits(b[2], back));
    assert(line_fits(b[3], back));
    lemma_slide_total(b[0], back);
    lemma_slide_total(b[1], back);
    lemma_slide_total(b[2], back);
    lemma_slide_total(b[3], back);
}

/// Law: a move never changes the sum of the tile values on the board, since
/// two merged tiles become one tile holding their sum.
pub proof fn lemma_move_preserves_total(b: Seq<Seq<Option<u32>>>, d: Direction)
    requires
        is_board(b),
        move_fits(b, d),
    ensures
        board_total(after_move(b, d)) == board_total(b),
{
    match d {
        Direction::Left => lemma_slide_rows_total(b, false),
        Direction::Right => lemma_slide_rows_total(b, true),
        Direction::Up => {
            lemma_transpose_total(b);
            lemma_slide_rows_total(transpose(b), false);
            lemma_transpose_total(slide_rows(transpose(b), false));
        },
        Direction::Down => {
            lemma_transpose_total(b);
            lemma_slide_rows_total(transpose(b), true);
            lemma_transpose_total(slide_rows(transpose(b), true));
        },
    }
}

/// No cell holds a tile of value zero.
pub open spec fn no_zero_tiles(b: Seq<Seq<Option<u32>>>) -> bool {
    forall|y: int, x: int| 0 <= y < 4 && 0 <= x < 4 ==> #[trigger] b[y][x] != Some(0u32)
}

/// A full line with positive tiles and no two equal neighbours.
spec fn rigid_line(l: Seq<Option<u32>>) -> bool {
    &&& l.len() == 4
    &&& forall|i: int| 0 <= i < 4 ==> #[trigger] l[i] is Some && l[i] != Some(0u32)
    &&& forall|i: int| 0 <= i < 3 ==> #[trigger] l[i] != l[i + 1]
}

proof fn lemma_compress_full(l: Seq<Option<u32>>)
    requires
        forall|i: int| 0 <= i < l.len() ==> #[trigger] l[i] is Some,
    ensures
        compress(l).len() == l.len(),
        forall|i: int| 0 <= i < l.len() ==> Some(#[trigger] compress(l)[i]) == l[i],
    decreases l.len(),
{
    if l.len() > 0 {
        lemma_compress_full(l.drop_last());
    }
}

proof fn lemma_merge_front_distinct(c: Seq<u32>)
    requires
        forall|i: int| 0 <= i < c.len() - 1 ==> #[trigger] c[i] != c[i + 1],
    ensures
        merge_front(c) == ints(c),
    decreases c.len(),
{
    if c.len() > 0 {
        let r = c.skip(1);
        assert forall|i: int| 0 <= i < r.len() - 1 implies #[trigger] r[i] != r[i + 1] by {
            assert(c[i + 1] != c[i + 2]);
        }
        lemma_merge_front_distinct(r);
        if c.len() >= 2 {
            assert(c[0] != c[1]);
        }
        assert(ints(c) =~= seq![c[0] as int] + ints(r));
    } else {
        assert(ints(c) =~= Seq::<int>::empty());
    }
}

proof fn lemma_merge_back_distinct(c: Seq<u32>)
    requires
        forall|i: int| 0 <= i < c.len() - 1 ==> #[trigger] c[i] != c[i + 1],
    ensures
        merge_back(c) == ints(c),
    decreases c.len(),
{
    if c.len() > 0 {
        let r = c.drop_last();
        assert forall|i: int| 0 <= i < r.len() - 1 implies #[trigger] r[i] != r[i + 1] by {
            assert(c[i] != c[i + 1]);
        }
        lemma_merge_back_distinct(r);
        if c.len() >= 2 {
            assert(c[c.len() - 2] != c[c.len() - 1]);
        }
        assert(ints(c) =~= ints(r).push(c[c.len() - 1] as int));
    } else {
        assert(ints(c) =~= Seq::<int>::empty());
    }
}

proof fn lemma_rigid_line_slides_to_itself(l: Seq<Option<u32>>, back: bool)
    requires
        rigid_line(l),
    ensures
        line_fits(l, back),
        slide(l, back) == l,
{
    lemma_compress_full(l);
    let c = compress(l);
    assert forall|i: int| 0 <= i < c.len() - 1 implies #[trigger] c[i] != c[i + 1] by {
        assert(Some(c[i]) == l[i]);
        assert(Some(c[i + 1]) == l[i + 1]);
        assert(l[i] != l[i + 1]);
    }
    lemma_merge_front_distinct(c);
    lemma_merge_back_distinct(c);
    let m = ints(c);
    assert forall|x: int| 0 <= x < 4 implies #[trigger] settle(m)[x] == l[x] by {
        assert(Some(c[x]) == l[x]);
        assert(l[x] != Some(0u32));
    }
    assert(settle(m) =~= l);
}

/// Law: a board with no empty cell, no zero tile and no two equal
/// neighbours (one on which `can_move` is false) is left unchanged by a move
/// in every direction, and every such move stays in the `u32` range.
pub proof fn lemma_stuck_board_is_fixed(b: Seq<Seq<Option<u32>>>, d: Direction)
    requires
        is_board(b),
        no_zero_tiles(b),
        !movable(b),
    ensures
        move_fits(b, d),
        after_move(b, d) == b,
{
    assert forall|y: int| 0 <= y < 4 implies #[trigger] rigid_line(b[y]) by {
        assert forall|i: int| 0 <= i < 4 implies #[trigger] b[y][i] is Some && b[y][i] != Some(0u32) by {
            assert(!(b[y][i] is None));
        }
        assert forall|i: int| 0 <= i < 3 implies #[trigger] b[y][i] != b[y][i + 1] by {
            assert(!(b[y][i] == b[y][i + 1]));
        }
    }
    let t = transpose(b);
    assert forall|x: int| 0 <= x < 4 implies #[trigger] rigid_line(t[x]) by {
        assert forall|i: int| 0 <= i < 4 implies #[trigger] t[x][i] is Some && t[x][i] != Some(0u32) by {
            assert(t[x][i] == b[i][x]);
            assert(!(b[i][x] is None));
        }
        assert forall|i: int| 0 <= i < 3 implies #[trigger] t[x][i] != t[x][i + 1] by {
            assert(t[x][i] == b[i][x]);
            assert(t[x][i + 1] == b[i + 1][x]);
            assert(!(b[i][x] == b[i + 1][x]));
        }
    }
    let back = match d {
        Direction::Left | Direction::Up => false,
        Direction::Right | Direction::Down => true,
    };
    assert forall|y: int| 0 <= y < 4 implies #[trigger] line_fits(b[y], back) by {
        lemma_rigid_line_slides_to_itself(b[y], back);
    }
    assert forall|y: int| 0 <= y < 4 implies #[trigger] slide(b[y], back) == b[y] by {
        lemma_rigid_line_slides_to_itself(b[y], back);
    }
    assert forall|y: int| 0 <= y < 4 implies #[trigger] line_fits(t[y], back) by {
        lemma_rigid_line_slides_to_itself(t[y], back);
    }
    assert forall|y: int| 0 <= y < 4 implies #[trigger] slide(t[y], back) == t[y] by {
        lemma_rigid_line_slides_to_itself(t[y], back);
    }
    assert(slide_rows(b, back) =~= b);
    assert(slide_rows(t, back) =~= t);
    assert forall|y: int| 0 <= y < 4 implies #[trigger] transpose(t)[y] =~= b[y] by {}
    assert(transpose(t) =~= b);
}

/// One for an occupied cell, zero for an empty one.
pub open spec fn occupied(c: Option<u32>) -> int {
    if c is Some {
        1
    } else {
        0
    }
}

/// The number of occupied cells of a line.
pub open spec fn line_tiles(l: Seq<Option<u32>>) -> int {
    total(l.map_values(|c: Option<u32>| occupied(c)))
}

/// The number of occupied cells of a board.
pub open spec fn board_tiles(b: Seq<Seq<Option<u32>>>) -> int {
    line_tiles(b[0]) + line_tiles(b[1]) + line_tiles(b[2]) + line_tiles(b[3])
}

proof fn lemma_compress_tiles(l: Seq<Option<u32>>)
    ensures
        compress(l).len() == line_tiles(l),
    decreases l.len(),
{
    let f = |c: Option<u32>| occupied(c);
    if l.len() > 0 {
        lemma_compress_tiles(l.drop_last());
        assert(l.map_values(f) =~= l.drop_last().map_values(f).push(f(l.last())));
        lemma_total_push(l.drop_last().map_values(f), f(l.last()));
    } else {
        assert(l.map_values(f) =~= Seq::<int>::empty());
    }
}

proof fn lemma_line_tiles_four(l: Seq<Option<u32>>)
    requires
        l.len() == 4,
    ensures
        line_tiles(l) == occupied(l[0]) + occupied(l[1]) + occupied(l[2]) + occupied(l[3]),
{
    lemma_total_four(l.map_values(|c: Option<u32>| occupied(c)));
}

proof fn lemma_settle_tiles(m: Seq<int>)
    requires
        m.len() <= 4,
    ensures
        line_tiles(settle(m)) <= m.len(),
{
    let t = settle(m);
    lemma_line_tiles_four(t);
}

proof fn lemma_slide_tiles(l: Seq<Option<u32>>, back: bool)
    requires
        l.len() == 4,
    ensures
        line_tiles(slide(l, back)) <= line_tiles(l),
{
    let c = compress(l);
    lemma_compress_len(l);
    lemma_compress_tiles(l);
    if back {
        lemma_merge_back_len(c);
        lemma_settle_tiles(merge_back(c));
    } else {
        lemma_merge_front_len(c);
        lemma_settle_tiles(merge_front(c));
    }
}

proof fn lemma_transpose_tiles(b: Seq<Seq<Option<u32>>>)
    requires
        is_board(b),
    ensures
        board_tiles(transpose(b)) == board_tiles(b),
{
    let t = transpose(b);
    lemma_line_tiles_four(b[0]);
    lemma_line_tiles_four(b[1]);
    lemma_line_tiles_four(b[2]);
    lemma_line_tiles_four(b[3]);
    lemma_line_tiles_four(t[0]);
    lemma_line_tiles_four(t[1]);
    lemma_line_tiles_four(t[2]);
    lemma_line_tiles_four(t[3]);
}

proof fn lemma_slide_rows_tiles(b: Seq<Seq<Option<u32>>>, back: bool)
    requires
        is_board(b),
    ensures
        board_tiles(slide_rows(b, back)) <= board_tiles(b),
        is_board(slide_rows(b, back)),
{
    lemma_slide_tiles(b[0], back);
    lemma_slide_tiles(b[1], back);
    lemma_slide_tiles(b[2], back);
    lemma_slide_tiles(b[3], back);
}

/// Law: a move never adds tiles: the number of occupied cells after a move
/// is at most the number before (each merge removes one tile).
pub proof fn lemma_move_never_adds_tiles(b: Seq<Seq<Option<u32>>>, d: Direction)
    requires
        is_board(b),
    ensures
        board_tiles(after_move(b, d)) <= board_tiles(b),
{
    match d {
        Direction::Left => lemma_slide_rows_tiles(b, false),
        Direction::Right => lemma_slide_rows_tiles(b, true),
        Direction::Up => {
            lemma_transpose_tiles(b);
            lemma_slide_rows_tiles(transpose(b), false);
            lemma_transpose_tiles(slide_rows(transpose(b), false));
        },
        Direction::Down => {
            lemma_transpose_tiles(b);
            lemma_slide_rows_tiles(transpose(b), true);
            lemma_transpose_tiles(slide_rows(transpose(b), true));
        },
    }
}

/// The occupied cells of a line come first, the empty ones last.
pub open spec fn packed(l: Seq<Option<u32>>) -> bool {
    forall|i: int, j: int| 0 <= i < j < l.len() && #[trigger] l[i] is None ==> #[trigger] l[j] is None
}

proof fn lemma_compress_positive(l: Seq<Option<u32>>)
    requires
        forall|i: int| 0 <= i < l.len() ==> #[trigger] l[i] != Some(0u32),
    ensures
        forall|i: int| 0 <= i < compress(l).len() ==> #[trigger] compress(l)[i] > 0,
    decreases l.len(),
{
    if l.len() > 0 {
        let p = l.drop_last();
        assert forall|i: int| 0 <= i < p.len() implies #[trigger] p[i] != Some(0u32) by {
            assert(p[i] == l[i]);
        }
        lemma_compress_positive(p);
        assert(l[l.len() - 1] != Some(0u32));
        let c = compress(l);
        assert forall|i: int| 0 <= i < c.len() implies #[trigger] c[i] > 0 by {
            if i < compress(p).len() {
                assert(c[i] == compress(p)[i]);
            }
        }
    }
}

proof fn lemma_merge_front_positive(s: Seq<u32>)
    requires
        forall|i: int| 0 <= i < s.len() ==> #[trigger] s[i] > 0,
    ensures
        forall|i: int| 0 <= i < merge_front(s).len() ==> #[trigger] merge_front(s)[i] > 0,
    decreases s.len(),
{
    if s.len() > 0 {
        let k: int = if s.len() >= 2 && s[0] == s[1] { 2 } else { 1 };
        let r = s.skip(k);
        assert forall|i: int| 0 <= i < r.len() implies #[trigger] r[i] > 0 by {
            assert(r[i] == s[i + k]);
        }
        lemma_merge_front_positive(r);
        let m = merge_front(s);
        assert(m.skip(1) =~= merge_front(r));
        assert forall|i: int| 0 <= i < m.len() implies #[trigger] m[i] > 0 by {
            if i > 0 {
                assert(m[i] == merge_front(r)[i - 1]);
            }
        }
    }
}

proof fn lemma_merge_back_positive(s: Seq<u32>)
    requires
        forall|i: int| 0 <= i < s.len() ==> #[trigger] s[i] > 0,
    ensures
        forall|i: int| 0 <= i < merge_back(s).len() ==> #[trigger] merge_back(s)[i] > 0,
    decreases s.len(),
{
    if s.len() > 0 {
        let k: int = if s.len() >= 2 && s[s.len() - 1] == s[s.len() - 2] { 2 } else { 1 };
        let r = s.take(s.len() - k);
        assert forall|i: int| 0 <= i < r.len() implies #[trigger] r[i] > 0 by {
            assert(r[i] == s[i]);
        }
        lemma_merge_back_positive(r);
        let m = merge_back(s);
        assert forall|i: int| 0 <= i < m.len() implies #[trigger] m[i] > 0 by {
            if i < merge_back(r).len() {
                assert(m[i] == merge_back(r)[i]);
            }
        }
    }
}

proof fn lemma_slide_packed(l: Seq<Option<u32>>, back: bool)
    requires
        l.len() == 4,
        forall|i: int| 0 <= i < 4 ==> #[trigger] l[i] != Some(0u32),
        line_fits(l, back),
    ensures
        packed(slide(l, back)),
        forall|i: int| 0 <= i < 4 ==> #[trigger] slide(l, back)[i] != Some(0u32),
{
    let c = compress(l);
    lemma_compress_len(l);
    lemma_compress_positive(l);
    let m = if back { merge_back(c) } else { merge_front(c) };
    if back {
        lemma_merge_back_len(c);
        lemma_merge_back_positive(c);
    } else {
        lemma_merge_front_len(c);
        lemma_merge_front_positive(c);
    }
    let t = settle(m);
    assert(t == slide(l, back));
    assert forall|i: int| 0 <= i < 4 implies (#[trigger] t[i] is None <==> i >= m.len()) && t[i] != Some(0u32) by {
        if i < m.len() {
            assert(0 < m[i] <= u32::MAX);
        }
    }
}

/// Law: after a move on a board without zero tiles, every line along the
/// move (rows for Left and Right, columns for Up and Down) holds its tiles
/// first and its empty cells last, and no zero tile appears. A move to the
/// Right or Down merges pairs from the far end but also gathers the tiles at
/// the start of the line.
pub proof fn lemma_move_packs_lines(b: Seq<Seq<Option<u32>>>, d: Direction)
    requires
        is_board(b),
        no_zero_tiles(b),
        move_fits(b, d),
    ensures
        no_zero_tiles(after_move(b, d)),
        (d == Direction::Left || d == Direction::Right) ==> forall|y: int|
            0 <= y < 4 ==> packed(#[trigger] after_move(b, d)[y]),
        (d == Direction::Up || d == Direction::Down) ==> forall|x: int|
            0 <= x < 4 ==> packed(#[trigger] column(after_move(b, d), x)),
{
    let back = match d {
        Direction::Left | Direction::Up => false,
        Direction::Right | Direction::Down => true,
    };
    let lines = if d == Direction::Left || d == Direction::Right { b } else { transpose(b) };
    assert(rows_fit(lines, back));
    assert forall|k: int| 0 <= k < 4 implies packed(#[trigger] slide(lines[k], back)) && (forall|i: int|
        0 <= i < 4 ==> #[trigger] slide(lines[k], back)[i] != Some(0u32)) by {
        assert forall|i: int| 0 <= i < 4 implies #[trigger] lines[k][i] != Some(0u32) by {
            if d == Direction::Up || d == Direction::Down {
                assert(lines[k][i] == b[i][k]);
            }
        }
        assert(line_fits(lines[k], back));
        lemma_slide_packed(lines[k], back);
    }
    let a = after_move(b, d);
    if d == Direction::Left || d == Direction::Right {
        assert forall|y: int| 0 <= y < 4 implies packed(#[trigger] a[y]) by {
            assert(a[y] == slide(b[y], back));
        }
        assert forall|y: int, x: int| 0 <= y < 4 && 0 <= x < 4 implies #[trigger] a[y][x] != Some(0u32) by {
            assert(a[y] == slide(b[y], back));
        }
    } else {
        assert forall|x: int| 0 <= x < 4 implies packed(#[trigger] column(a, x)) by {
            assert(column(a, x) =~= slide(lines[x], back));
        }
        assert forall|y: int, x: int| 0 <= y < 4 && 0 <= x < 4 implies #[trigger] a[y][x] != Some(0u32) by {
            assert(a[y][x] == slide(lines[x], back)[y]);
        }
    }
}

/// Law: a move Up treats every column, read from top to bottom, exactly as a
/// move Left treats a row read from left to right, and a move Down as a move
/// Right: the board after a vertical move is the transpose of the
/// transposed board after the matching horizontal move, and either fits in
/// the `u32` range exactly when the other does.
pub proof fn lemma_vertical_moves_act_on_columns(b: Seq<Seq<Option<u32>>>)
    requires
        is_board(b),
    ensures
        after_move(b, Direction::Up) == transpose(after_move(transpose(b), Direction::Left)),
        after_move(b, Direction::Down) == transpose(after_move(transpose(b), Direction::Right)),
        move_fits(b, Direction::Up) == move_fits(transpose(b), Direction::Left),
        move_fits(b, Direction::Down) == move_fits(transpose(b), Direction::Right),
        forall|x: int|
            0 <= x < 4 ==> #[trigger] column(after_move(b, Direction::Up), x) == slide_front(column(b, x)),
        forall|x: int|
            0 <= x < 4 ==> #[trigger] column(after_move(b, Direction::Down), x) == slide_back(column(b, x)),
{
    assert forall|x: int| 0 <= x < 4 implies #[trigger] column(after_move(b, Direction::Up), x)
        == slide_front(column(b, x)) by {
        let r = slide_rows(transpose(b), false);
        assert(r[x] == slide(transpose(b)[x], false));
        assert(column(transpose(r), x) =~= r[x]);
    }
    assert forall|x: int| 0 <= x < 4 implies #[trigger] column(after_move(b, Direction::Down), x)
        == slide_back(column(b, x)) by {
        let r = slide_rows(transpose(b), true);
        assert(r[x] == slide(transpose(b)[x], true));
        assert(column(transpose(r), x) =~= r[x]);
    }
}

proof fn lemma_max_before(b: Seq<Seq<Option<u32>>>, k: int)
    requires
        0 <= k <= 16,
    ensures
        max_before(b, k) >= 0,
        forall|j: int| 0 <= j < k ==> value_of(#[trigger] cell_at(b, j)) <= max_before(b, k),
        max_before(b, k) == 0 || exists|j: int|
            0 <= j < k && #[trigger] cell_at(b, j) is Some && value_of(cell_at(b, j)) == max_before(b, k),
    decreases k,
{
    if k > 0 {
        lemma_max_before(b, k - 1);
    }
}

/// The largest tile is the largest cell value of the board: no cell holds
/// more, and unless it is zero some tile holds exactly it.
proof fn lemma_max_tile(b: Seq<Seq<Option<u32>>>)
    ensures
        max_tile(b) >= 0,
        forall|y: int, x: int| 0 <= y < 4 && 0 <= x < 4 ==> value_of(#[trigger] b[y][x]) <= max_tile(b),
        max_tile(b) == 0 || exists|y: int, x: int|
            0 <= y < 4 && 0 <= x < 4 && #[trigger] b[y][x] is Some && value_of(b[y][x]) == max_tile(b),
{
    lemma_max_before(b, 16);
    assert forall|y: int, x: int| 0 <= y < 4 && 0 <= x < 4 implies value_of(#[trigger] b[y][x]) <= max_tile(b) by {
        assert((4 * y + x) / 4 == y && (4 * y + x) % 4 == x);
        assert(value_of(cell_at(b, 4 * y + x)) <= max_tile(b));
    }
    if max_tile(b) != 0 {
        let j = choose|j: int|
            0 <= j < 16 && #[trigger] cell_at(b, j) is Some && value_of(cell_at(b, j)) == max_tile(b);
        assert(b[j / 4][j % 4] is Some);
    }
}

/// The board mirrored left to right.
pub open spec fn mirror_columns(b: Seq<Seq<Option<u32>>>) -> Seq<Seq<Option<u32>>> {
    Seq::new(4, |y: int| Seq::new(4, |x: int| b[y][3 - x]))
}

/// The board mirrored top to bottom.
pub open spec fn mirror_rows(b: Seq<Seq<Option<u32>>>) -> Seq<Seq<Option<u32>>> {
    Seq::new(4, |y: int| b[3 - y])
}

/// Law: the corner bonus of a board is its largest tile value when some
/// corner cell, top-left, top-right, bottom-left or bottom-right, holds a
/// tile of that value, and zero otherwise; in particular it is zero or the
/// largest tile, and mirroring the board left to right or top to bottom
/// does not change it.
pub proof fn lemma_corner_bonus(b: Seq<Seq<Option<u32>>>)
    requires
        is_board(b),
    ensures
        ({
            let m = max_tile(b);
            let in_corner = exists|y: int, x: int|
                (y == 0 || y == 3) && (x == 0 || x == 3) && #[trigger] b[y][x] is Some && value_of(b[y][x]) == m
                    && m > 0;
            corner_bonus(b) == if in_corner {
                m
            } else {
                0
            }
        }),
        corner_bonus(b) == 0 || corner_bonus(b) == max_tile(b),
        corner_bonus(mirror_columns(b)) == corner_bonus(b),
        corner_bonus(mirror_rows(b)) == corner_bonus(b),
{
    let mc = mirror_columns(b);
    let mr = mirror_rows(b);
    lemma_max_tile(b);
    lemma_max_tile(mc);
    lemma_max_tile(mr);
    // The mirrored boards hold the same values, so their largest tile is the same.
    if max_tile(mc) != 0 {
        let (y, x) = choose|y: int, x: int|
            0 <= y < 4 && 0 <= x < 4 && #[trigger] mc[y][x] is Some && value_of(mc[y][x]) == max_tile(mc);
        assert(mc[y][x] == b[y][3 - x]);
        assert(value_of(b[y][3 - x]) <= max_tile(b));
    }
    if max_tile(b) != 0 {
        let (y, x) = choose|y: int, x: int|
            0 <= y < 4 && 0 <= x < 4 && #[trigger] b[y][x] is Some && value_of(b[y][x]) == max_tile(b);
        assert(mc[y][3 - x] == b[y][x]);
        assert(value_of(mc[y][3 - x]) <= max_tile(mc));
        assert(mr[3 - y][x] == b[y][x]);
        assert(value_of(mr[3 - y][x]) <= max_tile(mr));
    }
    if max_tile(mr) != 0 {
        let (y, x) = choose|y: int, x: int|
            0 <= y < 4 && 0 <= x < 4 && #[trigger] mr[y][x] is Some && value_of(mr[y][x]) == max_tile(mr);
        assert(mr[y][x] == b[3 - y][x]);
        assert(value_of(b[3 - y][x]) <= max_tile(b));
    }
    assert(max_tile(mc) == max_tile(b));
    assert(max_tile(mr) == max_tile(b));
    assert(mc[0][0] == b[0][3] && mc[0][3] == b[0][0] && mc[3][0] == b[3][3] && mc[3][3] == b[3][0]);
    assert(mr[0][0] == b[3][0] && mr[0][3] == b[3][3] && mr[3][0] == b[0][0] && mr[3][3] == b[0][3]);
    let m = max_tile(b);
    let in_corner = exists|y: int, x: int|
        (y == 0 || y == 3) && (x == 0 || x == 3) && #[trigger] b[y][x] is Some && value_of(b[y][x]) == m && m > 0;
    if in_corner {
        let (y, x) = choose|y: int, x: int|
            (y == 0 || y == 3) && (x == 0 || x == 3) && #[trigger] b[y][x] is Some && value_of(b[y][x]) == m && m > 0;
        assert(corner_bonus(b) == m);
    } else {
        assert(!(b[0][0] is Some && value_of(b[0][0]) == m && m > 0));
        assert(!(b[0][3] is Some && value_of(b[0][3]) == m && m > 0));
        assert(!(b[3][0] is Some && value_of(b[3][0]) == m && m > 0));
        assert(!(b[3][3] is Some && value_of(b[3][3]) == m && m > 0));
    }
}

proof fn lemma_merge_front_shorter(s: Seq<u32>, i: int)
    requires
        0 <= i < s.len() - 1,
        s[i] == s[i + 1],
    ensures
        merge_front(s).len() < s.len(),
    decreases s.len(),
{
    if s[0] == s[1] {
        lemma_merge_front_len(s.skip(2));
    } else {
        assert(s.skip(1)[i - 1] == s[i] && s.skip(1)[i] == s[i + 1]);
        lemma_merge_front_shorter(s.skip(1), i - 1);
    }
}

/// A full line with two equal neighbours ends with an empty cell after a
/// push toward its start.
proof fn lemma_full_line_with_pair_changes(l: Seq<Option<u32>>, x: int)
    requires
        l.len() == 4,
        forall|i: int| 0 <= i < 4 ==> #[trigger] l[i] is Some,
        0 <= x < 3,
        l[x] == l[x + 1],
    ensures
        slide_front(l)[3] is None,
{
    lemma_compress_full(l);
    let c = compress(l);
    assert(Some(c[x]) == l[x] && Some(c[x + 1]) == l[x + 1]);
    lemma_merge_front_shorter(c, x);
}

/// Law: on a full board without zero tiles, the game can go on (`can_move`)
/// exactly when some move changes the board; with no two equal horizontal or
/// vertical neighbours no move changes it, and two equal neighbours in a row
/// (a column) make the move Left (Up) change it.
pub proof fn lemma_full_board_movable_iff_some_move_changes(b: Seq<Seq<Option<u32>>>)
    requires
        is_board(b),
        !has_empty(b),
        no_zero_tiles(b),
    ensures
        movable(b) <==> exists|d: Direction| #[trigger] after_move(b, d) != b,
{
    assert forall|y: int, x: int| 0 <= y < 4 && 0 <= x < 4 implies #[trigger] b[y][x] is Some by {
        assert(!(b[y][x] is None));
    }
    if movable(b) {
        if exists|y: int, x: int| 0 <= y < 4 && 0 <= x < 3 && #[trigger] b[y][x] == b[y][x + 1] {
            let (y, x) = choose|y: int, x: int| 0 <= y < 4 && 0 <= x < 3 && #[trigger] b[y][x] == b[y][x + 1];
            assert forall|i: int| 0 <= i < 4 implies #[trigger] b[y][i] is Some by {}
            lemma_full_line_with_pair_changes(b[y], x);
            let a = after_move(b, Direction::Left);
            assert(a[y] == slide(b[y], false));
            assert(a[y][3] != b[y][3]);
            assert(a != b);
        } else {
            let (y, x) = choose|y: int, x: int| 0 <= y < 3 && 0 <= x < 4 && #[trigger] b[y][x] == b[y + 1][x];
            let col = column(b, x);
            assert forall|i: int| 0 <= i < 4 implies #[trigger] col[i] is Some by {
                assert(col[i] == b[i][x]);
            }
            lemma_full_line_with_pair_changes(col, y);
            lemma_vertical_moves_act_on_columns(b);
            let a = after_move(b, Direction::Up);
            assert(column(a, x) == slide_front(col));
            assert(column(a, x)[3] == a[3][x]);
            assert(a[3][x] != b[3][x]);
            assert(a != b);
        }
    } else {
        assert forall|d: Direction| !(#[trigger] after_move(b, d) != b) by {
            lemma_stuck_board_is_fixed(b, d);
        }
    }
}

} // verus!
