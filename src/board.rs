//! The game board: cell occupancy, token placement, run counting and win
//! detection, and the base-3 encoding of a whole board as one integer.

use vstd::prelude::*;

verus! {

/// Number of columns.
pub const WIDTH: u8 = 7;

/// Number of rows.
pub const HEIGHT: u8 = 6;

/// Number of cells, `WIDTH * HEIGHT`.
pub const CELLS: usize = 42;

/// The color of a token.
#[allow(non_camel_case_types)]
#[derive(Clone, Copy, Debug, PartialEq, Eq, Structural)]
pub enum Token {
    YELLOW,
    RED,
}

/// How one coordinate changes along a direction.
#[derive(Clone, Copy, PartialEq, Eq, Structural)]
enum Direction {
    INCREASING,
    DECREASING,
    STABLE,
}

/// One of the compass directions, as a step on each axis.
struct Direction2D {
    pub x: Direction,
    pub y: Direction,
}

/// The step that a direction makes on its axis.
spec fn delta(d: Direction) -> int {
    match d {
        Direction::INCREASING => 1,
        Direction::DECREASING => -1,
        Direction::STABLE => 0,
    }
}

impl Direction2D {
    fn left() -> (r: Direction2D)
        ensures
            delta(r.x) == -1 && delta(r.y) == 0,
    {
        Direction2D { x: Direction::DECREASING, y: Direction::STABLE }
    }

    fn right() -> (r: Direction2D)
        ensures
            delta(r.x) == 1 && delta(r.y) == 0,
    {
        Direction2D { x: Direction::INCREASING, y: Direction::STABLE }
    }

    fn up() -> (r: Direction2D)
        ensures
            delta(r.x) == 0 && delta(r.y) == 1,
    {
        Direction2D { x: Direction::STABLE, y: Direction::INCREASING }
    }

    fn down() -> (r: Direction2D)
        ensures
            delta(r.x) == 0 && delta(r.y) == -1,
    {
        Direction2D { x: Direction::STABLE, y: Direction::DECREASING }
    }

    fn upleft() -> (r: Direction2D)
        ensures
            delta(r.x) == -1 && delta(r.y) == 1,
    {
        Direction2D { x: Direction::DECREASING, y: Direction::INCREASING }
    }

    fn upright() -> (r: Direction2D)
        ensures
            delta(r.x) == 1 && delta(r.y) == 1,
    {
        Direction2D { x: Direction::INCREASING, y: Direction::INCREASING }
    }

    fn downleft() -> (r: Direction2D)
        ensures
            delta(r.x) == -1 && delta(r.y) == -1,
    {
        Direction2D { x: Direction::DECREASING, y: Direction::DECREASING }
    }

    fn downright() -> (r: Direction2D)
        ensures
            delta(r.x) == 1 && delta(r.y) == -1,
    {
        Direction2D { x: Direction::INCREASING, y: Direction::DECREASING }
    }
}


/// A coordinate pair: column, then row.
pub type Index = (u8, u8);

/// Whether `(x, y)` names a cell: column in `1..=WIDTH`, row in `1..=HEIGHT`.
pub open spec fn in_board(x: int, y: int) -> bool {
    1 <= x <= WIDTH && 1 <= y <= HEIGHT
}

/// Position of cell `(x, y)` in the row-major, bottom-to-top cell sequence.
pub open spec fn cell_index(x: int, y: int) -> int {
    (y - 1) * WIDTH + (x - 1)
}

/// The token in cell `(x, y)` of the cell sequence `s`; `None` off the board.
pub open spec fn cell_of(s: Seq<Option<Token>>, x: int, y: int) -> Option<Token> {
    if in_board(x, y) {
        s[cell_index(x, y)]
    } else {
        None
    }
}

/// A board with no token.
pub open spec fn empty_cells() -> Seq<Option<Token>> {
    Seq::new(CELLS as nat, |_i: int| None)
}

/// The lowest empty row of column `col` at or above row `y`; `HEIGHT + 1`
/// where there is none.
pub open spec fn lowest_free_from(s: Seq<Option<Token>>, col: int, y: int) -> int
    decreases HEIGHT + 1 - y,
{
    if y > HEIGHT || y < 1 {
        HEIGHT + 1
    } else if cell_of(s, col, y) is None {
        y
    } else {
        lowest_free_from(s, col, y + 1)
    }
}

/// The row that a token dropped in column `col` lands in; `HEIGHT + 1` where
/// the column is full.
pub open spec fn lowest_free(s: Seq<Option<Token>>, col: int) -> int {
    lowest_free_from(s, col, 1)
}

/// Whether a token can be dropped in column `col`.
pub open spec fn can_place(s: Seq<Option<Token>>, col: int) -> bool {
    1 <= col <= WIDTH && lowest_free(s, col) <= HEIGHT
}

/// The board after dropping a token of color `c` in column `col`; unchanged
/// where the column is full or out of range.
pub open spec fn place(s: Seq<Option<Token>>, col: int, c: Token) -> Seq<Option<Token>> {
    if can_place(s, col) {
        s.update(cell_index(col, lowest_free(s, col)), Some(c))
    } else {
        s
    }
}

/// No floating token: below every occupied cell the cell is occupied too.
pub open spec fn gravity(s: Seq<Option<Token>>) -> bool {
    forall|x: int, y: int|
        in_board(x, y) && y > 1 && #[trigger] cell_of(s, x, y) is Some ==> cell_of(s, x, y - 1) is Some
}

/// Every cell of the board is occupied.
pub open spec fn full(s: Seq<Option<Token>>) -> bool {
    forall|x: int, y: int| in_board(x, y) ==> #[trigger] cell_of(s, x, y) is Some
}

/// The character that shows a cell: `Y`, `R`, or `_` for empty.
pub open spec fn char_of(o: Option<Token>) -> char {
    match o {
        None => '_',
        Some(Token::YELLOW) => 'Y',
        Some(Token::RED) => 'R',
    }
}

/// The board as text, one character per cell, column by column from the
/// left and each column from the bottom row up.
pub open spec fn board_text(s: Seq<Option<Token>>) -> Seq<char> {
    Seq::new(CELLS as nat, |i: int| char_of(cell_of(s, i / (HEIGHT as int) + 1, i % (HEIGHT as int) + 1)))
}

/// Relies on `String::push`, which appends one character at the end.
#[verifier::external_body]
fn push_char(s: &mut String, c: char)
    ensures
        final(s)@ == old(s)@.push(c),
{
    s.push(c);
}

/// The base-3 digit of a cell: 0 for empty, 1 for yellow, 2 for red.
pub open spec fn digit(o: Option<Token>) -> nat {
    match o {
        None => 0,
        Some(Token::YELLOW) => 1,
        Some(Token::RED) => 2,
    }
}

/// The cell that a base-3 digit stands for; any digit but 1 and 2 is empty.
pub open spec fn token_of_digit(d: nat) -> Option<Token> {
    if d == 1 {
        Some(Token::YELLOW)
    } else if d == 2 {
        Some(Token::RED)
    } else {
        None
    }
}

/// The base-3 number whose digit at position `i` is `digit(s[i])`, least
/// significant first.
pub open spec fn encode(s: Seq<Option<Token>>) -> nat
    decreases s.len(),
{
    if s.len() == 0 {
        0
    } else {
        digit(s[0]) + 3 * encode(s.drop_first())
    }
}

/// The `k` cells that the lowest `k` base-3 digits of `n` stand for, least
/// significant first.
pub open spec fn decode(n: nat, k: nat) -> Seq<Option<Token>>
    decreases k,
{
    if k == 0 {
        Seq::empty()
    } else {
        seq![token_of_digit(n % 3)] + decode(n / 3, (k - 1) as nat)
    }
}

/// Three to the power `k`.
pub open spec fn pow3(k: nat) -> nat
    decreases k,
{
    if k == 0 {
        1
    } else {
        3 * pow3((k - 1) as nat)
    }
}

proof fn lemma_pow3_monotone(a: nat, b: nat)
    requires
        a <= b,
    ensures
        pow3(a) <= pow3(b),
    decreases b,
{
    if a < b {
        lemma_pow3_monotone(a, (b - 1) as nat);
    }
}

proof fn lemma_pow3_cells()
    ensures
        pow3(CELLS as nat) == 109418989131512359209nat,
{
    reveal_with_fuel(pow3, 43);
}

/// The encoding of `n` cells has at most `n` digits.
proof fn lemma_encode_bound(s: Seq<Option<Token>>)
    ensures
        encode(s) < pow3(s.len()),
    decreases s.len(),
{
    if s.len() > 0 {
        lemma_encode_bound(s.drop_first());
    }
}

/// Decoding the encoding of a board gives the board back, and encoding
/// that again gives the same number.
pub proof fn lemma_round_trip(s: Seq<Option<Token>>)
    ensures
        decode(encode(s), s.len()) == s,
        encode(decode(encode(s), s.len())) == encode(s),
    decreases s.len(),
{
    if s.len() > 0 {
        let rest = s.drop_first();
        lemma_round_trip(rest);
        let n = encode(s);
        assert(n % 3 == digit(s[0]));
        assert(n / 3 == encode(rest));
        assert(decode(n, s.len()) =~= s);
    }
}

/// The cell `t` steps from `(x, y)` along `(dx, dy)`.
pub open spec fn ray_cell(s: Seq<Option<Token>>, x: int, y: int, dx: int, dy: int, t: int) -> Option<Token> {
    cell_of(s, x + t * dx, y + t * dy)
}

/// The four cells along `(dx, dy)` from `k` steps behind `(x, y)` on all
/// hold what `(x, y)` holds.
pub open spec fn window(s: Seq<Option<Token>>, x: int, y: int, dx: int, dy: int, k: int) -> bool {
    forall|t: int| -k <= t <= 3 - k ==> #[trigger] ray_cell(s, x, y, dx, dy, t) == cell_of(s, x, y)
}

/// Four cells in a row along the axis `(dx, dy)`, one of them `(x, y)`,
/// all holding what `(x, y)` holds.
pub open spec fn four_through(s: Seq<Option<Token>>, x: int, y: int, dx: int, dy: int) -> bool {
    exists|k: int| 0 <= k <= 3 && #[trigger] window(s, x, y, dx, dy, k)
}

/// Cell `(x, y)` holds a token that lies on a horizontal, vertical or
/// diagonal line of four tokens of its color.
pub open spec fn wins_at(s: Seq<Option<Token>>, x: int, y: int) -> bool {
    &&& cell_of(s, x, y) is Some
    &&& four_through(s, x, y, 1, 0) || four_through(s, x, y, 0, 1) || four_through(s, x, y, -1, 1)
        || four_through(s, x, y, 1, 1)
}

/// The highest occupied row of column `col` at or below row `y`; 0 where
/// there is none.
pub open spec fn top_from(s: Seq<Option<Token>>, col: int, y: int) -> int
    decreases y,
{
    if y < 1 {
        0
    } else if cell_of(s, col, y) is Some {
        y
    } else {
        top_from(s, col, y - 1)
    }
}

/// The topmost occupied row of column `col`; 0 where the column is empty.
pub open spec fn top_row(s: Seq<Option<Token>>, col: int) -> int {
    top_from(s, col, HEIGHT as int)
}

/// The topmost token of column `col` lies on a line of four of its color.
pub open spec fn column_wins(s: Seq<Option<Token>>, col: int) -> bool {
    top_row(s, col) >= 1 && wins_at(s, col, top_row(s, col))
}

/// A step on at least one axis, each by at most one.
spec fn moving(dx: int, dy: int) -> bool {
    dx == 1 || dx == -1 || (dx == 0 && (dy == 1 || dy == -1))
}

/// How many steps along `(dx, dy)` can still stay on the board.
spec fn steps_left(x: int, y: int, dx: int, dy: int) -> int {
    if dx == 1 {
        WIDTH + 1 - x
    } else if dx == -1 {
        x
    } else if dy == 1 {
        HEIGHT + 1 - y
    } else if dy == -1 {
        y
    } else {
        0
    }
}

/// The number of cells of color `c` in an unbroken row from `(x, y)` on
/// along `(dx, dy)`, `(x, y)` included.
spec fn run(s: Seq<Option<Token>>, x: int, y: int, dx: int, dy: int, c: Token) -> nat
    decreases steps_left(x, y, dx, dy),
{
    if in_board(x, y) && moving(dx, dy) && cell_of(s, x, y) == Some(c) {
        1 + run(s, x + dx, y + dy, dx, dy, c)
    } else {
        0
    }
}

proof fn lemma_shift(a: int, d: int, j: int)
    ensures
        a + d + j * d == a + (j + 1) * d,
        a + j * (-d) == a + (-j) * d,
        a + 0 * d == a,
{
    assert(a + d + j * d == a + (j + 1) * d) by (nonlinear_arith);
    assert(a + j * (-d) == a + (-j) * d) by (nonlinear_arith);
}

/// A run covers exactly the cells of its color from its start up to the
/// first cell that is not, and it is at most seven long.
proof fn lemma_run(s: Seq<Option<Token>>, x: int, y: int, dx: int, dy: int, c: Token)
    requires
        moving(dx, dy),
    ensures
        forall|j: int| 0 <= j < run(s, x, y, dx, dy, c) ==> ray_cell(s, x, y, dx, dy, j) == Some(c),
        ray_cell(s, x, y, dx, dy, run(s, x, y, dx, dy, c) as int) != Some(c),
        in_board(x, y) ==> run(s, x, y, dx, dy, c) <= steps_left(x, y, dx, dy),
        run(s, x, y, dx, dy, c) <= 7,
    decreases steps_left(x, y, dx, dy),
{
    lemma_shift(x, dx, 0);
    lemma_shift(y, dy, 0);
    if in_board(x, y) && cell_of(s, x, y) == Some(c) {
        let r = run(s, x + dx, y + dy, dx, dy, c);
        lemma_run(s, x + dx, y + dy, dx, dy, c);
        assert forall|j: int| 0 <= j < run(s, x, y, dx, dy, c) implies ray_cell(s, x, y, dx, dy, j) == Some(c) by {
            if j > 0 {
                lemma_shift(x, dx, j - 1);
                lemma_shift(y, dy, j - 1);
                assert(ray_cell(s, x + dx, y + dy, dx, dy, j - 1) == Some(c));
            }
        }
        lemma_shift(x, dx, r as int);
        lemma_shift(y, dy, r as int);
    }
}

/// The runs from `(x, y)` both ways along an axis, each counting `(x, y)`,
/// add up to at least five exactly where four cells of the color lie in a
/// row through `(x, y)`.
proof fn lemma_axis(s: Seq<Option<Token>>, x: int, y: int, dx: int, dy: int, c: Token)
    requires
        moving(dx, dy),
        moving(-dx, -dy),
        cell_of(s, x, y) == Some(c),
    ensures
        run(s, x, y, dx, dy, c) + run(s, x, y, -dx, -dy, c) >= 5 <==> four_through(s, x, y, dx, dy),
{
    let a = run(s, x, y, dx, dy, c) as int;
    let b = run(s, x, y, -dx, -dy, c) as int;
    lemma_run(s, x, y, dx, dy, c);
    lemma_run(s, x, y, -dx, -dy, c);
    assert forall|j: int| #![trigger ray_cell(s, x, y, -dx, -dy, j)]
        true implies ray_cell(s, x, y, -dx, -dy, j) == ray_cell(s, x, y, dx, dy, -j) by {
        lemma_shift(x, dx, j);
        lemma_shift(y, dy, j);
    }
    lemma_shift(x, dx, 0);
    lemma_shift(y, dy, 0);
    assert(a >= 1);
    assert(b >= 1);
    if a + b >= 5 {
        let k = if b - 1 < 3 { b - 1 } else { 3 };
        assert forall|t: int| -k <= t <= 3 - k implies #[trigger] ray_cell(s, x, y, dx, dy, t) == cell_of(s, x, y) by {
            if t < 0 {
                assert(ray_cell(s, x, y, -dx, -dy, -t) == Some(c));
            }
        }
        assert(window(s, x, y, dx, dy, k));
    }
    if four_through(s, x, y, dx, dy) {
        let k = choose|k: int| 0 <= k <= 3 && #[trigger] window(s, x, y, dx, dy, k);
        if a <= 3 - k {
            assert(ray_cell(s, x, y, dx, dy, a) == Some(c));
        }
        if b <= k {
            assert(ray_cell(s, x, y, dx, dy, -b) == Some(c));
            assert(ray_cell(s, x, y, -dx, -dy, b) == Some(c));
        }
    }
}

/// Scanning column `col` upward from row `y`: the rows passed over are
/// occupied, and the row found, if any, is empty.
proof fn lemma_lowest_free_from(s: Seq<Option<Token>>, col: int, y: int)
    requires
        1 <= y <= HEIGHT + 1,
    ensures
        y <= lowest_free_from(s, col, y) <= HEIGHT + 1,
        forall|z: int| y <= z < lowest_free_from(s, col, y) ==> cell_of(s, col, z) is Some,
        lowest_free_from(s, col, y) <= HEIGHT ==> cell_of(s, col, lowest_free_from(s, col, y)) is None,
    decreases HEIGHT + 1 - y,
{
    if y <= HEIGHT && cell_of(s, col, y) is Some {
        lemma_lowest_free_from(s, col, y + 1);
    }
}

/// Dropping a token never leaves a floating one.
proof fn lemma_place_keeps_gravity(s: Seq<Option<Token>>, col: int, c: Token)
    requires
        s.len() == CELLS,
        gravity(s),
    ensures
        gravity(place(s, col, c)),
{
    if can_place(s, col) {
        let f = lowest_free(s, col);
        lemma_lowest_free_from(s, col, 1);
        let t = place(s, col, c);
        assert forall|x: int, y: int|
            in_board(x, y) && y > 1 && #[trigger] cell_of(t, x, y) is Some implies cell_of(t, x, y - 1) is Some by {
            if x == col && y == f {
                assert(cell_of(s, col, y - 1) is Some);
            } else {
                assert(cell_of(t, x, y) == cell_of(s, x, y));
                assert(cell_of(s, x, y - 1) is Some);
            }
        }
    }
}

/// Position of cell `(x, y)` in the cell sequence.
fn index_of(x: u8, y: u8) -> (r: usize)
    requires
        in_board(x as int, y as int),
    ensures
        r as int == cell_index(x as int, y as int),
        r < CELLS,
{
    let row: usize = (y - 1) as usize;
    let col: usize = (x - 1) as usize;
    assert(row * 7 <= 35) by (nonlinear_arith)
        requires
            row <= 5,
    ;
    row * (WIDTH as usize) + col
}

/// The grid: a token or nothing in each cell, cell `(x, y)` at
/// `cell_index(x, y)`.
pub struct Board {
    cells: Vec<Option<Token>>,
}

impl View for Board {
    type V = Seq<Option<Token>>;

    closed spec fn view(&self) -> Seq<Option<Token>> {
        self.cells@
    }
}

impl Board {
    /// One entry per cell.
    pub open spec fn wf(&self) -> bool {
        self@.len() == CELLS
    }

    /// An empty board.
    pub fn new() -> (r: Board)
        ensures
            r.wf(),
            r@ == empty_cells(),
    {
        let mut cells: Vec<Option<Token>> = Vec::new();
        let mut i: usize = 0;
        while i < CELLS
            invariant
                i <= CELLS,
                cells@ == Seq::new(i as nat, |_j: int| None::<Token>),
            decreases CELLS - i,
        {
            cells.push(None);
            i = i + 1;
            assert(cells@ =~= Seq::new(i as nat, |_j: int| None::<Token>));
        }
        Board { cells }
    }

    /// The token in cell `(x, y)`, if any; `None` off the board.
    pub fn get_color_at_cell(&self, x: u8, y: u8) -> (r: Option<&Token>)
        requires
            self.wf(),
        ensures
            match r {
                Some(t) => cell_of(self@, x as int, y as int) == Some(*t),
                None => cell_of(self@, x as int, y as int) is None,
            },
    {
        if 1 <= x && x <= WIDTH && 1 <= y && y <= HEIGHT {
            self.cells[index_of(x, y)].as_ref()
        } else {
            None
        }
    }

    /// The character that shows cell `(x, y)`.
    fn cell_to_char(&self, x: u8, y: u8) -> (r: char)
        requires
            self.wf(),
        ensures
            r == char_of(cell_of(self@, x as int, y as int)),
    {
        match self.get_color_at_cell(x, y) {
            Some(color) => match color {
                Token::YELLOW => 'Y',
                Token::RED => 'R',
            },
            None => '_',
        }
    }

    /// The board as text: `Y`, `R` or `_` for each cell, column by column
    /// from the left, each column from the bottom row up.
    pub fn to_string(&self) -> (r: String)
        requires
            self.wf(),
        ensures
            r@ == board_text(self@),
    {
        let mut value = String::new();
        let mut x: u8 = 1;
        while x <= WIDTH
            invariant
                1 <= x <= WIDTH + 1,
                self.wf(),
                value@ == board_text(self@).subrange(0, (x - 1) * HEIGHT),
            decreases WIDTH + 1 - x,
        {
            let mut y: u8 = 1;
            while y <= HEIGHT
                invariant
                    1 <= x <= WIDTH,
                    1 <= y <= HEIGHT + 1,
                    self.wf(),
                    value@ == board_text(self@).subrange(0, (x - 1) * HEIGHT + (y - 1)),
                decreases HEIGHT + 1 - y,
            {
                let c = self.cell_to_char(x, y);
                proof {
                    let i = (x - 1) * HEIGHT + (y - 1);
                    assert(i / (HEIGHT as int) + 1 == x && i % (HEIGHT as int) + 1 == y);
                    assert(board_text(self@).subrange(0, i + 1) =~= value@.push(c));
                }
                push_char(&mut value, c);
                y = y + 1;
            }
            x = x + 1;
        }
        assert(board_text(self@).subrange(0, CELLS as int) =~= board_text(self@));
        value
    }

    /// The base-3 digit of cell `(x, y)`.
    fn cell_to_number(&self, x: u8, y: u8) -> (r: u128)
        requires
            self.wf(),
        ensures
            r == digit(cell_of(self@, x as int, y as int)),
    {
        match self.get_color_at_cell(x, y) {
            Some(color) => match color {
                Token::YELLOW => 1,
                Token::RED => 2,
            },
            None => 0,
        }
    }

    /// The whole board as one base-3 number: cell `(x, y)` is the digit at
    /// position `(y - 1) * WIDTH + (x - 1)`.
    pub fn to_number(&self) -> (r: u128)
        requires
            self.wf(),
        ensures
            r == encode(self@),
    {
        let mut value: u128 = 0;
        let mut i: usize = CELLS;
        proof {
            assert(self@.subrange(CELLS as int, CELLS as int) =~= Seq::<Option<Token>>::empty());
            lemma_pow3_cells();
        }
        while i > 0
            invariant
                i <= CELLS,
                self.wf(),
                value == encode(self@.subrange(i as int, CELLS as int)),
                pow3(CELLS as nat) == 109418989131512359209nat,
            decreases i,
        {
            i = i - 1;
            let x: u8 = (i % 7) as u8 + 1;
            let y: u8 = (i / 7) as u8 + 1;
            proof {
                assert(cell_index(x as int, y as int) == i);
                let tail = self@.subrange(i as int, CELLS as int);
                assert(tail.drop_first() =~= self@.subrange(i + 1, CELLS as int));
                lemma_encode_bound(self@.subrange(i + 1, CELLS as int));
                lemma_pow3_monotone((CELLS - i) as nat, CELLS as nat);
            }
            value = self.cell_to_number(x, y) + 3 * value;
        }
        assert(self@.subrange(0, CELLS as int) =~= self@);
        value
    }

    /// The board that the base-3 number `value` encodes. Only the lowest
    /// `CELLS` digits are read, and a digit other than 1 or 2 leaves its
    /// cell empty, so every number decodes to some board.
    pub fn from_number(value: u128) -> (r: Board)
        ensures
            r.wf(),
            r@ == decode(value as nat, CELLS as nat),
    {
        let mut cells: Vec<Option<Token>> = Vec::new();
        let mut current: u128 = value;
        let mut i: usize = 0;
        while i < CELLS
            invariant
                i <= CELLS,
                cells@.len() == i,
                cells@ + decode(current as nat, (CELLS - i) as nat) == decode(value as nat, CELLS as nat),
            decreases CELLS - i,
        {
            let current_cell = current % 3;
            let token = if current_cell == 1 {
                Some(Token::YELLOW)
            } else if current_cell == 2 {
                Some(Token::RED)
            } else {
                None
            };
            proof {
                let k = (CELLS - i) as nat;
                assert(decode(current as nat, k) == seq![token] + decode((current / 3) as nat, (k - 1) as nat));
                assert(cells@.push(token) + decode((current / 3) as nat, (k - 1) as nat)
                    =~= cells@ + decode(current as nat, k));
            }
            cells.push(token);
            current = current / 3;
            i = i + 1;
        }
        assert(cells@ =~= decode(value as nat, CELLS as nat));
        Board { cells }
    }

    /// Where `d` leads from `coord`, if that stays in `1..=bound`.
    fn linear_step(coord: u8, dir: &Direction, bound: u8) -> (r: Option<u8>)
        ensures
            r == (if 1 <= coord + delta(*dir) <= bound {
                Some((coord + delta(*dir)) as u8)
            } else {
                None::<u8>
            }),
    {
        let next: i16 = match dir {
            Direction::STABLE => coord as i16,
            Direction::INCREASING => coord as i16 + 1,
            Direction::DECREASING => coord as i16 - 1,
        };
        if next >= 1 && next <= bound as i16 {
            Some(next as u8)
        } else {
            None
        }
    }

    /// The neighbour of `idx` along `dir`, if it is on the board.
    fn step(idx: Index, dir: &Direction2D) -> (r: Option<Index>)
        ensures
            r == (if in_board(idx.0 + delta(dir.x), idx.1 + delta(dir.y)) {
                Some(((idx.0 + delta(dir.x)) as u8, (idx.1 + delta(dir.y)) as u8))
            } else {
                None::<Index>
            }),
    {
        match (Board::linear_step(idx.0, &dir.x, WIDTH), Board::linear_step(idx.1, &dir.y, HEIGHT)) {
            (Some(x), Some(y)) => Some((x, y)),
            _ => None,
        }
    }

    /// The topmost token of `column` lies on a horizontal, vertical or
    /// diagonal line of four of its color; false for an empty column.
    pub fn have_winner_at_column(&self, column: u8) -> (r: bool)
        requires
            self.wf(),
        ensures
            r == column_wins(self@, column as int),
    {
        let mut i: u8 = 1;
        while i <= HEIGHT
            invariant
                1 <= i <= HEIGHT + 1,
                self.wf(),
                top_from(self@, column as int, HEIGHT + 1 - i) == top_row(self@, column as int),
            decreases HEIGHT + 1 - i,
        {
            let row = HEIGHT + 1 - i;
            if self.get_color_at_cell(column, row).is_some() {
                return self.have_winner_at_index((column, row));
            }
            i = i + 1;
        }
        false
    }

    /// The token in cell `idx` lies on a line of four of its color.
    fn have_winner_at_index(&self, idx: Index) -> (r: bool)
        requires
            self.wf(),
        ensures
            r == wins_at(self@, idx.0 as int, idx.1 as int),
    {
        let ghost x = idx.0 as int;
        let ghost y = idx.1 as int;
        match self.get_color_at_cell(idx.0, idx.1) {
            Some(color) => {
                // Each count includes the starting cell, so the two counts
                // of an axis reach five for a line of four.
                proof {
                    lemma_axis(self@, x, y, 1, 0, *color);
                    lemma_axis(self@, x, y, 0, 1, *color);
                    lemma_axis(self@, x, y, -1, 1, *color);
                    lemma_axis(self@, x, y, 1, 1, *color);
                }
                // Horizontal
                if self.count_same_color_in_direction(Some(idx), &Direction2D::left(), color)
                    + self.count_same_color_in_direction(Some(idx), &Direction2D::right(), color) >= 5 {
                    return true;
                }
                // Vertical
                if self.count_same_color_in_direction(Some(idx), &Direction2D::up(), color)
                    + self.count_same_color_in_direction(Some(idx), &Direction2D::down(), color) >= 5 {
                    return true;
                }
                // Falling diagonal
                if self.count_same_color_in_direction(Some(idx), &Direction2D::upleft(), color)
                    + self.count_same_color_in_direction(Some(idx), &Direction2D::downright(), color)
                    >= 5 {
                    return true;
                }
                // Rising diagonal
                if self.count_same_color_in_direction(Some(idx), &Direction2D::upright(), color)
                    + self.count_same_color_in_direction(Some(idx), &Direction2D::downleft(), color)
                    >= 5 {
                    return true;
                }
                false
            },
            None => false,
        }
    }

    /// The number of cells of `color` in an unbroken row from `idx` on along
    /// `dir`, `idx` included.
    fn count_same_color_in_direction(&self, idx: Option<Index>, dir: &Direction2D, color: &Token) -> (r: u8)
        requires
            self.wf(),
            moving(delta(dir.x), delta(dir.y)),
        ensures
            r == (match idx {
                Some(i) => run(self@, i.0 as int, i.1 as int, delta(dir.x), delta(dir.y), *color),
                None => 0,
            }),
            r <= 7,
        decreases
            (match idx {
                Some(i) => if in_board(i.0 as int, i.1 as int) {
                    steps_left(i.0 as int, i.1 as int, delta(dir.x), delta(dir.y))
                } else {
                    0
                },
                None => 0,
            }),
    {
        if let Some(index) = idx {
            proof {
                lemma_run(self@, index.0 as int, index.1 as int, delta(dir.x), delta(dir.y), *color);
            }
            match self.get_color_at_cell(index.0, index.1) {
                Some(c) => {
                    if *c == *color {
                        let next = Board::step(index, dir);
                        let rest = self.count_same_color_in_direction(next, dir, color);
                        proof {
                            let (x, y, dx, dy) = (index.0 as int, index.1 as int, delta(dir.x), delta(dir.y));
                            assert(in_board(x, y));
                            assert(run(self@, x, y, dx, dy, *color) == 1 + run(self@, x + dx, y + dy, dx, dy, *color));
                            assert(rest == run(self@, x + dx, y + dy, dx, dy, *color));
                        }
                        1 + rest
                    } else {
                        0
                    }
                },
                None => 0,
            }
        } else {
            0
        }
    }

    /// Drops a token of `color` in `column`: it lands in the lowest empty
    /// row. `Ok(false)` where the column is full, and then nothing changes;
    /// an error where the column is not in `1..=WIDTH`.
    pub fn add_token(&mut self, column: u8, color: &Token) -> (r: Result<bool, &'static str>)
        requires
            old(self).wf(),
        ensures
            final(self).wf(),
            r is Err <==> !(1 <= column <= WIDTH),
            r is Ok ==> r == Ok::<bool, &'static str>(can_place(old(self)@, column as int)),
            final(self)@ == place(old(self)@, column as int, *color),
            gravity(old(self)@) ==> gravity(final(self)@),
    {
        if column < 1 || column > WIDTH {
            return Err("out of bounds");
        }
        let mut h: u8 = 1;
        while h <= HEIGHT
            invariant
                1 <= column <= WIDTH,
                1 <= h <= HEIGHT + 1,
                self@ == old(self)@,
                self.cells@.len() == CELLS,
                lowest_free_from(self@, column as int, h as int) == lowest_free(self@, column as int),
            decreases HEIGHT + 1 - h,
        {
            let i = index_of(column, h);
            if self.cells[i].is_none() {
                self.cells.set(i, Some(*color));
                proof {
                    if gravity(old(self)@) {
                        lemma_place_keeps_gravity(old(self)@, column as int, *color);
                    }
                }
                return Ok(true);
            }
            h = h + 1;
        }
        Ok(false)
    }

    /// Whether every cell is occupied.
    pub fn is_full(&self) -> (r: bool)
        requires
            self.wf(),
        ensures
            r == full(self@),
    {
        let mut i: usize = 0;
        while i < CELLS
            invariant
                i <= CELLS,
                self.cells@.len() == CELLS,
                forall|j: int| 0 <= j < i ==> self.cells@[j] is Some,
            decreases CELLS - i,
        {
            if self.cells[i].is_none() {
                proof {
                    let x = i as int % 7 + 1;
                    let y = i as int / 7 + 1;
                    assert(cell_index(x, y) == i);
                    assert(cell_of(self@, x, y) is None);
                }
                return false;
            }
            i = i + 1;
        }
        assert forall|x: int, y: int| in_board(x, y) implies #[trigger] cell_of(self@, x, y) is Some by {
            assert(0 <= cell_index(x, y) < CELLS);
        }
        true
    }

    /// Empties every cell.
    pub fn reset(&mut self)
        requires
            old(self).wf(),
        ensures
            final(self).wf(),
            final(self)@ == empty_cells(),
    {
        let mut i: usize = 0;
        while i < CELLS
            invariant
                i <= CELLS,
                self.cells@.len() == CELLS,
                forall|j: int| 0 <= j < i ==> self.cells@[j] is None,
            decreases CELLS - i,
        {
            self.cells.set(i, None);
            i = i + 1;
        }
        assert(self@ =~= empty_cells());
    }
}

} // verus!

verus! {

/// The board after dropping tokens from an empty board: each move is a
/// column and a color, in the order played.
pub open spec fn replay(moves: Seq<(int, Token)>) -> Seq<Option<Token>>
    decreases moves.len(),
{
    if moves.len() == 0 {
        empty_cells()
    } else {
        place(replay(moves.drop_last()), moves.last().0, moves.last().1)
    }
}

/// No sequence of drops leaves a floating token: in every column the
/// occupied rows are exactly the lowest few.
pub proof fn lemma_gravity(moves: Seq<(int, Token)>)
    ensures
        replay(moves).len() == CELLS,
        gravity(replay(moves)),
    decreases moves.len(),
{
    if moves.len() > 0 {
        lemma_gravity(moves.drop_last());
        lemma_lowest_free_from(replay(moves.drop_last()), moves.last().0, 1);
        lemma_place_keeps_gravity(replay(moves.drop_last()), moves.last().0, moves.last().1);
    } else {
        assert(empty_cells().len() == CELLS);
    }
}

/// Under gravity, every cell below an occupied one is occupied.
proof fn lemma_below_occupied(s: Seq<Option<Token>>, x: int, z: int, w: int)
    requires
        gravity(s),
        in_board(x, z),
        cell_of(s, x, z) is Some,
        1 <= w <= z,
    ensures
        cell_of(s, x, w) is Some,
    decreases z - w,
{
    if w < z {
        lemma_below_occupied(s, x, z - 1, w);
    }
}

proof fn lemma_top_from(s: Seq<Option<Token>>, col: int, y: int, z: int)
    requires
        1 <= y <= z,
        cell_of(s, col, y) is Some,
        forall|w: int| y < w <= z ==> cell_of(s, col, w) is None,
    ensures
        top_from(s, col, z) == y,
    decreases z - y,
{
    if z > y {
        lemma_top_from(s, col, y, z - 1);
    }
}

/// On a board without floating tokens, the token just dropped in a column
/// is that column's topmost, so the column reports a win exactly when that
/// token lies on a line of four of its color.
pub proof fn lemma_win_threshold(s: Seq<Option<Token>>, col: int, c: Token)
    requires
        s.len() == CELLS,
        gravity(s),
        can_place(s, col),
    ensures
        cell_of(place(s, col, c), col, lowest_free(s, col)) == Some(c),
        top_row(place(s, col, c), col) == lowest_free(s, col),
        column_wins(place(s, col, c), col) <==> wins_at(place(s, col, c), col, lowest_free(s, col)),
{
    let y = lowest_free(s, col);
    let t = place(s, col, c);
    lemma_lowest_free_from(s, col, 1);
    assert forall|w: int| y < w <= HEIGHT implies cell_of(t, col, w) is None by {
        assert(cell_of(t, col, w) == cell_of(s, col, w));
        if cell_of(s, col, w) is Some {
            lemma_below_occupied(s, col, w, y);
        }
    }
    lemma_top_from(t, col, y, HEIGHT as int);
}

} // verus!
